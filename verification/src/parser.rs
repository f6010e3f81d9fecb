//! Expression trees, and the parser that builds them from tokens.

use crate::grammar::{extends, is_statement, lemma_parse_sound, spelled};
use crate::lexer::{lexemes, Lexeme, Token};
use vstd::prelude::*;

verus! {

/// A binary connective.  The declaration runs from the one that binds
/// tightest to the one that binds loosest.
#[derive(Debug, PartialEq, Eq, Structural, Hash, Clone, Copy, PartialOrd, Ord)]
pub enum BinOperator {
    /// `&`
    And,
    /// `|`
    Or,
    /// `->`
    Arrow,
    /// `<->`
    TwinArrow,
}

/// A rewrite rule: an equivalence written out, or the name under which
/// one was bound.
#[derive(Debug, PartialEq, Eq, Hash, PartialOrd, Ord)]
pub enum Rule {
    /// `lhs = rhs`
    Equivalence(Expr, Expr),
    /// The atom whose name is the rule's.
    RuleId(usize),
}

/// An expression tree.  Atoms are indices into the table of names that the
/// parser filled.
#[derive(Debug, PartialEq, Eq, Hash, PartialOrd, Ord)]
pub enum Expr {
    /// `formula => rule`: rewrite the formula by the rule.
    Pattern(Box<Expr>, Box<Rule>),
    /// `name := rule`: bind the rule to the name.
    Binding(Box<Expr>, Box<Rule>),
    Binary(Box<Expr>, BinOperator, Box<Expr>),
    Not(Box<Expr>),
    /// A parenthesised expression.
    Group(Box<Expr>),
    Primary(usize),
}

impl Clone for Expr {
    fn clone(&self) -> (copy: Self)
        ensures
            copy == *self,
        decreases *self,
    {
        match self {
            Expr::Pattern(e, r) => Expr::Pattern(Box::new((**e).clone()), Box::new((**r).clone())),
            Expr::Binding(e, r) => Expr::Binding(Box::new((**e).clone()), Box::new((**r).clone())),
            Expr::Binary(l, op, r) => Expr::Binary(
                Box::new((**l).clone()),
                *op,
                Box::new((**r).clone()),
            ),
            Expr::Not(e) => Expr::Not(Box::new((**e).clone())),
            Expr::Group(e) => Expr::Group(Box::new((**e).clone())),
            Expr::Primary(n) => Expr::Primary(*n),
        }
    }
}

impl Clone for Rule {
    fn clone(&self) -> (copy: Self)
        ensures
            copy == *self,
        decreases *self,
    {
        match self {
            Rule::Equivalence(lhs, rhs) => Rule::Equivalence(lhs.clone(), rhs.clone()),
            Rule::RuleId(n) => Rule::RuleId(*n),
        }
    }
}

impl Expr {
    /// Whether every atom of the tree, and every rule name in it, is an
    /// index below `count`.
    pub open spec fn named_below(self, count: nat) -> bool
        decreases self,
    {
        match self {
            Expr::Pattern(e, r) => e.named_below(count) && r.named_below(count),
            Expr::Binding(e, r) => e.named_below(count) && r.named_below(count),
            Expr::Binary(l, _, r) => l.named_below(count) && r.named_below(count),
            Expr::Not(e) => e.named_below(count),
            Expr::Group(e) => e.named_below(count),
            Expr::Primary(n) => n < count,
        }
    }

    /// Whether the tree is a formula: made of atoms, connectives and
    /// parentheses alone, with no rewrite and no binding in it.
    pub open spec fn is_formula(self) -> bool
        decreases self,
    {
        match self {
            Expr::Pattern(_, _) => false,
            Expr::Binding(_, _) => false,
            Expr::Binary(l, _, r) => l.is_formula() && r.is_formula(),
            Expr::Not(e) => e.is_formula(),
            Expr::Group(e) => e.is_formula(),
            Expr::Primary(_) => true,
        }
    }

    /// Whether every atom of the tree, and every rule name in it, is an
    /// index below `count`.
    pub fn is_named_below(&self, count: usize) -> (r: bool)
        ensures
            r == self.named_below(count as nat),
        decreases *self,
    {
        match self {
            Expr::Pattern(e, r) => e.is_named_below(count) && r.is_named_below(count),
            Expr::Binding(e, r) => e.is_named_below(count) && r.is_named_below(count),
            Expr::Binary(l, _, r) => l.is_named_below(count) && r.is_named_below(count),
            Expr::Not(e) => e.is_named_below(count),
            Expr::Group(e) => e.is_named_below(count),
            Expr::Primary(n) => *n < count,
        }
    }

    /// Whether the two trees are the same.
    pub fn same(&self, other: &Expr) -> (r: bool)
        ensures
            r == (*self == *other),
        decreases *self,
    {
        match (self, other) {
            (Expr::Pattern(e, r), Expr::Pattern(f, s)) => e.same(f) && r.same(s),
            (Expr::Binding(e, r), Expr::Binding(f, s)) => e.same(f) && r.same(s),
            (Expr::Binary(l, op, r), Expr::Binary(m, oq, s)) => l.same(m) && *op == *oq && r.same(
                s,
            ),
            (Expr::Not(e), Expr::Not(f)) => e.same(f),
            (Expr::Group(e), Expr::Group(f)) => e.same(f),
            (Expr::Primary(m), Expr::Primary(n)) => *m == *n,
            _ => false,
        }
    }

    /// Whether the tree is a formula.
    pub fn check_formula(&self) -> (r: bool)
        ensures
            r == self.is_formula(),
        decreases *self,
    {
        match self {
            Expr::Pattern(_, _) => false,
            Expr::Binding(_, _) => false,
            Expr::Binary(l, _, r) => l.check_formula() && r.check_formula(),
            Expr::Not(e) => e.check_formula(),
            Expr::Group(e) => e.check_formula(),
            Expr::Primary(_) => true,
        }
    }
}

impl Rule {
    /// Whether every atom of the rule, or the rule's name, is an index
    /// below `count`.
    pub open spec fn named_below(self, count: nat) -> bool
        decreases self,
    {
        match self {
            Rule::Equivalence(lhs, rhs) => lhs.named_below(count) && rhs.named_below(count),
            Rule::RuleId(n) => n < count,
        }
    }

    /// Whether the two rules are the same.
    pub fn same(&self, other: &Rule) -> (r: bool)
        ensures
            r == (*self == *other),
        decreases *self,
    {
        match (self, other) {
            (Rule::Equivalence(l, r), Rule::Equivalence(m, s)) => l.same(m) && r.same(s),
            (Rule::RuleId(m), Rule::RuleId(n)) => *m == *n,
            _ => false,
        }
    }

    /// Whether every atom of the rule, or the rule's name, is an index
    /// below `count`.
    pub fn is_named_below(&self, count: usize) -> (r: bool)
        ensures
            r == self.named_below(count as nat),
        decreases *self,
    {
        match self {
            Rule::Equivalence(lhs, rhs) => lhs.is_named_below(count) && rhs.is_named_below(count),
            Rule::RuleId(n) => *n < count,
        }
    }
}

/// Why a sequence of tokens is no statement.  Positions count tokens from
/// zero.
#[derive(Debug, PartialEq, Eq, Clone, Copy)]
pub enum ParseError {
    /// The token at this position cannot start a formula.
    UnexpectedToken(usize),
    /// The tokens ended where a formula had to start.
    UnexpectedEnd,
    /// A `(` and the formula behind it were not followed by `)`.
    MissingCloseParen,
    /// `:=` stands behind something that is not a single atom.
    NotAnIdentifier,
    /// The pattern behind `:=` is not followed by `=`.
    ExpectedEqual,
    /// The pattern behind `=>` is followed by the token at this position,
    /// which is not `=`.
    ExpectedEqualOrRuleName(usize),
    /// The tokens end behind `=>` and a formula that is not a single atom,
    /// so it names no rule.
    ExpectedRuleName,
    /// A whole statement was read and the token at this position is left
    /// over.
    TrailingInput(usize),
}

/// The names that a table of interned strings holds.
pub open spec fn names_of(interned: Seq<String>) -> Seq<Seq<char>> {
    Seq::new(interned.len(), |i: int| interned[i]@)
}

/// The first position at which `names` holds `word`, or the length of
/// `names` if it holds it nowhere.
pub open spec fn first_index(names: Seq<Seq<char>>, word: Seq<char>) -> nat
    decreases names.len(),
{
    if names.len() == 0 {
        0
    } else if names[0] == word {
        0
    } else {
        1 + first_index(names.drop_first(), word)
    }
}

/// The table after `word` was interned: unchanged if it held the word,
/// else with the word at its end.
pub open spec fn interned_with(names: Seq<Seq<char>>, word: Seq<char>) -> Seq<Seq<char>> {
    if first_index(names, word) < names.len() {
        names
    } else {
        names.push(word)
    }
}

/// What parsing from some position came to: the tree or the error, the
/// number of tokens consumed, and the table of names afterwards.
pub struct Parsed {
    pub result: Result<Expr, ParseError>,
    pub used: nat,
    pub names: Seq<Seq<char>>,
}

pub open spec fn token_at(tokens: Seq<Lexeme>, pos: nat) -> Option<Lexeme> {
    if pos < tokens.len() {
        Some(tokens[pos as int])
    } else {
        None
    }
}

/// The number of tokens from `pos` on.
pub open spec fn remaining(tokens: Seq<Lexeme>, pos: nat) -> nat {
    if pos < tokens.len() {
        (tokens.len() - pos) as nat
    } else {
        0
    }
}

/// The token that spells `op`.
pub open spec fn op_lexeme(op: BinOperator) -> Lexeme {
    match op {
        BinOperator::And => Lexeme::And,
        BinOperator::Or => Lexeme::Or,
        BinOperator::Arrow => Lexeme::Arrow,
        BinOperator::TwinArrow => Lexeme::TwinArrow,
    }
}

/// How loosely `op` binds: 0 for the tightest.
pub open spec fn looseness(op: BinOperator) -> nat {
    match op {
        BinOperator::And => 0,
        BinOperator::Or => 1,
        BinOperator::Arrow => 2,
        BinOperator::TwinArrow => 3,
    }
}

/// primary := identifier | `(` twin-arrow-chain `)`
///
/// One token is consumed whatever it is; an identifier is interned.  Behind
/// a parenthesised formula one more token is consumed, and it has to be
/// `)`.
pub open spec fn spec_primary(tokens: Seq<Lexeme>, pos: nat, names: Seq<Seq<char>>) -> Parsed
    decreases remaining(tokens, pos), 0nat,
{
    match token_at(tokens, pos) {
        Some(Lexeme::Identifier(word)) => Parsed {
            result: Ok(Expr::Primary(first_index(names, word) as usize)),
            used: 1,
            names: interned_with(names, word),
        },
        Some(Lexeme::OpenParen) => {
            let inner = spec_chain(tokens, pos + 1, names, BinOperator::TwinArrow);
            match inner.result {
                Err(e) => Parsed { result: Err(e), used: 1 + inner.used, names: inner.names },
                Ok(e) => match token_at(tokens, pos + 1 + inner.used) {
                    Some(Lexeme::CloseParen) => Parsed {
                        result: Ok(Expr::Group(Box::new(e))),
                        used: 2 + inner.used,
                        names: inner.names,
                    },
                    Some(_) => Parsed {
                        result: Err(ParseError::MissingCloseParen),
                        used: 2 + inner.used,
                        names: inner.names,
                    },
                    None => Parsed {
                        result: Err(ParseError::MissingCloseParen),
                        used: 1 + inner.used,
                        names: inner.names,
                    },
                },
            }
        },
        Some(_) => Parsed {
            result: Err(ParseError::UnexpectedToken(pos as usize)),
            used: 1,
            names,
        },
        None => Parsed { result: Err(ParseError::UnexpectedEnd), used: 0, names },
    }
}

/// negation := `~` negation | primary
pub open spec fn spec_not(tokens: Seq<Lexeme>, pos: nat, names: Seq<Seq<char>>) -> Parsed
    decreases remaining(tokens, pos), 1nat,
{
    if token_at(tokens, pos) == Some(Lexeme::Not) {
        let inner = spec_not(tokens, pos + 1, names);
        Parsed {
            result: match inner.result {
                Ok(e) => Ok(Expr::Not(Box::new(e))),
                Err(e) => Err(e),
            },
            used: 1 + inner.used,
            names: inner.names,
        }
    } else {
        spec_primary(tokens, pos, names)
    }
}

/// What stands on either side of `op`: a chain of the operator that binds
/// next tighter, and a negation on either side of `&`.
pub open spec fn spec_operand(
    tokens: Seq<Lexeme>,
    pos: nat,
    names: Seq<Seq<char>>,
    op: BinOperator,
) -> Parsed
    decreases remaining(tokens, pos), 2 + 4 * looseness(op),
{
    match op {
        BinOperator::And => spec_not(tokens, pos, names),
        BinOperator::Or => spec_chain(tokens, pos, names, BinOperator::And),
        BinOperator::Arrow => spec_chain(tokens, pos, names, BinOperator::Or),
        BinOperator::TwinArrow => spec_chain(tokens, pos, names, BinOperator::Arrow),
    }
}

/// The rest of a chain of `op` whose start, parsed from `start`, came to
/// `left`.  Each further operand joins what stands to its left, so the
/// chain leans left.  An error on the right is reported before one that
/// `left` already carries.
pub open spec fn spec_chain_tail(
    tokens: Seq<Lexeme>,
    start: nat,
    left: Parsed,
    op: BinOperator,
) -> Parsed
    decreases remaining(tokens, start + left.used), 3 + 4 * looseness(op),
{
    if token_at(tokens, start + left.used) == Some(op_lexeme(op)) {
        let right = spec_operand(tokens, start + left.used + 1, left.names, op);
        let used = left.used + 1 + right.used;
        match (right.result, left.result) {
            (Err(e), _) => Parsed { result: Err(e), used, names: right.names },
            (Ok(_), Err(e)) => Parsed { result: Err(e), used, names: right.names },
            (Ok(r), Ok(l)) => spec_chain_tail(
                tokens,
                start,
                Parsed {
                    result: Ok(Expr::Binary(Box::new(l), op, Box::new(r))),
                    used,
                    names: right.names,
                },
                op,
            ),
        }
    } else {
        left
    }
}

/// chain(op) := operand(op) { op operand(op) }
pub open spec fn spec_chain(
    tokens: Seq<Lexeme>,
    pos: nat,
    names: Seq<Seq<char>>,
    op: BinOperator,
) -> Parsed
    decreases remaining(tokens, pos), 4 + 4 * looseness(op),
{
    spec_chain_tail(tokens, pos, spec_operand(tokens, pos, names, op), op)
}

/// The formulas of the grammar: the chains of `<->`.
pub open spec fn spec_formula(tokens: Seq<Lexeme>, pos: nat, names: Seq<Seq<char>>) -> Parsed {
    spec_chain(tokens, pos, names, BinOperator::TwinArrow)
}

/// The rewrites behind a formula that was parsed from the first token and
/// came to `left`: `=> lhs = rhs`, any number of times, each wrapping what
/// stands to its left, or `=> name` at the very end of the tokens.
pub open spec fn spec_rewrites(tokens: Seq<Lexeme>, left: Parsed) -> Parsed
    decreases remaining(tokens, left.used),
{
    if token_at(tokens, left.used) == Some(Lexeme::Rule) {
        let lhs = spec_formula(tokens, left.used + 1, left.names);
        let behind = left.used + 1 + lhs.used;
        match lhs.result {
            Err(e) => Parsed { result: Err(e), used: behind, names: lhs.names },
            Ok(l) => match token_at(tokens, behind) {
                Some(Lexeme::Equal) => {
                    let rhs = spec_formula(tokens, behind + 1, lhs.names);
                    let used = behind + 1 + rhs.used;
                    match (rhs.result, left.result) {
                        (Err(e), _) => Parsed { result: Err(e), used, names: rhs.names },
                        (Ok(_), Err(e)) => Parsed { result: Err(e), used, names: rhs.names },
                        (Ok(r), Ok(target)) => spec_rewrites(
                            tokens,
                            Parsed {
                                result: Ok(
                                    Expr::Pattern(
                                        Box::new(target),
                                        Box::new(Rule::Equivalence(l, r)),
                                    ),
                                ),
                                used,
                                names: rhs.names,
                            },
                        ),
                    }
                },
                Some(_) => Parsed {
                    result: Err(ParseError::ExpectedEqualOrRuleName(behind as usize)),
                    used: behind,
                    names: lhs.names,
                },
                None => Parsed {
                    result: match (l, left.result) {
                        (Expr::Primary(_), Err(e)) => Err(e),
                        (Expr::Primary(n), Ok(target)) => Ok(
                            Expr::Pattern(Box::new(target), Box::new(Rule::RuleId(n))),
                        ),
                        _ => Err(ParseError::ExpectedRuleName),
                    },
                    used: behind,
                    names: lhs.names,
                },
            },
        }
    } else {
        left
    }
}

/// The binding whose name, parsed from the first token, came to `left`,
/// with `:=` as the next token: `name := lhs = rhs`.
pub open spec fn spec_binding(tokens: Seq<Lexeme>, left: Parsed) -> Parsed {
    match left.result {
        Ok(Expr::Primary(n)) => {
            let lhs = spec_formula(tokens, left.used + 1, left.names);
            let behind = left.used + 1 + lhs.used;
            match lhs.result {
                Err(e) => Parsed { result: Err(e), used: behind, names: lhs.names },
                Ok(l) => if token_at(tokens, behind) == Some(Lexeme::Equal) {
                    let rhs = spec_formula(tokens, behind + 1, lhs.names);
                    Parsed {
                        result: match rhs.result {
                            Err(e) => Err(e),
                            Ok(r) => Ok(
                                Expr::Binding(
                                    Box::new(Expr::Primary(n)),
                                    Box::new(Rule::Equivalence(l, r)),
                                ),
                            ),
                        },
                        used: behind + 1 + rhs.used,
                        names: rhs.names,
                    }
                } else {
                    Parsed {
                        result: Err(ParseError::ExpectedEqual),
                        used: behind,
                        names: lhs.names,
                    }
                },
            }
        },
        _ => Parsed {
            result: Err(ParseError::NotAnIdentifier),
            used: left.used,
            names: left.names,
        },
    }
}

/// statement := name `:=` formula `=` formula
///            | formula { `=>` formula `=` formula } [ `=>` name ]
pub open spec fn spec_statement(tokens: Seq<Lexeme>, names: Seq<Seq<char>>) -> Parsed {
    let left = spec_formula(tokens, 0, names);
    if token_at(tokens, left.used) == Some(Lexeme::Binding) {
        spec_binding(tokens, left)
    } else {
        spec_rewrites(tokens, left)
    }
}

/// A statement, and nothing behind it.
pub open spec fn spec_parse(tokens: Seq<Lexeme>, names: Seq<Seq<char>>) -> Parsed {
    let statement = spec_statement(tokens, names);
    if statement.result is Ok && statement.used < tokens.len() {
        Parsed {
            result: Err(ParseError::TrailingInput(statement.used as usize)),
            used: statement.used,
            names: statement.names,
        }
    } else {
        statement
    }
}

/// `result`, the position and the table of names are what `parsed` says,
/// for a parser that started at `start`.
pub open spec fn agrees(
    result: Result<Expr, ParseError>,
    start: usize,
    pos: usize,
    interned: Seq<String>,
    parsed: Parsed,
) -> bool {
    &&& result == parsed.result
    &&& pos == start + parsed.used
    &&& names_of(interned) == parsed.names
}

/// Where `first_index` points is the first place that holds the word.
pub proof fn lemma_first_index(names: Seq<Seq<char>>, word: Seq<char>)
    ensures
        first_index(names, word) <= names.len(),
        first_index(names, word) < names.len() ==> names[first_index(names, word) as int] == word,
        forall|i: int| 0 <= i < first_index(names, word) ==> names[i] != word,
    decreases names.len(),
{
    if names.len() > 0 && names[0] != word {
        let rest = names.drop_first();
        lemma_first_index(rest, word);
        assert forall|i: int| 0 <= i < first_index(names, word) implies names[i] != word by {
            if i > 0 {
                assert(names[i] == rest[i - 1]);
            }
        }
    }
}

/// The token at `pos`, if there is one.
fn peek(tokens: &Vec<Token>, pos: usize) -> (token: Option<&Token>)
    ensures
        match token {
            Some(t) => pos < tokens.len() && *t == tokens[pos as int] && token_at(
                lexemes(tokens@),
                pos as nat,
            ) == Some(t@),
            None => pos >= tokens.len() && token_at(lexemes(tokens@), pos as nat) is None,
        },
{
    if pos < tokens.len() {
        Some(&tokens[pos])
    } else {
        None
    }
}

/// Interns `name`: gives the index at which the table holds it, after
/// appending it if the table did not hold it.
fn intern(interned: &mut Vec<String>, name: &String) -> (index: usize)
    ensures
        index == first_index(names_of(old(interned)@), name@),
        names_of(final(interned)@) == interned_with(names_of(old(interned)@), name@),
{
    let ghost names = names_of(interned@);
    let mut i: usize = 0;
    while i < interned.len()
        invariant
            i <= interned.len(),
            *interned == *old(interned),
            names == names_of(interned@),
            forall|j: int| 0 <= j < i ==> names[j] != name@,
        decreases interned.len() - i,
    {
        if interned[i] == *name {
            proof {
                assert(names[i as int] == name@);
                lemma_first_index(names, name@);
            }
            return i;
        }
        i += 1;
    }
    proof {
        lemma_first_index(names, name@);
    }
    interned.push(name.clone());
    assert(names_of(interned@) =~= names.push(name@));
    i
}

/// Parses a primary: an atom, or a formula in parentheses.
fn primary(tokens: &Vec<Token>, pos: &mut usize, interned: &mut Vec<String>) -> (result: Result<
    Expr,
    ParseError,
>)
    requires
        *old(pos) <= tokens.len(),
    ensures
        *final(pos) <= tokens.len(),
        agrees(
            result,
            *old(pos),
            *final(pos),
            final(interned)@,
            spec_primary(lexemes(tokens@), *old(pos) as nat, names_of(old(interned)@)),
        ),
    decreases tokens.len() - *old(pos), 0nat,
{
    let at = *pos;
    match peek(tokens, at) {
        None => Err(ParseError::UnexpectedEnd),
        Some(Token::Identifier(name)) => {
            *pos = at + 1;
            let index = intern(interned, name);
            Ok(Expr::Primary(index))
        },
        Some(Token::OpenParen) => {
            *pos = at + 1;
            match logic_twin_arrow(tokens, pos, interned) {
                Err(e) => Err(e),
                Ok(inner) => match peek(tokens, *pos) {
                    Some(Token::CloseParen) => {
                        *pos = *pos + 1;
                        Ok(Expr::Group(Box::new(inner)))
                    },
                    Some(_) => {
                        *pos = *pos + 1;
                        Err(ParseError::MissingCloseParen)
                    },
                    None => Err(ParseError::MissingCloseParen),
                },
            }
        },
        Some(_) => {
            *pos = at + 1;
            Err(ParseError::UnexpectedToken(at))
        },
    }
}

/// Parses a negation: any number of `~` before a primary.
fn logic_not(tokens: &Vec<Token>, pos: &mut usize, interned: &mut Vec<String>) -> (result: Result<
    Expr,
    ParseError,
>)
    requires
        *old(pos) <= tokens.len(),
    ensures
        *final(pos) <= tokens.len(),
        agrees(
            result,
            *old(pos),
            *final(pos),
            final(interned)@,
            spec_not(lexemes(tokens@), *old(pos) as nat, names_of(old(interned)@)),
        ),
    decreases tokens.len() - *old(pos), 1nat,
{
    if let Some(Token::Not) = peek(tokens, *pos) {
        *pos = *pos + 1;
        match logic_not(tokens, pos, interned) {
            Ok(inner) => Ok(Expr::Not(Box::new(inner))),
            Err(e) => Err(e),
        }
    } else {
        primary(tokens, pos, interned)
    }
}

/// Parses what stands on either side of `op`.
fn operand(
    tokens: &Vec<Token>,
    pos: &mut usize,
    interned: &mut Vec<String>,
    op: BinOperator,
) -> (result: Result<Expr, ParseError>)
    requires
        *old(pos) <= tokens.len(),
    ensures
        *final(pos) <= tokens.len(),
        agrees(
            result,
            *old(pos),
            *final(pos),
            final(interned)@,
            spec_operand(lexemes(tokens@), *old(pos) as nat, names_of(old(interned)@), op),
        ),
    decreases tokens.len() - *old(pos), 2 + 4 * looseness(op),
{
    match op {
        BinOperator::And => logic_not(tokens, pos, interned),
        BinOperator::Or => logic_and(tokens, pos, interned),
        BinOperator::Arrow => logic_or(tokens, pos, interned),
        BinOperator::TwinArrow => logic_arrow(tokens, pos, interned),
    }
}

/// Whether `token` spells `op`.
fn spells(token: &Token, op: BinOperator) -> (r: bool)
    ensures
        r == (token@ == op_lexeme(op)),
{
    match (token, op) {
        (Token::And, BinOperator::And) => true,
        (Token::Or, BinOperator::Or) => true,
        (Token::Arrow, BinOperator::Arrow) => true,
        (Token::TwinArrow, BinOperator::TwinArrow) => true,
        _ => false,
    }
}

/// Whether the token at `pos` spells `op`.
fn at_operator(tokens: &Vec<Token>, pos: usize, op: BinOperator) -> (r: bool)
    ensures
        r == (token_at(lexemes(tokens@), pos as nat) == Some(op_lexeme(op))),
{
    match peek(tokens, pos) {
        Some(token) => spells(token, op),
        None => false,
    }
}

/// Parses a chain of operands joined by `op`, which leans to the left.
fn chain(
    tokens: &Vec<Token>,
    pos: &mut usize,
    interned: &mut Vec<String>,
    op: BinOperator,
) -> (result: Result<Expr, ParseError>)
    requires
        *old(pos) <= tokens.len(),
    ensures
        *final(pos) <= tokens.len(),
        agrees(
            result,
            *old(pos),
            *final(pos),
            final(interned)@,
            spec_chain(lexemes(tokens@), *old(pos) as nat, names_of(old(interned)@), op),
        ),
    decreases tokens.len() - *old(pos), 4 + 4 * looseness(op),
{
    let ghost start = *pos;
    let ghost goal = spec_chain(lexemes(tokens@), start as nat, names_of(interned@), op);
    let mut left = operand(tokens, pos, interned, op);
    while at_operator(tokens, *pos, op)
        invariant
            start == *old(pos),
            start <= *pos <= tokens.len(),
            goal == spec_chain(lexemes(tokens@), start as nat, names_of(old(interned)@), op),
            goal == spec_chain_tail(
                lexemes(tokens@),
                start as nat,
                Parsed { result: left, used: (*pos - start) as nat, names: names_of(interned@) },
                op,
            ),
        decreases tokens.len() - *pos,
    {
        *pos = *pos + 1;
        let right = operand(tokens, pos, interned, op);
        match (right, left) {
            (Err(e), _) => {
                return Err(e);
            },
            (Ok(_), Err(e)) => {
                return Err(e);
            },
            (Ok(r), Ok(l)) => {
                left = Ok(Expr::Binary(Box::new(l), op, Box::new(r)));
            },
        }
    }
    left
}

/// Parses a chain of `&`.
fn logic_and(tokens: &Vec<Token>, pos: &mut usize, interned: &mut Vec<String>) -> (result: Result<
    Expr,
    ParseError,
>)
    requires
        *old(pos) <= tokens.len(),
    ensures
        *final(pos) <= tokens.len(),
        agrees(
            result,
            *old(pos),
            *final(pos),
            final(interned)@,
            spec_chain(
                lexemes(tokens@),
                *old(pos) as nat,
                names_of(old(interned)@),
                BinOperator::And,
            ),
        ),
    decreases tokens.len() - *old(pos), 5nat,
{
    chain(tokens, pos, interned, BinOperator::And)
}

/// Parses a chain of `|`.
fn logic_or(tokens: &Vec<Token>, pos: &mut usize, interned: &mut Vec<String>) -> (result: Result<
    Expr,
    ParseError,
>)
    requires
        *old(pos) <= tokens.len(),
    ensures
        *final(pos) <= tokens.len(),
        agrees(
            result,
            *old(pos),
            *final(pos),
            final(interned)@,
            spec_chain(
                lexemes(tokens@),
                *old(pos) as nat,
                names_of(old(interned)@),
                BinOperator::Or,
            ),
        ),
    decreases tokens.len() - *old(pos), 9nat,
{
    chain(tokens, pos, interned, BinOperator::Or)
}

/// Parses a chain of `->`.
fn logic_arrow(tokens: &Vec<Token>, pos: &mut usize, interned: &mut Vec<String>) -> (result: Result<
    Expr,
    ParseError,
>)
    requires
        *old(pos) <= tokens.len(),
    ensures
        *final(pos) <= tokens.len(),
        agrees(
            result,
            *old(pos),
            *final(pos),
            final(interned)@,
            spec_chain(
                lexemes(tokens@),
                *old(pos) as nat,
                names_of(old(interned)@),
                BinOperator::Arrow,
            ),
        ),
    decreases tokens.len() - *old(pos), 13nat,
{
    chain(tokens, pos, interned, BinOperator::Arrow)
}

/// Parses a formula: a chain of `<->`.
fn logic_twin_arrow(tokens: &Vec<Token>, pos: &mut usize, interned: &mut Vec<String>) -> (result:
    Result<Expr, ParseError>)
    requires
        *old(pos) <= tokens.len(),
    ensures
        *final(pos) <= tokens.len(),
        agrees(
            result,
            *old(pos),
            *final(pos),
            final(interned)@,
            spec_formula(lexemes(tokens@), *old(pos) as nat, names_of(old(interned)@)),
        ),
    decreases tokens.len() - *old(pos), 17nat,
{
    chain(tokens, pos, interned, BinOperator::TwinArrow)
}

/// Parses a binding behind its name, which came to `left`; `pos` is at
/// the `:=`.
fn binding(
    tokens: &Vec<Token>,
    pos: &mut usize,
    interned: &mut Vec<String>,
    left: Result<Expr, ParseError>,
) -> (result: Result<Expr, ParseError>)
    requires
        *old(pos) < tokens.len(),
    ensures
        *final(pos) <= tokens.len(),
        agrees(
            result,
            0,
            *final(pos),
            final(interned)@,
            spec_binding(
                lexemes(tokens@),
                Parsed { result: left, used: *old(pos) as nat, names: names_of(old(interned)@) },
            ),
        ),
{
    let name = match left {
        Ok(Expr::Primary(n)) => Expr::Primary(n),
        _ => {
            return Err(ParseError::NotAnIdentifier);
        },
    };
    *pos = *pos + 1;
    let lhs = match logic_twin_arrow(tokens, pos, interned) {
        Ok(lhs) => lhs,
        Err(e) => {
            return Err(e);
        },
    };
    if let Some(Token::Equal) = peek(tokens, *pos) {
        *pos = *pos + 1;
        match logic_twin_arrow(tokens, pos, interned) {
            Ok(rhs) => Ok(Expr::Binding(Box::new(name), Box::new(Rule::Equivalence(lhs, rhs)))),
            Err(e) => Err(e),
        }
    } else {
        Err(ParseError::ExpectedEqual)
    }
}

/// Parses a statement from the first token on: a binding, or a formula
/// and the rewrites behind it.
fn pattern_match(tokens: &Vec<Token>, pos: &mut usize, interned: &mut Vec<String>) -> (result:
    Result<Expr, ParseError>)
    requires
        *old(pos) == 0,
    ensures
        *final(pos) <= tokens.len(),
        agrees(
            result,
            0,
            *final(pos),
            final(interned)@,
            spec_statement(lexemes(tokens@), names_of(old(interned)@)),
        ),
{
    let ghost goal = spec_statement(lexemes(tokens@), names_of(interned@));
    let mut left = logic_twin_arrow(tokens, pos, interned);
    if let Some(Token::Binding) = peek(tokens, *pos) {
        return binding(tokens, pos, interned, left);
    }
    loop
        invariant
            *pos <= tokens.len(),
            goal == spec_statement(lexemes(tokens@), names_of(old(interned)@)),
            goal == spec_rewrites(
                lexemes(tokens@),
                Parsed { result: left, used: *pos as nat, names: names_of(interned@) },
            ),
        ensures
            *pos <= tokens.len(),
            agrees(left, 0, *pos, interned@, goal),
        decreases tokens.len() - *pos,
    {
        match peek(tokens, *pos) {
            Some(Token::Rule) => {},
            _ => {
                break ;
            },
        }
        *pos = *pos + 1;
        let lhs = match logic_twin_arrow(tokens, pos, interned) {
            Ok(lhs) => lhs,
            Err(e) => {
                return Err(e);
            },
        };
        match peek(tokens, *pos) {
            Some(Token::Equal) => {
                *pos = *pos + 1;
                let rhs = logic_twin_arrow(tokens, pos, interned);
                match (rhs, left) {
                    (Err(e), _) => {
                        return Err(e);
                    },
                    (Ok(_), Err(e)) => {
                        return Err(e);
                    },
                    (Ok(rhs), Ok(target)) => {
                        left = Ok(
                            Expr::Pattern(Box::new(target), Box::new(Rule::Equivalence(lhs, rhs))),
                        );
                    },
                }
            },
            Some(_) => {
                return Err(ParseError::ExpectedEqualOrRuleName(*pos));
            },
            None => {
                return match (lhs, left) {
                    (Expr::Primary(_), Err(e)) => Err(e),
                    (Expr::Primary(n), Ok(target)) => Ok(
                        Expr::Pattern(Box::new(target), Box::new(Rule::RuleId(n))),
                    ),
                    _ => Err(ParseError::ExpectedRuleName),
                };
            },
        }
    }
    left
}

/// Parses the tokens of one line into a statement: a formula, a formula
/// with the rewrites to apply to it, or the binding of a rule to a name.
/// Atom names are interned in `interned`, each at the index of its first
/// occurrence; names that the table holds already keep their index.
///
/// The result and the table afterwards are those of [`spec_parse`], which
/// is the grammar: `Ok` exactly for the token sequences that are one whole
/// statement, and otherwise the first error in the order in which the
/// grammar meets them.  A tree that is returned is a statement whose atoms
/// all have names in the table, and spelling it out gives back the tokens.
/// The table keeps what it held, and no name comes to stand in it twice.
pub fn parse(list: &mut Vec<Token>, interned: &mut Vec<String>) -> (result: Result<
    Expr,
    ParseError,
>)
    ensures
        *final(list) == *old(list),
        result == spec_parse(lexemes(old(list)@), names_of(old(interned)@)).result,
        names_of(final(interned)@) == spec_parse(
            lexemes(old(list)@),
            names_of(old(interned)@),
        ).names,
        extends(names_of(final(interned)@), names_of(old(interned)@)),
        names_of(old(interned)@).no_duplicates() ==> names_of(final(interned)@).no_duplicates(),
        result matches Ok(e) ==> {
            &&& is_statement(e)
            &&& e.named_below(final(interned)@.len())
            &&& spelled(e, names_of(final(interned)@)) == lexemes(old(list)@)
        },
{
    proof {
        lemma_parse_sound(lexemes(list@), names_of(interned@));
    }
    let mut pos: usize = 0;
    let statement = pattern_match(list, &mut pos, interned);
    proof {
        assert(names_of(interned@).len() == interned.len());
    }
    match statement {
        Ok(statement) => {
            if pos < list.len() {
                Err(ParseError::TrailingInput(pos))
            } else {
                Ok(statement)
            }
        },
        Err(e) => Err(e),
    }
}

} // verus!
