//! What every result of the parser has in common: the tree spells the
//! tokens it was read from, its atoms have names, and the table of names
//! only grows.

use crate::lexer::Lexeme;
use crate::parser::{
    first_index, interned_with, lemma_first_index, looseness, op_lexeme, spec_binding, spec_chain,
    spec_chain_tail, spec_formula, spec_not, spec_operand, spec_parse, spec_primary, spec_rewrites,
    spec_statement, token_at, BinOperator, Expr, Parsed, Rule,
};
use vstd::prelude::*;

verus! {

/// The tokens that spell `expr`, with the atoms' names taken from `names`.
pub open spec fn spelled(expr: Expr, names: Seq<Seq<char>>) -> Seq<Lexeme>
    decreases expr,
{
    match expr {
        Expr::Pattern(e, rule) => spelled(*e, names) + seq![Lexeme::Rule] + rule_spelled(
            *rule,
            names,
        ),
        Expr::Binding(id, rule) => spelled(*id, names) + seq![Lexeme::Binding] + rule_spelled(
            *rule,
            names,
        ),
        Expr::Binary(l, op, r) => spelled(*l, names) + seq![op_lexeme(op)] + spelled(*r, names),
        Expr::Not(e) => seq![Lexeme::Not] + spelled(*e, names),
        Expr::Group(e) => seq![Lexeme::OpenParen] + spelled(*e, names) + seq![Lexeme::CloseParen],
        Expr::Primary(n) => seq![Lexeme::Identifier(names[n as int])],
    }
}

/// The tokens that spell `rule`.
pub open spec fn rule_spelled(rule: Rule, names: Seq<Seq<char>>) -> Seq<Lexeme>
    decreases rule,
{
    match rule {
        Rule::Equivalence(lhs, rhs) => spelled(lhs, names) + seq![Lexeme::Equal] + spelled(
            rhs,
            names,
        ),
        Rule::RuleId(n) => seq![Lexeme::Identifier(names[n as int])],
    }
}

/// Whether `longer` starts with `shorter`.
pub open spec fn extends(longer: Seq<Seq<char>>, shorter: Seq<Seq<char>>) -> bool {
    &&& shorter.len() <= longer.len()
    &&& forall|i: int| 0 <= i < shorter.len() ==> longer[i] == shorter[i]
}

/// Whether `expr` is what stands before the first `=>` of a statement and
/// the rewrites behind it: a formula, wrapped in any number of rewrites by
/// rules whose sides are formulas, the outermost of which may be a rule's
/// name.
pub open spec fn is_rewrite_chain(expr: Expr, outermost: bool) -> bool
    decreases expr,
{
    match expr {
        Expr::Pattern(target, rule) => is_rewrite_chain(*target, false) && match *rule {
            Rule::Equivalence(lhs, rhs) => lhs.is_formula() && rhs.is_formula(),
            Rule::RuleId(_) => outermost,
        },
        _ => expr.is_formula(),
    }
}

/// Whether `expr` is a statement of the grammar: a formula, a formula with
/// rewrites, or the binding of an equivalence of formulas to an atom.
pub open spec fn is_statement(expr: Expr) -> bool {
    match expr {
        Expr::Binding(id, rule) => *id is Primary && match *rule {
            Rule::Equivalence(lhs, rhs) => lhs.is_formula() && rhs.is_formula(),
            Rule::RuleId(_) => false,
        },
        _ => is_rewrite_chain(expr, true),
    }
}

/// How parsing moves on: what was parsed from `pos` with the names
/// `names` consumed no token behind the end, and the table of names has
/// only grown, by no more names than tokens were consumed, and holds no
/// name twice if it held none twice.
pub open spec fn grows(
    tokens: Seq<Lexeme>,
    pos: nat,
    names: Seq<Seq<char>>,
    parsed: Parsed,
) -> bool {
    &&& pos + parsed.used <= tokens.len()
    &&& extends(parsed.names, names)
    &&& parsed.names.len() <= names.len() + parsed.used
    &&& names.no_duplicates() ==> parsed.names.no_duplicates()
}

/// What holds of a formula parsed from `pos`: a tree that came of it is a
/// formula with named atoms that spells the tokens consumed.
pub open spec fn sound(tokens: Seq<Lexeme>, pos: nat, parsed: Parsed) -> bool {
    parsed.result matches Ok(e) ==> {
        &&& e.is_formula()
        &&& e.named_below(parsed.names.len())
        &&& spelled(e, parsed.names) == tokens.subrange(pos as int, (pos + parsed.used) as int)
    }
}

/// Names that are added to the table change nothing for a tree whose atoms
/// were named before.
pub proof fn lemma_spelled_extends(expr: Expr, names: Seq<Seq<char>>, longer: Seq<Seq<char>>)
    requires
        expr.named_below(names.len()),
        extends(longer, names),
    ensures
        expr.named_below(longer.len()),
        spelled(expr, longer) == spelled(expr, names),
    decreases expr,
{
    match expr {
        Expr::Pattern(e, rule) => {
            lemma_spelled_extends(*e, names, longer);
            lemma_rule_spelled_extends(*rule, names, longer);
        },
        Expr::Binding(id, rule) => {
            lemma_spelled_extends(*id, names, longer);
            lemma_rule_spelled_extends(*rule, names, longer);
        },
        Expr::Binary(l, _, r) => {
            lemma_spelled_extends(*l, names, longer);
            lemma_spelled_extends(*r, names, longer);
        },
        Expr::Not(e) => lemma_spelled_extends(*e, names, longer),
        Expr::Group(e) => lemma_spelled_extends(*e, names, longer),
        Expr::Primary(_) => {},
    }
}

/// Names that are added to the table change nothing for a rule whose atoms
/// were named before.
pub proof fn lemma_rule_spelled_extends(rule: Rule, names: Seq<Seq<char>>, longer: Seq<Seq<char>>)
    requires
        rule.named_below(names.len()),
        extends(longer, names),
    ensures
        rule.named_below(longer.len()),
        rule_spelled(rule, longer) == rule_spelled(rule, names),
    decreases rule,
{
    match rule {
        Rule::Equivalence(lhs, rhs) => {
            lemma_spelled_extends(lhs, names, longer);
            lemma_spelled_extends(rhs, names, longer);
        },
        Rule::RuleId(_) => {},
    }
}

/// Interning keeps what the table held, and the word is then found at the
/// index given.  A table without a name twice stays one.
pub proof fn lemma_interned(names: Seq<Seq<char>>, word: Seq<char>)
    ensures
        extends(interned_with(names, word), names),
        first_index(names, word) < interned_with(names, word).len(),
        interned_with(names, word)[first_index(names, word) as int] == word,
        interned_with(names, word).len() <= names.len() + 1,
        names.no_duplicates() ==> interned_with(names, word).no_duplicates(),
{
    lemma_first_index(names, word);
}

/// Parsing a primary moves on as [`grows`] says.
proof fn lemma_primary_grows(tokens: Seq<Lexeme>, pos: nat, names: Seq<Seq<char>>)
    requires
        pos <= tokens.len(),
    ensures
        grows(tokens, pos, names, spec_primary(tokens, pos, names)),
    decreases tokens.len() - pos, 0nat,
{
    match token_at(tokens, pos) {
        Some(Lexeme::Identifier(word)) => {
            lemma_interned(names, word);
        },
        Some(Lexeme::OpenParen) => {
            lemma_chain_grows(tokens, pos + 1, names, BinOperator::TwinArrow);
        },
        _ => {},
    }
}

/// Parsing a negation moves on as [`grows`] says.
proof fn lemma_not_grows(tokens: Seq<Lexeme>, pos: nat, names: Seq<Seq<char>>)
    requires
        pos <= tokens.len(),
    ensures
        grows(tokens, pos, names, spec_not(tokens, pos, names)),
    decreases tokens.len() - pos, 1nat,
{
    if token_at(tokens, pos) == Some(Lexeme::Not) {
        lemma_not_grows(tokens, pos + 1, names);
    } else {
        lemma_primary_grows(tokens, pos, names);
    }
}

/// Parsing an operand moves on as [`grows`] says.
proof fn lemma_operand_grows(tokens: Seq<Lexeme>, pos: nat, names: Seq<Seq<char>>, op: BinOperator)
    requires
        pos <= tokens.len(),
    ensures
        grows(tokens, pos, names, spec_operand(tokens, pos, names, op)),
    decreases tokens.len() - pos, 2 + 4 * looseness(op),
{
    match op {
        BinOperator::And => lemma_not_grows(tokens, pos, names),
        BinOperator::Or => lemma_chain_grows(tokens, pos, names, BinOperator::And),
        BinOperator::Arrow => lemma_chain_grows(tokens, pos, names, BinOperator::Or),
        BinOperator::TwinArrow => lemma_chain_grows(tokens, pos, names, BinOperator::Arrow),
    }
}

/// The rest of a chain moves on from where its start left off.
proof fn lemma_chain_tail_grows(tokens: Seq<Lexeme>, start: nat, left: Parsed, op: BinOperator)
    requires
        start + left.used <= tokens.len(),
    ensures
        grows(
            tokens,
            start + left.used,
            left.names,
            Parsed {
                used: (spec_chain_tail(tokens, start, left, op).used - left.used) as nat,
                ..spec_chain_tail(tokens, start, left, op)
            },
        ),
        left.used <= spec_chain_tail(tokens, start, left, op).used,
    decreases tokens.len() - (start + left.used), 3 + 4 * looseness(op),
{
    let pos = start + left.used;
    if token_at(tokens, pos) == Some(op_lexeme(op)) {
        lemma_operand_grows(tokens, pos + 1, left.names, op);
        let right = spec_operand(tokens, pos + 1, left.names, op);
        if let (Ok(r), Ok(l)) = (right.result, left.result) {
            lemma_chain_tail_grows(
                tokens,
                start,
                Parsed {
                    result: Ok(Expr::Binary(Box::new(l), op, Box::new(r))),
                    used: left.used + 1 + right.used,
                    names: right.names,
                },
                op,
            );
        }
    }
}

/// Parsing a chain moves on as [`grows`] says.
proof fn lemma_chain_grows(tokens: Seq<Lexeme>, pos: nat, names: Seq<Seq<char>>, op: BinOperator)
    requires
        pos <= tokens.len(),
    ensures
        grows(tokens, pos, names, spec_chain(tokens, pos, names, op)),
    decreases tokens.len() - pos, 4 + 4 * looseness(op),
{
    lemma_operand_grows(tokens, pos, names, op);
    lemma_chain_tail_grows(tokens, pos, spec_operand(tokens, pos, names, op), op);
}

/// A primary that came of parsing is sound.
proof fn lemma_primary(tokens: Seq<Lexeme>, pos: nat, names: Seq<Seq<char>>)
    requires
        pos <= tokens.len(),
        spec_primary(tokens, pos, names).names.len() <= usize::MAX,
    ensures
        sound(tokens, pos, spec_primary(tokens, pos, names)),
    decreases tokens.len() - pos, 0nat,
{
    match token_at(tokens, pos) {
        Some(Lexeme::Identifier(word)) => {
            lemma_interned(names, word);
            assert(seq![Lexeme::Identifier(word)] =~= tokens.subrange(pos as int, pos + 1 as int));
        },
        Some(Lexeme::OpenParen) => {
            lemma_chain_grows(tokens, pos + 1, names, BinOperator::TwinArrow);
            lemma_chain(tokens, pos + 1, names, BinOperator::TwinArrow);
            let inner = spec_chain(tokens, pos + 1, names, BinOperator::TwinArrow);
            if let Ok(e) = inner.result {
                if token_at(tokens, pos + 1 + inner.used) == Some(Lexeme::CloseParen) {
                    assert(spelled(Expr::Group(Box::new(e)), inner.names) =~= tokens.subrange(
                        pos as int,
                        (pos + 2 + inner.used) as int,
                    ));
                }
            }
        },
        _ => {},
    }
}

/// A negation that came of parsing is sound.
proof fn lemma_not(tokens: Seq<Lexeme>, pos: nat, names: Seq<Seq<char>>)
    requires
        pos <= tokens.len(),
        spec_not(tokens, pos, names).names.len() <= usize::MAX,
    ensures
        sound(tokens, pos, spec_not(tokens, pos, names)),
    decreases tokens.len() - pos, 1nat,
{
    if token_at(tokens, pos) == Some(Lexeme::Not) {
        lemma_not_grows(tokens, pos + 1, names);
        lemma_not(tokens, pos + 1, names);
        let inner = spec_not(tokens, pos + 1, names);
        if let Ok(e) = inner.result {
            assert(spelled(Expr::Not(Box::new(e)), inner.names) =~= tokens.subrange(
                pos as int,
                (pos + 1 + inner.used) as int,
            ));
        }
    } else {
        lemma_primary(tokens, pos, names);
    }
}

/// An operand that came of parsing is sound.
proof fn lemma_operand(tokens: Seq<Lexeme>, pos: nat, names: Seq<Seq<char>>, op: BinOperator)
    requires
        pos <= tokens.len(),
        spec_operand(tokens, pos, names, op).names.len() <= usize::MAX,
    ensures
        sound(tokens, pos, spec_operand(tokens, pos, names, op)),
    decreases tokens.len() - pos, 2 + 4 * looseness(op),
{
    match op {
        BinOperator::And => lemma_not(tokens, pos, names),
        BinOperator::Or => lemma_chain(tokens, pos, names, BinOperator::And),
        BinOperator::Arrow => lemma_chain(tokens, pos, names, BinOperator::Or),
        BinOperator::TwinArrow => lemma_chain(tokens, pos, names, BinOperator::Arrow),
    }
}

/// A chain is sound if its start is.
proof fn lemma_chain_tail(tokens: Seq<Lexeme>, start: nat, left: Parsed, op: BinOperator)
    requires
        start + left.used <= tokens.len(),
        sound(tokens, start, left),
        spec_chain_tail(tokens, start, left, op).names.len() <= usize::MAX,
    ensures
        sound(tokens, start, spec_chain_tail(tokens, start, left, op)),
    decreases tokens.len() - (start + left.used), 3 + 4 * looseness(op),
{
    let pos = start + left.used;
    if token_at(tokens, pos) == Some(op_lexeme(op)) {
        lemma_operand_grows(tokens, pos + 1, left.names, op);
        let right = spec_operand(tokens, pos + 1, left.names, op);
        let used = left.used + 1 + right.used;
        if let (Ok(r), Ok(l)) = (right.result, left.result) {
            let joined = Parsed {
                result: Ok(Expr::Binary(Box::new(l), op, Box::new(r))),
                used,
                names: right.names,
            };
            lemma_chain_tail_grows(tokens, start, joined, op);
            lemma_operand(tokens, pos + 1, left.names, op);
            lemma_spelled_extends(l, left.names, right.names);
            assert(spelled(Expr::Binary(Box::new(l), op, Box::new(r)), right.names)
                =~= tokens.subrange(start as int, (start + used) as int));
            lemma_chain_tail(tokens, start, joined, op);
        }
    }
}

/// A chain that came of parsing is sound.
proof fn lemma_chain(tokens: Seq<Lexeme>, pos: nat, names: Seq<Seq<char>>, op: BinOperator)
    requires
        pos <= tokens.len(),
        spec_chain(tokens, pos, names, op).names.len() <= usize::MAX,
    ensures
        sound(tokens, pos, spec_chain(tokens, pos, names, op)),
    decreases tokens.len() - pos, 4 + 4 * looseness(op),
{
    let first = spec_operand(tokens, pos, names, op);
    lemma_operand_grows(tokens, pos, names, op);
    lemma_chain_tail_grows(tokens, pos, first, op);
    lemma_operand(tokens, pos, names, op);
    lemma_chain_tail(tokens, pos, first, op);
}

/// A formula parsed from `pos` consumed no token behind the end; the table
/// of names has only grown; and, where the table can be indexed, a tree
/// that came of it is a formula with named atoms that spells the tokens
/// consumed.
pub proof fn lemma_formula(tokens: Seq<Lexeme>, pos: nat, names: Seq<Seq<char>>)
    requires
        pos <= tokens.len(),
    ensures
        grows(tokens, pos, names, spec_formula(tokens, pos, names)),
        spec_formula(tokens, pos, names).names.len() <= usize::MAX ==> sound(
            tokens,
            pos,
            spec_formula(tokens, pos, names),
        ),
{
    lemma_chain_grows(tokens, pos, names, BinOperator::TwinArrow);
    if spec_formula(tokens, pos, names).names.len() <= usize::MAX {
        lemma_chain(tokens, pos, names, BinOperator::TwinArrow);
    }
}

/// What holds of a formula with rewrites parsed from the first token on: a
/// tree that came of it is a formula wrapped in rewrites, with named
/// atoms, that spells the tokens consumed.
pub open spec fn chain_sound(tokens: Seq<Lexeme>, parsed: Parsed, outermost: bool) -> bool {
    parsed.result matches Ok(e) ==> {
        &&& is_rewrite_chain(e, outermost)
        &&& e.named_below(parsed.names.len())
        &&& spelled(e, parsed.names) == tokens.subrange(0, parsed.used as int)
    }
}

/// The rewrites behind a formula move on from where the formula left off.
proof fn lemma_rewrites_grows(tokens: Seq<Lexeme>, left: Parsed)
    requires
        left.used <= tokens.len(),
    ensures
        grows(
            tokens,
            left.used,
            left.names,
            Parsed {
                used: (spec_rewrites(tokens, left).used - left.used) as nat,
                ..spec_rewrites(tokens, left)
            },
        ),
        left.used <= spec_rewrites(tokens, left).used,
    decreases tokens.len() - left.used,
{
    if token_at(tokens, left.used) == Some(Lexeme::Rule) {
        lemma_formula(tokens, left.used + 1, left.names);
        let lhs = spec_formula(tokens, left.used + 1, left.names);
        let behind = left.used + 1 + lhs.used;
        if lhs.result is Ok && token_at(tokens, behind) == Some(Lexeme::Equal) {
            lemma_formula(tokens, behind + 1, lhs.names);
            let rhs = spec_formula(tokens, behind + 1, lhs.names);
            if let (Ok(r), Ok(target)) = (rhs.result, left.result) {
                lemma_rewrites_grows(
                    tokens,
                    Parsed {
                        result: Ok(
                            Expr::Pattern(
                                Box::new(target),
                                Box::new(Rule::Equivalence(lhs.result->Ok_0, r)),
                            ),
                        ),
                        used: behind + 1 + rhs.used,
                        names: rhs.names,
                    },
                );
            }
        }
    }
}

/// A formula with its rewrites is sound if the formula is.
proof fn lemma_rewrites(tokens: Seq<Lexeme>, left: Parsed)
    requires
        left.used <= tokens.len(),
        chain_sound(tokens, left, false),
        spec_rewrites(tokens, left).names.len() <= usize::MAX,
    ensures
        chain_sound(tokens, spec_rewrites(tokens, left), true),
    decreases tokens.len() - left.used,
{
    if token_at(tokens, left.used) == Some(Lexeme::Rule) {
        lemma_formula(tokens, left.used + 1, left.names);
        let lhs = spec_formula(tokens, left.used + 1, left.names);
        let behind = left.used + 1 + lhs.used;
        if let Ok(l) = lhs.result {
            match token_at(tokens, behind) {
                Some(Lexeme::Equal) => {
                    lemma_formula(tokens, behind + 1, lhs.names);
                    let rhs = spec_formula(tokens, behind + 1, lhs.names);
                    let used = behind + 1 + rhs.used;
                    if let (Ok(r), Ok(target)) = (rhs.result, left.result) {
                        let rule = Rule::Equivalence(l, r);
                        let whole = Expr::Pattern(Box::new(target), Box::new(rule));
                        let next = Parsed { result: Ok(whole), used, names: rhs.names };
                        lemma_rewrites_grows(tokens, next);
                        lemma_spelled_extends(target, left.names, lhs.names);
                        lemma_spelled_extends(target, lhs.names, rhs.names);
                        lemma_spelled_extends(l, lhs.names, rhs.names);
                        assert(rule.named_below(rhs.names.len()));
                        assert(rule_spelled(rule, rhs.names) =~= tokens.subrange(
                            (left.used + 1) as int,
                            used as int,
                        )) by {
                            assert(rule_spelled(rule, rhs.names) == spelled(l, rhs.names)
                                + seq![Lexeme::Equal] + spelled(r, rhs.names));
                        }
                        assert(spelled(whole, rhs.names) =~= tokens.subrange(0, used as int)) by {
                            assert(spelled(whole, rhs.names) == spelled(target, rhs.names)
                                + seq![Lexeme::Rule] + rule_spelled(rule, rhs.names));
                        }
                        lemma_rewrites(tokens, next);
                    }
                },
                Some(_) => {},
                None => {
                    if let (Expr::Primary(n), Ok(target)) = (l, left.result) {
                        let rule = Rule::RuleId(n);
                        let whole = Expr::Pattern(Box::new(target), Box::new(rule));
                        lemma_spelled_extends(target, left.names, lhs.names);
                        assert(rule.named_below(lhs.names.len()));
                        assert(rule_spelled(rule, lhs.names) =~= tokens.subrange(
                            (left.used + 1) as int,
                            behind as int,
                        ));
                        assert(spelled(whole, lhs.names) =~= tokens.subrange(0, behind as int)) by {
                            assert(spelled(whole, lhs.names) == spelled(target, lhs.names)
                                + seq![Lexeme::Rule] + rule_spelled(rule, lhs.names));
                        }
                    }
                },
            }
        }
    }
}

/// A binding moves on from where its name left off, and is sound.
proof fn lemma_binding(tokens: Seq<Lexeme>, left: Parsed)
    requires
        left.used <= tokens.len(),
        sound(tokens, 0, left),
        token_at(tokens, left.used) == Some(Lexeme::Binding),
    ensures
        grows(
            tokens,
            left.used,
            left.names,
            Parsed {
                used: (spec_binding(tokens, left).used - left.used) as nat,
                ..spec_binding(tokens, left)
            },
        ),
        left.used <= spec_binding(tokens, left).used,
        spec_binding(tokens, left).names.len() <= usize::MAX ==> (spec_binding(
            tokens,
            left,
        ).result matches Ok(e) ==> {
            &&& is_statement(e)
            &&& e.named_below(spec_binding(tokens, left).names.len())
            &&& spelled(e, spec_binding(tokens, left).names) == tokens.subrange(
                0,
                spec_binding(tokens, left).used as int,
            )
        }),
{
    if let Ok(Expr::Primary(n)) = left.result {
        lemma_formula(tokens, left.used + 1, left.names);
        let lhs = spec_formula(tokens, left.used + 1, left.names);
        let behind = left.used + 1 + lhs.used;
        if let Ok(l) = lhs.result {
            if token_at(tokens, behind) == Some(Lexeme::Equal) {
                lemma_formula(tokens, behind + 1, lhs.names);
                let rhs = spec_formula(tokens, behind + 1, lhs.names);
                if let Ok(r) = rhs.result {
                    if rhs.names.len() <= usize::MAX {
                        let rule = Rule::Equivalence(l, r);
                        let whole = Expr::Binding(Box::new(Expr::Primary(n)), Box::new(rule));
                        let used = behind + 1 + rhs.used;
                        lemma_spelled_extends(Expr::Primary(n), left.names, lhs.names);
                        lemma_spelled_extends(Expr::Primary(n), lhs.names, rhs.names);
                        lemma_spelled_extends(l, lhs.names, rhs.names);
                        assert(rule.named_below(rhs.names.len()));
                        assert(rule_spelled(rule, rhs.names) =~= tokens.subrange(
                            (left.used + 1) as int,
                            used as int,
                        )) by {
                            assert(rule_spelled(rule, rhs.names) == spelled(l, rhs.names)
                                + seq![Lexeme::Equal] + spelled(r, rhs.names));
                        }
                        assert(spelled(whole, rhs.names) =~= tokens.subrange(0, used as int)) by {
                            assert(spelled(whole, rhs.names) == spelled(
                                Expr::Primary(n),
                                rhs.names,
                            ) + seq![Lexeme::Binding] + rule_spelled(rule, rhs.names));
                        }
                    }
                }
            }
        }
    }
}

/// The parser is sound.  Whatever it gives, the table holds the names it
/// held before, at the same places, and if no name stood in it twice, none
/// does afterwards: every name has one index.  A tree that it gives is a
/// statement of the grammar, every atom in it has a name in the table, and
/// spelling it out gives back the tokens it was parsed from, all of them.
/// (A table too long to be indexed gives no tree to speak of.)
pub proof fn lemma_parse_sound(tokens: Seq<Lexeme>, names: Seq<Seq<char>>)
    ensures
        extends(spec_parse(tokens, names).names, names),
        spec_parse(tokens, names).names.len() <= names.len() + tokens.len(),
        names.no_duplicates() ==> spec_parse(tokens, names).names.no_duplicates(),
        spec_parse(tokens, names).names.len() <= usize::MAX ==> (spec_parse(
            tokens,
            names,
        ).result matches Ok(e) ==> {
            &&& is_statement(e)
            &&& e.named_below(spec_parse(tokens, names).names.len())
            &&& spelled(e, spec_parse(tokens, names).names) == tokens
        }),
{
    lemma_formula(tokens, 0, names);
    let left = spec_formula(tokens, 0, names);
    let statement = spec_statement(tokens, names);
    if token_at(tokens, left.used) == Some(Lexeme::Binding) {
        lemma_chain_grows(tokens, 0, names, BinOperator::TwinArrow);
        if left.names.len() <= usize::MAX {
            lemma_binding(tokens, left);
        } else {
            // the binding's table is no shorter than the name's
            lemma_binding_grows(tokens, left);
        }
    } else {
        lemma_rewrites_grows(tokens, left);
        if statement.names.len() <= usize::MAX {
            lemma_rewrites(tokens, left);
        }
    }
    if statement.result is Ok && statement.used == tokens.len() {
        assert(tokens.subrange(0, statement.used as int) =~= tokens);
    }
}

/// A binding moves on from where its name left off.
proof fn lemma_binding_grows(tokens: Seq<Lexeme>, left: Parsed)
    requires
        left.used <= tokens.len(),
        token_at(tokens, left.used) == Some(Lexeme::Binding),
    ensures
        grows(
            tokens,
            left.used,
            left.names,
            Parsed {
                used: (spec_binding(tokens, left).used - left.used) as nat,
                ..spec_binding(tokens, left)
            },
        ),
        left.used <= spec_binding(tokens, left).used,
{
    if let Ok(Expr::Primary(n)) = left.result {
        lemma_formula(tokens, left.used + 1, left.names);
        let lhs = spec_formula(tokens, left.used + 1, left.names);
        let behind = left.used + 1 + lhs.used;
        if lhs.result is Ok && token_at(tokens, behind) == Some(Lexeme::Equal) {
            lemma_formula(tokens, behind + 1, lhs.names);
        }
    }
}

} // verus!
