//! One line of a session: from its text to a table, a rewritten formula
//! or a new binding.

use crate::lexer::{holds_ans, lemma_ans_reenters, lex, lexemes, tokenize, LexDiagnostic, Token};
use crate::parser::{names_of, parse, spec_parse, Expr, ParseError, Rule};
use crate::rewrite::{Mismatch, Policy, RewriteError};
use crate::runtime::{check_tabulable, is_table_of, match_patterns, rewritten, tabulable, Table};
use crate::store::RuleStore;
use crate::utils::{expr_text, expr_to_string};
use vstd::prelude::*;

verus! {

/// What a session keeps from line to line.
#[derive(Debug)]
pub struct Session {
    /// What `ans` stands for: the text of the last formula that was
    /// tabulated or that a rewrite gave.  Empty at the start.
    pub prev_input: String,
    /// The rules that were bound.
    pub rules: RuleStore,
}

/// What a [`Session`] holds.
pub struct SessionView {
    pub prev: Seq<char>,
    pub rules: Map<Seq<char>, Rule>,
}

impl View for Session {
    type V = SessionView;

    open spec fn view(&self) -> SessionView {
        SessionView { prev: self.prev_input@, rules: self.rules@ }
    }
}

/// Why a line gave no table, no formula and no binding.
#[derive(Debug, PartialEq, Eq, Clone, Copy)]
pub enum Diagnostic {
    /// The line is no statement.
    Syntax(ParseError),
    /// The rewrite gave no formula.
    Rewrite(RewriteError),
    /// The formula has more atoms than a table can have rows for.
    TooManyAtoms,
}

/// What a line came to.
#[derive(Debug)]
pub enum CoreResult {
    /// The truth table of the formula.
    Table(Table),
    /// The text of the formula that the rewrite gave.
    RewriteResult(String),
    /// The rule was bound.
    BindingAck,
    Diagnostic(Diagnostic),
}

/// What a line came to, with the complaints made on the way: those of the
/// lexer, and the places where a formula did not fit a rule.
#[derive(Debug)]
pub struct Outcome {
    /// The tokens of the line, which the positions in a syntax error count.
    pub tokens: Vec<Token>,
    pub lexical: Vec<LexDiagnostic>,
    pub notices: Vec<Mismatch>,
    pub result: CoreResult,
}

impl Session {
    /// A session at its start: nothing to stand for `ans`, and no rules.
    pub fn new() -> (session: Session)
        ensures
            session@ == (SessionView { prev: Seq::empty(), rules: Map::empty() }),
    {
        Session { prev_input: String::new(), rules: RuleStore::new() }
    }
}

/// Whether `outcome` and the session `after` are what the line `line`
/// comes to in the session `before`.
///
/// The line is lexed, with `ans` standing for the previous text, and
/// parsed with a fresh table of names.  A formula gives its table, and its
/// text becomes the previous text.  A rewrite gives the text of the new
/// formula, which becomes the previous text; if it fails, the previous
/// text is emptied.  A binding puts the rule into the store under its
/// name.  A line that is no statement changes nothing.
pub open spec fn answers(
    line: Seq<char>,
    before: SessionView,
    outcome: Outcome,
    after: SessionView,
) -> bool {
    let lexed = lex(line, before.prev);
    let parsed = spec_parse(lexed.tokens, Seq::empty());
    &&& lexemes(outcome.tokens@) == lexed.tokens
    &&& outcome.lexical@ == lexed.diagnostics
    &&& match parsed.result {
        Err(e) => {
            &&& outcome.result matches CoreResult::Diagnostic(d)
            &&& d == Diagnostic::Syntax(e)
            &&& outcome.notices@.len() == 0
            &&& after == before
        },
        Ok(Expr::Pattern(target, rule)) => {
            let rewrite = rewritten(*target, *rule, parsed.names, before.rules, Policy::Permissive);
            &&& outcome.notices@ == rewrite.notices
            &&& after.rules == before.rules
            &&& match rewrite.result {
                Ok(text) => {
                    &&& outcome.result matches CoreResult::RewriteResult(t)
                    &&& t@ == text
                    &&& after.prev == text
                },
                Err(e) => {
                    &&& outcome.result matches CoreResult::Diagnostic(d)
                    &&& d == Diagnostic::Rewrite(e)
                    &&& after.prev.len() == 0
                },
            }
        },
        Ok(Expr::Binding(id, rule)) => {
            &&& outcome.result is BindingAck
            &&& outcome.notices@.len() == 0
            &&& *id matches Expr::Primary(n)
            &&& after.prev == before.prev
            &&& after.rules == before.rules.insert(parsed.names[n as int], *rule)
        },
        Ok(formula) => {
            &&& outcome.notices@.len() == 0
            &&& after.rules == before.rules
            &&& if tabulable(formula) {
                &&& outcome.result matches CoreResult::Table(table)
                &&& is_table_of(table@, formula)
                &&& table@.names == parsed.names
                &&& after.prev == expr_text(formula, parsed.names)
            } else {
                &&& outcome.result matches CoreResult::Diagnostic(d)
                &&& d == Diagnostic::TooManyAtoms
                &&& after.prev == before.prev
            }
        },
    }
}

/// The line `ans` is answered as the previous text would be if it were
/// entered again in its place: whatever answers the one answers the other.
/// The previous text must not hold the letters `ans` itself.
pub proof fn lemma_ans_answers(before: SessionView, outcome: Outcome, after: SessionView)
    requires
        before.prev.len() > 0,
        !holds_ans(before.prev),
    ensures
        answers("ans"@, before, outcome, after) == answers(before.prev, before, outcome, after),
{
    lemma_ans_reenters(before.prev, before.prev);
}

/// Works off one line of a session.
pub fn process(line: &str, session: &mut Session) -> (outcome: Outcome)
    ensures
        answers(line@, old(session)@, outcome, final(session)@),
{
    let mut tokens: Vec<Token> = Vec::new();
    let mut input = line.to_owned();
    let lexical = tokenize(&mut tokens, &mut input, &mut session.prev_input);
    let mut interned: Vec<String> = Vec::new();
    proof {
        assert(tokens@.skip(0) =~= tokens@);
        assert(names_of(interned@) =~= Seq::<Seq<char>>::empty());
    }
    let parsed = parse(&mut tokens, &mut interned);
    proof {
        if parsed is Ok && parsed->Ok_0 is Binding {
            assert(parsed->Ok_0->Binding_0.named_below(interned@.len()));
        }
    }
    match parsed {
        Err(e) => Outcome {
            tokens,
            lexical,
            notices: Vec::new(),
            result: CoreResult::Diagnostic(Diagnostic::Syntax(e)),
        },
        Ok(Expr::Pattern(target, rule)) => {
            let rewrite = match_patterns(*target, *rule, &interned, &session.rules);
            match rewrite.result {
                Ok(text) => {
                    session.prev_input = text.clone();
                    Outcome {
                        tokens,
                        lexical,
                        notices: rewrite.notices,
                        result: CoreResult::RewriteResult(text),
                    }
                },
                Err(e) => {
                    session.prev_input = String::new();
                    Outcome {
                        tokens,
                        lexical,
                        notices: rewrite.notices,
                        result: CoreResult::Diagnostic(Diagnostic::Rewrite(e)),
                    }
                },
            }
        },
        Ok(Expr::Binding(id, rule)) => {
            match *id {
                Expr::Primary(n) => {
                    session.rules.insert(interned[n].clone(), *rule);
                },
                _ => {},
            }
            Outcome { tokens, lexical, notices: Vec::new(), result: CoreResult::BindingAck }
        },
        Ok(formula) => {
            if check_tabulable(&formula) {
                let mut table = Table::new(&interned);
                session.prev_input = expr_to_string(&formula, &interned);
                table.generate_truthtable(formula);
                Outcome { tokens, lexical, notices: Vec::new(), result: CoreResult::Table(table) }
            } else {
                Outcome {
                    tokens,
                    lexical,
                    notices: Vec::new(),
                    result: CoreResult::Diagnostic(Diagnostic::TooManyAtoms),
                }
            }
        },
    }
}

} // verus!
