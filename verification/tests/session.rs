use plogic::lexer::LexDiagnostic;
use plogic::parser::{BinOperator, Expr, ParseError, Rule};
use plogic::rewrite::{Mismatch, RewriteError};
use plogic::session::{process, CoreResult, Diagnostic, Outcome, Session};
use plogic::utils::expr_to_string;

/// The columns of a table result as they are laid out.
fn columns(outcome: &Outcome) -> Vec<(String, Vec<usize>)> {
    match &outcome.result {
        CoreResult::Table(table) => table
            .sort()
            .into_iter()
            .map(|(expr, values)| (expr_to_string(expr, table.interned()), values.clone()))
            .collect(),
        other => panic!("no table: {:?}", other),
    }
}

fn text(outcome: &Outcome) -> String {
    match &outcome.result {
        CoreResult::RewriteResult(text) => text.clone(),
        other => panic!("no rewrite: {:?}", other),
    }
}

fn diagnostic(outcome: &Outcome) -> Diagnostic {
    match &outcome.result {
        CoreResult::Diagnostic(d) => *d,
        other => panic!("no diagnostic: {:?}", other),
    }
}

#[test]
fn session_starts_empty() {
    let session = Session::new();
    assert_eq!(session.prev_input, "");
    assert_eq!(session.rules.get(&"any".to_string()), None);
}

#[test]
fn formula_gives_its_table() {
    let mut session = Session::new();
    let outcome = process("p -> q", &mut session);
    assert!(outcome.lexical.is_empty());
    assert!(outcome.notices.is_empty());
    assert_eq!(
        columns(&outcome),
        vec![
            ("q".to_string(), vec![0, 0, 1, 1]),
            ("p".to_string(), vec![0, 1, 0, 1]),
            ("p -> q".to_string(), vec![1, 0, 1, 1]),
        ]
    );
    assert_eq!(session.prev_input, "p -> q");
}

#[test]
fn previous_text_is_the_formula_as_it_prints() {
    let mut session = Session::new();
    process("p   and(not q)", &mut session);
    assert_eq!(session.prev_input, "p & (~q)");
}

#[test]
fn rewrite_gives_the_new_formula() {
    let mut session = Session::new();
    let outcome = process("f & t => p & q = q & p", &mut session);
    assert!(outcome.lexical.is_empty());
    assert!(outcome.notices.is_empty());
    assert_eq!(text(&outcome), "t & f");
    assert_eq!(session.prev_input, "t & f");
}

#[test]
fn failed_rewrite_empties_the_previous_text() {
    let mut session = Session::new();
    process("p", &mut session);
    assert_eq!(session.prev_input, "p");
    let outcome = process("f & t => p -> q = ~p | q", &mut session);
    assert_eq!(
        outcome.notices,
        vec![Mismatch::Operator(BinOperator::And, BinOperator::Arrow)]
    );
    assert_eq!(diagnostic(&outcome), Diagnostic::Rewrite(RewriteError::PatternNotFound(2)));
    assert_eq!(session.prev_input, "");
}

#[test]
fn binding_is_acknowledged_and_kept() {
    let mut session = Session::new();
    process("p", &mut session);
    let outcome = process("commutative := p & q = q & p", &mut session);
    assert!(matches!(outcome.result, CoreResult::BindingAck));
    assert!(outcome.notices.is_empty());
    // a binding is no answer
    assert_eq!(session.prev_input, "p");
    let swap = |a: usize, b: usize| {
        Expr::Binary(Box::new(Expr::Primary(a)), BinOperator::And, Box::new(Expr::Primary(b)))
    };
    assert_eq!(
        session.rules.get(&"commutative".to_string()),
        Some(&Rule::Equivalence(swap(1, 2), swap(2, 1)))
    );
}

#[test]
fn bound_rule_is_used_in_a_later_line() {
    let mut session = Session::new();
    process("commutative := p & q = q & p", &mut session);
    let outcome = process("x & y => commutative", &mut session);
    assert!(outcome.notices.is_empty());
    assert_eq!(text(&outcome), "y & x");
    assert_eq!(session.prev_input, "y & x");
}

#[test]
fn undefined_rule_is_a_diagnostic() {
    let mut session = Session::new();
    let outcome = process("x & y => commutative", &mut session);
    assert_eq!(diagnostic(&outcome), Diagnostic::Rewrite(RewriteError::UndefinedRule));
    assert_eq!(session.prev_input, "");
}

#[test]
fn syntax_error_changes_nothing() {
    let mut session = Session::new();
    process("p & q", &mut session);
    process("r := a = b", &mut session);
    let outcome = process("p & | q", &mut session);
    assert_eq!(diagnostic(&outcome), Diagnostic::Syntax(ParseError::UnexpectedToken(2)));
    assert!(outcome.notices.is_empty());
    assert_eq!(session.prev_input, "p & q");
    assert!(session.rules.get(&"r".to_string()).is_some());
}

#[test]
fn lexical_diagnostics_come_with_the_result() {
    let mut session = Session::new();
    let outcome = process("p # & q", &mut session);
    assert_eq!(outcome.lexical, vec![LexDiagnostic::UnexpectedChar('#')]);
    assert_eq!(columns(&outcome).last().unwrap().0, "p & q");
}

#[test]
fn ans_evaluates_the_previous_formula_again() {
    let mut session = Session::new();
    let first = process("(p -> q) & ~r", &mut session);
    let prev = session.prev_input.clone();
    let again = process("ans", &mut session);
    assert_eq!(columns(&again), columns(&first));
    assert_eq!(session.prev_input, prev);

    // entering the text itself gives the same
    let mut other = Session::new();
    process("(p -> q) & ~r", &mut other);
    let verbatim = process(&prev, &mut other);
    assert_eq!(columns(&verbatim), columns(&first));
}

#[test]
fn ans_stands_for_the_result_of_a_rewrite() {
    let mut session = Session::new();
    process("f & t => p & q = q & p", &mut session);
    let outcome = process("ans | f", &mut session);
    assert_eq!(columns(&outcome).last().unwrap().0, "t & f | f");
    let outcome = process("ans => a | b = b | a", &mut session);
    assert_eq!(text(&outcome), "f | t & f");
}

#[test]
fn ans_in_a_fresh_session_is_an_atom() {
    let mut session = Session::new();
    let outcome = process("ans", &mut session);
    assert_eq!(columns(&outcome), vec![("ans".to_string(), vec![0, 1])]);
    assert_eq!(session.prev_input, "ans");
}

#[test]
fn formula_with_too_many_atoms_is_a_diagnostic() {
    // each letter pair is an atom of its own
    let mut line = String::new();
    let mut count = 0;
    'outer: for a in b'a'..=b'z' {
        for b in b'a'..=b'z' {
            // keep clear of the keywords
            let name = format!("x{}{}", a as char, b as char);
            if count > 0 {
                line.push_str(" | ");
            }
            line.push_str(&name);
            count += 1;
            if count == usize::BITS as usize {
                break 'outer;
            }
        }
    }
    let mut session = Session::new();
    process("p", &mut session);
    let outcome = process(&line, &mut session);
    assert_eq!(diagnostic(&outcome), Diagnostic::TooManyAtoms);
    assert_eq!(session.prev_input, "p");
}
