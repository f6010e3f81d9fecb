use plogic::lexer::{tokenize, Token};
use plogic::parser::{parse, BinOperator, Expr, Rule};
use plogic::rewrite::{substitute_in, traverse_and_match, Mismatch, Policy, RewriteError};
use plogic::runtime::{match_patterns, match_patterns_with, Rewrite};
use plogic::store::RuleStore;
use std::collections::HashMap;

fn read(line: &str) -> (Expr, Vec<String>) {
    let mut tokens: Vec<Token> = Vec::new();
    let diagnostics = tokenize(&mut tokens, &mut line.to_string(), &mut String::new());
    assert!(diagnostics.is_empty());
    let mut interned = Vec::new();
    let expr = parse(&mut tokens, &mut interned).expect("the line is a statement");
    (expr, interned)
}

/// Applies the rewrite that `line` asks for.
fn rewrite(line: &str, store: &RuleStore, policy: Policy) -> Rewrite {
    let (expr, interned) = read(line);
    match expr {
        Expr::Pattern(target, rule) => {
            match_patterns_with(*target, *rule, &interned, store, policy)
        }
        other => panic!("no rewrite: {:?}", other),
    }
}

fn rewritten(line: &str) -> Result<String, RewriteError> {
    let outcome = rewrite(line, &RuleStore::new(), Policy::Permissive);
    assert!(outcome.notices.is_empty(), "{:?}", outcome.notices);
    outcome.result
}

/// Binds the rule of the binding that `line` is.
fn bind(line: &str, store: &mut RuleStore) {
    let (expr, interned) = read(line);
    match expr {
        Expr::Binding(id, rule) => match *id {
            Expr::Primary(n) => store.insert(interned[n].clone(), *rule),
            other => panic!("no name: {:?}", other),
        },
        other => panic!("no binding: {:?}", other),
    }
}

fn atom(n: usize) -> Expr {
    Expr::Primary(n)
}

fn binary(l: Expr, op: BinOperator, r: Expr) -> Expr {
    Expr::Binary(Box::new(l), op, Box::new(r))
}

#[test]
fn commutativity_swaps_the_operands() {
    assert_eq!(rewritten("f & t => p & q = q & p"), Ok("t & f".to_string()));
}

#[test]
fn match_patterns_is_permissive() {
    let (expr, interned) = read("f & t => p & q = q & p");
    match expr {
        Expr::Pattern(target, rule) => {
            let outcome = match_patterns(*target, *rule, &interned, &RuleStore::new());
            assert!(outcome.notices.is_empty());
            assert_eq!(outcome.result, Ok("t & f".to_string()));
        }
        other => panic!("no rewrite: {:?}", other),
    }
}

#[test]
fn atoms_of_the_rule_stand_for_whole_formulas() {
    assert_eq!(
        rewritten("(a | b) & ~c => p & q = q & p"),
        Ok("~c & (a | b)".to_string())
    );
    assert_eq!(rewritten("a -> b => p -> q = ~p | q"), Ok("~a | b".to_string()));
    assert_eq!(rewritten("~(a & b) => ~(p & q) = ~p | ~q"), Ok("~a | ~b".to_string()));
}

#[test]
fn rule_may_use_an_atom_more_than_once_on_the_right() {
    assert_eq!(rewritten("a => p = p & p"), Ok("a & a".to_string()));
}

#[test]
fn rule_may_drop_an_atom() {
    assert_eq!(rewritten("a & b => p & q = p"), Ok("a".to_string()));
}

#[test]
fn names_of_the_rule_may_be_those_of_the_formula() {
    // `p` of the formula and `p` of the rule are the same atom, which is
    // bound to what stands in its place
    assert_eq!(rewritten("q & p => p & q = q & p"), Ok("p & q".to_string()));
}

#[test]
fn operator_mismatch_binds_nothing() {
    let outcome = rewrite("f & t => p -> q = ~p | q", &RuleStore::new(), Policy::Permissive);
    assert_eq!(
        outcome.notices,
        vec![Mismatch::Operator(BinOperator::And, BinOperator::Arrow)]
    );
    // `p` is the first atom of the right side, and it is not bound
    assert_eq!(outcome.result, Err(RewriteError::PatternNotFound(2)));
}

#[test]
fn shape_mismatch_is_reported_with_the_part_that_did_not_fit() {
    let outcome = rewrite("a => ~p = p", &RuleStore::new(), Policy::Permissive);
    assert_eq!(outcome.notices, vec![Mismatch::Shape(atom(0))]);
    assert_eq!(outcome.result, Err(RewriteError::PatternNotFound(1)));

    let outcome = rewrite("~a => (p) = p", &RuleStore::new(), Policy::Permissive);
    assert_eq!(outcome.notices, vec![Mismatch::Shape(Expr::Not(Box::new(atom(0))))]);

    let outcome = rewrite("~a => p & q = p", &RuleStore::new(), Policy::Permissive);
    assert_eq!(outcome.notices, vec![Mismatch::Shape(Expr::Not(Box::new(atom(0))))]);
}

#[test]
fn matching_goes_on_beside_a_mismatch() {
    // the left branch does not fit, the right one binds `q`
    let outcome = rewrite("a & b => ~p & q = q", &RuleStore::new(), Policy::Permissive);
    assert_eq!(outcome.notices, vec![Mismatch::Shape(atom(0))]);
    assert_eq!(outcome.result, Ok("b".to_string()));
}

#[test]
fn parentheses_must_stand_against_parentheses() {
    assert_eq!(rewritten("(a) & b => (p) & q = q & p"), Ok("b & a".to_string()));
    let outcome = rewrite("a & b => (p) & q = q & p", &RuleStore::new(), Policy::Permissive);
    assert_eq!(outcome.notices, vec![Mismatch::Shape(atom(0))]);
    assert_eq!(outcome.result, Err(RewriteError::PatternNotFound(2)));
}

#[test]
fn atom_of_the_right_side_that_the_left_side_lacks() {
    let outcome = rewrite("a => p = q", &RuleStore::new(), Policy::Permissive);
    assert!(outcome.notices.is_empty());
    assert_eq!(outcome.result, Err(RewriteError::PatternNotFound(2)));
}

#[test]
fn first_unbound_atom_from_the_left_is_reported() {
    let outcome = rewrite("a => p = x & y", &RuleStore::new(), Policy::Permissive);
    assert_eq!(outcome.result, Err(RewriteError::PatternNotFound(2)));
}

#[test]
fn permissive_matching_keeps_the_first_binding() {
    let outcome = rewrite("a & b => p & p = p", &RuleStore::new(), Policy::Permissive);
    assert!(outcome.notices.is_empty());
    assert_eq!(outcome.result, Ok("a".to_string()));
}

#[test]
fn strict_matching_reports_a_second_binding_that_differs() {
    let outcome = rewrite("a & b => p & p = p", &RuleStore::new(), Policy::Strict);
    assert_eq!(outcome.notices, vec![Mismatch::Conflict(2)]);
    // the first binding stays
    assert_eq!(outcome.result, Ok("a".to_string()));
}

#[test]
fn strict_matching_accepts_a_second_binding_that_agrees() {
    let outcome = rewrite("(a | b) & (a | b) => p & p = p", &RuleStore::new(), Policy::Strict);
    assert!(outcome.notices.is_empty());
    assert_eq!(outcome.result, Ok("(a | b)".to_string()));
}

#[test]
fn the_policies_agree_where_no_atom_occurs_twice() {
    for policy in [Policy::Permissive, Policy::Strict] {
        let outcome = rewrite("f & t => p & q = q & p", &RuleStore::new(), policy);
        assert!(outcome.notices.is_empty());
        assert_eq!(outcome.result, Ok("t & f".to_string()));
    }
}

#[test]
fn bound_rule_is_used_by_its_name() {
    let mut store = RuleStore::new();
    bind("commutative := p & q = q & p", &mut store);
    let outcome = rewrite("x & y => commutative", &store, Policy::Permissive);
    assert!(outcome.notices.is_empty());
    assert_eq!(outcome.result, Ok("y & x".to_string()));
}

#[test]
fn rule_that_was_not_bound_is_undefined() {
    let mut store = RuleStore::new();
    bind("commutative := p & q = q & p", &mut store);
    let outcome = rewrite("x & y => associative", &store, Policy::Permissive);
    assert!(outcome.notices.is_empty());
    assert_eq!(outcome.result, Err(RewriteError::UndefinedRule));
    let outcome = rewrite("x & y => commutative", &RuleStore::new(), Policy::Permissive);
    assert_eq!(outcome.result, Err(RewriteError::UndefinedRule));
}

#[test]
fn rule_name_without_a_name_is_undefined() {
    let interned = vec!["x".to_string()];
    let outcome = match_patterns(atom(0), Rule::RuleId(5), &interned, &RuleStore::new());
    assert_eq!(outcome.result, Err(RewriteError::UndefinedRule));
}

#[test]
fn name_bound_to_a_name_is_undefined() {
    let mut store = RuleStore::new();
    store.insert("r".to_string(), Rule::RuleId(0));
    let interned = vec!["x".to_string(), "r".to_string()];
    let outcome = match_patterns(atom(0), Rule::RuleId(1), &interned, &store);
    assert_eq!(outcome.result, Err(RewriteError::UndefinedRule));
}

#[test]
fn rewrite_inside_a_rule_is_no_formula() {
    let interned = vec!["a".to_string(), "b".to_string()];
    let nested = Expr::Pattern(Box::new(atom(0)), Box::new(Rule::RuleId(1)));
    let outcome = match_patterns(
        atom(0),
        Rule::Equivalence(nested.clone(), atom(0)),
        &interned,
        &RuleStore::new(),
    );
    assert_eq!(outcome.notices, vec![Mismatch::NotAFormula]);
    assert_eq!(outcome.result, Err(RewriteError::PatternNotFound(0)));

    let outcome =
        match_patterns(atom(0), Rule::Equivalence(atom(1), nested), &interned, &RuleStore::new());
    assert!(outcome.notices.is_empty());
    assert_eq!(outcome.result, Err(RewriteError::NotAFormula));
}

#[test]
fn rewrite_as_the_formula_fits_an_atom_only() {
    // a chain of rewrites is matched as a tree, not worked off in turn
    let outcome = rewrite("x => a = b => p = p & p", &RuleStore::new(), Policy::Permissive);
    assert!(outcome.notices.is_empty());
    assert_eq!(outcome.result, Ok("x => a = b & x => a = b".to_string()));
}

#[test]
fn matching_fills_the_bindings() {
    let mut patterns = HashMap::new();
    let mut notices = Vec::new();
    let expr = binary(Expr::Not(Box::new(atom(0))), BinOperator::Or, atom(1));
    let lhs = binary(atom(7), BinOperator::Or, atom(9));
    traverse_and_match(expr, lhs, &mut patterns, &mut notices, Policy::Permissive);
    assert!(notices.is_empty());
    assert_eq!(patterns.len(), 2);
    assert_eq!(patterns.get(&7), Some(&Expr::Not(Box::new(atom(0)))));
    assert_eq!(patterns.get(&9), Some(&atom(1)));
}

#[test]
fn matching_keeps_what_was_bound_before() {
    let mut patterns = HashMap::new();
    patterns.insert(7, atom(3));
    let mut notices = vec![Mismatch::NotAFormula];
    traverse_and_match(atom(0), atom(7), &mut patterns, &mut notices, Policy::Strict);
    assert_eq!(patterns.get(&7), Some(&atom(3)));
    assert_eq!(notices, vec![Mismatch::NotAFormula, Mismatch::Conflict(7)]);
}

#[test]
fn substitution_builds_the_right_side() {
    let mut patterns = HashMap::new();
    patterns.insert(0, binary(atom(4), BinOperator::And, atom(5)));
    let rhs = Expr::Not(Box::new(Expr::Group(Box::new(atom(0)))));
    assert_eq!(
        substitute_in(rhs, &patterns),
        Ok(Expr::Not(Box::new(Expr::Group(Box::new(binary(
            atom(4),
            BinOperator::And,
            atom(5)
        ))))))
    );
    assert_eq!(substitute_in(atom(1), &patterns), Err(RewriteError::PatternNotFound(1)));
    assert_eq!(
        substitute_in(binary(atom(2), BinOperator::Or, atom(1)), &patterns),
        Err(RewriteError::PatternNotFound(2))
    );
}

#[test]
fn store_keeps_the_last_rule_of_a_name() {
    let mut store = RuleStore::new();
    assert_eq!(store.get(&"swap".to_string()), None);
    store.insert("swap".to_string(), Rule::RuleId(1));
    store.insert("other".to_string(), Rule::RuleId(2));
    assert_eq!(store.get(&"swap".to_string()), Some(&Rule::RuleId(1)));
    store.insert("swap".to_string(), Rule::RuleId(3));
    assert_eq!(store.get(&"swap".to_string()), Some(&Rule::RuleId(3)));
    assert_eq!(store.get(&"other".to_string()), Some(&Rule::RuleId(2)));
    assert_eq!(store.get(&"Swap".to_string()), None);
}

#[test]
fn rule_bound_again_replaces_the_first() {
    let mut store = RuleStore::new();
    bind("r := p & q = q & p", &mut store);
    bind("r := p & q = p", &mut store);
    let outcome = rewrite("x & y => r", &store, Policy::Permissive);
    assert_eq!(outcome.result, Ok("x".to_string()));
}
