use plogic::lexer::{tokenize, Token};
use plogic::parser::{parse, BinOperator, Expr, ParseError, Rule};

fn tokens_of(line: &str) -> Vec<Token> {
    let mut tokens = Vec::new();
    let diagnostics = tokenize(&mut tokens, &mut line.to_string(), &mut String::new());
    assert!(diagnostics.is_empty(), "{:?}", diagnostics);
    tokens
}

fn read(line: &str) -> (Result<Expr, ParseError>, Vec<String>) {
    let mut tokens = tokens_of(line);
    let mut interned = Vec::new();
    let result = parse(&mut tokens, &mut interned);
    (result, interned)
}

fn tree(line: &str) -> Expr {
    read(line).0.expect("the line is a statement")
}

fn failure(line: &str) -> ParseError {
    read(line).0.expect_err("the line is no statement")
}

fn atom(n: usize) -> Expr {
    Expr::Primary(n)
}

fn binary(l: Expr, op: BinOperator, r: Expr) -> Expr {
    Expr::Binary(Box::new(l), op, Box::new(r))
}

fn not(e: Expr) -> Expr {
    Expr::Not(Box::new(e))
}

fn group(e: Expr) -> Expr {
    Expr::Group(Box::new(e))
}

#[test]
fn single_atom() {
    let (result, interned) = read("p");
    assert_eq!(result, Ok(atom(0)));
    assert_eq!(interned, vec!["p".to_string()]);
}

#[test]
fn the_same_name_is_one_atom() {
    let (result, interned) = read("p & p");
    assert_eq!(result, Ok(binary(atom(0), BinOperator::And, atom(0))));
    assert_eq!(interned, vec!["p".to_string()]);
}

#[test]
fn atoms_are_numbered_by_first_occurrence() {
    let (result, interned) = read("q | p & q");
    assert_eq!(
        result,
        Ok(binary(atom(0), BinOperator::Or, binary(atom(1), BinOperator::And, atom(0))))
    );
    assert_eq!(interned, vec!["q".to_string(), "p".to_string()]);
}

#[test]
fn names_in_the_table_keep_their_index() {
    let mut tokens = tokens_of("p & q");
    let mut interned = vec!["x".to_string(), "q".to_string()];
    let result = parse(&mut tokens, &mut interned);
    assert_eq!(result, Ok(binary(atom(2), BinOperator::And, atom(1))));
    assert_eq!(interned, vec!["x".to_string(), "q".to_string(), "p".to_string()]);
}

#[test]
fn parse_leaves_the_tokens_alone() {
    let mut tokens = tokens_of("p & q");
    let mut interned = Vec::new();
    parse(&mut tokens, &mut interned).unwrap();
    assert_eq!(tokens, tokens_of("p & q"));
}

#[test]
fn and_binds_tighter_than_or() {
    assert_eq!(
        tree("p | q & r"),
        binary(atom(0), BinOperator::Or, binary(atom(1), BinOperator::And, atom(2)))
    );
    assert_eq!(
        tree("p & q | r"),
        binary(binary(atom(0), BinOperator::And, atom(1)), BinOperator::Or, atom(2))
    );
}

#[test]
fn or_binds_tighter_than_arrow() {
    assert_eq!(
        tree("p -> q | r"),
        binary(atom(0), BinOperator::Arrow, binary(atom(1), BinOperator::Or, atom(2)))
    );
}

#[test]
fn arrow_binds_tighter_than_twin_arrow() {
    assert_eq!(
        tree("p <-> q -> r"),
        binary(atom(0), BinOperator::TwinArrow, binary(atom(1), BinOperator::Arrow, atom(2)))
    );
}

#[test]
fn not_binds_tightest() {
    assert_eq!(tree("~p & q"), binary(not(atom(0)), BinOperator::And, atom(1)));
    assert_eq!(tree("~~p"), not(not(atom(0))));
    assert_eq!(tree("~(p & q)"), not(group(binary(atom(0), BinOperator::And, atom(1)))));
}

#[test]
fn chains_lean_left() {
    assert_eq!(
        tree("p & q & r"),
        binary(binary(atom(0), BinOperator::And, atom(1)), BinOperator::And, atom(2))
    );
    assert_eq!(
        tree("p -> q -> r"),
        binary(binary(atom(0), BinOperator::Arrow, atom(1)), BinOperator::Arrow, atom(2))
    );
    assert_eq!(
        tree("p <-> q <-> r"),
        binary(binary(atom(0), BinOperator::TwinArrow, atom(1)), BinOperator::TwinArrow, atom(2))
    );
}

#[test]
fn parentheses_are_kept_in_the_tree() {
    assert_eq!(
        tree("(p | q) & r"),
        binary(group(binary(atom(0), BinOperator::Or, atom(1))), BinOperator::And, atom(2))
    );
    assert_eq!(tree("((p))"), group(group(atom(0))));
}

#[test]
fn all_levels_in_one_formula() {
    assert_eq!(
        tree("a <-> b -> c | d & ~e"),
        binary(
            atom(0),
            BinOperator::TwinArrow,
            binary(
                atom(1),
                BinOperator::Arrow,
                binary(atom(2), BinOperator::Or, binary(atom(3), BinOperator::And, not(atom(4))))
            )
        )
    );
}

#[test]
fn inline_rewrite() {
    assert_eq!(
        tree("f & t => p & q = q & p"),
        Expr::Pattern(
            Box::new(binary(atom(0), BinOperator::And, atom(1))),
            Box::new(Rule::Equivalence(
                binary(atom(2), BinOperator::And, atom(3)),
                binary(atom(3), BinOperator::And, atom(2))
            ))
        )
    );
}

#[test]
fn rewrites_chain_to_the_left() {
    assert_eq!(
        tree("x => a = b => c = d"),
        Expr::Pattern(
            Box::new(Expr::Pattern(
                Box::new(atom(0)),
                Box::new(Rule::Equivalence(atom(1), atom(2)))
            )),
            Box::new(Rule::Equivalence(atom(3), atom(4)))
        )
    );
}

#[test]
fn rewrite_by_a_named_rule() {
    let (result, interned) = read("x & y => commutative");
    assert_eq!(
        result,
        Ok(Expr::Pattern(
            Box::new(binary(atom(0), BinOperator::And, atom(1))),
            Box::new(Rule::RuleId(2))
        ))
    );
    assert_eq!(interned, vec!["x".to_string(), "y".to_string(), "commutative".to_string()]);
}

#[test]
fn named_rule_ends_a_chain_of_rewrites() {
    assert_eq!(
        tree("x => a = b => swap"),
        Expr::Pattern(
            Box::new(Expr::Pattern(
                Box::new(atom(0)),
                Box::new(Rule::Equivalence(atom(1), atom(2)))
            )),
            Box::new(Rule::RuleId(3))
        )
    );
}

#[test]
fn keyword_rule_is_the_rule_arrow() {
    assert_eq!(tree("x rule a = b"), tree("x => a = b"));
}

#[test]
fn binding_of_a_rule() {
    let (result, interned) = read("commutative := p & q = q & p");
    assert_eq!(
        result,
        Ok(Expr::Binding(
            Box::new(atom(0)),
            Box::new(Rule::Equivalence(
                binary(atom(1), BinOperator::And, atom(2)),
                binary(atom(2), BinOperator::And, atom(1))
            ))
        ))
    );
    assert_eq!(interned, vec!["commutative".to_string(), "p".to_string(), "q".to_string()]);
}

#[test]
fn empty_input_is_an_unexpected_end() {
    assert_eq!(failure(""), ParseError::UnexpectedEnd);
}

#[test]
fn operator_without_right_operand() {
    assert_eq!(failure("p &"), ParseError::UnexpectedEnd);
    assert_eq!(failure("~"), ParseError::UnexpectedEnd);
}

#[test]
fn token_that_starts_no_formula() {
    assert_eq!(failure("& p"), ParseError::UnexpectedToken(0));
    assert_eq!(failure("p & | q"), ParseError::UnexpectedToken(2));
    assert_eq!(failure(")"), ParseError::UnexpectedToken(0));
}

#[test]
fn later_error_in_a_chain_is_the_one_reported() {
    // the left operand fails on `&`, the right one on `)`
    assert_eq!(failure("& & )"), ParseError::UnexpectedToken(2));
    // the right operand is fine, so the left one's error stands
    assert_eq!(failure("& & p"), ParseError::UnexpectedToken(0));
}

#[test]
fn missing_closing_parenthesis() {
    assert_eq!(failure("(p & q"), ParseError::MissingCloseParen);
    assert_eq!(failure("(p q)"), ParseError::MissingCloseParen);
}

#[test]
fn closing_parenthesis_too_many() {
    assert_eq!(failure("(p))"), ParseError::TrailingInput(3));
}

#[test]
fn tokens_left_over() {
    assert_eq!(failure("p q"), ParseError::TrailingInput(1));
    assert_eq!(failure("p & q r"), ParseError::TrailingInput(3));
    assert_eq!(failure("p = q"), ParseError::TrailingInput(1));
}

#[test]
fn binding_to_something_that_is_no_atom() {
    assert_eq!(failure("p & q := a = b"), ParseError::NotAnIdentifier);
    assert_eq!(failure("(p) := a = b"), ParseError::NotAnIdentifier);
    // a formula that failed is no atom either
    assert_eq!(failure("& := a = b"), ParseError::NotAnIdentifier);
    // `:=` at the very start is consumed as the start of a formula
    assert_eq!(failure(":= a = b"), ParseError::UnexpectedToken(0));
}

#[test]
fn binding_without_equal() {
    assert_eq!(failure("name := p & q"), ParseError::ExpectedEqual);
    assert_eq!(failure("name := p & q => r"), ParseError::ExpectedEqual);
}

#[test]
fn binding_is_not_chained() {
    assert_eq!(failure("name := a = b => c = d"), ParseError::TrailingInput(5));
    assert_eq!(failure("name := a = b := c = d"), ParseError::TrailingInput(5));
}

#[test]
fn rewrite_without_equal() {
    assert_eq!(failure("x => p & q )"), ParseError::ExpectedEqualOrRuleName(5));
    assert_eq!(failure("x => p => q = r"), ParseError::ExpectedEqualOrRuleName(3));
}

#[test]
fn rule_name_must_be_an_atom() {
    assert_eq!(failure("x => p & q"), ParseError::ExpectedRuleName);
    assert_eq!(failure("x => (p)"), ParseError::ExpectedRuleName);
}

#[test]
fn error_inside_a_rule() {
    assert_eq!(failure("x =>"), ParseError::UnexpectedEnd);
    assert_eq!(failure("x => p ="), ParseError::UnexpectedEnd);
    assert_eq!(failure("x => p = &"), ParseError::UnexpectedToken(4));
}

#[test]
fn names_are_interned_up_to_the_error() {
    let (result, interned) = read("p & q & | r");
    assert_eq!(result, Err(ParseError::UnexpectedToken(4)));
    assert_eq!(interned, vec!["p".to_string(), "q".to_string()]);
}

#[test]
fn trees_can_be_copied_and_compared() {
    let e = tree("(p -> q) & ~r => a = b");
    let copy = e.clone();
    assert_eq!(e, copy);
    assert!(e.same(&copy));
    assert!(!e.same(&tree("(p -> q) & ~r => a = a")));
    // the names are not part of the tree, only their order is
    assert!(e.same(&tree("(x -> y) & ~z => u = v")));
    assert!(!tree("p & q").same(&tree("p | q")));
    assert!(!tree("(p)").same(&tree("p")));
}

#[test]
fn formulas_are_told_from_statements() {
    assert!(tree("(p -> q) & ~r").check_formula());
    assert!(!tree("p => a = b").check_formula());
    assert!(!tree("n := a = b").check_formula());
    let hidden = not(tree("p => a = b"));
    assert!(!hidden.check_formula());
}

#[test]
fn atoms_are_checked_against_the_number_of_names() {
    let e = tree("p & q => r");
    assert!(e.is_named_below(3));
    assert!(!e.is_named_below(2));
    assert!(atom(0).is_named_below(1));
    assert!(!atom(0).is_named_below(0));
    assert!(Rule::RuleId(4).is_named_below(5));
    assert!(!Rule::RuleId(4).is_named_below(4));
    assert!(!Rule::Equivalence(atom(0), atom(7)).is_named_below(7));
}

#[test]
fn rules_can_be_compared() {
    let a = Rule::Equivalence(atom(0), atom(1));
    assert!(a.same(&a.clone()));
    assert!(!a.same(&Rule::Equivalence(atom(0), atom(2))));
    assert!(!a.same(&Rule::RuleId(0)));
    assert!(Rule::RuleId(3).same(&Rule::RuleId(3)));
}
