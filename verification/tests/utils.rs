use plogic::lexer::{tokenize, Token};
use plogic::parser::{parse, BinOperator, Expr, Rule};
use plogic::utils::{expr_to_string, rule_to_string};

fn names(list: &[&str]) -> Vec<String> {
    list.iter().map(|s| s.to_string()).collect()
}

fn read(line: &str) -> (Expr, Vec<String>) {
    let mut tokens: Vec<Token> = Vec::new();
    let diagnostics = tokenize(&mut tokens, &mut line.to_string(), &mut String::new());
    assert!(diagnostics.is_empty());
    let mut interned = Vec::new();
    let expr = parse(&mut tokens, &mut interned).expect("the line is a statement");
    (expr, interned)
}

fn printed(line: &str) -> String {
    let (expr, interned) = read(line);
    expr_to_string(&expr, &interned)
}

#[test]
fn operators_have_their_symbols() {
    assert_eq!(BinOperator::And.symbol(), "&");
    assert_eq!(BinOperator::Or.symbol(), "|");
    assert_eq!(BinOperator::Arrow.symbol(), "->");
    assert_eq!(BinOperator::TwinArrow.symbol(), "<->");
}

#[test]
fn atom_prints_as_its_name() {
    assert_eq!(expr_to_string(&Expr::Primary(1), &names(&["p", "rain"])), "rain");
}

#[test]
fn connectives_print_between_blanks() {
    let interned = names(&["p", "q"]);
    let p = || Box::new(Expr::Primary(0));
    let q = || Box::new(Expr::Primary(1));
    assert_eq!(expr_to_string(&Expr::Binary(p(), BinOperator::And, q()), &interned), "p & q");
    assert_eq!(expr_to_string(&Expr::Binary(p(), BinOperator::Or, q()), &interned), "p | q");
    assert_eq!(expr_to_string(&Expr::Binary(p(), BinOperator::Arrow, q()), &interned), "p -> q");
    assert_eq!(
        expr_to_string(&Expr::Binary(p(), BinOperator::TwinArrow, q()), &interned),
        "p <-> q"
    );
}

#[test]
fn negation_and_parentheses_print_tight() {
    let interned = names(&["p"]);
    let not = Expr::Not(Box::new(Expr::Primary(0)));
    assert_eq!(expr_to_string(&not, &interned), "~p");
    let group = Expr::Group(Box::new(not));
    assert_eq!(expr_to_string(&group, &interned), "(~p)");
    assert_eq!(expr_to_string(&Expr::Not(Box::new(group)), &interned), "~(~p)");
}

#[test]
fn rules_print_with_equal_or_by_name() {
    let interned = names(&["p", "q", "swap"]);
    let rule = Rule::Equivalence(
        Expr::Binary(Box::new(Expr::Primary(0)), BinOperator::And, Box::new(Expr::Primary(1))),
        Expr::Binary(Box::new(Expr::Primary(1)), BinOperator::And, Box::new(Expr::Primary(0))),
    );
    assert_eq!(rule_to_string(&rule, &interned), "p & q = q & p");
    assert_eq!(rule_to_string(&Rule::RuleId(2), &interned), "swap");
}

#[test]
fn rewrites_and_bindings_print_with_their_signs() {
    assert_eq!(printed("f&t=>p&q=q&p"), "f & t => p & q = q & p");
    assert_eq!(printed("x & y rule commutative"), "x & y => commutative");
    assert_eq!(printed("commutative:=p&q=q&p"), "commutative := p & q = q & p");
}

#[test]
fn keywords_print_as_symbols() {
    assert_eq!(printed("not p and q or r implies s equiv t"), "~p & q | r -> s <-> t");
}

#[test]
fn printing_does_not_add_parentheses() {
    // a tree that no text parses to: `|` below `&` without parentheses
    let interned = names(&["p", "q", "r"]);
    let inner =
        Expr::Binary(Box::new(Expr::Primary(0)), BinOperator::Or, Box::new(Expr::Primary(1)));
    let outer = Expr::Binary(Box::new(inner), BinOperator::And, Box::new(Expr::Primary(2)));
    assert_eq!(expr_to_string(&outer, &interned), "p | q & r");
}

fn round_trip(line: &str) {
    let (expr, interned) = read(line);
    let text = expr_to_string(&expr, &interned);
    let (again, interned_again) = read(&text);
    assert_eq!(again, expr, "{}", text);
    assert_eq!(interned_again, interned, "{}", text);
    assert_eq!(expr_to_string(&again, &interned_again), text);
}

#[test]
fn printed_formulas_parse_to_the_same_tree() {
    round_trip("p");
    round_trip("~~p");
    round_trip("p&q|r->s<->t");
    round_trip("a <-> b -> c | d & ~e");
    round_trip("(p | q) & (r -> (s <-> ~(t)))");
    round_trip("((p))");
    round_trip("p and not q or p implies r");
}

#[test]
fn printed_statements_parse_to_the_same_tree() {
    round_trip("f & t => p & q = q & p");
    round_trip("x => a = b => c = d");
    round_trip("x & y => commutative");
    round_trip("x => a = b => swap");
    round_trip("demorgan := ~(p & q) = ~p | ~q");
}
