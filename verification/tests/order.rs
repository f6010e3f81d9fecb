use plogic::order::{place_of, rule_place_of, Place};
use plogic::parser::{BinOperator, Expr, Rule};
use std::cmp::Ordering;

fn atom(n: usize) -> Expr {
    Expr::Primary(n)
}

fn binary(l: Expr, op: BinOperator, r: Expr) -> Expr {
    Expr::Binary(Box::new(l), op, Box::new(r))
}

fn not(e: Expr) -> Expr {
    Expr::Not(Box::new(e))
}

fn group(e: Expr) -> Expr {
    Expr::Group(Box::new(e))
}

fn pattern(e: Expr, r: Rule) -> Expr {
    Expr::Pattern(Box::new(e), Box::new(r))
}

fn binding(e: Expr, r: Rule) -> Expr {
    Expr::Binding(Box::new(e), Box::new(r))
}

fn samples() -> Vec<Expr> {
    vec![
        pattern(atom(0), Rule::Equivalence(atom(0), atom(1))),
        pattern(atom(0), Rule::Equivalence(atom(1), atom(0))),
        pattern(atom(0), Rule::RuleId(0)),
        pattern(atom(1), Rule::Equivalence(atom(0), atom(0))),
        binding(atom(0), Rule::Equivalence(atom(0), atom(1))),
        binding(atom(0), Rule::RuleId(3)),
        binary(atom(0), BinOperator::And, atom(1)),
        binary(atom(0), BinOperator::Or, atom(0)),
        binary(atom(0), BinOperator::Arrow, atom(0)),
        binary(atom(0), BinOperator::TwinArrow, atom(0)),
        binary(atom(1), BinOperator::And, atom(0)),
        binary(group(atom(0)), BinOperator::Or, atom(0)),
        binary(not(atom(0)), BinOperator::And, atom(0)),
        not(atom(0)),
        not(not(atom(0))),
        not(group(atom(1))),
        group(atom(0)),
        group(binary(atom(0), BinOperator::And, atom(1))),
        atom(0),
        atom(1),
        atom(7),
    ]
}

fn expected(order: Ordering) -> Place {
    match order {
        Ordering::Less => Place::Before,
        Ordering::Equal => Place::Same,
        Ordering::Greater => Place::After,
    }
}

#[test]
fn kinds_stand_in_the_order_of_their_declaration() {
    let rule = || Rule::RuleId(0);
    let kinds = vec![
        pattern(atom(9), rule()),
        binding(atom(9), rule()),
        binary(atom(9), BinOperator::TwinArrow, atom(9)),
        not(atom(9)),
        group(atom(9)),
        atom(0),
    ];
    for i in 0..kinds.len() {
        for j in 0..kinds.len() {
            assert_eq!(place_of(&kinds[i], &kinds[j]), expected(i.cmp(&j)));
        }
    }
}

#[test]
fn atoms_stand_in_the_order_of_their_indices() {
    assert_eq!(place_of(&atom(0), &atom(1)), Place::Before);
    assert_eq!(place_of(&atom(1), &atom(1)), Place::Same);
    assert_eq!(place_of(&atom(2), &atom(1)), Place::After);
}

#[test]
fn trees_of_one_kind_are_compared_from_left_to_right() {
    let a = binary(atom(0), BinOperator::TwinArrow, atom(9));
    let b = binary(atom(1), BinOperator::And, atom(0));
    assert_eq!(place_of(&a, &b), Place::Before);
    let c = binary(atom(0), BinOperator::And, atom(9));
    let d = binary(atom(0), BinOperator::Or, atom(0));
    assert_eq!(place_of(&c, &d), Place::Before);
    let e = binary(atom(0), BinOperator::Or, atom(1));
    assert_eq!(place_of(&d, &e), Place::Before);
    assert_eq!(place_of(&e, &d), Place::After);
}

#[test]
fn connectives_stand_from_the_tightest_to_the_loosest() {
    let ops = [BinOperator::And, BinOperator::Or, BinOperator::Arrow, BinOperator::TwinArrow];
    for i in 0..ops.len() {
        for j in 0..ops.len() {
            let a = binary(atom(0), ops[i], atom(0));
            let b = binary(atom(0), ops[j], atom(0));
            assert_eq!(place_of(&a, &b), expected(i.cmp(&j)));
        }
    }
}

#[test]
fn equivalences_stand_before_names() {
    let eq = Rule::Equivalence(atom(5), atom(5));
    let id = Rule::RuleId(0);
    assert_eq!(rule_place_of(&eq, &id), Place::Before);
    assert_eq!(rule_place_of(&id, &eq), Place::After);
    assert_eq!(rule_place_of(&id, &Rule::RuleId(1)), Place::Before);
    assert_eq!(rule_place_of(&eq, &eq), Place::Same);
    assert_eq!(
        rule_place_of(&Rule::Equivalence(atom(5), atom(4)), &eq),
        Place::Before
    );
}

#[test]
fn order_agrees_with_the_derived_one() {
    let trees = samples();
    for a in &trees {
        for b in &trees {
            assert_eq!(place_of(a, b), expected(a.cmp(b)), "{:?} and {:?}", a, b);
        }
    }
}

#[test]
fn order_is_total_and_strict() {
    let trees = samples();
    for a in &trees {
        for b in &trees {
            let forth = place_of(a, b);
            let back = place_of(b, a);
            match forth {
                Place::Before => assert_eq!(back, Place::After),
                Place::Same => {
                    assert_eq!(back, Place::Same);
                    assert!(a.same(b));
                }
                Place::After => assert_eq!(back, Place::Before),
            }
            assert_eq!(forth == Place::Same, a == b);
        }
    }
}

#[test]
fn order_is_transitive() {
    let trees = samples();
    for a in &trees {
        for b in &trees {
            for c in &trees {
                if place_of(a, b) == Place::Before && place_of(b, c) == Place::Before {
                    assert_eq!(place_of(a, c), Place::Before);
                }
            }
        }
    }
}
