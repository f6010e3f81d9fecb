//! The total order of expression trees, by which the columns of a table
//! are laid out.

use crate::parser::{looseness, BinOperator, Expr, Rule};
use vstd::prelude::*;

verus! {

/// Where one tree stands with respect to another.
#[derive(Debug, PartialEq, Eq, Structural, Clone, Copy)]
pub enum Place {
    Before,
    Same,
    After,
}

/// The place of a kind of tree among the kinds: rewrites first, atoms last.
pub open spec fn kind(expr: Expr) -> nat {
    match expr {
        Expr::Pattern(_, _) => 0,
        Expr::Binding(_, _) => 1,
        Expr::Binary(_, _, _) => 2,
        Expr::Not(_) => 3,
        Expr::Group(_) => 4,
        Expr::Primary(_) => 5,
    }
}

/// Whether `a` stands before `b`: by kind first, then by what the trees
/// hold, from left to right; atoms stand in the order of their indices,
/// and connectives from the tightest to the loosest.
pub open spec fn before(a: Expr, b: Expr) -> bool
    decreases a,
{
    match (a, b) {
        (Expr::Pattern(e, r), Expr::Pattern(f, s)) => before(*e, *f) || (*e == *f && rule_before(
            *r,
            *s,
        )),
        (Expr::Binding(e, r), Expr::Binding(f, s)) => before(*e, *f) || (*e == *f && rule_before(
            *r,
            *s,
        )),
        (Expr::Binary(l, o, r), Expr::Binary(m, p, s)) => before(*l, *m) || (*l == *m && (
        looseness(o) < looseness(p) || (o == p && before(*r, *s)))),
        (Expr::Not(e), Expr::Not(f)) => before(*e, *f),
        (Expr::Group(e), Expr::Group(f)) => before(*e, *f),
        (Expr::Primary(m), Expr::Primary(n)) => m < n,
        _ => kind(a) < kind(b),
    }
}

/// Whether the rule `a` stands before the rule `b`: equivalences before
/// names, equivalences by their sides, names by their indices.
pub open spec fn rule_before(a: Rule, b: Rule) -> bool
    decreases a,
{
    match (a, b) {
        (Rule::Equivalence(l, r), Rule::Equivalence(m, s)) => before(l, m) || (l == m && before(
            r,
            s,
        )),
        (Rule::RuleId(m), Rule::RuleId(n)) => m < n,
        (Rule::Equivalence(_, _), Rule::RuleId(_)) => true,
        (Rule::RuleId(_), Rule::Equivalence(_, _)) => false,
    }
}

/// Whether `place` is the place of `a` with respect to `b`.
pub open spec fn places(place: Place, a: Expr, b: Expr) -> bool {
    match place {
        Place::Before => before(a, b) && a != b && !before(b, a),
        Place::Same => a == b && !before(a, b) && !before(b, a),
        Place::After => before(b, a) && a != b && !before(a, b),
    }
}

/// Whether `place` is the place of the rule `a` with respect to `b`.
pub open spec fn rule_places(place: Place, a: Rule, b: Rule) -> bool {
    match place {
        Place::Before => rule_before(a, b) && a != b && !rule_before(b, a),
        Place::Same => a == b && !rule_before(a, b) && !rule_before(b, a),
        Place::After => rule_before(b, a) && a != b && !rule_before(a, b),
    }
}

fn number_place(m: usize, n: usize) -> (place: Place)
    ensures
        place == (if m < n {
            Place::Before
        } else if m == n {
            Place::Same
        } else {
            Place::After
        }),
{
    if m < n {
        Place::Before
    } else if m == n {
        Place::Same
    } else {
        Place::After
    }
}

fn operator_rank(op: BinOperator) -> (rank: usize)
    ensures
        rank == looseness(op),
{
    match op {
        BinOperator::And => 0,
        BinOperator::Or => 1,
        BinOperator::Arrow => 2,
        BinOperator::TwinArrow => 3,
    }
}

fn kind_of(expr: &Expr) -> (rank: usize)
    ensures
        rank == kind(*expr),
{
    match expr {
        Expr::Pattern(_, _) => 0,
        Expr::Binding(_, _) => 1,
        Expr::Binary(_, _, _) => 2,
        Expr::Not(_) => 3,
        Expr::Group(_) => 4,
        Expr::Primary(_) => 5,
    }
}

/// The place of `a` with respect to `b`.  Of any two trees one stands
/// before the other, or they are the same.
pub fn place_of(a: &Expr, b: &Expr) -> (place: Place)
    ensures
        places(place, *a, *b),
    decreases *a,
{
    match (a, b) {
        (Expr::Pattern(e, r), Expr::Pattern(f, s)) => match place_of(e, f) {
            Place::Same => rule_place_of(r, s),
            other => other,
        },
        (Expr::Binding(e, r), Expr::Binding(f, s)) => match place_of(e, f) {
            Place::Same => rule_place_of(r, s),
            other => other,
        },
        (Expr::Binary(l, o, r), Expr::Binary(m, p, s)) => match place_of(l, m) {
            Place::Same => match number_place(operator_rank(*o), operator_rank(*p)) {
                Place::Same => place_of(r, s),
                other => other,
            },
            other => other,
        },
        (Expr::Not(e), Expr::Not(f)) => place_of(e, f),
        (Expr::Group(e), Expr::Group(f)) => place_of(e, f),
        (Expr::Primary(m), Expr::Primary(n)) => number_place(*m, *n),
        _ => number_place(kind_of(a), kind_of(b)),
    }
}

/// The place of the rule `a` with respect to `b`.
pub fn rule_place_of(a: &Rule, b: &Rule) -> (place: Place)
    ensures
        rule_places(place, *a, *b),
    decreases *a,
{
    match (a, b) {
        (Rule::Equivalence(l, r), Rule::Equivalence(m, s)) => match place_of(l, m) {
            Place::Same => place_of(r, s),
            other => other,
        },
        (Rule::RuleId(m), Rule::RuleId(n)) => number_place(*m, *n),
        (Rule::Equivalence(_, _), Rule::RuleId(_)) => Place::Before,
        (Rule::RuleId(_), Rule::Equivalence(_, _)) => Place::After,
    }
}

/// The order is total and strict: of two trees exactly one of these
/// holds: the first stands before the second, they are the same, the
/// second stands before the first.
pub proof fn lemma_order_total(a: Expr, b: Expr)
    ensures
        before(a, b) || a == b || before(b, a),
        !(before(a, b) && a == b),
        !(before(a, b) && before(b, a)),
    decreases a,
{
    match (a, b) {
        (Expr::Pattern(e, r), Expr::Pattern(f, s)) => {
            lemma_order_total(*e, *f);
            lemma_rule_order_total(*r, *s);
        },
        (Expr::Binding(e, r), Expr::Binding(f, s)) => {
            lemma_order_total(*e, *f);
            lemma_rule_order_total(*r, *s);
        },
        (Expr::Binary(l, o, r), Expr::Binary(m, p, s)) => {
            lemma_order_total(*l, *m);
            lemma_order_total(*r, *s);
        },
        (Expr::Not(e), Expr::Not(f)) => {
            lemma_order_total(*e, *f);
        },
        (Expr::Group(e), Expr::Group(f)) => {
            lemma_order_total(*e, *f);
        },
        _ => {},
    }
}

/// The order of rules is total and strict.
pub proof fn lemma_rule_order_total(a: Rule, b: Rule)
    ensures
        rule_before(a, b) || a == b || rule_before(b, a),
        !(rule_before(a, b) && a == b),
        !(rule_before(a, b) && rule_before(b, a)),
    decreases a,
{
    match (a, b) {
        (Rule::Equivalence(l, r), Rule::Equivalence(m, s)) => {
            lemma_order_total(l, m);
            lemma_order_total(r, s);
        },
        _ => {},
    }
}

/// What stands before something that stands before a third, stands
/// before the third.
pub proof fn lemma_order_transitive(a: Expr, b: Expr, c: Expr)
    requires
        before(a, b),
        before(b, c),
    ensures
        before(a, c),
    decreases a,
{
    match (a, b, c) {
        (Expr::Pattern(e, r), Expr::Pattern(f, s), Expr::Pattern(g, t)) => {
            lemma_order_total(*e, *f);
            lemma_order_total(*f, *g);
            if before(*e, *f) && before(*f, *g) {
                lemma_order_transitive(*e, *f, *g);
            }
            if rule_before(*r, *s) && rule_before(*s, *t) {
                lemma_rule_order_transitive(*r, *s, *t);
            }
        },
        (Expr::Binding(e, r), Expr::Binding(f, s), Expr::Binding(g, t)) => {
            lemma_order_total(*e, *f);
            lemma_order_total(*f, *g);
            if before(*e, *f) && before(*f, *g) {
                lemma_order_transitive(*e, *f, *g);
            }
            if rule_before(*r, *s) && rule_before(*s, *t) {
                lemma_rule_order_transitive(*r, *s, *t);
            }
        },
        (Expr::Binary(l, o, r), Expr::Binary(m, p, s), Expr::Binary(n, q, t)) => {
            lemma_order_total(*l, *m);
            lemma_order_total(*m, *n);
            if before(*l, *m) && before(*m, *n) {
                lemma_order_transitive(*l, *m, *n);
            }
            if before(*r, *s) && before(*s, *t) {
                lemma_order_transitive(*r, *s, *t);
            }
        },
        (Expr::Not(e), Expr::Not(f), Expr::Not(g)) => {
            lemma_order_transitive(*e, *f, *g);
        },
        (Expr::Group(e), Expr::Group(f), Expr::Group(g)) => {
            lemma_order_transitive(*e, *f, *g);
        },
        _ => {},
    }
}

/// The order of rules is transitive.
pub proof fn lemma_rule_order_transitive(a: Rule, b: Rule, c: Rule)
    requires
        rule_before(a, b),
        rule_before(b, c),
    ensures
        rule_before(a, c),
    decreases a,
{
    match (a, b, c) {
        (Rule::Equivalence(l, r), Rule::Equivalence(m, s), Rule::Equivalence(n, t)) => {
            lemma_order_total(l, m);
            lemma_order_total(m, n);
            if before(l, m) && before(m, n) {
                lemma_order_transitive(l, m, n);
            }
            if before(r, s) && before(s, t) {
                lemma_order_transitive(r, s, t);
            }
        },
        _ => {},
    }
}

} // verus!
