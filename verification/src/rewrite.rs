//! Matching a formula against the left side of an equivalence, and
//! building the right side from what the match bound.

use crate::parser::{BinOperator, Expr};
use std::collections::HashMap;
use vstd::prelude::*;

verus! {

/// How matching treats an atom of the pattern that occurs again.
#[derive(Debug, PartialEq, Eq, Structural, Clone, Copy)]
pub enum Policy {
    /// The first occurrence binds the atom, and a later one is not looked
    /// at.
    Permissive,
    /// A later occurrence must stand where the same formula stands as at
    /// the first, and is reported if it does not.  The first binding stays.
    Strict,
}

/// A place where the formula did not fit the pattern.  Matching reports it
/// and goes on with the branches beside it.
#[derive(Debug, PartialEq, Eq)]
pub enum Mismatch {
    /// The formula has the first connective where the pattern has the
    /// second.
    Operator(BinOperator, BinOperator),
    /// This part of the formula stands where the pattern has a connective,
    /// a negation or parentheses, and is none.
    Shape(Expr),
    /// In the strict policy: this atom of the pattern was bound to one
    /// formula and stands against another.
    Conflict(usize),
    /// The pattern holds a rewrite or a binding.
    NotAFormula,
}

/// Why a rewrite gave no formula.
#[derive(Debug, PartialEq, Eq, Clone, Copy)]
pub enum RewriteError {
    /// The rule's name is bound to no rule.
    UndefinedRule,
    /// This atom of the rule's right side was not bound by the match: it
    /// does not occur in the left side, or stands there where the formula
    /// did not fit.
    PatternNotFound(usize),
    /// The rule's right side holds a rewrite or a binding.
    NotAFormula,
}

/// What matching has come to: the formula that each atom of the pattern
/// stands for, and the mismatches met so far.
pub struct Matching {
    pub bound: Map<usize, Expr>,
    pub notices: Seq<Mismatch>,
}

impl Matching {
    pub open spec fn empty() -> Matching {
        Matching { bound: Map::empty(), notices: Seq::empty() }
    }

    pub open spec fn with_notice(self, notice: Mismatch) -> Matching {
        Matching { bound: self.bound, notices: self.notices.push(notice) }
    }
}

/// Matching `expr` against the pattern `lhs`, in lock-step from the root,
/// the left branch before the right: an atom of the pattern is bound to
/// what stands in its place, a connective has to be the same connective,
/// and a negation or parentheses have to stand against their like.  Where
/// they do not, that branch binds nothing and is reported.
pub open spec fn matched(expr: Expr, lhs: Expr, so_far: Matching, policy: Policy) -> Matching
    decreases lhs,
{
    match lhs {
        Expr::Binary(pattern_left, pattern_op, pattern_right) => match expr {
            Expr::Binary(left, op, right) => if pattern_op == op {
                matched(
                    *right,
                    *pattern_right,
                    matched(*left, *pattern_left, so_far, policy),
                    policy,
                )
            } else {
                so_far.with_notice(Mismatch::Operator(op, pattern_op))
            },
            _ => so_far.with_notice(Mismatch::Shape(expr)),
        },
        Expr::Not(pattern) => match expr {
            Expr::Not(e) => matched(*e, *pattern, so_far, policy),
            _ => so_far.with_notice(Mismatch::Shape(expr)),
        },
        Expr::Group(pattern) => match expr {
            Expr::Group(e) => matched(*e, *pattern, so_far, policy),
            _ => so_far.with_notice(Mismatch::Shape(expr)),
        },
        Expr::Primary(n) => if !so_far.bound.contains_key(n) {
            Matching { bound: so_far.bound.insert(n, expr), notices: so_far.notices }
        } else if policy == Policy::Strict && so_far.bound[n] != expr {
            so_far.with_notice(Mismatch::Conflict(n))
        } else {
            so_far
        },
        _ => so_far.with_notice(Mismatch::NotAFormula),
    }
}

/// The right side `rhs` with each atom replaced by the formula it is bound
/// to.  The first atom that is not bound, from left to right, is the
/// error.
pub open spec fn substituted(rhs: Expr, bound: Map<usize, Expr>) -> Result<Expr, RewriteError>
    decreases rhs,
{
    match rhs {
        Expr::Binary(l, op, r) => match (substituted(*l, bound), substituted(*r, bound)) {
            (Err(e), _) => Err(e),
            (Ok(_), Err(e)) => Err(e),
            (Ok(left), Ok(right)) => Ok(Expr::Binary(Box::new(left), op, Box::new(right))),
        },
        Expr::Not(e) => match substituted(*e, bound) {
            Err(e) => Err(e),
            Ok(inner) => Ok(Expr::Not(Box::new(inner))),
        },
        Expr::Group(e) => match substituted(*e, bound) {
            Err(e) => Err(e),
            Ok(inner) => Ok(Expr::Group(Box::new(inner))),
        },
        Expr::Primary(n) => if bound.contains_key(n) {
            Ok(bound[n])
        } else {
            Err(RewriteError::PatternNotFound(n))
        },
        _ => Err(RewriteError::NotAFormula),
    }
}

/// Whether every formula that `bound` holds has its atoms below `count`.
pub open spec fn bound_below(bound: Map<usize, Expr>, count: nat) -> bool {
    forall|n: usize| bound.contains_key(n) ==> (#[trigger] bound[n]).named_below(count)
}

/// Matching binds parts of the formula, so what it binds has no atom that
/// the formula does not have.
pub proof fn lemma_matched_below(
    expr: Expr,
    lhs: Expr,
    so_far: Matching,
    policy: Policy,
    count: nat,
)
    requires
        expr.named_below(count),
        bound_below(so_far.bound, count),
    ensures
        bound_below(matched(expr, lhs, so_far, policy).bound, count),
    decreases lhs,
{
    match lhs {
        Expr::Binary(pattern_left, pattern_op, pattern_right) => match expr {
            Expr::Binary(left, op, right) => {
                if pattern_op == op {
                    lemma_matched_below(*left, *pattern_left, so_far, policy, count);
                    lemma_matched_below(
                        *right,
                        *pattern_right,
                        matched(*left, *pattern_left, so_far, policy),
                        policy,
                        count,
                    );
                }
            },
            _ => {},
        },
        Expr::Not(pattern) => match expr {
            Expr::Not(e) => lemma_matched_below(*e, *pattern, so_far, policy, count),
            _ => {},
        },
        Expr::Group(pattern) => match expr {
            Expr::Group(e) => lemma_matched_below(*e, *pattern, so_far, policy, count),
            _ => {},
        },
        _ => {},
    }
}

/// A formula built from formulas with atoms below `count` has its atoms
/// below `count`.
pub proof fn lemma_substituted_below(rhs: Expr, bound: Map<usize, Expr>, count: nat)
    requires
        bound_below(bound, count),
    ensures
        substituted(rhs, bound) is Ok ==> substituted(rhs, bound)->Ok_0.named_below(count),
    decreases rhs,
{
    match rhs {
        Expr::Binary(l, op, r) => {
            lemma_substituted_below(*l, bound, count);
            lemma_substituted_below(*r, bound, count);
        },
        Expr::Not(e) => lemma_substituted_below(*e, bound, count),
        Expr::Group(e) => lemma_substituted_below(*e, bound, count),
        _ => {},
    }
}

/// Whether `larger` binds every atom that `smaller` binds, to the same
/// formula.
pub open spec fn binds_more(larger: Map<usize, Expr>, smaller: Map<usize, Expr>) -> bool {
    forall|n: usize| #[trigger]
        smaller.contains_key(n) ==> larger.contains_key(n) && larger[n] == smaller[n]
}

/// Matching takes nothing back: what was bound stays bound, and what was
/// reported stays reported.
pub proof fn lemma_matched_grows(expr: Expr, lhs: Expr, so_far: Matching, policy: Policy)
    ensures
        binds_more(matched(expr, lhs, so_far, policy).bound, so_far.bound),
        so_far.notices.is_prefix_of(matched(expr, lhs, so_far, policy).notices),
    decreases lhs,
{
    match lhs {
        Expr::Binary(pattern_left, pattern_op, pattern_right) => match expr {
            Expr::Binary(left, op, right) => {
                if pattern_op == op {
                    let first = matched(*left, *pattern_left, so_far, policy);
                    lemma_matched_grows(*left, *pattern_left, so_far, policy);
                    lemma_matched_grows(*right, *pattern_right, first, policy);
                }
            },
            _ => {},
        },
        Expr::Not(pattern) => match expr {
            Expr::Not(e) => lemma_matched_grows(*e, *pattern, so_far, policy),
            _ => {},
        },
        Expr::Group(pattern) => match expr {
            Expr::Group(e) => lemma_matched_grows(*e, *pattern, so_far, policy),
            _ => {},
        },
        _ => {},
    }
}

/// What could be built from some bindings is built the same from more.
pub proof fn lemma_substituted_stable(
    rhs: Expr,
    smaller: Map<usize, Expr>,
    larger: Map<usize, Expr>,
)
    requires
        binds_more(larger, smaller),
        substituted(rhs, smaller) is Ok,
    ensures
        substituted(rhs, larger) == substituted(rhs, smaller),
    decreases rhs,
{
    match rhs {
        Expr::Binary(l, _, r) => {
            lemma_substituted_stable(*l, smaller, larger);
            lemma_substituted_stable(*r, smaller, larger);
        },
        Expr::Not(e) => lemma_substituted_stable(*e, smaller, larger),
        Expr::Group(e) => lemma_substituted_stable(*e, smaller, larger),
        _ => {},
    }
}

/// Strict matching that reports nothing has found the formula to be an
/// instance of the pattern: the pattern, with its atoms replaced by what
/// they were bound to, is the formula.
pub proof fn lemma_strict_match_exact(expr: Expr, lhs: Expr, so_far: Matching)
    requires
        matched(expr, lhs, so_far, Policy::Strict).notices == so_far.notices,
    ensures
        substituted(lhs, matched(expr, lhs, so_far, Policy::Strict).bound) == Ok::<
            Expr,
            RewriteError,
        >(expr),
    decreases lhs,
{
    match lhs {
        Expr::Binary(pattern_left, pattern_op, pattern_right) => match expr {
            Expr::Binary(left, op, right) => {
                if pattern_op == op {
                    let first = matched(*left, *pattern_left, so_far, Policy::Strict);
                    let second = matched(*right, *pattern_right, first, Policy::Strict);
                    lemma_matched_grows(*left, *pattern_left, so_far, Policy::Strict);
                    lemma_matched_grows(*right, *pattern_right, first, Policy::Strict);
                    assert(first.notices =~= so_far.notices);
                    lemma_strict_match_exact(*left, *pattern_left, so_far);
                    lemma_strict_match_exact(*right, *pattern_right, first);
                    lemma_substituted_stable(*pattern_left, first.bound, second.bound);
                } else {
                    assert(so_far.notices.push(Mismatch::Operator(op, pattern_op)).len()
                        != so_far.notices.len());
                }
            },
            _ => {
                assert(so_far.notices.push(Mismatch::Shape(expr)).len() != so_far.notices.len());
            },
        },
        Expr::Not(pattern) => match expr {
            Expr::Not(e) => lemma_strict_match_exact(*e, *pattern, so_far),
            _ => {
                assert(so_far.notices.push(Mismatch::Shape(expr)).len() != so_far.notices.len());
            },
        },
        Expr::Group(pattern) => match expr {
            Expr::Group(e) => lemma_strict_match_exact(*e, *pattern, so_far),
            _ => {
                assert(so_far.notices.push(Mismatch::Shape(expr)).len() != so_far.notices.len());
            },
        },
        Expr::Primary(n) => {
            if so_far.bound.contains_key(n) && so_far.bound[n] != expr {
                assert(so_far.notices.push(Mismatch::Conflict(n)).len() != so_far.notices.len());
            }
        },
        _ => {
            assert(so_far.notices.push(Mismatch::NotAFormula).len() != so_far.notices.len());
        },
    }
}

/// The rule `p op q = q op p`, for two different atoms, swaps the operands
/// of any formula `a op b`, under either policy.
pub proof fn lemma_swap(a: Expr, b: Expr, op: BinOperator, p: usize, q: usize, policy: Policy)
    requires
        p != q,
    ensures
        ({
            let expr = Expr::Binary(Box::new(a), op, Box::new(b));
            let lhs = Expr::Binary(Box::new(Expr::Primary(p)), op, Box::new(Expr::Primary(q)));
            let rhs = Expr::Binary(Box::new(Expr::Primary(q)), op, Box::new(Expr::Primary(p)));
            let matching = matched(expr, lhs, Matching::empty(), policy);
            &&& matching.notices == Seq::<Mismatch>::empty()
            &&& substituted(rhs, matching.bound) == Ok::<Expr, RewriteError>(
                Expr::Binary(Box::new(b), op, Box::new(a)),
            )
        }),
{
    let first = matched(a, Expr::Primary(p), Matching::empty(), policy);
    assert(first.bound =~= Map::<usize, Expr>::empty().insert(p, a));
    let second = matched(b, Expr::Primary(q), first, policy);
    assert(second.bound =~= first.bound.insert(q, b));
    reveal_with_fuel(matched, 2);
    reveal_with_fuel(substituted, 2);
}

/// A formula whose connective is not the pattern's binds nothing, so no
/// right side can be built: the mismatch is reported, and the first atom of
/// the right side is found unbound.
pub proof fn lemma_operator_mismatch(
    a: Expr,
    op: BinOperator,
    b: Expr,
    pattern_left: Expr,
    pattern_op: BinOperator,
    pattern_right: Expr,
    rhs: Expr,
    policy: Policy,
)
    requires
        op != pattern_op,
        rhs.is_formula(),
    ensures
        ({
            let expr = Expr::Binary(Box::new(a), op, Box::new(b));
            let lhs = Expr::Binary(Box::new(pattern_left), pattern_op, Box::new(pattern_right));
            let matching = matched(expr, lhs, Matching::empty(), policy);
            &&& matching.bound == Map::<usize, Expr>::empty()
            &&& matching.notices == seq![Mismatch::Operator(op, pattern_op)]
            &&& substituted(rhs, matching.bound) matches Err(RewriteError::PatternNotFound(_))
        }),
{
    lemma_nothing_bound(rhs);
}

/// From no binding at all no formula can be built.
pub proof fn lemma_nothing_bound(rhs: Expr)
    requires
        rhs.is_formula(),
    ensures
        substituted(rhs, Map::empty()) matches Err(RewriteError::PatternNotFound(_)),
    decreases rhs,
{
    match rhs {
        Expr::Binary(l, _, _) => lemma_nothing_bound(*l),
        Expr::Not(e) => lemma_nothing_bound(*e),
        Expr::Group(e) => lemma_nothing_bound(*e),
        _ => {},
    }
}

/// Matches `expr` against `lhs` and binds the atoms of `lhs` in
/// `patterns`; the mismatches go to `notices`.
pub fn traverse_and_match(
    expr: Expr,
    lhs: Expr,
    patterns: &mut HashMap<usize, Expr>,
    notices: &mut Vec<Mismatch>,
    policy: Policy,
)
    ensures
        matched(
            expr,
            lhs,
            Matching { bound: old(patterns)@, notices: old(notices)@ },
            policy,
        ) == (Matching { bound: final(patterns)@, notices: final(notices)@ }),
    decreases lhs,
{
    match lhs {
        Expr::Binary(pattern_left, pattern_op, pattern_right) => match expr {
            Expr::Binary(left, op, right) => {
                if pattern_op == op {
                    traverse_and_match(*left, *pattern_left, patterns, notices, policy);
                    traverse_and_match(*right, *pattern_right, patterns, notices, policy);
                } else {
                    notices.push(Mismatch::Operator(op, pattern_op));
                }
            },
            other => {
                notices.push(Mismatch::Shape(other));
            },
        },
        Expr::Not(pattern) => match expr {
            Expr::Not(e) => {
                traverse_and_match(*e, *pattern, patterns, notices, policy);
            },
            other => {
                notices.push(Mismatch::Shape(other));
            },
        },
        Expr::Group(pattern) => match expr {
            Expr::Group(e) => {
                traverse_and_match(*e, *pattern, patterns, notices, policy);
            },
            other => {
                notices.push(Mismatch::Shape(other));
            },
        },
        Expr::Primary(n) => {
            let conflict = match patterns.get(&n) {
                None => None,
                Some(first) => Some(policy == Policy::Strict && !first.same(&expr)),
            };
            match conflict {
                None => {
                    patterns.insert(n, expr);
                },
                Some(true) => {
                    notices.push(Mismatch::Conflict(n));
                },
                Some(false) => {},
            }
        },
        _ => {
            notices.push(Mismatch::NotAFormula);
        },
    }
}

/// Builds the right side `expr` of a rule from what the match bound.
pub fn substitute_in(expr: Expr, patterns: &HashMap<usize, Expr>) -> (result: Result<
    Expr,
    RewriteError,
>)
    ensures
        result == substituted(expr, patterns@),
    decreases expr,
{
    match expr {
        Expr::Binary(l, op, r) => {
            let left = match substitute_in(*l, patterns) {
                Ok(left) => left,
                Err(e) => {
                    return Err(e);
                },
            };
            match substitute_in(*r, patterns) {
                Ok(right) => Ok(Expr::Binary(Box::new(left), op, Box::new(right))),
                Err(e) => Err(e),
            }
        },
        Expr::Not(e) => match substitute_in(*e, patterns) {
            Ok(inner) => Ok(Expr::Not(Box::new(inner))),
            Err(e) => Err(e),
        },
        Expr::Group(e) => match substitute_in(*e, patterns) {
            Ok(inner) => Ok(Expr::Group(Box::new(inner))),
            Err(e) => Err(e),
        },
        Expr::Primary(n) => match patterns.get(&n) {
            Some(v) => Ok(v.clone()),
            None => Err(RewriteError::PatternNotFound(n)),
        },
        _ => Err(RewriteError::NotAFormula),
    }
}

} // verus!
