//! What a truth table holds: the values of a formula and of the formulas
//! inside it, in every row.

use crate::parser::{BinOperator, Expr};
use vstd::arithmetic::div_mod::{lemma_mod_multiples_vanish, lemma_small_mod};
use vstd::arithmetic::power2::{lemma_pow2_adds, lemma_pow2_pos, lemma_pow2_unfold, pow2};
use vstd::prelude::*;

verus! {

/// The value of `a op b`.  Conjunction and disjunction work bit by bit;
/// an implication is 0 only from 1 to 0; an equivalence is 1 where both
/// sides are the same.
pub open spec fn apply(op: BinOperator, a: usize, b: usize) -> usize {
    match op {
        BinOperator::And => a & b,
        BinOperator::Or => a | b,
        BinOperator::Arrow => if a == 1 && b == 0 {
            0
        } else {
            1
        },
        BinOperator::TwinArrow => if a == b {
            1
        } else {
            0
        },
    }
}

/// The value of `~a`.
pub open spec fn negate(a: usize) -> usize {
    if a == 0 {
        1
    } else {
        0
    }
}

/// The value in row `row` of the atom that has column `column` among the
/// atoms: the rows count in binary, and the atom of column 0 changes with
/// every row.
pub open spec fn atom_value(row: nat, column: nat) -> usize {
    if row % pow2(column + 1) + 1 > pow2(column + 1) / 2 {
        1
    } else {
        0
    }
}

/// The atoms of a formula.
pub open spec fn atoms_of(expr: Expr) -> Set<usize>
    decreases expr,
{
    match expr {
        Expr::Binary(l, _, r) => atoms_of(*l).union(atoms_of(*r)),
        Expr::Not(e) => atoms_of(*e),
        Expr::Group(e) => atoms_of(*e),
        Expr::Primary(n) => set![n],
        _ => Set::empty(),
    }
}

/// Whether `atoms` rises strictly.
pub open spec fn rising(atoms: Seq<usize>) -> bool {
    forall|i: int, j: int| 0 <= i < j < atoms.len() ==> atoms[i] < atoms[j]
}

/// Whether `atoms` lists the atoms of `expr` in rising order, each once.
pub open spec fn lists_atoms(atoms: Seq<usize>, expr: Expr) -> bool {
    &&& rising(atoms)
    &&& atoms.to_set() =~= atoms_of(expr)
}

/// The value of the formula `expr` in row `row`, where the atoms have
/// their columns as `atoms` lists them.
pub open spec fn value(expr: Expr, atoms: Seq<usize>, row: nat) -> usize
    decreases expr,
{
    match expr {
        Expr::Binary(l, op, r) => apply(op, value(*l, atoms, row), value(*r, atoms, row)),
        Expr::Not(e) => negate(value(*e, atoms, row)),
        Expr::Group(e) => value(*e, atoms, row),
        Expr::Primary(n) => atom_value(row, atoms.index_of(n) as nat),
        _ => 0,
    }
}

/// The values of `expr` in the rows from 0 to `rows`.
pub open spec fn column(expr: Expr, atoms: Seq<usize>, rows: nat) -> Seq<usize> {
    Seq::new(rows, |row: int| value(expr, atoms, row as nat))
}

/// The formulas inside a formula: itself, and those inside its operands.
pub open spec fn parts(expr: Expr) -> Set<Expr>
    decreases expr,
{
    match expr {
        Expr::Binary(l, _, r) => parts(*l).union(parts(*r)).insert(expr),
        Expr::Not(e) => parts(*e).insert(expr),
        Expr::Group(e) => parts(*e).insert(expr),
        _ => set![expr],
    }
}

/// The formulas that a table of `expr` has a column for: every formula
/// inside `expr` but the parenthesised ones.  What stands in parentheses
/// has its column; the parentheses add none.
pub open spec fn shown(expr: Expr) -> Set<Expr> {
    parts(expr).filter(|part: Expr| !(part is Group))
}

/// The number of nodes of a tree.
pub open spec fn size(expr: Expr) -> nat
    decreases expr,
{
    match expr {
        Expr::Binary(l, _, r) => 1 + size(*l) + size(*r),
        Expr::Not(e) => 1 + size(*e),
        Expr::Group(e) => 1 + size(*e),
        _ => 1,
    }
}

/// Nothing inside a formula is larger than the formula.
pub proof fn lemma_parts_size(expr: Expr, part: Expr)
    requires
        parts(expr).contains(part),
    ensures
        size(part) <= size(expr),
        part != expr ==> size(part) < size(expr),
    decreases expr,
{
    match expr {
        Expr::Binary(l, _, r) => {
            if parts(*l).contains(part) {
                lemma_parts_size(*l, part);
            } else if parts(*r).contains(part) {
                lemma_parts_size(*r, part);
            }
        },
        Expr::Not(e) => {
            if parts(*e).contains(part) {
                lemma_parts_size(*e, part);
            }
        },
        Expr::Group(e) => {
            if parts(*e).contains(part) {
                lemma_parts_size(*e, part);
            }
        },
        _ => {},
    }
}

/// A formula is one of the formulas inside it.
pub proof fn lemma_part_of_itself(expr: Expr)
    ensures
        parts(expr).contains(expr),
{
}

/// What is inside a formula inside a formula is inside the formula.
pub proof fn lemma_parts_nest(expr: Expr, part: Expr, inner: Expr)
    requires
        parts(expr).contains(part),
        parts(part).contains(inner),
    ensures
        parts(expr).contains(inner),
    decreases expr,
{
    if part != expr {
        match expr {
            Expr::Binary(l, _, r) => {
                if parts(*l).contains(part) {
                    lemma_parts_nest(*l, part, inner);
                } else {
                    lemma_parts_nest(*r, part, inner);
                }
            },
            Expr::Not(e) => lemma_parts_nest(*e, part, inner),
            Expr::Group(e) => lemma_parts_nest(*e, part, inner),
            _ => {},
        }
    }
}

/// Every atom of a formula is one of the formulas inside it.
pub proof fn lemma_atoms_are_parts(expr: Expr, n: usize)
    requires
        atoms_of(expr).contains(n),
    ensures
        parts(expr).contains(Expr::Primary(n)),
    decreases expr,
{
    match expr {
        Expr::Binary(l, _, r) => {
            if atoms_of(*l).contains(n) {
                lemma_atoms_are_parts(*l, n);
            } else {
                lemma_atoms_are_parts(*r, n);
            }
        },
        Expr::Not(e) => lemma_atoms_are_parts(*e, n),
        Expr::Group(e) => lemma_atoms_are_parts(*e, n),
        _ => {},
    }
}

/// The connectives on the values 0 and 1: a conjunction is 1 only of 1
/// and 1, a disjunction is 0 only of 0 and 0, an implication is 0 only
/// from 1 to 0, an equivalence is 1 exactly where both sides agree, and a
/// negation swaps 0 and 1.
pub proof fn lemma_connectives()
    ensures
        apply(BinOperator::And, 1, 1) == 1,
        apply(BinOperator::And, 1, 0) == 0,
        apply(BinOperator::And, 0, 1) == 0,
        apply(BinOperator::And, 0, 0) == 0,
        apply(BinOperator::Or, 1, 1) == 1,
        apply(BinOperator::Or, 1, 0) == 1,
        apply(BinOperator::Or, 0, 1) == 1,
        apply(BinOperator::Or, 0, 0) == 0,
        apply(BinOperator::Arrow, 1, 0) == 0,
        forall|a: usize, b: usize| !(a == 1 && b == 0) ==> apply(BinOperator::Arrow, a, b) == 1,
        forall|a: usize, b: usize| apply(BinOperator::TwinArrow, a, b) == 1 <==> a == b,
        forall|a: usize, b: usize| apply(BinOperator::TwinArrow, a, b) == 0 <==> a != b,
        negate(1) == 0,
        negate(0) == 1,
{
    assert(1usize & 1usize == 1usize) by (bit_vector);
    assert(1usize & 0usize == 0usize) by (bit_vector);
    assert(0usize & 1usize == 0usize) by (bit_vector);
    assert(0usize & 0usize == 0usize) by (bit_vector);
    assert(1usize | 1usize == 1usize) by (bit_vector);
    assert(1usize | 0usize == 1usize) by (bit_vector);
    assert(0usize | 1usize == 1usize) by (bit_vector);
    assert(0usize | 0usize == 0usize) by (bit_vector);
}

/// Whether `v` is 0 or 1.
pub open spec fn is_bit(v: usize) -> bool {
    v == 0 || v == 1
}

/// A formula has the value 0 or 1 in every row.
pub proof fn lemma_value_is_bit(expr: Expr, atoms: Seq<usize>, row: nat)
    ensures
        is_bit(value(expr, atoms, row)),
    decreases expr,
{
    match expr {
        Expr::Binary(l, op, r) => {
            lemma_value_is_bit(*l, atoms, row);
            lemma_value_is_bit(*r, atoms, row);
            lemma_connectives();
        },
        Expr::Not(e) => lemma_value_is_bit(*e, atoms, row),
        Expr::Group(e) => lemma_value_is_bit(*e, atoms, row),
        _ => {},
    }
}

/// Whether the formula `expr` holds where `assignment` says of each atom
/// whether it does.
pub open spec fn holds(expr: Expr, assignment: spec_fn(usize) -> bool) -> bool
    decreases expr,
{
    match expr {
        Expr::Binary(l, op, r) => match op {
            BinOperator::And => holds(*l, assignment) && holds(*r, assignment),
            BinOperator::Or => holds(*l, assignment) || holds(*r, assignment),
            BinOperator::Arrow => holds(*l, assignment) ==> holds(*r, assignment),
            BinOperator::TwinArrow => holds(*l, assignment) == holds(*r, assignment),
        },
        Expr::Not(e) => !holds(*e, assignment),
        Expr::Group(e) => holds(*e, assignment),
        Expr::Primary(n) => assignment(n),
        _ => false,
    }
}

/// The assignment of row `row`: an atom holds where its value is 1.
pub open spec fn row_assignment(atoms: Seq<usize>, row: nat) -> spec_fn(usize) -> bool {
    |n: usize| atom_value(row, atoms.index_of(n) as nat) == 1
}

/// The values of a table are truth values: a formula has the value 1 in
/// the rows whose assignment makes it hold, and 0 in the others.
pub proof fn lemma_value_means(expr: Expr, atoms: Seq<usize>, row: nat)
    requires
        expr.is_formula(),
    ensures
        value(expr, atoms, row) == (if holds(expr, row_assignment(atoms, row)) {
            1usize
        } else {
            0usize
        }),
    decreases expr,
{
    match expr {
        Expr::Binary(l, op, r) => {
            lemma_value_means(*l, atoms, row);
            lemma_value_means(*r, atoms, row);
            lemma_connectives();
        },
        Expr::Not(e) => lemma_value_means(*e, atoms, row),
        Expr::Group(e) => lemma_value_means(*e, atoms, row),
        _ => {},
    }
}

/// A row and the row that lies a multiple of 2 to the `k` further on have
/// the same values in the columns of the first `k` atoms.
pub proof fn lemma_period(row: nat, k: nat, column: nat, times: nat)
    requires
        column < k,
    ensures
        atom_value(row + times * pow2(k), column) == atom_value(row, column),
{
    let rest = (k - column - 1) as nat;
    lemma_pow2_adds(column + 1, rest);
    lemma_pow2_pos(column + 1);
    let m = pow2(column + 1) as int;
    let a = times * pow2(rest);
    assert(times * pow2(k) == m * a) by (nonlinear_arith)
        requires
            pow2(k) == m * pow2(rest),
            a == times * pow2(rest),
    ;
    lemma_mod_multiples_vanish(a as int, row as int, m);
}

/// In a table of `k` atoms, the last atom has the value 1 in the upper
/// half of the rows and 0 in the lower half.
pub proof fn lemma_last_atom(row: nat, k: nat)
    requires
        k > 0,
        row < pow2(k),
    ensures
        atom_value(row, (k - 1) as nat) == (if row >= pow2((k - 1) as nat) {
            1usize
        } else {
            0usize
        }),
{
    lemma_pow2_unfold(k);
    lemma_small_mod(row, pow2(k));
}

/// Every assignment has its row: for values 0 or 1 given to `k` atoms,
/// the row returned is one of the 2 to the `k` rows, and in it each atom
/// has the value given to it.
pub proof fn lemma_rows_cover(k: nat, assignment: Seq<usize>) -> (row: nat)
    requires
        assignment.len() == k,
        forall|j: int| 0 <= j < k ==> is_bit(#[trigger] assignment[j]),
    ensures
        row < pow2(k),
        forall|j: nat| j < k ==> atom_value(row, j) == #[trigger] assignment[j as int],
    decreases k,
{
    if k == 0 {
        lemma_pow2_pos(0);
        0
    } else {
        let shorter = assignment.drop_last();
        let low = lemma_rows_cover((k - 1) as nat, shorter);
        let half = pow2((k - 1) as nat);
        let top = assignment[k - 1] as nat;
        let row = low + top * half;
        lemma_pow2_unfold(k);
        assert(row < pow2(k) && (row >= half <==> top == 1)) by (nonlinear_arith)
            requires
                low < half,
                top == 0 || top == 1,
                row == low + top * half,
                pow2(k) == 2 * half,
        ;
        assert forall|j: nat| j < k implies atom_value(row, j) == #[trigger] assignment[j as int]
        by {
            if j < k - 1 {
                lemma_period(low, (k - 1) as nat, j, top);
                assert(shorter[j as int] == assignment[j as int]);
            } else {
                lemma_last_atom(row, k);
            }
        }
        row
    }
}

/// No assignment has two rows: two of the 2 to the `k` rows in which each
/// of the `k` atoms has the same value are the same row.
pub proof fn lemma_rows_differ(k: nat, a: nat, b: nat)
    requires
        a < pow2(k),
        b < pow2(k),
        forall|j: nat| j < k ==> atom_value(a, j) == atom_value(b, j),
    ensures
        a == b,
    decreases k,
{
    if k == 0 {
        lemma_pow2_unfold(1);
        vstd::arithmetic::power2::lemma2_to64();
    } else {
        let half = pow2((k - 1) as nat);
        lemma_pow2_unfold(k);
        lemma_last_atom(a, k);
        lemma_last_atom(b, k);
        assert(atom_value(a, (k - 1) as nat) == atom_value(b, (k - 1) as nat));
        let top: nat = if a >= half {
            1
        } else {
            0
        };
        let a_low = (a - top * half) as nat;
        let b_low = (b - top * half) as nat;
        assert(a_low < half && b_low < half && a == a_low + top * half && b == b_low + top * half)
            by (nonlinear_arith)
            requires
                a < 2 * half,
                b < 2 * half,
                top == (if a >= half {
                    1nat
                } else {
                    0nat
                }),
                top == (if b >= half {
                    1nat
                } else {
                    0nat
                }),
                a_low == a - top * half,
                b_low == b - top * half,
        ;
        assert forall|j: nat| j < k - 1 implies atom_value(a_low, j) == atom_value(b_low, j) by {
            lemma_period(a_low, (k - 1) as nat, j, top);
            lemma_period(b_low, (k - 1) as nat, j, top);
            assert(atom_value(a, j) == atom_value(b, j));
        }
        lemma_rows_differ((k - 1) as nat, a_low, b_low);
    }
}

/// A rising sequence has as many items as there are different ones.
pub proof fn lemma_rising_len(atoms: Seq<usize>)
    requires
        rising(atoms),
    ensures
        atoms.no_duplicates(),
        atoms.len() == atoms.to_set().len(),
{
    assert(atoms.no_duplicates()) by {
        assert forall|i: int, j: int|
            0 <= i < atoms.len() && 0 <= j < atoms.len() && i != j implies atoms[i]
            != atoms[j] by {
            if i < j {
                assert(atoms[i] < atoms[j]);
            } else {
                assert(atoms[j] < atoms[i]);
            }
        }
    }
    atoms.unique_seq_to_set();
}

/// Two rising sequences of the same items agree at every place.
pub proof fn lemma_rising_same(a: Seq<usize>, b: Seq<usize>, i: int)
    requires
        rising(a),
        rising(b),
        a.to_set() =~= b.to_set(),
        0 <= i < a.len(),
    ensures
        a.len() == b.len(),
        a[i] == b[i],
    decreases i,
{
    lemma_rising_len(a);
    lemma_rising_len(b);
    assert forall|j: int| 0 <= j < i implies a[j] == b[j] by {
        lemma_rising_same(a, b, j);
    }
    if a[i] < b[i] {
        assert(a.to_set().contains(a[i]));
        assert(b.contains(a[i]));
        let j = choose|j: int| 0 <= j < b.len() && b[j] == a[i];
        if j < i {
            assert(a[j] < a[i]);
        } else if j > i {
            assert(b[i] < b[j]);
        }
    } else if b[i] < a[i] {
        assert(b.to_set().contains(b[i]));
        assert(a.contains(b[i]));
        let j = choose|j: int| 0 <= j < a.len() && a[j] == b[i];
        if j < i {
            assert(b[j] < b[i]);
        } else if j > i {
            assert(a[i] < a[j]);
        }
    }
}

/// The atoms of a formula can be listed in one way only.
pub proof fn lemma_atoms_listed_once(a: Seq<usize>, b: Seq<usize>, expr: Expr)
    requires
        lists_atoms(a, expr),
        lists_atoms(b, expr),
    ensures
        a == b,
{
    lemma_rising_len(a);
    lemma_rising_len(b);
    assert forall|i: int| 0 <= i < a.len() implies a[i] == b[i] by {
        lemma_rising_same(a, b, i);
    }
    assert(a =~= b);
}

} // verus!
