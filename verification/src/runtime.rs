//! Truth tables, and rewriting by equivalence rules.

use crate::columns::{
    atom_column, distinct, drop_groups, filled, find, insert_atom, keys, lemma_keys_push,
    lemma_rising_index, negated, place, ranking, ready, whole,
};
use crate::order::before;
use crate::parser::{names_of, BinOperator, Expr, Rule};
use crate::rewrite::{
    lemma_matched_below, lemma_substituted_below, matched, substitute_in, substituted,
    traverse_and_match, Matching, Mismatch, Policy, RewriteError,
};
use crate::store::RuleStore;
use crate::truth::{
    apply, atom_value, atoms_of, column, is_bit, lemma_atoms_are_parts, lemma_atoms_listed_once,
    lemma_part_of_itself, lemma_parts_nest, lemma_parts_size, lemma_rising_len, lemma_rows_cover,
    lemma_rows_differ, lists_atoms, parts, rising, shown,
};
use crate::utils::{expr_text, expr_to_string};
use std::collections::HashMap;
use vstd::arithmetic::power2::{lemma2_to64, lemma_pow2_strictly_increases, lemma_pow2_unfold, pow2};
use vstd::prelude::*;

verus! {

/// A truth table: one column of values for each formula it shows.
#[derive(Debug)]
pub struct Table {
    map: Vec<(Expr, Vec<usize>)>,
    atoms: Vec<usize>,
    interned: Vec<String>,
    rows: usize,
}

/// What a [`Table`] holds.
pub struct TableView {
    /// The column of each formula that has one.
    pub columns: Map<Expr, Seq<usize>>,
    /// The atoms in the order of their columns: the atom at position 0
    /// changes with every row.
    pub atoms: Seq<usize>,
    /// The number of rows.
    pub rows: nat,
    /// The names of the atoms.
    pub names: Seq<Seq<char>>,
}

impl View for Table {
    type V = TableView;

    closed spec fn view(&self) -> TableView {
        TableView {
            columns: Map::new(
                |key: Expr| keys(self.map@).contains(key),
                |key: Expr| self.map@[place(self.map@, key)].1@,
            ),
            atoms: self.atoms@,
            rows: self.rows as nat,
            names: names_of(self.interned@),
        }
    }
}

/// Whether `table` is the truth table of the formula `expr`: its atoms
/// are those of `expr`, in rising order; it has a row for each number below
/// 2 to the number of atoms; and it has the column of every formula inside
/// `expr` that is not a parenthesised one, and no other.
pub open spec fn is_table_of(table: TableView, expr: Expr) -> bool {
    &&& lists_atoms(table.atoms, expr)
    &&& table.rows == pow2(table.atoms.len())
    &&& table.columns.dom() =~= shown(expr)
    &&& forall|part: Expr| #[trigger]
        shown(expr).contains(part) ==> table.columns[part] == column(
            part,
            table.atoms,
            table.rows,
        )
}

/// Whether a table can be made of `expr`: it is a formula, and a `usize`
/// can count the rows of its table.
pub open spec fn tabulable(expr: Expr) -> bool {
    expr.is_formula() && pow2(atoms_of(expr).len()) <= usize::MAX
}

impl Table {
    /// No formula has two columns.
    #[verifier::type_invariant]
    spec fn no_column_twice(&self) -> bool {
        distinct(self.map@)
    }

    /// An empty table for formulas whose atoms have the names `interned`.
    pub fn new(interned: &Vec<String>) -> (table: Table)
        ensures
            table@.columns == Map::<Expr, Seq<usize>>::empty(),
            table@.atoms == Seq::<usize>::empty(),
            table@.rows == 0,
            table@.names == names_of(interned@),
    {
        let table = Table {
            map: Vec::new(),
            atoms: Vec::new(),
            interned: interned.clone(),
            rows: 0,
        };
        assert(table@.columns =~= Map::<Expr, Seq<usize>>::empty());
        assert(table@.names =~= names_of(interned@));
        table
    }

    /// Makes this table the truth table of the formula `expr`, whatever it
    /// held before.
    ///
    /// The atoms of `expr` get their columns in rising order of their
    /// indices, and the rows count through the assignments in binary, the
    /// first atom changing fastest.  Every formula inside `expr` gets a
    /// column but the parenthesised ones: `(p & q) | r` has the columns of
    /// `p`, `q`, `r`, `p & q` and of the whole.
    ///
    /// The table has 2 to the number of atoms rows, so it must not have
    /// more atoms than a `usize` has bits, and memory sets a limit long
    /// before that.
    pub fn generate_truthtable(&mut self, expr: Expr)
        requires
            tabulable(expr),
        ensures
            is_table_of(final(self)@, expr),
            final(self)@.names == old(self)@.names,
    {
        let mut atoms: Vec<usize> = Vec::new();
        Table::fill_symbols(&mut atoms, &expr);
        proof {
            lemma_rising_len(atoms@);
            assert(atoms@.to_set() =~= atoms_of(expr));
        }
        let count = atoms.len();
        let rows = match power_of_two(count) {
            Some(rows) => rows,
            None => vstd::pervasive::unreached(),
        };
        let mut map: Vec<(Expr, Vec<usize>)> = Vec::new();
        let mut j: usize = 0;
        let mut half: usize = 1;
        proof {
            lemma2_to64();
        }
        while j < count
            invariant
                j <= count,
                count == atoms@.len(),
                half == pow2(j as nat),
                rows == pow2(count as nat),
                rising(atoms@),
                map@.len() == j,
                forall|i: int| 0 <= i < j ==> (#[trigger] map@[i]).0 == Expr::Primary(atoms@[i]),
                filled(map@, atoms@, rows as nat),
            decreases count - j,
        {
            proof {
                lemma_pow2_unfold((j + 1) as nat);
                if j + 1 < count {
                    lemma_pow2_strictly_increases((j + 1) as nat, count as nat);
                }
                lemma_rising_index(atoms@, j as int);
            }
            let entry = atom_column(rows, j, half);
            let atom = atoms[j];
            assert(entry@ =~= column(Expr::Primary(atom), atoms@, rows as nat));
            map.push((Expr::Primary(atom), entry));
            half = 2 * half;
            j += 1;
        }
        proof {
            assert(distinct(map@)) by {
                assert forall|a: int, b: int| 0 <= a < b < map@.len() implies (
                #[trigger] map@[a]).0 != (#[trigger] map@[b]).0 by {
                    assert(atoms@[a] < atoms@[b]);
                }
            }
            assert(whole(map@)) by {
                assert forall|i: int, part: Expr|
                    0 <= i < map@.len() && #[trigger] parts(map@[i].0).contains(
                        part,
                    ) implies keys(map@).contains(part) by {
                    assert(map@[i].0 == part);
                }
            }
            assert forall|n: usize| #[trigger] atoms_of(expr).contains(n) implies keys(
                map@,
            ).contains(Expr::Primary(n)) by {
                assert(atoms@.to_set().contains(n));
                let k = choose|k: int| 0 <= k < atoms@.len() && atoms@[k] == n;
                assert(map@[k].0 == Expr::Primary(n));
            }
        }
        let ghost atom_keys = keys(map@);
        Table::eval(&mut map, &expr, Ghost(atoms@), Ghost(rows as nat));
        proof {
            assert(keys(map@) =~= parts(expr)) by {
                assert forall|key: Expr| atom_keys.contains(key) implies parts(expr).contains(
                    key,
                ) by {
                    let i = choose|i: int| 0 <= i < count && Expr::Primary(atoms@[i]) == key;
                    assert(atoms@.to_set().contains(atoms@[i]));
                    lemma_atoms_are_parts(expr, atoms@[i]);
                }
            }
        }
        let map = drop_groups(map, Ghost(atoms@), Ghost(rows as nat));
        self.map = map;
        self.atoms = atoms;
        self.rows = rows;
        proof {
            let map = self.map@;
            let table = self@;
            assert(table.columns.dom() =~= shown(expr));
            assert forall|part: Expr| #[trigger]
                shown(expr).contains(part) implies table.columns[part] == column(
                part,
                table.atoms,
                table.rows,
            ) by {
                let i = place(map, part);
                assert(map[i].0 == part);
            }
        }
    }

    /// The number of rows.
    pub fn rows(&self) -> (rows: usize)
        ensures
            rows == self@.rows,
    {
        self.rows
    }

    /// The atoms in the order of their columns.
    pub fn atoms(&self) -> (atoms: &Vec<usize>)
        ensures
            atoms@ == self@.atoms,
    {
        &self.atoms
    }

    /// The names of the atoms.
    pub fn interned(&self) -> (interned: &Vec<String>)
        ensures
            names_of(interned@) == self@.names,
    {
        &self.interned
    }

    /// The column of `expr`, if the table has one for it.
    pub fn column(&self, expr: &Expr) -> (values: Option<&Vec<usize>>)
        ensures
            match values {
                Some(v) => self@.columns.contains_key(*expr) && v@ == self@.columns[*expr],
                None => !self@.columns.contains_key(*expr),
            },
    {
        proof {
            use_type_invariant(self);
        }
        match find(&self.map, expr) {
            Some(i) => {
                proof {
                    let k = place(self.map@, *expr);
                    assert(self.map@[k].0 == self.map@[i as int].0);
                }
                Some(&self.map[i].1)
            },
            None => None,
        }
    }

    /// The columns in the order in which a table is laid out: the formula
    /// that stands last in the order of trees comes first, so the atoms
    /// lead, the one with the highest index first.  Every column of the
    /// table is in the list, once.
    pub fn sort(&self) -> (list: Vec<(&Expr, &Vec<usize>)>)
        ensures
            forall|i: int|
                0 <= i < list@.len() ==> self@.columns.contains_key(*(#[trigger] list@[i]).0)
                    && list@[i].1@ == self@.columns[*list@[i].0],
            forall|i: int, j: int|
                0 <= i < j < list@.len() ==> before(
                    *(#[trigger] list@[j]).0,
                    *(#[trigger] list@[i]).0,
                ),
            forall|key: Expr|
                self@.columns.contains_key(key) ==> exists|i: int|
                    0 <= i < list@.len() && *(#[trigger] list@[i]).0 == key,
    {
        proof {
            use_type_invariant(self);
        }
        let order = ranking(&self.map);
        let mut list: Vec<(&Expr, &Vec<usize>)> = Vec::new();
        let mut i: usize = 0;
        while i < order.len()
            invariant
                i <= order.len(),
                list@.len() == i,
                forall|a: int| 0 <= a < order@.len() ==> (#[trigger] order@[a]) < self.map@.len(),
                forall|a: int|
                    0 <= a < i ==> *(#[trigger] list@[a]).0 == self.map@[order@[a] as int].0
                        && *list@[a].1 == self.map@[order@[a] as int].1,
            decreases order.len() - i,
        {
            let entry = &self.map[order[i]];
            list.push((&entry.0, &entry.1));
            i += 1;
        }
        proof {
            let map = self.map@;
            assert forall|a: int| 0 <= a < list@.len() implies self@.columns.contains_key(
                *(#[trigger] list@[a]).0,
            ) && list@[a].1@ == self@.columns[*list@[a].0] by {
                let x = order@[a] as int;
                assert(map[x].0 == *list@[a].0);
                let y = place(map, *list@[a].0);
                assert(map[y].0 == map[x].0);
            }
            assert forall|key: Expr| self@.columns.contains_key(key) implies exists|a: int|
                0 <= a < list@.len() && *(#[trigger] list@[a]).0 == key by {
                let x = choose|x: int| 0 <= x < map.len() && #[trigger] map[x].0 == key;
                assert(map.len() == self.map.len());
                assert(order@.contains(x as usize));
                let a = choose|a: int| 0 <= a < order@.len() && order@[a] == x as usize;
                assert(*list@[a].0 == key);
            }
        }
        list
    }

    /// Gathers the atoms of `expr` into the rising sequence `atoms`.
    fn fill_symbols(atoms: &mut Vec<usize>, expr: &Expr)
        requires
            rising(old(atoms)@),
        ensures
            rising(final(atoms)@),
            final(atoms)@.to_set() =~= old(atoms)@.to_set().union(atoms_of(*expr)),
        decreases *expr,
    {
        match expr {
            Expr::Binary(left, _, right) => {
                Table::fill_symbols(atoms, left);
                Table::fill_symbols(atoms, right);
            },
            Expr::Not(e) => {
                Table::fill_symbols(atoms, e);
            },
            Expr::Group(e) => {
                Table::fill_symbols(atoms, e);
            },
            Expr::Primary(n) => {
                insert_atom(atoms, *n);
            },
            _ => {},
        }
    }

    /// Joins two columns row by row with `op`.
    fn zipped_operation(left: Vec<usize>, right: Vec<usize>, op: BinOperator) -> (joined: Vec<
        usize,
    >)
        requires
            left.len() == right.len(),
        ensures
            joined.len() == left.len(),
            forall|i: int| 0 <= i < joined.len() ==> joined[i] == apply(op, left[i], right[i]),
    {
        let mut joined: Vec<usize> = Vec::new();
        let mut i: usize = 0;
        while i < left.len()
            invariant
                i <= left.len(),
                left.len() == right.len(),
                joined.len() == i,
                forall|j: int| 0 <= j < i ==> joined[j] == apply(op, left[j], right[j]),
            decreases left.len() - i,
        {
            let a = left[i];
            let b = right[i];
            let v = match op {
                BinOperator::And => a & b,
                BinOperator::Or => a | b,
                BinOperator::Arrow => if a == 1 && b == 0 {
                    0
                } else {
                    1
                },
                BinOperator::TwinArrow => if a == b {
                    1
                } else {
                    0
                },
            };
            joined.push(v);
            i += 1;
        }
        joined
    }

    /// The column of `expr`.  Every formula inside `expr` gets its entry
    /// in `map`, and one that has an entry is not worked out again.
    fn eval(
        map: &mut Vec<(Expr, Vec<usize>)>,
        expr: &Expr,
        Ghost(atoms): Ghost<Seq<usize>>,
        Ghost(rows): Ghost<nat>,
    ) -> (values: Vec<usize>)
        requires
            expr.is_formula(),
            ready(old(map)@, atoms, rows, *expr),
        ensures
            values@ == column(*expr, atoms, rows),
            distinct(final(map)@),
            filled(final(map)@, atoms, rows),
            whole(final(map)@),
            keys(final(map)@) =~= keys(old(map)@).union(parts(*expr)),
        decreases *expr,
    {
        if let Some(i) = find(map, expr) {
            let values = map[i].1.clone();
            proof {
                assert(values@ =~= map@[i as int].1@);
                assert(keys(map@) =~= keys(map@).union(parts(*expr)));
            }
            return values;
        }
        let ghost before = map@;
        let values = match expr {
            Expr::Binary(l, op, r) => {
                assert forall|n: usize| #[trigger]
                    atoms_of(**l).contains(n) implies keys(map@).contains(Expr::Primary(n)) by {
                    assert(atoms_of(*expr).contains(n));
                }
                let left = Table::eval(map, l, Ghost(atoms), Ghost(rows));
                assert forall|n: usize| #[trigger]
                    atoms_of(**r).contains(n) implies keys(map@).contains(Expr::Primary(n)) by {
                    assert(atoms_of(*expr).contains(n));
                    assert(keys(before).contains(Expr::Primary(n)));
                }
                let right = Table::eval(map, r, Ghost(atoms), Ghost(rows));
                let values = Table::zipped_operation(left, right, *op);
                proof {
                    assert(values@ =~= column(*expr, atoms, rows));
                    assert(keys(map@).insert(*expr) =~= keys(before).union(parts(*expr)));
                    if parts(**l).contains(*expr) {
                        lemma_parts_size(**l, *expr);
                    }
                    if parts(**r).contains(*expr) {
                        lemma_parts_size(**r, *expr);
                    }
                }
                values
            },
            Expr::Not(inner) => {
                assert forall|n: usize| #[trigger]
                    atoms_of(**inner).contains(n) implies keys(map@).contains(
                    Expr::Primary(n),
                ) by {
                    assert(atoms_of(*expr).contains(n));
                }
                let values = negated(Table::eval(map, inner, Ghost(atoms), Ghost(rows)));
                proof {
                    assert(values@ =~= column(*expr, atoms, rows));
                    assert(keys(map@).insert(*expr) =~= keys(before).union(parts(*expr)));
                    if parts(**inner).contains(*expr) {
                        lemma_parts_size(**inner, *expr);
                    }
                }
                values
            },
            Expr::Group(inner) => {
                assert forall|n: usize| #[trigger]
                    atoms_of(**inner).contains(n) implies keys(map@).contains(
                    Expr::Primary(n),
                ) by {
                    assert(atoms_of(*expr).contains(n));
                }
                let values = Table::eval(map, inner, Ghost(atoms), Ghost(rows));
                proof {
                    assert(values@ =~= column(*expr, atoms, rows));
                    assert(keys(map@).insert(*expr) =~= keys(before).union(parts(*expr)));
                    if parts(**inner).contains(*expr) {
                        lemma_parts_size(**inner, *expr);
                    }
                }
                values
            },
            _ => {
                proof {
                    // an atom has its column from the start, and nothing
                    // else is a formula
                    assert(atoms_of(*expr).contains(expr->Primary_0));
                    assert(keys(before).contains(Expr::Primary(expr->Primary_0)));
                }
                vstd::pervasive::unreached()
            },
        };
        let kept = values.clone();
        assert(kept@ =~= values@);
        let ghost shorter = map@;
        proof {
            assert(!keys(shorter).contains(*expr));
            lemma_keys_push(shorter, (*expr, kept));
        }
        map.push((expr.clone(), kept));
        proof {
            assert forall|i: int, j: int| 0 <= i < j < map@.len() implies (#[trigger] map@[i]).0
                != (#[trigger] map@[j]).0 by {
                if j == shorter.len() {
                    assert(shorter[i].0 != *expr);
                } else {
                    assert(shorter[i].0 != shorter[j].0);
                }
            }
        }
        values
    }
}

/// Whether a table can be made of `expr`.
pub fn check_tabulable(expr: &Expr) -> (r: bool)
    ensures
        r == tabulable(*expr),
{
    if !expr.check_formula() {
        return false;
    }
    let mut atoms: Vec<usize> = Vec::new();
    Table::fill_symbols(&mut atoms, expr);
    proof {
        lemma_rising_len(atoms@);
        assert(atoms@.to_set() =~= atoms_of(*expr));
    }
    power_of_two(atoms.len()).is_some()
}

/// 2 to the `k`, if a `usize` can hold it.
pub fn power_of_two(k: usize) -> (power: Option<usize>)
    ensures
        match power {
            Some(p) => p == pow2(k as nat),
            None => pow2(k as nat) > usize::MAX,
        },
{
    let mut p: usize = 1;
    let mut i: usize = 0;
    proof {
        lemma_pow2_unfold(1);
        lemma2_to64();
    }
    while i < k
        invariant
            i <= k,
            p == pow2(i as nat),
        decreases k - i,
    {
        proof {
            lemma_pow2_unfold((i + 1) as nat);
        }
        if p > usize::MAX / 2 {
            proof {
                if i + 1 < k {
                    lemma_pow2_strictly_increases((i + 1) as nat, k as nat);
                }
            }
            return None;
        }
        p = p * 2;
        i += 1;
    }
    Some(p)
}

/// A formula has one truth table: two tables of the same formula have the
/// same atoms in the same order, the same number of rows, and the same
/// columns.
pub proof fn lemma_table_unique(a: TableView, b: TableView, expr: Expr)
    requires
        is_table_of(a, expr),
        is_table_of(b, expr),
    ensures
        a.atoms == b.atoms,
        a.rows == b.rows,
        a.columns == b.columns,
{
    lemma_atoms_listed_once(a.atoms, b.atoms, expr);
    assert forall|part: Expr| a.columns.contains_key(part) implies a.columns[part]
        == b.columns[part] by {
        assert(shown(expr).contains(part));
    }
    assert(a.columns =~= b.columns);
}

/// In the table of a formula the column of the atom listed at place `j`
/// holds, in each row, the value that the atom of column `j` has in that
/// row.
pub proof fn lemma_atom_column(table: TableView, expr: Expr, j: int, row: int)
    requires
        is_table_of(table, expr),
        0 <= j < table.atoms.len(),
        0 <= row < table.rows,
    ensures
        table.columns.contains_key(Expr::Primary(table.atoms[j])),
        table.columns[Expr::Primary(table.atoms[j])][row] == atom_value(row as nat, j as nat),
{
    let atom = table.atoms[j];
    assert(table.atoms.to_set().contains(atom));
    lemma_atoms_are_parts(expr, atom);
    assert(shown(expr).contains(Expr::Primary(atom)));
    lemma_rising_index(table.atoms, j);
}

/// Whether in row `row` of `table` each atom has the value that
/// `assignment` gives it, the atoms taken in the order of their columns.
pub open spec fn row_assigns(table: TableView, row: nat, assignment: Seq<usize>) -> bool {
    forall|j: int|
        0 <= j < table.atoms.len() ==> table.columns[Expr::Primary(
            #[trigger] table.atoms[j],
        )][row as int] == assignment[j]
}

/// The table of a formula with `k` different atoms has 2 to the `k` rows,
/// and the columns of the atoms run through every assignment once: for
/// values 0 or 1 given to the atoms, the row returned is the one row in
/// which each atom has the value given to it.
pub proof fn lemma_table_enumerates(table: TableView, expr: Expr, assignment: Seq<usize>) -> (row:
    nat)
    requires
        is_table_of(table, expr),
        assignment.len() == table.atoms.len(),
        forall|j: int| 0 <= j < assignment.len() ==> is_bit(#[trigger] assignment[j]),
    ensures
        table.rows == pow2(atoms_of(expr).len()),
        row < table.rows,
        row_assigns(table, row, assignment),
        forall|other: nat|
            other < table.rows && #[trigger] row_assigns(table, other, assignment) ==> other == row,
{
    let k = table.atoms.len();
    lemma_rising_len(table.atoms);
    let row = lemma_rows_cover(k, assignment);
    assert forall|j: int| 0 <= j < k implies table.columns[Expr::Primary(
        #[trigger] table.atoms[j],
    )][row as int] == assignment[j] by {
        lemma_atom_column(table, expr, j, row as int);
    }
    assert forall|other: nat|
        other < table.rows && #[trigger] row_assigns(table, other, assignment) implies other
        == row by {
        assert forall|j: nat| j < k implies atom_value(other, j) == atom_value(row, j) by {
            lemma_atom_column(table, expr, j as int, other as int);
            lemma_atom_column(table, expr, j as int, row as int);
            assert(table.columns[Expr::Primary(table.atoms[j as int])][other as int]
                == assignment[j as int]);
        }
        lemma_rows_differ(k, other, row);
    }
    row
}

/// No table of a formula has a column for a parenthesised formula; it
/// has one for what stands inside the parentheses.
pub proof fn lemma_groups_not_shown(table: TableView, expr: Expr, part: Expr)
    requires
        is_table_of(table, expr),
        parts(expr).contains(part),
    ensures
        table.columns.contains_key(part) <==> !(part is Group),
        part matches Expr::Group(inner) ==> parts(expr).contains(*inner),
{
    assert(shown(expr).contains(part) <==> !(part is Group));
    if let Expr::Group(inner) = part {
        lemma_part_of_itself(*inner);
        lemma_parts_nest(expr, part, *inner);
    }
}

/// What came of a rewrite: the text of the new formula or the reason why
/// there is none, and the places where the formula did not fit the rule.
#[derive(Debug)]
pub struct Rewrite {
    pub notices: Vec<Mismatch>,
    pub result: Result<String, RewriteError>,
}

/// What a [`Rewrite`] holds.
pub struct Rewritten {
    pub notices: Seq<Mismatch>,
    pub result: Result<Seq<char>, RewriteError>,
}

impl View for Rewrite {
    type V = Rewritten;

    open spec fn view(&self) -> Rewritten {
        Rewritten {
            notices: self.notices@,
            result: match self.result {
                Ok(text) => Ok(text@),
                Err(e) => Err(e),
            },
        }
    }
}

/// The two sides of the equivalence that `rule` is or names, if it is or
/// names one.  A name is looked up in `rules`.
pub open spec fn resolved(rule: Rule, names: Seq<Seq<char>>, rules: Map<Seq<char>, Rule>) -> Option<
    (Expr, Expr),
> {
    match rule {
        Rule::Equivalence(lhs, rhs) => Some((lhs, rhs)),
        Rule::RuleId(n) => if n < names.len() && rules.contains_key(names[n as int]) {
            match rules[names[n as int]] {
                Rule::Equivalence(lhs, rhs) => Some((lhs, rhs)),
                Rule::RuleId(_) => None,
            }
        } else {
            None
        },
    }
}

/// Rewriting `expr` by `rule`: the formula is matched against the left
/// side once, from the root, and the right side is built from what that
/// bound.  Nothing is searched and nothing is taken back; whether the two
/// sides of the rule mean the same is not asked.
pub open spec fn rewritten(
    expr: Expr,
    rule: Rule,
    names: Seq<Seq<char>>,
    rules: Map<Seq<char>, Rule>,
    policy: Policy,
) -> Rewritten {
    match resolved(rule, names, rules) {
        None => Rewritten { notices: Seq::empty(), result: Err(RewriteError::UndefinedRule) },
        Some((lhs, rhs)) => {
            let matching = matched(expr, lhs, Matching::empty(), policy);
            Rewritten {
                notices: matching.notices,
                result: match substituted(rhs, matching.bound) {
                    Ok(e) => Ok(expr_text(e, names)),
                    Err(e) => Err(e),
                },
            }
        },
    }
}

/// A name rewrites as the equivalence that it is bound to.
pub proof fn lemma_named_rule(
    expr: Expr,
    n: usize,
    names: Seq<Seq<char>>,
    rules: Map<Seq<char>, Rule>,
    policy: Policy,
)
    requires
        n < names.len(),
        rules.contains_key(names[n as int]),
        rules[names[n as int]] is Equivalence,
    ensures
        rewritten(expr, Rule::RuleId(n), names, rules, policy) == rewritten(
            expr,
            rules[names[n as int]],
            names,
            rules,
            policy,
        ),
{
}

/// Rewrites `expr` by `rule` and gives the text of the new formula.  An
/// atom of the rule that occurs twice is bound where it occurs first.
pub fn match_patterns(
    expr: Expr,
    rule: Rule,
    interned: &Vec<String>,
    rule_bindings: &RuleStore,
) -> (outcome: Rewrite)
    requires
        expr.named_below(interned@.len()),
    ensures
        outcome@ == rewritten(expr, rule, names_of(interned@), rule_bindings@, Policy::Permissive),
{
    match_patterns_with(expr, rule, interned, rule_bindings, Policy::Permissive)
}

/// Rewrites `expr` by `rule` under the given policy and gives the text of
/// the new formula.
pub fn match_patterns_with(
    expr: Expr,
    rule: Rule,
    interned: &Vec<String>,
    rule_bindings: &RuleStore,
    policy: Policy,
) -> (outcome: Rewrite)
    requires
        expr.named_below(interned@.len()),
    ensures
        outcome@ == rewritten(expr, rule, names_of(interned@), rule_bindings@, policy),
{
    let (lhs, rhs) = match rule {
        Rule::Equivalence(lhs, rhs) => (lhs, rhs),
        Rule::RuleId(n) => {
            let bound = if n < interned.len() {
                rule_bindings.get(&interned[n])
            } else {
                None
            };
            match bound {
                Some(Rule::Equivalence(lhs, rhs)) => (lhs.clone(), rhs.clone()),
                _ => {
                    return Rewrite {
                        notices: Vec::new(),
                        result: Err(RewriteError::UndefinedRule),
                    };
                },
            }
        },
    };
    let mut patterns: HashMap<usize, Expr> = HashMap::new();
    let mut notices: Vec<Mismatch> = Vec::new();
    proof {
        lemma_matched_below(expr, lhs, Matching::empty(), policy, interned@.len());
        lemma_substituted_below(
            rhs,
            matched(expr, lhs, Matching::empty(), policy).bound,
            interned@.len(),
        );
    }
    traverse_and_match(expr, lhs, &mut patterns, &mut notices, policy);
    match substitute_in(rhs, &patterns) {
        Ok(e) => Rewrite { notices, result: Ok(expr_to_string(&e, interned)) },
        Err(e) => Rewrite { notices, result: Err(e) },
    }
}

} // verus!
