//! The entries of a table while it is built and laid out: a list of
//! formulas, each with its column.

use crate::order::{before, lemma_order_total, lemma_order_transitive, place_of, Place};
use crate::parser::Expr;
use crate::truth::{atom_value, atoms_of, column, negate, parts, rising};
use vstd::arithmetic::power2::{lemma_pow2_pos, lemma_pow2_unfold, pow2};
use vstd::prelude::*;

verus! {

/// The formulas that stand first in the entries of `map`.
pub open spec fn keys(map: Seq<(Expr, Vec<usize>)>) -> Set<Expr> {
    Set::new(|key: Expr| exists|i: int| 0 <= i < map.len() && #[trigger] map[i].0 == key)
}

/// Whether no formula stands first in two entries of `map`.
pub open spec fn distinct(map: Seq<(Expr, Vec<usize>)>) -> bool {
    forall|i: int, j: int|
        0 <= i < j < map.len() ==> (#[trigger] map[i]).0 != (#[trigger] map[j]).0
}

/// The place in `map` of the entry of `key`.
pub open spec fn place(map: Seq<(Expr, Vec<usize>)>, key: Expr) -> int {
    choose|i: int| 0 <= i < map.len() && #[trigger] map[i].0 == key
}

/// Whether every entry of `map` holds the column of its formula.
pub open spec fn filled(map: Seq<(Expr, Vec<usize>)>, atoms: Seq<usize>, rows: nat) -> bool {
    forall|i: int| 0 <= i < map.len() ==> (#[trigger] map[i]).1@ == column(map[i].0, atoms, rows)
}

/// Whether `map` has an entry for every formula inside a formula that it
/// has an entry for.
pub open spec fn whole(map: Seq<(Expr, Vec<usize>)>) -> bool {
    forall|i: int, part: Expr|
        0 <= i < map.len() && #[trigger] parts(map[i].0).contains(part) ==> keys(map).contains(
            part,
        )
}

/// Whether `map` is ready for the formula `expr` to be evaluated: what it
/// holds is right, and no atom of `expr` is missing.
pub open spec fn ready(
    map: Seq<(Expr, Vec<usize>)>,
    atoms: Seq<usize>,
    rows: nat,
    expr: Expr,
) -> bool {
    &&& distinct(map)
    &&& filled(map, atoms, rows)
    &&& whole(map)
    &&& forall|n: usize| #[trigger]
        atoms_of(expr).contains(n) ==> keys(map).contains(Expr::Primary(n))
}

/// One more entry is one more key.
pub proof fn lemma_keys_push(map: Seq<(Expr, Vec<usize>)>, entry: (Expr, Vec<usize>))
    ensures
        keys(map.push(entry)) =~= keys(map).insert(entry.0),
{
    let longer = map.push(entry);
    assert forall|key: Expr| keys(longer).contains(key) <==> keys(map).insert(entry.0).contains(
        key,
    ) by {
        if keys(longer).contains(key) {
            let i = choose|i: int| 0 <= i < longer.len() && #[trigger] longer[i].0 == key;
            if i < map.len() {
                assert(map[i].0 == key);
            }
        }
        if keys(map).contains(key) {
            let i = choose|i: int| 0 <= i < map.len() && #[trigger] map[i].0 == key;
            assert(longer[i].0 == key);
        }
        if key == entry.0 {
            assert(longer[map.len() as int].0 == key);
        }
    }
}

/// In a rising sequence every item is found where it stands.
pub proof fn lemma_rising_index(atoms: Seq<usize>, j: int)
    requires
        rising(atoms),
        0 <= j < atoms.len(),
    ensures
        atoms.index_of(atoms[j]) == j,
{
    let i = atoms.index_of(atoms[j]);
    assert(0 <= i < atoms.len() && atoms[i] == atoms[j]);
    if i < j {
        assert(atoms[i] < atoms[j]);
    } else if j < i {
        assert(atoms[j] < atoms[i]);
    }
}

/// The entry of `expr` in `map`, if it has one.
pub fn find(map: &Vec<(Expr, Vec<usize>)>, expr: &Expr) -> (found: Option<usize>)
    ensures
        match found {
            Some(i) => i < map.len() && map[i as int].0 == *expr,
            None => !keys(map@).contains(*expr),
        },
{
    let mut i: usize = 0;
    while i < map.len()
        invariant
            i <= map.len(),
            forall|j: int| 0 <= j < i ==> (#[trigger] map[j]).0 != *expr,
        decreases map.len() - i,
    {
        if map[i].0.same(expr) {
            return Some(i);
        }
        i += 1;
    }
    None
}

/// Puts `n` in its place in the rising sequence `atoms`, unless it is
/// there already.
pub fn insert_atom(atoms: &mut Vec<usize>, n: usize)
    requires
        rising(old(atoms)@),
    ensures
        rising(final(atoms)@),
        final(atoms)@.to_set() =~= old(atoms)@.to_set().insert(n),
{
    let mut i: usize = 0;
    while i < atoms.len() && atoms[i] < n
        invariant
            i <= atoms.len(),
            *atoms == *old(atoms),
            forall|j: int| 0 <= j < i ==> atoms@[j] < n,
        decreases atoms.len() - i,
    {
        i += 1;
    }
    if i < atoms.len() && atoms[i] == n {
        assert(atoms@.contains(n));
        return ;
    }
    let ghost before = atoms@;
    atoms.insert(i, n);
    proof {
        before.insert_ensures(i as int, n);
        assert forall|a: int, b: int| 0 <= a < b < atoms@.len() implies atoms@[a] < atoms@[b] by {
            if b < i {
            } else if b == i {
            } else if a < i {
                assert(atoms@[b] == before[b - 1]);
            } else if a == i {
                assert(atoms@[b] == before[b - 1]);
            } else {
                assert(atoms@[a] == before[a - 1]);
                assert(atoms@[b] == before[b - 1]);
            }
        }
        assert forall|m: usize| atoms@.contains(m) <==> before.contains(m) || m == n by {
            if atoms@.contains(m) {
                let k = choose|k: int| 0 <= k < atoms@.len() && atoms@[k] == m;
                if k < i {
                    assert(before[k] == m);
                } else if k > i {
                    assert(before[k - 1] == m);
                }
            }
            if before.contains(m) {
                let k = choose|k: int| 0 <= k < before.len() && before[k] == m;
                if k < i {
                    assert(atoms@[k] == m);
                } else {
                    assert(atoms@[k + 1] == m);
                }
            }
            if m == n {
                assert(atoms@[i as int] == m);
            }
        }
    }
}

/// The column of the atom that has column `j` among the atoms, in a table
/// of `rows` rows.
pub fn atom_column(rows: usize, j: usize, half: usize) -> (entry: Vec<usize>)
    requires
        half == pow2(j as nat),
        2 * half <= usize::MAX,
    ensures
        entry@ == Seq::new(rows as nat, |row: int| atom_value(row as nat, j as nat)),
{
    proof {
        lemma_pow2_unfold((j + 1) as nat);
        lemma_pow2_pos(j as nat);
    }
    let period = 2 * half;
    let mut entry: Vec<usize> = Vec::new();
    let mut i: usize = 0;
    while i < rows
        invariant
            i <= rows,
            period == pow2((j + 1) as nat),
            period > 0,
            entry@ == Seq::new(i as nat, |row: int| atom_value(row as nat, j as nat)),
        decreases rows - i,
    {
        if i % period + 1 > period / 2 {
            entry.push(1);
        } else {
            entry.push(0);
        }
        i += 1;
    }
    entry
}

/// Negates a column row by row.
pub fn negated(column: Vec<usize>) -> (flipped: Vec<usize>)
    ensures
        flipped.len() == column.len(),
        forall|i: int| 0 <= i < flipped.len() ==> flipped[i] == negate(column[i]),
{
    let mut flipped: Vec<usize> = Vec::new();
    let mut i: usize = 0;
    while i < column.len()
        invariant
            i <= column.len(),
            flipped.len() == i,
            forall|j: int| 0 <= j < i ==> flipped[j] == negate(column[j]),
        decreases column.len() - i,
    {
        let v: usize = if column[i] == 0 {
            1
        } else {
            0
        };
        flipped.push(v);
        i += 1;
    }
    flipped
}

/// The entries of `all` but those of the parenthesised formulas.
pub fn drop_groups(
    all: Vec<(Expr, Vec<usize>)>,
    Ghost(atoms): Ghost<Seq<usize>>,
    Ghost(rows): Ghost<nat>,
) -> (kept: Vec<(Expr, Vec<usize>)>)
    requires
        distinct(all@),
        filled(all@, atoms, rows),
    ensures
        distinct(kept@),
        filled(kept@, atoms, rows),
        keys(kept@) =~= keys(all@).filter(|key: Expr| !(key is Group)),
{
    let ghost all0 = all@;
    let mut all = all;
    let mut kept: Vec<(Expr, Vec<usize>)> = Vec::new();
    while all.len() > 0
        invariant
            all@.len() <= all0.len(),
            all@ == all0.take(all@.len() as int),
            distinct(all0),
            filled(all0, atoms, rows),
            distinct(kept@),
            filled(kept@, atoms, rows),
            forall|key: Expr|
                keys(kept@).contains(key) <==> !(key is Group) && exists|i: int|
                    all@.len() <= i < all0.len() && #[trigger] all0[i].0 == key,
        decreases all.len(),
    {
        let ghost n = all@.len() - 1;
        let entry = all.pop().unwrap();
        assert(entry == all0[n]);
        assert(all@ =~= all0.take(n));
        let group = match &entry.0 {
            Expr::Group(_) => true,
            _ => false,
        };
        if !group {
            let ghost shorter = kept@;
            proof {
                lemma_keys_push(shorter, entry);
                if keys(shorter).contains(entry.0) {
                    let i = choose|i: int| n < i < all0.len() && #[trigger] all0[i].0 == entry.0;
                    assert(all0[n].0 != all0[i].0);
                }
            }
            kept.push(entry);
            proof {
                assert forall|i: int, j: int| 0 <= i < j < kept@.len() implies (
                #[trigger] kept@[i]).0 != (#[trigger] kept@[j]).0 by {
                    if j == shorter.len() {
                        assert(shorter[i].0 != entry.0);
                    } else {
                        assert(shorter[i].0 != shorter[j].0);
                    }
                }
            }
        }
        proof {
            assert forall|key: Expr|
                keys(kept@).contains(key) <==> !(key is Group) && exists|i: int|
                    n <= i < all0.len() && #[trigger] all0[i].0 == key by {
                if !(key is Group) && exists|i: int|
                    n <= i < all0.len() && #[trigger] all0[i].0 == key {
                    let i = choose|i: int| n <= i < all0.len() && #[trigger] all0[i].0 == key;
                    if i > n {
                        assert(n + 1 <= i < all0.len() && all0[i].0 == key);
                    }
                }
                if keys(kept@).contains(key) && key != entry.0 {
                    let i = choose|i: int| n + 1 <= i < all0.len() && #[trigger] all0[i].0 == key;
                    assert(n <= i < all0.len() && all0[i].0 == key);
                }
                if key == entry.0 {
                    assert(all0[n].0 == key);
                }
            }
        }
    }
    proof {
        assert forall|key: Expr|
            keys(kept@).contains(key) <==> keys(all0).filter(
                |key: Expr| !(key is Group),
            ).contains(key) by {
            if keys(all0).contains(key) {
                let i = choose|i: int| 0 <= i < all0.len() && #[trigger] all0[i].0 == key;
                assert(0 <= i < all0.len() && all0[i].0 == key);
            }
            if keys(kept@).contains(key) {
                let i = choose|i: int| 0 <= i < all0.len() && #[trigger] all0[i].0 == key;
                assert(all0[i].0 == key);
            }
        }
    }
    kept
}

/// Whether `order` ranks the entries from `0` to `count` of `map`: it
/// holds their places, each once, the formula that stands last first.
pub open spec fn ranks(order: Seq<usize>, map: Seq<(Expr, Vec<usize>)>, count: int) -> bool {
    &&& forall|a: int| 0 <= a < order.len() ==> (#[trigger] order[a]) < count
    &&& forall|a: int, b: int|
        0 <= a < b < order.len() ==> before(
            map[(#[trigger] order[b]) as int].0,
            map[(#[trigger] order[a]) as int].0,
        )
}

/// The places of the entries of `map`, the formula that stands last first.
pub fn ranking(map: &Vec<(Expr, Vec<usize>)>) -> (order: Vec<usize>)
    requires
        distinct(map@),
    ensures
        ranks(order@, map@, map@.len() as int),
        forall|x: usize| x < map@.len() ==> order@.contains(x),
{
    let mut order: Vec<usize> = Vec::new();
    let ghost mut slot: Seq<int> = Seq::empty();
    let mut k: usize = 0;
    while k < map.len()
        invariant
            k <= map.len(),
            distinct(map@),
            ranks(order@, map@, k as int),
            slot.len() == k,
            forall|x: int|
                0 <= x < k ==> 0 <= (#[trigger] slot[x]) < order@.len() && order@[slot[x]] == x,
        decreases map.len() - k,
    {
        let p = rank_of(map, &order, k);
        let ghost shorter = order@;
        let ghost old_slot = slot;
        order.insert(p, k);
        proof {
            shorter.insert_ensures(p as int, k);
            slot = Seq::new(
                (k + 1) as nat,
                |x: int|
                    if x == k {
                        p as int
                    } else if old_slot[x] < p {
                        old_slot[x]
                    } else {
                        old_slot[x] + 1
                    },
            );
            assert forall|a: int, b: int| 0 <= a < b < order@.len() implies before(
                map@[(#[trigger] order@[b]) as int].0,
                map@[(#[trigger] order@[a]) as int].0,
            ) by {
                lemma_inserted_ranks(map@, shorter, k as int, p as int, a, b);
            }
            assert forall|a: int| 0 <= a < order@.len() implies (#[trigger] order@[a]) < k + 1 by {
                if a < p {
                    assert(order@[a] == shorter[a]);
                } else if a > p {
                    assert(order@[a] == shorter[a - 1]);
                }
            }
        }
        k += 1;
    }
    proof {
        assert forall|x: usize| x < map@.len() implies order@.contains(x) by {
            assert(order@[slot[x as int]] == x);
        }
    }
    order
}

/// Where entry `k` of `map` belongs in `order`, which ranks the entries
/// before it: behind everything that stands after it.
pub fn rank_of(map: &Vec<(Expr, Vec<usize>)>, order: &Vec<usize>, k: usize) -> (p: usize)
    requires
        k < map@.len(),
        distinct(map@),
        ranks(order@, map@, k as int),
    ensures
        p <= order@.len(),
        forall|a: int|
            0 <= a < p ==> before(map@[k as int].0, map@[(#[trigger] order@[a]) as int].0),
        forall|a: int|
            p <= a < order@.len() ==> before(
                map@[(#[trigger] order@[a]) as int].0,
                map@[k as int].0,
            ),
{
    let mut p: usize = 0;
    while p < order.len() && matches!(place_of(&map[order[p]].0, &map[k].0), Place::After)
        invariant
            p <= order@.len(),
            k < map@.len(),
            ranks(order@, map@, k as int),
            forall|a: int|
                0 <= a < p ==> before(map@[k as int].0, map@[(#[trigger] order@[a]) as int].0),
        decreases order.len() - p,
    {
        p += 1;
    }
    proof {
        assert forall|a: int| p <= a < order@.len() implies before(
            map@[(#[trigger] order@[a]) as int].0,
            map@[k as int].0,
        ) by {
            let x = order@[p as int] as int;
            assert(map@[x].0 != map@[k as int].0);
            lemma_order_total(map@[x].0, map@[k as int].0);
            if a > p {
                lemma_order_transitive(map@[order@[a] as int].0, map@[x].0, map@[k as int].0);
            }
        }
    }
    p
}

/// Putting entry `k` at its place `p` keeps the ranking in order.
pub proof fn lemma_inserted_ranks(
    map: Seq<(Expr, Vec<usize>)>,
    order: Seq<usize>,
    k: int,
    p: int,
    a: int,
    b: int,
)
    requires
        0 <= k < map.len() && k <= usize::MAX,
        ranks(order, map, k),
        0 <= p <= order.len(),
        forall|i: int| 0 <= i < p ==> before(map[k].0, map[(#[trigger] order[i]) as int].0),
        forall|i: int|
            p <= i < order.len() ==> before(map[(#[trigger] order[i]) as int].0, map[k].0),
        0 <= a < b < order.len() + 1,
    ensures
        before(
            map[order.insert(p, k as usize)[b] as int].0,
            map[order.insert(p, k as usize)[a] as int].0,
        ),
{
    let longer = order.insert(p, k as usize);
    order.insert_ensures(p, k as usize);
    if b < p {
        assert(longer[a] == order[a] && longer[b] == order[b]);
    } else if b == p {
        assert(longer[a] == order[a]);
    } else if a < p {
        assert(longer[a] == order[a] && longer[b] == order[b - 1]);
    } else if a == p {
        assert(longer[b] == order[b - 1]);
    } else {
        assert(longer[a] == order[a - 1] && longer[b] == order[b - 1]);
    }
}

} // verus!
