//! The rules that were bound to names in a session.

use crate::parser::Rule;
use vstd::prelude::*;

verus! {

/// The rules of a session, each under the name it was bound to.  A name
/// that is bound again stands for the later rule.
#[derive(Debug)]
pub struct RuleStore {
    entries: Vec<(String, Rule)>,
}

/// What the bindings made in the order of `entries` amount to.
pub open spec fn bindings_of(entries: Seq<(String, Rule)>) -> Map<Seq<char>, Rule>
    decreases entries.len(),
{
    if entries.len() == 0 {
        Map::empty()
    } else {
        bindings_of(entries.drop_last()).insert(entries.last().0@, entries.last().1)
    }
}

/// A name stands for the rule of the last entry that has it, and for none
/// if no entry has it.
proof fn lemma_last_binding(entries: Seq<(String, Rule)>, name: Seq<char>, from: int)
    requires
        0 <= from <= entries.len(),
        forall|j: int| from <= j < entries.len() ==> (#[trigger] entries[j]).0@ != name,
    ensures
        from == 0 ==> !bindings_of(entries).contains_key(name),
        from > 0 && entries[from - 1].0@ == name ==> bindings_of(entries).contains_key(name)
            && bindings_of(entries)[name] == entries[from - 1].1,
    decreases entries.len(),
{
    if entries.len() > 0 {
        let shorter = entries.drop_last();
        if from < entries.len() {
            assert(entries.last() == entries[entries.len() - 1]);
            assert forall|j: int| from <= j < shorter.len() implies (#[trigger] shorter[j]).0@
                != name by {
                assert(shorter[j] == entries[j]);
            }
            lemma_last_binding(shorter, name, from);
            if from > 0 {
                assert(shorter[from - 1] == entries[from - 1]);
            }
        } else if from > 0 && entries[from - 1].0@ != name {
        }
    }
}

impl View for RuleStore {
    type V = Map<Seq<char>, Rule>;

    closed spec fn view(&self) -> Map<Seq<char>, Rule> {
        bindings_of(self.entries@)
    }
}

impl RuleStore {
    /// A store without rules.
    pub fn new() -> (store: RuleStore)
        ensures
            store@ == Map::<Seq<char>, Rule>::empty(),
    {
        RuleStore { entries: Vec::new() }
    }

    /// Binds `rule` to `name`.
    pub fn insert(&mut self, name: String, rule: Rule)
        ensures
            final(self)@ == old(self)@.insert(name@, rule),
    {
        let ghost before = self.entries@;
        self.entries.push((name, rule));
        assert(self.entries@.drop_last() =~= before);
    }

    /// The rule that `name` is bound to, if it is bound.
    pub fn get(&self, name: &String) -> (rule: Option<&Rule>)
        ensures
            match rule {
                Some(r) => self@.contains_key(name@) && self@[name@] == *r,
                None => !self@.contains_key(name@),
            },
    {
        let mut i: usize = self.entries.len();
        while i > 0
            invariant
                i <= self.entries@.len(),
                forall|j: int|
                    i <= j < self.entries@.len() ==> (#[trigger] self.entries@[j]).0@ != name@,
            decreases i,
        {
            if self.entries[i - 1].0 == *name {
                proof {
                    lemma_last_binding(self.entries@, name@, i as int);
                }
                return Some(&self.entries[i - 1].1);
            }
            i -= 1;
        }
        proof {
            lemma_last_binding(self.entries@, name@, 0);
        }
        None
    }
}

} // verus!
