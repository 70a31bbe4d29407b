//! Saving and restoring dialogue state across game sessions.
//!
//! [`DialogueSave`] is a snapshot of the dialogue state; the game stores it
//! wherever it keeps its saves and applies it back on load. Applying merges:
//! saved values overwrite current ones, anything missing from the save keeps
//! its current value. Database seeding and old saves therefore compose in
//! either order.

use vstd::prelude::*;

use crate::assoc::{assoc_map, lemma_assoc_push};
use crate::data::{EntryKey, FieldValue, Variable};
use crate::variables::{named, seed_map, Variables};
use crate::visits::{VisitCount, Visits};

verus! {

/// A snapshot of everything the dialogue system remembers across sessions.
#[derive(Debug)]
pub struct DialogueSave {
    /// Saved variable values by name; a later pair for a name overrides an earlier one.
    pub variables: Vec<(String, FieldValue)>,
    /// Saved visit counts by position; a later pair for a position overrides an earlier one.
    pub visits: Vec<(EntryKey, VisitCount)>,
}

impl DialogueSave {
    /// The saved variable values.
    pub open spec fn variables_map(&self) -> Map<Seq<char>, FieldValue> {
        assoc_map(named(self.variables@))
    }

    /// The saved visit counts.
    pub open spec fn visits_map(&self) -> Map<EntryKey, VisitCount> {
        assoc_map(self.visits@)
    }

    /// A snapshot of the current dialogue state.
    pub fn record(variables: &Variables, visits: &Visits) -> (r: DialogueSave)
        ensures
            r.variables_map() == variables@,
            r.visits_map() == visits@,
    {
        DialogueSave { variables: variables.pairs(), visits: visits.pairs() }
    }

    /// Applies the snapshot, overwriting current values. Entries missing from
    /// the snapshot keep their current value.
    pub fn apply(self, variables: &mut Variables, visits: &mut Visits)
        ensures
            final(variables)@ == old(variables)@.union_prefer_right(self.variables_map()),
            final(visits)@ == old(visits)@.union_prefer_right(self.visits_map()),
    {
        let ghost start = variables@;
        let mut i: usize = 0;
        while i < self.variables.len()
            invariant
                i <= self.variables@.len(),
                variables@ == start.union_prefer_right(assoc_map(named(self.variables@.take(i as int)))),
            decreases self.variables@.len() - i,
        {
            let (name, value) = (&self.variables[i].0, &self.variables[i].1);
            variables.set(name.as_str(), crate::variables::copy_value(value));
            proof {
                let pre = named(self.variables@.take(i as int));
                lemma_assoc_push(pre, name@, *value);
                assert(named(self.variables@.take(i + 1)) =~= pre.push((name@, *value)));
                assert(variables@ =~= start.union_prefer_right(assoc_map(named(self.variables@.take(i + 1)))));
            }
            i = i + 1;
        }
        proof {
            assert(self.variables@.take(self.variables@.len() as int) =~= self.variables@);
        }
        let ghost vstart = visits@;
        let mut k: usize = 0;
        while k < self.visits.len()
            invariant
                k <= self.visits@.len(),
                visits@ == vstart.union_prefer_right(assoc_map(self.visits@.take(k as int))),
            decreases self.visits@.len() - k,
        {
            let (at, c) = self.visits[k];
            visits.put(at, c);
            proof {
                let pre = self.visits@.take(k as int);
                lemma_assoc_push(pre, at, c);
                assert(self.visits@.take(k + 1) =~= pre.push((at, c)));
                assert(visits@ =~= vstart.union_prefer_right(assoc_map(self.visits@.take(k + 1))));
            }
            k = k + 1;
        }
        proof {
            assert(self.visits@.take(self.visits@.len() as int) =~= self.visits@);
        }
    }
}

/// Recording a state and applying the snapshot to empty stores gives back
/// the recorded values.
pub proof fn law_restore_into_empty<K, V>(recorded: Map<K, V>)
    ensures
        Map::<K, V>::empty().union_prefer_right(recorded) == recorded,
{
    assert(Map::<K, V>::empty().union_prefer_right(recorded) =~= recorded);
}

/// Saved values overwrite current (for instance seeded) ones; anything
/// missing from the save keeps its current value.
pub proof fn law_saved_values_win<K, V>(current: Map<K, V>, saved: Map<K, V>, k: K)
    ensures
        saved.contains_key(k) ==> current.union_prefer_right(saved)[k] == saved[k],
        !saved.contains_key(k) ==> (current.union_prefer_right(saved).contains_key(k)
            <==> current.contains_key(k)),
        !saved.contains_key(k) && current.contains_key(k) ==> current.union_prefer_right(saved)[k]
            == current[k],
{
}

/// Seeding and applying a save compose in either order: seeding after a
/// restore fills only the variables the save lacks, and a restore after
/// seeding overwrites the seeded values with the saved ones.
pub proof fn law_seed_and_restore_commute(
    current: Map<Seq<char>, FieldValue>,
    saved: Map<Seq<char>, FieldValue>,
    vars: Seq<Variable>,
)
    ensures
        seed_map(current.union_prefer_right(saved), vars) == seed_map(current, vars).union_prefer_right(
            saved,
        ),
    decreases vars.len(),
{
    if vars.len() > 0 {
        law_seed_and_restore_commute(current, saved, vars.drop_last());
        let b = seed_map(current, vars.drop_last());
        let v = vars.last();
        assert(seed_map(current.union_prefer_right(saved), vars) =~= seed_map(current, vars).union_prefer_right(
            saved,
        )) by {
            if !saved.contains_key(v.name@) && !b.contains_key(v.name@) {
                assert(b.union_prefer_right(saved).insert(v.name@, v.initial) =~= b.insert(
                    v.name@,
                    v.initial,
                ).union_prefer_right(saved));
            } else if saved.contains_key(v.name@) && !b.contains_key(v.name@) {
                assert(b.union_prefer_right(saved) =~= b.insert(v.name@, v.initial).union_prefer_right(saved));
            }
        }
    } else {
        assert(seed_map(current.union_prefer_right(saved), vars) == current.union_prefer_right(saved));
    }
}

} // verus!
