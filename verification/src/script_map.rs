//! The ordered action map of a talk: an `IndexMap` of the `indexmap` crate
//! from action ids to actions, whose contents are named by [`script_entries`].

use vstd::prelude::*;

use indexmap::IndexMap;
use std::hash::RandomState;

use crate::talk_data::{Action, ActionId};

verus! {

#[verifier::external_type_specification]
#[verifier::external_body]
#[verifier::reject_recursive_types(K)]
#[verifier::reject_recursive_types(V)]
#[verifier::reject_recursive_types(S)]
pub struct ExIndexMap<K, V, S>(IndexMap<K, V, S>);

/// The key-action pairs of an action map, in map order.
pub uninterp spec fn script_entries(m: IndexMap<ActionId, Action, RandomState>) -> Seq<(ActionId, Action)>;

/// No key occurs twice.
pub open spec fn keys_unique(s: Seq<(ActionId, Action)>) -> bool {
    forall|i: int, j: int| 0 <= i < j < s.len() ==> s[i].0 != s[j].0
}

/// Whether some pair has the key.
pub open spec fn has_key_at(s: Seq<(ActionId, Action)>, key: ActionId) -> bool {
    exists|i: int| 0 <= i < s.len() && s[i].0 == key
}

/// The action of a key-action pair.
pub open spec fn entry_action(e: (ActionId, Action)) -> Action {
    let (_, a) = e;
    a
}

/// `IndexMap::with_capacity`: an empty map.
#[verifier::external_body]
pub(crate) fn new_script(capacity: usize) -> (m: IndexMap<ActionId, Action, RandomState>)
    ensures
        script_entries(m) == Seq::<(ActionId, Action)>::empty(),
{
    IndexMap::with_capacity(capacity)
}

/// `IndexMap::insert`: when the key is present, its value is replaced in
/// place and the old value returned; otherwise the pair is appended and
/// `None` returned.
#[verifier::external_body]
pub(crate) fn script_insert(m: &mut IndexMap<ActionId, Action, RandomState>, key: ActionId, value: Action) -> (r:
    Option<Action>)
    requires
        keys_unique(script_entries(*old(m))),
    ensures
        keys_unique(script_entries(*final(m))),
        match r {
            Some(v) => exists|i: int|
                0 <= i < script_entries(*old(m)).len() && script_entries(*old(m))[i].0 == key && v
                    == script_entries(*old(m))[i].1 && script_entries(*final(m)) == script_entries(
                    *old(m),
                ).update(i, (key, value)),
            None => (forall|i: int|
                0 <= i < script_entries(*old(m)).len() ==> script_entries(*old(m))[i].0 != key)
                && script_entries(*final(m)) == script_entries(*old(m)).push((key, value)),
        },
{
    m.insert(key, value)
}

/// `IndexMap::len`: the number of pairs.
#[verifier::external_body]
pub(crate) fn script_len(m: &IndexMap<ActionId, Action, RandomState>) -> (r: usize)
    ensures
        r == script_entries(*m).len(),
{
    m.len()
}

/// `IndexMap::get_index`: the key at a position (present below `len`).
#[verifier::external_body]
pub(crate) fn script_key_at(m: &IndexMap<ActionId, Action, RandomState>, i: usize) -> (key: ActionId)
    requires
        i < script_entries(*m).len(),
    ensures
        key == script_entries(*m)[i as int].0,
{
    *m.get_index(i).unwrap().0
}

/// `IndexMap`'s `Index<usize>`: the action at a position (present below `len`).
#[verifier::external_body]
pub(crate) fn script_action_at(m: &IndexMap<ActionId, Action, RandomState>, i: usize) -> (action: &Action)
    requires
        i < script_entries(*m).len(),
    ensures
        *action == entry_action(script_entries(*m)[i as int]),
{
    &m[i]
}

/// `IndexMap::get`: the action of the pair with the key, if there is one.
#[verifier::external_body]
pub(crate) fn script_get(m: &IndexMap<ActionId, Action, RandomState>, key: ActionId) -> (r: Option<&Action>)
    ensures
        match r {
            Some(a) => exists|i: int|
                0 <= i < script_entries(*m).len() && script_entries(*m)[i].0 == key && *a == entry_action(
                    script_entries(*m)[i],
                ),
            None => !has_key_at(script_entries(*m), key),
        },
{
    m.get(&key)
}

/// `IndexMap::contains_key`: whether some pair has the key.
#[verifier::external_body]
pub(crate) fn script_contains_key(m: &IndexMap<ActionId, Action, RandomState>, key: ActionId) -> (r: bool)
    ensures
        r == has_key_at(script_entries(*m), key),
{
    m.contains_key(&key)
}

} // verus!
