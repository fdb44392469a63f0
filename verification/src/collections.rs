//! The insertion-ordered collections that the library keeps its results in.
//!
//! Both come from outside crates. What they hold is named by an
//! uninterpreted function, and each method that the library calls has a
//! wrapper whose contract is believed, not proved.

use vstd::prelude::*;
use linked_hash_map::LinkedHashMap;
use linked_hash_set::LinkedHashSet;
use crate::state::CrateState;

verus! {

/// Declares `linked_hash_set::LinkedHashSet`, a set that hands its items
/// out in the order in which they were put in. Nothing is said of what is
/// inside a value of it but through `dependency_items`.
#[verifier::external_type_specification]
#[verifier::external_body]
#[verifier::reject_recursive_types(T)]
#[verifier::reject_recursive_types(S)]
pub struct ExLinkedHashSet<T, S>(LinkedHashSet<T, S>);

/// Declares `linked_hash_map::LinkedHashMap`, a map that hands its
/// entries out in the order in which their keys were put in. Nothing is
/// said of what is inside a value of it but through `state_entries`.
#[verifier::external_type_specification]
#[verifier::external_body]
#[verifier::reject_recursive_types(K)]
#[verifier::reject_recursive_types(V)]
#[verifier::reject_recursive_types(S)]
pub struct ExLinkedHashMap<K, V, S>(LinkedHashMap<K, V, S>);

/// The items of a set of dependencies, in the order in which the set hands
/// them out: a name, the code of a kind, and whether it is optional.
pub uninterp spec fn dependency_items(set: LinkedHashSet<(String, u8, bool)>) -> Seq<
    (Seq<char>, u8, bool),
>;

/// The entries of a map of states, in the order in which the map hands
/// them out: a name and the state kept under it.
pub uninterp spec fn state_entries(map: LinkedHashMap<String, CrateState>) -> Seq<
    (Seq<char>, CrateState),
>;

/// Calls `LinkedHashSet::new`: the new set holds nothing.
#[verifier::external_body]
pub(crate) fn dependency_set_new() -> (set: LinkedHashSet<(String, u8, bool)>)
    ensures
        dependency_items(set) == Seq::<(Seq<char>, u8, bool)>::empty(),
{
    LinkedHashSet::new()
}

/// Calls `LinkedHashSet::insert_if_absent`: an item that the set does not
/// hold yet goes to the end and the call returns `true`; one that it holds
/// leaves the set as it is and the call returns `false`.
#[verifier::external_body]
pub(crate) fn dependency_set_insert_if_absent(
    set: &mut LinkedHashSet<(String, u8, bool)>,
    name: String,
    kind: u8,
    optional: bool,
) -> (fresh: bool)
    ensures
        fresh == !dependency_items(*old(set)).contains((name@, kind, optional)),
        dependency_items(*final(set)) == if fresh {
            dependency_items(*old(set)).push((name@, kind, optional))
        } else {
            dependency_items(*old(set))
        },
{
    set.insert_if_absent((name, kind, optional))
}

/// Calls `LinkedHashMap::new`: the new map holds nothing.
#[verifier::external_body]
pub(crate) fn state_map_new() -> (map: LinkedHashMap<String, CrateState>)
    ensures
        state_entries(map) == Seq::<(Seq<char>, CrateState)>::empty(),
{
    LinkedHashMap::new()
}

/// The name is the key of an entry.
pub open spec fn has_key<V>(entries: Seq<(Seq<char>, V)>, name: Seq<char>) -> bool {
    exists|i: int| 0 <= i < entries.len() && (#[trigger] entries[i]).0 == name
}

/// The place of the first entry under the name.
pub open spec fn key_index<V>(entries: Seq<(Seq<char>, V)>, name: Seq<char>) -> int {
    choose|i: int|
        0 <= i < entries.len() && (#[trigger] entries[i]).0 == name && forall|j: int|
            0 <= j < i ==> (#[trigger] entries[j]).0 != name
}

/// Where an entry at or before `at` has the name, `key_index` is the place
/// of the first such entry.
pub proof fn lemma_key_index_upto<V>(entries: Seq<(Seq<char>, V)>, name: Seq<char>, at: int)
    requires
        0 <= at < entries.len(),
        entries[at].0 == name,
    ensures
        0 <= key_index(entries, name) <= at,
        entries[key_index(entries, name)].0 == name,
        forall|j: int| 0 <= j < key_index(entries, name) ==> (#[trigger] entries[j]).0 != name,
    decreases at,
{
    if exists|j: int| 0 <= j < at && (#[trigger] entries[j]).0 == name {
        let j = choose|j: int| 0 <= j < at && (#[trigger] entries[j]).0 == name;
        lemma_key_index_upto(entries, name, j);
    } else {
        assert(0 <= at < entries.len() && entries[at].0 == name && forall|j: int|
            0 <= j < at ==> (#[trigger] entries[j]).0 != name);
    }
}

/// Where the name is the key of an entry, `key_index` is the place of the
/// first such entry.
pub proof fn lemma_key_index<V>(entries: Seq<(Seq<char>, V)>, name: Seq<char>)
    requires
        has_key(entries, name),
    ensures
        0 <= key_index(entries, name) < entries.len(),
        entries[key_index(entries, name)].0 == name,
        forall|j: int| 0 <= j < key_index(entries, name) ==> (#[trigger] entries[j]).0 != name,
{
    let at = choose|i: int| 0 <= i < entries.len() && (#[trigger] entries[i]).0 == name;
    lemma_key_index_upto(entries, name, at);
}

/// What a stored dependency says, with a text in place of the string.
pub open spec fn item_view(item: (String, u8, bool)) -> (Seq<char>, u8, bool) {
    (item.0@, item.1, item.2)
}

/// Calls `LinkedHashSet::iter`: the items of the set, in its order, each
/// as a copy.
#[verifier::external_body]
pub(crate) fn dependency_set_to_vec(set: &LinkedHashSet<(String, u8, bool)>) -> (items: Vec<
    (String, u8, bool),
>)
    ensures
        items@.len() == dependency_items(*set).len(),
        forall|i: int|
            0 <= i < items@.len() ==> item_view(#[trigger] items@[i]) == dependency_items(*set)[i],
{
    set.iter().cloned().collect()
}

/// Calls `LinkedHashMap::iter`: the entries of the map, in its order,
/// each as a copy.
#[verifier::external_body]
pub(crate) fn state_map_to_vec(map: &LinkedHashMap<String, CrateState>) -> (entries: Vec<
    (String, CrateState),
>)
    ensures
        entries@.len() == state_entries(*map).len(),
        forall|i: int|
            0 <= i < entries@.len() ==> (#[trigger] entries@[i]).0@ == state_entries(*map)[i].0
                && entries@[i].1 == state_entries(*map)[i].1,
{
    map.iter().map(|(name, state)| (name.clone(), *state)).collect()
}

/// Calls `LinkedHashMap::get`: the state that the map keeps under the
/// name, if it keeps one.
#[verifier::external_body]
pub(crate) fn state_map_get(map: &LinkedHashMap<String, CrateState>, name: &str) -> (state: Option<
    CrateState,
>)
    ensures
        match state {
            Some(state) => has_key(state_entries(*map), name@) && state == state_entries(
                *map,
            )[key_index(state_entries(*map), name@)].1,
            None => !has_key(state_entries(*map), name@),
        },
{
    map.get(name).copied()
}

/// Calls `LinkedHashMap::entry` and `Entry::or_insert`: hands out the
/// state that the map keeps under the name, after putting `initial` there,
/// at the end of the map, if the name had none. What the caller leaves in
/// it is what the map keeps afterwards; all else stays as it was.
#[verifier::external_body]
pub(crate) fn state_map_entry<'a>(
    map: &'a mut LinkedHashMap<String, CrateState>,
    name: String,
    initial: CrateState,
) -> (state: &'a mut CrateState)
    ensures
        *state == if has_key(state_entries(*old(map)), name@) {
            state_entries(*old(map))[key_index(state_entries(*old(map)), name@)].1
        } else {
            initial
        },
        state_entries(*final(map)) == if has_key(state_entries(*old(map)), name@) {
            state_entries(*old(map)).update(
                key_index(state_entries(*old(map)), name@),
                (name@, *final(state)),
            )
        } else {
            state_entries(*old(map)).push((name@, *final(state)))
        },
{
    map.entry(name).or_insert(initial)
}

} // verus!
