//! Hash tables with the Fx hashing algorithm.
//!
//! The tables are std's `HashMap` and `HashSet` with the hasher of the
//! `rustc_hash` crate. That hasher starts from the same state every time and
//! depends on nothing but what is fed to it, so equal keys have equal hashes
//! and the tables behave as maps and sets of their keys.

use std::hash::Hash;

use rustc_hash::{FxHashMap, FxHashSet};
use vstd::prelude::*;
use vstd::std_specs::hash::obeys_key_model;

verus! {

/// The state from which Fx hashers are made.
#[verifier::external_type_specification]
#[verifier::external_body]
pub struct ExFxBuildHasher(rustc_hash::FxBuildHasher);

/// `HashMap::insert` on a table with Fx hashing: the key is mapped to the
/// value, and what it was mapped to before is returned.
#[verifier::external_body]
pub(crate) fn map_insert<K: Eq + Hash, V>(map: &mut FxHashMap<K, V>, key: K, value: V) -> (r:
    Option<V>)
    requires
        obeys_key_model::<K>(),
    ensures
        final(map)@ == old(map)@.insert(key, value),
        match r {
            Some(before) => old(map)@.contains_key(key) && before == old(map)@[key],
            None => !old(map)@.contains_key(key),
        },
{
    map.insert(key, value)
}

/// `HashMap::get` on a table with Fx hashing: the value of the key, if there is
/// one.
#[verifier::external_body]
pub(crate) fn map_get<'a, K: Eq + Hash, V>(map: &'a FxHashMap<K, V>, key: &K) -> (r: Option<&'a V>)
    requires
        obeys_key_model::<K>(),
    ensures
        match r {
            Some(value) => map@.contains_key(*key) && *value == map@[*key],
            None => !map@.contains_key(*key),
        },
{
    map.get(key)
}

/// `HashMap::remove` on a table with Fx hashing: the key is mapped to nothing
/// any more, and what it was mapped to is returned.
#[verifier::external_body]
pub(crate) fn map_remove<K: Eq + Hash, V>(map: &mut FxHashMap<K, V>, key: &K) -> (r: Option<V>)
    requires
        obeys_key_model::<K>(),
    ensures
        final(map)@ == old(map)@.remove(*key),
        match r {
            Some(before) => old(map)@.contains_key(*key) && before == old(map)@[*key],
            None => !old(map)@.contains_key(*key),
        },
{
    map.remove(key)
}

/// `HashMap::len` on a table with Fx hashing: how many keys it holds.
#[verifier::external_body]
pub(crate) fn map_len<K: Eq + Hash, V>(map: &FxHashMap<K, V>) -> (r: usize)
    requires
        obeys_key_model::<K>(),
    ensures
        r == map@.len(),
{
    map.len()
}

/// `HashSet::insert` on a table with Fx hashing: the key is in the set, and the
/// result says whether it is new.
#[verifier::external_body]
pub(crate) fn set_insert<K: Eq + Hash>(set: &mut FxHashSet<K>, key: K) -> (r: bool)
    requires
        obeys_key_model::<K>(),
    ensures
        final(set)@ == old(set)@.insert(key),
        r == !old(set)@.contains(key),
{
    set.insert(key)
}

/// `HashSet::remove` on a table with Fx hashing: the key is not in the set, and
/// the result says whether it was.
#[verifier::external_body]
pub(crate) fn set_remove<K: Eq + Hash>(set: &mut FxHashSet<K>, key: &K) -> (r: bool)
    requires
        obeys_key_model::<K>(),
    ensures
        final(set)@ == old(set)@.remove(*key),
        r == old(set)@.contains(*key),
{
    set.remove(key)
}

/// `HashSet::contains` on a table with Fx hashing: whether the key is in the
/// set.
#[verifier::external_body]
pub(crate) fn set_contains<K: Eq + Hash>(set: &FxHashSet<K>, key: &K) -> (r: bool)
    requires
        obeys_key_model::<K>(),
    ensures
        r == set@.contains(*key),
{
    set.contains(key)
}

/// What a table from texts to slots holds.
pub uninterp spec fn slots(map: FxHashMap<String, usize>) -> Map<Seq<char>, usize>;

/// `HashMap::default` for a table from texts to slots: it holds nothing.
#[verifier::external_body]
pub(crate) fn no_slots() -> (r: FxHashMap<String, usize>)
    ensures
        slots(r).dom() == Set::<Seq<char>>::empty(),
{
    FxHashMap::default()
}

/// `HashMap::get` on a table from texts to slots: the slot of the text, if it
/// has one.
#[verifier::external_body]
pub(crate) fn slot_of(map: &FxHashMap<String, usize>, key: &str) -> (r: Option<usize>)
    ensures
        match r {
            Some(slot) => slots(*map).contains_key(key@) && slot == slots(*map)[key@],
            None => !slots(*map).contains_key(key@),
        },
{
    map.get(key).copied()
}

/// `HashMap::insert` on a table from texts to slots: the text has the slot.
#[verifier::external_body]
pub(crate) fn set_slot(map: &mut FxHashMap<String, usize>, key: String, slot: usize)
    ensures
        slots(*final(map)) == slots(*old(map)).insert(key@, slot),
{
    map.insert(key, slot);
}

/// `HashMap::remove` on a table from texts to slots: the text has no slot any
/// more, and the one it had is returned.
#[verifier::external_body]
pub(crate) fn take_slot(map: &mut FxHashMap<String, usize>, key: &str) -> (r: Option<usize>)
    ensures
        slots(*final(map)) == slots(*old(map)).remove(key@),
        match r {
            Some(slot) => slots(*old(map)).contains_key(key@) && slot == slots(*old(map))[key@],
            None => !slots(*old(map)).contains_key(key@),
        },
{
    map.remove(key)
}

/// What a set of texts holds.
pub uninterp spec fn names(set: FxHashSet<String>) -> Set<Seq<char>>;

/// `HashSet::default` for a set of texts: it holds nothing.
#[verifier::external_body]
pub(crate) fn no_names() -> (r: FxHashSet<String>)
    ensures
        names(r) == Set::<Seq<char>>::empty(),
{
    FxHashSet::default()
}

/// `HashSet::insert` on a set of texts: the text is in the set.
#[verifier::external_body]
pub(crate) fn add_name(set: &mut FxHashSet<String>, name: String)
    ensures
        names(*final(set)) == names(*old(set)).insert(name@),
{
    set.insert(name);
}

/// `HashSet::contains` on a set of texts: whether the text is in it.
#[verifier::external_body]
pub(crate) fn has_name(set: &FxHashSet<String>, name: &str) -> (r: bool)
    ensures
        r == names(*set).contains(name@),
{
    set.contains(name)
}

} // verus!
