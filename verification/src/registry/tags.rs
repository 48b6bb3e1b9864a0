//! Tags: named lists of a registry's entries.

use rustc_hash::{FxHashMap, FxHashSet};
use vstd::prelude::*;

use crate::fx;
use crate::text;

verus! {

/// One tag: its members in order, and as a set.
#[derive(Debug)]
pub struct RegistryTag {
    name: String,
    ordered_keys: Vec<String>,
    /// Registry ids of the members, resolved on first use and only once the
    /// registry is frozen: registering an entry whose key is already taken
    /// moves the key to a new id.
    resolved_ids: Option<Vec<usize>>,
    member_keys: FxHashSet<String>,
}

impl RegistryTag {
    /// The set holds exactly the members.
    closed spec fn well_formed(&self) -> bool {
        forall|key: Seq<char>| #[trigger]
            fx::names(self.member_keys).contains(key) <==> text::texts(self.ordered_keys@).contains(
                key,
            )
    }

    fn new(name: String, ordered_keys: Vec<String>) -> (r: Self)
        ensures
            r.well_formed(),
            r.name == name,
            r.ordered_keys == ordered_keys,
            r.resolved_ids is None,
    {
        let mut member_keys = fx::no_names();
        let mut i: usize = 0;
        while i < ordered_keys.len()
            invariant
                i <= ordered_keys@.len(),
                forall|key: Seq<char>| #[trigger]
                    fx::names(member_keys).contains(key) <==> exists|k: int|
                        0 <= k < i && #[trigger] text::texts(ordered_keys@)[k] == key,
            decreases ordered_keys@.len() - i,
        {
            let ghost before = fx::names(member_keys);
            fx::add_name(&mut member_keys, ordered_keys[i].clone());
            proof {
                let all = text::texts(ordered_keys@);
                assert(all[i as int] == ordered_keys@[i as int]@);
                assert forall|key: Seq<char>| #[trigger]
                    fx::names(member_keys).contains(key) <==> exists|k: int|
                        0 <= k < i + 1 && #[trigger] all[k] == key by {
                    assert(before.contains(key) <==> exists|k: int|
                        0 <= k < i && #[trigger] all[k] == key);
                }
            }
            i += 1;
        }
        let r = RegistryTag { name, ordered_keys, resolved_ids: None, member_keys };
        proof {
            let all = text::texts(r.ordered_keys@);
            assert forall|key: Seq<char>| #[trigger]
                fx::names(r.member_keys).contains(key) <==> all.contains(key) by {
                if all.contains(key) {
                    let k = choose|k: int| 0 <= k < all.len() && all[k] == key;
                    assert(all[k] == key);
                }
            }
        }
        r
    }
}

/// The ids that are there, in order.
pub open spec fn known_ids(ids: Seq<Option<usize>>) -> Seq<usize>
    decreases ids.len(),
{
    if ids.len() == 0 {
        Seq::empty()
    } else {
        let before = known_ids(ids.drop_last());
        match ids.last() {
            Some(id) => before.push(id),
            None => before,
        }
    }
}

/// What a lookup may answer for a key.
pub open spec fn may_answer<F: Fn(&str) -> Option<usize>>(
    id_of: F,
    key: Seq<char>,
    answer: Option<usize>,
) -> bool {
    exists|text: &str| text@ == key && #[trigger] call_ensures(id_of, (text,), answer)
}

/// What a lookup may answer for each of some keys.
pub open spec fn may_answer_all<F: Fn(&str) -> Option<usize>>(
    id_of: F,
    keys: Seq<Seq<char>>,
    answers: Seq<Option<usize>>,
) -> bool {
    &&& answers.len() == keys.len()
    &&& forall|i: int| 0 <= i < keys.len() ==> may_answer(id_of, #[trigger] keys[i], answers[i])
}

/// A lookup takes each of some keys.
pub open spec fn takes_all<F: Fn(&str) -> Option<usize>>(id_of: F, keys: Seq<Seq<char>>) -> bool {
    forall|text: &str| keys.contains(text@) ==> #[trigger] call_requires(id_of, (text,))
}

/// Looks up each key, in order, and leaves out those without an id.
fn resolve<F: Fn(&str) -> Option<usize>>(keys: &Vec<String>, id_of: F) -> (r: Vec<usize>)
    requires
        takes_all(id_of, text::texts(keys@)),
    ensures
        exists|answers: Seq<Option<usize>>| #[trigger]
            may_answer_all(id_of, text::texts(keys@), answers) && r@ == known_ids(answers),
{
    let ghost all = text::texts(keys@);
    let ghost mut answers: Seq<Option<usize>> = Seq::empty();
    let mut ids: Vec<usize> = Vec::new();
    let mut i: usize = 0;
    while i < keys.len()
        invariant
            i <= keys@.len(),
            all == text::texts(keys@),
            takes_all(id_of, all),
            answers.len() == i,
            forall|k: int| 0 <= k < i ==> may_answer(id_of, #[trigger] all[k], answers[k]),
            ids@ == known_ids(answers),
        decreases keys@.len() - i,
    {
        let key = keys[i].as_str();
        assert(all[i as int] == key@);
        let answer = id_of(key);
        proof {
            assert(may_answer(id_of, all[i as int], answer));
            assert(answers.push(answer).drop_last() =~= answers);
            answers = answers.push(answer);
        }
        if let Some(id) = answer {
            ids.push(id);
        }
        i += 1;
    }
    assert(may_answer_all(id_of, all, answers));
    ids
}

/// The tags of a registry.
#[derive(Debug)]
pub struct RegistryTags {
    tags: FxHashMap<String, usize>,
    entries: Vec<Option<RegistryTag>>,
}

impl RegistryTags {
    /// There is a tag of this name.
    pub closed spec fn has(&self, tag: Seq<char>) -> bool {
        fx::slots(self.tags).contains_key(tag)
    }

    /// The members of a tag, in order.
    pub closed spec fn members(&self, tag: Seq<char>) -> Seq<Seq<char>> {
        text::texts(self.entries@[fx::slots(self.tags)[tag] as int]->0.ordered_keys@)
    }

    /// The ids of a tag's members, once they were resolved.
    pub closed spec fn resolved(&self, tag: Seq<char>) -> Option<Seq<usize>> {
        match self.entries@[fx::slots(self.tags)[tag] as int]->0.resolved_ids {
            Some(ids) => Some(ids@),
            None => None,
        }
    }

    /// Every name leads to the entry of that name, and every entry is led to.
    pub closed spec fn well_formed(&self) -> bool {
        &&& forall|tag: Seq<char>| #[trigger]
            fx::slots(self.tags).contains_key(tag) ==> {
                let slot = fx::slots(self.tags)[tag] as int;
                &&& 0 <= slot < self.entries@.len()
                &&& self.entries@[slot] is Some
                &&& self.entries@[slot]->0.name@ == tag
                &&& self.entries@[slot]->0.well_formed()
            }
        &&& forall|slot: int|
            0 <= slot < self.entries@.len() && (#[trigger] self.entries@[slot]) is Some
                ==> fx::slots(self.tags).contains_key(self.entries@[slot]->0.name@)
                && fx::slots(self.tags)[self.entries@[slot]->0.name@] == slot
    }

    /// No tags.
    pub fn new() -> (r: Self)
        ensures
            r.well_formed(),
            forall|tag: Seq<char>| !#[trigger] r.has(tag),
    {
        RegistryTags { tags: fx::no_slots(), entries: Vec::new() }
    }

    /// Sets the members of a tag, whether there was one of the name or not.
    pub fn insert(&mut self, tag: String, ordered_keys: Vec<String>)
        requires
            old(self).well_formed(),
        ensures
            final(self).well_formed(),
            forall|other: Seq<char>| #[trigger]
                final(self).has(other) <==> old(self).has(other) || other == tag@,
            final(self).members(tag@) == text::texts(ordered_keys@),
            final(self).resolved(tag@) is None,
            forall|other: Seq<char>|
                old(self).has(other) && other != tag@ ==> #[trigger] final(self).members(other)
                    == old(self).members(other) && final(self).resolved(other) == old(
                    self).resolved(other),
    {
        let ghost name = tag@;
        let entry = RegistryTag::new(tag.clone(), ordered_keys);
        match fx::slot_of(&self.tags, tag.as_str()) {
            Some(slot) => {
                self.entries.set(slot, Some(entry));
                proof {
                    assert forall|other: Seq<char>| #[trigger]
                        fx::slots(self.tags).contains_key(other) implies {
                        let at = fx::slots(self.tags)[other] as int;
                        &&& 0 <= at < self.entries@.len()
                        &&& self.entries@[at] is Some
                        &&& self.entries@[at]->0.name@ == other
                        &&& self.entries@[at]->0.well_formed()
                    } by {
                        assert(fx::slots(old(self).tags).contains_key(other));
                    }
                }
            },
            None => {
                let slot: usize = self.entries.len();
                self.entries.push(Some(entry));
                fx::set_slot(&mut self.tags, tag, slot);
                proof {
                    assert forall|other: Seq<char>| #[trigger]
                        fx::slots(self.tags).contains_key(other) implies {
                        let at = fx::slots(self.tags)[other] as int;
                        &&& 0 <= at < self.entries@.len()
                        &&& self.entries@[at] is Some
                        &&& self.entries@[at]->0.name@ == other
                        &&& self.entries@[at]->0.well_formed()
                    } by {
                        if other != name {
                            assert(fx::slots(old(self).tags).contains_key(other));
                        }
                    }
                    assert forall|at: int|
                        0 <= at < self.entries@.len() && (
                        #[trigger] self.entries@[at]) is Some implies fx::slots(
                        self.tags,
                    ).contains_key(self.entries@[at]->0.name@) && fx::slots(
                        self.tags,
                    )[self.entries@[at]->0.name@] == at by {
                        if at < slot {
                            assert(self.entries@[at] == old(self).entries@[at]);
                        }
                    }
                }
            },
        }
        proof {
            assert forall|other: Seq<char>|
                old(self).has(other) && other != name implies #[trigger] self.members(other)
                == old(self).members(other) && self.resolved(other) == old(self).resolved(
                other,
            ) by {
                assert(fx::slots(old(self).tags).contains_key(other));
            }
        }
    }

    /// Takes a tag out and returns its members.
    pub fn remove(&mut self, tag: &str) -> (r: Option<Vec<String>>)
        requires
            old(self).well_formed(),
        ensures
            final(self).well_formed(),
            match r {
                None => !old(self).has(tag@),
                Some(keys) => old(self).has(tag@) && text::texts(keys@) == old(self).members(tag@),
            },
            forall|other: Seq<char>| #[trigger]
                final(self).has(other) <==> old(self).has(other) && other != tag@,
            forall|other: Seq<char>|
                old(self).has(other) && other != tag@ ==> #[trigger] final(self).members(other)
                    == old(self).members(other) && final(self).resolved(other) == old(
                    self).resolved(other),
    {
        match fx::take_slot(&mut self.tags, tag) {
            None => None,
            Some(slot) => {
                let mut taken: Option<RegistryTag> = None;
                std::mem::swap(&mut taken, &mut self.entries[slot]);
                proof {
                    assert forall|other: Seq<char>| #[trigger]
                        fx::slots(self.tags).contains_key(other) implies {
                        let at = fx::slots(self.tags)[other] as int;
                        &&& 0 <= at < self.entries@.len()
                        &&& self.entries@[at] is Some
                        &&& self.entries@[at]->0.name@ == other
                        &&& self.entries@[at]->0.well_formed()
                    } by {
                        assert(fx::slots(old(self).tags).contains_key(other));
                    }
                    assert forall|at: int|
                        0 <= at < self.entries@.len() && (
                        #[trigger] self.entries@[at]) is Some implies fx::slots(
                        self.tags,
                    ).contains_key(self.entries@[at]->0.name@) && fx::slots(
                        self.tags,
                    )[self.entries@[at]->0.name@] == at by {
                        assert(self.entries@[at] == old(self).entries@[at]);
                    }
                    assert forall|other: Seq<char>|
                        old(self).has(other) && other != tag@ implies #[trigger] self.members(other)
                        == old(self).members(other) && self.resolved(other) == old(self).resolved(other) by {
                        assert(fx::slots(old(self).tags).contains_key(other));
                    }
                }
                let entry = taken.unwrap();
                Some(entry.ordered_keys)
            },
        }
    }

    /// Whether a tag has a member.
    #[must_use]
    pub fn contains(&self, tag: &str, entry_key: &str) -> (r: bool)
        requires
            self.well_formed(),
        ensures
            r == (self.has(tag@) && self.members(tag@).contains(entry_key@)),
    {
        match fx::slot_of(&self.tags, tag) {
            None => false,
            Some(slot) => {
                assert(self.entries@[slot as int]->0.well_formed());
                match &self.entries[slot] {
                    None => false,
                    Some(entry) => fx::has_name(&entry.member_keys, entry_key),
                }
            },
        }
    }

    /// The members of a tag, in order.
    #[must_use]
    pub fn get(&self, tag: &str) -> (r: Option<&[String]>)
        requires
            self.well_formed(),
        ensures
            match r {
                None => !self.has(tag@),
                Some(keys) => self.has(tag@) && text::texts(keys@) == self.members(tag@),
            },
    {
        match fx::slot_of(&self.tags, tag) {
            None => None,
            Some(slot) => {
                assert(self.entries@[slot as int]->0.well_formed());
                match &self.entries[slot] {
                    None => None,
                    Some(entry) => Some(entry.ordered_keys.as_slice()),
                }
            },
        }
    }

    /// Registry ids of a tag's members, once they were resolved.
    fn resolved_ids(&self, tag: &str, frozen: bool) -> (r: Option<&[usize]>)
        requires
            self.well_formed(),
        ensures
            match r {
                None => !frozen || !self.has(tag@) || self.resolved(tag@) is None,
                Some(ids) => frozen && self.has(tag@) && self.resolved(tag@) == Some(ids@),
            },
    {
        if !frozen {
            return None;
        }
        match fx::slot_of(&self.tags, tag) {
            None => None,
            Some(slot) => {
                assert(self.entries@[slot as int]->0.well_formed());
                match &self.entries[slot] {
                    None => None,
                    Some(entry) => match &entry.resolved_ids {
                        None => None,
                        Some(ids) => Some(ids.as_slice()),
                    },
                }
            },
        }
    }

    /// Registry ids of a tag's members, in their order, resolving and memoizing
    /// them on first use once the registry is frozen; members without an id are
    /// left out.
    ///
    /// Returns `None` while the registry still allows registering, because a
    /// later duplicate-key registration would move a member to a new id.
    pub fn ids<F: Fn(&str) -> Option<usize>>(&mut self, tag: &str, frozen: bool, id_of: F) -> (r:
        Option<&[usize]>)
        requires
            old(self).well_formed(),
            frozen && old(self).has(tag@) && old(self).resolved(tag@) is None ==> takes_all(
                id_of,
                old(self).members(tag@),
            ),
        ensures
            final(self).well_formed(),
            forall|other: Seq<char>| #[trigger] final(self).has(other) <==> old(self).has(other),
            forall|other: Seq<char>|
                old(self).has(other) ==> #[trigger] final(self).members(other) == old(
                    self).members(other),
            forall|other: Seq<char>|
                old(self).has(other) && (other != tag@ || !frozen) ==> #[trigger] final(
                    self).resolved(other) == old(self).resolved(other),
            match r {
                None => !frozen || !old(self).has(tag@),
                Some(ids) => {
                    &&& frozen
                    &&& old(self).has(tag@)
                    &&& final(self).resolved(tag@) == Some(ids@)
                    &&& match old(self).resolved(tag@) {
                        Some(before) => ids@ == before,
                        None => exists|answers: Seq<Option<usize>>| #[trigger]
                            may_answer_all(id_of, old(self).members(tag@), answers) && ids@
                                == known_ids(answers),
                    }
                },
            },
    {
        self.resolve_ids(tag, frozen, id_of);
        self.resolved_ids(tag, frozen)
    }

    /// Keeps the ids of a tag's members, in their order; members without an id
    /// are left out. Ids that were kept before stay, and nothing is kept before
    /// the registry is frozen.
    fn resolve_ids<F: Fn(&str) -> Option<usize>>(&mut self, tag: &str, frozen: bool, id_of: F)
        requires
            old(self).well_formed(),
            frozen && old(self).has(tag@) && old(self).resolved(tag@) is None ==> takes_all(
                id_of,
                old(self).members(tag@),
            ),
        ensures
            final(self).well_formed(),
            forall|other: Seq<char>| #[trigger] final(self).has(other) <==> old(self).has(other),
            forall|other: Seq<char>|
                old(self).has(other) ==> #[trigger] final(self).members(other) == old(
                    self).members(other),
            forall|other: Seq<char>|
                old(self).has(other) && other != tag@ ==> #[trigger] final(self).resolved(other)
                    == old(self).resolved(other),
            old(self).has(tag@) ==> if !frozen || old(self).resolved(tag@) is Some {
                final(self).resolved(tag@) == old(self).resolved(tag@)
            } else {
                exists|answers: Seq<Option<usize>>| #[trigger]
                    may_answer_all(id_of, old(self).members(tag@), answers) && final(
                        self).resolved(tag@) == Some(known_ids(answers))
            },
    {
        if !frozen {
            return ;
        }
        match fx::slot_of(&self.tags, tag) {
            None => {},
            Some(slot) => {
                assert(self.entries@[slot as int]->0.well_formed());
                let mut taken: Option<RegistryTag> = None;
                std::mem::swap(&mut taken, &mut self.entries[slot]);
                let mut entry = taken.unwrap();
                if entry.resolved_ids.is_none() {
                    let ids = resolve(&entry.ordered_keys, id_of);
                    entry.resolved_ids = Some(ids);
                }
                self.entries.set(slot, Some(entry));
                proof {
                    assert forall|other: Seq<char>| #[trigger]
                        fx::slots(self.tags).contains_key(other) implies {
                        let at = fx::slots(self.tags)[other] as int;
                        &&& 0 <= at < self.entries@.len()
                        &&& self.entries@[at] is Some
                        &&& self.entries@[at]->0.name@ == other
                        &&& self.entries@[at]->0.well_formed()
                    } by {
                        assert(fx::slots(old(self).tags).contains_key(other));
                    }
                    assert forall|at: int|
                        0 <= at < self.entries@.len() && (
                        #[trigger] self.entries@[at]) is Some implies fx::slots(
                        self.tags,
                    ).contains_key(self.entries@[at]->0.name@) && fx::slots(
                        self.tags,
                    )[self.entries@[at]->0.name@] == at by {
                        if at != slot {
                            assert(self.entries@[at] == old(self).entries@[at]);
                        } else {
                            assert(old(self).entries@[at] is Some);
                        }
                    }
                    assert forall|other: Seq<char>| old(self).has(other) implies #[trigger]
                    self.members(other) == old(self).members(other) by {
                        assert(fx::slots(old(self).tags).contains_key(other));
                    }
                    assert forall|other: Seq<char>|
                        old(self).has(other) && other != tag@ implies #[trigger] self.resolved(
                        other,
                    ) == old(self).resolved(other) by {
                        assert(fx::slots(old(self).tags).contains_key(other));
                    }
                }
            },
        }
    }

    /// The names of the tags.
    pub fn keys(&self) -> (r: Vec<String>)
        requires
            self.well_formed(),
        ensures
            text::texts(r@).no_duplicates(),
            forall|tag: Seq<char>| #[trigger] text::texts(r@).contains(tag) <==> self.has(tag),
    {
        let mut r: Vec<String> = Vec::new();
        let mut slot: usize = 0;
        while slot < self.entries.len()
            invariant
                self.well_formed(),
                slot <= self.entries@.len(),
                text::texts(r@).no_duplicates(),
                forall|tag: Seq<char>| #[trigger]
                    text::texts(r@).contains(tag) <==> self.has(tag) && fx::slots(self.tags)[tag]
                        < slot,
            decreases self.entries@.len() - slot,
        {
            let ghost before = text::texts(r@);
            if let Some(entry) = &self.entries[slot] {
                r.push(entry.name.clone());
                proof {
                    let now = text::texts(r@);
                    let name = entry.name@;
                    assert(now =~= before.push(name));
                    assert(!before.contains(name));
                    assert forall|tag: Seq<char>| #[trigger] now.contains(tag) <==> self.has(tag)
                        && fx::slots(self.tags)[tag] < slot + 1 by {
                        if now.contains(tag) {
                            let k = choose|k: int| 0 <= k < now.len() && now[k] == tag;
                            if k < before.len() {
                                assert(before[k] == tag);
                                assert(before.contains(tag));
                            }
                        }
                        if self.has(tag) && fx::slots(self.tags)[tag] < slot + 1 {
                            assert(fx::slots(self.tags).contains_key(tag));
                            if fx::slots(self.tags)[tag] < slot {
                                assert(before.contains(tag));
                                let k = choose|k: int| 0 <= k < before.len() && before[k] == tag;
                                assert(now[k] == tag);
                            } else {
                                assert(now[before.len() as int] == tag);
                            }
                        }
                    }
                }
            } else {
                proof {
                    assert forall|tag: Seq<char>| #[trigger] before.contains(tag) <==> self.has(tag)
                        && fx::slots(self.tags)[tag] < slot + 1 by {
                        if self.has(tag) {
                            assert(fx::slots(self.tags).contains_key(tag));
                        }
                    }
                }
            }
            slot += 1;
        }
        proof {
            assert forall|tag: Seq<char>| #[trigger] text::texts(r@).contains(tag) <==> self.has(
                tag,
            ) by {
                if self.has(tag) {
                    assert(fx::slots(self.tags).contains_key(tag));
                }
            }
        }
        r
    }
}

/// Where a lookup goes by the key alone, so do the ids: each member's, in their
/// order.
pub proof fn a_lookup_by_key_decides_the_ids<F: Fn(&str) -> Option<usize>>(
    id_of: F,
    id: spec_fn(Seq<char>) -> Option<usize>,
    keys: Seq<Seq<char>>,
    answers: Seq<Option<usize>>,
)
    requires
        forall|text: &str, answer: Option<usize>| #[trigger]
            call_ensures(id_of, (text,), answer) ==> answer == id(text@),
        may_answer_all(id_of, keys, answers),
    ensures
        answers == keys.map_values(id),
{
    assert forall|i: int| 0 <= i < keys.len() implies answers[i] == id(keys[i]) by {
        assert(may_answer(id_of, keys[i], answers[i]));
    }
    assert(answers =~= keys.map_values(id));
}

/// A member with an id adds it behind those before it; one without an id adds
/// nothing.
pub proof fn members_without_an_id_are_left_out(ids: Seq<Option<usize>>, id: usize)
    ensures
        known_ids(Seq::empty()) == Seq::<usize>::empty(),
        known_ids(ids.push(Some(id))) == known_ids(ids).push(id),
        known_ids(ids.push(None)) == known_ids(ids),
{
    assert(ids.push(Some(id)).drop_last() =~= ids);
    assert(ids.push(None).drop_last() =~= ids);
}

} // verus!
