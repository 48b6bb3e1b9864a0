//! Short lists that are kept in place until they grow: the `SmallVec` of the
//! `smallvec` crate, for the element types and inline lengths that are used
//! here.

use smallvec::SmallVec;
use vstd::prelude::*;

verus! {

/// Words of a bit set, sixteen of them in place.
#[verifier::external_body]
pub struct Words {
    list: SmallVec<[u64; 16]>,
}

/// The words, in order.
pub uninterp spec fn words(list: Words) -> Seq<u64>;

/// `SmallVec::from_elem` with zero: `n` words, all of them zero.
#[verifier::external_body]
pub(crate) fn zero_words(n: usize) -> (r: Words)
    requires
        n <= usize::MAX / 32,
    ensures
        words(r) == Seq::new(n as nat, |i: int| 0u64),
{
    Words { list: SmallVec::from_elem(0, n) }
}

/// `SmallVec::len`: how many words there are.
#[verifier::external_body]
pub(crate) fn word_count(list: &Words) -> (r: usize)
    ensures
        r == words(*list).len(),
{
    list.list.len()
}

/// Indexing a `SmallVec`: the word at a place.
#[verifier::external_body]
pub(crate) fn word_at(list: &Words, i: usize) -> (r: u64)
    requires
        i < words(*list).len(),
    ensures
        r == words(*list)[i as int],
{
    list.list[i]
}

/// Assigning through the index of a `SmallVec`: the word at a place is the one
/// given, the others stay.
#[verifier::external_body]
pub(crate) fn set_word(list: &mut Words, i: usize, word: u64)
    requires
        i < words(*old(list)).len(),
    ensures
        words(*final(list)) == words(*old(list)).update(i as int, word),
{
    list.list[i] = word;
}

/// `SmallVec::resize` with zero: the list is cut, or filled up with zeros, to
/// `n` words.
#[verifier::external_body]
pub(crate) fn resize_words(list: &mut Words, n: usize)
    requires
        n <= usize::MAX / 32,
    ensures
        words(*final(list)) == if n <= words(*old(list)).len() {
            words(*old(list)).subrange(0, n as int)
        } else {
            words(*old(list)) + Seq::new((n - words(*old(list)).len()) as nat, |i: int| 0u64)
        },
{
    list.list.resize(n, 0);
}

/// Block ids, eight of them in place.
#[verifier::external_body]
#[derive(Debug)]
pub struct Ids {
    list: SmallVec<[usize; 8]>,
}

/// The ids, in order.
pub uninterp spec fn ids(list: Ids) -> Seq<usize>;

/// `SmallVec::from_slice`: the ids of a slice.
#[verifier::external_body]
pub(crate) fn ids_from(slice: &[usize]) -> (r: Ids)
    ensures
        ids(r) == slice@,
{
    Ids { list: SmallVec::from_slice(slice) }
}

/// The slice method `contains`, which a `SmallVec` has from the slice that it
/// derefs to: whether an id is in the list.
#[verifier::external_body]
pub(crate) fn holds_id(list: &Ids, id: usize) -> (r: bool)
    ensures
        r == ids(*list).contains(id),
{
    list.list.contains(&id)
}

/// Packed places within a section, 256 of them in place.
#[verifier::external_body]
#[derive(Debug)]
pub struct Places {
    list: SmallVec<[u16; 256]>,
}

/// The places, in order.
pub uninterp spec fn places(list: Places) -> Seq<u16>;

/// `SmallVec::new`: no place.
#[verifier::external_body]
pub(crate) fn no_places() -> (r: Places)
    ensures
        places(r) == Seq::<u16>::empty(),
{
    Places { list: SmallVec::new() }
}

/// `SmallVec::push`: one more place, at the end.
#[verifier::external_body]
pub(crate) fn push_place(list: &mut Places, place: u16)
    ensures
        places(*final(list)) == places(*old(list)).push(place),
{
    list.list.push(place);
}

/// `SmallVec::to_vec`, which it has from the slice that it derefs to: the
/// places as a vector.
#[verifier::external_body]
pub(crate) fn places_vec(list: &Places) -> (r: Vec<u16>)
    ensures
        r@ == places(*list),
{
    list.list.to_vec()
}

} // verus!
