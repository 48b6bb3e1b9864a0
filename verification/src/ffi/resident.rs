//! Snapshots that stay until the host takes them.

use vstd::prelude::*;

use crate::ffi::status::Status;
use crate::pos::ChunkPos;

verus! {

/// A snapshot of some chunks at a status.
#[derive(Debug)]
pub struct ResidentBatch {
    pub centers: Vec<ChunkPos>,
    pub target: usize,
    pub bytes: Vec<u8>,
}

impl ResidentBatch {
    /// The batch is the one that was asked for.
    pub open spec fn answers(&self, centers: Seq<ChunkPos>, target: usize) -> bool {
        self.centers@ == centers && self.target == target
    }
}

/// The first snapshot listed for a request.
pub open spec fn listed(batches: Seq<ResidentBatch>, centers: Seq<ChunkPos>, target: usize) -> Option<
    Seq<u8>,
>
    decreases batches.len(),
{
    if batches.len() == 0 {
        None
    } else if batches[0].answers(centers, target) {
        Some(batches[0].bytes@)
    } else {
        listed(batches.drop_first(), centers, target)
    }
}

/// Nothing is listed for a request that no batch answers.
proof fn lemma_unlisted(batches: Seq<ResidentBatch>, centers: Seq<ChunkPos>, target: usize)
    requires
        forall|i: int|
            0 <= i < batches.len() ==> !(#[trigger] batches[i]).answers(centers, target),
    ensures
        listed(batches, centers, target) is None,
    decreases batches.len(),
{
    if batches.len() > 0 {
        assert(!batches[0].answers(centers, target));
        assert forall|i: int| 0 <= i < batches.drop_first().len() implies !(
        #[trigger] batches.drop_first()[i]).answers(centers, target) by {
            assert(batches.drop_first()[i] == batches[i + 1]);
        }
        lemma_unlisted(batches.drop_first(), centers, target);
    }
}

/// The first batch that answers a request is the one that is listed.
proof fn lemma_listed(batches: Seq<ResidentBatch>, centers: Seq<ChunkPos>, target: usize, at: int)
    requires
        0 <= at < batches.len(),
        batches[at].answers(centers, target),
        forall|i: int| 0 <= i < at ==> !(#[trigger] batches[i]).answers(centers, target),
    ensures
        listed(batches, centers, target) == Some(batches[at].bytes@),
    decreases batches.len(),
{
    if at > 0 {
        assert(!batches[0].answers(centers, target));
        let rest = batches.drop_first();
        assert(rest[at - 1] == batches[at]);
        assert forall|i: int| 0 <= i < at - 1 implies !(#[trigger] rest[i]).answers(
            centers,
            target,
        ) by {
            assert(rest[i] == batches[i + 1]);
        }
        lemma_listed(rest, centers, target, at - 1);
    }
}

/// What is listed for a request does not depend on a batch that does not answer
/// it.
proof fn lemma_removed(batches: Seq<ResidentBatch>, centers: Seq<ChunkPos>, target: usize, at: int)
    requires
        0 <= at < batches.len(),
        !batches[at].answers(centers, target),
    ensures
        listed(batches.remove(at), centers, target) == listed(batches, centers, target),
    decreases batches.len(),
{
    let left = batches.remove(at);
    if at == 0 {
        assert(left =~= batches.drop_first());
    } else {
        assert(left[0] == batches[0]);
        assert(left.drop_first() =~= batches.drop_first().remove(at - 1));
        assert(batches.drop_first()[at - 1] == batches[at]);
        lemma_removed(batches.drop_first(), centers, target, at - 1);
    }
}

/// Whether two lists of positions are the same.
fn same_positions(a: &Vec<ChunkPos>, b: &Vec<ChunkPos>) -> (r: bool)
    ensures
        r == (a@ == b@),
{
    if a.len() != b.len() {
        return false;
    }
    let mut i: usize = 0;
    while i < a.len()
        invariant
            i <= a@.len() == b@.len(),
            forall|k: int| 0 <= k < i ==> a@[k] == b@[k],
        decreases a@.len() - i,
    {
        if a[i] != b[i] {
            assert(a@[i as int] != b@[i as int]);
            return false;
        }
        i += 1;
    }
    assert(a@ =~= b@);
    true
}

/// The snapshots of a world that did not fit the buffers they were asked for
/// with.
#[derive(Debug)]
pub struct ResidentBatches {
    batches: Vec<ResidentBatch>,
}

impl ResidentBatches {
    /// The snapshot that stays for a request.
    pub closed spec fn kept(&self, centers: Seq<ChunkPos>, target: usize) -> Option<Seq<u8>> {
        listed(self.batches@, centers, target)
    }

    /// Nothing stays.
    pub fn new() -> (r: Self)
        ensures
            forall|centers: Seq<ChunkPos>, target: usize| #[trigger]
                r.kept(centers, target) is None,
    {
        ResidentBatches { batches: Vec::new() }
    }

    /// The snapshot that answers a request without generating anything, if one
    /// stays.
    pub fn find(&self, centers: &Vec<ChunkPos>, target: usize) -> (r: Option<&Vec<u8>>)
        ensures
            match r {
                Some(bytes) => self.kept(centers@, target) == Some(bytes@),
                None => self.kept(centers@, target) is None,
            },
    {
        let mut i: usize = 0;
        while i < self.batches.len()
            invariant
                i <= self.batches@.len(),
                forall|k: int|
                    0 <= k < i ==> !(#[trigger] self.batches@[k]).answers(centers@, target),
            decreases self.batches@.len() - i,
        {
            let batch = &self.batches[i];
            if batch.target == target && same_positions(&batch.centers, centers) {
                proof {
                    lemma_listed(self.batches@, centers@, target, i as int);
                }
                return Some(&batch.bytes);
            }
            i += 1;
        }
        proof {
            lemma_unlisted(self.batches@, centers@, target);
        }
        None
    }

    /// Drops the snapshots that answer a request.
    fn forget(&mut self, centers: &Vec<ChunkPos>, target: usize)
        ensures
            final(self).kept(centers@, target) is None,
            forall|c: Seq<ChunkPos>, t: usize|
                c != centers@ || t != target ==> #[trigger] final(self).kept(c, t) == old(
                    self,
                ).kept(c, t),
    {
        let ghost before = self.batches@;
        let mut i: usize = 0;
        while i < self.batches.len()
            invariant
                i <= self.batches@.len(),
                forall|k: int|
                    0 <= k < i ==> !(#[trigger] self.batches@[k]).answers(centers@, target),
                forall|c: Seq<ChunkPos>, t: usize|
                    c != centers@ || t != target ==> #[trigger] listed(self.batches@, c, t)
                        == listed(before, c, t),
            decreases self.batches@.len() - i,
        {
            if self.batches[i].target == target && same_positions(
                &self.batches[i].centers,
                centers,
            ) {
                let ghost there = self.batches@;
                self.batches.remove(i);
                proof {
                    assert(self.batches@ == there.remove(i as int));
                    assert forall|c: Seq<ChunkPos>, t: usize|
                        c != centers@ || t != target implies #[trigger] listed(self.batches@, c, t)
                        == listed(before, c, t) by {
                        lemma_removed(there, c, t, i as int);
                    }
                }
            } else {
                i += 1;
            }
        }
        proof {
            lemma_unlisted(self.batches@, centers@, target);
        }
    }

    /// Takes note of how a request was answered: a snapshot that did not fit
    /// stays, one that was handed over leaves.
    pub fn settle(&mut self, centers: Vec<ChunkPos>, target: usize, bytes: Vec<u8>, status: Status)
        ensures
            final(self).kept(centers@, target) == after_reply(
                old(self).kept(centers@, target),
                bytes@,
                status,
            ),
            forall|c: Seq<ChunkPos>, t: usize|
                c != centers@ || t != target ==> #[trigger] final(self).kept(c, t) == old(
                    self,
                ).kept(c, t),
    {
        match status {
            Status::BufferTooSmall => {
                self.forget(&centers, target);
                let ghost left = *self;
                self.batches.insert(0, ResidentBatch { centers, target, bytes });
                proof {
                    assert(self.batches@.drop_first() =~= left.batches@);
                    assert forall|c: Seq<ChunkPos>, t: usize|
                        c != centers@ || t != target implies #[trigger] self.kept(c, t) == old(
                        self,
                    ).kept(c, t) by {
                        assert(!self.batches@[0].answers(c, t));
                        assert(left.kept(c, t) == old(self).kept(c, t));
                    }
                }
            },
            Status::Success => {
                self.forget(&centers, target);
            },
            _ => {},
        }
    }
}

/// What stays for a request once it was answered, given what stayed before.
pub open spec fn after_reply(kept: Option<Seq<u8>>, bytes: Seq<u8>, status: Status) -> Option<
    Seq<u8>,
> {
    match status {
        Status::BufferTooSmall => Some(bytes),
        Status::Success => None,
        _ => kept,
    }
}

/// A request that is made again after its buffer was too small finds the
/// snapshot that it was told the size of, whatever other requests were answered
/// in between: nothing is generated again.
///
/// `states` are the snapshots that stayed from that reply on, one reply apart.
pub proof fn a_retried_batch_is_not_generated_again(
    states: Seq<ResidentBatches>,
    centers: Seq<ChunkPos>,
    target: usize,
    before: Option<Seq<u8>>,
    bytes: Seq<u8>,
)
    requires
        states.len() > 0,
        states[0].kept(centers, target) == after_reply(before, bytes, Status::BufferTooSmall),
        forall|i: int|
            0 < i < states.len() ==> (#[trigger] states[i]).kept(centers, target) == states[i
                - 1].kept(centers, target),
    ensures
        states.last().kept(centers, target) == Some(bytes),
    decreases states.len(),
{
    if states.len() > 1 {
        let earlier = states.drop_last();
        assert forall|i: int| 0 < i < earlier.len() implies (#[trigger] earlier[i]).kept(
            centers,
            target,
        ) == earlier[i - 1].kept(centers, target) by {
            assert(states[i].kept(centers, target) == states[i - 1].kept(centers, target));
        }
        a_retried_batch_is_not_generated_again(earlier, centers, target, before, bytes);
        assert(earlier.last() == states[states.len() - 2]);
    }
}

} // verus!
