use crate::block::{le8, push_bytes, push_u64};
use crate::crypto::{digest_sha_256, sha256_of};
use crate::utils::{xor_bytes, xor_seq};
use crate::{BlockId, EpochChallenge, SlotChallenge, TIMESLOTS_PER_EPOCH};
use vstd::prelude::*;

verus! {

/// All block ids of the slot lists, slot by slot, each slot in insertion order.
pub open spec fn flatten_slots(ts: Seq<Vec<BlockId>>) -> Seq<BlockId>
    decreases ts.len(),
{
    if ts.len() == 0 {
        Seq::empty()
    } else {
        flatten_slots(ts.drop_last()) + ts.last()@
    }
}

/// `acc` with every id XORed into it, in order.
pub open spec fn xor_fold(acc: Seq<u8>, ids: Seq<BlockId>) -> Seq<u8>
    decreases ids.len(),
{
    if ids.len() == 0 {
        acc
    } else {
        xor_seq(xor_fold(acc, ids.drop_last()), ids.last()@)
    }
}

/// The challenge of slot `i` of an epoch whose randomness is `randomness`.
pub open spec fn slot_challenge(randomness: Seq<u8>, i: u64) -> Seq<u8> {
    sha256_of(randomness + le8(i))
}

/// The total number of ids in the slot lists.
pub open spec fn total_blocks(ts: Seq<Vec<BlockId>>) -> nat {
    flatten_slots(ts).len()
}

/// One epoch: the blocks seen in each of its timeslots and, once closed, the
/// randomness folded from them and one challenge per timeslot.
#[derive(Debug)]
pub struct Epoch {
    /// has the randomness been derived and the epoch closed?
    pub is_closed: bool,
    /// block ids seen in each timeslot of the epoch, by timeslot index
    pub timeslots: Vec<Vec<BlockId>>,
    /// challenges derived from randomness at closure, one per timeslot
    pub challenges: Vec<SlotChallenge>,
    /// overall randomness for this epoch
    pub randomness: EpochChallenge,
    /// solution range used for this epoch
    pub solution_range: u64,
    /// running sum of the distance from challenge to tag for all blocks in this epoch
    pub total_distance: u128,
}

impl Epoch {
    /// One slot list per timeslot; challenges present exactly when closed, each
    /// the hash of the randomness and the slot index.
    pub open spec fn wf(&self) -> bool {
        &&& self.timeslots@.len() == TIMESLOTS_PER_EPOCH
        &&& self.is_closed ==> self.challenges@.len() == TIMESLOTS_PER_EPOCH
        &&& !self.is_closed ==> self.challenges@.len() == 0
        &&& self.is_closed ==> forall|i: int|
            0 <= i < TIMESLOTS_PER_EPOCH ==> (#[trigger] self.challenges@[i])@ == slot_challenge(
                self.randomness@,
                i as u64,
            )
    }

    /// A new open epoch whose initial randomness is the hash of its index.
    pub fn new(index: u64, solution_range: u64) -> (r: Epoch)
        ensures
            r.wf(),
            !r.is_closed,
            r.randomness@ == sha256_of(le8(index)),
            r.solution_range == solution_range,
            r.total_distance == 0,
            forall|i: int| 0 <= i < TIMESLOTS_PER_EPOCH ==> (#[trigger] r.timeslots@[i])@.len() == 0,
    {
        let index_bytes = vstd::bytes::u64_to_le_bytes(index);
        let randomness = digest_sha_256(index_bytes.as_slice());
        let mut timeslots: Vec<Vec<BlockId>> = Vec::new();
        let mut i: u64 = 0;
        while i < TIMESLOTS_PER_EPOCH
            invariant
                i <= TIMESLOTS_PER_EPOCH,
                timeslots@.len() == i,
                forall|j: int| 0 <= j < i ==> (#[trigger] timeslots@[j])@.len() == 0,
            decreases TIMESLOTS_PER_EPOCH - i,
        {
            timeslots.push(Vec::new());
            i += 1;
        }
        Epoch {
            is_closed: false,
            timeslots,
            challenges: Vec::new(),
            randomness,
            solution_range,
            total_distance: 0,
        }
    }

    /// Number of blocks recorded in the epoch, saturating at `u64::MAX`.
    pub fn get_block_count(&self) -> (r: u64)
        requires
            self.wf(),
        ensures
            r as nat == if total_blocks(self.timeslots@) > u64::MAX {
                u64::MAX as nat
            } else {
                total_blocks(self.timeslots@)
            },
    {
        let mut count: u64 = 0;
        let mut i: usize = 0;
        while i < self.timeslots.len()
            invariant
                i <= self.timeslots@.len(),
                count as nat == if total_blocks(self.timeslots@.subrange(0, i as int)) > u64::MAX {
                    u64::MAX as nat
                } else {
                    total_blocks(self.timeslots@.subrange(0, i as int))
                },
            decreases self.timeslots@.len() - i,
        {
            let n = self.timeslots[i].len() as u64;
            count = count.saturating_add(n);
            proof {
                let pre = self.timeslots@.subrange(0, i as int + 1);
                assert(pre.drop_last() =~= self.timeslots@.subrange(0, i as int));
            }
            i += 1;
        }
        assert(self.timeslots@.subrange(0, i as int) =~= self.timeslots@);
        count
    }

    /// Average solution range of the epoch's blocks; no retargeting rule is
    /// defined, so this is always zero.
    pub fn get_average_range(&self) -> (r: u64)
        ensures
            r == 0,
    {
        0u64
    }

    /// Records a block id at `timeslot % TIMESLOTS_PER_EPOCH`; a closed epoch
    /// is left as it is.
    pub fn add_block_to_timeslot(&mut self, timeslot: u64, block_id: BlockId)
        requires
            old(self).wf(),
        ensures
            final(self).wf(),
            old(self).is_closed ==> *final(self) == *old(self),
            !old(self).is_closed ==> {
                &&& final(self).is_closed == old(self).is_closed
                &&& final(self).randomness == old(self).randomness
                &&& final(self).solution_range == old(self).solution_range
                &&& final(self).total_distance == old(self).total_distance
                &&& final(self).challenges@ == old(self).challenges@
                &&& final(self).timeslots@.len() == old(self).timeslots@.len()
                &&& forall|i: int|
                    0 <= i < TIMESLOTS_PER_EPOCH ==> (#[trigger] final(self).timeslots@[i])@ == if i
                        == (timeslot % TIMESLOTS_PER_EPOCH) as int {
                        old(self).timeslots@[i]@.push(block_id)
                    } else {
                        old(self).timeslots@[i]@
                    }
            },
    {
        if self.is_closed {
            return;
        }
        let idx = (timeslot % TIMESLOTS_PER_EPOCH) as usize;
        let mut slot = self.timeslots.remove(idx);
        slot.push(block_id);
        self.timeslots.insert(idx, slot);
    }

    /// The challenge of the timeslot's slot in this closed epoch.
    pub fn get_challenge_for_timeslot(&self, timeslot: u64) -> (r: SlotChallenge)
        requires
            self.wf(),
            self.is_closed,
        ensures
            r@ == slot_challenge(self.randomness@, timeslot % TIMESLOTS_PER_EPOCH),
            r == self.challenges@[(timeslot % TIMESLOTS_PER_EPOCH) as int],
    {
        let idx = (timeslot % TIMESLOTS_PER_EPOCH) as usize;
        self.challenges[idx]
    }

    /// Folds every block id of the epoch into its randomness by XOR, hashes the
    /// result into the final randomness, derives one challenge per timeslot and
    /// closes the epoch.
    pub fn close(&mut self)
        requires
            old(self).wf(),
            !old(self).is_closed,
        ensures
            final(self).wf(),
            final(self).is_closed,
            final(self).randomness@ == sha256_of(
                xor_fold(old(self).randomness@, flatten_slots(old(self).timeslots@)),
            ),
            final(self).timeslots@ == old(self).timeslots@,
            final(self).solution_range == old(self).solution_range,
            final(self).total_distance == old(self).total_distance,
    {
        let ghost init = self.randomness@;
        let mut acc: [u8; 32] = self.randomness;
        let ghost mut done: Seq<BlockId> = Seq::empty();
        let mut s: usize = 0;
        while s < self.timeslots.len()
            invariant
                s <= self.timeslots@.len(),
                done == flatten_slots(self.timeslots@.subrange(0, s as int)),
                acc@ == xor_fold(init, done),
            decreases self.timeslots@.len() - s,
        {
            let slot = &self.timeslots[s];
            let mut k: usize = 0;
            while k < slot.len()
                invariant
                    k <= slot@.len(),
                    done == flatten_slots(self.timeslots@.subrange(0, s as int)) + slot@.subrange(
                        0,
                        k as int,
                    ),
                    acc@ == xor_fold(init, done),
                decreases slot@.len() - k,
            {
                let id = slot[k];
                xor_bytes(&mut acc, &id);
                proof {
                    let next = done.push(id);
                    assert(next.drop_last() =~= done);
                    done = next;
                    assert(done =~= flatten_slots(self.timeslots@.subrange(0, s as int))
                        + slot@.subrange(0, k as int + 1));
                }
                k += 1;
            }
            proof {
                let pre = self.timeslots@.subrange(0, s as int + 1);
                assert(pre.drop_last() =~= self.timeslots@.subrange(0, s as int));
                assert(slot@.subrange(0, k as int) =~= slot@);
            }
            s += 1;
        }
        assert(self.timeslots@.subrange(0, s as int) =~= self.timeslots@);
        self.randomness = digest_sha_256(acc.as_slice());
        let mut challenges: Vec<SlotChallenge> = Vec::new();
        let mut i: u64 = 0;
        while i < TIMESLOTS_PER_EPOCH
            invariant
                i <= TIMESLOTS_PER_EPOCH,
                challenges@.len() == i,
                forall|j: int|
                    0 <= j < i ==> (#[trigger] challenges@[j])@ == slot_challenge(
                        self.randomness@,
                        j as u64,
                    ),
            decreases TIMESLOTS_PER_EPOCH - i,
        {
            let mut seed: Vec<u8> = Vec::new();
            push_bytes(&mut seed, self.randomness.as_slice());
            push_u64(&mut seed, i);
            challenges.push(digest_sha_256(seed.as_slice()));
            i += 1;
        }
        self.challenges = challenges;
        self.is_closed = true;
    }
}

/// Every closed epoch holds one challenge per timeslot, the hash of the
/// epoch's randomness followed by the slot index in little-endian.
pub proof fn lemma_closed_epoch_challenges(e: &Epoch)
    requires
        e.wf(),
        e.is_closed,
    ensures
        e.challenges@.len() == TIMESLOTS_PER_EPOCH,
        forall|i: int|
            0 <= i < TIMESLOTS_PER_EPOCH ==> (#[trigger] e.challenges@[i])@ == sha256_of(
                e.randomness@ + le8(i as u64),
            ),
{
}

} // verus!
