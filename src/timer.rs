use crate::epoch::Epoch;
use crate::{BlockId, CHALLENGE_LOOKBACK_EPOCHS, SOLUTION_RANGE, TIMESLOTS_PER_EPOCH};
use vstd::prelude::*;

verus! {

/// The sequence of epochs, epoch `i` at position `i`, and the solution range
/// carried into each new epoch.
pub struct EpochTracker {
    pub epochs: Vec<Epoch>,
    pub solution_range: u64,
}

impl EpochTracker {
    /// Every epoch is well formed.
    pub open spec fn wf(&self) -> bool {
        forall|i: int| 0 <= i < self.epochs@.len() ==> (#[trigger] self.epochs@[i]).wf()
    }

    pub fn new() -> (r: Self)
        ensures
            r.wf(),
            r.epochs@.len() == 0,
            r.solution_range == SOLUTION_RANGE,
    {
        EpochTracker { epochs: Vec::new(), solution_range: SOLUTION_RANGE }
    }

    /// Opens the next epoch and closes the one `CHALLENGE_LOOKBACK_EPOCHS`
    /// before it, if that one exists and is still open. Returns the new index.
    pub fn advance_epoch(&mut self) -> (r: u64)
        requires
            old(self).wf(),
            old(self).epochs@.len() < u64::MAX,
        ensures
            final(self).wf(),
            r == old(self).epochs@.len(),
            final(self).epochs@.len() == old(self).epochs@.len() + 1,
            final(self).solution_range == old(self).solution_range,
            !final(self).epochs@[r as int].is_closed,
            final(self).epochs@[r as int].solution_range == old(self).solution_range,
            final(self).epochs@[r as int].randomness@ == crate::crypto::sha256_of(
                crate::block::le8(r),
            ),
            forall|i: int|
                0 <= i < TIMESLOTS_PER_EPOCH ==> (#[trigger] final(self).epochs@[r as int].timeslots@[i])@.len() == 0,
            forall|i: int|
                0 <= i < old(self).epochs@.len() && i != r - CHALLENGE_LOOKBACK_EPOCHS ==> (
                #[trigger] final(self).epochs@[i]) == old(self).epochs@[i],
            r >= CHALLENGE_LOOKBACK_EPOCHS ==> {
                let k = r - CHALLENGE_LOOKBACK_EPOCHS;
                &&& final(self).epochs@[k].is_closed
                &&& old(self).epochs@[k].is_closed ==> final(self).epochs@[k] == old(self).epochs@[k]
                &&& !old(self).epochs@[k].is_closed ==> final(self).epochs@[k].randomness@
                    == crate::crypto::sha256_of(
                    crate::epoch::xor_fold(
                        old(self).epochs@[k].randomness@,
                        crate::epoch::flatten_slots(old(self).epochs@[k].timeslots@),
                    ),
                )
                &&& final(self).epochs@[k].timeslots@ == old(self).epochs@[k].timeslots@
            },
    {
        let index = self.epochs.len() as u64;
        let epoch = Epoch::new(index, self.solution_range);
        self.epochs.push(epoch);
        if index >= CHALLENGE_LOOKBACK_EPOCHS {
            let k = (index - CHALLENGE_LOOKBACK_EPOCHS) as usize;
            if !self.epochs[k].is_closed {
                let mut e = self.epochs.remove(k);
                e.close();
                self.epochs.insert(k, e);
            }
        }
        index
    }

    /// Records a block id in the given epoch at the block's timeslot; an
    /// unknown or closed epoch is left as it is.
    pub fn add_block_to_epoch(&mut self, epoch_index: u64, timeslot: u64, block_id: BlockId)
        requires
            old(self).wf(),
        ensures
            final(self).wf(),
            final(self).solution_range == old(self).solution_range,
            final(self).epochs@.len() == old(self).epochs@.len(),
            forall|i: int|
                0 <= i < old(self).epochs@.len() && i != epoch_index ==> (#[trigger] final(self).epochs@[i]) == old(self).epochs@[i],
            epoch_index < old(self).epochs@.len() ==> {
                let e = old(self).epochs@[epoch_index as int];
                let f = final(self).epochs@[epoch_index as int];
                &&& e.is_closed ==> f == e
                &&& !e.is_closed ==> !f.is_closed && f.randomness == e.randomness && forall|i: int|
                    0 <= i < TIMESLOTS_PER_EPOCH ==> (#[trigger] f.timeslots@[i])@ == if i == (
                    timeslot % TIMESLOTS_PER_EPOCH) as int {
                        e.timeslots@[i]@.push(block_id)
                    } else {
                        e.timeslots@[i]@
                    }
            },
    {
        if epoch_index < self.epochs.len() as u64 {
            let k = epoch_index as usize;
            let mut e = self.epochs.remove(k);
            e.add_block_to_timeslot(timeslot, block_id);
            self.epochs.insert(k, e);
        }
    }

    /// The epoch with this index, if it exists.
    pub fn get_epoch(&self, index: u64) -> (r: Option<&Epoch>)
        ensures
            index < self.epochs@.len() ==> r == Some(&self.epochs@[index as int]),
            index >= self.epochs@.len() ==> r is None,
    {
        if index < self.epochs.len() as u64 {
            Some(&self.epochs[index as usize])
        } else {
            None
        }
    }

    /// The epoch whose randomness the epoch `index` uses: the one
    /// `CHALLENGE_LOOKBACK_EPOCHS` before it, if it exists.
    pub fn get_lookback_epoch(&self, index: u64) -> (r: Option<&Epoch>)
        ensures
            index >= CHALLENGE_LOOKBACK_EPOCHS && index - CHALLENGE_LOOKBACK_EPOCHS
                < self.epochs@.len() ==> r == Some(
                &self.epochs@[index - CHALLENGE_LOOKBACK_EPOCHS],
            ),
            !(index >= CHALLENGE_LOOKBACK_EPOCHS && index - CHALLENGE_LOOKBACK_EPOCHS
                < self.epochs@.len()) ==> r is None,
    {
        if index >= CHALLENGE_LOOKBACK_EPOCHS {
            self.get_epoch(index - CHALLENGE_LOOKBACK_EPOCHS)
        } else {
            None
        }
    }
}

} // verus!
