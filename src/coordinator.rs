use crate::block::{Block, CreditTx, Transaction};
use crate::crypto::{signature_valid, verify_signature};
use crate::farmer::Solution;
use crate::ledger::{
    append_block, arrival_step, early_list, staged, classify_arrival, forks_unchanged, spec_arrival, AccountState,
    Arrival, Ledger,
};
use crate::ContentId;
use crate::store::IdMap;
use crate::{
    NodeError, SlotChallenge, TxId, CHALLENGE_LOOKBACK_EPOCHS, TIMESLOTS_PER_EPOCH,
    TIMESLOT_DURATION,
};
use vstd::prelude::*;

verus! {

/// The audit the farmer is to run for one timeslot.
#[derive(Clone, Copy, Debug)]
pub struct SlotTask {
    pub epoch_index: u64,
    pub timeslot: u64,
    pub challenge: SlotChallenge,
    pub randomness: [u8; 32],
    pub solution_range: u64,
}

/// The audit of timeslot `ts`: its epoch's lookback epoch must be closed, and
/// gives the randomness and the timeslot's challenge.
pub open spec fn task_for(l: &Ledger, ts: u64) -> Option<SlotTask> {
    let e = ts / TIMESLOTS_PER_EPOCH;
    if e >= CHALLENGE_LOOKBACK_EPOCHS && e - CHALLENGE_LOOKBACK_EPOCHS < l.epoch_tracker.epochs@.len()
        && l.epoch_tracker.epochs@[e - CHALLENGE_LOOKBACK_EPOCHS].is_closed {
        let ep = l.epoch_tracker.epochs@[e - CHALLENGE_LOOKBACK_EPOCHS];
        Some(
            SlotTask {
                epoch_index: e,
                timeslot: ts,
                challenge: ep.challenges@[(ts % TIMESLOTS_PER_EPOCH) as int],
                randomness: ep.randomness,
                solution_range: l.epoch_tracker.solution_range,
            },
        )
    } else {
        None
    }
}

/// The audit of a timeslot, if its lookback epoch is closed.
pub fn slot_task(l: &Ledger, ts: u64) -> (r: Option<SlotTask>)
    requires
        l.epoch_tracker.wf(),
    ensures
        r == task_for(l, ts),
{
    let e = ts / TIMESLOTS_PER_EPOCH;
    match l.epoch_tracker.get_lookback_epoch(e) {
        Some(ep) => {
            if !ep.is_closed {
                return None;
            }
            proof {
                assert(l.epoch_tracker.epochs@[e - CHALLENGE_LOOKBACK_EPOCHS].wf());
            }
            Some(
                SlotTask {
                    epoch_index: e,
                    timeslot: ts,
                    challenge: ep.get_challenge_for_timeslot(ts),
                    randomness: ep.randomness,
                    solution_range: l.epoch_tracker.solution_range,
                },
            )
        },
        None => None,
    }
}

/// Opens the next epoch if timeslot `ts` belongs to an epoch that is not
/// open yet.
fn open_epoch_for(l: &mut Ledger, ts: u64)
    requires
        old(l).wf(),
    ensures
        final(l).wf(),
        old(l).epoch_tracker.epochs@.len() <= ts / TIMESLOTS_PER_EPOCH && old(l).epoch_tracker.epochs@.len() < usize::MAX
            ==> final(l).epoch_tracker.epochs@.len() == old(l).epoch_tracker.epochs@.len() + 1,
        !(old(l).epoch_tracker.epochs@.len() <= ts / TIMESLOTS_PER_EPOCH) ==> *final(l) == *old(l),
        final(l).current_timeslot == old(l).current_timeslot,
        final(l).timer_is_running == old(l).timer_is_running,
        final(l).genesis_timestamp == old(l).genesis_timestamp,
        forks_unchanged(*old(l), *final(l)),
        final(l).early_blocks_by_timeslot == old(l).early_blocks_by_timeslot,
{
    if (l.epoch_tracker.epochs.len() as u64) <= ts / TIMESLOTS_PER_EPOCH && l.epoch_tracker.epochs.len() < usize::MAX {
        l.epoch_tracker.advance_epoch();
    }
}

/// Moves the clock one timeslot on, opening the epoch the new timeslot
/// belongs to (which closes its lookback epoch).
fn advance_clock(l: &mut Ledger)
    requires
        old(l).wf(),
        old(l).current_timeslot < u64::MAX,
    ensures
        final(l).wf(),
        final(l).current_timeslot == old(l).current_timeslot + 1,
        final(l).timer_is_running == old(l).timer_is_running,
        final(l).genesis_timestamp == old(l).genesis_timestamp,
        forks_unchanged(*old(l), *final(l)),
{
    let next = l.current_timeslot + 1;
    open_epoch_for(l, next);
    l.current_timeslot = next;
}

/// A timer tick: the next timeslot begins, the epoch it belongs to is opened
/// if needed, early blocks kept for the timeslot are staged, and the audit of
/// the timeslot is handed out where its lookback epoch is closed.
pub fn on_tick(l: &mut Ledger) -> (r: Option<SlotTask>)
    requires
        old(l).wf(),
        old(l).current_timeslot < u64::MAX,
    ensures
        final(l).wf(),
        final(l).current_timeslot == old(l).current_timeslot + 1,
        r == task_for(final(l), final(l).current_timeslot),
        old(l).epoch_tracker.epochs@.len() <= (old(l).current_timeslot + 1) / (TIMESLOTS_PER_EPOCH as int)
            && old(l).epoch_tracker.epochs@.len() < usize::MAX ==> final(l).epoch_tracker.epochs@.len()
            == old(l).epoch_tracker.epochs@.len() + 1,
        !(old(l).epoch_tracker.epochs@.len() <= (old(l).current_timeslot + 1) / (TIMESLOTS_PER_EPOCH as int))
            ==> final(l).epoch_tracker.epochs@.len() == old(l).epoch_tracker.epochs@.len(),
        exists|steps: Seq<Ledger>|
            #![trigger steps[0]]
            {
                &&& steps.len() == early_list(*old(l), (old(l).current_timeslot + 1) as u64).len() + 1
                &&& forks_unchanged(*old(l), steps[0])
                &&& steps.last() == *final(l)
                &&& forall|j: int|
                    0 <= j < steps.len() - 1 ==> #[trigger] arrival_step(
                        steps[j],
                        steps[j + 1],
                        early_list(*old(l), (old(l).current_timeslot + 1) as u64)[j],
                    )
            },
{
    let next = l.current_timeslot + 1;
    open_epoch_for(l, next);
    let ghost mid = *l;
    assert(early_list(mid, next) == early_list(*old(l), next));
    l.next_timeslot();
    proof {
        let steps = choose|steps: Seq<Ledger>|
            {
                &&& steps.len() == early_list(mid, next).len() + 1
                &&& forks_unchanged(mid, steps[0])
                &&& steps.last() == *l
                &&& forall|j: int|
                    0 <= j < steps.len() - 1 ==> #[trigger] arrival_step(
                        steps[j],
                        steps[j + 1],
                        early_list(mid, next)[j],
                    )
            };
        assert(forks_unchanged(*old(l), steps[0]));
    }
    slot_task(l, next)
}

/// A solution found by the farmer: the node creates and stages its block,
/// which is then to be gossiped.
pub fn on_solution(l: &mut Ledger, solution: &Solution, timestamp: u64) -> (r: Result<Block, NodeError>)
    requires
        old(l).wf(),
    ensures
        final(l).wf(),
        old(l).local_parent(Seq::empty()) is None ==> r == Err::<Block, NodeError>(
            NodeError::ConsistencyViolation,
        ),
        old(l).local_parent(Seq::empty()) matches Some(parent) ==> {
            &&& r matches Ok(b) ==> old(l).built_from(&b, solution, parent, timestamp)
                && old(l).spec_validate(&b) && old(l).staging_error(&b) is None
            &&& r matches Err(e) ==> exists|b: Block|
                old(l).built_from(&b, solution, parent, timestamp) && ((e == NodeError::InvalidBlock
                    && !old(l).spec_validate(&b)) || (old(l).spec_validate(&b) && old(
                    l).staging_error(&b) == Some(e)))
        },
{
    let no_siblings: Vec<crate::ContentId> = Vec::new();
    assert(no_siblings@ =~= Seq::<crate::ContentId>::empty());
    let block = match l.create_and_apply_local_block(solution, &no_siblings, timestamp) {
        Ok(b) => b,
        Err(e) => {
            return Err(e);
        },
    };
    let ghost before = *l;
    match l.stage_block(&block) {
        Ok(()) => Ok(block),
        Err(e) => {
            assert(before.staging_error(&block) == Some(e));
            Err(e)
        },
    }
}

/// The gossip checks a block passes: a proof id not seen recently, a synced
/// node, a timeslot that has arrived, a staged parent that is earlier and not
/// below the confirmation horizon, and a valid block.
pub open spec fn gossip_passes(l: &Ledger, b: &Block) -> bool {
    &&& !l.recent_proof_ids@.contains(crate::ledger::proof_key(b))
    &&& l.timer_is_running
    &&& crate::ledger::spec_arrival(l.current_timeslot, b.proof.timeslot) == Arrival::Arrived
    &&& l.parent_ok(b, true)
    &&& l.spec_validate(b)
}

/// A block gossiped by a peer: a known one is ignored; one that passes the
/// gossip checks is staged along with the cached blocks that wait for it.
/// Returns whether the block is to be passed on.
pub fn on_block_gossip(l: &mut Ledger, block: &Block) -> (r: bool)
    requires
        old(l).wf(),
    ensures
        final(l).wf(),
        old(l).metablocks.has_proof_bytes(block.proof.spec_id()) ==> !r && *final(l) == *old(l),
        r == (!old(l).metablocks.has_proof_bytes(block.proof.spec_id()) && gossip_passes(old(l), block)
            && old(l).staging_error(block) is None),
        r ==> exists|m: Ledger| #![trigger staged(*old(l), m, *block)] staged(*old(l), m, *block),
{
    let proof_id = block.proof.get_id();
    if l.metablocks.contains_key(&proof_id) {
        proof {
            let k = choose|k: int|
                0 <= k < old(l).metablocks.blocks@.len() && old(l).metablocks.blocks@[k].proof_id@
                    == block.proof.spec_id();
            vstd::array::axiom_array_ext_equal(old(l).metablocks.blocks@[k].proof_id, proof_id);
        }
        return false;
    }
    proof {
        if old(l).metablocks.has_proof_bytes(block.proof.spec_id()) {
            let k = choose|k: int|
                0 <= k < old(l).metablocks.blocks@.len() && old(l).metablocks.blocks@[k].proof_id@
                    == block.proof.spec_id();
            vstd::array::axiom_array_ext_equal(old(l).metablocks.blocks@[k].proof_id, proof_id);
        }
    }
    if !l.is_valid_proposer_block_from_gossip(block) {
        return false;
    }
    let ghost mid = *l;
    match l.stage_block(block) {
        Ok(()) => {
            proof {
                assert(forks_unchanged(*old(l), mid));
                crate::ledger::lemma_staged_same_forks(*old(l), mid, *l, *block);
                assert(staged(*old(l), *l, *block));
            }
            l.stage_cached_children(block.content.get_id());
            true
        },
        Err(_) => false,
    }
}

/// A credit transaction may enter the pool: its sender has an account with
/// at least the amount and a nonce below the transaction's, and the sender
/// signed the transaction's id.
pub open spec fn credit_acceptable(tx: &CreditTx, sender: Option<AccountState>) -> bool {
    &&& sender matches Some(a) && a.balance >= tx.amount && a.nonce < tx.nonce
    &&& signature_valid(tx.from_address@, tx.spec_id(), tx.signature@)
}

/// The transaction id whose bytes are the transfer's hash.
pub open spec fn tx_key(tx: &CreditTx) -> TxId {
    choose|k: TxId| k@ == tx.spec_id()
}

/// A credit transaction gossiped by a peer: a new, acceptable one is recorded
/// and enters the pool. Returns whether it is to be passed on.
pub fn on_tx_gossip(l: &mut Ledger, tx: &CreditTx) -> (r: bool)
    requires
        old(l).wf(),
    ensures
        final(l).wf(),
        r == (!old(l).txs@.contains_key(tx_key(tx)) && credit_acceptable(
            tx,
            old(l).balances@.get(tx.from_address),
        )),
        !r ==> *final(l) == *old(l),
        r ==> final(l).tx_mempool@ == old(l).tx_mempool@.insert(tx_key(tx)) && final(l).txs@.contains_key(tx_key(tx)) && final(l).txs@[tx_key(tx)].equiv(&Transaction::Credit(*tx))
            && forall|k: TxId| k != tx_key(tx) ==> #[trigger] final(l).txs@.get(k) == old(l).txs@.get(k),
{
    let tx_id = tx.get_id();
    proof {
        let k = tx_key(tx);
        assert(k@ == tx.spec_id());
        vstd::array::axiom_array_ext_equal(k, tx_id);
    }
    if l.txs.contains_key(&tx_id) {
        return false;
    }
    let sender = l.get_account_state(&tx.from_address);
    let funded = match sender {
        Some(a) => a.balance >= tx.amount && a.nonce < tx.nonce,
        None => false,
    };
    if !funded {
        return false;
    }
    if !verify_signature(&tx.from_address, tx_id.as_slice(), tx.signature.as_slice()) {
        return false;
    }
    l.txs.insert(tx_id, Transaction::Credit(tx.duplicate()));
    l.tx_mempool.insert(tx_id);
    true
}

/// What the sync driver does next.
#[derive(Clone, Copy, Debug, PartialEq, Eq, Structural)]
pub enum SyncStep {
    /// ask a peer for the blocks of the next timeslot
    RequestNext,
    /// the ledger has caught up; the live timer runs
    Synced,
}

/// The arrival time of timeslot `ts` in milliseconds, if it fits.
pub open spec fn arrival_time(genesis: u64, ts: u64) -> Option<u64> {
    if ts * TIMESLOT_DURATION + genesis <= u64::MAX {
        Some((ts * TIMESLOT_DURATION + genesis) as u64)
    } else {
        None
    }
}

/// The clock after catching up with a batch: the batch's timeslot if the
/// clock was behind it.
pub open spec fn caught_up(l: Ledger, blocks: Seq<Block>) -> u64 {
    if blocks.len() > 0 && l.current_timeslot < blocks[0].proof.timeslot {
        blocks[0].proof.timeslot
    } else {
        l.current_timeslot
    }
}

/// Whether the arrival time of the timeslot after `ts` has passed at `now`.
pub open spec fn next_slot_passed(ts: u64, genesis: u64, now: u64) -> bool {
    ts < u64::MAX && (ts + 1) * TIMESLOT_DURATION + genesis < now
}

/// One step of sync: the clock catches up with the batch's timeslot, the
/// batch is staged in order, and while the next timeslot's arrival time has
/// passed the clock moves on and the next timeslot is to be requested;
/// otherwise the cached gossip is drained and the live timer starts.
pub fn sync_step(l: &mut Ledger, blocks: &Vec<Block>, now_ms: u64) -> (r: SyncStep)
    requires
        old(l).wf(),
    ensures
        final(l).wf(),
        r == SyncStep::Synced ==> final(l).timer_is_running,
        r == SyncStep::RequestNext ==> !final(l).timer_is_running,
        exists|steps: Seq<Ledger>|
            #![trigger steps[0]]
            {
                &&& steps.len() == blocks@.len() + 1
                &&& forks_unchanged(*old(l), steps[0])
                &&& forall|j: int|
                    0 <= j < blocks@.len() ==> #[trigger] staged(steps[j], steps[j + 1], blocks@[j])
                &&& (r == SyncStep::RequestNext <==> !old(l).timer_is_running && next_slot_passed(
                    caught_up(*old(l), blocks@),
                    steps.last().genesis_timestamp,
                    now_ms,
                ))
                &&& r == SyncStep::RequestNext ==> forks_unchanged(steps.last(), *final(l))
                    && final(l).current_timeslot == caught_up(*old(l), blocks@) + 1
            },
{
    let now = l.current_timeslot;
    open_epoch_for(l, now);
    if blocks.len() > 0 {
        let target = blocks[0].proof.timeslot;
        while l.current_timeslot < target
            invariant
                l.wf(),
                target == blocks@[0].proof.timeslot,
                l.timer_is_running == old(l).timer_is_running,
                forks_unchanged(*old(l), *l),
                old(l).current_timeslot <= l.current_timeslot,
                old(l).current_timeslot < target ==> l.current_timeslot <= target,
                old(l).current_timeslot >= target ==> l.current_timeslot == old(l).current_timeslot,
            decreases target - l.current_timeslot,
        {
            advance_clock(l);
        }
    }
    assert(l.current_timeslot == caught_up(*old(l), blocks@));
    let ghost mut steps: Seq<Ledger> = seq![*l];
    let mut i: usize = 0;
    while i < blocks.len()
        invariant
            l.wf(),
            i <= blocks@.len(),
            l.timer_is_running == old(l).timer_is_running,
            l.current_timeslot == caught_up(*old(l), blocks@),
            steps.len() == i + 1,
            forks_unchanged(*old(l), steps[0]),
            steps.last() == *l,
            forall|j: int| 0 <= j < i ==> #[trigger] staged(steps[j], steps[j + 1], blocks@[j]),
        decreases blocks@.len() - i,
    {
        let ghost before = *l;
        let _ = l.stage_block(&blocks[i]);
        proof {
            assert(staged(before, *l, blocks@[i as int]));
            let ns = steps.push(*l);
            assert forall|j: int| 0 <= j < i + 1 implies #[trigger] staged(ns[j], ns[j + 1], blocks@[j]) by {
                if j < i {
                    assert(ns[j] == steps[j] && ns[j + 1] == steps[j + 1]);
                } else {
                    assert(ns[j] == before && ns[j + 1] == *l);
                }
            }
            steps = ns;
        }
        i += 1;
    }
    let ts = l.current_timeslot;
    assert(TIMESLOT_DURATION == 250);
    let passed = ts < u64::MAX && (ts as u128 + 1) * 250 + (l.genesis_timestamp as u128)
        < now_ms as u128;
    if passed && !l.timer_is_running {
        advance_clock(l);
        SyncStep::RequestNext
    } else {
        finish_sync(l);
        SyncStep::Synced
    }
}

/// All cached blocks, entry by entry, each list in its order.
pub open spec fn all_cached(entries: Seq<(ContentId, Vec<Block>)>) -> Seq<Block>
    decreases entries.len(),
{
    if entries.len() == 0 {
        Seq::empty()
    } else {
        all_cached(entries.drop_last()) + entries.last().1@
    }
}

/// `c` follows from `a` by a cached block `b` met when sync ends: one whose
/// timeslot has arrived follows the arrival rule; any other leaves the fork
/// state as it is.
pub open spec fn resync_step(a: Ledger, c: Ledger, b: Block) -> bool {
    if spec_arrival(a.current_timeslot, b.proof.timeslot) == Arrival::Arrived {
        arrival_step(a, c, b)
    } else {
        forks_unchanged(a, c)
    }
}

/// Ends sync: every cached gossip block is checked again against the current
/// timeslot; those whose timeslot has arrived are validated and staged (or
/// cached again while their parent is unknown), early ones are kept for their
/// timeslot, and the live timer starts.
pub fn finish_sync(l: &mut Ledger)
    requires
        old(l).wf(),
    ensures
        final(l).wf(),
        final(l).timer_is_running,
        final(l).current_timeslot == old(l).current_timeslot,
        exists|steps: Seq<Ledger>|
            #![trigger steps[0]]
            {
            let taken = all_cached(old(l).cached_blocks_by_parent_content_id.entries@);
            &&& steps.len() == taken.len() + 1
            &&& forks_unchanged(*old(l), steps[0])
            &&& forks_unchanged(steps.last(), *final(l))
            &&& forall|j: int| 0 <= j < taken.len() ==> #[trigger] resync_step(steps[j], steps[j + 1], taken[j])
        },
{
    let mut cached: IdMap<Vec<Block>> = IdMap::new();
    std::mem::swap(&mut cached, &mut l.cached_blocks_by_parent_content_id);
    let ghost mut steps: Seq<Ledger> = seq![*l];
    let ghost mut taken: Seq<Block> = Seq::empty();
    let mut e: usize = 0;
    while e < cached.entries.len()
        invariant
            l.wf(),
            l.current_timeslot == old(l).current_timeslot,
            cached.entries@ == old(l).cached_blocks_by_parent_content_id.entries@,
            e <= cached.entries@.len(),
            taken == all_cached(cached.entries@.subrange(0, e as int)),
            steps.len() == taken.len() + 1,
            forks_unchanged(*old(l), steps[0]),
            steps.last() == *l,
            forall|j: int| 0 <= j < taken.len() ==> #[trigger] resync_step(steps[j], steps[j + 1], taken[j]),
        decreases cached.entries@.len() - e,
    {
        let list = &cached.entries[e].1;
        let ghost taken0 = taken;
        let mut i: usize = 0;
        while i < list.len()
            invariant
                l.wf(),
                l.current_timeslot == old(l).current_timeslot,
                i <= list@.len(),
                taken == taken0 + list@.subrange(0, i as int),
                steps.len() == taken.len() + 1,
                forks_unchanged(*old(l), steps[0]),
                steps.last() == *l,
                forall|j: int| 0 <= j < taken.len() ==> #[trigger] resync_step(steps[j], steps[j + 1], taken[j]),
            decreases list@.len() - i,
        {
            let block = &list[i];
            let ghost before = *l;
            match classify_arrival(l.current_timeslot, block.proof.timeslot) {
                Arrival::Arrived => {
                    if l.is_valid_proposer_block_that_has_arrived(block) {
                        let ghost mid = *l;
                        let _ = l.stage_block(block);
                        proof {
                            assert(forks_unchanged(before, mid));
                            crate::ledger::lemma_staged_same_forks(before, mid, *l, *block);
                        }
                    }
                },
                Arrival::Early => {
                    append_block(&mut l.early_blocks_by_timeslot, block.proof.timeslot, block);
                },
                _ => {},
            }
            proof {
                assert(resync_step(before, *l, *block));
                let ns = steps.push(*l);
                let nt = taken.push(*block);
                assert forall|j: int| 0 <= j < nt.len() implies #[trigger] resync_step(ns[j], ns[j + 1], nt[j]) by {
                    if j < taken.len() {
                        assert(ns[j] == steps[j] && ns[j + 1] == steps[j + 1] && nt[j] == taken[j]);
                    } else {
                        assert(ns[j] == before && ns[j + 1] == *l && nt[j] == *block);
                    }
                }
                assert(nt =~= taken0 + list@.subrange(0, i + 1));
                steps = ns;
                taken = nt;
            }
            i += 1;
        }
        proof {
            let pre = cached.entries@.subrange(0, e + 1);
            assert(pre.drop_last() =~= cached.entries@.subrange(0, e as int));
            assert(list@.subrange(0, i as int) =~= list@);
        }
        e += 1;
    }
    assert(cached.entries@.subrange(0, e as int) =~= cached.entries@);
    let ghost last = *l;
    l.timer_is_running = true;
    assert(forks_unchanged(last, *l));
}

} // verus!
