use subspace_core_rust::block::{Block, CreditTx, Transaction};
use subspace_core_rust::farmer::Solution;
use subspace_core_rust::ledger::{
    classify_arrival, derive_nonce, is_deep_fork, AccountState, Arrival, Head, Ledger,
};
use subspace_core_rust::metablocks::MetaBlock;
use subspace_core_rust::plot::compute_tag;
use sha2::{Digest, Sha256};
use subspace_core_rust::timer::EpochTracker;
use subspace_core_rust::utils::usize_to_bytes;
use subspace_core_rust::{NodeError, CONFIRMATION_DEPTH, ENCODING_LAYERS_TEST, MAX_EARLY_TIMESLOTS};

const GENESIS_TIME: u64 = 1_600_000_000_000;

fn genesis_piece() -> [u8; 4096] {
    let mut piece = [0u8; 4096];
    for (i, b) in piece.iter_mut().enumerate() {
        *b = (i * 31 % 251) as u8;
    }
    piece
}

fn new_ledger() -> Ledger {
    let hash: [u8; 32] = Sha256::digest(genesis_piece()).into();
    Ledger::new(vec![], hash, [1u8; 32], vec![], vec![], EpochTracker::new())
}

/// The plotted encoding of piece `index` for this ledger's node.
fn encoding_for(l: &Ledger, index: usize) -> [u8; 4096] {
    let mut piece = genesis_piece();
    let mask = usize_to_bytes(index);
    for i in 0..16 {
        piece[i] ^= mask[i];
    }
    l.sloth.encode(&mut piece, l.public_key, ENCODING_LAYERS_TEST).unwrap();
    piece
}

fn genesis_ledger() -> Ledger {
    let mut l = new_ledger();
    l.init_from_genesis(GENESIS_TIME);
    l
}

fn local_block(l: &Ledger, epoch: u64, timeslot: u64, seed: u8, siblings: &Vec<[u8; 32]>) -> Block {
    let encoding = encoding_for(l, seed as usize);
    let nonce = derive_nonce(&encoding);
    let tag = compute_tag(&encoding, nonce);
    let randomness = l.epoch_tracker.get_lookback_epoch(epoch).unwrap().randomness;
    let solution = Solution {
        encoding,
        piece_index: seed as u64,
        proof_index: seed as u64,
        tag,
        epoch_index: epoch,
        timeslot,
        randomness,
        solution_range: u64::MAX,
    };
    l.create_and_apply_local_block(&solution, siblings, GENESIS_TIME + timeslot * 250)
        .unwrap()
}

fn has_proof(l: &Ledger, b: &Block) -> bool {
    l.metablocks.contains_key(&b.proof.get_id())
}

#[test]
fn genesis_only_ledger() {
    let l = genesis_ledger();
    assert_eq!(l.metablocks.blocks.len(), 12);
    let mut heights: Vec<u64> = l.metablocks.blocks.iter().map(|m| m.height).collect();
    heights.sort();
    assert_eq!(heights, (0..12).collect::<Vec<u64>>());
    assert_eq!(l.heads.len(), 1);
    assert_eq!(l.heads[0].block_height, 11);
    assert_eq!(l.genesis_timestamp, GENESIS_TIME);
    // blocks 0..=5 are CONFIRMATION_DEPTH deep under block 11
    let state = l.get_account_state(&l.public_key).unwrap();
    assert_eq!(state.balance, 12 - CONFIRMATION_DEPTH);
    assert_eq!(l.blocks_on_longest_chain.ids.len(), 6);
    assert_eq!(l.epoch_tracker.epochs.len(), 3);
    assert_eq!(l.get_blocks_by_timeslot(5).len(), 1);
    assert_eq!(l.get_blocks_by_timeslot(12).len(), 0);
    assert!(l.get_blocks_by_timeslot(5)[0].data.is_none());
}

#[test]
fn restaging_a_block_changes_nothing() {
    let mut l = genesis_ledger();
    let again = l.get_blocks_by_timeslot(3).remove(0);
    let balance = l.get_account_state(&l.public_key).unwrap();
    let heads: Vec<(u64, [u8; 32])> = l.heads.iter().map(|h| (h.block_height, h.content_id)).collect();
    let blocks = l.epoch_tracker.get_epoch(0).unwrap().get_block_count();
    assert_eq!(l.stage_block(&again), Err(NodeError::DuplicateProof));
    assert_eq!(l.get_account_state(&l.public_key).unwrap(), balance);
    let after: Vec<(u64, [u8; 32])> = l.heads.iter().map(|h| (h.block_height, h.content_id)).collect();
    assert_eq!(after, heads);
    assert_eq!(l.epoch_tracker.get_epoch(0).unwrap().get_block_count(), blocks);
}

#[test]
fn duplicate_proof_with_other_content_is_a_fault() {
    let mut l = genesis_ledger();
    let mut other = l.get_blocks_by_timeslot(4).remove(0);
    other.content.timestamp += 1;
    let count = l.metablocks.blocks.len();
    assert_eq!(l.stage_block(&other), Err(NodeError::ProofFault));
    assert_eq!(l.metablocks.blocks.len(), count);
}

#[test]
fn unknown_parent_is_refused_without_change() {
    let mut l = genesis_ledger();
    let mut orphan = l.get_blocks_by_timeslot(4).remove(0);
    orphan.content.parent_id = [0xAB; 32];
    orphan.proof.nonce += 1;
    assert_eq!(l.stage_block(&orphan), Err(NodeError::UnknownParent));
    assert_eq!(l.metablocks.blocks.len(), 12);
}

#[test]
fn early_window_boundary() {
    assert_eq!(classify_arrival(10, 10 + MAX_EARLY_TIMESLOTS), Arrival::Early);
    assert_eq!(classify_arrival(10, 10 + MAX_EARLY_TIMESLOTS + 1), Arrival::TooEarly);
    assert_eq!(classify_arrival(10, 10), Arrival::Arrived);
    assert_eq!(classify_arrival(100, 50), Arrival::TooLate);
}

#[test]
fn deep_fork_boundary() {
    let head = 20;
    assert!(is_deep_fork(head - CONFIRMATION_DEPTH, head));
    assert!(is_deep_fork(head - CONFIRMATION_DEPTH - 1, head));
    assert!(!is_deep_fork(head - CONFIRMATION_DEPTH + 1, head));
    assert!(!is_deep_fork(u64::MAX, 3));
}

#[test]
fn heads_advance_and_longest_moves_to_front() {
    let mut l = new_ledger();
    l.heads = vec![Head { block_height: 5, content_id: [1; 32] }, Head { block_height: 5, content_id: [2; 32] }];
    l.update_heads([2; 32], [3; 32], 6);
    assert_eq!(l.heads[0].content_id, [3; 32]);
    assert_eq!(l.heads[0].block_height, 6);
    assert_eq!(l.heads[1].content_id, [1; 32]);
    l.update_heads([9; 32], [4; 32], 2);
    assert_eq!(l.heads.len(), 3);
    assert_eq!(l.heads[2].content_id, [4; 32]);
    assert_eq!(l.get_head(), [3; 32]);
    assert_eq!(l.prune_branch([3; 32]), Err(NodeError::ConsistencyViolation));
    assert_eq!(l.prune_branch([4; 32]), Ok(()));
    assert_eq!(l.prune_branch([4; 32]), Err(NodeError::ConsistencyViolation));
    assert_eq!(l.heads.len(), 2);
}

fn credit_setup() -> (Ledger, [u8; 32], MetaBlock) {
    let mut l = genesis_ledger();
    let from = l.public_key;
    let tx = CreditTx { amount: 2, from_address: from, to_address: [5u8; 32], nonce: 1, signature: vec![] };
    let id = tx.get_id();
    l.txs.insert(id, Transaction::Credit(tx));
    l.tx_mempool.insert(id);
    let mut carrier = l.metablocks.blocks[0].clone();
    carrier.block.content.tx_ids = vec![id, id];
    carrier.height = 0;
    (l, id, carrier)
}

#[test]
fn credit_is_applied_once_and_leaves_the_pool() {
    let (mut l, id, carrier) = credit_setup();
    let before = l.get_account_state(&l.public_key).unwrap().balance;
    assert_eq!(l.confirm_block(&carrier), Ok(()));
    assert_eq!(l.get_account_state(&[5u8; 32]), Some(AccountState { balance: 2, nonce: 0 }));
    assert_eq!(l.get_account_state(&l.public_key).unwrap().balance, before - 2);
    assert!(!l.tx_mempool.contains(&id));
}

#[test]
fn credit_already_out_of_pool_is_skipped() {
    let (mut l, id, carrier) = credit_setup();
    l.tx_mempool.remove(&id);
    let before = l.get_account_state(&l.public_key).unwrap().balance;
    assert_eq!(l.confirm_block(&carrier), Ok(()));
    assert_eq!(l.get_account_state(&[5u8; 32]), None);
    assert_eq!(l.get_account_state(&l.public_key).unwrap().balance, before);
}

#[test]
fn confirming_unknown_tx_is_refused() {
    let (mut l, _, mut carrier) = credit_setup();
    carrier.block.content.tx_ids = vec![[0xEE; 32]];
    assert_eq!(l.confirm_block(&carrier), Err(NodeError::ConsistencyViolation));
}

#[test]
fn local_block_is_valid_and_lists_sorted_pool() {
    let mut l = genesis_ledger();
    l.epoch_tracker.advance_epoch();
    l.tx_mempool.insert([9u8; 32]);
    l.tx_mempool.insert([3u8; 32]);
    let b = local_block(&l, 3, 12, 1, &vec![]);
    assert_eq!(b.content.parent_id, l.get_head());
    assert_eq!(b.content.tx_ids[0], b.coinbase_tx.get_id());
    assert_eq!(&b.content.tx_ids[1..], &[[3u8; 32], [9u8; 32]]);
    assert!(l.validate_block(&b));
    let mut bad = b.clone();
    bad.proof.tag ^= 1;
    assert!(!l.validate_block(&bad));
    assert!(l.check_piece(&b));
    let mut other_piece = b.clone();
    other_piece.proof.piece_index += 1;
    assert!(!l.check_piece(&other_piece));
    let mut garbled = b.clone();
    garbled.data.as_mut().unwrap().encoding[100] ^= 1;
    assert!(!l.check_piece(&garbled));
}

#[test]
fn orphan_then_parent() {
    let mut a = genesis_ledger();
    a.epoch_tracker.advance_epoch();
    let parent = local_block(&a, 3, 12, 1, &vec![]);
    a.stage_block(&parent).unwrap();
    let child = local_block(&a, 3, 13, 2, &vec![]);
    assert_eq!(child.content.parent_id, parent.content.get_id());

    let mut b = genesis_ledger();
    b.epoch_tracker.advance_epoch();
    b.cache_remote_block(&child);
    assert_eq!(b.cached_blocks_by_parent_content_id.get(&parent.content.get_id()).unwrap().len(), 1);
    b.stage_block(&parent).unwrap();
    b.stage_cached_children(parent.content.get_id());
    assert!(has_proof(&b, &child));
    assert!(!b.cached_blocks_by_parent_content_id.contains_key(&parent.content.get_id()));
    assert_eq!(b.heads[0].block_height, 13);
}

#[test]
fn early_then_arrived() {
    let mut l = genesis_ledger();
    l.epoch_tracker.advance_epoch();
    let block = local_block(&l, 3, 12, 4, &vec![]);
    l.timer_is_running = true;
    l.current_timeslot = 10;
    assert!(!l.is_valid_proposer_block_from_gossip(&block));
    assert_eq!(l.early_blocks_by_timeslot.get(&12).unwrap().len(), 1);
    l.next_timeslot();
    assert!(!has_proof(&l, &block));
    l.next_timeslot();
    assert_eq!(l.current_timeslot, 12);
    assert!(has_proof(&l, &block));
    assert!(!l.early_blocks_by_timeslot.contains_key(&12));
    // the same proof arriving again is dropped
    assert!(!l.is_valid_proposer_block_from_gossip(&block));
}

#[test]
fn gossip_before_sync_is_cached() {
    let mut l = genesis_ledger();
    l.epoch_tracker.advance_epoch();
    let block = local_block(&l, 3, 12, 4, &vec![]);
    assert!(!l.is_valid_proposer_block_from_gossip(&block));
    assert!(l.cached_blocks_by_parent_content_id.contains_key(&block.content.parent_id));
}

#[test]
fn gossip_block_in_window_is_valid() {
    let mut l = genesis_ledger();
    l.epoch_tracker.advance_epoch();
    let block = local_block(&l, 3, 12, 4, &vec![]);
    l.timer_is_running = true;
    l.current_timeslot = 12;
    assert!(l.is_valid_proposer_block_from_gossip(&block));
    let mut sync = genesis_ledger();
    sync.epoch_tracker.advance_epoch();
    assert!(sync.is_valid_proposer_block_from_sync(&block));
    assert!(!sync.is_valid_proposer_block_from_sync(&block));
}

#[test]
fn sibling_pruning() {
    let mut l = genesis_ledger();
    l.epoch_tracker.advance_epoch();
    l.epoch_tracker.advance_epoch();
    let x = local_block(&l, 3, 12, 10, &vec![]);
    let y = local_block(&l, 3, 12, 11, &vec![]);
    l.stage_block(&x).unwrap();
    l.stage_block(&y).unwrap();
    assert_eq!(l.heads.len(), 2);
    assert_eq!(l.heads[0].content_id, x.content.get_id());
    for ts in 13..13 + CONFIRMATION_DEPTH {
        let b = local_block(&l, ts / 4, ts, ts as u8, &vec![]);
        l.stage_block(&b).unwrap();
    }
    assert!(has_proof(&l, &x));
    assert!(!has_proof(&l, &y));
    assert_eq!(l.heads.len(), 1);
    assert_eq!(l.heads[0].block_height, 12 + CONFIRMATION_DEPTH);
    assert!(l.blocks_on_longest_chain.contains(&x.proof.get_id()));
}
