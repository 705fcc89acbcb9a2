use ed25519_dalek::{Keypair, PublicKey, SecretKey, Signer};
use sha2::{Digest, Sha256};
use subspace_core_rust::block::CreditTx;
use subspace_core_rust::coordinator::{on_tick, on_tx_gossip, sync_step, SyncStep};
use subspace_core_rust::ledger::Ledger;
use subspace_core_rust::timer::EpochTracker;
use subspace_core_rust::{CHALLENGE_LOOKBACK_EPOCHS, TIMESLOTS_PER_EPOCH, TIMESLOT_DURATION};

const GENESIS_TIME: u64 = 1_600_000_000_000;
const SECRET: [u8; 32] = [1u8; 32];

fn ledger_with(secret: [u8; 32]) -> Ledger {
    let hash: [u8; 32] = Sha256::digest([0u8; 4096]).into();
    Ledger::new(vec![], hash, secret, vec![], vec![], EpochTracker::new())
}

fn keypair() -> Keypair {
    let secret = SecretKey::from_bytes(&SECRET).unwrap();
    let public = PublicKey::from(&secret);
    Keypair { secret, public }
}

#[test]
fn tick_opens_epochs_and_hands_out_challenges() {
    let mut l = ledger_with(SECRET);
    l.init_from_genesis(GENESIS_TIME);
    l.current_timeslot = CHALLENGE_LOOKBACK_EPOCHS * TIMESLOTS_PER_EPOCH - 1;
    let task = on_tick(&mut l).unwrap();
    assert_eq!(l.current_timeslot, 12);
    assert_eq!(l.epoch_tracker.epochs.len() as u64, CHALLENGE_LOOKBACK_EPOCHS + 1);
    assert_eq!(task.epoch_index, 3);
    assert_eq!(task.timeslot, 12);
    let lookback = l.epoch_tracker.get_epoch(0).unwrap();
    assert!(lookback.is_closed);
    assert_eq!(task.challenge, lookback.get_challenge_for_timeslot(12));
    assert_eq!(task.randomness, lookback.randomness);
    let next = on_tick(&mut l).unwrap();
    assert_eq!(next.timeslot, 13);
    assert_eq!(l.epoch_tracker.epochs.len() as u64, CHALLENGE_LOOKBACK_EPOCHS + 1);
}

#[test]
fn tick_without_closed_lookback_gives_no_task() {
    let mut l = ledger_with(SECRET);
    assert!(on_tick(&mut l).is_none());
    assert_eq!(l.current_timeslot, 1);
    assert_eq!(l.epoch_tracker.epochs.len(), 1);
}

#[test]
fn gossiped_credit_enters_the_pool_once() {
    let mut l = ledger_with(SECRET);
    l.init_from_genesis(GENESIS_TIME);
    let mut tx = CreditTx { amount: 2, from_address: l.public_key, to_address: [9u8; 32], nonce: 1, signature: vec![] };
    tx.signature = keypair().sign(&tx.get_id()).to_bytes().to_vec();
    assert!(on_tx_gossip(&mut l, &tx));
    assert!(l.tx_mempool.contains(&tx.get_id()));
    assert!(l.txs.contains_key(&tx.get_id()));
    assert!(!on_tx_gossip(&mut l, &tx));

    let mut unsigned = tx.clone();
    unsigned.nonce = 2;
    unsigned.signature = vec![0; 64];
    assert!(!on_tx_gossip(&mut l, &unsigned));

    let mut too_much = tx.clone();
    too_much.amount = 1000;
    too_much.signature = keypair().sign(&too_much.get_id()).to_bytes().to_vec();
    assert!(!on_tx_gossip(&mut l, &too_much));
}

#[test]
fn sync_from_a_gateway_catches_up_then_starts_the_timer() {
    let mut gateway = ledger_with(SECRET);
    gateway.init_from_genesis(GENESIS_TIME);
    let mut peer = ledger_with([2u8; 32]);
    let now = GENESIS_TIME + 12 * TIMESLOT_DURATION + 100;
    for ts in 0..12 {
        let blocks = gateway.get_blocks_by_timeslot(ts);
        assert_eq!(sync_step(&mut peer, &blocks, now), SyncStep::RequestNext);
        assert!(!peer.timer_is_running);
    }
    assert_eq!(sync_step(&mut peer, &Vec::new(), now), SyncStep::Synced);
    assert!(peer.timer_is_running);
    assert_eq!(peer.metablocks.blocks.len(), 12);
    assert_eq!(peer.heads[0].block_height, 11);
    assert_eq!(peer.heads[0].content_id, gateway.heads[0].content_id);
    assert_eq!(peer.epoch_tracker.epochs.len(), 4);
}
