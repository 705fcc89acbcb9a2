use sha2::{Digest, Sha256};
use subspace_core_rust::epoch::Epoch;
use subspace_core_rust::timer::EpochTracker;
use subspace_core_rust::utils::{measure_quality, modulo, usize_to_bytes, xor_bytes};
use subspace_core_rust::{CHALLENGE_LOOKBACK_EPOCHS, TIMESLOTS_PER_EPOCH};

fn sha(data: &[u8]) -> [u8; 32] {
    Sha256::digest(data).into()
}

#[test]
fn xor_bytes_xors_in_place() {
    let mut a = [0b1010u8, 0xff, 0x00];
    xor_bytes(&mut a, &[0b0110, 0x0f, 0xaa, 0x55]);
    assert_eq!(a, [0b1100, 0xf0, 0xaa]);
}

#[test]
fn usize_to_bytes_writes_low_word_big_endian() {
    let b = usize_to_bytes(0x0102_0304);
    assert_eq!(&b[0..4], &[1, 2, 3, 4]);
    assert!(b[4..].iter().all(|x| *x == 0));
    let c = usize_to_bytes(0x1_0000_0005);
    assert_eq!(&c[0..4], &[0, 0, 0, 5]);
}

#[test]
fn modulo_of_big_endian_bytes() {
    assert_eq!(modulo(&[1, 0], 7), 256 % 7);
    assert_eq!(modulo(&[0xff; 16], 1_000_003), (u128::MAX % 1_000_003) as usize);
    assert_eq!(modulo(&[], 5), 0);
}

#[test]
fn measure_quality_counts_leading_zero_bits() {
    assert_eq!(measure_quality(&[0x80, 0x00]), 0);
    assert_eq!(measure_quality(&[0x00, 0x0f, 0x00]), 12);
    assert_eq!(measure_quality(&[0x00, 0x00]), 16);
    assert_eq!(measure_quality(&[]), 0);
}

#[test]
fn new_epoch_randomness_is_hash_of_index() {
    let e = Epoch::new(7, 99);
    assert!(!e.is_closed);
    assert_eq!(e.randomness, sha(&7u64.to_le_bytes()));
    assert_eq!(e.solution_range, 99);
    assert_eq!(e.get_block_count(), 0);
    assert_eq!(e.get_average_range(), 0);
}

#[test]
fn closing_an_epoch_folds_blocks_and_derives_challenges() {
    let mut e = Epoch::new(3, 10);
    let a = [0x11u8; 32];
    let b = [0x22u8; 32];
    e.add_block_to_timeslot(5, a);
    e.add_block_to_timeslot(6, b);
    assert_eq!(e.get_block_count(), 2);
    let mut folded = sha(&3u64.to_le_bytes());
    for i in 0..32 {
        folded[i] ^= a[i] ^ b[i];
    }
    e.close();
    assert!(e.is_closed);
    let randomness = sha(&folded);
    assert_eq!(e.randomness, randomness);
    for slot in 0..TIMESLOTS_PER_EPOCH {
        let mut seed = randomness.to_vec();
        seed.extend_from_slice(&slot.to_le_bytes());
        assert_eq!(e.get_challenge_for_timeslot(slot), sha(&seed));
        assert_eq!(e.get_challenge_for_timeslot(slot + TIMESLOTS_PER_EPOCH), sha(&seed));
    }
}

#[test]
fn closed_epoch_ignores_new_blocks() {
    let mut e = Epoch::new(1, 10);
    e.close();
    let before = e.randomness;
    e.add_block_to_timeslot(2, [9u8; 32]);
    assert_eq!(e.get_block_count(), 0);
    assert_eq!(e.randomness, before);
}

#[test]
fn tracker_closes_the_lookback_epoch() {
    let mut t = EpochTracker::new();
    for i in 0..CHALLENGE_LOOKBACK_EPOCHS {
        assert_eq!(t.advance_epoch(), i);
    }
    assert!(t.get_epoch(0).map(|e| !e.is_closed).unwrap());
    assert!(t.get_lookback_epoch(CHALLENGE_LOOKBACK_EPOCHS).map(|e| !e.is_closed).unwrap());
    let next = t.advance_epoch();
    assert_eq!(next, CHALLENGE_LOOKBACK_EPOCHS);
    assert!(t.get_epoch(0).unwrap().is_closed);
    assert!(t.get_lookback_epoch(next).unwrap().is_closed);
    assert!(t.get_lookback_epoch(1).is_none());
    assert!(t.get_epoch(next + 1).is_none());
}

#[test]
fn tracker_records_blocks_only_in_open_epochs() {
    let mut t = EpochTracker::new();
    t.advance_epoch();
    t.add_block_to_epoch(0, 1, [1u8; 32]);
    t.add_block_to_epoch(5, 1, [1u8; 32]);
    assert_eq!(t.get_epoch(0).unwrap().get_block_count(), 1);
}
