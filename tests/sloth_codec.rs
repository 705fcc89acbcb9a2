use num_bigint::BigUint;
use subspace_core_rust::sloth::Sloth;
use subspace_core_rust::{NodeError, PIECE_SIZE, PRIME_SIZE_BITS};

/// A deterministic stream of bytes for test data.
fn bytes(seed: u64, n: usize) -> Vec<u8> {
    let mut x = seed.wrapping_mul(0x9E37_79B9_7F4A_7C15) | 1;
    (0..n)
        .map(|_| {
            x ^= x << 13;
            x ^= x >> 7;
            x ^= x << 17;
            (x >> 24) as u8
        })
        .collect()
}

fn block(seed: u64) -> [u8; 32] {
    let mut b = [0u8; 32];
    b.copy_from_slice(&bytes(seed, 32));
    b
}

fn piece(seed: u64) -> [u8; 4096] {
    let mut p = [0u8; 4096];
    p.copy_from_slice(&bytes(seed, 4096));
    p
}

#[test]
fn sloth_prime_is_a_prime_three_mod_four() {
    let sloth = Sloth::init(PRIME_SIZE_BITS);
    let p = BigUint::from_bytes_le(&sloth.prime);
    let one = BigUint::from(1u32);
    assert_eq!(p, (BigUint::from(1u32) << 256) - BigUint::from(189u32));
    assert_eq!(&p % BigUint::from(4u32), BigUint::from(3u32));
    assert_eq!(BigUint::from_bytes_le(&sloth.exponent), (&p + &one) / BigUint::from(4u32));
    // Miller-Rabin with the first twelve prime bases
    let d = (&p - &one) >> 1;
    for base in [2u32, 3, 5, 7, 11, 13, 17, 19, 23, 29, 31, 37] {
        let x = BigUint::from(base).modpow(&d, &p);
        assert!(x == one || x == &p - &one);
    }
}

#[test]
fn test_random_data_for_all_primes() {
    let sloth = Sloth::init(PRIME_SIZE_BITS);
    for seed in 0..10u64 {
        let data = block(seed);
        let mut encoding = data;
        sloth.sqrt_permutation(&mut encoding).unwrap();
        let mut decoding = encoding;
        sloth.inverse_sqrt(&mut decoding);
        assert_eq!(data, decoding);
    }
}

#[test]
fn inverse_undoes_the_permutation_at_the_edges() {
    let sloth = Sloth::init(PRIME_SIZE_BITS);
    let p = BigUint::from_bytes_le(&sloth.prime);
    for v in [1u32, 2, 3, 4, 5, 1000] {
        for x in [BigUint::from(v), &p - BigUint::from(v)] {
            let mut b = [0u8; 32];
            let le = x.to_bytes_le();
            b[..le.len()].copy_from_slice(&le);
            let plain = b;
            sloth.sqrt_permutation(&mut b).unwrap();
            sloth.inverse_sqrt(&mut b);
            assert_eq!(b, plain);
        }
    }
}

#[test]
fn permutation_refuses_a_block_not_below_the_prime() {
    let sloth = Sloth::init(PRIME_SIZE_BITS);
    let mut b = sloth.prime;
    assert_eq!(sloth.sqrt_permutation(&mut b), Err(NodeError::InvalidBlock));
    assert_eq!(b, sloth.prime);
    let mut top = [0xffu8; 32];
    assert_eq!(sloth.sqrt_permutation(&mut top), Err(NodeError::InvalidBlock));
}

#[test]
fn test_random_piece_for_all_primes() {
    let sloth = Sloth::init(PRIME_SIZE_BITS);
    let expanded_iv = block(77);
    let piece = piece(5);
    // eight layers: the pass count of a 512-byte prime over a whole piece
    let layers = PIECE_SIZE / (16 * sloth.block_size_bytes);
    let mut encoding = piece;
    sloth.encode(&mut encoding, expanded_iv, layers).unwrap();
    let mut decoding = encoding;
    sloth.decode(&mut decoding, expanded_iv, layers);
    assert_eq!(piece.to_vec(), decoding.to_vec());
}

#[test]
fn decode_inverts_encode_for_few_layers() {
    let sloth = Sloth::init(PRIME_SIZE_BITS);
    for layers in 1..=3usize {
        let iv = block(100 + layers as u64);
        let plain = piece(layers as u64);
        let mut p = plain;
        sloth.encode(&mut p, iv, layers).unwrap();
        assert_ne!(p.to_vec(), plain.to_vec());
        sloth.decode(&mut p, iv, layers);
        assert_eq!(p.to_vec(), plain.to_vec());
    }
}

#[test]
fn encode_refuses_a_piece_with_a_block_above_the_prime() {
    let sloth = Sloth::init(PRIME_SIZE_BITS);
    let plain = [0xffu8; 4096];
    let mut p = plain;
    assert_eq!(sloth.encode(&mut p, [0u8; 32], 1), Err(NodeError::InvalidBlock));
    assert_eq!(p.to_vec(), plain.to_vec());
}

#[test]
fn zero_block_round_trips_and_every_image_is_below_the_prime() {
    let sloth = Sloth::init(PRIME_SIZE_BITS);
    let mut b = [0u8; 32];
    sloth.sqrt_permutation(&mut b).unwrap();
    assert_eq!(b, [0u8; 32]);
    sloth.inverse_sqrt(&mut b);
    assert_eq!(b, [0u8; 32]);
    let p = BigUint::from_bytes_le(&sloth.prime);
    for seed in 0..20u64 {
        let mut x = block(seed);
        sloth.sqrt_permutation(&mut x).unwrap();
        assert!(BigUint::from_bytes_le(&x) < p);
    }
}
