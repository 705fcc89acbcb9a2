use crate::block::push_bytes;
use crate::utils::{xor_bytes, xor_seq};
use crate::{NodeError, BLOCKS_PER_ENCODING, PIECE_SIZE, PRIME_SIZE_BITS, PRIME_SIZE_BYTES};
use num_bigint::BigUint;
use vstd::arithmetic::power::pow;
use vstd::prelude::*;

verus! {

/// The unsigned integer that a byte sequence denotes, least significant byte first.
pub open spec fn le_value(s: Seq<u8>) -> nat
    decreases s.len(),
{
    if s.len() == 0 {
        0
    } else {
        s[0] as nat + 256 * le_value(s.drop_first())
    }
}

/// The 32 little-endian bytes of `v`.
pub open spec fn bytes_of(v: nat) -> Seq<u8> {
    choose|s: Seq<u8>| s.len() == 32 && le_value(s) == v
}

proof fn lemma_le_injective(a: Seq<u8>, b: Seq<u8>)
    requires
        a.len() == b.len(),
        le_value(a) == le_value(b),
    ensures
        a == b,
    decreases a.len(),
{
    if a.len() > 0 {
        let x = a[0] as int;
        let y = b[0] as int;
        let ra = le_value(a.drop_first()) as int;
        let rb = le_value(b.drop_first()) as int;
        assert(x == y && ra == rb) by (nonlinear_arith)
            requires
                0 <= x < 256,
                0 <= y < 256,
                0 <= ra,
                0 <= rb,
                x + 256 * ra == y + 256 * rb,
        ;
        lemma_le_injective(a.drop_first(), b.drop_first());
        assert(a =~= b) by {
            assert forall|i: int| 0 <= i < a.len() implies a[i] == b[i] by {
                if i > 0 {
                    assert(a[i] == a.drop_first()[i - 1]);
                    assert(b[i] == b.drop_first()[i - 1]);
                }
            }
        }
    }
}

/// A 32-byte block is the bytes of its own value.
proof fn lemma_bytes_of(a: Seq<u8>)
    requires
        a.len() == 32,
    ensures
        bytes_of(le_value(a)) == a,
{
    let s = bytes_of(le_value(a));
    assert(exists|t: Seq<u8>| t.len() == 32 && le_value(t) == le_value(a)) by {
        assert(a.len() == 32 && le_value(a) == le_value(a));
    }
    lemma_le_injective(s, a);
}

proof fn lemma_le_parity(s: Seq<u8>)
    requires
        s.len() > 0,
    ensures
        le_value(s) % 2 == (s[0] as nat) % 2,
{
    let x = s[0] as int;
    let r = le_value(s.drop_first()) as int;
    assert((x + 256 * r) % 2 == x % 2) by (nonlinear_arith)
        requires
            0 <= x,
            0 <= r,
    ;
}

proof fn lemma_le_zero(s: Seq<u8>)
    ensures
        le_value(s) == 0 <==> forall|i: int| 0 <= i < s.len() ==> s[i] == 0,
    decreases s.len(),
{
    if s.len() > 0 {
        lemma_le_zero(s.drop_first());
        if le_value(s) == 0 {
            assert forall|i: int| 0 <= i < s.len() implies s[i] == 0 by {
                if i > 0 {
                    assert(s[i] == s.drop_first()[i - 1]);
                }
            }
        }
        if forall|i: int| 0 <= i < s.len() ==> s[i] == 0 {
            assert forall|i: int| 0 <= i < s.drop_first().len() implies s.drop_first()[i] == 0 by {
                assert(s.drop_first()[i] == s[i + 1]);
            }
        }
    }
}

/// The image of `x < p` under the square-root permutation, `e = (p + 1) / 4`:
/// zero stays zero; where `x` is a nonzero square modulo `p`, its root
/// `y = x^e mod p` made even by taking `p - y` if odd; otherwise the root `z`
/// of `p - x` made odd by taking `p - z` if even and nonzero. For the prime
/// `p = 3 (mod 4)`, `x` is a nonzero square exactly where the Jacobi symbol
/// `(x/p)` is 1, and `y^2 = x` tells it; every image is below `p`, and the
/// inverse, one squaring, maps zero back to zero.
pub open spec fn sqrt_value(x: nat, p: nat, e: nat) -> nat {
    if x == 0 {
        0
    } else {
        let y = (pow(x as int, e) % (p as int)) as nat;
        if pow(y as int, 2) % (p as int) == x {
            if y % 2 == 1 {
                (p - y) as nat
            } else {
                y
            }
        } else {
            let z = (pow((p - x) as int, e) % (p as int)) as nat;
            if z % 2 == 0 && z != 0 {
                (p - z) as nat
            } else {
                z
            }
        }
    }
}

/// Every image of the permutation is below the prime.
pub proof fn lemma_sqrt_below_prime(x: nat, p: nat, e: nat)
    requires
        p > 0,
        x < p,
    ensures
        sqrt_value(x, p, e) < p,
{
}

/// The inverse of the square-root permutation: `x^2 mod p`, replaced by
/// `p` minus it where `x` is odd.
pub open spec fn inverse_value(x: nat, p: nat) -> nat {
    let y = (pow(x as int, 2) % (p as int)) as nat;
    if x % 2 == 1 {
        (p - y) as nat
    } else {
        y
    }
}

/// Relies on num-bigint's `BigUint::modpow`, which panics only on a zero
/// modulus; the result is below the modulus and so fits in 32 bytes.
#[verifier::external_body]
fn big_pow_mod(base: &[u8; 32], exponent: &[u8; 32], modulus: &[u8; 32]) -> (r: [u8; 32])
    requires
        le_value(modulus@) > 0,
    ensures
        le_value(r@) == pow(le_value(base@) as int, le_value(exponent@)) % (le_value(
            modulus@,
        ) as int),
{
    let m = BigUint::from_bytes_le(modulus);
    let v = BigUint::from_bytes_le(base).modpow(&BigUint::from_bytes_le(exponent), &m);
    let bytes = v.to_bytes_le();
    let mut out = [0u8; 32];
    out[..bytes.len()].copy_from_slice(&bytes);
    out
}

/// Relies on num-bigint's `Sub` for `BigUint`, which panics when the result
/// would be negative.
#[verifier::external_body]
fn big_sub(a: &[u8; 32], b: &[u8; 32]) -> (r: [u8; 32])
    requires
        le_value(b@) <= le_value(a@),
    ensures
        le_value(r@) == le_value(a@) - le_value(b@),
{
    let v = BigUint::from_bytes_le(a) - BigUint::from_bytes_le(b);
    let bytes = v.to_bytes_le();
    let mut out = [0u8; 32];
    out[..bytes.len()].copy_from_slice(&bytes);
    out
}

/// Relies on num-bigint's `Ord` for `BigUint`: numeric order.
#[verifier::external_body]
fn big_lt(a: &[u8; 32], b: &[u8; 32]) -> (r: bool)
    ensures
        r == (le_value(a@) < le_value(b@)),
{
    BigUint::from_bytes_le(a) < BigUint::from_bytes_le(b)
}

fn is_odd(x: &[u8; 32]) -> (r: bool)
    ensures
        r == (le_value(x@) % 2 == 1),
{
    proof {
        lemma_le_parity(x@);
    }
    let b = x[0];
    assert((b & 1 == 1) == (b % 2 == 1)) by (bit_vector);
    b & 1 == 1
}

fn is_one(x: &[u8; 32]) -> (r: bool)
    ensures
        r == (le_value(x@) == 1),
{
    proof {
        lemma_le_zero(x@.drop_first());
    }
    if x[0] != 1 {
        proof {
            if le_value(x@) == 1 {
                let r = le_value(x@.drop_first()) as int;
                let b = x@[0] as int;
                assert(b == 1) by (nonlinear_arith)
                    requires
                        0 <= b < 256,
                        0 <= r,
                        b + 256 * r == 1,
                ;
            }
        }
        return false;
    }
    let mut i: usize = 1;
    while i < 32
        invariant
            1 <= i <= 32,
            x@[0] == 1,
            forall|j: int| 1 <= j < i ==> x@[j] == 0,
        decreases 32 - i,
    {
        if x[i] != 0 {
            proof {
                lemma_le_zero(x@.drop_first());
                assert(x@.drop_first()[i - 1] != 0);
                assert(le_value(x@) == x@[0] as nat + 256 * le_value(x@.drop_first()));
                if le_value(x@) == 1 {
                    let r = le_value(x@.drop_first()) as int;
                    assert(r == 0) by (nonlinear_arith)
                        requires
                            0 <= r,
                            1 + 256 * r == 1,
                    ;
                }
            }
            return false;
        }
        i += 1;
    }
    proof {
        assert forall|j: int| 0 <= j < x@.drop_first().len() implies x@.drop_first()[j] == 0 by {
            assert(x@.drop_first()[j] == x@[j + 1]);
        }
    }
    true
}

fn two_block() -> (r: [u8; 32])
    ensures
        le_value(r@) == 2,
{
    let mut two = [0u8; 32];
    two[0] = 2;
    proof {
        lemma_le_zero(two@.drop_first());
        assert forall|j: int| 0 <= j < two@.drop_first().len() implies two@.drop_first()[j] == 0 by {
            assert(two@.drop_first()[j] == two@[j + 1]);
        }
    }
    two
}

fn is_zero(x: &[u8; 32]) -> (r: bool)
    ensures
        r == (le_value(x@) == 0),
{
    proof {
        lemma_le_zero(x@);
    }
    let mut i: usize = 0;
    while i < 32
        invariant
            i <= 32,
            forall|j: int| 0 <= j < i ==> x@[j] == 0,
        decreases 32 - i,
    {
        if x[i] != 0 {
            proof {
                lemma_le_zero(x@);
            }
            return false;
        }
        i += 1;
    }
    proof {
        lemma_le_zero(x@);
    }
    true
}

fn big_eq(a: &[u8; 32], b: &[u8; 32]) -> (r: bool)
    ensures
        r == (le_value(a@) == le_value(b@)),
{
    let r = crate::block::ids_equal(a, b);
    proof {
        if le_value(a@) == le_value(b@) {
            lemma_le_injective(a@, b@);
            vstd::array::axiom_array_ext_equal(*a, *b);
        }
    }
    r
}

/// The bytes of `p = 2^256 - 189`, the largest prime below `2^256`; `p = 3 (mod 4)`.
pub open spec fn prime_bytes() -> Seq<u8> {
    Seq::new(32, |i: int| if i == 0 { 0x43u8 } else { 0xffu8 })
}

/// The bytes of `(p + 1) / 4 = 2^254 - 47`.
pub open spec fn exponent_bytes() -> Seq<u8> {
    Seq::new(32, |i: int| if i == 0 { 0xd1u8 } else if i == 31 { 0x3fu8 } else { 0xffu8 })
}

/// The Sloth permutation over one prime, with its exponents.
pub struct Sloth {
    pub block_size_bits: usize,
    pub block_size_bytes: usize,
    pub prime: [u8; 32],
    pub exponent: [u8; 32],
}

/// All 32 bytes as blocks, in order.
pub open spec fn split_blocks(p: Seq<u8>) -> Seq<Seq<u8>> {
    Seq::new(128, |i: int| p.subrange(32 * i, 32 * i + 32))
}

/// The bytes of each block.
pub open spec fn blocks_view(v: Seq<[u8; 32]>) -> Seq<Seq<u8>> {
    v.map_values(|a: [u8; 32]| a@)
}

fn piece_to_blocks(piece: &[u8; 4096]) -> (r: Vec<[u8; 32]>)
    ensures
        r@.len() == 128,
        blocks_view(r@) == split_blocks(piece@),
{
    let mut blocks: Vec<[u8; 32]> = Vec::new();
    let mut i: usize = 0;
    while i < BLOCKS_PER_ENCODING
        invariant
            i <= 128,
            blocks@.len() == i,
            forall|k: int| 0 <= k < i ==> (#[trigger] blocks@[k])@ == piece@.subrange(32 * k, 32 * k + 32),
        decreases 128 - i,
    {
        let mut b = [0u8; 32];
        let mut j: usize = 0;
        while j < 32
            invariant
                i < 128,
                j <= 32,
                forall|t: int| 0 <= t < j ==> b@[t] == piece@[32 * i + t],
            decreases 32 - j,
        {
            assert(32 * i + j < 4096) by (nonlinear_arith)
                requires
                    i < 128,
                    j < 32,
            ;
            b[j] = piece[32 * i + j];
            j += 1;
        }
        assert(b@ =~= piece@.subrange(32 * i as int, 32 * i as int + 32));
        blocks.push(b);
        i += 1;
    }
    assert(blocks_view(blocks@) =~= split_blocks(piece@));
    blocks
}

proof fn lemma_join_len(bs: Seq<Seq<u8>>)
    requires
        forall|k: int| 0 <= k < bs.len() ==> (#[trigger] bs[k]).len() == 32,
    ensures
        join_blocks(bs).len() == 32 * bs.len(),
    decreases bs.len(),
{
    if bs.len() > 0 {
        lemma_join_len(bs.drop_last());
    }
}

fn blocks_to_piece(blocks: &Vec<[u8; 32]>, piece: &mut [u8; 4096])
    requires
        blocks@.len() == 128,
    ensures
        final(piece)@ == join_blocks(blocks_view(blocks@)),
{
    let mut bytes: Vec<u8> = Vec::new();
    let mut i: usize = 0;
    while i < blocks.len()
        invariant
            i <= blocks@.len(),
            bytes@ == join_blocks(blocks_view(blocks@).subrange(0, i as int)),
        decreases blocks@.len() - i,
    {
        push_bytes(&mut bytes, blocks[i].as_slice());
        proof {
            let pre = blocks_view(blocks@).subrange(0, i as int + 1);
            assert(pre.drop_last() =~= blocks_view(blocks@).subrange(0, i as int));
        }
        i += 1;
    }
    assert(blocks_view(blocks@).subrange(0, i as int) =~= blocks_view(blocks@));
    proof {
        lemma_join_len(blocks_view(blocks@));
    }
    let mut k: usize = 0;
    while k < PIECE_SIZE
        invariant
            bytes@.len() == 4096,
            k <= 4096,
            forall|t: int| 0 <= t < k ==> piece@[t] == bytes@[t],
        decreases 4096 - k,
    {
        piece[k] = bytes[k];
        k += 1;
    }
    assert(piece@ =~= bytes@);
}

/// The blocks joined back into bytes.
pub open spec fn join_blocks(bs: Seq<Seq<u8>>) -> Seq<u8>
    decreases bs.len(),
{
    if bs.len() == 0 {
        Seq::empty()
    } else {
        join_blocks(bs.drop_last()) + bs.last()
    }
}

impl Sloth {
    pub open spec fn wf(&self) -> bool {
        &&& self.block_size_bits == 256
        &&& self.block_size_bytes == 32
        &&& self.prime@ == prime_bytes()
        &&& self.exponent@ == exponent_bytes()
    }

    pub open spec fn p(&self) -> nat {
        le_value(self.prime@)
    }

    /// The permutation of one block, if its value is below the prime.
    pub open spec fn perm(&self, x: Seq<u8>) -> Option<Seq<u8>> {
        if le_value(x) < self.p() {
            Some(
                bytes_of(
                    sqrt_value(le_value(x), self.p(), le_value(self.exponent@)),
                ),
            )
        } else {
            None
        }
    }

    pub open spec fn inv(&self, x: Seq<u8>) -> Seq<u8> {
        bytes_of(inverse_value(le_value(x), self.p()))
    }

    /// The first `n` blocks encoded in order from feedback `fb`: each block is
    /// XORed with the feedback, permuted, and becomes the next feedback.
    pub open spec fn encode_blocks(&self, bs: Seq<Seq<u8>>, fb: Seq<u8>, n: nat) -> Option<
        (Seq<Seq<u8>>, Seq<u8>),
    >
        decreases n,
    {
        if n == 0 {
            Some((bs, fb))
        } else {
            match self.encode_blocks(bs, fb, (n - 1) as nat) {
                None => None,
                Some(st) => match self.perm(xor_seq(st.0[n - 1], st.1)) {
                    None => None,
                    Some(y) => Some((st.0.update(n - 1, y), y)),
                },
            }
        }
    }

    /// `layers` passes over all blocks, the feedback carried across passes.
    pub open spec fn encode_layers(&self, bs: Seq<Seq<u8>>, fb: Seq<u8>, layers: nat) -> Option<
        (Seq<Seq<u8>>, Seq<u8>),
    >
        decreases layers,
    {
        if layers == 0 {
            Some((bs, fb))
        } else {
            match self.encode_layers(bs, fb, (layers - 1) as nat) {
                None => None,
                Some(st) => self.encode_blocks(st.0, st.1, st.0.len()),
            }
        }
    }

    /// One decoding pass: every block but the first is inverted and XORed with
    /// the block before it as it was; the first is inverted, and on every pass
    /// but the last XORed with the newly decoded last block.
    pub open spec fn decode_layer(&self, bs: Seq<Seq<u8>>, last: bool) -> Seq<Seq<u8>> {
        Seq::new(
            bs.len(),
            |i: int|
                if i > 0 {
                    xor_seq(self.inv(bs[i]), bs[i - 1])
                } else if last {
                    self.inv(bs[0])
                } else {
                    xor_seq(self.inv(bs[0]), xor_seq(self.inv(bs[bs.len() - 1]), bs[bs.len() - 2]))
                },
        )
    }

    /// The first `n` of `layers` decoding passes.
    pub open spec fn decode_layers(&self, bs: Seq<Seq<u8>>, n: nat, layers: nat) -> Seq<Seq<u8>>
        decreases n,
    {
        if n == 0 {
            bs
        } else {
            self.decode_layer(self.decode_layers(bs, (n - 1) as nat, layers), n == layers)
        }
    }

    /// Sloth for 256-bit blocks over `p = 2^256 - 189`.
    pub fn init(bits: usize) -> (r: Self)
        requires
            bits == PRIME_SIZE_BITS,
        ensures
            r.wf(),
    {
        let mut prime = [0xffu8; 32];
        prime[0] = 0x43;
        let mut exponent = [0xffu8; 32];
        exponent[0] = 0xd1;
        exponent[31] = 0x3f;
        assert(prime@ =~= prime_bytes());
        assert(exponent@ =~= exponent_bytes());
        Sloth {
            block_size_bits: bits,
            block_size_bytes: PRIME_SIZE_BYTES,
            prime,
            exponent,
        }
    }

    proof fn lemma_prime_positive(&self)
        requires
            self.wf(),
        ensures
            self.p() > 0,
    {
        lemma_le_zero(self.prime@);
        assert(self.prime@[0] != 0);
    }

    /// Applies the square-root permutation to a block below the prime; a block
    /// that is not below it is refused and left as it is.
    pub fn sqrt_permutation(&self, data: &mut [u8; 32]) -> (r: Result<(), NodeError>)
        requires
            self.wf(),
        ensures
            le_value(old(data)@) >= self.p() ==> r == Err::<(), NodeError>(NodeError::InvalidBlock)
                && *final(data) == *old(data),
            le_value(old(data)@) < self.p() ==> r is Ok && le_value(final(data)@) == sqrt_value(
                le_value(old(data)@),
                self.p(),
                le_value(self.exponent@),
            ),
            r is Ok ==> le_value(final(data)@) < self.p(),
    {
        proof {
            self.lemma_prime_positive();
        }
        if !big_lt(data, &self.prime) {
            return Err(NodeError::InvalidBlock);
        }
        if is_zero(data) {
            return Ok(());
        }
        let two = two_block();
        let y = big_pow_mod(data, &self.exponent, &self.prime);
        let root_squared = big_pow_mod(&y, &two, &self.prime);
        if big_eq(&root_squared, data) {
            if is_odd(&y) {
                *data = big_sub(&self.prime, &y);
            } else {
                *data = y;
            }
        } else {
            let negated = big_sub(&self.prime, data);
            let z = big_pow_mod(&negated, &self.exponent, &self.prime);
            if !is_odd(&z) && !is_zero(&z) {
                *data = big_sub(&self.prime, &z);
            } else {
                *data = z;
            }
        }
        Ok(())
    }

    /// Inverts the permutation with one squaring modulo the prime.
    pub fn inverse_sqrt(&self, data: &mut [u8; 32])
        requires
            self.wf(),
        ensures
            le_value(final(data)@) == inverse_value(le_value(old(data)@), self.p()),
    {
        proof {
            self.lemma_prime_positive();
        }
        let odd = is_odd(data);
        let two = two_block();
        let squared = big_pow_mod(data, &two, &self.prime);
        if odd {
            *data = big_sub(&self.prime, &squared);
        } else {
            *data = squared;
        }
    }

    proof fn lemma_encode_blocks_len(&self, bs: Seq<Seq<u8>>, fb: Seq<u8>, n: nat)
        requires
            n <= bs.len(),
        ensures
            self.encode_blocks(bs, fb, n) matches Some(st) ==> st.0.len() == bs.len(),
        decreases n,
    {
        if n > 0 {
            self.lemma_encode_blocks_len(bs, fb, (n - 1) as nat);
        }
    }

    proof fn lemma_encode_blocks_stuck(&self, bs: Seq<Seq<u8>>, fb: Seq<u8>, n: nat, m: nat)
        requires
            n <= m,
            self.encode_blocks(bs, fb, n) is None,
        ensures
            self.encode_blocks(bs, fb, m) is None,
        decreases m - n,
    {
        if n < m {
            self.lemma_encode_blocks_stuck(bs, fb, n, (m - 1) as nat);
        }
    }

    proof fn lemma_encode_layers_stuck(&self, bs: Seq<Seq<u8>>, fb: Seq<u8>, n: nat, m: nat)
        requires
            n <= m,
            self.encode_layers(bs, fb, n) is None,
        ensures
            self.encode_layers(bs, fb, m) is None,
        decreases m - n,
    {
        if n < m {
            self.lemma_encode_layers_stuck(bs, fb, n, (m - 1) as nat);
        }
    }

    /// Encodes a piece in place: `layers` passes over its 128 blocks, each
    /// block XORed with the feedback, which starts as the expanded IV, then
    /// permuted and carried forward as the feedback. A block that reaches the
    /// permutation at or above the prime fails the encoding and the piece is
    /// left as it was.
    pub fn encode(&self, piece: &mut [u8; 4096], expanded_iv: [u8; 32], layers: usize) -> (r: Result<(), NodeError>)
        requires
            self.wf(),
        ensures
            match self.encode_layers(split_blocks(old(piece)@), expanded_iv@, layers as nat) {
                None => r is Err && *final(piece) == *old(piece),
                Some(st) => r is Ok && final(piece)@ == join_blocks(st.0) && (layers >= 1
                    ==> forall|i: int| 0 <= i < 128 ==> #[trigger] le_value(st.0[i]) < self.p()),
            },
    {
        let mut blocks = piece_to_blocks(piece);
        let ghost bs0 = split_blocks(piece@);
        let mut feedback = expanded_iv;
        let mut l: usize = 0;
        while l < layers
            invariant
                self.wf(),
                *piece == *old(piece),
                bs0 == split_blocks(old(piece)@),
                blocks@.len() == 128,
                l <= layers,
                self.encode_layers(bs0, expanded_iv@, l as nat) == Some((blocks_view(blocks@), feedback@)),
                l >= 1 ==> forall|j: int| 0 <= j < 128 ==> #[trigger] le_value(blocks@[j]@) < self.p(),
            decreases layers - l,
        {
            let ghost start = blocks_view(blocks@);
            let ghost fb0 = feedback@;
            let mut i: usize = 0;
            while i < blocks.len()
                invariant
                    self.wf(),
                    *piece == *old(piece),
                    bs0 == split_blocks(old(piece)@),
                    l < layers,
                    blocks@.len() == 128,
                    start.len() == 128,
                    i <= 128,
                    self.encode_layers(bs0, expanded_iv@, l as nat) == Some((start, fb0)),
                    self.encode_blocks(start, fb0, i as nat) == Some((blocks_view(blocks@), feedback@)),
                    forall|j: int| 0 <= j < 128 && (j < i || l >= 1) ==> #[trigger] le_value(blocks@[j]@) < self.p(),
                decreases 128 - i,
            {
                let mut x = blocks[i];
                xor_bytes(&mut x, &feedback);
                let ghost mixed = x@;
                match self.sqrt_permutation(&mut x) {
                    Ok(()) => {},
                    Err(e) => {
                        proof {
                            assert(blocks_view(blocks@)[i as int] == blocks@[i as int]@);
                            assert(self.encode_blocks(start, fb0, (i + 1) as nat) is None);
                            self.lemma_encode_blocks_stuck(start, fb0, (i + 1) as nat, 128);
                            assert(self.encode_layers(bs0, expanded_iv@, (l + 1) as nat) is None);
                            self.lemma_encode_layers_stuck(bs0, expanded_iv@, (l + 1) as nat, layers as nat);
                        }
                        return Err(e);
                    },
                }
                proof {
                    lemma_bytes_of(x@);
                    assert(blocks_view(blocks@)[i as int] == blocks@[i as int]@);
                    assert(self.perm(mixed) == Some(x@));
                }
                let ghost before = blocks_view(blocks@);
                let ghost before_arr = blocks@;
                blocks.set(i, x);
                feedback = x;
                proof {
                    assert forall|j: int| 0 <= j < 128 && (j < i + 1 || l >= 1) implies #[trigger] le_value(blocks@[j]@) < self.p() by {
                        if j != i {
                            assert(blocks@[j] == before_arr[j]);
                        }
                    }
                }
                proof {
                    assert(blocks_view(blocks@) =~= before.update(i as int, x@));
                }
                i += 1;
            }
            proof {
                self.lemma_encode_blocks_len(start, fb0, 128);
            }
            l += 1;
            assert forall|j: int| 0 <= j < 128 implies #[trigger] le_value(blocks@[j]@) < self.p() by {}
        }
        blocks_to_piece(&blocks, piece);
        proof {
            assert forall|j: int| layers >= 1 && 0 <= j < 128 implies #[trigger] le_value(blocks_view(blocks@)[j]) < self.p() by {
                assert(blocks_view(blocks@)[j] == blocks@[j]@);
            }
        }
        Ok(())
    }

    /// Decodes a piece in place: `layers` decoding passes, then the expanded
    /// IV XORed out of the first block.
    pub fn decode(&self, piece: &mut [u8; 4096], expanded_iv: [u8; 32], layers: usize)
        requires
            self.wf(),
        ensures
            ({
                let d = self.decode_layers(split_blocks(old(piece)@), layers as nat, layers as nat);
                final(piece)@ == join_blocks(d.update(0, xor_seq(d[0], expanded_iv@)))
            }),
    {
        let mut blocks = piece_to_blocks(piece);
        let ghost bs0 = split_blocks(piece@);
        let mut l: usize = 0;
        while l < layers
            invariant
                self.wf(),
                blocks@.len() == 128,
                l <= layers,
                bs0 == split_blocks(old(piece)@),
                self.decode_layers(bs0, l as nat, layers as nat) == blocks_view(blocks@),
            decreases layers - l,
        {
            let ghost start = blocks_view(blocks@);
            let last = l + 1 == layers;
            let ghost want = self.decode_layer(start, last);
            let mut i: usize = 127;
            while i > 0
                invariant
                    self.wf(),
                    blocks@.len() == 128,
                    start.len() == 128,
                    1 <= i + 1 <= 128,
                    forall|j: int| i < j < 128 ==> blocks_view(blocks@)[j] == want[j],
                    forall|j: int| 0 <= j <= i ==> blocks_view(blocks@)[j] == start[j],
                    want == self.decode_layer(start, last),
                decreases i,
            {
                let mut x = blocks[i];
                self.inverse_sqrt(&mut x);
                proof {
                    lemma_bytes_of(x@);
                }
                let prev = blocks[i - 1];
                xor_bytes(&mut x, &prev);
                proof {
                    assert(blocks_view(blocks@)[i as int] == blocks@[i as int]@);
                    assert(blocks_view(blocks@)[i - 1] == blocks@[i - 1]@);
                    assert(x@ == want[i as int]);
                }
                let ghost before = blocks_view(blocks@);
                blocks.set(i, x);
                proof {
                    assert(blocks_view(blocks@) =~= before.update(i as int, x@));
                }
                i -= 1;
            }
            let mut x = blocks[0];
            self.inverse_sqrt(&mut x);
            proof {
                lemma_bytes_of(x@);
                assert(blocks_view(blocks@)[0] == blocks@[0]@);
                assert(blocks_view(blocks@)[0] == start[0]);
                assert(x@ == self.inv(start[0]));
            }
            if !last {
                let tail = blocks[127];
                xor_bytes(&mut x, &tail);
                proof {
                    assert(blocks_view(blocks@)[127] == blocks@[127]@);
                    assert(blocks_view(blocks@)[127] == want[127]);
                    assert(want[127] == xor_seq(self.inv(start[127]), start[126]));
                    assert(x@ == want[0]);
                }
            } else {
                assert(x@ == want[0]);
            }
            let ghost before = blocks_view(blocks@);
            blocks.set(0, x);
            proof {
                assert(blocks_view(blocks@) =~= before.update(0, x@));
                assert(blocks_view(blocks@) =~= want);
            }
            l += 1;
        }
        let ghost d = blocks_view(blocks@);
        let mut first = blocks[0];
        xor_bytes(&mut first, &expanded_iv);
        blocks.set(0, first);
        proof {
            assert(blocks_view(blocks@) =~= d.update(0, xor_seq(d[0], expanded_iv@)));
        }
        blocks_to_piece(&blocks, piece);
    }
}

} // verus!
