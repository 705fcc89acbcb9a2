use bitintr::Lzcnt;
use num_bigint::{BigUint, ToBigUint};
use num_traits::cast::ToPrimitive;
use vstd::prelude::*;
use vstd::std_specs::bits::u8_leading_zeros;

verus! {

/// The unsigned integer that a byte sequence denotes, most significant byte first.
pub open spec fn be_value(s: Seq<u8>) -> nat
    decreases s.len(),
{
    if s.len() == 0 {
        0
    } else {
        be_value(s.drop_last()) * 256 + s.last() as nat
    }
}

/// Bytewise XOR of `a` with the first `a.len()` bytes of `b`.
pub open spec fn xor_seq(a: Seq<u8>, b: Seq<u8>) -> Seq<u8> {
    Seq::new(a.len(), |i: int| a[i] ^ b[i])
}

/// The four bytes of `x`, most significant first.
pub open spec fn u32_be_bytes(x: u32) -> Seq<u8> {
    seq![
        (x / 0x100_0000) as u8,
        ((x / 0x1_0000) % 0x100) as u8,
        ((x / 0x100) % 0x100) as u8,
        (x % 0x100) as u8,
    ]
}

/// Number of leading zero bits of a byte sequence, counting across bytes while
/// they are all zero.
pub open spec fn quality_of(s: Seq<u8>) -> nat
    decreases s.len(),
{
    if s.len() == 0 {
        0
    } else if u8_leading_zeros(s[0]) < 8 {
        u8_leading_zeros(s[0]) as nat
    } else {
        8 + quality_of(s.drop_first())
    }
}

/// XOR two byte slices, in place into `a`.
pub fn xor_bytes(a: &mut [u8], b: &[u8])
    requires
        b@.len() >= old(a)@.len(),
    ensures
        final(a)@ == xor_seq(old(a)@, b@),
{
    let n = a.len();
    let mut i: usize = 0;
    while i < n
        invariant
            n == a@.len(),
            n == old(a)@.len(),
            b@.len() >= n,
            i <= n,
            forall|j: int| 0 <= j < i ==> a@[j] == old(a)@[j] ^ b@[j],
            forall|j: int| i <= j < n ==> a@[j] == old(a)@[j],
        decreases n - i,
    {
        let x = a[i] ^ b[i];
        a[i] = x;
        i += 1;
    }
    assert(a@ =~= xor_seq(old(a)@, b@));
}

/// Convert a usize integer to a 16-byte array: its low 32 bits big-endian, then zeros.
pub fn usize_to_bytes(number: usize) -> (r: [u8; 16])
    ensures
        r@ == u32_be_bytes(number as u32) + Seq::new(12, |i: int| 0u8),
{
    let x = number as u32;
    let mut iv = [0u8; 16];
    iv[0] = (x / 0x100_0000) as u8;
    iv[1] = ((x / 0x1_0000) % 0x100) as u8;
    iv[2] = ((x / 0x100) % 0x100) as u8;
    iv[3] = (x % 0x100) as u8;
    assert(iv@ =~= u32_be_bytes(number as u32) + Seq::new(12, |i: int| 0u8));
    iv
}

/// Relies on num-bigint: `BigUint::from_bytes_be`, `%` and `to_usize` give the
/// remainder of the big-endian integer of `a` divided by `n`.
#[verifier::external_body]
fn big_remainder(a: &[u8], n: usize) -> (r: usize)
    requires
        n > 0,
    ensures
        r == be_value(a@) % (n as nat),
{
    let m = BigUint::from_bytes_be(a) % n.to_biguint().unwrap();
    m.to_usize().unwrap()
}

/// Compute the remainder of an arbitrary sized big-endian byte slice for a given modulus.
pub fn modulo(a: &[u8], n: usize) -> (r: usize)
    requires
        n > 0,
    ensures
        r == be_value(a@) % (n as nat),
        r < n,
{
    big_remainder(a, n)
}

/// Relies on bitintr's `Lzcnt` for `u8`: the number of leading zero bits.
#[verifier::external_body]
fn lzcnt_u8(b: u8) -> (r: u8)
    ensures
        r as u32 == u8_leading_zeros(b),
{
    b.lzcnt()
}

/// Count the number of leading zero bits in a slice of bytes.
pub fn measure_quality(tag: &[u8]) -> (r: u8)
    requires
        quality_of(tag@) <= 255,
    ensures
        r as nat == quality_of(tag@),
{
    let mut quality: u8 = 0;
    let mut i: usize = 0;
    assert(tag@.subrange(0, tag@.len() as int) =~= tag@);
    while i < tag.len()
        invariant
            quality_of(tag@) <= 255,
            i <= tag@.len(),
            quality as nat == 8 * i,
            quality_of(tag@) == quality + quality_of(tag@.subrange(i as int, tag@.len() as int)),
        decreases tag@.len() - i,
    {
        let zero_bits = lzcnt_u8(tag[i]);
        proof {
            vstd::std_specs::bits::axiom_u8_leading_zeros(tag@[i as int]);
            let rest = tag@.subrange(i as int, tag@.len() as int);
            assert(rest[0] == tag@[i as int]);
            assert(rest.drop_first() =~= tag@.subrange(i + 1, tag@.len() as int));
        }
        quality = quality + zero_bits;
        if zero_bits < 8 {
            return quality;
        }
        i += 1;
    }
    proof {
        assert(tag@.subrange(i as int, tag@.len() as int).len() == 0);
    }
    quality
}

} // verus!
