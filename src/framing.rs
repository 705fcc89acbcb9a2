use vstd::prelude::*;

verus! {

/// The largest payload a frame can carry.
pub const MAX_MESSAGE_CONTENTS_LENGTH: usize = 65535;

/// The two-byte little-endian length header of a payload of `n` bytes.
pub open spec fn header(n: nat) -> Seq<u8> {
    seq![(n % 256) as u8, ((n / 256) % 256) as u8]
}

/// The payload preceded by its two-byte little-endian length.
pub fn frame(payload: &[u8]) -> (r: Option<Vec<u8>>)
    ensures
        payload@.len() <= MAX_MESSAGE_CONTENTS_LENGTH <==> r is Some,
        r matches Some(v) ==> v@ == header(payload@.len()) + payload@,
{
    if payload.len() > MAX_MESSAGE_CONTENTS_LENGTH {
        return None;
    }
    let n = payload.len();
    let mut out: Vec<u8> = Vec::new();
    out.push((n % 256) as u8);
    out.push((n / 256) as u8);
    out.extend_from_slice(payload);
    assert(out@ =~= header(payload@.len()) + payload@);
    Some(out)
}

/// Reads the first frame of `input`: its payload and the number of bytes it
/// takes. Nothing is read from an input of two bytes or fewer, nor while the
/// payload has not fully arrived.
pub fn extract_message(input: &[u8]) -> (r: Option<(Vec<u8>, usize)>)
    ensures
        r is None <==> (input@.len() <= 2 || input@[0] + 256 * input@[1] > input@.len() - 2),
        r matches Some((m, n)) ==> n == 2 + m@.len() && input@.subrange(0, 2) == header(m@.len())
            && input@.subrange(2, n as int) == m@,
        forall|p: Seq<u8>|
            #![trigger header(p.len())]
            input@.len() > 2 && p.len() <= MAX_MESSAGE_CONTENTS_LENGTH && 2 + p.len() <= input@.len()
                && input@.subrange(0, 2 + p.len() as int) == header(p.len()) + p ==> (r matches Some(
                (m, n),
            ) && m@ == p && n == 2 + p.len()),
{
    if input.len() <= 2 {
        return None;
    }
    let length = input[0] as usize + 256 * input[1] as usize;
    proof {
        assert forall|p: Seq<u8>|
            #![trigger header(p.len())]
            input@.len() > 2 && p.len() <= MAX_MESSAGE_CONTENTS_LENGTH && 2 + p.len() <= input@.len()
                && input@.subrange(0, 2 + p.len() as int) == header(p.len()) + p implies length
            == p.len() by {
            let whole = input@.subrange(0, 2 + p.len() as int);
            assert(whole[0] == input@[0] && whole[1] == input@[1]);
            assert((header(p.len()) + p)[0] == header(p.len())[0]);
            assert((header(p.len()) + p)[1] == header(p.len())[1]);
            let n = p.len();
            assert(n % 256 + 256 * ((n / 256) % 256) == n) by (nonlinear_arith)
                requires
                    n <= 65535,
            ;
        }
    }
    if input.len() - 2 < length {
        return None;
    }
    let m = vstd::slice::slice_to_vec(vstd::slice::slice_subrange(input, 2, 2 + length));
    proof {
        let b0 = input@[0] as nat;
        let b1 = input@[1] as nat;
        assert((b0 + 256 * b1) % 256 == b0 && ((b0 + 256 * b1) / 256) % 256 == b1) by (nonlinear_arith)
            requires
                b0 < 256,
                b1 < 256,
        ;
        assert(input@.subrange(0, 2) =~= header(m@.len()));
        assert forall|p: Seq<u8>|
            #![trigger header(p.len())]
            input@.len() > 2 && p.len() <= MAX_MESSAGE_CONTENTS_LENGTH && 2 + p.len() <= input@.len()
                && input@.subrange(0, 2 + p.len() as int) == header(p.len()) + p implies m@ == p by {
            let whole = input@.subrange(0, 2 + p.len() as int);
            assert(length == p.len());
            assert forall|i: int| 0 <= i < p.len() implies m@[i] == p[i] by {
                assert(whole[2 + i] == (header(p.len()) + p)[2 + i]);
            }
            assert(m@ =~= p);
        }
    }
    Some((m, 2 + length))
}

} // verus!
