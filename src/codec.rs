use crate::block::{
    concat_ids, id_list, le8, with_len, Block, CoinbaseTx, Content, CreditTx, Data, Proof,
    Transaction,
};
use crate::Id;
use vstd::bytes::{
    lemma_auto_spec_u64_to_from_le_bytes, spec_u64_from_le_bytes, u64_from_le_bytes,
};
use vstd::prelude::*;
use vstd::slice::slice_subrange;

verus! {

/// `b` holds `s` at position `pos`.
pub open spec fn holds_at(b: Seq<u8>, pos: int, s: Seq<u8>) -> bool {
    0 <= pos && pos + s.len() <= b.len() && b.subrange(pos, pos + s.len()) == s
}

pub proof fn lemma_holds_join(b: Seq<u8>, pos: int, s1: Seq<u8>, s2: Seq<u8>)
    requires
        holds_at(b, pos, s1),
        holds_at(b, pos + s1.len(), s2),
    ensures
        holds_at(b, pos, s1 + s2),
{
    assert(b.subrange(pos, pos + (s1 + s2).len()) =~= s1 + s2) by {
        assert forall|i: int| 0 <= i < s1.len() + s2.len() implies b.subrange(
            pos,
            pos + (s1 + s2).len(),
        )[i] == (s1 + s2)[i] by {
            if i < s1.len() {
                assert(b.subrange(pos, pos + s1.len())[i] == s1[i]);
            } else {
                assert(b.subrange(pos + s1.len(), pos + s1.len() + s2.len())[i - s1.len()]
                    == s2[i - s1.len()]);
            }
        }
    }
}

pub proof fn lemma_holds_split(b: Seq<u8>, pos: int, s1: Seq<u8>, s2: Seq<u8>)
    requires
        holds_at(b, pos, s1 + s2),
    ensures
        holds_at(b, pos, s1),
        holds_at(b, pos + s1.len(), s2),
{
    let whole = b.subrange(pos, pos + s1.len() + s2.len());
    assert(whole == s1 + s2);
    assert(b.subrange(pos, pos + s1.len()) =~= s1) by {
        assert forall|i: int| 0 <= i < s1.len() implies b.subrange(pos, pos + s1.len())[i]
            == s1[i] by {
            assert(whole[i] == (s1 + s2)[i]);
        }
    }
    assert(b.subrange(pos + s1.len(), pos + s1.len() + s2.len()) =~= s2) by {
        assert forall|i: int| 0 <= i < s2.len() implies b.subrange(
            pos + s1.len(),
            pos + s1.len() + s2.len(),
        )[i] == s2[i] by {
            assert(whole[s1.len() + i] == (s1 + s2)[s1.len() + i]);
        }
    }
}

proof fn lemma_le8_injective(x: u64, y: u64)
    requires
        le8(x) == le8(y),
    ensures
        x == y,
{
    lemma_auto_spec_u64_to_from_le_bytes();
    assert(spec_u64_from_le_bytes(le8(x)) == x);
    assert(spec_u64_from_le_bytes(le8(y)) == y);
}

/// Reads a little-endian `u64` at `pos`.
pub fn read_u64(b: &[u8], pos: usize) -> (r: Option<(u64, usize)>)
    ensures
        r matches Some((x, n)) ==> n == pos + 8 && holds_at(b@, pos as int, le8(x)),
        forall|y: u64| #[trigger] holds_at(b@, pos as int, le8(y)) ==> r == Some((y, (pos + 8) as usize)),
{
    proof {
        lemma_auto_spec_u64_to_from_le_bytes();
    }
    if pos > b.len() || b.len() - pos < 8 {
        proof {
            assert forall|y: u64| !#[trigger] holds_at(b@, pos as int, le8(y)) by {
                assert(le8(y).len() == 8);
            }
        }
        return None;
    }
    let s = slice_subrange(b, pos, pos + 8);
    let x = u64_from_le_bytes(s);
    proof {
        assert(s@.len() == 8);
        assert(le8(x) == s@);
        assert forall|y: u64| #[trigger] holds_at(b@, pos as int, le8(y)) implies x == y by {
            assert(le8(y).len() == 8);
            lemma_le8_injective(x, y);
        }
    }
    Some((x, pos + 8))
}

/// Reads a 32-byte identifier at `pos`.
pub fn read_id(b: &[u8], pos: usize) -> (r: Option<(Id, usize)>)
    ensures
        r matches Some((x, n)) ==> n == pos + 32 && holds_at(b@, pos as int, x@),
        forall|y: Id| #[trigger] holds_at(b@, pos as int, y@) ==> r == Some((y, (pos + 32) as usize)),
{
    if pos > b.len() || b.len() - pos < 32 {
        return None;
    }
    let mut x = [0u8; 32];
    let n = b.len();
    let mut i: usize = 0;
    while i < 32
        invariant
            n == b@.len(),
            pos + 32 <= b@.len(),
            i <= 32,
            forall|j: int| 0 <= j < i ==> x@[j] == b@[pos + j],
        decreases 32 - i,
    {
        x[i] = b[pos + i];
        i += 1;
    }
    proof {
        assert(b@.subrange(pos as int, pos + 32) =~= x@);
        assert forall|y: Id| #[trigger] holds_at(b@, pos as int, y@) implies x == y by {
            assert(y@ =~= x@);
            vstd::array::axiom_array_ext_equal(x, y);
        }
    }
    Some((x, pos + 32))
}

/// Reads a byte string preceded by its length at `pos`.
pub fn read_with_len(b: &[u8], pos: usize) -> (r: Option<(Vec<u8>, usize)>)
    ensures
        r matches Some((v, n)) ==> n == pos + with_len(v@).len() && holds_at(
            b@,
            pos as int,
            with_len(v@),
        ),
        forall|s: Seq<u8>| #[trigger] holds_at(b@, pos as int, with_len(s)) ==> (r matches Some((v, n)) && v@ == s
            && n == pos + with_len(s).len()),
{
    let first = read_u64(b, pos);
    let (len, start) = match first {
        Some(x) => x,
        None => {
            proof {
                assert forall|s: Seq<u8>| !#[trigger] holds_at(b@, pos as int, with_len(s)) by {
                    if holds_at(b@, pos as int, with_len(s)) {
                        lemma_holds_split(b@, pos as int, le8(s.len() as u64), s);
                    }
                }
            }
            return None;
        },
    };
    proof {
        lemma_auto_spec_u64_to_from_le_bytes();
        assert(le8(len).len() == 8);
        assert(start <= b@.len());
    }
    if len > (b.len() - start) as u64 {
        proof {
            assert forall|s: Seq<u8>| !#[trigger] holds_at(b@, pos as int, with_len(s)) by {
                if holds_at(b@, pos as int, with_len(s)) {
                    lemma_holds_split(b@, pos as int, le8(s.len() as u64), s);
                    assert(first == Some((s.len() as u64, (pos + 8) as usize)));
                    assert(s.len() as u64 == len);
                }
            }
        }
        return None;
    }
    let end = start + len as usize;
    let v = vstd::slice::slice_to_vec(slice_subrange(b, start, end));
    proof {
        assert(v@ == b@.subrange(start as int, end as int));
        assert(holds_at(b@, start as int, v@));
        assert(v@.len() as u64 == len);
        lemma_holds_join(b@, pos as int, le8(len), v@);
        assert forall|s: Seq<u8>| #[trigger] holds_at(b@, pos as int, with_len(s)) implies v@ == s by {
            lemma_holds_split(b@, pos as int, le8(s.len() as u64), s);
            assert(first == Some((s.len() as u64, (pos + 8) as usize)));
            assert(s.len() as u64 == len);
            assert(s.len() == len);
        }
    }
    Some((v, end))
}

proof fn lemma_concat_ids_len(ids: Seq<Id>)
    ensures
        concat_ids(ids).len() == 32 * ids.len(),
    decreases ids.len(),
{
    if ids.len() > 0 {
        lemma_concat_ids_len(ids.drop_last());
    }
}

proof fn lemma_concat_ids_at(ids: Seq<Id>, k: int)
    requires
        0 <= k < ids.len(),
    ensures
        concat_ids(ids).subrange(32 * k, 32 * k + 32) == ids[k]@,
    decreases ids.len(),
{
    lemma_concat_ids_len(ids.drop_last());
    let front = concat_ids(ids.drop_last());
    if k < ids.len() - 1 {
        lemma_concat_ids_at(ids.drop_last(), k);
        assert(concat_ids(ids).subrange(32 * k, 32 * k + 32) =~= front.subrange(32 * k, 32 * k + 32));
    } else {
        assert(concat_ids(ids).subrange(32 * k, 32 * k + 32) =~= ids.last()@);
    }
}

proof fn lemma_concat_ids_injective(a: Seq<Id>, b: Seq<Id>)
    requires
        a.len() == b.len(),
        concat_ids(a) == concat_ids(b),
    ensures
        a == b,
{
    assert forall|k: int| 0 <= k < a.len() implies a[k] == b[k] by {
        lemma_concat_ids_at(a, k);
        lemma_concat_ids_at(b, k);
        vstd::array::axiom_array_ext_equal(a[k], b[k]);
    }
    assert(a =~= b);
}

/// Reads a list of identifiers preceded by its length at `pos`.
pub fn read_id_list(b: &[u8], pos: usize) -> (r: Option<(Vec<Id>, usize)>)
    ensures
        r matches Some((v, n)) ==> n == pos + id_list(v@).len() && holds_at(b@, pos as int, id_list(v@)),
        forall|s: Seq<Id>| #[trigger] holds_at(b@, pos as int, id_list(s)) ==> (r matches Some((v, n)) && v@ == s
            && n == pos + id_list(s).len()),
{
    proof {
        lemma_auto_spec_u64_to_from_le_bytes();
    }
    let blen = b.len();
    let first = read_u64(b, pos);
    let (count, start) = match first {
        Some(x) => x,
        None => {
            proof {
                assert forall|s: Seq<Id>| !#[trigger] holds_at(b@, pos as int, id_list(s)) by {
                    if holds_at(b@, pos as int, id_list(s)) {
                        lemma_holds_split(b@, pos as int, le8(s.len() as u64), concat_ids(s));
                    }
                }
            }
            return None;
        },
    };
    let mut ids: Vec<Id> = Vec::new();
    let mut at = start;
    let mut k: u64 = 0;
    proof {
        lemma_auto_spec_u64_to_from_le_bytes();
        assert(le8(count).len() == 8);
        assert(start <= b@.len());
        assert(b@.subrange(start as int, start as int) =~= concat_ids(ids@));
        assert forall|s: Seq<Id>| #[trigger] holds_at(b@, pos as int, id_list(s)) implies s.len()
            == count && ids@ == s.subrange(0, 0) by {
            lemma_holds_split(b@, pos as int, le8(s.len() as u64), concat_ids(s));
            lemma_concat_ids_len(s);
            assert(blen == b@.len());
            assert(first == Some((s.len() as u64, (pos + 8) as usize)));
            assert(s.len() as u64 == count);
            assert(s.subrange(0, 0) =~= ids@);
        }
    }
    while k < count
        invariant
            start == pos + 8,
            holds_at(b@, pos as int, le8(count)),
            blen == b@.len(),
            k <= count,
            ids@.len() == k,
            at == start + 32 * k,
            holds_at(b@, start as int, concat_ids(ids@)),
            forall|s: Seq<Id>| #[trigger] holds_at(b@, pos as int, id_list(s)) ==> s.len() == count && ids@ == s.subrange(0, k as int),
        decreases count - k,
    {
        let (id, next) = match read_id(b, at) {
            Some(x) => x,
            None => {
                proof {
                    assert forall|s: Seq<Id>| !#[trigger] holds_at(b@, pos as int, id_list(s)) by {
                        if holds_at(b@, pos as int, id_list(s)) {
                            lemma_auto_spec_u64_to_from_le_bytes();
                            lemma_holds_split(b@, pos as int, le8(s.len() as u64), concat_ids(s));
                            lemma_concat_ids_len(s);
                            lemma_concat_ids_at(s, k as int);
                            assert(s.len() == count);
                            assert(start == pos + le8(s.len() as u64).len());
                            let whole = concat_ids(s);
                            assert(holds_at(b@, start as int, whole));
                            assert(32 * count + start <= b@.len());
                            assert(32 * k + 32 <= 32 * count) by (nonlinear_arith)
                                requires k < count;
                            assert(b@.subrange(at as int, at + 32) =~= concat_ids(s).subrange(32 * k, 32 * k + 32));
                            assert(holds_at(b@, at as int, s[k as int]@));
                        }
                    }
                }
                return None;
            },
        };
        proof {
            let before = ids@;
            lemma_concat_ids_len(before);
            lemma_holds_join(b@, start as int, concat_ids(before), id@);
            assert(before.push(id).drop_last() =~= before);
            lemma_concat_ids_len(before);
            assert forall|s: Seq<Id>| #[trigger] holds_at(b@, pos as int, id_list(s)) implies s.len() == count && before.push(id) == s.subrange(0, k + 1) by {
                lemma_auto_spec_u64_to_from_le_bytes();
                lemma_holds_split(b@, pos as int, le8(s.len() as u64), concat_ids(s));
                lemma_concat_ids_len(s);
                lemma_concat_ids_at(s, k as int);
                assert(32 * k + 32 <= 32 * count) by (nonlinear_arith)
                    requires k < count;
                assert(b@.subrange(at as int, at + 32) =~= concat_ids(s).subrange(32 * k, 32 * k + 32));
                assert(holds_at(b@, at as int, s[k as int]@));
                assert(s[k as int] == id);
                assert(before.push(id) =~= s.subrange(0, k + 1));
            }
        }
        ids.push(id);
        at = next;
        k += 1;
    }
    proof {
        lemma_holds_join(b@, pos as int, le8(count), concat_ids(ids@));
        lemma_concat_ids_len(ids@);
        assert forall|s: Seq<Id>| #[trigger] holds_at(b@, pos as int, id_list(s)) implies ids@ == s by {
            assert(s.subrange(0, count as int) =~= s);
        }
    }
    Some((ids, at))
}

/// Reads the one-byte tag `tag` at `pos`.
pub fn read_tag(b: &[u8], pos: usize, tag: u8) -> (r: Option<usize>)
    ensures
        r matches Some(n) ==> n == pos + 1 && holds_at(b@, pos as int, seq![tag]),
        holds_at(b@, pos as int, seq![tag]) ==> r == Some((pos + 1) as usize),
{
    if pos < b.len() && b[pos] == tag {
        assert(b@.subrange(pos as int, pos + 1) =~= seq![tag]);
        Some(pos + 1)
    } else {
        proof {
            if holds_at(b@, pos as int, seq![tag]) {
                assert(b@.subrange(pos as int, pos + 1)[0] == b@[pos as int]);
            }
        }
        None
    }
}

impl Proof {
    /// The fields of an image, each at its place.
    pub proof fn lemma_fields(b: Seq<u8>, pos: int, q: Proof)
        requires
            holds_at(b, pos, q.spec_bytes()),
        ensures
            holds_at(b, pos, q.randomness@),
            holds_at(b, pos + q.randomness@.len(), le8(q.epoch)),
            holds_at(b, pos + q.randomness@.len() + le8(q.epoch).len(), le8(q.timeslot)),
            holds_at(b, pos + q.randomness@.len() + le8(q.epoch).len() + le8(q.timeslot).len(), q.public_key@),
            holds_at(b, pos + q.randomness@.len() + le8(q.epoch).len() + le8(q.timeslot).len() + q.public_key@.len(), le8(q.tag)),
            holds_at(b, pos + q.randomness@.len() + le8(q.epoch).len() + le8(q.timeslot).len() + q.public_key@.len() + le8(q.tag).len(), le8(q.nonce)),
            holds_at(b, pos + q.randomness@.len() + le8(q.epoch).len() + le8(q.timeslot).len() + q.public_key@.len() + le8(q.tag).len() + le8(q.nonce).len(), le8(q.piece_index)),
            holds_at(b, pos + q.randomness@.len() + le8(q.epoch).len() + le8(q.timeslot).len() + q.public_key@.len() + le8(q.tag).len() + le8(q.nonce).len() + le8(q.piece_index).len(), le8(q.solution_range)),
    {
        lemma_auto_spec_u64_to_from_le_bytes();
        lemma_holds_split(b, pos, q.randomness@ + le8(q.epoch) + le8(q.timeslot) + q.public_key@ + le8(q.tag) + le8(q.nonce) + le8(q.piece_index), le8(q.solution_range));
        lemma_holds_split(b, pos, q.randomness@ + le8(q.epoch) + le8(q.timeslot) + q.public_key@ + le8(q.tag) + le8(q.nonce), le8(q.piece_index));
        lemma_holds_split(b, pos, q.randomness@ + le8(q.epoch) + le8(q.timeslot) + q.public_key@ + le8(q.tag), le8(q.nonce));
        lemma_holds_split(b, pos, q.randomness@ + le8(q.epoch) + le8(q.timeslot) + q.public_key@, le8(q.tag));
        lemma_holds_split(b, pos, q.randomness@ + le8(q.epoch) + le8(q.timeslot), q.public_key@);
        lemma_holds_split(b, pos, q.randomness@ + le8(q.epoch), le8(q.timeslot));
        lemma_holds_split(b, pos, q.randomness@, le8(q.epoch));
    }

    /// Reads the image of a value at `pos`: it returns the value whose image is
    /// there, if one is, and where the image ends.
    pub fn decode_at(b: &[u8], pos: usize) -> (r: Option<(Proof, usize)>)
        ensures
            r matches Some((v, n)) ==> n == pos + v.spec_bytes().len() && holds_at(b@, pos as int, v.spec_bytes()),
            forall|q: Proof| #[trigger] holds_at(b@, pos as int, q.spec_bytes()) ==> (r matches Some((v, n)) && v == q && n == pos + q.spec_bytes().len()),
    {
        proof {
            lemma_auto_spec_u64_to_from_le_bytes();
        }
        let (f_randomness, p_randomness) = match read_id(b, pos) {
            Some(x) => x,
            None => {
                proof {
                    assert forall|q: Proof| !#[trigger] holds_at(b@, pos as int, q.spec_bytes()) by {
                        if holds_at(b@, pos as int, q.spec_bytes()) {
                            Self::lemma_fields(b@, pos as int, q);
                        }
                    }
                }
                return None;
            },
        };
        let (f_epoch, p_epoch) = match read_u64(b, p_randomness) {
            Some(x) => x,
            None => {
                proof {
                    assert forall|q: Proof| !#[trigger] holds_at(b@, pos as int, q.spec_bytes()) by {
                        if holds_at(b@, pos as int, q.spec_bytes()) {
                            Self::lemma_fields(b@, pos as int, q);
                        }
                    }
                }
                return None;
            },
        };
        let (f_timeslot, p_timeslot) = match read_u64(b, p_epoch) {
            Some(x) => x,
            None => {
                proof {
                    assert forall|q: Proof| !#[trigger] holds_at(b@, pos as int, q.spec_bytes()) by {
                        if holds_at(b@, pos as int, q.spec_bytes()) {
                            Self::lemma_fields(b@, pos as int, q);
                        }
                    }
                }
                return None;
            },
        };
        let (f_public_key, p_public_key) = match read_id(b, p_timeslot) {
            Some(x) => x,
            None => {
                proof {
                    assert forall|q: Proof| !#[trigger] holds_at(b@, pos as int, q.spec_bytes()) by {
                        if holds_at(b@, pos as int, q.spec_bytes()) {
                            Self::lemma_fields(b@, pos as int, q);
                        }
                    }
                }
                return None;
            },
        };
        let (f_tag, p_tag) = match read_u64(b, p_public_key) {
            Some(x) => x,
            None => {
                proof {
                    assert forall|q: Proof| !#[trigger] holds_at(b@, pos as int, q.spec_bytes()) by {
                        if holds_at(b@, pos as int, q.spec_bytes()) {
                            Self::lemma_fields(b@, pos as int, q);
                        }
                    }
                }
                return None;
            },
        };
        let (f_nonce, p_nonce) = match read_u64(b, p_tag) {
            Some(x) => x,
            None => {
                proof {
                    assert forall|q: Proof| !#[trigger] holds_at(b@, pos as int, q.spec_bytes()) by {
                        if holds_at(b@, pos as int, q.spec_bytes()) {
                            Self::lemma_fields(b@, pos as int, q);
                        }
                    }
                }
                return None;
            },
        };
        let (f_piece_index, p_piece_index) = match read_u64(b, p_nonce) {
            Some(x) => x,
            None => {
                proof {
                    assert forall|q: Proof| !#[trigger] holds_at(b@, pos as int, q.spec_bytes()) by {
                        if holds_at(b@, pos as int, q.spec_bytes()) {
                            Self::lemma_fields(b@, pos as int, q);
                        }
                    }
                }
                return None;
            },
        };
        let (f_solution_range, p_solution_range) = match read_u64(b, p_piece_index) {
            Some(x) => x,
            None => {
                proof {
                    assert forall|q: Proof| !#[trigger] holds_at(b@, pos as int, q.spec_bytes()) by {
                        if holds_at(b@, pos as int, q.spec_bytes()) {
                            Self::lemma_fields(b@, pos as int, q);
                        }
                    }
                }
                return None;
            },
        };
        let v = Proof { randomness: f_randomness, epoch: f_epoch, timeslot: f_timeslot, public_key: f_public_key, tag: f_tag, nonce: f_nonce, piece_index: f_piece_index, solution_range: f_solution_range };
        proof {
            lemma_holds_join(b@, pos as int, v.randomness@, le8(v.epoch));
            lemma_holds_join(b@, pos as int, v.randomness@ + le8(v.epoch), le8(v.timeslot));
            lemma_holds_join(b@, pos as int, v.randomness@ + le8(v.epoch) + le8(v.timeslot), v.public_key@);
            lemma_holds_join(b@, pos as int, v.randomness@ + le8(v.epoch) + le8(v.timeslot) + v.public_key@, le8(v.tag));
            lemma_holds_join(b@, pos as int, v.randomness@ + le8(v.epoch) + le8(v.timeslot) + v.public_key@ + le8(v.tag), le8(v.nonce));
            lemma_holds_join(b@, pos as int, v.randomness@ + le8(v.epoch) + le8(v.timeslot) + v.public_key@ + le8(v.tag) + le8(v.nonce), le8(v.piece_index));
            lemma_holds_join(b@, pos as int, v.randomness@ + le8(v.epoch) + le8(v.timeslot) + v.public_key@ + le8(v.tag) + le8(v.nonce) + le8(v.piece_index), le8(v.solution_range));
            assert(v.randomness@ + le8(v.epoch) + le8(v.timeslot) + v.public_key@ + le8(v.tag) + le8(v.nonce) + le8(v.piece_index) + le8(v.solution_range) =~= v.spec_bytes());
            assert forall|q: Proof| #[trigger] holds_at(b@, pos as int, q.spec_bytes()) implies v == q by {
                Self::lemma_fields(b@, pos as int, q);
                assert(f_randomness == q.randomness);
                assert(f_epoch == q.epoch);
                assert(f_timeslot == q.timeslot);
                assert(f_public_key == q.public_key);
                assert(f_tag == q.tag);
                assert(f_nonce == q.nonce);
                assert(f_piece_index == q.piece_index);
                assert(f_solution_range == q.solution_range);
            }
        }
        Some((v, p_solution_range))
    }
}

impl CoinbaseTx {
    /// The fields of an image, each at its place.
    pub proof fn lemma_fields(b: Seq<u8>, pos: int, q: CoinbaseTx)
        requires
            holds_at(b, pos, q.spec_bytes()),
        ensures
            holds_at(b, pos, seq![0u8]),
            holds_at(b, pos + seq![0u8].len(), le8(q.reward)),
            holds_at(b, pos + seq![0u8].len() + le8(q.reward).len(), q.to_address@),
            holds_at(b, pos + seq![0u8].len() + le8(q.reward).len() + q.to_address@.len(), q.proof_id@),
    {
        lemma_auto_spec_u64_to_from_le_bytes();
        lemma_holds_split(b, pos, seq![0u8] + le8(q.reward) + q.to_address@, q.proof_id@);
        lemma_holds_split(b, pos, seq![0u8] + le8(q.reward), q.to_address@);
        lemma_holds_split(b, pos, seq![0u8], le8(q.reward));
    }

    /// Reads the image of a value at `pos`: it returns the value whose image is
    /// there, if one is, and where the image ends.
    pub fn decode_at(b: &[u8], pos: usize) -> (r: Option<(CoinbaseTx, usize)>)
        ensures
            r matches Some((v, n)) ==> n == pos + v.spec_bytes().len() && holds_at(b@, pos as int, v.spec_bytes()),
            forall|q: CoinbaseTx| #[trigger] holds_at(b@, pos as int, q.spec_bytes()) ==> (r matches Some((v, n)) && v == q && n == pos + q.spec_bytes().len()),
    {
        proof {
            lemma_auto_spec_u64_to_from_le_bytes();
        }
        let p0 = match read_tag(b, pos, 0u8) {
            Some(n) => n,
            None => {
                proof {
                    assert forall|q: CoinbaseTx| !#[trigger] holds_at(b@, pos as int, q.spec_bytes()) by {
                        if holds_at(b@, pos as int, q.spec_bytes()) {
                            Self::lemma_fields(b@, pos as int, q);
                        }
                    }
                }
                return None;
            },
        };
        let (f_reward, p_reward) = match read_u64(b, p0) {
            Some(x) => x,
            None => {
                proof {
                    assert forall|q: CoinbaseTx| !#[trigger] holds_at(b@, pos as int, q.spec_bytes()) by {
                        if holds_at(b@, pos as int, q.spec_bytes()) {
                            Self::lemma_fields(b@, pos as int, q);
                        }
                    }
                }
                return None;
            },
        };
        let (f_to_address, p_to_address) = match read_id(b, p_reward) {
            Some(x) => x,
            None => {
                proof {
                    assert forall|q: CoinbaseTx| !#[trigger] holds_at(b@, pos as int, q.spec_bytes()) by {
                        if holds_at(b@, pos as int, q.spec_bytes()) {
                            Self::lemma_fields(b@, pos as int, q);
                        }
                    }
                }
                return None;
            },
        };
        let (f_proof_id, p_proof_id) = match read_id(b, p_to_address) {
            Some(x) => x,
            None => {
                proof {
                    assert forall|q: CoinbaseTx| !#[trigger] holds_at(b@, pos as int, q.spec_bytes()) by {
                        if holds_at(b@, pos as int, q.spec_bytes()) {
                            Self::lemma_fields(b@, pos as int, q);
                        }
                    }
                }
                return None;
            },
        };
        let v = CoinbaseTx { reward: f_reward, to_address: f_to_address, proof_id: f_proof_id };
        proof {
            lemma_holds_join(b@, pos as int, seq![0u8], le8(v.reward));
            lemma_holds_join(b@, pos as int, seq![0u8] + le8(v.reward), v.to_address@);
            lemma_holds_join(b@, pos as int, seq![0u8] + le8(v.reward) + v.to_address@, v.proof_id@);
            assert(seq![0u8] + le8(v.reward) + v.to_address@ + v.proof_id@ =~= v.spec_bytes());
            assert forall|q: CoinbaseTx| #[trigger] holds_at(b@, pos as int, q.spec_bytes()) implies v == q by {
                Self::lemma_fields(b@, pos as int, q);
                assert(f_reward == q.reward);
                assert(f_to_address == q.to_address);
                assert(f_proof_id == q.proof_id);
            }
        }
        Some((v, p_proof_id))
    }
}

impl CreditTx {
    /// The fields of an image, each at its place.
    pub proof fn lemma_fields(b: Seq<u8>, pos: int, q: CreditTx)
        requires
            holds_at(b, pos, q.spec_bytes()),
        ensures
            holds_at(b, pos, seq![1u8]),
            holds_at(b, pos + seq![1u8].len(), le8(q.amount)),
            holds_at(b, pos + seq![1u8].len() + le8(q.amount).len(), q.from_address@),
            holds_at(b, pos + seq![1u8].len() + le8(q.amount).len() + q.from_address@.len(), q.to_address@),
            holds_at(b, pos + seq![1u8].len() + le8(q.amount).len() + q.from_address@.len() + q.to_address@.len(), le8(q.nonce)),
            holds_at(b, pos + seq![1u8].len() + le8(q.amount).len() + q.from_address@.len() + q.to_address@.len() + le8(q.nonce).len(), with_len(q.signature@)),
    {
        lemma_auto_spec_u64_to_from_le_bytes();
        lemma_holds_split(b, pos, seq![1u8] + le8(q.amount) + q.from_address@ + q.to_address@ + le8(q.nonce), with_len(q.signature@));
        lemma_holds_split(b, pos, seq![1u8] + le8(q.amount) + q.from_address@ + q.to_address@, le8(q.nonce));
        lemma_holds_split(b, pos, seq![1u8] + le8(q.amount) + q.from_address@, q.to_address@);
        lemma_holds_split(b, pos, seq![1u8] + le8(q.amount), q.from_address@);
        lemma_holds_split(b, pos, seq![1u8], le8(q.amount));
    }

    /// Reads the image of a value at `pos`: it returns the value whose image is
    /// there, if one is, and where the image ends.
    pub fn decode_at(b: &[u8], pos: usize) -> (r: Option<(CreditTx, usize)>)
        ensures
            r matches Some((v, n)) ==> n == pos + v.spec_bytes().len() && holds_at(b@, pos as int, v.spec_bytes()),
            forall|q: CreditTx| #[trigger] holds_at(b@, pos as int, q.spec_bytes()) ==> (r matches Some((v, n)) && v.equiv(&q) && n == pos + q.spec_bytes().len()),
    {
        proof {
            lemma_auto_spec_u64_to_from_le_bytes();
        }
        let p0 = match read_tag(b, pos, 1u8) {
            Some(n) => n,
            None => {
                proof {
                    assert forall|q: CreditTx| !#[trigger] holds_at(b@, pos as int, q.spec_bytes()) by {
                        if holds_at(b@, pos as int, q.spec_bytes()) {
                            Self::lemma_fields(b@, pos as int, q);
                        }
                    }
                }
                return None;
            },
        };
        let (f_amount, p_amount) = match read_u64(b, p0) {
            Some(x) => x,
            None => {
                proof {
                    assert forall|q: CreditTx| !#[trigger] holds_at(b@, pos as int, q.spec_bytes()) by {
                        if holds_at(b@, pos as int, q.spec_bytes()) {
                            Self::lemma_fields(b@, pos as int, q);
                        }
                    }
                }
                return None;
            },
        };
        let (f_from_address, p_from_address) = match read_id(b, p_amount) {
            Some(x) => x,
            None => {
                proof {
                    assert forall|q: CreditTx| !#[trigger] holds_at(b@, pos as int, q.spec_bytes()) by {
                        if holds_at(b@, pos as int, q.spec_bytes()) {
                            Self::lemma_fields(b@, pos as int, q);
                        }
                    }
                }
                return None;
            },
        };
        let (f_to_address, p_to_address) = match read_id(b, p_from_address) {
            Some(x) => x,
            None => {
                proof {
                    assert forall|q: CreditTx| !#[trigger] holds_at(b@, pos as int, q.spec_bytes()) by {
                        if holds_at(b@, pos as int, q.spec_bytes()) {
                            Self::lemma_fields(b@, pos as int, q);
                        }
                    }
                }
                return None;
            },
        };
        let (f_nonce, p_nonce) = match read_u64(b, p_to_address) {
            Some(x) => x,
            None => {
                proof {
                    assert forall|q: CreditTx| !#[trigger] holds_at(b@, pos as int, q.spec_bytes()) by {
                        if holds_at(b@, pos as int, q.spec_bytes()) {
                            Self::lemma_fields(b@, pos as int, q);
                        }
                    }
                }
                return None;
            },
        };
        let (f_signature, p_signature) = match read_with_len(b, p_nonce) {
            Some(x) => x,
            None => {
                proof {
                    assert forall|q: CreditTx| !#[trigger] holds_at(b@, pos as int, q.spec_bytes()) by {
                        if holds_at(b@, pos as int, q.spec_bytes()) {
                            Self::lemma_fields(b@, pos as int, q);
                        }
                    }
                }
                return None;
            },
        };
        let v = CreditTx { amount: f_amount, from_address: f_from_address, to_address: f_to_address, nonce: f_nonce, signature: f_signature };
        proof {
            lemma_holds_join(b@, pos as int, seq![1u8], le8(v.amount));
            lemma_holds_join(b@, pos as int, seq![1u8] + le8(v.amount), v.from_address@);
            lemma_holds_join(b@, pos as int, seq![1u8] + le8(v.amount) + v.from_address@, v.to_address@);
            lemma_holds_join(b@, pos as int, seq![1u8] + le8(v.amount) + v.from_address@ + v.to_address@, le8(v.nonce));
            lemma_holds_join(b@, pos as int, seq![1u8] + le8(v.amount) + v.from_address@ + v.to_address@ + le8(v.nonce), with_len(v.signature@));
            assert(seq![1u8] + le8(v.amount) + v.from_address@ + v.to_address@ + le8(v.nonce) + with_len(v.signature@) =~= v.spec_bytes());
            assert forall|q: CreditTx| #[trigger] holds_at(b@, pos as int, q.spec_bytes()) implies v.equiv(&q) by {
                Self::lemma_fields(b@, pos as int, q);
                assert(f_amount == q.amount);
                assert(f_from_address == q.from_address);
                assert(f_to_address == q.to_address);
                assert(f_nonce == q.nonce);
                assert(f_signature@ == q.signature@);
            }
        }
        Some((v, p_signature))
    }
}

impl Content {
    /// The fields of an image, each at its place.
    pub proof fn lemma_fields(b: Seq<u8>, pos: int, q: Content)
        requires
            holds_at(b, pos, q.spec_bytes()),
        ensures
            holds_at(b, pos, q.parent_id@),
            holds_at(b, pos + q.parent_id@.len(), q.proof_id@),
            holds_at(b, pos + q.parent_id@.len() + q.proof_id@.len(), with_len(q.proof_signature@)),
            holds_at(b, pos + q.parent_id@.len() + q.proof_id@.len() + with_len(q.proof_signature@).len(), le8(q.timestamp)),
            holds_at(b, pos + q.parent_id@.len() + q.proof_id@.len() + with_len(q.proof_signature@).len() + le8(q.timestamp).len(), id_list(q.tx_ids@)),
            holds_at(b, pos + q.parent_id@.len() + q.proof_id@.len() + with_len(q.proof_signature@).len() + le8(q.timestamp).len() + id_list(q.tx_ids@).len(), with_len(q.signature@)),
    {
        lemma_auto_spec_u64_to_from_le_bytes();
        lemma_holds_split(b, pos, q.parent_id@ + q.proof_id@ + with_len(q.proof_signature@) + le8(q.timestamp) + id_list(q.tx_ids@), with_len(q.signature@));
        lemma_holds_split(b, pos, q.parent_id@ + q.proof_id@ + with_len(q.proof_signature@) + le8(q.timestamp), id_list(q.tx_ids@));
        lemma_holds_split(b, pos, q.parent_id@ + q.proof_id@ + with_len(q.proof_signature@), le8(q.timestamp));
        lemma_holds_split(b, pos, q.parent_id@ + q.proof_id@, with_len(q.proof_signature@));
        lemma_holds_split(b, pos, q.parent_id@, q.proof_id@);
    }

    /// Reads the image of a value at `pos`: it returns the value whose image is
    /// there, if one is, and where the image ends.
    pub fn decode_at(b: &[u8], pos: usize) -> (r: Option<(Content, usize)>)
        ensures
            r matches Some((v, n)) ==> n == pos + v.spec_bytes().len() && holds_at(b@, pos as int, v.spec_bytes()),
            forall|q: Content| #[trigger] holds_at(b@, pos as int, q.spec_bytes()) ==> (r matches Some((v, n)) && v.equiv(&q) && n == pos + q.spec_bytes().len()),
    {
        proof {
            lemma_auto_spec_u64_to_from_le_bytes();
        }
        let (f_parent_id, p_parent_id) = match read_id(b, pos) {
            Some(x) => x,
            None => {
                proof {
                    assert forall|q: Content| !#[trigger] holds_at(b@, pos as int, q.spec_bytes()) by {
                        if holds_at(b@, pos as int, q.spec_bytes()) {
                            Self::lemma_fields(b@, pos as int, q);
                        }
                    }
                }
                return None;
            },
        };
        let (f_proof_id, p_proof_id) = match read_id(b, p_parent_id) {
            Some(x) => x,
            None => {
                proof {
                    assert forall|q: Content| !#[trigger] holds_at(b@, pos as int, q.spec_bytes()) by {
                        if holds_at(b@, pos as int, q.spec_bytes()) {
                            Self::lemma_fields(b@, pos as int, q);
                        }
                    }
                }
                return None;
            },
        };
        let (f_proof_signature, p_proof_signature) = match read_with_len(b, p_proof_id) {
            Some(x) => x,
            None => {
                proof {
                    assert forall|q: Content| !#[trigger] holds_at(b@, pos as int, q.spec_bytes()) by {
                        if holds_at(b@, pos as int, q.spec_bytes()) {
                            Self::lemma_fields(b@, pos as int, q);
                        }
                    }
                }
                return None;
            },
        };
        let (f_timestamp, p_timestamp) = match read_u64(b, p_proof_signature) {
            Some(x) => x,
            None => {
                proof {
                    assert forall|q: Content| !#[trigger] holds_at(b@, pos as int, q.spec_bytes()) by {
                        if holds_at(b@, pos as int, q.spec_bytes()) {
                            Self::lemma_fields(b@, pos as int, q);
                        }
                    }
                }
                return None;
            },
        };
        let (f_tx_ids, p_tx_ids) = match read_id_list(b, p_timestamp) {
            Some(x) => x,
            None => {
                proof {
                    assert forall|q: Content| !#[trigger] holds_at(b@, pos as int, q.spec_bytes()) by {
                        if holds_at(b@, pos as int, q.spec_bytes()) {
                            Self::lemma_fields(b@, pos as int, q);
                        }
                    }
                }
                return None;
            },
        };
        let (f_signature, p_signature) = match read_with_len(b, p_tx_ids) {
            Some(x) => x,
            None => {
                proof {
                    assert forall|q: Content| !#[trigger] holds_at(b@, pos as int, q.spec_bytes()) by {
                        if holds_at(b@, pos as int, q.spec_bytes()) {
                            Self::lemma_fields(b@, pos as int, q);
                        }
                    }
                }
                return None;
            },
        };
        let v = Content { parent_id: f_parent_id, proof_id: f_proof_id, proof_signature: f_proof_signature, timestamp: f_timestamp, tx_ids: f_tx_ids, signature: f_signature };
        proof {
            lemma_holds_join(b@, pos as int, v.parent_id@, v.proof_id@);
            lemma_holds_join(b@, pos as int, v.parent_id@ + v.proof_id@, with_len(v.proof_signature@));
            lemma_holds_join(b@, pos as int, v.parent_id@ + v.proof_id@ + with_len(v.proof_signature@), le8(v.timestamp));
            lemma_holds_join(b@, pos as int, v.parent_id@ + v.proof_id@ + with_len(v.proof_signature@) + le8(v.timestamp), id_list(v.tx_ids@));
            lemma_holds_join(b@, pos as int, v.parent_id@ + v.proof_id@ + with_len(v.proof_signature@) + le8(v.timestamp) + id_list(v.tx_ids@), with_len(v.signature@));
            assert(v.parent_id@ + v.proof_id@ + with_len(v.proof_signature@) + le8(v.timestamp) + id_list(v.tx_ids@) + with_len(v.signature@) =~= v.spec_bytes());
            assert forall|q: Content| #[trigger] holds_at(b@, pos as int, q.spec_bytes()) implies v.equiv(&q) by {
                Self::lemma_fields(b@, pos as int, q);
                assert(f_parent_id == q.parent_id);
                assert(f_proof_id == q.proof_id);
                assert(f_proof_signature@ == q.proof_signature@);
                assert(f_timestamp == q.timestamp);
                assert(f_tx_ids@ == q.tx_ids@);
                assert(f_signature@ == q.signature@);
            }
        }
        Some((v, p_signature))
    }
}

impl Data {
    /// The fields of an image, each at its place.
    pub proof fn lemma_fields(b: Seq<u8>, pos: int, q: Data)
        requires
            holds_at(b, pos, q.spec_bytes()),
        ensures
            holds_at(b, pos, with_len(q.encoding@)),
            holds_at(b, pos + with_len(q.encoding@).len(), with_len(q.merkle_proof@)),
    {
        lemma_auto_spec_u64_to_from_le_bytes();
        lemma_holds_split(b, pos, with_len(q.encoding@), with_len(q.merkle_proof@));
    }

    /// Reads the image of a value at `pos`: it returns the value whose image is
    /// there, if one is, and where the image ends.
    pub fn decode_at(b: &[u8], pos: usize) -> (r: Option<(Data, usize)>)
        ensures
            r matches Some((v, n)) ==> n == pos + v.spec_bytes().len() && holds_at(b@, pos as int, v.spec_bytes()),
            forall|q: Data| #[trigger] holds_at(b@, pos as int, q.spec_bytes()) ==> (r matches Some((v, n)) && v.equiv(&q) && n == pos + q.spec_bytes().len()),
    {
        proof {
            lemma_auto_spec_u64_to_from_le_bytes();
        }
        let (f_encoding, p_encoding) = match read_with_len(b, pos) {
            Some(x) => x,
            None => {
                proof {
                    assert forall|q: Data| !#[trigger] holds_at(b@, pos as int, q.spec_bytes()) by {
                        if holds_at(b@, pos as int, q.spec_bytes()) {
                            Self::lemma_fields(b@, pos as int, q);
                        }
                    }
                }
                return None;
            },
        };
        let (f_merkle_proof, p_merkle_proof) = match read_with_len(b, p_encoding) {
            Some(x) => x,
            None => {
                proof {
                    assert forall|q: Data| !#[trigger] holds_at(b@, pos as int, q.spec_bytes()) by {
                        if holds_at(b@, pos as int, q.spec_bytes()) {
                            Self::lemma_fields(b@, pos as int, q);
                        }
                    }
                }
                return None;
            },
        };
        let v = Data { encoding: f_encoding, merkle_proof: f_merkle_proof };
        proof {
            lemma_holds_join(b@, pos as int, with_len(v.encoding@), with_len(v.merkle_proof@));
            assert(with_len(v.encoding@) + with_len(v.merkle_proof@) =~= v.spec_bytes());
            assert forall|q: Data| #[trigger] holds_at(b@, pos as int, q.spec_bytes()) implies v.equiv(&q) by {
                Self::lemma_fields(b@, pos as int, q);
                assert(f_encoding@ == q.encoding@);
                assert(f_merkle_proof@ == q.merkle_proof@);
            }
        }
        Some((v, p_merkle_proof))
    }
}

impl Transaction {
    pub fn decode_at(b: &[u8], pos: usize) -> (r: Option<(Transaction, usize)>)
        ensures
            r matches Some((v, n)) ==> n == pos + v.spec_bytes().len() && holds_at(b@, pos as int, v.spec_bytes()),
            forall|q: Transaction| #[trigger] holds_at(b@, pos as int, q.spec_bytes()) ==> (r matches Some((v, n)) && v.equiv(&q) && n == pos + q.spec_bytes().len()),
    {
        match CoinbaseTx::decode_at(b, pos) {
            Some((c, n)) => {
                proof {
                    assert forall|q: Transaction| #[trigger] holds_at(b@, pos as int, q.spec_bytes()) implies (
                    Transaction::Coinbase(c)).equiv(&q) && n == pos + q.spec_bytes().len() by {
                        match q {
                            Transaction::Coinbase(qc) => {},
                            Transaction::Credit(qc) => {
                                CreditTx::lemma_fields(b@, pos as int, qc);
                                CoinbaseTx::lemma_fields(b@, pos as int, c);
                                assert(b@.subrange(pos as int, pos + 1)[0] == b@[pos as int]);
                            },
                        }
                    }
                }
                return Some((Transaction::Coinbase(c), n));
            },
            None => {},
        }
        match CreditTx::decode_at(b, pos) {
            Some((c, n)) => {
                proof {
                    assert forall|q: Transaction| #[trigger] holds_at(b@, pos as int, q.spec_bytes()) implies (
                    Transaction::Credit(c)).equiv(&q) && n == pos + q.spec_bytes().len() by {
                        match q {
                            Transaction::Coinbase(qc) => {},
                            Transaction::Credit(qc) => {},
                        }
                    }
                }
                Some((Transaction::Credit(c), n))
            },
            None => {
                proof {
                    assert forall|q: Transaction| !#[trigger] holds_at(b@, pos as int, q.spec_bytes()) by {
                        match q {
                            Transaction::Coinbase(qc) => {},
                            Transaction::Credit(qc) => {},
                        }
                    }
                }
                None
            },
        }
    }

    /// Decodes a transaction from its whole canonical image.
    pub fn from_bytes(bytes: &[u8]) -> (r: Option<Transaction>)
        ensures
            r matches Some(t) ==> t.spec_bytes() == bytes@,
            forall|q: Transaction| #[trigger] q.spec_bytes() == bytes@ ==> (r matches Some(t) && t.equiv(&q)),
    {
        let decoded = Transaction::decode_at(bytes, 0);
        proof {
            assert(bytes@.subrange(0, bytes@.len() as int) =~= bytes@);
            assert forall|q: Transaction| #[trigger] q.spec_bytes() == bytes@ implies holds_at(
                bytes@,
                0,
                q.spec_bytes(),
            ) by {}
        }
        match decoded {
            Some((t, n)) => {
                if n == bytes.len() {
                    Some(t)
                } else {
                    None
                }
            },
            None => None,
        }
    }
}

/// The image of a block's optional data.
pub open spec fn data_bytes(d: Option<Data>) -> Seq<u8> {
    match d {
        None => seq![0u8],
        Some(x) => seq![1u8] + x.spec_bytes(),
    }
}

impl Block {
    pub proof fn lemma_fields(b: Seq<u8>, pos: int, q: Block)
        requires
            holds_at(b, pos, q.spec_bytes()),
        ensures
            holds_at(b, pos, q.proof.spec_bytes()),
            holds_at(b, pos + q.proof.spec_bytes().len(), q.coinbase_tx.spec_bytes()),
            holds_at(b, pos + q.proof.spec_bytes().len() + q.coinbase_tx.spec_bytes().len(), q.content.spec_bytes()),
            holds_at(b, pos + q.proof.spec_bytes().len() + q.coinbase_tx.spec_bytes().len() + q.content.spec_bytes().len(), data_bytes(q.data)),
    {
        assert(q.spec_bytes() == q.proof.spec_bytes() + q.coinbase_tx.spec_bytes() + q.content.spec_bytes() + data_bytes(q.data));
        lemma_holds_split(b, pos, q.proof.spec_bytes() + q.coinbase_tx.spec_bytes() + q.content.spec_bytes(), data_bytes(q.data));
        lemma_holds_split(b, pos, q.proof.spec_bytes() + q.coinbase_tx.spec_bytes(), q.content.spec_bytes());
        lemma_holds_split(b, pos, q.proof.spec_bytes(), q.coinbase_tx.spec_bytes());
    }

    pub fn decode_at(b: &[u8], pos: usize) -> (r: Option<(Block, usize)>)
        ensures
            r matches Some((v, n)) ==> n == pos + v.spec_bytes().len() && holds_at(b@, pos as int, v.spec_bytes()),
            forall|q: Block| #[trigger] holds_at(b@, pos as int, q.spec_bytes()) ==> (r matches Some((v, n)) && v.equiv(&q) && n == pos + q.spec_bytes().len()),
    {
        let (proof_part, p1) = match Proof::decode_at(b, pos) {
            Some(x) => x,
            None => {
                proof {
                    assert forall|q: Block| !#[trigger] holds_at(b@, pos as int, q.spec_bytes()) by {
                        if holds_at(b@, pos as int, q.spec_bytes()) {
                            Block::lemma_fields(b@, pos as int, q);
                        }
                    }
                }
                return None;
            },
        };
        let (coinbase_tx, p2) = match CoinbaseTx::decode_at(b, p1) {
            Some(x) => x,
            None => {
                proof {
                    assert forall|q: Block| !#[trigger] holds_at(b@, pos as int, q.spec_bytes()) by {
                        if holds_at(b@, pos as int, q.spec_bytes()) {
                            Block::lemma_fields(b@, pos as int, q);
                        }
                    }
                }
                return None;
            },
        };
        let (content, p3) = match Content::decode_at(b, p2) {
            Some(x) => x,
            None => {
                proof {
                    assert forall|q: Block| !#[trigger] holds_at(b@, pos as int, q.spec_bytes()) by {
                        if holds_at(b@, pos as int, q.spec_bytes()) {
                            Block::lemma_fields(b@, pos as int, q);
                        }
                    }
                }
                return None;
            },
        };
        let (data, p4) = match read_tag(b, p3, 0u8) {
            Some(n) => (None, n),
            None => match read_tag(b, p3, 1u8) {
                Some(n1) => match Data::decode_at(b, n1) {
                    Some((d, n)) => (Some(d), n),
                    None => {
                        proof {
                            assert forall|q: Block| !#[trigger] holds_at(b@, pos as int, q.spec_bytes()) by {
                                if holds_at(b@, pos as int, q.spec_bytes()) {
                                    Block::lemma_fields(b@, pos as int, q);
                                    match q.data {
                                        None => {
                                            assert(holds_at(b@, p3 as int, seq![0u8]));
                                        },
                                        Some(qd) => {
                                            lemma_holds_split(b@, p3 as int, seq![1u8], qd.spec_bytes());
                                        },
                                    }
                                }
                            }
                        }
                        return None;
                    },
                },
                None => {
                    proof {
                        assert forall|q: Block| !#[trigger] holds_at(b@, pos as int, q.spec_bytes()) by {
                            if holds_at(b@, pos as int, q.spec_bytes()) {
                                Block::lemma_fields(b@, pos as int, q);
                                match q.data {
                                    None => {},
                                    Some(qd) => {
                                        lemma_holds_split(b@, p3 as int, seq![1u8], qd.spec_bytes());
                                    },
                                }
                            }
                        }
                    }
                    return None;
                },
            },
        };
        let v = Block { proof: proof_part, coinbase_tx, content, data };
        proof {
            if v.data is Some {
                lemma_holds_join(b@, p3 as int, seq![1u8], (v.data->Some_0).spec_bytes());
            }
            lemma_holds_join(b@, pos as int, proof_part.spec_bytes(), coinbase_tx.spec_bytes());
            lemma_holds_join(b@, pos as int, proof_part.spec_bytes() + coinbase_tx.spec_bytes(), v.content.spec_bytes());
            lemma_holds_join(b@, pos as int, proof_part.spec_bytes() + coinbase_tx.spec_bytes() + v.content.spec_bytes(), data_bytes(v.data));
            assert(v.spec_bytes() == proof_part.spec_bytes() + coinbase_tx.spec_bytes() + v.content.spec_bytes() + data_bytes(v.data));
            assert forall|q: Block| #[trigger] holds_at(b@, pos as int, q.spec_bytes()) implies v.equiv(&q) by {
                Block::lemma_fields(b@, pos as int, q);
                assert(proof_part == q.proof);
                assert(coinbase_tx == q.coinbase_tx);
                assert(v.content.equiv(&q.content));
                assert(v.content.spec_bytes() == q.content.spec_bytes());
                match q.data {
                    None => {
                        assert(holds_at(b@, p3 as int, seq![0u8]));
                    },
                    Some(qd) => {
                        lemma_holds_split(b@, p3 as int, seq![1u8], qd.spec_bytes());
                        if v.data is None {
                            assert(b@.subrange(p3 as int, p3 + 1)[0] == b@[p3 as int]);
                        }
                    },
                }
            }
        }
        Some((v, p4))
    }

    /// Decodes a block from its whole canonical image.
    pub fn from_bytes(bytes: &[u8]) -> (r: Option<Block>)
        ensures
            r matches Some(t) ==> t.spec_bytes() == bytes@,
            forall|q: Block| #[trigger] q.spec_bytes() == bytes@ ==> (r matches Some(t) && t.equiv(&q)),
    {
        let decoded = Block::decode_at(bytes, 0);
        proof {
            assert(bytes@.subrange(0, bytes@.len() as int) =~= bytes@);
            assert forall|q: Block| #[trigger] q.spec_bytes() == bytes@ implies holds_at(
                bytes@,
                0,
                q.spec_bytes(),
            ) by {}
        }
        match decoded {
            Some((t, n)) => {
                if n == bytes.len() {
                    Some(t)
                } else {
                    None
                }
            },
            None => None,
        }
    }
}

impl Proof {
    /// Decodes a proof from its whole canonical image.
    pub fn from_bytes(bytes: &[u8]) -> (r: Option<Proof>)
        ensures
            r matches Some(t) ==> t.spec_bytes() == bytes@,
            forall|q: Proof| #[trigger] q.spec_bytes() == bytes@ ==> r == Some(q),
    {
        let decoded = Proof::decode_at(bytes, 0);
        proof {
            assert(bytes@.subrange(0, bytes@.len() as int) =~= bytes@);
            assert forall|q: Proof| #[trigger] q.spec_bytes() == bytes@ implies holds_at(
                bytes@,
                0,
                q.spec_bytes(),
            ) by {}
        }
        match decoded {
            Some((t, n)) => {
                if n == bytes.len() {
                    Some(t)
                } else {
                    None
                }
            },
            None => None,
        }
    }
}

impl Content {
    /// Decodes a content from its whole canonical image.
    pub fn from_bytes(bytes: &[u8]) -> (r: Option<Content>)
        ensures
            r matches Some(t) ==> t.spec_bytes() == bytes@,
            forall|q: Content| #[trigger] q.spec_bytes() == bytes@ ==> (r matches Some(t) && t.equiv(&q)),
    {
        let decoded = Content::decode_at(bytes, 0);
        proof {
            assert(bytes@.subrange(0, bytes@.len() as int) =~= bytes@);
            assert forall|q: Content| #[trigger] q.spec_bytes() == bytes@ implies holds_at(
                bytes@,
                0,
                q.spec_bytes(),
            ) by {}
        }
        match decoded {
            Some((t, n)) => {
                if n == bytes.len() {
                    Some(t)
                } else {
                    None
                }
            },
            None => None,
        }
    }
}

} // verus!
