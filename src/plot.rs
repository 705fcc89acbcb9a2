use crate::block::le8;
use crate::crypto::{create_hmac, hmac_of};
use crate::store::{assoc_view, keys_unique, SlotMap};
use crate::utils::be_value;
use crate::{NodeError, Tag, PIECE_SIZE};
use vstd::prelude::*;

verus! {

/// A piece or an encoding.
pub type Piece = [u8; 4096];

/// Tags are strictly increasing along the index.
pub open spec fn tags_sorted(s: Seq<(Tag, usize)>) -> bool {
    forall|i: int, j: int| 0 <= i < j < s.len() ==> (#[trigger] s[i]).0 < (#[trigger] s[j]).0
}

/// The entries of `s` whose tag lies in `[lo, hi]`, in order.
pub open spec fn select(s: Seq<(Tag, usize)>, lo: u64, hi: u64) -> Seq<(Tag, usize)>
    decreases s.len(),
{
    if s.len() == 0 {
        Seq::empty()
    } else {
        let rest = select(s.drop_last(), lo, hi);
        if lo <= s.last().0 && s.last().0 <= hi {
            rest.push(s.last())
        } else {
            rest
        }
    }
}

/// The distance between two tags on the circle of all `u64` values.
pub open spec fn wrap_distance(a: u64, b: u64) -> nat {
    let d: nat = if a >= b {
        (a - b) as nat
    } else {
        (b - a) as nat
    };
    let m: nat = 0x1_0000_0000_0000_0000;
    if d <= m - d {
        d
    } else {
        (m - d) as nat
    }
}

/// Lower end of the search interval around `target`, wrapping below zero.
pub open spec fn range_low(target: u64, range: u64) -> u64 {
    if target >= range / 2 {
        (target - range / 2) as u64
    } else {
        (target + 0x1_0000_0000_0000_0000 - range / 2) as u64
    }
}

/// Upper end of the search interval around `target`, wrapping above `u64::MAX`.
pub open spec fn range_high(target: u64, range: u64) -> u64 {
    if target + range / 2 <= u64::MAX {
        (target + range / 2) as u64
    } else {
        (target + range / 2 - 0x1_0000_0000_0000_0000) as u64
    }
}

/// Whether the interval around `target` wraps across zero.
pub open spec fn range_wraps(target: u64, range: u64) -> bool {
    target < range / 2 || target + range / 2 > u64::MAX
}

/// Whether `tag` lies in the interval of half-width `range / 2` around
/// `target`, wrapping around the `u64` space.
pub open spec fn in_solution_range(tag: u64, target: u64, range: u64) -> bool {
    let lo = range_low(target, range);
    let hi = range_high(target, range);
    if range == u64::MAX {
        true
    } else if range_wraps(target, range) {
        tag <= hi || lo <= tag
    } else {
        lo <= tag && tag <= hi
    }
}

pub fn is_in_solution_range(tag: u64, target: u64, range: u64) -> (r: bool)
    ensures
        r == in_solution_range(tag, target, range),
{
    if range == u64::MAX {
        return true;
    }
    let half = range / 2;
    let lower = target.wrapping_sub(half);
    let upper = target.wrapping_add(half);
    if target < half || target > u64::MAX - half {
        tag <= upper || lower <= tag
    } else {
        lower <= tag && tag <= upper
    }
}

/// A tag accepted by the range check is within `range / 2` of the target on
/// the circle of `u64` values, for every range short of the full one.
pub proof fn lemma_in_solution_range_close(tag: u64, target: u64, range: u64)
    requires
        range < u64::MAX,
        in_solution_range(tag, target, range),
    ensures
        wrap_distance(tag, target) <= range / 2,
{
}

/// What a range query returns over the sorted tag index: the full range
/// gives every tag; otherwise the tags within `range / 2` of `target`, and
/// where the interval wraps, the part from zero followed by the part up to
/// `u64::MAX`.
pub open spec fn range_result(s: Seq<(Tag, usize)>, target: u64, range: u64) -> Seq<(Tag, usize)> {
    let lo = range_low(target, range);
    let hi = range_high(target, range);
    if range == u64::MAX {
        s
    } else if range_wraps(target, range) {
        select(s, 0, hi) + select(s, lo, u64::MAX)
    } else {
        select(s, lo, hi)
    }
}

/// The big-endian integer of the first eight bytes.
pub open spec fn be_u64_of(b: Seq<u8>) -> nat {
    be_value(b.subrange(0, 8))
}

/// The tag of an encoding: the first eight bytes of its HMAC under the
/// little-endian nonce, read big-endian.
pub open spec fn tag_of(encoding: Seq<u8>, nonce: u64) -> nat {
    be_u64_of(hmac_of(le8(nonce), encoding))
}

proof fn lemma_be_value_bound(s: Seq<u8>)
    ensures
        be_value(s) < pow256(s.len()),
    decreases s.len(),
{
    if s.len() > 0 {
        lemma_be_value_bound(s.drop_last());
        let r = be_value(s.drop_last());
        let p = pow256((s.len() - 1) as nat);
        assert(r * 256 + 255 < p * 256) by (nonlinear_arith)
            requires
                r < p,
        ;
    }
}

/// `256` to the power `n`.
pub open spec fn pow256(n: nat) -> nat
    decreases n,
{
    if n == 0 {
        1
    } else {
        256 * pow256((n - 1) as nat)
    }
}

/// Reads the first eight bytes of `b` as a big-endian integer.
pub fn be_u64(b: &[u8]) -> (r: u64)
    requires
        b@.len() >= 8,
    ensures
        r as nat == be_u64_of(b@),
{
    let mut acc: u64 = 0;
    let mut i: usize = 0;
    while i < 8
        invariant
            b@.len() >= 8,
            i <= 8,
            acc as nat == be_value(b@.subrange(0, i as int)),
        decreases 8 - i,
    {
        proof {
            lemma_be_value_bound(b@.subrange(0, i as int));
            assert(pow256(0) == 1);
            assert(pow256(1) == 256);
            assert(pow256(2) == 0x1_0000);
            assert(pow256(3) == 0x100_0000);
            assert(pow256(4) == 0x1_0000_0000);
            assert(pow256(5) == 0x100_0000_0000);
            assert(pow256(6) == 0x1_0000_0000_0000);
            assert(pow256(7) == 0x100_0000_0000_0000);
            let pre = b@.subrange(0, i as int + 1);
            assert(pre.drop_last() =~= b@.subrange(0, i as int));
        }
        acc = acc * 256 + b[i] as u64;
        i += 1;
    }
    acc
}

/// The tag of `encoding` under `nonce`.
pub fn compute_tag(encoding: &[u8], nonce: u64) -> (r: Tag)
    ensures
        r as nat == tag_of(encoding@, nonce),
{
    let key = vstd::bytes::u64_to_le_bytes(nonce);
    let mac = create_hmac(encoding, key.as_slice());
    be_u64(mac.as_slice())
}

/// A tag found by a range query is within `range / 2` of the target on the
/// circle of `u64` values.
pub proof fn lemma_range_result_close(s: Seq<(Tag, usize)>, target: u64, range: u64, i: int)
    requires
        range < u64::MAX,
        0 <= i < range_result(s, target, range).len(),
    ensures
        wrap_distance(range_result(s, target, range)[i].0, target) <= range / 2,
{
    let lo = range_low(target, range);
    let hi = range_high(target, range);
    let t = range_result(s, target, range)[i].0;
    if range_wraps(target, range) {
        let a = select(s, 0, hi);
        let b = select(s, lo, u64::MAX);
        if i < a.len() {
            lemma_select_in_bounds(s, 0, hi, i);
            assert(range_result(s, target, range)[i] == a[i]);
        } else {
            lemma_select_in_bounds(s, lo, u64::MAX, i - a.len());
            assert(range_result(s, target, range)[i] == b[i - a.len()]);
        }
        assert(t <= hi || lo <= t);
    } else {
        lemma_select_in_bounds(s, lo, hi, i);
    }
}

proof fn lemma_select_in_bounds(s: Seq<(Tag, usize)>, lo: u64, hi: u64, i: int)
    requires
        0 <= i < select(s, lo, hi).len(),
    ensures
        lo <= select(s, lo, hi)[i].0 <= hi,
        s.contains(select(s, lo, hi)[i]),
    decreases s.len(),
{
    if s.len() > 0 {
        let rest = select(s.drop_last(), lo, hi);
        if i < rest.len() {
            lemma_select_in_bounds(s.drop_last(), lo, hi, i);
            let e = rest[i];
            let k = choose|k: int| 0 <= k < s.drop_last().len() && s.drop_last()[k] == e;
            assert(s[k] == e);
        } else {
            assert(s[s.len() - 1] == s.last());
        }
    }
}

proof fn lemma_select_contains(s: Seq<(Tag, usize)>, lo: u64, hi: u64, k: int)
    requires
        0 <= k < s.len(),
        lo <= s[k].0 <= hi,
    ensures
        select(s, lo, hi).contains(s[k]),
    decreases s.len(),
{
    if k < s.len() - 1 {
        lemma_select_contains(s.drop_last(), lo, hi, k);
        let rest = select(s.drop_last(), lo, hi);
        assert(s.drop_last()[k] == s[k]);
        let j = choose|j: int| 0 <= j < rest.len() && rest[j] == s[k];
        if lo <= s.last().0 && s.last().0 <= hi {
            assert(rest.push(s.last())[j] == s[k]);
        }
    } else {
        let rest = select(s.drop_last(), lo, hi);
        assert(rest.push(s.last())[rest.len() as int] == s[k]);
    }
}

/// With the widest range every stored tag is found, in order.
pub proof fn lemma_full_range_finds_all(s: Seq<(Tag, usize)>, target: u64)
    ensures
        range_result(s, target, u64::MAX) == s,
{
}

proof fn lemma_select_all(s: Seq<(Tag, usize)>)
    ensures
        select(s, 0, u64::MAX) == s,
    decreases s.len(),
{
    if s.len() > 0 {
        lemma_select_all(s.drop_last());
        assert(s.drop_last().push(s.last()) =~= s);
    }
}

/// The entries of `s` in `[lo, hi]`, appended to `out`.
fn push_selected(s: &Vec<(Tag, usize)>, lo: u64, hi: u64, out: &mut Vec<(Tag, usize)>)
    ensures
        final(out)@ == old(out)@ + select(s@, lo, hi),
{
    let ghost start = out@;
    let mut i: usize = 0;
    while i < s.len()
        invariant
            i <= s@.len(),
            out@ == start + select(s@.subrange(0, i as int), lo, hi),
        decreases s@.len() - i,
    {
        let e = s[i];
        if lo <= e.0 && e.0 <= hi {
            out.push(e);
        }
        proof {
            let pre = s@.subrange(0, i as int + 1);
            assert(pre.drop_last() =~= s@.subrange(0, i as int));
            assert(pre.last() == e);
        }
        i += 1;
    }
    assert(s@.subrange(0, i as int) =~= s@);
}

/// The plot store: the encodings appended to one file, an index from piece
/// index to file offset, and a tag index kept sorted by tag.
pub struct Plot {
    pub plot_file: Vec<u8>,
    pub index_map: SlotMap<u64>,
    pub tag_map: Vec<(Tag, usize)>,
}

impl Plot {
    /// The maps are well formed, tags are sorted and every offset points at a
    /// whole encoding inside the file.
    pub open spec fn wf(&self) -> bool {
        &&& self.index_map.wf()
        &&& tags_sorted(self.tag_map@)
        &&& forall|k: u64|
            #[trigger] self.index_map@.contains_key(k) ==> self.index_map@[k] + PIECE_SIZE
                <= self.plot_file@.len()
    }

    /// The tag index as a map from tag to piece index.
    pub open spec fn tags(&self) -> Map<Tag, usize> {
        assoc_view(self.tag_map@)
    }

    pub fn new() -> (r: Plot)
        ensures
            r.wf(),
            r.plot_file@.len() == 0,
            r.index_map@ == Map::<u64, u64>::empty(),
            r.tag_map@.len() == 0,
    {
        Plot { plot_file: Vec::new(), index_map: SlotMap::new(), tag_map: Vec::new() }
    }

    /// Whether no piece is stored.
    pub fn is_empty(&self) -> (r: bool)
        requires
            self.wf(),
        ensures
            r == (self.index_map@ == Map::<u64, u64>::empty()),
    {
        let r = self.index_map.entries.len() == 0;
        proof {
            if r {
                assert(self.index_map@ =~= Map::<u64, u64>::empty());
            } else {
                crate::store::lemma_assoc_index(self.index_map.entries@, 0);
                assert(self.index_map@.contains_key(self.index_map.entries@[0].0));
            }
        }
        r
    }

    /// Reads the encoding stored for a piece index.
    pub fn read(&self, index: usize) -> (r: Result<Piece, NodeError>)
        requires
            self.wf(),
        ensures
            !self.index_map@.contains_key(index as u64) ==> r == Err::<Piece, NodeError>(
                NodeError::StorageNotFound,
            ),
            self.index_map@.contains_key(index as u64) ==> (r matches Ok(p) && p@
                == self.plot_file@.subrange(
                self.index_map@[index as u64] as int,
                self.index_map@[index as u64] + PIECE_SIZE,
            )),
    {
        let flen = self.plot_file.len();
        let offset = match self.index_map.get(&(index as u64)) {
            Some(o) => {
                assert(self.index_map@.contains_key(index as u64));
                assert(*o + PIECE_SIZE <= flen);
                *o as usize
            },
            None => {
                return Err(NodeError::StorageNotFound);
            },
        };
        let mut piece = [0u8; 4096];
        let mut i: usize = 0;
        while i < PIECE_SIZE
            invariant
                flen == self.plot_file@.len(),
                offset == self.index_map@[index as u64],
                i <= PIECE_SIZE,
                offset + PIECE_SIZE <= self.plot_file@.len(),
                piece@.len() == PIECE_SIZE,
                forall|j: int| 0 <= j < i ==> piece@[j] == self.plot_file@[offset + j],
            decreases PIECE_SIZE - i,
        {
            piece[i] = self.plot_file[offset + i];
            i += 1;
        }
        assert(piece@ =~= self.plot_file@.subrange(offset as int, offset + PIECE_SIZE));
        Ok(piece)
    }

    /// Appends an encoding to the file and indexes it by piece index and by
    /// its tag; an earlier encoding of the same index is forgotten.
    pub fn write(&mut self, encoding: Piece, nonce: u64, index: usize) -> (r: Result<(), NodeError>)
        requires
            old(self).wf(),
            old(self).plot_file@.len() + PIECE_SIZE <= u64::MAX,
        ensures
            final(self).wf(),
            r is Ok,
            final(self).plot_file@ == old(self).plot_file@ + encoding@,
            final(self).index_map@ == old(self).index_map@.insert(
                index as u64,
                old(self).plot_file@.len() as u64,
            ),
            final(self).tags() == old(self).tags().insert(tag_of(encoding@, nonce) as u64, index),
    {
        let offset = self.plot_file.len() as u64;
        self.plot_file.extend_from_slice(encoding.as_slice());
        self.index_map.insert(index as u64, offset);
        let tag = compute_tag(encoding.as_slice(), nonce);
        self.insert_tag(tag, index);
        proof {
            assert forall|k: u64| #[trigger] self.index_map@.contains_key(k) implies self.index_map@[k]
                + PIECE_SIZE <= self.plot_file@.len() by {
                if k != index as u64 {
                    assert(old(self).index_map@.contains_key(k));
                }
            }
        }
        Ok(())
    }

    /// Sets the piece index of a tag, keeping the index sorted.
    fn insert_tag(&mut self, tag: Tag, index: usize)
        requires
            tags_sorted(old(self).tag_map@),
        ensures
            tags_sorted(final(self).tag_map@),
            final(self).tags() == old(self).tags().insert(tag, index),
            final(self).plot_file == old(self).plot_file,
            final(self).index_map == old(self).index_map,
    {
        let ghost s = self.tag_map@;
        proof {
            assert(keys_unique(s)) by {
                assert forall|a: int, b: int|
                    0 <= a < s.len() && 0 <= b < s.len() && s[a].0 == s[b].0 implies a == b by {
                    if a < b {
                        assert(s[a].0 < s[b].0);
                    } else if b < a {
                        assert(s[b].0 < s[a].0);
                    }
                }
            }
        }
        let mut i: usize = 0;
        while i < self.tag_map.len() && self.tag_map[i].0 < tag
            invariant
                self.tag_map@ == s,
                i <= s.len(),
                forall|j: int| 0 <= j < i ==> s[j].0 < tag,
            decreases s.len() - i,
        {
            i += 1;
        }
        if i < self.tag_map.len() && self.tag_map[i].0 == tag {
            self.tag_map.set(i, (tag, index));
            proof {
                crate::store::lemma_assoc_update(s, i as int, index);
                assert(self.tag_map@ =~= s.update(i as int, (s[i as int].0, index)));
            }
        } else {
            proof {
                assert forall|j: int| 0 <= j < s.len() implies s[j].0 != tag by {
                    if j >= i {
                        if j > i {
                            assert(s[i as int].0 < s[j].0);
                        }
                    }
                }
                if assoc_view(s).contains_key(tag) {
                    let j = choose|j: int| 0 <= j < s.len() && s[j].0 == tag;
                }
                crate::store::lemma_assoc_insert_at(s, i as int, tag, index);
            }
            self.tag_map.insert(i, (tag, index));
            proof {
                let t = self.tag_map@;
                assert forall|a: int, b: int| 0 <= a < b < t.len() implies (#[trigger] t[a]).0 < (
                #[trigger] t[b]).0 by {
                    let a1 = if a < i {
                        a
                    } else {
                        a - 1
                    };
                    let b1 = if b < i {
                        b
                    } else {
                        b - 1
                    };
                    if a == i {
                        assert(t[b] == s[b1]);
                        assert(b1 >= i);
                    } else if b == i {
                        assert(t[a] == s[a1]);
                    } else {
                        assert(t[a] == s[a1] && t[b] == s[b1]);
                    }
                }
            }
        }
    }

    /// Forgets the encoding of a piece index; its bytes stay in the file.
    pub fn remove(&mut self, index: usize) -> (r: Result<(), NodeError>)
        requires
            old(self).wf(),
        ensures
            final(self).wf(),
            r is Ok,
            final(self).index_map@ == old(self).index_map@.remove(index as u64),
            final(self).plot_file == old(self).plot_file,
            final(self).tag_map == old(self).tag_map,
    {
        self.index_map.remove(&(index as u64));
        Ok(())
    }

    /// The smallest stored tag that is at least `tag`, with its piece index.
    pub fn find_by_tag(&self, tag: u64) -> (r: Result<(u64, usize), NodeError>)
        requires
            self.wf(),
        ensures
            (forall|j: int| 0 <= j < self.tag_map@.len() ==> self.tag_map@[j].0 < tag) <==> r
                == Err::<(u64, usize), NodeError>(NodeError::StorageNotFound),
            r is Err ==> r == Err::<(u64, usize), NodeError>(NodeError::StorageNotFound),
            r matches Ok(e) ==> exists|k: int|
                0 <= k < self.tag_map@.len() && self.tag_map@[k] == e && e.0 >= tag && forall|j: int|
                    0 <= j < k ==> self.tag_map@[j].0 < tag,
    {
        let mut i: usize = 0;
        while i < self.tag_map.len()
            invariant
                i <= self.tag_map@.len(),
                forall|j: int| 0 <= j < i ==> self.tag_map@[j].0 < tag,
            decreases self.tag_map@.len() - i,
        {
            if self.tag_map[i].0 >= tag {
                return Ok(self.tag_map[i]);
            }
            i += 1;
        }
        Err(NodeError::StorageNotFound)
    }

    /// All stored tags with their piece indices whose tag lies within
    /// `range / 2` of the big-endian `target`, wrapping around the `u64` space.
    pub fn find_by_range(&self, target: [u8; 8], range: u64) -> (r: Result<Vec<(Tag, usize)>, NodeError>)
        ensures
            r matches Ok(v) && v@ == range_result(self.tag_map@, be_u64_of(target@) as u64, range),
    {
        let t = be_u64(target.as_slice());
        if range == u64::MAX {
            let mut all: Vec<(Tag, usize)> = Vec::new();
            push_selected(&self.tag_map, 0, u64::MAX, &mut all);
            proof {
                lemma_select_all(self.tag_map@);
            }
            return Ok(all);
        }
        let half = range / 2;
        let lower = t.wrapping_sub(half);
        let upper = t.wrapping_add(half);
        let mut solutions: Vec<(Tag, usize)> = Vec::new();
        if t < half || t > u64::MAX - half {
            push_selected(&self.tag_map, 0, upper, &mut solutions);
            push_selected(&self.tag_map, lower, u64::MAX, &mut solutions);
        } else {
            push_selected(&self.tag_map, lower, upper, &mut solutions);
        }
        Ok(solutions)
    }

    /// All stored tags, in increasing order.
    pub fn get_keys(&self) -> (r: Result<Vec<u64>, NodeError>)
        ensures
            r matches Ok(v) && v@ == self.tag_map@.map_values(|e: (Tag, usize)| e.0),
    {
        let mut keys: Vec<u64> = Vec::new();
        let mut i: usize = 0;
        while i < self.tag_map.len()
            invariant
                i <= self.tag_map@.len(),
                keys@ == self.tag_map@.subrange(0, i as int).map_values(|e: (Tag, usize)| e.0),
            decreases self.tag_map@.len() - i,
        {
            keys.push(self.tag_map[i].0);
            i += 1;
            assert(keys@ =~= self.tag_map@.subrange(0, i as int).map_values(|e: (Tag, usize)| e.0));
        }
        assert(self.tag_map@.subrange(0, i as int) =~= self.tag_map@);
        Ok(keys)
    }
}

/// What the plot's request broker does next.
#[derive(Clone, Copy, Debug, PartialEq, Eq, Structural)]
pub enum BrokerAction {
    /// serve the oldest pending read
    ServeRead,
    /// serve the oldest pending write
    ServeWrite,
    /// wait for a request to arrive
    Wait,
}

/// The broker's discipline, asked after every request it serves: all pending
/// reads first, and a single write only when no read is pending, so that the
/// reads that arrive meanwhile go before the next write.
pub fn next_broker_action(pending_reads: usize, pending_writes: usize) -> (r: BrokerAction)
    ensures
        pending_reads > 0 ==> r == BrokerAction::ServeRead,
        pending_reads == 0 && pending_writes > 0 ==> r == BrokerAction::ServeWrite,
        pending_reads == 0 && pending_writes == 0 ==> r == BrokerAction::Wait,
{
    if pending_reads > 0 {
        BrokerAction::ServeRead
    } else if pending_writes > 0 {
        BrokerAction::ServeWrite
    } else {
        BrokerAction::Wait
    }
}

} // verus!
