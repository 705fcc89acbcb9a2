use crate::block::{
    ids_equal, ids_sorted, push_bytes, sort_ids, Block, CoinbaseTx, Content, Data, Proof,
    Transaction,
};
use crate::crypto::{
    create_hmac, derive_public_key, digest_sha_256, hmac_of, public_key_of, sha256_of, sign,
    signature_of,
};
use crate::farmer::Solution;
use crate::metablocks::{MetaBlock, MetaBlocks};
use crate::sloth::{join_blocks, split_blocks, Sloth};
use crate::store::{IdMap, IdSet, KeyMap, SlotMap, StoreKey};
use crate::timer::EpochTracker;
use crate::utils::{u32_be_bytes, xor_seq};
use crate::{
    AccountAddress, ContentId, NodeError, ProofId, PublicKey, TxId, BLOCK_REWARD,
    CHALLENGE_LOOKBACK_EPOCHS, CONFIRMATION_DEPTH, ENCODING_LAYERS_TEST, MAX_EARLY_TIMESLOTS,
    MAX_LATE_TIMESLOTS, PIECE_SIZE, PRIME_SIZE_BITS, TIMESLOTS_PER_EPOCH, TIMESLOT_DURATION,
};
use vstd::bytes::{spec_u64_from_le_bytes, u64_from_le_bytes};
use vstd::prelude::*;

verus! {

pub type BlockHeight = u64;
pub type Timeslot = u64;

/// The tip of a chain branch known to the node.
#[derive(Clone, Copy, Debug)]
pub struct Head {
    pub block_height: u64,
    pub content_id: ContentId,
}

/// The confirmed state of an account.
#[derive(Clone, Copy, Debug, PartialEq, Eq, Structural)]
pub struct AccountState {
    pub balance: u64,
    pub nonce: u64,
}

/// The index of the first head whose content id is `cid`, if any.
pub open spec fn first_head(s: Seq<Head>, cid: ContentId) -> Option<int>
    decreases s.len(),
{
    if s.len() == 0 {
        None
    } else {
        match first_head(s.drop_last(), cid) {
            Some(i) => Some(i),
            None => if s.last().content_id == cid {
                Some(s.len() - 1)
            } else {
                None
            },
        }
    }
}

pub proof fn lemma_first_head(s: Seq<Head>, cid: ContentId)
    ensures
        match first_head(s, cid) {
            Some(i) => 0 <= i < s.len() && s[i].content_id == cid && forall|j: int|
                0 <= j < i ==> s[j].content_id != cid,
            None => forall|j: int| 0 <= j < s.len() ==> s[j].content_id != cid,
        },
    decreases s.len(),
{
    if s.len() > 0 {
        lemma_first_head(s.drop_last(), cid);
        assert(forall|j: int| 0 <= j < s.len() - 1 ==> s.drop_last()[j] == s[j]);
    }
}

/// The position of the first head whose content id is `cid`.
pub fn find_head(heads: &Vec<Head>, cid: &ContentId) -> (r: Option<usize>)
    ensures
        match r {
            Some(i) => first_head(heads@, *cid) == Some(i as int) && i < heads@.len(),
            None => first_head(heads@, *cid) is None,
        },
{
    proof {
        lemma_first_head(heads@, *cid);
    }
    let mut index: usize = 0;
    while index < heads.len()
        invariant
            index <= heads@.len(),
            forall|j: int| 0 <= j < index ==> heads@[j].content_id != *cid,
            match first_head(heads@, *cid) {
                Some(i) => 0 <= i < heads@.len() && heads@[i].content_id == *cid && forall|j: int|
                    0 <= j < i ==> heads@[j].content_id != *cid,
                None => forall|j: int| 0 <= j < heads@.len() ==> heads@[j].content_id != *cid,
            },
        decreases heads@.len() - index,
    {
        if ids_equal(&heads[index].content_id, cid) {
            proof {
                let i = first_head(heads@, *cid)->Some_0;
                assert(!(i < index));
                assert(!(i > index));
            }
            return Some(index);
        }
        index += 1;
    }
    None
}

/// `heads[0]` is at least as tall as every other head.
pub open spec fn heads_ordered(s: Seq<Head>) -> bool {
    s.len() > 0 ==> forall|j: int| 0 <= j < s.len() ==> (#[trigger] s[j]).block_height <= s[0].block_height
}

/// Every head of `s` is a head of `t`.
pub open spec fn heads_within(s: Seq<Head>, t: Seq<Head>) -> bool {
    forall|j: int| 0 <= j < s.len() ==> exists|k: int| 0 <= k < t.len() && #[trigger] s[j] == t[k]
}

/// In a well-formed ledger, as every staging leaves it, the longest chain's
/// head is at least as tall as every other head.
pub proof fn lemma_longest_head_first(l: &Ledger)
    requires
        l.wf(),
    ensures
        l.heads@.len() > 0 ==> forall|j: int|
            0 <= j < l.heads@.len() ==> (#[trigger] l.heads@[j]).block_height <= l.heads@[0].block_height,
{
}

/// `s` with the heads at `i` and `j` exchanged.
pub open spec fn swap_heads(s: Seq<Head>, i: int, j: int) -> Seq<Head> {
    s.update(i, s[j]).update(j, s[i])
}

/// The heads after a block with content id `content_id` at `block_height` is
/// staged under `parent_id`: the branch that ends in the parent advances by one
/// in place, else a new branch starts; either one moves to the front when it is
/// strictly taller than the front head.
pub open spec fn heads_after(
    s: Seq<Head>,
    parent_id: ContentId,
    content_id: ContentId,
    block_height: u64,
) -> Seq<Head> {
    match first_head(s, parent_id) {
        Some(i) => {
            let h = Head { block_height: (s[i].block_height + 1) as u64, content_id };
            let up = s.update(i, h);
            if i != 0 && h.block_height > s[0].block_height {
                swap_heads(up, 0, i)
            } else {
                up
            }
        },
        None => {
            let h = Head { block_height, content_id };
            let up = s.push(h);
            if s.len() > 0 && block_height > s[0].block_height {
                swap_heads(up, 0, s.len() as int)
            } else {
                up
            }
        },
    }
}

/// `a + b`, or `u64::MAX` where the sum does not fit.
pub open spec fn sat_add(a: u64, b: u64) -> u64 {
    if a + b > u64::MAX {
        u64::MAX
    } else {
        (a + b) as u64
    }
}

/// Balances after `amount` is credited to `to`; a new account starts at zero
/// with nonce zero. Balances saturate at `u64::MAX`.
pub open spec fn credit(bal: Map<AccountAddress, AccountState>, to: AccountAddress, amount: u64) -> Map<
    AccountAddress,
    AccountState,
> {
    if bal.contains_key(to) {
        bal.insert(to, AccountState { balance: sat_add(bal[to].balance, amount), nonce: bal[to].nonce })
    } else {
        bal.insert(to, AccountState { balance: amount, nonce: 0 })
    }
}

/// Balances and pool after one transaction of a confirmed block is applied: a
/// coinbase pays the block reward; a credit is applied only while its id is in
/// the pool, leaves the pool, and moves funds only when the sender exists, has
/// the amount and has a nonce below the transaction's.
pub open spec fn apply_tx(
    bal: Map<AccountAddress, AccountState>,
    pool: Set<TxId>,
    tx_id: TxId,
    tx: Transaction,
) -> (Map<AccountAddress, AccountState>, Set<TxId>) {
    match tx {
        Transaction::Coinbase(c) => (credit(bal, c.to_address, BLOCK_REWARD), pool),
        Transaction::Credit(c) => if !pool.contains(tx_id) {
            (bal, pool)
        } else if bal.contains_key(c.from_address) && bal[c.from_address].balance >= c.amount
            && bal[c.from_address].nonce < c.nonce {
            let debited = bal.insert(
                c.from_address,
                AccountState {
                    balance: (bal[c.from_address].balance - c.amount) as u64,
                    nonce: bal[c.from_address].nonce,
                },
            );
            (credit(debited, c.to_address, c.amount), pool.remove(tx_id))
        } else {
            (bal, pool.remove(tx_id))
        },
    }
}

/// Balances and pool after the transactions `ids` are applied in order.
pub open spec fn apply_txs(
    bal: Map<AccountAddress, AccountState>,
    pool: Set<TxId>,
    ids: Seq<TxId>,
    txs: Map<TxId, Transaction>,
) -> (Map<AccountAddress, AccountState>, Set<TxId>)
    decreases ids.len(),
{
    if ids.len() == 0 {
        (bal, pool)
    } else {
        let prev = apply_txs(bal, pool, ids.drop_last(), txs);
        apply_tx(prev.0, prev.1, ids.last(), txs[ids.last()])
    }
}

/// A credit transaction whose id has left the pool is skipped: applying it
/// changes neither balances nor pool.
pub proof fn lemma_spent_credit_skipped(
    bal: Map<AccountAddress, AccountState>,
    pool: Set<TxId>,
    tx_id: TxId,
    tx: crate::block::CreditTx,
)
    requires
        !pool.contains(tx_id),
    ensures
        apply_tx(bal, pool, tx_id, Transaction::Credit(tx)) == (bal, pool),
{
}

/// A credit transaction takes effect at most once: once applied, its id has
/// left the pool and applying it again changes nothing.
pub proof fn lemma_credit_applied_once(
    bal: Map<AccountAddress, AccountState>,
    pool: Set<TxId>,
    tx_id: TxId,
    tx: crate::block::CreditTx,
)
    ensures
        !apply_tx(bal, pool, tx_id, Transaction::Credit(tx)).1.contains(tx_id),
        ({
            let once = apply_tx(bal, pool, tx_id, Transaction::Credit(tx));
            apply_tx(once.0, once.1, tx_id, Transaction::Credit(tx)) == once
        }),
{
}

/// The entry `n` parent links above entry `idx`, following each block's
/// parent content id to the first entry that holds it.
pub open spec fn ancestor_index(mbs: Seq<MetaBlock>, idx: int, n: nat) -> Option<int>
    decreases n,
{
    if n == 0 {
        Some(idx)
    } else if !(0 <= idx < mbs.len()) {
        None
    } else {
        match crate::metablocks::first_with_content(mbs, mbs[idx].block.content.parent_id) {
            None => None,
            Some(p) => ancestor_index(mbs, p, (n - 1) as nat),
        }
    }
}

/// Where a block's timeslot stands against the current one.
#[derive(Clone, Copy, Debug, PartialEq, Eq, Structural)]
pub enum Arrival {
    /// more than `MAX_EARLY_TIMESLOTS` ahead: rejected
    TooEarly,
    /// ahead by at most `MAX_EARLY_TIMESLOTS`: kept until its timeslot arrives
    Early,
    /// more than `MAX_LATE_TIMESLOTS` behind: rejected
    TooLate,
    /// within the window: validated now
    Arrived,
}

pub open spec fn spec_arrival(current: u64, timeslot: u64) -> Arrival {
    if timeslot > current + MAX_EARLY_TIMESLOTS {
        Arrival::TooEarly
    } else if timeslot > current {
        Arrival::Early
    } else if timeslot + MAX_LATE_TIMESLOTS < current {
        Arrival::TooLate
    } else {
        Arrival::Arrived
    }
}

/// Classifies a block's timeslot against the current timeslot.
pub fn classify_arrival(current: u64, timeslot: u64) -> (r: Arrival)
    ensures
        r == spec_arrival(current, timeslot),
{
    if current <= u64::MAX - MAX_EARLY_TIMESLOTS && timeslot > current + MAX_EARLY_TIMESLOTS {
        Arrival::TooEarly
    } else if timeslot > current {
        Arrival::Early
    } else if timeslot <= u64::MAX - MAX_LATE_TIMESLOTS && timeslot + MAX_LATE_TIMESLOTS < current {
        Arrival::TooLate
    } else {
        Arrival::Arrived
    }
}

/// A block `MAX_EARLY_TIMESLOTS` ahead is kept as early; one more timeslot
/// ahead and it is rejected.
pub proof fn lemma_early_window_boundary(current: u64)
    requires
        current + MAX_EARLY_TIMESLOTS + 1 <= u64::MAX,
    ensures
        spec_arrival(current, (current + MAX_EARLY_TIMESLOTS) as u64) == Arrival::Early,
        spec_arrival(current, (current + MAX_EARLY_TIMESLOTS + 1) as u64) == Arrival::TooEarly,
{
}

/// A block whose parent is `CONFIRMATION_DEPTH` or more below the longest
/// chain's head would fork below the confirmation horizon.
pub open spec fn spec_deep_fork(parent_height: u64, head_height: u64) -> bool {
    parent_height + CONFIRMATION_DEPTH <= head_height
}

pub fn is_deep_fork(parent_height: u64, head_height: u64) -> (r: bool)
    ensures
        r == spec_deep_fork(parent_height, head_height),
{
    parent_height <= u64::MAX - CONFIRMATION_DEPTH && parent_height + CONFIRMATION_DEPTH
        <= head_height
}

/// A parent exactly `CONFIRMATION_DEPTH` below the head is rejected, as is any
/// lower one; a higher parent is accepted.
pub proof fn lemma_deep_fork_boundary(parent_height: u64, head_height: u64)
    ensures
        parent_height + CONFIRMATION_DEPTH == head_height ==> spec_deep_fork(
            parent_height,
            head_height,
        ),
        parent_height < head_height - CONFIRMATION_DEPTH + 1 ==> spec_deep_fork(
            parent_height,
            head_height,
        ),
        parent_height + CONFIRMATION_DEPTH > head_height ==> !spec_deep_fork(
            parent_height,
            head_height,
        ),
{
}

/// `new` is `old` with `b` appended to the list under `key`, a new list if
/// there was none.
pub open spec fn appended<K>(old: Map<K, Vec<Block>>, new: Map<K, Vec<Block>>, key: K, b: Block) -> bool {
    let old_list = if old.contains_key(key) {
        old[key]@
    } else {
        Seq::<Block>::empty()
    };
    &&& new.dom() == old.dom().insert(key)
    &&& forall|k: K| k != key && old.contains_key(k) ==> #[trigger] new[k] == old[k]
    &&& new[key]@.len() == old_list.len() + 1
    &&& forall|i: int| 0 <= i < old_list.len() ==> new[key]@[i] == old_list[i]
    &&& new[key]@.last().equiv(&b)
}

/// Appends a copy of `b` to the list under `key`.
pub fn append_block<K: StoreKey>(map: &mut KeyMap<K, Vec<Block>>, key: K, b: &Block)
    requires
        old(map).wf(),
    ensures
        final(map).wf(),
        appended(old(map)@, final(map)@, key, *b),
{
    let mut list = match map.remove(&key) {
        Some(l) => l,
        None => Vec::new(),
    };
    list.push(b.duplicate());
    map.insert(key, list);
    proof {
        assert(map@.dom() =~= old(map)@.dom().insert(key));
    }
}

/// The proof id whose bytes are the block's proof hash.
pub open spec fn proof_key(b: &Block) -> ProofId {
    choose|k: ProofId| k@ == b.proof.spec_id()
}

proof fn lemma_proof_key(b: &Block, pid: ProofId)
    requires
        pid@ == b.proof.spec_id(),
    ensures
        proof_key(b) == pid,
{
    let k = proof_key(b);
    assert(k@ == b.proof.spec_id());
    vstd::array::axiom_array_ext_equal(k, pid);
}

/// The position of the entry with this proof id, if any.
pub open spec fn proof_position(mbs: Seq<MetaBlock>, pid: ProofId) -> Option<int> {
    if exists|i: int| 0 <= i < mbs.len() && mbs[i].proof_id == pid {
        Some(choose|i: int| 0 <= i < mbs.len() && mbs[i].proof_id == pid)
    } else {
        None
    }
}

/// The staged blocks among `ids`, in the order of `ids`.
pub open spec fn listed_blocks(ids: Seq<ProofId>, mbs: Seq<MetaBlock>) -> Seq<Block>
    decreases ids.len(),
{
    if ids.len() == 0 {
        Seq::empty()
    } else {
        let rest = listed_blocks(ids.drop_last(), mbs);
        match proof_position(mbs, ids.last()) {
            Some(i) => rest.push(mbs[i].block),
            None => rest,
        }
    }
}

/// `run` lists, for each genesis block, the ledger before its staging, the
/// ledger after it, and the block: the blocks are `old`'s genesis blocks in
/// order, each linking to the one before, each staged, and nothing but the
/// epochs changes the fork state between stagings.
pub open spec fn genesis_run(
    old: Ledger,
    new: Ledger,
    run: Seq<(Ledger, Ledger, Block)>,
    genesis_timestamp: u64,
) -> bool {
    let n = CHALLENGE_LOOKBACK_EPOCHS * TIMESLOTS_PER_EPOCH;
    &&& run.len() == n
    &&& forks_unchanged(old, run[0].0)
    &&& forall|j: int| 0 <= j < n - 1 ==> #[trigger] forks_unchanged(run[j].1, run[j + 1].0)
    &&& forks_unchanged(run[n - 1].1, new)
    &&& forall|j: int| 0 <= j < n ==> #[trigger] staged(run[j].0, run[j].1, run[j].2)
    &&& forall|j: int| 0 <= j < n ==> old.genesis_block(#[trigger] run[j].2, j, genesis_timestamp)
    &&& run[0].2.content.parent_id@ == zero_id()
    &&& forall|j: int| 1 <= j < n ==> (#[trigger] run[j].2).content.parent_id@ == run[j - 1].2.content.spec_id()
}

/// The all-zero content id that the first genesis block links to.
pub open spec fn zero_id() -> Seq<u8> {
    Seq::new(32, |i: int| 0u8)
}

/// The key under which a block's nonce is derived: the bytes of "subspace".
pub open spec fn nonce_key() -> Seq<u8> {
    seq![115u8, 117u8, 98u8, 115u8, 112u8, 97u8, 99u8, 101u8]
}

/// The nonce of a proof: the first eight bytes, little-endian, of the HMAC of
/// the encoding under the nonce key.
pub open spec fn nonce_of(encoding: Seq<u8>) -> u64 {
    spec_u64_from_le_bytes(hmac_of(nonce_key(), encoding).subrange(0, 8))
}

pub fn derive_nonce(encoding: &[u8]) -> (r: u64)
    ensures
        r == nonce_of(encoding@),
{
    let key: [u8; 8] = [115, 117, 98, 115, 112, 97, 99, 101];
    assert(key@ =~= nonce_key());
    let mac = create_hmac(encoding, key.as_slice());
    let head = vstd::slice::slice_subrange(mac.as_slice(), 0, 8);
    u64_from_le_bytes(head)
}

fn to_vec(bytes: &[u8]) -> (r: Vec<u8>)
    ensures
        r@ == bytes@,
{
    let mut v: Vec<u8> = Vec::new();
    push_bytes(&mut v, bytes);
    v
}

/// An encoding decoded with `ENCODING_LAYERS_TEST` layers under the IV `iv`.
pub open spec fn decoded(sloth: Sloth, encoding: Seq<u8>, iv: Seq<u8>) -> Seq<u8> {
    let d = sloth.decode_layers(
        split_blocks(encoding),
        ENCODING_LAYERS_TEST as nat,
        ENCODING_LAYERS_TEST as nat,
    );
    join_blocks(d.update(0, xor_seq(d[0], iv)))
}

/// A piece with its first sixteen bytes XORed with the piece index's mask:
/// the low 32 bits of the index big-endian, then zeros.
pub open spec fn unmask(piece: Seq<u8>, index: u64) -> Seq<u8> {
    let mask = u32_be_bytes(index as u32) + Seq::new(12, |i: int| 0u8);
    Seq::new(piece.len(), |i: int| if i < 16 { piece[i] ^ mask[i] } else { piece[i] })
}

/// `new` is `old` with `id` appended to the list under `key`, a new list if
/// there was none.
pub open spec fn id_appended(old: Map<u64, Vec<ProofId>>, new: Map<u64, Vec<ProofId>>, key: u64, id: ProofId) -> bool {
    let old_list = if old.contains_key(key) {
        old[key]@
    } else {
        Seq::<ProofId>::empty()
    };
    &&& new.dom() == old.dom().insert(key)
    &&& forall|k: u64| k != key && old.contains_key(k) ==> #[trigger] new[k] == old[k]
    &&& new[key]@ == old_list.push(id)
}

/// `x` is one of `roots` or lies at most `n` children links below one of
/// them, through the children lists of the entries of `s`.
pub open spec fn below(s: Seq<MetaBlock>, roots: Seq<ProofId>, x: ProofId, n: nat) -> bool
    decreases n,
{
    roots.contains(x) || (n > 0 && exists|i: int|
        0 <= i < s.len() && below(s, roots, s[i].proof_id, (n - 1) as nat) && #[trigger] s[i].children@.contains(x))
}

/// `e` is an entry of `s`.
pub open spec fn entry_of(s: Seq<MetaBlock>, e: MetaBlock) -> bool {
    exists|j: int| 0 <= j < s.len() && #[trigger] s[j] == e
}

/// Every entry of `t` is an entry of `s`.
pub open spec fn entries_of(t: Seq<MetaBlock>, s: Seq<MetaBlock>) -> bool {
    forall|k: int| 0 <= k < t.len() ==> entry_of(s, #[trigger] t[k])
}

/// Each entry of `s` that `t` no longer holds has none of its children in `t`.
pub open spec fn gone_with_children(s: Seq<MetaBlock>, t: &MetaBlocks) -> bool {
    forall|j: int, c: ProofId|
        0 <= j < s.len() && !t.has_proof(s[j].proof_id) && #[trigger] s[j].children@.contains(c)
            ==> !t.has_proof(c)
}

/// The ids of `kids` other than `me`.
pub open spec fn others(kids: Seq<ProofId>, me: ProofId) -> Seq<ProofId>
    decreases kids.len(),
{
    if kids.len() == 0 {
        Seq::empty()
    } else if kids.last() == me {
        others(kids.drop_last(), me)
    } else {
        others(kids.drop_last(), me).push(kids.last())
    }
}

proof fn lemma_others(kids: Seq<ProofId>, me: ProofId, c: ProofId)
    ensures
        others(kids, me).contains(c) <==> kids.contains(c) && c != me,
    decreases kids.len(),
{
    if kids.len() > 0 {
        lemma_others(kids.drop_last(), me, c);
        let o = others(kids.drop_last(), me);
        if kids.contains(c) && c != me {
            let j = choose|j: int| 0 <= j < kids.len() && kids[j] == c;
            if j < kids.len() - 1 {
                assert(kids.drop_last()[j] == c);
            }
        }
        if others(kids, me).contains(c) {
            if kids.last() != me && c == kids.last() {
                assert(kids[kids.len() - 1] == c);
            } else {
                if kids.last() != me {
                    let j = choose|j: int| 0 <= j < o.push(kids.last()).len() && o.push(kids.last())[j] == c;
                    assert(o[j] == c);
                }
                let k = choose|k: int| 0 <= k < kids.drop_last().len() && kids.drop_last()[k] == c;
                assert(kids[k] == c);
            }
        }
        if o.contains(c) && kids.last() != me {
            let j = choose|j: int| 0 <= j < o.len() && o[j] == c;
            assert(o.push(kids.last())[j] == c);
        }
        if kids.last() != me && c == kids.last() {
            assert(o.push(kids.last())[o.len() as int] == c);
        }
    }
}

proof fn lemma_below_roots(s: Seq<MetaBlock>, r1: Seq<ProofId>, r2: Seq<ProofId>, x: ProofId, n: nat)
    requires
        forall|c: ProofId| r1.contains(c) ==> r2.contains(c),
        below(s, r1, x, n),
    ensures
        below(s, r2, x, n),
    decreases n,
{
    if !r1.contains(x) {
        let i = choose|i: int|
            0 <= i < s.len() && below(s, r1, s[i].proof_id, (n - 1) as nat) && #[trigger] s[i].children@.contains(x);
        lemma_below_roots(s, r1, r2, s[i].proof_id, (n - 1) as nat);
    }
}

proof fn lemma_below_update(s: Seq<MetaBlock>, t: Seq<MetaBlock>, r: Seq<ProofId>, p: ProofId, x: ProofId, n: nat)
    requires
        t.len() == s.len(),
        forall|i: int| 0 <= i < s.len() && s[i].proof_id != p ==> #[trigger] t[i] == s[i],
        forall|m: nat| !#[trigger] below(s, r, p, m),
        below(s, r, x, n),
    ensures
        below(t, r, x, n),
    decreases n,
{
    if !r.contains(x) {
        let i = choose|i: int|
            0 <= i < s.len() && below(s, r, s[i].proof_id, (n - 1) as nat) && #[trigger] s[i].children@.contains(x);
        assert(s[i].proof_id != p);
        assert(t[i] == s[i]);
        lemma_below_update(s, t, r, p, s[i].proof_id, (n - 1) as nat);
    }
}

proof fn lemma_below_sub_registry(t: Seq<MetaBlock>, s: Seq<MetaBlock>, r: Seq<ProofId>, x: ProofId, n: nat)
    requires
        entries_of(t, s),
        below(t, r, x, n),
    ensures
        below(s, r, x, n),
    decreases n,
{
    if !r.contains(x) {
        let i = choose|i: int|
            0 <= i < t.len() && below(t, r, t[i].proof_id, (n - 1) as nat) && #[trigger] t[i].children@.contains(x);
        lemma_below_sub_registry(t, s, r, t[i].proof_id, (n - 1) as nat);
        assert(entry_of(s, t[i]));
        let j = choose|j: int| 0 <= j < s.len() && #[trigger] s[j] == t[i];
        assert(s[j].children@.contains(x));
    }
}

/// What lies below the children of an entry that is a root lies one link
/// further below the roots.
proof fn lemma_below_children(s: Seq<MetaBlock>, roots: Seq<ProofId>, e: int, x: ProofId, n: nat)
    requires
        0 <= e < s.len(),
        roots.contains(s[e].proof_id),
        below(s, s[e].children@, x, n),
    ensures
        below(s, roots, x, n + 1),
    decreases n,
{
    assert(below(s, roots, s[e].proof_id, n));
    if s[e].children@.contains(x) {
        assert(s[e].children@.contains(x));
    } else {
        let i = choose|i: int|
            0 <= i < s.len() && below(s, s[e].children@, s[i].proof_id, (n - 1) as nat) && #[trigger] s[i].children@.contains(x);
        lemma_below_children(s, roots, e, s[i].proof_id, (n - 1) as nat);
    }
}

proof fn lemma_below_fewer_children(t: Seq<MetaBlock>, s: Seq<MetaBlock>, r: Seq<ProofId>, x: ProofId, n: nat)
    requires
        t.len() == s.len(),
        forall|i: int| 0 <= i < t.len() ==> (#[trigger] t[i]).proof_id == s[i].proof_id,
        forall|i: int, c: ProofId| 0 <= i < t.len() && #[trigger] t[i].children@.contains(c) ==> s[i].children@.contains(c),
        below(t, r, x, n),
    ensures
        below(s, r, x, n),
    decreases n,
{
    if !r.contains(x) {
        let i = choose|i: int|
            0 <= i < t.len() && below(t, r, t[i].proof_id, (n - 1) as nat) && #[trigger] t[i].children@.contains(x);
        lemma_below_fewer_children(t, s, r, t[i].proof_id, (n - 1) as nat);
        assert(s[i].children@.contains(x));
    }
}

/// The head `h` ends at no entry of `s` that `f` no longer holds.
pub open spec fn head_not_pruned(s: Seq<MetaBlock>, f: &MetaBlocks, h: Head) -> bool {
    forall|j: int| 0 <= j < s.len() && s[j].content_id == h.content_id ==> #[trigger] f.has_proof(s[j].proof_id)
}

/// Where every root is gone and each gone entry took its children with it,
/// everything below the roots is gone.
pub proof fn lemma_below_gone(s: Seq<MetaBlock>, roots: Seq<ProofId>, f: &MetaBlocks, x: ProofId, n: nat)
    requires
        gone_with_children(s, f),
        forall|r: ProofId| roots.contains(r) ==> !f.has_proof(r),
        below(s, roots, x, n),
    ensures
        !f.has_proof(x),
    decreases n,
{
    if !roots.contains(x) {
        let i = choose|i: int|
            0 <= i < s.len() && below(s, roots, s[i].proof_id, (n - 1) as nat) && #[trigger] s[i].children@.contains(x);
        lemma_below_gone(s, roots, f, s[i].proof_id, (n - 1) as nat);
    }
}

/// The fork state and the accounts of `c` are those of `a`.
pub open spec fn forks_unchanged(a: Ledger, c: Ledger) -> bool {
    &&& c.metablocks == a.metablocks
    &&& c.heads == a.heads
    &&& c.balances == a.balances
    &&& c.txs == a.txs
    &&& c.proof_ids_by_timeslot == a.proof_ids_by_timeslot
    &&& c.tx_mempool == a.tx_mempool
    &&& c.blocks_on_longest_chain == a.blocks_on_longest_chain
}

/// `m` is `a` with `b` linked in: the pruned block appended to the registry
/// at height zero for a genesis block and one above its parent otherwise, a
/// child of that parent; the heads advanced by `heads_after`; the proof id
/// recorded under its timeslot and the coinbase among the transactions; the
/// accounts as they were.
pub open spec fn linked(a: Ledger, m: Ledger, b: Block) -> bool {
    let n = a.metablocks.blocks@.len();
    let e = m.metablocks.blocks@[n as int];
    &&& m.metablocks.blocks@.len() == n + 1
    &&& e.block.equiv(&b.spec_pruned())
    &&& e.ids_match()
    &&& e.children@.len() == 0
    &&& b.proof.timeslot == 0 ==> e.height == 0 && forall|j: int|
        0 <= j < n ==> #[trigger] m.metablocks.blocks@[j] == a.metablocks.blocks@[j]
    &&& b.proof.timeslot != 0 ==> (a.metablocks.content_index(b.content.parent_id) matches Some(p) && {
        &&& e.height == a.metablocks.blocks@[p].height + 1
        &&& m.metablocks.blocks@[p].children@ == a.metablocks.blocks@[p].children@.push(e.proof_id)
        &&& m.metablocks.blocks@[p].height == a.metablocks.blocks@[p].height
        &&& m.metablocks.blocks@[p].block == a.metablocks.blocks@[p].block
        &&& forall|j: int|
            0 <= j < n && j != p ==> #[trigger] m.metablocks.blocks@[j] == a.metablocks.blocks@[j]
    })
    &&& m.heads@ == heads_after(a.heads@, b.content.parent_id, e.content_id, e.height)
    &&& m.balances == a.balances
    &&& m.tx_mempool == a.tx_mempool
    &&& m.blocks_on_longest_chain == a.blocks_on_longest_chain
    &&& id_appended(a.proof_ids_by_timeslot@, m.proof_ids_by_timeslot@, b.proof.timeslot, proof_key(&b))
    &&& forall|k: TxId|
        k@ == b.coinbase_tx.spec_id() ==> #[trigger] m.txs@.get(k) == Some(Transaction::Coinbase(b.coinbase_tx))
    &&& forall|k: TxId| k@ != b.coinbase_tx.spec_id() ==> #[trigger] m.txs@.get(k) == a.txs@.get(k)
}

/// Every block below a sibling of the confirmed `mb`, by the registry of `m`,
/// is gone from `c`, where the parent is not itself below a sibling.
pub open spec fn siblings_pruned(m: Ledger, c: Ledger, mb: MetaBlock) -> bool {
    mb.height > 0 && m.metablocks.content_index(mb.block.content.parent_id) is Some ==> ({
        let pi = m.metablocks.content_index(mb.block.content.parent_id)->Some_0;
        let sib = others(m.metablocks.blocks@[pi].children@, mb.proof_id);
        (forall|k: nat| !#[trigger] below(m.metablocks.blocks@, sib, m.metablocks.blocks@[pi].proof_id, k))
            ==> forall|x: ProofId, n: nat| #[trigger] below(m.metablocks.blocks@, sib, x, n)
            ==> !c.metablocks.has_proof(x)
    })
}

/// `c` is `m` after confirming the entry `CONFIRMATION_DEPTH` links above
/// entry `idx`: with no such entry, or one listing an unknown transaction,
/// nothing changes; otherwise its transactions are applied, it joins the
/// longest chain and its siblings' subtrees are pruned. The longest chain's
/// head stays.
pub open spec fn confirmed(m: Ledger, c: Ledger, idx: int) -> bool {
    &&& c.txs == m.txs
    &&& c.proof_ids_by_timeslot == m.proof_ids_by_timeslot
    &&& m.heads@.len() > 0 ==> c.heads@.len() > 0 && c.heads@[0] == m.heads@[0]
    &&& match ancestor_index(m.metablocks.blocks@, idx, CONFIRMATION_DEPTH as nat) {
        None => forks_unchanged(m, c),
        Some(i) => {
            let mb = m.metablocks.blocks@[i];
            if forall|t: int|
                0 <= t < mb.block.content.tx_ids@.len() ==> m.txs@.contains_key(#[trigger] mb.block.content.tx_ids@[t]) {
                &&& (c.balances@, c.tx_mempool@) == apply_txs(
                    m.balances@,
                    m.tx_mempool@,
                    mb.block.content.tx_ids@,
                    m.txs@,
                )
                &&& c.blocks_on_longest_chain@ == m.blocks_on_longest_chain@.insert(mb.proof_id)
                &&& siblings_pruned(m, c, mb)
                &&& forall|h: Head| m.heads@.contains(h) && head_not_pruned(m.metablocks.blocks@, &c.metablocks, h)
                    ==> #[trigger] c.heads@.contains(h)
                &&& mb.height == 0 || m.metablocks.content_index(mb.block.content.parent_id) is None
                    ==> c.metablocks == m.metablocks && c.heads == m.heads
                &&& mb.height > 0 && m.metablocks.content_index(mb.block.content.parent_id) is Some ==> ({
                    let pi = m.metablocks.content_index(mb.block.content.parent_id)->Some_0;
                    let sib = others(m.metablocks.blocks@[pi].children@, mb.proof_id);
                    forall|j: int|
                        0 <= j < m.metablocks.blocks@.len() && !c.metablocks.has_proof(
                            #[trigger] m.metablocks.blocks@[j].proof_id,
                        ) ==> exists|n: nat| below(m.metablocks.blocks@, sib, m.metablocks.blocks@[j].proof_id, n)
                })
            } else {
                forks_unchanged(m, c)
            }
        },
    }
}

/// `c` follows from `a` by staging `b`: where staging owes an error nothing
/// of the fork state changes; else the block is linked in, then its deep
/// ancestor confirmed.
pub open spec fn staged(a: Ledger, c: Ledger, b: Block) -> bool {
    match a.staging_error(&b) {
        Some(_) => forks_unchanged(a, c),
        None => exists|m: Ledger|
            #![trigger linked(a, m, b)]
            linked(a, m, b) && confirmed(m, c, a.metablocks.blocks@.len() as int),
    }
}

/// Staging from a ledger with the same fork state and accounts is staging
/// from `a`.
pub proof fn lemma_staged_same_forks(a: Ledger, a2: Ledger, c: Ledger, b: Block)
    requires
        forks_unchanged(a, a2),
        staged(a2, c, b),
    ensures
        staged(a, c, b),
{
    if a2.staging_error(&b) is None {
        let m = choose|m: Ledger| #![trigger linked(a2, m, b)] linked(a2, m, b) && confirmed(m, c, a2.metablocks.blocks@.len() as int);
        assert(linked(a, m, b));
    }
}

/// `c` follows from `a` by an early block `b` whose timeslot has arrived: a
/// valid block with a staged, earlier parent not below the horizon is staged;
/// any other leaves the fork state as it is.
pub open spec fn arrival_step(a: Ledger, c: Ledger, b: Block) -> bool {
    if a.spec_validate(&b) && a.parent_ok(&b, true) {
        staged(a, c, b)
    } else {
        forks_unchanged(a, c)
    }
}

/// `c` follows from `a` by a cached block `b` whose parent is staged: a valid
/// block from a later timeslot than its parent is staged; any other leaves
/// the fork state as it is.
pub open spec fn cache_step(a: Ledger, c: Ledger, b: Block) -> bool {
    if a.parent_ok(&b, false) && a.spec_validate(&b) {
        staged(a, c, b)
    } else {
        forks_unchanged(a, c)
    }
}

/// The blocks cached for the parent content id `p`.
pub open spec fn cached_list(l: Ledger, p: ContentId) -> Seq<Block> {
    if l.cached_blocks_by_parent_content_id@.contains_key(p) {
        l.cached_blocks_by_parent_content_id@[p]@
    } else {
        Seq::empty()
    }
}

/// The early blocks kept for timeslot `ts`.
pub open spec fn early_list(l: Ledger, ts: u64) -> Seq<Block> {
    if l.early_blocks_by_timeslot@.contains_key(ts) {
        l.early_blocks_by_timeslot@[ts]@
    } else {
        Seq::empty()
    }
}

/// Entries of `t` before `s.len()` carry the blocks and content ids of `s`.
pub open spec fn extends_registry(s: Seq<MetaBlock>, t: Seq<MetaBlock>) -> bool {
    &&& s.len() <= t.len()
    &&& forall|j: int|
        0 <= j < s.len() ==> (#[trigger] t[j]).block == s[j].block && t[j].content_id
            == s[j].content_id
}

proof fn lemma_first_same_contents(s: Seq<MetaBlock>, t: Seq<MetaBlock>, c: ContentId)
    requires
        s.len() == t.len(),
        forall|j: int| 0 <= j < s.len() ==> (#[trigger] t[j]).content_id == s[j].content_id,
    ensures
        crate::metablocks::first_with_content(t, c) == crate::metablocks::first_with_content(s, c),
    decreases s.len(),
{
    if s.len() > 0 {
        assert forall|j: int| 0 <= j < s.drop_last().len() implies (#[trigger] t.drop_last()[j]).content_id
            == s.drop_last()[j].content_id by {
            assert(t.drop_last()[j] == t[j] && s.drop_last()[j] == s[j]);
        }
        lemma_first_same_contents(s.drop_last(), t.drop_last(), c);
    }
}

proof fn lemma_first_extends(s: Seq<MetaBlock>, t: Seq<MetaBlock>, c: ContentId)
    requires
        extends_registry(s, t),
        crate::metablocks::first_with_content(s, c) is Some,
    ensures
        crate::metablocks::first_with_content(t, c) == crate::metablocks::first_with_content(s, c),
    decreases t.len(),
{
    if t.len() == s.len() {
        lemma_first_same_contents(s, t, c);
    } else {
        assert forall|j: int| 0 <= j < s.len() implies (#[trigger] t.drop_last()[j]).block == s[j].block
            && t.drop_last()[j].content_id == s[j].content_id by {
            assert(t.drop_last()[j] == t[j]);
        }
        lemma_first_extends(s, t.drop_last(), c);
    }
}

proof fn lemma_ancestor_extends(s: Seq<MetaBlock>, t: Seq<MetaBlock>, i: int, n: nat)
    requires
        extends_registry(s, t),
        0 <= i < s.len(),
        ancestor_index(s, i, n) is Some,
    ensures
        ancestor_index(t, i, n) == ancestor_index(s, i, n),
        0 <= ancestor_index(s, i, n)->Some_0 < s.len(),
    decreases n,
{
    if n > 0 {
        let c = s[i].block.content.parent_id;
        assert(t[i].block == s[i].block);
        crate::metablocks::lemma_first_with_content(s, c);
        lemma_first_extends(s, t, c);
        let p = crate::metablocks::first_with_content(s, c)->Some_0;
        lemma_ancestor_extends(s, t, p, (n - 1) as nat);
    }
}

/// The node's view of the chain: staged blocks, fork heads, caches, the
/// transaction pool and the confirmed balances.
pub struct Ledger {
    /// the current confirmed credit balance of all accounts
    pub balances: IdMap<AccountState>,
    /// storage container for blocks with metadata
    pub metablocks: MetaBlocks,
    /// proof ids of recent blocks, to drop duplicate gossip
    pub recent_proof_ids: IdSet,
    /// proof ids by timeslot, to serve sync requests
    pub proof_ids_by_timeslot: SlotMap<Vec<ProofId>>,
    /// blocks whose parent is unknown, by the parent's content id
    pub cached_blocks_by_parent_content_id: IdMap<Vec<Block>>,
    /// blocks seen before their timeslot, by timeslot
    pub early_blocks_by_timeslot: SlotMap<Vec<Block>>,
    /// all confirmed blocks, by proof id
    pub blocks_on_longest_chain: IdSet,
    /// fork tracker; `heads[0]` is the tip of the longest chain
    pub heads: Vec<Head>,
    /// all known transactions
    pub txs: IdMap<Transaction>,
    /// transactions not yet applied by a confirmed block
    pub tx_mempool: IdSet,
    pub epoch_tracker: EpochTracker,
    pub timer_is_running: bool,
    pub quality: u32,
    /// this node's signing key and the public key derived from it
    pub secret_key: [u8; 32],
    pub public_key: PublicKey,
    pub genesis_timestamp: u64,
    pub genesis_piece_hash: [u8; 32],
    /// the permutation used to decode encodings
    pub sloth: Sloth,
    pub merkle_root: Vec<u8>,
    pub merkle_proofs: Vec<Vec<u8>>,
    pub tx_payload: Vec<u8>,
    pub current_timeslot: u64,
}

impl Ledger {
    /// Every store is well formed and `heads[0]` is the tallest head.
    pub open spec fn wf(&self) -> bool {
        &&& self.balances.wf()
        &&& self.metablocks.wf()
        &&& self.recent_proof_ids.wf()
        &&& self.proof_ids_by_timeslot.wf()
        &&& self.cached_blocks_by_parent_content_id.wf()
        &&& self.early_blocks_by_timeslot.wf()
        &&& self.blocks_on_longest_chain.wf()
        &&& self.txs.wf()
        &&& self.tx_mempool.wf()
        &&& self.epoch_tracker.wf()
        &&& heads_ordered(self.heads@)
        &&& self.public_key@ == public_key_of(self.secret_key@)
        &&& self.sloth.wf()
    }

    pub fn new(
        merkle_root: Vec<u8>,
        genesis_piece_hash: [u8; 32],
        secret_key: [u8; 32],
        tx_payload: Vec<u8>,
        merkle_proofs: Vec<Vec<u8>>,
        epoch_tracker: EpochTracker,
    ) -> (r: Ledger)
        requires
            epoch_tracker.wf(),
        ensures
            r.wf(),
            r.balances@ == Map::<AccountAddress, AccountState>::empty(),
            r.metablocks.blocks@.len() == 0,
            r.heads@.len() == 0,
            r.txs@ == Map::<TxId, Transaction>::empty(),
            r.tx_mempool@ == Set::<TxId>::empty(),
            r.blocks_on_longest_chain@ == Set::<ProofId>::empty(),
            r.current_timeslot == 0,
            r.genesis_timestamp == 0,
            !r.timer_is_running,
            r.secret_key == secret_key,
            r.genesis_piece_hash == genesis_piece_hash,
            r.epoch_tracker == epoch_tracker,
    {
        let public_key = derive_public_key(&secret_key);
        Ledger {
            balances: IdMap::new(),
            metablocks: MetaBlocks::new(),
            recent_proof_ids: IdSet::new(),
            proof_ids_by_timeslot: SlotMap::new(),
            cached_blocks_by_parent_content_id: IdMap::new(),
            early_blocks_by_timeslot: SlotMap::new(),
            blocks_on_longest_chain: IdSet::new(),
            heads: Vec::new(),
            txs: IdMap::new(),
            tx_mempool: IdSet::new(),
            epoch_tracker,
            timer_is_running: false,
            quality: 0,
            secret_key,
            public_key,
            genesis_timestamp: 0,
            genesis_piece_hash,
            sloth: Sloth::init(PRIME_SIZE_BITS),
            merkle_root,
            merkle_proofs,
            tx_payload,
            current_timeslot: 0,
        }
    }

    /// The tip of the longest chain as seen by this node.
    pub fn get_head(&self) -> (r: ContentId)
        requires
            self.heads@.len() > 0,
        ensures
            r == self.heads@[0].content_id,
    {
        self.heads[0].content_id
    }

    /// Advances the branch that ends in `parent_id`, or starts a new one.
    pub fn update_heads(&mut self, parent_id: ContentId, content_id: ContentId, block_height: u64)
        requires
            forall|j: int|
                0 <= j < old(self).heads@.len() ==> old(self).heads@[j].block_height < u64::MAX,
        ensures
            final(self).heads@ == heads_after(old(self).heads@, parent_id, content_id, block_height),
            heads_ordered(old(self).heads@) ==> heads_ordered(final(self).heads@),
            final(self).same_but_forks(old(self)),
            final(self).metablocks == old(self).metablocks,
    {
        let ghost s = self.heads@;
        match find_head(&self.heads, &parent_id) {
            Some(index) => {
                let h = Head { block_height: self.heads[index].block_height + 1, content_id };
                self.heads.set(index, h);
                if index != 0 && h.block_height > self.heads[0].block_height {
                    let front = self.heads[0];
                    self.heads.set(0, h);
                    self.heads.set(index, front);
                }
                proof {
                    let up = s.update(index as int, h);
                    if index != 0 && h.block_height > s[0].block_height {
                        assert(self.heads@ =~= swap_heads(up, 0, index as int));
                    } else {
                        assert(self.heads@ =~= up);
                    }
                }
            },
            None => {
                let h = Head { content_id, block_height };
                self.heads.push(h);
                let n = self.heads.len() - 1;
                if n > 0 && block_height > self.heads[0].block_height {
                    let front = self.heads[0];
                    self.heads.set(0, h);
                    self.heads.set(n, front);
                }
                proof {
                    let up = s.push(h);
                    if s.len() > 0 && block_height > s[0].block_height {
                        assert(self.heads@ =~= swap_heads(up, 0, s.len() as int));
                    } else {
                        assert(self.heads@ =~= up);
                    }
                }
            },
        }
    }

    /// Removes the branch that ends in `content_id`; the longest chain's head
    /// is never removed.
    pub fn prune_branch(&mut self, content_id: ContentId) -> (r: Result<(), NodeError>)
        ensures
            forall|h: Head| old(self).heads@.contains(h) && h.content_id != content_id ==> #[trigger] final(self).heads@.contains(h),
            r is Err <==> (first_head(old(self).heads@, content_id) is None || first_head(
                old(self).heads@,
                content_id,
            ) == Some(0int)),
            r is Err ==> r == Err::<(), NodeError>(NodeError::ConsistencyViolation)
                && final(self).heads@ == old(self).heads@,
            r is Ok ==> final(self).heads@ == old(self).heads@.remove(
                first_head(old(self).heads@, content_id)->Some_0,
            ),
            heads_ordered(old(self).heads@) ==> heads_ordered(final(self).heads@),
            old(self).heads@.len() > 0 ==> final(self).heads@.len() > 0 && final(self).heads@[0]
                == old(self).heads@[0],
            heads_within(final(self).heads@, old(self).heads@),
            final(self).same_but_forks(old(self)),
            final(self).metablocks == old(self).metablocks,
    {
        let ghost s = self.heads@;
        match find_head(&self.heads, &content_id) {
            Some(index) => {
                if index == 0 {
                    return Err(NodeError::ConsistencyViolation);
                }
                self.heads.remove(index);
                proof {
                    assert forall|h: Head| s.contains(h) && h.content_id != content_id implies #[trigger] self.heads@.contains(h) by {
                        let k = choose|k: int| 0 <= k < s.len() && s[k] == h;
                        lemma_first_head(s, content_id);
                        assert(s[index as int].content_id == content_id);
                        assert(k != index);
                        let k1 = if k < index { k } else { k - 1 };
                        assert(self.heads@[k1] == s[k]);
                    }
                    assert forall|j: int| 0 <= j < self.heads@.len() implies #[trigger] self.heads@[j]
                        == s[if j < index {
                        j
                    } else {
                        j + 1
                    }] by {}
                    assert forall|j: int| 0 <= j < self.heads@.len() implies exists|k: int|
                        0 <= k < s.len() && #[trigger] self.heads@[j] == s[k] by {
                        let k = if j < index {
                            j
                        } else {
                            j + 1
                        };
                        assert(self.heads@[j] == s[k]);
                    }
                }
                Ok(())
            },
            None => {
                proof {
                    assert forall|j: int| 0 <= j < self.heads@.len() implies exists|k: int|
                        0 <= k < s.len() && #[trigger] self.heads@[j] == s[k] by {
                        assert(self.heads@[j] == s[j]);
                    }
                }
                Err(NodeError::ConsistencyViolation)
            },
        }
    }

    /// Keeps a block whose parent is unknown until the parent is staged.
    pub fn cache_remote_block(&mut self, block: &Block)
        requires
            old(self).cached_blocks_by_parent_content_id.wf(),
        ensures
            final(self).cached_blocks_by_parent_content_id.wf(),
            appended(
                old(self).cached_blocks_by_parent_content_id@,
                final(self).cached_blocks_by_parent_content_id@,
                block.content.parent_id,
                *block,
            ),
            final(self).same_but_caches(old(self)),
            final(self).early_blocks_by_timeslot == old(self).early_blocks_by_timeslot,
            final(self).recent_proof_ids == old(self).recent_proof_ids,
    {
        append_block(&mut self.cached_blocks_by_parent_content_id, block.content.parent_id, block);
    }

    /// The confirmed state of an account, if it has one.
    pub fn get_account_state(&self, id: &AccountAddress) -> (r: Option<AccountState>)
        requires
            self.balances.wf(),
        ensures
            r == self.balances@.get(*id),
    {
        match self.balances.get(id) {
            Some(s) => Some(*s),
            None => None,
        }
    }

    /// Everything but the balances and the pool is the same.
    pub open spec fn same_but_accounts(&self, o: &Ledger) -> bool {
        &&& self.metablocks == o.metablocks
        &&& self.heads == o.heads
        &&& self.txs == o.txs
        &&& self.blocks_on_longest_chain == o.blocks_on_longest_chain
        &&& self.epoch_tracker == o.epoch_tracker
        &&& self.recent_proof_ids == o.recent_proof_ids
        &&& self.proof_ids_by_timeslot == o.proof_ids_by_timeslot
        &&& self.cached_blocks_by_parent_content_id == o.cached_blocks_by_parent_content_id
        &&& self.early_blocks_by_timeslot == o.early_blocks_by_timeslot
        &&& self.secret_key == o.secret_key
        &&& self.public_key == o.public_key
        &&& self.sloth == o.sloth
        &&& self.genesis_piece_hash == o.genesis_piece_hash
        &&& self.current_timeslot == o.current_timeslot
        &&& self.genesis_timestamp == o.genesis_timestamp
        &&& self.timer_is_running == o.timer_is_running
    }

    /// Everything but the recent proof ids and the two block caches is the same.
    pub open spec fn same_but_caches(&self, o: &Ledger) -> bool {
        &&& self.balances == o.balances
        &&& self.metablocks == o.metablocks
        &&& self.heads == o.heads
        &&& self.txs == o.txs
        &&& self.tx_mempool == o.tx_mempool
        &&& self.blocks_on_longest_chain == o.blocks_on_longest_chain
        &&& self.epoch_tracker == o.epoch_tracker
        &&& self.proof_ids_by_timeslot == o.proof_ids_by_timeslot
        &&& self.secret_key == o.secret_key
        &&& self.public_key == o.public_key
        &&& self.sloth == o.sloth
        &&& self.genesis_piece_hash == o.genesis_piece_hash
        &&& self.current_timeslot == o.current_timeslot
        &&& self.genesis_timestamp == o.genesis_timestamp
        &&& self.timer_is_running == o.timer_is_running
    }

    /// The staged parent of a block, if any.
    pub open spec fn parent_entry(&self, b: &Block) -> Option<MetaBlock> {
        match self.metablocks.content_index(b.content.parent_id) {
            Some(i) => Some(self.metablocks.blocks@[i]),
            None => None,
        }
    }

    /// The parent is from an earlier timeslot and, where asked, not below the
    /// confirmation horizon of the longest chain.
    pub open spec fn parent_ok(&self, b: &Block, check_depth: bool) -> bool {
        match self.parent_entry(b) {
            Some(p) => p.block.proof.timeslot < b.proof.timeslot && (!check_depth
                || self.heads@.len() == 0 || !spec_deep_fork(p.height, self.heads@[0].block_height)),
            None => false,
        }
    }

    /// The block's lookback epoch is closed and the block is valid against its
    /// randomness and the challenge of the block's timeslot.
    pub open spec fn spec_validate(&self, b: &Block) -> bool {
        let e = b.proof.epoch;
        &&& e >= CHALLENGE_LOOKBACK_EPOCHS
        &&& e - CHALLENGE_LOOKBACK_EPOCHS < self.epoch_tracker.epochs@.len()
        &&& ({
            let ep = self.epoch_tracker.epochs@[e - CHALLENGE_LOOKBACK_EPOCHS];
            &&& ep.is_closed
            &&& b.spec_is_valid(
                ep.randomness,
                ep.challenges@[(b.proof.timeslot % TIMESLOTS_PER_EPOCH) as int],
            )
        })
        &&& self.piece_ok(b)
    }

    /// The block's encoding decodes, under the proof's public key, to the
    /// genesis piece as it was masked with the piece index for plotting.
    pub open spec fn piece_ok(&self, b: &Block) -> bool {
        &&& b.data matches Some(d) && d.encoding@.len() == PIECE_SIZE
        &&& sha256_of(
            unmask(
                decoded(self.sloth, b.data->Some_0.encoding@, b.proof.public_key@),
                b.proof.piece_index,
            ),
        ) == self.genesis_piece_hash@
    }

    /// The error that staging `b` owes, if any: a staged proof id with another
    /// block id is a fault and with the same one a duplicate; a head at
    /// `u64::MAX` cannot advance; a non-genesis block needs its parent staged,
    /// below `u64::MAX`.
    pub open spec fn staging_error(&self, b: &Block) -> Option<NodeError> {
        if self.metablocks.conflicts(b.proof.spec_id(), b.spec_id()) {
            Some(NodeError::ProofFault)
        } else if self.metablocks.has_proof_bytes(b.proof.spec_id()) {
            Some(NodeError::DuplicateProof)
        } else if !(forall|j: int|
            0 <= j < self.heads@.len() ==> (#[trigger] self.heads@[j]).block_height < u64::MAX) {
            Some(NodeError::ConsistencyViolation)
        } else if b.proof.timeslot != 0 && !self.metablocks.has_content(b.content.parent_id) {
            Some(NodeError::UnknownParent)
        } else if b.proof.timeslot != 0 && (self.metablocks.content_index(b.content.parent_id) matches Some(
            p,
        ) && self.metablocks.blocks@[p].height == u64::MAX) {
            Some(NodeError::ConsistencyViolation)
        } else {
            None
        }
    }

    /// Everything but the fork state (metablocks and heads) is the same.
    pub open spec fn same_but_forks(&self, o: &Ledger) -> bool {
        &&& self.balances == o.balances
        &&& self.txs == o.txs
        &&& self.tx_mempool == o.tx_mempool
        &&& self.blocks_on_longest_chain == o.blocks_on_longest_chain
        &&& self.epoch_tracker == o.epoch_tracker
        &&& self.recent_proof_ids == o.recent_proof_ids
        &&& self.proof_ids_by_timeslot == o.proof_ids_by_timeslot
        &&& self.cached_blocks_by_parent_content_id == o.cached_blocks_by_parent_content_id
        &&& self.early_blocks_by_timeslot == o.early_blocks_by_timeslot
        &&& self.secret_key == o.secret_key
        &&& self.public_key == o.public_key
        &&& self.sloth == o.sloth
        &&& self.genesis_piece_hash == o.genesis_piece_hash
        &&& self.current_timeslot == o.current_timeslot
        &&& self.genesis_timestamp == o.genesis_timestamp
        &&& self.timer_is_running == o.timer_is_running
    }

    /// Credits `amount` to `to`, creating the account if needed.
    fn credit_account(&mut self, to: AccountAddress, amount: u64)
        requires
            old(self).balances.wf(),
        ensures
            final(self).balances.wf(),
            final(self).balances@ == credit(old(self).balances@, to, amount),
            final(self).tx_mempool == old(self).tx_mempool,
            final(self).same_but_accounts(old(self)),
    {
        let next = match self.balances.get(&to) {
            Some(a) => AccountState { balance: a.balance.saturating_add(amount), nonce: a.nonce },
            None => AccountState { balance: amount, nonce: 0 },
        };
        self.balances.insert(to, next);
    }

    /// Applies one known transaction of a confirmed block to balances and pool.
    fn apply_transaction(&mut self, tx_id: &TxId)
        requires
            old(self).balances.wf(),
            old(self).tx_mempool.wf(),
            old(self).txs.wf(),
            old(self).txs@.contains_key(*tx_id),
        ensures
            final(self).balances.wf(),
            final(self).tx_mempool.wf(),
            (final(self).balances@, final(self).tx_mempool@) == apply_tx(
                old(self).balances@,
                old(self).tx_mempool@,
                *tx_id,
                old(self).txs@[*tx_id],
            ),
            final(self).same_but_accounts(old(self)),
    {
        let (is_coinbase, to, amount, from, nonce) = match self.txs.get(tx_id) {
            Some(Transaction::Coinbase(c)) => (true, c.to_address, BLOCK_REWARD, c.to_address, 0u64),
            Some(Transaction::Credit(c)) => (false, c.to_address, c.amount, c.from_address, c.nonce),
            None => {
                return ;
            },
        };
        if is_coinbase {
            self.credit_account(to, amount);
            return ;
        }
        if !self.tx_mempool.contains(tx_id) {
            return ;
        }
        self.tx_mempool.remove(tx_id);
        let sender = match self.balances.get(&from) {
            Some(a) => *a,
            None => {
                return ;
            },
        };
        if sender.balance < amount || sender.nonce >= nonce {
            return ;
        }
        self.balances.insert(from, AccountState { balance: sender.balance - amount, nonce: sender.nonce });
        self.credit_account(to, amount);
    }

    /// Whether every id of the list is a known transaction.
    pub fn all_txs_known(&self, ids: &Vec<TxId>) -> (r: bool)
        requires
            self.txs.wf(),
        ensures
            r == forall|i: int| 0 <= i < ids@.len() ==> self.txs@.contains_key(#[trigger] ids@[i]),
    {
        let mut k: usize = 0;
        while k < ids.len()
            invariant
                self.txs.wf(),
                k <= ids@.len(),
                forall|j: int| 0 <= j < k ==> self.txs@.contains_key(#[trigger] ids@[j]),
            decreases ids@.len() - k,
        {
            if !self.txs.contains_key(&ids[k]) {
                assert(!self.txs@.contains_key(ids@[k as int]));
                return false;
            }
            k += 1;
        }
        true
    }

    /// Removes the listed blocks and all their descendants from the registry,
    /// and the head that ends each removed branch. An id that is no longer
    /// staged is skipped, and the head of the longest chain is never removed.
    pub fn prune_children(&mut self, proof_ids: Vec<ProofId>) -> (r: Result<(), NodeError>)
        requires
            old(self).wf(),
        ensures
            final(self).wf(),
            final(self).same_but_forks(old(self)),
            old(self).heads@.len() > 0 ==> final(self).heads@.len() > 0 && final(self).heads@[0]
                == old(self).heads@[0],
            forall|p: ProofId|
                !old(self).metablocks.has_proof(p) ==> !final(self).metablocks.has_proof(p),
            final(self).metablocks.blocks@.len() <= old(self).metablocks.blocks@.len(),
            r is Ok,
            forall|i: int|
                0 <= i < proof_ids@.len() ==> !final(self).metablocks.has_proof(
                    #[trigger] proof_ids@[i],
                ),
            entries_of(final(self).metablocks.blocks@, old(self).metablocks.blocks@),
            gone_with_children(old(self).metablocks.blocks@, &final(self).metablocks),
            forall|x: ProofId, n: nat|
                #[trigger] below(old(self).metablocks.blocks@, proof_ids@, x, n) ==> !final(self).metablocks.has_proof(x),
            forall|j: int|
                0 <= j < old(self).metablocks.blocks@.len() && !final(self).metablocks.has_proof(
                    #[trigger] old(self).metablocks.blocks@[j].proof_id,
                ) ==> exists|n: nat| below(old(self).metablocks.blocks@, proof_ids@, old(self).metablocks.blocks@[j].proof_id, n),
            forall|h: Head| old(self).heads@.contains(h) && head_not_pruned(old(self).metablocks.blocks@, &final(self).metablocks, h)
                ==> #[trigger] final(self).heads@.contains(h),
        decreases old(self).metablocks.blocks@.len(),
    {
        let mut i: usize = 0;
        while i < proof_ids.len()
            invariant
                self.wf(),
                self.same_but_forks(old(self)),
                old(self).heads@.len() > 0 ==> self.heads@.len() > 0 && self.heads@[0] == old(
                    self).heads@[0],
                forall|p: ProofId|
                    !old(self).metablocks.has_proof(p) ==> !self.metablocks.has_proof(p),
                self.metablocks.blocks@.len() <= old(self).metablocks.blocks@.len(),
                i <= proof_ids@.len(),
                forall|j: int|
                    0 <= j < i ==> !self.metablocks.has_proof(#[trigger] proof_ids@[j]),
                old(self).wf(),
                entries_of(self.metablocks.blocks@, old(self).metablocks.blocks@),
                gone_with_children(old(self).metablocks.blocks@, &self.metablocks),
                forall|j: int|
                    0 <= j < old(self).metablocks.blocks@.len() && !self.metablocks.has_proof(
                        #[trigger] old(self).metablocks.blocks@[j].proof_id,
                    ) ==> exists|n: nat| below(old(self).metablocks.blocks@, proof_ids@, old(self).metablocks.blocks@[j].proof_id, n),
                forall|h: Head| old(self).heads@.contains(h) && (forall|j: int| 0 <= j < old(self).metablocks.blocks@.len()
                    && old(self).metablocks.blocks@[j].content_id == h.content_id && !self.metablocks.has_proof(old(self).metablocks.blocks@[j].proof_id)
                    ==> false) ==> #[trigger] self.heads@.contains(h),
            decreases proof_ids@.len() - i,
        {
            let child = proof_ids[i];
            let ghost c0 = self.metablocks;
            match self.metablocks.remove(&child) {
                Some(metablock) => {
                    let ghost c1 = self.metablocks;
                    proof {
                        let a = old(self).metablocks.blocks@;
                        let idx = choose|q: int| 0 <= q < c0.blocks@.len() && c0.blocks@[q] == metablock && c1.blocks@ == c0.blocks@.remove(q);
                        assert(entry_of(a, c0.blocks@[idx]));
                        assert forall|k: int| 0 <= k < c1.blocks@.len() implies entry_of(a, #[trigger] c1.blocks@[k]) by {
                            let k0 = if k < idx { k } else { k + 1 };
                            assert(c1.blocks@[k] == c0.blocks@[k0]);
                            assert(entry_of(a, c0.blocks@[k0]));
                        }
                    }
                    if metablock.children.len() == 0 {
                        let _ = self.prune_branch(metablock.content_id);
                        proof {
                            assert(self.metablocks == c1);
                        }
                    } else {
                        let ghost kids = metablock.children@;
                        let _ = self.prune_children(metablock.children);
                        proof {
                            assert forall|c: ProofId| kids.contains(c) implies !self.metablocks.has_proof(c) by {
                                let q = choose|q: int| 0 <= q < kids.len() && kids[q] == c;
                            }
                        }
                    }
                    proof {
                        let a = old(self).metablocks.blocks@;
                        let f = self.metablocks.blocks@;
                        let j0 = choose|j: int| 0 <= j < a.len() && a[j] == metablock;
                        assert forall|k: int| 0 <= k < f.len() implies entry_of(a, #[trigger] f[k]) by {
                            let w = choose|q: int| 0 <= q < c1.blocks@.len() && c1.blocks@[q] == f[k];
                            assert(entry_of(a, c1.blocks@[w]));
                        }
                        assert forall|j: int, c: ProofId|
                            0 <= j < a.len() && !self.metablocks.has_proof(a[j].proof_id) && #[trigger] a[j].children@.contains(c)
                            implies !self.metablocks.has_proof(c) by {
                            if a[j].proof_id == metablock.proof_id {
                                assert(a[j0].proof_id == metablock.proof_id);
                                assert(j == j0);
                                assert(a[j] == a[j0]);
                                assert(metablock.children@.contains(c));
                            } else if !c0.has_proof(a[j].proof_id) {
                                assert(!c0.has_proof(c));
                            } else {
                                let w = choose|q: int| 0 <= q < c0.blocks@.len() && c0.blocks@[q].proof_id == a[j].proof_id;
                                let j2 = choose|q: int| 0 <= q < a.len() && a[q] == c0.blocks@[w];
                                assert(a[j2].proof_id == a[j].proof_id);
                                assert(j2 == j);
                                let idx = choose|q: int| 0 <= q < c0.blocks@.len() && c0.blocks@[q] == metablock && c1.blocks@ == c0.blocks@.remove(q);
                                assert(w != idx);
                                let w1 = if w < idx { w } else { w - 1 };
                                assert(c1.blocks@[w1] == c0.blocks@[w]);
                                assert(c1.has_proof(a[j].proof_id));
                                let a1 = c1.blocks@;
                            }
                        }
                        assert forall|j: int|
                            0 <= j < a.len() && !self.metablocks.has_proof(#[trigger] a[j].proof_id)
                            implies exists|n: nat| below(a, proof_ids@, a[j].proof_id, n) by {
                            if !c0.has_proof(a[j].proof_id) {
                            } else if a[j].proof_id == child {
                                assert(proof_ids@[i as int] == child);
                                assert(below(a, proof_ids@, a[j].proof_id, 0));
                            } else {
                                let w = choose|q: int| 0 <= q < c0.blocks@.len() && c0.blocks@[q].proof_id == a[j].proof_id;
                                let idx = choose|q: int| 0 <= q < c0.blocks@.len() && c0.blocks@[q] == metablock && c1.blocks@ == c0.blocks@.remove(q);
                                assert(w != idx);
                                let w1 = if w < idx { w } else { w - 1 };
                                assert(c1.blocks@[w1] == c0.blocks@[w]);
                                assert(metablock.children@.len() > 0);
                                let n = choose|n: nat| below(c1.blocks@, metablock.children@, c1.blocks@[w1].proof_id, n);
                                lemma_below_sub_registry(c1.blocks@, a, metablock.children@, a[j].proof_id, n);
                                assert(proof_ids@[i as int] == child);
                                assert(a[j0].proof_id == child);
                                lemma_below_children(a, proof_ids@, j0, a[j].proof_id, n);
                            }
                        }
                    }
                },
                None => {},
            }
            proof {
                assert forall|j: int| 0 <= j <= i implies !self.metablocks.has_proof(
                    #[trigger] proof_ids@[j],
                ) by {}
            }
            i += 1;
        }
        proof {
            assert forall|r: ProofId| proof_ids@.contains(r) implies !self.metablocks.has_proof(r) by {
                let q = choose|q: int| 0 <= q < proof_ids@.len() && proof_ids@[q] == r;
                assert(!self.metablocks.has_proof(proof_ids@[q]));
            }
            assert forall|x: ProofId, n: nat|
                #[trigger] below(old(self).metablocks.blocks@, proof_ids@, x, n) implies !self.metablocks.has_proof(x) by {
                lemma_below_gone(old(self).metablocks.blocks@, proof_ids@, &self.metablocks, x, n);
            }
        }
        Ok(())
    }

    #[verifier::spinoff_prover]
    /// Confirms a staged block: records it on the longest chain, applies its
    /// transactions in order, and prunes its siblings with their descendants.
    /// It fails, changing nothing, exactly when it lists an unknown transaction.
    pub fn confirm_block(&mut self, metablock: &MetaBlock) -> (r: Result<(), NodeError>)
        requires
            old(self).wf(),
        ensures
            metablock.height == 0 || old(self).metablocks.content_index(metablock.block.content.parent_id) is None
                ==> final(self).metablocks == old(self).metablocks && final(self).heads == old(self).heads,
            r is Ok && metablock.height > 0 && old(self).metablocks.content_index(metablock.block.content.parent_id) is Some ==> ({
                let pi = old(self).metablocks.content_index(metablock.block.content.parent_id)->Some_0;
                let sib = others(old(self).metablocks.blocks@[pi].children@, metablock.proof_id);
                forall|j: int|
                    0 <= j < old(self).metablocks.blocks@.len() && !final(self).metablocks.has_proof(
                        #[trigger] old(self).metablocks.blocks@[j].proof_id,
                    ) ==> exists|n: nat| below(old(self).metablocks.blocks@, sib, old(self).metablocks.blocks@[j].proof_id, n)
            }),
            forall|h: Head| old(self).heads@.contains(h) && head_not_pruned(old(self).metablocks.blocks@, &final(self).metablocks, h)
                ==> #[trigger] final(self).heads@.contains(h),
            r is Ok && metablock.height > 0 && old(self).metablocks.content_index(metablock.block.content.parent_id) is Some ==> ({
                let pid = old(self).metablocks.blocks@[old(self).metablocks.content_index(metablock.block.content.parent_id)->Some_0].proof_id;
                forall|k: int, y: ProofId|
                    0 <= k < final(self).metablocks.blocks@.len() && final(self).metablocks.blocks@[k].proof_id == pid
                        && #[trigger] final(self).metablocks.blocks@[k].children@.contains(y) ==> y == metablock.proof_id
            }),
            r is Ok ==> siblings_pruned(*old(self), *final(self), *metablock),
            r is Ok <==> (forall|i: int|
                0 <= i < metablock.block.content.tx_ids@.len() ==> old(self).txs@.contains_key(
                    #[trigger] metablock.block.content.tx_ids@[i],
                )),
            final(self).wf(),
            !(forall|i: int|
                0 <= i < metablock.block.content.tx_ids@.len() ==> old(self).txs@.contains_key(
                    #[trigger] metablock.block.content.tx_ids@[i],
                )) ==> r == Err::<(), NodeError>(NodeError::ConsistencyViolation) && *final(self)
                == *old(self),
            (forall|i: int|
                0 <= i < metablock.block.content.tx_ids@.len() ==> old(self).txs@.contains_key(
                    #[trigger] metablock.block.content.tx_ids@[i],
                )) ==> {
                &&& (final(self).balances@, final(self).tx_mempool@) == apply_txs(
                    old(self).balances@,
                    old(self).tx_mempool@,
                    metablock.block.content.tx_ids@,
                    old(self).txs@,
                )
                &&& final(self).blocks_on_longest_chain@ == old(
                    self).blocks_on_longest_chain@.insert(metablock.proof_id)
            },
            (r is Ok && metablock.height > 0 && old(self).metablocks.content_index(
                metablock.block.content.parent_id,
            ) is Some) ==> (old(self).metablocks.content_index(
                metablock.block.content.parent_id,
            ) matches Some(pi) && forall|x: ProofId|
                #![trigger old(self).metablocks.blocks@[pi].children@.contains(x)]
                old(self).metablocks.blocks@[pi].children@.contains(x) && x != metablock.proof_id
                    ==> !final(self).metablocks.has_proof(x)),
            final(self).txs == old(self).txs,
            final(self).epoch_tracker == old(self).epoch_tracker,
            final(self).current_timeslot == old(self).current_timeslot,
            final(self).genesis_timestamp == old(self).genesis_timestamp,
            final(self).timer_is_running == old(self).timer_is_running,
            final(self).early_blocks_by_timeslot == old(self).early_blocks_by_timeslot,
            final(self).cached_blocks_by_parent_content_id == old(self).cached_blocks_by_parent_content_id,
            final(self).recent_proof_ids == old(self).recent_proof_ids,
            final(self).proof_ids_by_timeslot == old(self).proof_ids_by_timeslot,
            final(self).secret_key == old(self).secret_key,
            final(self).sloth == old(self).sloth,
            final(self).genesis_piece_hash == old(self).genesis_piece_hash,
            old(self).heads@.len() > 0 ==> final(self).heads@.len() > 0 && final(self).heads@[0]
                == old(self).heads@[0],
    {
        if !self.all_txs_known(&metablock.block.content.tx_ids) {
            return Err(NodeError::ConsistencyViolation);
        }
        let tx_ids = &metablock.block.content.tx_ids;
        self.blocks_on_longest_chain.insert(metablock.proof_id);
        let ghost bal0 = self.balances@;
        let ghost pool0 = self.tx_mempool@;
        let mut k: usize = 0;
        while k < tx_ids.len()
            invariant
                self.wf(),
                k <= tx_ids@.len(),
                forall|j: int| 0 <= j < tx_ids@.len() ==> self.txs@.contains_key(#[trigger] tx_ids@[j]),
                (self.balances@, self.tx_mempool@) == apply_txs(
                    bal0,
                    pool0,
                    tx_ids@.subrange(0, k as int),
                    self.txs@,
                ),
                self.txs == old(self).txs,
                self.epoch_tracker == old(self).epoch_tracker,
                self.heads == old(self).heads,
                self.metablocks == old(self).metablocks,
                old(self).wf(),
                self.current_timeslot == old(self).current_timeslot,
                self.genesis_timestamp == old(self).genesis_timestamp,
                self.timer_is_running == old(self).timer_is_running,
                self.early_blocks_by_timeslot == old(self).early_blocks_by_timeslot,
                self.cached_blocks_by_parent_content_id == old(self).cached_blocks_by_parent_content_id,
                self.recent_proof_ids == old(self).recent_proof_ids,
                self.proof_ids_by_timeslot == old(self).proof_ids_by_timeslot,
                self.secret_key == old(self).secret_key,
                self.sloth == old(self).sloth,
                self.genesis_piece_hash == old(self).genesis_piece_hash,
                self.blocks_on_longest_chain@ == old(self).blocks_on_longest_chain@.insert(
                    metablock.proof_id,
                ),
                bal0 == old(self).balances@,
                pool0 == old(self).tx_mempool@,
            decreases tx_ids@.len() - k,
        {
            self.apply_transaction(&tx_ids[k]);
            proof {
                let pre = tx_ids@.subrange(0, k as int + 1);
                assert(pre.drop_last() =~= tx_ids@.subrange(0, k as int));
                assert(pre.last() == tx_ids@[k as int]);
            }
            k += 1;
        }
        assert(tx_ids@.subrange(0, k as int) =~= tx_ids@);
        if metablock.height > 0 {
            let parent_index = match self.metablocks.index_of_content(
                &metablock.block.content.parent_id,
            ) {
                Some(p) => p,
                None => {
                    return Ok(());
                },
            };
            let mut parent = self.metablocks.blocks.remove(parent_index);
            let ghost kids = parent.children@;
            let mut kept: Vec<ProofId> = Vec::new();
            let mut siblings: Vec<ProofId> = Vec::new();
            let mut c: usize = 0;
            while c < parent.children.len()
                invariant
                    c <= parent.children@.len(),
                    kids == parent.children@,
                    forall|m: int| 0 <= m < kept@.len() ==> #[trigger] kept@[m] == metablock.proof_id,
                    metablock.proof_id == metablock.proof_id && (kept@.len() > 0 ==> kids.contains(metablock.proof_id)),
                    forall|j: int|
                        0 <= j < c && kids[j] != metablock.proof_id ==> siblings@.contains(
                            #[trigger] kids[j],
                        ),
                    forall|y: ProofId| siblings@.contains(y) ==> kids.contains(y) && y != metablock.proof_id,
                decreases parent.children@.len() - c,
            {
                let child = parent.children[c];
                if ids_equal(&child, &metablock.proof_id) {
                    let ghost prev_kept = kept@;
                    kept.push(child);
                    proof {
                        assert(kids[c as int] == child);
                        assert(kids.contains(child));
                        assert(child == metablock.proof_id);
                        assert forall|m: int| 0 <= m < kept@.len() implies #[trigger] kept@[m] == metablock.proof_id by {
                            if m < prev_kept.len() {
                                assert(kept@[m] == prev_kept[m]);
                            }
                        }
                    }
                } else {
                    let ghost prev = siblings@;
                    siblings.push(child);
                    proof {
                        assert(kids[c as int] == child);
                        assert(child != metablock.proof_id);
                        assert(kids.contains(child));
                        assert forall|y: ProofId| siblings@.contains(y) implies kids.contains(y) && y != metablock.proof_id by {
                            let m = choose|m: int| 0 <= m < siblings@.len() && siblings@[m] == y;
                            if m < prev.len() {
                                assert(prev[m] == y);
                                assert(prev.contains(y));
                            } else {
                                assert(y == child);
                            }
                        }
                        assert(siblings@[prev.len() as int] == child);
                        assert forall|j: int|
                            0 <= j < c && kids[j] != metablock.proof_id implies siblings@.contains(
                            kids[j],
                        ) by {
                            let m = choose|m: int| 0 <= m < prev.len() && prev[m] == kids[j];
                            assert(siblings@[m] == kids[j]);
                        }
                    }
                }
                c += 1;
            }
            parent.children = kept;
            let ghost before = self.metablocks.blocks@;
            self.metablocks.blocks.insert(parent_index, parent);
            proof {
                let s = old(self).metablocks.blocks@;
                assert(before =~= s.remove(parent_index as int));
                assert(self.metablocks.blocks@ =~= s.update(parent_index as int, parent));
                let t = self.metablocks.blocks@;
                assert forall|a: int| 0 <= a < t.len() implies (#[trigger] t[a]).ids_match() by {
                    if a != parent_index {
                        assert(t[a] == s[a]);
                    } else {
                        assert(s[a].ids_match());
                    }
                }
                assert forall|a: int, b: int| 0 <= a < b < t.len() implies t[a].proof_id
                    != t[b].proof_id by {
                    assert(t[a].proof_id == s[a].proof_id && t[b].proof_id == s[b].proof_id);
                }
            }
            let ghost sibs = siblings@;
            let ghost at_prune = self.metablocks.blocks@;
            let res = self.prune_children(siblings);
            proof {
                {
                    let s0 = old(self).metablocks.blocks@;
                    let sib = others(kids, metablock.proof_id);
                    assert forall|c: ProofId| sibs.contains(c) implies sib.contains(c) by {
                        lemma_others(kids, metablock.proof_id, c);
                        assert(kids.contains(c) && c != metablock.proof_id);
                    }
                    assert forall|i: int, c: ProofId| 0 <= i < at_prune.len() && #[trigger] at_prune[i].children@.contains(c)
                        implies s0[i].children@.contains(c) by {
                        if i == parent_index {
                            assert(at_prune[i].children@ == kept@);
                            let m = choose|m: int| 0 <= m < kept@.len() && kept@[m] == c;
                            assert(c == metablock.proof_id);
                            let m = choose|m: int| 0 <= m < at_prune[i].children@.len() && at_prune[i].children@[m] == c;
                            assert(at_prune[i].children@ == kept@);
                            assert(kids.contains(c));
                        } else {
                            assert(at_prune[i] == s0[i]);
                        }
                    }
                    assert forall|i: int| 0 <= i < at_prune.len() implies (#[trigger] at_prune[i]).proof_id == s0[i].proof_id by {}
                    assert forall|j: int|
                        0 <= j < s0.len() && !self.metablocks.has_proof(#[trigger] s0[j].proof_id)
                        implies exists|n: nat| below(s0, sib, s0[j].proof_id, n) by {
                        assert(at_prune[j].proof_id == s0[j].proof_id);
                        let n = choose|n: nat| below(at_prune, sibs, at_prune[j].proof_id, n);
                        lemma_below_fewer_children(at_prune, s0, sibs, s0[j].proof_id, n);
                        lemma_below_roots(s0, sibs, sib, s0[j].proof_id, n);
                    }
                }
                assert forall|h: Head| old(self).heads@.contains(h) && head_not_pruned(old(self).metablocks.blocks@, &self.metablocks, h)
                    implies #[trigger] self.heads@.contains(h) by {
                    assert forall|j: int| 0 <= j < at_prune.len() && at_prune[j].content_id == h.content_id
                        implies #[trigger] self.metablocks.has_proof(at_prune[j].proof_id) by {
                        assert(at_prune[j].content_id == old(self).metablocks.blocks@[j].content_id);
                        assert(at_prune[j].proof_id == old(self).metablocks.blocks@[j].proof_id);
                    }
                }
                let pidv = at_prune[parent_index as int].proof_id;
                assert forall|k: int, y: ProofId|
                    0 <= k < self.metablocks.blocks@.len() && self.metablocks.blocks@[k].proof_id == pidv
                        && #[trigger] self.metablocks.blocks@[k].children@.contains(y) implies y == metablock.proof_id by {
                    assert(entry_of(at_prune, self.metablocks.blocks@[k]));
                    let w = choose|w: int| 0 <= w < at_prune.len() && #[trigger] at_prune[w] == self.metablocks.blocks@[k];
                    assert(at_prune[w].proof_id == at_prune[parent_index as int].proof_id);
                    assert(w == parent_index);
                    assert(at_prune[w].children@ == kept@);
                }
                let s0 = old(self).metablocks.blocks@;
                let sib = others(kids, metablock.proof_id);
                let ppid = s0[parent_index as int].proof_id;
                assert forall|c: ProofId| sib.contains(c) implies sibs.contains(c) by {
                    lemma_others(kids, metablock.proof_id, c);
                    let j = choose|j: int| 0 <= j < kids.len() && kids[j] == c;
                }
                assert forall|c: ProofId| sibs.contains(c) implies sib.contains(c) by {
                    lemma_others(kids, metablock.proof_id, c);
                    assert(kids.contains(c) && c != metablock.proof_id);
                }
                if forall|m: nat| !#[trigger] below(s0, sib, ppid, m) {
                    assert forall|m: nat| !#[trigger] below(s0, sibs, ppid, m) by {
                        if below(s0, sibs, ppid, m) {
                            lemma_below_roots(s0, sibs, sib, ppid, m);
                        }
                    }
                    assert forall|i: int| 0 <= i < s0.len() && s0[i].proof_id != ppid implies #[trigger] at_prune[i] == s0[i] by {
                        assert(i != parent_index);
                    }
                    assert forall|x: ProofId, n: nat| #[trigger] below(s0, sib, x, n) implies !self.metablocks.has_proof(x) by {
                        lemma_below_roots(s0, sib, sibs, x, n);
                        lemma_below_update(s0, at_prune, sibs, ppid, x, n);
                        assert(below(at_prune, sibs, x, n));
                    }
                }
                if res is Ok {
                    assert forall|x: ProofId|
                        kids.contains(x) && x != metablock.proof_id implies !self.metablocks.has_proof(x) by {
                        let j = choose|j: int| 0 <= j < kids.len() && kids[j] == x;
                        let m = choose|m: int| 0 <= m < sibs.len() && sibs[m] == kids[j];
                        assert(!self.metablocks.has_proof(sibs[m]));
                    }
                }
            }
            return res;
        }
        Ok(())
    }

    /// Whether every head is below `u64::MAX`, so that a branch can advance.
    pub fn heads_below_max(&self) -> (r: bool)
        ensures
            r == forall|j: int|
                0 <= j < self.heads@.len() ==> (#[trigger] self.heads@[j]).block_height < u64::MAX,
    {
        let mut j: usize = 0;
        while j < self.heads.len()
            invariant
                j <= self.heads@.len(),
                forall|i: int| 0 <= i < j ==> (#[trigger] self.heads@[i]).block_height < u64::MAX,
            decreases self.heads@.len() - j,
        {
            if self.heads[j].block_height == u64::MAX {
                return false;
            }
            j += 1;
        }
        true
    }

    /// Saves the block without its data into the registry, records its
    /// coinbase transaction and its proof id under its timeslot, and advances
    /// the fork heads.
    pub fn link_block(&mut self, block: &Block) -> (r: Result<MetaBlock, NodeError>)
        requires
            old(self).wf(),
        ensures
            final(self).wf(),
            old(self).metablocks.parents_present() ==> final(self).metablocks.parents_present(),
            r == Err::<MetaBlock, NodeError>(old(self).staging_error(block)->Some_0) <==> old(self).staging_error(block) is Some,
            r is Ok <==> old(self).staging_error(block) is None,
            r is Err ==> *final(self) == *old(self),
            old(self).metablocks.conflicts(block.proof.spec_id(), block.spec_id()) ==> r
                == Err::<MetaBlock, NodeError>(NodeError::ProofFault),
            old(self).metablocks.has_proof_bytes(block.proof.spec_id()) && !old(
                self).metablocks.conflicts(block.proof.spec_id(), block.spec_id()) ==> r
                == Err::<MetaBlock, NodeError>(NodeError::DuplicateProof),
            !old(self).metablocks.has_proof_bytes(block.proof.spec_id()) && !(forall|j: int|
                0 <= j < old(self).heads@.len() ==> (#[trigger] old(self).heads@[j]).block_height
                    < u64::MAX) ==> r == Err::<MetaBlock, NodeError>(NodeError::ConsistencyViolation),
            !old(self).metablocks.has_proof_bytes(block.proof.spec_id()) && (forall|j: int|
                0 <= j < old(self).heads@.len() ==> (#[trigger] old(self).heads@[j]).block_height
                    < u64::MAX) ==> {
                &&& r == Err::<MetaBlock, NodeError>(NodeError::UnknownParent) <==> (
                block.proof.timeslot != 0 && !old(self).metablocks.has_content(
                    block.content.parent_id,
                ))
                &&& r == Err::<MetaBlock, NodeError>(NodeError::ConsistencyViolation) <==> (
                block.proof.timeslot != 0 && (old(self).metablocks.content_index(
                    block.content.parent_id,
                ) matches Some(p) && old(self).metablocks.blocks@[p].height == u64::MAX))
                &&& r is Err ==> r == Err::<MetaBlock, NodeError>(NodeError::UnknownParent) || r
                    == Err::<MetaBlock, NodeError>(NodeError::ConsistencyViolation)
            },
            r matches Ok(mb) ==> {
                &&& mb.block.equiv(&block.spec_pruned())
                &&& mb.ids_match()
                &&& mb.children@.len() == 0
                &&& block.proof.timeslot == 0 ==> mb.height == 0 && forall|j: int|
                    0 <= j < old(self).metablocks.blocks@.len() ==> final(self).metablocks.blocks@[j] == old(self).metablocks.blocks@[j]
                &&& block.proof.timeslot != 0 ==> (old(self).metablocks.content_index(block.content.parent_id) matches Some(p) && {
                    &&& mb.height == old(self).metablocks.blocks@[p].height + 1
                    &&& final(self).metablocks.blocks@[p].children@ == old(self).metablocks.blocks@[p].children@.push(mb.proof_id)
                    &&& final(self).metablocks.blocks@[p].height == old(self).metablocks.blocks@[p].height
                    &&& forall|j: int| 0 <= j < old(self).metablocks.blocks@.len() && j != p ==> final(self).metablocks.blocks@[j] == old(self).metablocks.blocks@[j]
                })
                &&& final(self).metablocks.blocks@.len() == old(self).metablocks.blocks@.len() + 1
                &&& final(self).metablocks.blocks@.last().equiv(&mb)
                &&& final(self).heads@ == heads_after(
                    old(self).heads@,
                    block.content.parent_id,
                    mb.content_id,
                    mb.height,
                )
                &&& forall|k: TxId|
                    k@ == block.coinbase_tx.spec_id() ==> #[trigger] final(self).txs@.get(k) == Some(
                        Transaction::Coinbase(block.coinbase_tx),
                    )
                &&& forall|k: TxId|
                    k@ != block.coinbase_tx.spec_id() ==> #[trigger] final(self).txs@.get(k) == old(
                        self).txs@.get(k)
                &&& final(self).balances == old(self).balances
                &&& final(self).tx_mempool == old(self).tx_mempool
                &&& final(self).blocks_on_longest_chain == old(self).blocks_on_longest_chain
                &&& final(self).epoch_tracker == old(self).epoch_tracker
                &&& final(self).current_timeslot == old(self).current_timeslot
                &&& final(self).genesis_timestamp == old(self).genesis_timestamp
                &&& final(self).timer_is_running == old(self).timer_is_running
                &&& final(self).early_blocks_by_timeslot == old(self).early_blocks_by_timeslot
                &&& final(self).cached_blocks_by_parent_content_id == old(
                    self).cached_blocks_by_parent_content_id
                &&& final(self).recent_proof_ids == old(self).recent_proof_ids
                &&& id_appended(old(self).proof_ids_by_timeslot@, final(self).proof_ids_by_timeslot@, block.proof.timeslot, mb.proof_id)
                &&& mb.proof_id@ == block.proof.spec_id()
                &&& forall|j: int| 0 <= j < old(self).metablocks.blocks@.len() ==> (#[trigger] final(self).metablocks.blocks@[j]).block == old(self).metablocks.blocks@[j].block
                    && final(self).metablocks.blocks@[j].content_id == old(self).metablocks.blocks@[j].content_id
                    && final(self).metablocks.blocks@[j].proof_id == old(self).metablocks.blocks@[j].proof_id
                &&& final(self).secret_key == old(self).secret_key
                &&& final(self).sloth == old(self).sloth
                &&& final(self).genesis_piece_hash == old(self).genesis_piece_hash
            },
    {
        let proof_id = block.proof.get_id();
        let mut pruned = block.duplicate();
        pruned.prune();
        if !self.metablocks.contains_key(&proof_id) && !self.heads_below_max() {
            proof {
                assert forall|k: int|
                    0 <= k < self.metablocks.blocks@.len() implies self.metablocks.blocks@[k].proof_id@
                    != block.proof.spec_id() by {
                    if self.metablocks.blocks@[k].proof_id@ == block.proof.spec_id() {
                        vstd::array::axiom_array_ext_equal(self.metablocks.blocks@[k].proof_id, proof_id);
                    }
                }
            }
            return Err(NodeError::ConsistencyViolation);
        }
        proof {
            if self.metablocks.has_proof_bytes(block.proof.spec_id()) {
                let k = choose|k: int|
                    0 <= k < self.metablocks.blocks@.len() && self.metablocks.blocks@[k].proof_id@
                        == block.proof.spec_id();
                vstd::array::axiom_array_ext_equal(self.metablocks.blocks@[k].proof_id, proof_id);
            }
        }
        let ghost pruned_copy = pruned;
        let metablock = match self.metablocks.save(pruned) {
            Ok(mb) => mb,
            Err(e) => {
                proof {
                    assert(pruned_copy.proof == block.proof);
                    assert(pruned_copy.content.spec_id() == block.content.spec_id());
                    if old(self).metablocks.conflicts(block.proof.spec_id(), block.spec_id()) {
                        let k = choose|k: int|
                            0 <= k < old(self).metablocks.blocks@.len() && old(
                                self).metablocks.blocks@[k].proof_id@ == block.proof.spec_id()
                                && old(self).metablocks.blocks@[k].block_id@ != block.spec_id();
                        assert(old(self).metablocks.has_proof_bytes(block.proof.spec_id()));
                    }
                }
                return Err(e);
            },
        };
        let coinbase_id = block.coinbase_tx.get_id();
        self.txs.insert(coinbase_id, Transaction::Coinbase(block.coinbase_tx));
        proof {
            assert forall|k: TxId| k@ == block.coinbase_tx.spec_id() implies k == coinbase_id by {
                vstd::array::axiom_array_ext_equal(k, coinbase_id);
            }
        }
        let list = match self.proof_ids_by_timeslot.remove(&block.proof.timeslot) {
            Some(l) => l,
            None => Vec::new(),
        };
        let mut list = list;
        list.push(metablock.proof_id);
        self.proof_ids_by_timeslot.insert(block.proof.timeslot, list);
        proof {
            assert(self.proof_ids_by_timeslot@.dom() =~= old(self).proof_ids_by_timeslot@.dom().insert(block.proof.timeslot));
        }
        self.update_heads(block.content.parent_id, metablock.content_id, metablock.height);
        Ok(metablock)
    }

    /// Confirms the entry `CONFIRMATION_DEPTH` parent links above entry `idx`,
    /// if the registry holds that many ancestors.
    pub fn confirm_ancestor(&mut self, idx: usize) -> (r: Result<(), NodeError>)
        requires
            old(self).wf(),
            idx < old(self).metablocks.blocks@.len(),
        ensures
            confirmed(*old(self), *final(self), idx as int),
            final(self).wf(),
            ancestor_index(old(self).metablocks.blocks@, idx as int, CONFIRMATION_DEPTH as nat) is None
                ==> r is Ok && *final(self) == *old(self),
            ancestor_index(old(self).metablocks.blocks@, idx as int, CONFIRMATION_DEPTH as nat) matches Some(a)
                ==> {
                let mb = old(self).metablocks.blocks@[a];
                &&& 0 <= a < old(self).metablocks.blocks@.len()
                &&& !(forall|i: int|
                    0 <= i < mb.block.content.tx_ids@.len() ==> old(self).txs@.contains_key(
                        #[trigger] mb.block.content.tx_ids@[i],
                    )) ==> r == Err::<(), NodeError>(NodeError::ConsistencyViolation) && *final(self)
                    == *old(self)
                &&& (forall|i: int|
                    0 <= i < mb.block.content.tx_ids@.len() ==> old(self).txs@.contains_key(
                        #[trigger] mb.block.content.tx_ids@[i],
                    )) ==> {
                    &&& (final(self).balances@, final(self).tx_mempool@) == apply_txs(
                        old(self).balances@,
                        old(self).tx_mempool@,
                        mb.block.content.tx_ids@,
                        old(self).txs@,
                    )
                    &&& final(self).blocks_on_longest_chain@ == old(
                        self).blocks_on_longest_chain@.insert(mb.proof_id)
                }
            },
            final(self).txs == old(self).txs,
            final(self).epoch_tracker == old(self).epoch_tracker,
            final(self).current_timeslot == old(self).current_timeslot,
            final(self).genesis_timestamp == old(self).genesis_timestamp,
            final(self).timer_is_running == old(self).timer_is_running,
            final(self).early_blocks_by_timeslot == old(self).early_blocks_by_timeslot,
            final(self).cached_blocks_by_parent_content_id == old(self).cached_blocks_by_parent_content_id,
            final(self).recent_proof_ids == old(self).recent_proof_ids,
            final(self).proof_ids_by_timeslot == old(self).proof_ids_by_timeslot,
            final(self).secret_key == old(self).secret_key,
            final(self).sloth == old(self).sloth,
            final(self).genesis_piece_hash == old(self).genesis_piece_hash,
            old(self).heads@.len() > 0 ==> final(self).heads@.len() > 0 && final(self).heads@[0]
                == old(self).heads@[0],
    {
        let mut cur: usize = idx;
        let mut d: u64 = 0;
        while d < CONFIRMATION_DEPTH
            invariant
                *self == *old(self),
                old(self).wf(),
                cur < self.metablocks.blocks@.len(),
                d <= CONFIRMATION_DEPTH,
                ancestor_index(self.metablocks.blocks@, idx as int, CONFIRMATION_DEPTH as nat)
                    == ancestor_index(
                    self.metablocks.blocks@,
                    cur as int,
                    (CONFIRMATION_DEPTH - d) as nat,
                ),
            decreases CONFIRMATION_DEPTH - d,
        {
            let parent_id = self.metablocks.blocks[cur].block.content.parent_id;
            match self.metablocks.index_of_content(&parent_id) {
                None => {
                    return Ok(());
                },
                Some(p) => {
                    cur = p;
                },
            }
            d += 1;
        }
        let ancestor = self.metablocks.blocks[cur].duplicate();
        self.confirm_block(&ancestor)
    }

    /// Stages a block: links it into the registry and the fork heads, confirms
    /// its `CONFIRMATION_DEPTH`-deep ancestor, and records it in its epoch. A
    /// block whose proof id is staged already leaves the ledger as it is. An
    /// ancestor that cannot be confirmed, for an unknown transaction, stays
    /// unconfirmed; the staging itself stands.
    pub fn stage_block(&mut self, block: &Block) -> (r: Result<(), NodeError>)
        requires
            old(self).wf(),
        ensures
            staged(*old(self), *final(self), *block),
            final(self).wf(),
            final(self).early_blocks_by_timeslot == old(self).early_blocks_by_timeslot,
            final(self).cached_blocks_by_parent_content_id == old(self).cached_blocks_by_parent_content_id,
            final(self).recent_proof_ids == old(self).recent_proof_ids,
            final(self).current_timeslot == old(self).current_timeslot,
            final(self).timer_is_running == old(self).timer_is_running,
            final(self).secret_key == old(self).secret_key,
            final(self).sloth == old(self).sloth,
            final(self).genesis_piece_hash == old(self).genesis_piece_hash,
            final(self).epoch_tracker.epochs@.len() == old(self).epoch_tracker.epochs@.len(),
            old(self).metablocks.has_proof_bytes(block.proof.spec_id()) ==> *final(self) == *old(
                self) && r is Err,
            r == Err::<(), NodeError>(old(self).staging_error(block)->Some_0) <==> old(self).staging_error(block) is Some,
            r is Ok <==> old(self).staging_error(block) is None,
            r is Err ==> *final(self) == *old(self),
            r is Ok ==> {
                &&& forall|k: TxId|
                    k@ == block.coinbase_tx.spec_id() ==> #[trigger] final(self).txs@.get(k) == Some(
                        Transaction::Coinbase(block.coinbase_tx),
                    )
                &&& forall|k: TxId|
                    k@ != block.coinbase_tx.spec_id() ==> #[trigger] final(self).txs@.get(k) == old(
                        self).txs@.get(k)
                &&& id_appended(old(self).proof_ids_by_timeslot@, final(self).proof_ids_by_timeslot@, block.proof.timeslot, proof_key(block))
                &&& (old(self).metablocks.content_index(block.content.parent_id) matches Some(p)
                    && ancestor_index(old(self).metablocks.blocks@, p, (CONFIRMATION_DEPTH - 1) as nat) matches Some(a)
                    && (forall|i: int| 0 <= i < old(self).metablocks.blocks@[a].block.content.tx_ids@.len()
                        ==> final(self).txs@.contains_key(#[trigger] old(self).metablocks.blocks@[a].block.content.tx_ids@[i])))
                    ==> ({
                        let anc = old(self).metablocks.content_index(block.content.parent_id)->Some_0;
                        let a = ancestor_index(old(self).metablocks.blocks@, anc, (CONFIRMATION_DEPTH - 1) as nat)->Some_0;
                        &&& final(self).blocks_on_longest_chain@ == old(self).blocks_on_longest_chain@.insert(old(self).metablocks.blocks@[a].proof_id)
                        &&& (final(self).balances@, final(self).tx_mempool@) == apply_txs(
                            old(self).balances@,
                            old(self).tx_mempool@,
                            old(self).metablocks.blocks@[a].block.content.tx_ids@,
                            final(self).txs@,
                        )
                    })
                &&& block.proof.epoch < old(self).epoch_tracker.epochs@.len() && !old(
                    self).epoch_tracker.epochs@[block.proof.epoch as int].is_closed ==> {
                    let slot = (block.proof.timeslot % TIMESLOTS_PER_EPOCH) as int;
                    let before = old(self).epoch_tracker.epochs@[block.proof.epoch as int].timeslots@[slot]@;
                    let after = final(self).epoch_tracker.epochs@[block.proof.epoch as int].timeslots@[slot]@;
                    &&& after.len() == before.len() + 1
                    &&& after.drop_last() == before
                    &&& after.last()@ == block.spec_id()
                }
                &&& old(self).genesis_timestamp == 0 ==> final(self).genesis_timestamp
                    == block.content.timestamp
                &&& old(self).genesis_timestamp != 0 ==> final(self).genesis_timestamp == old(
                    self).genesis_timestamp
            },
    {
        let metablock = match self.link_block(block) {
            Ok(mb) => mb,
            Err(e) => {
                return Err(e);
            },
        };
        if self.genesis_timestamp == 0 {
            self.genesis_timestamp = block.content.timestamp;
        }
        let idx = self.metablocks.blocks.len() - 1;
        proof {
            let s0 = old(self).metablocks.blocks@;
            let t0 = self.metablocks.blocks@;
            if old(self).metablocks.content_index(block.content.parent_id) is Some {
                let p = old(self).metablocks.content_index(block.content.parent_id)->Some_0;
                if ancestor_index(s0, p, (CONFIRMATION_DEPTH - 1) as nat) is Some {
                    crate::metablocks::lemma_first_with_content(s0, block.content.parent_id);
                    assert(extends_registry(s0, t0));
                    assert(t0[idx as int].block.content.parent_id == block.content.parent_id);
                    lemma_first_extends(s0, t0, block.content.parent_id);
                    lemma_ancestor_extends(s0, t0, p, (CONFIRMATION_DEPTH - 1) as nat);
                    assert(ancestor_index(t0, idx as int, CONFIRMATION_DEPTH as nat) == ancestor_index(
                        s0, p, (CONFIRMATION_DEPTH - 1) as nat));
                }
            }
        }
        let ghost linked_state = *self;
        proof {
            lemma_proof_key(block, metablock.proof_id);
            let n = old(self).metablocks.blocks@.len();
            let e = linked_state.metablocks.blocks@[n as int];
            assert(e == linked_state.metablocks.blocks@.last());
            assert(e.equiv(&metablock));
            assert(e.block.equiv(&block.spec_pruned()));
            assert(e.ids_match());
            assert(e.children@.len() == 0);
            assert(block.proof.timeslot == 0 ==> e.height == 0);
            assert(linked_state.heads@ == heads_after(old(self).heads@, block.content.parent_id, e.content_id, e.height));
            assert(id_appended(old(self).proof_ids_by_timeslot@, linked_state.proof_ids_by_timeslot@, block.proof.timeslot, proof_key(block)));
            assert(block.proof.timeslot == 0 ==> forall|j: int|
                0 <= j < n ==> #[trigger] linked_state.metablocks.blocks@[j] == old(self).metablocks.blocks@[j]);
            if block.proof.timeslot != 0 {
                let p = old(self).metablocks.content_index(block.content.parent_id)->Some_0;
                crate::metablocks::lemma_first_with_content(old(self).metablocks.blocks@, block.content.parent_id);
                assert(0 <= p < n);
                assert(e.height == old(self).metablocks.blocks@[p].height + 1);
                assert(linked_state.metablocks.blocks@[p].children@ == old(self).metablocks.blocks@[p].children@.push(e.proof_id));
                assert(linked_state.metablocks.blocks@[p].block == old(self).metablocks.blocks@[p].block);
            }
            assert(linked_state.balances == old(self).balances);
            assert(linked(*old(self), linked_state, *block));
        }
        let confirmation = self.confirm_ancestor(idx);
        let ghost confirmed_state = *self;
        self.epoch_tracker.add_block_to_epoch(
            block.proof.epoch,
            block.proof.timeslot,
            metablock.block_id,
        );
        proof {
            let e = block.proof.epoch as int;
            let slot = (block.proof.timeslot % TIMESLOTS_PER_EPOCH) as int;
            if block.proof.epoch < old(self).epoch_tracker.epochs@.len() && !old(
                self).epoch_tracker.epochs@[e].is_closed {
                let after = self.epoch_tracker.epochs@[e].timeslots@[slot]@;
                assert(after.drop_last() =~= old(self).epoch_tracker.epochs@[e].timeslots@[slot]@);
                assert(metablock.block.spec_id() == block.spec_id());
            }
        }
        proof {
            lemma_proof_key(block, metablock.proof_id);
            assert(confirmed(linked_state, confirmed_state, idx as int));
            assert(forks_unchanged(confirmed_state, *self));
            assert(confirmed(linked_state, *self, idx as int));
            assert(staged(*old(self), *self, *block));
        }
        let _ = confirmation;
        Ok(())
    }

    /// Whether the block is valid against its closed lookback epoch.
    pub fn validate_block(&self, block: &Block) -> (r: bool)
        requires
            self.epoch_tracker.wf(),
            self.sloth.wf(),
        ensures
            r == self.spec_validate(block),
    {
        let epoch = match self.epoch_tracker.get_lookback_epoch(block.proof.epoch) {
            Some(e) => e,
            None => {
                return false;
            },
        };
        if !epoch.is_closed {
            return false;
        }
        proof {
            assert(self.epoch_tracker.epochs@[block.proof.epoch - CHALLENGE_LOOKBACK_EPOCHS].wf());
        }
        let challenge = epoch.get_challenge_for_timeslot(block.proof.timeslot);
        if !block.is_valid(&epoch.randomness, &challenge) {
            return false;
        }
        self.check_piece(block)
    }

    /// Whether the block's encoding decodes to the masked genesis piece.
    pub fn check_piece(&self, block: &Block) -> (r: bool)
        requires
            self.sloth.wf(),
        ensures
            r == self.piece_ok(block),
    {
        let data = match &block.data {
            Some(d) => d,
            None => {
                return false;
            },
        };
        if data.encoding.len() != PIECE_SIZE {
            return false;
        }
        let mut piece = [0u8; 4096];
        let mut i: usize = 0;
        while i < PIECE_SIZE
            invariant
                data.encoding@.len() == PIECE_SIZE,
                i <= PIECE_SIZE,
                forall|j: int| 0 <= j < i ==> piece@[j] == data.encoding@[j],
            decreases PIECE_SIZE - i,
        {
            piece[i] = data.encoding[i];
            i += 1;
        }
        assert(piece@ =~= data.encoding@);
        self.sloth.decode(&mut piece, block.proof.public_key, ENCODING_LAYERS_TEST);
        let ghost plain = piece@;
        let mask = crate::utils::usize_to_bytes(block.proof.piece_index as usize);
        let mut k: usize = 0;
        while k < 16
            invariant
                k <= 16,
                piece@.len() == 4096,
                mask@ == u32_be_bytes(block.proof.piece_index as usize as u32) + Seq::new(12, |i: int| 0u8),
                forall|j: int| 0 <= j < k ==> piece@[j] == plain[j] ^ mask@[j],
                forall|j: int| k <= j < 4096 ==> piece@[j] == plain[j],
            decreases 16 - k,
        {
            piece[k] = piece[k] ^ mask[k];
            k += 1;
        }
        proof {
            assert(block.proof.piece_index as usize as u32 == block.proof.piece_index as u32);
            assert(piece@ =~= unmask(plain, block.proof.piece_index));
        }
        let hash = digest_sha_256(piece.as_slice());
        let r = ids_equal(&hash, &self.genesis_piece_hash);
        proof {
            if hash@ == self.genesis_piece_hash@ {
                vstd::array::axiom_array_ext_equal(hash, self.genesis_piece_hash);
            }
        }
        r
    }

    /// Looks up the staged parent of a block.
    fn find_parent(&self, block: &Block) -> (r: Option<usize>)
        ensures
            r matches Some(i) ==> i < self.metablocks.blocks@.len() && self.parent_entry(block)
                == Some(self.metablocks.blocks@[i as int]),
            r is None ==> self.parent_entry(block) is None,
    {
        self.metablocks.index_of_content(&block.content.parent_id)
    }

    /// Checks the parent of a block: staged, from an earlier timeslot, and
    /// where asked not below the confirmation horizon.
    fn check_parent(&self, block: &Block, check_depth: bool) -> (r: bool)
        ensures
            r == self.parent_ok(block, check_depth),
    {
        let p = match self.find_parent(block) {
            Some(p) => p,
            None => {
                return false;
            },
        };
        let parent = &self.metablocks.blocks[p];
        if parent.block.proof.timeslot >= block.proof.timeslot {
            return false;
        }
        if check_depth && self.heads.len() > 0 && is_deep_fork(parent.height, self.heads[0].block_height) {
            return false;
        }
        true
    }

    /// Validates a block received by sync while the node starts: new proof id,
    /// staged parent from an earlier timeslot, no deep fork, valid block. The
    /// proof id is remembered either way.
    pub fn is_valid_proposer_block_from_sync(&mut self, block: &Block) -> (r: bool)
        requires
            old(self).wf(),
        ensures
            final(self).wf(),
            final(self).recent_proof_ids@ == old(self).recent_proof_ids@.insert(proof_key(block)),
            r == (!old(self).recent_proof_ids@.contains(proof_key(block)) && old(self).parent_ok(
                block,
                true,
            ) && old(self).spec_validate(block)),
            final(self).same_but_caches(old(self)),
            final(self).cached_blocks_by_parent_content_id == old(self).cached_blocks_by_parent_content_id,
            final(self).early_blocks_by_timeslot == old(self).early_blocks_by_timeslot,
    {
        let proof_id = block.proof.get_id();
        proof {
            lemma_proof_key(block, proof_id);
        }
        if !self.recent_proof_ids.insert(proof_id) {
            return false;
        }
        if !self.check_parent(block, true) {
            return false;
        }
        self.validate_block(block)
    }

    /// Validates a block received by gossip. A known proof id is dropped;
    /// while the node syncs, or while the parent is unknown, the block is
    /// cached; a block up to `MAX_EARLY_TIMESLOTS` ahead is kept until its
    /// timeslot; too early or too late is rejected; then the parent checks
    /// and the block checks decide. Only a block that passes all returns true.
    pub fn is_valid_proposer_block_from_gossip(&mut self, block: &Block) -> (r: bool)
        requires
            old(self).wf(),
        ensures
            final(self).wf(),
            final(self).same_but_caches(old(self)),
            old(self).recent_proof_ids@.contains(proof_key(block)) ==> !r && *final(self) == *old(self),
            !old(self).recent_proof_ids@.contains(proof_key(block)) ==> {
                let arrival = spec_arrival(old(self).current_timeslot, block.proof.timeslot);
                let cache_it = !old(self).timer_is_running || (arrival == Arrival::Arrived
                    && old(self).parent_entry(block) is None);
                let keep_early = old(self).timer_is_running && arrival == Arrival::Early;
                &&& final(self).recent_proof_ids@ == old(self).recent_proof_ids@.insert(
                    proof_key(block),
                )
                &&& r == (old(self).timer_is_running && arrival == Arrival::Arrived && old(self).parent_ok(block, true) && old(self).spec_validate(block))
                &&& cache_it ==> appended(
                    old(self).cached_blocks_by_parent_content_id@,
                    final(self).cached_blocks_by_parent_content_id@,
                    block.content.parent_id,
                    *block,
                )
                &&& !cache_it ==> final(self).cached_blocks_by_parent_content_id == old(self).cached_blocks_by_parent_content_id
                &&& keep_early ==> appended(
                    old(self).early_blocks_by_timeslot@,
                    final(self).early_blocks_by_timeslot@,
                    block.proof.timeslot,
                    *block,
                )
                &&& !keep_early ==> final(self).early_blocks_by_timeslot == old(self).early_blocks_by_timeslot
            },
    {
        let proof_id = block.proof.get_id();
        proof {
            lemma_proof_key(block, proof_id);
        }
        if self.recent_proof_ids.contains(&proof_id) {
            return false;
        }
        self.recent_proof_ids.insert(proof_id);
        if !self.timer_is_running {
            self.cache_remote_block(block);
            return false;
        }
        match classify_arrival(self.current_timeslot, block.proof.timeslot) {
            Arrival::TooEarly => {
                return false;
            },
            Arrival::Early => {
                append_block(&mut self.early_blocks_by_timeslot, block.proof.timeslot, block);
                return false;
            },
            Arrival::TooLate => {
                return false;
            },
            Arrival::Arrived => {},
        }
        if self.find_parent(block).is_none() {
            self.cache_remote_block(block);
            return false;
        }
        if !self.check_parent(block, true) {
            return false;
        }
        self.validate_block(block)
    }

    /// Completes validation of a cached block whose parent has been staged:
    /// parent from an earlier timeslot and a valid block.
    pub fn is_valid_proposer_block_from_cache(&self, block: &Block) -> (r: bool)
        requires
            self.wf(),
        ensures
            r == (self.parent_ok(block, false) && self.spec_validate(block)),
    {
        if !self.check_parent(block, false) {
            return false;
        }
        self.validate_block(block)
    }

    /// Completes validation of an early block whose timeslot has arrived: a
    /// valid block whose parent is staged, earlier and not below the
    /// confirmation horizon. A block with an unknown parent is cached.
    pub fn is_valid_proposer_block_that_has_arrived(&mut self, block: &Block) -> (r: bool)
        requires
            old(self).wf(),
        ensures
            final(self).wf(),
            final(self).same_but_caches(old(self)),
            final(self).recent_proof_ids == old(self).recent_proof_ids,
            final(self).early_blocks_by_timeslot == old(self).early_blocks_by_timeslot,
            r == (old(self).spec_validate(block) && old(self).parent_ok(block, true)),
            old(self).spec_validate(block) && old(self).parent_entry(block) is None ==> appended(
                old(self).cached_blocks_by_parent_content_id@,
                final(self).cached_blocks_by_parent_content_id@,
                block.content.parent_id,
                *block,
            ),
            !(old(self).spec_validate(block) && old(self).parent_entry(block) is None) ==> final(self).cached_blocks_by_parent_content_id == old(self).cached_blocks_by_parent_content_id,
    {
        if !self.validate_block(block) {
            return false;
        }
        if self.find_parent(block).is_none() {
            self.cache_remote_block(block);
            return false;
        }
        self.check_parent(block, true)
    }

    /// Advances the current timeslot and stages every early block kept for
    /// it that is now valid; the timeslot's early entry is removed.
    pub fn next_timeslot(&mut self)
        requires
            old(self).wf(),
            old(self).current_timeslot < u64::MAX,
        ensures
            final(self).wf(),
            final(self).epoch_tracker.epochs@.len() == old(self).epoch_tracker.epochs@.len(),
            final(self).timer_is_running == old(self).timer_is_running,
            final(self).current_timeslot == old(self).current_timeslot + 1,
            final(self).early_blocks_by_timeslot@ == old(self).early_blocks_by_timeslot@.remove(
                (old(self).current_timeslot + 1) as u64,
            ),
            exists|steps: Seq<Ledger>| {
                &&& steps.len() == early_list(*old(self), (old(self).current_timeslot + 1) as u64).len() + 1
                &&& forks_unchanged(*old(self), steps[0])
                &&& steps.last() == *final(self)
                &&& forall|j: int|
                    0 <= j < steps.len() - 1 ==> #[trigger] arrival_step(
                        steps[j],
                        steps[j + 1],
                        early_list(*old(self), (old(self).current_timeslot + 1) as u64)[j],
                    )
            },
    {
        self.current_timeslot = self.current_timeslot + 1;
        let now = self.current_timeslot;
        let blocks = match self.early_blocks_by_timeslot.remove(&now) {
            Some(l) => l,
            None => {
                proof {
                    let steps = seq![*self];
                    assert(steps.last() == *self);
                    assert(early_list(*old(self), now).len() == 0);
                }
                return ;
            },
        };
        let ghost early = self.early_blocks_by_timeslot;
        let ghost mut steps: Seq<Ledger> = seq![*self];
        let mut i: usize = 0;
        while i < blocks.len()
            invariant
                self.wf(),
                self.current_timeslot == now,
                self.early_blocks_by_timeslot == early,
                self.epoch_tracker.epochs@.len() == old(self).epoch_tracker.epochs@.len(),
                self.timer_is_running == old(self).timer_is_running,
                i <= blocks@.len(),
                blocks@ == early_list(*old(self), now),
                steps.len() == i + 1,
                forks_unchanged(*old(self), steps[0]),
                steps.last() == *self,
                forall|j: int|
                    0 <= j < i ==> #[trigger] arrival_step(steps[j], steps[j + 1], blocks@[j]),
            decreases blocks@.len() - i,
        {
            let ghost before = *self;
            if self.is_valid_proposer_block_that_has_arrived(&blocks[i]) {
                let ghost mid = *self;
                let _ = self.stage_block(&blocks[i]);
                proof {
                    assert(forks_unchanged(before, mid));
                    lemma_staged_same_forks(before, mid, *self, blocks@[i as int]);
                }
            }
            proof {
                let next = steps.push(*self);
                assert(arrival_step(before, *self, blocks@[i as int]));
                assert forall|j: int| 0 <= j < i + 1 implies #[trigger] arrival_step(next[j], next[j + 1], blocks@[j]) by {
                    if j < i {
                        assert(next[j] == steps[j] && next[j + 1] == steps[j + 1]);
                    } else {
                        assert(next[j] == before && next[j + 1] == *self);
                    }
                }
                steps = next;
            }
            i += 1;
        }
        assert(steps.len() - 1 == blocks@.len());
    }

    /// Stages, in order, each block of a cached list that passes the cache
    /// checks, queueing the content id of each block staged.
    fn stage_cached_list(&mut self, blocks: &Vec<Block>, queue: &mut Vec<ContentId>) -> (steps: Ghost<Seq<Ledger>>)
        requires
            old(self).wf(),
        ensures
            final(self).wf(),
            final(self).early_blocks_by_timeslot == old(self).early_blocks_by_timeslot,
            final(self).cached_blocks_by_parent_content_id == old(self).cached_blocks_by_parent_content_id,
            final(self).current_timeslot == old(self).current_timeslot,
            steps@.len() == blocks@.len() + 1,
            steps@[0] == *old(self),
            steps@.last() == *final(self),
            forall|j: int| 0 <= j < blocks@.len() ==> #[trigger] cache_step(steps@[j], steps@[j + 1], blocks@[j]),
    {
        let ghost mut st: Seq<Ledger> = seq![*self];
        let mut i: usize = 0;
        while i < blocks.len()
            invariant
                self.wf(),
                self.early_blocks_by_timeslot == old(self).early_blocks_by_timeslot,
                self.cached_blocks_by_parent_content_id == old(self).cached_blocks_by_parent_content_id,
                self.current_timeslot == old(self).current_timeslot,
                i <= blocks@.len(),
                st.len() == i + 1,
                st[0] == *old(self),
                st.last() == *self,
                forall|j: int| 0 <= j < i ==> #[trigger] cache_step(st[j], st[j + 1], blocks@[j]),
            decreases blocks@.len() - i,
        {
            let ghost before = *self;
            let block = &blocks[i];
            if self.is_valid_proposer_block_from_cache(block) {
                if self.stage_block(block).is_ok() {
                    queue.push(block.content.get_id());
                }
            }
            proof {
                let next = st.push(*self);
                assert(cache_step(before, *self, blocks@[i as int]));
                assert forall|j: int| 0 <= j < i + 1 implies #[trigger] cache_step(next[j], next[j + 1], blocks@[j]) by {
                    if j < i {
                        assert(next[j] == st[j] && next[j + 1] == st[j + 1]);
                    } else {
                        assert(next[j] == before && next[j + 1] == *self);
                    }
                }
                st = next;
            }
            i += 1;
        }
        Ghost(st)
    }

    /// Stages the cached blocks that wait for `parent_id`, then those that
    /// wait for each block so staged, and so on. Each cache entry visited is
    /// removed; blocks that fail validation are dropped. The blocks waiting
    /// for `parent_id` are taken first, in their order.
    pub fn stage_cached_children(&mut self, parent_id: ContentId)
        requires
            old(self).wf(),
        ensures
            final(self).wf(),
            !final(self).cached_blocks_by_parent_content_id@.contains_key(parent_id),
            final(self).cached_blocks_by_parent_content_id@.dom().subset_of(
                old(self).cached_blocks_by_parent_content_id@.dom(),
            ),
            final(self).early_blocks_by_timeslot == old(self).early_blocks_by_timeslot,
            final(self).current_timeslot == old(self).current_timeslot,
            exists|steps: Seq<Ledger>, taken: Seq<Block>| {
                &&& steps.len() == taken.len() + 1
                &&& forks_unchanged(*old(self), steps[0])
                &&& steps.last() == *final(self)
                &&& cached_list(*old(self), parent_id).len() <= taken.len()
                &&& taken.subrange(0, cached_list(*old(self), parent_id).len() as int) == cached_list(*old(self), parent_id)
                &&& forall|j: int| 0 <= j < taken.len() ==> #[trigger] cache_step(steps[j], steps[j + 1], taken[j])
            },
    {
        let mut queue: Vec<ContentId> = Vec::new();
        let first = match self.cached_blocks_by_parent_content_id.remove(&parent_id) {
            Some(l) => l,
            None => Vec::new(),
        };
        let ghost start = *self;
        let Ghost(s1) = self.stage_cached_list(&first, &mut queue);
        let ghost mut steps: Seq<Ledger> = s1;
        let ghost mut taken: Seq<Block> = first@;
        proof {
            assert(first@ == cached_list(*old(self), parent_id));
            assert(taken.subrange(0, first@.len() as int) =~= first@);
        }
        while queue.len() > 0
            invariant
                self.wf(),
                self.early_blocks_by_timeslot == old(self).early_blocks_by_timeslot,
                self.current_timeslot == old(self).current_timeslot,
                self.cached_blocks_by_parent_content_id@.dom().subset_of(
                    old(self).cached_blocks_by_parent_content_id@.dom(),
                ),
                !self.cached_blocks_by_parent_content_id@.contains_key(parent_id),
                steps.len() == taken.len() + 1,
                forks_unchanged(*old(self), steps[0]),
                forks_unchanged(steps.last(), *self),
                first@.len() <= taken.len(),
                first@ == cached_list(*old(self), parent_id),
                taken.subrange(0, first@.len() as int) == first@,
                forall|j: int| 0 <= j < taken.len() ==> #[trigger] cache_step(steps[j], steps[j + 1], taken[j]),
            decreases self.cached_blocks_by_parent_content_id.entries@.len(), queue@.len(),
        {
            let ghost n0 = self.cached_blocks_by_parent_content_id.entries@.len();
            let id = queue.remove(0);
            let blocks = match self.cached_blocks_by_parent_content_id.remove(&id) {
                Some(l) => l,
                None => {
                    continue;
                },
            };
            assert(self.cached_blocks_by_parent_content_id.entries@.len() < n0);
            let ghost mid = *self;
            let Ghost(more) = self.stage_cached_list(&blocks, &mut queue);
            proof {
                let t = taken.len();
                let ns = steps.drop_last() + more;
                let nt = taken + blocks@;
                assert(more[0] == mid);
                assert(ns.len() == nt.len() + 1);
                assert(ns.last() == *self);
                if t == 0 {
                    assert(ns[0] == mid);
                    assert(forks_unchanged(*old(self), ns[0]));
                } else {
                    assert(ns[0] == steps[0]);
                }
                assert forall|j: int| 0 <= j < nt.len() implies #[trigger] cache_step(ns[j], ns[j + 1], nt[j]) by {
                    if j < t - 1 {
                        assert(ns[j] == steps[j] && ns[j + 1] == steps[j + 1] && nt[j] == taken[j]);
                    } else if j == t - 1 {
                        assert(ns[j] == steps[j] && ns[j + 1] == mid && nt[j] == taken[j]);
                        assert(cache_step(steps[j], steps[j + 1], taken[j]));
                        assert(steps[j + 1] == steps.last());
                    } else {
                        let k = j - t;
                        assert(nt[j] == blocks@[k]);
                        assert(ns[j] == more[k] && ns[j + 1] == more[k + 1]);
                        assert(cache_step(more[k], more[k + 1], blocks@[k]));
                    }
                }
                assert(nt.subrange(0, first@.len() as int) =~= taken.subrange(0, first@.len() as int));
                steps = ns;
                taken = nt;
            }
        }
        proof {
            let ns = steps.drop_last().push(*self);
            assert(ns.len() == taken.len() + 1);
            assert(ns.last() == *self);
            if taken.len() == 0 {
                assert(forks_unchanged(*old(self), ns[0]));
            } else {
                assert(ns[0] == steps[0]);
            }
            assert forall|j: int| 0 <= j < taken.len() implies #[trigger] cache_step(ns[j], ns[j + 1], taken[j]) by {
                if j < taken.len() - 1 {
                    assert(ns[j] == steps[j] && ns[j + 1] == steps[j + 1]);
                } else {
                    assert(ns[j] == steps[j] && ns[j + 1] == *self);
                    assert(cache_step(steps[j], steps[j + 1], taken[j]));
                }
            }
        }
    }

    /// All staged blocks recorded for a timeslot, in the order they were staged.
    pub fn get_blocks_by_timeslot(&self, timeslot: u64) -> (r: Vec<Block>)
        requires
            self.wf(),
        ensures
            !self.proof_ids_by_timeslot@.contains_key(timeslot) ==> r@.len() == 0,
            self.proof_ids_by_timeslot@.contains_key(timeslot) ==> {
                let want = listed_blocks(
                    self.proof_ids_by_timeslot@[timeslot]@,
                    self.metablocks.blocks@,
                );
                &&& r@.len() == want.len()
                &&& forall|i: int| 0 <= i < want.len() ==> (#[trigger] r@[i]).equiv(&want[i])
            },
    {
        let mut out: Vec<Block> = Vec::new();
        let ids = match self.proof_ids_by_timeslot.get(&timeslot) {
            Some(ids) => ids,
            None => {
                return out;
            },
        };
        let mut k: usize = 0;
        while k < ids.len()
            invariant
                self.wf(),
                k <= ids@.len(),
                out@.len() == listed_blocks(ids@.subrange(0, k as int), self.metablocks.blocks@).len(),
                forall|i: int|
                    0 <= i < out@.len() ==> (#[trigger] out@[i]).equiv(
                        &listed_blocks(ids@.subrange(0, k as int), self.metablocks.blocks@)[i],
                    ),
            decreases ids@.len() - k,
        {
            let ghost before = out@;
            let ghost pre = ids@.subrange(0, k as int + 1);
            proof {
                assert(pre.drop_last() =~= ids@.subrange(0, k as int));
            }
            match self.metablocks.index_of_proof(&ids[k]) {
                Some(j) => {
                    proof {
                        let p = choose|q: int|
                            0 <= q < self.metablocks.blocks@.len() && self.metablocks.blocks@[q].proof_id
                                == ids@[k as int];
                        assert(p == j);
                    }
                    out.push(self.metablocks.blocks[j].block.duplicate());
                },
                None => {},
            }
            k += 1;
        }
        assert(ids@.subrange(0, k as int) =~= ids@);
        out
    }

    /// Builds and signs a block with this node's key: the given proof, a
    /// coinbase paying the block reward to this node for the proof, and a
    /// content that links to `parent_id` and lists `tx_ids` after the coinbase.
    fn build_block(
        &self,
        proof: Proof,
        parent_id: ContentId,
        timestamp: u64,
        tx_ids: &Vec<TxId>,
        data: Data,
    ) -> (r: Block)
        ensures
            r.proof == proof,
            r.coinbase_tx == (CoinbaseTx {
                reward: BLOCK_REWARD,
                to_address: self.public_key,
                proof_id: r.content.proof_id,
            }),
            r.content.proof_id@ == proof.spec_id(),
            r.content.parent_id == parent_id,
            r.content.timestamp == timestamp,
            r.content.tx_ids@.len() == tx_ids@.len() + 1,
            r.content.tx_ids@[0]@ == r.coinbase_tx.spec_id(),
            r.content.tx_ids@.drop_first() == tx_ids@,
            r.content.proof_signature@ == signature_of(self.secret_key@, proof.spec_id()),
            r.content.signature@ == signature_of(self.secret_key@, r.content.spec_id()),
            r.data == Some(data),
    {
        let proof_id = proof.get_id();
        let coinbase_tx = CoinbaseTx::new(BLOCK_REWARD, self.public_key, proof_id);
        let mut ids: Vec<TxId> = Vec::new();
        ids.push(coinbase_tx.get_id());
        let mut i: usize = 0;
        while i < tx_ids.len()
            invariant
                i <= tx_ids@.len(),
                ids@.len() == i + 1,
                ids@[0]@ == coinbase_tx.spec_id(),
                ids@.drop_first() == tx_ids@.subrange(0, i as int),
            decreases tx_ids@.len() - i,
        {
            ids.push(tx_ids[i]);
            i += 1;
            assert(ids@.drop_first() =~= tx_ids@.subrange(0, i as int));
        }
        assert(tx_ids@.subrange(0, i as int) =~= tx_ids@);
        let proof_signature = sign(&self.secret_key, proof_id.as_slice());
        let mut content = Content {
            parent_id,
            proof_id,
            proof_signature: to_vec(proof_signature.as_slice()),
            timestamp,
            tx_ids: ids,
            signature: Vec::new(),
        };
        let content_id = content.get_id();
        let signature = sign(&self.secret_key, content_id.as_slice());
        content.signature = to_vec(signature.as_slice());
        Block { proof, coinbase_tx, content, data: Some(data) }
    }

    #[verifier::rlimit(100)]
    #[verifier::spinoff_prover]
    /// Starts a chain from genesis as a gateway node: opens
    /// `CHALLENGE_LOOKBACK_EPOCHS` epochs and stages one self-signed block in
    /// each of their timeslots, each a child of the one before, with
    /// timestamps `TIMESLOT_DURATION` apart from `genesis_timestamp`.
    pub fn init_from_genesis(&mut self, genesis_timestamp: u64) -> (r: u64)
        requires
            old(self).wf(),
            old(self).epoch_tracker.epochs@.len() < 0x1000_0000_0000_0000,
            genesis_timestamp <= u64::MAX - 3000,
        ensures
            final(self).wf(),
            r == genesis_timestamp,
            final(self).genesis_timestamp == genesis_timestamp,
            final(self).epoch_tracker.epochs@.len() == old(self).epoch_tracker.epochs@.len()
                + CHALLENGE_LOOKBACK_EPOCHS,
            final(self).secret_key == old(self).secret_key,
            final(self).sloth == old(self).sloth,
            final(self).genesis_piece_hash == old(self).genesis_piece_hash,
            final(self).current_timeslot == old(self).current_timeslot,
            exists|run: Seq<(Ledger, Ledger, Block)>|
                #![trigger run[0]]
                genesis_run(*old(self), *final(self), run, genesis_timestamp),
    {
        self.genesis_timestamp = genesis_timestamp;
        let mut timestamp = genesis_timestamp;
        let mut parent_id: ContentId = [0u8; 32];
        assert(parent_id@ =~= zero_id());
        let empty: [u8; 0] = [];
        let nonce = derive_nonce(empty.as_slice());
        assert(empty@ =~= Seq::<u8>::empty());
        let ghost e0 = old(self).epoch_tracker.epochs@.len();
        let ghost mut pre: Seq<Ledger> = Seq::empty();
        let ghost mut post: Seq<Ledger> = Seq::empty();
        let ghost mut blocks: Seq<Block> = Seq::empty();
        let mut e: u64 = 0;
        while e < CHALLENGE_LOOKBACK_EPOCHS
            invariant
                self.public_key == old(self).public_key,
                self.genesis_piece_hash == old(self).genesis_piece_hash,
                nonce == nonce_of(Seq::empty()),
                e0 == old(self).epoch_tracker.epochs@.len(),
                pre.len() == e * 4 && post.len() == e * 4 && blocks.len() == e * 4,
                e == 0 ==> forks_unchanged(*old(self), *self) && parent_id@ == zero_id(),
                e > 0 ==> forks_unchanged(*old(self), pre[0]) && forks_unchanged(post[e * 4 - 1], *self)
                    && parent_id@ == blocks[e * 4 - 1].content.spec_id() && blocks[0].content.parent_id@ == zero_id(),
                forall|j: int| 0 <= j < e * 4 - 1 ==> #[trigger] forks_unchanged(post[j], pre[j + 1]),
                forall|j: int| 0 <= j < e * 4 ==> #[trigger] staged(pre[j], post[j], blocks[j]),
                forall|j: int| 0 <= j < e * 4 ==> old(self).genesis_block(#[trigger] blocks[j], j, genesis_timestamp),
                forall|j: int| 1 <= j < e * 4 ==> (#[trigger] blocks[j]).content.parent_id@ == blocks[j - 1].content.spec_id(),
                self.wf(),
                e <= CHALLENGE_LOOKBACK_EPOCHS,
                self.epoch_tracker.epochs@.len() == old(self).epoch_tracker.epochs@.len() + e,
                old(self).epoch_tracker.epochs@.len() < 0x1000_0000_0000_0000,
                timestamp == genesis_timestamp + e * 1000,
                genesis_timestamp <= u64::MAX - 3000,
                self.secret_key == old(self).secret_key,
                self.sloth == old(self).sloth,
                self.genesis_piece_hash == old(self).genesis_piece_hash,
                self.current_timeslot == old(self).current_timeslot,
            decreases CHALLENGE_LOOKBACK_EPOCHS - e,
        {
            let epoch_index = self.epoch_tracker.advance_epoch();
            let solution_range = self.epoch_tracker.epochs[epoch_index as usize].solution_range;
            assert(epoch_index == e0 + e);
            let mut s: u64 = 0;
            while s < TIMESLOTS_PER_EPOCH
                invariant
                    self.public_key == old(self).public_key,
                    self.genesis_piece_hash == old(self).genesis_piece_hash,
                    nonce == nonce_of(Seq::empty()),
                    e0 == old(self).epoch_tracker.epochs@.len(),
                    epoch_index == e0 + e,
                    pre.len() == e * 4 + s && post.len() == e * 4 + s && blocks.len() == e * 4 + s,
                    e * 4 + s == 0 ==> forks_unchanged(*old(self), *self) && parent_id@ == zero_id(),
                    e * 4 + s > 0 ==> forks_unchanged(*old(self), pre[0]) && forks_unchanged(post[e * 4 + s - 1], *self)
                        && parent_id@ == blocks[e * 4 + s - 1].content.spec_id() && blocks[0].content.parent_id@ == zero_id(),
                    forall|j: int| 0 <= j < e * 4 + s - 1 ==> #[trigger] forks_unchanged(post[j], pre[j + 1]),
                    forall|j: int| 0 <= j < e * 4 + s ==> #[trigger] staged(pre[j], post[j], blocks[j]),
                    forall|j: int| 0 <= j < e * 4 + s ==> old(self).genesis_block(#[trigger] blocks[j], j, genesis_timestamp),
                    forall|j: int| 1 <= j < e * 4 + s ==> (#[trigger] blocks[j]).content.parent_id@ == blocks[j - 1].content.spec_id(),
                    self.wf(),
                    s <= TIMESLOTS_PER_EPOCH,
                    epoch_index < 0x1000_0000_0000_0003,
                    self.epoch_tracker.epochs@.len() == old(self).epoch_tracker.epochs@.len() + e + 1,
                    timestamp == genesis_timestamp + e * 1000 + s * 250,
                    e < CHALLENGE_LOOKBACK_EPOCHS,
                    genesis_timestamp <= u64::MAX - 3000,
                    self.secret_key == old(self).secret_key,
                    self.sloth == old(self).sloth,
                    self.genesis_piece_hash == old(self).genesis_piece_hash,
                    self.current_timeslot == old(self).current_timeslot,
                decreases TIMESLOTS_PER_EPOCH - s,
            {
                let proof = Proof {
                    randomness: self.genesis_piece_hash,
                    epoch: epoch_index,
                    timeslot: epoch_index * TIMESLOTS_PER_EPOCH + s,
                    public_key: self.public_key,
                    tag: 0,
                    nonce,
                    piece_index: 0,
                    solution_range,
                };
                let no_txs: Vec<TxId> = Vec::new();
                let data = Data { encoding: Vec::new(), merkle_proof: Vec::new() };
                let block = self.build_block(proof, parent_id, timestamp, &no_txs, data);
                let ghost before = *self;
                let _ = self.stage_block(&block);
                proof {
                    let k = (e * 4 + s) as int;
                    let np = pre.push(before);
                    let nq = post.push(*self);
                    let nb = blocks.push(block);
                    assert(old(self).genesis_block(block, k, genesis_timestamp));
                    assert forall|j: int| 0 <= j < k implies #[trigger] forks_unchanged(nq[j], np[j + 1]) by {
                        if j < k - 1 {
                            assert(nq[j] == post[j] && np[j + 1] == pre[j + 1]);
                        } else {
                            assert(nq[j] == post[j] && np[j + 1] == before);
                        }
                    }
                    assert forall|j: int| 0 <= j < k + 1 implies #[trigger] staged(np[j], nq[j], nb[j]) by {
                        if j < k {
                            assert(np[j] == pre[j] && nq[j] == post[j] && nb[j] == blocks[j]);
                        }
                    }
                    assert forall|j: int| 0 <= j < k + 1 implies old(self).genesis_block(#[trigger] nb[j], j, genesis_timestamp) by {
                        if j < k {
                            assert(nb[j] == blocks[j]);
                        }
                    }
                    assert forall|j: int| 1 <= j < k + 1 implies (#[trigger] nb[j]).content.parent_id@ == nb[j - 1].content.spec_id() by {
                        if j < k {
                            assert(nb[j] == blocks[j] && nb[j - 1] == blocks[j - 1]);
                        }
                    }
                    pre = np;
                    post = nq;
                    blocks = nb;
                }
                parent_id = block.content.get_id();
                timestamp = timestamp + TIMESLOT_DURATION;
                s += 1;
            }
            e += 1;
        }
        let ghost last = *self;
        self.genesis_timestamp = genesis_timestamp;
        proof {
            assert(e == 3);
            assert(forks_unchanged(post[11], last));
            assert(forks_unchanged(post[11], *self));
            assert(forks_unchanged(*old(self), pre[0]));
            assert(blocks[0].content.parent_id@ == zero_id());
            let run = Seq::new(12, |j: int| (pre[j], post[j], blocks[j]));
            assert forall|j: int| 0 <= j < 11 implies #[trigger] forks_unchanged(run[j].1, run[j + 1].0) by {
                assert(forks_unchanged(post[j], pre[j + 1]));
            }
            assert forall|j: int| 0 <= j < 12 implies #[trigger] staged(run[j].0, run[j].1, run[j].2) by {
                assert(staged(pre[j], post[j], blocks[j]));
            }
            assert forall|j: int| 0 <= j < 12 implies old(self).genesis_block(#[trigger] run[j].2, j, genesis_timestamp) by {
                assert(old(self).genesis_block(blocks[j], j, genesis_timestamp));
            }
            assert forall|j: int| 1 <= j < 12 implies (#[trigger] run[j].2).content.parent_id@ == run[j - 1].2.content.spec_id() by {
                assert(blocks[j].content.parent_id@ == blocks[j - 1].content.spec_id());
            }
            assert(genesis_run(*old(self), *self, run, genesis_timestamp));
        }
        genesis_timestamp
    }

    /// `b` is genesis block `k` of this ledger: in timeslot `k` of the epochs
    /// opened from the current one on, proving nothing but this node's key and
    /// the genesis piece hash, with the coinbase as its only transaction, signed
    /// by this node and stamped `TIMESLOT_DURATION` after the block before it.
    pub open spec fn genesis_block(&self, b: Block, k: int, genesis_timestamp: u64) -> bool {
        &&& b.proof == (Proof {
            randomness: self.genesis_piece_hash,
            epoch: (self.epoch_tracker.epochs@.len() + k / 4) as u64,
            timeslot: ((self.epoch_tracker.epochs@.len() + k / 4) * 4 + k % 4) as u64,
            public_key: self.public_key,
            tag: 0,
            nonce: nonce_of(Seq::empty()),
            piece_index: 0,
            solution_range: b.proof.solution_range,
        })
        &&& b.content.proof_id@ == b.proof.spec_id()
        &&& b.coinbase_tx == (CoinbaseTx {
            reward: BLOCK_REWARD,
            to_address: self.public_key,
            proof_id: b.content.proof_id,
        })
        &&& b.content.tx_ids@.len() == 1
        &&& b.content.tx_ids@[0]@ == b.coinbase_tx.spec_id()
        &&& b.content.timestamp == genesis_timestamp + 250 * k
        &&& b.content.proof_signature@ == signature_of(self.secret_key@, b.proof.spec_id())
        &&& b.content.signature@ == signature_of(self.secret_key@, b.content.spec_id())
    }

    /// `b` is the block this node makes from a solution: the solution's proof
    /// under this node's key, a coinbase paying the block reward to this node,
    /// a content linking to `parent` that lists the coinbase followed by the
    /// pool's transactions in id order, signatures by this node, and the
    /// solution's encoding with the stored Merkle proof of its index.
    pub open spec fn built_from(&self, b: &Block, solution: &Solution, parent: ContentId, timestamp: u64) -> bool {
        &&& b.proof == (Proof {
            randomness: solution.randomness,
            epoch: solution.epoch_index,
            timeslot: solution.timeslot,
            public_key: self.public_key,
            tag: solution.tag,
            nonce: nonce_of(solution.encoding@),
            piece_index: solution.piece_index,
            solution_range: solution.solution_range,
        })
        &&& b.content.proof_id@ == b.proof.spec_id()
        &&& b.coinbase_tx == (CoinbaseTx {
            reward: BLOCK_REWARD,
            to_address: self.public_key,
            proof_id: b.content.proof_id,
        })
        &&& b.content.parent_id == parent
        &&& b.content.timestamp == timestamp
        &&& b.content.tx_ids@.len() == self.tx_mempool.ids@.len() + 1
        &&& b.content.tx_ids@[0]@ == b.coinbase_tx.spec_id()
        &&& ids_sorted(b.content.tx_ids@.drop_first())
        &&& forall|x: TxId| #[trigger] b.content.tx_ids@.drop_first().contains(x) <==> self.tx_mempool@.contains(x)
        &&& b.content.proof_signature@ == signature_of(self.secret_key@, b.proof.spec_id())
        &&& b.content.signature@ == signature_of(self.secret_key@, b.content.spec_id())
        &&& b.data matches Some(d) && d.encoding@ == solution.encoding@ && d.merkle_proof@ == if solution.proof_index < self.merkle_proofs@.len() {
            self.merkle_proofs@[solution.proof_index as int]@
        } else {
            Seq::<u8>::empty()
        }
    }

    /// The parent a locally created block links to: the longest chain's head,
    /// or that head's parent when the head is one of the reported siblings.
    pub open spec fn local_parent(&self, siblings: Seq<ContentId>) -> Option<ContentId> {
        if self.heads@.len() == 0 {
            None
        } else if !siblings.contains(self.heads@[0].content_id) {
            Some(self.heads@[0].content_id)
        } else {
            match self.metablocks.content_index(self.heads@[0].content_id) {
                Some(i) => Some(self.metablocks.blocks@[i].block.content.parent_id),
                None => None,
            }
        }
    }

    /// Creates a block from a farming solution, signed by this node: it links
    /// to the local parent and lists the coinbase followed by the pool's
    /// transactions in id order. The block must pass validation.
    pub fn create_and_apply_local_block(
        &self,
        solution: &Solution,
        sibling_content_ids: &Vec<ContentId>,
        timestamp: u64,
    ) -> (r: Result<Block, NodeError>)
        requires
            self.wf(),
        ensures
            self.local_parent(sibling_content_ids@) is None ==> r == Err::<Block, NodeError>(
                NodeError::ConsistencyViolation,
            ),
            self.local_parent(sibling_content_ids@) matches Some(parent) ==> {
                &&& r matches Ok(b) ==> self.built_from(&b, solution, parent, timestamp)
                    && self.spec_validate(&b)
                &&& r is Err ==> r == Err::<Block, NodeError>(NodeError::InvalidBlock) && exists|b: Block|
                    self.built_from(&b, solution, parent, timestamp) && !self.spec_validate(&b)
            },
    {
        if self.heads.len() == 0 {
            return Err(NodeError::ConsistencyViolation);
        }
        let mut parent_id = self.get_head();
        let mut i: usize = 0;
        let mut is_sibling = false;
        while i < sibling_content_ids.len()
            invariant
                i <= sibling_content_ids@.len(),
                is_sibling == sibling_content_ids@.subrange(0, i as int).contains(parent_id),
                self.heads@.len() > 0,
                parent_id == self.heads@[0].content_id,
            decreases sibling_content_ids@.len() - i,
        {
            if ids_equal(&sibling_content_ids[i], &parent_id) {
                is_sibling = true;
            }
            proof {
                let pre = sibling_content_ids@.subrange(0, i as int + 1);
                assert(pre =~= sibling_content_ids@.subrange(0, i as int).push(sibling_content_ids@[i as int]));
                if sibling_content_ids@[i as int] == parent_id {
                    assert(pre[i as int] == parent_id);
                }
                if sibling_content_ids@.subrange(0, i as int).contains(parent_id) {
                    let m = choose|m: int| 0 <= m < i && sibling_content_ids@.subrange(0, i as int)[m] == parent_id;
                    assert(pre[m] == parent_id);
                }
                if pre.contains(parent_id) && !(sibling_content_ids@[i as int] == parent_id) {
                    let m = choose|m: int| 0 <= m < i + 1 && pre[m] == parent_id;
                    assert(sibling_content_ids@.subrange(0, i as int)[m] == parent_id);
                }
            }
            i += 1;
        }
        assert(sibling_content_ids@.subrange(0, i as int) =~= sibling_content_ids@);
        if is_sibling {
            match self.metablocks.index_of_content(&parent_id) {
                Some(p) => {
                    parent_id = self.metablocks.blocks[p].block.content.parent_id;
                },
                None => {
                    return Err(NodeError::ConsistencyViolation);
                },
            }
        }
        let proof = Proof {
            randomness: solution.randomness,
            epoch: solution.epoch_index,
            timeslot: solution.timeslot,
            public_key: self.public_key,
            tag: solution.tag,
            nonce: derive_nonce(solution.encoding.as_slice()),
            piece_index: solution.piece_index,
            solution_range: solution.solution_range,
        };
        let merkle_proof = if solution.proof_index < self.merkle_proofs.len() as u64 {
            crate::block::copy_bytes(&self.merkle_proofs[solution.proof_index as usize])
        } else {
            Vec::new()
        };
        let data = Data { encoding: to_vec(solution.encoding.as_slice()), merkle_proof };
        let pending = sort_ids(&self.tx_mempool.ids);
        let block = self.build_block(proof, parent_id, timestamp, &pending, data);
        proof {
            assert(block.content.tx_ids@.drop_first() == pending@);
            assert forall|x: TxId| #[trigger] block.content.tx_ids@.drop_first().contains(x) <==> self.tx_mempool@.contains(x) by {
                assert(self.tx_mempool@.contains(x) <==> self.tx_mempool.ids@.contains(x));
            }
            assert(self.built_from(&block, solution, parent_id, timestamp));
        }
        if !self.validate_block(&block) {
            return Err(NodeError::InvalidBlock);
        }
        Ok(block)
    }
}

} // verus!
