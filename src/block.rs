use crate::crypto::{digest_sha_256, sha256_of, signature_valid, verify_signature};
use crate::plot::{be_u64, be_u64_of, compute_tag, in_solution_range, tag_of};
use crate::{AccountAddress, ContentId, Id, ProofId, PublicKey, Tag, TxId, BLOCK_REWARD};
use vstd::bytes::{spec_u64_to_le_bytes, u64_to_le_bytes};
use vstd::prelude::*;

verus! {

/// Eight bytes of `x`, least significant first.
pub open spec fn le8(x: u64) -> Seq<u8> {
    spec_u64_to_le_bytes(x)
}

/// A byte string preceded by its length.
pub open spec fn with_len(v: Seq<u8>) -> Seq<u8> {
    le8(v.len() as u64) + v
}

/// The concatenation of a list of identifiers.
pub open spec fn concat_ids(ids: Seq<Id>) -> Seq<u8>
    decreases ids.len(),
{
    if ids.len() == 0 {
        Seq::empty()
    } else {
        concat_ids(ids.drop_last()) + ids.last()@
    }
}

/// A list of identifiers preceded by its length.
pub open spec fn id_list(ids: Seq<Id>) -> Seq<u8> {
    le8(ids.len() as u64) + concat_ids(ids)
}

pub(crate) fn push_u64(out: &mut Vec<u8>, x: u64)
    ensures
        final(out)@ == old(out)@ + le8(x),
{
    let b = u64_to_le_bytes(x);
    out.extend_from_slice(b.as_slice());
}

pub(crate) fn push_bytes(out: &mut Vec<u8>, bytes: &[u8])
    ensures
        final(out)@ == old(out)@ + bytes@,
{
    out.extend_from_slice(bytes);
}

pub(crate) fn push_with_len(out: &mut Vec<u8>, bytes: &[u8])
    ensures
        final(out)@ == old(out)@ + with_len(bytes@),
{
    push_u64(out, bytes.len() as u64);
    push_bytes(out, bytes);
    assert(out@ =~= old(out)@ + with_len(bytes@));
}

pub(crate) fn push_id_list(out: &mut Vec<u8>, ids: &Vec<Id>)
    ensures
        final(out)@ == old(out)@ + id_list(ids@),
{
    push_u64(out, ids.len() as u64);
    let ghost start = out@;
    let mut i: usize = 0;
    while i < ids.len()
        invariant
            i <= ids@.len(),
            out@ == start + concat_ids(ids@.subrange(0, i as int)),
        decreases ids@.len() - i,
    {
        push_bytes(out, ids[i].as_slice());
        proof {
            let pre = ids@.subrange(0, i as int + 1);
            assert(pre.drop_last() =~= ids@.subrange(0, i as int));
            assert(pre.last() == ids@[i as int]);
        }
        i += 1;
    }
    assert(ids@.subrange(0, ids@.len() as int) =~= ids@);
    assert(out@ =~= old(out)@ + id_list(ids@));
}

pub(crate) fn copy_bytes(v: &Vec<u8>) -> (r: Vec<u8>)
    ensures
        r@ == v@,
{
    let r = v.clone();
    assert(r@ =~= v@);
    r
}

pub(crate) fn copy_ids(v: &Vec<Id>) -> (r: Vec<Id>)
    ensures
        r@ == v@,
{
    let mut r: Vec<Id> = Vec::new();
    let mut i: usize = 0;
    while i < v.len()
        invariant
            i <= v@.len(),
            r@ == v@.subrange(0, i as int),
        decreases v@.len() - i,
    {
        r.push(v[i]);
        i += 1;
        assert(r@ =~= v@.subrange(0, i as int));
    }
    assert(r@ =~= v@);
    r
}

pub(crate) fn ids_equal(a: &Id, b: &Id) -> (r: bool)
    ensures
        r == (a == b),
{
    let mut i: usize = 0;
    while i < 32
        invariant
            i <= 32,
            forall|j: int| 0 <= j < i ==> a@[j] == b@[j],
        decreases 32 - i,
    {
        if a[i] != b[i] {
            return false;
        }
        i += 1;
    }
    assert(a@ =~= b@);
    proof {
        vstd::array::axiom_array_ext_equal(*a, *b);
    }
    true
}

/// `a` comes before `b` in lexicographic byte order.
pub open spec fn lex_lt(a: Seq<u8>, b: Seq<u8>) -> bool {
    exists|k: int|
        0 <= k < a.len() && k < b.len() && a[k] < b[k] && forall|j: int| 0 <= j < k ==> a[j] == b[j]
}

pub proof fn lemma_lex_lt_asymmetric(a: Seq<u8>, b: Seq<u8>)
    requires
        lex_lt(a, b),
    ensures
        !lex_lt(b, a),
{
    let k = choose|k: int|
        0 <= k < a.len() && k < b.len() && a[k] < b[k] && forall|j: int| 0 <= j < k ==> a[j] == b[j];
    if lex_lt(b, a) {
        let m = choose|m: int|
            0 <= m < b.len() && m < a.len() && b[m] < a[m] && forall|j: int| 0 <= j < m ==> b[j] == a[j];
        if m < k {
            assert(a[m] == b[m]);
        } else if k < m {
            assert(b[k] == a[k]);
        }
    }
}

/// Whether `a` comes before `b` in lexicographic byte order.
pub fn id_lt(a: &Id, b: &Id) -> (r: bool)
    ensures
        r == lex_lt(a@, b@),
{
    let mut i: usize = 0;
    while i < 32
        invariant
            i <= 32,
            forall|j: int| 0 <= j < i ==> a@[j] == b@[j],
        decreases 32 - i,
    {
        if a[i] < b[i] {
            assert(lex_lt(a@, b@));
            return true;
        }
        if a[i] > b[i] {
            proof {
                if lex_lt(a@, b@) {
                    let k = choose|k: int|
                        0 <= k < a@.len() && k < b@.len() && a@[k] < b@[k] && forall|j: int|
                            0 <= j < k ==> a@[j] == b@[j];
                    if k > i {
                        assert(a@[i as int] == b@[i as int]);
                    }
                }
            }
            return false;
        }
        i += 1;
    }
    proof {
        if lex_lt(a@, b@) {
            let k = choose|k: int|
                0 <= k < a@.len() && k < b@.len() && a@[k] < b@[k] && forall|j: int|
                    0 <= j < k ==> a@[j] == b@[j];
            assert(a@[k] == b@[k]);
        }
    }
    false
}

/// Each id is not lexicographically before the one ahead of it.
pub open spec fn ids_sorted(s: Seq<Id>) -> bool {
    forall|i: int, j: int|
        0 <= i && j == i + 1 && j < s.len() ==> !lex_lt((#[trigger] s[j])@, (#[trigger] s[i])@)
}

/// The ids in lexicographic byte order.
pub fn sort_ids(v: &Vec<Id>) -> (r: Vec<Id>)
    ensures
        ids_sorted(r@),
        r@.len() == v@.len(),
        forall|x: Id| r@.contains(x) <==> v@.contains(x),
{
    let mut r: Vec<Id> = Vec::new();
    let mut k: usize = 0;
    while k < v.len()
        invariant
            k <= v@.len(),
            ids_sorted(r@),
            r@.len() == k,
            forall|x: Id| r@.contains(x) <==> v@.subrange(0, k as int).contains(x),
        decreases v@.len() - k,
    {
        let x = v[k];
        let mut p: usize = 0;
        while p < r.len() && id_lt(&r[p], &x)
            invariant
                p <= r@.len(),
                p > 0 ==> lex_lt(r@[p - 1]@, x@),
            decreases r@.len() - p,
        {
            p += 1;
        }
        let ghost old_r = r@;
        assert(p == r@.len() || !lex_lt(r@[p as int]@, x@));
        r.insert(p, x);
        proof {
            assert(r@ == old_r.insert(p as int, x));
            assert forall|j: int| 0 <= j < r@.len() && j != p implies #[trigger] r@[j] == old_r[if j
                < p {
                j
            } else {
                j - 1
            }] by {}
            assert forall|i: int, j: int| 0 <= i && j == i + 1 && j < r@.len() implies !lex_lt(
                (#[trigger] r@[j])@,
                (#[trigger] r@[i])@,
            ) by {
                if i + 1 == p {
                    assert(r@[i] == old_r[i] && r@[i + 1] == x);
                    lemma_lex_lt_asymmetric(old_r[p - 1]@, x@);
                } else if i == p {
                    assert(r@[i + 1] == old_r[i] && r@[i] == x);
                    assert(!lex_lt(old_r[p as int]@, x@));
                } else if i + 1 < p {
                    assert(r@[i] == old_r[i] && r@[i + 1] == old_r[i + 1]);
                    assert(!lex_lt(old_r[i + 1]@, old_r[i]@));
                } else {
                    assert(r@[i] == old_r[i - 1] && r@[i + 1] == old_r[i]);
                    assert(!lex_lt(old_r[i]@, old_r[i - 1]@));
                }
            }
            let pre = v@.subrange(0, k as int + 1);
            assert(pre =~= v@.subrange(0, k as int).push(x));
            assert forall|y: Id| r@.contains(y) <==> pre.contains(y) by {
                if r@.contains(y) {
                    let j = choose|j: int| 0 <= j < r@.len() && r@[j] == y;
                    if j != p {
                        let j0 = if j < p {
                            j
                        } else {
                            j - 1
                        };
                        assert(old_r[j0] == y);
                        assert(old_r.contains(y));
                        let m = choose|m: int| 0 <= m < k && v@.subrange(0, k as int)[m] == y;
                        assert(pre[m] == y);
                    } else {
                        assert(pre[k as int] == y);
                    }
                }
                if pre.contains(y) {
                    let m = choose|m: int| 0 <= m < pre.len() && pre[m] == y;
                    if m == k {
                        assert(r@[p as int] == y);
                    } else {
                        assert(v@.subrange(0, k as int)[m] == y);
                        assert(old_r.contains(y));
                        let j = choose|j: int| 0 <= j < old_r.len() && old_r[j] == y;
                        let j1 = if j < p {
                            j
                        } else {
                            j + 1
                        };
                        assert(r@[j1] == y);
                    }
                }
            }
        }
        k += 1;
    }
    assert(v@.subrange(0, k as int) =~= v@);
    r
}

/// The proof of a storage audit that entitles a farmer to a block.
#[derive(Clone, Copy, Debug)]
pub struct Proof {
    pub randomness: [u8; 32],
    pub epoch: u64,
    pub timeslot: u64,
    pub public_key: PublicKey,
    pub tag: Tag,
    pub nonce: u64,
    pub piece_index: u64,
    pub solution_range: u64,
}

impl Proof {
    /// The canonical byte image of the proof.
    pub open spec fn spec_bytes(&self) -> Seq<u8> {
        self.randomness@ + le8(self.epoch) + le8(self.timeslot) + self.public_key@ + le8(self.tag)
            + le8(self.nonce) + le8(self.piece_index) + le8(self.solution_range)
    }

    pub open spec fn spec_id(&self) -> Seq<u8> {
        sha256_of(self.spec_bytes())
    }

    pub fn to_bytes(&self) -> (r: Vec<u8>)
        ensures
            r@ == self.spec_bytes(),
    {
        let mut out: Vec<u8> = Vec::new();
        push_bytes(&mut out, self.randomness.as_slice());
        push_u64(&mut out, self.epoch);
        push_u64(&mut out, self.timeslot);
        push_bytes(&mut out, self.public_key.as_slice());
        push_u64(&mut out, self.tag);
        push_u64(&mut out, self.nonce);
        push_u64(&mut out, self.piece_index);
        push_u64(&mut out, self.solution_range);
        assert(out@ =~= self.spec_bytes());
        out
    }

    /// The proof id: the SHA-256 of the proof's byte image.
    pub fn get_id(&self) -> (r: ProofId)
        ensures
            r@ == self.spec_id(),
    {
        let bytes = self.to_bytes();
        digest_sha_256(bytes.as_slice())
    }
}

/// The linkage and payload references of a block.
#[derive(Clone, Debug)]
pub struct Content {
    pub parent_id: ContentId,
    pub proof_id: ProofId,
    pub proof_signature: Vec<u8>,
    pub timestamp: u64,
    pub tx_ids: Vec<TxId>,
    pub signature: Vec<u8>,
}

impl Content {
    /// The byte image of the content without its own signature.
    pub open spec fn spec_unsigned_bytes(&self) -> Seq<u8> {
        self.parent_id@ + self.proof_id@ + with_len(self.proof_signature@) + le8(self.timestamp)
            + id_list(self.tx_ids@)
    }

    /// The full byte image of the content.
    pub open spec fn spec_bytes(&self) -> Seq<u8> {
        self.spec_unsigned_bytes() + with_len(self.signature@)
    }

    pub open spec fn spec_id(&self) -> Seq<u8> {
        sha256_of(self.spec_unsigned_bytes())
    }

    pub fn unsigned_bytes(&self) -> (r: Vec<u8>)
        ensures
            r@ == self.spec_unsigned_bytes(),
    {
        let mut out: Vec<u8> = Vec::new();
        push_bytes(&mut out, self.parent_id.as_slice());
        push_bytes(&mut out, self.proof_id.as_slice());
        push_with_len(&mut out, self.proof_signature.as_slice());
        push_u64(&mut out, self.timestamp);
        push_id_list(&mut out, &self.tx_ids);
        assert(out@ =~= self.spec_unsigned_bytes());
        out
    }

    pub fn to_bytes(&self) -> (r: Vec<u8>)
        ensures
            r@ == self.spec_bytes(),
    {
        let mut out = self.unsigned_bytes();
        push_with_len(&mut out, self.signature.as_slice());
        out
    }

    /// The content id: the SHA-256 of the content's image without its signature.
    pub fn get_id(&self) -> (r: ContentId)
        ensures
            r@ == self.spec_id(),
    {
        let bytes = self.unsigned_bytes();
        digest_sha_256(bytes.as_slice())
    }

    /// Equal field by field, the byte strings and lists by their contents.
    pub open spec fn equiv(&self, o: &Content) -> bool {
        &&& self.parent_id == o.parent_id
        &&& self.proof_id == o.proof_id
        &&& self.proof_signature@ == o.proof_signature@
        &&& self.timestamp == o.timestamp
        &&& self.tx_ids@ == o.tx_ids@
        &&& self.signature@ == o.signature@
    }

    pub fn duplicate(&self) -> (r: Self)
        ensures
            r.equiv(self),
    {
        Content {
            parent_id: self.parent_id,
            proof_id: self.proof_id,
            proof_signature: copy_bytes(&self.proof_signature),
            timestamp: self.timestamp,
            tx_ids: copy_ids(&self.tx_ids),
            signature: copy_bytes(&self.signature),
        }
    }
}

/// The encoding and Merkle proof carried by a block until it is staged.
#[derive(Clone, Debug)]
pub struct Data {
    pub encoding: Vec<u8>,
    pub merkle_proof: Vec<u8>,
}

impl Data {
    pub open spec fn spec_bytes(&self) -> Seq<u8> {
        with_len(self.encoding@) + with_len(self.merkle_proof@)
    }

    pub open spec fn equiv(&self, o: &Data) -> bool {
        self.encoding@ == o.encoding@ && self.merkle_proof@ == o.merkle_proof@
    }

    pub fn duplicate(&self) -> (r: Self)
        ensures
            r.equiv(self),
    {
        Data { encoding: copy_bytes(&self.encoding), merkle_proof: copy_bytes(&self.merkle_proof) }
    }
}

/// A transaction that pays the block reward to the block's farmer.
#[derive(Clone, Copy, Debug)]
pub struct CoinbaseTx {
    pub reward: u64,
    pub to_address: AccountAddress,
    pub proof_id: ProofId,
}

impl CoinbaseTx {
    pub fn new(reward: u64, to_address: AccountAddress, proof_id: ProofId) -> (r: Self)
        ensures
            r == (CoinbaseTx { reward, to_address, proof_id }),
    {
        CoinbaseTx { reward, to_address, proof_id }
    }

    pub open spec fn spec_bytes(&self) -> Seq<u8> {
        seq![0u8] + le8(self.reward) + self.to_address@ + self.proof_id@
    }

    pub open spec fn spec_id(&self) -> Seq<u8> {
        sha256_of(self.spec_bytes())
    }

    pub fn to_bytes(&self) -> (r: Vec<u8>)
        ensures
            r@ == self.spec_bytes(),
    {
        let mut out: Vec<u8> = Vec::new();
        out.push(0u8);
        push_u64(&mut out, self.reward);
        push_bytes(&mut out, self.to_address.as_slice());
        push_bytes(&mut out, self.proof_id.as_slice());
        assert(out@ =~= self.spec_bytes());
        out
    }

    /// The tx id: the SHA-256 of the transaction's image.
    pub fn get_id(&self) -> (r: TxId)
        ensures
            r@ == self.spec_id(),
    {
        let bytes = self.to_bytes();
        digest_sha_256(bytes.as_slice())
    }
}

/// A signed transfer of credits between two accounts.
#[derive(Clone, Debug)]
pub struct CreditTx {
    pub amount: u64,
    pub from_address: AccountAddress,
    pub to_address: AccountAddress,
    pub nonce: u64,
    pub signature: Vec<u8>,
}

impl CreditTx {
    /// The byte image of the transfer without its signature.
    pub open spec fn spec_unsigned_bytes(&self) -> Seq<u8> {
        seq![1u8] + le8(self.amount) + self.from_address@ + self.to_address@ + le8(self.nonce)
    }

    pub open spec fn spec_bytes(&self) -> Seq<u8> {
        self.spec_unsigned_bytes() + with_len(self.signature@)
    }

    pub open spec fn spec_id(&self) -> Seq<u8> {
        sha256_of(self.spec_unsigned_bytes())
    }

    pub fn unsigned_bytes(&self) -> (r: Vec<u8>)
        ensures
            r@ == self.spec_unsigned_bytes(),
    {
        let mut out: Vec<u8> = Vec::new();
        out.push(1u8);
        push_u64(&mut out, self.amount);
        push_bytes(&mut out, self.from_address.as_slice());
        push_bytes(&mut out, self.to_address.as_slice());
        push_u64(&mut out, self.nonce);
        assert(out@ =~= self.spec_unsigned_bytes());
        out
    }

    /// The tx id: the SHA-256 of the transfer's image without its signature.
    pub fn get_id(&self) -> (r: TxId)
        ensures
            r@ == self.spec_id(),
    {
        let bytes = self.unsigned_bytes();
        digest_sha_256(bytes.as_slice())
    }

    pub open spec fn equiv(&self, o: &CreditTx) -> bool {
        &&& self.amount == o.amount
        &&& self.from_address == o.from_address
        &&& self.to_address == o.to_address
        &&& self.nonce == o.nonce
        &&& self.signature@ == o.signature@
    }

    pub fn duplicate(&self) -> (r: Self)
        ensures
            r.equiv(self),
    {
        CreditTx {
            amount: self.amount,
            from_address: self.from_address,
            to_address: self.to_address,
            nonce: self.nonce,
            signature: copy_bytes(&self.signature),
        }
    }
}

/// A transaction: the reward of a block, or a transfer between accounts.
#[derive(Clone, Debug)]
pub enum Transaction {
    Coinbase(CoinbaseTx),
    Credit(CreditTx),
}

impl Transaction {
    pub open spec fn spec_bytes(&self) -> Seq<u8> {
        match self {
            Transaction::Coinbase(tx) => tx.spec_bytes(),
            Transaction::Credit(tx) => tx.spec_bytes(),
        }
    }

    pub open spec fn spec_id(&self) -> Seq<u8> {
        match self {
            Transaction::Coinbase(tx) => tx.spec_id(),
            Transaction::Credit(tx) => tx.spec_id(),
        }
    }

    pub fn to_bytes(&self) -> (r: Vec<u8>)
        ensures
            r@ == self.spec_bytes(),
    {
        match self {
            Transaction::Coinbase(tx) => tx.to_bytes(),
            Transaction::Credit(tx) => {
                let mut out = tx.unsigned_bytes();
                push_with_len(&mut out, tx.signature.as_slice());
                out
            },
        }
    }

    pub fn get_id(&self) -> (r: TxId)
        ensures
            r@ == self.spec_id(),
    {
        match self {
            Transaction::Coinbase(tx) => tx.get_id(),
            Transaction::Credit(tx) => tx.get_id(),
        }
    }

    pub open spec fn equiv(&self, o: &Transaction) -> bool {
        match (self, o) {
            (Transaction::Coinbase(a), Transaction::Coinbase(b)) => a == b,
            (Transaction::Credit(a), Transaction::Credit(b)) => a.equiv(b),
            _ => false,
        }
    }

    pub fn duplicate(&self) -> (r: Self)
        ensures
            r.equiv(self),
    {
        match self {
            Transaction::Coinbase(tx) => Transaction::Coinbase(*tx),
            Transaction::Credit(tx) => Transaction::Credit(tx.duplicate()),
        }
    }
}

/// A block: a proof, its coinbase transaction, its content and, until staged, its data.
#[derive(Clone, Debug)]
pub struct Block {
    pub proof: Proof,
    pub coinbase_tx: CoinbaseTx,
    pub content: Content,
    pub data: Option<Data>,
}

impl Block {
    pub open spec fn spec_bytes(&self) -> Seq<u8> {
        self.proof.spec_bytes() + self.coinbase_tx.spec_bytes() + self.content.spec_bytes()
            + match self.data {
            None => seq![0u8],
            Some(d) => seq![1u8] + d.spec_bytes(),
        }
    }

    /// The block id: the SHA-256 of the proof id followed by the content id.
    pub open spec fn spec_id(&self) -> Seq<u8> {
        sha256_of(self.proof.spec_id() + self.content.spec_id())
    }

    pub fn to_bytes(&self) -> (r: Vec<u8>)
        ensures
            r@ == self.spec_bytes(),
    {
        let mut out = self.proof.to_bytes();
        let tx = self.coinbase_tx.to_bytes();
        push_bytes(&mut out, tx.as_slice());
        let content = self.content.to_bytes();
        push_bytes(&mut out, content.as_slice());
        match &self.data {
            None => {
                out.push(0u8);
            },
            Some(d) => {
                out.push(1u8);
                push_with_len(&mut out, d.encoding.as_slice());
                push_with_len(&mut out, d.merkle_proof.as_slice());
            },
        }
        assert(out@ =~= self.spec_bytes());
        out
    }

    pub fn get_id(&self) -> (r: Id)
        ensures
            r@ == self.spec_id(),
    {
        let proof_id = self.proof.get_id();
        let content_id = self.content.get_id();
        let mut bytes: Vec<u8> = Vec::new();
        push_bytes(&mut bytes, proof_id.as_slice());
        push_bytes(&mut bytes, content_id.as_slice());
        assert(bytes@ =~= self.proof.spec_id() + self.content.spec_id());
        digest_sha_256(bytes.as_slice())
    }

    /// The block without its data, as it is kept once staged.
    pub open spec fn spec_pruned(&self) -> Block {
        Block { data: None, ..*self }
    }

    /// Removes the encoding and Merkle proof from the block.
    pub fn prune(&mut self)
        ensures
            *final(self) == old(self).spec_pruned(),
    {
        self.data = None;
    }

    /// Equal field by field, the content and data by `equiv`.
    pub open spec fn equiv(&self, o: &Block) -> bool {
        &&& self.proof == o.proof
        &&& self.coinbase_tx == o.coinbase_tx
        &&& self.content.equiv(&o.content)
        &&& match (self.data, o.data) {
            (None, None) => true,
            (Some(a), Some(b)) => a.equiv(&b),
            _ => false,
        }
    }

    pub fn duplicate(&self) -> (r: Self)
        ensures
            r.equiv(self),
    {
        let data = match &self.data {
            None => None,
            Some(d) => Some(d.duplicate()),
        };
        Block {
            proof: self.proof,
            coinbase_tx: self.coinbase_tx,
            content: self.content.duplicate(),
            data,
        }
    }

    /// The checks a block must pass against its epoch's randomness and its
    /// timeslot's challenge: both signatures by the proof's key, a coinbase that
    /// pays the block reward to that key for this proof, the proof's randomness,
    /// a tag that is the HMAC of the encoding under the nonce, and a tag within
    /// half the solution range of the challenge.
    pub open spec fn spec_is_valid(&self, randomness: [u8; 32], challenge: [u8; 32]) -> bool {
        &&& signature_valid(
            self.proof.public_key@,
            self.proof.spec_id(),
            self.content.proof_signature@,
        )
        &&& signature_valid(self.proof.public_key@, self.content.spec_id(), self.content.signature@)
        &&& self.content.proof_id@ == self.proof.spec_id()
        &&& self.coinbase_tx.reward == BLOCK_REWARD
        &&& self.coinbase_tx.to_address == self.proof.public_key
        &&& self.coinbase_tx.proof_id@ == self.proof.spec_id()
        &&& self.proof.randomness == randomness
        &&& self.data matches Some(d) && self.proof.tag as nat == tag_of(d.encoding@, self.proof.nonce)
        &&& in_solution_range(self.proof.tag, be_u64_of(challenge@) as u64, self.proof.solution_range)
    }

    pub fn is_valid(&self, randomness: &[u8; 32], challenge: &[u8; 32]) -> (r: bool)
        ensures
            r == self.spec_is_valid(*randomness, *challenge),
    {
        let proof_id = self.proof.get_id();
        let content_id = self.content.get_id();
        if !verify_signature(&self.proof.public_key, proof_id.as_slice(), self.content.proof_signature.as_slice()) {
            return false;
        }
        if !verify_signature(&self.proof.public_key, content_id.as_slice(), self.content.signature.as_slice()) {
            return false;
        }
        if !ids_equal(&self.content.proof_id, &proof_id) {
            proof {
                if self.content.proof_id@ == proof_id@ {
                    vstd::array::axiom_array_ext_equal(self.content.proof_id, proof_id);
                }
            }
            return false;
        }
        if self.coinbase_tx.reward != BLOCK_REWARD || !ids_equal(&self.coinbase_tx.to_address, &self.proof.public_key) {
            return false;
        }
        if !ids_equal(&self.coinbase_tx.proof_id, &proof_id) {
            proof {
                if self.coinbase_tx.proof_id@ == proof_id@ {
                    vstd::array::axiom_array_ext_equal(self.coinbase_tx.proof_id, proof_id);
                }
            }
            return false;
        }
        if !ids_equal(&self.proof.randomness, randomness) {
            return false;
        }
        let tag_ok = match &self.data {
            None => false,
            Some(d) => compute_tag(d.encoding.as_slice(), self.proof.nonce) == self.proof.tag,
        };
        if !tag_ok {
            return false;
        }
        let target = be_u64(challenge.as_slice());
        crate::plot::is_in_solution_range(self.proof.tag, target, self.proof.solution_range)
    }
}

} // verus!
