use crate::block::{copy_ids, ids_equal, Block};
use crate::{BlockId, ContentId, NodeError, ProofId};
use vstd::prelude::*;

verus! {

/// A staged block with its identifiers, its children and its height.
#[derive(Clone, Debug)]
pub struct MetaBlock {
    pub block: Block,
    pub block_id: BlockId,
    pub proof_id: ProofId,
    pub content_id: ContentId,
    pub children: Vec<ProofId>,
    pub height: u64,
}

impl MetaBlock {
    pub open spec fn equiv(&self, o: &MetaBlock) -> bool {
        &&& self.block.equiv(&o.block)
        &&& self.block_id == o.block_id
        &&& self.proof_id == o.proof_id
        &&& self.content_id == o.content_id
        &&& self.children@ == o.children@
        &&& self.height == o.height
    }

    /// The identifiers are those of the block.
    pub open spec fn ids_match(&self) -> bool {
        &&& self.proof_id@ == self.block.proof.spec_id()
        &&& self.content_id@ == self.block.content.spec_id()
        &&& self.block_id@ == self.block.spec_id()
    }

    pub fn duplicate(&self) -> (r: Self)
        ensures
            r.equiv(self),
    {
        MetaBlock {
            block: self.block.duplicate(),
            block_id: self.block_id,
            proof_id: self.proof_id,
            content_id: self.content_id,
            children: copy_ids(&self.children),
            height: self.height,
        }
    }
}

/// The registry of staged blocks, keyed by proof id.
pub struct MetaBlocks {
    pub blocks: Vec<MetaBlock>,
}

/// The index of the first entry whose content id is `cid`, if any.
pub open spec fn first_with_content(s: Seq<MetaBlock>, cid: ContentId) -> Option<int>
    decreases s.len(),
{
    if s.len() == 0 {
        None
    } else {
        match first_with_content(s.drop_last(), cid) {
            Some(i) => Some(i),
            None => if s.last().content_id == cid {
                Some(s.len() - 1)
            } else {
                None
            },
        }
    }
}

pub proof fn lemma_first_with_content(s: Seq<MetaBlock>, cid: ContentId)
    ensures
        match first_with_content(s, cid) {
            Some(i) => 0 <= i < s.len() && s[i].content_id == cid && forall|j: int|
                0 <= j < i ==> s[j].content_id != cid,
            None => forall|j: int| 0 <= j < s.len() ==> s[j].content_id != cid,
        },
    decreases s.len(),
{
    if s.len() > 0 {
        lemma_first_with_content(s.drop_last(), cid);
        assert(forall|j: int| 0 <= j < s.len() - 1 ==> s.drop_last()[j] == s[j]);
    }
}

impl MetaBlocks {
    /// Proof ids are unique and each entry's identifiers are those of its block.
    pub open spec fn wf(&self) -> bool {
        &&& forall|i: int, j: int|
            0 <= i < j < self.blocks@.len() ==> self.blocks@[i].proof_id
                != self.blocks@[j].proof_id
        &&& forall|i: int| 0 <= i < self.blocks@.len() ==> (#[trigger] self.blocks@[i]).ids_match()
    }

    pub open spec fn has_proof(&self, proof_id: ProofId) -> bool {
        exists|i: int| 0 <= i < self.blocks@.len() && self.blocks@[i].proof_id == proof_id
    }

    pub open spec fn has_content(&self, content_id: ContentId) -> bool {
        exists|i: int| 0 <= i < self.blocks@.len() && self.blocks@[i].content_id == content_id
    }

    /// The entry that holds `content_id`: the first one, if several do.
    pub open spec fn content_index(&self, content_id: ContentId) -> Option<int> {
        first_with_content(self.blocks@, content_id)
    }

    /// Every staged block has its parent staged, unless it is a genesis block.
    pub open spec fn parents_present(&self) -> bool {
        forall|i: int|
            0 <= i < self.blocks@.len() ==> (#[trigger] self.blocks@[i]).block.proof.timeslot == 0
                || self.has_content(self.blocks@[i].block.content.parent_id)
    }

    pub fn new() -> (r: Self)
        ensures
            r.blocks@.len() == 0,
            r.wf(),
    {
        MetaBlocks { blocks: Vec::new() }
    }

    pub fn contains_key(&self, proof_id: &ProofId) -> (r: bool)
        ensures
            r == self.has_proof(*proof_id),
    {
        self.index_of_proof(proof_id).is_some()
    }

    /// The position of the entry with this proof id.
    pub fn index_of_proof(&self, proof_id: &ProofId) -> (r: Option<usize>)
        ensures
            match r {
                Some(i) => i < self.blocks@.len() && self.blocks@[i as int].proof_id == *proof_id,
                None => !self.has_proof(*proof_id),
            },
    {
        let mut i: usize = 0;
        while i < self.blocks.len()
            invariant
                i <= self.blocks@.len(),
                forall|j: int| 0 <= j < i ==> self.blocks@[j].proof_id != *proof_id,
            decreases self.blocks@.len() - i,
        {
            if ids_equal(&self.blocks[i].proof_id, proof_id) {
                return Some(i);
            }
            i += 1;
        }
        None
    }

    /// The position of the first entry with this content id.
    pub fn index_of_content(&self, content_id: &ContentId) -> (r: Option<usize>)
        ensures
            r matches Some(i) ==> self.content_index(*content_id) == Some(i as int) && i
                < self.blocks@.len() && self.blocks@[i as int].content_id == *content_id,
            r is None ==> self.content_index(*content_id) is None,
            r is Some <==> self.has_content(*content_id),
    {
        proof {
            lemma_first_with_content(self.blocks@, *content_id);
        }
        let mut i: usize = 0;
        while i < self.blocks.len()
            invariant
                i <= self.blocks@.len(),
                forall|j: int| 0 <= j < i ==> self.blocks@[j].content_id != *content_id,
                match first_with_content(self.blocks@, *content_id) {
                    Some(k) => 0 <= k < self.blocks@.len() && self.blocks@[k].content_id
                        == *content_id && forall|j: int|
                        0 <= j < k ==> self.blocks@[j].content_id != *content_id,
                    None => forall|j: int|
                        0 <= j < self.blocks@.len() ==> self.blocks@[j].content_id != *content_id,
                },
            decreases self.blocks@.len() - i,
        {
            if ids_equal(&self.blocks[i].content_id, content_id) {
                return Some(i);
            }
            i += 1;
        }
        None
    }

    /// The proof id of the block with this content id, if one is staged.
    pub fn get_proof_id_from_content_id(&self, content_id: ContentId) -> (r: Option<ProofId>)
        ensures
            r is Some <==> self.has_content(content_id),
            r matches Some(p) ==> (self.content_index(content_id) matches Some(i) && 0 <= i
                < self.blocks@.len() && self.blocks@[i].proof_id == p),
    {
        match self.index_of_content(&content_id) {
            Some(i) => Some(self.blocks[i].proof_id),
            None => None,
        }
    }

    /// Some entry holds the proof id whose bytes are `pid`.
    pub open spec fn has_proof_bytes(&self, pid: Seq<u8>) -> bool {
        exists|i: int| 0 <= i < self.blocks@.len() && self.blocks@[i].proof_id@ == pid
    }

    /// Some entry holds the proof id `pid` with a block id other than `bid`.
    pub open spec fn conflicts(&self, pid: Seq<u8>, bid: Seq<u8>) -> bool {
        exists|i: int|
            0 <= i < self.blocks@.len() && self.blocks@[i].proof_id@ == pid
                && self.blocks@[i].block_id@ != bid
    }

    /// Stages a block under its parent: the block is recorded with its
    /// identifiers and with a height one above its parent's (zero for a genesis
    /// block, whose timeslot is zero), and becomes a child of the parent.
    pub fn save(&mut self, block: Block) -> (r: Result<MetaBlock, NodeError>)
        requires
            old(self).wf(),
        ensures
            final(self).wf(),
            old(self).parents_present() ==> final(self).parents_present(),
            r == Err::<MetaBlock, NodeError>(NodeError::ProofFault) <==> old(self).conflicts(
                block.proof.spec_id(),
                block.spec_id(),
            ),
            r == Err::<MetaBlock, NodeError>(NodeError::DuplicateProof) <==> (old(self).has_proof_bytes(block.proof.spec_id()) && !old(self).conflicts(
                block.proof.spec_id(),
                block.spec_id(),
            )),
            r == Err::<MetaBlock, NodeError>(NodeError::UnknownParent) <==> (!old(self).has_proof_bytes(block.proof.spec_id()) && block.proof.timeslot != 0 && !old(self).has_content(block.content.parent_id)),
            r == Err::<MetaBlock, NodeError>(NodeError::ConsistencyViolation) <==> (!old(self).has_proof_bytes(block.proof.spec_id()) && block.proof.timeslot != 0 && (old(self).content_index(block.content.parent_id) matches Some(p) && old(self).blocks@[p].height
                == u64::MAX)),
            r is Err ==> *final(self) == *old(self),
            r matches Err(e) ==> e == NodeError::ProofFault || e == NodeError::DuplicateProof || e
                == NodeError::UnknownParent || e == NodeError::ConsistencyViolation,
            r matches Ok(mb) ==> {
                &&& mb.block.equiv(&block)
                &&& mb.ids_match()
                &&& mb.children@.len() == 0
                &&& final(self).blocks@.len() == old(self).blocks@.len() + 1
                &&& final(self).blocks@.last().equiv(&mb)
                &&& block.proof.timeslot == 0 ==> mb.height == 0 && forall|j: int|
                    0 <= j < old(self).blocks@.len() ==> final(self).blocks@[j] == old(self).blocks@[j]
                &&& block.proof.timeslot != 0 ==> (old(self).content_index(
                    block.content.parent_id,
                ) matches Some(p) && {
                    &&& mb.height == old(self).blocks@[p].height + 1
                    &&& final(self).blocks@[p].children@ == old(self).blocks@[p].children@.push(
                        mb.proof_id,
                    )
                    &&& final(self).blocks@[p].block == old(self).blocks@[p].block
                    &&& final(self).blocks@[p].proof_id == old(self).blocks@[p].proof_id
                    &&& final(self).blocks@[p].content_id == old(self).blocks@[p].content_id
                    &&& final(self).blocks@[p].block_id == old(self).blocks@[p].block_id
                    &&& final(self).blocks@[p].height == old(self).blocks@[p].height
                    &&& forall|j: int|
                        0 <= j < old(self).blocks@.len() && j != p ==> final(self).blocks@[j]
                            == old(self).blocks@[j]
                })
            },
    {
        let block_id = block.get_id();
        let proof_id = block.proof.get_id();
        let content_id = block.content.get_id();
        match self.index_of_proof(&proof_id) {
            Some(i) => {
                proof {
                    assert(self.has_proof_bytes(block.proof.spec_id()));
                }
                if ids_equal(&self.blocks[i].block_id, &block_id) {
                    proof {
                        assert forall|k: int|
                            0 <= k < self.blocks@.len() && self.blocks@[k].proof_id@
                                == block.proof.spec_id() implies self.blocks@[k].block_id@
                            == block.spec_id() by {
                            vstd::array::axiom_array_ext_equal(self.blocks@[k].proof_id, proof_id);
                        }
                    }
                    return Err(NodeError::DuplicateProof);
                } else {
                    proof {
                        if self.blocks@[i as int].block_id@ == block_id@ {
                            vstd::array::axiom_array_ext_equal(
                                self.blocks@[i as int].block_id,
                                block_id,
                            );
                        }
                        assert(self.blocks@[i as int].proof_id@ == block.proof.spec_id());
                        assert(self.conflicts(block.proof.spec_id(), block.spec_id()));
                    }
                    return Err(NodeError::ProofFault);
                }
            },
            None => {},
        }
        proof {
            assert forall|k: int|
                0 <= k < self.blocks@.len() implies self.blocks@[k].proof_id@
                != block.proof.spec_id() by {
                if self.blocks@[k].proof_id@ == block.proof.spec_id() {
                    vstd::array::axiom_array_ext_equal(self.blocks@[k].proof_id, proof_id);
                }
            }
        }
        let ghost old_blocks = self.blocks@;
        let mut height: u64 = 0;
        if block.proof.timeslot != 0 {
            match self.index_of_content(&block.content.parent_id) {
                None => {
                    return Err(NodeError::UnknownParent);
                },
                Some(p) => {
                    if self.blocks[p].height == u64::MAX {
                        return Err(NodeError::ConsistencyViolation);
                    }
                    height = self.blocks[p].height + 1;
                    let mut parent = self.blocks.remove(p);
                    parent.children.push(proof_id);
                    self.blocks.insert(p, parent);
                    proof {
                        assert forall|j: int| 0 <= j < old_blocks.len() && j != p implies
                            self.blocks@[j] == old_blocks[j] by {}
                        assert(self.blocks@[p as int].block == old_blocks[p as int].block);
                    }
                },
            }
        }
        let ghost mid = self.blocks@;
        let metablock = MetaBlock {
            block,
            block_id,
            proof_id,
            content_id,
            children: Vec::new(),
            height,
        };
        let r = metablock.duplicate();
        self.blocks.push(metablock);
        proof {
            assert forall|j: int| 0 <= j < mid.len() implies self.blocks@[j] == mid[j] by {}
            assert forall|j: int| 0 <= j < old_blocks.len() implies
                self.blocks@[j].content_id == old_blocks[j].content_id
                && self.blocks@[j].proof_id == old_blocks[j].proof_id
                && self.blocks@[j].block == old_blocks[j].block by {}
            assert forall|i: int| 0 <= i < self.blocks@.len() implies (
            #[trigger] self.blocks@[i]).ids_match() by {
                if i < old_blocks.len() {
                    assert(old_blocks[i].ids_match());
                }
            }
            assert forall|i: int, j: int|
                0 <= i < j < self.blocks@.len() implies self.blocks@[i].proof_id
                != self.blocks@[j].proof_id by {
                if j == old_blocks.len() {
                    assert(self.blocks@[i].proof_id@ != block.proof.spec_id());
                } else {
                    assert(old_blocks[i].proof_id != old_blocks[j].proof_id);
                }
            }
            if old(self).parents_present() {
                assert forall|i: int| 0 <= i < self.blocks@.len() implies (
                #[trigger] self.blocks@[i]).block.proof.timeslot == 0 || self.has_content(
                    self.blocks@[i].block.content.parent_id,
                ) by {
                    let q = if i < old_blocks.len() {
                        self.blocks@[i].block.content.parent_id
                    } else {
                        block.content.parent_id
                    };
                    if self.blocks@[i].block.proof.timeslot != 0 {
                        if i < old_blocks.len() {
                            assert(old(self).blocks@[i].block.proof.timeslot != 0);
                            assert(old(self).has_content(q));
                            let k = choose|k: int|
                                0 <= k < old_blocks.len() && old_blocks[k].content_id == q;
                            assert(self.blocks@[k].content_id == q);
                        } else {
                            lemma_first_with_content(old_blocks, q);
                            let k = old(self).content_index(q)->Some_0;
                            assert(self.blocks@[k].content_id == q);
                        }
                    }
                }
            }
        }
        Ok(r)
    }

    /// Removes the entry with this proof id and returns it.
    pub fn remove(&mut self, proof_id: &ProofId) -> (r: Option<MetaBlock>)
        requires
            old(self).wf(),
        ensures
            final(self).wf(),
            match r {
                Some(mb) => exists|i: int|
                    0 <= i < old(self).blocks@.len() && old(self).blocks@[i] == mb && mb.proof_id
                        == *proof_id && final(self).blocks@ == old(self).blocks@.remove(i),
                None => !old(self).has_proof(*proof_id) && *final(self) == *old(self),
            },
            !final(self).has_proof(*proof_id),
            forall|p: ProofId| !old(self).has_proof(p) ==> !final(self).has_proof(p),
    {
        match self.index_of_proof(proof_id) {
            Some(i) => {
                let ghost s = self.blocks@;
                let mb = self.blocks.remove(i);
                proof {
                    assert forall|j: int| 0 <= j < self.blocks@.len() implies #[trigger] self.blocks@[j]
                        == s[if j < i {
                        j
                    } else {
                        j + 1
                    }] by {}
                    assert forall|a: int, b: int|
                        0 <= a < b < self.blocks@.len() implies self.blocks@[a].proof_id
                        != self.blocks@[b].proof_id by {
                        let a1 = if a < i {
                            a
                        } else {
                            a + 1
                        };
                        let b1 = if b < i {
                            b
                        } else {
                            b + 1
                        };
                        assert(self.blocks@[a] == s[a1] && self.blocks@[b] == s[b1]);
                    }
                    assert forall|a: int| 0 <= a < self.blocks@.len() implies (
                    #[trigger] self.blocks@[a]).ids_match() by {
                        let a1 = if a < i {
                            a
                        } else {
                            a + 1
                        };
                        assert(self.blocks@[a] == s[a1]);
                    }
                    assert forall|a: int| 0 <= a < self.blocks@.len() implies self.blocks@[a].proof_id
                        != *proof_id by {
                        let a1 = if a < i {
                            a
                        } else {
                            a + 1
                        };
                        assert(self.blocks@[a] == s[a1]);
                        assert(a1 != i);
                    }
                }
                Some(mb)
            },
            None => {
                None
            },
        }
    }
}

} // verus!
