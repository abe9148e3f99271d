//! Blocks and the block store: the finalized blocks in order of height, and
//! what they tell of each element's history.

use vstd::prelude::*;
use crate::element::Element;
use crate::utxo::{BlockHeight, UtxoProof};

verus! {

/// A finalized block: its place in the chain, the proofs it includes in
/// order, the root hash of the tree after it, and its own hash.
#[derive(Debug)]
pub struct Block {
    pub height: BlockHeight,
    pub prev_hash: Element,
    pub txns: Vec<UtxoProof>,
    pub root_hash: Element,
    pub hash: Element,
}

/// When an element entered the tree and when it left it, as far as it did.
#[derive(Clone, Copy, Debug, PartialEq, Eq, Structural)]
pub struct ElementHistory {
    pub insertion_block: Option<BlockHeight>,
    pub removal_block: Option<BlockHeight>,
}

/// The input slots of the proofs, in order, padding included.
pub open spec fn all_input_slots(txns: Seq<UtxoProof>) -> Seq<Element>
    decreases txns.len(),
{
    if txns.len() == 0 {
        Seq::empty()
    } else {
        all_input_slots(txns.drop_last()) + txns.last().input_slots()
    }
}

/// The output slots of the proofs, in order, padding included.
pub open spec fn all_output_slots(txns: Seq<UtxoProof>) -> Seq<Element>
    decreases txns.len(),
{
    if txns.len() == 0 {
        Seq::empty()
    } else {
        all_output_slots(txns.drop_last()) + txns.last().output_slots()
    }
}

/// Whether one of the proofs spends `e`.
pub open spec fn txns_consume(txns: Seq<UtxoProof>, e: Element) -> bool {
    e@ != 0 && exists|k: int| 0 <= k < txns.len() && (#[trigger] txns[k]).input_slots().contains(e)
}

/// Whether one of the proofs creates `e`.
pub open spec fn txns_create(txns: Seq<UtxoProof>, e: Element) -> bool {
    e@ != 0 && exists|k: int| 0 <= k < txns.len() && (#[trigger] txns[k]).output_slots().contains(e)
}

/// The flat list of input slots holds each proof's two slots at the places
/// that its position gives, and nothing else.
pub proof fn lemma_all_input_slots(txns: Seq<UtxoProof>)
    ensures
        all_input_slots(txns).len() == 2 * txns.len(),
        forall|k: int, s: int|
            0 <= k < txns.len() && 0 <= s < 2 ==> all_input_slots(txns)[2 * k + s] == #[trigger] txns[k].input_slots()[s],
    decreases txns.len(),
{
    broadcast use vstd::array::group_array_axioms;

    if txns.len() > 0 {
        lemma_all_input_slots(txns.drop_last());
        assert(txns.last().input_slots().len() == 2);
        assert forall|k: int, s: int| 0 <= k < txns.len() && 0 <= s < 2 implies all_input_slots(txns)[2 * k
            + s] == #[trigger] txns[k].input_slots()[s] by {
            if k < txns.len() - 1 {
                assert(txns.drop_last()[k] == txns[k]);
            }
        }
    }
}

/// The flat list of output slots holds each proof's two slots at the places
/// that its position gives, and nothing else.
pub proof fn lemma_all_output_slots(txns: Seq<UtxoProof>)
    ensures
        all_output_slots(txns).len() == 2 * txns.len(),
        forall|k: int, s: int|
            0 <= k < txns.len() && 0 <= s < 2 ==> all_output_slots(txns)[2 * k + s] == #[trigger] txns[k].output_slots()[s],
    decreases txns.len(),
{
    broadcast use vstd::array::group_array_axioms;

    if txns.len() > 0 {
        lemma_all_output_slots(txns.drop_last());
        assert(txns.last().output_slots().len() == 2);
        assert forall|k: int, s: int| 0 <= k < txns.len() && 0 <= s < 2 implies all_output_slots(txns)[2 * k
            + s] == #[trigger] txns[k].output_slots()[s] by {
            if k < txns.len() - 1 {
                assert(txns.drop_last()[k] == txns[k]);
            }
        }
    }
}

/// An element that is not padding is spent by one of the proofs exactly when
/// it stands in the flat list of input slots.
pub proof fn lemma_consume_is_in_slots(txns: Seq<UtxoProof>, e: Element)
    ensures
        txns_consume(txns, e) <==> (e@ != 0 && all_input_slots(txns).contains(e)),
{
    broadcast use vstd::array::group_array_axioms;

    lemma_all_input_slots(txns);
    let flat = all_input_slots(txns);
    if txns_consume(txns, e) {
        let k = choose|k: int| 0 <= k < txns.len() && (#[trigger] txns[k]).input_slots().contains(e);
        let s = choose|s: int| 0 <= s < txns[k].input_slots().len() && txns[k].input_slots()[s] == e;
        assert(flat[2 * k + s] == e);
    }
    if e@ != 0 && flat.contains(e) {
        let i = choose|i: int| 0 <= i < flat.len() && flat[i] == e;
        let k = i / 2;
        let s = i % 2;
        assert(flat[2 * k + s] == txns[k].input_slots()[s]);
        assert(txns[k].input_slots().contains(e));
    }
}

/// An element that is not padding is created by one of the proofs exactly
/// when it stands in the flat list of output slots.
pub proof fn lemma_create_is_in_slots(txns: Seq<UtxoProof>, e: Element)
    ensures
        txns_create(txns, e) <==> (e@ != 0 && all_output_slots(txns).contains(e)),
{
    broadcast use vstd::array::group_array_axioms;

    lemma_all_output_slots(txns);
    let flat = all_output_slots(txns);
    if txns_create(txns, e) {
        let k = choose|k: int| 0 <= k < txns.len() && (#[trigger] txns[k]).output_slots().contains(e);
        let s = choose|s: int| 0 <= s < txns[k].output_slots().len() && txns[k].output_slots()[s] == e;
        assert(flat[2 * k + s] == e);
    }
    if e@ != 0 && flat.contains(e) {
        let i = choose|i: int| 0 <= i < flat.len() && flat[i] == e;
        let k = i / 2;
        let s = i % 2;
        assert(flat[2 * k + s] == txns[k].output_slots()[s]);
        assert(txns[k].output_slots().contains(e));
    }
}

impl Block {
    /// Whether a proof of this block spends `e`.
    pub open spec fn consumes(&self, e: Element) -> bool {
        txns_consume(self.txns@, e)
    }

    /// Whether a proof of this block creates `e`.
    pub open spec fn creates(&self, e: Element) -> bool {
        txns_create(self.txns@, e)
    }

    /// The height of this block.
    pub fn block_height(&self) -> (h: BlockHeight)
        ensures
            h == self.height,
    {
        self.height
    }

    /// The input slots of all proofs of this block, in order.
    pub fn input_list(&self) -> (v: Vec<Element>)
        ensures
            v@ == all_input_slots(self.txns@),
    {
        broadcast use vstd::array::group_array_axioms;

        let mut v: Vec<Element> = Vec::new();
        let mut k: usize = 0;
        while k < self.txns.len()
            invariant
                k <= self.txns.len(),
                v@ == all_input_slots(self.txns@.take(k as int)),
            decreases self.txns.len() - k,
        {
            let txn = &self.txns[k];
            proof {
                assert(self.txns@.take(k as int + 1).drop_last() == self.txns@.take(k as int));
                assert(self.txns@.take(k as int + 1).last() == *txn);
            }
            let ghost before = v@;
            v.push(txn.public_inputs.input_commitments[0]);
            v.push(txn.public_inputs.input_commitments[1]);
            assert(v@ == before + txn.input_slots());
            k += 1;
        }
        assert(self.txns@.take(k as int) == self.txns@);
        v
    }

    /// The output slots of all proofs of this block, in order.
    pub fn output_list(&self) -> (v: Vec<Element>)
        ensures
            v@ == all_output_slots(self.txns@),
    {
        broadcast use vstd::array::group_array_axioms;

        let mut v: Vec<Element> = Vec::new();
        let mut k: usize = 0;
        while k < self.txns.len()
            invariant
                k <= self.txns.len(),
                v@ == all_output_slots(self.txns@.take(k as int)),
            decreases self.txns.len() - k,
        {
            let txn = &self.txns[k];
            proof {
                assert(self.txns@.take(k as int + 1).drop_last() == self.txns@.take(k as int));
                assert(self.txns@.take(k as int + 1).last() == *txn);
            }
            let ghost before = v@;
            v.push(txn.public_inputs.output_commitments[0]);
            v.push(txn.public_inputs.output_commitments[1]);
            assert(v@ == before + txn.output_slots());
            k += 1;
        }
        assert(self.txns@.take(k as int) == self.txns@);
        v
    }

    /// Whether a proof of this block spends `e`.
    pub fn spends(&self, e: &Element) -> (b: bool)
        ensures
            b == self.consumes(*e),
    {
        broadcast use vstd::array::group_array_axioms;

        if e.is_zero() {
            return false;
        }
        let mut k: usize = 0;
        while k < self.txns.len()
            invariant
                k <= self.txns.len(),
                e@ != 0,
                forall|i: int| 0 <= i < k ==> !(#[trigger] self.txns@[i]).input_slots().contains(*e),
            decreases self.txns.len() - k,
        {
            let ins = &self.txns[k].public_inputs.input_commitments;
            if ins[0] == *e || ins[1] == *e {
                proof {
                    let slots = self.txns@[k as int].input_slots();
                    assert(slots[0] == *e || slots[1] == *e);
                }
                return true;
            }
            k += 1;
        }
        false
    }

    /// Whether a proof of this block creates `e`.
    pub fn makes(&self, e: &Element) -> (b: bool)
        ensures
            b == self.creates(*e),
    {
        broadcast use vstd::array::group_array_axioms;

        if e.is_zero() {
            return false;
        }
        let mut k: usize = 0;
        while k < self.txns.len()
            invariant
                k <= self.txns.len(),
                e@ != 0,
                forall|i: int| 0 <= i < k ==> !(#[trigger] self.txns@[i]).output_slots().contains(*e),
            decreases self.txns.len() - k,
        {
            let outs = &self.txns[k].public_inputs.output_commitments;
            if outs[0] == *e || outs[1] == *e {
                proof {
                    let slots = self.txns@[k as int].output_slots();
                    assert(slots[0] == *e || slots[1] == *e);
                }
                return true;
            }
            k += 1;
        }
        false
    }

    /// The first proof of this block that holds `e` in any slot, with its
    /// position.
    pub fn find_txn(&self, e: &Element) -> (found: Option<usize>)
        ensures
            match found {
                Some(k) => {
                    &&& k < self.txns@.len()
                    &&& self.txns@[k as int].mentions(*e)
                    &&& forall|i: int| 0 <= i < k ==> !(#[trigger] self.txns@[i]).mentions(*e)
                },
                None => forall|i: int| 0 <= i < self.txns@.len() ==> !(#[trigger] self.txns@[i]).mentions(*e),
            },
    {
        let mut k: usize = 0;
        while k < self.txns.len()
            invariant
                k <= self.txns.len(),
                forall|i: int| 0 <= i < k ==> !(#[trigger] self.txns@[i]).mentions(*e),
            decreases self.txns.len() - k,
        {
            if self.txns[k].has_commitment(e) {
                return Some(k);
            }
            k += 1;
        }
        None
    }
}

/// The height of the first of the blocks that creates `e`.
pub open spec fn inserted_at(blocks: Seq<Block>, e: Element) -> Option<BlockHeight>
    decreases blocks.len(),
{
    if blocks.len() == 0 {
        None
    } else {
        match inserted_at(blocks.drop_last(), e) {
            Some(h) => Some(h),
            None => if blocks.last().creates(e) {
                Some(blocks.last().height)
            } else {
                None
            },
        }
    }
}

/// The height of the last of the blocks that spends `e`.
pub open spec fn removed_at(blocks: Seq<Block>, e: Element) -> Option<BlockHeight>
    decreases blocks.len(),
{
    if blocks.len() == 0 {
        None
    } else if blocks.last().consumes(e) {
        Some(blocks.last().height)
    } else {
        removed_at(blocks.drop_last(), e)
    }
}

/// An element has an insertion block exactly when some block creates it, and
/// that block is then the first one that does.
pub proof fn lemma_inserted_at(blocks: Seq<Block>, e: Element)
    ensures
        inserted_at(blocks, e) is None <==> forall|i: int|
            0 <= i < blocks.len() ==> !(#[trigger] blocks[i]).creates(e),
        inserted_at(blocks, e) is Some ==> exists|i: int|
            {
                &&& 0 <= i < blocks.len()
                &&& (#[trigger] blocks[i]).creates(e)
                &&& inserted_at(blocks, e) == Some(blocks[i].height)
                &&& forall|j: int| 0 <= j < i ==> !(#[trigger] blocks[j]).creates(e)
            },
    decreases blocks.len(),
{
    if blocks.len() > 0 {
        let front = blocks.drop_last();
        let n = blocks.len() - 1;
        lemma_inserted_at(front, e);
        assert forall|i: int| 0 <= i < n implies front[i] == blocks[i] by {}
        assert(blocks[n] == blocks.last());
        if inserted_at(front, e) is Some {
            let i = choose|i: int|
                {
                    &&& 0 <= i < front.len()
                    &&& (#[trigger] front[i]).creates(e)
                    &&& inserted_at(front, e) == Some(front[i].height)
                    &&& forall|j: int| 0 <= j < i ==> !(#[trigger] front[j]).creates(e)
                };
            assert(blocks[i].creates(e));
            assert(forall|j: int| 0 <= j < i ==> !(#[trigger] blocks[j]).creates(e)) by {
                assert forall|j: int| 0 <= j < i implies !(#[trigger] blocks[j]).creates(e) by {
                    assert(front[j] == blocks[j]);
                }
            }
        } else {
            assert forall|j: int| 0 <= j < n implies !(#[trigger] blocks[j]).creates(e) by {
                assert(front[j] == blocks[j]);
            }
            if blocks.last().creates(e) {
                assert(blocks[n].creates(e));
            }
        }
    }
}

/// An element has a removal block exactly when some block spends it, and
/// that block is then the last one that does.
pub proof fn lemma_removed_at(blocks: Seq<Block>, e: Element)
    ensures
        removed_at(blocks, e) is None <==> forall|i: int|
            0 <= i < blocks.len() ==> !(#[trigger] blocks[i]).consumes(e),
        removed_at(blocks, e) is Some ==> exists|i: int|
            {
                &&& 0 <= i < blocks.len()
                &&& (#[trigger] blocks[i]).consumes(e)
                &&& removed_at(blocks, e) == Some(blocks[i].height)
                &&& forall|j: int| i < j < blocks.len() ==> !(#[trigger] blocks[j]).consumes(e)
            },
    decreases blocks.len(),
{
    if blocks.len() > 0 {
        let front = blocks.drop_last();
        let n = blocks.len() - 1;
        lemma_removed_at(front, e);
        assert forall|i: int| 0 <= i < n implies front[i] == blocks[i] by {}
        assert(blocks[n] == blocks.last());
        if blocks.last().consumes(e) {
            assert(blocks[n].consumes(e));
        } else {
            if removed_at(front, e) is Some {
                let i = choose|i: int|
                    {
                        &&& 0 <= i < front.len()
                        &&& (#[trigger] front[i]).consumes(e)
                        &&& removed_at(front, e) == Some(front[i].height)
                        &&& forall|j: int| i < j < front.len() ==> !(#[trigger] front[j]).consumes(e)
                    };
                assert(blocks[i].consumes(e));
                assert forall|j: int| i < j < blocks.len() implies !(#[trigger] blocks[j]).consumes(e) by {
                    if j < n {
                        assert(front[j] == blocks[j]);
                    }
                }
            } else {
                assert forall|j: int| 0 <= j < blocks.len() implies !(#[trigger] blocks[j]).consumes(e) by {
                    if j < n {
                        assert(front[j] == blocks[j]);
                    }
                }
            }
        }
    }
}

/// Heights are dense and start at 1: the block at position `i` has height
/// `i + 1`.
pub open spec fn heights_dense(blocks: Seq<Block>) -> bool {
    &&& blocks.len() < u64::MAX
    &&& forall|i: int| 0 <= i < blocks.len() ==> (#[trigger] blocks[i]).height.0 == i + 1
}

/// The append-only store of finalized blocks.
pub struct BlockStore {
    blocks: Vec<Block>,
}

impl View for BlockStore {
    type V = Seq<Block>;

    closed spec fn view(&self) -> Seq<Block> {
        self.blocks@
    }
}

impl BlockStore {
    /// The invariant of the store: heights are dense and start at 1.
    pub open spec fn wf(&self) -> bool {
        heights_dense(self@)
    }

    /// The history of `e` that the stored blocks tell.
    pub open spec fn history(&self, e: Element) -> ElementHistory {
        ElementHistory { insertion_block: inserted_at(self@, e), removal_block: removed_at(self@, e) }
    }

    /// The store without a block.
    pub fn new() -> (store: BlockStore)
        ensures
            store.wf(),
            store@.len() == 0,
    {
        BlockStore { blocks: Vec::new() }
    }

    /// The height of the newest block, or 0 where there is none.
    pub fn height(&self) -> (h: BlockHeight)
        requires
            self.wf(),
        ensures
            h.0 == self@.len(),
    {
        BlockHeight(self.blocks.len() as u64)
    }

    /// The block of the given height.
    pub fn get_block(&self, height: BlockHeight) -> (found: Option<&Block>)
        requires
            self.wf(),
        ensures
            match found {
                Some(block) => 1 <= height.0 <= self@.len() && *block == self@[height.0 - 1] && block.height
                    == height,
                None => height.0 == 0 || height.0 > self@.len(),
            },
    {
        if height.0 == 0 || height.0 > self.blocks.len() as u64 {
            None
        } else {
            Some(&self.blocks[(height.0 - 1) as usize])
        }
    }

    /// The first block with the given hash.
    pub fn get_block_by_hash(&self, hash: &Element) -> (found: Option<&Block>)
        ensures
            match found {
                Some(block) => exists|i: int|
                    {
                        &&& 0 <= i < self@.len()
                        &&& *block == #[trigger] self@[i]
                        &&& block.hash == *hash
                        &&& forall|j: int| 0 <= j < i ==> (#[trigger] self@[j]).hash != *hash
                    },
                None => forall|i: int| 0 <= i < self@.len() ==> (#[trigger] self@[i]).hash != *hash,
            },
    {
        let mut i: usize = 0;
        while i < self.blocks.len()
            invariant
                i <= self.blocks.len(),
                forall|j: int| 0 <= j < i ==> (#[trigger] self.blocks@[j]).hash != *hash,
            decreases self.blocks.len() - i,
        {
            if self.blocks[i].hash == *hash {
                assert(self@[i as int].hash == *hash);
                return Some(&self.blocks[i]);
            }
            i += 1;
        }
        None
    }

    /// The history of `e`: the first block that created it and the last block
    /// that spent it, as far as there are such.
    pub fn get_element_history(&self, e: Element) -> (history: ElementHistory)
        ensures
            history == self.history(e),
    {
        let mut insertion_block: Option<BlockHeight> = None;
        let mut removal_block: Option<BlockHeight> = None;
        let mut i: usize = 0;
        while i < self.blocks.len()
            invariant
                i <= self.blocks.len(),
                insertion_block == inserted_at(self@.take(i as int), e),
                removal_block == removed_at(self@.take(i as int), e),
            decreases self.blocks.len() - i,
        {
            let block = &self.blocks[i];
            proof {
                assert(self@.take(i as int + 1).drop_last() == self@.take(i as int));
                assert(self@.take(i as int + 1).last() == *block);
            }
            if insertion_block.is_none() && block.makes(&e) {
                insertion_block = Some(block.height);
            }
            if block.spends(&e) {
                removal_block = Some(block.height);
            }
            i += 1;
        }
        assert(self@.take(i as int) == self@);
        ElementHistory { insertion_block, removal_block }
    }

    /// Appends a block whose height is the next one. A block of any other
    /// height is handed back and the store is left as it was.
    pub fn append(&mut self, block: Block) -> (r: Result<(), Block>)
        requires
            old(self).wf(),
        ensures
            final(self).wf(),
            r is Ok <==> block.height.0 == old(self)@.len() + 1 && block.height.0 < u64::MAX,
            match r {
                Ok(_) => final(self)@ == old(self)@.push(block),
                Err(back) => back == block && final(self)@ == old(self)@,
            },
    {
        let n = self.blocks.len();
        if block.height.0 == u64::MAX || block.height.0 == 0 || block.height.0 - 1 != n as u64 {
            return Err(block);
        }
        self.blocks.push(block);
        Ok(())
    }
}

} // verus!
