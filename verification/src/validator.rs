//! The validity rules for a proof against the tree and the block store.

use vstd::prelude::*;
use crate::element::{modulus_value, Element};
use crate::error::{Error, RpcError};
use crate::store::{inserted_at, Block, BlockStore};
use crate::tree::{holds, CommitmentTree, TreeEntry};
use crate::utxo::{UtxoProof, SLOTS};

verus! {

/// What is wrong with one input slot: a commitment that is not in the field,
/// or one that is not padding and not in the tree.
pub open spec fn input_fault(e: Element, tree: Seq<TreeEntry>) -> Option<RpcError> {
    if e@ >= modulus_value() {
        Some(RpcError::InvalidElementSize(e))
    } else if e@ != 0 && !holds(tree, e) {
        Some(RpcError::TxnInputCommitmentsNotInTree(e))
    } else {
        None
    }
}

/// What is wrong with one output slot: a commitment that is not in the field,
/// one that the tree holds, or one that a block created before.
pub open spec fn output_fault(e: Element, tree: Seq<TreeEntry>, blocks: Seq<Block>) -> Option<RpcError> {
    if e@ >= modulus_value() {
        Some(RpcError::InvalidElementSize(e))
    } else if e@ == 0 {
        None
    } else if holds(tree, e) {
        Some(RpcError::TxnOutputCommitmentsExist(e))
    } else if inserted_at(blocks, e) is Some {
        Some(RpcError::TxnOutputCommitmentsExistedRecently(e))
    } else {
        None
    }
}

/// The fault of the first input slot that has one.
pub open spec fn first_input_fault(slots: Seq<Element>, tree: Seq<TreeEntry>) -> Option<RpcError>
    decreases slots.len(),
{
    if slots.len() == 0 {
        None
    } else {
        match first_input_fault(slots.drop_last(), tree) {
            Some(fault) => Some(fault),
            None => input_fault(slots.last(), tree),
        }
    }
}

/// The fault of the first output slot that has one.
pub open spec fn first_output_fault(slots: Seq<Element>, tree: Seq<TreeEntry>, blocks: Seq<Block>) -> Option<
    RpcError,
>
    decreases slots.len(),
{
    if slots.len() == 0 {
        None
    } else {
        match first_output_fault(slots.drop_last(), tree, blocks) {
            Some(fault) => Some(fault),
            None => output_fault(slots.last(), tree, blocks),
        }
    }
}

/// The verdict on a proof: the proof itself must have been accepted by the
/// proving backend; then the input slots are checked in order, then the
/// output slots, and the first fault found is the error.
pub open spec fn verdict(utxo: UtxoProof, accepted: bool, tree: Seq<TreeEntry>, blocks: Seq<Block>) -> Result<
    (),
    Error,
> {
    if !accepted {
        Err(Error::Rpc(RpcError::InvalidProof))
    } else if let Some(fault) = first_input_fault(utxo.input_slots(), tree) {
        Err(Error::Rpc(fault))
    } else if let Some(fault) = first_output_fault(utxo.output_slots(), tree, blocks) {
        Err(Error::Rpc(fault))
    } else {
        Ok(())
    }
}

/// What a valid proof is: in every input slot a member of the field that is
/// padding or in the tree, and in every output slot a member of the field
/// that is padding or that neither the tree holds nor any block created.
pub open spec fn commitments_valid(utxo: UtxoProof, tree: Seq<TreeEntry>, blocks: Seq<Block>) -> bool {
    &&& forall|i: int|
        0 <= i < utxo.input_slots().len() ==> {
            let e = #[trigger] utxo.input_slots()[i];
            e.in_field() && (e@ == 0 || holds(tree, e))
        }
    &&& forall|i: int|
        0 <= i < utxo.output_slots().len() ==> {
            let e = #[trigger] utxo.output_slots()[i];
            e.in_field() && (e@ == 0 || (!holds(tree, e) && inserted_at(blocks, e) is None))
        }
}

/// No input slot has a fault exactly when every input slot is in order.
pub proof fn lemma_no_input_fault(slots: Seq<Element>, tree: Seq<TreeEntry>)
    ensures
        first_input_fault(slots, tree) is None <==> forall|i: int|
            0 <= i < slots.len() ==> input_fault(#[trigger] slots[i], tree) is None,
    decreases slots.len(),
{
    if slots.len() > 0 {
        let front = slots.drop_last();
        lemma_no_input_fault(front, tree);
        assert(slots[slots.len() - 1] == slots.last());
        assert forall|i: int| 0 <= i < front.len() implies front[i] == slots[i] by {}
        if first_input_fault(slots, tree) is None {
            assert forall|i: int| 0 <= i < slots.len() implies input_fault(#[trigger] slots[i], tree) is None by {
                if i < front.len() {
                    assert(front[i] == slots[i]);
                }
            }
        }
    }
}

/// No output slot has a fault exactly when every output slot is in order.
pub proof fn lemma_no_output_fault(slots: Seq<Element>, tree: Seq<TreeEntry>, blocks: Seq<Block>)
    ensures
        first_output_fault(slots, tree, blocks) is None <==> forall|i: int|
            0 <= i < slots.len() ==> output_fault(#[trigger] slots[i], tree, blocks) is None,
    decreases slots.len(),
{
    if slots.len() > 0 {
        let front = slots.drop_last();
        lemma_no_output_fault(front, tree, blocks);
        assert(slots[slots.len() - 1] == slots.last());
        assert forall|i: int| 0 <= i < front.len() implies front[i] == slots[i] by {}
        if first_output_fault(slots, tree, blocks) is None {
            assert forall|i: int| 0 <= i < slots.len() implies output_fault(
                #[trigger] slots[i],
                tree,
                blocks,
            ) is None by {
                if i < front.len() {
                    assert(front[i] == slots[i]);
                }
            }
        }
    }
}

/// A proof is given the verdict `Ok` exactly when the backend accepted it and
/// its commitments are valid against the tree and the blocks.
pub proof fn lemma_verdict_ok(utxo: UtxoProof, accepted: bool, tree: Seq<TreeEntry>, blocks: Seq<Block>)
    ensures
        verdict(utxo, accepted, tree, blocks) is Ok <==> accepted && commitments_valid(utxo, tree, blocks),
{
    lemma_no_input_fault(utxo.input_slots(), tree);
    lemma_no_output_fault(utxo.output_slots(), tree, blocks);
    if commitments_valid(utxo, tree, blocks) {
        assert forall|i: int| 0 <= i < utxo.input_slots().len() implies input_fault(
            #[trigger] utxo.input_slots()[i],
            tree,
        ) is None by {}
        assert forall|i: int| 0 <= i < utxo.output_slots().len() implies output_fault(
            #[trigger] utxo.output_slots()[i],
            tree,
            blocks,
        ) is None by {}
    }
    if accepted && verdict(utxo, accepted, tree, blocks) is Ok {
        assert forall|i: int| 0 <= i < utxo.input_slots().len() implies {
            let e = #[trigger] utxo.input_slots()[i];
            e.in_field() && (e@ == 0 || holds(tree, e))
        } by {
            assert(input_fault(utxo.input_slots()[i], tree) is None);
        }
        assert forall|i: int| 0 <= i < utxo.output_slots().len() implies {
            let e = #[trigger] utxo.output_slots()[i];
            e.in_field() && (e@ == 0 || (!holds(tree, e) && inserted_at(blocks, e) is None))
        } by {
            assert(output_fault(utxo.output_slots()[i], tree, blocks) is None);
        }
    }
}

/// Checks one input slot.
fn check_input(leaf: Element, notes_tree: &CommitmentTree) -> (fault: Option<RpcError>)
    ensures
        fault == input_fault(leaf, notes_tree@),
{
    if leaf.ge(&Element::modulus()) {
        Some(RpcError::InvalidElementSize(leaf))
    } else if !leaf.is_zero() && !notes_tree.contains_element(&leaf) {
        Some(RpcError::TxnInputCommitmentsNotInTree(leaf))
    } else {
        None
    }
}

/// Checks one output slot.
fn check_output(leaf: Element, block_store: &BlockStore, notes_tree: &CommitmentTree) -> (fault: Option<
    RpcError,
>)
    ensures
        fault == output_fault(leaf, notes_tree@, block_store@),
{
    if leaf.ge(&Element::modulus()) {
        return Some(RpcError::InvalidElementSize(leaf));
    }
    if !leaf.is_zero() {
        if notes_tree.contains_element(&leaf) {
            return Some(RpcError::TxnOutputCommitmentsExist(leaf));
        }
        let history = block_store.get_element_history(leaf);
        if history.insertion_block.is_some() {
            return Some(RpcError::TxnOutputCommitmentsExistedRecently(leaf));
        }
    }
    None
}

/// Validates a proof against the tree and the block store. `accepted` is the
/// answer of the proving backend for this proof.
///
/// The result is `Ok` exactly when the backend accepted the proof, every
/// input commitment is in the field and in the tree, and every output
/// commitment is in the field, not in the tree, and was never created by a
/// stored block. Padding slots pass every check. Otherwise the error is that
/// of the first check that fails: the proof, then the input slots in order,
/// then the output slots in order.
pub fn validate_txn(
    utxo_proof: &UtxoProof,
    accepted: bool,
    block_store: &BlockStore,
    notes_tree: &CommitmentTree,
) -> (r: Result<(), Error>)
    ensures
        r == verdict(*utxo_proof, accepted, notes_tree@, block_store@),
        r is Ok <==> accepted && commitments_valid(*utxo_proof, notes_tree@, block_store@),
{
    broadcast use vstd::array::group_array_axioms;

    proof {
        lemma_verdict_ok(*utxo_proof, accepted, notes_tree@, block_store@);
    }
    if !accepted {
        return Err(Error::Rpc(RpcError::InvalidProof));
    }
    let ghost ins = utxo_proof.input_slots();
    let mut i: usize = 0;
    while i < SLOTS
        invariant
            i <= SLOTS,
            accepted,
            ins == utxo_proof.input_slots(),
            ins.len() == SLOTS,
            first_input_fault(ins.take(i as int), notes_tree@) is None,
        decreases SLOTS - i,
    {
        let leaf = utxo_proof.public_inputs.input_commitments[i];
        proof {
            assert(ins.take(i as int + 1).drop_last() == ins.take(i as int));
            assert(ins.take(i as int + 1).last() == leaf);
        }
        if let Some(fault) = check_input(leaf, notes_tree) {
            proof {
                lemma_input_fault_extends(ins, notes_tree@, i as int + 1);
            }
            return Err(Error::Rpc(fault));
        }
        i += 1;
    }
    assert(ins.take(i as int) == ins);
    let ghost outs = utxo_proof.output_slots();
    let mut j: usize = 0;
    while j < SLOTS
        invariant
            j <= SLOTS,
            accepted,
            outs == utxo_proof.output_slots(),
            outs.len() == SLOTS,
            first_input_fault(utxo_proof.input_slots(), notes_tree@) is None,
            first_output_fault(outs.take(j as int), notes_tree@, block_store@) is None,
        decreases SLOTS - j,
    {
        let leaf = utxo_proof.public_inputs.output_commitments[j];
        proof {
            assert(outs.take(j as int + 1).drop_last() == outs.take(j as int));
            assert(outs.take(j as int + 1).last() == leaf);
        }
        if let Some(fault) = check_output(leaf, block_store, notes_tree) {
            proof {
                lemma_output_fault_extends(outs, notes_tree@, block_store@, j as int + 1);
            }
            return Err(Error::Rpc(fault));
        }
        j += 1;
    }
    assert(outs.take(j as int) == outs);
    Ok(())
}

/// A fault found among the first `n` input slots is the fault of the whole.
pub proof fn lemma_input_fault_extends(slots: Seq<Element>, tree: Seq<TreeEntry>, n: int)
    requires
        0 <= n <= slots.len(),
        first_input_fault(slots.take(n), tree) is Some,
    ensures
        first_input_fault(slots, tree) == first_input_fault(slots.take(n), tree),
    decreases slots.len() - n,
{
    if n == slots.len() {
        assert(slots.take(n) == slots);
    } else {
        assert(slots.take(n + 1).drop_last() == slots.take(n));
        lemma_input_fault_extends(slots, tree, n + 1);
    }
}

/// A fault found among the first `n` output slots is the fault of the whole.
pub proof fn lemma_output_fault_extends(slots: Seq<Element>, tree: Seq<TreeEntry>, blocks: Seq<Block>, n: int)
    requires
        0 <= n <= slots.len(),
        first_output_fault(slots.take(n), tree, blocks) is Some,
    ensures
        first_output_fault(slots, tree, blocks) == first_output_fault(slots.take(n), tree, blocks),
    decreases slots.len() - n,
{
    if n == slots.len() {
        assert(slots.take(n) == slots);
    } else {
        assert(slots.take(n + 1).drop_last() == slots.take(n));
        lemma_output_fault_extends(slots, tree, blocks, n + 1);
    }
}

} // verus!
