//! How a block changes the tree and the store, and what holds of the two
//! together after any number of blocks.

use vstd::prelude::*;
use crate::element::Element;
use crate::store::{
    all_input_slots, all_output_slots, heights_dense, inserted_at, lemma_consume_is_in_slots,
    lemma_create_is_in_slots, lemma_inserted_at, lemma_removed_at, removed_at, Block,
};
use crate::tree::{
    entries_wf, first_unremovable, holds, insert_all, lemma_first_unremovable, lemma_insert_all_err,
    lemma_insert_all_ok, lemma_without, without, TreeEntry,
};
use crate::utxo::BlockHeight;

verus! {

/// Why a block cannot be applied.
#[derive(Clone, Copy, Debug, PartialEq, Eq, Structural)]
pub enum BlockError {
    /// The block is not the next one.
    UnexpectedHeight { expected: BlockHeight, found: BlockHeight },
    /// The root hash computed for the tree after the block is not the one in
    /// the block.
    RootMismatch { header: Element, computed: Element },
    /// The block spends this commitment, which the tree does not hold, or
    /// spends it twice.
    InputNotSpendable(Element),
    /// The block creates this commitment, which an earlier block created, or
    /// creates it twice.
    OutputNotFresh(Element),
}

/// No element but padding stands twice in `slots`.
pub open spec fn no_repeated(slots: Seq<Element>) -> bool {
    forall|i: int, j: int|
        0 <= i < j < slots.len() && (#[trigger] slots[i])@ != 0 ==> slots[i] != #[trigger] slots[j]
}

/// The first element of `outs`, in order, that is not padding and that one
/// of the blocks created or that stands earlier in `outs` too.
pub open spec fn first_stale_output(blocks: Seq<Block>, outs: Seq<Element>) -> Option<Element>
    decreases outs.len(),
{
    if outs.len() == 0 {
        None
    } else {
        match first_stale_output(blocks, outs.drop_last()) {
            Some(e) => Some(e),
            None => {
                let e = outs.last();
                if e@ != 0 && (inserted_at(blocks, e) is Some || outs.drop_last().contains(e)) {
                    Some(e)
                } else {
                    None
                }
            },
        }
    }
}

/// No output is stale exactly when none was created before and none but
/// padding stands twice.
pub proof fn lemma_first_stale_output(blocks: Seq<Block>, outs: Seq<Element>)
    ensures
        first_stale_output(blocks, outs) is None <==> {
            &&& forall|i: int|
                0 <= i < outs.len() && (#[trigger] outs[i])@ != 0 ==> inserted_at(blocks, outs[i]) is None
            &&& no_repeated(outs)
        },
    decreases outs.len(),
{
    if outs.len() > 0 {
        let front = outs.drop_last();
        let last = outs.last();
        let n = outs.len() - 1;
        lemma_first_stale_output(blocks, front);
        assert(outs[n] == last);
        assert forall|i: int| 0 <= i < n implies front[i] == outs[i] by {}
        if first_stale_output(blocks, front) is Some {
            if forall|i: int|
                0 <= i < outs.len() && (#[trigger] outs[i])@ != 0 ==> inserted_at(blocks, outs[i]) is None {
                assert forall|i: int| 0 <= i < front.len() && (#[trigger] front[i])@ != 0 implies inserted_at(
                    blocks,
                    front[i],
                ) is None by {
                    assert(front[i] == outs[i]);
                }
                if no_repeated(outs) {
                    assert forall|i: int, j: int|
                        0 <= i < j < front.len() && (#[trigger] front[i])@ != 0 implies front[i]
                        != #[trigger] front[j] by {
                        assert(front[i] == outs[i] && front[j] == outs[j]);
                    }
                    assert(false);
                }
            }
        } else {
            if last@ != 0 && (inserted_at(blocks, last) is Some || front.contains(last)) {
                if inserted_at(blocks, last) is None {
                    let i = choose|i: int| 0 <= i < front.len() && front[i] == last;
                    assert(outs[i] == last && outs[n] == last);
                }
            } else {
                assert forall|i: int, j: int|
                    0 <= i < j < outs.len() && (#[trigger] outs[i])@ != 0 implies outs[i]
                    != #[trigger] outs[j] by {
                    if j == n {
                        if outs[i] == last {
                            assert(front[i] == last);
                            assert(front.contains(last));
                        }
                    } else {
                        assert(front[i] == outs[i] && front[j] == outs[j]);
                    }
                }
                assert forall|i: int| 0 <= i < outs.len() && (#[trigger] outs[i])@ != 0 implies inserted_at(
                    blocks,
                    outs[i],
                ) is None by {
                    if i < n {
                        assert(front[i] == outs[i]);
                    }
                }
            }
        }
    }
}

/// A stale output found among the first `n` is the stale output of the whole.
pub proof fn lemma_first_stale_output_extends(blocks: Seq<Block>, outs: Seq<Element>, n: int)
    requires
        0 <= n <= outs.len(),
        first_stale_output(blocks, outs.take(n)) is Some,
    ensures
        first_stale_output(blocks, outs) == first_stale_output(blocks, outs.take(n)),
    decreases outs.len() - n,
{
    if n == outs.len() {
        assert(outs.take(n) == outs);
    } else {
        assert(outs.take(n + 1).drop_last() == outs.take(n));
        lemma_first_stale_output_extends(blocks, outs, n + 1);
    }
}

/// No block spends a commitment twice, and no two blocks spend the same
/// commitment.
pub open spec fn spent_once(blocks: Seq<Block>) -> bool {
    &&& forall|i: int| 0 <= i < blocks.len() ==> no_repeated(all_input_slots((#[trigger] blocks[i]).txns@))
    &&& forall|i: int, j: int, e: Element|
        0 <= i < j < blocks.len() && #[trigger] blocks[i].consumes(e) ==> !#[trigger] blocks[j].consumes(e)
}

/// What ties the tree to the blocks: the tree holds exactly the commitments
/// that a block created and no block spent, each with the height of the
/// block that created it; nothing was spent that was not created; and
/// nothing was spent twice.
pub open spec fn consistent(tree: Seq<TreeEntry>, blocks: Seq<Block>) -> bool {
    &&& entries_wf(tree)
    &&& heights_dense(blocks)
    &&& forall|e: Element| #[trigger]
        holds(tree, e) <==> (inserted_at(blocks, e) is Some && removed_at(blocks, e) is None)
    &&& forall|i: int|
        0 <= i < tree.len() ==> inserted_at(blocks, (#[trigger] tree[i]).element) == Some(tree[i].inserted_in)
    &&& forall|e: Element| (#[trigger] removed_at(blocks, e)) is Some ==> inserted_at(blocks, e) is Some
    &&& spent_once(blocks)
}

/// What stands in the way of applying `block`, the first of: it is not the
/// next block; the root computed for the tree after it is not its root; it
/// spends what the tree does not hold, or spends it twice; it creates what
/// was created before, or creates it twice.
pub open spec fn block_fault(tree: Seq<TreeEntry>, blocks: Seq<Block>, block: Block, computed_root: Element) -> Option<
    BlockError,
> {
    if block.height.0 != blocks.len() + 1 || block.height.0 == u64::MAX {
        Some(
            BlockError::UnexpectedHeight {
                expected: BlockHeight((blocks.len() + 1) as u64),
                found: block.height,
            },
        )
    } else if computed_root != block.root_hash {
        Some(BlockError::RootMismatch { header: block.root_hash, computed: computed_root })
    } else if let Some(e) = first_unremovable(tree, all_input_slots(block.txns@)) {
        Some(BlockError::InputNotSpendable(e))
    } else if let Some(e) = first_stale_output(blocks, all_output_slots(block.txns@)) {
        Some(BlockError::OutputNotFresh(e))
    } else {
        None
    }
}

/// The tree after `block`: the outputs of the block are inserted in order at
/// its height, and its inputs are removed.
pub open spec fn applied_tree(tree: Seq<TreeEntry>, block: Block) -> Seq<TreeEntry> {
    match insert_all(tree, all_output_slots(block.txns@), block.height) {
        Ok(grown) => without(grown, all_input_slots(block.txns@)),
        Err(_) => tree,
    }
}

/// Applying a block that nothing stands in the way of keeps the tree and the
/// blocks consistent. After it the tree holds every commitment that the
/// block creates and none that it spends.
pub proof fn lemma_apply_block(tree: Seq<TreeEntry>, blocks: Seq<Block>, block: Block)
    requires
        consistent(tree, blocks),
        block.height.0 == blocks.len() + 1,
        block.height.0 < u64::MAX,
        first_unremovable(tree, all_input_slots(block.txns@)) is None,
        first_stale_output(blocks, all_output_slots(block.txns@)) is None,
    ensures
        insert_all(tree, all_output_slots(block.txns@), block.height) is Ok,
        consistent(applied_tree(tree, block), blocks.push(block)),
        forall|e: Element| #[trigger] block.creates(e) ==> holds(applied_tree(tree, block), e),
        forall|e: Element| #[trigger] block.consumes(e) ==> !holds(applied_tree(tree, block), e),
        forall|e: Element| #[trigger]
            block.creates(e) ==> inserted_at(blocks.push(block), e) == Some(block.height),
{
    let ins = all_input_slots(block.txns@);
    let outs = all_output_slots(block.txns@);
    let h = block.height;
    let n = blocks.len() as int;
    lemma_first_unremovable(tree, ins);
    lemma_first_stale_output(blocks, outs);

    // a fresh output is never in the tree
    assert forall|e: Element| e@ != 0 && outs.contains(e) implies inserted_at(blocks, e) is None && !holds(
        tree,
        e,
    ) by {
        let k = choose|k: int| 0 <= k < outs.len() && outs[k] == e;
        assert(inserted_at(blocks, outs[k]) is None);
    }
    // an input is in the tree
    assert forall|e: Element| e@ != 0 && ins.contains(e) implies holds(tree, e) by {
        let k = choose|k: int| 0 <= k < ins.len() && ins[k] == e;
        assert(holds(tree, ins[k]));
    }

    if insert_all(tree, outs, h) is Err {
        lemma_insert_all_err(tree, outs, h);
        let e = insert_all(tree, outs, h)->Err_0;
        if !holds(tree, e) {
            let (i, j) = choose|i: int, j: int| 0 <= i < j < outs.len() && outs[i] == e && outs[j] == e;
            assert(outs[i]@ != 0 && outs[i] == outs[j]);
        }
        assert(false);
    }
    let grown = insert_all(tree, outs, h)->Ok_0;
    lemma_insert_all_ok(tree, outs, h);
    let after = without(grown, ins);
    lemma_without(grown, ins);
    assert(after == applied_tree(tree, block));

    let blocks2 = blocks.push(block);
    assert(blocks2.drop_last() == blocks);
    assert(blocks2.last() == block);
    assert forall|i: int| 0 <= i < n implies blocks2[i] == blocks[i] by {}

    assert forall|e: Element| #[trigger] block.creates(e) <==> (e@ != 0 && outs.contains(e)) by {
        lemma_create_is_in_slots(block.txns@, e);
    }
    assert forall|e: Element| #[trigger] block.consumes(e) <==> (e@ != 0 && ins.contains(e)) by {
        lemma_consume_is_in_slots(block.txns@, e);
    }

    assert forall|e: Element| #[trigger]
        holds(after, e) <==> (inserted_at(blocks2, e) is Some && removed_at(blocks2, e) is None) by {
        assert(block.creates(e) <==> (e@ != 0 && outs.contains(e)));
        assert(block.consumes(e) <==> (e@ != 0 && ins.contains(e)));
        assert(holds(tree, e) <==> (inserted_at(blocks, e) is Some && removed_at(blocks, e) is None));
        if e@ == 0 {
            if holds(after, e) {
                let i = choose|i: int| 0 <= i < after.len() && after[i].element == e;
                assert(after[i].element@ != 0);
            }
            lemma_inserted_at(blocks2, e);
        } else if ins.contains(e) {
        } else if holds(tree, e) {
        } else if outs.contains(e) {
            if removed_at(blocks, e) is Some {
                assert(inserted_at(blocks, e) is Some);
            }
        } else {
        }
    }

    assert forall|i: int| 0 <= i < after.len() implies inserted_at(blocks2, (#[trigger] after[i]).element)
        == Some(after[i].inserted_in) by {
        let k = choose|k: int| 0 <= k < grown.len() && grown[k] == after[i];
        let e = after[i].element;
        if k < tree.len() {
            assert(grown.subrange(0, tree.len() as int)[k] == tree[k]);
            assert(inserted_at(blocks, tree[k].element) == Some(tree[k].inserted_in));
        } else {
            assert(grown[k].inserted_in == h);
            assert(block.creates(e) <==> (e@ != 0 && outs.contains(e)));
        }
    }

    assert forall|e: Element| (#[trigger] removed_at(blocks2, e)) is Some implies inserted_at(
        blocks2,
        e,
    ) is Some by {
        assert(block.consumes(e) <==> (e@ != 0 && ins.contains(e)));
        if block.consumes(e) {
            assert(holds(tree, e));
        } else {
            assert(removed_at(blocks, e) is Some);
        }
    }

    assert(spent_once(blocks2)) by {
        assert forall|i: int| 0 <= i < blocks2.len() implies no_repeated(
            all_input_slots((#[trigger] blocks2[i]).txns@),
        ) by {
            if i < n {
                assert(blocks2[i] == blocks[i]);
            }
        }
        assert forall|i: int, j: int, e: Element|
            0 <= i < j < blocks2.len() && #[trigger] blocks2[i].consumes(e) implies !#[trigger] blocks2[j].consumes(
            e,
        ) by {
            if j < n {
                assert(blocks2[i] == blocks[i] && blocks2[j] == blocks[j]);
                assert(blocks[i].consumes(e));
            } else {
                if block.consumes(e) {
                    assert(block.consumes(e) <==> (e@ != 0 && ins.contains(e)));
                    assert(holds(tree, e));
                    lemma_removed_at(blocks, e);
                    assert(blocks[i].consumes(e));
                }
            }
        }
    }

    assert(heights_dense(blocks2)) by {
        assert forall|i: int| 0 <= i < blocks2.len() implies (#[trigger] blocks2[i]).height.0 == i + 1 by {
            if i < n {
                assert(blocks2[i] == blocks[i]);
            }
        }
    }

    assert forall|e: Element| #[trigger] block.creates(e) implies holds(after, e) by {
        assert(block.creates(e) <==> (e@ != 0 && outs.contains(e)));
    }
    assert forall|e: Element| #[trigger] block.consumes(e) implies !holds(after, e) by {
        assert(block.consumes(e) <==> (e@ != 0 && ins.contains(e)));
    }
    assert forall|e: Element| #[trigger] block.creates(e) implies inserted_at(blocks2, e) == Some(
        block.height,
    ) by {
        assert(block.creates(e) <==> (e@ != 0 && outs.contains(e)));
    }
}

/// Whether nothing stands in the way of applying `block`, its own root
/// taken as the computed one.
pub open spec fn applicable(tree: Seq<TreeEntry>, blocks: Seq<Block>, block: Block) -> bool {
    block_fault(tree, blocks, block, block.root_hash) is None
}

/// The tree that applying the blocks in order to the empty tree gives.
pub open spec fn replayed(blocks: Seq<Block>) -> Seq<TreeEntry>
    decreases blocks.len(),
{
    if blocks.len() == 0 {
        Seq::empty()
    } else {
        applied_tree(replayed(blocks.drop_last()), blocks.last())
    }
}

/// Whether each of the blocks could be applied to the tree that the blocks
/// before it give.
pub open spec fn chain_valid(blocks: Seq<Block>) -> bool
    decreases blocks.len(),
{
    blocks.len() == 0 || (chain_valid(blocks.drop_last()) && applicable(
        replayed(blocks.drop_last()),
        blocks.drop_last(),
        blocks.last(),
    ))
}

/// The tree that a valid chain gives is consistent with the chain.
pub proof fn lemma_chain_consistent(blocks: Seq<Block>)
    requires
        chain_valid(blocks),
    ensures
        consistent(replayed(blocks), blocks),
    decreases blocks.len(),
{
    if blocks.len() == 0 {
        let tree = replayed(blocks);
        assert forall|e: Element| #[trigger]
            holds(tree, e) <==> (inserted_at(blocks, e) is Some && removed_at(blocks, e) is None) by {}
    } else {
        let front = blocks.drop_last();
        lemma_chain_consistent(front);
        lemma_apply_block(replayed(front), front, blocks.last());
        assert(front.push(blocks.last()) == blocks);
    }
}

/// Every beginning of a valid chain is a valid chain.
pub proof fn lemma_chain_prefix(blocks: Seq<Block>, n: int)
    requires
        chain_valid(blocks),
        0 <= n <= blocks.len(),
    ensures
        chain_valid(blocks.take(n)),
    decreases blocks.len(),
{
    if n == blocks.len() {
        assert(blocks.take(n) == blocks);
    } else {
        lemma_chain_prefix(blocks.drop_last(), n);
        assert(blocks.drop_last().take(n) == blocks.take(n));
    }
}

/// A valid chain with one more block that can be applied is a valid chain,
/// and replaying it gives the tree after that block.
pub proof fn lemma_chain_extends(blocks: Seq<Block>, block: Block)
    requires
        chain_valid(blocks),
        applicable(replayed(blocks), blocks, block),
    ensures
        chain_valid(blocks.push(block)),
        replayed(blocks.push(block)) == applied_tree(replayed(blocks), block),
{
    assert(blocks.push(block).drop_last() == blocks);
    assert(blocks.push(block).last() == block);
}

/// Replaying the chain up to a block gives a tree that holds every
/// commitment that the block creates and none that it spends; the tree
/// before the block holds none that it creates.
pub proof fn lemma_replay_block(blocks: Seq<Block>, j: int, e: Element)
    requires
        chain_valid(blocks),
        0 <= j < blocks.len(),
    ensures
        chain_valid(blocks.take(j + 1)),
        blocks.take(j + 1).last() == blocks[j],
        blocks[j].creates(e) ==> holds(replayed(blocks.take(j + 1)), e) && !holds(replayed(blocks.take(j)), e),
        blocks[j].consumes(e) ==> !holds(replayed(blocks.take(j + 1)), e) && holds(replayed(blocks.take(j)), e),
{
    let upto = blocks.take(j + 1);
    let front = blocks.take(j);
    lemma_chain_prefix(blocks, j + 1);
    lemma_chain_prefix(blocks, j);
    assert(upto.drop_last() == front);
    assert(upto.last() == blocks[j]);
    lemma_chain_consistent(front);
    let tree = replayed(front);
    lemma_apply_block(tree, front, blocks[j]);
    let ins = all_input_slots(blocks[j].txns@);
    let outs = all_output_slots(blocks[j].txns@);
    lemma_first_unremovable(tree, ins);
    lemma_first_stale_output(front, outs);
    lemma_create_is_in_slots(blocks[j].txns@, e);
    lemma_consume_is_in_slots(blocks[j].txns@, e);
    if blocks[j].creates(e) {
        let k = choose|k: int| 0 <= k < outs.len() && outs[k] == e;
        assert(inserted_at(front, outs[k]) is None);
        assert(holds(tree, e) <==> (inserted_at(front, e) is Some && removed_at(front, e) is None));
    }
    if blocks[j].consumes(e) {
        let k = choose|k: int| 0 <= k < ins.len() && ins[k] == e;
        assert(holds(tree, ins[k]));
    }
}

/// A proof that is in a block of a valid chain has, in the tree that
/// replaying the chain up to that block gives, each of its output
/// commitments and none of its input commitments.
pub proof fn lemma_included_proof(blocks: Seq<Block>, j: int, k: int)
    requires
        chain_valid(blocks),
        0 <= j < blocks.len(),
        0 <= k < blocks[j].txns@.len(),
    ensures
        ({
            let tree = replayed(blocks.take(j + 1));
            let included = blocks[j].txns@[k];
            &&& forall|i: int|
                0 <= i < included.outputs().len() ==> holds(tree, #[trigger] included.outputs()[i])
            &&& forall|i: int|
                0 <= i < included.inputs().len() ==> !holds(tree, #[trigger] included.inputs()[i])
        }),
{
    let tree = replayed(blocks.take(j + 1));
    let included = blocks[j].txns@[k];
    assert forall|i: int| 0 <= i < included.outputs().len() implies holds(
        tree,
        #[trigger] included.outputs()[i],
    ) by {
        let e = included.outputs()[i];
        assert(included.outputs().contains(e));
        crate::utxo::lemma_non_padding_contains(included.output_slots(), e);
        assert(blocks[j].creates(e));
        lemma_replay_block(blocks, j, e);
    }
    assert forall|i: int| 0 <= i < included.inputs().len() implies !holds(
        tree,
        #[trigger] included.inputs()[i],
    ) by {
        let e = included.inputs()[i];
        assert(included.inputs().contains(e));
        crate::utxo::lemma_non_padding_contains(included.input_slots(), e);
        assert(blocks[j].consumes(e));
        lemma_replay_block(blocks, j, e);
    }
}

/// The three states that an element can be in.
#[derive(Clone, Copy, Debug, PartialEq, Eq, Structural)]
pub enum ElementState {
    /// No block created the element.
    NeverSeen,
    /// The tree holds the element.
    Present,
    /// A block created the element and a block spent it.
    Removed,
}

/// The element was never created.
pub open spec fn never_seen(blocks: Seq<Block>, e: Element) -> bool {
    inserted_at(blocks, e) is None
}

/// The element is in the tree.
pub open spec fn present(tree: Seq<TreeEntry>, e: Element) -> bool {
    holds(tree, e)
}

/// The element was spent.
pub open spec fn removed(blocks: Seq<Block>, e: Element) -> bool {
    removed_at(blocks, e) is Some
}

/// Of the three states never seen, present and removed, every element is in
/// exactly one, whatever blocks were applied.
pub proof fn lemma_three_states(tree: Seq<TreeEntry>, blocks: Seq<Block>, e: Element)
    requires
        consistent(tree, blocks),
    ensures
        never_seen(blocks, e) || present(tree, e) || removed(blocks, e),
        !(never_seen(blocks, e) && present(tree, e)),
        !(never_seen(blocks, e) && removed(blocks, e)),
        !(present(tree, e) && removed(blocks, e)),
{
    assert(holds(tree, e) <==> (inserted_at(blocks, e) is Some && removed_at(blocks, e) is None));
    if removed_at(blocks, e) is Some {
        assert(inserted_at(blocks, e) is Some);
    }
}

/// Two proofs at different places of the chain never spend the same
/// commitment: of two distinct proofs that share an input commitment, at
/// most one is ever in a block.
pub proof fn lemma_no_double_spend(
    tree: Seq<TreeEntry>,
    blocks: Seq<Block>,
    i: int,
    a: int,
    j: int,
    b: int,
    e: Element,
)
    requires
        consistent(tree, blocks),
        0 <= i < blocks.len(),
        0 <= j < blocks.len(),
        0 <= a < blocks[i].txns@.len(),
        0 <= b < blocks[j].txns@.len(),
        i != j || a != b,
        e@ != 0,
        blocks[i].txns@[a].input_slots().contains(e),
    ensures
        !blocks[j].txns@[b].input_slots().contains(e),
{
    broadcast use vstd::array::group_array_axioms;

    if blocks[j].txns@[b].input_slots().contains(e) {
        assert(blocks[i].consumes(e));
        assert(blocks[j].consumes(e));
        if i < j {
            assert(!blocks[j].consumes(e));
        } else if j < i {
            assert(!blocks[i].consumes(e));
        } else {
            let txns = blocks[i].txns@;
            let flat = all_input_slots(txns);
            crate::store::lemma_all_input_slots(txns);
            assert(no_repeated(flat));
            let s = choose|s: int| 0 <= s < txns[a].input_slots().len() && txns[a].input_slots()[s] == e;
            let t = choose|t: int| 0 <= t < txns[b].input_slots().len() && txns[b].input_slots()[t] == e;
            assert(flat[2 * a + s] == txns[a].input_slots()[s]);
            assert(flat[2 * b + t] == txns[b].input_slots()[t]);
            if a < b {
                assert(flat[2 * a + s]@ != 0 && flat[2 * a + s] == flat[2 * b + t]);
            } else {
                assert(flat[2 * b + t]@ != 0 && flat[2 * b + t] == flat[2 * a + s]);
            }
        }
    }
}

} // verus!
