//! The listings of the block store: its blocks and its transactions, in
//! pages, and the search for a transaction by its hash.

use vstd::prelude::*;
use crate::element::Element;
use crate::error::{Error, RpcError};
use crate::pagination::{
    ascending, lemma_round_trip, older, page_of, paginate, walk_returns, CursorChoice, CursorPosition, ListOrder,
    Page,
};
use crate::store::{heights_dense, Block, BlockStore};
use crate::utxo::BlockHeight;

verus! {

/// The places of the blocks in a listing, oldest first: each block stands at
/// its height.
pub open spec fn block_keys(blocks: Seq<Block>) -> Seq<CursorPosition> {
    Seq::new(blocks.len(), |i: int| CursorPosition { height: blocks[i].height.0, tiebreak: 0 })
}

/// The places of the proofs of one block: each at the height of the block,
/// told apart by its position in the block.
pub open spec fn keys_of_block(block: Block) -> Seq<CursorPosition> {
    Seq::new(block.txns@.len(), |k: int| CursorPosition { height: block.height.0, tiebreak: k as u64 })
}

/// The places of all proofs of the blocks in a listing, oldest first.
pub open spec fn txn_keys(blocks: Seq<Block>) -> Seq<CursorPosition>
    decreases blocks.len(),
{
    if blocks.len() == 0 {
        Seq::empty()
    } else {
        txn_keys(blocks.drop_last()) + keys_of_block(blocks.last())
    }
}

/// The places of the blocks of a store ascend.
pub proof fn lemma_block_keys_ascending(blocks: Seq<Block>)
    requires
        heights_dense(blocks),
    ensures
        ascending(block_keys(blocks)),
{
    let keys = block_keys(blocks);
    assert forall|i: int, j: int| 0 <= i < j < keys.len() implies older(#[trigger] keys[i], #[trigger] keys[j]) by {
        assert(blocks[i].height.0 == i + 1);
        assert(blocks[j].height.0 == j + 1);
    }
}

/// The places of the proofs of a store ascend, and none is higher than the
/// newest block.
pub proof fn lemma_txn_keys_ascending(blocks: Seq<Block>)
    requires
        heights_dense(blocks),
        forall|i: int| 0 <= i < blocks.len() ==> (#[trigger] blocks[i]).txns@.len() <= u64::MAX,
    ensures
        ascending(txn_keys(blocks)),
        forall|i: int| 0 <= i < txn_keys(blocks).len() ==> (#[trigger] txn_keys(blocks)[i]).height <= blocks.len(),
    decreases blocks.len(),
{
    if blocks.len() > 0 {
        let front = blocks.drop_last();
        let last = blocks.last();
        let n = blocks.len() - 1;
        assert forall|i: int| 0 <= i < n implies front[i] == blocks[i] by {}
        assert(blocks[n] == last);
        assert(last.height.0 == n + 1);
        lemma_txn_keys_ascending(front);
        let a = txn_keys(front);
        let b = keys_of_block(last);
        let keys = txn_keys(blocks);
        assert(keys == a + b);
        assert forall|i: int, j: int| 0 <= i < j < keys.len() implies older(#[trigger] keys[i], #[trigger] keys[j]) by {
            if j < a.len() {
                assert(keys[i] == a[i] && keys[j] == a[j]);
            } else if i < a.len() {
                assert(keys[i] == a[i]);
                assert(keys[j] == b[j - a.len()]);
                assert(a[i].height <= n);
            } else {
                assert(keys[i] == b[i - a.len()]);
                assert(keys[j] == b[j - a.len()]);
            }
        }
        assert forall|i: int| 0 <= i < keys.len() implies (#[trigger] keys[i]).height <= blocks.len() by {
            if i < a.len() {
                assert(keys[i] == a[i]);
            } else {
                assert(keys[i] == b[i - a.len()]);
            }
        }
    }
}

/// Walking forward and then backward through the blocks of a store returns
/// to the same blocks.
pub proof fn lemma_blocks_walk_returns(
    blocks: Seq<Block>,
    order: ListOrder,
    choice: Option<CursorChoice>,
    limit: int,
)
    requires
        heights_dense(blocks),
        limit >= 0,
    ensures
        walk_returns(block_keys(blocks), order, choice, limit),
{
    lemma_block_keys_ascending(blocks);
    lemma_round_trip(block_keys(blocks), order, choice, limit);
}

/// Walking forward and then backward through the transactions of a store
/// returns to the same transactions.
pub proof fn lemma_transactions_walk_returns(
    blocks: Seq<Block>,
    order: ListOrder,
    choice: Option<CursorChoice>,
    limit: int,
)
    requires
        heights_dense(blocks),
        forall|i: int| 0 <= i < blocks.len() ==> (#[trigger] blocks[i]).txns@.len() <= u64::MAX,
        limit >= 0,
    ensures
        walk_returns(txn_keys(blocks), order, choice, limit),
{
    lemma_txn_keys_ascending(blocks);
    lemma_round_trip(txn_keys(blocks), order, choice, limit);
}

/// Where the first proof with this hash stands: the index of its block and
/// its position in the block.
pub open spec fn first_with_hash(blocks: Seq<Block>, txn_hash: Element) -> Option<(int, int)>
    decreases blocks.len(),
{
    if blocks.len() == 0 {
        None
    } else {
        match first_with_hash(blocks.drop_last(), txn_hash) {
            Some(at) => Some(at),
            None => match first_in_block(blocks.last().txns@, txn_hash) {
                Some(k) => Some((blocks.len() - 1, k)),
                None => None,
            },
        }
    }
}

/// The position of the first of the proofs that has this hash.
pub open spec fn first_in_block(txns: Seq<crate::utxo::UtxoProof>, txn_hash: Element) -> Option<int>
    decreases txns.len(),
{
    if txns.len() == 0 {
        None
    } else {
        match first_in_block(txns.drop_last(), txn_hash) {
            Some(k) => Some(k),
            None => if txns.last().txn_hash == txn_hash {
                Some(txns.len() - 1)
            } else {
                None
            },
        }
    }
}

/// The first proof with the hash is a proof with the hash, and there is none
/// exactly when no proof of the block has the hash.
pub proof fn lemma_first_in_block(txns: Seq<crate::utxo::UtxoProof>, txn_hash: Element)
    ensures
        match first_in_block(txns, txn_hash) {
            Some(k) => 0 <= k < txns.len() && txns[k].txn_hash == txn_hash && forall|i: int|
                0 <= i < k ==> (#[trigger] txns[i]).txn_hash != txn_hash,
            None => forall|i: int| 0 <= i < txns.len() ==> (#[trigger] txns[i]).txn_hash != txn_hash,
        },
    decreases txns.len(),
{
    if txns.len() > 0 {
        let front = txns.drop_last();
        lemma_first_in_block(front, txn_hash);
        assert forall|i: int| 0 <= i < front.len() implies front[i] == txns[i] by {}
        match first_in_block(front, txn_hash) {
            Some(k) => {
                assert(front[k] == txns[k]);
                assert forall|i: int| 0 <= i < k implies (#[trigger] txns[i]).txn_hash != txn_hash by {
                    assert(front[i] == txns[i]);
                }
            },
            None => {
                assert forall|i: int| 0 <= i < txns.len() - 1 implies (#[trigger] txns[i]).txn_hash != txn_hash by {
                    assert(front[i] == txns[i]);
                }
            },
        }
    }
}

/// A proof found among the first `n` blocks is the first of the whole.
pub proof fn lemma_first_with_hash_extends(blocks: Seq<Block>, txn_hash: Element, n: int)
    requires
        0 <= n <= blocks.len(),
        first_with_hash(blocks.take(n), txn_hash) is Some,
    ensures
        first_with_hash(blocks, txn_hash) == first_with_hash(blocks.take(n), txn_hash),
    decreases blocks.len() - n,
{
    if n == blocks.len() {
        assert(blocks.take(n) == blocks);
    } else {
        assert(blocks.take(n + 1).drop_last() == blocks.take(n));
        lemma_first_with_hash_extends(blocks, txn_hash, n + 1);
    }
}

/// Where a transaction stands in the chain.
#[derive(Clone, Copy, Debug, PartialEq, Eq, Structural)]
pub struct TxnLocation {
    pub height: BlockHeight,
    pub index: usize,
}

/// The position of the first proof of the block that has this hash.
fn position_in_block(block: &Block, txn_hash: &Element) -> (found: Option<usize>)
    ensures
        match found {
            Some(k) => first_in_block(block.txns@, *txn_hash) == Some(k as int),
            None => first_in_block(block.txns@, *txn_hash) is None,
        },
{
    let mut k: usize = 0;
    while k < block.txns.len()
        invariant
            k <= block.txns.len(),
            forall|i: int| 0 <= i < k ==> (#[trigger] block.txns@[i]).txn_hash != *txn_hash,
        decreases block.txns.len() - k,
    {
        if block.txns[k].txn_hash == *txn_hash {
            proof {
                lemma_first_in_block(block.txns@, *txn_hash);
            }
            return Some(k);
        }
        k += 1;
    }
    proof {
        lemma_first_in_block(block.txns@, *txn_hash);
    }
    None
}

/// Finds the transaction with this hash: the first proof with the hash in
/// the oldest block that has one. Where no block has one, the error says
/// that the transaction is not found.
pub fn get_transaction(store: &BlockStore, txn_hash: Element) -> (r: Result<TxnLocation, Error>)
    requires
        store.wf(),
    ensures
        match first_with_hash(store@, txn_hash) {
            Some((i, k)) => r == Ok::<TxnLocation, Error>(
                TxnLocation { height: store@[i].height, index: k as usize },
            ) && 0 <= i < store@.len() && 0 <= k < store@[i].txns@.len() && store@[i].txns@[k].txn_hash
                == txn_hash,
            None => r == Err::<TxnLocation, Error>(Error::Rpc(RpcError::TxnNotFound(txn_hash))),
        },
{
    let newest = store.height().0;
    let mut h: u64 = 0;
    while h < newest
        invariant
            h <= newest,
            newest == store@.len(),
            store.wf(),
            first_with_hash(store@.take(h as int), txn_hash) is None,
        decreases newest - h,
    {
        h += 1;
        let block = match store.get_block(BlockHeight(h)) {
            Some(block) => block,
            None => {
                return Err(Error::Rpc(RpcError::TxnNotFound(txn_hash)));
            },
        };
        proof {
            assert(store@.take(h as int).drop_last() == store@.take(h - 1));
            assert(store@.take(h as int).last() == *block);
            lemma_first_in_block(block.txns@, txn_hash);
        }
        if let Some(k) = position_in_block(block, &txn_hash) {
            proof {
                lemma_first_with_hash_extends(store@, txn_hash, h as int);
            }
            return Ok(TxnLocation { height: block.height, index: k });
        }
    }
    assert(store@.take(h as int) == store@);
    Err(Error::Rpc(RpcError::TxnNotFound(txn_hash)))
}

/// The places of the blocks of the store, oldest first.
fn block_places(store: &BlockStore) -> (keys: Vec<CursorPosition>)
    requires
        store.wf(),
    ensures
        keys@ == block_keys(store@),
{
    let newest = store.height().0;
    let mut keys: Vec<CursorPosition> = Vec::new();
    let mut h: u64 = 0;
    while h < newest
        invariant
            h <= newest,
            newest == store@.len(),
            store.wf(),
            keys@ == block_keys(store@.take(h as int)),
        decreases newest - h,
    {
        h += 1;
        keys.push(CursorPosition { height: h, tiebreak: 0 });
        assert(keys@ =~= block_keys(store@.take(h as int)));
    }
    assert(store@.take(h as int) == store@);
    keys
}

/// The places of the proofs of the store, oldest first.
fn txn_places(store: &BlockStore) -> (keys: Vec<CursorPosition>)
    requires
        store.wf(),
    ensures
        keys@ == txn_keys(store@),
{
    let newest = store.height().0;
    let mut keys: Vec<CursorPosition> = Vec::new();
    let mut h: u64 = 0;
    while h < newest
        invariant
            h <= newest,
            newest == store@.len(),
            store.wf(),
            keys@ == txn_keys(store@.take(h as int)),
        decreases newest - h,
    {
        h += 1;
        let ghost before = keys@;
        if let Some(block) = store.get_block(BlockHeight(h)) {
            proof {
                assert(store@.take(h as int).drop_last() == store@.take(h - 1));
                assert(store@.take(h as int).last() == *block);
            }
            let mut k: usize = 0;
            while k < block.txns.len()
                invariant
                    k <= block.txns.len(),
                    block.height.0 == h,
                    keys@ == before + keys_of_block(*block).take(k as int),
                decreases block.txns.len() - k,
            {
                keys.push(CursorPosition { height: h, tiebreak: k as u64 });
                assert(keys@ =~= before + keys_of_block(*block).take(k as int + 1));
                k += 1;
            }
            assert(keys_of_block(*block).take(k as int) == keys_of_block(*block));
        }
    }
    assert(store@.take(h as int) == store@);
    keys
}

/// A page of the blocks of the store. Each item is the place of a block: its
/// height.
pub fn list_blocks(store: &BlockStore, order: ListOrder, choice: Option<CursorChoice>, limit: usize) -> (page:
    Page)
    requires
        store.wf(),
    ensures
        page@ == page_of(block_keys(store@), order, choice, limit as int),
        page.items@.len() <= limit,
{
    let keys = block_places(store);
    paginate(&keys, order, choice, limit)
}

/// A page of the transactions of the store. Each item is the place of a
/// proof: the height of its block, and its position in the block.
pub fn list_transactions(store: &BlockStore, order: ListOrder, choice: Option<CursorChoice>, limit: usize) -> (page:
    Page)
    requires
        store.wf(),
    ensures
        page@ == page_of(txn_keys(store@), order, choice, limit as int),
        page.items@.len() <= limit,
{
    let keys = txn_places(store);
    paginate(&keys, order, choice, limit)
}

} // verus!
