use rollup_node::element::Element;
use rollup_node::store::{Block, BlockStore, ElementHistory};
use rollup_node::tree::{occurs_before, CommitmentTree, ElementMeta};
use rollup_node::utxo::{BlockHeight, UtxoKindMessages, UtxoProof, UtxoPublicInputs};

fn el(v: u64) -> Element {
    Element::new(v)
}

fn els(vs: &[u64]) -> Vec<Element> {
    vs.iter().map(|v| Element::new(*v)).collect()
}

fn send(hash: u64, ins: [u64; 2], outs: [u64; 2]) -> UtxoProof {
    UtxoProof {
        public_inputs: UtxoPublicInputs {
            input_commitments: [el(ins[0]), el(ins[1])],
            output_commitments: [el(outs[0]), el(outs[1])],
            recent_root: Element::zero(),
        },
        kind: UtxoKindMessages::Send,
        txn_hash: el(hash),
    }
}

fn block(height: u64, txns: Vec<UtxoProof>) -> Block {
    Block {
        height: BlockHeight(height),
        prev_hash: el(1000 + height - 1),
        txns,
        root_hash: el(2000 + height),
        hash: el(1000 + height),
    }
}

#[test]
fn new_tree_is_empty_with_the_given_root() {
    let tree = CommitmentTree::new(el(77));
    assert_eq!(tree.len(), 0);
    assert_eq!(tree.root_hash(), el(77));
    assert!(!tree.contains_element(&el(1)));
    assert_eq!(tree.get(el(1)), None);
}

#[test]
fn insert_batch_skips_padding_and_records_the_height() {
    let mut tree = CommitmentTree::new(el(77));
    assert_eq!(tree.insert_batch(&els(&[5, 0, 6, 0]), BlockHeight(3)), Ok(()));
    assert_eq!(tree.len(), 2);
    assert!(tree.contains_element(&el(5)));
    assert!(tree.contains_element(&el(6)));
    assert!(!tree.contains_element(&Element::zero()));
    assert_eq!(tree.get(el(5)), Some(ElementMeta { inserted_in: BlockHeight(3) }));
    assert_eq!(tree.insert_batch(&els(&[7]), BlockHeight(4)), Ok(()));
    assert_eq!(tree.get(el(7)), Some(ElementMeta { inserted_in: BlockHeight(4) }));
    assert_eq!(tree.get(el(6)), Some(ElementMeta { inserted_in: BlockHeight(3) }));
    // the root is only changed by set_root
    assert_eq!(tree.root_hash(), el(77));
}

#[test]
fn insert_batch_rejects_an_element_that_exists_and_changes_nothing() {
    let mut tree = CommitmentTree::new(el(77));
    assert_eq!(tree.insert_batch(&els(&[5, 6]), BlockHeight(1)), Ok(()));
    assert_eq!(tree.insert_batch(&els(&[8, 6, 5]), BlockHeight(2)), Err(el(6)));
    assert_eq!(tree.len(), 2);
    assert!(!tree.contains_element(&el(8)));
}

#[test]
fn insert_batch_rejects_an_element_that_stands_twice() {
    let mut tree = CommitmentTree::new(el(77));
    assert_eq!(tree.insert_batch(&els(&[8, 9, 8]), BlockHeight(2)), Err(el(8)));
    assert_eq!(tree.len(), 0);
    // padding may stand as often as it likes
    assert_eq!(tree.insert_batch(&els(&[0, 0, 0]), BlockHeight(2)), Ok(()));
    assert_eq!(tree.len(), 0);
}

#[test]
fn remove_batch_removes_and_keeps_the_rest() {
    let mut tree = CommitmentTree::new(el(77));
    assert_eq!(tree.insert_batch(&els(&[5, 6, 7]), BlockHeight(1)), Ok(()));
    assert_eq!(tree.remove_batch(&els(&[6, 0])), Ok(()));
    assert_eq!(tree.len(), 2);
    assert!(tree.contains_element(&el(5)));
    assert!(!tree.contains_element(&el(6)));
    assert!(tree.contains_element(&el(7)));
    assert_eq!(tree.get(el(7)), Some(ElementMeta { inserted_in: BlockHeight(1) }));
}

#[test]
fn remove_batch_rejects_what_is_missing_or_twice() {
    let mut tree = CommitmentTree::new(el(77));
    assert_eq!(tree.insert_batch(&els(&[5, 6, 7]), BlockHeight(1)), Ok(()));
    assert_eq!(tree.unremovable(&els(&[5, 9, 8])), Some(el(9)));
    assert_eq!(tree.remove_batch(&els(&[5, 9, 8])), Err(el(9)));
    assert_eq!(tree.len(), 3);
    assert_eq!(tree.unremovable(&els(&[5, 6, 5])), Some(el(5)));
    assert_eq!(tree.remove_batch(&els(&[5, 6, 5])), Err(el(5)));
    assert_eq!(tree.len(), 3);
    assert_eq!(tree.unremovable(&els(&[0, 5, 0, 7])), None);
}

#[test]
fn set_root_changes_only_the_root() {
    let mut tree = CommitmentTree::new(el(77));
    assert_eq!(tree.insert_batch(&els(&[5]), BlockHeight(1)), Ok(()));
    tree.set_root(el(78));
    assert_eq!(tree.root_hash(), el(78));
    assert!(tree.contains_element(&el(5)));
}

#[test]
fn occurs_before_looks_at_the_prefix_only() {
    let v = els(&[1, 2, 3]);
    assert!(occurs_before(&v, 2, &el(2)));
    assert!(!occurs_before(&v, 1, &el(2)));
    assert!(!occurs_before(&v, 0, &el(1)));
    assert!(!occurs_before(&v, 3, &el(4)));
}

#[test]
fn store_appends_only_the_next_height() {
    let mut store = BlockStore::new();
    assert_eq!(store.height(), BlockHeight(0));
    assert!(store.append(block(2, vec![])).is_err());
    assert!(store.append(block(0, vec![])).is_err());
    assert_eq!(store.height(), BlockHeight(0));
    assert!(store.append(block(1, vec![])).is_ok());
    assert!(store.append(block(1, vec![])).is_err());
    assert!(store.append(block(2, vec![])).is_ok());
    assert_eq!(store.height(), BlockHeight(2));
}

#[test]
fn store_hands_a_refused_block_back() {
    let mut store = BlockStore::new();
    let refused = store.append(block(5, vec![send(1, [0, 0], [3, 0])])).unwrap_err();
    assert_eq!(refused.height, BlockHeight(5));
    assert_eq!(refused.txns.len(), 1);
}

#[test]
fn store_finds_blocks_by_height_and_hash() {
    let mut store = BlockStore::new();
    assert!(store.append(block(1, vec![])).is_ok());
    assert!(store.append(block(2, vec![send(1, [0, 0], [3, 0])])).is_ok());
    assert!(store.get_block(BlockHeight(0)).is_none());
    assert!(store.get_block(BlockHeight(3)).is_none());
    assert_eq!(store.get_block(BlockHeight(2)).unwrap().hash, el(1002));
    assert_eq!(store.get_block(BlockHeight(1)).unwrap().block_height(), BlockHeight(1));
    assert_eq!(store.get_block_by_hash(&el(1002)).unwrap().height, BlockHeight(2));
    assert!(store.get_block_by_hash(&el(999)).is_none());
}

#[test]
fn history_tells_insertion_and_removal() {
    let mut store = BlockStore::new();
    assert!(store.append(block(1, vec![send(1, [0, 0], [3, 0])])).is_ok());
    assert!(store.append(block(2, vec![])).is_ok());
    assert!(store.append(block(3, vec![send(2, [3, 0], [4, 5])])).is_ok());
    assert_eq!(
        store.get_element_history(el(3)),
        ElementHistory { insertion_block: Some(BlockHeight(1)), removal_block: Some(BlockHeight(3)) }
    );
    assert_eq!(
        store.get_element_history(el(4)),
        ElementHistory { insertion_block: Some(BlockHeight(3)), removal_block: None }
    );
    assert_eq!(
        store.get_element_history(el(9)),
        ElementHistory { insertion_block: None, removal_block: None }
    );
    // padding has no history
    assert_eq!(
        store.get_element_history(Element::zero()),
        ElementHistory { insertion_block: None, removal_block: None }
    );
}

#[test]
fn block_lists_its_slots_in_order() {
    let b = block(1, vec![send(1, [1, 0], [3, 4]), send(2, [0, 2], [0, 5])]);
    assert_eq!(b.input_list(), els(&[1, 0, 0, 2]));
    assert_eq!(b.output_list(), els(&[3, 4, 0, 5]));
    assert!(b.spends(&el(2)));
    assert!(!b.spends(&el(3)));
    assert!(!b.spends(&Element::zero()));
    assert!(b.makes(&el(5)));
    assert!(!b.makes(&el(1)));
    assert!(!b.makes(&Element::zero()));
    assert_eq!(b.find_txn(&el(5)), Some(1));
    assert_eq!(b.find_txn(&el(1)), Some(0));
    assert_eq!(b.find_txn(&el(9)), None);
}
