use rollup_node::element::Element;
use rollup_node::error::{Error, ErrorCode, MintInContractIsDifferent, RpcError};
use rollup_node::l1::{check_mint, safe_eth_height, MintRegistration};
use rollup_node::store::{Block, BlockStore};
use rollup_node::tree::CommitmentTree;
use rollup_node::utxo::{BlockHeight, MintMessages, UtxoKindMessages, UtxoProof, UtxoPublicInputs};
use rollup_node::validator::validate_txn;

fn el(v: u64) -> Element {
    Element::new(v)
}

fn send(hash: u64, ins: [Element; 2], outs: [Element; 2]) -> UtxoProof {
    UtxoProof {
        public_inputs: UtxoPublicInputs {
            input_commitments: ins,
            output_commitments: outs,
            recent_root: Element::zero(),
        },
        kind: UtxoKindMessages::Send,
        txn_hash: el(hash),
    }
}

fn state() -> (BlockStore, CommitmentTree) {
    // block 1 created 10 and 11; block 2 spent 10 and created 12
    let mut store = BlockStore::new();
    let b1 = Block {
        height: BlockHeight(1),
        prev_hash: el(0),
        txns: vec![send(1, [el(0), el(0)], [el(10), el(11)])],
        root_hash: el(101),
        hash: el(201),
    };
    let b2 = Block {
        height: BlockHeight(2),
        prev_hash: el(201),
        txns: vec![send(2, [el(10), el(0)], [el(12), el(0)])],
        root_hash: el(102),
        hash: el(202),
    };
    assert!(store.append(b1).is_ok());
    assert!(store.append(b2).is_ok());
    let mut tree = CommitmentTree::new(el(100));
    assert!(tree.insert_batch(&vec![el(11)], BlockHeight(1)).is_ok());
    assert!(tree.insert_batch(&vec![el(12)], BlockHeight(2)).is_ok());
    (store, tree)
}

#[test]
fn a_valid_proof_passes() {
    let (store, tree) = state();
    let p = send(3, [el(11), el(12)], [el(20), el(21)]);
    assert_eq!(validate_txn(&p, true, &store, &tree), Ok(()));
}

#[test]
fn padding_passes_every_check() {
    let (store, tree) = state();
    let p = send(3, [el(0), el(0)], [el(0), el(0)]);
    assert_eq!(validate_txn(&p, true, &store, &tree), Ok(()));
    let q = send(3, [el(0), el(11)], [el(0), el(20)]);
    assert_eq!(validate_txn(&q, true, &store, &tree), Ok(()));
}

#[test]
fn a_proof_that_the_backend_refused_is_invalid() {
    let (store, tree) = state();
    let p = send(3, [el(11), el(12)], [el(20), el(21)]);
    assert_eq!(validate_txn(&p, false, &store, &tree), Err(Error::Rpc(RpcError::InvalidProof)));
    // the proof is checked before anything else
    let bad = send(3, [el(99), el(12)], [el(11), el(21)]);
    assert_eq!(validate_txn(&bad, false, &store, &tree), Err(Error::Rpc(RpcError::InvalidProof)));
}

#[test]
fn an_input_that_is_not_in_the_tree_is_not_found() {
    let (store, tree) = state();
    let p = send(3, [el(11), el(99)], [el(20), el(21)]);
    let err = validate_txn(&p, true, &store, &tree).unwrap_err();
    assert_eq!(err, Error::Rpc(RpcError::TxnInputCommitmentsNotInTree(el(99))));
    assert_eq!(err.code(), ErrorCode::NotFound);
    assert_eq!(err.reason(), "txn-input-commitments-not-in-tree");
}

#[test]
fn a_spent_input_is_not_in_the_tree() {
    let (store, tree) = state();
    let p = send(3, [el(10), el(0)], [el(20), el(0)]);
    assert_eq!(
        validate_txn(&p, true, &store, &tree),
        Err(Error::Rpc(RpcError::TxnInputCommitmentsNotInTree(el(10))))
    );
}

#[test]
fn an_output_that_is_in_the_tree_exists() {
    let (store, tree) = state();
    let p = send(3, [el(11), el(0)], [el(20), el(12)]);
    let err = validate_txn(&p, true, &store, &tree).unwrap_err();
    assert_eq!(err, Error::Rpc(RpcError::TxnOutputCommitmentsExist(el(12))));
    assert_eq!(err.code(), ErrorCode::AlreadyExists);
    assert_eq!(err.reason(), "output-commitments-exists");
}

#[test]
fn an_output_that_was_spent_existed_recently() {
    let (store, tree) = state();
    let p = send(3, [el(11), el(0)], [el(10), el(0)]);
    let err = validate_txn(&p, true, &store, &tree).unwrap_err();
    assert_eq!(err, Error::Rpc(RpcError::TxnOutputCommitmentsExistedRecently(el(10))));
    assert_eq!(err.code(), ErrorCode::AlreadyExists);
    assert_eq!(err.reason(), "output-commitments-existed-recently");
}

#[test]
fn a_commitment_at_or_above_the_modulus_has_an_invalid_size() {
    let (store, tree) = state();
    let m = Element::modulus();
    let p = send(3, [el(11), m], [el(20), el(0)]);
    let err = validate_txn(&p, true, &store, &tree).unwrap_err();
    assert_eq!(err, Error::Rpc(RpcError::InvalidElementSize(m)));
    assert_eq!(err.code(), ErrorCode::BadRequest);
    assert_eq!(err.reason(), "invalid-element-size");
    let above = Element { w3: u64::MAX, w2: 0, w1: 0, w0: 0 };
    let q = send(3, [el(11), el(0)], [above, el(0)]);
    assert_eq!(
        validate_txn(&q, true, &store, &tree),
        Err(Error::Rpc(RpcError::InvalidElementSize(above)))
    );
}

#[test]
fn the_first_fault_in_order_is_reported() {
    let (store, tree) = state();
    let m = Element::modulus();
    // inputs come before outputs
    let p = send(3, [el(11), el(99)], [m, el(12)]);
    assert_eq!(
        validate_txn(&p, true, &store, &tree),
        Err(Error::Rpc(RpcError::TxnInputCommitmentsNotInTree(el(99))))
    );
    // the first input slot comes before the second
    let q = send(3, [el(98), m], [el(20), el(0)]);
    assert_eq!(
        validate_txn(&q, true, &store, &tree),
        Err(Error::Rpc(RpcError::TxnInputCommitmentsNotInTree(el(98))))
    );
    // the first output slot comes before the second
    let r = send(3, [el(11), el(0)], [el(12), m]);
    assert_eq!(
        validate_txn(&r, true, &store, &tree),
        Err(Error::Rpc(RpcError::TxnOutputCommitmentsExist(el(12))))
    );
}

#[test]
fn safe_height_is_the_offset_below_the_newest_block() {
    assert_eq!(safe_eth_height(10, 3), 7);
    assert_eq!(safe_eth_height(10, 0), 10);
    assert_eq!(safe_eth_height(10, 10), 0);
    assert_eq!(safe_eth_height(3, 10), 0);
    assert_eq!(safe_eth_height(0, 1), 0);
    assert_eq!(safe_eth_height(u64::MAX, 1), u64::MAX - 1);
    assert_eq!(safe_eth_height(0, u64::MAX), 0);
}

#[test]
fn check_mint_compares_amount_and_kind() {
    let mint = MintMessages { mint_hash: el(9), value: el(100), note_kind: el(2) };
    assert_eq!(check_mint(&mint, Some(MintRegistration { amount: el(100), note_kind: el(2) })), Ok(()));
    assert_eq!(check_mint(&mint, None), Err(RpcError::MintIsNotInTheContract(el(9))));
    let other_amount = check_mint(&mint, Some(MintRegistration { amount: el(99), note_kind: el(2) }));
    assert_eq!(
        other_amount,
        Err(RpcError::MintInContractIsDifferent(MintInContractIsDifferent {
            contract_value: el(99),
            contract_note_kind: el(2),
            proof_value: el(100),
            proof_note_kind: el(2),
        }))
    );
    let other_kind = check_mint(&mint, Some(MintRegistration { amount: el(100), note_kind: el(3) }));
    assert_eq!(
        other_kind,
        Err(RpcError::MintInContractIsDifferent(MintInContractIsDifferent {
            contract_value: el(100),
            contract_note_kind: el(3),
            proof_value: el(100),
            proof_note_kind: el(2),
        }))
    );
    assert_eq!(other_kind.unwrap_err().reason(), "mint-in-contract-is-different");
    assert_eq!(other_kind.unwrap_err().code(), ErrorCode::FailedPrecondition);
}
