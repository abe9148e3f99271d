use rollup_node::element::Element;
use rollup_node::error::{Error, ErrorCode, RpcError};
use rollup_node::interface::TransactionResponse;
use rollup_node::mempool::{find_shared, Completion, Mempool, MempoolError, Outcome};
use rollup_node::store::Block;
use rollup_node::utxo::{BlockHeight, UtxoKindMessages, UtxoProof, UtxoPublicInputs};

fn el(v: u64) -> Element {
    Element::new(v)
}

fn send(hash: u64, ins: [u64; 2], outs: [u64; 2]) -> UtxoProof {
    UtxoProof {
        public_inputs: UtxoPublicInputs {
            input_commitments: [el(ins[0]), el(ins[1])],
            output_commitments: [el(outs[0]), el(outs[1])],
            recent_root: Element::zero(),
        },
        kind: UtxoKindMessages::Send,
        txn_hash: el(hash),
    }
}

fn add(pool: &mut Mempool, p: UtxoProof) -> Result<(), MempoolError> {
    pool.add(p.hash(), p, p.input_commitments())
}

fn add_wait(pool: &mut Mempool, p: UtxoProof) -> Result<(), MempoolError> {
    pool.add_wait(p.hash(), p, p.input_commitments())
}

fn block(height: u64, txns: Vec<UtxoProof>) -> Block {
    Block {
        height: BlockHeight(height),
        prev_hash: el(0),
        txns,
        root_hash: el(2000 + height),
        hash: el(1000 + height),
    }
}

#[test]
fn find_shared_names_the_first_shared_input() {
    let a = vec![el(0), el(3), el(4)];
    let b = vec![el(4), el(0), el(3)];
    assert_eq!(find_shared(&a, &b), Some(el(3)));
    assert_eq!(find_shared(&b, &a), Some(el(4)));
    assert_eq!(find_shared(&a, &vec![el(0), el(5)]), None);
    assert_eq!(find_shared(&vec![], &b), None);
}

#[test]
fn proofs_wait_in_the_order_of_admission() {
    let mut pool = Mempool::new();
    let a = send(1, [10, 0], [20, 0]);
    let b = send(2, [11, 0], [21, 0]);
    let c = send(3, [12, 13], [22, 0]);
    assert_eq!(add(&mut pool, a), Ok(()));
    assert_eq!(add_wait(&mut pool, b), Ok(()));
    assert_eq!(add(&mut pool, c), Ok(()));
    assert_eq!(pool.len(), 3);
    assert!(pool.contains(&el(2)));
    assert!(!pool.contains(&el(4)));
    assert_eq!(pool.take_for_block(10), vec![a, b, c]);
    assert_eq!(pool.take_for_block(2), vec![a, b]);
    assert_eq!(pool.take_for_block(0), Vec::<UtxoProof>::new());
    // taking does not remove
    assert_eq!(pool.len(), 3);
}

#[test]
fn a_proof_that_shares_an_input_is_not_admitted() {
    let mut pool = Mempool::new();
    assert_eq!(add(&mut pool, send(1, [10, 11], [20, 0])), Ok(()));
    assert_eq!(
        add(&mut pool, send(2, [12, 11], [21, 0])),
        Err(MempoolError::InputConflict(el(11)))
    );
    assert_eq!(pool.len(), 1);
    assert!(!pool.contains(&el(2)));
}

#[test]
fn conflicts_have_their_classes() {
    assert_eq!(MempoolError::InputConflict(el(11)).code(), ErrorCode::NotFound);
    assert_eq!(MempoolError::AlreadyExists(el(1)).code(), ErrorCode::AlreadyExists);
    assert_eq!(
        MempoolError::InputConflict(el(11)).reported(),
        Some(RpcError::TxnInputCommitmentsNotInTree(el(11)))
    );
    assert_eq!(MempoolError::AlreadyExists(el(1)).reported(), None);
}

#[test]
fn padding_is_no_conflict() {
    let mut pool = Mempool::new();
    assert_eq!(add(&mut pool, send(1, [0, 0], [20, 0])), Ok(()));
    assert_eq!(add(&mut pool, send(2, [0, 0], [21, 0])), Ok(()));
    assert_eq!(add(&mut pool, send(3, [0, 5], [22, 0])), Ok(()));
    assert_eq!(pool.len(), 3);
}

#[test]
fn a_proof_with_a_hash_that_waits_is_not_admitted() {
    let mut pool = Mempool::new();
    assert_eq!(add(&mut pool, send(1, [0, 0], [20, 0])), Ok(()));
    assert_eq!(add(&mut pool, send(1, [0, 0], [20, 0])), Err(MempoolError::AlreadyExists(el(1))));
    assert_eq!(pool.len(), 1);
}

#[test]
fn the_first_waiting_proof_in_the_way_decides_the_conflict() {
    let mut pool = Mempool::new();
    assert_eq!(add(&mut pool, send(1, [10, 0], [20, 0])), Ok(()));
    assert_eq!(add(&mut pool, send(2, [11, 0], [21, 0])), Ok(()));
    // shares 11 with the second, and has the hash of nobody
    assert_eq!(
        add(&mut pool, send(3, [11, 10], [22, 0])),
        Err(MempoolError::InputConflict(el(10)))
    );
    // has the hash of the second, shares an input with the first
    assert_eq!(
        add(&mut pool, send(2, [10, 0], [22, 0])),
        Err(MempoolError::InputConflict(el(10)))
    );
}

#[test]
fn inclusion_ends_the_wait_of_the_included_and_of_those_in_conflict() {
    let mut pool = Mempool::new();
    let a = send(1, [10, 0], [20, 0]);
    let b = send(2, [11, 0], [21, 0]);
    let c = send(3, [12, 13], [22, 0]);
    let d = send(4, [14, 0], [23, 0]);
    assert_eq!(add_wait(&mut pool, a), Ok(()));
    assert_eq!(add(&mut pool, b), Ok(()));
    assert_eq!(add_wait(&mut pool, c), Ok(()));
    assert_eq!(add_wait(&mut pool, d), Ok(()));
    // the block holds a, and another proof that spends 13
    let other = send(9, [13, 0], [30, 0]);
    let done = pool.notify_included(&block(5, vec![a, other]));
    assert_eq!(
        done,
        vec![
            Completion {
                txn_hash: el(1),
                waited: true,
                outcome: Outcome::Included(TransactionResponse {
                    height: BlockHeight(5),
                    root_hash: el(2005),
                    txn_hash: el(1),
                }),
            },
            Completion {
                txn_hash: el(3),
                waited: true,
                outcome: Outcome::Failed(Error::Rpc(RpcError::TxnInputCommitmentsNotInTree(el(13)))),
            },
        ]
    );
    assert_eq!(pool.take_for_block(10), vec![b, d]);
    // the inputs are free again
    assert_eq!(add(&mut pool, send(7, [10, 12], [40, 0])), Ok(()));
}

#[test]
fn inclusion_of_a_block_without_relation_changes_nothing() {
    let mut pool = Mempool::new();
    let a = send(1, [10, 0], [20, 0]);
    assert_eq!(add(&mut pool, a), Ok(()));
    let done = pool.notify_included(&block(5, vec![send(9, [13, 0], [30, 0])]));
    assert_eq!(done, vec![]);
    assert_eq!(pool.take_for_block(10), vec![a]);
}

#[test]
fn rejection_ends_the_wait_once() {
    let mut pool = Mempool::new();
    let a = send(1, [10, 0], [20, 0]);
    let b = send(2, [11, 0], [21, 0]);
    assert_eq!(add_wait(&mut pool, a), Ok(()));
    assert_eq!(add(&mut pool, b), Ok(()));
    let err = Error::Rpc(RpcError::InvalidProof);
    assert_eq!(
        pool.notify_rejected(&el(1), err),
        Some(Completion { txn_hash: el(1), waited: true, outcome: Outcome::Failed(err) })
    );
    assert_eq!(pool.notify_rejected(&el(1), err), None);
    assert_eq!(pool.take_for_block(10), vec![b]);
    assert_eq!(
        pool.notify_rejected(&el(2), err),
        Some(Completion { txn_hash: el(2), waited: false, outcome: Outcome::Failed(err) })
    );
    assert_eq!(pool.len(), 0);
}
