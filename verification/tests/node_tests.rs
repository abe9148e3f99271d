use rollup_node::element::Element;
use rollup_node::error::{Error, ErrorCode, RpcError};
use rollup_node::interface::{TransactionRequest, TransactionResponse};
use rollup_node::l1::{MintAnswer, MintRegistration};
use rollup_node::ledger::{BlockError, ElementState};
use rollup_node::mempool::{Completion, MempoolError, Outcome};
use rollup_node::node::{
    AdmissionAction, AdmissionEvent, AdmissionWait, Config, MintQuery, NodeShared, RETRY_DELAY_SECS,
};
use rollup_node::query::{get_element, ElementsResponseSingle};
use rollup_node::store::Block;
use rollup_node::utxo::{
    BlockHeight, BurnMessages, MintMessages, UtxoKindMessages, UtxoProof, UtxoPublicInputs,
};

fn el(v: u64) -> Element {
    Element::new(v)
}

fn txn(hash: u64, ins: [u64; 2], outs: [u64; 2], kind: UtxoKindMessages) -> UtxoProof {
    UtxoProof {
        public_inputs: UtxoPublicInputs {
            input_commitments: [el(ins[0]), el(ins[1])],
            output_commitments: [el(outs[0]), el(outs[1])],
            recent_root: Element::zero(),
        },
        kind,
        txn_hash: el(hash),
    }
}

fn send(hash: u64, ins: [u64; 2], outs: [u64; 2]) -> UtxoProof {
    txn(hash, ins, outs, UtxoKindMessages::Send)
}

fn mint(hash: u64, commitment: u64, mint_hash: u64, value: u64) -> UtxoProof {
    txn(
        hash,
        [0, 0],
        [commitment, 0],
        UtxoKindMessages::Mint(MintMessages {
            mint_hash: el(mint_hash),
            value: el(value),
            note_kind: Element::zero(),
        }),
    )
}

fn block(height: u64, root: u64, txns: Vec<UtxoProof>) -> Block {
    Block {
        height: BlockHeight(height),
        prev_hash: el(1000 + height - 1),
        txns,
        root_hash: el(root),
        hash: el(1000 + height),
    }
}

fn node(offset: u64) -> NodeShared {
    NodeShared::new(Config { safe_eth_height_offset: offset }, el(500))
}

const REGISTERED: MintAnswer = MintAnswer::Registered(Some(MintRegistration {
    amount: Element { w3: 0, w2: 0, w1: 0, w0: 100 },
    note_kind: Element { w3: 0, w2: 0, w1: 0, w0: 0 },
}));

const NOTHING: MintAnswer = MintAnswer::Registered(None);

#[test]
fn the_default_response_names_no_block() {
    let r = TransactionResponse::default();
    assert_eq!(r.height, BlockHeight(0));
    assert_eq!(r.root_hash, Element::zero());
    assert_eq!(r.txn_hash, Element::zero());
}

#[test]
fn genesis_is_empty() {
    let n = node(1);
    assert_eq!(n.height(), BlockHeight(0));
    assert_eq!(n.root_hash(), el(500));
    assert_eq!(n.notes_tree().len(), 0);
    assert_eq!(n.mempool().len(), 0);
    assert!(n.get_block(BlockHeight(1)).is_none());
    assert_eq!(n.block_store().height(), BlockHeight(0));
}

#[test]
fn mint_lookup_asks_at_the_safe_height() {
    let n = node(3);
    let m = mint(1, 10, 77, 100);
    assert_eq!(n.mint_lookup(&m, 10), Some(MintQuery { mint_hash: el(77), at_height: 7 }));
    assert_eq!(n.mint_lookup(&m, 2), Some(MintQuery { mint_hash: el(77), at_height: 0 }));
    assert_eq!(n.mint_lookup(&send(2, [0, 0], [11, 0]), 10), None);
}

#[test]
fn retry_delay_is_one_base_chain_block() {
    assert_eq!(RETRY_DELAY_SECS, 6);
}

// A mint that the base chain never shows at the safe height: the submission
// waits while the base chain moves on by no more than the offset, then gives
// up with the error of the last attempt. The root does not change.
#[test]
fn mint_transaction_not_in_contract() {
    let n = node(1);
    let root_hash_before = n.root_hash();
    let m = mint(1, 10, 77, 100);
    let mut wait = AdmissionWait::new();

    let r = n.validate_transaction(&m, true, NOTHING);
    let err = r.unwrap_err();
    assert_eq!(err.reason(), "mint-not-in-contract");
    assert_eq!(
        n.submit_transaction_and_wait(&m, &mut wait, AdmissionEvent::Validated(r)),
        AdmissionAction::ReadEthBlock
    );
    // the wait begins at block 20
    assert_eq!(
        n.submit_transaction_and_wait(&m, &mut wait, AdmissionEvent::EthBlock(Some(20))),
        AdmissionAction::SleepThenValidate { secs: 6 }
    );
    assert_eq!(wait.started_waiting_at_eth_block, Some(20));
    // one block later: still within the offset
    let r = n.validate_transaction(&m, true, NOTHING);
    assert_eq!(
        n.submit_transaction_and_wait(&m, &mut wait, AdmissionEvent::Validated(r)),
        AdmissionAction::ReadEthBlock
    );
    assert_eq!(
        n.submit_transaction_and_wait(&m, &mut wait, AdmissionEvent::EthBlock(Some(21))),
        AdmissionAction::SleepThenValidate { secs: 6 }
    );
    assert_eq!(wait.started_waiting_at_eth_block, Some(20));
    // two blocks later: waited too long
    let r = n.validate_transaction(&m, true, NOTHING);
    assert_eq!(
        n.submit_transaction_and_wait(&m, &mut wait, AdmissionEvent::Validated(r)),
        AdmissionAction::ReadEthBlock
    );
    let last = n.submit_transaction_and_wait(&m, &mut wait, AdmissionEvent::EthBlock(Some(22)));
    assert_eq!(last, AdmissionAction::Reject(Error::Rpc(RpcError::MintIsNotInTheContract(el(77)))));
    match last {
        AdmissionAction::Reject(err) => assert_eq!(err.reason(), "mint-not-in-contract"),
        _ => panic!("Expected mint to fail, got Ok"),
    }
    // Root hash should not change
    assert_eq!(root_hash_before, n.root_hash());
    assert_eq!(n.mempool().len(), 0);
}

// A mint that the base chain shows one block later: the first attempt does
// not find it, the second does; the proof is enqueued and included; the root
// changes; the element is found at the new height and root.
#[test]
fn mint_transaction_only() {
    let mut n = node(1);
    let root_hash_before = n.root_hash();
    let m = mint(1, 10, 77, 100);
    let mut wait = AdmissionWait::new();

    let r = n.validate_transaction(&m, true, NOTHING);
    assert_eq!(r, Err(Error::Rpc(RpcError::MintIsNotInTheContract(el(77)))));
    assert_eq!(
        n.submit_transaction_and_wait(&m, &mut wait, AdmissionEvent::Validated(r)),
        AdmissionAction::ReadEthBlock
    );
    assert_eq!(
        n.submit_transaction_and_wait(&m, &mut wait, AdmissionEvent::EthBlock(Some(20))),
        AdmissionAction::SleepThenValidate { secs: 6 }
    );
    let r = n.validate_transaction(&m, true, REGISTERED);
    assert_eq!(r, Ok(()));
    assert_eq!(
        n.submit_transaction_and_wait(&m, &mut wait, AdmissionEvent::Validated(r)),
        AdmissionAction::Enqueue { txn_hash: el(1), input_commitments: [el(0), el(0)] }
    );
    assert_eq!(n.enqueue_transaction(TransactionRequest { proof: m }), Ok(()));
    let txns = n.mempool().take_for_block(10);
    assert_eq!(txns, vec![m]);
    let done = n.apply_block(block(1, 501, txns), el(501)).unwrap();
    assert_eq!(
        done,
        vec![Completion {
            txn_hash: el(1),
            waited: true,
            outcome: Outcome::Included(TransactionResponse {
                height: BlockHeight(1),
                root_hash: el(501),
                txn_hash: el(1),
            }),
        }]
    );
    assert_ne!(n.root_hash(), root_hash_before);
    assert_eq!(n.root_hash(), el(501));
    assert_eq!(n.height(), BlockHeight(1));
    assert_eq!(n.mempool().len(), 0);
    assert_eq!(
        get_element(&n, el(10)),
        Ok(ElementsResponseSingle {
            element: el(10),
            height: BlockHeight(1),
            root_hash: el(501),
            txn_hash: el(1),
        })
    );
}

#[test]
fn mint_and_transfer_alice_to_bob() {
    let mut n = node(0);
    let root0 = n.root_hash();
    let m = mint(1, 10, 77, 100);
    assert_eq!(n.validate_transaction(&m, true, REGISTERED), Ok(()));
    assert_eq!(n.enqueue_transaction(TransactionRequest { proof: m }), Ok(()));
    assert!(n.apply_block(block(1, 501, vec![m]), el(501)).is_ok());
    let root1 = n.root_hash();
    assert_ne!(root0, root1);

    // Alice's note 10 goes to Bob's note 11
    let t = send(2, [10, 0], [11, 0]);
    assert_eq!(n.validate_transaction(&t, true, NOTHING), Ok(()));
    assert_eq!(n.enqueue_transaction(TransactionRequest { proof: t }), Ok(()));
    assert!(n.apply_block(block(2, 502, vec![t]), el(502)).is_ok());
    let root2 = n.root_hash();
    assert_ne!(root1, root2);

    assert_eq!(
        get_element(&n, el(11)),
        Ok(ElementsResponseSingle {
            element: el(11),
            height: BlockHeight(2),
            root_hash: el(502),
            txn_hash: el(2),
        })
    );
    assert_eq!(get_element(&n, el(10)), Err(Error::Rpc(RpcError::ElementNotFound(el(10)))));
    assert_eq!(n.element_state(el(10)), ElementState::Removed);
    assert_eq!(n.element_state(el(11)), ElementState::Present);
    assert_eq!(n.element_state(el(12)), ElementState::NeverSeen);
    let history = n.block_store().get_element_history(el(10));
    assert_eq!(history.insertion_block, Some(BlockHeight(1)));
    assert_eq!(history.removal_block, Some(BlockHeight(2)));
}

// Two proofs that spend the same input: one is enqueued; the other is told
// that its input commitment is not found.
#[test]
fn double_spend() {
    let mut n = node(0);
    let m = mint(1, 10, 77, 100);
    assert!(n.apply_block(block(1, 501, vec![m]), el(501)).is_ok());

    let to_bob = send(2, [10, 0], [11, 0]);
    let to_carol = send(3, [10, 0], [12, 0]);
    assert_eq!(n.validate_transaction(&to_bob, true, NOTHING), Ok(()));
    assert_eq!(n.validate_transaction(&to_carol, true, NOTHING), Ok(()));
    let first = n.enqueue_transaction(TransactionRequest { proof: to_bob });
    let second = n.enqueue_transaction(TransactionRequest { proof: to_carol });
    // exactly one succeeds
    assert_eq!(first, Ok(()));
    assert_eq!(second, Err(MempoolError::InputConflict(el(10))));
    // the other is told that its input commitment is not found
    assert_eq!(second.unwrap_err().code(), ErrorCode::NotFound);
    assert_eq!(second.unwrap_err().code().as_str(), "not-found");
    assert_eq!(
        second.unwrap_err().reported(),
        Some(RpcError::TxnInputCommitmentsNotInTree(el(10)))
    );

    let txns = n.mempool().take_for_block(10);
    assert_eq!(txns, vec![to_bob]);
    assert!(n.apply_block(block(2, 502, txns), el(502)).is_ok());

    // submitted again after the block, the other is not found
    let again = n.validate_transaction(&to_carol, true, NOTHING);
    let err = again.unwrap_err();
    assert_eq!(err, Error::Rpc(RpcError::TxnInputCommitmentsNotInTree(el(10))));
    assert_eq!(err.code().as_str(), "not-found");
    // Root reflects exactly one application
    assert_eq!(n.root_hash(), el(502));
    assert!(n.notes_tree().contains_element(&el(11)));
    assert!(!n.notes_tree().contains_element(&el(12)));
}

// A proof that a peer sent and that spends the same input as a block: when
// the block comes, its wait ends with the error of an input that is not
// found.
#[test]
fn double_spend_across_nodes() {
    let mut n = node(0);
    let m = mint(1, 10, 77, 100);
    assert!(n.apply_block(block(1, 501, vec![m]), el(501)).is_ok());
    let ours = send(2, [10, 0], [11, 0]);
    let theirs = send(3, [10, 0], [12, 0]);
    assert_eq!(n.enqueue_transaction(TransactionRequest { proof: ours }), Ok(()));
    let done = n.apply_block(block(2, 502, vec![theirs]), el(502)).unwrap();
    assert_eq!(
        done,
        vec![Completion {
            txn_hash: el(2),
            waited: true,
            outcome: Outcome::Failed(Error::Rpc(RpcError::TxnInputCommitmentsNotInTree(el(10)))),
        }]
    );
    assert_eq!(n.mempool().len(), 0);
}

#[test]
fn double_mint() {
    let mut n = node(0);
    let m = mint(1, 10, 77, 100);
    assert_eq!(n.validate_transaction(&m, true, REGISTERED), Ok(()));
    assert!(n.apply_block(block(1, 501, vec![m]), el(501)).is_ok());
    let root_after_first = n.root_hash();

    let again = n.validate_transaction(&m, true, REGISTERED);
    let err = again.unwrap_err();
    assert_eq!(err.reason(), "output-commitments-exists");
    assert_eq!(err, Error::Rpc(RpcError::TxnOutputCommitmentsExist(el(10))));
    assert_eq!(n.root_hash(), root_after_first);
}

#[test]
fn burn_tx() {
    let mut n = node(0);
    let m = mint(1, 10, 77, 100);
    assert!(n.apply_block(block(1, 501, vec![m]), el(501)).is_ok());
    let burn = txn(
        2,
        [10, 0],
        [0, 0],
        UtxoKindMessages::Burn(BurnMessages { to: el(0xB0B), value: el(100), note_kind: el(0) }),
    );
    assert_eq!(n.validate_transaction(&burn, true, NOTHING), Ok(()));
    assert_eq!(n.enqueue_transaction(TransactionRequest { proof: burn }), Ok(()));
    let done = n.apply_block(block(2, 502, vec![burn]), el(502)).unwrap();
    assert_eq!(done.len(), 1);
    assert_eq!(n.notes_tree().len(), 0);
    assert_eq!(n.element_state(el(10)), ElementState::Removed);
}

#[test]
fn validation_checks_the_mint_after_the_commitments() {
    let mut n = node(0);
    let m = mint(1, 10, 77, 100);
    assert!(n.apply_block(block(1, 501, vec![m]), el(501)).is_ok());
    // the output exists and the mint is not registered: the output is reported
    assert_eq!(
        n.validate_transaction(&m, true, NOTHING),
        Err(Error::Rpc(RpcError::TxnOutputCommitmentsExist(el(10))))
    );
    // a refused proof is reported before the mint
    let fresh = mint(2, 11, 78, 100);
    assert_eq!(n.validate_transaction(&fresh, false, NOTHING), Err(Error::Rpc(RpcError::InvalidProof)));
    // the registration is not read for a proof that is no mint
    let t = send(3, [10, 0], [12, 0]);
    assert_eq!(n.validate_transaction(&t, true, NOTHING), Ok(()));
}

#[test]
fn the_base_chain_is_read_only_for_a_mint_that_is_valid_so_far() {
    let mut n = node(0);
    let m = mint(1, 10, 77, 100);
    assert!(n.needs_mint_lookup(&m, true));
    assert!(!n.needs_mint_lookup(&m, false));
    assert!(!n.needs_mint_lookup(&send(2, [0, 0], [11, 0]), true));
    assert!(n.apply_block(block(1, 501, vec![m]), el(501)).is_ok());
    // its output exists now
    assert!(!n.needs_mint_lookup(&m, true));
}

#[test]
fn a_lookup_that_failed_is_the_error_of_a_mint_that_is_valid_so_far() {
    let mut n = node(0);
    let m = mint(1, 10, 77, 100);
    let failed = MintAnswer::NoBlockNumber;
    assert_eq!(n.validate_transaction(&m, true, failed), Err(Error::FailedToGetEthBlockNumber));
    // a proof that is no mint does not need the base chain
    assert_eq!(n.validate_transaction(&send(2, [0, 0], [11, 0]), true, failed), Ok(()));
    // nor does a mint that is invalid without it
    assert_eq!(n.validate_transaction(&m, false, failed), Err(Error::Rpc(RpcError::InvalidProof)));
    assert!(n.apply_block(block(1, 501, vec![m]), el(501)).is_ok());
    assert_eq!(
        n.validate_transaction(&m, true, failed),
        Err(Error::Rpc(RpcError::TxnOutputCommitmentsExist(el(10))))
    );
}

#[test]
fn a_mint_for_another_amount_is_rejected_at_once() {
    let n = node(5);
    let m = mint(1, 10, 77, 100);
    let other = MintAnswer::Registered(Some(MintRegistration { amount: el(50), note_kind: el(0) }));
    let r = n.validate_transaction(&m, true, other);
    assert_eq!(r.unwrap_err().reason(), "mint-in-contract-is-different");
    let mut wait = AdmissionWait::new();
    assert_eq!(
        n.submit_transaction_and_wait(&m, &mut wait, AdmissionEvent::Validated(r)),
        AdmissionAction::Reject(r.unwrap_err())
    );
}

#[test]
fn with_offset_zero_a_missing_mint_is_rejected_at_once() {
    let n = node(0);
    let m = mint(1, 10, 77, 100);
    let r = n.validate_transaction(&m, true, NOTHING);
    let mut wait = AdmissionWait::new();
    assert_eq!(
        n.submit_transaction_and_wait(&m, &mut wait, AdmissionEvent::Validated(r)),
        AdmissionAction::Reject(Error::Rpc(RpcError::MintIsNotInTheContract(el(77))))
    );
    assert_eq!(wait, AdmissionWait::new());
}

#[test]
fn a_base_chain_that_does_not_answer_is_an_error() {
    let n = node(2);
    let m = mint(1, 10, 77, 100);
    let r = n.validate_transaction(&m, true, NOTHING);
    let mut wait = AdmissionWait::new();
    assert_eq!(
        n.submit_transaction_and_wait(&m, &mut wait, AdmissionEvent::Validated(r)),
        AdmissionAction::ReadEthBlock
    );
    let action = n.submit_transaction_and_wait(&m, &mut wait, AdmissionEvent::EthBlock(None));
    assert_eq!(action, AdmissionAction::Reject(Error::FailedToGetEthBlockNumber));
    assert_eq!(Error::FailedToGetEthBlockNumber.reason(), "failed-to-get-eth-block-number");
    assert_eq!(Error::FailedToGetEthBlockNumber.code(), ErrorCode::Internal);
}

#[test]
fn the_wait_is_measured_from_its_first_block() {
    let n = node(3);
    let m = mint(1, 10, 77, 100);
    let absent = Err(Error::Rpc(RpcError::MintIsNotInTheContract(el(77))));
    let mut wait = AdmissionWait::new();
    for current in [100u64, 101, 103, 99, 103] {
        assert_eq!(
            n.submit_transaction_and_wait(&m, &mut wait, AdmissionEvent::Validated(absent)),
            AdmissionAction::ReadEthBlock
        );
        assert_eq!(
            n.submit_transaction_and_wait(&m, &mut wait, AdmissionEvent::EthBlock(Some(current))),
            AdmissionAction::SleepThenValidate { secs: 6 }
        );
        assert_eq!(wait.started_waiting_at_eth_block, Some(100));
    }
    assert_eq!(
        n.submit_transaction_and_wait(&m, &mut wait, AdmissionEvent::Validated(absent)),
        AdmissionAction::ReadEthBlock
    );
    assert_eq!(
        n.submit_transaction_and_wait(&m, &mut wait, AdmissionEvent::EthBlock(Some(104))),
        AdmissionAction::Reject(Error::Rpc(RpcError::MintIsNotInTheContract(el(77))))
    );
}

#[test]
fn a_block_number_out_of_turn_asks_for_validation() {
    let n = node(3);
    let m = mint(1, 10, 77, 100);
    let mut wait = AdmissionWait::new();
    assert_eq!(
        n.submit_transaction_and_wait(&m, &mut wait, AdmissionEvent::EthBlock(Some(5))),
        AdmissionAction::Validate
    );
    assert_eq!(wait, AdmissionWait::new());
}

#[test]
fn received_transactions_never_fail() {
    let mut n = node(0);
    let t = send(2, [10, 0], [11, 0]);
    // an invalid one is dropped
    assert_eq!(n.receive_transaction(t, Err(Error::Rpc(RpcError::InvalidProof))), Ok(()));
    assert_eq!(n.mempool().len(), 0);
    // a valid one is put into the mempool
    assert_eq!(n.receive_transaction(t, Ok(())), Ok(()));
    assert_eq!(n.mempool().len(), 1);
    assert_eq!(n.mempool().take_for_block(1), vec![t]);
    // one in conflict is dropped
    assert_eq!(n.receive_transaction(send(3, [10, 0], [12, 0]), Ok(())), Ok(()));
    assert_eq!(n.mempool().len(), 1);
    // nobody waits for it
    let done = n.mempool().len();
    assert_eq!(done, 1);
}

#[test]
fn a_block_of_the_wrong_height_is_refused() {
    let mut n = node(0);
    let r = n.apply_block(block(2, 501, vec![]), el(501));
    assert_eq!(
        r,
        Err(BlockError::UnexpectedHeight { expected: BlockHeight(1), found: BlockHeight(2) })
    );
    assert_eq!(n.height(), BlockHeight(0));
}

#[test]
fn a_block_with_another_root_is_refused() {
    let mut n = node(0);
    let m = mint(1, 10, 77, 100);
    let r = n.apply_block(block(1, 501, vec![m]), el(999));
    assert_eq!(r, Err(BlockError::RootMismatch { header: el(501), computed: el(999) }));
    assert_eq!(n.height(), BlockHeight(0));
    assert_eq!(n.root_hash(), el(500));
    assert_eq!(n.notes_tree().len(), 0);
}

#[test]
fn a_block_that_spends_what_is_not_there_is_refused() {
    let mut n = node(0);
    let m = mint(1, 10, 77, 100);
    assert!(n.apply_block(block(1, 501, vec![m]), el(501)).is_ok());
    let r = n.apply_block(block(2, 502, vec![send(2, [10, 11], [12, 0])]), el(502));
    assert_eq!(r, Err(BlockError::InputNotSpendable(el(11))));
    // spending twice in one block
    let r = n.apply_block(
        block(2, 502, vec![send(2, [10, 0], [12, 0]), send(3, [0, 10], [13, 0])]),
        el(502),
    );
    assert_eq!(r, Err(BlockError::InputNotSpendable(el(10))));
    // spending what the same block creates
    let r = n.apply_block(
        block(2, 502, vec![send(2, [10, 0], [12, 0]), send(3, [12, 0], [13, 0])]),
        el(502),
    );
    assert_eq!(r, Err(BlockError::InputNotSpendable(el(12))));
    assert_eq!(n.height(), BlockHeight(1));
    assert!(n.notes_tree().contains_element(&el(10)));
    assert_eq!(n.notes_tree().len(), 1);
}

#[test]
fn a_block_that_creates_what_was_created_is_refused() {
    let mut n = node(0);
    assert!(n.apply_block(block(1, 501, vec![mint(1, 10, 77, 100)]), el(501)).is_ok());
    assert!(n.apply_block(block(2, 502, vec![send(2, [10, 0], [11, 0])]), el(502)).is_ok());
    // 11 is in the tree
    let r = n.apply_block(block(3, 503, vec![mint(3, 11, 78, 100)]), el(503));
    assert_eq!(r, Err(BlockError::OutputNotFresh(el(11))));
    // 10 was in the tree and is spent
    let r = n.apply_block(block(3, 503, vec![mint(3, 10, 78, 100)]), el(503));
    assert_eq!(r, Err(BlockError::OutputNotFresh(el(10))));
    // 12 twice in one block
    let r = n.apply_block(
        block(3, 503, vec![mint(3, 12, 78, 100), mint(4, 12, 79, 100)]),
        el(503),
    );
    assert_eq!(r, Err(BlockError::OutputNotFresh(el(12))));
    assert_eq!(n.height(), BlockHeight(2));
    assert_eq!(n.root_hash(), el(502));
}

#[test]
fn after_a_block_its_outputs_are_present_and_its_inputs_are_not() {
    let mut n = node(0);
    assert!(n
        .apply_block(block(1, 501, vec![mint(1, 10, 77, 100), mint(2, 11, 78, 100)]), el(501))
        .is_ok());
    let b = block(2, 502, vec![send(3, [10, 11], [12, 13]), mint(4, 14, 79, 1)]);
    assert!(n.apply_block(b, el(502)).is_ok());
    for created in [12u64, 13, 14] {
        assert!(n.notes_tree().contains_element(&el(created)));
        assert_eq!(n.element_state(el(created)), ElementState::Present);
        assert_eq!(n.notes_tree().get(el(created)).unwrap().inserted_in, BlockHeight(2));
    }
    for spent in [10u64, 11] {
        assert!(!n.notes_tree().contains_element(&el(spent)));
        assert_eq!(n.element_state(el(spent)), ElementState::Removed);
    }
    assert_eq!(n.element_state(Element::zero()), ElementState::NeverSeen);
    assert_eq!(n.root_hash(), el(502));
    assert_eq!(n.get_block(BlockHeight(2)).unwrap().root_hash, el(502));
}

// The state is a function of the chain: a second node that is given the same
// blocks ends in the same state, and an element is answered with the root of
// the block that created it.
#[test]
fn replaying_the_chain_reproduces_the_state() {
    let chain = || {
        vec![
            (block(1, 501, vec![mint(1, 10, 77, 100), mint(2, 11, 78, 100)]), 501),
            (block(2, 502, vec![send(3, [10, 0], [12, 13])]), 502),
            (block(3, 503, vec![]), 503),
            (block(4, 504, vec![send(4, [12, 11], [14, 0])]), 504),
        ]
    };
    let mut first = node(0);
    for (b, root) in chain() {
        assert!(first.apply_block(b, el(root)).is_ok());
    }
    let mut second = node(0);
    let mut roots_on_the_way = vec![];
    for (b, root) in chain() {
        assert!(second.apply_block(b, el(root)).is_ok());
        roots_on_the_way.push(second.root_hash());
    }
    assert_eq!(first.root_hash(), second.root_hash());
    assert_eq!(first.notes_tree().len(), second.notes_tree().len());
    for v in 9..=15u64 {
        assert_eq!(first.element_state(el(v)), second.element_state(el(v)));
        assert_eq!(get_element(&first, el(v)), get_element(&second, el(v)));
        if let Ok(answer) = get_element(&first, el(v)) {
            // the root of the answer is the root that the tree had after that block
            assert_eq!(answer.root_hash, roots_on_the_way[(answer.height.0 - 1) as usize]);
        }
    }
    assert_eq!(get_element(&first, el(13)).unwrap().height, BlockHeight(2));
    assert_eq!(get_element(&first, el(14)).unwrap().height, BlockHeight(4));
    assert_eq!(first.element_state(el(12)), ElementState::Removed);
}
