//! The node: one tree, one block store and one mempool, and the decisions of
//! the pipeline that takes a submitted proof to a block.

use vstd::prelude::*;
use crate::element::Element;
use crate::error::{Error, RpcError};
use crate::interface::TransactionRequest;
use crate::l1::{check_mint, mint_fault, safe_eth_height, safe_height, MintAnswer};
use crate::ledger::{
    applied_tree, block_fault, chain_valid, consistent, first_stale_output, lemma_apply_block,
    lemma_chain_consistent, lemma_chain_extends, lemma_first_stale_output_extends, replayed, BlockError,
    ElementState,
};
use crate::mempool::{
    completions_after, first_conflict, waiting_after, Completion, Mempool, MempoolError, Outcome,
};
use crate::store::{inserted_at, removed_at, Block, BlockStore};
use crate::tree::{holds, lemma_first_unremovable, lemma_insert_all_ok, occurs_before, CommitmentTree};
use crate::utxo::{BlockHeight, UtxoKindMessages, UtxoProof};
use crate::validator::{validate_txn, verdict};

verus! {

/// The seconds to wait before a mint that the base chain does not show yet is
/// looked up again: the time the base chain takes for a block.
pub const RETRY_DELAY_SECS: u64 = 6;

/// The settings of the node.
#[derive(Clone, Copy, Debug, PartialEq, Eq, Structural)]
pub struct Config {
    /// How many blocks below its newest the base chain is read. With 0 a mint
    /// that the base chain does not show is rejected at once.
    pub safe_eth_height_offset: u64,
}

/// Where to look a mint up on the base chain.
#[derive(Clone, Copy, Debug, PartialEq, Eq, Structural)]
pub struct MintQuery {
    pub mint_hash: Element,
    pub at_height: u64,
}

/// What a submission remembers between two attempts.
#[derive(Clone, Copy, Debug, PartialEq, Eq)]
pub struct AdmissionWait {
    /// The newest block of the base chain when the wait for the mint began.
    pub started_waiting_at_eth_block: Option<u64>,
    /// The error of the last attempt, while the base chain is asked for its
    /// newest block.
    pub pending: Option<Error>,
}

/// What happened since the last decision.
#[derive(Clone, Copy, Debug, PartialEq, Eq)]
pub enum AdmissionEvent {
    /// The proof was validated, with this result.
    Validated(Result<(), Error>),
    /// The base chain was asked for its newest block; `None` where it did not
    /// answer.
    EthBlock(Option<u64>),
}

/// What to do next with a submission.
#[derive(Clone, Copy, Debug, PartialEq, Eq)]
pub enum AdmissionAction {
    /// Validate the proof again now.
    Validate,
    /// Ask the base chain for its newest block.
    ReadEthBlock,
    /// Wait this many seconds, then validate the proof again.
    SleepThenValidate { secs: u64 },
    /// Send the proof to the peers, then put it into the mempool and wait for
    /// its outcome.
    Enqueue { txn_hash: Element, input_commitments: [Element; 2] },
    /// Give the submitter this error.
    Reject(Error),
}

/// Whether the base chain has to be read for a proof: it is a mint, and the
/// validity rules have nothing against it.
pub open spec fn mint_lookup_needed(utxo: UtxoProof, accepted: bool, tree: CommitmentTree, store: BlockStore) -> bool {
    utxo.kind is Mint && verdict(utxo, accepted, tree@, store@) is Ok
}

/// The verdict on a submitted proof: that of the validity rules; then, for a
/// mint, that the newest block of the base chain could not be read, where it
/// could not, and else the check against what the contract has registered at
/// the safe height.
pub open spec fn transaction_verdict(
    utxo: UtxoProof,
    accepted: bool,
    answer: MintAnswer,
    tree: CommitmentTree,
    store: BlockStore,
) -> Result<(), Error> {
    match verdict(utxo, accepted, tree@, store@) {
        Err(err) => Err(err),
        Ok(_) => match utxo.kind {
            UtxoKindMessages::Mint(mint) => match answer {
                MintAnswer::NoBlockNumber => Err(Error::FailedToGetEthBlockNumber),
                MintAnswer::Registered(registration) => match mint_fault(mint, registration) {
                    Some(fault) => Err(Error::Rpc(fault)),
                    None => Ok(()),
                },
            },
            _ => Ok(()),
        },
    }
}

/// Whether the error says that the contract does not show the mint.
pub open spec fn is_mint_absent(err: Error) -> bool {
    err matches Error::Rpc(RpcError::MintIsNotInTheContract(_))
}

/// The decision of the submission pipeline.
///
/// A proof that was found valid is enqueued. One that was found invalid is
/// rejected with its error, unless the error is that the contract does not
/// show the mint and the offset is positive: then the base chain is asked for
/// its newest block. If it does not answer, that is the error. If it has
/// moved on by more than the offset since the wait began, the submission is
/// rejected with the error of the last attempt; else the proof is validated
/// again after a pause of `RETRY_DELAY_SECS` seconds. The block at which the
/// wait began is the newest block of the first such answer.
pub open spec fn admission_step(offset: u64, utxo: UtxoProof, wait: AdmissionWait, event: AdmissionEvent) -> (
    AdmissionWait,
    AdmissionAction,
) {
    match event {
        AdmissionEvent::Validated(Ok(_)) => (
            AdmissionWait { pending: None, ..wait },
            AdmissionAction::Enqueue {
                txn_hash: utxo.txn_hash,
                input_commitments: utxo.public_inputs.input_commitments,
            },
        ),
        AdmissionEvent::Validated(Err(err)) => if is_mint_absent(err) && offset > 0 {
            (AdmissionWait { pending: Some(err), ..wait }, AdmissionAction::ReadEthBlock)
        } else {
            (AdmissionWait { pending: None, ..wait }, AdmissionAction::Reject(err))
        },
        AdmissionEvent::EthBlock(None) => (
            AdmissionWait { pending: None, ..wait },
            AdmissionAction::Reject(Error::FailedToGetEthBlockNumber),
        ),
        AdmissionEvent::EthBlock(Some(current)) => match wait.pending {
            None => (wait, AdmissionAction::Validate),
            Some(err) => {
                let started = match wait.started_waiting_at_eth_block {
                    Some(s) => s,
                    None => current,
                };
                let after = AdmissionWait { started_waiting_at_eth_block: Some(started), pending: None };
                if current - started > offset {
                    (after, AdmissionAction::Reject(err))
                } else {
                    (after, AdmissionAction::SleepThenValidate { secs: RETRY_DELAY_SECS })
                }
            },
        },
    }
}

/// The shared state of the node.
pub struct NodeShared {
    config: Config,
    notes_tree: CommitmentTree,
    block_store: BlockStore,
    mempool: Mempool,
}

impl AdmissionWait {
    /// The state of a submission before its first attempt.
    pub fn new() -> (wait: AdmissionWait)
        ensures
            wait.started_waiting_at_eth_block is None,
            wait.pending is None,
    {
        AdmissionWait { started_waiting_at_eth_block: None, pending: None }
    }
}

impl NodeShared {
    /// The tree of the node.
    pub closed spec fn tree(&self) -> CommitmentTree {
        self.notes_tree
    }

    /// The block store of the node.
    pub closed spec fn store(&self) -> BlockStore {
        self.block_store
    }

    /// The mempool of the node.
    pub closed spec fn pool(&self) -> Mempool {
        self.mempool
    }

    /// The offset below the newest block at which the base chain is read.
    pub closed spec fn offset(&self) -> u64 {
        self.config.safe_eth_height_offset
    }

    /// The invariant of the node: the mempool is in order; each stored block
    /// could be applied when its turn came; the tree is the one that
    /// replaying the stored blocks gives; and the root of the tree is that of
    /// the newest block.
    pub open spec fn wf(&self) -> bool {
        &&& self.pool().wf()
        &&& chain_valid(self.store()@)
        &&& self.tree()@ == replayed(self.store()@)
        &&& self.store()@.len() > 0 ==> self.tree().root() == self.store()@.last().root_hash
    }

    /// In a node that is in order, the tree and the blocks are consistent.
    pub proof fn lemma_wf_consistent(&self)
        requires
            self.wf(),
        ensures
            consistent(self.tree()@, self.store()@),
            self.store().wf(),
            self.tree().wf(),
    {
        lemma_chain_consistent(self.store()@);
    }

    /// The node at genesis: no block, an empty tree with the root hash of the
    /// empty tree, and an empty mempool.
    pub fn new(config: Config, empty_root: Element) -> (node: NodeShared)
        ensures
            node.wf(),
            node.offset() == config.safe_eth_height_offset,
            node.tree()@.len() == 0,
            node.tree().root() == empty_root,
            node.store()@.len() == 0,
            node.pool()@.len() == 0,
    {
        let node = NodeShared {
            config,
            notes_tree: CommitmentTree::new(empty_root),
            block_store: BlockStore::new(),
            mempool: Mempool::new(),
        };
        assert(node.notes_tree@ == replayed(node.block_store@));
        node
    }

    /// The tree.
    pub fn notes_tree(&self) -> (tree: &CommitmentTree)
        ensures
            *tree == self.tree(),
    {
        &self.notes_tree
    }

    /// The block store.
    pub fn block_store(&self) -> (store: &BlockStore)
        ensures
            *store == self.store(),
    {
        &self.block_store
    }

    /// The mempool.
    pub fn mempool(&self) -> (pool: &Mempool)
        ensures
            *pool == self.pool(),
    {
        &self.mempool
    }

    /// The height of the newest block, or 0 at genesis.
    pub fn height(&self) -> (h: BlockHeight)
        requires
            self.wf(),
        ensures
            h.0 == self.store()@.len(),
    {
        proof {
            self.lemma_wf_consistent();
        }
        self.block_store.height()
    }

    /// The root hash of the tree.
    pub fn root_hash(&self) -> (r: Element)
        ensures
            r == self.tree().root(),
    {
        self.notes_tree.root_hash()
    }

    /// The block of the given height.
    pub fn get_block(&self, height: BlockHeight) -> (found: Option<&Block>)
        requires
            self.wf(),
        ensures
            match found {
                Some(block) => 1 <= height.0 <= self.store()@.len() && *block == self.store()@[height.0 - 1]
                    && block.height == height,
                None => height.0 == 0 || height.0 > self.store()@.len(),
            },
    {
        proof {
            self.lemma_wf_consistent();
        }
        self.block_store.get_block(height)
    }

    /// Where to look up the mint of a proof when the newest block of the
    /// base chain is `eth_block`: under its mint hash, at the safe height.
    /// A proof that is no mint needs no lookup.
    pub fn mint_lookup(&self, utxo: &UtxoProof, eth_block: u64) -> (query: Option<MintQuery>)
        ensures
            match utxo.kind {
                UtxoKindMessages::Mint(mint) => query == Some(
                    MintQuery { mint_hash: mint.mint_hash, at_height: safe_height(eth_block, self.offset()) },
                ),
                _ => query is None,
            },
    {
        match utxo.kind_messages() {
            UtxoKindMessages::Mint(mint) => Some(
                MintQuery {
                    mint_hash: mint.mint_hash,
                    at_height: safe_eth_height(eth_block, self.config.safe_eth_height_offset),
                },
            ),
            _ => None,
        }
    }

    /// Whether the base chain has to be read before this proof can be
    /// validated: only for a mint that the validity rules have nothing
    /// against. `accepted` is the answer of the proving backend.
    pub fn needs_mint_lookup(&self, utxo: &UtxoProof, accepted: bool) -> (needed: bool)
        ensures
            needed == mint_lookup_needed(*utxo, accepted, self.tree(), self.store()),
    {
        match utxo.kind_messages() {
            UtxoKindMessages::Mint(_) => validate_txn(utxo, accepted, &self.block_store, &self.notes_tree).is_ok(),
            _ => false,
        }
    }

    /// Validates a submitted proof. `accepted` is the answer of the proving
    /// backend. `answer` is what reading the base chain gave: what the
    /// contract has registered under the mint hash at the safe height, or
    /// that the newest block could not be read. It is looked at only where
    /// the lookup is needed.
    pub fn validate_transaction(&self, utxo: &UtxoProof, accepted: bool, answer: MintAnswer) -> (r: Result<
        (),
        Error,
    >)
        ensures
            r == transaction_verdict(*utxo, accepted, answer, self.tree(), self.store()),
            !mint_lookup_needed(*utxo, accepted, self.tree(), self.store()) ==> r == verdict(
                *utxo,
                accepted,
                self.tree()@,
                self.store()@,
            ),
    {
        match validate_txn(utxo, accepted, &self.block_store, &self.notes_tree) {
            Err(err) => Err(err),
            Ok(_) => match utxo.kind_messages() {
                UtxoKindMessages::Mint(mint) => match answer {
                    MintAnswer::NoBlockNumber => Err(Error::FailedToGetEthBlockNumber),
                    MintAnswer::Registered(registration) => match check_mint(&mint, registration) {
                        Err(fault) => Err(Error::Rpc(fault)),
                        Ok(_) => Ok(()),
                    },
                },
                _ => Ok(()),
            },
        }
    }

    /// Decides what to do next with a submitted proof, given what happened
    /// since the last decision. The first decision follows the first
    /// validation.
    pub fn submit_transaction_and_wait(
        &self,
        utxo: &UtxoProof,
        wait: &mut AdmissionWait,
        event: AdmissionEvent,
    ) -> (action: AdmissionAction)
        ensures
            (*final(wait), action) == admission_step(self.offset(), *utxo, *old(wait), event),
    {
        match event {
            AdmissionEvent::Validated(Ok(_)) => {
                wait.pending = None;
                AdmissionAction::Enqueue {
                    txn_hash: utxo.hash(),
                    input_commitments: utxo.public_inputs.input_commitments,
                }
            },
            AdmissionEvent::Validated(Err(err)) => {
                let mint_absent = match err {
                    Error::Rpc(RpcError::MintIsNotInTheContract(_)) => true,
                    _ => false,
                };
                if mint_absent && self.config.safe_eth_height_offset > 0 {
                    wait.pending = Some(err);
                    AdmissionAction::ReadEthBlock
                } else {
                    wait.pending = None;
                    AdmissionAction::Reject(err)
                }
            },
            AdmissionEvent::EthBlock(None) => {
                wait.pending = None;
                AdmissionAction::Reject(Error::FailedToGetEthBlockNumber)
            },
            AdmissionEvent::EthBlock(Some(current)) => match wait.pending {
                None => AdmissionAction::Validate,
                Some(err) => {
                    let started = match wait.started_waiting_at_eth_block {
                        Some(s) => s,
                        None => current,
                    };
                    wait.started_waiting_at_eth_block = Some(started);
                    wait.pending = None;
                    if current > started && current - started > self.config.safe_eth_height_offset {
                        AdmissionAction::Reject(err)
                    } else {
                        AdmissionAction::SleepThenValidate { secs: RETRY_DELAY_SECS }
                    }
                },
            },
        }
    }

    /// Puts the proof of a request into the mempool, with its input slots as
    /// the commitments by which conflicts are found. Its submitter waits for
    /// the outcome.
    pub fn enqueue_transaction(&mut self, request: TransactionRequest) -> (r: Result<(), MempoolError>)
        requires
            old(self).wf(),
        ensures
            ({
                let utxo = request.proof;
                &&& final(self).wf()
                &&& final(self).tree() == old(self).tree()
                &&& final(self).store() == old(self).store()
                &&& final(self).offset() == old(self).offset()
                &&& match first_conflict(old(self).pool()@, utxo.txn_hash, utxo.input_slots()) {
                    Some(c) => r == Err::<(), MempoolError>(c) && final(self).pool()@ == old(self).pool()@,
                    None => r is Ok && final(self).pool()@.len() == old(self).pool()@.len() + 1 && {
                        let entry = final(self).pool()@.last();
                        &&& final(self).pool()@.drop_last() == old(self).pool()@
                        &&& entry.txn_hash == utxo.txn_hash
                        &&& entry.proof == utxo
                        &&& entry.input_commitments@ == utxo.input_slots()
                        &&& entry.waited
                    },
                }
            }),
    {
        let utxo = request.proof;
        let inputs = utxo.input_commitments();
        let ghost before = self.mempool@;
        let r = self.mempool.add_wait(utxo.hash(), utxo, inputs);
        proof {
            if r is Ok {
                assert(self.mempool@.drop_last() == before);
            }
        }
        r
    }

    /// Takes in a proof that a peer sent. `validation` is the result of
    /// validating it. A proof that was found invalid is dropped; a valid one
    /// is put into the mempool unless it conflicts with one that waits. None
    /// of this is an error.
    pub fn receive_transaction(&mut self, txn: UtxoProof, validation: Result<(), Error>) -> (r: Result<(), Error>)
        requires
            old(self).wf(),
        ensures
            r is Ok,
            final(self).wf(),
            final(self).tree() == old(self).tree(),
            final(self).store() == old(self).store(),
            final(self).offset() == old(self).offset(),
            validation is Err || first_conflict(old(self).pool()@, txn.txn_hash, txn.input_slots()) is Some
                ==> final(self).pool()@ == old(self).pool()@,
            validation is Ok && first_conflict(old(self).pool()@, txn.txn_hash, txn.input_slots()) is None ==> {
                let entry = final(self).pool()@.last();
                &&& final(self).pool()@.len() == old(self).pool()@.len() + 1
                &&& final(self).pool()@.drop_last() == old(self).pool()@
                &&& entry.txn_hash == txn.txn_hash
                &&& entry.proof == txn
                &&& entry.input_commitments@ == txn.input_slots()
                &&& !entry.waited
            },
    {
        if validation.is_err() {
            return Ok(());
        }
        let inputs = txn.input_commitments();
        let ghost before = self.mempool@;
        let added = self.mempool.add(txn.hash(), txn, inputs);
        proof {
            if added is Ok {
                assert(self.mempool@.drop_last() == before);
            }
        }
        Ok(())
    }

    /// Rejects the proof with this hash that waits in the mempool: it leaves
    /// the mempool, and the signal that ends its wait, with the error, is
    /// returned. Where no such proof waits, nothing changes.
    pub fn notify_rejected(&mut self, txn_hash: &Element, error: Error) -> (done: Option<Completion>)
        requires
            old(self).wf(),
        ensures
            final(self).wf(),
            final(self).tree() == old(self).tree(),
            final(self).store() == old(self).store(),
            final(self).offset() == old(self).offset(),
            match done {
                Some(c) => exists|i: int|
                    {
                        &&& 0 <= i < old(self).pool()@.len()
                        &&& (#[trigger] old(self).pool()@[i]).txn_hash == *txn_hash
                        &&& final(self).pool()@ == old(self).pool()@.remove(i)
                        &&& c == (Completion {
                            txn_hash: *txn_hash,
                            waited: old(self).pool()@[i].waited,
                            outcome: Outcome::Failed(error),
                        })
                    },
                None => final(self).pool()@ == old(self).pool()@ && forall|i: int|
                    0 <= i < old(self).pool()@.len() ==> (#[trigger] old(self).pool()@[i]).txn_hash
                        != *txn_hash,
            },
    {
        self.mempool.notify_rejected(txn_hash, error)
    }

    /// The first output of `outs` that is stale.
    fn stale_output(&self, outs: &Vec<Element>) -> (found: Option<Element>)
        ensures
            found == first_stale_output(self.store()@, outs@),
    {
        let mut i: usize = 0;
        while i < outs.len()
            invariant
                i <= outs.len(),
                first_stale_output(self.block_store@, outs@.take(i as int)) is None,
            decreases outs.len() - i,
        {
            let e = outs[i];
            proof {
                assert(outs@.take(i as int + 1).drop_last() == outs@.take(i as int));
                assert(outs@.take(i as int + 1).last() == e);
            }
            if !e.is_zero() {
                let created = self.block_store.get_element_history(e).insertion_block.is_some();
                let twice = occurs_before(outs, i, &e);
                if created || twice {
                    proof {
                        lemma_first_stale_output_extends(self.block_store@, outs@, i as int + 1);
                    }
                    return Some(e);
                }
            }
            i += 1;
        }
        assert(outs@.take(i as int) == outs@);
        None
    }

    /// Applies the next block. `computed_root` is the root hash computed for
    /// the tree as it is after the block.
    ///
    /// The block is applied unless it is not the next one, its root is not
    /// the computed one, it spends a commitment that the tree does not hold
    /// or spends one twice, or it creates a commitment that was created
    /// before or creates one twice: then that is the error, and nothing
    /// changes. When it is applied, its outputs are in the tree with its
    /// height, its inputs are not, the root of the tree is its root, it is
    /// the newest block of the store, and the mempool is told: the signals of
    /// the proofs whose wait ends with this block are returned.
    pub fn apply_block(&mut self, block: Block, computed_root: Element) -> (r: Result<Vec<Completion>, BlockError>)
        requires
            old(self).wf(),
        ensures
            final(self).wf(),
            final(self).offset() == old(self).offset(),
            match block_fault(old(self).tree()@, old(self).store()@, block, computed_root) {
                Some(fault) => {
                    &&& r == Err::<Vec<Completion>, BlockError>(fault)
                    &&& final(self).tree() == old(self).tree()
                    &&& final(self).store()@ == old(self).store()@
                    &&& final(self).pool()@ == old(self).pool()@
                },
                None => {
                    &&& r matches Ok(done)
                    &&& done@ == completions_after(old(self).pool()@, block)
                    &&& final(self).tree()@ == applied_tree(old(self).tree()@, block)
                    &&& final(self).tree().root() == block.root_hash
                    &&& final(self).store()@ == old(self).store()@.push(block)
                    &&& final(self).pool()@ == waiting_after(old(self).pool()@, block)
                    &&& forall|e: Element|
                        #[trigger] block.creates(e) ==> final(self).tree().contains(e) && final(self).tree().inserted_in(e) == block.height
                    &&& forall|e: Element| #[trigger] block.consumes(e) ==> !final(self).tree().contains(e)
                },
            },
    {
        proof {
            self.lemma_wf_consistent();
        }
        let newest = self.block_store.height();
        if block.height.0 == u64::MAX || block.height.0 != newest.0 + 1 {
            return Err(
                BlockError::UnexpectedHeight { expected: BlockHeight(newest.0 + 1), found: block.height },
            );
        }
        if computed_root != block.root_hash {
            return Err(BlockError::RootMismatch { header: block.root_hash, computed: computed_root });
        }
        let ins = block.input_list();
        let outs = block.output_list();
        if let Some(e) = self.notes_tree.unremovable(&ins) {
            return Err(BlockError::InputNotSpendable(e));
        }
        if let Some(e) = self.stale_output(&outs) {
            return Err(BlockError::OutputNotFresh(e));
        }
        let ghost tree0 = self.notes_tree@;
        proof {
            lemma_apply_block(tree0, self.block_store@, block);
            lemma_insert_all_ok(tree0, outs@, block.height);
            lemma_chain_extends(self.block_store@, block);
        }
        match self.notes_tree.insert_batch(&outs, block.height) {
            Ok(_) => {},
            Err(e) => {
                return Err(BlockError::OutputNotFresh(e));
            },
        }
        proof {
            let grown = self.notes_tree@;
            lemma_first_unremovable(tree0, ins@);
            lemma_first_unremovable(grown, ins@);
            assert forall|i: int| 0 <= i < ins@.len() && (#[trigger] ins@[i])@ != 0 implies holds(
                grown,
                ins@[i],
            ) by {
                assert(holds(tree0, ins@[i]));
            }
        }
        match self.notes_tree.remove_batch(&ins) {
            Ok(_) => {},
            Err(e) => {
                return Err(BlockError::InputNotSpendable(e));
            },
        }
        self.notes_tree.set_root(block.root_hash);
        let done = self.mempool.notify_included(&block);
        let ghost blocks0 = self.block_store@;
        match self.block_store.append(block) {
            Ok(_) => {
                proof {
                    assert(self.block_store@.last() == block);
                    let after = self.notes_tree@;
                    assert forall|e: Element| #[trigger] block.creates(e) implies self.notes_tree.inserted_in(e)
                        == block.height by {
                        let i = choose|i: int| 0 <= i < after.len() && (#[trigger] after[i]).element == e;
                        assert(inserted_at(self.block_store@, after[i].element) == Some(after[i].inserted_in));
                    }
                }
                Ok(done)
            },
            Err(_) => Err(BlockError::UnexpectedHeight { expected: BlockHeight(newest.0 + 1), found: newest }),
        }
    }

    /// The state of an element: in the tree, spent, or never created.
    pub fn element_state(&self, e: Element) -> (state: ElementState)
        requires
            self.wf(),
        ensures
            state == ElementState::Present <==> self.tree().contains(e),
            state == ElementState::Removed <==> removed_at(self.store()@, e) is Some,
            state == ElementState::NeverSeen <==> inserted_at(self.store()@, e) is None,
    {
        proof {
            self.lemma_wf_consistent();
            crate::ledger::lemma_three_states(self.notes_tree@, self.block_store@, e);
        }
        if self.notes_tree.contains_element(&e) {
            ElementState::Present
        } else if self.block_store.get_element_history(e).removal_block.is_some() {
            ElementState::Removed
        } else {
            ElementState::NeverSeen
        }
    }
}

} // verus!
