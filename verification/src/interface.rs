//! What a submitter hands in and what is handed back.

use vstd::prelude::*;
use crate::element::Element;
use crate::utxo::{BlockHeight, UtxoProof};

verus! {

/// Request for submit transaction
#[derive(Clone, Copy, Debug, PartialEq, Eq)]
pub struct TransactionRequest {
    /// Utxo proof to be verified and applied
    pub proof: UtxoProof,
}

/// Response for submit transaction
#[derive(Clone, Copy, Debug, PartialEq, Eq, Structural)]
pub struct TransactionResponse {
    /// Height of the block the transaction was included in
    pub height: BlockHeight,
    /// Root hash of the merkle tree for the block
    pub root_hash: Element,
    /// Transaction hash of submitted transaction
    pub txn_hash: Element,
}

impl Default for TransactionResponse {
    /// The response that names no block: height 0 and zero hashes.
    fn default() -> (r: TransactionResponse)
        ensures
            r.height.0 == 0,
            r.root_hash@ == 0,
            r.txn_hash@ == 0,
    {
        TransactionResponse { height: BlockHeight(0), root_hash: Element::zero(), txn_hash: Element::zero() }
    }
}

} // verus!
