//! What the node reads from the base chain: the safe height at which mints
//! are looked up, and the check of a mint proof against its registration.

use vstd::prelude::*;
use crate::element::Element;
use crate::error::{MintInContractIsDifferent, RpcError};
use crate::utxo::MintMessages;

verus! {

/// A mint as the rollup contract on the base chain has it registered.
#[derive(Clone, Copy, Debug, PartialEq, Eq, Structural)]
pub struct MintRegistration {
    pub amount: Element,
    pub note_kind: Element,
}

/// What reading the base chain for a mint gave.
#[derive(Clone, Copy, Debug, PartialEq, Eq, Structural)]
pub enum MintAnswer {
    /// The base chain did not tell its newest block.
    NoBlockNumber,
    /// What the contract has registered under the mint hash at the safe
    /// height.
    Registered(Option<MintRegistration>),
}

/// Subtracts two block numbers as `ethereum_types::U64::overflowing_sub`
/// does, with `U64::from` for the arguments and `U64::as_u64` for the
/// difference. Trusted: the difference wraps around at two to the 64, and
/// the flag tells whether it did.
#[verifier::external_body]
fn block_number_overflowing_sub(block: u64, offset: u64) -> (r: (u64, bool))
    ensures
        r.1 == (block < offset),
        r.0 as int == if block >= offset {
            block - offset
        } else {
            block - offset + 0x1_0000_0000_0000_0000
        },
{
    let (difference, overflow) = ethereum_types::U64::from(block).overflowing_sub(
        ethereum_types::U64::from(offset),
    );
    (difference.as_u64(), overflow)
}

/// The height at which the base chain is read: `offset` blocks below the
/// newest, and 0 where the chain is shorter than that.
pub open spec fn safe_height(eth_block: u64, offset: u64) -> u64 {
    if eth_block >= offset {
        (eth_block - offset) as u64
    } else {
        0
    }
}

/// The height at which the base chain is read when its newest block is
/// `eth_block`.
pub fn safe_eth_height(eth_block: u64, safe_eth_height_offset: u64) -> (h: u64)
    ensures
        h == safe_height(eth_block, safe_eth_height_offset),
{
    match block_number_overflowing_sub(eth_block, safe_eth_height_offset) {
        (height, false) => height,
        (_, true) => 0,
    }
}

/// What is wrong with a mint proof, given what the contract has registered
/// under its hash at the safe height: nothing is registered, or the
/// registration is for another amount or another kind of note.
pub open spec fn mint_fault(mint: MintMessages, registration: Option<MintRegistration>) -> Option<RpcError> {
    match registration {
        None => Some(RpcError::MintIsNotInTheContract(mint.mint_hash)),
        Some(reg) => if reg.amount != mint.value || reg.note_kind != mint.note_kind {
            Some(
                RpcError::MintInContractIsDifferent(
                    MintInContractIsDifferent {
                        contract_value: reg.amount,
                        contract_note_kind: reg.note_kind,
                        proof_value: mint.value,
                        proof_note_kind: mint.note_kind,
                    },
                ),
            )
        } else {
            None
        },
    }
}

/// Checks a mint proof against what the contract has registered under its
/// hash at the safe height.
pub fn check_mint(mint: &MintMessages, registration: Option<MintRegistration>) -> (r: Result<(), RpcError>)
    ensures
        match mint_fault(*mint, registration) {
            Some(fault) => r == Err::<(), RpcError>(fault),
            None => r is Ok,
        },
{
    match registration {
        None => Err(RpcError::MintIsNotInTheContract(mint.mint_hash)),
        Some(reg) => {
            if reg.amount != mint.value || reg.note_kind != mint.note_kind {
                Err(
                    RpcError::MintInContractIsDifferent(
                        MintInContractIsDifferent {
                            contract_value: reg.amount,
                            contract_note_kind: reg.note_kind,
                            proof_value: mint.value,
                            proof_note_kind: mint.note_kind,
                        },
                    ),
                )
            } else {
                Ok(())
            }
        },
    }
}

} // verus!
