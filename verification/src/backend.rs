//! What the node decides around the proving engine: which proof system a
//! flag selects, how many points the reference string has, how a produced
//! proof is unframed, and what the engine's answer to a verification means.

use vstd::prelude::*;

verus! {

/// The bytes of framing that the engine puts before a proof it produced.
pub const FRAME_LEN: usize = 4;

/// The bytes that one curve point of the reference string takes.
pub const POINT_LEN: usize = 64;

/// The proving backend that is bound to the engine.
#[derive(Clone, Copy, Debug, PartialEq, Eq, Structural)]
pub struct BindingBackend;

/// The proof system that the engine is asked for.
#[derive(Clone, Copy, Debug, PartialEq, Eq, Structural)]
pub enum ProofSystem {
    UltraHonk,
    UltraKeccakHonk,
}

/// The errors of the backend.
#[derive(Clone, Copy, Debug, PartialEq, Eq, Structural)]
pub enum BackendError {
    /// The engine did not accept the proof.
    VerificationFailed,
}

impl BackendError {
    /// The message of the error.
    pub fn message(&self) -> (s: &'static str)
        ensures
            s@ == "Proof verification failed"@,
    {
        "Proof verification failed"
    }
}

impl BindingBackend {
    /// The proof system for a circuit, by whether its oracle hashes with
    /// Keccak.
    pub fn proof_system(oracle_hash_keccak: bool) -> (system: ProofSystem)
        ensures
            system == if oracle_hash_keccak {
                ProofSystem::UltraKeccakHonk
            } else {
                ProofSystem::UltraHonk
            },
    {
        if oracle_hash_keccak {
            ProofSystem::UltraKeccakHonk
        } else {
            ProofSystem::UltraHonk
        }
    }

    /// Whether the engine can be told the number of points of a reference
    /// string of `g1_len` bytes: the number must fit in 32 bits.
    pub fn srs_fits(g1_len: usize) -> (b: bool)
        ensures
            b == (g1_len as int / 64 <= u32::MAX),
    {
        (g1_len / POINT_LEN) as u64 <= 0xffff_ffff
    }

    /// The number of curve points in a reference string of `g1_len` bytes:
    /// its length divided by the length of a point. The number must fit in
    /// the 32 bits that the engine takes.
    pub fn srs_point_count(g1_len: usize) -> (count: u32)
        requires
            g1_len as int / 64 <= u32::MAX,
        ensures
            count as int == g1_len as int / 64,
    {
        (g1_len / POINT_LEN) as u32
    }

    /// Whether what the engine produced is long enough to hold the framing.
    pub fn is_framed(produced: &Vec<u8>) -> (b: bool)
        ensures
            b == (produced@.len() >= FRAME_LEN),
    {
        produced.len() >= FRAME_LEN
    }

    /// The proof inside what the engine produced: all but the framing before
    /// it.
    pub fn prove(produced: Vec<u8>) -> (proof: Vec<u8>)
        requires
            produced@.len() >= FRAME_LEN,
        ensures
            proof@ == produced@.skip(FRAME_LEN as int),
    {
        let mut proof: Vec<u8> = Vec::new();
        let mut i: usize = FRAME_LEN;
        while i < produced.len()
            invariant
                FRAME_LEN <= i <= produced.len(),
                proof@ == produced@.subrange(FRAME_LEN as int, i as int),
            decreases produced.len() - i,
        {
            proof.push(produced[i]);
            i += 1;
        }
        assert(proof@ == produced@.skip(FRAME_LEN as int));
        proof
    }

    /// What the engine's answer to a verification means: a proof that it did
    /// not accept is an error.
    pub fn verify(verified: bool) -> (r: Result<(), BackendError>)
        ensures
            r is Ok <==> verified,
            !verified ==> r == Err::<(), BackendError>(BackendError::VerificationFailed),
    {
        if verified {
            Ok(())
        } else {
            Err(BackendError::VerificationFailed)
        }
    }
}

} // verus!
