//! The mempool: the admitted proofs that wait for a block, in the order of
//! their admission. No two of them share an input commitment.

use vstd::prelude::*;
use crate::element::Element;
use crate::error::{Error, ErrorCode, RpcError};
use crate::interface::TransactionResponse;
use crate::store::{txns_consume, Block};
use crate::utxo::UtxoProof;

verus! {

/// A proof that waits for a block.
#[derive(Debug)]
pub struct MempoolEntry {
    pub txn_hash: Element,
    pub proof: UtxoProof,
    /// The commitments by which conflicts are found. Padding is no conflict.
    pub input_commitments: Vec<Element>,
    /// Whether a submitter waits for the outcome.
    pub waited: bool,
}

/// Why a proof was not admitted.
#[derive(Clone, Copy, Debug, PartialEq, Eq, Structural)]
pub enum MempoolError {
    /// A proof with this hash waits already.
    AlreadyExists(Element),
    /// A waiting proof spends this input commitment too.
    InputConflict(Element),
}

impl MempoolError {
    /// The class of each error: a hash that waits already exists; an input
    /// commitment that a waiting proof spends is no longer to be found.
    pub open spec fn spec_code(self) -> ErrorCode {
        match self {
            MempoolError::AlreadyExists(_) => ErrorCode::AlreadyExists,
            MempoolError::InputConflict(_) => ErrorCode::NotFound,
        }
    }

    /// The error that the submitter is told: a proof with a hash that waits
    /// exists already; for an input commitment that a waiting proof spends,
    /// that commitment is not in the tree.
    pub open spec fn spec_reported(self) -> Option<RpcError> {
        match self {
            MempoolError::AlreadyExists(_) => None,
            MempoolError::InputConflict(e) => Some(RpcError::TxnInputCommitmentsNotInTree(e)),
        }
    }

    /// The class of this error.
    pub fn code(&self) -> (c: ErrorCode)
        ensures
            c == self.spec_code(),
            self.spec_reported() matches Some(err) ==> c == err.spec_code(),
    {
        match self {
            MempoolError::AlreadyExists(_) => ErrorCode::AlreadyExists,
            MempoolError::InputConflict(_) => ErrorCode::NotFound,
        }
    }

    /// The error of the public interface that stands for this one, where
    /// there is one: a conflict on an input commitment is reported as that
    /// commitment not being in the tree.
    pub fn reported(&self) -> (err: Option<RpcError>)
        ensures
            err == self.spec_reported(),
    {
        match self {
            MempoolError::AlreadyExists(_) => None,
            MempoolError::InputConflict(e) => Some(RpcError::TxnInputCommitmentsNotInTree(*e)),
        }
    }
}

/// How the wait of a proof ended.
#[derive(Clone, Copy, Debug, PartialEq, Eq, Structural)]
pub enum Outcome {
    /// The proof is in a block.
    Included(TransactionResponse),
    /// The proof was rejected, or a block spent one of its inputs.
    Failed(Error),
}

/// The one signal that ends the wait of a proof.
#[derive(Clone, Copy, Debug, PartialEq, Eq, Structural)]
pub struct Completion {
    pub txn_hash: Element,
    pub waited: bool,
    pub outcome: Outcome,
}

/// The first element of `a`, in order, that is not padding and stands in `b`.
pub open spec fn shared_input(a: Seq<Element>, b: Seq<Element>) -> Option<Element>
    decreases a.len(),
{
    if a.len() == 0 {
        None
    } else {
        match shared_input(a.drop_last(), b) {
            Some(e) => Some(e),
            None => if a.last()@ != 0 && b.contains(a.last()) {
                Some(a.last())
            } else {
                None
            },
        }
    }
}

/// Whether `a` and `b` have no element in common but padding.
pub open spec fn disjoint_inputs(a: Seq<Element>, b: Seq<Element>) -> bool {
    forall|i: int, j: int|
        0 <= i < a.len() && 0 <= j < b.len() && (#[trigger] a[i])@ != 0 ==> a[i] != #[trigger] b[j]
}

/// Two lists share an input exactly when they are not disjoint, and the
/// shared input that is named stands in both and is not padding.
pub proof fn lemma_shared_input(a: Seq<Element>, b: Seq<Element>)
    ensures
        shared_input(a, b) is None <==> disjoint_inputs(a, b),
        shared_input(a, b) matches Some(e) ==> e@ != 0 && a.contains(e) && b.contains(e),
    decreases a.len(),
{
    if a.len() > 0 {
        let front = a.drop_last();
        let n = a.len() - 1;
        lemma_shared_input(front, b);
        assert(a[n] == a.last());
        assert forall|i: int| 0 <= i < n implies front[i] == a[i] by {}
        match shared_input(front, b) {
            Some(e) => {
                let i = choose|i: int| 0 <= i < front.len() && front[i] == e;
                assert(a[i] == e);
                let j = choose|j: int| 0 <= j < b.len() && b[j] == e;
                assert(a[i]@ != 0 && a[i] == b[j]);
            },
            None => {
                if a.last()@ != 0 && b.contains(a.last()) {
                    let j = choose|j: int| 0 <= j < b.len() && b[j] == a.last();
                    assert(a[n]@ != 0 && a[n] == b[j]);
                } else {
                    assert forall|i: int, j: int|
                        0 <= i < a.len() && 0 <= j < b.len() && (#[trigger] a[i])@ != 0 implies a[i]
                        != #[trigger] b[j] by {
                        if i < n {
                            assert(front[i] == a[i]);
                        }
                    }
                }
            },
        }
        if disjoint_inputs(a, b) {
            assert forall|i: int, j: int|
                0 <= i < front.len() && 0 <= j < b.len() && (#[trigger] front[i])@ != 0 implies front[i]
                != #[trigger] b[j] by {
                assert(front[i] == a[i]);
            }
        }
    }
}

/// Disjointness does not depend on the side.
pub proof fn lemma_disjoint_symmetric(a: Seq<Element>, b: Seq<Element>)
    requires
        disjoint_inputs(a, b),
    ensures
        disjoint_inputs(b, a),
{
    assert forall|i: int, j: int| 0 <= i < b.len() && 0 <= j < a.len() && (#[trigger] b[i])@ != 0 implies b[i]
        != #[trigger] a[j] by {
        if b[i] == a[j] {
            assert(a[j]@ != 0 && a[j] == b[i]);
        }
    }
}

/// Why `entry` stands in the way of a proof with this hash and these inputs.
pub open spec fn entry_conflict(entry: MempoolEntry, txn_hash: Element, inputs: Seq<Element>) -> Option<
    MempoolError,
> {
    if entry.txn_hash == txn_hash {
        Some(MempoolError::AlreadyExists(txn_hash))
    } else {
        match shared_input(inputs, entry.input_commitments@) {
            Some(e) => Some(MempoolError::InputConflict(e)),
            None => None,
        }
    }
}

/// The conflict with the first waiting proof that stands in the way.
pub open spec fn first_conflict(entries: Seq<MempoolEntry>, txn_hash: Element, inputs: Seq<Element>) -> Option<
    MempoolError,
>
    decreases entries.len(),
{
    if entries.len() == 0 {
        None
    } else {
        match first_conflict(entries.drop_last(), txn_hash, inputs) {
            Some(c) => Some(c),
            None => entry_conflict(entries.last(), txn_hash, inputs),
        }
    }
}

/// No waiting proof stands in the way exactly when none has the hash and
/// none shares an input.
pub proof fn lemma_first_conflict(entries: Seq<MempoolEntry>, txn_hash: Element, inputs: Seq<Element>)
    ensures
        first_conflict(entries, txn_hash, inputs) is None <==> forall|i: int|
            0 <= i < entries.len() ==> (#[trigger] entries[i]).txn_hash != txn_hash && disjoint_inputs(
                inputs,
                entries[i].input_commitments@,
            ),
    decreases entries.len(),
{
    if entries.len() > 0 {
        let front = entries.drop_last();
        let n = entries.len() - 1;
        lemma_first_conflict(front, txn_hash, inputs);
        lemma_shared_input(inputs, entries.last().input_commitments@);
        assert(entries[n] == entries.last());
        assert forall|i: int| 0 <= i < n implies front[i] == entries[i] by {}
        if first_conflict(entries, txn_hash, inputs) is None {
            assert forall|i: int| 0 <= i < entries.len() implies (#[trigger] entries[i]).txn_hash != txn_hash
                && disjoint_inputs(inputs, entries[i].input_commitments@) by {
                if i < n {
                    assert(front[i] == entries[i]);
                }
            }
        }
    }
}

/// Whether one of the proofs has this hash.
pub open spec fn txns_have_hash(txns: Seq<UtxoProof>, txn_hash: Element) -> bool {
    exists|k: int| 0 <= k < txns.len() && (#[trigger] txns[k]).txn_hash == txn_hash
}

/// The first of `inputs`, in order, that one of the proofs spends.
pub open spec fn spent_input(inputs: Seq<Element>, txns: Seq<UtxoProof>) -> Option<Element>
    decreases inputs.len(),
{
    if inputs.len() == 0 {
        None
    } else {
        match spent_input(inputs.drop_last(), txns) {
            Some(e) => Some(e),
            None => if txns_consume(txns, inputs.last()) {
                Some(inputs.last())
            } else {
                None
            },
        }
    }
}

/// How the wait of `entry` ends with `block`, if it ends: the proof is in the
/// block, or the block spends one of its inputs.
pub open spec fn outcome_in(entry: MempoolEntry, block: Block) -> Option<Outcome> {
    if txns_have_hash(block.txns@, entry.txn_hash) {
        Some(
            Outcome::Included(
                TransactionResponse { height: block.height, root_hash: block.root_hash, txn_hash: entry.txn_hash },
            ),
        )
    } else {
        match spent_input(entry.input_commitments@, block.txns@) {
            Some(e) => Some(Outcome::Failed(Error::Rpc(RpcError::TxnInputCommitmentsNotInTree(e)))),
            None => None,
        }
    }
}

/// The entries that still wait after `block`, in their order.
pub open spec fn waiting_after(entries: Seq<MempoolEntry>, block: Block) -> Seq<MempoolEntry>
    decreases entries.len(),
{
    if entries.len() == 0 {
        Seq::empty()
    } else if outcome_in(entries.last(), block) is Some {
        waiting_after(entries.drop_last(), block)
    } else {
        waiting_after(entries.drop_last(), block).push(entries.last())
    }
}

/// The signals for the entries whose wait ends with `block`, in their order.
pub open spec fn completions_after(entries: Seq<MempoolEntry>, block: Block) -> Seq<Completion>
    decreases entries.len(),
{
    if entries.len() == 0 {
        Seq::empty()
    } else {
        match outcome_in(entries.last(), block) {
            Some(outcome) => completions_after(entries.drop_last(), block).push(
                Completion { txn_hash: entries.last().txn_hash, waited: entries.last().waited, outcome },
            ),
            None => completions_after(entries.drop_last(), block),
        }
    }
}

/// No two entries have the same hash, and no two share an input commitment.
pub open spec fn entries_wf(entries: Seq<MempoolEntry>) -> bool {
    forall|i: int, j: int|
        0 <= i < j < entries.len() ==> {
            &&& (#[trigger] entries[i]).txn_hash != (#[trigger] entries[j]).txn_hash
            &&& disjoint_inputs(entries[i].input_commitments@, entries[j].input_commitments@)
        }
}

/// The entries that still wait are entries that waited before, in the same
/// order; together with the ended ones they are all of them.
pub proof fn lemma_waiting_after(entries: Seq<MempoolEntry>, block: Block)
    ensures
        waiting_after(entries, block).len() + completions_after(entries, block).len() == entries.len(),
        forall|i: int|
            0 <= i < waiting_after(entries, block).len() ==> {
                &&& entries.contains(#[trigger] waiting_after(entries, block)[i])
                &&& outcome_in(waiting_after(entries, block)[i], block) is None
            },
        forall|i: int|
            0 <= i < entries.len() && outcome_in(#[trigger] entries[i], block) is None ==> waiting_after(
                entries,
                block,
            ).contains(entries[i]),
        entries_wf(entries) ==> entries_wf(waiting_after(entries, block)),
    decreases entries.len(),
{
    if entries.len() > 0 {
        let front = entries.drop_last();
        let last = entries.last();
        let n = entries.len() - 1;
        let before = waiting_after(front, block);
        let after = waiting_after(entries, block);
        lemma_waiting_after(front, block);
        assert(entries[n] == last);
        assert forall|i: int| 0 <= i < n implies front[i] == entries[i] by {}
        assert forall|i: int| 0 <= i < after.len() implies {
            &&& entries.contains(#[trigger] after[i])
            &&& outcome_in(after[i], block) is None
        } by {
            if i < before.len() {
                assert(after[i] == before[i]);
                let k = choose|k: int| 0 <= k < front.len() && front[k] == before[i];
                assert(entries[k] == after[i]);
            } else {
                assert(after[i] == entries[n]);
            }
        }
        assert forall|i: int| 0 <= i < entries.len() && outcome_in(#[trigger] entries[i], block) is None implies after.contains(
            entries[i],
        ) by {
            if i < n {
                assert(front[i] == entries[i]);
                let k = choose|k: int| 0 <= k < before.len() && before[k] == front[i];
                assert(after[k] == entries[i]);
            } else {
                assert(after[before.len() as int] == entries[i]);
            }
        }
        if entries_wf(entries) {
            assert(entries_wf(front)) by {
                assert forall|i: int, j: int| 0 <= i < j < front.len() implies {
                    &&& (#[trigger] front[i]).txn_hash != (#[trigger] front[j]).txn_hash
                    &&& disjoint_inputs(front[i].input_commitments@, front[j].input_commitments@)
                } by {
                    assert(front[i] == entries[i] && front[j] == entries[j]);
                }
            }
            if outcome_in(last, block) is None {
                assert forall|i: int, j: int| 0 <= i < j < after.len() implies {
                    &&& (#[trigger] after[i]).txn_hash != (#[trigger] after[j]).txn_hash
                    &&& disjoint_inputs(after[i].input_commitments@, after[j].input_commitments@)
                } by {
                    if j < before.len() {
                        assert(after[i] == before[i] && after[j] == before[j]);
                    } else {
                        assert(after[i] == before[i]);
                        let k = choose|k: int| 0 <= k < front.len() && front[k] == before[i];
                        assert(entries[k] == after[i] && entries[n] == after[j]);
                    }
                }
            }
        }
    }
}

/// The mempool.
pub struct Mempool {
    entries: Vec<MempoolEntry>,
}

impl View for Mempool {
    type V = Seq<MempoolEntry>;

    closed spec fn view(&self) -> Seq<MempoolEntry> {
        self.entries@
    }
}

impl Mempool {
    /// The invariant of the mempool: no two waiting proofs have the same
    /// hash, and no two share an input commitment that is not padding.
    pub open spec fn wf(&self) -> bool {
        entries_wf(self@)
    }

    /// The mempool in which nothing waits.
    pub fn new() -> (pool: Mempool)
        ensures
            pool.wf(),
            pool@.len() == 0,
    {
        Mempool { entries: Vec::new() }
    }

    /// The number of waiting proofs.
    pub fn len(&self) -> (n: usize)
        ensures
            n == self@.len(),
    {
        self.entries.len()
    }

    /// Whether a proof with this hash waits.
    pub fn contains(&self, txn_hash: &Element) -> (b: bool)
        ensures
            b == exists|i: int| 0 <= i < self@.len() && (#[trigger] self@[i]).txn_hash == *txn_hash,
    {
        let mut i: usize = 0;
        while i < self.entries.len()
            invariant
                i <= self.entries.len(),
                forall|k: int| 0 <= k < i ==> (#[trigger] self.entries@[k]).txn_hash != *txn_hash,
            decreases self.entries.len() - i,
        {
            if self.entries[i].txn_hash == *txn_hash {
                return true;
            }
            i += 1;
        }
        false
    }

    /// The conflict with the first waiting proof that stands in the way of a
    /// proof with this hash and these inputs.
    fn find_conflict(&self, txn_hash: &Element, inputs: &Vec<Element>) -> (c: Option<MempoolError>)
        ensures
            c == first_conflict(self@, *txn_hash, inputs@),
    {
        let mut i: usize = 0;
        while i < self.entries.len()
            invariant
                i <= self.entries.len(),
                first_conflict(self@.take(i as int), *txn_hash, inputs@) is None,
            decreases self.entries.len() - i,
        {
            let entry = &self.entries[i];
            proof {
                assert(self@.take(i as int + 1).drop_last() == self@.take(i as int));
                assert(self@.take(i as int + 1).last() == *entry);
            }
            let c = if entry.txn_hash == *txn_hash {
                Some(MempoolError::AlreadyExists(*txn_hash))
            } else {
                match find_shared(inputs, &entry.input_commitments) {
                    Some(e) => Some(MempoolError::InputConflict(e)),
                    None => None,
                }
            };
            if c.is_some() {
                proof {
                    lemma_first_conflict_extends(self@, *txn_hash, inputs@, i as int + 1);
                }
                return c;
            }
            i += 1;
        }
        assert(self@.take(i as int) == self@);
        None
    }

    fn enqueue(
        &mut self,
        txn_hash: Element,
        proof: UtxoProof,
        input_commitments: Vec<Element>,
        waited: bool,
    ) -> (r: Result<(), MempoolError>)
        ensures
            match first_conflict(old(self)@, txn_hash, input_commitments@) {
                Some(c) => r == Err::<(), MempoolError>(c) && final(self)@ == old(self)@,
                None => r is Ok && final(self)@ == old(self)@.push(
                    MempoolEntry { txn_hash, proof, input_commitments, waited },
                ),
            },
            old(self).wf() ==> final(self).wf(),
    {
        match self.find_conflict(&txn_hash, &input_commitments) {
            Some(c) => Err(c),
            None => {
                proof {
                    lemma_first_conflict(self@, txn_hash, input_commitments@);
                    if self.wf() {
                        let entry = MempoolEntry { txn_hash, proof, input_commitments, waited };
                        let after = self@.push(entry);
                        assert forall|i: int, j: int| 0 <= i < j < after.len() implies {
                            &&& (#[trigger] after[i]).txn_hash != (#[trigger] after[j]).txn_hash
                            &&& disjoint_inputs(after[i].input_commitments@, after[j].input_commitments@)
                        } by {
                            if j == self@.len() {
                                assert(after[i] == self@[i]);
                                lemma_disjoint_symmetric(input_commitments@, self@[i].input_commitments@);
                            } else {
                                assert(after[i] == self@[i] && after[j] == self@[j]);
                            }
                        }
                    }
                }
                self.entries.push(MempoolEntry { txn_hash, proof, input_commitments, waited });
                Ok(())
            },
        }
    }

    /// Admits a proof for which nobody waits. It is admitted, behind those
    /// that wait already, unless one of them has the same hash or shares an
    /// input commitment that is not padding: then the conflict with the first
    /// such is the error and the mempool is left as it was.
    pub fn add(&mut self, txn_hash: Element, proof: UtxoProof, input_commitments: Vec<Element>) -> (r: Result<
        (),
        MempoolError,
    >)
        ensures
            match first_conflict(old(self)@, txn_hash, input_commitments@) {
                Some(c) => r == Err::<(), MempoolError>(c) && final(self)@ == old(self)@,
                None => r is Ok && final(self)@ == old(self)@.push(
                    MempoolEntry { txn_hash, proof, input_commitments, waited: false },
                ),
            },
            old(self).wf() ==> final(self).wf(),
    {
        self.enqueue(txn_hash, proof, input_commitments, false)
    }

    /// Admits a proof whose submitter waits for the outcome. The rules are
    /// those of `add`; the one signal that ends the wait comes out of
    /// `notify_included` or `notify_rejected`.
    pub fn add_wait(&mut self, txn_hash: Element, proof: UtxoProof, input_commitments: Vec<Element>) -> (r:
        Result<(), MempoolError>)
        ensures
            match first_conflict(old(self)@, txn_hash, input_commitments@) {
                Some(c) => r == Err::<(), MempoolError>(c) && final(self)@ == old(self)@,
                None => r is Ok && final(self)@ == old(self)@.push(
                    MempoolEntry { txn_hash, proof, input_commitments, waited: true },
                ),
            },
            old(self).wf() ==> final(self).wf(),
    {
        self.enqueue(txn_hash, proof, input_commitments, true)
    }

    /// The proofs for the next block: the first `budget` of those that wait,
    /// in the order of their admission. They go on waiting.
    pub fn take_for_block(&self, budget: usize) -> (txns: Vec<UtxoProof>)
        ensures
            txns@.len() == if budget <= self@.len() {
                budget as int
            } else {
                self@.len() as int
            },
            forall|i: int| 0 <= i < txns@.len() ==> txns@[i] == (#[trigger] self@[i]).proof,
    {
        let mut txns: Vec<UtxoProof> = Vec::new();
        let mut i: usize = 0;
        while i < self.entries.len() && i < budget
            invariant
                i <= self.entries.len(),
                i <= budget,
                txns@.len() == i,
                forall|k: int| 0 <= k < i ==> txns@[k] == (#[trigger] self.entries@[k]).proof,
            decreases self.entries.len() - i,
        {
            txns.push(self.entries[i].proof);
            i += 1;
        }
        txns
    }

    /// Tells the mempool of a new block. Every waiting proof whose hash is
    /// that of a proof of the block ends as included; every other one of
    /// whose input commitments the block spends one ends as failed, with that
    /// commitment reported as not in the tree. The rest go on waiting, in
    /// their order. The signals of those that ended are returned in the order
    /// of admission.
    pub fn notify_included(&mut self, block: &Block) -> (done: Vec<Completion>)
        ensures
            final(self)@ == waiting_after(old(self)@, *block),
            done@ == completions_after(old(self)@, *block),
            old(self).wf() ==> final(self).wf(),
    {
        let mut done: Vec<Completion> = Vec::new();
        let ghost all = self.entries@;
        let ghost mut seen: int = 0;
        let mut i: usize = 0;
        while i < self.entries.len()
            invariant
                all == old(self)@,
                0 <= seen <= all.len(),
                i == waiting_after(all.take(seen), *block).len(),
                self.entries@ == waiting_after(all.take(seen), *block) + all.skip(seen),
                done@ == completions_after(all.take(seen), *block),
            decreases all.len() - seen,
        {
            let ghost kept = waiting_after(all.take(seen), *block);
            assert(self.entries@[i as int] == all.skip(seen)[0]);
            assert(seen < all.len());
            proof {
                assert(all.take(seen + 1).drop_last() == all.take(seen));
                assert(all.take(seen + 1).last() == all[seen]);
            }
            let outcome = entry_outcome(&self.entries[i], block);
            match outcome {
                Some(outcome) => {
                    let gone = self.entries.remove(i);
                    done.push(Completion { txn_hash: gone.txn_hash, waited: gone.waited, outcome });
                    assert(self.entries@ == kept + all.skip(seen + 1));
                },
                None => {
                    i += 1;
                    assert(self.entries@ == kept.push(all[seen]) + all.skip(seen + 1));
                },
            }
            proof {
                seen = seen + 1;
            }
        }
        proof {
            assert(seen == all.len());
            assert(all.take(seen) == all);
            assert(self.entries@ == waiting_after(all, *block));
            lemma_waiting_after(all, *block);
        }
        done
    }

    /// Tells the mempool that the proof with this hash is rejected. If such a
    /// proof waits, it leaves the mempool and its signal, which carries the
    /// error, is returned; the others go on waiting, in their order. If none
    /// waits, nothing changes.
    pub fn notify_rejected(&mut self, txn_hash: &Element, error: Error) -> (done: Option<Completion>)
        ensures
            old(self).wf() ==> final(self).wf(),
            match done {
                Some(c) => exists|i: int|
                    {
                        &&& 0 <= i < old(self)@.len()
                        &&& (#[trigger] old(self)@[i]).txn_hash == *txn_hash
                        &&& final(self)@ == old(self)@.remove(i)
                        &&& c == (Completion {
                            txn_hash: *txn_hash,
                            waited: old(self)@[i].waited,
                            outcome: Outcome::Failed(error),
                        })
                    },
                None => final(self)@ == old(self)@ && forall|i: int|
                    0 <= i < old(self)@.len() ==> (#[trigger] old(self)@[i]).txn_hash != *txn_hash,
            },
    {
        let mut i: usize = 0;
        while i < self.entries.len()
            invariant
                i <= self.entries.len(),
                *self == *old(self),
                forall|k: int| 0 <= k < i ==> (#[trigger] self.entries@[k]).txn_hash != *txn_hash,
            decreases self.entries.len() - i,
        {
            if self.entries[i].txn_hash == *txn_hash {
                let gone = self.entries.remove(i);
                proof {
                    let before = old(self)@;
                    let after = self.entries@;
                    assert(after == before.remove(i as int));
                    if entries_wf(before) {
                        assert forall|a: int, b: int| 0 <= a < b < after.len() implies {
                            &&& (#[trigger] after[a]).txn_hash != (#[trigger] after[b]).txn_hash
                            &&& disjoint_inputs(after[a].input_commitments@, after[b].input_commitments@)
                        } by {
                            let a0 = if a < i { a } else { a + 1 };
                            let b0 = if b < i { b } else { b + 1 };
                            assert(after[a] == before[a0] && after[b] == before[b0]);
                        }
                    }
                }
                return Some(
                    Completion { txn_hash: *txn_hash, waited: gone.waited, outcome: Outcome::Failed(error) },
                );
            }
            i += 1;
        }
        None
    }
}

/// The first element of `a`, in order, that is not padding and stands in `b`.
pub fn find_shared(a: &Vec<Element>, b: &Vec<Element>) -> (found: Option<Element>)
    ensures
        found == shared_input(a@, b@),
{
    let mut i: usize = 0;
    while i < a.len()
        invariant
            i <= a.len(),
            shared_input(a@.take(i as int), b@) is None,
        decreases a.len() - i,
    {
        let e = a[i];
        proof {
            assert(a@.take(i as int + 1).drop_last() == a@.take(i as int));
            assert(a@.take(i as int + 1).last() == e);
        }
        if !e.is_zero() {
            let mut j: usize = 0;
            let mut hit = false;
            while j < b.len()
                invariant
                    j <= b.len(),
                    hit <==> exists|k: int| 0 <= k < j && b@[k] == e,
                decreases b.len() - j,
            {
                if b[j] == e {
                    hit = true;
                }
                j += 1;
            }
            if hit {
                proof {
                    lemma_shared_input_extends(a@, b@, i as int + 1);
                }
                return Some(e);
            }
        }
        i += 1;
    }
    assert(a@.take(i as int) == a@);
    None
}

/// How the wait of `entry` ends with `block`, if it ends.
fn entry_outcome(entry: &MempoolEntry, block: &Block) -> (outcome: Option<Outcome>)
    ensures
        outcome == outcome_in(*entry, *block),
{
    let mut k: usize = 0;
    while k < block.txns.len()
        invariant
            k <= block.txns.len(),
            forall|i: int| 0 <= i < k ==> (#[trigger] block.txns@[i]).txn_hash != entry.txn_hash,
        decreases block.txns.len() - k,
    {
        if block.txns[k].txn_hash == entry.txn_hash {
            return Some(
                Outcome::Included(
                TransactionResponse { height: block.height, root_hash: block.root_hash, txn_hash: entry.txn_hash },
            ),
            );
        }
        k += 1;
    }
    let ghost inputs = entry.input_commitments@;
    let mut i: usize = 0;
    while i < entry.input_commitments.len()
        invariant
            i <= entry.input_commitments.len(),
            inputs == entry.input_commitments@,
            !txns_have_hash(block.txns@, entry.txn_hash),
            spent_input(inputs.take(i as int), block.txns@) is None,
        decreases entry.input_commitments.len() - i,
    {
        let e = entry.input_commitments[i];
        proof {
            assert(inputs.take(i as int + 1).drop_last() == inputs.take(i as int));
            assert(inputs.take(i as int + 1).last() == e);
        }
        if block.spends(&e) {
            proof {
                lemma_spent_input_extends(inputs, block.txns@, i as int + 1);
            }
            return Some(Outcome::Failed(Error::Rpc(RpcError::TxnInputCommitmentsNotInTree(e))));
        }
        i += 1;
    }
    assert(inputs.take(i as int) == inputs);
    None
}

/// A shared input found among the first `n` is the shared input of the whole.
pub proof fn lemma_shared_input_extends(a: Seq<Element>, b: Seq<Element>, n: int)
    requires
        0 <= n <= a.len(),
        shared_input(a.take(n), b) is Some,
    ensures
        shared_input(a, b) == shared_input(a.take(n), b),
    decreases a.len() - n,
{
    if n == a.len() {
        assert(a.take(n) == a);
    } else {
        assert(a.take(n + 1).drop_last() == a.take(n));
        lemma_shared_input_extends(a, b, n + 1);
    }
}

/// A spent input found among the first `n` is the spent input of the whole.
pub proof fn lemma_spent_input_extends(inputs: Seq<Element>, txns: Seq<UtxoProof>, n: int)
    requires
        0 <= n <= inputs.len(),
        spent_input(inputs.take(n), txns) is Some,
    ensures
        spent_input(inputs, txns) == spent_input(inputs.take(n), txns),
    decreases inputs.len() - n,
{
    if n == inputs.len() {
        assert(inputs.take(n) == inputs);
    } else {
        assert(inputs.take(n + 1).drop_last() == inputs.take(n));
        lemma_spent_input_extends(inputs, txns, n + 1);
    }
}

/// A conflict found among the first `n` entries is the conflict of the whole.
pub proof fn lemma_first_conflict_extends(
    entries: Seq<MempoolEntry>,
    txn_hash: Element,
    inputs: Seq<Element>,
    n: int,
)
    requires
        0 <= n <= entries.len(),
        first_conflict(entries.take(n), txn_hash, inputs) is Some,
    ensures
        first_conflict(entries, txn_hash, inputs) == first_conflict(entries.take(n), txn_hash, inputs),
    decreases entries.len() - n,
{
    if n == entries.len() {
        assert(entries.take(n) == entries);
    } else {
        assert(entries.take(n + 1).drop_last() == entries.take(n));
        lemma_first_conflict_extends(entries, txn_hash, inputs, n + 1);
    }
}

} // verus!
