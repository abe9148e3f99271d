//! The public part of a UTXO proof: the commitments it spends and creates, the
//! root it was made against, its kind and its identifying hash.

use vstd::prelude::*;
use crate::element::Element;

verus! {

/// The number of input slots, and of output slots, of every proof.
pub const SLOTS: usize = 2;

/// The height of a block in the rollup chain. The first block has height 1.
#[derive(Clone, Copy, Debug, PartialEq, Eq, Structural, PartialOrd, Ord, Hash)]
pub struct BlockHeight(pub u64);

/// What a mint proof announces: the registration it claims on the base chain.
#[derive(Clone, Copy, Debug, PartialEq, Eq, Structural)]
pub struct MintMessages {
    pub mint_hash: Element,
    pub value: Element,
    pub note_kind: Element,
}

/// What a burn proof announces: who is to be paid on the base chain.
#[derive(Clone, Copy, Debug, PartialEq, Eq, Structural)]
pub struct BurnMessages {
    pub to: Element,
    pub value: Element,
    pub note_kind: Element,
}

/// The kind of a proof, with the messages that the kind carries.
#[derive(Clone, Copy, Debug, PartialEq, Eq, Structural)]
pub enum UtxoKindMessages {
    Mint(MintMessages),
    Burn(BurnMessages),
    Send,
}

/// The commitments a proof spends and creates. A slot that holds zero is
/// padding: it stands for no commitment.
#[derive(Clone, Copy, Debug, PartialEq, Eq)]
pub struct UtxoPublicInputs {
    pub input_commitments: [Element; 2],
    pub output_commitments: [Element; 2],
    pub recent_root: Element,
}

/// What the node reads of a submitted proof. The proof bytes themselves are
/// checked by the proving backend and are not part of this value.
#[derive(Clone, Copy, Debug, PartialEq, Eq)]
pub struct UtxoProof {
    pub public_inputs: UtxoPublicInputs,
    pub kind: UtxoKindMessages,
    pub txn_hash: Element,
}

/// The elements of `slots` that are not padding, in order.
pub open spec fn non_padding(slots: Seq<Element>) -> Seq<Element>
    decreases slots.len(),
{
    if slots.len() == 0 {
        Seq::empty()
    } else if slots.last()@ == 0 {
        non_padding(slots.drop_last())
    } else {
        non_padding(slots.drop_last()).push(slots.last())
    }
}

/// An element is among the non-padding ones exactly when it is not zero and
/// occurs in the slots.
pub proof fn lemma_non_padding_contains(slots: Seq<Element>, e: Element)
    ensures
        non_padding(slots).contains(e) <==> (e@ != 0 && slots.contains(e)),
    decreases slots.len(),
{
    if slots.len() == 0 {
    } else {
        let front = slots.drop_last();
        lemma_non_padding_contains(front, e);
        if front.contains(e) {
            let i = choose|i: int| 0 <= i < front.len() && front[i] == e;
            assert(slots[i] == e);
        }
        if slots.contains(e) {
            let i = choose|i: int| 0 <= i < slots.len() && slots[i] == e;
            if i < slots.len() - 1 {
                assert(front[i] == e);
            }
        }
        if slots.last()@ == 0 {
        } else {
            let np = non_padding(front);
            if np.push(slots.last()).contains(e) {
                let i = choose|i: int| 0 <= i < np.len() + 1 && np.push(slots.last())[i] == e;
                if i < np.len() {
                    assert(np[i] == e);
                }
            }
            if np.contains(e) {
                let i = choose|i: int| 0 <= i < np.len() && np[i] == e;
                assert(np.push(slots.last())[i] == e);
            }
            if slots.last() == e {
                assert(np.push(slots.last())[np.len() as int] == e);
            }
        }
        assert(slots.last() == slots[slots.len() - 1]);
    }
}

impl UtxoProof {
    /// The input slots, padding included.
    pub open spec fn input_slots(&self) -> Seq<Element> {
        self.public_inputs.input_commitments@
    }

    /// The output slots, padding included.
    pub open spec fn output_slots(&self) -> Seq<Element> {
        self.public_inputs.output_commitments@
    }

    /// The commitments this proof spends.
    pub open spec fn inputs(&self) -> Seq<Element> {
        non_padding(self.input_slots())
    }

    /// The commitments this proof creates.
    pub open spec fn outputs(&self) -> Seq<Element> {
        non_padding(self.output_slots())
    }

    /// Whether `e` occupies any slot of this proof, input or output.
    pub open spec fn mentions(&self, e: Element) -> bool {
        self.input_slots().contains(e) || self.output_slots().contains(e)
    }

    /// The transaction identifier.
    pub fn hash(&self) -> (h: Element)
        ensures
            h == self.txn_hash,
    {
        self.txn_hash
    }

    /// The kind of this proof with its messages.
    pub fn kind_messages(&self) -> (k: UtxoKindMessages)
        ensures
            k == self.kind,
    {
        self.kind
    }

    /// All four slots: the inputs, then the outputs.
    pub fn commitments(&self) -> (all: Vec<Element>)
        ensures
            all@ == self.input_slots() + self.output_slots(),
    {
        let mut all: Vec<Element> = Vec::new();
        let mut i: usize = 0;
        while i < SLOTS
            invariant
                i <= SLOTS,
                all@ == self.input_slots().subrange(0, i as int),
            decreases SLOTS - i,
        {
            all.push(self.public_inputs.input_commitments[i]);
            i += 1;
        }
        assert(all@ == self.input_slots());
        let mut j: usize = 0;
        while j < SLOTS
            invariant
                j <= SLOTS,
                all@ == self.input_slots() + self.output_slots().subrange(0, j as int),
            decreases SLOTS - j,
        {
            all.push(self.public_inputs.output_commitments[j]);
            j += 1;
        }
        assert(all@ == self.input_slots() + self.output_slots());
        all
    }

    /// The input slots as a vector, padding included.
    pub fn input_commitments(&self) -> (v: Vec<Element>)
        ensures
            v@ == self.input_slots(),
    {
        let mut v: Vec<Element> = Vec::new();
        let mut i: usize = 0;
        while i < SLOTS
            invariant
                i <= SLOTS,
                v@ == self.input_slots().subrange(0, i as int),
            decreases SLOTS - i,
        {
            v.push(self.public_inputs.input_commitments[i]);
            i += 1;
        }
        assert(v@ == self.input_slots());
        v
    }

    /// Whether `e` occupies any slot of this proof.
    pub fn has_commitment(&self, e: &Element) -> (b: bool)
        ensures
            b == self.mentions(*e),
    {
        let ins = &self.public_inputs.input_commitments;
        let outs = &self.public_inputs.output_commitments;
        let b = ins[0] == *e || ins[1] == *e || outs[0] == *e || outs[1] == *e;
        proof {
            if b {
                if ins[0] == *e {
                    assert(self.input_slots()[0] == *e);
                } else if ins[1] == *e {
                    assert(self.input_slots()[1] == *e);
                } else if outs[0] == *e {
                    assert(self.output_slots()[0] == *e);
                } else {
                    assert(self.output_slots()[1] == *e);
                }
            }
        }
        b
    }
}

} // verus!
