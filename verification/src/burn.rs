//! The burn substitutor: it finds the burns that are in a block of the
//! rollup but not yet settled on the base chain, and decides which of them
//! to pay out in advance. No burn is paid out twice.

use vstd::prelude::*;
use crate::element::Element;
use crate::store::{Block, BlockStore};
use crate::utxo::{BlockHeight, UtxoKindMessages, UtxoProof};

verus! {

/// A burn that waits for its payment on the base chain.
#[derive(Clone, Copy, Debug, PartialEq, Eq, Structural)]
pub struct PendingBurn {
    /// The hash of the burn transaction, by which it is tracked.
    pub txn_hash: Element,
    /// Who is paid.
    pub to: Element,
    /// How much.
    pub value: Element,
    /// In which kind of note.
    pub note_kind: Element,
}

/// The burns among the proofs, in order.
pub open spec fn burns_in(txns: Seq<UtxoProof>) -> Seq<PendingBurn>
    decreases txns.len(),
{
    if txns.len() == 0 {
        Seq::empty()
    } else {
        let rest = burns_in(txns.drop_last());
        match txns.last().kind {
            UtxoKindMessages::Burn(burn) => rest.push(
                PendingBurn {
                    txn_hash: txns.last().txn_hash,
                    to: burn.to,
                    value: burn.value,
                    note_kind: burn.note_kind,
                },
            ),
            _ => rest,
        }
    }
}

/// The burns in the blocks above the height that the base chain has
/// settled, in the order of the chain.
pub open spec fn unsettled_burns(blocks: Seq<Block>, settled: u64) -> Seq<PendingBurn>
    decreases blocks.len(),
{
    if blocks.len() == 0 {
        Seq::empty()
    } else {
        let rest = unsettled_burns(blocks.drop_last(), settled);
        if blocks.last().height.0 > settled {
            rest + burns_in(blocks.last().txns@)
        } else {
            rest
        }
    }
}

/// The hashes paid out after the burns were gone through in order, and the
/// burns that were paid out on the way: each burn whose hash was not paid
/// out before.
pub open spec fn fronted(paid: Seq<Element>, burns: Seq<PendingBurn>) -> (Seq<Element>, Seq<PendingBurn>)
    decreases burns.len(),
{
    if burns.len() == 0 {
        (paid, Seq::empty())
    } else {
        let (so_far, payouts) = fronted(paid, burns.drop_last());
        if so_far.contains(burns.last().txn_hash) {
            (so_far, payouts)
        } else {
            (so_far.push(burns.last().txn_hash), payouts.push(burns.last()))
        }
    }
}

/// No hash stands twice.
pub open spec fn distinct(hashes: Seq<Element>) -> bool {
    forall|i: int, j: int| 0 <= i < j < hashes.len() ==> #[trigger] hashes[i] != #[trigger] hashes[j]
}

/// Going through burns keeps what was paid out, adds the hash of every burn
/// gone through, and never adds a hash twice. Each payout is one of the
/// burns, and its hash was not paid out before.
pub proof fn lemma_fronted(paid: Seq<Element>, burns: Seq<PendingBurn>)
    ensures
        ({
            let (after, payouts) = fronted(paid, burns);
            &&& after.len() == paid.len() + payouts.len()
            &&& after.subrange(0, paid.len() as int) == paid
            &&& forall|k: int| 0 <= k < payouts.len() ==> after[paid.len() + k] == (#[trigger] payouts[k]).txn_hash
            &&& forall|k: int| 0 <= k < payouts.len() ==> burns.contains(#[trigger] payouts[k])
            &&& forall|i: int| 0 <= i < burns.len() ==> after.contains((#[trigger] burns[i]).txn_hash)
            &&& distinct(paid) ==> distinct(after)
        }),
    decreases burns.len(),
{
    let (after, payouts) = fronted(paid, burns);
    if burns.len() == 0 {
        assert(after.subrange(0, paid.len() as int) == paid);
    } else {
        let front = burns.drop_last();
        let last = burns.last();
        let n = burns.len() - 1;
        let (so_far, before) = fronted(paid, front);
        lemma_fronted(paid, front);
        assert(burns[n] == last);
        assert forall|i: int| 0 <= i < n implies front[i] == burns[i] by {}
        assert forall|k: int| 0 <= k < before.len() implies burns.contains(#[trigger] before[k]) by {
            let i = choose|i: int| 0 <= i < front.len() && front[i] == before[k];
            assert(burns[i] == before[k]);
        }
        if so_far.contains(last.txn_hash) {
            assert forall|i: int| 0 <= i < burns.len() implies after.contains((#[trigger] burns[i]).txn_hash) by {
                if i < n {
                    assert(front[i] == burns[i]);
                }
            }
        } else {
            assert(after == so_far.push(last.txn_hash));
            assert(after.subrange(0, paid.len() as int) == so_far.subrange(0, paid.len() as int));
            assert forall|k: int| 0 <= k < payouts.len() implies after[paid.len() + k] == (
            #[trigger] payouts[k]).txn_hash by {
                if k < before.len() {
                    assert(payouts[k] == before[k]);
                    assert(after[paid.len() + k] == so_far[paid.len() + k]);
                }
            }
            assert forall|k: int| 0 <= k < payouts.len() implies burns.contains(#[trigger] payouts[k]) by {
                if k < before.len() {
                    assert(payouts[k] == before[k]);
                }
            }
            assert forall|i: int| 0 <= i < burns.len() implies after.contains((#[trigger] burns[i]).txn_hash) by {
                if i < n {
                    assert(front[i] == burns[i]);
                    let m = choose|m: int| 0 <= m < so_far.len() && so_far[m] == front[i].txn_hash;
                    assert(after[m] == burns[i].txn_hash);
                } else {
                    assert(after[so_far.len() as int] == last.txn_hash);
                }
            }
            if distinct(paid) {
                assert forall|i: int, j: int| 0 <= i < j < after.len() implies #[trigger] after[i]
                    != #[trigger] after[j] by {
                    if j < so_far.len() {
                        assert(after[i] == so_far[i] && after[j] == so_far[j]);
                    } else {
                        assert(after[i] == so_far[i]);
                    }
                }
            }
        }
    }
}

/// Going through burns whose hashes are all paid out changes nothing and
/// pays nothing.
pub proof fn lemma_fronted_nothing(paid: Seq<Element>, burns: Seq<PendingBurn>)
    requires
        forall|i: int| 0 <= i < burns.len() ==> paid.contains((#[trigger] burns[i]).txn_hash),
    ensures
        fronted(paid, burns) == (paid, Seq::<PendingBurn>::empty()),
    decreases burns.len(),
{
    if burns.len() > 0 {
        let front = burns.drop_last();
        assert forall|i: int| 0 <= i < front.len() implies paid.contains((#[trigger] front[i]).txn_hash) by {
            assert(front[i] == burns[i]);
        }
        lemma_fronted_nothing(paid, front);
        assert(burns[burns.len() - 1] == burns.last());
    }
}

/// A burn is never fronted twice: going through the same burns a second
/// time changes nothing and pays nothing.
pub proof fn lemma_tick_idempotent(paid: Seq<Element>, burns: Seq<PendingBurn>)
    ensures
        fronted(fronted(paid, burns).0, burns) == (fronted(paid, burns).0, Seq::<PendingBurn>::empty()),
{
    lemma_fronted(paid, burns);
    lemma_fronted_nothing(fronted(paid, burns).0, burns);
}

/// The burn substitutor, which remembers the hashes of the burns that it
/// paid out.
pub struct BurnSubstitutor {
    paid: Vec<Element>,
}

impl View for BurnSubstitutor {
    type V = Seq<Element>;

    closed spec fn view(&self) -> Seq<Element> {
        self.paid@
    }
}

impl BurnSubstitutor {
    /// The invariant: no hash is remembered twice.
    pub open spec fn wf(&self) -> bool {
        distinct(self@)
    }

    /// A substitutor that has paid nothing yet.
    pub fn new() -> (s: BurnSubstitutor)
        ensures
            s.wf(),
            s@.len() == 0,
    {
        BurnSubstitutor { paid: Vec::new() }
    }

    /// Whether the burn with this hash was paid out.
    pub fn is_substituted(&self, txn_hash: &Element) -> (b: bool)
        ensures
            b == self@.contains(*txn_hash),
    {
        let mut i: usize = 0;
        while i < self.paid.len()
            invariant
                i <= self.paid.len(),
                forall|k: int| 0 <= k < i ==> self.paid@[k] != *txn_hash,
            decreases self.paid.len() - i,
        {
            if self.paid[i] == *txn_hash {
                return true;
            }
            i += 1;
        }
        false
    }

    /// Goes through the burns in order and returns those to pay out now:
    /// each one whose hash was not paid out before, which is remembered from
    /// then on.
    pub fn front(&mut self, burns: &Vec<PendingBurn>) -> (payouts: Vec<PendingBurn>)
        ensures
            (final(self)@, payouts@) == fronted(old(self)@, burns@),
            old(self).wf() ==> final(self).wf(),
    {
        let mut payouts: Vec<PendingBurn> = Vec::new();
        let mut i: usize = 0;
        while i < burns.len()
            invariant
                i <= burns.len(),
                (self@, payouts@) == fronted(old(self)@, burns@.take(i as int)),
            decreases burns.len() - i,
        {
            let burn = burns[i];
            proof {
                assert(burns@.take(i as int + 1).drop_last() == burns@.take(i as int));
                assert(burns@.take(i as int + 1).last() == burn);
            }
            if !self.is_substituted(&burn.txn_hash) {
                self.paid.push(burn.txn_hash);
                payouts.push(burn);
            }
            i += 1;
        }
        proof {
            assert(burns@.take(i as int) == burns@);
            lemma_fronted(old(self)@, burns@);
        }
        payouts
    }

    /// One round of the substitutor: finds the burns in the blocks above the
    /// height that the base chain has settled, and returns those to pay out
    /// now.
    pub fn tick(&mut self, store: &BlockStore, settled: BlockHeight) -> (payouts: Vec<PendingBurn>)
        requires
            store.wf(),
        ensures
            (final(self)@, payouts@) == fronted(old(self)@, unsettled_burns(store@, settled.0)),
            old(self).wf() ==> final(self).wf(),
    {
        let burns = pending_burns(store, settled);
        self.front(&burns)
    }
}

/// The burns among the proofs of a block, in order.
fn burns_of(block: &Block, into: &mut Vec<PendingBurn>)
    ensures
        final(into)@ == old(into)@ + burns_in(block.txns@),
{
    let ghost before = into@;
    let mut k: usize = 0;
    assert(block.txns@.take(0) == Seq::<UtxoProof>::empty());
    while k < block.txns.len()
        invariant
            k <= block.txns.len(),
            into@ == before + burns_in(block.txns@.take(k as int)),
        decreases block.txns.len() - k,
    {
        let txn = &block.txns[k];
        proof {
            assert(block.txns@.take(k as int + 1).drop_last() == block.txns@.take(k as int));
            assert(block.txns@.take(k as int + 1).last() == *txn);
        }
        match txn.kind {
            UtxoKindMessages::Burn(burn) => {
                into.push(
                    PendingBurn {
                        txn_hash: txn.txn_hash,
                        to: burn.to,
                        value: burn.value,
                        note_kind: burn.note_kind,
                    },
                );
                assert(into@ =~= before + burns_in(block.txns@.take(k as int + 1)));
            },
            _ => {},
        }
        k += 1;
    }
    assert(block.txns@.take(k as int) == block.txns@);
}

/// The burns in the blocks above the height that the base chain has
/// settled, in the order of the chain.
pub fn pending_burns(store: &BlockStore, settled: BlockHeight) -> (burns: Vec<PendingBurn>)
    requires
        store.wf(),
    ensures
        burns@ == unsettled_burns(store@, settled.0),
{
    let newest = store.height().0;
    let mut burns: Vec<PendingBurn> = Vec::new();
    let mut h: u64 = 0;
    while h < newest
        invariant
            h <= newest,
            newest == store@.len(),
            store.wf(),
            burns@ == unsettled_burns(store@.take(h as int), settled.0),
        decreases newest - h,
    {
        h += 1;
        if let Some(block) = store.get_block(BlockHeight(h)) {
            proof {
                assert(store@.take(h as int).drop_last() == store@.take(h - 1));
                assert(store@.take(h as int).last() == *block);
            }
            if h > settled.0 {
                burns_of(block, &mut burns);
            }
        }
    }
    assert(store@.take(h as int) == store@);
    burns
}

} // verus!
