//! The commitment tree: the commitments that are unspent, each with the height
//! of the block that inserted it, in the order of insertion.

use vstd::prelude::*;
use crate::element::Element;
use crate::utxo::BlockHeight;

verus! {

/// One commitment of the tree.
#[derive(Clone, Copy, Debug, PartialEq, Eq, Structural)]
pub struct TreeEntry {
    pub element: Element,
    pub inserted_in: BlockHeight,
}

/// What the tree knows of a commitment it holds.
#[derive(Clone, Copy, Debug, PartialEq, Eq, Structural)]
pub struct ElementMeta {
    pub inserted_in: BlockHeight,
}

/// Whether some entry of `entries` holds `e`.
pub open spec fn holds(entries: Seq<TreeEntry>, e: Element) -> bool {
    exists|i: int| 0 <= i < entries.len() && #[trigger] entries[i].element == e
}

/// No padding among the entries, and no element twice.
pub open spec fn entries_wf(entries: Seq<TreeEntry>) -> bool {
    &&& forall|i: int| 0 <= i < entries.len() ==> (#[trigger] entries[i]).element@ != 0
    &&& forall|i: int, j: int|
        0 <= i < j < entries.len() ==> (#[trigger] entries[i]).element != (#[trigger] entries[j]).element
}

/// What inserting `elements` in order at `height` gives: every element that is
/// not padding is appended, and the first one that the entries hold already
/// (from before, or from earlier in the batch) is the error.
pub open spec fn insert_all(entries: Seq<TreeEntry>, elements: Seq<Element>, height: BlockHeight) -> Result<
    Seq<TreeEntry>,
    Element,
>
    decreases elements.len(),
{
    if elements.len() == 0 {
        Ok(entries)
    } else {
        match insert_all(entries, elements.drop_last(), height) {
            Err(e) => Err(e),
            Ok(so_far) => {
                let e = elements.last();
                if e@ == 0 {
                    Ok(so_far)
                } else if holds(so_far, e) {
                    Err(e)
                } else {
                    Ok(so_far.push(TreeEntry { element: e, inserted_in: height }))
                }
            },
        }
    }
}

/// The entries whose element is not among `gone`, in their order.
pub open spec fn without(entries: Seq<TreeEntry>, gone: Seq<Element>) -> Seq<TreeEntry>
    decreases entries.len(),
{
    if entries.len() == 0 {
        Seq::empty()
    } else if gone.contains(entries.last().element) {
        without(entries.drop_last(), gone)
    } else {
        without(entries.drop_last(), gone).push(entries.last())
    }
}

/// The first element of `elements`, in order, that is not padding and that
/// the entries do not hold or that stands earlier in `elements` too.
pub open spec fn first_unremovable(entries: Seq<TreeEntry>, elements: Seq<Element>) -> Option<Element>
    decreases elements.len(),
{
    if elements.len() == 0 {
        None
    } else {
        match first_unremovable(entries, elements.drop_last()) {
            Some(e) => Some(e),
            None => {
                let e = elements.last();
                if e@ != 0 && (!holds(entries, e) || elements.drop_last().contains(e)) {
                    Some(e)
                } else {
                    None
                }
            },
        }
    }
}

/// A successful insertion keeps what was there, in place, and appends only
/// entries of the batch, at the given height.
pub proof fn lemma_insert_all_ok(entries: Seq<TreeEntry>, elements: Seq<Element>, height: BlockHeight)
    requires
        insert_all(entries, elements, height) is Ok,
    ensures
        ({
            let after = insert_all(entries, elements, height)->Ok_0;
            &&& entries.len() <= after.len()
            &&& after.subrange(0, entries.len() as int) == entries
            &&& forall|i: int|
                entries.len() <= i < after.len() ==> {
                    &&& (#[trigger] after[i]).inserted_in == height
                    &&& after[i].element@ != 0
                    &&& elements.contains(after[i].element)
                    &&& !holds(entries, after[i].element)
                }
            &&& forall|e: Element|
                holds(after, e) <==> (holds(entries, e) || (e@ != 0 && elements.contains(e)))
            &&& entries_wf(entries) ==> entries_wf(after)
        }),
    decreases elements.len(),
{
    let after = insert_all(entries, elements, height)->Ok_0;
    if elements.len() == 0 {
        assert(after.subrange(0, entries.len() as int) == entries);
    } else {
        let front = elements.drop_last();
        let last = elements.last();
        lemma_insert_all_ok(entries, front, height);
        let so_far = insert_all(entries, front, height)->Ok_0;
        assert(forall|e: Element| front.contains(e) ==> elements.contains(e)) by {
            assert forall|e: Element| front.contains(e) implies elements.contains(e) by {
                let i = choose|i: int| 0 <= i < front.len() && front[i] == e;
                assert(elements[i] == e);
            }
        }
        assert(elements.contains(last)) by {
            assert(elements[elements.len() - 1] == last);
        }
        assert(forall|e: Element| elements.contains(e) ==> front.contains(e) || e == last) by {
            assert forall|e: Element| elements.contains(e) implies front.contains(e) || e == last by {
                let i = choose|i: int| 0 <= i < elements.len() && elements[i] == e;
                if i < elements.len() - 1 {
                    assert(front[i] == e);
                }
            }
        }
        if last@ == 0 {
            assert(after == so_far);
        } else {
            let entry = TreeEntry { element: last, inserted_in: height };
            assert(after == so_far.push(entry));
            assert(after.subrange(0, entries.len() as int) == so_far.subrange(0, entries.len() as int));
            assert forall|e: Element|
                holds(after, e) <==> (holds(entries, e) || (e@ != 0 && elements.contains(e))) by {
                if holds(after, e) {
                    let i = choose|i: int| 0 <= i < after.len() && after[i].element == e;
                    if i < so_far.len() {
                        assert(so_far[i].element == e);
                    }
                }
                if holds(so_far, e) {
                    let i = choose|i: int| 0 <= i < so_far.len() && so_far[i].element == e;
                    assert(after[i].element == e);
                }
                if e == last {
                    assert(after[so_far.len() as int].element == e);
                }
            }
            if entries_wf(entries) {
                assert forall|i: int, j: int| 0 <= i < j < after.len() implies (#[trigger] after[i]).element != (
                #[trigger] after[j]).element by {
                    if j == so_far.len() {
                        assert(so_far[i].element == after[i].element);
                    } else {
                        assert(so_far[i] == after[i]);
                        assert(so_far[j] == after[j]);
                    }
                }
                assert forall|i: int| 0 <= i < after.len() implies (#[trigger] after[i]).element@ != 0 by {
                    if i < so_far.len() {
                        assert(so_far[i] == after[i]);
                    }
                }
            }
            assert forall|i: int| entries.len() <= i < after.len() implies {
                &&& (#[trigger] after[i]).inserted_in == height
                &&& after[i].element@ != 0
                &&& elements.contains(after[i].element)
                &&& !holds(entries, after[i].element)
            } by {
                if i < so_far.len() {
                    assert(so_far[i] == after[i]);
                } else {
                    assert(after[i] == entry);
                    if holds(entries, last) {
                        assert(holds(so_far, last));
                    }
                }
            }
        }
    }
}

/// A failed insertion names an element of the batch that is not padding and
/// that the entries hold already or that stands twice in the batch.
pub proof fn lemma_insert_all_err(entries: Seq<TreeEntry>, elements: Seq<Element>, height: BlockHeight)
    requires
        insert_all(entries, elements, height) is Err,
    ensures
        ({
            let e = insert_all(entries, elements, height)->Err_0;
            &&& e@ != 0
            &&& elements.contains(e)
            &&& holds(entries, e) || exists|i: int, j: int|
                0 <= i < j < elements.len() && elements[i] == e && elements[j] == e
        }),
    decreases elements.len(),
{
    if elements.len() == 0 {
    } else {
        let front = elements.drop_last();
        let last = elements.last();
        match insert_all(entries, front, height) {
            Err(e) => {
                lemma_insert_all_err(entries, front, height);
                let k = choose|k: int| 0 <= k < front.len() && front[k] == e;
                assert(elements[k] == e);
                if !holds(entries, e) {
                    let (i, j) = choose|i: int, j: int|
                        0 <= i < j < front.len() && front[i] == e && front[j] == e;
                    assert(elements[i] == e && elements[j] == e);
                }
            },
            Ok(so_far) => {
                lemma_insert_all_ok(entries, front, height);
                assert(elements[elements.len() - 1] == last);
                if !holds(entries, last) {
                    assert(front.contains(last));
                    let i = choose|i: int| 0 <= i < front.len() && front[i] == last;
                    assert(elements[i] == last && elements[elements.len() - 1] == last);
                }
            },
        }
    }
}

/// Removing keeps exactly the entries whose element is not among the removed
/// ones, and keeps their order and their heights.
pub proof fn lemma_without(entries: Seq<TreeEntry>, gone: Seq<Element>)
    ensures
        without(entries, gone).len() <= entries.len(),
        forall|e: Element| holds(without(entries, gone), e) <==> (holds(entries, e) && !gone.contains(e)),
        forall|i: int|
            0 <= i < without(entries, gone).len() ==> entries.contains(#[trigger] without(entries, gone)[i]),
        entries_wf(entries) ==> entries_wf(without(entries, gone)),
    decreases entries.len(),
{
    let after = without(entries, gone);
    if entries.len() == 0 {
    } else {
        let front = entries.drop_last();
        let last = entries.last();
        let before = without(front, gone);
        lemma_without(front, gone);
        assert forall|e: Element| holds(after, e) <==> (holds(entries, e) && !gone.contains(e)) by {
            if holds(entries, e) {
                let i = choose|i: int| 0 <= i < entries.len() && entries[i].element == e;
                if i < front.len() {
                    assert(front[i].element == e);
                }
            }
            if holds(front, e) {
                let i = choose|i: int| 0 <= i < front.len() && front[i].element == e;
                assert(entries[i].element == e);
            }
            if e == last.element {
                assert(entries[entries.len() - 1].element == e);
            }
            if !gone.contains(last.element) {
                if holds(after, e) {
                    let i = choose|i: int| 0 <= i < after.len() && after[i].element == e;
                    if i < before.len() {
                        assert(before[i].element == e);
                    }
                }
                if holds(before, e) {
                    let i = choose|i: int| 0 <= i < before.len() && before[i].element == e;
                    assert(after[i].element == e);
                }
                if e == last.element {
                    assert(after[before.len() as int].element == e);
                }
            }
        }
        assert forall|i: int| 0 <= i < after.len() implies entries.contains(#[trigger] after[i]) by {
            if i < before.len() {
                assert(before[i] == after[i]);
                let k = choose|k: int| 0 <= k < front.len() && front[k] == before[i];
                assert(entries[k] == after[i]);
            } else {
                assert(entries[entries.len() - 1] == after[i]);
            }
        }
        if entries_wf(entries) {
            assert(entries_wf(front)) by {
                assert forall|i: int, j: int| 0 <= i < j < front.len() implies (#[trigger] front[i]).element != (
                #[trigger] front[j]).element by {
                    assert(front[i] == entries[i] && front[j] == entries[j]);
                }
                assert forall|i: int| 0 <= i < front.len() implies (#[trigger] front[i]).element@ != 0 by {
                    assert(front[i] == entries[i]);
                }
            }
            if !gone.contains(last.element) {
                assert forall|i: int, j: int| 0 <= i < j < after.len() implies (#[trigger] after[i]).element != (
                #[trigger] after[j]).element by {
                    if j == before.len() {
                        assert(before[i] == after[i]);
                        if before[i].element == last.element {
                            assert(holds(before, last.element));
                            let k = choose|k: int| 0 <= k < front.len() && front[k].element == last.element;
                            assert(entries[k].element == entries[entries.len() - 1].element);
                        }
                    } else {
                        assert(before[i] == after[i] && before[j] == after[j]);
                    }
                }
                assert forall|i: int| 0 <= i < after.len() implies (#[trigger] after[i]).element@ != 0 by {
                    if i < before.len() {
                        assert(before[i] == after[i]);
                    } else {
                        assert(entries[entries.len() - 1] == after[i]);
                    }
                }
            }
        }
    }
}

/// What the search for an unremovable element finds, and when it finds none.
pub proof fn lemma_first_unremovable(entries: Seq<TreeEntry>, elements: Seq<Element>)
    ensures
        first_unremovable(entries, elements) matches Some(e) ==> e@ != 0 && elements.contains(e) && (!holds(
            entries,
            e,
        ) || exists|i: int, j: int| 0 <= i < j < elements.len() && elements[i] == e && elements[j] == e),
        first_unremovable(entries, elements) is None <==> {
            &&& forall|i: int|
                0 <= i < elements.len() && (#[trigger] elements[i])@ != 0 ==> holds(entries, elements[i])
            &&& forall|i: int, j: int|
                0 <= i < j < elements.len() && (#[trigger] elements[i])@ != 0 ==> elements[i]
                    != #[trigger] elements[j]
        },
    decreases elements.len(),
{
    if elements.len() == 0 {
    } else {
        let front = elements.drop_last();
        let last = elements.last();
        let n = elements.len() - 1;
        lemma_first_unremovable(entries, front);
        assert(elements[n] == last);
        assert forall|i: int| 0 <= i < n implies front[i] == elements[i] by {}
        match first_unremovable(entries, front) {
            Some(e) => {
                let k = choose|k: int| 0 <= k < front.len() && front[k] == e;
                assert(elements[k] == e);
                if holds(entries, e) {
                    let (i, j) = choose|i: int, j: int|
                        0 <= i < j < front.len() && front[i] == e && front[j] == e;
                    assert(elements[i] == e && elements[j] == e);
                }
                // the front already breaks one of the two conditions
                if forall|i: int|
                    0 <= i < elements.len() && (#[trigger] elements[i])@ != 0 ==> holds(entries, elements[i]) {
                    assert forall|i: int| 0 <= i < front.len() && (#[trigger] front[i])@ != 0 implies holds(
                        entries,
                        front[i],
                    ) by {
                        assert(front[i] == elements[i]);
                    }
                    if forall|i: int, j: int|
                        0 <= i < j < elements.len() && (#[trigger] elements[i])@ != 0 ==> elements[i]
                            != #[trigger] elements[j] {
                        assert forall|i: int, j: int|
                            0 <= i < j < front.len() && (#[trigger] front[i])@ != 0 implies front[i]
                            != #[trigger] front[j] by {
                            assert(front[i] == elements[i] && front[j] == elements[j]);
                        }
                        assert(false);
                    }
                }
            },
            None => {
                if last@ != 0 && (!holds(entries, last) || front.contains(last)) {
                    if holds(entries, last) {
                        let i = choose|i: int| 0 <= i < front.len() && front[i] == last;
                        assert(elements[i] == last && elements[n] == last);
                    }
                } else {
                    assert forall|i: int, j: int|
                        0 <= i < j < elements.len() && (#[trigger] elements[i])@ != 0 implies elements[i]
                        != #[trigger] elements[j] by {
                        if j == n {
                            if elements[i] == last {
                                assert(front[i] == last);
                                assert(front.contains(last));
                            }
                        } else {
                            assert(front[i] == elements[i] && front[j] == elements[j]);
                        }
                    }
                    assert forall|i: int|
                        0 <= i < elements.len() && (#[trigger] elements[i])@ != 0 implies holds(
                        entries,
                        elements[i],
                    ) by {
                        if i < n {
                            assert(front[i] == elements[i]);
                        }
                    }
                }
            },
        }
    }
}

/// The commitment tree. The root hash is the one that was handed in with the
/// last change: hashing is not done here.
pub struct CommitmentTree {
    entries: Vec<TreeEntry>,
    root: Element,
}

impl View for CommitmentTree {
    type V = Seq<TreeEntry>;

    closed spec fn view(&self) -> Seq<TreeEntry> {
        self.entries@
    }
}

impl CommitmentTree {
    /// The invariant of the tree: it holds no padding and no element twice.
    pub open spec fn wf(&self) -> bool {
        entries_wf(self@)
    }

    /// Whether the tree holds `e`.
    pub open spec fn contains(&self, e: Element) -> bool {
        holds(self@, e)
    }

    /// The height of the block that inserted `e`, where the tree holds `e`.
    pub open spec fn inserted_in(&self, e: Element) -> BlockHeight {
        let i = choose|i: int| 0 <= i < self@.len() && (#[trigger] self@[i]).element == e;
        self@[i].inserted_in
    }

    /// The root hash that the tree was last given.
    pub closed spec fn root(&self) -> Element {
        self.root
    }

    /// The empty tree, with the root hash of the empty tree.
    pub fn new(empty_root: Element) -> (tree: CommitmentTree)
        ensures
            tree.wf(),
            tree@ == Seq::<TreeEntry>::empty(),
            tree.root() == empty_root,
    {
        CommitmentTree { entries: Vec::new(), root: empty_root }
    }

    /// The number of commitments in the tree.
    pub fn len(&self) -> (n: usize)
        ensures
            n == self@.len(),
    {
        self.entries.len()
    }

    /// The root hash.
    pub fn root_hash(&self) -> (r: Element)
        ensures
            r == self.root(),
    {
        self.root
    }

    /// The place of `e` among the entries.
    fn position(&self, e: &Element) -> (at: Option<usize>)
        ensures
            match at {
                Some(i) => i < self@.len() && self@[i as int].element == *e,
                None => !self.contains(*e),
            },
    {
        let mut i: usize = 0;
        while i < self.entries.len()
            invariant
                i <= self.entries.len(),
                forall|k: int| 0 <= k < i ==> (#[trigger] self.entries@[k]).element != *e,
            decreases self.entries.len() - i,
        {
            if self.entries[i].element == *e {
                return Some(i);
            }
            i += 1;
        }
        None
    }

    /// Whether the tree holds `e`.
    pub fn contains_element(&self, e: &Element) -> (b: bool)
        ensures
            b == self.contains(*e),
    {
        self.position(e).is_some()
    }

    /// What the tree knows of `e`: the block that inserted it, if the tree
    /// holds it.
    pub fn get(&self, e: Element) -> (meta: Option<ElementMeta>)
        requires
            self.wf(),
        ensures
            meta is Some <==> self.contains(e),
            meta matches Some(m) ==> m.inserted_in == self.inserted_in(e),
    {
        match self.position(&e) {
            Some(i) => {
                proof {
                    let k = choose|k: int| 0 <= k < self@.len() && (#[trigger] self@[k]).element == e;
                    if k != i as int {
                        if k < i as int {
                            assert(self@[k].element != self@[i as int].element);
                        } else {
                            assert(self@[i as int].element != self@[k].element);
                        }
                    }
                }
                Some(ElementMeta { inserted_in: self.entries[i].inserted_in })
            },
            None => None,
        }
    }

    /// Inserts the elements of `elements` that are not padding, in order, as
    /// inserted by the block at `height`. If one of them is in the tree
    /// already, or stands twice in `elements`, the first such is returned and
    /// the tree is left as it was.
    pub fn insert_batch(&mut self, elements: &Vec<Element>, height: BlockHeight) -> (r: Result<(), Element>)
        ensures
            match insert_all(old(self)@, elements@, height) {
                Ok(after) => r is Ok && final(self)@ == after,
                Err(e) => r == Err::<(), Element>(e) && final(self)@ == old(self)@,
            },
            final(self).root() == old(self).root(),
            old(self).wf() ==> final(self).wf(),
    {
        let before: usize = self.entries.len();
        let mut i: usize = 0;
        while i < elements.len()
            invariant
                i <= elements.len(),
                before == old(self)@.len(),
                self.root == old(self).root,
                insert_all(old(self)@, elements@.take(i as int), height) == Ok::<Seq<TreeEntry>, Element>(
                    self.entries@,
                ),
            decreases elements.len() - i,
        {
            let e = elements[i];
            proof {
                assert(elements@.take(i as int + 1).drop_last() == elements@.take(i as int));
                assert(elements@.take(i as int + 1).last() == e);
                lemma_insert_all_ok(old(self)@, elements@.take(i as int), height);
            }
            if !e.is_zero() {
                if self.position(&e).is_some() {
                    proof {
                        lemma_insert_all_err_extends(old(self)@, elements@, height, i as int + 1);
                        assert(self.entries@.subrange(0, before as int) == old(self)@);
                    }
                    self.entries.truncate(before);
                    return Err(e);
                }
                self.entries.push(TreeEntry { element: e, inserted_in: height });
            }
            i += 1;
        }
        proof {
            assert(elements@.take(i as int) == elements@);
            lemma_insert_all_ok(old(self)@, elements@, height);
        }
        Ok(())
    }

    /// The first element of `elements`, in order, that cannot be removed: one
    /// that is not padding and that the tree does not hold, or that stands
    /// earlier in `elements` too.
    pub fn unremovable(&self, elements: &Vec<Element>) -> (found: Option<Element>)
        ensures
            found == first_unremovable(self@, elements@),
    {
        let mut i: usize = 0;
        while i < elements.len()
            invariant
                i <= elements.len(),
                first_unremovable(self@, elements@.take(i as int)) is None,
            decreases elements.len() - i,
        {
            let e = elements[i];
            proof {
                assert(elements@.take(i as int + 1).drop_last() == elements@.take(i as int));
                assert(elements@.take(i as int + 1).last() == e);
            }
            if !e.is_zero() {
                let missing = self.position(&e).is_none();
                let twice = occurs_before(elements, i, &e);
                if missing || twice {
                    proof {
                        lemma_first_unremovable_extends(self@, elements@, i as int + 1);
                    }
                    return Some(e);
                }
            }
            i += 1;
        }
        assert(elements@.take(i as int) == elements@);
        None
    }

    /// Removes the elements of `elements` that are not padding. If the tree
    /// does not hold one of them, or one stands twice in `elements`, the first
    /// such is returned and the tree is left as it was.
    pub fn remove_batch(&mut self, elements: &Vec<Element>) -> (r: Result<(), Element>)
        ensures
            match first_unremovable(old(self)@, elements@) {
                None => r is Ok && final(self)@ == without(old(self)@, elements@),
                Some(e) => r == Err::<(), Element>(e) && final(self)@ == old(self)@,
            },
            final(self).root() == old(self).root(),
            old(self).wf() ==> final(self).wf(),
    {
        if let Some(e) = self.unremovable(elements) {
            return Err(e);
        }
        proof {
            lemma_without(self@, elements@);
        }
        let mut kept: Vec<TreeEntry> = Vec::new();
        let mut k: usize = 0;
        while k < self.entries.len()
            invariant
                k <= self.entries.len(),
                *self == *old(self),
                kept@ == without(self@.take(k as int), elements@),
            decreases self.entries.len() - k,
        {
            let entry = self.entries[k];
            proof {
                assert(self@.take(k as int + 1).drop_last() == self@.take(k as int));
                assert(self@.take(k as int + 1).last() == entry);
            }
            assert(elements@.take(elements.len() as int) == elements@);
            if !occurs_before(elements, elements.len(), &entry.element) {
                kept.push(entry);
            }
            k += 1;
        }
        proof {
            assert(self@.take(k as int) == self@);
        }
        self.entries = kept;
        Ok(())
    }

    /// Replaces the root hash by the one computed for the tree as it is now.
    pub fn set_root(&mut self, root: Element)
        ensures
            final(self)@ == old(self)@,
            final(self).root() == root,
    {
        self.root = root;
    }
}

/// Whether `e` stands among the first `end` elements.
pub fn occurs_before(elements: &Vec<Element>, end: usize, e: &Element) -> (b: bool)
    requires
        end <= elements.len(),
    ensures
        b == elements@.take(end as int).contains(*e),
{
    let mut i: usize = 0;
    while i < end
        invariant
            i <= end <= elements.len(),
            forall|k: int| 0 <= k < i ==> elements@[k] != *e,
        decreases end - i,
    {
        if elements[i] == *e {
            assert(elements@.take(end as int)[i as int] == *e);
            return true;
        }
        i += 1;
    }
    false
}

/// An insertion that fails on a prefix of the batch fails on the whole batch
/// with the same element.
pub proof fn lemma_insert_all_err_extends(
    entries: Seq<TreeEntry>,
    elements: Seq<Element>,
    height: BlockHeight,
    n: int,
)
    requires
        0 <= n <= elements.len(),
        insert_all(entries, elements.take(n), height) is Err,
    ensures
        insert_all(entries, elements, height) == insert_all(entries, elements.take(n), height),
    decreases elements.len() - n,
{
    if n == elements.len() {
        assert(elements.take(n) == elements);
    } else {
        assert(elements.take(n + 1).drop_last() == elements.take(n));
        lemma_insert_all_err_extends(entries, elements, height, n + 1);
    }
}

/// A search that finds an unremovable element in a prefix finds the same one
/// in the whole.
pub proof fn lemma_first_unremovable_extends(entries: Seq<TreeEntry>, elements: Seq<Element>, n: int)
    requires
        0 <= n <= elements.len(),
        first_unremovable(entries, elements.take(n)) is Some,
    ensures
        first_unremovable(entries, elements) == first_unremovable(entries, elements.take(n)),
    decreases elements.len() - n,
{
    if n == elements.len() {
        assert(elements.take(n) == elements);
    } else {
        assert(elements.take(n + 1).drop_last() == elements.take(n));
        lemma_first_unremovable_extends(entries, elements, n + 1);
    }
}

} // verus!
