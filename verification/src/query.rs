//! The lookups of elements that the public interface answers: where an
//! element of the tree was inserted, and the same for a list of elements
//! given as text.

use vstd::prelude::*;
use crate::element::{parsed_element, Element};
use crate::error::{ElementParseError, Error, ErrorCode, RpcError};
use crate::ledger::{chain_valid, consistent, lemma_chain_consistent, lemma_replay_block, replayed};
use crate::node::NodeShared;
use crate::store::{lemma_inserted_at, Block};
use crate::text::chars_of;
use crate::tree::{holds, CommitmentTree};
use crate::utxo::{BlockHeight, UtxoProof};

verus! {

/// Where an element of the tree was inserted: the height and the root hash
/// of the block, and the hash of the proof in it that holds the element.
#[derive(Clone, Copy, Debug, PartialEq, Eq, Structural)]
pub struct ElementsResponseSingle {
    pub element: Element,
    pub height: BlockHeight,
    pub root_hash: Element,
    pub txn_hash: Element,
}

/// The errors of the routes that ask for elements.
#[derive(Debug, PartialEq, Eq)]
pub enum RouteError {
    /// This item of a list of elements is not an element, for this reason.
    InvalidElement(String, ElementParseError),
    /// An error of the node.
    Node(Error),
}

/// An error of the routes, with the text of the item as a sequence of
/// characters.
pub enum RouteErrorView {
    InvalidElement(Seq<char>, ElementParseError),
    Node(Error),
}

impl View for RouteError {
    type V = RouteErrorView;

    open spec fn view(&self) -> RouteErrorView {
        match self {
            RouteError::InvalidElement(text, error) => RouteErrorView::InvalidElement(text@, *error),
            RouteError::Node(err) => RouteErrorView::Node(*err),
        }
    }
}

impl RouteError {
    /// The class of each error: an item that is no element is a bad
    /// request.
    pub open spec fn spec_code(self) -> ErrorCode {
        match self {
            RouteError::InvalidElement(_, _) => ErrorCode::BadRequest,
            RouteError::Node(err) => err.spec_code(),
        }
    }

    /// The stable reason string of each error.
    pub open spec fn spec_reason(self) -> Seq<char> {
        match self {
            RouteError::InvalidElement(_, _) => "invalid-element"@,
            RouteError::Node(err) => err.spec_reason(),
        }
    }

    /// The class of this error.
    pub fn code(&self) -> (c: ErrorCode)
        ensures
            c == self.spec_code(),
    {
        match self {
            RouteError::InvalidElement(_, _) => ErrorCode::BadRequest,
            RouteError::Node(err) => err.code(),
        }
    }

    /// The stable reason string of this error.
    pub fn reason(&self) -> (s: &'static str)
        ensures
            s@ == self.spec_reason(),
    {
        match self {
            RouteError::InvalidElement(_, _) => "invalid-element",
            RouteError::Node(err) => err.reason(),
        }
    }
}

/// The position of the first proof that holds `e` in any slot.
pub open spec fn first_mention(txns: Seq<UtxoProof>, e: Element) -> Option<int>
    decreases txns.len(),
{
    if txns.len() == 0 {
        None
    } else {
        match first_mention(txns.drop_last(), e) {
            Some(k) => Some(k),
            None => if txns.last().mentions(e) {
                Some(txns.len() - 1)
            } else {
                None
            },
        }
    }
}

/// The first mention is the least position of a proof that holds the
/// element, and there is none exactly when no proof holds it.
pub proof fn lemma_first_mention(txns: Seq<UtxoProof>, e: Element)
    ensures
        match first_mention(txns, e) {
            Some(k) => 0 <= k < txns.len() && txns[k].mentions(e) && forall|i: int|
                0 <= i < k ==> !(#[trigger] txns[i]).mentions(e),
            None => forall|i: int| 0 <= i < txns.len() ==> !(#[trigger] txns[i]).mentions(e),
        },
    decreases txns.len(),
{
    if txns.len() > 0 {
        let front = txns.drop_last();
        lemma_first_mention(front, e);
        assert forall|i: int| 0 <= i < front.len() implies front[i] == txns[i] by {}
        match first_mention(front, e) {
            Some(k) => {
                assert(front[k] == txns[k]);
                assert forall|i: int| 0 <= i < k implies !(#[trigger] txns[i]).mentions(e) by {
                    assert(front[i] == txns[i]);
                }
            },
            None => {
                assert forall|i: int| 0 <= i < txns.len() - 1 implies !(#[trigger] txns[i]).mentions(e) by {
                    assert(front[i] == txns[i]);
                }
            },
        }
    }
}

/// The answer for one element: it must be in the tree; the block that the
/// tree names as the one that inserted it must be stored; and a proof of
/// that block must hold it. The answer names the first such proof.
pub open spec fn element_response(tree: CommitmentTree, blocks: Seq<Block>, e: Element) -> Result<
    ElementsResponseSingle,
    Error,
> {
    if !tree.contains(e) {
        Err(Error::Rpc(RpcError::ElementNotFound(e)))
    } else {
        let height = tree.inserted_in(e);
        if height.0 == 0 || height.0 > blocks.len() {
            Err(Error::BlockNotFound { block: height })
        } else {
            let block = blocks[height.0 - 1];
            match first_mention(block.txns@, e) {
                None => Err(Error::ElementNotInTxn { element: e, block_height: block.height }),
                Some(k) => Ok(
                    ElementsResponseSingle {
                        element: e,
                        height,
                        root_hash: block.root_hash,
                        txn_hash: block.txns@[k].txn_hash,
                    },
                ),
            }
        }
    }
}

/// Where the tree and the blocks are consistent, every element of the tree
/// has an answer, and the answer names the block that created the element,
/// that block's root hash, and a proof of that block that holds the element.
pub proof fn lemma_element_response(tree: CommitmentTree, blocks: Seq<Block>, e: Element)
    requires
        consistent(tree@, blocks),
    ensures
        element_response(tree, blocks, e) is Ok <==> tree.contains(e),
        element_response(tree, blocks, e) matches Ok(resp) ==> {
            &&& resp.element == e
            &&& 1 <= resp.height.0 <= blocks.len()
            &&& blocks[resp.height.0 - 1].height == resp.height
            &&& blocks[resp.height.0 - 1].creates(e)
            &&& blocks[resp.height.0 - 1].root_hash == resp.root_hash
            &&& exists|k: int|
                0 <= k < blocks[resp.height.0 - 1].txns@.len() && (
                #[trigger] blocks[resp.height.0 - 1].txns@[k]).mentions(e) && blocks[resp.height.0
                    - 1].txns@[k].txn_hash == resp.txn_hash
        },
{
    if tree.contains(e) {
        let i = choose|i: int| 0 <= i < tree@.len() && (#[trigger] tree@[i]).element == e;
        let height = tree.inserted_in(e);
        assert(crate::store::inserted_at(blocks, tree@[i].element) == Some(tree@[i].inserted_in));
        lemma_inserted_at(blocks, e);
        let j = choose|j: int|
            {
                &&& 0 <= j < blocks.len()
                &&& (#[trigger] blocks[j]).creates(e)
                &&& crate::store::inserted_at(blocks, e) == Some(blocks[j].height)
                &&& forall|m: int| 0 <= m < j ==> !(#[trigger] blocks[m]).creates(e)
            };
        assert(blocks[j].height.0 == j + 1);
        let block = blocks[j];
        lemma_first_mention(block.txns@, e);
        let k = choose|k: int| 0 <= k < block.txns@.len() && (#[trigger] block.txns@[k]).output_slots().contains(e);
        assert(block.txns@[k].mentions(e));
        let m = first_mention(block.txns@, e)->Some_0;
        assert(block.txns@[m].mentions(e));
    }
}

/// The texts between the commas of `text`, in order. A text without a comma
/// is one item; two commas in a row have an empty item between them.
pub open spec fn split_commas(text: Seq<char>) -> Seq<Seq<char>>
    decreases text.len(),
{
    if text.len() == 0 {
        seq![Seq::<char>::empty()]
    } else if text.last() == ',' {
        split_commas(text.drop_last()).push(Seq::<char>::empty())
    } else {
        let parts = split_commas(text.drop_last());
        parts.update(parts.len() - 1, parts.last().push(text.last()))
    }
}

/// The elements that the items read as, or the error of the first item that
/// is no element, with the text of that item.
pub open spec fn parse_all(items: Seq<Seq<char>>) -> Result<Seq<Element>, RouteErrorView>
    decreases items.len(),
{
    if items.len() == 0 {
        Ok(Seq::empty())
    } else {
        match parse_all(items.drop_last()) {
            Err(err) => Err(err),
            Ok(elements) => match parsed_element(items.last()) {
                Ok(e) => Ok(elements.push(e)),
                Err(error) => Err(RouteErrorView::InvalidElement(items.last(), error)),
            },
        }
    }
}

/// The answers for the elements, in order, without those that are not in the
/// tree; or the first error that is not of that kind.
pub open spec fn responses(tree: CommitmentTree, blocks: Seq<Block>, elements: Seq<Element>) -> Result<
    Seq<ElementsResponseSingle>,
    Error,
>
    decreases elements.len(),
{
    if elements.len() == 0 {
        Ok(Seq::empty())
    } else {
        match responses(tree, blocks, elements.drop_last()) {
            Err(err) => Err(err),
            Ok(found) => match element_response(tree, blocks, elements.last()) {
                Ok(resp) => Ok(found.push(resp)),
                Err(Error::Rpc(RpcError::ElementNotFound(_))) => Ok(found),
                Err(err) => Err(err),
            },
        }
    }
}

/// The answer for a list of elements given as text: nothing for the empty
/// text; else the text is split at its commas, every item must read as an
/// element, and the elements are looked up in order.
pub open spec fn listing(tree: CommitmentTree, blocks: Seq<Block>, text: Seq<char>) -> Result<
    Seq<ElementsResponseSingle>,
    RouteErrorView,
> {
    if text.len() == 0 {
        Ok(Seq::empty())
    } else {
        match parse_all(split_commas(text)) {
            Err(err) => Err(err),
            Ok(elements) => match responses(tree, blocks, elements) {
                Ok(found) => Ok(found),
                Err(err) => Err(RouteErrorView::Node(err)),
            },
        }
    }
}

/// Where the tree and the blocks are consistent, looking elements up never
/// fails.
pub proof fn lemma_responses_ok(tree: CommitmentTree, blocks: Seq<Block>, elements: Seq<Element>)
    requires
        consistent(tree@, blocks),
    ensures
        responses(tree, blocks, elements) is Ok,
    decreases elements.len(),
{
    if elements.len() > 0 {
        lemma_responses_ok(tree, blocks, elements.drop_last());
        lemma_element_response(tree, blocks, elements.last());
    }
}

/// An error among the first `n` items is the error of the whole.
pub proof fn lemma_parse_all_extends(items: Seq<Seq<char>>, n: int)
    requires
        0 <= n <= items.len(),
        parse_all(items.take(n)) is Err,
    ensures
        parse_all(items) == parse_all(items.take(n)),
    decreases items.len() - n,
{
    if n == items.len() {
        assert(items.take(n) == items);
    } else {
        assert(items.take(n + 1).drop_last() == items.take(n));
        lemma_parse_all_extends(items, n + 1);
    }
}

/// An error among the first `n` lookups is the error of the whole.
pub proof fn lemma_responses_extends(tree: CommitmentTree, blocks: Seq<Block>, elements: Seq<Element>, n: int)
    requires
        0 <= n <= elements.len(),
        responses(tree, blocks, elements.take(n)) is Err,
    ensures
        responses(tree, blocks, elements) == responses(tree, blocks, elements.take(n)),
    decreases elements.len() - n,
{
    if n == elements.len() {
        assert(elements.take(n) == elements);
    } else {
        assert(elements.take(n + 1).drop_last() == elements.take(n));
        lemma_responses_extends(tree, blocks, elements, n + 1);
    }
}

/// Where an element of the tree was inserted.
pub fn get_element_response(state: &NodeShared, element: Element) -> (r: Result<ElementsResponseSingle, Error>)
    requires
        state.wf(),
    ensures
        r == element_response(state.tree(), state.store()@, element),
        r is Ok <==> state.tree().contains(element),
{
    proof {
        state.lemma_wf_consistent();
        lemma_element_response(state.tree(), state.store()@, element);
    }
    let meta = match state.notes_tree().get(element) {
        Some(meta) => meta,
        None => {
            return Err(Error::Rpc(RpcError::ElementNotFound(element)));
        },
    };
    let block = match state.get_block(meta.inserted_in) {
        Some(block) => block,
        None => {
            return Err(Error::BlockNotFound { block: meta.inserted_in });
        },
    };
    proof {
        lemma_first_mention(block.txns@, element);
    }
    match block.find_txn(&element) {
        None => Err(Error::ElementNotInTxn { element, block_height: block.block_height() }),
        Some(k) => Ok(
            ElementsResponseSingle {
                element,
                height: meta.inserted_in,
                root_hash: block.root_hash,
                txn_hash: block.txns[k].hash(),
            },
        ),
    }
}

/// Replaying the chain up to the block that an answer names gives a tree
/// that holds the element, which the tree before that block did not hold;
/// and the root hash of the answer is the one that was recorded with that
/// block for the tree after it.
pub proof fn lemma_replay_reproduces(tree: CommitmentTree, blocks: Seq<Block>, e: Element)
    requires
        chain_valid(blocks),
        tree@ == replayed(blocks),
    ensures
        element_response(tree, blocks, e) matches Ok(resp) ==> {
            let upto = blocks.take(resp.height.0 as int);
            &&& 1 <= resp.height.0 <= blocks.len()
            &&& chain_valid(upto)
            &&& holds(replayed(upto), e)
            &&& !holds(replayed(upto.drop_last()), e)
            &&& upto.last().height == resp.height
            &&& upto.last().root_hash == resp.root_hash
        },
{
    lemma_chain_consistent(blocks);
    lemma_element_response(tree, blocks, e);
    if element_response(tree, blocks, e) is Ok {
        let resp = element_response(tree, blocks, e)->Ok_0;
        let j = resp.height.0 - 1;
        lemma_replay_block(blocks, j, e);
        assert(blocks.take(j + 1).drop_last() == blocks.take(j));
    }
}

/// Answers the question for one element: where it was inserted, or that it
/// is not in the tree.
pub fn get_element(state: &NodeShared, element: Element) -> (r: Result<ElementsResponseSingle, Error>)
    requires
        state.wf(),
    ensures
        r == element_response(state.tree(), state.store()@, element),
        r is Ok <==> state.tree().contains(element),
        !state.tree().contains(element) ==> r == Err::<ElementsResponseSingle, Error>(
            Error::Rpc(RpcError::ElementNotFound(element)),
        ),
{
    get_element_response(state, element)
}

/// Where each item of `chars` begins and ends, the commas left out.
fn item_bounds(chars: &Vec<char>) -> (bounds: Vec<(usize, usize)>)
    ensures
        bounds@.len() == split_commas(chars@).len(),
        forall|j: int|
            0 <= j < bounds@.len() ==> {
                &&& (#[trigger] bounds@[j]).0 <= bounds@[j].1 <= chars@.len()
                &&& chars@.subrange(bounds@[j].0 as int, bounds@[j].1 as int) == split_commas(chars@)[j]
            },
{
    let mut bounds: Vec<(usize, usize)> = Vec::new();
    let mut begin: usize = 0;
    let mut i: usize = 0;
    assert(chars@.take(0) == Seq::<char>::empty());
    assert(chars@.subrange(0, 0) == Seq::<char>::empty());
    while i < chars.len()
        invariant
            begin <= i <= chars.len(),
            split_commas(chars@.take(i as int)).len() == bounds@.len() + 1,
            chars@.subrange(begin as int, i as int) == split_commas(chars@.take(i as int)).last(),
            forall|j: int|
                0 <= j < bounds@.len() ==> {
                    &&& (#[trigger] bounds@[j]).0 <= bounds@[j].1 <= chars@.len()
                    &&& chars@.subrange(bounds@[j].0 as int, bounds@[j].1 as int) == split_commas(
                        chars@.take(i as int),
                    )[j]
                },
        decreases chars.len() - i,
    {
        let c = chars[i];
        let ghost parts = split_commas(chars@.take(i as int));
        proof {
            assert(chars@.take(i as int + 1).drop_last() == chars@.take(i as int));
            assert(chars@.take(i as int + 1).last() == c);
        }
        if c == ',' {
            bounds.push((begin, i));
            begin = i + 1;
            assert(chars@.subrange(begin as int, i as int + 1) == Seq::<char>::empty());
        } else {
            assert(chars@.subrange(begin as int, i as int + 1) == chars@.subrange(begin as int, i as int).push(c));
        }
        i += 1;
    }
    assert(chars@.take(i as int) == chars@);
    bounds.push((begin, i));
    bounds
}

/// Answers the question for a list of elements, given as their texts with
/// commas between them. Elements that are not in the tree are left out of
/// the answer. An item that is no element is an error.
pub fn list_elements(state: &NodeShared, elements: &str) -> (r: Result<Vec<ElementsResponseSingle>, RouteError>)
    requires
        state.wf(),
    ensures
        match listing(state.tree(), state.store()@, elements@) {
            Ok(found) => r matches Ok(v) && v@ == found,
            Err(err) => r matches Err(e) && e@ == err,
        },
        r is Err <==> elements@.len() > 0 && parse_all(split_commas(elements@)) is Err,
{
    let chars = chars_of(elements);
    if chars.len() == 0 {
        return Ok(Vec::new());
    }
    let bounds = item_bounds(&chars);
    let ghost items = split_commas(chars@);
    let mut parsed: Vec<Element> = Vec::new();
    let mut j: usize = 0;
    while j < bounds.len()
        invariant
            j <= bounds.len(),
            chars@ == elements@,
            chars@.len() > 0,
            items == split_commas(chars@),
            bounds@.len() == items.len(),
            forall|m: int|
                0 <= m < bounds@.len() ==> {
                    &&& (#[trigger] bounds@[m]).0 <= bounds@[m].1 <= chars@.len()
                    &&& chars@.subrange(bounds@[m].0 as int, bounds@[m].1 as int) == items[m]
                },
            parse_all(items.take(j as int)) == Ok::<Seq<Element>, RouteErrorView>(parsed@),
        decreases bounds.len() - j,
    {
        let (begin, end) = bounds[j];
        proof {
            assert(items.take(j as int + 1).drop_last() == items.take(j as int));
            assert(items.take(j as int + 1).last() == items[j as int]);
        }
        match Element::parse(&chars, begin, end) {
            Ok(e) => {
                parsed.push(e);
            },
            Err(error) => {
                proof {
                    lemma_parse_all_extends(items, j as int + 1);
                }
                let text = elements.substring_char(begin, end).to_owned();
                return Err(RouteError::InvalidElement(text, error));
            },
        }
        j += 1;
    }
    assert(items.take(j as int) == items);
    proof {
        state.lemma_wf_consistent();
        lemma_responses_ok(state.tree(), state.store()@, parsed@);
    }
    let mut found: Vec<ElementsResponseSingle> = Vec::new();
    let mut k: usize = 0;
    while k < parsed.len()
        invariant
            k <= parsed.len(),
            state.wf(),
            chars@ == elements@,
            chars@.len() > 0,
            parse_all(split_commas(chars@)) == Ok::<Seq<Element>, RouteErrorView>(parsed@),
            responses(state.tree(), state.store()@, parsed@.take(k as int)) == Ok::<
                Seq<ElementsResponseSingle>,
                Error,
            >(found@),
        decreases parsed.len() - k,
    {
        let e = parsed[k];
        proof {
            assert(parsed@.take(k as int + 1).drop_last() == parsed@.take(k as int));
            assert(parsed@.take(k as int + 1).last() == e);
        }
        match get_element_response(state, e) {
            Ok(resp) => {
                found.push(resp);
            },
            Err(err) => match err {
                Error::Rpc(RpcError::ElementNotFound(_)) => {},
                _ => {
                    proof {
                        lemma_responses_extends(state.tree(), state.store()@, parsed@, k as int + 1);
                    }
                    return Err(RouteError::Node(err));
                },
            },
        }
        k += 1;
    }
    assert(parsed@.take(k as int) == parsed@);
    Ok(found)
}

} // verus!
