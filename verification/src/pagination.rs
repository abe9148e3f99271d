//! Listings in pages, walked in either direction from a cursor.

use vstd::prelude::*;

verus! {

/// A place in a listing: the height of a block, and a number that tells the
/// items of one block apart.
#[derive(Clone, Copy, Debug, PartialEq, Eq, Structural, PartialOrd, Ord, Hash)]
pub struct CursorPosition {
    pub height: u64,
    pub tiebreak: u64,
}

/// Where a page is to start.
#[derive(Clone, Copy, Debug, PartialEq, Eq, Structural)]
pub enum CursorChoice {
    /// The page holds the items that follow this place.
    After(CursorPosition),
    /// The page holds the items that come just before this place.
    Before(CursorPosition),
}

/// The two ends of a page: the place of its first item and that of its last,
/// each to walk on from. Both are `None` for an empty page.
#[derive(Clone, Copy, Debug, PartialEq, Eq, Structural)]
pub struct Cursor {
    pub before: Option<CursorPosition>,
    pub after: Option<CursorPosition>,
}

/// The order of a listing.
#[derive(Clone, Copy, Debug, PartialEq, Eq, Structural)]
pub enum ListOrder {
    NewestToOldest,
    OldestToNewest,
}

/// A page of a listing: the places of its items in the order of the
/// listing, and its two ends.
#[derive(Debug)]
pub struct Page {
    pub items: Vec<CursorPosition>,
    pub cursor: Cursor,
}

/// A page as a value of specifications.
pub struct PageView {
    pub items: Seq<CursorPosition>,
    pub cursor: Cursor,
}

impl View for Page {
    type V = PageView;

    open spec fn view(&self) -> PageView {
        PageView { items: self.items@, cursor: self.cursor }
    }
}

/// Whether `a` is older than `b`: lower, or as high with a smaller tie-break.
pub open spec fn older(a: CursorPosition, b: CursorPosition) -> bool {
    a.height < b.height || (a.height == b.height && a.tiebreak < b.tiebreak)
}

/// Every place is older than the next.
pub open spec fn ascending(keys: Seq<CursorPosition>) -> bool {
    forall|i: int, j: int| 0 <= i < j < keys.len() ==> older(#[trigger] keys[i], #[trigger] keys[j])
}

/// How many of the places are older than `c`.
pub open spec fn count_older(keys: Seq<CursorPosition>, c: CursorPosition) -> int
    decreases keys.len(),
{
    if keys.len() == 0 {
        0
    } else {
        count_older(keys.drop_last(), c) + if older(keys.last(), c) {
            1int
        } else {
            0int
        }
    }
}

/// How many of the places are not newer than `c`.
pub open spec fn count_not_newer(keys: Seq<CursorPosition>, c: CursorPosition) -> int
    decreases keys.len(),
{
    if keys.len() == 0 {
        0
    } else {
        count_not_newer(keys.drop_last(), c) + if !older(c, keys.last()) {
            1int
        } else {
            0int
        }
    }
}

/// The smaller of two numbers.
pub open spec fn least(a: int, b: int) -> int {
    if a <= b {
        a
    } else {
        b
    }
}

/// The part of the places, oldest first, that a page shows: from the first
/// index up to the second. Without a cursor the page is the start of the
/// listing; after a cursor it holds the items that follow the cursor in the
/// order of the listing; before a cursor it holds those that come just before
/// it in that order. No page holds more than `limit` items.
pub open spec fn page_range(
    keys: Seq<CursorPosition>,
    order: ListOrder,
    choice: Option<CursorChoice>,
    limit: int,
) -> (int, int) {
    let n = keys.len() as int;
    match (order, choice) {
        (ListOrder::OldestToNewest, None) => (0, least(limit, n)),
        (ListOrder::OldestToNewest, Some(CursorChoice::After(c))) => {
            let lo = count_not_newer(keys, c);
            (lo, least(lo + limit, n))
        },
        (ListOrder::OldestToNewest, Some(CursorChoice::Before(c))) => {
            let hi = count_older(keys, c);
            (hi - least(limit, hi), hi)
        },
        (ListOrder::NewestToOldest, None) => (n - least(limit, n), n),
        (ListOrder::NewestToOldest, Some(CursorChoice::After(c))) => {
            let hi = count_older(keys, c);
            (hi - least(limit, hi), hi)
        },
        (ListOrder::NewestToOldest, Some(CursorChoice::Before(c))) => {
            let lo = count_not_newer(keys, c);
            (lo, least(lo + limit, n))
        },
    }
}

/// The two ends of a page with these items.
pub open spec fn ends_of(items: Seq<CursorPosition>) -> Cursor {
    if items.len() == 0 {
        Cursor { before: None, after: None }
    } else {
        Cursor { before: Some(items.first()), after: Some(items.last()) }
    }
}

/// The page that a query shows of the places `keys`, which are given oldest
/// first.
pub open spec fn page_of(
    keys: Seq<CursorPosition>,
    order: ListOrder,
    choice: Option<CursorChoice>,
    limit: int,
) -> PageView {
    let (lo, hi) = page_range(keys, order, choice, limit);
    let part = keys.subrange(lo, hi);
    let items = match order {
        ListOrder::OldestToNewest => part,
        ListOrder::NewestToOldest => part.reverse(),
    };
    PageView { items, cursor: ends_of(items) }
}

/// The counts are between 0 and the number of places, and there are no more
/// older places than places that are not newer.
pub proof fn lemma_counts_bounded(keys: Seq<CursorPosition>, c: CursorPosition)
    ensures
        0 <= count_older(keys, c) <= count_not_newer(keys, c) <= keys.len(),
    decreases keys.len(),
{
    if keys.len() > 0 {
        lemma_counts_bounded(keys.drop_last(), c);
    }
}

/// In an ascending listing, the places older than the one at index `i` are
/// the `i` before it, and those not newer are these and itself.
pub proof fn lemma_counts_at(keys: Seq<CursorPosition>, i: int)
    requires
        ascending(keys),
        0 <= i < keys.len(),
    ensures
        count_older(keys, keys[i]) == i,
        count_not_newer(keys, keys[i]) == i + 1,
    decreases keys.len(),
{
    let front = keys.drop_last();
    let n = keys.len() - 1;
    assert forall|a: int, b: int| 0 <= a < b < front.len() implies older(
        #[trigger] front[a],
        #[trigger] front[b],
    ) by {
        assert(front[a] == keys[a] && front[b] == keys[b]);
    }
    if i < n {
        assert(front[i] == keys[i]);
        lemma_counts_at(front, i);
        assert(older(keys[i], keys[n]));
    } else {
        lemma_counts_all_older(front, keys[n]);
    }
}

/// Where every place is older than `c`, all of them count, either way.
pub proof fn lemma_counts_all_older(keys: Seq<CursorPosition>, c: CursorPosition)
    requires
        forall|i: int| 0 <= i < keys.len() ==> older(#[trigger] keys[i], c),
    ensures
        count_older(keys, c) == keys.len(),
        count_not_newer(keys, c) == keys.len(),
    decreases keys.len(),
{
    if keys.len() > 0 {
        let front = keys.drop_last();
        assert forall|i: int| 0 <= i < front.len() implies older(#[trigger] front[i], c) by {
            assert(front[i] == keys[i]);
        }
        lemma_counts_all_older(front, c);
        assert(older(keys[keys.len() - 1], c));
    }
}

/// Whether a walk returns to where it began: from the page of a query, one
/// page forward from its last item, then one page back from the first item
/// of that page, with the same limit, shows the items of the first page.
pub open spec fn walk_returns(
    keys: Seq<CursorPosition>,
    order: ListOrder,
    choice: Option<CursorChoice>,
    limit: int,
) -> bool {
    let first = page_of(keys, order, choice, limit);
    first.cursor.after matches Some(a) ==> {
        let second = page_of(keys, order, Some(CursorChoice::After(a)), limit);
        second.cursor.before matches Some(b) ==> page_of(keys, order, Some(CursorChoice::Before(b)), limit).items
            == first.items
    }
}

/// Walking one page forward and then one page back, with the same limit,
/// shows the items of the page where the walk began.
pub proof fn lemma_round_trip(
    keys: Seq<CursorPosition>,
    order: ListOrder,
    choice: Option<CursorChoice>,
    limit: int,
)
    requires
        ascending(keys),
        limit >= 0,
    ensures
        walk_returns(keys, order, choice, limit),
{
    let n = keys.len() as int;
    let first = page_of(keys, order, choice, limit);
    let (lo1, hi1) = page_range(keys, order, choice, limit);
    match choice {
        Some(CursorChoice::After(c)) => lemma_counts_bounded(keys, c),
        Some(CursorChoice::Before(c)) => lemma_counts_bounded(keys, c),
        None => {},
    }
    if first.cursor.after is Some {
        let a = first.cursor.after->Some_0;
        assert(0 <= lo1 < hi1 <= n);
        let part1 = keys.subrange(lo1, hi1);
        let second = page_of(keys, order, Some(CursorChoice::After(a)), limit);
        let (lo2, hi2) = page_range(keys, order, Some(CursorChoice::After(a)), limit);
        lemma_counts_bounded(keys, a);
        match order {
            ListOrder::OldestToNewest => {
                assert(a == keys[hi1 - 1]) by {
                    assert(part1.last() == keys[hi1 - 1]);
                }
                lemma_counts_at(keys, hi1 - 1);
                assert(lo2 == hi1);
                if second.cursor.before is Some {
                    let b = second.cursor.before->Some_0;
                    assert(lo2 < hi2);
                    assert(b == keys[lo2]) by {
                        assert(keys.subrange(lo2, hi2).first() == keys[lo2]);
                    }
                    lemma_counts_at(keys, lo2);
                    let (lo3, hi3) = page_range(keys, order, Some(CursorChoice::Before(b)), limit);
                    assert(hi3 == hi1);
                    assert(lo3 == lo1);
                }
            },
            ListOrder::NewestToOldest => {
                assert(a == keys[lo1]) by {
                    assert(part1.reverse().last() == part1[0]);
                    assert(part1[0] == keys[lo1]);
                }
                lemma_counts_at(keys, lo1);
                assert(hi2 == lo1);
                if second.cursor.before is Some {
                    let b = second.cursor.before->Some_0;
                    assert(lo2 < hi2);
                    let part2 = keys.subrange(lo2, hi2);
                    assert(b == keys[hi2 - 1]) by {
                        assert(part2.reverse().first() == part2[part2.len() - 1]);
                        assert(part2[part2.len() - 1] == keys[hi2 - 1]);
                    }
                    lemma_counts_at(keys, hi2 - 1);
                    let (lo3, hi3) = page_range(keys, order, Some(CursorChoice::Before(b)), limit);
                    assert(lo3 == lo1);
                    assert(hi3 == hi1);
                }
            },
        }
    }
}

/// Whether `a` is older than `b`.
pub fn is_older(a: &CursorPosition, b: &CursorPosition) -> (r: bool)
    ensures
        r == older(*a, *b),
{
    a.height < b.height || (a.height == b.height && a.tiebreak < b.tiebreak)
}

/// How many of the places are older than `c`, and how many are not newer.
fn counts(keys: &Vec<CursorPosition>, c: &CursorPosition) -> (r: (usize, usize))
    ensures
        r.0 == count_older(keys@, *c),
        r.1 == count_not_newer(keys@, *c),
{
    let mut below: usize = 0;
    let mut upto: usize = 0;
    let mut i: usize = 0;
    while i < keys.len()
        invariant
            i <= keys.len(),
            below <= i,
            upto <= i,
            below == count_older(keys@.take(i as int), *c),
            upto == count_not_newer(keys@.take(i as int), *c),
        decreases keys.len() - i,
    {
        proof {
            assert(keys@.take(i as int + 1).drop_last() == keys@.take(i as int));
            assert(keys@.take(i as int + 1).last() == keys@[i as int]);
        }
        if is_older(&keys[i], c) {
            below += 1;
        }
        if !is_older(c, &keys[i]) {
            upto += 1;
        }
        i += 1;
    }
    assert(keys@.take(i as int) == keys@);
    (below, upto)
}

/// The page that a query shows of the places `keys`, which are given oldest
/// first.
pub fn paginate(
    keys: &Vec<CursorPosition>,
    order: ListOrder,
    choice: Option<CursorChoice>,
    limit: usize,
) -> (page: Page)
    ensures
        page@ == page_of(keys@, order, choice, limit as int),
        page.items@.len() <= limit,
{
    let n = keys.len();
    let forward = match (order, choice) {
        (ListOrder::OldestToNewest, None) => true,
        (ListOrder::OldestToNewest, Some(CursorChoice::After(_))) => true,
        (ListOrder::OldestToNewest, Some(CursorChoice::Before(_))) => false,
        (ListOrder::NewestToOldest, None) => false,
        (ListOrder::NewestToOldest, Some(CursorChoice::After(_))) => false,
        (ListOrder::NewestToOldest, Some(CursorChoice::Before(_))) => true,
    };
    let (below, upto) = match choice {
        Some(CursorChoice::After(c)) => {
            proof {
                lemma_counts_bounded(keys@, c);
            }
            counts(keys, &c)
        },
        Some(CursorChoice::Before(c)) => {
            proof {
                lemma_counts_bounded(keys@, c);
            }
            counts(keys, &c)
        },
        None => (n, 0),
    };
    let (lo, hi) = if forward {
        let lo = upto;
        let room = n - lo;
        (lo, if limit < room {
            lo + limit
        } else {
            n
        })
    } else {
        let hi = below;
        (if limit < hi {
            hi - limit
        } else {
            0
        }, hi)
    };
    assert((lo as int, hi as int) == page_range(keys@, order, choice, limit as int));
    let ghost part = keys@.subrange(lo as int, hi as int);
    let mut items: Vec<CursorPosition> = Vec::new();
    match order {
        ListOrder::OldestToNewest => {
            let mut i: usize = lo;
            while i < hi
                invariant
                    lo <= i <= hi <= keys.len(),
                    items@ == keys@.subrange(lo as int, i as int),
                decreases hi - i,
            {
                items.push(keys[i]);
                i += 1;
            }
        },
        ListOrder::NewestToOldest => {
            let mut i: usize = hi;
            while i > lo
                invariant
                    lo <= i <= hi <= keys.len(),
                    part == keys@.subrange(lo as int, hi as int),
                    items@.len() == hi - i,
                    forall|k: int| 0 <= k < items@.len() ==> items@[k] == part[part.len() - 1 - k],
                decreases i - lo,
            {
                i -= 1;
                items.push(keys[i]);
            }
            assert(items@ =~= part.reverse());
        },
    }
    let cursor = if items.len() == 0 {
        Cursor { before: None, after: None }
    } else {
        Cursor { before: Some(items[0]), after: Some(items[items.len() - 1]) }
    };
    Page { items, cursor }
}

} // verus!
