//! The way from the root of a table's tree to where a row belongs, and pages on
//! it that became two.

use vstd::prelude::*;
use crate::balance::first_at_least;
use crate::cursor::BTCURSOR_MAX_DEPTH;
use crate::fans::{fan_of, left_fan, right_fan, Fan};
use crate::page::usable_ok;
use crate::pager::{loaded, page_of, PageState};
use crate::pairs::{
    changed_at, child_paired, grown_fan, has_fan, page_with_pair_gains, paired,
    split_page_is_paired,
};
use crate::payloads::kept;
use crate::sharing::{
    changes_only, grows_only, lemma_branch, lemma_spot, row_reaches_root, sole, spot, table_kept,
    uses, within, Spot,
};
use crate::tables::{child_at, high, low, rows, table, Row};

verus! {

/// A table before a row comes in, and that row.
pub struct Way {
    pub pages: Map<usize, PageState>,
    pub root: usize,
    pub height: nat,
    pub lo: int,
    pub hi: int,
    pub usable: int,
    /// How many pages the file has.
    pub size: int,
    pub row: Row,
}

/// Whether the table is one in memory that uses no page twice, and the row
/// belongs into it.
pub open spec fn way_ok(w: Way) -> bool {
    &&& usable_ok(w.usable)
    &&& w.height <= BTCURSOR_MAX_DEPTH
    &&& table(w.pages, w.root, w.height, w.lo, w.hi, w.usable)
    &&& sole(w.pages, w.root, w.height, w.usable)
    &&& within(w.pages, w.root, w.height, w.usable, w.size)
    &&& w.lo < w.row.rowid <= w.hi
}

/// The page on the way with `t` levels of interior pages from it down.
pub open spec fn spot_at(w: Way, t: nat) -> Spot {
    spot(w.pages, w.root, w.height, w.lo, w.hi, w.row.rowid, w.usable, t)
}

/// Which child of the page at level `t` the way goes to.
pub open spec fn turn(w: Way, t: nat) -> int {
    first_at_least(page_of(w.pages, spot_at(w, t).id), w.row.rowid, w.usable, 0).unwrap()
}

/// A page on the way is a table.
pub proof fn lemma_way(w: Way, t: nat)
    requires
        way_ok(w),
        t <= w.height,
    ensures
        ({
            let s = spot_at(w, t);
            &&& table(w.pages, s.id, t, s.lo, s.hi, w.usable)
            &&& sole(w.pages, s.id, t, w.usable)
            &&& within(w.pages, s.id, t, w.usable, w.size)
            &&& s.lo < w.row.rowid <= s.hi
            &&& s.id <= w.size
            &&& loaded(w.pages, s.id)
        }),
{
    let s = spot_at(w, t);
    lemma_spot(w.pages, w.root, w.height, w.lo, w.hi, w.row.rowid, w.usable, t);
    assert forall|j: usize| #[trigger] uses(w.pages, s.id, t, w.usable, j) implies j <= w.size by {
        assert(uses(w.pages, w.root, w.height, w.usable, j));
    }
    assert(uses(w.pages, s.id, t, w.usable, s.id));
}

/// The way goes from a page to one of its children.
pub proof fn lemma_way_down(w: Way, t: nat)
    requires
        way_ok(w),
        t < w.height,
    ensures
        ({
            let s = spot_at(w, t + 1);
            let page = page_of(w.pages, s.id);
            let c = turn(w, t + 1);
            &&& 0 <= c <= page.cell_count()
            &&& first_at_least(page, w.row.rowid, w.usable, 0) == Some(c)
            &&& spot_at(w, t) == Spot {
                id: child_at(page, c, w.usable),
                lo: low(page, c, s.lo, w.usable),
                hi: high(page, c, s.hi, w.usable),
            }
            &&& !uses(w.pages, spot_at(w, t).id, t, w.usable, s.id)
            &&& spot_at(w, t).id != s.id
        }),
{
    let s = spot_at(w, t + 1);
    let page = page_of(w.pages, s.id);
    lemma_way(w, t + 1);
    lemma_branch(page, s.lo, s.hi, w.row.rowid, w.usable, 0);
    lemma_spot_below(w.pages, w.root, w.height, w.lo, w.hi, w.row.rowid, w.usable, t);
    let c = turn(w, t + 1);
    let child = child_at(page, c, w.usable);
    assert(!uses(w.pages, child, t, w.usable, s.id));
    assert(uses(w.pages, child, t, w.usable, child));
}

pub proof fn lemma_spot_below(
    pages: Map<usize, PageState>,
    id: usize,
    height: nat,
    lo: int,
    hi: int,
    k: int,
    usable: int,
    t: nat,
)
    requires
        t < height,
    ensures
        ({
            let s = spot(pages, id, height, lo, hi, k, usable, t + 1);
            let page = page_of(pages, s.id);
            let c = first_at_least(page, k, usable, 0).unwrap();
            spot(pages, id, height, lo, hi, k, usable, t) == Spot {
                id: child_at(page, c, usable),
                lo: low(page, c, s.lo, usable),
                hi: high(page, c, s.hi, usable),
            }
        }),
    decreases height,
{
    let page = page_of(pages, id);
    let c = first_at_least(page, k, usable, 0).unwrap();
    if height > t + 1 {
        lemma_spot_below(
            pages,
            child_at(page, c, usable),
            (height - 1) as nat,
            low(page, c, lo, usable),
            high(page, c, hi, usable),
            k,
            usable,
            t,
        );
    } else {
        reveal_with_fuel(spot, 2);
    }
}

/// Whether the page at level `t` on the way became two, the left one in its place.
pub open spec fn became_two(
    w: Way,
    pages2: Map<usize, PageState>,
    t: nat,
    key: int,
    right: usize,
    q: int,
    size2: int,
) -> bool {
    let s = spot_at(w, t);
    paired(
        w.pages,
        pages2,
        s.id,
        t,
        s.lo,
        s.hi,
        s.id,
        key,
        right,
        w.row,
        q,
        w.usable,
        w.size,
        size2,
    )
}

/// Whether the child on the way of the page at level `t` became two.
pub open spec fn child_became_two(
    w: Way,
    pages2: Map<usize, PageState>,
    t: nat,
    key: int,
    right: usize,
    r: int,
    size2: int,
) -> bool {
    let s = spot_at(w, t);
    child_paired(
        w.pages,
        pages2,
        s.id,
        t,
        s.lo,
        s.hi,
        turn(w, t),
        key,
        right,
        w.row,
        r,
        w.usable,
        w.size,
        size2,
    )
}

/// The children of the page at level `t` on the way once one of them became two.
pub open spec fn fan_with(w: Way, t: nat, key: int, right: usize) -> Fan {
    grown_fan(fan_of(page_of(w.pages, spot_at(w, t).id), w.usable), turn(w, t), key, right)
}

/// Where a page on the way became two, the child of the page above it did.
pub proof fn lemma_two_below(
    w: Way,
    pages2: Map<usize, PageState>,
    t: nat,
    key: int,
    right: usize,
    q: int,
    size2: int,
)
    requires
        way_ok(w),
        t < w.height,
        became_two(w, pages2, t, key, right, q, size2),
        kept(
            w.pages,
            pages2,
            Set::new(
                |j: usize|
                    j == spot_at(w, t + 1).id || uses(w.pages, spot_at(w, t).id, t, w.usable, j)
                        || j > w.size,
            ),
        ),
    ensures
        child_became_two(w, pages2, t + 1, key, right, q, size2),
{
    let s = spot_at(w, t + 1);
    lemma_way(w, t + 1);
    lemma_way_down(w, t);
    assert(changed_at(w.pages, s.id, t + 1, turn(w, t + 1), w.usable, w.size) =~= Set::new(
        |j: usize|
            j == spot_at(w, t + 1).id || uses(w.pages, spot_at(w, t).id, t, w.usable, j) || j
                > w.size,
    ));
}

/// A page that became two stays so when pages change that neither of them uses.
proof fn lemma_two_kept(
    w: Way,
    pages2: Map<usize, PageState>,
    pages3: Map<usize, PageState>,
    x: Set<usize>,
    t: nat,
    key: int,
    right: usize,
    q: int,
    size2: int,
)
    requires
        way_ok(w),
        became_two(w, pages2, t, key, right, q, size2),
        kept(pages2, pages3, x),
        forall|j: usize| #[trigger]
            x.contains(j) ==> !uses(pages2, spot_at(w, t).id, t, w.usable, j) && !uses(
                pages2,
                right,
                t,
                w.usable,
                j,
            ),
    ensures
        became_two(w, pages3, t, key, right, q, size2),
{
    let s = spot_at(w, t);
    table_kept(pages2, pages3, x, s.id, t, s.lo, key, w.usable);
    table_kept(pages2, pages3, x, right, t, key, s.hi, w.usable);
    assert forall|j: usize| #[trigger] uses(pages3, s.id, t, w.usable, j) implies {
        &&& !uses(pages3, right, t, w.usable, j)
        &&& uses(w.pages, s.id, t, w.usable, j) || w.size < j <= size2
    } by {
        assert(uses(pages2, s.id, t, w.usable, j));
    }
    assert forall|j: usize| #[trigger] uses(pages3, right, t, w.usable, j) implies uses(
        w.pages,
        s.id,
        t,
        w.usable,
        j,
    ) || w.size < j <= size2 by {
        assert(uses(pages2, right, t, w.usable, j));
    }
}

/// The child of a page that became two stays so when the page itself or later
/// pages change.
pub proof fn lemma_child_two_kept(
    w: Way,
    pages2: Map<usize, PageState>,
    pages3: Map<usize, PageState>,
    x: Set<usize>,
    t: nat,
    key: int,
    right: usize,
    r: int,
    size2: int,
)
    requires
        way_ok(w),
        0 < t <= w.height,
        w.size <= size2,
        child_became_two(w, pages2, t, key, right, r, size2),
        kept(pages2, pages3, x),
        forall|j: usize| #[trigger] x.contains(j) ==> j == spot_at(w, t).id || j > size2,
    ensures
        child_became_two(w, pages3, t, key, right, r, size2),
{
    let s = spot_at(w, t);
    let h = (t - 1) as nat;
    lemma_way(w, t);
    lemma_way(w, h);
    lemma_way_down(w, h);
    let c = spot_at(w, h);
    assert(became_two(w, pages2, h, key, right, r, size2));
    assert forall|j: usize| #[trigger] x.contains(j) implies !uses(
        pages2,
        c.id,
        h,
        w.usable,
        j,
    ) && !uses(pages2, right, h, w.usable, j) by {
        if uses(w.pages, c.id, h, w.usable, j) {
            assert(j <= w.size);
        }
    }
    lemma_two_kept(w, pages2, pages3, x, h, key, right, r, size2);
    let z = changed_at(w.pages, s.id, t, turn(w, t), w.usable, w.size);
    assert forall|j: usize| #[trigger] loaded(w.pages, j) && !z.contains(j) implies loaded(
        pages3,
        j,
    ) && page_of(pages3, j) == page_of(w.pages, j) by {
        assert(loaded(pages2, j));
        assert(!x.contains(j));
    }
}

/// A page on the way whose child became two, and that was itself split below the
/// page above it, became two.
pub proof fn lemma_two_above(
    w: Way,
    pages1: Map<usize, PageState>,
    pages2: Map<usize, PageState>,
    t: nat,
    key: int,
    right: usize,
    r: int,
    size1: int,
    m: int,
    rid: usize,
) -> (q: int)
    requires
        way_ok(w),
        0 < t < w.height,
        w.size <= size1,
        child_became_two(w, pages1, t, key, right, r, size1),
        rid == size1 + 1,
        loaded(pages1, spot_at(w, t + 1).id),
        kept(pages1, pages2, set![spot_at(w, t).id, spot_at(w, t + 1).id, rid]),
        1 <= m <= fan_with(w, t, key, right).keys.len(),
        has_fan(pages2, spot_at(w, t).id, left_fan(fan_with(w, t, key, right), m), w.usable),
        has_fan(pages2, rid, right_fan(fan_with(w, t, key, right), m), w.usable),
    ensures
        became_two(
            w,
            pages2,
            t,
            fan_with(w, t, key, right).keys[m - 1],
            rid,
            q,
            size1 + 1,
        ),
{
    let s = spot_at(w, t);
    let u = spot_at(w, t + 1).id;
    lemma_way(w, t);
    lemma_way(w, t + 1);
    lemma_way_down(w, t);
    let mid = pages2.insert(u, pages1[u]);
    let x = set![s.id, rid];
    assert(kept(pages1, mid, x)) by {
        assert forall|j: usize| #[trigger] loaded(pages1, j) && !x.contains(j) implies loaded(
            mid,
            j,
        ) && page_of(mid, j) == page_of(pages1, j) by {
            if j != u {
                assert(!set![s.id, u, rid].contains(j));
            }
        }
    }
    lemma_child_two_kept(w, pages1, mid, x, t, key, right, r, size1);
    let q = split_page_is_paired(
        w.pages,
        mid,
        s.id,
        t,
        s.lo,
        s.hi,
        turn(w, t),
        key,
        right,
        w.row,
        r,
        w.usable,
        w.size,
        size1,
        m,
        s.id,
        rid,
        size1 + 1,
    );
    let y = set![u];
    assert(kept(mid, pages2, y)) by {
        assert forall|j: usize| #[trigger] loaded(mid, j) && !y.contains(j) implies loaded(
            pages2,
            j,
        ) && page_of(pages2, j) == page_of(mid, j) by {}
    }
    let key2 = fan_with(w, t, key, right).keys[m - 1];
    assert(became_two(w, mid, t, key2, rid, q, size1 + 1));
    assert forall|j: usize| #[trigger] y.contains(j) implies !uses(mid, s.id, t, w.usable, j)
        && !uses(mid, rid, t, w.usable, j) by {
        assert(!uses(w.pages, s.id, t, w.usable, u));
    }
    lemma_two_kept(w, mid, pages2, y, t, key2, rid, q, size1 + 1);
    q
}

/// Where a page on the way names both pages that its child became, the whole
/// table has the row.
pub proof fn lemma_two_reach_root(
    w: Way,
    pages2: Map<usize, PageState>,
    t: nat,
    key: int,
    right: usize,
    r: int,
    size2: int,
) -> (q: int)
    requires
        way_ok(w),
        0 < t <= w.height,
        child_became_two(w, pages2, t, key, right, r, size2),
        has_fan(pages2, spot_at(w, t).id, fan_with(w, t, key, right), w.usable),
    ensures
        table(pages2, w.root, w.height, w.lo, w.hi, w.usable),
        sole(pages2, w.root, w.height, w.usable),
        grows_only(w.pages, pages2, w.root, w.height, w.usable, w.size, size2),
        0 <= q <= rows(w.pages, w.root, w.height, w.usable).len(),
        rows(pages2, w.root, w.height, w.usable) == rows(
            w.pages,
            w.root,
            w.height,
            w.usable,
        ).insert(q, w.row),
{
    let s = spot_at(w, t);
    let h = (t - 1) as nat;
    lemma_way_down(w, h);
    let p = page_with_pair_gains(
        w.pages,
        pages2,
        s.id,
        t,
        s.lo,
        s.hi,
        turn(w, t),
        key,
        right,
        w.row,
        r,
        w.usable,
        w.size,
        size2,
    );
    assert(changes_only(w.pages, pages2, s.id, t, w.usable, w.size)) by {
        let page = page_of(w.pages, s.id);
        let z = changed_at(w.pages, s.id, t, turn(w, t), w.usable, w.size);
        let y = Set::new(|j: usize| uses(w.pages, s.id, t, w.usable, j) || j > w.size);
        assert forall|j: usize| #[trigger] loaded(w.pages, j) && !y.contains(j) implies loaded(
            pages2,
            j,
        ) && page_of(pages2, j) == page_of(w.pages, j) by {
            assert(!uses(w.pages, child_at(page, turn(w, t), w.usable), h, w.usable, j));
            assert(!z.contains(j));
        }
    }
    row_reaches_root(
        w.pages,
        pages2,
        w.root,
        w.height,
        w.lo,
        w.hi,
        w.row.rowid,
        w.usable,
        t,
        w.size,
        size2,
        w.row,
        p,
    )
}

} // verus!
