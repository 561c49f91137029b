//! Rows that come in after a leaf was split.

use vstd::prelude::*;
use crate::balance::first_at_least;
use crate::chains::{lemma_leaf_starts, row_put, way_of};
use crate::climbs::{lemma_divided_entry, lemma_key_place};
use crate::cursor::CursorModel;
use crate::growth::{
    at_leaf, beside, cells_with, insert_with_new_root, insert_with_split, insertions_follow,
    leaf_splits, lemma_at_leaf, lemma_divider_place, lemma_root_row_ready, lemma_split_below,
    lemma_split_root, lemma_split_row_ready, parent_takes, shared_out, table_rows, takes_row,
};
use crate::page::PageModel;
use crate::pager::{loaded, page_of, PageState};
use crate::payloads::kept;
use crate::record::{record_fits, ValueModel};
use crate::sharing::{sole, uses};
use crate::splits::{divided, split_key};
use crate::tables::{child_at, high, low, table, Row};
use crate::ways::{lemma_spot_below, lemma_way, lemma_way_down, spot_at, turn, way_ok, Way};

verus! {

/// The way of another row id.
pub open spec fn way_for(w: Way, k: int) -> Way {
    Way { row: Row { rowid: k, ..w.row }, ..w }
}

/// A row id within the bounds of a page on the way goes the same way down to that
/// page.
proof fn lemma_same_way(w: Way, k: int, t: nat)
    requires
        way_ok(w),
        t <= w.height,
        spot_at(w, t).lo < k <= spot_at(w, t).hi,
    ensures
        w.lo < k <= w.hi,
        spot_at(way_for(w, k), t) == spot_at(w, t),
    decreases w.height - t,
{
    if t < w.height {
        let s = spot_at(w, t + 1);
        let page = page_of(w.pages, s.id);
        lemma_way(w, t + 1);
        lemma_way_down(w, t);
        let c = turn(w, t + 1);
        assert(s.lo <= low(page, c, s.lo, w.usable) && high(page, c, s.hi, w.usable) <= s.hi) by {
            if c > 0 {
                assert(page.head(c - 1, w.usable) is Some);
            }
            if c < page.cell_count() {
                assert(page.head(c, w.usable) is Some);
            }
        }
        lemma_same_way(w, k, t + 1);
        lemma_key_place(w, t, k);
        lemma_spot_below(w.pages, w.root, w.height, w.lo, w.hi, k, w.usable, t);
    }
}

/// The way down to a page is kept when only pages change that it uses, or later
/// ones.
proof fn lemma_way_kept(w: Way, pages2: Map<usize, PageState>, x: Set<usize>, t: nat)
    requires
        way_ok(w),
        t <= w.height,
        kept(w.pages, pages2, x),
        forall|j: usize| #[trigger]
            x.contains(j) ==> uses(w.pages, spot_at(w, t).id, t, w.usable, j) || j > w.size,
    ensures
        spot_at(Way { pages: pages2, ..w }, t) == spot_at(w, t),
    decreases w.height - t,
{
    if t < w.height {
        let s = spot_at(w, t + 1);
        let page = page_of(w.pages, s.id);
        let w2 = Way { pages: pages2, ..w };
        lemma_way(w, t + 1);
        lemma_way_down(w, t);
        assert forall|j: usize| #[trigger] x.contains(j) implies uses(
            w.pages,
            s.id,
            t + 1,
            w.usable,
            j,
        ) || j > w.size by {
            assert(child_at(page, turn(w, t + 1), w.usable) == spot_at(w, t).id);
        }
        lemma_way_kept(w, pages2, x, t + 1);
        assert(!x.contains(s.id));
        assert(page_of(pages2, s.id) == page);
        lemma_spot_below(pages2, w.root, w.height, w.lo, w.hi, w.row.rowid, w.usable, t);
        assert(spot_at(w2, t + 1) == s);
    }
}

/// A row id behind the divider goes to the right one of two children.
proof fn lemma_right_child(
    pages: Map<usize, PageState>,
    id: usize,
    page: PageModel,
    lo: int,
    hi: int,
    ci: int,
    left: usize,
    key: int,
    right: usize,
    k: int,
    usable: int,
)
    requires
        table(pages, id, 1, lo, hi, usable),
        sole(pages, id, 1, usable),
        0 <= ci <= page.cell_count(),
        divided(page, page_of(pages, id), ci, left as int, key, right as int, usable),
        key < k <= high(page, ci, hi, usable),
    ensures
        ({
            let page2 = page_of(pages, id);
            let c = first_at_least(page2, k, usable, 0);
            c == Some(ci + 1) && child_at(page2, ci + 1, usable) == right
        }),
{
    let page2 = page_of(pages, id);
    lemma_divided_entry(page, page2, ci, left, key, right, usable, ci);
    if ci < page.cell_count() {
        lemma_divided_entry(page, page2, ci, left, key, right, usable, ci + 1);
    }
    assert(low(page2, ci + 1, lo, usable) == key);
    assert(high(page2, ci + 1, hi, usable) == high(page, ci, hi, usable));
    lemma_divider_place(pages, id, 1, lo, hi, ci + 1, k, usable);
}

/// The pages that a split of the leaf changes.
proof fn lemma_split_kept(
    c: CursorModel,
    height: nat,
    lo: int,
    hi: int,
    rowid: u64,
    record: Seq<ValueModel>,
)
    requires
        height > 0,
        takes_row(c, height, lo, hi, rowid, record),
        leaf_splits(c, rowid, record),
        parent_takes(c, rowid, record),
    ensures
        ({
            let w = way_of(c, height, lo, hi, rowid, record);
            let e = at_leaf(c, rowid).written(rowid, record).cursor;
            kept(
                w.pages,
                e.pages(),
                Set::new(
                    |j: usize| uses(w.pages, spot_at(w, 1).id, 1, w.usable, j) || j > w.size,
                ),
            )
        }),
{
    let w = way_of(c, height, lo, hi, rowid, record);
    let b = row_put(c, rowid, record);
    let e = b.written(rowid, record).cursor;
    let ci = lemma_split_below(c, height, lo, hi, rowid, record);
    let r = (b.header.database_size + 1) as usize;
    let s0 = spot_at(w, 0);
    let s1 = spot_at(w, 1);
    let x = set![s0.id, s1.id, r];
    let y = Set::new(|j: usize| uses(w.pages, s1.id, 1, w.usable, j) || j > w.size);
    assert(kept(w.pages, b.pages(), Set::new(|j: usize| j == s0.id || j > w.size)) && kept(
        b.pages(),
        e.pages(),
        x,
    )) by {
        reveal(shared_out);
        reveal(beside);
    }
    assert(uses(w.pages, s1.id, 1, w.usable, s1.id));
    assert(uses(w.pages, s0.id, 0, w.usable, s0.id));
    lemma_way(w, 1);
    assert(child_at(page_of(w.pages, s1.id), ci, w.usable) == s0.id);
    assert(uses(w.pages, s1.id, 1, w.usable, s0.id));
    assert forall|j: usize| #[trigger] loaded(w.pages, j) && !y.contains(j) implies loaded(
        e.pages(),
        j,
    ) && page_of(e.pages(), j) == page_of(w.pages, j) by {
        assert(loaded(b.pages(), j));
        assert(!x.contains(j));
    }
}

/// After a leaf was split below its parent, a row id behind the divider, up to the
/// greatest one of the leaf, belongs on the right leaf.
proof fn lemma_goes_right(
    c: CursorModel,
    height: nat,
    lo: int,
    hi: int,
    rowid: u64,
    record: Seq<ValueModel>,
    k: u64,
)
    requires
        height > 0,
        takes_row(c, height, lo, hi, rowid, record),
        leaf_splits(c, rowid, record),
        parent_takes(c, rowid, record),
        split_key(cells_with(c, rowid, record), c.usable()) < k,
        k <= spot_at(way_of(c, height, lo, hi, rowid, record), 0).hi,
    ensures
        ({
            let e = at_leaf(c, rowid).written(rowid, record).cursor;
            let b = row_put(c, rowid, record);
            &&& lo < k <= hi
            &&& at_leaf(e, k).top().page == b.header.database_size + 1
            &&& at_leaf(e, k).pages() == e.pages()
        }),
{
    let w = way_of(c, height, lo, hi, rowid, record);
    let b = row_put(c, rowid, record);
    let e = at_leaf(c, rowid).written(rowid, record).cursor;
    let usable = c.usable();
    let key = split_key(cells_with(c, rowid, record), usable);
    let s0 = spot_at(w, 0);
    let s1 = spot_at(w, 1);
    let page = page_of(w.pages, s1.id);
    let r = (b.header.database_size + 1) as usize;
    let ci = lemma_split_below(c, height, lo, hi, rowid, record);
    lemma_leaf_starts(c, height, lo, hi, rowid, record);
    lemma_same_way(w, k as int, 0);
    let w1 = way_for(w, k as int);
    lemma_way(w, 1);
    lemma_way_down(w, 0);
    assert(s1.lo <= s0.lo && s0.hi <= s1.hi) by {
        let t = turn(w, 1);
        if t > 0 {
            assert(page.head(t - 1, usable) is Some);
        }
        if t < page.cell_count() {
            assert(page.head(t, usable) is Some);
        }
    }
    lemma_same_way(w, k as int, 1);
    lemma_split_kept(c, height, lo, hi, rowid, record);
    let y = Set::new(|j: usize| uses(w.pages, s1.id, 1, w.usable, j) || j > w.size);
    lemma_way_kept(w1, e.pages(), y, 1);
    insert_with_split(c, height, lo, hi, rowid, record);
    let w2 = Way { pages: e.pages(), size: e.header.database_size as int, ..w1 };
    assert(spot_at(w2, 1) == s1);
    lemma_way(w2, 1);
    lemma_right_child(
        e.pages(),
        s1.id,
        page,
        s1.lo,
        s1.hi,
        ci,
        s0.id,
        key,
        r,
        k as int,
        usable,
    );
    lemma_way_down(w2, 0);
    lemma_at_leaf(e, height, lo, hi, k);
}

/// After a leaf was split below its parent, the table takes the next row behind the
/// divider, up to the greatest row id of the leaf: no cell stands beside the right
/// leaf.
pub proof fn rows_follow_on_the_right(
    c: CursorModel,
    height: nat,
    lo: int,
    hi: int,
    rowid: u64,
    record: Seq<ValueModel>,
    rowid2: u64,
    record2: Seq<ValueModel>,
)
    requires
        height > 0,
        takes_row(c, height, lo, hi, rowid, record),
        leaf_splits(c, rowid, record),
        parent_takes(c, rowid, record),
        split_key(cells_with(c, rowid, record), c.usable()) < rowid2,
        rowid2 <= spot_at(way_of(c, height, lo, hi, rowid, record), 0).hi,
        rowid2 != rowid,
        forall|i: int|
            0 <= i < table_rows(c, height).len() ==> (#[trigger] table_rows(c, height)[i]).rowid
                != rowid2,
        record_fits(record2),
    ensures
        takes_row(
            at_leaf(c, rowid).written(rowid, record).cursor,
            height,
            lo,
            hi,
            rowid2,
            record2,
        ),
{
    let e = at_leaf(c, rowid).written(rowid, record).cursor;
    let row = Row { rowid: rowid as int, record };
    insert_with_split(c, height, lo, hi, rowid, record);
    lemma_goes_right(c, height, lo, hi, rowid, record, rowid2);
    lemma_split_row_ready(c, height, lo, hi, rowid, record);
    insertions_follow(c, height, e, height, lo, hi, row, rowid2, record2);
}

/// After a leaf that was the whole tree was split, a row id behind the divider
/// belongs on the right leaf.
proof fn lemma_goes_right_of_root(
    c: CursorModel,
    lo: int,
    hi: int,
    rowid: u64,
    record: Seq<ValueModel>,
    k: u64,
)
    requires
        takes_row(c, 0, lo, hi, rowid, record),
        leaf_splits(c, rowid, record),
        row_put(c, rowid, record).header.database_size + 1 < u32::MAX,
        split_key(cells_with(c, rowid, record), c.usable()) < k <= hi,
    ensures
        ({
            let e = at_leaf(c, rowid).written(rowid, record).cursor;
            let b = row_put(c, rowid, record);
            &&& lo < k
            &&& at_leaf(e, k).top().page == b.header.database_size + 2
            &&& at_leaf(e, k).pages() == e.pages()
        }),
{
    let w = way_of(c, 0, lo, hi, rowid, record);
    let b = row_put(c, rowid, record);
    let e = at_leaf(c, rowid).written(rowid, record).cursor;
    let usable = c.usable();
    let left = (b.header.database_size + 1) as usize;
    let right = (b.header.database_size + 2) as usize;
    lemma_leaf_starts(c, 0, lo, hi, rowid, record);
    lemma_split_root(c, lo, hi, rowid, record);
    insert_with_new_root(c, lo, hi, rowid, record);
    lemma_right_child(
        e.pages(),
        c.root_page,
        b.with_new_root().parent_page(),
        lo,
        hi,
        0,
        left,
        split_key(cells_with(c, rowid, record), usable),
        right,
        k as int,
        usable,
    );
    let w2 = Way {
        pages: e.pages(),
        height: 1,
        size: e.header.database_size as int,
        ..way_for(w, k as int)
    };
    lemma_way_down(w2, 0);
    lemma_at_leaf(e, 1, lo, hi, k);
}

/// After a leaf that was the whole tree was split, the table takes the next row
/// behind the divider: no cell stands beside the right leaf.
pub proof fn rows_follow_below_a_new_root(
    c: CursorModel,
    lo: int,
    hi: int,
    rowid: u64,
    record: Seq<ValueModel>,
    rowid2: u64,
    record2: Seq<ValueModel>,
)
    requires
        takes_row(c, 0, lo, hi, rowid, record),
        leaf_splits(c, rowid, record),
        row_put(c, rowid, record).header.database_size + 1 < u32::MAX,
        split_key(cells_with(c, rowid, record), c.usable()) < rowid2 <= hi,
        rowid2 != rowid,
        forall|i: int|
            0 <= i < table_rows(c, 0).len() ==> (#[trigger] table_rows(c, 0)[i]).rowid != rowid2,
        record_fits(record2),
    ensures
        takes_row(
            at_leaf(c, rowid).written(rowid, record).cursor,
            1,
            lo,
            hi,
            rowid2,
            record2,
        ),
{
    let e = at_leaf(c, rowid).written(rowid, record).cursor;
    let row = Row { rowid: rowid as int, record };
    insert_with_new_root(c, lo, hi, rowid, record);
    lemma_goes_right_of_root(c, lo, hi, rowid, record, rowid2);
    lemma_root_row_ready(c, lo, hi, rowid, record);
    insertions_follow(c, 0, e, 1, lo, hi, row, rowid2, record2);
}

} // verus!
