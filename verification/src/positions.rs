//! Where a search leaves the cursor in a table.

use vstd::prelude::*;
use crate::cursor::{at_index, pushed, BTCURSOR_MAX_DEPTH, CursorModel, Frame};
use crate::descent::{descend, root_stack};
use crate::order::{int_order, lies_left, KeyModel, SeekOp};
use crate::page::PageModel;
use crate::pager::{page_of, PageState};
use crate::scans::{
    ahead, frame_ok, frame_rows, in_tree, lemma_in_tree_index, lemma_table_readable, next_row,
};
use crate::tables::{
    child_at, first_wanted, high, is_wanted, leaf_rows, lemma_interior_cell, lemma_rows_from_ascend,
    lemma_rows_split, lemma_search_table_leaf, lemma_table_descend, lemma_table_route, low, row_at,
    rows, rows_before, rows_from, separator, table, table_leaf, table_rows_ascend, Landed, Row,
};
use crate::walk::Found;

verus! {

/// Whether a search for `k` goes to the left of some cell of an interior page.
pub open spec fn has_bound(page: PageModel, k: int, op: SeekOp, usable: int) -> bool {
    exists|m: int|
        0 <= m < page.cell_count() && if op == SeekOp::GT {
            (#[trigger] page.head(m, usable)).unwrap().rowid > k
        } else {
            page.head(m, usable).unwrap().rowid >= k
        }
}

/// Whether the way of a search for `k` goes to the left of a cell on each interior
/// page, from level `n` of the stack on.
pub open spec fn has_bounds(
    pages: Map<usize, PageState>,
    stack: Seq<Frame>,
    n: int,
    k: int,
    op: SeekOp,
    usable: int,
) -> bool {
    forall|i: int|
        n <= i < stack.len() - 1 ==> has_bound(
            page_of(pages, (#[trigger] stack[i]).page),
            k,
            op,
            usable,
        )
}

/// Where the way down goes to the left of a cell on each page, the rows behind
/// the leaf are those ahead of the pages above it.
#[verifier::spinoff_prover]
#[verifier::rlimit(60)]
proof fn lemma_way_down(
    pages: Map<usize, PageState>,
    stack: Seq<Frame>,
    height: nat,
    lo: int,
    hi: int,
    k: int,
    op: SeekOp,
    usable: int,
) -> (x: Landed)
    requires
        height <= BTCURSOR_MAX_DEPTH,
        in_tree(pages, stack, height, usable),
        table(pages, stack.last().page, (height + 1 - stack.len()) as nat, lo, hi, usable),
    ensures
        ({
            let d = descend(pages, stack, KeyModel::RowId(k), op, usable);
            let h = (height + 1 - stack.len()) as nat;
            let leaf = page_of(pages, d.stack.last().page);
            &&& d.end is Leaf
            &&& d.stack.len() == height + 1
            &&& in_tree(pages, d.stack, height, usable)
            &&& forall|i: int|
                0 <= i < stack.len() ==> d.stack[i].page == (#[trigger] stack[i]).page
            &&& has_bounds(pages, d.stack, stack.len() - 1, k, op, usable) ==> {
                &&& rows(pages, stack.last().page, h, usable) == x.before + leaf_rows(
                    pages,
                    leaf,
                    usable,
                ) + x.after
                &&& ahead(pages, d.stack.drop_last(), height, usable) == x.after + ahead(
                    pages,
                    stack.drop_last(),
                    height,
                    usable,
                )
                &&& forall|i: int| 0 <= i < x.after.len() ==> (#[trigger] x.after[i]).rowid > k
            }
        }),
    decreases height + 1 - stack.len(),
{
    let n = stack.len() as int;
    let h = (height + 1 - n) as nat;
    let key = KeyModel::RowId(k);
    let id = stack.last().page;
    let page = page_of(pages, id);
    let d = descend(pages, stack, key, op, usable);
    let none = Seq::<Row>::empty();
    let x = Landed { before: none, leaf: page, after: none, lo, hi };
    assert(frame_ok(pages, stack[n - 1], h, usable));
    if h == 0 {
        let l = leaf_rows(pages, page, usable);
        assert(none + l + none =~= l);
        let up = ahead(pages, stack.drop_last(), height, usable);
        assert(none + up =~= up);
        x
    } else {
        let c = lemma_table_step(pages, stack, height, lo, hi, k, op, usable);
        let child = child_at(page, c, usable);
        let at = if c < page.cell_count() {
            c + 1
        } else {
            page.cell_count()
        };
        let here = at_index(stack, at);
        let next = pushed(here, child as int);
        let l = low(page, c, lo, usable);
        let g = high(page, c, hi, usable);
        assert(next.last().page == child);
        let y = lemma_way_down(pages, next, height, l, g, k, op, usable);
        assert(d.stack[n - 1].page == next[n - 1].page);
        assert(next[n - 1].page == id);
        assert forall|i: int| 0 <= i < n implies d.stack[i].page == (#[trigger] stack[i]).page by {
            assert(next[i].page == stack[i].page);
        }
        if has_bounds(pages, d.stack, n - 1, k, op, usable) {
            assert(has_bound(page_of(pages, d.stack[n - 1].page), k, op, usable));
            lemma_bound_left(page, lo, hi, k, op, usable, c);
            lemma_one_down(pages, here, height, lo, hi, k, op, usable, c);
            let front = rows_before(pages, page, h, c as nat, usable);
            let back = rows_from(pages, page, h, (c + 1) as nat, usable);
            let leaf = leaf_rows(pages, page_of(pages, d.stack.last().page), usable);
            let up = ahead(pages, stack.drop_last(), height, usable);
            let z = Landed { before: front + y.before, after: y.after + back, ..x };
            lemma_parts_above(front, y.before, leaf, y.after, back, up, k);
            z
        } else {
            x
        }
    }
}

/// One step down a table's tree.
#[verifier::spinoff_prover]
#[verifier::rlimit(60)]
pub proof fn lemma_table_step(
    pages: Map<usize, PageState>,
    stack: Seq<Frame>,
    height: nat,
    lo: int,
    hi: int,
    k: int,
    op: SeekOp,
    usable: int,
) -> (c: int)
    requires
        height <= BTCURSOR_MAX_DEPTH,
        in_tree(pages, stack, height, usable),
        stack.len() <= height,
        table(pages, stack.last().page, (height + 1 - stack.len()) as nat, lo, hi, usable),
    ensures
        ({
            let page = page_of(pages, stack.last().page);
            let at = if c < page.cell_count() {
                c + 1
            } else {
                page.cell_count()
            };
            let here = at_index(stack, at);
            let next = pushed(here, child_at(page, c, usable) as int);
            &&& 0 <= c <= page.cell_count()
            &&& c < page.cell_count() ==> lies_left(int_order(separator(page, c, usable), k), op)
            &&& c > 0 ==> !lies_left(int_order(separator(page, c - 1, usable), k), op)
            &&& descend(pages, stack, KeyModel::RowId(k), op, usable) == descend(
                pages,
                next,
                KeyModel::RowId(k),
                op,
                usable,
            )
            &&& in_tree(pages, next, height, usable)
            &&& next.len() == stack.len() + 1
            &&& next.drop_last() == here
            &&& next.last().page == child_at(page, c, usable)
            &&& here.drop_last() == stack.drop_last()
            &&& here.len() == stack.len()
            &&& here.last() == Frame { page: stack.last().page, index: at as usize }
            &&& forall|i: int| 0 <= i < stack.len() ==> next[i].page == (#[trigger] stack[i]).page
        }),
{
    let n = stack.len();
    let h = (height + 1 - n) as nat;
    let id = stack.last().page;
    let page = page_of(pages, id);
    assert(frame_ok(pages, stack[n - 1], h, usable));
    let c = lemma_table_route(pages, page, k, op, lo, hi, usable, 0);
    let at = if c < page.cell_count() {
        c + 1
    } else {
        page.cell_count()
    };
    if c < page.cell_count() {
        assert(page.head(c, usable) is Some);
        lemma_interior_cell(pages, page, c, usable);
    }
    let here = at_index(stack, at);
    lemma_in_tree_index(pages, stack, height, usable, at);
    lemma_in_tree_pushed(pages, here, height, usable, c);
    let next = pushed(here, child_at(page, c, usable) as int);
    assert(next.drop_last() =~= here);
    assert(here.drop_last() =~= stack.drop_last());
    c
}

/// The parts of the rows below a page, seen from the page above it.
proof fn lemma_parts_above(
    front: Seq<Row>,
    before: Seq<Row>,
    leaf: Seq<Row>,
    after: Seq<Row>,
    back: Seq<Row>,
    up: Seq<Row>,
    k: int,
)
    requires
        forall|i: int| 0 <= i < after.len() ==> (#[trigger] after[i]).rowid > k,
        forall|i: int| 0 <= i < back.len() ==> (#[trigger] back[i]).rowid > k,
    ensures
        front + ((before + leaf + after) + back) == (front + before) + leaf + (after + back),
        after + (back + up) == (after + back) + up,
        forall|i: int| 0 <= i < (after + back).len() ==> (#[trigger] (after + back)[i]).rowid > k,
{
    assert(front + ((before + leaf + after) + back) =~= (front + before) + leaf + (after + back));
    assert(after + (back + up) =~= (after + back) + up);
    assert forall|i: int| 0 <= i < (after + back).len() implies (#[trigger] (after
        + back)[i]).rowid > k by {
        if i < after.len() {
            assert((after + back)[i] == after[i]);
        } else {
            assert((after + back)[i] == back[i - after.len()]);
        }
    }
}

/// A page with a cell to the left of which the search goes is not left by its
/// right-most child.
pub proof fn lemma_bound_left(
    page: PageModel,
    lo: int,
    hi: int,
    k: int,
    op: SeekOp,
    usable: int,
    c: int,
)
    requires
        crate::tables::table_node(page, lo, hi, usable),
        has_bound(page, k, op, usable),
        0 <= c <= page.cell_count(),
        c > 0 ==> !lies_left(int_order(separator(page, c - 1, usable), k), op),
    ensures
        c < page.cell_count(),
{
    if c == page.cell_count() {
        let m = choose|m: int|
            0 <= m < page.cell_count() && if op == SeekOp::GT {
                (#[trigger] page.head(m, usable)).unwrap().rowid > k
            } else {
                page.head(m, usable).unwrap().rowid >= k
            };
        assert(page.head(m, usable) is Some);
        assert(page.head(c - 1, usable) is Some);
        if m < c - 1 {
            assert(page.head(m, usable).unwrap().rowid <= page.head(c - 1, usable).unwrap().rowid);
        }
    }
}

/// A place after the cursor went down to child `c`.
proof fn lemma_in_tree_pushed(
    pages: Map<usize, PageState>,
    stack: Seq<Frame>,
    height: nat,
    usable: int,
    c: int,
)
    requires
        in_tree(pages, stack, height, usable),
        stack.len() <= height,
        0 <= c <= page_of(pages, stack.last().page).cell_count(),
    ensures
        in_tree(
            pages,
            pushed(stack, child_at(page_of(pages, stack.last().page), c, usable) as int),
            height,
            usable,
        ),
{
    let n = stack.len();
    let page = page_of(pages, stack.last().page);
    let child = child_at(page, c, usable);
    let next = pushed(stack, child as int);
    assert(frame_ok(pages, stack[n - 1], (height - (n - 1)) as nat, usable));
    assert(crate::scans::readable(pages, child, (height - n) as nat, usable));
    assert forall|j: int| 0 <= j < next.len() implies frame_ok(
        pages,
        #[trigger] next[j],
        (height - j) as nat,
        usable,
    ) by {
        if j < n {
            assert(next[j] == stack[j]);
        }
    }
}

/// The rows of a page around child `c`, to which the search goes, and those ahead of
/// the place behind it.
proof fn lemma_one_down(
    pages: Map<usize, PageState>,
    here: Seq<Frame>,
    height: nat,
    lo: int,
    hi: int,
    k: int,
    op: SeekOp,
    usable: int,
    c: int,
)
    requires
        0 < here.len() <= height,
        table(pages, here.last().page, (height + 1 - here.len()) as nat, lo, hi, usable),
        0 <= c < page_of(pages, here.last().page).cell_count(),
        here.last().index == c + 1,
        lies_left(int_order(separator(page_of(pages, here.last().page), c, usable), k), op),
    ensures
        ({
            let h = (height + 1 - here.len()) as nat;
            let page = page_of(pages, here.last().page);
            let front = rows_before(pages, page, h, c as nat, usable);
            let mid = rows(pages, child_at(page, c, usable), (h - 1) as nat, usable);
            let back = rows_from(pages, page, h, (c + 1) as nat, usable);
            &&& rows(pages, here.last().page, h, usable) == front + (mid + back)
            &&& ahead(pages, here, height, usable) == back + ahead(
                pages,
                here.drop_last(),
                height,
                usable,
            )
            &&& forall|i: int| 0 <= i < back.len() ==> (#[trigger] back[i]).rowid > k
        }),
{
    let h = (height + 1 - here.len()) as nat;
    let page = page_of(pages, here.last().page);
    lemma_rows_split(pages, page, h, c as nat, usable);
    lemma_rows_from_ascend(pages, page, h, (c + 1) as nat, lo, hi, usable);
    assert(page.head(c, usable) is Some);
    assert(frame_rows(pages, here.last(), h, usable) == rows_from(
        pages,
        page,
        h,
        (c + 1) as nat,
        usable,
    ));
}

/// The rows ahead of a place on a leaf.
proof fn lemma_leaf_ahead(
    pages: Map<usize, PageState>,
    stack: Seq<Frame>,
    height: nat,
    usable: int,
    i: int,
)
    requires
        stack.len() == height + 1,
        0 <= i <= page_of(pages, stack.last().page).cell_count(),
    ensures
        ahead(pages, at_index(stack, i), height, usable) == leaf_rows(
            pages,
            page_of(pages, stack.last().page),
            usable,
        ).skip(i) + ahead(pages, stack.drop_last(), height, usable),
{
    assert(at_index(stack, i).drop_last() =~= stack.drop_last());
}

/// Whether the cursor holds row `n` of `r`, or nothing if there is none.
pub open spec fn holds_row(d: CursorModel, r: Seq<Row>, n: int) -> bool {
    if 0 <= n < r.len() {
        d.rowid == Some(r[n].rowid as u64) && d.record == Some(r[n].record)
    } else {
        d.rowid is None && d.record is None
    }
}

/// A search in a table: the way down to the leaf and what is found there.
struct Find {
    /// The rows in front of the leaf.
    front: int,
    /// The first cell of the leaf that is looked for, or the number of cells.
    cell: int,
    lo: int,
    hi: int,
}

/// Where a search in a table ends.
#[verifier::spinoff_prover]
#[verifier::rlimit(60)]
proof fn lemma_table_find(c: CursorModel, height: nat, lo: int, hi: int, k: int, op: SeekOp) -> (f:
    Find)
    requires
        height <= BTCURSOR_MAX_DEPTH,
        table(c.pages(), c.root_page, height, lo, hi, c.usable()),
    ensures
        ({
            let r = rows(c.pages(), c.root_page, height, c.usable());
            let s = c.descent(KeyModel::RowId(k), op).stack;
            let x = c.search(KeyModel::RowId(k), op);
            let leaf = page_of(c.pages(), s.last().page);
            let l = leaf_rows(c.pages(), leaf, c.usable());
            &&& s.len() == height + 1
            &&& in_tree(c.pages(), s, height, c.usable())
            &&& table_leaf(c.pages(), leaf, f.lo, f.hi, c.usable())
            &&& 0 <= f.cell <= leaf.cell_count()
            &&& 0 <= f.front <= r.len() - l.len()
            &&& forall|i: int| 0 <= i < l.len() ==> r[f.front + i] == #[trigger] l[i]
            &&& x.walk.upwards == c.going_upwards
            &&& if f.cell < leaf.cell_count() {
                &&& x.walk.stack == at_index(s, f.cell + 1)
                &&& x.found == (Found::Entry {
                    rowid: l[f.cell].rowid,
                    record: l[f.cell].record,
                })
            } else {
                &&& x.walk.stack == at_index(s, leaf.cell_count())
                &&& x.found is End
            }
        }),
{
    let pages = c.pages();
    let usable = c.usable();
    let stack = root_stack(c.root_page);
    assert(stack.last().page == c.root_page);
    lemma_table_readable(pages, c.root_page, height, lo, hi, usable);
    assert(in_tree(pages, stack, height, usable));
    let y = lemma_table_descend(pages, stack, height, lo, hi, k, op, usable);
    lemma_way_down(pages, stack, height, lo, hi, k, op, usable);
    lemma_search_table_leaf(pages, y.leaf, y.lo, y.hi, k, op, usable, 0);
    let l = leaf_rows(pages, y.leaf, usable);
    Find {
        front: y.before.len() as int,
        cell: first_wanted(l, k, op, 0),
        lo: y.lo,
        hi: y.hi,
    }
}

/// Where a search in a table ends, if its way goes to the left of a cell on each page.
#[verifier::spinoff_prover]
#[verifier::rlimit(60)]
proof fn lemma_bounded_find(
    c: CursorModel,
    height: nat,
    lo: int,
    hi: int,
    k: int,
    op: SeekOp,
    i: int,
) -> (n: int)
    requires
        height <= BTCURSOR_MAX_DEPTH,
        table(c.pages(), c.root_page, height, lo, hi, c.usable()),
        ({
            let s = c.descent(KeyModel::RowId(k), op).stack;
            let leaf = page_of(c.pages(), s.last().page);
            &&& has_bounds(c.pages(), at_index(s, i), 0, k, op, c.usable())
            &&& 0 <= i <= leaf.cell_count()
        }),
    ensures
        ({
            let r = rows(c.pages(), c.root_page, height, c.usable());
            let s = c.descent(KeyModel::RowId(k), op).stack;
            let leaf = page_of(c.pages(), s.last().page);
            let l = leaf_rows(c.pages(), leaf, c.usable());
            &&& 0 <= n <= r.len() - l.len()
            &&& forall|m: int| 0 <= m < l.len() ==> r[n + m] == #[trigger] l[m]
            &&& ahead(c.pages(), at_index(s, i), height, c.usable()) == r.skip(n + i)
            &&& forall|m: int| n + l.len() <= m < r.len() ==> (#[trigger] r[m]).rowid > k
        }),
{
    let pages = c.pages();
    let usable = c.usable();
    let stack = root_stack(c.root_page);
    assert(stack.last().page == c.root_page);
    lemma_table_readable(pages, c.root_page, height, lo, hi, usable);
    assert(in_tree(pages, stack, height, usable));
    let z = lemma_way_down(pages, stack, height, lo, hi, k, op, usable);
    let s = c.descent(KeyModel::RowId(k), op).stack;
    let r = rows(pages, c.root_page, height, usable);
    let leaf = page_of(pages, s.last().page);
    let l = leaf_rows(pages, leaf, usable);
    assert forall|m: int| 0 <= m < s.len() - 1 implies has_bound(
        page_of(pages, (#[trigger] s[m]).page),
        k,
        op,
        usable,
    ) by {
        assert(at_index(s, i)[m] == s[m]);
    }
    assert(stack.drop_last().len() == 0);
    assert(ahead(pages, stack.drop_last(), height, usable).len() == 0);
    lemma_leaf_ahead(pages, s, height, usable, i);
    let n = z.before.len() as int;
    assert(ahead(pages, at_index(s, i), height, usable) =~= r.skip(n + i));
    assert forall|m: int| n + l.len() <= m < r.len() implies (#[trigger] r[m]).rowid > k by {
        assert(r[m] == z.after[m - n - l.len()]);
    }
    n
}

/// A step goes to the first of the rows ahead.
proof fn lemma_step_ahead(d: CursorModel, height: nat, r: Seq<Row>, n: int)
    requires
        height <= BTCURSOR_MAX_DEPTH,
        in_tree(d.pages(), d.stack, height, d.usable()),
        0 <= n <= r.len(),
        ({
            let a = ahead(d.pages(), d.stack, height, d.usable());
            &&& n < r.len() ==> a.len() > 0 && a[0] == r[n]
            &&& n == r.len() ==> a.len() == 0
        }),
    ensures
        holds_row(d.stepped(), r, n),
{
    next_row(d.pages(), d.walk(), height, d.usable());
}

/// Where a search in a table finds row `j`, the cursor holds that row. If the leaf has
/// a row behind it, a step then goes to row `j + 1`. It does so from the last
/// row of the leaf too, and all rows from `j + 1` on are ahead, unless the way went by
/// the right-most child of a page.
#[verifier::spinoff_prover]
#[verifier::rlimit(60)]
pub proof fn found_row_is_passed(
    c: CursorModel,
    height: nat,
    lo: int,
    hi: int,
    k: int,
    op: SeekOp,
    j: int,
)
    requires
        height <= 20,
        table(c.pages(), c.root_page, height, lo, hi, c.usable()),
        c.search(KeyModel::RowId(k), op).found is Entry,
        0 <= j < rows(c.pages(), c.root_page, height, c.usable()).len(),
        c.search(KeyModel::RowId(k), op).found->rowid == rows(
            c.pages(),
            c.root_page,
            height,
            c.usable(),
        )[j].rowid,
    ensures
        ({
            let r = rows(c.pages(), c.root_page, height, c.usable());
            let x = c.search(KeyModel::RowId(k), op);
            let d = c.walked(x).holding(x.found);
            let leaf = page_of(c.pages(), d.stack.last().page);
            &&& d.pager == c.pager
            &&& holds_row(d, r, j)
            &&& exists|i: int|
                0 <= i < leaf.cell_count() && #[trigger] row_at(c.pages(), leaf, i, c.usable())
                    == Some(r[j])
            &&& forall|i: int|
                0 <= i < leaf.cell_count() - 1 && #[trigger] row_at(
                    c.pages(),
                    leaf,
                    i,
                    c.usable(),
                ) == Some(r[j]) ==> j + 1 < r.len() && holds_row(d.stepped(), r, j + 1)
            &&& has_bounds(c.pages(), d.stack, 0, k, op, c.usable()) ==> {
                &&& ahead(c.pages(), d.stack, height, c.usable()) == r.skip(j + 1)
                &&& holds_row(d.stepped(), r, j + 1)
            }
        }),
{
    let pages = c.pages();
    let usable = c.usable();
    let f = lemma_table_find(c, height, lo, hi, k, op);
    let s = c.descent(KeyModel::RowId(k), op).stack;
    let r = rows(pages, c.root_page, height, usable);
    let leaf = page_of(pages, s.last().page);
    let l = leaf_rows(pages, leaf, usable);
    let w = f.cell;
    let x = c.search(KeyModel::RowId(k), op);
    let d = c.walked(x).holding(x.found);
    table_rows_ascend(pages, c.root_page, height, lo, hi, usable);
    assert(r[f.front + w] == l[w]);
    assert(row_at(pages, leaf, w, usable) is Some);
    assert(row_at(pages, leaf, w, usable) == Some(l[w]));
    assert(j == f.front + w);
    lemma_leaf_ahead(pages, s, height, usable, w + 1);
    lemma_in_tree_index(pages, s, height, usable, w + 1);
    let a = ahead(pages, d.stack, height, usable);
    assert forall|i: int|
        0 <= i < leaf.cell_count() - 1 && #[trigger] row_at(pages, leaf, i, usable) == Some(
            r[j],
        ) implies j + 1 < r.len() && holds_row(d.stepped(), r, j + 1) by {
        assert(row_at(pages, leaf, i, usable).unwrap().rowid == l[w].rowid);
        assert(i == w);
        assert(a[0] == l[w + 1]);
        assert(r[f.front + (w + 1)] == l[w + 1]);
        lemma_step_ahead(d, height, r, j + 1);
    }
    if has_bounds(pages, d.stack, 0, k, op, usable) {
        let n = lemma_bounded_find(c, height, lo, hi, k, op, w + 1);
        assert(r[n + w] == l[w]);
        assert(n + w == j);
        if j + 1 < r.len() {
            assert(a[0] == r[j + 1]);
        }
        lemma_step_ahead(d, height, r, j + 1);
    }
}

/// Where a search in a table finds no row, the cursor holds none and has passed the
/// leaf on which the row would be. The rows ahead are then the last rows of
/// the table, and all of them lie behind `k`, unless the way went by the
/// right-most child of a page.
#[verifier::spinoff_prover]
#[verifier::rlimit(60)]
pub proof fn leaf_without_the_row_is_passed(
    c: CursorModel,
    height: nat,
    lo: int,
    hi: int,
    k: int,
    op: SeekOp,
)
    requires
        height <= 20,
        table(c.pages(), c.root_page, height, lo, hi, c.usable()),
        c.search(KeyModel::RowId(k), op).found is End,
    ensures
        ({
            let r = rows(c.pages(), c.root_page, height, c.usable());
            let x = c.search(KeyModel::RowId(k), op);
            let d = c.walked(x).holding(x.found);
            let a = ahead(c.pages(), d.stack, height, c.usable());
            &&& d.pager == c.pager
            &&& d.rowid is None
            &&& d.record is None
            &&& d.stack.len() == height + 1
            &&& a == ahead(c.pages(), d.stack.drop_last(), height, c.usable())
            &&& has_bounds(c.pages(), d.stack, 0, k, op, c.usable()) ==> {
                &&& a.len() <= r.len()
                &&& a == r.skip(r.len() - a.len())
                &&& forall|i: int| 0 <= i < a.len() ==> (#[trigger] a[i]).rowid > k
                &&& holds_row(d.stepped(), r, r.len() - a.len())
            }
        }),
{
    let pages = c.pages();
    let usable = c.usable();
    lemma_table_find(c, height, lo, hi, k, op);
    let s = c.descent(KeyModel::RowId(k), op).stack;
    let r = rows(pages, c.root_page, height, usable);
    let leaf = page_of(pages, s.last().page);
    let l = leaf_rows(pages, leaf, usable);
    let x = c.search(KeyModel::RowId(k), op);
    let d = c.walked(x).holding(x.found);
    lemma_leaf_ahead(pages, s, height, usable, leaf.cell_count());
    lemma_in_tree_index(pages, s, height, usable, leaf.cell_count());
    let a = ahead(pages, d.stack, height, usable);
    let up = ahead(pages, s.drop_last(), height, usable);
    assert(d.stack.drop_last() =~= s.drop_last());
    assert(l.skip(l.len() as int) + up =~= up);
    if has_bounds(pages, d.stack, 0, k, op, usable) {
        let n = lemma_bounded_find(c, height, lo, hi, k, op, leaf.cell_count());
        let m = n + leaf.cell_count();
        assert(m == r.len() - a.len());
        assert forall|i: int| 0 <= i < a.len() implies (#[trigger] a[i]).rowid > k by {
            assert(a[i] == r[m + i]);
        }
        lemma_step_ahead(d, height, r, m);
    }
}

/// Whether a row id is one that a search for `k` looks for.
pub open spec fn asks_for(rowid: int, k: int, op: SeekOp) -> bool {
    match op {
        SeekOp::EQ => rowid == k,
        SeekOp::GE => rowid >= k,
        SeekOp::GT => rowid > k,
    }
}

/// A search in a table looks at the rows of the leaf where its way ends and at no
/// others. It finds the first of them that is looked for, or the end if none is.
#[verifier::spinoff_prover]
#[verifier::rlimit(60)]
pub proof fn search_looks_at_one_leaf(
    c: CursorModel,
    height: nat,
    lo: int,
    hi: int,
    k: int,
    op: SeekOp,
)
    requires
        height <= 20,
        table(c.pages(), c.root_page, height, lo, hi, c.usable()),
    ensures
        ({
            let found = c.search(KeyModel::RowId(k), op).found;
            let s = c.descent(KeyModel::RowId(k), op).stack;
            let l = leaf_rows(c.pages(), page_of(c.pages(), s.last().page), c.usable());
            ||| found is End && forall|i: int|
                0 <= i < l.len() ==> !asks_for((#[trigger] l[i]).rowid, k, op)
            ||| exists|n: int|
                0 <= n < l.len() && asks_for((#[trigger] l[n]).rowid, k, op) && found == (
                Found::Entry { rowid: l[n].rowid, record: l[n].record }) && forall|i: int|
                    0 <= i < n ==> !asks_for((#[trigger] l[i]).rowid, k, op)
        }),
{
    let f = lemma_table_find(c, height, lo, hi, k, op);
    let s = c.descent(KeyModel::RowId(k), op).stack;
    let leaf = page_of(c.pages(), s.last().page);
    let l = leaf_rows(c.pages(), leaf, c.usable());
    lemma_search_table_leaf(c.pages(), leaf, f.lo, f.hi, k, op, c.usable(), 0);
    let w = first_wanted(l, k, op, 0);
    assert forall|i: int| 0 <= i < w implies !asks_for((#[trigger] l[i]).rowid, k, op) by {
        assert(!is_wanted(l[i], k, op));
    }
    if w < l.len() {
        assert(asks_for(l[w].rowid, k, op));
    }
}

} // verus!
