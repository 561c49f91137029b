//! The way of a search, page by page, and the last entry of an index.

use vstd::prelude::*;
use crate::cursor::{at_index, pushed, BTCURSOR_MAX_DEPTH, CursorModel, Frame};
use crate::descent::{descend, descend_right, root_stack, route, Route};
use crate::indexes::{
    entries, entry_at, frame_in_index, has_entry, in_index, index_tree, lemma_in_index_at,
    lemma_in_index_down, rest,
};
use crate::lookups::{entries_before, lemma_entries_split, lemma_leaf_len};
use crate::order::{int_order, lies_left, record_order, KeyModel, Relation, SeekOp};
use crate::pager::{page_of, PageState};
use crate::passages::lemma_leaf_skip;
use crate::positions::{has_bound, lemma_bound_left, lemma_table_step};
use crate::record::ValueModel;
use crate::scans::{frame_ok, in_tree, lemma_table_readable};
use crate::tables::{child_at, high, low, table};
use crate::walk::index_entry;

verus! {

// ---------------------------------------------------------------------------
// Tables
// ---------------------------------------------------------------------------

/// Whether the rows that a search for `k` looks for may go up to row id `a`.
pub open spec fn reaches(a: int, k: int, op: SeekOp) -> bool {
    if op == SeekOp::GT {
        a > k
    } else {
        a >= k
    }
}

/// Whether a frame stands behind the first cell whose row id a search for `k` may go
/// up to, and `child` is the child of that cell. If there is no such cell, the frame
/// stands behind the last cell, and `child` is the right-most child.
pub open spec fn stands_behind(
    pages: Map<usize, PageState>,
    f: Frame,
    child: usize,
    k: int,
    op: SeekOp,
    usable: int,
) -> bool {
    let page = page_of(pages, f.page);
    if has_bound(page, k, op, usable) {
        let n = f.index - 1;
        &&& 0 <= n < page.cell_count()
        &&& child == page.head(n, usable).unwrap().child
        &&& reaches(page.head(n, usable).unwrap().rowid, k, op)
        &&& forall|m: int|
            0 <= m < n ==> !reaches((#[trigger] page.head(m, usable)).unwrap().rowid, k, op)
    } else {
        f.index == page.cell_count() && child == page.rightmost()
    }
}

#[verifier::spinoff_prover]
proof fn lemma_stands_behind(
    pages: Map<usize, PageState>,
    id: usize,
    c: int,
    lo: int,
    hi: int,
    k: int,
    op: SeekOp,
    usable: int,
)
    requires
        crate::tables::table_node(page_of(pages, id), lo, hi, usable),
        0 <= c <= page_of(pages, id).cell_count(),
        ({
            let page = page_of(pages, id);
            &&& c < page.cell_count() ==> lies_left(
                int_order(crate::tables::separator(page, c, usable), k),
                op,
            )
            &&& c > 0 ==> !lies_left(
                int_order(crate::tables::separator(page, c - 1, usable), k),
                op,
            )
        }),
    ensures
        ({
            let page = page_of(pages, id);
            let at = if c < page.cell_count() {
                c + 1
            } else {
                page.cell_count()
            };
            stands_behind(
                pages,
                Frame { page: id, index: at as usize },
                child_at(page, c, usable),
                k,
                op,
                usable,
            )
        }),
{
    let page = page_of(pages, id);
    if c < page.cell_count() {
        assert(page.head(c, usable) is Some);
        crate::tables::lemma_interior_cell(pages, page, c, usable);
        assert(reaches(page.head(c, usable).unwrap().rowid, k, op));
        assert(has_bound(page, k, op, usable));
    } else if has_bound(page, k, op, usable) {
        lemma_bound_left(page, lo, hi, k, op, usable, c);
    }
    assert forall|m: int| 0 <= m < c implies !reaches(
        (#[trigger] page.head(m, usable)).unwrap().rowid,
        k,
        op,
    ) by {
        assert(page.head(m, usable) is Some);
        assert(page.head(c - 1, usable) is Some);
        if m < c - 1 {
            assert(page.head(m, usable).unwrap().rowid <= page.head(c - 1, usable).unwrap().rowid);
        }
    }
}

#[verifier::spinoff_prover]
#[verifier::rlimit(60)]
proof fn lemma_table_frames(
    pages: Map<usize, PageState>,
    stack: Seq<Frame>,
    height: nat,
    lo: int,
    hi: int,
    k: int,
    op: SeekOp,
    usable: int,
)
    requires
        height <= BTCURSOR_MAX_DEPTH,
        in_tree(pages, stack, height, usable),
        table(pages, stack.last().page, (height + 1 - stack.len()) as nat, lo, hi, usable),
        stack.last().index == 0,
    ensures
        ({
            let d = descend(pages, stack, KeyModel::RowId(k), op, usable);
            &&& d.end is Leaf
            &&& d.stack.len() == height + 1
            &&& forall|i: int| 0 <= i < stack.len() - 1 ==> d.stack[i] == #[trigger] stack[i]
            &&& d.stack[stack.len() - 1].page == stack.last().page
            &&& d.stack.last().index == 0
            &&& forall|i: int|
                stack.len() - 1 <= i < height ==> stands_behind(
                    pages,
                    #[trigger] d.stack[i],
                    d.stack[i + 1].page,
                    k,
                    op,
                    usable,
                )
        }),
    decreases height + 1 - stack.len(),
{
    let n = stack.len() as int;
    let h = (height + 1 - n) as nat;
    let id = stack.last().page;
    let page = page_of(pages, id);
    assert(frame_ok(pages, stack[n - 1], h, usable));
    if h > 0 {
        let c = lemma_table_step(pages, stack, height, lo, hi, k, op, usable);
        let at = if c < page.cell_count() {
            c + 1
        } else {
            page.cell_count()
        };
        let here = at_index(stack, at);
        let child = child_at(page, c, usable);
        let next = pushed(here, child as int);
        let l = low(page, c, lo, usable);
        let g = high(page, c, hi, usable);
        lemma_table_frames(pages, next, height, l, g, k, op, usable);
        lemma_stands_behind(pages, id, c, lo, hi, k, op, usable);
        let d = descend(pages, stack, KeyModel::RowId(k), op, usable);
        assert(next[n - 1] == here.last());
        assert(d.stack[n - 1] == next[n - 1]);
        assert(d.stack[n].page == child);
        assert forall|i: int| 0 <= i < n - 1 implies d.stack[i] == #[trigger] stack[i] by {
            assert(next[i] == stack[i]);
        }
        assert forall|i: int| n - 1 <= i < height implies stands_behind(
            pages,
            #[trigger] d.stack[i],
            d.stack[i + 1].page,
            k,
            op,
            usable,
        ) by {
            if i == n - 1 {
                assert(d.stack[i] == (Frame { page: id, index: at as usize }));
            }
        }
    }
}

/// The way of a search in a table: on each page it goes to the child of the first cell
/// whose row id the search may go up to, or to the right-most child if there is
/// none, and leaves the page behind that cell, or behind the last one. It ends at the first
/// cell of a leaf.
#[verifier::spinoff_prover]
#[verifier::rlimit(60)]
pub proof fn table_way_is_taken(
    c: CursorModel,
    height: nat,
    lo: int,
    hi: int,
    k: int,
    op: SeekOp,
    i: int,
)
    requires
        height <= 20,
        table(c.pages(), c.root_page, height, lo, hi, c.usable()),
        0 <= i < height,
    ensures
        ({
            let s = c.descent(KeyModel::RowId(k), op).stack;
            &&& s.len() == height + 1
            &&& s[0].page == c.root_page
            &&& stands_behind(c.pages(), s[i], s[i + 1].page, k, op, c.usable())
            &&& s[height as int].index == 0
        }),
{
    let stack = root_stack(c.root_page);
    assert(stack.last().page == c.root_page);
    lemma_table_readable(c.pages(), c.root_page, height, lo, hi, c.usable());
    assert(in_tree(c.pages(), stack, height, c.usable()));
    lemma_table_frames(c.pages(), stack, height, lo, hi, k, op, c.usable());
}

/// A search by row id does not change whether the cursor counts as coming from below.
pub proof fn row_searches_keep_direction(c: CursorModel, k: int, op: SeekOp)
    ensures
        c.search(KeyModel::RowId(k), op).walk.upwards == c.going_upwards,
{
}

// ---------------------------------------------------------------------------
// Indexes
// ---------------------------------------------------------------------------

/// Whether an entry that a search looks for may stand to the left of an entry that
/// stands so to the key.
pub open spec fn may_stand_left(r: Relation, op: SeekOp) -> bool {
    if op == SeekOp::GT {
        r == Relation::Greater
    } else {
        r == Relation::Greater || r == Relation::Equal
    }
}

/// Whether a frame stands at the first cell to the left of whose entry one that is looked
/// for may stand, and `child` is the child there. If there is no such cell, the frame
/// stands behind the last cell, and `child` is the right-most child.
pub open spec fn stands_at(
    pages: Map<usize, PageState>,
    f: Frame,
    child: usize,
    k: Seq<ValueModel>,
    op: SeekOp,
    usable: int,
) -> bool {
    let page = page_of(pages, f.page);
    let n = f.index as int;
    &&& 0 <= n <= page.cell_count()
    &&& child == child_at(page, n, usable)
    &&& n < page.cell_count() ==> may_stand_left(
        record_order(entry_at(pages, page, n, usable).unwrap(), k),
        op,
    )
    &&& forall|m: int|
        0 <= m < n ==> !may_stand_left(
            record_order((#[trigger] entry_at(pages, page, m, usable)).unwrap(), k),
            op,
        )
}

proof fn lemma_route_at(
    pages: Map<usize, PageState>,
    id: usize,
    height: nat,
    k: Seq<ValueModel>,
    op: SeekOp,
    usable: int,
    i: int,
) -> (c: int)
    requires
        height > 0,
        index_tree(pages, id, height, usable),
        0 <= i <= page_of(pages, id).cell_count(),
        forall|m: int|
            0 <= m < i ==> !may_stand_left(
                record_order(
                    (#[trigger] entry_at(pages, page_of(pages, id), m, usable)).unwrap(),
                    k,
                ),
                op,
            ),
    ensures
        ({
            let page = page_of(pages, id);
            &&& i <= c <= page.cell_count()
            &&& match route(pages, page, KeyModel::Index(k), op, usable, i) {
                Route::Left { index, child } => index == c && c < page.cell_count() && child
                    == page.head(c, usable).unwrap().child && 0 <= child <= u32::MAX,
                Route::Rightmost => c == page.cell_count(),
                _ => false,
            }
            &&& stands_at(
                pages,
                Frame { page: id, index: c as usize },
                child_at(page, c, usable),
                k,
                op,
                usable,
            )
        }),
    decreases page_of(pages, id).cell_count() - i,
{
    let page = page_of(pages, id);
    if i >= page.cell_count() {
        i
    } else {
        assert(has_entry(pages, page, i, usable));
        let e = entry_at(pages, page, i, usable).unwrap();
        if lies_left(record_order(e, k), op) {
            i
        } else {
            lemma_route_at(pages, id, height, k, op, usable, i + 1)
        }
    }
}

#[verifier::spinoff_prover]
#[verifier::rlimit(60)]
proof fn lemma_index_frames(
    pages: Map<usize, PageState>,
    stack: Seq<Frame>,
    height: nat,
    k: Seq<ValueModel>,
    op: SeekOp,
    usable: int,
)
    requires
        height <= BTCURSOR_MAX_DEPTH,
        in_index(pages, stack, height, usable),
        stack.last().index == 0,
    ensures
        ({
            let d = descend(pages, stack, KeyModel::Index(k), op, usable);
            &&& d.end is Leaf
            &&& d.stack.len() == height + 1
            &&& forall|i: int| 0 <= i < stack.len() - 1 ==> d.stack[i] == #[trigger] stack[i]
            &&& d.stack[stack.len() - 1].page == stack.last().page
            &&& d.stack.last().index == 0
            &&& forall|i: int|
                stack.len() - 1 <= i < height ==> stands_at(
                    pages,
                    #[trigger] d.stack[i],
                    d.stack[i + 1].page,
                    k,
                    op,
                    usable,
                )
        }),
    decreases height + 1 - stack.len(),
{
    let n = stack.len() as int;
    let h = (height + 1 - n) as nat;
    let id = stack.last().page;
    let page = page_of(pages, id);
    assert(frame_in_index(pages, stack[n - 1], h, usable));
    if h > 0 {
        let c = lemma_route_at(pages, id, h, k, op, usable, 0);
        let here = at_index(stack, c);
        let child = child_at(page, c, usable);
        let next = pushed(here, child as int);
        lemma_in_index_at(pages, stack, height, usable, c);
        lemma_in_index_down(pages, here, height, usable, c);
        let d = descend(pages, stack, KeyModel::Index(k), op, usable);
        assert(d == descend(pages, next, KeyModel::Index(k), op, usable));
        lemma_index_frames(pages, next, height, k, op, usable);
        assert(next[n - 1] == here.last());
        assert(d.stack[n - 1] == next[n - 1]);
        assert(d.stack[n].page == child);
        assert forall|i: int| 0 <= i < n - 1 implies d.stack[i] == #[trigger] stack[i] by {
            assert(next[i] == stack[i]);
        }
        assert forall|i: int| n - 1 <= i < height implies stands_at(
            pages,
            #[trigger] d.stack[i],
            d.stack[i + 1].page,
            k,
            op,
            usable,
        ) by {
            if i == n - 1 {
                assert(d.stack[i] == (Frame { page: id, index: c as usize }));
            }
        }
    }
}

/// The way of a search in an index: on each page it goes to the child at the first cell to
/// the left of whose entry one that is looked for may stand, or to the right-most
/// child if there is none, and leaves the page at that cell, or behind the last one. It
/// ends at the first cell of a leaf.
#[verifier::spinoff_prover]
#[verifier::rlimit(60)]
pub proof fn index_way_is_taken(
    c: CursorModel,
    height: nat,
    k: Seq<ValueModel>,
    op: SeekOp,
    i: int,
)
    requires
        height <= 20,
        index_tree(c.pages(), c.root_page, height, c.usable()),
        0 <= i < height,
    ensures
        ({
            let s = c.descent(KeyModel::Index(k), op).stack;
            &&& s.len() == height + 1
            &&& s[0].page == c.root_page
            &&& stands_at(c.pages(), s[i], s[i + 1].page, k, op, c.usable())
            &&& s[height as int].index == 0
        }),
{
    let stack = root_stack(c.root_page);
    assert(stack.last().page == c.root_page);
    assert(in_index(c.pages(), stack, height, c.usable()));
    lemma_index_frames(c.pages(), stack, height, k, op, c.usable());
    let s = c.descent(KeyModel::Index(k), op).stack;
    assert(s == descend(c.pages(), stack, KeyModel::Index(k), op, c.usable()).stack);
    assert(stands_at(c.pages(), s[i], s[i + 1].page, k, op, c.usable()));
}

/// The way to the right-most leaf of an index's tree ends on a leaf with the
/// last of the entries, at its last cell.
#[verifier::spinoff_prover]
#[verifier::rlimit(60)]
proof fn lemma_right_leaf(
    pages: Map<usize, PageState>,
    stack: Seq<Frame>,
    height: nat,
    usable: int,
) -> (before: Seq<Seq<ValueModel>>)
    requires
        height <= BTCURSOR_MAX_DEPTH,
        in_index(pages, stack, height, usable),
    ensures
        ({
            let d = descend_right(pages, stack);
            let id = d.stack.last().page;
            let leaf = page_of(pages, id);
            let h = (height + 1 - stack.len()) as nat;
            &&& d.end is Leaf
            &&& d.stack.len() == height + 1
            &&& in_index(pages, d.stack, height, usable)
            &&& leaf.cell_count() > 0 ==> d.stack.last().index == leaf.cell_count() - 1
            &&& entries(pages, stack.last().page, h, usable) == before + entries(
                pages,
                id,
                0,
                usable,
            )
        }),
    decreases height + 1 - stack.len(),
{
    let n = stack.len();
    let h = (height + 1 - n) as nat;
    let id = stack.last().page;
    let page = page_of(pages, id);
    assert(frame_in_index(pages, stack[n - 1], h, usable));
    let all = entries(pages, id, h, usable);
    if h == 0 {
        if page.cell_count() > 0 {
            lemma_in_index_at(pages, stack, height, usable, page.cell_count() - 1);
        }
        assert(Seq::<Seq<ValueModel>>::empty() + all =~= all);
        Seq::empty()
    } else {
        let count = page.cell_count();
        let child = child_at(page, count, usable);
        let left = at_index(stack, count);
        let next = pushed(left, child as int);
        lemma_in_index_at(pages, stack, height, usable, count);
        lemma_in_index_down(pages, left, height, usable, count);
        assert(descend_right(pages, stack) == descend_right(pages, next));
        let y = lemma_right_leaf(pages, next, height, usable);
        lemma_entries_split(pages, id, h, count as nat, usable);
        let front = entries_before(pages, id, h, count as nat, usable);
        let leaf = entries(pages, descend_right(pages, stack).stack.last().page, 0, usable);
        assert(rest(pages, id, h, count as nat, false, usable) == entries(
            pages,
            child,
            (h - 1) as nat,
            usable,
        ));
        assert(front + (y + leaf) =~= (front + y) + leaf);
        front + y
    }
}

/// Going to the last entry of an index whose tree is in memory and whose
/// right-most leaf has entries finds the last of its entries.
#[verifier::spinoff_prover]
#[verifier::rlimit(60)]
pub proof fn last_entry_is_found(c: CursorModel, height: nat)
    requires
        height <= 20,
        index_tree(c.pages(), c.root_page, height, c.usable()),
        page_of(c.pages(), c.right_edge().stack.last().page).cell_count() > 0,
    ensures
        ({
            let e = entries(c.pages(), c.root_page, height, c.usable());
            &&& c.right_edge().end is Leaf
            &&& e.len() > 0
            &&& c.at_last().following(None).found == index_entry(e[e.len() - 1])
        }),
{
    let pages = c.pages();
    let usable = c.usable();
    let stack = root_stack(c.root_page);
    assert(stack.last().page == c.root_page);
    assert(in_index(pages, stack, height, usable));
    lemma_right_leaf(pages, stack, height, usable);
    let s = c.right_edge().stack;
    let id = s.last().page;
    let page = page_of(pages, id);
    let n = page.cell_count() - 1;
    assert(frame_in_index(pages, s[height as int], 0, usable));
    assert(has_entry(pages, page, n, usable));
    lemma_leaf_len(pages, id, usable, 0);
    lemma_leaf_skip(pages, id, n as nat, usable);
    let l = entries(pages, id, 0, usable);
    assert(l.skip(n)[0] == entry_at(pages, page, n, usable).unwrap());
    assert(l[n] == entry_at(pages, page, n, usable).unwrap());
}

} // verus!
