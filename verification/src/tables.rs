//! The rows of a table as its tree holds them, and what searching for one gives.

use vstd::prelude::*;
use crate::access::Lookup;
use crate::balance::first_at_least;
use crate::cell::{cell_at, CellModel, Fetch};
use crate::cursor::{at_index, pushed, BTCURSOR_MAX_DEPTH, CursorModel, Frame};
use crate::descent::{descend, root_stack, route, Route};
use crate::order::{int_order, lies_left, satisfies, KeyModel, SeekOp};
use crate::page::{PageModel, PageType};
use crate::pager::{loaded, page_of, PageState};
use crate::record::{parse_record, ValueModel};
use crate::walk::{search_leaf, Found, Hit};

verus! {

/// A row of a table.
#[verifier::ext_equal]
pub struct Row {
    pub rowid: int,
    pub record: Seq<ValueModel>,
}

/// The row in cell `i` of a leaf; `None` if there is none to be read.
pub open spec fn row_at(
    pages: Map<usize, PageState>,
    page: PageModel,
    i: int,
    usable: int,
) -> Option<Row> {
    match cell_at(pages, page, i, usable) {
        Fetch::Ready(CellModel::TableLeaf { rowid, payload }) => match parse_record(payload) {
            Some(record) => Some(Row { rowid, record }),
            None => None,
        },
        _ => None,
    }
}

/// Child `i` of an interior page: the one left of cell `i`, or the right-most.
pub open spec fn child_at(page: PageModel, i: int, usable: int) -> usize {
    if i < page.cell_count() {
        page.head(i, usable).unwrap().child as usize
    } else {
        page.rightmost() as usize
    }
}

/// The row id in cell `i` of an interior page.
pub open spec fn separator(page: PageModel, i: int, usable: int) -> int {
    page.head(i, usable).unwrap().rowid
}

/// The bound below the rows of child `i`, on a page whose rows are above `lo`.
pub open spec fn low(page: PageModel, i: int, lo: int, usable: int) -> int {
    if i == 0 {
        lo
    } else {
        separator(page, i - 1, usable)
    }
}

/// The greatest row id of child `i`, on a page whose rows go up to `hi`.
pub open spec fn high(page: PageModel, i: int, hi: int, usable: int) -> int {
    if i < page.cell_count() {
        separator(page, i, usable)
    } else {
        hi
    }
}

/// A leaf whose rows have ascending row ids above `lo` and up to `hi`.
pub open spec fn table_leaf(
    pages: Map<usize, PageState>,
    page: PageModel,
    lo: int,
    hi: int,
    usable: int,
) -> bool {
    &&& page.page_type() == Some(PageType::TableLeaf)
    &&& forall|i: int|
        0 <= i < page.cell_count() ==> {
            &&& (#[trigger] row_at(pages, page, i, usable)) is Some
            &&& lo < row_at(pages, page, i, usable).unwrap().rowid <= hi
        }
    &&& forall|i: int, j: int|
        0 <= i < j < page.cell_count() ==> (#[trigger] row_at(
            pages,
            page,
            i,
            usable,
        )).unwrap().rowid < (#[trigger] row_at(pages, page, j, usable)).unwrap().rowid
}

/// An interior page whose cells are in order between `lo` and `hi`.
pub open spec fn table_node(page: PageModel, lo: int, hi: int, usable: int) -> bool {
    &&& page.page_type() == Some(PageType::TableInterior)
    &&& lo <= hi
    &&& forall|i: int|
        0 <= i < page.cell_count() ==> {
            &&& (#[trigger] page.head(i, usable)) is Some
            &&& lo <= separator(page, i, usable) <= hi
        }
    &&& forall|i: int, j: int|
        0 <= i < j < page.cell_count() ==> (#[trigger] page.head(i, usable)).unwrap().rowid <= (
        #[trigger] page.head(j, usable)).unwrap().rowid
}

/// Whether page `id` is the root of a table's tree, all of it in memory, with
/// `height` levels of interior pages and with row ids above `lo` and up to `hi`.
pub open spec fn table(
    pages: Map<usize, PageState>,
    id: usize,
    height: nat,
    lo: int,
    hi: int,
    usable: int,
) -> bool
    decreases height,
{
    let page = page_of(pages, id);
    &&& loaded(pages, id)
    &&& if height == 0 {
        table_leaf(pages, page, lo, hi, usable)
    } else {
        &&& table_node(page, lo, hi, usable)
        &&& forall|i: int|
            0 <= i <= page.cell_count() ==> table(
                pages,
                #[trigger] child_at(page, i, usable),
                (height - 1) as nat,
                low(page, i, lo, usable),
                high(page, i, hi, usable),
                usable,
            )
    }
}

/// The rows on a leaf.
pub open spec fn leaf_rows(pages: Map<usize, PageState>, page: PageModel, usable: int) -> Seq<Row> {
    Seq::new(page.cell_count() as nat, |i: int| row_at(pages, page, i, usable).unwrap())
}

/// The rows of a table's tree, in the order of the tree.
pub open spec fn rows(pages: Map<usize, PageState>, id: usize, height: nat, usable: int) -> Seq<Row>
    decreases height, 65537int,
{
    let page = page_of(pages, id);
    if height == 0 {
        leaf_rows(pages, page, usable)
    } else {
        rows_from(pages, page, height, 0, usable)
    }
}

/// The rows of the children of an interior page from child `i` on.
pub open spec fn rows_from(
    pages: Map<usize, PageState>,
    page: PageModel,
    height: nat,
    i: nat,
    usable: int,
) -> Seq<Row>
    decreases height, page.cell_count() + 1 - i,
{
    if i > page.cell_count() || height == 0 {
        Seq::empty()
    } else {
        rows(pages, child_at(page, i as int, usable), (height - 1) as nat, usable) + rows_from(
            pages,
            page,
            height,
            i + 1,
            usable,
        )
    }
}

// ---------------------------------------------------------------------------
// Searching
// ---------------------------------------------------------------------------

/// Whether a row is one that a search looks for.
pub open spec fn is_wanted(row: Row, k: int, op: SeekOp) -> bool {
    satisfies(int_order(row.rowid, k), op)
}

/// The rows of the children before child `i`.
pub open spec fn rows_before(
    pages: Map<usize, PageState>,
    page: PageModel,
    height: nat,
    i: nat,
    usable: int,
) -> Seq<Row>
    decreases i,
{
    if i == 0 || height == 0 {
        Seq::empty()
    } else {
        rows_before(pages, page, height, (i - 1) as nat, usable) + rows(
            pages,
            child_at(page, i - 1, usable),
            (height - 1) as nat,
            usable,
        )
    }
}

/// The rows of an interior page are those before a child and those from it on.
pub proof fn lemma_rows_split(
    pages: Map<usize, PageState>,
    page: PageModel,
    height: nat,
    i: nat,
    usable: int,
)
    requires
        height > 0,
        i <= page.cell_count() + 1,
    ensures
        rows_from(pages, page, height, 0, usable) == rows_before(pages, page, height, i, usable)
            + rows_from(pages, page, height, i, usable),
    decreases i,
{
    if i == 0 {
        assert(rows_from(pages, page, height, 0, usable) =~= Seq::<Row>::empty() + rows_from(
            pages,
            page,
            height,
            0,
            usable,
        ));
    } else {
        let j = (i - 1) as nat;
        lemma_rows_split(pages, page, height, j, usable);
        let mid = rows(pages, child_at(page, j as int, usable), (height - 1) as nat, usable);
        assert(rows_from(pages, page, height, j, usable) == mid + rows_from(
            pages,
            page,
            height,
            i,
            usable,
        ));
        assert(rows_before(pages, page, height, j, usable) + (mid + rows_from(
            pages,
            page,
            height,
            i,
            usable,
        )) =~= rows_before(pages, page, height, j, usable) + mid + rows_from(
            pages,
            page,
            height,
            i,
            usable,
        ));
    }
}

/// Whether the row ids ascend strictly and lie above `lo` and up to `hi`.
pub open spec fn ascending(r: Seq<Row>, lo: int, hi: int) -> bool {
    &&& forall|i: int| 0 <= i < r.len() ==> lo < (#[trigger] r[i]).rowid <= hi
    &&& forall|i: int, j: int|
        0 <= i < j < r.len() ==> (#[trigger] r[i]).rowid < (#[trigger] r[j]).rowid
}

proof fn lemma_ascending_join(a: Seq<Row>, b: Seq<Row>, lo: int, mid: int, hi: int)
    requires
        lo <= mid <= hi,
        ascending(a, lo, mid),
        ascending(b, mid, hi),
    ensures
        ascending(a + b, lo, hi),
{
    let c = a + b;
    assert forall|i: int| 0 <= i < c.len() implies lo < (#[trigger] c[i]).rowid <= hi by {
        if i < a.len() {
            assert(c[i] == a[i]);
        } else {
            assert(c[i] == b[i - a.len()]);
        }
    }
    assert forall|i: int, j: int| 0 <= i < j < c.len() implies (#[trigger] c[i]).rowid < (
    #[trigger] c[j]).rowid by {
        if j < a.len() {
            assert(c[i] == a[i] && c[j] == a[j]);
        } else if i < a.len() {
            assert(c[i] == a[i] && c[j] == b[j - a.len()]);
        } else {
            assert(c[i] == b[i - a.len()] && c[j] == b[j - a.len()]);
        }
    }
}

/// The rows of a table have strictly ascending row ids within the bounds.
pub proof fn table_rows_ascend(
    pages: Map<usize, PageState>,
    id: usize,
    height: nat,
    lo: int,
    hi: int,
    usable: int,
)
    requires
        table(pages, id, height, lo, hi, usable),
    ensures
        ascending(rows(pages, id, height, usable), lo, hi),
    decreases height, 65537int,
{
    let page = page_of(pages, id);
    if height == 0 {
        let r = leaf_rows(pages, page, usable);
        assert forall|i: int| 0 <= i < r.len() implies lo < (#[trigger] r[i]).rowid <= hi by {
            assert(row_at(pages, page, i, usable) is Some);
        }
    } else {
        lemma_rows_from_ascend(pages, page, height, 0, lo, hi, usable);
    }
}

/// Child `i` of an interior page of a table is a table.
pub open spec fn children_ok(
    pages: Map<usize, PageState>,
    page: PageModel,
    height: nat,
    lo: int,
    hi: int,
    usable: int,
) -> bool {
    &&& table_node(page, lo, hi, usable)
    &&& forall|i: int|
        0 <= i <= page.cell_count() ==> table(
            pages,
            #[trigger] child_at(page, i, usable),
            (height - 1) as nat,
            low(page, i, lo, usable),
            high(page, i, hi, usable),
            usable,
        )
}

pub proof fn lemma_rows_from_ascend(
    pages: Map<usize, PageState>,
    page: PageModel,
    height: nat,
    i: nat,
    lo: int,
    hi: int,
    usable: int,
)
    requires
        height > 0,
        i <= page.cell_count() + 1,
        children_ok(pages, page, height, lo, hi, usable),
    ensures
        i <= page.cell_count() ==> ascending(
            rows_from(pages, page, height, i, usable),
            low(page, i as int, lo, usable),
            hi,
        ),
    decreases height, page.cell_count() + 1 - i,
{
    if i <= page.cell_count() {
        let c = child_at(page, i as int, usable);
        let a = rows(pages, c, (height - 1) as nat, usable);
        let b = rows_from(pages, page, height, i + 1, usable);
        table_rows_ascend(
            pages,
            c,
            (height - 1) as nat,
            low(page, i as int, lo, usable),
            high(page, i as int, hi, usable),
            usable,
        );
        lemma_rows_from_ascend(pages, page, height, i + 1, lo, hi, usable);
        if i < page.cell_count() {
            assert(page.head(i as int, usable) is Some);
            if i > 0 {
                assert(page.head(i - 1, usable) is Some);
            }
            lemma_ascending_join(
                a,
                b,
                low(page, i as int, lo, usable),
                separator(page, i as int, usable),
                hi,
            );
        } else {
            assert(a + b =~= a);
        }
    }
}

proof fn lemma_rows_before_ascend(
    pages: Map<usize, PageState>,
    page: PageModel,
    height: nat,
    i: nat,
    lo: int,
    hi: int,
    usable: int,
)
    requires
        height > 0,
        i <= page.cell_count(),
        children_ok(pages, page, height, lo, hi, usable),
    ensures
        ascending(
            rows_before(pages, page, height, i, usable),
            lo,
            low(page, i as int, lo, usable),
        ),
    decreases i,
{
    if i > 0 {
        let j = (i - 1) as nat;
        let c = child_at(page, j as int, usable);
        lemma_rows_before_ascend(pages, page, height, j, lo, hi, usable);
        table_rows_ascend(
            pages,
            c,
            (height - 1) as nat,
            low(page, j as int, lo, usable),
            high(page, j as int, hi, usable),
            usable,
        );
        assert(page.head(j as int, usable) is Some);
        if j > 0 {
            assert(page.head(j - 1, usable) is Some);
        }
        lemma_ascending_join(
            rows_before(pages, page, height, j, usable),
            rows(pages, c, (height - 1) as nat, usable),
            lo,
            low(page, j as int, lo, usable),
            separator(page, j as int, usable),
        );
    }
}

/// Where a search for row id `k` goes from an interior page of a table: to the
/// first child up to whose greatest row id the rows that it looks for go.
pub proof fn lemma_table_route(
    pages: Map<usize, PageState>,
    page: PageModel,
    k: int,
    op: SeekOp,
    lo: int,
    hi: int,
    usable: int,
    i: int,
) -> (c: int)
    requires
        table_node(page, lo, hi, usable),
        0 <= i <= page.cell_count(),
        forall|j: int|
            0 <= j < i ==> !lies_left(
                int_order((#[trigger] page.head(j, usable)).unwrap().rowid, k),
                op,
            ),
    ensures
        i <= c <= page.cell_count(),
        match route(pages, page, KeyModel::RowId(k), op, usable, i) {
            Route::Left { index, child } => index == c + 1 && c < page.cell_count() && child
                == page.head(c, usable).unwrap().child,
            Route::Rightmost => c == page.cell_count(),
            _ => false,
        },
        c < page.cell_count() ==> lies_left(int_order(separator(page, c, usable), k), op),
        c > 0 ==> !lies_left(int_order(separator(page, c - 1, usable), k), op),
    decreases page.cell_count() - i,
{
    if i >= page.cell_count() {
        if i > 0 {
            assert(page.head(i - 1, usable) is Some);
        }
        i
    } else {
        assert(page.head(i, usable) is Some);
        let h = page.head(i, usable).unwrap();
        lemma_interior_cell(pages, page, i, usable);
        if lies_left(int_order(h.rowid, k), op) {
            if i > 0 {
                assert(page.head(i - 1, usable) is Some);
            }
            i
        } else {
            lemma_table_route(pages, page, k, op, lo, hi, usable, i + 1)
        }
    }
}

/// A cell of a table's interior page needs no other page.
pub proof fn lemma_interior_cell(
    pages: Map<usize, PageState>,
    page: PageModel,
    i: int,
    usable: int,
)
    requires
        page.page_type() == Some(PageType::TableInterior),
        page.head(i, usable) is Some,
    ensures
        cell_at(pages, page, i, usable) == Fetch::Ready(
            CellModel::TableInterior {
                child: page.head(i, usable).unwrap().child,
                rowid: page.head(i, usable).unwrap().rowid,
            },
        ),
        0 <= page.head(i, usable).unwrap().child <= u32::MAX,
{
}

/// A way down a table's tree and the rows beside the leaf where it lands.
pub struct Landed {
    pub before: Seq<Row>,
    pub leaf: PageModel,
    pub after: Seq<Row>,
    pub lo: int,
    pub hi: int,
}

/// The way down a table's tree lands on the leaf beside which no row is one
/// that is looked for, but for rows behind it.
#[verifier::spinoff_prover]
#[verifier::rlimit(30)]
pub proof fn lemma_table_descend(
    pages: Map<usize, PageState>,
    stack: Seq<Frame>,
    height: nat,
    lo: int,
    hi: int,
    k: int,
    op: SeekOp,
    usable: int,
) -> (x: Landed)
    requires
        stack.len() > 0,
        stack.len() + height <= BTCURSOR_MAX_DEPTH + 1,
        table(pages, stack.last().page, height, lo, hi, usable),
    ensures
        ({
            let d = descend(pages, stack, KeyModel::RowId(k), op, usable);
            let id = d.stack.last().page;
            &&& d.end is Leaf
            &&& d.stack.len() == stack.len() + height
            &&& loaded(pages, id)
            &&& x.leaf == page_of(pages, id)
            &&& table_leaf(pages, x.leaf, x.lo, x.hi, usable)
            &&& lo <= x.lo && x.hi <= hi
            &&& rows(pages, stack.last().page, height, usable) == x.before + leaf_rows(
                pages,
                x.leaf,
                usable,
            ) + x.after
            &&& forall|i: int|
                0 <= i < x.before.len() ==> !lies_left(
                    int_order((#[trigger] x.before[i]).rowid, k),
                    op,
                )
            &&& forall|i: int| 0 <= i < x.after.len() ==> (#[trigger] x.after[i]).rowid > k
            &&& exact(pages, stack.last().page, height, usable) && x.after.len() > 0
                ==> last_lies_left(leaf_rows(pages, x.leaf, usable), k, op)
        }),
    decreases height,
{
    let key = KeyModel::RowId(k);
    let id = stack.last().page;
    let page = page_of(pages, id);
    let d = descend(pages, stack, key, op, usable);
    let all = rows(pages, id, height, usable);
    if height == 0 {
        assert(all =~= Seq::<Row>::empty() + leaf_rows(pages, page, usable) + Seq::<
            Row,
        >::empty());
        Landed { before: Seq::empty(), leaf: page, after: Seq::empty(), lo, hi }
    } else {
        let c = lemma_table_route(pages, page, k, op, lo, hi, usable, 0);
        let child = child_at(page, c, usable);
        let next = pushed(
            at_index(
                stack,
                if c < page.cell_count() {
                    c + 1
                } else {
                    page.cell_count()
                },
            ),
            child as int,
        );
        if c < page.cell_count() {
            assert(page.head(c, usable) is Some);
            lemma_interior_cell(pages, page, c, usable);
        }
        assert(next.last().page == child);
        assert(d == descend(pages, next, key, op, usable));
        let l = low(page, c, lo, usable);
        let h = high(page, c, hi, usable);
        let y = lemma_table_descend(pages, next, (height - 1) as nat, l, h, k, op, usable);
        let front = rows_before(pages, page, height, c as nat, usable);
        let back = rows_from(pages, page, height, (c + 1) as nat, usable);
        let mid = rows(pages, child, (height - 1) as nat, usable);
        lemma_rows_split(pages, page, height, c as nat, usable);
        let x = Landed {
            before: front + y.before,
            leaf: y.leaf,
            after: y.after + back,
            lo: y.lo,
            hi: y.hi,
        };
        assert(all == front + (mid + back));
        lemma_rows_beside(front, y.before, leaf_rows(pages, y.leaf, usable), y.after, back);
        lemma_rows_before_ascend(pages, page, height, c as nat, lo, hi, usable);
        lemma_rows_from_ascend(pages, page, height, (c + 1) as nat, lo, hi, usable);
        if c > 0 {
            assert(page.head(c - 1, usable) is Some);
        }
        assert forall|i: int| 0 <= i < front.len() implies !lies_left(
            int_order((#[trigger] front[i]).rowid, k),
            op,
        ) by {}
        lemma_none_left(front, y.before, k, op);
        assert forall|i: int| 0 <= i < back.len() implies (#[trigger] back[i]).rowid > k by {}
        lemma_all_behind(y.after, back, k);
        if exact(pages, id, height, usable) && x.after.len() > 0 {
            assert(exact(pages, child, (height - 1) as nat, usable));
            if y.after.len() == 0 {
                assert(c < page.cell_count());
                assert(mid.last().rowid == separator(page, c, usable));
                lemma_last_on_leaf(y.before, leaf_rows(pages, y.leaf, usable), y.after, k, op);
            }
        }
        x
    }
}

/// Whether every row id in an interior page of a table's tree is that of a row:
/// of the last one below the child in front of it.
pub open spec fn exact(
    pages: Map<usize, PageState>,
    id: usize,
    height: nat,
    usable: int,
) -> bool
    decreases height,
{
    let page = page_of(pages, id);
    height > 0 ==> forall|i: int|
        0 <= i <= page.cell_count() ==> {
            let child = #[trigger] child_at(page, i, usable);
            let r = rows(pages, child, (height - 1) as nat, usable);
            &&& exact(pages, child, (height - 1) as nat, usable)
            &&& i < page.cell_count() ==> r.len() > 0 && r.last().rowid == separator(
                page,
                i,
                usable,
            )
        }
}

/// Whether there are rows, and a search for `k` goes as far as the last of them.
pub open spec fn last_lies_left(r: Seq<Row>, k: int, op: SeekOp) -> bool {
    r.len() > 0 && lies_left(int_order(r.last().rowid, k), op)
}

/// Where a search goes as far as the last row, and no row before the leaf lies on
/// the way, the last row is on the leaf.
proof fn lemma_last_on_leaf(
    before: Seq<Row>,
    leaf: Seq<Row>,
    after: Seq<Row>,
    k: int,
    op: SeekOp,
)
    requires
        after.len() == 0,
        last_lies_left(before + leaf + after, k, op),
        forall|i: int|
            0 <= i < before.len() ==> !lies_left(int_order((#[trigger] before[i]).rowid, k), op),
    ensures
        last_lies_left(leaf, k, op),
{
    let mid = before + leaf + after;
    if leaf.len() == 0 {
        assert(mid =~= before);
        assert(!lies_left(int_order(before[before.len() - 1].rowid, k), op));
    } else {
        assert(mid.last() == leaf.last());
    }
}

/// Rows put together in two ways.
proof fn lemma_rows_beside(a: Seq<Row>, b: Seq<Row>, c: Seq<Row>, d: Seq<Row>, e: Seq<Row>)
    ensures
        a + (b + c + d + e) == a + b + c + (d + e),
{
    assert(a + (b + c + d + e) =~= a + b + c + (d + e));
}

/// Rows of which none lies on the way to the left, put together.
proof fn lemma_none_left(a: Seq<Row>, b: Seq<Row>, k: int, op: SeekOp)
    requires
        forall|i: int|
            0 <= i < a.len() ==> !lies_left(int_order((#[trigger] a[i]).rowid, k), op),
        forall|i: int|
            0 <= i < b.len() ==> !lies_left(int_order((#[trigger] b[i]).rowid, k), op),
    ensures
        forall|i: int|
            0 <= i < (a + b).len() ==> !lies_left(int_order((#[trigger] (a + b)[i]).rowid, k), op),
{
    assert forall|i: int| 0 <= i < (a + b).len() implies !lies_left(
        int_order((#[trigger] (a + b)[i]).rowid, k),
        op,
    ) by {
        if i < a.len() {
            assert((a + b)[i] == a[i]);
        } else {
            assert((a + b)[i] == b[i - a.len()]);
        }
    }
}

/// Rows behind a row id, put together.
proof fn lemma_all_behind(a: Seq<Row>, b: Seq<Row>, k: int)
    requires
        forall|i: int| 0 <= i < a.len() ==> (#[trigger] a[i]).rowid > k,
        forall|i: int| 0 <= i < b.len() ==> (#[trigger] b[i]).rowid > k,
    ensures
        forall|i: int| 0 <= i < (a + b).len() ==> (#[trigger] (a + b)[i]).rowid > k,
{
    assert forall|i: int| 0 <= i < (a + b).len() implies (#[trigger] (a + b)[i]).rowid > k by {
        if i < a.len() {
            assert((a + b)[i] == a[i]);
        } else {
            assert((a + b)[i] == b[i - a.len()]);
        }
    }
}

/// The first row from `i` on that is looked for, or the number of rows.
pub open spec fn first_wanted(r: Seq<Row>, k: int, op: SeekOp, i: int) -> int
    decreases r.len() - i,
{
    if i < 0 || i >= r.len() {
        i
    } else if is_wanted(r[i], k, op) {
        i
    } else {
        first_wanted(r, k, op, i + 1)
    }
}

/// Searching a table's leaf finds its first row that is looked for.
pub proof fn lemma_search_table_leaf(
    pages: Map<usize, PageState>,
    page: PageModel,
    lo: int,
    hi: int,
    k: int,
    op: SeekOp,
    usable: int,
    i: int,
)
    requires
        table_leaf(pages, page, lo, hi, usable),
        0 <= i <= page.cell_count(),
    ensures
        ({
            let r = leaf_rows(pages, page, usable);
            let w = first_wanted(r, k, op, i);
            &&& i <= w <= r.len()
            &&& forall|j: int| i <= j < w ==> !is_wanted(#[trigger] r[j], k, op)
            &&& w < r.len() ==> is_wanted(r[w], k, op)
            &&& search_leaf(pages, page, KeyModel::RowId(k), op, usable, i) == (if w < r.len() {
                Hit::At {
                    index: w + 1,
                    found: Found::Entry { rowid: r[w].rowid, record: r[w].record },
                }
            } else {
                Hit::Nowhere
            })
        }),
    decreases page.cell_count() - i,
{
    let r = leaf_rows(pages, page, usable);
    if i < page.cell_count() {
        assert(row_at(pages, page, i, usable) is Some);
        assert(r[i] == row_at(pages, page, i, usable).unwrap());
        if !is_wanted(r[i], k, op) {
            lemma_search_table_leaf(pages, page, lo, hi, k, op, usable, i + 1);
        }
    }
}

/// Searching a table whose tree is in memory gives an entry or the end.
/// If it gives an entry, this is the first row of the table that is looked
/// for. If the table has the row that is looked for by its row id, the search
/// gives it; if no row is looked for, it gives the end.
pub proof fn table_search(
    c: CursorModel,
    height: nat,
    lo: int,
    hi: int,
    k: int,
    op: SeekOp,
)
    requires
        height <= BTCURSOR_MAX_DEPTH,
        table(c.pages(), c.root_page, height, lo, hi, c.usable()),
    ensures
        answers(
            rows(c.pages(), c.root_page, height, c.usable()),
            k,
            op,
            c.search(KeyModel::RowId(k), op).found,
        ),
{
    let pages = c.pages();
    let usable = c.usable();
    let stack = root_stack(c.root_page);
    assert(stack.last().page == c.root_page);
    let x = lemma_table_descend(pages, stack, height, lo, hi, k, op, usable);
    let l = leaf_rows(pages, x.leaf, usable);
    lemma_search_table_leaf(pages, x.leaf, x.lo, x.hi, k, op, usable, 0);
    table_rows_ascend(pages, c.root_page, height, lo, hi, usable);
    lemma_answers(
        rows(pages, c.root_page, height, usable),
        x.before,
        l,
        x.after,
        lo,
        hi,
        k,
        op,
    );
}

/// Searching a table, whose interior pages have no row ids but those of rows,
/// for a row id or the next behind it gives the first of all rows that is looked
/// for, or the end if none is.
pub proof fn exact_table_search(
    c: CursorModel,
    height: nat,
    lo: int,
    hi: int,
    k: int,
    op: SeekOp,
)
    requires
        height <= BTCURSOR_MAX_DEPTH,
        table(c.pages(), c.root_page, height, lo, hi, c.usable()),
        exact(c.pages(), c.root_page, height, c.usable()),
        op == SeekOp::GE || op == SeekOp::GT,
    ensures
        ({
            let r = rows(c.pages(), c.root_page, height, c.usable());
            let w = first_wanted(r, k, op, 0);
            &&& 0 <= w <= r.len()
            &&& c.search(KeyModel::RowId(k), op).found == if w < r.len() {
                Found::Entry { rowid: r[w].rowid, record: r[w].record }
            } else {
                Found::End
            }
        }),
{
    let pages = c.pages();
    let usable = c.usable();
    let stack = root_stack(c.root_page);
    assert(stack.last().page == c.root_page);
    let x = lemma_table_descend(pages, stack, height, lo, hi, k, op, usable);
    let l = leaf_rows(pages, x.leaf, usable);
    lemma_search_table_leaf(pages, x.leaf, x.lo, x.hi, k, op, usable, 0);
    lemma_first_of_all(x.before, l, x.after, k, op);
}

/// The first row that is looked for, where none of those in front is one, and
/// the last of those in the middle is one if there are any behind them.
proof fn lemma_first_of_all(
    before: Seq<Row>,
    l: Seq<Row>,
    after: Seq<Row>,
    k: int,
    op: SeekOp,
)
    requires
        op == SeekOp::GE || op == SeekOp::GT,
        forall|i: int|
            0 <= i < before.len() ==> !lies_left(
                int_order((#[trigger] before[i]).rowid, k),
                op,
            ),
        after.len() > 0 ==> last_lies_left(l, k, op),
        ({
            let w = first_wanted(l, k, op, 0);
            &&& 0 <= w <= l.len()
            &&& forall|j: int| 0 <= j < w ==> !is_wanted(#[trigger] l[j], k, op)
            &&& w < l.len() ==> is_wanted(l[w], k, op)
        }),
    ensures
        ({
            let r = before + l + after;
            let w = first_wanted(l, k, op, 0);
            let v = first_wanted(r, k, op, 0);
            &&& 0 <= v <= r.len()
            &&& w < l.len() ==> v < r.len() && r[v] == l[w]
            &&& w == l.len() ==> v == r.len()
        }),
{
    let r = before + l + after;
    let w = first_wanted(l, k, op, 0);
    let v = if w < l.len() {
        before.len() + w
    } else {
        r.len() as int
    };
    if w == l.len() && after.len() > 0 {
        assert(!is_wanted(l[l.len() - 1], k, op));
    }
    assert forall|j: int| 0 <= j < v implies !is_wanted(#[trigger] r[j], k, op) by {
        if j < before.len() {
            assert(r[j] == before[j]);
        } else if j < before.len() + l.len() {
            assert(r[j] == l[j - before.len()]);
        }
    }
    lemma_first_is(r, k, op, 0, v);
}

/// The first row that is looked for is the one before which none is.
proof fn lemma_first_is(r: Seq<Row>, k: int, op: SeekOp, i: int, v: int)
    requires
        0 <= i <= v <= r.len(),
        forall|j: int| i <= j < v ==> !is_wanted(#[trigger] r[j], k, op),
        v < r.len() ==> is_wanted(r[v], k, op),
    ensures
        first_wanted(r, k, op, i) == v,
    decreases v - i,
{
    if i < v {
        lemma_first_is(r, k, op, i + 1, v);
    }
}

/// Whether `found` answers a search in the rows `r` as a table does.
pub open spec fn answers(r: Seq<Row>, k: int, op: SeekOp, found: Found) -> bool {
    &&& found is Entry || found is End
    &&& found is Entry ==> exists|i: int| #[trigger] is_first_wanted(r, k, op, i) && found == (
    Found::Entry { rowid: r[i].rowid, record: r[i].record })
    &&& op == SeekOp::EQ ==> forall|i: int|
        0 <= i < r.len() && (#[trigger] r[i]).rowid == k ==> found == (Found::Entry {
            rowid: k,
            record: r[i].record,
        })
    &&& (forall|i: int| 0 <= i < r.len() ==> !is_wanted(#[trigger] r[i], k, op)) ==> found is End
}

/// Whether row `i` is the first one that is looked for.
pub open spec fn is_first_wanted(r: Seq<Row>, k: int, op: SeekOp, i: int) -> bool {
    &&& 0 <= i < r.len()
    &&& is_wanted(r[i], k, op)
    &&& forall|j: int| 0 <= j < i ==> !is_wanted(#[trigger] r[j], k, op)
}

proof fn lemma_answers(
    r: Seq<Row>,
    before: Seq<Row>,
    l: Seq<Row>,
    after: Seq<Row>,
    lo: int,
    hi: int,
    k: int,
    op: SeekOp,
)
    requires
        r == before + l + after,
        ascending(r, lo, hi),
        forall|i: int|
            0 <= i < before.len() ==> !lies_left(
                int_order((#[trigger] before[i]).rowid, k),
                op,
            ),
        forall|i: int| 0 <= i < after.len() ==> (#[trigger] after[i]).rowid > k,
        ({
            let w = first_wanted(l, k, op, 0);
            &&& 0 <= w <= l.len()
            &&& forall|j: int| 0 <= j < w ==> !is_wanted(#[trigger] l[j], k, op)
            &&& w < l.len() ==> is_wanted(l[w], k, op)
        }),
    ensures
        ({
            let w = first_wanted(l, k, op, 0);
            answers(
                r,
                k,
                op,
                if w < l.len() {
                    Found::Entry { rowid: l[w].rowid, record: l[w].record }
                } else {
                    Found::End
                },
            )
        }),
{
    let b = before.len() as int;
    let w = first_wanted(l, k, op, 0);
    assert forall|j: int| 0 <= j < b + w implies !is_wanted(#[trigger] r[j], k, op) by {
        if j < b {
            assert(r[j] == before[j]);
        } else {
            assert(r[j] == l[j - b]);
        }
    }
    if w < l.len() {
        assert(r[b + w] == l[w]);
        assert(is_first_wanted(r, k, op, b + w));
    } else {
        assert forall|i: int| 0 <= i < r.len() && op == SeekOp::EQ implies (
        #[trigger] r[i]).rowid != k by {
            if i < b + w {
                assert(!is_wanted(r[i], k, op));
            } else {
                assert(r[i] == after[i - b - l.len()]);
            }
        }
    }
}

/// Looking up a row id in a table whose tree is in memory tells whether the
/// table has a row with it.
pub proof fn table_lookup(c: CursorModel, height: nat, lo: int, hi: int, k: int)
    requires
        height <= BTCURSOR_MAX_DEPTH,
        table(c.pages(), c.root_page, height, lo, hi, c.usable()),
    ensures
        ({
            let r = rows(c.pages(), c.root_page, height, c.usable());
            c.lookup(k) == Lookup::Answer(
                exists|i: int| 0 <= i < r.len() && (#[trigger] r[i]).rowid == k,
            )
        }),
{
    let pages = c.pages();
    let usable = c.usable();
    let key = KeyModel::RowId(k);
    let stack = root_stack(c.root_page);
    assert(stack.last().page == c.root_page);
    let x = lemma_table_descend(pages, stack, height, lo, hi, k, SeekOp::EQ, usable);
    let d = c.descent(key, SeekOp::EQ);
    let r = rows(pages, c.root_page, height, usable);
    let l = leaf_rows(pages, x.leaf, usable);
    let b = x.before.len() as int;
    let m = c.moved(d);
    assert(m.top_page() == x.leaf);
    lemma_first_at_least(pages, x.leaf, x.lo, x.hi, k, usable, 0);
    let i = first_at_least(x.leaf, k, usable, 0).unwrap();
    let there = exists|i: int| 0 <= i < r.len() && (#[trigger] r[i]).rowid == k;
    if i < l.len() {
        assert(row_at(pages, x.leaf, i, usable) is Some);
        assert(l[i] == row_at(pages, x.leaf, i, usable).unwrap());
        assert(r[b + i] == l[i]);
    }
    if there {
        let j = choose|j: int| 0 <= j < r.len() && (#[trigger] r[j]).rowid == k;
        if j < b {
            assert(r[j] == x.before[j]);
        } else if j < b + l.len() {
            assert(r[j] == l[j - b]);
            assert(row_at(pages, x.leaf, j - b, usable) is Some);
        } else {
            assert(r[j] == x.after[j - b - l.len()]);
        }
    }
}

/// On a table's leaf the first cell with a row id from `k` on is found, and
/// the rows before it have smaller ones.
pub proof fn lemma_first_at_least(
    pages: Map<usize, PageState>,
    page: PageModel,
    lo: int,
    hi: int,
    k: int,
    usable: int,
    i: int,
)
    requires
        table_leaf(pages, page, lo, hi, usable),
        0 <= i <= page.cell_count(),
    ensures
        ({
            let p = first_at_least(page, k, usable, i);
            let r = leaf_rows(pages, page, usable);
            &&& p is Some
            &&& i <= p.unwrap() <= page.cell_count()
            &&& forall|j: int| i <= j < p.unwrap() ==> (#[trigger] r[j]).rowid < k
            &&& forall|j: int| p.unwrap() <= j < r.len() ==> (#[trigger] r[j]).rowid >= k
        }),
    decreases page.cell_count() - i,
{
    let r = leaf_rows(pages, page, usable);
    if i < page.cell_count() {
        assert(row_at(pages, page, i, usable) is Some);
        assert(r[i].rowid == page.head(i, usable).unwrap().rowid);
        if k <= page.head(i, usable).unwrap().rowid {
            assert forall|j: int| i <= j < r.len() implies (#[trigger] r[j]).rowid >= k by {
                assert(row_at(pages, page, j, usable) is Some);
            }
        } else {
            lemma_first_at_least(pages, page, lo, hi, k, usable, i + 1);
        }
    }
}

} // verus!
