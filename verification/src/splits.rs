//! What splitting a leaf does to a table.

use vstd::prelude::*;
use crate::balance::{
    all_cells, cells_on, child_slot, fill_ok, first_at_least, lemma_emptied, lemma_moved_up_top,
    with_overflow, Written,
};
use crate::bytes::{be32, bytes32, lemma_be32_put32, put32, zeros};
use crate::cells::{
    apart, cell_layout, lemma_cell_bytes_layout, lemma_cell_head_bounds, lemma_cell_head_moved,
    shifted, starts_cell, tidy, trimmed,
};
use crate::cursor::{header_ok, CursorModel, WriteState};
use crate::fill::{emptied, grown_by, new_tree_page};
use crate::leaves::{all_trimmed, fill_keeps_cells, room_for};
use crate::page::{lemma_limits, usable_ok, CellHead, OverflowModel, PageModel, PageType};
use crate::pager::{loaded, page_of};
use crate::payloads::kept;
use crate::record::ValueModel;
use crate::rooms::{cell_stands, insert_keeps_all_cells, spread, takes};
use crate::settled::{
    all_sized, beside_kept, lemma_begun_rest, lemma_beside_twice, lemma_marked_rest,
    lemma_moved_rest, lemma_new_page_rest,
};
use crate::space::inserted;
use crate::varint::{
    lemma_varint_bounds, lemma_varint_frame, lemma_varint_value, varint_at, varint_bytes,
    varint_round_trip,
};

verus! {

/// The cell that names `child` and the greatest row id below it.
pub open spec fn divider_cell(child: int, key: int) -> Seq<u8> {
    bytes32(child) + varint_bytes(key)
}

/// A divider is laid out as a cell of a table's interior page.
pub proof fn lemma_divider_layout(child: int, key: u64, usable: int)
    requires
        0 <= child <= u32::MAX,
    ensures
        ({
            let t = PageType::TableInterior;
            let c = divider_cell(child, key as int);
            &&& starts_cell(c, t, usable)
            &&& cell_layout(c, t, usable).child == child
            &&& cell_layout(c, t, usable).rowid == key
            &&& trimmed(c, t, usable) == c
        }),
{
    let c = divider_cell(child, key as int);
    let b = varint_bytes(key as int);
    assert(c.subrange(4, 4 + b.len() as int) =~= b);
    varint_round_trip(c, 4, key);
    lemma_be32_put32(zeros(4), 0, child);
    let z = put32(zeros(4), 0, child);
    assert(z[0] == c[0] && z[1] == c[1] && z[2] == c[2] && z[3] == c[3]);
    assert(be32(c, 0) == child);
    assert(trimmed(c, PageType::TableInterior, usable) =~= c);
}

/// Writing the child of one cell of a table's interior page changes nothing else.
#[verifier::rlimit(40)]
pub proof fn lemma_child_written(page: PageModel, i: int, v: int, usable: int)
    requires
        usable_ok(usable),
        spread(page, usable),
        page.page_type() == Some(PageType::TableInterior),
        0 <= i < page.cell_count(),
        0 <= v <= u32::MAX,
    ensures
        ({
            let after = page.with_u32(page.cell_pointer(i), v);
            &&& after.page_type() == page.page_type()
            &&& after.cell_count() == page.cell_count()
            &&& after.rightmost() == page.rightmost()
            &&& forall|j: int|
                0 <= j < page.cell_count() && j != i ==> #[trigger] after.head(j, usable)
                    == page.head(j, usable)
            &&& after.head(i, usable) == Some(
                CellHead { child: v, ..page.head(i, usable).unwrap() },
            )
        }),
{
    let t = PageType::TableInterior;
    let p = page.cell_pointer(i);
    let after = page.with_u32(p, v);
    assert(cell_stands(page, i, usable));
    lemma_cell_head_bounds(page.buf, t, p, usable);
    lemma_varint_bounds(page.buf, p + 4, 0, 0);
    let n = page.cell_count();
    assert(p >= 12 + 2 * n);
    assert forall|k: int| 0 <= k < 12 + 2 * n implies #[trigger] after.buf[k] == page.buf[k] by {}
    assert(after.buf[0] == page.buf[0] && after.buf[3] == page.buf[3] && after.buf[4]
        == page.buf[4]);
    assert(after.buf[8] == page.buf[8] && after.buf[9] == page.buf[9] && after.buf[10]
        == page.buf[10] && after.buf[11] == page.buf[11]);
    assert(after.page_type() == page.page_type());
    assert(after.pointers_at() == 12);
    assert forall|j: int| 0 <= j < n implies after.cell_pointer(j)
        == #[trigger] page.cell_pointer(j) by {
        assert(after.buf[12 + 2 * j] == page.buf[12 + 2 * j]);
        assert(after.buf[12 + 2 * j + 1] == page.buf[12 + 2 * j + 1]);
    }
    assert forall|j: int| 0 <= j < n && j != i implies #[trigger] after.head(j, usable)
        == page.head(j, usable) by {
        let q = page.cell_pointer(j);
        assert(cell_stands(page, j, usable));
        let g = page.head(j, usable).unwrap();
        lemma_cell_head_bounds(page.buf, t, q, usable);
        lemma_varint_bounds(page.buf, q + 4, 0, 0);
        assert(apart(page, if i < j {
            i
        } else {
            j
        }, if i < j {
            j
        } else {
            i
        }, usable));
        assert forall|k: int| 0 <= k < g.end() - q implies #[trigger] page.buf[q + k]
            == after.buf[q + k] by {}
        lemma_cell_head_moved(page.buf, q, after.buf, q, t, usable);
        assert(shifted(g, 0) == g);
    }
    let m = varint_at(page.buf, p + 4).unwrap().1;
    assert forall|k: int| 0 <= k < m implies #[trigger] page.buf[p + 4 + k] == after.buf[p + 4
        + k] by {}
    lemma_varint_frame(page.buf, p + 4, after.buf, p + 4, 0, 0);
    lemma_be32_put32(page.buf, p, v);
}

/// Writing the right-most child of a table's interior page changes nothing else.
pub proof fn lemma_rightmost_written(page: PageModel, v: int, usable: int)
    requires
        usable_ok(usable),
        spread(page, usable),
        page.page_type() == Some(PageType::TableInterior),
        0 <= v <= u32::MAX,
    ensures
        ({
            let after = page.with_u32(8, v);
            &&& after.page_type() == page.page_type()
            &&& after.cell_count() == page.cell_count()
            &&& after.rightmost() == v
            &&& forall|j: int|
                0 <= j < page.cell_count() ==> #[trigger] after.head(j, usable) == page.head(
                    j,
                    usable,
                )
        }),
{
    let t = PageType::TableInterior;
    let after = page.with_u32(8, v);
    let n = page.cell_count();
    assert(after.buf[0] == page.buf[0] && after.buf[3] == page.buf[3] && after.buf[4]
        == page.buf[4]);
    lemma_be32_put32(page.buf, 8, v);
    assert(after.page_type() == page.page_type());
    assert(after.pointers_at() == 12);
    assert forall|j: int| 0 <= j < n implies #[trigger] after.head(j, usable) == page.head(
        j,
        usable,
    ) by {
        let q = page.cell_pointer(j);
        assert(cell_stands(page, j, usable));
        let g = page.head(j, usable).unwrap();
        lemma_cell_head_bounds(page.buf, t, q, usable);
        assert(after.buf[12 + 2 * j] == page.buf[12 + 2 * j]);
        assert(after.buf[12 + 2 * j + 1] == page.buf[12 + 2 * j + 1]);
        assert(after.cell_pointer(j) == q);
        assert forall|k: int| 0 <= k < g.end() - q implies #[trigger] page.buf[q + k]
            == after.buf[q + k] by {}
        lemma_cell_head_moved(page.buf, q, after.buf, q, t, usable);
        assert(shifted(g, 0) == g);
    }
}

/// Whether two cells of table's interior pages name the same child and row id.
pub open spec fn same_entry(
    p: PageModel,
    i: int,
    q: PageModel,
    j: int,
    usable: int,
) -> bool {
    &&& p.head(i, usable) is Some
    &&& q.head(j, usable) is Some
    &&& q.head(j, usable).unwrap().child == p.head(i, usable).unwrap().child
    &&& q.head(j, usable).unwrap().rowid == p.head(i, usable).unwrap().rowid
}

/// Whether `q` is the interior page `p` with child `ci` replaced by `left` and
/// `right` and the row id `key` between them.
pub open spec fn divided(
    p: PageModel,
    q: PageModel,
    ci: int,
    left: int,
    key: int,
    right: int,
    usable: int,
) -> bool {
    let n = p.cell_count();
    &&& q.page_type() == p.page_type()
    &&& q.cell_count() == n + 1
    &&& forall|j: int| 0 <= j < ci ==> #[trigger] same_entry(p, j, q, j, usable)
    &&& q.head(ci, usable) is Some
    &&& q.head(ci, usable).unwrap().child == left
    &&& q.head(ci, usable).unwrap().rowid == key
    &&& ci < n ==> {
        &&& q.head(ci + 1, usable) is Some
        &&& q.head(ci + 1, usable).unwrap().child == right
        &&& q.head(ci + 1, usable).unwrap().rowid == p.head(ci, usable).unwrap().rowid
    }
    &&& forall|j: int| ci < j < n ==> #[trigger] same_entry(p, j, q, j + 1, usable)
    &&& q.rightmost() == if ci == n {
        right
    } else {
        p.rightmost()
    }
}

/// Where an interior page names its child `ci`.
pub open spec fn slot_of(page: PageModel, ci: int) -> int {
    if ci < page.cell_count() {
        page.cell_pointer(ci)
    } else {
        8
    }
}

/// A divider put before the cell that names a child, and that child replaced,
/// divide the page at the child.
pub proof fn divider_divides(
    page: PageModel,
    ci: int,
    left: int,
    key: u64,
    right: int,
    usable: int,
)
    requires
        usable_ok(usable),
        page.page_type() == Some(PageType::TableInterior),
        0 <= ci <= page.cell_count(),
        0 <= left <= u32::MAX,
        0 <= right <= u32::MAX,
        takes(page, divider_cell(left, key as int), usable),
    ensures
        ({
            let mid = inserted(page, divider_cell(left, key as int), ci, usable);
            let after = mid.with_u32(slot_of(page, ci), right);
            &&& divided(page, after, ci, left, key as int, right, usable)
            &&& after.overflow_cells == page.overflow_cells
            &&& 0 <= slot_of(page, ci) && slot_of(page, ci) + 4 <= usable
        }),
{
    let mid = inserted(page, divider_cell(left, key as int), ci, usable);
    lemma_divider_put(page, ci, left, key, usable);
    lemma_child_replaced(page, mid, ci, left, key as int, right, usable);
}

/// The entries of `mid` are those of `page`, with one for `left` and `key` at
/// `ci`.
spec fn with_entry(
    page: PageModel,
    mid: PageModel,
    ci: int,
    left: int,
    key: int,
    usable: int,
) -> bool {
    let n = page.cell_count();
    &&& mid.page_type() == page.page_type()
    &&& mid.cell_count() == n + 1
    &&& mid.rightmost() == page.rightmost()
    &&& mid.overflow_cells == page.overflow_cells
    &&& forall|j: int| 0 <= j < ci ==> #[trigger] same_entry(page, j, mid, j, usable)
    &&& forall|j: int| ci <= j < n ==> #[trigger] same_entry(page, j, mid, j + 1, usable)
    &&& mid.head(ci, usable) is Some
    &&& mid.head(ci, usable).unwrap().child == left
    &&& mid.head(ci, usable).unwrap().rowid == key
    &&& ci < n ==> mid.cell_pointer(ci + 1) == page.cell_pointer(ci)
}

/// A divider is one entry more.
proof fn lemma_divider_put(page: PageModel, ci: int, left: int, key: u64, usable: int)
    requires
        usable_ok(usable),
        page.page_type() == Some(PageType::TableInterior),
        0 <= ci <= page.cell_count(),
        0 <= left <= u32::MAX,
        takes(page, divider_cell(left, key as int), usable),
    ensures
        ({
            let mid = inserted(page, divider_cell(left, key as int), ci, usable);
            &&& spread(mid, usable)
            &&& with_entry(page, mid, ci, left, key as int, usable)
        }),
{
    let cell = divider_cell(left, key as int);
    let n = page.cell_count();
    lemma_divider_layout(left, key, usable);
    insert_keeps_all_cells(page, cell, ci, usable);
    let mid = inserted(page, cell, ci, usable);
    let was = cells_on(page, usable);
    let is = cells_on(mid, usable);
    assert forall|j: int| 0 <= j < n + 1 implies entry_in(mid, j, #[trigger] is[j], usable) by {
        lemma_entry_in(mid, j, usable);
    }
    assert forall|j: int| 0 <= j < n implies entry_in(page, j, #[trigger] was[j], usable) by {
        lemma_entry_in(page, j, usable);
    }
    assert forall|j: int| 0 <= j < ci implies #[trigger] same_entry(page, j, mid, j, usable) by {
        assert(is[j] == was[j]);
    }
    assert forall|j: int| ci <= j < n implies #[trigger] same_entry(
        page,
        j,
        mid,
        j + 1,
        usable,
    ) by {
        assert(is[j + 1] == was[j]);
    }
    assert(is[ci] == cell);
    if ci < n {
        assert(mid.cell_pointer(ci + 1) == page.cell_pointer(ci));
    }
}

/// Whether cell `j` of an interior page has the child and the key in `c`.
pub open spec fn entry_in(page: PageModel, j: int, c: Seq<u8>, usable: int) -> bool {
    let h = cell_layout(c, PageType::TableInterior, usable);
    &&& page.head(j, usable) is Some
    &&& page.head(j, usable).unwrap().child == h.child
    &&& page.head(j, usable).unwrap().rowid == h.rowid
}

/// A cell has the child and the key in its bytes.
pub proof fn lemma_entry_in(page: PageModel, j: int, usable: int)
    requires
        usable_ok(usable),
        page.page_type() == Some(PageType::TableInterior),
        spread(page, usable),
        0 <= j < page.cell_count(),
    ensures
        entry_in(page, j, cells_on(page, usable)[j], usable),
{
    assert(cell_stands(page, j, usable));
    lemma_cell_bytes_layout(page, j, usable);
}

/// The child behind a new entry replaced.
proof fn lemma_child_replaced(
    page: PageModel,
    mid: PageModel,
    ci: int,
    left: int,
    key: int,
    right: int,
    usable: int,
)
    requires
        usable_ok(usable),
        page.page_type() == Some(PageType::TableInterior),
        spread(page, usable),
        spread(mid, usable),
        0 <= ci <= page.cell_count(),
        0 <= right <= u32::MAX,
        with_entry(page, mid, ci, left, key, usable),
    ensures
        ({
            let after = mid.with_u32(slot_of(page, ci), right);
            &&& divided(page, after, ci, left, key, right, usable)
            &&& after.overflow_cells == page.overflow_cells
            &&& 0 <= slot_of(page, ci) && slot_of(page, ci) + 4 <= usable
        }),
{
    let t = PageType::TableInterior;
    let n = page.cell_count();
    let after = mid.with_u32(slot_of(page, ci), right);
    if ci < n {
        assert(cell_stands(page, ci, usable));
        lemma_cell_head_bounds(page.buf, t, page.cell_pointer(ci), usable);
        lemma_varint_bounds(page.buf, page.cell_pointer(ci) + 4, 0, 0);
        lemma_child_written(mid, ci + 1, right, usable);
        assert(same_entry(page, ci, mid, ci + 1, usable));
        assert(after.head(ci, usable) == mid.head(ci, usable));
        assert forall|j: int| 0 <= j < ci implies #[trigger] same_entry(
            page,
            j,
            after,
            j,
            usable,
        ) by {
            assert(same_entry(page, j, mid, j, usable));
            assert(after.head(j, usable) == mid.head(j, usable));
        }
        assert forall|j: int| ci < j < n implies #[trigger] same_entry(
            page,
            j,
            after,
            j + 1,
            usable,
        ) by {
            assert(same_entry(page, j, mid, j + 1, usable));
            assert(after.head(j + 1, usable) == mid.head(j + 1, usable));
        }
    } else {
        lemma_rightmost_written(mid, right, usable);
        assert(after.head(ci, usable) == mid.head(ci, usable));
        assert forall|j: int| 0 <= j < ci implies #[trigger] same_entry(
            page,
            j,
            after,
            j,
            usable,
        ) by {
            assert(same_entry(page, j, mid, j, usable));
            assert(after.head(j, usable) == mid.head(j, usable));
        }
    }
}

// ---------------------------------------------------------------------------
// The steps of a split
// ---------------------------------------------------------------------------

/// A page that was emptied is tidy.
pub proof fn lemma_emptied_tidy(page: PageModel, usable: int, page_size: int)
    requires
        usable_ok(usable),
        page.sized(page_size),
        usable <= page_size <= u16::MAX,
        page.offset == 0,
        page.page_type() is Some,
    ensures
        tidy(emptied(page, usable), usable),
        emptied(page, usable).page_type() == page.page_type(),
        emptied(page, usable).cell_count() == 0,
        emptied(page, usable).cell_content_area() == usable,
        emptied(page, usable).overflow_cells == page.overflow_cells,
{
    lemma_limits(usable);
    lemma_emptied(page, usable, page_size);
}

/// The row id up to which the left half of the cells goes.
pub open spec fn split_key(cells: Seq<Seq<u8>>, usable: int) -> int {
    cell_layout(cells[cells.len() as int / 2 - 1], PageType::TableLeaf, usable).rowid
}

/// Whether cells can be shared by two leaves: there are two at least for the
/// left one, and each half has room on its page.
pub open spec fn halves_fit(cells: Seq<Seq<u8>>, usable: int) -> bool {
    let half = cells.len() as int / 2;
    &&& half >= 2
    &&& 12 + room_for(cells.take(half)) <= usable
    &&& 12 + room_for(cells.skip(half)) <= usable
}

/// Whether the parent can take a divider for its child `ci`, page `id`, and
/// the row id `key`.
pub open spec fn divider_fits(
    parent: PageModel,
    ci: int,
    id: int,
    key: int,
    usable: int,
) -> bool {
    &&& parent.page_type() == Some(PageType::TableInterior)
    &&& parent.overflow_cells.len() == 0
    &&& 0 <= ci <= parent.cell_count()
    &&& first_at_least(parent, key, usable, 0) == Some(ci)
    &&& child_slot(parent, id, usable, 0) == Some(slot_of(parent, ci))
    &&& takes(parent, divider_cell(id, key), usable)
}

/// Whether the cursor is about to share the cells of its leaf, and each half of
/// them has room.
pub open spec fn leaf_shares(c: CursorModel) -> bool {
    let usable = c.usable();
    let l = c.top().page;
    let r = c.new_pages[1];
    let cells = c.scratch_cells;
    &&& header_ok(c.header)
    &&& c.new_pages == seq![l, r]
    &&& loaded(c.pages(), l) && loaded(c.pages(), r)
    &&& page_of(c.pages(), l).sized(c.header.page_size as int)
    &&& page_of(c.pages(), r).sized(c.header.page_size as int)
    &&& page_of(c.pages(), l).offset == 0
    &&& page_of(c.pages(), r).offset == 0
    &&& page_of(c.pages(), l).page_type() == Some(PageType::TableLeaf)
    &&& page_of(c.pages(), r).page_type() == Some(PageType::TableLeaf)
    &&& forall|i: int|
        0 <= i < cells.len() ==> starts_cell(#[trigger] cells[i], PageType::TableLeaf, usable)
    &&& halves_fit(cells, usable)
}

/// Whether the cursor is about to share the cells of its leaf, and the parent
/// can take the divider.
pub open spec fn about_to_share(c: CursorModel, ci: int) -> bool {
    let l = c.top().page;
    let r = c.new_pages[1];
    let key = split_key(c.scratch_cells, c.usable());
    &&& leaf_shares(c)
    &&& c.state == WriteState::BalanceMoveUp
    &&& c.stack.len() > 1
    &&& l <= u32::MAX && r <= u32::MAX
    &&& l != r && c.parent_id() != l && c.parent_id() != r
    &&& loaded(c.pages(), c.parent_id())
    &&& divider_fits(c.parent_page(), ci, l as int, key, c.usable())
}

/// The left and the right leaf hold the two halves of the cells.
pub proof fn lemma_halves(c: CursorModel)
    requires
        leaf_shares(c),
    ensures
        ({
            let usable = c.usable();
            let half = c.half();
            let t = PageType::TableLeaf;
            &&& fill_ok(
                emptied(page_of(c.pages(), c.new_pages[0]), usable),
                c.scratch_cells.take(half),
                usable,
            )
            &&& fill_ok(
                emptied(page_of(c.pages(), c.new_pages[1]), usable),
                c.scratch_cells.skip(half),
                usable,
            )
            &&& tidy(c.left_page(), usable)
            &&& tidy(c.right_page(), usable)
            &&& c.left_page().overflow_cells == page_of(
                c.pages(),
                c.new_pages[0],
            ).overflow_cells
            &&& c.right_page().overflow_cells == page_of(
                c.pages(),
                c.new_pages[1],
            ).overflow_cells
            &&& c.left_page().page_type() == Some(t)
            &&& c.right_page().page_type() == Some(t)
            &&& cells_on(c.left_page(), usable) == all_trimmed(
                c.scratch_cells.take(half),
                t,
                usable,
            )
            &&& cells_on(c.right_page(), usable) == all_trimmed(
                c.scratch_cells.skip(half),
                t,
                usable,
            )
        }),
{
    let usable = c.usable();
    let half = c.half();
    let cells = c.scratch_cells;
    let page_size = c.header.page_size as int;
    lemma_emptied_tidy(page_of(c.pages(), c.new_pages[0]), usable, page_size);
    lemma_emptied_tidy(page_of(c.pages(), c.new_pages[1]), usable, page_size);
    let a = cells.take(half);
    let b = cells.skip(half);
    assert forall|i: int| 0 <= i < a.len() implies starts_cell(
        #[trigger] a[i],
        PageType::TableLeaf,
        usable,
    ) by {
        assert(a[i] == cells[i]);
    }
    assert forall|i: int| 0 <= i < b.len() implies starts_cell(
        #[trigger] b[i],
        PageType::TableLeaf,
        usable,
    ) by {
        assert(b[i] == cells[half + i]);
    }
    fill_keeps_cells(emptied(page_of(c.pages(), c.new_pages[0]), usable), a, usable);
    fill_keeps_cells(emptied(page_of(c.pages(), c.new_pages[1]), usable), b, usable);
}

/// The cells can be shared, and the parent is then divided.
proof fn lemma_shared(c: CursorModel, ci: int)
    requires
        about_to_share(c, ci),
    ensures
        c.move_up_ok(),
        ({
            let key = split_key(c.scratch_cells, c.usable());
            let l = c.new_pages[0] as int;
            let r = c.new_pages[1] as int;
            &&& divided(c.parent_page(), c.parent_after(), ci, l, key, r, c.usable())
            &&& c.parent_after().overflow_cells.len() == 0
        }),
{
    let usable = c.usable();
    let cells = c.scratch_cells;
    lemma_halves(c);
    let t = PageType::TableLeaf;
    let last = cells[c.half() - 1];
    assert(starts_cell(last, t, usable));
    assert(c.divider_key() == split_key(cells, usable));
    let key = c.divider_key();
    assert(0 <= key <= u64::MAX) by {
        let n = varint_at(last, 0).unwrap().1;
        lemma_varint_bounds(last, 0, 0, 0);
        lemma_varint_value(last, n, 0, 0);
    }
    let l = c.new_pages[0] as int;
    assert(c.divider() == divider_cell(l, key));
    lemma_divider_layout(l, key as u64, usable);
    divider_divides(c.parent_page(), ci, l, key as u64, c.new_pages[1] as int, usable);
    insert_keeps_all_cells(c.parent_page(), c.divider(), ci, usable);
    assert(c.left_page().cell_count() == cells_on(c.left_page(), usable).len());
    lemma_limits(usable);
}

/// Whether the cursor's leaf, below a parent, has one cell beside it for which
/// it has no room, and can be split.
pub open spec fn splits(c: CursorModel, ci: int, place: int, cell: Seq<u8>) -> bool {
    let usable = c.usable();
    let size = c.header.database_size as int;
    let leaf = c.top_page();
    let cells = cells_on(leaf, usable).insert(place, cell);
    &&& header_ok(c.header)
    &&& c.state == WriteState::BalanceStart
    &&& c.stack.len() > 1
    &&& c.top().page <= size
    &&& c.parent_id() <= size
    &&& c.top().page != c.parent_id()
    &&& size < u32::MAX
    &&& loaded(c.pages(), c.top().page)
    &&& loaded(c.pages(), c.parent_id())
    &&& leaf.sized(c.header.page_size as int)
    &&& leaf.offset == 0
    &&& forall|i: int| 0 <= i < leaf.cell_count() ==> (#[trigger] leaf.head(i, usable)) is Some
    &&& leaf.page_type() == Some(PageType::TableLeaf)
    &&& leaf.overflow_cells == seq![OverflowModel { index: place, payload: cell }]
    &&& 0 <= place <= leaf.cell_count()
    &&& starts_cell(cell, PageType::TableLeaf, usable)
    &&& halves_fit(cells, usable)
    &&& divider_fits(
        c.parent_page(),
        ci,
        c.top().page as int,
        split_key(cells, usable),
        usable,
    )
}

/// A leaf that is split is made ready in two steps.
#[verifier::rlimit(40)]
proof fn lemma_split_begins(c: CursorModel, ci: int, place: int, cell: Seq<u8>) -> (d: CursorModel)
    requires
        splits(c, ci, place, cell),
    ensures
        ({
            let l = c.top().page;
            let p = c.parent_id();
            let r = (c.header.database_size + 1) as usize;
            let c1 = c.split_begun();
            &&& c.balance_ok() && !c.balance_waits() && c.balanced() == c1
            &&& c1.state == WriteState::BalanceGetParentPage
            &&& c1.balance_ok() && !c1.balance_waits() && c1.balanced() == d
            &&& c1.header == d.header
            &&& about_to_share(d, ci)
            &&& d.new_pages[1] == r
            &&& d.top().page == l && d.parent_id() == p && d.stack == c.stack
            &&& d.root_page == c.root_page
            &&& d.header == grown_by(c.header, 1)
            &&& d.scratch_cells == cells_on(c.top_page(), c.usable()).insert(place, cell)
            &&& d.parent_page() == c.parent_page()
            &&& kept(c.pages(), d.pages(), set![r])
            &&& d.pager == c1.pager.mark(p)
            &&& page_of(d.pages(), l) == c.top_page()
            &&& page_of(d.pages(), r).overflow_cells.len() == 0
            &&& c1.pages().contains_key(p)
        }),
{
    let usable = c.usable();
    let leaf = c.top_page();
    let c1 = c.split_begun();
    let p = c.parent_id();
    let r = (c.header.database_size + 1) as usize;
    assert(c.split_ok());
    let o = leaf.overflow_cells;
    assert(o.drop_last() =~= Seq::<OverflowModel>::empty());
    reveal_with_fuel(with_overflow, 2);
    let cells = cells_on(leaf, usable).insert(place, cell);
    assert(all_cells(leaf, usable) == cells);
    let d = c1.balanced();
    assert(loaded(c1.pages(), p));
    assert(d == (CursorModel {
        pager: c1.pager.mark(p),
        state: WriteState::BalanceMoveUp,
        ..c1
    }));
    lemma_new_page_rest(PageType::TableLeaf, c.header);
    assert(page_of(d.pages(), r) == new_tree_page(PageType::TableLeaf, c.header));
    assert(page_of(d.pages(), c.top().page) == leaf);
    assert(d.parent_page() == c.parent_page());
    assert forall|i: int| 0 <= i < cells.len() implies starts_cell(
        #[trigger] cells[i],
        PageType::TableLeaf,
        usable,
    ) by {
        if i != place {
            let j = if i < place {
                i
            } else {
                i - 1
            };
            assert(cells[i] == cells_on(leaf, usable)[j]);
            assert(leaf.head(j, usable) is Some);
            lemma_cell_bytes_layout(leaf, j, usable);
        }
    }
    d
}

/// Splitting a leaf shares its cells, the one beside it too, with a new leaf
/// behind it and divides the parent. The cell beside the leaf is still there: the
/// leaf has a copy of it on one of the two pages. No other page has got a cell
/// beside it.
#[verifier::rlimit(40)]
pub proof fn split_shares_cells(
    c: CursorModel,
    ci: int,
    place: int,
    cell: Seq<u8>,
    rowid: u64,
    record: Seq<ValueModel>,
)
    requires
        splits(c, ci, place, cell),
    ensures
        c.written(rowid, record).ok,
        !c.written(rowid, record).waits,
        ({
            let usable = c.usable();
            let t = PageType::TableLeaf;
            let l = c.top().page;
            let p = c.parent_id();
            let r = (c.header.database_size + 1) as usize;
            let cells = cells_on(c.top_page(), usable).insert(place, cell);
            let half = cells.len() as int / 2;
            let e = c.written(rowid, record).cursor;
            &&& e.state == WriteState::Start
            &&& e.root_page == c.root_page
            &&& e.header == grown_by(c.header, 1)
            &&& kept(c.pages(), e.pages(), set![l, p, r])
            &&& loaded(e.pages(), l) && loaded(e.pages(), r) && loaded(e.pages(), p)
            &&& tidy(page_of(e.pages(), l), usable)
            &&& tidy(page_of(e.pages(), r), usable)
            &&& page_of(e.pages(), l).page_type() == Some(t)
            &&& page_of(e.pages(), r).page_type() == Some(t)
            &&& cells_on(page_of(e.pages(), l), usable) == all_trimmed(
                cells.take(half),
                t,
                usable,
            )
            &&& cells_on(page_of(e.pages(), r), usable) == all_trimmed(
                cells.skip(half),
                t,
                usable,
            )
            &&& divided(
                c.parent_page(),
                page_of(e.pages(), p),
                ci,
                l as int,
                split_key(cells, usable),
                r as int,
                usable,
            )
            &&& page_of(e.pages(), l).overflow_cells == c.top_page().overflow_cells
            &&& page_of(e.pages(), r).overflow_cells.len() == 0
            &&& page_of(e.pages(), p).overflow_cells.len() == 0
            &&& all_sized(c.pages(), c.header.page_size as int) ==> {
                &&& all_sized(e.pages(), c.header.page_size as int)
                &&& beside_kept(c.pages(), e.pages(), Set::empty())
            }
        }),
{
    let d = lemma_split_begins(c, ci, place, cell);
    let c1 = c.split_begun();
    lemma_halves(d);
    lemma_shared(d, ci);
    let f = d.moved_up();
    let g = f.in_state(WriteState::Finish);
    let e = g.in_state(WriteState::Start);
    assert(c.written(rowid, record) == c1.written(rowid, record));
    assert(c1.written(rowid, record) == d.written(rowid, record));
    assert(d.balanced() == f);
    assert(d.written(rowid, record) == f.written(rowid, record));
    lemma_moved_up_top(d);
    if all_sized(c.pages(), c.header.page_size as int) {
        lemma_begun_rest(c);
        lemma_marked_rest(c1.pager, c.parent_id(), c.header.page_size as int);
        lemma_moved_rest(d);
        let no = Set::<usize>::empty();
        lemma_beside_twice(c.pages(), c1.pages(), d.pages(), no, no, no);
        lemma_beside_twice(c.pages(), d.pages(), f.pages(), no, no, no);
    }
    assert(f.balanced() == g);
    assert(f.balance_ok());
    assert(f.written(rowid, record) == g.written(rowid, record));
    assert(g.written(rowid, record) == Written { cursor: e, waits: false, ok: true });
    let r = (c.header.database_size + 1) as usize;
    let x = set![c.top().page, c.parent_id(), r];
    assert forall|k: usize| #[trigger] loaded(c.pages(), k) && !x.contains(k) implies loaded(
        e.pages(),
        k,
    ) && page_of(e.pages(), k) == page_of(c.pages(), k) by {
        assert(!set![r].contains(k));
        assert(loaded(d.pages(), k));
    }
}

} // verus!
