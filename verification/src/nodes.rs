//! Interior pages that lose their last cell or share their cells.

use vstd::prelude::*;
use crate::balance::{cell_bytes, cells_on, fill_ok};
use crate::bytes::{lemma_be16_put16, lemma_be32_put32, put32};
use crate::cells::{
    apart, cell_inside, cell_layout, lemma_cell_bytes_layout, lemma_trimmed_layout, starts_cell,
    tidy, trimmed,
};
use crate::cursor::{header_ok, CursorModel};
use crate::fill::emptied;
use crate::leaves::{all_trimmed, fill_keeps_cells};
use crate::page::{leaf_type, usable_ok, PageModel, PageType};
use crate::pager::{loaded, page_of};
use crate::rooms::{cell_stands, lemma_cell_there, spread};
use crate::space::{drop_ok, dropped, freed, with_block};
use crate::splits::{divider_cell, entry_in, halves_fit, lemma_emptied_tidy, lemma_entry_in};

verus! {

/// Dropping the last cell of a tidy page, which has four bytes at least, keeps
/// the other cells.
pub proof fn dropping_keeps_cells(page: PageModel, usable: int)
    requires
        usable_ok(usable),
        tidy(page, usable),
        page.cell_count() > 0,
        cell_bytes(page, page.cell_count() - 1, usable).len() >= 4,
    ensures
        drop_ok(page, page.cell_count() - 1, usable),
        ({
            let last = page.cell_count() - 1;
            let after = dropped(page, last, usable);
            &&& spread(after, usable)
            &&& after.page_type() == page.page_type()
            &&& after.cell_count() == last
            &&& after.overflow_cells == page.overflow_cells
            &&& after.buf.len() == page.buf.len()
            &&& cells_on(after, usable) == cells_on(page, usable).drop_last()
            &&& !leaf_type(page.kind()) ==> after.rightmost() == page.rightmost()
        }),
{
    let last = page.cell_count() - 1;
    let after = dropped(page, last, usable);
    assert(cell_inside(page, last, usable));
    lemma_cell_bytes_layout(page, last, usable);
    lemma_dropped_bytes(page, usable);
    let a = page.pointers_at();
    assert(after.buf[0] == page.buf[0]);
    assert(after.pointers_at() == a);
    if !leaf_type(page.kind()) {
        assert(after.buf[8] == page.buf[8] && after.buf[9] == page.buf[9] && after.buf[10]
            == page.buf[10] && after.buf[11] == page.buf[11]);
    }
    assert forall|i: int| 0 <= i < last implies {
        &&& #[trigger] cell_stands(after, i, usable)
        &&& after.cell_pointer(i) == page.cell_pointer(i)
        &&& after.head(i, usable) == page.head(i, usable)
        &&& cell_bytes(after, i, usable) == cell_bytes(page, i, usable)
    } by {
        assert(cell_inside(page, i, usable));
        assert(cell_stands(page, i, usable));
        assert(apart(page, i, last, usable));
        assert(after.buf[a + 2 * i] == page.buf[a + 2 * i]);
        assert(after.buf[a + 2 * i + 1] == page.buf[a + 2 * i + 1]);
        assert(after.cell_pointer(i) == page.cell_pointer(i));
        lemma_cell_there(page, i, after, i, usable);
    }
    assert forall|i: int, j: int| 0 <= i < j < last implies #[trigger] apart(
        after,
        i,
        j,
        usable,
    ) by {
        assert(cell_stands(after, i, usable) && cell_stands(after, j, usable));
        assert(apart(page, i, j, usable));
    }
    assert(cells_on(after, usable) =~= cells_on(page, usable).drop_last()) by {
        assert forall|i: int| 0 <= i < last implies cells_on(after, usable)[i] == cells_on(
            page,
            usable,
        )[i] by {
            assert(cell_stands(after, i, usable));
        }
    }
}

/// Which bytes change when the last cell of a tidy page is dropped.
proof fn lemma_dropped_bytes(page: PageModel, usable: int)
    requires
        usable_ok(usable),
        tidy(page, usable),
        page.cell_count() > 0,
        cell_bytes(page, page.cell_count() - 1, usable).len() >= 4,
    ensures
        drop_ok(page, page.cell_count() - 1, usable),
        ({
            let last = page.cell_count() - 1;
            let start = page.cell_pointer(last);
            let after = dropped(page, last, usable);
            &&& after == page.with_buf(after.buf)
            &&& after.buf.len() == page.buf.len()
            &&& after.cell_count() == last
            &&& forall|k: int|
                0 <= k < page.buf.len() && k != 1 && k != 2 && k != 3 && k != 4 && !(start <= k
                    < start + 4) ==> #[trigger] after.buf[k] == page.buf[k]
        }),
{
    let n = page.cell_count();
    let last = n - 1;
    let start = page.cell_pointer(last);
    assert(cell_inside(page, last, usable));
    lemma_cell_bytes_layout(page, last, usable);
    let len = page.head(last, usable).unwrap().end() - start;
    let p = freed(page, start, len, usable);
    assert(p == with_block(page, start, 0, len).with_u16(1, start));
    assert(p.buf[3] == page.buf[3] && p.buf[4] == page.buf[4]);
    assert(p.cell_count() == n);
    lemma_be16_put16(p.buf, 3, n - 1);
}

/// Whether a table's interior page has the entries in `cells`, in order, and
/// the right-most child `rightmost`.
pub open spec fn holds_entries(
    page: PageModel,
    cells: Seq<Seq<u8>>,
    rightmost: int,
    usable: int,
) -> bool {
    &&& page.page_type() == Some(PageType::TableInterior)
    &&& page.cell_count() == cells.len()
    &&& forall|i: int| 0 <= i < cells.len() ==> entry_in(page, i, #[trigger] cells[i], usable)
    &&& page.rightmost() == rightmost
}

/// Writing the right-most child of an interior page changes nothing else.
#[verifier::rlimit(30)]
pub proof fn lemma_rightmost_set(page: PageModel, v: int, usable: int)
    requires
        usable_ok(usable),
        spread(page, usable),
        page.page_type() == Some(PageType::TableInterior),
        0 <= v <= u32::MAX,
    ensures
        ({
            let after = page.with_u32(8, v);
            &&& spread(after, usable)
            &&& after.page_type() == page.page_type()
            &&& after.cell_count() == page.cell_count()
            &&& after.rightmost() == v
            &&& after.buf.len() == page.buf.len()
            &&& after.overflow_cells == page.overflow_cells
            &&& cells_on(after, usable) == cells_on(page, usable)
            &&& forall|j: int|
                0 <= j < page.cell_count() ==> #[trigger] after.head(j, usable) == page.head(
                    j,
                    usable,
                )
        }),
{
    let after = page.with_u32(8, v);
    let n = page.cell_count();
    let b = put32(page.buf, 8, v);
    lemma_be32_put32(page.buf, 8, v);
    assert(after.buf == b);
    assert(b[0] == page.buf[0] && b[3] == page.buf[3] && b[4] == page.buf[4]);
    assert(after.pointers_at() == 12 && page.pointers_at() == 12);
    assert forall|i: int| 0 <= i < n implies {
        &&& #[trigger] cell_stands(after, i, usable)
        &&& after.cell_pointer(i) == page.cell_pointer(i)
        &&& after.head(i, usable) == page.head(i, usable)
        &&& cell_bytes(after, i, usable) == cell_bytes(page, i, usable)
    } by {
        assert(cell_stands(page, i, usable));
        assert(b[12 + 2 * i] == page.buf[12 + 2 * i] && b[12 + 2 * i + 1] == page.buf[12 + 2 * i
            + 1]);
        assert(after.cell_pointer(i) == page.cell_pointer(i));
        lemma_cell_there(page, i, after, i, usable);
    }
    assert forall|j: int| 0 <= j < n implies #[trigger] after.head(j, usable) == page.head(
        j,
        usable,
    ) by {
        assert(cell_stands(after, j, usable));
    }
    assert forall|i: int, j: int| 0 <= i < j < n implies #[trigger] apart(after, i, j, usable) by {
        assert(cell_stands(after, i, usable) && cell_stands(after, j, usable));
        assert(apart(page, i, j, usable));
    }
    assert(cells_on(after, usable) =~= cells_on(page, usable)) by {
        assert forall|i: int| 0 <= i < n implies cells_on(after, usable)[i] == cells_on(
            page,
            usable,
        )[i] by {
            assert(cell_stands(after, i, usable));
        }
    }
}

/// Whether the cursor is about to share the cells of an interior page, whose
/// right-most child was `rightmost`, with a new page, and each half has room.
pub open spec fn shares_node(c: CursorModel, rightmost: u32) -> bool {
    let usable = c.usable();
    let l = c.top().page;
    let r = c.new_pages[1];
    let cells = c.scratch_cells;
    &&& header_ok(c.header)
    &&& c.new_pages == seq![l, r]
    &&& loaded(c.pages(), l) && loaded(c.pages(), r)
    &&& page_of(c.pages(), l).sized(c.header.page_size as int)
    &&& page_of(c.pages(), r).sized(c.header.page_size as int)
    &&& page_of(c.pages(), l).offset == 0
    &&& page_of(c.pages(), r).offset == 0
    &&& page_of(c.pages(), l).page_type() == Some(PageType::TableInterior)
    &&& page_of(c.pages(), r).page_type() == Some(PageType::TableInterior)
    &&& c.rightmost_pointer == Some(rightmost)
    &&& forall|i: int|
        0 <= i < cells.len() ==> starts_cell(#[trigger] cells[i], PageType::TableInterior, usable)
    &&& halves_fit(cells, usable)
}

/// The row id of the last cell of the left half of an interior page's cells.
pub open spec fn node_key(cells: Seq<Seq<u8>>, usable: int) -> int {
    cell_layout(cells[cells.len() as int / 2 - 1], PageType::TableInterior, usable).rowid
}

/// Splitting an interior page shares its entries: those of the left half but
/// the last one stay on the left page, and the child of the last one becomes
/// its right-most child. The right page gets the others and the right-most
/// child that the page had. The row id of the entry between them goes up to the
/// parent, with the number of the left page. Cells beside the two stay there.
pub proof fn node_split_shares_entries(c: CursorModel, rightmost: u32)
    requires
        shares_node(c, rightmost),
    ensures
        ({
            let usable = c.usable();
            let cells = c.scratch_cells;
            let half = cells.len() as int / 2;
            let middle = cell_layout(cells[half - 1], PageType::TableInterior, usable);
            &&& fill_ok(
                emptied(page_of(c.pages(), c.new_pages[0]), usable),
                cells.take(half - 1),
                usable,
            )
            &&& fill_ok(
                emptied(page_of(c.pages(), c.new_pages[1]), usable),
                cells.skip(half),
                usable,
            )
            &&& c.divider_head() is Some
            &&& c.divider_key() == node_key(cells, usable)
            &&& spread(c.left_after(), usable)
            &&& holds_entries(c.left_after(), cells.take(half - 1), middle.child, usable)
            &&& spread(c.right_after(), usable)
            &&& holds_entries(c.right_after(), cells.skip(half), rightmost as int, usable)
            &&& c.left_after().overflow_cells == page_of(
                c.pages(),
                c.new_pages[0],
            ).overflow_cells
            &&& c.right_after().overflow_cells == page_of(
                c.pages(),
                c.new_pages[1],
            ).overflow_cells
            &&& c.divider() == divider_cell(c.top().page as int, node_key(cells, usable))
        }),
{
    let t = PageType::TableInterior;
    let usable = c.usable();
    let cells = c.scratch_cells;
    let half = c.half();
    let size = c.header.page_size as int;
    let a = cells.take(half - 1);
    let b = cells.skip(half);
    let l = page_of(c.pages(), c.new_pages[0]);
    let r = page_of(c.pages(), c.new_pages[1]);
    lemma_emptied_tidy(l, usable, size);
    lemma_emptied_tidy(r, usable, size);
    assert forall|i: int| 0 <= i < a.len() implies starts_cell(#[trigger] a[i], t, usable) by {
        assert(a[i] == cells[i]);
    }
    assert forall|i: int| 0 <= i < b.len() implies starts_cell(#[trigger] b[i], t, usable) by {
        assert(b[i] == cells[half + i]);
    }
    assert(cells.take(half).drop_last() =~= a);
    fill_keeps_cells(emptied(l, usable), a, usable);
    fill_keeps_cells(emptied(r, usable), b, usable);
    assert(starts_cell(cells[half - 1], t, usable));
    lemma_node_filled(c.left_page(), a, c.divider_head().unwrap().child, usable);
    lemma_node_filled(c.right_page(), b, rightmost as int, usable);
}

/// An interior page that was filled with cells and given a right-most child.
proof fn lemma_node_filled(page: PageModel, cells: Seq<Seq<u8>>, rightmost: int, usable: int)
    requires
        usable_ok(usable),
        tidy(page, usable),
        page.page_type() == Some(PageType::TableInterior),
        0 <= rightmost <= u32::MAX,
        cells_on(page, usable) == all_trimmed(cells, PageType::TableInterior, usable),
        forall|i: int|
            0 <= i < cells.len() ==> starts_cell(
                #[trigger] cells[i],
                PageType::TableInterior,
                usable,
            ),
    ensures
        ({
            let after = page.with_u32(8, rightmost);
            &&& spread(after, usable)
            &&& holds_entries(after, cells, rightmost, usable)
            &&& after.overflow_cells == page.overflow_cells
        }),
{
    let t = PageType::TableInterior;
    let on = cells_on(page, usable);
    assert(page.cell_count() == on.len());
    assert(spread(page, usable)) by {
        assert forall|i: int| 0 <= i < page.cell_count() implies #[trigger] cell_stands(
            page,
            i,
            usable,
        ) by {
            assert(cell_inside(page, i, usable));
        }
    }
    lemma_rightmost_set(page, rightmost, usable);
    let after = page.with_u32(8, rightmost);
    assert forall|i: int| 0 <= i < cells.len() implies entry_in(
        after,
        i,
        #[trigger] cells[i],
        usable,
    ) by {
        lemma_entry_in(page, i, usable);
        assert(after.head(i, usable) == page.head(i, usable));
        assert(starts_cell(cells[i], t, usable));
        lemma_trimmed_layout(cells[i], t, usable);
        assert(on[i] == trimmed(cells[i], t, usable));
    }
}

} // verus!
