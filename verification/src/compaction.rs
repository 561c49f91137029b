//! What moving the cells of a page together leaves as it is, and what freeing
//! bytes makes of the list of free blocks.

use vstd::prelude::*;
use crate::balance::{cell_bytes, cells_on};
use crate::bytes::{be16, lemma_be16_put16, put16, splice, zeros};
use crate::cells::{
    apart, cell_inside, lemma_cell_bytes_layout, lemma_cell_head_bounds, lemma_cell_head_moved,
    shifted, tidy,
};
use crate::page::{usable_ok, PageModel, PageType};
use crate::space::{
    allocated, block_added, block_bytes, block_fits, block_stands, break_at, compacted,
    content_start, defragment_ok, defragmented, free_blocks, free_cell, free_space, free_start,
    free_total, freed, freed_bytes_are_listed, has_room, insert_ok, inserted, listed, movable,
    moved_len, moves_content, page_search_ends, place_of, pointers_end, probe, search_ok,
    search_stops, slot, source, taken, with_payload_copied, with_pointers_moved, Block,
};

verus! {

/// A table's leaf whose cells stand on it as a whole, behind their pointers.
pub open spec fn whole_cells(page: PageModel, usable: int) -> bool {
    &&& page.page_type() == Some(PageType::TableLeaf)
    &&& page.offset == 0
    &&& usable <= page.buf.len() <= u16::MAX
    &&& pointers_end(page) <= page.cell_content_area()
    &&& forall|i: int|
        0 <= i < page.cell_count() ==> {
            &&& (#[trigger] page.head(i, usable)) is Some
            &&& !page.head(i, usable).unwrap().spills
        }
}

/// A cell that stands on its page as a whole is taken along as a whole.
pub proof fn lemma_taken(page: PageModel, usable: int, i: int)
    requires
        usable_ok(usable),
        whole_cells(page, usable),
        0 <= i < page.cell_count(),
    ensures
        source(page, i) == page.cell_pointer(i),
        source(page, i) + taken(page, i) == page.head(i, usable).unwrap().end(),
        0 < taken(page, i),
        source(page, i) + taken(page, i) <= page.buf.len(),
{
    assert(page.head(i, usable) is Some);
    let p = page.cell_pointer(i);
    lemma_cell_head_bounds(page.buf, PageType::TableLeaf, p, usable);
}

/// The content area only grows while cells are moved.
pub proof fn lemma_break_descends(page: PageModel, usable: int, i: nat, j: nat)
    requires
        usable_ok(usable),
        whole_cells(page, usable),
        i <= j <= page.cell_count(),
    ensures
        break_at(page, usable, j) <= break_at(page, usable, i),
        i < j ==> break_at(page, usable, j) < break_at(page, usable, i),
    decreases j,
{
    if i < j {
        lemma_taken(page, usable, j - 1);
        lemma_break_descends(page, usable, i, (j - 1) as nat);
    }
}

/// Whether cell `j` of the page stands in `buf` where it was moved to.
spec fn moved_there(page: PageModel, usable: int, buf: Seq<u8>, j: int) -> bool {
    let to = break_at(page, usable, (j + 1) as nat);
    &&& be16(buf, slot(page, j)) == to
    &&& buf.subrange(to, to + taken(page, j)) == page.buf.subrange(
        source(page, j),
        source(page, j) + taken(page, j),
    )
}

/// The cells that were moved so far stand at the end of the page, and nothing
/// but their bytes and their pointers has changed.
proof fn lemma_compacted(page: PageModel, usable: int, i: nat)
    requires
        usable_ok(usable),
        whole_cells(page, usable),
        defragment_ok(page, usable),
        i <= page.cell_count(),
    ensures
        ({
            let buf = compacted(page, usable, i);
            &&& buf.len() == page.buf.len()
            &&& forall|k: int| 0 <= k < 8 ==> #[trigger] buf[k] == page.buf[k]
            &&& forall|j: int| 0 <= j < i ==> #[trigger] moved_there(page, usable, buf, j)
        }),
    decreases i,
{
    if i > 0 {
        let h = (i - 1) as nat;
        let was = compacted(page, usable, h);
        let buf = compacted(page, usable, i);
        let brk = break_at(page, usable, i);
        let from = source(page, h as int);
        let len = taken(page, h as int);
        let at = slot(page, h as int);
        let cell = page.buf.subrange(from, from + len);
        lemma_compacted(page, usable, h);
        lemma_taken(page, usable, h as int);
        lemma_break_descends(page, usable, 0, h);
        lemma_break_descends(page, usable, i, page.cell_count() as nat);
        assert(movable(page, usable, h as int));
        assert(brk >= pointers_end(page));
        assert(pointers_end(page) == 8 + 2 * page.cell_count());
        let mid = put16(was, at, brk);
        assert(buf == splice(mid, brk, cell));
        lemma_be16_put16(was, at, brk);
        assert(moved_there(page, usable, buf, h as int)) by {
            assert(buf[at] == mid[at] && buf[at + 1] == mid[at + 1]);
            assert(buf.subrange(brk, brk + len) =~= cell);
        }
        assert forall|j: int| 0 <= j < i implies #[trigger] moved_there(
            page,
            usable,
            buf,
            j,
        ) by {
            if j < h {
                assert(moved_there(page, usable, was, j));
                let to = break_at(page, usable, (j + 1) as nat);
                lemma_break_descends(page, usable, (j + 1) as nat, h);
                lemma_break_descends(page, usable, 0, j as nat);
                lemma_taken(page, usable, j);
                let s = slot(page, j);
                assert(buf[s] == was[s] && buf[s + 1] == was[s + 1]);
                assert forall|k: int| to <= k < to + taken(page, j) implies #[trigger] buf[k]
                    == was[k] by {}
                assert(buf.subrange(to, to + taken(page, j)) =~= was.subrange(
                    to,
                    to + taken(page, j),
                ));
            }
        }
    }
}

/// Moving the cells of a table's leaf together keeps every cell, in its place
/// among the others, and the page's type. Afterwards there is no free block,
/// and the content area is as long as the cells are together.
pub proof fn defragment_keeps_cells(page: PageModel, usable: int)
    requires
        usable_ok(usable),
        whole_cells(page, usable),
        defragment_ok(page, usable),
    ensures
        ({
            let after = defragmented(page, usable);
            &&& after.page_type() == page.page_type()
            &&& after.buf.len() == page.buf.len()
            &&& after.overflow_cells == page.overflow_cells
            &&& after.first_freeblock() == 0
            &&& after.num_frag_free_bytes() == page.num_frag_free_bytes()
            &&& after.cell_content_area() == break_at(page, usable, page.cell_count() as nat)
            &&& after.cell_count() == page.cell_count()
            &&& cells_on(after, usable) == cells_on(page, usable)
        }),
{
    let n = page.cell_count() as nat;
    let after = defragmented(page, usable);
    let area = page.cell_content_area();
    let brk = break_at(page, usable, n);
    let buf = compacted(page, usable, n);
    lemma_compacted(page, usable, n);
    lemma_break_descends(page, usable, 0, n);
    assert(brk >= pointers_end(page));
    assert(pointers_end(page) == 8 + 2 * n);
    let moved = put16(buf, 5, brk);
    let unlisted = splice(moved, 1, seq![0u8, 0u8]);
    lemma_be16_put16(buf, 5, brk);
    assert(after.buf == splice(unlisted, area, zeros((brk - area) as nat)));
    assert(after.buf[0] == page.buf[0]);
    assert(after.buf[1] == 0 && after.buf[2] == 0);
    assert(after.buf[3] == page.buf[3] && after.buf[4] == page.buf[4]);
    assert(after.buf[5] == moved[5] && after.buf[6] == moved[6]);
    assert(after.buf[7] == page.buf[7]);
    assert(after.page_type() == page.page_type());
    assert(after.cell_content_area() == brk);
    assert forall|j: int| 0 <= j < n implies #[trigger] cell_bytes(after, j, usable)
        == cell_bytes(page, j, usable) by {
        lemma_moved_cell(page, usable, j);
    }
    assert(cells_on(after, usable) =~= cells_on(page, usable)) by {
        assert forall|j: int| 0 <= j < n implies cells_on(after, usable)[j] == cells_on(
            page,
            usable,
        )[j] by {
            assert(cell_bytes(after, j, usable) == cell_bytes(page, j, usable));
        }
    }
}

/// Cell `j` after the cells were moved together.
pub proof fn lemma_moved_cell(page: PageModel, usable: int, j: int)
    requires
        usable_ok(usable),
        whole_cells(page, usable),
        defragment_ok(page, usable),
        0 <= j < page.cell_count(),
    ensures
        ({
            let after = defragmented(page, usable);
            &&& after.cell_pointer(j) == break_at(page, usable, (j + 1) as nat)
            &&& after.head(j, usable) is Some
            &&& after.head(j, usable).unwrap().end() == break_at(page, usable, j as nat)
            &&& cell_bytes(after, j, usable) == cell_bytes(page, j, usable)
        }),
{
    let n = page.cell_count() as nat;
    let after = defragmented(page, usable);
    let brk = break_at(page, usable, n);
    let buf = compacted(page, usable, n);
    let to = break_at(page, usable, (j + 1) as nat);
    let from = source(page, j);
    let len = taken(page, j);
    lemma_compacted(page, usable, n);
    lemma_taken(page, usable, j);
    lemma_break_descends(page, usable, (j + 1) as nat, n);
    lemma_break_descends(page, usable, 0, j as nat);
    assert(moved_there(page, usable, buf, j));
    assert(brk >= pointers_end(page));
    let s = slot(page, j);
    assert(after.buf[0] == page.buf[0]);
    assert(after.buf[s] == buf[s] && after.buf[s + 1] == buf[s + 1]);
    assert(after.cell_pointer(j) == to);
    assert forall|k: int| to <= k < to + len implies #[trigger] after.buf[k] == buf[k] by {}
    let there = buf.subrange(to, to + len);
    let here = page.buf.subrange(from, from + len);
    assert forall|k: int| 0 <= k < len implies #[trigger] page.buf[from + k] == after.buf[to
        + k] by {
        assert(there[k] == here[k]);
    }
    let t = PageType::TableLeaf;
    assert(page.head(j, usable) is Some);
    lemma_cell_head_moved(page.buf, from, after.buf, to, t, usable);
    assert(after.head(j, usable) == Some(shifted(page.head(j, usable).unwrap(), to - from)));
    assert(cell_bytes(after, j, usable) =~= cell_bytes(page, j, usable));
}

/// A table's leaf without fragments is tidy once its cells were moved together
/// and there is room behind them for the longer page header.
pub proof fn defragment_makes_tidy(page: PageModel, usable: int)
    requires
        usable_ok(usable),
        whole_cells(page, usable),
        defragment_ok(page, usable),
        page.num_frag_free_bytes() == 0,
        12 + 2 * page.cell_count() <= break_at(page, usable, page.cell_count() as nat),
    ensures
        tidy(defragmented(page, usable), usable),
{
    let n = page.cell_count() as nat;
    let after = defragmented(page, usable);
    defragment_keeps_cells(page, usable);
    lemma_break_descends(page, usable, 0, n);
    assert forall|j: int| 0 <= j < n implies #[trigger] cell_inside(after, j, usable) by {
        lemma_moved_cell(page, usable, j);
        lemma_break_descends(page, usable, (j + 1) as nat, n);
        lemma_break_descends(page, usable, 0, j as nat);
    }
    assert forall|i: int, j: int| 0 <= i < j < n implies #[trigger] apart(
        after,
        i,
        j,
        usable,
    ) by {
        lemma_moved_cell(page, usable, i);
        lemma_moved_cell(page, usable, j);
        lemma_break_descends(page, usable, (i + 1) as nat, j as nat);
    }
}

/// Moving cells together that have been moved together changes nothing. It can
/// be done again unless the first cell is too short to lie where a cell may.
pub proof fn defragment_again(page: PageModel, usable: int)
    requires
        usable_ok(usable),
        whole_cells(page, usable),
        defragment_ok(page, usable),
    ensures
        ({
            let after = defragmented(page, usable);
            &&& defragmented(after, usable) == after
            &&& page.cell_count() == 0 || cell_bytes(page, 0, usable).len() >= 4 ==> defragment_ok(
                after,
                usable,
            )
        }),
{
    let n = page.cell_count() as nat;
    let after = defragmented(page, usable);
    defragment_keeps_cells(page, usable);
    lemma_break_descends(page, usable, 0, n);
    let brk = break_at(page, usable, n);
    lemma_same_breaks(page, usable, n);
    lemma_compacted_again(page, usable, n);
    let moved = put16(after.buf, 5, brk);
    lemma_same16(after.buf, 5, brk);
    assert(moved =~= after.buf);
    assert(after.buf[1] == 0 && after.buf[2] == 0) by {
        assert(after.first_freeblock() == 0);
    }
    let unlisted = splice(moved, 1, seq![0u8, 0u8]);
    assert(unlisted =~= after.buf);
    assert(splice(unlisted, brk, zeros(0)) =~= after.buf);
    assert(defragmented(after, usable).buf == after.buf);
    if n == 0 || cell_bytes(page, 0, usable).len() >= 4 {
        assert forall|i: int| 0 <= i < n implies #[trigger] movable(after, usable, i) by {
            lemma_moved_again(page, usable, i);
            lemma_break_descends(page, usable, (i + 1) as nat, n);
            lemma_break_descends(page, usable, 1, (i + 1) as nat);
            lemma_break_descends(page, usable, 0, i as nat);
            lemma_same_breaks(page, usable, (i + 1) as nat);
            lemma_taken(page, usable, 0);
        }
    }
}

/// Writing two bytes that stand there already.
proof fn lemma_same16(s: Seq<u8>, at: int, v: int)
    requires
        0 <= at,
        at + 2 <= s.len(),
        be16(s, at) == v,
    ensures
        put16(s, at, v) == s,
{
    assert(put16(s, at, v) =~= s);
}

/// A cell that was moved takes as many bytes as before.
proof fn lemma_moved_again(page: PageModel, usable: int, j: int)
    requires
        usable_ok(usable),
        whole_cells(page, usable),
        defragment_ok(page, usable),
        0 <= j < page.cell_count(),
    ensures
        ({
            let after = defragmented(page, usable);
            &&& whole_cells(after, usable)
            &&& source(after, j) == break_at(page, usable, (j + 1) as nat)
            &&& taken(after, j) == taken(page, j)
            &&& moved_len(after.buf, after.kind(), source(after, j)) is Some
            &&& slot(after, j) == slot(page, j)
            &&& slot(after, j) + 2 <= pointers_end(after)
            &&& pointers_end(after) == pointers_end(page)
        }),
{
    let after = defragmented(page, usable);
    defragment_keeps_cells(page, usable);
    lemma_break_descends(page, usable, 0, page.cell_count() as nat);
    assert forall|i: int| 0 <= i < after.cell_count() implies {
        &&& (#[trigger] after.head(i, usable)) is Some
        &&& !after.head(i, usable).unwrap().spills
    } by {
        lemma_moved_cell(page, usable, i);
        assert(page.head(i, usable) is Some);
        lemma_cell_bytes_layout(page, i, usable);
        lemma_cell_bytes_layout(after, i, usable);
    }
    lemma_moved_cell(page, usable, j);
    lemma_taken(page, usable, j);
    lemma_taken(after, usable, j);
    assert(break_at(page, usable, (j + 1) as nat) == break_at(page, usable, j as nat) - taken(
        page,
        j,
    ));
}

/// Cells that were moved together come to the same places again.
proof fn lemma_same_breaks(page: PageModel, usable: int, i: nat)
    requires
        usable_ok(usable),
        whole_cells(page, usable),
        defragment_ok(page, usable),
        i <= page.cell_count(),
    ensures
        break_at(defragmented(page, usable), usable, i) == break_at(page, usable, i),
    decreases i,
{
    if i > 0 {
        lemma_same_breaks(page, usable, (i - 1) as nat);
        lemma_moved_again(page, usable, i - 1);
    }
}

/// Cells that were moved together leave the bytes as they are when moved again.
proof fn lemma_compacted_again(page: PageModel, usable: int, i: nat)
    requires
        usable_ok(usable),
        whole_cells(page, usable),
        defragment_ok(page, usable),
        i <= page.cell_count(),
    ensures
        compacted(defragmented(page, usable), usable, i) == defragmented(page, usable).buf,
    decreases i,
{
    if i > 0 {
        let after = defragmented(page, usable);
        let brk = break_at(after, usable, i);
        lemma_compacted_again(page, usable, (i - 1) as nat);
        lemma_moved_again(page, usable, i - 1);
        lemma_same_breaks(page, usable, i);
        lemma_break_descends(page, usable, i, page.cell_count() as nat);
        lemma_taken(after, usable, i - 1);
        lemma_same16(after.buf, slot(after, i - 1), brk);
        assert(splice(
            after.buf,
            brk,
            after.buf.subrange(brk, brk + taken(after, i - 1)),
        ) =~= after.buf);
    }
}

/// Whether a page's cells and free blocks make up all of its content area.
pub open spec fn accounted(page: PageModel, usable: int) -> bool {
    let n = page.cell_count() as nat;
    &&& page.num_frag_free_bytes() == 0
    &&& break_at(page, usable, n) == content_start(page) + if page.first_freeblock() > 0 {
        block_bytes(page.buf, page.first_freeblock())
    } else {
        0
    }
}

/// Moving the cells of a page together, whose cells and free blocks make up its
/// content area, keeps the number of its free bytes.
pub proof fn defragment_keeps_free_bytes(page: PageModel, usable: int)
    requires
        usable_ok(usable),
        whole_cells(page, usable),
        defragment_ok(page, usable),
        accounted(page, usable),
    ensures
        free_space(defragmented(page, usable)) == free_space(page),
        accounted(defragmented(page, usable), usable),
{
    let n = page.cell_count() as nat;
    defragment_keeps_cells(page, usable);
    lemma_same_breaks(page, usable, n);
    lemma_break_descends(page, usable, 0, n);
}

/// Putting a cell on a page that has room for it, and neither free blocks nor
/// fragments, takes the bytes of the cell and two for its pointer off the free
/// ones.
pub proof fn insert_takes_free_bytes(
    page: PageModel,
    payload: Seq<u8>,
    idx: int,
    usable: int,
    page_size: int,
)
    requires
        page.sized(page_size),
        page.offset + 14 + 2 * page.cell_count() < 65536,
        page.first_freeblock() == 0,
        page.num_frag_free_bytes() == 0,
        page.cell_content_area() > 0,
        has_room(page, payload),
        insert_ok(page, payload, idx, usable),
    ensures
        free_space(inserted(page, payload, idx, usable)) == free_space(page) - payload.len() - 2,
{
    lemma_insert_needs(page, payload, idx, usable, page_size);
    lemma_bytes_taken(page, payload, idx, usable);
    lemma_plain_free(page);
    lemma_plain_free(inserted(page, payload, idx, usable));
}

/// What inserting a cell on a page without free blocks asks for.
proof fn lemma_insert_needs(
    page: PageModel,
    payload: Seq<u8>,
    idx: int,
    usable: int,
    page_size: int,
)
    requires
        page.sized(page_size),
        page.offset + 14 + 2 * page.cell_count() < 65536,
        page.first_freeblock() == 0,
        page.num_frag_free_bytes() == 0,
        page.cell_content_area() > 0,
        has_room(page, payload),
        insert_ok(page, payload, idx, usable),
    ensures
        pointers_end(page) + 2 + payload.len() <= page.cell_content_area() <= page.buf.len(),
        0 <= idx <= page.cell_count(),
        page.offset + page.pointers_at() + 2 * idx + 2 <= page.buf.len(),
        page.offset + 14 + 2 * page.cell_count() + payload.len() <= page.cell_content_area(),
{
    assert(free_total(page) == page.cell_content_area());
    assert(free_start(page) == page.offset + 12 + 2 * page.cell_count());
    assert(pointers_end(page) + 2 + payload.len() <= page.cell_content_area());
    let room = allocated(page, payload.len() as int, usable);
    assert(room.at == page.cell_content_area() - payload.len());
    lemma_copied_header(page, payload, usable);
}

/// The header of a page on which a cell was put below the content area.
proof fn lemma_bytes_taken(page: PageModel, payload: Seq<u8>, idx: int, usable: int)
    requires
        page.offset == 0 || page.offset >= 8,
        page.offset + 14 + 2 * page.cell_count() < 65536,
        page.first_freeblock() == 0,
        page.num_frag_free_bytes() == 0,
        has_room(page, payload),
        pointers_end(page) + 2 + payload.len() <= page.cell_content_area() <= page.buf.len(),
        0 <= idx <= page.cell_count(),
        page.offset + page.pointers_at() + 2 * idx + 2 <= page.buf.len(),
    ensures
        ({
            let after = inserted(page, payload, idx, usable);
            &&& after.offset == page.offset
            &&& after.cell_count() == page.cell_count() + 1
            &&& after.cell_content_area() == page.cell_content_area() - payload.len()
            &&& after.first_freeblock() == 0
            &&& after.num_frag_free_bytes() == 0
        }),
{
    let top = page.cell_content_area() - payload.len();
    let copied = with_payload_copied(page, payload, usable);
    lemma_copied_header(page, payload, usable);
    assert(copied.pointers_at() == page.pointers_at());
    lemma_pointed_header(copied, idx, top);
    let moved = with_pointers_moved(copied, idx);
    let b = moved.with_u16(copied.pointers_at() + 2 * idx, top).with_u16(5, top);
    lemma_counted_header(b);
    assert(inserted(page, payload, idx, usable) == b.with_u16(3, (b.cell_count() + 1) % 65536));
}

/// The free bytes of a page without free blocks and fragments.
proof fn lemma_plain_free(page: PageModel)
    requires
        0 <= page.offset,
        page.offset + 12 + 2 * page.cell_count() <= page.cell_content_area(),
        page.first_freeblock() == 0,
        page.num_frag_free_bytes() == 0,
    ensures
        free_space(page) == page.cell_content_area() - page.offset - 12 - 2 * page.cell_count(),
{
    assert(free_total(page) == page.cell_content_area());
}

/// Whether two pages have the same header but for the start of the content area
/// and the right-most child.
spec fn same_header(a: PageModel, b: PageModel) -> bool {
    &&& a.offset == b.offset
    &&& a.buf.len() == b.buf.len()
    &&& a.kind() == b.kind()
    &&& a.cell_count() == b.cell_count()
    &&& a.first_freeblock() == b.first_freeblock()
    &&& a.num_frag_free_bytes() == b.num_frag_free_bytes()
}

/// Copying a cell below the content area keeps the header.
proof fn lemma_copied_header(page: PageModel, payload: Seq<u8>, usable: int)
    requires
        page.offset == 0 || page.offset >= 8,
        page.first_freeblock() == 0,
        pointers_end(page) + 2 + payload.len() <= page.cell_content_area() <= page.buf.len(),
    ensures
        ({
            let len = payload.len() as int;
            &&& same_header(page, with_payload_copied(page, payload, usable))
            &&& allocated(page, len, usable).at == page.cell_content_area() - len
        }),
{
    let len = payload.len() as int;
    let top = page.cell_content_area() - len;
    let o = page.offset;
    let b = put16(page.buf, 5, top);
    let c = splice(b, top, payload);
    let copied = with_payload_copied(page, payload, usable);
    assert(copied.buf == c);
    assert(c[o] == page.buf[o] && c[o + 1] == page.buf[o + 1] && c[o + 2] == page.buf[o + 2]);
    assert(c[o + 3] == page.buf[o + 3] && c[o + 4] == page.buf[o + 4]);
    assert(c[o + 7] == page.buf[o + 7]);
}

/// Moving the pointers of a page and writing one keeps the header.
proof fn lemma_pointed_header(page: PageModel, idx: int, top: int)
    requires
        0 <= page.offset,
        page.offset + 8 <= page.buf.len(),
        0 <= idx <= page.cell_count(),
        0 <= top < 65536,
        pointers_end(page) + 2 <= page.buf.len(),
        page.offset + page.pointers_at() + 2 * idx + 2 <= page.buf.len(),
    ensures
        ({
            let moved = with_pointers_moved(page, idx);
            let b = moved.with_u16(page.pointers_at() + 2 * idx, top).with_u16(5, top);
            &&& same_header(page, b)
            &&& b.cell_content_area() == top
        }),
{
    let o = page.offset;
    let at = page.pointers_at() + 2 * idx;
    let moved = with_pointers_moved(page, idx);
    let a = moved.with_u16(at, top);
    let b = a.with_u16(5, top);
    assert(moved.buf.len() == page.buf.len());
    assert forall|k: int| o <= k < o + 8 implies #[trigger] a.buf[k] == page.buf[k] by {
        assert(moved.buf[k] == page.buf[k]);
    }
    lemma_be16_put16(a.buf, o + 5, top);
    let c = b.buf;
    assert(c[o] == page.buf[o] && c[o + 1] == page.buf[o + 1] && c[o + 2] == page.buf[o + 2]);
    assert(c[o + 3] == page.buf[o + 3] && c[o + 4] == page.buf[o + 4]);
    assert(c[o + 7] == page.buf[o + 7]);
}

/// Counting one cell more keeps the rest of the header.
proof fn lemma_counted_header(page: PageModel)
    requires
        0 <= page.offset,
        page.offset + 8 <= page.buf.len(),
        page.cell_count() + 1 < 65536,
    ensures
        ({
            let after = page.with_u16(3, (page.cell_count() + 1) % 65536);
            &&& after.offset == page.offset
            &&& after.cell_count() == page.cell_count() + 1
            &&& after.cell_content_area() == page.cell_content_area()
            &&& after.first_freeblock() == page.first_freeblock()
            &&& after.num_frag_free_bytes() == page.num_frag_free_bytes()
        }),
{
    let o = page.offset;
    let v = (page.cell_count() + 1) % 65536;
    let c = page.with_u16(3, v).buf;
    lemma_be16_put16(page.buf, o + 3, v);
    assert(c[o + 1] == page.buf[o + 1] && c[o + 2] == page.buf[o + 2]);
    assert(c[o + 5] == page.buf[o + 5] && c[o + 6] == page.buf[o + 6]);
    assert(c[o + 7] == page.buf[o + 7]);
}

/// The first block from `i` on that has `amount` bytes, or the number of blocks.
pub open spec fn first_fit(b: Seq<Block>, amount: int, i: int) -> int
    decreases b.len() - i,
{
    if i >= b.len() || amount <= b[i].size {
        i
    } else {
        first_fit(b, amount, i + 1)
    }
}

/// The first block that has so many bytes: none before it has as many, and one
/// that has as many does not come before it.
pub proof fn lemma_first_fit(b: Seq<Block>, amount: int, i: int)
    requires
        0 <= i <= b.len(),
    ensures
        ({
            let j = first_fit(b, amount, i);
            &&& i <= j <= b.len()
            &&& forall|k: int| i <= k < j ==> (#[trigger] b[k]).size < amount
            &&& j < b.len() ==> amount <= b[j].size
        }),
    decreases b.len() - i,
{
    if i < b.len() && b[i].size < amount {
        lemma_first_fit(b, amount, i + 1);
    }
}

/// A search for free bytes finds the first block of the list that has as many,
/// if one has.
pub proof fn search_finds_first_fit(page: PageModel, b: Seq<Block>, amount: int, usable: int)
    requires
        page.offset == 0,
        listed(page, b, usable),
        0 <= amount <= usable,
        usable <= u16::MAX,
        first_fit(b, amount, 0) < b.len(),
    ensures
        search_ok(page, amount, usable),
        free_cell(page, amount, usable) == b[first_fit(b, amount, 0)].start,
{
    let j = first_fit(b, amount, 0);
    let first = page.first_freeblock();
    let limit = usable - amount;
    lemma_first_fit(b, amount, 0);
    assert forall|m: nat| m <= j implies {
        &&& #[trigger] probe(page.buf, first, m) == b[m as int].start
        &&& b[m as int].start <= limit
        &&& b[m as int].start + 4 <= page.buf.len()
        &&& search_stops(page.buf, first, limit, amount, m) == (m == j)
    } by {
        lemma_probe(page, b, usable, m);
        assert(b[m as int].start + b[m as int].size <= usable);
        assert(b[j].start + b[j].size <= usable);
        if m < j {
            assert(b[m as int].start + b[m as int].size <= b[j].start);
        }
    }
    assert forall|m: nat| m < j implies !#[trigger] search_stops(
        page.buf,
        first,
        limit,
        amount,
        m,
    ) by {
        assert(probe(page.buf, first, m) == b[m as int].start);
    }
    assert(probe(page.buf, first, j as nat) == b[j].start);
    assert(page_search_ends(page, amount, usable, j as nat));
    let n = choose|n: nat| page_search_ends(page, amount, usable, n);
    assert(n == j) by {
        if n > j {
            assert(!search_stops(page.buf, first, limit, amount, j as nat));
        } else if n < j {
            assert(!search_stops(page.buf, first, limit, amount, n));
        }
    }
}

/// The numbers in a list of free blocks are those of its blocks.
proof fn lemma_probe(page: PageModel, b: Seq<Block>, usable: int, m: nat)
    requires
        page.offset == 0,
        listed(page, b, usable),
        m < b.len(),
    ensures
        probe(page.buf, page.first_freeblock(), m) == b[m as int].start,
        be16(page.buf, b[m as int].start + 2) == b[m as int].size,
    decreases m,
{
    assert(block_stands(page, b, m as int));
    if m > 0 {
        lemma_probe(page, b, usable, (m - 1) as nat);
        assert(block_stands(page, b, m - 1));
    }
}

/// Bytes that were freed are found again: a search for as many bytes or fewer
/// finds a block, the first of the list that has as many.
pub proof fn freed_bytes_are_found(
    page: PageModel,
    offset: int,
    len: int,
    amount: int,
    usable: int,
)
    requires
        page.offset == 0,
        page.buf.len() >= 8,
        listed(page, free_blocks(page), usable),
        block_fits(page, free_blocks(page), offset, len, usable),
        !moves_content(page, offset),
        0 <= amount <= len,
    ensures
        ({
            let after = freed(page, offset, len, usable);
            let b = free_blocks(after);
            let j = first_fit(b, amount, 0);
            &&& block_added(page, after, offset, len, usable)
            &&& search_ok(after, amount, usable)
            &&& 0 <= j < b.len()
            &&& b[j].start <= offset
            &&& amount <= b[j].size
            &&& free_cell(after, amount, usable) == b[j].start
        }),
{
    let after = freed(page, offset, len, usable);
    let n = place_of(free_blocks(page), offset, 0);
    freed_bytes_are_listed(page, offset, len, usable);
    let b = free_blocks(after);
    lemma_first_fit(b, amount, 0);
    let j = first_fit(b, amount, 0);
    assert(b[n] == Block { start: offset, size: len });
    assert(j <= n) by {
        if j > n {
            assert(b[n].size < amount);
        }
    }
    if j < n {
        assert(b[j].start + b[j].size <= b[n].start);
    }
    search_finds_first_fit(after, b, amount, usable);
}

} // verus!
