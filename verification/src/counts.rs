//! How many bytes of a page are free, and what becomes of a cell without room.

use vstd::prelude::*;
use crate::balance::{cell_bytes, cells_on};
use crate::bytes::{be16, lemma_be16_put16};
use crate::cells::lemma_with_cell_at;
use crate::compaction::{
    defragment_keeps_cells, first_fit, lemma_break_descends, lemma_taken, search_finds_first_fit,
    whole_cells,
};
use crate::formats::{
    number_at, only_written, page_headers_are_read, page_numbers_are_written, stands,
};
use crate::numerals::short_numbers_are_read;
use crate::page::{usable_ok, OverflowModel, PageModel};
use crate::rooms::{lemma_put_in_room, lemma_room_made, takes};
use crate::space::{
    allocated, block_added, block_bytes, block_fits, blocks_inside, break_at, defragment_ok,
    defragmented, drop_ok, dropped, free_blocks, free_space, free_space_ok, freed,
    freed_bytes_are_listed, has_room, insert_ok, inserted, last_block, listed, with_payload_copied,
    with_pointers_moved, Block,
};

verus! {

/// Whether block `i` stands in the bytes: the start of the next one, 0 for none, and
/// its size, two bytes each. The blocks lie apart, with four bytes at least in between.
pub open spec fn names_block(buf: Seq<u8>, b: Seq<Block>, i: int) -> bool {
    &&& 0 < b[i].start
    &&& b[i].start + 4 <= buf.len()
    &&& number_at(buf, b[i].start + 2, 2) == b[i].size
    &&& if i + 1 < b.len() {
        &&& number_at(buf, b[i].start, 2) == b[i + 1].start
        &&& b[i].start + b[i].size + 4 <= b[i + 1].start
    } else {
        number_at(buf, b[i].start, 2) == 0
    }
}

/// Whether the list of free blocks of a page is `b`.
pub open spec fn names_blocks(page: PageModel, b: Seq<Block>) -> bool {
    &&& number_at(page.buf, page.offset + 1, 2) == if b.len() > 0 {
        b[0].start
    } else {
        0
    }
    &&& forall|i: int| 0 <= i < b.len() ==> #[trigger] names_block(page.buf, b, i)
}

/// The bytes of the blocks together.
pub open spec fn bytes_of(b: Seq<Block>) -> int
    decreases b.len(),
{
    if b.len() == 0 {
        0
    } else {
        b[0].size + bytes_of(b.drop_first())
    }
}

/// The free bytes of a page with the free blocks `b`: its fragments, those blocks,
/// and what lies between the cell pointers, behind a header of twelve bytes, and the
/// content area. A content area that starts at 0 starts at the end of the largest
/// page.
pub open spec fn counted_free(page: PageModel, b: Seq<Block>) -> int {
    let content = number_at(page.buf, page.offset + 5, 2);
    page.buf[page.offset + 7] + bytes_of(b) + (if content == 0 {
        65535
    } else {
        content
    }) - (page.offset + 12 + 2 * number_at(page.buf, page.offset + 3, 2))
}

proof fn lemma_blocks_counted(buf: Seq<u8>, b: Seq<Block>)
    requires
        buf.len() <= 65535,
        b.len() > 0,
        forall|i: int| 0 <= i < b.len() ==> #[trigger] names_block(buf, b, i),
    ensures
        block_bytes(buf, b[0].start) == bytes_of(b),
        blocks_inside(buf, b[0].start),
        last_block(buf, b[0].start) == b[b.len() - 1].start,
    decreases b.len(),
{
    assert(names_block(buf, b, 0));
    short_numbers_are_read(buf, b[0].start);
    short_numbers_are_read(buf, b[0].start + 2);
    let c = b.drop_first();
    if c.len() > 0 {
        assert forall|i: int| 0 <= i < c.len() implies #[trigger] names_block(buf, c, i) by {
            assert(names_block(buf, b, i + 1));
        }
        lemma_blocks_counted(buf, c);
        assert(c[0] == b[1]);
    } else {
        assert(crate::numerals::digits_value(buf.subrange(b[0].start + 2, b[0].start + 4))
            == b[0].size);
        assert(bytes_of(c) == 0);
    }
}

/// The free bytes of a page are counted so, if they are fewer than the largest page
/// has.
pub proof fn free_bytes_are_counted(page: PageModel, b: Seq<Block>, payload: Seq<u8>)
    requires
        0 <= page.offset,
        page.offset + 12 <= page.buf.len() <= 65535,
        names_blocks(page, b),
        page.offset + 12 + 2 * number_at(page.buf, page.offset + 3, 2) <= 65535,
        0 <= counted_free(page, b) <= 65535,
    ensures
        free_space(page) == counted_free(page, b),
        has_room(page, payload) <==> payload.len() + 2 <= counted_free(page, b),
{
    page_headers_are_read(page, 0);
    if b.len() > 0 {
        assert(names_block(page.buf, b, 0));
        lemma_blocks_counted(page.buf, b);
    }
}

/// The free bytes of a page can be told if its blocks start inside the content area and
/// end inside the usable bytes.
pub proof fn free_bytes_can_be_told(page: PageModel, b: Seq<Block>, usable: int)
    requires
        0 <= page.offset,
        page.offset + 12 <= page.buf.len() <= 65535,
        names_blocks(page, b),
        page.offset + 12 + 2 * number_at(page.buf, page.offset + 3, 2) <= 65535,
        0 <= counted_free(page, b),
        number_at(page.buf, page.offset + 5, 2) > 0,
        b.len() > 0 ==> {
            &&& b[0].start >= number_at(page.buf, page.offset + 5, 2)
            &&& b[b.len() - 1].start + b[b.len() - 1].size <= usable
        },
    ensures
        free_space_ok(page, usable),
{
    page_headers_are_read(page, 0);
    if b.len() > 0 {
        let n = b.len() - 1;
        assert(names_block(page.buf, b, 0));
        assert(names_block(page.buf, b, n));
        lemma_blocks_counted(page.buf, b);
        short_numbers_are_read(page.buf, b[n].start);
        short_numbers_are_read(page.buf, b[n].start + 2);
    }
}

/// A cell that is longer than the free bytes, less two for its pointer, is put beside
/// the page with its place among the cells, and nothing else changes. For a shorter one
/// nothing is put there.
pub proof fn cells_without_room_stand_beside(
    page: PageModel,
    b: Seq<Block>,
    payload: Seq<u8>,
    idx: int,
    usable: int,
)
    requires
        0 <= page.offset,
        page.offset + 12 <= page.buf.len() <= 65535,
        names_blocks(page, b),
        page.offset + 12 + 2 * number_at(page.buf, page.offset + 3, 2) <= 65535,
        0 <= counted_free(page, b) <= 65535,
    ensures
        payload.len() + 2 > counted_free(page, b) ==> inserted(page, payload, idx, usable) == (
        PageModel {
            offset: page.offset,
            buf: page.buf,
            overflow_cells: page.overflow_cells.push(OverflowModel { index: idx, payload }),
        }),
        payload.len() + 2 <= counted_free(page, b) ==> inserted(
            page,
            payload,
            idx,
            usable,
        ).overflow_cells == page.overflow_cells,
{
    free_bytes_are_counted(page, b, payload);
}

/// The lengths of the cells together.
pub open spec fn lengths(cells: Seq<Seq<u8>>) -> int
    decreases cells.len(),
{
    if cells.len() == 0 {
        0
    } else {
        lengths(cells.drop_last()) + cells.last().len()
    }
}

proof fn lemma_break_is(page: PageModel, usable: int, i: nat)
    requires
        usable_ok(usable),
        whole_cells(page, usable),
        i <= page.cell_count(),
    ensures
        break_at(page, usable, i) == usable - lengths(cells_on(page, usable).take(i as int)),
    decreases i,
{
    let cells = cells_on(page, usable);
    let c = cells.take(i as int);
    if i > 0 {
        lemma_break_is(page, usable, (i - 1) as nat);
        lemma_taken(page, usable, i - 1);
        assert(c.drop_last() =~= cells.take(i - 1));
        assert(c.last() == cell_bytes(page, i - 1, usable));
    }
}

/// Moving the cells of a page together puts them at the end of the usable bytes, one
/// next to the other, zeroes the bytes of the content area in front of them, and
/// leaves no free block.
#[verifier::spinoff_prover]
#[verifier::rlimit(40)]
pub proof fn moved_cells_lie_together(page: PageModel, usable: int)
    requires
        usable_ok(usable),
        whole_cells(page, usable),
        defragment_ok(page, usable),
    ensures
        ({
            let after = defragmented(page, usable);
            &&& number_at(after.buf, 1, 2) == 0
            &&& number_at(after.buf, 5, 2) == usable - lengths(cells_on(page, usable))
            &&& forall|k: int|
                number_at(page.buf, 5, 2) <= k < number_at(after.buf, 5, 2)
                    ==> #[trigger] after.buf[k] == 0
        }),
{
    let after = defragmented(page, usable);
    let n = page.cell_count() as nat;
    defragment_keeps_cells(page, usable);
    lemma_break_is(page, usable, n);
    assert(cells_on(page, usable).take(n as int) =~= cells_on(page, usable));
    lemma_break_descends(page, usable, 0, n);
    page_headers_are_read(page, 0);
    page_headers_are_read(after, 0);
}

/// Where the cell pointers of a page end.
pub open spec fn pointers_stop(page: PageModel) -> int {
    let code = page.buf[page.offset];
    page.offset + 2 * number_at(page.buf, page.offset + 3, 2) + (if code == 2 || code == 5 {
        12int
    } else {
        8int
    })
}

/// The first block of a list, in which so many bytes lie.
pub open spec fn is_first_fit(b: Seq<Block>, amount: int, j: int) -> bool {
    &&& 0 <= j < b.len()
    &&& amount <= b[j].size
    &&& forall|i: int| 0 <= i < j ==> amount > (#[trigger] b[i]).size
}

proof fn lemma_is_first_fit(b: Seq<Block>, amount: int, i: int, j: int)
    requires
        0 <= i <= j,
        is_first_fit(b, amount, j),
    ensures
        first_fit(b, amount, i) == j,
    decreases j - i,
{
    if i < j {
        assert(amount > b[i].size);
        lemma_is_first_fit(b, amount, i + 1, j);
    }
}

/// A cell that a page takes is put into the first free block that is large enough, if
/// there is room for one more cell pointer. On a page without free blocks it is put
/// directly in front of the content area; where it would meet the cell pointers, in
/// front of the cells once they were moved together. The content area then starts
/// with it, and its pointer is put before those of the cells behind it.
#[verifier::spinoff_prover]
#[verifier::rlimit(40)]
pub proof fn new_cells_are_put(
    page: PageModel,
    payload: Seq<u8>,
    idx: int,
    usable: int,
    b: Seq<Block>,
    j: int,
)
    requires
        usable_ok(usable),
        takes(page, payload, usable),
        0 <= idx <= page.cell_count(),
        page.offset == 0,
        listed(page, b, usable),
    ensures
        ({
            let after = inserted(page, payload, idx, usable);
            let len = payload.len() as int;
            let content = number_at(page.buf, 5, 2);
            let slot = pointers_stop(page) - 2 * (page.cell_count() - idx);
            let at = number_at(after.buf, slot, 2);
            &&& after.offset == 0
            &&& after.buf.len() == page.buf.len()
            &&& stands(after.buf, at, payload)
            &&& number_at(after.buf, 3, 2) == number_at(page.buf, 3, 2) + 1
            &&& number_at(after.buf, 5, 2) == at
            &&& is_first_fit(b, len, j) && pointers_stop(page) + 2 <= content ==> at == b[j].start
            &&& b.len() == 0 && pointers_stop(page) + 2 + len <= content ==> at == content - len
            &&& b.len() == 0 && pointers_stop(page) + 2 + len > content ==> at == usable - lengths(
                cells_on(page, usable),
            ) - len
        }),
{
    let len = payload.len() as int;
    let n = page.cell_count();
    let a = page.pointers_at();
    let room = allocated(page, len, usable);
    let after = inserted(page, payload, idx, usable);
    lemma_room_made(page, payload, usable);
    lemma_put_in_room(page, payload, idx, usable);
    lemma_with_cell_at(room.page.buf, a, n, idx, room.at, payload);
    page_headers_are_read(page, 0);
    short_numbers_are_read(after.buf, 3);
    short_numbers_are_read(after.buf, 5);
    short_numbers_are_read(after.buf, a + 2 * idx);
    assert(after.buf.subrange(room.at, room.at + len) =~= payload);
    if is_first_fit(b, len, j) && pointers_stop(page) + 2 <= page.cell_content_area() {
        lemma_is_first_fit(b, len, 0, j);
        search_finds_first_fit(page, b, len, usable);
        assert(8 <= b[0].start);
    }
    if b.len() == 0 && pointers_stop(page) + 2 + len > page.cell_content_area() {
        moved_cells_lie_together(page, usable);
        short_numbers_are_read(defragmented(page, usable).buf, 5);
    }
}

/// On the first page of a file, whose header starts behind the file header, a cell is put
/// directly in front of the content area too. Its pointer, and the start of the
/// content area, are written so far behind their places as the page header lies behind the
/// start of the page, the latter once more where it stands on other pages.
#[verifier::spinoff_prover]
#[verifier::rlimit(40)]
pub proof fn new_cells_are_put_on_first_pages(
    page: PageModel,
    payload: Seq<u8>,
    idx: int,
    usable: int,
)
    requires
        page.offset == 0 || page.offset == 100,
        page.offset + 12 <= page.buf.len() <= 65535,
        page.page_type() is Some,
        0 <= idx <= page.cell_count(),
        page.cell_count() < 65535,
        has_room(page, payload),
        insert_ok(page, payload, idx, usable),
        number_at(page.buf, page.offset + 1, 2) == 0,
        pointers_stop(page) + 2 + payload.len() <= number_at(page.buf, page.offset + 5, 2),
        number_at(page.buf, page.offset + 5, 2) <= page.buf.len(),
    ensures
        ({
            let after = inserted(page, payload, idx, usable);
            let o = page.offset;
            let at = number_at(page.buf, o + 5, 2) - payload.len();
            let slot = pointers_stop(page) - 2 * (page.cell_count() - idx);
            &&& after.offset == o
            &&& after.buf.len() == page.buf.len()
            &&& number_at(after.buf, o + slot, 2) == at
            &&& number_at(after.buf, o + 5, 2) == at
            &&& number_at(after.buf, 5, 2) == at
            &&& number_at(after.buf, o + 3, 2) == number_at(page.buf, o + 3, 2) + 1
        }),
{
    let len = payload.len() as int;
    let o = page.offset;
    page_headers_are_read(page, 0);
    let room = allocated(page, len, usable);
    let pc = page.cell_content_area() - len;
    assert(room.at == pc);
    let copied = with_payload_copied(page, payload, usable);
    assert(copied.buf[o] == page.buf[o]);
    assert(copied.page_type() == page.page_type());
    assert(copied.cell_count() == page.cell_count());
    let slot = copied.pointers_at() + 2 * idx;
    let moved = with_pointers_moved(copied, idx);
    let a = moved.with_u16(slot, pc);
    let b = a.with_u16(5, pc);
    assert(b.cell_count() == page.cell_count());
    let after = b.with_u16(3, page.cell_count() + 1);
    assert(after == inserted(page, payload, idx, usable));
    lemma_be16_put16(moved.buf, o + slot, pc);
    lemma_be16_put16(a.buf, o + 5, pc);
    lemma_be16_put16(b.buf, o + 3, page.cell_count() + 1);
    lemma_be16_put16(page.buf, 5, pc);
    assert(be16(after.buf, o + slot) == pc);
    assert(be16(after.buf, o + 5) == pc);
    assert(be16(after.buf, 5) == pc);
    short_numbers_are_read(after.buf, o + slot);
    short_numbers_are_read(after.buf, o + 5);
    short_numbers_are_read(after.buf, o + 3);
    short_numbers_are_read(after.buf, 5);
}

/// Bytes that are freed become a block in the list of free blocks. Those that lie
/// behind the first block, and not behind the start of the content area, become none:
/// the content area starts behind them then.
pub proof fn freed_bytes_are_linked(page: PageModel, offset: int, len: int, usable: int)
    requires
        page.offset >= 0,
        page.offset + 12 <= page.buf.len(),
        listed(page, free_blocks(page), usable),
        block_fits(page, free_blocks(page), offset, len, usable),
    ensures
        ({
            let first = number_at(page.buf, page.offset + 1, 2);
            let content = number_at(page.buf, page.offset + 5, 2);
            let after = freed(page, offset, len, usable);
            if first != 0 && first <= offset <= content {
                only_written(page, after, 5, 2, offset + len)
            } else {
                block_added(page, after, offset, len, usable)
            }
        }),
{
    let first = page.first_freeblock();
    page_headers_are_read(page, 0);
    if first != 0 && first <= offset <= page.cell_content_area() {
        let same = page.with_u16(1, first);
        page_numbers_are_written(page, 1, first);
        lemma_written_same(page, first);
        page_numbers_are_written(same, 5, offset + len);
    } else {
        freed_bytes_are_listed(page, offset, len, usable);
    }
}

/// Writing a number that is there changes nothing.
proof fn lemma_written_same(page: PageModel, first: int)
    requires
        page.offset >= 0,
        page.offset + 12 <= page.buf.len(),
        first == page.first_freeblock(),
    ensures
        page.with_u16(1, first) == page,
{
    assert(page.with_u16(1, first).buf =~= page.buf);
}

/// Dropping a cell frees its bytes and takes one off the number of cells. Its pointer
/// counts as the last one.
pub proof fn dropped_cells_are_freed(page: PageModel, idx: int, usable: int)
    requires
        page.offset >= 0,
        page.offset + 12 <= page.buf.len(),
        drop_ok(page, idx, usable),
    ensures
        ({
            let start = page.cell_pointer(idx);
            let free = freed(page, start, cell_bytes(page, idx, usable).len() as int, usable);
            page.head(idx, usable).unwrap().end() <= page.buf.len() && start <= page.head(
                idx,
                usable,
            ).unwrap().end() ==> only_written(
                free,
                dropped(page, idx, usable),
                3,
                2,
                number_at(free.buf, page.offset + 3, 2) - 1,
            )
        }),
{
    let start = page.cell_pointer(idx);
    let end = page.head(idx, usable).unwrap().end();
    if start <= end <= page.buf.len() {
        let free = freed(page, start, end - start, usable);
        assert(cell_bytes(page, idx, usable).len() == end - start);
        assert(free.offset == page.offset && free.buf.len() == page.buf.len());
        page_headers_are_read(free, 0);
        page_numbers_are_written(free, 3, free.cell_count() - 1);
    }
}

} // verus!
