//! The free space of a page, and the cells that are put into it.

use vstd::prelude::*;
use crate::bytes::{
    be16, clear_range, copy_into, get_u16, lemma_be16_put16, move_within, put16, set_u16, splice,
    sub_vec, zeros,
};
use crate::cursor::{header_fits, header_ok, BTreeCursor};
use crate::page::{
    BTREE_HEADER_OFFSET_CELL_CONTENT, BTREE_HEADER_OFFSET_CELL_COUNT, BTREE_HEADER_OFFSET_FREEBLOCK,
    OverflowCell, OverflowModel, PageContent, PageModel, PageType,
};
use crate::pager::DatabaseHeader;
use crate::varint::{read_varint, varint_at, varint_from};

verus! {

// ---------------------------------------------------------------------------
// Free blocks
// ---------------------------------------------------------------------------

/// Whether the list of free blocks ends at the block at `pc`: the next block
/// would not lie behind it.
pub open spec fn block_is_last(buf: Seq<u8>, pc: int) -> bool {
    be16(buf, pc) <= pc + be16(buf, pc + 2) + 3
}

/// The last block of the list of free blocks that goes through `pc`.
pub open spec fn last_block(buf: Seq<u8>, pc: int) -> int
    decreases 65536 - pc,
{
    if pc < 0 || pc >= 65536 || block_is_last(buf, pc) {
        pc
    } else {
        last_block(buf, be16(buf, pc))
    }
}

/// The bytes of the free blocks from the one at `pc` on.
pub open spec fn block_bytes(buf: Seq<u8>, pc: int) -> int
    decreases 65536 - pc,
{
    if pc < 0 || pc >= 65536 || block_is_last(buf, pc) {
        be16(buf, pc + 2)
    } else {
        be16(buf, pc + 2) + block_bytes(buf, be16(buf, pc))
    }
}

/// Whether the free blocks from the one at `pc` on lie inside the page.
pub open spec fn blocks_inside(buf: Seq<u8>, pc: int) -> bool
    decreases 65536 - pc,
{
    &&& 0 <= pc
    &&& pc + 4 <= buf.len() <= 65535
    &&& block_is_last(buf, pc) || blocks_inside(buf, be16(buf, pc))
}

/// Where the cell content area starts, the number 0 standing for the end of
/// the largest page.
pub open spec fn content_start(page: PageModel) -> int {
    if page.cell_content_area() == 0 {
        65535
    } else {
        page.cell_content_area()
    }
}

/// The bytes below the content area and those that are free inside it.
pub open spec fn free_total(page: PageModel) -> int {
    page.num_frag_free_bytes() + content_start(page) + (if page.first_freeblock() > 0 {
        block_bytes(page.buf, page.first_freeblock())
    } else {
        0
    })
}

/// Where the free space below the content area starts: behind a header of the
/// longer kind and the cell pointers.
pub open spec fn free_start(page: PageModel) -> int {
    (page.offset + 12 + 2 * page.cell_count()) % 65536
}

/// Whether the free space of the page can be told: its free blocks lie in
/// ascending order inside the content area.
pub open spec fn free_space_ok(page: PageModel, usable: int) -> bool {
    &&& page.first_freeblock() > 0 ==> {
        let last = last_block(page.buf, page.first_freeblock());
        &&& page.first_freeblock() >= content_start(page)
        &&& blocks_inside(page.buf, page.first_freeblock())
        &&& be16(page.buf, last) == 0
        &&& last + be16(page.buf, last + 2) <= usable
    }
    &&& free_total(page) >= free_start(page)
}

/// The free bytes of the page.
pub open spec fn free_space(page: PageModel) -> int {
    (free_total(page) - free_start(page)) % 65536
}

/// The `n`-th number in the list of free blocks that starts with `first`.
pub open spec fn probe(buf: Seq<u8>, first: int, n: nat) -> int
    decreases n,
{
    if n == 0 {
        first
    } else {
        be16(buf, probe(buf, first, (n - 1) as nat))
    }
}

/// Whether the search for `amount` free bytes stops at place `n` of the list:
/// the block there is large enough, or lies too far back.
pub open spec fn search_stops(buf: Seq<u8>, first: int, limit: int, amount: int, n: nat) -> bool {
    let pc = probe(buf, first, n);
    pc > limit || amount <= be16(buf, pc + 2)
}

/// Whether the search for `amount` free bytes stops first at place `n`, having
/// looked inside the page only.
pub open spec fn search_ends(buf: Seq<u8>, first: int, limit: int, amount: int, n: nat) -> bool {
    &&& search_stops(buf, first, limit, amount, n)
    &&& forall|m: nat| m < n ==> !#[trigger] search_stops(buf, first, limit, amount, m)
    &&& forall|m: nat|
        #![trigger probe(buf, first, m)]
        m <= n && probe(buf, first, m) <= limit ==> probe(buf, first, m) + 4 <= buf.len()
}

/// Whether the search for `amount` free bytes stops first at place `n` of the
/// page's list.
pub open spec fn page_search_ends(page: PageModel, amount: int, usable: int, n: nat) -> bool {
    search_ends(page.buf, page.first_freeblock(), usable - amount, amount, n)
}

/// Whether the search for `amount` free bytes comes to an end.
pub open spec fn search_ok(page: PageModel, amount: int, usable: int) -> bool {
    &&& amount <= usable
    &&& exists|n: nat| page_search_ends(page, amount, usable, n)
}

/// The free block that the search for `amount` free bytes finds; 0 if it
/// finds none.
pub open spec fn free_cell(page: PageModel, amount: int, usable: int) -> int {
    let n = choose|n: nat| page_search_ends(page, amount, usable, n);
    let pc = probe(page.buf, page.first_freeblock(), n);
    if pc > usable - amount {
        0
    } else {
        pc
    }
}

/// Finds a free block of `amount` bytes at least; 0 stands for none.
pub fn find_free_cell(page_ref: &PageContent, db_header: &DatabaseHeader, amount: usize) -> (pc:
    usize)
    requires
        page_ref@.offset + 12 <= page_ref@.buf.len(),
        header_fits(*db_header),
        search_ok(page_ref@, amount as int, db_header.usable()),
    ensures
        pc == free_cell(page_ref@, amount as int, db_header.usable()),
        pc <= u16::MAX,
{
    let ghost buf = page_ref@.buf;
    let ghost first = page_ref@.first_freeblock();
    let usable_space: usize = (db_header.page_size - db_header.unused_space as u16) as usize;
    let maxpc: usize = usable_space - amount;
    let ghost stop = choose|n: nat|
        page_search_ends(page_ref@, amount as int, db_header.usable(), n);
    let ghost mut n: nat = 0;
    let mut pc: usize = page_ref.first_freeblock() as usize;
    let mut found: bool = false;
    assert(probe(buf, first, 0) == first);
    while pc <= maxpc && !found
        invariant
            buf == page_ref.buf@,
            maxpc <= u16::MAX,
            pc <= u16::MAX,
            n <= stop,
            search_ends(buf, first, maxpc as int, amount as int, stop),
            pc == probe(buf, first, n),
            found ==> n == stop && pc <= maxpc,
            !found ==> forall|m: nat|
                m < n ==> !#[trigger] search_stops(buf, first, maxpc as int, amount as int, m),
        decreases stop - n, (if found { 0int } else { 1int }),
    {
        let next: u16 = get_u16(page_ref.buf.as_slice(), pc);
        let size: u16 = get_u16(page_ref.buf.as_slice(), pc + 2);
        if amount <= size as usize {
            assert(search_stops(buf, first, maxpc as int, amount as int, n));
            found = true;
        } else {
            assert(!search_stops(buf, first, maxpc as int, amount as int, n));
            pc = next as usize;
            proof {
                n = n + 1;
            }
        }
    }
    assert(search_stops(buf, first, maxpc as int, amount as int, n));
    assert(n == stop);
    if !found {
        0
    } else {
        pc
    }
}

// ---------------------------------------------------------------------------
// Moving the cells of a page together
// ---------------------------------------------------------------------------

/// How many bytes a cell at `pc` takes along when the cells are moved together.
/// This is the length of a cell of a table's leaf whose payload is all on the page.
/// Of an interior page the number at the start of the cell is read, where the
/// child's page number stands, so it is not the length of the cell there.
pub open spec fn moved_len(buf: Seq<u8>, t: PageType, pc: int) -> Option<int> {
    match t {
        PageType::TableInterior => match varint_at(buf, pc) {
            Some((_, n)) => Some(4 + n),
            None => None,
        },
        PageType::TableLeaf => match varint_at(buf, pc) {
            Some((len, n)) => match varint_at(buf, pc + n) {
                Some((_, m)) => Some(len + n + m),
                None => None,
            },
            None => None,
        },
        _ => None,
    }
}

/// The place of pointer `i` in the array of cell pointers that starts eight
/// bytes into the header, as it does on a leaf. On an interior page the array
/// starts four bytes later.
pub open spec fn slot(page: PageModel, i: int) -> int {
    page.offset + 8 + 2 * i
}

/// Where the cell of pointer `i` lies before the cells are moved.
pub open spec fn source(page: PageModel, i: int) -> int {
    be16(page.buf, slot(page, i))
}

/// How many bytes the cell of pointer `i` takes along.
pub open spec fn taken(page: PageModel, i: int) -> int {
    moved_len(page.buf, page.kind(), source(page, i)).unwrap()
}

/// Where the content area starts once `i` cells have been moved to its end.
pub open spec fn break_at(page: PageModel, usable: int, i: nat) -> int
    decreases i,
{
    if i == 0 {
        usable
    } else {
        break_at(page, usable, (i - 1) as nat) - taken(page, i - 1)
    }
}

/// The bytes of the page once `i` cells have been moved to the end of the
/// content area.
pub open spec fn compacted(page: PageModel, usable: int, i: nat) -> Seq<u8>
    decreases i,
{
    if i == 0 {
        page.buf
    } else {
        let brk = break_at(page, usable, i);
        let from = source(page, i - 1);
        splice(
            put16(compacted(page, usable, (i - 1) as nat), slot(page, i - 1), brk),
            brk,
            page.buf.subrange(from, from + taken(page, i - 1)),
        )
    }
}

/// Where the cell pointers end.
pub open spec fn pointers_end(page: PageModel) -> int {
    page.pointers_at() + 2 * page.cell_count()
}

/// Whether cell `i` can be moved: it lies inside the usable bytes, and there
/// is room for it behind the cell pointers.
pub open spec fn movable(page: PageModel, usable: int, i: int) -> bool {
    &&& slot(page, i) + 2 <= page.buf.len()
    &&& source(page, i) <= usable - 4
    &&& moved_len(page.buf, page.kind(), source(page, i)) is Some
    &&& break_at(page, usable, (i + 1) as nat) >= pointers_end(page)
    &&& source(page, i) + taken(page, i) <= usable
}

/// Whether the cells of the page can be moved together.
pub open spec fn defragment_ok(page: PageModel, usable: int) -> bool {
    &&& page.page_type() is Some
    &&& forall|i: int| 0 <= i < page.cell_count() ==> #[trigger] movable(page, usable, i)
    &&& break_at(page, usable, page.cell_count() as nat) >= pointers_end(page)
    &&& break_at(page, usable, page.cell_count() as nat) >= page.cell_content_area()
}

/// The page with its cells moved together, no free blocks, and the bytes that
/// became free zeroed.
pub open spec fn defragmented(page: PageModel, usable: int) -> PageModel {
    let n = page.cell_count() as nat;
    let brk = break_at(page, usable, n);
    let moved = put16(compacted(page, usable, n), 5, brk);
    let unlisted = splice(moved, 1, seq![0u8, 0u8]);
    page.with_buf(
        splice(
            unlisted,
            page.cell_content_area(),
            zeros((brk - page.cell_content_area()) as nat),
        ),
    )
}

pub proof fn lemma_compacted_len(page: PageModel, usable: int, i: nat)
    ensures
        compacted(page, usable, i).len() == page.buf.len(),
    decreases i,
{
    if i > 0 {
        lemma_compacted_len(page, usable, (i - 1) as nat);
    }
}

pub proof fn lemma_break_bounds(page: PageModel, usable: int, i: nat)
    requires
        forall|k: int| 0 <= k < i ==> #[trigger] movable(page, usable, k),
    ensures
        break_at(page, usable, i) <= usable,
        i > 0 ==> break_at(page, usable, i) >= pointers_end(page),
    decreases i,
{
    if i > 0 {
        assert(movable(page, usable, i - 1));
        lemma_break_bounds(page, usable, (i - 1) as nat);
        lemma_taken_positive(page, usable, i - 1);
    }
}

proof fn lemma_varint_nonneg(s: Seq<u8>, p: int, acc: int, k: int)
    requires
        0 <= acc,
        0 <= k <= 8,
        varint_from(s, p, acc, k) is Some,
    ensures
        varint_from(s, p, acc, k).unwrap().0 >= 0,
        varint_from(s, p, acc, k).unwrap().1 > k,
    decreases 8 - k,
{
    if k < 8 && s[p + k] >= 128 {
        lemma_varint_nonneg(s, p, acc * 128 + (s[p + k] - 128), k + 1);
    }
}

pub proof fn lemma_taken_positive(page: PageModel, usable: int, i: int)
    requires
        movable(page, usable, i),
    ensures
        taken(page, i) > 0,
{
    let pc = source(page, i);
    lemma_varint_nonneg(page.buf, pc, 0, 0);
    if page.kind() == PageType::TableLeaf {
        let n = varint_at(page.buf, pc).unwrap().1;
        lemma_varint_nonneg(page.buf, pc + n, 0, 0);
    }
}

// ---------------------------------------------------------------------------
// Room for a cell
// ---------------------------------------------------------------------------

/// A page on which room has been made, and where.
pub struct Room {
    pub page: PageModel,
    pub at: int,
}

/// Whether a free block is looked for before the content area is extended.
pub open spec fn tries_blocks(page: PageModel) -> bool {
    page.first_freeblock() != 0 && pointers_end(page) + 2 <= page.cell_content_area()
}

/// The page with room for `amount` bytes: in a free block where one is found,
/// else directly below the content area, whose cells are moved together first
/// if the gap is too small. A free block that is used stays on the list. The start
/// of the content area is written five bytes into the page, which is its place in
/// the header only on a page without a file header in front.
pub open spec fn allocated(page: PageModel, amount: int, usable: int) -> Room {
    if tries_blocks(page) && free_cell(page, amount, usable) != 0 {
        Room { page, at: free_cell(page, amount, usable) }
    } else {
        let ready = ready_page(page, amount, usable);
        let top = ready_top(page, amount, usable) - amount;
        Room { page: ready.with_buf(put16(ready.buf, 5, top)), at: top }
    }
}

/// The page on which the content area is then extended.
pub open spec fn ready_page(page: PageModel, amount: int, usable: int) -> PageModel {
    if pointers_end(page) + 2 + amount > page.cell_content_area() {
        defragmented(page, usable)
    } else {
        page
    }
}

/// Where the content area of that page starts.
pub open spec fn ready_top(page: PageModel, amount: int, usable: int) -> int {
    if pointers_end(page) + 2 + amount > page.cell_content_area() {
        be16(defragmented(page, usable).buf, 5)
    } else {
        page.cell_content_area()
    }
}

/// Whether room for `amount` bytes can be made.
pub open spec fn allocate_ok(page: PageModel, amount: int, usable: int) -> bool {
    &&& page.page_type() is Some
    &&& tries_blocks(page) ==> search_ok(page, amount, usable)
    &&& !(tries_blocks(page) && free_cell(page, amount, usable) != 0) ==> {
        &&& pointers_end(page) + 2 + amount > page.cell_content_area() ==> defragment_ok(
            page,
            usable,
        )
        &&& amount <= ready_top(page, amount, usable) <= usable
    }
}

// ---------------------------------------------------------------------------
// Inserting a cell
// ---------------------------------------------------------------------------

/// Whether a cell has room on the page.
pub open spec fn has_room(page: PageModel, payload: Seq<u8>) -> bool {
    payload.len() + 2 <= free_space(page)
}

/// The page with the bytes of a cell copied to where there is room.
pub open spec fn with_payload_copied(page: PageModel, payload: Seq<u8>, usable: int) -> PageModel {
    let room = allocated(page, payload.len() as int, usable);
    room.page.with_buf(splice(room.page.buf, room.at, payload))
}

/// The page with the pointers from `idx` on moved up by one place.
pub open spec fn with_pointers_moved(page: PageModel, idx: int) -> PageModel {
    let at = page.pointers_at() + 2 * idx;
    let n = page.cell_count() - idx;
    if n > 0 {
        page.with_buf(splice(page.buf, at + 2, page.buf.subrange(at, at + 2 * n)))
    } else {
        page
    }
}

/// The page after `payload` became its cell `idx`. The content area then starts with
/// that cell, also where it was put into a free block above other cells. The
/// pointer's place is counted from the start of the page and then once more from the
/// start of the header, so it is right only where the header starts the page.
pub open spec fn placed(page: PageModel, payload: Seq<u8>, idx: int, usable: int) -> PageModel {
    let pc = allocated(page, payload.len() as int, usable).at;
    let copied = with_payload_copied(page, payload, usable);
    let at = copied.pointers_at() + 2 * idx;
    let pointed = with_pointers_moved(copied, idx).with_u16(at, pc).with_u16(5, pc);
    pointed.with_u16(3, (pointed.cell_count() + 1) % 65536)
}

/// The page after `payload` was given the place `idx` among its cells: on the
/// page, or among the cells that have no room on it.
pub open spec fn inserted(page: PageModel, payload: Seq<u8>, idx: int, usable: int) -> PageModel {
    if has_room(page, payload) {
        placed(page, payload, idx, usable)
    } else {
        PageModel {
            overflow_cells: page.overflow_cells.push(OverflowModel { index: idx, payload }),
            ..page
        }
    }
}

/// Whether `payload` can be given the place `idx` among the cells of the page.
pub open spec fn insert_ok(page: PageModel, payload: Seq<u8>, idx: int, usable: int) -> bool {
    &&& free_space_ok(page, usable)
    &&& has_room(page, payload) ==> {
        let room = allocated(page, payload.len() as int, usable);
        let copied = with_payload_copied(page, payload, usable);
        &&& allocate_ok(page, payload.len() as int, usable)
        &&& room.at + payload.len() <= page.buf.len()
        &&& copied.page_type() is Some
        &&& 0 <= idx <= copied.cell_count()
        &&& copied.pointers_at() + 2 * copied.cell_count() + 2 <= page.buf.len()
        &&& copied.offset + copied.pointers_at() + 2 * idx + 2 <= page.buf.len()
    }
}

// ---------------------------------------------------------------------------
// Freeing the bytes of a cell
// ---------------------------------------------------------------------------

/// A block of free bytes.
pub struct Block {
    pub start: int,
    pub size: int,
}

/// The free blocks from the one at `pc` on, in ascending order. The list ends
/// with a block that names no block behind it.
pub open spec fn blocks_from(page: PageModel, pc: int) -> Seq<Block>
    decreases 65536 - pc,
{
    if pc <= 0 || pc >= 65536 {
        Seq::empty()
    } else {
        let next = page.u16_at(pc);
        seq![Block { start: pc, size: page.u16_at(pc + 2) }] + if next > pc {
            blocks_from(page, next)
        } else {
            Seq::empty()
        }
    }
}

/// The free blocks of a page.
pub open spec fn free_blocks(page: PageModel) -> Seq<Block> {
    blocks_from(page, page.first_freeblock())
}

/// Where block `i` of a list starts; 0 behind the last one.
pub open spec fn start_of(b: Seq<Block>, i: int) -> int {
    if 0 <= i < b.len() {
        b[i].start
    } else {
        0
    }
}

/// How many blocks of an ascending list, from `i` on, lie in front of `bound`,
/// together with the `i` ones before.
pub open spec fn place_of(b: Seq<Block>, bound: int, i: int) -> int
    decreases b.len() - i,
{
    if i >= b.len() || b[i].start >= bound {
        i
    } else {
        place_of(b, bound, i + 1)
    }
}

/// The place in the list of free blocks for one at `offset`. A number behind
/// the usable bytes ends the list too.
pub open spec fn place_in_list(page: PageModel, offset: int, usable: int) -> int {
    let bound = if offset <= usable {
        offset
    } else {
        usable + 1
    };
    place_of(free_blocks(page), bound, 0)
}

/// Whether the blocks in front of place `n` can be read, and the list does not
/// turn back there.
pub open spec fn readable_to(page: PageModel, n: int) -> bool {
    let b = free_blocks(page);
    forall|i: int|
        0 <= i < n ==> {
            &&& #[trigger] leads_on(page, b, i)
            &&& page.offset + b[i].start + 2 <= page.buf.len()
        }
}

/// Whether block `i` of a list names the next one.
pub open spec fn leads_on(page: PageModel, b: Seq<Block>, i: int) -> bool {
    page.u16_at(b[i].start) == start_of(b, i + 1)
}

/// The page with a free block of `len` bytes at `offset`, in front of the
/// block `next`.
pub open spec fn with_block(page: PageModel, offset: int, next: int, len: int) -> PageModel {
    page.with_u16(offset, next).with_u16(offset + 2, len)
}

/// Whether freed bytes at `offset` lie behind the first free block and not
/// behind the start of the content area, and so move that start.
pub open spec fn moves_content(page: PageModel, offset: int) -> bool {
    &&& page.first_freeblock() != 0
    &&& page.first_freeblock() <= offset <= page.cell_content_area()
}

/// The block behind which a block of the list has its place; the first one if
/// there is none in front of it.
pub open spec fn block_before(page: PageModel, n: int) -> int {
    if n == 0 {
        page.first_freeblock()
    } else {
        free_blocks(page)[n - 1].start
    }
}

/// The block in front of which a block has its place; 0 at the end of the list.
pub open spec fn block_behind(page: PageModel, n: int, usable: int) -> int {
    let pc = start_of(free_blocks(page), n);
    if pc >= usable {
        0
    } else {
        pc
    }
}

/// The page after `len` bytes at `offset` were freed.
pub open spec fn freed(page: PageModel, offset: int, len: int, usable: int) -> PageModel {
    let first = page.first_freeblock();
    if first == 0 || offset < first {
        with_block(page, offset, first, len).with_u16(1, offset)
    } else if moves_content(page, offset) {
        page.with_u16(1, first).with_u16(5, offset + len)
    } else {
        let n = place_in_list(page, offset, usable);
        with_block(
            page.with_u16(block_before(page, n), offset),
            offset,
            block_behind(page, n, usable),
            len,
        )
    }
}

/// Whether `len` bytes at `offset` can be freed.
pub open spec fn free_ok(page: PageModel, offset: int, len: int, usable: int) -> bool {
    let first = page.first_freeblock();
    if first == 0 || offset < first {
        page.offset + offset + 4 <= page.buf.len()
    } else if moves_content(page, offset) {
        offset + len <= u16::MAX
    } else {
        let n = place_in_list(page, offset, usable);
        &&& readable_to(page, n)
        &&& page.offset + block_before(page, n) + 2 <= page.buf.len()
        &&& page.offset + offset + 4 <= page.buf.len()
    }
}

/// Whether block `i` of a list names the next one and its own size.
pub open spec fn block_stands(page: PageModel, b: Seq<Block>, i: int) -> bool {
    &&& leads_on(page, b, i)
    &&& page.u16_at(b[i].start + 2) == b[i].size
}

/// Whether `b` is the page's list of free blocks: each of them names the next,
/// and they lie behind the header inside the usable bytes, in ascending order
/// and apart.
pub open spec fn listed(page: PageModel, b: Seq<Block>, usable: int) -> bool {
    &&& page.first_freeblock() == start_of(b, 0)
    &&& forall|i: int|
        0 <= i < b.len() ==> {
            &&& 8 <= (#[trigger] b[i]).start
            &&& 4 <= b[i].size
            &&& b[i].start + b[i].size <= usable
            &&& page.offset + b[i].start + b[i].size <= page.buf.len()
        }
    &&& forall|i: int| 0 <= i < b.len() ==> #[trigger] block_stands(page, b, i)
    &&& forall|i: int, j: int|
        0 <= i < j < b.len() ==> (#[trigger] b[i]).start + b[i].size <= (#[trigger] b[j]).start
}

/// Whether `len` bytes at `offset` can be a free block beside those of `b`.
pub open spec fn block_fits(
    page: PageModel,
    b: Seq<Block>,
    offset: int,
    len: int,
    usable: int,
) -> bool {
    &&& 8 <= offset
    &&& 4 <= len <= u16::MAX
    &&& offset + len <= usable <= u16::MAX
    &&& page.offset + offset + len <= page.buf.len()
    &&& forall|i: int|
        0 <= i < b.len() ==> offset + len <= (#[trigger] b[i]).start || b[i].start + b[i].size
            <= offset
}

/// Whether a page's list of free blocks has got one of `len` bytes at `offset`,
/// in its place, and no byte of the page changed but the four of the block's
/// head and the two of the number that leads to it.
pub open spec fn block_added(
    page: PageModel,
    after: PageModel,
    offset: int,
    len: int,
    usable: int,
) -> bool {
    let b = free_blocks(page);
    let n = place_of(b, offset, 0);
    let link = if n == 0 {
        1
    } else {
        b[n - 1].start
    };
    &&& 0 <= n <= b.len()
    &&& free_blocks(after) == b.insert(n, Block { start: offset, size: len })
    &&& listed(after, free_blocks(after), usable)
    &&& after == page.with_buf(after.buf)
    &&& after.buf.len() == page.buf.len()
    &&& forall|k: int|
        0 <= k < page.buf.len() - page.offset && !(offset <= k < offset + 4) && !(link <= k < link
            + 2) ==> #[trigger] after.u8_at(k) == page.u8_at(k)
}

/// The page after cell `idx` was dropped from the end of its pointers.
pub open spec fn dropped(page: PageModel, idx: int, usable: int) -> PageModel {
    let start = page.cell_pointer(idx);
    let len = page.head(idx, usable).unwrap().end() - start;
    let p = freed(page, start, len, usable);
    p.with_u16(3, p.cell_count() - 1)
}

/// Whether cell `idx` can be dropped.
pub open spec fn drop_ok(page: PageModel, idx: int, usable: int) -> bool {
    let start = page.cell_pointer(idx);
    let len = page.head(idx, usable).unwrap().end() - start;
    &&& page.page_type() is Some
    &&& page.head(idx, usable) is Some
    &&& free_ok(page, start, len, usable)
    &&& freed(page, start, len, usable).cell_count() > 0
}

impl BTreeCursor {
    /// The free bytes of the page: those between the cell pointers and the
    /// content area, and those of the free blocks and fragments inside it.
    pub fn compute_free_space(&self, page: &PageContent) -> (free: u16)
        requires
            header_fits(self@.header),
            page@.sized(self@.header.page_size as int),
            free_space_ok(page@, self@.usable()),
        ensures
            free == free_space(page@),
    {
        let mut first_byte_in_cell_content: u16 = page.cell_content_area();
        if first_byte_in_cell_content == 0 {
            first_byte_in_cell_content = u16::MAX;
        }
        let fragmented_free_bytes = page.num_frag_free_bytes();
        let free_block_pointer = page.first_freeblock();
        let ncell = page.cell_count();
        // the longer page header ends here
        let first_cell: usize = (page.offset + 8 + 4 + 2 * ncell) % 65536;
        let mut nfree: usize = fragmented_free_bytes as usize + first_byte_in_cell_content as usize;
        let ghost base: int = nfree as int;
        let mut pc: usize = free_block_pointer as usize;
        if pc > 0 {
            let ghost total = block_bytes(page@.buf, pc as int);
            let mut last: bool = false;
            while !last
                invariant
                    page@.buf.len() <= u16::MAX,
                    0 <= pc,
                    blocks_inside(page@.buf, pc as int),
                    base <= 65535 + 255,
                    base <= nfree,
                    nfree <= base + pc + (if last { 65535int } else { 0 }),
                    !last ==> base + total == nfree + block_bytes(page@.buf, pc as int),
                    last ==> base + total == nfree,
                decreases (if last { 0int } else { 1int }), 65536 - pc,
            {
                let next: usize = get_u16(page.buf.as_slice(), pc) as usize;
                let size: usize = get_u16(page.buf.as_slice(), pc + 2) as usize;
                nfree = nfree + size;
                if next <= pc + size + 3 {
                    last = true;
                } else {
                    pc = next;
                }
            }
        }
        ((nfree - first_cell) % 65536) as u16
    }

    /// Moves the cells of the page together at its end. The cells are read as those
    /// of a table's leaf: on a page of another type the result is no page with the
    /// same cells. The start of the content area and the end of the list of free
    /// blocks are written where a page without a file header in front has them.
    pub fn defragment_page(&self, page: &mut PageContent)
        requires
            header_fits(self@.header),
            old(page)@.sized(self@.header.page_size as int),
            defragment_ok(old(page)@, self@.usable()),
        ensures
            final(page)@ == defragmented(old(page)@, self@.usable()),
    {
        let ghost before = page@;
        let ghost usable = self@.usable();
        let read_buf = sub_vec(page.buf.as_slice(), 0, page.buf.len());
        assert(read_buf@ =~= before.buf);
        let usable_space = self.usable_space();
        let mut cbrk: usize = usable_space;
        let cell_count = page.cell_count();
        let content_area: usize = page.cell_content_area() as usize;
        let page_type = page.kind();
        let mut i: usize = 0;
        while i < cell_count
            invariant
                header_fits(self@.header),
                before.sized(self@.header.page_size as int),
                usable == self@.usable(),
                usable_space == usable,
                defragment_ok(before, usable),
                read_buf@ == before.buf,
                cell_count == before.cell_count(),
                page_type == before.kind(),
                i <= cell_count,
                page@ == before.with_buf(compacted(before, usable, i as nat)),
                page@.buf.len() == before.buf.len(),
                cbrk == break_at(before, usable, i as nat),
                cbrk <= usable,
            decreases cell_count - i,
        {
            assert(movable(before, usable, i as int));
            proof {
                lemma_taken_positive(before, usable, i as int);
            }
            let cell_idx: usize = page.offset + 8 + i * 2;
            let pc: usize = get_u16(read_buf.as_slice(), cell_idx) as usize;
            let ghost len = taken(before, i as int);
            let size: usize = match page_type {
                PageType::TableInterior => match read_varint(read_buf.as_slice(), pc) {
                    Some((_, nr_key)) => 4 + nr_key,
                    None => 0,
                },
                PageType::TableLeaf => match read_varint(read_buf.as_slice(), pc) {
                    Some((payload_size, nr_payload)) => match read_varint(
                        read_buf.as_slice(),
                        pc + nr_payload,
                    ) {
                        Some((_, nr_key)) => {
                            assert(len == payload_size + nr_payload + nr_key);
                            payload_size as usize + nr_payload + nr_key
                        },
                        None => 0,
                    },
                    None => 0,
                },
                PageType::IndexInterior => 0,
                PageType::IndexLeaf => 0,
            };
            assert(size == len);
            cbrk = cbrk - size;
            // set new pointer
            set_u16(&mut page.buf, cell_idx, cbrk as u16);
            // copy payload
            let moved = sub_vec(read_buf.as_slice(), pc, pc + size);
            proof {
                lemma_break_bounds(before, usable, (i + 1) as nat);
            }
            copy_into(&mut page.buf, cbrk, moved.as_slice());
            i += 1;
            assert(page@.overflow_cells =~= before.overflow_cells);
        }
        proof {
            lemma_compacted_len(before, usable, i as nat);
        }
        // set new first byte of cell content
        set_u16(&mut page.buf, 5, cbrk as u16);
        // set free block to 0, unused space can be told from the gap between
        // the end of the cell pointers and the start of the content
        clear_range(&mut page.buf, 1, 3);
        assert(zeros(2) =~= seq![0u8, 0u8]);
        // set unused space to 0
        clear_range(&mut page.buf, content_area, cbrk);
        assert(page@.overflow_cells =~= before.overflow_cells);
        assert(page@ =~= defragmented(before, usable));
    }

    /// Makes room for a cell of `amount` bytes and returns where it is. A free block
    /// that is used stays on the list of free blocks. On a page with a file header in
    /// front, bytes of that header are written in place of the page's own header.
    pub fn allocate_cell_space(&self, page_ref: &mut PageContent, amount: u16) -> (pc: u16)
        requires
            header_fits(self@.header),
            old(page_ref)@.sized(self@.header.page_size as int),
            allocate_ok(old(page_ref)@, amount as int, self@.usable()),
        ensures
            final(page_ref)@ == allocated(old(page_ref)@, amount as int, self@.usable()).page,
            pc == allocated(old(page_ref)@, amount as int, self@.usable()).at,
    {
        let ghost before = page_ref@;
        let amount: usize = amount as usize;
        let (cell_offset, _) = page_ref.cell_get_raw_pointer_region();
        let gap: usize = cell_offset + 2 * page_ref.cell_count();
        let mut top: usize = page_ref.cell_content_area() as usize;
        // there are free blocks and enough space
        if page_ref.first_freeblock() != 0 && gap + 2 <= top {
            // find slot
            let pc = find_free_cell(page_ref, &self.database_header, amount);
            if pc != 0 {
                return pc as u16;
            }
            // fall through, we might need to defragment
        }
        if gap + 2 + amount > top {
            // defragment
            self.defragment_page(page_ref);
            proof {
                lemma_compacted_len(before, self@.usable(), before.cell_count() as nat);
            }
            top = get_u16(page_ref.buf.as_slice(), 5) as usize;
        }
        top = top - amount;
        set_u16(&mut page_ref.buf, 5, top as u16);
        top as u16
    }

    /// Makes `payload` cell `cell_idx` of the page. A cell that has no room is
    /// kept beside the page. A cell that is put into a free block leaves the block on
    /// the list, and the content area then starts with that cell. The cell gets its
    /// pointer in the array only on a page without a file header in front.
    pub fn insert_into_cell(&self, page: &mut PageContent, payload: &[u8], cell_idx: usize)
        requires
            header_fits(self@.header),
            old(page)@.sized(self@.header.page_size as int),
            insert_ok(old(page)@, payload@, cell_idx as int, self@.usable()),
        ensures
            final(page)@ == inserted(old(page)@, payload@, cell_idx as int, self@.usable()),
    {
        let ghost before = page@;
        let ghost usable = self@.usable();
        let free = self.compute_free_space(page);
        let enough_space: bool = free >= 2 && payload.len() <= free as usize - 2;
        if !enough_space {
            // add to overflow cell
            let copy = sub_vec(payload, 0, payload.len());
            assert(copy@ =~= payload@);
            page.overflow_cells.push(OverflowCell { index: cell_idx, payload: copy });
            assert(page@.overflow_cells =~= before.overflow_cells.push(
                OverflowModel { index: cell_idx as int, payload: payload@ },
            ));
            return;
        }
        proof {
            lemma_allocated_shape(before, payload@.len() as int, usable);
        }
        let pc = self.allocate_cell_space(page, payload.len() as u16);
        // copy data
        copy_into(&mut page.buf, pc as usize, payload);
        assert(page@ =~= with_payload_copied(before, payload@, usable));
        let ghost copied = page@;
        let (pointer_area, _) = page.cell_get_raw_pointer_region();
        let pointer_area_pc_by_idx: usize = pointer_area + 2 * cell_idx;
        // move previous pointers forward and insert new pointer there
        let n_cells_forward: usize = 2 * (page.cell_count() - cell_idx);
        if n_cells_forward > 0 {
            move_within(
                &mut page.buf,
                pointer_area_pc_by_idx,
                n_cells_forward,
                pointer_area_pc_by_idx + 2,
            );
        }
        assert(page@ =~= with_pointers_moved(copied, cell_idx as int));
        page.write_u16(pointer_area_pc_by_idx, pc);
        // update first byte of content area
        page.write_u16(BTREE_HEADER_OFFSET_CELL_CONTENT, pc);
        // update cell count
        let new_n_cells: u16 = ((page.cell_count() + 1) % 65536) as u16;
        page.write_u16(BTREE_HEADER_OFFSET_CELL_COUNT, new_n_cells);
    }

    /// Puts `len` bytes at `offset` on the list of free blocks.
    pub fn free_cell_range(&self, page: &mut PageContent, offset: u16, len: u16)
        requires
            header_fits(self@.header),
            old(page)@.sized(self@.header.page_size as int),
            free_ok(old(page)@, offset as int, len as int, self@.usable()),
        ensures
            final(page)@ == freed(old(page)@, offset as int, len as int, self@.usable()),
            !moves_content(old(page)@, offset as int) && listed(
                old(page)@,
                free_blocks(old(page)@),
                self@.usable(),
            ) && block_fits(
                old(page)@,
                free_blocks(old(page)@),
                offset as int,
                len as int,
                self@.usable(),
            ) ==> block_added(
                old(page)@,
                final(page)@,
                offset as int,
                len as int,
                self@.usable(),
            ),
    {
        let ghost before = page@;
        let ghost usable = self@.usable();
        proof {
            if !moves_content(before, offset as int) && listed(before, free_blocks(before), usable)
                && block_fits(before, free_blocks(before), offset as int, len as int, usable) {
                freed_bytes_are_listed(before, offset as int, len as int, usable);
            }
        }
        let first_block = page.first_freeblock();
        if first_block == 0 {
            // insert into empty list
            page.write_u16(offset as usize, 0);
            page.write_u16(offset as usize + 2, len);
            page.write_u16(BTREE_HEADER_OFFSET_FREEBLOCK, offset);
            return;
        }
        if offset < first_block {
            // insert into head of list
            page.write_u16(offset as usize, first_block);
            page.write_u16(offset as usize + 2, len);
            page.write_u16(BTREE_HEADER_OFFSET_FREEBLOCK, offset);
            return;
        }
        if offset <= page.cell_content_area() {
            // extend boundary of content area
            page.write_u16(BTREE_HEADER_OFFSET_FREEBLOCK, first_block);
            page.write_u16(BTREE_HEADER_OFFSET_CELL_CONTENT, offset + len);
            return;
        }
        let maxpc: u16 = self.usable_space() as u16;
        let ghost b = free_blocks(before);
        let ghost place = place_in_list(before, offset as int, usable);
        let ghost bound = if offset <= usable {
            offset as int
        } else {
            usable + 1
        };
        proof {
            lemma_place(b, bound, 0);
            lemma_blocks_ascend(before, before.first_freeblock());
        }
        let mut pc: u16 = first_block;
        let mut prev: u16 = first_block;
        let ghost mut n: int = 0;
        while pc != 0 && pc <= maxpc && pc < offset
            invariant
                page@ == before,
                maxpc == usable,
                0 <= n <= place <= b.len(),
                b == free_blocks(before),
                bound == (if offset <= usable {
                    offset as int
                } else {
                    usable + 1
                }),
                forall|i: int| 0 <= i < b.len() ==> 0 < (#[trigger] b[i]).start,
                forall|i: int| 0 <= i < place ==> (#[trigger] b[i]).start < bound,
                place < b.len() ==> b[place].start >= bound,
                readable_to(before, place),
                pc == start_of(b, n),
                prev == block_before(before, n),
            decreases place - n,
        {
            assert(n < place);
            assert(b[n].start == pc);
            assert(leads_on(before, b, n));
            let next = page.read_u16(pc as usize);
            prev = pc;
            pc = next;
            proof {
                n = n + 1;
            }
        }
        assert(n == place) by {
            if n < place {
                assert(b[n].start < bound);
            }
        }
        // insert behind the block before: in between, or into the tail
        let next: u16 = if pc >= maxpc {
            0
        } else {
            pc
        };
        page.write_u16(prev as usize, offset);
        page.write_u16(offset as usize, next);
        page.write_u16(offset as usize + 2, len);
    }

    /// Frees the bytes of cell `cell_idx` and counts one cell less.
    pub fn drop_cell(&self, page: &mut PageContent, cell_idx: usize)
        requires
            header_ok(self@.header),
            old(page)@.sized(self@.header.page_size as int),
            cell_idx <= u16::MAX,
            drop_ok(old(page)@, cell_idx as int, self@.usable()),
        ensures
            final(page)@ == dropped(old(page)@, cell_idx as int, self@.usable()),
    {
        let (cell_start, cell_len) = page.cell_get_raw_region(cell_idx, self.usable_space());
        self.free_cell_range(page, cell_start as u16, cell_len as u16);
        let count: u16 = page.cell_count() as u16;
        page.write_u16(BTREE_HEADER_OFFSET_CELL_COUNT, count - 1);
    }
}

/// Making room keeps the size and the header place of the page.
pub proof fn lemma_allocated_shape(page: PageModel, amount: int, usable: int)
    ensures
        allocated(page, amount, usable).page.buf.len() == page.buf.len(),
        allocated(page, amount, usable).page.offset == page.offset,
        allocated(page, amount, usable).page.overflow_cells == page.overflow_cells,
        defragmented(page, usable).buf.len() == page.buf.len(),
{
    lemma_compacted_len(page, usable, page.cell_count() as nat);
}

// ---------------------------------------------------------------------------
// The list of free blocks
// ---------------------------------------------------------------------------

/// The blocks of a list ascend.
pub proof fn lemma_blocks_ascend(page: PageModel, pc: int)
    ensures
        ({
            let b = blocks_from(page, pc);
            &&& 0 < pc < 65536 ==> b.len() > 0 && b[0].start == pc
            &&& pc == 0 ==> b.len() == 0
            &&& forall|i: int| 0 <= i < b.len() ==> pc <= (#[trigger] b[i]).start && 0 < b[i].start
        }),
    decreases 65536 - pc,
{
    if 0 < pc < 65536 {
        let next = page.u16_at(pc);
        let head = seq![Block { start: pc, size: page.u16_at(pc + 2) }];
        if next > pc {
            lemma_blocks_ascend(page, next);
            let rest = blocks_from(page, next);
            assert forall|i: int| 0 <= i < (head + rest).len() implies pc <= (#[trigger] (head
                + rest)[i]).start && 0 < (head + rest)[i].start by {
                if i > 0 {
                    assert((head + rest)[i] == rest[i - 1]);
                }
            }
        }
    }
}

/// The place of a block: those in front of it start before the bound, and the
/// one behind it does not.
pub proof fn lemma_place(b: Seq<Block>, bound: int, i: int)
    requires
        0 <= i <= b.len(),
    ensures
        ({
            let n = place_of(b, bound, i);
            &&& i <= n <= b.len()
            &&& forall|j: int| i <= j < n ==> (#[trigger] b[j]).start < bound
            &&& n < b.len() ==> b[n].start >= bound
        }),
    decreases b.len() - i,
{
    if i < b.len() && b[i].start < bound {
        lemma_place(b, bound, i + 1);
    }
}

/// A list that stands on a page is the one that is read from it.
pub proof fn list_is_read(page: PageModel, b: Seq<Block>, usable: int)
    requires
        listed(page, b, usable),
        usable <= u16::MAX,
    ensures
        free_blocks(page) == b,
{
    lemma_list_from(page, b, usable, 0);
    assert(b.skip(0) =~= b);
}

proof fn lemma_list_from(page: PageModel, b: Seq<Block>, usable: int, i: int)
    requires
        listed(page, b, usable),
        usable <= u16::MAX,
        0 <= i <= b.len(),
    ensures
        blocks_from(page, start_of(b, i)) == b.skip(i),
    decreases b.len() - i,
{
    if i < b.len() {
        lemma_list_from(page, b, usable, i + 1);
        assert(b[i].start == start_of(b, i));
        assert(block_stands(page, b, i));
        if i + 1 < b.len() {
            assert(b[i].start + b[i].size <= b[i + 1].start);
        } else {
            assert(b.skip(i + 1) =~= Seq::empty());
        }
        assert(b.skip(i) =~= seq![b[i]] + b.skip(i + 1));
    } else {
        assert(b.skip(i) =~= Seq::empty());
    }
}

/// Bytes that are freed become a block in the list of free blocks, in its
/// place: in front, in between or at the end. The other blocks stay on the
/// list, and no byte changes but those that name the block and its head.
pub proof fn freed_bytes_are_listed(page: PageModel, offset: int, len: int, usable: int)
    requires
        page.offset >= 0,
        page.offset + 8 <= page.buf.len(),
        listed(page, free_blocks(page), usable),
        block_fits(page, free_blocks(page), offset, len, usable),
        !moves_content(page, offset),
    ensures
        block_added(page, freed(page, offset, len, usable), offset, len, usable),
{
    let b = free_blocks(page);
    let n = place_of(b, offset, 0);
    let new = Block { start: offset, size: len };
    let want = b.insert(n, new);
    let after = freed(page, offset, len, usable);
    lemma_place(b, offset, 0);
    let link = if n == 0 {
        1
    } else {
        b[n - 1].start
    };
    let next = start_of(b, n);
    assert(after == linked(page, link, offset, next, len)) by {
        lemma_freed_links(page, offset, len, usable);
    }
    lemma_linked(page, link, offset, next, len);
    assert(listed(after, want, usable)) by {
        lemma_list_grown(page, after, b, n, new, link, usable);
    }
    list_is_read(after, want, usable);
}

/// The page with a block at `offset` to which the number at `link` leads.
spec fn linked(page: PageModel, link: int, offset: int, next: int, len: int) -> PageModel {
    with_block(page.with_u16(link, offset), offset, next, len)
}

/// Freed bytes are linked between the blocks beside them.
proof fn lemma_freed_links(page: PageModel, offset: int, len: int, usable: int)
    requires
        page.offset >= 0,
        page.offset + 8 <= page.buf.len(),
        listed(page, free_blocks(page), usable),
        block_fits(page, free_blocks(page), offset, len, usable),
        !moves_content(page, offset),
    ensures
        ({
            let b = free_blocks(page);
            let n = place_of(b, offset, 0);
            let link = if n == 0 {
                1
            } else {
                b[n - 1].start
            };
            freed(page, offset, len, usable) == linked(page, link, offset, start_of(b, n), len)
        }),
{
    let b = free_blocks(page);
    let n = place_of(b, offset, 0);
    lemma_place(b, offset, 0);
    let first = page.first_freeblock();
    if first == 0 || offset < first {
        assert(n == 0);
        let x = with_block(page, offset, first, len).with_u16(1, offset);
        let y = linked(page, 1, offset, first, len);
        assert(x.buf =~= y.buf);
    } else {
        assert(b.len() > 0 && b[0].start == first);
        assert(n > 0) by {
            assert(b[0].start + b[0].size <= offset || offset + len <= b[0].start);
        }
        if n < b.len() {
            assert(b[n].start + b[n].size <= usable);
        }
    }
}

/// Which bytes that changes.
proof fn lemma_linked(page: PageModel, link: int, offset: int, next: int, len: int)
    requires
        page.offset >= 0,
        0 <= link,
        page.offset + link + 2 <= page.buf.len(),
        link + 2 <= offset,
        page.offset + offset + 4 <= page.buf.len(),
        0 <= offset <= u16::MAX,
        0 <= next <= u16::MAX,
        0 <= len <= u16::MAX,
    ensures
        ({
            let after = linked(page, link, offset, next, len);
            &&& after == page.with_buf(after.buf)
            &&& after.buf.len() == page.buf.len()
            &&& after.u16_at(link) == offset
            &&& after.u16_at(offset) == next
            &&& after.u16_at(offset + 2) == len
            &&& forall|k: int|
                0 <= k < page.buf.len() - page.offset && !(offset <= k < offset + 4) && !(link
                    <= k < link + 2) ==> #[trigger] after.u8_at(k) == page.u8_at(k)
        }),
{
    let o = page.offset;
    let x = put16(page.buf, o + link, offset);
    let y = put16(x, o + offset, next);
    let z = put16(y, o + offset + 2, len);
    let after = linked(page, link, offset, next, len);
    assert(after.buf == z);
    lemma_be16_put16(page.buf, o + link, offset);
    lemma_be16_put16(x, o + offset, next);
    lemma_be16_put16(y, o + offset + 2, len);
    assert(z[o + link] == x[o + link] && z[o + link + 1] == x[o + link + 1]);
    assert(z[o + offset] == y[o + offset] && z[o + offset + 1] == y[o + offset + 1]);
}

/// A list that got one block more.
proof fn lemma_list_grown(
    page: PageModel,
    after: PageModel,
    b: Seq<Block>,
    n: int,
    new: Block,
    link: int,
    usable: int,
)
    requires
        page.offset >= 0,
        page.offset + 8 <= page.buf.len(),
        listed(page, b, usable),
        block_fits(page, b, new.start, new.size, usable),
        0 <= n <= b.len(),
        forall|j: int| 0 <= j < n ==> (#[trigger] b[j]).start < new.start,
        n < b.len() ==> b[n].start >= new.start,
        link == (if n == 0 {
            1
        } else {
            b[n - 1].start
        }),
        after.offset == page.offset,
        after.buf.len() == page.buf.len(),
        after.u16_at(link) == new.start,
        after.u16_at(new.start) == start_of(b, n),
        after.u16_at(new.start + 2) == new.size,
        forall|k: int|
            0 <= k < page.buf.len() - page.offset && !(new.start <= k < new.start + 4) && !(link
                <= k < link + 2) ==> #[trigger] after.u8_at(k) == page.u8_at(k),
    ensures
        listed(after, b.insert(n, new), usable),
{
    let want = b.insert(n, new);
    lemma_blocks_apart(b, n, new);
    if n > 0 {
        assert(after.u8_at(1) == page.u8_at(1) && after.u8_at(2) == page.u8_at(2));
    }
    assert(after.first_freeblock() == start_of(want, 0));
    assert forall|i: int| 0 <= i < want.len() implies {
        &&& 8 <= (#[trigger] want[i]).start
        &&& 4 <= want[i].size
        &&& want[i].start + want[i].size <= usable
        &&& after.offset + want[i].start + want[i].size <= after.buf.len()
    } by {
        if i < n {
            assert(want[i] == b[i]);
        } else if i > n {
            assert(want[i] == b[i - 1]);
        }
    }
    assert forall|i: int| 0 <= i < want.len() implies #[trigger] block_stands(after, want, i) by {
        if i < n {
            assert(want[i] == b[i]);
            lemma_block_kept(page, after, b, n, new, link, i, usable);
            assert(start_of(want, i + 1) == if i == n - 1 {
                new.start
            } else {
                start_of(b, i + 1)
            });
        } else if i > n {
            assert(want[i] == b[i - 1]);
            lemma_block_kept(page, after, b, n, new, link, i - 1, usable);
            assert(start_of(want, i + 1) == start_of(b, i));
        } else {
            assert(start_of(want, i + 1) == start_of(b, n));
        }
    }
}

/// Blocks that ascend and lie apart, with one that lies between two of them.
proof fn lemma_blocks_apart(b: Seq<Block>, n: int, new: Block)
    requires
        0 <= n <= b.len(),
        4 <= new.size,
        forall|i: int| 0 <= i < b.len() ==> 4 <= (#[trigger] b[i]).size,
        forall|i: int, j: int|
            0 <= i < j < b.len() ==> (#[trigger] b[i]).start + b[i].size <= (#[trigger] b[j]).start,
        forall|i: int|
            0 <= i < b.len() ==> new.start + new.size <= (#[trigger] b[i]).start || b[i].start
                + b[i].size <= new.start,
        forall|j: int| 0 <= j < n ==> (#[trigger] b[j]).start < new.start,
        n < b.len() ==> b[n].start >= new.start,
    ensures
        ({
            let want = b.insert(n, new);
            &&& forall|i: int|
                0 <= i < b.len() ==> {
                    &&& i < n ==> (#[trigger] b[i]).start + b[i].size <= new.start
                    &&& i >= n ==> new.start + new.size <= b[i].start
                }
            &&& forall|i: int, j: int|
                0 <= i < j < want.len() ==> (#[trigger] want[i]).start + want[i].size <= (
                #[trigger] want[j]).start
        }),
{
    let want = b.insert(n, new);
    assert forall|i: int| 0 <= i < b.len() implies {
        &&& i < n ==> (#[trigger] b[i]).start + b[i].size <= new.start
        &&& i >= n ==> new.start + new.size <= b[i].start
    } by {
        if i > n {
            assert(b[n].start + b[n].size <= b[i].start);
        }
    }
    assert forall|i: int, j: int| 0 <= i < j < want.len() implies (#[trigger] want[i]).start
        + want[i].size <= (#[trigger] want[j]).start by {
        let x = if i < n {
            i
        } else {
            i - 1
        };
        let y = if j < n {
            j
        } else {
            j - 1
        };
        if i == n {
            assert(want[j] == b[y]);
        } else if j == n {
            assert(want[i] == b[x]);
        } else {
            assert(want[i] == b[x] && want[j] == b[y]);
        }
    }
}

/// A block of the list keeps its size, and leads to the next block or the new one.
proof fn lemma_block_kept(
    page: PageModel,
    after: PageModel,
    b: Seq<Block>,
    n: int,
    new: Block,
    link: int,
    i: int,
    usable: int,
)
    requires
        page.offset >= 0,
        listed(page, b, usable),
        0 <= n <= b.len(),
        0 <= i < b.len(),
        8 <= new.start,
        4 <= new.size,
        i < n ==> b[i].start + b[i].size <= new.start,
        i >= n ==> new.start + new.size <= b[i].start,
        link == (if n == 0 {
            1
        } else {
            b[n - 1].start
        }),
        after.offset == page.offset,
        after.buf.len() == page.buf.len(),
        after.u16_at(link) == new.start,
        forall|k: int|
            0 <= k < page.buf.len() - page.offset && !(new.start <= k < new.start + 4) && !(link
                <= k < link + 2) ==> #[trigger] after.u8_at(k) == page.u8_at(k),
    ensures
        after.u16_at(b[i].start) == if i == n - 1 {
            new.start
        } else {
            start_of(b, i + 1)
        },
        after.u16_at(b[i].start + 2) == b[i].size,
{
    let s = b[i].start;
    assert(block_stands(page, b, i));
    if i < n - 1 {
        assert(b[i].start + b[i].size <= b[n - 1].start);
    } else if n > 0 && i > n - 1 {
        assert(b[n - 1].start + b[n - 1].size <= b[i].start);
    }
    assert(after.u8_at(s + 2) == page.u8_at(s + 2) && after.u8_at(s + 3) == page.u8_at(s + 3));
    if i != n - 1 {
        assert(after.u8_at(s) == page.u8_at(s) && after.u8_at(s + 1) == page.u8_at(s + 1));
    }
}

} // verus!
