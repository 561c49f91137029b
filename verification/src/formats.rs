//! Where the parts of a page and of its cells stand.

use vstd::prelude::*;
use crate::bytes::{bytes32, zeros};
use crate::cell::{behind, cell_at, chain, payload_of, CellModel, Fetch};
use crate::fill::{new_cell, new_tree_page, overflow_page, pages_for, spill};
use crate::localparts::{are_limits, is_local_part, local_part_fills_pages};
use crate::numerals::{
    digits_value, short_numbers_are_read, short_numbers_are_written, written_numbers_stand_there,
};
use crate::page::{
    cell_head, header_size, leaf_type, type_code, type_of, CellHead, PageModel, PageType,
};
use crate::pager::{loaded, page_of, DatabaseHeader, PageState};
use crate::values::{is_varint, lemma_varint_there, lemma_varint_written};
use crate::varint::varint_bytes;

verus! {

/// The number in the `n` bytes at `pos`, most significant first.
pub open spec fn number_at(s: Seq<u8>, pos: int, n: int) -> int {
    digits_value(s.subrange(pos, pos + n))
}

// ---------------------------------------------------------------------------
// The header of a page
// ---------------------------------------------------------------------------

/// The bytes that stand for the types of pages.
pub proof fn page_types_have_codes(t: PageType, code: int)
    ensures
        type_code(PageType::IndexInterior) == 2,
        type_code(PageType::TableInterior) == 5,
        type_code(PageType::IndexLeaf) == 10,
        type_code(PageType::TableLeaf) == 13,
        type_of(code) == Some(t) <==> type_code(t) == code,
        type_of(code) is Some <==> code == 2 || code == 5 || code == 10 || code == 13,
        leaf_type(t) <==> t == PageType::IndexLeaf || t == PageType::TableLeaf,
{
}

/// Where the numbers of a page's header stand, and behind it the cell pointers.
pub proof fn page_headers_are_read(page: PageModel, i: int)
    requires
        0 <= page.offset,
        page.offset + 12 <= page.buf.len(),
        0 <= i,
    ensures
        page.page_type() == type_of(page.buf[page.offset] as int),
        page.first_freeblock() == number_at(page.buf, page.offset + 1, 2),
        page.cell_count() == number_at(page.buf, page.offset + 3, 2),
        page.cell_content_area() == number_at(page.buf, page.offset + 5, 2),
        page.num_frag_free_bytes() == page.buf[page.offset + 7],
        page.rightmost() == number_at(page.buf, page.offset + 8, 4),
        ({
            let code = page.buf[page.offset];
            let at = page.offset + 2 * i + (if code == 2 || code == 5 {
                12int
            } else {
                8int
            });
            page.page_type() is Some && at + 2 <= page.buf.len() ==> page.cell_pointer(i)
                == number_at(page.buf, at, 2)
        }),
{
    let o = page.offset;
    short_numbers_are_read(page.buf, o + 1);
    short_numbers_are_read(page.buf, o + 3);
    short_numbers_are_read(page.buf, o + 5);
    short_numbers_are_read(page.buf, o + 8);
    if page.page_type() is Some {
        short_numbers_are_read(page.buf, o + header_size(page.kind()) + 2 * i);
    }
}

/// A number is written to a page at a place counted from the start of its header,
/// and nothing else changes.
pub proof fn page_numbers_are_written(page: PageModel, pos: int, v: int)
    requires
        0 <= page.offset,
        0 <= pos,
    ensures
        page.offset + pos < page.buf.len() && 0 <= v < 0x100 ==> only_written(
            page,
            page.with_u8(pos, v),
            pos,
            1,
            v,
        ),
        page.offset + pos + 2 <= page.buf.len() && 0 <= v < 0x1_0000 ==> only_written(
            page,
            page.with_u16(pos, v),
            pos,
            2,
            v,
        ),
        page.offset + pos + 4 <= page.buf.len() && 0 <= v < 0x1_0000_0000 ==> only_written(
            page,
            page.with_u32(pos, v),
            pos,
            4,
            v,
        ),
{
    let at = page.offset + pos;
    written_numbers_stand_there(page.buf, at, v);
    if at < page.buf.len() && 0 <= v < 0x100 {
        let b = page.with_u8(pos, v).buf.subrange(at, at + 1);
        reveal_with_fuel(digits_value, 2);
        assert(b.drop_last().len() == 0);
        assert(b.last() == v);
    }
}

/// Whether `after` is `page` with the number `v` in the `n` bytes at `pos`.
pub open spec fn only_written(page: PageModel, after: PageModel, pos: int, n: int, v: int) -> bool {
    &&& after.offset == page.offset
    &&& after.overflow_cells == page.overflow_cells
    &&& after.buf.len() == page.buf.len()
    &&& number_at(after.buf, page.offset + pos, n) == v
    &&& forall|k: int|
        0 <= k < page.buf.len() && !(page.offset + pos <= k < page.offset + pos + n)
            ==> #[trigger] after.buf[k] == page.buf[k]
}

/// A new page has its type, an empty content area that starts behind the last
/// usable byte, and zeros everywhere else.
pub proof fn new_pages_are_empty(t: PageType, h: DatabaseHeader)
    requires
        12 <= h.page_size,
        h.unused_space <= h.page_size,
    ensures
        ({
            let page = new_tree_page(t, h);
            &&& page.offset == 0
            &&& page.overflow_cells.len() == 0
            &&& page.buf.len() == h.page_size
            &&& page.buf[0] == type_code(t)
            &&& number_at(page.buf, 5, 2) == h.page_size - h.unused_space
            &&& forall|k: int|
                0 < k < h.page_size && k != 5 && k != 6 ==> #[trigger] page.buf[k] == 0
        }),
{
    let page = new_tree_page(t, h);
    let u = h.page_size - h.unused_space;
    short_numbers_are_written(u);
    short_numbers_are_written(0);
    let z4 = bytes32(0);
    assert(z4[0] == 0 && z4[1] == 0 && z4[2] == 0 && z4[3] == 0);
    assert(page.buf.subrange(5, 7) =~= crate::bytes::bytes16(u));
}

// ---------------------------------------------------------------------------
// The layout of a cell
// ---------------------------------------------------------------------------

/// Whether `part` stands at `pos`.
pub open spec fn stands(s: Seq<u8>, pos: int, part: Seq<u8>) -> bool {
    &&& 0 <= pos
    &&& pos + part.len() <= s.len()
    &&& s.subrange(pos, pos + part.len()) == part
}

/// Whether a payload of `len` bytes that starts at `body` is laid out as `h` says: up
/// to `hi` bytes stand in the cell, of a longer payload the part that is due
/// and behind it the number of an overflow page.
pub open spec fn is_laid_out(
    h: CellHead,
    len: int,
    body: int,
    lo: int,
    hi: int,
    usable: int,
) -> bool {
    &&& h.payload_len == len
    &&& h.body == body
    &&& h.spills <==> len > hi
    &&& len <= hi ==> h.local == len && h.end() == body + len
    &&& len > hi ==> is_local_part(h.local, len, lo, hi, usable) && h.end() == body + h.local + 4
}

proof fn lemma_laid_out(
    buf: Seq<u8>,
    t: PageType,
    child: int,
    rowid: int,
    len: int,
    body: int,
    lo: int,
    hi: int,
    usable: int,
)
    requires
        are_limits(lo, hi, t, usable),
    ensures
        ({
            let r = crate::page::with_payload(buf, t, usable, child, rowid, len, body);
            &&& body + hi + 4 <= buf.len() ==> r is Some
            &&& r is Some ==> {
                let h = r.unwrap();
                &&& is_laid_out(h, len, body, lo, hi, usable)
                &&& h.child == child
                &&& h.rowid == rowid
                &&& h.end() <= buf.len()
            }
            &&& len <= hi && body + len <= buf.len() ==> r is Some
            &&& len <= hi && body + len > buf.len() ==> r is None
        }),
{
    local_part_fills_pages(len, t, usable, lo, hi);
}

/// A cell of a table's leaf is the length of its payload, its row id and the
/// payload.
pub proof fn table_leaf_cells_are_read(
    s: Seq<u8>,
    pos: int,
    len_part: Seq<u8>,
    len: int,
    rowid_part: Seq<u8>,
    rowid: int,
    lo: int,
    hi: int,
    usable: int,
)
    requires
        are_limits(lo, hi, PageType::TableLeaf, usable),
        is_varint(len_part, len),
        is_varint(rowid_part, rowid),
        stands(s, pos, len_part),
        stands(s, pos + len_part.len(), rowid_part),
    ensures
        ({
            let body = pos + len_part.len() + rowid_part.len();
            let r = cell_head(s, PageType::TableLeaf, pos, usable);
            &&& body + hi + 4 <= s.len() || len <= hi && body + len <= s.len() ==> r is Some
            &&& r is Some ==> {
                &&& is_laid_out(r.unwrap(), len, body, lo, hi, usable)
                &&& r.unwrap().rowid == rowid
                &&& r.unwrap().end() <= s.len()
            }
        }),
{
    lemma_varint_there(s, pos, len_part, len);
    lemma_varint_there(s, pos + len_part.len(), rowid_part, rowid);
    let body = pos + len_part.len() + rowid_part.len();
    lemma_laid_out(s, PageType::TableLeaf, 0, rowid, len, body, lo, hi, usable);
}

/// A cell of an index's leaf is the length of its payload and the payload.
pub proof fn index_leaf_cells_are_read(
    s: Seq<u8>,
    pos: int,
    len_part: Seq<u8>,
    len: int,
    lo: int,
    hi: int,
    usable: int,
)
    requires
        are_limits(lo, hi, PageType::IndexLeaf, usable),
        is_varint(len_part, len),
        stands(s, pos, len_part),
    ensures
        ({
            let body = pos + len_part.len();
            let r = cell_head(s, PageType::IndexLeaf, pos, usable);
            &&& body + hi + 4 <= s.len() || len <= hi && body + len <= s.len() ==> r is Some
            &&& r is Some ==> {
                &&& is_laid_out(r.unwrap(), len, body, lo, hi, usable)
                &&& r.unwrap().end() <= s.len()
            }
        }),
{
    lemma_varint_there(s, pos, len_part, len);
    lemma_laid_out(s, PageType::IndexLeaf, 0, 0, len, pos + len_part.len(), lo, hi, usable);
}

/// A cell of a table's interior page is the number of a child in four bytes and
/// a row id.
pub proof fn table_interior_cells_are_read(
    s: Seq<u8>,
    pos: int,
    rowid_part: Seq<u8>,
    rowid: int,
    usable: int,
)
    requires
        0 <= pos,
        is_varint(rowid_part, rowid),
        stands(s, pos + 4, rowid_part),
    ensures
        ({
            let r = cell_head(s, PageType::TableInterior, pos, usable);
            &&& r is Some
            &&& r.unwrap().child == number_at(s, pos, 4)
            &&& r.unwrap().rowid == rowid
            &&& r.unwrap().end() == pos + 4 + rowid_part.len()
        }),
{
    lemma_varint_there(s, pos + 4, rowid_part, rowid);
    short_numbers_are_read(s, pos);
}

/// A cell of an index's interior page is the number of a child in four bytes, the
/// length of its payload and the payload.
pub proof fn index_interior_cells_are_read(
    s: Seq<u8>,
    pos: int,
    len_part: Seq<u8>,
    len: int,
    lo: int,
    hi: int,
    usable: int,
)
    requires
        0 <= pos,
        are_limits(lo, hi, PageType::IndexInterior, usable),
        is_varint(len_part, len),
        stands(s, pos + 4, len_part),
    ensures
        ({
            let body = pos + 4 + len_part.len();
            let r = cell_head(s, PageType::IndexInterior, pos, usable);
            &&& body + hi + 4 <= s.len() || len <= hi && body + len <= s.len() ==> r is Some
            &&& r is Some ==> {
                &&& is_laid_out(r.unwrap(), len, body, lo, hi, usable)
                &&& r.unwrap().child == number_at(s, pos, 4)
                &&& r.unwrap().end() <= s.len()
            }
        }),
{
    lemma_varint_there(s, pos + 4, len_part, len);
    short_numbers_are_read(s, pos);
    lemma_laid_out(
        s,
        PageType::IndexInterior,
        crate::bytes::be32(s, pos),
        0,
        len,
        pos + 4 + len_part.len(),
        lo,
        hi,
        usable,
    );
}

/// A cell of a page is what its layout and its payload say.
pub proof fn cells_are_read(
    pages: Map<usize, PageState>,
    page: PageModel,
    i: int,
    usable: int,
    h: CellHead,
    payload: Seq<u8>,
)
    requires
        page.head(i, usable) == Some(h),
        payload_of(pages, page.buf, h, usable) == Fetch::Ready(payload),
    ensures
        page.page_type() == Some(PageType::TableLeaf) ==> cell_at(pages, page, i, usable)
            == Fetch::Ready(CellModel::TableLeaf { rowid: h.rowid, payload }),
        page.page_type() == Some(PageType::IndexLeaf) ==> cell_at(pages, page, i, usable)
            == Fetch::Ready(CellModel::IndexLeaf { payload }),
        page.page_type() == Some(PageType::TableInterior) ==> cell_at(pages, page, i, usable)
            == Fetch::Ready(CellModel::TableInterior { child: h.child, rowid: h.rowid }),
        page.page_type() == Some(PageType::IndexInterior) ==> cell_at(pages, page, i, usable)
            == Fetch::Ready(CellModel::IndexInterior { child: h.child, payload }),
{
}

/// The layout of a cell is read where its pointer says.
pub proof fn cells_stand_where_pointers_say(page: PageModel, i: int, usable: int)
    requires
        0 <= page.offset,
        page.offset + 12 <= page.buf.len(),
        page.page_type() is Some,
        0 <= i,
    ensures
        ({
            let code = page.buf[page.offset];
            let at = page.offset + 2 * i + (if code == 2 || code == 5 {
                12int
            } else {
                8int
            });
            &&& at + 2 > page.buf.len() ==> page.head(i, usable) is None
            &&& at + 2 <= page.buf.len() ==> page.head(i, usable) == cell_head(
                page.buf,
                page.page_type().unwrap(),
                number_at(page.buf, at, 2),
                usable,
            )
        }),
{
    page_headers_are_read(page, i);
}

// ---------------------------------------------------------------------------
// Payloads
// ---------------------------------------------------------------------------

/// Page `n` of a chain of overflow pages that starts with page `first`. Each page
/// names the next one in its first four bytes.
pub open spec fn chain_page(pages: Map<usize, PageState>, first: int, n: nat) -> int
    decreases n,
{
    if n == 0 {
        first
    } else {
        number_at(page_of(pages, chain_page(pages, first, (n - 1) as nat) as usize).buf, 0, 4)
    }
}

/// A chain of overflow pages holds, in the bytes of each page behind the first four,
/// a part of the payload. All parts but the last one fill their page.
pub proof fn chains_are_read(
    pages: Map<usize, PageState>,
    first: int,
    left: int,
    usable: int,
    i: int,
)
    requires
        4 < usable,
        forall|id: usize| #[trigger] loaded(pages, id) ==> page_of(pages, id).buf.len() >= usable,
        chain(pages, first, left, usable) is Ready,
        0 <= i < left,
    ensures
        ({
            let p = chain(pages, first, left, usable)->Ready_0;
            let room = usable - 4;
            let id = chain_page(pages, first, (i / room) as nat);
            &&& p.len() == left
            &&& id != 0
            &&& loaded(pages, id as usize)
            &&& p[i] == page_of(pages, id as usize).buf[4 + i % room]
        }),
    decreases left,
{
    let room = usable - 4;
    let page = page_of(pages, first as usize);
    assert(loaded(pages, first as usize));
    let here = if left < room {
        left
    } else {
        room
    };
    let next = crate::bytes::be32(page.buf, 0);
    let rest = chain(pages, next, left - here, usable);
    assert(chain(pages, first, left, usable) == behind(page.buf.subrange(4, 4 + here), rest));
    let p = chain(pages, first, left, usable)->Ready_0;
    if left - here <= 0 {
        assert(rest == Fetch::Ready(Seq::<u8>::empty()));
    } else {
        chains_are_read(pages, next, left - here, usable, if i < here {
            0
        } else {
            i - here
        });
    }
    if i < here {
        lemma_small_parts(i, room);
        assert(p[i] == page.buf.subrange(4, 4 + here)[i]);
    } else {
        lemma_next_part(i, room);
        short_numbers_are_read(page.buf, 0);
        lemma_chain_behind(pages, first, ((i - here) / room) as nat);
        assert(p[i] == rest->Ready_0[i - here]);
    }
}

/// A chain that breaks off before the payload ends is corrupt, and one with a page
/// that is not in memory waits for that page: the first such page tells.
pub proof fn broken_chains_are_told(
    pages: Map<usize, PageState>,
    first: int,
    left: int,
    usable: int,
    n: nat,
)
    requires
        4 < usable,
        forall|id: usize| #[trigger] loaded(pages, id) ==> page_of(pages, id).buf.len() >= usable,
        n * (usable - 4) < left,
        forall|m: nat|
            m < n ==> #[trigger] chain_page(pages, first, m) != 0 && loaded(
                pages,
                chain_page(pages, first, m) as usize,
            ),
    ensures
        ({
            let id = chain_page(pages, first, n);
            &&& id == 0 ==> chain(pages, first, left, usable) is Corrupt
            &&& id != 0 && !loaded(pages, id as usize) ==> chain(pages, first, left, usable)
                == Fetch::<Seq<u8>>::Wait(id as usize)
        }),
    decreases n,
{
    let room = usable - 4;
    if n == 0 {
        assert(0 * room == 0) by (nonlinear_arith);
    } else {
        let m = (n - 1) as nat;
        assert(n * room == m * room + room) by (nonlinear_arith)
            requires
                n == m + 1,
        ;
        assert(m * room >= 0) by (nonlinear_arith)
            requires
                room > 0,
        ;
        assert(chain_page(pages, first, 0) == first);
        let page = page_of(pages, first as usize);
        let next = number_at(page.buf, 0, 4);
        short_numbers_are_read(page.buf, 0);
        assert forall|i: nat| i < m implies #[trigger] chain_page(pages, next, i) != 0 && loaded(
            pages,
            chain_page(pages, next, i) as usize,
        ) by {
            lemma_chain_behind(pages, first, i);
            assert(chain_page(pages, first, i + 1) != 0);
        }
        broken_chains_are_told(pages, next, left - room, usable, m);
        lemma_chain_behind(pages, first, m);
    }
}

/// Bytes of the first part.
proof fn lemma_small_parts(i: int, room: int)
    requires
        0 <= i < room,
    ensures
        i / room == 0,
        i % room == i,
{
    vstd::arithmetic::div_mod::lemma_small_mod(i as nat, room as nat);
    vstd::arithmetic::div_mod::lemma_basic_div(i, room);
}

/// Bytes of the parts behind the first.
proof fn lemma_next_part(i: int, room: int)
    requires
        0 < room <= i,
    ensures
        i / room == (i - room) / room + 1,
        i % room == (i - room) % room,
        (i - room) / room >= 0,
{
    vstd::arithmetic::div_mod::lemma_div_minus_one(i, room);
    vstd::arithmetic::div_mod::lemma_mod_sub_multiples_vanish(i, room);
    vstd::arithmetic::div_mod::lemma_div_pos_is_pos(i - room, room);
}

/// A chain without its first page.
proof fn lemma_chain_behind(pages: Map<usize, PageState>, first: int, n: nat)
    ensures
        chain_page(pages, first, n + 1) == chain_page(
            pages,
            number_at(page_of(pages, first as usize).buf, 0, 4),
            n,
        ),
    decreases n,
{
    if n > 0 {
        lemma_chain_behind(pages, first, (n - 1) as nat);
    } else {
        reveal_with_fuel(chain_page, 2);
    }
}

/// A payload that does not spill stands in its cell. One that spills goes on over the
/// chain that starts with the page whose number stands behind the local part.
pub proof fn payloads_are_read(
    pages: Map<usize, PageState>,
    buf: Seq<u8>,
    h: CellHead,
    usable: int,
)
    requires
        0 <= h.body,
        0 <= h.local,
        h.end() <= buf.len(),
    ensures
        !h.spills ==> payload_of(pages, buf, h, usable) == Fetch::Ready(
            buf.subrange(h.body, h.body + h.local),
        ),
        h.spills ==> {
            let first = number_at(buf, h.body + h.local, 4);
            let rest = chain(pages, first, h.payload_len - h.local, usable);
            &&& payload_of(pages, buf, h, usable) is Ready <==> rest is Ready
            &&& rest is Wait ==> payload_of(pages, buf, h, usable) == Fetch::<Seq<u8>>::Wait(
                rest->Wait_0,
            )
            &&& rest is Corrupt ==> payload_of(pages, buf, h, usable) is Corrupt
            &&& rest is Ready ==> payload_of(pages, buf, h, usable)->Ready_0 == buf.subrange(
                h.body,
                h.body + h.local,
            ) + rest->Ready_0
        },
{
    short_numbers_are_read(buf, h.body + h.local);
}

/// `len` bytes take as few overflow pages as hold them.
pub proof fn overflow_pages_are_few(len: int, usable: int)
    requires
        4 < usable,
        0 <= len,
    ensures
        ({
            let n = pages_for(len, usable);
            &&& 0 <= n
            &&& n == 0 <==> len == 0
            &&& len <= n * (usable - 4)
            &&& n > 0 ==> (n - 1) * (usable - 4) < len
        }),
    decreases len,
{
    let room = usable - 4;
    if len > room {
        overflow_pages_are_few(len - room, usable);
        let m = pages_for(len - room, usable);
        assert((m + 1) * room == m * room + room) by (nonlinear_arith);
        assert((m - 1) * room == m * room - room) by (nonlinear_arith);
    } else if len > 0 {
        assert(1 * room == room) by (nonlinear_arith);
        assert(0 * room == 0) by (nonlinear_arith);
    } else {
        assert(0 * room == 0) by (nonlinear_arith);
    }
}

/// An overflow page holds the number of the next one, its part of the payload and
/// zeros.
pub proof fn overflow_pages_are_written(next: int, part: Seq<u8>, page_size: int)
    requires
        0 <= next < 0x1_0000_0000,
        4 + part.len() <= page_size,
    ensures
        ({
            let page = overflow_page(next, part, page_size);
            &&& page.offset == 0
            &&& page.overflow_cells.len() == 0
            &&& page.buf.len() == page_size
            &&& number_at(page.buf, 0, 4) == next
            &&& stands(page.buf, 4, part)
            &&& forall|k: int|
                4 + part.len() <= k < page_size ==> #[trigger] page.buf[k] == 0
        }),
{
    let page = overflow_page(next, part, page_size);
    short_numbers_are_written(next);
    assert(page.buf.subrange(0, 4) =~= bytes32(next));
    assert(page.buf.subrange(4, 4 + (part.len() as int)) =~= part);
}

/// A new cell of a leaf is the length of its payload, on a table's leaf the row id,
/// and the payload. A payload that stands there as a whole has four zeros behind
/// it, a longer one the number of its first overflow page. What is left goes there.
pub proof fn new_cells_are_laid_out(
    t: PageType,
    rowid: u64,
    payload: Seq<u8>,
    id: int,
    lo: int,
    hi: int,
    usable: int,
)
    requires
        t == PageType::TableLeaf || t == PageType::IndexLeaf,
        are_limits(lo, hi, t, usable),
        payload.len() <= u64::MAX,
        0 <= id < 0x1_0000_0000,
    ensures
        ({
            let c = new_cell(t, Some(rowid), payload, id, usable);
            let rest = spill(t, payload, usable);
            let len = payload.len() as int;
            exists|a: Seq<u8>, b: Seq<u8>, e: Seq<u8>| #[trigger]
                is_new_cell(c, a, b, e) && is_varint(a, len) && (if t == PageType::TableLeaf {
                    is_varint(b, rowid as int)
                } else {
                    b.len() == 0
                }) && if len <= hi {
                    &&& rest.len() == 0
                    &&& e == payload + seq![0u8, 0u8, 0u8, 0u8]
                } else {
                    let k = e.len() - 4;
                    &&& is_local_part(k, len, lo, hi, usable)
                    &&& payload == e.take(k) + rest
                    &&& number_at(e, k, 4) == id
                }
        }),
{
    let len = payload.len() as int;
    let c = new_cell(t, Some(rowid), payload, id, usable);
    let a = varint_bytes(len);
    let b = if t == PageType::TableLeaf {
        varint_bytes(rowid as int)
    } else {
        Seq::empty()
    };
    lemma_varint_written(len as u64);
    lemma_varint_written(rowid);
    local_part_fills_pages(len, t, usable, lo, hi);
    short_numbers_are_written(id);
    if len <= hi {
        let e = payload + seq![0u8, 0u8, 0u8, 0u8];
        assert(e =~= payload + zeros(4));
        assert(c =~= a + b + e);
        assert(is_new_cell(c, a, b, e));
    } else {
        let k = crate::page::spilled_local(len, t, usable);
        let e = payload.take(k) + bytes32(id);
        assert(c =~= a + b + e);
        assert(e.take(k) =~= payload.take(k));
        assert(payload =~= payload.take(k) + payload.skip(k));
        assert(e.subrange(k, k + 4) =~= bytes32(id));
        assert(is_new_cell(c, a, b, e));
    }
}

/// Whether the cell is made of these parts.
pub open spec fn is_new_cell(c: Seq<u8>, a: Seq<u8>, b: Seq<u8>, e: Seq<u8>) -> bool {
    c == a + b + e
}

} // verus!
