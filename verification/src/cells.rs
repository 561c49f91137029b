//! The cells of a page as strings of bytes, and what happens to them when a
//! cell is put on the page.

use vstd::prelude::*;
use crate::balance::{cell_bytes, cells_on};
use crate::bytes::{be16, be32, bytes16, put16, splice};
use crate::page::{
    cell_head, leaf_type, lemma_limits, lemma_spilled_local, usable_ok, CellHead, PageModel,
    PageType,
};
use crate::space::{
    allocate_ok, allocated, free_space, free_space_ok, free_start, free_total, has_room, insert_ok,
    inserted, pointers_end, tries_blocks, with_pointers_moved, Room,
};
use crate::varint::{lemma_varint_bounds, lemma_varint_frame, lemma_varint_value, varint_at};

verus! {

/// Whether cell `i` lies in the content area.
pub open spec fn cell_inside(page: PageModel, i: int, usable: int) -> bool {
    &&& page.head(i, usable) is Some
    &&& page.cell_content_area() <= page.cell_pointer(i)
    &&& page.head(i, usable).unwrap().end() <= usable
}

/// Whether cells `i` and `j` have no byte in common.
pub open spec fn apart(page: PageModel, i: int, j: int, usable: int) -> bool {
    ||| page.head(i, usable).unwrap().end() <= page.cell_pointer(j)
    ||| page.head(j, usable).unwrap().end() <= page.cell_pointer(i)
}

/// A page as this library makes them: the header at its start, the cell
/// pointers below the content area, all cells inside it and apart, no free block,
/// no fragments, and between pointers and content the room that the longer page
/// header would take on a leaf.
pub open spec fn tidy(page: PageModel, usable: int) -> bool {
    &&& page.page_type() is Some
    &&& page.offset == 0
    &&& 12 + 2 * page.cell_count() <= page.cell_content_area() <= usable
    &&& usable <= page.buf.len() <= u16::MAX
    &&& page.first_freeblock() == 0
    &&& page.num_frag_free_bytes() == 0
    &&& forall|i: int| 0 <= i < page.cell_count() ==> #[trigger] cell_inside(page, i, usable)
    &&& forall|i: int, j: int| 0 <= i < j < page.cell_count() ==> #[trigger] apart(page, i, j, usable)
}

/// The layout of a cell with all places moved by `by`.
pub open spec fn shifted(h: CellHead, by: int) -> CellHead {
    CellHead { body: h.body + by, ..h }
}

/// Whether the bytes start with a cell of a page of type `t`.
pub open spec fn starts_cell(c: Seq<u8>, t: PageType, usable: int) -> bool {
    cell_head(c, t, 0, usable) is Some
}

/// The layout of the cell with which the bytes start.
pub open spec fn cell_layout(c: Seq<u8>, t: PageType, usable: int) -> CellHead {
    cell_head(c, t, 0, usable).unwrap()
}

/// The bytes of the cell with which the bytes start, without what follows.
pub open spec fn trimmed(c: Seq<u8>, t: PageType, usable: int) -> Seq<u8> {
    c.take(cell_layout(c, t, usable).end())
}

/// A cell lies inside its bytes.
pub proof fn lemma_cell_head_bounds(s: Seq<u8>, t: PageType, p: int, usable: int)
    requires
        usable_ok(usable),
        0 <= p,
        cell_head(s, t, p, usable) is Some,
    ensures
        ({
            let h = cell_head(s, t, p, usable).unwrap();
            &&& p < h.body <= h.body + h.local <= h.end() <= s.len()
            &&& 0 <= h.local <= h.payload_len
            &&& h.spills ==> h.body + h.local + 4 == h.end()
        }),
{
    lemma_limits(usable);
    let h = cell_head(s, t, p, usable).unwrap();
    match t {
        PageType::TableInterior => {
            lemma_varint_bounds(s, p + 4, 0, 0);
        },
        PageType::IndexInterior => {
            lemma_varint_bounds(s, p + 4, 0, 0);
            lemma_varint_value(s, p + 4, 0, 0);
        },
        PageType::TableLeaf => {
            lemma_varint_bounds(s, p, 0, 0);
            lemma_varint_value(s, p, 0, 0);
            lemma_varint_bounds(s, p + varint_at(s, p).unwrap().1, 0, 0);
        },
        PageType::IndexLeaf => {
            lemma_varint_bounds(s, p, 0, 0);
            lemma_varint_value(s, p, 0, 0);
        },
    }
    if h.spills {
        lemma_spilled_local(h.payload_len, t, usable);
    }
}

/// A cell is laid out the same wherever its bytes stand.
pub proof fn lemma_cell_head_moved(
    s: Seq<u8>,
    p: int,
    r: Seq<u8>,
    q: int,
    t: PageType,
    usable: int,
)
    requires
        usable_ok(usable),
        0 <= p,
        0 <= q,
        cell_head(s, t, p, usable) is Some,
        q + cell_head(s, t, p, usable).unwrap().end() - p <= r.len(),
        forall|i: int|
            0 <= i < cell_head(s, t, p, usable).unwrap().end() - p ==> #[trigger] s[p + i] == r[q
                + i],
    ensures
        cell_head(r, t, q, usable) == Some(
            shifted(cell_head(s, t, p, usable).unwrap(), q - p),
        ),
{
    lemma_cell_head_bounds(s, t, p, usable);
    match t {
        PageType::TableInterior | PageType::IndexInterior => {
            lemma_varint_bounds(s, p + 4, 0, 0);
            let n = varint_at(s, p + 4).unwrap().1;
            assert(s[p + 0] == r[q + 0] && s[p + 1] == r[q + 1] && s[p + 2] == r[q + 2] && s[p + 3]
                == r[q + 3]);
            assert(be32(s, p) == be32(r, q));
            assert forall|i: int| 0 <= i < n implies #[trigger] s[p + 4 + i] == r[q + 4 + i] by {
                assert(s[p + (4 + i)] == r[q + (4 + i)]);
            }
            lemma_varint_frame(s, p + 4, r, q + 4, 0, 0);
        },
        PageType::TableLeaf => {
            lemma_varint_bounds(s, p, 0, 0);
            let n = varint_at(s, p).unwrap().1;
            lemma_varint_bounds(s, p + n, 0, 0);
            let m = varint_at(s, p + n).unwrap().1;
            assert forall|i: int| 0 <= i < m implies #[trigger] s[p + n + i] == r[q + n + i] by {
                assert(s[p + (n + i)] == r[q + (n + i)]);
            }
            lemma_varint_frame(s, p, r, q, 0, 0);
            lemma_varint_frame(s, p + n, r, q + n, 0, 0);
        },
        PageType::IndexLeaf => {
            lemma_varint_bounds(s, p, 0, 0);
            lemma_varint_frame(s, p, r, q, 0, 0);
        },
    }
}

/// The bytes of a page with `n` cell pointers from `a` on, after `payload` was
/// copied to `at` and `at` became pointer `idx`.
pub open spec fn with_cell_at(
    buf: Seq<u8>,
    a: int,
    n: int,
    idx: int,
    at: int,
    payload: Seq<u8>,
) -> Seq<u8> {
    let slot = a + 2 * idx;
    let copied = splice(buf, at, payload);
    let moved = if n > idx {
        splice(copied, slot + 2, copied.subrange(slot, slot + 2 * (n - idx)))
    } else {
        copied
    };
    put16(put16(put16(moved, slot, at), 5, at), 3, n + 1)
}

/// Which bytes that changes.
pub proof fn lemma_with_cell_at(buf: Seq<u8>, a: int, n: int, idx: int, at: int, payload: Seq<u8>)
    requires
        a == 8 || a == 12,
        0 <= idx <= n < 65535,
        a + 2 * n + 2 <= at,
        at + payload.len() <= buf.len() <= 65535,
    ensures
        ({
            let after = with_cell_at(buf, a, n, idx, at, payload);
            &&& after.len() == buf.len()
            &&& forall|k: int| 0 <= k < 3 ==> #[trigger] after[k] == buf[k]
            &&& be16(after, 3) == n + 1
            &&& be16(after, 5) == at
            &&& forall|k: int| 7 <= k < a + 2 * idx ==> #[trigger] after[k] == buf[k]
            &&& be16(after, a + 2 * idx) == at
            &&& forall|k: int|
                a + 2 * idx + 2 <= k < a + 2 * n + 2 ==> #[trigger] after[k] == buf[k - 2]
            &&& forall|k: int| at <= k < at + payload.len() ==> #[trigger] after[k] == payload[k
                - at]
            &&& forall|k: int|
                a + 2 * n + 2 <= k < buf.len() && !(at <= k < at + payload.len())
                    ==> #[trigger] after[k] == buf[k]
        }),
{
    let slot = a + 2 * idx;
    let copied = splice(buf, at, payload);
    let moved = if n > idx {
        splice(copied, slot + 2, copied.subrange(slot, slot + 2 * (n - idx)))
    } else {
        copied
    };
    assert forall|k: int| slot + 2 <= k < a + 2 * n + 2 implies #[trigger] moved[k] == copied[k
        - 2] by {
        assert(copied.subrange(slot, slot + 2 * (n - idx))[k - slot - 2] == copied[k - 2]);
    }
    let after = with_cell_at(buf, a, n, idx, at, payload);
    assert(after[3] == bytes16(n + 1)[0] && after[4] == bytes16(n + 1)[1]);
    assert(after[5] == bytes16(at)[0] && after[6] == bytes16(at)[1]);
    assert(after[slot] == bytes16(at)[0] && after[slot + 1] == bytes16(at)[1]);
    assert forall|k: int| slot + 2 <= k < a + 2 * n + 2 implies #[trigger] after[k] == buf[k
        - 2] by {
        assert(after[k] == moved[k]);
        assert(copied[k - 2] == buf[k - 2]);
    }
}

/// The bytes of a cell and its pointer, put into the room for them.
pub proof fn lemma_placing(base: PageModel, payload: Seq<u8>, idx: int, at: int)
    requires
        base.page_type() is Some,
        base.offset == 0,
        0 <= idx <= base.cell_count() < 65535,
        pointers_end(base) + 2 <= at,
        at + payload.len() <= base.buf.len(),
    ensures
        ({
            let a = base.pointers_at();
            let copied = base.with_buf(splice(base.buf, at, payload));
            let slot = copied.pointers_at() + 2 * idx;
            let pointed = with_pointers_moved(copied, idx).with_u16(slot, at).with_u16(5, at);
            let n = base.cell_count();
            &&& copied.page_type() == base.page_type()
            &&& copied.cell_count() == n
            &&& copied.pointers_at() == a
            &&& pointed.with_u16(3, (pointed.cell_count() + 1) % 65536) == base.with_buf(
                with_cell_at(base.buf, a, n, idx, at, payload),
            )
        }),
{
    let n = base.cell_count();
    let a = base.pointers_at();
    let copied = base.with_buf(splice(base.buf, at, payload));
    assert(copied.buf[0] == base.buf[0]);
    assert(copied.buf[3] == base.buf[3] && copied.buf[4] == base.buf[4]);
    let slot = a + 2 * idx;
    let pointed = with_pointers_moved(copied, idx).with_u16(slot, at).with_u16(5, at);
    assert(pointed.buf[3] == base.buf[3] && pointed.buf[4] == base.buf[4]);
    assert(pointed.cell_count() == n);
}

/// The bytes of a page with `n` cell pointers from `a` on, after `payload` was
/// copied to `top`, which became the start of the content area, and `top` became
/// pointer `idx`.
spec fn with_cell(buf: Seq<u8>, a: int, n: int, idx: int, top: int, payload: Seq<u8>) -> Seq<u8> {
    with_cell_at(put16(buf, 5, top), a, n, idx, top, payload)
}

/// The room for a cell on a tidy page lies directly below the content area.
proof fn lemma_room_in_gap(page: PageModel, payload: Seq<u8>, usable: int)
    requires
        tidy(page, usable),
        has_room(page, payload),
        usable_ok(usable),
    ensures
        ({
            let len = payload.len() as int;
            let content = page.cell_content_area();
            &&& free_space_ok(page, usable)
            &&& allocate_ok(page, len, usable)
            &&& 12 + 2 * page.cell_count() + 2 + len <= content <= usable
            &&& allocated(page, len, usable) == (Room {
                page: page.with_buf(put16(page.buf, 5, content - len)),
                at: content - len,
            })
        }),
{
    let n = page.cell_count();
    let content = page.cell_content_area();
    assert(free_total(page) == content);
    assert(free_start(page) == 12 + 2 * n);
    assert(free_space(page) == content - 12 - 2 * n);
    assert(!tries_blocks(page));
}

/// A cell for which a tidy page has room goes into the gap below the content area.
proof fn lemma_inserted_in_gap(page: PageModel, payload: Seq<u8>, idx: int, usable: int)
    requires
        tidy(page, usable),
        has_room(page, payload),
        0 <= idx <= page.cell_count(),
        usable_ok(usable),
    ensures
        insert_ok(page, payload, idx, usable),
        12 + 2 * page.cell_count() + 2 + payload.len() <= page.cell_content_area(),
        inserted(page, payload, idx, usable) == page.with_buf(
            with_cell(
                page.buf,
                page.pointers_at(),
                page.cell_count(),
                idx,
                page.cell_content_area() - payload.len(),
                payload,
            ),
        ),
{
    let n = page.cell_count();
    let top = page.cell_content_area() - payload.len();
    let a = page.pointers_at();
    lemma_room_in_gap(page, payload, usable);
    let base = page.with_buf(put16(page.buf, 5, top));
    assert(base.buf[0] == page.buf[0]);
    assert(base.buf[3] == page.buf[3] && base.buf[4] == page.buf[4]);
    assert(base.cell_count() == n && base.pointers_at() == a);
    lemma_placing(base, payload, idx, top);
}

proof fn lemma_with_cell(buf: Seq<u8>, a: int, n: int, idx: int, top: int, payload: Seq<u8>)
    requires
        a == 8 || a == 12,
        0 <= idx <= n < 65535,
        a + 2 * n + 2 <= top,
        top + payload.len() <= buf.len() <= 65535,
    ensures
        ({
            let after = with_cell(buf, a, n, idx, top, payload);
            &&& after.len() == buf.len()
            &&& forall|k: int| 0 <= k < 3 ==> #[trigger] after[k] == buf[k]
            &&& be16(after, 3) == n + 1
            &&& be16(after, 5) == top
            &&& forall|k: int| 7 <= k < a ==> #[trigger] after[k] == buf[k]
            &&& forall|k: int| a <= k < a + 2 * idx ==> #[trigger] after[k] == buf[k]
            &&& be16(after, a + 2 * idx) == top
            &&& forall|k: int|
                a + 2 * idx + 2 <= k < a + 2 * n + 2 ==> #[trigger] after[k] == buf[k - 2]
            &&& forall|k: int| top <= k < top + payload.len() ==> #[trigger] after[k]
                == payload[k - top]
            &&& forall|k: int| top + payload.len() <= k < buf.len() ==> #[trigger] after[k]
                == buf[k]
        }),
{
    let base = put16(buf, 5, top);
    let after = with_cell(buf, a, n, idx, top, payload);
    lemma_with_cell_at(base, a, n, idx, top, payload);
    assert forall|k: int| 0 <= k < 3 || 7 <= k < buf.len() implies #[trigger] base[k] == buf[k] by {}
    assert forall|k: int| 7 <= k < a + 2 * idx implies #[trigger] after[k] == buf[k] by {
        assert(base[k] == buf[k]);
    }
    assert forall|k: int| a + 2 * idx + 2 <= k < a + 2 * n + 2 implies #[trigger] after[k] == buf[k
        - 2] by {
        assert(base[k - 2] == buf[k - 2]);
    }
}

/// What the header and the pointers of a page are after a cell was put on it.
pub proof fn lemma_placed_shape(page: PageModel, payload: Seq<u8>, idx: int, usable: int)
    requires
        tidy(page, usable),
        has_room(page, payload),
        0 <= idx <= page.cell_count(),
        usable_ok(usable),
    ensures
        insert_ok(page, payload, idx, usable),
        ({
            let after = inserted(page, payload, idx, usable);
            let n = page.cell_count();
            let top = page.cell_content_area() - payload.len();
            &&& after == page.with_buf(after.buf)
            &&& after.buf.len() == page.buf.len()
            &&& 12 + 2 * n + 2 <= top
            &&& after.page_type() == page.page_type()
            &&& after.first_freeblock() == 0
            &&& after.num_frag_free_bytes() == 0
            &&& after.cell_count() == n + 1
            &&& after.cell_content_area() == top
            &&& after.pointers_at() == page.pointers_at()
            &&& !leaf_type(page.kind()) ==> after.rightmost() == page.rightmost()
            &&& forall|j: int|
                0 <= j < idx ==> after.cell_pointer(j) == #[trigger] page.cell_pointer(j)
            &&& after.cell_pointer(idx) == top
            &&& forall|j: int|
                idx <= j < n ==> after.cell_pointer(j + 1) == #[trigger] page.cell_pointer(j)
            &&& forall|k: int|
                top <= k < top + payload.len() ==> #[trigger] after.buf[k] == payload[k - top]
            &&& forall|k: int|
                page.cell_content_area() <= k < page.buf.len() ==> #[trigger] after.buf[k]
                    == page.buf[k]
        }),
{
    lemma_inserted_in_gap(page, payload, idx, usable);
    let after = inserted(page, payload, idx, usable);
    let n = page.cell_count();
    let top = page.cell_content_area() - payload.len();
    let a = page.pointers_at();
    lemma_with_cell(page.buf, a, n, idx, top, payload);
    assert(after.buf[0] == page.buf[0] && after.buf[1] == page.buf[1] && after.buf[2]
        == page.buf[2]);
    assert(after.buf[7] == page.buf[7]);
    if !leaf_type(page.kind()) {
        assert(after.buf[8] == page.buf[8] && after.buf[9] == page.buf[9] && after.buf[10]
            == page.buf[10] && after.buf[11] == page.buf[11]);
    }
    assert forall|j: int| 0 <= j < idx implies after.cell_pointer(j) == #[trigger] page.cell_pointer(
        j,
    ) by {
        assert(after.buf[a + 2 * j] == page.buf[a + 2 * j]);
        assert(after.buf[a + 2 * j + 1] == page.buf[a + 2 * j + 1]);
    }
    assert forall|j: int| idx <= j < n implies after.cell_pointer(j + 1)
        == #[trigger] page.cell_pointer(j) by {
        assert(after.buf[a + 2 * (j + 1)] == page.buf[a + 2 * j]);
        assert(after.buf[a + 2 * (j + 1) + 1] == page.buf[a + 2 * j + 1]);
    }
}

/// A tidy page has the bytes between its cell pointers and its cells free, but
/// for those of the longer page header.
pub proof fn lemma_tidy_room(page: PageModel, payload: Seq<u8>, usable: int)
    requires
        tidy(page, usable),
    ensures
        free_space_ok(page, usable),
        has_room(page, payload) <==> 12 + 2 * page.cell_count() + 2 + payload.len()
            <= page.cell_content_area(),
{
    assert(free_total(page) == page.cell_content_area());
    assert(free_start(page) == 12 + 2 * page.cell_count());
}

/// Putting a cell on a tidy page that has room for it keeps all cells that
/// were there, in their order, and makes the new one cell `idx`. The page
/// stays tidy, and of its header only the cell count and the start of the
/// content area change.
#[verifier::rlimit(40)]
pub proof fn insert_keeps_cells(page: PageModel, payload: Seq<u8>, idx: int, usable: int)
    requires
        usable_ok(usable),
        tidy(page, usable),
        has_room(page, payload),
        0 <= idx <= page.cell_count(),
        starts_cell(payload, page.kind(), usable),
    ensures
        insert_ok(page, payload, idx, usable),
        ({
            let after = inserted(page, payload, idx, usable);
            &&& tidy(after, usable)
            &&& after.page_type() == page.page_type()
            &&& after.buf.len() == page.buf.len()
            &&& after.overflow_cells == page.overflow_cells
            &&& !leaf_type(page.kind()) ==> after.rightmost() == page.rightmost()
            &&& after.cell_content_area() == page.cell_content_area() - payload.len()
            &&& cells_on(after, usable) == cells_on(page, usable).insert(
                idx,
                trimmed(payload, page.kind(), usable),
            )
        }),
{
    lemma_placed_shape(page, payload, idx, usable);
    let after = inserted(page, payload, idx, usable);
    let n = page.cell_count();
    let fresh = trimmed(payload, page.kind(), usable);
    let want = cells_on(page, usable).insert(idx, fresh);
    assert forall|i: int| 0 <= i < n + 1 implies cell_added(
        page,
        after,
        #[trigger] want[i],
        idx,
        i,
        usable,
    ) by {
        if i == idx {
            lemma_new_cell_bytes(page, after, payload, idx, usable);
        } else {
            let j = before(idx, i);
            assert(cell_inside(page, j, usable));
            assert(after.cell_pointer(i) == page.cell_pointer(j));
            lemma_same_cell(page, j, after, i, usable);
        }
    }
    lemma_added_apart(page, after, want, idx, usable);
}

/// The place that cell `i` had before cell `idx` was put in.
pub open spec fn before(idx: int, i: int) -> int {
    if i < idx {
        i
    } else {
        i - 1
    }
}

/// Whether cell `i` of a page is `want`: a new one below the content area if it
/// is cell `idx`, else one that was there before.
spec fn cell_added(
    page: PageModel,
    after: PageModel,
    want: Seq<u8>,
    idx: int,
    i: int,
    usable: int,
) -> bool {
    &&& cell_inside(after, i, usable)
    &&& cell_bytes(after, i, usable) == want
    &&& if i == idx {
        after.head(i, usable).unwrap().end() <= page.cell_content_area()
    } else {
        &&& after.head(i, usable) == page.head(before(idx, i), usable)
        &&& after.cell_pointer(i) == page.cell_pointer(before(idx, i))
    }
}

/// Cells that were there before, and one below them, are apart.
proof fn lemma_added_apart(
    page: PageModel,
    after: PageModel,
    want: Seq<Seq<u8>>,
    idx: int,
    usable: int,
)
    requires
        tidy(page, usable),
        0 <= idx <= page.cell_count(),
        want.len() == page.cell_count() + 1,
        after.cell_count() == page.cell_count() + 1,
        forall|i: int|
            0 <= i < want.len() ==> cell_added(page, after, #[trigger] want[i], idx, i, usable),
    ensures
        forall|i: int| 0 <= i < want.len() ==> #[trigger] cell_inside(after, i, usable),
        forall|i: int, j: int|
            0 <= i < j < want.len() ==> #[trigger] apart(after, i, j, usable),
        cells_on(after, usable) == want,
{
    let n = page.cell_count();
    assert forall|i: int| 0 <= i < n + 1 implies #[trigger] cell_inside(after, i, usable) by {
        assert(cell_added(page, after, want[i], idx, i, usable));
    }
    assert forall|i: int, j: int| 0 <= i < j < n + 1 implies #[trigger] apart(
        after,
        i,
        j,
        usable,
    ) by {
        assert(cell_added(page, after, want[i], idx, i, usable));
        assert(cell_added(page, after, want[j], idx, j, usable));
        let a = before(idx, i);
        let b = before(idx, j);
        if i == idx {
            assert(cell_inside(page, b, usable));
        } else if j == idx {
            assert(cell_inside(page, a, usable));
        } else {
            assert(apart(page, a, b, usable));
        }
    }
    assert(cells_on(after, usable) =~= want) by {
        assert forall|i: int| 0 <= i < n + 1 implies cells_on(after, usable)[i] == want[i] by {
            assert(cell_added(page, after, want[i], idx, i, usable));
        }
    }
}

/// Two pages with the same bytes in a cell's place have the same cell there.
proof fn lemma_same_cell(page: PageModel, j: int, after: PageModel, i: int, usable: int)
    requires
        usable_ok(usable),
        cell_inside(page, j, usable),
        after.kind() == page.kind(),
        0 <= after.cell_content_area() <= page.cell_content_area(),
        after.pointers_at() + 2 * i + 2 <= after.buf.len(),
        after.cell_pointer(i) == page.cell_pointer(j),
        after.buf.len() == page.buf.len(),
        forall|k: int|
            page.cell_content_area() <= k < page.buf.len() ==> #[trigger] after.buf[k]
                == page.buf[k],
    ensures
        cell_inside(after, i, usable),
        after.head(i, usable) == page.head(j, usable),
        cell_bytes(after, i, usable) == cell_bytes(page, j, usable),
{
    let t = page.kind();
    let p = page.cell_pointer(j);
    lemma_cell_head_bounds(page.buf, t, p, usable);
    let h = page.head(j, usable).unwrap();
    assert forall|k: int| 0 <= k < h.end() - p implies #[trigger] page.buf[p + k] == after.buf[p
        + k] by {
        assert(after.buf[p + k] == page.buf[p + k]);
    }
    lemma_cell_head_moved(page.buf, p, after.buf, p, t, usable);
    assert(shifted(h, 0) == h);
    assert(cell_bytes(after, i, usable) =~= cell_bytes(page, j, usable));
}

/// The new cell is the one that was put on the page.
proof fn lemma_new_cell_bytes(
    page: PageModel,
    after: PageModel,
    payload: Seq<u8>,
    idx: int,
    usable: int,
)
    requires
        usable_ok(usable),
        starts_cell(payload, page.kind(), usable),
        after.kind() == page.kind(),
        after.cell_pointer(idx) == page.cell_content_area() - payload.len(),
        after.cell_content_area() == page.cell_content_area() - payload.len(),
        0 <= after.cell_content_area(),
        page.cell_content_area() <= usable <= after.buf.len(),
        after.pointers_at() + 2 * idx + 2 <= after.buf.len(),
        forall|k: int|
            after.cell_content_area() <= k < page.cell_content_area() ==> #[trigger] after.buf[k]
                == payload[k - after.cell_content_area()],
    ensures
        cell_inside(after, idx, usable),
        after.head(idx, usable).unwrap().end() <= page.cell_content_area(),
        cell_bytes(after, idx, usable) == trimmed(payload, page.kind(), usable),
{
    let t = page.kind();
    let top = after.cell_pointer(idx);
    lemma_cell_head_bounds(payload, t, 0, usable);
    let h = cell_layout(payload, t, usable);
    assert forall|k: int| 0 <= k < h.end() - 0 implies #[trigger] payload[0 + k] == after.buf[top
        + k] by {
        assert(after.buf[top + k] == payload[k]);
    }
    lemma_cell_head_moved(payload, 0, after.buf, top, t, usable);
    assert(cell_bytes(after, idx, usable) =~= trimmed(payload, t, usable));
}

/// A cell on a page is laid out as its bytes say.
pub proof fn lemma_cell_bytes_layout(page: PageModel, i: int, usable: int)
    requires
        usable_ok(usable),
        0 <= page.cell_pointer(i),
        page.head(i, usable) is Some,
    ensures
        ({
            let c = cell_bytes(page, i, usable);
            let h = page.head(i, usable).unwrap();
            &&& starts_cell(c, page.kind(), usable)
            &&& cell_layout(c, page.kind(), usable) == shifted(h, -page.cell_pointer(i))
            &&& cell_layout(c, page.kind(), usable).end() == c.len()
            &&& c.len() == h.end() - page.cell_pointer(i)
            &&& h.end() <= page.buf.len()
        }),
{
    let p = page.cell_pointer(i);
    let c = cell_bytes(page, i, usable);
    lemma_cell_head_bounds(page.buf, page.kind(), p, usable);
    lemma_cell_head_moved(page.buf, p, c, 0, page.kind(), usable);
}

/// A cell without what follows it is laid out the same.
pub proof fn lemma_trimmed_layout(c: Seq<u8>, t: PageType, usable: int)
    requires
        usable_ok(usable),
        starts_cell(c, t, usable),
    ensures
        starts_cell(trimmed(c, t, usable), t, usable),
        cell_layout(trimmed(c, t, usable), t, usable) == cell_layout(c, t, usable),
        cell_layout(c, t, usable).end() == trimmed(c, t, usable).len(),
{
    let d = trimmed(c, t, usable);
    lemma_cell_head_bounds(c, t, 0, usable);
    lemma_cell_head_moved(c, 0, d, 0, t, usable);
    assert(shifted(cell_layout(c, t, usable), 0) == cell_layout(c, t, usable));
}

} // verus!
