//! When a page takes a cell, whatever gaps and free blocks it has.

use vstd::prelude::*;
use crate::balance::{cell_bytes, cells_on};
use crate::bytes::put16;
use crate::cells::{
    apart, before, cell_inside, cell_layout, lemma_cell_head_bounds, lemma_cell_head_moved,
    lemma_placing, lemma_tidy_room, lemma_with_cell_at, shifted, starts_cell, tidy, trimmed,
    with_cell_at,
};
use crate::compaction::{
    defragment_keeps_cells, lemma_break_descends, lemma_moved_cell, whole_cells,
};
use crate::page::{leaf_type, usable_ok, PageModel};
use crate::space::{
    allocate_ok, allocated, break_at, defragment_ok, free_cell, free_space_ok, has_room, insert_ok,
    inserted, placed, pointers_end, ready_page, ready_top, search_ok, tries_blocks,
};

verus! {

/// Whether cell `i` lies behind the cell pointers, inside the usable bytes.
pub open spec fn cell_stands(page: PageModel, i: int, usable: int) -> bool {
    &&& page.head(i, usable) is Some
    &&& pointers_end(page) <= page.cell_pointer(i)
    &&& page.head(i, usable).unwrap().end() <= usable
}

/// A page with its header at its start whose cells lie behind their pointers
/// and apart.
pub open spec fn spread(page: PageModel, usable: int) -> bool {
    &&& page.page_type() is Some
    &&& page.offset == 0
    &&& usable <= page.buf.len() <= u16::MAX
    &&& pointers_end(page) <= usable
    &&& forall|i: int| 0 <= i < page.cell_count() ==> #[trigger] cell_stands(page, i, usable)
    &&& forall|i: int, j: int|
        0 <= i < j < page.cell_count() ==> #[trigger] apart(page, i, j, usable)
}

/// A spread page whose content area starts behind the cell pointers and holds
/// all cells.
pub open spec fn orderly(page: PageModel, usable: int) -> bool {
    &&& spread(page, usable)
    &&& pointers_end(page) <= page.cell_content_area() <= usable
    &&& forall|i: int| 0 <= i < page.cell_count() ==> #[trigger] cell_inside(page, i, usable)
}

/// Whether `len` bytes at `at` lie behind the cell pointers, one more of them
/// too, and meet no cell.
pub open spec fn clear(page: PageModel, at: int, len: int, usable: int) -> bool {
    &&& pointers_end(page) + 2 <= at
    &&& at + len <= usable
    &&& forall|i: int|
        0 <= i < page.cell_count() ==> {
            ||| (#[trigger] page.head(i, usable)).unwrap().end() <= at
            ||| at + len <= page.cell_pointer(i)
        }
}

/// Whether a free block is found for a cell of `len` bytes.
pub open spec fn finds_block(page: PageModel, len: int, usable: int) -> bool {
    &&& tries_blocks(page)
    &&& free_cell(page, len, usable) != 0
}

/// Whether an orderly page takes a cell: it has room for it, in a free block
/// that meets no cell where one is found, else in the gap below the content
/// area, or else, on a table's leaf whose cells stand on it as a whole, in that
/// gap once the cells were moved together.
pub open spec fn takes(page: PageModel, payload: Seq<u8>, usable: int) -> bool {
    let len = payload.len() as int;
    let gap = pointers_end(page) + 2 + len;
    &&& orderly(page, usable)
    &&& free_space_ok(page, usable)
    &&& has_room(page, payload)
    &&& tries_blocks(page) ==> search_ok(page, len, usable)
    &&& if finds_block(page, len, usable) {
        clear(page, free_cell(page, len, usable), len, usable)
    } else if gap <= page.cell_content_area() {
        true
    } else {
        &&& whole_cells(page, usable)
        &&& defragment_ok(page, usable)
        &&& gap <= break_at(page, usable, page.cell_count() as nat)
    }
}

/// A tidy page is orderly.
pub proof fn lemma_tidy_orderly(page: PageModel, usable: int)
    requires
        tidy(page, usable),
    ensures
        orderly(page, usable),
{
    assert forall|i: int| 0 <= i < page.cell_count() implies #[trigger] cell_stands(
        page,
        i,
        usable,
    ) by {
        assert(cell_inside(page, i, usable));
    }
}

/// A tidy page takes every cell for which it has room.
pub proof fn tidy_takes(page: PageModel, payload: Seq<u8>, usable: int)
    requires
        tidy(page, usable),
        has_room(page, payload),
    ensures
        takes(page, payload, usable),
{
    lemma_tidy_orderly(page, usable);
    lemma_tidy_room(page, payload, usable);
}

/// The page on which room was made for a cell has the same cells, and the room
/// meets none of them.
pub proof fn lemma_room_made(page: PageModel, payload: Seq<u8>, usable: int)
    requires
        usable_ok(usable),
        takes(page, payload, usable),
    ensures
        ({
            let len = payload.len() as int;
            let room = allocated(page, len, usable);
            let base = room.page;
            &&& allocate_ok(page, len, usable)
            &&& base == page.with_buf(base.buf)
            &&& base.buf.len() == page.buf.len()
            &&& spread(base, usable)
            &&& base.page_type() == page.page_type()
            &&& base.cell_count() == page.cell_count()
            &&& cells_on(base, usable) == cells_on(page, usable)
            &&& clear(base, room.at, len, usable)
            &&& forall|i: int|
                0 <= i < base.cell_count() ==> pointers_end(base) + 2
                    <= #[trigger] base.cell_pointer(i)
            &&& !leaf_type(page.kind()) ==> {
                &&& base.rightmost() == page.rightmost()
                &&& forall|i: int|
                    0 <= i < page.cell_count() ==> base.cell_pointer(i)
                        == #[trigger] page.cell_pointer(i)
            }
        }),
{
    let len = payload.len() as int;
    let n = page.cell_count();
    let room = allocated(page, len, usable);
    let base = room.page;
    if finds_block(page, len, usable) {
        assert(base == page);
        assert forall|i: int| 0 <= i < n implies pointers_end(page) + 2
            <= #[trigger] page.cell_pointer(i) by {
            assert(cell_inside(page, i, usable));
        }
    } else {
        let ready = ready_page(page, len, usable);
        lemma_ready(page, payload, usable);
        lemma_content_moved(ready, room.at, usable);
        assert(base == ready.with_buf(put16(ready.buf, 5, room.at)));
        assert forall|i: int| 0 <= i < n implies {
            &&& pointers_end(base) + 2 <= #[trigger] base.cell_pointer(i)
            &&& room.at + len <= base.cell_pointer(i)
        } by {
            assert(ready.cell_content_area() <= ready.cell_pointer(i));
        }
        assert forall|i: int| 0 <= i < n implies {
            ||| (#[trigger] base.head(i, usable)).unwrap().end() <= room.at
            ||| room.at + len <= base.cell_pointer(i)
        } by {
            assert(room.at + len <= base.cell_pointer(i));
        }
    }
}

/// The page whose content area is extended for a cell.
proof fn lemma_ready(page: PageModel, payload: Seq<u8>, usable: int)
    requires
        usable_ok(usable),
        takes(page, payload, usable),
        !finds_block(page, payload.len() as int, usable),
    ensures
        ({
            let len = payload.len() as int;
            let ready = ready_page(page, len, usable);
            &&& ready == page.with_buf(ready.buf)
            &&& ready.buf.len() == page.buf.len()
            &&& spread(ready, usable)
            &&& ready.page_type() == page.page_type()
            &&& ready.cell_count() == page.cell_count()
            &&& cells_on(ready, usable) == cells_on(page, usable)
            &&& pointers_end(ready) + 2 + len <= ready.cell_content_area() <= usable
            &&& ready_top(page, len, usable) == ready.cell_content_area()
            &&& forall|i: int|
                0 <= i < page.cell_count() ==> ready.cell_content_area()
                    <= #[trigger] ready.cell_pointer(i)
            &&& !leaf_type(page.kind()) ==> ready == page
        }),
{
    let len = payload.len() as int;
    let n = page.cell_count() as nat;
    let ready = ready_page(page, len, usable);
    if pointers_end(page) + 2 + len > page.cell_content_area() {
        defragment_keeps_cells(page, usable);
        lemma_break_descends(page, usable, 0, n);
        assert(ready.pointers_at() == page.pointers_at());
        assert forall|j: int| 0 <= j < n implies {
            &&& #[trigger] cell_stands(ready, j, usable)
            &&& ready.cell_content_area() <= ready.cell_pointer(j)
        } by {
            lemma_moved_cell(page, usable, j);
            lemma_break_descends(page, usable, (j + 1) as nat, n);
            lemma_break_descends(page, usable, 0, j as nat);
        }
        assert forall|i: int, j: int| 0 <= i < j < n implies #[trigger] apart(
            ready,
            i,
            j,
            usable,
        ) by {
            lemma_moved_cell(page, usable, i);
            lemma_moved_cell(page, usable, j);
            lemma_break_descends(page, usable, (i + 1) as nat, j as nat);
        }
        assert forall|i: int| 0 <= i < n implies ready.cell_content_area()
            <= #[trigger] ready.cell_pointer(i) by {
            assert(cell_stands(ready, i, usable));
        }
    } else {
        assert forall|i: int| 0 <= i < n implies ready.cell_content_area()
            <= #[trigger] ready.cell_pointer(i) by {
            assert(cell_inside(page, i, usable));
        }
    }
}

/// Writing where the content area starts changes no cell.
proof fn lemma_content_moved(page: PageModel, top: int, usable: int)
    requires
        usable_ok(usable),
        spread(page, usable),
    ensures
        ({
            let after = page.with_buf(put16(page.buf, 5, top));
            &&& after.buf.len() == page.buf.len()
            &&& spread(after, usable)
            &&& after.page_type() == page.page_type()
            &&& after.cell_count() == page.cell_count()
            &&& after.pointers_at() == page.pointers_at()
            &&& cells_on(after, usable) == cells_on(page, usable)
            &&& !leaf_type(page.kind()) ==> after.rightmost() == page.rightmost()
            &&& forall|i: int|
                0 <= i < page.cell_count() ==> {
                    &&& after.cell_pointer(i) == page.cell_pointer(i)
                    &&& (#[trigger] after.head(i, usable)) == page.head(i, usable)
                }
        }),
{
    let after = page.with_buf(put16(page.buf, 5, top));
    let n = page.cell_count();
    let a = page.pointers_at();
    assert(after.buf[0] == page.buf[0] && after.buf[3] == page.buf[3] && after.buf[4]
        == page.buf[4]);
    assert(after.pointers_at() == a);
    if !leaf_type(page.kind()) {
        assert(after.buf[8] == page.buf[8] && after.buf[9] == page.buf[9] && after.buf[10]
            == page.buf[10] && after.buf[11] == page.buf[11]);
    }
    assert forall|i: int| 0 <= i < n implies {
        &&& after.cell_pointer(i) == page.cell_pointer(i)
        &&& (#[trigger] after.head(i, usable)) == page.head(i, usable)
        &&& cell_bytes(after, i, usable) == cell_bytes(page, i, usable)
    } by {
        assert(cell_stands(page, i, usable));
        assert(after.buf[a + 2 * i] == page.buf[a + 2 * i] && after.buf[a + 2 * i + 1]
            == page.buf[a + 2 * i + 1]);
        assert(after.cell_pointer(i) == page.cell_pointer(i));
        lemma_cell_there(page, i, after, i, usable);
    }
    assert forall|i: int| 0 <= i < n implies #[trigger] cell_stands(after, i, usable) by {
        assert(cell_stands(page, i, usable));
        assert(after.head(i, usable) == page.head(i, usable));
    }
    assert forall|i: int, j: int| 0 <= i < j < n implies #[trigger] apart(
        after,
        i,
        j,
        usable,
    ) by {
        assert(apart(page, i, j, usable));
        assert(after.head(i, usable) == page.head(i, usable));
        assert(after.head(j, usable) == page.head(j, usable));
    }
    assert(cells_on(after, usable) =~= cells_on(page, usable)) by {
        assert forall|i: int| 0 <= i < n implies cells_on(after, usable)[i] == cells_on(
            page,
            usable,
        )[i] by {
            assert(after.head(i, usable) == page.head(i, usable));
        }
    }
}

/// The page after a cell was put into the room that was made for it.
pub proof fn lemma_put_in_room(page: PageModel, payload: Seq<u8>, idx: int, usable: int)
    requires
        usable_ok(usable),
        takes(page, payload, usable),
        0 <= idx <= page.cell_count(),
    ensures
        insert_ok(page, payload, idx, usable),
        ({
            let room = allocated(page, payload.len() as int, usable);
            inserted(page, payload, idx, usable) == room.page.with_buf(
                with_cell_at(
                    room.page.buf,
                    page.pointers_at(),
                    page.cell_count(),
                    idx,
                    room.at,
                    payload,
                ),
            )
        }),
{
    lemma_room_made(page, payload, usable);
    assert(has_room(page, payload) && free_space_ok(page, usable));
    let room = allocated(page, payload.len() as int, usable);
    lemma_placing(room.page, payload, idx, room.at);
    assert(room.page.pointers_at() == page.pointers_at());
    assert(inserted(page, payload, idx, usable) == placed(page, payload, idx, usable));
}

/// Putting a cell on a page that takes it keeps all cells that were there, in
/// their order, and makes the new one cell `idx`. The page's type, the cells
/// beside it and, on an interior page, the right-most child stay the same, and
/// the cells stay behind their pointers and apart.
#[verifier::rlimit(40)]
pub proof fn insert_keeps_all_cells(page: PageModel, payload: Seq<u8>, idx: int, usable: int)
    requires
        usable_ok(usable),
        takes(page, payload, usable),
        0 <= idx <= page.cell_count(),
        starts_cell(payload, page.kind(), usable),
    ensures
        insert_ok(page, payload, idx, usable),
        ({
            let after = inserted(page, payload, idx, usable);
            &&& spread(after, usable)
            &&& after.page_type() == page.page_type()
            &&& after.buf.len() == page.buf.len()
            &&& after.overflow_cells == page.overflow_cells
            &&& after.cell_count() == page.cell_count() + 1
            &&& cells_on(after, usable) == cells_on(page, usable).insert(
                idx,
                trimmed(payload, page.kind(), usable),
            )
            &&& !leaf_type(page.kind()) ==> {
                &&& after.rightmost() == page.rightmost()
                &&& forall|j: int|
                    idx <= j < page.cell_count() ==> after.cell_pointer(j + 1)
                        == #[trigger] page.cell_pointer(j)
            }
        }),
{
    lemma_room_made(page, payload, usable);
    lemma_put_in_room(page, payload, idx, usable);
    let n = page.cell_count();
    let room = allocated(page, payload.len() as int, usable);
    let base = room.page;
    let at = room.at;
    let a = page.pointers_at();
    let after = inserted(page, payload, idx, usable);
    lemma_with_cell_at(base.buf, a, n, idx, at, payload);
    assert(after.buf[0] == base.buf[0]);
    assert(after.page_type() == page.page_type());
    assert(after.cell_count() == n + 1);
    assert(after.pointers_at() == a && base.pointers_at() == a);
    if !leaf_type(page.kind()) {
        assert(after.buf[8] == base.buf[8] && after.buf[9] == base.buf[9] && after.buf[10]
            == base.buf[10] && after.buf[11] == base.buf[11]);
    }
    lemma_cells_put(base, after, payload, at, idx, usable);
    if !leaf_type(page.kind()) {
        assert forall|j: int| idx <= j < n implies after.cell_pointer(j + 1)
            == #[trigger] page.cell_pointer(j) by {
            assert(base.cell_pointer(j) == page.cell_pointer(j));
        }
    }
}

/// Whether the bytes of `after` are those of `base` with `payload` put at `at`,
/// as cell `idx`.
spec fn put_at(base: PageModel, after: PageModel, payload: Seq<u8>, at: int, idx: int) -> bool {
    let a = base.pointers_at();
    let n = base.cell_count();
    &&& after.page_type() == base.page_type()
    &&& after.offset == 0
    &&& after.buf.len() == base.buf.len()
    &&& after.cell_count() == n + 1
    &&& after.pointers_at() == a
    &&& after.cell_pointer(idx) == at
    &&& forall|k: int| 7 <= k < a + 2 * idx ==> #[trigger] after.buf[k] == base.buf[k]
    &&& forall|k: int|
        a + 2 * idx + 2 <= k < a + 2 * n + 2 ==> #[trigger] after.buf[k] == base.buf[k - 2]
    &&& forall|k: int| at <= k < at + payload.len() ==> #[trigger] after.buf[k] == payload[k - at]
    &&& forall|k: int|
        a + 2 * n + 2 <= k < base.buf.len() && !(at <= k < at + payload.len())
            ==> #[trigger] after.buf[k] == base.buf[k]
}

/// The cells of a page on which one more was put.
proof fn lemma_cells_put(
    base: PageModel,
    after: PageModel,
    payload: Seq<u8>,
    at: int,
    idx: int,
    usable: int,
)
    requires
        usable_ok(usable),
        spread(base, usable),
        clear(base, at, payload.len() as int, usable),
        forall|j: int|
            0 <= j < base.cell_count() ==> pointers_end(base) + 2
                <= #[trigger] base.cell_pointer(j),
        0 <= idx <= base.cell_count(),
        pointers_end(base) + 2 <= at,
        at + payload.len() <= usable,
        starts_cell(payload, base.kind(), usable),
        put_at(base, after, payload, at, idx),
    ensures
        spread(after, usable),
        cells_on(after, usable) == cells_on(base, usable).insert(
            idx,
            trimmed(payload, base.kind(), usable),
        ),
        forall|j: int|
            idx <= j < base.cell_count() ==> after.cell_pointer(j + 1)
                == #[trigger] base.cell_pointer(j),
{
    let want = cells_on(base, usable).insert(idx, trimmed(payload, base.kind(), usable));
    assert forall|i: int| 0 <= i < base.cell_count() + 1 implies cell_put(
        base,
        after,
        #[trigger] want[i],
        payload.len() as int,
        at,
        idx,
        i,
        usable,
    ) by {
        if i == idx {
            lemma_fresh_cell(base, after, payload, at, idx, usable);
        } else {
            lemma_old_cell(base, after, payload, at, idx, i, usable);
        }
    }
    lemma_put_spread(base, after, want, payload.len() as int, at, idx, usable);
}

/// Whether cell `i` of a page is `want`: a new one at `at` if it is cell `idx`,
/// else one that was there before.
spec fn cell_put(
    base: PageModel,
    after: PageModel,
    want: Seq<u8>,
    len: int,
    at: int,
    idx: int,
    i: int,
    usable: int,
) -> bool {
    &&& cell_stands(after, i, usable)
    &&& cell_bytes(after, i, usable) == want
    &&& if i == idx {
        &&& after.cell_pointer(i) == at
        &&& after.head(i, usable).unwrap().end() <= at + len
    } else {
        &&& after.cell_pointer(i) == base.cell_pointer(before(idx, i))
        &&& after.head(i, usable) == base.head(before(idx, i), usable)
    }
}

/// Cells that were there before, and one in a clear place, are apart.
proof fn lemma_put_spread(
    base: PageModel,
    after: PageModel,
    want: Seq<Seq<u8>>,
    len: int,
    at: int,
    idx: int,
    usable: int,
)
    requires
        spread(base, usable),
        clear(base, at, len, usable),
        0 <= idx <= base.cell_count(),
        want.len() == base.cell_count() + 1,
        after.cell_count() == base.cell_count() + 1,
        after.page_type() is Some,
        after.offset == 0,
        after.buf.len() == base.buf.len(),
        pointers_end(after) <= usable,
        forall|i: int|
            0 <= i < want.len() ==> cell_put(
                base,
                after,
                #[trigger] want[i],
                len,
                at,
                idx,
                i,
                usable,
            ),
    ensures
        spread(after, usable),
        cells_on(after, usable) == want,
        forall|j: int|
            idx <= j < base.cell_count() ==> after.cell_pointer(j + 1)
                == #[trigger] base.cell_pointer(j),
{
    let n = base.cell_count();
    assert forall|i: int| 0 <= i < n + 1 implies #[trigger] cell_stands(after, i, usable) by {
        assert(cell_put(base, after, want[i], len, at, idx, i, usable));
    }
    assert forall|i: int, j: int| 0 <= i < j < n + 1 implies #[trigger] apart(
        after,
        i,
        j,
        usable,
    ) by {
        assert(cell_put(base, after, want[i], len, at, idx, i, usable));
        assert(cell_put(base, after, want[j], len, at, idx, j, usable));
        let x = before(idx, i);
        let y = before(idx, j);
        if i == idx {
            assert(base.head(y, usable).unwrap().end() <= at || at + len <= base.cell_pointer(y));
        } else if j == idx {
            assert(base.head(x, usable).unwrap().end() <= at || at + len <= base.cell_pointer(x));
        } else {
            assert(apart(base, x, y, usable));
        }
    }
    assert(cells_on(after, usable) =~= want) by {
        assert forall|i: int| 0 <= i < n + 1 implies cells_on(after, usable)[i] == want[i] by {
            assert(cell_put(base, after, want[i], len, at, idx, i, usable));
        }
    }
    assert forall|j: int| idx <= j < n implies after.cell_pointer(j + 1)
        == #[trigger] base.cell_pointer(j) by {
        assert(cell_put(base, after, want[j + 1], len, at, idx, j + 1, usable));
    }
}

/// The new cell is the one that was put on the page.
proof fn lemma_fresh_cell(
    base: PageModel,
    after: PageModel,
    payload: Seq<u8>,
    at: int,
    idx: int,
    usable: int,
)
    requires
        usable_ok(usable),
        starts_cell(payload, base.kind(), usable),
        after.kind() == base.kind(),
        after.offset == 0,
        after.cell_count() == base.cell_count() + 1,
        pointers_end(after) == pointers_end(base) + 2,
        0 <= idx <= base.cell_count(),
        pointers_end(base) + 2 <= at,
        at + payload.len() <= usable <= after.buf.len(),
        after.cell_pointer(idx) == at,
        forall|k: int|
            at <= k < at + payload.len() ==> #[trigger] after.buf[k] == payload[k - at],
    ensures
        cell_stands(after, idx, usable),
        after.head(idx, usable).unwrap().end() <= at + payload.len(),
        cell_bytes(after, idx, usable) == trimmed(payload, base.kind(), usable),
{
    let t = base.kind();
    lemma_cell_head_bounds(payload, t, 0, usable);
    let h = cell_layout(payload, t, usable);
    assert forall|k: int| 0 <= k < h.end() - 0 implies #[trigger] payload[0 + k] == after.buf[at
        + k] by {
        assert(after.buf[at + k] == payload[k]);
    }
    lemma_cell_head_moved(payload, 0, after.buf, at, t, usable);
    assert(cell_bytes(after, idx, usable) =~= trimmed(payload, t, usable));
}

/// The other cells are where they were.
proof fn lemma_old_cell(
    base: PageModel,
    after: PageModel,
    payload: Seq<u8>,
    at: int,
    idx: int,
    i: int,
    usable: int,
)
    requires
        usable_ok(usable),
        spread(base, usable),
        clear(base, at, payload.len() as int, usable),
        forall|j: int|
            0 <= j < base.cell_count() ==> pointers_end(base) + 2
                <= #[trigger] base.cell_pointer(j),
        0 <= idx <= base.cell_count(),
        0 <= i < base.cell_count() + 1,
        i != idx,
        after.kind() == base.kind(),
        after.offset == 0,
        after.buf.len() == base.buf.len(),
        after.cell_count() == base.cell_count() + 1,
        after.pointers_at() == base.pointers_at(),
        base.pointers_at() == 8 || base.pointers_at() == 12,
        ({
            let a = base.pointers_at();
            let n = base.cell_count();
            &&& forall|k: int| 7 <= k < a + 2 * idx ==> #[trigger] after.buf[k] == base.buf[k]
            &&& forall|k: int|
                a + 2 * idx + 2 <= k < a + 2 * n + 2 ==> #[trigger] after.buf[k] == base.buf[k
                    - 2]
            &&& forall|k: int|
                a + 2 * n + 2 <= k < base.buf.len() && !(at <= k < at + payload.len())
                    ==> #[trigger] after.buf[k] == base.buf[k]
        }),
    ensures
        ({
            let j = before(idx, i);
            &&& cell_stands(after, i, usable)
            &&& after.cell_pointer(i) == base.cell_pointer(j)
            &&& after.head(i, usable) == base.head(j, usable)
            &&& cell_bytes(after, i, usable) == cell_bytes(base, j, usable)
        }),
{
    let j = before(idx, i);
    let a = base.pointers_at();
    assert(cell_stands(base, j, usable));
    if i < idx {
        assert(after.buf[a + 2 * i] == base.buf[a + 2 * i]);
        assert(after.buf[a + 2 * i + 1] == base.buf[a + 2 * i + 1]);
    } else {
        assert(after.buf[a + 2 * i] == base.buf[a + 2 * j]);
        assert(after.buf[a + 2 * i + 1] == base.buf[a + 2 * j + 1]);
    }
    assert(after.cell_pointer(i) == base.cell_pointer(j));
    let h = base.head(j, usable).unwrap();
    assert(h.end() <= at || at + payload.len() <= base.cell_pointer(j));
    lemma_cell_head_bounds(base.buf, base.kind(), base.cell_pointer(j), usable);
    lemma_cell_there(base, j, after, i, usable);
}

/// A cell whose bytes are the same on two pages, in the same place.
pub proof fn lemma_cell_there(base: PageModel, j: int, after: PageModel, i: int, usable: int)
    requires
        usable_ok(usable),
        cell_stands(base, j, usable),
        0 <= i,
        after.pointers_at() + 2 * i + 2 <= after.buf.len(),
        pointers_end(after) <= base.cell_pointer(j),
        after.kind() == base.kind(),
        after.offset == 0,
        after.buf.len() == base.buf.len(),
        after.cell_pointer(i) == base.cell_pointer(j),
        forall|k: int|
            base.cell_pointer(j) <= k < base.head(j, usable).unwrap().end()
                ==> #[trigger] after.buf[k] == base.buf[k],
    ensures
        cell_stands(after, i, usable),
        after.head(i, usable) == base.head(j, usable),
        cell_bytes(after, i, usable) == cell_bytes(base, j, usable),
{
    let t = base.kind();
    let p = base.cell_pointer(j);
    let h = base.head(j, usable).unwrap();
    lemma_cell_head_bounds(base.buf, t, p, usable);
    assert forall|k: int| 0 <= k < h.end() - p implies #[trigger] base.buf[p + k] == after.buf[p
        + k] by {
        assert(after.buf[p + k] == base.buf[p + k]);
    }
    lemma_cell_head_moved(base.buf, p, after.buf, p, t, usable);
    assert(shifted(h, 0) == h);
    assert(cell_bytes(after, i, usable) =~= cell_bytes(base, j, usable));
}

} // verus!
