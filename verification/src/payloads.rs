//! The row in a cell, and the overflow pages that it needs.

use vstd::prelude::*;
use crate::balance::{cell_bytes, lemma_spilled_frame};
use crate::bytes::{be32, bytes32, lemma_be32_put32, put32, zeros};
use crate::cell::{chain, payload_of, Fetch};
use crate::cells::{
    cell_layout, lemma_cell_bytes_layout, lemma_cell_head_bounds, lemma_trimmed_layout, starts_cell,
    trimmed,
};
use crate::fill::{lemma_pages_nonneg, new_cell, overflow_page, pages_for, spill, spilled};
use crate::page::{
    lemma_limits, lemma_spilled_local, max_local, spilled_local, usable_ok, PageModel, PageType,
};
use crate::pager::{loaded, page_of, PageState, PagerModel};
use crate::record::{parse_record, record_bytes, record_fits, record_round_trip, ValueModel};
use crate::tables::{row_at, Row};
use crate::varint::{varint_bytes, varint_round_trip};

verus! {

/// Whether an overflow chain goes over page `k`.
pub open spec fn chain_uses(
    pages: Map<usize, PageState>,
    next: int,
    left: int,
    usable: int,
    k: usize,
) -> bool
    decreases left,
{
    if left <= 0 || next == 0 || usable <= 4 {
        false
    } else {
        let page = page_of(pages, next as usize);
        let here = if left < usable - 4 {
            left
        } else {
            usable - 4
        };
        k == next as usize || chain_uses(pages, be32(page.buf, 0), left - here, usable, k)
    }
}

/// Whether the payload of a table's leaf cell goes over page `k`.
#[verifier::opaque]
pub open spec fn cell_uses(pages: Map<usize, PageState>, c: Seq<u8>, usable: int, k: usize) -> bool {
    let h = cell_layout(c, PageType::TableLeaf, usable);
    h.spills && chain_uses(
        pages,
        be32(c, h.body + h.local),
        h.payload_len - h.local,
        usable,
        k,
    )
}

/// The row in the bytes of a table's leaf cell; `None` if there is none to be read.
#[verifier::opaque]
pub open spec fn row_of_cell(pages: Map<usize, PageState>, c: Seq<u8>, usable: int) -> Option<Row> {
    let h = cell_layout(c, PageType::TableLeaf, usable);
    if !starts_cell(c, PageType::TableLeaf, usable) {
        None
    } else {
        match payload_of(pages, c, h, usable) {
            Fetch::Ready(payload) => match parse_record(payload) {
                Some(record) => Some(Row { rowid: h.rowid, record }),
                None => None,
            },
            _ => None,
        }
    }
}

/// The row in a cell of a leaf is the one in the cell's bytes.
pub proof fn lemma_row_at(pages: Map<usize, PageState>, page: PageModel, i: int, usable: int)
    requires
        usable_ok(usable),
        page.page_type() == Some(PageType::TableLeaf),
        page.head(i, usable) is Some,
    ensures
        row_at(pages, page, i, usable) == row_of_cell(pages, cell_bytes(page, i, usable), usable),
        page.head(i, usable).unwrap().rowid == cell_layout(
            cell_bytes(page, i, usable),
            PageType::TableLeaf,
            usable,
        ).rowid,
{
    reveal(row_of_cell);
    let p = page.cell_pointer(i);
    let c = cell_bytes(page, i, usable);
    let h = page.head(i, usable).unwrap();
    lemma_cell_bytes_layout(page, i, usable);
    lemma_cell_head_bounds(page.buf, PageType::TableLeaf, p, usable);
    let g = cell_layout(c, PageType::TableLeaf, usable);
    assert(c.subrange(g.body, g.body + g.local) =~= page.buf.subrange(h.body, h.body + h.local));
    if h.spills {
        let at = h.body + h.local;
        assert(c[at - p] == page.buf[at] && c[at - p + 1] == page.buf[at + 1] && c[at - p + 2]
            == page.buf[at + 2] && c[at - p + 3] == page.buf[at + 3]);
        assert(be32(c, g.body + g.local) == be32(page.buf, at));
    }
}

/// Whether the pages in memory are the same but for those in `x`.
pub open spec fn kept(
    pages: Map<usize, PageState>,
    pages2: Map<usize, PageState>,
    x: Set<usize>,
) -> bool {
    forall|k: usize| #[trigger]
        loaded(pages, k) && !x.contains(k) ==> loaded(pages2, k) && page_of(pages2, k) == page_of(
            pages,
            k,
        )
}

/// An overflow chain that goes over none of the changed pages is kept.
pub proof fn lemma_chain_kept(
    pages: Map<usize, PageState>,
    pages2: Map<usize, PageState>,
    x: Set<usize>,
    next: int,
    left: int,
    usable: int,
)
    requires
        kept(pages, pages2, x),
        chain(pages, next, left, usable) is Ready,
        forall|k: usize| #[trigger] x.contains(k) ==> !chain_uses(pages, next, left, usable, k),
    ensures
        chain(pages2, next, left, usable) == chain(pages, next, left, usable),
        forall|k: usize| #[trigger]
            chain_uses(pages2, next, left, usable, k) == chain_uses(pages, next, left, usable, k),
    decreases left,
{
    if left > 0 && next != 0 && usable > 4 {
        let id = next as usize;
        let page = page_of(pages, id);
        let here = if left < usable - 4 {
            left
        } else {
            usable - 4
        };
        assert(loaded(pages, id));
        assert(chain_uses(pages, next, left, usable, id));
        assert(!x.contains(id));
        let next2 = be32(page.buf, 0);
        assert forall|k: usize| #[trigger] x.contains(k) implies !chain_uses(
            pages,
            next2,
            left - here,
            usable,
            k,
        ) by {
            assert(!chain_uses(pages, next, left, usable, k));
        }
        lemma_chain_kept(pages, pages2, x, next2, left - here, usable);
        assert forall|k: usize| #[trigger] chain_uses(pages2, next, left, usable, k) == chain_uses(
            pages,
            next,
            left,
            usable,
            k,
        ) by {
            assert(chain_uses(pages2, next2, left - here, usable, k) == chain_uses(
                pages,
                next2,
                left - here,
                usable,
                k,
            ));
        }
    }
}

/// A row that uses none of the changed pages is kept.
pub proof fn lemma_row_kept(
    pages: Map<usize, PageState>,
    pages2: Map<usize, PageState>,
    x: Set<usize>,
    c: Seq<u8>,
    usable: int,
)
    requires
        kept(pages, pages2, x),
        row_of_cell(pages, c, usable) is Some,
        forall|k: usize| #[trigger] x.contains(k) ==> !cell_uses(pages, c, usable, k),
    ensures
        row_of_cell(pages2, c, usable) == row_of_cell(pages, c, usable),
        forall|k: usize| #[trigger]
            cell_uses(pages2, c, usable, k) == cell_uses(pages, c, usable, k),
{
    reveal(row_of_cell);
    reveal(cell_uses);
    let h = cell_layout(c, PageType::TableLeaf, usable);
    if h.spills {
        let next = be32(c, h.body + h.local);
        let left = h.payload_len - h.local;
        assert forall|k: usize| #[trigger] x.contains(k) implies !chain_uses(
            pages,
            next,
            left,
            usable,
            k,
        ) by {
            assert(!cell_uses(pages, c, usable, k));
        }
        lemma_chain_kept(pages, pages2, x, next, left, usable);
        assert forall|k: usize| #[trigger] cell_uses(pages2, c, usable, k) == cell_uses(
            pages,
            c,
            usable,
            k,
        ) by {
            assert(chain_uses(pages2, next, left, usable, k) == chain_uses(
                pages,
                next,
                left,
                usable,
                k,
            ));
        }
    }
}

/// What was put on overflow pages is read back from them, and they are the
/// pages behind the last one of the file.
pub proof fn overflow_round_trip(
    pager: PagerModel,
    rest: Seq<u8>,
    id: int,
    usable: int,
    page_size: int,
)
    requires
        0 < id,
        4 < usable <= page_size,
        id - 1 + pages_for(rest.len() as int, usable) <= u32::MAX,
    ensures
        ({
            let pages = spilled(pager, rest, id, usable, page_size).pages;
            &&& chain(pages, id, rest.len() as int, usable) == Fetch::Ready(rest)
            &&& forall|k: usize| #[trigger]
                chain_uses(pages, id, rest.len() as int, usable, k) ==> id <= k < id + pages_for(
                    rest.len() as int,
                    usable,
                )
        }),
    decreases rest.len(),
{
    let pages = spilled(pager, rest, id, usable, page_size).pages;
    if rest.len() == 0 {
        assert(rest =~= Seq::empty());
    } else {
        lemma_pages_nonneg(rest.len() - (usable - 4), usable);
        let here = if rest.len() < usable - 4 {
            rest.len() as int
        } else {
            usable - 4
        };
        let last = rest.len() <= usable - 4;
        let next = if last {
            0
        } else {
            id + 1
        };
        let chunk = rest.take(here);
        let page = overflow_page(next, chunk, page_size);
        let first = pager.with_new(id as usize, page);
        assert(!last ==> pages_for(rest.len() - (usable - 4), usable) >= 1) by {
            lemma_pages_nonneg(rest.len() - 2 * (usable - 4), usable);
        }
        lemma_overflow_page(next, chunk, page_size);
        if last {
            assert(chunk =~= rest);
            assert(pages == first.pages);
            assert(chain(pages, next, 0, usable) == Fetch::Ready(Seq::<u8>::empty()));
            assert(rest + Seq::<u8>::empty() =~= rest);
        } else {
            lemma_spilled_frame(
                first,
                rest.skip(usable - 4),
                id + 1,
                usable,
                page_size,
                id as usize,
            );
            assert(pages == spilled(first, rest.skip(usable - 4), id + 1, usable, page_size).pages);
            overflow_round_trip(first, rest.skip(usable - 4), id + 1, usable, page_size);
            assert(chunk + rest.skip(usable - 4) =~= rest);
        }
        assert(page_of(pages, id as usize) == page);
        assert forall|k: usize| #[trigger]
            chain_uses(pages, id, rest.len() as int, usable, k) implies id <= k < id + pages_for(
            rest.len() as int,
            usable,
        ) by {
            if k != id {
                assert(chain_uses(pages, next, rest.len() - here, usable, k));
            }
        }
    }
}

proof fn lemma_overflow_page(next: int, chunk: Seq<u8>, page_size: int)
    requires
        0 <= next <= u32::MAX,
        4 + chunk.len() <= page_size,
    ensures
        be32(overflow_page(next, chunk, page_size).buf, 0) == next,
        overflow_page(next, chunk, page_size).buf.subrange(4, 4 + chunk.len() as int) == chunk,
{
    let z = zeros(page_size as nat);
    let buf = overflow_page(next, chunk, page_size).buf;
    lemma_be32_put32(z, 0, next);
    let a = put32(z, 0, next);
    assert(buf[0] == a[0] && buf[1] == a[1] && buf[2] == a[2] && buf[3] == a[3]);
    assert(buf.subrange(4, 4 + chunk.len() as int) =~= chunk);
}

/// The layout of a new cell for a row.
pub proof fn lemma_new_cell_layout(rowid: u64, payload: Seq<u8>, id: int, usable: int)
    requires
        usable_ok(usable),
        payload.len() <= u64::MAX,
        0 <= id,
        payload.len() > max_local(PageType::TableLeaf, usable) ==> id <= u32::MAX,
    ensures
        ({
            let t = PageType::TableLeaf;
            let len = payload.len() as int;
            let c = new_cell(t, Some(rowid), payload, id, usable);
            let h = cell_layout(c, t, usable);
            &&& starts_cell(c, t, usable)
            &&& h.rowid == rowid
            &&& h.payload_len == len
            &&& h.spills == (len > max_local(t, usable))
            &&& c.subrange(h.body, h.body + h.local) == payload.take(h.local)
            &&& h.local == (if h.spills {
                spilled_local(len, t, usable)
            } else {
                len
            })
            &&& h.spills ==> be32(c, h.body + h.local) == id
        }),
{
    let t = PageType::TableLeaf;
    let len = payload.len() as int;
    let c = new_cell(t, Some(rowid), payload, id, usable);
    let start = varint_bytes(len) + varint_bytes(rowid as int);
    let body = start.len() as int;
    lemma_limits(usable);
    if len > max_local(t, usable) {
        lemma_spilled_local(len, t, usable);
        let k = spilled_local(len, t, usable);
        let tail = payload.take(k) + bytes32(id);
        assert(c == start + tail);
        lemma_leaf_cell(len as u64, rowid, tail, usable);
        assert(c.subrange(body, body + k) =~= payload.take(k));
        assert(c.subrange(body + k, body + k + 4) =~= bytes32(id));
        lemma_be32_bytes(c, body + k, id);
    } else {
        let tail = payload + zeros(4);
        assert(c == start + tail);
        lemma_leaf_cell(len as u64, rowid, tail, usable);
        assert(c.subrange(body, body + len) =~= payload.take(len));
    }
}

/// The layout of a leaf cell that starts with a length and a row id.
proof fn lemma_leaf_cell(len: u64, rowid: u64, tail: Seq<u8>, usable: int)
    requires
        usable_ok(usable),
        tail.len() >= if len > max_local(PageType::TableLeaf, usable) {
            spilled_local(len as int, PageType::TableLeaf, usable) + 4
        } else {
            len as int
        },
    ensures
        ({
            let t = PageType::TableLeaf;
            let start = varint_bytes(len as int) + varint_bytes(rowid as int);
            let c = start + tail;
            let h = cell_layout(c, t, usable);
            &&& starts_cell(c, t, usable)
            &&& h.rowid == rowid
            &&& h.payload_len == len
            &&& h.body == start.len()
            &&& h.spills == (len > max_local(t, usable))
            &&& h.local == if h.spills {
                spilled_local(len as int, t, usable)
            } else {
                len as int
            }
        }),
{
    let a = varint_bytes(len as int);
    let b = varint_bytes(rowid as int);
    let c = a + b + tail;
    let m = a.len() as int;
    lemma_limits(usable);
    assert(c.subrange(0, m) =~= a);
    varint_round_trip(c, 0, len);
    assert(c.subrange(m, m + b.len()) =~= b);
    varint_round_trip(c, m, rowid);
}

/// A number stands in its four bytes.
proof fn lemma_be32_bytes(s: Seq<u8>, i: int, v: int)
    requires
        0 <= i,
        i + 4 <= s.len(),
        0 <= v <= u32::MAX,
        s.subrange(i, i + 4) == bytes32(v),
    ensures
        be32(s, i) == v,
{
    let e = s.subrange(i, i + 4);
    assert(s[i] == e[0] && s[i + 1] == e[1] && s[i + 2] == e[2] && s[i + 3] == e[3]);
    let z = put32(zeros(4), 0, v);
    assert(z[0] == e[0] && z[1] == e[1] && z[2] == e[2] && z[3] == e[3]);
    lemma_be32_put32(zeros(4), 0, v);
}

/// A cell without what follows its payload has the same payload.
proof fn lemma_trimmed_same(c: Seq<u8>, t: PageType, usable: int)
    requires
        usable_ok(usable),
        starts_cell(c, t, usable),
    ensures
        ({
            let h = cell_layout(c, t, usable);
            let d = trimmed(c, t, usable);
            &&& starts_cell(d, t, usable)
            &&& cell_layout(d, t, usable) == h
            &&& h.end() == d.len()
            &&& d.subrange(h.body, h.body + h.local) == c.subrange(h.body, h.body + h.local)
            &&& h.spills ==> be32(d, h.body + h.local) == be32(c, h.body + h.local)
        }),
{
    let d = trimmed(c, t, usable);
    let h = cell_layout(c, t, usable);
    lemma_cell_head_bounds(c, t, 0, usable);
    lemma_trimmed_layout(c, t, usable);
    assert(d.subrange(h.body, h.body + h.local) =~= c.subrange(h.body, h.body + h.local));
    if h.spills {
        let at = h.body + h.local;
        assert(d[at] == c[at] && d[at + 1] == c[at + 1] && d[at + 2] == c[at + 2] && d[at + 3]
            == c[at + 3]);
    }
}

/// A new cell without what follows its payload is laid out the same.
proof fn lemma_new_cell_trimmed(rowid: u64, payload: Seq<u8>, id: int, usable: int)
    requires
        usable_ok(usable),
        payload.len() <= u64::MAX,
        0 <= id,
        payload.len() > max_local(PageType::TableLeaf, usable) ==> id <= u32::MAX,
    ensures
        ({
            let t = PageType::TableLeaf;
            let c = new_cell(t, Some(rowid), payload, id, usable);
            let h = cell_layout(c, t, usable);
            let d = trimmed(c, t, usable);
            &&& starts_cell(d, t, usable)
            &&& cell_layout(d, t, usable) == h
            &&& h.end() == d.len()
            &&& d.subrange(h.body, h.body + h.local) == payload.take(h.local)
            &&& h.spills ==> be32(d, h.body + h.local) == id
        }),
{
    let t = PageType::TableLeaf;
    let c = new_cell(t, Some(rowid), payload, id, usable);
    lemma_new_cell_layout(rowid, payload, id, usable);
    lemma_trimmed_same(c, t, usable);
}

/// A new cell, with the overflow pages that were made for it, holds its
/// payload. What the cell has behind the payload's bytes does not matter.
pub proof fn new_cell_payload(
    pager: PagerModel,
    rowid: u64,
    payload: Seq<u8>,
    id: int,
    usable: int,
    page_size: int,
)
    requires
        usable_ok(usable),
        usable <= page_size,
        payload.len() <= u64::MAX,
        0 < id,
        id - 1 + pages_for(spill(PageType::TableLeaf, payload, usable).len() as int, usable)
            <= u32::MAX,
    ensures
        ({
            let t = PageType::TableLeaf;
            let rest = spill(t, payload, usable);
            let pages = spilled(pager, rest, id, usable, page_size).pages;
            let c = new_cell(t, Some(rowid), payload, id, usable);
            let d = trimmed(c, t, usable);
            let h = cell_layout(d, t, usable);
            &&& starts_cell(c, t, usable)
            &&& starts_cell(d, t, usable)
            &&& h == cell_layout(c, t, usable)
            &&& h.rowid == rowid
            &&& h.end() == d.len()
            &&& payload_of(pages, d, h, usable) == Fetch::Ready(payload)
            &&& forall|k: usize| #[trigger]
                cell_uses(pages, d, usable, k) ==> id <= k < id + pages_for(
                    rest.len() as int,
                    usable,
                )
        }),
{
    reveal(cell_uses);
    let t = PageType::TableLeaf;
    let rest = spill(t, payload, usable);
    let pages = spilled(pager, rest, id, usable, page_size).pages;
    lemma_limits(usable);
    if payload.len() > max_local(t, usable) {
        lemma_spilled_local(payload.len() as int, t, usable);
        lemma_pages_nonneg(rest.len() - (usable - 4), usable);
        assert(pages_for(rest.len() as int, usable) >= 1);
    }
    lemma_new_cell_layout(rowid, payload, id, usable);
    lemma_new_cell_trimmed(rowid, payload, id, usable);
    let c = new_cell(t, Some(rowid), payload, id, usable);
    let d = trimmed(c, t, usable);
    let h = cell_layout(d, t, usable);
    if h.spills {
        lemma_spilled_local(payload.len() as int, t, usable);
        overflow_round_trip(pager, rest, id, usable, page_size);
        assert(payload.take(h.local) + payload.skip(h.local) =~= payload);
    } else {
        assert(payload.take(h.local) =~= payload);
    }
}

/// A new cell for a row, with the overflow pages that were made for it, holds
/// that row.
pub proof fn new_cell_round_trip(
    pager: PagerModel,
    rowid: u64,
    record: Seq<ValueModel>,
    id: int,
    usable: int,
    page_size: int,
)
    requires
        usable_ok(usable),
        usable <= page_size,
        record_fits(record),
        record_bytes(record).len() <= u64::MAX,
        0 < id,
        id - 1 + pages_for(
            spill(PageType::TableLeaf, record_bytes(record), usable).len() as int,
            usable,
        ) <= u32::MAX,
    ensures
        ({
            let t = PageType::TableLeaf;
            let payload = record_bytes(record);
            let rest = spill(t, payload, usable);
            let pages = spilled(pager, rest, id, usable, page_size).pages;
            let d = trimmed(new_cell(t, Some(rowid), payload, id, usable), t, usable);
            row_of_cell(pages, d, usable) == Some(Row { rowid: rowid as int, record })
        }),
{
    reveal(row_of_cell);
    let payload = record_bytes(record);
    new_cell_payload(pager, rowid, payload, id, usable, page_size);
    record_round_trip(record, Seq::empty());
    assert(payload + Seq::<u8>::empty() =~= payload);
}

} // verus!
