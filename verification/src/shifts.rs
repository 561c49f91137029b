//! Where the cells of a page go when they are moved together.

use vstd::prelude::*;
use crate::bytes::{be16, lemma_be16_put16, put16, splice};
use crate::formats::{number_at, page_headers_are_read};
use crate::numerals::short_numbers_are_read;
use crate::page::PageModel;
use crate::space::{
    break_at, compacted, defragment_ok, defragmented, lemma_break_bounds, lemma_compacted_len,
    lemma_taken_positive, movable, pointers_end, slot, source, taken,
};
use crate::varint::varint_at;

verus! {

/// A table's leaf, be it the first page of a file or another, whose cells can be moved
/// together and whose content area starts behind the cell pointers.
pub open spec fn can_shift(page: PageModel, usable: int) -> bool {
    &&& page.offset == 0 || page.offset == 100
    &&& page.offset + 12 <= page.buf.len() <= 65535
    &&& usable <= page.buf.len()
    &&& page.buf[page.offset] == 13
    &&& page.offset + 8 + 2 * number_at(page.buf, page.offset + 3, 2) <= number_at(
        page.buf,
        page.offset + 5,
        2,
    )
    &&& defragment_ok(page, usable)
}

/// The length of the cell at `p` of a table's leaf: the length of its payload, its row
/// id, and as many bytes as the payload has.
pub open spec fn leaf_cell_len(s: Seq<u8>, p: int) -> int {
    let (len, n) = varint_at(s, p).unwrap();
    let (_, m) = varint_at(s, p + n).unwrap();
    n + m + len
}

/// The breaks between the cells come down as more of them are moved.
proof fn lemma_breaks(page: PageModel, usable: int, i: nat, j: nat)
    requires
        can_shift(page, usable),
        i <= j <= page.cell_count(),
    ensures
        break_at(page, usable, j) <= break_at(page, usable, i) <= usable,
        break_at(page, usable, i) >= pointers_end(page) || i == 0,
    decreases j,
{
    assert forall|k: int| 0 <= k < j implies #[trigger] movable(page, usable, k) by {}
    lemma_break_bounds(page, usable, i);
    if i < j {
        lemma_breaks(page, usable, i, (j - 1) as nat);
        assert(movable(page, usable, j - 1));
        lemma_taken_positive(page, usable, j - 1);
    }
}

/// Whether cell `j` stands in `buf` where it goes.
spec fn shifted_to(page: PageModel, usable: int, buf: Seq<u8>, j: int) -> bool {
    let to = break_at(page, usable, (j + 1) as nat);
    &&& be16(buf, slot(page, j)) == to
    &&& forall|k: int|
        to <= k < to + taken(page, j) ==> #[trigger] buf[k] == page.buf[source(page, j) + k - to]
}

proof fn lemma_shifted(page: PageModel, usable: int, i: nat)
    requires
        can_shift(page, usable),
        i <= page.cell_count(),
    ensures
        compacted(page, usable, i).len() == page.buf.len(),
        forall|j: int|
            0 <= j < i ==> #[trigger] shifted_to(page, usable, compacted(page, usable, i), j),
    decreases i,
{
    page_headers_are_read(page, 0);
    lemma_compacted_len(page, usable, i);
    if i > 0 {
        let h = (i - 1) as nat;
        let was = compacted(page, usable, h);
        let buf = compacted(page, usable, i);
        let brk = break_at(page, usable, i);
        let from = source(page, h as int);
        let at = slot(page, h as int);
        lemma_compacted_len(page, usable, h);
        lemma_shifted(page, usable, h);
        lemma_breaks(page, usable, i, i);
        lemma_breaks(page, usable, h, i);
        assert(movable(page, usable, h as int));
        lemma_taken_positive(page, usable, h as int);
        assert(pointers_end(page) == page.offset + 8 + 2 * page.cell_count());
        let mid = put16(was, at, brk);
        let cell = page.buf.subrange(from, from + taken(page, h as int));
        assert(buf == splice(mid, brk, cell));
        lemma_be16_put16(was, at, brk);
        assert forall|j: int| 0 <= j < i implies #[trigger] shifted_to(
            page,
            usable,
            buf,
            j,
        ) by {
            if j < h {
                assert(shifted_to(page, usable, was, j));
                lemma_breaks(page, usable, (j + 1) as nat, h);
                lemma_breaks(page, usable, j as nat, h);
                let to = break_at(page, usable, (j + 1) as nat);
                let s = slot(page, j);
                assert(buf[s] == was[s] && buf[s + 1] == was[s + 1]);
                assert(movable(page, usable, j));
                lemma_taken_positive(page, usable, j);
                assert forall|k: int| to <= k < to + taken(page, j) implies #[trigger] buf[k]
                    == page.buf[source(page, j) + k - to] by {
                    assert(buf[k] == was[k]);
                }
            } else {
                assert(buf[at] == mid[at] && buf[at + 1] == mid[at + 1]);
            }
        }
    }
}

/// Moving the cells of a table's leaf together moves the first one to the end of the usable
/// bytes and each of the others in front of the one before it. Their pointers say so, and
/// the bytes of each are the same. The list of free blocks is emptied and the start
/// of the content area set, both counted from the start of the page.
pub proof fn cells_are_shifted(page: PageModel, usable: int, i: int)
    requires
        can_shift(page, usable),
        0 <= i < number_at(page.buf, page.offset + 3, 2),
    ensures
        ({
            let after = defragmented(page, usable);
            let at = page.offset + 8 + 2 * i;
            let p = number_at(page.buf, at, 2);
            let q = number_at(after.buf, at, 2);
            let len = leaf_cell_len(page.buf, p);
            let last = number_at(page.buf, page.offset + 3, 2) - 1;
            &&& after.offset == page.offset
            &&& after.buf.len() == page.buf.len()
            &&& q + len == if i == 0 {
                usable
            } else {
                number_at(after.buf, at - 2, 2)
            }
            &&& forall|k: int| 0 <= k < len ==> #[trigger] after.buf[q + k] == page.buf[p + k]
            &&& number_at(after.buf, 5, 2) == number_at(after.buf, page.offset + 8 + 2 * last, 2)
            &&& after.buf[1] == 0 && after.buf[2] == 0
        }),
{
    page_headers_are_read(page, 0);
    let n = page.cell_count() as nat;
    let o = page.offset;
    let after = defragmented(page, usable);
    let buf = compacted(page, usable, n);
    lemma_shifted(page, usable, n);
    let brk = break_at(page, usable, n);
    let moved = put16(buf, 5, brk);
    lemma_breaks(page, usable, n, n);
    assert(pointers_end(page) == o + 8 + 2 * n);
    assert forall|k: int| o + 8 <= k < after.buf.len() && !(page.cell_content_area() <= k
        < brk) implies #[trigger] after.buf[k] == buf[k] by {}
    lemma_be16_put16(buf, 5, brk);
    assert(after.buf[5] == moved[5] && after.buf[6] == moved[6]);
    short_numbers_are_read(after.buf, 5);
    lemma_shift_read(page, usable, i);
    lemma_shift_read(page, usable, n - 1);
    if i > 0 {
        lemma_shift_read(page, usable, i - 1);
    }
    assert(shifted_to(page, usable, buf, i));
    let q = break_at(page, usable, (i + 1) as nat);
    let p = source(page, i);
    lemma_breaks(page, usable, (i + 1) as nat, n);
    lemma_breaks(page, usable, i as nat, n);
    assert forall|k: int| 0 <= k < taken(page, i) implies #[trigger] after.buf[q + k]
        == page.buf[p + k] by {
        assert(after.buf[q + k] == buf[q + k]);
        assert(buf[q + k] == page.buf[p + (q + k) - q]);
    }
}

/// The pointer of a cell before and after the move.
proof fn lemma_shift_read(page: PageModel, usable: int, i: int)
    requires
        can_shift(page, usable),
        0 <= i < page.cell_count(),
    ensures
        ({
            let at = page.offset + 8 + 2 * i;
            let after = defragmented(page, usable);
            &&& number_at(page.buf, at, 2) == source(page, i)
            &&& number_at(after.buf, at, 2) == break_at(page, usable, (i + 1) as nat)
            &&& leaf_cell_len(page.buf, source(page, i)) == taken(page, i)
        }),
{
    page_headers_are_read(page, 0);
    let n = page.cell_count() as nat;
    let at = page.offset + 8 + 2 * i;
    let after = defragmented(page, usable);
    let buf = compacted(page, usable, n);
    lemma_shifted(page, usable, n);
    lemma_breaks(page, usable, n, n);
    assert(shifted_to(page, usable, buf, i));
    assert(movable(page, usable, i));
    assert(pointers_end(page) == page.offset + 8 + 2 * n);
    assert(after.buf[at] == buf[at] && after.buf[at + 1] == buf[at + 1]);
    short_numbers_are_read(page.buf, at);
    short_numbers_are_read(after.buf, at);
}

} // verus!
