//! What inserting a row does to a table.

use vstd::prelude::*;
use crate::access::Lookup;
use crate::balance::{
    cells_on, child_slot, first_at_least, lemma_new_root_room, lemma_spilled_frame, Written,
};
use crate::cells::{cell_layout, lemma_trimmed_layout, starts_cell, tidy, trimmed};
use crate::cursor::{header_ok, BTCURSOR_MAX_DEPTH, CursorModel, WriteState};
use crate::descent::root_stack;
use crate::divides::{divided_root_gains, divides};
use crate::fill::{grown_by, lemma_pages_nonneg, new_tree_page, pages_for, spill, spilled};
use crate::leaves::{
    all_trimmed, cells_gain, lemma_cells_to_leaf, lemma_leaf_to_cells, lemma_leaf_uses, share,
    shared_leaves,
};
use crate::order::{KeyModel, SeekOp};
use crate::page::{
    lemma_limits, lemma_spilled_local, max_local, usable_ok, OverflowModel, PageModel, PageType,
};
use crate::pager::{loaded, page_of, DatabaseHeader, PageState};
use crate::payloads::{
    cell_uses, kept, lemma_row_kept, new_cell_payload, new_cell_round_trip, row_of_cell,
};
use crate::record::{record_bytes, record_fits, ValueModel};
use crate::rooms::{cell_stands, insert_keeps_all_cells, spread, takes, tidy_takes};
use crate::scans::{lemma_table_readable, scan_gives_all_rows};
use crate::settled::{all_sized, beside_kept, lemma_beside_twice, lemma_root_rest, lemma_row_rest};
use crate::sharing::{
    changes_only, grows_only, lemma_branch, lemma_leaf_cells, lemma_spot, lemma_spot_on_way,
    lemma_spot_step, row_reaches_root, sole, spot, uses, within, Spot,
};
use crate::space::{free_space_ok, has_room};
use crate::splits::{
    divided, divider_cell, divider_fits, halves_fit, slot_of, split_key, split_shares_cells, splits,
};
use crate::tables::{
    answers, child_at, high, is_wanted, leaf_rows, lemma_first_at_least, lemma_interior_cell,
    lemma_table_descend, low, rows, rows_from, table, table_leaf, table_lookup, table_node,
    table_search, Row,
};
use crate::varint::{lemma_varint_bounds, lemma_varint_len, lemma_varint_value, varint_at};
use crate::walk::Found;

verus! {

/// Whether the cursor's tree is a table with row ids above `lo` and up to
/// `hi`, in memory, that uses no page twice and only pages of the file.
pub open spec fn sound(c: CursorModel, height: nat, lo: int, hi: int) -> bool {
    &&& table(c.pages(), c.root_page, height, lo, hi, c.usable())
    &&& sole(c.pages(), c.root_page, height, c.usable())
    &&& within(c.pages(), c.root_page, height, c.usable(), c.header.database_size as int)
}

/// The rows of the cursor's table.
pub open spec fn table_rows(c: CursorModel, height: nat) -> Seq<Row> {
    rows(c.pages(), c.root_page, height, c.usable())
}

/// Whether no insertion is going on, and the pages in memory have their size.
pub open spec fn ready(c: CursorModel) -> bool {
    &&& header_ok(c.header)
    &&& c.state == WriteState::Start
    &&& all_sized(c.pages(), c.header.page_size as int)
}

/// Whether a row with this row id can come into the cursor's table: the row id
/// is within the bounds and not in use, no insertion is going on, and no cell
/// stands beside the leaf where the row belongs.
pub open spec fn takes_row(
    c: CursorModel,
    height: nat,
    lo: int,
    hi: int,
    rowid: u64,
    record: Seq<ValueModel>,
) -> bool {
    &&& ready(c)
    &&& height <= BTCURSOR_MAX_DEPTH
    &&& sound(c, height, lo, hi)
    &&& lo < rowid <= hi
    &&& forall|i: int|
        0 <= i < table_rows(c, height).len() ==> (#[trigger] table_rows(c, height)[i]).rowid
            != rowid
    &&& at_leaf(c, rowid).top_page().overflow_cells.len() == 0
    &&& record_fits(record)
}

/// The cursor at the leaf where a row id belongs.
pub open spec fn at_leaf(c: CursorModel, rowid: u64) -> CursorModel {
    c.moved(c.descent(KeyModel::RowId(rowid as int), SeekOp::EQ))
}

/// Whether the table of `c2` is that of `c` with one row more, in its place,
/// and is ready for the next one.
pub open spec fn gained(
    c: CursorModel,
    height: nat,
    c2: CursorModel,
    height2: nat,
    lo: int,
    hi: int,
    row: Row,
) -> bool {
    &&& ready(c2)
    &&& table_gained(c, height, c2, height2, lo, hi, row)
}

/// Whether the table of `c2` is that of `c` with one row more, in its place.
pub open spec fn table_gained(
    c: CursorModel,
    height: nat,
    c2: CursorModel,
    height2: nat,
    lo: int,
    hi: int,
    row: Row,
) -> bool {
    &&& c2.root_page == c.root_page
    &&& c2.state == WriteState::Start
    &&& sound(c2, height2, lo, hi)
    &&& exists|q: int|
        0 <= q <= table_rows(c, height).len() && table_rows(c2, height2)
            == #[trigger] table_rows(c, height).insert(q, row)
}

/// The overflow pages have room for what they were made for.
proof fn lemma_pages_cover(len: int, usable: int)
    requires
        4 < usable,
    ensures
        len <= pages_for(len, usable) * (usable - 4),
    decreases len,
{
    lemma_pages_nonneg(len, usable);
    if len > usable - 4 {
        lemma_pages_cover(len - (usable - 4), usable);
        let n = pages_for(len - (usable - 4), usable);
        assert((1 + n) * (usable - 4) == (usable - 4) + n * (usable - 4)) by (nonlinear_arith);
    } else if len <= 0 {
        assert(0 * (usable - 4) == 0) by (nonlinear_arith);
    } else {
        assert(1 * (usable - 4) == usable - 4) by (nonlinear_arith);
    }
}

/// A payload whose overflow pages the file can hold has a length of eight bytes.
proof fn lemma_payload_len(payload: Seq<u8>, usable: int)
    requires
        usable_ok(usable),
        pages_for(spill(PageType::TableLeaf, payload, usable).len() as int, usable) <= u32::MAX,
    ensures
        payload.len() <= u64::MAX,
{
    let t = PageType::TableLeaf;
    lemma_limits(usable);
    let rest = spill(t, payload, usable);
    if payload.len() > max_local(t, usable) {
        lemma_spilled_local(payload.len() as int, t, usable);
        lemma_pages_cover(rest.len() as int, usable);
        lemma_pages_nonneg(rest.len() as int, usable);
        let n = pages_for(rest.len() as int, usable);
        assert(n * (usable - 4) <= 0xffff_ffff * 65536) by (nonlinear_arith)
            requires
                0 <= n <= 0xffff_ffff,
                0 <= usable - 4 <= 65536,
        ;
    }
}

/// What the pages are after a row was put on its leaf.
proof fn lemma_with_row_pages(m: CursorModel, rowid: u64, record: Seq<ValueModel>)
    requires
        header_ok(m.header),
        m.stack.len() > 0,
        loaded(m.pages(), m.top().page),
        m.top().page <= m.header.database_size,
        record_fits(record),
        m.spill_ok(PageType::TableLeaf, record_bytes(record)),
    ensures
        ({
            let t = m.top().page;
            let c = m.with_row(rowid, record);
            let size = m.header.database_size as int;
            let cell = m.cell_for(rowid, record);
            let d = trimmed(cell, PageType::TableLeaf, m.usable());
            &&& size <= c.header.database_size
            &&& c.header == grown_by(m.header, c.header.database_size - size)
            &&& c.root_page == m.root_page
            &&& c.stack == m.stack
            &&& kept(m.pages(), c.pages(), Set::new(|j: usize| j == t || j > size))
            &&& loaded(c.pages(), t)
            &&& page_of(c.pages(), t) == m.leaf_with(rowid, record)
            &&& starts_cell(cell, PageType::TableLeaf, m.usable())
            &&& cell_layout(cell, PageType::TableLeaf, m.usable()).rowid == rowid
            &&& row_of_cell(c.pages(), d, m.usable()) == Some(
                Row { rowid: rowid as int, record },
            )
            &&& forall|j: usize| #[trigger]
                cell_uses(c.pages(), d, m.usable(), j) ==> size < j <= c.header.database_size
        }),
{
    let t = m.top().page;
    let c = m.with_row(rowid, record);
    let size = m.header.database_size as int;
    let usable = m.usable();
    let page_size = m.header.page_size as int;
    let payload = record_bytes(record);
    let rest = spill(PageType::TableLeaf, payload, usable);
    let pager = m.touching(t).pager;
    let s = spilled(pager, rest, size + 1, usable, page_size);
    let d = trimmed(m.cell_for(rowid, record), PageType::TableLeaf, usable);
    lemma_limits(usable);
    lemma_pages_nonneg(rest.len() as int, usable);
    lemma_payload_len(payload, usable);
    new_cell_payload(pager, rowid, payload, size + 1, usable, page_size);
    new_cell_round_trip(pager, rowid, record, size + 1, usable, page_size);
    let x = Set::new(|j: usize| j == t || j > size);
    assert forall|j: usize| #[trigger] loaded(m.pages(), j) && !x.contains(j) implies loaded(
        c.pages(),
        j,
    ) && page_of(c.pages(), j) == page_of(m.pages(), j) by {
        lemma_spilled_frame(pager, rest, size + 1, usable, page_size, j);
    }
    let y = set![t];
    assert(kept(s.pages, c.pages(), y));
    lemma_row_kept(s.pages, c.pages(), y, d, usable);
}

/// The way down to where a row belongs.
pub proof fn lemma_at_leaf(c: CursorModel, height: nat, lo: int, hi: int, rowid: u64)
    requires
        height <= BTCURSOR_MAX_DEPTH,
        sound(c, height, lo, hi),
        lo < rowid <= hi,
    ensures
        ({
            let d = c.descent(KeyModel::RowId(rowid as int), SeekOp::EQ);
            let m = at_leaf(c, rowid);
            let k = rowid as int;
            let s = spot(c.pages(), c.root_page, height, lo, hi, k, c.usable(), 0);
            &&& d.end is Leaf
            &&& m == (CursorModel { stack: d.stack, ..c })
            &&& m.stack.len() == height + 1
            &&& m.stack[0].page == c.root_page
            &&& forall|i: int|
                0 <= i <= height ==> (#[trigger] m.stack[i]).page == spot(
                    c.pages(),
                    c.root_page,
                    height,
                    lo,
                    hi,
                    k,
                    c.usable(),
                    (height - i) as nat,
                ).id
            &&& m.in_file()
            &&& m.top().page == s.id
            &&& table(c.pages(), s.id, 0, s.lo, s.hi, c.usable())
            &&& s.lo < rowid <= s.hi
            &&& height > 0 ==> m.parent_id() == spot(
                c.pages(),
                c.root_page,
                height,
                lo,
                hi,
                k,
                c.usable(),
                1,
            ).id
        }),
{
    let k = rowid as int;
    let pages = c.pages();
    let usable = c.usable();
    let root = c.root_page;
    let stack = root_stack(root);
    let d = c.descent(KeyModel::RowId(k), SeekOp::EQ);
    assert(stack.last().page == root);
    lemma_spot_on_way(pages, stack, height, lo, hi, k, usable, 0);
    lemma_spot(pages, root, height, lo, hi, k, usable, 0);
    if height > 0 {
        lemma_spot_on_way(pages, stack, height, lo, hi, k, usable, 1);
    }
    assert forall|i: int| 0 <= i < d.stack.len() implies {
        &&& (#[trigger] d.stack[i]).page <= c.header.database_size
        &&& d.stack[i].page == spot(pages, root, height, lo, hi, k, usable, (height - i) as nat).id
    } by {
        let sub = (height - i) as nat;
        lemma_spot_on_way(pages, stack, height, lo, hi, k, usable, sub);
        lemma_spot(pages, root, height, lo, hi, k, usable, sub);
        let s = spot(pages, root, height, lo, hi, k, usable, sub);
        assert(uses(pages, s.id, sub, usable, s.id));
        assert(uses(pages, root, height, usable, s.id));
    }
}

/// A leaf with one cell more, which holds a row that belongs on it.
proof fn lemma_leaf_gains(
    pages: Map<usize, PageState>,
    pages2: Map<usize, PageState>,
    id: usize,
    cell: Seq<u8>,
    place: int,
    row: Row,
    lo: int,
    hi: int,
    usable: int,
    size: int,
    size2: int,
)
    requires
        usable_ok(usable),
        table(pages, id, 0, lo, hi, usable),
        sole(pages, id, 0, usable),
        within(pages, id, 0, usable, size),
        kept(pages, pages2, Set::new(|j: usize| j == id || j > size)),
        loaded(pages2, id),
        forall|i: int|
            0 <= i < page_of(pages2, id).cell_count() ==> (#[trigger] page_of(pages2, id).head(
                i,
                usable,
            )) is Some,
        page_of(pages2, id).page_type() == Some(PageType::TableLeaf),
        cells_on(page_of(pages2, id), usable) == cells_on(page_of(pages, id), usable).insert(
            place,
            cell,
        ),
        first_at_least(page_of(pages, id), row.rowid, usable, 0) == Some(place),
        row_of_cell(pages2, cell, usable) == Some(row),
        forall|j: usize| #[trigger] cell_uses(pages2, cell, usable, j) ==> size < j <= size2,
        lo < row.rowid <= hi,
        forall|i: int|
            0 <= i < leaf_rows(pages, page_of(pages, id), usable).len() ==> (
            #[trigger] leaf_rows(pages, page_of(pages, id), usable)[i]).rowid != row.rowid,
    ensures
        table(pages2, id, 0, lo, hi, usable),
        sole(pages2, id, 0, usable),
        grows_only(pages, pages2, id, 0, usable, size, size2),
        changes_only(pages, pages2, id, 0, usable, size),
        0 <= place <= rows(pages, id, 0, usable).len(),
        rows(pages2, id, 0, usable) == rows(pages, id, 0, usable).insert(place, row),
{
    let page2 = page_of(pages2, id);
    let x = Set::new(|j: usize| j == id || j > size);
    cells_gain(pages, pages2, x, id, cell, place, row, lo, hi, usable, size, size2);
    assert(uses(pages, id, 0, usable, id));
    lemma_cells_to_leaf(pages2, page2, id, lo, hi, usable);
    assert forall|j: usize| #[trigger] uses(pages2, id, 0, usable, j) implies uses(
        pages,
        id,
        0,
        usable,
        j,
    ) || size < j <= size2 by {
        lemma_leaf_uses(pages, id, usable, j);
        lemma_leaf_uses(pages2, id, usable, j);
    }
    let y = Set::new(|j: usize| uses(pages, id, 0, usable, j) || j > size);
    assert forall|k: usize| #[trigger] loaded(pages, k) && !y.contains(k) implies loaded(
        pages2,
        k,
    ) && page_of(pages2, k) == page_of(pages, k) by {
        assert(!x.contains(k));
    }
}

/// A row id that is not in use is not in use on the leaf where it belongs.
proof fn lemma_absent_on_leaf(
    c: CursorModel,
    height: nat,
    lo: int,
    hi: int,
    rowid: u64,
    record: Seq<ValueModel>,
)
    requires
        takes_row(c, height, lo, hi, rowid, record),
    ensures
        ({
            let l = leaf_rows(c.pages(), at_leaf(c, rowid).top_page(), c.usable());
            forall|i: int| 0 <= i < l.len() ==> (#[trigger] l[i]).rowid != rowid
        }),
{
    let k = rowid as int;
    let stack = root_stack(c.root_page);
    assert(stack.last().page == c.root_page);
    let x = lemma_table_descend(c.pages(), stack, height, lo, hi, k, SeekOp::EQ, c.usable());
    let l = leaf_rows(c.pages(), x.leaf, c.usable());
    let r = table_rows(c, height);
    assert forall|i: int| 0 <= i < l.len() implies (#[trigger] l[i]).rowid != rowid by {
        assert(r[x.before.len() + i] == l[i]);
    }
}

/// The cells of a spread page are laid out.
proof fn lemma_spread_heads(page: PageModel, usable: int)
    requires
        spread(page, usable),
    ensures
        forall|i: int| 0 <= i < page.cell_count() ==> (#[trigger] page.head(i, usable)) is Some,
{
    assert forall|i: int| 0 <= i < page.cell_count() implies (#[trigger] page.head(
        i,
        usable,
    )) is Some by {
        assert(cell_stands(page, i, usable));
    }
}

/// The table after a row was put on a leaf that takes it.
proof fn lemma_room_gains(
    c: CursorModel,
    height: nat,
    lo: int,
    hi: int,
    rowid: u64,
    record: Seq<ValueModel>,
)
    requires
        takes_row(c, height, lo, hi, rowid, record),
        ({
            let m = at_leaf(c, rowid);
            &&& m.spill_ok(PageType::TableLeaf, record_bytes(record))
            &&& takes(m.top_page(), m.cell_for(rowid, record), c.usable())
        }),
    ensures
        c.descent(KeyModel::RowId(rowid as int), SeekOp::EQ).end is Leaf,
        loaded(at_leaf(c, rowid).pages(), at_leaf(c, rowid).top().page),
        at_leaf(c, rowid) == (CursorModel { stack: at_leaf(c, rowid).stack, ..c }),
        at_leaf(c, rowid).written(rowid, record).ok,
        at_leaf(c, rowid).written(rowid, record).cursor == at_leaf(c, rowid).with_row(
            rowid,
            record,
        ).in_state(WriteState::Start),
        at_leaf(c, rowid).leaf_with(rowid, record).overflow_cells.len() == 0,
        !at_leaf(c, rowid).written(rowid, record).waits,
        table_gained(
            c,
            height,
            at_leaf(c, rowid).written(rowid, record).cursor,
            height,
            lo,
            hi,
            Row { rowid: rowid as int, record },
        ),
{
    let k = rowid as int;
    let usable = c.usable();
    let m = at_leaf(c, rowid);
    let row = Row { rowid: k, record };
    let size = c.header.database_size as int;
    let cell = m.cell_for(rowid, record);
    let d = trimmed(cell, PageType::TableLeaf, usable);
    lemma_at_leaf(c, height, lo, hi, rowid);
    lemma_absent_on_leaf(c, height, lo, hi, rowid, record);
    let s = spot(c.pages(), c.root_page, height, lo, hi, k, usable, 0);
    lemma_spot(c.pages(), c.root_page, height, lo, hi, k, usable, 0);
    let leaf = m.top_page();
    lemma_first_at_least(c.pages(), leaf, s.lo, s.hi, k, usable, 0);
    let place = first_at_least(leaf, k, usable, 0).unwrap();
    lemma_with_row_pages(m, rowid, record);
    insert_keeps_all_cells(leaf, cell, place, usable);
    lemma_spread_heads(m.leaf_with(rowid, record), usable);
    let c1 = m.with_row(rowid, record);
    let c2 = c1.in_state(WriteState::Start);
    assert(m.row_ok(rowid, record));
    assert(m.write_ok(rowid, record) && !m.write_waits());
    assert(m.write_step(rowid, record) == c1);
    assert(c1.state == WriteState::Finish);
    assert(c1.written(rowid, record) == Written { cursor: c2, waits: false, ok: true });
    assert(m.written(rowid, record) == c1.written(rowid, record));
    let size2 = c2.header.database_size as int;
    assert(within(c.pages(), s.id, 0, usable, size)) by {
        assert forall|j: usize| #[trigger] uses(c.pages(), s.id, 0, usable, j) implies j
            <= size by {
            assert(uses(c.pages(), c.root_page, height, usable, j));
        }
    }
    lemma_leaf_gains(
        c.pages(),
        c2.pages(),
        s.id,
        d,
        place,
        row,
        s.lo,
        s.hi,
        usable,
        size,
        size2,
    );
    let q = row_reaches_root(
        c.pages(),
        c2.pages(),
        c.root_page,
        height,
        lo,
        hi,
        k,
        usable,
        0,
        size,
        size2,
        row,
        place,
    );
    assert(table_rows(c2, height) == table_rows(c, height).insert(q, row));
}

/// Inserting a row into a table whose leaf takes it works and gives the table
/// that row, in its place, and changes no other. No page has got a cell beside it.
pub proof fn insert_with_room(
    c: CursorModel,
    height: nat,
    lo: int,
    hi: int,
    rowid: u64,
    record: Seq<ValueModel>,
)
    requires
        takes_row(c, height, lo, hi, rowid, record),
        ({
            let m = at_leaf(c, rowid);
            &&& m.spill_ok(PageType::TableLeaf, record_bytes(record))
            &&& takes(m.top_page(), m.cell_for(rowid, record), c.usable())
        }),
    ensures
        c.descent(KeyModel::RowId(rowid as int), SeekOp::EQ).end is Leaf,
        at_leaf(c, rowid).written(rowid, record).ok,
        !at_leaf(c, rowid).written(rowid, record).waits,
        gained(
            c,
            height,
            at_leaf(c, rowid).written(rowid, record).cursor,
            height,
            lo,
            hi,
            Row { rowid: rowid as int, record },
        ),
        beside_kept(
            c.pages(),
            at_leaf(c, rowid).written(rowid, record).cursor.pages(),
            Set::empty(),
        ),
{
    let m = at_leaf(c, rowid);
    lemma_room_gains(c, height, lo, hi, rowid, record);
    lemma_row_rest(m, rowid, record);
}

// ---------------------------------------------------------------------------
// Insertions that split a leaf
// ---------------------------------------------------------------------------

/// A page that differs in the cells beside it only has the same cells on it.
proof fn lemma_same_cells(page: PageModel, other: PageModel, usable: int)
    requires
        other.offset == page.offset,
        other.buf == page.buf,
    ensures
        other.page_type() == page.page_type(),
        other.cell_count() == page.cell_count(),
        cells_on(other, usable) == cells_on(page, usable),
        forall|i: int| #[trigger] other.head(i, usable) == page.head(i, usable),
{
    assert(other.page_type() == page.page_type());
    assert forall|i: int| #[trigger] other.head(i, usable) == page.head(i, usable)
        && other.cell_pointer(i) == page.cell_pointer(i) by {}
    assert(cells_on(other, usable) =~= cells_on(page, usable)) by {
        assert forall|i: int| 0 <= i < page.cell_count() implies cells_on(other, usable)[i]
            == cells_on(page, usable)[i] by {
            assert(other.head(i, usable) == page.head(i, usable));
        }
    }
}

/// A row for which there is no room on the leaf is put beside it.
proof fn lemma_row_beside(m: CursorModel, rowid: u64, record: Seq<ValueModel>, place: int)
    requires
        header_ok(m.header),
        m.state == WriteState::Start,
        m.stack.len() > 0,
        m.in_file(),
        loaded(m.pages(), m.top().page),
        free_space_ok(m.top_page(), m.usable()),
        m.top_page().page_type() == Some(PageType::TableLeaf),
        m.top_page().overflow_cells.len() == 0,
        !has_room(m.top_page(), m.cell_for(rowid, record)),
        record_fits(record),
        m.spill_ok(PageType::TableLeaf, record_bytes(record)),
        m.place_for(rowid) == Some(place),
    ensures
        ({
            let c = m.with_row(rowid, record);
            let leaf = m.top_page();
            let with = m.leaf_with(rowid, record);
            let cell = m.cell_for(rowid, record);
            &&& m.written(rowid, record) == c.written(rowid, record)
            &&& c.state == WriteState::BalanceStart
            &&& with.overflow_cells == seq![OverflowModel { index: place, payload: cell }]
            &&& with.buf == leaf.buf
            &&& with.offset == leaf.offset
            &&& forall|i: int| #[trigger]
                with.head(i, m.usable()) == leaf.head(i, m.usable())
            &&& with.page_type() == leaf.page_type()
            &&& with.cell_count() == leaf.cell_count()
            &&& cells_on(with, m.usable()) == cells_on(leaf, m.usable())
        }),
{
    let c = m.with_row(rowid, record);
    let leaf = m.top_page();
    let with = m.leaf_with(rowid, record);
    let cell = m.cell_for(rowid, record);
    assert(with.overflow_cells =~= seq![OverflowModel { index: place, payload: cell }]);
    lemma_same_cells(leaf, with, m.usable());
    assert(m.row_ok(rowid, record));
    assert(m.write_ok(rowid, record) && !m.write_waits());
    assert(m.write_step(rowid, record) == c);
}

/// The two halves of a leaf's cells, with one cell more.
proof fn lemma_split_cells(
    pages: Map<usize, PageState>,
    pages2: Map<usize, PageState>,
    leaf: PageModel,
    cell: Seq<u8>,
    place: int,
    lo: int,
    hi: int,
    usable: int,
)
    requires
        usable_ok(usable),
        table_leaf(pages, leaf, lo, hi, usable),
        0 <= place <= leaf.cell_count(),
        starts_cell(cell, PageType::TableLeaf, usable),
        leaf.cell_count() >= 1,
    ensures
        ({
            let t = PageType::TableLeaf;
            let cells = cells_on(leaf, usable).insert(place, cell);
            let good = cells_on(leaf, usable).insert(place, trimmed(cell, t, usable));
            let half = cells.len() as int / 2;
            let n = cells.len() as int;
            &&& all_trimmed(cells.take(half), t, usable) == good.subrange(0, half)
            &&& all_trimmed(cells.skip(half), t, usable) == good.subrange(half, n)
            &&& row_of_cell(pages2, good[half - 1], usable) is Some ==> row_of_cell(
                pages2,
                good[half - 1],
                usable,
            ).unwrap().rowid == split_key(cells, usable)
        }),
{
    let t = PageType::TableLeaf;
    let was = cells_on(leaf, usable);
    let cells = was.insert(place, cell);
    let good = was.insert(place, trimmed(cell, t, usable));
    let half = cells.len() as int / 2;
    let n = cells.len() as int;
    lemma_leaf_to_cells(pages, leaf, 0, lo, hi, usable);
    assert forall|i: int| 0 <= i < n implies starts_cell(#[trigger] cells[i], t, usable) && good[i]
        == trimmed(cells[i], t, usable) by {
        if i < place {
            assert(cells[i] == was[i] && good[i] == was[i]);
        } else if i > place {
            assert(cells[i] == was[i - 1] && good[i] == was[i - 1]);
        }
    }
    let a = cells.take(half);
    let b = cells.skip(half);
    assert(all_trimmed(a, t, usable) =~= good.subrange(0, half)) by {
        assert forall|i: int| 0 <= i < half implies all_trimmed(a, t, usable)[i] == good[i] by {
            assert(a[i] == cells[i]);
        }
    }
    assert(all_trimmed(b, t, usable) =~= good.subrange(half, n)) by {
        assert forall|i: int| 0 <= i < n - half implies all_trimmed(b, t, usable)[i] == good[half
            + i] by {
            assert(b[i] == cells[half + i]);
        }
    }
    assert(starts_cell(cells[half - 1], t, usable));
    lemma_trimmed_layout(cells[half - 1], t, usable);
    reveal(row_of_cell);
}

/// A parent names a child of which it has only one in one place.
proof fn lemma_child_slot(parent: PageModel, id: usize, ci: int, usable: int, i: int)
    requires
        parent.page_type() == Some(PageType::TableInterior),
        0 <= i <= ci <= parent.cell_count(),
        forall|j: int| 0 <= j < parent.cell_count() ==> (#[trigger] parent.head(j, usable)) is Some,
        forall|j: int|
            0 <= j < ci ==> (#[trigger] parent.head(j, usable)).unwrap().child != id,
        ci < parent.cell_count() ==> parent.head(ci, usable).unwrap().child == id,
    ensures
        child_slot(parent, id as int, usable, i) == Some(slot_of(parent, ci)),
    decreases parent.cell_count() - i,
{
    if i < parent.cell_count() {
        assert(parent.head(i, usable) is Some);
        if i < ci {
            lemma_child_slot(parent, id, ci, usable, i + 1);
        }
    }
}

/// The divider for a child of an interior page of a table has its place before
/// the cell that names the child.
pub proof fn lemma_divider_place(
    pages: Map<usize, PageState>,
    id: usize,
    height: nat,
    lo: int,
    hi: int,
    ci: int,
    key: int,
    usable: int,
)
    requires
        height > 0,
        table(pages, id, height, lo, hi, usable),
        sole(pages, id, height, usable),
        0 <= ci <= page_of(pages, id).cell_count(),
        low(page_of(pages, id), ci, lo, usable) < key <= high(page_of(pages, id), ci, hi, usable),
    ensures
        ({
            let parent = page_of(pages, id);
            let child = child_at(parent, ci, usable);
            &&& first_at_least(parent, key, usable, 0) == Some(ci)
            &&& child_slot(parent, child as int, usable, 0) == Some(slot_of(parent, ci))
            &&& child != id
            &&& 0 <= child <= u32::MAX || ci == parent.cell_count()
        }),
{
    let parent = page_of(pages, id);
    let h = (height - 1) as nat;
    let child = child_at(parent, ci, usable);
    lemma_branch(parent, lo, hi, key, usable, 0);
    let p = first_at_least(parent, key, usable, 0).unwrap();
    if p < ci {
        assert(parent.head(p, usable) is Some && parent.head(ci - 1, usable) is Some);
    }
    if p > ci {
        assert(parent.head(ci, usable) is Some);
    }
    assert(uses(pages, child, h, usable, child));
    assert forall|j: int| 0 <= j < ci implies (#[trigger] parent.head(j, usable)).unwrap().child
        != child by {
        let other = child_at(parent, j, usable);
        assert(uses(pages, other, h, usable, other));
        assert(parent.head(j, usable) is Some);
        lemma_interior_cell(pages, parent, j, usable);
        if other == child {
            assert(!(uses(pages, child_at(parent, j, usable), h, usable, child) && uses(
                pages,
                child_at(parent, ci, usable),
                h,
                usable,
                child,
            )));
        }
    }
    if ci < parent.cell_count() {
        assert(parent.head(ci, usable) is Some);
        lemma_interior_cell(pages, parent, ci, usable);
    }
    lemma_child_slot(parent, child, ci, usable, 0);
}

/// The cells of the leaf where a row belongs, with a new one for the row.
pub open spec fn cells_with(c: CursorModel, rowid: u64, record: Seq<ValueModel>) -> Seq<Seq<u8>> {
    let m = at_leaf(c, rowid);
    cells_on(m.top_page(), c.usable()).insert(
        m.place_for(rowid).unwrap(),
        m.cell_for(rowid, record),
    )
}

/// The same cells without what follows their payloads.
pub open spec fn good_with(c: CursorModel, rowid: u64, record: Seq<ValueModel>) -> Seq<Seq<u8>> {
    let m = at_leaf(c, rowid);
    cells_on(m.top_page(), c.usable()).insert(
        m.place_for(rowid).unwrap(),
        trimmed(m.cell_for(rowid, record), PageType::TableLeaf, c.usable()),
    )
}

/// Whether the leaf where a row belongs has no room for it and its cells, with
/// that of the row, can be shared with a new leaf.
pub open spec fn leaf_splits(c: CursorModel, rowid: u64, record: Seq<ValueModel>) -> bool {
    let m = at_leaf(c, rowid);
    &&& m.spill_ok(PageType::TableLeaf, record_bytes(record))
    &&& m.top_page().offset == 0
    &&& free_space_ok(m.top_page(), c.usable())
    &&& !has_room(m.top_page(), m.cell_for(rowid, record))
    &&& halves_fit(cells_with(c, rowid, record), c.usable())
}

/// What a row that was put beside its leaf does to the pages.
pub proof fn lemma_beside_leaf(
    c: CursorModel,
    height: nat,
    lo: int,
    hi: int,
    rowid: u64,
    record: Seq<ValueModel>,
)
    requires
        takes_row(c, height, lo, hi, rowid, record),
        leaf_splits(c, rowid, record),
    ensures
        ({
            let k = rowid as int;
            let usable = c.usable();
            let m = at_leaf(c, rowid);
            let b = m.with_row(rowid, record);
            let s = spot(c.pages(), c.root_page, height, lo, hi, k, usable, 0);
            let cells = cells_with(c, rowid, record);
            let good = good_with(c, rowid, record);
            let half = cells.len() as int / 2;
            let size = c.header.database_size as int;
            let place = m.place_for(rowid).unwrap();
            let cell = m.cell_for(rowid, record);
            &&& c.descent(KeyModel::RowId(k), SeekOp::EQ).end is Leaf
            &&& m == (CursorModel { stack: m.stack, ..c })
            &&& m.top().page == s.id
            &&& m.in_file()
            &&& m.stack.len() == height + 1
            &&& m.stack[0].page == c.root_page
            &&& m.written(rowid, record) == b.written(rowid, record)
            &&& b.state == WriteState::BalanceStart
            &&& b.stack == m.stack
            &&& b.root_page == c.root_page
            &&& size <= b.header.database_size
            &&& b.header == grown_by(c.header, b.header.database_size - size)
            &&& kept(c.pages(), b.pages(), Set::new(|j: usize| j == s.id || j > size))
            &&& loaded(b.pages(), s.id)
            &&& page_of(b.pages(), s.id) == b.top_page()
            &&& b.top_page().sized(c.header.page_size as int)
            &&& b.top_page().offset == 0
            &&& forall|i: int|
                0 <= i < b.top_page().cell_count() ==> (#[trigger] b.top_page().head(
                    i,
                    usable,
                )) is Some
            &&& b.top_page().page_type() == Some(PageType::TableLeaf)
            &&& b.top_page().overflow_cells == seq![
                OverflowModel { index: place, payload: cell },
            ]
            &&& 0 <= place <= b.top_page().cell_count()
            &&& cells_on(b.top_page(), usable).insert(place, cell) == cells
            &&& starts_cell(cell, PageType::TableLeaf, usable)
            &&& table(c.pages(), s.id, 0, s.lo, s.hi, usable)
            &&& sole(c.pages(), s.id, 0, usable)
            &&& within(c.pages(), s.id, 0, usable, size)
            &&& s.lo < split_key(cells, usable) <= s.hi
        }),
{
    let k = rowid as int;
    let usable = c.usable();
    let m = at_leaf(c, rowid);
    let b = m.with_row(rowid, record);
    let s = spot(c.pages(), c.root_page, height, lo, hi, k, usable, 0);
    let size = c.header.database_size as int;
    let row = Row { rowid: k, record };
    let cell = m.cell_for(rowid, record);
    let d = trimmed(cell, PageType::TableLeaf, usable);
    lemma_at_leaf(c, height, lo, hi, rowid);
    lemma_absent_on_leaf(c, height, lo, hi, rowid, record);
    lemma_spot(c.pages(), c.root_page, height, lo, hi, k, usable, 0);
    let leaf = m.top_page();
    lemma_first_at_least(c.pages(), leaf, s.lo, s.hi, k, usable, 0);
    let place = m.place_for(rowid).unwrap();
    lemma_with_row_pages(m, rowid, record);
    lemma_row_beside(m, rowid, record, place);
    lemma_leaf_cells(c.pages(), leaf, s.lo, s.hi, usable);
    assert(forall|i: int|
        0 <= i < leaf.cell_count() ==> (#[trigger] b.top_page().head(i, usable)) is Some);
    assert(loaded(c.pages(), s.id));
    assert(leaf.sized(c.header.page_size as int));
    assert(within(c.pages(), s.id, 0, usable, size)) by {
        assert forall|j: usize| #[trigger] uses(c.pages(), s.id, 0, usable, j) implies j
            <= size by {
            assert(uses(c.pages(), c.root_page, height, usable, j));
        }
    }
    let x = Set::new(|j: usize| j == s.id || j > size);
    cells_gain(
        c.pages(),
        b.pages(),
        x,
        s.id,
        d,
        place,
        row,
        s.lo,
        s.hi,
        usable,
        size,
        b.header.database_size as int,
    );
    lemma_split_cells(c.pages(), b.pages(), leaf, cell, place, s.lo, s.hi, usable);
    let good = good_with(c, rowid, record);
    let half = cells_with(c, rowid, record).len() as int / 2;
    assert(row_of_cell(b.pages(), good[half - 1], usable) is Some);
}

/// A leaf, and the pages after a cell with a row for it was put beside it.
#[verifier::opaque]
pub open spec fn beside(
    pages: Map<usize, PageState>,
    pages1: Map<usize, PageState>,
    id: usize,
    cell: Seq<u8>,
    place: int,
    row: Row,
    lo: int,
    hi: int,
    usable: int,
    size: int,
    size1: int,
) -> bool {
    let t = PageType::TableLeaf;
    let leaf = page_of(pages, id);
    let d = trimmed(cell, t, usable);
    &&& usable_ok(usable)
    &&& table(pages, id, 0, lo, hi, usable)
    &&& sole(pages, id, 0, usable)
    &&& within(pages, id, 0, usable, size)
    &&& id <= size <= size1
    &&& kept(pages, pages1, Set::new(|j: usize| j == id || j > size))
    &&& starts_cell(cell, t, usable)
    &&& first_at_least(leaf, row.rowid, usable, 0) == Some(place)
    &&& row_of_cell(pages1, d, usable) == Some(row)
    &&& forall|j: usize| #[trigger] cell_uses(pages1, d, usable, j) ==> size < j <= size1
    &&& lo < row.rowid <= hi
    &&& forall|i: int|
        0 <= i < leaf_rows(pages, leaf, usable).len() ==> (#[trigger] leaf_rows(
            pages,
            leaf,
            usable,
        )[i]).rowid != row.rowid
}

/// Whether two leaves hold the two halves of the cells.
pub open spec fn holds_halves(
    pages: Map<usize, PageState>,
    cells: Seq<Seq<u8>>,
    left: usize,
    right: usize,
    usable: int,
) -> bool {
    let t = PageType::TableLeaf;
    let half = cells.len() as int / 2;
    let a = page_of(pages, left);
    let b = page_of(pages, right);
    &&& half >= 1
    &&& loaded(pages, left)
    &&& loaded(pages, right)
    &&& tidy(a, usable)
    &&& tidy(b, usable)
    &&& a.page_type() == Some(t)
    &&& b.page_type() == Some(t)
    &&& cells_on(a, usable) == all_trimmed(cells.take(half), t, usable)
    &&& cells_on(b, usable) == all_trimmed(cells.skip(half), t, usable)
}

/// A leaf before a cell was put beside it, the pages after that, and the pages
/// after the cells of the leaf were shared by `left` and `right`.
#[verifier::opaque]
pub open spec fn shared_out(
    pages: Map<usize, PageState>,
    pages1: Map<usize, PageState>,
    pages2: Map<usize, PageState>,
    x: Set<usize>,
    id: usize,
    cell: Seq<u8>,
    place: int,
    row: Row,
    left: usize,
    right: usize,
    lo: int,
    hi: int,
    usable: int,
    size: int,
    size1: int,
) -> bool {
    &&& beside(pages, pages1, id, cell, place, row, lo, hi, usable, size, size1)
    &&& kept(pages1, pages2, x)
    &&& forall|j: usize| #[trigger]
        x.contains(j) ==> {
            ||| j <= size && (j == id || !uses(pages, id, 0, usable, j))
            ||| j > size1
        }
    &&& left == id || left > size1
    &&& right > size1
    &&& left != right
    &&& holds_halves(
        pages2,
        cells_on(page_of(pages, id), usable).insert(place, cell),
        left,
        right,
        usable,
    )
}

/// A row for which there is no room was put beside its leaf.
pub proof fn lemma_is_beside(
    c: CursorModel,
    height: nat,
    lo: int,
    hi: int,
    rowid: u64,
    record: Seq<ValueModel>,
)
    requires
        takes_row(c, height, lo, hi, rowid, record),
        leaf_splits(c, rowid, record),
    ensures
        ({
            let m = at_leaf(c, rowid);
            let b = m.with_row(rowid, record);
            let s = spot(c.pages(), c.root_page, height, lo, hi, rowid as int, c.usable(), 0);
            &&& m.top().page == s.id
            &&& m.pages() == c.pages()
            &&& s.id <= c.header.database_size
            &&& beside(
                c.pages(),
                b.pages(),
                s.id,
                m.cell_for(rowid, record),
                m.place_for(rowid).unwrap(),
                Row { rowid: rowid as int, record },
                s.lo,
                s.hi,
                c.usable(),
                c.header.database_size as int,
                b.header.database_size as int,
            )
        }),
{
    let k = rowid as int;
    let usable = c.usable();
    let m = at_leaf(c, rowid);
    let s = spot(c.pages(), c.root_page, height, lo, hi, k, usable, 0);
    lemma_at_leaf(c, height, lo, hi, rowid);
    lemma_absent_on_leaf(c, height, lo, hi, rowid, record);
    lemma_spot(c.pages(), c.root_page, height, lo, hi, k, usable, 0);
    lemma_first_at_least(c.pages(), m.top_page(), s.lo, s.hi, k, usable, 0);
    assert(m.stack[m.stack.len() - 1].page <= c.header.database_size);
    assert(within(c.pages(), s.id, 0, usable, c.header.database_size as int)) by {
        assert forall|j: usize| #[trigger] uses(c.pages(), s.id, 0, usable, j) implies j
            <= c.header.database_size by {
            assert(uses(c.pages(), c.root_page, height, usable, j));
        }
    }
    lemma_with_row_pages(m, rowid, record);
    reveal(beside);
}

/// Two leaves that share the cells of a leaf and one more are tables, one
/// behind the other, with the rows of the leaf and that of the cell.
pub proof fn lemma_halves_gain(
    pages: Map<usize, PageState>,
    pages1: Map<usize, PageState>,
    pages2: Map<usize, PageState>,
    x: Set<usize>,
    id: usize,
    cell: Seq<u8>,
    place: int,
    row: Row,
    left: usize,
    right: usize,
    lo: int,
    hi: int,
    usable: int,
    size: int,
    size1: int,
)
    requires
        shared_out(
            pages,
            pages1,
            pages2,
            x,
            id,
            cell,
            place,
            row,
            left,
            right,
            lo,
            hi,
            usable,
            size,
            size1,
        ),
    ensures
        ({
            let cells = cells_on(page_of(pages, id), usable).insert(place, cell);
            let key = split_key(cells, usable);
            let was = rows(pages, id, 0, usable);
            &&& lo < key <= hi
            &&& table(pages2, left, 0, lo, key, usable)
            &&& table(pages2, right, 0, key, hi, usable)
            &&& sole(pages2, left, 0, usable)
            &&& sole(pages2, right, 0, usable)
            &&& 0 <= place <= was.len()
            &&& rows(pages2, left, 0, usable) + rows(pages2, right, 0, usable) == was.insert(
                place,
                row,
            )
            &&& forall|j: usize| #[trigger]
                uses(pages2, left, 0, usable, j) ==> {
                    ||| j == left
                    ||| uses(pages, id, 0, usable, j) && j != id && j <= size
                    ||| size < j <= size1
                }
            &&& forall|j: usize| #[trigger]
                uses(pages2, right, 0, usable, j) ==> {
                    ||| j == right
                    ||| uses(pages, id, 0, usable, j) && j != id && j <= size
                    ||| size < j <= size1
                }
            &&& forall|j: usize| #[trigger]
                uses(pages2, left, 0, usable, j) ==> !uses(pages2, right, 0, usable, j)
        }),
{
    let t = PageType::TableLeaf;
    let leaf = page_of(pages, id);
    let d = trimmed(cell, t, usable);
    let cells = cells_on(leaf, usable).insert(place, cell);
    let good = cells_on(leaf, usable).insert(place, d);
    let half = cells.len() as int / 2;
    reveal(shared_out);
    reveal(beside);
    assert(uses(pages, id, 0, usable, id));
    lemma_row_kept(pages1, pages2, x, d, usable);
    let y = Set::new(|j: usize| j == id || j > size || (x.contains(j) && j <= size));
    assert(kept(pages, pages2, y)) by {
        assert forall|j: usize| #[trigger] loaded(pages, j) && !y.contains(j) implies loaded(
            pages2,
            j,
        ) && page_of(pages2, j) == page_of(pages, j) by {
            assert(loaded(pages1, j) && !x.contains(j));
        }
    }
    cells_gain(pages, pages2, y, id, d, place, row, lo, hi, usable, size, size1);
    lemma_first_at_least(pages, leaf, lo, hi, row.rowid, usable, 0);
    lemma_split_cells(pages, pages2, leaf, cell, place, lo, hi, usable);
    assert(share(pages2, good, half, left, right, usable));
    shared_leaves(pages2, good, half, left, right, lo, hi, usable);
}

/// Whether the page above the leaf where a row belongs has room for a divider
/// between the two leaves after a split, and the file for one more page.
pub open spec fn parent_takes(c: CursorModel, rowid: u64, record: Seq<ValueModel>) -> bool {
    let m = at_leaf(c, rowid);
    let key = split_key(cells_with(c, rowid, record), c.usable());
    &&& m.parent_page().overflow_cells.len() == 0
    &&& takes(m.parent_page(), divider_cell(m.top().page as int, key), c.usable())
    &&& m.with_row(rowid, record).header.database_size < u32::MAX
}

/// The leaf is split below its parent.
proof fn lemma_splits_below(
    c: CursorModel,
    height: nat,
    lo: int,
    hi: int,
    rowid: u64,
    record: Seq<ValueModel>,
) -> (ci: int)
    requires
        height > 0,
        takes_row(c, height, lo, hi, rowid, record),
        leaf_splits(c, rowid, record),
        parent_takes(c, rowid, record),
    ensures
        ({
            let m = at_leaf(c, rowid);
            let b = m.with_row(rowid, record);
            let k = rowid as int;
            let s = spot(c.pages(), c.root_page, height, lo, hi, k, c.usable(), 1);
            let page = page_of(c.pages(), s.id);
            &&& splits(b, ci, m.place_for(rowid).unwrap(), m.cell_for(rowid, record))
            &&& b.parent_id() == s.id
            &&& b.parent_page() == page
            &&& s.id <= c.header.database_size
            &&& 0 <= ci <= page.cell_count()
            &&& table(c.pages(), s.id, 1, s.lo, s.hi, c.usable())
            &&& sole(c.pages(), s.id, 1, c.usable())
            &&& spot(c.pages(), c.root_page, height, lo, hi, k, c.usable(), 0) == Spot {
                id: child_at(page, ci, c.usable()),
                lo: low(page, ci, s.lo, c.usable()),
                hi: high(page, ci, s.hi, c.usable()),
            }
            &&& !uses(c.pages(), m.top().page, 0, c.usable(), s.id)
        }),
{
    let k = rowid as int;
    let usable = c.usable();
    let m = at_leaf(c, rowid);
    let b = m.with_row(rowid, record);
    let size = c.header.database_size as int;
    let s1 = spot(c.pages(), c.root_page, height, lo, hi, k, usable, 1);
    let s0 = spot(c.pages(), c.root_page, height, lo, hi, k, usable, 0);
    let page = page_of(c.pages(), s1.id);
    lemma_beside_leaf(c, height, lo, hi, rowid, record);
    lemma_at_leaf(c, height, lo, hi, rowid);
    lemma_spot(c.pages(), c.root_page, height, lo, hi, k, usable, 1);
    lemma_spot_step(c.pages(), c.root_page, height, lo, hi, k, usable);
    lemma_branch(page, s1.lo, s1.hi, k, usable, 0);
    let ci = first_at_least(page, k, usable, 0).unwrap();
    let key = split_key(cells_with(c, rowid, record), usable);
    lemma_divider_place(c.pages(), s1.id, 1, s1.lo, s1.hi, ci, key, usable);
    assert(m.stack[m.stack.len() - 2].page <= size);
    assert(loaded(c.pages(), s1.id));
    assert(!uses(c.pages(), child_at(page, ci, usable), 0, usable, s1.id));
    let x = Set::new(|j: usize| j == s0.id || j > size);
    assert(!x.contains(s1.id));
    assert(b.parent_page() == page);
    ci
}

/// What the pages are after the leaf was split below its parent.
pub proof fn lemma_split_below(
    c: CursorModel,
    height: nat,
    lo: int,
    hi: int,
    rowid: u64,
    record: Seq<ValueModel>,
) -> (ci: int)
    requires
        height > 0,
        takes_row(c, height, lo, hi, rowid, record),
        leaf_splits(c, rowid, record),
        parent_takes(c, rowid, record),
    ensures
        ({
            let k = rowid as int;
            let usable = c.usable();
            let m = at_leaf(c, rowid);
            let b = m.with_row(rowid, record);
            let e = b.written(rowid, record).cursor;
            let size = c.header.database_size as int;
            let size1 = b.header.database_size as int;
            let r = (size1 + 1) as usize;
            let s1 = spot(c.pages(), c.root_page, height, lo, hi, k, usable, 1);
            let s0 = spot(c.pages(), c.root_page, height, lo, hi, k, usable, 0);
            let page = page_of(c.pages(), s1.id);
            &&& c.descent(KeyModel::RowId(k), SeekOp::EQ).end is Leaf
            &&& m.written(rowid, record) == b.written(rowid, record)
            &&& b.written(rowid, record).ok
            &&& !b.written(rowid, record).waits
            &&& e.state == WriteState::Start
            &&& e.root_page == c.root_page
            &&& size <= size1 < u32::MAX
            &&& e.header == grown_by(c.header, size1 + 1 - size)
            &&& loaded(e.pages(), s1.id)
            &&& divided(
                page,
                page_of(e.pages(), s1.id),
                ci,
                s0.id as int,
                split_key(cells_with(c, rowid, record), usable),
                r as int,
                usable,
            )
            &&& 0 <= ci <= page.cell_count()
            &&& s0 == Spot {
                id: child_at(page, ci, usable),
                lo: low(page, ci, s1.lo, usable),
                hi: high(page, ci, s1.hi, usable),
            }
            &&& m.top().page == s0.id
            &&& m.pages() == c.pages()
            &&& shared_out(
                c.pages(),
                b.pages(),
                e.pages(),
                set![s0.id, s1.id, r],
                s0.id,
                m.cell_for(rowid, record),
                m.place_for(rowid).unwrap(),
                Row { rowid: k, record },
                s0.id,
                r,
                s0.lo,
                s0.hi,
                usable,
                size,
                size1,
            )
        }),
{
    let usable = c.usable();
    let m = at_leaf(c, rowid);
    let b = m.with_row(rowid, record);
    lemma_beside_leaf(c, height, lo, hi, rowid, record);
    let ci = lemma_splits_below(c, height, lo, hi, rowid, record);
    split_shares_cells(
        b,
        ci,
        m.place_for(rowid).unwrap(),
        m.cell_for(rowid, record),
        rowid,
        record,
    );
    lemma_is_beside(c, height, lo, hi, rowid, record);
    reveal(shared_out);
    ci
}

/// The table after a row came in by a split.
proof fn lemma_split_row_gains(
    c: CursorModel,
    height: nat,
    lo: int,
    hi: int,
    rowid: u64,
    record: Seq<ValueModel>,
)
    requires
        height > 0,
        takes_row(c, height, lo, hi, rowid, record),
        leaf_splits(c, rowid, record),
        parent_takes(c, rowid, record),
    ensures
        c.descent(KeyModel::RowId(rowid as int), SeekOp::EQ).end is Leaf,
        at_leaf(c, rowid).written(rowid, record).ok,
        !at_leaf(c, rowid).written(rowid, record).waits,
        table_gained(
            c,
            height,
            at_leaf(c, rowid).written(rowid, record).cursor,
            height,
            lo,
            hi,
            Row { rowid: rowid as int, record },
        ),
{
    let m = at_leaf(c, rowid);
    let b = m.with_row(rowid, record);
    let ci = lemma_split_below(c, height, lo, hi, rowid, record);
    let e = b.written(rowid, record).cursor;
    lemma_split_gains(
        c,
        height,
        lo,
        hi,
        rowid,
        record,
        b.pages(),
        e,
        ci,
        m.cell_for(rowid, record),
        m.place_for(rowid).unwrap(),
        b.header.database_size as int,
    );
}

/// Of the pages in memory only the leaf has got a cell beside it when it was split
/// below its parent.
pub proof fn lemma_split_row_ready(
    c: CursorModel,
    height: nat,
    lo: int,
    hi: int,
    rowid: u64,
    record: Seq<ValueModel>,
)
    requires
        height > 0,
        takes_row(c, height, lo, hi, rowid, record),
        leaf_splits(c, rowid, record),
        parent_takes(c, rowid, record),
    ensures
        ready(at_leaf(c, rowid).written(rowid, record).cursor),
        beside_kept(
            c.pages(),
            at_leaf(c, rowid).written(rowid, record).cursor.pages(),
            set![at_leaf(c, rowid).top().page],
        ),
        page_of(
            at_leaf(c, rowid).written(rowid, record).cursor.pages(),
            (at_leaf(c, rowid).with_row(rowid, record).header.database_size + 1) as usize,
        ).overflow_cells.len() == 0,
{
    let m = at_leaf(c, rowid);
    let b = m.with_row(rowid, record);
    lemma_beside_leaf(c, height, lo, hi, rowid, record);
    let ci = lemma_splits_below(c, height, lo, hi, rowid, record);
    split_shares_cells(
        b,
        ci,
        m.place_for(rowid).unwrap(),
        m.cell_for(rowid, record),
        rowid,
        record,
    );
    lemma_leaf_there(c, height, lo, hi, rowid);
    lemma_row_rest(m, rowid, record);
    let x = set![m.top().page];
    let e = b.written(rowid, record).cursor;
    lemma_beside_twice(c.pages(), b.pages(), e.pages(), x, Set::empty(), x);
}

/// The leaf where a row belongs is in memory.
pub proof fn lemma_leaf_there(c: CursorModel, height: nat, lo: int, hi: int, rowid: u64)
    requires
        height <= BTCURSOR_MAX_DEPTH,
        sound(c, height, lo, hi),
        lo < rowid <= hi,
    ensures
        loaded(at_leaf(c, rowid).pages(), at_leaf(c, rowid).top().page),
        at_leaf(c, rowid) == (CursorModel { stack: at_leaf(c, rowid).stack, ..c }),
{
    lemma_at_leaf(c, height, lo, hi, rowid);
}

/// Inserting a row into a table, whose leaf is split below a parent with room
/// for one more child, works and gives the table that row, in its place, and
/// changes no other. Only the leaf has then a cell beside it that it had not.
pub proof fn insert_with_split(
    c: CursorModel,
    height: nat,
    lo: int,
    hi: int,
    rowid: u64,
    record: Seq<ValueModel>,
)
    requires
        height > 0,
        takes_row(c, height, lo, hi, rowid, record),
        leaf_splits(c, rowid, record),
        parent_takes(c, rowid, record),
    ensures
        c.descent(KeyModel::RowId(rowid as int), SeekOp::EQ).end is Leaf,
        at_leaf(c, rowid).written(rowid, record).ok,
        !at_leaf(c, rowid).written(rowid, record).waits,
        gained(
            c,
            height,
            at_leaf(c, rowid).written(rowid, record).cursor,
            height,
            lo,
            hi,
            Row { rowid: rowid as int, record },
        ),
        beside_kept(
            c.pages(),
            at_leaf(c, rowid).written(rowid, record).cursor.pages(),
            set![at_leaf(c, rowid).top().page],
        ),
{
    lemma_split_row_gains(c, height, lo, hi, rowid, record);
    lemma_split_row_ready(c, height, lo, hi, rowid, record);
}

/// The table after the leaf was split below its parent.
proof fn lemma_split_gains(
    c: CursorModel,
    height: nat,
    lo: int,
    hi: int,
    rowid: u64,
    record: Seq<ValueModel>,
    pages1: Map<usize, PageState>,
    e: CursorModel,
    ci: int,
    cell: Seq<u8>,
    place: int,
    size1: int,
)
    requires
        height > 0,
        takes_row(c, height, lo, hi, rowid, record),
        c.header.database_size <= size1 < u32::MAX,
        e.state == WriteState::Start,
        e.root_page == c.root_page,
        e.header == grown_by(c.header, size1 + 1 - c.header.database_size),
        ({
            let k = rowid as int;
            let usable = c.usable();
            let size = c.header.database_size as int;
            let r = (size1 + 1) as usize;
            let s1 = spot(c.pages(), c.root_page, height, lo, hi, k, usable, 1);
            let s0 = spot(c.pages(), c.root_page, height, lo, hi, k, usable, 0);
            let page = page_of(c.pages(), s1.id);
            let cells = cells_on(page_of(c.pages(), s0.id), usable).insert(place, cell);
            &&& loaded(e.pages(), s1.id)
            &&& divided(
                page,
                page_of(e.pages(), s1.id),
                ci,
                s0.id as int,
                split_key(cells, usable),
                r as int,
                usable,
            )
            &&& 0 <= ci <= page.cell_count()
            &&& s0 == Spot {
                id: child_at(page, ci, usable),
                lo: low(page, ci, s1.lo, usable),
                hi: high(page, ci, s1.hi, usable),
            }
            &&& shared_out(
                c.pages(),
                pages1,
                e.pages(),
                set![s0.id, s1.id, r],
                s0.id,
                cell,
                place,
                Row { rowid: k, record },
                s0.id,
                r,
                s0.lo,
                s0.hi,
                usable,
                size,
                size1,
            )
        }),
    ensures
        table_gained(c, height, e, height, lo, hi, Row { rowid: rowid as int, record }),
{
    let row = Row { rowid: rowid as int, record };
    let q = lemma_split_reaches(
        c.pages(),
        pages1,
        e.pages(),
        c.root_page,
        height,
        lo,
        hi,
        rowid as int,
        c.usable(),
        ci,
        cell,
        place,
        row,
        (size1 + 1) as usize,
        c.header.database_size as int,
        size1,
    );
    lemma_gained(c, height, e, lo, hi, row, q);
}

/// A table that grew as a whole gained the row that it got.
pub proof fn lemma_gained(
    c: CursorModel,
    height: nat,
    e: CursorModel,
    lo: int,
    hi: int,
    row: Row,
    q: int,
)
    requires
        sound(c, height, lo, hi),
        e.root_page == c.root_page,
        e.state == WriteState::Start,
        e.usable() == c.usable(),
        c.header.database_size <= e.header.database_size,
        table(e.pages(), c.root_page, height, lo, hi, c.usable()),
        sole(e.pages(), c.root_page, height, c.usable()),
        grows_only(
            c.pages(),
            e.pages(),
            c.root_page,
            height,
            c.usable(),
            c.header.database_size as int,
            e.header.database_size as int,
        ),
        0 <= q <= table_rows(c, height).len(),
        table_rows(e, height) == table_rows(c, height).insert(q, row),
    ensures
        table_gained(c, height, e, height, lo, hi, row),
{
    assert forall|j: usize| #[trigger] uses(
        e.pages(),
        c.root_page,
        height,
        c.usable(),
        j,
    ) implies j <= e.header.database_size by {
        assert(uses(c.pages(), c.root_page, height, c.usable(), j) || j
            <= e.header.database_size);
    }
}

/// A leaf that was split below its parent gives the whole table the new row.
proof fn lemma_split_reaches(
    pages: Map<usize, PageState>,
    pages1: Map<usize, PageState>,
    pages2: Map<usize, PageState>,
    root: usize,
    height: nat,
    lo: int,
    hi: int,
    k: int,
    usable: int,
    ci: int,
    cell: Seq<u8>,
    place: int,
    row: Row,
    right: usize,
    size: int,
    size1: int,
) -> (q: int)
    requires
        height > 0,
        lo < k <= hi,
        table(pages, root, height, lo, hi, usable),
        sole(pages, root, height, usable),
        within(pages, root, height, usable, size),
        right == size1 + 1,
        ({
            let s1 = spot(pages, root, height, lo, hi, k, usable, 1);
            let s0 = spot(pages, root, height, lo, hi, k, usable, 0);
            let page = page_of(pages, s1.id);
            let cells = cells_on(page_of(pages, s0.id), usable).insert(place, cell);
            &&& shared_out(
                pages,
                pages1,
                pages2,
                set![s0.id, s1.id, right],
                s0.id,
                cell,
                place,
                row,
                s0.id,
                right,
                s0.lo,
                s0.hi,
                usable,
                size,
                size1,
            )
            &&& 0 <= ci <= page.cell_count()
            &&& s0 == Spot {
                id: child_at(page, ci, usable),
                lo: low(page, ci, s1.lo, usable),
                hi: high(page, ci, s1.hi, usable),
            }
            &&& loaded(pages2, s1.id)
            &&& divided(
                page,
                page_of(pages2, s1.id),
                ci,
                s0.id as int,
                split_key(cells, usable),
                right as int,
                usable,
            )
        }),
    ensures
        table(pages2, root, height, lo, hi, usable),
        sole(pages2, root, height, usable),
        grows_only(pages, pages2, root, height, usable, size, size1 + 1),
        0 <= q <= rows(pages, root, height, usable).len(),
        rows(pages2, root, height, usable) == rows(pages, root, height, usable).insert(q, row),
{
    let s1 = spot(pages, root, height, lo, hi, k, usable, 1);
    let s0 = spot(pages, root, height, lo, hi, k, usable, 0);
    let cells = cells_on(page_of(pages, s0.id), usable).insert(place, cell);
    let key = split_key(cells, usable);
    let x = set![s0.id, s1.id, right];
    let size2 = size1 + 1;
    reveal(shared_out);
    reveal(beside);
    lemma_halves_gain(
        pages,
        pages1,
        pages2,
        x,
        s0.id,
        cell,
        place,
        row,
        s0.id,
        right,
        s0.lo,
        s0.hi,
        usable,
        size,
        size1,
    );
    lemma_spot(pages, root, height, lo, hi, k, usable, 1);
    assert(within(pages, s1.id, 1, usable, size)) by {
        assert forall|j: usize| #[trigger] uses(pages, s1.id, 1, usable, j) implies j <= size by {
            assert(uses(pages, root, height, usable, j));
        }
    }
    assert(uses(pages, s0.id, 0, usable, s0.id));
    let y = Set::new(|j: usize| j == s1.id || j == s0.id || j > size);
    assert(kept(pages, pages2, y)) by {
        assert forall|j: usize| #[trigger] loaded(pages, j) && !y.contains(j) implies loaded(
            pages2,
            j,
        ) && page_of(pages2, j) == page_of(pages, j) by {
            assert(loaded(pages1, j) && !x.contains(j));
        }
    }
    assert(divides(
        pages,
        pages2,
        s1.id,
        1,
        ci,
        s0.id,
        key,
        right,
        s1.lo,
        s1.hi,
        usable,
        size,
        size2,
    ));
    let r = divided_root_gains(
        pages,
        pages2,
        s1.id,
        1,
        ci,
        s0.id,
        key,
        right,
        s1.lo,
        s1.hi,
        usable,
        size,
        size2,
        row,
        place,
    );
    assert(uses(pages, s1.id, 1, usable, s1.id));
    assert(uses(pages, s1.id, 1, usable, s0.id));
    let z = Set::new(|j: usize| uses(pages, s1.id, 1, usable, j) || j > size);
    assert(changes_only(pages, pages2, s1.id, 1, usable, size)) by {
        assert forall|j: usize| #[trigger] loaded(pages, j) && !z.contains(j) implies loaded(
            pages2,
            j,
        ) && page_of(pages2, j) == page_of(pages, j) by {
            assert(!y.contains(j));
        }
    }
    row_reaches_root(
        pages,
        pages2,
        root,
        height,
        lo,
        hi,
        k,
        usable,
        1,
        size,
        size2,
        row,
        r,
    )
}

// ---------------------------------------------------------------------------
// Insertions that give the tree a new root
// ---------------------------------------------------------------------------

/// The page that a new root above page `id` is before it has a divider.
pub open spec fn bare_root(h: DatabaseHeader, id: int) -> PageModel {
    new_tree_page(PageType::TableInterior, h).with_u32(8, id).with_u16(3, 0)
}

/// A new root takes the divider for its only child.
pub proof fn lemma_bare_root(h: DatabaseHeader, id: usize, key: int)
    requires
        header_ok(h),
        id <= u32::MAX,
        0 <= key <= u64::MAX,
    ensures
        divider_fits(bare_root(h, id as int), 0, id as int, key, h.usable()),
        bare_root(h, id as int).cell_count() == 0,
{
    lemma_new_root_room(h, id as int);
    lemma_limits(h.usable());
    lemma_varint_len(key as u64);
    assert(divider_cell(id as int, key).len() <= 13);
    tidy_takes(bare_root(h, id as int), divider_cell(id as int, key), h.usable());
}

/// The leaf that is the whole tree is split below a new root.
proof fn lemma_splits_root(
    c: CursorModel,
    lo: int,
    hi: int,
    rowid: u64,
    record: Seq<ValueModel>,
)
    requires
        takes_row(c, 0, lo, hi, rowid, record),
        leaf_splits(c, rowid, record),
        at_leaf(c, rowid).with_row(rowid, record).header.database_size + 1 < u32::MAX,
    ensures
        ({
            let m = at_leaf(c, rowid);
            let b = m.with_row(rowid, record);
            let n = b.with_new_root();
            let id = (b.header.database_size + 1) as usize;
            &&& b.written(rowid, record) == n.written(rowid, record)
            &&& splits(n, 0, m.place_for(rowid).unwrap(), m.cell_for(rowid, record))
            &&& n.top_page() == b.top_page()
            &&& n.top().page == id
            &&& n.parent_id() == c.root_page
            &&& n.parent_page().cell_count() == 0
            &&& n.parent_page().page_type() == Some(PageType::TableInterior)
            &&& n.root_page == c.root_page
            &&& n.header == grown_by(b.header, 1)
            &&& kept(b.pages(), n.pages(), set![c.root_page, id])
        }),
{
    let m = at_leaf(c, rowid);
    let b = m.with_row(rowid, record);
    lemma_beside_leaf(c, 0, lo, hi, rowid, record);
    lemma_split_key_bounds(c, lo, hi, rowid, record);
    lemma_new_root_step(b, rowid, record);
    lemma_new_root_splits(b, m.place_for(rowid).unwrap(), m.cell_for(rowid, record));
}

/// The first step of balancing a leaf that is the whole tree.
pub proof fn lemma_new_root_step(b: CursorModel, rowid: u64, record: Seq<ValueModel>)
    requires
        header_ok(b.header),
        b.state == WriteState::BalanceStart,
        b.stack.len() == 1,
        b.in_file(),
        loaded(b.pages(), b.top().page),
        b.top_page().overflow_cells.len() > 0,
        b.header.database_size < u32::MAX,
    ensures
        b.written(rowid, record) == b.with_new_root().written(rowid, record),
{
    assert(b.new_root_ok());
    assert(b.write_step(rowid, record) == b.with_new_root());
}

/// The cursor's page below a new root.
pub proof fn lemma_new_root_pages(b: CursorModel)
    requires
        header_ok(b.header),
        b.stack.len() == 1,
        b.in_file(),
        loaded(b.pages(), b.top().page),
        b.header.database_size < u32::MAX,
    ensures
        ({
            let n = b.with_new_root();
            let id = (b.header.database_size + 1) as usize;
            let root = b.top().page;
            &&& n.state == b.state
            &&& n.stack.len() == 2
            &&& n.top().page == id
            &&& n.parent_id() == root
            &&& root <= b.header.database_size
            &&& loaded(n.pages(), id)
            &&& loaded(n.pages(), root)
            &&& n.top_page() == b.top_page()
            &&& n.parent_page() == bare_root(b.header, id as int)
            &&& n.root_page == root
            &&& n.header == grown_by(b.header, 1)
            &&& kept(b.pages(), n.pages(), set![root, id])
        }),
{
    let n = b.with_new_root();
    let root = b.top().page;
    let id = (b.header.database_size + 1) as usize;
    assert(b.stack[0].page <= b.header.database_size);
    assert(n.top().page == id && n.parent_id() == root);
    assert(n.pages()[root].contents == Some(bare_root(b.header, id as int)));
    assert(n.pages()[id] == b.pages()[root]);
}

/// A leaf that has a new root above it is split below it.
proof fn lemma_new_root_splits(b: CursorModel, place: int, cell: Seq<u8>)
    requires
        header_ok(b.header),
        b.state == WriteState::BalanceStart,
        b.stack.len() == 1,
        b.in_file(),
        loaded(b.pages(), b.top().page),
        b.header.database_size + 1 < u32::MAX,
        b.top_page().sized(b.header.page_size as int),
        b.top_page().offset == 0,
        forall|i: int|
            0 <= i < b.top_page().cell_count() ==> (#[trigger] b.top_page().head(
                i,
                b.usable(),
            )) is Some,
        b.top_page().page_type() == Some(PageType::TableLeaf),
        b.top_page().overflow_cells == seq![OverflowModel { index: place, payload: cell }],
        0 <= place <= b.top_page().cell_count(),
        starts_cell(cell, PageType::TableLeaf, b.usable()),
        ({
            let cells = cells_on(b.top_page(), b.usable()).insert(place, cell);
            &&& halves_fit(cells, b.usable())
            &&& 0 <= split_key(cells, b.usable()) <= u64::MAX
        }),
    ensures
        ({
            let n = b.with_new_root();
            let id = (b.header.database_size + 1) as usize;
            let root = b.top().page;
            &&& splits(n, 0, place, cell)
            &&& n.top_page() == b.top_page()
            &&& n.top().page == id
            &&& n.parent_id() == root
            &&& n.parent_page().cell_count() == 0
            &&& n.parent_page().page_type() == Some(PageType::TableInterior)
            &&& n.root_page == root
            &&& n.header == grown_by(b.header, 1)
            &&& kept(b.pages(), n.pages(), set![root, id])
        }),
{
    let id = (b.header.database_size + 1) as usize;
    let cells = cells_on(b.top_page(), b.usable()).insert(place, cell);
    lemma_new_root_pages(b);
    lemma_bare_root(b.header, id, split_key(cells, b.usable()));
}

/// The row id between two halves fits eight bytes.
proof fn lemma_split_key_bounds(
    c: CursorModel,
    lo: int,
    hi: int,
    rowid: u64,
    record: Seq<ValueModel>,
)
    requires
        takes_row(c, 0, lo, hi, rowid, record),
        leaf_splits(c, rowid, record),
    ensures
        0 <= split_key(cells_with(c, rowid, record), c.usable()) <= u64::MAX,
{
    let usable = c.usable();
    let m = at_leaf(c, rowid);
    let place = m.place_for(rowid).unwrap();
    let was = cells_on(m.top_page(), usable);
    lemma_beside_leaf(c, 0, lo, hi, rowid, record);
    lemma_leaf_to_cells(c.pages(), m.top_page(), 0, lo, hi, usable);
    lemma_key_between(was, m.cell_for(rowid, record), place, usable);
}

/// The row id between the halves of cells with one more fits eight bytes.
proof fn lemma_key_between(was: Seq<Seq<u8>>, cell: Seq<u8>, place: int, usable: int)
    requires
        was.len() > 0,
        0 <= place <= was.len(),
        starts_cell(cell, PageType::TableLeaf, usable),
        forall|i: int|
            0 <= i < was.len() ==> starts_cell(#[trigger] was[i], PageType::TableLeaf, usable),
    ensures
        0 <= split_key(was.insert(place, cell), usable) <= u64::MAX,
{
    let cells = was.insert(place, cell);
    let i = cells.len() as int / 2 - 1;
    if i < place {
        assert(cells[i] == was[i]);
    } else if i > place {
        assert(cells[i] == was[i - 1]);
    }
    lemma_rowid_bounds(cells[i], usable);
}

/// The row id of a table's leaf cell fits eight bytes.
pub proof fn lemma_rowid_bounds(cell: Seq<u8>, usable: int)
    requires
        starts_cell(cell, PageType::TableLeaf, usable),
    ensures
        0 <= cell_layout(cell, PageType::TableLeaf, usable).rowid <= u64::MAX,
{
    let n = varint_at(cell, 0).unwrap().1;
    lemma_varint_bounds(cell, 0, 0, 0);
    lemma_varint_value(cell, n, 0, 0);
}

/// A root with two tables below it.
pub proof fn lemma_two_below_root(
    pages: Map<usize, PageState>,
    root: usize,
    h: nat,
    bare: PageModel,
    left: usize,
    key: int,
    right: usize,
    lo: int,
    hi: int,
    usable: int,
)
    requires
        loaded(pages, root),
        bare.cell_count() == 0,
        bare.page_type() == Some(PageType::TableInterior),
        divided(bare, page_of(pages, root), 0, left as int, key, right as int, usable),
        lo <= key <= hi,
        table(pages, left, h, lo, key, usable),
        table(pages, right, h, key, hi, usable),
        sole(pages, left, h, usable),
        sole(pages, right, h, usable),
        !uses(pages, left, h, usable, root),
        !uses(pages, right, h, usable, root),
        forall|j: usize| #[trigger]
            uses(pages, left, h, usable, j) ==> !uses(pages, right, h, usable, j),
    ensures
        table(pages, root, h + 1, lo, hi, usable),
        sole(pages, root, h + 1, usable),
        rows(pages, root, h + 1, usable) == rows(pages, left, h, usable) + rows(
            pages,
            right,
            h,
            usable,
        ),
        forall|j: usize| #[trigger]
            uses(pages, root, h + 1, usable, j) ==> j == root || uses(pages, left, h, usable, j)
                || uses(pages, right, h, usable, j),
{
    let page = page_of(pages, root);
    assert(page.cell_count() == 1);
    assert(child_at(page, 0, usable) == left);
    assert(child_at(page, 1, usable) == right);
    assert(low(page, 0, lo, usable) == lo && high(page, 0, hi, usable) == key);
    assert(low(page, 1, lo, usable) == key && high(page, 1, hi, usable) == hi);
    assert(page.head(0, usable) is Some);
    assert(table_node(page, lo, hi, usable));
    assert forall|i: int| 0 <= i <= page.cell_count() implies {
        &&& table(
            pages,
            #[trigger] child_at(page, i, usable),
            h,
            low(page, i, lo, usable),
            high(page, i, hi, usable),
            usable,
        )
        &&& sole(pages, child_at(page, i, usable), h, usable)
        &&& !uses(pages, child_at(page, i, usable), h, usable, root)
        &&& child_at(page, i, usable) == left || child_at(page, i, usable) == right
    } by {
        assert(i == 0 || i == 1);
    }
    assert forall|i: int, j: int, k: usize| 0 <= i < j <= page.cell_count() implies !(
    #[trigger] uses(pages, child_at(page, i, usable), h, usable, k) && #[trigger] uses(
        pages,
        child_at(page, j, usable),
        h,
        usable,
        k,
    )) by {
        assert(i == 0 && j == 1);
    }
    let a = rows(pages, left, h, usable);
    let b = rows(pages, right, h, usable);
    assert(rows_from(pages, page, h + 1, 2, usable) == Seq::<Row>::empty());
    assert(rows_from(pages, page, h + 1, 1, usable) == b + Seq::<Row>::empty());
    assert(b + Seq::<Row>::empty() =~= b);
    assert(rows_from(pages, page, h + 1, 0, usable) == a + b);
}

/// What the pages are after the leaf that was the whole tree was split.
#[verifier::spinoff_prover]
#[verifier::rlimit(100)]
pub proof fn lemma_split_root(c: CursorModel, lo: int, hi: int, rowid: u64, record: Seq<ValueModel>)
    requires
        takes_row(c, 0, lo, hi, rowid, record),
        leaf_splits(c, rowid, record),
        at_leaf(c, rowid).with_row(rowid, record).header.database_size + 1 < u32::MAX,
    ensures
        ({
            let usable = c.usable();
            let m = at_leaf(c, rowid);
            let b = m.with_row(rowid, record);
            let n = b.with_new_root();
            let e = b.written(rowid, record).cursor;
            let root = c.root_page;
            let size = c.header.database_size as int;
            let size1 = b.header.database_size as int;
            let left = (size1 + 1) as usize;
            let right = (size1 + 2) as usize;
            let cells = cells_with(c, rowid, record);
            &&& m.written(rowid, record) == b.written(rowid, record)
            &&& b.written(rowid, record).ok
            &&& !b.written(rowid, record).waits
            &&& e.state == WriteState::Start
            &&& e.root_page == root
            &&& size <= size1
            &&& e.header == grown_by(c.header, size1 + 2 - size)
            &&& loaded(e.pages(), root)
            &&& n.parent_page().cell_count() == 0
            &&& n.parent_page().page_type() == Some(PageType::TableInterior)
            &&& divided(
                n.parent_page(),
                page_of(e.pages(), root),
                0,
                left as int,
                split_key(cells, usable),
                right as int,
                usable,
            )
            &&& kept(b.pages(), e.pages(), set![root, left, right])
            &&& holds_halves(e.pages(), cells, left, right, usable)
        }),
{
    let root = c.root_page;
    let m = at_leaf(c, rowid);
    let b = m.with_row(rowid, record);
    let n = b.with_new_root();
    let place = m.place_for(rowid).unwrap();
    let cell = m.cell_for(rowid, record);
    let cells = cells_with(c, rowid, record);
    let left = (b.header.database_size + 1) as usize;
    let right = (b.header.database_size + 2) as usize;
    lemma_splits_root(c, lo, hi, rowid, record);
    assert(cells == cells_on(n.top_page(), c.usable()).insert(place, cell) && m.written(
        rowid,
        record,
    ) == b.written(rowid, record) && c.header.database_size <= b.header.database_size && b.header
        == grown_by(c.header, b.header.database_size - c.header.database_size)) by {
        lemma_beside_leaf(c, 0, lo, hi, rowid, record);
    }
    lemma_halves_held(n, 0, place, cell, rowid, record);
    let e = n.written(rowid, record).cursor;
    lemma_kept_twice(
        b.pages(),
        n.pages(),
        e.pages(),
        set![root, left],
        set![left, root, right],
        set![root, left, right],
    );
}

/// What a split does, as far as the rows are concerned.
proof fn lemma_halves_held(
    n: CursorModel,
    ci: int,
    place: int,
    cell: Seq<u8>,
    rowid: u64,
    record: Seq<ValueModel>,
)
    requires
        splits(n, ci, place, cell),
    ensures
        n.written(rowid, record).ok,
        !n.written(rowid, record).waits,
        ({
            let usable = n.usable();
            let l = n.top().page;
            let p = n.parent_id();
            let r = (n.header.database_size + 1) as usize;
            let cells = cells_on(n.top_page(), usable).insert(place, cell);
            let e = n.written(rowid, record).cursor;
            &&& e.state == WriteState::Start
            &&& e.root_page == n.root_page
            &&& e.header == grown_by(n.header, 1)
            &&& kept(n.pages(), e.pages(), set![l, p, r])
            &&& loaded(e.pages(), p)
            &&& divided(
                n.parent_page(),
                page_of(e.pages(), p),
                ci,
                l as int,
                split_key(cells, usable),
                r as int,
                usable,
            )
            &&& holds_halves(e.pages(), cells, l, r, usable)
        }),
{
    split_shares_cells(n, ci, place, cell, rowid, record);
}

/// The cells of the leaf that was the whole tree are shared by two new pages.
proof fn lemma_root_shared_out(
    c: CursorModel,
    lo: int,
    hi: int,
    rowid: u64,
    record: Seq<ValueModel>,
    pages2: Map<usize, PageState>,
    left: usize,
    right: usize,
)
    requires
        takes_row(c, 0, lo, hi, rowid, record),
        leaf_splits(c, rowid, record),
        left > at_leaf(c, rowid).with_row(rowid, record).header.database_size,
        right > at_leaf(c, rowid).with_row(rowid, record).header.database_size,
        left != right,
        kept(
            at_leaf(c, rowid).with_row(rowid, record).pages(),
            pages2,
            set![c.root_page, left, right],
        ),
        holds_halves(pages2, cells_with(c, rowid, record), left, right, c.usable()),
    ensures
        ({
            let m = at_leaf(c, rowid);
            let b = m.with_row(rowid, record);
            &&& c.descent(KeyModel::RowId(rowid as int), SeekOp::EQ).end is Leaf
            &&& m.top().page == c.root_page
            &&& m.pages() == c.pages()
            &&& c.root_page <= c.header.database_size
            &&& shared_out(
                c.pages(),
                b.pages(),
                pages2,
                set![c.root_page, left, right],
                c.root_page,
                m.cell_for(rowid, record),
                m.place_for(rowid).unwrap(),
                Row { rowid: rowid as int, record },
                left,
                right,
                lo,
                hi,
                c.usable(),
                c.header.database_size as int,
                b.header.database_size as int,
            )
        }),
{
    lemma_is_beside(c, 0, lo, hi, rowid, record);
    lemma_at_leaf(c, 0, lo, hi, rowid);
    reveal(shared_out);
}

/// Pages that are kept twice are kept.
pub proof fn lemma_kept_twice(
    a: Map<usize, PageState>,
    b: Map<usize, PageState>,
    c: Map<usize, PageState>,
    x: Set<usize>,
    y: Set<usize>,
    z: Set<usize>,
)
    requires
        kept(a, b, x),
        kept(b, c, y),
        x.subset_of(z),
        y.subset_of(z),
    ensures
        kept(a, c, z),
{
    assert forall|k: usize| #[trigger] loaded(a, k) && !z.contains(k) implies loaded(c, k)
        && page_of(c, k) == page_of(a, k) by {
        assert(!x.contains(k) && !y.contains(k));
        assert(loaded(b, k));
    }
}

/// The table after a row came in by a new root.
proof fn lemma_root_row_gains(
    c: CursorModel,
    lo: int,
    hi: int,
    rowid: u64,
    record: Seq<ValueModel>,
)
    requires
        takes_row(c, 0, lo, hi, rowid, record),
        leaf_splits(c, rowid, record),
        at_leaf(c, rowid).with_row(rowid, record).header.database_size + 1 < u32::MAX,
    ensures
        c.descent(KeyModel::RowId(rowid as int), SeekOp::EQ).end is Leaf,
        at_leaf(c, rowid).written(rowid, record).ok,
        !at_leaf(c, rowid).written(rowid, record).waits,
        table_gained(
            c,
            0,
            at_leaf(c, rowid).written(rowid, record).cursor,
            1,
            lo,
            hi,
            Row { rowid: rowid as int, record },
        ),
{
    let m = at_leaf(c, rowid);
    let b = m.with_row(rowid, record);
    lemma_split_root(c, lo, hi, rowid, record);
    lemma_root_shared_out(
        c,
        lo,
        hi,
        rowid,
        record,
        b.written(rowid, record).cursor.pages(),
        (b.header.database_size + 1) as usize,
        (b.header.database_size + 2) as usize,
    );
    lemma_new_root_gains(
        c,
        lo,
        hi,
        rowid,
        record,
        b.pages(),
        b.written(rowid, record).cursor,
        b.with_new_root().parent_page(),
        m.cell_for(rowid, record),
        m.place_for(rowid).unwrap(),
        b.header.database_size as int,
    );
}

/// Of the pages in memory only the left leaf has got a cell beside it when a leaf
/// was split below a new root.
#[verifier::spinoff_prover]
#[verifier::rlimit(40)]
pub proof fn lemma_root_row_ready(
    c: CursorModel,
    lo: int,
    hi: int,
    rowid: u64,
    record: Seq<ValueModel>,
)
    requires
        takes_row(c, 0, lo, hi, rowid, record),
        leaf_splits(c, rowid, record),
        at_leaf(c, rowid).with_row(rowid, record).header.database_size + 1 < u32::MAX,
    ensures
        ready(at_leaf(c, rowid).written(rowid, record).cursor),
        beside_kept(
            c.pages(),
            at_leaf(c, rowid).written(rowid, record).cursor.pages(),
            set![(at_leaf(c, rowid).with_row(rowid, record).header.database_size + 1) as usize],
        ),
        page_of(
            at_leaf(c, rowid).written(rowid, record).cursor.pages(),
            (at_leaf(c, rowid).with_row(rowid, record).header.database_size + 2) as usize,
        ).overflow_cells.len() == 0,
{
    let m = at_leaf(c, rowid);
    let b = m.with_row(rowid, record);
    let n = b.with_new_root();
    lemma_beside_leaf(c, 0, lo, hi, rowid, record);
    lemma_splits_root(c, lo, hi, rowid, record);
    split_shares_cells(
        n,
        0,
        m.place_for(rowid).unwrap(),
        m.cell_for(rowid, record),
        rowid,
        record,
    );
    lemma_leaf_there(c, 0, lo, hi, rowid);
    lemma_row_rest(m, rowid, record);
    assert(b.stack[0].page <= b.header.database_size);
    lemma_root_rest(b);
    let e = n.written(rowid, record).cursor;
    let x = set![(b.header.database_size + 1) as usize];
    let y = set![c.root_page, (b.header.database_size + 1) as usize];
    lemma_beside_twice(c.pages(), b.pages(), n.pages(), set![c.root_page], x, y);
    lemma_beside_twice(c.pages(), n.pages(), e.pages(), y, Set::empty(), x);
}

/// Inserting a row into a table that is a single leaf, without room for the
/// row, works: the tree gets a new root with two leaves, and the table that
/// row, in its place, and no other is changed. Only the left leaf has then a cell
/// beside it.
pub proof fn insert_with_new_root(
    c: CursorModel,
    lo: int,
    hi: int,
    rowid: u64,
    record: Seq<ValueModel>,
)
    requires
        takes_row(c, 0, lo, hi, rowid, record),
        leaf_splits(c, rowid, record),
        at_leaf(c, rowid).with_row(rowid, record).header.database_size + 1 < u32::MAX,
    ensures
        c.descent(KeyModel::RowId(rowid as int), SeekOp::EQ).end is Leaf,
        at_leaf(c, rowid).written(rowid, record).ok,
        !at_leaf(c, rowid).written(rowid, record).waits,
        gained(
            c,
            0,
            at_leaf(c, rowid).written(rowid, record).cursor,
            1,
            lo,
            hi,
            Row { rowid: rowid as int, record },
        ),
        beside_kept(
            c.pages(),
            at_leaf(c, rowid).written(rowid, record).cursor.pages(),
            set![(at_leaf(c, rowid).with_row(rowid, record).header.database_size + 1) as usize],
        ),
{
    lemma_root_row_gains(c, lo, hi, rowid, record);
    lemma_root_row_ready(c, lo, hi, rowid, record);
}

/// A table that gained a row takes the next one: any whose row id is within the
/// bounds and not in use, and whose leaf has no cell beside it.
pub proof fn insertions_follow(
    c: CursorModel,
    height: nat,
    c2: CursorModel,
    height2: nat,
    lo: int,
    hi: int,
    row: Row,
    rowid: u64,
    record: Seq<ValueModel>,
)
    requires
        gained(c, height, c2, height2, lo, hi, row),
        height2 <= BTCURSOR_MAX_DEPTH,
        lo < rowid <= hi,
        rowid != row.rowid,
        forall|i: int|
            0 <= i < table_rows(c, height).len() ==> (#[trigger] table_rows(c, height)[i]).rowid
                != rowid,
        at_leaf(c2, rowid).top_page().overflow_cells.len() == 0,
        record_fits(record),
    ensures
        takes_row(c2, height2, lo, hi, rowid, record),
{
    let r = table_rows(c, height);
    let r2 = table_rows(c2, height2);
    let q = choose|q: int| 0 <= q <= r.len() && r2 == #[trigger] r.insert(q, row);
    assert forall|i: int| 0 <= i < r2.len() implies (#[trigger] r2[i]).rowid != rowid by {
        if i < q {
            assert(r2[i] == r[i]);
        } else if i > q {
            assert(r2[i] == r[i - 1]);
        }
    }
}

/// The table after the leaf that was the whole tree was split.
proof fn lemma_new_root_gains(
    c: CursorModel,
    lo: int,
    hi: int,
    rowid: u64,
    record: Seq<ValueModel>,
    pages1: Map<usize, PageState>,
    e: CursorModel,
    bare: PageModel,
    cell: Seq<u8>,
    place: int,
    size1: int,
)
    requires
        c.root_page <= c.header.database_size <= size1,
        size1 + 2 <= u32::MAX,
        e.state == WriteState::Start,
        e.root_page == c.root_page,
        e.header == grown_by(c.header, size1 + 2 - c.header.database_size),
        ({
            let usable = c.usable();
            let root = c.root_page;
            let left = (size1 + 1) as usize;
            let right = (size1 + 2) as usize;
            let cells = cells_on(page_of(c.pages(), root), usable).insert(place, cell);
            &&& loaded(e.pages(), root)
            &&& bare.cell_count() == 0
            &&& bare.page_type() == Some(PageType::TableInterior)
            &&& divided(
                bare,
                page_of(e.pages(), root),
                0,
                left as int,
                split_key(cells, usable),
                right as int,
                usable,
            )
            &&& shared_out(
                c.pages(),
                pages1,
                e.pages(),
                set![root, left, right],
                root,
                cell,
                place,
                Row { rowid: rowid as int, record },
                left,
                right,
                lo,
                hi,
                usable,
                c.header.database_size as int,
                size1,
            )
        }),
    ensures
        table_gained(c, 0, e, 1, lo, hi, Row { rowid: rowid as int, record }),
{
    let usable = c.usable();
    let root = c.root_page;
    let left = (size1 + 1) as usize;
    let right = (size1 + 2) as usize;
    let size = c.header.database_size as int;
    let row = Row { rowid: rowid as int, record };
    let cells = cells_on(page_of(c.pages(), root), usable).insert(place, cell);
    let key = split_key(cells, usable);
    lemma_halves_gain(
        c.pages(),
        pages1,
        e.pages(),
        set![root, left, right],
        root,
        cell,
        place,
        row,
        left,
        right,
        lo,
        hi,
        usable,
        size,
        size1,
    );
    lemma_two_below_root(e.pages(), root, 0, bare, left, key, right, lo, hi, usable);
    assert(table_rows(e, 1) == table_rows(c, 0).insert(place, row));
    assert(within(e.pages(), root, 1, usable, size1 + 2)) by {
        assert forall|j: usize| #[trigger] uses(e.pages(), root, 1, usable, j) implies j <= size1
            + 2 by {
            assert(j == root || uses(e.pages(), left, 0, usable, j) || uses(
                e.pages(),
                right,
                0,
                usable,
                j,
            ));
        }
    }
}

// ---------------------------------------------------------------------------
// Reading what was inserted
// ---------------------------------------------------------------------------

/// A row that a table gained is found by its row id, with the record that was
/// inserted, and what searching for another row id or looking it up gives is as
/// before.
pub proof fn inserted_row_is_found(
    c: CursorModel,
    height: nat,
    c2: CursorModel,
    height2: nat,
    lo: int,
    hi: int,
    row: Row,
    k: int,
)
    requires
        height <= BTCURSOR_MAX_DEPTH,
        height2 <= BTCURSOR_MAX_DEPTH,
        sound(c, height, lo, hi),
        gained(c, height, c2, height2, lo, hi, row),
    ensures
        c2.search(KeyModel::RowId(row.rowid), SeekOp::EQ).found == (Found::Entry {
            rowid: row.rowid,
            record: row.record,
        }),
        c2.lookup(row.rowid) == Lookup::Answer(true),
        k != row.rowid ==> c2.search(KeyModel::RowId(k), SeekOp::EQ).found == c.search(
            KeyModel::RowId(k),
            SeekOp::EQ,
        ).found,
        k != row.rowid ==> c2.lookup(k) == c.lookup(k),
{
    let r = table_rows(c, height);
    let r2 = table_rows(c2, height2);
    let q = choose|q: int| 0 <= q <= r.len() && r2 == #[trigger] r.insert(q, row);
    assert(r2[q] == row);
    assert(c2.lookup(row.rowid) == Lookup::Answer(true)) by {
        table_lookup(c2, height2, lo, hi, row.rowid);
    }
    let found2 = c2.search(KeyModel::RowId(row.rowid), SeekOp::EQ).found;
    assert(answers(r2, row.rowid, SeekOp::EQ, found2)) by {
        table_search(c2, height2, lo, hi, row.rowid, SeekOp::EQ);
    }
    if k != row.rowid {
        let a = c.search(KeyModel::RowId(k), SeekOp::EQ).found;
        let b = c2.search(KeyModel::RowId(k), SeekOp::EQ).found;
        assert(answers(r, k, SeekOp::EQ, a)) by {
            table_search(c, height, lo, hi, k, SeekOp::EQ);
        }
        assert(answers(r2, k, SeekOp::EQ, b)) by {
            table_search(c2, height2, lo, hi, k, SeekOp::EQ);
        }
        lemma_same_answer(r, row, q, k, a, b);
        assert(c2.lookup(k) == c.lookup(k)) by {
            table_lookup(c, height, lo, hi, k);
            table_lookup(c2, height2, lo, hi, k);
            lemma_same_rowids(r, row, q, k);
        }
    }
}

/// One row more is no row with another row id.
proof fn lemma_same_rowids(r: Seq<Row>, row: Row, q: int, k: int)
    requires
        0 <= q <= r.len(),
        k != row.rowid,
    ensures
        ({
            let r2 = r.insert(q, row);
            (exists|i: int| 0 <= i < r2.len() && (#[trigger] r2[i]).rowid == k) == (exists|i: int|
                0 <= i < r.len() && (#[trigger] r[i]).rowid == k)
        }),
{
    let r2 = r.insert(q, row);
    if exists|i: int| 0 <= i < r.len() && (#[trigger] r[i]).rowid == k {
        let i = choose|i: int| 0 <= i < r.len() && (#[trigger] r[i]).rowid == k;
        let j = if i < q {
            i
        } else {
            i + 1
        };
        assert(r2[j] == r[i]);
    }
    if exists|i: int| 0 <= i < r2.len() && (#[trigger] r2[i]).rowid == k {
        let j = choose|i: int| 0 <= i < r2.len() && (#[trigger] r2[i]).rowid == k;
        assert(j != q);
        let i = if j < q {
            j
        } else {
            j - 1
        };
        assert(r2[j] == r[i]);
    }
}

/// One row more changes no answer to a search for another row id.
proof fn lemma_same_answer(r: Seq<Row>, row: Row, q: int, k: int, a: Found, b: Found)
    requires
        0 <= q <= r.len(),
        k != row.rowid,
        answers(r, k, SeekOp::EQ, a),
        answers(r.insert(q, row), k, SeekOp::EQ, b),
    ensures
        b == a,
{
    let r2 = r.insert(q, row);
    if exists|i: int| 0 <= i < r.len() && (#[trigger] r[i]).rowid == k {
        let i = choose|i: int| 0 <= i < r.len() && (#[trigger] r[i]).rowid == k;
        let j = if i < q {
            i
        } else {
            i + 1
        };
        assert(r2[j] == r[i]);
    } else {
        assert forall|j: int| 0 <= j < r2.len() implies !is_wanted(
            #[trigger] r2[j],
            k,
            SeekOp::EQ,
        ) by {
            if j < q {
                assert(r2[j] == r[j]);
            } else if j > q {
                assert(r2[j] == r[j - 1]);
            }
        }
        assert forall|i: int| 0 <= i < r.len() implies !is_wanted(
            #[trigger] r[i],
            k,
            SeekOp::EQ,
        ) by {}
    }
}

/// A scan of a table that gained a row meets that row, and the others before
/// and behind it as before.
pub proof fn inserted_row_is_met(
    c: CursorModel,
    height: nat,
    c2: CursorModel,
    height2: nat,
    lo: int,
    hi: int,
    row: Row,
) -> (q: nat)
    requires
        height2 <= BTCURSOR_MAX_DEPTH,
        gained(c, height, c2, height2, lo, hi, row),
    ensures
        q <= table_rows(c, height).len(),
        holds_row(c2.scanned(q), row),
        forall|i: nat|
            i < q ==> holds_row(#[trigger] c2.scanned(i), table_rows(c, height)[i as int]),
        forall|i: nat|
            q < i <= table_rows(c, height).len() ==> holds_row(
                #[trigger] c2.scanned(i),
                table_rows(c, height)[i - 1],
            ),
        forall|i: nat|
            i > table_rows(c, height).len() ==> (#[trigger] c2.scanned(i)).record is None,
{
    let r = table_rows(c, height);
    let r2 = table_rows(c2, height2);
    let q = choose|q: int| 0 <= q <= r.len() && r2 == #[trigger] r.insert(q, row);
    lemma_table_readable(c2.pages(), c2.root_page, height2, lo, hi, c2.usable());
    assert forall|i: nat| i < r2.len() implies holds_row(
        #[trigger] c2.scanned(i),
        r2[i as int],
    ) by {
        scan_gives_all_rows(c2, height2, i);
    }
    assert forall|i: nat| i > r.len() implies (#[trigger] c2.scanned(i)).record is None by {
        scan_gives_all_rows(c2, height2, i);
    }
    q as nat
}

/// Whether the cursor holds a row.
pub open spec fn holds_row(c: CursorModel, row: Row) -> bool {
    c.rowid == Some(row.rowid as u64) && c.record == Some(row.record)
}

} // verus!
