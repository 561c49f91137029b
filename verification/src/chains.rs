//! Insertions that split a chain of pages.

use vstd::prelude::*;
use crate::balance::{
    all_cells, cells_on, fill_ok, lemma_divider_key, lemma_new_root_room, overflow_ok,
    with_overflow, Written,
};
use crate::cells::{lemma_cell_bytes_layout, starts_cell};
use crate::climbs::{
    begun, halves_go, lemma_begun_pages, lemma_goes_up, lemma_key_place, lemma_node_climbs,
    lemma_node_parts, lemma_page_moves, lemma_parent_there, lemma_pending_cells, lemma_up_rest,
    on_way, page_moves, page_splits, parent_goes, pending, went_up,
};
use crate::cursor::{header_ok, CursorModel, WriteState};
use crate::fans::{left_fan, right_fan};
use crate::fill::{emptied, grown_by};
use crate::growth::{
    at_leaf, bare_root, cells_with, gained, holds_halves, leaf_splits, lemma_at_leaf,
    lemma_bare_root, lemma_beside_leaf, lemma_gained, lemma_halves_gain, lemma_is_beside,
    lemma_kept_twice, lemma_new_root_pages, lemma_new_root_step, lemma_two_below_root, shared_out,
    table_rows, takes_row,
};
use crate::order::{KeyModel, SeekOp};
use crate::page::{usable_ok, OverflowModel, PageModel, PageType};
use crate::pager::{loaded, page_of, PageState};
use crate::pairs::{has_fan, paired, split_page_is_paired};
use crate::payloads::kept;
use crate::record::ValueModel;
use crate::rooms::takes;
use crate::settled::{
    all_sized, beside_kept, lemma_beside_twice, lemma_new_page_rest, lemma_root_rest,
    lemma_row_rest,
};
use crate::sharing::{sole, uses, within, Spot};
use crate::splits::{divided, divider_cell, leaf_shares, lemma_halves, split_key};
use crate::tables::{rows, table, Row};
use crate::ways::{
    became_two, fan_with, lemma_child_two_kept, lemma_two_reach_root, lemma_way, lemma_way_down,
    spot_at, turn, way_ok, Way,
};

verus! {

/// The way of a row into the cursor's table.
pub open spec fn way_of(
    c: CursorModel,
    height: nat,
    lo: int,
    hi: int,
    rowid: u64,
    record: Seq<ValueModel>,
) -> Way {
    Way {
        pages: c.pages(),
        root: c.root_page,
        height,
        lo,
        hi,
        usable: c.usable(),
        size: c.header.database_size as int,
        row: Row { rowid: rowid as int, record },
    }
}

/// The cursor once the row was put on its leaf or beside it.
pub open spec fn row_put(c: CursorModel, rowid: u64, record: Seq<ValueModel>) -> CursorModel {
    at_leaf(c, rowid).with_row(rowid, record)
}

/// The cells of a leaf with one beside it.
proof fn lemma_one_beside(p: PageModel, place: int, cell: Seq<u8>, usable: int)
    requires
        usable_ok(usable),
        p.page_type() == Some(PageType::TableLeaf),
        p.overflow_cells == seq![OverflowModel { index: place, payload: cell }],
        0 <= place <= p.cell_count(),
        starts_cell(cell, PageType::TableLeaf, usable),
        forall|i: int| 0 <= i < p.cell_count() ==> (#[trigger] p.head(i, usable)) is Some,
    ensures
        all_cells(p, usable) == cells_on(p, usable).insert(place, cell),
        overflow_ok(p.overflow_cells, p.cell_count()),
        forall|i: int|
            0 <= i < all_cells(p, usable).len() ==> starts_cell(
                #[trigger] all_cells(p, usable)[i],
                PageType::TableLeaf,
                usable,
            ),
{
    let cells = cells_on(p, usable).insert(place, cell);
    assert(all_cells(p, usable) == cells) by {
        reveal_with_fuel(with_overflow, 2);
        assert(p.overflow_cells.drop_last() =~= Seq::<OverflowModel>::empty());
    }
    assert forall|i: int| 0 <= i < cells.len() implies starts_cell(
        #[trigger] cells[i],
        PageType::TableLeaf,
        usable,
    ) by {
        if i != place {
            let j = if i < place {
                i
            } else {
                i - 1
            };
            assert(cells[i] == cells_on(p, usable)[j]);
            assert(p.head(j, usable) is Some);
            lemma_cell_bytes_layout(p, j, usable);
        }
    }
}

/// The leaf with a row beside it can be split.
proof fn lemma_leaf_may_split(
    c: CursorModel,
    height: nat,
    lo: int,
    hi: int,
    rowid: u64,
    record: Seq<ValueModel>,
)
    requires
        takes_row(c, height, lo, hi, rowid, record),
        leaf_splits(c, rowid, record),
    ensures
        ({
            let b = row_put(c, rowid, record);
            let p = b.top_page();
            let cells = all_cells(p, c.usable());
            let kind = PageType::TableLeaf;
            &&& cells == cells_with(c, rowid, record)
            &&& p.sized(c.header.page_size as int)
            &&& halves_go(b)
            &&& p.page_type() == Some(kind)
            &&& p.overflow_cells.len() > 0
            &&& overflow_ok(p.overflow_cells, p.cell_count())
            &&& forall|i: int|
                0 <= i < p.cell_count() ==> (#[trigger] p.head(i, c.usable())) is Some
            &&& forall|i: int|
                0 <= i < cells.len() ==> starts_cell(#[trigger] cells[i], kind, c.usable())
        }),
{
    let m = at_leaf(c, rowid);
    lemma_beside_leaf(c, height, lo, hi, rowid, record);
    lemma_one_beside(
        row_put(c, rowid, record).top_page(),
        m.place_for(rowid).unwrap(),
        m.cell_for(rowid, record),
        c.usable(),
    );
}

/// A row that was put beside its leaf is on its way.
pub proof fn lemma_leaf_starts(
    c: CursorModel,
    height: nat,
    lo: int,
    hi: int,
    rowid: u64,
    record: Seq<ValueModel>,
)
    requires
        takes_row(c, height, lo, hi, rowid, record),
        leaf_splits(c, rowid, record),
    ensures
        ({
            let w = way_of(c, height, lo, hi, rowid, record);
            let b = row_put(c, rowid, record);
            let k = split_key(cells_with(c, rowid, record), c.usable());
            &&& c.descent(KeyModel::RowId(rowid as int), SeekOp::EQ).end is Leaf
            &&& at_leaf(c, rowid).written(rowid, record) == b.written(rowid, record)
            &&& way_ok(w)
            &&& on_way(w, b, 0)
            &&& kept(
                w.pages,
                b.pages(),
                Set::new(|j: usize| j == spot_at(w, 0).id || j > w.size),
            )
            &&& b.top().page == spot_at(w, 0).id
            &&& b.header == grown_by(c.header, b.header.database_size - w.size)
            &&& spot_at(w, 0).lo < k <= spot_at(w, 0).hi
            &&& beside_kept(c.pages(), b.pages(), set![spot_at(w, 0).id])
        }),
{
    let w = way_of(c, height, lo, hi, rowid, record);
    let m = at_leaf(c, rowid);
    let b = row_put(c, rowid, record);
    lemma_beside_leaf(c, height, lo, hi, rowid, record);
    lemma_at_leaf(c, height, lo, hi, rowid);
    lemma_row_rest(m, rowid, record);
    assert forall|i: int| 0 <= i < b.stack.len() implies (#[trigger] b.stack[i]).page == spot_at(
        w,
        (height - i) as nat,
    ).id by {
        assert(b.stack[i] == m.stack[i]);
    }
}

/// The leaves after the leaf where a row belongs was split.
proof fn lemma_leaf_became_two(
    c: CursorModel,
    height: nat,
    lo: int,
    hi: int,
    rowid: u64,
    record: Seq<ValueModel>,
    x: Set<usize>,
    pages2: Map<usize, PageState>,
    left: usize,
    right: usize,
    size2: int,
)
    requires
        takes_row(c, height, lo, hi, rowid, record),
        leaf_splits(c, rowid, record),
        kept(row_put(c, rowid, record).pages(), pages2, x),
        holds_halves(pages2, cells_with(c, rowid, record), left, right, c.usable()),
        left != right,
        ({
            let w = way_of(c, height, lo, hi, rowid, record);
            let s = spot_at(w, 0);
            let size1 = row_put(c, rowid, record).header.database_size;
            &&& left == s.id || size1 < left <= size2
            &&& size1 < right <= size2
            &&& forall|j: usize| #[trigger]
                x.contains(j) ==> {
                    ||| j <= w.size && (j == s.id || !uses(w.pages, s.id, 0, w.usable, j))
                    ||| j > size1
                }
        }),
    ensures
        ({
            let w = way_of(c, height, lo, hi, rowid, record);
            let s = spot_at(w, 0);
            let cells = cells_with(c, rowid, record);
            let place = at_leaf(c, rowid).place_for(rowid).unwrap();
            paired(
                w.pages,
                pages2,
                s.id,
                0,
                s.lo,
                s.hi,
                left,
                split_key(cells, w.usable),
                right,
                w.row,
                place,
                w.usable,
                w.size,
                size2,
            )
        }),
{
    let w = way_of(c, height, lo, hi, rowid, record);
    let s = spot_at(w, 0);
    let m = at_leaf(c, rowid);
    let b = row_put(c, rowid, record);
    let place = m.place_for(rowid).unwrap();
    let cell = m.cell_for(rowid, record);
    let size1 = b.header.database_size as int;
    lemma_is_beside(c, height, lo, hi, rowid, record);
    assert(w.size <= size1) by {
        lemma_leaf_starts(c, height, lo, hi, rowid, record);
    }
    assert(shared_out(
        w.pages,
        b.pages(),
        pages2,
        x,
        s.id,
        cell,
        place,
        w.row,
        left,
        right,
        s.lo,
        s.hi,
        w.usable,
        w.size,
        size1,
    )) by {
        reveal(shared_out);
    }
    lemma_halves_gain(
        w.pages,
        b.pages(),
        pages2,
        x,
        s.id,
        cell,
        place,
        w.row,
        left,
        right,
        s.lo,
        s.hi,
        w.usable,
        w.size,
        size1,
    );
    assert(uses(w.pages, s.id, 0, w.usable, s.id));
}

/// A leaf that is split shares its cells with the new leaf behind it.
proof fn lemma_leaf_parts(b: CursorModel)
    requires
        page_splits(b, PageType::TableLeaf),
    ensures
        ({
            let d = begun(b);
            let f = d.moved_up();
            let usable = b.usable();
            let l = b.top().page;
            let r = (b.header.database_size + 1) as usize;
            let cells = all_cells(b.top_page(), usable);
            &&& fill_ok(
                emptied(page_of(d.pages(), d.new_pages[0]), usable),
                d.scratch_cells.take(d.left_share()),
                usable,
            )
            &&& fill_ok(
                emptied(page_of(d.pages(), d.new_pages[1]), usable),
                d.scratch_cells.skip(d.half()),
                usable,
            )
            &&& d.left_page().cell_count() > 1
            &&& d.left_after().overflow_cells == b.top_page().overflow_cells
            &&& d.right_after().overflow_cells.len() == 0
            &&& d.divider_key() == split_key(cells, usable)
            &&& kept(b.pages(), f.pages(), set![l, b.parent_id(), r])
            &&& holds_halves(f.pages(), cells, l, r, usable)
        }),
{
    let d = begun(b);
    let f = d.moved_up();
    let usable = b.usable();
    let l = b.top().page;
    let r = (b.header.database_size + 1) as usize;
    lemma_begun_pages(b, PageType::TableLeaf);
    lemma_new_page_rest(PageType::TableLeaf, b.header);
    assert(leaf_shares(d));
    lemma_halves(d);
    assert(d.left_page().cell_count() == cells_on(d.left_page(), usable).len());
    assert(starts_cell(d.scratch_cells[d.half() - 1], PageType::TableLeaf, usable));
    assert(loaded(f.pages(), l) && page_of(f.pages(), l) == d.left_after());
    assert(loaded(f.pages(), r) && page_of(f.pages(), r) == d.right_after());
    let x = set![l, b.parent_id(), r];
    assert forall|j: usize| #[trigger] loaded(b.pages(), j) && !x.contains(j) implies loaded(
        f.pages(),
        j,
    ) && page_of(f.pages(), j) == page_of(b.pages(), j) by {
        assert(!set![r].contains(j));
        assert(loaded(d.pages(), j));
    }
}

/// The leaf where a row belongs is split below its parent.
proof fn lemma_leaf_below(
    c: CursorModel,
    height: nat,
    lo: int,
    hi: int,
    rowid: u64,
    record: Seq<ValueModel>,
)
    requires
        height > 0,
        takes_row(c, height, lo, hi, rowid, record),
        leaf_splits(c, rowid, record),
        parent_goes(way_of(c, height, lo, hi, rowid, record), row_put(c, rowid, record), 0),
    ensures
        ({
            let w = way_of(c, height, lo, hi, rowid, record);
            let b = row_put(c, rowid, record);
            let u = spot_at(w, 1).id;
            &&& page_splits(b, PageType::TableLeaf)
            &&& b.top().page == spot_at(w, 0).id
            &&& b.parent_id() == u
            &&& u <= w.size
            &&& u != spot_at(w, 0).id
            &&& !uses(w.pages, spot_at(w, 0).id, 0, w.usable, u)
        }),
{
    let w = way_of(c, height, lo, hi, rowid, record);
    let b = row_put(c, rowid, record);
    let s = spot_at(w, 0);
    let x = Set::new(|j: usize| j == s.id || j > w.size);
    lemma_leaf_starts(c, height, lo, hi, rowid, record);
    lemma_leaf_may_split(c, height, lo, hi, rowid, record);
    assert(uses(w.pages, s.id, 0, w.usable, s.id));
    lemma_parent_there(w, b, 0, x);
    lemma_way_down(w, 0);
}

/// The pages after the cells of the leaf where a row belongs were shared.
proof fn lemma_leaf_shared(
    c: CursorModel,
    height: nat,
    lo: int,
    hi: int,
    rowid: u64,
    record: Seq<ValueModel>,
)
    requires
        height > 0,
        takes_row(c, height, lo, hi, rowid, record),
        leaf_splits(c, rowid, record),
        parent_goes(way_of(c, height, lo, hi, rowid, record), row_put(c, rowid, record), 0),
    ensures
        ({
            let w = way_of(c, height, lo, hi, rowid, record);
            let b = row_put(c, rowid, record);
            let cells = cells_with(c, rowid, record);
            let pages2 = begun(b).moved_up().pages();
            let s = spot_at(w, 0);
            let u = spot_at(w, 1).id;
            let rid = (b.header.database_size + 1) as usize;
            &&& kept(b.pages(), pages2, set![s.id, u, rid])
            &&& holds_halves(pages2, cells, s.id, rid, w.usable)
            &&& begun(b).divider_key() == split_key(cells, w.usable)
            &&& s.lo < split_key(cells, w.usable) <= s.hi
            &&& s.id <= w.size <= b.header.database_size < u32::MAX
            &&& u <= w.size
            &&& u != s.id
            &&& !uses(w.pages, s.id, 0, w.usable, u)
        }),
{
    let b = row_put(c, rowid, record);
    lemma_leaf_below(c, height, lo, hi, rowid, record);
    lemma_leaf_starts(c, height, lo, hi, rowid, record);
    lemma_leaf_may_split(c, height, lo, hi, rowid, record);
    lemma_leaf_parts(b);
    lemma_way(way_of(c, height, lo, hi, rowid, record), 0);
}

/// The leaf where a row belongs becomes two.
proof fn lemma_leaf_two(
    c: CursorModel,
    height: nat,
    lo: int,
    hi: int,
    rowid: u64,
    record: Seq<ValueModel>,
) -> (q: int)
    requires
        height > 0,
        takes_row(c, height, lo, hi, rowid, record),
        leaf_splits(c, rowid, record),
        parent_goes(way_of(c, height, lo, hi, rowid, record), row_put(c, rowid, record), 0),
    ensures
        ({
            let w = way_of(c, height, lo, hi, rowid, record);
            let b = row_put(c, rowid, record);
            let key = begun(b).divider_key();
            &&& became_two(
                w,
                begun(b).moved_up().pages(),
                0,
                key,
                (b.header.database_size + 1) as usize,
                q,
                b.header.database_size + 1,
            )
            &&& spot_at(w, 0).lo < key <= spot_at(w, 0).hi
        }),
{
    let w = way_of(c, height, lo, hi, rowid, record);
    let b = row_put(c, rowid, record);
    let s = spot_at(w, 0);
    let u = spot_at(w, 1).id;
    let rid = (b.header.database_size + 1) as usize;
    lemma_leaf_shared(c, height, lo, hi, rowid, record);
    lemma_leaf_became_two(
        c,
        height,
        lo,
        hi,
        rowid,
        record,
        set![s.id, u, rid],
        begun(b).moved_up().pages(),
        s.id,
        rid,
        b.header.database_size + 1,
    );
    at_leaf(c, rowid).place_for(rowid).unwrap()
}

/// The cells of the leaf where a row belongs can be shared.
proof fn lemma_leaf_moves(
    c: CursorModel,
    height: nat,
    lo: int,
    hi: int,
    rowid: u64,
    record: Seq<ValueModel>,
)
    requires
        height > 0,
        takes_row(c, height, lo, hi, rowid, record),
        leaf_splits(c, rowid, record),
        parent_goes(way_of(c, height, lo, hi, rowid, record), row_put(c, rowid, record), 0),
        begun(row_put(c, rowid, record)).divider_key() > spot_at(
            way_of(c, height, lo, hi, rowid, record),
            0,
        ).lo,
        begun(row_put(c, rowid, record)).divider_key() <= spot_at(
            way_of(c, height, lo, hi, rowid, record),
            0,
        ).hi,
    ensures
        page_moves(
            row_put(c, rowid, record),
            PageType::TableLeaf,
            turn(way_of(c, height, lo, hi, rowid, record), 1),
        ),
{
    let w = way_of(c, height, lo, hi, rowid, record);
    let b = row_put(c, rowid, record);
    let s = spot_at(w, 0);
    let x = Set::new(|j: usize| j == s.id || j > w.size);
    lemma_leaf_below(c, height, lo, hi, rowid, record);
    lemma_leaf_starts(c, height, lo, hi, rowid, record);
    lemma_leaf_parts(b);
    assert(uses(w.pages, s.id, 0, w.usable, s.id));
    lemma_parent_there(w, b, 0, x);
    lemma_key_place(w, 0, begun(b).divider_key());
}

/// The leaf where a row belongs becomes two, and the cursor goes up.
proof fn lemma_leaf_climbs(
    c: CursorModel,
    height: nat,
    lo: int,
    hi: int,
    rowid: u64,
    record: Seq<ValueModel>,
) -> (q: int)
    requires
        height > 0,
        takes_row(c, height, lo, hi, rowid, record),
        leaf_splits(c, rowid, record),
        parent_goes(way_of(c, height, lo, hi, rowid, record), row_put(c, rowid, record), 0),
    ensures
        ({
            let w = way_of(c, height, lo, hi, rowid, record);
            let b = row_put(c, rowid, record);
            &&& went_up(w, b, begun(b).moved_up(), 0, q)
            &&& b.written(rowid, record) == begun(b).moved_up().written(rowid, record)
        }),
{
    let kind = PageType::TableLeaf;
    let w = way_of(c, height, lo, hi, rowid, record);
    let b = row_put(c, rowid, record);
    let s = spot_at(w, 0);
    let x = Set::new(|j: usize| j == s.id || j > w.size);
    let q = lemma_leaf_two(c, height, lo, hi, rowid, record);
    lemma_leaf_moves(c, height, lo, hi, rowid, record);
    lemma_leaf_starts(c, height, lo, hi, rowid, record);
    lemma_leaf_parts(b);
    assert(uses(w.pages, s.id, 0, w.usable, s.id));
    lemma_goes_up(w, b, 0, kind, x, q);
    lemma_page_moves(b, kind, turn(w, 1), rowid, record);
    q
}

/// An insertion ends at a page without a cell beside it.
proof fn lemma_climb_ends(f: CursorModel, rowid: u64, record: Seq<ValueModel>)
    requires
        header_ok(f.header),
        f.state == WriteState::BalanceStart,
        f.stack.len() > 0,
        loaded(f.pages(), f.top().page),
        f.top_page().overflow_cells.len() == 0,
    ensures
        f.written(rowid, record) == (Written {
            cursor: f.in_state(WriteState::Start),
            waits: false,
            ok: true,
        }),
{
    let g = f.in_state(WriteState::Finish);
    assert(f.balanced() == g);
    assert(f.balance_ok());
    assert(f.written(rowid, record) == g.written(rowid, record));
}

/// Where the page above takes the divider, the table has the row, and the
/// insertion ends.
proof fn lemma_chain_ends(
    c: CursorModel,
    height: nat,
    lo: int,
    hi: int,
    b: CursorModel,
    t: nat,
    q: int,
    rowid: u64,
    record: Seq<ValueModel>,
)
    requires
        takes_row(c, height, lo, hi, rowid, record),
        t < height,
        ({
            let w = way_of(c, height, lo, hi, rowid, record);
            let page = page_of(w.pages, spot_at(w, t + 1).id);
            let cell = divider_cell(spot_at(w, t).id as int, begun(b).divider_key());
            &&& b.header == grown_by(c.header, b.header.database_size - w.size)
            &&& w.size <= b.header.database_size < u32::MAX
            &&& b.root_page == w.root
            &&& way_ok(w)
            &&& went_up(w, b, begun(b).moved_up(), t, q)
            &&& takes(page, cell, w.usable)
        }),
    ensures
        ({
            let f = begun(b).moved_up();
            let row = Row { rowid: rowid as int, record };
            &&& f.written(rowid, record).ok
            &&& !f.written(rowid, record).waits
            &&& f.written(rowid, record).cursor.pages() == f.pages()
            &&& gained(c, height, f.written(rowid, record).cursor, height, lo, hi, row)
        }),
{
    let w = way_of(c, height, lo, hi, rowid, record);
    let f = begun(b).moved_up();
    let e = f.in_state(WriteState::Start);
    let size2 = b.header.database_size + 1;
    lemma_climb_ends(f, rowid, record);
    let p = lemma_two_reach_root(
        w,
        f.pages(),
        t + 1,
        begun(b).divider_key(),
        size2 as usize,
        q,
        size2,
    );
    lemma_gained(c, height, e, lo, hi, w.row, p);
}

/// A root that has a divider beside it is split below a new root.
proof fn lemma_root_below(w: Way, b: CursorModel, key: int, right: usize, r: int)
    requires
        way_ok(w),
        pending(w, b, w.height, key, right, r),
        halves_go(b),
        b.header.database_size + 1 < u32::MAX,
    ensures
        b.stack.len() == 1,
        b.in_file(),
        b.top().page == w.root,
        w.root <= w.size,
        b.top_page().overflow_cells.len() > 0,
        page_splits(b.with_new_root(), PageType::TableInterior),
{
    lemma_pending_cells(w, b, w.height, key, right, r);
    assert(spot_at(w, w.height).id == w.root);
    assert(b.stack[0].page == w.root);
    lemma_new_root_pages(b);
}

/// The pages after a root was split below a new root.
proof fn lemma_root_parts(w: Way, b: CursorModel, key: int, right: usize, r: int)
    requires
        way_ok(w),
        pending(w, b, w.height, key, right, r),
        halves_go(b),
        b.header.database_size + 1 < u32::MAX,
    ensures
        ({
            let d = begun(b.with_new_root());
            let pages2 = d.moved_up().pages();
            let left = (b.header.database_size + 1) as usize;
            let rid = (b.header.database_size + 2) as usize;
            let fan = fan_with(w, w.height, key, right);
            &&& kept(b.pages(), pages2, set![w.root, left, rid])
            &&& 1 <= d.half() <= fan.keys.len()
            &&& d.divider_key() == fan.keys[d.half() - 1]
            &&& has_fan(pages2, left, left_fan(fan, d.half()), w.usable)
            &&& has_fan(pages2, rid, right_fan(fan, d.half()), w.usable)
        }),
{
    let n = b.with_new_root();
    let left = (b.header.database_size + 1) as usize;
    let rid = (b.header.database_size + 2) as usize;
    lemma_root_below(w, b, key, right, r);
    lemma_pending_cells(w, b, w.height, key, right, r);
    lemma_new_root_pages(b);
    lemma_node_parts(n);
    lemma_kept_twice(
        b.pages(),
        n.pages(),
        begun(n).moved_up().pages(),
        set![w.root, left],
        set![left, w.root, rid],
        set![w.root, left, rid],
    );
}

/// A root that was split below a new root became two.
proof fn lemma_root_two(w: Way, b: CursorModel, key: int, right: usize, r: int) -> (q: int)
    requires
        way_ok(w),
        pending(w, b, w.height, key, right, r),
        halves_go(b),
        b.header.database_size + 1 < u32::MAX,
    ensures
        ({
            let d = begun(b.with_new_root());
            let pages2 = d.moved_up().pages();
            let left = (b.header.database_size + 1) as usize;
            let rid = (b.header.database_size + 2) as usize;
            &&& paired(
                w.pages,
                pages2,
                w.root,
                w.height,
                w.lo,
                w.hi,
                left,
                d.divider_key(),
                rid,
                w.row,
                q,
                w.usable,
                w.size,
                b.header.database_size + 2,
            )
            &&& !uses(pages2, left, w.height, w.usable, w.root)
            &&& !uses(pages2, rid, w.height, w.usable, w.root)
        }),
{
    let d = begun(b.with_new_root());
    let pages2 = d.moved_up().pages();
    let left = (b.header.database_size + 1) as usize;
    let rid = (b.header.database_size + 2) as usize;
    lemma_root_parts(w, b, key, right, r);
    lemma_root_below(w, b, key, right, r);
    let s = spot_at(w, w.height);
    assert(s == Spot { id: w.root, lo: w.lo, hi: w.hi });
    lemma_child_two_kept(
        w,
        b.pages(),
        pages2,
        set![w.root, left, rid],
        w.height,
        key,
        right,
        r,
        b.header.database_size as int,
    );
    split_page_is_paired(
        w.pages,
        pages2,
        w.root,
        w.height,
        w.lo,
        w.hi,
        turn(w, w.height),
        key,
        right,
        w.row,
        r,
        w.usable,
        w.size,
        b.header.database_size as int,
        d.half(),
        left,
        rid,
        b.header.database_size + 2,
    )
}

/// The cells of a root can be shared below a new root.
proof fn lemma_root_moves(w: Way, b: CursorModel, key: int, right: usize, r: int)
    requires
        way_ok(w),
        pending(w, b, w.height, key, right, r),
        halves_go(b),
        b.header.database_size + 1 < u32::MAX,
    ensures
        ({
            let n = b.with_new_root();
            let left = (b.header.database_size + 1) as usize;
            &&& page_moves(n, PageType::TableInterior, 0)
            &&& takes(
                n.parent_page(),
                divider_cell(left as int, begun(n).divider_key()),
                w.usable,
            )
            &&& begun(n).left_after().overflow_cells == n.top_page().overflow_cells
            &&& begun(n).right_after().overflow_cells.len() == 0
        }),
{
    let n = b.with_new_root();
    let left = (b.header.database_size + 1) as usize;
    lemma_root_below(w, b, key, right, r);
    lemma_new_root_pages(b);
    lemma_node_parts(n);
    lemma_begun_pages(n, PageType::TableInterior);
    let d = begun(n);
    assert(starts_cell(d.scratch_cells[d.half() - 1], PageType::TableInterior, w.usable));
    lemma_divider_key(d);
    lemma_bare_root(b.header, left, d.divider_key());
    lemma_new_root_room(b.header, left as int);
}

/// What splitting a root below a new root does to that.
#[verifier::spinoff_prover]
#[verifier::rlimit(60)]
proof fn lemma_root_up(w: Way, b: CursorModel, key: int, right: usize, r: int)
    requires
        way_ok(w),
        pending(w, b, w.height, key, right, r),
        halves_go(b),
        b.header.database_size + 1 < u32::MAX,
    ensures
        ({
            let n = b.with_new_root();
            let f = begun(n).moved_up();
            let left = b.header.database_size + 1;
            let rid = b.header.database_size + 2;
            &&& f.header == grown_by(b.header, 2)
            &&& f.root_page == w.root
            &&& f.state == WriteState::BalanceStart
            &&& f.stack.len() > 0
            &&& f.top().page == w.root
            &&& loaded(f.pages(), w.root)
            &&& all_sized(f.pages(), b.header.page_size as int)
            &&& beside_kept(n.pages(), f.pages(), Set::empty())
            &&& f.top_page().overflow_cells.len() == 0
            &&& n.parent_page() == bare_root(b.header, left)
            &&& divided(
                n.parent_page(),
                page_of(f.pages(), w.root),
                0,
                left,
                begun(n).divider_key(),
                rid,
                w.usable,
            )
        }),
{
    lemma_root_below(w, b, key, right, r);
    lemma_root_moves(w, b, key, right, r);
    lemma_new_root_up(b);
}

/// What sharing the cells of a page below a new root does.
#[verifier::spinoff_prover]
#[verifier::rlimit(60)]
proof fn lemma_new_root_up(b: CursorModel)
    requires
        header_ok(b.header),
        b.stack.len() == 1,
        b.in_file(),
        loaded(b.pages(), b.top().page),
        all_sized(b.pages(), b.header.page_size as int),
        b.header.database_size + 1 < u32::MAX,
        ({
            let n = b.with_new_root();
            let left = (b.header.database_size + 1) as usize;
            &&& page_moves(n, PageType::TableInterior, 0)
            &&& takes(
                n.parent_page(),
                divider_cell(left as int, begun(n).divider_key()),
                b.usable(),
            )
            &&& begun(n).left_after().overflow_cells == n.top_page().overflow_cells
            &&& begun(n).right_after().overflow_cells.len() == 0
        }),
    ensures
        ({
            let n = b.with_new_root();
            let f = begun(n).moved_up();
            let root = b.top().page;
            let left = b.header.database_size + 1;
            let rid = b.header.database_size + 2;
            &&& f.header == grown_by(b.header, 2)
            &&& f.root_page == root
            &&& f.state == WriteState::BalanceStart
            &&& f.stack.len() > 0
            &&& f.top().page == root
            &&& loaded(f.pages(), root)
            &&& all_sized(f.pages(), b.header.page_size as int)
            &&& beside_kept(n.pages(), f.pages(), Set::empty())
            &&& f.top_page().overflow_cells.len() == 0
            &&& n.parent_page() == bare_root(b.header, left)
            &&& divided(
                n.parent_page(),
                page_of(f.pages(), root),
                0,
                left,
                begun(n).divider_key(),
                rid,
                b.usable(),
            )
        }),
{
    let n = b.with_new_root();
    lemma_new_root_pages(b);
    lemma_root_rest(b);
    lemma_up_rest(n, PageType::TableInterior, 0);
    assert(n.stack.drop_last().len() == 1);
}

/// The cursor when a root was split below a new root.
#[verifier::spinoff_prover]
#[verifier::rlimit(40)]
proof fn lemma_root_after(w: Way, b: CursorModel, key: int, right: usize, r: int)
    requires
        way_ok(w),
        pending(w, b, w.height, key, right, r),
        halves_go(b),
        b.header.database_size + 1 < u32::MAX,
    ensures
        ({
            let n = b.with_new_root();
            let f = begun(n).moved_up();
            let left = b.header.database_size + 1;
            let rid = b.header.database_size + 2;
            &&& f.header == grown_by(b.header, 2)
            &&& f.root_page == w.root
            &&& f.state == WriteState::BalanceStart
            &&& f.stack.len() > 0
            &&& f.top().page == w.root
            &&& loaded(f.pages(), w.root)
            &&& all_sized(f.pages(), b.header.page_size as int)
            &&& beside_kept(b.pages(), f.pages(), set![left as usize])
            &&& f.top_page().overflow_cells.len() == 0
            &&& n.parent_page() == bare_root(b.header, left)
            &&& divided(
                n.parent_page(),
                page_of(f.pages(), w.root),
                0,
                left,
                begun(n).divider_key(),
                rid,
                w.usable,
            )
        }),
{
    let n = b.with_new_root();
    let x = set![(b.header.database_size + 1) as usize];
    lemma_root_up(w, b, key, right, r);
    assert(beside_kept(b.pages(), n.pages(), x)) by {
        lemma_root_below(w, b, key, right, r);
        lemma_root_rest(b);
    }
    lemma_beside_twice(
        b.pages(),
        n.pages(),
        begun(n).moved_up().pages(),
        x,
        Set::empty(),
        x,
    );
}

/// The insertion ends when a root was split below a new root.
proof fn lemma_root_written(
    w: Way,
    b: CursorModel,
    key: int,
    right: usize,
    r: int,
    rowid: u64,
    record: Seq<ValueModel>,
)
    requires
        way_ok(w),
        pending(w, b, w.height, key, right, r),
        halves_go(b),
        b.header.database_size + 1 < u32::MAX,
    ensures
        b.written(rowid, record) == (Written {
            cursor: begun(b.with_new_root()).moved_up().in_state(WriteState::Start),
            waits: false,
            ok: true,
        }),
{
    let n = b.with_new_root();
    lemma_root_below(w, b, key, right, r);
    assert(b.written(rowid, record) == n.written(rowid, record)) by {
        lemma_new_root_step(b, rowid, record);
    }
    assert(n.written(rowid, record) == begun(n).moved_up().written(rowid, record)) by {
        lemma_root_moves(w, b, key, right, r);
        lemma_page_moves(n, PageType::TableInterior, 0, rowid, record);
    }
    lemma_root_after(w, b, key, right, r);
    lemma_climb_ends(begun(n).moved_up(), rowid, record);
}

/// The table below a new root, with the row.
proof fn lemma_root_table(
    w: Way,
    pages2: Map<usize, PageState>,
    bare: PageModel,
    left: usize,
    key: int,
    right: usize,
    q: int,
    size2: int,
)
    requires
        way_ok(w),
        w.size <= size2,
        paired(
            w.pages,
            pages2,
            w.root,
            w.height,
            w.lo,
            w.hi,
            left,
            key,
            right,
            w.row,
            q,
            w.usable,
            w.size,
            size2,
        ),
        !uses(pages2, left, w.height, w.usable, w.root),
        !uses(pages2, right, w.height, w.usable, w.root),
        loaded(pages2, w.root),
        bare.cell_count() == 0,
        bare.page_type() == Some(PageType::TableInterior),
        divided(bare, page_of(pages2, w.root), 0, left as int, key, right as int, w.usable),
    ensures
        table(pages2, w.root, w.height + 1, w.lo, w.hi, w.usable),
        sole(pages2, w.root, w.height + 1, w.usable),
        within(pages2, w.root, w.height + 1, w.usable, size2),
        0 <= q <= rows(w.pages, w.root, w.height, w.usable).len(),
        rows(pages2, w.root, w.height + 1, w.usable) == rows(
            w.pages,
            w.root,
            w.height,
            w.usable,
        ).insert(q, w.row),
{
    lemma_two_below_root(
        pages2,
        w.root,
        w.height,
        bare,
        left,
        key,
        right,
        w.lo,
        w.hi,
        w.usable,
    );
    assert(uses(w.pages, w.root, w.height, w.usable, w.root));
    assert forall|j: usize| #[trigger] uses(
        pages2,
        w.root,
        w.height + 1,
        w.usable,
        j,
    ) implies j <= size2 by {
        if uses(w.pages, w.root, w.height, w.usable, j) {
            assert(j <= w.size);
        }
        if j != w.root {
            assert(uses(pages2, left, w.height, w.usable, j) || uses(
                pages2,
                right,
                w.height,
                w.usable,
                j,
            ));
        }
    }
}

/// A root that is split gives the tree a new root, and the table has the row.
proof fn lemma_root_ends(
    c: CursorModel,
    height: nat,
    lo: int,
    hi: int,
    b: CursorModel,
    key: int,
    right: usize,
    r: int,
    rowid: u64,
    record: Seq<ValueModel>,
)
    requires
        takes_row(c, height, lo, hi, rowid, record),
        halves_go(b),
        b.header.database_size + 1 < u32::MAX,
        b.header == grown_by(c.header, b.header.database_size - c.header.database_size),
        way_ok(way_of(c, height, lo, hi, rowid, record)),
        pending(way_of(c, height, lo, hi, rowid, record), b, height, key, right, r),
    ensures
        b.written(rowid, record).ok,
        !b.written(rowid, record).waits,
        gained(
            c,
            height,
            b.written(rowid, record).cursor,
            height + 1,
            lo,
            hi,
            Row { rowid: rowid as int, record },
        ),
        ({
            let pages2 = b.written(rowid, record).cursor.pages();
            &&& beside_kept(b.pages(), pages2, set![(b.header.database_size + 1) as usize])
            &&& page_of(pages2, c.root_page).overflow_cells.len() == 0
        }),
{
    let w = way_of(c, height, lo, hi, rowid, record);
    let n = b.with_new_root();
    let f = begun(n).moved_up();
    let left = (b.header.database_size + 1) as usize;
    let rid = (b.header.database_size + 2) as usize;
    let q = lemma_root_two(w, b, key, right, r);
    lemma_root_after(w, b, key, right, r);
    lemma_root_written(w, b, key, right, r, rowid, record);
    lemma_new_root_room(b.header, left as int);
    lemma_root_table(
        w,
        f.pages(),
        n.parent_page(),
        left,
        begun(n).divider_key(),
        rid,
        q,
        b.header.database_size + 2,
    );
    let e = b.written(rowid, record).cursor;
    assert(table_rows(e, height + 1) == table_rows(c, height).insert(q, w.row));
}

// ---------------------------------------------------------------------------
// A chain of splits
// ---------------------------------------------------------------------------

/// Whether the page above level `t` has room for the divider of the cursor's page.
pub open spec fn taken_above(w: Way, b: CursorModel, t: nat) -> bool {
    let page = page_of(w.pages, spot_at(w, t + 1).id);
    takes(page, divider_cell(spot_at(w, t).id as int, begun(b).divider_key()), w.usable)
}

/// Whether the cursor's page at level `t` on the way, with a cell beside it, can
/// be split, and then each page above it to which a divider goes without room for
/// it: each half of a page's cells has room, the row id that goes up is above
/// the bound below the page's rows, and the file has room for the new pages.
pub open spec fn chain_splits(w: Way, b: CursorModel, t: nat) -> bool
    decreases w.height - t,
{
    &&& halves_go(b)
    &&& if t >= w.height {
        b.header.database_size + 1 < u32::MAX
    } else {
        &&& parent_goes(w, b, t)
        &&& spot_at(w, t).lo < begun(b).divider_key()
        &&& taken_above(w, b, t) || chain_splits(w, begun(b).moved_up(), t + 1)
    }
}

/// How many levels of interior pages the tree has after that.
pub open spec fn height_after(w: Way, b: CursorModel, t: nat) -> nat
    decreases w.height - t,
{
    if t >= w.height {
        w.height + 1
    } else if taken_above(w, b, t) {
        w.height
    } else {
        height_after(w, begun(b).moved_up(), t + 1)
    }
}

/// The pages that are split: of each the left one, which has still the cell beside
/// it for which it had no room.
pub open spec fn left_pages(w: Way, b: CursorModel, t: nat) -> Set<usize>
    decreases w.height - t,
{
    if t >= w.height {
        set![(b.header.database_size + 1) as usize]
    } else if taken_above(w, b, t) {
        set![spot_at(w, t).id]
    } else {
        left_pages(w, begun(b).moved_up(), t + 1).insert(spot_at(w, t).id)
    }
}

/// At the root, with a divider beside it, the insertion ends with a new root.
#[verifier::spinoff_prover]
#[verifier::rlimit(80)]
proof fn lemma_chain_root(
    c: CursorModel,
    height: nat,
    lo: int,
    hi: int,
    b: CursorModel,
    t: nat,
    key: int,
    right: usize,
    r: int,
    rowid: u64,
    record: Seq<ValueModel>,
    x: Set<usize>,
)
    requires
        t == height,
        takes_row(c, height, lo, hi, rowid, record),
        b.header == grown_by(c.header, b.header.database_size - c.header.database_size),
        way_ok(way_of(c, height, lo, hi, rowid, record)),
        pending(way_of(c, height, lo, hi, rowid, record), b, t, key, right, r),
        chain_splits(way_of(c, height, lo, hi, rowid, record), b, t),
        beside_kept(
            c.pages(),
            b.pages(),
            x.insert(spot_at(way_of(c, height, lo, hi, rowid, record), t).id),
        ),
    ensures
        b.written(rowid, record).ok,
        !b.written(rowid, record).waits,
        gained(
            c,
            height,
            b.written(rowid, record).cursor,
            height_after(way_of(c, height, lo, hi, rowid, record), b, t),
            lo,
            hi,
            Row { rowid: rowid as int, record },
        ),
        beside_kept(
            c.pages(),
            b.written(rowid, record).cursor.pages(),
            x.union(left_pages(way_of(c, height, lo, hi, rowid, record), b, t)),
        ),
{
    let w = way_of(c, height, lo, hi, rowid, record);
    let z = x.union(left_pages(w, b, t));
    lemma_root_ends(c, height, lo, hi, b, key, right, r, rowid, record);
    lemma_beside_twice(
        c.pages(),
        b.pages(),
        b.written(rowid, record).cursor.pages(),
        x.insert(spot_at(w, t).id),
        set![(b.header.database_size + 1) as usize],
        z,
    );
}

/// At an interior page below one with room for the divider, the insertion ends
/// there.
#[verifier::spinoff_prover]
#[verifier::rlimit(80)]
proof fn lemma_chain_taken(
    c: CursorModel,
    height: nat,
    lo: int,
    hi: int,
    b: CursorModel,
    t: nat,
    key: int,
    right: usize,
    r: int,
    rowid: u64,
    record: Seq<ValueModel>,
    x: Set<usize>,
)
    requires
        t < height,
        taken_above(way_of(c, height, lo, hi, rowid, record), b, t),
        takes_row(c, height, lo, hi, rowid, record),
        b.header == grown_by(c.header, b.header.database_size - c.header.database_size),
        way_ok(way_of(c, height, lo, hi, rowid, record)),
        pending(way_of(c, height, lo, hi, rowid, record), b, t, key, right, r),
        chain_splits(way_of(c, height, lo, hi, rowid, record), b, t),
        beside_kept(
            c.pages(),
            b.pages(),
            x.insert(spot_at(way_of(c, height, lo, hi, rowid, record), t).id),
        ),
    ensures
        b.written(rowid, record).ok,
        !b.written(rowid, record).waits,
        gained(
            c,
            height,
            b.written(rowid, record).cursor,
            height_after(way_of(c, height, lo, hi, rowid, record), b, t),
            lo,
            hi,
            Row { rowid: rowid as int, record },
        ),
        beside_kept(
            c.pages(),
            b.written(rowid, record).cursor.pages(),
            x.union(left_pages(way_of(c, height, lo, hi, rowid, record), b, t)),
        ),
{
    let w = way_of(c, height, lo, hi, rowid, record);
    let z = x.union(left_pages(w, b, t));
    let q = lemma_node_climbs(w, b, t, key, right, r, rowid, record);
    lemma_chain_ends(c, height, lo, hi, b, t, q, rowid, record);
    lemma_beside_twice(
        c.pages(),
        b.pages(),
        b.written(rowid, record).cursor.pages(),
        x.insert(spot_at(w, t).id),
        Set::empty(),
        z,
    );
}

/// At an interior page below one without room for the divider, the insertion goes
/// on there.
#[verifier::spinoff_prover]
#[verifier::rlimit(80)]
proof fn lemma_chain_up(
    w: Way,
    pages: Map<usize, PageState>,
    b: CursorModel,
    t: nat,
    key: int,
    right: usize,
    r: int,
    rowid: u64,
    record: Seq<ValueModel>,
    y: Set<usize>,
) -> (q: int)
    requires
        way_ok(w),
        t < w.height,
        pending(w, b, t, key, right, r),
        halves_go(b),
        parent_goes(w, b, t),
        spot_at(w, t).lo < begun(b).divider_key(),
        !taken_above(w, b, t),
        beside_kept(pages, b.pages(), y),
    ensures
        ({
            let f = begun(b).moved_up();
            let rid = (b.header.database_size + 1) as usize;
            &&& b.written(rowid, record) == f.written(rowid, record)
            &&& f.header == grown_by(b.header, 1)
            &&& pending(w, f, t + 1, begun(b).divider_key(), rid, q)
            &&& beside_kept(pages, f.pages(), y.insert(spot_at(w, t + 1).id))
        }),
{
    let f = begun(b).moved_up();
    let u = spot_at(w, t + 1).id;
    let q = lemma_node_climbs(w, b, t, key, right, r, rowid, record);
    lemma_went_beside(w, b, f, t, q);
    lemma_beside_twice(pages, b.pages(), f.pages(), y, set![u], y.insert(u));
    q
}

/// Where the page above has no room for the divider, the divider is beside it.
proof fn lemma_went_beside(w: Way, b: CursorModel, f: CursorModel, t: nat, q: int)
    requires
        went_up(w, b, f, t, q),
        !taken_above(w, b, t),
    ensures
        ({
            let rid = (b.header.database_size + 1) as usize;
            &&& f.header == grown_by(b.header, 1)
            &&& pending(w, f, t + 1, begun(b).divider_key(), rid, q)
            &&& beside_kept(b.pages(), f.pages(), set![spot_at(w, t + 1).id])
        }),
{
}

/// From an interior page with a divider beside it, the insertion goes up and
/// gives the table the row.
#[verifier::spinoff_prover]
#[verifier::rlimit(80)]
proof fn lemma_chain(
    c: CursorModel,
    height: nat,
    lo: int,
    hi: int,
    b: CursorModel,
    t: nat,
    key: int,
    right: usize,
    r: int,
    rowid: u64,
    record: Seq<ValueModel>,
    x: Set<usize>,
)
    requires
        takes_row(c, height, lo, hi, rowid, record),
        b.header == grown_by(c.header, b.header.database_size - c.header.database_size),
        way_ok(way_of(c, height, lo, hi, rowid, record)),
        pending(way_of(c, height, lo, hi, rowid, record), b, t, key, right, r),
        chain_splits(way_of(c, height, lo, hi, rowid, record), b, t),
        beside_kept(
            c.pages(),
            b.pages(),
            x.insert(spot_at(way_of(c, height, lo, hi, rowid, record), t).id),
        ),
    ensures
        b.written(rowid, record).ok,
        !b.written(rowid, record).waits,
        gained(
            c,
            height,
            b.written(rowid, record).cursor,
            height_after(way_of(c, height, lo, hi, rowid, record), b, t),
            lo,
            hi,
            Row { rowid: rowid as int, record },
        ),
        beside_kept(
            c.pages(),
            b.written(rowid, record).cursor.pages(),
            x.union(left_pages(way_of(c, height, lo, hi, rowid, record), b, t)),
        ),
    decreases height - t,
{
    let w = way_of(c, height, lo, hi, rowid, record);
    if t >= height {
        lemma_chain_root(c, height, lo, hi, b, t, key, right, r, rowid, record, x);
    } else if taken_above(w, b, t) {
        lemma_chain_taken(c, height, lo, hi, b, t, key, right, r, rowid, record, x);
    } else {
        let f = begun(b).moved_up();
        let key2 = begun(b).divider_key();
        let rid = (b.header.database_size + 1) as usize;
        let y = x.insert(spot_at(w, t).id);
        let q = lemma_chain_up(w, c.pages(), b, t, key, right, r, rowid, record, y);
        lemma_chain(c, height, lo, hi, f, t + 1, key2, rid, q, rowid, record, y);
        assert(y.union(left_pages(w, f, t + 1)) =~= x.union(left_pages(w, b, t)));
    }
}

/// From the leaf with the row beside it, the insertion goes up and gives the table
/// the row.
#[verifier::spinoff_prover]
#[verifier::rlimit(80)]
proof fn lemma_leaf_chain(
    c: CursorModel,
    height: nat,
    lo: int,
    hi: int,
    rowid: u64,
    record: Seq<ValueModel>,
)
    requires
        height > 0,
        takes_row(c, height, lo, hi, rowid, record),
        leaf_splits(c, rowid, record),
        chain_splits(way_of(c, height, lo, hi, rowid, record), row_put(c, rowid, record), 0),
    ensures
        row_put(c, rowid, record).written(rowid, record).ok,
        !row_put(c, rowid, record).written(rowid, record).waits,
        gained(
            c,
            height,
            row_put(c, rowid, record).written(rowid, record).cursor,
            height_after(
                way_of(c, height, lo, hi, rowid, record),
                row_put(c, rowid, record),
                0,
            ),
            lo,
            hi,
            Row { rowid: rowid as int, record },
        ),
        beside_kept(
            c.pages(),
            row_put(c, rowid, record).written(rowid, record).cursor.pages(),
            left_pages(
                way_of(c, height, lo, hi, rowid, record),
                row_put(c, rowid, record),
                0,
            ),
        ),
{
    let w = way_of(c, height, lo, hi, rowid, record);
    let b = row_put(c, rowid, record);
    lemma_leaf_starts(c, height, lo, hi, rowid, record);
    let q = lemma_leaf_climbs(c, height, lo, hi, rowid, record);
    let x = set![spot_at(w, 0).id];
    let f = begun(b).moved_up();
    if taken_above(w, b, 0) {
        lemma_chain_ends(c, height, lo, hi, b, 0, q, rowid, record);
        lemma_beside_twice(c.pages(), b.pages(), f.pages(), x, Set::empty(), x);
    } else {
        let rid = (b.header.database_size + 1) as usize;
        let u = spot_at(w, 1).id;
        lemma_beside_twice(c.pages(), b.pages(), f.pages(), x, set![u], x.insert(u));
        lemma_chain(c, height, lo, hi, f, 1, begun(b).divider_key(), rid, q, rowid, record, x);
        assert(x.union(left_pages(w, f, 1)) =~= left_pages(w, b, 0));
    }
}

/// Inserting a row into a table whose leaf has no room for it works and gives the
/// table that row, in its place, and changes no other, also where the page above
/// has no room for one more child, and so on up the tree: one page after the
/// other is split, and a root that is split gets a new root above it. Only the left
/// page of each split has then a cell beside it that it had not.
pub proof fn insert_with_splits(
    c: CursorModel,
    height: nat,
    lo: int,
    hi: int,
    rowid: u64,
    record: Seq<ValueModel>,
)
    requires
        height > 0,
        takes_row(c, height, lo, hi, rowid, record),
        leaf_splits(c, rowid, record),
        chain_splits(way_of(c, height, lo, hi, rowid, record), row_put(c, rowid, record), 0),
    ensures
        c.descent(KeyModel::RowId(rowid as int), SeekOp::EQ).end is Leaf,
        at_leaf(c, rowid).written(rowid, record).ok,
        !at_leaf(c, rowid).written(rowid, record).waits,
        gained(
            c,
            height,
            at_leaf(c, rowid).written(rowid, record).cursor,
            height_after(
                way_of(c, height, lo, hi, rowid, record),
                row_put(c, rowid, record),
                0,
            ),
            lo,
            hi,
            Row { rowid: rowid as int, record },
        ),
        beside_kept(
            c.pages(),
            at_leaf(c, rowid).written(rowid, record).cursor.pages(),
            left_pages(
                way_of(c, height, lo, hi, rowid, record),
                row_put(c, rowid, record),
                0,
            ),
        ),
{
    lemma_leaf_starts(c, height, lo, hi, rowid, record);
    lemma_leaf_chain(c, height, lo, hi, rowid, record);
}

} // verus!
