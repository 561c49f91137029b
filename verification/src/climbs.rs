//! An insertion that splits one page after the other on its way up the tree.

use vstd::prelude::*;
use crate::balance::{
    all_cells, cells_on, child_slot, fill_ok, first_at_least, lemma_divider_key, lemma_moved_up_top,
    overflow_ok, with_overflow,
};
use crate::cells::{cell_layout, lemma_cell_bytes_layout, lemma_cell_head_bounds, starts_cell};
use crate::cursor::{header_ok, CursorModel, WriteState};
use crate::fans::{fan_of, left_fan, right_fan, Fan};
use crate::fill::{emptied, grown_by, new_tree_page};
use crate::growth::lemma_divider_place;
use crate::nodes::{holds_entries, node_split_shares_entries};
use crate::page::{lemma_limits, usable_ok, OverflowModel, PageModel, PageType};
use crate::pager::{loaded, page_of, PageState};
use crate::pairs::{changed_at, grown_fan, has_fan};
use crate::payloads::kept;
use crate::record::ValueModel;
use crate::rooms::{cell_stands, insert_keeps_all_cells, spread, takes};
use crate::settled::{
    all_sized, beside_kept, lemma_begun_rest, lemma_beside_twice, lemma_marked_rest,
    lemma_moved_rest, lemma_new_page_rest,
};
use crate::sharing::uses;
use crate::space::{free_space_ok, has_room, insert_ok, inserted};
use crate::splits::{
    divided, divider_cell, divider_divides, entry_in, halves_fit, lemma_child_written,
    lemma_divider_layout, lemma_rightmost_written, same_entry, slot_of,
};
use crate::tables::{child_at, separator};
use crate::varint::lemma_varint_bounds;
use crate::ways::{
    became_two, child_became_two, fan_with, lemma_two_above, lemma_two_below, lemma_way,
    lemma_way_down, spot_at, turn, way_ok, Way,
};

verus! {

/// The children and the row ids in cells of an interior page, with the
/// right-most child.
pub open spec fn cells_fan(cells: Seq<Seq<u8>>, rightmost: int, usable: int) -> Fan {
    let t = PageType::TableInterior;
    Fan {
        kids: Seq::new(
            cells.len() + 1,
            |i: int|
                if i < cells.len() {
                    cell_layout(cells[i], t, usable).child as usize
                } else {
                    rightmost as usize
                },
        ),
        keys: Seq::new(cells.len(), |i: int| cell_layout(cells[i], t, usable).rowid),
    }
}

/// A page with the entries of cells has their children.
proof fn lemma_entries_fan(
    pages: Map<usize, PageState>,
    id: usize,
    cells: Seq<Seq<u8>>,
    rightmost: int,
    usable: int,
)
    requires
        loaded(pages, id),
        holds_entries(page_of(pages, id), cells, rightmost, usable),
    ensures
        has_fan(pages, id, cells_fan(cells, rightmost, usable), usable),
{
    let page = page_of(pages, id);
    let f = fan_of(page, usable);
    let g = cells_fan(cells, rightmost, usable);
    assert forall|i: int| 0 <= i < page.cell_count() implies (#[trigger] page.head(
        i,
        usable,
    )) is Some by {
        assert(entry_in(page, i, cells[i], usable));
    }
    assert forall|i: int| 0 <= i < f.kids.len() implies f.kids[i] == g.kids[i] by {
        if i < cells.len() {
            assert(entry_in(page, i, cells[i], usable));
        }
    }
    assert forall|i: int| 0 <= i < f.keys.len() implies f.keys[i] == g.keys[i] by {
        assert(entry_in(page, i, cells[i], usable));
    }
    assert(f.kids =~= g.kids);
    assert(f.keys =~= g.keys);
}

/// The children in the two halves of cells.
proof fn lemma_halves_fan(cells: Seq<Seq<u8>>, rightmost: int, half: int, usable: int)
    requires
        1 <= half <= cells.len(),
    ensures
        ({
            let f = cells_fan(cells, rightmost, usable);
            let middle = cell_layout(cells[half - 1], PageType::TableInterior, usable);
            &&& cells_fan(cells.take(half - 1), middle.child, usable) == left_fan(f, half)
            &&& cells_fan(cells.skip(half), rightmost, usable) == right_fan(f, half)
            &&& f.keys[half - 1] == middle.rowid
        }),
{
    let f = cells_fan(cells, rightmost, usable);
    let middle = cell_layout(cells[half - 1], PageType::TableInterior, usable);
    let a = cells_fan(cells.take(half - 1), middle.child, usable);
    let b = cells_fan(cells.skip(half), rightmost, usable);
    assert(a.kids =~= left_fan(f, half).kids);
    assert(a.keys =~= left_fan(f, half).keys);
    assert(b.kids =~= right_fan(f, half).kids);
    assert(b.keys =~= right_fan(f, half).keys);
}

/// An interior page without room for a divider in front of child `ci`: the
/// divider is put beside the page, and the child is replaced.
pub open spec fn beside_page(
    page: PageModel,
    ci: int,
    left: int,
    key: int,
    right: int,
) -> PageModel {
    (PageModel {
        overflow_cells: seq![OverflowModel { index: ci, payload: divider_cell(left, key) }],
        ..page
    }).with_u32(slot_of(page, ci), right)
}

/// The cells of an interior page, with a divider beside it, have its children
/// and one more.
proof fn lemma_beside_fan(
    page: PageModel,
    ci: int,
    left: usize,
    key: u64,
    right: usize,
    usable: int,
)
    requires
        usable_ok(usable),
        page.page_type() == Some(PageType::TableInterior),
        spread(page, usable),
        0 <= ci <= page.cell_count(),
        left == child_at(page, ci, usable),
        left <= u32::MAX,
        right <= u32::MAX,
    ensures
        ({
            let p = beside_page(page, ci, left as int, key as int, right as int);
            let cells = all_cells(p, usable);
            let t = PageType::TableInterior;
            &&& p.page_type() == Some(t)
            &&& p.cell_count() == page.cell_count()
            &&& forall|i: int| 0 <= i < p.cell_count() ==> (#[trigger] p.head(i, usable)) is Some
            &&& cells == cells_on(p, usable).insert(ci, divider_cell(left as int, key as int))
            &&& forall|i: int|
                0 <= i < cells.len() ==> starts_cell(#[trigger] cells[i], t, usable)
            &&& cells_fan(cells, p.rightmost(), usable) == grown_fan(
                fan_of(page, usable),
                ci,
                key as int,
                right,
            )
        }),
{
    let t = PageType::TableInterior;
    let n = page.cell_count();
    let p = beside_page(page, ci, left as int, key as int, right as int);
    let divider = divider_cell(left as int, key as int);
    lemma_beside_heads(page, ci, left as int, key as int, right as int, usable);
    let on = cells_on(p, usable);
    assert(all_cells(p, usable) == on.insert(ci, divider)) by {
        reveal_with_fuel(with_overflow, 2);
        assert(p.overflow_cells.drop_last() =~= Seq::<OverflowModel>::empty());
    }
    lemma_divider_layout(left as int, key, usable);
    let f = fan_of(page, usable);
    assert forall|i: int| 0 <= i < n implies {
        &&& starts_cell(#[trigger] on[i], t, usable)
        &&& cell_layout(on[i], t, usable).child as usize == if i == ci {
            right
        } else {
            f.kids[i]
        }
        &&& cell_layout(on[i], t, usable).rowid == f.keys[i]
    } by {
        assert(p.head(i, usable) is Some);
        lemma_cell_bytes_layout(p, i, usable);
    }
    lemma_grown_cells(on, divider, ci, f, left, key as int, right, p.rightmost(), usable);
}

/// Cells with a divider among them have one child more.
proof fn lemma_grown_cells(
    on: Seq<Seq<u8>>,
    divider: Seq<u8>,
    ci: int,
    f: Fan,
    left: usize,
    key: int,
    right: usize,
    rightmost: int,
    usable: int,
)
    requires
        f.keys.len() == on.len(),
        f.kids.len() == on.len() + 1,
        0 <= ci <= on.len(),
        f.kids[ci] == left,
        ({
            let t = PageType::TableInterior;
            &&& forall|i: int|
                0 <= i < on.len() ==> {
                    &&& starts_cell(#[trigger] on[i], t, usable)
                    &&& cell_layout(on[i], t, usable).child as usize == if i == ci {
                        right
                    } else {
                        f.kids[i]
                    }
                    &&& cell_layout(on[i], t, usable).rowid == f.keys[i]
                }
            &&& starts_cell(divider, t, usable)
            &&& cell_layout(divider, t, usable).child as usize == left
            &&& cell_layout(divider, t, usable).rowid == key
        }),
        rightmost as usize == if ci == on.len() {
            right
        } else {
            f.kids[on.len() as int]
        },
    ensures
        ({
            let cells = on.insert(ci, divider);
            &&& forall|i: int|
                0 <= i < cells.len() ==> starts_cell(
                    #[trigger] cells[i],
                    PageType::TableInterior,
                    usable,
                )
            &&& cells_fan(cells, rightmost, usable) == grown_fan(f, ci, key, right)
        }),
{
    let t = PageType::TableInterior;
    let cells = on.insert(ci, divider);
    let g = grown_fan(f, ci, key, right);
    let h = cells_fan(cells, rightmost, usable);
    assert forall|i: int| 0 <= i < cells.len() implies {
        &&& starts_cell(#[trigger] cells[i], t, usable)
        &&& cell_layout(cells[i], t, usable).child as usize == g.kids[i]
        &&& cell_layout(cells[i], t, usable).rowid == g.keys[i]
    } by {
        if i < ci {
            assert(cells[i] == on[i]);
        } else if i > ci {
            assert(cells[i] == on[i - 1]);
        }
    }
    assert forall|i: int| 0 <= i < h.kids.len() implies h.kids[i] == g.kids[i] by {
        if i < cells.len() {
            assert(starts_cell(cells[i], t, usable));
        }
    }
    assert forall|i: int| 0 <= i < h.keys.len() implies h.keys[i] == g.keys[i] by {
        assert(starts_cell(cells[i], t, usable));
    }
    assert(h.kids =~= g.kids);
    assert(h.keys =~= g.keys);
}

/// The entries of an interior page with a divider beside it.
proof fn lemma_beside_heads(
    page: PageModel,
    ci: int,
    left: int,
    key: int,
    right: int,
    usable: int,
)
    requires
        usable_ok(usable),
        page.page_type() == Some(PageType::TableInterior),
        spread(page, usable),
        0 <= ci <= page.cell_count(),
        0 <= right <= u32::MAX,
    ensures
        ({
            let p = beside_page(page, ci, left, key, right);
            let n = page.cell_count();
            &&& p.page_type() == page.page_type()
            &&& p.cell_count() == n
            &&& p.rightmost() == if ci == n {
                right
            } else {
                page.rightmost()
            }
            &&& forall|i: int|
                0 <= i < n ==> {
                    &&& (#[trigger] p.head(i, usable)) is Some
                    &&& page.head(i, usable) is Some
                    &&& p.head(i, usable).unwrap().rowid == separator(page, i, usable)
                    &&& p.head(i, usable).unwrap().child == if i == ci {
                        right
                    } else {
                        page.head(i, usable).unwrap().child
                    }
                }
            &&& 0 <= slot_of(page, ci) && slot_of(page, ci) + 4 <= usable
        }),
{
    let n = page.cell_count();
    let q = page.with_u32(slot_of(page, ci), right);
    let p = beside_page(page, ci, left, key, right);
    lemma_slot_written(page, ci, right, usable);
    assert(p.buf == q.buf && p.offset == q.offset);
    assert forall|i: int| 0 <= i < n implies {
        &&& (#[trigger] p.head(i, usable)) is Some
        &&& page.head(i, usable) is Some
        &&& p.head(i, usable).unwrap().rowid == separator(page, i, usable)
        &&& p.head(i, usable).unwrap().child == if i == ci {
            right
        } else {
            page.head(i, usable).unwrap().child
        }
    } by {
        assert(p.head(i, usable) == q.head(i, usable));
    }
}

/// The entries of an interior page one of whose children was replaced.
proof fn lemma_slot_written(page: PageModel, ci: int, right: int, usable: int)
    requires
        usable_ok(usable),
        page.page_type() == Some(PageType::TableInterior),
        spread(page, usable),
        0 <= ci <= page.cell_count(),
        0 <= right <= u32::MAX,
    ensures
        ({
            let q = page.with_u32(slot_of(page, ci), right);
            let n = page.cell_count();
            &&& q.page_type() == page.page_type()
            &&& q.cell_count() == n
            &&& q.rightmost() == if ci == n {
                right
            } else {
                page.rightmost()
            }
            &&& forall|i: int|
                0 <= i < n ==> {
                    &&& (#[trigger] q.head(i, usable)) is Some
                    &&& page.head(i, usable) is Some
                    &&& q.head(i, usable).unwrap().rowid == page.head(i, usable).unwrap().rowid
                    &&& q.head(i, usable).unwrap().child == if i == ci {
                        right
                    } else {
                        page.head(i, usable).unwrap().child
                    }
                }
            &&& 0 <= slot_of(page, ci) && slot_of(page, ci) + 4 <= usable
        }),
{
    let n = page.cell_count();
    let q = page.with_u32(slot_of(page, ci), right);
    if ci < n {
        let t = PageType::TableInterior;
        assert(cell_stands(page, ci, usable));
        lemma_cell_head_bounds(page.buf, t, page.cell_pointer(ci), usable);
        lemma_varint_bounds(page.buf, page.cell_pointer(ci) + 4, 0, 0);
        lemma_child_written(page, ci, right, usable);
    } else {
        lemma_rightmost_written(page, right, usable);
    }
    assert forall|i: int| 0 <= i < n implies {
        &&& (#[trigger] q.head(i, usable)) is Some
        &&& page.head(i, usable) is Some
        &&& q.head(i, usable).unwrap().rowid == page.head(i, usable).unwrap().rowid
        &&& q.head(i, usable).unwrap().child == if i == ci {
            right
        } else {
            page.head(i, usable).unwrap().child
        }
    } by {
        assert(cell_stands(page, i, usable));
    }
}

// ---------------------------------------------------------------------------
// One page is split
// ---------------------------------------------------------------------------

/// Whether the cursor's page of type `t`, below a parent, has cells beside it and
/// can be split: its cells can be read, and each half of them has room.
pub open spec fn page_splits(b: CursorModel, t: PageType) -> bool {
    let usable = b.usable();
    let page = b.top_page();
    let size = b.header.database_size as int;
    let cells = all_cells(page, usable);
    &&& header_ok(b.header)
    &&& b.state == WriteState::BalanceStart
    &&& b.stack.len() > 1
    &&& b.top().page <= size
    &&& b.parent_id() <= size
    &&& b.top().page != b.parent_id()
    &&& size < u32::MAX
    &&& loaded(b.pages(), b.top().page)
    &&& loaded(b.pages(), b.parent_id())
    &&& page.sized(b.header.page_size as int)
    &&& page.offset == 0
    &&& t == PageType::TableLeaf || t == PageType::TableInterior
    &&& page.page_type() == Some(t)
    &&& page.overflow_cells.len() > 0
    &&& overflow_ok(page.overflow_cells, page.cell_count())
    &&& forall|i: int| 0 <= i < page.cell_count() ==> (#[trigger] page.head(i, usable)) is Some
    &&& forall|i: int| 0 <= i < cells.len() ==> starts_cell(#[trigger] cells[i], t, usable)
    &&& halves_fit(cells, usable)
}

/// The cursor once its page is ready to share its cells.
pub open spec fn begun(b: CursorModel) -> CursorModel {
    let c = b.split_begun();
    CursorModel { pager: c.pager.mark(b.parent_id()), state: WriteState::BalanceMoveUp, ..c }
}

/// An insertion goes on after a step.
proof fn lemma_goes_on(c: CursorModel, d: CursorModel, rowid: u64, record: Seq<ValueModel>)
    requires
        header_ok(c.header),
        c.state == WriteState::BalanceStart || c.state == WriteState::BalanceGetParentPage
            || c.state == WriteState::BalanceMoveUp,
        c.balance_ok(),
        !c.balance_waits(),
        c.balanced() == d,
    ensures
        c.written(rowid, record) == d.written(rowid, record),
{
}

/// The pages when a page is ready to share its cells.
pub proof fn lemma_begun_pages(b: CursorModel, t: PageType)
    requires
        page_splits(b, t),
    ensures
        ({
            let d = begun(b);
            let l = b.top().page;
            let r = (b.header.database_size + 1) as usize;
            &&& d.new_pages == seq![l, r]
            &&& d.stack == b.stack
            &&& d.root_page == b.root_page
            &&& d.header == grown_by(b.header, 1)
            &&& d.scratch_cells == all_cells(b.top_page(), b.usable())
            &&& loaded(d.pages(), l) && loaded(d.pages(), r) && loaded(d.pages(), b.parent_id())
            &&& page_of(d.pages(), l) == b.top_page()
            &&& page_of(d.pages(), r) == new_tree_page(t, b.header)
            &&& d.parent_page() == b.parent_page()
            &&& d.parent_id() == b.parent_id()
            &&& d.split_kind() == t
            &&& d.state == WriteState::BalanceMoveUp
            &&& kept(b.pages(), d.pages(), set![r])
        }),
{
    let d = begun(b);
    let r = (b.header.database_size + 1) as usize;
    assert(d.new_pages =~= seq![b.top().page, r]);
    assert forall|k: usize| #[trigger] loaded(b.pages(), k) && !set![r].contains(k) implies loaded(
        d.pages(),
        k,
    ) && page_of(d.pages(), k) == page_of(b.pages(), k) by {}
}

/// A page that is split is made ready in two steps.
proof fn lemma_page_begins(b: CursorModel, t: PageType, rowid: u64, record: Seq<ValueModel>)
    requires
        page_splits(b, t),
    ensures
        b.written(rowid, record) == begun(b).written(rowid, record),
{
    let c1 = b.split_begun();
    assert(b.split_ok());
    lemma_goes_on(b, c1, rowid, record);
    assert(loaded(c1.pages(), b.parent_id()));
    assert(c1.parent_id() == b.parent_id());
    lemma_goes_on(c1, begun(b), rowid, record);
}

/// Whether the parent has a place for a divider for its child `ci`, page `id`,
/// and the row id `key`: on the page or beside it.
pub open spec fn divider_goes(
    parent: PageModel,
    ci: int,
    id: int,
    key: int,
    usable: int,
) -> bool {
    &&& parent.page_type() == Some(PageType::TableInterior)
    &&& parent.overflow_cells.len() == 0
    &&& spread(parent, usable)
    &&& 0 <= ci <= parent.cell_count()
    &&& first_at_least(parent, key, usable, 0) == Some(ci)
    &&& child_slot(parent, id, usable, 0) == Some(slot_of(parent, ci))
    &&& takes(parent, divider_cell(id, key), usable) || {
        &&& free_space_ok(parent, usable)
        &&& !has_room(parent, divider_cell(id, key))
    }
}

/// The parent once it was told that its child `id` became two.
proof fn lemma_divider_gone(
    parent: PageModel,
    ci: int,
    id: int,
    key: u64,
    right: int,
    usable: int,
)
    requires
        usable_ok(usable),
        divider_goes(parent, ci, id, key as int, usable),
        0 <= id <= u32::MAX,
        0 <= right <= u32::MAX,
    ensures
        ({
            let cell = divider_cell(id, key as int);
            let after = inserted(parent, cell, ci, usable).with_u32(slot_of(parent, ci), right);
            &&& insert_ok(parent, cell, ci, usable)
            &&& 0 <= slot_of(parent, ci) && slot_of(parent, ci) + 4 <= usable
            &&& if takes(parent, cell, usable) {
                &&& divided(parent, after, ci, id, key as int, right, usable)
                &&& after.overflow_cells.len() == 0
            } else {
                after == beside_page(parent, ci, id, key as int, right)
            }
        }),
{
    let cell = divider_cell(id, key as int);
    lemma_slot_written(parent, ci, right, usable);
    if takes(parent, cell, usable) {
        lemma_divider_layout(id, key, usable);
        insert_keeps_all_cells(parent, cell, ci, usable);
        divider_divides(parent, ci, id, key, right, usable);
    } else {
        let o = OverflowModel { index: ci, payload: cell };
        assert(parent.overflow_cells.push(o) =~= seq![o]);
    }
}

/// The cells of a page can be shared.
proof fn lemma_page_may_move(b: CursorModel, t: PageType, ci: int)
    requires
        page_moves(b, t, ci),
    ensures
        ({
            let d = begun(b);
            let key = d.divider_key();
            let l = b.top().page as int;
            let r = b.header.database_size + 1;
            &&& d.move_up_ok()
            &&& 0 <= key <= u64::MAX
            &&& if takes(b.parent_page(), divider_cell(l, key), b.usable()) {
                &&& divided(b.parent_page(), d.parent_after(), ci, l, key, r, b.usable())
                &&& d.parent_after().overflow_cells.len() == 0
            } else {
                d.parent_after() == beside_page(b.parent_page(), ci, l, key, r)
            }
        }),
{
    let d = begun(b);
    lemma_begun_pages(b, t);
    let cells = d.scratch_cells;
    assert(starts_cell(cells[d.half() - 1], t, b.usable()));
    lemma_divider_key(d);
    let key = d.divider_key();
    let l = b.top().page as int;
    let r = b.header.database_size + 1;
    assert(d.divider() == divider_cell(l, key));
    lemma_divider_gone(b.parent_page(), ci, l, key as u64, r, b.usable());
    lemma_limits(b.usable());
}

/// Whether the cells of the cursor's page can be shared, and its parent told.
pub open spec fn page_moves(b: CursorModel, t: PageType, ci: int) -> bool {
    let d = begun(b);
    let usable = b.usable();
    &&& page_splits(b, t)
    &&& fill_ok(
        emptied(page_of(d.pages(), d.new_pages[0]), usable),
        d.scratch_cells.take(d.left_share()),
        usable,
    )
    &&& fill_ok(
        emptied(page_of(d.pages(), d.new_pages[1]), usable),
        d.scratch_cells.skip(d.half()),
        usable,
    )
    &&& t == PageType::TableLeaf ==> d.left_page().cell_count() > 1
    &&& divider_goes(b.parent_page(), ci, b.top().page as int, d.divider_key(), usable)
    &&& b.parent_page().sized(b.header.page_size as int)
}

/// Sharing the cells of a page works, and the insertion goes on at the parent.
pub proof fn lemma_page_moves(
    b: CursorModel,
    t: PageType,
    ci: int,
    rowid: u64,
    record: Seq<ValueModel>,
)
    requires
        page_moves(b, t, ci),
    ensures
        ({
            let d = begun(b);
            let key = d.divider_key();
            let l = b.top().page as int;
            let r = b.header.database_size + 1;
            &&& d.move_up_ok()
            &&& b.written(rowid, record) == d.moved_up().written(rowid, record)
            &&& 0 <= key <= u64::MAX
            &&& if takes(b.parent_page(), divider_cell(l, key), b.usable()) {
                &&& divided(b.parent_page(), d.parent_after(), ci, l, key, r, b.usable())
                &&& d.parent_after().overflow_cells.len() == 0
            } else {
                d.parent_after() == beside_page(b.parent_page(), ci, l, key, r)
            }
        }),
{
    lemma_page_may_move(b, t, ci);
    lemma_page_begins(b, t, rowid, record);
    lemma_begun_pages(b, t);
    lemma_goes_on(begun(b), begun(b).moved_up(), rowid, record);
}

// ---------------------------------------------------------------------------
// The way up
// ---------------------------------------------------------------------------

/// Whether the cursor is on its way up at level `t`.
pub open spec fn on_way(w: Way, b: CursorModel, t: nat) -> bool {
    &&& header_ok(b.header)
    &&& b.usable() == w.usable
    &&& b.root_page == w.root
    &&& b.state == WriteState::BalanceStart
    &&& t <= w.height
    &&& b.stack.len() == w.height + 1 - t
    &&& forall|i: int|
        0 <= i < b.stack.len() ==> (#[trigger] b.stack[i]).page == spot_at(
            w,
            (w.height - i) as nat,
        ).id
    &&& w.size <= b.header.database_size
    &&& loaded(b.pages(), spot_at(w, t).id)
    &&& all_sized(b.pages(), b.header.page_size as int)
}

/// Whether the cursor is at an interior page whose child became two, with the
/// divider beside the page.
pub open spec fn pending(
    w: Way,
    b: CursorModel,
    t: nat,
    key: int,
    right: usize,
    r: int,
) -> bool {
    let s = spot_at(w, t);
    let page = page_of(w.pages, s.id);
    &&& 0 < t
    &&& on_way(w, b, t)
    &&& child_became_two(w, b.pages(), t, key, right, r, b.header.database_size as int)
    &&& spread(page, w.usable)
    &&& 0 <= key <= u64::MAX
    &&& right <= u32::MAX
    &&& spot_at(w, (t - 1) as nat).id <= u32::MAX
    &&& b.top_page() == beside_page(
        page,
        turn(w, t),
        spot_at(w, (t - 1) as nat).id as int,
        key,
        right as int,
    )
}

/// Whether the page above level `t`, with no cell beside it, has room for the
/// divider, or the divider goes beside it, and the file has room for one more page.
pub open spec fn parent_goes(w: Way, b: CursorModel, t: nat) -> bool {
    let u = page_of(w.pages, spot_at(w, t + 1).id);
    let key = begun(b).divider_key();
    let cell = divider_cell(spot_at(w, t).id as int, key);
    &&& b.header.database_size < u32::MAX
    &&& spread(u, w.usable)
    &&& u.overflow_cells.len() == 0
    &&& takes(u, cell, w.usable) || {
        &&& free_space_ok(u, w.usable)
        &&& !has_room(u, cell)
    }
}

/// A row id within the bounds of a page on the way has its place in the page
/// above where the way goes down.
pub proof fn lemma_key_place(w: Way, t: nat, key: int)
    requires
        way_ok(w),
        t < w.height,
        spot_at(w, t).lo < key <= spot_at(w, t).hi,
    ensures
        first_at_least(page_of(w.pages, spot_at(w, t + 1).id), key, w.usable, 0) == Some(
            turn(w, t + 1),
        ),
{
    let s = spot_at(w, t + 1);
    lemma_way(w, t + 1);
    lemma_way_down(w, t);
    lemma_divider_place(w.pages, s.id, t + 1, s.lo, s.hi, turn(w, t + 1), key, w.usable);
}

/// The page above the one on the way is as it was.
pub proof fn lemma_parent_there(w: Way, b: CursorModel, t: nat, x: Set<usize>)
    requires
        way_ok(w),
        t < w.height,
        on_way(w, b, t),
        kept(w.pages, b.pages(), x),
        forall|j: usize| #[trigger]
            x.contains(j) ==> uses(w.pages, spot_at(w, t).id, t, w.usable, j) || j > w.size,
    ensures
        ({
            let u = spot_at(w, t + 1).id;
            let page = page_of(w.pages, u);
            &&& b.top().page == spot_at(w, t).id
            &&& b.parent_id() == u
            &&& loaded(b.pages(), u)
            &&& b.parent_page() == page
            &&& page.page_type() == Some(PageType::TableInterior)
            &&& page.sized(b.header.page_size as int)
            &&& 0 <= turn(w, t + 1) <= page.cell_count()
            &&& child_slot(page, spot_at(w, t).id as int, w.usable, 0) == Some(
                slot_of(page, turn(w, t + 1)),
            )
            &&& spot_at(w, t).id != u
            &&& spot_at(w, t).id <= w.size
            &&& u <= w.size
        }),
{
    let s = spot_at(w, t + 1);
    lemma_way(w, t);
    lemma_way(w, t + 1);
    lemma_way_down(w, t);
    assert(b.stack[b.stack.len() - 1].page == spot_at(w, t).id);
    assert(b.stack[b.stack.len() - 2].page == s.id);
    assert(!x.contains(s.id));
    lemma_divider_place(
        w.pages,
        s.id,
        t + 1,
        s.lo,
        s.hi,
        turn(w, t + 1),
        w.row.rowid,
        w.usable,
    );
}

/// An entry of a divided page.
pub proof fn lemma_divided_entry(
    p: PageModel,
    q: PageModel,
    ci: int,
    left: usize,
    key: int,
    right: usize,
    usable: int,
    i: int,
)
    requires
        0 <= ci <= p.cell_count(),
        0 <= i <= p.cell_count(),
        divided(p, q, ci, left as int, key, right as int, usable),
    ensures
        q.head(i, usable) is Some,
        child_at(q, i, usable) == if i < ci {
            child_at(p, i, usable)
        } else if i == ci {
            left
        } else if i == ci + 1 {
            right
        } else {
            child_at(p, i - 1, usable)
        },
        separator(q, i, usable) == if i < ci {
            separator(p, i, usable)
        } else if i == ci {
            key
        } else {
            separator(p, i - 1, usable)
        },
{
    if i < ci {
        assert(same_entry(p, i, q, i, usable));
    } else if i > ci + 1 {
        assert(same_entry(p, i - 1, q, (i - 1) + 1, usable));
    }
}

/// A divided page has the children of the page and one more.
#[verifier::spinoff_prover]
#[verifier::rlimit(40)]
pub proof fn lemma_divided_fan(
    pages: Map<usize, PageState>,
    id: usize,
    p: PageModel,
    ci: int,
    left: usize,
    key: int,
    right: usize,
    usable: int,
)
    requires
        loaded(pages, id),
        p.page_type() == Some(PageType::TableInterior),
        0 <= ci <= p.cell_count(),
        left == child_at(p, ci, usable),
        divided(p, page_of(pages, id), ci, left as int, key, right as int, usable),
    ensures
        has_fan(pages, id, grown_fan(fan_of(p, usable), ci, key, right), usable),
{
    let q = page_of(pages, id);
    let n = p.cell_count();
    let f = fan_of(q, usable);
    let g = grown_fan(fan_of(p, usable), ci, key, right);
    assert forall|i: int| 0 <= i < n + 1 implies (#[trigger] q.head(i, usable)) is Some by {
        lemma_divided_entry(p, q, ci, left, key, right, usable, i);
    }
    assert forall|i: int| 0 <= i < f.kids.len() implies f.kids[i] == g.kids[i] by {
        if i < n + 1 {
            lemma_divided_entry(p, q, ci, left, key, right, usable, i);
        }
    }
    assert forall|i: int| 0 <= i < f.keys.len() implies f.keys[i] == g.keys[i] by {
        lemma_divided_entry(p, q, ci, left, key, right, usable, i);
    }
    assert(f.kids =~= g.kids);
    assert(f.keys =~= g.keys);
}

/// Whether the cursor went one level up after the page at level `t` became two:
/// the page above names both, or has the divider beside it.
pub open spec fn went_up(w: Way, b: CursorModel, f: CursorModel, t: nat, q: int) -> bool {
    let u = spot_at(w, t + 1).id;
    let page = page_of(w.pages, u);
    let key = begun(b).divider_key();
    let rid = (b.header.database_size + 1) as usize;
    &&& f.header == grown_by(b.header, 1)
    &&& f.root_page == b.root_page
    &&& child_became_two(w, f.pages(), t + 1, key, rid, q, b.header.database_size + 1)
    &&& if takes(page, divider_cell(spot_at(w, t).id as int, key), w.usable) {
        &&& has_fan(f.pages(), u, fan_with(w, t + 1, key, rid), w.usable)
        &&& all_sized(f.pages(), b.header.page_size as int)
        &&& beside_kept(b.pages(), f.pages(), Set::empty())
        &&& f.top_page().overflow_cells.len() == 0
        &&& f.state == WriteState::BalanceStart
        &&& f.stack.len() > 0
        &&& f.top().page == u
        &&& loaded(f.pages(), u)
    } else {
        &&& pending(w, f, t + 1, key, rid, q)
        &&& beside_kept(b.pages(), f.pages(), set![u])
    }
}

/// The pages that changed when a page on the way was split.
proof fn lemma_up_kept(w: Way, b: CursorModel, t: nat, kind: PageType, x: Set<usize>)
    requires
        way_ok(w),
        t < w.height,
        on_way(w, b, t),
        kept(w.pages, b.pages(), x),
        forall|j: usize| #[trigger]
            x.contains(j) ==> uses(w.pages, spot_at(w, t).id, t, w.usable, j) || j > w.size,
        page_splits(b, kind),
    ensures
        kept(
            w.pages,
            begun(b).moved_up().pages(),
            Set::new(
                |j: usize|
                    j == spot_at(w, t + 1).id || uses(w.pages, spot_at(w, t).id, t, w.usable, j)
                        || j > w.size,
            ),
        ),
{
    let d = begun(b);
    let f = d.moved_up();
    let u = spot_at(w, t + 1).id;
    let rid = (b.header.database_size + 1) as usize;
    lemma_parent_there(w, b, t, x);
    lemma_begun_pages(b, kind);
    let y = Set::new(
        |j: usize| j == u || uses(w.pages, spot_at(w, t).id, t, w.usable, j) || j > w.size,
    );
    assert(uses(w.pages, spot_at(w, t).id, t, w.usable, spot_at(w, t).id));
    assert forall|j: usize| #[trigger] loaded(w.pages, j) && !y.contains(j) implies loaded(
        f.pages(),
        j,
    ) && page_of(f.pages(), j) == page_of(w.pages, j) by {
        assert(!x.contains(j));
        assert(loaded(b.pages(), j));
        assert(!set![rid].contains(j));
        assert(loaded(d.pages(), j));
    }
}

/// The cursor after a page was split.
pub proof fn lemma_up_rest(b: CursorModel, kind: PageType, ci: int)
    requires
        page_moves(b, kind, ci),
        all_sized(b.pages(), b.header.page_size as int),
        begun(b).left_after().overflow_cells == b.top_page().overflow_cells,
        begun(b).right_after().overflow_cells.len() == 0,
    ensures
        ({
            let d = begun(b);
            let f = d.moved_up();
            let size = b.header.page_size as int;
            let key = d.divider_key();
            let l = b.top().page as int;
            let r = b.header.database_size + 1;
            &&& 0 <= key <= u64::MAX
            &&& f.header == grown_by(b.header, 1)
            &&& f.root_page == b.root_page
            &&& f.state == WriteState::BalanceStart
            &&& f.stack == b.stack.drop_last()
            &&& f.top().page == b.parent_id()
            &&& loaded(f.pages(), b.parent_id())
            &&& f.top_page() == d.parent_after()
            &&& page_of(f.pages(), b.parent_id()) == d.parent_after()
            &&& all_sized(f.pages(), size)
            &&& beside_kept(b.pages(), f.pages(), set![b.parent_id()])
            &&& if takes(b.parent_page(), divider_cell(l, key), b.usable()) {
                &&& divided(b.parent_page(), d.parent_after(), ci, l, key, r, b.usable())
                &&& d.parent_after().overflow_cells.len() == 0
                &&& beside_kept(b.pages(), f.pages(), Set::empty())
            } else {
                d.parent_after() == beside_page(b.parent_page(), ci, l, key, r)
            }
        }),
{
    let d = begun(b);
    let size = b.header.page_size as int;
    lemma_begun_pages(b, kind);
    lemma_page_may_move(b, kind, ci);
    lemma_moved_up_top(d);
    lemma_begun_rest(b);
    lemma_marked_rest(b.split_begun().pager, b.parent_id(), size);
    lemma_moved_rest(d);
    let no = Set::<usize>::empty();
    let x = set![b.parent_id()];
    let f = d.moved_up();
    lemma_beside_twice(b.pages(), b.split_begun().pages(), d.pages(), no, no, no);
    lemma_beside_twice(b.pages(), d.pages(), f.pages(), no, x, x);
    if d.parent_after().overflow_cells.len() == 0 {
        lemma_beside_twice(b.pages(), d.pages(), f.pages(), no, no, no);
    }
}

/// A page on the way that is split, and became two, lets the cursor go up.
pub proof fn lemma_goes_up(
    w: Way,
    b: CursorModel,
    t: nat,
    kind: PageType,
    x: Set<usize>,
    q: int,
)
    requires
        way_ok(w),
        t < w.height,
        on_way(w, b, t),
        kept(w.pages, b.pages(), x),
        forall|j: usize| #[trigger]
            x.contains(j) ==> uses(w.pages, spot_at(w, t).id, t, w.usable, j) || j > w.size,
        parent_goes(w, b, t),
        page_moves(b, kind, turn(w, t + 1)),
        begun(b).left_after().overflow_cells == b.top_page().overflow_cells,
        begun(b).right_after().overflow_cells.len() == 0,
        became_two(
            w,
            begun(b).moved_up().pages(),
            t,
            begun(b).divider_key(),
            (b.header.database_size + 1) as usize,
            q,
            b.header.database_size + 1,
        ),
    ensures
        went_up(w, b, begun(b).moved_up(), t, q),
{
    let d = begun(b);
    let f = d.moved_up();
    let u = spot_at(w, t + 1).id;
    let rid = (b.header.database_size + 1) as usize;
    let key = d.divider_key();
    let page = page_of(w.pages, u);
    lemma_parent_there(w, b, t, x);
    lemma_way_down(w, t);
    lemma_up_kept(w, b, t, kind, x);
    lemma_two_below(w, f.pages(), t, key, rid, q, b.header.database_size + 1);
    lemma_up_rest(b, kind, turn(w, t + 1));
    if takes(page, divider_cell(spot_at(w, t).id as int, key), w.usable) {
        lemma_divided_fan(
            f.pages(),
            u,
            page,
            turn(w, t + 1),
            spot_at(w, t).id,
            key,
            rid,
            w.usable,
        );
    } else {
        assert forall|i: int| 0 <= i < f.stack.len() implies (#[trigger] f.stack[i]).page
            == spot_at(w, (w.height - i) as nat).id by {
            assert(f.stack[i] == b.stack[i]);
        }
    }
}

/// An interior page that is split shares the children in its cells with the new
/// page behind it.
pub proof fn lemma_node_parts(b: CursorModel)
    requires
        page_splits(b, PageType::TableInterior),
    ensures
        ({
            let d = begun(b);
            let f = d.moved_up();
            let usable = b.usable();
            let l = b.top().page;
            let r = (b.header.database_size + 1) as usize;
            let page = b.top_page();
            let fan = cells_fan(all_cells(page, usable), page.rightmost(), usable);
            &&& fill_ok(
                emptied(page_of(d.pages(), d.new_pages[0]), usable),
                d.scratch_cells.take(d.left_share()),
                usable,
            )
            &&& fill_ok(
                emptied(page_of(d.pages(), d.new_pages[1]), usable),
                d.scratch_cells.skip(d.half()),
                usable,
            )
            &&& d.left_after().overflow_cells == page.overflow_cells
            &&& d.right_after().overflow_cells.len() == 0
            &&& 1 <= d.half() <= fan.keys.len()
            &&& d.divider_key() == fan.keys[d.half() - 1]
            &&& kept(b.pages(), f.pages(), set![l, b.parent_id(), r])
            &&& has_fan(f.pages(), l, left_fan(fan, d.half()), usable)
            &&& has_fan(f.pages(), r, right_fan(fan, d.half()), usable)
        }),
{
    let d = begun(b);
    let f = d.moved_up();
    let usable = b.usable();
    let l = b.top().page;
    let r = (b.header.database_size + 1) as usize;
    let page = b.top_page();
    let cells = all_cells(page, usable);
    let half = d.half();
    lemma_begun_pages(b, PageType::TableInterior);
    lemma_new_page_rest(PageType::TableInterior, b.header);
    let rightmost = page.rightmost() as u32;
    assert(rightmost == page.rightmost());
    node_split_shares_entries(d, rightmost);
    let middle = cell_layout(cells[half - 1], PageType::TableInterior, usable);
    lemma_halves_fan(cells, page.rightmost(), half, usable);
    assert(loaded(f.pages(), l) && page_of(f.pages(), l) == d.left_after());
    assert(loaded(f.pages(), r) && page_of(f.pages(), r) == d.right_after());
    lemma_entries_fan(f.pages(), l, cells.take(half - 1), middle.child, usable);
    lemma_entries_fan(f.pages(), r, cells.skip(half), page.rightmost(), usable);
    let x = set![l, b.parent_id(), r];
    assert forall|j: usize| #[trigger] loaded(b.pages(), j) && !x.contains(j) implies loaded(
        f.pages(),
        j,
    ) && page_of(f.pages(), j) == page_of(b.pages(), j) by {
        assert(!set![r].contains(j));
        assert(loaded(d.pages(), j));
    }
}

/// Whether the page of the cursor can be split on the way up: each half of its
/// cells has room.
pub open spec fn halves_go(b: CursorModel) -> bool {
    &&& b.top_page().offset == 0
    &&& halves_fit(all_cells(b.top_page(), b.usable()), b.usable())
}

/// The cells of an interior page whose child became two.
pub proof fn lemma_pending_cells(w: Way, b: CursorModel, t: nat, key: int, right: usize, r: int)
    requires
        way_ok(w),
        pending(w, b, t, key, right, r),
    ensures
        ({
            let p = b.top_page();
            let cells = all_cells(p, w.usable);
            let kind = PageType::TableInterior;
            &&& b.top().page == spot_at(w, t).id
            &&& spot_at(w, t).id <= w.size
            &&& p.page_type() == Some(kind)
            &&& p.overflow_cells.len() > 0
            &&& overflow_ok(p.overflow_cells, p.cell_count())
            &&& forall|i: int|
                0 <= i < p.cell_count() ==> (#[trigger] p.head(i, w.usable)) is Some
            &&& forall|i: int|
                0 <= i < cells.len() ==> starts_cell(#[trigger] cells[i], kind, w.usable)
            &&& cells_fan(cells, p.rightmost(), w.usable) == fan_with(w, t, key, right)
        }),
{
    let h = (t - 1) as nat;
    lemma_way(w, t);
    lemma_way_down(w, h);
    assert(b.stack[b.stack.len() - 1].page == spot_at(w, t).id);
    lemma_beside_fan(
        page_of(w.pages, spot_at(w, t).id),
        turn(w, t),
        spot_at(w, h).id,
        key as u64,
        right,
        w.usable,
    );
}

/// An interior page on the way, whose child became two, becomes two itself, and
/// the cursor goes up.
pub proof fn lemma_node_climbs(
    w: Way,
    b: CursorModel,
    t: nat,
    key: int,
    right: usize,
    r: int,
    rowid: u64,
    record: Seq<ValueModel>,
) -> (q: int)
    requires
        way_ok(w),
        t < w.height,
        pending(w, b, t, key, right, r),
        halves_go(b),
        parent_goes(w, b, t),
        spot_at(w, t).lo < begun(b).divider_key(),
    ensures
        went_up(w, b, begun(b).moved_up(), t, q),
        b.written(rowid, record) == begun(b).moved_up().written(rowid, record),
{
    let kind = PageType::TableInterior;
    let d = begun(b);
    let f = d.moved_up();
    let s = spot_at(w, t);
    let x = changed_at(w.pages, s.id, t, turn(w, t), w.usable, w.size);
    lemma_pending_cells(w, b, t, key, right, r);
    lemma_way(w, t);
    lemma_way_down(w, (t - 1) as nat);
    assert forall|j: usize| #[trigger] x.contains(j) implies uses(
        w.pages,
        s.id,
        t,
        w.usable,
        j,
    ) || j > w.size by {
        assert(uses(w.pages, s.id, t, w.usable, s.id));
    }
    lemma_parent_there(w, b, t, x);
    assert(page_splits(b, kind));
    lemma_node_parts(b);
    let q = lemma_two_above(
        w,
        b.pages(),
        f.pages(),
        t,
        key,
        right,
        r,
        b.header.database_size as int,
        d.half(),
        (b.header.database_size + 1) as usize,
    );
    lemma_key_place(w, t, d.divider_key());
    assert(page_moves(b, kind, turn(w, t + 1)));
    lemma_goes_up(w, b, t, kind, x, q);
    lemma_page_moves(b, kind, turn(w, t + 1), rowid, record);
    q
}

} // verus!
