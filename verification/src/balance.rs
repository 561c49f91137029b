//! Inserting a row, and splitting a leaf that has no room for it.

use vstd::prelude::*;
use crate::bytes::{bytes32, lemma_be32_put32, sub_vec};
use crate::cursor::{header_fits, header_ok, BTreeCursor, CursorModel, Frame, WriteState};
use crate::fill::{
    emptied, grown_by, lemma_pages_nonneg, new_cell, new_tree_page, overflow_page, pages_for,
    spilled,
};
use crate::page::{
    cell_head, leaf_type, lemma_limits, type_code, BTREE_HEADER_OFFSET_CELL_CONTENT,
    BTREE_HEADER_OFFSET_CELL_COUNT, BTREE_HEADER_OFFSET_FRAGMENTED, BTREE_HEADER_OFFSET_FREEBLOCK,
    BTREE_HEADER_OFFSET_RIGHTMOST, CellHead, OverflowModel, PageContent, PageModel, PageType,
};
use crate::pager::{blank_page, loaded, page_of, DatabaseHeader, PagerModel};
use crate::record::{record_bytes, record_fits, ValueModel};
use crate::space::{free_space, has_room, insert_ok, inserted, lemma_allocated_shape};
use crate::varint::{
    lemma_varint_bounds, lemma_varint_len, lemma_varint_value, varint_at, varint_bytes,
};

verus! {

// ---------------------------------------------------------------------------
// Placing a row
// ---------------------------------------------------------------------------

/// The first cell from `i` on whose row id is not below `key`, or the number
/// of cells; `None` if a cell on the way is not one of a table.
pub open spec fn first_at_least(page: PageModel, key: int, usable: int, i: int) -> Option<int>
    decreases page.cell_count() - i,
{
    if i >= page.cell_count() {
        Some(i)
    } else {
        match page.head(i, usable) {
            None => None,
            Some(h) => if page.kind() != PageType::TableLeaf && page.kind()
                != PageType::TableInterior {
                None
            } else if key <= h.rowid {
                Some(i)
            } else {
                first_at_least(page, key, usable, i + 1)
            },
        }
    }
}

impl CursorModel {
    /// The page at which the cursor is.
    pub open spec fn top_page(self) -> PageModel {
        page_of(self.pages(), self.top().page)
    }

    /// The pages on the stack are pages of the file.
    pub open spec fn in_file(self) -> bool {
        forall|i: int|
            0 <= i < self.stack.len() ==> (#[trigger] self.stack[i]).page
                <= self.header.database_size
    }

    /// The bytes of a new cell for a row.
    pub open spec fn cell_for(self, rowid: u64, record: Seq<ValueModel>) -> Seq<u8> {
        new_cell(
            PageType::TableLeaf,
            Some(rowid),
            record_bytes(record),
            self.header.database_size + 1,
            self.usable(),
        )
    }

    /// The place of a new row among the cells of the leaf.
    pub open spec fn place_for(self, rowid: u64) -> Option<int> {
        first_at_least(self.top_page(), rowid as int, self.usable(), 0)
    }

    /// The leaf with a new row.
    pub open spec fn leaf_with(self, rowid: u64, record: Seq<ValueModel>) -> PageModel {
        inserted(
            self.top_page(),
            self.cell_for(rowid, record),
            self.place_for(rowid).unwrap(),
            self.usable(),
        )
    }

    /// The cursor after page `id` was marked and listed as changed.
    pub open spec fn touching(self, id: usize) -> CursorModel {
        CursorModel { pager: self.pager.mark(id).listed(id), ..self }
    }

    /// The cursor after a row was put on the leaf at which it is.
    pub open spec fn with_row(self, rowid: u64, record: Seq<ValueModel>) -> CursorModel {
        let leaf = self.leaf_with(rowid, record);
        let spilt = self.touching(self.top().page).with_spill(
            PageType::TableLeaf,
            record_bytes(record),
        );
        CursorModel {
            pager: spilt.pager.store(self.top().page, leaf),
            state: if leaf.overflow_cells.len() > 0 {
                WriteState::BalanceStart
            } else {
                WriteState::Finish
            },
            ..spilt
        }
    }

    /// Whether a row can be put on the leaf.
    pub open spec fn row_ok(self, rowid: u64, record: Seq<ValueModel>) -> bool {
        &&& self.stack.len() > 0
        &&& self.in_file()
        &&& self.top_page().page_type() == Some(PageType::TableLeaf)
        &&& self.place_for(rowid) is Some
        &&& record_fits(record)
        &&& self.spill_ok(PageType::TableLeaf, record_bytes(record))
        &&& insert_ok(
            self.top_page(),
            self.cell_for(rowid, record),
            self.place_for(rowid).unwrap(),
            self.usable(),
        )
    }
}

// ---------------------------------------------------------------------------
// Splitting a leaf
// ---------------------------------------------------------------------------

/// The bytes of cell `i`.
pub open spec fn cell_bytes(page: PageModel, i: int, usable: int) -> Seq<u8> {
    page.buf.subrange(page.cell_pointer(i), page.head(i, usable).unwrap().end())
}

/// The cells on a page, in order.
pub open spec fn cells_on(page: PageModel, usable: int) -> Seq<Seq<u8>> {
    Seq::new(page.cell_count() as nat, |i: int| cell_bytes(page, i, usable))
}

/// `cells`, with those that had no room put into their places.
pub open spec fn with_overflow(cells: Seq<Seq<u8>>, overflow: Seq<OverflowModel>) -> Seq<Seq<u8>>
    decreases overflow.len(),
{
    if overflow.len() == 0 {
        cells
    } else {
        with_overflow(cells, overflow.drop_last()).insert(
            overflow.last().index,
            overflow.last().payload,
        )
    }
}

/// Whether the cells that had no room have places among `n` cells.
pub open spec fn overflow_ok(overflow: Seq<OverflowModel>, n: int) -> bool {
    forall|k: int|
        0 <= k < overflow.len() ==> 0 <= (#[trigger] overflow[k]).index <= n + k
}

/// The cells of a page, those without room on it too, in order.
pub open spec fn all_cells(page: PageModel, usable: int) -> Seq<Seq<u8>> {
    with_overflow(cells_on(page, usable), page.overflow_cells)
}

/// The page with `cells` put on it one behind the other.
pub open spec fn filled(page: PageModel, cells: Seq<Seq<u8>>, usable: int) -> PageModel
    decreases cells.len(),
{
    if cells.len() == 0 {
        page
    } else {
        inserted(
            filled(page, cells.drop_last(), usable),
            cells.last(),
            cells.len() - 1,
            usable,
        )
    }
}

/// Whether `cells` can be put on the page one behind the other.
pub open spec fn fill_ok(page: PageModel, cells: Seq<Seq<u8>>, usable: int) -> bool
    decreases cells.len(),
{
    cells.len() == 0 || {
        &&& fill_ok(page, cells.drop_last(), usable)
        &&& insert_ok(
            filled(page, cells.drop_last(), usable),
            cells.last(),
            cells.len() - 1,
            usable,
        )
    }
}

/// Where the page `parent` names its child `id`: in the first cell from `i` on
/// whose left child it is, or as the right-most child. `None` if a cell on the
/// way is not one of a table's interior page.
pub open spec fn child_slot(parent: PageModel, id: int, usable: int, i: int) -> Option<int>
    decreases parent.cell_count() - i,
{
    if i >= parent.cell_count() {
        Some(8)
    } else {
        match parent.head(i, usable) {
            None => None,
            Some(h) => if parent.kind() != PageType::TableInterior {
                None
            } else if h.child == id {
                Some(parent.cell_pointer(i))
            } else {
                child_slot(parent, id, usable, i + 1)
            },
        }
    }
}

impl CursorModel {
    /// The cursor after the tree got a new root above the page at which it is.
    /// The new root takes that page's number, and the page a new one.
    pub open spec fn with_new_root(self) -> CursorModel {
        let root = self.top().page;
        let id = (self.header.database_size + 1) as usize;
        let top = new_tree_page(PageType::TableInterior, self.header).with_u32(
            8,
            id as int,
        ).with_u16(3, 0);
        CursorModel {
            pager: self.pager.with_new(id, top).swapped(root, id).listed(root).listed(id),
            header: grown_by(self.header, 1),
            root_page: root,
            stack: seq![Frame { page: root, index: 0 }, Frame { page: id, index: 0 }],
            ..self
        }
    }

    /// Whether the tree can get a new root.
    pub open spec fn new_root_ok(self) -> bool {
        &&& self.stack.len() > 0
        &&& self.in_file()
        &&& self.header.database_size < u32::MAX
    }

    /// The cursor after its page was made ready to share its cells with a new one.
    pub open spec fn split_begun(self) -> CursorModel {
        let page = self.top_page();
        let id = (self.header.database_size + 1) as usize;
        CursorModel {
            scratch_cells: all_cells(page, self.usable()),
            rightmost_pointer: if leaf_type(page.kind()) {
                None
            } else {
                Some(page.rightmost() as u32)
            },
            new_pages: seq![self.top().page, id],
            state: WriteState::BalanceGetParentPage,
            ..self.with_page(new_tree_page(page.kind(), self.header))
        }
    }

    /// Whether the page can be made ready to share its cells.
    pub open spec fn split_ok(self) -> bool {
        let page = self.top_page();
        &&& self.stack.len() > 1
        &&& loaded(self.pages(), self.top().page)
        &&& page.page_type() == Some(PageType::TableLeaf) || page.page_type() == Some(
            PageType::TableInterior,
        )
        &&& forall|i: int|
            0 <= i < page.cell_count() ==> (#[trigger] page.head(i, self.usable())) is Some
        &&& overflow_ok(page.overflow_cells, page.cell_count())
        &&& self.header.database_size < u32::MAX
    }

    /// The page above the one at which the cursor is.
    pub open spec fn parent_id(self) -> usize {
        self.stack[self.stack.len() - 2].page
    }

    /// The page above the one at which the cursor is.
    pub open spec fn parent_page(self) -> PageModel {
        page_of(self.pages(), self.parent_id())
    }

    /// How many of the shared cells the left half has.
    pub open spec fn half(self) -> int {
        self.scratch_cells.len() as int / 2
    }

    /// The type of the page that is being split.
    pub open spec fn split_kind(self) -> PageType {
        page_of(self.pages(), self.new_pages[0]).kind()
    }

    /// How many of those are put on the left page. Of an interior page, the last
    /// one goes up to the parent.
    pub open spec fn left_share(self) -> int {
        if leaf_type(self.split_kind()) {
            self.half()
        } else {
            self.half() - 1
        }
    }

    /// The left page once its share of the cells was put on it.
    pub open spec fn left_page(self) -> PageModel {
        filled(
            emptied(page_of(self.pages(), self.new_pages[0]), self.usable()),
            self.scratch_cells.take(self.left_share()),
            self.usable(),
        )
    }

    /// The right page once its share of the cells was put on it.
    pub open spec fn right_page(self) -> PageModel {
        filled(
            emptied(page_of(self.pages(), self.new_pages[1]), self.usable()),
            self.scratch_cells.skip(self.half()),
            self.usable(),
        )
    }

    /// The layout of the last cell of the left half.
    pub open spec fn divider_head(self) -> Option<CellHead> {
        cell_head(self.scratch_cells[self.half() - 1], self.split_kind(), 0, self.usable())
    }

    /// The left page. Of an interior page, the child of the last cell of the left
    /// half becomes the right-most child.
    pub open spec fn left_after(self) -> PageModel {
        if leaf_type(self.split_kind()) {
            self.left_page()
        } else {
            self.left_page().with_u32(8, self.divider_head().unwrap().child)
        }
    }

    /// The right page. An interior page gets the right-most child that the page
    /// had before it was split.
    pub open spec fn right_after(self) -> PageModel {
        if leaf_type(self.split_kind()) {
            self.right_page()
        } else {
            self.right_page().with_u32(8, self.rightmost_pointer.unwrap() as int)
        }
    }

    /// The greatest row id of the left half.
    pub open spec fn divider_key(self) -> int {
        self.divider_head().unwrap().rowid
    }

    /// The cell that stands between the two pages in their parent.
    pub open spec fn divider(self) -> Seq<u8> {
        bytes32(self.new_pages[0] as int) + varint_bytes(self.divider_key())
    }

    /// The place of that cell.
    pub open spec fn divider_place(self) -> Option<int> {
        first_at_least(self.parent_page(), self.divider_key(), self.usable(), 0)
    }

    /// Where the parent names the page that is being split.
    pub open spec fn slot_in_parent(self) -> Option<int> {
        child_slot(self.parent_page(), self.top().page as int, self.usable(), 0)
    }

    /// The parent with the divider.
    pub open spec fn parent_divided(self) -> PageModel {
        inserted(
            self.parent_page(),
            self.divider(),
            self.divider_place().unwrap(),
            self.usable(),
        )
    }

    /// The parent with the divider and, in the old page's place, the right page.
    pub open spec fn parent_after(self) -> PageModel {
        self.parent_divided().with_u32(self.slot_in_parent().unwrap(), self.new_pages[1] as int)
    }

    /// The cursor after the cells were shared and the parent told of it.
    pub open spec fn moved_up(self) -> CursorModel {
        CursorModel {
            pager: self.touching(self.parent_id()).pager.store(
                self.new_pages[0],
                self.left_after(),
            ).store(self.new_pages[1], self.right_after()).store(
                self.parent_id(),
                self.parent_after(),
            ),
            stack: self.stack.drop_last(),
            state: WriteState::BalanceStart,
            ..self
        }
    }

    /// Whether the cells of a page of a table can be shared: the left page gets
    /// two of them at least, and the parent has a place for the divider.
    pub open spec fn move_up_ok(self) -> bool {
        let usable = self.usable();
        &&& self.stack.len() > 1
        &&& self.new_pages.len() == 2
        &&& self.new_pages[0] == self.top().page
        &&& self.new_pages[0] <= u32::MAX
        &&& self.new_pages[1] <= u32::MAX
        &&& self.new_pages[0] != self.new_pages[1]
        &&& self.parent_id() != self.new_pages[0]
        &&& self.parent_id() != self.new_pages[1]
        &&& loaded(self.pages(), self.parent_id())
        &&& loaded(self.pages(), self.new_pages[0])
        &&& loaded(self.pages(), self.new_pages[1])
        &&& self.parent_page().page_type() is Some
        &&& self.parent_page().overflow_cells.len() == 0
        &&& self.slot_in_parent() is Some
        &&& self.half() >= 1
        &&& fill_ok(
            emptied(page_of(self.pages(), self.new_pages[0]), usable),
            self.scratch_cells.take(self.left_share()),
            usable,
        )
        &&& fill_ok(
            emptied(page_of(self.pages(), self.new_pages[1]), usable),
            self.scratch_cells.skip(self.half()),
            usable,
        )
        &&& match page_of(self.pages(), self.new_pages[0]).page_type() {
            Some(PageType::TableLeaf) => self.left_page().cell_count() > 1,
            Some(PageType::TableInterior) => self.half() > 1 && self.rightmost_pointer is Some,
            _ => false,
        }
        &&& self.divider_head() is Some
        &&& self.divider_place() is Some
        &&& insert_ok(
            self.parent_page(),
            self.divider(),
            self.divider_place().unwrap(),
            usable,
        )
        &&& self.parent_page().offset + self.slot_in_parent().unwrap() + 4
            <= self.header.page_size
    }

    /// The cursor after one step of balancing.
    pub open spec fn balanced(self) -> CursorModel {
        match self.state {
            WriteState::BalanceStart => if self.top_page().overflow_cells.len() == 0 {
                CursorModel { state: WriteState::Finish, ..self }
            } else if self.stack.len() <= 1 {
                self.with_new_root()
            } else {
                self.split_begun()
            },
            WriteState::BalanceGetParentPage => if loaded(self.pages(), self.parent_id()) {
                CursorModel {
                    pager: self.pager.mark(self.parent_id()),
                    state: WriteState::BalanceMoveUp,
                    ..self
                }
            } else {
                self
            },
            _ => self.moved_up(),
        }
    }

    /// Whether a step of balancing waits for the parent page.
    pub open spec fn balance_waits(self) -> bool {
        self.state == WriteState::BalanceGetParentPage && !loaded(self.pages(), self.parent_id())
    }

    /// Whether a step of balancing can be taken.
    pub open spec fn balance_ok(self) -> bool {
        match self.state {
            WriteState::BalanceStart => {
                &&& self.stack.len() > 0
                &&& loaded(self.pages(), self.top().page)
                &&& self.top_page().overflow_cells.len() > 0 ==> if self.stack.len() <= 1 {
                    self.new_root_ok()
                } else {
                    self.split_ok()
                }
            },
            WriteState::BalanceGetParentPage => self.stack.len() > 1,
            WriteState::BalanceMoveUp => self.move_up_ok(),
            _ => false,
        }
    }
}

// ---------------------------------------------------------------------------
// The whole insertion
// ---------------------------------------------------------------------------

/// What an insertion comes to.
#[verifier::ext_equal]
pub struct Written {
    pub cursor: CursorModel,
    /// Whether it waits for a page.
    pub waits: bool,
    /// Whether every step of it can be taken.
    pub ok: bool,
}

impl CursorModel {
    /// The cursor with its insertion at `state`.
    pub open spec fn in_state(self, state: WriteState) -> CursorModel {
        CursorModel { state, ..self }
    }

    /// Whether the next step of the insertion of a row can be taken.
    pub open spec fn write_ok(self, rowid: u64, record: Seq<ValueModel>) -> bool {
        &&& header_ok(self.header)
        &&& match self.state {
            WriteState::Start => self.stack.len() > 0 && (loaded(self.pages(), self.top().page)
                ==> self.row_ok(rowid, record)),
            WriteState::Finish => true,
            _ => self.balance_ok(),
        }
    }

    /// Whether the next step of an insertion waits for a page.
    pub open spec fn write_waits(self) -> bool {
        match self.state {
            WriteState::Start => !loaded(self.pages(), self.top().page),
            WriteState::Finish => false,
            _ => self.balance_waits(),
        }
    }

    /// The cursor after the next step of the insertion of a row.
    pub open spec fn write_step(self, rowid: u64, record: Seq<ValueModel>) -> CursorModel {
        if self.state == WriteState::Start {
            self.with_row(rowid, record)
        } else {
            self.balanced()
        }
    }

    /// The insertion of a row on the leaf at which the cursor is, from wherever
    /// an earlier call has left it: the row is put on the leaf, then pages are
    /// split as long as there are cells beside them.
    pub open spec fn written(self, rowid: u64, record: Seq<ValueModel>) -> Written
        decreases self.steps_left(),
        via Self::written_ends
    {
        if !self.write_ok(rowid, record) {
            Written { cursor: self, waits: false, ok: false }
        } else if self.write_waits() {
            Written { cursor: self, waits: true, ok: true }
        } else if self.state == WriteState::Finish {
            Written { cursor: self.in_state(WriteState::Start), waits: false, ok: true }
        } else {
            self.write_step(rowid, record).written(rowid, record)
        }
    }

    #[via_fn]
    proof fn written_ends(self, rowid: u64, record: Seq<ValueModel>) {
        if self.write_ok(rowid, record) && !self.write_waits() && self.state
            != WriteState::Finish {
            lemma_write_nearer(self, rowid, record);
        }
    }

    /// Whether the page is the only one below a root that has room for a
    /// divider.
    pub open spec fn under_new_root(self) -> bool {
        &&& self.stack.len() == 2
        &&& self.parent_id() <= self.header.database_size
        &&& free_space(self.parent_page()) >= 15
    }

    /// A number that each step of an insertion makes smaller.
    pub open spec fn steps_left(self) -> int {
        let levels = if self.under_new_root() {
            0
        } else {
            10 * self.stack.len() as int
        };
        match self.state {
            WriteState::Start => 10 * self.stack.len() as int + 20,
            WriteState::BalanceStart => if self.top_page().overflow_cells.len() == 0 {
                1
            } else if self.stack.len() <= 1 {
                8
            } else {
                levels + 7
            },
            WriteState::BalanceGetParentPage => levels + 6,
            WriteState::BalanceMoveUp => levels + 5,
            WriteState::Finish => 0,
        }
    }
}

/// A page that was emptied has all its usable bytes behind the header free.
pub proof fn lemma_emptied(page: PageModel, usable: int, page_size: int)
    requires
        page.sized(page_size),
        0 <= usable < 65536,
    ensures
        emptied(page, usable).sized(page_size),
        emptied(page, usable).page_type() == page.page_type(),
        emptied(page, usable).first_freeblock() == 0,
        emptied(page, usable).cell_count() == 0,
        emptied(page, usable).cell_content_area() == usable,
        emptied(page, usable).num_frag_free_bytes() == 0,
        emptied(page, usable).overflow_cells == page.overflow_cells,
        emptied(page, usable).offset == page.offset,
{
}

/// A new root has room for a divider.
pub proof fn lemma_new_root_room(h: DatabaseHeader, id: int)
    requires
        header_ok(h),
        0 <= id <= u32::MAX,
    ensures
        ({
            let top = new_tree_page(PageType::TableInterior, h).with_u32(8, id).with_u16(3, 0);
            &&& free_space(top) >= 15
            &&& top.sized(h.page_size as int)
            &&& top.page_type() == Some(PageType::TableInterior)
            &&& top.cell_count() == 0
            &&& top.first_freeblock() == 0
            &&& top.num_frag_free_bytes() == 0
            &&& top.cell_content_area() == h.usable()
            &&& top.rightmost() == id
            &&& top.overflow_cells.len() == 0
        }),
{
    lemma_limits(h.usable());
    let blank = blank_page(h.page_size as int).with_u8(0, type_code(PageType::TableInterior));
    lemma_emptied(blank, h.usable(), h.page_size as int);
    let page = new_tree_page(PageType::TableInterior, h);
    let a = page.with_u32(8, id);
    lemma_be32_put32(page.buf, 8, id);
    assert(a.rightmost() == id);
    let top = a.with_u16(3, 0);
    assert(top.rightmost() == a.rightmost());
}

/// Each step of an insertion leaves fewer to be taken.
#[verifier::rlimit(40)]
pub proof fn lemma_write_nearer(c: CursorModel, rowid: u64, record: Seq<ValueModel>)
    requires
        c.write_ok(rowid, record),
        !c.write_waits(),
        c.state != WriteState::Finish,
    ensures
        0 <= c.write_step(rowid, record).steps_left() < c.steps_left(),
{
    let d = c.write_step(rowid, record);
    match c.state {
        WriteState::Start => {
            assert(d.stack == c.stack);
        },
        WriteState::BalanceStart => {
            if c.top_page().overflow_cells.len() > 0 {
                if c.stack.len() <= 1 {
                    lemma_new_root_room(c.header, c.header.database_size + 1);
                    assert(c.stack[0].page <= c.header.database_size);
                    assert(d.under_new_root());
                } else if c.under_new_root() {
                    assert(d.parent_page() == c.parent_page());
                    assert(d.under_new_root());
                }
            }
        },
        WriteState::BalanceGetParentPage => {
            if c.under_new_root() {
                assert(d.parent_page() == c.parent_page());
                assert(d.under_new_root());
            }
        },
        _ => {
            lemma_moved_up_top(c);
            if c.under_new_root() {
                lemma_varint_len(c.divider_key() as u64);
                lemma_divider_key(c);
                assert(has_room(c.parent_page(), c.divider()));
                lemma_allocated_shape(
                    c.parent_page(),
                    c.divider().len() as int,
                    c.usable(),
                );
            }
        },
    }
}

/// The key of a divider is a row id.
pub proof fn lemma_divider_key(c: CursorModel)
    requires
        c.divider_head() is Some,
        c.split_kind() == PageType::TableLeaf || c.split_kind() == PageType::TableInterior,
    ensures
        0 <= c.divider_key() <= u64::MAX,
{
    let buf = c.scratch_cells[c.half() - 1];
    if c.split_kind() == PageType::TableLeaf {
        let (len, n) = varint_at(buf, 0).unwrap();
        lemma_varint_bounds(buf, 0, 0, 0);
        lemma_varint_value(buf, n, 0, 0);
    } else {
        lemma_varint_value(buf, 4, 0, 0);
    }
}

/// The page above two that share their cells is the parent with the divider.
pub proof fn lemma_moved_up_top(c: CursorModel)
    requires
        c.stack.len() > 1,
    ensures
        c.moved_up().state == WriteState::BalanceStart,
        c.moved_up().top().page == c.parent_id(),
        c.moved_up().top_page() == c.parent_after(),
        loaded(c.moved_up().pages(), c.parent_id()),
        c.moved_up().stack.len() == c.stack.len() - 1,
{
}

// ---------------------------------------------------------------------------
// Lemmas on sizes and frames
// ---------------------------------------------------------------------------

/// A cell put on a page leaves the page its size.
pub proof fn lemma_inserted_sized(
    page: PageModel,
    payload: Seq<u8>,
    idx: int,
    usable: int,
    page_size: int,
)
    requires
        page.sized(page_size),
    ensures
        inserted(page, payload, idx, usable).sized(page_size),
{
    lemma_allocated_shape(page, payload.len() as int, usable);
}

pub proof fn lemma_filled_sized(
    page: PageModel,
    cells: Seq<Seq<u8>>,
    usable: int,
    page_size: int,
)
    requires
        page.sized(page_size),
    ensures
        filled(page, cells, usable).sized(page_size),
    decreases cells.len(),
{
    if cells.len() > 0 {
        lemma_filled_sized(page, cells.drop_last(), usable, page_size);
        lemma_inserted_sized(
            filled(page, cells.drop_last(), usable),
            cells.last(),
            cells.len() - 1,
            usable,
            page_size,
        );
    }
}

proof fn lemma_fill_ok_prefix(page: PageModel, cells: Seq<Seq<u8>>, usable: int, j: int)
    requires
        fill_ok(page, cells, usable),
        0 <= j <= cells.len(),
    ensures
        fill_ok(page, cells.take(j), usable),
    decreases cells.len(),
{
    if j == cells.len() {
        assert(cells.take(j) =~= cells);
    } else {
        lemma_fill_ok_prefix(page, cells.drop_last(), usable, j);
        assert(cells.drop_last().take(j) =~= cells.take(j));
    }
}

/// One more of the cells is put on the page.
proof fn lemma_fill_step(
    page: PageModel,
    cells: Seq<Seq<u8>>,
    usable: int,
    j: int,
    page_size: int,
)
    requires
        fill_ok(page, cells, usable),
        0 <= j < cells.len(),
        filled(page, cells.take(j), usable).sized(page_size),
    ensures
        ({
            let at = filled(page, cells.take(j), usable);
            &&& insert_ok(at, cells[j], j, usable)
            &&& inserted(at, cells[j], j, usable) == filled(page, cells.take(j + 1), usable)
            &&& filled(page, cells.take(j + 1), usable).sized(page_size)
        }),
{
    lemma_fill_ok_prefix(page, cells, usable, j + 1);
    assert(cells.take(j + 1).drop_last() =~= cells.take(j));
    assert(cells.take(j + 1).last() == cells[j]);
    lemma_inserted_sized(
        filled(page, cells.take(j), usable),
        cells[j],
        j,
        usable,
        page_size,
    );
}

/// Making overflow pages leaves the pages before them as they are.
pub proof fn lemma_spilled_frame(
    pager: PagerModel,
    rest: Seq<u8>,
    id: int,
    usable: int,
    page_size: int,
    k: usize,
)
    requires
        0 <= k < id,
        id - 1 + pages_for(rest.len() as int, usable) <= u32::MAX,
    ensures
        ({
            let after = spilled(pager, rest, id, usable, page_size);
            &&& after.pages.contains_key(k) == pager.pages.contains_key(k)
            &&& pager.pages.contains_key(k) ==> after.pages[k] == pager.pages[k]
        }),
    decreases rest.len(),
{
    if rest.len() > 0 && usable > 4 {
        if rest.len() > usable - 4 {
            let p = pager.with_new(
                id as usize,
                overflow_page(id + 1, rest.take(usable - 4), page_size),
            );
            lemma_pages_nonneg(rest.len() - (usable - 4), usable);
            lemma_spilled_frame(p, rest.skip(usable - 4), id + 1, usable, page_size, k);
        } else {
            lemma_pages_nonneg(rest.len() as int, usable);
        }
    }
}

/// The bytes of the cells in a vector.
pub open spec fn cells_view(v: Seq<Vec<u8>>) -> Seq<Seq<u8>> {
    Seq::new(v.len(), |i: int| v[i]@)
}

proof fn lemma_with_overflow_len(cells: Seq<Seq<u8>>, overflow: Seq<OverflowModel>)
    requires
        overflow_ok(overflow, cells.len() as int),
    ensures
        with_overflow(cells, overflow).len() == cells.len() + overflow.len(),
    decreases overflow.len(),
{
    if overflow.len() > 0 {
        assert(overflow_ok(overflow.drop_last(), cells.len() as int)) by {
            assert forall|k: int| 0 <= k < overflow.drop_last().len() implies 0 <= (
            #[trigger] overflow.drop_last()[k]).index <= cells.len() + k by {
                assert(overflow.drop_last()[k] == overflow[k]);
            }
        }
        lemma_with_overflow_len(cells, overflow.drop_last());
        assert(overflow.last() == overflow[overflow.len() - 1]);
    }
}

impl BTreeCursor {
    /// The first cell whose row id is not below `int_key`, or the number of cells.
    pub fn find_cell(&self, page: &PageContent, int_key: u64) -> (i: usize)
        requires
            header_ok(self@.header),
            page@.sized(self@.header.page_size as int),
            page@.page_type() is Some,
            first_at_least(page@, int_key as int, self@.usable(), 0) is Some,
        ensures
            first_at_least(page@, int_key as int, self@.usable(), 0) == Some(i as int),
            i <= page@.cell_count(),
    {
        let usable = self.usable_space();
        let mut cell_idx: usize = 0;
        let cell_count = page.cell_count();
        let ghost whole = first_at_least(page@, int_key as int, self@.usable(), 0);
        while cell_idx < cell_count
            invariant
                header_ok(self@.header),
                usable == self@.usable(),
                page@.sized(self@.header.page_size as int),
                page@.page_type() is Some,
                cell_count == page@.cell_count(),
                cell_count <= u16::MAX,
                cell_idx <= cell_count,
                whole is Some,
                whole == first_at_least(page@, int_key as int, self@.usable(), 0),
                whole == first_at_least(
                    page@,
                    int_key as int,
                    self@.usable(),
                    cell_idx as int,
                ),
            decreases cell_count - cell_idx,
        {
            match page.cell_info(cell_idx, usable) {
                Some(cell) => {
                    if int_key <= cell.rowid {
                        return cell_idx;
                    }
                },
                None => {
                    assert(false);
                },
            }
            cell_idx += 1;
        }
        cell_idx
    }

    /// Copies the cells of a page, those without room on it too, in order.
    pub fn gather_cells(&self, page: &PageContent) -> (cells: Vec<Vec<u8>>)
        requires
            header_ok(self@.header),
            page@.sized(self@.header.page_size as int),
            page@.page_type() is Some,
            forall|i: int|
                0 <= i < page@.cell_count() ==> (#[trigger] page@.head(i, self@.usable()))
                    is Some,
            overflow_ok(page@.overflow_cells, page@.cell_count()),
        ensures
            cells_view(cells@) == all_cells(page@, self@.usable()),
    {
        let usable = self.usable_space();
        let count = page.cell_count();
        let ghost on = cells_on(page@, usable as int);
        let mut cells: Vec<Vec<u8>> = Vec::new();
        let mut cell_idx: usize = 0;
        assert(cells_view(cells@) =~= on.take(0));
        while cell_idx < count
            invariant
                header_ok(self@.header),
                usable == self@.usable(),
                page@.sized(self@.header.page_size as int),
                page@.page_type() is Some,
                count == page@.cell_count(),
                count <= u16::MAX,
                cell_idx <= count,
                on == cells_on(page@, usable as int),
                forall|i: int|
                    0 <= i < page@.cell_count() ==> (#[trigger] page@.head(i, self@.usable()))
                        is Some,
                cells_view(cells@) == on.take(cell_idx as int),
            decreases count - cell_idx,
        {
            assert(page@.head(cell_idx as int, self@.usable()) is Some);
            let (start, len) = page.cell_get_raw_region(cell_idx, usable);
            let ghost before = cells_view(cells@);
            let cell = sub_vec(page.buf.as_slice(), start, start + len);
            cells.push(cell);
            assert(cells_view(cells@) =~= before.push(cell@));
            assert(on.take(cell_idx + 1) =~= on.take(cell_idx as int).push(on[cell_idx as int]));
            cell_idx += 1;
        }
        assert(on.take(cell_idx as int) =~= on);
        let ghost overflow = page@.overflow_cells;
        let mut k: usize = 0;
        assert(overflow.take(0) =~= Seq::empty());
        while k < page.overflow_cells.len()
            invariant
                overflow == page@.overflow_cells,
                on == cells_on(page@, usable as int),
                on.len() == page@.cell_count(),
                overflow_ok(overflow, on.len() as int),
                k <= overflow.len(),
                cells_view(cells@) == with_overflow(on, overflow.take(k as int)),
                cells_view(cells@).len() == on.len() + k,
            decreases overflow.len() - k,
        {
            let overflow_cell = &page.overflow_cells[k];
            let ghost before = cells_view(cells@);
            assert(overflow[k as int] == overflow_cell@);
            assert(overflow[k as int].index <= on.len() + k);
            let payload = sub_vec(
                overflow_cell.payload.as_slice(),
                0,
                overflow_cell.payload.len(),
            );
            assert(payload@ =~= overflow_cell.payload@);
            cells.insert(overflow_cell.index, payload);
            assert(cells_view(cells@) =~= before.insert(
                overflow_cell.index as int,
                overflow_cell.payload@,
            ));
            assert(overflow.take(k + 1).drop_last() =~= overflow.take(k as int));
            assert(overflow.take(k + 1).last() == overflow[k as int]);
            k += 1;
        }
        assert(overflow.take(k as int) =~= overflow);
        cells
    }

    /// Puts the cells from `from` up to `to` on the page one behind the other.
    pub fn fill_page(&self, page: &mut PageContent, cells: &Vec<Vec<u8>>, from: usize, to: usize)
        requires
            header_fits(self@.header),
            old(page)@.sized(self@.header.page_size as int),
            from <= to <= cells@.len(),
            fill_ok(
                old(page)@,
                cells_view(cells@).subrange(from as int, to as int),
                self@.usable(),
            ),
        ensures
            final(page)@ == filled(
                old(page)@,
                cells_view(cells@).subrange(from as int, to as int),
                self@.usable(),
            ),
    {
        let ghost first = page@;
        let ghost share = cells_view(cells@).subrange(from as int, to as int);
        let ghost usable = self@.usable();
        let mut j: usize = 0;
        assert(share.take(0) =~= Seq::empty());
        while j < to - from
            invariant
                header_fits(self@.header),
                usable == self@.usable(),
                first == old(page)@,
                first.sized(self@.header.page_size as int),
                page@.sized(self@.header.page_size as int),
                from <= to <= cells@.len(),
                share == cells_view(cells@).subrange(from as int, to as int),
                fill_ok(first, share, usable),
                j <= to - from,
                page@ == filled(first, share.take(j as int), usable),
            decreases to - from - j,
        {
            proof {
                lemma_fill_step(first, share, usable, j as int, self@.header.page_size as int);
            }
            self.insert_into_cell(page, cells[from + j].as_slice(), j);
            j += 1;
        }
        assert(share.take(j as int) =~= share);
    }

    /// Takes all cells off the page. Cells beside it stay there, so a page that is
    /// split still has a copy of the cell for which it had no room.
    pub fn empty_page(&self, page: &mut PageContent)
        requires
            header_fits(self@.header),
            old(page)@.sized(self@.header.page_size as int),
        ensures
            final(page)@ == emptied(old(page)@, self@.usable()),
            final(page)@.sized(self@.header.page_size as int),
    {
        let cell_content_area_start = self.usable_space();
        page.write_u16(BTREE_HEADER_OFFSET_FREEBLOCK, 0);
        page.write_u16(BTREE_HEADER_OFFSET_CELL_COUNT, 0);
        page.write_u16(BTREE_HEADER_OFFSET_CELL_CONTENT, cell_content_area_start as u16);
        page.write_u8(BTREE_HEADER_OFFSET_FRAGMENTED, 0);
        page.write_u32(BTREE_HEADER_OFFSET_RIGHTMOST, 0);
    }

    /// Finds where the page `parent` names its child `id`.
    pub fn find_child_slot(&self, parent: &PageContent, id: usize) -> (slot: usize)
        requires
            header_ok(self@.header),
            parent@.sized(self@.header.page_size as int),
            parent@.page_type() is Some,
            child_slot(parent@, id as int, self@.usable(), 0) is Some,
        ensures
            child_slot(parent@, id as int, self@.usable(), 0) == Some(slot as int),
    {
        let usable = self.usable_space();
        let count = parent.cell_count();
        let mut cell_idx: usize = 0;
        let ghost whole = child_slot(parent@, id as int, self@.usable(), 0);
        while cell_idx < count
            invariant
                header_ok(self@.header),
                usable == self@.usable(),
                parent@.sized(self@.header.page_size as int),
                parent@.page_type() is Some,
                count == parent@.cell_count(),
                count <= u16::MAX,
                cell_idx <= count,
                whole is Some,
                whole == child_slot(parent@, id as int, self@.usable(), 0),
                whole == child_slot(parent@, id as int, self@.usable(), cell_idx as int),
            decreases count - cell_idx,
        {
            match parent.cell_info(cell_idx, usable) {
                Some(cell) => {
                    if cell.child as usize == id {
                        return parent.cell_get_raw_region(cell_idx, usable).0;
                    }
                },
                None => {
                    assert(false);
                },
            }
            cell_idx += 1;
        }
        BTREE_HEADER_OFFSET_RIGHTMOST
    }
}

} // verus!
