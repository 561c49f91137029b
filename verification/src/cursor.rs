//! The cursor and its place in the tree.

use vstd::prelude::*;
use crate::page::{max_local, max_local_of, min_local, min_local_of, usable_ok, PageType};
use crate::pager::{loaded, page_of, DatabaseHeader, PageState, Pager, PagerModel};
use crate::record::{OwnedRecord, ValueModel};

verus! {

/// The greatest depth of a tree below its root. A tree that appears to be
/// deeper is taken to be corrupt.
pub const BTCURSOR_MAX_DEPTH: usize = 20;

/// A page on the way from the root, and the cell of it at which the cursor is.
#[derive(Clone, Copy, Debug, PartialEq, Eq, Structural)]
pub struct Frame {
    pub page: usize,
    pub index: usize,
}

/// How far the insertion of a row has come.
#[derive(Clone, Copy, Debug, PartialEq, Eq, Structural)]
pub enum WriteState {
    Start,
    BalanceStart,
    BalanceGetParentPage,
    BalanceMoveUp,
    Finish,
}

/// What an insertion keeps between its steps.
pub struct WriteInfo {
    pub state: WriteState,
    /// The pages that share the cells of a page that is being split.
    pub new_pages: Vec<usize>,
    /// The cells of that page, in order.
    pub scratch_cells: Vec<Vec<u8>>,
    /// The right-most child of that page.
    pub rightmost_pointer: Option<u32>,
}

/// A place in a table's or an index's tree.
pub struct BTreeCursor {
    pub pager: Pager,
    pub root_page: usize,
    pub rowid: Option<u64>,
    pub record: Option<OwnedRecord>,
    pub null_flag: bool,
    pub database_header: DatabaseHeader,
    /// Whether the cursor came to its page from below.
    pub going_upwards: bool,
    pub write_info: WriteInfo,
    /// The pages from the root down to the one at which the cursor is.
    pub stack: Vec<Frame>,
}

/// What a [`BTreeCursor`] stands for.
#[verifier::ext_equal]
pub struct CursorModel {
    pub pager: PagerModel,
    pub root_page: usize,
    pub rowid: Option<u64>,
    pub record: Option<Seq<ValueModel>>,
    pub null_flag: bool,
    pub header: DatabaseHeader,
    pub going_upwards: bool,
    pub state: WriteState,
    pub new_pages: Seq<usize>,
    pub scratch_cells: Seq<Seq<u8>>,
    pub rightmost_pointer: Option<u32>,
    pub stack: Seq<Frame>,
}

impl View for BTreeCursor {
    type V = CursorModel;

    open spec fn view(&self) -> CursorModel {
        CursorModel {
            pager: self.pager@,
            root_page: self.root_page,
            rowid: self.rowid,
            record: match self.record {
                Some(r) => Some(r@),
                None => None,
            },
            null_flag: self.null_flag,
            header: self.database_header,
            going_upwards: self.going_upwards,
            state: self.write_info.state,
            new_pages: self.write_info.new_pages@,
            scratch_cells: Seq::new(
                self.write_info.scratch_cells@.len(),
                |i: int| self.write_info.scratch_cells@[i]@,
            ),
            rightmost_pointer: self.write_info.rightmost_pointer,
            stack: self.stack@,
        }
    }
}

/// A header that leaves some bytes of a page unused, if any, and not more than
/// there are.
pub open spec fn header_fits(h: DatabaseHeader) -> bool {
    h.unused_space <= h.page_size
}

/// A header under which trees can be read and written.
pub open spec fn header_ok(h: DatabaseHeader) -> bool {
    usable_ok(h.usable())
}

/// A stack of pages that the pager knows.
pub open spec fn stack_ok(stack: Seq<Frame>, pages: Map<usize, PageState>) -> bool {
    &&& stack.len() <= BTCURSOR_MAX_DEPTH + 1
    &&& forall|i: int|
        0 <= i < stack.len() ==> {
            &&& pages.contains_key((#[trigger] stack[i]).page)
            &&& stack[i].index <= u16::MAX + 1
        }
}

impl CursorModel {
    /// What holds of every cursor between two calls.
    pub open spec fn inv(self) -> bool {
        &&& header_ok(self.header)
        &&& self.pager.sized(self.header.page_size as int)
        &&& stack_ok(self.stack, self.pager.pages)
    }

    /// The usable bytes of a page.
    pub open spec fn usable(self) -> int {
        self.header.usable()
    }

    /// The pages in memory.
    pub open spec fn pages(self) -> Map<usize, PageState> {
        self.pager.pages
    }

    /// The frame of the page at which the cursor is.
    pub open spec fn top(self) -> Frame {
        self.stack.last()
    }

    /// The cursor with another stack.
    pub open spec fn with_stack(self, stack: Seq<Frame>) -> CursorModel {
        CursorModel { stack, ..self }
    }
}

/// The stack with its top frame at cell `index`.
pub open spec fn at_index(stack: Seq<Frame>, index: int) -> Seq<Frame> {
    stack.update(stack.len() - 1, Frame { page: stack.last().page, index: index as usize })
}

/// Taking a page from the stack undoes putting it there.
pub proof fn push_then_pop(stack: Seq<Frame>, page: int)
    ensures
        pushed(stack, page).drop_last() == stack,
        pushed(stack, page).len() == stack.len() + 1,
{
    assert(pushed(stack, page).drop_last() =~= stack);
}

/// The stack with `page` on top, at its first cell.
pub open spec fn pushed(stack: Seq<Frame>, page: int) -> Seq<Frame> {
    stack.push(Frame { page: page as usize, index: 0 })
}

impl BTreeCursor {
    /// A cursor that stands nowhere yet, on the tree whose root is `root_page`.
    pub fn new(pager: Pager, root_page: usize, database_header: DatabaseHeader) -> (c: BTreeCursor)
        ensures
            c@ == (CursorModel {
                pager: pager@,
                root_page,
                rowid: None,
                record: None,
                null_flag: false,
                header: database_header,
                going_upwards: false,
                state: WriteState::Start,
                new_pages: Seq::empty(),
                scratch_cells: Seq::empty(),
                rightmost_pointer: None,
                stack: Seq::empty(),
            }),
    {
        let c = BTreeCursor {
            pager,
            root_page,
            rowid: None,
            record: None,
            null_flag: false,
            database_header,
            going_upwards: false,
            write_info: WriteInfo {
                state: WriteState::Start,
                new_pages: Vec::new(),
                scratch_cells: Vec::new(),
                rightmost_pointer: None,
            },
            stack: Vec::new(),
        };
        assert(c@.scratch_cells =~= Seq::empty());
        c
    }

    /// The bytes of a page that are used.
    pub fn usable_space(&self) -> (n: usize)
        requires
            header_fits(self@.header),
        ensures
            n == self@.usable(),
            n + self@.header.unused_space == self@.header.page_size,
    {
        (self.database_header.page_size - self.database_header.unused_space as u16) as usize
    }

    /// The longest payload that stands on a page of the type as a whole.
    pub fn max_local(&self, page_type: PageType) -> (n: usize)
        requires
            header_ok(self@.header),
        ensures
            n == max_local(page_type, self@.usable()),
    {
        max_local_of(page_type, self.usable_space())
    }

    /// The least part of a longer payload that stands on the page; it is the
    /// same for all types of pages.
    pub fn min_local(&self, _page_type: PageType) -> (n: usize)
        requires
            header_ok(self@.header),
        ensures
            n == min_local(self@.usable()),
    {
        min_local_of(self.usable_space())
    }

    /// Goes to the root.
    pub fn move_to_root(&mut self)
        requires
            old(self)@.inv(),
        ensures
            final(self)@.inv(),
            final(self)@ == (CursorModel {
                pager: old(self)@.pager.touch(old(self).root_page),
                stack: seq![Frame { page: old(self).root_page, index: 0 }],
                ..old(self)@
            }),
    {
        let root: usize = self.root_page;
        self.pager.read_page(root);
        self.stack = Vec::new();
        self.stack.push(Frame { page: root, index: 0 });
        proof {
            lemma_touch_sized(old(self)@.pager, root, self@.header.page_size as int);
        }
        assert(self@.stack =~= seq![Frame { page: old(self).root_page, index: 0 }]);
    }

    /// Goes down to page `page`.
    pub fn push_to_stack(&mut self, page: usize)
        requires
            old(self)@.inv(),
            old(self)@.pages().contains_key(page),
            old(self)@.stack.len() <= BTCURSOR_MAX_DEPTH,
        ensures
            final(self)@.inv(),
            final(self)@ == old(self)@.with_stack(pushed(old(self)@.stack, page as int)),
    {
        self.stack.push(Frame { page, index: 0 });
    }

    /// Goes back up to the parent page.
    pub fn pop_from_stack(&mut self)
        requires
            old(self)@.inv(),
            old(self)@.stack.len() > 0,
        ensures
            final(self)@.inv(),
            final(self)@ == old(self)@.with_stack(old(self)@.stack.drop_last()),
    {
        self.stack.pop();
        assert(self@.stack =~= old(self)@.stack.drop_last());
    }

    /// The page at which the cursor is.
    pub fn top_from_stack(&self) -> (page: usize)
        requires
            self@.stack.len() > 0,
        ensures
            page == self@.top().page,
    {
        self.stack[self.stack.len() - 1].page
    }

    /// The page above the one at which the cursor is.
    pub fn parent(&self) -> (page: usize)
        requires
            self@.stack.len() > 1,
        ensures
            page == self@.stack[self@.stack.len() - 2].page,
    {
        self.stack[self.stack.len() - 2].page
    }

    /// How far below the root the cursor is.
    pub fn current(&self) -> (n: usize)
        requires
            self@.stack.len() > 0,
        ensures
            n == self@.stack.len() - 1,
    {
        self.stack.len() - 1
    }

    /// The cell at which the cursor is on its page.
    pub fn current_index(&self) -> (i: usize)
        requires
            self@.stack.len() > 0,
        ensures
            i == self@.top().index,
    {
        let current = self.current();
        self.stack[current].index
    }

    /// Goes to cell `index` of the page.
    pub fn set_index(&mut self, index: usize)
        requires
            old(self)@.inv(),
            old(self)@.stack.len() > 0,
            index <= u16::MAX + 1,
        ensures
            final(self)@.inv(),
            final(self)@ == old(self)@.with_stack(at_index(old(self)@.stack, index as int)),
    {
        let current = self.current();
        let page: usize = self.stack[current].page;
        self.stack.set(current, Frame { page, index });
    }

    /// Goes to the next cell of the page.
    pub fn advance(&mut self)
        requires
            old(self)@.inv(),
            old(self)@.stack.len() > 0,
            old(self)@.top().index <= u16::MAX,
        ensures
            final(self)@.inv(),
            final(self)@ == old(self)@.with_stack(
                at_index(old(self)@.stack, old(self)@.top().index + 1),
            ),
    {
        let index = self.current_index();
        self.set_index(index + 1);
    }

    /// Whether the page has a parent.
    pub fn has_parent(&self) -> (b: bool)
        ensures
            b == (self@.stack.len() > 1),
    {
        self.stack.len() > 1
    }
}

/// Asking for a page changes no page in memory.
pub proof fn lemma_touch_sized(pager: PagerModel, id: usize, page_size: int)
    requires
        pager.sized(page_size),
    ensures
        pager.touch(id).sized(page_size),
        pager.touch(id).pages.contains_key(id),
        forall|k: usize| #[trigger]
            loaded(pager.touch(id).pages, k) <==> loaded(pager.pages, k),
        forall|k: usize| #[trigger]
            loaded(pager.pages, k) ==> page_of(pager.touch(id).pages, k) == page_of(
                pager.pages,
                k,
            ),
        forall|k: usize| #[trigger]
            pager.pages.contains_key(k) ==> pager.touch(id).pages.contains_key(k),
{
    assert forall|k: usize| #[trigger] loaded(pager.touch(id).pages, k) <==> loaded(
        pager.pages,
        k,
    ) by {}
}

} // verus!
