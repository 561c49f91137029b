//! The way from the root down to a leaf.

use vstd::prelude::*;
use crate::cell::{cell_at, BTreeCell, CellModel, Fetch};
use crate::cursor::{
    at_index, lemma_touch_sized, pushed, BTCURSOR_MAX_DEPTH, BTreeCursor, CursorModel, Frame,
};
use crate::errors::StorageError;
use crate::order::{
    int_order, lies_left, order_records, order_row_ids, record_order, CursorResult, KeyModel,
    SeekKey, SeekOp,
};
use crate::page::{leaf_type, PageContent, PageModel};
use crate::pager::{loaded, page_of, PageState, PagerModel};
use crate::record::{parse_record, read_record};

verus! {

/// Where a search goes on from an interior page.
pub enum Route {
    /// To the child left of a cell; the cursor is left at cell `index`.
    Left { index: int, child: int },
    /// To the right-most child: the key lies behind all cells.
    Rightmost,
    /// Nowhere before page `id` is in memory; cell `index` needs it.
    Wait { index: int, id: usize },
    /// Nowhere, because of cell `index`.
    Fail { index: int, error: StorageError },
    /// Nowhere: the key is not of the tree's kind.
    Stray,
}

/// Where a search for `key` goes on from an interior page, once it has passed
/// the first `i` cells. It goes left of the first cell that the key does not
/// lie behind.
pub open spec fn route(
    pages: Map<usize, PageState>,
    page: PageModel,
    key: KeyModel,
    op: SeekOp,
    usable: int,
    i: int,
) -> Route
    decreases page.cell_count() - i,
{
    if i >= page.cell_count() {
        Route::Rightmost
    } else {
        match cell_at(pages, page, i, usable) {
            Fetch::Corrupt => Route::Fail { index: i, error: StorageError::CorruptPage },
            Fetch::Wait(id) => Route::Wait { index: i, id },
            Fetch::Ready(cell) => match (cell, key) {
                (CellModel::TableInterior { child, rowid }, KeyModel::RowId(k)) => if lies_left(
                    int_order(rowid, k),
                    op,
                ) {
                    Route::Left { index: i + 1, child }
                } else {
                    route(pages, page, key, op, usable, i + 1)
                },
                (CellModel::IndexInterior { child, payload }, KeyModel::Index(k)) => match
                parse_record(payload) {
                    None => Route::Fail { index: i, error: StorageError::CorruptRecord },
                    Some(record) => if lies_left(record_order(record, k), op) {
                        Route::Left { index: i, child }
                    } else {
                        route(pages, page, key, op, usable, i + 1)
                    },
                },
                _ => Route::Stray,
            },
        }
    }
}

/// How a way down ends.
pub enum Landing {
    /// On a leaf.
    Leaf,
    /// On a page that is not in memory, or on one that needs it.
    Wait(usize),
    Fail(StorageError),
    /// The key is not of the tree's kind.
    Stray,
}

/// A way down and how it ends.
pub struct Descent {
    pub stack: Seq<Frame>,
    pub end: Landing,
}

/// The way down to the leaf where `key` belongs, from the top of the stack.
pub open spec fn descend(
    pages: Map<usize, PageState>,
    stack: Seq<Frame>,
    key: KeyModel,
    op: SeekOp,
    usable: int,
) -> Descent
    decreases BTCURSOR_MAX_DEPTH + 1 - stack.len(),
{
    let id = stack.last().page;
    let page = page_of(pages, id);
    if stack.len() == 0 {
        Descent { stack, end: Landing::Stray }
    } else if !loaded(pages, id) {
        Descent { stack, end: Landing::Wait(id) }
    } else if page.page_type() is None {
        Descent { stack, end: Landing::Fail(StorageError::CorruptPage) }
    } else if leaf_type(page.kind()) {
        Descent { stack, end: Landing::Leaf }
    } else {
        match route(pages, page, key, op, usable, 0) {
            Route::Left { index, child } => {
                let left = at_index(stack, index);
                if stack.len() > BTCURSOR_MAX_DEPTH {
                    Descent { stack: left, end: Landing::Fail(StorageError::TreeTooDeep) }
                } else {
                    descend(pages, pushed(left, child), key, op, usable)
                }
            },
            Route::Rightmost => {
                let left = at_index(stack, page.cell_count());
                if stack.len() > BTCURSOR_MAX_DEPTH {
                    Descent { stack: left, end: Landing::Fail(StorageError::TreeTooDeep) }
                } else {
                    descend(pages, pushed(left, page.rightmost()), key, op, usable)
                }
            },
            Route::Wait { index, id } => Descent {
                stack: at_index(stack, index),
                end: Landing::Wait(id),
            },
            Route::Fail { index, error } => Descent {
                stack: at_index(stack, index),
                end: Landing::Fail(error),
            },
            Route::Stray => Descent { stack, end: Landing::Stray },
        }
    }
}

/// The stack of a cursor at the root.
pub open spec fn root_stack(root: usize) -> Seq<Frame> {
    seq![Frame { page: root, index: 0 }]
}

impl CursorModel {
    /// The way from the root to the leaf where `key` belongs.
    pub open spec fn descent(self, key: KeyModel, op: SeekOp) -> Descent {
        descend(self.pages(), root_stack(self.root_page), key, op, self.usable())
    }

    /// The cursor after that way.
    pub open spec fn moved(self, d: Descent) -> CursorModel {
        CursorModel { pager: awaiting(self.pager, d.end), stack: d.stack, ..self }
    }

    /// The way from the root to the right-most leaf.
    pub open spec fn right_edge(self) -> Descent {
        descend_right(self.pages(), root_stack(self.root_page))
    }
}

/// The pager, once the page that the way down waits for was asked for.
pub open spec fn awaiting(pager: PagerModel, end: Landing) -> PagerModel {
    match end {
        Landing::Wait(id) => pager.touch(id),
        _ => pager,
    }
}

/// Whether `r` tells how a way down ends.
pub open spec fn tells_landing(
    end: Landing,
    r: Result<CursorResult<()>, StorageError>,
) -> bool {
    match end {
        Landing::Leaf => r is Ok && r->Ok_0 is Done,
        Landing::Wait(_) => r is Ok && r->Ok_0 is IO,
        Landing::Fail(e) => r is Err && r->Err_0 == e,
        Landing::Stray => false,
    }
}

/// The way down to the right-most leaf, from the top of the stack.
pub open spec fn descend_right(pages: Map<usize, PageState>, stack: Seq<Frame>) -> Descent
    decreases BTCURSOR_MAX_DEPTH + 1 - stack.len(),
{
    let id = stack.last().page;
    let page = page_of(pages, id);
    if stack.len() == 0 {
        Descent { stack, end: Landing::Stray }
    } else if !loaded(pages, id) {
        Descent { stack, end: Landing::Wait(id) }
    } else if page.page_type() is None {
        Descent { stack, end: Landing::Fail(StorageError::CorruptPage) }
    } else if leaf_type(page.kind()) {
        if page.cell_count() > 0 {
            Descent { stack: at_index(stack, page.cell_count() - 1), end: Landing::Leaf }
        } else {
            Descent { stack, end: Landing::Leaf }
        }
    } else {
        let left = at_index(stack, page.cell_count());
        if stack.len() > BTCURSOR_MAX_DEPTH {
            Descent { stack: left, end: Landing::Fail(StorageError::TreeTooDeep) }
        } else {
            descend_right(pages, pushed(left, page.rightmost()))
        }
    }
}

/// Where a search goes on, as found by reading a page.
enum Turn {
    Down { index: usize, child: u32 },
    Wait { index: usize, id: usize },
    Fail { index: usize, error: StorageError },
}

/// Whether `turn` is what `r` says.
spec fn is_turn(turn: Turn, r: Route, page: PageModel) -> bool {
    match r {
        Route::Left { index, child } => turn == (Turn::Down {
            index: index as usize,
            child: child as u32,
        }) && 0 <= index <= page.cell_count() && 0 <= child <= u32::MAX,
        Route::Rightmost => turn == (Turn::Down {
            index: page.cell_count() as usize,
            child: page.rightmost() as u32,
        }),
        Route::Wait { index, id } => turn == (Turn::Wait { index: index as usize, id }) && 0
            <= index <= page.cell_count(),
        Route::Fail { index, error } => turn == (Turn::Fail { index: index as usize, error }) && 0
            <= index <= page.cell_count(),
        Route::Stray => false,
    }
}

impl BTreeCursor {
    /// Finds where a search goes on from the interior page `page`.
    fn choose_child(&self, page: &PageContent, key: SeekKey<'_>, op: SeekOp) -> (turn: Turn)
        requires
            self@.inv(),
            page@.sized(self@.header.page_size as int),
            page@.page_type() is Some,
            !leaf_type(page@.kind()),
            !(route(self@.pages(), page@, key@, op, self@.usable(), 0) is Stray),
        ensures
            is_turn(turn, route(self@.pages(), page@, key@, op, self@.usable(), 0), page@),
    {
        let usable = self.usable_space();
        let count = page.cell_count();
        let mut cell_idx: usize = 0;
        let ghost whole = route(self@.pages(), page@, key@, op, self@.usable(), 0);
        while cell_idx < count
            invariant
                self@.inv(),
                usable == self@.usable(),
                page@.sized(self@.header.page_size as int),
                page@.page_type() is Some,
                count == page@.cell_count(),
                count <= u16::MAX,
                cell_idx <= count,
                whole == route(self@.pages(), page@, key@, op, self@.usable(), 0),
                whole == route(
                    self@.pages(),
                    page@,
                    key@,
                    op,
                    self@.usable(),
                    cell_idx as int,
                ),
                !(whole is Stray),
            decreases count - cell_idx,
        {
            match page.cell_get(cell_idx, &self.pager, usable) {
                Fetch::Corrupt => {
                    return Turn::Fail { index: cell_idx, error: StorageError::CorruptPage };
                },
                Fetch::Wait(id) => {
                    return Turn::Wait { index: cell_idx, id };
                },
                Fetch::Ready(BTreeCell::TableInteriorCell { left_child_page, rowid }) => match key {
                    SeekKey::TableRowId(rowid_key) => {
                        let target_leaf_page_is_in_left_subtree = op.goes_left(
                            order_row_ids(rowid, rowid_key),
                        );
                        if target_leaf_page_is_in_left_subtree {
                            return Turn::Down { index: cell_idx + 1, child: left_child_page };
                        }
                    },
                    SeekKey::IndexKey(_) => {
                        assert(false);
                    },
                },
                Fetch::Ready(BTreeCell::IndexInteriorCell { left_child_page, payload }) => match key {
                    SeekKey::IndexKey(index_key) => {
                        let record = match read_record(payload.as_slice()) {
                            Ok(record) => record,
                            Err(error) => {
                                return Turn::Fail { index: cell_idx, error };
                            },
                        };
                        let target_leaf_page_is_in_the_left_subtree = op.goes_left(
                            order_records(&record, index_key),
                        );
                        if target_leaf_page_is_in_the_left_subtree {
                            return Turn::Down { index: cell_idx, child: left_child_page };
                        }
                    },
                    SeekKey::TableRowId(_) => {
                        assert(false);
                    },
                },
                Fetch::Ready(BTreeCell::TableLeafCell { .. }) => {
                    assert(false);
                },
                Fetch::Ready(BTreeCell::IndexLeafCell { .. }) => {
                    assert(false);
                },
            }
            cell_idx += 1;
        }
        let child: u32 = match page.rightmost_pointer() {
            Some(child) => child,
            None => 0,
        };
        Turn::Down { index: count, child }
    }

    /// Goes from the root to the leaf where `key` belongs.
    ///
    /// Conceptually, each cell of a table's interior page has a row id and a
    /// left child, and the page itself has a right-most child. With the cells
    /// C1 (row id 10), C2 (row id 20) and C3 (row id 30),
    /// - all rows with row ids up to 10 are in the left child of C1,
    /// - all rows with row ids from 11 to 20 are in the left child of C2,
    /// - all rows with row ids from 21 to 30 are in the left child of C3,
    /// - all rows with greater row ids are in the right-most child.
    pub fn move_to(&mut self, key: SeekKey<'_>, op: SeekOp) -> (r: Result<
        CursorResult<()>,
        StorageError,
    >)
        requires
            old(self)@.inv(),
            !(old(self)@.descent(key@, op).end is Stray),
        ensures
            final(self)@.inv(),
            final(self)@ == old(self)@.moved(old(self)@.descent(key@, op)),
            tells_landing(old(self)@.descent(key@, op).end, r),
            old(self)@.descent(key@, op).stack.len() > 0,
    {
        let ghost start = self@;
        let ghost whole = self@.descent(key@, op);
        let ghost size = self@.header.page_size as int;
        self.move_to_root();
        proof {
            lemma_touch_sized(start.pager, start.root_page, size);
        }
        loop
            invariant
                start == old(self)@,
                start.inv(),
                size == start.header.page_size,
                self@.inv(),
                self@.stack.len() > 0,
                self@ == (CursorModel {
                    pager: start.pager.touch(self@.top().page),
                    stack: self@.stack,
                    ..start
                }),
                whole == start.descent(key@, op),
                whole == descend(start.pages(), self@.stack, key@, op, start.usable()),
                !(whole.end is Stray),
            decreases BTCURSOR_MAX_DEPTH + 1 - self@.stack.len(),
        {
            proof {
                lemma_touch_sized(start.pager, self@.top().page, size);
            }
            let page_id = self.top_from_stack();
            let turn = match self.pager.contents(page_id) {
                None => {
                    return Ok(CursorResult::IO);
                },
                Some(contents) => {
                    assert(loaded(start.pages(), page_id));
                    let page_type = match contents.page_type() {
                        Ok(t) => t,
                        Err(e) => {
                            return Err(e);
                        },
                    };
                    if page_type.is_leaf() {
                        return Ok(CursorResult::Done(()));
                    }
                    self.choose_child(contents, key, op)
                },
            };
            assert(self@.pager == start.pager);
            match turn {
                Turn::Down { index, child } => {
                    self.set_index(index);
                    if self.stack.len() > BTCURSOR_MAX_DEPTH {
                        return Err(StorageError::TreeTooDeep);
                    }
                    self.pager.read_page(child as usize);
                    proof {
                        lemma_touch_sized(start.pager, child as usize, size);
                    }
                    self.push_to_stack(child as usize);
                },
                Turn::Wait { index, id } => {
                    self.set_index(index);
                    self.pager.read_page(id);
                    proof {
                        lemma_touch_sized(start.pager, id, size);
                    }
                    return Ok(CursorResult::IO);
                },
                Turn::Fail { index, error } => {
                    self.set_index(index);
                    return Err(error);
                },
            }
        }
    }

    /// Goes from the root to the last cell of the right-most leaf.
    pub fn move_to_rightmost(&mut self) -> (r: Result<CursorResult<()>, StorageError>)
        requires
            old(self)@.inv(),
        ensures
            final(self)@.inv(),
            final(self)@ == old(self)@.moved(old(self)@.right_edge()),
            tells_landing(old(self)@.right_edge().end, r),
            old(self)@.right_edge().stack.len() > 0,
    {
        let ghost start = self@;
        let ghost whole = self@.right_edge();
        let ghost size = self@.header.page_size as int;
        self.move_to_root();
        proof {
            lemma_touch_sized(start.pager, start.root_page, size);
        }
        loop
            invariant
                start == old(self)@,
                start.inv(),
                size == start.header.page_size,
                self@.inv(),
                self@.stack.len() > 0,
                self@ == (CursorModel {
                    pager: start.pager.touch(self@.top().page),
                    stack: self@.stack,
                    ..start
                }),
                whole == start.right_edge(),
                whole == descend_right(start.pages(), self@.stack),
            decreases BTCURSOR_MAX_DEPTH + 1 - self@.stack.len(),
        {
            proof {
                lemma_touch_sized(start.pager, self@.top().page, size);
            }
            let page_id = self.top_from_stack();
            let (is_leaf, count, right_most_pointer): (bool, usize, Option<u32>) = match self.pager.contents(
                page_id,
            ) {
                None => {
                    return Ok(CursorResult::IO);
                },
                Some(page) => {
                    assert(loaded(start.pages(), page_id));
                    match page.page_type() {
                        Ok(t) => (t.is_leaf(), page.cell_count(), page.rightmost_pointer()),
                        Err(e) => {
                            return Err(e);
                        },
                    }
                },
            };
            assert(self@.pager == start.pager);
            if is_leaf {
                if count > 0 {
                    self.set_index(count - 1);
                }
                return Ok(CursorResult::Done(()));
            }
            match right_most_pointer {
                Some(child) => {
                    self.set_index(count);
                    if self.stack.len() > BTCURSOR_MAX_DEPTH {
                        return Err(StorageError::TreeTooDeep);
                    }
                    self.pager.read_page(child as usize);
                    proof {
                        lemma_touch_sized(start.pager, child as usize, size);
                    }
                    self.push_to_stack(child as usize);
                },
                None => {
                    assert(false);
                    return Err(StorageError::CorruptPage);
                },
            }
        }
    }

    /// Whether the root page has no cells.
    pub fn is_empty_table(&mut self) -> (r: Result<CursorResult<bool>, StorageError>)
        requires
            old(self)@.inv(),
        ensures
            final(self)@.inv(),
            final(self)@ == (CursorModel {
                pager: old(self)@.pager.touch(old(self).root_page),
                ..old(self)@
            }),
            r is Ok,
            match r->Ok_0 {
                CursorResult::IO => !loaded(old(self)@.pages(), old(self).root_page),
                CursorResult::Done(empty) => loaded(old(self)@.pages(), old(self).root_page)
                    && empty == (page_of(old(self)@.pages(), old(self).root_page).cell_count()
                    == 0),
            },
    {
        let root: usize = self.root_page;
        proof {
            lemma_touch_sized(self@.pager, root, self@.header.page_size as int);
        }
        self.pager.read_page(root);
        match self.pager.contents(root) {
            None => Ok(CursorResult::IO),
            Some(page) => {
                assert(loaded(old(self)@.pages(), root));
                Ok(CursorResult::Done(page.cell_count() == 0))
            },
        }
    }
}

} // verus!
