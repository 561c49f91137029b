//! The steps of an insertion.

use vstd::prelude::*;
use crate::balance::{
    cells_view, lemma_filled_sized, lemma_inserted_sized, lemma_spilled_frame, lemma_write_nearer,
    Written,
};
use crate::bytes::push_u32;
use crate::cursor::{BTreeCursor, CursorModel, Frame, WriteState};
use crate::errors::StorageError;
use crate::fill::{lemma_store_inv, spill};
use crate::order::CursorResult;
use crate::page::{
    lemma_limits, read_cell_head, BTREE_HEADER_OFFSET_CELL_COUNT, BTREE_HEADER_OFFSET_RIGHTMOST,
    PageModel, PageType,
};
use crate::pager::{loaded, page_of, PageState, PagerModel};
use crate::record::{as_unsigned, record_bytes, to_unsigned, OwnedRecord, OwnedValue, ValueModel};
use crate::varint::write_varint_to_vec;

verus! {

/// A page that was taken out and put back changed is stored.
proof fn lemma_take_put(pager: PagerModel, id: usize, page: PageModel)
    ensures
        (PagerModel {
            pages: pager.pages.insert(
                id,
                PageState { dirty: pager.pages[id].dirty, contents: None },
            ),
            ..pager
        }).store(id, page) == pager.store(id, page),
{
    let out = PagerModel {
        pages: pager.pages.insert(id, PageState { dirty: pager.pages[id].dirty, contents: None }),
        ..pager
    };
    assert(out.store(id, page).pages =~= pager.store(id, page).pages);
}

/// Marking a page keeps what holds of every cursor.
proof fn lemma_mark_inv(c: CursorModel, id: usize)
    requires
        c.inv(),
        c.pages().contains_key(id),
    ensures
        (CursorModel { pager: c.pager.mark(id), ..c }).inv(),
        c.touching(id).inv(),
        forall|k: usize| #[trigger] loaded(c.pager.mark(id).pages, k) == loaded(c.pages(), k),
        forall|k: usize| #[trigger]
            loaded(c.pages(), k) ==> page_of(c.pager.mark(id).pages, k) == page_of(c.pages(), k),
{
    let size = c.header.page_size as int;
    assert forall|k: usize| #[trigger] loaded(c.pager.mark(id).pages, k) == loaded(
        c.pages(),
        k,
    ) by {}
    assert forall|k: usize| #[trigger] loaded(c.pager.mark(id).pages, k) implies page_of(
        c.pager.mark(id).pages,
        k,
    ).sized(size) by {
        assert(loaded(c.pages(), k));
    }
    assert forall|k: usize| #[trigger] loaded(c.touching(id).pager.pages, k) implies page_of(
        c.touching(id).pager.pages,
        k,
    ).sized(size) by {
        assert(loaded(c.pages(), k));
    }
}

/// An insertion goes on after a step as it was to go on before it.
proof fn lemma_written_step(c: CursorModel, rowid: u64, record: Seq<ValueModel>)
    requires
        c.written(rowid, record).ok,
    ensures
        c.write_ok(rowid, record),
        c.write_waits() ==> c.written(rowid, record) == (Written {
            cursor: c,
            waits: true,
            ok: true,
        }),
        !c.write_waits() && c.state == WriteState::Finish ==> c.written(rowid, record) == (
        Written { cursor: c.in_state(WriteState::Start), waits: false, ok: true }),
        !c.write_waits() && c.state != WriteState::Finish ==> {
            let d = c.write_step(rowid, record);
            &&& d.written(rowid, record) == c.written(rowid, record)
            &&& 0 <= d.steps_left() < c.steps_left()
        },
{
    if c.write_ok(rowid, record) && !c.write_waits() && c.state != WriteState::Finish {
        lemma_write_nearer(c, rowid, record);
    }
}

impl BTreeCursor {
    /// Gives the tree a new root above the page at which the cursor is.
    pub fn balance_root(&mut self)
        requires
            old(self)@.inv(),
            old(self)@.new_root_ok(),
        ensures
            final(self)@.inv(),
            final(self)@ == old(self)@.with_new_root(),
    {
        // if we are in root page then we just need to create a new root and
        // push key there
        let ghost start = self@;
        let ghost size = start.header.page_size as int;
        let root = self.top_from_stack();
        assert(start.stack[start.stack.len() - 1].page == root);
        let id = self.allocate_page(PageType::TableInterior);
        let ghost added = self@;
        let mut contents = self.pager.take(id);
        proof {
            lemma_limits(start.usable());
            assert(loaded(added.pages(), id));
        }
        // point new root right child to previous root
        contents.write_u32(BTREE_HEADER_OFFSET_RIGHTMOST, id as u32);
        contents.write_u16(BTREE_HEADER_OFFSET_CELL_COUNT, 0);
        let ghost top = contents@;
        self.pager.put(id, contents);
        // swap the page with the new root so we don't have to update the
        // root's number
        self.pager.swap_pages(root, id);
        self.pager.add_dirty(root);
        self.pager.add_dirty(id);
        self.root_page = root;
        self.stack = Vec::new();
        self.stack.push(Frame { page: root, index: 0 });
        self.stack.push(Frame { page: id, index: 0 });
        proof {
            let want = start.with_new_root();
            assert(self@.pager.pages =~= want.pager.pages);
            assert(self@.stack =~= want.stack);
            assert(self@ =~= want);
            assert forall|k: usize| #[trigger] loaded(self@.pager.pages, k) implies page_of(
                self@.pager.pages,
                k,
            ).sized(size) by {
                if k == id {
                    assert(loaded(start.pages(), root));
                } else if k != root {
                    assert(loaded(start.pages(), k));
                }
            }
        }
    }

    /// Makes the page ready to share its cells with a new page.
    fn begin_split(&mut self)
        requires
            old(self)@.inv(),
            old(self)@.split_ok(),
        ensures
            final(self)@.inv(),
            final(self)@ == old(self)@.split_begun(),
    {
        let ghost start = self@;
        let current_page = self.top_from_stack();
        assert(loaded(start.pages(), current_page));
        let (scratch_cells, page_type, rightmost): (Vec<Vec<u8>>, PageType, Option<u32>) =
            match self.pager.contents(current_page) {
            Some(page) => (self.gather_cells(page), page.kind(), page.rightmost_pointer()),
            None => (Vec::new(), PageType::TableLeaf, None),
        };
        self.write_info.scratch_cells = scratch_cells;
        self.write_info.rightmost_pointer = rightmost;
        assert(self@.scratch_cells =~= cells_view(scratch_cells@));
        // allocate new page
        let right_page = self.allocate_page(page_type);
        self.write_info.new_pages = Vec::new();
        self.write_info.new_pages.push(current_page);
        self.write_info.new_pages.push(right_page);
        self.write_info.state = WriteState::BalanceGetParentPage;
        proof {
            assert(self@.new_pages =~= start.split_begun().new_pages);
            assert(self@ =~= start.split_begun());
        }
    }

    /// Shares the cells between the two pages and tells the parent of it.
    #[verifier::rlimit(40)]
    fn move_up(&mut self)
        requires
            old(self)@.inv(),
            old(self)@.move_up_ok(),
        ensures
            final(self)@.inv(),
            final(self)@ == old(self)@.moved_up(),
    {
        let ghost start = self@;
        let ghost size = start.header.page_size as int;
        let ghost usable = start.usable();
        proof {
            lemma_limits(usable);
        }
        let parent_id = self.parent();
        let left_id: usize = self.write_info.new_pages[0];
        let right_id: usize = self.write_info.new_pages[1];
        assert(start.stack[start.stack.len() - 2].page == parent_id);
        self.pager.set_dirty(parent_id);
        self.pager.add_dirty(parent_id);
        proof {
            lemma_mark_inv(start, parent_id);
            assert(loaded(start.pages(), parent_id));
            assert(loaded(start.pages(), left_id));
            assert(loaded(start.pages(), right_id));
        }
        let mut parent = self.pager.take(parent_id);
        let mut left = self.pager.take(left_id);
        let mut right = self.pager.take(right_id);
        assert(parent@ == start.parent_page());
        assert(left@ == page_of(start.pages(), left_id));
        assert(right@ == page_of(start.pages(), right_id));
        // right page pointer is the right-most pointer, or in the cell that
        // points to the page
        let right_pointer = self.find_child_slot(&parent, self.top_from_stack());
        // reset pages
        let page_type = left.kind();
        self.empty_page(&mut left);
        self.empty_page(&mut right);
        // distribute cells; of an interior page, the last cell of the left half
        // goes up to the parent
        let n: usize = self.write_info.scratch_cells.len();
        let half: usize = n / 2;
        let left_share: usize = if page_type.is_leaf() {
            half
        } else {
            half - 1
        };
        let ghost cells = cells_view(self.write_info.scratch_cells@);
        proof {
            assert(cells =~= start.scratch_cells);
            assert(cells.subrange(0, left_share as int) =~= cells.take(left_share as int));
            assert(cells.subrange(half as int, n as int) =~= cells.skip(half as int));
            lemma_filled_sized(left@, cells.take(left_share as int), usable, size);
            lemma_filled_sized(right@, cells.skip(half as int), usable, size);
        }
        self.fill_page(&mut left, &self.write_info.scratch_cells, 0, left_share);
        self.fill_page(&mut right, &self.write_info.scratch_cells, half, n);
        assert(left@ == start.left_page());
        assert(right@ == start.right_page());
        // read the cell between the halves
        assert(cells[half - 1] == self.write_info.scratch_cells@[half - 1]@);
        let (key, last_cell_pointer): (u64, u32) = match read_cell_head(
            self.write_info.scratch_cells[half - 1].as_slice(),
            page_type,
            0,
            self.usable_space(),
        ) {
            Some(cell) => (cell.rowid, cell.child),
            None => (0, 0),
        };
        assert(key == start.divider_key());
        // update right-most pointers if the page is an interior one
        if !page_type.is_leaf() {
            left.write_u32(BTREE_HEADER_OFFSET_RIGHTMOST, last_cell_pointer);
            // the right page points to the right-most child before the split
            let rightmost: u32 = match self.write_info.rightmost_pointer {
                Some(pointer) => pointer,
                None => 0,
            };
            right.write_u32(BTREE_HEADER_OFFSET_RIGHTMOST, rightmost);
        }
        assert(left@ == start.left_after());
        assert(right@ == start.right_after());
        // insert divider in parent
        let mut divider_cell: Vec<u8> = Vec::new();
        push_u32(&mut divider_cell, left_id as u32);
        write_varint_to_vec(key, &mut divider_cell);
        assert(divider_cell@ =~= start.divider());
        let parent_cell_idx = self.find_cell(&parent, key);
        proof {
            lemma_inserted_sized(
                parent@,
                divider_cell@,
                parent_cell_idx as int,
                usable,
                size,
            );
        }
        self.insert_into_cell(&mut parent, divider_cell.as_slice(), parent_cell_idx);
        assert(parent@ == start.parent_divided());
        // copy last page id to right pointer
        parent.write_u32(right_pointer, right_id as u32);
        assert(parent@ == start.parent_after());
        let ghost parent_model = parent@;
        let ghost left_model = left@;
        let ghost right_model = right@;
        self.pager.put(left_id, left);
        self.pager.put(right_id, right);
        self.pager.put(parent_id, parent);
        self.stack.pop();
        self.write_info.state = WriteState::BalanceStart;
        proof {
            let want = start.moved_up();
            assert(self@.stack =~= want.stack);
            assert(self@.pager.pages =~= want.pager.pages);
            assert(self@ =~= want);
            assert forall|k: usize| #[trigger] loaded(self@.pager.pages, k) implies page_of(
                self@.pager.pages,
                k,
            ).sized(size) by {
                if k != parent_id && k != left_id && k != right_id {
                    assert(loaded(start.pages(), k));
                }
            }
        }
    }

    /// Takes one step towards a tree without cells beside their pages.
    ///
    /// This is a naive algorithm that does not try to distribute cells evenly
    /// by content. It splits the page in half by keys.
    pub fn balance_leaf(&mut self) -> (r: Result<CursorResult<()>, StorageError>)
        requires
            old(self)@.inv(),
            old(self)@.balance_ok(),
        ensures
            final(self)@.inv(),
            final(self)@ == old(self)@.balanced(),
            r is Ok,
            r->Ok_0 is IO <==> old(self)@.balance_waits(),
    {
        let ghost start = self@;
        match self.write_info.state {
            WriteState::BalanceStart => {
                let current_page = self.top_from_stack();
                assert(loaded(start.pages(), current_page));
                // don't continue if there are no overflow cells
                let no_overflow: bool = match self.pager.contents(current_page) {
                    Some(page) => page.overflow_cells.len() == 0,
                    None => true,
                };
                if no_overflow {
                    self.write_info.state = WriteState::Finish;
                    assert(self@ =~= start.balanced());
                    return Ok(CursorResult::Done(()));
                }
                if !self.has_parent() {
                    self.balance_root();
                    return Ok(CursorResult::Done(()));
                }
                self.begin_split();
                Ok(CursorResult::Done(()))
            },
            WriteState::BalanceGetParentPage => {
                let parent = self.parent();
                assert(start.stack[start.stack.len() - 2].page == parent);
                if self.pager.is_locked(parent) {
                    return Ok(CursorResult::IO);
                }
                proof {
                    lemma_mark_inv(start, parent);
                }
                self.pager.set_dirty(parent);
                self.write_info.state = WriteState::BalanceMoveUp;
                assert(self@ =~= start.balanced());
                Ok(CursorResult::Done(()))
            },
            _ => {
                self.move_up();
                Ok(CursorResult::Done(()))
            },
        }
    }

    /// Puts a row on the leaf at which the cursor is.
    fn place_row(&mut self, int_key: u64, record: &OwnedRecord)
        requires
            old(self)@.inv(),
            old(self)@.row_ok(int_key, record@),
            loaded(old(self)@.pages(), old(self)@.top().page),
        ensures
            final(self)@.inv(),
            final(self)@ == old(self)@.with_row(int_key, record@),
    {
        let ghost start = self@;
        let ghost size = start.header.page_size as int;
        let ghost usable = start.usable();
        let ghost bytes = record_bytes(record@);
        let page_id = self.top_from_stack();
        assert(start.stack[start.stack.len() - 1].page == page_id);
        // get page and find cell
        let cell_idx: usize = match self.pager.contents(page_id) {
            Some(page) => self.find_cell(page, int_key),
            None => 0,
        };
        self.pager.set_dirty(page_id);
        self.pager.add_dirty(page_id);
        proof {
            lemma_mark_inv(start, page_id);
            assert(self@ =~= start.touching(page_id));
        }
        // insert cell
        let mut cell_payload: Vec<u8> = Vec::new();
        self.fill_cell_payload(PageType::TableLeaf, Some(int_key), &mut cell_payload, record);
        let ghost spilt = self@;
        proof {
            assert(cell_payload@ =~= start.cell_for(int_key, record@));
            lemma_spilled_frame(
                start.touching(page_id).pager,
                spill(PageType::TableLeaf, bytes, usable),
                start.header.database_size + 1,
                usable,
                size,
                page_id,
            );
            assert(page_of(spilt.pages(), page_id) == start.top_page());
            lemma_inserted_sized(
                start.top_page(),
                cell_payload@,
                cell_idx as int,
                usable,
                size,
            );
        }
        // insert
        let mut page = self.pager.take(page_id);
        self.insert_into_cell(&mut page, cell_payload.as_slice(), cell_idx);
        let overflow: usize = page.overflow_cells.len();
        let ghost leaf = page@;
        self.pager.put(page_id, page);
        if overflow > 0 {
            self.write_info.state = WriteState::BalanceStart;
        } else {
            self.write_info.state = WriteState::Finish;
        }
        proof {
            lemma_take_put(spilt.pager, page_id, leaf);
            lemma_store_inv(spilt, page_id, leaf);
            assert(leaf == start.leaf_with(int_key, record@));
            assert(self@ =~= start.with_row(int_key, record@));
        }
    }

    /// Inserts a row at the leaf at which the cursor is, or goes on with an
    /// insertion that had to wait.
    pub fn insert_into_page(&mut self, key: &OwnedValue, record: &OwnedRecord) -> (r: Result<
        CursorResult<()>,
        StorageError,
    >)
        requires
            old(self)@.inv(),
            key is Integer,
            old(self)@.written(to_unsigned(key->Integer_0 as int) as u64, record@).ok,
        ensures
            final(self)@.inv(),
            final(self)@ == old(self)@.written(
                to_unsigned(key->Integer_0 as int) as u64,
                record@,
            ).cursor,
            r is Ok,
            r->Ok_0 is IO <==> old(self)@.written(
                to_unsigned(key->Integer_0 as int) as u64,
                record@,
            ).waits,
    {
        let int_key: u64 = match key {
            OwnedValue::Integer(i) => as_unsigned(*i),
            _ => 0,
        };
        let ghost whole = self@.written(int_key, record@);
        loop
            invariant
                int_key == to_unsigned(key->Integer_0 as int) as u64,
                whole == old(self)@.written(int_key, record@),
                whole.ok,
                self@.inv(),
                whole == self@.written(int_key, record@),
            decreases self@.steps_left(),
        {
            proof {
                lemma_written_step(self@, int_key, record@);
            }
            let ghost before = self@;
            match self.write_info.state {
                WriteState::Start => {
                    let page_id = self.top_from_stack();
                    if self.pager.is_locked(page_id) {
                        return Ok(CursorResult::IO);
                    }
                    self.place_row(int_key, record);
                    assert(self@ == before.write_step(int_key, record@));
                },
                WriteState::Finish => {
                    self.write_info.state = WriteState::Start;
                    assert(self@ =~= before.in_state(WriteState::Start));
                    return Ok(CursorResult::Done(()));
                },
                _ => {
                    match self.balance_leaf() {
                        Ok(CursorResult::IO) => {
                            return Ok(CursorResult::IO);
                        },
                        _ => {},
                    }
                    assert(self@ == before.write_step(int_key, record@));
                },
            }
        }
    }
}

} // verus!
