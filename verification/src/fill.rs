//! New pages, and the bytes of a new cell.

use vstd::prelude::*;
use crate::bytes::{
    append_range, bytes32, clear_range, copy_into, push_u32, set_u32, splice, sub_vec, zeroed,
    zeros,
};
use crate::cursor::{BTreeCursor, CursorModel};
use crate::page::{
    leaf_type, lemma_limits, lemma_spilled_local, max_local, spilled_local, spilled_local_of,
    type_code, BTREE_HEADER_OFFSET_CELL_CONTENT, BTREE_HEADER_OFFSET_CELL_COUNT,
    BTREE_HEADER_OFFSET_FRAGMENTED, BTREE_HEADER_OFFSET_FREEBLOCK, BTREE_HEADER_OFFSET_RIGHTMOST,
    BTREE_HEADER_OFFSET_TYPE, PageModel, PageType,
};
use crate::pager::{blank_page, loaded, page_of, DatabaseHeader, PagerModel};
use crate::record::{record_bytes, record_fits, OwnedRecord};
use crate::varint::{varint_bytes, write_varint_to_vec};

verus! {

/// A page without cells on it: no free block, no fragments, no right-most child,
/// and the content area empty at the end of the usable bytes. The cells beside
/// the page stay there.
pub open spec fn emptied(page: PageModel, usable: int) -> PageModel {
    page.with_u16(1, 0).with_u16(3, 0).with_u16(5, usable).with_u8(7, 0).with_u32(8, 0)
}

/// A new page of type `t`.
pub open spec fn new_tree_page(t: PageType, h: DatabaseHeader) -> PageModel {
    emptied(blank_page(h.page_size as int).with_u8(0, type_code(t)), h.usable())
}

/// The header after `n` pages were added.
pub open spec fn grown_by(h: DatabaseHeader, n: int) -> DatabaseHeader {
    DatabaseHeader { database_size: (h.database_size + n) as u32, ..h }
}

impl CursorModel {
    /// The cursor after `page` was added behind the last page.
    pub open spec fn with_page(self, page: PageModel) -> CursorModel {
        CursorModel {
            pager: self.pager.with_new((self.header.database_size + 1) as usize, page),
            header: grown_by(self.header, 1),
            ..self
        }
    }
}

/// How many overflow pages `len` bytes take.
pub open spec fn pages_for(len: int, usable: int) -> int
    decreases len,
{
    if len <= 0 || usable <= 4 {
        0
    } else if len <= usable - 4 {
        1
    } else {
        1 + pages_for(len - (usable - 4), usable)
    }
}

/// An overflow page: the next page's number, then payload, then zeros.
pub open spec fn overflow_page(next: int, payload: Seq<u8>, page_size: int) -> PageModel {
    blank_page(page_size).with_buf(
        splice(splice(zeros(page_size as nat), 0, bytes32(next)), 4, payload),
    )
}

/// The pager after `rest` was put on new overflow pages, `id` the first.
pub open spec fn spilled(
    pager: PagerModel,
    rest: Seq<u8>,
    id: int,
    usable: int,
    page_size: int,
) -> PagerModel
    decreases rest.len(),
{
    if rest.len() == 0 || usable <= 4 {
        pager
    } else if rest.len() <= usable - 4 {
        pager.with_new(id as usize, overflow_page(0, rest, page_size))
    } else {
        spilled(
            pager.with_new(id as usize, overflow_page(id + 1, rest.take(usable - 4), page_size)),
            rest.skip(usable - 4),
            id + 1,
            usable,
            page_size,
        )
    }
}

/// The start of a new cell: the length of its payload and, in a table, its row id.
pub open spec fn cell_prefix(t: PageType, rowid: Option<u64>, len: int) -> Seq<u8> {
    if t == PageType::TableLeaf {
        varint_bytes(len) + varint_bytes(rowid.unwrap() as int)
    } else {
        varint_bytes(len)
    }
}

/// The bytes of a new cell with `payload`, whose first overflow page, if it
/// needs one, is `id`.
pub open spec fn new_cell(
    t: PageType,
    rowid: Option<u64>,
    payload: Seq<u8>,
    id: int,
    usable: int,
) -> Seq<u8> {
    let len = payload.len() as int;
    cell_prefix(t, rowid, len) + (if len <= max_local(t, usable) {
        payload + zeros(4)
    } else {
        payload.take(spilled_local(len, t, usable)) + bytes32(id)
    })
}

/// What of a payload does not stand in its cell.
pub open spec fn spill(t: PageType, payload: Seq<u8>, usable: int) -> Seq<u8> {
    let len = payload.len() as int;
    if len <= max_local(t, usable) {
        Seq::empty()
    } else {
        payload.skip(spilled_local(len, t, usable))
    }
}

impl CursorModel {
    /// The cursor after the overflow pages of a new cell with `payload` were made.
    pub open spec fn with_spill(self, t: PageType, payload: Seq<u8>) -> CursorModel {
        let rest = spill(t, payload, self.usable());
        CursorModel {
            pager: spilled(
                self.pager,
                rest,
                self.header.database_size + 1,
                self.usable(),
                self.header.page_size as int,
            ),
            header: grown_by(self.header, pages_for(rest.len() as int, self.usable())),
            ..self
        }
    }

    /// Whether the file can grow by the overflow pages of a new cell.
    pub open spec fn spill_ok(self, t: PageType, payload: Seq<u8>) -> bool {
        self.header.database_size + pages_for(
            spill(t, payload, self.usable()).len() as int,
            self.usable(),
        ) <= u32::MAX
    }
}

/// An added page keeps what holds of every cursor.
pub proof fn lemma_with_page_inv(c: CursorModel, page: PageModel)
    requires
        c.inv(),
        c.header.database_size < u32::MAX,
        page.sized(c.header.page_size as int),
    ensures
        c.with_page(page).inv(),
{
    let d = c.with_page(page);
    let id = (c.header.database_size + 1) as usize;
    assert forall|k: usize| #[trigger] loaded(d.pager.pages, k) implies page_of(
        d.pager.pages,
        k,
    ).sized(c.header.page_size as int) by {
        if k != id {
            assert(loaded(c.pager.pages, k));
        }
    }
}

/// A stored page keeps what holds of every cursor.
pub proof fn lemma_store_inv(c: CursorModel, id: usize, page: PageModel)
    requires
        c.inv(),
        page.sized(c.header.page_size as int),
    ensures
        (CursorModel { pager: c.pager.store(id, page), ..c }).inv(),
{
    let d = CursorModel { pager: c.pager.store(id, page), ..c };
    assert forall|k: usize| #[trigger] loaded(d.pager.pages, k) implies page_of(
        d.pager.pages,
        k,
    ).sized(c.header.page_size as int) by {
        if k != id {
            assert(loaded(c.pager.pages, k));
        }
    }
}

/// Overflow pages keep what holds of every cursor.
proof fn lemma_spilled_step(pager: PagerModel, rest: Seq<u8>, id: int, usable: int, page_size: int)
    requires
        rest.len() > 0,
        usable > 4,
    ensures
        ({
            let here = if rest.len() <= usable - 4 {
                rest.len() as int
            } else {
                usable - 4
            };
            let next = if here < rest.len() {
                id + 1
            } else {
                0
            };
            spilled(pager, rest, id, usable, page_size) == spilled(
                pager.with_new(id as usize, overflow_page(next, rest.take(here), page_size)),
                rest.skip(here),
                id + 1,
                usable,
                page_size,
            )
        }),
{
    if rest.len() <= usable - 4 {
        assert(rest.take(rest.len() as int) =~= rest);
        assert(rest.skip(rest.len() as int) =~= Seq::empty());
    }
}

impl BTreeCursor {
    /// Adds an empty page of the type behind the last page.
    pub fn allocate_page(&mut self, page_type: PageType) -> (id: usize)
        requires
            old(self)@.inv(),
            old(self)@.header.database_size < u32::MAX,
        ensures
            final(self)@.inv(),
            id == old(self)@.header.database_size + 1,
            final(self)@ == old(self)@.with_page(new_tree_page(page_type, old(self)@.header)),
    {
        let ghost start = self@;
        let cell_content_area_start = self.usable_space();
        let id = self.pager.allocate_page(&mut self.database_header);
        let mut contents = self.pager.take(id);
        // setup btree page
        contents.write_u8(BTREE_HEADER_OFFSET_TYPE, page_type.code());
        contents.write_u16(BTREE_HEADER_OFFSET_FREEBLOCK, 0);
        contents.write_u16(BTREE_HEADER_OFFSET_CELL_COUNT, 0);
        contents.write_u16(BTREE_HEADER_OFFSET_CELL_CONTENT, cell_content_area_start as u16);
        contents.write_u8(BTREE_HEADER_OFFSET_FRAGMENTED, 0);
        contents.write_u32(BTREE_HEADER_OFFSET_RIGHTMOST, 0);
        let ghost page = contents@;
        self.pager.put(id, contents);
        proof {
            lemma_limits(start.usable());
            let fresh = new_tree_page(page_type, start.header);
            assert(page == fresh);
            assert(self@.pager.pages =~= start.with_page(fresh).pager.pages);
            lemma_with_page_inv(start, fresh);
            assert(self@ =~= start.with_page(fresh));
        }
        id
    }

    /// Adds a page of zeros behind the last page.
    pub fn allocate_overflow_page(&mut self) -> (id: usize)
        requires
            old(self)@.inv(),
            old(self)@.header.database_size < u32::MAX,
        ensures
            final(self)@.inv(),
            id == old(self)@.header.database_size + 1,
            final(self)@ == old(self)@.with_page(blank_page(old(self)@.header.page_size as int)),
    {
        let ghost start = self@;
        let id = self.pager.allocate_page(&mut self.database_header);
        let mut contents = self.pager.take(id);
        // setup overflow page
        let len = contents.buf.len();
        clear_range(&mut contents.buf, 0, len);
        let ghost page = contents@;
        self.pager.put(id, contents);
        proof {
            lemma_limits(start.usable());
            let blank = blank_page(start.header.page_size as int);
            assert(page =~= blank);
            assert(self@.pager.pages =~= start.with_page(blank).pager.pages);
            lemma_with_page_inv(start, blank);
            assert(self@ =~= start.with_page(blank));
        }
        id
    }

    /// Appends to `cell_payload` the bytes of a new cell for `record`. What has
    /// no room in the cell goes to new overflow pages.
    #[verifier::rlimit(40)]
    pub fn fill_cell_payload(
        &mut self,
        page_type: PageType,
        int_key: Option<u64>,
        cell_payload: &mut Vec<u8>,
        record: &OwnedRecord,
    )
        requires
            old(self)@.inv(),
            leaf_type(page_type),
            page_type == PageType::TableLeaf ==> int_key is Some,
            record_fits(record@),
            old(self)@.spill_ok(page_type, record_bytes(record@)),
        ensures
            final(self)@.inv(),
            final(self)@ == old(self)@.with_spill(page_type, record_bytes(record@)),
            final(cell_payload)@ == old(cell_payload)@ + new_cell(
                page_type,
                int_key,
                record_bytes(record@),
                old(self)@.header.database_size + 1,
                old(self)@.usable(),
            ),
    {
        let ghost start = self@;
        let ghost payload = record_bytes(record@);
        let ghost size = start.header.page_size as int;
        let mut record_buf: Vec<u8> = Vec::new();
        record.serialize(&mut record_buf);
        assert(record_buf@ =~= payload);
        // fill in header
        write_varint_to_vec(record_buf.len() as u64, cell_payload);
        match page_type {
            PageType::TableLeaf => {
                let key: u64 = match int_key {
                    Some(key) => key,
                    None => 0,
                };
                write_varint_to_vec(key, cell_payload);
            },
            _ => {},
        }
        let ghost headed = cell_payload@;
        assert(headed =~= old(cell_payload)@ + cell_prefix(
            page_type,
            int_key,
            payload.len() as int,
        ));
        let usable = self.usable_space();
        proof {
            lemma_limits(usable as int);
        }
        if record_buf.len() <= self.max_local(page_type) {
            // enough allowed space to fit inside a btree page
            append_range(cell_payload, record_buf.as_slice(), 0, record_buf.len());
            let mut pad = zeroed(4);
            cell_payload.append(&mut pad);
            proof {
                assert(payload.subrange(0, payload.len() as int) =~= payload);
                assert(cell_payload@ =~= old(cell_payload)@ + new_cell(
                    page_type,
                    int_key,
                    payload,
                    start.header.database_size + 1,
                    start.usable(),
                ));
                assert(pages_for(0, usable as int) == 0);
                assert(self@ =~= start.with_spill(page_type, payload));
            }
            return;
        }
        proof {
            lemma_spilled_local(payload.len() as int, page_type, usable as int);
        }
        let local = spilled_local_of(record_buf.len() as u64, page_type, usable);
        let ghost rest = spill(page_type, payload, usable as int);
        assert(rest == payload.skip(local as int));
        assert(pages_for(rest.len() as int, usable as int) >= 1) by {
            lemma_pages_nonneg(rest.len() - (usable - 4), usable as int);
        }
        append_range(cell_payload, record_buf.as_slice(), 0, local);
        // pointer to the first overflow page
        push_u32(cell_payload, self.database_header.database_size + 1);
        proof {
            assert(payload.subrange(0, local as int) =~= payload.take(local as int));
            assert(cell_payload@ =~= old(cell_payload)@ + new_cell(
                page_type,
                int_key,
                payload,
                start.header.database_size + 1,
                start.usable(),
            ));
        }
        let ghost whole = start.with_spill(page_type, payload);
        let mut pos: usize = local;
        assert(payload.skip(local as int) == rest);
        while pos < record_buf.len()
            invariant
                start == old(self)@,
                start.inv(),
                self@.inv(),
                size == start.header.page_size,
                usable == start.usable(),
                usable > 4,
                usable <= size,
                record_buf@ == payload,
                pos <= payload.len(),
                whole == start.with_spill(page_type, payload),
                whole.pager == spilled(
                    self@.pager,
                    payload.skip(pos as int),
                    self@.header.database_size + 1,
                    usable as int,
                    size,
                ),
                self@.header.database_size + pages_for(payload.len() - pos, usable as int)
                    <= u32::MAX,
                whole.header == grown_by(
                    self@.header,
                    pages_for(payload.len() - pos, usable as int),
                ),
                self@ == (CursorModel { pager: self@.pager, header: self@.header, ..start }),
                self@.header == (DatabaseHeader {
                    database_size: self@.header.database_size,
                    ..start.header
                }),
            decreases payload.len() - pos,
        {
            let ghost before = self@;
            let left: usize = record_buf.len() - pos;
            let here: usize = if left <= usable - 4 {
                left
            } else {
                usable - 4
            };
            proof {
                lemma_pages_nonneg(payload.len() - pos - (usable - 4), usable as int);
                if left <= usable - 4 {
                    assert(pages_for(payload.len() - pos - (usable - 4), usable as int) == 0);
                    assert(pages_for(payload.len() - (pos + here), usable as int) == 0);
                } else {
                    assert(pages_for(payload.len() - (pos + here), usable as int) + 1
                        == pages_for(payload.len() - pos, usable as int));
                    assert(payload.len() - (pos + here) > 0);
                    lemma_pages_nonneg(
                        payload.len() - (pos + here) - (usable - 4),
                        usable as int,
                    );
                }
            }
            // we still have bytes to add, we need a new overflow page
            let id = self.allocate_overflow_page();
            let next: u32 = if here < left {
                id as u32 + 1
            } else {
                0
            };
            let mut contents = self.pager.take(id);
            set_u32(&mut contents.buf, 0, next);
            let chunk = sub_vec(record_buf.as_slice(), pos, pos + here);
            copy_into(&mut contents.buf, 4, chunk.as_slice());
            let ghost page = contents@;
            self.pager.put(id, contents);
            proof {
                let r = payload.skip(pos as int);
                assert(chunk@ =~= r.take(here as int));
                let made = overflow_page(next as int, r.take(here as int), size);
                assert(page =~= made);
                assert(self@.pager.pages =~= before.with_page(made).pager.pages);
                assert(self@ =~= before.with_page(made));
                lemma_with_page_inv(before, made);
                lemma_spilled_step(before.pager, r, id as int, usable as int, size);
                assert(r.skip(here as int) =~= payload.skip(pos + here));
            }
            pos = pos + here;
        }
        proof {
            assert(payload.skip(pos as int) =~= Seq::empty());
            assert(self@ =~= whole);
        }
    }
}

pub proof fn lemma_pages_nonneg(len: int, usable: int)
    ensures
        pages_for(len, usable) >= 0,
    decreases len,
{
    if len > usable - 4 && usable > 4 {
        lemma_pages_nonneg(len - (usable - 4), usable);
    }
}

} // verus!
