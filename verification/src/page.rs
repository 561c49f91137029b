//! B-tree pages: their header, their cell pointers and the layout of a cell.

use vstd::prelude::*;
use crate::bytes::{be16, be32, get_u16, get_u32, put16, put32, set_u16, set_u32, splice};
use crate::errors::StorageError;
use crate::varint::{read_varint, varint_at};

verus! {

/// Type of the page, one byte.
pub const BTREE_HEADER_OFFSET_TYPE: usize = 0;

/// Pointer to the first free block, two bytes.
pub const BTREE_HEADER_OFFSET_FREEBLOCK: usize = 1;

/// Number of cells, two bytes.
pub const BTREE_HEADER_OFFSET_CELL_COUNT: usize = 3;

/// Pointer to the first byte of the cell content area, two bytes.
pub const BTREE_HEADER_OFFSET_CELL_CONTENT: usize = 5;

/// Number of fragmented free bytes, one byte.
pub const BTREE_HEADER_OFFSET_FRAGMENTED: usize = 7;

/// Right-most child of an interior page, four bytes.
pub const BTREE_HEADER_OFFSET_RIGHTMOST: usize = 8;

/// The offset of the page header on the first page, behind the file header.
pub const FILE_HEADER_LEN: usize = 100;

/// The four kinds of B-tree pages.
#[derive(Clone, Copy, Debug, PartialEq, Eq, Structural)]
pub enum PageType {
    IndexInterior,
    TableInterior,
    IndexLeaf,
    TableLeaf,
}

/// The byte that stands for a page type.
pub open spec fn type_code(t: PageType) -> int {
    match t {
        PageType::IndexInterior => 2,
        PageType::TableInterior => 5,
        PageType::IndexLeaf => 10,
        PageType::TableLeaf => 13,
    }
}

/// The page type that a byte stands for.
pub open spec fn type_of(code: int) -> Option<PageType> {
    if code == 2 {
        Some(PageType::IndexInterior)
    } else if code == 5 {
        Some(PageType::TableInterior)
    } else if code == 10 {
        Some(PageType::IndexLeaf)
    } else if code == 13 {
        Some(PageType::TableLeaf)
    } else {
        None
    }
}

/// Whether pages of the type have no children.
pub open spec fn leaf_type(t: PageType) -> bool {
    t == PageType::IndexLeaf || t == PageType::TableLeaf
}

/// The length of the page header.
pub open spec fn header_size(t: PageType) -> int {
    if leaf_type(t) {
        8
    } else {
        12
    }
}

impl PageType {
    /// The byte that stands for the page type.
    pub fn code(&self) -> (c: u8)
        ensures
            c == type_code(*self),
    {
        match self {
            PageType::IndexInterior => 2,
            PageType::TableInterior => 5,
            PageType::IndexLeaf => 10,
            PageType::TableLeaf => 13,
        }
    }

    /// Whether pages of the type have no children.
    pub fn is_leaf(&self) -> (b: bool)
        ensures
            b == leaf_type(*self),
    {
        match self {
            PageType::IndexLeaf | PageType::TableLeaf => true,
            PageType::IndexInterior | PageType::TableInterior => false,
        }
    }
}

/// A cell that has been given a place among the cells of a page but has no
/// room on it.
pub struct OverflowCell {
    pub index: usize,
    pub payload: Vec<u8>,
}

/// What an [`OverflowCell`] stands for.
#[verifier::ext_equal]
pub struct OverflowModel {
    pub index: int,
    pub payload: Seq<u8>,
}

impl View for OverflowCell {
    type V = OverflowModel;

    open spec fn view(&self) -> OverflowModel {
        OverflowModel { index: self.index as int, payload: self.payload@ }
    }
}

/// The bytes of a page and the cells that have no room on it.
pub struct PageContent {
    /// Where the page header starts.
    pub offset: usize,
    pub buf: Vec<u8>,
    pub overflow_cells: Vec<OverflowCell>,
}

/// What a [`PageContent`] stands for.
#[verifier::ext_equal]
pub struct PageModel {
    pub offset: int,
    pub buf: Seq<u8>,
    pub overflow_cells: Seq<OverflowModel>,
}

impl View for PageContent {
    type V = PageModel;

    open spec fn view(&self) -> PageModel {
        PageModel {
            offset: self.offset as int,
            buf: self.buf@,
            overflow_cells: Seq::new(
                self.overflow_cells@.len(),
                |i: int| self.overflow_cells@[i]@,
            ),
        }
    }
}

impl PageModel {
    /// A page of `page_size` bytes with its header at a place where pages have it.
    pub open spec fn sized(self, page_size: int) -> bool {
        &&& self.offset == 0 || self.offset == FILE_HEADER_LEN
        &&& self.buf.len() == page_size
        &&& self.offset + 12 <= page_size <= u16::MAX
    }

    /// The byte at `pos`, from the start of the header on.
    pub open spec fn u8_at(self, pos: int) -> int {
        self.buf[self.offset + pos] as int
    }

    /// The two bytes at `pos`, from the start of the header on.
    pub open spec fn u16_at(self, pos: int) -> int {
        be16(self.buf, self.offset + pos)
    }

    /// The four bytes at `pos`, from the start of the header on.
    pub open spec fn u32_at(self, pos: int) -> int {
        be32(self.buf, self.offset + pos)
    }

    /// The page with one byte written at `pos`.
    pub open spec fn with_u8(self, pos: int, v: int) -> PageModel {
        PageModel { buf: splice(self.buf, self.offset + pos, seq![v as u8]), ..self }
    }

    /// The page with two bytes written at `pos`.
    pub open spec fn with_u16(self, pos: int, v: int) -> PageModel {
        PageModel { buf: put16(self.buf, self.offset + pos, v), ..self }
    }

    /// The page with four bytes written at `pos`.
    pub open spec fn with_u32(self, pos: int, v: int) -> PageModel {
        PageModel { buf: put32(self.buf, self.offset + pos, v), ..self }
    }

    /// The page with other bytes.
    pub open spec fn with_buf(self, buf: Seq<u8>) -> PageModel {
        PageModel { buf, ..self }
    }

    /// The type of the page; `None` if its bytes are no B-tree page.
    pub open spec fn page_type(self) -> Option<PageType> {
        type_of(self.u8_at(0))
    }

    /// The type of a B-tree page.
    pub open spec fn kind(self) -> PageType {
        self.page_type().unwrap()
    }

    /// Where the first free block is; 0 if there is none.
    pub open spec fn first_freeblock(self) -> int {
        self.u16_at(1)
    }

    /// How many cells the page has.
    pub open spec fn cell_count(self) -> int {
        self.u16_at(3)
    }

    /// Where the cell content area starts.
    pub open spec fn cell_content_area(self) -> int {
        self.u16_at(5)
    }

    /// How many fragmented free bytes there are.
    pub open spec fn num_frag_free_bytes(self) -> int {
        self.u8_at(7)
    }

    /// The right-most child of an interior page.
    pub open spec fn rightmost(self) -> int {
        self.u32_at(8)
    }

    /// Where the cell pointers start.
    pub open spec fn pointers_at(self) -> int {
        self.offset + header_size(self.kind())
    }

    /// Where cell `i` starts.
    pub open spec fn cell_pointer(self, i: int) -> int {
        be16(self.buf, self.pointers_at() + 2 * i)
    }

    /// The layout of cell `i`; `None` if the page is corrupt there.
    pub open spec fn head(self, i: int, usable: int) -> Option<CellHead> {
        if self.pointers_at() + 2 * i + 2 > self.buf.len() {
            None
        } else {
            cell_head(self.buf, self.kind(), self.cell_pointer(i), usable)
        }
    }
}

// ---------------------------------------------------------------------------
// Cells
// ---------------------------------------------------------------------------

/// A number of usable bytes for which the limits on local payload make sense.
pub open spec fn usable_ok(usable: int) -> bool {
    &&& (usable - 12) * 32 / 255 >= 23
    &&& 0 <= usable <= u16::MAX
}

/// The longest payload that stands on a page of the type as a whole.
pub open spec fn max_local(t: PageType, usable: int) -> int {
    if leaf_type(t) {
        usable - 35
    } else {
        (usable - 12) * 64 / 255 - 23
    }
}

/// The least part of a longer payload that stands on the page.
pub open spec fn min_local(usable: int) -> int {
    (usable - 12) * 32 / 255 - 23
}

/// How much of a payload that is too long for the page stands on it.
pub open spec fn spilled_local(len: int, t: PageType, usable: int) -> int {
    let k = min_local(usable) + (len - min_local(usable)) % (usable - 4);
    if k > max_local(t, usable) {
        min_local(usable)
    } else {
        k
    }
}

/// The layout of a cell.
#[verifier::ext_equal]
pub struct CellHead {
    /// The page left of the cell; 0 on a leaf.
    pub child: int,
    /// The row id of a table's cell; 0 in an index.
    pub rowid: int,
    /// The length of the whole payload; 0 in a table's interior page.
    pub payload_len: int,
    /// Where the payload starts.
    pub body: int,
    /// How much of the payload stands on the page.
    pub local: int,
    /// Whether the rest stands on overflow pages, whose first is named behind
    /// the local part.
    pub spills: bool,
}

impl CellHead {
    /// Where the cell ends.
    pub open spec fn end(self) -> int {
        if self.spills {
            self.body + self.local + 4
        } else {
            self.body + self.local
        }
    }
}

/// The layout of a cell whose payload of length `len` starts at `body`;
/// `None` if it runs past the end of the bytes.
pub open spec fn with_payload(
    buf: Seq<u8>,
    t: PageType,
    usable: int,
    child: int,
    rowid: int,
    len: int,
    body: int,
) -> Option<CellHead> {
    let head = if len <= max_local(t, usable) {
        CellHead { child, rowid, payload_len: len, body, local: len, spills: false }
    } else {
        CellHead {
            child,
            rowid,
            payload_len: len,
            body,
            local: spilled_local(len, t, usable),
            spills: true,
        }
    };
    if head.end() > buf.len() {
        None
    } else {
        Some(head)
    }
}

/// The layout of the cell at `pos` of a page of type `t`; `None` if the bytes
/// there are no such cell.
pub open spec fn cell_head(buf: Seq<u8>, t: PageType, pos: int, usable: int) -> Option<CellHead> {
    match t {
        PageType::TableInterior => if pos + 4 > buf.len() {
            None
        } else {
            match varint_at(buf, pos + 4) {
                None => None,
                Some((rowid, n)) => Some(
                    CellHead {
                        child: be32(buf, pos),
                        rowid,
                        payload_len: 0,
                        body: pos + 4 + n,
                        local: 0,
                        spills: false,
                    },
                ),
            }
        },
        PageType::TableLeaf => match varint_at(buf, pos) {
            None => None,
            Some((len, n)) => match varint_at(buf, pos + n) {
                None => None,
                Some((rowid, m)) => with_payload(buf, t, usable, 0, rowid, len, pos + n + m),
            },
        },
        PageType::IndexInterior => if pos + 4 > buf.len() {
            None
        } else {
            match varint_at(buf, pos + 4) {
                None => None,
                Some((len, n)) => with_payload(
                    buf,
                    t,
                    usable,
                    be32(buf, pos),
                    0,
                    len,
                    pos + 4 + n,
                ),
            }
        },
        PageType::IndexLeaf => match varint_at(buf, pos) {
            None => None,
            Some((len, n)) => with_payload(buf, t, usable, 0, 0, len, pos + n),
        },
    }
}

/// The layout of a cell, as read from its bytes.
pub struct CellInfo {
    pub child: u32,
    pub rowid: u64,
    pub payload_len: u64,
    pub body: usize,
    pub local: usize,
    pub spills: bool,
}

impl View for CellInfo {
    type V = CellHead;

    open spec fn view(&self) -> CellHead {
        CellHead {
            child: self.child as int,
            rowid: self.rowid as int,
            payload_len: self.payload_len as int,
            body: self.body as int,
            local: self.local as int,
            spills: self.spills,
        }
    }
}

/// The limits on local payload are in the order that their names say.
pub proof fn lemma_limits(usable: int)
    requires
        usable_ok(usable),
    ensures
        196 <= usable,
        0 <= min_local(usable) <= max_local(PageType::IndexInterior, usable) <= usable - 35,
        max_local(PageType::TableInterior, usable) == max_local(PageType::IndexInterior, usable),
        max_local(PageType::TableLeaf, usable) == usable - 35,
        max_local(PageType::IndexLeaf, usable) == usable - 35,
{
}

/// The part of a long payload that stands on the page is within the limits.
pub proof fn lemma_spilled_local(len: int, t: PageType, usable: int)
    requires
        usable_ok(usable),
        len > max_local(t, usable),
    ensures
        0 <= min_local(usable) <= spilled_local(len, t, usable) <= max_local(t, usable) < len,
{
    lemma_limits(usable);
    let d = len - min_local(usable);
    assert(0 <= d % (usable - 4)) by (nonlinear_arith)
        requires
            usable - 4 > 0,
    ;
}

/// Reads the longest payload that stands on a page of the type as a whole.
pub fn max_local_of(t: PageType, usable: usize) -> (m: usize)
    requires
        usable_ok(usable as int),
    ensures
        m == max_local(t, usable as int),
{
    match t {
        PageType::IndexInterior | PageType::TableInterior => (usable - 12) * 64 / 255 - 23,
        PageType::IndexLeaf | PageType::TableLeaf => usable - 35,
    }
}

/// Reads the least part of a longer payload that stands on the page.
pub fn min_local_of(usable: usize) -> (m: usize)
    requires
        usable_ok(usable as int),
    ensures
        m == min_local(usable as int),
{
    (usable - 12) * 32 / 255 - 23
}

/// Computes how much of a payload that is too long for the page stands on it.
pub fn spilled_local_of(len: u64, t: PageType, usable: usize) -> (k: usize)
    requires
        usable_ok(usable as int),
        len > max_local(t, usable as int),
    ensures
        k == spilled_local(len as int, t, usable as int),
{
    proof {
        lemma_limits(usable as int);
    }
    let min = min_local_of(usable);
    let max = max_local_of(t, usable);
    let rest: u64 = (len - min as u64) % (usable as u64 - 4);
    let k: usize = min + rest as usize;
    if k > max {
        min
    } else {
        k
    }
}

/// Lays out a payload of length `len` at `body`.
fn lay_out(
    buf: &[u8],
    t: PageType,
    usable: usize,
    child: u32,
    rowid: u64,
    len: u64,
    body: usize,
) -> (r: Option<CellInfo>)
    requires
        usable_ok(usable as int),
        body <= buf@.len(),
    ensures
        match r {
            Some(c) => with_payload(
                buf@,
                t,
                usable as int,
                child as int,
                rowid as int,
                len as int,
                body as int,
            ) == Some(c@),
            None => with_payload(
                buf@,
                t,
                usable as int,
                child as int,
                rowid as int,
                len as int,
                body as int,
            ) is None,
        },
{
    proof {
        lemma_limits(usable as int);
    }
    let room: usize = buf.len() - body;
    if len <= max_local_of(t, usable) as u64 {
        let local: usize = len as usize;
        if local > room {
            return None;
        }
        Some(CellInfo { child, rowid, payload_len: len, body, local, spills: false })
    } else {
        proof {
            lemma_spilled_local(len as int, t, usable as int);
        }
        let local = spilled_local_of(len, t, usable);
        if local + 4 > room {
            return None;
        }
        Some(CellInfo { child, rowid, payload_len: len, body, local, spills: true })
    }
}

/// Reads the layout of the cell at `pos` of a page of type `t`.
pub fn read_cell_head(buf: &[u8], t: PageType, pos: usize, usable: usize) -> (r: Option<CellInfo>)
    requires
        usable_ok(usable as int),
        pos <= u16::MAX,
    ensures
        match r {
            Some(c) => cell_head(buf@, t, pos as int, usable as int) == Some(c@) && pos <= c.body
                && c@.end() <= buf@.len(),
            None => cell_head(buf@, t, pos as int, usable as int) is None,
        },
{
    match t {
        PageType::TableInterior => {
            if pos + 4 > buf.len() {
                return None;
            }
            match read_varint(buf, pos + 4) {
                None => None,
                Some((rowid, n)) => Some(
                    CellInfo {
                        child: get_u32(buf, pos),
                        rowid,
                        payload_len: 0,
                        body: pos + 4 + n,
                        local: 0,
                        spills: false,
                    },
                ),
            }
        },
        PageType::TableLeaf => match read_varint(buf, pos) {
            None => None,
            Some((len, n)) => match read_varint(buf, pos + n) {
                None => None,
                Some((rowid, m)) => lay_out(buf, t, usable, 0, rowid, len, pos + n + m),
            },
        },
        PageType::IndexInterior => {
            if pos + 4 > buf.len() {
                return None;
            }
            match read_varint(buf, pos + 4) {
                None => None,
                Some((len, n)) => lay_out(
                    buf,
                    t,
                    usable,
                    get_u32(buf, pos),
                    0,
                    len,
                    pos + 4 + n,
                ),
            }
        },
        PageType::IndexLeaf => match read_varint(buf, pos) {
            None => None,
            Some((len, n)) => lay_out(buf, t, usable, 0, 0, len, pos + n),
        },
    }
}

// ---------------------------------------------------------------------------
// The header of a page
// ---------------------------------------------------------------------------

impl PageContent {
    /// Reads the byte at `pos`, from the start of the header on.
    pub fn read_u8(&self, pos: usize) -> (v: u8)
        requires
            self.offset + pos < self.buf.len(),
        ensures
            v == self@.u8_at(pos as int),
    {
        self.buf[self.offset + pos]
    }

    /// Reads the two bytes at `pos`, from the start of the header on.
    pub fn read_u16(&self, pos: usize) -> (v: u16)
        requires
            self.offset + pos + 2 <= self.buf.len(),
        ensures
            v == self@.u16_at(pos as int),
    {
        get_u16(self.buf.as_slice(), self.offset + pos)
    }

    /// Reads the four bytes at `pos`, from the start of the header on.
    pub fn read_u32(&self, pos: usize) -> (v: u32)
        requires
            self.offset + pos + 4 <= self.buf.len(),
        ensures
            v == self@.u32_at(pos as int),
    {
        get_u32(self.buf.as_slice(), self.offset + pos)
    }

    /// Writes the byte at `pos`, from the start of the header on.
    pub fn write_u8(&mut self, pos: usize, v: u8)
        requires
            old(self).offset + pos < old(self).buf.len(),
        ensures
            final(self)@ == old(self)@.with_u8(pos as int, v as int),
    {
        let at: usize = self.offset + pos;
        self.buf.set(at, v);
        assert(self.buf@ =~= splice(old(self).buf@, at as int, seq![v]));
    }

    /// Writes the two bytes at `pos`, from the start of the header on.
    pub fn write_u16(&mut self, pos: usize, v: u16)
        requires
            old(self).offset + pos + 2 <= old(self).buf.len(),
        ensures
            final(self)@ == old(self)@.with_u16(pos as int, v as int),
    {
        let at: usize = self.offset + pos;
        set_u16(&mut self.buf, at, v);
    }

    /// Writes the four bytes at `pos`, from the start of the header on.
    pub fn write_u32(&mut self, pos: usize, v: u32)
        requires
            old(self).offset + pos + 4 <= old(self).buf.len(),
        ensures
            final(self)@ == old(self)@.with_u32(pos as int, v as int),
    {
        let at: usize = self.offset + pos;
        set_u32(&mut self.buf, at, v);
    }

    /// The type of the page, if it is a B-tree page.
    pub fn page_type(&self) -> (r: Result<PageType, StorageError>)
        requires
            self.offset < self.buf.len(),
        ensures
            match r {
                Ok(t) => self@.page_type() == Some(t),
                Err(e) => self@.page_type() is None && e == StorageError::CorruptPage,
            },
    {
        let code = self.read_u8(BTREE_HEADER_OFFSET_TYPE);
        if code == 2 {
            Ok(PageType::IndexInterior)
        } else if code == 5 {
            Ok(PageType::TableInterior)
        } else if code == 10 {
            Ok(PageType::IndexLeaf)
        } else if code == 13 {
            Ok(PageType::TableLeaf)
        } else {
            Err(StorageError::CorruptPage)
        }
    }

    /// The type of a B-tree page.
    pub fn kind(&self) -> (t: PageType)
        requires
            self.offset < self.buf.len(),
            self@.page_type() is Some,
        ensures
            t == self@.kind(),
    {
        match self.page_type() {
            Ok(t) => t,
            Err(_) => PageType::TableLeaf,
        }
    }

    /// Whether the page has no children.
    pub fn is_leaf(&self) -> (b: bool)
        requires
            self.offset < self.buf.len(),
            self@.page_type() is Some,
        ensures
            b == leaf_type(self@.kind()),
    {
        self.kind().is_leaf()
    }

    /// How many cells the page has.
    pub fn cell_count(&self) -> (n: usize)
        requires
            self.offset + 5 <= self.buf.len(),
        ensures
            n == self@.cell_count(),
            n <= u16::MAX,
    {
        self.read_u16(BTREE_HEADER_OFFSET_CELL_COUNT) as usize
    }

    /// Where the first free block is; 0 if there is none.
    pub fn first_freeblock(&self) -> (p: u16)
        requires
            self.offset + 3 <= self.buf.len(),
        ensures
            p == self@.first_freeblock(),
    {
        self.read_u16(BTREE_HEADER_OFFSET_FREEBLOCK)
    }

    /// Where the cell content area starts.
    pub fn cell_content_area(&self) -> (p: u16)
        requires
            self.offset + 7 <= self.buf.len(),
        ensures
            p == self@.cell_content_area(),
    {
        self.read_u16(BTREE_HEADER_OFFSET_CELL_CONTENT)
    }

    /// How many fragmented free bytes there are.
    pub fn num_frag_free_bytes(&self) -> (n: u8)
        requires
            self.offset + 8 <= self.buf.len(),
        ensures
            n == self@.num_frag_free_bytes(),
    {
        self.read_u8(BTREE_HEADER_OFFSET_FRAGMENTED)
    }

    /// The right-most child; `None` on a leaf.
    pub fn rightmost_pointer(&self) -> (r: Option<u32>)
        requires
            self.offset + 12 <= self.buf.len(),
            self@.page_type() is Some,
        ensures
            match r {
                Some(p) => !leaf_type(self@.kind()) && p == self@.rightmost(),
                None => leaf_type(self@.kind()),
            },
    {
        if self.is_leaf() {
            None
        } else {
            Some(self.read_u32(BTREE_HEADER_OFFSET_RIGHTMOST))
        }
    }

    /// Where the cell pointers start and how many bytes they take.
    pub fn cell_get_raw_pointer_region(&self) -> (r: (usize, usize))
        requires
            self.offset + 12 <= self.buf.len(),
            self@.page_type() is Some,
        ensures
            r.0 == self@.pointers_at(),
            r.1 == 2 * self@.cell_count(),
    {
        let start: usize = if self.is_leaf() {
            8
        } else {
            12
        };
        (self.offset + start, 2 * self.cell_count())
    }

    /// The layout of cell `i`, if the page is not corrupt there.
    pub fn cell_info(&self, i: usize, usable: usize) -> (r: Option<CellInfo>)
        requires
            self@.offset <= FILE_HEADER_LEN,
            self.offset + 12 <= self.buf.len(),
            self@.page_type() is Some,
            i <= u16::MAX,
            usable_ok(usable as int),
        ensures
            match r {
                Some(c) => self@.head(i as int, usable as int) == Some(c@) && self@.cell_pointer(
                    i as int,
                ) <= c.body && c@.end() <= self@.buf.len() && self@.pointers_at() + 2 * i + 2
                    <= self@.buf.len(),
                None => self@.head(i as int, usable as int) is None,
            },
    {
        let slot: usize = self.cell_get_raw_pointer_region().0 + 2 * i;
        if slot + 2 > self.buf.len() {
            return None;
        }
        let pos: usize = get_u16(self.buf.as_slice(), slot) as usize;
        read_cell_head(self.buf.as_slice(), self.kind(), pos, usable)
    }

    /// Where cell `idx` starts and how many bytes it takes.
    pub fn cell_get_raw_region(&self, idx: usize, usable: usize) -> (r: (usize, usize))
        requires
            self@.offset <= FILE_HEADER_LEN,
            self.offset + 12 <= self.buf.len(),
            self@.page_type() is Some,
            idx <= u16::MAX,
            usable_ok(usable as int),
            self@.head(idx as int, usable as int) is Some,
        ensures
            r.0 == self@.cell_pointer(idx as int),
            r.0 + r.1 == self@.head(idx as int, usable as int).unwrap().end(),
            r.0 + r.1 <= self@.buf.len(),
    {
        let slot: usize = self.cell_get_raw_pointer_region().0 + 2 * idx;
        match self.cell_info(idx, usable) {
            Some(c) => {
                let start: usize = get_u16(self.buf.as_slice(), slot) as usize;
                let end: usize = if c.spills {
                    c.body + c.local + 4
                } else {
                    c.body + c.local
                };
                (start, end - start)
            },
            None => (0, 0),
        }
    }
}

} // verus!
