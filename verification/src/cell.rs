//! Cells with their payload, which may go on over a chain of overflow pages.

use vstd::prelude::*;
use crate::bytes::{append_range, be32, get_u32};
use crate::page::{
    cell_head, lemma_limits, lemma_spilled_local, usable_ok, FILE_HEADER_LEN, CellHead, CellInfo,
    PageContent, PageModel, PageType,
};
use crate::pager::{loaded, page_of, PageState, Pager};

verus! {

/// Something that may have to wait for a page.
#[verifier::ext_equal]
pub enum Fetch<T> {
    Ready(T),
    /// The page is not in memory yet.
    Wait(usize),
    /// The bytes do not have the page format.
    Corrupt,
}

/// `front` with what was fetched behind it.
pub open spec fn behind(front: Seq<u8>, rest: Fetch<Seq<u8>>) -> Fetch<Seq<u8>> {
    match rest {
        Fetch::Ready(r) => Fetch::Ready(front + r),
        Fetch::Wait(id) => Fetch::Wait(id),
        Fetch::Corrupt => Fetch::Corrupt,
    }
}

/// The `left` bytes of payload on the overflow pages from `next` on. Each page
/// names the next one in its first four bytes.
pub open spec fn chain(pages: Map<usize, PageState>, next: int, left: int, usable: int) -> Fetch<
    Seq<u8>,
>
    decreases left,
{
    if left <= 0 {
        Fetch::Ready(Seq::empty())
    } else if next == 0 || usable <= 4 {
        Fetch::Corrupt
    } else if !loaded(pages, next as usize) {
        Fetch::Wait(next as usize)
    } else {
        let page = page_of(pages, next as usize);
        let here = if left < usable - 4 {
            left
        } else {
            usable - 4
        };
        behind(
            page.buf.subrange(4, 4 + here),
            chain(pages, be32(page.buf, 0), left - here, usable),
        )
    }
}

/// The payload of the cell that is laid out as `h` in `buf`.
pub open spec fn payload_of(
    pages: Map<usize, PageState>,
    buf: Seq<u8>,
    h: CellHead,
    usable: int,
) -> Fetch<Seq<u8>> {
    let here = buf.subrange(h.body, h.body + h.local);
    if h.spills {
        behind(here, chain(pages, be32(buf, h.body + h.local), h.payload_len - h.local, usable))
    } else {
        Fetch::Ready(here)
    }
}

/// A cell of a B-tree page.
pub enum BTreeCell {
    TableInteriorCell { left_child_page: u32, rowid: u64 },
    TableLeafCell { rowid: u64, payload: Vec<u8> },
    IndexInteriorCell { left_child_page: u32, payload: Vec<u8> },
    IndexLeafCell { payload: Vec<u8> },
}

/// What a [`BTreeCell`] stands for.
#[verifier::ext_equal]
pub enum CellModel {
    TableInterior { child: int, rowid: int },
    TableLeaf { rowid: int, payload: Seq<u8> },
    IndexInterior { child: int, payload: Seq<u8> },
    IndexLeaf { payload: Seq<u8> },
}

impl View for BTreeCell {
    type V = CellModel;

    open spec fn view(&self) -> CellModel {
        match *self {
            BTreeCell::TableInteriorCell { left_child_page, rowid } => CellModel::TableInterior {
                child: left_child_page as int,
                rowid: rowid as int,
            },
            BTreeCell::TableLeafCell { rowid, payload } => CellModel::TableLeaf {
                rowid: rowid as int,
                payload: payload@,
            },
            BTreeCell::IndexInteriorCell { left_child_page, payload } => CellModel::IndexInterior {
                child: left_child_page as int,
                payload: payload@,
            },
            BTreeCell::IndexLeafCell { payload } => CellModel::IndexLeaf { payload: payload@ },
        }
    }
}

/// The cell of a page of type `t` that is laid out as `h` and has `payload`.
pub open spec fn assemble(t: PageType, h: CellHead, payload: Seq<u8>) -> CellModel {
    match t {
        PageType::TableInterior => CellModel::TableInterior { child: h.child, rowid: h.rowid },
        PageType::TableLeaf => CellModel::TableLeaf { rowid: h.rowid, payload },
        PageType::IndexInterior => CellModel::IndexInterior { child: h.child, payload },
        PageType::IndexLeaf => CellModel::IndexLeaf { payload },
    }
}

/// Cell `i` of a page.
pub open spec fn cell_at(
    pages: Map<usize, PageState>,
    page: PageModel,
    i: int,
    usable: int,
) -> Fetch<CellModel> {
    match page.head(i, usable) {
        None => Fetch::Corrupt,
        Some(h) => match payload_of(pages, page.buf, h, usable) {
            Fetch::Ready(p) => Fetch::Ready(assemble(page.kind(), h, p)),
            Fetch::Wait(id) => Fetch::Wait(id),
            Fetch::Corrupt => Fetch::Corrupt,
        },
    }
}

proof fn lemma_behind_step(front: Seq<u8>, mid: Seq<u8>, rest: Fetch<Seq<u8>>)
    ensures
        behind(front, behind(mid, rest)) == behind(front + mid, rest),
{
    match rest {
        Fetch::Ready(r) => {
            assert(front + (mid + r) =~= front + mid + r);
        },
        _ => {},
    }
}

/// Reads the payload of a cell.
pub fn read_payload(
    pager: &Pager,
    buf: &[u8],
    info: &CellInfo,
    usable: usize,
) -> (r: Fetch<Vec<u8>>)
    requires
        info@.end() <= buf@.len(),
        info.local <= info.payload_len,
        pager@.holds(usable as int),
        4 < usable,
    ensures
        match r {
            Fetch::Ready(p) => payload_of(pager@.pages, buf@, info@, usable as int)
                == Fetch::Ready(p@),
            Fetch::Wait(id) => payload_of(pager@.pages, buf@, info@, usable as int)
                == Fetch::<Seq<u8>>::Wait(id),
            Fetch::Corrupt => payload_of(pager@.pages, buf@, info@, usable as int)
                == Fetch::<Seq<u8>>::Corrupt,
        },
{
    assert(info.body + info.local <= buf.len());
    let end: usize = info.body + info.local;
    let mut payload: Vec<u8> = Vec::new();
    append_range(&mut payload, buf, info.body, end);
    assert(payload@ =~= buf@.subrange(info.body as int, end as int));
    if !info.spills {
        return Fetch::Ready(payload);
    }
    let mut next: u32 = get_u32(buf, end);
    let mut left: u64 = info.payload_len - info.local as u64;
    while left > 0
        invariant
            pager@.holds(usable as int),
            4 < usable,
            payload_of(pager@.pages, buf@, info@, usable as int) == behind(
                payload@,
                chain(pager@.pages, next as int, left as int, usable as int),
            ),
        decreases left,
    {
        if next == 0 {
            return Fetch::Corrupt;
        }
        let id: usize = next as usize;
        match pager.contents(id) {
            None => {
                return Fetch::Wait(id);
            },
            Some(page) => {
                assert(loaded(pager@.pages, id));
                let here: usize = if left < (usable - 4) as u64 {
                    left as usize
                } else {
                    usable - 4
                };
                let ghost before = payload@;
                let ghost rest = chain(
                    pager@.pages,
                    be32(page@.buf, 0),
                    left - here,
                    usable as int,
                );
                append_range(&mut payload, page.buf.as_slice(), 4, 4 + here);
                proof {
                    lemma_behind_step(before, page@.buf.subrange(4, 4 + here), rest);
                }
                next = get_u32(page.buf.as_slice(), 0);
                left = left - here as u64;
            },
        }
    }
    assert(payload@ + Seq::<u8>::empty() =~= payload@);
    Fetch::Ready(payload)
}

/// The payload of a laid out cell is at least as long as its local part.
pub proof fn lemma_head_local(buf: Seq<u8>, t: PageType, pos: int, usable: int)
    requires
        usable_ok(usable),
        cell_head(buf, t, pos, usable) is Some,
    ensures
        cell_head(buf, t, pos, usable).unwrap().local <= cell_head(
            buf,
            t,
            pos,
            usable,
        ).unwrap().payload_len,
{
    let h = cell_head(buf, t, pos, usable).unwrap();
    if h.spills {
        lemma_spilled_local(h.payload_len, t, usable);
    }
}

impl PageContent {
    /// Reads cell `idx` with its payload.
    pub fn cell_get(
        &self,
        idx: usize,
        pager: &Pager,
        usable: usize,
    ) -> (r: Fetch<BTreeCell>)
        requires
            self@.offset <= FILE_HEADER_LEN,
            self.offset + 12 <= self.buf.len(),
            self@.page_type() is Some,
            idx <= u16::MAX,
            pager@.holds(usable as int),
            usable_ok(usable as int),
        ensures
            match r {
                Fetch::Ready(c) => cell_at(pager@.pages, self@, idx as int, usable as int)
                    == Fetch::Ready(c@),
                Fetch::Wait(id) => cell_at(pager@.pages, self@, idx as int, usable as int)
                    == Fetch::<CellModel>::Wait(id),
                Fetch::Corrupt => cell_at(pager@.pages, self@, idx as int, usable as int)
                    == Fetch::<CellModel>::Corrupt,
            },
    {
        let info = match self.cell_info(idx, usable) {
            Some(info) => info,
            None => return Fetch::Corrupt,
        };
        proof {
            lemma_limits(usable as int);
            lemma_head_local(
                self@.buf,
                self@.kind(),
                self@.cell_pointer(idx as int),
                usable as int,
            );
        }
        let payload = match read_payload(
            pager,
            self.buf.as_slice(),
            &info,
            usable,
        ) {
            Fetch::Ready(p) => p,
            Fetch::Wait(id) => return Fetch::Wait(id),
            Fetch::Corrupt => return Fetch::Corrupt,
        };
        match self.kind() {
            PageType::TableInterior => Fetch::Ready(
                BTreeCell::TableInteriorCell { left_child_page: info.child, rowid: info.rowid },
            ),
            PageType::TableLeaf => Fetch::Ready(
                BTreeCell::TableLeafCell { rowid: info.rowid, payload },
            ),
            PageType::IndexInterior => Fetch::Ready(
                BTreeCell::IndexInteriorCell { left_child_page: info.child, payload },
            ),
            PageType::IndexLeaf => Fetch::Ready(BTreeCell::IndexLeafCell { payload }),
        }
    }
}

} // verus!
