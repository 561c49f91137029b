//! What an insertion keeps of all pages in memory: their size, and which of them
//! have a cell beside them.

use vstd::prelude::*;
use crate::balance::{lemma_emptied, lemma_filled_sized, lemma_inserted_sized, lemma_new_root_room};
use crate::cursor::{header_ok, CursorModel};
use crate::fill::{emptied, new_tree_page, overflow_page, spill, spilled};
use crate::page::{lemma_limits, type_code, PageType};
use crate::pager::{blank_page, loaded, page_of, DatabaseHeader, PageState, PagerModel};
use crate::record::{record_bytes, ValueModel};

verus! {

/// Whether the pages in memory have their size.
pub open spec fn all_sized(pages: Map<usize, PageState>, page_size: int) -> bool {
    forall|k: usize| #[trigger] loaded(pages, k) ==> page_of(pages, k).sized(page_size)
}

/// Whether of the pages in `pages2` only those in `x` have cells beside them that
/// they did not have in `pages`.
#[verifier::opaque]
pub open spec fn beside_kept(
    pages: Map<usize, PageState>,
    pages2: Map<usize, PageState>,
    x: Set<usize>,
) -> bool {
    forall|k: usize| #[trigger]
        loaded(pages2, k) && !x.contains(k) ==> {
            ||| page_of(pages2, k).overflow_cells.len() == 0
            ||| loaded(pages, k) && page_of(pages2, k).overflow_cells == page_of(
                pages,
                k,
            ).overflow_cells
        }
}

/// Which pages have got cells beside them in two steps.
pub proof fn lemma_beside_twice(
    a: Map<usize, PageState>,
    b: Map<usize, PageState>,
    c: Map<usize, PageState>,
    x: Set<usize>,
    y: Set<usize>,
    z: Set<usize>,
)
    requires
        beside_kept(a, b, x),
        beside_kept(b, c, y),
        forall|k: usize| #[trigger]
            loaded(c, k) && (x.contains(k) || y.contains(k)) ==> z.contains(k) || page_of(
                c,
                k,
            ).overflow_cells.len() == 0,
    ensures
        beside_kept(a, c, z),
{
    reveal(beside_kept);
    assert forall|k: usize| #[trigger] loaded(c, k) && !z.contains(k) implies {
        ||| page_of(c, k).overflow_cells.len() == 0
        ||| loaded(a, k) && page_of(c, k).overflow_cells == page_of(a, k).overflow_cells
    } by {
        if page_of(c, k).overflow_cells.len() > 0 {
            assert(loaded(b, k));
        }
    }
}

/// A new page has its size and no cell beside it.
pub proof fn lemma_new_page_rest(t: PageType, h: DatabaseHeader)
    requires
        header_ok(h),
    ensures
        new_tree_page(t, h).sized(h.page_size as int),
        new_tree_page(t, h).overflow_cells.len() == 0,
        new_tree_page(t, h).page_type() == Some(t),
        new_tree_page(t, h).offset == 0,
{
    lemma_limits(h.usable());
    let blank = blank_page(h.page_size as int).with_u8(0, type_code(t));
    lemma_emptied(blank, h.usable(), h.page_size as int);
}

/// New overflow pages have their size and no cell beside them.
proof fn lemma_spilled_rest(
    pager: PagerModel,
    rest: Seq<u8>,
    id: int,
    usable: int,
    page_size: int,
)
    requires
        12 <= page_size <= u16::MAX,
        all_sized(pager.pages, page_size),
    ensures
        ({
            let s = spilled(pager, rest, id, usable, page_size);
            &&& all_sized(s.pages, page_size)
            &&& beside_kept(pager.pages, s.pages, Set::empty())
        }),
    decreases rest.len(),
{
    reveal(beside_kept);
    if rest.len() > 0 && usable > 4 {
        let more = rest.len() > usable - 4;
        let page = if more {
            overflow_page(id + 1, rest.take(usable - 4), page_size)
        } else {
            overflow_page(0, rest, page_size)
        };
        let next = pager.with_new(id as usize, page);
        assert forall|k: usize| #[trigger] loaded(next.pages, k) implies {
            &&& page_of(next.pages, k).sized(page_size)
            &&& page_of(next.pages, k).overflow_cells.len() == 0 || (loaded(pager.pages, k)
                && page_of(next.pages, k).overflow_cells == page_of(pager.pages, k).overflow_cells)
        } by {
            if k != id as usize {
                assert(loaded(pager.pages, k));
            }
        }
        if more {
            lemma_spilled_rest(next, rest.skip(usable - 4), id + 1, usable, page_size);
            lemma_beside_twice(
                pager.pages,
                next.pages,
                spilled(next, rest.skip(usable - 4), id + 1, usable, page_size).pages,
                Set::empty(),
                Set::empty(),
                Set::empty(),
            );
        }
    }
}

/// When a row was put on its leaf or beside it, only that leaf may have got a cell
/// beside it.
pub proof fn lemma_row_rest(m: CursorModel, rowid: u64, record: Seq<ValueModel>)
    requires
        header_ok(m.header),
        all_sized(m.pages(), m.header.page_size as int),
        loaded(m.pages(), m.top().page),
    ensures
        ({
            let b = m.with_row(rowid, record);
            &&& b.header.page_size == m.header.page_size
            &&& all_sized(b.pages(), m.header.page_size as int)
            &&& beside_kept(m.pages(), b.pages(), set![m.top().page])
            &&& m.leaf_with(rowid, record).overflow_cells.len() == 0 ==> beside_kept(
                m.pages(),
                b.pages(),
                Set::empty(),
            )
        }),
{
    reveal(beside_kept);
    let size = m.header.page_size as int;
    let x = m.top().page;
    let b = m.with_row(rowid, record);
    let leaf = m.leaf_with(rowid, record);
    lemma_limits(m.usable());
    lemma_inserted_sized(
        m.top_page(),
        m.cell_for(rowid, record),
        m.place_for(rowid).unwrap(),
        m.usable(),
        size,
    );
    let t = m.touching(x);
    assert forall|k: usize| #[trigger] loaded(t.pages(), k) implies loaded(m.pages(), k)
        && page_of(t.pages(), k) == page_of(m.pages(), k) by {}
    let rest = spill(PageType::TableLeaf, record_bytes(record), m.usable());
    lemma_spilled_rest(t.pager, rest, m.header.database_size + 1, m.usable(), size);
    let s = t.with_spill(PageType::TableLeaf, record_bytes(record));
    assert forall|k: usize| #[trigger] loaded(b.pages(), k) implies {
        &&& page_of(b.pages(), k).sized(size)
        &&& k == x ==> page_of(b.pages(), k) == leaf
        &&& k != x ==> loaded(s.pages(), k) && page_of(b.pages(), k) == page_of(s.pages(), k)
    } by {
        if k != x {
            assert(loaded(s.pages(), k));
        }
    }
    lemma_beside_twice(
        m.pages(),
        s.pages(),
        b.pages(),
        Set::empty(),
        set![x],
        set![x],
    );
    if leaf.overflow_cells.len() == 0 {
        lemma_beside_twice(
            m.pages(),
            s.pages(),
            b.pages(),
            Set::empty(),
            set![x],
            Set::empty(),
        );
    }
}

/// Making a page ready to be split puts no cell beside a page.
pub proof fn lemma_begun_rest(c: CursorModel)
    requires
        header_ok(c.header),
        all_sized(c.pages(), c.header.page_size as int),
    ensures
        all_sized(c.split_begun().pages(), c.header.page_size as int),
        beside_kept(c.pages(), c.split_begun().pages(), Set::empty()),
{
    reveal(beside_kept);
    let d = c.split_begun();
    let id = (c.header.database_size + 1) as usize;
    lemma_new_page_rest(c.top_page().kind(), c.header);
    assert forall|k: usize| #[trigger] loaded(d.pages(), k) implies {
        &&& k != id ==> loaded(c.pages(), k) && page_of(d.pages(), k) == page_of(c.pages(), k)
        &&& k == id ==> page_of(d.pages(), k) == new_tree_page(c.top_page().kind(), c.header)
    } by {}
}

/// Marking a page puts no cell beside a page.
pub proof fn lemma_marked_rest(pager: PagerModel, id: usize, page_size: int)
    requires
        all_sized(pager.pages, page_size),
        pager.pages.contains_key(id),
    ensures
        all_sized(pager.mark(id).pages, page_size),
        beside_kept(pager.pages, pager.mark(id).pages, Set::empty()),
{
    reveal(beside_kept);
    assert forall|k: usize| #[trigger] loaded(pager.mark(id).pages, k) implies loaded(
        pager.pages,
        k,
    ) && page_of(pager.mark(id).pages, k) == page_of(pager.pages, k) by {}
}

/// The pages that share cells have their size.
pub proof fn lemma_shared_sized(c: CursorModel)
    requires
        all_sized(c.pages(), c.header.page_size as int),
        0 <= c.usable() <= u16::MAX,
        c.new_pages.len() == 2,
        loaded(c.pages(), c.new_pages[0]),
        loaded(c.pages(), c.new_pages[1]),
        loaded(c.pages(), c.parent_id()),
    ensures
        c.left_after().sized(c.header.page_size as int),
        c.right_after().sized(c.header.page_size as int),
        c.parent_after().sized(c.header.page_size as int),
{
    let size = c.header.page_size as int;
    let usable = c.usable();
    let l = page_of(c.pages(), c.new_pages[0]);
    let r = page_of(c.pages(), c.new_pages[1]);
    lemma_emptied(l, usable, size);
    lemma_emptied(r, usable, size);
    lemma_filled_sized(emptied(l, usable), c.scratch_cells.take(c.left_share()), usable, size);
    lemma_filled_sized(emptied(r, usable), c.scratch_cells.skip(c.half()), usable, size);
    lemma_inserted_sized(
        c.parent_page(),
        c.divider(),
        c.divider_place().unwrap(),
        usable,
        size,
    );
}

/// After cells were shared by two pages that have room for them, only the parent
/// may have got a cell beside it.
pub proof fn lemma_moved_rest(c: CursorModel)
    requires
        all_sized(c.pages(), c.header.page_size as int),
        0 <= c.usable() <= u16::MAX,
        c.stack.len() > 1,
        c.new_pages.len() == 2,
        loaded(c.pages(), c.new_pages[0]),
        loaded(c.pages(), c.new_pages[1]),
        loaded(c.pages(), c.parent_id()),
        c.left_after().overflow_cells == page_of(c.pages(), c.new_pages[0]).overflow_cells,
        c.right_after().overflow_cells.len() == 0,
    ensures
        all_sized(c.moved_up().pages(), c.header.page_size as int),
        beside_kept(c.pages(), c.moved_up().pages(), set![c.parent_id()]),
        c.parent_after().overflow_cells.len() == 0 ==> beside_kept(
            c.pages(),
            c.moved_up().pages(),
            Set::empty(),
        ),
{
    reveal(beside_kept);
    let size = c.header.page_size as int;
    let p = c.parent_id();
    let d = c.moved_up();
    lemma_shared_sized(c);
    assert forall|k: usize| #[trigger] loaded(d.pages(), k) implies {
        &&& page_of(d.pages(), k).sized(size)
        &&& k == p ==> page_of(d.pages(), k) == c.parent_after()
        &&& k != p ==> page_of(d.pages(), k).overflow_cells.len() == 0 || (loaded(c.pages(), k)
            && page_of(d.pages(), k).overflow_cells == page_of(c.pages(), k).overflow_cells)
    } by {
        if k != p && k != c.new_pages[0] && k != c.new_pages[1] {
            assert(loaded(c.pages(), k));
        }
    }
}

/// With a new root, the page that was the root has its cells beside it still, and
/// the new root has none.
pub proof fn lemma_root_rest(b: CursorModel)
    requires
        header_ok(b.header),
        all_sized(b.pages(), b.header.page_size as int),
        loaded(b.pages(), b.top().page),
        b.top().page != (b.header.database_size + 1) as usize,
        b.header.database_size < u32::MAX,
    ensures
        all_sized(b.with_new_root().pages(), b.header.page_size as int),
        beside_kept(
            b.pages(),
            b.with_new_root().pages(),
            set![(b.header.database_size + 1) as usize],
        ),
{
    reveal(beside_kept);
    let root = b.top().page;
    let id = (b.header.database_size + 1) as usize;
    let n = b.with_new_root();
    lemma_new_root_room(b.header, id as int);
    assert forall|k: usize| #[trigger] loaded(n.pages(), k) implies {
        &&& page_of(n.pages(), k).sized(b.header.page_size as int)
        &&& k != id ==> page_of(n.pages(), k).overflow_cells.len() == 0 || (loaded(b.pages(), k)
            && page_of(n.pages(), k).overflow_cells == page_of(b.pages(), k).overflow_cells)
    } by {
        if k == id {
            assert(n.pages()[id] == b.pages()[root]);
        } else if k != root {
            assert(loaded(b.pages(), k));
        }
    }
}

} // verus!
