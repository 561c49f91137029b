//! What keeps a cursor from going on, and the pages that it asks for.

use vstd::prelude::*;
use crate::access::{key_rowid, tells_done, tells_lookup, Lookup};
use crate::cell::{cell_at, CellModel, Fetch};
use crate::cursor::{at_index, pushed, CursorModel, Frame};
use crate::descent::{descend, descend_right, root_stack, tells_landing, Landing};
use crate::errors::StorageError;
use crate::order::{CursorResult, KeyModel, SeekOp};
use crate::page::{PageModel, PageType};
use crate::pager::{loaded, page_of, DatabaseHeader, PageState, PagerModel};
use crate::record::{parse_record, OwnedRecord, OwnedValue};
use crate::tables::{lemma_table_route, table_node};
use crate::walk::{next_entry, search_leaf, tells_found, Found, Walk};

verus! {

// ---------------------------------------------------------------------------
// Asking for pages
// ---------------------------------------------------------------------------

/// Asking for a page puts it on the list of requests, if it was not asked for before,
/// and changes nothing else.
pub proof fn pages_are_asked_for_once(p: PagerModel, id: usize)
    ensures
        ({
            let q = p.touch(id);
            &&& q.dirty == p.dirty
            &&& q.pages.contains_key(id)
            &&& forall|k: usize| #[trigger]
                q.pages.contains_key(k) <==> k == id || p.pages.contains_key(k)
            &&& forall|k: usize| #[trigger] p.pages.contains_key(k) ==> q.pages[k] == p.pages[k]
            &&& p.pages.contains_key(id) ==> q.requests == p.requests
            &&& !p.pages.contains_key(id) ==> {
                &&& q.requests.len() == p.requests.len() + 1
                &&& q.requests[p.requests.len() as int] == id
                &&& forall|i: int|
                    0 <= i < p.requests.len() ==> #[trigger] q.requests[i] == p.requests[i]
                &&& !loaded(q.pages, id)
                &&& !q.pages[id].dirty
            }
            &&& q.touch(id) == q
        }),
{
}

/// Storing, marking, listing or adding a page, or exchanging two, leaves the others as
/// they are.
pub proof fn other_pages_are_kept(
    p: PagerModel,
    a: usize,
    b: usize,
    page: PageModel,
    k: usize,
)
    requires
        k != a,
    ensures
        p.store(a, page).pages.contains_key(k) <==> p.pages.contains_key(k),
        p.store(a, page).pages[k] == p.pages[k],
        page_of(p.store(a, page).pages, a) == page,
        p.store(a, page).pages[a].dirty == p.pages[a].dirty,
        p.store(a, page).dirty == p.dirty,
        p.store(a, page).requests == p.requests,
        p.mark(a).pages[k] == p.pages[k],
        p.mark(a).pages[a].contents == p.pages[a].contents,
        p.mark(a).pages[a].dirty,
        p.mark(a).dirty == p.dirty,
        p.mark(a).requests == p.requests,
        p.listed(a).pages == p.pages,
        p.listed(a).dirty.contains(a),
        p.listed(a).dirty.contains(k) <==> p.dirty.contains(k),
        p.listed(a).requests == p.requests,
        p.with_new(a, page).pages[k] == p.pages[k],
        page_of(p.with_new(a, page).pages, a) == page,
        p.with_new(a, page).pages[a].dirty,
        p.with_new(a, page).dirty.contains(a),
        p.with_new(a, page).dirty.contains(k) <==> p.dirty.contains(k),
        p.with_new(a, page).requests == p.requests,
        k != b ==> p.swapped(a, b).pages[k] == p.pages[k],
        p.swapped(a, b).pages[b] == p.pages[a],
        a != b ==> p.swapped(a, b).pages[a] == p.pages[b],
        p.swapped(a, b).dirty == p.dirty,
        p.swapped(a, b).requests == p.requests,
{
}

/// A new page gets the number behind the last page of the file, which grows by it.
pub proof fn new_pages_are_the_last(c: CursorModel, page: PageModel)
    requires
        c.header.database_size < u32::MAX,
    ensures
        ({
            let d = c.with_page(page);
            let id = (c.header.database_size + 1) as usize;
            &&& d.header.database_size == c.header.database_size + 1
            &&& d.header.page_size == c.header.page_size
            &&& d.header.unused_space == c.header.unused_space
            &&& loaded(d.pages(), id)
            &&& page_of(d.pages(), id) == page
            &&& d.pager.dirty.contains(id)
            &&& d.stack == c.stack
            &&& d.root_page == c.root_page
        }),
{
}

/// The bytes of a page are used but for those at its end that the file keeps free.
pub proof fn usable_bytes_come_first(h: DatabaseHeader)
    ensures
        h.usable() + h.unused_space == h.page_size,
{
}

/// The row id that an integer key stands for: the key, read as a number from 0 on.
pub proof fn keys_are_row_ids(i: i64)
    ensures
        i >= 0 ==> key_rowid(OwnedValue::Integer(i)) == i,
        i < 0 ==> key_rowid(OwnedValue::Integer(i)) == 18446744073709551616 + i,
{
}

// ---------------------------------------------------------------------------
// What is told
// ---------------------------------------------------------------------------

/// A walk or a search tells an entry with its row id, nothing at the end, that it waits,
/// or what is wrong.
pub proof fn finds_are_told(
    found: Found,
    r: Result<CursorResult<(Option<u64>, Option<OwnedRecord>)>, StorageError>,
)
    ensures
        r matches Ok(CursorResult::Done((Some(id), Some(rec)))) ==> (tells_found(found, r)
            <==> found == (Found::Entry { rowid: id as int, record: rec@ })),
        r matches Ok(CursorResult::Done((None, None))) ==> (tells_found(found, r) <==> found
            is End),
        r matches Ok(CursorResult::Done((Some(_), None))) ==> !tells_found(found, r),
        r matches Ok(CursorResult::Done((None, Some(_)))) ==> !tells_found(found, r),
        r matches Ok(CursorResult::IO) ==> (tells_found(found, r) <==> found is Wait),
        r matches Err(e) ==> (tells_found(found, r) <==> found == Found::Fail(e)),
{
}

/// A step tells that it is done, also at the end, that it waits, or what is wrong.
pub proof fn steps_are_told(found: Found, r: Result<CursorResult<()>, StorageError>)
    ensures
        r matches Ok(CursorResult::Done(_)) ==> (tells_done(found, r) <==> found is Entry || found
            is End),
        r matches Ok(CursorResult::IO) ==> (tells_done(found, r) <==> found is Wait),
        r matches Err(e) ==> (tells_done(found, r) <==> found == Found::Fail(e)),
{
}

/// Looking up a row tells whether it is there, that it waits, or what is wrong.
pub proof fn lookups_are_told(l: Lookup, r: Result<CursorResult<bool>, StorageError>)
    ensures
        r matches Ok(CursorResult::Done(b)) ==> (tells_lookup(l, r) <==> l == Lookup::Answer(b)),
        r matches Ok(CursorResult::IO) ==> (tells_lookup(l, r) <==> l is Wait),
        r matches Err(e) ==> (tells_lookup(l, r) <==> l == Lookup::Fail(e)),
{
}

/// A way down tells that it came to a leaf, that it waits, or what is wrong.
pub proof fn ways_are_told(end: Landing, r: Result<CursorResult<()>, StorageError>)
    ensures
        r matches Ok(CursorResult::Done(_)) ==> (tells_landing(end, r) <==> end is Leaf),
        r matches Ok(CursorResult::IO) ==> (tells_landing(end, r) <==> end is Wait),
        r matches Err(e) ==> (tells_landing(end, r) <==> end == Landing::Fail(e)),
{
}

// ---------------------------------------------------------------------------
// The stack
// ---------------------------------------------------------------------------

/// Going down puts a page on the stack, at its first cell. Going to a cell changes
/// the page on top only.
pub proof fn stacks_change_at_the_top(stack: Seq<Frame>, page: usize, index: usize)
    ensures
        pushed(stack, page as int).len() == stack.len() + 1,
        pushed(stack, page as int)[stack.len() as int] == (Frame { page, index: 0 }),
        forall|i: int|
            0 <= i < stack.len() ==> #[trigger] pushed(stack, page as int)[i] == stack[i],
        stack.len() > 0 ==> {
            let s = at_index(stack, index as int);
            &&& s.len() == stack.len()
            &&& s[stack.len() - 1].index == index
            &&& s[stack.len() - 1].page == stack[stack.len() - 1].page
            &&& forall|i: int| 0 <= i < stack.len() - 1 ==> #[trigger] s[i] == stack[i]
        },
{
}

// ---------------------------------------------------------------------------
// What is in the way
// ---------------------------------------------------------------------------

/// Whether the bytes are those of a page of a tree.
pub open spec fn has_type(page: PageModel) -> bool {
    let code = page.buf[page.offset];
    code == 2 || code == 5 || code == 10 || code == 13
}

/// A step from a page that is not in memory waits for that page, and one from a
/// page that is no page of a tree says so. The cursor stays where it is, and with
/// the entry that it holds; the page is asked for.
#[verifier::spinoff_prover]
#[verifier::rlimit(40)]
pub proof fn steps_stop_at_bad_pages(c: CursorModel)
    requires
        0 < c.stack.len() <= 21,
    ensures
        ({
            let id = c.stack[c.stack.len() - 1].page;
            let x = c.following(None);
            let d = c.stepped();
            &&& !loaded(c.pages(), id) ==> {
                &&& x.found == Found::Wait(id)
                &&& d.pager == c.pager.touch(id)
            }
            &&& loaded(c.pages(), id) && !has_type(page_of(c.pages(), id)) ==> {
                &&& x.found == Found::Fail(StorageError::CorruptPage)
                &&& d.pager == c.pager
            }
            &&& !loaded(c.pages(), id) || !has_type(page_of(c.pages(), id)) ==> {
                &&& d.stack == c.stack
                &&& d.going_upwards == c.going_upwards
                &&& d.rowid == c.rowid
                &&& d.record == c.record
            }
        }),
{
}

/// A step that has to wait or fails keeps the entry that the cursor holds; one that
/// comes to the end leaves it without one.
pub proof fn entries_are_kept_on_trouble(c: CursorModel)
    ensures
        ({
            let x = c.following(None);
            let d = c.stepped();
            &&& x.found is Wait || x.found is Fail ==> d.rowid == c.rowid && d.record == c.record
            &&& x.found is End ==> d.rowid is None && d.record is None
            &&& x.found is Entry ==> d.rowid == Some(x.found->rowid as u64) && d.record == Some(
                x.found->record,
            )
            &&& d.root_page == c.root_page
            &&& d.header == c.header
            &&& d.null_flag == c.null_flag
            &&& d.state == c.state
            &&& !(x.found is Wait) ==> d.pager == c.pager
        }),
{
}

/// A step to a row whose payload is no record says so, and passes the row.
pub proof fn steps_stop_at_bad_records(c: CursorModel, rowid: int, payload: Seq<u8>)
    requires
        0 < c.stack.len() <= 21,
        loaded(c.pages(), c.top().page),
        c.top_page().page_type() == Some(PageType::TableLeaf),
        c.top().index < c.top_page().cell_count(),
        cell_at(c.pages(), c.top_page(), c.top().index as int, c.usable()) == Fetch::Ready(
            CellModel::TableLeaf { rowid, payload },
        ),
        parse_record(payload) is None,
    ensures
        c.following(None).found == Found::Fail(StorageError::CorruptRecord),
        c.stepped().top().index == c.top().index + 1,
        c.stepped().top().page == c.top().page,
{
}

/// A step to a cell that cannot be laid out says that the page is corrupt, and a step
/// to one with an overflow page that is not in memory waits for that page.
pub proof fn steps_stop_at_bad_cells(c: CursorModel)
    requires
        0 < c.stack.len() <= 21,
        loaded(c.pages(), c.top().page),
        c.top_page().page_type() is Some,
        c.top().index < c.top_page().cell_count(),
    ensures
        ({
            let cell = cell_at(c.pages(), c.top_page(), c.top().index as int, c.usable());
            &&& cell is Corrupt ==> c.following(None).found == Found::Fail(
                StorageError::CorruptPage,
            )
            &&& cell is Wait ==> c.following(None).found == Found::Wait(cell->Wait_0)
            &&& cell is Corrupt || cell is Wait ==> c.stepped().stack == c.stack
        }),
{
}

/// A step that would put more than 21 pages on the stack says that the tree is too
/// deep.
pub proof fn steps_stop_in_deep_trees(pages: Map<usize, PageState>, w: Walk, usable: int)
    requires
        w.stack.len() == 21,
        loaded(pages, w.stack.last().page),
        page_of(pages, w.stack.last().page).page_type() == Some(PageType::TableInterior),
        w.stack.last().index <= page_of(pages, w.stack.last().page).cell_count(),
        forall|i: int|
            0 <= i < page_of(pages, w.stack.last().page).cell_count() ==> cell_at(
                pages,
                page_of(pages, w.stack.last().page),
                i,
                usable,
            ) is Ready,
    ensures
        next_entry(pages, w, None, usable).found == Found::Fail(StorageError::TreeTooDeep),
{
    let page = page_of(pages, w.stack.last().page);
    let i = w.stack.last().index as int;
    if i < page.cell_count() {
        assert(cell_at(pages, page, i, usable) is Ready);
    }
}

/// A search stops at a root that is not in memory, which it asks for, or that is no page
/// of a tree.
#[verifier::spinoff_prover]
#[verifier::rlimit(40)]
pub proof fn searches_stop_at_bad_roots(c: CursorModel, key: KeyModel, op: SeekOp)
    ensures
        ({
            let x = c.search(key, op);
            let d = c.walked(x).holding(x.found);
            let id = c.root_page;
            &&& !loaded(c.pages(), id) ==> {
                &&& x.found == Found::Wait(id)
                &&& d.pager == c.pager.touch(id)
            }
            &&& loaded(c.pages(), id) && !has_type(page_of(c.pages(), id)) ==> {
                &&& x.found == Found::Fail(StorageError::CorruptPage)
                &&& d.pager == c.pager
            }
            &&& !loaded(c.pages(), id) || !has_type(page_of(c.pages(), id)) ==> {
                &&& d.rowid == c.rowid
                &&& d.record == c.record
                &&& d.stack.len() == 1
                &&& d.stack[0] == (Frame { page: id, index: 0 })
            }
        }),
{
    let stack = root_stack(c.root_page);
    assert(stack.last().page == c.root_page);
    assert(descend(c.pages(), stack, key, op, c.usable()).stack == stack || loaded(
        c.pages(),
        c.root_page,
    ));
}

/// Looking a row up, and going to the last one, stop at a root that is not in memory,
/// which is asked for, or that is no page of a tree.
#[verifier::spinoff_prover]
#[verifier::rlimit(40)]
pub proof fn lookups_stop_at_bad_roots(c: CursorModel, k: int)
    ensures
        ({
            let id = c.root_page;
            &&& !loaded(c.pages(), id) ==> {
                &&& c.lookup(k) == Lookup::Wait(id)
                &&& c.looked_up(k).pager == c.pager.touch(id)
                &&& c.right_edge().end == Landing::Wait(id)
                &&& c.at_last().pager == c.pager.touch(id)
            }
            &&& loaded(c.pages(), id) && !has_type(page_of(c.pages(), id)) ==> {
                &&& c.lookup(k) == Lookup::Fail(StorageError::CorruptPage)
                &&& c.looked_up(k).pager == c.pager
                &&& c.right_edge().end == Landing::Fail(StorageError::CorruptPage)
                &&& c.at_last().pager == c.pager
            }
        }),
{
    let stack = root_stack(c.root_page);
    assert(stack.last().page == c.root_page);
    assert(descend(c.pages(), stack, KeyModel::RowId(k), SeekOp::EQ, c.usable()).stack == stack
        || loaded(c.pages(), c.root_page));
}

/// A way down that would put more than 21 pages on the stack says that the tree is too
/// deep.
pub proof fn ways_stop_in_deep_trees(
    pages: Map<usize, PageState>,
    stack: Seq<Frame>,
    k: int,
    op: SeekOp,
    lo: int,
    hi: int,
    usable: int,
)
    requires
        stack.len() == 21,
        loaded(pages, stack.last().page),
        table_node(page_of(pages, stack.last().page), lo, hi, usable),
    ensures
        descend(pages, stack, KeyModel::RowId(k), op, usable).end == Landing::Fail(
            StorageError::TreeTooDeep,
        ),
        descend_right(pages, stack).end == Landing::Fail(StorageError::TreeTooDeep),
{
    let page = page_of(pages, stack.last().page);
    lemma_table_route(pages, page, k, op, lo, hi, usable, 0);
}

/// Whether cell `i` of a leaf holds a row that a search does not look for.
pub open spec fn is_passed(
    pages: Map<usize, PageState>,
    page: PageModel,
    i: int,
    k: int,
    op: SeekOp,
    usable: int,
) -> bool {
    match cell_at(pages, page, i, usable) {
        Fetch::Ready(CellModel::TableLeaf { rowid, .. }) => !(match op {
            SeekOp::EQ => rowid == k,
            SeekOp::GE => rowid >= k,
            SeekOp::GT => rowid > k,
        }),
        _ => false,
    }
}

proof fn lemma_cells_passed(
    pages: Map<usize, PageState>,
    page: PageModel,
    k: int,
    op: SeekOp,
    usable: int,
    i: int,
    n: int,
)
    requires
        0 <= i <= n <= page.cell_count(),
        forall|j: int| i <= j < n ==> #[trigger] is_passed(pages, page, j, k, op, usable),
    ensures
        search_leaf(pages, page, KeyModel::RowId(k), op, usable, i) == search_leaf(
            pages,
            page,
            KeyModel::RowId(k),
            op,
            usable,
            n,
        ),
    decreases n - i,
{
    if i < n {
        assert(is_passed(pages, page, i, k, op, usable));
        lemma_cells_passed(pages, page, k, op, usable, i + 1, n);
    }
}

/// A search on a leaf that comes to cell `n`, past rows that it does not look for, stops
/// there if the cell cannot be read: at an overflow page that is not in memory, at
/// a cell that cannot be laid out, or, past the cell, at a payload that is no record of a
/// row that it looks for.
#[verifier::spinoff_prover]
#[verifier::rlimit(40)]
pub proof fn searches_stop_at_bad_cells(c: CursorModel, k: int, op: SeekOp, n: int)
    requires
        loaded(c.pages(), c.root_page),
        page_of(c.pages(), c.root_page).page_type() == Some(PageType::TableLeaf),
        0 <= n < page_of(c.pages(), c.root_page).cell_count(),
        forall|j: int|
            0 <= j < n ==> #[trigger] is_passed(
                c.pages(),
                page_of(c.pages(), c.root_page),
                j,
                k,
                op,
                c.usable(),
            ),
    ensures
        ({
            let page = page_of(c.pages(), c.root_page);
            let x = c.search(KeyModel::RowId(k), op);
            match cell_at(c.pages(), page, n, c.usable()) {
                Fetch::Wait(id) => x.found == Found::Wait(id) && x.walk.stack[0].index == n,
                Fetch::Corrupt => x.found == Found::Fail(StorageError::CorruptPage)
                    && x.walk.stack[0].index == n,
                Fetch::Ready(CellModel::TableLeaf { rowid, payload }) => !is_passed(
                    c.pages(),
                    page,
                    n,
                    k,
                    op,
                    c.usable(),
                ) && parse_record(payload) is None ==> x.found == Found::Fail(
                    StorageError::CorruptRecord,
                ) && x.walk.stack[0].index == n + 1,
                _ => true,
            }
        }),
{
    let page = page_of(c.pages(), c.root_page);
    let stack = root_stack(c.root_page);
    assert(stack.last().page == c.root_page);
    lemma_cells_passed(c.pages(), page, k, op, c.usable(), 0, n);
}

} // verus!
