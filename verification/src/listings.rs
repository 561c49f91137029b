//! The pages that an insertion leaves to be written.

use vstd::prelude::*;
use crate::balance::lemma_write_nearer;
use crate::cursor::{header_ok, CursorModel, Frame, WriteState};
use crate::fill::{lemma_pages_nonneg, overflow_page, pages_for, spill, spilled};
use crate::page::{lemma_limits, PageType};
use crate::pager::{loaded, PagerModel};
use crate::record::{record_bytes, ValueModel};
use crate::space::{has_room, lemma_allocated_shape};

verus! {

/// Whether page `id` is marked as changed and on the list of pages to write.
pub open spec fn is_listed(p: PagerModel, id: usize) -> bool {
    p.pages[id].dirty && p.dirty.contains(id)
}

/// Whether page `id` has other bytes or other cells beside it in `after` than it
/// had in `before`, or was not there.
pub open spec fn is_changed(before: PagerModel, after: PagerModel, id: usize) -> bool {
    loaded(after.pages, id) && !(before.pages.contains_key(id) && before.pages[id].contents
        == after.pages[id].contents)
}

/// Whether all pages that changed are listed, and those still that were.
pub open spec fn changes_listed(before: PagerModel, after: PagerModel) -> bool {
    &&& forall|id: usize| #[trigger] is_changed(before, after, id) ==> is_listed(after, id)
    &&& forall|id: usize| #[trigger] before.dirty.contains(id) ==> after.dirty.contains(id)
}

/// Whether the pages that a step of an insertion may go on to change are listed.
spec fn at_hand(c: CursorModel) -> bool {
    match c.state {
        WriteState::Start => false,
        WriteState::BalanceStart => c.stack.len() > 0 && is_listed(c.pager, c.top().page),
        WriteState::Finish => true,
        _ => {
            &&& c.new_pages.len() == 2
            &&& is_listed(c.pager, c.new_pages[0])
            &&& is_listed(c.pager, c.new_pages[1])
        },
    }
}

proof fn lemma_spilled_listed(
    base: PagerModel,
    pager: PagerModel,
    rest: Seq<u8>,
    id: int,
    usable: int,
    page_size: int,
    top: usize,
)
    requires
        changes_listed(base, pager),
        is_listed(pager, top),
    ensures
        changes_listed(base, spilled(pager, rest, id, usable, page_size)),
        is_listed(spilled(pager, rest, id, usable, page_size), top),
    decreases rest.len(),
{
    if rest.len() > 0 && usable > 4 {
        let next: int = if rest.len() <= usable - 4 {
            0
        } else {
            id + 1
        };
        let part = if rest.len() <= usable - 4 {
            rest
        } else {
            rest.take(usable - 4)
        };
        let p = pager.with_new(id as usize, overflow_page(next, part, page_size));
        assert forall|k: usize| #[trigger] is_changed(base, p, k) implies is_listed(p, k) by {
            if k != id as usize {
                assert(is_changed(base, pager, k));
            }
        }
        if rest.len() > usable - 4 {
            lemma_spilled_listed(
                base,
                p,
                rest.skip(usable - 4),
                id + 1,
                usable,
                page_size,
                top,
            );
        }
    }
}

proof fn lemma_row_listed(c: CursorModel, rowid: u64, record: Seq<ValueModel>)
    requires
        c.stack.len() > 0,
        loaded(c.pages(), c.top().page),
    ensures
        changes_listed(c.pager, c.with_row(rowid, record).pager),
        at_hand(c.with_row(rowid, record)),
{
    let top = c.top().page;
    let m = c.touching(top);
    assert(changes_listed(c.pager, m.pager));
    let t = PageType::TableLeaf;
    let s = m.with_spill(t, record_bytes(record));
    lemma_spilled_listed(
        c.pager,
        m.pager,
        spill(t, record_bytes(record), m.usable()),
        m.header.database_size + 1,
        m.usable(),
        m.header.page_size as int,
        top,
    );
    let d = c.with_row(rowid, record);
    assert forall|k: usize| #[trigger] is_changed(c.pager, d.pager, k) implies is_listed(
        d.pager,
        k,
    ) by {
        if k != top {
            assert(is_changed(c.pager, s.pager, k));
        }
    }
}

#[verifier::spinoff_prover]
#[verifier::rlimit(40)]
proof fn lemma_balance_listed(base: PagerModel, c: CursorModel)
    requires
        c.balance_ok(),
        !c.balance_waits(),
        changes_listed(base, c.pager),
        at_hand(c),
    ensures
        changes_listed(base, c.balanced().pager),
        at_hand(c.balanced()),
{
    let d = c.balanced();
    assert forall|k: usize| #[trigger] is_changed(base, d.pager, k) implies is_listed(
        d.pager,
        k,
    ) by {
        if c.pages().contains_key(k) && c.pages()[k].contents == d.pages()[k].contents {
            assert(is_changed(base, c.pager, k));
        }
    }
}

proof fn lemma_written_listed(
    base: PagerModel,
    c: CursorModel,
    rowid: u64,
    record: Seq<ValueModel>,
)
    requires
        c.written(rowid, record).ok,
        changes_listed(base, c.pager),
        c.state != WriteState::Start ==> at_hand(c),
        c.state == WriteState::Start ==> base == c.pager,
    ensures
        changes_listed(base, c.written(rowid, record).cursor.pager),
    decreases c.steps_left(),
{
    if c.write_ok(rowid, record) && !c.write_waits() && c.state != WriteState::Finish {
        lemma_write_nearer(c, rowid, record);
        if c.state == WriteState::Start {
            lemma_row_listed(c, rowid, record);
        } else {
            lemma_balance_listed(base, c);
        }
        lemma_written_listed(base, c.write_step(rowid, record), rowid, record);
    }
}

/// After an insertion, or as far as it came before it had to wait, all pages that
/// changed or are new are marked and on the list of pages to write, and so are
/// those that were on it.
pub proof fn changed_pages_are_listed(c: CursorModel, rowid: u64, record: Seq<ValueModel>)
    requires
        c.state == WriteState::Start,
        c.written(rowid, record).ok,
    ensures
        changes_listed(c.pager, c.written(rowid, record).cursor.pager),
{
    lemma_written_listed(c.pager, c, rowid, record);
}

// ---------------------------------------------------------------------------
// New pages
// ---------------------------------------------------------------------------

/// Whether the pages that are new have the numbers behind `size` up to `now`, and all of
/// these are there.
pub open spec fn pages_added(before: PagerModel, after: PagerModel, size: int, now: int) -> bool {
    &&& size <= now
    &&& forall|id: usize| #[trigger]
        after.pages.contains_key(id) ==> before.pages.contains_key(id) || size < id <= now
    &&& forall|id: usize| size < id <= now ==> #[trigger] loaded(after.pages, id)
}

proof fn lemma_spilled_added(
    base: PagerModel,
    pager: PagerModel,
    rest: Seq<u8>,
    size: int,
    id: int,
    usable: int,
    page_size: int,
)
    requires
        pages_added(base, pager, size, id - 1),
        0 <= size < id,
        id - 1 + pages_for(rest.len() as int, usable) <= u32::MAX,
        usable > 4,
    ensures
        pages_added(
            base,
            spilled(pager, rest, id, usable, page_size),
            size,
            id - 1 + pages_for(rest.len() as int, usable),
        ),
    decreases rest.len(),
{
    if rest.len() > 0 {
        lemma_pages_nonneg(rest.len() - (usable - 4), usable);
        let next: int = if rest.len() <= usable - 4 {
            0
        } else {
            id + 1
        };
        let part = if rest.len() <= usable - 4 {
            rest
        } else {
            rest.take(usable - 4)
        };
        let p = pager.with_new(id as usize, overflow_page(next, part, page_size));
        assert forall|k: usize| size < k <= id implies #[trigger] loaded(p.pages, k) by {
            if k != id {
                assert(loaded(pager.pages, k));
            }
        }
        assert forall|k: usize| #[trigger] p.pages.contains_key(k) implies base.pages.contains_key(
            k,
        ) || size < k <= id by {
            if k != id {
                assert(pager.pages.contains_key(k));
            }
        }
        if rest.len() > usable - 4 {
            lemma_spilled_added(
                base,
                p,
                rest.skip(usable - 4),
                size,
                id + 1,
                usable,
                page_size,
            );
        }
    }
}

proof fn lemma_row_added(c: CursorModel, rowid: u64, record: Seq<ValueModel>)
    requires
        header_ok(c.header),
        loaded(c.pages(), c.top().page),
        c.row_ok(rowid, record),
    ensures
        pages_added(
            c.pager,
            c.with_row(rowid, record).pager,
            c.header.database_size as int,
            c.with_row(rowid, record).header.database_size as int,
        ),
{
    let top = c.top().page;
    let m = c.touching(top);
    let t = PageType::TableLeaf;
    let r = spill(t, record_bytes(record), m.usable());
    let size = c.header.database_size as int;
    lemma_limits(c.usable());
    lemma_pages_nonneg(r.len() as int, m.usable());
    assert forall|k: usize| #[trigger] m.pages().contains_key(k) implies c.pages().contains_key(
        k,
    ) || size < k <= size by {}
    lemma_spilled_added(c.pager, m.pager, r, size, size + 1, m.usable(), m.header.page_size as int);
    let s = m.with_spill(t, record_bytes(record));
    let d = c.with_row(rowid, record);
    assert(c.stack[c.stack.len() - 1].page <= size);
    assert forall|k: usize| #[trigger] d.pages().contains_key(k) implies c.pages().contains_key(
        k,
    ) || size < k <= d.header.database_size by {
        if k != top {
            assert(s.pages().contains_key(k));
        }
    }
    assert forall|k: usize| size < k <= d.header.database_size implies #[trigger] loaded(
        d.pager.pages,
        k,
    ) by {
        assert(loaded(s.pager.pages, k));
    }
}

#[verifier::spinoff_prover]
#[verifier::rlimit(40)]
proof fn lemma_balance_added(base: PagerModel, c: CursorModel, size: int)
    requires
        c.balance_ok(),
        !c.balance_waits(),
        pages_added(base, c.pager, size, c.header.database_size as int),
    ensures
        pages_added(base, c.balanced().pager, size, c.balanced().header.database_size as int),
{
    let d = c.balanced();
    let now = c.header.database_size as int;
    let then = d.header.database_size as int;
    assert forall|k: usize| #[trigger] d.pager.pages.contains_key(
        k,
    ) implies base.pages.contains_key(k) || size < k <= then by {
        if k != now + 1 {
            assert(c.pager.pages.contains_key(k));
        }
    }
    assert forall|k: usize| size < k <= then implies #[trigger] loaded(d.pager.pages, k) by {
        if k <= now {
            assert(loaded(c.pager.pages, k));
        }
    }
}

proof fn lemma_written_added(
    base: PagerModel,
    c: CursorModel,
    rowid: u64,
    record: Seq<ValueModel>,
    size: int,
)
    requires
        c.written(rowid, record).ok,
        pages_added(base, c.pager, size, c.header.database_size as int),
        c.state == WriteState::Start ==> base == c.pager && size == c.header.database_size,
    ensures
        pages_added(
            base,
            c.written(rowid, record).cursor.pager,
            size,
            c.written(rowid, record).cursor.header.database_size as int,
        ),
    decreases c.steps_left(),
{
    if c.write_ok(rowid, record) && !c.write_waits() && c.state != WriteState::Finish {
        lemma_write_nearer(c, rowid, record);
        if c.state == WriteState::Start {
            lemma_row_added(c, rowid, record);
        } else {
            lemma_balance_added(base, c, size);
        }
        lemma_written_added(base, c.write_step(rowid, record), rowid, record, size);
    }
}

/// An insertion adds pages behind the last page of the file only, one next to the
/// other, and the file then has as many pages more.
pub proof fn new_pages_lie_behind(c: CursorModel, rowid: u64, record: Seq<ValueModel>)
    requires
        c.state == WriteState::Start,
        c.written(rowid, record).ok,
    ensures
        pages_added(
            c.pager,
            c.written(rowid, record).cursor.pager,
            c.header.database_size as int,
            c.written(rowid, record).cursor.header.database_size as int,
        ),
{
    lemma_written_added(c.pager, c, rowid, record, c.header.database_size as int);
}

// ---------------------------------------------------------------------------
// Pages that do not change
// ---------------------------------------------------------------------------

/// Whether page `id` is on the stack, or behind the last page of the file.
pub open spec fn in_reach(stack: Seq<Frame>, size: int, id: usize) -> bool {
    id > size || exists|i: int| 0 <= i < stack.len() && (#[trigger] stack[i]).page == id
}

/// Whether all pages that changed are in reach.
pub open spec fn changes_in_reach(
    before: PagerModel,
    after: PagerModel,
    stack: Seq<Frame>,
    size: int,
) -> bool {
    forall|id: usize| #[trigger] is_changed(before, after, id) ==> in_reach(stack, size, id)
}

/// Whether the pages that a step of an insertion goes on with are in reach.
spec fn stays_in_reach(c: CursorModel, stack: Seq<Frame>, size: int) -> bool {
    &&& size <= c.header.database_size
    &&& forall|i: int|
        0 <= i < c.stack.len() ==> in_reach(stack, size, (#[trigger] c.stack[i]).page)
    &&& c.state == WriteState::BalanceGetParentPage || c.state == WriteState::BalanceMoveUp ==> {
        &&& c.new_pages.len() == 2
        &&& in_reach(stack, size, c.new_pages[0])
        &&& in_reach(stack, size, c.new_pages[1])
    }
}

proof fn lemma_spilled_in_reach(
    base: PagerModel,
    pager: PagerModel,
    stack: Seq<Frame>,
    size: int,
    rest: Seq<u8>,
    id: int,
    usable: int,
    page_size: int,
)
    requires
        changes_in_reach(base, pager, stack, size),
        0 <= size < id,
        id - 1 + pages_for(rest.len() as int, usable) <= u32::MAX,
        usable > 4,
    ensures
        changes_in_reach(base, spilled(pager, rest, id, usable, page_size), stack, size),
    decreases rest.len(),
{
    if rest.len() > 0 {
        lemma_pages_nonneg(rest.len() - (usable - 4), usable);
        let next: int = if rest.len() <= usable - 4 {
            0
        } else {
            id + 1
        };
        let part = if rest.len() <= usable - 4 {
            rest
        } else {
            rest.take(usable - 4)
        };
        let p = pager.with_new(id as usize, overflow_page(next, part, page_size));
        assert forall|k: usize| #[trigger] is_changed(base, p, k) implies in_reach(
            stack,
            size,
            k,
        ) by {
            if k != id {
                assert(is_changed(base, pager, k));
            }
        }
        if rest.len() > usable - 4 {
            lemma_spilled_in_reach(
                base,
                p,
                stack,
                size,
                rest.skip(usable - 4),
                id + 1,
                usable,
                page_size,
            );
        }
    }
}

proof fn lemma_row_in_reach(c: CursorModel, rowid: u64, record: Seq<ValueModel>)
    requires
        header_ok(c.header),
        loaded(c.pages(), c.top().page),
        c.row_ok(rowid, record),
    ensures
        changes_in_reach(
            c.pager,
            c.with_row(rowid, record).pager,
            c.stack,
            c.header.database_size as int,
        ),
        stays_in_reach(c.with_row(rowid, record), c.stack, c.header.database_size as int),
{
    let top = c.top().page;
    let m = c.touching(top);
    let t = PageType::TableLeaf;
    let r = spill(t, record_bytes(record), m.usable());
    let size = c.header.database_size as int;
    lemma_limits(c.usable());
    lemma_pages_nonneg(r.len() as int, m.usable());
    assert(changes_in_reach(c.pager, m.pager, c.stack, size));
    lemma_spilled_in_reach(
        c.pager,
        m.pager,
        c.stack,
        size,
        r,
        size + 1,
        m.usable(),
        m.header.page_size as int,
    );
    let s = m.with_spill(t, record_bytes(record));
    let d = c.with_row(rowid, record);
    assert(c.stack[c.stack.len() - 1].page == top);
    assert(in_reach(c.stack, size, top));
    assert forall|k: usize| #[trigger] is_changed(c.pager, d.pager, k) implies in_reach(
        c.stack,
        size,
        k,
    ) by {
        if k != top {
            assert(is_changed(c.pager, s.pager, k));
        }
    }
    assert forall|i: int| 0 <= i < d.stack.len() implies in_reach(
        c.stack,
        size,
        (#[trigger] d.stack[i]).page,
    ) by {
        assert(d.stack[i] == c.stack[i]);
    }
}

#[verifier::spinoff_prover]
#[verifier::rlimit(40)]
proof fn lemma_balance_in_reach(base: PagerModel, c: CursorModel, stack: Seq<Frame>, size: int)
    requires
        c.balance_ok(),
        !c.balance_waits(),
        changes_in_reach(base, c.pager, stack, size),
        stays_in_reach(c, stack, size),
    ensures
        changes_in_reach(base, c.balanced().pager, stack, size),
        stays_in_reach(c.balanced(), stack, size),
{
    let d = c.balanced();
    let id = (c.header.database_size + 1) as usize;
    assert(in_reach(stack, size, c.stack[c.stack.len() - 1].page));
    assert(c.header.database_size < u32::MAX ==> in_reach(stack, size, id));
    if c.stack.len() > 1 {
        assert(in_reach(stack, size, c.stack[c.stack.len() - 2].page));
    }
    assert forall|k: usize| #[trigger] is_changed(base, d.pager, k) implies in_reach(
        stack,
        size,
        k,
    ) by {
        if c.pages().contains_key(k) && c.pages()[k].contents == d.pages()[k].contents {
            assert(is_changed(base, c.pager, k));
        }
    }
    assert forall|i: int| 0 <= i < d.stack.len() implies in_reach(
        stack,
        size,
        (#[trigger] d.stack[i]).page,
    ) by {
        if i < c.stack.len() {
            assert(in_reach(stack, size, c.stack[i].page));
        }
    }
}

proof fn lemma_written_in_reach(
    base: PagerModel,
    c: CursorModel,
    rowid: u64,
    record: Seq<ValueModel>,
    stack: Seq<Frame>,
    size: int,
)
    requires
        c.written(rowid, record).ok,
        changes_in_reach(base, c.pager, stack, size),
        c.state != WriteState::Start ==> stays_in_reach(c, stack, size),
        c.state == WriteState::Start ==> base == c.pager && stack == c.stack && size
            == c.header.database_size,
    ensures
        changes_in_reach(base, c.written(rowid, record).cursor.pager, stack, size),
    decreases c.steps_left(),
{
    if c.write_ok(rowid, record) && !c.write_waits() && c.state != WriteState::Finish {
        lemma_write_nearer(c, rowid, record);
        if c.state == WriteState::Start {
            lemma_row_in_reach(c, rowid, record);
        } else {
            lemma_balance_in_reach(base, c, stack, size);
        }
        lemma_written_in_reach(base, c.write_step(rowid, record), rowid, record, stack, size);
    }
}

/// An insertion changes no page of the file but those on the cursor's way from the root
/// to the leaf.
pub proof fn insertions_stay_on_their_way(c: CursorModel, rowid: u64, record: Seq<ValueModel>)
    requires
        c.state == WriteState::Start,
        c.written(rowid, record).ok,
    ensures
        changes_in_reach(
            c.pager,
            c.written(rowid, record).cursor.pager,
            c.stack,
            c.header.database_size as int,
        ),
{
    lemma_written_in_reach(
        c.pager,
        c,
        rowid,
        record,
        c.stack,
        c.header.database_size as int,
    );
}

/// The root of a tree keeps its number when a row is inserted, and the cursor's way
/// still starts there.
#[verifier::spinoff_prover]
#[verifier::rlimit(40)]
pub proof fn roots_stay(c: CursorModel, rowid: u64, record: Seq<ValueModel>)
    requires
        c.stack.len() > 0,
        c.stack[0].page == c.root_page,
        c.written(rowid, record).ok,
    ensures
        ({
            let d = c.written(rowid, record).cursor;
            &&& d.root_page == c.root_page
            &&& d.stack.len() > 0
            &&& d.stack[0].page == c.root_page
        }),
    decreases c.steps_left(),
{
    if c.write_ok(rowid, record) && !c.write_waits() && c.state != WriteState::Finish {
        lemma_write_nearer(c, rowid, record);
        roots_stay(c.write_step(rowid, record), rowid, record);
    }
}

/// A row for which the leaf has room leaves the cursor where it is.
pub proof fn rows_with_room_keep_the_place(c: CursorModel, rowid: u64, record: Seq<ValueModel>)
    requires
        c.state == WriteState::Start,
        c.stack.len() > 0,
        loaded(c.pages(), c.top().page),
        c.written(rowid, record).ok,
        has_room(c.top_page(), c.cell_for(rowid, record)),
        c.top_page().overflow_cells.len() == 0,
    ensures
        !c.written(rowid, record).waits,
        c.written(rowid, record).cursor.stack == c.stack,
        c.written(rowid, record).cursor.new_pages == c.new_pages,
{
    let d = c.with_row(rowid, record);
    let p = c.top_page();
    assert(c.leaf_with(rowid, record).overflow_cells == p.overflow_cells) by {
        lemma_allocated_shape(p, c.cell_for(rowid, record).len() as int, c.usable());
    }
    assert(d.state == WriteState::Finish);
    assert(c.written(rowid, record) == d.written(rowid, record));
}

/// An insertion that has to wait, taken again, comes to the same place and waits there
/// still, as long as the page does not come. One that is done is ready for the next
/// row.
#[verifier::spinoff_prover]
#[verifier::rlimit(40)]
pub proof fn waiting_insertions_stay(c: CursorModel, rowid: u64, record: Seq<ValueModel>)
    requires
        c.written(rowid, record).ok,
    ensures
        ({
            let w = c.written(rowid, record);
            &&& w.waits ==> w.cursor.written(rowid, record) == w
            &&& !w.waits ==> w.cursor.state == WriteState::Start
            &&& w.cursor.null_flag == c.null_flag
            &&& w.cursor.rowid == c.rowid
            &&& w.cursor.record == c.record
            &&& w.cursor.going_upwards == c.going_upwards
            &&& w.cursor.header.page_size == c.header.page_size
            &&& w.cursor.header.unused_space == c.header.unused_space
            &&& w.cursor.pager.requests == c.pager.requests
        }),
    decreases c.steps_left(),
{
    if c.write_ok(rowid, record) && !c.write_waits() && c.state != WriteState::Finish {
        lemma_write_nearer(c, rowid, record);
        let d = c.write_step(rowid, record);
        waiting_insertions_stay(d, rowid, record);
        if c.state == WriteState::Start {
            let m = c.touching(c.top().page);
            lemma_spilled_requests(
                m.pager,
                spill(PageType::TableLeaf, record_bytes(record), m.usable()),
                m.header.database_size + 1,
                m.usable(),
                m.header.page_size as int,
            );
        }
    }
}

proof fn lemma_spilled_requests(
    pager: PagerModel,
    rest: Seq<u8>,
    id: int,
    usable: int,
    page_size: int,
)
    ensures
        spilled(pager, rest, id, usable, page_size).requests == pager.requests,
    decreases rest.len(),
{
    if rest.len() > usable - 4 && usable > 4 {
        let part = rest.take(usable - 4);
        let p = pager.with_new(id as usize, overflow_page(id + 1, part, page_size));
        lemma_spilled_requests(p, rest.skip(usable - 4), id + 1, usable, page_size);
    }
}

} // verus!
