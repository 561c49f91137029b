//! An answer does not depend on which other pages are in memory.

use vstd::prelude::*;
use crate::balance::first_at_least;
use crate::bytes::be32;
use crate::cell::{cell_at, chain};
use crate::cursor::{at_index, pushed, BTCURSOR_MAX_DEPTH, CursorModel, Frame};
use crate::descent::{descend, root_stack, route, Route};
use crate::order::{KeyModel, SeekOp};
use crate::page::{leaf_type, PageModel};
use crate::pager::{loaded, page_of, PageState, PagerModel};
use crate::walk::{distance, lemma_step_nearer, next_entry, search_leaf, step, Hit, Step, Walk};

verus! {

/// Whether all pages that are in memory still are, as they were.
pub open spec fn still_there(
    pages: Map<usize, PageState>,
    pages2: Map<usize, PageState>,
) -> bool {
    forall|k: usize| #[trigger]
        loaded(pages, k) ==> loaded(pages2, k) && page_of(pages2, k) == page_of(pages, k)
}

proof fn lemma_chain_stays(
    pages: Map<usize, PageState>,
    pages2: Map<usize, PageState>,
    next: int,
    left: int,
    usable: int,
)
    requires
        still_there(pages, pages2),
        !(chain(pages, next, left, usable) is Wait),
    ensures
        chain(pages2, next, left, usable) == chain(pages, next, left, usable),
    decreases left,
{
    if left > 0 && next != 0 && usable > 4 {
        let id = next as usize;
        let page = page_of(pages, id);
        let here = if left < usable - 4 {
            left
        } else {
            usable - 4
        };
        assert(loaded(pages, id));
        lemma_chain_stays(pages, pages2, be32(page.buf, 0), left - here, usable);
    }
}

proof fn lemma_cell_stays(
    pages: Map<usize, PageState>,
    pages2: Map<usize, PageState>,
    page: PageModel,
    i: int,
    usable: int,
)
    requires
        still_there(pages, pages2),
        !(cell_at(pages, page, i, usable) is Wait),
    ensures
        cell_at(pages2, page, i, usable) == cell_at(pages, page, i, usable),
{
    if let Some(h) = page.head(i, usable) {
        if h.spills {
            lemma_chain_stays(
                pages,
                pages2,
                be32(page.buf, h.body + h.local),
                h.payload_len - h.local,
                usable,
            );
        }
    }
}

proof fn lemma_route_stays(
    pages: Map<usize, PageState>,
    pages2: Map<usize, PageState>,
    page: PageModel,
    key: KeyModel,
    op: SeekOp,
    usable: int,
    i: int,
)
    requires
        still_there(pages, pages2),
        !(route(pages, page, key, op, usable, i) is Wait),
    ensures
        route(pages2, page, key, op, usable, i) == route(pages, page, key, op, usable, i),
    decreases page.cell_count() - i,
{
    if i < page.cell_count() {
        lemma_cell_stays(pages, pages2, page, i, usable);
        if !(route(pages, page, key, op, usable, i + 1) is Wait) {
            lemma_route_stays(pages, pages2, page, key, op, usable, i + 1);
        }
    }
}

proof fn lemma_descent_stays(
    pages: Map<usize, PageState>,
    pages2: Map<usize, PageState>,
    stack: Seq<Frame>,
    key: KeyModel,
    op: SeekOp,
    usable: int,
)
    requires
        still_there(pages, pages2),
        !(descend(pages, stack, key, op, usable).end is Wait),
    ensures
        descend(pages2, stack, key, op, usable) == descend(pages, stack, key, op, usable),
        descend(pages, stack, key, op, usable).end is Leaf ==> {
            let d = descend(pages, stack, key, op, usable);
            d.stack.len() > 0 && loaded(pages, d.stack.last().page)
        },
    decreases BTCURSOR_MAX_DEPTH + 1 - stack.len(),
{
    let id = stack.last().page;
    let page = page_of(pages, id);
    if stack.len() > 0 && page.page_type() is Some && !leaf_type(page.kind()) {
        assert(loaded(pages, id));
        lemma_route_stays(pages, pages2, page, key, op, usable, 0);
        if stack.len() <= BTCURSOR_MAX_DEPTH {
            match route(pages, page, key, op, usable, 0) {
                Route::Left { index, child } => {
                    lemma_descent_stays(
                        pages,
                        pages2,
                        pushed(at_index(stack, index), child),
                        key,
                        op,
                        usable,
                    );
                },
                Route::Rightmost => {
                    lemma_descent_stays(
                        pages,
                        pages2,
                        pushed(at_index(stack, page.cell_count()), page.rightmost()),
                        key,
                        op,
                        usable,
                    );
                },
                _ => {},
            }
        }
    } else if stack.len() > 0 {
        assert(loaded(pages, id));
    }
}

/// Whether a search on a leaf has to wait.
spec fn hit_waits(h: Hit) -> bool {
    match h {
        Hit::At { found, .. } => found is Wait,
        Hit::Nowhere => false,
    }
}

proof fn lemma_search_leaf_stays(
    pages: Map<usize, PageState>,
    pages2: Map<usize, PageState>,
    page: PageModel,
    key: KeyModel,
    op: SeekOp,
    usable: int,
    i: int,
)
    requires
        still_there(pages, pages2),
        !hit_waits(search_leaf(pages, page, key, op, usable, i)),
    ensures
        search_leaf(pages2, page, key, op, usable, i) == search_leaf(
            pages,
            page,
            key,
            op,
            usable,
            i,
        ),
    decreases page.cell_count() - i,
{
    if i < page.cell_count() {
        lemma_cell_stays(pages, pages2, page, i, usable);
        if !hit_waits(search_leaf(pages, page, key, op, usable, i + 1)) {
            lemma_search_leaf_stays(pages, pages2, page, key, op, usable, i + 1);
        }
    }
}

/// Whether a step has to wait.
spec fn step_waits(s: Step) -> bool {
    match s {
        Step::Stop(x) => x.found is Wait,
        Step::Go(_) => false,
    }
}

proof fn lemma_step_stays(
    pages: Map<usize, PageState>,
    pages2: Map<usize, PageState>,
    w: Walk,
    predicate: Option<(KeyModel, SeekOp)>,
    usable: int,
)
    requires
        still_there(pages, pages2),
        !step_waits(step(pages, w, predicate, usable)),
    ensures
        step(pages2, w, predicate, usable) == step(pages, w, predicate, usable),
{
    let id = w.stack.last().page;
    let index = w.stack.last().index as int;
    let page = page_of(pages, id);
    assert(loaded(pages, id));
    if page.page_type() is Some && index < page.cell_count() {
        lemma_cell_stays(pages, pages2, page, index, usable);
    }
}

/// The next entry stays the next entry when more pages come into memory.
pub proof fn next_entry_stays(
    pages: Map<usize, PageState>,
    pages2: Map<usize, PageState>,
    w: Walk,
    predicate: Option<(KeyModel, SeekOp)>,
    usable: int,
)
    requires
        still_there(pages, pages2),
        0 < w.stack.len() <= BTCURSOR_MAX_DEPTH + 1,
        !(next_entry(pages, w, predicate, usable).found is Wait),
    ensures
        next_entry(pages2, w, predicate, usable) == next_entry(pages, w, predicate, usable),
    decreases distance(pages, w),
{
    lemma_step_stays(pages, pages2, w, predicate, usable);
    if let Step::Go(v) = step(pages, w, predicate, usable) {
        lemma_step_nearer(pages, w, predicate, usable);
        next_entry_stays(pages, pages2, v, predicate, usable);
    }
}

/// A walk that had to wait for a page goes on, once that and more pages came
/// into memory, as it would have gone with them there from the start.
pub proof fn walk_goes_on(
    pages: Map<usize, PageState>,
    pages2: Map<usize, PageState>,
    w: Walk,
    predicate: Option<(KeyModel, SeekOp)>,
    usable: int,
)
    requires
        still_there(pages, pages2),
        0 < w.stack.len() <= BTCURSOR_MAX_DEPTH + 1,
        next_entry(pages, w, predicate, usable).found is Wait,
    ensures
        ({
            let x = next_entry(pages, w, predicate, usable);
            &&& 0 < x.walk.stack.len() <= BTCURSOR_MAX_DEPTH + 1
            &&& next_entry(pages2, x.walk, predicate, usable) == next_entry(
                pages2,
                w,
                predicate,
                usable,
            )
        }),
    decreases distance(pages, w),
{
    if let Step::Go(v) = step(pages, w, predicate, usable) {
        lemma_step_stays(pages, pages2, w, predicate, usable);
        lemma_step_nearer(pages, w, predicate, usable);
        lemma_step_nearer(pages2, w, predicate, usable);
        walk_goes_on(pages, pages2, v, predicate, usable);
    } else {
        assert(next_entry(pages, w, predicate, usable).walk == w);
    }
}

/// A scan that was interrupted by a page that was not in memory goes on
/// unchanged: the step that had to wait left the cursor's row as it was, and
/// taken again with more pages in memory, `pager`, it comes to what it would
/// have come to with them there from the start.
pub proof fn scan_goes_on(c: CursorModel, pager: PagerModel)
    requires
        0 < c.stack.len() <= BTCURSOR_MAX_DEPTH + 1,
        still_there(c.pages(), pager.pages),
        c.following(None).found is Wait,
    ensures
        c.stepped().rowid == c.rowid,
        c.stepped().record == c.record,
        (CursorModel { pager, ..c.stepped() }).stepped() == (CursorModel {
            pager,
            ..c
        }).stepped(),
{
    walk_goes_on(c.pages(), pager.pages, c.walk(), None, c.usable());
}

/// The stack of a way down is never longer than a cursor's stack can be.
proof fn lemma_descent_len(
    pages: Map<usize, PageState>,
    stack: Seq<Frame>,
    key: KeyModel,
    op: SeekOp,
    usable: int,
)
    requires
        0 < stack.len() <= BTCURSOR_MAX_DEPTH + 1,
    ensures
        0 < descend(pages, stack, key, op, usable).stack.len() <= BTCURSOR_MAX_DEPTH + 1,
    decreases BTCURSOR_MAX_DEPTH + 1 - stack.len(),
{
    let page = page_of(pages, stack.last().page);
    if stack.len() <= BTCURSOR_MAX_DEPTH {
        match route(pages, page, key, op, usable, 0) {
            Route::Left { index, child } => {
                lemma_descent_len(pages, pushed(at_index(stack, index), child), key, op, usable);
            },
            Route::Rightmost => {
                lemma_descent_len(
                    pages,
                    pushed(at_index(stack, page.cell_count()), page.rightmost()),
                    key,
                    op,
                    usable,
                );
            },
            _ => {},
        }
    }
}

/// What a search finds without having to wait, it also finds with more pages
/// in memory.
pub proof fn search_stays(c: CursorModel, c2: CursorModel, key: KeyModel, op: SeekOp)
    requires
        still_there(c.pages(), c2.pages()),
        c2.root_page == c.root_page,
        c2.header == c.header,
        c2.going_upwards == c.going_upwards,
        !(c.search(key, op).found is Wait),
    ensures
        c2.search(key, op) == c.search(key, op),
{
    let pages = c.pages();
    let pages2 = c2.pages();
    let usable = c.usable();
    let stack = root_stack(c.root_page);
    let d = c.descent(key, op);
    lemma_descent_stays(pages, pages2, stack, key, op, usable);
    lemma_descent_len(pages, stack, key, op, usable);
    if d.end is Leaf {
        let id = d.stack.last().page;
        let page = page_of(pages, id);
        assert(loaded(pages, id));
        lemma_search_leaf_stays(pages, pages2, page, key, op, usable, 0);
        if search_leaf(pages, page, key, op, usable, 0) is Nowhere && key is Index {
            let passed = Walk {
                stack: at_index(d.stack, page.cell_count()),
                upwards: c.going_upwards,
            };
            next_entry_stays(pages, pages2, passed, Some((key, op)), usable);
        }
    }
}

/// Whether a row is there, if that can be told, can also be told with more
/// pages in memory, and is the same.
pub proof fn lookup_stays(c: CursorModel, c2: CursorModel, rowid: int)
    requires
        still_there(c.pages(), c2.pages()),
        c2.root_page == c.root_page,
        c2.header == c.header,
        !(c.lookup(rowid) is Wait),
    ensures
        c2.lookup(rowid) == c.lookup(rowid),
{
    let pages = c.pages();
    let pages2 = c2.pages();
    let usable = c.usable();
    let key = KeyModel::RowId(rowid);
    let d = c.descent(key, SeekOp::EQ);
    lemma_descent_stays(pages, pages2, root_stack(c.root_page), key, SeekOp::EQ, usable);
    if d.end is Leaf {
        let page = page_of(pages, d.stack.last().page);
        assert(loaded(pages, d.stack.last().page));
        assert(c.moved(d).top_page() == page);
        assert(c2.moved(d).top_page() == page);
        match first_at_least(page, rowid, usable, 0) {
            Some(i) => {
                if i < page.cell_count() {
                    lemma_cell_stays(pages, pages2, page, i, usable);
                }
            },
            None => {},
        }
    }
}

} // verus!
