//! What the cursor holds in an index, and where a search leaves it.

use vstd::prelude::*;
use crate::cursor::{at_index, pushed, BTCURSOR_MAX_DEPTH, CursorModel, Frame};
use crate::descent::{descend, root_stack};
use crate::indexes::{
    entries, entries_ahead, entry_at, frame_in_index, has_entry, in_index, index_tree,
    lemma_in_index_at, lemma_pick, lemma_pick_joined, next_index_entry, pick, rest,
};
use crate::lookups::{
    entries_before, in_order, index_scan_gives_all_entries, index_search, lemma_around_child,
    lemma_index_descend, lemma_index_step, lemma_leaf_len, lemma_none_picked,
    lemma_none_wanted_joined, lemma_pick_all, lemma_rest_records, lemma_search_index_leaf,
    none_wanted, sorted, Reached,
};
use crate::order::{KeyModel, SeekOp};
use crate::pager::{page_of, PageState};
use crate::ranking::is_record;
use crate::record::ValueModel;
use crate::tables::child_at;
use crate::walk::{index_entry, index_rowid, Found, Walk};

verus! {

// ---------------------------------------------------------------------------
// The row id of an entry
// ---------------------------------------------------------------------------

/// Whether an index entry ends with a row id.
pub open spec fn ends_with_integer(e: Seq<ValueModel>) -> bool {
    e.len() > 0 && e[e.len() - 1] is Integer
}

/// The integer that an index entry ends with, read as a number from 0 on.
pub open spec fn last_integer(e: Seq<ValueModel>) -> int {
    let i = e[e.len() - 1]->Integer_0;
    if i >= 0 {
        i
    } else {
        18446744073709551616 + i
    }
}

/// An index entry has a row id if its last value is an integer, and that integer
/// is the row id.
pub proof fn entries_end_with_row_ids(e: Seq<ValueModel>)
    ensures
        index_rowid(e) is Some <==> ends_with_integer(e),
        ends_with_integer(e) ==> {
            &&& index_rowid(e) == Some(last_integer(e))
            &&& index_entry(e) == (Found::Entry { rowid: last_integer(e), record: e })
        },
        !ends_with_integer(e) ==> index_entry(e) is Stray,
{
}

/// Whether the cursor holds entry `n` of `e` and the row id at its end, or nothing
/// if there is no such entry.
pub open spec fn holds_entry(d: CursorModel, e: Seq<Seq<ValueModel>>, n: int) -> bool {
    if 0 <= n < e.len() {
        &&& ends_with_integer(e[n])
        &&& d.rowid == Some(last_integer(e[n]) as u64)
        &&& d.record == Some(e[n])
    } else {
        d.rowid is None && d.record is None
    }
}

/// Reading an index: after a rewind and `n` steps the cursor holds entry `n` and
/// the row id at its end.
pub proof fn scan_gives_row_ids(c: CursorModel, height: nat, n: nat)
    requires
        height <= 20,
        index_tree(c.pages(), c.root_page, height, c.usable()),
        !c.going_upwards,
    ensures
        holds_entry(
            c.scanned(n),
            entries(c.pages(), c.root_page, height, c.usable()),
            n as int,
        ),
{
    index_scan_gives_all_entries(c, height, n);
    let e = entries(c.pages(), c.root_page, height, c.usable());
    if n < e.len() {
        entries_end_with_row_ids(e[n as int]);
    }
}

// ---------------------------------------------------------------------------
// Behind an entry that was found
// ---------------------------------------------------------------------------

/// Whether the way down stands at a cell of each interior page, and not at its
/// right-most child, from level `n` of the stack on.
pub open spec fn stands_at_cells(
    pages: Map<usize, PageState>,
    stack: Seq<Frame>,
    n: int,
) -> bool {
    forall|i: int|
        n <= i < stack.len() - 1 ==> (#[trigger] stack[i]).index < page_of(
            pages,
            stack[i].page,
        ).cell_count()
}

/// Where the way down stands at a cell of each page, the entries behind the leaf
/// are those ahead of the pages above it.
#[verifier::spinoff_prover]
#[verifier::rlimit(80)]
proof fn lemma_index_way(
    pages: Map<usize, PageState>,
    stack: Seq<Frame>,
    height: nat,
    k: Seq<ValueModel>,
    op: SeekOp,
    usable: int,
) -> (x: Reached)
    requires
        height <= BTCURSOR_MAX_DEPTH,
        in_index(pages, stack, height, usable),
        is_record(k),
        sorted(entries(pages, stack.last().page, (height + 1 - stack.len()) as nat, usable)),
    ensures
        ({
            let d = descend(pages, stack, KeyModel::Index(k), op, usable);
            let leaf = entries(pages, d.stack.last().page, 0, usable);
            let h = (height + 1 - stack.len()) as nat;
            let above = Walk { stack: stack.drop_last(), upwards: true };
            &&& d.stack.len() == height + 1
            &&& forall|i: int| 0 <= i < stack.len() - 1 ==> d.stack[i] == #[trigger] stack[i]
            &&& stands_at_cells(pages, d.stack, stack.len() - 1) ==> {
                &&& entries(pages, stack.last().page, h, usable) == x.before + leaf + x.after
                &&& none_wanted(x.before, k, op)
                &&& entries_ahead(
                    pages,
                    Walk { stack: d.stack.drop_last(), upwards: true },
                    height,
                    usable,
                ) == x.after + entries_ahead(pages, above, height, usable)
            }
        }),
    decreases height + 1 - stack.len(),
{
    let n = stack.len() as int;
    let h = (height + 1 - n) as nat;
    let id = stack.last().page;
    let page = page_of(pages, id);
    let all = entries(pages, id, h, usable);
    let above = Walk { stack: stack.drop_last(), upwards: true };
    let up = entries_ahead(pages, above, height, usable);
    let none = Seq::<Seq<ValueModel>>::empty();
    let x = Reached { before: none, after: none, ahead: none };
    assert(frame_in_index(pages, stack[n - 1], h, usable));
    if h == 0 {
        assert(all =~= none + all + none);
        assert(none + up =~= up);
        x
    } else {
        let c = lemma_index_step(pages, stack, height, k, op, usable);
        let child = child_at(page, c, usable);
        let here = at_index(stack, c);
        let next = pushed(here, child as int);
        let front = entries_before(pages, id, h, c as nat, usable);
        let tail = lemma_around_child(pages, id, h, c, usable, k, op);
        let y = lemma_index_way(pages, next, height, k, op, usable);
        let d = descend(pages, stack, KeyModel::Index(k), op, usable);
        let leaf = entries(pages, d.stack.last().page, 0, usable);
        assert(next[n - 1] == here.last());
        assert(d.stack[n - 1] == next[n - 1]);
        assert forall|i: int| 0 <= i < n - 1 implies d.stack[i] == #[trigger] stack[i] by {
            assert(next[i] == stack[i]);
        }
        if stands_at_cells(pages, d.stack, n - 1) {
            assert(d.stack[n - 1].index < page.cell_count());
            assert(entries_ahead(pages, Walk { stack: here, upwards: true }, height, usable)
                == tail + up);
            lemma_entries_above(front, y.before, leaf, y.after, tail, up, k, op);
            Reached { before: front + y.before, after: y.after + tail, ahead: none }
        } else {
            x
        }
    }
}

/// The parts of the entries below a page, seen from the page above it.
proof fn lemma_entries_above(
    front: Seq<Seq<ValueModel>>,
    before: Seq<Seq<ValueModel>>,
    leaf: Seq<Seq<ValueModel>>,
    after: Seq<Seq<ValueModel>>,
    tail: Seq<Seq<ValueModel>>,
    up: Seq<Seq<ValueModel>>,
    k: Seq<ValueModel>,
    op: SeekOp,
)
    requires
        none_wanted(front, k, op),
        none_wanted(before, k, op),
    ensures
        front + ((before + leaf + after) + tail) == (front + before) + leaf + (after + tail),
        after + (tail + up) == (after + tail) + up,
        none_wanted(front + before, k, op),
{
    assert(front + ((before + leaf + after) + tail) =~= (front + before) + leaf + (after + tail));
    assert(after + (tail + up) =~= (after + tail) + up);
    lemma_none_wanted_joined(front, before, k, op);
}

/// The entries of a leaf from a cell on.
proof fn lemma_leaf_rest(
    pages: Map<usize, PageState>,
    id: usize,
    i: nat,
    passed: bool,
    usable: int,
)
    requires
        i <= page_of(pages, id).cell_count(),
    ensures
        rest(pages, id, 0, i, passed, usable) == rest(pages, id, 0, i, false, usable),
        rest(pages, id, 0, i, false, usable) == entries(pages, id, 0, usable).skip(i as int),
    decreases page_of(pages, id).cell_count() - i,
{
    let page = page_of(pages, id);
    lemma_leaf_len(pages, id, usable, 0);
    lemma_leaf_skip(pages, id, i, usable);
    if i < page.cell_count() {
        lemma_leaf_rest(pages, id, i + 1, passed, usable);
    }
}

pub proof fn lemma_leaf_skip(pages: Map<usize, PageState>, id: usize, i: nat, usable: int)
    requires
        i <= page_of(pages, id).cell_count(),
    ensures
        rest(pages, id, 0, i, false, usable) == entries(pages, id, 0, usable).skip(i as int),
    decreases i,
{
    let all = entries(pages, id, 0, usable);
    let page = page_of(pages, id);
    if i == 0 {
        assert(all.skip(0) =~= all);
    } else {
        let j = (i - 1) as nat;
        lemma_leaf_skip(pages, id, j, usable);
        lemma_leaf_len(pages, id, usable, j);
        lemma_leaf_len(pages, id, usable, 0);
        let e = seq![entry_at(pages, page, j as int, usable).unwrap()];
        let r = rest(pages, id, 0, i, false, usable);
        assert(rest(pages, id, 0, j, false, usable) =~= e + r);
        assert(all.skip(i as int) =~= all.skip(j as int).skip(1));
        assert((e + r).skip(1) =~= r);
    }
}

/// The entries ahead of a place on a leaf.
proof fn lemma_leaf_entries_ahead(
    pages: Map<usize, PageState>,
    stack: Seq<Frame>,
    upwards: bool,
    height: nat,
    usable: int,
    i: int,
)
    requires
        stack.len() == height + 1,
        0 <= i <= page_of(pages, stack.last().page).cell_count(),
    ensures
        entries_ahead(
            pages,
            Walk { stack: at_index(stack, i), upwards },
            height,
            usable,
        ) == entries(pages, stack.last().page, 0, usable).skip(i) + entries_ahead(
            pages,
            Walk { stack: stack.drop_last(), upwards: true },
            height,
            usable,
        ),
{
    assert(at_index(stack, i).drop_last() =~= stack.drop_last());
    lemma_leaf_rest(pages, stack.last().page, i as nat, upwards, usable);
}

/// What a step from a place holds.
#[verifier::spinoff_prover]
#[verifier::rlimit(80)]
proof fn lemma_step_entry_ahead(d: CursorModel, height: nat, e: Seq<Seq<ValueModel>>, n: int)
    requires
        height <= BTCURSOR_MAX_DEPTH,
        in_index(d.pages(), d.stack, height, d.usable()),
        0 <= n <= e.len(),
        ({
            let a = entries_ahead(d.pages(), d.walk(), height, d.usable());
            &&& n < e.len() ==> a.len() > 0 && a[0] == e[n]
            &&& n == e.len() ==> a.len() == 0
        }),
    ensures
        holds_entry(d.stepped(), e, n),
{
    let a = entries_ahead(d.pages(), d.walk(), height, d.usable());
    lemma_pick_all(a);
    next_index_entry(d.pages(), d.walk(), height, None, d.usable());
    if n < e.len() {
        entries_end_with_row_ids(e[n]);
    }
}

/// Where entries are picked from behind such that none is wanted.
proof fn lemma_picked_behind(
    before: Seq<Seq<ValueModel>>,
    leaf: Seq<Seq<ValueModel>>,
    after: Seq<Seq<ValueModel>>,
    k: Seq<ValueModel>,
    op: SeekOp,
)
    requires
        none_wanted(before, k, op),
    ensures
        ({
            let p = Some((k, op));
            let e = before + leaf + after;
            &&& pick(leaf, p) < leaf.len() ==> pick(e, p) == before.len() + pick(leaf, p)
            &&& pick(leaf, p) >= leaf.len() ==> pick(e, p) == before.len() + leaf.len() + pick(
                after,
                p,
            )
        }),
{
    let p = Some((k, op));
    lemma_none_picked(before, k, op);
    lemma_pick_joined(before + leaf, after, p);
    lemma_pick_joined(before, leaf, p);
    lemma_pick(before, p);
    lemma_pick(leaf, p);
}

/// A search in an index that comes to an entry on the leaf where its way ends.
#[verifier::spinoff_prover]
#[verifier::rlimit(80)]
proof fn lemma_found_on_leaf(
    c: CursorModel,
    height: nat,
    k: Seq<ValueModel>,
    op: SeekOp,
    before: Seq<Seq<ValueModel>>,
    after: Seq<Seq<ValueModel>>,
)
    requires
        height <= BTCURSOR_MAX_DEPTH,
        ({
            let s = c.descent(KeyModel::Index(k), op).stack;
            let leaf = entries(c.pages(), s.last().page, 0, c.usable());
            let e = entries(c.pages(), c.root_page, height, c.usable());
            &&& c.descent(KeyModel::Index(k), op).end is Leaf
            &&& s.len() == height + 1
            &&& in_index(c.pages(), s, height, c.usable())
            &&& e == before + leaf + after
            &&& none_wanted(before, k, op)
            &&& pick(leaf, Some((k, op))) < leaf.len()
        }),
    ensures
        ({
            let e = entries(c.pages(), c.root_page, height, c.usable());
            let j = pick(e, Some((k, op)));
            let x = c.search(KeyModel::Index(k), op);
            let d = c.walked(x).holding(x.found);
            let s = c.descent(KeyModel::Index(k), op).stack;
            let leaf = entries(c.pages(), s.last().page, 0, c.usable());
            let w = pick(leaf, Some((k, op)));
            &&& j == before.len() + w
            &&& d.pager == c.pager
            &&& d.header == c.header
            &&& holds_entry(d, e, j)
            &&& in_index(c.pages(), d.stack, height, c.usable())
            &&& entries_ahead(c.pages(), d.walk(), height, c.usable()) == leaf.skip(w + 1)
                + entries_ahead(
                c.pages(),
                Walk { stack: s.drop_last(), upwards: true },
                height,
                c.usable(),
            )
        }),
{
    let pages = c.pages();
    let usable = c.usable();
    let s = c.descent(KeyModel::Index(k), op).stack;
    let id = s.last().page;
    let leaf = entries(pages, id, 0, usable);
    let e = entries(pages, c.root_page, height, usable);
    let w = pick(leaf, Some((k, op)));
    let j = pick(e, Some((k, op)));
    assert(frame_in_index(pages, s[height as int], 0, usable));
    lemma_picked_behind(before, leaf, after, k, op);
    lemma_search_index_leaf(pages, id, k, op, usable, 0);
    lemma_leaf_len(pages, id, usable, 0);
    lemma_pick(leaf, Some((k, op)));
    lemma_in_index_at(pages, s, height, usable, w + 1);
    lemma_leaf_entries_ahead(pages, s, c.going_upwards, height, usable, w + 1);
    assert(e[j] == leaf[w]);
    lemma_has_rowid(pages, id, usable, w);
    entries_end_with_row_ids(e[j]);
}

/// The entries of a leaf have row ids.
proof fn lemma_has_rowid(pages: Map<usize, PageState>, id: usize, usable: int, w: int)
    requires
        index_tree(pages, id, 0, usable),
        0 <= w < page_of(pages, id).cell_count(),
    ensures
        w < entries(pages, id, 0, usable).len(),
        index_rowid(entries(pages, id, 0, usable)[w]) is Some,
{
    let page = page_of(pages, id);
    assert(has_entry(pages, page, w, usable));
    lemma_leaf_len(pages, id, usable, 0);
    lemma_leaf_skip(pages, id, w as nat, usable);
    let l = entries(pages, id, 0, usable);
    assert(l.skip(w)[0] == entry_at(pages, page, w, usable).unwrap());
}

/// A search in an index that comes to no entry on the leaf where its way ends, and
/// stood at a cell of each page above it.
#[verifier::spinoff_prover]
#[verifier::rlimit(80)]
proof fn lemma_found_behind_leaf(
    c: CursorModel,
    height: nat,
    k: Seq<ValueModel>,
    op: SeekOp,
    before: Seq<Seq<ValueModel>>,
    after: Seq<Seq<ValueModel>>,
)
    requires
        height <= BTCURSOR_MAX_DEPTH,
        ({
            let s = c.descent(KeyModel::Index(k), op).stack;
            let leaf = entries(c.pages(), s.last().page, 0, c.usable());
            let e = entries(c.pages(), c.root_page, height, c.usable());
            &&& c.descent(KeyModel::Index(k), op).end is Leaf
            &&& s.len() == height + 1
            &&& in_index(c.pages(), s, height, c.usable())
            &&& e == before + leaf + after
            &&& none_wanted(before, k, op)
            &&& pick(leaf, Some((k, op))) >= leaf.len()
            &&& entries_ahead(
                c.pages(),
                Walk { stack: s.drop_last(), upwards: true },
                height,
                c.usable(),
            ) == after
        }),
    ensures
        ({
            let e = entries(c.pages(), c.root_page, height, c.usable());
            let j = pick(e, Some((k, op)));
            let x = c.search(KeyModel::Index(k), op);
            let a = entries_ahead(c.pages(), x.walk, height, c.usable());
            &&& in_index(c.pages(), x.walk.stack, height, c.usable())
            &&& j < e.len() ==> a == e.skip(j + 1)
            &&& j == e.len() ==> a.len() == 0
        }),
{
    let pages = c.pages();
    let usable = c.usable();
    let s = c.descent(KeyModel::Index(k), op).stack;
    let id = s.last().page;
    let page = page_of(pages, id);
    let leaf = entries(pages, id, 0, usable);
    let e = entries(pages, c.root_page, height, usable);
    let p = Some((k, op));
    assert(frame_in_index(pages, s[height as int], 0, usable));
    lemma_picked_behind(before, leaf, after, k, op);
    lemma_search_index_leaf(pages, id, k, op, usable, 0);
    lemma_leaf_len(pages, id, usable, 0);
    lemma_in_index_at(pages, s, height, usable, page.cell_count());
    lemma_leaf_entries_ahead(pages, s, c.going_upwards, height, usable, page.cell_count());
    let at = Walk { stack: at_index(s, page.cell_count()), upwards: c.going_upwards };
    next_index_entry(pages, at, height, p, usable);
    assert(leaf.skip(leaf.len() as int) + after =~= after);
    lemma_pick(after, p);
    let j = pick(e, p);
    if j < e.len() {
        assert(after.skip(pick(after, p) + 1) =~= e.skip(j + 1));
    }
}

/// The entry that a search in an index comes to is held with the row id at its
/// end.
#[verifier::spinoff_prover]
#[verifier::rlimit(80)]
proof fn lemma_found_entry_held(
    c: CursorModel,
    height: nat,
    k: Seq<ValueModel>,
    op: SeekOp,
)
    requires
        height <= BTCURSOR_MAX_DEPTH,
        index_tree(c.pages(), c.root_page, height, c.usable()),
        in_order(entries(c.pages(), c.root_page, height, c.usable())),
        is_record(k),
    ensures
        ({
            let e = entries(c.pages(), c.root_page, height, c.usable());
            let j = pick(e, Some((k, op)));
            let x = c.search(KeyModel::Index(k), op);
            let d = c.walked(x).holding(x.found);
            &&& 0 <= j <= e.len()
            &&& d.pager == c.pager
            &&& d.header == c.header
            &&& holds_entry(d, e, j)
        }),
{
    index_search(c, height, k, op);
    let e = entries(c.pages(), c.root_page, height, c.usable());
    let j = pick(e, Some((k, op)));
    if j < e.len() {
        lemma_all_have_rowids(c.pages(), c.root_page, height, 0, c.usable());
        assert(index_rowid(e[j]) is Some);
        entries_end_with_row_ids(e[j]);
    }
}

/// The entries of an index have row ids.
proof fn lemma_all_have_rowids(
    pages: Map<usize, PageState>,
    id: usize,
    height: nat,
    i: nat,
    usable: int,
)
    requires
        index_tree(pages, id, height, usable),
    ensures
        forall|n: int|
            0 <= n < rest(pages, id, height, i, false, usable).len() ==> index_rowid(
                #[trigger] rest(pages, id, height, i, false, usable)[n],
            ) is Some,
    decreases height, page_of(pages, id).cell_count() + 1 - i,
{
    let page = page_of(pages, id);
    let r = rest(pages, id, height, i, false, usable);
    if i <= page.cell_count() && height > 0 {
        let child = child_at(page, i as int, usable);
        assert(index_tree(pages, child, (height - 1) as nat, usable));
        lemma_all_have_rowids(pages, child, (height - 1) as nat, 0, usable);
    }
    if i < page.cell_count() {
        assert(has_entry(pages, page, i as int, usable));
        lemma_all_have_rowids(pages, id, height, i + 1, usable);
        let front = if height == 0 {
            Seq::empty()
        } else {
            rest(
                pages,
                child_at(page, i as int, usable),
                (height - 1) as nat,
                0,
                false,
                usable,
            )
        };
        let e = entry_at(pages, page, i as int, usable).unwrap();
        let t = rest(pages, id, height, i + 1, false, usable);
        assert(r == front + seq![e] + t);
        assert forall|n: int| 0 <= n < r.len() implies index_rowid(#[trigger] r[n]) is Some by {
            if n < front.len() {
                assert(r[n] == front[n]);
            } else if n > front.len() {
                assert(r[n] == t[n - front.len() - 1]);
            }
        }
    }
}

/// Behind an entry that was found on the leaf where the way ends.
#[verifier::spinoff_prover]
#[verifier::rlimit(80)]
proof fn lemma_behind_on_leaf(c: CursorModel, height: nat, k: Seq<ValueModel>, op: SeekOp)
    requires
        height <= BTCURSOR_MAX_DEPTH,
        index_tree(c.pages(), c.root_page, height, c.usable()),
        in_order(entries(c.pages(), c.root_page, height, c.usable())),
        is_record(k),
    ensures
        ({
            let e = entries(c.pages(), c.root_page, height, c.usable());
            let j = pick(e, Some((k, op)));
            let x = c.search(KeyModel::Index(k), op);
            let d = c.walked(x).holding(x.found);
            let s = c.descent(KeyModel::Index(k), op).stack;
            let leaf = entries(c.pages(), s.last().page, 0, c.usable());
            let w = pick(leaf, Some((k, op)));
            &&& w < leaf.len() ==> e[j] == leaf[w]
            &&& w + 1 < leaf.len() ==> {
                &&& j + 1 < e.len()
                &&& e[j + 1] == leaf[w + 1]
                &&& holds_entry(d.stepped(), e, j + 1)
            }
        }),
{
    let pages = c.pages();
    let usable = c.usable();
    let p = Some((k, op));
    let stack = root_stack(c.root_page);
    assert(stack.last().page == c.root_page);
    assert(in_index(pages, stack, height, usable));
    lemma_rest_records(pages, c.root_page, height, 0, false, usable);
    let e = entries(pages, c.root_page, height, usable);
    let j = pick(e, p);
    let x = c.search(KeyModel::Index(k), op);
    let d = c.walked(x).holding(x.found);
    let s = c.descent(KeyModel::Index(k), op).stack;
    let leaf = entries(pages, s.last().page, 0, usable);
    let w = pick(leaf, p);
    lemma_pick(leaf, p);
    let up = entries_ahead(pages, Walk { stack: s.drop_last(), upwards: true }, height, usable);
    let y = lemma_index_descend(pages, stack, height, k, op, usable);
    if w < leaf.len() {
        lemma_found_on_leaf(c, height, k, op, y.before, y.after);
        assert(e[j] == leaf[w]);
        if w + 1 < leaf.len() {
            assert(e[j + 1] == leaf[w + 1]);
            assert((leaf.skip(w + 1) + up)[0] == leaf[w + 1]);
            lemma_step_entry_ahead(d, height, e, j + 1);
        }
    }
}

/// What is ahead after a search whose way stood at a cell of each page.
#[verifier::spinoff_prover]
#[verifier::rlimit(80)]
proof fn lemma_ahead_at_cells(c: CursorModel, height: nat, k: Seq<ValueModel>, op: SeekOp)
    requires
        height <= BTCURSOR_MAX_DEPTH,
        index_tree(c.pages(), c.root_page, height, c.usable()),
        in_order(entries(c.pages(), c.root_page, height, c.usable())),
        is_record(k),
        stands_at_cells(c.pages(), c.descent(KeyModel::Index(k), op).stack, 0),
    ensures
        ({
            let e = entries(c.pages(), c.root_page, height, c.usable());
            let j = pick(e, Some((k, op)));
            let x = c.search(KeyModel::Index(k), op);
            let a = entries_ahead(c.pages(), x.walk, height, c.usable());
            &&& in_index(c.pages(), x.walk.stack, height, c.usable())
            &&& j < e.len() ==> a == e.skip(j + 1)
            &&& j == e.len() ==> a.len() == 0
        }),
{
    let pages = c.pages();
    let usable = c.usable();
    let p = Some((k, op));
    let stack = root_stack(c.root_page);
    assert(stack.last().page == c.root_page);
    assert(in_index(pages, stack, height, usable));
    lemma_rest_records(pages, c.root_page, height, 0, false, usable);
    let e = entries(pages, c.root_page, height, usable);
    let j = pick(e, p);
    let x = c.search(KeyModel::Index(k), op);
    let d = c.walked(x).holding(x.found);
    let s = c.descent(KeyModel::Index(k), op).stack;
    let leaf = entries(pages, s.last().page, 0, usable);
    let w = pick(leaf, p);
    lemma_pick(leaf, p);
    let up = entries_ahead(pages, Walk { stack: s.drop_last(), upwards: true }, height, usable);
    lemma_index_descend(pages, stack, height, k, op, usable);
    let z = lemma_index_way(pages, stack, height, k, op, usable);
    let none = Walk { stack: stack.drop_last(), upwards: true };
    assert(stack.drop_last().len() == 0);
    assert(entries_ahead(pages, none, height, usable).len() == 0);
    assert(up =~= z.after);
    if w < leaf.len() {
        lemma_found_on_leaf(c, height, k, op, z.before, z.after);
        assert(leaf.skip(w + 1) + z.after =~= e.skip(j + 1));
        assert(d.walk() == x.walk);
    } else {
        lemma_found_behind_leaf(c, height, k, op, z.before, z.after);
    }
}

/// A search in an index holds the first entry that is looked for and the row id at
/// its end, or nothing if there is no such entry. If the entry stands on the leaf
/// where the way ends and another one behind it there, a step goes to that one.
/// So it does from any entry, and all the entries behind it are ahead, unless
/// the way went by the right-most child of a page.
#[verifier::spinoff_prover]
#[verifier::rlimit(80)]
pub proof fn found_entry_is_passed(c: CursorModel, height: nat, k: Seq<ValueModel>, op: SeekOp)
    requires
        height <= 20,
        index_tree(c.pages(), c.root_page, height, c.usable()),
        in_order(entries(c.pages(), c.root_page, height, c.usable())),
        is_record(k),
    ensures
        ({
            let e = entries(c.pages(), c.root_page, height, c.usable());
            let j = pick(e, Some((k, op)));
            let x = c.search(KeyModel::Index(k), op);
            let d = c.walked(x).holding(x.found);
            let s = c.descent(KeyModel::Index(k), op).stack;
            let leaf = entries(c.pages(), s.last().page, 0, c.usable());
            let w = pick(leaf, Some((k, op)));
            let a = entries_ahead(c.pages(), d.walk(), height, c.usable());
            &&& d.pager == c.pager
            &&& holds_entry(d, e, j)
            &&& w < leaf.len() ==> e[j] == leaf[w]
            &&& w + 1 < leaf.len() ==> {
                &&& j + 1 < e.len()
                &&& e[j + 1] == leaf[w + 1]
                &&& holds_entry(d.stepped(), e, j + 1)
            }
            &&& stands_at_cells(c.pages(), s, 0) && j < e.len() ==> {
                &&& a == e.skip(j + 1)
                &&& holds_entry(d.stepped(), e, j + 1)
            }
            &&& stands_at_cells(c.pages(), s, 0) && j == e.len() ==> {
                &&& a.len() == 0
                &&& holds_entry(d.stepped(), e, j)
            }
        }),
{
    lemma_found_entry_held(c, height, k, op);
    lemma_behind_on_leaf(c, height, k, op);
    let s = c.descent(KeyModel::Index(k), op).stack;
    if stands_at_cells(c.pages(), s, 0) {
        lemma_ahead_at_cells(c, height, k, op);
        let e = entries(c.pages(), c.root_page, height, c.usable());
        let j = pick(e, Some((k, op)));
        let x = c.search(KeyModel::Index(k), op);
        let d = c.walked(x).holding(x.found);
        assert(d.walk() == x.walk);
        let a = entries_ahead(c.pages(), d.walk(), height, c.usable());
        if j < e.len() {
            if j + 1 < e.len() {
                assert(a[0] == e[j + 1]);
            }
            lemma_step_entry_ahead(d, height, e, j + 1);
        } else {
            lemma_step_entry_ahead(d, height, e, j);
        }
    }
}

} // verus!
