//! Searching an index, and reading it from its first entry to its last.

use vstd::prelude::*;
use crate::cell::{cell_at, CellModel, Fetch};
use crate::cursor::{at_index, pushed, BTCURSOR_MAX_DEPTH, CursorModel, Frame};
use crate::descent::{descend, root_stack, route, Route};
use crate::indexes::{
    entries, entries_ahead, entry_at, frame_in_index, has_entry, in_index, index_tree,
    lemma_in_index_at, lemma_in_index_down, lemma_pick, lemma_pick_joined, looked_for,
    next_index_entry, pick, rest,
};
use crate::order::{lies_left, record_order, KeyModel, Relation, SeekOp};
use crate::pager::{page_of, PageState};
use crate::ranking::{is_record, lemma_parsed_record, record_order_joins};
use crate::record::ValueModel;
use crate::tables::child_at;
use crate::walk::{index_entry, index_rowid, search_leaf, Hit, Walk};

verus! {

/// Whether the entries are in ascending order; equal ones may follow each other.
pub open spec fn in_order(e: Seq<Seq<ValueModel>>) -> bool {
    forall|i: int, j: int|
        0 <= i < j < e.len() ==> record_order(#[trigger] e[i], #[trigger] e[j])
            != Relation::Greater
}

/// Whether all entries are records.
pub open spec fn all_records(e: Seq<Seq<ValueModel>>) -> bool {
    forall|i: int| 0 <= i < e.len() ==> is_record(#[trigger] e[i])
}

/// Whether the entries are records in ascending order.
pub open spec fn sorted(e: Seq<Seq<ValueModel>>) -> bool {
    all_records(e) && in_order(e)
}

proof fn lemma_records_joined(a: Seq<Seq<ValueModel>>, b: Seq<Seq<ValueModel>>)
    requires
        all_records(a),
        all_records(b),
    ensures
        all_records(a + b),
{
    let c = a + b;
    assert forall|i: int| 0 <= i < c.len() implies is_record(#[trigger] c[i]) by {
        if i < a.len() {
            assert(c[i] == a[i]);
        } else {
            assert(c[i] == b[i - a.len()]);
        }
    }
}

/// The entries of an index are records.
pub proof fn lemma_rest_records(
    pages: Map<usize, PageState>,
    id: usize,
    height: nat,
    i: nat,
    passed: bool,
    usable: int,
)
    requires
        index_tree(pages, id, height, usable),
    ensures
        all_records(rest(pages, id, height, i, passed, usable)),
    decreases height, page_of(pages, id).cell_count() + 1 - i,
{
    let page = page_of(pages, id);
    if i <= page.cell_count() && height > 0 {
        let child = child_at(page, i as int, usable);
        assert(index_tree(pages, child, (height - 1) as nat, usable));
        lemma_rest_records(pages, child, (height - 1) as nat, 0, passed, usable);
        lemma_rest_records(pages, child, (height - 1) as nat, 0, false, usable);
    }
    if i < page.cell_count() {
        assert(has_entry(pages, page, i as int, usable));
        let e = entry_at(pages, page, i as int, usable).unwrap();
        match cell_at(pages, page, i as int, usable) {
            Fetch::Ready(CellModel::IndexLeaf { payload }) => {
                lemma_parsed_record(payload);
            },
            Fetch::Ready(CellModel::IndexInterior { payload, .. }) => {
                lemma_parsed_record(payload);
            },
            _ => {},
        }
        let front = if height == 0 || passed {
            Seq::empty()
        } else {
            let child = child_at(page, i as int, usable);
            rest(pages, child, (height - 1) as nat, 0, false, usable)
        };
        lemma_rest_records(pages, id, height, i + 1, height == 0 && passed, usable);
        lemma_records_joined(front, seq![e]);
        lemma_records_joined(
            front + seq![e],
            rest(pages, id, height, i + 1, height == 0 && passed, usable),
        );
    }
}

/// Whether none of the entries is looked for.
pub open spec fn none_wanted(e: Seq<Seq<ValueModel>>, k: Seq<ValueModel>, op: SeekOp) -> bool {
    forall|i: int| 0 <= i < e.len() ==> !looked_for(#[trigger] e[i], Some((k, op)))
}

pub proof fn lemma_none_wanted_joined(
    a: Seq<Seq<ValueModel>>,
    b: Seq<Seq<ValueModel>>,
    k: Seq<ValueModel>,
    op: SeekOp,
)
    ensures
        none_wanted(a + b, k, op) <==> none_wanted(a, k, op) && none_wanted(b, k, op),
{
    let c = a + b;
    if none_wanted(c, k, op) {
        assert forall|i: int| 0 <= i < a.len() implies !looked_for(
            #[trigger] a[i],
            Some((k, op)),
        ) by {
            assert(c[i] == a[i]);
        }
        assert forall|i: int| 0 <= i < b.len() implies !looked_for(
            #[trigger] b[i],
            Some((k, op)),
        ) by {
            assert(c[a.len() + i] == b[i]);
        }
    }
    if none_wanted(a, k, op) && none_wanted(b, k, op) {
        assert forall|i: int| 0 <= i < c.len() implies !looked_for(
            #[trigger] c[i],
            Some((k, op)),
        ) by {
            if i < a.len() {
                assert(c[i] == a[i]);
            } else {
                assert(c[i] == b[i - a.len()]);
            }
        }
    }
}

/// Nothing is picked from entries of which none is wanted.
pub proof fn lemma_none_picked(e: Seq<Seq<ValueModel>>, k: Seq<ValueModel>, op: SeekOp)
    ensures
        none_wanted(e, k, op) <==> pick(e, Some((k, op))) == e.len(),
{
    lemma_pick(e, Some((k, op)));
}

/// Whether the first entry that is looked for is the same in both, or there is
/// none in either.
pub open spec fn same_pick(
    a: Seq<Seq<ValueModel>>,
    b: Seq<Seq<ValueModel>>,
    k: Seq<ValueModel>,
    op: SeekOp,
) -> bool {
    let p = Some((k, op));
    &&& pick(a, p) < a.len() <==> pick(b, p) < b.len()
    &&& pick(a, p) < a.len() ==> a[pick(a, p)] == b[pick(b, p)]
}

proof fn lemma_same_pick_joined(
    a: Seq<Seq<ValueModel>>,
    b: Seq<Seq<ValueModel>>,
    tail: Seq<Seq<ValueModel>>,
    k: Seq<ValueModel>,
    op: SeekOp,
)
    requires
        same_pick(a, b, k, op),
    ensures
        same_pick(a + tail, b + tail, k, op),
{
    let p = Some((k, op));
    lemma_pick(a, p);
    lemma_pick(b, p);
    lemma_pick(tail, p);
    lemma_pick_joined(a, tail, p);
    lemma_pick_joined(b, tail, p);
}

/// What a subtree gives with something passed is among what it gives.
proof fn lemma_rest_none(
    pages: Map<usize, PageState>,
    id: usize,
    height: nat,
    i: nat,
    usable: int,
    k: Seq<ValueModel>,
    op: SeekOp,
)
    requires
        none_wanted(rest(pages, id, height, i, false, usable), k, op),
    ensures
        none_wanted(rest(pages, id, height, i, true, usable), k, op),
    decreases height, page_of(pages, id).cell_count() + 1 - i,
{
    let page = page_of(pages, id);
    if i == page.cell_count() {
        if height > 0 {
            lemma_rest_none(
                pages,
                child_at(page, i as int, usable),
                (height - 1) as nat,
                0,
                usable,
                k,
                op,
            );
        }
    } else if i < page.cell_count() {
        let child = if height == 0 {
            Seq::empty()
        } else {
            rest(
                pages,
                child_at(page, i as int, usable),
                (height - 1) as nat,
                0,
                false,
                usable,
            )
        };
        let e = seq![entry_at(pages, page, i as int, usable).unwrap()];
        let r = rest(pages, id, height, i + 1, false, usable);
        lemma_none_wanted_joined(child + e, r, k, op);
        lemma_none_wanted_joined(child, e, k, op);
        if height == 0 {
            lemma_rest_none(pages, id, height, i + 1, usable, k, op);
        }
        let s = rest(pages, id, height, i + 1, height == 0, usable);
        assert(rest(pages, id, height, i, true, usable) =~= e + s);
        lemma_none_wanted_joined(e, s, k, op);
    }
}

/// The entries of a page before its child `c`.
pub open spec fn entries_before(
    pages: Map<usize, PageState>,
    id: usize,
    height: nat,
    c: nat,
    usable: int,
) -> Seq<Seq<ValueModel>>
    decreases c,
{
    let page = page_of(pages, id);
    if c == 0 || height == 0 {
        Seq::empty()
    } else {
        entries_before(pages, id, height, (c - 1) as nat, usable) + entries(
            pages,
            child_at(page, c - 1, usable),
            (height - 1) as nat,
            usable,
        ) + seq![entry_at(pages, page, c - 1, usable).unwrap()]
    }
}

pub proof fn lemma_entries_split(
    pages: Map<usize, PageState>,
    id: usize,
    height: nat,
    c: nat,
    usable: int,
)
    requires
        height > 0,
        c <= page_of(pages, id).cell_count(),
    ensures
        entries(pages, id, height, usable) == entries_before(pages, id, height, c, usable) + rest(
            pages,
            id,
            height,
            c,
            false,
            usable,
        ),
        c > 0 ==> {
            let b = entries_before(pages, id, height, c, usable);
            b.len() > 0 && b.last() == entry_at(
                pages,
                page_of(pages, id),
                c - 1,
                usable,
            ).unwrap()
        },
    decreases c,
{
    let page = page_of(pages, id);
    if c == 0 {
        let e = entries(pages, id, height, usable);
        assert(entries_before(pages, id, height, 0, usable) + e =~= e);
    } else {
        let d = (c - 1) as nat;
        lemma_entries_split(pages, id, height, d, usable);
        let f = entries_before(pages, id, height, d, usable);
        let m = entries(pages, child_at(page, d as int, usable), (height - 1) as nat, usable);
        let e = seq![entry_at(pages, page, d as int, usable).unwrap()];
        let r = rest(pages, id, height, c, false, usable);
        assert(rest(pages, id, height, d, false, usable) == m + e + r);
        assert(f + (m + e + r) =~= (f + m + e) + r);
    }
}

/// Entries up to one that the search leaves behind are not looked for.
proof fn lemma_passed_unwanted(e: Seq<Seq<ValueModel>>, k: Seq<ValueModel>, op: SeekOp)
    requires
        sorted(e),
        is_record(k),
        e.len() > 0,
        !lies_left(record_order(e.last(), k), op),
    ensures
        none_wanted(e, k, op),
{
    assert forall|i: int| 0 <= i < e.len() implies !looked_for(
        #[trigger] e[i],
        Some((k, op)),
    ) by {
        let last = e[e.len() - 1];
        assert(is_record(e[i]) && is_record(last));
        if i < e.len() - 1 {
            assert(record_order(e[i], last) != Relation::Greater);
            record_order_joins(e[i], last, k);
        }
    }
}

proof fn lemma_sorted_part(e: Seq<Seq<ValueModel>>, a: int, b: int)
    requires
        sorted(e),
        0 <= a <= b <= e.len(),
    ensures
        sorted(e.subrange(a, b)),
{
    let s = e.subrange(a, b);
    assert forall|i: int| 0 <= i < s.len() implies is_record(#[trigger] s[i]) by {
        assert(s[i] == e[a + i]);
    }
    assert forall|i: int, j: int| 0 <= i < j < s.len() implies record_order(
        #[trigger] s[i],
        #[trigger] s[j],
    ) != Relation::Greater by {
        assert(s[i] == e[a + i] && s[j] == e[a + j]);
    }
}

/// Where a search goes from an interior page of an index: left of the first
/// cell that the key does not lie behind.
proof fn lemma_index_route(
    pages: Map<usize, PageState>,
    id: usize,
    height: nat,
    k: Seq<ValueModel>,
    op: SeekOp,
    usable: int,
    i: int,
) -> (c: int)
    requires
        height > 0,
        index_tree(pages, id, height, usable),
        0 <= i <= page_of(pages, id).cell_count(),
        i > 0 ==> !lies_left(
            record_order(entry_at(pages, page_of(pages, id), i - 1, usable).unwrap(), k),
            op,
        ),
    ensures
        ({
            let page = page_of(pages, id);
            &&& i <= c <= page.cell_count()
            &&& match route(pages, page, KeyModel::Index(k), op, usable, i) {
                Route::Left { index, child } => index == c && c < page.cell_count() && child
                    == page.head(c, usable).unwrap().child,
                Route::Rightmost => c == page.cell_count(),
                _ => false,
            }
            &&& c > 0 ==> !lies_left(
                record_order(entry_at(pages, page, c - 1, usable).unwrap(), k),
                op,
            )
        }),
    decreases page_of(pages, id).cell_count() - i,
{
    let page = page_of(pages, id);
    if i >= page.cell_count() {
        i
    } else {
        assert(has_entry(pages, page, i, usable));
        let e = entry_at(pages, page, i, usable).unwrap();
        if lies_left(record_order(e, k), op) {
            i
        } else {
            lemma_index_route(pages, id, height, k, op, usable, i + 1)
        }
    }
}

/// What a search finds on a leaf of an index.
pub proof fn lemma_search_index_leaf(
    pages: Map<usize, PageState>,
    id: usize,
    k: Seq<ValueModel>,
    op: SeekOp,
    usable: int,
    i: nat,
)
    requires
        index_tree(pages, id, 0, usable),
        i <= page_of(pages, id).cell_count(),
    ensures
        ({
            let l = rest(pages, id, 0, i, false, usable);
            let w = pick(l, Some((k, op)));
            &&& 0 <= w <= l.len()
            &&& search_leaf(
                pages,
                page_of(pages, id),
                KeyModel::Index(k),
                op,
                usable,
                i as int,
            ) == (if w < l.len() {
                Hit::At { index: i + w + 1, found: index_entry(l[w]) }
            } else {
                Hit::Nowhere
            })
        }),
    decreases page_of(pages, id).cell_count() - i,
{
    let page = page_of(pages, id);
    let l = rest(pages, id, 0, i, false, usable);
    lemma_pick(l, Some((k, op)));
    if i < page.cell_count() {
        assert(has_entry(pages, page, i as int, usable));
        let e = entry_at(pages, page, i as int, usable).unwrap();
        let m = rest(pages, id, 0, i + 1, false, usable);
        assert(l =~= seq![e] + m);
        assert(l[0] == e);
        assert(l.drop_first() =~= m);
        lemma_search_index_leaf(pages, id, k, op, usable, i + 1);
        let p = Some((k, op));
        if !looked_for(e, p) {
            assert(pick(l, p) == 1 + pick(m, p));
            assert(forall|w: int| 0 <= w < m.len() ==> l[w + 1] == #[trigger] m[w]);
        }
    }
}

/// A way down an index's tree: the entries before the leaf where it ends, and
/// those behind it.
pub struct Reached {
    pub before: Seq<Seq<ValueModel>>,
    pub after: Seq<Seq<ValueModel>>,
    pub ahead: Seq<Seq<ValueModel>>,
}

/// The way down an index's tree ends on a leaf before which no entry is looked
/// for. If none is looked for on the leaf either, the first one that is looked
/// for behind it is the first one ahead of the cursor.
#[verifier::rlimit(40)]
pub proof fn lemma_index_descend(
    pages: Map<usize, PageState>,
    stack: Seq<Frame>,
    height: nat,
    k: Seq<ValueModel>,
    op: SeekOp,
    usable: int,
) -> (x: Reached)
    requires
        height <= BTCURSOR_MAX_DEPTH,
        in_index(pages, stack, height, usable),
        is_record(k),
        sorted(entries(pages, stack.last().page, (height + 1 - stack.len()) as nat, usable)),
    ensures
        ({
            let d = descend(pages, stack, KeyModel::Index(k), op, usable);
            let id = d.stack.last().page;
            let leaf = entries(pages, id, 0, usable);
            let above = Walk { stack: stack.drop_last(), upwards: true };
            &&& d.end is Leaf
            &&& d.stack.len() == height + 1
            &&& in_index(pages, d.stack, height, usable)
            &&& entries(
                pages,
                stack.last().page,
                (height + 1 - stack.len()) as nat,
                usable,
            ) == x.before + leaf + x.after
            &&& none_wanted(x.before, k, op)
            &&& entries_ahead(
                pages,
                Walk { stack: d.stack.drop_last(), upwards: true },
                height,
                usable,
            ) == x.ahead + entries_ahead(pages, above, height, usable)
            &&& none_wanted(leaf, k, op) ==> same_pick(x.ahead, x.after, k, op)
        }),
    decreases height + 1 - stack.len(),
{
    let n = stack.len();
    let h = (height + 1 - n) as nat;
    let id = stack.last().page;
    let page = page_of(pages, id);
    let all = entries(pages, id, h, usable);
    let above = Walk { stack: stack.drop_last(), upwards: true };
    let none = Seq::<Seq<ValueModel>>::empty();
    assert(frame_in_index(pages, stack[n - 1], h, usable));
    if h == 0 {
        assert(all =~= none + all + none);
        let up = entries_ahead(pages, above, height, usable);
        assert(none + up =~= up);
        Reached { before: none, after: none, ahead: none }
    } else {
        let c = lemma_index_step(pages, stack, height, k, op, usable);
        let child = child_at(page, c, usable);
        let here = at_index(stack, c);
        let next = pushed(here, child as int);
        let front = entries_before(pages, id, h, c as nat, usable);
        let tail = lemma_around_child(pages, id, h, c, usable, k, op);
        let y = lemma_index_descend(pages, next, height, k, op, usable);
        let d = descend(pages, stack, KeyModel::Index(k), op, usable);
        let leaf = entries(pages, d.stack.last().page, 0, usable);
        let q = rest(pages, id, h, c as nat, true, usable);
        let up = entries_ahead(pages, above, height, usable);
        assert(entries_ahead(pages, Walk { stack: here, upwards: true }, height, usable) == q
            + up);
        if none_wanted(leaf, k, op) && c == page.cell_count() {
            lemma_pick_up_rightmost(pages, child, (h - 1) as nat, usable, k, op, y, leaf);
        }
        lemma_reached_above(all, front, leaf, tail, y, q, up, k, op)
    }
}

/// A way down seen from the page above the one where it starts.
proof fn lemma_reached_above(
    all: Seq<Seq<ValueModel>>,
    front: Seq<Seq<ValueModel>>,
    leaf: Seq<Seq<ValueModel>>,
    tail: Seq<Seq<ValueModel>>,
    y: Reached,
    q: Seq<Seq<ValueModel>>,
    up: Seq<Seq<ValueModel>>,
    k: Seq<ValueModel>,
    op: SeekOp,
) -> (x: Reached)
    requires
        all == front + ((y.before + leaf + y.after) + tail),
        none_wanted(front, k, op),
        none_wanted(y.before, k, op),
        none_wanted(leaf, k, op) ==> same_pick(y.ahead, y.after, k, op),
        none_wanted(leaf, k, op) ==> q == tail || (tail.len() == 0 && same_pick(
            y.ahead + q,
            y.after,
            k,
            op,
        )),
    ensures
        all == x.before + leaf + x.after,
        none_wanted(x.before, k, op),
        y.ahead + (q + up) == x.ahead + up,
        none_wanted(leaf, k, op) ==> same_pick(x.ahead, x.after, k, op),
{
    let x = Reached { before: front + y.before, after: y.after + tail, ahead: y.ahead + q };
    assert(all =~= x.before + leaf + x.after);
    lemma_none_wanted_joined(front, y.before, k, op);
    assert(y.ahead + (q + up) =~= x.ahead + up);
    if none_wanted(leaf, k, op) {
        if q == tail {
            lemma_same_pick_joined(y.ahead, y.after, tail, k, op);
        } else {
            assert(y.after + tail =~= y.after);
        }
    }
    x
}

/// One step down an index's tree.
pub proof fn lemma_index_step(
    pages: Map<usize, PageState>,
    stack: Seq<Frame>,
    height: nat,
    k: Seq<ValueModel>,
    op: SeekOp,
    usable: int,
) -> (c: int)
    requires
        height <= BTCURSOR_MAX_DEPTH,
        in_index(pages, stack, height, usable),
        stack.len() <= height,
    ensures
        ({
            let page = page_of(pages, stack.last().page);
            let here = at_index(stack, c);
            let next = pushed(here, child_at(page, c, usable) as int);
            &&& 0 <= c <= page.cell_count()
            &&& c > 0 ==> !lies_left(
                record_order(entry_at(pages, page, c - 1, usable).unwrap(), k),
                op,
            )
            &&& descend(pages, stack, KeyModel::Index(k), op, usable) == descend(
                pages,
                next,
                KeyModel::Index(k),
                op,
                usable,
            )
            &&& in_index(pages, next, height, usable)
            &&& next.len() == stack.len() + 1
            &&& next.drop_last() == here
            &&& next.last().page == child_at(page, c, usable)
            &&& here.drop_last() == stack.drop_last()
            &&& here.len() == stack.len()
            &&& here.last() == Frame { page: stack.last().page, index: c as usize }
        }),
{
    let n = stack.len();
    let h = (height + 1 - n) as nat;
    let id = stack.last().page;
    let page = page_of(pages, id);
    assert(frame_in_index(pages, stack[n - 1], h, usable));
    let c = lemma_index_route(pages, id, h, k, op, usable, 0);
    let here = at_index(stack, c);
    lemma_in_index_at(pages, stack, height, usable, c);
    lemma_in_index_down(pages, here, height, usable, c);
    c
}

/// The entries before a child to which a search goes are not looked for, and
/// the child's entries are in order.
pub proof fn lemma_around_child(
    pages: Map<usize, PageState>,
    id: usize,
    h: nat,
    c: int,
    usable: int,
    k: Seq<ValueModel>,
    op: SeekOp,
) -> (tail: Seq<Seq<ValueModel>>)
    requires
        h > 0,
        0 <= c <= page_of(pages, id).cell_count(),
        is_record(k),
        sorted(entries(pages, id, h, usable)),
        c > 0 ==> !lies_left(
            record_order(entry_at(pages, page_of(pages, id), c - 1, usable).unwrap(), k),
            op,
        ),
    ensures
        ({
            let page = page_of(pages, id);
            let front = entries_before(pages, id, h, c as nat, usable);
            let sub = entries(pages, child_at(page, c, usable), (h - 1) as nat, usable);
            &&& entries(pages, id, h, usable) == front + (sub + tail)
            &&& none_wanted(front, k, op)
            &&& sorted(sub)
            &&& c == page.cell_count() ==> {
                &&& tail.len() == 0
                &&& rest(pages, id, h, c as nat, true, usable) == rest(
                    pages,
                    child_at(page, c, usable),
                    (h - 1) as nat,
                    0,
                    true,
                    usable,
                )
            }
            &&& c < page.cell_count() ==> rest(pages, id, h, c as nat, true, usable) == tail
        }),
{
    let page = page_of(pages, id);
    let all = entries(pages, id, h, usable);
    let front = entries_before(pages, id, h, c as nat, usable);
    let sub = entries(pages, child_at(page, c, usable), (h - 1) as nat, usable);
    lemma_entries_split(pages, id, h, c as nat, usable);
    let tail = lemma_behind_child(pages, id, h, c, usable);
    assert(all == front + (sub + tail));
    lemma_sorted_parts(front, sub, tail);
    if c > 0 {
        lemma_passed_unwanted(front, k, op);
    }
    tail
}

/// Parts of entries in order are in order.
proof fn lemma_sorted_parts(
    a: Seq<Seq<ValueModel>>,
    b: Seq<Seq<ValueModel>>,
    c: Seq<Seq<ValueModel>>,
)
    requires
        sorted(a + (b + c)),
    ensures
        sorted(a),
        sorted(b),
{
    let all = a + (b + c);
    let m = a.len() as int;
    lemma_sorted_part(all, 0, m);
    assert(all.subrange(0, m) =~= a);
    lemma_sorted_part(all, m, m + b.len());
    assert(all.subrange(m, m + b.len()) =~= b);
}

/// What comes behind child `c` of an interior page.
proof fn lemma_behind_child(
    pages: Map<usize, PageState>,
    id: usize,
    h: nat,
    c: int,
    usable: int,
) -> (tail: Seq<Seq<ValueModel>>)
    requires
        h > 0,
        0 <= c <= page_of(pages, id).cell_count(),
    ensures
        ({
            let page = page_of(pages, id);
            let sub = entries(pages, child_at(page, c, usable), (h - 1) as nat, usable);
            &&& rest(pages, id, h, c as nat, false, usable) == sub + tail
            &&& c == page.cell_count() ==> tail.len() == 0
            &&& c < page.cell_count() ==> rest(pages, id, h, c as nat, true, usable) == tail
        }),
{
    let page = page_of(pages, id);
    let sub = entries(pages, child_at(page, c, usable), (h - 1) as nat, usable);
    let none = Seq::<Seq<ValueModel>>::empty();
    if c == page.cell_count() {
        assert(sub + none =~= sub);
        none
    } else {
        let e = seq![entry_at(pages, page, c, usable).unwrap()];
        let r = rest(pages, id, h, (c + 1) as nat, false, usable);
        assert(sub + e + r =~= sub + (e + r));
        assert(none + e + r =~= e + r);
        e + r
    }
}

/// Going through the right-most child once more finds nothing that was not
/// found before.
proof fn lemma_pick_up_rightmost(
    pages: Map<usize, PageState>,
    child: usize,
    h: nat,
    usable: int,
    k: Seq<ValueModel>,
    op: SeekOp,
    y: Reached,
    leaf: Seq<Seq<ValueModel>>,
)
    requires
        entries(pages, child, h, usable) == y.before + leaf + y.after,
        none_wanted(y.before, k, op),
        none_wanted(leaf, k, op),
        same_pick(y.ahead, y.after, k, op),
    ensures
        same_pick(y.ahead + rest(pages, child, h, 0, true, usable), y.after, k, op),
{
    let p = Some((k, op));
    let q = rest(pages, child, h, 0, true, usable);
    lemma_pick(y.ahead, p);
    lemma_pick(y.after, p);
    lemma_pick_joined(y.ahead, q, p);
    if pick(y.ahead, p) >= y.ahead.len() {
        lemma_none_picked(y.after, k, op);
        lemma_none_wanted_joined(y.before + leaf, y.after, k, op);
        lemma_none_wanted_joined(y.before, leaf, k, op);
        lemma_rest_none(pages, child, h, 0, usable, k, op);
        lemma_none_picked(q, k, op);
    }
}

/// Searching an index whose tree is in memory and whose entries are in order
/// gives the first of its entries that is looked for, or the end if none is.
pub proof fn index_search(c: CursorModel, height: nat, k: Seq<ValueModel>, op: SeekOp)
    requires
        height <= BTCURSOR_MAX_DEPTH,
        index_tree(c.pages(), c.root_page, height, c.usable()),
        in_order(entries(c.pages(), c.root_page, height, c.usable())),
        is_record(k),
    ensures
        ({
            let e = entries(c.pages(), c.root_page, height, c.usable());
            let j = pick(e, Some((k, op)));
            let x = c.search(KeyModel::Index(k), op);
            &&& 0 <= j <= e.len()
            &&& in_index(c.pages(), x.walk.stack, height, c.usable())
            &&& if j < e.len() {
                x.found == index_entry(e[j])
            } else {
                x.found is End
            }
        }),
{
    let pages = c.pages();
    let usable = c.usable();
    let p = Some((k, op));
    let stack = root_stack(c.root_page);
    assert(stack.last().page == c.root_page);
    assert(in_index(pages, stack, height, usable));
    lemma_rest_records(pages, c.root_page, height, 0, false, usable);
    let x = lemma_index_descend(pages, stack, height, k, op, usable);
    let d = c.descent(KeyModel::Index(k), op);
    let id = d.stack.last().page;
    let page = page_of(pages, id);
    let leaf = entries(pages, id, 0, usable);
    assert(frame_in_index(pages, d.stack[height as int], 0, usable));
    lemma_search_index_leaf(pages, id, k, op, usable, 0);
    lemma_first_picked(x.before, leaf, x.after, k, op);
    lemma_none_picked(leaf, k, op);
    let w = pick(leaf, p);
    if w < leaf.len() {
        lemma_leaf_len(pages, id, usable, 0);
        lemma_in_index_at(pages, d.stack, height, usable, w + 1);
    } else {
        lemma_in_index_at(pages, d.stack, height, usable, page.cell_count());
        let at = Walk {
            stack: at_index(d.stack, page.cell_count()),
            upwards: c.going_upwards,
        };
        next_index_entry(pages, at, height, p, usable);
        let none = Walk { stack: stack.drop_last(), upwards: true };
        assert(stack.drop_last().len() == 0);
        assert(entries_ahead(pages, none, height, usable) =~= Seq::empty());
        let a = entries_ahead(pages, at, height, usable);
        assert(a =~= x.ahead);
        lemma_pick(x.ahead, p);
    }
}

/// The first entry that is looked for, where none of those in front is one.
proof fn lemma_first_picked(
    before: Seq<Seq<ValueModel>>,
    leaf: Seq<Seq<ValueModel>>,
    after: Seq<Seq<ValueModel>>,
    k: Seq<ValueModel>,
    op: SeekOp,
)
    requires
        none_wanted(before, k, op),
    ensures
        ({
            let p = Some((k, op));
            let e = before + leaf + after;
            let j = pick(e, p);
            let w = pick(leaf, p);
            let v = pick(after, p);
            &&& 0 <= j <= e.len()
            &&& 0 <= w <= leaf.len()
            &&& 0 <= v <= after.len()
            &&& if w < leaf.len() {
                j < e.len() && e[j] == leaf[w]
            } else if v < after.len() {
                j < e.len() && e[j] == after[v]
            } else {
                j == e.len()
            }
        }),
{
    let p = Some((k, op));
    let e = before + leaf + after;
    lemma_pick(leaf, p);
    lemma_pick(after, p);
    lemma_pick(e, p);
    lemma_none_picked(before, k, op);
    lemma_pick_joined(before + leaf, after, p);
    lemma_pick_joined(before, leaf, p);
    if pick(leaf, p) < leaf.len() {
        assert(e[before.len() + pick(leaf, p)] == leaf[pick(leaf, p)]);
    } else if pick(after, p) < after.len() {
        assert(e[before.len() + leaf.len() + pick(after, p)] == after[pick(after, p)]);
    }
}

/// A leaf has as many entries as cells.
pub proof fn lemma_leaf_len(pages: Map<usize, PageState>, id: usize, usable: int, i: nat)
    requires
        i <= page_of(pages, id).cell_count(),
    ensures
        rest(pages, id, 0, i, false, usable).len() == page_of(pages, id).cell_count() - i,
    decreases page_of(pages, id).cell_count() - i,
{
    if i < page_of(pages, id).cell_count() {
        lemma_leaf_len(pages, id, usable, i + 1);
    }
}

/// Reading an index whose tree is in memory: after a rewind and `n` steps the
/// cursor holds entry `n` of those ahead of the root, and nothing once there
/// are no more. With a cursor that has not come from below, these are all
/// entries, in the order of the tree.
pub proof fn index_scan_gives_all_entries(c: CursorModel, height: nat, n: nat)
    requires
        height <= BTCURSOR_MAX_DEPTH,
        index_tree(c.pages(), c.root_page, height, c.usable()),
    ensures
        ({
            let e = rest(c.pages(), c.root_page, height, 0, c.going_upwards, c.usable());
            let d = c.scanned(n);
            &&& !c.going_upwards ==> e == entries(c.pages(), c.root_page, height, c.usable())
            &&& d.pager == c.pager
            &&& d.header == c.header
            &&& in_index(c.pages(), d.stack, height, c.usable())
            &&& if n < e.len() {
                &&& index_rowid(e[n as int]) is Some
                &&& d.rowid == Some(index_rowid(e[n as int]).unwrap() as u64)
                &&& d.record == Some(e[n as int])
                &&& entries_ahead(c.pages(), d.walk(), height, c.usable()) == e.skip(n as int + 1)
            } else {
                &&& d.rowid is None
                &&& d.record is None
                &&& entries_ahead(c.pages(), d.walk(), height, c.usable()).len() == 0
            }
        }),
    decreases n,
{
    reveal(CursorModel::scanned);
    let e = rest(c.pages(), c.root_page, height, 0, c.going_upwards, c.usable());
    if n == 0 {
        lemma_entry_start(c, height);
    } else {
        let m = (n - 1) as nat;
        index_scan_gives_all_entries(c, height, m);
        lemma_entry_step(c.scanned(m), height, e, m as int);
    }
}

/// Whether the cursor holds entry `n` of `e` and has the entries behind it ahead.
spec fn on_entry(d: CursorModel, height: nat, e: Seq<Seq<ValueModel>>, n: int) -> bool {
    let a = entries_ahead(d.pages(), d.walk(), height, d.usable());
    if n < e.len() {
        &&& index_rowid(e[n]) is Some
        &&& d.rowid == Some(index_rowid(e[n]).unwrap() as u64)
        &&& d.record == Some(e[n])
        &&& a == e.skip(n + 1)
    } else {
        &&& d.rowid is None
        &&& d.record is None
        &&& a.len() == 0
    }
}

/// A rewind goes to the first entry of those ahead of the root.
proof fn lemma_entry_start(c: CursorModel, height: nat)
    requires
        height <= BTCURSOR_MAX_DEPTH,
        index_tree(c.pages(), c.root_page, height, c.usable()),
    ensures
        c.rewound().pager == c.pager,
        c.rewound().header == c.header,
        in_index(c.pages(), c.rewound().stack, height, c.usable()),
        on_entry(
            c.rewound(),
            height,
            rest(c.pages(), c.root_page, height, 0, c.going_upwards, c.usable()),
            0,
        ),
{
    let pages = c.pages();
    let usable = c.usable();
    let e = rest(pages, c.root_page, height, 0, c.going_upwards, usable);
    let stack = root_stack(c.root_page);
    assert(in_index(pages, stack, height, usable));
    assert(c.at_root().pager == c.pager);
    let w = c.at_root().walk();
    let above = Walk { stack: stack.drop_last(), upwards: true };
    assert(stack.drop_last().len() == 0);
    assert(entries_ahead(pages, above, height, usable) =~= Seq::empty());
    assert(entries_ahead(pages, w, height, usable) =~= e);
    lemma_pick_all(e);
    next_index_entry(pages, w, height, None, usable);
}

/// A step goes to the next entry.
proof fn lemma_entry_step(d: CursorModel, height: nat, e: Seq<Seq<ValueModel>>, n: int)
    requires
        height <= BTCURSOR_MAX_DEPTH,
        in_index(d.pages(), d.stack, height, d.usable()),
        0 <= n,
        on_entry(d, height, e, n),
    ensures
        d.stepped().pager == d.pager,
        d.stepped().header == d.header,
        in_index(d.pages(), d.stepped().stack, height, d.usable()),
        on_entry(d.stepped(), height, e, n + 1),
{
    let a = entries_ahead(d.pages(), d.walk(), height, d.usable());
    lemma_pick_all(a);
    next_index_entry(d.pages(), d.walk(), height, None, d.usable());
    if a.len() > 0 {
        assert(a[0] == e[n + 1]);
        assert(a.skip(1) =~= e.skip(n + 2));
    }
}

/// Where every entry is looked for, the first one is picked.
pub proof fn lemma_pick_all(a: Seq<Seq<ValueModel>>)
    ensures
        pick(a, None) == 0,
{
}

} // verus!
