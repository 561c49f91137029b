//! The entries of an index as its tree holds them, and what walking through it
//! and searching it give.

use vstd::prelude::*;
use crate::cell::{cell_at, CellModel, Fetch};
use crate::cursor::{at_index, pushed, BTCURSOR_MAX_DEPTH, Frame};
use crate::order::{record_order, satisfies, KeyModel, SeekOp};
use crate::page::{PageModel, PageType};
use crate::pager::{loaded, page_of, PageState};
use crate::record::{parse_record, ValueModel};
use crate::tables::child_at;
use crate::walk::{
    distance, index_entry, index_rowid, lemma_step_nearer, next_entry, step, Step, Walk,
};

verus! {

/// The entry in cell `i` of a page of an index; `None` if there is none to be read.
pub open spec fn entry_at(
    pages: Map<usize, PageState>,
    page: PageModel,
    i: int,
    usable: int,
) -> Option<Seq<ValueModel>> {
    match cell_at(pages, page, i, usable) {
        Fetch::Ready(CellModel::IndexLeaf { payload }) => parse_record(payload),
        Fetch::Ready(CellModel::IndexInterior { payload, .. }) => parse_record(payload),
        _ => None,
    }
}

/// Whether cell `i` of a page holds an entry that ends with a row id.
pub open spec fn has_entry(
    pages: Map<usize, PageState>,
    page: PageModel,
    i: int,
    usable: int,
) -> bool {
    &&& entry_at(pages, page, i, usable) is Some
    &&& index_rowid(entry_at(pages, page, i, usable).unwrap()) is Some
}

/// Whether page `id` is the root of an index's tree, all of it in memory and to
/// be read, with `height` levels of interior pages.
pub open spec fn index_tree(
    pages: Map<usize, PageState>,
    id: usize,
    height: nat,
    usable: int,
) -> bool
    decreases height,
{
    let page = page_of(pages, id);
    &&& loaded(pages, id)
    &&& forall|i: int| 0 <= i < page.cell_count() ==> #[trigger] has_entry(pages, page, i, usable)
    &&& if height == 0 {
        page.page_type() == Some(PageType::IndexLeaf)
    } else {
        &&& page.page_type() == Some(PageType::IndexInterior)
        &&& forall|i: int|
            0 <= i <= page.cell_count() ==> index_tree(
                pages,
                #[trigger] child_at(page, i, usable),
                (height - 1) as nat,
                usable,
            )
    }
}

/// The entries that a subtree has still to give at cell `i` of its root: the
/// child left of the cell, the entry of the cell, and what comes behind. Once
/// the child is `passed`, it is left out. Going on to the right-most child
/// does not forget that something was passed.
pub open spec fn rest(
    pages: Map<usize, PageState>,
    id: usize,
    height: nat,
    i: nat,
    passed: bool,
    usable: int,
) -> Seq<Seq<ValueModel>>
    decreases height, page_of(pages, id).cell_count() + 1 - i,
{
    let page = page_of(pages, id);
    if i > page.cell_count() {
        Seq::empty()
    } else if i == page.cell_count() {
        if height == 0 {
            Seq::empty()
        } else {
            rest(
                pages,
                child_at(page, i as int, usable),
                (height - 1) as nat,
                0,
                passed,
                usable,
            )
        }
    } else {
        let child = if height == 0 || passed {
            Seq::empty()
        } else {
            rest(
                pages,
                child_at(page, i as int, usable),
                (height - 1) as nat,
                0,
                false,
                usable,
            )
        };
        child + seq![entry_at(pages, page, i as int, usable).unwrap()] + rest(
            pages,
            id,
            height,
            i + 1,
            height == 0 && passed,
            usable,
        )
    }
}

/// The entries of an index's tree, in the order of the tree.
pub open spec fn entries(
    pages: Map<usize, PageState>,
    id: usize,
    height: nat,
    usable: int,
) -> Seq<Seq<ValueModel>> {
    rest(pages, id, height, 0, false, usable)
}

/// The entries ahead of a place in an index's tree with `height` levels of
/// interior pages.
pub open spec fn entries_ahead(
    pages: Map<usize, PageState>,
    w: Walk,
    height: nat,
    usable: int,
) -> Seq<Seq<ValueModel>>
    decreases w.stack.len(),
{
    if w.stack.len() == 0 {
        Seq::empty()
    } else {
        let f = w.stack.last();
        rest(
            pages,
            f.page,
            (height + 1 - w.stack.len()) as nat,
            f.index as nat,
            w.upwards,
            usable,
        ) + entries_ahead(
            pages,
            Walk { stack: w.stack.drop_last(), upwards: true },
            height,
            usable,
        )
    }
}

/// Whether a frame stands on a page of an index's tree.
pub open spec fn frame_in_index(
    pages: Map<usize, PageState>,
    f: Frame,
    height: nat,
    usable: int,
) -> bool {
    &&& index_tree(pages, f.page, height, usable)
    &&& f.index <= page_of(pages, f.page).cell_count() + 1
}

/// Whether a stack is a place in an index's tree with `height` levels of
/// interior pages.
pub open spec fn in_index(
    pages: Map<usize, PageState>,
    stack: Seq<Frame>,
    height: nat,
    usable: int,
) -> bool {
    &&& 0 < stack.len() <= height + 1
    &&& forall|i: int|
        0 <= i < stack.len() ==> frame_in_index(
            pages,
            #[trigger] stack[i],
            (height - i) as nat,
            usable,
        )
}

/// Whether an entry is looked for.
pub open spec fn looked_for(
    entry: Seq<ValueModel>,
    predicate: Option<(Seq<ValueModel>, SeekOp)>,
) -> bool {
    match predicate {
        None => true,
        Some((k, op)) => satisfies(record_order(entry, k), op),
    }
}

/// The place of the first entry that is looked for, or the number of entries.
pub open spec fn pick(
    a: Seq<Seq<ValueModel>>,
    predicate: Option<(Seq<ValueModel>, SeekOp)>,
) -> int
    decreases a.len(),
{
    if a.len() == 0 {
        0
    } else if looked_for(a[0], predicate) {
        0
    } else {
        1 + pick(a.drop_first(), predicate)
    }
}

/// The predicate of a walk that looks for such entries.
pub open spec fn as_key(p: Option<(Seq<ValueModel>, SeekOp)>) -> Option<(KeyModel, SeekOp)> {
    match p {
        None => None,
        Some((k, op)) => Some((KeyModel::Index(k), op)),
    }
}

/// What [`pick`] says.
pub proof fn lemma_pick(a: Seq<Seq<ValueModel>>, predicate: Option<(Seq<ValueModel>, SeekOp)>)
    ensures
        0 <= pick(a, predicate) <= a.len(),
        pick(a, predicate) < a.len() ==> looked_for(a[pick(a, predicate)], predicate),
        forall|i: int| 0 <= i < pick(a, predicate) ==> !looked_for(#[trigger] a[i], predicate),
    decreases a.len(),
{
    if a.len() > 0 && !looked_for(a[0], predicate) {
        let b = a.drop_first();
        lemma_pick(b, predicate);
        assert forall|i: int| 0 <= i < pick(a, predicate) implies !looked_for(
            #[trigger] a[i],
            predicate,
        ) by {
            if i > 0 {
                assert(a[i] == b[i - 1]);
            }
        }
    }
}

/// The first entry that is looked for, one behind another.
pub proof fn lemma_pick_joined(
    a: Seq<Seq<ValueModel>>,
    b: Seq<Seq<ValueModel>>,
    predicate: Option<(Seq<ValueModel>, SeekOp)>,
)
    ensures
        pick(a + b, predicate) == if pick(a, predicate) < a.len() {
            pick(a, predicate)
        } else {
            a.len() + pick(b, predicate)
        },
    decreases a.len(),
{
    if a.len() == 0 {
        assert(a + b =~= b);
    } else if !looked_for(a[0], predicate) {
        lemma_pick(a, predicate);
        lemma_pick(a.drop_first(), predicate);
        lemma_pick_joined(a.drop_first(), b, predicate);
        assert((a + b).drop_first() =~= a.drop_first() + b);
    }
}

/// A place after the frame at its top was moved to cell `i`.
pub proof fn lemma_in_index_at(
    pages: Map<usize, PageState>,
    stack: Seq<Frame>,
    height: nat,
    usable: int,
    i: int,
)
    requires
        in_index(pages, stack, height, usable),
        0 <= i <= page_of(pages, stack.last().page).cell_count() + 1,
    ensures
        in_index(pages, at_index(stack, i), height, usable),
        at_index(stack, i).drop_last() == stack.drop_last(),
{
    let next = at_index(stack, i);
    assert forall|j: int| 0 <= j < next.len() implies frame_in_index(
        pages,
        #[trigger] next[j],
        (height - j) as nat,
        usable,
    ) by {
        assert(frame_in_index(pages, stack[j], (height - j) as nat, usable));
    }
    assert(next.drop_last() =~= stack.drop_last());
}

/// A place after the cursor went down to child `c` of the page at its top.
pub proof fn lemma_in_index_down(
    pages: Map<usize, PageState>,
    stack: Seq<Frame>,
    height: nat,
    usable: int,
    c: int,
)
    requires
        in_index(pages, stack, height, usable),
        stack.len() <= height,
        0 <= c <= page_of(pages, stack.last().page).cell_count(),
    ensures
        ({
            let child = child_at(page_of(pages, stack.last().page), c, usable);
            let next = pushed(stack, child as int);
            &&& in_index(pages, next, height, usable)
            &&& next.drop_last() == stack
            &&& next.last() == Frame { page: child, index: 0 }
        }),
{
    let n = stack.len();
    let page = page_of(pages, stack.last().page);
    let child = child_at(page, c, usable);
    let next = pushed(stack, child as int);
    assert(frame_in_index(pages, stack[n - 1], (height - (n - 1)) as nat, usable));
    assert forall|j: int| 0 <= j < next.len() implies frame_in_index(
        pages,
        #[trigger] next[j],
        (height - j) as nat,
        usable,
    ) by {
        if j < n {
            assert(next[j] == stack[j]);
        }
    }
    assert(next.drop_last() =~= stack);
}

/// A place after the cursor went up.
proof fn lemma_in_index_up(
    pages: Map<usize, PageState>,
    stack: Seq<Frame>,
    height: nat,
    usable: int,
)
    requires
        in_index(pages, stack, height, usable),
        stack.len() > 1,
    ensures
        in_index(pages, stack.drop_last(), height, usable),
{
    let next = stack.drop_last();
    assert forall|j: int| 0 <= j < next.len() implies frame_in_index(
        pages,
        #[trigger] next[j],
        (height - j) as nat,
        usable,
    ) by {
        assert(next[j] == stack[j]);
    }
}

/// What one step from a place in an index's tree does to the entries ahead.
spec fn step_keeps(
    pages: Map<usize, PageState>,
    w: Walk,
    height: nat,
    predicate: Option<(Seq<ValueModel>, SeekOp)>,
    usable: int,
) -> bool {
    let a = entries_ahead(pages, w, height, usable);
    match step(pages, w, as_key(predicate), usable) {
        Step::Go(v) => {
            &&& in_index(pages, v.stack, height, usable)
            &&& {
                ||| entries_ahead(pages, v, height, usable) == a
                ||| a.len() > 0 && !looked_for(a[0], predicate) && entries_ahead(
                    pages,
                    v,
                    height,
                    usable,
                ) == a.drop_first()
            }
        },
        Step::Stop(x) => {
            &&& in_index(pages, x.walk.stack, height, usable)
            &&& if a.len() > 0 {
                &&& looked_for(a[0], predicate)
                &&& x.found == index_entry(a[0])
                &&& index_rowid(a[0]) is Some
                &&& entries_ahead(pages, x.walk, height, usable) == a.drop_first()
            } else {
                &&& x.found is End
                &&& entries_ahead(pages, x.walk, height, usable).len() == 0
            }
        },
    }
}

/// A step at a cell of a leaf, or at one whose child was passed.
proof fn lemma_step_entry(
    pages: Map<usize, PageState>,
    w: Walk,
    height: nat,
    predicate: Option<(Seq<ValueModel>, SeekOp)>,
    usable: int,
)
    requires
        in_index(pages, w.stack, height, usable),
        w.stack.last().index < page_of(pages, w.stack.last().page).cell_count(),
        w.stack.len() == height + 1 || w.upwards,
    ensures
        step_keeps(pages, w, height, predicate, usable),
{
    let n = w.stack.len();
    let h = (height + 1 - n) as nat;
    let f = w.stack.last();
    let i = f.index as int;
    let page = page_of(pages, f.page);
    assert(frame_in_index(pages, w.stack[n - 1], h, usable));
    assert(has_entry(pages, page, i, usable));
    let entry = entry_at(pages, page, i, usable).unwrap();
    let stack = at_index(w.stack, i + 1);
    let v = if h == 0 {
        Walk { stack, ..w }
    } else {
        Walk { stack, upwards: false }
    };
    lemma_in_index_at(pages, w.stack, height, usable, i + 1);
    let a = entries_ahead(pages, w, height, usable);
    let b = entries_ahead(pages, v, height, usable);
    let up = entries_ahead(
        pages,
        Walk { stack: w.stack.drop_last(), upwards: true },
        height,
        usable,
    );
    let r = rest(pages, f.page, h, (i + 1) as nat, v.upwards, usable);
    assert(b == r + up);
    assert(rest(pages, f.page, h, i as nat, w.upwards, usable) =~= seq![entry] + r);
    assert(a == seq![entry] + r + up);
    assert(a.drop_first() =~= b);
    assert(a[0] == entry);
}

/// A step down to the child left of a cell.
proof fn lemma_step_to_child(
    pages: Map<usize, PageState>,
    w: Walk,
    height: nat,
    predicate: Option<(Seq<ValueModel>, SeekOp)>,
    usable: int,
)
    requires
        height <= BTCURSOR_MAX_DEPTH,
        in_index(pages, w.stack, height, usable),
        w.stack.last().index < page_of(pages, w.stack.last().page).cell_count(),
        w.stack.len() <= height,
        !w.upwards,
    ensures
        step_keeps(pages, w, height, predicate, usable),
{
    let n = w.stack.len();
    let h = (height + 1 - n) as nat;
    let f = w.stack.last();
    let i = f.index as int;
    let page = page_of(pages, f.page);
    assert(frame_in_index(pages, w.stack[n - 1], h, usable));
    assert(has_entry(pages, page, i, usable));
    lemma_in_index_down(pages, w.stack, height, usable, i);
    let child = child_at(page, i, usable);
    let v = Walk { stack: pushed(w.stack, child as int), ..w };
    let entry = entry_at(pages, page, i, usable).unwrap();
    let c = rest(pages, child, (h - 1) as nat, 0, false, usable);
    let r = rest(pages, f.page, h, (i + 1) as nat, false, usable);
    let up = entries_ahead(
        pages,
        Walk { stack: w.stack.drop_last(), upwards: true },
        height,
        usable,
    );
    let a = entries_ahead(pages, w, height, usable);
    assert(a == (c + seq![entry] + r) + up);
    let back = Walk { stack: w.stack, upwards: true };
    assert(rest(pages, f.page, h, i as nat, true, usable) =~= seq![entry] + r);
    assert(entries_ahead(pages, back, height, usable) == (seq![entry] + r) + up);
    assert(entries_ahead(pages, v, height, usable) == c + entries_ahead(
        pages,
        back,
        height,
        usable,
    ));
    assert(entries_ahead(pages, v, height, usable) =~= a);
}

/// A step at the end of a page: to the right-most child, up, or to the end.
proof fn lemma_step_end(
    pages: Map<usize, PageState>,
    w: Walk,
    height: nat,
    predicate: Option<(Seq<ValueModel>, SeekOp)>,
    usable: int,
)
    requires
        height <= BTCURSOR_MAX_DEPTH,
        in_index(pages, w.stack, height, usable),
        w.stack.last().index >= page_of(pages, w.stack.last().page).cell_count(),
    ensures
        step_keeps(pages, w, height, predicate, usable),
{
    let n = w.stack.len();
    let h = (height + 1 - n) as nat;
    let f = w.stack.last();
    let i = f.index as int;
    let page = page_of(pages, f.page);
    assert(frame_in_index(pages, w.stack[n - 1], h, usable));
    let count = page.cell_count();
    let up = entries_ahead(
        pages,
        Walk { stack: w.stack.drop_last(), upwards: true },
        height,
        usable,
    );
    let a = entries_ahead(pages, w, height, usable);
    if i == count && h > 0 {
        let left = at_index(w.stack, count + 1);
        lemma_in_index_at(pages, w.stack, height, usable, count + 1);
        lemma_in_index_down(pages, left, height, usable, count);
        let child = child_at(page, count, usable);
        let v = Walk { stack: pushed(left, child as int), ..w };
        let back = Walk { stack: left, upwards: true };
        assert(entries_ahead(pages, back, height, usable) =~= up);
        assert(entries_ahead(pages, v, height, usable) == rest(
            pages,
            child,
            (h - 1) as nat,
            0,
            w.upwards,
            usable,
        ) + entries_ahead(pages, back, height, usable));
        assert(entries_ahead(pages, v, height, usable) == a);
    } else {
        assert(rest(pages, f.page, h, i as nat, w.upwards, usable).len() == 0);
        assert(a =~= up);
        if n > 1 {
            lemma_in_index_up(pages, w.stack, height, usable);
        } else {
            assert(w.stack.drop_last().len() == 0);
            if i == count {
                lemma_in_index_at(pages, w.stack, height, usable, count + 1);
                let v = Walk { stack: at_index(w.stack, count + 1), ..w };
                assert(v.stack.drop_last().len() == 0);
                assert(entries_ahead(pages, v, height, usable).len() == 0);
            }
        }
    }
}

/// Where the first entry is not looked for, the one that is picked is picked
/// among the others.
proof fn lemma_pick_next(
    a: Seq<Seq<ValueModel>>,
    predicate: Option<(Seq<ValueModel>, SeekOp)>,
)
    requires
        a.len() > 0,
        !looked_for(a[0], predicate),
    ensures
        ({
            let b = a.drop_first();
            let i = pick(b, predicate);
            &&& pick(a, predicate) == i + 1
            &&& 0 <= i <= b.len()
            &&& i < b.len() ==> b[i] == a[i + 1] && b.skip(i + 1) == a.skip(i + 2)
        }),
{
    let b = a.drop_first();
    let i = pick(b, predicate);
    lemma_pick(b, predicate);
    if i < b.len() {
        assert(b.skip(i + 1) =~= a.skip(i + 2));
    }
}

/// From any place in an index's tree, the next entry is the first of those
/// ahead that is looked for, and then those behind it are ahead. Where none is
/// looked for, the end is found, and there is none ahead any more.
pub proof fn next_index_entry(
    pages: Map<usize, PageState>,
    w: Walk,
    height: nat,
    predicate: Option<(Seq<ValueModel>, SeekOp)>,
    usable: int,
)
    requires
        height <= BTCURSOR_MAX_DEPTH,
        in_index(pages, w.stack, height, usable),
    ensures
        ({
            let x = next_entry(pages, w, as_key(predicate), usable);
            let a = entries_ahead(pages, w, height, usable);
            let j = pick(a, predicate);
            &&& in_index(pages, x.walk.stack, height, usable)
            &&& 0 <= j <= a.len()
            &&& if j < a.len() {
                &&& x.found == index_entry(a[j])
                &&& index_rowid(a[j]) is Some
                &&& entries_ahead(pages, x.walk, height, usable) == a.skip(j + 1)
            } else {
                &&& x.found is End
                &&& entries_ahead(pages, x.walk, height, usable).len() == 0
            }
        }),
    decreases distance(pages, w),
{
    let stack = w.stack;
    let f = stack.last();
    let page = page_of(pages, f.page);
    if f.index >= page.cell_count() {
        lemma_step_end(pages, w, height, predicate, usable);
    } else if stack.len() == height + 1 || w.upwards {
        lemma_step_entry(pages, w, height, predicate, usable);
    } else {
        lemma_step_to_child(pages, w, height, predicate, usable);
    }
    let a = entries_ahead(pages, w, height, usable);
    lemma_pick(a, predicate);
    match step(pages, w, as_key(predicate), usable) {
        Step::Go(v) => {
            lemma_step_nearer(pages, w, as_key(predicate), usable);
            next_index_entry(pages, v, height, predicate, usable);
            let b = entries_ahead(pages, v, height, usable);
            if b != a {
                assert(b == a.drop_first());
                lemma_pick_next(a, predicate);
            }
        },
        Step::Stop(x) => {
            if a.len() > 0 {
                assert(a.drop_first() =~= a.skip(1));
            }
        },
    }
}

} // verus!
