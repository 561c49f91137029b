//! Reading a table from its first row to its last.

use vstd::prelude::*;
use crate::cursor::{at_index, pushed, BTCURSOR_MAX_DEPTH, CursorModel, Frame};
use crate::descent::{descend_right, root_stack};
use crate::page::PageType;
use crate::pager::{loaded, page_of, PageState};
use crate::tables::{
    child_at, high, leaf_rows, lemma_interior_cell, lemma_rows_split, low, row_at, rows,
    rows_before, rows_from, table, Row,
};
use crate::walk::{distance, lemma_step_nearer, next_entry, step, Found, Step, Walk, Walked};

verus! {

/// Whether page `id` is the root of a tree of table pages, all of it in memory
/// and to be read, with `height` levels of interior pages.
pub open spec fn readable(pages: Map<usize, PageState>, id: usize, height: nat, usable: int) -> bool
    decreases height,
{
    let page = page_of(pages, id);
    &&& loaded(pages, id)
    &&& if height == 0 {
        &&& page.page_type() == Some(PageType::TableLeaf)
        &&& forall|i: int|
            0 <= i < page.cell_count() ==> (#[trigger] row_at(pages, page, i, usable)) is Some
    } else {
        &&& page.page_type() == Some(PageType::TableInterior)
        &&& forall|i: int|
            0 <= i < page.cell_count() ==> (#[trigger] page.head(i, usable)) is Some
        &&& forall|i: int|
            0 <= i <= page.cell_count() ==> readable(
                pages,
                #[trigger] child_at(page, i, usable),
                (height - 1) as nat,
                usable,
            )
    }
}

/// A table's tree can be read.
pub proof fn lemma_table_readable(
    pages: Map<usize, PageState>,
    id: usize,
    height: nat,
    lo: int,
    hi: int,
    usable: int,
)
    requires
        table(pages, id, height, lo, hi, usable),
    ensures
        readable(pages, id, height, usable),
    decreases height,
{
    let page = page_of(pages, id);
    if height > 0 {
        assert forall|i: int| 0 <= i <= page.cell_count() implies readable(
            pages,
            #[trigger] child_at(page, i, usable),
            (height - 1) as nat,
            usable,
        ) by {
            lemma_table_readable(
                pages,
                child_at(page, i, usable),
                (height - 1) as nat,
                low(page, i, lo, usable),
                high(page, i, hi, usable),
                usable,
            );
        }
    }
}

/// The rows that a frame has still to give: those of its leaf from its cell
/// on, or of the children of its interior page from its cell on.
pub open spec fn frame_rows(
    pages: Map<usize, PageState>,
    f: Frame,
    height: nat,
    usable: int,
) -> Seq<Row> {
    let page = page_of(pages, f.page);
    if height > 0 {
        rows_from(pages, page, height, f.index as nat, usable)
    } else if f.index <= page.cell_count() {
        leaf_rows(pages, page, usable).skip(f.index as int)
    } else {
        Seq::empty()
    }
}

/// The rows ahead of a cursor, in a tree with `height` levels of interior pages.
pub open spec fn ahead(
    pages: Map<usize, PageState>,
    stack: Seq<Frame>,
    height: nat,
    usable: int,
) -> Seq<Row>
    decreases stack.len(),
{
    if stack.len() == 0 {
        Seq::empty()
    } else {
        frame_rows(pages, stack.last(), (height + 1 - stack.len()) as nat, usable) + ahead(
            pages,
            stack.drop_last(),
            height,
            usable,
        )
    }
}

/// Whether a frame stands on a page of a readable tree.
pub open spec fn frame_ok(
    pages: Map<usize, PageState>,
    f: Frame,
    height: nat,
    usable: int,
) -> bool {
    &&& readable(pages, f.page, height, usable)
    &&& f.index <= page_of(pages, f.page).cell_count() + 1
}

/// Whether a stack is a place in a tree with `height` levels of interior pages.
pub open spec fn in_tree(
    pages: Map<usize, PageState>,
    stack: Seq<Frame>,
    height: nat,
    usable: int,
) -> bool {
    &&& 0 < stack.len() <= height + 1
    &&& forall|i: int|
        0 <= i < stack.len() ==> frame_ok(
            pages,
            #[trigger] stack[i],
            (height - i) as nat,
            usable,
        )
}

/// The rows ahead after the cursor goes down to child `i`.
proof fn lemma_ahead_down(
    pages: Map<usize, PageState>,
    stack: Seq<Frame>,
    height: nat,
    usable: int,
    i: int,
)
    requires
        in_tree(pages, stack, height, usable),
        stack.len() <= height,
        i == stack.last().index,
        0 <= i <= page_of(pages, stack.last().page).cell_count(),
    ensures
        ({
            let page = page_of(pages, stack.last().page);
            let next = pushed(at_index(stack, i + 1), child_at(page, i, usable) as int);
            &&& in_tree(pages, next, height, usable)
            &&& ahead(pages, next, height, usable) == ahead(pages, stack, height, usable)
        }),
{
    let page = page_of(pages, stack.last().page);
    let child = child_at(page, i, usable);
    let left = at_index(stack, i + 1);
    let next = pushed(left, child as int);
    let n = stack.len();
    let h = (height + 1 - n) as nat;
    assert(frame_ok(pages, stack[n - 1], h, usable));
    assert(readable(pages, child, (h - 1) as nat, usable));
    assert forall|j: int| 0 <= j < next.len() implies frame_ok(
        pages,
        #[trigger] next[j],
        (height - j) as nat,
        usable,
    ) by {
        if j < n - 1 {
            assert(next[j] == stack[j]);
        }
    }
    assert(next.drop_last() =~= left);
    assert(left.drop_last() =~= stack.drop_last());
    let kid = page_of(pages, child);
    assert(frame_rows(pages, next.last(), (h - 1) as nat, usable) == rows(
        pages,
        child,
        (h - 1) as nat,
        usable,
    )) by {
        if h - 1 == 0 {
            assert(leaf_rows(pages, kid, usable).skip(0) =~= leaf_rows(pages, kid, usable));
        }
    }
    let a = rows(pages, child, (h - 1) as nat, usable);
    let b = rows_from(pages, page, h, (i + 1) as nat, usable);
    let c = ahead(pages, stack.drop_last(), height, usable);
    assert(ahead(pages, left, height, usable) == b + c);
    assert(ahead(pages, stack, height, usable) == (a + b) + c);
    assert(a + (b + c) =~= (a + b) + c);
}

/// The rows ahead after the cursor goes up from a page that has no more.
proof fn lemma_ahead_up(pages: Map<usize, PageState>, stack: Seq<Frame>, height: nat, usable: int)
    requires
        in_tree(pages, stack, height, usable),
        stack.len() > 1,
        frame_rows(pages, stack.last(), (height + 1 - stack.len()) as nat, usable).len() == 0,
    ensures
        in_tree(pages, stack.drop_last(), height, usable),
        ahead(pages, stack.drop_last(), height, usable) == ahead(pages, stack, height, usable),
{
    let next = stack.drop_last();
    assert forall|j: int| 0 <= j < next.len() implies frame_ok(
        pages,
        #[trigger] next[j],
        (height - j) as nat,
        usable,
    ) by {
        assert(next[j] == stack[j]);
    }
    assert(ahead(pages, stack, height, usable) =~= ahead(pages, next, height, usable));
}

/// From any place in a table's tree, the next entry is the first of the rows
/// ahead, and then the others are ahead. Where no row is ahead, the end is
/// found, and there is still none ahead.
pub proof fn next_row(pages: Map<usize, PageState>, w: Walk, height: nat, usable: int)
    requires
        height <= BTCURSOR_MAX_DEPTH,
        in_tree(pages, w.stack, height, usable),
    ensures
        ({
            let x = next_entry(pages, w, None, usable);
            let a = ahead(pages, w.stack, height, usable);
            &&& in_tree(pages, x.walk.stack, height, usable)
            &&& if a.len() > 0 {
                &&& x.found == (Found::Entry { rowid: a[0].rowid, record: a[0].record })
                &&& ahead(pages, x.walk.stack, height, usable) == a.drop_first()
            } else {
                &&& x.found is End
                &&& ahead(pages, x.walk.stack, height, usable).len() == 0
            }
        }),
    decreases distance(pages, w),
{
    let stack = w.stack;
    let h = (height + 1 - stack.len()) as nat;
    let page = page_of(pages, stack.last().page);
    let i = stack.last().index as int;
    assert(frame_ok(pages, stack[stack.len() - 1], h, usable));
    if step(pages, w, None, usable) is Go {
        lemma_step_nearer(pages, w, None, usable);
    }
    if h > 0 && i <= page.cell_count() {
        lemma_step_down(pages, w, height, usable);
        lemma_ahead_down(pages, stack, height, usable, i);
        let child = child_at(page, i, usable);
        let v = Walk { stack: pushed(at_index(stack, i + 1), child as int), ..w };
        next_row(pages, v, height, usable);
    } else if h == 0 && i < page.cell_count() {
        lemma_step_row(pages, w, height, usable);
        lemma_ahead_row(pages, stack, height, usable);
    } else {
        lemma_step_back(pages, w, height, usable);
        if stack.len() > 1 {
            lemma_ahead_up(pages, stack, height, usable);
            next_row(pages, Walk { stack: stack.drop_last(), upwards: true }, height, usable);
        } else {
            lemma_ahead_none(pages, stack, height, usable);
            if i == page.cell_count() {
                lemma_in_tree_index(pages, stack, height, usable, i + 1);
                lemma_ahead_none(pages, at_index(stack, i + 1), height, usable);
            }
        }
    }
}

proof fn lemma_step_down(pages: Map<usize, PageState>, w: Walk, height: nat, usable: int)
    requires
        height <= BTCURSOR_MAX_DEPTH,
        in_tree(pages, w.stack, height, usable),
        w.stack.len() <= height,
        w.stack.last().index <= page_of(pages, w.stack.last().page).cell_count(),
    ensures
        ({
            let i = w.stack.last().index as int;
            let child = child_at(page_of(pages, w.stack.last().page), i, usable);
            step(pages, w, None, usable) == Step::Go(
                Walk { stack: pushed(at_index(w.stack, i + 1), child as int), ..w },
            )
        }),
{
    let n = w.stack.len();
    let i = w.stack.last().index as int;
    let page = page_of(pages, w.stack.last().page);
    assert(frame_ok(pages, w.stack[n - 1], (height - (n - 1)) as nat, usable));
    if i < page.cell_count() {
        assert(page.head(i, usable) is Some);
        lemma_interior_cell(pages, page, i, usable);
    }
}

proof fn lemma_step_row(pages: Map<usize, PageState>, w: Walk, height: nat, usable: int)
    requires
        in_tree(pages, w.stack, height, usable),
        w.stack.len() == height + 1,
        w.stack.last().index < page_of(pages, w.stack.last().page).cell_count(),
    ensures
        ({
            let i = w.stack.last().index as int;
            let page = page_of(pages, w.stack.last().page);
            let row = row_at(pages, page, i, usable).unwrap();
            step(pages, w, None, usable) == Step::Stop(
                Walked {
                    walk: Walk { stack: at_index(w.stack, i + 1), ..w },
                    found: Found::Entry { rowid: row.rowid, record: row.record },
                },
            )
        }),
{
    let n = w.stack.len();
    let i = w.stack.last().index as int;
    let page = page_of(pages, w.stack.last().page);
    assert(frame_ok(pages, w.stack[n - 1], 0, usable));
    assert(row_at(pages, page, i, usable) is Some);
}

proof fn lemma_step_back(pages: Map<usize, PageState>, w: Walk, height: nat, usable: int)
    requires
        in_tree(pages, w.stack, height, usable),
        ({
            let count = page_of(pages, w.stack.last().page).cell_count();
            w.stack.last().index == count + 1 || (w.stack.last().index == count && w.stack.len()
                == height + 1)
        }),
    ensures
        frame_rows(
            pages,
            w.stack.last(),
            (height + 1 - w.stack.len()) as nat,
            usable,
        ).len() == 0,
        w.stack.len() > 1 ==> step(pages, w, None, usable) == Step::Go(
            Walk { stack: w.stack.drop_last(), upwards: true },
        ),
        w.stack.len() == 1 ==> {
            let i = w.stack.last().index as int;
            let stack = if i == page_of(pages, w.stack.last().page).cell_count() {
                at_index(w.stack, i + 1)
            } else {
                w.stack
            };
            step(pages, w, None, usable) == Step::Stop(
                Walked { walk: Walk { stack, ..w }, found: Found::End },
            )
        },
{
    let n = w.stack.len();
    assert(frame_ok(pages, w.stack[n - 1], (height - (n - 1)) as nat, usable));
}

proof fn lemma_ahead_none(pages: Map<usize, PageState>, stack: Seq<Frame>, height: nat, usable: int)
    requires
        stack.len() == 1,
        ({
            let count = page_of(pages, stack.last().page).cell_count();
            stack.last().index == count + 1 || (stack.last().index == count && height == 0)
        }),
    ensures
        ahead(pages, stack, height, usable).len() == 0,
{
    assert(stack.drop_last().len() == 0);
    assert(ahead(pages, stack.drop_last(), height, usable).len() == 0);
}

proof fn lemma_ahead_row(pages: Map<usize, PageState>, stack: Seq<Frame>, height: nat, usable: int)
    requires
        in_tree(pages, stack, height, usable),
        stack.len() == height + 1,
        stack.last().index < page_of(pages, stack.last().page).cell_count(),
    ensures
        ({
            let i = stack.last().index as int;
            let page = page_of(pages, stack.last().page);
            let a = ahead(pages, stack, height, usable);
            let next = at_index(stack, i + 1);
            &&& in_tree(pages, next, height, usable)
            &&& a.len() > 0
            &&& a[0] == row_at(pages, page, i, usable).unwrap()
            &&& ahead(pages, next, height, usable) == a.drop_first()
        }),
{
    let i = stack.last().index as int;
    let page = page_of(pages, stack.last().page);
    let a = ahead(pages, stack, height, usable);
    let next = at_index(stack, i + 1);
    let row = row_at(pages, page, i, usable).unwrap();
    let l = leaf_rows(pages, page, usable);
    lemma_in_tree_index(pages, stack, height, usable, i + 1);
    assert(l.skip(i) =~= seq![row] + l.skip(i + 1));
    let rest = ahead(pages, stack.drop_last(), height, usable);
    assert(next.drop_last() =~= stack.drop_last());
    assert(ahead(pages, next, height, usable) == l.skip(i + 1) + rest);
    assert(a == l.skip(i) + rest);
    assert(a.drop_first() =~= l.skip(i + 1) + rest);
}

pub proof fn lemma_in_tree_index(
    pages: Map<usize, PageState>,
    stack: Seq<Frame>,
    height: nat,
    usable: int,
    i: int,
)
    requires
        in_tree(pages, stack, height, usable),
        0 <= i <= page_of(pages, stack.last().page).cell_count() + 1,
    ensures
        in_tree(pages, at_index(stack, i), height, usable),
{
    let next = at_index(stack, i);
    assert forall|j: int| 0 <= j < next.len() implies frame_ok(
        pages,
        #[trigger] next[j],
        (height - j) as nat,
        usable,
    ) by {
        assert(frame_ok(pages, stack[j], (height - j) as nat, usable));
    }
}

impl CursorModel {
    /// The cursor after [`crate::cursor::BTreeCursor::rewind`].
    pub open spec fn rewound(self) -> CursorModel {
        let x = self.at_root().following(None);
        self.at_root().walked(x).holding(x.found)
    }

    /// The cursor after [`crate::cursor::BTreeCursor::next`].
    pub open spec fn stepped(self) -> CursorModel {
        let x = self.following(None);
        self.walked(x).holding(x.found)
    }

    /// The cursor after a rewind and `n` steps.
    #[verifier::opaque]
    pub open spec fn scanned(self, n: nat) -> CursorModel
        decreases n,
    {
        if n == 0 {
            self.rewound()
        } else {
            self.scanned((n - 1) as nat).stepped()
        }
    }
}

/// Reading a table whose tree is in memory: after a rewind and `n` steps the
/// cursor holds row `n` of the table, and nothing once there are no more. So a
/// scan gives every row once, in the order of the tree.
pub proof fn scan_gives_all_rows(c: CursorModel, height: nat, n: nat)
    requires
        height <= BTCURSOR_MAX_DEPTH,
        readable(c.pages(), c.root_page, height, c.usable()),
    ensures
        ({
            let r = rows(c.pages(), c.root_page, height, c.usable());
            let d = c.scanned(n);
            &&& d.pager == c.pager
            &&& d.header == c.header
            &&& in_tree(c.pages(), d.stack, height, c.usable())
            &&& if n < r.len() {
                &&& d.rowid == Some(r[n as int].rowid as u64)
                &&& d.record == Some(r[n as int].record)
                &&& ahead(c.pages(), d.stack, height, c.usable()) == r.skip(n as int + 1)
            } else {
                &&& d.rowid is None
                &&& d.record is None
                &&& ahead(c.pages(), d.stack, height, c.usable()).len() == 0
            }
        }),
    decreases n,
{
    reveal(CursorModel::scanned);
    let r = rows(c.pages(), c.root_page, height, c.usable());
    if n == 0 {
        lemma_scan_start(c, height);
    } else {
        let m = (n - 1) as nat;
        scan_gives_all_rows(c, height, m);
        lemma_scan_step(c.scanned(m), height, r, m as int);
    }
}

/// Whether the cursor holds row `n` of `r` and has the rows behind it ahead.
spec fn on_row(d: CursorModel, height: nat, r: Seq<Row>, n: int) -> bool {
    let a = ahead(d.pages(), d.stack, height, d.usable());
    if n < r.len() {
        &&& d.rowid == Some(r[n].rowid as u64)
        &&& d.record == Some(r[n].record)
        &&& a == r.skip(n + 1)
    } else {
        &&& d.rowid is None
        &&& d.record is None
        &&& a.len() == 0
    }
}

/// A rewind goes to the first row.
proof fn lemma_scan_start(c: CursorModel, height: nat)
    requires
        height <= BTCURSOR_MAX_DEPTH,
        readable(c.pages(), c.root_page, height, c.usable()),
    ensures
        c.rewound().pager == c.pager,
        c.rewound().header == c.header,
        in_tree(c.pages(), c.rewound().stack, height, c.usable()),
        on_row(c.rewound(), height, rows(c.pages(), c.root_page, height, c.usable()), 0),
{
    let pages = c.pages();
    let usable = c.usable();
    let r = rows(pages, c.root_page, height, usable);
    let stack = root_stack(c.root_page);
    assert(in_tree(pages, stack, height, usable));
    assert(c.at_root().pager == c.pager);
    lemma_root_ahead(pages, c.root_page, height, usable);
    next_row(pages, c.at_root().walk(), height, usable);
    if r.len() > 0 {
        assert(r.drop_first() =~= r.skip(1));
    }
}

/// All rows are ahead of a way that stands at the start of the root.
proof fn lemma_root_ahead(pages: Map<usize, PageState>, root: usize, height: nat, usable: int)
    ensures
        ahead(pages, root_stack(root), height, usable) == rows(pages, root, height, usable),
{
    let stack = root_stack(root);
    let page = page_of(pages, root);
    assert(stack.drop_last().len() == 0);
    assert(ahead(pages, stack.drop_last(), height, usable) =~= Seq::empty());
    if height == 0 {
        assert(leaf_rows(pages, page, usable).skip(0) =~= leaf_rows(pages, page, usable));
    }
    assert(ahead(pages, stack, height, usable) =~= frame_rows(pages, stack.last(), height, usable));
}

/// A step goes to the next row.
proof fn lemma_scan_step(d: CursorModel, height: nat, r: Seq<Row>, n: int)
    requires
        height <= BTCURSOR_MAX_DEPTH,
        in_tree(d.pages(), d.stack, height, d.usable()),
        0 <= n,
        on_row(d, height, r, n),
    ensures
        d.stepped().pager == d.pager,
        d.stepped().header == d.header,
        in_tree(d.pages(), d.stepped().stack, height, d.usable()),
        on_row(d.stepped(), height, r, n + 1),
{
    next_row(d.pages(), d.walk(), height, d.usable());
    if n < r.len() {
        let a = r.skip(n + 1);
        if a.len() > 0 {
            assert(a[0] == r[n + 1]);
            assert(a.drop_first() =~= r.skip(n + 2));
        }
    }
}

/// The way to the right-most leaf of a table's tree ends on a leaf with the
/// last of the rows, at its last cell.
proof fn lemma_right_edge(pages: Map<usize, PageState>, stack: Seq<Frame>, height: nat, usable: int)
    -> (before: Seq<Row>)
    requires
        height <= BTCURSOR_MAX_DEPTH,
        in_tree(pages, stack, height, usable),
    ensures
        ({
            let d = descend_right(pages, stack);
            let leaf = page_of(pages, d.stack.last().page);
            let h = (height + 1 - stack.len()) as nat;
            &&& d.end is Leaf
            &&& d.stack.len() == height + 1
            &&& in_tree(pages, d.stack, height, usable)
            &&& leaf.cell_count() > 0 ==> d.stack.last().index == leaf.cell_count() - 1
            &&& rows(pages, stack.last().page, h, usable) == before + leaf_rows(
                pages,
                leaf,
                usable,
            )
        }),
    decreases height + 1 - stack.len(),
{
    let n = stack.len();
    let h = (height + 1 - n) as nat;
    let id = stack.last().page;
    let page = page_of(pages, id);
    assert(frame_ok(pages, stack[n - 1], h, usable));
    let all = rows(pages, id, h, usable);
    if h == 0 {
        if page.cell_count() > 0 {
            lemma_in_tree_index(pages, stack, height, usable, page.cell_count() - 1);
        }
        assert(Seq::<Row>::empty() + all =~= all);
        Seq::empty()
    } else {
        let count = page.cell_count();
        let child = child_at(page, count, usable);
        let left = at_index(stack, count);
        let next = pushed(left, child as int);
        lemma_in_tree_index(pages, stack, height, usable, count);
        assert(readable(pages, child, (h - 1) as nat, usable));
        assert forall|j: int| 0 <= j < next.len() implies frame_ok(
            pages,
            #[trigger] next[j],
            (height - j) as nat,
            usable,
        ) by {
            if j < n {
                assert(next[j] == left[j]);
            }
        }
        assert(descend_right(pages, stack) == descend_right(pages, next));
        let y = lemma_right_edge(pages, next, height, usable);
        lemma_rows_split(pages, page, h, count as nat, usable);
        let front = rows_before(pages, page, h, count as nat, usable);
        let sub = rows(pages, child, (h - 1) as nat, usable);
        assert(rows_from(pages, page, h, (count + 1) as nat, usable) =~= Seq::empty());
        assert(rows_from(pages, page, h, count as nat, usable) =~= sub);
        let d = descend_right(pages, stack);
        let l = leaf_rows(pages, page_of(pages, d.stack.last().page), usable);
        assert(front + (y + l) =~= (front + y) + l);
        front + y
    }
}

/// Going to the last row of a table whose tree is in memory and whose
/// right-most leaf has rows finds the last of its rows.
pub proof fn last_row_is_found(c: CursorModel, height: nat)
    requires
        height <= BTCURSOR_MAX_DEPTH,
        readable(c.pages(), c.root_page, height, c.usable()),
        page_of(c.pages(), c.right_edge().stack.last().page).cell_count() > 0,
    ensures
        ({
            let r = rows(c.pages(), c.root_page, height, c.usable());
            &&& c.right_edge().end is Leaf
            &&& r.len() > 0
            &&& c.at_last().following(None).found == (Found::Entry {
                rowid: r.last().rowid,
                record: r.last().record,
            })
        }),
{
    let pages = c.pages();
    let usable = c.usable();
    let stack = root_stack(c.root_page);
    assert(stack.last().page == c.root_page);
    assert(in_tree(pages, stack, height, usable));
    lemma_right_edge(pages, stack, height, usable);
    let d = c.right_edge();
    let w = c.at_last().walk();
    let leaf = page_of(pages, d.stack.last().page);
    let l = leaf_rows(pages, leaf, usable);
    lemma_step_row(pages, w, height, usable);
    assert(rows(pages, c.root_page, height, usable).last() == l[leaf.cell_count() - 1]);
}

} // verus!
