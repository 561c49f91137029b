//! The pages that a table uses, and what a change of some of them leaves as it is.

use vstd::prelude::*;
use crate::balance::{cell_bytes, first_at_least};
use crate::cursor::{at_index, pushed, BTCURSOR_MAX_DEPTH, Frame};
use crate::descent::descend;
use crate::order::{KeyModel, SeekOp};
use crate::page::{usable_ok, PageModel};
use crate::pager::{loaded, page_of, PageState};
use crate::payloads::{cell_uses, kept, lemma_row_at, lemma_row_kept, row_of_cell};
use crate::tables::{
    child_at, high, leaf_rows, lemma_interior_cell, lemma_rows_split, lemma_table_route, low,
    row_at, rows, rows_before, rows_from, separator, table, table_leaf, table_node, Row,
};

verus! {

/// Whether page `k` is one of a table's tree or of the overflow pages of its rows.
pub open spec fn uses(
    pages: Map<usize, PageState>,
    id: usize,
    height: nat,
    usable: int,
    k: usize,
) -> bool
    decreases height,
{
    let page = page_of(pages, id);
    k == id || if height == 0 {
        exists|i: int|
            0 <= i < page.cell_count() && #[trigger] cell_uses(
                pages,
                cell_bytes(page, i, usable),
                usable,
                k,
            )
    } else {
        exists|i: int|
            0 <= i <= page.cell_count() && uses(
                pages,
                #[trigger] child_at(page, i, usable),
                (height - 1) as nat,
                usable,
                k,
            )
    }
}

/// Whether no two rows of a leaf share an overflow page, and none uses the leaf.
pub open spec fn sole_rows(
    pages: Map<usize, PageState>,
    page: PageModel,
    id: usize,
    usable: int,
) -> bool {
    &&& forall|i: int|
        0 <= i < page.cell_count() ==> !#[trigger] cell_uses(
            pages,
            cell_bytes(page, i, usable),
            usable,
            id,
        )
    &&& forall|i: int, j: int, k: usize|
        0 <= i < j < page.cell_count() ==> !(#[trigger] cell_uses(
            pages,
            cell_bytes(page, i, usable),
            usable,
            k,
        ) && #[trigger] cell_uses(pages, cell_bytes(page, j, usable), usable, k))
}

/// Whether a table uses no page twice.
pub open spec fn sole(pages: Map<usize, PageState>, id: usize, height: nat, usable: int) -> bool
    decreases height,
{
    let page = page_of(pages, id);
    if height == 0 {
        sole_rows(pages, page, id, usable)
    } else {
        &&& forall|i: int|
            0 <= i <= page.cell_count() ==> {
                &&& sole(pages, #[trigger] child_at(page, i, usable), (height - 1) as nat, usable)
                &&& !uses(pages, child_at(page, i, usable), (height - 1) as nat, usable, id)
            }
        &&& forall|i: int, j: int, k: usize|
            0 <= i < j <= page.cell_count() ==> !(#[trigger] uses(
                pages,
                child_at(page, i, usable),
                (height - 1) as nat,
                usable,
                k,
            ) && #[trigger] uses(
                pages,
                child_at(page, j, usable),
                (height - 1) as nat,
                usable,
                k,
            ))
    }
}

/// Whether a table uses none of the pages in `x`.
pub open spec fn avoids(
    pages: Map<usize, PageState>,
    id: usize,
    height: nat,
    usable: int,
    x: Set<usize>,
) -> bool {
    forall|k: usize| #[trigger] x.contains(k) ==> !uses(pages, id, height, usable, k)
}

/// Whether a table uses pages of the file only, which has `size` pages.
pub open spec fn within(
    pages: Map<usize, PageState>,
    id: usize,
    height: nat,
    usable: int,
    size: int,
) -> bool {
    forall|k: usize| #[trigger] uses(pages, id, height, usable, k) ==> k <= size
}

/// A leaf's cells are laid out, and their bytes hold the leaf's rows.
pub proof fn lemma_leaf_cells(
    pages: Map<usize, PageState>,
    page: PageModel,
    lo: int,
    hi: int,
    usable: int,
)
    requires
        usable_ok(usable),
        table_leaf(pages, page, lo, hi, usable),
    ensures
        forall|i: int|
            0 <= i < page.cell_count() ==> {
                &&& (#[trigger] page.head(i, usable)) is Some
                &&& row_at(pages, page, i, usable) == row_of_cell(
                    pages,
                    cell_bytes(page, i, usable),
                    usable,
                )
                &&& row_at(pages, page, i, usable).unwrap().rowid == page.head(
                    i,
                    usable,
                ).unwrap().rowid
            },
{
    assert forall|i: int| 0 <= i < page.cell_count() implies {
        &&& (#[trigger] page.head(i, usable)) is Some
        &&& row_at(pages, page, i, usable) == row_of_cell(
            pages,
            cell_bytes(page, i, usable),
            usable,
        )
        &&& row_at(pages, page, i, usable).unwrap().rowid == page.head(i, usable).unwrap().rowid
    } by {
        assert(row_at(pages, page, i, usable) is Some);
        assert(page.head(i, usable) is Some);
        lemma_row_at(pages, page, i, usable);
    }
}

/// A leaf of which no row uses a changed page keeps its rows.
proof fn lemma_leaf_kept(
    pages: Map<usize, PageState>,
    pages2: Map<usize, PageState>,
    x: Set<usize>,
    page: PageModel,
    lo: int,
    hi: int,
    usable: int,
)
    requires
        usable_ok(usable),
        kept(pages, pages2, x),
        table_leaf(pages, page, lo, hi, usable),
        forall|i: int, k: usize|
            0 <= i < page.cell_count() && x.contains(k) ==> !#[trigger] cell_uses(
                pages,
                cell_bytes(page, i, usable),
                usable,
                k,
            ),
    ensures
        table_leaf(pages2, page, lo, hi, usable),
        leaf_rows(pages2, page, usable) == leaf_rows(pages, page, usable),
        forall|i: int, k: usize|
            0 <= i < page.cell_count() ==> #[trigger] cell_uses(
                pages2,
                cell_bytes(page, i, usable),
                usable,
                k,
            ) == cell_uses(pages, cell_bytes(page, i, usable), usable, k),
{
    lemma_leaf_cells(pages, page, lo, hi, usable);
    assert forall|i: int| 0 <= i < page.cell_count() implies #[trigger] row_at(
        pages2,
        page,
        i,
        usable,
    ) == row_at(pages, page, i, usable) by {
        assert(page.head(i, usable) is Some);
        assert(row_at(pages, page, i, usable) is Some);
        lemma_row_at(pages2, page, i, usable);
        lemma_row_kept(pages, pages2, x, cell_bytes(page, i, usable), usable);
    }
    assert forall|i: int, k: usize| 0 <= i < page.cell_count() implies #[trigger] cell_uses(
        pages2,
        cell_bytes(page, i, usable),
        usable,
        k,
    ) == cell_uses(pages, cell_bytes(page, i, usable), usable, k) by {
        assert(page.head(i, usable) is Some);
        assert(row_at(pages, page, i, usable) is Some);
        lemma_row_kept(pages, pages2, x, cell_bytes(page, i, usable), usable);
    }
    assert(leaf_rows(pages2, page, usable) =~= leaf_rows(pages, page, usable));
}

/// A table that uses none of the changed pages keeps its rows and its pages.
pub proof fn table_kept(
    pages: Map<usize, PageState>,
    pages2: Map<usize, PageState>,
    x: Set<usize>,
    id: usize,
    height: nat,
    lo: int,
    hi: int,
    usable: int,
)
    requires
        usable_ok(usable),
        kept(pages, pages2, x),
        table(pages, id, height, lo, hi, usable),
        avoids(pages, id, height, usable, x),
    ensures
        table(pages2, id, height, lo, hi, usable),
        rows(pages2, id, height, usable) == rows(pages, id, height, usable),
        forall|k: usize| #[trigger]
            uses(pages2, id, height, usable, k) == uses(pages, id, height, usable, k),
        sole(pages, id, height, usable) ==> sole(pages2, id, height, usable),
    decreases height,
{
    let page = page_of(pages, id);
    assert(uses(pages, id, height, usable, id));
    assert(!x.contains(id));
    assert(page_of(pages2, id) == page);
    if height == 0 {
        assert forall|i: int, k: usize|
            0 <= i < page.cell_count() && x.contains(k) implies !#[trigger] cell_uses(
            pages,
            cell_bytes(page, i, usable),
            usable,
            k,
        ) by {
            assert(!uses(pages, id, height, usable, k));
        }
        lemma_leaf_kept(pages, pages2, x, page, lo, hi, usable);
        assert forall|k: usize| #[trigger] uses(pages2, id, height, usable, k) == uses(
            pages,
            id,
            height,
            usable,
            k,
        ) by {
            if exists|i: int|
                0 <= i < page.cell_count() && #[trigger] cell_uses(
                    pages,
                    cell_bytes(page, i, usable),
                    usable,
                    k,
                ) {
                let i = choose|i: int|
                    0 <= i < page.cell_count() && #[trigger] cell_uses(
                        pages,
                        cell_bytes(page, i, usable),
                        usable,
                        k,
                    );
                assert(cell_uses(pages2, cell_bytes(page, i, usable), usable, k));
            }
        }
    } else {
        let h = (height - 1) as nat;
        assert forall|i: int| 0 <= i <= page.cell_count() implies {
            let c = #[trigger] child_at(page, i, usable);
            &&& table(pages2, c, h, low(page, i, lo, usable), high(page, i, hi, usable), usable)
            &&& rows(pages2, c, h, usable) == rows(pages, c, h, usable)
            &&& forall|k: usize| #[trigger]
                uses(pages2, c, h, usable, k) == uses(pages, c, h, usable, k)
            &&& sole(pages, c, h, usable) ==> sole(pages2, c, h, usable)
        } by {
            let c = child_at(page, i, usable);
            assert forall|k: usize| #[trigger] x.contains(k) implies !uses(
                pages,
                c,
                h,
                usable,
                k,
            ) by {
                assert(!uses(pages, id, height, usable, k));
            }
            table_kept(
                pages,
                pages2,
                x,
                c,
                h,
                low(page, i, lo, usable),
                high(page, i, hi, usable),
                usable,
            );
        }
        lemma_rows_from_moved(pages, page, pages2, page, height, 0, 0, usable);
        assert forall|k: usize| #[trigger] uses(pages2, id, height, usable, k) == uses(
            pages,
            id,
            height,
            usable,
            k,
        ) by {
            if exists|i: int|
                0 <= i <= page.cell_count() && uses(
                    pages,
                    #[trigger] child_at(page, i, usable),
                    h,
                    usable,
                    k,
                ) {
                let i = choose|i: int|
                    0 <= i <= page.cell_count() && uses(
                        pages,
                        #[trigger] child_at(page, i, usable),
                        h,
                        usable,
                        k,
                    );
                assert(uses(pages2, child_at(page, i, usable), h, usable, k));
            }
            if exists|i: int|
                0 <= i <= page.cell_count() && uses(
                    pages2,
                    #[trigger] child_at(page, i, usable),
                    h,
                    usable,
                    k,
                ) {
                let i = choose|i: int|
                    0 <= i <= page.cell_count() && uses(
                        pages2,
                        #[trigger] child_at(page, i, usable),
                        h,
                        usable,
                        k,
                    );
                assert(uses(pages, child_at(page, i, usable), h, usable, k));
            }
        }
    }
}

/// Whether the children from `i` on have the same rows as those `d` further on
/// another page.
pub open spec fn same_rows_from(
    pages: Map<usize, PageState>,
    page: PageModel,
    pages2: Map<usize, PageState>,
    page2: PageModel,
    h: nat,
    i: int,
    d: int,
    usable: int,
) -> bool {
    forall|j: int|
        i <= j <= page.cell_count() ==> rows(
            pages2,
            child_at(page2, j + d, usable),
            h,
            usable,
        ) == rows(pages, #[trigger] child_at(page, j, usable), h, usable)
}

/// Children with the same rows, moved by `d` places, give the same rows.
pub proof fn lemma_rows_from_moved(
    pages: Map<usize, PageState>,
    page: PageModel,
    pages2: Map<usize, PageState>,
    page2: PageModel,
    height: nat,
    i: nat,
    d: nat,
    usable: int,
)
    requires
        height > 0,
        page2.cell_count() == page.cell_count() + d,
        same_rows_from(pages, page, pages2, page2, (height - 1) as nat, i as int, d as int, usable),
    ensures
        rows_from(pages2, page2, height, i + d, usable) == rows_from(
            pages,
            page,
            height,
            i,
            usable,
        ),
    decreases page.cell_count() + 1 - i,
{
    if i <= page.cell_count() {
        lemma_rows_from_moved(pages, page, pages2, page2, height, i + 1, d, usable);
        assert(rows(pages2, child_at(page2, (i + d) as int, usable), (height - 1) as nat, usable) == rows(
            pages,
            child_at(page, i as int, usable),
            (height - 1) as nat,
            usable,
        ));
    }
}

/// Children with the same rows give the same rows before a place.
pub proof fn lemma_rows_before_kept(
    pages: Map<usize, PageState>,
    page: PageModel,
    pages2: Map<usize, PageState>,
    page2: PageModel,
    height: nat,
    i: nat,
    usable: int,
)
    requires
        height > 0,
        forall|j: int|
            0 <= j < i ==> rows(
                pages2,
                child_at(page2, j, usable),
                (height - 1) as nat,
                usable,
            ) == rows(pages, #[trigger] child_at(page, j, usable), (height - 1) as nat, usable),
    ensures
        rows_before(pages2, page2, height, i, usable) == rows_before(
            pages,
            page,
            height,
            i,
            usable,
        ),
    decreases i,
{
    if i > 0 {
        lemma_rows_before_kept(pages, page, pages2, page2, height, (i - 1) as nat, usable);
        assert(child_at(page, i - 1, usable) == child_at(page, i - 1, usable));
    }
}

/// A subtree of a table: its root and the bounds of its rows.
pub struct Spot {
    pub id: usize,
    pub lo: int,
    pub hi: int,
}

/// The subtree with `sub` levels of interior pages where the row id `k` belongs.
pub open spec fn spot(
    pages: Map<usize, PageState>,
    id: usize,
    height: nat,
    lo: int,
    hi: int,
    k: int,
    usable: int,
    sub: nat,
) -> Spot
    decreases height,
{
    if height <= sub {
        Spot { id, lo, hi }
    } else {
        let page = page_of(pages, id);
        let c = first_at_least(page, k, usable, 0).unwrap();
        spot(
            pages,
            child_at(page, c, usable),
            (height - 1) as nat,
            low(page, c, lo, usable),
            high(page, c, hi, usable),
            k,
            usable,
            sub,
        )
    }
}

/// The first separator of an interior page that is not below `k`.
pub proof fn lemma_branch(page: PageModel, lo: int, hi: int, k: int, usable: int, i: int)
    requires
        table_node(page, lo, hi, usable),
        0 <= i <= page.cell_count(),
    ensures
        ({
            let p = first_at_least(page, k, usable, i);
            &&& p is Some
            &&& i <= p.unwrap() <= page.cell_count()
            &&& forall|j: int|
                i <= j < p.unwrap() ==> (#[trigger] page.head(j, usable)).unwrap().rowid < k
            &&& p.unwrap() < page.cell_count() ==> k <= separator(page, p.unwrap(), usable)
        }),
    decreases page.cell_count() - i,
{
    if i < page.cell_count() {
        assert(page.head(i, usable) is Some);
        if k > page.head(i, usable).unwrap().rowid {
            lemma_branch(page, lo, hi, k, usable, i + 1);
        }
    }
}

/// The subtree where a row id belongs is a table, and the bounds of its rows
/// hold the row id if those of the whole table do.
pub proof fn lemma_spot(
    pages: Map<usize, PageState>,
    id: usize,
    height: nat,
    lo: int,
    hi: int,
    k: int,
    usable: int,
    sub: nat,
)
    requires
        sub <= height,
        table(pages, id, height, lo, hi, usable),
        lo < k <= hi,
    ensures
        ({
            let s = spot(pages, id, height, lo, hi, k, usable, sub);
            &&& table(pages, s.id, sub, s.lo, s.hi, usable)
            &&& s.lo < k <= s.hi
            &&& forall|j: usize| #[trigger]
                uses(pages, s.id, sub, usable, j) ==> uses(pages, id, height, usable, j)
            &&& sole(pages, id, height, usable) ==> sole(pages, s.id, sub, usable)
        }),
    decreases height,
{
    if height > sub {
        let page = page_of(pages, id);
        let h = (height - 1) as nat;
        lemma_branch(page, lo, hi, k, usable, 0);
        let c = first_at_least(page, k, usable, 0).unwrap();
        let child = child_at(page, c, usable);
        if c > 0 {
            assert(page.head(c - 1, usable) is Some);
        }
        lemma_spot(
            pages,
            child,
            h,
            low(page, c, lo, usable),
            high(page, c, hi, usable),
            k,
            usable,
            sub,
        );
        let s = spot(pages, id, height, lo, hi, k, usable, sub);
        assert forall|j: usize| #[trigger] uses(pages, s.id, sub, usable, j) implies uses(
            pages,
            id,
            height,
            usable,
            j,
        ) by {
            assert(uses(pages, child, h, usable, j));
        }
    }
}

/// The way down to a row id goes over the subtrees where it belongs.
#[verifier::spinoff_prover]
#[verifier::rlimit(40)]
pub proof fn lemma_spot_on_way(
    pages: Map<usize, PageState>,
    stack: Seq<Frame>,
    height: nat,
    lo: int,
    hi: int,
    k: int,
    usable: int,
    sub: nat,
)
    requires
        stack.len() > 0,
        sub <= height,
        stack.len() + height <= BTCURSOR_MAX_DEPTH + 1,
        table(pages, stack.last().page, height, lo, hi, usable),
    ensures
        ({
            let d = descend(pages, stack, KeyModel::RowId(k), SeekOp::EQ, usable);
            let n = stack.len() - 1;
            &&& d.end is Leaf
            &&& d.stack.len() == stack.len() + height
            &&& d.stack[n + height - sub].page == spot(
                pages,
                stack.last().page,
                height,
                lo,
                hi,
                k,
                usable,
                sub,
            ).id
            &&& forall|i: int| 0 <= i < n ==> #[trigger] d.stack[i] == stack[i]
            &&& d.stack[n].page == stack.last().page
        }),
    decreases height,
{
    let key = KeyModel::RowId(k);
    let id = stack.last().page;
    let page = page_of(pages, id);
    if height > 0 {
        let c = lemma_table_route(pages, page, k, SeekOp::EQ, lo, hi, usable, 0);
        lemma_branch(page, lo, hi, k, usable, 0);
        let p = first_at_least(page, k, usable, 0).unwrap();
        if p < page.cell_count() {
            assert(page.head(p, usable) is Some);
        }
        if c < page.cell_count() {
            assert(page.head(c, usable) is Some);
            lemma_interior_cell(pages, page, c, usable);
        }
        if c > 0 {
            assert(page.head(c - 1, usable) is Some);
        }
        assert(p == c);
        let child = child_at(page, c, usable);
        let next = pushed(
            at_index(
                stack,
                if c < page.cell_count() {
                    c + 1
                } else {
                    page.cell_count()
                },
            ),
            child as int,
        );
        assert(next.last().page == child);
        let d = descend(pages, stack, key, SeekOp::EQ, usable);
        assert(d == descend(pages, next, key, SeekOp::EQ, usable));
        let below = if sub == height {
            (height - 1) as nat
        } else {
            sub
        };
        lemma_spot_on_way(
            pages,
            next,
            (height - 1) as nat,
            low(page, c, lo, usable),
            high(page, c, hi, usable),
            k,
            usable,
            below,
        );
        let n = stack.len() - 1;
        assert forall|i: int| 0 <= i < n implies #[trigger] d.stack[i] == stack[i] by {
            assert(d.stack[i] == next[i]);
        }
        assert(d.stack[n] == next[n]);
    }
}

/// Whether the pages are the same but for those of a subtree and new ones.
pub open spec fn changes_only(
    pages: Map<usize, PageState>,
    pages2: Map<usize, PageState>,
    id: usize,
    height: nat,
    usable: int,
    size: int,
) -> bool {
    kept(
        pages,
        pages2,
        Set::new(|j: usize| uses(pages, id, height, usable, j) || j > size),
    )
}

/// Whether a subtree uses its old pages only, and new ones of a file that grew
/// from `size` to `size2` pages.
pub open spec fn grows_only(
    pages: Map<usize, PageState>,
    pages2: Map<usize, PageState>,
    id: usize,
    height: nat,
    usable: int,
    size: int,
    size2: int,
) -> bool {
    forall|j: usize| #[trigger]
        uses(pages2, id, height, usable, j) ==> uses(pages, id, height, usable, j) || size < j
            <= size2
}

/// A table of which only one subtree changed, which got a row, got that row.
/// The row is inserted at `p` among the rows of the subtree, and at the
/// returned place among those of the table.
pub proof fn row_reaches_root(
    pages: Map<usize, PageState>,
    pages2: Map<usize, PageState>,
    id: usize,
    height: nat,
    lo: int,
    hi: int,
    k: int,
    usable: int,
    sub: nat,
    size: int,
    size2: int,
    row: Row,
    p: int,
) -> (q: int)
    requires
        usable_ok(usable),
        sub <= height,
        table(pages, id, height, lo, hi, usable),
        sole(pages, id, height, usable),
        within(pages, id, height, usable, size),
        lo < k <= hi,
        ({
            let s = spot(pages, id, height, lo, hi, k, usable, sub);
            &&& table(pages2, s.id, sub, s.lo, s.hi, usable)
            &&& sole(pages2, s.id, sub, usable)
            &&& grows_only(pages, pages2, s.id, sub, usable, size, size2)
            &&& changes_only(pages, pages2, s.id, sub, usable, size)
            &&& 0 <= p <= rows(pages, s.id, sub, usable).len()
            &&& rows(pages2, s.id, sub, usable) == rows(pages, s.id, sub, usable).insert(p, row)
        }),
    ensures
        table(pages2, id, height, lo, hi, usable),
        sole(pages2, id, height, usable),
        grows_only(pages, pages2, id, height, usable, size, size2),
        0 <= q <= rows(pages, id, height, usable).len(),
        rows(pages2, id, height, usable) == rows(pages, id, height, usable).insert(q, row),
    decreases height,
{
    if height == sub {
        p
    } else {
        let page = page_of(pages, id);
        let h = (height - 1) as nat;
        lemma_branch(page, lo, hi, k, usable, 0);
        let c = first_at_least(page, k, usable, 0).unwrap();
        let child = child_at(page, c, usable);
        if c > 0 {
            assert(page.head(c - 1, usable) is Some);
        }
        let l = low(page, c, lo, usable);
        let g = high(page, c, hi, usable);
        let s = spot(pages, id, height, lo, hi, k, usable, sub);
        assert(s == spot(pages, child, h, l, g, k, usable, sub));
        assert(within(pages, child, h, usable, size)) by {
            assert forall|j: usize| #[trigger] uses(pages, child, h, usable, j) implies j
                <= size by {
                assert(uses(pages, id, height, usable, j));
            }
        }
        let r = row_reaches_root(
            pages,
            pages2,
            child,
            h,
            l,
            g,
            k,
            usable,
            sub,
            size,
            size2,
            row,
            p,
        );
        lemma_spot(pages, child, h, l, g, k, usable, sub);
        let x = Set::new(|j: usize| uses(pages, s.id, sub, usable, j) || j > size);
        assert(uses(pages, id, height, usable, id));
        assert(!uses(pages, child, h, usable, id));
        assert(loaded(pages, id) && !x.contains(id));
        lemma_row_up(pages, pages2, x, page, id, height, lo, hi, c, usable, size, size2, row, r)
    }
}

/// An interior page of which one child got a row got that row.
proof fn lemma_row_up(
    pages: Map<usize, PageState>,
    pages2: Map<usize, PageState>,
    x: Set<usize>,
    page: PageModel,
    id: usize,
    height: nat,
    lo: int,
    hi: int,
    c: int,
    usable: int,
    size: int,
    size2: int,
    row: Row,
    r: int,
) -> (q: int)
    requires
        usable_ok(usable),
        height > 0,
        page == page_of(pages, id),
        loaded(pages2, id),
        page_of(pages2, id) == page,
        table(pages, id, height, lo, hi, usable),
        sole(pages, id, height, usable),
        within(pages, id, height, usable, size),
        0 <= c <= page.cell_count(),
        kept(pages, pages2, x),
        forall|j: usize| #[trigger]
            x.contains(j) ==> j == id || uses(
                pages,
                child_at(page, c, usable),
                (height - 1) as nat,
                usable,
                j,
            ) || j > size,
        ({
            let d = child_at(page, c, usable);
            let h = (height - 1) as nat;
            &&& table(pages2, d, h, low(page, c, lo, usable), high(page, c, hi, usable), usable)
            &&& sole(pages2, d, h, usable)
            &&& grows_only(pages, pages2, d, h, usable, size, size2)
            &&& 0 <= r <= rows(pages, d, h, usable).len()
            &&& rows(pages2, d, h, usable) == rows(pages, d, h, usable).insert(r, row)
        }),
    ensures
        table(pages2, id, height, lo, hi, usable),
        sole(pages2, id, height, usable),
        grows_only(pages, pages2, id, height, usable, size, size2),
        0 <= q <= rows(pages, id, height, usable).len(),
        rows(pages2, id, height, usable) == rows(pages, id, height, usable).insert(q, row),
{
    lemma_others_kept(pages, pages2, x, page, id, height, lo, hi, c, usable, size);
    lemma_grown_child(pages, pages2, page, id, height, lo, hi, c, usable, size, size2);
    lemma_rows_up(pages, pages2, page, height, c, usable, row, r)
}

/// The rows of an interior page of which one child got a row.
proof fn lemma_rows_up(
    pages: Map<usize, PageState>,
    pages2: Map<usize, PageState>,
    page: PageModel,
    height: nat,
    c: int,
    usable: int,
    row: Row,
    r: int,
) -> (q: int)
    requires
        height > 0,
        0 <= c <= page.cell_count(),
        forall|i: int|
            0 <= i <= page.cell_count() && i != c ==> rows(
                pages2,
                #[trigger] child_at(page, i, usable),
                (height - 1) as nat,
                usable,
            ) == rows(pages, child_at(page, i, usable), (height - 1) as nat, usable),
        ({
            let d = child_at(page, c, usable);
            let h = (height - 1) as nat;
            &&& 0 <= r <= rows(pages, d, h, usable).len()
            &&& rows(pages2, d, h, usable) == rows(pages, d, h, usable).insert(r, row)
        }),
    ensures
        0 <= q <= rows_from(pages, page, height, 0, usable).len(),
        rows_from(pages2, page, height, 0, usable) == rows_from(
            pages,
            page,
            height,
            0,
            usable,
        ).insert(q, row),
{
    let h = (height - 1) as nat;
    lemma_rows_split(pages, page, height, c as nat, usable);
    lemma_rows_split(pages2, page, height, c as nat, usable);
    lemma_rows_before_kept(pages, page, pages2, page, height, c as nat, usable);
    lemma_rows_from_moved(pages, page, pages2, page, height, (c + 1) as nat, 0, usable);
    let front = rows_before(pages, page, height, c as nat, usable);
    let mid = rows(pages, child_at(page, c, usable), h, usable);
    let back = rows_from(pages, page, height, (c + 1) as nat, usable);
    assert(rows_from(pages, page, height, 0, usable) == front + (mid + back));
    assert(rows_from(pages2, page, height, 0, usable) == front + (mid.insert(r, row) + back));
    lemma_insert_within(front, mid, back, row, r);
    front.len() + r
}

/// A row inserted between others.
pub proof fn lemma_insert_within(
    front: Seq<Row>,
    mid: Seq<Row>,
    back: Seq<Row>,
    row: Row,
    r: int,
)
    requires
        0 <= r <= mid.len(),
    ensures
        front + (mid.insert(r, row) + back) == (front + (mid + back)).insert(
            front.len() + r,
            row,
        ),
{
    assert(front + (mid.insert(r, row) + back) =~= (front + (mid + back)).insert(
        front.len() + r,
        row,
    ));
}

/// The children beside a changed one are kept.
pub proof fn lemma_others_kept(
    pages: Map<usize, PageState>,
    pages2: Map<usize, PageState>,
    x: Set<usize>,
    page: PageModel,
    id: usize,
    height: nat,
    lo: int,
    hi: int,
    c: int,
    usable: int,
    size: int,
)
    requires
        usable_ok(usable),
        height > 0,
        page == page_of(pages, id),
        table(pages, id, height, lo, hi, usable),
        sole(pages, id, height, usable),
        within(pages, id, height, usable, size),
        0 <= c <= page.cell_count(),
        kept(pages, pages2, x),
        forall|j: usize| #[trigger]
            x.contains(j) ==> j == id || uses(
                pages,
                child_at(page, c, usable),
                (height - 1) as nat,
                usable,
                j,
            ) || j > size,
    ensures
        forall|i: int|
            0 <= i <= page.cell_count() && i != c ==> {
                let d = #[trigger] child_at(page, i, usable);
                let h = (height - 1) as nat;
                &&& table(
                    pages2,
                    d,
                    h,
                    low(page, i, lo, usable),
                    high(page, i, hi, usable),
                    usable,
                )
                &&& rows(pages2, d, h, usable) == rows(pages, d, h, usable)
                &&& sole(pages2, d, h, usable)
                &&& forall|k: usize| #[trigger]
                    uses(pages2, d, h, usable, k) == uses(pages, d, h, usable, k)
            },
{
    let h = (height - 1) as nat;
    assert forall|i: int| 0 <= i <= page.cell_count() && i != c implies {
        let d = #[trigger] child_at(page, i, usable);
        &&& table(pages2, d, h, low(page, i, lo, usable), high(page, i, hi, usable), usable)
        &&& rows(pages2, d, h, usable) == rows(pages, d, h, usable)
        &&& sole(pages2, d, h, usable)
        &&& forall|k: usize| #[trigger]
            uses(pages2, d, h, usable, k) == uses(pages, d, h, usable, k)
    } by {
        let d = child_at(page, i, usable);
        let e = child_at(page, c, usable);
        assert forall|j: usize| #[trigger] x.contains(j) implies !uses(pages, d, h, usable, j) by {
            if uses(pages, d, h, usable, j) {
                assert(uses(pages, id, height, usable, j));
                assert(uses(pages, e, h, usable, j) || j == id);
                assert(!uses(pages, d, h, usable, id));
                if i < c {
                    assert(!(uses(pages, d, h, usable, j) && uses(pages, e, h, usable, j)));
                } else {
                    assert(!(uses(pages, e, h, usable, j) && uses(pages, d, h, usable, j)));
                }
            }
        }
        table_kept(
            pages,
            pages2,
            x,
            d,
            h,
            low(page, i, lo, usable),
            high(page, i, hi, usable),
            usable,
        );
    }
}

/// An interior page of which one child changed, which uses its old pages and
/// new ones only.
proof fn lemma_grown_child(
    pages: Map<usize, PageState>,
    pages2: Map<usize, PageState>,
    page: PageModel,
    id: usize,
    height: nat,
    lo: int,
    hi: int,
    c: int,
    usable: int,
    size: int,
    size2: int,
)
    requires
        height > 0,
        page == page_of(pages, id),
        table(pages, id, height, lo, hi, usable),
        sole(pages, id, height, usable),
        within(pages, id, height, usable, size),
        0 <= c <= page.cell_count(),
        loaded(pages2, id),
        page_of(pages2, id) == page,
        table(
            pages2,
            child_at(page, c, usable),
            (height - 1) as nat,
            low(page, c, lo, usable),
            high(page, c, hi, usable),
            usable,
        ),
        sole(pages2, child_at(page, c, usable), (height - 1) as nat, usable),
        grows_only(
            pages,
            pages2,
            child_at(page, c, usable),
            (height - 1) as nat,
            usable,
            size,
            size2,
        ),
        forall|i: int|
            0 <= i <= page.cell_count() && i != c ==> {
                let d = #[trigger] child_at(page, i, usable);
                let h = (height - 1) as nat;
                &&& table(
                    pages2,
                    d,
                    h,
                    low(page, i, lo, usable),
                    high(page, i, hi, usable),
                    usable,
                )
                &&& sole(pages2, d, h, usable)
                &&& forall|k: usize| #[trigger]
                    uses(pages2, d, h, usable, k) == uses(pages, d, h, usable, k)
            },
    ensures
        table(pages2, id, height, lo, hi, usable),
        sole(pages2, id, height, usable),
        grows_only(pages, pages2, id, height, usable, size, size2),
{
    let h = (height - 1) as nat;
    assert(uses(pages, id, height, usable, id));
    assert forall|i: int, k: usize| 0 <= i <= page.cell_count() && #[trigger] uses(
        pages2,
        child_at(page, i, usable),
        h,
        usable,
        k,
    ) implies uses(pages, child_at(page, i, usable), h, usable, k) || (i == c && size < k <= size2) by {
        assert(child_at(page, i, usable) == child_at(page, i, usable));
    }
    assert forall|i: int, k: usize| 0 <= i <= page.cell_count() && #[trigger] uses(
        pages,
        child_at(page, i, usable),
        h,
        usable,
        k,
    ) implies k <= size by {
        assert(uses(pages, id, height, usable, k));
    }
    assert forall|i: int, j: int, k: usize| 0 <= i < j <= page.cell_count() implies !(#[trigger] uses(
        pages2,
        child_at(page, i, usable),
        h,
        usable,
        k,
    ) && #[trigger] uses(pages2, child_at(page, j, usable), h, usable, k)) by {
        assert(!(uses(pages, child_at(page, i, usable), h, usable, k) && uses(
            pages,
            child_at(page, j, usable),
            h,
            usable,
            k,
        )));
    }
    assert forall|i: int| 0 <= i <= page.cell_count() implies {
        &&& sole(pages2, #[trigger] child_at(page, i, usable), h, usable)
        &&& !uses(pages2, child_at(page, i, usable), h, usable, id)
    } by {
        assert(!uses(pages, child_at(page, i, usable), h, usable, id));
    }
    assert forall|k: usize| #[trigger] uses(pages2, id, height, usable, k) implies uses(
        pages,
        id,
        height,
        usable,
        k,
    ) || size < k <= size2 by {
        if k != id {
            let i = choose|i: int|
                0 <= i <= page.cell_count() && uses(
                    pages2,
                    #[trigger] child_at(page, i, usable),
                    h,
                    usable,
                    k,
                );
            assert(uses(pages2, child_at(page, i, usable), h, usable, k));
        }
    }
}

/// The leaf where a row id belongs is a child of the page above it where it
/// belongs.
pub proof fn lemma_spot_step(
    pages: Map<usize, PageState>,
    id: usize,
    height: nat,
    lo: int,
    hi: int,
    k: int,
    usable: int,
)
    requires
        height > 0,
    ensures
        ({
            let s = spot(pages, id, height, lo, hi, k, usable, 1);
            let page = page_of(pages, s.id);
            let c = first_at_least(page, k, usable, 0).unwrap();
            spot(pages, id, height, lo, hi, k, usable, 0) == Spot {
                id: child_at(page, c, usable),
                lo: low(page, c, s.lo, usable),
                hi: high(page, c, s.hi, usable),
            }
        }),
    decreases height,
{
    let page = page_of(pages, id);
    let c = first_at_least(page, k, usable, 0).unwrap();
    if height > 1 {
        lemma_spot_step(
            pages,
            child_at(page, c, usable),
            (height - 1) as nat,
            low(page, c, lo, usable),
            high(page, c, hi, usable),
            k,
            usable,
        );
    } else {
        reveal_with_fuel(spot, 2);
    }
}

} // verus!
