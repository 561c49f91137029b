//! A table of which an interior page was divided at one of its children.

use vstd::prelude::*;
use crate::page::{usable_ok, PageModel};
use crate::pager::{loaded, page_of, PageState};
use crate::payloads::kept;
use crate::sharing::{
    grows_only, lemma_insert_within, lemma_others_kept, lemma_rows_before_kept,
    lemma_rows_from_moved, same_rows_from, sole, uses, within,
};
use crate::splits::{divided, same_entry};
use crate::tables::{
    child_at, high, lemma_rows_split, low, rows, rows_before, rows_from, separator, table,
    table_node, Row,
};

verus! {

/// The children of a divided page.
proof fn lemma_divided_children(
    p: PageModel,
    q: PageModel,
    ci: int,
    left: usize,
    key: int,
    right: usize,
    usable: int,
)
    requires
        divided(p, q, ci, left as int, key, right as int, usable),
        0 <= ci <= p.cell_count(),
    ensures
        forall|j: int| 0 <= j < ci ==> child_at(q, j, usable) == #[trigger] child_at(p, j, usable),
        child_at(q, ci, usable) == left,
        child_at(q, ci + 1, usable) == right,
        forall|j: int|
            ci < j <= p.cell_count() ==> child_at(q, j + 1, usable) == #[trigger] child_at(
                p,
                j,
                usable,
            ),
{
    assert forall|j: int| 0 <= j < ci implies child_at(q, j, usable) == #[trigger] child_at(
        p,
        j,
        usable,
    ) by {
        assert(same_entry(p, j, q, j, usable));
    }
    assert forall|j: int| ci < j <= p.cell_count() implies child_at(q, j + 1, usable)
        == #[trigger] child_at(p, j, usable) by {
        if j < p.cell_count() {
            assert(same_entry(p, j, q, j + 1, usable));
        }
    }
}

/// The cell of `p` that cell `j` of the divided page stands for.
pub open spec fn cell_before(ci: int, j: int) -> int {
    if j < ci {
        j
    } else {
        j - 1
    }
}

/// A cell of a divided page.
proof fn lemma_divided_cell(
    p: PageModel,
    q: PageModel,
    ci: int,
    left: int,
    key: int,
    right: int,
    lo: int,
    hi: int,
    usable: int,
    j: int,
)
    requires
        divided(p, q, ci, left, key, right, usable),
        table_node(p, lo, hi, usable),
        0 <= ci <= p.cell_count(),
        low(p, ci, lo, usable) <= key <= high(p, ci, hi, usable),
        0 <= j < q.cell_count(),
    ensures
        q.head(j, usable) is Some,
        lo <= separator(q, j, usable) <= hi,
        separator(q, j, usable) == if j == ci {
            key
        } else {
            separator(p, cell_before(ci, j), usable)
        },
        j < ci ==> separator(q, j, usable) <= key,
        j > ci ==> separator(q, j, usable) >= key,
{
    let n = p.cell_count();
    if j == ci {
        if ci > 0 {
            assert(p.head(ci - 1, usable) is Some);
        }
        if ci < n {
            assert(p.head(ci, usable) is Some);
        }
    } else {
        let i = cell_before(ci, j);
        assert(p.head(i, usable) is Some);
        if j < ci {
            assert(same_entry(p, j, q, j, usable));
            assert(p.head(ci - 1, usable) is Some);
        } else {
            if j > ci + 1 {
                assert(same_entry(p, i, q, i + 1, usable));
            }
            assert(p.head(ci, usable) is Some);
        }
    }
}

/// A divided page has its cells in order.
proof fn lemma_divided_node(
    p: PageModel,
    q: PageModel,
    ci: int,
    left: int,
    key: int,
    right: int,
    lo: int,
    hi: int,
    usable: int,
)
    requires
        divided(p, q, ci, left, key, right, usable),
        table_node(p, lo, hi, usable),
        0 <= ci <= p.cell_count(),
        low(p, ci, lo, usable) <= key <= high(p, ci, hi, usable),
    ensures
        table_node(q, lo, hi, usable),
{
    assert forall|j: int| 0 <= j < q.cell_count() implies {
        &&& (#[trigger] q.head(j, usable)) is Some
        &&& lo <= separator(q, j, usable) <= hi
    } by {
        lemma_divided_cell(p, q, ci, left, key, right, lo, hi, usable, j);
    }
    assert forall|i: int, j: int| 0 <= i < j < q.cell_count() implies (#[trigger] q.head(
        i,
        usable,
    )).unwrap().rowid <= (#[trigger] q.head(j, usable)).unwrap().rowid by {
        lemma_divided_cell(p, q, ci, left, key, right, lo, hi, usable, i);
        lemma_divided_cell(p, q, ci, left, key, right, lo, hi, usable, j);
        if i != ci && j != ci {
            assert(p.head(cell_before(ci, i), usable) is Some);
            assert(p.head(cell_before(ci, j), usable) is Some);
        }
    }
}

/// The bounds of a child of a divided page.
proof fn lemma_divided_bounds(
    p: PageModel,
    q: PageModel,
    ci: int,
    left: int,
    key: int,
    right: int,
    lo: int,
    hi: int,
    usable: int,
    j: int,
)
    requires
        divided(p, q, ci, left, key, right, usable),
        table_node(p, lo, hi, usable),
        0 <= ci <= p.cell_count(),
        low(p, ci, lo, usable) <= key <= high(p, ci, hi, usable),
        0 <= j <= q.cell_count(),
    ensures
        low(q, j, lo, usable) == if j <= ci {
            low(p, j, lo, usable)
        } else if j == ci + 1 {
            key
        } else {
            low(p, j - 1, lo, usable)
        },
        high(q, j, hi, usable) == if j < ci {
            high(p, j, hi, usable)
        } else if j == ci {
            key
        } else {
            high(p, j - 1, hi, usable)
        },
{
    if j > 0 {
        lemma_divided_cell(p, q, ci, left, key, right, lo, hi, usable, j - 1);
    }
    if j < q.cell_count() {
        lemma_divided_cell(p, q, ci, left, key, right, lo, hi, usable, j);
    }
}

/// A divided page of a table, and what its children have to be for it to be
/// one again.
pub open spec fn divides(
    pages: Map<usize, PageState>,
    pages2: Map<usize, PageState>,
    id: usize,
    height: nat,
    ci: int,
    left: usize,
    key: int,
    right: usize,
    lo: int,
    hi: int,
    usable: int,
    size: int,
    size2: int,
) -> bool {
    let p = page_of(pages, id);
    let q = page_of(pages2, id);
    let h = (height - 1) as nat;
    &&& usable_ok(usable)
    &&& height > 0
    &&& table(pages, id, height, lo, hi, usable)
    &&& sole(pages, id, height, usable)
    &&& within(pages, id, height, usable, size)
    &&& 0 <= ci <= p.cell_count()
    &&& left == child_at(p, ci, usable)
    &&& size < right <= size2
    &&& loaded(pages2, id)
    &&& divided(p, q, ci, left as int, key, right as int, usable)
    &&& kept(pages, pages2, Set::new(|j: usize| j == id || j == left || j > size))
    &&& low(p, ci, lo, usable) <= key <= high(p, ci, hi, usable)
    &&& table(pages2, left, h, low(p, ci, lo, usable), key, usable)
    &&& table(pages2, right, h, key, high(p, ci, hi, usable), usable)
    &&& sole(pages2, left, h, usable)
    &&& sole(pages2, right, h, usable)
    &&& forall|j: usize| #[trigger]
        uses(pages2, left, h, usable, j) ==> uses(pages, left, h, usable, j) || size < j <= size2
    &&& forall|j: usize| #[trigger]
        uses(pages2, right, h, usable, j) ==> uses(pages, left, h, usable, j) || size < j <= size2
    &&& forall|j: usize| #[trigger]
        uses(pages2, left, h, usable, j) ==> !uses(pages2, right, h, usable, j)
}

/// The children of a divided page beside the two new ones are kept.
proof fn lemma_divides_others(
    pages: Map<usize, PageState>,
    pages2: Map<usize, PageState>,
    id: usize,
    height: nat,
    ci: int,
    left: usize,
    key: int,
    right: usize,
    lo: int,
    hi: int,
    usable: int,
    size: int,
    size2: int,
)
    requires
        divides(pages, pages2, id, height, ci, left, key, right, lo, hi, usable, size, size2),
    ensures
        ({
            let page = page_of(pages, id);
            let h = (height - 1) as nat;
            forall|i: int|
                0 <= i <= page.cell_count() && i != ci ==> {
                    let d = #[trigger] child_at(page, i, usable);
                    &&& table(
                        pages2,
                        d,
                        h,
                        low(page, i, lo, usable),
                        high(page, i, hi, usable),
                        usable,
                    )
                    &&& rows(pages2, d, h, usable) == rows(pages, d, h, usable)
                    &&& sole(pages2, d, h, usable)
                    &&& forall|k: usize| #[trigger]
                        uses(pages2, d, h, usable, k) == uses(pages, d, h, usable, k)
                }
        }),
{
    let page = page_of(pages, id);
    let h = (height - 1) as nat;
    let x = Set::new(|j: usize| j == id || j == left || j > size);
    assert forall|j: usize| #[trigger] x.contains(j) implies j == id || uses(
        pages,
        child_at(page, ci, usable),
        h,
        usable,
        j,
    ) || j > size by {
        assert(uses(pages, left, h, usable, left));
    }
    lemma_others_kept(pages, pages2, x, page, id, height, lo, hi, ci, usable, size);
}

/// A divided page of a table is the root of a table again.
proof fn lemma_divides_table(
    pages: Map<usize, PageState>,
    pages2: Map<usize, PageState>,
    id: usize,
    height: nat,
    ci: int,
    left: usize,
    key: int,
    right: usize,
    lo: int,
    hi: int,
    usable: int,
    size: int,
    size2: int,
)
    requires
        divides(pages, pages2, id, height, ci, left, key, right, lo, hi, usable, size, size2),
    ensures
        table(pages2, id, height, lo, hi, usable),
{
    let p = page_of(pages, id);
    let q = page_of(pages2, id);
    let h = (height - 1) as nat;
    lemma_divides_others(
        pages,
        pages2,
        id,
        height,
        ci,
        left,
        key,
        right,
        lo,
        hi,
        usable,
        size,
        size2,
    );
    lemma_divided_children(p, q, ci, left, key, right, usable);
    lemma_divided_node(p, q, ci, left as int, key, right as int, lo, hi, usable);
    assert forall|j: int| 0 <= j <= q.cell_count() implies table(
        pages2,
        #[trigger] child_at(q, j, usable),
        h,
        low(q, j, lo, usable),
        high(q, j, hi, usable),
        usable,
    ) by {
        lemma_divided_bounds(p, q, ci, left as int, key, right as int, lo, hi, usable, j);
        if j < ci {
            assert(child_at(q, j, usable) == child_at(p, j, usable));
        } else if j > ci + 1 {
            let i = j - 1;
            assert(child_at(q, i + 1, usable) == child_at(p, i, usable));
        }
    }
}

/// The rows of a divided page.
proof fn lemma_divides_rows(
    pages: Map<usize, PageState>,
    pages2: Map<usize, PageState>,
    id: usize,
    height: nat,
    ci: int,
    left: usize,
    key: int,
    right: usize,
    lo: int,
    hi: int,
    usable: int,
    size: int,
    size2: int,
    row: Row,
    r: int,
) -> (q: int)
    requires
        divides(pages, pages2, id, height, ci, left, key, right, lo, hi, usable, size, size2),
        ({
            let h = (height - 1) as nat;
            let was = rows(pages, left, h, usable);
            &&& 0 <= r <= was.len()
            &&& rows(pages2, left, h, usable) + rows(pages2, right, h, usable) == was.insert(
                r,
                row,
            )
        }),
    ensures
        0 <= q <= rows(pages, id, height, usable).len(),
        rows(pages2, id, height, usable) == rows(pages, id, height, usable).insert(q, row),
{
    let page = page_of(pages, id);
    let page2 = page_of(pages2, id);
    let h = (height - 1) as nat;
    lemma_divides_others(
        pages,
        pages2,
        id,
        height,
        ci,
        left,
        key,
        right,
        lo,
        hi,
        usable,
        size,
        size2,
    );
    lemma_divided_children(page, page2, ci, left, key, right, usable);
    assert(same_rows_from(pages, page, pages2, page2, h, ci + 1, 1, usable));
    lemma_divided_rows_from(pages, pages2, page, page2, height, ci, left, right, usable, row, r)
}

/// The rows of an interior page with one child replaced by two.
proof fn lemma_divided_rows_from(
    pages: Map<usize, PageState>,
    pages2: Map<usize, PageState>,
    page: PageModel,
    page2: PageModel,
    height: nat,
    ci: int,
    left: usize,
    right: usize,
    usable: int,
    row: Row,
    r: int,
) -> (q: int)
    requires
        height > 0,
        0 <= ci <= page.cell_count(),
        page2.cell_count() == page.cell_count() + 1,
        left == child_at(page, ci, usable),
        child_at(page2, ci, usable) == left,
        child_at(page2, ci + 1, usable) == right,
        forall|j: int|
            0 <= j < ci ==> rows(
                pages2,
                child_at(page2, j, usable),
                (height - 1) as nat,
                usable,
            ) == rows(pages, #[trigger] child_at(page, j, usable), (height - 1) as nat, usable),
        same_rows_from(pages, page, pages2, page2, (height - 1) as nat, ci + 1, 1, usable),
        ({
            let h = (height - 1) as nat;
            let was = rows(pages, left, h, usable);
            &&& 0 <= r <= was.len()
            &&& rows(pages2, left, h, usable) + rows(pages2, right, h, usable) == was.insert(
                r,
                row,
            )
        }),
    ensures
        0 <= q <= rows_from(pages, page, height, 0, usable).len(),
        rows_from(pages2, page2, height, 0, usable) == rows_from(
            pages,
            page,
            height,
            0,
            usable,
        ).insert(q, row),
{
    let h = (height - 1) as nat;
    let c = ci as nat;
    lemma_rows_split(pages, page, height, c, usable);
    lemma_rows_split(pages2, page2, height, c, usable);
    lemma_rows_before_kept(pages, page, pages2, page2, height, c, usable);
    lemma_rows_from_moved(pages, page, pages2, page2, height, c + 1, 1, usable);
    let front = rows_before(pages, page, height, c, usable);
    let mid = rows(pages, left, h, usable);
    let a = rows(pages2, left, h, usable);
    let b = rows(pages2, right, h, usable);
    let back = rows_from(pages, page, height, c + 1, usable);
    assert(rows_from(pages, page, height, c, usable) == mid + back);
    assert(rows_from(pages2, page2, height, c + 1, usable) == b + back);
    assert(rows_from(pages2, page2, height, c, usable) == a + (b + back));
    lemma_insert_between(front, mid, a, b, back, row, r);
    front.len() + r
}

proof fn lemma_insert_between(
    front: Seq<Row>,
    mid: Seq<Row>,
    a: Seq<Row>,
    b: Seq<Row>,
    back: Seq<Row>,
    row: Row,
    r: int,
)
    requires
        0 <= r <= mid.len(),
        a + b == mid.insert(r, row),
    ensures
        front + (a + (b + back)) == (front + (mid + back)).insert(front.len() + r, row),
{
    assert(a + (b + back) =~= mid.insert(r, row) + back);
    lemma_insert_within(front, mid, back, row, r);
}

/// What one child of a divided page uses.
proof fn lemma_divides_child(
    pages: Map<usize, PageState>,
    pages2: Map<usize, PageState>,
    id: usize,
    height: nat,
    ci: int,
    left: usize,
    key: int,
    right: usize,
    lo: int,
    hi: int,
    usable: int,
    size: int,
    size2: int,
    j: int,
)
    requires
        divides(pages, pages2, id, height, ci, left, key, right, lo, hi, usable, size, size2),
        0 <= j <= page_of(pages2, id).cell_count(),
    ensures
        ({
            let d = child_at(page_of(pages2, id), j, usable);
            let h = (height - 1) as nat;
            &&& sole(pages2, d, h, usable)
            &&& forall|k: usize| #[trigger]
                uses(pages2, d, h, usable, k) ==> comes_from(
                    pages,
                    page_of(pages, id),
                    h,
                    ci,
                    j,
                    k,
                    usable,
                    size,
                    size2,
                )
        }),
{
    let p = page_of(pages, id);
    let q = page_of(pages2, id);
    lemma_divided_children(p, q, ci, left, key, right, usable);
    if j != ci && j != ci + 1 {
        lemma_divides_others(
            pages,
            pages2,
            id,
            height,
            ci,
            left,
            key,
            right,
            lo,
            hi,
            usable,
            size,
            size2,
        );
        let i = child_before(ci, j);
        assert(child_at(q, j, usable) == child_at(p, i, usable));
    }
}

/// A divided page uses its old pages and new ones, and none twice.
proof fn lemma_divides_sole(
    pages: Map<usize, PageState>,
    pages2: Map<usize, PageState>,
    id: usize,
    height: nat,
    ci: int,
    left: usize,
    key: int,
    right: usize,
    lo: int,
    hi: int,
    usable: int,
    size: int,
    size2: int,
)
    requires
        divides(pages, pages2, id, height, ci, left, key, right, lo, hi, usable, size, size2),
    ensures
        sole(pages2, id, height, usable),
        grows_only(pages, pages2, id, height, usable, size, size2),
{
    let p = page_of(pages, id);
    let q = page_of(pages2, id);
    let h = (height - 1) as nat;
    assert forall|j: int, k: usize| 0 <= j <= q.cell_count() && #[trigger] uses(
        pages2,
        child_at(q, j, usable),
        h,
        usable,
        k,
    ) implies comes_from(pages, p, h, ci, j, k, usable, size, size2) by {
        lemma_divides_child(
            pages,
            pages2,
            id,
            height,
            ci,
            left,
            key,
            right,
            lo,
            hi,
            usable,
            size,
            size2,
            j,
        );
    }
    assert forall|j: int| 0 <= j <= q.cell_count() implies sole(
        pages2,
        #[trigger] child_at(q, j, usable),
        h,
        usable,
    ) by {
        lemma_divides_child(
            pages,
            pages2,
            id,
            height,
            ci,
            left,
            key,
            right,
            lo,
            hi,
            usable,
            size,
            size2,
            j,
        );
    }
    assert(child_at(q, ci, usable) == left && child_at(q, ci + 1, usable) == right) by {
        lemma_divided_children(p, q, ci, left, key, right, usable);
    }
    lemma_divided_uses(pages, pages2, id, height, ci, usable, size, size2);
}

/// The child of `p` that child `j` of the divided page comes from.
pub open spec fn child_before(ci: int, j: int) -> int {
    if j <= ci {
        j
    } else {
        j - 1
    }
}

/// Whether a page that child `j` of a divided page uses is one that the child
/// used from which it comes, or a new page for one of the two new children.
spec fn comes_from(
    pages: Map<usize, PageState>,
    p: PageModel,
    h: nat,
    ci: int,
    j: int,
    k: usize,
    usable: int,
    size: int,
    size2: int,
) -> bool {
    ||| uses(pages, child_at(p, child_before(ci, j), usable), h, usable, k)
    ||| (child_before(ci, j) == ci && size < k <= size2)
}

/// A divided page whose children use old pages and new ones, and none twice.
proof fn lemma_divided_uses(
    pages: Map<usize, PageState>,
    pages2: Map<usize, PageState>,
    id: usize,
    height: nat,
    ci: int,
    usable: int,
    size: int,
    size2: int,
)
    requires
        height > 0,
        sole(pages, id, height, usable),
        within(pages, id, height, usable, size),
        0 <= ci <= page_of(pages, id).cell_count(),
        page_of(pages2, id).cell_count() == page_of(pages, id).cell_count() + 1,
        ({
            let p = page_of(pages, id);
            let q = page_of(pages2, id);
            let h = (height - 1) as nat;
            &&& forall|j: int, k: usize|
                0 <= j <= q.cell_count() && #[trigger] uses(
                    pages2,
                    child_at(q, j, usable),
                    h,
                    usable,
                    k,
                ) ==> comes_from(pages, p, h, ci, j, k, usable, size, size2)
            &&& forall|j: int|
                0 <= j <= q.cell_count() ==> sole(
                    pages2,
                    #[trigger] child_at(q, j, usable),
                    h,
                    usable,
                )
            &&& forall|j: usize| #[trigger]
                uses(pages2, child_at(q, ci, usable), h, usable, j) ==> !uses(
                    pages2,
                    child_at(q, ci + 1, usable),
                    h,
                    usable,
                    j,
                )
        }),
    ensures
        sole(pages2, id, height, usable),
        grows_only(pages, pages2, id, height, usable, size, size2),
{
    let p = page_of(pages, id);
    let q = page_of(pages2, id);
    let h = (height - 1) as nat;
    assert(uses(pages, id, height, usable, id));
    assert forall|i: int, k: usize| 0 <= i <= p.cell_count() && #[trigger] uses(
        pages,
        child_at(p, i, usable),
        h,
        usable,
        k,
    ) implies k <= size && k != id && uses(pages, id, height, usable, k) by {
        assert(uses(pages, id, height, usable, k));
        assert(!uses(pages, child_at(p, i, usable), h, usable, id));
    }
    assert forall|j: int| 0 <= j <= q.cell_count() implies !uses(
        pages2,
        #[trigger] child_at(q, j, usable),
        h,
        usable,
        id,
    ) by {
        if uses(pages2, child_at(q, j, usable), h, usable, id) {
            assert(comes_from(pages, p, h, ci, j, id, usable, size, size2));
        }
    }
    assert forall|a: int, b: int, k: usize| 0 <= a < b <= q.cell_count() implies !(#[trigger] uses(
        pages2,
        child_at(q, a, usable),
        h,
        usable,
        k,
    ) && #[trigger] uses(pages2, child_at(q, b, usable), h, usable, k)) by {
        if uses(pages2, child_at(q, a, usable), h, usable, k) && uses(
            pages2,
            child_at(q, b, usable),
            h,
            usable,
            k,
        ) {
            let i = child_before(ci, a);
            let j = child_before(ci, b);
            assert(comes_from(pages, p, h, ci, a, k, usable, size, size2));
            assert(comes_from(pages, p, h, ci, b, k, usable, size, size2));
            if i < j {
                assert(!(uses(pages, child_at(p, i, usable), h, usable, k) && uses(
                    pages,
                    child_at(p, j, usable),
                    h,
                    usable,
                    k,
                )));
            }
        }
    }
    assert forall|k: usize| #[trigger] uses(pages2, id, height, usable, k) implies uses(
        pages,
        id,
        height,
        usable,
        k,
    ) || size < k <= size2 by {
        if k != id {
            let j = choose|j: int|
                0 <= j <= q.cell_count() && uses(
                    pages2,
                    #[trigger] child_at(q, j, usable),
                    h,
                    usable,
                    k,
                );
            assert(uses(pages2, child_at(q, j, usable), h, usable, k));
            assert(comes_from(pages, p, h, ci, j, k, usable, size, size2));
        }
    }
}

/// A table whose root was divided at a child that got a row got that row.
pub proof fn divided_root_gains(
    pages: Map<usize, PageState>,
    pages2: Map<usize, PageState>,
    id: usize,
    height: nat,
    ci: int,
    left: usize,
    key: int,
    right: usize,
    lo: int,
    hi: int,
    usable: int,
    size: int,
    size2: int,
    row: Row,
    r: int,
) -> (q: int)
    requires
        divides(pages, pages2, id, height, ci, left, key, right, lo, hi, usable, size, size2),
        ({
            let h = (height - 1) as nat;
            let was = rows(pages, left, h, usable);
            &&& 0 <= r <= was.len()
            &&& rows(pages2, left, h, usable) + rows(pages2, right, h, usable) == was.insert(
                r,
                row,
            )
        }),
    ensures
        table(pages2, id, height, lo, hi, usable),
        sole(pages2, id, height, usable),
        grows_only(pages, pages2, id, height, usable, size, size2),
        0 <= q <= rows(pages, id, height, usable).len(),
        rows(pages2, id, height, usable) == rows(pages, id, height, usable).insert(q, row),
{
    lemma_divides_table(
        pages,
        pages2,
        id,
        height,
        ci,
        left,
        key,
        right,
        lo,
        hi,
        usable,
        size,
        size2,
    );
    lemma_divides_sole(
        pages,
        pages2,
        id,
        height,
        ci,
        left,
        key,
        right,
        lo,
        hi,
        usable,
        size,
        size2,
    );
    lemma_divides_rows(
        pages,
        pages2,
        id,
        height,
        ci,
        left,
        key,
        right,
        lo,
        hi,
        usable,
        size,
        size2,
        row,
        r,
    )
}

} // verus!
