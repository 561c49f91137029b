//! A table of which a page became two, and what that does to the page above.

use vstd::prelude::*;
use crate::fans::{
    fan_of, fan_ok, fan_rows, fan_uses, flat, keys_ok, kid_high, kid_low, kid_ok, left_fan,
    lemma_fan_page, lemma_fan_split, lemma_flat_divided, lemma_page_fan, right_fan, Fan,
};
use crate::page::{usable_ok, PageType};
use crate::pager::{loaded, page_of, PageState};
use crate::payloads::kept;
use crate::sharing::{grows_only, lemma_others_kept, sole, uses, within};
use crate::tables::{child_at, high, low, rows, table, Row};

verus! {

/// Whether the table at page `was` became two, at `left` and `right`, one behind
/// the other with the row id `key` between them, and got one row more, inserted
/// at `q`. The two share no page and use only what the table used and new pages.
pub open spec fn paired(
    pages: Map<usize, PageState>,
    pages2: Map<usize, PageState>,
    was: usize,
    height: nat,
    lo: int,
    hi: int,
    left: usize,
    key: int,
    right: usize,
    row: Row,
    q: int,
    usable: int,
    size: int,
    size2: int,
) -> bool {
    &&& lo <= key <= hi
    &&& table(pages2, left, height, lo, key, usable)
    &&& table(pages2, right, height, key, hi, usable)
    &&& sole(pages2, left, height, usable)
    &&& sole(pages2, right, height, usable)
    &&& forall|j: usize| #[trigger]
        uses(pages2, left, height, usable, j) ==> !uses(pages2, right, height, usable, j)
    &&& forall|j: usize| #[trigger]
        uses(pages2, left, height, usable, j) ==> uses(pages, was, height, usable, j) || size < j
            <= size2
    &&& forall|j: usize| #[trigger]
        uses(pages2, right, height, usable, j) ==> uses(pages, was, height, usable, j) || size < j
            <= size2
    &&& 0 <= q <= rows(pages, was, height, usable).len()
    &&& rows(pages2, left, height, usable) + rows(pages2, right, height, usable) == rows(
        pages,
        was,
        height,
        usable,
    ).insert(q, row)
}

/// The children with one more, `right`, behind child `ci`, and the row id `key`
/// between the two.
pub open spec fn grown_fan(f: Fan, ci: int, key: int, right: usize) -> Fan {
    Fan { kids: f.kids.insert(ci + 1, right), keys: f.keys.insert(ci, key) }
}

/// The pages that may change when child `ci` of an interior page becomes two:
/// the page itself, those that the child uses, and new ones.
pub open spec fn changed_at(
    pages: Map<usize, PageState>,
    id: usize,
    height: nat,
    ci: int,
    usable: int,
    size: int,
) -> Set<usize> {
    let child = child_at(page_of(pages, id), ci, usable);
    Set::new(
        |j: usize| j == id || uses(pages, child, (height - 1) as nat, usable, j) || j > size,
    )
}

/// An interior page of a table one of whose children became two.
pub open spec fn child_paired(
    pages: Map<usize, PageState>,
    pages2: Map<usize, PageState>,
    id: usize,
    height: nat,
    lo: int,
    hi: int,
    ci: int,
    key: int,
    right: usize,
    row: Row,
    r: int,
    usable: int,
    size: int,
    size2: int,
) -> bool {
    let page = page_of(pages, id);
    let child = child_at(page, ci, usable);
    &&& usable_ok(usable)
    &&& height > 0
    &&& table(pages, id, height, lo, hi, usable)
    &&& sole(pages, id, height, usable)
    &&& within(pages, id, height, usable, size)
    &&& 0 <= ci <= page.cell_count()
    &&& kept(pages, pages2, changed_at(pages, id, height, ci, usable, size))
    &&& paired(
        pages,
        pages2,
        child,
        (height - 1) as nat,
        low(page, ci, lo, usable),
        high(page, ci, hi, usable),
        child,
        key,
        right,
        row,
        r,
        usable,
        size,
        size2,
    )
}

/// The children beside the one that became two are kept.
proof fn lemma_paired_others(
    pages: Map<usize, PageState>,
    pages2: Map<usize, PageState>,
    id: usize,
    height: nat,
    lo: int,
    hi: int,
    ci: int,
    key: int,
    right: usize,
    row: Row,
    r: int,
    usable: int,
    size: int,
    size2: int,
)
    requires
        child_paired(
            pages,
            pages2,
            id,
            height,
            lo,
            hi,
            ci,
            key,
            right,
            row,
            r,
            usable,
            size,
            size2,
        ),
    ensures
        ({
            let f = fan_of(page_of(pages, id), usable);
            let h = (height - 1) as nat;
            &&& fan_ok(pages, f, h, lo, hi, usable)
            &&& rows(pages, id, height, usable) == flat(fan_rows(pages, f, h, usable))
            &&& forall|k: usize| #[trigger]
                fan_uses(pages, f, h, usable, k) ==> k != id && uses(pages, id, height, usable, k)
                    && k <= size
            &&& forall|j: int|
                0 <= j < f.kids.len() && j != ci ==> #[trigger] same_kid(
                    pages,
                    pages2,
                    f,
                    h,
                    lo,
                    hi,
                    usable,
                    j,
                )
        }),
{
    let page = page_of(pages, id);
    let f = fan_of(page, usable);
    let h = (height - 1) as nat;
    lemma_page_fan(pages, id, height, lo, hi, usable);
    let x = changed_at(pages, id, height, ci, usable, size);
    lemma_others_kept(pages, pages2, x, page, id, height, lo, hi, ci, usable, size);
    assert forall|j: int| 0 <= j < f.kids.len() && j != ci implies #[trigger] same_kid(
        pages,
        pages2,
        f,
        h,
        lo,
        hi,
        usable,
        j,
    ) by {
        assert(f.kids[j] == child_at(page, j, usable));
        assert(kid_low(f, j, lo) == low(page, j, lo, usable));
        assert(kid_high(f, j, hi) == high(page, j, hi, usable));
    }
    assert forall|k: usize| #[trigger] fan_uses(pages, f, h, usable, k) implies k != id && uses(
        pages,
        id,
        height,
        usable,
        k,
    ) && k <= size by {
        assert(uses(pages, id, height, usable, k));
    }
}

/// Whether child `j` is the same table as before.
spec fn same_kid(
    pages: Map<usize, PageState>,
    pages2: Map<usize, PageState>,
    f: Fan,
    height: nat,
    lo: int,
    hi: int,
    usable: int,
    j: int,
) -> bool {
    let d = f.kids[j];
    &&& table(pages2, d, height, kid_low(f, j, lo), kid_high(f, j, hi), usable)
    &&& rows(pages2, d, height, usable) == rows(pages, d, height, usable)
    &&& sole(pages2, d, height, usable)
    &&& forall|k: usize| #[trigger]
        uses(pages2, d, height, usable, k) == uses(pages, d, height, usable, k)
}

/// The child that child `j` was before one more came behind child `ci`.
spec fn kid_before(ci: int, j: int) -> int {
    if j <= ci {
        j
    } else {
        j - 1
    }
}

/// The children of an interior page, once one of them became two, are tables
/// again, one behind the other, with the new row.
pub proof fn child_pair_grows_fan(
    pages: Map<usize, PageState>,
    pages2: Map<usize, PageState>,
    id: usize,
    height: nat,
    lo: int,
    hi: int,
    ci: int,
    key: int,
    right: usize,
    row: Row,
    r: int,
    usable: int,
    size: int,
    size2: int,
) -> (q: int)
    requires
        child_paired(
            pages,
            pages2,
            id,
            height,
            lo,
            hi,
            ci,
            key,
            right,
            row,
            r,
            usable,
            size,
            size2,
        ),
    ensures
        ({
            let f = grown_fan(fan_of(page_of(pages, id), usable), ci, key, right);
            let h = (height - 1) as nat;
            let was = rows(pages, id, height, usable);
            &&& fan_ok(pages2, f, h, lo, hi, usable)
            &&& 0 <= q <= was.len()
            &&& flat(fan_rows(pages2, f, h, usable)) == was.insert(q, row)
            &&& forall|k: usize| #[trigger]
                fan_uses(pages2, f, h, usable, k) ==> k != id && uses(
                    pages,
                    id,
                    height,
                    usable,
                    k,
                ) && k <= size || size < k <= size2
        }),
{
    let f0 = fan_of(page_of(pages, id), usable);
    let f = grown_fan(f0, ci, key, right);
    let h = (height - 1) as nat;
    lemma_paired_others(
        pages,
        pages2,
        id,
        height,
        lo,
        hi,
        ci,
        key,
        right,
        row,
        r,
        usable,
        size,
        size2,
    );
    assert(f0.kids[ci] == child_at(page_of(pages, id), ci, usable));
    assert(kid_low(f0, ci, lo) == low(page_of(pages, id), ci, lo, usable));
    assert(kid_high(f0, ci, hi) == high(page_of(pages, id), ci, hi, usable));
    lemma_grown_keys(f0, ci, key, right, lo, hi);
    lemma_grown_kids(pages, pages2, f0, ci, key, right, h, lo, hi, usable);
    lemma_grown_apart(pages, pages2, f0, ci, key, right, h, lo, hi, usable, size, size2);
    assert forall|k: usize| #[trigger] fan_uses(pages2, f, h, usable, k) implies k != id && uses(
        pages,
        id,
        height,
        usable,
        k,
    ) && k <= size || size < k <= size2 by {
        assert(fan_uses(pages, f0, h, usable, k) || size < k <= size2);
    }
    lemma_grown_rows(pages, pages2, f0, ci, key, right, h, lo, hi, usable, row, r)
}

/// Whether an interior page in memory has these children.
pub open spec fn has_fan(pages: Map<usize, PageState>, id: usize, f: Fan, usable: int) -> bool {
    let page = page_of(pages, id);
    &&& loaded(pages, id)
    &&& page.page_type() == Some(PageType::TableInterior)
    &&& forall|i: int| 0 <= i < page.cell_count() ==> (#[trigger] page.head(i, usable)) is Some
    &&& fan_of(page, usable) == f
}

/// An interior page of a table, one of whose children became two, that names
/// both has the new row.
pub proof fn page_with_pair_gains(
    pages: Map<usize, PageState>,
    pages2: Map<usize, PageState>,
    id: usize,
    height: nat,
    lo: int,
    hi: int,
    ci: int,
    key: int,
    right: usize,
    row: Row,
    r: int,
    usable: int,
    size: int,
    size2: int,
) -> (q: int)
    requires
        child_paired(
            pages,
            pages2,
            id,
            height,
            lo,
            hi,
            ci,
            key,
            right,
            row,
            r,
            usable,
            size,
            size2,
        ),
        has_fan(
            pages2,
            id,
            grown_fan(fan_of(page_of(pages, id), usable), ci, key, right),
            usable,
        ),
    ensures
        table(pages2, id, height, lo, hi, usable),
        sole(pages2, id, height, usable),
        grows_only(pages, pages2, id, height, usable, size, size2),
        0 <= q <= rows(pages, id, height, usable).len(),
        rows(pages2, id, height, usable) == rows(pages, id, height, usable).insert(q, row),
{
    let f = grown_fan(fan_of(page_of(pages, id), usable), ci, key, right);
    let h = (height - 1) as nat;
    let q = child_pair_grows_fan(
        pages,
        pages2,
        id,
        height,
        lo,
        hi,
        ci,
        key,
        right,
        row,
        r,
        usable,
        size,
        size2,
    );
    assert(uses(pages, id, height, usable, id));
    assert(!fan_uses(pages2, f, h, usable, id));
    lemma_fan_page(pages2, id, height, lo, hi, usable);
    assert forall|j: usize| #[trigger] uses(pages2, id, height, usable, j) implies uses(
        pages,
        id,
        height,
        usable,
        j,
    ) || size < j <= size2 by {
        assert(j == id || fan_uses(pages2, f, h, usable, j));
    }
    q
}

/// An interior page of a table, one of whose children became two, that was
/// split, its first `m` children at `lid` and the others at `rid`, became two.
pub proof fn split_page_is_paired(
    pages: Map<usize, PageState>,
    pages2: Map<usize, PageState>,
    id: usize,
    height: nat,
    lo: int,
    hi: int,
    ci: int,
    key: int,
    right: usize,
    row: Row,
    r: int,
    usable: int,
    size: int,
    size1: int,
    m: int,
    lid: usize,
    rid: usize,
    size2: int,
) -> (q: int)
    requires
        child_paired(
            pages,
            pages2,
            id,
            height,
            lo,
            hi,
            ci,
            key,
            right,
            row,
            r,
            usable,
            size,
            size1,
        ),
        lid != rid,
        lid == id || size1 < lid <= size2,
        size1 < rid <= size2,
        size <= size1,
        ({
            let f = grown_fan(fan_of(page_of(pages, id), usable), ci, key, right);
            &&& 1 <= m <= f.keys.len()
            &&& has_fan(pages2, lid, left_fan(f, m), usable)
            &&& has_fan(pages2, rid, right_fan(f, m), usable)
        }),
    ensures
        paired(
            pages,
            pages2,
            id,
            height,
            lo,
            hi,
            lid,
            grown_fan(fan_of(page_of(pages, id), usable), ci, key, right).keys[m - 1],
            rid,
            row,
            q,
            usable,
            size,
            size2,
        ),
        lid != id ==> !uses(pages2, lid, height, usable, id) && !uses(
            pages2,
            rid,
            height,
            usable,
            id,
        ),
{
    let f = grown_fan(fan_of(page_of(pages, id), usable), ci, key, right);
    let q = child_pair_grows_fan(
        pages,
        pages2,
        id,
        height,
        lo,
        hi,
        ci,
        key,
        right,
        row,
        r,
        usable,
        size,
        size1,
    );
    assert(uses(pages, id, height, usable, id));
    lemma_parts_paired(
        pages,
        pages2,
        id,
        height,
        lo,
        hi,
        f,
        row,
        q,
        usable,
        size,
        size1,
        m,
        lid,
        rid,
        size2,
    );
    q
}

/// Two pages that share children are tables, one behind the other.
proof fn lemma_parts_paired(
    pages: Map<usize, PageState>,
    pages2: Map<usize, PageState>,
    id: usize,
    height: nat,
    lo: int,
    hi: int,
    f: Fan,
    row: Row,
    q: int,
    usable: int,
    size: int,
    size1: int,
    m: int,
    lid: usize,
    rid: usize,
    size2: int,
)
    requires
        height > 0,
        id <= size <= size1,
        uses(pages, id, height, usable, id),
        lid != rid,
        lid == id || size1 < lid <= size2,
        size1 < rid <= size2,
        1 <= m <= f.keys.len(),
        fan_ok(pages2, f, (height - 1) as nat, lo, hi, usable),
        0 <= q <= rows(pages, id, height, usable).len(),
        flat(fan_rows(pages2, f, (height - 1) as nat, usable)) == rows(
            pages,
            id,
            height,
            usable,
        ).insert(q, row),
        forall|k: usize| #[trigger]
            fan_uses(pages2, f, (height - 1) as nat, usable, k) ==> k != id && uses(
                pages,
                id,
                height,
                usable,
                k,
            ) && k <= size || size < k <= size1,
        has_fan(pages2, lid, left_fan(f, m), usable),
        has_fan(pages2, rid, right_fan(f, m), usable),
    ensures
        paired(
            pages,
            pages2,
            id,
            height,
            lo,
            hi,
            lid,
            f.keys[m - 1],
            rid,
            row,
            q,
            usable,
            size,
            size2,
        ),
        lid != id ==> !uses(pages2, lid, height, usable, id) && !uses(
            pages2,
            rid,
            height,
            usable,
            id,
        ),
{
    let h = (height - 1) as nat;
    let key = f.keys[m - 1];
    let a = left_fan(f, m);
    let b = right_fan(f, m);
    lemma_fan_split(pages2, f, h, lo, hi, usable, m);
    assert(!fan_uses(pages2, f, h, usable, lid));
    assert(!fan_uses(pages2, f, h, usable, rid));
    assert(!fan_uses(pages2, a, h, usable, lid));
    assert(!fan_uses(pages2, b, h, usable, rid));
    lemma_fan_page(pages2, lid, height, lo, key, usable);
    lemma_fan_page(pages2, rid, height, key, hi, usable);
    assert forall|j: usize| #[trigger] uses(pages2, lid, height, usable, j) implies {
        &&& !uses(pages2, rid, height, usable, j)
        &&& uses(pages, id, height, usable, j) || size < j <= size2
    } by {
        assert(j == lid || fan_uses(pages2, a, h, usable, j));
        if uses(pages2, rid, height, usable, j) {
            assert(j == rid || fan_uses(pages2, b, h, usable, j));
        }
    }
    assert forall|j: usize| #[trigger] uses(pages2, rid, height, usable, j) implies uses(
        pages,
        id,
        height,
        usable,
        j,
    ) || size < j <= size2 by {
        assert(j == rid || fan_uses(pages2, b, h, usable, j));
    }
    if lid != id {
        assert(!fan_uses(pages2, f, h, usable, id));
        assert(!fan_uses(pages2, a, h, usable, id));
        assert(!fan_uses(pages2, b, h, usable, id));
    }
}

/// The row ids between the children, with one more.
proof fn lemma_grown_keys(f: Fan, ci: int, key: int, right: usize, lo: int, hi: int)
    requires
        keys_ok(f, lo, hi),
        0 <= ci < f.kids.len(),
        kid_low(f, ci, lo) <= key <= kid_high(f, ci, hi),
    ensures
        keys_ok(grown_fan(f, ci, key, right), lo, hi),
{
    let g = grown_fan(f, ci, key, right);
    assert forall|i: int| 0 <= i < g.keys.len() implies lo <= #[trigger] g.keys[i] <= hi by {
        if i < ci {
            assert(g.keys[i] == f.keys[i]);
        } else if i > ci {
            assert(g.keys[i] == f.keys[i - 1]);
        } else {
            if ci > 0 {
                assert(lo <= f.keys[ci - 1]);
            }
            if ci < f.keys.len() {
                assert(f.keys[ci] <= hi);
            }
        }
    }
    assert forall|i: int, j: int| 0 <= i < j < g.keys.len() implies #[trigger] g.keys[i]
        <= #[trigger] g.keys[j] by {
        let a = if i < ci {
            i
        } else {
            i - 1
        };
        let b = if j < ci {
            j
        } else {
            j - 1
        };
        if i == ci {
            assert(g.keys[j] == f.keys[b]);
            assert(f.keys[ci] <= f.keys[b]);
        } else if j == ci {
            assert(g.keys[i] == f.keys[a]);
            assert(f.keys[a] <= f.keys[ci - 1]);
        } else {
            assert(g.keys[i] == f.keys[a] && g.keys[j] == f.keys[b]);
        }
    }
}

/// The children, with one more, are tables.
#[verifier::rlimit(30)]
proof fn lemma_grown_kids(
    pages: Map<usize, PageState>,
    pages2: Map<usize, PageState>,
    f: Fan,
    ci: int,
    key: int,
    right: usize,
    height: nat,
    lo: int,
    hi: int,
    usable: int,
)
    requires
        keys_ok(f, lo, hi),
        0 <= ci < f.kids.len(),
        forall|j: int|
            0 <= j < f.kids.len() && j != ci ==> #[trigger] same_kid(
                pages,
                pages2,
                f,
                height,
                lo,
                hi,
                usable,
                j,
            ),
        table(pages2, f.kids[ci], height, kid_low(f, ci, lo), key, usable),
        table(pages2, right, height, key, kid_high(f, ci, hi), usable),
        sole(pages2, f.kids[ci], height, usable),
        sole(pages2, right, height, usable),
    ensures
        ({
            let g = grown_fan(f, ci, key, right);
            forall|j: int|
                0 <= j < g.kids.len() ==> #[trigger] kid_ok(
                    pages2,
                    g,
                    height,
                    lo,
                    hi,
                    usable,
                    j,
                )
        }),
{
    let g = grown_fan(f, ci, key, right);
    assert forall|j: int| 0 <= j < g.kids.len() implies #[trigger] kid_ok(
        pages2,
        g,
        height,
        lo,
        hi,
        usable,
        j,
    ) by {
        if j < ci {
            assert(same_kid(pages, pages2, f, height, lo, hi, usable, j));
            assert(g.kids[j] == f.kids[j]);
            assert(kid_low(g, j, lo) == kid_low(f, j, lo));
            assert(kid_high(g, j, hi) == kid_high(f, j, hi));
        } else if j == ci {
            assert(g.kids[j] == f.kids[j]);
            assert(kid_low(g, j, lo) == kid_low(f, j, lo));
            assert(kid_high(g, j, hi) == key);
        } else if j == ci + 1 {
            assert(g.kids[j] == right);
            assert(kid_low(g, j, lo) == key);
            assert(kid_high(g, j, hi) == kid_high(f, ci, hi));
        } else {
            assert(same_kid(pages, pages2, f, height, lo, hi, usable, j - 1));
            assert(g.kids[j] == f.kids[j - 1]);
            assert(kid_low(g, j, lo) == kid_low(f, j - 1, lo));
            assert(kid_high(g, j, hi) == kid_high(f, j - 1, hi));
        }
    }
}

/// The children, with one more, share no page.
proof fn lemma_grown_apart(
    pages: Map<usize, PageState>,
    pages2: Map<usize, PageState>,
    f: Fan,
    ci: int,
    key: int,
    right: usize,
    height: nat,
    lo: int,
    hi: int,
    usable: int,
    size: int,
    size2: int,
)
    requires
        0 <= ci < f.kids.len(),
        forall|j: int|
            0 <= j < f.kids.len() && j != ci ==> #[trigger] same_kid(
                pages,
                pages2,
                f,
                height,
                lo,
                hi,
                usable,
                j,
            ),
        forall|i: int, j: int, k: usize|
            0 <= i < j < f.kids.len() ==> !(#[trigger] uses(pages, f.kids[i], height, usable, k)
                && #[trigger] uses(pages, f.kids[j], height, usable, k)),
        forall|k: usize| #[trigger] fan_uses(pages, f, height, usable, k) ==> k <= size,
        forall|k: usize| #[trigger]
            uses(pages2, f.kids[ci], height, usable, k) ==> !uses(
                pages2,
                right,
                height,
                usable,
                k,
            ),
        forall|k: usize| #[trigger]
            uses(pages2, f.kids[ci], height, usable, k) ==> uses(
                pages,
                f.kids[ci],
                height,
                usable,
                k,
            ) || size < k <= size2,
        forall|k: usize| #[trigger]
            uses(pages2, right, height, usable, k) ==> uses(
                pages,
                f.kids[ci],
                height,
                usable,
                k,
            ) || size < k <= size2,
    ensures
        ({
            let g = grown_fan(f, ci, key, right);
            &&& forall|i: int, j: int, k: usize|
                0 <= i < j < g.kids.len() ==> !(#[trigger] uses(
                    pages2,
                    g.kids[i],
                    height,
                    usable,
                    k,
                ) && #[trigger] uses(pages2, g.kids[j], height, usable, k))
            &&& forall|k: usize| #[trigger]
                fan_uses(pages2, g, height, usable, k) ==> fan_uses(
                    pages,
                    f,
                    height,
                    usable,
                    k,
                ) || size < k <= size2
        }),
{
    let g = grown_fan(f, ci, key, right);
    assert forall|j: int, k: usize|
        0 <= j < g.kids.len() && #[trigger] uses(pages2, g.kids[j], height, usable, k) implies {
        let i = kid_before(ci, j);
        ||| uses(pages, f.kids[i], height, usable, k) && k <= size
        ||| i == ci && size < k <= size2
    } by {
        let i = kid_before(ci, j);
        if i != ci {
            assert(g.kids[j] == f.kids[i]);
            assert(same_kid(pages, pages2, f, height, lo, hi, usable, i));
            assert(uses(pages, f.kids[i], height, usable, k));
            assert(fan_uses(pages, f, height, usable, k));
        } else if uses(pages, f.kids[i], height, usable, k) {
            assert(fan_uses(pages, f, height, usable, k));
        }
    }
    assert forall|i: int, j: int, k: usize| 0 <= i < j < g.kids.len() implies !(#[trigger] uses(
        pages2,
        g.kids[i],
        height,
        usable,
        k,
    ) && #[trigger] uses(pages2, g.kids[j], height, usable, k)) by {
        let a = kid_before(ci, i);
        let b = kid_before(ci, j);
        if a == b {
            assert(g.kids[i] == f.kids[ci] && g.kids[j] == right);
        } else if uses(pages2, g.kids[i], height, usable, k) && uses(
            pages2,
            g.kids[j],
            height,
            usable,
            k,
        ) {
            assert(!(uses(pages, f.kids[a], height, usable, k) && uses(
                pages,
                f.kids[b],
                height,
                usable,
                k,
            )));
        }
    }
    assert forall|k: usize| #[trigger] fan_uses(pages2, g, height, usable, k) implies fan_uses(
        pages,
        f,
        height,
        usable,
        k,
    ) || size < k <= size2 by {
        let j = choose|j: int|
            0 <= j < g.kids.len() && #[trigger] uses(pages2, g.kids[j], height, usable, k);
        let i = kid_before(ci, j);
        if uses(pages, f.kids[i], height, usable, k) {
            assert(fan_uses(pages, f, height, usable, k));
        }
    }
}

/// The rows of the children, with one more.
proof fn lemma_grown_rows(
    pages: Map<usize, PageState>,
    pages2: Map<usize, PageState>,
    f: Fan,
    ci: int,
    key: int,
    right: usize,
    height: nat,
    lo: int,
    hi: int,
    usable: int,
    row: Row,
    r: int,
) -> (q: int)
    requires
        0 <= ci < f.kids.len(),
        forall|j: int|
            0 <= j < f.kids.len() && j != ci ==> #[trigger] same_kid(
                pages,
                pages2,
                f,
                height,
                lo,
                hi,
                usable,
                j,
            ),
        0 <= r <= rows(pages, f.kids[ci], height, usable).len(),
        rows(pages2, f.kids[ci], height, usable) + rows(pages2, right, height, usable) == rows(
            pages,
            f.kids[ci],
            height,
            usable,
        ).insert(r, row),
    ensures
        ({
            let s = fan_rows(pages, f, height, usable);
            let t = fan_rows(pages2, grown_fan(f, ci, key, right), height, usable);
            &&& 0 <= q <= flat(s).len()
            &&& flat(t) == flat(s).insert(q, row)
        }),
{
    let g = grown_fan(f, ci, key, right);
    let s = fan_rows(pages, f, height, usable);
    let t = fan_rows(pages2, g, height, usable);
    assert forall|j: int| 0 <= j < ci implies #[trigger] t[j] == s[j] by {
        assert(g.kids[j] == f.kids[j]);
        assert(same_kid(pages, pages2, f, height, lo, hi, usable, j));
    }
    assert forall|j: int| ci < j < s.len() implies t[j + 1] == #[trigger] s[j] by {
        assert(g.kids[j + 1] == f.kids[j]);
        assert(same_kid(pages, pages2, f, height, lo, hi, usable, j));
    }
    assert(g.kids[ci] == f.kids[ci] && g.kids[ci + 1] == right);
    lemma_flat_divided(s, t, ci, row, r)
}

} // verus!
