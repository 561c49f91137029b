//! The children of an interior page, and what becomes of a table when they are
//! shared out or one of them becomes two.

use vstd::prelude::*;
use crate::page::{PageModel, PageType};
use crate::pager::{loaded, page_of, PageState};
use crate::sharing::{lemma_insert_within, sole, uses};
use crate::tables::{child_at, high, low, rows, rows_from, separator, table, table_node, Row};

verus! {

/// The children of an interior page and the row ids between them.
#[verifier::ext_equal]
pub struct Fan {
    pub kids: Seq<usize>,
    pub keys: Seq<int>,
}

/// The children of a page and the row ids between them.
pub open spec fn fan_of(page: PageModel, usable: int) -> Fan {
    Fan {
        kids: Seq::new((page.cell_count() + 1) as nat, |i: int| child_at(page, i, usable)),
        keys: Seq::new(page.cell_count() as nat, |i: int| separator(page, i, usable)),
    }
}

/// The bound below the rows of child `j`, where those of all are above `lo`.
pub open spec fn kid_low(f: Fan, j: int, lo: int) -> int {
    if j == 0 {
        lo
    } else {
        f.keys[j - 1]
    }
}

/// The greatest row id of child `j`, where those of all go up to `hi`.
pub open spec fn kid_high(f: Fan, j: int, hi: int) -> int {
    if j < f.keys.len() {
        f.keys[j]
    } else {
        hi
    }
}

/// Whether the row ids between children ascend between `lo` and `hi`.
pub open spec fn keys_ok(f: Fan, lo: int, hi: int) -> bool {
    &&& f.kids.len() == f.keys.len() + 1
    &&& lo <= hi
    &&& forall|i: int| 0 <= i < f.keys.len() ==> lo <= #[trigger] f.keys[i] <= hi
    &&& forall|i: int, j: int|
        0 <= i < j < f.keys.len() ==> #[trigger] f.keys[i] <= #[trigger] f.keys[j]
}

/// Whether child `j` is a table with row ids in its bounds that uses no page twice.
pub open spec fn kid_ok(
    pages: Map<usize, PageState>,
    f: Fan,
    height: nat,
    lo: int,
    hi: int,
    usable: int,
    j: int,
) -> bool {
    &&& table(pages, f.kids[j], height, kid_low(f, j, lo), kid_high(f, j, hi), usable)
    &&& sole(pages, f.kids[j], height, usable)
}

/// Whether the children are tables, one behind the other, that share no page.
pub open spec fn fan_ok(
    pages: Map<usize, PageState>,
    f: Fan,
    height: nat,
    lo: int,
    hi: int,
    usable: int,
) -> bool {
    &&& keys_ok(f, lo, hi)
    &&& forall|j: int|
        0 <= j < f.kids.len() ==> #[trigger] kid_ok(pages, f, height, lo, hi, usable, j)
    &&& forall|i: int, j: int, k: usize|
        0 <= i < j < f.kids.len() ==> !(#[trigger] uses(pages, f.kids[i], height, usable, k)
            && #[trigger] uses(pages, f.kids[j], height, usable, k))
}

/// Whether one of the children uses page `k`.
pub open spec fn fan_uses(
    pages: Map<usize, PageState>,
    f: Fan,
    height: nat,
    usable: int,
    k: usize,
) -> bool {
    exists|j: int| 0 <= j < f.kids.len() && #[trigger] uses(pages, f.kids[j], height, usable, k)
}

/// The rows of each child.
pub open spec fn fan_rows(
    pages: Map<usize, PageState>,
    f: Fan,
    height: nat,
    usable: int,
) -> Seq<Seq<Row>> {
    Seq::new(f.kids.len(), |j: int| rows(pages, f.kids[j], height, usable))
}

/// Rows one behind the other.
pub open spec fn flat(s: Seq<Seq<Row>>) -> Seq<Row>
    decreases s.len(),
{
    if s.len() == 0 {
        Seq::empty()
    } else {
        s[0] + flat(s.drop_first())
    }
}

proof fn lemma_flat_joined(a: Seq<Seq<Row>>, b: Seq<Seq<Row>>)
    ensures
        flat(a + b) == flat(a) + flat(b),
    decreases a.len(),
{
    if a.len() == 0 {
        assert(a + b =~= b);
        assert(flat(a) + flat(b) =~= flat(b));
    } else {
        lemma_flat_joined(a.drop_first(), b);
        assert((a + b).drop_first() =~= a.drop_first() + b);
        assert((a + b)[0] == a[0]);
        assert(a[0] + (flat(a.drop_first()) + flat(b)) =~= a[0] + flat(a.drop_first()) + flat(b));
    }
}

/// Rows of which those at `i` got one more, on two places.
pub proof fn lemma_flat_divided(
    s: Seq<Seq<Row>>,
    t: Seq<Seq<Row>>,
    i: int,
    row: Row,
    r: int,
) -> (q: int)
    requires
        0 <= i < s.len(),
        t.len() == s.len() + 1,
        forall|j: int| 0 <= j < i ==> #[trigger] t[j] == s[j],
        forall|j: int| i < j < s.len() ==> t[j + 1] == #[trigger] s[j],
        0 <= r <= s[i].len(),
        t[i] + t[i + 1] == s[i].insert(r, row),
    ensures
        0 <= q <= flat(s).len(),
        flat(t) == flat(s).insert(q, row),
{
    let front = s.take(i);
    let back = s.skip(i + 1);
    assert(s =~= front + (seq![s[i]] + back));
    let u = front + (seq![t[i]] + (seq![t[i + 1]] + back));
    assert forall|j: int| 0 <= j < t.len() implies #[trigger] t[j] == u[j] by {
        if j > i + 1 {
            assert(t[j] == s[j - 1]);
        }
    }
    assert(t =~= u);
    lemma_flat_joined(front, seq![s[i]] + back);
    lemma_flat_joined(front, seq![t[i]] + (seq![t[i + 1]] + back));
    lemma_flat_first(s[i], back);
    lemma_flat_first(t[i + 1], back);
    lemma_flat_first(t[i], seq![t[i + 1]] + back);
    assert(t[i] + (t[i + 1] + flat(back)) =~= s[i].insert(r, row) + flat(back));
    lemma_insert_within(flat(front), s[i], flat(back), row, r);
    flat(front).len() + r
}

proof fn lemma_flat_first(a: Seq<Row>, b: Seq<Seq<Row>>)
    ensures
        flat(seq![a] + b) == a + flat(b),
{
    assert((seq![a] + b).drop_first() =~= b);
}

/// The rows of a page are those of its children, one behind the other.
proof fn lemma_rows_flat(
    pages: Map<usize, PageState>,
    page: PageModel,
    height: nat,
    usable: int,
    i: nat,
)
    requires
        height > 0,
        i <= page.cell_count() + 1,
    ensures
        rows_from(pages, page, height, i, usable) == flat(
            fan_rows(pages, fan_of(page, usable), (height - 1) as nat, usable).skip(i as int),
        ),
    decreases page.cell_count() + 1 - i,
{
    let s = fan_rows(pages, fan_of(page, usable), (height - 1) as nat, usable);
    if i <= page.cell_count() {
        lemma_rows_flat(pages, page, height, usable, i + 1);
        assert(s.skip(i as int).drop_first() =~= s.skip(i as int + 1));
        assert(s.skip(i as int)[0] == s[i as int]);
    } else {
        assert(s.skip(i as int) =~= Seq::empty());
    }
}

/// The children of an interior page of a table.
pub proof fn lemma_page_fan(
    pages: Map<usize, PageState>,
    id: usize,
    height: nat,
    lo: int,
    hi: int,
    usable: int,
)
    requires
        height > 0,
        table(pages, id, height, lo, hi, usable),
        sole(pages, id, height, usable),
    ensures
        ({
            let f = fan_of(page_of(pages, id), usable);
            let h = (height - 1) as nat;
            &&& fan_ok(pages, f, h, lo, hi, usable)
            &&& rows(pages, id, height, usable) == flat(fan_rows(pages, f, h, usable))
            &&& !fan_uses(pages, f, h, usable, id)
            &&& forall|k: usize| #[trigger]
                fan_uses(pages, f, h, usable, k) ==> uses(pages, id, height, usable, k)
        }),
{
    let page = page_of(pages, id);
    let f = fan_of(page, usable);
    let h = (height - 1) as nat;
    lemma_rows_flat(pages, page, height, usable, 0);
    assert(fan_rows(pages, f, h, usable).skip(0) =~= fan_rows(pages, f, h, usable));
    assert forall|i: int| 0 <= i < f.keys.len() implies lo <= #[trigger] f.keys[i] <= hi by {
        assert(page.head(i, usable) is Some);
    }
    assert forall|i: int, j: int| 0 <= i < j < f.keys.len() implies #[trigger] f.keys[i]
        <= #[trigger] f.keys[j] by {
        assert(page.head(i, usable) is Some && page.head(j, usable) is Some);
    }
    assert forall|j: int| 0 <= j < f.kids.len() implies #[trigger] kid_ok(
        pages,
        f,
        h,
        lo,
        hi,
        usable,
        j,
    ) by {
        assert(f.kids[j] == child_at(page, j, usable));
    }
    assert forall|i: int, j: int, k: usize| 0 <= i < j < f.kids.len() implies !(#[trigger] uses(
        pages,
        f.kids[i],
        h,
        usable,
        k,
    ) && #[trigger] uses(pages, f.kids[j], h, usable, k)) by {
        assert(f.kids[i] == child_at(page, i, usable));
        assert(f.kids[j] == child_at(page, j, usable));
    }
    assert forall|k: usize| #[trigger] fan_uses(pages, f, h, usable, k) implies uses(
        pages,
        id,
        height,
        usable,
        k,
    ) && k != id by {
        let j = choose|j: int|
            0 <= j < f.kids.len() && #[trigger] uses(pages, f.kids[j], h, usable, k);
        assert(f.kids[j] == child_at(page, j, usable));
    }
}

/// An interior page whose children are tables is a table.
pub proof fn lemma_fan_page(
    pages: Map<usize, PageState>,
    id: usize,
    height: nat,
    lo: int,
    hi: int,
    usable: int,
)
    requires
        height > 0,
        loaded(pages, id),
        page_of(pages, id).page_type() == Some(PageType::TableInterior),
        forall|i: int|
            0 <= i < page_of(pages, id).cell_count() ==> (#[trigger] page_of(pages, id).head(
                i,
                usable,
            )) is Some,
        ({
            let f = fan_of(page_of(pages, id), usable);
            let h = (height - 1) as nat;
            &&& fan_ok(pages, f, h, lo, hi, usable)
            &&& !fan_uses(pages, f, h, usable, id)
        }),
    ensures
        table(pages, id, height, lo, hi, usable),
        sole(pages, id, height, usable),
        ({
            let f = fan_of(page_of(pages, id), usable);
            let h = (height - 1) as nat;
            &&& rows(pages, id, height, usable) == flat(fan_rows(pages, f, h, usable))
            &&& forall|k: usize| #[trigger]
                uses(pages, id, height, usable, k) ==> k == id || fan_uses(
                    pages,
                    f,
                    h,
                    usable,
                    k,
                )
        }),
{
    let page = page_of(pages, id);
    let f = fan_of(page, usable);
    let h = (height - 1) as nat;
    lemma_rows_flat(pages, page, height, usable, 0);
    assert(fan_rows(pages, f, h, usable).skip(0) =~= fan_rows(pages, f, h, usable));
    assert(table_node(page, lo, hi, usable)) by {
        assert forall|i: int| 0 <= i < page.cell_count() implies {
            &&& (#[trigger] page.head(i, usable)) is Some
            &&& lo <= separator(page, i, usable) <= hi
        } by {
            assert(f.keys[i] == separator(page, i, usable));
        }
        assert forall|i: int, j: int| 0 <= i < j < page.cell_count() implies (#[trigger] page.head(
            i,
            usable,
        )).unwrap().rowid <= (#[trigger] page.head(j, usable)).unwrap().rowid by {
            assert(f.keys[i] == separator(page, i, usable));
            assert(f.keys[j] == separator(page, j, usable));
        }
    }
    assert forall|i: int| 0 <= i <= page.cell_count() implies {
        &&& table(
            pages,
            #[trigger] child_at(page, i, usable),
            h,
            low(page, i, lo, usable),
            high(page, i, hi, usable),
            usable,
        )
        &&& sole(pages, child_at(page, i, usable), h, usable)
        &&& !uses(pages, child_at(page, i, usable), h, usable, id)
    } by {
        assert(f.kids[i] == child_at(page, i, usable));
        assert(kid_ok(pages, f, h, lo, hi, usable, i));
        assert(kid_low(f, i, lo) == low(page, i, lo, usable));
        assert(kid_high(f, i, hi) == high(page, i, hi, usable));
    }
    assert forall|i: int, j: int, k: usize| 0 <= i < j <= page.cell_count() implies !(
    #[trigger] uses(pages, child_at(page, i, usable), h, usable, k) && #[trigger] uses(
        pages,
        child_at(page, j, usable),
        h,
        usable,
        k,
    )) by {
        assert(f.kids[i] == child_at(page, i, usable));
        assert(f.kids[j] == child_at(page, j, usable));
    }
    assert forall|k: usize| #[trigger] uses(pages, id, height, usable, k) && k != id implies fan_uses(
        pages,
        f,
        h,
        usable,
        k,
    ) by {
        let i = choose|i: int|
            0 <= i <= page.cell_count() && uses(
                pages,
                #[trigger] child_at(page, i, usable),
                h,
                usable,
                k,
            );
        assert(f.kids[i] == child_at(page, i, usable));
    }
}

/// The first `m` children.
pub open spec fn left_fan(f: Fan, m: int) -> Fan {
    Fan { kids: f.kids.take(m), keys: f.keys.take(m - 1) }
}

/// The children behind the first `m`.
pub open spec fn right_fan(f: Fan, m: int) -> Fan {
    Fan { kids: f.kids.skip(m), keys: f.keys.skip(m) }
}

/// Children that are shared out to two pages are tables there too.
pub proof fn lemma_fan_split(
    pages: Map<usize, PageState>,
    f: Fan,
    height: nat,
    lo: int,
    hi: int,
    usable: int,
    m: int,
)
    requires
        fan_ok(pages, f, height, lo, hi, usable),
        1 <= m <= f.keys.len(),
    ensures
        lo <= f.keys[m - 1] <= hi,
        fan_ok(pages, left_fan(f, m), height, lo, f.keys[m - 1], usable),
        fan_ok(pages, right_fan(f, m), height, f.keys[m - 1], hi, usable),
        flat(fan_rows(pages, left_fan(f, m), height, usable)) + flat(
            fan_rows(pages, right_fan(f, m), height, usable),
        ) == flat(fan_rows(pages, f, height, usable)),
        forall|k: usize| #[trigger]
            fan_uses(pages, left_fan(f, m), height, usable, k) ==> fan_uses(
                pages,
                f,
                height,
                usable,
                k,
            ) && !fan_uses(pages, right_fan(f, m), height, usable, k),
        forall|k: usize| #[trigger]
            fan_uses(pages, right_fan(f, m), height, usable, k) ==> fan_uses(
                pages,
                f,
                height,
                usable,
                k,
            ),
{
    lemma_left_fan(pages, f, height, lo, hi, usable, m);
    lemma_right_fan(pages, f, height, lo, hi, usable, m);
    lemma_fan_parts(pages, f, height, usable, m);
    let a = fan_rows(pages, left_fan(f, m), height, usable);
    let b = fan_rows(pages, right_fan(f, m), height, usable);
    lemma_flat_joined(a, b);
    assert(a + b =~= fan_rows(pages, f, height, usable));
}

proof fn lemma_left_fan(
    pages: Map<usize, PageState>,
    f: Fan,
    height: nat,
    lo: int,
    hi: int,
    usable: int,
    m: int,
)
    requires
        fan_ok(pages, f, height, lo, hi, usable),
        1 <= m <= f.keys.len(),
    ensures
        fan_ok(pages, left_fan(f, m), height, lo, f.keys[m - 1], usable),
{
    let a = left_fan(f, m);
    let key = f.keys[m - 1];
    assert forall|j: int| 0 <= j < a.kids.len() implies #[trigger] kid_ok(
        pages,
        a,
        height,
        lo,
        key,
        usable,
        j,
    ) by {
        assert(kid_ok(pages, f, height, lo, hi, usable, j));
        assert(a.kids[j] == f.kids[j]);
        assert(kid_low(a, j, lo) == kid_low(f, j, lo));
        assert(kid_high(a, j, key) == kid_high(f, j, hi));
    }
    assert forall|i: int| 0 <= i < a.keys.len() implies lo <= #[trigger] a.keys[i] <= key by {
        assert(a.keys[i] == f.keys[i]);
    }
    assert(keys_ok(a, lo, key));
    assert forall|i: int, j: int, k: usize| 0 <= i < j < a.kids.len() implies !(#[trigger] uses(
        pages,
        a.kids[i],
        height,
        usable,
        k,
    ) && #[trigger] uses(pages, a.kids[j], height, usable, k)) by {
        assert(a.kids[i] == f.kids[i] && a.kids[j] == f.kids[j]);
    }
}

proof fn lemma_right_fan(
    pages: Map<usize, PageState>,
    f: Fan,
    height: nat,
    lo: int,
    hi: int,
    usable: int,
    m: int,
)
    requires
        fan_ok(pages, f, height, lo, hi, usable),
        1 <= m <= f.keys.len(),
    ensures
        fan_ok(pages, right_fan(f, m), height, f.keys[m - 1], hi, usable),
{
    let b = right_fan(f, m);
    let key = f.keys[m - 1];
    assert forall|j: int| 0 <= j < b.kids.len() implies #[trigger] kid_ok(
        pages,
        b,
        height,
        key,
        hi,
        usable,
        j,
    ) by {
        assert(kid_ok(pages, f, height, lo, hi, usable, m + j));
        assert(b.kids[j] == f.kids[m + j]);
        assert(kid_low(b, j, key) == kid_low(f, m + j, lo));
        assert(kid_high(b, j, hi) == kid_high(f, m + j, hi));
    }
    assert forall|i: int| 0 <= i < b.keys.len() implies key <= #[trigger] b.keys[i] <= hi by {
        assert(b.keys[i] == f.keys[m + i]);
    }
    assert(keys_ok(b, key, hi));
    assert forall|i: int, j: int, k: usize| 0 <= i < j < b.kids.len() implies !(#[trigger] uses(
        pages,
        b.kids[i],
        height,
        usable,
        k,
    ) && #[trigger] uses(pages, b.kids[j], height, usable, k)) by {
        assert(b.kids[i] == f.kids[m + i] && b.kids[j] == f.kids[m + j]);
    }
}

proof fn lemma_fan_parts(
    pages: Map<usize, PageState>,
    f: Fan,
    height: nat,
    usable: int,
    m: int,
)
    requires
        0 <= m <= f.kids.len(),
        forall|i: int, j: int, k: usize|
            0 <= i < j < f.kids.len() ==> !(#[trigger] uses(pages, f.kids[i], height, usable, k)
                && #[trigger] uses(pages, f.kids[j], height, usable, k)),
    ensures
        forall|k: usize| #[trigger]
            fan_uses(pages, left_fan(f, m), height, usable, k) ==> fan_uses(
                pages,
                f,
                height,
                usable,
                k,
            ) && !fan_uses(pages, right_fan(f, m), height, usable, k),
        forall|k: usize| #[trigger]
            fan_uses(pages, right_fan(f, m), height, usable, k) ==> fan_uses(
                pages,
                f,
                height,
                usable,
                k,
            ),
{
    let a = left_fan(f, m);
    let b = right_fan(f, m);
    assert forall|k: usize| #[trigger] fan_uses(pages, b, height, usable, k) implies fan_uses(
        pages,
        f,
        height,
        usable,
        k,
    ) by {
        let j = choose|j: int|
            0 <= j < b.kids.len() && #[trigger] uses(pages, b.kids[j], height, usable, k);
        assert(b.kids[j] == f.kids[m + j]);
        assert(uses(pages, f.kids[m + j], height, usable, k));
    }
    assert forall|k: usize| #[trigger] fan_uses(pages, a, height, usable, k) implies fan_uses(
        pages,
        f,
        height,
        usable,
        k,
    ) && !fan_uses(pages, b, height, usable, k) by {
        let i = choose|i: int|
            0 <= i < a.kids.len() && #[trigger] uses(pages, a.kids[i], height, usable, k);
        assert(a.kids[i] == f.kids[i]);
        assert(uses(pages, f.kids[i], height, usable, k));
        if fan_uses(pages, b, height, usable, k) {
            let j = choose|j: int|
                0 <= j < b.kids.len() && #[trigger] uses(pages, b.kids[j], height, usable, k);
            assert(b.kids[j] == f.kids[m + j]);
            assert(uses(pages, f.kids[m + j], height, usable, k));
        }
    }
}

} // verus!
