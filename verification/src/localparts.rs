//! How much of a long payload stands in its cell.

use vstd::prelude::*;
use crate::page::{max_local, min_local, spilled_local, PageType};

verus! {

/// Whether a payload of `len` bytes, of which `k` stand in the cell, fills its
/// overflow pages. Each of them has room for `usable - 4` bytes.
pub open spec fn fills_pages(len: int, k: int, usable: int) -> bool {
    (len - k) % (usable - 4) == 0
}

/// Whether `m` is the whole part of `n` 255ths of the usable bytes behind a page
/// header, less 23.
pub open spec fn is_share(m: int, n: int, usable: int) -> bool {
    255 * (m + 23) <= n * (usable - 12) < 255 * (m + 24)
}

/// Whether a payload that is longer than `lo` and `hi` allow has from `lo` to `hi`
/// bytes in its cell, as many as leave no overflow page with room where there is
/// such a number, and `lo` where there is none.
pub open spec fn is_local_part(k: int, len: int, lo: int, hi: int, usable: int) -> bool {
    &&& lo <= k <= hi
    &&& (exists|j: int| lo <= j <= hi && #[trigger] fills_pages(len, j, usable)) ==> fills_pages(
        len,
        k,
        usable,
    )
    &&& (forall|j: int| lo <= j <= hi ==> !#[trigger] fills_pages(len, j, usable)) ==> k == lo
}

/// Whether a payload stands in its cell as a whole up to `hi` bytes, and a longer
/// one has `lo` bytes there at least. A leaf keeps 35 bytes of the page free; on
/// the other pages the payload gets 64 of 255 parts of the page, and in any case 32.
pub open spec fn are_limits(lo: int, hi: int, t: PageType, usable: int) -> bool {
    &&& 196 <= usable <= 65535
    &&& is_share(lo, 32, usable)
    &&& if t == PageType::TableLeaf || t == PageType::IndexLeaf {
        hi + 35 == usable
    } else {
        is_share(hi, 64, usable)
    }
}

/// A payload that is too long for its cell leaves as much there as fills its
/// overflow pages, or the least part allowed where no part does.
pub proof fn local_part_fills_pages(len: int, t: PageType, usable: int, lo: int, hi: int)
    requires
        are_limits(lo, hi, t, usable),
    ensures
        max_local(t, usable) == hi,
        min_local(usable) == lo,
        len > hi ==> is_local_part(spilled_local(len, t, usable), len, lo, hi, usable),
{
    let k0 = lo + (len - lo) % (usable - 4);
    if len > hi {
        lemma_remainder(len, lo, usable - 4);
        assert(fills_pages(len, k0, usable));
        assert forall|j: int| lo <= j <= hi && #[trigger] fills_pages(len, j, usable) implies j
            == k0 by {
            lemma_remainder_is(len, lo, j, usable - 4);
        }
    }
}

/// What a remainder leaves is a multiple.
proof fn lemma_remainder(len: int, lo: int, m: int)
    requires
        m > 0,
    ensures
        0 <= (len - lo) % m < m,
        (len - (lo + (len - lo) % m)) % m == 0,
{
    let d = len - lo;
    vstd::arithmetic::div_mod::lemma_fundamental_div_mod(d, m);
    vstd::arithmetic::div_mod::lemma_mod_multiples_basic(d / m, m);
    assert(len - (lo + d % m) == m * (d / m));
    assert(m * (d / m) == (d / m) * m) by (nonlinear_arith);
}

/// Only the remainder leaves a multiple.
proof fn lemma_remainder_is(len: int, lo: int, j: int, m: int)
    requires
        m > 0,
        lo <= j < lo + m,
        (len - j) % m == 0,
    ensures
        j == lo + (len - lo) % m,
{
    let a = len - j;
    let b = j - lo;
    assert(len - lo == a + b);
    vstd::arithmetic::div_mod::lemma_fundamental_div_mod(a, m);
    vstd::arithmetic::div_mod::lemma_mod_multiples_vanish(a / m, b, m);
    assert(m * (a / m) + b == a + b);
    vstd::arithmetic::div_mod::lemma_small_mod(b as nat, m as nat);
}

} // verus!
