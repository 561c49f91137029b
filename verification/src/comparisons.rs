//! What the order of bytes, numbers, values and records is.

use vstd::prelude::*;
use crate::order::{
    bytes_order, exponent, int_order, int_real_order, lies_left, magnitude_order, pow2, real_key,
    record_order, satisfies, significand, value_order, Relation, SeekOp,
};
use crate::record::ValueModel;

verus! {

// ---------------------------------------------------------------------------
// Bytes and records
// ---------------------------------------------------------------------------

/// Strings of bytes that agree on the first `i` bytes are ordered by byte `i`,
/// however long they are.
pub proof fn first_other_byte_decides(a: Seq<u8>, b: Seq<u8>, i: int)
    requires
        0 <= i < a.len(),
        i < b.len(),
        forall|j: int| 0 <= j < i ==> a[j] == b[j],
        a[i] != b[i],
    ensures
        a[i] < b[i] ==> bytes_order(a, b) == Relation::Less,
        a[i] > b[i] ==> bytes_order(a, b) == Relation::Greater,
    decreases i,
{
    if i > 0 {
        assert(a[0] == b[0]);
        let x = a.drop_first();
        let y = b.drop_first();
        assert forall|j: int| 0 <= j < i - 1 implies x[j] == y[j] by {
            assert(a[j + 1] == b[j + 1]);
        }
        first_other_byte_decides(x, y, i - 1);
    }
}

/// Of two strings of bytes, one of which goes on where the other ends, the
/// shorter one stands first; if both end there they are equal.
pub proof fn shorter_bytes_stand_first(a: Seq<u8>, b: Seq<u8>)
    requires
        a.len() <= b.len(),
        forall|j: int| 0 <= j < a.len() ==> a[j] == b[j],
    ensures
        a.len() < b.len() ==> bytes_order(a, b) == Relation::Less && bytes_order(b, a)
            == Relation::Greater,
        a.len() == b.len() ==> bytes_order(a, b) == Relation::Equal,
    decreases a.len(),
{
    if a.len() > 0 {
        assert(a[0] == b[0]);
        let x = a.drop_first();
        let y = b.drop_first();
        assert forall|j: int| 0 <= j < x.len() implies x[j] == y[j] by {
            assert(a[j + 1] == b[j + 1]);
        }
        shorter_bytes_stand_first(x, y);
    }
}

/// Records whose first `i` values are equal in pairs are ordered by value `i`,
/// however many values they have.
pub proof fn first_other_value_decides(a: Seq<ValueModel>, b: Seq<ValueModel>, i: int)
    requires
        0 <= i < a.len(),
        i < b.len(),
        forall|j: int| 0 <= j < i ==> value_order(#[trigger] a[j], b[j]) == Relation::Equal,
        value_order(a[i], b[i]) != Relation::Equal,
    ensures
        record_order(a, b) == value_order(a[i], b[i]),
    decreases i,
{
    if i > 0 {
        assert(value_order(a[0], b[0]) == Relation::Equal);
        let x = a.drop_first();
        let y = b.drop_first();
        assert forall|j: int| 0 <= j < i - 1 implies value_order(#[trigger] x[j], y[j])
            == Relation::Equal by {
            assert(value_order(a[j + 1], b[j + 1]) == Relation::Equal);
        }
        first_other_value_decides(x, y, i - 1);
    }
}

/// Of two records, one of which goes on where the other ends, the shorter one
/// stands first; if both end there they are equal.
pub proof fn shorter_record_stands_first(a: Seq<ValueModel>, b: Seq<ValueModel>)
    requires
        a.len() <= b.len(),
        forall|j: int|
            0 <= j < a.len() ==> value_order(#[trigger] a[j], b[j]) == Relation::Equal
                && value_order(b[j], a[j]) == Relation::Equal,
    ensures
        a.len() < b.len() ==> record_order(a, b) == Relation::Less && record_order(b, a)
            == Relation::Greater,
        a.len() == b.len() ==> record_order(a, b) == Relation::Equal,
    decreases a.len(),
{
    if a.len() > 0 {
        assert(value_order(a[0], b[0]) == Relation::Equal);
        let x = a.drop_first();
        let y = b.drop_first();
        assert forall|j: int| 0 <= j < x.len() implies value_order(#[trigger] x[j], y[j])
            == Relation::Equal && value_order(y[j], x[j]) == Relation::Equal by {
            assert(value_order(a[j + 1], b[j + 1]) == Relation::Equal);
        }
        shorter_record_stands_first(x, y);
    }
}

// ---------------------------------------------------------------------------
// Numbers
// ---------------------------------------------------------------------------

/// 2 to the power `n`.
pub open spec fn two_to(n: nat) -> int
    decreases n,
{
    if n == 0 {
        1
    } else {
        two_to((n - 1) as nat) + two_to((n - 1) as nat)
    }
}

/// The floating-point number with these bits, times 2 to the power 1074, which
/// makes it an integer. The sign is the top bit, then come eleven bits `e` of
/// exponent and 52 bits `f` of fraction: without `e` the number is `f`, else
/// `2^52 + f` times 2 to the power `e - 1`.
pub open spec fn scaled_real(bits: int) -> int {
    let e = bits / 0x10_0000_0000_0000 % 2048;
    let f = bits % 0x10_0000_0000_0000;
    let m = if e == 0 {
        f
    } else {
        (0x10_0000_0000_0000 + f) * two_to((e - 1) as nat)
    };
    if bits >= 0x8000_0000_0000_0000 {
        -m
    } else {
        m
    }
}

/// A number as an integer, times 2 to the power 1074.
pub open spec fn scaled_number(v: ValueModel) -> int {
    match v {
        ValueModel::Integer(i) => i * two_to(1074),
        ValueModel::Real(b) => scaled_real(b),
        _ => 0,
    }
}

/// Whether `r` tells how `a` stands to `b`.
pub open spec fn compares(r: Relation, a: int, b: int) -> bool {
    match r {
        Relation::Less => a < b,
        Relation::Equal => a == b,
        Relation::Greater => a > b,
    }
}

/// Whether a value is a number that has a place among the others: an integer of 64
/// bits, or a floating-point number that is not a NaN.
pub open spec fn is_number(v: ValueModel) -> bool {
    match v {
        ValueModel::Integer(i) => i64::MIN <= i <= i64::MAX,
        ValueModel::Real(b) => 0 <= b <= u64::MAX && b % 0x8000_0000_0000_0000
            <= 0x7ff0_0000_0000_0000,
        _ => false,
    }
}

proof fn lemma_two_to(n: nat)
    ensures
        two_to(n) == pow2(n),
        two_to(n) >= 1,
    decreases n,
{
    if n > 0 {
        lemma_two_to((n - 1) as nat);
    }
}

proof fn lemma_two_to_sum(a: nat, b: nat)
    ensures
        two_to(a + b) == two_to(a) * two_to(b),
    decreases a,
{
    if a > 0 {
        lemma_two_to_sum((a - 1) as nat, b);
        let x = two_to((a - 1) as nat);
        let y = two_to(b);
        assert((x + x) * y == x * y + x * y) by (nonlinear_arith);
    } else {
        assert(1 * two_to(b) == two_to(b)) by (nonlinear_arith);
    }
}

proof fn lemma_two_to_monotonic(a: nat, b: nat)
    requires
        a <= b,
    ensures
        1 <= two_to(a) <= two_to(b),
    decreases b,
{
    lemma_two_to(a);
    if a < b {
        lemma_two_to_monotonic(a, (b - 1) as nat);
    }
}

/// The magnitude of a scaled number.
proof fn lemma_scaled_magnitude(m: int)
    requires
        0 <= m < 0x8000_0000_0000_0000,
    ensures
        scaled_real(m) >= 0,
        m > 0 ==> scaled_real(m) > 0,
        scaled_real(0) == 0,
        scaled_real(m + 0x8000_0000_0000_0000) == -scaled_real(m),
        exponent(m) >= -1074,
        significand(m) >= 0,
        scaled_real(m) == significand(m) * two_to((exponent(m) + 1074) as nat),
{
    let e = m / 0x10_0000_0000_0000 % 2048;
    let f = m % 0x10_0000_0000_0000;
    assert(m / 0x10_0000_0000_0000 < 2048);
    assert((m + 0x8000_0000_0000_0000) / 0x10_0000_0000_0000 % 2048 == e);
    assert((m + 0x8000_0000_0000_0000) % 0x10_0000_0000_0000 == f);
    if e == 0 {
        assert(two_to(0) == 1);
        assert(m == f);
        assert(f * 1 == f) by (nonlinear_arith);
    } else {
        lemma_two_to((e - 1) as nat);
        let p = two_to((e - 1) as nat);
        assert((0x10_0000_0000_0000 + f) * p > 0) by (nonlinear_arith)
            requires
                f >= 0,
                p >= 1,
        ;
    }
}

/// Greater magnitudes are greater numbers.
proof fn lemma_scaled_monotonic(a: int, b: int)
    requires
        0 <= a < b < 0x8000_0000_0000_0000,
    ensures
        scaled_real(a) < scaled_real(b),
{
    let ea = a / 0x10_0000_0000_0000;
    let eb = b / 0x10_0000_0000_0000;
    let fa = a % 0x10_0000_0000_0000;
    let fb = b % 0x10_0000_0000_0000;
    assert(ea <= eb < 2048);
    if ea == eb {
        assert(fa < fb);
        if ea > 0 {
            let p = two_to((ea - 1) as nat);
            lemma_two_to((ea - 1) as nat);
            assert((0x10_0000_0000_0000 + fa) * p < (0x10_0000_0000_0000 + fb) * p)
                by (nonlinear_arith)
                requires
                    fa < fb,
                    p >= 1,
            ;
        }
    } else {
        let p = two_to((eb - 1) as nat);
        lemma_two_to((eb - 1) as nat);
        assert((0x10_0000_0000_0000 + fb) * p >= 0x10_0000_0000_0000 * p) by (nonlinear_arith)
            requires
                fb >= 0,
                p >= 1,
        ;
        assert(0x10_0000_0000_0000 * p >= 0x10_0000_0000_0000) by (nonlinear_arith)
            requires
                p >= 1,
        ;
        if ea > 0 {
            let q = two_to((ea - 1) as nat);
            lemma_two_to_monotonic(ea as nat, (eb - 1) as nat);
            lemma_two_to((ea - 1) as nat);
            assert(two_to(ea as nat) == q + q);
            assert((0x10_0000_0000_0000 + fa) * q < 0x10_0000_0000_0000 * p) by (nonlinear_arith)
                requires
                    fa < 0x10_0000_0000_0000,
                    q >= 1,
                    q + q <= p,
            ;
        }
    }
}

/// How an integer from 0 on stands to a number.
proof fn lemma_magnitude_compares(i: int, m: int)
    requires
        0 <= i,
        0 <= m < 0x8000_0000_0000_0000,
    ensures
        compares(magnitude_order(i, m), i * two_to(1074), scaled_real(m)),
{
    let e = exponent(m);
    let s = significand(m);
    lemma_scaled_magnitude(m);
    assert(m / 0x10_0000_0000_0000 < 2048);
    let a = i;
    if e >= 0 {
        lemma_two_to(e as nat);
        lemma_two_to_sum(e as nat, 1074);
        lemma_two_to(1074);
        let p = two_to(e as nat);
        let t = two_to(1074);
        assert(s * (p * t) == (s * p) * t) by (nonlinear_arith);
        lemma_times(a, s * p, t);
    } else {
        let n = (-e) as nat;
        let r = (e + 1074) as nat;
        lemma_two_to(n);
        lemma_two_to(r);
        lemma_two_to_sum(n, r);
        let p = two_to(n);
        let t = two_to(r);
        assert(a * (p * t) == (a * p) * t) by (nonlinear_arith);
        lemma_times(a * p, s, t);
    }
}

/// Numbers keep their order when both are taken as many times.
proof fn lemma_times(a: int, b: int, t: int)
    requires
        t >= 1,
    ensures
        compares(int_order(a, b), a * t, b * t),
{
    if a < b {
        assert(a * t < b * t) by (nonlinear_arith)
            requires
                a < b,
                t >= 1,
        ;
    } else if a > b {
        assert(a * t > b * t) by (nonlinear_arith)
            requires
                a > b,
                t >= 1,
        ;
    }
}

/// How an integer stands to a floating-point number.
proof fn lemma_int_real_compares(i: int, bits: int)
    requires
        0 <= bits <= u64::MAX,
    ensures
        compares(int_real_order(i, bits), i * two_to(1074), scaled_real(bits)),
{
    let t = two_to(1074);
    lemma_two_to(1074);
    if bits < 0x8000_0000_0000_0000 {
        lemma_scaled_magnitude(bits);
        if i < 0 {
            assert(i * t < 0) by (nonlinear_arith)
                requires
                    i < 0,
                    t >= 1,
            ;
        } else {
            lemma_magnitude_compares(i, bits);
        }
    } else {
        let m = bits - 0x8000_0000_0000_0000;
        lemma_scaled_magnitude(m);
        if i > 0 {
            assert(i * t > 0) by (nonlinear_arith)
                requires
                    i > 0,
                    t >= 1,
            ;
        } else {
            lemma_magnitude_compares(-i, m);
            assert((-i) * t == -(i * t)) by (nonlinear_arith);
        }
    }
}

/// How a floating-point number stands to another.
proof fn lemma_reals_compare(x: int, y: int)
    requires
        0 <= x <= u64::MAX,
        0 <= y <= u64::MAX,
    ensures
        compares(int_order(real_key(x), real_key(y)), scaled_real(x), scaled_real(y)),
{
    let m = if x < 0x8000_0000_0000_0000 {
        x
    } else {
        x - 0x8000_0000_0000_0000
    };
    let n = if y < 0x8000_0000_0000_0000 {
        y
    } else {
        y - 0x8000_0000_0000_0000
    };
    lemma_scaled_magnitude(m);
    lemma_scaled_magnitude(n);
    if m < n {
        lemma_scaled_monotonic(m, n);
    } else if n < m {
        lemma_scaled_monotonic(n, m);
    }
    lemma_signs(x, m, scaled_real(x), scaled_real(m));
    lemma_signs(y, n, scaled_real(y), scaled_real(n));
}

/// The key of a number has the number's sign.
proof fn lemma_signs(x: int, m: int, a: int, b: int)
    requires
        0 <= x <= u64::MAX,
        0 <= m,
        x < 0x8000_0000_0000_0000 ==> m == x && a == b,
        x >= 0x8000_0000_0000_0000 ==> m == x - 0x8000_0000_0000_0000 && a == -b,
    ensures
        real_key(x) == m && a == b || real_key(x) == -m && a == -b,
        x < 0x8000_0000_0000_0000 ==> real_key(x) == m,
        x >= 0x8000_0000_0000_0000 ==> real_key(x) == -m,
{
}

/// Numbers are ordered by what they are, whether they are integers or
/// floating-point numbers.
pub proof fn numbers_are_ordered(a: ValueModel, b: ValueModel)
    requires
        is_number(a),
        is_number(b),
    ensures
        compares(value_order(a, b), scaled_number(a), scaled_number(b)),
{
    match (a, b) {
        (ValueModel::Integer(x), ValueModel::Integer(y)) => {
            lemma_two_to(1074);
            lemma_times(x, y, two_to(1074));
        },
        (ValueModel::Integer(x), ValueModel::Real(y)) => {
            lemma_int_real_compares(x, y);
        },
        (ValueModel::Real(x), ValueModel::Integer(y)) => {
            lemma_int_real_compares(y, x);
        },
        (ValueModel::Real(x), ValueModel::Real(y)) => {
            lemma_reals_compare(x, y);
        },
        _ => {},
    }
}

/// Nulls stand before numbers, those before texts, and those before blobs. Texts and
/// blobs are ordered by their bytes.
pub proof fn kinds_are_ordered(a: ValueModel, b: ValueModel)
    ensures
        a is Null && b is Null ==> value_order(a, b) == Relation::Equal,
        a is Null && !(b is Null) ==> value_order(a, b) == Relation::Less && value_order(b, a)
            == Relation::Greater,
        (a is Integer || a is Real) && (b is Text || b is Blob) ==> value_order(a, b)
            == Relation::Less && value_order(b, a) == Relation::Greater,
        a is Text && b is Blob ==> value_order(a, b) == Relation::Less && value_order(b, a)
            == Relation::Greater,
        a is Text && b is Text ==> value_order(a, b) == bytes_order(a->Text_0, b->Text_0),
        a is Blob && b is Blob ==> value_order(a, b) == bytes_order(a->Blob_0, b->Blob_0),
{
}

// ---------------------------------------------------------------------------
// What a search asks for
// ---------------------------------------------------------------------------

/// A search by row id looks for the row id itself, for the row ids from it on, or
/// for those behind it. It goes to the left of a cell up to whose row id such a
/// row may stand.
pub proof fn searches_ask_for_row_ids(a: int, k: int, op: SeekOp)
    ensures
        op == SeekOp::EQ ==> (satisfies(int_order(a, k), op) <==> a == k),
        op == SeekOp::GE ==> (satisfies(int_order(a, k), op) <==> a >= k),
        op == SeekOp::GT ==> (satisfies(int_order(a, k), op) <==> a > k),
        op == SeekOp::EQ || op == SeekOp::GE ==> (lies_left(int_order(a, k), op) <==> a >= k),
        op == SeekOp::GT ==> (lies_left(int_order(a, k), op) <==> a > k),
{
}

/// A search in an index looks for the entries that are equal to the record, not
/// less, or greater. It goes to the left of an entry to the left of which one
/// may stand.
pub proof fn searches_ask_for_entries(e: Seq<ValueModel>, k: Seq<ValueModel>, op: SeekOp)
    ensures
        op == SeekOp::EQ ==> (satisfies(record_order(e, k), op) <==> record_order(e, k)
            == Relation::Equal),
        op == SeekOp::GE ==> (satisfies(record_order(e, k), op) <==> record_order(e, k)
            != Relation::Less),
        op == SeekOp::GT ==> (satisfies(record_order(e, k), op) <==> record_order(e, k)
            == Relation::Greater),
        op == SeekOp::EQ || op == SeekOp::GE ==> (lies_left(record_order(e, k), op)
            <==> record_order(e, k) != Relation::Less),
        op == SeekOp::GT ==> (lies_left(record_order(e, k), op) <==> record_order(e, k)
            == Relation::Greater),
{
}

} // verus!
