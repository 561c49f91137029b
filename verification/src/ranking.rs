//! The order of values and records is a total one.

use vstd::prelude::*;
use crate::order::{
    bytes_order, class, exponent, int_order, int_real_order, lemma_pow2_monotonic, magnitude_order,
    pow2, real_key, record_order, significand, value_order, Relation,
};
use crate::record::{
    lemma_be_n_bound, lemma_pow256_values, parse_record, value_at, value_len, values_at, ValueModel,
};
use crate::varint::varint_at;

verus! {

/// Whether the bits of a floating-point number are those of one.
pub open spec fn is_value(v: ValueModel) -> bool {
    v matches ValueModel::Real(bits) ==> 0 <= bits < 0x1_0000_0000_0000_0000
}

/// Whether all values of a record are values.
pub open spec fn is_record(r: Seq<ValueModel>) -> bool {
    forall|i: int| 0 <= i < r.len() ==> is_value(#[trigger] r[i])
}

/// How `a` stands to `c`, if `r` says how `a` stands to `b` and `s` how `b`
/// stands to `c`, neither of them with the later one before.
pub open spec fn joined(r: Relation, s: Relation) -> Relation {
    if r == Relation::Equal {
        s
    } else {
        r
    }
}

proof fn lemma_pow2_sum(a: nat, b: nat)
    ensures
        pow2(a + b) == pow2(a) * pow2(b),
    decreases b,
{
    let p = pow2(a);
    if b == 0 {
        assert(p * 1 == p) by (nonlinear_arith);
    } else {
        lemma_pow2_sum(a, (b - 1) as nat);
        let q = pow2((b - 1) as nat);
        assert(2 * (p * q) == p * (2 * q)) by (nonlinear_arith);
    }
}

/// The magnitude `m` as a multiple of the least one.
pub open spec fn scaled_magnitude(m: int) -> int {
    significand(m) * pow2((exponent(m) + 1074) as nat)
}

/// A number as a multiple of the least magnitude.
pub open spec fn scaled(v: ValueModel) -> int {
    match v {
        ValueModel::Integer(i) => i * pow2(1074),
        ValueModel::Real(bits) => if bits < 0x8000_0000_0000_0000 {
            scaled_magnitude(bits)
        } else {
            -scaled_magnitude(bits - 0x8000_0000_0000_0000)
        },
        _ => 0,
    }
}

/// Greater bits stand for a greater magnitude.
proof fn lemma_magnitude_ascends(m: int, n: int)
    requires
        0 <= m < n < 0x8000_0000_0000_0000,
    ensures
        0 <= scaled_magnitude(m) < scaled_magnitude(n),
{
    let unit: int = 0x10_0000_0000_0000;
    let e = m / unit;
    let f = n / unit;
    let s = significand(m);
    let t = significand(n);
    let a = pow2((exponent(m) + 1074) as nat);
    let b = pow2((exponent(n) + 1074) as nat);
    lemma_pow2_monotonic(0, (exponent(m) + 1074) as nat);
    if e == f {
        assert(s < t);
        assert(0 <= s * a < t * a) by (nonlinear_arith)
            requires
                0 <= s < t,
                a > 0,
        ;
    } else {
        assert(e < f);
        assert(b == pow2((f - 1) as nat));
        let c = pow2(e as nat);
        lemma_pow2_monotonic(e as nat, (f - 1) as nat);
        assert(0 <= s * a < unit * c) by {
            if e == 0 {
                assert(a == 1 && c == 1);
                assert(s * 1 == s && unit * 1 == unit) by (nonlinear_arith);
            } else {
                assert(c == 2 * a);
                assert(0 <= s * a < unit * (2 * a)) by (nonlinear_arith)
                    requires
                        0 <= s < 2 * unit,
                        a > 0,
                ;
            }
        }
        assert(unit * c <= t * b) by (nonlinear_arith)
            requires
                0 < unit <= t,
                0 < c <= b,
        ;
    }
}

/// An integer and a magnitude stand to each other as their multiples do.
proof fn lemma_magnitude_scaled(i: int, m: int)
    requires
        0 <= i,
        0 <= m < 0x8000_0000_0000_0000,
    ensures
        magnitude_order(i, m) == int_order(i * pow2(1074), scaled_magnitude(m)),
{
    let e = exponent(m);
    let s = significand(m);
    let big = pow2(1074);
    lemma_pow2_monotonic(0, 1074);
    if e >= 0 {
        let p = pow2(e as nat);
        lemma_pow2_sum(e as nat, 1074);
        assert(s * (p * big) == (s * p) * big) by (nonlinear_arith);
        lemma_order_times(i, s * p, big);
    } else {
        let p = pow2((-e) as nat);
        let q = pow2((e + 1074) as nat);
        lemma_pow2_sum((-e) as nat, (e + 1074) as nat);
        lemma_pow2_monotonic(0, (e + 1074) as nat);
        assert((i * p) * q == i * (p * q)) by (nonlinear_arith);
        lemma_order_times(i * p, s, q);
    }
}

proof fn lemma_order_times(a: int, b: int, k: int)
    requires
        k > 0,
    ensures
        int_order(a * k, b * k) == int_order(a, b),
{
    assert(a < b ==> a * k < b * k) by (nonlinear_arith)
        requires
            k > 0,
    ;
    assert(a > b ==> a * k > b * k) by (nonlinear_arith)
        requires
            k > 0,
    ;
}

/// Numbers stand to each other as their multiples of the least magnitude do.
pub proof fn lemma_number_order(a: ValueModel, b: ValueModel)
    requires
        is_value(a),
        is_value(b),
        class(a) == 1,
        class(b) == 1,
    ensures
        value_order(a, b) == int_order(scaled(a), scaled(b)),
{
    match (a, b) {
        (ValueModel::Integer(x), ValueModel::Integer(y)) => {
            lemma_pow2_monotonic(0, 1074);
            lemma_order_times(x, y, pow2(1074));
        },
        (ValueModel::Real(x), ValueModel::Real(y)) => {
            lemma_real_scaled(x, y);
        },
        (ValueModel::Integer(x), ValueModel::Real(y)) => {
            lemma_int_real_scaled(x, y);
        },
        (ValueModel::Real(x), ValueModel::Integer(y)) => {
            lemma_int_real_scaled(y, x);
        },
        _ => {},
    }
}

proof fn lemma_real_scaled(x: int, y: int)
    requires
        0 <= x < 0x1_0000_0000_0000_0000,
        0 <= y < 0x1_0000_0000_0000_0000,
    ensures
        int_order(real_key(x), real_key(y)) == int_order(
            scaled(ValueModel::Real(x)),
            scaled(ValueModel::Real(y)),
        ),
{
    let sign: int = 0x8000_0000_0000_0000;
    let m = if x < sign {
        x
    } else {
        x - sign
    };
    let n = if y < sign {
        y
    } else {
        y - sign
    };
    assert(scaled_magnitude(0) == 0) by {
        assert(0 * pow2(0) == 0) by (nonlinear_arith);
    }
    if 0 < m {
        lemma_magnitude_ascends(0, m);
    }
    if 0 < n {
        lemma_magnitude_ascends(0, n);
    }
    if m < n {
        lemma_magnitude_ascends(m, n);
    } else if n < m {
        lemma_magnitude_ascends(n, m);
    }
}

proof fn lemma_int_real_scaled(i: int, bits: int)
    requires
        0 <= bits < 0x1_0000_0000_0000_0000,
    ensures
        int_real_order(i, bits) == int_order(
            scaled(ValueModel::Integer(i)),
            scaled(ValueModel::Real(bits)),
        ),
{
    let sign: int = 0x8000_0000_0000_0000;
    let m = if bits < sign {
        bits
    } else {
        bits - sign
    };
    let big = pow2(1074);
    lemma_pow2_monotonic(0, 1074);
    assert(scaled_magnitude(0) == 0) by {
        assert(0 * pow2(0) == 0) by (nonlinear_arith);
    }
    if 0 < m {
        lemma_magnitude_ascends(0, m);
    }
    assert(i < 0 ==> i * big < 0) by (nonlinear_arith)
        requires
            big > 0,
    ;
    assert(i > 0 ==> i * big > 0) by (nonlinear_arith)
        requires
            big > 0,
    ;
    if bits < sign {
        if i >= 0 {
            lemma_magnitude_scaled(i, m);
        }
    } else {
        if i <= 0 {
            lemma_magnitude_scaled(-i, m);
            assert((-i) * big == -(i * big)) by (nonlinear_arith);
        }
    }
}

proof fn lemma_bytes_order_joins(a: Seq<u8>, b: Seq<u8>, c: Seq<u8>)
    requires
        bytes_order(a, b) != Relation::Greater,
        bytes_order(b, c) != Relation::Greater,
    ensures
        bytes_order(a, c) == joined(bytes_order(a, b), bytes_order(b, c)),
    decreases a.len(),
{
    if a.len() > 0 && b.len() > 0 && c.len() > 0 && a[0] == b[0] && b[0] == c[0] {
        lemma_bytes_order_joins(a.drop_first(), b.drop_first(), c.drop_first());
    }
}

/// The order of values is a transitive one.
pub proof fn value_order_joins(a: ValueModel, b: ValueModel, c: ValueModel)
    requires
        is_value(a),
        is_value(b),
        is_value(c),
        value_order(a, b) != Relation::Greater,
        value_order(b, c) != Relation::Greater,
    ensures
        value_order(a, c) == joined(value_order(a, b), value_order(b, c)),
{
    if class(a) == 1 && class(b) == 1 && class(c) == 1 {
        lemma_number_order(a, b);
        lemma_number_order(b, c);
        lemma_number_order(a, c);
    }
    match (a, b, c) {
        (ValueModel::Text(x), ValueModel::Text(y), ValueModel::Text(z)) => {
            lemma_bytes_order_joins(x, y, z);
        },
        (ValueModel::Blob(x), ValueModel::Blob(y), ValueModel::Blob(z)) => {
            lemma_bytes_order_joins(x, y, z);
        },
        _ => {},
    }
}

/// The order of records is a transitive one.
pub proof fn record_order_joins(a: Seq<ValueModel>, b: Seq<ValueModel>, c: Seq<ValueModel>)
    requires
        is_record(a),
        is_record(b),
        is_record(c),
        record_order(a, b) != Relation::Greater,
        record_order(b, c) != Relation::Greater,
    ensures
        record_order(a, c) == joined(record_order(a, b), record_order(b, c)),
    decreases a.len(),
{
    if a.len() > 0 && b.len() > 0 && c.len() > 0 {
        assert(is_value(a[0]) && is_value(b[0]) && is_value(c[0]));
        let (x, y, z) = (a.drop_first(), b.drop_first(), c.drop_first());
        assert forall|i: int| 0 <= i < x.len() implies is_value(#[trigger] x[i]) by {
            assert(x[i] == a[i + 1]);
        }
        assert forall|i: int| 0 <= i < y.len() implies is_value(#[trigger] y[i]) by {
            assert(y[i] == b[i + 1]);
        }
        assert forall|i: int| 0 <= i < z.len() implies is_value(#[trigger] z[i]) by {
            assert(z[i] == c[i + 1]);
        }
        value_order_joins(a[0], b[0], c[0]);
        if value_order(a[0], b[0]) == Relation::Equal && value_order(b[0], c[0])
            == Relation::Equal {
            record_order_joins(x, y, z);
        }
    }
}

/// The values that are read from bytes are values.
proof fn lemma_values_are_values(s: Seq<u8>, pos: int, end: int, body: int)
    requires
        values_at(s, pos, end, body) is Some,
    ensures
        is_record(values_at(s, pos, end, body).unwrap()),
    decreases end - pos,
{
    if pos < end {
        let (t, n) = varint_at(s, pos).unwrap();
        lemma_values_are_values(s, pos + n, end, body + value_len(t));
        lemma_be_n_bound(s, body, 8);
        lemma_pow256_values();
        let v = value_at(s, body, t).unwrap();
        let tail = values_at(s, pos + n, end, body + value_len(t)).unwrap();
        let all = seq![v] + tail;
        assert forall|i: int| 0 <= i < all.len() implies is_value(#[trigger] all[i]) by {
            if i > 0 {
                assert(all[i] == tail[i - 1]);
            }
        }
    }
}

/// A record that is read from bytes is a record.
pub proof fn lemma_parsed_record(s: Seq<u8>)
    requires
        parse_record(s) is Some,
    ensures
        is_record(parse_record(s).unwrap()),
{
    let (h, n) = varint_at(s, 0).unwrap();
    lemma_values_are_values(s, n, h, h);
}

} // verus!
