//! What the bytes of a record stand for.

use vstd::prelude::*;
use crate::numerals::{
    byte_power, digits_value, has_bytes, long_numbers_are_read, read_varints_have_bytes,
    sevens_value, short_numbers_are_written, signed_value, signs_are_dropped, varints_are_read,
    varints_are_short,
};
use crate::record::{
    bodies_bytes, bytes64, header_len, lemma_header_varint, parse_record, record_bytes, record_fits,
    serial_type, to_unsigned, types_bytes, value_at, value_bytes, value_fits, value_len, values_at,
    ValueModel,
};
use crate::varint::{varint_at, varint_bytes};

verus! {

/// Whether the bytes `b` hold the value `v` in the form with serial type `t`.
pub open spec fn holds_value(t: int, b: Seq<u8>, v: ValueModel) -> bool {
    ||| t == 0 && b.len() == 0 && v == ValueModel::Null
    ||| t == 1 && b.len() == 1 && v == ValueModel::Integer(signed_value(b))
    ||| t == 2 && b.len() == 2 && v == ValueModel::Integer(signed_value(b))
    ||| t == 3 && b.len() == 3 && v == ValueModel::Integer(signed_value(b))
    ||| t == 4 && b.len() == 4 && v == ValueModel::Integer(signed_value(b))
    ||| t == 5 && b.len() == 6 && v == ValueModel::Integer(signed_value(b))
    ||| t == 6 && b.len() == 8 && v == ValueModel::Integer(signed_value(b))
    ||| t == 7 && b.len() == 8 && v == ValueModel::Real(digits_value(b))
    ||| t == 8 && b.len() == 0 && v == ValueModel::Integer(0)
    ||| t == 9 && b.len() == 0 && v == ValueModel::Integer(1)
    ||| t >= 12 && t == 12 + 2 * b.len() && v == ValueModel::Blob(b)
    ||| t >= 13 && t == 13 + 2 * b.len() && v == ValueModel::Text(b)
}

/// A value is read from the bytes that hold it, and the next one stands behind
/// them.
pub proof fn values_are_read(s: Seq<u8>, pos: int, t: int, b: Seq<u8>, v: ValueModel)
    requires
        holds_value(t, b, v),
        0 <= pos,
        pos + b.len() <= s.len(),
        s.subrange(pos, pos + b.len()) == b,
    ensures
        value_at(s, pos, t) == Some(v),
        value_len(t) == b.len(),
{
    long_numbers_are_read(s, pos, b.len());
}

/// What is read as a value is held by the bytes there; types 10 and 11 hold none,
/// nor do bytes that end too early.
pub proof fn values_read_are_held(s: Seq<u8>, pos: int, t: int)
    requires
        0 <= pos <= s.len(),
        0 <= t,
    ensures
        value_at(s, pos, t) is Some ==> {
            &&& 0 <= value_len(t) <= s.len() - pos
            &&& holds_value(
                t,
                s.subrange(pos, pos + value_len(t)),
                value_at(s, pos, t).unwrap(),
            )
        },
        t == 10 || t == 11 ==> value_at(s, pos, t) is None,
{
    if value_at(s, pos, t) is Some {
        long_numbers_are_read(s, pos, value_len(t) as nat);
        let b = s.subrange(pos, pos + value_len(t));
        assert(b.len() == value_len(t));
        if t >= 12 {
            assert(t == 12 + 2 * b.len() || t == 13 + 2 * b.len());
        }
    }
}

/// Whether `b` is the number `v`, in as many bytes as a number has.
pub open spec fn is_varint(b: Seq<u8>, v: int) -> bool {
    &&& has_bytes(b, 0, b.len() as int)
    &&& b.len() < 9 ==> v == sevens_value(b)
    &&& b.len() == 9 ==> v == sevens_value(b.drop_last()) * 256 + b[8]
}

/// The parts one behind the other.
pub open spec fn joined(parts: Seq<Seq<u8>>) -> Seq<u8>
    decreases parts.len(),
{
    if parts.len() == 0 {
        Seq::empty()
    } else {
        parts[0] + joined(parts.drop_first())
    }
}

/// The parts of a record: the length of the header, the serial types, which are the
/// rest of the header, and the values.
#[verifier::ext_equal]
pub struct RecordParts {
    pub head: Seq<u8>,
    pub types: Seq<int>,
    pub type_parts: Seq<Seq<u8>>,
    pub bodies: Seq<Seq<u8>>,
    pub tail: Seq<u8>,
}

/// Whether serial type `i` and body `i` hold value `i`.
pub open spec fn holds_value_at(
    types: Seq<int>,
    type_parts: Seq<Seq<u8>>,
    bodies: Seq<Seq<u8>>,
    vals: Seq<ValueModel>,
    i: int,
) -> bool {
    is_varint(type_parts[i], types[i]) && holds_value(types[i], bodies[i], vals[i])
}

/// Whether the serial types and the bodies hold the values.
pub open spec fn hold_values(
    types: Seq<int>,
    type_parts: Seq<Seq<u8>>,
    bodies: Seq<Seq<u8>>,
    vals: Seq<ValueModel>,
) -> bool {
    &&& types.len() == vals.len()
    &&& type_parts.len() == vals.len()
    &&& bodies.len() == vals.len()
    &&& forall|i: int|
        0 <= i < vals.len() ==> #[trigger] holds_value_at(types, type_parts, bodies, vals, i)
}

/// Whether the bytes `s` are made of such parts and hold the values `vals`.
pub open spec fn holds_record(s: Seq<u8>, p: RecordParts, vals: Seq<ValueModel>) -> bool {
    &&& s == p.head + joined(p.type_parts) + joined(p.bodies) + p.tail
    &&& is_varint(p.head, (p.head.len() + joined(p.type_parts).len()) as int)
    &&& hold_values(p.types, p.type_parts, p.bodies, vals)
}

/// A number is read where its bytes stand.
pub proof fn lemma_varint_there(s: Seq<u8>, pos: int, b: Seq<u8>, v: int)
    requires
        is_varint(b, v),
        0 <= pos,
        pos + b.len() <= s.len(),
        s.subrange(pos, pos + b.len()) == b,
    ensures
        varint_at(s, pos) == Some((v, b.len() as int)),
{
    let n = b.len() as int;
    assert forall|k: int| 0 <= k < n implies s[pos + k] == #[trigger] b[0 + k] by {
        assert(s.subrange(pos, pos + n)[k] == b[k]);
    }
    assert forall|k: int| 0 <= k < n - 1 implies crate::numerals::goes_on(
        #[trigger] s[pos + k],
    ) by {
        assert(crate::numerals::goes_on(b[0 + k]));
    }
    assert(s[pos + (n - 1)] == b[0 + (n - 1)]);
    varints_are_read(s, pos, n);
    if n == 9 {
        assert(s.subrange(pos, pos + 8) =~= b.drop_last());
        let last: int = 8;
        assert(s[pos + last] == b[0 + last]);
    }
}

/// The bytes from `pos` on start with `a`, and behind it with `b`.
proof fn lemma_there(s: Seq<u8>, pos: int, a: Seq<u8>, b: Seq<u8>)
    requires
        0 <= pos,
        pos + a.len() + b.len() <= s.len(),
        s.subrange(pos, pos + a.len() + b.len()) == a + b,
    ensures
        s.subrange(pos, pos + a.len()) == a,
        s.subrange(pos + a.len(), pos + a.len() + b.len()) == b,
{
    let c = s.subrange(pos, pos + a.len() + b.len());
    assert(c.subrange(0, a.len() as int) =~= a);
    assert(c.subrange(a.len() as int, c.len() as int) =~= b);
    assert(s.subrange(pos, pos + a.len()) =~= c.subrange(0, a.len() as int));
    assert(s.subrange(pos + a.len(), pos + a.len() + b.len()) =~= c.subrange(
        a.len() as int,
        c.len() as int,
    ));
}

proof fn lemma_values_there(
    s: Seq<u8>,
    pos: int,
    body: int,
    types: Seq<int>,
    type_parts: Seq<Seq<u8>>,
    bodies: Seq<Seq<u8>>,
    vals: Seq<ValueModel>,
)
    requires
        hold_values(types, type_parts, bodies, vals),
        0 <= pos,
        0 <= body,
        pos + joined(type_parts).len() <= s.len(),
        body + joined(bodies).len() <= s.len(),
        s.subrange(pos, pos + joined(type_parts).len()) == joined(type_parts),
        s.subrange(body, body + joined(bodies).len()) == joined(bodies),
    ensures
        values_at(s, pos, pos + joined(type_parts).len(), body) == Some(vals),
    decreases vals.len(),
{
    if vals.len() == 0 {
        assert(vals =~= Seq::empty());
    } else {
        let v = vals[0];
        let t = type_parts[0];
        let b = bodies[0];
        let ts = type_parts.drop_first();
        let bs = bodies.drop_first();
        let vs = vals.drop_first();
        assert(holds_value_at(types, type_parts, bodies, vals, 0));
        lemma_there(s, pos, t, joined(ts));
        lemma_there(s, body, b, joined(bs));
        lemma_varint_there(s, pos, t, types[0]);
        values_are_read(s, body, types[0], b, v);
        let tys = types.drop_first();
        assert forall|i: int| 0 <= i < vs.len() implies #[trigger] holds_value_at(
            tys,
            ts,
            bs,
            vs,
            i,
        ) by {
            assert(holds_value_at(types, type_parts, bodies, vals, i + 1));
        }
        lemma_values_there(
            s,
            pos + t.len(),
            body + b.len(),
            tys,
            ts,
            bs,
            vs,
        );
        assert(seq![v] + vs =~= vals);
    }
}

/// A record is read from the bytes that hold it.
pub proof fn records_are_read(s: Seq<u8>, p: RecordParts, vals: Seq<ValueModel>)
    requires
        holds_record(s, p, vals),
    ensures
        parse_record(s) == Some(vals),
{
    let n = p.head.len() as int;
    let t = joined(p.type_parts);
    let b = joined(p.bodies);
    let h = n + t.len();
    assert(s.subrange(0, n) =~= p.head);
    assert(s.subrange(n, n + t.len()) =~= t);
    assert(s.subrange(h, h + b.len()) =~= b);
    lemma_varint_there(s, 0, p.head, h);
    lemma_values_there(s, n, h, p.types, p.type_parts, p.bodies, vals);
}

/// What is read as a record is held by the bytes.
pub proof fn records_read_are_held(s: Seq<u8>) -> (p: RecordParts)
    requires
        parse_record(s) is Some,
    ensures
        holds_record(s, p, parse_record(s).unwrap()),
{
    let (h, n) = varint_at(s, 0).unwrap();
    read_varints_have_bytes(s, 0);
    let head = s.subrange(0, n);
    lemma_varint_taken(s, 0);
    let q = lemma_values_taken(s, n, h, h);
    let b = joined(q.bodies);
    let p = RecordParts { head, tail: s.skip(h + b.len()), ..q };
    assert(s =~= p.head + joined(p.type_parts) + b + p.tail) by {
        assert(s.subrange(n, h) == joined(p.type_parts));
        assert(s.subrange(h, h + b.len()) == b);
        assert(s =~= s.subrange(0, n) + s.subrange(n, h) + s.subrange(h, h + b.len()) + s.skip(
            h + b.len(),
        ));
    }
    p
}

/// The bytes that a number is read from are that number.
proof fn lemma_varint_taken(s: Seq<u8>, pos: int)
    requires
        0 <= pos,
        varint_at(s, pos) is Some,
    ensures
        ({
            let (v, n) = varint_at(s, pos).unwrap();
            &&& 1 <= n <= 9
            &&& pos + n <= s.len()
            &&& is_varint(s.subrange(pos, pos + n), v)
            &&& v >= 0
        }),
{
    let (v, n) = varint_at(s, pos).unwrap();
    read_varints_have_bytes(s, pos);
    varints_are_read(s, pos, n);
    let b = s.subrange(pos, pos + n);
    assert forall|k: int| 0 <= k < n - 1 implies crate::numerals::goes_on(
        #[trigger] b[0 + k],
    ) by {
        assert(crate::numerals::goes_on(s[pos + k]));
    }
    if n == 9 {
        assert(b.drop_last() =~= s.subrange(pos, pos + 8));
    }
    lemma_sevens_from_zero(b);
    lemma_sevens_from_zero(b.drop_last());
}

proof fn lemma_sevens_from_zero(b: Seq<u8>)
    ensures
        sevens_value(b) >= 0,
    decreases b.len(),
{
    if b.len() > 0 {
        lemma_sevens_from_zero(b.drop_last());
    }
}

proof fn lemma_values_taken(s: Seq<u8>, pos: int, end: int, body: int) -> (p: RecordParts)
    requires
        0 <= pos <= end <= s.len(),
        0 <= body <= s.len(),
        values_at(s, pos, end, body) is Some,
    ensures
        ({
            let b = joined(p.bodies);
            &&& hold_values(
                p.types,
                p.type_parts,
                p.bodies,
                values_at(s, pos, end, body).unwrap(),
            )
            &&& s.subrange(pos, end) == joined(p.type_parts)
            &&& body + b.len() <= s.len()
            &&& s.subrange(body, body + b.len()) == b
        }),
    decreases end - pos,
{
    let vals = values_at(s, pos, end, body).unwrap();
    let none = Seq::<Seq<u8>>::empty();
    if pos >= end {
        assert(s.subrange(pos, end) =~= Seq::empty());
        assert(s.subrange(body, body) =~= Seq::empty());
        RecordParts {
            head: Seq::empty(),
            types: Seq::empty(),
            type_parts: none,
            bodies: none,
            tail: Seq::empty(),
        }
    } else {
        let (t, n) = varint_at(s, pos).unwrap();
        lemma_varint_taken(s, pos);
        values_read_are_held(s, body, t);
        let m = value_len(t);
        let q = lemma_values_taken(s, pos + n, end, body + m);
        let tp = s.subrange(pos, pos + n);
        let bp = s.subrange(body, body + m);
        let p = RecordParts {
            types: seq![t] + q.types,
            type_parts: seq![tp] + q.type_parts,
            bodies: seq![bp] + q.bodies,
            ..q
        };
        assert(p.type_parts.drop_first() =~= q.type_parts);
        assert(p.bodies.drop_first() =~= q.bodies);
        let b = joined(q.bodies);
        assert(s.subrange(pos, end) =~= tp + s.subrange(pos + n, end));
        assert(s.subrange(body, body + m + b.len()) =~= bp + s.subrange(
            body + m,
            body + m + b.len(),
        ));
        let rest = values_at(s, pos + n, end, body + m).unwrap();
        assert forall|i: int| 0 <= i < vals.len() implies #[trigger] holds_value_at(
            p.types,
            p.type_parts,
            p.bodies,
            vals,
            i,
        ) by {
            if i > 0 {
                assert(holds_value_at(q.types, q.type_parts, q.bodies, rest, i - 1));
            }
        }
        p
    }
}

/// The serial type that a value is written with: a number of either kind takes
/// eight bytes.
pub open spec fn written_type(v: ValueModel) -> int {
    match v {
        ValueModel::Null => 0,
        ValueModel::Integer(_) => 6,
        ValueModel::Real(_) => 7,
        ValueModel::Text(t) => 13 + 2 * (t.len() as int),
        ValueModel::Blob(b) => 12 + 2 * (b.len() as int),
    }
}

/// A record is written in bytes that hold it and nothing else, each value with the
/// serial type for it.
pub proof fn records_are_written(vals: Seq<ValueModel>) -> (p: RecordParts)
    requires
        record_fits(vals),
    ensures
        holds_record(record_bytes(vals), p, vals),
        p.tail.len() == 0,
        forall|i: int|
            0 <= i < vals.len() ==> #[trigger] p.types[i] == written_type(vals[i]),
{
    reveal(record_bytes);
    let t = types_bytes(vals);
    let h = header_len(t.len() as int);
    let head = varint_bytes(h);
    lemma_header_varint(t.len() as int, 1);
    lemma_varint_written(h as u64);
    let q = lemma_values_written(vals);
    let p = RecordParts { head, ..q };
    let b = record_bytes(vals);
    assert(b =~= p.head + joined(p.type_parts) + joined(p.bodies) + p.tail);
    p
}

/// A number is written as that number.
pub proof fn lemma_varint_written(v: u64)
    ensures
        is_varint(varint_bytes(v as int), v as int),
{
    varints_are_short(v);
}

/// A value is written in bytes that hold it.
proof fn lemma_value_written(v: ValueModel)
    requires
        value_fits(v),
    ensures
        serial_type(v) == written_type(v),
        holds_value(written_type(v), value_bytes(v), v),
{
    match v {
        ValueModel::Integer(i) => {
            let u = to_unsigned(i);
            let b = bytes64(u);
            short_numbers_are_written(u);
            signs_are_dropped(i);
            assert(byte_power(8) == 0x1_0000_0000_0000_0000) by {
                reveal_with_fuel(byte_power, 9);
            }
            assert(b[0] == u / 0x1_0000_0000 / 65536 / 256);
        },
        ValueModel::Real(r) => {
            short_numbers_are_written(r);
        },
        _ => {},
    }
}

proof fn lemma_values_written(vals: Seq<ValueModel>) -> (p: RecordParts)
    requires
        forall|i: int| 0 <= i < vals.len() ==> value_fits(#[trigger] vals[i]),
    ensures
        hold_values(p.types, p.type_parts, p.bodies, vals),
        joined(p.type_parts) == types_bytes(vals),
        joined(p.bodies) == bodies_bytes(vals),
        p.tail.len() == 0,
        forall|i: int|
            0 <= i < vals.len() ==> #[trigger] p.types[i] == written_type(vals[i]),
    decreases vals.len(),
{
    let none = Seq::<Seq<u8>>::empty();
    if vals.len() == 0 {
        RecordParts {
            head: Seq::empty(),
            types: Seq::empty(),
            type_parts: none,
            bodies: none,
            tail: Seq::empty(),
        }
    } else {
        let v = vals[0];
        let vs = vals.drop_first();
        assert(value_fits(v));
        let q = lemma_values_written(vs);
        let t = serial_type(v);
        lemma_value_written(v);
        lemma_varint_written(t as u64);
        let p = RecordParts {
            types: seq![t] + q.types,
            type_parts: seq![varint_bytes(t)] + q.type_parts,
            bodies: seq![value_bytes(v)] + q.bodies,
            ..q
        };
        assert(p.type_parts.drop_first() =~= q.type_parts);
        assert(p.bodies.drop_first() =~= q.bodies);
        assert forall|i: int| 0 <= i < vals.len() implies #[trigger] p.types[i] == written_type(
            vals[i],
        ) by {
            if i > 0 {
                assert(q.types[i - 1] == written_type(vs[i - 1]));
            }
        }
        assert forall|i: int| 0 <= i < vals.len() implies #[trigger] holds_value_at(
            p.types,
            p.type_parts,
            p.bodies,
            vals,
            i,
        ) by {
            if i > 0 {
                assert(holds_value_at(q.types, q.type_parts, q.bodies, vs, i - 1));
            }
        }
        p
    }
}

} // verus!
