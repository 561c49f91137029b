//! Rows and index entries: their values, their byte format and their order.

use vstd::prelude::*;
use crate::bytes::{append_range, bytes32, push_u32};
use crate::errors::StorageError;
use crate::varint::{
    lemma_varint_len, lemma_varint_len_monotonic, read_varint, varint_at, varint_bytes,
    varint_round_trip, write_varint_to_vec,
};

verus! {

/// One value of a record.
pub enum OwnedValue {
    Null,
    Integer(i64),
    /// A floating-point number, held as its IEEE 754 bits.
    Real(u64),
    /// A text, held as its UTF-8 bytes.
    Text(Vec<u8>),
    Blob(Vec<u8>),
}

/// What an [`OwnedValue`] stands for.
#[verifier::ext_equal]
pub enum ValueModel {
    Null,
    Integer(int),
    Real(int),
    Text(Seq<u8>),
    Blob(Seq<u8>),
}

impl View for OwnedValue {
    type V = ValueModel;

    open spec fn view(&self) -> ValueModel {
        match *self {
            OwnedValue::Null => ValueModel::Null,
            OwnedValue::Integer(i) => ValueModel::Integer(i as int),
            OwnedValue::Real(b) => ValueModel::Real(b as int),
            OwnedValue::Text(t) => ValueModel::Text(t@),
            OwnedValue::Blob(b) => ValueModel::Blob(b@),
        }
    }
}

/// A row of a table or an entry of an index.
pub struct OwnedRecord {
    pub values: Vec<OwnedValue>,
}

impl View for OwnedRecord {
    type V = Seq<ValueModel>;

    open spec fn view(&self) -> Seq<ValueModel> {
        Seq::new(self.values@.len(), |i: int| self.values@[i]@)
    }
}

/// A value that a record can hold: its serial type is a number of 64 bits.
pub open spec fn value_fits(v: ValueModel) -> bool {
    match v {
        ValueModel::Null => true,
        ValueModel::Integer(i) => i64::MIN <= i <= i64::MAX,
        ValueModel::Real(b) => 0 <= b <= u64::MAX,
        ValueModel::Text(t) => 2 * t.len() + 13 <= u64::MAX,
        ValueModel::Blob(b) => 2 * b.len() + 12 <= u64::MAX,
    }
}

/// A record that the format can hold: the length of its header is a number of 64
/// bits.
pub open spec fn record_fits(vals: Seq<ValueModel>) -> bool {
    &&& types_bytes(vals).len() + 9 <= u64::MAX
    &&& forall|i: int| 0 <= i < vals.len() ==> value_fits(#[trigger] vals[i])
}

// ---------------------------------------------------------------------------
// The byte format
// ---------------------------------------------------------------------------

/// The number that tells the type and length of a value.
pub open spec fn serial_type(v: ValueModel) -> int {
    match v {
        ValueModel::Null => 0,
        ValueModel::Integer(_) => 6,
        ValueModel::Real(_) => 7,
        ValueModel::Text(t) => 2 * (t.len() as int) + 13,
        ValueModel::Blob(b) => 2 * (b.len() as int) + 12,
    }
}

/// The eight bytes of `v`, most significant first.
pub open spec fn bytes64(v: int) -> Seq<u8> {
    bytes32(v / 0x1_0000_0000) + bytes32(v % 0x1_0000_0000)
}

/// The number from 0 on that has the same 64 bits as the signed `i`.
pub open spec fn to_unsigned(i: int) -> int {
    if i < 0 {
        i + 0x1_0000_0000_0000_0000
    } else {
        i
    }
}

/// The bytes of a value.
pub open spec fn value_bytes(v: ValueModel) -> Seq<u8> {
    match v {
        ValueModel::Null => Seq::empty(),
        ValueModel::Integer(i) => bytes64(to_unsigned(i)),
        ValueModel::Real(b) => bytes64(b),
        ValueModel::Text(t) => t,
        ValueModel::Blob(b) => b,
    }
}

/// The serial types of the values, one after the other.
pub open spec fn types_bytes(vals: Seq<ValueModel>) -> Seq<u8>
    decreases vals.len(),
{
    if vals.len() == 0 {
        Seq::empty()
    } else {
        varint_bytes(serial_type(vals[0])) + types_bytes(vals.drop_first())
    }
}

/// The bytes of the values, one after the other.
pub open spec fn bodies_bytes(vals: Seq<ValueModel>) -> Seq<u8>
    decreases vals.len(),
{
    if vals.len() == 0 {
        Seq::empty()
    } else {
        value_bytes(vals[0]) + bodies_bytes(vals.drop_first())
    }
}

/// `t` and the least number from `n` on that is as many bytes as it takes to write
/// the sum.
pub open spec fn header_from(t: int, n: int) -> int
    decreases 9 - n,
{
    if n >= 9 || varint_bytes(t + n).len() <= n {
        t + n
    } else {
        header_from(t, n + 1)
    }
}

/// The length of a header whose serial types take `t` bytes: those bytes and
/// the header's own length, which stands in front of them.
pub open spec fn header_len(t: int) -> int {
    header_from(t, 1)
}

/// The bytes of a record.
#[verifier::opaque]
pub open spec fn record_bytes(vals: Seq<ValueModel>) -> Seq<u8> {
    varint_bytes(header_len(types_bytes(vals).len() as int)) + types_bytes(vals) + bodies_bytes(
        vals,
    )
}

/// The unsigned number in the `n` bytes at `pos`.
pub open spec fn be_n(s: Seq<u8>, pos: int, n: nat) -> int
    decreases n,
{
    if n == 0 {
        0
    } else {
        be_n(s, pos, (n - 1) as nat) * 256 + s[pos + n - 1]
    }
}

/// 256 to the power `n`.
pub open spec fn pow256(n: nat) -> int
    decreases n,
{
    if n == 0 {
        1
    } else {
        256 * pow256((n - 1) as nat)
    }
}

/// The signed number in the `n` bytes at `pos`.
pub open spec fn signed_n(s: Seq<u8>, pos: int, n: nat) -> int {
    if n > 0 && s[pos] >= 128 {
        be_n(s, pos, n) - pow256(n)
    } else {
        be_n(s, pos, n)
    }
}

/// The number of bytes that a value of serial type `t` takes.
pub open spec fn value_len(t: int) -> int {
    if t <= 4 {
        t
    } else if t == 5 {
        6
    } else if t <= 7 {
        8
    } else if t < 12 {
        0
    } else {
        (t - 12) / 2
    }
}

/// The value of serial type `t` at `pos`; `None` if the type is reserved or
/// the value runs past the end.
pub open spec fn value_at(s: Seq<u8>, pos: int, t: int) -> Option<ValueModel> {
    if t == 10 || t == 11 || pos + value_len(t) > s.len() {
        None
    } else if t == 0 {
        Some(ValueModel::Null)
    } else if t <= 6 {
        Some(ValueModel::Integer(signed_n(s, pos, value_len(t) as nat)))
    } else if t == 7 {
        Some(ValueModel::Real(be_n(s, pos, 8)))
    } else if t == 8 || t == 9 {
        Some(ValueModel::Integer(t - 8))
    } else if t % 2 == 0 {
        Some(ValueModel::Blob(s.subrange(pos, pos + value_len(t))))
    } else {
        Some(ValueModel::Text(s.subrange(pos, pos + value_len(t))))
    }
}

/// The values whose serial types stand from `pos` up to `end` and whose bytes
/// stand from `body` on; `None` if the bytes are no such values.
pub open spec fn values_at(s: Seq<u8>, pos: int, end: int, body: int) -> Option<Seq<ValueModel>>
    decreases end - pos,
{
    if pos >= end {
        Some(Seq::empty())
    } else {
        match varint_at(s, pos) {
            None => None,
            Some((t, n)) => if n <= 0 || pos + n > end {
                None
            } else {
                match value_at(s, body, t) {
                    None => None,
                    Some(v) => match values_at(s, pos + n, end, body + value_len(t)) {
                        None => None,
                        Some(rest) => Some(seq![v] + rest),
                    },
                }
            },
        }
    }
}

/// The record that the bytes hold; `None` if they hold none.
pub open spec fn parse_record(s: Seq<u8>) -> Option<Seq<ValueModel>> {
    match varint_at(s, 0) {
        None => None,
        Some((h, n)) => if h < n || h > s.len() {
            None
        } else {
            values_at(s, n, h, h)
        },
    }
}

pub proof fn lemma_be_n_bound(s: Seq<u8>, pos: int, n: nat)
    ensures
        0 <= be_n(s, pos, n) < pow256(n),
    decreases n,
{
    if n > 0 {
        lemma_be_n_bound(s, pos, (n - 1) as nat);
    }
}

pub proof fn lemma_pow256_values()
    ensures
        pow256(1) == 0x100,
        pow256(2) == 0x1_0000,
        pow256(3) == 0x100_0000,
        pow256(4) == 0x1_0000_0000,
        pow256(6) == 0x1_0000_0000_0000,
        pow256(7) == 0x100_0000_0000_0000,
        pow256(8) == 0x1_0000_0000_0000_0000,
{
    reveal_with_fuel(pow256, 9);
}

proof fn lemma_bytes64_read(s: Seq<u8>, pos: int, v: int)
    requires
        0 <= v < 0x1_0000_0000_0000_0000,
        0 <= pos,
        pos + 8 <= s.len(),
        s.subrange(pos, pos + 8) == bytes64(v),
    ensures
        be_n(s, pos, 8) == v,
        s[pos] >= 128 <==> v >= 0x8000_0000_0000_0000,
{
    let b = bytes64(v);
    assert forall|i: int| 0 <= i < 8 implies s[pos + i] == b[i] by {
        assert(s.subrange(pos, pos + 8)[i] == b[i]);
    }
    let hi = v / 0x1_0000_0000;
    let lo = v % 0x1_0000_0000;
    assert(b[0] == bytes32(hi)[0] && b[1] == bytes32(hi)[1] && b[2] == bytes32(hi)[2] && b[3]
        == bytes32(hi)[3]);
    assert(b[4] == bytes32(lo)[0] && b[5] == bytes32(lo)[1] && b[6] == bytes32(lo)[2] && b[7]
        == bytes32(lo)[3]);
    reveal_with_fuel(be_n, 9);
    assert(s[pos + 0] == b[0] && s[pos + 1] == b[1] && s[pos + 2] == b[2] && s[pos + 3] == b[3]);
    assert(s[pos + 4] == b[4] && s[pos + 5] == b[5] && s[pos + 6] == b[6] && s[pos + 7] == b[7]);
}

proof fn lemma_value_round_trip(s: Seq<u8>, pos: int, v: ValueModel)
    requires
        value_fits(v),
        0 <= pos,
        pos + value_bytes(v).len() <= s.len(),
        s.subrange(pos, pos + value_bytes(v).len()) == value_bytes(v),
    ensures
        value_len(serial_type(v)) == value_bytes(v).len(),
        value_at(s, pos, serial_type(v)) == Some(v),
        0 <= serial_type(v) <= u64::MAX,
{
    lemma_pow256_values();
    match v {
        ValueModel::Integer(i) => {
            lemma_bytes64_read(s, pos, to_unsigned(i));
        },
        ValueModel::Real(b) => {
            lemma_bytes64_read(s, pos, b);
        },
        _ => {},
    }
}

/// The types and the bodies of `vals`, wherever they stand, are read back.
proof fn lemma_values_round_trip(s: Seq<u8>, pos: int, body: int, vals: Seq<ValueModel>)
    requires
        forall|i: int| 0 <= i < vals.len() ==> value_fits(#[trigger] vals[i]),
        0 <= pos,
        0 <= body,
        pos + types_bytes(vals).len() <= s.len(),
        body + bodies_bytes(vals).len() <= s.len(),
        s.subrange(pos, pos + types_bytes(vals).len()) == types_bytes(vals),
        s.subrange(body, body + bodies_bytes(vals).len()) == bodies_bytes(vals),
    ensures
        values_at(s, pos, pos + types_bytes(vals).len(), body) == Some(vals),
    decreases vals.len(),
{
    if vals.len() == 0 {
        assert(vals =~= Seq::empty());
    } else {
        let v = vals[0];
        let rest = vals.drop_first();
        assert(value_fits(v));
        let t = types_bytes(vals);
        let b = bodies_bytes(vals);
        let t0 = varint_bytes(serial_type(v));
        let b0 = value_bytes(v);
        assert(s.subrange(pos, pos + t0.len()) =~= t0) by {
            assert forall|i: int| 0 <= i < t0.len() implies s[pos + i] == t0[i] by {
                assert(s.subrange(pos, pos + t.len())[i] == t[i]);
            }
        }
        assert(s.subrange(body, body + b0.len()) =~= b0) by {
            assert forall|i: int| 0 <= i < b0.len() implies s[body + i] == b0[i] by {
                assert(s.subrange(body, body + b.len())[i] == b[i]);
            }
        }
        let p2 = pos + t0.len();
        let t2 = types_bytes(rest);
        assert(s.subrange(p2, p2 + t2.len()) =~= t2) by {
            assert forall|i: int| 0 <= i < t2.len() implies s[p2 + i] == t2[i] by {
                assert(s.subrange(pos, pos + t.len())[t0.len() + i] == t[t0.len() + i]);
            }
        }
        let c2 = body + b0.len();
        let b2 = bodies_bytes(rest);
        assert(s.subrange(c2, c2 + b2.len()) =~= b2) by {
            assert forall|i: int| 0 <= i < b2.len() implies s[c2 + i] == b2[i] by {
                assert(s.subrange(body, body + b.len())[b0.len() + i] == b[b0.len() + i]);
            }
        }
        lemma_value_round_trip(s, body, v);
        lemma_varint_len(serial_type(v) as u64);
        varint_round_trip(s, pos, serial_type(v) as u64);
        lemma_values_round_trip(s, p2, c2, rest);
        assert(seq![v] + rest =~= vals);
    }
}

pub proof fn lemma_header_varint(t: int, n: int)
    requires
        0 <= t,
        t + 9 <= u64::MAX,
        1 <= n <= 9,
        n > 1 ==> varint_bytes(t + n - 1).len() >= n,
    ensures
        varint_bytes(header_from(t, n)).len() == header_from(t, n) - t,
        t < header_from(t, n) <= t + 9,
    decreases 9 - n,
{
    lemma_varint_len((t + n) as u64);
    if n > 1 {
        lemma_varint_len_monotonic((t + n - 1) as u64, (t + n) as u64);
    }
    if n < 9 && varint_bytes(t + n).len() > n {
        lemma_header_varint(t, n + 1);
    }
}

/// Reading the bytes of a record gives back the record, whatever follows them.
pub proof fn record_round_trip(vals: Seq<ValueModel>, tail: Seq<u8>)
    requires
        record_fits(vals),
    ensures
        parse_record(record_bytes(vals) + tail) == Some(vals),
{
    let t = types_bytes(vals);
    let b = bodies_bytes(vals);
    let h = header_len(t.len() as int);
    let e = varint_bytes(h);
    let s = record_bytes(vals) + tail;
    reveal(record_bytes);
    lemma_header_varint(t.len() as int, 1);
    assert(s.subrange(0, e.len() as int) =~= e);
    varint_round_trip(s, 0, h as u64);
    assert(s.subrange(e.len() as int, e.len() as int + t.len()) =~= t);
    assert(s.subrange(h, h + b.len()) =~= b);
    lemma_values_round_trip(s, e.len() as int, h, vals);
}

/// Appends the eight bytes of `v`.
fn push_u64(buf: &mut Vec<u8>, v: u64)
    ensures
        final(buf)@ == old(buf)@ + bytes64(v as int),
{
    push_u32(buf, (v / 0x1_0000_0000) as u32);
    push_u32(buf, (v % 0x1_0000_0000) as u32);
    assert(buf@ =~= old(buf)@ + bytes64(v as int));
}

/// The number from 0 on that has the same 64 bits as `i`.
pub fn as_unsigned(i: i64) -> (u: u64)
    ensures
        u == to_unsigned(i as int),
{
    if i < 0 {
        (i as i128 + 0x1_0000_0000_0000_0000) as u64
    } else {
        i as u64
    }
}

impl OwnedValue {
    /// The serial type of the value.
    fn serial_type(&self) -> (t: u64)
        requires
            value_fits(self@),
        ensures
            t == serial_type(self@),
    {
        match self {
            OwnedValue::Null => 0,
            OwnedValue::Integer(_) => 6,
            OwnedValue::Real(_) => 7,
            OwnedValue::Text(t) => 2 * (t.len() as u64) + 13,
            OwnedValue::Blob(b) => 2 * (b.len() as u64) + 12,
        }
    }

    /// Appends the bytes of the value.
    fn push_bytes(&self, buf: &mut Vec<u8>)
        requires
            value_fits(self@),
        ensures
            final(buf)@ == old(buf)@ + value_bytes(self@),
    {
        match self {
            OwnedValue::Null => {
                assert(buf@ =~= old(buf)@ + value_bytes(self@));
            },
            OwnedValue::Integer(i) => {
                push_u64(buf, as_unsigned(*i));
            },
            OwnedValue::Real(b) => push_u64(buf, *b),
            OwnedValue::Text(t) => {
                append_range(buf, t.as_slice(), 0, t.len());
                assert(t@.subrange(0, t@.len() as int) =~= t@);
            },
            OwnedValue::Blob(b) => {
                append_range(buf, b.as_slice(), 0, b.len());
                assert(b@.subrange(0, b@.len() as int) =~= b@);
            },
        }
    }
}

proof fn lemma_types_split(vals: Seq<ValueModel>, i: int)
    requires
        0 <= i < vals.len(),
    ensures
        types_bytes(vals.take(i + 1)) == types_bytes(vals.take(i)) + varint_bytes(
            serial_type(vals[i]),
        ),
        bodies_bytes(vals.take(i + 1)) == bodies_bytes(vals.take(i)) + value_bytes(vals[i]),
    decreases i,
{
    let a = vals.take(i + 1);
    let b = vals.take(i);
    if i == 0 {
        assert(a.drop_first() =~= Seq::empty());
        assert(b =~= Seq::empty());
        assert(types_bytes(a) =~= varint_bytes(serial_type(vals[0])) + types_bytes(
            Seq::<ValueModel>::empty(),
        ));
        assert(types_bytes(a) =~= types_bytes(b) + varint_bytes(serial_type(vals[i])));
        assert(bodies_bytes(a) =~= bodies_bytes(b) + value_bytes(vals[i]));
    } else {
        let rest = vals.drop_first();
        lemma_types_split(rest, i - 1);
        assert(a.drop_first() =~= rest.take(i));
        assert(b.drop_first() =~= rest.take(i - 1));
        assert(types_bytes(a) =~= types_bytes(b) + varint_bytes(serial_type(vals[i])));
        assert(bodies_bytes(a) =~= bodies_bytes(b) + value_bytes(vals[i]));
    }
}

/// How many bytes it takes to write `v`.
fn varint_len(v: u64) -> (n: usize)
    ensures
        n == varint_bytes(v as int).len(),
{
    let mut buf: Vec<u8> = Vec::new();
    write_varint_to_vec(v, &mut buf);
    buf.len()
}

impl OwnedRecord {
    /// Appends the bytes of the record to `buf`.
    pub fn serialize(&self, buf: &mut Vec<u8>)
        requires
            record_fits(self@),
        ensures
            final(buf)@ == old(buf)@ + record_bytes(self@),
    {
        let mut types: Vec<u8> = Vec::new();
        let mut bodies: Vec<u8> = Vec::new();
        let mut i: usize = 0;
        assert(self@.take(0) =~= Seq::empty());
        while i < self.values.len()
            invariant
                i <= self.values@.len(),
                record_fits(self@),
                types@ == types_bytes(self@.take(i as int)),
                bodies@ == bodies_bytes(self@.take(i as int)),
            decreases self.values@.len() - i,
        {
            assert(value_fits(self@[i as int]));
            write_varint_to_vec(self.values[i].serial_type(), &mut types);
            self.values[i].push_bytes(&mut bodies);
            proof {
                lemma_types_split(self@, i as int);
            }
            i += 1;
        }
        assert(self@.take(i as int) =~= self@);
        let t: u64 = types.len() as u64;
        let mut n: u64 = 1;
        let mut last: bool = varint_len(t + n) <= 1;
        while !last
            invariant
                t + 9 <= u64::MAX,
                1 <= n <= 9,
                last == (n >= 9 || varint_bytes(t + n).len() <= n),
                header_len(t as int) == header_from(t as int, n as int),
            decreases 9 - n,
        {
            n += 1;
            last = n >= 9 || varint_len(t + n) as u64 <= n;
        }
        write_varint_to_vec(t + n, buf);
        buf.append(&mut types);
        buf.append(&mut bodies);
        assert(buf@ =~= old(buf)@ + record_bytes(self@)) by {
            reveal(record_bytes);
        }
    }
}

/// Reads the unsigned number in the `n` bytes at `pos`.
fn read_be(buf: &[u8], pos: usize, n: usize) -> (v: u64)
    requires
        n <= 8,
        pos + n <= buf.len(),
    ensures
        v == be_n(buf@, pos as int, n as nat),
{
    let mut v: u64 = 0;
    let mut i: usize = 0;
    while i < n
        invariant
            i <= n <= 8,
            pos + n <= buf.len(),
            v == be_n(buf@, pos as int, i as nat),
        decreases n - i,
    {
        proof {
            lemma_pow256_values();
            lemma_be_n_bound(buf@, pos as int, i as nat);
            lemma_pow256_monotonic(i as nat, 7);
        }
        v = v * 256 + buf[pos + i] as u64;
        i += 1;
    }
    v
}

proof fn lemma_pow256_monotonic(a: nat, b: nat)
    requires
        a <= b,
    ensures
        0 < pow256(a) <= pow256(b),
    decreases b,
{
    if a < b {
        lemma_pow256_monotonic(a, (b - 1) as nat);
    } else if b > 0 {
        lemma_pow256_monotonic((a - 1) as nat, (b - 1) as nat);
    }
}

/// The top byte decides the top half of the range.
proof fn lemma_be_n_top(s: Seq<u8>, pos: int, n: nat)
    requires
        n > 0,
    ensures
        s[pos] >= 128 ==> 2 * be_n(s, pos, n) >= pow256(n),
        s[pos] < 128 ==> 2 * be_n(s, pos, n) < pow256(n),
    decreases n,
{
    if n == 1 {
        reveal_with_fuel(be_n, 2);
        reveal_with_fuel(pow256, 2);
    } else {
        let m = (n - 1) as nat;
        lemma_be_n_top(s, pos, m);
        let half = 128 * pow256((m - 1) as nat);
        let top = be_n(s, pos, m);
        assert(pow256(m) == 2 * half);
        assert(pow256(n) == 512 * half);
        assert(be_n(s, pos, n) == top * 256 + s[pos + n - 1]);
        if s[pos] < 128 {
            assert(top <= half - 1);
        }
    }
}

/// Reads the signed number in the `n` bytes at `pos`.
fn read_signed(buf: &[u8], pos: usize, n: usize) -> (v: i64)
    requires
        n == 1 || n == 2 || n == 3 || n == 4 || n == 6 || n == 8,
        pos + n <= buf.len(),
    ensures
        v == signed_n(buf@, pos as int, n as nat),
{
    let u = read_be(buf, pos, n);
    proof {
        lemma_pow256_values();
        lemma_be_n_bound(buf@, pos as int, n as nat);
        lemma_be_n_top(buf@, pos as int, n as nat);
    }
    if buf[pos] < 128 {
        return u as i64;
    }
    let span: i128 = if n == 1 {
        0x100
    } else if n == 2 {
        0x1_0000
    } else if n == 3 {
        0x100_0000
    } else if n == 4 {
        0x1_0000_0000
    } else if n == 6 {
        0x1_0000_0000_0000
    } else {
        0x1_0000_0000_0000_0000
    };
    (u as i128 - span) as i64
}

/// A copy of the `n` bytes at `pos`.
fn copy_bytes(buf: &[u8], pos: usize, n: usize) -> (v: Vec<u8>)
    requires
        pos + n <= buf.len(),
    ensures
        v@ == buf@.subrange(pos as int, pos + n),
{
    let mut v: Vec<u8> = Vec::new();
    append_range(&mut v, buf, pos, pos + n);
    assert(v@ =~= buf@.subrange(pos as int, pos + n));
    v
}

/// Reads the value of serial type `t` at `pos`, with its length in bytes.
fn read_value(buf: &[u8], pos: usize, t: u64) -> (r: Option<(OwnedValue, usize)>)
    requires
        pos <= buf.len(),
    ensures
        match r {
            Some((v, n)) => value_at(buf@, pos as int, t as int) == Some(v@) && n == value_len(
                t as int,
            ) && pos + n <= buf@.len(),
            None => value_at(buf@, pos as int, t as int) is None,
        },
{
    if t == 10 || t == 11 {
        return None;
    }
    let len: u64 = if t <= 4 {
        t
    } else if t == 5 {
        6
    } else if t <= 7 {
        8
    } else if t < 12 {
        0
    } else {
        (t - 12) / 2
    };
    if len > (buf.len() - pos) as u64 {
        return None;
    }
    let n: usize = len as usize;
    if t == 0 {
        Some((OwnedValue::Null, n))
    } else if t <= 6 {
        Some((OwnedValue::Integer(read_signed(buf, pos, n)), n))
    } else if t == 7 {
        Some((OwnedValue::Real(read_be(buf, pos, 8)), n))
    } else if t == 8 {
        Some((OwnedValue::Integer(0), n))
    } else if t == 9 {
        Some((OwnedValue::Integer(1), n))
    } else if t % 2 == 0 {
        Some((OwnedValue::Blob(copy_bytes(buf, pos, n)), n))
    } else {
        Some((OwnedValue::Text(copy_bytes(buf, pos, n)), n))
    }
}

/// Reads the record that `payload` holds.
pub fn read_record(payload: &[u8]) -> (r: Result<OwnedRecord, StorageError>)
    ensures
        match r {
            Ok(record) => parse_record(payload@) == Some(record@),
            Err(e) => parse_record(payload@) is None && e == StorageError::CorruptRecord,
        },
{
    let (h, n): (u64, usize) = match read_varint(payload, 0) {
        Some(x) => x,
        None => return Err(StorageError::CorruptRecord),
    };
    if h < n as u64 || h > payload.len() as u64 {
        return Err(StorageError::CorruptRecord);
    }
    let end: usize = h as usize;
    let mut record = OwnedRecord { values: Vec::new() };
    let mut pos: usize = n;
    let mut body: usize = end;
    assert(record@ =~= Seq::empty());
    proof {
        lemma_values_prefix(Seq::empty(), values_at(payload@, n as int, end as int, end as int));
    }
    while pos < end
        invariant
            pos <= end <= payload.len(),
            body <= payload.len(),
            parse_record(payload@) == prefixed(
                record@,
                values_at(payload@, pos as int, end as int, body as int),
            ),
        decreases end - pos,
    {
        let (t, k): (u64, usize) = match read_varint(payload, pos) {
            Some(x) => x,
            None => return Err(StorageError::CorruptRecord),
        };
        if k > end - pos {
            return Err(StorageError::CorruptRecord);
        }
        let ghost before = record@;
        let ghost rest = values_at(
            payload@,
            pos as int + k as int,
            end as int,
            body as int + value_len(t as int),
        );
        match read_value(payload, body, t) {
            Some((v, len)) => {
                proof {
                    lemma_prefix_step(before, v@, rest);
                }
                record.values.push(v);
                assert(record@ =~= before.push(v@));
                pos = pos + k;
                body = body + len;
            },
            None => return Err(StorageError::CorruptRecord),
        }
    }
    assert(record@ + Seq::<ValueModel>::empty() =~= record@);
    Ok(record)
}

/// `rest`, where there is one, behind `front`.
pub open spec fn prefixed(front: Seq<ValueModel>, rest: Option<Seq<ValueModel>>) -> Option<
    Seq<ValueModel>,
> {
    match rest {
        Some(r) => Some(front + r),
        None => None,
    }
}

proof fn lemma_values_prefix(empty: Seq<ValueModel>, rest: Option<Seq<ValueModel>>)
    requires
        empty.len() == 0,
    ensures
        prefixed(empty, rest) == rest,
{
    match rest {
        Some(r) => {
            assert(empty + r =~= r);
        },
        None => {},
    }
}

proof fn lemma_prefix_step(front: Seq<ValueModel>, v: ValueModel, rest: Option<Seq<ValueModel>>)
    ensures
        prefixed(front, prefixed(seq![v], rest)) == prefixed(front.push(v), rest),
{
    match rest {
        Some(r) => {
            assert(front + (seq![v] + r) =~= front.push(v) + r);
        },
        None => {},
    }
}

} // verus!
