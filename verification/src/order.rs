//! The order of values and records, and what a search asks for.

use vstd::prelude::*;
use crate::record::{OwnedRecord, OwnedValue, ValueModel};

verus! {

/// How one thing stands to another in an order.
#[derive(Clone, Copy, Debug, PartialEq, Eq, Structural)]
pub enum Relation {
    Less,
    Equal,
    Greater,
}

/// How the integer `a` stands to `b`.
pub open spec fn int_order(a: int, b: int) -> Relation {
    if a < b {
        Relation::Less
    } else if a == b {
        Relation::Equal
    } else {
        Relation::Greater
    }
}

/// The relation seen from the other side.
pub open spec fn flip(r: Relation) -> Relation {
    match r {
        Relation::Less => Relation::Greater,
        Relation::Equal => Relation::Equal,
        Relation::Greater => Relation::Less,
    }
}

/// 2 to the power `n`.
pub open spec fn pow2(n: nat) -> int
    decreases n,
{
    if n == 0 {
        1
    } else {
        2 * pow2((n - 1) as nat)
    }
}

/// The integer that orders floating-point numbers as their values do.
pub open spec fn real_key(bits: int) -> int {
    if bits < 0x8000_0000_0000_0000 {
        bits
    } else {
        0x8000_0000_0000_0000 - bits
    }
}

/// The significand of the magnitude `m`, the bits of a number without its sign.
pub open spec fn significand(m: int) -> int {
    if m < 0x10_0000_0000_0000 {
        m
    } else {
        m % 0x10_0000_0000_0000 + 0x10_0000_0000_0000
    }
}

/// The power of two that the significand of the magnitude `m` is taken times.
pub open spec fn exponent(m: int) -> int {
    if m < 0x10_0000_0000_0000 {
        -1074
    } else {
        m / 0x10_0000_0000_0000 - 1075
    }
}

/// How the integer `i`, from 0 on, stands to the number of magnitude `m`.
pub open spec fn magnitude_order(i: int, m: int) -> Relation {
    if exponent(m) >= 0 {
        int_order(i, significand(m) * pow2(exponent(m) as nat))
    } else {
        int_order(i * pow2((-exponent(m)) as nat), significand(m))
    }
}

/// How the integer `i` stands to the floating-point number `bits`.
pub open spec fn int_real_order(i: int, bits: int) -> Relation {
    if bits < 0x8000_0000_0000_0000 {
        if i < 0 {
            Relation::Less
        } else {
            magnitude_order(i, bits)
        }
    } else {
        if i > 0 {
            Relation::Greater
        } else {
            flip(magnitude_order(-i, bits - 0x8000_0000_0000_0000))
        }
    }
}

/// The place of a value's type: nulls first, then numbers, texts and blobs.
pub open spec fn class(v: ValueModel) -> int {
    match v {
        ValueModel::Null => 0,
        ValueModel::Integer(_) => 1,
        ValueModel::Real(_) => 1,
        ValueModel::Text(_) => 2,
        ValueModel::Blob(_) => 3,
    }
}

/// How the bytes `a` stand to `b`: by the first byte in which they differ.
pub open spec fn bytes_order(a: Seq<u8>, b: Seq<u8>) -> Relation
    decreases a.len(),
{
    if a.len() == 0 {
        int_order(0, b.len() as int)
    } else if b.len() == 0 {
        Relation::Greater
    } else if a[0] != b[0] {
        int_order(a[0] as int, b[0] as int)
    } else {
        bytes_order(a.drop_first(), b.drop_first())
    }
}

/// How the value `a` stands to `b`.
pub open spec fn value_order(a: ValueModel, b: ValueModel) -> Relation {
    match (a, b) {
        (ValueModel::Integer(x), ValueModel::Integer(y)) => int_order(x, y),
        (ValueModel::Real(x), ValueModel::Real(y)) => int_order(real_key(x), real_key(y)),
        (ValueModel::Integer(x), ValueModel::Real(y)) => int_real_order(x, y),
        (ValueModel::Real(x), ValueModel::Integer(y)) => flip(int_real_order(y, x)),
        (ValueModel::Text(x), ValueModel::Text(y)) => bytes_order(x, y),
        (ValueModel::Blob(x), ValueModel::Blob(y)) => bytes_order(x, y),
        _ => int_order(class(a), class(b)),
    }
}

/// How the record `a` stands to `b`: by the first value in which they differ;
/// a record stands before those that go on where it ends.
pub open spec fn record_order(a: Seq<ValueModel>, b: Seq<ValueModel>) -> Relation
    decreases a.len(),
{
    if a.len() == 0 {
        int_order(0, b.len() as int)
    } else if b.len() == 0 {
        Relation::Greater
    } else if value_order(a[0], b[0]) != Relation::Equal {
        value_order(a[0], b[0])
    } else {
        record_order(a.drop_first(), b.drop_first())
    }
}

/// Compares two integers.
fn order_u64(a: u64, b: u64) -> (r: Relation)
    ensures
        r == int_order(a as int, b as int),
{
    if a < b {
        Relation::Less
    } else if a == b {
        Relation::Equal
    } else {
        Relation::Greater
    }
}

/// Compares two integers.
fn order_i128(a: i128, b: i128) -> (r: Relation)
    ensures
        r == int_order(a as int, b as int),
{
    if a < b {
        Relation::Less
    } else if a == b {
        Relation::Equal
    } else {
        Relation::Greater
    }
}

/// The relation seen from the other side.
fn flipped(r: Relation) -> (f: Relation)
    ensures
        f == flip(r),
{
    match r {
        Relation::Less => Relation::Greater,
        Relation::Equal => Relation::Equal,
        Relation::Greater => Relation::Less,
    }
}

pub proof fn lemma_pow2_monotonic(a: nat, b: nat)
    requires
        a <= b,
    ensures
        0 < pow2(a) <= pow2(b),
    decreases b,
{
    if a < b {
        lemma_pow2_monotonic(a, (b - 1) as nat);
    } else if b > 0 {
        lemma_pow2_monotonic((a - 1) as nat, (b - 1) as nat);
    }
}

proof fn lemma_pow2_values()
    ensures
        pow2(11) == 0x800,
        pow2(12) == 0x1000,
        pow2(53) == 0x20_0000_0000_0000,
{
    reveal_with_fuel(pow2, 13);
    assert(pow2(11) == 0x800);
    assert(pow2(12) == 0x1000);
    assert(pow2(22) == 0x40_0000) by {
        reveal_with_fuel(pow2, 12);
    }
    assert(pow2(33) == 0x2_0000_0000) by {
        reveal_with_fuel(pow2, 12);
    }
    assert(pow2(44) == 0x1000_0000_0000) by {
        reveal_with_fuel(pow2, 12);
    }
    assert(pow2(53) == 0x20_0000_0000_0000) by {
        reveal_with_fuel(pow2, 12);
    }
}

/// Computes 2 to the power `n`.
fn power_of_two(n: usize) -> (p: u64)
    requires
        n <= 53,
    ensures
        p == pow2(n as nat),
{
    let mut p: u64 = 1;
    let mut i: usize = 0;
    while i < n
        invariant
            i <= n <= 53,
            p == pow2(i as nat),
        decreases n - i,
    {
        proof {
            lemma_pow2_values();
            lemma_pow2_monotonic(i as nat, 53);
        }
        p = p * 2;
        i += 1;
    }
    p
}

/// Compares an integer from 0 on with a number of magnitude `m`.
fn order_magnitude(i: u64, m: u64) -> (r: Relation)
    requires
        m < 0x8000_0000_0000_0000,
    ensures
        r == magnitude_order(i as int, m as int),
{
    let subnormal: bool = m < 0x10_0000_0000_0000;
    let s: u64 = if subnormal {
        m
    } else {
        m % 0x10_0000_0000_0000 + 0x10_0000_0000_0000
    };
    let e: i64 = if subnormal {
        -1074
    } else {
        (m / 0x10_0000_0000_0000) as i64 - 1075
    };
    assert(s == significand(m as int) && e == exponent(m as int));
    assert(s < 0x20_0000_0000_0000);
    proof {
        lemma_pow2_values();
    }
    if e >= 0 {
        if e >= 12 {
            proof {
                lemma_pow2_monotonic(12, e as nat);
                assert(s * pow2(e as nat) > i) by (nonlinear_arith)
                    requires
                        s >= 0x10_0000_0000_0000,
                        pow2(e as nat) >= 0x1000,
                        i < 0x1_0000_0000_0000_0000,
                ;
            }
            return Relation::Less;
        }
        let p = power_of_two(e as usize);
        proof {
            lemma_pow2_monotonic(e as nat, 11);
            assert(s * p < 0x1_0000_0000_0000_0000) by (nonlinear_arith)
                requires
                    s < 0x20_0000_0000_0000,
                    p <= 0x800,
            ;
        }
        return order_u64(i, s * p);
    }
    if i == 0 {
        proof {
            assert(0 * pow2((-e) as nat) == 0) by (nonlinear_arith);
        }
        return order_u64(0, s);
    }
    if e <= -53 {
        proof {
            lemma_pow2_monotonic(53, (-e) as nat);
            assert(i * pow2((-e) as nat) > s) by (nonlinear_arith)
                requires
                    i >= 1,
                    pow2((-e) as nat) >= 0x20_0000_0000_0000,
                    s < 0x20_0000_0000_0000,
            ;
        }
        return Relation::Greater;
    }
    let p = power_of_two((-e) as usize);
    proof {
        lemma_pow2_monotonic((-e) as nat, 53);
        assert(i * p < 0x1000_0000_0000_0000_0000_0000_0000_0000) by (nonlinear_arith)
            requires
                i < 0x1_0000_0000_0000_0000,
                p <= 0x20_0000_0000_0000,
        ;
        assert(i * p >= 0) by (nonlinear_arith);
    }
    order_i128(i as i128 * p as i128, s as i128)
}

/// Compares an integer with a floating-point number.
fn order_int_real(i: i64, bits: u64) -> (r: Relation)
    ensures
        r == int_real_order(i as int, bits as int),
{
    if bits < 0x8000_0000_0000_0000 {
        if i < 0 {
            Relation::Less
        } else {
            order_magnitude(i as u64, bits)
        }
    } else {
        if i > 0 {
            Relation::Greater
        } else {
            flipped(order_magnitude((-(i as i128)) as u64, bits - 0x8000_0000_0000_0000))
        }
    }
}

/// The integer that orders floating-point numbers.
fn key_of_real(bits: u64) -> (k: i128)
    ensures
        k == real_key(bits as int),
{
    if bits < 0x8000_0000_0000_0000 {
        bits as i128
    } else {
        0x8000_0000_0000_0000 - bits as i128
    }
}

/// Compares two strings of bytes.
fn order_bytes(a: &Vec<u8>, b: &Vec<u8>) -> (r: Relation)
    ensures
        r == bytes_order(a@, b@),
{
    let mut i: usize = 0;
    assert(a@.skip(0) =~= a@);
    assert(b@.skip(0) =~= b@);
    while i < a.len() && i < b.len()
        invariant
            i <= a@.len(),
            i <= b@.len(),
            bytes_order(a@, b@) == bytes_order(a@.skip(i as int), b@.skip(i as int)),
        decreases a@.len() - i,
    {
        if a[i] != b[i] {
            return order_u64(a[i] as u64, b[i] as u64);
        }
        assert(a@.skip(i as int).drop_first() =~= a@.skip(i + 1));
        assert(b@.skip(i as int).drop_first() =~= b@.skip(i + 1));
        i += 1;
    }
    if i < a.len() {
        Relation::Greater
    } else {
        order_u64(0, (b.len() - i) as u64)
    }
}

/// The place of a value's type.
fn class_of(v: &OwnedValue) -> (c: u64)
    ensures
        c == class(v@),
{
    match v {
        OwnedValue::Null => 0,
        OwnedValue::Integer(_) => 1,
        OwnedValue::Real(_) => 1,
        OwnedValue::Text(_) => 2,
        OwnedValue::Blob(_) => 3,
    }
}

/// Compares two values.
pub fn order_values(a: &OwnedValue, b: &OwnedValue) -> (r: Relation)
    ensures
        r == value_order(a@, b@),
{
    match (a, b) {
        (OwnedValue::Integer(x), OwnedValue::Integer(y)) => order_i128(*x as i128, *y as i128),
        (OwnedValue::Real(x), OwnedValue::Real(y)) => order_i128(key_of_real(*x), key_of_real(*y)),
        (OwnedValue::Integer(x), OwnedValue::Real(y)) => order_int_real(*x, *y),
        (OwnedValue::Real(x), OwnedValue::Integer(y)) => flipped(order_int_real(*y, *x)),
        (OwnedValue::Text(x), OwnedValue::Text(y)) => order_bytes(x, y),
        (OwnedValue::Blob(x), OwnedValue::Blob(y)) => order_bytes(x, y),
        _ => order_u64(class_of(a), class_of(b)),
    }
}

/// Compares two records.
pub fn order_records(a: &OwnedRecord, b: &OwnedRecord) -> (r: Relation)
    ensures
        r == record_order(a@, b@),
{
    let mut i: usize = 0;
    assert(a@.skip(0) =~= a@);
    assert(b@.skip(0) =~= b@);
    while i < a.values.len() && i < b.values.len()
        invariant
            i <= a@.len(),
            i <= b@.len(),
            record_order(a@, b@) == record_order(a@.skip(i as int), b@.skip(i as int)),
        decreases a@.len() - i,
    {
        let r = order_values(&a.values[i], &b.values[i]);
        if r != Relation::Equal {
            return r;
        }
        assert(a@.skip(i as int).drop_first() =~= a@.skip(i + 1));
        assert(b@.skip(i as int).drop_first() =~= b@.skip(i + 1));
        i += 1;
    }
    if i < a.values.len() {
        Relation::Greater
    } else {
        order_u64(0, (b.values.len() - i) as u64)
    }
}

// ---------------------------------------------------------------------------
// Searching
// ---------------------------------------------------------------------------

/// What a search looks for.
#[derive(Clone, Copy)]
pub enum SeekKey<'a> {
    /// A row of a table, by its row id.
    TableRowId(u64),
    /// An entry of an index.
    IndexKey(&'a OwnedRecord),
}

/// What a [`SeekKey`] stands for.
pub enum KeyModel {
    RowId(int),
    Index(Seq<ValueModel>),
}

impl<'a> View for SeekKey<'a> {
    type V = KeyModel;

    open spec fn view(&self) -> KeyModel {
        match *self {
            SeekKey::TableRowId(r) => KeyModel::RowId(r as int),
            SeekKey::IndexKey(k) => KeyModel::Index(k@),
        }
    }
}

/// How the entry that is looked for stands to the key.
#[derive(Clone, Copy, Debug, PartialEq, Eq, Structural)]
pub enum SeekOp {
    EQ,
    GE,
    GT,
}

/// What a step of the cursor came to.
pub enum CursorResult<T> {
    Done(T),
    /// A page has to be read first; the step is then asked for again.
    IO,
}

/// Whether an entry that stands to the key as `r` says is one that is looked for.
pub open spec fn satisfies(r: Relation, op: SeekOp) -> bool {
    match op {
        SeekOp::GT => r == Relation::Greater,
        SeekOp::GE => r != Relation::Less,
        SeekOp::EQ => r == Relation::Equal,
    }
}

/// Whether the search goes left of a cell that stands to the key as `r` says.
pub open spec fn lies_left(r: Relation, op: SeekOp) -> bool {
    match op {
        SeekOp::GT => r == Relation::Greater,
        SeekOp::GE => r != Relation::Less,
        SeekOp::EQ => r != Relation::Less,
    }
}

impl SeekOp {
    /// Whether an entry that stands to the key as `r` says is one that is looked for.
    pub fn is_met(&self, r: Relation) -> (b: bool)
        ensures
            b == satisfies(r, *self),
    {
        match self {
            SeekOp::GT => r == Relation::Greater,
            SeekOp::GE => r != Relation::Less,
            SeekOp::EQ => r == Relation::Equal,
        }
    }

    /// Whether the search goes left of a cell that stands to the key as `r` says.
    pub fn goes_left(&self, r: Relation) -> (b: bool)
        ensures
            b == lies_left(r, *self),
    {
        match self {
            SeekOp::GT => r == Relation::Greater,
            SeekOp::GE => r != Relation::Less,
            SeekOp::EQ => r != Relation::Less,
        }
    }
}

/// Compares two row ids.
pub fn order_row_ids(a: u64, b: u64) -> (r: Relation)
    ensures
        r == int_order(a as int, b as int),
{
    order_u64(a, b)
}

proof fn lemma_bytes_order_flip(a: Seq<u8>, b: Seq<u8>)
    ensures
        bytes_order(b, a) == flip(bytes_order(a, b)),
        bytes_order(a, a) == Relation::Equal,
    decreases a.len(),
{
    if a.len() > 0 {
        if b.len() > 0 {
            lemma_bytes_order_flip(a.drop_first(), b.drop_first());
        } else {
            lemma_bytes_order_flip(a.drop_first(), b);
        }
    }
}

proof fn lemma_value_order_flip(a: ValueModel, b: ValueModel)
    ensures
        value_order(b, a) == flip(value_order(a, b)),
        value_order(a, a) == Relation::Equal,
{
    match (a, b) {
        (ValueModel::Text(x), ValueModel::Text(y)) => lemma_bytes_order_flip(x, y),
        (ValueModel::Blob(x), ValueModel::Blob(y)) => lemma_bytes_order_flip(x, y),
        _ => {},
    }
    match a {
        ValueModel::Text(x) => lemma_bytes_order_flip(x, x),
        ValueModel::Blob(x) => lemma_bytes_order_flip(x, x),
        _ => {},
    }
}

/// Comparing two records the other way round gives the opposite answer, and a
/// record is equal to itself.
pub proof fn record_order_flip(a: Seq<ValueModel>, b: Seq<ValueModel>)
    ensures
        record_order(b, a) == flip(record_order(a, b)),
        record_order(a, a) == Relation::Equal,
    decreases a.len(),
{
    if a.len() > 0 {
        lemma_value_order_flip(a[0], a[0]);
        if b.len() > 0 {
            lemma_value_order_flip(a[0], b[0]);
            record_order_flip(a.drop_first(), b.drop_first());
        } else {
            record_order_flip(a.drop_first(), b);
        }
    }
}

} // verus!
