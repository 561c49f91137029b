//! Big-endian integers and block moves inside byte buffers.

use vstd::prelude::*;

verus! {

/// The two bytes at `i`, most significant first.
pub open spec fn be16(s: Seq<u8>, i: int) -> int {
    s[i] * 256 + s[i + 1]
}

/// The four bytes at `i`, most significant first.
pub open spec fn be32(s: Seq<u8>, i: int) -> int {
    be16(s, i) * 65536 + be16(s, i + 2)
}

/// `s` with the bytes from `at` on replaced by `t`.
pub open spec fn splice(s: Seq<u8>, at: int, t: Seq<u8>) -> Seq<u8> {
    Seq::new(s.len(), |k: int| if at <= k < at + t.len() { t[k - at] } else { s[k] })
}

/// The two bytes of `v`, most significant first.
pub open spec fn bytes16(v: int) -> Seq<u8> {
    seq![(v / 256) as u8, (v % 256) as u8]
}

/// The four bytes of `v`, most significant first.
pub open spec fn bytes32(v: int) -> Seq<u8> {
    bytes16(v / 65536) + bytes16(v % 65536)
}

/// `n` zero bytes.
pub open spec fn zeros(n: nat) -> Seq<u8> {
    Seq::new(n, |k: int| 0u8)
}

/// `s` with `v` written at `i` in two bytes.
pub open spec fn put16(s: Seq<u8>, i: int, v: int) -> Seq<u8> {
    splice(s, i, bytes16(v))
}

/// `s` with `v` written at `i` in four bytes.
pub open spec fn put32(s: Seq<u8>, i: int, v: int) -> Seq<u8> {
    splice(s, i, bytes32(v))
}

/// What was written in two bytes is read back.
pub proof fn lemma_be16_put16(s: Seq<u8>, i: int, v: int)
    requires
        0 <= i,
        i + 2 <= s.len(),
        0 <= v < 65536,
    ensures
        be16(put16(s, i, v), i) == v,
{
    let t = bytes16(v);
    assert(t[0] == v / 256);
    assert(t[1] == v % 256);
}

/// What was written in four bytes is read back.
pub proof fn lemma_be32_put32(s: Seq<u8>, i: int, v: int)
    requires
        0 <= i,
        i + 4 <= s.len(),
        0 <= v < 0x1_0000_0000,
    ensures
        be32(put32(s, i, v), i) == v,
{
    let t = bytes32(v);
    let hi = v / 65536;
    let lo = v % 65536;
    assert(t[0] == hi / 256);
    assert(t[1] == hi % 256);
    assert(t[2] == lo / 256);
    assert(t[3] == lo % 256);
}

/// Reads the two bytes at `i`.
pub fn get_u16(buf: &[u8], i: usize) -> (v: u16)
    requires
        i + 2 <= buf.len(),
    ensures
        v == be16(buf@, i as int),
{
    buf[i] as u16 * 256 + buf[i + 1] as u16
}

/// Reads the four bytes at `i`.
pub fn get_u32(buf: &[u8], i: usize) -> (v: u32)
    requires
        i + 4 <= buf.len(),
    ensures
        v == be32(buf@, i as int),
{
    get_u16(buf, i) as u32 * 65536 + get_u16(buf, i + 2) as u32
}

/// Writes `v` at `i` in two bytes.
pub fn set_u16(buf: &mut Vec<u8>, i: usize, v: u16)
    requires
        i + 2 <= old(buf).len(),
    ensures
        final(buf)@ == put16(old(buf)@, i as int, v as int),
{
    buf.set(i, (v / 256) as u8);
    buf.set(i + 1, (v % 256) as u8);
    assert(buf@ =~= put16(old(buf)@, i as int, v as int));
}

/// Writes `v` at `i` in four bytes.
pub fn set_u32(buf: &mut Vec<u8>, i: usize, v: u32)
    requires
        i + 4 <= old(buf).len(),
    ensures
        final(buf)@ == put32(old(buf)@, i as int, v as int),
{
    let hi: u16 = (v / 65536) as u16;
    let lo: u16 = (v % 65536) as u16;
    set_u16(buf, i, hi);
    set_u16(buf, i + 2, lo);
    assert(buf@ =~= put32(old(buf)@, i as int, v as int));
}

/// Appends the four bytes of `v`.
pub fn push_u32(buf: &mut Vec<u8>, v: u32)
    ensures
        final(buf)@ == old(buf)@ + bytes32(v as int),
{
    let hi: u16 = (v / 65536) as u16;
    let lo: u16 = (v % 65536) as u16;
    buf.push((hi / 256) as u8);
    buf.push((hi % 256) as u8);
    buf.push((lo / 256) as u8);
    buf.push((lo % 256) as u8);
    assert(buf@ =~= old(buf)@ + bytes32(v as int));
}

/// Copies `src` over the bytes of `buf` from `at` on.
pub fn copy_into(buf: &mut Vec<u8>, at: usize, src: &[u8])
    requires
        at + src.len() <= old(buf).len(),
    ensures
        final(buf)@ == splice(old(buf)@, at as int, src@),
{
    let mut i: usize = 0;
    while i < src.len()
        invariant
            i <= src@.len(),
            at + src.len() <= buf.len(),
            buf@ == splice(old(buf)@, at as int, src@.take(i as int)),
            buf@.len() == old(buf)@.len(),
        decreases src@.len() - i,
    {
        buf.set(at + i, src[i]);
        i += 1;
        assert(buf@ =~= splice(old(buf)@, at as int, src@.take(i as int)));
    }
    assert(src@.take(i as int) =~= src@);
}

/// A copy of the bytes of `buf` from `from` up to `to`.
pub fn sub_vec(buf: &[u8], from: usize, to: usize) -> (v: Vec<u8>)
    requires
        from <= to <= buf@.len(),
    ensures
        v@ == buf@.subrange(from as int, to as int),
{
    let mut v: Vec<u8> = Vec::new();
    let mut i: usize = from;
    while i < to
        invariant
            from <= i <= to <= buf@.len(),
            v@ == buf@.subrange(from as int, i as int),
        decreases to - i,
    {
        v.push(buf[i]);
        i += 1;
        assert(v@ =~= buf@.subrange(from as int, i as int));
    }
    v
}

/// Appends the bytes of `src` from `from` up to `to`.
pub fn append_range(v: &mut Vec<u8>, src: &[u8], from: usize, to: usize)
    requires
        from <= to <= src@.len(),
    ensures
        final(v)@ == old(v)@ + src@.subrange(from as int, to as int),
{
    let mut i: usize = from;
    while i < to
        invariant
            from <= i <= to <= src@.len(),
            v@ == old(v)@ + src@.subrange(from as int, i as int),
        decreases to - i,
    {
        v.push(src[i]);
        i += 1;
        assert(v@ =~= old(v)@ + src@.subrange(from as int, i as int));
    }
}

/// Moves the `n` bytes at `from` to `to`; the two ranges may overlap.
pub fn move_within(buf: &mut Vec<u8>, from: usize, n: usize, to: usize)
    requires
        from + n <= old(buf).len(),
        to + n <= old(buf).len(),
    ensures
        final(buf)@ == splice(
            old(buf)@,
            to as int,
            old(buf)@.subrange(from as int, from + n),
        ),
{
    let moved = sub_vec(buf.as_slice(), from, from + n);
    copy_into(buf, to, moved.as_slice());
}

/// Zeroes the bytes from `from` up to `to`.
pub fn clear_range(buf: &mut Vec<u8>, from: usize, to: usize)
    requires
        from <= to <= old(buf)@.len(),
    ensures
        final(buf)@ == splice(old(buf)@, from as int, zeros((to - from) as nat)),
{
    let mut i: usize = from;
    while i < to
        invariant
            from <= i <= to <= buf@.len(),
            buf@ == splice(old(buf)@, from as int, zeros((i - from) as nat)),
            buf@.len() == old(buf)@.len(),
        decreases to - i,
    {
        buf.set(i, 0);
        i += 1;
        assert(buf@ =~= splice(old(buf)@, from as int, zeros((i - from) as nat)));
    }
    assert(buf@ =~= splice(old(buf)@, from as int, zeros((to - from) as nat)));
}

/// `n` zero bytes.
pub fn zeroed(n: usize) -> (v: Vec<u8>)
    ensures
        v@ == zeros(n as nat),
{
    let mut v: Vec<u8> = Vec::new();
    while v.len() < n
        invariant
            v@.len() <= n,
            v@ == zeros(v@.len()),
        decreases n - v@.len(),
    {
        v.push(0);
        assert(v@ =~= zeros(v@.len()));
    }
    v
}

} // verus!
