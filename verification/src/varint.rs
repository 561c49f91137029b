//! Variable-length integers: one to nine bytes, most significant group first.
//!
//! Each of the first eight bytes carries seven bits, and its high bit says
//! that another byte follows. A ninth byte carries eight bits.

use vstd::prelude::*;

verus! {

/// What reading goes on to give once `k` bytes of the integer at `pos` have
/// been read and made `acc`: the value and the number of bytes it takes.
pub open spec fn varint_from(s: Seq<u8>, pos: int, acc: int, k: int) -> Option<(int, int)>
    decreases 8 - k,
{
    if pos + k >= s.len() {
        None
    } else if k >= 8 {
        Some((acc * 256 + s[pos + k], k + 1))
    } else if s[pos + k] < 128 {
        Some((acc * 128 + s[pos + k], k + 1))
    } else {
        varint_from(s, pos, acc * 128 + (s[pos + k] - 128), k + 1)
    }
}

/// The integer at `pos` and its length; `None` if the bytes end within it.
pub open spec fn varint_at(s: Seq<u8>, pos: int) -> Option<(int, int)> {
    varint_from(s, pos, 0, 0)
}

/// The seven-bit groups of `x`, none for zero, each marked as followed by another.
pub open spec fn groups(x: int) -> Seq<u8>
    decreases x,
{
    if x <= 0 {
        Seq::empty()
    } else {
        groups(x / 128).push((128 + x % 128) as u8)
    }
}

/// The `n` lowest seven-bit groups of `x`, each marked as followed by another.
pub open spec fn padded_groups(x: int, n: nat) -> Seq<u8>
    decreases n,
{
    if n == 0 {
        Seq::empty()
    } else {
        padded_groups(x / 128, (n - 1) as nat).push((128 + x % 128) as u8)
    }
}

/// The encoding of `v`.
pub open spec fn varint_bytes(v: int) -> Seq<u8> {
    if v < 0x100_0000_0000_0000 {
        groups(v / 128).push((v % 128) as u8)
    } else {
        padded_groups(v / 256, 8).push((v % 256) as u8)
    }
}

/// 128 to the power `n`.
pub open spec fn pow128(n: nat) -> int
    decreases n,
{
    if n == 0 {
        1
    } else {
        128 * pow128((n - 1) as nat)
    }
}

proof fn lemma_groups_len(x: int, n: nat)
    requires
        x < pow128(n),
    ensures
        groups(x).len() <= n,
    decreases n,
{
    if x > 0 {
        if n > 0 {
            lemma_groups_len(x / 128, (n - 1) as nat);
        }
    }
}

proof fn lemma_padded_len(x: int, n: nat)
    ensures
        padded_groups(x, n).len() == n,
    decreases n,
{
    if n > 0 {
        lemma_padded_len(x / 128, (n - 1) as nat);
    }
}

/// Reading past the groups of `x` gathers `x`.
proof fn lemma_read_groups(s: Seq<u8>, pos: int, x: int)
    requires
        0 <= x,
        0 <= pos,
        groups(x).len() <= 8,
        pos + groups(x).len() <= s.len(),
        s.subrange(pos, pos + groups(x).len()) == groups(x),
    ensures
        varint_at(s, pos) == varint_from(s, pos, x, groups(x).len() as int),
    decreases x,
{
    if x > 0 {
        let g = groups(x);
        let h = groups(x / 128);
        assert(s.subrange(pos, pos + h.len()) =~= h) by {
            assert forall|i: int| 0 <= i < h.len() implies s[pos + i] == h[i] by {
                assert(s.subrange(pos, pos + g.len())[i] == g[i]);
            }
        }
        lemma_read_groups(s, pos, x / 128);
        assert(s[pos + h.len()] == (128 + x % 128) as u8) by {
            assert(s.subrange(pos, pos + g.len())[h.len() as int] == g[h.len() as int]);
        }
    }
}

/// Reading past the `n` lowest groups of `x` gathers `x`.
proof fn lemma_read_padded(s: Seq<u8>, pos: int, x: int, n: nat)
    requires
        0 <= x < pow128(n),
        0 <= pos,
        n <= 8,
        pos + n <= s.len(),
        s.subrange(pos, pos + n) == padded_groups(x, n),
    ensures
        varint_at(s, pos) == varint_from(s, pos, x, n as int),
    decreases n,
{
    if n > 0 {
        let m = (n - 1) as nat;
        let g = padded_groups(x, n);
        let h = padded_groups(x / 128, m);
        lemma_padded_len(x / 128, m);
        assert(s.subrange(pos, pos + m) =~= h) by {
            assert forall|i: int| 0 <= i < m implies s[pos + i] == h[i] by {
                assert(s.subrange(pos, pos + n)[i] == g[i]);
            }
        }
        lemma_read_padded(s, pos, x / 128, m);
        assert(s[pos + m] == (128 + x % 128) as u8) by {
            assert(s.subrange(pos, pos + n)[m as int] == g[m as int]);
        }
    }
}

proof fn lemma_pow128_values()
    ensures
        pow128(7) == 0x2_0000_0000_0000,
        pow128(8) == 0x100_0000_0000_0000,
{
    reveal_with_fuel(pow128, 9);
}

/// An encoding takes one to nine bytes.
pub proof fn lemma_varint_len(v: u64)
    ensures
        1 <= varint_bytes(v as int).len() <= 9,
{
    lemma_pow128_values();
    if v < 0x100_0000_0000_0000 {
        lemma_groups_len(v as int / 128, 7);
    } else {
        lemma_padded_len(v as int / 256, 8);
    }
}

proof fn lemma_groups_monotonic(x: int, y: int)
    requires
        x <= y,
    ensures
        groups(x).len() <= groups(y).len(),
    decreases y,
{
    if x > 0 {
        lemma_groups_monotonic(x / 128, y / 128);
    }
}

/// A greater integer takes as many bytes or more.
pub proof fn lemma_varint_len_monotonic(a: u64, b: u64)
    requires
        a <= b,
    ensures
        varint_bytes(a as int).len() <= varint_bytes(b as int).len(),
{
    lemma_pow128_values();
    if b < 0x100_0000_0000_0000 {
        lemma_groups_monotonic(a as int / 128, b as int / 128);
    } else {
        lemma_padded_len(b as int / 256, 8);
        lemma_varint_len(a);
    }
}

/// Whatever stands round an encoding, reading it gives back the integer and
/// the length of the encoding.
pub proof fn varint_round_trip(s: Seq<u8>, pos: int, v: u64)
    requires
        0 <= pos,
        pos + varint_bytes(v as int).len() <= s.len(),
        s.subrange(pos, pos + varint_bytes(v as int).len()) == varint_bytes(v as int),
    ensures
        varint_at(s, pos) == Some((v as int, varint_bytes(v as int).len() as int)),
{
    lemma_pow128_values();
    let e = varint_bytes(v as int);
    if v < 0x100_0000_0000_0000 {
        let h = groups(v as int / 128);
        lemma_groups_len(v as int / 128, 7);
        assert(s.subrange(pos, pos + h.len()) =~= h) by {
            assert forall|i: int| 0 <= i < h.len() implies s[pos + i] == h[i] by {
                assert(s.subrange(pos, pos + e.len())[i] == e[i]);
            }
        }
        lemma_read_groups(s, pos, v as int / 128);
        assert(s[pos + h.len()] == (v % 128) as u8) by {
            assert(s.subrange(pos, pos + e.len())[h.len() as int] == e[h.len() as int]);
        }
    } else {
        let h = padded_groups(v as int / 256, 8);
        lemma_padded_len(v as int / 256, 8);
        assert(s.subrange(pos, pos + 8) =~= h) by {
            assert forall|i: int| 0 <= i < 8 implies s[pos + i] == h[i] by {
                assert(s.subrange(pos, pos + e.len())[i] == e[i]);
            }
        }
        lemma_read_padded(s, pos, v as int / 256, 8);
        assert(s[pos + 8] == (v % 256) as u8) by {
            assert(s.subrange(pos, pos + e.len())[8] == e[8]);
        }
    }
}

/// An integer read from one buffer is read from any other that holds the
/// same bytes there.
pub proof fn lemma_varint_frame(s: Seq<u8>, p: int, t: Seq<u8>, q: int, acc: int, k: int)
    requires
        0 <= p,
        0 <= q,
        0 <= k <= 8,
        varint_from(s, p, acc, k) is Some,
        q + varint_from(s, p, acc, k).unwrap().1 <= t.len(),
        forall|i: int|
            k <= i < varint_from(s, p, acc, k).unwrap().1 ==> #[trigger] s[p + i] == t[q + i],
    ensures
        varint_from(t, q, acc, k) == varint_from(s, p, acc, k),
        k < varint_from(s, p, acc, k).unwrap().1 <= 9,
        p + varint_from(s, p, acc, k).unwrap().1 <= s.len(),
    decreases 8 - k,
{
    lemma_varint_bounds(s, p, acc, k);
    assert(s[p + k] == t[q + k]);
    if k < 8 && s[p + k] >= 128 {
        lemma_varint_frame(s, p, t, q, acc * 128 + (s[p + k] - 128), k + 1);
    }
}

/// A read integer lies inside the buffer.
pub proof fn lemma_varint_bounds(s: Seq<u8>, p: int, acc: int, k: int)
    requires
        0 <= p,
        0 <= k <= 8,
        varint_from(s, p, acc, k) is Some,
    ensures
        k < varint_from(s, p, acc, k).unwrap().1 <= 9,
        p + varint_from(s, p, acc, k).unwrap().1 <= s.len(),
    decreases 8 - k,
{
    if k < 8 && s[p + k] >= 128 {
        lemma_varint_bounds(s, p, acc * 128 + (s[p + k] - 128), k + 1);
    }
}

/// A read integer has 64 bits.
pub proof fn lemma_varint_value(s: Seq<u8>, p: int, acc: int, k: int)
    requires
        0 <= k <= 8,
        0 <= acc < pow128(k as nat),
        varint_from(s, p, acc, k) is Some,
    ensures
        0 <= varint_from(s, p, acc, k).unwrap().0 <= u64::MAX,
    decreases 8 - k,
{
    lemma_pow128_values();
    if k < 8 {
        lemma_pow128_monotonic((k + 1) as nat, 8);
        if s[p + k] >= 128 {
            lemma_varint_value(s, p, acc * 128 + (s[p + k] - 128), k + 1);
        }
    }
}

/// Reads the integer at `pos`: its value and its length in bytes.
pub fn read_varint(buf: &[u8], pos: usize) -> (r: Option<(u64, usize)>)
    ensures
        match r {
            Some((v, n)) => varint_at(buf@, pos as int) == Some((v as int, n as int)) && 1 <= n
                <= 9 && pos + n <= buf@.len(),
            None => varint_at(buf@, pos as int) is None,
        },
{
    let mut v: u64 = 0;
    let mut k: usize = 0;
    proof {
        lemma_pow128_values();
    }
    while k < 8
        invariant
            k <= 8,
            0 <= v < pow128(k as nat),
            pow128(8) == 0x100_0000_0000_0000,
            varint_at(buf@, pos as int) == varint_from(buf@, pos as int, v as int, k as int),
        decreases 8 - k,
    {
        proof {
            lemma_pow128_monotonic((k + 1) as nat, 8);
        }
        if pos >= buf.len() || k >= buf.len() - pos {
            return None;
        }
        let c: u8 = buf[pos + k];
        if c < 128 {
            return Some((v * 128 + c as u64, k + 1));
        }
        v = v * 128 + (c - 128) as u64;
        k += 1;
    }
    if pos >= buf.len() || k >= buf.len() - pos {
        return None;
    }
    Some((v * 256 + buf[pos + k] as u64, k + 1))
}

proof fn lemma_pow128_monotonic(a: nat, b: nat)
    requires
        a <= b,
    ensures
        0 < pow128(a) <= pow128(b),
    decreases b,
{
    if a < b {
        lemma_pow128_monotonic(a, (b - 1) as nat);
    } else if b > 0 {
        lemma_pow128_monotonic((a - 1) as nat, (b - 1) as nat);
    }
}

/// Appends the seven-bit groups of `x`.
fn push_groups(buf: &mut Vec<u8>, x: u64)
    ensures
        final(buf)@ == old(buf)@ + groups(x as int),
    decreases x,
{
    if x == 0 {
        assert(buf@ =~= old(buf)@ + groups(0));
    } else {
        push_groups(buf, x / 128);
        buf.push((128 + x % 128) as u8);
        assert(buf@ =~= old(buf)@ + groups(x as int));
    }
}

/// Appends the `n` lowest seven-bit groups of `x`.
fn push_padded_groups(buf: &mut Vec<u8>, x: u64, n: usize)
    ensures
        final(buf)@ == old(buf)@ + padded_groups(x as int, n as nat),
    decreases n,
{
    if n == 0 {
        assert(buf@ =~= old(buf)@ + padded_groups(x as int, 0));
    } else {
        push_padded_groups(buf, x / 128, n - 1);
        buf.push((128 + x % 128) as u8);
        assert(buf@ =~= old(buf)@ + padded_groups(x as int, n as nat));
    }
}

/// Appends the encoding of `value`.
pub fn write_varint_to_vec(value: u64, buf: &mut Vec<u8>)
    ensures
        final(buf)@ == old(buf)@ + varint_bytes(value as int),
{
    if value < 0x100_0000_0000_0000 {
        push_groups(buf, value / 128);
        buf.push((value % 128) as u8);
    } else {
        push_padded_groups(buf, value / 256, 8);
        buf.push((value % 256) as u8);
    }
    assert(buf@ =~= old(buf)@ + varint_bytes(value as int));
}

} // verus!
