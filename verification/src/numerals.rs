//! What the bytes of a number stand for.

use vstd::prelude::*;
use crate::bytes::{be16, be32, bytes16, bytes32, put16, put32};
use crate::record::{be_n, bytes64, pow256, signed_n, to_unsigned};
use crate::varint::{groups, padded_groups, varint_at, varint_bytes, varint_from};

verus! {

// ---------------------------------------------------------------------------
// Numbers of a fixed length
// ---------------------------------------------------------------------------

/// The number that the bytes are the digits of, most significant first.
pub open spec fn digits_value(b: Seq<u8>) -> int
    decreases b.len(),
{
    if b.len() == 0 {
        0
    } else {
        digits_value(b.drop_last()) * 256 + b.last()
    }
}

/// 256 to the power `n`.
pub open spec fn byte_power(n: nat) -> int
    decreases n,
{
    if n == 0 {
        1
    } else {
        byte_power((n - 1) as nat) * 256
    }
}

/// The signed number in the bytes: where the top bit is set, the number is as much
/// below zero as the bytes are below the next power of 256.
pub open spec fn signed_value(b: Seq<u8>) -> int {
    if b.len() > 0 && b[0] >= 128 {
        digits_value(b) - byte_power(b.len())
    } else {
        digits_value(b)
    }
}

/// Two and four bytes are read as the digits of a number.
pub proof fn short_numbers_are_read(s: Seq<u8>, i: int)
    requires
        0 <= i,
    ensures
        i + 2 <= s.len() ==> be16(s, i) == digits_value(s.subrange(i, i + 2)),
        i + 4 <= s.len() ==> be32(s, i) == digits_value(s.subrange(i, i + 4)),
{
    reveal_with_fuel(digits_value, 5);
    if i + 2 <= s.len() {
        let b = s.subrange(i, i + 2);
        assert(b.drop_last()[0] == s[i] && b[1] == s[i + 1]);
        assert(b.drop_last().drop_last().len() == 0);
    }
    if i + 4 <= s.len() {
        let b = s.subrange(i, i + 4);
        assert(b.last() == s[i + 3]);
        let c = b.drop_last();
        assert(c.last() == s[i + 2]);
        let d = c.drop_last();
        assert(d.last() == s[i + 1]);
        let e = d.drop_last();
        assert(e.last() == s[i]);
        assert(e.drop_last().len() == 0);
    }
}

/// The digits of a number of two, four or eight bytes are that number.
pub proof fn short_numbers_are_written(v: int)
    ensures
        0 <= v < 0x1_0000 ==> bytes16(v).len() == 2 && digits_value(bytes16(v)) == v,
        0 <= v < 0x1_0000_0000 ==> bytes32(v).len() == 4 && digits_value(bytes32(v)) == v,
        0 <= v < 0x1_0000_0000_0000_0000 ==> bytes64(v).len() == 8 && digits_value(bytes64(v))
            == v,
{
    if 0 <= v < 0x1_0000 {
        lemma_two_digits(v);
    }
    if 0 <= v < 0x1_0000_0000 {
        lemma_four_digits(v);
    }
    if 0 <= v < 0x1_0000_0000_0000_0000 {
        let hi = v / 0x1_0000_0000;
        let lo = v % 0x1_0000_0000;
        lemma_four_digits(hi);
        lemma_four_digits(lo);
        lemma_digits_join(bytes32(hi), bytes32(lo));
        assert(byte_power(4) == 0x1_0000_0000) by {
            reveal_with_fuel(byte_power, 5);
        }
        assert(hi * byte_power(4) == hi * 0x1_0000_0000);
    }
}

proof fn lemma_two_digits(v: int)
    requires
        0 <= v < 0x1_0000,
    ensures
        bytes16(v).len() == 2,
        digits_value(bytes16(v)) == v,
{
    let b = bytes16(v);
    reveal_with_fuel(digits_value, 3);
    assert(b.last() == v % 256);
    assert(b.drop_last().last() == v / 256);
    assert(b.drop_last().drop_last().len() == 0);
}

proof fn lemma_four_digits(v: int)
    requires
        0 <= v < 0x1_0000_0000,
    ensures
        bytes32(v).len() == 4,
        digits_value(bytes32(v)) == v,
{
    lemma_two_digits(v / 65536);
    lemma_two_digits(v % 65536);
    lemma_digits_join(bytes16(v / 65536), bytes16(v % 65536));
    assert(byte_power(2) == 65536) by {
        reveal_with_fuel(byte_power, 3);
    }
    assert((v / 65536) * byte_power(2) == (v / 65536) * 65536);
}

/// The digits of two numbers, one behind the other.
pub proof fn lemma_digits_join(a: Seq<u8>, b: Seq<u8>)
    ensures
        digits_value(a + b) == digits_value(a) * byte_power(b.len()) + digits_value(b),
    decreases b.len(),
{
    if b.len() == 0 {
        assert(a + b =~= a);
        assert(digits_value(a) * 1 == digits_value(a)) by (nonlinear_arith);
    } else {
        let c = b.drop_last();
        lemma_digits_join(a, c);
        assert((a + b).drop_last() =~= a + c);
        assert((a + b).last() == b.last());
        let x = digits_value(a);
        let p = byte_power(c.len());
        assert((x * p) * 256 == x * (p * 256)) by (nonlinear_arith);
    }
}

/// Writing a number of two or four bytes puts its digits there and changes no
/// other byte.
pub proof fn written_numbers_stand_there(s: Seq<u8>, i: int, v: int)
    requires
        0 <= i,
    ensures
        i + 2 <= s.len() && 0 <= v < 0x1_0000 ==> {
            &&& put16(s, i, v).len() == s.len()
            &&& digits_value(put16(s, i, v).subrange(i, i + 2)) == v
            &&& forall|k: int|
                0 <= k < s.len() && !(i <= k < i + 2) ==> #[trigger] put16(s, i, v)[k] == s[k]
        },
        i + 4 <= s.len() && 0 <= v < 0x1_0000_0000 ==> {
            &&& put32(s, i, v).len() == s.len()
            &&& digits_value(put32(s, i, v).subrange(i, i + 4)) == v
            &&& forall|k: int|
                0 <= k < s.len() && !(i <= k < i + 4) ==> #[trigger] put32(s, i, v)[k] == s[k]
        },
{
    short_numbers_are_written(v);
    if i + 2 <= s.len() && 0 <= v < 0x1_0000 {
        assert(put16(s, i, v).subrange(i, i + 2) =~= bytes16(v));
    }
    if i + 4 <= s.len() && 0 <= v < 0x1_0000_0000 {
        assert(put32(s, i, v).subrange(i, i + 4) =~= bytes32(v));
    }
}

/// A number of any length is read as its digits, with or without a sign.
pub proof fn long_numbers_are_read(s: Seq<u8>, pos: int, n: nat)
    requires
        0 <= pos,
        pos + n <= s.len(),
    ensures
        be_n(s, pos, n) == digits_value(s.subrange(pos, pos + n)),
        signed_n(s, pos, n) == signed_value(s.subrange(pos, pos + n)),
    decreases n,
{
    let b = s.subrange(pos, pos + n);
    lemma_byte_power(n);
    if n > 0 {
        long_numbers_are_read(s, pos, (n - 1) as nat);
        assert(b.drop_last() =~= s.subrange(pos, pos + n - 1));
        assert(b.last() == s[pos + n - 1]);
        assert(b[0] == s[pos]);
    }
}

proof fn lemma_byte_power(n: nat)
    ensures
        byte_power(n) == pow256(n),
        byte_power(n) >= 1,
    decreases n,
{
    if n > 0 {
        lemma_byte_power((n - 1) as nat);
    }
}

/// A signed number and the unsigned one for which it stands differ by a multiple of
/// the power of two that is out of reach, and the unsigned one is within reach.
pub proof fn signs_are_dropped(i: int)
    requires
        i64::MIN <= i <= i64::MAX,
    ensures
        0 <= to_unsigned(i) <= u64::MAX,
        (to_unsigned(i) - i) % 0x1_0000_0000_0000_0000 == 0,
{
}

// ---------------------------------------------------------------------------
// Numbers of variable length
// ---------------------------------------------------------------------------

/// The number of which the low seven bits of each byte are the digits.
pub open spec fn sevens_value(b: Seq<u8>) -> int
    decreases b.len(),
{
    if b.len() == 0 {
        0
    } else {
        sevens_value(b.drop_last()) * 128 + b.last() % 128
    }
}

/// Whether a byte says that another one follows.
pub open spec fn goes_on(b: u8) -> bool {
    b >= 128
}

/// Whether the number at `pos` has `n` bytes: all but the last say that another one
/// follows, and the last one does not or is the ninth.
pub open spec fn has_bytes(s: Seq<u8>, pos: int, n: int) -> bool {
    &&& 1 <= n <= 9
    &&& 0 <= pos
    &&& pos + n <= s.len()
    &&& forall|k: int| 0 <= k < n - 1 ==> goes_on(#[trigger] s[pos + k])
    &&& n < 9 ==> !goes_on(s[pos + n - 1])
}

/// A number of variable length is read from its bytes: their low seven bits are its
/// digits, but all eight bits of a ninth byte are.
pub proof fn varints_are_read(s: Seq<u8>, pos: int, n: int)
    requires
        has_bytes(s, pos, n),
    ensures
        n < 9 ==> varint_at(s, pos) == Some((sevens_value(s.subrange(pos, pos + n)), n)),
        n == 9 ==> varint_at(s, pos) == Some(
            (sevens_value(s.subrange(pos, pos + 8)) * 256 + s[pos + 8], 9int),
        ),
{
    lemma_varint_gathers(s, pos, n - 1);
    let b = s.subrange(pos, pos + n);
    if n < 9 {
        assert(b.drop_last() =~= s.subrange(pos, pos + n - 1));
        assert(b.last() == s[pos + n - 1]);
        assert(!goes_on(s[pos + n - 1]));
    }
}

proof fn lemma_varint_gathers(s: Seq<u8>, pos: int, k: int)
    requires
        0 <= k <= 8,
        0 <= pos,
        pos + k <= s.len(),
        forall|j: int| 0 <= j < k ==> goes_on(#[trigger] s[pos + j]),
    ensures
        varint_at(s, pos) == varint_from(s, pos, sevens_value(s.subrange(pos, pos + k)), k),
    decreases k,
{
    let b = s.subrange(pos, pos + k);
    if k > 0 {
        lemma_varint_gathers(s, pos, k - 1);
        assert(b.drop_last() =~= s.subrange(pos, pos + k - 1));
        assert(goes_on(s[pos + (k - 1)]));
        assert(b.last() == s[pos + k - 1]);
    }
}

/// Only bytes that stand for a number are read as one, and as many of them as
/// the number has.
pub proof fn read_varints_have_bytes(s: Seq<u8>, pos: int)
    requires
        0 <= pos,
        varint_at(s, pos) is Some,
    ensures
        has_bytes(s, pos, varint_at(s, pos).unwrap().1),
{
    let n = lemma_varint_ends(s, pos, 0);
    varints_are_read(s, pos, n);
}

proof fn lemma_varint_ends(s: Seq<u8>, pos: int, k: int) -> (n: int)
    requires
        0 <= k <= 8,
        0 <= pos,
        pos + k <= s.len(),
        varint_at(s, pos) is Some,
        forall|j: int| 0 <= j < k ==> goes_on(#[trigger] s[pos + j]),
    ensures
        has_bytes(s, pos, n),
    decreases 8 - k,
{
    lemma_varint_gathers(s, pos, k);
    assert(pos + k < s.len());
    if k == 8 || !goes_on(s[pos + k]) {
        k + 1
    } else {
        lemma_varint_ends(s, pos, k + 1)
    }
}

/// Bytes that end while they say that another one follows are no number.
pub proof fn broken_varints_are_not_read(s: Seq<u8>, pos: int)
    requires
        0 <= pos,
        s.len() < pos + 9,
        forall|k: int| pos <= k < s.len() ==> goes_on(#[trigger] s[k]),
    ensures
        varint_at(s, pos) is None,
{
    if pos <= s.len() {
        let k = s.len() - pos;
        assert forall|j: int| 0 <= j < k implies goes_on(#[trigger] s[pos + j]) by {}
        lemma_varint_gathers(s, pos, k);
    }
}

/// A number is written in the bytes from which it is read, and in as few as
/// there can be: the first byte has a digit, unless it is the only one, and nine
/// bytes are taken only where eight do not do.
pub proof fn varints_are_short(v: u64)
    ensures
        ({
            let b = varint_bytes(v as int);
            let n = b.len() as int;
            &&& has_bytes(b, 0, n)
            &&& n < 9 ==> sevens_value(b) == v
            &&& n == 9 ==> sevens_value(b.drop_last()) * 256 + b[8] == v
            &&& 1 < n < 9 ==> b[0] % 128 > 0
            &&& n == 9 <==> v >= 0x100_0000_0000_0000
        }),
{
    let b = varint_bytes(v as int);
    crate::varint::lemma_varint_len(v);
    if v < 0x100_0000_0000_0000 {
        let x = v as int / 128;
        let g = groups(x);
        lemma_groups(x);
        lemma_groups_short(x, 7);
        assert(b.drop_last() =~= g);
        assert(b.last() == v % 128);
        let n = b.len() as int;
        assert forall|k: int| 0 <= k < n - 1 implies goes_on(#[trigger] b[0 + k]) by {
            assert(b[k] == g[k]);
            assert(goes_on(g[k]));
        }
        assert(v % 128 < 128);
        if n > 1 {
            assert(b[0] == g[0]);
        }
    } else {
        let x = v as int / 256;
        let g = padded_groups(x, 8);
        lemma_padded(x, 8);
        assert(b.drop_last() =~= g);
        assert(b[8] == (v % 256) as u8);
        assert forall|k: int| 0 <= k < 8 implies goes_on(#[trigger] b[0 + k]) by {
            assert(b[k] == g[k]);
            assert(goes_on(g[k]));
        }
        reveal_with_fuel(sevens_power, 9);
        assert(x % 0x100_0000_0000_0000 == x);
    }
}

/// 128 to the power `n`.
spec fn sevens_power(n: nat) -> int
    decreases n,
{
    if n == 0 {
        1
    } else {
        128 * sevens_power((n - 1) as nat)
    }
}

proof fn lemma_groups(x: int)
    requires
        0 <= x,
    ensures
        sevens_value(groups(x)) == x,
        forall|k: int| 0 <= k < groups(x).len() ==> goes_on(#[trigger] groups(x)[k]),
        groups(x).len() > 0 ==> groups(x)[0] % 128 > 0,
        x > 0 ==> groups(x).len() > 0,
    decreases x,
{
    if x > 0 {
        let g = groups(x / 128);
        lemma_groups(x / 128);
        let b = groups(x);
        assert(b.drop_last() =~= g);
        assert(b.last() == (128 + x % 128) as u8);
        assert(b.last() == 128 + x % 128);
        assert forall|k: int| 0 <= k < b.len() implies goes_on(#[trigger] b[k]) by {
            if k < g.len() {
                assert(b[k] == g[k]);
                assert(goes_on(g[k]));
            }
        }
        if g.len() > 0 {
            assert(b[0] == g[0]);
        } else {
            assert(x / 128 == 0);
        }
    }
}

proof fn lemma_groups_short(x: int, n: nat)
    requires
        x < sevens_power(n) || (n == 7 && x < 0x2_0000_0000_0000),
    ensures
        groups(x).len() <= n,
    decreases n,
{
    if n == 7 {
        reveal_with_fuel(sevens_power, 8);
    }
    if x > 0 && n > 0 {
        lemma_groups_short(x / 128, (n - 1) as nat);
    }
}

proof fn lemma_padded(x: int, n: nat)
    requires
        0 <= x,
        n <= 8,
    ensures
        padded_groups(x, n).len() == n,
        x < sevens_power(n) ==> sevens_value(padded_groups(x, n)) == x,
        forall|k: int| 0 <= k < n ==> goes_on(#[trigger] padded_groups(x, n)[k]),
    decreases n,
{
    if n > 0 {
        let m = (n - 1) as nat;
        let g = padded_groups(x / 128, m);
        lemma_padded(x / 128, m);
        let b = padded_groups(x, n);
        assert(b.drop_last() =~= g);
        assert(b.last() == 128 + x % 128);
        assert forall|k: int| 0 <= k < n implies goes_on(#[trigger] b[k]) by {
            if k < m {
                assert(b[k] == g[k]);
                assert(goes_on(g[k]));
            }
        }
    }
}

} // verus!
