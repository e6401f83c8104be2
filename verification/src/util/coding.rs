//! Little-endian fixed-width integers and variable-length 64-bit integers.

use vstd::prelude::*;

verus! {

/// The four bytes of `v`, least significant first.
pub open spec fn fixed32(v: u32) -> Seq<u8> {
    seq![
        (v % 256) as u8,
        ((v / 256) % 256) as u8,
        ((v / 65536) % 256) as u8,
        ((v / 16777216) % 256) as u8,
    ]
}

/// The number whose little-endian bytes are the first four of `src`.
pub open spec fn fixed32_value(src: Seq<u8>) -> int
    recommends
        src.len() >= 4,
{
    src[0] + 256 * src[1] + 65536 * src[2] + 16777216 * src[3]
}

pub fn encode_fixed_32(v: u32) -> (out: [u8; 4])
    ensures
        out@ == fixed32(v),
{
    let out: [u8; 4] = [
        (v % 256) as u8,
        ((v / 256) % 256) as u8,
        ((v / 65536) % 256) as u8,
        ((v / 16777216) % 256) as u8,
    ];
    assert(out@ =~= fixed32(v));
    out
}

pub fn decode_fixed_32(src: &[u8]) -> (v: u32)
    requires
        src@.len() >= 4,
    ensures
        v == fixed32_value(src@),
{
    let b0: u32 = src[0] as u32;
    let b1: u32 = src[1] as u32;
    let b2: u32 = src[2] as u32;
    let b3: u32 = src[3] as u32;
    b0 + 256 * b1 + 65536 * b2 + 16777216 * b3
}

/// Decoding the four bytes of a number gives the number back.
pub proof fn lemma_fixed32_round_trip(v: u32)
    ensures
        fixed32(v).len() == 4,
        fixed32_value(fixed32(v)) == v,
{
}

/// Four bytes with the same value are the same bytes.
pub proof fn lemma_fixed32_value_injective(a: Seq<u8>, b: Seq<u8>)
    requires
        a.len() == 4,
        b.len() == 4,
        fixed32_value(a) == fixed32_value(b),
    ensures
        a == b,
{
    assert(a =~= b);
}

/// The variable-length encoding of `v`: seven bits to a byte, low bits first,
/// the high bit set on every byte but the last.
pub open spec fn varint64(v: u64) -> Seq<u8>
    decreases v,
{
    if v < 128 {
        seq![v as u8]
    } else {
        seq![(v % 128 + 128) as u8] + varint64(v / 128)
    }
}

/// 128 to the power `i`.
pub open spec fn pow128(i: nat) -> int
    decreases i,
{
    if i == 0 {
        1
    } else {
        128 * pow128((i - 1) as nat)
    }
}

/// The number spelled by the low seven bits of the first `n` bytes of `src`.
pub open spec fn low_bits_value(src: Seq<u8>, n: nat) -> int
    recommends
        n <= src.len(),
    decreases n,
{
    if n == 0 {
        0
    } else {
        low_bits_value(src, (n - 1) as nat) + (src[n - 1] % 128) * pow128((n - 1) as nat)
    }
}

/// Whether an encoding ends exactly at byte `n - 1` of `src`: that byte has
/// its high bit clear and every byte before it has it set.
pub open spec fn ends_at(src: Seq<u8>, n: nat) -> bool {
    &&& 1 <= n <= src.len()
    &&& n <= 10
    &&& src[n - 1] < 128
    &&& forall|j: int| 0 <= j < n - 1 ==> src[j] >= 128
}

/// What decoding the front of `src` yields: the value and the number of bytes
/// it took, or nothing where no encoding of a 64-bit number starts there.
pub open spec fn spec_get_varint64(src: Seq<u8>) -> Option<(u64, usize)> {
    if exists|n: nat| ends_at(src, n) {
        let n = choose|n: nat| ends_at(src, n);
        if low_bits_value(src, n) <= u64::MAX {
            Some((low_bits_value(src, n) as u64, n as usize))
        } else {
            None
        }
    } else {
        None
    }
}

/// An encoding ends at one place at most.
pub proof fn lemma_ends_at_unique(src: Seq<u8>, n: nat, m: nat)
    requires
        ends_at(src, n),
        ends_at(src, m),
    ensures
        n == m,
{
    if n < m {
        assert(src[n - 1] >= 128);
    } else if m < n {
        assert(src[m - 1] >= 128);
    }
}

proof fn lemma_pow128_values()
    ensures
        pow128(0) == 1,
        pow128(1) == 128,
        pow128(2) == 16384,
        pow128(3) == 2097152,
        pow128(4) == 268435456,
        pow128(5) == 34359738368,
        pow128(6) == 4398046511104,
        pow128(7) == 562949953421312,
        pow128(8) == 72057594037927936,
        pow128(9) == 9223372036854775808,
        pow128(10) == 1180591620717411303424,
{
    reveal_with_fuel(pow128, 12);
}

proof fn lemma_pow128_monotonic(i: nat, j: nat)
    requires
        i <= j,
    ensures
        0 < pow128(i) <= pow128(j),
    decreases j,
{
    if j == 0 {
    } else if i == j {
        lemma_pow128_monotonic((i - 1) as nat, (j - 1) as nat);
    } else {
        lemma_pow128_monotonic(i, (j - 1) as nat);
    }
}

proof fn lemma_low_bits_bound(src: Seq<u8>, n: nat)
    requires
        n <= src.len(),
    ensures
        0 <= low_bits_value(src, n) < pow128(n),
    decreases n,
{
    if n > 0 {
        lemma_low_bits_bound(src, (n - 1) as nat);
        let p = pow128((n - 1) as nat);
        let d = (src[n - 1] % 128) as int;
        lemma_pow128_monotonic(0, (n - 1) as nat);
        assert(0 <= d * p <= 127 * p) by (nonlinear_arith)
            requires
                0 <= d <= 127,
                0 < p,
        ;
    }
}

/// Appends the encoding of `v` to `dst`.
pub fn put_varint64(dst: &mut Vec<u8>, v: u64)
    ensures
        final(dst)@ == old(dst)@ + varint64(v),
{
    let mut rest: u64 = v;
    let ghost done: Seq<u8> = Seq::empty();
    while rest >= 128
        invariant
            dst@ == old(dst)@ + done,
            done + varint64(rest) == varint64(v),
        decreases rest,
    {
        let b: u8 = (rest % 128 + 128) as u8;
        dst.push(b);
        proof {
            assert(varint64(rest) == seq![b] + varint64(rest / 128));
            assert((done.push(b)) + varint64(rest / 128) =~= done + varint64(rest));
            assert(old(dst)@ + done.push(b) =~= (old(dst)@ + done).push(b));
            done = done.push(b);
        }
        rest = rest / 128;
    }
    dst.push(rest as u8);
    proof {
        assert(varint64(rest) == seq![rest as u8]);
        assert((old(dst)@ + done).push(rest as u8) =~= old(dst)@ + (done + varint64(rest)));
    }
}

/// The encoding of `v` on its own.
pub fn encode_varint64(v: u64) -> (out: Vec<u8>)
    ensures
        out@ == varint64(v),
{
    let mut out: Vec<u8> = Vec::new();
    put_varint64(&mut out, v);
    assert(Seq::<u8>::empty() + varint64(v) =~= varint64(v));
    out
}

/// Decodes the number at the front of `src`.
pub fn get_varint64(src: &[u8]) -> (r: Option<(u64, usize)>)
    ensures
        r == spec_get_varint64(src@),
{
    let mut acc: u128 = 0;
    let mut scale: u128 = 1;
    let mut i: usize = 0;
    proof {
        lemma_pow128_values();
    }
    while i < src.len() && i < 10
        invariant
            i <= src.len(),
            i <= 10,
            acc == low_bits_value(src@, i as nat),
            scale == pow128(i as nat),
            forall|j: int| 0 <= j < i ==> src@[j] >= 128,
        decreases src.len() - i,
    {
        let b: u8 = src[i];
        proof {
            lemma_pow128_values();
            lemma_pow128_monotonic(i as nat, 9);
            lemma_low_bits_bound(src@, i as nat);
            lemma_low_bits_bound(src@, (i + 1) as nat);
            lemma_pow128_monotonic((i + 1) as nat, 10);
            let d = (b % 128) as int;
            let p = pow128(i as nat);
            assert(0 <= d * p <= 127 * p) by (nonlinear_arith)
                requires
                    0 <= d <= 127,
                    0 < p,
            ;
        }
        acc = acc + ((b % 128) as u128) * scale;
        if b < 128 {
            proof {
                assert(ends_at(src@, (i + 1) as nat));
                let n = choose|n: nat| ends_at(src@, n);
                lemma_ends_at_unique(src@, n, (i + 1) as nat);
            }
            if acc <= 0xffff_ffff_ffff_ffff {
                return Some((acc as u64, i + 1));
            } else {
                return None;
            }
        }
        scale = scale * 128;
        i += 1;
    }
    proof {
        if exists|n: nat| ends_at(src@, n) {
            let n = choose|n: nat| ends_at(src@, n);
            assert(src@[n - 1] >= 128);
        }
    }
    None
}

proof fn lemma_low_bits_shift(b: u8, s: Seq<u8>, n: nat)
    requires
        n <= s.len(),
    ensures
        low_bits_value(seq![b] + s, n + 1) == (b % 128) + 128 * low_bits_value(s, n),
    decreases n,
{
    let t = seq![b] + s;
    if n == 0 {
        reveal_with_fuel(low_bits_value, 2);
        assert(t[0] == b);
    } else {
        lemma_low_bits_shift(b, s, (n - 1) as nat);
        assert(t[n as int] == s[n - 1]);
        let d = (s[n - 1] % 128) as int;
        let p = pow128((n - 1) as nat);
        assert(d * (128 * p) == 128 * (d * p)) by (nonlinear_arith);
    }
}

/// The encoding of `v` takes at most ten bytes, ends where `ends_at` says,
/// and its low bits spell `v`.
pub proof fn lemma_varint64_shape(v: u64)
    ensures
        1 <= varint64(v).len() <= 10,
        ends_at(varint64(v), varint64(v).len()),
        low_bits_value(varint64(v), varint64(v).len()) == v,
        v < pow128(varint64(v).len()),
    decreases v,
{
    lemma_pow128_values();
    if v < 128 {
        reveal_with_fuel(low_bits_value, 2);
    } else {
        let w: u64 = v / 128;
        let b: u8 = (v % 128 + 128) as u8;
        lemma_varint64_shape(w);
        let s = varint64(w);
        let t = varint64(v);
        assert(t == seq![b] + s);
        lemma_low_bits_shift(b, s, s.len());
        if s.len() >= 10 {
            lemma_low_bits_bound(s, 9);
            lemma_pow128_monotonic(9, (s.len() - 1) as nat);
            assert(low_bits_value(s, s.len()) >= pow128((s.len() - 1) as nat)) by {
                assert(s[s.len() - 1] >= 1) by {
                    lemma_varint64_last_nonzero(w);
                }
                lemma_low_bits_bound(s, (s.len() - 1) as nat);
                let d = (s[s.len() - 1] % 128) as int;
                let p = pow128((s.len() - 1) as nat);
                assert(d * p >= p) by (nonlinear_arith)
                    requires
                        d >= 1,
                        p > 0,
                ;
            }
            assert(false);
        }
        assert forall|j: int| 0 <= j < t.len() - 1 implies t[j] >= 128 by {
            if j > 0 {
                assert(t[j] == s[j - 1]);
            }
        }
        assert(t[t.len() - 1] == s[s.len() - 1]);
    }
}

/// An encoding of a number of 128 or more does not end in a zero byte.
proof fn lemma_varint64_last_nonzero(v: u64)
    requires
        v >= 1,
    ensures
        varint64(v).last() >= 1,
    decreases v,
{
    if v >= 128 {
        lemma_varint64_last_nonzero(v / 128);
        let s = varint64(v / 128);
        let t = varint64(v);
        assert(t.last() == s.last());
    }
}

/// Decoding an encoded number, whatever follows it, gives the number back
/// and the length of its encoding.
pub proof fn lemma_varint64_round_trip(v: u64, rest: Seq<u8>)
    ensures
        spec_get_varint64(varint64(v) + rest) == Some((v, varint64(v).len() as usize)),
{
    let s = varint64(v);
    let t = s + rest;
    lemma_varint64_shape(v);
    assert forall|j: int| 0 <= j < s.len() implies t[j] == s[j] by {}
    assert(ends_at(t, s.len()));
    let n = choose|n: nat| ends_at(t, n);
    lemma_ends_at_unique(t, n, s.len());
    lemma_low_bits_prefix(s, rest, s.len());
}

proof fn lemma_low_bits_prefix(s: Seq<u8>, rest: Seq<u8>, n: nat)
    requires
        n <= s.len(),
    ensures
        low_bits_value(s + rest, n) == low_bits_value(s, n),
    decreases n,
{
    if n > 0 {
        lemma_low_bits_prefix(s, rest, (n - 1) as nat);
        assert((s + rest)[n - 1] == s[n - 1]);
    }
}

/// Different numbers have different encodings.
pub proof fn lemma_varint64_injective(a: u64, b: u64)
    requires
        varint64(a) == varint64(b),
    ensures
        a == b,
{
    lemma_varint64_shape(a);
    lemma_varint64_shape(b);
}

} // verus!
