//! SQLite variable-length integers: 1 to 9 bytes, 7 data bits per byte with
//! the high bit as a continuation flag, except that a 9th byte contributes
//! all 8 of its bits.

use vstd::prelude::*;
use crate::error::Error;

verus! {

/// Decoding from position `k` of `s` with `acc` holding the bits gathered so
/// far.  Each non-terminal byte has its high bit set and contributes its low
/// 7 bits; the first byte with the high bit clear ends the value; a 9th byte
/// is always terminal and contributes all 8 bits.  `None` means the bytes
/// ran out first.
pub open spec fn varint_decode_from(s: Seq<u8>, k: int, acc: int) -> Option<(int, int)>
    decreases 9 - k,
{
    if k < 0 || k >= s.len() || k >= 9 {
        None
    } else if k == 8 {
        Some((acc * 256 + s[k], 9))
    } else if s[k] < 128 {
        Some((acc * 128 + s[k], k + 1))
    } else {
        varint_decode_from(s, k + 1, acc * 128 + (s[k] - 128))
    }
}

/// The value and byte length of the varint at the start of `s`, if any.
pub open spec fn varint_decode(s: Seq<u8>) -> Option<(int, int)> {
    varint_decode_from(s, 0, 0)
}

/// A decoded varint spans at least one byte, at most nine, and lies inside
/// the input.
pub proof fn lemma_varint_decode_len(s: Seq<u8>, k: int, acc: int)
    requires
        varint_decode_from(s, k, acc) is Some,
    ensures
        k < varint_decode_from(s, k, acc)->Some_0.1 <= s.len(),
        varint_decode_from(s, k, acc)->Some_0.1 <= 9,
    decreases 9 - k,
{
    if 0 <= k && k < s.len() && k < 9 && k != 8 && s[k] >= 128 {
        lemma_varint_decode_len(s, k + 1, acc * 128 + (s[k] - 128));
    }
}

/// 128 to the power `n`: the number of values `n` 7-bit groups can hold.
pub open spec fn pow128(n: int) -> int
    decreases n,
{
    if n <= 0 {
        1
    } else {
        128 * pow128(n - 1)
    }
}

proof fn lemma_pow128_mono(a: int, b: int)
    requires
        0 <= a <= b,
    ensures
        0 < pow128(a) <= pow128(b),
    decreases b,
{
    if b > 0 {
        if a == b {
            lemma_pow128_mono(a - 1, b - 1);
        } else {
            lemma_pow128_mono(a, b - 1);
        }
    }
}

/// A decoded varint: its value and how many bytes of input it spanned.
#[derive(Debug, Clone, Copy, Eq, PartialEq, Structural)]
pub struct Varint {
    pub value: u64,
    pub byte_len: usize,
}

impl Varint {
    /// Decodes the varint that starts at `pos` in `s`.  Fails with
    /// `UnexpectedEof` exactly when the bytes run out before a terminal
    /// byte; a varint never spans more than 9 bytes.
    pub fn new(s: &[u8], pos: usize) -> (r: Result<Varint, Error>)
        requires
            pos <= s@.len(),
        ensures
            match r {
                Ok(v) => varint_decode(s@.skip(pos as int)) == Some(
                    (v.value as int, v.byte_len as int),
                ) && 1 <= v.byte_len <= 9,
                Err(e) => e == Error::UnexpectedEof && varint_decode(
                    s@.skip(pos as int),
                ) is None,
            },
    {
        let ghost t = s@.skip(pos as int);
        let mut value: u64 = 0;
        let mut i: usize = 0;
        loop
            invariant
                pos <= s@.len(),
                t == s@.skip(pos as int),
                i <= 8,
                value < pow128(i as int),
                varint_decode_from(t, 0, 0) == varint_decode_from(t, i as int, value as int),
            decreases 8 - i,
        {
            proof {
                reveal_with_fuel(pow128, 10);
                lemma_pow128_mono(i as int, 8);
            }
            if s.len() - pos <= i {
                assert(i >= t.len());
                return Err(Error::UnexpectedEof);
            }
            let b = s[pos + i];
            assert(t[i as int] == b);
            if i == 8 {
                assert(value < pow128(8));
                let v = value * 256 + b as u64;
                return Ok(Varint { value: v, byte_len: 9 });
            }
            if b < 128 {
                let v = value * 128 + b as u64;
                return Ok(Varint { value: v, byte_len: i + 1 });
            }
            assert(value * 128 + (b - 128) < pow128(i + 1)) by (nonlinear_arith)
                requires
                    value < pow128(i as int),
                    b - 128 < 128,
                    pow128(i + 1) == 128 * pow128(i as int),
            ;
            value = value * 128 + (b - 128) as u64;
            i = i + 1;
        }
    }

    /// The decoded value.
    pub fn value(&self) -> (r: u64)
        ensures
            r == self.value,
    {
        self.value
    }

    /// How many bytes of input the varint spanned.
    pub fn byte_len(&self) -> (r: usize)
        ensures
            r == self.byte_len,
    {
        self.byte_len
    }
}

/// The big-endian 7-bit groups of `w` in exactly `n` bytes, every one with
/// its continuation bit set.
pub open spec fn cont_groups(w: int, n: int) -> Seq<u8>
    decreases n,
{
    if n <= 1 {
        seq![(w + 128) as u8]
    } else {
        cont_groups(w / 128, n - 1).push((w % 128 + 128) as u8)
    }
}

proof fn lemma_cont_groups_len(w: int, n: int)
    requires
        n >= 1,
    ensures
        cont_groups(w, n).len() == n,
    decreases n,
{
    if n > 1 {
        lemma_cont_groups_len(w / 128, n - 1);
    }
}

/// Decoding a run of continuation bytes folds their payload into the
/// accumulator: 7 bits per byte, most significant first.
proof fn lemma_decode_cont(s: Seq<u8>, k: int, acc: int, w: int, n: int)
    requires
        1 <= n,
        0 <= k,
        k + n <= 8,
        k + n <= s.len(),
        0 <= w < pow128(n),
        s.subrange(k, k + n) =~= cont_groups(w, n),
    ensures
        varint_decode_from(s, k, acc) == varint_decode_from(s, k + n, acc * pow128(n) + w),
    decreases n,
{
    reveal_with_fuel(pow128, 10);
    lemma_cont_groups_len(w, n);
    if n == 1 {
        assert(cont_groups(w, 1) =~= seq![(w + 128) as u8]);
        assert(s.subrange(k, k + 1)[0] == s[k]);
        assert(s[k] == (w + 128) as u8);
        assert(s[k] >= 128);
        assert(varint_decode_from(s, k, acc) == varint_decode_from(s, k + 1, acc * 128 + (s[k] - 128)));
        assert(acc * 128 + w == acc * pow128(1) + w);
    } else {
        lemma_cont_groups_len(w / 128, n - 1);
        assert(0 <= w / 128 < pow128(n - 1)) by (nonlinear_arith)
            requires 0 <= w < pow128(n), pow128(n) == 128 * pow128(n - 1), n >= 1,
        ;
        assert(s.subrange(k, k + n - 1) =~= cont_groups(w / 128, n - 1)) by {
            assert forall|i: int| 0 <= i < n - 1 implies s.subrange(k, k + n - 1)[i]
                == #[trigger] cont_groups(w / 128, n - 1)[i] by {
                assert(s.subrange(k, k + n)[i] == cont_groups(w, n)[i]);
            }
        }
        lemma_decode_cont(s, k, acc, w / 128, n - 1);
        let acc2 = acc * pow128(n - 1) + w / 128;
        assert(s[k + n - 1] == cont_groups(w, n)[n - 1]);
        assert(cont_groups(w, n)[n - 1] == (w % 128 + 128) as u8);
        assert(s[k + n - 1] >= 128);
        assert(varint_decode_from(s, k + n - 1, acc2) == varint_decode_from(
            s,
            k + n,
            acc2 * 128 + (w % 128),
        ));
        assert(acc2 * 128 + w % 128 == acc * pow128(n) + w) by (nonlinear_arith)
            requires
                acc2 == acc * pow128(n - 1) + w / 128,
                pow128(n) == 128 * pow128(n - 1),
                w == 128 * (w / 128) + w % 128,
        ;
    }
}

/// Emits the big-endian 7-bit groups of `w` in exactly `n` bytes, each with
/// its continuation bit set.
fn push_cont_groups(w: u64, n: usize, out: &mut Vec<u8>)
    requires
        1 <= n <= 8,
        w < pow128(n as int),
    ensures
        final(out)@ == old(out)@ + cont_groups(w as int, n as int),
    decreases n,
{
    proof {
        reveal_with_fuel(pow128, 10);
    }
    if n == 1 {
        out.push((w as u8) + 128);
    } else {
        assert(w / 128 < pow128(n - 1)) by (nonlinear_arith)
            requires w < pow128(n as int), pow128(n as int) == 128 * pow128(n - 1), n >= 1,
        ;
        push_cont_groups(w / 128, n - 1, out);
        out.push((w % 128) as u8 + 128);
        assert(out@ =~= old(out)@ + cont_groups(w as int, n as int));
    }
}

/// Encodes `v` as a varint.  The result decodes back to `v` over its whole
/// length, which is between 1 and 9 bytes: the round trip holds for every
/// 64-bit value.
pub fn encode_varint(v: u64) -> (r: Vec<u8>)
    ensures
        1 <= r@.len() <= 9,
        varint_decode(r@) == Some((v as int, r@.len() as int)),
{
    proof {
        reveal_with_fuel(pow128, 10);
    }
    let mut out: Vec<u8> = Vec::new();
    if v < 128 {
        out.push(v as u8);
        assert(varint_decode_from(out@, 0, 0) == Some((v as int, 1int)));
        return out;
    }
    // count how many 7-bit groups v needs, capped at 8
    let mut n: usize = 1;
    let mut limit: u64 = 128;
    while v >= limit && n < 8
        invariant
            1 <= n <= 8,
            limit == pow128(n as int),
            n > 1 ==> v >= pow128(n - 1),
        decreases 8 - n,
    {
        proof {
            reveal_with_fuel(pow128, 10);
            lemma_pow128_mono(n as int, 7);
        }
        assert(limit * 128 == pow128(n + 1));
        limit = limit * 128;
        n = n + 1;
    }
    if v < limit {
        // short form: n groups, the last byte terminal
        assert(n >= 2);
        assert(v / 128 < pow128(n - 1)) by (nonlinear_arith)
            requires v < pow128(n as int), pow128(n as int) == 128 * pow128(n - 1), n >= 1,
        ;
        push_cont_groups(v / 128, n - 1, &mut out);
        out.push((v % 128) as u8);
        proof {
            lemma_cont_groups_len(v as int / 128, n - 1);
            assert(out@.subrange(0, n - 1) =~= cont_groups(v as int / 128, n - 1));
            lemma_decode_cont(out@, 0, 0, v as int / 128, n - 1);
            assert(varint_decode_from(out@, 0, 0) == varint_decode_from(
                out@,
                n - 1,
                v as int / 128,
            ));
            assert(out@[n - 1] == (v % 128) as u8);
            assert(out@[n - 1] < 128);
            assert((v as int / 128) * 128 + (v as int) % 128 == v as int) by (nonlinear_arith);
        }
        return out;
    }
    // nine-byte form: 8 continuation bytes of 7 bits, then a full final byte
    assert(n == 8 && v >= pow128(8));
    let hi = v / 256;
    assert(hi < pow128(8)) by (nonlinear_arith)
        requires hi == v / 256, v <= 0xffff_ffff_ffff_ffffu64, pow128(8) == 0x100_0000_0000_0000,
    ;
    push_cont_groups(hi, 8, &mut out);
    out.push((v % 256) as u8);
    proof {
        lemma_cont_groups_len(hi as int, 8);
        assert(out@.subrange(0, 8) =~= cont_groups(hi as int, 8));
        lemma_decode_cont(out@, 0, 0, hi as int, 8);
        assert(varint_decode_from(out@, 0, 0) == varint_decode_from(out@, 8, hi as int));
        assert(out@[8] == (v % 256) as u8);
        assert(hi as int * 256 + (v as int) % 256 == v as int) by (nonlinear_arith)
            requires hi == v / 256,
        ;
    }
    out
}

} // verus!
