//! Bounds-checked readers over a byte slice, and the big-endian integer
//! interpretation they decode.

use vstd::prelude::*;
use crate::error::Error;

verus! {

/// The unsigned big-endian integer held by `n` bytes of `s` starting at
/// `pos`: the first byte is the most significant.
pub open spec fn be_uint(s: Seq<u8>, pos: int, n: int) -> int
    decreases n,
{
    if n <= 0 {
        0
    } else {
        be_uint(s, pos, n - 1) * 256 + s[pos + n - 1]
    }
}

/// The two's-complement reading of an `n`-byte big-endian integer whose
/// unsigned reading is `raw`.
pub open spec fn twos_complement(n: int, raw: int) -> int {
    if raw >= pow256(n) / 2 {
        raw - pow256(n)
    } else {
        raw
    }
}

/// 256 to the power `n`.
pub open spec fn pow256(n: int) -> int
    decreases n,
{
    if n <= 0 {
        1
    } else {
        256 * pow256(n - 1)
    }
}

pub proof fn lemma_pow256_mono(a: int, b: int)
    requires
        0 <= a <= b,
    ensures
        0 < pow256(a) <= pow256(b),
    decreases b,
{
    if b > 0 {
        if a == b {
            lemma_pow256_mono(a - 1, b - 1);
        } else {
            lemma_pow256_mono(a, b - 1);
        }
    }
}

/// Reading an integer out of a subrange reads the same bytes.
pub proof fn lemma_be_uint_subrange(s: Seq<u8>, pos: int, n: int)
    requires
        0 <= pos,
        0 <= n,
        pos + n <= s.len(),
    ensures
        be_uint(s.subrange(pos, pos + n), 0, n) == be_uint(s, pos, n),
    decreases n,
{
    if n > 0 {
        let sub = s.subrange(pos, pos + n);
        let sub2 = s.subrange(pos, pos + n - 1);
        lemma_be_uint_subrange(s, pos, n - 1);
        lemma_be_uint_prefix(sub, sub2, n - 1);
        assert(sub[n - 1] == s[pos + n - 1]);
    }
}

/// `be_uint` only looks at the first `n` bytes.
pub proof fn lemma_be_uint_prefix(a: Seq<u8>, b: Seq<u8>, n: int)
    requires
        0 <= n <= a.len(),
        n <= b.len(),
        forall|i: int| 0 <= i < n ==> a[i] == b[i],
    ensures
        be_uint(a, 0, n) == be_uint(b, 0, n),
    decreases n,
{
    if n > 0 {
        lemma_be_uint_prefix(a, b, n - 1);
    }
}

pub proof fn lemma_be_uint_bound(s: Seq<u8>, pos: int, n: int)
    requires
        0 <= pos,
        pos + n <= s.len(),
        0 <= n,
    ensures
        0 <= be_uint(s, pos, n) < pow256(n),
    decreases n,
{
    if n > 0 {
        lemma_be_uint_bound(s, pos, n - 1);
        assert(be_uint(s, pos, n - 1) * 256 <= (pow256(n - 1) - 1) * 256) by (nonlinear_arith)
            requires be_uint(s, pos, n - 1) <= pow256(n - 1) - 1;
        assert(be_uint(s, pos, n - 1) * 256 >= 0) by (nonlinear_arith)
            requires be_uint(s, pos, n - 1) >= 0;
    }
}

/// Reads the single byte at `pos`, or fails when `pos` lies past the end.
pub fn read_1_byte(s: &[u8], pos: usize) -> (r: Result<u8, Error>)
    ensures
        pos < s@.len() ==> r == Ok::<u8, Error>(s@[pos as int]),
        pos >= s@.len() ==> r == Err::<u8, Error>(Error::UnexpectedEof),
{
    if pos < s.len() {
        Ok(s[pos])
    } else {
        Err(Error::UnexpectedEof)
    }
}

/// Copies the `n` bytes starting at `pos` into a fresh vector, or fails when
/// they do not all lie inside `s`.
pub fn read_n_bytes(s: &[u8], pos: usize, n: usize) -> (r: Result<Vec<u8>, Error>)
    ensures
        pos + n <= s@.len() ==> (r matches Ok(v) && v@ == s@.subrange(
            pos as int,
            pos + n,
        )),
        pos + n > s@.len() ==> r == Err::<Vec<u8>, Error>(Error::UnexpectedEof),
{
    if n <= s.len() && pos <= s.len() - n {
        let len = s.len();
        let mut v: Vec<u8> = Vec::new();
        let mut i: usize = 0;
        while i < n
            invariant
                pos + n <= len == s@.len(),
                i <= n,
                v@ == s@.subrange(pos as int, pos + i),
            decreases n - i,
        {
            v.push(s[pos + i]);
            assert(v@ == s@.subrange(pos as int, pos + i + 1));
            i = i + 1;
        }
        Ok(v)
    } else {
        Err(Error::UnexpectedEof)
    }
}

/// Reads an `n`-byte big-endian unsigned integer at `pos`, `n` at most 8.
pub fn be_read(s: &[u8], pos: usize, n: usize) -> (r: u64)
    requires
        pos + n <= s@.len(),
        n <= 8,
    ensures
        r == be_uint(s@, pos as int, n as int),
        r < pow256(n as int),
{
    proof {
        reveal_with_fuel(pow256, 10);
    }
    let slen: usize = s.len();
    let mut acc: u64 = 0;
    let mut i: usize = 0;
    while i < n
        invariant
            pos + n <= slen == s@.len(),
            n <= 8,
            i <= n,
            acc == be_uint(s@, pos as int, i as int),
            acc < pow256(i as int),
        decreases n - i,
    {
        proof {
            reveal_with_fuel(pow256, 10);
            lemma_pow256_mono(i as int, 7);
            assert(acc * 256 + s@[pos + i] < pow256(i + 1)) by (nonlinear_arith)
                requires
                    acc < pow256(i as int),
                    s@[pos + i] < 256,
                    pow256(i + 1) == 256 * pow256(i as int),
            ;
        }
        acc = acc * 256 + s[pos + i] as u64;
        i = i + 1;
    }
    acc
}

/// Turns the unsigned big-endian reading `raw` of an `n`-byte field into its
/// two's-complement value.
pub fn signed_from_be(raw: u64, n: usize) -> (r: i64)
    requires
        1 <= n <= 8,
        raw < pow256(n as int),
    ensures
        r as int == twos_complement(n as int, raw as int),
{
    proof {
        reveal_with_fuel(pow256, 10);
    }
    if n == 8 {
        if raw >= 0x8000_0000_0000_0000u64 {
            let d = raw - 0x8000_0000_0000_0000u64;
            (d as i64) + i64::MIN
        } else {
            raw as i64
        }
    } else {
        let mut full: u64 = 1;
        let mut j: usize = 0;
        while j < n
            invariant
                j <= n <= 7,
                full == pow256(j as int),
            decreases n - j,
        {
            proof {
                reveal_with_fuel(pow256, 10);
                lemma_pow256_mono(j as int, 6);
            }
            full = full * 256;
            j = j + 1;
        }
        let half = full / 2;
        if raw >= half {
            -((full - raw) as i64)
        } else {
            raw as i64
        }
    }
}

/// Reads a 16-bit big-endian unsigned integer at `pos`.
pub fn be_u16(s: &[u8], pos: usize) -> (r: Result<u16, Error>)
    ensures
        pos + 2 <= s@.len() ==> (r matches Ok(v) && v == be_uint(s@, pos as int, 2)),
        pos + 2 > s@.len() ==> r == Err::<u16, Error>(Error::UnexpectedEof),
{
    if s.len() >= 2 && pos <= s.len() - 2 {
        proof {
            reveal_with_fuel(be_uint, 5);
        }
        let hi = s[pos];
        let lo = s[pos + 1];
        Ok((hi as u16) * 256 + lo as u16)
    } else {
        Err(Error::UnexpectedEof)
    }
}

/// Reads a 32-bit big-endian unsigned integer at `pos`.
pub fn be_u32(s: &[u8], pos: usize) -> (r: Result<u32, Error>)
    ensures
        pos + 4 <= s@.len() ==> (r matches Ok(v) && v == be_uint(s@, pos as int, 4)),
        pos + 4 > s@.len() ==> r == Err::<u32, Error>(Error::UnexpectedEof),
{
    if s.len() >= 4 && pos <= s.len() - 4 {
        proof {
            reveal_with_fuel(be_uint, 5);
        }
        let b0 = s[pos] as u32;
        let b1 = s[pos + 1] as u32;
        let b2 = s[pos + 2] as u32;
        let b3 = s[pos + 3] as u32;
        let r = ((b0 * 256 + b1) * 256 + b2) * 256 + b3;
        proof {
            lemma_be_uint_bound(s@, pos as int, 4);
        }
        Ok(r)
    } else {
        Err(Error::UnexpectedEof)
    }
}

} // verus!
