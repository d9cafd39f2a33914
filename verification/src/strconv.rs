//! Decimal formatting and parsing, ASCII case folding, and substring
//! search over bytes.

use vstd::prelude::*;

verus! {

/// The decimal digits of `n` (which must not be negative), most
/// significant first.
pub open spec fn spec_u64_dec(n: int) -> Seq<u8>
    decreases n,
{
    if n < 10 {
        seq![(48 + if n >= 0 { n } else { 0 }) as u8]
    } else {
        spec_u64_dec(n / 10) + seq![(48 + n % 10) as u8]
    }
}

/// The decimal rendering of `v`: a minus sign before the digits of its
/// magnitude when negative.
pub open spec fn spec_i64_dec(v: int) -> Seq<u8> {
    if v < 0 {
        seq![45u8] + spec_u64_dec(-v)
    } else {
        spec_u64_dec(v)
    }
}

fn fmt_u64_into(n: u64, out: &mut Vec<u8>)
    ensures
        final(out)@ == old(out)@ + spec_u64_dec(n as int),
    decreases n,
{
    if n < 10 {
        out.push(48 + n as u8);
    } else {
        fmt_u64_into(n / 10, out);
        out.push(48 + (n % 10) as u8);
        assert(final(out)@ =~= old(out)@ + spec_u64_dec(n as int));
    }
}

/// The decimal rendering of an unsigned 64-bit integer.
pub fn format_u64(n: u64) -> (r: Vec<u8>)
    ensures
        r@ == spec_u64_dec(n as int),
{
    let mut out: Vec<u8> = Vec::new();
    fmt_u64_into(n, &mut out);
    assert(out@ =~= spec_u64_dec(n as int));
    out
}

/// The decimal rendering of a signed 64-bit integer.
pub fn format_i64(v: i64) -> (r: Vec<u8>)
    ensures
        r@ == spec_i64_dec(v as int),
{
    if v >= 0 {
        format_u64(v as u64)
    } else {
        let mag: u64 = ((-(v + 1)) as u64) + 1;
        let mut out: Vec<u8> = Vec::new();
        out.push(45);
        assert(out@ =~= seq![45u8]);
        fmt_u64_into(mag, &mut out);
        out
    }
}

/// The number the decimal digits of `s` denote, when `s` is nothing but
/// digits, at least one, denoting at most `max`.
pub open spec fn spec_parse_dec(s: Seq<u8>, max: int) -> Option<int> {
    if s.len() == 0 || !(forall|i: int| 0 <= i < s.len() ==> 48 <= #[trigger] s[i] <= 57) {
        None
    } else if spec_dec_val(s) > max {
        None
    } else {
        Some(spec_dec_val(s))
    }
}

/// The value of a string of decimal digits.
pub open spec fn spec_dec_val(s: Seq<u8>) -> int
    decreases s.len(),
{
    if s.len() == 0 {
        0
    } else {
        spec_dec_val(s.drop_last()) * 10 + (s[s.len() - 1] - 48)
    }
}

/// Parses `s` as an unsigned 32-bit decimal number: digits only, at
/// least one, no larger than `u32::MAX`.
pub fn parse_u32(s: &[u8]) -> (r: Option<u32>)
    ensures
        match r {
            Some(v) => spec_parse_dec(s@, u32::MAX as int) == Some(v as int),
            None => spec_parse_dec(s@, u32::MAX as int) is None,
        },
{
    if s.len() == 0 {
        return None;
    }
    let mut acc: u64 = 0;
    let mut i: usize = 0;
    while i < s.len()
        invariant
            i <= s@.len(),
            forall|j: int| 0 <= j < i ==> 48 <= #[trigger] s@[j] <= 57,
            acc == spec_dec_val(s@.take(i as int)),
            acc <= 0xffff_ffffu64,
        decreases s@.len() - i,
    {
        let b = s[i];
        if b < 48 || b > 57 {
            return None;
        }
        proof {
            assert(s@.take(i + 1).drop_last() =~= s@.take(i as int));
            assert(s@.take(i + 1)[i as int] == b);
        }
        let next = acc * 10 + (b - 48) as u64;
        if next > 0xffff_ffffu64 {
            // the remaining digits cannot bring the value back down
            proof {
                if forall|j: int| 0 <= j < s@.len() ==> 48 <= #[trigger] s@[j] <= 57 {
                    lemma_dec_val_mono(s@, i + 1);
                    assert(s@.take(s@.len() as int) =~= s@);
                }
            }
            return None;
        }
        acc = next;
        i = i + 1;
    }
    proof {
        assert(s@.take(s@.len() as int) =~= s@);
    }
    Some(acc as u32)
}

proof fn lemma_dec_val_nonneg(s: Seq<u8>)
    requires
        forall|j: int| 0 <= j < s.len() ==> 48 <= #[trigger] s[j] <= 57,
    ensures
        spec_dec_val(s) >= 0,
    decreases s.len(),
{
    if s.len() > 0 {
        lemma_dec_val_nonneg(s.drop_last());
        assert(spec_dec_val(s.drop_last()) * 10 >= 0) by (nonlinear_arith)
            requires spec_dec_val(s.drop_last()) >= 0,
        ;
    }
}

/// A string of digits denotes at least what any of its prefixes does.
proof fn lemma_dec_val_mono(s: Seq<u8>, i: int)
    requires
        0 <= i <= s.len(),
        forall|j: int| 0 <= j < s.len() ==> 48 <= #[trigger] s[j] <= 57,
    ensures
        forall|j: int| i <= j <= s.len() ==> #[trigger] spec_dec_val(s.take(j)) >= spec_dec_val(
            s.take(i),
        ),
    decreases s.len() - i,
{
    if i < s.len() {
        lemma_dec_val_mono(s, i + 1);
        assert(s.take(i + 1).drop_last() =~= s.take(i));
        assert forall|j: int| 0 <= j < s.take(i).len() implies 48 <= #[trigger] s.take(i)[j]
            <= 57 by {}
        lemma_dec_val_nonneg(s.take(i));
        assert(spec_dec_val(s.take(i + 1)) == spec_dec_val(s.take(i)) * 10 + (s.take(i + 1)[i]
            - 48));
        assert(spec_dec_val(s.take(i)) * 10 >= spec_dec_val(s.take(i))) by (nonlinear_arith)
            requires spec_dec_val(s.take(i)) >= 0,
        ;
    }
}

/// `b` with an ASCII capital letter folded to its small form.
pub open spec fn spec_lower_byte(b: u8) -> u8 {
    if 65 <= b <= 90 {
        (b + 32) as u8
    } else {
        b
    }
}

/// `s` with every ASCII capital letter folded to its small form.
pub open spec fn spec_lower(s: Seq<u8>) -> Seq<u8> {
    Seq::new(s.len(), |i: int| spec_lower_byte(s[i]))
}

/// Folds every ASCII capital letter of `s` to its small form.
pub fn to_lower(s: &[u8]) -> (r: Vec<u8>)
    ensures
        r@ == spec_lower(s@),
{
    let mut out: Vec<u8> = Vec::new();
    let mut i: usize = 0;
    while i < s.len()
        invariant
            i <= s@.len(),
            out@.len() == i,
            forall|j: int| 0 <= j < i ==> #[trigger] out@[j] == spec_lower_byte(s@[j]),
        decreases s@.len() - i,
    {
        let b = s[i];
        if 65 <= b && b <= 90 {
            out.push(b + 32);
        } else {
            out.push(b);
        }
        i = i + 1;
    }
    assert(out@ =~= spec_lower(s@));
    out
}

/// `sub` occurs somewhere in `s`.
pub open spec fn spec_contains_sub(s: Seq<u8>, sub: Seq<u8>) -> bool {
    exists|k: int| 0 <= k <= s.len() - sub.len() && #[trigger] s.subrange(k, k + sub.len()) == sub
}

/// True exactly when `sub` occurs somewhere in `s`.
pub fn contains_sub(s: &[u8], sub: &[u8]) -> (r: bool)
    ensures
        r == spec_contains_sub(s@, sub@),
{
    if sub.len() > s.len() {
        assert(!spec_contains_sub(s@, sub@));
        return false;
    }
    let slen = s.len();
    let sublen = sub.len();
    let mut k: usize = 0;
    while k <= slen - sublen
        invariant
            sublen == sub@.len() <= s@.len() == slen,
            k <= slen - sublen + 1,
            forall|t: int|
                0 <= t < k ==> #[trigger] s@.subrange(t, t + sub@.len()) != sub@,
        decreases s@.len() - sub@.len() - k + 1,
    {
        let mut j: usize = 0;
        let mut same = true;
        while same && j < sublen
            invariant
                sublen == sub@.len(),
                slen == s@.len(),
                k + sublen <= slen,
                j <= sublen,
                same ==> forall|t: int| 0 <= t < j ==> s@[k + t] == sub@[t],
                !same ==> s@.subrange(k as int, k + sub@.len()) != sub@,
            decreases sub@.len() - j + (if same {
                1int
            } else {
                0int
            }),
        {
            if s[k + j] != sub[j] {
                proof {
                    assert(s@.subrange(k as int, k + sub@.len())[j as int] != sub@[j as int]);
                }
                same = false;
            } else {
                j = j + 1;
            }
        }
        if same {
            proof {
                assert(s@.subrange(k as int, k + sub@.len()) =~= sub@);
            }
            return true;
        }
        proof {
            if sub@.len() == 0 {
                assert(s@.subrange(k as int, k as int) =~= sub@);
            }
        }
        k = k + 1;
    }
    proof {
        assert forall|t: int| 0 <= t <= s@.len() - sub@.len() implies #[trigger] s@.subrange(
            t,
            t + sub@.len(),
        ) != sub@ by {}
    }
    false
}

} // verus!