//! The SQL text grammar: `SELECT` statements and the `CREATE TABLE` /
//! `CREATE INDEX` texts stored in the schema table.
//!
//! Each parser consumes a prefix of its byte input and hands back the
//! position just past what it read.  The spec functions in this module
//! are the grammar's meaning; every parser is proved to agree with them
//! exactly.

use vstd::prelude::*;
use crate::error::Error;
use crate::strconv::spec_lower_byte;

verus! {

/// An ASCII whitespace byte, as the grammar counts them.
pub open spec fn is_ws(b: u8) -> bool {
    b == 32 || b == 9 || b == 10 || b == 13 || b == 11 || b == 12
}

/// A word byte: an ASCII letter, digit or underscore.
pub open spec fn is_word(b: u8) -> bool {
    (48 <= b <= 57) || (65 <= b <= 90) || (97 <= b <= 122) || b == 95
}

/// A word byte, `*`, `(` or `)`: what a projected column token may hold.
pub open spec fn is_word_or_fn(b: u8) -> bool {
    is_word(b) || b == 42 || b == 40 || b == 41
}

/// A word or whitespace byte: what quoted names may hold.
pub open spec fn is_word_or_ws(b: u8) -> bool {
    is_word(b) || is_ws(b)
}

/// A word, whitespace or quote byte: what a column definition may hold.
pub open spec fn is_def_byte(b: u8) -> bool {
    is_word_or_ws(b) || b == 39 || b == 34
}

/// The end of the run of whitespace bytes starting at `i`.
pub open spec fn spec_skip_ws(s: Seq<u8>, i: int) -> int
    decreases s.len() - i,
{
    if 0 <= i < s.len() && is_ws(s[i]) {
        spec_skip_ws(s, i + 1)
    } else {
        i
    }
}

/// The end of the run of word bytes starting at `i`.
pub open spec fn spec_scan_word(s: Seq<u8>, i: int) -> int
    decreases s.len() - i,
{
    if 0 <= i < s.len() && is_word(s[i]) {
        spec_scan_word(s, i + 1)
    } else {
        i
    }
}

/// The end of the run of word-or-fn bytes starting at `i`.
pub open spec fn spec_scan_word_or_fn(s: Seq<u8>, i: int) -> int
    decreases s.len() - i,
{
    if 0 <= i < s.len() && is_word_or_fn(s[i]) {
        spec_scan_word_or_fn(s, i + 1)
    } else {
        i
    }
}

/// The end of the run of word-or-whitespace bytes starting at `i`.
pub open spec fn spec_scan_word_or_ws(s: Seq<u8>, i: int) -> int
    decreases s.len() - i,
{
    if 0 <= i < s.len() && is_word_or_ws(s[i]) {
        spec_scan_word_or_ws(s, i + 1)
    } else {
        i
    }
}

/// The end of the run of definition bytes starting at `i`.
pub open spec fn spec_scan_def(s: Seq<u8>, i: int) -> int
    decreases s.len() - i,
{
    if 0 <= i < s.len() && is_def_byte(s[i]) {
        spec_scan_def(s, i + 1)
    } else {
        i
    }
}

pub fn skip_ws(s: &[u8], i: usize) -> (r: usize)
    requires
        i <= s@.len(),
    ensures
        r == spec_skip_ws(s@, i as int),
        i <= r <= s@.len(),
{
    let mut j = i;
    while j < s.len() && (s[j] == 32 || s[j] == 9 || s[j] == 10 || s[j] == 13 || s[j] == 11 || s[j]
        == 12)
        invariant
            i <= j <= s@.len(),
            spec_skip_ws(s@, i as int) == spec_skip_ws(s@, j as int),
        decreases s@.len() - j,
    {
        j = j + 1;
    }
    j
}

fn is_word_byte(b: u8) -> (r: bool)
    ensures
        r == is_word(b),
{
    (48 <= b && b <= 57) || (65 <= b && b <= 90) || (97 <= b && b <= 122) || b == 95
}

pub fn scan_word(s: &[u8], i: usize) -> (r: usize)
    requires
        i <= s@.len(),
    ensures
        r == spec_scan_word(s@, i as int),
        i <= r <= s@.len(),
{
    let mut j = i;
    while j < s.len() && is_word_byte(s[j])
        invariant
            i <= j <= s@.len(),
            spec_scan_word(s@, i as int) == spec_scan_word(s@, j as int),
        decreases s@.len() - j,
    {
        j = j + 1;
    }
    j
}

pub fn scan_word_or_fn(s: &[u8], i: usize) -> (r: usize)
    requires
        i <= s@.len(),
    ensures
        r == spec_scan_word_or_fn(s@, i as int),
        i <= r <= s@.len(),
{
    let mut j = i;
    while j < s.len() && (is_word_byte(s[j]) || s[j] == 42 || s[j] == 40 || s[j] == 41)
        invariant
            i <= j <= s@.len(),
            spec_scan_word_or_fn(s@, i as int) == spec_scan_word_or_fn(s@, j as int),
        decreases s@.len() - j,
    {
        j = j + 1;
    }
    j
}

fn is_ws_byte(b: u8) -> (r: bool)
    ensures
        r == is_ws(b),
{
    b == 32 || b == 9 || b == 10 || b == 13 || b == 11 || b == 12
}

pub fn scan_word_or_ws(s: &[u8], i: usize) -> (r: usize)
    requires
        i <= s@.len(),
    ensures
        r == spec_scan_word_or_ws(s@, i as int),
        i <= r <= s@.len(),
{
    let mut j = i;
    while j < s.len() && (is_word_byte(s[j]) || is_ws_byte(s[j]))
        invariant
            i <= j <= s@.len(),
            spec_scan_word_or_ws(s@, i as int) == spec_scan_word_or_ws(s@, j as int),
        decreases s@.len() - j,
    {
        j = j + 1;
    }
    j
}

fn scan_def(s: &[u8], i: usize) -> (r: usize)
    requires
        i <= s@.len(),
    ensures
        r == spec_scan_def(s@, i as int),
        i <= r <= s@.len(),
{
    let mut j = i;
    while j < s.len() && (is_word_byte(s[j]) || is_ws_byte(s[j]) || s[j] == 39 || s[j] == 34)
        invariant
            i <= j <= s@.len(),
            spec_scan_def(s@, i as int) == spec_scan_def(s@, j as int),
        decreases s@.len() - j,
    {
        j = j + 1;
    }
    j
}

/// A keyword surrounded by whitespace: any leading whitespace, the
/// keyword's letters case-insensitively, then at least one whitespace
/// byte, all consumed.
pub open spec fn spec_keyword(s: Seq<u8>, i: int, kw: Seq<u8>) -> Result<int, Error> {
    let a = spec_skip_ws(s, i);
    if a + kw.len() < s.len() && (forall|t: int|
        0 <= t < kw.len() ==> spec_lower_byte(#[trigger] s[a + t]) == kw[t]) && is_ws(
        s[a + kw.len()],
    ) {
        Ok(spec_skip_ws(s, a + kw.len()))
    } else {
        Err(Error::ParseError)
    }
}

/// Consumes `kw` (lower-case letters) at `i`, exactly as `spec_keyword`
/// reads it.
pub fn keyword(s: &[u8], i: usize, kw: &[u8]) -> (r: Result<usize, Error>)
    requires
        i <= s@.len(),
    ensures
        match r {
            Ok(p) => spec_keyword(s@, i as int, kw@) == Ok::<int, Error>(p as int) && i <= p
                <= s@.len(),
            Err(e) => spec_keyword(s@, i as int, kw@) == Err::<int, Error>(e),
        },
{
    let slen = s.len();
    let a = skip_ws(s, i);
    if kw.len() >= s.len() - a || s.len() < kw.len() {
        return Err(Error::ParseError);
    }
    let mut t: usize = 0;
    while t < kw.len()
        invariant
            t <= kw@.len(),
            slen == s@.len(),
            a + kw@.len() < s@.len(),
            a == spec_skip_ws(s@, i as int),
            i <= a,
            forall|u: int| 0 <= u < t ==> spec_lower_byte(#[trigger] s@[a + u]) == kw@[u],
        decreases kw@.len() - t,
    {
        let b = s[a + t];
        let low = if 65 <= b && b <= 90 {
            b + 32
        } else {
            b
        };
        if low != kw[t] {
            return Err(Error::ParseError);
        }
        t = t + 1;
    }
    if !is_ws_byte(s[a + kw.len()]) {
        return Err(Error::ParseError);
    }
    let r = skip_ws(s, a + kw.len());
    Ok(r)
}

/// A quoted run of word-or-whitespace bytes: optional whitespace, the
/// quote, optional whitespace, at least one word-or-whitespace byte up
/// to the closing quote, then optional whitespace; the content between
/// the inner whitespace and the closing quote.
pub open spec fn spec_quoted(s: Seq<u8>, i: int, q: u8) -> Result<(int, Seq<u8>), Error> {
    let a = spec_skip_ws(s, i);
    if a < s.len() && s[a] == q {
        let b = spec_skip_ws(s, a + 1);
        let c = spec_scan_word_or_ws(s, b);
        if c > b && c < s.len() && s[c] == q {
            Ok((spec_skip_ws(s, c + 1), s.subrange(b, c)))
        } else {
            Err(Error::ParseError)
        }
    } else {
        Err(Error::ParseError)
    }
}

pub fn quoted(s: &[u8], i: usize, q: u8) -> (r: Result<(usize, Vec<u8>), Error>)
    requires
        i <= s@.len(),
    ensures
        match r {
            Ok((p, v)) => spec_quoted(s@, i as int, q) matches Ok(m) && m.0 == p && m.1 == v@ && i
                <= p <= s@.len(),
            Err(e) => spec_quoted(s@, i as int, q) == Err::<(int, Seq<u8>), Error>(e),
        },
{
    let a = skip_ws(s, i);
    if a >= s.len() || s[a] != q {
        return Err(Error::ParseError);
    }
    let b = skip_ws(s, a + 1);
    let c = scan_word_or_ws(s, b);
    if c > b && c < s.len() && s[c] == q {
        let content = match crate::utils::read_n_bytes(s, b, c - b) {
            Ok(v) => v,
            Err(_) => {
                return Err(Error::ParseError);
            },
        };
        let p = skip_ws(s, c + 1);
        Ok((p, content))
    } else {
        Err(Error::ParseError)
    }
}

/// A name token: a run of word bytes, or a double- or single-quoted
/// name, tried in that order.
pub open spec fn spec_name_token(s: Seq<u8>, i: int) -> Result<(int, Seq<u8>), Error> {
    let e = spec_scan_word(s, i);
    if e > i {
        Ok((e, s.subrange(i, e)))
    } else {
        match spec_quoted(s, i, 34) {
            Ok(r) => Ok(r),
            Err(_) => spec_quoted(s, i, 39),
        }
    }
}

pub fn name_token(s: &[u8], i: usize) -> (r: Result<(usize, Vec<u8>), Error>)
    requires
        i <= s@.len(),
    ensures
        match r {
            Ok((p, v)) => spec_name_token(s@, i as int) matches Ok(m) && m.0 == p && m.1 == v@ && i
                <= p <= s@.len(),
            Err(e) => spec_name_token(s@, i as int) == Err::<(int, Seq<u8>), Error>(e),
        },
{
    let e = scan_word(s, i);
    if e > i {
        let content = match crate::utils::read_n_bytes(s, i, e - i) {
            Ok(v) => v,
            Err(_) => {
                return Err(Error::ParseError);
            },
        };
        return Ok((e, content));
    }
    match quoted(s, i, 34) {
        Ok(r) => Ok(r),
        Err(_) => quoted(s, i, 39),
    }
}

/// The views of a vector of byte vectors.
pub open spec fn spec_views2(v: Seq<Vec<u8>>) -> Seq<Seq<u8>> {
    Seq::new(v.len(), |i: int| v[i]@)
}

/// `s` with every leading and trailing `q` byte removed.
pub open spec fn spec_trim_byte(s: Seq<u8>, q: u8) -> Seq<u8>
    decreases s.len(),
{
    if s.len() > 0 && s[0] == q {
        spec_trim_byte(s.drop_first(), q)
    } else if s.len() > 0 && s[s.len() - 1] == q {
        spec_trim_byte(s.drop_last(), q)
    } else {
        s
    }
}

fn trim_byte(s: &Vec<u8>, q: u8) -> (r: Vec<u8>)
    ensures
        r@ == spec_trim_byte(s@, q),
{
    let mut lo: usize = 0;
    let mut hi: usize = s.len();
    proof {
        assert(s@.subrange(0, s@.len() as int) =~= s@);
    }
    while lo < hi && s[lo] == q
        invariant
            lo <= hi <= s@.len(),
            spec_trim_byte(s@, q) == spec_trim_byte(s@.subrange(lo as int, hi as int), q),
            hi == s@.len(),
        decreases hi - lo,
    {
        proof {
            assert(s@.subrange(lo as int, hi as int).drop_first() =~= s@.subrange(
                lo + 1,
                hi as int,
            ));
        }
        lo = lo + 1;
    }
    while lo < hi && s[hi - 1] == q
        invariant
            lo <= hi <= s@.len(),
            lo == hi || s@[lo as int] != q,
            spec_trim_byte(s@, q) == spec_trim_byte(s@.subrange(lo as int, hi as int), q),
        decreases hi - lo,
    {
        proof {
            let sub = s@.subrange(lo as int, hi as int);
            assert(sub[0] == s@[lo as int]);
            assert(sub[sub.len() - 1] == s@[hi - 1]);
            assert(sub.drop_last() =~= s@.subrange(lo as int, hi - 1));
        }
        hi = hi - 1;
    }
    let r = match crate::utils::read_n_bytes(s.as_slice(), lo, hi - lo) {
        Ok(v) => v,
        Err(_) => Vec::new(),
    };
    proof {
        let sub = s@.subrange(lo as int, hi as int);
        assert(spec_trim_byte(sub, q) == sub);
    }
    r
}

/// One equality condition: a column name, `=`, a value token with its
/// surrounding single then double quotes stripped.
pub open spec fn spec_eq_condition(s: Seq<u8>, i: int) -> Result<(int, (Seq<u8>, Seq<u8>)), Error> {
    let a = spec_skip_ws(s, i);
    let p = spec_scan_word(s, a);
    if p == a {
        Err(Error::ParseError)
    } else {
        let b = spec_skip_ws(s, p);
        if b < s.len() && s[b] == 61 {
            let c = spec_skip_ws(s, b + 1);
            match spec_name_token(s, c) {
                Err(e) => Err(e),
                Ok((d, val)) => Ok(
                    (d, (s.subrange(a, p), spec_trim_byte(spec_trim_byte(val, 39), 34))),
                ),
            }
        } else {
            Err(Error::ParseError)
        }
    }
}

pub fn eq_condition(s: &[u8], i: usize) -> (r: Result<(usize, (Vec<u8>, Vec<u8>)), Error>)
    requires
        i <= s@.len(),
    ensures
        match r {
            Ok((p, (cn, cv))) => spec_eq_condition(s@, i as int) matches Ok(m) && m.0 == p && (m.1).0
                == cn@ && (m.1).1 == cv@ && i <= p <= s@.len(),
            Err(e) => spec_eq_condition(s@, i as int) == Err::<(int, (Seq<u8>, Seq<u8>)), Error>(e),
        },
{
    let a = skip_ws(s, i);
    let p = scan_word(s, a);
    if p == a {
        return Err(Error::ParseError);
    }
    let col = match crate::utils::read_n_bytes(s, a, p - a) {
        Ok(v) => v,
        Err(_) => {
            return Err(Error::ParseError);
        },
    };
    let b = skip_ws(s, p);
    if !(b < s.len() && s[b] == 61) {
        return Err(Error::ParseError);
    }
    let c = skip_ws(s, b + 1);
    let (d, val) = match name_token(s, c) {
        Ok(r) => r,
        Err(e) => {
            return Err(e);
        },
    };
    let stripped = trim_byte(&trim_byte(&val, 39), 34);
    Ok((d, (col, stripped)))
}

/// The run of further `and`-joined conditions from `pos`: each one an
/// `and` keyword (case-insensitive, whitespace around) followed by an
/// equality condition; the run ends where either fails to appear.
pub open spec fn spec_conds_rest(s: Seq<u8>, pos: int) -> (int, Seq<(Seq<u8>, Seq<u8>)>)
    decreases s.len() - pos,
{
    let a = spec_skip_ws(s, pos);
    if a + 3 <= s.len() && spec_lower_byte(s[a]) == 97 && spec_lower_byte(s[a + 1]) == 110
        && spec_lower_byte(s[a + 2]) == 100 {
        let c = spec_skip_ws(s, a + 3);
        match spec_eq_condition(s, c) {
            Ok((d, cond)) => if pos < d <= s.len() {
                let (e, rest) = spec_conds_rest(s, d);
                (e, seq![cond] + rest)
            } else {
                (pos, Seq::empty())
            },
            Err(_) => (pos, Seq::empty()),
        }
    } else {
        (pos, Seq::empty())
    }
}

/// A possibly-empty list of `and`-joined equality conditions.
pub open spec fn spec_and_conditions(s: Seq<u8>, i: int) -> (int, Seq<(Seq<u8>, Seq<u8>)>) {
    match spec_eq_condition(s, i) {
        Err(_) => (i, Seq::empty()),
        Ok((p, c)) => {
            let (e, rest) = spec_conds_rest(s, p);
            (e, seq![c] + rest)
        },
    }
}

pub fn and_conditions(s: &[u8], i: usize) -> (r: (usize, Vec<(Vec<u8>, Vec<u8>)>))
    requires
        i <= s@.len(),
    ensures
        ({
            let (e, cs) = spec_and_conditions(s@, i as int);
            r.0 == e && r.1@.len() == cs.len() && (forall|j: int|
                0 <= j < cs.len() ==> #[trigger] r.1@[j].0@ == cs[j].0 && r.1@[j].1@ == cs[j].1)
                && i <= r.0 <= s@.len()
        }),
{
    let mut out: Vec<(Vec<u8>, Vec<u8>)> = Vec::new();
    let (first_pos, first) = match eq_condition(s, i) {
        Ok(r) => r,
        Err(_) => {
            return (i, out);
        },
    };
    out.push(first);
    let mut pos = first_pos;
    loop
        invariant
            i <= pos <= s@.len(),
            out@.len() >= 1,
            ({
                let (e_all, cs_all) = spec_and_conditions(s@, i as int);
                let (e_here, cs_here) = spec_conds_rest(s@, pos as int);
                &&& e_all == e_here
                &&& cs_all.len() == out@.len() + cs_here.len()
                &&& (forall|j: int|
                    0 <= j < out@.len() ==> #[trigger] cs_all[j] == (out@[j].0@, out@[j].1@))
                &&& (forall|j: int|
                    out@.len() <= j < cs_all.len() ==> #[trigger] cs_all[j] == cs_here[j
                        - out@.len()])
            }),
        decreases s@.len() - pos,
    {
        let ghost old_pos = pos as int;
        let a = skip_ws(s, pos);
        if s.len() - a < 3 {
            proof {
                assert(spec_conds_rest(s@, pos as int) == (pos as int, Seq::<(
                    Seq<u8>,
                    Seq<u8>,
                )>::empty()));
            }
            return (pos, out);
        }
        let b0 = lower_of(s[a]);
        let b1 = lower_of(s[a + 1]);
        let b2 = lower_of(s[a + 2]);
        if !(b0 == 97 && b1 == 110 && b2 == 100) {
            return (pos, out);
        }
        let c = skip_ws(s, a + 3);
        let (d, cond) = match eq_condition(s, c) {
            Ok(r) => r,
            Err(_) => {
                return (pos, out);
            },
        };
        if d <= pos {
            return (pos, out);
        }
        proof {
            let (e2, rest2) = spec_conds_rest(s@, d as int);
            assert(spec_conds_rest(s@, pos as int) == (e2, seq![(cond.0@, cond.1@)] + rest2));
        }
        out.push(cond);
        pos = d;
    }
}

fn lower_of(b: u8) -> (r: u8)
    ensures
        r == spec_lower_byte(b),
{
    if 65 <= b && b <= 90 {
        b + 32
    } else {
        b
    }
}

/// The run of further comma-separated projected-column tokens from
/// `pos`: a comma with whitespace around, then a non-empty run of
/// word-or-fn bytes with whitespace around.
pub open spec fn spec_cols_rest(s: Seq<u8>, pos: int) -> (int, Seq<Seq<u8>>)
    decreases s.len() - pos,
{
    let a = spec_skip_ws(s, pos);
    if a < s.len() && s[a] == 44 {
        let b = spec_skip_ws(s, a + 1);
        let e = spec_scan_word_or_fn(s, b);
        if e > b {
            let p = spec_skip_ws(s, e);
            if pos < p <= s.len() {
                let (q, rest) = spec_cols_rest(s, p);
                (q, seq![s.subrange(b, e)] + rest)
            } else {
                (pos, Seq::empty())
            }
        } else {
            (pos, Seq::empty())
        }
    } else {
        (pos, Seq::empty())
    }
}

/// A non-empty comma-separated list of projected-column tokens, each a
/// run of word bytes, `*` and parentheses, with whitespace around each
/// token and comma.
pub open spec fn spec_select_cols(s: Seq<u8>, i: int) -> Result<(int, Seq<Seq<u8>>), Error> {
    let a = spec_skip_ws(s, i);
    let e = spec_scan_word_or_fn(s, a);
    if e == a {
        Err(Error::ParseError)
    } else {
        let p = spec_skip_ws(s, e);
        let (q, rest) = spec_cols_rest(s, p);
        Ok((q, seq![s.subrange(a, e)] + rest))
    }
}

pub fn select_cols(s: &[u8], i: usize) -> (r: Result<(usize, Vec<Vec<u8>>), Error>)
    requires
        i <= s@.len(),
    ensures
        match r {
            Ok((p, cols)) => spec_select_cols(s@, i as int) matches Ok(m) && m.0 == p
                && spec_views2(cols@) == m.1 && i <= p <= s@.len(),
            Err(e) => spec_select_cols(s@, i as int) == Err::<(int, Seq<Seq<u8>>), Error>(e),
        },
{
    let a = skip_ws(s, i);
    let e = scan_word_or_fn(s, a);
    if e == a {
        return Err(Error::ParseError);
    }
    let first = match crate::utils::read_n_bytes(s, a, e - a) {
        Ok(v) => v,
        Err(_) => {
            return Err(Error::ParseError);
        },
    };
    let mut out: Vec<Vec<u8>> = Vec::new();
    out.push(first);
    let mut pos = skip_ws(s, e);
    loop
        invariant
            i <= pos <= s@.len(),
            out@.len() >= 1,
            ({
                let m = spec_select_cols(s@, i as int);
                let (q_here, rest_here) = spec_cols_rest(s@, pos as int);
                &&& m matches Ok((q_all, cs_all)) && q_all == q_here && cs_all.len() == out@.len()
                    + rest_here.len() && (forall|j: int|
                    0 <= j < out@.len() ==> #[trigger] cs_all[j] == out@[j]@) && (forall|j: int|
                    out@.len() <= j < cs_all.len() ==> #[trigger] cs_all[j] == rest_here[j
                        - out@.len()])
            }),
        decreases s@.len() - pos,
    {
        let a2 = skip_ws(s, pos);
        if !(a2 < s.len() && s[a2] == 44) {
            return Ok((pos, out));
        }
        let b = skip_ws(s, a2 + 1);
        let e2 = scan_word_or_fn(s, b);
        if e2 == b {
            return Ok((pos, out));
        }
        let item = match crate::utils::read_n_bytes(s, b, e2 - b) {
            Ok(v) => v,
            Err(_) => {
                return Ok((pos, out));
            },
        };
        let p2 = skip_ws(s, e2);
        if p2 <= pos {
            return Ok((pos, out));
        }
        proof {
            let (q2, rest2) = spec_cols_rest(s@, p2 as int);
            assert(spec_cols_rest(s@, pos as int) == (q2, seq![s@.subrange(b as int, e2 as int)]
                + rest2));
        }
        out.push(item);
        pos = p2;
    }
}

/// A full `SELECT` statement: the keyword, the projected columns, `FROM`,
/// the table name, and an optional `WHERE` with `and`-joined equality
/// conditions.
pub open spec fn spec_parse_select(s: Seq<u8>) -> Result<
    (int, (Seq<Seq<u8>>, Seq<u8>, Seq<(Seq<u8>, Seq<u8>)>)),
    Error,
> {
    match spec_keyword(s, 0, seq![115u8, 101u8, 108u8, 101u8, 99u8, 116u8]) {
        Err(e) => Err(e),
        Ok(p1) => match spec_select_cols(s, p1) {
            Err(e) => Err(e),
            Ok((p2, cols)) => match spec_keyword(s, p2, seq![102u8, 114u8, 111u8, 109u8]) {
                Err(e) => Err(e),
                Ok(p3) => match spec_name_token(s, p3) {
                    Err(e) => Err(e),
                    Ok((p4, table)) => match spec_keyword(
                        s,
                        p4,
                        seq![119u8, 104u8, 101u8, 114u8, 101u8],
                    ) {
                        Err(_) => Ok((p4, (cols, table, Seq::empty()))),
                        Ok(p5) => {
                            let (p6, conds) = spec_and_conditions(s, p5);
                            Ok((p6, (cols, table, conds)))
                        },
                    },
                },
            },
        },
    }
}

/// Parses a `SELECT` statement, exactly as `spec_parse_select` reads it:
/// the position just past what was consumed, the projected column
/// tokens, the table name, and the equality conditions with their
/// literals unquoted.
pub fn parse_select(s: &[u8]) -> (r: Result<
    (usize, (Vec<Vec<u8>>, Vec<u8>, Vec<(Vec<u8>, Vec<u8>)>)),
    Error,
>)
    ensures
        match r {
            Ok((p, (cols, table, conds))) => spec_parse_select(s@) matches Ok(m) && m.0 == p && (
            m.1).0 == spec_views2(cols@) && (m.1).1 == table@ && (m.1).2.len() == conds@.len() && (
            forall|j: int|
                0 <= j < conds@.len() ==> #[trigger] (m.1).2[j] == (conds@[j].0@, conds@[j].1@)),
            Err(e) => spec_parse_select(s@) == Err::<
                (int, (Seq<Seq<u8>>, Seq<u8>, Seq<(Seq<u8>, Seq<u8>)>)),
                Error,
            >(e),
        },
{
    let kw_select: [u8; 6] = [115, 101, 108, 101, 99, 116];
    let kw_from: [u8; 4] = [102, 114, 111, 109];
    let kw_where: [u8; 5] = [119, 104, 101, 114, 101];
    proof {
        assert(kw_select@ =~= seq![115u8, 101u8, 108u8, 101u8, 99u8, 116u8]);
        assert(kw_from@ =~= seq![102u8, 114u8, 111u8, 109u8]);
        assert(kw_where@ =~= seq![119u8, 104u8, 101u8, 114u8, 101u8]);
    }
    let p1 = match keyword(s, 0, kw_select.as_slice()) {
        Ok(p) => p,
        Err(e) => {
            return Err(e);
        },
    };
    let (p2, cols) = match select_cols(s, p1) {
        Ok(r) => r,
        Err(e) => {
            return Err(e);
        },
    };
    let p3 = match keyword(s, p2, kw_from.as_slice()) {
        Ok(p) => p,
        Err(e) => {
            return Err(e);
        },
    };
    let (p4, table) = match name_token(s, p3) {
        Ok(r) => r,
        Err(e) => {
            return Err(e);
        },
    };
    match keyword(s, p4, kw_where.as_slice()) {
        Err(_) => Ok((p4, (cols, table, Vec::new()))),
        Ok(p5) => {
            let (p6, conds) = and_conditions(s, p5);
            Ok((p6, (cols, table, conds)))
        },
    }
}

/// The run of further comma-separated column definitions from `pos`: a
/// comma with whitespace around, then any run (possibly empty) of
/// definition bytes after leading whitespace.
pub open spec fn spec_defs_rest(s: Seq<u8>, pos: int) -> (int, Seq<Seq<u8>>)
    decreases s.len() - pos,
{
    let a = spec_skip_ws(s, pos);
    if a < s.len() && s[a] == 44 {
        let b = spec_skip_ws(s, a + 1);
        let e = spec_scan_def(s, b);
        if pos < e <= s.len() {
            let (q, rest) = spec_defs_rest(s, e);
            (q, seq![s.subrange(b, e)] + rest)
        } else {
            (pos, Seq::empty())
        }
    } else {
        (pos, Seq::empty())
    }
}

/// A non-empty comma-separated list of column definitions, each the raw
/// run of word, whitespace and quote bytes after leading whitespace.
pub open spec fn spec_col_defs(s: Seq<u8>, i: int) -> (int, Seq<Seq<u8>>) {
    let a = spec_skip_ws(s, i);
    let e = spec_scan_def(s, a);
    let (q, rest) = spec_defs_rest(s, e);
    (q, seq![s.subrange(a, e)] + rest)
}

pub fn col_defs(s: &[u8], i: usize) -> (r: (usize, Vec<Vec<u8>>))
    requires
        i <= s@.len(),
    ensures
        ({
            let (q, ds) = spec_col_defs(s@, i as int);
            r.0 == q && spec_views2(r.1@) == ds && i <= r.0 <= s@.len()
        }),
{
    let a = skip_ws(s, i);
    let e = scan_def(s, a);
    let first = match crate::utils::read_n_bytes(s, a, e - a) {
        Ok(v) => v,
        Err(_) => Vec::new(),
    };
    let mut out: Vec<Vec<u8>> = Vec::new();
    out.push(first);
    let mut pos = e;
    loop
        invariant
            i <= pos <= s@.len(),
            out@.len() >= 1,
            ({
                let (q_all, ds_all) = spec_col_defs(s@, i as int);
                let (q_here, rest_here) = spec_defs_rest(s@, pos as int);
                &&& q_all == q_here
                &&& ds_all.len() == out@.len() + rest_here.len()
                &&& (forall|j: int|
                    0 <= j < out@.len() ==> #[trigger] ds_all[j] == out@[j]@)
                &&& (forall|j: int|
                    out@.len() <= j < ds_all.len() ==> #[trigger] ds_all[j] == rest_here[j
                        - out@.len()])
            }),
        decreases s@.len() - pos,
    {
        let a2 = skip_ws(s, pos);
        if !(a2 < s.len() && s[a2] == 44) {
            return (pos, out);
        }
        let b = skip_ws(s, a2 + 1);
        let e2 = scan_def(s, b);
        if e2 <= pos {
            return (pos, out);
        }
        let item = match crate::utils::read_n_bytes(s, b, e2 - b) {
            Ok(v) => v,
            Err(_) => {
                return (pos, out);
            },
        };
        proof {
            let (q2, rest2) = spec_defs_rest(s@, e2 as int);
            assert(spec_defs_rest(s@, pos as int) == (q2, seq![s@.subrange(b as int, e2 as int)]
                + rest2));
        }
        out.push(item);
        pos = e2;
    }
}

/// A `CREATE TABLE` statement: the two keywords, the table name, and the
/// parenthesised column definitions.
pub open spec fn spec_parse_create_table(s: Seq<u8>) -> Result<(int, (Seq<Seq<u8>>, Seq<u8>)), Error> {
    match spec_keyword(s, 0, seq![99u8, 114u8, 101u8, 97u8, 116u8, 101u8]) {
        Err(e) => Err(e),
        Ok(p1) => match spec_keyword(s, p1, seq![116u8, 97u8, 98u8, 108u8, 101u8]) {
            Err(e) => Err(e),
            Ok(p2) => match spec_name_token(s, p2) {
                Err(e) => Err(e),
                Ok((p3, table)) => {
                    let a = spec_skip_ws(s, p3);
                    if a < s.len() && s[a] == 40 {
                        let b = spec_skip_ws(s, a + 1);
                        let (p4, defs) = spec_col_defs(s, b);
                        let c = spec_skip_ws(s, p4);
                        if c < s.len() && s[c] == 41 {
                            Ok((spec_skip_ws(s, c + 1), (defs, table)))
                        } else {
                            Err(Error::ParseError)
                        }
                    } else {
                        Err(Error::ParseError)
                    }
                },
            },
        },
    }
}

/// Parses a `CREATE TABLE` statement, exactly as
/// `spec_parse_create_table` reads it: the position just past what was
/// consumed, the raw column definitions, and the table name.
pub fn parse_create_table(s: &[u8]) -> (r: Result<(usize, (Vec<Vec<u8>>, Vec<u8>)), Error>)
    ensures
        match r {
            Ok((p, (defs, table))) => spec_parse_create_table(s@) matches Ok(m) && m.0 == p && (
            m.1).0 == spec_views2(defs@) && (m.1).1 == table@,
            Err(e) => spec_parse_create_table(s@) == Err::<(int, (Seq<Seq<u8>>, Seq<u8>)), Error>(
                e,
            ),
        },
{
    let kw_create: [u8; 6] = [99, 114, 101, 97, 116, 101];
    let kw_table: [u8; 5] = [116, 97, 98, 108, 101];
    proof {
        assert(kw_create@ =~= seq![99u8, 114u8, 101u8, 97u8, 116u8, 101u8]);
        assert(kw_table@ =~= seq![116u8, 97u8, 98u8, 108u8, 101u8]);
    }
    let p1 = match keyword(s, 0, kw_create.as_slice()) {
        Ok(p) => p,
        Err(e) => {
            return Err(e);
        },
    };
    let p2 = match keyword(s, p1, kw_table.as_slice()) {
        Ok(p) => p,
        Err(e) => {
            return Err(e);
        },
    };
    let (p3, table) = match name_token(s, p2) {
        Ok(r) => r,
        Err(e) => {
            return Err(e);
        },
    };
    let a = skip_ws(s, p3);
    if !(a < s.len() && s[a] == 40) {
        return Err(Error::ParseError);
    }
    let b = skip_ws(s, a + 1);
    let (p4, defs) = col_defs(s, b);
    let c = skip_ws(s, p4);
    if !(c < s.len() && s[c] == 41) {
        return Err(Error::ParseError);
    }
    let p5 = skip_ws(s, c + 1);
    Ok((p5, (defs, table)))
}

/// The run of further comma-separated name tokens from `pos`.
pub open spec fn spec_names_rest(s: Seq<u8>, pos: int) -> (int, Seq<Seq<u8>>)
    decreases s.len() - pos,
{
    let a = spec_skip_ws(s, pos);
    if a < s.len() && s[a] == 44 {
        let b = spec_skip_ws(s, a + 1);
        match spec_name_token(s, b) {
            Err(_) => (pos, Seq::empty()),
            Ok((e, name)) => {
                let p = spec_skip_ws(s, e);
                if pos < p <= s.len() {
                    let (q, rest) = spec_names_rest(s, p);
                    (q, seq![name] + rest)
                } else {
                    (pos, Seq::empty())
                }
            },
        }
    } else {
        (pos, Seq::empty())
    }
}

/// A non-empty comma-separated list of name tokens with whitespace
/// around each.
pub open spec fn spec_name_list(s: Seq<u8>, i: int) -> Result<(int, Seq<Seq<u8>>), Error> {
    let a = spec_skip_ws(s, i);
    match spec_name_token(s, a) {
        Err(e) => Err(e),
        Ok((e, name)) => {
            let p = spec_skip_ws(s, e);
            let (q, rest) = spec_names_rest(s, p);
            Ok((q, seq![name] + rest))
        },
    }
}

pub fn name_list(s: &[u8], i: usize) -> (r: Result<(usize, Vec<Vec<u8>>), Error>)
    requires
        i <= s@.len(),
    ensures
        match r {
            Ok((p, names)) => spec_name_list(s@, i as int) matches Ok(m) && m.0 == p && spec_views2(
                names@,
            ) == m.1 && i <= p <= s@.len(),
            Err(e) => spec_name_list(s@, i as int) == Err::<(int, Seq<Seq<u8>>), Error>(e),
        },
{
    let a = skip_ws(s, i);
    let (e, first) = match name_token(s, a) {
        Ok(r) => r,
        Err(e2) => {
            return Err(e2);
        },
    };
    let mut out: Vec<Vec<u8>> = Vec::new();
    out.push(first);
    let mut pos = skip_ws(s, e);
    loop
        invariant
            i <= pos <= s@.len(),
            out@.len() >= 1,
            ({
                let m = spec_name_list(s@, i as int);
                let (q_here, rest_here) = spec_names_rest(s@, pos as int);
                &&& m matches Ok((q_all, ns_all)) && q_all == q_here && ns_all.len() == out@.len()
                    + rest_here.len() && (forall|j: int|
                    0 <= j < out@.len() ==> #[trigger] ns_all[j] == out@[j]@) && (forall|j: int|
                    out@.len() <= j < ns_all.len() ==> #[trigger] ns_all[j] == rest_here[j
                        - out@.len()])
            }),
        decreases s@.len() - pos,
    {
        let a2 = skip_ws(s, pos);
        if !(a2 < s.len() && s[a2] == 44) {
            return Ok((pos, out));
        }
        let b = skip_ws(s, a2 + 1);
        let (e2, item) = match name_token(s, b) {
            Ok(r) => r,
            Err(_) => {
                return Ok((pos, out));
            },
        };
        let p2 = skip_ws(s, e2);
        if p2 <= pos {
            return Ok((pos, out));
        }
        proof {
            let (q2, rest2) = spec_names_rest(s@, p2 as int);
            assert(spec_names_rest(s@, pos as int) == (q2, seq![item@] + rest2));
        }
        out.push(item);
        pos = p2;
    }
}

/// A `CREATE INDEX` statement: the two keywords, the index name, `ON`,
/// the table name, and the parenthesised indexed column names.
pub open spec fn spec_parse_create_index(s: Seq<u8>) -> Result<(int, (Seq<Seq<u8>>, Seq<u8>)), Error> {
    match spec_keyword(s, 0, seq![99u8, 114u8, 101u8, 97u8, 116u8, 101u8]) {
        Err(e) => Err(e),
        Ok(p1) => match spec_keyword(s, p1, seq![105u8, 110u8, 100u8, 101u8, 120u8]) {
            Err(e) => Err(e),
            Ok(p2) => match spec_name_token(s, p2) {
                Err(e) => Err(e),
                Ok((p3, idx_name)) => match spec_keyword(s, p3, seq![111u8, 110u8]) {
                    Err(e) => Err(e),
                    Ok(p4) => match spec_name_token(s, p4) {
                        Err(e) => Err(e),
                        Ok((p5, _table)) => {
                            let a = spec_skip_ws(s, p5);
                            if a < s.len() && s[a] == 40 {
                                match spec_name_list(s, a + 1) {
                                    Err(e) => Err(e),
                                    Ok((p6, cols)) => {
                                        let c = spec_skip_ws(s, p6);
                                        if c < s.len() && s[c] == 41 {
                                            Ok((spec_skip_ws(s, c + 1), (cols, idx_name)))
                                        } else {
                                            Err(Error::ParseError)
                                        }
                                    },
                                }
                            } else {
                                Err(Error::ParseError)
                            }
                        },
                    },
                },
            },
        },
    }
}

/// Parses a `CREATE INDEX` statement, exactly as
/// `spec_parse_create_index` reads it: the position just past what was
/// consumed, the indexed column names, and the index's name.
pub fn parse_create_index(s: &[u8]) -> (r: Result<(usize, (Vec<Vec<u8>>, Vec<u8>)), Error>)
    ensures
        match r {
            Ok((p, (cols, idx))) => spec_parse_create_index(s@) matches Ok(m) && m.0 == p && (m.1).0
                == spec_views2(cols@) && (m.1).1 == idx@,
            Err(e) => spec_parse_create_index(s@) == Err::<(int, (Seq<Seq<u8>>, Seq<u8>)), Error>(
                e,
            ),
        },
{
    let kw_create: [u8; 6] = [99, 114, 101, 97, 116, 101];
    let kw_index: [u8; 5] = [105, 110, 100, 101, 120];
    let kw_on: [u8; 2] = [111, 110];
    proof {
        assert(kw_create@ =~= seq![99u8, 114u8, 101u8, 97u8, 116u8, 101u8]);
        assert(kw_index@ =~= seq![105u8, 110u8, 100u8, 101u8, 120u8]);
        assert(kw_on@ =~= seq![111u8, 110u8]);
    }
    let p1 = match keyword(s, 0, kw_create.as_slice()) {
        Ok(p) => p,
        Err(e) => {
            return Err(e);
        },
    };
    let p2 = match keyword(s, p1, kw_index.as_slice()) {
        Ok(p) => p,
        Err(e) => {
            return Err(e);
        },
    };
    let (p3, idx_name) = match name_token(s, p2) {
        Ok(r) => r,
        Err(e) => {
            return Err(e);
        },
    };
    let p4 = match keyword(s, p3, kw_on.as_slice()) {
        Ok(p) => p,
        Err(e) => {
            return Err(e);
        },
    };
    let (p5, _table) = match name_token(s, p4) {
        Ok(r) => r,
        Err(e) => {
            return Err(e);
        },
    };
    let a = skip_ws(s, p5);
    if !(a < s.len() && s[a] == 40) {
        return Err(Error::ParseError);
    }
    let (p6, cols) = match name_list(s, a + 1) {
        Ok(r) => r,
        Err(e) => {
            return Err(e);
        },
    };
    let c = skip_ws(s, p6);
    if !(c < s.len() && s[c] == 41) {
        return Err(Error::ParseError);
    }
    let p7 = skip_ws(s, c + 1);
    Ok((p7, (cols, idx_name)))
}

} // verus!