//! UTF-8 validation and small byte-string utilities used by the record
//! decoder and the query layer.

use vstd::prelude::*;
use vstd::utf8::{
    is_continuation_byte, is_leading_byte_width_1, is_leading_byte_width_2,
    is_leading_byte_width_3, is_leading_byte_width_4, partial_valid_partial_invalid_utf8,
    partial_valid_utf8, partial_valid_utf8_extend, valid_first_scalar, valid_utf8,
};

verus! {

proof fn lemma_invalid_at(s: Seq<u8>, i: int)
    requires
        0 <= i < s.len(),
        partial_valid_utf8(s, i),
        !valid_first_scalar(s.subrange(i, s.len() as int)),
    ensures
        !valid_utf8(s),
{
    let tail = s.subrange(i, s.len() as int);
    assert(!valid_utf8(tail));
    partial_valid_partial_invalid_utf8(s, i);
}

/// True exactly when `s` is a well-formed UTF-8 byte sequence.
pub fn is_valid_utf8(s: &[u8]) -> (r: bool)
    ensures
        r == valid_utf8(s@),
{
    let n = s.len();
    let mut i: usize = 0;
    while i < n
        invariant
            i <= n == s@.len(),
            partial_valid_utf8(s@, i as int),
        decreases n - i,
    {
        let ghost tail = s@.subrange(i as int, n as int);
        assert(tail.len() == n - i);
        let b0 = s[i];
        assert(tail[0] == b0);
        if b0 < 0x80 {
            proof {
                assert(is_leading_byte_width_1(tail[0]));
                assert((b0 & 0x7f) == b0) by (bit_vector)
                    requires b0 < 0x80,
                ;
                assert(valid_first_scalar(tail));
                partial_valid_utf8_extend(s@, i as int);
            }
            i = i + 1;
        } else if b0 < 0xc0 {
            // a continuation byte cannot lead a scalar
            proof {
                lemma_invalid_at(s@, i as int);
            }
            return false;
        } else if b0 < 0xe0 {
            if n - i < 2 {
                proof {
                    lemma_invalid_at(s@, i as int);
                }
                return false;
            }
            let b1 = s[i + 1];
            assert(tail[1] == b1);
            if !(0x80 <= b1 && b1 < 0xc0) {
                proof {
                    lemma_invalid_at(s@, i as int);
                }
                return false;
            }
            let cp: u32 = (((b0 & 0x1f) as u32) << 6u32) | ((b1 & 0x3f) as u32);
            if cp < 0x80 {
                // overlong two-byte encoding
                proof {
                    lemma_invalid_at(s@, i as int);
                }
                return false;
            }
            proof {
                assert(cp <= 0x7ff) by (bit_vector)
                    requires cp == (((b0 & 0x1f) as u32) << 6u32) | ((b1 & 0x3f) as u32),
                ;
                assert(valid_first_scalar(tail));
                partial_valid_utf8_extend(s@, i as int);
            }
            i = i + 2;
        } else if b0 < 0xf0 {
            if n - i < 3 {
                proof {
                    lemma_invalid_at(s@, i as int);
                }
                return false;
            }
            let b1 = s[i + 1];
            let b2 = s[i + 2];
            assert(tail[1] == b1 && tail[2] == b2);
            if !(0x80 <= b1 && b1 < 0xc0) || !(0x80 <= b2 && b2 < 0xc0) {
                proof {
                    lemma_invalid_at(s@, i as int);
                }
                return false;
            }
            let cp: u32 = (((b0 & 0x0f) as u32) << 12u32) | (((b1 & 0x3f) as u32) << 6u32) | ((
            b2 & 0x3f) as u32);
            if cp < 0x800 || (0xd800 <= cp && cp <= 0xdfff) {
                proof {
                    lemma_invalid_at(s@, i as int);
                }
                return false;
            }
            proof {
                assert(valid_first_scalar(tail));
                partial_valid_utf8_extend(s@, i as int);
            }
            i = i + 3;
        } else if b0 < 0xf8 {
            if n - i < 4 {
                proof {
                    lemma_invalid_at(s@, i as int);
                }
                return false;
            }
            let b1 = s[i + 1];
            let b2 = s[i + 2];
            let b3 = s[i + 3];
            assert(tail[1] == b1 && tail[2] == b2 && tail[3] == b3);
            if !(0x80 <= b1 && b1 < 0xc0) || !(0x80 <= b2 && b2 < 0xc0) || !(0x80 <= b3 && b3
                < 0xc0) {
                proof {
                    lemma_invalid_at(s@, i as int);
                }
                return false;
            }
            let cp: u32 = (((b0 & 0x07) as u32) << 18u32) | (((b1 & 0x3f) as u32) << 12u32) | (((
            b2 & 0x3f) as u32) << 6u32) | ((b3 & 0x3f) as u32);
            if !(0x10000 <= cp && cp <= 0x10ffff) {
                proof {
                    lemma_invalid_at(s@, i as int);
                }
                return false;
            }
            proof {
                assert(valid_first_scalar(tail));
                partial_valid_utf8_extend(s@, i as int);
            }
            i = i + 4;
        } else {
            proof {
                lemma_invalid_at(s@, i as int);
            }
            return false;
        }
    }
    proof {
        assert(s@.subrange(0, n as int) =~= s@);
    }
    true
}

/// Byte-wise lexicographic order: `a` comes strictly before `b`.
pub open spec fn spec_lex_lt(a: Seq<u8>, b: Seq<u8>) -> bool
    decreases a.len(),
{
    if b.len() == 0 {
        false
    } else if a.len() == 0 {
        true
    } else if a[0] < b[0] {
        true
    } else if a[0] > b[0] {
        false
    } else {
        spec_lex_lt(a.drop_first(), b.drop_first())
    }
}

/// True exactly when `a` comes strictly before `b` in byte-wise
/// lexicographic order.
pub fn lex_lt(a: &[u8], b: &[u8]) -> (r: bool)
    ensures
        r == spec_lex_lt(a@, b@),
{
    let mut i: usize = 0;
    proof {
        assert(a@.skip(0) =~= a@);
        assert(b@.skip(0) =~= b@);
    }
    loop
        invariant
            i <= a@.len(),
            i <= b@.len(),
            forall|j: int| 0 <= j < i ==> a@[j] == b@[j],
            spec_lex_lt(a@, b@) == spec_lex_lt(a@.skip(i as int), b@.skip(i as int)),
        decreases a@.len() - i,
    {
        let ghost ga = a@.skip(i as int);
        let ghost gb = b@.skip(i as int);
        if i >= b.len() {
            assert(gb.len() == 0);
            return false;
        }
        if i >= a.len() {
            assert(ga.len() == 0 && gb.len() > 0);
            return true;
        }
        assert(ga[0] == a@[i as int] && gb[0] == b@[i as int]);
        if a[i] < b[i] {
            return true;
        }
        if a[i] > b[i] {
            return false;
        }
        proof {
            assert(ga.drop_first() =~= a@.skip(i + 1));
            assert(gb.drop_first() =~= b@.skip(i + 1));
        }
        i = i + 1;
    }
}

/// True exactly when the two byte slices hold the same bytes.
pub fn bytes_eq(a: &[u8], b: &[u8]) -> (r: bool)
    ensures
        r == (a@ == b@),
{
    if a.len() != b.len() {
        assert(a@ != b@) by {
            assert(a@.len() != b@.len());
        }
        return false;
    }
    let n = a.len();
    let mut i: usize = 0;
    while i < n
        invariant
            i <= n == a@.len() == b@.len(),
            forall|j: int| 0 <= j < i ==> a@[j] == b@[j],
        decreases n - i,
    {
        if a[i] != b[i] {
            return false;
        }
        i = i + 1;
    }
    assert(a@ =~= b@);
    true
}

} // verus!
