//! Decimal integer parsing, as `str::parse` does it for `i32` and `u32`.

use vstd::prelude::*;

verus! {

/// An ASCII decimal digit.
pub open spec fn is_digit(b: u8) -> bool {
    48 <= b <= 57
}

pub open spec fn all_digits(s: Seq<u8>) -> bool {
    forall|i: int| 0 <= i < s.len() ==> is_digit(#[trigger] s[i])
}

/// The value of a string of decimal digits, most significant first.
pub open spec fn digits_value(s: Seq<u8>) -> int
    decreases s.len(),
{
    if s.len() == 0 {
        0
    } else {
        digits_value(s.drop_last()) * 10 + (s.last() - 48)
    }
}

/// What `str::parse` returns for an integer type whose values are `lo..=hi`:
/// an optional sign (`-` only where the type is signed), then at least one
/// decimal digit and nothing else, and a value within the type's range.
pub open spec fn spec_parse_int(s: Seq<u8>, lo: int, hi: int) -> Option<int> {
    if s.len() == 0 {
        None
    } else {
        let negative = lo < 0 && s[0] == 45u8;
        let digits = if s[0] == 43u8 || negative {
            s.drop_first()
        } else {
            s
        };
        if digits.len() == 0 || !all_digits(digits) {
            None
        } else {
            let v = if negative {
                -digits_value(digits)
            } else {
                digits_value(digits)
            };
            if lo <= v && v <= hi {
                Some(v)
            } else {
                None
            }
        }
    }
}

pub proof fn lemma_digits_value_nonneg(s: Seq<u8>)
    requires
        all_digits(s),
    ensures
        digits_value(s) >= 0,
    decreases s.len(),
{
    if s.len() > 0 {
        lemma_digits_value_nonneg(s.drop_last());
    }
}

/// A string of digits is worth at least as much as any of its prefixes.
pub proof fn lemma_digits_value_prefix(s: Seq<u8>, j: int)
    requires
        all_digits(s),
        0 <= j <= s.len(),
    ensures
        digits_value(s.take(j)) <= digits_value(s),
    decreases s.len(),
{
    if j < s.len() {
        let d = s.drop_last();
        assert(d.take(j) =~= s.take(j));
        lemma_digits_value_prefix(d, j);
        lemma_digits_value_nonneg(d);
    } else {
        assert(s.take(j) =~= s);
    }
}

/// Parses `s` as `str::parse` parses an integer type whose values are
/// `lo..=hi` (here `i32` or `u32`, or a narrower range).
pub fn parse_int(s: &[u8], lo: i64, hi: i64) -> (r: Option<i64>)
    requires
        -0x1_0000_0000 <= lo <= 0 <= hi <= 0x1_0000_0000,
    ensures
        match r {
            Some(v) => spec_parse_int(s@, lo as int, hi as int) == Some(v as int),
            None => spec_parse_int(s@, lo as int, hi as int) is None,
        },
{
    let n = s.len();
    if n == 0 {
        return None;
    }
    let negative = lo < 0 && s[0] == 45u8;
    let start: usize = if s[0] == 43u8 || negative {
        1
    } else {
        0
    };
    let ghost digits = if s@[0] == 43u8 || negative {
        s@.drop_first()
    } else {
        s@
    };
    assert(digits =~= s@.subrange(start as int, n as int));
    if start == n {
        return None;
    }
    let limit: u64 = 0x1_0000_0000;
    let mut mag: u64 = 0;
    let mut i: usize = start;
    while i < n
        invariant
            start <= i <= n,
            n == s@.len(),
            start < n,
            digits =~= s@.subrange(start as int, n as int),
            all_digits(s@.subrange(start as int, i as int)),
            mag as int == digits_value(s@.subrange(start as int, i as int)),
            mag <= limit,
            limit == 0x1_0000_0000,
            -0x1_0000_0000 <= lo <= 0 <= hi <= 0x1_0000_0000,
            negative == (lo < 0 && s@[0] == 45u8),
            digits == (if s@[0] == 43u8 || negative { s@.drop_first() } else { s@ }),
        decreases n - i,
    {
        let b = s[i];
        if !(48u8 <= b && b <= 57u8) {
            assert(!is_digit(digits[i - start]));
            return None;
        }
        let ghost prev = s@.subrange(start as int, i as int);
        let ghost next_seq = s@.subrange(start as int, i + 1);
        assert(next_seq.drop_last() =~= prev);
        mag = mag * 10 + (b - 48u8) as u64;
        i = i + 1;
        if mag > limit {
            proof {
                if all_digits(digits) {
                    assert(digits.take(i - start) =~= s@.subrange(start as int, i as int));
                    lemma_digits_value_prefix(digits, i - start);
                }
            }
            return None;
        }
    }
    assert(s@.subrange(start as int, n as int) =~= digits);
    let m = mag as i64;
    let v: i64 = if negative {
        -m
    } else {
        m
    };
    if lo <= v && v <= hi {
        Some(v)
    } else {
        None
    }
}

} // verus!
