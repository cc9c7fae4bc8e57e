//! Decimal numbers as text: which byte strings write an integer or a decimal
//! number, and which integer.

use vstd::prelude::*;
use crate::bytes::{find_mark, first_mark, is_digit, lemma_first_mark, Mark};

verus! {

/// The byte of `+`.
pub const PLUS: u8 = 0x2b;

/// The byte of `-`.
pub const MINUS: u8 = 0x2d;

/// The byte of `.`.
pub const DOT: u8 = 0x2e;

/// The byte of `e`.
pub const LOWER_E: u8 = 0x65;

/// The byte of `E`.
pub const UPPER_E: u8 = 0x45;

/// Whether `s` holds decimal digits only.
pub open spec fn all_digits(s: Seq<u8>) -> bool {
    forall|i: int| 0 <= i < s.len() ==> is_digit(#[trigger] s[i])
}

/// The number that the digits `s` write; the empty string writes zero.
pub open spec fn digits_value(s: Seq<u8>) -> int
    decreases s.len(),
{
    if s.len() == 0 {
        0
    } else {
        digits_value(s.drop_last()) * 10 + (s.last() - 0x30)
    }
}

/// Whether `s` starts with a sign.
pub open spec fn has_sign(s: Seq<u8>) -> bool {
    s.len() > 0 && (s[0] == PLUS || s[0] == MINUS)
}

/// The integer that `s` writes: an optional sign, then one digit or more,
/// and nothing else.
pub open spec fn integer_of(s: Seq<u8>) -> Option<int> {
    let digits = if has_sign(s) {
        s.skip(1)
    } else {
        s
    };
    if digits.len() == 0 || !all_digits(digits) {
        None
    } else if has_sign(s) && s[0] == MINUS {
        Some(-digits_value(digits))
    } else {
        Some(digits_value(digits))
    }
}

/// The integer that `s` writes where it lies within `low..=high`.
pub open spec fn integer_within(s: Seq<u8>, low: int, high: int) -> Option<int> {
    match integer_of(s) {
        Some(v) if low <= v <= high => Some(v),
        _ => None,
    }
}

/// The unsigned integer that `s` writes: as `integer_of`, but a minus sign is
/// not accepted, not even before zero.
pub open spec fn unsigned_of(s: Seq<u8>) -> Option<int> {
    if s.len() > 0 && s[0] == MINUS {
        None
    } else {
        integer_of(s)
    }
}

/// The number of sign bytes at index `at` of `s`: one or none.
pub open spec fn sign_len(s: Seq<u8>, at: int) -> int {
    if 0 <= at < s.len() && (s[at] == PLUS || s[at] == MINUS) {
        1
    } else {
        0
    }
}

/// Whether `s` writes a decimal number: an optional sign; digits with at
/// most one point among, before or after them, and at least one digit; then
/// optionally `e` or `E`, an optional sign and one digit or more.
pub open spec fn is_decimal(s: Seq<u8>) -> bool {
    let a = sign_len(s, 0);
    let b = first_mark(s, Mark::NoDigit, a);
    let point = b < s.len() && s[b] == DOT;
    let c = if point {
        first_mark(s, Mark::NoDigit, b + 1)
    } else {
        b
    };
    let digits = if point {
        c - a - 1
    } else {
        c - a
    };
    let exponent = c < s.len() && (s[c] == LOWER_E || s[c] == UPPER_E);
    let d = c + 1 + sign_len(s, c + 1);
    digits >= 1 && if exponent {
        d < s.len() && first_mark(s, Mark::NoDigit, d) == s.len()
    } else {
        c == s.len()
    }
}

/// Digits never write a negative number, and more digits never a smaller one.
pub proof fn lemma_digits_value_grows(s: Seq<u8>, n: int)
    requires
        all_digits(s),
        0 <= n <= s.len(),
    ensures
        0 <= digits_value(s.take(n)) <= digits_value(s),
    decreases s.len() - n,
{
    if n == s.len() {
        assert(s.take(n) =~= s);
        lemma_digits_value_nonneg(s);
    } else {
        let t = s.drop_last();
        assert(t.take(n) =~= s.take(n));
        assert(all_digits(t)) by {
            assert forall|i: int| 0 <= i < t.len() implies is_digit(#[trigger] t[i]) by {
                assert(t[i] == s[i]);
            }
        }
        lemma_digits_value_grows(t, n);
        lemma_digits_value_nonneg(t);
        assert(is_digit(s[s.len() - 1]));
    }
}

/// Digits never write a negative number.
pub proof fn lemma_digits_value_nonneg(s: Seq<u8>)
    requires
        all_digits(s),
    ensures
        0 <= digits_value(s),
    decreases s.len(),
{
    if s.len() > 0 {
        let t = s.drop_last();
        assert forall|i: int| 0 <= i < t.len() implies is_digit(#[trigger] t[i]) by {
            assert(t[i] == s[i]);
        }
        lemma_digits_value_nonneg(t);
        assert(is_digit(s[s.len() - 1]));
    }
}

/// The number written by the digits `input[from..]`, where there is at least
/// one byte, all are digits and the number is at most `limit`.
pub fn parse_digits(input: &[u8], from: usize, limit: u64) -> (r: Option<u64>)
    requires
        from <= input@.len(),
    ensures
        ({
            let d = input@.skip(from as int);
            if d.len() > 0 && all_digits(d) && digits_value(d) <= limit {
                r matches Some(m) && m == digits_value(d)
            } else {
                r is None
            }
        }),
{
    let ghost d = input@.skip(from as int);
    if from == input.len() {
        return None;
    }
    let mut i: usize = from;
    let mut acc: u64 = 0;
    while i < input.len()
        invariant
            from <= i <= input@.len(),
            d == input@.skip(from as int),
            all_digits(d.take(i - from)),
            acc == digits_value(d.take(i - from)),
            acc <= limit,
        decreases input@.len() - i,
    {
        let b = input[i];
        if b < 0x30 || b > 0x39 {
            assert(!is_digit(d[i - from]));
            return None;
        }
        let ghost next = d.take(i - from + 1);
        proof {
            assert(next.drop_last() =~= d.take(i - from));
            assert(next.last() == b);
            assert forall|j: int| 0 <= j < next.len() implies is_digit(#[trigger] next[j]) by {
                if j < i - from {
                    assert(d.take(i - from)[j] == next[j]);
                }
            }
        }
        let digit: u64 = (b - 0x30) as u64;
        if digit > limit || acc > (limit - digit) / 10 {
            proof {
                assert(acc * 10 + digit > limit);
                if all_digits(d) {
                    lemma_digits_value_grows(d, i - from + 1);
                }
            }
            return None;
        }
        acc = acc * 10 + digit;
        i += 1;
    }
    proof {
        assert(d.take(i - from) =~= d);
    }
    Some(acc)
}

/// Reads `input` as a signed integer that fits 64 bits: an optional sign and
/// digits, as Rust's integer parsing accepts them.
pub fn parse_i64(input: &[u8]) -> (r: Option<i64>)
    ensures
        r == match integer_within(input@, i64::MIN as int, i64::MAX as int) {
            Some(v) => Some(v as i64),
            None => None,
        },
{
    let signed = input.len() > 0 && (input[0] == PLUS || input[0] == MINUS);
    if signed && input[0] == MINUS {
        match parse_digits(input, 1, 0x8000_0000_0000_0000) {
            Some(m) => {
                if m == 0x8000_0000_0000_0000 {
                    Some(i64::MIN)
                } else {
                    Some(-(m as i64))
                }
            },
            None => None,
        }
    } else {
        let from: usize = if signed {
            1
        } else {
            0
        };
        assert(input@.skip(0) =~= input@);
        match parse_digits(input, from, 0x7fff_ffff_ffff_ffff) {
            Some(m) => Some(m as i64),
            None => None,
        }
    }
}

/// Reads `input` as an unsigned integer that fits 32 bits: an optional `+`
/// and digits, as Rust's integer parsing accepts them.
pub fn parse_u32(input: &[u8]) -> (r: Option<u32>)
    ensures
        r == match unsigned_of(input@) {
            Some(v) if v <= u32::MAX => Some(v as u32),
            _ => None,
        },
{
    if input.len() > 0 && input[0] == MINUS {
        return None;
    }
    let from: usize = if input.len() > 0 && input[0] == PLUS {
        1
    } else {
        0
    };
    assert(input@.skip(0) =~= input@);
    match parse_digits(input, from, 0xffff_ffff) {
        Some(m) => Some(m as u32),
        None => {
            proof {
                if all_digits(input@.skip(from as int)) {
                    lemma_digits_value_nonneg(input@.skip(from as int));
                }
            }
            None
        },
    }
}

/// Whether `input` writes a decimal number, with or without a point and an
/// exponent.
pub fn is_decimal_number(input: &[u8]) -> (r: bool)
    ensures
        r == is_decimal(input@),
{
    let len = input.len();
    let a: usize = if len > 0 && (input[0] == PLUS || input[0] == MINUS) {
        1
    } else {
        0
    };
    let b = find_mark(input, Mark::NoDigit, a);
    let point = b < len && input[b] == DOT;
    let c = if point {
        find_mark(input, Mark::NoDigit, b + 1)
    } else {
        b
    };
    let digits = if point {
        c - a - 1
    } else {
        c - a
    };
    if digits < 1 {
        return false;
    }
    if c < len && (input[c] == LOWER_E || input[c] == UPPER_E) {
        let d: usize = if c + 1 < len && (input[c + 1] == PLUS || input[c + 1] == MINUS) {
            c + 2
        } else {
            c + 1
        };
        d < len && find_mark(input, Mark::NoDigit, d) == len
    } else {
        c == len
    }
}

} // verus!
