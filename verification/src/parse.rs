//! Parsing decimal item identifiers.
//!
//! Submitted rankings arrive as text; an item identifier is an optionally
//! signed decimal integer. The parser accepts exactly the strings that hold
//! one and whose value fits a 64-bit signed integer.

use vstd::prelude::*;
use vstd::string::StringSliceAdditionalSpecFns;

verus! {

/// The byte of the ASCII digit zero.
pub const DIGIT_ZERO: u8 = 0x30;

/// The byte of the ASCII digit nine.
pub const DIGIT_NINE: u8 = 0x39;

/// The byte of the ASCII plus sign.
pub const PLUS_SIGN: u8 = 0x2b;

/// The byte of the ASCII minus sign.
pub const MINUS_SIGN: u8 = 0x2d;

/// Whether every byte is a decimal digit.
pub open spec fn all_digits(bytes: Seq<u8>) -> bool {
    forall|i: int| 0 <= i < bytes.len() ==> DIGIT_ZERO <= #[trigger] bytes[i] <= DIGIT_NINE
}

/// The numeric value of a run of decimal digit bytes.
pub open spec fn decimal_value(digits: Seq<u8>) -> int
    decreases digits.len(),
{
    if digits.len() == 0 {
        0
    } else {
        decimal_value(digits.drop_last()) * 10 + (digits.last() - DIGIT_ZERO)
    }
}

/// What parsing an optionally signed decimal integer yields: the value of
/// an optional sign followed by at least one digit, provided it fits a
/// 64-bit signed integer; anything else is rejected.
pub open spec fn parsed_i64(bytes: Seq<u8>) -> Option<i64> {
    let negative = bytes.len() > 0 && bytes[0] == MINUS_SIGN;
    let digits = if bytes.len() > 0 && (bytes[0] == MINUS_SIGN || bytes[0] == PLUS_SIGN) {
        bytes.drop_first()
    } else {
        bytes
    };
    let value = if negative {
        -decimal_value(digits)
    } else {
        decimal_value(digits)
    };
    if digits.len() > 0 && all_digits(digits) && i64::MIN <= value <= i64::MAX {
        Some(value as i64)
    } else {
        None
    }
}

/// The value of a run of digits is never negative.
proof fn lemma_decimal_value_nonneg(digits: Seq<u8>)
    requires
        all_digits(digits),
    ensures
        decimal_value(digits) >= 0,
    decreases digits.len(),
{
    if digits.len() > 0 {
        lemma_decimal_value_nonneg(digits.drop_last());
    }
}

/// The value of a run of digits is at least the value of any of its
/// prefixes.
proof fn lemma_decimal_value_prefix(digits: Seq<u8>, k: int)
    requires
        all_digits(digits),
        0 <= k <= digits.len(),
    ensures
        decimal_value(digits.take(k)) <= decimal_value(digits),
    decreases digits.len() - k,
{
    if k < digits.len() {
        lemma_decimal_value_prefix(digits, k + 1);
        assert(digits.take(k + 1).drop_last() =~= digits.take(k));
        assert(all_digits(digits.take(k))) by {
            assert(forall|i: int| 0 <= i < k ==> digits.take(k)[i] == digits[i]);
        }
        lemma_decimal_value_nonneg(digits.take(k));
        assert(decimal_value(digits.take(k + 1)) == decimal_value(digits.take(k)) * 10 + (
        digits[k] - DIGIT_ZERO));
    } else {
        assert(digits.take(k) =~= digits);
    }
}

/// Parse an optionally signed decimal integer, exactly as
/// [`parsed_i64`] describes: `Some` on a well-formed number that fits,
/// `None` on anything else. The contract reads the string as its UTF-8
/// bytes; for the digits and signs involved those are the characters
/// themselves.
pub fn parse_item_id(s: &String) -> (r: Option<i64>)
    ensures
        r == parsed_i64(vstd::utf8::encode_utf8(s@)),
{
    let bytes = s.as_str().as_bytes();
    let ghost all = vstd::utf8::encode_utf8(s@);
    let mut start: usize = 0;
    if bytes.len() > 0 && (bytes[0] == MINUS_SIGN || bytes[0] == PLUS_SIGN) {
        start = 1;
    }
    let ghost digits = if start == 1 {
        all.drop_first()
    } else {
        all
    };
    let negative = bytes.len() > 0 && bytes[0] == MINUS_SIGN;
    if bytes.len() == start {
        // No digits at all.
        return None;
    }
    let limit: i128 = 9223372036854775808i128;  // 2^63: one more than i64::MAX
    let mut magnitude: i128 = 0;
    let mut k: usize = start;
    while k < bytes.len()
        invariant
            start <= k <= bytes@.len(),
            start <= 1,
            all == vstd::utf8::encode_utf8(s@),
            bytes@ == all,
            (start == 1) == (all.len() > 0 && (all[0] == MINUS_SIGN || all[0] == PLUS_SIGN)),
            digits == (if start == 1 {
                all.drop_first()
            } else {
                all
            }),
            magnitude == decimal_value(all.subrange(start as int, k as int)),
            0 <= magnitude <= limit,
            limit == 0x8000_0000_0000_0000i128,
            all_digits(all.subrange(start as int, k as int)),
        decreases bytes@.len() - k,
    {
        let b = bytes[k];
        if b < DIGIT_ZERO || b > DIGIT_NINE {
            proof {
                assert(digits[k - start] == all[k as int]);
                assert(!all_digits(digits));
                assert(parsed_i64(all) is None);
            }
            return None;
        }
        proof {
            assert(all.subrange(start as int, k as int + 1).drop_last() =~= all.subrange(
                start as int,
                k as int,
            ));
        }
        magnitude = magnitude * 10 + ((b - DIGIT_ZERO) as i128);
        k += 1;
        if magnitude > limit {
            proof {
                let scanned = all.subrange(start as int, k as int);
                if all_digits(digits) {
                    assert(scanned =~= digits.take(k - start as int));
                    lemma_decimal_value_prefix(digits, k - start as int);
                    assert(decimal_value(digits) >= magnitude > limit);
                }
                assert(parsed_i64(all) is None);
            }
            return None;
        }
    }
    proof {
        assert(all.subrange(start as int, bytes@.len() as int) =~= digits);
        lemma_decimal_value_nonneg(digits);
    }
    if negative {
        proof {
            assert(i64::MIN <= -magnitude <= i64::MAX);
        }
        Some((-magnitude) as i64)
    } else {
        if magnitude == limit {
            // 2^63 exceeds the largest positive value.
            return None;
        }
        Some(magnitude as i64)
    }
}

} // verus!
