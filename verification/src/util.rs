//! Integers as users write them.

use vstd::prelude::*;
use vstd::string::*;

use crate::text::{
    IntError, chars_of, digit_of, int_value, is_space, law_large_number_overflows,
    law_number_reads_back, lemma_padded_len, lemma_trimmed, padded, parse_int, trim, trimmed,
};

verus! {

/// Whether `s` starts like a hexadecimal number.
pub open spec fn has_hex_prefix(s: Seq<char>) -> bool {
    s.len() >= 2 && s[0] == '0' && (s[1] == 'x' || s[1] == 'X')
}

/// The number that `s` writes: hexadecimal behind `0x` or `0X`, else decimal;
/// white space around it does not count.
pub open spec fn u64_value(s: Seq<char>) -> Result<nat, IntError> {
    let t = trimmed(s);
    if has_hex_prefix(t) {
        int_value(t.skip(2), 16, u64::MAX as nat)
    } else {
        int_value(t, 10, u64::MAX as nat)
    }
}

/// What is said of text that is no number.
pub open spec fn u64_error(s: Seq<char>, e: IntError) -> Seq<char> {
    let t = trimmed(s);
    let what = if has_hex_prefix(t) {
        "invalid hex '"@
    } else {
        "invalid integer '"@
    };
    what + t + "': "@ + e.text()
}

/// Parses a `u64` from a decimal or `0x`-prefixed hexadecimal string.
pub fn parse_u64_maybe_hex(s: &str) -> (r: Result<u64, String>)
    ensures
        match r {
            Ok(v) => u64_value(s@) == Ok::<nat, IntError>(v as nat),
            Err(text) => u64_value(s@) is Err && text@ == u64_error(s@, u64_value(s@)->Err_0),
        },
{
    let t = trim(s);
    let chars = chars_of(t);
    let hex = chars.len() >= 2 && chars[0] == '0' && (chars[1] == 'x' || chars[1] == 'X');
    let parsed = if hex {
        parse_int(&chars, 2, 16, u64::MAX)
    } else {
        assert(chars@.skip(0) =~= chars@);
        parse_int(&chars, 0, 10, u64::MAX)
    };
    match parsed {
        Ok(v) => Ok(v),
        Err(e) => {
            let mut text = if hex {
                "invalid hex '".to_owned()
            } else {
                "invalid integer '".to_owned()
            };
            text.append(t);
            text.append("': ");
            text.append(e.message());
            Err(text)
        },
    }
}

/// What reading a number of any size gives: itself, or an overflow where it does
/// not fit in 64 bits.
pub open spec fn read_of(n: nat) -> Result<nat, IntError> {
    if n <= u64::MAX {
        Ok(n)
    } else {
        Err(IntError::Overflow)
    }
}

/// Every number of 64 bits reads back as itself, and every larger one as an
/// overflow, written in decimal or in hexadecimal behind `0x` or `0X`, in either
/// case and with any number of zeros in front, and with white space around it or
/// not.
pub proof fn law_numbers_read_back(
    n: nat,
    upper: bool,
    width: nat,
    before: Seq<char>,
    after: Seq<char>,
)
    requires
        forall|i: int| 0 <= i < before.len() ==> is_space(#[trigger] before[i]),
        forall|i: int| 0 <= i < after.len() ==> is_space(#[trigger] after[i]),
    ensures
        u64_value(before + padded(n, 10, upper, width) + after) == read_of(n),
        u64_value(before + ("0x"@ + padded(n, 16, upper, width)) + after) == read_of(n),
        u64_value(before + ("0X"@ + padded(n, 16, upper, width)) + after) == read_of(n),
{
    reveal_strlit("0x");
    reveal_strlit("0X");
    let decimal = padded(n, 10, upper, width);
    let digits = padded(n, 16, upper, width);
    lemma_read_of(n, 10, upper, width);
    lemma_read_of(n, 16, upper, width);
    assert(digit_of(decimal[0], 10) is Some && digit_of(decimal.last(), 10) is Some);
    assert(digit_of(digits.last(), 16) is Some);
    lemma_trimmed(before, decimal, after);
    if decimal.len() >= 2 {
        assert(digit_of(decimal[1], 10) is Some);
        assert(!has_hex_prefix(decimal));
    }
    lemma_hex_read_back("0x"@, digits, before, after);
    lemma_hex_read_back("0X"@, digits, before, after);
}

/// A number that is written in digits alone reads as itself or as an overflow.
proof fn lemma_read_of(n: nat, radix: nat, upper: bool, width: nat)
    requires
        2 <= radix <= 16,
    ensures
        int_value(padded(n, radix, upper, width), radix, u64::MAX as nat) == read_of(n),
        padded(n, radix, upper, width).len() > 0,
        forall|i: int|
            0 <= i < padded(n, radix, upper, width).len() ==> digit_of(
                #[trigger] padded(n, radix, upper, width)[i],
                radix,
            ) is Some,
{
    lemma_padded_len(n, radix, upper, width);
    law_number_reads_back(n, radix, upper, width, n);
    if n <= u64::MAX {
        law_number_reads_back(n, radix, upper, width, u64::MAX as nat);
    } else {
        law_large_number_overflows(n, radix, upper, width, u64::MAX as nat);
    }
}

/// Digits behind a hexadecimal prefix are read as hexadecimal.
proof fn lemma_hex_read_back(
    prefix: Seq<char>,
    digits: Seq<char>,
    before: Seq<char>,
    after: Seq<char>,
)
    requires
        prefix.len() == 2,
        has_hex_prefix(prefix),
        digits.len() > 0,
        digit_of(digits.last(), 16) is Some,
        forall|i: int| 0 <= i < before.len() ==> is_space(#[trigger] before[i]),
        forall|i: int| 0 <= i < after.len() ==> is_space(#[trigger] after[i]),
    ensures
        u64_value(before + (prefix + digits) + after) == int_value(digits, 16, u64::MAX as nat),
{
    let text = prefix + digits;
    assert(text[0] == '0' && text[1] == prefix[1]);
    assert(text.last() == digits.last());
    lemma_trimmed(before, text, after);
    assert(text.skip(2) =~= digits);
}

} // verus!
