//! What numbers and texts are, told by their characters.

use vstd::prelude::*;
use vstd::arithmetic::power::{lemma_pow0, lemma_pow1, pow};

use crate::text::{
    IntError, dec, digit_of, digits, digits_value, hex04, hex08, int_value, is_space, joined,
    law_number_reads_back, lemma_padded_len, padded, split_once, trim_end, trim_start, trimmed,
};
use crate::util::u64_value;

verus! {

/// What a character counts for in a number of radix 16 or less: 16 where it is no
/// digit at all.
pub open spec fn letter_value(c: char) -> nat {
    let n = c as int;
    if '0' as int <= n <= '9' as int {
        (n - '0' as int) as nat
    } else if 'a' as int <= n <= 'f' as int {
        (n - 'a' as int + 10) as nat
    } else if 'A' as int <= n <= 'F' as int {
        (n - 'A' as int + 10) as nat
    } else {
        16
    }
}

/// Whether `s` is made of digits of `radix` alone.
pub open spec fn all_digits(s: Seq<char>, radix: nat) -> bool {
    forall|i: int| 0 <= i < s.len() ==> letter_value(#[trigger] s[i]) < radix
}

/// The sum of what the digits of `s` count for in their places: the first for the
/// highest power of `radix`.
pub open spec fn places(s: Seq<char>, radix: nat) -> int
    decreases s.len(),
{
    if s.len() == 0 {
        0
    } else {
        letter_value(s[0]) * pow(radix as int, (s.len() - 1) as nat) + places(s.skip(1), radix)
    }
}

/// What stands behind a plus sign, where anything does.
pub open spec fn unsigned(s: Seq<char>) -> Seq<char> {
    if s.len() > 1 && s[0] == '+' {
        s.skip(1)
    } else {
        s
    }
}

proof fn lemma_places(s: Seq<char>, c: char, radix: nat)
    ensures
        places(s.push(c), radix) == places(s, radix) * radix + letter_value(c),
    decreases s.len(),
{
    let t = s.push(c);
    let r = radix as int;
    lemma_pow0(r);
    if s.len() == 0 {
        assert(t.skip(1).len() == 0);
        assert(places(t.skip(1), radix) == 0);
        assert(letter_value(c) * 1 == letter_value(c));
    } else {
        assert(t.skip(1) =~= s.skip(1).push(c));
        lemma_places(s.skip(1), c, radix);
        let v = letter_value(s[0]) as int;
        let p = pow(r, (s.len() - 1) as nat);
        let rest = places(s.skip(1), radix);
        reveal(pow);
        assert(pow(r, s.len()) == r * p);
        assert((v * p + rest) * r == v * (r * p) + rest * r) by (nonlinear_arith);
    }
}

proof fn lemma_places_grow(s: Seq<char>, n: int, radix: nat)
    requires
        radix >= 1,
        0 <= n <= s.len(),
    ensures
        0 <= places(s.take(n), radix) <= places(s, radix),
    decreases s.len(),
{
    if n == s.len() {
        assert(s.take(n) =~= s);
        if s.len() > 0 {
            lemma_places_grow(s.drop_last(), s.len() - 1, radix);
            assert(s.drop_last().take(s.len() - 1) =~= s.drop_last());
            assert(s.drop_last().push(s.last()) =~= s);
            lemma_places(s.drop_last(), s.last(), radix);
            let v = places(s.drop_last(), radix);
            assert(v * radix >= 0) by (nonlinear_arith)
                requires
                    v >= 0,
                    radix >= 1,
            ;
        }
    } else {
        assert(s.drop_last().take(n) =~= s.take(n));
        lemma_places_grow(s.drop_last(), n, radix);
        assert(s.drop_last().push(s.last()) =~= s);
        lemma_places(s.drop_last(), s.last(), radix);
        let v = places(s.drop_last(), radix);
        assert(v * radix >= v) by (nonlinear_arith)
            requires
                v >= 0,
                radix >= 1,
        ;
    }
}

proof fn lemma_letter(c: char, radix: nat)
    requires
        2 <= radix <= 16,
    ensures
        letter_value(c) < radix ==> digit_of(c, radix) == Some(letter_value(c)),
        letter_value(c) >= radix ==> digit_of(c, radix) is None,
{
    assert(c as u32 as int == c as int);
}

proof fn lemma_digits_value(s: Seq<char>, radix: nat, max: nat)
    requires
        2 <= radix <= 16,
    ensures
        match digits_value(s, radix, max) {
            Ok(v) => all_digits(s, radix) && v == places(s, radix) && v <= max,
            Err(IntError::Overflow) => exists|n: int|
                0 <= n <= s.len() && all_digits(#[trigger] s.take(n), radix) && places(
                    s.take(n),
                    radix,
                ) > max,
            Err(IntError::InvalidDigit) => !all_digits(s, radix),
            Err(IntError::Empty) => false,
        },
        all_digits(s, radix) && places(s, radix) <= max ==> digits_value(s, radix, max) is Ok,
    decreases s.len(),
{
    if s.len() > 0 {
        let front = s.drop_last();
        let c = s.last();
        lemma_digits_value(front, radix, max);
        lemma_places(front, c, radix);
        assert(front.push(c) =~= s);
        lemma_letter(c, radix);
        match digits_value(front, radix, max) {
            Ok(v) => {
                if digit_of(c, radix) is Some {
                    assert forall|i: int| 0 <= i < s.len() implies letter_value(#[trigger] s[i])
                        < radix by {
                        if i < front.len() {
                            assert(front[i] == s[i]);
                        }
                    }
                    assert(s.take(s.len() as int) =~= s);
                    assert(all_digits(s.take(s.len() as int), radix));
                } else {
                    assert(letter_value(s[s.len() - 1]) >= radix);
                }
            },
            Err(IntError::Overflow) => {
                let n = choose|n: int|
                    0 <= n <= front.len() && all_digits(#[trigger] front.take(n), radix) && places(
                        front.take(n),
                        radix,
                    ) > max;
                assert(front.take(n) =~= s.take(n));
                lemma_places_grow(s, n, radix);
            },
            Err(_) => {
                let i = choose|i: int| 0 <= i < front.len() && letter_value(#[trigger] front[i])
                    >= radix;
                assert(letter_value(s[i]) >= radix);
            },
        }
    }
}

/// Text reads as a number exactly if it is made of digits, behind a plus sign or
/// not, and what they count for in their places is at most the largest number
/// allowed: that is the number. Else the text is empty, or a prefix of it is too
/// large already, or it holds a character that is no digit.
pub proof fn law_numbers_count_in_places(s: Seq<char>, radix: nat, max: nat)
    requires
        2 <= radix <= 16,
    ensures
        ({
            let t = unsigned(s);
            let read = int_value(s, radix, max);
            &&& read is Ok <==> s.len() > 0 && all_digits(t, radix) && places(t, radix) <= max
            &&& read matches Ok(n) ==> n == places(t, radix)
            &&& read == Err::<nat, IntError>(IntError::Empty) <==> s.len() == 0
            &&& read == Err::<nat, IntError>(IntError::InvalidDigit) ==> !all_digits(t, radix)
            &&& read == Err::<nat, IntError>(IntError::Overflow) ==> exists|n: int|
                0 <= n <= t.len() && all_digits(#[trigger] t.take(n), radix) && places(
                    t.take(n),
                    radix,
                ) > max
        }),
{
    assert(s.len() > 0 ==> s.skip(1) =~= s.drop_first());
    lemma_digits_value(unsigned(s), radix, max);
}

/// A number is written in digits of one case, with as many zeros in front as its
/// width asks for and no more, and what the digits count for is the number.
pub proof fn law_numbers_are_written_in_digits(n: nat, radix: nat, upper: bool, width: nat)
    requires
        2 <= radix <= 16,
    ensures
        ({
            let s = padded(n, radix, upper, width);
            &&& s.len() >= 1
            &&& s.len() >= width
            &&& s.len() > width && s.len() > 1 ==> s[0] != '0'
            &&& all_digits(s, radix)
            &&& places(s, radix) == n
            &&& forall|i: int|
                0 <= i < s.len() ==> if upper {
                    !('a' as int <= #[trigger] s[i] as int <= 'f' as int)
                } else {
                    !('A' as int <= s[i] as int <= 'F' as int)
                }
        }),
{
    let s = padded(n, radix, upper, width);
    lemma_padded_len(n, radix, upper, width);
    law_number_reads_back(n, radix, upper, width, n);
    lemma_digits_shape(n, radix, upper);
    law_numbers_count_in_places(s, radix, n);
    assert(digit_of(s[0], radix) is Some);
    assert(unsigned(s) == s);
    let d = digits(n, radix, upper);
    assert forall|i: int| 0 <= i < s.len() implies if upper {
        !('a' as int <= #[trigger] s[i] as int <= 'f' as int)
    } else {
        !('A' as int <= s[i] as int <= 'F' as int)
    } by {
        let zeros = s.len() - d.len();
        if i >= zeros {
            assert(s[i] == d[i - zeros]);
        } else {
            assert(s[i] == '0');
        }
    }
}

proof fn lemma_digits_shape(n: nat, radix: nat, upper: bool)
    requires
        2 <= radix <= 16,
    ensures
        ({
            let s = digits(n, radix, upper);
            &&& s.len() >= 1
            &&& n > 0 ==> s[0] != '0'
            &&& s.len() > 1 ==> n > 0
            &&& forall|i: int|
                0 <= i < s.len() ==> if upper {
                    !('a' as int <= #[trigger] s[i] as int <= 'f' as int)
                } else {
                    !('A' as int <= s[i] as int <= 'F' as int)
                }
        }),
    decreases n,
{
    if n >= radix {
        assert(n / radix < n) by (nonlinear_arith)
            requires
                n >= radix,
                radix >= 2,
        ;
        assert(n / radix >= 1) by (nonlinear_arith)
            requires
                n >= radix,
                radix >= 2,
        ;
        assert(0 <= n % radix < radix) by (nonlinear_arith)
            requires
                radix >= 2,
        ;
        lemma_digits_shape(n / radix, radix, upper);
    }
}

/// Decimal numbers have no zero in front.
pub proof fn law_decimals_are_plain(n: nat)
    ensures
        all_digits(dec(n), 10),
        places(dec(n), 10) == n,
        dec(n).len() >= 1,
        dec(n).len() > 1 ==> dec(n)[0] != '0',
{
    assert(padded(n, 10, true, 0) == dec(n));
    law_numbers_are_written_in_digits(n, 10, true, 0);
}

/// Numbers in hexadecimal of eight digits are written in upper case, those of four
/// in lower case.
pub proof fn law_hexadecimals_are_wide(n: nat)
    ensures
        hex08(n).len() >= 8,
        hex08(n).len() > 8 ==> hex08(n)[0] != '0',
        all_digits(hex08(n), 16),
        places(hex08(n), 16) == n,
        forall|i: int|
            0 <= i < hex08(n).len() ==> !('a' as int <= #[trigger] hex08(n)[i] as int <= 'f'
                as int),
        hex04(n).len() >= 4,
        hex04(n).len() > 4 ==> hex04(n)[0] != '0',
        all_digits(hex04(n), 16),
        places(hex04(n), 16) == n,
        forall|i: int|
            0 <= i < hex04(n).len() ==> !('A' as int <= #[trigger] hex04(n)[i] as int <= 'F'
                as int),
{
    law_numbers_are_written_in_digits(n, 16, true, 8);
    law_numbers_are_written_in_digits(n, 16, false, 4);
}

/// White space is what Unicode says it is: of the ASCII characters blank, tab and
/// the ends of lines, and some blanks and ends of lines behind ASCII.
pub proof fn law_white_space(c: char)
    ensures
        c as int <= 0x7F ==> (is_space(c) <==> c == ' ' || c == '\t' || c == '\n' || c == '\r' || c
            as int == 0xB || c as int == 0xC),
        c as int > 0x7F ==> (is_space(c) <==> c == '\u{85}' || c == '\u{A0}' || c == '\u{1680}' || (
        '\u{2000}' as int <= c as int && c as int <= '\u{200A}' as int) || c == '\u{2028}' || c
            == '\u{2029}' || c == '\u{202F}' || c == '\u{205F}' || c == '\u{3000}'),
{
}

proof fn lemma_trim_start_at(s: Seq<char>) -> (i: int)
    ensures
        0 <= i <= s.len(),
        trim_start(s) == s.skip(i),
        forall|k: int| 0 <= k < i ==> is_space(#[trigger] s[k]),
        i < s.len() ==> !is_space(s[i]),
    decreases s.len(),
{
    if s.len() > 0 && is_space(s[0]) {
        let i = lemma_trim_start_at(s.drop_first());
        assert(s.drop_first().skip(i) =~= s.skip(i + 1));
        assert forall|k: int| 0 <= k < i + 1 implies is_space(#[trigger] s[k]) by {
            if k > 0 {
                assert(s.drop_first()[k - 1] == s[k]);
            }
        }
        i + 1
    } else {
        assert(s.skip(0) =~= s);
        0
    }
}

proof fn lemma_trim_end_at(s: Seq<char>) -> (j: int)
    ensures
        0 <= j <= s.len(),
        trim_end(s) == s.take(j),
        forall|k: int| j <= k < s.len() ==> is_space(#[trigger] s[k]),
        j > 0 ==> !is_space(s[j - 1]),
    decreases s.len(),
{
    if s.len() > 0 && is_space(s.last()) {
        let j = lemma_trim_end_at(s.drop_last());
        assert(s.drop_last().take(j) =~= s.take(j));
        assert forall|k: int| j <= k < s.len() implies is_space(#[trigger] s[k]) by {
            if k < s.len() - 1 {
                assert(s.drop_last()[k] == s[k]);
            }
        }
        j
    } else {
        assert(s.take(s.len() as int) =~= s);
        s.len() as int
    }
}

/// Whether `s` from `i` up to `j` is what is left without white space at the ends.
pub open spec fn bare_between(s: Seq<char>, i: int, j: int) -> bool {
    &&& 0 <= i <= j <= s.len()
    &&& forall|k: int| 0 <= k < i ==> is_space(#[trigger] s[k])
    &&& forall|k: int| j <= k < s.len() ==> is_space(#[trigger] s[k])
    &&& i < j ==> !is_space(s[i]) && !is_space(s[j - 1])
}

/// Trimming takes away white space at the ends, all of it, and nothing else.
pub proof fn law_trimming_takes_spaces(s: Seq<char>)
    ensures
        exists|i: int, j: int|
            #[trigger] bare_between(s, i, j) && trimmed(s) == s.subrange(i, j),
{
    let i = lemma_trim_start_at(s);
    let t = s.skip(i);
    let j = lemma_trim_end_at(t);
    assert(t.take(j) =~= s.subrange(i, i + j));
    assert forall|k: int| i + j <= k < s.len() implies is_space(#[trigger] s[k]) by {
        assert(t[k - i] == s[k]);
    }
    if j > 0 {
        assert(t[j - 1] == s[i + j - 1]);
        assert(t[0] == s[i]);
    }
    assert(bare_between(s, i, i + j));
}

/// Text splits at the first place at which it holds a character, and only there.
pub proof fn law_text_splits_at_first(s: Seq<char>, c: char)
    ensures
        split_once(s, c) is Some <==> s.contains(c),
        split_once(s, c) matches Some((front, back)) ==> s == front + seq![c] + back
            && !front.contains(c),
{
    s.index_of_first_ensures(c);
    if let Some((front, back)) = split_once(s, c) {
        let i = s.index_of_first(c)->0;
        assert(s =~= front + seq![c] + back);
        assert forall|k: int| 0 <= k < front.len() implies front[k] != c by {
            assert(front[k] == s[k]);
        }
    }
}

/// Joining puts the separator between neighbours and nowhere else: nothing gives
/// nothing, one item gives itself, and two lists give both with a separator
/// between.
pub proof fn law_joining_separates(
    first: Seq<String>,
    second: Seq<String>,
    item: String,
    sep: Seq<char>,
)
    requires
        first.len() > 0,
        second.len() > 0,
    ensures
        joined(Seq::empty(), sep) == Seq::<char>::empty(),
        joined(seq![item], sep) == item@,
        joined(first + second, sep) == joined(first, sep) + sep + joined(second, sep),
    decreases second.len(),
{
    let both = first + second;
    assert(both.last() == second.last());
    if second.len() == 1 {
        assert(both.drop_last() =~= first);
        assert(joined(second, sep) == second[0]@);
    } else {
        assert(both.drop_last() =~= first + second.drop_last());
        law_joining_separates(first, second.drop_last(), item, sep);
        assert(joined(both, sep) =~= joined(first, sep) + sep + joined(second, sep));
    }
}

/// A number that a user writes is what its digits count for: in hexadecimal behind
/// `0x` or `0X`, else in decimal, with white space around it or not.
pub proof fn law_user_numbers(s: Seq<char>)
    ensures
        ({
            let t = trimmed(s);
            let hex = t.len() >= 2 && t[0] == '0' && (t[1] == 'x' || t[1] == 'X');
            let radix: nat = if hex {
                16
            } else {
                10
            };
            let digits = unsigned(
                if hex {
                    t.skip(2)
                } else {
                    t
                },
            );
            &&& u64_value(s) is Ok <==> digits.len() > 0 && all_digits(digits, radix) && places(
                digits,
                radix,
            ) <= 0xFFFF_FFFF_FFFF_FFFF
            &&& u64_value(s) matches Ok(n) ==> n == places(digits, radix)
        }),
{
    let t = trimmed(s);
    law_numbers_count_in_places(t.skip(2), 16, u64::MAX as nat);
    law_numbers_count_in_places(t, 10, u64::MAX as nat);
}

} // verus!
