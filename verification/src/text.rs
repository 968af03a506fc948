//! Plain text: white space, integers in digits, and joined lists.

use vstd::prelude::*;
use vstd::string::*;

verus! {

/// Whether `c` has the Unicode property `White_Space`.
pub open spec fn is_space(c: char) -> bool {
    ||| 0x9 <= c as u32 <= 0xD
    ||| c as u32 == 0x20
    ||| c as u32 == 0x85
    ||| c as u32 == 0xA0
    ||| c as u32 == 0x1680
    ||| 0x2000 <= c as u32 <= 0x200A
    ||| c as u32 == 0x2028
    ||| c as u32 == 0x2029
    ||| c as u32 == 0x202F
    ||| c as u32 == 0x205F
    ||| c as u32 == 0x3000
}

/// Tests for the Unicode property `White_Space`.
pub fn space(c: char) -> (r: bool)
    ensures
        r == is_space(c),
{
    let n: u32 = c as u32;
    (0x9 <= n && n <= 0xD) || n == 0x20 || n == 0x85 || n == 0xA0 || n == 0x1680 || (0x2000 <= n
        && n <= 0x200A) || n == 0x2028 || n == 0x2029 || n == 0x202F || n == 0x205F || n == 0x3000
}

/// `s` without the white space that it starts with.
pub open spec fn trim_start(s: Seq<char>) -> Seq<char>
    decreases s.len(),
{
    if s.len() > 0 && is_space(s[0]) {
        trim_start(s.drop_first())
    } else {
        s
    }
}

/// `s` without the white space that it ends with.
pub open spec fn trim_end(s: Seq<char>) -> Seq<char>
    decreases s.len(),
{
    if s.len() > 0 && is_space(s.last()) {
        trim_end(s.drop_last())
    } else {
        s
    }
}

/// `s` without the white space at either end.
pub open spec fn trimmed(s: Seq<char>) -> Seq<char> {
    trim_end(trim_start(s))
}

/// The characters of a string.
pub fn chars_of(s: &str) -> (r: Vec<char>)
    ensures
        r@ == s@,
{
    let mut out: Vec<char> = Vec::new();
    for c in it: s.chars()
        invariant
            it.seq() == s@,
            out@ == s@.take(it.index() as int),
    {
        out.push(c);
        assert(s@.take(it.index() as int + 1) =~= s@.take(it.index() as int).push(c));
    }
    assert(s@.take(s@.len() as int) =~= s@);
    out
}

/// Removes the white space at both ends of a string.
pub fn trim(s: &str) -> (r: &str)
    ensures
        r@ == trimmed(s@),
{
    let chars = chars_of(s);
    let mut from: usize = 0;
    assert(s@.skip(0) =~= s@);
    while from < chars.len() && space(chars[from])
        invariant
            from <= chars@.len(),
            chars@ == s@,
            trim_start(s@) == trim_start(s@.skip(from as int)),
        decreases chars@.len() - from,
    {
        assert(s@.skip(from as int).drop_first() =~= s@.skip(from as int + 1));
        from = from + 1;
    }
    let mut to: usize = chars.len();
    let ghost head = s@.skip(from as int);
    assert(head.take(to - from) =~= head);
    while to > from && space(chars[to - 1])
        invariant
            from <= to <= chars@.len(),
            chars@ == s@,
            head == s@.skip(from as int),
            trim_end(head) == trim_end(head.take(to - from)),
        decreases to,
    {
        assert(head.take(to - from).drop_last() =~= head.take(to - from - 1));
        to = to - 1;
    }
    assert(head.take(to - from) =~= s@.subrange(from as int, to as int));
    s.substring_char(from, to)
}

/// Why a piece of text is not an unsigned integer.
#[derive(Clone, Copy, Debug, PartialEq, Eq, Structural)]
pub enum IntError {
    /// There are no characters at all.
    Empty,
    /// A character is not a digit of the radix.
    InvalidDigit,
    /// The number is larger than the type can hold.
    Overflow,
}

impl IntError {
    /// What the error says.
    pub open spec fn text(self) -> Seq<char> {
        match self {
            IntError::Empty => "cannot parse integer from empty string"@,
            IntError::InvalidDigit => "invalid digit found in string"@,
            IntError::Overflow => "number too large to fit in target type"@,
        }
    }

    /// What the error says.
    pub fn message(&self) -> (r: &'static str)
        ensures
            r@ == self.text(),
    {
        match self {
            IntError::Empty => "cannot parse integer from empty string",
            IntError::InvalidDigit => "invalid digit found in string",
            IntError::Overflow => "number too large to fit in target type",
        }
    }
}

/// The value of `c` as a digit of `radix`, which is at most 36.
pub open spec fn digit_of(c: char, radix: nat) -> Option<nat> {
    let n = c as u32;
    let d = if 0x30 <= n <= 0x39 {
        (n - 0x30) as nat
    } else if 0x41 <= n <= 0x5A {
        (n - 0x41 + 10) as nat
    } else if 0x61 <= n <= 0x7A {
        (n - 0x61 + 10) as nat
    } else {
        radix
    };
    if d < radix {
        Some(d)
    } else {
        None
    }
}

/// The number that the digits `s` write in `radix`, as long as every prefix of
/// them is made of digits and is at most `max`; the first character at which
/// that fails decides the error.
pub open spec fn digits_value(s: Seq<char>, radix: nat, max: nat) -> Result<nat, IntError>
    decreases s.len(),
{
    if s.len() == 0 {
        Ok(0)
    } else {
        match digits_value(s.drop_last(), radix, max) {
            Err(e) => Err(e),
            Ok(v) => match digit_of(s.last(), radix) {
                None => Err(IntError::InvalidDigit),
                Some(d) => if v * radix + d > max {
                    Err(IntError::Overflow)
                } else {
                    Ok(v * radix + d)
                },
            },
        }
    }
}

/// The unsigned integer that `s` writes in `radix`: digits, after an optional
/// plus sign.
pub open spec fn int_value(s: Seq<char>, radix: nat, max: nat) -> Result<nat, IntError> {
    if s.len() == 0 {
        Err(IntError::Empty)
    } else if s.len() > 1 && s[0] == '+' {
        digits_value(s.drop_first(), radix, max)
    } else {
        digits_value(s, radix, max)
    }
}

/// A failure on some prefix is the failure of the whole.
proof fn lemma_digits_error(s: Seq<char>, n: int, radix: nat, max: nat)
    requires
        0 <= n <= s.len(),
        digits_value(s.take(n), radix, max) is Err,
    ensures
        digits_value(s, radix, max) == digits_value(s.take(n), radix, max),
    decreases s.len(),
{
    if n == s.len() {
        assert(s.take(n) =~= s);
    } else {
        assert(s.drop_last().take(n) =~= s.take(n));
        lemma_digits_error(s.drop_last(), n, radix, max);
    }
}

/// Reads one digit of `radix`.
fn digit(c: char, radix: u64) -> (r: Option<u64>)
    requires
        radix <= 36,
    ensures
        match r {
            Some(d) => digit_of(c, radix as nat) == Some(d as nat),
            None => digit_of(c, radix as nat) is None,
        },
{
    let n: u32 = c as u32;
    let d: u64 = if 0x30 <= n && n <= 0x39 {
        (n - 0x30) as u64
    } else if 0x41 <= n && n <= 0x5A {
        (n - 0x41 + 10) as u64
    } else if 0x61 <= n && n <= 0x7A {
        (n - 0x61 + 10) as u64
    } else {
        radix
    };
    if d < radix {
        Some(d)
    } else {
        None
    }
}

/// Reads an unsigned integer of at most `max` from the characters of `chars`
/// from `from` on.
pub fn parse_int(chars: &Vec<char>, from: usize, radix: u64, max: u64) -> (r: Result<u64, IntError>)
    requires
        from <= chars@.len(),
        2 <= radix <= 36,
    ensures
        match r {
            Ok(v) => int_value(chars@.skip(from as int), radix as nat, max as nat) == Ok::<
                nat,
                IntError,
            >(v as nat),
            Err(e) => int_value(chars@.skip(from as int), radix as nat, max as nat) == Err::<
                nat,
                IntError,
            >(e),
        },
{
    let ghost s = chars@.skip(from as int);
    if from == chars.len() {
        return Err(IntError::Empty);
    }
    let mut i: usize = from;
    if chars.len() - from > 1 && chars[from] == '+' {
        i = from + 1;
    }
    let ghost lead = i as int;
    let ghost digits = chars@.skip(lead);
    assert(digits == (if s.len() > 1 && s[0] == '+' { s.drop_first() } else { s }));
    let mut value: u64 = 0;
    assert(digits.take(0) =~= Seq::<char>::empty());
    while i < chars.len()
        invariant
            from <= lead <= i <= chars@.len(),
            digits == chars@.skip(lead),
            2 <= radix <= 36,
            from < chars@.len(),
            value <= max,
            s == chars@.skip(from as int),
            digits == (if s.len() > 1 && s[0] == '+' { s.drop_first() } else { s }),
            digits_value(digits.take(i - lead), radix as nat, max as nat) == Ok::<nat, IntError>(
                value as nat,
            ),
        decreases chars@.len() - i,
    {
        let ghost next = digits.take(i - lead + 1);
        assert(next.drop_last() =~= digits.take(i - lead));
        assert(next.last() == chars@[i as int]);
        match digit(chars[i], radix) {
            None => {
                proof {
                    lemma_digits_error(digits, i - lead + 1, radix as nat, max as nat);
                }
                return Err(IntError::InvalidDigit);
            },
            Some(d) => {
                assert((value as u128) * (radix as u128) <= 0xFFFF_FFFF_FFFF_FFFF * 36)
                    by (nonlinear_arith)
                    requires
                        value <= 0xFFFF_FFFF_FFFF_FFFF,
                        radix <= 36,
                ;
                let wide: u128 = (value as u128) * (radix as u128) + (d as u128);
                if wide > max as u128 {
                    proof {
                        lemma_digits_error(digits, i - lead + 1, radix as nat, max as nat);
                    }
                    return Err(IntError::Overflow);
                }
                value = wide as u64;
            },
        }
        i = i + 1;
    }
    assert(digits.take(digits.len() as int) =~= digits);
    Ok(value)
}

/// The digit `d`, which is below 16, with letters from `A` or from `a` on.
pub open spec fn digit_char(d: nat, upper: bool) -> char {
    if d < 10 {
        (0x30 + d) as char
    } else if upper {
        (0x41 + d - 10) as char
    } else {
        (0x61 + d - 10) as char
    }
}

/// `n` in the digits of `radix`, with no leading zero.
pub open spec fn digits(n: nat, radix: nat, upper: bool) -> Seq<char>
    decreases n,
{
    if radix < 2 || n < radix {
        seq![digit_char(n, upper)]
    } else {
        proof {
            assert(n / radix < n) by (nonlinear_arith)
                requires
                    n >= radix,
                    radix >= 2,
            ;
        }
        digits(n / radix, radix, upper).push(digit_char(n % radix, upper))
    }
}

/// `n` in decimal.
pub open spec fn dec(n: nat) -> Seq<char> {
    digits(n, 10, true)
}

/// `n` in `radix`, with zeros in front up to `width` digits.
pub open spec fn padded(n: nat, radix: nat, upper: bool, width: nat) -> Seq<char> {
    let s = digits(n, radix, upper);
    if s.len() < width {
        Seq::new((width - s.len()) as nat, |i: int| '0') + s
    } else {
        s
    }
}

/// `n` in upper-case hexadecimal of at least eight digits.
pub open spec fn hex08(n: nat) -> Seq<char> {
    padded(n, 16, true, 8)
}

/// `n` in lower-case hexadecimal of at least four digits.
pub open spec fn hex04(n: nat) -> Seq<char> {
    padded(n, 16, false, 4)
}

/// Writes one digit.
fn digit_str(d: u64, upper: bool) -> (r: &'static str)
    requires
        d < 16,
    ensures
        r@ == seq![digit_char(d as nat, upper)],
{
    proof {
        reveal_strlit("0");
        reveal_strlit("1");
        reveal_strlit("2");
        reveal_strlit("3");
        reveal_strlit("4");
        reveal_strlit("5");
        reveal_strlit("6");
        reveal_strlit("7");
        reveal_strlit("8");
        reveal_strlit("9");
        reveal_strlit("A");
        reveal_strlit("B");
        reveal_strlit("C");
        reveal_strlit("D");
        reveal_strlit("E");
        reveal_strlit("F");
        reveal_strlit("a");
        reveal_strlit("b");
        reveal_strlit("c");
        reveal_strlit("d");
        reveal_strlit("e");
        reveal_strlit("f");
    }
    match (d, upper) {
        (0, _) => "0",
        (1, _) => "1",
        (2, _) => "2",
        (3, _) => "3",
        (4, _) => "4",
        (5, _) => "5",
        (6, _) => "6",
        (7, _) => "7",
        (8, _) => "8",
        (9, _) => "9",
        (10, true) => "A",
        (11, true) => "B",
        (12, true) => "C",
        (13, true) => "D",
        (14, true) => "E",
        (15, true) => "F",
        (10, false) => "a",
        (11, false) => "b",
        (12, false) => "c",
        (13, false) => "d",
        (14, false) => "e",
        _ => "f",
    }
}

/// Appends `n` in the digits of `radix`.
fn push_digits(out: &mut String, n: u64, radix: u64, upper: bool)
    requires
        2 <= radix <= 16,
    ensures
        final(out)@ == old(out)@ + digits(n as nat, radix as nat, upper),
    decreases n,
{
    if n < radix {
        out.append(digit_str(n, upper));
    } else {
        assert(n / radix < n) by (nonlinear_arith)
            requires
                n >= radix,
                radix >= 2,
        ;
        let ghost before = out@;
        push_digits(out, n / radix, radix, upper);
        out.append(digit_str(n % radix, upper));
        assert(out@ =~= before + digits(n as nat, radix as nat, upper));
    }
}

/// Counts how many digits `n` has in `radix`.
fn digit_count(n: u64, radix: u64) -> (r: u64)
    requires
        2 <= radix <= 16,
    ensures
        r == digits(n as nat, radix as nat, true).len(),
        r == digits(n as nat, radix as nat, false).len(),
        r <= n + 1,
    decreases n,
{
    if n < radix {
        1
    } else {
        assert(n / radix <= n / 2) by (nonlinear_arith)
            requires
                n >= radix,
                radix >= 2,
        ;
        digit_count(n / radix, radix) + 1
    }
}

/// Appends `n` in decimal.
pub fn push_dec(out: &mut String, n: u64)
    ensures
        final(out)@ == old(out)@ + dec(n as nat),
{
    push_digits(out, n, 10, true);
}

/// Appends `n` in `radix`, with zeros in front up to `width` digits.
pub fn push_padded(out: &mut String, n: u64, radix: u64, upper: bool, width: u64)
    requires
        2 <= radix <= 16,
    ensures
        final(out)@ == old(out)@ + padded(n as nat, radix as nat, upper, width as nat),
{
    let ghost before = out@;
    let mut have: u64 = digit_count(n, radix);
    let ghost count = have as int;
    while have < width
        invariant
            count <= have,
            have <= width || have == count,
            out@ == before + Seq::new((have - count) as nat, |i: int| '0'),
        decreases width - have,
    {
        out.append(digit_str(0, upper));
        have = have + 1;
        assert(out@ =~= before + Seq::new((have - count) as nat, |i: int| '0'));
    }
    push_digits(out, n, radix, upper);
    assert(out@ =~= before + padded(n as nat, radix as nat, upper, width as nat));
}

/// The items of `list` one after another, with `sep` between neighbours.
pub open spec fn joined(list: Seq<String>, sep: Seq<char>) -> Seq<char>
    decreases list.len(),
{
    if list.len() == 0 {
        Seq::empty()
    } else if list.len() == 1 {
        list[0]@
    } else {
        joined(list.drop_last(), sep) + sep + list.last()@
    }
}

/// Joins strings with a separator between neighbours.
pub fn join(list: &Vec<String>, sep: &str) -> (r: String)
    ensures
        r@ == joined(list@, sep@),
{
    let mut out = String::new();
    let mut i: usize = 0;
    assert(list@.take(0).len() == 0);
    while i < list.len()
        invariant
            i <= list@.len(),
            out@ == joined(list@.take(i as int), sep@),
        decreases list@.len() - i,
    {
        if i > 0 {
            out.append(sep);
        }
        out.append(list[i].as_str());
        assert(list@.take(i as int + 1).drop_last() =~= list@.take(i as int));
        assert(out@ =~= joined(list@.take(i as int + 1), sep@));
        i = i + 1;
    }
    assert(list@.take(list@.len() as int) =~= list@);
    out
}

/// Whether two strings hold the same characters.
pub fn same_text(a: &str, b: &str) -> (r: bool)
    ensures
        r == (a@ == b@),
{
    a.to_owned() == b.to_owned()
}

/// The parts of `s` in front of and behind the first `c` in it.
pub open spec fn split_once(s: Seq<char>, c: char) -> Option<(Seq<char>, Seq<char>)> {
    match s.index_of_first(c) {
        Some(i) => Some((s.take(i), s.skip(i + 1))),
        None => None,
    }
}

/// Text splits at a character that its front part does not hold.
pub proof fn lemma_split_once(front: Seq<char>, c: char, back: Seq<char>)
    requires
        forall|i: int| 0 <= i < front.len() ==> #[trigger] front[i] != c,
    ensures
        split_once(front + seq![c] + back, c) == Some((front, back)),
{
    let s = front + seq![c] + back;
    s.index_of_first_ensures(c);
    assert(s[front.len() as int] == c);
    assert(s.contains(c));
    let i = s.index_of_first(c)->0;
    if i < front.len() {
        assert(s[i] == front[i]);
    }
    assert(i == front.len());
    assert(s.take(i) =~= front);
    assert(s.skip(i + 1) =~= back);
}

/// Text that does not hold a character does not split at it.
pub proof fn lemma_split_none(s: Seq<char>, c: char)
    requires
        forall|i: int| 0 <= i < s.len() ==> #[trigger] s[i] != c,
    ensures
        split_once(s, c) is None,
{
    s.index_of_first_ensures(c);
}

proof fn lemma_digit_char(d: nat, radix: nat, upper: bool)
    requires
        d < radix <= 16,
    ensures
        digit_of(digit_char(d, upper), radix) == Some(d),
{
}

proof fn lemma_zeros(k: nat, radix: nat, max: nat)
    requires
        2 <= radix <= 16,
    ensures
        digits_value(Seq::new(k, |i: int| '0'), radix, max) == Ok::<nat, IntError>(0),
    decreases k,
{
    if k > 0 {
        let s = Seq::new(k, |i: int| '0');
        let shorter = Seq::new((k - 1) as nat, |i: int| '0');
        assert(s.drop_last() =~= shorter);
        lemma_zeros((k - 1) as nat, radix, max);
        assert(digit_of('0', radix) == Some(0nat));
        assert(0 * radix + 0 == 0) by (nonlinear_arith);
    }
}

proof fn lemma_digits_read_back(n: nat, radix: nat, upper: bool, zeros: nat, max: nat)
    requires
        2 <= radix <= 16,
        n <= max,
    ensures
        digits_value(Seq::new(zeros, |i: int| '0') + digits(n, radix, upper), radix, max) == Ok::<
            nat,
            IntError,
        >(n),
        digits(n, radix, upper).len() > 0,
        forall|i: int|
            0 <= i < digits(n, radix, upper).len() ==> digit_of(
                #[trigger] digits(n, radix, upper)[i],
                radix,
            ) is Some,
    decreases n,
{
    let front = Seq::new(zeros, |i: int| '0');
    let s = front + digits(n, radix, upper);
    if n < radix {
        lemma_digit_char(n, radix, upper);
        lemma_zeros(zeros, radix, max);
        assert(s.drop_last() =~= front);
        assert(0 * radix + n == n) by (nonlinear_arith);
    } else {
        assert(n / radix < n && n / radix * radix + n % radix == n && n % radix < radix)
            by (nonlinear_arith)
            requires
                n >= radix,
                radix >= 2,
        ;
        lemma_digits_read_back(n / radix, radix, upper, zeros, max);
        lemma_digit_char(n % radix, radix, upper);
        assert(s.drop_last() =~= front + digits(n / radix, radix, upper));
        assert(s.last() == digit_char(n % radix, upper));
    }
}

proof fn lemma_digits_overflow(n: nat, radix: nat, upper: bool, zeros: nat, max: nat)
    requires
        2 <= radix <= 16,
        n > max,
    ensures
        digits_value(Seq::new(zeros, |i: int| '0') + digits(n, radix, upper), radix, max) == Err::<
            nat,
            IntError,
        >(IntError::Overflow),
    decreases n,
{
    let front = Seq::new(zeros, |i: int| '0');
    let s = front + digits(n, radix, upper);
    if n < radix {
        lemma_digit_char(n, radix, upper);
        lemma_zeros(zeros, radix, max);
        assert(s.drop_last() =~= front);
        assert(0 * radix + n == n) by (nonlinear_arith);
    } else {
        assert(n / radix < n && n / radix * radix + n % radix == n && n % radix < radix)
            by (nonlinear_arith)
            requires
                n >= radix,
                radix >= 2,
        ;
        lemma_digit_char(n % radix, radix, upper);
        assert(s.drop_last() =~= front + digits(n / radix, radix, upper));
        assert(s.last() == digit_char(n % radix, upper));
        if n / radix > max {
            lemma_digits_overflow(n / radix, radix, upper, zeros, max);
        } else {
            lemma_digits_read_back(n / radix, radix, upper, zeros, max);
        }
    }
}

/// A number that is too large reads as an overflow.
pub proof fn law_large_number_overflows(n: nat, radix: nat, upper: bool, width: nat, max: nat)
    requires
        2 <= radix <= 16,
        n > max,
    ensures
        int_value(padded(n, radix, upper, width), radix, max) == Err::<nat, IntError>(
            IntError::Overflow,
        ),
{
    let s = digits(n, radix, upper);
    let zeros = if s.len() < width {
        (width - s.len()) as nat
    } else {
        0
    };
    lemma_digits_overflow(n, radix, upper, zeros, max);
    assert(padded(n, radix, upper, width) =~= Seq::new(zeros, |i: int| '0') + s);
    law_number_reads_back(n, radix, upper, width, n);
    lemma_padded_len(n, radix, upper, width);
    assert(digit_of('+', radix) is None);
    assert(digit_of(padded(n, radix, upper, width)[0], radix) is Some);
}

/// A number that was written with or without zeros in front reads back as
/// itself, and is written in digits alone.
pub proof fn law_number_reads_back(n: nat, radix: nat, upper: bool, width: nat, max: nat)
    requires
        2 <= radix <= 16,
        n <= max,
    ensures
        int_value(padded(n, radix, upper, width), radix, max) == Ok::<nat, IntError>(n),
        forall|i: int|
            0 <= i < padded(n, radix, upper, width).len() ==> digit_of(
                #[trigger] padded(n, radix, upper, width)[i],
                radix,
            ) is Some,
{
    let s = digits(n, radix, upper);
    let zeros = if s.len() < width {
        (width - s.len()) as nat
    } else {
        0
    };
    let front = Seq::new(zeros, |i: int| '0');
    lemma_digits_read_back(n, radix, upper, zeros, max);
    assert(padded(n, radix, upper, width) =~= front + s);
    assert forall|i: int| 0 <= i < padded(n, radix, upper, width).len() implies digit_of(
        #[trigger] padded(n, radix, upper, width)[i],
        radix,
    ) is Some by {
        if i < zeros {
            assert(padded(n, radix, upper, width)[i] == '0');
        } else {
            assert(padded(n, radix, upper, width)[i] == s[i - zeros]);
        }
    }
    assert(digit_of('+', radix) is None);
    assert(padded(n, radix, upper, width)[0] != '+');
}

/// A number that is read does not exceed the largest that is allowed.
pub proof fn lemma_int_bound(s: Seq<char>, radix: nat, max: nat)
    ensures
        int_value(s, radix, max) matches Ok(n) ==> n <= max,
{
}

/// A number is written in one character at least.
pub proof fn lemma_padded_len(n: nat, radix: nat, upper: bool, width: nat)
    requires
        2 <= radix <= 16,
    ensures
        padded(n, radix, upper, width).len() > 0,
{
    lemma_digits_read_back(n, radix, upper, 0, n);
}

proof fn lemma_trim_start(before: Seq<char>, rest: Seq<char>)
    requires
        forall|i: int| 0 <= i < before.len() ==> is_space(#[trigger] before[i]),
        rest.len() > 0,
        !is_space(rest[0]),
    ensures
        trim_start(before + rest) == rest,
    decreases before.len(),
{
    let s = before + rest;
    if before.len() == 0 {
        assert(s =~= rest);
    } else {
        assert(s[0] == before[0]);
        let fewer = before.drop_first();
        assert(s.drop_first() =~= fewer + rest);
        assert forall|i: int| 0 <= i < fewer.len() implies is_space(#[trigger] fewer[i]) by {
            assert(fewer[i] == before[i + 1]);
        }
        lemma_trim_start(fewer, rest);
    }
}

proof fn lemma_trim_end(rest: Seq<char>, after: Seq<char>)
    requires
        forall|i: int| 0 <= i < after.len() ==> is_space(#[trigger] after[i]),
        rest.len() > 0,
        !is_space(rest.last()),
    ensures
        trim_end(rest + after) == rest,
    decreases after.len(),
{
    let s = rest + after;
    if after.len() == 0 {
        assert(s =~= rest);
    } else {
        assert(s.last() == after.last());
        let fewer = after.drop_last();
        assert(s.drop_last() =~= rest + fewer);
        assert forall|i: int| 0 <= i < fewer.len() implies is_space(#[trigger] fewer[i]) by {
            assert(fewer[i] == after[i]);
        }
        lemma_trim_end(rest, fewer);
    }
}

/// White space around text that neither starts nor ends with any is what
/// trimming takes away.
pub proof fn lemma_trimmed(before: Seq<char>, s: Seq<char>, after: Seq<char>)
    requires
        forall|i: int| 0 <= i < before.len() ==> is_space(#[trigger] before[i]),
        forall|i: int| 0 <= i < after.len() ==> is_space(#[trigger] after[i]),
        s.len() > 0,
        !is_space(s[0]),
        !is_space(s.last()),
    ensures
        trimmed(before + s + after) == s,
{
    assert(before + s + after =~= before + (s + after));
    assert((s + after)[0] == s[0]);
    lemma_trim_start(before, s + after);
    lemma_trim_end(s, after);
}

} // verus!
