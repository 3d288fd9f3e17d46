//! Character classes and conversions between strings and character vectors.

use vstd::prelude::*;

verus! {

/// An ASCII decimal digit.
pub open spec fn digit(c: char) -> bool {
    '0' <= c && c <= '9'
}

/// Every character of `s` is a decimal digit.
pub open spec fn only_digits(s: Seq<char>) -> bool {
    forall|i: int| 0 <= i < s.len() ==> digit(#[trigger] s[i])
}

/// A character that may occur inside a number literal: a digit, `.` or `-`.
pub open spec fn number_char(c: char) -> bool {
    digit(c) || c == '.' || c == '-'
}

/// A character with the Unicode property `White_Space`.
pub open spec fn whitespace(c: char) -> bool {
    let n = c as u32;
    ||| 0x09 <= n <= 0x0D
    ||| n == 0x20
    ||| n == 0x85
    ||| n == 0xA0
    ||| n == 0x1680
    ||| 0x2000 <= n <= 0x200A
    ||| n == 0x2028
    ||| n == 0x2029
    ||| n == 0x202F
    ||| n == 0x205F
    ||| n == 0x3000
}

/// A character of the Unicode general category `Cc`.
pub open spec fn control(c: char) -> bool {
    let n = c as u32;
    n <= 0x1F || (0x7F <= n <= 0x9F)
}

/// The value of a hexadecimal digit, in either case; `None` for any other character.
pub open spec fn hex_value(c: char) -> Option<int> {
    if '0' <= c && c <= '9' {
        Some(c as int - 48)
    } else if 'a' <= c && c <= 'f' {
        Some(c as int - 87)
    } else if 'A' <= c && c <= 'F' {
        Some(c as int - 55)
    } else {
        None
    }
}

/// The lower-case hexadecimal digit for a value below sixteen.
pub open spec fn hex_char(n: int) -> char {
    if n < 10 {
        (48 + n) as char
    } else {
        (87 + n) as char
    }
}

/// A code point that is a Unicode scalar value, that is, a `char`.
pub open spec fn scalar(n: int) -> bool {
    (0 <= n <= 0xD7FF) || (0xE000 <= n <= 0x10FFFF)
}

/// The ASCII lower-case form of a character; other characters are unchanged.
pub open spec fn ascii_lower(c: char) -> char {
    if 'A' <= c && c <= 'Z' {
        ((c as u32) + 32) as char
    } else {
        c
    }
}

/// `std`'s `String::push` appends one character to the string.
pub assume_specification[ std::string::String::push ](s: &mut std::string::String, ch: char)
    ensures
        final(s)@ == old(s)@.push(ch),
;

/// `std`'s `char::from_u32` yields the character with the given code point,
/// and `None` exactly for surrogates and for values above `0x10FFFF`.
pub assume_specification[ char::from_u32 ](i: u32) -> (r: Option<char>)
    ensures
        r == if scalar(i as int) {
            Some(i as char)
        } else {
            None::<char>
        },
;

/// Whether `c` is an ASCII decimal digit.
pub fn is_digit(c: char) -> (b: bool)
    ensures
        b == digit(c),
{
    '0' <= c && c <= '9'
}

/// Whether `c` may occur inside a number literal.
pub fn is_number_char(c: char) -> (b: bool)
    ensures
        b == number_char(c),
{
    is_digit(c) || c == '.' || c == '-'
}

/// Whether `c` has the Unicode property `White_Space`.
pub fn is_whitespace(c: char) -> (b: bool)
    ensures
        b == whitespace(c),
{
    let n: u32 = c as u32;
    (0x09 <= n && n <= 0x0D) || n == 0x20 || n == 0x85 || n == 0xA0 || n == 0x1680 || (0x2000 <= n
        && n <= 0x200A) || n == 0x2028 || n == 0x2029 || n == 0x202F || n == 0x205F || n == 0x3000
}

/// Whether `c` is of the Unicode general category `Cc`.
pub fn is_control(c: char) -> (b: bool)
    ensures
        b == control(c),
{
    let n: u32 = c as u32;
    n <= 0x1F || (0x7F <= n && n <= 0x9F)
}

/// The value of the hexadecimal digit `c`, in either case.
pub fn hex_digit_value(c: char) -> (r: Option<u32>)
    ensures
        match hex_value(c) {
            Some(n) => r == Some(n as u32) && 0 <= n < 16,
            None => r is None,
        },
{
    let n: u32 = c as u32;
    if '0' <= c && c <= '9' {
        Some(n - 48)
    } else if 'a' <= c && c <= 'f' {
        Some(n - 87)
    } else if 'A' <= c && c <= 'F' {
        Some(n - 55)
    } else {
        None
    }
}

/// The lower-case hexadecimal digit for `n`.
pub(crate) fn hex_digit(n: u8) -> (c: char)
    requires
        n < 16,
    ensures
        c == hex_char(n as int),
        hex_value(c) == Some(n as int),
{
    if n < 10 {
        (48 + n) as char
    } else {
        (87 + n) as char
    }
}

/// The ASCII lower-case form of `c`.
pub fn to_ascii_lower(c: char) -> (r: char)
    ensures
        r == ascii_lower(c),
{
    if 'A' <= c && c <= 'Z' {
        let n: u32 = c as u32 + 32;
        match char::from_u32(n) {
            Some(l) => l,
            None => c,
        }
    } else {
        c
    }
}

/// The characters of a string, in order.
pub fn chars_of(s: &str) -> (v: Vec<char>)
    ensures
        v@ == s@,
{
    let mut v: Vec<char> = Vec::new();
    for c in it: s.chars()
        invariant
            v@ == it.seq().take(it.index() as int),
            it.seq() == s@,
    {
        v.push(c);
    }
    v
}

/// The string made of the characters `v[from..to]`.
pub(crate) fn string_of(v: &Vec<char>, from: usize, to: usize) -> (s: String)
    requires
        from <= to <= v.len(),
    ensures
        s@ == v@.subrange(from as int, to as int),
{
    let mut s = String::new();
    let mut i: usize = from;
    while i < to
        invariant
            from <= i <= to <= v.len(),
            s@ == v@.subrange(from as int, i as int),
        decreases to - i,
    {
        s.push(v[i]);
        i += 1;
    }
    s
}

/// Appends the characters of `tail` to `s`.
pub fn push_all(s: &mut String, tail: &Vec<char>)
    ensures
        final(s)@ == old(s)@ + tail@,
{
    let mut i: usize = 0;
    while i < tail.len()
        invariant
            i <= tail.len(),
            s@ == old(s)@ + tail@.take(i as int),
        decreases tail.len() - i,
    {
        s.push(tail[i]);
        i += 1;
    }
}

/// Whether `s` holds exactly the characters `chars`.
pub fn text_eq(s: &str, chars: &Vec<char>) -> (b: bool)
    ensures
        b == (s@ == chars@),
{
    let mut same = true;
    let mut n: usize = 0;
    for c in it: s.chars()
        invariant
            it.seq() == s@,
            same ==> n == it.index() && n <= chars.len() && forall|k: int|
                0 <= k < n ==> s@[k] == chars@[k],
            !same ==> s@ != chars@,
    {
        if same {
            if n < chars.len() && c == chars[n] {
                n += 1;
            } else {
                same = false;
            }
        }
    }
    proof {
        if same && n == chars.len() {
            assert(s@ =~= chars@);
        }
    }
    same && n == chars.len()
}

/// The index of the first `c` in `s` at or after `from`; the length of `s`
/// where there is none.
pub open spec fn find_from(s: Seq<char>, c: char, from: int) -> int
    decreases s.len() - from,
{
    if from < 0 || from >= s.len() {
        s.len() as int
    } else if s[from] == c {
        from
    } else {
        find_from(s, c, from + 1)
    }
}

/// `find_from` yields the first occurrence.
pub proof fn find_from_is_first(s: Seq<char>, c: char, from: int)
    requires
        0 <= from <= s.len(),
    ensures
        from <= find_from(s, c, from) <= s.len(),
        find_from(s, c, from) < s.len() ==> s[find_from(s, c, from)] == c,
        forall|k: int| from <= k < find_from(s, c, from) ==> s[k] != c,
    decreases s.len() - from,
{
    if from < s.len() && s[from] != c {
        find_from_is_first(s, c, from + 1);
    }
}

/// The index of the first `c` in `text[from..to]`; `to` where there is none.
pub(crate) fn find_char(text: &Vec<char>, c: char, from: usize, to: usize) -> (i: usize)
    requires
        from <= to <= text.len(),
    ensures
        from <= i <= to,
        i == find_from(text@.subrange(0, to as int), c, from as int),
        i < to ==> text@[i as int] == c,
        forall|k: int| from <= k < i ==> text@[k] != c,
{
    let ghost s = text@.subrange(0, to as int);
    let mut i: usize = from;
    while i < to && text[i] != c
        invariant
            from <= i <= to <= text.len(),
            s == text@.subrange(0, to as int),
            find_from(s, c, from as int) == find_from(s, c, i as int),
            forall|k: int| from <= k < i ==> text@[k] != c,
        decreases to - i,
    {
        assert(s[i as int] == text@[i as int]);
        i += 1;
    }
    proof {
        if i < to {
            assert(s[i as int] == text@[i as int]);
        }
    }
    i
}

/// `s` without the whitespace at its start and at its end.
pub open spec fn trim(s: Seq<char>) -> Seq<char> {
    s.subrange(trim_start(s, 0), trim_end(s, trim_start(s, 0), s.len() as int))
}

/// The index of the first character of `s` at or after `from` that is no whitespace.
pub open spec fn trim_start(s: Seq<char>, from: int) -> int
    decreases s.len() - from,
{
    if 0 <= from < s.len() && whitespace(s[from]) {
        trim_start(s, from + 1)
    } else {
        from
    }
}

/// The index after the last character of `s[from..to]` that is no whitespace.
pub open spec fn trim_end(s: Seq<char>, from: int, to: int) -> int
    decreases to - from,
{
    if from < to <= s.len() && whitespace(s[to - 1]) {
        trim_end(s, from, to - 1)
    } else {
        to
    }
}

/// The bounds of `text[from..to]` without the whitespace at its start and at its end.
pub(crate) fn trim_span(text: &Vec<char>, from: usize, to: usize) -> (r: (usize, usize))
    requires
        from <= to <= text.len(),
    ensures
        from <= r.0 <= r.1 <= to,
        text@.subrange(r.0 as int, r.1 as int) == trim(text@.subrange(from as int, to as int)),
{
    let ghost s = text@.subrange(from as int, to as int);
    let mut a: usize = from;
    while a < to && is_whitespace(text[a])
        invariant
            from <= a <= to <= text.len(),
            s == text@.subrange(from as int, to as int),
            trim_start(s, 0) == trim_start(s, a - from),
        decreases to - a,
    {
        assert(s[a - from] == text@[a as int]);
        a += 1;
    }
    proof {
        if a < to {
            assert(s[a - from] == text@[a as int]);
        }
    }
    let mut b: usize = to;
    while a < b && is_whitespace(text[b - 1])
        invariant
            from <= a <= b <= to <= text.len(),
            s == text@.subrange(from as int, to as int),
            trim_end(s, a - from, s.len() as int) == trim_end(s, a - from, b - from),
        decreases b - a,
    {
        assert(s[b - 1 - from] == text@[b - 1]);
        b -= 1;
    }
    proof {
        if a < b {
            assert(s[b - 1 - from] == text@[b - 1]);
        }
        assert(text@.subrange(a as int, b as int) =~= s.subrange(a - from, b - from));
    }
    (a, b)
}

/// The decimal digit for a value below ten.
pub open spec fn digit_char(n: nat) -> char {
    (48 + n) as char
}

/// The decimal numeral of `n`, without leading zeros.
pub open spec fn decimal(n: nat) -> Seq<char>
    decreases n,
{
    if n < 10 {
        seq![digit_char(n)]
    } else {
        decimal(n / 10).push(digit_char(n % 10))
    }
}

/// Appends the decimal numeral of `n` to `out`.
pub fn push_decimal(out: &mut String, n: usize)
    ensures
        final(out)@ == old(out)@ + decimal(n as nat),
    decreases n,
{
    if n >= 10 {
        push_decimal(out, n / 10);
    }
    let d: u8 = (n % 10) as u8;
    out.push((48 + d) as char);
    assert(out@ =~= old(out)@ + decimal(n as nat));
}

/// The number that the decimal digits `s` spell.
pub open spec fn digits_value(s: Seq<char>) -> nat
    decreases s.len(),
{
    if s.len() == 0 {
        0
    } else {
        (digits_value(s.drop_last()) * 10 + (s.last() as nat - 48)) as nat
    }
}

/// The number that `s` spells: an optional `+` and then one or more decimal
/// digits, whose value fits a `usize`.
pub open spec fn parse_usize_spec(s: Seq<char>) -> Option<usize> {
    let d = if s.len() > 0 && s[0] == '+' {
        s.skip(1)
    } else {
        s
    };
    if d.len() > 0 && only_digits(d) && digits_value(d) <= usize::MAX {
        Some(digits_value(d) as usize)
    } else {
        None
    }
}

/// A numeral is worth at least as much as each of its prefixes.
pub proof fn digits_value_grows(s: Seq<char>, k: int)
    requires
        0 <= k <= s.len(),
        only_digits(s),
    ensures
        digits_value(s.take(k)) <= digits_value(s),
    decreases s.len() - k,
{
    if k < s.len() {
        digits_value_grows(s, k + 1);
        assert(s.take(k + 1).drop_last() =~= s.take(k));
        assert(digit(s[k]));
        assert(s.take(k + 1).last() == s[k]);
    } else {
        assert(s.take(k) =~= s);
    }
}

/// The number that `text[from..to]` spells.
pub(crate) fn parse_usize(text: &Vec<char>, from: usize, to: usize) -> (r: Option<usize>)
    requires
        from <= to <= text.len(),
    ensures
        r == parse_usize_spec(text@.subrange(from as int, to as int)),
{
    let ghost s = text@.subrange(from as int, to as int);
    let start: usize = if from < to && text[from] == '+' {
        from + 1
    } else {
        from
    };
    let ghost d = text@.subrange(start as int, to as int);
    assert(d == if s.len() > 0 && s[0] == '+' {
        s.skip(1)
    } else {
        s
    });
    if start == to {
        return None;
    }
    let mut value: usize = 0;
    let mut i: usize = start;
    while i < to
        invariant
            from <= start <= i <= to <= text.len(),
            d == text@.subrange(start as int, to as int),
            parse_usize_spec(text@.subrange(from as int, to as int)) == if d.len() > 0
                && only_digits(d) && digits_value(d) <= usize::MAX {
                Some(digits_value(d) as usize)
            } else {
                None
            },
            only_digits(d.take(i - start)),
            value == digits_value(d.take(i - start)),
        decreases to - i,
    {
        let c = text[i];
        assert(d[i - start] == c);
        let ghost next = d.take(i - start + 1);
        assert(next.drop_last() =~= d.take(i - start));
        assert(next.last() == c);
        if !is_digit(c) {
            return None;
        }
        let digit_value: usize = (c as u32 - 48) as usize;
        if value > (usize::MAX - digit_value) / 10 {
            proof {
                if only_digits(d) {
                    digits_value_grows(d, i - start + 1);
                }
            }
            return None;
        }
        value = value * 10 + digit_value;
        i += 1;
    }
    assert(d.take(to - start) =~= d);
    Some(value)
}

} // verus!
