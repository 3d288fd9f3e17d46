//! Decimal number literals.

use vstd::prelude::*;
use crate::text::{chars_of, digit, is_digit, only_digits, string_of};

verus! {

/// `s` is `digit+ ('.' digit+)?`.
pub open spec fn unsigned_decimal(s: Seq<char>) -> bool {
    ||| s.len() > 0 && only_digits(s)
    ||| exists|d: int|
        0 < d < s.len() - 1 && #[trigger] s[d] == '.' && only_digits(s.take(d)) && only_digits(
            s.skip(d + 1),
        )
}

/// `s` is a number literal: `'-'? digit+ ('.' digit+)?`.
pub open spec fn number_literal(s: Seq<char>) -> bool {
    if s.len() > 0 && s[0] == '-' {
        unsigned_decimal(s.skip(1))
    } else {
        unsigned_decimal(s)
    }
}

/// Whether `text[from..to]` is a number literal.
pub(crate) fn is_number_literal(text: &Vec<char>, from: usize, to: usize) -> (b: bool)
    requires
        from <= to <= text.len(),
    ensures
        b == number_literal(text@.subrange(from as int, to as int)),
{
    let ghost s = text@.subrange(from as int, to as int);
    let start: usize = if from < to && text[from] == '-' {
        from + 1
    } else {
        from
    };
    let ghost u = text@.subrange(start as int, to as int);
    assert(u == if s.len() > 0 && s[0] == '-' {
        s.skip(1)
    } else {
        s
    });
    // whole part
    let mut i: usize = start;
    while i < to && is_digit(text[i])
        invariant
            start <= i <= to <= text.len(),
            u == text@.subrange(start as int, to as int),
            forall|k: int| 0 <= k < i - start ==> digit(#[trigger] u[k]),
        decreases to - i,
    {
        i += 1;
    }
    if i == start {
        assert(!unsigned_decimal(u)) by {
            if u.len() > 0 {
                assert(!digit(u[0]));
                if exists|d: int|
                    0 < d < u.len() - 1 && #[trigger] u[d] == '.' && only_digits(u.take(d))
                        && only_digits(u.skip(d + 1)) {
                    let d = choose|d: int|
                        0 < d < u.len() - 1 && #[trigger] u[d] == '.' && only_digits(u.take(d))
                            && only_digits(u.skip(d + 1));
                    assert(u.take(d)[0] == u[0]);
                }
            }
        }
        return false;
    }
    if i == to {
        assert(only_digits(u));
        return true;
    }
    let ghost w = i - start;
    assert(!digit(u[w]));
    if text[i] != '.' {
        assert(!unsigned_decimal(u)) by {
            if exists|d: int|
                0 < d < u.len() - 1 && #[trigger] u[d] == '.' && only_digits(u.take(d))
                    && only_digits(u.skip(d + 1)) {
                let d = choose|d: int|
                    0 < d < u.len() - 1 && #[trigger] u[d] == '.' && only_digits(u.take(d))
                        && only_digits(u.skip(d + 1));
                if d < w {
                    assert(digit(u[d]));
                } else if d > w {
                    assert(u.take(d)[w] == u[w]);
                }
            }
        }
        return false;
    }
    let dot: usize = i;
    let mut j: usize = dot + 1;
    while j < to && is_digit(text[j])
        invariant
            start < dot < j <= to <= text.len(),
            u == text@.subrange(start as int, to as int),
            forall|k: int| dot + 1 - start <= k < j - start ==> digit(#[trigger] u[k]),
        decreases to - j,
    {
        j += 1;
    }
    let ok = j == to && j > dot + 1;
    proof {
        if ok {
            assert(only_digits(u.take(w)));
            assert(only_digits(u.skip(w + 1)));
            assert(u[w] == '.');
        } else {
            if exists|d: int|
                0 < d < u.len() - 1 && #[trigger] u[d] == '.' && only_digits(u.take(d))
                    && only_digits(u.skip(d + 1)) {
                let d = choose|d: int|
                    0 < d < u.len() - 1 && #[trigger] u[d] == '.' && only_digits(u.take(d))
                        && only_digits(u.skip(d + 1));
                if d < w {
                    assert(digit(u[d]));
                } else if d > w {
                    assert(u.take(d)[w] == u[w]);
                } else {
                    // the fraction starts right after the dot
                    if j < to {
                        assert(u.skip(w + 1)[j - start - w - 1] == u[j - start]);
                    }
                }
            }
            assert(!only_digits(u));
        }
    }
    ok
}

/// A JSON number, held as its decimal literal.
///
/// The literal is kept exactly as written, so no precision is lost and a
/// number is written back as it was read.
#[derive(Debug, PartialEq, Eq)]
pub struct Number {
    text: String,
}

impl View for Number {
    type V = Seq<char>;

    closed spec fn view(&self) -> Seq<char> {
        self.text@
    }
}

impl Clone for Number {
    fn clone(&self) -> (r: Self)
        ensures
            r@ == self@,
    {
        Number { text: self.text.clone() }
    }
}

impl Number {
    /// The number with the literal `text`, if `text` is a number literal.
    pub fn new(text: &str) -> (r: Option<Number>)
        ensures
            r is Some <==> number_literal(text@),
            r is Some ==> r->0@ == text@,
    {
        let chars = chars_of(text);
        assert(chars@.subrange(0, chars@.len() as int) == chars@);
        if is_number_literal(&chars, 0, chars.len()) {
            Some(Number { text: string_of(&chars, 0, chars.len()) })
        } else {
            None
        }
    }

    /// The number whose literal is `text[from..to]`.
    pub(crate) fn from_chars(text: &Vec<char>, from: usize, to: usize) -> (r: Number)
        requires
            from <= to <= text.len(),
        ensures
            r@ == text@.subrange(from as int, to as int),
    {
        Number { text: string_of(text, from, to) }
    }

    /// The literal.
    pub fn as_str(&self) -> (s: &str)
        ensures
            s@ == self@,
    {
        self.text.as_str()
    }
}

} // verus!
