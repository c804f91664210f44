//! Numbers, kept as the text that writes them.
//!
//! A number is written as an optional sign followed by `inf`, `infinity`,
//! `nan` (in any mix of cases) or by a decimal numeral: digits with at most
//! one point among them and at least one digit in all, then, if wanted, `e`
//! or `E`, an optional sign and at least one digit.

use vstd::prelude::*;
use vstd::std_specs::cmp::PartialEqSpecImpl;
use crate::chars::{digits_end, is_digit, lemma_digits_end_from_within, skip_digits, to_chars};

verus! {

pub open spec fn is_sign(c: char) -> bool {
    c == '+' || c == '-'
}

/// An upper-case Latin letter as its lower-case one; any other character as
/// it is.
pub open spec fn lowered(c: char) -> char {
    if 'A' <= c && c <= 'Z' {
        ((c as u8) + 32) as char
    } else {
        c
    }
}

/// From `from` to its end, `s` spells `word` when lowered.
pub open spec fn spells(s: Seq<char>, from: int, word: Seq<char>) -> bool {
    &&& s.len() - from == word.len()
    &&& forall|i: int| 0 <= i < word.len() ==> lowered(#[trigger] s[from + i]) == word[i]
}

/// From `from` to its end, `s` names an infinity or a value that is not a
/// number.
pub open spec fn is_special(s: Seq<char>, from: int) -> bool {
    ||| spells(s, from, seq!['i', 'n', 'f'])
    ||| spells(s, from, seq!['i', 'n', 'f', 'i', 'n', 'i', 't', 'y'])
    ||| spells(s, from, seq!['n', 'a', 'n'])
}

/// Where the digits of an exponent start, the exponent's letter standing at
/// `pos`: behind the letter, and behind the sign where one follows it.
pub open spec fn exponent_digits(s: Seq<char>, pos: int) -> int {
    if pos + 1 < s.len() && is_sign(s[pos + 1]) {
        pos + 2
    } else {
        pos + 1
    }
}

/// From `pos` to its end, `s` is an exponent: the letter, an optional sign,
/// and digits, at least one.
pub open spec fn is_exponent(s: Seq<char>, pos: int) -> bool {
    &&& 0 <= pos < s.len()
    &&& lowered(s[pos]) == 'e'
    &&& exponent_digits(s, pos) < s.len()
    &&& digits_end(s, exponent_digits(s, pos)) == s.len()
}

/// Where the fraction that may follow the digits before `point` ends: behind
/// the digits after the point, or at `point` where no point stands there.
pub open spec fn fraction_end(s: Seq<char>, point: int) -> int {
    if 0 <= point < s.len() && s[point] == '.' {
        digits_end(s, point + 1)
    } else {
        point
    }
}

/// From `from` to its end, `s` is a decimal numeral.
pub open spec fn is_decimal(s: Seq<char>, from: int) -> bool {
    let point = digits_end(s, from);
    let end = fraction_end(s, point);
    &&& 0 <= from <= s.len()
    &&& point > from || end > point + 1
    &&& end == s.len() || is_exponent(s, end)
}

/// `s` is written as a number.
pub open spec fn is_number(s: Seq<char>) -> bool {
    let from: int = if s.len() > 0 && is_sign(s[0]) {
        1
    } else {
        0
    };
    is_special(s, from) || is_decimal(s, from)
}

fn lower(c: char) -> (l: char)
    ensures
        l == lowered(c),
{
    if 'A' <= c && c <= 'Z' {
        ((c as u8) + 32) as char
    } else {
        c
    }
}

/// Tells whether `chars` spells `word` from `from` to its end.
fn spelled(chars: &Vec<char>, from: usize, word: &str) -> (b: bool)
    requires
        from <= chars.len(),
    ensures
        b == spells(chars@, from as int, word@),
{
    let letters = to_chars(word);
    if chars.len() - from != letters.len() {
        return false;
    }
    let mut i: usize = 0;
    while i < letters.len()
        invariant
            letters@ == word@,
            from + letters.len() == chars.len(),
            i <= letters.len(),
            forall|j: int| 0 <= j < i ==> lowered(#[trigger] chars@[from + j]) == letters@[j],
        decreases letters.len() - i,
    {
        if lower(chars[from + i]) != letters[i] {
            assert(lowered(chars@[from as int + i as int]) != word@[i as int]);
            return false;
        }
        i += 1;
    }
    true
}

/// Tells whether `text` is written as a number.
pub fn number_text(text: &str) -> (b: bool)
    ensures
        b == is_number(text@),
{
    let chars = to_chars(text);
    let from: usize = if chars.len() > 0 && (chars[0] == '+' || chars[0] == '-') {
        1
    } else {
        0
    };
    proof {
        reveal_strlit("inf");
        reveal_strlit("infinity");
        reveal_strlit("nan");
        assert("inf"@ =~= seq!['i', 'n', 'f']);
        assert("infinity"@ =~= seq!['i', 'n', 'f', 'i', 'n', 'i', 't', 'y']);
        assert("nan"@ =~= seq!['n', 'a', 'n']);
    }
    if spelled(&chars, from, "inf") || spelled(&chars, from, "infinity") || spelled(
        &chars,
        from,
        "nan",
    ) {
        return true;
    }
    let point = skip_digits(&chars, from);
    let end = if point < chars.len() && chars[point] == '.' {
        skip_digits(&chars, point + 1)
    } else {
        point
    };
    if point == from && end <= point + 1 {
        return false;
    }
    if end == chars.len() {
        return true;
    }
    if lower(chars[end]) != 'e' {
        return false;
    }
    let digits = if end + 1 < chars.len() && (chars[end + 1] == '+' || chars[end + 1] == '-') {
        end + 2
    } else {
        end + 1
    };
    digits < chars.len() && skip_digits(&chars, digits) == chars.len()
}

/// Digits, at least one, with or without a sign before them, write a number.
pub proof fn digit_run_is_number(s: Seq<char>, from: int)
    requires
        from == 0 || (from == 1 && is_sign(s[0])),
        from < s.len(),
        forall|i: int| from <= i < s.len() ==> is_digit(#[trigger] s[i]),
    ensures
        is_number(s),
{
    lemma_digits_end_from_within(s, from, s.len() as int);
}

/// A number, by the text that writes it.
///
/// Two numbers are equal (`==`) where the same text writes them.
#[derive(Debug)]
pub struct Number {
    text: String,
}

impl Number {
    #[verifier::type_invariant]
    spec fn written_as_number(&self) -> bool {
        is_number(self.text@)
    }

    /// The text that writes the number.
    pub closed spec fn view(&self) -> Seq<char> {
        self.text@
    }

    /// The number that `text` writes, if it writes one.
    pub fn new(text: String) -> (number: Option<Number>)
        ensures
            match number {
                Some(n) => is_number(text@) && n@ == text@,
                None => !is_number(text@),
            },
    {
        if number_text(text.as_str()) {
            Some(Number { text })
        } else {
            None
        }
    }

    /// The text that writes the number.
    pub fn as_str(&self) -> (text: &str)
        ensures
            text@ == self@,
            is_number(text@),
    {
        proof {
            use_type_invariant(self);
        }
        self.text.as_str()
    }
}

impl PartialEq for Number {
    fn eq(&self, other: &Number) -> (r: bool) {
        self.text == other.text
    }
}

impl PartialEqSpecImpl for Number {
    open spec fn obeys_eq_spec() -> bool {
        true
    }

    open spec fn eq_spec(&self, other: &Number) -> bool {
        self@ == other@
    }
}

} // verus!
