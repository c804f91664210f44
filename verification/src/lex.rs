//! The scanner: from characters to tokens, in one pass from left to right.

use vstd::prelude::*;
use crate::number::{digit_run_is_number, is_number};
use crate::parse::{parsed, ParseError};
use crate::part::stands_at;
use crate::value::Json;
use crate::chars::{
    digit, digits_end, is_digit, is_whitespace, lemma_digits_end, skip_digits, to_chars, to_text,
    whitespace,
};

verus! {

/// One lexical unit.
#[derive(PartialEq, Debug)]
pub enum Token {
    /// The digit run as it stood in the input, sign included.
    Number(String),
    /// The content of a string, without its quotes and escaping backslashes.
    String(String),
    Boolean(bool),
    Null,
    LeftBrace,
    RightBrace,
    LeftBracket,
    RightBracket,
    Comma,
    Colon,
}

/// What a [`Token`] stands for: the same unit with its text as a sequence of
/// characters.
pub enum Lexeme {
    Number(Seq<char>),
    String(Seq<char>),
    Boolean(bool),
    Null,
    LeftBrace,
    RightBrace,
    LeftBracket,
    RightBracket,
    Comma,
    Colon,
}

impl Token {
    pub open spec fn view(&self) -> Lexeme {
        match self {
            Token::Number(text) => Lexeme::Number(text@),
            Token::String(text) => Lexeme::String(text@),
            Token::Boolean(b) => Lexeme::Boolean(*b),
            Token::Null => Lexeme::Null,
            Token::LeftBrace => Lexeme::LeftBrace,
            Token::RightBrace => Lexeme::RightBrace,
            Token::LeftBracket => Lexeme::LeftBracket,
            Token::RightBracket => Lexeme::RightBracket,
            Token::Comma => Lexeme::Comma,
            Token::Colon => Lexeme::Colon,
        }
    }
}

/// The lexemes that a run of tokens stands for.
pub open spec fn lexemes(tokens: Seq<Token>) -> Seq<Lexeme> {
    tokens.map_values(|t: Token| t@)
}

/// Why a text has no tokens.
#[derive(PartialEq, Eq, Structural, Clone, Copy, Debug)]
pub enum LexError {
    /// A character that starts no token, with its index among the characters
    /// of the input.
    UnexpectedCharacter(char, usize),
    /// The input ended inside a string.
    UnterminatedString,
    /// A `t`, `f` or `n` that `true`, `false` or `null` does not follow out.
    InvalidLiteral,
}

/// The six punctuation marks.
pub open spec fn is_symbol(c: char) -> bool {
    c == ':' || c == ',' || c == '[' || c == ']' || c == '{' || c == '}'
}

/// The lexeme of a punctuation mark.
pub open spec fn symbol_lexeme(c: char) -> Lexeme
    recommends
        is_symbol(c),
{
    if c == ':' {
        Lexeme::Colon
    } else if c == ',' {
        Lexeme::Comma
    } else if c == '[' {
        Lexeme::LeftBracket
    } else if c == ']' {
        Lexeme::RightBracket
    } else if c == '{' {
        Lexeme::LeftBrace
    } else {
        Lexeme::RightBrace
    }
}

/// The rest of a string whose opening quote has been read: from `pos` on,
/// with `text` the content gathered so far. A backslash hands the character
/// after it to the content as it is; the first quote that no backslash
/// precedes closes the string. The result is the content and the position
/// after the closing quote, or `None` where the input ends first.
pub open spec fn string_at(s: Seq<char>, pos: int, text: Seq<char>) -> Option<(Seq<char>, int)>
    decreases s.len() - pos,
{
    if pos < 0 || pos >= s.len() {
        None
    } else if s[pos] == '"' {
        Some((text, pos + 1))
    } else if s[pos] == '\\' {
        if pos + 1 >= s.len() {
            None
        } else {
            string_at(s, pos + 2, text.push(s[pos + 1]))
        }
    } else {
        string_at(s, pos + 1, text.push(s[pos]))
    }
}

/// The keyword that starts with `c`, and its lexeme.
pub open spec fn keyword(c: char) -> (Seq<char>, Lexeme)
    recommends
        c == 't' || c == 'f' || c == 'n',
{
    if c == 't' {
        (seq!['t', 'r', 'u', 'e'], Lexeme::Boolean(true))
    } else if c == 'f' {
        (seq!['f', 'a', 'l', 's', 'e'], Lexeme::Boolean(false))
    } else {
        (seq!['n', 'u', 'l', 'l'], Lexeme::Null)
    }
}

/// The token that starts at `pos`, where `s[pos]` is no whitespace, and the
/// position after it.
pub open spec fn token_at(s: Seq<char>, pos: int) -> Result<(Lexeme, int), LexError>
    recommends
        0 <= pos < s.len(),
{
    let c = s[pos];
    if is_digit(c) || c == '-' {
        let end = digits_end(s, pos + 1);
        Ok((Lexeme::Number(s.subrange(pos, end)), end))
    } else if c == '"' {
        match string_at(s, pos + 1, Seq::empty()) {
            Some((text, end)) => Ok((Lexeme::String(text), end)),
            None => Err(LexError::UnterminatedString),
        }
    } else if is_symbol(c) {
        Ok((symbol_lexeme(c), pos + 1))
    } else if c == 't' || c == 'f' || c == 'n' {
        if stands_at(s, pos, keyword(c).0) {
            Ok((keyword(c).1, pos + keyword(c).0.len()))
        } else {
            Err(LexError::InvalidLiteral)
        }
    } else {
        Err(LexError::UnexpectedCharacter(c, pos as usize))
    }
}

/// `tokens` before what `rest` holds; the error of `rest` where it is one.
pub open spec fn followed_by(tokens: Seq<Lexeme>, rest: Result<Seq<Lexeme>, LexError>) -> Result<
    Seq<Lexeme>,
    LexError,
> {
    match rest {
        Ok(more) => Ok(tokens + more),
        Err(e) => Err(e),
    }
}

/// The tokens of `s` from `pos` on, or the first error on the way.
pub open spec fn scan_from(s: Seq<char>, pos: int) -> Result<Seq<Lexeme>, LexError>
    decreases s.len() - pos,
{
    if pos < 0 || pos >= s.len() {
        Ok(Seq::empty())
    } else if is_whitespace(s[pos]) {
        scan_from(s, pos + 1)
    } else {
        match token_at(s, pos) {
            Ok((lexeme, next)) => {
                proof {
                    lemma_token_at_advances(s, pos);
                }
                followed_by(seq![lexeme], scan_from(s, next))
            },
            Err(e) => Err(e),
        }
    }
}

/// The tokens of a whole text.
pub open spec fn scan(s: Seq<char>) -> Result<Seq<Lexeme>, LexError> {
    scan_from(s, 0)
}

/// A closed string ends after the position it was read from, inside the
/// input.
pub proof fn lemma_string_at_advances(s: Seq<char>, pos: int, text: Seq<char>)
    requires
        0 <= pos,
    ensures
        string_at(s, pos, text) matches Some((_, end)) ==> pos < end <= s.len(),
    decreases s.len() - pos,
{
    if pos < s.len() && s[pos] != '"' {
        if s[pos] == '\\' {
            if pos + 1 < s.len() {
                lemma_string_at_advances(s, pos + 2, text.push(s[pos + 1]));
            }
        } else {
            lemma_string_at_advances(s, pos + 1, text.push(s[pos]));
        }
    }
}

/// Every token takes at least one character and ends inside the input.
pub proof fn lemma_token_at_advances(s: Seq<char>, pos: int)
    requires
        0 <= pos < s.len(),
    ensures
        token_at(s, pos) matches Ok((_, next)) ==> pos < next <= s.len(),
{
    lemma_digits_end(s, pos + 1);
    lemma_string_at_advances(s, pos + 1, Seq::empty());
}

/// The token of a punctuation mark.
fn symbol(c: char) -> (token: Token)
    requires
        is_symbol(c),
    ensures
        token@ == symbol_lexeme(c),
{
    if c == ':' {
        Token::Colon
    } else if c == ',' {
        Token::Comma
    } else if c == '[' {
        Token::LeftBracket
    } else if c == ']' {
        Token::RightBracket
    } else if c == '{' {
        Token::LeftBrace
    } else {
        Token::RightBrace
    }
}

/// Reads the number that starts at `pos`: that character and the digits
/// behind it.
fn number(chars: &Vec<char>, pos: usize) -> (found: (Token, usize))
    requires
        pos < chars.len(),
    ensures
        found.1 == digits_end(chars@, pos + 1),
        found.0@ == Lexeme::Number(chars@.subrange(pos as int, found.1 as int)),
        pos < found.1 <= chars.len(),
{
    let end = skip_digits(chars, pos + 1);
    (Token::Number(to_text(chars, pos, end)), end)
}

/// Reads the rest of a string from `pos` on, the opening quote being read.
fn string(chars: &Vec<char>, pos: usize) -> (found: Result<(Token, usize), LexError>)
    requires
        pos <= chars.len(),
    ensures
        match string_at(chars@, pos as int, Seq::empty()) {
            Some((text, end)) => found matches Ok((token, next)) && token@ == Lexeme::String(text)
                && next == end && pos < next <= chars.len(),
            None => found == Err::<(Token, usize), LexError>(LexError::UnterminatedString),
        },
{
    let mut text = String::new();
    let mut prior_was_backslash = false;
    let mut i: usize = pos;
    while i < chars.len()
        invariant
            pos <= i <= chars.len(),
            prior_was_backslash ==> pos < i && string_at(chars@, pos as int, Seq::empty())
                == string_at(chars@, i - 1, text@) && chars@[i - 1] == '\\',
            !prior_was_backslash ==> string_at(chars@, pos as int, Seq::empty()) == string_at(
                chars@,
                i as int,
                text@,
            ),
        decreases chars.len() - i,
    {
        let c = chars[i];
        if prior_was_backslash {
            text.push(c);
            prior_was_backslash = false;
        } else if c == '\\' {
            prior_was_backslash = true;
        } else if c == '"' {
            proof {
                lemma_string_at_advances(chars@, pos as int, Seq::empty());
            }
            return Ok((Token::String(text), i + 1));
        } else {
            text.push(c);
        }
        i += 1;
    }
    Err(LexError::UnterminatedString)
}

/// Tells whether `next_chars` stands in `chars` from `pos` on.
fn expect(chars: &Vec<char>, pos: usize, next_chars: &str) -> (found: Result<usize, LexError>)
    requires
        pos <= chars.len(),
    ensures
        stands_at(chars@, pos as int, next_chars@) ==> found == Ok::<usize, LexError>(
            (pos + next_chars@.len()) as usize,
        ),
        !stands_at(chars@, pos as int, next_chars@) ==> found == Err::<usize, LexError>(
            LexError::InvalidLiteral,
        ),
{
    let word = to_chars(next_chars);
    if word.len() > chars.len() - pos {
        return Err(LexError::InvalidLiteral);
    }
    let mut i: usize = 0;
    while i < word.len()
        invariant
            pos + word.len() <= chars.len(),
            i <= word.len(),
            word@ == next_chars@,
            chars@.subrange(pos as int, pos + i) == word@.take(i as int),
        decreases word.len() - i,
    {
        if chars[pos + i] != word[i] {
            assert(chars@.subrange(pos as int, pos + word.len())[i as int] != word@[i as int]);
            return Err(LexError::InvalidLiteral);
        }
        assert(chars@.subrange(pos as int, pos + i + 1) == chars@.subrange(
            pos as int,
            pos + i,
        ).push(chars@[pos + i]));
        assert(word@.take(i + 1) == word@.take(i as int).push(word@[i as int]));
        i += 1;
    }
    assert(word@.take(i as int) == word@);
    Ok(pos + word.len())
}

/// Reads the keyword whose first character, `first_char`, stands at `pos`.
fn alpha_literal(chars: &Vec<char>, pos: usize, first_char: char) -> (found: Result<
    (Token, usize),
    LexError,
>)
    requires
        pos < chars.len(),
        chars@[pos as int] == first_char,
        first_char == 't' || first_char == 'f' || first_char == 'n',
    ensures
        found matches Ok((token, next)) ==> pos < next <= chars.len(),
        match token_at(chars@, pos as int) {
            Ok((lexeme, end)) => found matches Ok((token, next)) && token@ == lexeme && next == end,
            Err(e) => found == Err::<(Token, usize), LexError>(e),
        },
{
    proof {
        reveal_strlit("true");
        reveal_strlit("false");
        reveal_strlit("null");
        assert("true"@ =~= keyword('t').0);
        assert("false"@ =~= keyword('f').0);
        assert("null"@ =~= keyword('n').0);
    }
    if first_char == 't' {
        match expect(chars, pos, "true") {
            Ok(next) => Ok((Token::Boolean(true), next)),
            Err(e) => Err(e),
        }
    } else if first_char == 'f' {
        match expect(chars, pos, "false") {
            Ok(next) => Ok((Token::Boolean(false), next)),
            Err(e) => Err(e),
        }
    } else {
        match expect(chars, pos, "null") {
            Ok(next) => Ok((Token::Null, next)),
            Err(e) => Err(e),
        }
    }
}

/// Splits a text into its tokens.
///
/// Whitespace between tokens is dropped. A digit or `-` starts a number,
/// which runs as far as digits follow. A quote starts a string, in which a
/// backslash takes the next character as it is. `t`, `f` and `n` start the
/// keywords `true`, `false` and `null`. The first character that fits none
/// of these ends the scan with an error, and so do a string that is not
/// closed and a keyword that is not spelled out.
pub fn lex(input: String) -> (result: Result<Vec<Token>, LexError>)
    ensures
        match scan(input@) {
            Ok(found) => result matches Ok(tokens) && lexemes(tokens@) == found,
            Err(e) => result == Err::<Vec<Token>, LexError>(e),
        },
{
    let chars = to_chars(input.as_str());
    let mut tokens: Vec<Token> = Vec::new();
    let mut pos: usize = 0;
    assert(lexemes(tokens@) =~= Seq::empty());
    assert(followed_by(Seq::empty(), scan_from(chars@, 0)) == scan_from(chars@, 0)) by {
        if let Ok(more) = scan_from(chars@, 0) {
            assert(Seq::<Lexeme>::empty() + more =~= more);
        }
    }
    while pos < chars.len()
        invariant
            chars@ == input@,
            pos <= chars.len(),
            scan(chars@) == followed_by(lexemes(tokens@), scan_from(chars@, pos as int)),
        decreases chars.len() - pos,
    {
        let c = chars[pos];
        if whitespace(c) {
            pos += 1;
        } else {
            let found = if digit(c) || c == '-' {
                Ok(number(&chars, pos))
            } else if c == '"' {
                string(&chars, pos + 1)
            } else if c == ':' || c == ',' || c == '[' || c == ']' || c == '{' || c == '}' {
                Ok((symbol(c), pos + 1))
            } else if c == 't' || c == 'f' || c == 'n' {
                alpha_literal(&chars, pos, c)
            } else {
                Err(LexError::UnexpectedCharacter(c, pos))
            };
            match found {
                Ok((token, next)) => {
                    proof {
                        let before = lexemes(tokens@);
                        let after = lexemes(tokens@.push(token));
                        assert(after =~= before.push(token@));
                        if let Ok(more) = scan_from(chars@, next as int) {
                            assert(before + (seq![token@] + more) =~= after + more);
                        }
                    }
                    tokens.push(token);
                    pos = next;
                },
                Err(e) => {
                    return Err(e);
                },
            }
        }
    }
    assert(lexemes(tokens@) + Seq::<Lexeme>::empty() =~= lexemes(tokens@));
    Ok(tokens)
}

/// The text of a number token is a digit or a minus sign with digits behind
/// it, and it writes a number unless it is the minus sign alone.
pub proof fn scanned_number_is_number(s: Seq<char>, pos: int)
    requires
        0 <= pos < s.len(),
        token_at(s, pos) matches Ok((Lexeme::Number(_), _)),
    ensures
        token_at(s, pos) matches Ok((Lexeme::Number(text), _)) && (is_number(text) <==> text
            != seq!['-']),
{
    let end = digits_end(s, pos + 1);
    let text = s.subrange(pos, end);
    lemma_digits_end(s, pos + 1);
    assert forall|i: int| 1 <= i < text.len() implies is_digit(#[trigger] text[i]) by {
        assert(is_digit(s[pos + i]));
    }
    if text.len() == 1 {
        if s[pos] == '-' {
            assert(text =~= seq!['-']);
            assert(digits_end(text, 1) == 1);
            assert(!is_number(text));
        } else {
            digit_run_is_number(text, 0);
            assert(text[0] != seq!['-'][0]);
        }
    } else {
        assert(text.len() != seq!['-'].len());
        if s[pos] == '-' {
            digit_run_is_number(text, 1);
        } else {
            digit_run_is_number(text, 0);
        }
    }
}

/// All of `s` is whitespace.
pub open spec fn is_blank(s: Seq<char>) -> bool {
    forall|i: int| 0 <= i < s.len() ==> is_whitespace(#[trigger] s[i])
}

/// The value that a keyword stands for.
pub open spec fn keyword_value(c: char) -> Json
    recommends
        c == 't' || c == 'f' || c == 'n',
{
    if c == 't' {
        Json::Boolean(true)
    } else if c == 'f' {
        Json::Boolean(false)
    } else {
        Json::Null
    }
}

/// Whitespace gives no token: the scan goes on behind it.
pub proof fn lemma_scan_skips_whitespace(s: Seq<char>, from: int, to: int)
    requires
        0 <= from <= to <= s.len(),
        forall|i: int| from <= i < to ==> is_whitespace(#[trigger] s[i]),
    ensures
        scan_from(s, from) == scan_from(s, to),
    decreases to - from,
{
    if from < to {
        lemma_scan_skips_whitespace(s, from + 1, to);
    }
}

/// A text that holds one of `true`, `false` and `null` and besides it only
/// whitespace has that keyword as its one token, and the value of that token
/// is the keyword's value.
pub proof fn keyword_alone_is_its_value(before: Seq<char>, first: char, after: Seq<char>)
    requires
        first == 't' || first == 'f' || first == 'n',
        is_blank(before),
        is_blank(after),
    ensures
        scan(before + keyword(first).0 + after) == Ok::<Seq<Lexeme>, LexError>(
            seq![keyword(first).1],
        ),
        parsed(seq![keyword(first).1]) == Ok::<Json, ParseError>(keyword_value(first)),
{
    let word = keyword(first).0;
    let s = before + word + after;
    let at = before.len() as int;
    let next = at + word.len();
    assert forall|i: int| 0 <= i < at implies is_whitespace(#[trigger] s[i]) by {
        assert(s[i] == before[i]);
    }
    assert forall|i: int| next <= i < s.len() implies is_whitespace(#[trigger] s[i]) by {
        assert(s[i] == after[i - next]);
    }
    lemma_scan_skips_whitespace(s, 0, at);
    lemma_scan_skips_whitespace(s, next, s.len() as int);
    assert(s[at] == word[0]);
    assert(s.subrange(at, next) =~= word);
    assert(seq![keyword(first).1] + Seq::<Lexeme>::empty() =~= seq![keyword(first).1]);
}

} // verus!
