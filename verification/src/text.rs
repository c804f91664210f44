//! Tokens written out as text, and that the scanner finds them again.

use vstd::prelude::*;
use crate::chars::{is_digit, is_whitespace, lemma_digits_end, lemma_digits_end_from_within};
use crate::grammar::{written_is_parsed, Written};
use crate::lex::{
    keyword, lemma_token_at_advances, scan, scan_from, string_at, token_at, LexError, Lexeme,
};
use crate::part::{lemma_stands_at_concat, lemma_stands_at_index, stands_at};
use crate::parse::{parsed, ParseError};
use crate::value::Json;

verus! {

/// The content of a string as it stands between the quotes: with a backslash
/// before each quote and each backslash.
pub open spec fn escaped(content: Seq<char>) -> Seq<char>
    decreases content.len(),
{
    if content.len() == 0 {
        Seq::empty()
    } else if content[0] == '"' || content[0] == '\\' {
        seq!['\\', content[0]] + escaped(content.drop_first())
    } else {
        seq![content[0]] + escaped(content.drop_first())
    }
}

/// A token that a scan can give: the text of a number is a digit or a minus
/// sign, and digits behind it.
pub open spec fn is_scannable(token: Lexeme) -> bool {
    match token {
        Lexeme::Number(text) => {
            &&& text.len() > 0
            &&& is_digit(text[0]) || text[0] == '-'
            &&& forall|i: int| 1 <= i < text.len() ==> is_digit(#[trigger] text[i])
        },
        _ => true,
    }
}

/// The text that writes a token.
pub open spec fn token_text(token: Lexeme) -> Seq<char> {
    match token {
        Lexeme::Number(text) => text,
        Lexeme::String(content) => seq!['"'] + escaped(content) + seq!['"'],
        Lexeme::Boolean(b) => if b {
            keyword('t').0
        } else {
            keyword('f').0
        },
        Lexeme::Null => keyword('n').0,
        Lexeme::LeftBrace => seq!['{'],
        Lexeme::RightBrace => seq!['}'],
        Lexeme::LeftBracket => seq!['['],
        Lexeme::RightBracket => seq![']'],
        Lexeme::Comma => seq![','],
        Lexeme::Colon => seq![':'],
    }
}

/// The text that writes a run of tokens, a space behind each.
pub open spec fn spaced(tokens: Seq<Lexeme>) -> Seq<char>
    decreases tokens.len(),
{
    if tokens.len() == 0 {
        Seq::empty()
    } else {
        token_text(tokens[0]) + seq![' '] + spaced(tokens.drop_first())
    }
}

/// Escaped content with the closing quote behind it is read as the content.
pub proof fn lemma_escaped_is_scanned(s: Seq<char>, pos: int, content: Seq<char>, text: Seq<char>)
    requires
        stands_at(s, pos, escaped(content) + seq!['"']),
    ensures
        string_at(s, pos, text) == Some((text + content, pos + escaped(content).len() + 1)),
    decreases content.len(),
{
    if content.len() == 0 {
        lemma_stands_at_index(s, pos, escaped(content) + seq!['"'], 0);
        assert(text + content =~= text);
    } else {
        let rest = content.drop_first();
        let head = if content[0] == '"' || content[0] == '\\' {
            seq!['\\', content[0]]
        } else {
            seq![content[0]]
        };
        assert(escaped(content) + seq!['"'] =~= head + (escaped(rest) + seq!['"']));
        lemma_stands_at_concat(s, pos, head, escaped(rest) + seq!['"']);
        lemma_stands_at_index(s, pos, head, 0);
        if head.len() == 2 {
            lemma_stands_at_index(s, pos, head, 1);
        }
        lemma_escaped_is_scanned(s, pos + head.len(), rest, text.push(content[0]));
        assert(text.push(content[0]) + rest =~= text + content);
    }
}

/// The text of a token, with a space behind it, is read as that token.
pub proof fn lemma_token_text_is_scanned(s: Seq<char>, pos: int, token: Lexeme)
    requires
        is_scannable(token),
        stands_at(s, pos, token_text(token) + seq![' ']),
    ensures
        token_at(s, pos) == Ok::<(Lexeme, int), LexError>((token, pos + token_text(token).len())),
{
    let text = token_text(token);
    lemma_stands_at_concat(s, pos, text, seq![' ']);
    lemma_stands_at_index(s, pos + text.len(), seq![' '], 0);
    match token {
        Lexeme::Number(_) => {
            lemma_stands_at_index(s, pos, text, 0);
            assert forall|i: int| pos + 1 <= i < pos + text.len() implies is_digit(
                #[trigger] s[i],
            ) by {
                lemma_stands_at_index(s, pos, text, i - pos);
            }
            lemma_digits_end_from_within(s, pos + 1, pos + text.len());
        },
        Lexeme::String(content) => {
            lemma_stands_at_concat(s, pos, seq!['"'] + escaped(content), seq!['"']);
            lemma_stands_at_concat(s, pos, seq!['"'], escaped(content));
            lemma_stands_at_index(s, pos, seq!['"'], 0);
            lemma_stands_at_concat(s, pos + 1, escaped(content), seq!['"']);
            lemma_escaped_is_scanned(s, pos + 1, content, Seq::empty());
            assert(Seq::<char>::empty() + content =~= content);
        },
        _ => {
            lemma_stands_at_index(s, pos, text, 0);
        },
    }
}

/// What writes tokens up to the end of a text is scanned as those tokens.
pub proof fn lemma_spaced_is_scanned(s: Seq<char>, pos: int, tokens: Seq<Lexeme>)
    requires
        forall|i: int| 0 <= i < tokens.len() ==> is_scannable(#[trigger] tokens[i]),
        stands_at(s, pos, spaced(tokens)),
        pos + spaced(tokens).len() == s.len(),
    ensures
        scan_from(s, pos) == Ok::<Seq<Lexeme>, LexError>(tokens),
    decreases tokens.len(),
{
    if tokens.len() == 0 {
        assert(tokens =~= Seq::empty());
    } else {
        let first = tokens[0];
        let rest = tokens.drop_first();
        let text = token_text(first);
        assert(is_scannable(first));
        assert forall|i: int| 0 <= i < rest.len() implies is_scannable(#[trigger] rest[i]) by {
            assert(is_scannable(tokens[i + 1]));
        }
        let next = pos + text.len();
        lemma_stands_at_concat(s, pos, text + seq![' '], spaced(rest));
        lemma_token_text_is_scanned(s, pos, first);
        lemma_stands_at_concat(s, pos, text, seq![' ']);
        lemma_stands_at_index(s, next, seq![' '], 0);
        lemma_stands_at_index(s, pos, text, 0);
        assert(!is_whitespace(s[pos]));
        assert(scan_from(s, next) == scan_from(s, next + 1));
        lemma_spaced_is_scanned(s, next + 1, rest);
        assert(seq![first] + rest =~= tokens);
    }
}

/// Every token that a scan gives is one that a scan can give: its numbers
/// are a digit or a minus sign, and digits behind it.
pub proof fn scanned_is_scannable(s: Seq<char>, pos: int)
    requires
        0 <= pos,
    ensures
        scan_from(s, pos) matches Ok(tokens) ==> forall|i: int|
            0 <= i < tokens.len() ==> is_scannable(#[trigger] tokens[i]),
    decreases s.len() - pos,
{
    if pos < s.len() {
        if is_whitespace(s[pos]) {
            scanned_is_scannable(s, pos + 1);
        } else if let Ok((first, next)) = token_at(s, pos) {
            lemma_token_at_advances(s, pos);
            scanned_is_scannable(s, next);
            if let Ok(rest) = scan_from(s, next) {
                let tokens = seq![first] + rest;
                assert(is_scannable(first)) by {
                    if let Lexeme::Number(text) = first {
                        lemma_digits_end(s, pos + 1);
                        assert forall|i: int| 1 <= i < text.len() implies is_digit(
                            #[trigger] text[i],
                        ) by {
                            assert(is_digit(s[pos + i]));
                        }
                    }
                }
                assert forall|i: int| 0 <= i < tokens.len() implies is_scannable(
                    #[trigger] tokens[i],
                ) by {
                    if i > 0 {
                        assert(is_scannable(rest[i - 1]));
                    }
                }
            }
        }
    }
}

/// Every run of tokens that a scan can give is the scan of a text: of the
/// one that writes the tokens with a space behind each.
pub proof fn spaced_is_scanned(tokens: Seq<Lexeme>)
    requires
        forall|i: int| 0 <= i < tokens.len() ==> is_scannable(#[trigger] tokens[i]),
    ensures
        scan(spaced(tokens)) == Ok::<Seq<Lexeme>, LexError>(tokens),
{
    let s = spaced(tokens);
    assert(s.subrange(0, s.len() as int) =~= s);
    lemma_spaced_is_scanned(s, 0, tokens);
}

/// A well-formed value whose numbers are digit runs is read back from its
/// text: the scan of the text gives the tokens that write the value, and the
/// parser finds the value in them.
pub proof fn written_text_is_read(written: Written)
    requires
        written.well_formed(),
        forall|i: int|
            0 <= i < written.tokens().len() ==> is_scannable(#[trigger] written.tokens()[i]),
    ensures
        scan(spaced(written.tokens())) == Ok::<Seq<Lexeme>, LexError>(written.tokens()),
        parsed(written.tokens()) == Ok::<Json, ParseError>(written.json()),
{
    spaced_is_scanned(written.tokens());
    written_is_parsed(written, Seq::empty());
    assert(written.tokens() + Seq::<Lexeme>::empty() =~= written.tokens());
}

} // verus!
