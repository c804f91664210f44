//! The parser: from tokens to a value tree, by recursive descent with one
//! token of lookahead.

use vstd::prelude::*;
use crate::grammar::{parsed_iff_written, Written};
use crate::lex::{lexemes, Lexeme, Token};
use crate::number::{is_number, Number};
use crate::part::stands_at;
use crate::value::{views, Json, Object, Value};

verus! {

/// Why a run of tokens has no value.
#[derive(PartialEq, Eq, Structural, Clone, Copy, Debug)]
pub enum ParseError {
    /// A value was to start, and the token can start none.
    UnexpectedToken,
    /// The tokens end inside a value, or a key has no colon behind it.
    UnbalancedStructure,
    /// A comma leads, trails or follows another comma, or is missing between
    /// two items.
    MisplacedComma,
    /// A key that is no string.
    NonStringKey,
    /// A number token whose text does not write a number.
    InvalidNumber,
}

/// What may come next inside an object.
#[derive(PartialEq, Eq, Structural, Clone, Copy, Debug)]
pub enum Expecting {
    /// Nothing read yet: a pair, or the end.
    PairOrEnd,
    /// A pair just read: a comma, or the end.
    CommaOrEnd,
    /// A comma just read: a pair.
    Pair,
}

/// The value that starts at `pos`, and the position after it.
///
/// A value ends behind where it starts (see [`lemma_value_at_advances`]);
/// `items_at` and `members_at` test this only so that their definitions are
/// seen to end.
pub open spec fn value_at(tokens: Seq<Lexeme>, pos: int) -> Result<(Json, int), ParseError>
    decreases tokens.len() - pos, 0int,
{
    if pos < 0 || pos >= tokens.len() {
        Err(ParseError::UnbalancedStructure)
    } else {
        match tokens[pos] {
            Lexeme::Boolean(b) => Ok((Json::Boolean(b), pos + 1)),
            Lexeme::Null => Ok((Json::Null, pos + 1)),
            Lexeme::String(text) => Ok((Json::String(text), pos + 1)),
            Lexeme::Number(text) => if is_number(text) {
                Ok((Json::Number(text), pos + 1))
            } else {
                Err(ParseError::InvalidNumber)
            },
            Lexeme::LeftBrace => members_at(tokens, pos + 1, Map::empty(), Expecting::PairOrEnd),
            Lexeme::LeftBracket => items_at(tokens, pos + 1, Seq::empty(), false),
            _ => Err(ParseError::UnexpectedToken),
        }
    }
}

/// The array whose opening bracket has been read, from `pos` on: `items` are
/// its items so far, and `after_comma` tells whether the token before `pos`
/// was a comma.
pub open spec fn items_at(tokens: Seq<Lexeme>, pos: int, items: Seq<Json>, after_comma: bool)
    -> Result<(Json, int), ParseError>
    decreases tokens.len() - pos, 1int,
{
    if pos < 0 || pos >= tokens.len() {
        Err(ParseError::UnbalancedStructure)
    } else {
        match tokens[pos] {
            Lexeme::RightBracket => if after_comma {
                Err(ParseError::MisplacedComma)
            } else {
                Ok((Json::Array(items), pos + 1))
            },
            Lexeme::Comma => if after_comma || items.len() == 0 {
                Err(ParseError::MisplacedComma)
            } else {
                items_at(tokens, pos + 1, items, true)
            },
            _ => if items.len() > 0 && !after_comma {
                Err(ParseError::MisplacedComma)
            } else {
                match value_at(tokens, pos) {
                    Ok((item, next)) => if pos < next <= tokens.len() {
                        items_at(tokens, next, items.push(item), false)
                    } else {
                        Err(ParseError::UnbalancedStructure)
                    },
                    Err(e) => Err(e),
                }
            },
        }
    }
}

/// The object whose opening brace has been read, from `pos` on: `members`
/// are its members so far, and `state` tells what may come at `pos`.
pub open spec fn members_at(
    tokens: Seq<Lexeme>,
    pos: int,
    members: Map<Seq<char>, Json>,
    state: Expecting,
) -> Result<(Json, int), ParseError>
    decreases tokens.len() - pos, 1int,
{
    if pos < 0 || pos >= tokens.len() {
        Err(ParseError::UnbalancedStructure)
    } else {
        match tokens[pos] {
            Lexeme::RightBrace => if state == Expecting::Pair {
                Err(ParseError::MisplacedComma)
            } else {
                Ok((Json::Object(members), pos + 1))
            },
            Lexeme::Comma => if state == Expecting::CommaOrEnd {
                members_at(tokens, pos + 1, members, Expecting::Pair)
            } else {
                Err(ParseError::MisplacedComma)
            },
            Lexeme::String(key) => if state == Expecting::CommaOrEnd {
                Err(ParseError::MisplacedComma)
            } else if pos + 1 < tokens.len() && tokens[pos + 1] == Lexeme::Colon {
                match value_at(tokens, pos + 2) {
                    Ok((value, next)) => if pos < next <= tokens.len() {
                        members_at(tokens, next, members.insert(key, value), Expecting::CommaOrEnd)
                    } else {
                        Err(ParseError::UnbalancedStructure)
                    },
                    Err(e) => Err(e),
                }
            } else {
                Err(ParseError::UnbalancedStructure)
            },
            _ => if state == Expecting::CommaOrEnd {
                Err(ParseError::MisplacedComma)
            } else {
                Err(ParseError::NonStringKey)
            },
        }
    }
}

/// The value of a whole run of tokens: the one that starts it. What follows
/// that value is not looked at.
pub open spec fn parsed(tokens: Seq<Lexeme>) -> Result<Json, ParseError> {
    match value_at(tokens, 0) {
        Ok((value, _)) => Ok(value),
        Err(e) => Err(e),
    }
}

/// A value, the rest of an array and the rest of an object each end behind
/// the position they are read from, and inside the tokens.
pub proof fn lemma_value_at_advances(tokens: Seq<Lexeme>, pos: int)
    ensures
        value_at(tokens, pos) matches Ok((_, next)) ==> pos < next <= tokens.len(),
    decreases tokens.len() - pos, 0int,
{
    if 0 <= pos < tokens.len() {
        match tokens[pos] {
            Lexeme::LeftBrace => {
                lemma_members_at_advances(tokens, pos + 1, Map::empty(), Expecting::PairOrEnd);
            },
            Lexeme::LeftBracket => {
                lemma_items_at_advances(tokens, pos + 1, Seq::empty(), false);
            },
            _ => {},
        }
    }
}

pub proof fn lemma_items_at_advances(
    tokens: Seq<Lexeme>,
    pos: int,
    items: Seq<Json>,
    after_comma: bool,
)
    ensures
        items_at(tokens, pos, items, after_comma) matches Ok((_, next)) ==> pos < next
            <= tokens.len(),
    decreases tokens.len() - pos, 1int,
{
    if 0 <= pos < tokens.len() {
        match tokens[pos] {
            Lexeme::RightBracket => {},
            Lexeme::Comma => {
                lemma_items_at_advances(tokens, pos + 1, items, true);
            },
            _ => {
                lemma_value_at_advances(tokens, pos);
                if let Ok((item, next)) = value_at(tokens, pos) {
                    lemma_items_at_advances(tokens, next, items.push(item), false);
                }
            },
        }
    }
}

pub proof fn lemma_members_at_advances(
    tokens: Seq<Lexeme>,
    pos: int,
    members: Map<Seq<char>, Json>,
    state: Expecting,
)
    ensures
        members_at(tokens, pos, members, state) matches Ok((_, next)) ==> pos < next
            <= tokens.len(),
    decreases tokens.len() - pos, 1int,
{
    if 0 <= pos < tokens.len() {
        match tokens[pos] {
            Lexeme::Comma => {
                lemma_members_at_advances(tokens, pos + 1, members, Expecting::Pair);
            },
            Lexeme::String(key) => {
                if pos + 1 < tokens.len() {
                    lemma_value_at_advances(tokens, pos + 2);
                    if let Ok((value, next)) = value_at(tokens, pos + 2) {
                        lemma_members_at_advances(
                            tokens,
                            next,
                            members.insert(key, value),
                            Expecting::CommaOrEnd,
                        );
                    }
                }
            },
            _ => {},
        }
    }
}

/// The value of a number token with the text `text`.
fn number(text: &String) -> (found: Result<Value, ParseError>)
    ensures
        is_number(text@) ==> (found matches Ok(value) && value@ == Json::Number(text@)),
        !is_number(text@) ==> found == Err::<Value, ParseError>(ParseError::InvalidNumber),
{
    match Number::new(text.clone()) {
        Some(number) => Ok(Value::Number(number)),
        None => Err(ParseError::InvalidNumber),
    }
}

/// Reads the rest of an array from `pos` on, the opening bracket being read.
fn array(tokens: &Vec<Token>, pos: usize) -> (found: Result<(Value, usize), ParseError>)
    ensures
        match items_at(lexemes(tokens@), pos as int, Seq::empty(), false) {
            Ok((json, next)) => found matches Ok((value, end)) && value@ == json && end == next
                && pos < end <= tokens.len(),
            Err(e) => found == Err::<(Value, usize), ParseError>(e),
        },
    decreases tokens.len() - pos, 1int,
{
    let mut arr: Vec<Value> = Vec::new();
    let mut just_saw_comma = false;
    let mut at: usize = pos;
    assert(views(arr@) =~= Seq::empty());
    while at < tokens.len()
        invariant
            pos <= at,
            items_at(lexemes(tokens@), pos as int, Seq::empty(), false) == items_at(
                lexemes(tokens@),
                at as int,
                views(arr@),
                just_saw_comma,
            ),
        decreases tokens.len() - at,
    {
        proof {
            lemma_items_at_advances(lexemes(tokens@), pos as int, Seq::empty(), false);
        }
        match &tokens[at] {
            Token::RightBracket => {
                if just_saw_comma {
                    return Err(ParseError::MisplacedComma);
                }
                return Ok((Value::Array(arr), at + 1));
            },
            Token::Comma => {
                if just_saw_comma || arr.len() == 0 {
                    return Err(ParseError::MisplacedComma);
                }
                just_saw_comma = true;
                at += 1;
            },
            _ => {
                if arr.len() > 0 && !just_saw_comma {
                    return Err(ParseError::MisplacedComma);
                }
                just_saw_comma = false;
                match value(tokens, at) {
                    Ok((item, next)) => {
                        assert(views(arr@.push(item)) =~= views(arr@).push(item@));
                        arr.push(item);
                        at = next;
                    },
                    Err(e) => {
                        return Err(e);
                    },
                }
            },
        }
    }
    Err(ParseError::UnbalancedStructure)
}

/// Reads the rest of an object from `pos` on, the opening brace being read.
fn object(tokens: &Vec<Token>, pos: usize) -> (found: Result<(Value, usize), ParseError>)
    ensures
        match members_at(lexemes(tokens@), pos as int, Map::empty(), Expecting::PairOrEnd) {
            Ok((json, next)) => found matches Ok((value, end)) && value@ == json && end == next
                && pos < end <= tokens.len(),
            Err(e) => found == Err::<(Value, usize), ParseError>(e),
        },
    decreases tokens.len() - pos, 1int,
{
    let mut map = Object::new();
    let mut state = Expecting::PairOrEnd;
    let mut at: usize = pos;
    while at < tokens.len()
        invariant
            pos <= at,
            members_at(lexemes(tokens@), pos as int, Map::empty(), Expecting::PairOrEnd)
                == members_at(lexemes(tokens@), at as int, map@, state),
        decreases tokens.len() - at,
    {
        proof {
            lemma_members_at_advances(
                lexemes(tokens@),
                pos as int,
                Map::empty(),
                Expecting::PairOrEnd,
            );
        }
        match &tokens[at] {
            Token::RightBrace => {
                if state == Expecting::Pair {
                    return Err(ParseError::MisplacedComma);
                }
                return Ok((Value::Object(map), at + 1));
            },
            Token::Comma => {
                if state != Expecting::CommaOrEnd {
                    return Err(ParseError::MisplacedComma);
                }
                state = Expecting::Pair;
                at += 1;
            },
            Token::String(key) => {
                if state == Expecting::CommaOrEnd {
                    return Err(ParseError::MisplacedComma);
                }
                let colon = at + 1 < tokens.len() && match &tokens[at + 1] {
                    Token::Colon => true,
                    _ => false,
                };
                if !colon {
                    return Err(ParseError::UnbalancedStructure);
                }
                match value(tokens, at + 2) {
                    Ok((item, next)) => {
                        map.insert(key.clone(), item);
                        state = Expecting::CommaOrEnd;
                        at = next;
                    },
                    Err(e) => {
                        return Err(e);
                    },
                }
            },
            _ => {
                if state == Expecting::CommaOrEnd {
                    return Err(ParseError::MisplacedComma);
                }
                return Err(ParseError::NonStringKey);
            },
        }
    }
    Err(ParseError::UnbalancedStructure)
}

/// Reads the value that starts at `pos`, and tells where it ends.
///
/// A boolean, null, string or number token is a value by itself; a brace
/// opens an object and a bracket an array, each read to its closing mark.
/// The call nests as deep as the value does.
pub fn value(tokens: &Vec<Token>, pos: usize) -> (found: Result<(Value, usize), ParseError>)
    ensures
        match value_at(lexemes(tokens@), pos as int) {
            Ok((json, next)) => found matches Ok((value, end)) && value@ == json && end == next
                && pos < end <= tokens.len(),
            Err(e) => found == Err::<(Value, usize), ParseError>(e),
        },
    decreases tokens.len() - pos, 0int,
{
    if pos >= tokens.len() {
        return Err(ParseError::UnbalancedStructure);
    }
    proof {
        lemma_value_at_advances(lexemes(tokens@), pos as int);
    }
    match &tokens[pos] {
        Token::Boolean(b) => Ok((Value::Boolean(*b), pos + 1)),
        Token::Null => Ok((Value::Null, pos + 1)),
        Token::String(text) => Ok((Value::String(text.clone()), pos + 1)),
        Token::Number(text) => match number(text) {
            Ok(value) => Ok((value, pos + 1)),
            Err(e) => Err(e),
        },
        Token::LeftBrace => object(tokens, pos + 1),
        Token::LeftBracket => array(tokens, pos + 1),
        _ => Err(ParseError::UnexpectedToken),
    }
}

/// Builds the value that `tokens` write.
///
/// The tokens are read once, from the first on, and the value that starts
/// with the first token is returned; tokens behind that value are not looked
/// at. The first breach of the grammar ends the reading with its error.
///
/// So there is a value where, and only where, the tokens start with what
/// writes a well-formed value, and it is then the value that is written: an
/// array with its items in their written order, an object with one member
/// for each distinct key, the last value counting where a key comes twice.
pub fn parse(tokens: Vec<Token>) -> (result: Result<Value, ParseError>)
    ensures
        match parsed(lexemes(tokens@)) {
            Ok(json) => result matches Ok(value) && value@ == json,
            Err(e) => result == Err::<Value, ParseError>(e),
        },
        result is Ok <==> exists|written: Written|
            written.well_formed() && #[trigger] stands_at(lexemes(tokens@), 0, written.tokens()),
        forall|written: Written|
            written.well_formed() && #[trigger] stands_at(lexemes(tokens@), 0, written.tokens())
                ==> (result matches Ok(value) && value@ == written.json()),
{
    proof {
        parsed_iff_written(lexemes(tokens@));
    }
    match value(&tokens, 0) {
        Ok((value, _)) => Ok(value),
        Err(e) => Err(e),
    }
}

} // verus!
