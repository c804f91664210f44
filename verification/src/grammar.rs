//! The grammar that the parser accepts, stated by the values it writes, and
//! what the parser makes of a run of tokens that follows or breaks it.

use vstd::prelude::*;
use crate::lex::Lexeme;
use crate::number::is_number;
use crate::part::{lemma_stands_at_concat, lemma_stands_at_index, stands_at};
use crate::parse::{items_at, members_at, parsed, value_at, Expecting, ParseError};
use crate::value::Json;

verus! {

/// A value as it is written: the members of an object stand in their written
/// order, and a key may come more than once.
pub enum Written {
    Number(Seq<char>),
    String(Seq<char>),
    Boolean(bool),
    Null,
    Object(Seq<(Seq<char>, Written)>),
    Array(Seq<Written>),
}

/// The tokens of the items of an array, a comma between each two.
pub open spec fn items_tokens(items: Seq<Written>) -> Seq<Lexeme>
    decreases items,
{
    if items.len() == 0 {
        Seq::empty()
    } else if items.len() == 1 {
        items[0].tokens()
    } else {
        items_tokens(items.drop_last()) + seq![Lexeme::Comma] + items.last().tokens()
    }
}

/// The tokens of one member: its key, a colon, its value.
pub open spec fn member_tokens(member: (Seq<char>, Written)) -> Seq<Lexeme>
    decreases member,
{
    seq![Lexeme::String(member.0), Lexeme::Colon] + member.1.tokens()
}

/// The tokens of the members of an object, a comma between each two.
pub open spec fn members_tokens(members: Seq<(Seq<char>, Written)>) -> Seq<Lexeme>
    decreases members,
{
    if members.len() == 0 {
        Seq::empty()
    } else if members.len() == 1 {
        member_tokens(members[0])
    } else {
        members_tokens(members.drop_last()) + seq![Lexeme::Comma] + member_tokens(members.last())
    }
}

/// The values that written items stand for, in their order.
pub open spec fn items_json(items: Seq<Written>) -> Seq<Json>
    decreases items,
{
    Seq::new(
        items.len(),
        |i: int|
            if 0 <= i < items.len() {
                items[i].json()
            } else {
                Json::Null
            },
    )
}

/// The mapping that written members stand for: each key with the value of
/// the last member that has it.
pub open spec fn members_json(members: Seq<(Seq<char>, Written)>) -> Map<Seq<char>, Json>
    decreases members,
{
    if members.len() == 0 {
        Map::empty()
    } else {
        members_json(members.drop_last()).insert(members.last().0, members.last().1.json())
    }
}

impl Written {
    /// Every number in it is written as a number.
    pub open spec fn well_formed(self) -> bool
        decreases self,
    {
        match self {
            Written::Number(text) => is_number(text),
            Written::Object(members) => forall|i: int|
                0 <= i < members.len() ==> (#[trigger] members[i]).1.well_formed(),
            Written::Array(items) => forall|i: int|
                0 <= i < items.len() ==> (#[trigger] items[i]).well_formed(),
            _ => true,
        }
    }

    /// The tokens that write it.
    pub open spec fn tokens(self) -> Seq<Lexeme>
        decreases self,
    {
        match self {
            Written::Number(text) => seq![Lexeme::Number(text)],
            Written::String(text) => seq![Lexeme::String(text)],
            Written::Boolean(b) => seq![Lexeme::Boolean(b)],
            Written::Null => seq![Lexeme::Null],
            Written::Object(members) => seq![Lexeme::LeftBrace] + members_tokens(members)
                + seq![Lexeme::RightBrace],
            Written::Array(items) => seq![Lexeme::LeftBracket] + items_tokens(items)
                + seq![Lexeme::RightBracket],
        }
    }

    /// The value that it stands for.
    pub open spec fn json(self) -> Json
        decreases self,
    {
        match self {
            Written::Number(text) => Json::Number(text),
            Written::String(text) => Json::String(text),
            Written::Boolean(b) => Json::Boolean(b),
            Written::Null => Json::Null,
            Written::Object(members) => Json::Object(members_json(members)),
            Written::Array(items) => Json::Array(items_json(items)),
        }
    }
}

/// A token with which a value can start.
pub open spec fn starts_value(token: Lexeme) -> bool {
    match token {
        Lexeme::RightBrace | Lexeme::RightBracket | Lexeme::Comma | Lexeme::Colon => false,
        _ => true,
    }
}

/// What writes a value starts with a token that can start a value.
pub proof fn lemma_tokens_start(written: Written)
    ensures
        written.tokens().len() >= 1,
        starts_value(written.tokens()[0]),
{
}

/// Written items that stand behind an opening bracket are read one by one:
/// behind them the array holds their values, in their order, and a comma or
/// the closing bracket is due.
pub proof fn lemma_items_read(tokens: Seq<Lexeme>, pos: int, items: Seq<Written>)
    requires
        forall|i: int| 0 <= i < items.len() ==> (#[trigger] items[i]).well_formed(),
        stands_at(tokens, pos, items_tokens(items)),
    ensures
        items_at(tokens, pos, Seq::empty(), false) == items_at(
            tokens,
            pos + items_tokens(items).len(),
            items_json(items),
            false,
        ),
    decreases items,
{
    if items.len() == 0 {
        assert(items_json(items) =~= Seq::empty());
    } else {
        let last = items.last();
        let front = items.drop_last();
        let from = if items.len() == 1 {
            pos
        } else {
            pos + items_tokens(front).len() + 1
        };
        let before = if items.len() == 1 {
            Seq::empty()
        } else {
            items_json(front)
        };
        assert(last.well_formed());
        if items.len() > 1 {
            assert forall|i: int| 0 <= i < front.len() implies (#[trigger] front[i]).well_formed() by {
                assert(items[i].well_formed());
            }
            lemma_stands_at_concat(
                tokens,
                pos,
                items_tokens(front) + seq![Lexeme::Comma],
                last.tokens(),
            );
            lemma_stands_at_concat(tokens, pos, items_tokens(front), seq![Lexeme::Comma]);
            lemma_items_read(tokens, pos, front);
            lemma_stands_at_index(
                tokens,
                pos + items_tokens(front).len(),
                seq![Lexeme::Comma],
                0,
            );
            assert(items_at(tokens, pos, Seq::empty(), false) == items_at(
                tokens,
                from,
                before,
                true,
            ));
        }
        assert(stands_at(tokens, from, last.tokens()));
        lemma_tokens_start(last);
        lemma_stands_at_index(tokens, from, last.tokens(), 0);
        written_is_read(tokens, from, last);
        assert(before.push(last.json()) =~= items_json(items));
    }
}

/// Written members that stand behind an opening brace are read one by one:
/// behind them the object holds what they stand for, and a comma or the
/// closing brace is due.
pub proof fn lemma_members_read(
    tokens: Seq<Lexeme>,
    pos: int,
    members: Seq<(Seq<char>, Written)>,
)
    requires
        forall|i: int| 0 <= i < members.len() ==> (#[trigger] members[i]).1.well_formed(),
        stands_at(tokens, pos, members_tokens(members)),
    ensures
        members_at(tokens, pos, Map::empty(), Expecting::PairOrEnd) == members_at(
            tokens,
            pos + members_tokens(members).len(),
            members_json(members),
            if members.len() == 0 {
                Expecting::PairOrEnd
            } else {
                Expecting::CommaOrEnd
            },
        ),
    decreases members,
{
    if members.len() > 0 {
        let last = members.last();
        let front = members.drop_last();
        let from = if members.len() == 1 {
            pos
        } else {
            pos + members_tokens(front).len() + 1
        };
        assert(last.1.well_formed());
        if members.len() > 1 {
            assert forall|i: int| 0 <= i < front.len() implies (
            #[trigger] front[i]).1.well_formed() by {
                assert(members[i].1.well_formed());
            }
            lemma_stands_at_concat(
                tokens,
                pos,
                members_tokens(front) + seq![Lexeme::Comma],
                member_tokens(last),
            );
            lemma_stands_at_concat(tokens, pos, members_tokens(front), seq![Lexeme::Comma]);
            lemma_members_read(tokens, pos, front);
            lemma_stands_at_index(
                tokens,
                pos + members_tokens(front).len(),
                seq![Lexeme::Comma],
                0,
            );
            assert(members_at(tokens, pos, Map::empty(), Expecting::PairOrEnd) == members_at(
                tokens,
                from,
                members_json(front),
                Expecting::Pair,
            ));
        } else {
            assert(front =~= Seq::empty());
        }
        assert(stands_at(tokens, from, member_tokens(last)));
        lemma_stands_at_concat(
            tokens,
            from,
            seq![Lexeme::String(last.0), Lexeme::Colon],
            last.1.tokens(),
        );
        lemma_stands_at_index(tokens, from, seq![Lexeme::String(last.0), Lexeme::Colon], 0);
        lemma_stands_at_index(tokens, from, seq![Lexeme::String(last.0), Lexeme::Colon], 1);
        written_is_read(tokens, from + 2, last.1);
    }
}

/// Every well-formed written value is read back: where the tokens that write
/// it stand, the parser finds the value that it stands for, and ends behind
/// its last token.
pub proof fn written_is_read(tokens: Seq<Lexeme>, pos: int, written: Written)
    requires
        written.well_formed(),
        stands_at(tokens, pos, written.tokens()),
    ensures
        value_at(tokens, pos) == Ok::<(Json, int), ParseError>(
            (written.json(), pos + written.tokens().len()),
        ),
    decreases written,
{
    lemma_stands_at_index(tokens, pos, written.tokens(), 0);
    match written {
        Written::Array(items) => {
            let inner = items_tokens(items);
            lemma_stands_at_concat(
                tokens,
                pos,
                seq![Lexeme::LeftBracket] + inner,
                seq![Lexeme::RightBracket],
            );
            lemma_stands_at_concat(tokens, pos, seq![Lexeme::LeftBracket], inner);
            lemma_items_read(tokens, pos + 1, items);
            lemma_stands_at_index(tokens, pos + 1 + inner.len(), seq![Lexeme::RightBracket], 0);
        },
        Written::Object(members) => {
            let inner = members_tokens(members);
            lemma_stands_at_concat(
                tokens,
                pos,
                seq![Lexeme::LeftBrace] + inner,
                seq![Lexeme::RightBrace],
            );
            lemma_stands_at_concat(tokens, pos, seq![Lexeme::LeftBrace], inner);
            lemma_members_read(tokens, pos + 1, members);
            lemma_stands_at_index(tokens, pos + 1 + inner.len(), seq![Lexeme::RightBrace], 0);
        },
        _ => {},
    }
}

/// The tokens of a whole run: the same theorem for the parser's entry. What
/// stands behind the written value does not count.
pub proof fn written_is_parsed(written: Written, rest: Seq<Lexeme>)
    requires
        written.well_formed(),
    ensures
        parsed(written.tokens() + rest) == Ok::<Json, ParseError>(written.json()),
{
    let tokens = written.tokens() + rest;
    assert(tokens.subrange(0, written.tokens().len() as int) =~= written.tokens());
    written_is_read(tokens, 0, written);
}

/// The keys of written members, in their order.
pub open spec fn keys(members: Seq<(Seq<char>, Written)>) -> Seq<Seq<char>> {
    members.map_values(|member: (Seq<char>, Written)| member.0)
}

/// The last member with its key: no member behind it has the same key.
pub open spec fn is_last_with_key(members: Seq<(Seq<char>, Written)>, i: int) -> bool {
    &&& 0 <= i < members.len()
    &&& forall|j: int| i < j < members.len() ==> (#[trigger] members[j]).0 != members[i].0
}

/// The mapping of written members has their keys, and under each key the
/// value of the last member with that key.
pub proof fn lemma_members_json(members: Seq<(Seq<char>, Written)>)
    ensures
        members_json(members).dom() == keys(members).to_set(),
        forall|i: int| #[trigger]
            is_last_with_key(members, i) ==> members_json(members)[members[i].0]
                == members[i].1.json(),
    decreases members.len(),
{
    if members.len() == 0 {
        assert(members_json(members).dom() =~= keys(members).to_set());
    } else {
        let front = members.drop_last();
        let last = members.last();
        lemma_members_json(front);
        assert(members_json(members).dom() =~= keys(members).to_set()) by {
            assert forall|key: Seq<char>| keys(members).to_set().contains(key) implies members_json(
                members,
            ).dom().contains(key) by {
                let i = choose|i: int| 0 <= i < keys(members).len() && keys(members)[i] == key;
                if i < front.len() {
                    assert(keys(front)[i] == key);
                }
            }
            assert forall|key: Seq<char>|
                members_json(members).dom().contains(key) implies keys(members).to_set().contains(
                key,
            ) by {
                if key == last.0 {
                    assert(keys(members)[members.len() - 1] == key);
                } else {
                    let i = choose|i: int| 0 <= i < keys(front).len() && keys(front)[i] == key;
                    assert(keys(members)[i] == key);
                }
            }
        }
        assert forall|i: int| #[trigger] is_last_with_key(members, i) implies members_json(
            members,
        )[members[i].0] == members[i].1.json() by {
            if i < front.len() {
                assert(members[members.len() - 1].0 != members[i].0);
                assert(front[i] == members[i]);
                assert(is_last_with_key(front, i)) by {
                    assert forall|j: int| i < j < front.len() implies (#[trigger] front[j]).0
                        != front[i].0 by {
                        assert(members[j].0 != members[i].0);
                    }
                }
            }
        }
    }
}

/// `found` holds the value of each of `items`, in their order.
pub open spec fn holds_in_order(found: Seq<Json>, items: Seq<Written>) -> bool {
    &&& found.len() == items.len()
    &&& forall|i: int| 0 <= i < items.len() ==> found[i] == (#[trigger] items[i]).json()
}

/// `found` has as many members as `members` have distinct keys, each such
/// key with the value of the last member that has it.
pub open spec fn holds_last_values(
    found: Map<Seq<char>, Json>,
    members: Seq<(Seq<char>, Written)>,
) -> bool {
    &&& found.dom().finite()
    &&& found.dom() == keys(members).to_set()
    &&& found.len() == keys(members).to_set().len()
    &&& forall|i: int| #[trigger]
        is_last_with_key(members, i) ==> found[members[i].0] == members[i].1.json()
}

/// A written array is read as an array that holds the value of each item, in
/// the order in which the items are written.
pub proof fn array_keeps_order(tokens: Seq<Lexeme>, pos: int, items: Seq<Written>)
    requires
        Written::Array(items).well_formed(),
        stands_at(tokens, pos, Written::Array(items).tokens()),
    ensures
        value_at(tokens, pos) matches Ok((Json::Array(found), _)) && holds_in_order(found, items),
        pos == 0 ==> (parsed(tokens) matches Ok(Json::Array(found)) && holds_in_order(
            found,
            items,
        )),
{
    written_is_read(tokens, pos, Written::Array(items));
}

/// A written object is read as a mapping with one member for each distinct
/// key, and where a key is written more than once, its last value counts.
pub proof fn object_keeps_last_value(
    tokens: Seq<Lexeme>,
    pos: int,
    members: Seq<(Seq<char>, Written)>,
)
    requires
        Written::Object(members).well_formed(),
        stands_at(tokens, pos, Written::Object(members).tokens()),
    ensures
        value_at(tokens, pos) matches Ok((Json::Object(found), _)) && holds_last_values(
            found,
            members,
        ),
        pos == 0 ==> (parsed(tokens) matches Ok(Json::Object(found)) && holds_last_values(
            found,
            members,
        )),
{
    written_is_read(tokens, pos, Written::Object(members));
    lemma_members_json(members);
    vstd::seq_lib::seq_to_set_is_finite(keys(members));
}

/// A comma, where `wanted`; nothing else.
pub open spec fn comma_if(wanted: bool) -> Seq<Lexeme> {
    if wanted {
        seq![Lexeme::Comma]
    } else {
        Seq::empty()
    }
}

/// Behind an opening bracket and written items, reading stands where a comma
/// or the closing bracket is due.
pub proof fn lemma_array_opened(tokens: Seq<Lexeme>, pos: int, items: Seq<Written>)
    requires
        Written::Array(items).well_formed(),
        stands_at(tokens, pos, seq![Lexeme::LeftBracket] + items_tokens(items)),
    ensures
        value_at(tokens, pos) == items_at(
            tokens,
            pos + 1 + items_tokens(items).len(),
            items_json(items),
            false,
        ),
{
    lemma_stands_at_concat(tokens, pos, seq![Lexeme::LeftBracket], items_tokens(items));
    lemma_stands_at_index(tokens, pos, seq![Lexeme::LeftBracket], 0);
    assert(Written::Array(items)->Array_0 == items);
    lemma_items_read(tokens, pos + 1, items);
}

/// Behind an opening brace and written members, reading stands where a comma
/// or the closing brace is due; behind the brace alone, a member or the
/// closing brace.
pub proof fn lemma_object_opened(
    tokens: Seq<Lexeme>,
    pos: int,
    members: Seq<(Seq<char>, Written)>,
)
    requires
        Written::Object(members).well_formed(),
        stands_at(tokens, pos, seq![Lexeme::LeftBrace] + members_tokens(members)),
    ensures
        value_at(tokens, pos) == members_at(
            tokens,
            pos + 1 + members_tokens(members).len(),
            members_json(members),
            if members.len() == 0 {
                Expecting::PairOrEnd
            } else {
                Expecting::CommaOrEnd
            },
        ),
{
    lemma_stands_at_concat(tokens, pos, seq![Lexeme::LeftBrace], members_tokens(members));
    lemma_stands_at_index(tokens, pos, seq![Lexeme::LeftBrace], 0);
    assert(Written::Object(members)->Object_0 == members);
    lemma_members_read(tokens, pos + 1, members);
}

/// A comma right behind the opening bracket is an error.
pub proof fn array_rejects_leading_comma(tokens: Seq<Lexeme>, pos: int)
    requires
        stands_at(tokens, pos, seq![Lexeme::LeftBracket, Lexeme::Comma]),
    ensures
        value_at(tokens, pos) == Err::<(Json, int), ParseError>(ParseError::MisplacedComma),
        pos == 0 ==> parsed(tokens) == Err::<Json, ParseError>(ParseError::MisplacedComma),
{
    lemma_stands_at_index(tokens, pos, seq![Lexeme::LeftBracket, Lexeme::Comma], 0);
    lemma_stands_at_index(tokens, pos, seq![Lexeme::LeftBracket, Lexeme::Comma], 1);
}

/// A comma between the last item and the closing bracket is an error.
pub proof fn array_rejects_trailing_comma(tokens: Seq<Lexeme>, pos: int, items: Seq<Written>)
    requires
        Written::Array(items).well_formed(),
        items.len() > 0,
        stands_at(
            tokens,
            pos,
            seq![Lexeme::LeftBracket] + items_tokens(items) + seq![
                Lexeme::Comma,
                Lexeme::RightBracket,
            ],
        ),
    ensures
        value_at(tokens, pos) == Err::<(Json, int), ParseError>(ParseError::MisplacedComma),
        pos == 0 ==> parsed(tokens) == Err::<Json, ParseError>(ParseError::MisplacedComma),
{
    let opened = seq![Lexeme::LeftBracket] + items_tokens(items);
    let tail = seq![Lexeme::Comma, Lexeme::RightBracket];
    lemma_stands_at_concat(tokens, pos, opened, tail);
    lemma_array_opened(tokens, pos, items);
    lemma_stands_at_index(tokens, pos + opened.len(), tail, 0);
    lemma_stands_at_index(tokens, pos + opened.len(), tail, 1);
    assert(value_at(tokens, pos) == items_at(
        tokens,
        pos + opened.len() + 1,
        items_json(items),
        true,
    ));
}

/// Two commas in a row behind an item of an array are an error.
pub proof fn array_rejects_duplicate_comma(tokens: Seq<Lexeme>, pos: int, items: Seq<Written>)
    requires
        Written::Array(items).well_formed(),
        items.len() > 0,
        stands_at(
            tokens,
            pos,
            seq![Lexeme::LeftBracket] + items_tokens(items) + seq![Lexeme::Comma, Lexeme::Comma],
        ),
    ensures
        value_at(tokens, pos) == Err::<(Json, int), ParseError>(ParseError::MisplacedComma),
        pos == 0 ==> parsed(tokens) == Err::<Json, ParseError>(ParseError::MisplacedComma),
{
    let opened = seq![Lexeme::LeftBracket] + items_tokens(items);
    let tail = seq![Lexeme::Comma, Lexeme::Comma];
    lemma_stands_at_concat(tokens, pos, opened, tail);
    lemma_array_opened(tokens, pos, items);
    lemma_stands_at_index(tokens, pos + opened.len(), tail, 0);
    lemma_stands_at_index(tokens, pos + opened.len(), tail, 1);
    assert(value_at(tokens, pos) == items_at(
        tokens,
        pos + opened.len() + 1,
        items_json(items),
        true,
    ));
}

/// Behind an item of an array, a token that is neither a comma nor the
/// closing bracket is an error: no item follows another without a comma.
pub proof fn array_rejects_missing_comma(
    tokens: Seq<Lexeme>,
    pos: int,
    items: Seq<Written>,
    next: Lexeme,
)
    requires
        Written::Array(items).well_formed(),
        items.len() > 0,
        next != Lexeme::Comma,
        next != Lexeme::RightBracket,
        stands_at(tokens, pos, seq![Lexeme::LeftBracket] + items_tokens(items) + seq![next]),
    ensures
        value_at(tokens, pos) == Err::<(Json, int), ParseError>(ParseError::MisplacedComma),
        pos == 0 ==> parsed(tokens) == Err::<Json, ParseError>(ParseError::MisplacedComma),
{
    let opened = seq![Lexeme::LeftBracket] + items_tokens(items);
    lemma_stands_at_concat(tokens, pos, opened, seq![next]);
    lemma_array_opened(tokens, pos, items);
    lemma_stands_at_index(tokens, pos + opened.len(), seq![next], 0);
}

/// A comma right behind the opening brace is an error.
pub proof fn object_rejects_leading_comma(tokens: Seq<Lexeme>, pos: int)
    requires
        stands_at(tokens, pos, seq![Lexeme::LeftBrace, Lexeme::Comma]),
    ensures
        value_at(tokens, pos) == Err::<(Json, int), ParseError>(ParseError::MisplacedComma),
        pos == 0 ==> parsed(tokens) == Err::<Json, ParseError>(ParseError::MisplacedComma),
{
    lemma_stands_at_index(tokens, pos, seq![Lexeme::LeftBrace, Lexeme::Comma], 0);
    lemma_stands_at_index(tokens, pos, seq![Lexeme::LeftBrace, Lexeme::Comma], 1);
}

/// A comma between the last member and the closing brace is an error.
pub proof fn object_rejects_trailing_comma(
    tokens: Seq<Lexeme>,
    pos: int,
    members: Seq<(Seq<char>, Written)>,
)
    requires
        Written::Object(members).well_formed(),
        members.len() > 0,
        stands_at(
            tokens,
            pos,
            seq![Lexeme::LeftBrace] + members_tokens(members) + seq![
                Lexeme::Comma,
                Lexeme::RightBrace,
            ],
        ),
    ensures
        value_at(tokens, pos) == Err::<(Json, int), ParseError>(ParseError::MisplacedComma),
        pos == 0 ==> parsed(tokens) == Err::<Json, ParseError>(ParseError::MisplacedComma),
{
    let opened = seq![Lexeme::LeftBrace] + members_tokens(members);
    let tail = seq![Lexeme::Comma, Lexeme::RightBrace];
    lemma_stands_at_concat(tokens, pos, opened, tail);
    lemma_object_opened(tokens, pos, members);
    lemma_stands_at_index(tokens, pos + opened.len(), tail, 0);
    lemma_stands_at_index(tokens, pos + opened.len(), tail, 1);
    assert(value_at(tokens, pos) == members_at(
        tokens,
        pos + opened.len() + 1,
        members_json(members),
        Expecting::Pair,
    ));
}

/// Two commas in a row behind a member of an object are an error.
pub proof fn object_rejects_duplicate_comma(
    tokens: Seq<Lexeme>,
    pos: int,
    members: Seq<(Seq<char>, Written)>,
)
    requires
        Written::Object(members).well_formed(),
        members.len() > 0,
        stands_at(
            tokens,
            pos,
            seq![Lexeme::LeftBrace] + members_tokens(members) + seq![Lexeme::Comma, Lexeme::Comma],
        ),
    ensures
        value_at(tokens, pos) == Err::<(Json, int), ParseError>(ParseError::MisplacedComma),
        pos == 0 ==> parsed(tokens) == Err::<Json, ParseError>(ParseError::MisplacedComma),
{
    let opened = seq![Lexeme::LeftBrace] + members_tokens(members);
    let tail = seq![Lexeme::Comma, Lexeme::Comma];
    lemma_stands_at_concat(tokens, pos, opened, tail);
    lemma_object_opened(tokens, pos, members);
    lemma_stands_at_index(tokens, pos + opened.len(), tail, 0);
    lemma_stands_at_index(tokens, pos + opened.len(), tail, 1);
    assert(value_at(tokens, pos) == members_at(
        tokens,
        pos + opened.len() + 1,
        members_json(members),
        Expecting::Pair,
    ));
}

/// Behind a member of an object, a token that is neither a comma nor the
/// closing brace is an error: no member follows another without a comma.
pub proof fn object_rejects_missing_comma(
    tokens: Seq<Lexeme>,
    pos: int,
    members: Seq<(Seq<char>, Written)>,
    next: Lexeme,
)
    requires
        Written::Object(members).well_formed(),
        members.len() > 0,
        next != Lexeme::Comma,
        next != Lexeme::RightBrace,
        stands_at(tokens, pos, seq![Lexeme::LeftBrace] + members_tokens(members) + seq![next]),
    ensures
        value_at(tokens, pos) == Err::<(Json, int), ParseError>(ParseError::MisplacedComma),
        pos == 0 ==> parsed(tokens) == Err::<Json, ParseError>(ParseError::MisplacedComma),
{
    let opened = seq![Lexeme::LeftBrace] + members_tokens(members);
    lemma_stands_at_concat(tokens, pos, opened, seq![next]);
    lemma_object_opened(tokens, pos, members);
    lemma_stands_at_index(tokens, pos + opened.len(), seq![next], 0);
}

/// An item that cannot be read fails the array with its own error: no array
/// is made of the items before it.
pub proof fn item_error_fails_array(
    tokens: Seq<Lexeme>,
    pos: int,
    items: Seq<Written>,
    e: ParseError,
)
    requires
        Written::Array(items).well_formed(),
        stands_at(
            tokens,
            pos,
            seq![Lexeme::LeftBracket] + items_tokens(items) + comma_if(items.len() > 0),
        ),
        ({
            let at = pos + 1 + items_tokens(items).len() + comma_if(items.len() > 0).len();
            &&& at < tokens.len() ==> tokens[at] != Lexeme::RightBracket && tokens[at]
                != Lexeme::Comma
            &&& value_at(tokens, at) == Err::<(Json, int), ParseError>(e)
        }),
    ensures
        value_at(tokens, pos) == Err::<(Json, int), ParseError>(e),
        pos == 0 ==> parsed(tokens) == Err::<Json, ParseError>(e),
{
    let opened = seq![Lexeme::LeftBracket] + items_tokens(items);
    lemma_stands_at_concat(tokens, pos, opened, comma_if(items.len() > 0));
    lemma_array_opened(tokens, pos, items);
    if items.len() > 0 {
        lemma_stands_at_index(tokens, pos + opened.len(), seq![Lexeme::Comma], 0);
        assert(value_at(tokens, pos) == items_at(
            tokens,
            pos + opened.len() + 1,
            items_json(items),
            true,
        ));
    }
}

/// A member whose value cannot be read fails the object with the error of
/// that value: no object is made of the members before it.
pub proof fn member_error_fails_object(
    tokens: Seq<Lexeme>,
    pos: int,
    members: Seq<(Seq<char>, Written)>,
    key: Seq<char>,
    e: ParseError,
)
    requires
        Written::Object(members).well_formed(),
        stands_at(
            tokens,
            pos,
            seq![Lexeme::LeftBrace] + members_tokens(members) + comma_if(members.len() > 0) + seq![
                Lexeme::String(key),
                Lexeme::Colon,
            ],
        ),
        value_at(
            tokens,
            pos + 1 + members_tokens(members).len() + comma_if(members.len() > 0).len() + 2,
        ) == Err::<(Json, int), ParseError>(e),
    ensures
        value_at(tokens, pos) == Err::<(Json, int), ParseError>(e),
        pos == 0 ==> parsed(tokens) == Err::<Json, ParseError>(e),
{
    let opened = seq![Lexeme::LeftBrace] + members_tokens(members);
    let comma = comma_if(members.len() > 0);
    let head = seq![Lexeme::String(key), Lexeme::Colon];
    lemma_stands_at_concat(tokens, pos, opened + comma, head);
    lemma_stands_at_concat(tokens, pos, opened, comma);
    lemma_object_opened(tokens, pos, members);
    let at = pos + opened.len() + comma.len();
    lemma_stands_at_index(tokens, at, head, 0);
    lemma_stands_at_index(tokens, at, head, 1);
    if members.len() > 0 {
        lemma_stands_at_index(tokens, pos + opened.len(), seq![Lexeme::Comma], 0);
        assert(value_at(tokens, pos) == members_at(
            tokens,
            at,
            members_json(members),
            Expecting::Pair,
        ));
    }
}

/// Where the rest of an array is read with success, the items `done` and
/// perhaps a comma standing between `start` and `pos`, all its items were
/// written from `start` on, with the closing bracket behind them.
pub proof fn lemma_items_written(
    tokens: Seq<Lexeme>,
    start: int,
    pos: int,
    done: Seq<Written>,
    after_comma: bool,
) -> (items: Seq<Written>)
    requires
        forall|i: int| 0 <= i < done.len() ==> (#[trigger] done[i]).well_formed(),
        after_comma ==> done.len() > 0,
        stands_at(tokens, start, items_tokens(done) + comma_if(after_comma)),
        pos == start + items_tokens(done).len() + comma_if(after_comma).len(),
        items_at(tokens, pos, items_json(done), after_comma) is Ok,
    ensures
        forall|i: int| 0 <= i < items.len() ==> (#[trigger] items[i]).well_formed(),
        stands_at(tokens, start, items_tokens(items) + seq![Lexeme::RightBracket]),
        items_at(tokens, pos, items_json(done), after_comma) == Ok::<(Json, int), ParseError>(
            (Json::Array(items_json(items)), start + items_tokens(items).len() + 1),
        ),
    decreases tokens.len() - pos, 1int,
{
    lemma_stands_at_concat(tokens, start, items_tokens(done), comma_if(after_comma));
    match tokens[pos] {
        Lexeme::RightBracket => {
            assert(tokens.subrange(pos, pos + 1) =~= seq![Lexeme::RightBracket]);
            lemma_stands_at_concat(
                tokens,
                start,
                items_tokens(done),
                seq![Lexeme::RightBracket],
            );
            done
        },
        Lexeme::Comma => {
            assert(tokens.subrange(pos, pos + 1) =~= seq![Lexeme::Comma]);
            lemma_stands_at_concat(tokens, start, items_tokens(done), seq![Lexeme::Comma]);
            lemma_items_written(tokens, start, pos + 1, done, true)
        },
        _ => {
            let item = read_is_written(tokens, pos);
            let longer = done.push(item);
            assert(longer.drop_last() =~= done);
            assert(items_json(longer) =~= items_json(done).push(item.json()));
            assert forall|i: int| 0 <= i < longer.len() implies (
            #[trigger] longer[i]).well_formed() by {
                if i < done.len() {
                    assert(done[i].well_formed());
                }
            }
            if done.len() > 0 {
                lemma_stands_at_concat(
                    tokens,
                    start,
                    items_tokens(done) + seq![Lexeme::Comma],
                    item.tokens(),
                );
            } else {
                assert(items_tokens(done) + comma_if(after_comma) =~= Seq::<Lexeme>::empty());
            }
            assert(stands_at(tokens, start, items_tokens(longer)));
            assert(items_tokens(longer) + comma_if(false) =~= items_tokens(longer));
            lemma_items_written(tokens, start, pos + item.tokens().len(), longer, false)
        },
    }
}

/// Where the rest of an object is read with success, the members `done` and
/// perhaps a comma standing between `start` and `pos`, all its members were
/// written from `start` on, with the closing brace behind them.
pub proof fn lemma_members_written(
    tokens: Seq<Lexeme>,
    start: int,
    pos: int,
    done: Seq<(Seq<char>, Written)>,
    state: Expecting,
) -> (members: Seq<(Seq<char>, Written)>)
    requires
        forall|i: int| 0 <= i < done.len() ==> (#[trigger] done[i]).1.well_formed(),
        state == Expecting::PairOrEnd <==> done.len() == 0,
        stands_at(tokens, start, members_tokens(done) + comma_if(state == Expecting::Pair)),
        pos == start + members_tokens(done).len() + comma_if(state == Expecting::Pair).len(),
        members_at(tokens, pos, members_json(done), state) is Ok,
    ensures
        forall|i: int| 0 <= i < members.len() ==> (#[trigger] members[i]).1.well_formed(),
        stands_at(tokens, start, members_tokens(members) + seq![Lexeme::RightBrace]),
        members_at(tokens, pos, members_json(done), state) == Ok::<(Json, int), ParseError>(
            (Json::Object(members_json(members)), start + members_tokens(members).len() + 1),
        ),
    decreases tokens.len() - pos, 1int,
{
    lemma_stands_at_concat(
        tokens,
        start,
        members_tokens(done),
        comma_if(state == Expecting::Pair),
    );
    match tokens[pos] {
        Lexeme::RightBrace => {
            assert(tokens.subrange(pos, pos + 1) =~= seq![Lexeme::RightBrace]);
            lemma_stands_at_concat(
                tokens,
                start,
                members_tokens(done),
                seq![Lexeme::RightBrace],
            );
            done
        },
        Lexeme::Comma => {
            assert(tokens.subrange(pos, pos + 1) =~= seq![Lexeme::Comma]);
            lemma_stands_at_concat(tokens, start, members_tokens(done), seq![Lexeme::Comma]);
            lemma_members_written(tokens, start, pos + 1, done, Expecting::Pair)
        },
        Lexeme::String(key) => {
            let value = read_is_written(tokens, pos + 2);
            let member = (key, value);
            let longer = done.push(member);
            assert(longer.drop_last() =~= done);
            assert forall|i: int| 0 <= i < longer.len() implies (
            #[trigger] longer[i]).1.well_formed() by {
                if i < done.len() {
                    assert(done[i].1.well_formed());
                }
            }
            assert(tokens.subrange(pos, pos + 2) =~= seq![Lexeme::String(key), Lexeme::Colon]);
            lemma_stands_at_concat(
                tokens,
                pos,
                seq![Lexeme::String(key), Lexeme::Colon],
                value.tokens(),
            );
            assert(stands_at(tokens, pos, member_tokens(member)));
            assert(member_tokens(member).len() == 2 + value.tokens().len());
            if done.len() > 0 {
                assert(state == Expecting::Pair);
                lemma_stands_at_concat(
                    tokens,
                    start,
                    members_tokens(done) + seq![Lexeme::Comma],
                    member_tokens(member),
                );
            } else {
                assert(members_tokens(done) + comma_if(state == Expecting::Pair)
                    =~= Seq::<Lexeme>::empty());
            }
            assert(stands_at(tokens, start, members_tokens(longer)));
            assert(members_tokens(longer) + comma_if(false) =~= members_tokens(longer));
            lemma_members_written(
                tokens,
                start,
                pos + 2 + value.tokens().len(),
                longer,
                Expecting::CommaOrEnd,
            )
        },
        _ => done,
    }
}

/// Every value that is read was written: where the parser finds a value, a
/// well-formed written value stands there, the parser ends behind its last
/// token, and the value found is the one that it stands for.
pub proof fn read_is_written(tokens: Seq<Lexeme>, pos: int) -> (written: Written)
    requires
        value_at(tokens, pos) is Ok,
    ensures
        written.well_formed(),
        stands_at(tokens, pos, written.tokens()),
        value_at(tokens, pos) == Ok::<(Json, int), ParseError>(
            (written.json(), pos + written.tokens().len()),
        ),
    decreases tokens.len() - pos, 0int,
{
    let written = match tokens[pos] {
        Lexeme::Boolean(b) => Written::Boolean(b),
        Lexeme::Null => Written::Null,
        Lexeme::String(text) => Written::String(text),
        Lexeme::Number(text) => Written::Number(text),
        Lexeme::LeftBrace => {
            assert(members_tokens(Seq::empty()) + comma_if(false) =~= Seq::<Lexeme>::empty());
            assert(tokens.subrange(pos + 1, pos + 1) =~= Seq::<Lexeme>::empty());
            let members = lemma_members_written(
                tokens,
                pos + 1,
                pos + 1,
                Seq::empty(),
                Expecting::PairOrEnd,
            );
            let inner = members_tokens(members) + seq![Lexeme::RightBrace];
            lemma_stands_at_concat(tokens, pos, seq![Lexeme::LeftBrace], inner);
            assert(seq![Lexeme::LeftBrace] + inner =~= Written::Object(members).tokens());
            assert(Written::Object(members)->Object_0 == members);
            Written::Object(members)
        },
        Lexeme::LeftBracket => {
            assert(items_tokens(Seq::empty()) + comma_if(false) =~= Seq::<Lexeme>::empty());
            assert(tokens.subrange(pos + 1, pos + 1) =~= Seq::<Lexeme>::empty());
            assert(items_json(Seq::empty()) =~= Seq::<Json>::empty());
            let items = lemma_items_written(tokens, pos + 1, pos + 1, Seq::empty(), false);
            let inner = items_tokens(items) + seq![Lexeme::RightBracket];
            lemma_stands_at_concat(tokens, pos, seq![Lexeme::LeftBracket], inner);
            assert(seq![Lexeme::LeftBracket] + inner =~= Written::Array(items).tokens());
            assert(Written::Array(items)->Array_0 == items);
            Written::Array(items)
        },
        _ => Written::Null,
    };
    assert(tokens.subrange(pos, pos + 1) =~= seq![tokens[pos]]);
    written
}

/// The grammar of the parser: a run of tokens has a value where, and only
/// where, it starts with what writes a well-formed value, and its value is
/// then the one that is written.
pub proof fn parsed_iff_written(tokens: Seq<Lexeme>)
    ensures
        parsed(tokens) is Ok <==> exists|written: Written|
            written.well_formed() && #[trigger] stands_at(tokens, 0, written.tokens()),
        forall|written: Written|
            written.well_formed() && #[trigger] stands_at(tokens, 0, written.tokens()) ==> parsed(
                tokens,
            ) == Ok::<Json, ParseError>(written.json()),
{
    if parsed(tokens) is Ok {
        let written = read_is_written(tokens, 0);
        assert(written.well_formed() && stands_at(tokens, 0, written.tokens()));
    }
    assert forall|written: Written|
        written.well_formed() && #[trigger] stands_at(tokens, 0, written.tokens()) implies parsed(
        tokens,
    ) == Ok::<Json, ParseError>(written.json()) by {
        written_is_read(tokens, 0, written);
    }
}

} // verus!
