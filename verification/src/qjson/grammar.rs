//! Which texts are read.
//!
//! A text is read if it is the tokens of a JSON value, one after the
//! other, in which objects nest no deeper than the bound. [`Json`] is such a
//! value, [`stream`] the tokens of a text, and [`is_json`] puts the two
//! together. [`lemma_document_reads_json`] says that this is what the parser
//! accepts.

use super::error::Fault;
use super::laws::{lemma_field_reads, lemma_item_reads, lemma_value_reads};
use super::parser::{lemma_advance_if_tok_moves, lemma_next_tok_moves};
use super::parser::{
    advance_if_tok, assume_tok_kind, assume_tok_str, document, end_of_collection, next_tok,
    parse_array, parse_field, parse_fields, parse_item, parse_items, parse_obj, parse_value,
    State,
};
use super::tokenizer::{lemma_lex_moves, lex, Cursor, Lexed, Token};
use vstd::prelude::*;

verus! {

/// A JSON value, as the tokens that it is made of.
pub enum Json {
    /// `true`, `false`, `null`, a number or a string.
    Scalar(Token),
    /// The elements of an array.
    Array(Seq<Json>),
    /// The keys of an object, which are strings, and their values.
    Object(Seq<(Token, Json)>),
}

/// Whether `tok` is a value by itself.
pub open spec fn is_scalar(tok: Token) -> bool {
    tok is Bool || tok is Float || tok is Integer || tok is Null || tok is Str
}

impl Json {
    /// The tokens of the value, in the order in which they are written.
    pub open spec fn tokens(self) -> Seq<Token>
        decreases self, 0nat,
    {
        match self {
            Json::Scalar(tok) => seq![tok],
            Json::Array(items) => seq![Token::BracketL] + items_tokens(items, 0) + seq![
                Token::BracketR,
            ],
            Json::Object(fields) => seq![Token::BraceL] + fields_tokens(fields, 0) + seq![
                Token::BraceR,
            ],
        }
    }

    /// Whether the value is one that may stand at depth `depth`: its scalars
    /// are scalars, its keys are strings, and its objects nest no deeper than
    /// `limit`. An object is one level deeper than what it stands in, an array
    /// is not.
    pub open spec fn fits(self, depth: nat, limit: nat) -> bool
        decreases self, 0nat,
    {
        match self {
            Json::Scalar(tok) => is_scalar(tok),
            Json::Array(items) => forall|i: int|
                0 <= i < items.len() ==> (#[trigger] items[i]).fits(depth, limit),
            Json::Object(fields) => depth < limit && forall|i: int|
                0 <= i < fields.len() ==> (#[trigger] fields[i]).0 is Str && fields[i].1.fits(
                    depth + 1,
                    limit,
                ),
        }
    }
}

/// The tokens of the elements of an array from the `from`-th on, with
/// commas between them.
pub open spec fn items_tokens(items: Seq<Json>, from: int) -> Seq<Token>
    decreases items, items.len() - from,
{
    if from < 0 || from >= items.len() {
        Seq::empty()
    } else if from + 1 == items.len() {
        items[from].tokens()
    } else {
        items[from].tokens() + seq![Token::Comma] + items_tokens(items, from + 1)
    }
}

/// The tokens of the fields of an object from the `from`-th on, each a key,
/// a colon and a value, with commas between them.
pub open spec fn fields_tokens(fields: Seq<(Token, Json)>, from: int) -> Seq<Token>
    decreases fields, fields.len() - from,
{
    if from < 0 || from >= fields.len() {
        Seq::empty()
    } else if from + 1 == fields.len() {
        seq![fields[from].0, Token::Colon] + fields[from].1.tokens()
    } else {
        seq![fields[from].0, Token::Colon] + fields[from].1.tokens() + seq![Token::Comma]
            + fields_tokens(fields, from + 1)
    }
}

/// The tokens of a text from `cur` on, up to its end; none if something
/// in it is no token.
pub open spec fn stream(s: Seq<char>, cur: Cursor) -> Option<Seq<Token>>
    decreases s.len() - cur.pos,
{
    let step = lex(s, cur);
    match step.out {
        Lexed::End => Some(Seq::empty()),
        Lexed::Fault(_) => None,
        Lexed::Token(tok) => {
            proof {
                lemma_lex_moves(s, cur);
            }
            before(seq![tok], stream(s, step.cur))
        },
    }
}

/// `tokens` before what follows, if anything does.
pub open spec fn before(tokens: Seq<Token>, rest: Option<Seq<Token>>) -> Option<Seq<Token>> {
    match rest {
        Some(rest) => Some(tokens + rest),
        None => None,
    }
}

/// The tokens that a parser has before it: the one it has read ahead, and
/// those of the text from where it is.
pub open spec fn ahead(s: Seq<char>, st: State) -> Option<Seq<Token>> {
    match st.peek {
        Some(tok) => before(seq![tok], stream(s, st.cur)),
        None => stream(s, st.cur),
    }
}

/// Whether `s` is a JSON text in which objects nest no deeper than `limit`:
/// its tokens are those of a value, and nothing else is in it.
pub open spec fn is_json(s: Seq<char>, limit: nat) -> bool {
    exists|value: Json| #[trigger]
        value.fits(0, limit) && stream(s, Cursor::start()) == Some(value.tokens())
}

/// Taking a token takes the first of the tokens ahead. It fails where none
/// is ahead: at the end of the text, or before something that is no token.
pub proof fn lemma_next_tok_ahead(s: Seq<char>, st: State)
    ensures
        match next_tok(s, st).res {
            Ok(tok) => ahead(s, st) == before(seq![tok], ahead(s, next_tok(s, st).st)),
            Err(_) => ahead(s, st) is None || ahead(s, st) == Some(Seq::<Token>::empty()),
        },
{
}

/// Taking a token if it is `tok` takes it, or leaves the tokens ahead as
/// they are, of which the first is another one.
pub proof fn lemma_advance_if_tok_ahead(s: Seq<char>, st: State, tok: Token)
    ensures
        ({
            let after = advance_if_tok(s, st, tok);
            match after.res {
                Ok(true) => ahead(s, st) == before(seq![tok], ahead(s, after.st)),
                Ok(false) => ahead(s, after.st) == ahead(s, st) && match after.st.peek {
                    Some(next) => next != tok,
                    None => false,
                },
                Err(_) => ahead(s, st) is None || ahead(s, st) == Some(Seq::<Token>::empty()),
            }
        }),
{
}

/// The first of the tokens ahead is the one that was read ahead.
pub proof fn lemma_ahead_peek(s: Seq<char>, st: State)
    ensures
        match (st.peek, ahead(s, st)) {
            (Some(tok), Some(tokens)) => tokens.len() > 0 && tokens[0] == tok,
            _ => true,
        },
{
}

/// Reading what follows a value takes the token that ends the collection,
/// or a comma before a token that does not end it.
pub proof fn lemma_end_of_collection_ahead(s: Seq<char>, st: State, closing: Token)
    requires
        closing != Token::Comma,
    ensures
        match end_of_collection(s, st, closing).res {
            Ok(true) => ahead(s, st) == before(
                seq![closing],
                ahead(s, end_of_collection(s, st, closing).st),
            ),
            Ok(false) => ahead(s, st) == before(
                seq![Token::Comma],
                ahead(s, end_of_collection(s, st, closing).st),
            ),
            Err(_) => true,
        },
{
    lemma_advance_if_tok_ahead(s, st, Token::Comma);
    lemma_advance_if_tok_ahead(s, advance_if_tok(s, st, Token::Comma).st, closing);
}

/// With tokens ahead, the first of them is taken.
pub proof fn lemma_takes(s: Seq<char>, st: State, tokens: Seq<Token>)
    requires
        ahead(s, st) == Some(tokens),
        tokens.len() > 0,
    ensures
        next_tok(s, st).res == Ok::<Token, Fault>(tokens[0]),
        ahead(s, next_tok(s, st).st) == Some(tokens.drop_first()),
{
    lemma_next_tok_ahead(s, st);
    match next_tok(s, st).res {
        Ok(tok) => {
            let rest = ahead(s, next_tok(s, st).st)->0;
            assert((seq![tok] + rest)[0] == tok);
            assert((seq![tok] + rest).drop_first() =~= rest);
        },
        Err(_) => {},
    }
}

/// With tokens ahead, the first of them is taken if it is the one asked
/// for, and left where it is if it is not.
pub proof fn lemma_advances(s: Seq<char>, st: State, tok: Token, tokens: Seq<Token>)
    requires
        ahead(s, st) == Some(tokens),
        tokens.len() > 0,
    ensures
        advance_if_tok(s, st, tok).res == Ok::<bool, Fault>(tokens[0] == tok),
        ahead(s, advance_if_tok(s, st, tok).st) == Some(
            if tokens[0] == tok {
                tokens.drop_first()
            } else {
                tokens
            },
        ),
{
    lemma_advance_if_tok_ahead(s, st, tok);
    let after = advance_if_tok(s, st, tok);
    lemma_ahead_peek(s, after.st);
    match after.res {
        Ok(true) => {
            let rest = ahead(s, after.st)->0;
            assert((seq![tok] + rest)[0] == tok);
            assert((seq![tok] + rest).drop_first() =~= rest);
        },
        _ => {},
    }
}

/// With the token ahead that ends a collection, the collection has ended;
/// with a comma ahead and behind it a token that does not end the collection,
/// it has not.
pub proof fn lemma_ends(s: Seq<char>, st: State, closing: Token, tokens: Seq<Token>)
    requires
        closing != Token::Comma,
        ahead(s, st) == Some(tokens),
        tokens.len() > 0,
        tokens[0] == closing || (tokens[0] == Token::Comma && tokens.len() > 1 && tokens[1]
            != closing),
    ensures
        end_of_collection(s, st, closing).res == Ok::<bool, Fault>(tokens[0] == closing),
        ahead(s, end_of_collection(s, st, closing).st) == Some(tokens.drop_first()),
{
    lemma_advances(s, st, Token::Comma, tokens);
    let comma = advance_if_tok(s, st, Token::Comma);
    if tokens[0] == closing {
        lemma_advances(s, comma.st, closing, tokens);
    } else {
        lemma_advances(s, comma.st, closing, tokens.drop_first());
    }
}

/// Whether a value can start with `tok`.
pub open spec fn starts_value(tok: Token) -> bool {
    is_scalar(tok) || tok == Token::BracketL || tok == Token::BraceL
}

/// A value has tokens, of which the first is one that a value can start
/// with.
pub proof fn lemma_first_token(value: Json, depth: nat, limit: nat)
    requires
        value.fits(depth, limit),
    ensures
        value.tokens().len() > 0,
        starts_value(value.tokens()[0]),
{
}

/// Tokens before tokens before what follows are all of them before what
/// follows.
pub proof fn lemma_before_before(a: Seq<Token>, b: Seq<Token>, rest: Option<Seq<Token>>)
    ensures
        before(a, before(b, rest)) == before(a + b, rest),
{
    match rest {
        Some(rest) => {
            assert(a + (b + rest) =~= (a + b) + rest);
        },
        None => {},
    }
}

/// The tokens of elements behind a first element are their tokens by
/// themselves.
pub proof fn lemma_items_tokens_shift(first: Json, rest: Seq<Json>, from: int)
    requires
        0 <= from,
    ensures
        items_tokens(seq![first] + rest, from + 1) == items_tokens(rest, from),
    decreases rest.len() - from,
{
    let all = seq![first] + rest;
    if from < rest.len() {
        assert(all[from + 1] == rest[from]);
        lemma_items_tokens_shift(first, rest, from + 1);
    }
}

/// The tokens of fields behind a first field are their tokens by
/// themselves.
pub proof fn lemma_fields_tokens_shift(first: (Token, Json), rest: Seq<(Token, Json)>, from: int)
    requires
        0 <= from,
    ensures
        fields_tokens(seq![first] + rest, from + 1) == fields_tokens(rest, from),
    decreases rest.len() - from,
{
    let all = seq![first] + rest;
    if from < rest.len() {
        assert(all[from + 1] == rest[from]);
        lemma_fields_tokens_shift(first, rest, from + 1);
    }
}

/// A value that is read is a value: the tokens that were ahead are its
/// tokens before those that are ahead now.
pub proof fn lemma_value_sound(s: Seq<char>, st: State, depth: nat, limit: nat) -> (value: Json)
    requires
        parse_value(s, st, None, depth, limit).res is Ok,
    ensures
        value.fits(depth, limit),
        ahead(s, st) == before(
            value.tokens(),
            ahead(s, parse_value(s, st, None, depth, limit).st),
        ),
    decreases st.left(s), 0nat,
{
    lemma_next_tok_moves(s, st);
    lemma_next_tok_ahead(s, st);
    let taken = next_tok(s, st);
    let tok = taken.res->Ok_0;
    match tok {
        Token::BraceL => {
            let fields = lemma_obj_sound(s, taken.st, depth + 1, limit);
            let after = ahead(s, parse_obj(s, taken.st, None, depth + 1, limit).st);
            lemma_before_before(seq![tok], fields_tokens(fields, 0) + seq![Token::BraceR], after);
            assert(seq![tok] + (fields_tokens(fields, 0) + seq![Token::BraceR]) =~= Json::Object(
                fields,
            ).tokens());
            Json::Object(fields)
        },
        Token::BracketL => {
            let items = lemma_array_sound(s, taken.st, depth, limit);
            let after = ahead(s, parse_array(s, taken.st, None, depth, limit).st);
            lemma_before_before(seq![tok], items_tokens(items, 0) + seq![Token::BracketR], after);
            assert(seq![tok] + (items_tokens(items, 0) + seq![Token::BracketR]) =~= Json::Array(
                items,
            ).tokens());
            Json::Array(items)
        },
        _ => Json::Scalar(tok),
    }
}

/// An object that is read is the fields of an object and its `}`.
pub proof fn lemma_obj_sound(
    s: Seq<char>,
    st: State,
    depth: nat,
    limit: nat,
) -> (fields: Seq<(Token, Json)>)
    requires
        parse_obj(s, st, None, depth, limit).res is Ok,
    ensures
        depth <= limit,
        forall|i: int|
            0 <= i < fields.len() ==> (#[trigger] fields[i]).0 is Str && fields[i].1.fits(
                depth,
                limit,
            ),
        ahead(s, st) == before(
            fields_tokens(fields, 0) + seq![Token::BraceR],
            ahead(s, parse_obj(s, st, None, depth, limit).st),
        ),
    decreases st.left(s), 3nat,
{
    lemma_advance_if_tok_moves(s, st, Token::BraceR);
    lemma_advance_if_tok_ahead(s, st, Token::BraceR);
    let empty = advance_if_tok(s, st, Token::BraceR);
    if empty.res == Ok::<bool, Fault>(true) {
        let fields = Seq::<(Token, Json)>::empty();
        assert(fields_tokens(fields, 0) + seq![Token::BraceR] =~= seq![Token::BraceR]);
        fields
    } else {
        lemma_fields_sound(s, empty.st, depth, limit)
    }
}

/// A field that is read, with what follows it, is a key, a colon, a value,
/// and a comma or the `}`.
pub proof fn lemma_field_sound(
    s: Seq<char>,
    st: State,
    depth: nat,
    limit: nat,
) -> (field: (Token, Json))
    requires
        parse_field(s, st, None, depth, limit).res is Ok,
    ensures
        field.0 is Str,
        field.1.fits(depth, limit),
        ahead(s, st) == before(
            seq![field.0, Token::Colon] + field.1.tokens() + seq![
                if parse_field(s, st, None, depth, limit).res == Ok::<bool, Fault>(true) {
                    Token::BraceR
                } else {
                    Token::Comma
                },
            ],
            ahead(s, parse_field(s, st, None, depth, limit).st),
        ),
    decreases st.left(s), 1nat,
{
    lemma_next_tok_moves(s, st);
    lemma_next_tok_ahead(s, st);
    let key = assume_tok_str(s, st);
    let name = next_tok(s, st).res->Ok_0;
    lemma_next_tok_moves(s, key.st);
    lemma_next_tok_ahead(s, key.st);
    let colon = assume_tok_kind(s, key.st, Token::Colon);
    let value = lemma_value_sound(s, colon.st, depth, limit);
    let read = parse_value(s, colon.st, None, depth, limit);
    lemma_end_of_collection_ahead(s, read.st, Token::BraceR);
    let end = end_of_collection(s, read.st, Token::BraceR);
    let last = if end.res == Ok::<bool, Fault>(true) {
        Token::BraceR
    } else {
        Token::Comma
    };
    let after = ahead(s, end.st);
    lemma_before_before(value.tokens(), seq![last], after);
    lemma_before_before(seq![Token::Colon], value.tokens() + seq![last], after);
    lemma_before_before(seq![name], seq![Token::Colon] + (value.tokens() + seq![last]), after);
    assert(seq![name] + (seq![Token::Colon] + (value.tokens() + seq![last])) =~= seq![
        name,
        Token::Colon,
    ] + value.tokens() + seq![last]);
    (name, value)
}

/// Fields that are read are the fields of an object and its `}`.
pub proof fn lemma_fields_sound(
    s: Seq<char>,
    st: State,
    depth: nat,
    limit: nat,
) -> (fields: Seq<(Token, Json)>)
    requires
        parse_fields(s, st, None, depth, limit).res is Ok,
    ensures
        fields.len() > 0,
        forall|i: int|
            0 <= i < fields.len() ==> (#[trigger] fields[i]).0 is Str && fields[i].1.fits(
                depth,
                limit,
            ),
        ahead(s, st) == before(
            fields_tokens(fields, 0) + seq![Token::BraceR],
            ahead(s, parse_fields(s, st, None, depth, limit).st),
        ),
    decreases st.left(s), 2nat,
{
    lemma_field_reads(s, st, None, depth, limit);
    let first = lemma_field_sound(s, st, depth, limit);
    let step = parse_field(s, st, None, depth, limit);
    let head = seq![first.0, Token::Colon] + first.1.tokens();
    if step.res == Ok::<bool, Fault>(true) {
        let fields = seq![first];
        assert(fields_tokens(fields, 0) =~= head);
        fields
    } else {
        let rest = lemma_fields_sound(s, step.st, depth, limit);
        let fields = seq![first] + rest;
        let after = ahead(s, parse_fields(s, step.st, None, depth, limit).st);
        lemma_fields_tokens_shift(first, rest, 0);
        lemma_before_before(
            head + seq![Token::Comma],
            fields_tokens(rest, 0) + seq![Token::BraceR],
            after,
        );
        assert(fields[0] == first);
        assert((head + seq![Token::Comma]) + (fields_tokens(rest, 0) + seq![Token::BraceR])
            =~= fields_tokens(fields, 0) + seq![Token::BraceR]);
        assert forall|i: int| 0 <= i < fields.len() implies (#[trigger] fields[i]).0 is Str
            && fields[i].1.fits(depth, limit) by {
            if i > 0 {
                assert(fields[i] == rest[i - 1]);
            }
        }
        fields
    }
}

/// An array that is read is the elements of an array and its `]`.
pub proof fn lemma_array_sound(
    s: Seq<char>,
    st: State,
    depth: nat,
    limit: nat,
) -> (items: Seq<Json>)
    requires
        parse_array(s, st, None, depth, limit).res is Ok,
    ensures
        forall|i: int| 0 <= i < items.len() ==> (#[trigger] items[i]).fits(depth, limit),
        ahead(s, st) == before(
            items_tokens(items, 0) + seq![Token::BracketR],
            ahead(s, parse_array(s, st, None, depth, limit).st),
        ),
    decreases st.left(s), 3nat,
{
    lemma_advance_if_tok_moves(s, st, Token::BracketR);
    lemma_advance_if_tok_ahead(s, st, Token::BracketR);
    let empty = advance_if_tok(s, st, Token::BracketR);
    if empty.res == Ok::<bool, Fault>(true) {
        let items = Seq::<Json>::empty();
        assert(items_tokens(items, 0) + seq![Token::BracketR] =~= seq![Token::BracketR]);
        items
    } else {
        lemma_items_sound(s, empty.st, 0, depth, limit)
    }
}

/// An element that is read, with what follows it, is a value, and a comma
/// or the `]`.
pub proof fn lemma_item_sound(
    s: Seq<char>,
    st: State,
    i: nat,
    depth: nat,
    limit: nat,
) -> (item: Json)
    requires
        parse_item(s, st, None, i, depth, limit).res is Ok,
    ensures
        item.fits(depth, limit),
        ahead(s, st) == before(
            item.tokens() + seq![
                if parse_item(s, st, None, i, depth, limit).res == Ok::<bool, Fault>(true) {
                    Token::BracketR
                } else {
                    Token::Comma
                },
            ],
            ahead(s, parse_item(s, st, None, i, depth, limit).st),
        ),
    decreases st.left(s), 1nat,
{
    let item = lemma_value_sound(s, st, depth, limit);
    let read = parse_value(s, st, None, depth, limit);
    lemma_end_of_collection_ahead(s, read.st, Token::BracketR);
    let end = end_of_collection(s, read.st, Token::BracketR);
    let last = if end.res == Ok::<bool, Fault>(true) {
        Token::BracketR
    } else {
        Token::Comma
    };
    lemma_before_before(item.tokens(), seq![last], ahead(s, end.st));
    item
}

/// Elements that are read are the elements of an array and its `]`.
pub proof fn lemma_items_sound(
    s: Seq<char>,
    st: State,
    i: nat,
    depth: nat,
    limit: nat,
) -> (items: Seq<Json>)
    requires
        parse_items(s, st, None, i, depth, limit).res is Ok,
    ensures
        items.len() > 0,
        forall|k: int| 0 <= k < items.len() ==> (#[trigger] items[k]).fits(depth, limit),
        ahead(s, st) == before(
            items_tokens(items, 0) + seq![Token::BracketR],
            ahead(s, parse_items(s, st, None, i, depth, limit).st),
        ),
    decreases st.left(s), 2nat,
{
    lemma_item_reads(s, st, None, i, depth, limit);
    let first = lemma_item_sound(s, st, i, depth, limit);
    let step = parse_item(s, st, None, i, depth, limit);
    if step.res == Ok::<bool, Fault>(true) {
        let items = seq![first];
        assert(items_tokens(items, 0) =~= first.tokens());
        items
    } else {
        let rest = lemma_items_sound(s, step.st, i + 1, depth, limit);
        let items = seq![first] + rest;
        let after = ahead(s, parse_items(s, step.st, None, i + 1, depth, limit).st);
        lemma_items_tokens_shift(first, rest, 0);
        lemma_before_before(
            first.tokens() + seq![Token::Comma],
            items_tokens(rest, 0) + seq![Token::BracketR],
            after,
        );
        assert(items[0] == first);
        assert((first.tokens() + seq![Token::Comma]) + (items_tokens(rest, 0) + seq![
            Token::BracketR,
        ]) =~= items_tokens(items, 0) + seq![Token::BracketR]);
        assert forall|k: int| 0 <= k < items.len() implies (#[trigger] items[k]).fits(
            depth,
            limit,
        ) by {
            if k > 0 {
                assert(items[k] == rest[k - 1]);
            }
        }
        items
    }
}

/// A value that is ahead is read: with its tokens ahead, before `rest`,
/// reading a value takes them and leaves `rest`.
pub proof fn lemma_value_complete(
    s: Seq<char>,
    st: State,
    value: Json,
    rest: Seq<Token>,
    depth: nat,
    limit: nat,
)
    requires
        value.fits(depth, limit),
        ahead(s, st) == Some(value.tokens() + rest),
    ensures
        parse_value(s, st, None, depth, limit).res is Ok,
        ahead(s, parse_value(s, st, None, depth, limit).st) == Some(rest),
    decreases value, 0nat,
{
    let tokens = value.tokens() + rest;
    lemma_first_token(value, depth, limit);
    lemma_takes(s, st, tokens);
    let taken = next_tok(s, st);
    match value {
        Json::Scalar(tok) => {
            assert(tokens.drop_first() =~= rest);
        },
        Json::Array(items) => {
            assert(tokens.drop_first() =~= items_tokens(items, 0) + seq![Token::BracketR] + rest);
            lemma_array_complete(s, taken.st, items, rest, depth, limit);
        },
        Json::Object(fields) => {
            assert(tokens.drop_first() =~= fields_tokens(fields, 0) + seq![Token::BraceR] + rest);
            lemma_obj_complete(s, taken.st, fields, rest, depth + 1, limit);
        },
    }
}

/// An array that is ahead is read.
pub proof fn lemma_array_complete(
    s: Seq<char>,
    st: State,
    items: Seq<Json>,
    rest: Seq<Token>,
    depth: nat,
    limit: nat,
)
    requires
        forall|i: int| 0 <= i < items.len() ==> (#[trigger] items[i]).fits(depth, limit),
        ahead(s, st) == Some(items_tokens(items, 0) + seq![Token::BracketR] + rest),
    ensures
        parse_array(s, st, None, depth, limit).res is Ok,
        ahead(s, parse_array(s, st, None, depth, limit).st) == Some(rest),
    decreases items, items.len() + 1,
{
    let tokens = items_tokens(items, 0) + seq![Token::BracketR] + rest;
    lemma_advances(s, st, Token::BracketR, tokens);
    let empty = advance_if_tok(s, st, Token::BracketR);
    if items.len() == 0 {
        assert(tokens.drop_first() =~= rest);
    } else {
        lemma_first_token(items[0], depth, limit);
        assert(tokens[0] == items[0].tokens()[0]);
        lemma_items_complete(s, empty.st, items, 0, rest, 0, depth, limit);
    }
}

/// The elements of an array that are ahead, from the `from`-th on, are
/// read.
pub proof fn lemma_items_complete(
    s: Seq<char>,
    st: State,
    items: Seq<Json>,
    from: int,
    rest: Seq<Token>,
    i: nat,
    depth: nat,
    limit: nat,
)
    requires
        0 <= from < items.len(),
        forall|k: int| 0 <= k < items.len() ==> (#[trigger] items[k]).fits(depth, limit),
        ahead(s, st) == Some(items_tokens(items, from) + seq![Token::BracketR] + rest),
    ensures
        parse_items(s, st, None, i, depth, limit).res is Ok,
        ahead(s, parse_items(s, st, None, i, depth, limit).st) == Some(rest),
    decreases items, items.len() - from,
{
    let item = items[from];
    let last = from + 1 == items.len();
    let tail = if last {
        seq![Token::BracketR] + rest
    } else {
        seq![Token::Comma] + items_tokens(items, from + 1) + seq![Token::BracketR] + rest
    };
    assert(items_tokens(items, from) + seq![Token::BracketR] + rest =~= item.tokens() + tail);
    lemma_value_complete(s, st, item, tail, depth, limit);
    let read = parse_value(s, st, None, depth, limit);
    if !last {
        lemma_first_token(items[from + 1], depth, limit);
        assert(tail[1] == items[from + 1].tokens()[0]);
    }
    lemma_ends(s, read.st, Token::BracketR, tail);
    let end = end_of_collection(s, read.st, Token::BracketR);
    lemma_item_reads(s, st, None, i, depth, limit);
    if last {
        assert(tail.drop_first() =~= rest);
    } else {
        assert(tail.drop_first() =~= items_tokens(items, from + 1) + seq![Token::BracketR] + rest);
        lemma_items_complete(s, end.st, items, from + 1, rest, i + 1, depth, limit);
    }
}

/// An object that is ahead, and is not too deep, is read.
pub proof fn lemma_obj_complete(
    s: Seq<char>,
    st: State,
    fields: Seq<(Token, Json)>,
    rest: Seq<Token>,
    depth: nat,
    limit: nat,
)
    requires
        depth <= limit,
        forall|i: int|
            0 <= i < fields.len() ==> (#[trigger] fields[i]).0 is Str && fields[i].1.fits(
                depth,
                limit,
            ),
        ahead(s, st) == Some(fields_tokens(fields, 0) + seq![Token::BraceR] + rest),
    ensures
        parse_obj(s, st, None, depth, limit).res is Ok,
        ahead(s, parse_obj(s, st, None, depth, limit).st) == Some(rest),
    decreases fields, fields.len() + 1,
{
    let tokens = fields_tokens(fields, 0) + seq![Token::BraceR] + rest;
    lemma_advances(s, st, Token::BraceR, tokens);
    let empty = advance_if_tok(s, st, Token::BraceR);
    if fields.len() == 0 {
        assert(tokens.drop_first() =~= rest);
    } else {
        assert(tokens[0] == fields[0].0);
        lemma_fields_complete(s, empty.st, fields, 0, rest, depth, limit);
    }
}

/// The fields of an object that are ahead, from the `from`-th on, are
/// read.
pub proof fn lemma_fields_complete(
    s: Seq<char>,
    st: State,
    fields: Seq<(Token, Json)>,
    from: int,
    rest: Seq<Token>,
    depth: nat,
    limit: nat,
)
    requires
        0 <= from < fields.len(),
        forall|k: int|
            0 <= k < fields.len() ==> (#[trigger] fields[k]).0 is Str && fields[k].1.fits(
                depth,
                limit,
            ),
        ahead(s, st) == Some(fields_tokens(fields, from) + seq![Token::BraceR] + rest),
    ensures
        parse_fields(s, st, None, depth, limit).res is Ok,
        ahead(s, parse_fields(s, st, None, depth, limit).st) == Some(rest),
    decreases fields, fields.len() - from,
{
    let name = fields[from].0;
    let value = fields[from].1;
    let last = from + 1 == fields.len();
    let tail = if last {
        seq![Token::BraceR] + rest
    } else {
        seq![Token::Comma] + fields_tokens(fields, from + 1) + seq![Token::BraceR] + rest
    };
    assert(fields_tokens(fields, from) + seq![Token::BraceR] + rest =~= seq![name, Token::Colon]
        + value.tokens() + tail);
    if !last {
        assert(tail[1] == fields[from + 1].0);
    }
    lemma_field_complete(s, st, name, value, tail, depth, limit);
    let step = parse_field(s, st, None, depth, limit);
    lemma_field_reads(s, st, None, depth, limit);
    if last {
        assert(tail.drop_first() =~= rest);
    } else {
        assert(tail.drop_first() =~= fields_tokens(fields, from + 1) + seq![Token::BraceR] + rest);
        lemma_fields_complete(s, step.st, fields, from + 1, rest, depth, limit);
    }
}

/// A field that is ahead is read, and what follows it: with a key, a colon
/// and the tokens of a value ahead, and behind them the `}` or a comma before
/// another token, reading a field takes them.
pub proof fn lemma_field_complete(
    s: Seq<char>,
    st: State,
    name: Token,
    value: Json,
    tail: Seq<Token>,
    depth: nat,
    limit: nat,
)
    requires
        name is Str,
        value.fits(depth, limit),
        ahead(s, st) == Some(seq![name, Token::Colon] + value.tokens() + tail),
        tail.len() > 0,
        tail[0] == Token::BraceR || (tail[0] == Token::Comma && tail.len() > 1 && tail[1]
            != Token::BraceR),
    ensures
        parse_field(s, st, None, depth, limit).res == Ok::<bool, Fault>(tail[0] == Token::BraceR),
        ahead(s, parse_field(s, st, None, depth, limit).st) == Some(tail.drop_first()),
    decreases value, 1nat,
{
    let tokens = seq![name, Token::Colon] + value.tokens() + tail;
    lemma_takes(s, st, tokens);
    let key = assume_tok_str(s, st);
    let behind = tokens.drop_first();
    assert(behind[0] == Token::Colon);
    lemma_takes(s, key.st, behind);
    let colon = assume_tok_kind(s, key.st, Token::Colon);
    assert(behind.drop_first() =~= value.tokens() + tail);
    lemma_value_complete(s, colon.st, value, tail, depth, limit);
    let read = parse_value(s, colon.st, None, depth, limit);
    lemma_ends(s, read.st, Token::BraceR, tail);
}

/// The texts that are read without a schema are the JSON texts in which
/// objects nest no deeper than the bound.
pub proof fn lemma_document_reads_json(s: Seq<char>, limit: nat)
    ensures
        document(s, None, limit).res is Ok <==> is_json(s, limit),
{
    let start = State::start();
    let read = parse_value(s, start, None, 0, limit);
    lemma_value_reads(s, start, None, 0, limit);
    if document(s, None, limit).res is Ok {
        let value = lemma_value_sound(s, start, 0, limit);
        assert(value.tokens() + Seq::<Token>::empty() =~= value.tokens());
        assert(value.fits(0, limit) && stream(s, Cursor::start()) == Some(value.tokens()));
    }
    if is_json(s, limit) {
        let value = choose|value: Json| #[trigger]
            value.fits(0, limit) && stream(s, Cursor::start()) == Some(value.tokens());
        assert(value.tokens() + Seq::<Token>::empty() =~= value.tokens());
        lemma_value_complete(s, start, value, Seq::empty(), 0, limit);
        lemma_empty_stream(s, read.st.cur);
    }
}

/// A text without tokens from `cur` on ends there, but for blanks.
pub proof fn lemma_empty_stream(s: Seq<char>, cur: Cursor)
    ensures
        stream(s, cur) == Some(Seq::<Token>::empty()) <==> lex(s, cur).out is End,
{
    match lex(s, cur).out {
        Lexed::Token(tok) => {
            match stream(s, lex(s, cur).cur) {
                Some(rest) => {
                    assert((seq![tok] + rest).len() > 0);
                },
                None => {},
            }
        },
        _ => {},
    }
}

} // verus!
