//! What holds of every reading.
//!
//! The parser is a handful of functions that call each other, and so is
//! every proof about it. There are three of them here. The first says that
//! reading moves forward, stays in the text and fills slots without changing
//! anything else of a schema. The second says that a schema changes nothing
//! about which texts are read, unless it is not met. The third says that the
//! bound on the depth of objects changes nothing unless it is reached.

use super::error::{ErrorKind, Fault};
use super::parser::{
    advance_if_tok, assume_complete, assume_tok_kind, assume_tok_str, document,
    end_of_collection, find_key, lemma_advance_if_tok_moves, lemma_end_of_collection_moves,
    lemma_next_tok_moves, next_tok, parse_array, parse_field, parse_fields, parse_item,
    parse_items, parse_obj, parse_value, peek_next_tok, Parsed, State,
};
use super::schema::{
    lemma_same_shape_cleared, lemma_same_shape_trans, same_fields, same_shapes, FieldViews,
    SchemaView,
};
use super::tokenizer::{lemma_lex_within, Token};
use vstd::prelude::*;

verus! {

/// Whether a parser is in the text by the end of a step, and has met no
/// error but in the text.
pub open spec fn in_text<T>(s: Seq<char>, st: State, res: Result<T, Fault>) -> bool {
    st.cur.within(s.len() as int) && match res {
        Ok(_) => true,
        Err(fault) => fault.within(s.len() as int),
    }
}

/// Whatever is done with tokens, a parser in the text stays in the text and
/// meets no error but in the text.
pub proof fn lemma_tokens_within(s: Seq<char>, st: State, tok: Token)
    requires
        st.cur.within(s.len() as int),
    ensures
        in_text(s, next_tok(s, st).st, next_tok(s, st).res),
        in_text(s, peek_next_tok(s, st).st, peek_next_tok(s, st).res),
        in_text(s, advance_if_tok(s, st, tok).st, advance_if_tok(s, st, tok).res),
        in_text(s, end_of_collection(s, st, tok).st, end_of_collection(s, st, tok).res),
        in_text(s, assume_tok_kind(s, st, tok).st, assume_tok_kind(s, st, tok).res),
        in_text(s, assume_tok_str(s, st).st, assume_tok_str(s, st).res),
        in_text(s, assume_complete(s, st).st, assume_complete(s, st).res),
{
    lemma_lex_within(s, st.cur);
    let comma = advance_if_tok(s, st, Token::Comma);
    lemma_lex_within(s, comma.st.cur);
}

/// Whether `after` is what reading may leave of `before`: the same schema
/// with other values in its slots, and none where there was none.
pub open spec fn kept(before: Option<SchemaView>, after: Option<SchemaView>) -> bool {
    match (before, after) {
        (Some(a), Some(b)) => a.same_shape(b),
        (None, None) => true,
        _ => false,
    }
}

/// Whether `after` is what reading may leave of the schemas `before`.
pub open spec fn kept_items(
    before: Option<Seq<SchemaView>>,
    after: Option<Seq<SchemaView>>,
) -> bool {
    match (before, after) {
        (Some(a), Some(b)) => same_shapes(a, b),
        (None, None) => true,
        _ => false,
    }
}

/// Whether `after` is what reading may leave of the keys and schemas
/// `before`.
pub open spec fn kept_fields(
    before: Option<FieldViews>,
    after: Option<FieldViews>,
) -> bool {
    match (before, after) {
        (Some(a), Some(b)) => same_fields(a, b),
        (None, None) => true,
        _ => false,
    }
}

/// A key that is found is found among the fields.
pub proof fn lemma_find_key_bounds(fields: FieldViews, key: Seq<char>, from: int)
    requires
        0 <= from,
    ensures
        find_key(fields, key, from) matches Some(i) ==> from <= i < fields.len() && fields[i].0
            == key,
    decreases fields.len() - from,
{
    if from < fields.len() && fields[from].0 != key {
        lemma_find_key_bounds(fields, key, from + 1);
    }
}

/// Reading a value never leaves more to take, and leaves less unless it
/// fails; it stays in the text and meets no error but in the text; and it
/// changes nothing of a schema but what its slots hold.
pub proof fn lemma_value_reads(
    s: Seq<char>,
    st: State,
    desc: Option<SchemaView>,
    depth: nat,
    limit: nat,
)
    ensures
        ({
            let read = parse_value(s, st, desc, depth, limit);
            &&& read.st.left(s) <= st.left(s)
            &&& read.res is Ok ==> read.st.left(s) < st.left(s) && read.st.peek is None
            &&& st.cur.within(s.len() as int) ==> in_text(s, read.st, read.res)
            &&& kept(desc, read.desc)
        }),
    decreases st.left(s), 0nat,
{
    lemma_next_tok_moves(s, st);
    if st.cur.within(s.len() as int) {
        lemma_tokens_within(s, st, Token::Comma);
    }
    if desc is Some {
        lemma_same_shape_cleared(desc->0);
    }
    let taken = next_tok(s, st);
    match taken.res {
        Err(_) => {},
        Ok(tok) => match tok {
            Token::BraceL => match desc {
                Some(SchemaView::Object(fields)) => {
                    lemma_obj_reads(s, taken.st, Some(fields), depth + 1, limit);
                },
                None => {
                    lemma_obj_reads(s, taken.st, None, depth + 1, limit);
                },
                _ => {},
            },
            Token::BracketL => match desc {
                Some(SchemaView::Array(items)) => {
                    lemma_array_reads(s, taken.st, Some(items), depth, limit);
                },
                None => {
                    lemma_array_reads(s, taken.st, None, depth, limit);
                },
                _ => {},
            },
            _ => {},
        },
    }
}

/// Reading an object never leaves more to take, and leaves less unless it
/// fails; it stays in the text and meets no error but in the text; and it
/// changes nothing of a schema but what its slots hold.
pub proof fn lemma_obj_reads(
    s: Seq<char>,
    st: State,
    fields: Option<FieldViews>,
    depth: nat,
    limit: nat,
)
    ensures
        ({
            let read = parse_obj(s, st, fields, depth, limit);
            &&& read.st.left(s) <= st.left(s)
            &&& read.res is Ok ==> read.st.left(s) < st.left(s) && read.st.peek is None
            &&& st.cur.within(s.len() as int) ==> in_text(s, read.st, read.res)
            &&& kept_fields(fields, read.desc)
        }),
    decreases st.left(s), 3nat,
{
    if st.cur.within(s.len() as int) {
        lemma_tokens_within(s, st, Token::BraceR);
    }
    if fields is Some {
        lemma_same_shape_cleared(SchemaView::Object(fields->0));
    }
    if depth <= limit {
        lemma_advance_if_tok_moves(s, st, Token::BraceR);
        let empty = advance_if_tok(s, st, Token::BraceR);
        if empty.res == Ok::<bool, Fault>(false) {
            lemma_fields_read(s, empty.st, fields, depth, limit);
        }
    }
}

/// Reading a field and what follows it never leaves more to take, and
/// leaves less unless it fails; it stays in the text and meets no error but in the text; and it
/// changes nothing of a schema but what its slots hold.
pub proof fn lemma_field_reads(
    s: Seq<char>,
    st: State,
    fields: Option<FieldViews>,
    depth: nat,
    limit: nat,
)
    ensures
        ({
            let read = parse_field(s, st, fields, depth, limit);
            &&& read.st.left(s) <= st.left(s)
            &&& read.res is Ok ==> read.st.left(s) < st.left(s)
            &&& read.res == Ok::<bool, Fault>(true) ==> read.st.peek is None
            &&& st.cur.within(s.len() as int) ==> in_text(s, read.st, read.res)
            &&& kept_fields(fields, read.desc)
        }),
    decreases st.left(s), 1nat,
{
    lemma_next_tok_moves(s, st);
    if st.cur.within(s.len() as int) {
        lemma_tokens_within(s, st, Token::Colon);
    }
    if fields is Some {
        lemma_same_shape_cleared(SchemaView::Object(fields->0));
    }
    let key = assume_tok_str(s, st);
    match key.res {
        Err(_) => {},
        Ok((start, end)) => {
            lemma_next_tok_moves(s, key.st);
            if key.st.cur.within(s.len() as int) {
                lemma_tokens_within(s, key.st, Token::Colon);
            }
            let colon = assume_tok_kind(s, key.st, Token::Colon);
            match colon.res {
                Err(_) => {},
                Ok(_) => {
                    let at = match fields {
                        Some(fields) => find_key(fields, s.subrange(start as int, end as int), 0),
                        None => None,
                    };
                    let desc = match at {
                        Some(i) => Some(fields->0[i].1),
                        None => None,
                    };
                    lemma_value_reads(s, colon.st, desc, depth, limit);
                    let read = parse_value(s, colon.st, desc, depth, limit);
                    lemma_end_of_collection_moves(s, read.st, Token::BraceR);
                    if read.st.cur.within(s.len() as int) {
                        lemma_tokens_within(s, read.st, Token::BraceR);
                    }
                    if at is Some {
                        lemma_find_key_bounds(fields->0, s.subrange(start as int, end as int), 0);
                    }
                },
            }
        },
    }
}

/// Reading the fields of an object never leaves more to take, and leaves
/// less unless it fails; it stays in the text and meets no error but in the text; and it
/// changes nothing of a schema but what its slots hold.
pub proof fn lemma_fields_read(
    s: Seq<char>,
    st: State,
    fields: Option<FieldViews>,
    depth: nat,
    limit: nat,
)
    ensures
        ({
            let read = parse_fields(s, st, fields, depth, limit);
            &&& read.st.left(s) <= st.left(s)
            &&& read.res is Ok ==> read.st.left(s) < st.left(s) && read.st.peek is None
            &&& st.cur.within(s.len() as int) ==> in_text(s, read.st, read.res)
            &&& kept_fields(fields, read.desc)
        }),
    decreases st.left(s), 2nat,
{
    lemma_field_reads(s, st, fields, depth, limit);
    let step = parse_field(s, st, fields, depth, limit);
    if step.res == Ok::<bool, Fault>(false) && step.st.left(s) < st.left(s) {
        lemma_fields_read(s, step.st, step.desc, depth, limit);
        if fields is Some {
            lemma_same_shape_trans(
                SchemaView::Object(fields->0),
                SchemaView::Object(step.desc->0),
                SchemaView::Object(parse_fields(s, st, fields, depth, limit).desc->0),
            );
        }
    }
}

/// Reading an array never leaves more to take, and leaves less unless it
/// fails; it stays in the text and meets no error but in the text; and it
/// changes nothing of a schema but what its slots hold.
pub proof fn lemma_array_reads(
    s: Seq<char>,
    st: State,
    items: Option<Seq<SchemaView>>,
    depth: nat,
    limit: nat,
)
    ensures
        ({
            let read = parse_array(s, st, items, depth, limit);
            &&& read.st.left(s) <= st.left(s)
            &&& read.res is Ok ==> read.st.left(s) < st.left(s) && read.st.peek is None
            &&& st.cur.within(s.len() as int) ==> in_text(s, read.st, read.res)
            &&& kept_items(items, read.desc)
        }),
    decreases st.left(s), 3nat,
{
    if st.cur.within(s.len() as int) {
        lemma_tokens_within(s, st, Token::BracketR);
    }
    if items is Some {
        lemma_same_shape_cleared(SchemaView::Array(items->0));
    }
    lemma_advance_if_tok_moves(s, st, Token::BracketR);
    let empty = advance_if_tok(s, st, Token::BracketR);
    if empty.res == Ok::<bool, Fault>(false) {
        lemma_items_read(s, empty.st, items, 0, depth, limit);
    }
}

/// Reading an element and what follows it never leaves more to take, and
/// leaves less unless it fails; it stays in the text and meets no error but in the text; and it
/// changes nothing of a schema but what its slots hold.
pub proof fn lemma_item_reads(
    s: Seq<char>,
    st: State,
    items: Option<Seq<SchemaView>>,
    i: nat,
    depth: nat,
    limit: nat,
)
    ensures
        ({
            let read = parse_item(s, st, items, i, depth, limit);
            &&& read.st.left(s) <= st.left(s)
            &&& read.res is Ok ==> read.st.left(s) < st.left(s)
            &&& read.res == Ok::<bool, Fault>(true) ==> read.st.peek is None
            &&& st.cur.within(s.len() as int) ==> in_text(s, read.st, read.res)
            &&& kept_items(items, read.desc)
        }),
    decreases st.left(s), 1nat,
{
    if items is Some {
        lemma_same_shape_cleared(SchemaView::Array(items->0));
    }
    if !(items is Some && i >= items->0.len()) {
        let desc = match items {
            Some(items) => Some(items[i as int]),
            None => None,
        };
        lemma_value_reads(s, st, desc, depth, limit);
        let read = parse_value(s, st, desc, depth, limit);
        lemma_end_of_collection_moves(s, read.st, Token::BracketR);
        if read.st.cur.within(s.len() as int) {
            lemma_tokens_within(s, read.st, Token::BracketR);
        }
    }
}

/// Reading the elements of an array never leaves more to take, and leaves
/// less unless it fails; it stays in the text and meets no error but in the text; and it
/// changes nothing of a schema but what its slots hold.
pub proof fn lemma_items_read(
    s: Seq<char>,
    st: State,
    items: Option<Seq<SchemaView>>,
    i: nat,
    depth: nat,
    limit: nat,
)
    ensures
        ({
            let read = parse_items(s, st, items, i, depth, limit);
            &&& read.st.left(s) <= st.left(s)
            &&& read.res is Ok ==> read.st.left(s) < st.left(s) && read.st.peek is None
            &&& st.cur.within(s.len() as int) ==> in_text(s, read.st, read.res)
            &&& kept_items(items, read.desc)
        }),
    decreases st.left(s), 2nat,
{
    lemma_item_reads(s, st, items, i, depth, limit);
    let step = parse_item(s, st, items, i, depth, limit);
    if step.res == Ok::<bool, Fault>(false) && step.st.left(s) < st.left(s) {
        lemma_items_read(s, step.st, step.desc, i + 1, depth, limit);
        if items is Some {
            lemma_same_shape_trans(
                SchemaView::Array(items->0),
                SchemaView::Array(step.desc->0),
                SchemaView::Array(parse_items(s, st, items, i, depth, limit).desc->0),
            );
        }
    }
}

/// The fields of an object are read one after the other: after a field
/// that a comma follows, the rest is read from where that field ended.
pub proof fn lemma_fields_unfold(
    s: Seq<char>,
    st: State,
    fields: Option<FieldViews>,
    depth: nat,
    limit: nat,
)
    ensures
        parse_fields(s, st, fields, depth, limit) == ({
            let step = parse_field(s, st, fields, depth, limit);
            match step.res {
                Err(fault) => Parsed { st: step.st, desc: step.desc, res: Err(fault) },
                Ok(true) => Parsed { st: step.st, desc: step.desc, res: Ok(()) },
                Ok(false) => parse_fields(s, step.st, step.desc, depth, limit),
            }
        }),
{
    lemma_field_reads(s, st, fields, depth, limit);
}

/// The elements of an array are read one after the other: after an
/// element that a comma follows, the rest is read from where that element
/// ended.
pub proof fn lemma_items_unfold(
    s: Seq<char>,
    st: State,
    items: Option<Seq<SchemaView>>,
    i: nat,
    depth: nat,
    limit: nat,
)
    ensures
        parse_items(s, st, items, i, depth, limit) == ({
            let step = parse_item(s, st, items, i, depth, limit);
            match step.res {
                Err(fault) => Parsed { st: step.st, desc: step.desc, res: Err(fault) },
                Ok(true) => Parsed { st: step.st, desc: step.desc, res: Ok(()) },
                Ok(false) => parse_items(s, step.st, step.desc, i + 1, depth, limit),
            }
        }),
{
    lemma_item_reads(s, st, items, i, depth, limit);
}

/// Reading a text into a schema changes nothing of the schema but what its
/// slots hold, whether the text is accepted or not.
pub proof fn lemma_document_keeps_shape(s: Seq<char>, desc: SchemaView, limit: nat)
    ensures
        document(s, Some(desc), limit).desc is Some,
        desc.same_shape(document(s, Some(desc), limit).desc->0),
{
    lemma_value_reads(s, State::start(), Some(desc), 0, limit);
}

/// An error is met in the text: on one of its lines, behind some of its
/// characters.
pub proof fn lemma_document_within(s: Seq<char>, desc: Option<SchemaView>, limit: nat)
    ensures
        document(s, desc, limit).res matches Err(fault) ==> fault.within(s.len() as int),
{
    lemma_value_reads(s, State::start(), desc, 0, limit);
    lemma_tokens_within(s, parse_value(s, State::start(), desc, 0, limit).st, Token::Comma);
}

/// Whether a reading against a schema and one against none tell the same,
/// as far as a schema lets them: they end alike, or the schema was not met.
///
/// A schema is not met by a value of another kind, or by an array that is
/// longer than it.
pub open spec fn alike<T>(
    with: (State, Result<T, Fault>),
    without: (State, Result<T, Fault>),
) -> bool {
    match with.1 {
        Ok(_) => with == without,
        Err(fault) => with == without || fault.kind == ErrorKind::MismatchedTypes || fault.kind
            == ErrorKind::InsufficientArrayLength,
    }
}

/// A schema changes nothing about which values are read: a value is read
/// against a schema as it is against none, unless the schema is not met.
pub proof fn lemma_value_alike(
    s: Seq<char>,
    st: State,
    desc: Option<SchemaView>,
    depth: nat,
    limit: nat,
)
    ensures
        ({
            let with = parse_value(s, st, desc, depth, limit);
            let without = parse_value(s, st, None, depth, limit);
            alike((with.st, with.res), (without.st, without.res))
        }),
    decreases st.left(s), 0nat,
{
    lemma_next_tok_moves(s, st);
    let taken = next_tok(s, st);
    match taken.res {
        Err(_) => {},
        Ok(tok) => match tok {
            Token::BraceL => match desc {
                Some(SchemaView::Object(fields)) => {
                    lemma_obj_alike(s, taken.st, Some(fields), depth + 1, limit);
                },
                _ => {},
            },
            Token::BracketL => match desc {
                Some(SchemaView::Array(items)) => {
                    lemma_array_alike(s, taken.st, Some(items), depth, limit);
                },
                _ => {},
            },
            _ => {},
        },
    }
}

/// An object is read against a schema as it is against none, unless the
/// schema is not met.
pub proof fn lemma_obj_alike(
    s: Seq<char>,
    st: State,
    fields: Option<FieldViews>,
    depth: nat,
    limit: nat,
)
    ensures
        ({
            let with = parse_obj(s, st, fields, depth, limit);
            let without = parse_obj(s, st, None, depth, limit);
            alike((with.st, with.res), (without.st, without.res))
        }),
    decreases st.left(s), 3nat,
{
    if depth <= limit {
        lemma_advance_if_tok_moves(s, st, Token::BraceR);
        let empty = advance_if_tok(s, st, Token::BraceR);
        if empty.res == Ok::<bool, Fault>(false) {
            lemma_fields_alike(s, empty.st, fields, depth, limit);
        }
    }
}

/// A field is read against a schema as it is against none, unless the
/// schema is not met.
pub proof fn lemma_field_alike(
    s: Seq<char>,
    st: State,
    fields: Option<FieldViews>,
    depth: nat,
    limit: nat,
)
    ensures
        ({
            let with = parse_field(s, st, fields, depth, limit);
            let without = parse_field(s, st, None, depth, limit);
            alike((with.st, with.res), (without.st, without.res))
        }),
    decreases st.left(s), 1nat,
{
    lemma_next_tok_moves(s, st);
    let key = assume_tok_str(s, st);
    match key.res {
        Err(_) => {},
        Ok((start, end)) => {
            lemma_next_tok_moves(s, key.st);
            let colon = assume_tok_kind(s, key.st, Token::Colon);
            match colon.res {
                Err(_) => {},
                Ok(_) => {
                    let at = match fields {
                        Some(fields) => find_key(fields, s.subrange(start as int, end as int), 0),
                        None => None,
                    };
                    let desc = match at {
                        Some(i) => Some(fields->0[i].1),
                        None => None,
                    };
                    lemma_value_alike(s, colon.st, desc, depth, limit);
                },
            }
        },
    }
}

/// The fields of an object are read against a schema as they are against
/// none, unless the schema is not met.
pub proof fn lemma_fields_alike(
    s: Seq<char>,
    st: State,
    fields: Option<FieldViews>,
    depth: nat,
    limit: nat,
)
    ensures
        ({
            let with = parse_fields(s, st, fields, depth, limit);
            let without = parse_fields(s, st, None, depth, limit);
            alike((with.st, with.res), (without.st, without.res))
        }),
    decreases st.left(s), 2nat,
{
    lemma_field_alike(s, st, fields, depth, limit);
    lemma_field_reads(s, st, fields, depth, limit);
    let step = parse_field(s, st, fields, depth, limit);
    if step.res == Ok::<bool, Fault>(false) && step.st.left(s) < st.left(s) {
        lemma_fields_alike(s, step.st, step.desc, depth, limit);
    }
}

/// An array is read against a schema as it is against none, unless the
/// schema is not met.
pub proof fn lemma_array_alike(
    s: Seq<char>,
    st: State,
    items: Option<Seq<SchemaView>>,
    depth: nat,
    limit: nat,
)
    ensures
        ({
            let with = parse_array(s, st, items, depth, limit);
            let without = parse_array(s, st, None, depth, limit);
            alike((with.st, with.res), (without.st, without.res))
        }),
    decreases st.left(s), 3nat,
{
    lemma_advance_if_tok_moves(s, st, Token::BracketR);
    let empty = advance_if_tok(s, st, Token::BracketR);
    if empty.res == Ok::<bool, Fault>(false) {
        lemma_items_alike(s, empty.st, items, 0, 0, depth, limit);
    }
}

/// An element is read against a schema as it is against none, unless the
/// schema is not met. Against none it does not matter which element it is.
pub proof fn lemma_item_alike(
    s: Seq<char>,
    st: State,
    items: Option<Seq<SchemaView>>,
    i: nat,
    j: nat,
    depth: nat,
    limit: nat,
)
    ensures
        ({
            let with = parse_item(s, st, items, i, depth, limit);
            let without = parse_item(s, st, None, j, depth, limit);
            alike((with.st, with.res), (without.st, without.res))
        }),
    decreases st.left(s), 1nat,
{
    if !(items is Some && i >= items->0.len()) {
        let desc = match items {
            Some(items) => Some(items[i as int]),
            None => None,
        };
        lemma_value_alike(s, st, desc, depth, limit);
    }
}

/// The elements of an array are read against a schema as they are against
/// none, unless the schema is not met. Against none it does not matter which
/// element is the first.
pub proof fn lemma_items_alike(
    s: Seq<char>,
    st: State,
    items: Option<Seq<SchemaView>>,
    i: nat,
    j: nat,
    depth: nat,
    limit: nat,
)
    ensures
        ({
            let with = parse_items(s, st, items, i, depth, limit);
            let without = parse_items(s, st, None, j, depth, limit);
            alike((with.st, with.res), (without.st, without.res))
        }),
    decreases st.left(s), 2nat,
{
    lemma_item_alike(s, st, items, i, j, depth, limit);
    lemma_item_reads(s, st, items, i, depth, limit);
    let step = parse_item(s, st, items, i, depth, limit);
    if step.res == Ok::<bool, Fault>(false) && step.st.left(s) < st.left(s) {
        lemma_items_alike(s, step.st, step.desc, i + 1, j + 1, depth, limit);
    }
}

/// A text that is read into a schema is valid: whatever the schema, a text
/// is read against it as it is against none, unless the schema is not met.
pub proof fn lemma_document_alike(s: Seq<char>, desc: SchemaView, limit: nat)
    ensures
        document(s, Some(desc), limit).res is Ok ==> document(s, None, limit).res is Ok,
        document(s, Some(desc), limit).res == document(s, None, limit).res || ({
            let fault = document(s, Some(desc), limit).res->Err_0;
            &&& document(s, Some(desc), limit).res is Err
            &&& fault.kind == ErrorKind::MismatchedTypes || fault.kind
                == ErrorKind::InsufficientArrayLength
        }),
{
    lemma_value_alike(s, State::start(), Some(desc), 0, limit);
}

/// Whether a reading ended at the bound on the depth of objects.
pub open spec fn at_bound<T>(res: Result<T, Fault>) -> bool {
    match res {
        Ok(_) => false,
        Err(fault) => fault.kind == ErrorKind::MaxDepthExceeded,
    }
}

/// A value that is read without reaching the bound on the depth of objects
/// is read alike with any higher bound.
pub proof fn lemma_value_deeper(
    s: Seq<char>,
    st: State,
    desc: Option<SchemaView>,
    depth: nat,
    limit: nat,
    more: nat,
)
    requires
        limit <= more,
    ensures
        ({
            let read = parse_value(s, st, desc, depth, limit);
            !at_bound(read.res) ==> parse_value(s, st, desc, depth, more) == read
        }),
    decreases st.left(s), 0nat,
{
    lemma_next_tok_moves(s, st);
    let taken = next_tok(s, st);
    match taken.res {
        Err(_) => {},
        Ok(tok) => match tok {
            Token::BraceL => match desc {
                Some(SchemaView::Object(fields)) => {
                    lemma_obj_deeper(s, taken.st, Some(fields), depth + 1, limit, more);
                },
                None => {
                    lemma_obj_deeper(s, taken.st, None, depth + 1, limit, more);
                },
                _ => {},
            },
            Token::BracketL => match desc {
                Some(SchemaView::Array(items)) => {
                    lemma_array_deeper(s, taken.st, Some(items), depth, limit, more);
                },
                None => {
                    lemma_array_deeper(s, taken.st, None, depth, limit, more);
                },
                _ => {},
            },
            _ => {},
        },
    }
}

/// An object that is read without reaching the bound is read alike with
/// any higher bound.
pub proof fn lemma_obj_deeper(
    s: Seq<char>,
    st: State,
    fields: Option<FieldViews>,
    depth: nat,
    limit: nat,
    more: nat,
)
    requires
        limit <= more,
    ensures
        ({
            let read = parse_obj(s, st, fields, depth, limit);
            !at_bound(read.res) ==> parse_obj(s, st, fields, depth, more) == read
        }),
    decreases st.left(s), 3nat,
{
    if depth <= limit {
        lemma_advance_if_tok_moves(s, st, Token::BraceR);
        let empty = advance_if_tok(s, st, Token::BraceR);
        if empty.res == Ok::<bool, Fault>(false) {
            lemma_fields_deeper(s, empty.st, fields, depth, limit, more);
        }
    }
}

/// A field that is read without reaching the bound is read alike with any
/// higher bound.
pub proof fn lemma_field_deeper(
    s: Seq<char>,
    st: State,
    fields: Option<FieldViews>,
    depth: nat,
    limit: nat,
    more: nat,
)
    requires
        limit <= more,
    ensures
        ({
            let read = parse_field(s, st, fields, depth, limit);
            !at_bound(read.res) ==> parse_field(s, st, fields, depth, more) == read
        }),
    decreases st.left(s), 1nat,
{
    lemma_next_tok_moves(s, st);
    let key = assume_tok_str(s, st);
    match key.res {
        Err(_) => {},
        Ok((start, end)) => {
            lemma_next_tok_moves(s, key.st);
            let colon = assume_tok_kind(s, key.st, Token::Colon);
            match colon.res {
                Err(_) => {},
                Ok(_) => {
                    let at = match fields {
                        Some(fields) => find_key(fields, s.subrange(start as int, end as int), 0),
                        None => None,
                    };
                    let desc = match at {
                        Some(i) => Some(fields->0[i].1),
                        None => None,
                    };
                    lemma_value_deeper(s, colon.st, desc, depth, limit, more);
                },
            }
        },
    }
}

/// Fields that are read without reaching the bound are read alike with any
/// higher bound.
pub proof fn lemma_fields_deeper(
    s: Seq<char>,
    st: State,
    fields: Option<FieldViews>,
    depth: nat,
    limit: nat,
    more: nat,
)
    requires
        limit <= more,
    ensures
        ({
            let read = parse_fields(s, st, fields, depth, limit);
            !at_bound(read.res) ==> parse_fields(s, st, fields, depth, more) == read
        }),
    decreases st.left(s), 2nat,
{
    lemma_field_deeper(s, st, fields, depth, limit, more);
    lemma_field_reads(s, st, fields, depth, limit);
    let step = parse_field(s, st, fields, depth, limit);
    if step.res == Ok::<bool, Fault>(false) && step.st.left(s) < st.left(s) {
        lemma_fields_deeper(s, step.st, step.desc, depth, limit, more);
    }
}

/// An array that is read without reaching the bound is read alike with any
/// higher bound.
pub proof fn lemma_array_deeper(
    s: Seq<char>,
    st: State,
    items: Option<Seq<SchemaView>>,
    depth: nat,
    limit: nat,
    more: nat,
)
    requires
        limit <= more,
    ensures
        ({
            let read = parse_array(s, st, items, depth, limit);
            !at_bound(read.res) ==> parse_array(s, st, items, depth, more) == read
        }),
    decreases st.left(s), 3nat,
{
    lemma_advance_if_tok_moves(s, st, Token::BracketR);
    let empty = advance_if_tok(s, st, Token::BracketR);
    if empty.res == Ok::<bool, Fault>(false) {
        lemma_items_deeper(s, empty.st, items, 0, depth, limit, more);
    }
}

/// An element that is read without reaching the bound is read alike with
/// any higher bound.
pub proof fn lemma_item_deeper(
    s: Seq<char>,
    st: State,
    items: Option<Seq<SchemaView>>,
    i: nat,
    depth: nat,
    limit: nat,
    more: nat,
)
    requires
        limit <= more,
    ensures
        ({
            let read = parse_item(s, st, items, i, depth, limit);
            !at_bound(read.res) ==> parse_item(s, st, items, i, depth, more) == read
        }),
    decreases st.left(s), 1nat,
{
    if !(items is Some && i >= items->0.len()) {
        let desc = match items {
            Some(items) => Some(items[i as int]),
            None => None,
        };
        lemma_value_deeper(s, st, desc, depth, limit, more);
    }
}

/// Elements that are read without reaching the bound are read alike with
/// any higher bound.
pub proof fn lemma_items_deeper(
    s: Seq<char>,
    st: State,
    items: Option<Seq<SchemaView>>,
    i: nat,
    depth: nat,
    limit: nat,
    more: nat,
)
    requires
        limit <= more,
    ensures
        ({
            let read = parse_items(s, st, items, i, depth, limit);
            !at_bound(read.res) ==> parse_items(s, st, items, i, depth, more) == read
        }),
    decreases st.left(s), 2nat,
{
    lemma_item_deeper(s, st, items, i, depth, limit, more);
    lemma_item_reads(s, st, items, i, depth, limit);
    let step = parse_item(s, st, items, i, depth, limit);
    if step.res == Ok::<bool, Fault>(false) && step.st.left(s) < st.left(s) {
        lemma_items_deeper(s, step.st, step.desc, i + 1, depth, limit, more);
    }
}

/// Raising the bound on the depth of objects changes what a text gives only
/// if the reading ended at the bound.
pub proof fn lemma_document_deeper(s: Seq<char>, desc: Option<SchemaView>, limit: nat, more: nat)
    requires
        limit <= more,
    ensures
        !at_bound(document(s, desc, limit).res) ==> document(s, desc, more) == document(
            s,
            desc,
            limit,
        ),
{
    lemma_value_deeper(s, State::start(), desc, 0, limit, more);
}

} // verus!
