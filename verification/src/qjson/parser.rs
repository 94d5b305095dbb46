//! From tokens to filled slots.
//!
//! [`document`] says what reading a text against a schema gives: the schema
//! with its slots filled as far as the reading came, and the first error if
//! there was one. [`Parser`] does the reading.

use super::error::{agrees, Error, ErrorKind, Fault};
use super::grammar::{is_json, lemma_document_reads_json};
use super::laws::{lemma_document_alike, lemma_document_keeps_shape, lemma_document_within};
use super::schema::{
    clear_fields, clear_items, cleared_fields, cleared_items, field_views, item_views,
    lemma_field_views_update, lemma_item_views_update, FieldViews, Fields, Number, NumberView,
    Schema, SchemaView,
};
use super::tokenizer::{lemma_lex_moves, lex, Cursor, Lexed, Token, Tokenizer};
use crate::text::slice;
use vstd::prelude::*;

verus! {

/// Where a parser is: where its reader is, and the token that it has read
/// ahead, if any.
pub struct State {
    pub cur: Cursor,
    pub peek: Option<Token>,
}

impl State {
    /// Before the first character, with nothing read ahead.
    pub open spec fn start() -> State {
        State { cur: Cursor::start(), peek: None }
    }

    /// How much there is left to take: the characters not read yet, and the
    /// token read ahead.
    pub open spec fn left(self, s: Seq<char>) -> nat {
        let unread = if 0 <= self.cur.pos <= s.len() {
            s.len() - self.cur.pos
        } else {
            0
        };
        let ahead: int = if self.peek is Some {
            1
        } else {
            0
        };
        (unread + ahead) as nat
    }
}

/// What a step of the parser gives, and where the parser is by then.
pub struct Taken<T> {
    pub st: State,
    pub res: Result<T, Fault>,
}

/// Takes the next token: the one read ahead if there is one. The end of
/// the text is an error here.
pub open spec fn next_tok(s: Seq<char>, st: State) -> Taken<Token> {
    match st.peek {
        Some(tok) => Taken { st: State { cur: st.cur, peek: None }, res: Ok(tok) },
        None => {
            let step = lex(s, st.cur);
            let after = State { cur: step.cur, peek: None };
            match step.out {
                Lexed::Token(tok) => Taken { st: after, res: Ok(tok) },
                Lexed::Fault(kind) => Taken { st: after, res: Err(step.cur.fault(kind)) },
                Lexed::End => Taken {
                    st: after,
                    res: Err(step.cur.fault(ErrorKind::UnexpectedEof)),
                },
            }
        },
    }
}

/// Looks at the next token and keeps it as read ahead.
pub open spec fn peek_next_tok(s: Seq<char>, st: State) -> Taken<Token> {
    match st.peek {
        Some(tok) => Taken { st, res: Ok(tok) },
        None => {
            let taken = next_tok(s, st);
            match taken.res {
                Ok(tok) => Taken { st: State { cur: taken.st.cur, peek: Some(tok) }, res: Ok(tok) },
                Err(fault) => taken,
            }
        },
    }
}

/// Takes the next token if it is `tok`, and says whether it was.
pub open spec fn advance_if_tok(s: Seq<char>, st: State, tok: Token) -> Taken<bool> {
    let seen = peek_next_tok(s, st);
    match seen.res {
        Ok(next) => if next == tok {
            Taken { st: State { cur: seen.st.cur, peek: None }, res: Ok(true) }
        } else {
            Taken { st: seen.st, res: Ok(false) }
        },
        Err(fault) => Taken { st: seen.st, res: Err(fault) },
    }
}

/// Reads what follows a value of a collection that `closing` ends, and says
/// whether the collection has ended: either a comma, or `closing`, and not
/// both.
pub open spec fn end_of_collection(s: Seq<char>, st: State, closing: Token) -> Taken<bool> {
    let comma = advance_if_tok(s, st, Token::Comma);
    match comma.res {
        Err(fault) => Taken { st: comma.st, res: Err(fault) },
        Ok(more) => {
            let end = advance_if_tok(s, comma.st, closing);
            match end.res {
                Err(fault) => Taken { st: end.st, res: Err(fault) },
                Ok(ended) => Taken {
                    st: end.st,
                    res: if more && ended {
                        Err(end.st.cur.fault(ErrorKind::UnexpectedTrailingComma))
                    } else if !more && !ended {
                        Err(end.st.cur.fault(ErrorKind::MissingComma))
                    } else {
                        Ok(ended)
                    },
                },
            }
        },
    }
}

/// Takes the next token, which has to be `tok`.
pub open spec fn assume_tok_kind(s: Seq<char>, st: State, tok: Token) -> Taken<()> {
    let taken = next_tok(s, st);
    match taken.res {
        Ok(next) => Taken {
            st: taken.st,
            res: if next == tok {
                Ok(())
            } else {
                Err(taken.st.cur.fault(ErrorKind::UnexpectedToken))
            },
        },
        Err(fault) => Taken { st: taken.st, res: Err(fault) },
    }
}

/// Takes the next token, which has to be a string, and gives where it
/// starts and ends.
pub open spec fn assume_tok_str(s: Seq<char>, st: State) -> Taken<(usize, usize)> {
    let taken = next_tok(s, st);
    match taken.res {
        Ok(next) => Taken {
            st: taken.st,
            res: match next {
                Token::Str { start, end } => Ok((start, end)),
                _ => Err(taken.st.cur.fault(ErrorKind::UnexpectedToken)),
            },
        },
        Err(fault) => Taken { st: taken.st, res: Err(fault) },
    }
}

/// Reads on behind the value of a text, where nothing but blanks may
/// follow.
pub open spec fn assume_complete(s: Seq<char>, st: State) -> Taken<()> {
    let step = lex(s, st.cur);
    Taken {
        st: State { cur: step.cur, peek: st.peek },
        res: if step.out is End {
            Ok(())
        } else {
            Err(step.cur.fault(ErrorKind::UnexpectedToken))
        },
    }
}

/// Taking a token leaves less to take; failing to leaves no more.
pub proof fn lemma_next_tok_moves(s: Seq<char>, st: State)
    ensures
        next_tok(s, st).st.left(s) <= st.left(s),
        next_tok(s, st).res is Ok ==> next_tok(s, st).st.left(s) < st.left(s),
        next_tok(s, st).st.peek is None,
{
    lemma_lex_moves(s, st.cur);
}

/// Looking at a token leaves no more to take.
pub proof fn lemma_peek_next_tok_moves(s: Seq<char>, st: State)
    ensures
        peek_next_tok(s, st).st.left(s) <= st.left(s),
        peek_next_tok(s, st).res is Ok ==> peek_next_tok(s, st).st.peek == Some(
            peek_next_tok(s, st).res->Ok_0,
        ),
{
    lemma_lex_moves(s, st.cur);
}

/// Taking a token if it is a given one leaves no more to take, and less if
/// it was taken.
pub proof fn lemma_advance_if_tok_moves(s: Seq<char>, st: State, tok: Token)
    ensures
        advance_if_tok(s, st, tok).st.left(s) <= st.left(s),
        advance_if_tok(s, st, tok).res == Ok::<bool, Fault>(true) ==> advance_if_tok(
            s,
            st,
            tok,
        ).st.left(s) < st.left(s) && advance_if_tok(s, st, tok).st.peek is None,
{
    lemma_peek_next_tok_moves(s, st);
}

/// Reading what follows a value leaves less to take, unless it fails.
pub proof fn lemma_end_of_collection_moves(s: Seq<char>, st: State, closing: Token)
    ensures
        end_of_collection(s, st, closing).st.left(s) <= st.left(s),
        end_of_collection(s, st, closing).res is Ok ==> end_of_collection(s, st, closing).st.left(
            s,
        ) < st.left(s),
        end_of_collection(s, st, closing).res == Ok::<bool, Fault>(true) ==> end_of_collection(
            s,
            st,
            closing,
        ).st.peek is None,
{
    lemma_advance_if_tok_moves(s, st, Token::Comma);
    let comma = advance_if_tok(s, st, Token::Comma);
    lemma_advance_if_tok_moves(s, comma.st, closing);
}

/// What the reading of a value gives: where the parser is by then, the
/// schema with its slots as they are by then, and the error if there is one.
/// Without a schema there is none afterwards.
pub struct Parsed<T> {
    pub st: State,
    pub desc: Option<T>,
    pub res: Result<(), Fault>,
}

/// The position of the first of `fields` from `from` on that has the key
/// `key`.
pub open spec fn find_key(fields: FieldViews, key: Seq<char>, from: int) -> Option<int>
    decreases fields.len() - from,
{
    if from < 0 || from >= fields.len() {
        None
    } else if fields[from].0 == key {
        Some(from)
    } else {
        find_key(fields, key, from + 1)
    }
}

/// What a scalar token does to the schema it meets.
///
/// A token that meets no schema is accepted as it is. `null` unsets
/// every slot of the schema it meets. Any other scalar fills a slot of its own
/// kind, and an integer also one for decimal numbers; met with another schema
/// it is refused. A token that starts no value is refused.
pub open spec fn assign(
    s: Seq<char>,
    desc: Option<SchemaView>,
    tok: Token,
) -> Result<Option<SchemaView>, ErrorKind> {
    match tok {
        Token::Bool(b) => match desc {
            Some(SchemaView::Bool(_)) => Ok(Some(SchemaView::Bool(Some(b)))),
            None => Ok(None),
            _ => Err(ErrorKind::MismatchedTypes),
        },
        Token::Float { start, end } => match desc {
            Some(SchemaView::Float(_)) => Ok(
                Some(
                    SchemaView::Float(
                        Some(NumberView::Decimal(s.subrange(start as int, end as int))),
                    ),
                ),
            ),
            None => Ok(None),
            _ => Err(ErrorKind::MismatchedTypes),
        },
        Token::Integer(i) => match desc {
            Some(SchemaView::Float(_)) => Ok(
                Some(SchemaView::Float(Some(NumberView::Integer(i)))),
            ),
            Some(SchemaView::Integer(_)) => Ok(Some(SchemaView::Integer(Some(i)))),
            None => Ok(None),
            _ => Err(ErrorKind::MismatchedTypes),
        },
        Token::Null => match desc {
            Some(schema) => Ok(Some(schema.cleared())),
            None => Ok(None),
        },
        Token::Str { start, end } => match desc {
            Some(SchemaView::Str(_)) => Ok(
                Some(SchemaView::Str(Some(s.subrange(start as int, end as int)))),
            ),
            None => Ok(None),
            _ => Err(ErrorKind::MismatchedTypes),
        },
        _ => Err(ErrorKind::UnexpectedToken),
    }
}

/// Reads one value at nesting depth `depth` against `desc`.
///
/// `{` starts an object one level deeper, `[` an array at the same depth,
/// each against a schema of its own kind or against none. Any other token is
/// a scalar.
pub open spec fn parse_value(
    s: Seq<char>,
    st: State,
    desc: Option<SchemaView>,
    depth: nat,
    limit: nat,
) -> Parsed<SchemaView>
    decreases st.left(s), 0nat,
{
    let taken = next_tok(s, st);
    match taken.res {
        Err(fault) => Parsed { st: taken.st, desc, res: Err(fault) },
        Ok(tok) => {
            proof {
                lemma_next_tok_moves(s, st);
            }
            let mismatch = Parsed {
                st: taken.st,
                desc,
                res: Err(taken.st.cur.fault(ErrorKind::MismatchedTypes)),
            };
            match tok {
                Token::BraceL => match desc {
                    Some(SchemaView::Object(fields)) => {
                        let read = parse_obj(s, taken.st, Some(fields), depth + 1, limit);
                        Parsed {
                            st: read.st,
                            desc: match read.desc {
                                Some(filled) => Some(SchemaView::Object(filled)),
                                None => desc,
                            },
                            res: read.res,
                        }
                    },
                    None => {
                        let read = parse_obj(s, taken.st, None, depth + 1, limit);
                        Parsed { st: read.st, desc: None, res: read.res }
                    },
                    _ => mismatch,
                },
                Token::BracketL => match desc {
                    Some(SchemaView::Array(items)) => {
                        let read = parse_array(s, taken.st, Some(items), depth, limit);
                        Parsed {
                            st: read.st,
                            desc: match read.desc {
                                Some(filled) => Some(SchemaView::Array(filled)),
                                None => desc,
                            },
                            res: read.res,
                        }
                    },
                    None => {
                        let read = parse_array(s, taken.st, None, depth, limit);
                        Parsed { st: read.st, desc: None, res: read.res }
                    },
                    _ => mismatch,
                },
                _ => match assign(s, desc, tok) {
                    Ok(filled) => Parsed { st: taken.st, desc: filled, res: Ok(()) },
                    Err(kind) => Parsed { st: taken.st, desc, res: Err(taken.st.cur.fault(kind)) },
                },
            }
        },
    }
}

/// Reads an object behind its `{`, at depth `depth`, against `fields`.
///
/// Deeper than `limit` it is refused. An empty object unsets every slot of
/// its schema.
pub open spec fn parse_obj(
    s: Seq<char>,
    st: State,
    fields: Option<FieldViews>,
    depth: nat,
    limit: nat,
) -> Parsed<FieldViews>
    decreases st.left(s), 3nat,
{
    if depth > limit {
        Parsed { st, desc: fields, res: Err(st.cur.fault(ErrorKind::MaxDepthExceeded)) }
    } else {
        let empty = advance_if_tok(s, st, Token::BraceR);
        proof {
            lemma_advance_if_tok_moves(s, st, Token::BraceR);
        }
        match empty.res {
            Err(fault) => Parsed { st: empty.st, desc: fields, res: Err(fault) },
            Ok(true) => Parsed {
                st: empty.st,
                desc: match fields {
                    Some(fields) => Some(cleared_fields(fields)),
                    None => None,
                },
                res: Ok(()),
            },
            Ok(false) => parse_fields(s, empty.st, fields, depth, limit),
        }
    }
}

/// What the reading of one member of a collection gives: where the parser
/// is by then, the schemas of the collection with their slots as they are by
/// then, and whether the collection has ended, or the error.
pub struct Stepped<T> {
    pub st: State,
    pub desc: Option<T>,
    pub res: Result<bool, Fault>,
}

/// Reads one field of an object and what follows it: a key, a colon, a
/// value, and then a comma or the `}`.
///
/// The value goes to the first schema listed under its key, and is read
/// against none if the key is not listed.
pub open spec fn parse_field(
    s: Seq<char>,
    st: State,
    fields: Option<FieldViews>,
    depth: nat,
    limit: nat,
) -> Stepped<FieldViews>
    decreases st.left(s), 1nat,
{
    let key = assume_tok_str(s, st);
    match key.res {
        Err(fault) => Stepped { st: key.st, desc: fields, res: Err(fault) },
        Ok((start, end)) => {
            let colon = assume_tok_kind(s, key.st, Token::Colon);
            match colon.res {
                Err(fault) => Stepped { st: colon.st, desc: fields, res: Err(fault) },
                Ok(_) => {
                    proof {
                        lemma_next_tok_moves(s, st);
                        lemma_next_tok_moves(s, key.st);
                    }
                    let at = match fields {
                        Some(fields) => find_key(fields, s.subrange(start as int, end as int), 0),
                        None => None,
                    };
                    let read = parse_value(
                        s,
                        colon.st,
                        match at {
                            Some(i) => Some(fields->0[i].1),
                            None => None,
                        },
                        depth,
                        limit,
                    );
                    let filled = match (at, read.desc) {
                        (Some(i), Some(value)) => Some(
                            fields->0.update(i, (fields->0[i].0, value)),
                        ),
                        _ => fields,
                    };
                    match read.res {
                        Err(fault) => Stepped { st: read.st, desc: filled, res: Err(fault) },
                        Ok(_) => {
                            let end = end_of_collection(s, read.st, Token::BraceR);
                            Stepped { st: end.st, desc: filled, res: end.res }
                        },
                    }
                },
            }
        },
    }
}

/// Reads the fields of an object up to its `}`.
///
/// Reading goes on behind a comma. It always has less left to read then
/// than before the field, so that the second case below never comes with a
/// field that a comma follows: [`lemma_fields_unfold`](super::laws::lemma_fields_unfold)
/// states the same without it.
pub open spec fn parse_fields(
    s: Seq<char>,
    st: State,
    fields: Option<FieldViews>,
    depth: nat,
    limit: nat,
) -> Parsed<FieldViews>
    decreases st.left(s), 2nat,
{
    let step = parse_field(s, st, fields, depth, limit);
    match step.res {
        Err(fault) => Parsed { st: step.st, desc: step.desc, res: Err(fault) },
        Ok(ended) => if !ended && step.st.left(s) < st.left(s) {
            parse_fields(s, step.st, step.desc, depth, limit)
        } else {
            Parsed { st: step.st, desc: step.desc, res: Ok(()) }
        },
    }
}

/// Reads an array behind its `[` against `items`. An empty array unsets
/// every slot of its schema.
pub open spec fn parse_array(
    s: Seq<char>,
    st: State,
    items: Option<Seq<SchemaView>>,
    depth: nat,
    limit: nat,
) -> Parsed<Seq<SchemaView>>
    decreases st.left(s), 3nat,
{
    let empty = advance_if_tok(s, st, Token::BracketR);
    proof {
        lemma_advance_if_tok_moves(s, st, Token::BracketR);
    }
    match empty.res {
        Err(fault) => Parsed { st: empty.st, desc: items, res: Err(fault) },
        Ok(true) => Parsed {
            st: empty.st,
            desc: match items {
                Some(items) => Some(cleared_items(items)),
                None => None,
            },
            res: Ok(()),
        },
        Ok(false) => parse_items(s, empty.st, items, 0, depth, limit),
    }
}

/// Reads the `i`-th element of an array and what follows it: a value, and
/// then a comma or the `]`.
///
/// The value goes to the `i`-th schema, and is refused if there is a schema
/// that lists fewer.
pub open spec fn parse_item(
    s: Seq<char>,
    st: State,
    items: Option<Seq<SchemaView>>,
    i: nat,
    depth: nat,
    limit: nat,
) -> Stepped<Seq<SchemaView>>
    decreases st.left(s), 1nat,
{
    if items is Some && i >= items->0.len() {
        Stepped { st, desc: items, res: Err(st.cur.fault(ErrorKind::InsufficientArrayLength)) }
    } else {
        let read = parse_value(
            s,
            st,
            match items {
                Some(items) => Some(items[i as int]),
                None => None,
            },
            depth,
            limit,
        );
        let filled = match (items, read.desc) {
            (Some(items), Some(value)) => Some(items.update(i as int, value)),
            _ => items,
        };
        match read.res {
            Err(fault) => Stepped { st: read.st, desc: filled, res: Err(fault) },
            Ok(_) => {
                let end = end_of_collection(s, read.st, Token::BracketR);
                Stepped { st: end.st, desc: filled, res: end.res }
            },
        }
    }
}

/// Reads the elements of an array from the `i`-th on up to its `]`.
///
/// Reading goes on behind a comma. It always has less left to read then
/// than before the element, so that the second case below never comes with
/// an element that a comma follows:
/// [`lemma_items_unfold`](super::laws::lemma_items_unfold) states the same
/// without it.
pub open spec fn parse_items(
    s: Seq<char>,
    st: State,
    items: Option<Seq<SchemaView>>,
    i: nat,
    depth: nat,
    limit: nat,
) -> Parsed<Seq<SchemaView>>
    decreases st.left(s), 2nat,
{
    let step = parse_item(s, st, items, i, depth, limit);
    match step.res {
        Err(fault) => Parsed { st: step.st, desc: step.desc, res: Err(fault) },
        Ok(ended) => if !ended && step.st.left(s) < st.left(s) {
            parse_items(s, step.st, step.desc, i + 1, depth, limit)
        } else {
            Parsed { st: step.st, desc: step.desc, res: Ok(()) }
        },
    }
}

/// Reads a whole text against `desc`: one value, with objects nested at
/// most `limit` deep, and nothing but blanks behind it.
pub open spec fn document(
    s: Seq<char>,
    desc: Option<SchemaView>,
    limit: nat,
) -> Parsed<SchemaView> {
    let read = parse_value(s, State::start(), desc, 0, limit);
    match read.res {
        Err(fault) => read,
        Ok(_) => {
            let rest = assume_complete(s, read.st);
            Parsed { st: rest.st, desc: read.desc, res: rest.res }
        },
    }
}

/// A parser of one text, which lets objects nest `D` deep.
pub struct Parser<'a, const D: usize> {
    src: &'a str,
    ascii: bool,
    tok: Tokenizer,
    peek: Option<Token>,
}

impl<'a, const D: usize> Parser<'a, D> {
    /// The text that is read.
    pub closed spec fn input(&self) -> Seq<char> {
        self.src@
    }

    /// Where the parser is.
    pub closed spec fn state(&self) -> State {
        State { cur: self.tok.cursor(), peek: self.peek }
    }

    /// The parser reads the text it was made for, and what it has read ahead
    /// lies in that text.
    pub closed spec fn wf(&self) -> bool {
        &&& self.tok.wf()
        &&& self.tok.input() == self.src@
        &&& self.ascii ==> self.src.is_ascii()
        &&& match self.peek {
            Some(tok) => tok.within(self.src@.len() as int),
            None => true,
        }
    }

    /// A parser at the start of `json`.
    pub fn new(json: &'a str) -> (parser: Self)
        ensures
            parser.wf(),
            parser.input() == json@,
            parser.state() == State::start(),
    {
        Parser { src: json, ascii: json.is_ascii(), tok: Tokenizer::new(json), peek: None }
    }

    /// Reads a whole text against `desc`.
    pub fn parse<'k>(&mut self, desc: Option<&mut Schema<'a, 'k>>) -> (r: Result<(), Error>)
        requires
            old(self).wf(),
            old(self).state() == State::start(),
        ensures
            ({
                let read = document(
                    old(self).input(),
                    match desc {
                        Some(d) => Some((*d)@),
                        None => None,
                    },
                    D as nat,
                );
                &&& agrees(r, read.res)
                &&& match desc {
                    Some(d) => read.desc == Some((*final(d))@),
                    None => read.desc is None,
                }
            }),
    {
        match self.parse_value(desc, 0) {
            Err(e) => Err(e),
            Ok(_) => self.assume_complete(),
        }
    }

    fn parse_value<'k>(
        &mut self,
        desc: Option<&mut Schema<'a, 'k>>,
        depth: usize,
    ) -> (r: Result<(), Error>)
        requires
            old(self).wf(),
            depth <= D,
        ensures
            final(self).wf(),
            final(self).input() == old(self).input(),
            ({
                let read = parse_value(
                    old(self).input(),
                    old(self).state(),
                    match desc {
                        Some(d) => Some((*d)@),
                        None => None,
                    },
                    depth as nat,
                    D as nat,
                );
                &&& final(self).state() == read.st
                &&& agrees(r, read.res)
                &&& match desc {
                    Some(d) => read.desc == Some((*final(d))@),
                    None => read.desc is None,
                }
            }),
            final(self).state().left(old(self).input()) <= old(self).state().left(
                old(self).input(),
            ),
            r is Ok ==> final(self).state().left(old(self).input()) < old(self).state().left(
                old(self).input(),
            ) && final(self).state().peek is None,
        decreases old(self).state().left(old(self).input()), 0nat,
    {
        proof {
            lemma_next_tok_moves(self.input(), self.state());
        }
        let tok = match self.next_tok() {
            Ok(tok) => tok,
            Err(e) => {
                return Err(e);
            },
        };
        match tok {
            Token::BraceL => match desc {
                Some(d) => match d {
                    Schema::Object(fields) => self.parse_obj(Some(fields), depth),
                    _ => Err(self.tok.err(ErrorKind::MismatchedTypes)),
                },
                None => self.parse_obj(None, depth),
            },
            Token::BracketL => match desc {
                Some(d) => match d {
                    Schema::Array(items) => self.parse_array(Some(items), depth),
                    _ => Err(self.tok.err(ErrorKind::MismatchedTypes)),
                },
                None => self.parse_array(None, depth),
            },
            _ => self.assign(desc, tok),
        }
    }

    /// Hands a scalar token to the schema it meets.
    fn assign<'k>(&self, desc: Option<&mut Schema<'a, 'k>>, tok: Token) -> (r: Result<(), Error>)
        requires
            self.wf(),
            tok.within(self.input().len() as int),
        ensures
            match assign(
                self.input(),
                match desc {
                    Some(d) => Some((*d)@),
                    None => None,
                },
                tok,
            ) {
                Ok(filled) => r is Ok && match desc {
                    Some(d) => filled == Some((*final(d))@),
                    None => filled is None,
                },
                Err(kind) => agrees(r, Err(self.state().cur.fault(kind))) && match desc {
                    Some(d) => *final(d) == *d,
                    None => true,
                },
            },
    {
        let src: &'a str = self.src;
        match tok {
            Token::Bool(b) => match desc {
                Some(d) => match d {
                    Schema::Bool(slot) => {
                        *slot = Some(b);
                        Ok(())
                    },
                    _ => Err(self.tok.err(ErrorKind::MismatchedTypes)),
                },
                None => Ok(()),
            },
            Token::Float { start, end } => match desc {
                Some(d) => match d {
                    Schema::Float(slot) => {
                        *slot = Some(Number::Decimal(slice(src, self.ascii, start, end)));
                        Ok(())
                    },
                    _ => Err(self.tok.err(ErrorKind::MismatchedTypes)),
                },
                None => Ok(()),
            },
            Token::Integer(i) => match desc {
                Some(d) => match d {
                    Schema::Float(slot) => {
                        *slot = Some(Number::Integer(i));
                        Ok(())
                    },
                    Schema::Integer(slot) => {
                        *slot = Some(i);
                        Ok(())
                    },
                    _ => Err(self.tok.err(ErrorKind::MismatchedTypes)),
                },
                None => Ok(()),
            },
            Token::Null => match desc {
                Some(d) => {
                    d.clear();
                    Ok(())
                },
                None => Ok(()),
            },
            Token::Str { start, end } => match desc {
                Some(d) => match d {
                    Schema::Str(slot) => {
                        *slot = Some(slice(src, self.ascii, start, end));
                        Ok(())
                    },
                    _ => Err(self.tok.err(ErrorKind::MismatchedTypes)),
                },
                None => Ok(()),
            },
            _ => Err(self.tok.err(ErrorKind::UnexpectedToken)),
        }
    }

    /// Reads an object behind its `{`, which stands at depth `outer`.
    fn parse_obj<'k>(
        &mut self,
        obj: Option<&mut Fields<'a, 'k>>,
        outer: usize,
    ) -> (r: Result<(), Error>)
        requires
            old(self).wf(),
            outer <= D,
        ensures
            final(self).wf(),
            final(self).input() == old(self).input(),
            ({
                let read = parse_obj(
                    old(self).input(),
                    old(self).state(),
                    match obj {
                        Some(fields) => Some(field_views(fields@)),
                        None => None,
                    },
                    (outer + 1) as nat,
                    D as nat,
                );
                &&& final(self).state() == read.st
                &&& agrees(r, read.res)
                &&& match obj {
                    Some(fields) => read.desc == Some(field_views(final(fields)@)),
                    None => read.desc is None,
                }
            }),
            final(self).state().left(old(self).input()) <= old(self).state().left(
                old(self).input(),
            ),
            r is Ok ==> final(self).state().left(old(self).input()) < old(self).state().left(
                old(self).input(),
            ) && final(self).state().peek is None,
        decreases old(self).state().left(old(self).input()), 3nat,
    {
        if outer >= D {
            return Err(self.tok.err(ErrorKind::MaxDepthExceeded));
        }
        let depth = outer + 1;
        proof {
            lemma_advance_if_tok_moves(self.input(), self.state(), Token::BraceR);
        }
        match self.advance_if_tok(Token::BraceR) {
            Err(e) => Err(e),
            Ok(true) => {
                match obj {
                    Some(fields) => {
                        clear_fields(fields);
                    },
                    None => {},
                }
                Ok(())
            },
            Ok(false) => match obj {
                Some(fields) => self.fill_fields(fields, depth),
                None => self.skip_fields(depth),
            },
        }
    }

    /// The position of the first of `fields` whose key is the text from
    /// `start` up to `end`.
    fn find_field<'k>(
        &self,
        fields: &Fields<'a, 'k>,
        start: usize,
        end: usize,
    ) -> (r: Option<usize>)
        requires
            self.wf(),
            start <= end <= self.input().len(),
        ensures
            match r {
                Some(i) => i < fields.len() && find_key(
                    field_views(fields@),
                    self.input().subrange(start as int, end as int),
                    0,
                ) == Some(i as int),
                None => find_key(
                    field_views(fields@),
                    self.input().subrange(start as int, end as int),
                    0,
                ) is None,
            },
    {
        let ghost views = field_views(fields@);
        let ghost key = self.input().subrange(start as int, end as int);
        let mut i: usize = 0;
        while i < fields.len()
            invariant
                0 <= i <= fields.len(),
                self.wf(),
                start <= end <= self.input().len(),
                views == field_views(fields@),
                key == self.input().subrange(start as int, end as int),
                find_key(views, key, i as int) == find_key(views, key, 0),
            decreases fields.len() - i,
        {
            if self.tok.spells(start, end, fields[i].0) {
                return Some(i);
            }
            i = i + 1;
        }
        None
    }

    /// Reads one field of an object into `fields`, and says whether the
    /// object has ended.
    fn fill_field<'k>(
        &mut self,
        fields: &mut Fields<'a, 'k>,
        depth: usize,
    ) -> (r: Result<bool, Error>)
        requires
            old(self).wf(),
            depth <= D,
        ensures
            final(self).wf(),
            final(self).input() == old(self).input(),
            ({
                let read = parse_field(
                    old(self).input(),
                    old(self).state(),
                    Some(field_views(old(fields)@)),
                    depth as nat,
                    D as nat,
                );
                &&& final(self).state() == read.st
                &&& agrees(r, read.res)
                &&& read.desc == Some(field_views(final(fields)@))
            }),
            final(self).state().left(old(self).input()) <= old(self).state().left(
                old(self).input(),
            ),
            r is Ok ==> final(self).state().left(old(self).input()) < old(self).state().left(
                old(self).input(),
            ),
            r == Ok::<bool, Error>(true) ==> final(self).state().peek is None,
        decreases old(self).state().left(old(self).input()), 1nat,
    {
        let ghost s = self.input();
        let ghost st = self.state();
        let ghost before = fields@;
        proof {
            lemma_next_tok_moves(s, st);
            lemma_next_tok_moves(s, assume_tok_str(s, st).st);
        }
        let (start, end) = match self.assume_tok_str() {
            Ok(span) => span,
            Err(e) => {
                return Err(e);
            },
        };
        match self.assume_tok_kind(Token::Colon) {
            Ok(_) => {},
            Err(e) => {
                return Err(e);
            },
        }
        let at = self.find_field(fields, start, end);
        let read = match at {
            Some(i) => {
                let r = self.parse_value(Some(&mut fields[i].1), depth);
                proof {
                    assert(fields@ =~= before.update(
                        i as int,
                        (before[i as int].0, fields@[i as int].1),
                    ));
                    lemma_field_views_update(before, i as int, fields@[i as int].1);
                }
                r
            },
            None => self.parse_value(None, depth),
        };
        match read {
            Ok(_) => {},
            Err(e) => {
                return Err(e);
            },
        }
        proof {
            lemma_end_of_collection_moves(s, self.state(), Token::BraceR);
        }
        self.end_of_collection(Token::BraceR)
    }

    /// Reads one field of an object that goes nowhere, and says whether the
    /// object has ended.
    fn skip_field(&mut self, depth: usize) -> (r: Result<bool, Error>)
        requires
            old(self).wf(),
            depth <= D,
        ensures
            final(self).wf(),
            final(self).input() == old(self).input(),
            ({
                let read = parse_field(
                    old(self).input(),
                    old(self).state(),
                    None,
                    depth as nat,
                    D as nat,
                );
                &&& final(self).state() == read.st
                &&& agrees(r, read.res)
                &&& read.desc is None
            }),
            final(self).state().left(old(self).input()) <= old(self).state().left(
                old(self).input(),
            ),
            r is Ok ==> final(self).state().left(old(self).input()) < old(self).state().left(
                old(self).input(),
            ),
            r == Ok::<bool, Error>(true) ==> final(self).state().peek is None,
        decreases old(self).state().left(old(self).input()), 1nat,
    {
        let ghost s = self.input();
        let ghost st = self.state();
        proof {
            lemma_next_tok_moves(s, st);
            lemma_next_tok_moves(s, assume_tok_str(s, st).st);
        }
        match self.assume_tok_str() {
            Ok(_) => {},
            Err(e) => {
                return Err(e);
            },
        }
        match self.assume_tok_kind(Token::Colon) {
            Ok(_) => {},
            Err(e) => {
                return Err(e);
            },
        }
        match self.parse_value(None, depth) {
            Ok(_) => {},
            Err(e) => {
                return Err(e);
            },
        }
        proof {
            lemma_end_of_collection_moves(s, self.state(), Token::BraceR);
        }
        self.end_of_collection(Token::BraceR)
    }

    /// Reads the fields of an object into `fields`.
    fn fill_fields<'k>(
        &mut self,
        fields: &mut Fields<'a, 'k>,
        depth: usize,
    ) -> (r: Result<(), Error>)
        requires
            old(self).wf(),
            depth <= D,
        ensures
            final(self).wf(),
            final(self).input() == old(self).input(),
            ({
                let read = parse_fields(
                    old(self).input(),
                    old(self).state(),
                    Some(field_views(old(fields)@)),
                    depth as nat,
                    D as nat,
                );
                &&& final(self).state() == read.st
                &&& agrees(r, read.res)
                &&& read.desc == Some(field_views(final(fields)@))
            }),
            final(self).state().left(old(self).input()) <= old(self).state().left(
                old(self).input(),
            ),
            r is Ok ==> final(self).state().left(old(self).input()) < old(self).state().left(
                old(self).input(),
            ) && final(self).state().peek is None,
        decreases old(self).state().left(old(self).input()), 2nat,
    {
        let ghost s = self.input();
        loop
            invariant
                self.wf(),
                self.input() == s,
                s == old(self).input(),
                depth <= D,
                parse_fields(s, self.state(), Some(field_views(fields@)), depth as nat, D as nat)
                    == parse_fields(
                    s,
                    old(self).state(),
                    Some(field_views(old(fields)@)),
                    depth as nat,
                    D as nat,
                ),
                self.state().left(s) <= old(self).state().left(s),
            decreases self.state().left(s),
        {
            match self.fill_field(fields, depth) {
                Ok(true) => {
                    return Ok(());
                },
                Ok(false) => {},
                Err(e) => {
                    return Err(e);
                },
            }
        }
    }

    /// Reads the fields of an object that go nowhere.
    fn skip_fields(&mut self, depth: usize) -> (r: Result<(), Error>)
        requires
            old(self).wf(),
            depth <= D,
        ensures
            final(self).wf(),
            final(self).input() == old(self).input(),
            ({
                let read = parse_fields(
                    old(self).input(),
                    old(self).state(),
                    None,
                    depth as nat,
                    D as nat,
                );
                &&& final(self).state() == read.st
                &&& agrees(r, read.res)
                &&& read.desc is None
            }),
            final(self).state().left(old(self).input()) <= old(self).state().left(
                old(self).input(),
            ),
            r is Ok ==> final(self).state().left(old(self).input()) < old(self).state().left(
                old(self).input(),
            ) && final(self).state().peek is None,
        decreases old(self).state().left(old(self).input()), 2nat,
    {
        let ghost s = self.input();
        loop
            invariant
                self.wf(),
                self.input() == s,
                s == old(self).input(),
                depth <= D,
                parse_fields(s, self.state(), None, depth as nat, D as nat) == parse_fields(
                    s,
                    old(self).state(),
                    None,
                    depth as nat,
                    D as nat,
                ),
                self.state().left(s) <= old(self).state().left(s),
            decreases self.state().left(s),
        {
            match self.skip_field(depth) {
                Ok(true) => {
                    return Ok(());
                },
                Ok(false) => {},
                Err(e) => {
                    return Err(e);
                },
            }
        }
    }

    /// Reads an array behind its `[`.
    fn parse_array<'k>(
        &mut self,
        arr: Option<&mut Vec<Schema<'a, 'k>>>,
        depth: usize,
    ) -> (r: Result<(), Error>)
        requires
            old(self).wf(),
            depth <= D,
        ensures
            final(self).wf(),
            final(self).input() == old(self).input(),
            ({
                let read = parse_array(
                    old(self).input(),
                    old(self).state(),
                    match arr {
                        Some(items) => Some(item_views(items@)),
                        None => None,
                    },
                    depth as nat,
                    D as nat,
                );
                &&& final(self).state() == read.st
                &&& agrees(r, read.res)
                &&& match arr {
                    Some(items) => read.desc == Some(item_views(final(items)@)),
                    None => read.desc is None,
                }
            }),
            final(self).state().left(old(self).input()) <= old(self).state().left(
                old(self).input(),
            ),
            r is Ok ==> final(self).state().left(old(self).input()) < old(self).state().left(
                old(self).input(),
            ) && final(self).state().peek is None,
        decreases old(self).state().left(old(self).input()), 3nat,
    {
        proof {
            lemma_advance_if_tok_moves(self.input(), self.state(), Token::BracketR);
        }
        match self.advance_if_tok(Token::BracketR) {
            Err(e) => Err(e),
            Ok(true) => {
                match arr {
                    Some(items) => {
                        clear_items(items);
                    },
                    None => {},
                }
                Ok(())
            },
            Ok(false) => match arr {
                Some(items) => self.fill_items(items, depth),
                None => self.skip_items(depth),
            },
        }
    }

    /// Reads the `i`-th element of an array into `items`, and says whether
    /// the array has ended.
    fn fill_item<'k>(
        &mut self,
        items: &mut Vec<Schema<'a, 'k>>,
        i: usize,
        depth: usize,
    ) -> (r: Result<bool, Error>)
        requires
            old(self).wf(),
            depth <= D,
        ensures
            final(self).wf(),
            final(self).input() == old(self).input(),
            ({
                let read = parse_item(
                    old(self).input(),
                    old(self).state(),
                    Some(item_views(old(items)@)),
                    i as nat,
                    depth as nat,
                    D as nat,
                );
                &&& final(self).state() == read.st
                &&& agrees(r, read.res)
                &&& read.desc == Some(item_views(final(items)@))
            }),
            r is Ok ==> i < old(items).len(),
            final(items).len() == old(items).len(),
            final(self).state().left(old(self).input()) <= old(self).state().left(
                old(self).input(),
            ),
            r is Ok ==> final(self).state().left(old(self).input()) < old(self).state().left(
                old(self).input(),
            ),
            r == Ok::<bool, Error>(true) ==> final(self).state().peek is None,
        decreases old(self).state().left(old(self).input()), 1nat,
    {
        let ghost s = self.input();
        let ghost before = items@;
        if i >= items.len() {
            return Err(self.tok.err(ErrorKind::InsufficientArrayLength));
        }
        let read = self.parse_value(Some(&mut items[i]), depth);
        proof {
            assert(items@ =~= before.update(i as int, items@[i as int]));
            lemma_item_views_update(before, i as int, items@[i as int]);
        }
        match read {
            Ok(_) => {},
            Err(e) => {
                return Err(e);
            },
        }
        proof {
            lemma_end_of_collection_moves(s, self.state(), Token::BracketR);
        }
        self.end_of_collection(Token::BracketR)
    }

    /// Reads an element of an array that goes nowhere, and says whether the
    /// array has ended.
    fn skip_item(&mut self, Ghost(i): Ghost<nat>, depth: usize) -> (r: Result<bool, Error>)
        requires
            old(self).wf(),
            depth <= D,
        ensures
            final(self).wf(),
            final(self).input() == old(self).input(),
            ({
                let read = parse_item(
                    old(self).input(),
                    old(self).state(),
                    None,
                    i,
                    depth as nat,
                    D as nat,
                );
                &&& final(self).state() == read.st
                &&& agrees(r, read.res)
                &&& read.desc is None
            }),
            final(self).state().left(old(self).input()) <= old(self).state().left(
                old(self).input(),
            ),
            r is Ok ==> final(self).state().left(old(self).input()) < old(self).state().left(
                old(self).input(),
            ),
            r == Ok::<bool, Error>(true) ==> final(self).state().peek is None,
        decreases old(self).state().left(old(self).input()), 1nat,
    {
        let ghost s = self.input();
        match self.parse_value(None, depth) {
            Ok(_) => {},
            Err(e) => {
                return Err(e);
            },
        }
        proof {
            lemma_end_of_collection_moves(s, self.state(), Token::BracketR);
        }
        self.end_of_collection(Token::BracketR)
    }

    /// Reads the elements of an array into `items`.
    fn fill_items<'k>(
        &mut self,
        items: &mut Vec<Schema<'a, 'k>>,
        depth: usize,
    ) -> (r: Result<(), Error>)
        requires
            old(self).wf(),
            depth <= D,
        ensures
            final(self).wf(),
            final(self).input() == old(self).input(),
            ({
                let read = parse_items(
                    old(self).input(),
                    old(self).state(),
                    Some(item_views(old(items)@)),
                    0,
                    depth as nat,
                    D as nat,
                );
                &&& final(self).state() == read.st
                &&& agrees(r, read.res)
                &&& read.desc == Some(item_views(final(items)@))
            }),
            final(self).state().left(old(self).input()) <= old(self).state().left(
                old(self).input(),
            ),
            r is Ok ==> final(self).state().left(old(self).input()) < old(self).state().left(
                old(self).input(),
            ) && final(self).state().peek is None,
        decreases old(self).state().left(old(self).input()), 2nat,
    {
        let ghost s = self.input();
        let mut i: usize = 0;
        loop
            invariant
                self.wf(),
                self.input() == s,
                s == old(self).input(),
                depth <= D,
                i <= items.len(),
                parse_items(
                    s,
                    self.state(),
                    Some(item_views(items@)),
                    i as nat,
                    depth as nat,
                    D as nat,
                ) == parse_items(
                    s,
                    old(self).state(),
                    Some(item_views(old(items)@)),
                    0,
                    depth as nat,
                    D as nat,
                ),
                self.state().left(s) <= old(self).state().left(s),
            decreases self.state().left(s),
        {
            match self.fill_item(items, i, depth) {
                Ok(true) => {
                    return Ok(());
                },
                Ok(false) => {},
                Err(e) => {
                    return Err(e);
                },
            }
            i = i + 1;
        }
    }

    /// Reads the elements of an array that go nowhere.
    fn skip_items(&mut self, depth: usize) -> (r: Result<(), Error>)
        requires
            old(self).wf(),
            depth <= D,
        ensures
            final(self).wf(),
            final(self).input() == old(self).input(),
            ({
                let read = parse_items(
                    old(self).input(),
                    old(self).state(),
                    None,
                    0,
                    depth as nat,
                    D as nat,
                );
                &&& final(self).state() == read.st
                &&& agrees(r, read.res)
                &&& read.desc is None
            }),
            final(self).state().left(old(self).input()) <= old(self).state().left(
                old(self).input(),
            ),
            r is Ok ==> final(self).state().left(old(self).input()) < old(self).state().left(
                old(self).input(),
            ) && final(self).state().peek is None,
        decreases old(self).state().left(old(self).input()), 2nat,
    {
        let ghost s = self.input();
        let ghost mut i: nat = 0;
        loop
            invariant
                self.wf(),
                self.input() == s,
                s == old(self).input(),
                depth <= D,
                parse_items(s, self.state(), None, i, depth as nat, D as nat) == parse_items(
                    s,
                    old(self).state(),
                    None,
                    0,
                    depth as nat,
                    D as nat,
                ),
                self.state().left(s) <= old(self).state().left(s),
            decreases self.state().left(s),
        {
            match self.skip_item(Ghost(i), depth) {
                Ok(true) => {
                    return Ok(());
                },
                Ok(false) => {},
                Err(e) => {
                    return Err(e);
                },
            }
            proof {
                i = i + 1;
            }
        }
    }

    fn end_of_collection(&mut self, closing: Token) -> (r: Result<bool, Error>)
        requires
            old(self).wf(),
        ensures
            final(self).wf(),
            final(self).input() == old(self).input(),
            final(self).state() == end_of_collection(
                old(self).input(),
                old(self).state(),
                closing,
            ).st,
            agrees(r, end_of_collection(old(self).input(), old(self).state(), closing).res),
            r == Ok::<bool, Error>(true) ==> final(self).state().peek is None,
    {
        proof {
            lemma_end_of_collection_moves(self.input(), self.state(), closing);
        }
        let more = match self.advance_if_tok(Token::Comma) {
            Ok(more) => more,
            Err(e) => {
                return Err(e);
            },
        };
        let ended = match self.advance_if_tok(closing) {
            Ok(ended) => ended,
            Err(e) => {
                return Err(e);
            },
        };
        if more && ended {
            Err(self.tok.err(ErrorKind::UnexpectedTrailingComma))
        } else if !more && !ended {
            Err(self.tok.err(ErrorKind::MissingComma))
        } else {
            Ok(ended)
        }
    }

    fn assume_tok_kind(&mut self, tok: Token) -> (r: Result<(), Error>)
        requires
            old(self).wf(),
        ensures
            final(self).wf(),
            final(self).input() == old(self).input(),
            final(self).state() == assume_tok_kind(old(self).input(), old(self).state(), tok).st,
            agrees(r, assume_tok_kind(old(self).input(), old(self).state(), tok).res),
    {
        match self.next_tok() {
            Ok(next) => if next == tok {
                Ok(())
            } else {
                Err(self.tok.err(ErrorKind::UnexpectedToken))
            },
            Err(e) => Err(e),
        }
    }

    fn assume_tok_str(&mut self) -> (r: Result<(usize, usize), Error>)
        requires
            old(self).wf(),
        ensures
            final(self).wf(),
            final(self).input() == old(self).input(),
            final(self).state() == assume_tok_str(old(self).input(), old(self).state()).st,
            agrees(r, assume_tok_str(old(self).input(), old(self).state()).res),
            r matches Ok(span) ==> span.0 <= span.1 <= old(self).input().len(),
    {
        match self.next_tok() {
            Ok(next) => match next {
                Token::Str { start, end } => Ok((start, end)),
                _ => Err(self.tok.err(ErrorKind::UnexpectedToken)),
            },
            Err(e) => Err(e),
        }
    }

    fn assume_complete(&mut self) -> (r: Result<(), Error>)
        requires
            old(self).wf(),
        ensures
            final(self).wf(),
            final(self).input() == old(self).input(),
            final(self).state() == assume_complete(old(self).input(), old(self).state()).st,
            agrees(r, assume_complete(old(self).input(), old(self).state()).res),
    {
        match self.tok.next() {
            Some(_) => Err(self.tok.err(ErrorKind::UnexpectedToken)),
            None => Ok(()),
        }
    }

    fn advance_if_tok(&mut self, tok: Token) -> (r: Result<bool, Error>)
        requires
            old(self).wf(),
        ensures
            final(self).wf(),
            final(self).input() == old(self).input(),
            final(self).state() == advance_if_tok(old(self).input(), old(self).state(), tok).st,
            agrees(r, advance_if_tok(old(self).input(), old(self).state(), tok).res),
    {
        match self.peek_next_tok() {
            Ok(next) => if next == tok {
                self.peek = None;
                Ok(true)
            } else {
                Ok(false)
            },
            Err(e) => Err(e),
        }
    }

    fn next_tok(&mut self) -> (r: Result<Token, Error>)
        requires
            old(self).wf(),
        ensures
            final(self).wf(),
            final(self).input() == old(self).input(),
            final(self).state() == next_tok(old(self).input(), old(self).state()).st,
            agrees(r, next_tok(old(self).input(), old(self).state()).res),
            r matches Ok(tok) ==> tok.within(old(self).input().len() as int),
    {
        match self.peek {
            Some(tok) => {
                self.peek = None;
                Ok(tok)
            },
            None => match self.tok.next() {
                Some(r) => r,
                None => Err(self.tok.err(ErrorKind::UnexpectedEof)),
            },
        }
    }

    fn peek_next_tok(&mut self) -> (r: Result<Token, Error>)
        requires
            old(self).wf(),
        ensures
            final(self).wf(),
            final(self).input() == old(self).input(),
            final(self).state() == peek_next_tok(old(self).input(), old(self).state()).st,
            agrees(r, peek_next_tok(old(self).input(), old(self).state()).res),
    {
        match self.peek {
            Some(tok) => Ok(tok),
            None => match self.next_tok() {
                Ok(tok) => {
                    self.peek = Some(tok);
                    Ok(tok)
                },
                Err(e) => Err(e),
            },
        }
    }
}

/// Deserialize a JSON string.
///
/// The schema `desc` describes how the JSON data should be deserialized;
/// its slots are written to as values are encountered within the data. `D`
/// is how deep objects may nest. After an error the slots hold what had been
/// read until then.
///
/// [`document`] says what is returned and what the slots hold afterwards.
/// Nothing else of the schema changes, only JSON texts are read, and an
/// error lies in the text.
pub fn from_str<'a, 'k, const D: usize>(
    json: &'a str,
    desc: &mut Schema<'a, 'k>,
) -> (r: Result<(), Error>)
    ensures
        agrees(r, document(json@, Some(old(desc)@), D as nat).res),
        document(json@, Some(old(desc)@), D as nat).desc == Some(final(desc)@),
        old(desc)@.same_shape(final(desc)@),
        r is Ok ==> is_json(json@, D as nat),
        r matches Err(e) ==> e@.within(json@.len() as int),
{
    proof {
        lemma_document_keeps_shape(json@, desc@, D as nat);
        lemma_document_within(json@, Some(desc@), D as nat);
        lemma_document_alike(json@, desc@, D as nat);
        lemma_document_reads_json(json@, D as nat);
    }
    let mut parser = Parser::<'a, D>::new(json);
    parser.parse(Some(desc))
}

/// Validate a JSON string, in which objects may nest `D` deep.
///
/// The texts that pass are the JSON texts ([`is_json`]); for the others
/// [`document`] says which error is returned, and it lies in the text.
pub fn validate<const D: usize>(json: &str) -> (r: Result<(), Error>)
    ensures
        agrees(r, document(json@, None, D as nat).res),
        r is Ok <==> is_json(json@, D as nat),
        r matches Err(e) ==> e@.within(json@.len() as int),
{
    proof {
        lemma_document_within(json@, None, D as nat);
        lemma_document_reads_json(json@, D as nat);
    }
    let mut parser = Parser::<D>::new(json);
    parser.parse(None)
}

} // verus!
