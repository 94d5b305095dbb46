//! From characters to tokens.
//!
//! [`lex`] says which token starts at a position of a text, where it ends and
//! what line and column the reader is on by then. [`Tokenizer`] is the reader.

use super::error::{Error, ErrorKind, Fault};
use super::number::{
    decimal_literal, digit, integer_literal, is_decimal, is_digit, is_number_char, number_char,
    parse_integer,
};
use crate::text::decode;
use vstd::prelude::*;

verus! {

/// A token of a JSON text.
///
/// A string or a decimal number is the characters of the text from `start`
/// up to `end`, both counted in characters.
#[derive(Debug, Copy, Clone, PartialEq, Eq, Structural)]
pub enum Token {
    /// `true` or `false`.
    Bool(bool),
    /// `{`
    BraceL,
    /// `}`
    BraceR,
    /// `[`
    BracketL,
    /// `]`
    BracketR,
    /// `:`
    Colon,
    /// `,`
    Comma,
    /// A number with a period.
    Float { start: usize, end: usize },
    /// A number without a period.
    Integer(i64),
    /// `null`
    Null,
    /// A string, without its quotes.
    Str { start: usize, end: usize },
}

impl Token {
    /// Whether the token lies in a text of `len` characters.
    pub open spec fn within(self, len: int) -> bool {
        match self {
            Token::Float { start, end } => start < end <= len,
            Token::Str { start, end } => start <= end <= len,
            _ => true,
        }
    }
}

/// Where a reader is: how many characters it has read in all, the line it is
/// on, counted from 1, and how many characters of that line it has read.
pub struct Cursor {
    pub pos: int,
    pub lineno: int,
    pub col: int,
}

impl Cursor {
    /// Before the first character.
    pub open spec fn start() -> Cursor {
        Cursor { pos: 0, lineno: 1, col: 0 }
    }

    /// After `n` more characters of the same line.
    pub open spec fn advance(self, n: int) -> Cursor {
        Cursor { pos: self.pos + n, col: self.col + n, ..self }
    }

    /// After a line feed.
    pub open spec fn newline(self) -> Cursor {
        Cursor { pos: self.pos + 1, lineno: self.lineno + 1, col: 0 }
    }

    /// An error raised here.
    pub open spec fn fault(self, kind: ErrorKind) -> Fault {
        Fault { lineno: self.lineno, col: self.col, kind }
    }

    /// Whether a reader of a text of `len` characters can be here.
    pub open spec fn within(self, len: int) -> bool {
        &&& 0 <= self.pos <= len
        &&& 0 <= self.col <= self.pos
        &&& 1 <= self.lineno <= self.pos + 1
    }
}

/// What a reader finds next.
pub enum Lexed {
    /// Nothing but blanks up to the end of the text.
    End,
    /// A token.
    Token(Token),
    /// Something that is no token.
    Fault(ErrorKind),
}

/// What a reader finds next, and where it is by then.
pub struct Step {
    pub cur: Cursor,
    pub out: Lexed,
}

/// Whether `c` is skipped between tokens without ending a line.
pub open spec fn is_blank(c: char) -> bool {
    c == ' ' || c == '\t' || c == '\r'
}

/// Whether `c` is a control character: one of the code points up to `1F`
/// or from `7F` to `9F`.
pub open spec fn is_control(c: char) -> bool {
    c as u32 <= 0x1F || 0x7F <= c as u32 <= 0x9F
}

/// How the string ends that is being read at position `i`.
pub enum Scan {
    /// With the quote at this position.
    Closed(int),
    /// With the control character at this position.
    Control(int),
    /// Not at all.
    Open,
}

/// Looks for the end of a string from position `i` on, where `escape` says
/// whether the character at `i` is escaped: whether a backslash that is not
/// escaped itself stands before it.
///
/// A string ends with the first quote that is not escaped. A backslash
/// escapes the one character behind it, be that a quote or another
/// backslash, and that character escapes nothing. A control character is
/// refused wherever it stands.
pub open spec fn scan_string(s: Seq<char>, i: int, escape: bool) -> Scan
    decreases s.len() - i,
{
    if i < 0 || i >= s.len() {
        Scan::Open
    } else if s[i] == '"' && !escape {
        Scan::Closed(i)
    } else if s[i] == '\\' && !escape {
        scan_string(s, i + 1, true)
    } else if is_control(s[i]) {
        Scan::Control(i)
    } else {
        scan_string(s, i + 1, false)
    }
}

/// Reads a string whose opening quote lies just before `cur`.
pub open spec fn lex_string(s: Seq<char>, cur: Cursor) -> Step {
    match scan_string(s, cur.pos, false) {
        Scan::Closed(j) => Step {
            cur: cur.advance(j + 1 - cur.pos),
            out: Lexed::Token(Token::Str { start: cur.pos as usize, end: j as usize }),
        },
        Scan::Control(j) => Step {
            cur: cur.advance(j + 1 - cur.pos),
            out: Lexed::Fault(ErrorKind::UnexpectedControlCharacterInString),
        },
        Scan::Open => Step {
            cur: cur.advance(s.len() - cur.pos),
            out: Lexed::Fault(ErrorKind::UnterminatedString),
        },
    }
}

/// Reads the rest of a word, character by character, and gives `tok` if all
/// of `word` is there.
pub open spec fn lex_word(s: Seq<char>, cur: Cursor, word: Seq<char>, tok: Token) -> Step
    decreases word.len(),
{
    if word.len() == 0 {
        Step { cur, out: Lexed::Token(tok) }
    } else if cur.pos < 0 || cur.pos >= s.len() {
        Step { cur, out: Lexed::Fault(ErrorKind::UnexpectedEof) }
    } else if s[cur.pos] != word[0] {
        Step { cur: cur.advance(1), out: Lexed::Fault(ErrorKind::UnknownIdentifier) }
    } else {
        lex_word(s, cur.advance(1), word.drop_first(), tok)
    }
}

/// The first position from `i` on that holds no digit, period or minus
/// sign.
pub open spec fn number_end(s: Seq<char>, i: int) -> int
    decreases s.len() - i,
{
    if 0 <= i < s.len() && is_number_char(s[i]) {
        number_end(s, i + 1)
    } else {
        i
    }
}

/// What the characters of a number token stand for.
///
/// With a period they are a decimal number, unless the period is the last
/// character or they are none. Without one they are an integer, unless they
/// are none or it does not fit.
pub open spec fn number_token(s: Seq<char>, start: int, end: int) -> Lexed {
    let lexeme = s.subrange(start, end);
    if lexeme.contains('.') {
        if lexeme.last() == '.' || !decimal_literal(lexeme) {
            Lexed::Fault(ErrorKind::InvalidNumber)
        } else {
            Lexed::Token(Token::Float { start: start as usize, end: end as usize })
        }
    } else {
        match integer_literal(lexeme) {
            Some(value) => Lexed::Token(Token::Integer(value)),
            None => Lexed::Fault(ErrorKind::InvalidNumber),
        }
    }
}

/// Reads a number whose first character lies just before `cur`: all the
/// digits, periods and minus signs that follow belong to it.
pub open spec fn lex_number(s: Seq<char>, cur: Cursor) -> Step {
    let end = number_end(s, cur.pos);
    Step { cur: cur.advance(end - cur.pos), out: number_token(s, cur.pos - 1, end) }
}

/// Reads the next token from `cur` on.
///
/// Blanks and line feeds before it are skipped. One character decides what
/// the token is, and the rest has to fit.
pub open spec fn lex(s: Seq<char>, cur: Cursor) -> Step
    decreases s.len() - cur.pos,
{
    if cur.pos < 0 || cur.pos >= s.len() {
        Step { cur, out: Lexed::End }
    } else {
        let c = s[cur.pos];
        let after = cur.advance(1);
        if is_blank(c) {
            lex(s, after)
        } else if c == '\n' {
            lex(s, cur.newline())
        } else if c == '{' {
            Step { cur: after, out: Lexed::Token(Token::BraceL) }
        } else if c == '}' {
            Step { cur: after, out: Lexed::Token(Token::BraceR) }
        } else if c == '[' {
            Step { cur: after, out: Lexed::Token(Token::BracketL) }
        } else if c == ']' {
            Step { cur: after, out: Lexed::Token(Token::BracketR) }
        } else if c == ':' {
            Step { cur: after, out: Lexed::Token(Token::Colon) }
        } else if c == ',' {
            Step { cur: after, out: Lexed::Token(Token::Comma) }
        } else if c == 't' {
            lex_word(s, after, seq!['r', 'u', 'e'], Token::Bool(true))
        } else if c == 'f' {
            lex_word(s, after, seq!['a', 'l', 's', 'e'], Token::Bool(false))
        } else if c == 'n' {
            lex_word(s, after, seq!['u', 'l', 'l'], Token::Null)
        } else if c == '"' {
            lex_string(s, after)
        } else if is_digit(c) || c == '-' {
            lex_number(s, after)
        } else {
            Step { cur: after, out: Lexed::Fault(ErrorKind::UnknownStartOfToken) }
        }
    }
}

/// A string that ends does so at or after the position where it is looked
/// for, and inside the text.
pub proof fn lemma_scan_string_bounds(s: Seq<char>, i: int, escape: bool)
    requires
        0 <= i,
    ensures
        match scan_string(s, i, escape) {
            Scan::Closed(j) => i <= j < s.len(),
            Scan::Control(j) => i <= j < s.len(),
            Scan::Open => true,
        },
    decreases s.len() - i,
{
    if i < s.len() {
        lemma_scan_string_bounds(s, i + 1, true);
        lemma_scan_string_bounds(s, i + 1, false);
    }
}

/// A number ends at or after the position where it is looked for, and
/// not behind the text.
pub proof fn lemma_number_end_bounds(s: Seq<char>, i: int)
    requires
        0 <= i <= s.len(),
    ensures
        i <= number_end(s, i) <= s.len(),
    decreases s.len() - i,
{
    if i < s.len() && is_number_char(s[i]) {
        lemma_number_end_bounds(s, i + 1);
    }
}

/// Reading a word moves forward inside the text, and gives no other token
/// than the one asked for.
pub proof fn lemma_lex_word_bounds(s: Seq<char>, cur: Cursor, word: Seq<char>, tok: Token)
    requires
        0 <= cur.pos <= s.len(),
    ensures
        cur.pos <= lex_word(s, cur, word, tok).cur.pos <= s.len(),
        lex_word(s, cur, word, tok).out is Token ==> lex_word(s, cur, word, tok).out
            == Lexed::Token(tok),
        !(lex_word(s, cur, word, tok).out is End),
    decreases word.len(),
{
    if word.len() > 0 && cur.pos < s.len() && s[cur.pos] == word[0] {
        lemma_lex_word_bounds(s, cur.advance(1), word.drop_first(), tok);
    }
}

/// Reading moves forward inside the text: a reader in the text stays in it,
/// and one that finds a token or a fault has read at least one character. A
/// token that is found lies in the text.
pub proof fn lemma_lex_moves(s: Seq<char>, cur: Cursor)
    ensures
        0 <= cur.pos <= s.len() ==> cur.pos <= lex(s, cur).cur.pos <= s.len(),
        !(lex(s, cur).out is End) ==> 0 <= cur.pos < lex(s, cur).cur.pos <= s.len(),
        s.len() <= usize::MAX ==> (lex(s, cur).out matches Lexed::Token(t) ==> t.within(
            s.len() as int,
        )),
    decreases s.len() - cur.pos,
{
    if 0 <= cur.pos < s.len() {
        let c = s[cur.pos];
        let after = cur.advance(1);
        if is_blank(c) {
            lemma_lex_moves(s, after);
        } else if c == '\n' {
            lemma_lex_moves(s, cur.newline());
        } else if c == 't' {
            lemma_lex_word_bounds(s, after, seq!['r', 'u', 'e'], Token::Bool(true));
        } else if c == 'f' {
            lemma_lex_word_bounds(s, after, seq!['a', 'l', 's', 'e'], Token::Bool(false));
        } else if c == 'n' {
            lemma_lex_word_bounds(s, after, seq!['u', 'l', 'l'], Token::Null);
        } else if c == '"' {
            lemma_scan_string_bounds(s, after.pos, false);
        } else if is_digit(c) || c == '-' {
            lemma_number_end_bounds(s, after.pos);
        }
    }
}

/// A reader in the text stays in the text: its line and column are counted
/// from characters that it has read.
pub proof fn lemma_lex_within(s: Seq<char>, cur: Cursor)
    requires
        cur.within(s.len() as int),
    ensures
        lex(s, cur).cur.within(s.len() as int),
    decreases s.len() - cur.pos,
{
    if cur.pos < s.len() {
        let c = s[cur.pos];
        let after = cur.advance(1);
        if is_blank(c) {
            lemma_lex_within(s, after);
        } else if c == '\n' {
            lemma_lex_within(s, cur.newline());
        } else if c == 't' {
            lemma_lex_word_within(s, after, seq!['r', 'u', 'e'], Token::Bool(true));
        } else if c == 'f' {
            lemma_lex_word_within(s, after, seq!['a', 'l', 's', 'e'], Token::Bool(false));
        } else if c == 'n' {
            lemma_lex_word_within(s, after, seq!['u', 'l', 'l'], Token::Null);
        } else if c == '"' {
            lemma_scan_string_bounds(s, after.pos, false);
        } else if is_digit(c) || c == '-' {
            lemma_number_end_bounds(s, after.pos);
        }
    }
}

/// A reader in the text stays in the text while it reads a word.
pub proof fn lemma_lex_word_within(s: Seq<char>, cur: Cursor, word: Seq<char>, tok: Token)
    requires
        cur.within(s.len() as int),
    ensures
        lex_word(s, cur, word, tok).cur.within(s.len() as int),
    decreases word.len(),
{
    if word.len() > 0 && cur.pos < s.len() && s[cur.pos] == word[0] {
        lemma_lex_word_within(s, cur.advance(1), word.drop_first(), tok);
    }
}

/// Whether an optional result of the reader says what `step` says.
pub open spec fn yields(step: Step, r: Option<Result<Token, Error>>) -> bool {
    match step.out {
        Lexed::End => r is None,
        Lexed::Token(t) => r == Some(Ok::<Token, Error>(t)),
        Lexed::Fault(kind) => match r {
            Some(Err(e)) => e@ == step.cur.fault(kind),
            _ => false,
        },
    }
}

/// Whether a result of the reader says what `step` says.
pub open spec fn emits(step: Step, r: Result<Token, Error>) -> bool {
    !(step.out is End) && yields(step, Some(r))
}

/// Whether `c` is a control character.
pub fn control(c: char) -> (b: bool)
    ensures
        b == is_control(c),
{
    let code = c as u32;
    code <= 0x1F || (0x7F <= code && code <= 0x9F)
}

/// A reader of tokens.
pub struct Tokenizer {
    chars: Vec<char>,
    pos: usize,
    /// How many line feeds have been read.
    lines: usize,
    col: usize,
}

impl Tokenizer {
    /// The text that is read.
    pub closed spec fn input(&self) -> Seq<char> {
        self.chars@
    }

    /// Where the reader is.
    pub closed spec fn cursor(&self) -> Cursor {
        Cursor { pos: self.pos as int, lineno: self.lines + 1, col: self.col as int }
    }

    /// The reader is inside its text.
    pub closed spec fn wf(&self) -> bool {
        self.cursor().within(self.chars.len() as int)
    }

    #[verifier::type_invariant]
    spec fn inv(self) -> bool {
        self.wf()
    }

    /// A reader at the start of `json`.
    pub fn new(json: &str) -> (tok: Self)
        ensures
            tok.wf(),
            tok.input() == json@,
            tok.cursor() == Cursor::start(),
    {
        Tokenizer { chars: decode(json), pos: 0, lines: 0, col: 0 }
    }

    /// Pops the next character if one exists.
    fn next_char(&mut self) -> (r: Option<char>)
        ensures
            final(self).wf(),
            final(self).input() == old(self).input(),
            match r {
                Some(c) => old(self).pos < old(self).chars.len() && c == old(self).chars@[old(
                    self,
                ).pos as int] && final(self).cursor() == old(self).cursor().advance(1),
                None => old(self).pos >= old(self).chars.len() && final(self).cursor() == old(
                    self,
                ).cursor(),
            },
    {
        proof {
            use_type_invariant(&*self);
        }
        if self.pos < self.chars.len() {
            let c = self.chars[self.pos];
            self.pos = self.pos + 1;
            self.col = self.col + 1;
            Some(c)
        } else {
            None
        }
    }

    /// An error of the given kind at the current line and column.
    pub fn err(&self, kind: ErrorKind) -> (e: Error)
        ensures
            e@ == self.cursor().fault(kind),
    {
        Error::new(self.lines, self.col, kind)
    }

    /// Emits the given token if the sequence of characters is matched.
    fn tok_chars(&mut self, cs: &[char], tok: Token) -> (r: Result<Token, Error>)
        ensures
            final(self).wf(),
            final(self).input() == old(self).input(),
            final(self).cursor() == lex_word(old(self).input(), old(self).cursor(), cs@, tok).cur,
            emits(lex_word(old(self).input(), old(self).cursor(), cs@, tok), r),
            r matches Ok(t) ==> t == tok,
    {
        proof {
            use_type_invariant(&*self);
        }
        let mut i: usize = 0;
        assert(cs@.skip(0) =~= cs@);
        while i < cs.len()
            invariant
                0 <= i <= cs.len(),
                self.wf(),
                self.input() == old(self).input(),
                lex_word(self.input(), self.cursor(), cs@.skip(i as int), tok) == lex_word(
                    old(self).input(),
                    old(self).cursor(),
                    cs@,
                    tok,
                ),
            decreases cs.len() - i,
        {
            let ghost word = cs@.skip(i as int);
            assert(word.drop_first() =~= cs@.skip(i + 1));
            match self.next_char() {
                None => {
                    return Err(self.err(ErrorKind::UnexpectedEof));
                },
                Some(c) => {
                    if c != cs[i] {
                        return Err(self.err(ErrorKind::UnknownIdentifier));
                    }
                },
            }
            i = i + 1;
        }
        Ok(tok)
    }

    /// Reads a string whose opening quote was popped last.
    fn tok_string(&mut self) -> (r: Result<Token, Error>)
        ensures
            final(self).wf(),
            final(self).input() == old(self).input(),
            final(self).cursor() == lex_string(old(self).input(), old(self).cursor()).cur,
            emits(lex_string(old(self).input(), old(self).cursor()), r),
            r matches Ok(t) ==> t.within(old(self).input().len() as int),
    {
        proof {
            use_type_invariant(&*self);
        }
        let start = self.pos;
        let mut escape = false;
        loop
            invariant
                self.wf(),
                self.input() == old(self).input(),
                start == old(self).pos,
                start <= self.pos,
                self.cursor() == old(self).cursor().advance(self.pos - start),
                scan_string(self.input(), self.pos as int, escape) == scan_string(
                    old(self).input(),
                    old(self).cursor().pos,
                    false,
                ),
            decreases self.chars.len() - self.pos,
        {
            match self.next_char() {
                None => {
                    return Err(self.err(ErrorKind::UnterminatedString));
                },
                Some(c) => {
                    if c == '"' && !escape {
                        return Ok(Token::Str { start, end: self.pos - 1 });
                    } else if c == '\\' && !escape {
                        escape = true;
                    } else if control(c) {
                        return Err(self.err(ErrorKind::UnexpectedControlCharacterInString));
                    } else {
                        escape = false;
                    }
                },
            }
        }
    }

    /// Reads a number whose first character was popped last.
    fn tok_number(&mut self) -> (r: Result<Token, Error>)
        requires
            old(self).pos > 0,
            is_digit(old(self).chars@[old(self).pos - 1]) || old(self).chars@[old(self).pos - 1]
                == '-',
        ensures
            final(self).wf(),
            final(self).input() == old(self).input(),
            final(self).cursor() == lex_number(old(self).input(), old(self).cursor()).cur,
            emits(lex_number(old(self).input(), old(self).cursor()), r),
            r matches Ok(t) ==> t.within(old(self).input().len() as int),
    {
        proof {
            use_type_invariant(&*self);
        }
        let start = self.pos - 1;
        let mut float = false;
        let ghost s = self.chars@;
        assert(s.subrange(start as int, self.pos as int) =~= seq![s[start as int]]);
        while self.pos < self.chars.len() && number_char(self.chars[self.pos])
            invariant
                self.wf(),
                self.chars@ == s,
                s == old(self).input(),
                start + 1 == old(self).pos,
                start < self.pos <= self.chars.len(),
                self.cursor() == old(self).cursor().advance(self.pos - start - 1),
                number_end(s, self.pos as int) == number_end(s, old(self).pos as int),
                float == s.subrange(start as int, self.pos as int).contains('.'),
            decreases self.chars.len() - self.pos,
        {
            let ghost before = s.subrange(start as int, self.pos as int);
            let c = self.chars[self.pos];
            assert(s.subrange(start as int, self.pos + 1) =~= before.push(c));
            proof {
                let longer = before.push(c);
                if before.contains('.') {
                    let j = choose|j: int| 0 <= j < before.len() && before[j] == '.';
                    assert(longer[j] == '.');
                }
                if c == '.' {
                    assert(longer[before.len() as int] == '.');
                }
                if longer.contains('.') {
                    let j = choose|j: int| 0 <= j < longer.len() && longer[j] == '.';
                    if j < before.len() {
                        assert(before[j] == '.');
                    }
                }
            }
            if c == '.' {
                float = true;
            }
            self.pos = self.pos + 1;
            self.col = self.col + 1;
        }
        let end = self.pos;
        if float {
            if self.chars[end - 1] == '.' || !is_decimal(&self.chars, start, end) {
                Err(self.err(ErrorKind::InvalidNumber))
            } else {
                Ok(Token::Float { start, end })
            }
        } else {
            match parse_integer(&self.chars, start, end) {
                Some(value) => Ok(Token::Integer(value)),
                None => Err(self.err(ErrorKind::InvalidNumber)),
            }
        }
    }

    /// Whether the characters of the text from `start` up to `end` spell
    /// `key`.
    pub fn spells(&self, start: usize, end: usize, key: &str) -> (b: bool)
        requires
            start <= end <= self.input().len(),
        ensures
            b == (key@ == self.input().subrange(start as int, end as int)),
    {
        let ghost word = self.chars@.subrange(start as int, end as int);
        let mut i = start;
        for c in it: key.chars()
            invariant
                it.seq() == key@,
                start <= i <= end <= self.chars.len(),
                i - start == it.index(),
                word == self.chars@.subrange(start as int, end as int),
                key@.take(it.index() as int) == word.take(it.index() as int),
        {
            let ghost k = it.index() as int;
            if i >= end {
                assert(key@.len() > word.len());
                return false;
            }
            if self.chars[i] != c {
                assert(key@[k] != word[k]);
                return false;
            }
            assert(key@.take(k + 1) =~= key@.take(k).push(c));
            assert(word.take(k + 1) =~= word.take(k).push(c));
            i = i + 1;
        }
        assert(key@.take(key@.len() as int) =~= key@);
        if i == end {
            assert(word.take(word.len() as int) =~= word);
            true
        } else {
            assert(key@.len() < word.len());
            false
        }
    }

    /// Reads the next token.
    ///
    /// `None` says that the text has ended.
    pub fn next(&mut self) -> (r: Option<Result<Token, Error>>)
        ensures
            final(self).wf(),
            final(self).input() == old(self).input(),
            final(self).cursor() == lex(old(self).input(), old(self).cursor()).cur,
            yields(lex(old(self).input(), old(self).cursor()), r),
            r matches Some(Ok(t)) ==> t.within(old(self).input().len() as int),
    {
        proof {
            use_type_invariant(&*self);
        }
        loop
            invariant
                self.wf(),
                self.input() == old(self).input(),
                lex(self.input(), self.cursor()) == lex(old(self).input(), old(self).cursor()),
            decreases self.chars.len() - self.pos,
        {
            let c = match self.next_char() {
                Some(c) => c,
                None => {
                    return None;
                },
            };
            if c == ' ' || c == '\t' || c == '\r' {
            } else if c == '\n' {
                self.lines = self.lines + 1;
                self.col = 0;
            } else if c == '{' {
                return Some(Ok(Token::BraceL));
            } else if c == '}' {
                return Some(Ok(Token::BraceR));
            } else if c == '[' {
                return Some(Ok(Token::BracketL));
            } else if c == ']' {
                return Some(Ok(Token::BracketR));
            } else if c == ':' {
                return Some(Ok(Token::Colon));
            } else if c == ',' {
                return Some(Ok(Token::Comma));
            } else if c == 't' {
                return Some(self.tok_chars(&['r', 'u', 'e'], Token::Bool(true)));
            } else if c == 'f' {
                return Some(self.tok_chars(&['a', 'l', 's', 'e'], Token::Bool(false)));
            } else if c == 'n' {
                return Some(self.tok_chars(&['u', 'l', 'l'], Token::Null));
            } else if c == '"' {
                return Some(self.tok_string());
            } else if digit(c) || c == '-' {
                return Some(self.tok_number());
            } else {
                return Some(Err(self.err(ErrorKind::UnknownStartOfToken)));
            }
        }
    }
}

} // verus!
