//! An opinionated zero-copy .INI parser.
//!
//! # Grammar
//!
//! * Comments begin with `;` or `#` and must exist on their own line (inline
//!   comments are not supported).
//! * Global key/value pairs can exist outside sections.
//! * Values are delimited by the first `=` or `:` character encountered.
//! * Multi-line values are not supported.
//! * Indentation is ignored.
//! * Section and key names must contain only ASCII alphanumerics,
//!   underscores, and periods.
//! * Keys can have no value, but a valid delimiter must be present on the
//!   line.
//! * Duplicate sections and keys do not cause errors.
//!
//! [`read_line`] says what a line of a text is, and [`next_item`] what the
//! next parameter or error of a text is. [`Parser`] walks a text by them.

use crate::text::{decode, slice};
use vstd::prelude::*;

verus! {

/// Specific types of errors.
#[derive(Debug, Copy, Clone, Eq, PartialEq, Structural)]
pub enum ErrorKind {
    /// Section contains invalid characters.
    InvalidSection,
    /// Key contains invalid characters.
    InvalidKey,
    /// The parser reached the end of the line.
    UnexpectedEol,
}

/// Error encountered while parsing .INI configuration files.
#[derive(Debug, Copy, Clone)]
pub struct Error {
    lineno: usize,
    kind: ErrorKind,
}

impl Error {
    /// The line that the error is on, counted from 1.
    pub closed spec fn spec_lineno(&self) -> usize {
        self.lineno
    }

    /// Why the line was refused.
    pub closed spec fn spec_kind(&self) -> ErrorKind {
        self.kind
    }

    /// Retrieves the line number the error was encountered on.
    #[verifier::when_used_as_spec(spec_lineno)]
    pub fn lineno(&self) -> (n: usize)
        ensures
            n == self.spec_lineno(),
    {
        self.lineno
    }

    /// Retrieves the kind of error that occurred.
    #[verifier::when_used_as_spec(spec_kind)]
    pub fn kind(&self) -> (k: ErrorKind)
        ensures
            k == self.spec_kind(),
    {
        self.kind
    }
}

/// .INI configuration parameter.
#[derive(Debug, Copy, Clone, PartialEq, Eq)]
pub struct Param<'a> {
    /// The section the parameter was found in.
    ///
    /// Global key/value parameters have no section; will have an empty string
    /// in this field.
    pub section: &'a str,
    /// The parameter key.
    pub key: &'a str,
    /// The parameter value.
    ///
    /// Parameters with no value will have an empty string in this field.
    pub value: &'a str,
}

/// A stretch of a text: the characters from `start` up to `end`.
pub struct Span {
    pub start: int,
    pub end: int,
}

impl Span {
    /// The characters of `s` in the stretch.
    pub open spec fn of(self, s: Seq<char>) -> Seq<char> {
        s.subrange(self.start, self.end)
    }

    /// Whether the stretch lies in a text of `len` characters.
    pub open spec fn within(self, len: int) -> bool {
        0 <= self.start <= self.end <= len
    }
}

/// Whether `c` is white space: one of the code points with the property
/// `White_Space`.
pub open spec fn is_space(c: char) -> bool {
    let code = c as u32;
    ||| 0x09 <= code <= 0x0D
    ||| code == 0x20
    ||| code == 0x85
    ||| code == 0xA0
    ||| code == 0x1680
    ||| 0x2000 <= code <= 0x200A
    ||| code == 0x2028
    ||| code == 0x2029
    ||| code == 0x202F
    ||| code == 0x205F
    ||| code == 0x3000
}

/// Whether `c` can stand in a name: an ASCII letter or digit, an underscore
/// or a period.
pub open spec fn is_name_char(c: char) -> bool {
    let code = c as u32;
    ||| 0x30 <= code <= 0x39
    ||| 0x41 <= code <= 0x5A
    ||| 0x61 <= code <= 0x7A
    ||| c == '_'
    ||| c == '.'
}

/// Whether `name` names a section or a key: it is not empty and holds
/// nothing but letters, digits, underscores and periods.
pub open spec fn is_valid_name(name: Seq<char>) -> bool {
    name.len() > 0 && forall|i: int| 0 <= i < name.len() ==> is_name_char(#[trigger] name[i])
}

/// The first position from `i` on, and before `end`, that holds no white
/// space; `end` if there is none.
pub open spec fn skip_spaces(s: Seq<char>, i: int, end: int) -> int
    decreases end - i,
{
    if 0 <= i < end <= s.len() && is_space(s[i]) {
        skip_spaces(s, i + 1, end)
    } else {
        i
    }
}

/// The position behind the last character before `end`, and not before
/// `start`, that is no white space; `start` if there is none.
pub open spec fn drop_spaces(s: Seq<char>, start: int, end: int) -> int
    decreases end - start,
{
    if 0 <= start < end <= s.len() && is_space(s[end - 1]) {
        drop_spaces(s, start, end - 1)
    } else {
        end
    }
}

/// A stretch without the white space at its ends.
pub open spec fn trim(s: Seq<char>, span: Span) -> Span {
    let start = skip_spaces(s, span.start, span.end);
    Span { start, end: drop_spaces(s, start, span.end) }
}

/// The first position from `i` on, and before `end`, that holds the
/// character `c` or the character `d`; `end` if there is none.
pub open spec fn find(s: Seq<char>, i: int, end: int, c: char, d: char) -> int
    decreases end - i,
{
    if 0 <= i < end <= s.len() && s[i] != c && s[i] != d {
        find(s, i + 1, end, c, d)
    } else {
        i
    }
}

/// What a line says.
pub enum Line {
    /// Nothing: it is empty or a comment.
    Blank,
    /// That a section starts, with this name.
    Section(Span),
    /// That a key has a value.
    Pair { key: Span, value: Span },
    /// Nothing that can be understood.
    Fault(ErrorKind),
}

/// What a line says that starts with `[`: it has to end with `]`, and what
/// stands between the two, without the white space around it, has to be a
/// name.
pub open spec fn read_section(s: Seq<char>, line: Span) -> Line {
    if line.end - line.start < 2 || s[line.end - 1] != ']' {
        Line::Fault(ErrorKind::UnexpectedEol)
    } else {
        let name = trim(s, Span { start: line.start + 1, end: line.end - 1 });
        if is_valid_name(name.of(s)) {
            Line::Section(name)
        } else {
            Line::Fault(ErrorKind::InvalidSection)
        }
    }
}

/// What a line says that holds a key and a value: the key stands before
/// the first `=` or `:` and has to be a name, the value behind it, both
/// without the white space around them.
pub open spec fn read_pair(s: Seq<char>, line: Span) -> Line {
    let at = find(s, line.start, line.end, '=', ':');
    if at >= line.end {
        Line::Fault(ErrorKind::UnexpectedEol)
    } else {
        let key = trim(s, Span { start: line.start, end: at });
        if is_valid_name(key.of(s)) {
            Line::Pair { key, value: trim(s, Span { start: at + 1, end: line.end }) }
        } else {
            Line::Fault(ErrorKind::InvalidKey)
        }
    }
}

/// What the line says whose characters are those of `span`.
///
/// White space around the line does not count. A line that is empty or
/// starts with `#` or `;` says nothing. One that starts with `[` names a
/// section. Any other line holds a key and a value.
pub open spec fn read_line(s: Seq<char>, span: Span) -> Line {
    let line = trim(s, span);
    if line.start >= line.end || s[line.start] == '#' || s[line.start] == ';' {
        Line::Blank
    } else if s[line.start] == '[' {
        read_section(s, line)
    } else {
        read_pair(s, line)
    }
}

/// Where a parser is: how many characters and lines it has read, and the
/// name of the section it is in, which is empty before the first section.
pub struct State {
    pub pos: int,
    pub lines: int,
    pub section: Span,
}

impl State {
    /// Before the first line.
    pub open spec fn start() -> State {
        State { pos: 0, lines: 0, section: Span { start: 0, end: 0 } }
    }

    /// Whether a parser of a text of `len` characters can be here.
    pub open spec fn within(self, len: int) -> bool {
        0 <= self.lines <= self.pos <= len && self.section.within(len)
    }
}

/// What a parser gives next.
pub enum Item {
    /// Nothing: the text has ended.
    End,
    /// A parameter: its section, its key and its value.
    Param { section: Span, key: Span, value: Span },
    /// An error on the line with this number, counted from 1.
    Fault { lineno: int, kind: ErrorKind },
}

/// What a parser gives next, and where it is by then.
pub struct Next {
    pub st: State,
    pub item: Item,
}

/// The next parameter or error from `st` on.
///
/// A line ends before a line feed or with the text. Blank lines are passed
/// over, and so are lines that start a section, which the parameters behind
/// them belong to.
pub open spec fn next_item(s: Seq<char>, st: State) -> Next
    decreases s.len() - st.pos,
{
    if st.pos < 0 || st.pos >= s.len() {
        Next { st, item: Item::End }
    } else {
        let end = find(s, st.pos, s.len() as int, '\n', '\n');
        proof {
            lemma_find(s, st.pos, s.len() as int, '\n', '\n');
        }
        let after = if end < s.len() {
            end + 1
        } else {
            end
        };
        let lineno = st.lines + 1;
        match read_line(s, Span { start: st.pos, end }) {
            Line::Blank => next_item(s, State { pos: after, lines: lineno, section: st.section }),
            Line::Section(name) => next_item(s, State { pos: after, lines: lineno, section: name }),
            Line::Pair { key, value } => Next {
                st: State { pos: after, lines: lineno, section: st.section },
                item: Item::Param { section: st.section, key, value },
            },
            Line::Fault(kind) => Next {
                st: State { pos: after, lines: lineno, section: st.section },
                item: Item::Fault { lineno, kind },
            },
        }
    }
}

/// Skipping white space stays between where it starts and the end.
pub proof fn lemma_skip_spaces(s: Seq<char>, i: int, end: int)
    requires
        0 <= i <= end <= s.len(),
    ensures
        i <= skip_spaces(s, i, end) <= end,
    decreases end - i,
{
    if i < end && is_space(s[i]) {
        lemma_skip_spaces(s, i + 1, end);
    }
}

/// Dropping white space stays between the start and where it starts.
pub proof fn lemma_drop_spaces(s: Seq<char>, start: int, end: int)
    requires
        0 <= start <= end <= s.len(),
    ensures
        start <= drop_spaces(s, start, end) <= end,
    decreases end - start,
{
    if start < end && is_space(s[end - 1]) {
        lemma_drop_spaces(s, start, end - 1);
    }
}

/// Looking for a character stays between where it starts and the end.
pub proof fn lemma_find(s: Seq<char>, i: int, end: int, c: char, d: char)
    requires
        0 <= i <= end <= s.len(),
    ensures
        i <= find(s, i, end, c, d) <= end,
    decreases end - i,
{
    if i < end && s[i] != c && s[i] != d {
        lemma_find(s, i + 1, end, c, d);
    }
}

/// A stretch without the white space at its ends lies in the stretch.
pub proof fn lemma_trim(s: Seq<char>, span: Span)
    requires
        span.within(s.len() as int),
    ensures
        span.start <= trim(s, span).start <= trim(s, span).end <= span.end,
{
    lemma_skip_spaces(s, span.start, span.end);
    lemma_drop_spaces(s, skip_spaces(s, span.start, span.end), span.end);
}

/// What a line says is said by characters of the line: the name of a
/// section, a key and a value lie in it, and the first two are names.
pub proof fn lemma_read_line(s: Seq<char>, span: Span)
    requires
        span.within(s.len() as int),
    ensures
        match read_line(s, span) {
            Line::Section(name) => span.start <= name.start <= name.end <= span.end
                && is_valid_name(name.of(s)),
            Line::Pair { key, value } => span.start <= key.start <= key.end <= value.start
                <= value.end <= span.end && is_valid_name(key.of(s)),
            _ => true,
        },
{
    lemma_trim(s, span);
    let line = trim(s, span);
    if line.start < line.end {
        if s[line.start] == '[' {
            if line.end - line.start >= 2 {
                lemma_trim(s, Span { start: line.start + 1, end: line.end - 1 });
            }
        } else {
            lemma_find(s, line.start, line.end, '=', ':');
            let at = find(s, line.start, line.end, '=', ':');
            if at < line.end {
                lemma_trim(s, Span { start: line.start, end: at });
                lemma_trim(s, Span { start: at + 1, end: line.end });
            }
        }
    }
}

impl State {
    /// Whether the parser is in a text of `s` and in a section that has a
    /// name, or in none.
    pub open spec fn wf(self, s: Seq<char>) -> bool {
        self.within(s.len() as int) && (self.section.start == self.section.end || is_valid_name(
            self.section.of(s),
        ))
    }
}

/// A parser moves forward in its text, a line at a time. A parameter that
/// it hands out has a name as its key, lies in the section that was named
/// last, which has a name too, and stands on the lines read since.
pub proof fn lemma_next_item(s: Seq<char>, st: State)
    requires
        st.wf(s),
    ensures
        next_item(s, st).st.wf(s),
        st.pos <= next_item(s, st).st.pos,
        st.lines <= next_item(s, st).st.lines,
        match next_item(s, st).item {
            Item::End => next_item(s, st).st.pos == s.len(),
            Item::Param { section, key, value } => {
                &&& section == next_item(s, st).st.section
                &&& is_valid_name(key.of(s))
                &&& st.pos <= key.start <= key.end <= value.start <= value.end <= next_item(
                    s,
                    st,
                ).st.pos
            },
            Item::Fault { lineno, kind } => st.lines < lineno == next_item(s, st).st.lines,
        },
    decreases s.len() - st.pos,
{
    if st.pos < s.len() {
        lemma_find(s, st.pos, s.len() as int, '\n', '\n');
        let end = find(s, st.pos, s.len() as int, '\n', '\n');
        let after = if end < s.len() {
            end + 1
        } else {
            end
        };
        lemma_read_line(s, Span { start: st.pos, end });
        match read_line(s, Span { start: st.pos, end }) {
            Line::Blank => {
                lemma_next_item(s, State { pos: after, lines: st.lines + 1, section: st.section });
            },
            Line::Section(name) => {
                lemma_next_item(s, State { pos: after, lines: st.lines + 1, section: name });
            },
            _ => {},
        }
    }
}

/// Whether `c` is white space.
pub fn space(c: char) -> (b: bool)
    ensures
        b == is_space(c),
{
    let code = c as u32;
    (0x09 <= code && code <= 0x0D) || code == 0x20 || code == 0x85 || code == 0xA0 || code
        == 0x1680 || (0x2000 <= code && code <= 0x200A) || code == 0x2028 || code == 0x2029
        || code == 0x202F || code == 0x205F || code == 0x3000
}

/// Whether `c` can stand in a name.
pub fn name_char(c: char) -> (b: bool)
    ensures
        b == is_name_char(c),
{
    let code = c as u32;
    (0x30 <= code && code <= 0x39) || (0x41 <= code && code <= 0x5A) || (0x61 <= code && code
        <= 0x7A) || c == '_' || c == '.'
}

/// Whether the characters of `chars` from `start` up to `end` are a name.
pub fn is_valid_ident(chars: &Vec<char>, start: usize, end: usize) -> (b: bool)
    requires
        start <= end <= chars.len(),
    ensures
        b == is_valid_name(chars@.subrange(start as int, end as int)),
{
    let ghost name = chars@.subrange(start as int, end as int);
    if start == end {
        return false;
    }
    let mut i = start;
    while i < end
        invariant
            start <= i <= end <= chars.len(),
            name == chars@.subrange(start as int, end as int),
            forall|j: int| 0 <= j < i - start ==> is_name_char(#[trigger] name[j]),
        decreases end - i,
    {
        if !name_char(chars[i]) {
            assert(!is_name_char(name[i - start]));
            return false;
        }
        i = i + 1;
    }
    true
}

/// The stretch from `start` up to `end` without the white space at its
/// ends.
fn trimmed(chars: &Vec<char>, start: usize, end: usize) -> (r: (usize, usize))
    requires
        start <= end <= chars.len(),
    ensures
        trim(chars@, Span { start: start as int, end: end as int }) == (Span {
            start: r.0 as int,
            end: r.1 as int,
        }),
        start <= r.0 <= r.1 <= end,
{
    let mut a = start;
    while a < end && space(chars[a])
        invariant
            start <= a <= end <= chars.len(),
            skip_spaces(chars@, a as int, end as int) == skip_spaces(
                chars@,
                start as int,
                end as int,
            ),
        decreases end - a,
    {
        a = a + 1;
    }
    let mut b = end;
    while a < b && space(chars[b - 1])
        invariant
            a <= b <= end <= chars.len(),
            drop_spaces(chars@, a as int, b as int) == drop_spaces(chars@, a as int, end as int),
        decreases b - a,
    {
        b = b - 1;
    }
    (a, b)
}

/// The first position from `start` on, and before `end`, that holds `c` or
/// `d`; `end` if there is none.
fn position(chars: &Vec<char>, start: usize, end: usize, c: char, d: char) -> (at: usize)
    requires
        start <= end <= chars.len(),
    ensures
        at == find(chars@, start as int, end as int, c, d),
        start <= at <= end,
{
    let mut i = start;
    while i < end && chars[i] != c && chars[i] != d
        invariant
            start <= i <= end <= chars.len(),
            find(chars@, i as int, end as int, c, d) == find(
                chars@,
                start as int,
                end as int,
                c,
                d,
            ),
        decreases end - i,
    {
        i = i + 1;
    }
    i
}

/// Whether what a parser hands out is what `item` says.
pub open spec fn gives(item: Item, s: Seq<char>, r: Option<Result<Param<'_>, Error>>) -> bool {
    match item {
        Item::End => r is None,
        Item::Param { section, key, value } => match r {
            Some(Ok(param)) => param.section@ == section.of(s) && param.key@ == key.of(s)
                && param.value@ == value.of(s),
            _ => false,
        },
        Item::Fault { lineno, kind } => match r {
            Some(Err(e)) => e.lineno() == lineno && e.kind() == kind,
            _ => false,
        },
    }
}

/// A parser of one text.
pub struct Parser<'a> {
    src: &'a str,
    ascii: bool,
    chars: Vec<char>,
    pos: usize,
    lines: usize,
    section: (usize, usize),
}

impl<'a> Parser<'a> {
    /// The text that is read.
    pub closed spec fn input(&self) -> Seq<char> {
        self.src@
    }

    /// Where the parser is.
    pub closed spec fn state(&self) -> State {
        State {
            pos: self.pos as int,
            lines: self.lines as int,
            section: Span { start: self.section.0 as int, end: self.section.1 as int },
        }
    }

    #[verifier::type_invariant]
    spec fn inv(self) -> bool {
        &&& self.chars@ == self.src@
        &&& self.ascii ==> self.src.is_ascii()
        &&& self.state().within(self.chars.len() as int)
    }

    fn new(src: &'a str) -> (parser: Self)
        ensures
            parser.input() == src@,
            parser.state() == State::start(),
    {
        Parser { src, ascii: src.is_ascii(), chars: decode(src), pos: 0, lines: 0, section: (0, 0) }
    }

    /// Reads a line that names a section, which is the stretch from `start`
    /// up to `end`, and gives the name.
    fn parse_section(&self, start: usize, end: usize) -> (r: Result<(usize, usize), ErrorKind>)
        requires
            start < end <= self.input().len(),
        ensures
            match r {
                Ok(name) => name.0 <= name.1 <= self.input().len() && read_section(
                    self.input(),
                    Span { start: start as int, end: end as int },
                ) == Line::Section(Span { start: name.0 as int, end: name.1 as int }),
                Err(kind) => read_section(
                    self.input(),
                    Span { start: start as int, end: end as int },
                ) == Line::Fault(kind),
            },
    {
        proof {
            use_type_invariant(self);
        }
        if end - start < 2 || self.chars[end - 1] != ']' {
            return Err(ErrorKind::UnexpectedEol);
        }
        let (from, to) = trimmed(&self.chars, start + 1, end - 1);
        if !is_valid_ident(&self.chars, from, to) {
            return Err(ErrorKind::InvalidSection);
        }
        Ok((from, to))
    }

    /// Reads a line that holds a key and a value, which is the stretch from
    /// `start` up to `end`.
    fn parse_param(&self, start: usize, end: usize) -> (r: Result<Param<'a>, ErrorKind>)
        requires
            start <= end <= self.input().len(),
        ensures
            match r {
                Ok(param) => match read_pair(
                    self.input(),
                    Span { start: start as int, end: end as int },
                ) {
                    Line::Pair { key, value } => param.section@ == self.state().section.of(
                        self.input(),
                    ) && param.key@ == key.of(self.input()) && param.value@ == value.of(
                        self.input(),
                    ),
                    _ => false,
                },
                Err(kind) => read_pair(self.input(), Span { start: start as int, end: end as int })
                    == Line::Fault(kind),
            },
    {
        proof {
            use_type_invariant(self);
        }
        let at = position(&self.chars, start, end, '=', ':');
        if at >= end {
            return Err(ErrorKind::UnexpectedEol);
        }
        let (key_start, key_end) = trimmed(&self.chars, start, at);
        let (value_start, value_end) = trimmed(&self.chars, at + 1, end);
        if !is_valid_ident(&self.chars, key_start, key_end) {
            return Err(ErrorKind::InvalidKey);
        }
        let src: &'a str = self.src;
        Ok(
            Param {
                section: slice(src, self.ascii, self.section.0, self.section.1),
                key: slice(src, self.ascii, key_start, key_end),
                value: slice(src, self.ascii, value_start, value_end),
            },
        )
    }

    /// The next parameter of the text, or the next error; `None` when the
    /// text has ended. After an error, reading goes on with the next line.
    pub fn next(&mut self) -> (r: Option<Result<Param<'a>, Error>>)
        ensures
            final(self).input() == old(self).input(),
            final(self).state() == next_item(old(self).input(), old(self).state()).st,
            gives(next_item(old(self).input(), old(self).state()).item, old(self).input(), r),
    {
        proof {
            use_type_invariant(&*self);
        }
        loop
            invariant
                self.chars@ == self.src@,
                self.ascii ==> self.src.is_ascii(),
                self.state().within(self.chars.len() as int),
                self.input() == old(self).input(),
                next_item(self.input(), self.state()) == next_item(
                    old(self).input(),
                    old(self).state(),
                ),
            decreases self.chars.len() - self.pos,
        {
            if self.pos >= self.chars.len() {
                return None;
            }
            let end = position(&self.chars, self.pos, self.chars.len(), '\n', '\n');
            let after = if end < self.chars.len() {
                end + 1
            } else {
                end
            };
            let lineno = self.lines + 1;
            let (start, stop) = trimmed(&self.chars, self.pos, end);
            if start >= stop || self.chars[start] == '#' || self.chars[start] == ';' {
                self.pos = after;
                self.lines = lineno;
            } else if self.chars[start] == '[' {
                let read = self.parse_section(start, stop);
                self.pos = after;
                self.lines = lineno;
                match read {
                    Ok(name) => {
                        self.section = name;
                    },
                    Err(kind) => {
                        return Some(Err(Error { lineno, kind }));
                    },
                }
            } else {
                let read = self.parse_param(start, stop);
                self.pos = after;
                self.lines = lineno;
                return match read {
                    Ok(param) => Some(Ok(param)),
                    Err(kind) => Some(Err(Error { lineno, kind })),
                };
            }
        }
    }
}

/// Parses .INI configuration: the parameters of `ini` come out of the
/// parser one by one.
pub fn parse(ini: &str) -> (parser: Parser<'_>)
    ensures
        parser.input() == ini@,
        parser.state() == State::start(),
{
    Parser::new(ini)
}

} // verus!
