//! Where and why a text was refused.

use vstd::prelude::*;

verus! {

/// Why a text was refused.
#[derive(Debug, Copy, Clone, Eq, PartialEq, Structural)]
pub enum ErrorKind {
    /// An array holds more elements than its schema.
    InsufficientArrayLength,
    /// A number is malformed or does not fit.
    InvalidNumber,
    /// Objects nest deeper than the bound.
    MaxDepthExceeded,
    /// A value is not of the kind its schema asks for.
    MismatchedTypes,
    /// Two elements follow each other without a comma.
    MissingComma,
    /// A control character stands in a string.
    UnexpectedControlCharacterInString,
    /// The text ends where a token has to follow.
    UnexpectedEof,
    /// A token stands where it cannot.
    UnexpectedToken,
    /// A comma is followed by the end of its collection.
    UnexpectedTrailingComma,
    /// A word starts like `true`, `false` or `null` and is none of them.
    UnknownIdentifier,
    /// No token starts with this character.
    UnknownStartOfToken,
    /// The text ends inside a string.
    UnterminatedString,
}

/// What an [`Error`] says.
pub struct Fault {
    /// The line, counted from 1.
    pub lineno: int,
    /// How many characters of the line had been read.
    pub col: int,
    /// Why the text was refused.
    pub kind: ErrorKind,
}

impl Fault {
    /// Whether the error can be met in a text of `len` characters: on a line
    /// that the text has, behind characters that the text has.
    pub open spec fn within(self, len: int) -> bool {
        1 <= self.lineno <= len + 1 && 0 <= self.col <= len
    }
}

/// An error met while reading a JSON text.
#[derive(Debug, Copy, Clone)]
pub struct Error {
    /// How many line feeds had been read.
    line: usize,
    col: usize,
    kind: ErrorKind,
}

impl View for Error {
    type V = Fault;

    closed spec fn view(&self) -> Fault {
        Fault { lineno: self.line + 1, col: self.col as int, kind: self.kind }
    }
}

impl Error {
    /// An error of the given kind behind `line` line feeds and `col`
    /// characters of the line they lead to.
    pub(crate) fn new(line: usize, col: usize, kind: ErrorKind) -> (e: Error)
        ensures
            e@ == (Fault { lineno: line + 1, col: col as int, kind }),
    {
        Error { line, col, kind }
    }

    /// Retrieves the line number the error was encountered on.
    ///
    /// Lines are counted from 1. An error lies in its text, so that its line
    /// number is a `usize` wherever the length of the text is less than the
    /// largest; a line number that is none is given as the largest.
    pub fn lineno(&self) -> (n: usize)
        ensures
            self@.lineno <= usize::MAX ==> n == self@.lineno,
            self@.lineno > usize::MAX ==> n == usize::MAX,
    {
        if self.line < usize::MAX {
            self.line + 1
        } else {
            usize::MAX
        }
    }

    /// Retrieves the column the error was encountered on.
    pub fn col(&self) -> (n: usize)
        ensures
            n == self@.col,
    {
        self.col
    }

    /// Retrieves the kind of error that occurred.
    pub fn kind(&self) -> (k: ErrorKind)
        ensures
            k == self@.kind,
    {
        self.kind
    }
}

/// Whether a result says what its model says.
pub open spec fn agrees<T>(r: Result<T, Error>, model: Result<T, Fault>) -> bool {
    match r {
        Ok(v) => model == Ok::<T, Fault>(v),
        Err(e) => model == Err::<T, Fault>(e@),
    }
}

} // verus!
