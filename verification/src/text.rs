//! Texts by their characters.
//!
//! The parsers of this crate count in characters and hand out slices of
//! the text they read. A text of ASCII characters is sliced where it stands;
//! any other text is walked to the slice.

use vstd::prelude::*;
use vstd::string::StrSliceExecFns;

verus! {

/// The characters of `text`, one by one.
pub fn decode(text: &str) -> (chars: Vec<char>)
    ensures
        chars@ == text@,
{
    let mut chars: Vec<char> = Vec::new();
    for c in it: text.chars()
        invariant
            chars@ == it.seq().take(it.index() as int),
            it.seq() == text@,
    {
        chars.push(c);
    }
    chars
}

/// The characters of `text` from `start` up to `end`, where `ascii` says
/// that the text is known to hold ASCII characters only.
pub fn slice<'a>(text: &'a str, ascii: bool, start: usize, end: usize) -> (part: &'a str)
    requires
        start <= end <= text@.len(),
        ascii ==> text.is_ascii(),
    ensures
        part@ == text@.subrange(start as int, end as int),
{
    if ascii {
        text.substring_ascii(start, end)
    } else {
        text.substring_char(start, end)
    }
}

} // verus!
