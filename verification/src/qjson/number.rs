//! Numbers as the standard decoders read them.
//!
//! A number token is a run of digits, periods and minus signs. Whether such
//! a run is a number, and which, is decided as `i64::from_str` and
//! `f64::from_str` decide it.

use vstd::prelude::*;

verus! {

/// Whether `c` is one of `0` to `9`.
pub open spec fn is_digit(c: char) -> bool {
    48 <= c as u32 <= 57
}

/// Whether `c` can stand in a number token: a digit, a period or a minus
/// sign.
pub open spec fn is_number_char(c: char) -> bool {
    is_digit(c) || c == '.' || c == '-'
}

/// Whether all of `text` is digits.
pub open spec fn digits_only(text: Seq<char>) -> bool {
    forall|i: int| 0 <= i < text.len() ==> is_digit(#[trigger] text[i])
}

/// Whether `lexeme` starts with a minus sign.
pub open spec fn negative(lexeme: Seq<char>) -> bool {
    lexeme.len() > 0 && lexeme[0] == '-'
}

/// `lexeme` without its minus sign, if it starts with one.
pub open spec fn unsigned(lexeme: Seq<char>) -> Seq<char> {
    if negative(lexeme) {
        lexeme.skip(1)
    } else {
        lexeme
    }
}

/// The number that a run of digits stands for in base ten.
pub open spec fn decimal(digits: Seq<char>) -> int
    decreases digits.len(),
{
    if digits.len() == 0 {
        0
    } else {
        10 * decimal(digits.drop_last()) + (digits.last() as u32 - 48)
    }
}

/// The integer that `lexeme` stands for: an optional minus sign, then at
/// least one digit and nothing else, within the range of `i64`.
pub open spec fn integer_literal(lexeme: Seq<char>) -> Option<i64> {
    let body = unsigned(lexeme);
    let value = if negative(lexeme) {
        -decimal(body)
    } else {
        decimal(body)
    };
    if body.len() > 0 && digits_only(body) && i64::MIN <= value <= i64::MAX {
        Some(value as i64)
    } else {
        None
    }
}

/// Whether `lexeme` is a decimal number: an optional minus sign, then
/// digits around one period, with at least one digit.
pub open spec fn decimal_literal(lexeme: Seq<char>) -> bool {
    let body = unsigned(lexeme);
    exists|dot: int|
        {
            &&& 0 <= dot < body.len()
            &&& #[trigger] body[dot] == '.'
            &&& digits_only(body.take(dot))
            &&& digits_only(body.skip(dot + 1))
            &&& body.len() > 1
        }
}

/// Whether `c` is one of `0` to `9`.
pub fn digit(c: char) -> (b: bool)
    ensures
        b == is_digit(c),
{
    let code = c as u32;
    48 <= code && code <= 57
}

/// Whether `c` can stand in a number token.
pub fn number_char(c: char) -> (b: bool)
    ensures
        b == is_number_char(c),
{
    digit(c) || c == '.' || c == '-'
}

/// A run of digits stands for a number that is not negative and not less
/// than what any of its beginnings stands for.
pub proof fn lemma_decimal_grows(digits: Seq<char>, k: int)
    requires
        digits_only(digits),
        0 <= k <= digits.len(),
    ensures
        0 <= decimal(digits.take(k)) <= decimal(digits),
    decreases digits.len() - k,
{
    if k == digits.len() {
        assert(digits.take(k) =~= digits);
        lemma_decimal_nonnegative(digits);
    } else {
        lemma_decimal_grows(digits, k + 1);
        let longer = digits.take(k + 1);
        assert(longer.drop_last() =~= digits.take(k));
        assert(is_digit(digits[k]));
        lemma_decimal_nonnegative(digits.take(k));
    }
}

/// A run of digits stands for a number that is not negative.
pub proof fn lemma_decimal_nonnegative(digits: Seq<char>)
    requires
        digits_only(digits),
    ensures
        0 <= decimal(digits),
    decreases digits.len(),
{
    if digits.len() > 0 {
        assert(is_digit(digits[digits.len() - 1]));
        lemma_decimal_nonnegative(digits.drop_last());
    }
}

/// Reads the characters of `chars` from `start` up to `end` as an integer.
pub fn parse_integer(chars: &Vec<char>, start: usize, end: usize) -> (r: Option<i64>)
    requires
        start < end <= chars.len(),
    ensures
        r == integer_literal(chars@.subrange(start as int, end as int)),
{
    let ghost lexeme = chars@.subrange(start as int, end as int);
    let ghost body = unsigned(lexeme);
    let neg = chars[start] == '-';
    let first = if neg {
        start + 1
    } else {
        start
    };
    assert(neg == negative(lexeme));
    assert(body =~= chars@.subrange(first as int, end as int));
    if first == end {
        return None;
    }
    let mut i = first;
    let mut acc: i64 = 0;
    assert(body.take(0) =~= Seq::<char>::empty());
    while i < end
        invariant
            first <= i <= end <= chars.len(),
            lexeme == chars@.subrange(start as int, end as int),
            body == unsigned(lexeme),
            neg == negative(lexeme),
            body.len() == end - first,
            body == chars@.subrange(first as int, end as int),
            digits_only(body.take(i - first)),
            acc == (if neg {
                -decimal(body.take(i - first))
            } else {
                decimal(body.take(i - first))
            }),
        decreases end - i,
    {
        let c = chars[i];
        let ghost k = i - first;
        assert(body[k] == c);
        if !digit(c) {
            assert(!is_digit(body[k]));
            return None;
        }
        let code = c as u32;
        let d = (code - 48) as i64;
        proof {
            assert(body.take(k + 1).drop_last() =~= body.take(k));
            assert(body.take(k + 1).last() == c);
            assert(digits_only(body.take(k + 1))) by {
                assert forall|j: int| 0 <= j < k + 1 implies is_digit(
                    #[trigger] body.take(k + 1)[j],
                ) by {
                    if j < k {
                        assert(body.take(k)[j] == body.take(k + 1)[j]);
                    }
                }
            }
            if digits_only(body) {
                lemma_decimal_grows(body, k + 1);
            }
            lemma_decimal_nonnegative(body.take(k));
            assert(decimal(body.take(k + 1)) == 10 * decimal(body.take(k)) + d);
        }
        let scaled = match acc.checked_mul(10) {
            Some(v) => v,
            None => {
                return None;
            },
        };
        let next = if neg {
            scaled.checked_sub(d)
        } else {
            scaled.checked_add(d)
        };
        acc = match next {
            Some(v) => v,
            None => {
                return None;
            },
        };
        i = i + 1;
    }
    assert(body.take(i - first) =~= body);
    Some(acc)
}

/// Whether the characters of `chars` from `start` up to `end` are a decimal
/// number.
pub fn is_decimal(chars: &Vec<char>, start: usize, end: usize) -> (b: bool)
    requires
        start < end <= chars.len(),
    ensures
        b == decimal_literal(chars@.subrange(start as int, end as int)),
{
    let ghost lexeme = chars@.subrange(start as int, end as int);
    let ghost body = unsigned(lexeme);
    let first = if chars[start] == '-' {
        start + 1
    } else {
        start
    };
    assert(body =~= chars@.subrange(first as int, end as int));
    let mut dot: Option<usize> = None;
    let mut i = first;
    while i < end
        invariant
            first <= i <= end <= chars.len(),
            body == chars@.subrange(first as int, end as int),
            body == unsigned(chars@.subrange(start as int, end as int)),
            match dot {
                None => digits_only(body.take(i - first)),
                Some(p) => {
                    &&& first <= p < i
                    &&& body[p - first] == '.'
                    &&& digits_only(body.take(p - first))
                    &&& digits_only(body.subrange(p - first + 1, i - first))
                },
            },
        decreases end - i,
    {
        let c = chars[i];
        let ghost k = i - first;
        assert(body[k] == c);
        if c == '.' {
            match dot {
                Some(p) => {
                    proof {
                        let q = p - first;
                        assert forall|d: int|
                            0 <= d < body.len() && #[trigger] body[d] == '.' && digits_only(
                                body.take(d),
                            ) implies !digits_only(body.skip(d + 1)) by {
                            if d < q {
                                assert(body.skip(d + 1)[q - d - 1] == '.');
                            } else if d < k {
                                if d > q {
                                    assert(body.take(d)[q] == '.');
                                }
                                assert(body.skip(d + 1)[k - d - 1] == '.');
                            } else {
                                assert(body.take(d)[q] == '.');
                            }
                        }
                    }
                    return false;
                },
                None => {
                    dot = Some(i);
                    assert(body.subrange(k + 1, k + 1) =~= Seq::<char>::empty());
                },
            }
        } else if !digit(c) {
            proof {
                assert forall|d: int|
                    0 <= d < body.len() && #[trigger] body[d] == '.' && digits_only(
                        body.take(d),
                    ) implies !digits_only(body.skip(d + 1)) by {
                    if k < d {
                        assert(body.take(d)[k] == c);
                    } else {
                        assert(body.skip(d + 1)[k - d - 1] == c);
                    }
                }
            }
            return false;
        } else {
            proof {
                match dot {
                    None => {
                        assert forall|j: int| 0 <= j < k + 1 implies is_digit(
                            #[trigger] body.take(k + 1)[j],
                        ) by {
                            if j < k {
                                assert(body.take(k)[j] == body.take(k + 1)[j]);
                            }
                        }
                    },
                    Some(p) => {
                        let q = p - first;
                        assert forall|j: int| 0 <= j < k - q implies is_digit(
                            #[trigger] body.subrange(q + 1, k + 1)[j],
                        ) by {
                            if j < k - q - 1 {
                                let longer = body.subrange(q + 1, k + 1);
                                assert(body.subrange(q + 1, k)[j] == longer[j]);
                            }
                        }
                    },
                }
            }
        }
        i = i + 1;
    }
    match dot {
        None => {
            proof {
                assert(body.take(i - first) =~= body);
                assert forall|d: int| 0 <= d < body.len() implies #[trigger] body[d] != '.' by {
                    assert(is_digit(body[d]));
                }
            }
            false
        },
        Some(p) => {
            proof {
                let q = p - first;
                assert(body.subrange(q + 1, i - first) =~= body.skip(q + 1));
            }
            end - first > 1
        },
    }
}

} // verus!
