use vstd::prelude::*;
use vstd::string::*;
use crate::model::{is_digit, is_numeric_char, is_number};

verus! {

/// Relies on `String::push`: appends the character to the end of the string.
#[verifier::external_body]
pub(crate) fn push_char(s: &mut String, c: char)
    ensures
        final(s)@ == old(s)@.push(c),
{
    s.push(c)
}

/// A string holding the one character `c`.
pub fn char_token(c: char) -> (r: String)
    ensures
        r@ == seq![c],
{
    let mut r = String::new();
    push_char(&mut r, c);
    proof {
        assert(r@ =~= seq![c]);
    }
    r
}

/// The character of a one-character string.
pub fn single_char(t: &str) -> (r: Option<char>)
    ensures
        r == (if t@.len() == 1 {
            Some(t@[0])
        } else {
            None::<char>
        }),
{
    if t.unicode_len() == 1 {
        Some(t.get_char(0))
    } else {
        None
    }
}

pub fn is_digit_char(c: char) -> (r: bool)
    ensures
        r == is_digit(c),
{
    '0' <= c && c <= '9'
}

pub fn is_numeric(c: char) -> (r: bool)
    ensures
        r == is_numeric_char(c),
{
    is_digit_char(c) || c == '.'
}

/// Whether a token is a decimal literal.
pub fn is_number_token(t: &str) -> (r: bool)
    ensures
        r == is_number(t@),
{
    let n = t.unicode_len();
    let mut i: usize = 0;
    let mut digits: bool = false;
    let mut dot: Option<usize> = None;
    while i < n
        invariant
            n == t@.len(),
            i <= n,
            forall|k: int| 0 <= k < i ==> is_numeric_char(#[trigger] t@[k]),
            digits == exists|k: int| 0 <= k < i && is_digit(#[trigger] t@[k]),
            match dot {
                None => forall|k: int| 0 <= k < i ==> #[trigger] t@[k] != '.',
                Some(d) => d < i && t@[d as int] == '.' && forall|k: int|
                    0 <= k < i && k != d ==> #[trigger] t@[k] != '.',
            },
        decreases n - i,
    {
        let c = t.get_char(i);
        if !is_numeric(c) {
            return false;
        }
        if c == '.' {
            match dot {
                Some(d) => {
                    assert(t@[d as int] == '.' && t@[i as int] == '.');
                    return false;
                },
                None => {
                    dot = Some(i);
                },
            }
        }
        if is_digit_char(c) {
            digits = true;
        }
        i += 1;
    }
    if !digits {
        return false;
    }
    proof {
        assert forall|a: int, b: int|
            0 <= a < t@.len() && 0 <= b < t@.len() && #[trigger] t@[a] == '.' && #[trigger] t@[b]
                == '.' implies a == b by {
            match dot {
                None => {},
                Some(d) => {},
            }
        }
    }
    true
}

} // verus!
