//! The primitive matchers: the only functions that look at the characters of
//! a string slice. Each returns what is left of its input as a slice of it.

use std::str::Chars;
use vstd::prelude::*;
use vstd::std_specs::iter::IteratorSpec;
use vstd::string::*;
use crate::syntax::{ErrorView, ParseError};

verus! {

/// `Chars::as_str` of the standard library: the part of the slice that the
/// iterator has not yet handed out. The contract says that this text is,
/// character for character, what the iterator still has to give.
pub assume_specification<'a>[ Chars::<'a>::as_str ](chars: &Chars<'a>) -> (rest: &'a str)
    ensures
        rest@ == chars.remaining(),
;

/// Takes the first character off `input`.
pub fn any_char(input: &str) -> (res: Result<(&str, char), ParseError<'_>>)
    ensures
        match res {
            Ok((rest, c)) => input@.len() > 0 && c == input@[0] && rest@ == input@.skip(1),
            Err(e) => input@.len() == 0 && e@ == ErrorView::Empty,
        },
{
    let mut it = input.chars();
    match it.next() {
        None => Err(ParseError::Empty),
        Some(c) => Ok((it.as_str(), c)),
    }
}

/// Takes the first character off `input` if `f` accepts it. On an empty
/// input the error is `Empty`; on a character that `f` turns down it is
/// `InvalidChar` with that character.
pub fn satisfy<F: FnOnce(char) -> bool>(f: F, input: &str) -> (res: Result<
    (&str, char),
    ParseError<'_>,
>)
    requires
        input@.len() > 0 ==> f.requires((input@[0],)),
    ensures
        match res {
            Ok((rest, c)) => {
                &&& input@.len() > 0
                &&& c == input@[0]
                &&& rest@ == input@.skip(1)
                &&& f.ensures((c,), true)
            },
            Err(e) => if input@.len() == 0 {
                e@ == ErrorView::Empty
            } else {
                e@ == ErrorView::InvalidChar(input@[0]) && f.ensures((input@[0],), false)
            },
        },
{
    let mut it = input.chars();
    match it.next() {
        None => Err(ParseError::Empty),
        Some(c) => {
            if f(c) {
                Ok((it.as_str(), c))
            } else {
                Err(ParseError::InvalidChar(c))
            }
        },
    }
}

/// The index after `n`, for an index into the characters of `input`.
fn next_index(input: &str, n: usize) -> (m: usize)
    requires
        n < input@.len(),
    ensures
        m == n + 1,
{
    if n == usize::MAX {
        // Never taken. A slice holds fewer than `usize::MAX` characters: their
        // count is a `usize` above `n`.
        input.unicode_len()
    } else {
        n + 1
    }
}

/// Splits `input` after its longest prefix of characters that `f` accepts.
/// Returns the remainder first and the prefix second.
pub fn take_while<F: Fn(char) -> bool>(f: F, input: &str) -> (res: (&str, &str))
    requires
        forall|i: int| 0 <= i < input@.len() ==> f.requires((#[trigger] input@[i],)),
    ensures
        res.1@ + res.0@ == input@,
        forall|i: int| 0 <= i < res.1@.len() ==> f.ensures((#[trigger] res.1@[i],), true),
        res.0@.len() > 0 ==> f.ensures((res.0@[0],), false),
{
    let mut it = input.chars();
    let mut rest: &str = input;
    let mut n: usize = 0;
    loop
        invariant_except_break
            it.remaining() == rest@,
        invariant
            n <= input@.len(),
            rest@ == input@.skip(n as int),
            forall|i: int| 0 <= i < input@.len() ==> f.requires((#[trigger] input@[i],)),
            forall|i: int| 0 <= i < n ==> f.ensures((#[trigger] input@[i],), true),
        ensures
            n <= input@.len(),
            rest@ == input@.skip(n as int),
            forall|i: int| 0 <= i < n ==> f.ensures((#[trigger] input@[i],), true),
            n < input@.len() ==> f.ensures((input@[n as int],), false),
        decreases input@.len() - n,
    {
        match it.next() {
            None => {
                break ;
            },
            Some(c) => {
                assert(c == input@[n as int]);
                if !f(c) {
                    break ;
                }
                n = next_index(input, n);
                rest = it.as_str();
                assert(input@.skip(n - 1).skip(1) == input@.skip(n as int));
            },
        }
    }
    let taken = input.substring_char(0, n);
    assert(taken@ + rest@ == input@);
    (rest, taken)
}

} // verus!
