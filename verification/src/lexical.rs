//! The lexical helpers: white space, integer literals and names.

use vstd::prelude::*;
use vstd::std_specs::iter::IteratorSpec;
use vstd::string::*;
use crate::chars::{digit_value, is_digit, is_name_char, is_name_start, is_whitespace};
use crate::grammar;
use crate::grammar::{decimal_value, is_suffix, parsed};
use crate::results;
use crate::syntax::{is_name, ParseError};
use crate::text::{satisfy, take_while};

verus! {

/// Skips the white space that `input` starts with.
pub fn skip_ws(input: &str) -> (rest: &str)
    ensures
        rest@ == grammar::skip_ws(input@),
        is_suffix(rest@, input@),
{
    let (rest, taken) = take_while(is_whitespace, input);
    proof {
        let n = taken@.len() as int;
        assert forall|i: int| 0 <= i < n implies (grammar::whitespace())(#[trigger] input@[i]) by {
            assert(input@[i] == taken@[i]);
        }
        if n < input@.len() {
            assert(input@[n] == rest@[0]);
        }
        grammar::lemma_run_len_is(grammar::whitespace(), input@, n);
        assert(rest@ =~= input@.skip(n));
        results::lemma_skip_ws(input@);
    }
    rest
}

/// The number that a run of decimal digits writes, if an `i32` can hold it.
fn decimal(digits: &str) -> (res: Option<i32>)
    requires
        forall|i: int| 0 <= i < digits@.len() ==> is_digit(#[trigger] digits@[i]),
    ensures
        res == if decimal_value(digits@) <= i32::MAX {
            Some(decimal_value(digits@) as i32)
        } else {
            None
        },
{
    let mut it = digits.chars();
    let mut value: i32 = 0;
    let ghost mut k: int = 0;
    loop
        invariant_except_break
            it.remaining() == digits@.skip(k),
        invariant
            0 <= k <= digits@.len(),
            0 <= value,
            value == decimal_value(digits@.take(k)),
            forall|i: int| 0 <= i < digits@.len() ==> is_digit(#[trigger] digits@[i]),
        ensures
            k == digits@.len(),
        decreases digits@.len() - k,
    {
        match it.next() {
            None => {
                break ;
            },
            Some(c) => {
                assert(c == digits@[k]);
                let d: i32 = (c as u32 - '0' as u32) as i32;
                proof {
                    assert(digits@.take(k + 1).drop_last() =~= digits@.take(k));
                    assert(digits@.take(k + 1).last() == c);
                    assert(d == digit_value(c));
                    assert(decimal_value(digits@.take(k + 1)) == 10 * value + d);
                }
                if value > (i32::MAX - d) / 10 {
                    proof {
                        results::lemma_decimal_value_prefix(digits@, k + 1);
                    }
                    return None;
                }
                value = value * 10 + d;
                proof {
                    assert(digits@.skip(k).skip(1) =~= digits@.skip(k + 1));
                    k = k + 1;
                }
            },
        }
    }
    assert(digits@.take(k) =~= digits@);
    Some(value)
}

/// Reads an integer literal off the start of `input`: its longest run of
/// decimal digits. With no digit there the error is `Empty` or
/// `InvalidChar`; a run that writes more than an `i32` holds is an
/// `InvalidSequence` with the run as its text.
pub fn parse_i32(input: &str) -> (res: Result<(&str, i32), ParseError<'_>>)
    ensures
        parsed(res) == grammar::integer_literal(input@),
        res matches Ok((rest, n)) ==> {
            &&& is_suffix(rest@, input@)
            &&& rest@.len() < input@.len()
            &&& n >= 0
        },
{
    proof {
        results::lemma_integer_literal_result(input@);
    }
    match satisfy(is_digit, input) {
        Err(e) => {
            return Err(e);
        },
        Ok(_) => {},
    }
    let (rest, digits) = take_while(is_digit, input);
    proof {
        let n = digits@.len() as int;
        assert forall|i: int| 0 <= i < n implies (grammar::digit())(#[trigger] input@[i]) by {
            assert(input@[i] == digits@[i]);
        }
        if n < input@.len() {
            assert(input@[n] == rest@[0]);
        }
        grammar::lemma_run_len_is(grammar::digit(), input@, n);
        assert(rest@ =~= input@.skip(n));
        assert(digits@ =~= input@.take(n));
    }
    match decimal(digits) {
        None => Err(ParseError::InvalidSequence(digits)),
        Some(n) => Ok((rest, n)),
    }
}

/// Reads a name: skips white space, requires a letter or an underscore,
/// takes the longest run of letters, digits and underscores that starts
/// there, and skips the white space after it.
pub fn parse_name(input: &str) -> (res: Result<(&str, String), ParseError<'_>>)
    ensures
        parsed(res) == grammar::identifier(input@),
        res matches Ok((rest, name)) ==> {
            &&& is_suffix(rest@, input@)
            &&& rest@.len() < input@.len()
            &&& is_name(name@)
        },
{
    proof {
        results::lemma_identifier_result(input@);
    }
    let start = skip_ws(input);
    match satisfy(is_name_start, start) {
        Err(e) => {
            return Err(e);
        },
        Ok(_) => {},
    }
    let (rest, name) = take_while(is_name_char, start);
    proof {
        let n = name@.len() as int;
        assert forall|i: int| 0 <= i < n implies (grammar::name_char())(#[trigger] start@[i]) by {
            assert(start@[i] == name@[i]);
        }
        if n < start@.len() {
            assert(start@[n] == rest@[0]);
        }
        grammar::lemma_run_len_is(grammar::name_char(), start@, n);
        assert(rest@ =~= start@.skip(n));
        assert(name@ =~= start@.take(n));
    }
    let rest = skip_ws(rest);
    Ok((rest, name.to_owned()))
}

} // verus!
