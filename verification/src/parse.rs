//! Fixed-point numeric parser.
//!
//! The input grammar is `-?D{1,2}.D`: an optional minus sign, one or two
//! integer digits, a dot, and exactly one fractional digit. The parser returns
//! the value scaled by ten as a signed integer, so `"-12.3"` becomes `-123`.
//! Digit extraction is purely positional; a span whose length is not 3, 4 or 5
//! yields the fallback value 0.

use vstd::prelude::*;

verus! {

/// The numeric weight the grammar assigns to one ASCII digit byte.
pub open spec fn digit_val(b: u8) -> int {
    b - 48
}

/// The scaled value of a byte span under the positional fixed-point grammar:
/// five bytes read as `-XX.X`, four as `-D.D` or `DD.D` depending on a leading
/// minus, three as `D.D`; every other length falls back to 0.
pub open spec fn parse_spec(v: Seq<u8>) -> int {
    if v.len() == 5 {
        -(digit_val(v[1]) * 100 + digit_val(v[2]) * 10 + digit_val(v[4]))
    } else if v.len() == 4 {
        if v[0] == 45 {
            -(digit_val(v[1]) * 10 + digit_val(v[3]))
        } else {
            digit_val(v[0]) * 100 + digit_val(v[1]) * 10 + digit_val(v[3])
        }
    } else if v.len() == 3 {
        digit_val(v[0]) * 10 + digit_val(v[2])
    } else {
        0
    }
}

/// Reads one digit byte; widening to `i16` keeps the subtraction exact even
/// for bytes below `b'0'`.
pub fn parse_digit(b: u8) -> (r: i16)
    ensures
        r as int == digit_val(b),
{
    (b as i16) - 48
}

/// Decodes a value span to its scaled integer.
pub fn parse_int(input: &[u8]) -> (r: i16)
    ensures
        r as int == parse_spec(input@),
{
    let n = input.len();
    if n == 5 {
        let a = parse_digit(*vstd::slice::slice_index_get(input, 1));
        let b = parse_digit(*vstd::slice::slice_index_get(input, 2));
        let c = parse_digit(*vstd::slice::slice_index_get(input, 4));
        -(a * 100 + b * 10 + c)
    } else if n == 4 {
        if *vstd::slice::slice_index_get(input, 0) == 45 {
            let a = parse_digit(*vstd::slice::slice_index_get(input, 1));
            let b = parse_digit(*vstd::slice::slice_index_get(input, 3));
            -(a * 10 + b)
        } else {
            let a = parse_digit(*vstd::slice::slice_index_get(input, 0));
            let b = parse_digit(*vstd::slice::slice_index_get(input, 1));
            let c = parse_digit(*vstd::slice::slice_index_get(input, 3));
            a * 100 + b * 10 + c
        }
    } else if n == 3 {
        let a = parse_digit(*vstd::slice::slice_index_get(input, 0));
        let b = parse_digit(*vstd::slice::slice_index_get(input, 2));
        a * 10 + b
    } else {
        0
    }
}

} // verus!
