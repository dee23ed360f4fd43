//! Decisions on the user's answers: numbers within a range, and yes or no.

use vstd::prelude::*;
use crate::text::{
    decimal_round_trip, decimal_text, lemma_decimal_digits_value, lowercase_text, parse_i32, parse_i32_text, to_lowercase, trim,
    trim_end, trim_start, trimmed,
};

verus! {

/// The outcome of one answer to a request for a number in a range.
#[derive(PartialEq, Eq, Debug, Clone, Copy)]
pub enum IntInput {
    /// The number stands and is in the range: asking is over.
    Accepted(i32),
    /// The number that stands is outside the range: ask again.
    Rejected(i32),
}

/// The number that stands after an answer: the answer read as an `i32` once
/// trimmed, or the number that stood before when the answer is not one.
pub open spec fn next_input_value(line: Seq<char>, current: i32) -> i32 {
    match parse_i32_text(trimmed(line)) {
        Some(v) => v,
        None => current,
    }
}

/// The number that stands before the first answer: one past the range, so that
/// asking goes on until an answer falls in the range.
pub fn first_int_value(valid_range_end: i32) -> (r: i32)
    requires
        valid_range_end < i32::MAX,
    ensures
        r == valid_range_end + 1,
        r > valid_range_end,
{
    valid_range_end + 1
}

/// Takes one answer to a request for a number from `valid_range_start` to
/// `valid_range_end`: the number that now stands is accepted when it lies in the
/// range and rejected otherwise.
pub fn int_input_step(
    line: &str,
    current: i32,
    valid_range_start: i32,
    valid_range_end: i32,
) -> (r: IntInput)
    ensures
        ({
            let v = next_input_value(line@, current);
            if valid_range_start <= v <= valid_range_end {
                r == IntInput::Accepted(v)
            } else {
                r == IntInput::Rejected(v)
            }
        }),
        r matches IntInput::Accepted(v) ==> valid_range_start <= v <= valid_range_end,
{
    let trimmed_line: String = trim(line);
    let value: i32 = match parse_i32(trimmed_line.as_str()) {
        Some(v) => v,
        None => current,
    };
    if valid_range_start <= value && value <= valid_range_end {
        IntInput::Accepted(value)
    } else {
        IntInput::Rejected(value)
    }
}

/// Reads an answer to a yes-or-no question: yes when its first character, in
/// lower case, is `y`; `None` for an empty answer.
pub fn answer_is_yes(answer: &str) -> (r: Option<bool>)
    ensures
        r == (if lowercase_text(answer@).len() == 0 {
            None
        } else {
            Some(lowercase_text(answer@)[0] == 'y')
        }),
{
    let lower: String = to_lowercase(answer);
    let s: &str = lower.as_str();
    if s.unicode_len() == 0 {
        None
    } else {
        Some(s.get_char(0) == 'y')
    }
}

/// An answer that is a number written out in decimal, as `Display` writes an
/// `i32`, makes that number stand, whatever stood before.
pub proof fn typed_number_stands(n: i32, current: i32)
    ensures
        next_input_value(decimal_text(n as int), current) == n,
{
    let t = decimal_text(n as int);
    decimal_round_trip(n);
    assert(parse_i32_text(t) is Some);
    assert(t.len() > 0);
    assert('0' <= t.last() <= '9');
    if n >= 0 {
        lemma_decimal_digits_value(n as nat);
        assert('0' <= t[0] <= '9');
    }
    assert(trim_start(t) == t);
    assert(trim_end(t) == t);
}

} // verus!
