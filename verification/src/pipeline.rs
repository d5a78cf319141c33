//! The pure core of one run of the tool: given the file's current text,
//! compute the text that replaces it — the old text, a newline, and the sum
//! of all numbers in the old text — or the error that stops the run.

use crate::parse::{
    is_digit, is_space_char, parse_tokens, split_numbers, tokens, ParseError,
    lemma_parse_tokens_push, lemma_tokens_append_line,
};
use crate::render::{append_sum, dec_digits, lemma_dec_digits_roundtrip};
use crate::sum::{add_numbers_checked, sum_seq};
use vstd::prelude::*;

verus! {

/// What stops a run after the file was read: a token that is not an
/// unsigned decimal integer in range, or a total that does not fit in
/// `usize`.
#[derive(Debug)]
pub enum ProcessError {
    BadToken(ParseError),
    SumOverflow,
}

/// Computes the new file contents from the current text: every
/// whitespace-separated token parsed as an unsigned integer, their sum
/// appended after a newline. Fails exactly on the first malformed token,
/// or when the total exceeds `usize::MAX`.
pub fn new_contents(text: &String) -> (r: Result<String, ProcessError>)
    ensures
        ({
            let pt = parse_tokens(tokens(text@));
            match r {
                Ok(out) => pt matches Ok(nums) && sum_seq(nums) <= usize::MAX && out@ == text@
                    + seq!['\n'] + dec_digits(sum_seq(nums)),
                Err(ProcessError::BadToken(e)) => pt matches Err(t) && e.token@ == t,
                Err(ProcessError::SumOverflow) => pt matches Ok(nums) && sum_seq(nums)
                    > usize::MAX,
            }
        }),
{
    match split_numbers(text) {
        Err(e) => Err(ProcessError::BadToken(e)),
        Ok(v) => match add_numbers_checked(&v) {
            None => Err(ProcessError::SumOverflow),
            Some(sum) => Ok(append_sum(text.as_str(), sum)),
        },
    }
}

/// A run feeds the next one: when the current text parses to `nums` and
/// their sum fits, the new contents parse to `nums` with the sum appended
/// as one more number. The file thus accumulates a running log of sums,
/// each re-summed by the next run.
pub proof fn lemma_rerun_parses_appended_sum(text: Seq<char>, nums: Seq<usize>)
    requires
        parse_tokens(tokens(text)) == Ok::<Seq<usize>, Seq<char>>(nums),
        sum_seq(nums) <= usize::MAX,
    ensures
        ({
            let out = text + seq!['\n'] + dec_digits(sum_seq(nums));
            &&& tokens(out) == tokens(text).push(dec_digits(sum_seq(nums)))
            &&& parse_tokens(tokens(out)) == Ok::<Seq<usize>, Seq<char>>(
                nums.push(sum_seq(nums) as usize),
            )
        }),
{
    let n = sum_seq(nums);
    let d = dec_digits(n);
    lemma_dec_digits_roundtrip(n);
    assert(forall|i: int| 0 <= i < d.len() ==> !is_space_char(#[trigger] d[i])) by {
        assert(forall|i: int| 0 <= i < d.len() ==> is_digit(#[trigger] d[i]));
    }
    lemma_tokens_append_line(text, d);
    lemma_parse_tokens_push(tokens(text), nums, d);
}

} // verus!
