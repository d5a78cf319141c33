//! Splitting text on whitespace and parsing each token as an unsigned
//! decimal integer.
//!
//! The model: `tokens` gives the maximal runs of non-whitespace characters,
//! in order; `parse_tokens` parses them left to right, stopping at the first
//! token that is not an unsigned decimal integer that fits in `usize`.
//! Parsing is atomic: one bad token fails the whole text.

use vstd::prelude::*;

verus! {

use vstd::string::StrSliceExecFns;

/// The whitespace characters that separate tokens: space, tab, line feed,
/// vertical tab, form feed and carriage return.
pub open spec fn is_space_char(c: char) -> bool {
    c == ' ' || c == '\t' || c == '\n' || c == '\u{b}' || c == '\u{c}' || c == '\r'
}

/// A decimal digit.
pub open spec fn is_digit(c: char) -> bool {
    '0' as int <= c as int && c as int <= '9' as int
}

/// The numeric value of a decimal digit.
pub open spec fn digit_val(c: char) -> nat {
    (c as int - '0' as int) as nat
}

/// The value of a sequence of decimal digits, most significant first.
/// The empty sequence counts as zero.
pub open spec fn digits_val(t: Seq<char>) -> nat
    decreases t.len(),
{
    if t.len() == 0 {
        0
    } else {
        digits_val(t.drop_last()) * 10 + digit_val(t.last())
    }
}

/// The digits of a numeric token: everything after an optional leading `+`.
pub open spec fn num_digits(t: Seq<char>) -> Seq<char> {
    if t.len() > 0 && t[0] == '+' {
        t.drop_first()
    } else {
        t
    }
}

/// Whether a token is a non-negative decimal integer literal: an optional
/// leading `+`, then at least one digit.
pub open spec fn is_num_token(t: Seq<char>) -> bool {
    num_digits(t).len() > 0 && (forall|i: int|
        0 <= i < num_digits(t).len() ==> is_digit(num_digits(t)[i]))
}

/// The value of a numeric token.
pub open spec fn token_val(t: Seq<char>) -> nat {
    digits_val(num_digits(t))
}

/// The length of the maximal run of non-whitespace characters at the front.
pub open spec fn token_len(s: Seq<char>) -> nat
    decreases s.len(),
{
    if s.len() == 0 || is_space_char(s[0]) {
        0
    } else {
        1 + token_len(s.drop_first())
    }
}

/// The front token run is at most the whole text.
proof fn lemma_token_len_le(s: Seq<char>)
    ensures
        token_len(s) <= s.len(),
    decreases s.len(),
{
    if s.len() > 0 && !is_space_char(s[0]) {
        lemma_token_len_le(s.drop_first());
    }
}

/// The tokens of a text: the maximal runs of non-whitespace characters,
/// in left-to-right order. Consecutive whitespace collapses; leading and
/// trailing whitespace is ignored; all-whitespace text has no tokens.
pub open spec fn tokens(s: Seq<char>) -> Seq<Seq<char>>
    decreases s.len(),
    via tokens_decreases
{
    if s.len() == 0 {
        Seq::empty()
    } else if is_space_char(s[0]) {
        tokens(s.drop_first())
    } else {
        seq![s.take(token_len(s) as int)] + tokens(s.skip(token_len(s) as int))
    }
}

#[via_fn]
proof fn tokens_decreases(s: Seq<char>) {
    if s.len() > 0 && !is_space_char(s[0]) {
        lemma_token_len_le(s);
    }
}

/// A scan that stops at the first whitespace character (or the end) has
/// found exactly the front token run.
proof fn lemma_token_len_from_scan(s: Seq<char>, j: int)
    requires
        0 <= j <= s.len(),
        forall|k: int| 0 <= k < j ==> !is_space_char(s[k]),
        j == s.len() || is_space_char(s[j]),
    ensures
        token_len(s) == j,
    decreases j,
{
    if j > 0 {
        lemma_token_len_from_scan(s.drop_first(), j - 1);
    }
}

/// The front token run ends exactly at the first whitespace character, or
/// at the end of the text.
proof fn lemma_token_len_charac(s: Seq<char>)
    ensures
        token_len(s) <= s.len(),
        forall|k: int| 0 <= k < token_len(s) ==> !is_space_char(#[trigger] s[k]),
        token_len(s) < s.len() ==> is_space_char(s[token_len(s) as int]),
    decreases s.len(),
{
    if s.len() > 0 && !is_space_char(s[0]) {
        lemma_token_len_charac(s.drop_first());
        assert(forall|k: int|
            1 <= k < token_len(s) ==> #[trigger] s[k] == s.drop_first()[k - 1]);
        if token_len(s) < s.len() {
            assert(s[token_len(s) as int] == s.drop_first()[token_len(s.drop_first()) as int]);
        }
    }
}

/// Text that is one whole run of non-whitespace characters is one token.
proof fn lemma_tokens_single(d: Seq<char>)
    requires
        d.len() > 0,
        forall|i: int| 0 <= i < d.len() ==> !is_space_char(#[trigger] d[i]),
    ensures
        tokens(d) == seq![d],
{
    lemma_token_len_from_scan(d, d.len() as int);
    assert(!is_space_char(d[0]));
    assert(d.take(d.len() as int) =~= d);
    assert(d.skip(d.len() as int) =~= Seq::<char>::empty());
    assert(tokens(Seq::<char>::empty()) == Seq::<Seq<char>>::empty());
    assert(tokens(d) =~= seq![d]);
}

/// Appending a newline and one run of non-whitespace characters to any text
/// appends exactly that run to its tokens.
pub proof fn lemma_tokens_append_line(s: Seq<char>, d: Seq<char>)
    requires
        d.len() > 0,
        forall|i: int| 0 <= i < d.len() ==> !is_space_char(#[trigger] d[i]),
    ensures
        tokens(s + seq!['\n'] + d) == tokens(s).push(d),
    decreases s.len(),
{
    let w = s + seq!['\n'] + d;
    if s.len() == 0 {
        assert(is_space_char(w[0]));
        assert(w.drop_first() =~= d);
        lemma_tokens_single(d);
        assert(tokens(s) == Seq::<Seq<char>>::empty());
        assert(tokens(w) =~= tokens(s).push(d));
    } else if is_space_char(s[0]) {
        assert(w[0] == s[0]);
        assert(w.drop_first() =~= s.drop_first() + seq!['\n'] + d);
        lemma_tokens_append_line(s.drop_first(), d);
    } else {
        lemma_token_len_charac(s);
        let tl = token_len(s) as int;
        assert(forall|k: int| 0 <= k < tl ==> #[trigger] w[k] == s[k]);
        if tl < s.len() {
            assert(w[tl] == s[tl]);
        } else {
            assert(w[tl] == '\n');
        }
        lemma_token_len_from_scan(w, tl);
        assert(w.take(tl) =~= s.take(tl));
        assert(w.skip(tl) =~= s.skip(tl) + seq!['\n'] + d);
        lemma_tokens_append_line(s.skip(tl), d);
        assert(tokens(w) =~= tokens(s).push(d));
    }
}

/// The values of a list of tokens, each parsed as an unsigned integer that
/// fits in `usize`, or the first token that does not parse so.
pub open spec fn parse_tokens(toks: Seq<Seq<char>>) -> Result<Seq<usize>, Seq<char>>
    decreases toks.len(),
{
    if toks.len() == 0 {
        Ok(Seq::empty())
    } else if !(is_num_token(toks[0]) && token_val(toks[0]) <= usize::MAX) {
        Err(toks[0])
    } else {
        match parse_tokens(toks.drop_first()) {
            Ok(rest) => Ok(seq![token_val(toks[0]) as usize] + rest),
            Err(t) => Err(t),
        }
    }
}

/// Parsing a token list with one more valid token at its end appends that
/// token's value to the parsed values.
pub proof fn lemma_parse_tokens_push(toks: Seq<Seq<char>>, nums: Seq<usize>, t: Seq<char>)
    requires
        parse_tokens(toks) == Ok::<Seq<usize>, Seq<char>>(nums),
        is_num_token(t),
        token_val(t) <= usize::MAX,
    ensures
        parse_tokens(toks.push(t)) == Ok::<Seq<usize>, Seq<char>>(
            nums.push(token_val(t) as usize),
        ),
    decreases toks.len(),
{
    if toks.len() == 0 {
        assert(toks.push(t) =~= seq![t]);
        assert(seq![t][0] == t);
        assert(seq![t].drop_first() =~= Seq::<Seq<char>>::empty());
        assert(parse_tokens(Seq::<Seq<char>>::empty()) == Ok::<Seq<usize>, Seq<char>>(
            Seq::<usize>::empty(),
        ));
        assert(nums =~= Seq::<usize>::empty());
        assert(nums.push(token_val(t) as usize) =~= seq![token_val(t) as usize]
            + Seq::<usize>::empty());
    } else {
        let rest = toks.drop_first();
        match parse_tokens(rest) {
            Ok(ns2) => {
                lemma_parse_tokens_push(rest, ns2, t);
                assert(toks.push(t).drop_first() =~= rest.push(t));
                assert(toks.push(t)[0] == toks[0]);
                assert(nums =~= seq![token_val(toks[0]) as usize] + ns2);
                assert(nums.push(token_val(t) as usize) =~= seq![token_val(toks[0]) as usize]
                    + ns2.push(token_val(t) as usize));
            },
            Err(_) => {
                assert(false);
            },
        }
    }
}

/// The error of `split_numbers`: the first token that is not an unsigned
/// decimal integer in range.
#[derive(Debug)]
pub struct ParseError {
    pub token: String,
}

/// The value of a digit prefix never exceeds the value of the whole digit
/// run: appending a digit multiplies by ten and adds.
proof fn lemma_digits_val_take_le(t: Seq<char>, j: int)
    requires
        0 <= j <= t.len(),
    ensures
        digits_val(t.take(j)) <= digits_val(t),
    decreases t.len() - j,
{
    if j == t.len() {
        assert(t.take(j) =~= t);
    } else {
        assert(t.take(j + 1).drop_last() =~= t.take(j));
        assert(t.take(j + 1).last() == t[j]);
        lemma_digits_val_take_le(t, j + 1);
    }
}

/// Tests a character for whitespace.
fn is_space(c: char) -> (r: bool)
    ensures
        r == is_space_char(c),
{
    c == ' ' || c == '\t' || c == '\n' || c == '\u{b}' || c == '\u{c}' || c == '\r'
}

/// Parses the token `s[i..j]` as an unsigned decimal integer, or reports
/// `None` when it is malformed or does not fit in `usize`.
fn parse_token(s: &str, i: usize, j: usize) -> (r: Option<usize>)
    requires
        i < j <= s@.len(),
    ensures
        ({
            let t = s@.subrange(i as int, j as int);
            match r {
                Some(x) => is_num_token(t) && token_val(t) <= usize::MAX && x == token_val(t),
                None => !(is_num_token(t) && token_val(t) <= usize::MAX),
            }
        }),
{
    let ghost t = s@.subrange(i as int, j as int);
    let start: usize = if s.get_char(i) == '+' {
        i + 1
    } else {
        i
    };
    proof {
        assert(num_digits(t) =~= s@.subrange(start as int, j as int));
    }
    if start == j {
        // A bare `+` has no digits.
        return None;
    }
    let ghost d = s@.subrange(start as int, j as int);
    let mut k: usize = start;
    let mut acc: u128 = 0;
    while k < j
        invariant
            start <= k <= j,
            i <= start < j <= s@.len(),
            t == s@.subrange(i as int, j as int),
            d == s@.subrange(start as int, j as int),
            num_digits(t) == d,
            forall|m: int| start <= m < k ==> is_digit(s@[m]),
            acc == digits_val(d.take(k - start)),
            acc <= usize::MAX as u128 * 10 + 9,
        decreases j - k,
    {
        let c = s.get_char(k);
        let u: u32 = c as u32;
        if u < 48 || 57 < u {
            proof {
                assert(!is_digit(c));
                assert(s@.subrange(start as int, j as int)[k - start] == s@[k as int]);
                assert(num_digits(t)[k - start] == c);
            }
            return None;
        }
        if acc > usize::MAX as u128 {
            proof {
                lemma_digits_val_take_le(d, k - start);
                assert(token_val(t) > usize::MAX);
            }
            return None;
        }
        let dv: u32 = u - 48;
        proof {
            assert(d.take(k - start + 1).drop_last() =~= d.take(k - start));
            assert(d.take(k - start + 1).last() == s@[k as int]);
            assert(dv as nat == digit_val(s@[k as int]));
        }
        acc = acc * 10 + dv as u128;
        k = k + 1;
    }
    proof {
        assert(d.take(j - start) =~= d);
        assert(is_num_token(t));
        assert(acc == token_val(t));
    }
    if acc > usize::MAX as u128 {
        None
    } else {
        Some(acc as usize)
    }
}

/// Parses every token of `s` at or after position `i`, left to right, where
/// `i` does not stand inside a token.
fn parse_from(s: &str, i: usize, len: usize) -> (r: Result<Vec<usize>, ParseError>)
    requires
        len == s@.len(),
        i <= len,
    ensures
        ({
            let pt = parse_tokens(tokens(s@.skip(i as int)));
            match r {
                Ok(v) => pt == Ok::<Seq<usize>, Seq<char>>(v@),
                Err(e) => pt == Err::<Seq<usize>, Seq<char>>(e.token@),
            }
        }),
    decreases len - i,
{
    if i == len {
        proof {
            assert(s@.skip(i as int) =~= Seq::<char>::empty());
        }
        Ok(Vec::new())
    } else {
        let ghost rem = s@.skip(i as int);
        let c = s.get_char(i);
        if is_space(c) {
            proof {
                assert(rem.drop_first() =~= s@.skip(i + 1));
            }
            parse_from(s, i + 1, len)
        } else {
            let mut j: usize = i + 1;
            while j < len && !is_space(s.get_char(j))
                invariant
                    i < j <= len,
                    len == s@.len(),
                    forall|k: int| i <= k < j ==> !is_space_char(s@[k]),
                decreases len - j,
            {
                j = j + 1;
            }
            let ghost tok = s@.subrange(i as int, j as int);
            proof {
                assert(forall|k: int| 0 <= k < j - i ==> !is_space_char(rem[k]));
                assert(j - i == rem.len() || is_space_char(rem[j - i]));
                lemma_token_len_from_scan(rem, j - i);
                assert(rem.take(j - i) =~= tok);
                assert(rem.skip(j - i) =~= s@.skip(j as int));
                assert(tokens(rem) == seq![tok] + tokens(s@.skip(j as int)));
                assert((seq![tok] + tokens(s@.skip(j as int)))[0] == tok);
                assert((seq![tok] + tokens(s@.skip(j as int))).drop_first() =~= tokens(
                    s@.skip(j as int),
                ));
            }
            match parse_token(s, i, j) {
                Some(x) => {
                    match parse_from(s, j, len) {
                        Ok(mut v) => {
                            let ghost v0 = v@;
                            v.insert(0, x);
                            proof {
                                assert(v@ =~= seq![x] + v0);
                                assert(seq![token_val(tok) as usize] + v0 =~= v@);
                            }
                            Ok(v)
                        },
                        Err(e) => Err(e),
                    }
                },
                None => {
                    let token = s.substring_char(i, j).to_owned();
                    proof {
                        assert(token@ == tok);
                        assert(parse_tokens(tokens(rem)) == Err::<Seq<usize>, Seq<char>>(tok));
                    }
                    Err(ParseError { token })
                },
            }
        }
    }
}

/// Splits the text on whitespace and parses every token as an unsigned
/// integer. Empty or all-whitespace text gives an empty vector; one bad
/// token fails the whole text, and the error carries the first such token.
pub fn split_numbers(s: &String) -> (r: Result<Vec<usize>, ParseError>)
    ensures
        ({
            let pt = parse_tokens(tokens(s@));
            match r {
                Ok(v) => pt == Ok::<Seq<usize>, Seq<char>>(v@),
                Err(e) => pt == Err::<Seq<usize>, Seq<char>>(e.token@),
            }
        }),
{
    let len: usize = s.as_str().unicode_len();
    proof {
        assert(s@.skip(0) =~= s@);
    }
    parse_from(s.as_str(), 0, len)
}

} // verus!
