//! The lexical atoms of the format: words, their underscore-joined segments,
//! and the filler between the structural tokens.
//!
//! Each parser takes the input by reference and returns what is left of it
//! together with the slice it matched, or the place where it stopped. A parser
//! that fails has consumed nothing. Its contract equates the view of its result
//! with a specification function over the characters of the input.
use crate::error::{view_str, ErrorKind, ParseError, Parsed};
use crate::text::{
    consumed, first_in, is_letter, is_suffix, lemma_run_len_bounds, run_len, starts_with,
    strip_char, take_while, CharClass,
};
use vstd::prelude::*;

verus! {

/// Code of `_`.
pub(crate) const UNDERSCORE: u8 = 95;

/// Code of `#`.
pub(crate) const HASH: u8 = 35;

/// Code of the line feed.
pub(crate) const LINE_FEED: u8 = 10;

/// A letter followed by the longest run of letters and digits.
pub open spec fn spec_alphaword(s: Seq<char>) -> Parsed<Seq<char>> {
    if s.len() > 0 && is_letter(s[0]) {
        let n = run_len(s, CharClass::AlphaNumeric) as int;
        Ok((s.skip(n), s.take(n)))
    } else {
        Err((s, ErrorKind::Alpha))
    }
}

/// An underscore followed by the longest run of letters and digits, which
/// must not be empty.
pub open spec fn spec_underscore_word(s: Seq<char>) -> Parsed<Seq<char>> {
    if !starts_with(s, '_') {
        Err((s, ErrorKind::Tag))
    } else {
        let n = run_len(s.skip(1), CharClass::AlphaNumeric) as int;
        if n == 0 {
            Err((s.skip(1), ErrorKind::AlphaNumeric))
        } else {
            Ok((s.skip(n + 1), s.take(n + 1)))
        }
    }
}

/// An underscore followed by an alphaword; the underscore is dropped from the
/// value.
pub open spec fn spec_underscore_alphaword_drop_underscore(s: Seq<char>) -> Parsed<Seq<char>> {
    if !starts_with(s, '_') {
        Err((s, ErrorKind::Tag))
    } else {
        spec_alphaword(s.skip(1))
    }
}

/// An underscore followed by an alphaword; the value holds both.
pub open spec fn spec_underscore_alphaword(s: Seq<char>) -> Parsed<Seq<char>> {
    match spec_underscore_alphaword_drop_underscore(s) {
        Ok((rest, word)) => Ok((rest, s.take(word.len() as int + 1))),
        Err(e) => Err(e),
    }
}

/// One underscore-led segment of a word. A lettered segment starts with a
/// letter after the underscore, any other with a letter or a digit.
pub open spec fn spec_segment(s: Seq<char>, lettered: bool) -> Parsed<Seq<char>> {
    if lettered {
        spec_underscore_alphaword(s)
    } else {
        spec_underscore_word(s)
    }
}

/// What is left of `s` after as many segments as stand at its front.
pub open spec fn after_segments(s: Seq<char>, lettered: bool) -> Seq<char>
    decreases s.len(),
{
    match spec_segment(s, lettered) {
        Ok((rest, _)) => {
            proof {
                lemma_segment_consumes(s, lettered);
            }
            after_segments(rest, lettered)
        },
        Err(_) => s,
    }
}

/// An alphaword followed by zero or more segments, taken as one token.
pub open spec fn spec_word(s: Seq<char>, lettered: bool) -> Parsed<Seq<char>> {
    match spec_alphaword(s) {
        Err(e) => Err(e),
        Ok((after_first, _)) => {
            let rest = after_segments(after_first, lettered);
            Ok((rest, s.take(s.len() - rest.len())))
        },
    }
}

/// The word of the grammar, which names sections and keys: a letter, then
/// letters and digits, then any number of segments of an underscore and one or
/// more letters or digits.
pub open spec fn spec_alphaword_many0_underscore_word(s: Seq<char>) -> Parsed<Seq<char>> {
    spec_word(s, false)
}

/// A word whose every segment starts with a letter.
pub open spec fn spec_alphaword_many0_underscore_alphaword(s: Seq<char>) -> Parsed<Seq<char>> {
    spec_word(s, true)
}

/// The number of characters that one step of filler takes from the front of
/// `s`: a comment from `#` through the next line feed, or through the end of
/// the input where no line feed follows; else the white space that stands
/// there, which may be none.
pub open spec fn filler_len(s: Seq<char>) -> nat {
    if starts_with(s, '#') {
        let body = run_len(s.skip(1), CharClass::NotNewline);
        if 1 + body < s.len() {
            body + 2
        } else {
            body + 1
        }
    } else {
        run_len(s, CharClass::MultiSpace)
    }
}

/// One step of filler. It always succeeds, possibly on nothing.
pub open spec fn spec_space0_eol(s: Seq<char>) -> Parsed<Seq<char>> {
    Ok((s.skip(filler_len(s) as int), s.take(filler_len(s) as int)))
}

/// What is left of `s` after all the filler at its front: steps of filler are
/// taken until one takes nothing.
pub open spec fn after_fillers(s: Seq<char>) -> Seq<char>
    decreases s.len(),
{
    if filler_len(s) == 0 {
        s
    } else {
        proof {
            lemma_filler_len_bound(s);
        }
        after_fillers(s.skip(filler_len(s) as int))
    }
}

/// A prefix and what follows it make the whole, so what follows is a suffix.
pub proof fn lemma_suffix_of_concat(out: Seq<char>, rest: Seq<char>)
    ensures
        is_suffix(rest, out + rest),
        (out + rest).take(out.len() as int) == out,
        (out + rest).skip(out.len() as int) == rest,
{
    assert((out + rest).skip(out.len() as int) =~= rest);
    assert((out + rest).take(out.len() as int) =~= out);
}

/// A suffix of a suffix is a suffix.
pub proof fn lemma_suffix_trans(a: Seq<char>, b: Seq<char>, c: Seq<char>)
    requires
        is_suffix(a, b),
        is_suffix(b, c),
    ensures
        is_suffix(a, c),
{
    assert(c.skip(c.len() - a.len()) =~= c.skip(c.len() - b.len()).skip(b.len() - a.len()));
}

/// What is left after a number of characters is taken off is a suffix.
pub proof fn lemma_skip_is_suffix(s: Seq<char>, n: int)
    requires
        0 <= n <= s.len(),
    ensures
        is_suffix(s.skip(n), s),
        s.take(n) + s.skip(n) == s,
{
    assert(s.take(n) + s.skip(n) =~= s);
}

/// An alphaword that is found is a non-empty prefix of the input, and the rest
/// is what follows it.
pub proof fn lemma_alphaword_consumes(s: Seq<char>)
    ensures
        spec_alphaword(s) matches Ok((rest, word)) ==> word.len() >= 1 && word + rest == s,
{
    lemma_run_len_bounds(s, CharClass::AlphaNumeric);
    if s.len() > 0 && is_letter(s[0]) {
        lemma_skip_is_suffix(s, run_len(s, CharClass::AlphaNumeric) as int);
    }
}

/// A segment that is found is a prefix of two characters or more, and the
/// rest is what follows it.
pub proof fn lemma_segment_consumes(s: Seq<char>, lettered: bool)
    ensures
        spec_segment(s, lettered) matches Ok((rest, segment)) ==> segment.len() >= 2 && segment
            + rest == s && rest.len() < s.len(),
{
    if starts_with(s, '_') {
        let t = s.skip(1);
        if lettered {
            lemma_alphaword_consumes(t);
            if let Ok((rest, word)) = spec_alphaword(t) {
                assert(s.take(word.len() as int + 1) + rest =~= s) by {
                    assert(word + rest == t);
                    assert forall|i: int| 0 <= i < s.len() implies (s.take(word.len() as int + 1)
                        + rest)[i] == s[i] by {
                        if i > word.len() {
                            assert(rest[i - word.len() - 1] == t[i - 1]);
                        }
                    }
                }
            }
        } else {
            lemma_run_len_bounds(t, CharClass::AlphaNumeric);
            let n = run_len(t, CharClass::AlphaNumeric) as int;
            if n > 0 {
                lemma_skip_is_suffix(s, n + 1);
            }
        }
    }
}

/// What is left after the segments is a suffix.
pub proof fn lemma_after_segments_suffix(s: Seq<char>, lettered: bool)
    ensures
        is_suffix(after_segments(s, lettered), s),
    decreases s.len(),
{
    lemma_segment_consumes(s, lettered);
    match spec_segment(s, lettered) {
        Ok((rest, segment)) => {
            lemma_after_segments_suffix(rest, lettered);
            lemma_suffix_of_concat(segment, rest);
            lemma_suffix_trans(after_segments(rest, lettered), rest, s);
        },
        Err(_) => {
            assert(s.skip(0) =~= s);
        },
    }
}

/// A word that is found is a non-empty prefix of the input, and the rest is
/// what follows it.
pub proof fn lemma_word_consumes(s: Seq<char>, lettered: bool)
    ensures
        spec_word(s, lettered) matches Ok((rest, word)) ==> word.len() >= 1 && word + rest == s,
{
    lemma_alphaword_consumes(s);
    if let Ok((after_first, first)) = spec_alphaword(s) {
        lemma_after_segments_suffix(after_first, lettered);
        lemma_suffix_of_concat(first, after_first);
        let rest = after_segments(after_first, lettered);
        lemma_suffix_trans(rest, after_first, s);
        lemma_skip_is_suffix(s, s.len() - rest.len());
    }
}

/// A step of filler never takes more than there is.
pub proof fn lemma_filler_len_bound(s: Seq<char>)
    ensures
        filler_len(s) <= s.len(),
{
    if starts_with(s, '#') {
        lemma_run_len_bounds(s.skip(1), CharClass::NotNewline);
    } else {
        lemma_run_len_bounds(s, CharClass::MultiSpace);
    }
}

/// What is left after the filler is a suffix.
pub proof fn lemma_after_fillers_suffix(s: Seq<char>)
    ensures
        is_suffix(after_fillers(s), s),
    decreases s.len(),
{
    lemma_filler_len_bound(s);
    if filler_len(s) == 0 {
        assert(s.skip(0) =~= s);
    } else {
        let t = s.skip(filler_len(s) as int);
        lemma_after_fillers_suffix(t);
        lemma_skip_is_suffix(s, filler_len(s) as int);
        lemma_suffix_trans(after_fillers(t), t, s);
    }
}

/// Parses a letter followed by zero or more letters and digits.
pub fn alphaword<'a>(input: &'a str) -> (r: Result<(&'a str, &'a str), ParseError<'a>>)
    ensures
        view_str(r) == spec_alphaword(input@),
        r matches Ok((rest, word)) ==> word@ + rest@ == input@,
{
    proof {
        lemma_alphaword_consumes(input@);
    }
    if first_in(input, CharClass::Alpha) {
        Ok(take_while(input, CharClass::AlphaNumeric))
    } else {
        Err(ParseError { remaining: input, kind: ErrorKind::Alpha })
    }
}

/// Parses an underscore followed by one or more letters and digits.
pub fn underscore_word<'a>(input: &'a str) -> (r: Result<(&'a str, &'a str), ParseError<'a>>)
    ensures
        view_str(r) == spec_underscore_word(input@),
        r matches Ok((rest, word)) ==> word@ + rest@ == input@,
{
    proof {
        lemma_segment_consumes(input@, false);
    }
    match strip_char(input, UNDERSCORE) {
        None => Err(ParseError { remaining: input, kind: ErrorKind::Tag }),
        Some(tail) => {
            let (rest, run) = take_while(tail, CharClass::AlphaNumeric);
            proof {
                lemma_run_len_bounds(tail@, CharClass::AlphaNumeric);
            }
            if run.is_empty() {
                Err(ParseError { remaining: tail, kind: ErrorKind::AlphaNumeric })
            } else {
                proof {
                    let n = run_len(tail@, CharClass::AlphaNumeric) as int;
                    assert(input@.skip(1).skip(n) =~= input@.skip(n + 1));
                    lemma_skip_is_suffix(input@, n + 1);
                }
                Ok((rest, consumed(input, rest)))
            }
        },
    }
}

/// Parses an underscore followed by an alphaword, and returns the alphaword
/// without the underscore.
pub fn underscore_alphaword_drop_underscore<'a>(input: &'a str) -> (r: Result<
    (&'a str, &'a str),
    ParseError<'a>,
>)
    ensures
        view_str(r) == spec_underscore_alphaword_drop_underscore(input@),
        r matches Ok((rest, word)) ==> is_suffix(rest@, input@) && word@ + rest@ == input@.skip(1),
{
    match strip_char(input, UNDERSCORE) {
        None => Err(ParseError { remaining: input, kind: ErrorKind::Tag }),
        Some(tail) => {
            let r = alphaword(tail);
            proof {
                if let Ok((rest, word)) = r {
                    lemma_suffix_of_concat(word@, rest@);
                    lemma_skip_is_suffix(input@, 1);
                    lemma_suffix_trans(rest@, tail@, input@);
                }
            }
            r
        },
    }
}

/// Parses an underscore followed by an alphaword.
pub fn underscore_alphaword<'a>(input: &'a str) -> (r: Result<(&'a str, &'a str), ParseError<'a>>)
    ensures
        view_str(r) == spec_underscore_alphaword(input@),
        r matches Ok((rest, word)) ==> word@ + rest@ == input@,
{
    proof {
        lemma_segment_consumes(input@, true);
    }
    match underscore_alphaword_drop_underscore(input) {
        Ok((rest, word)) => {
            let whole = consumed(input, rest);
            proof {
                assert(input@.len() - rest@.len() == word@.len() + 1) by {
                    assert(input@.skip(1).len() == word@.len() + rest@.len());
                }
            }
            Ok((rest, whole))
        },
        Err(e) => Err(e),
    }
}

/// Takes as many segments as stand at the front of `input` and returns what
/// is left.
fn skip_segments<'a>(input: &'a str, lettered: bool) -> (rest: &'a str)
    ensures
        rest@ == after_segments(input@, lettered),
        is_suffix(rest@, input@),
{
    let mut rest = input;
    proof {
        assert(input@.skip(0) =~= input@);
    }
    loop
        invariant
            is_suffix(rest@, input@),
            after_segments(rest@, lettered) == after_segments(input@, lettered),
        ensures
            is_suffix(rest@, input@),
            rest@ == after_segments(input@, lettered),
        decreases rest@.len(),
    {
        let segment = if lettered {
            underscore_alphaword(rest)
        } else {
            underscore_word(rest)
        };
        proof {
            lemma_segment_consumes(rest@, lettered);
        }
        match segment {
            Ok((next, taken)) => {
                proof {
                    lemma_suffix_of_concat(taken@, next@);
                    lemma_suffix_trans(next@, rest@, input@);
                }
                rest = next;
            },
            Err(_) => {
                break ;
            },
        }
    }
    rest
}

/// Parses an alphaword followed by zero or more segments, as one token.
fn word<'a>(input: &'a str, lettered: bool) -> (r: Result<(&'a str, &'a str), ParseError<'a>>)
    ensures
        view_str(r) == spec_word(input@, lettered),
        r matches Ok((rest, word)) ==> word@ + rest@ == input@,
{
    proof {
        lemma_word_consumes(input@, lettered);
    }
    match alphaword(input) {
        Err(e) => Err(e),
        Ok((after_first, first)) => {
            let rest = skip_segments(after_first, lettered);
            proof {
                lemma_suffix_of_concat(first@, after_first@);
                lemma_suffix_trans(rest@, after_first@, input@);
            }
            Ok((rest, consumed(input, rest)))
        },
    }
}

/// Parses a word: an alphaword followed by zero or more underscore words.
pub fn alphaword_many0_underscore_word<'a>(input: &'a str) -> (r: Result<
    (&'a str, &'a str),
    ParseError<'a>,
>)
    ensures
        view_str(r) == spec_alphaword_many0_underscore_word(input@),
        r matches Ok((rest, word)) ==> word@ + rest@ == input@,
{
    word(input, false)
}

/// Parses an alphaword followed by zero or more underscore alphawords.
pub fn alphaword_many0_underscore_alphaword<'a>(input: &'a str) -> (r: Result<
    (&'a str, &'a str),
    ParseError<'a>,
>)
    ensures
        view_str(r) == spec_alphaword_many0_underscore_alphaword(input@),
        r matches Ok((rest, word)) ==> word@ + rest@ == input@,
{
    word(input, true)
}

/// Takes one step of filler: a comment through the end of its line, or else
/// the white space at the front of `input`. Never fails.
pub fn space0_eol<'a>(input: &'a str) -> (r: Result<(&'a str, &'a str), ParseError<'a>>)
    ensures
        view_str(r) == spec_space0_eol(input@),
        r matches Ok((rest, filler)) && filler@ + rest@ == input@,
{
    proof {
        lemma_filler_len_bound(input@);
        lemma_skip_is_suffix(input@, filler_len(input@) as int);
    }
    match strip_char(input, HASH) {
        Some(tail) => {
            let (at_end_of_line, _) = take_while(tail, CharClass::NotNewline);
            proof {
                lemma_run_len_bounds(tail@, CharClass::NotNewline);
            }
            let ghost body = run_len(tail@, CharClass::NotNewline) as int;
            let rest = match strip_char(at_end_of_line, LINE_FEED) {
                Some(next_line) => {
                    proof {
                        assert(input@.skip(1).skip(body).skip(1) =~= input@.skip(body + 2));
                    }
                    next_line
                },
                None => {
                    proof {
                        assert(input@.skip(1).skip(body) =~= input@.skip(body + 1));
                    }
                    at_end_of_line
                },
            };
            Ok((rest, consumed(input, rest)))
        },
        None => Ok(take_while(input, CharClass::MultiSpace)),
    }
}

/// Skips all the filler at the front of `input`: comments, blank lines and
/// white space. Returns what is left.
pub fn skip_fillers<'a>(input: &'a str) -> (rest: &'a str)
    ensures
        rest@ == after_fillers(input@),
        is_suffix(rest@, input@),
{
    let mut rest = input;
    proof {
        assert(input@.skip(0) =~= input@);
    }
    loop
        invariant
            is_suffix(rest@, input@),
            after_fillers(rest@) == after_fillers(input@),
        ensures
            is_suffix(rest@, input@),
            rest@ == after_fillers(input@),
        decreases rest@.len(),
    {
        proof {
            lemma_filler_len_bound(rest@);
        }
        match space0_eol(rest) {
            Ok((next, filler)) => {
                if filler.is_empty() {
                    break ;
                }
                proof {
                    lemma_suffix_of_concat(filler@, next@);
                    lemma_suffix_trans(next@, rest@, input@);
                }
                rest = next;
            },
            // A step of filler never fails.
            Err(_) => {
                break ;
            },
        }
    }
    rest
}

} // verus!
