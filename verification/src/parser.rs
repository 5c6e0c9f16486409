//! The grammar of the format, from the atoms up to a whole document.
//!
//! ```text
//! document := section+ END
//! section  := filler header-line line (filler line)* filler
//! header   := SP* "[" SP* word SP* "]" SP*
//! line     := SP* word SP* "=" SP* value SP*
//! value    := characters other than # space [ ] ! * tab LF CR " '
//! word     := LETTER (LETTER | DIGIT)* ("_" (LETTER | DIGIT)+)*
//! filler   := ("#" through the end of the line | white space)*
//! ```
//!
//! A header line and a key-value line are a header and a line followed by a
//! line feed, where one stands there. `SP` is a space or a tab. A value ends
//! at the first character that cannot stand in it; what follows is left for
//! the next parser, so a comment after a value is taken as filler. A value
//! may be empty. Letters and digits are those of ASCII.
use crate::canonical::{theorem_section_is_valid, valid_section};
use crate::entries::upsert_all;
use crate::error::{view_pair, view_str, ErrorKind, ParseError, Parsed};
use crate::parser::atoms::{
    after_fillers, lemma_after_fillers_suffix, lemma_skip_is_suffix, lemma_suffix_of_concat,
    lemma_suffix_trans, lemma_word_consumes, skip_fillers, spec_alphaword_many0_underscore_word,
    LINE_FEED,
};
use crate::section::{Section, SectionView};
use crate::text::{
    is_suffix, lemma_run_len_bounds, run_len, starts_with, strip_char, take_while, CharClass,
};
use vstd::prelude::*;

pub mod atoms;
pub mod tolerance;

pub use crate::parser::atoms::{
    alphaword, alphaword_many0_underscore_alphaword, alphaword_many0_underscore_word, space0_eol,
    underscore_alphaword, underscore_alphaword_drop_underscore, underscore_word,
};

verus! {

/// Code of `[`.
pub(crate) const OPEN_BRACKET: u8 = 91;

/// Code of `]`.
pub(crate) const CLOSE_BRACKET: u8 = 93;

/// Code of `=`.
pub(crate) const EQUALS: u8 = 61;

/// What is left of `s` after the spaces and tabs at its front.
pub open spec fn after_spaces(s: Seq<char>) -> Seq<char> {
    s.skip(run_len(s, CharClass::Space) as int)
}

/// What is left of `s` after the line feed at its front, if one stands there.
pub open spec fn after_optional_newline(s: Seq<char>) -> Seq<char> {
    if starts_with(s, '\n') {
        s.skip(1)
    } else {
        s
    }
}

/// A word in square brackets, with optional spaces before, between and after.
/// The value is the word.
pub open spec fn spec_header(s: Seq<char>) -> Parsed<Seq<char>> {
    let at_open = after_spaces(s);
    if !starts_with(at_open, '[') {
        Err((at_open, ErrorKind::Tag))
    } else {
        match spec_alphaword_many0_underscore_word(after_spaces(at_open.skip(1))) {
            Err(e) => Err(e),
            Ok((after_name, name)) => {
                let at_close = after_spaces(after_name);
                if !starts_with(at_close, ']') {
                    Err((at_close, ErrorKind::Tag))
                } else {
                    Ok((after_spaces(at_close.skip(1)), name))
                }
            },
        }
    }
}

/// A header that a line feed must follow.
pub open spec fn spec_header_newline(s: Seq<char>) -> Parsed<Seq<char>> {
    match spec_header(s) {
        Err(e) => Err(e),
        Ok((rest, name)) => if starts_with(rest, '\n') {
            Ok((rest.skip(1), name))
        } else {
            Err((rest, ErrorKind::Char))
        },
    }
}

/// A header, and the line feed after it where there is one.
pub open spec fn spec_header_line(s: Seq<char>) -> Parsed<Seq<char>> {
    match spec_header(s) {
        Err(e) => Err(e),
        Ok((rest, name)) => Ok((after_optional_newline(rest), name)),
    }
}

/// The longest run of characters that may stand in a value. It may be empty,
/// so this never fails.
pub open spec fn spec_until_illegal_char(s: Seq<char>) -> Parsed<Seq<char>> {
    let n = run_len(s, CharClass::Value) as int;
    Ok((s.skip(n), s.take(n)))
}

/// A key, an equals sign and a value, with optional spaces before, between
/// and after. The value is the pair of key and value.
pub open spec fn spec_key_value_pair(s: Seq<char>) -> Parsed<(Seq<char>, Seq<char>)> {
    match spec_alphaword_many0_underscore_word(after_spaces(s)) {
        Err(e) => Err(e),
        Ok((after_key, key)) => {
            let at_equals = after_spaces(after_key);
            if !starts_with(at_equals, '=') {
                Err((at_equals, ErrorKind::Tag))
            } else {
                let at_value = after_spaces(at_equals.skip(1));
                let n = run_len(at_value, CharClass::Value) as int;
                Ok((after_spaces(at_value.skip(n)), (key, at_value.take(n))))
            }
        },
    }
}

/// A key-value pair that a line feed must follow.
pub open spec fn spec_key_value_pair_newline(s: Seq<char>) -> Parsed<(Seq<char>, Seq<char>)> {
    match spec_key_value_pair(s) {
        Err(e) => Err(e),
        Ok((rest, pair)) => if starts_with(rest, '\n') {
            Ok((rest.skip(1), pair))
        } else {
            Err((rest, ErrorKind::Char))
        },
    }
}

/// A key-value pair, and the line feed after it where there is one.
pub open spec fn spec_key_value_pair_line(s: Seq<char>) -> Parsed<(Seq<char>, Seq<char>)> {
    match spec_key_value_pair(s) {
        Err(e) => Err(e),
        Ok((rest, pair)) => Ok((after_optional_newline(rest), pair)),
    }
}

/// What is left after the spaces is a suffix.
pub proof fn lemma_after_spaces_suffix(s: Seq<char>)
    ensures
        is_suffix(after_spaces(s), s),
{
    lemma_run_len_bounds(s, CharClass::Space);
    lemma_skip_is_suffix(s, run_len(s, CharClass::Space) as int);
}

/// What is left after an optional line feed is a suffix.
pub proof fn lemma_after_optional_newline_suffix(s: Seq<char>)
    ensures
        is_suffix(after_optional_newline(s), s),
{
    if starts_with(s, '\n') {
        lemma_skip_is_suffix(s, 1);
    } else {
        lemma_skip_is_suffix(s, 0);
        assert(s.skip(0) =~= s);
    }
}

/// A header that is found has taken three characters or more, and what is
/// left is a suffix of the input.
pub proof fn lemma_header_consumes(s: Seq<char>)
    ensures
        spec_header(s) matches Ok((rest, name)) ==> is_suffix(rest, s) && rest.len() + 3
            <= s.len() && name.len() >= 1,
        spec_header_line(s) matches Ok((rest, name)) ==> is_suffix(rest, s) && rest.len() + 3
            <= s.len(),
{
    if let Ok((rest, name)) = spec_header(s) {
        let at_open = after_spaces(s);
        let at_name = after_spaces(at_open.skip(1));
        lemma_after_spaces_suffix(s);
        lemma_skip_is_suffix(at_open, 1);
        lemma_suffix_trans(at_open.skip(1), at_open, s);
        lemma_after_spaces_suffix(at_open.skip(1));
        lemma_suffix_trans(at_name, at_open.skip(1), s);
        lemma_word_consumes(at_name, false);
        let after_name = spec_alphaword_many0_underscore_word(at_name)->Ok_0.0;
        lemma_suffix_of_concat(name, after_name);
        lemma_suffix_trans(after_name, at_name, s);
        let at_close = after_spaces(after_name);
        lemma_after_spaces_suffix(after_name);
        lemma_suffix_trans(at_close, after_name, s);
        lemma_skip_is_suffix(at_close, 1);
        lemma_suffix_trans(at_close.skip(1), at_close, s);
        lemma_after_spaces_suffix(at_close.skip(1));
        lemma_suffix_trans(rest, at_close.skip(1), s);
        lemma_after_optional_newline_suffix(rest);
        lemma_suffix_trans(after_optional_newline(rest), rest, s);
    }
}

/// A key-value pair that is found has taken two characters or more, and what
/// is left is a suffix of the input.
pub proof fn lemma_key_value_pair_consumes(s: Seq<char>)
    ensures
        spec_key_value_pair(s) matches Ok((rest, pair)) ==> is_suffix(rest, s) && rest.len() + 2
            <= s.len() && pair.0.len() >= 1,
        spec_key_value_pair_line(s) matches Ok((rest, pair)) ==> is_suffix(rest, s) && rest.len()
            + 2 <= s.len(),
{
    if let Ok((rest, pair)) = spec_key_value_pair(s) {
        let at_key = after_spaces(s);
        lemma_after_spaces_suffix(s);
        lemma_word_consumes(at_key, false);
        let after_key = spec_alphaword_many0_underscore_word(at_key)->Ok_0.0;
        lemma_suffix_of_concat(pair.0, after_key);
        lemma_suffix_trans(after_key, at_key, s);
        let at_equals = after_spaces(after_key);
        lemma_after_spaces_suffix(after_key);
        lemma_suffix_trans(at_equals, after_key, s);
        lemma_skip_is_suffix(at_equals, 1);
        lemma_suffix_trans(at_equals.skip(1), at_equals, s);
        let at_value = after_spaces(at_equals.skip(1));
        lemma_after_spaces_suffix(at_equals.skip(1));
        lemma_suffix_trans(at_value, at_equals.skip(1), s);
        lemma_run_len_bounds(at_value, CharClass::Value);
        let after_value = at_value.skip(run_len(at_value, CharClass::Value) as int);
        lemma_skip_is_suffix(at_value, run_len(at_value, CharClass::Value) as int);
        lemma_suffix_trans(after_value, at_value, s);
        lemma_after_spaces_suffix(after_value);
        lemma_suffix_trans(rest, after_value, s);
        lemma_after_optional_newline_suffix(rest);
        lemma_suffix_trans(after_optional_newline(rest), rest, s);
    }
}

/// Skips the spaces and tabs at the front of `input`.
fn skip_spaces<'a>(input: &'a str) -> (rest: &'a str)
    ensures
        rest@ == after_spaces(input@),
        is_suffix(rest@, input@),
{
    take_while(input, CharClass::Space).0
}

/// Takes a line feed off the front of `input`, where one stands there.
fn skip_optional_newline<'a>(input: &'a str) -> (rest: &'a str)
    ensures
        rest@ == after_optional_newline(input@),
        is_suffix(rest@, input@),
{
    proof {
        lemma_after_optional_newline_suffix(input@);
    }
    match strip_char(input, LINE_FEED) {
        Some(rest) => rest,
        None => input,
    }
}

/// Parses a section header, `[name]`, with optional spaces around the
/// brackets and around the name. Returns the name.
pub fn header<'a>(input: &'a str) -> (r: Result<(&'a str, &'a str), ParseError<'a>>)
    ensures
        view_str(r) == spec_header(input@),
        r matches Ok((rest, _)) ==> is_suffix(rest@, input@) && rest@.len() < input@.len(),
{
    proof {
        lemma_header_consumes(input@);
    }
    let at_open = skip_spaces(input);
    let after_open = match strip_char(at_open, OPEN_BRACKET) {
        Some(rest) => rest,
        None => {
            return Err(ParseError { remaining: at_open, kind: ErrorKind::Tag });
        },
    };
    let (after_name, name) = match alphaword_many0_underscore_word(skip_spaces(after_open)) {
        Ok(found) => found,
        Err(e) => {
            return Err(e);
        },
    };
    let at_close = skip_spaces(after_name);
    match strip_char(at_close, CLOSE_BRACKET) {
        Some(after_close) => Ok((skip_spaces(after_close), name)),
        None => Err(ParseError { remaining: at_close, kind: ErrorKind::Tag }),
    }
}

/// Parses a section header that ends in a line feed.
pub fn header_newline<'a>(input: &'a str) -> (r: Result<(&'a str, &'a str), ParseError<'a>>)
    ensures
        view_str(r) == spec_header_newline(input@),
        r matches Ok((rest, _)) ==> is_suffix(rest@, input@) && rest@.len() < input@.len(),
{
    match header(input) {
        Err(e) => Err(e),
        Ok((rest, name)) => match strip_char(rest, LINE_FEED) {
            Some(next_line) => {
                proof {
                    lemma_suffix_trans(next_line@, rest@, input@);
                }
                Ok((next_line, name))
            },
            None => Err(ParseError { remaining: rest, kind: ErrorKind::Char }),
        },
    }
}

/// Parses a section header and the line feed after it, where there is one:
/// the header may also end the input.
pub fn header_line<'a>(input: &'a str) -> (r: Result<(&'a str, &'a str), ParseError<'a>>)
    ensures
        view_str(r) == spec_header_line(input@),
        r matches Ok((rest, _)) ==> is_suffix(rest@, input@) && rest@.len() < input@.len(),
{
    match header(input) {
        Err(e) => Err(e),
        Ok((rest, name)) => {
            let next_line = skip_optional_newline(rest);
            proof {
                lemma_suffix_trans(next_line@, rest@, input@);
            }
            Ok((next_line, name))
        },
    }
}

/// Takes characters up to the first one that cannot stand in a value. Always
/// succeeds; the value is empty where the input starts with such a character.
pub fn until_illegal_char<'a>(input: &'a str) -> (r: Result<(&'a str, &'a str), ParseError<'a>>)
    ensures
        view_str(r) == spec_until_illegal_char(input@),
        r matches Ok((rest, value)) && value@ + rest@ == input@,
{
    Ok(take_while(input, CharClass::Value))
}

/// Parses `key = value`, with optional spaces before the key, around the
/// equals sign and after the value.
pub fn key_value_pair<'a>(input: &'a str) -> (r: Result<
    (&'a str, (&'a str, &'a str)),
    ParseError<'a>,
>)
    ensures
        view_pair(r) == spec_key_value_pair(input@),
        r matches Ok((rest, _)) ==> is_suffix(rest@, input@) && rest@.len() < input@.len(),
{
    proof {
        lemma_key_value_pair_consumes(input@);
    }
    let (after_key, key) = match alphaword_many0_underscore_word(skip_spaces(input)) {
        Ok(found) => found,
        Err(e) => {
            return Err(e);
        },
    };
    let at_equals = skip_spaces(after_key);
    match strip_char(at_equals, EQUALS) {
        Some(after_equals) => {
            let (after_value, value) = take_while(skip_spaces(after_equals), CharClass::Value);
            Ok((skip_spaces(after_value), (key, value)))
        },
        None => Err(ParseError { remaining: at_equals, kind: ErrorKind::Tag }),
    }
}

/// Parses a key-value pair that ends in a line feed.
pub fn key_value_pair_newline<'a>(input: &'a str) -> (r: Result<
    (&'a str, (&'a str, &'a str)),
    ParseError<'a>,
>)
    ensures
        view_pair(r) == spec_key_value_pair_newline(input@),
        r matches Ok((rest, _)) ==> is_suffix(rest@, input@) && rest@.len() < input@.len(),
{
    match key_value_pair(input) {
        Err(e) => Err(e),
        Ok((rest, pair)) => match strip_char(rest, LINE_FEED) {
            Some(next_line) => {
                proof {
                    lemma_suffix_trans(next_line@, rest@, input@);
                }
                Ok((next_line, pair))
            },
            None => Err(ParseError { remaining: rest, kind: ErrorKind::Char }),
        },
    }
}

/// Parses a key-value pair and the line feed after it, where there is one:
/// the pair may also end the input.
pub fn key_value_pair_line<'a>(input: &'a str) -> (r: Result<
    (&'a str, (&'a str, &'a str)),
    ParseError<'a>,
>)
    ensures
        view_pair(r) == spec_key_value_pair_line(input@),
        r matches Ok((rest, _)) ==> is_suffix(rest@, input@) && rest@.len() < input@.len(),
{
    match key_value_pair(input) {
        Err(e) => Err(e),
        Ok((rest, pair)) => {
            let next_line = skip_optional_newline(rest);
            proof {
                lemma_suffix_trans(next_line@, rest@, input@);
            }
            Ok((next_line, pair))
        },
    }
}

/// The pairs of the lines that stand at the front of `s`, each with filler
/// before it, and what is left after them and after the filler that follows
/// the last.
pub open spec fn spec_more_lines(s: Seq<char>) -> (Seq<(Seq<char>, Seq<char>)>, Seq<char>)
    decreases s.len(),
{
    let at_line = after_fillers(s);
    match spec_key_value_pair_line(at_line) {
        Ok((rest, pair)) => {
            proof {
                lemma_after_fillers_suffix(s);
                lemma_key_value_pair_consumes(at_line);
            }
            let (pairs, end) = spec_more_lines(rest);
            (seq![pair] + pairs, end)
        },
        Err(_) => (Seq::empty(), at_line),
    }
}

/// A section: filler, a header line, a key-value line, and then any number
/// of further lines, each after filler, and filler at the end. Its pairs are
/// set in the order of the lines, so that of two lines with one key the
/// later one gives the value.
pub open spec fn spec_section(s: Seq<char>) -> Parsed<SectionView> {
    match spec_header_line(after_fillers(s)) {
        Err(e) => Err(e),
        Ok((at_line, name)) => match spec_key_value_pair_line(at_line) {
            Err(e) => Err(e),
            Ok((rest, pair)) => {
                let (pairs, end) = spec_more_lines(rest);
                Ok((end, SectionView { name, entries: upsert_all(seq![pair] + pairs) }))
            },
        },
    }
}

/// The sections that stand at the front of `s`, and what is left after
/// them.
pub open spec fn spec_more_sections(s: Seq<char>) -> (Seq<SectionView>, Seq<char>)
    decreases s.len(),
{
    match spec_section(s) {
        Ok((rest, section)) => {
            proof {
                lemma_section_consumes(s);
            }
            let (sections, end) = spec_more_sections(rest);
            (seq![section] + sections, end)
        },
        Err(_) => (Seq::empty(), s),
    }
}

/// One or more sections.
pub open spec fn spec_sections(s: Seq<char>) -> Parsed<Seq<SectionView>> {
    match spec_section(s) {
        Err(e) => Err(e),
        Ok((rest, first)) => {
            let (sections, end) = spec_more_sections(rest);
            Ok((end, seq![first] + sections))
        },
    }
}

/// A document: one or more sections that take up the whole input.
pub open spec fn spec_cfg(s: Seq<char>) -> Parsed<Seq<SectionView>> {
    match spec_sections(s) {
        Err(e) => Err(e),
        Ok((rest, sections)) => if rest.len() == 0 {
            Ok((rest, sections))
        } else {
            Err((rest, ErrorKind::Eof))
        },
    }
}

/// What is left after the further lines of a section is a suffix.
pub proof fn lemma_more_lines_suffix(s: Seq<char>)
    ensures
        is_suffix(spec_more_lines(s).1, s),
    decreases s.len(),
{
    let at_line = after_fillers(s);
    lemma_after_fillers_suffix(s);
    lemma_key_value_pair_consumes(at_line);
    if let Ok((rest, _)) = spec_key_value_pair_line(at_line) {
        lemma_more_lines_suffix(rest);
        lemma_suffix_trans(rest, at_line, s);
        lemma_suffix_trans(spec_more_lines(rest).1, rest, s);
    }
}

/// A section that is found has taken something, and what is left is a
/// suffix of the input.
pub proof fn lemma_section_consumes(s: Seq<char>)
    ensures
        spec_section(s) matches Ok((rest, _)) ==> is_suffix(rest, s) && rest.len() < s.len(),
{
    let at_header = after_fillers(s);
    lemma_after_fillers_suffix(s);
    lemma_header_consumes(at_header);
    if let Ok((at_line, _)) = spec_header_line(at_header) {
        lemma_suffix_trans(at_line, at_header, s);
        lemma_key_value_pair_consumes(at_line);
        if let Ok((rest, _)) = spec_key_value_pair_line(at_line) {
            lemma_suffix_trans(rest, at_line, s);
            lemma_more_lines_suffix(rest);
            lemma_suffix_trans(spec_more_lines(rest).1, rest, s);
        }
    }
}

/// What is left after the sections is a suffix.
pub proof fn lemma_more_sections_suffix(s: Seq<char>)
    ensures
        is_suffix(spec_more_sections(s).1, s),
    decreases s.len(),
{
    lemma_section_consumes(s);
    match spec_section(s) {
        Ok((rest, _)) => {
            lemma_more_sections_suffix(rest);
            lemma_suffix_trans(spec_more_sections(rest).1, rest, s);
        },
        Err(_) => {
            lemma_skip_is_suffix(s, 0);
            assert(s.skip(0) =~= s);
        },
    }
}

/// What each section of a vector holds.
pub open spec fn view_each(sections: Seq<Section<'_>>) -> Seq<SectionView> {
    Seq::new(sections.len(), |i: int| sections[i]@)
}

/// The view of a parser's result whose value is a section.
pub open spec fn view_section<'a>(r: Result<(&'a str, Section<'a>), ParseError<'a>>) -> Parsed<
    SectionView,
> {
    match r {
        Ok((rest, section)) => Ok((rest@, section@)),
        Err(e) => Err(e@),
    }
}

/// The view of a parser's result whose value is a vector of sections.
pub open spec fn view_sections<'a>(
    r: Result<(&'a str, Vec<Section<'a>>), ParseError<'a>>,
) -> Parsed<Seq<SectionView>> {
    match r {
        Ok((rest, sections)) => Ok((rest@, view_each(sections@))),
        Err(e) => Err(e@),
    }
}

/// Parses a section: a header line and one or more key-value lines, with
/// blank lines and comments allowed before the header, between the lines and
/// after the last. Of two lines with one key the later one gives the value.
pub fn parse_section<'a>(input: &'a str) -> (r: Result<(&'a str, Section<'a>), ParseError<'a>>)
    ensures
        view_section(r) == spec_section(input@),
        r matches Ok((rest, section)) ==> is_suffix(rest@, input@) && rest@.len() < input@.len()
            && valid_section(section@),
{
    proof {
        lemma_section_consumes(input@);
        theorem_section_is_valid(input@);
    }
    let (at_line, name) = match header_line(skip_fillers(input)) {
        Ok(found) => found,
        Err(e) => {
            return Err(e);
        },
    };
    let (after_first, first) = match key_value_pair_line(at_line) {
        Ok(found) => found,
        Err(e) => {
            return Err(e);
        },
    };
    let mut section = Section::new(name);
    section.insert(first.0, first.1);
    let ghost first_pair = (first.0@, first.1@);
    let ghost mut done = seq![first_pair];
    proof {
        assert(done.drop_last() =~= Seq::empty());
        assert(upsert_all(done.drop_last()) =~= Seq::empty());
        assert(seq![first_pair] + spec_more_lines(after_first@).0 =~= done + spec_more_lines(
            after_first@,
        ).0);
    }
    let mut rest = after_first;
    loop
        invariant_except_break
            done + spec_more_lines(rest@).0 == seq![first_pair] + spec_more_lines(after_first@).0,
            spec_more_lines(rest@).1 == spec_more_lines(after_first@).1,
        invariant
            section@.name == name@,
            section@.entries == upsert_all(done),
        ensures
            section@.name == name@,
            section@.entries == upsert_all(seq![first_pair] + spec_more_lines(after_first@).0),
            rest@ == spec_more_lines(after_first@).1,
        decreases rest@.len(),
    {
        let at_next = skip_fillers(rest);
        match key_value_pair_line(at_next) {
            Ok((after_next, pair)) => {
                proof {
                    let added = (pair.0@, pair.1@);
                    let more = spec_more_lines(after_next@).0;
                    assert(done.push(added) + more =~= done + (seq![added] + more));
                    assert(done.push(added).drop_last() =~= done);
                    done = done.push(added);
                }
                section.insert(pair.0, pair.1);
                rest = after_next;
            },
            Err(_) => {
                proof {
                    assert(done + Seq::empty() =~= done);
                }
                rest = at_next;
                break ;
            },
        }
    }
    Ok((rest, section))
}

/// Parses one or more sections.
pub fn parse_sections<'a>(input: &'a str) -> (r: Result<
    (&'a str, Vec<Section<'a>>),
    ParseError<'a>,
>)
    ensures
        view_sections(r) == spec_sections(input@),
        r matches Ok((rest, sections)) ==> is_suffix(rest@, input@) && sections@.len() >= 1,
{
    let (after_first, first) = match parse_section(input) {
        Ok(found) => found,
        Err(e) => {
            return Err(e);
        },
    };
    let ghost first_view = first@;
    let mut sections: Vec<Section<'a>> = Vec::new();
    sections.push(first);
    let mut rest = after_first;
    proof {
        assert(view_each(sections@) =~= seq![first_view]);
    }
    loop
        invariant
            is_suffix(rest@, input@),
            sections@.len() >= 1,
            view_each(sections@) + spec_more_sections(rest@).0 == seq![first_view]
                + spec_more_sections(after_first@).0,
            spec_more_sections(rest@).1 == spec_more_sections(after_first@).1,
        ensures
            is_suffix(rest@, input@),
            sections@.len() >= 1,
            view_each(sections@) == seq![first_view] + spec_more_sections(after_first@).0,
            rest@ == spec_more_sections(after_first@).1,
        decreases rest@.len(),
    {
        match parse_section(rest) {
            Ok((after_next, section)) => {
                proof {
                    let before = view_each(sections@);
                    let more = spec_more_sections(after_next@).0;
                    assert(view_each(sections@.push(section)) =~= before.push(section@));
                    assert(before.push(section@) + more =~= before + (seq![section@] + more));
                    lemma_suffix_trans(after_next@, rest@, input@);
                }
                sections.push(section);
                rest = after_next;
            },
            Err(_) => {
                proof {
                    assert(view_each(sections@) + Seq::empty() =~= view_each(sections@));
                }
                break ;
            },
        }
    }
    Ok((rest, sections))
}

/// Parses a whole document: one or more sections, with nothing left over.
pub fn parse_cfg<'a>(input: &'a str) -> (r: Result<(&'a str, Vec<Section<'a>>), ParseError<'a>>)
    ensures
        view_sections(r) == spec_cfg(input@),
        r matches Ok((rest, sections)) ==> rest@.len() == 0 && sections@.len() >= 1,
{
    match parse_sections(input) {
        Err(e) => Err(e),
        Ok((rest, sections)) => {
            if rest.is_empty() {
                Ok((rest, sections))
            } else {
                Err(ParseError { remaining: rest, kind: ErrorKind::Eof })
            }
        },
    }
}

} // verus!
