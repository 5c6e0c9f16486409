//! What the grammar is indifferent to: the amount of space around the tokens
//! of a header and of a key-value pair, and comments.
//!
//! The theorems of this file speak of texts put together from their parts,
//! and say what the specification functions of the grammar make of them.
use crate::error::ErrorKind;
use crate::parser::atoms::{
    after_fillers, after_segments, filler_len, lemma_segment_consumes, spec_alphaword,
    spec_alphaword_many0_underscore_word, spec_segment,
};
use crate::parser::{
    after_spaces, spec_header, spec_header_line, spec_key_value_pair, spec_key_value_pair_line,
};
use crate::text::{
    is_digit, is_letter, lemma_run_len_bounds, run_len, starts_with,
    CharClass,
};
use vstd::prelude::*;

verus! {

/// Every character of `s` belongs to `class`.
pub open spec fn all_in(s: Seq<char>, class: CharClass) -> bool {
    forall|i: int| 0 <= i < s.len() ==> class.contains(#[trigger] s[i])
}

/// `s` starts with no character of `class`.
pub open spec fn ends_run(s: Seq<char>, class: CharClass) -> bool {
    s.len() == 0 || !class.contains(s[0])
}

/// `w` is a word of the grammar, the whole of it.
pub open spec fn is_word(w: Seq<char>) -> bool {
    spec_alphaword_many0_underscore_word(w) == Ok::<
        (Seq<char>, Seq<char>),
        (Seq<char>, ErrorKind),
    >((Seq::empty(), w))
}

/// A word that stands before `s` ends there: `s` starts with no letter, digit
/// or underscore.
pub open spec fn ends_word(s: Seq<char>) -> bool {
    s.len() == 0 || !(is_letter(s[0]) || is_digit(s[0]) || s[0] == '_')
}

/// A run of a class is not changed by what follows it, as long as that
/// starts with no character of the class.
pub proof fn lemma_run_len_append(s: Seq<char>, x: Seq<char>, class: CharClass)
    requires
        ends_run(x, class),
    ensures
        run_len(s + x, class) == run_len(s, class),
    decreases s.len(),
{
    if s.len() == 0 {
        assert(s + x =~= x);
    } else {
        assert((s + x)[0] == s[0]);
        if class.contains(s[0]) {
            assert((s + x).skip(1) =~= s.skip(1) + x);
            lemma_run_len_append(s.skip(1), x, class);
        }
    }
}

/// Characters of a class before a text lengthen its run by their number.
pub proof fn lemma_run_len_prefix(p: Seq<char>, x: Seq<char>, class: CharClass)
    requires
        all_in(p, class),
    ensures
        run_len(p + x, class) == p.len() + run_len(x, class),
        (p + x).skip(run_len(p + x, class) as int) == x.skip(run_len(x, class) as int),
    decreases p.len(),
{
    if p.len() == 0 {
        assert(p + x =~= x);
    } else {
        assert((p + x)[0] == p[0]);
        assert((p + x).skip(1) =~= p.skip(1) + x);
        assert forall|i: int| 0 <= i < p.skip(1).len() implies class.contains(
            #[trigger] p.skip(1)[i],
        ) by {
            assert(p.skip(1)[i] == p[i + 1]);
        }
        lemma_run_len_prefix(p.skip(1), x, class);
    }
    lemma_run_len_bounds(x, class);
    assert((p + x).skip((p.len() + run_len(x, class)) as int) =~= x.skip(
        run_len(x, class) as int,
    ));
}

/// Spaces before a text are skipped with the spaces of the text.
pub proof fn lemma_after_spaces_prefix(spaces: Seq<char>, x: Seq<char>)
    requires
        all_in(spaces, CharClass::Space),
    ensures
        after_spaces(spaces + x) == after_spaces(x),
{
    lemma_run_len_prefix(spaces, x, CharClass::Space);
}

/// A text that starts with no space is what is left after its spaces.
pub proof fn lemma_after_spaces_none(x: Seq<char>)
    requires
        ends_run(x, CharClass::Space),
    ensures
        after_spaces(x) == x,
{
    assert(x.skip(0) =~= x);
}

/// The segments of a text that consists of segments are found again where
/// something follows that cannot lengthen them.
proof fn lemma_segments_then(r: Seq<char>, x: Seq<char>)
    requires
        after_segments(r, false) == Seq::<char>::empty(),
        ends_word(x),
    ensures
        after_segments(r + x, false) == x,
    decreases r.len(),
{
    if r.len() == 0 {
        assert(r + x =~= x);
        assert(spec_segment(x, false) is Err);
    } else {
        lemma_segment_consumes(r, false);
        assert(spec_segment(r, false) is Ok);
        let tail = r.skip(1);
        let m = run_len(tail, CharClass::AlphaNumeric) as int;
        lemma_run_len_bounds(tail, CharClass::AlphaNumeric);
        let next = r.skip(m + 1);
        assert((r + x)[0] == r[0]);
        assert((r + x).skip(1) =~= tail + x);
        lemma_run_len_append(tail, x, CharClass::AlphaNumeric);
        assert((r + x).skip(m + 1) =~= next + x);
        lemma_segment_consumes(r + x, false);
        lemma_segments_then(next, x);
    }
}

/// A word is found again where something follows it that cannot lengthen
/// it, and that is what is left.
pub proof fn lemma_word_then(w: Seq<char>, x: Seq<char>)
    requires
        is_word(w),
        ends_word(x),
    ensures
        spec_alphaword_many0_underscore_word(w + x) == Ok::<
            (Seq<char>, Seq<char>),
            (Seq<char>, ErrorKind),
        >((x, w)),
        w.len() >= 1,
        is_letter(w[0]),
{
    assert(spec_alphaword(w) is Ok);
    let n = run_len(w, CharClass::AlphaNumeric) as int;
    lemma_run_len_bounds(w, CharClass::AlphaNumeric);
    let r = w.skip(n);
    assert((w + x)[0] == w[0]);
    lemma_run_len_append(w, x, CharClass::AlphaNumeric);
    assert((w + x).skip(n) =~= r + x);
    lemma_segments_then(r, x);
    assert((w + x).take((w + x).len() - x.len()) =~= w);
}

/// A header reads the same whatever spaces stand before the bracket, around
/// the name and after the closing bracket: the name is found, and what is
/// left is what follows, without the spaces at its front.
pub proof fn lemma_header_padded(
    a: Seq<char>,
    b: Seq<char>,
    c: Seq<char>,
    d: Seq<char>,
    name: Seq<char>,
    rest: Seq<char>,
)
    requires
        all_in(a, CharClass::Space),
        all_in(b, CharClass::Space),
        all_in(c, CharClass::Space),
        all_in(d, CharClass::Space),
        is_word(name),
    ensures
        spec_header(a + (seq!['['] + (b + (name + (c + (seq![']'] + (d + rest))))))) == Ok::<
            (Seq<char>, Seq<char>),
            (Seq<char>, ErrorKind),
        >((after_spaces(rest), name)),
{
    let after_close = d + rest;
    let at_close = seq![']'] + after_close;
    let after_name = c + at_close;
    let at_name = name + after_name;
    let after_open = b + at_name;
    let at_open = seq!['['] + after_open;
    lemma_after_spaces_prefix(a, at_open);
    lemma_after_spaces_none(at_open);
    assert(at_open.skip(1) =~= after_open);
    assert(ends_word(after_name)) by {
        if c.len() > 0 {
            assert(after_name[0] == c[0]);
        } else {
            assert(after_name =~= at_close);
        }
    }
    lemma_word_then(name, after_name);
    lemma_after_spaces_prefix(b, at_name);
    lemma_after_spaces_none(at_name);
    lemma_after_spaces_prefix(c, at_close);
    lemma_after_spaces_none(at_close);
    assert(at_close.skip(1) =~= after_close);
    lemma_after_spaces_prefix(d, rest);
}

/// What must follow a value for it to end where it does: after a value that
/// is not empty, something that cannot stand in a value; after an empty one,
/// the same once the spaces are skipped.
pub open spec fn ends_value(value: Seq<char>, after: Seq<char>) -> bool {
    if value.len() > 0 {
        ends_run(after, CharClass::Value)
    } else {
        ends_run(after_spaces(after), CharClass::Value)
    }
}

/// A key-value pair reads the same whatever spaces stand before the key,
/// around the equals sign and after the value: key and value are found, and
/// what is left is what follows, without the spaces at its front. The value
/// ends at the first character that cannot stand in it, a `#` among them,
/// and that character is left.
pub proof fn lemma_key_value_pair_padded(
    a: Seq<char>,
    b: Seq<char>,
    c: Seq<char>,
    d: Seq<char>,
    key: Seq<char>,
    value: Seq<char>,
    rest: Seq<char>,
)
    requires
        all_in(a, CharClass::Space),
        all_in(b, CharClass::Space),
        all_in(c, CharClass::Space),
        all_in(d, CharClass::Space),
        is_word(key),
        all_in(value, CharClass::Value),
        ends_value(value, d + rest),
    ensures
        spec_key_value_pair(a + (key + (b + (seq!['='] + (c + (value + (d + rest))))))) == Ok::<
            (Seq<char>, (Seq<char>, Seq<char>)),
            (Seq<char>, ErrorKind),
        >((after_spaces(rest), (key, value))),
{
    let after_value = d + rest;
    let at_value = value + after_value;
    let after_equals = c + at_value;
    let at_equals = seq!['='] + after_equals;
    let after_key = b + at_equals;
    let at_key = key + after_key;
    assert(ends_word(after_key)) by {
        if b.len() > 0 {
            assert(after_key[0] == b[0]);
        } else {
            assert(after_key =~= at_equals);
        }
    }
    lemma_word_then(key, after_key);
    lemma_after_spaces_prefix(a, at_key);
    lemma_after_spaces_none(at_key);
    lemma_after_spaces_prefix(b, at_equals);
    lemma_after_spaces_none(at_equals);
    assert(at_equals.skip(1) =~= after_equals);
    lemma_after_spaces_prefix(c, at_value);
    lemma_after_spaces_prefix(d, rest);
    if value.len() > 0 {
        assert(at_value[0] == value[0]);
        lemma_after_spaces_none(at_value);
        lemma_run_len_prefix(value, after_value, CharClass::Value);
        assert(at_value.skip(value.len() as int) =~= after_value);
        assert(at_value.take(value.len() as int) =~= value);
    } else {
        assert(at_value =~= after_value);
        let found = after_spaces(after_value);
        assert(found.skip(0) =~= found);
        assert(found.take(0) =~= value);
        assert(ends_run(found, CharClass::Space)) by {
            lemma_run_len_bounds(after_value, CharClass::Space);
            let n = run_len(after_value, CharClass::Space) as int;
            if n < after_value.len() {
                assert(found[0] == after_value[n]);
            }
        }
        lemma_after_spaces_none(found);
    }
}

/// A comment line is filler: with a line of `#`, any characters but the line
/// feed, and a line feed before it, a text has the same after its filler.
pub proof fn lemma_comment_is_filler(body: Seq<char>, rest: Seq<char>)
    requires
        all_in(body, CharClass::NotNewline),
    ensures
        after_fillers(seq!['#'] + (body + (seq!['\n'] + rest))) == after_fillers(rest),
{
    let line_end = seq!['\n'] + rest;
    let text = seq!['#'] + (body + line_end);
    assert(text.skip(1) =~= body + line_end);
    lemma_run_len_prefix(body, line_end, CharClass::NotNewline);
    assert(filler_len(text) == body.len() + 2);
    assert(text.skip(body.len() as int + 2) =~= rest);
}

/// White space is filler: with spaces, tabs, carriage returns and line feeds
/// before it, a text has the same after its filler.
pub proof fn lemma_white_space_is_filler(space: Seq<char>, rest: Seq<char>)
    requires
        all_in(space, CharClass::MultiSpace),
    ensures
        after_fillers(space + rest) == after_fillers(rest),
{
    if space.len() == 0 {
        assert(space + rest =~= rest);
    } else {
        let text = space + rest;
        assert(text[0] == space[0]);
        lemma_run_len_prefix(space, rest, CharClass::MultiSpace);
        lemma_run_len_bounds(rest, CharClass::MultiSpace);
        let n = run_len(rest, CharClass::MultiSpace) as int;
        assert(text.skip(filler_len(text) as int) == rest.skip(n));
        if starts_with(rest, '#') || n == 0 {
            assert(rest.skip(0) =~= rest);
        }
    }
}

/// The run at the front of a text is the run at the front of each of its
/// prefixes that hold the run.
pub proof fn lemma_run_len_take(s: Seq<char>, class: CharClass, len: int)
    requires
        run_len(s, class) <= len <= s.len(),
    ensures
        run_len(s.take(len), class) == run_len(s, class),
    decreases s.len(),
{
    let prefix = s.take(len);
    if s.len() > 0 && class.contains(s[0]) {
        assert(prefix[0] == s[0]);
        assert(prefix.skip(1) =~= s.skip(1).take(len - 1));
        lemma_run_len_take(s.skip(1), class, len - 1);
    } else if len > 0 {
        assert(prefix[0] == s[0]);
    }
}

/// The segments that are found at the front of a text consist of segments.
proof fn lemma_segments_found(r: Seq<char>)
    ensures
        after_segments(r.take(r.len() - after_segments(r, false).len()), false) == Seq::<
            char,
        >::empty(),
        after_segments(r, false).len() <= r.len(),
    decreases r.len(),
{
    let rest = after_segments(r, false);
    let found = r.take(r.len() - rest.len());
    lemma_segment_consumes(r, false);
    match spec_segment(r, false) {
        Err(_) => {
            assert(found =~= Seq::<char>::empty());
            assert(spec_segment(found, false) is Err);
        },
        Ok((next, segment)) => {
            let tail = r.skip(1);
            let m = run_len(tail, CharClass::AlphaNumeric) as int;
            lemma_run_len_bounds(tail, CharClass::AlphaNumeric);
            lemma_segments_found(next);
            assert(found[0] == r[0]);
            assert(found.skip(1) =~= tail.take(found.len() - 1));
            lemma_run_len_take(tail, CharClass::AlphaNumeric, found.len() - 1);
            assert(found.skip(m + 1) =~= next.take(next.len() - rest.len()));
            lemma_segment_consumes(found, false);
        },
    }
}

/// A word that is found at the front of a text is a word.
pub proof fn lemma_found_word_is_word(s: Seq<char>)
    ensures
        spec_alphaword_many0_underscore_word(s) matches Ok((_, word)) ==> is_word(word),
{
    if let Ok((rest, word)) = spec_alphaword_many0_underscore_word(s) {
        let n = run_len(s, CharClass::AlphaNumeric) as int;
        lemma_run_len_bounds(s, CharClass::AlphaNumeric);
        let r = s.skip(n);
        lemma_segments_found(r);
        assert(word[0] == s[0]);
        lemma_run_len_take(s, CharClass::AlphaNumeric, word.len() as int);
        assert(word.skip(n) =~= r.take(r.len() - rest.len()));
        assert(word.take(word.len() - 0) =~= word);
    }
}

/// The end of the input ends a line as a line feed does: a key-value pair
/// that is found is found as a line as well, and so is a header.
pub proof fn lemma_line_feed_is_optional(s: Seq<char>)
    ensures
        spec_key_value_pair(s) matches Ok((rest, pair)) ==> spec_key_value_pair_line(s) matches Ok(
            (next, found),
        ) && found == pair && (rest.len() == 0 ==> next.len() == 0),
        spec_header(s) matches Ok((rest, name)) ==> spec_header_line(s) matches Ok((next, found))
            && found == name && (rest.len() == 0 ==> next.len() == 0),
{
}

} // verus!
