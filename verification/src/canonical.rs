//! The canonical text of a document, and the theorem that parsing it gives
//! the document back.
//!
//! The canonical text holds each section as its name in square brackets on a
//! line of its own, followed by one line `key = value` for each of its pairs.
//! The line feed after the last line of the text may be left out.
use crate::config::by_name;
use crate::entries::{
    distinct_keys, lemma_upsert_all_distinct, lemma_upsert_all_keys, lemma_upsert_all_members,
    upsert_all,
};
use crate::error::ErrorKind;
use crate::parser::atoms::{
    after_fillers, filler_len, lemma_after_fillers_suffix, spec_alphaword,
    spec_alphaword_many0_underscore_word,
};
use crate::parser::tolerance::{
    all_in, is_word, lemma_after_spaces_none, lemma_found_word_is_word, lemma_header_padded,
    lemma_key_value_pair_padded, lemma_word_then,
};
use crate::parser::{
    after_optional_newline, after_spaces, lemma_key_value_pair_consumes, lemma_section_consumes,
    spec_cfg, spec_header_line, spec_key_value_pair, spec_key_value_pair_line, spec_more_lines,
    spec_more_sections, spec_section,
};
use crate::section::SectionView;
use crate::text::{lemma_run_len_bounds, starts_with, CharClass};
use vstd::prelude::*;

verus! {

/// A key-value pair as a line, without the line feed.
pub open spec fn line_text(pair: (Seq<char>, Seq<char>)) -> Seq<char> {
    pair.0 + (seq![' ', '=', ' '] + pair.1)
}

/// The pairs as lines. A line feed stands between two lines, and `closing`
/// after the last.
pub open spec fn lines_text(entries: Seq<(Seq<char>, Seq<char>)>, closing: Seq<char>) -> Seq<char>
    decreases entries.len(),
{
    if entries.len() == 0 {
        Seq::empty()
    } else if entries.len() == 1 {
        line_text(entries[0]) + closing
    } else {
        line_text(entries[0]) + (seq!['\n'] + lines_text(entries.skip(1), closing))
    }
}

/// The header line of a section, with its line feed.
pub open spec fn header_text(name: Seq<char>) -> Seq<char> {
    seq!['['] + (name + seq![']', '\n'])
}

/// A section as text: its header line, then its pairs as lines.
pub open spec fn section_text(section: SectionView, closing: Seq<char>) -> Seq<char> {
    header_text(section.name) + lines_text(section.entries, closing)
}

/// The sections as text, one after the other. Every line ends in a line
/// feed, but for the last line of the last section, which ends in `closing`.
pub open spec fn sections_text(sections: Seq<SectionView>, closing: Seq<char>) -> Seq<char>
    decreases sections.len(),
{
    if sections.len() == 0 {
        Seq::empty()
    } else if sections.len() == 1 {
        section_text(sections[0], closing)
    } else {
        section_text(sections[0], seq!['\n']) + sections_text(sections.skip(1), closing)
    }
}

/// The sections of a document, in its order.
pub open spec fn sections_of(document: Seq<(Seq<char>, SectionView)>) -> Seq<SectionView> {
    Seq::new(document.len(), |i: int| document[i].1)
}

/// The canonical text of a document.
pub open spec fn document_text(
    document: Seq<(Seq<char>, SectionView)>,
    closing: Seq<char>,
) -> Seq<char> {
    sections_text(sections_of(document), closing)
}

/// What may close the last line of a text: a line feed, or nothing.
pub open spec fn is_closing(closing: Seq<char>) -> bool {
    closing == seq!['\n'] || closing == Seq::<char>::empty()
}

/// A pair that a line can hold: its key is a word, and every character of
/// its value may stand in a value.
pub open spec fn valid_pair(pair: (Seq<char>, Seq<char>)) -> bool {
    is_word(pair.0) && all_in(pair.1, CharClass::Value)
}

/// A section that a text can hold: its name is a word, and it has at least
/// one pair, only pairs that a line can hold, and no key twice.
pub open spec fn valid_section(section: SectionView) -> bool {
    &&& is_word(section.name)
    &&& section.entries.len() >= 1
    &&& forall|i: int| 0 <= i < section.entries.len() ==> valid_pair(#[trigger] section.entries[i])
    &&& distinct_keys(section.entries)
}

/// A document that a text can hold: it has at least one section, only
/// sections that a text can hold, each under its own name, and no name
/// twice.
pub open spec fn valid_document(document: Seq<(Seq<char>, SectionView)>) -> bool {
    &&& document.len() >= 1
    &&& distinct_keys(document)
    &&& forall|i: int|
        0 <= i < document.len() ==> (#[trigger] document[i]).0 == document[i].1.name
            && valid_section(document[i].1)
}

/// A text that starts with neither white space nor `#` has no filler at its
/// front.
proof fn lemma_no_filler(s: Seq<char>)
    requires
        s.len() == 0 || (s[0] != '#' && !CharClass::MultiSpace.contains(s[0])),
    ensures
        after_fillers(s) == s,
{
    assert(filler_len(s) == 0);
}

/// No key-value line stands where the text ends or a header starts.
proof fn lemma_no_line(tail: Seq<char>)
    requires
        tail.len() == 0 || starts_with(tail, '['),
    ensures
        spec_key_value_pair_line(tail) is Err,
        after_fillers(tail) == tail,
{
    lemma_no_filler(tail);
    lemma_after_spaces_none(tail);
    assert(spec_alphaword(tail) is Err);
}

/// The line of a pair is read as that pair, and what is left is what
/// follows the line feed after it.
proof fn lemma_line(pair: (Seq<char>, Seq<char>), after: Seq<char>)
    requires
        valid_pair(pair),
        after.len() == 0 || starts_with(after, '\n'),
    ensures
        spec_key_value_pair_line(line_text(pair) + after) == Ok::<
            (Seq<char>, (Seq<char>, Seq<char>)),
            (Seq<char>, ErrorKind),
        >((after_optional_newline(after), pair)),
        after_fillers(line_text(pair) + after) == line_text(pair) + after,
{
    let none = Seq::<char>::empty();
    let space = seq![' '];
    let text = line_text(pair) + after;
    let padded = none + (pair.0 + (space + (seq!['='] + (space + (pair.1 + (none + after))))));
    assert(none + after =~= after);
    lemma_after_spaces_none(after);
    lemma_key_value_pair_padded(none, space, space, none, pair.0, pair.1, after);
    assert(padded =~= text);
    lemma_word_then(pair.0, none);
    assert(text[0] == pair.0[0]);
    lemma_no_filler(text);
}

/// The lines of one or more pairs, followed by the end of the text or by a
/// header, are read as those pairs, and what follows them is left.
proof fn lemma_lines(entries: Seq<(Seq<char>, Seq<char>)>, closing: Seq<char>, tail: Seq<char>)
    requires
        entries.len() >= 1,
        forall|i: int| 0 <= i < entries.len() ==> valid_pair(#[trigger] entries[i]),
        closing == seq!['\n'] || (closing == Seq::<char>::empty() && tail.len() == 0),
        tail.len() == 0 || starts_with(tail, '['),
    ensures
        spec_key_value_pair_line(lines_text(entries, closing) + tail) matches Ok((next, pair))
            && pair == entries[0] && spec_more_lines(next) == (entries.skip(1), tail),
        after_fillers(lines_text(entries, closing) + tail) == lines_text(entries, closing) + tail,
    decreases entries.len(),
{
    let text = lines_text(entries, closing) + tail;
    if entries.len() == 1 {
        let after = closing + tail;
        assert(text =~= line_text(entries[0]) + after);
        lemma_line(entries[0], after);
        assert(after_optional_newline(after) =~= tail);
        lemma_no_line(tail);
        assert(entries.skip(1) =~= Seq::empty());
    } else {
        let others = entries.skip(1);
        let next = lines_text(others, closing) + tail;
        let after = seq!['\n'] + next;
        assert(text =~= line_text(entries[0]) + after);
        lemma_line(entries[0], after);
        assert(after_optional_newline(after) =~= next);
        assert forall|i: int| 0 <= i < others.len() implies valid_pair(#[trigger] others[i]) by {
            assert(others[i] == entries[i + 1]);
        }
        lemma_lines(others, closing, tail);
        assert(seq![others[0]] + others.skip(1) =~= others);
    }
}

/// The text of a section, followed by the end of the text or by a header,
/// is read as that section, and what follows it is left.
proof fn lemma_section(section: SectionView, closing: Seq<char>, tail: Seq<char>)
    requires
        valid_section(section),
        closing == seq!['\n'] || (closing == Seq::<char>::empty() && tail.len() == 0),
        tail.len() == 0 || starts_with(tail, '['),
    ensures
        spec_section(section_text(section, closing) + tail) == Ok::<
            (Seq<char>, SectionView),
            (Seq<char>, ErrorKind),
        >((tail, section)),
        starts_with(section_text(section, closing) + tail, '['),
{
    let none = Seq::<char>::empty();
    let text = section_text(section, closing) + tail;
    let lines = lines_text(section.entries, closing) + tail;
    let after = seq!['\n'] + lines;
    let padded = none + (seq!['['] + (none + (section.name + (none + (seq![']'] + (none
        + after))))));
    assert(padded =~= text);
    assert(text[0] == '[');
    lemma_no_filler(text);
    lemma_header_padded(none, none, none, none, section.name, after);
    lemma_after_spaces_none(after);
    assert(after_optional_newline(after) =~= lines);
    lemma_lines(section.entries, closing, tail);
    assert(seq![section.entries[0]] + section.entries.skip(1) =~= section.entries);
    lemma_upsert_all_distinct(section.entries);
}

/// The text of one or more sections is read as those sections, and nothing
/// is left.
proof fn lemma_sections(sections: Seq<SectionView>, closing: Seq<char>)
    requires
        sections.len() >= 1,
        forall|i: int| 0 <= i < sections.len() ==> valid_section(#[trigger] sections[i]),
        is_closing(closing),
    ensures
        spec_section(sections_text(sections, closing)) matches Ok((next, first)) && first
            == sections[0] && spec_more_sections(next) == (
            sections.skip(1),
            Seq::<char>::empty(),
        ),
        starts_with(sections_text(sections, closing), '['),
    decreases sections.len(),
{
    let none = Seq::<char>::empty();
    let text = sections_text(sections, closing);
    if sections.len() == 1 {
        assert(text =~= section_text(sections[0], closing) + none);
        lemma_section(sections[0], closing, none);
        assert(spec_section(none) is Err) by {
            lemma_no_filler(none);
            lemma_after_spaces_none(none);
        }
        assert(sections.skip(1) =~= Seq::empty());
    } else {
        let others = sections.skip(1);
        let next = sections_text(others, closing);
        assert forall|i: int| 0 <= i < others.len() implies valid_section(#[trigger] others[i]) by {
            assert(others[i] == sections[i + 1]);
        }
        lemma_sections(others, closing);
        lemma_section(sections[0], seq!['\n'], next);
        assert(seq![others[0]] + others.skip(1) =~= others);
    }
}

/// Parsing the canonical text of a document gives the document back: the
/// text is read as the sections of the document, in their order and with
/// nothing left over, and putting these under their names gives the
/// document. This holds with and without a line feed after the last line.
pub proof fn theorem_round_trip(document: Seq<(Seq<char>, SectionView)>, closing: Seq<char>)
    requires
        valid_document(document),
        is_closing(closing),
    ensures
        spec_cfg(document_text(document, closing)) == Ok::<
            (Seq<char>, Seq<SectionView>),
            (Seq<char>, ErrorKind),
        >((Seq::empty(), sections_of(document))),
        upsert_all(by_name(sections_of(document))) == document,
{
    let sections = sections_of(document);
    lemma_sections(sections, closing);
    assert(seq![sections[0]] + sections.skip(1) =~= sections);
    assert(by_name(sections) =~= document);
    lemma_upsert_all_distinct(document);
}

/// A pair that is read is a pair that a line can hold.
proof fn lemma_pair_is_valid(s: Seq<char>)
    ensures
        spec_key_value_pair(s) matches Ok((_, pair)) ==> valid_pair(pair),
        spec_key_value_pair_line(s) matches Ok((_, pair)) ==> valid_pair(pair),
{
    if let Ok((_, pair)) = spec_key_value_pair(s) {
        let at_key = after_spaces(s);
        lemma_found_word_is_word(at_key);
        let after_key = spec_alphaword_many0_underscore_word(at_key)->Ok_0.0;
        let at_value = after_spaces(after_spaces(after_key).skip(1));
        lemma_run_len_bounds(at_value, CharClass::Value);
        assert forall|i: int| 0 <= i < pair.1.len() implies CharClass::Value.contains(
            #[trigger] pair.1[i],
        ) by {
            assert(pair.1[i] == at_value[i]);
        }
    }
}

/// The further pairs that are read are pairs that a line can hold.
proof fn lemma_more_lines_are_valid(s: Seq<char>)
    ensures
        forall|i: int|
            0 <= i < spec_more_lines(s).0.len() ==> valid_pair(#[trigger] spec_more_lines(s).0[i]),
    decreases s.len(),
{
    let at_line = after_fillers(s);
    lemma_after_fillers_suffix(s);
    lemma_key_value_pair_consumes(at_line);
    lemma_pair_is_valid(at_line);
    if let Ok((rest, pair)) = spec_key_value_pair_line(at_line) {
        lemma_more_lines_are_valid(rest);
        let others = spec_more_lines(rest).0;
        let all = spec_more_lines(s).0;
        assert forall|i: int| 0 <= i < all.len() implies valid_pair(#[trigger] all[i]) by {
            if i > 0 {
                assert(all[i] == others[i - 1]);
            }
        }
    }
}

/// A section that is read is a section that a text can hold.
pub proof fn theorem_section_is_valid(s: Seq<char>)
    ensures
        spec_section(s) matches Ok((_, section)) ==> valid_section(section),
{
    if let Ok((_, section)) = spec_section(s) {
        let at_header = after_fillers(s);
        let at_name = after_spaces(after_spaces(at_header).skip(1));
        lemma_found_word_is_word(at_name);
        let at_line = spec_header_line(at_header)->Ok_0.0;
        lemma_pair_is_valid(at_line);
        let (rest, first) = spec_key_value_pair_line(at_line)->Ok_0;
        lemma_more_lines_are_valid(rest);
        let others = spec_more_lines(rest).0;
        let pairs = seq![first] + others;
        assert forall|j: int| 0 <= j < pairs.len() implies valid_pair(#[trigger] pairs[j]) by {
            if j > 0 {
                assert(pairs[j] == others[j - 1]);
            }
        }
        lemma_upsert_all_members(pairs);
        lemma_upsert_all_keys(pairs);
        assert forall|i: int| 0 <= i < section.entries.len() implies valid_pair(
            #[trigger] section.entries[i],
        ) by {
            let j = choose|j: int| 0 <= j < pairs.len() && section.entries[i] == #[trigger] pairs[j];
            assert(valid_pair(pairs[j]));
        }
    }
}

/// The sections that are read are sections that a text can hold.
proof fn lemma_more_sections_are_valid(s: Seq<char>)
    ensures
        forall|i: int|
            0 <= i < spec_more_sections(s).0.len() ==> valid_section(
                #[trigger] spec_more_sections(s).0[i],
            ),
    decreases s.len(),
{
    lemma_section_consumes(s);
    theorem_section_is_valid(s);
    if let Ok((rest, section)) = spec_section(s) {
        lemma_more_sections_are_valid(rest);
        let others = spec_more_sections(rest).0;
        let all = spec_more_sections(s).0;
        assert forall|i: int| 0 <= i < all.len() implies valid_section(#[trigger] all[i]) by {
            if i > 0 {
                assert(all[i] == others[i - 1]);
            }
        }
    }
}

/// A document that is read is a document that a text can hold: what
/// results from putting the sections of a text under their names has at
/// least one section, only sections that a text can hold, each under its own
/// name, and no name twice. So the canonical text of every document that was
/// read parses back to it.
pub proof fn theorem_document_is_valid(s: Seq<char>)
    ensures
        spec_cfg(s) matches Ok((rest, sections)) ==> rest.len() == 0 && sections.len() >= 1
            && valid_document(upsert_all(by_name(sections))),
{
    if let Ok((_, sections)) = spec_cfg(s) {
        theorem_section_is_valid(s);
        let (rest, first) = spec_section(s)->Ok_0;
        lemma_more_sections_are_valid(rest);
        let others = spec_more_sections(rest).0;
        assert forall|j: int| 0 <= j < sections.len() implies valid_section(
            #[trigger] sections[j],
        ) by {
            if j > 0 {
                assert(sections[j] == others[j - 1]);
            }
        }
        let named = by_name(sections);
        let document = upsert_all(named);
        lemma_upsert_all_members(named);
        lemma_upsert_all_keys(named);
        assert forall|i: int| 0 <= i < document.len() implies (#[trigger] document[i]).0
            == document[i].1.name && valid_section(document[i].1) by {
            let j = choose|j: int| 0 <= j < named.len() && document[i] == #[trigger] named[j];
            assert(valid_section(sections[j]));
        }
    }
}

} // verus!
