use cfgparser::parser::atoms::{
    alphaword, alphaword_many0_underscore_alphaword, alphaword_many0_underscore_word,
    skip_fillers, space0_eol, underscore_alphaword, underscore_alphaword_drop_underscore,
    underscore_word,
};
use cfgparser::parser::{
    header, header_newline, key_value_pair, key_value_pair_line, key_value_pair_newline,
    parse_cfg, parse_section, parse_sections, until_illegal_char,
};
use cfgparser::text::{first_in, take_while, CharClass};
use cfgparser::{Config, ErrorKind, ParseError};

fn failure(remaining: &str, kind: ErrorKind) -> ParseError<'_> {
    ParseError { remaining, kind }
}

#[test]
fn alphaword_stops_at_the_first_other_character() {
    assert_eq!(alphaword("abc1_def"), Ok(("_def", "abc1")));
    assert_eq!(alphaword("a"), Ok(("", "a")));
    assert_eq!(alphaword("Zz9 rest"), Ok((" rest", "Zz9")));
    assert_eq!(alphaword("a\u{e9}"), Ok(("\u{e9}", "a")));
}

#[test]
fn alphaword_needs_a_letter_first() {
    assert_eq!(alphaword(""), Err(failure("", ErrorKind::Alpha)));
    assert_eq!(alphaword("_a"), Err(failure("_a", ErrorKind::Alpha)));
    assert_eq!(alphaword("\u{e9}a"), Err(failure("\u{e9}a", ErrorKind::Alpha)));
    assert_eq!(alphaword(" a"), Err(failure(" a", ErrorKind::Alpha)));
}

#[test]
fn underscore_word_reports_what_is_missing() {
    assert_eq!(underscore_word("_1a_b"), Ok(("_b", "_1a")));
    assert_eq!(underscore_word("a"), Err(failure("a", ErrorKind::Tag)));
    assert_eq!(underscore_word(""), Err(failure("", ErrorKind::Tag)));
    assert_eq!(underscore_word("_"), Err(failure("", ErrorKind::AlphaNumeric)));
    assert_eq!(underscore_word("__a"), Err(failure("_a", ErrorKind::AlphaNumeric)));
    assert_eq!(underscore_word("_-"), Err(failure("-", ErrorKind::AlphaNumeric)));
}

#[test]
fn underscore_alphaword_needs_a_letter_after_the_underscore() {
    assert_eq!(underscore_alphaword("_a1_b"), Ok(("_b", "_a1")));
    assert_eq!(underscore_alphaword("_1a"), Err(failure("1a", ErrorKind::Alpha)));
    assert_eq!(underscore_alphaword("a"), Err(failure("a", ErrorKind::Tag)));
    assert_eq!(underscore_alphaword_drop_underscore("_a1_b"), Ok(("_b", "a1")));
    assert_eq!(underscore_alphaword_drop_underscore("_1a"), Err(failure("1a", ErrorKind::Alpha)));
    assert_eq!(underscore_alphaword_drop_underscore("x"), Err(failure("x", ErrorKind::Tag)));
}

#[test]
fn word_takes_segments_while_they_are_complete() {
    assert_eq!(alphaword_many0_underscore_word("fred1_1bla_foobar"), Ok(("", "fred1_1bla_foobar")));
    assert_eq!(alphaword_many0_underscore_word("a_b_"), Ok(("_", "a_b")));
    assert_eq!(alphaword_many0_underscore_word("a__b"), Ok(("__b", "a")));
    assert_eq!(alphaword_many0_underscore_word("a_1 = x"), Ok((" = x", "a_1")));
    assert_eq!(alphaword_many0_underscore_word("1a"), Err(failure("1a", ErrorKind::Alpha)));
    assert_eq!(alphaword_many0_underscore_alphaword("fred1_bla_foobar"), Ok(("", "fred1_bla_foobar")));
    assert_eq!(alphaword_many0_underscore_alphaword("a_b_1c"), Ok(("_1c", "a_b")));
    assert_eq!(alphaword_many0_underscore_alphaword("_a"), Err(failure("_a", ErrorKind::Alpha)));
}

#[test]
fn space0_eol_takes_a_comment_or_white_space() {
    assert_eq!(space0_eol("# this is an example"), Ok(("", "# this is an example")));
    assert_eq!(space0_eol("    "), Ok(("", "    ")));
    assert_eq!(space0_eol("# this is an example\n"), Ok(("", "# this is an example\n")));
    assert_eq!(space0_eol("    \n"), Ok(("", "    \n")));
    assert_eq!(space0_eol("#a\n#b\n"), Ok(("#b\n", "#a\n")));
    assert_eq!(space0_eol("# caf\u{e9}\nx"), Ok(("x", "# caf\u{e9}\n")));
    assert_eq!(space0_eol(" \t\r\n\n x"), Ok(("x", " \t\r\n\n ")));
    assert_eq!(space0_eol(" #a"), Ok(("#a", " ")));
    assert_eq!(space0_eol("x"), Ok(("x", "")));
    assert_eq!(space0_eol(""), Ok(("", "")));
    assert_eq!(skip_fillers(" #a\n\n#b"), "");
}

#[test]
fn header_reports_what_is_missing() {
    assert_eq!(header("key]"), Err(failure("key]", ErrorKind::Tag)));
    assert_eq!(header("  key]"), Err(failure("key]", ErrorKind::Tag)));
    assert_eq!(header(""), Err(failure("", ErrorKind::Tag)));
    assert_eq!(header("[]"), Err(failure("]", ErrorKind::Alpha)));
    assert_eq!(header("[ 1key]"), Err(failure("1key]", ErrorKind::Alpha)));
    assert_eq!(header("[key"), Err(failure("", ErrorKind::Tag)));
    assert_eq!(header("[key value]"), Err(failure("value]", ErrorKind::Tag)));
    assert_eq!(header("[key-value]"), Err(failure("-value]", ErrorKind::Tag)));
    assert_eq!(header("[key\n]"), Err(failure("\n]", ErrorKind::Tag)));
    assert_eq!(header("[a] [b]"), Ok(("[b]", "a")));
}

#[test]
fn header_newline_needs_the_line_feed() {
    assert_eq!(header_newline("[key] \nrest"), Ok(("rest", "key")));
    assert_eq!(header_newline("[key]"), Err(failure("", ErrorKind::Char)));
    assert_eq!(header_newline("[key] x"), Err(failure("x", ErrorKind::Char)));
    assert_eq!(header_newline("key"), Err(failure("key", ErrorKind::Tag)));
}

#[test]
fn until_illegal_char_stops_at_each_illegal_character() {
    for stop in ["#", " ", "[", "]", "!", "*", "\t", "\n", "\r", "\"", "'"] {
        let text = format!("ab{}cd", stop);
        let rest = format!("{}cd", stop);
        assert_eq!(until_illegal_char(&text), Ok((rest.as_str(), "ab")));
    }
    assert_eq!(until_illegal_char(""), Ok(("", "")));
    assert_eq!(until_illegal_char("#x"), Ok(("#x", "")));
    assert_eq!(until_illegal_char("a=b:c/d\\e\u{e9}\u{1f600} f"), Ok((" f", "a=b:c/d\\e\u{e9}\u{1f600}")));
}

#[test]
fn key_value_pair_reports_what_is_missing() {
    assert_eq!(key_value_pair("= value"), Err(failure("= value", ErrorKind::Alpha)));
    assert_eq!(key_value_pair("  1key = value"), Err(failure("1key = value", ErrorKind::Alpha)));
    assert_eq!(key_value_pair(""), Err(failure("", ErrorKind::Alpha)));
    assert_eq!(key_value_pair("key value"), Err(failure("value", ErrorKind::Tag)));
    assert_eq!(key_value_pair("key"), Err(failure("", ErrorKind::Tag)));
    assert_eq!(key_value_pair("key\n= value"), Err(failure("\n= value", ErrorKind::Tag)));
    assert_eq!(key_value_pair("[key] = value"), Err(failure("[key] = value", ErrorKind::Alpha)));
}

#[test]
fn value_may_be_empty() {
    assert_eq!(key_value_pair("key ="), Ok(("", ("key", ""))));
    assert_eq!(key_value_pair("key =\n"), Ok(("\n", ("key", ""))));
    assert_eq!(key_value_pair("key = # note"), Ok(("# note", ("key", ""))));
    assert_eq!(key_value_pair_line("key = \nnext = x"), Ok(("next = x", ("key", ""))));
    let config = Config::parse_cfg("[a]\nk =\nl = \n").unwrap();
    assert_eq!(config.get("a").unwrap().pairs(), vec![("k", ""), ("l", "")]);
}

#[test]
fn key_may_have_a_segment_that_starts_with_a_digit() {
    assert_eq!(key_value_pair("a_1 = x"), Ok(("", ("a_1", "x"))));
    assert_eq!(key_value_pair("a_1b_22 = x"), Ok(("", ("a_1b_22", "x"))));
}

#[test]
fn value_may_hold_characters_outside_ascii() {
    assert_eq!(
        key_value_pair_line("name = caf\u{e9}\u{4e2d}\u{1f600}\nx"),
        Ok(("x", ("name", "caf\u{e9}\u{4e2d}\u{1f600}")))
    );
    assert_eq!(key_value_pair("n\u{e9} = x"), Err(failure("\u{e9} = x", ErrorKind::Tag)));
}

#[test]
fn key_value_pair_newline_needs_the_line_feed() {
    assert_eq!(key_value_pair_newline("a = b \nrest"), Ok(("rest", ("a", "b"))));
    assert_eq!(key_value_pair_newline("a = b"), Err(failure("", ErrorKind::Char)));
    assert_eq!(key_value_pair_newline("a = b#c\n"), Err(failure("#c\n", ErrorKind::Char)));
    assert_eq!(key_value_pair_newline("a b"), Err(failure("b", ErrorKind::Tag)));
}

#[test]
fn line_takes_one_line_feed_only() {
    assert_eq!(key_value_pair_line("a = b\n\nc = d"), Ok(("\nc = d", ("a", "b"))));
    assert_eq!(key_value_pair_line("a = b\r\nc = d"), Ok(("\r\nc = d", ("a", "b"))));
}

#[test]
fn two_pairs_on_one_line_are_two_lines() {
    let (rest, section) = parse_section("[s]\na = b c = d\n").unwrap();
    assert_eq!(rest, "");
    assert_eq!(section.pairs(), vec![("a", "b"), ("c", "d")]);
}

#[test]
fn filler_may_stand_between_the_lines_of_a_section() {
    let (rest, section) = parse_section("# top\n\n[s]\na = b # note\n\n# more\n  c = d\r\n\n[t]").unwrap();
    assert_eq!(rest, "[t]");
    assert_eq!(section.name(), "s");
    assert_eq!(section.pairs(), vec![("a", "b"), ("c", "d")]);
}

#[test]
fn filler_may_not_stand_between_a_header_and_its_first_line() {
    assert_eq!(
        parse_section("[s]\n\na = b\n"),
        Err(failure("\na = b\n", ErrorKind::Alpha))
    );
    assert_eq!(
        parse_section("[s]\n# note\na = b\n"),
        Err(failure("# note\na = b\n", ErrorKind::Alpha))
    );
    assert_eq!(parse_section("[s] a = b\n").unwrap().1.pairs(), vec![("a", "b")]);
}

#[test]
fn section_fails_where_its_header_fails() {
    assert_eq!(parse_section(""), Err(failure("", ErrorKind::Tag)));
    assert_eq!(parse_section("\n  # only filler\n"), Err(failure("", ErrorKind::Tag)));
    assert_eq!(parse_section("a = b\n"), Err(failure("a = b\n", ErrorKind::Tag)));
    assert_eq!(parse_section("\n [1]\na = b\n"), Err(failure("1]\na = b\n", ErrorKind::Alpha)));
    assert_eq!(parse_section("[s\na = b\n"), Err(failure("\na = b\n", ErrorKind::Tag)));
}

#[test]
fn sections_stop_at_what_is_no_section() {
    let (rest, sections) = parse_sections("[a]\nk = v\n[b]\nl = w\ngarbage").unwrap();
    assert_eq!(rest, "garbage");
    assert_eq!(sections.len(), 2);
    assert_eq!(sections[0].name(), "a");
    assert_eq!(sections[1].name(), "b");
    let (rest, sections) = parse_sections("[a]\nk = v\n[b]\n").unwrap();
    assert_eq!(rest, "[b]\n");
    assert_eq!(sections.len(), 1);
    assert_eq!(parse_sections("x"), Err(failure("x", ErrorKind::Tag)));
}

#[test]
fn document_must_be_consumed_whole() {
    assert_eq!(parse_cfg(""), Err(failure("", ErrorKind::Tag)));
    assert_eq!(parse_cfg(" \n\t"), Err(failure("", ErrorKind::Tag)));
    assert_eq!(parse_cfg("k = v\n"), Err(failure("k = v\n", ErrorKind::Tag)));
    assert_eq!(parse_cfg("[a]\nk = v\n!"), Err(failure("!", ErrorKind::Eof)));
    assert_eq!(parse_cfg("[a]\nk = v\n[b"), Err(failure("[b", ErrorKind::Eof)));
    assert_eq!(parse_cfg("[a]\nk = v\n[b]\n"), Err(failure("[b]\n", ErrorKind::Eof)));
    assert_eq!(parse_cfg("[a]\nk = v w\n"), Err(failure("w\n", ErrorKind::Eof)));
    let (rest, sections) = parse_cfg("[a]\nk = v\n\n# end\n").unwrap();
    assert_eq!(rest, "");
    assert_eq!(sections.len(), 1);
}

#[test]
fn failure_is_described_by_its_kind_and_place() {
    assert_eq!(failure("1abc", ErrorKind::Alpha).describe(), "expected a letter at: 1abc");
    assert_eq!(
        failure("-x", ErrorKind::AlphaNumeric).describe(),
        "expected a letter or a digit at: -x"
    );
    assert_eq!(failure("key]", ErrorKind::Tag).describe(), "expected a delimiter at: key]");
    assert_eq!(failure("", ErrorKind::Char).describe(), "expected a line feed at: ");
    assert_eq!(
        failure("!\n", ErrorKind::Eof).describe(),
        "expected the end of the input at: !\n"
    );
    assert_eq!(
        Config::parse_cfg("[a]\nk = v\n!").unwrap_err(),
        "expected the end of the input at: !"
    );
    assert_eq!(Config::parse_cfg("").unwrap_err(), "expected a delimiter at: ");
    assert_eq!(Config::parse_cfg("[a]\n").unwrap_err(), "expected a letter at: ");
}

#[test]
fn take_while_splits_off_the_run() {
    assert_eq!(take_while("abc123 x", CharClass::Alpha), ("123 x", "abc"));
    assert_eq!(take_while("abc123 x", CharClass::AlphaNumeric), (" x", "abc123"));
    assert_eq!(take_while(" \t x", CharClass::Space), ("x", " \t "));
    assert_eq!(take_while(" \t\r\n x", CharClass::Space), ("\r\n x", " \t"));
    assert_eq!(take_while(" \t\r\n x", CharClass::MultiSpace), ("x", " \t\r\n "));
    assert_eq!(take_while("a\u{e9}b c", CharClass::Value), (" c", "a\u{e9}b"));
    assert_eq!(take_while("a\u{e9}b\nc", CharClass::NotNewline), ("\nc", "a\u{e9}b"));
    assert_eq!(take_while("a\u{e9}b", CharClass::Alpha), ("\u{e9}b", "a"));
    assert_eq!(take_while("", CharClass::Value), ("", ""));
    assert_eq!(take_while("abc", CharClass::Space), ("abc", ""));
}

#[test]
fn first_in_looks_at_one_character() {
    assert!(first_in("a1", CharClass::Alpha));
    assert!(!first_in("1a", CharClass::Alpha));
    assert!(first_in("1a", CharClass::AlphaNumeric));
    assert!(!first_in("", CharClass::Value));
    assert!(first_in("\u{e9}", CharClass::Value));
    assert!(!first_in("\u{e9}", CharClass::AlphaNumeric));
    assert!(!first_in("#", CharClass::Value));
    assert!(first_in("\r", CharClass::MultiSpace));
    assert!(!first_in("\r", CharClass::Space));
    assert!(!first_in("\n", CharClass::NotNewline));
}
