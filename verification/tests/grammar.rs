use cfgparser::parser::atoms::{alphaword, alphaword_many0_underscore_word, underscore_word};
use cfgparser::parser::{
    header, key_value_pair, key_value_pair_line, parse_cfg, parse_section, parse_sections,
    until_illegal_char,
};
use cfgparser::{ErrorKind, ParseError, Section};

#[test]
fn alphaword_given_word_starting_with_letter_can_parse() {
    let result = alphaword("a13b");
    assert_eq!(result, Ok(("", "a13b")));
}

#[test]
fn alphaword_given_word_starting_with_number_fails_to_parse() {
    let result = alphaword("1abc");
    assert_eq!(result, Err(ParseError { remaining: "1abc", kind: ErrorKind::Alpha }));
}

#[test]
fn underscore_word_given_input_starting_with_number_can_parse() {
    let result = underscore_word("_1fofo");
    assert_eq!(result, Ok(("", "_1fofo")));
}

#[test]
fn underscore_word_given_input_starting_with_letter_can_parse() {
    let result = underscore_word("_fofo");
    assert_eq!(result, Ok(("", "_fofo")));
}

#[test]
fn alphaword_many0_underscore_word_given_input_starting_with_num_can_parse() {
    let result = alphaword_many0_underscore_word("dude_123_1fofo");
    assert_eq!(result, Ok(("", "dude_123_1fofo")));
}

#[test]
fn header_given_nospaces_can_parse() {
    let result = header("[key]");
    assert_eq!(result, Ok(("", "key")));
}

#[test]
fn header_given_spaces_can_parse() {
    let result = header(" [ key  ]    ");
    assert_eq!(result, Ok(("", "key")));
}

#[test]
fn header_given_spaces_underscores_can_parse() {
    let result = header(" [ kEy_VAlue  ]    ");
    assert_eq!(result, Ok(("", "kEy_VAlue")));
}

#[test]
fn until_illegal_char_given_valid_str_can_parse() {
    let result = until_illegal_char("this.is-_one1234567890$");
    assert_eq!(result, Ok(("", "this.is-_one1234567890$")));
}

#[test]
fn until_illegal_char_given_partially_valid_str_can_parse() {
    let result = until_illegal_char("this.is- _one1234567890$");
    assert_eq!(result, Ok((" _one1234567890$", "this.is-")));
}

#[test]
fn key_value_pair_given_valid_input_can_parse() {
    let result = key_value_pair("this_key = val123-543_bla");
    assert_eq!(result, Ok(("", ("this_key", "val123-543_bla"))));
}

#[test]
fn key_value_pair_given_valid_input_starting_with_space_can_parse() {
    let result = key_value_pair("  this_key = val123-543_bla");
    assert_eq!(result, Ok(("", ("this_key", "val123-543_bla"))));
}

#[test]
fn key_value_pair_given_valid_input2_can_parse() {
    let result = key_value_pair("another_key = 6053@lichost3-64:27--@bb-fooby.d4.com");
    assert_eq!(
        result,
        Ok(("", ("another_key", "6053@lichost3-64:27--@bb-fooby.d4.com")))
    );
}

#[test]
fn key_value_pair_given_invalid_input2_can_partially_parse() {
    let result = key_value_pair("another_key = 6053 @lichost3-64:27--@bb-fooby.d4.com");
    assert_eq!(
        result,
        Ok(("@lichost3-64:27--@bb-fooby.d4.com", ("another_key", "6053")))
    );
}

#[test]
fn key_value_pair_given_invalid_input_can_partialy_parse() {
    let result = key_value_pair("another_key = 6053#@lichost3-64:27--@bb-fooby.d4.com");
    assert_eq!(
        result,
        Ok((
            "#@lichost3-64:27--@bb-fooby.d4.com",
            ("another_key", "6053")
        ))
    );
}

#[test]
fn key_value_pair_line_given_valid_input_ending_in_newline_can_parse() {
    let result = key_value_pair_line("this_key = val123-543_bla\n");
    assert_eq!(result, Ok(("", ("this_key", "val123-543_bla"))));
}

#[test]
fn key_value_pair_line_given_valid_input_ending_with_spaces_can_parse() {
    let result = key_value_pair_line("  this_key = val123-543_bla   ");
    assert_eq!(result, Ok(("", ("this_key", "val123-543_bla"))));
}

#[test]
fn parse_section_given_section_with_empty_lines_can_parse() {
    let section = r#"
    
[test]
this = is
the = way

"#;
    let result = parse_section(section);
    let mut expected = Section::new("test");
    expected.insert("this", "is");
    expected.insert("the", "way");
    assert_eq!(result, Ok(("", expected)));
}

#[test]
fn parse_section_given_section_with_empty_lines_and_spaces_can_parse() {
    let section = r#"
    
 [test]
  this = is
   the = way

"#;
    let result = parse_section(section);
    let mut expected = Section::new("test");
    expected.insert("this", "is");
    expected.insert("the", "way");
    assert_eq!(result, Ok(("", expected)));
}

#[test]
fn parse_sections_given_section_with_empty_lines_can_parse() {
    let sections = r#"
    
[test]
this = is
the = way

[test2]
foo = is
the = bar

"#;
    let result = parse_sections(sections);
    let mut section1 = Section::new("test");
    section1.insert("this", "is");
    section1.insert("the", "way");
    let mut section2 = Section::new("test2");
    section2.insert("foo", "is");
    section2.insert("the", "bar");
    assert_eq!(result, Ok(("", vec![section1, section2])));
}

#[test]
fn parse_cfg_from_str_given_section_with_empty_lines_can_parse() {
    let sections = r#"
    
[test]
this = is
the = way

[test2]
foo = is
the = bar

"#;
    let result = parse_cfg(sections);
    let mut section1 = Section::new("test");
    section1.insert("this", "is");
    section1.insert("the", "way");
    let mut section2 = Section::new("test2");
    section2.insert("foo", "is");
    section2.insert("the", "bar");
    assert_eq!(result, Ok(("", vec![section1, section2])));
}

#[test]
fn parse_cfg_from_str_given_section_with_empty_lines_and_spaces_can_parse() {
    let sections = r#"
    
  [ test ]
    this = is
the = way

 [test2   ]
 foo = is
    the = bar

"#;
    let result = parse_cfg(sections);
    let mut section1 = Section::new("test");
    section1.insert("this", "is");
    section1.insert("the", "way");
    let mut section2 = Section::new("test2");
    section2.insert("foo", "is");
    section2.insert("the", "bar");
    assert_eq!(result, Ok(("", vec![section1, section2])));
}

#[test]
fn parse_cfg_from_str_given_section_with_no_empty_last_line_can_parse() {
    let sections = r#"
    
[test]
this = is
the = way

[test2]
foo = is
the = bar"#;
    let result = parse_cfg(sections);
    let mut section1 = Section::new("test");
    section1.insert("this", "is");
    section1.insert("the", "way");
    let mut section2 = Section::new("test2");
    section2.insert("foo", "is");
    section2.insert("the", "bar");
    assert_eq!(result, Ok(("", vec![section1, section2])));
}
