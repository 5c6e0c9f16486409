use cfgparser::parser::atoms::skip_fillers;
use cfgparser::parser::{
    header, header_line, key_value_pair, key_value_pair_line, parse_cfg, parse_section,
};
use cfgparser::{Config, ErrorKind, ParseError, Section};

fn canonical(sections: &[(&str, Vec<(&str, &str)>)], closed: bool) -> String {
    let mut text = String::new();
    for (name, pairs) in sections {
        text.push_str(&format!("[{}]\n", name));
        for (key, value) in pairs {
            text.push_str(&format!("{} = {}\n", key, value));
        }
    }
    if !closed {
        text.pop();
    }
    text
}

fn document<'a>(sections: &[(&'a str, Vec<(&'a str, &'a str)>)]) -> Config<'a> {
    let mut config = Config::new();
    for (name, pairs) in sections {
        let mut section = Section::new(name);
        for (key, value) in pairs {
            section.insert(key, value);
        }
        config.insert(name, section);
    }
    config
}

#[test]
fn canonical_text_parses_back_to_the_document() {
    let sections = vec![
        ("playa", vec![("name", "Playa"), ("short_name", "ddpv"), ("prefix", "dd")]),
        ("portland_2", vec![("name", "Portland"), ("empty", ""), ("url", "http://d3.com/a?b=c")]),
        ("x", vec![("k_1_2", "caf\u{e9}-\u{4e2d}\u{6587}")]),
    ];
    let text = canonical(&sections, true);
    assert_eq!(
        text,
        "[playa]\nname = Playa\nshort_name = ddpv\nprefix = dd\n[portland_2]\nname = Portland\nempty = \nurl = http://d3.com/a?b=c\n[x]\nk_1_2 = caf\u{e9}-\u{4e2d}\u{6587}\n"
    );
    let parsed = Config::parse_cfg(&text).unwrap();
    assert_eq!(parsed, document(&sections));
    let order: Vec<&str> = parsed.sections().iter().map(|section| section.name()).collect();
    assert_eq!(order, vec!["playa", "portland_2", "x"]);
    assert_eq!(
        parsed.get("portland_2").unwrap().pairs(),
        vec![("name", "Portland"), ("empty", ""), ("url", "http://d3.com/a?b=c")]
    );
}

#[test]
fn canonical_text_without_last_line_feed_parses_back_to_the_document() {
    let sections = vec![("a", vec![("k", "v")]), ("b", vec![("k", "w"), ("l", "x")])];
    let text = canonical(&sections, false);
    assert_eq!(text, "[a]\nk = v\n[b]\nk = w\nl = x");
    assert_eq!(Config::parse_cfg(&text).unwrap(), document(&sections));
}

#[test]
fn second_insert_of_a_key_overwrites_and_reports_the_first_value() {
    let mut section = Section::new("test");
    assert_eq!(section.insert("other", "x"), None);
    assert_eq!(section.insert("key", "first"), None);
    assert_eq!(section.get("key"), Some("first"));
    assert_eq!(section.insert("key", "second"), Some("first"));
    assert_eq!(section.get("key"), Some("second"));
    assert_eq!(section.pairs(), vec![("other", "x"), ("key", "second")]);
}

#[test]
fn spaces_inside_brackets_do_not_change_the_name() {
    assert_eq!(header("[ test ]"), Ok(("", "test")));
    assert_eq!(header("[test]"), Ok(("", "test")));
    assert_eq!(header("\t[\ttest \t]\t \n"), Ok(("\n", "test")));
    assert_eq!(header_line("  [  test  ]  \nnext"), Ok(("next", "test")));
}

#[test]
fn spaces_around_the_equals_sign_do_not_change_the_pair() {
    assert_eq!(key_value_pair("key=value"), Ok(("", ("key", "value"))));
    assert_eq!(key_value_pair("key = value"), Ok(("", ("key", "value"))));
    assert_eq!(key_value_pair(" \tkey \t =\t  value \t"), Ok(("", ("key", "value"))));
    assert_eq!(key_value_pair("  key  =  value  \nnext"), Ok(("\nnext", ("key", "value"))));
}

#[test]
fn comment_after_a_value_is_not_part_of_the_value() {
    assert_eq!(key_value_pair_line("the = way#note\n"), Ok(("#note\n", ("the", "way"))));
    let (rest, section) = parse_section("[test]\nthe = way#note\n").unwrap();
    assert_eq!(rest, "");
    assert_eq!(section.get("the"), Some("way"));
    assert_eq!(section.pairs(), vec![("the", "way")]);
}

#[test]
fn comment_line_between_sections_is_ignored() {
    let with_comment = "[a]\nk = v\n# comment\n[b]\nl = w\n";
    let without = "[a]\nk = v\n[b]\nl = w\n";
    assert_eq!(Config::parse_cfg(with_comment).unwrap(), Config::parse_cfg(without).unwrap());
    assert_eq!(skip_fillers("# comment\n[b]"), "[b]");
    assert_eq!(skip_fillers("\n  # one\n\t\r\n# two [x] = y\n\n  [b]"), "[b]");
    assert_eq!(skip_fillers("# to the end"), "");
    assert_eq!(skip_fillers("k = v"), "k = v");
}

#[test]
fn last_line_needs_no_line_feed() {
    let config = Config::parse_cfg("[test]\nthis = is\nthe = way").unwrap();
    assert_eq!(config.get("test").unwrap().pairs(), vec![("this", "is"), ("the", "way")]);
    assert_eq!(key_value_pair_line("the = way"), Ok(("", ("the", "way"))));
    assert_eq!(header_line("[test]"), Ok(("", "test")));
}

#[test]
fn header_without_lines_fails() {
    assert_eq!(
        parse_cfg("[test]\n"),
        Err(ParseError { remaining: "", kind: ErrorKind::Alpha })
    );
    assert_eq!(
        parse_section("[test]\n[other]\nk = v\n"),
        Err(ParseError { remaining: "[other]\nk = v\n", kind: ErrorKind::Alpha })
    );
    assert!(Config::parse_cfg("[test]\n").is_err());
    assert!(Config::parse_cfg("[test]").is_err());
}

#[test]
fn value_with_a_space_ends_at_the_space_and_the_document_fails() {
    let text = "[playa]\nname = Playa Vista\nshort_name = ddpv\n\n[portland]\nname = Portland\nshort_name = ddpd\n";
    assert_eq!(key_value_pair("name = Playa Vista\n"), Ok(("Vista\n", ("name", "Playa"))));
    assert_eq!(
        parse_cfg(text),
        Err(ParseError {
            remaining: "Vista\nshort_name = ddpv\n\n[portland]\nname = Portland\nshort_name = ddpd\n",
            kind: ErrorKind::Eof,
        })
    );
    assert!(Config::parse_cfg(text).is_err());
}

#[test]
fn later_section_of_the_same_name_replaces_the_earlier() {
    let text = "[test]\na = 1\nb = 2\n[other]\nx = y\n[test]\nc = 3\n";
    let (rest, sections) = parse_cfg(text).unwrap();
    assert_eq!(rest, "");
    assert_eq!(sections.len(), 3);
    let config = Config::parse_cfg(text).unwrap();
    let test = config.get("test").unwrap();
    assert_eq!(test.pairs(), vec![("c", "3")]);
    assert_eq!(test.get("a"), None);
    assert_eq!(test.get("b"), None);
    let names: Vec<&str> = config.sections().iter().map(|section| section.name()).collect();
    assert_eq!(names, vec!["test", "other"]);
}

#[test]
fn later_line_of_the_same_key_replaces_the_earlier() {
    let (_, section) = parse_section("[test]\na = 1\nb = 2\na = 3\n").unwrap();
    assert_eq!(section.pairs(), vec![("a", "3"), ("b", "2")]);
}
