use cfgparser::{Config, ConfigOwned, Section, SectionOwned};

#[test]
fn new_section_has_its_name_and_no_pairs() {
    let section = Section::new("name");
    assert_eq!(section.name(), "name");
    assert_eq!(section.pairs(), Vec::<(&str, &str)>::new());
    assert_eq!(section.get("name"), None);
}

#[test]
fn section_keeps_the_order_of_first_insertion() {
    let mut section = Section::new("s");
    section.insert("b", "1");
    section.insert("a", "2");
    section.insert("c", "3");
    assert_eq!(section.insert("a", "4"), Some("2"));
    assert_eq!(section.pairs(), vec![("b", "1"), ("a", "4"), ("c", "3")]);
    assert_eq!(section.get("a"), Some("4"));
    assert_eq!(section.get("b"), Some("1"));
    assert_eq!(section.get("d"), None);
    assert_eq!(section.get(""), None);
}

#[test]
fn sections_are_equal_where_name_and_pairs_are() {
    let mut one = Section::new("s");
    one.insert("a", "1");
    one.insert("b", "2");
    let mut two = Section::new("s");
    two.insert("b", "2");
    two.insert("a", "1");
    assert_eq!(one, two);
    let mut other_value = Section::new("s");
    other_value.insert("a", "1");
    other_value.insert("b", "3");
    assert_ne!(one, other_value);
    let mut other_name = Section::new("t");
    other_name.insert("a", "1");
    other_name.insert("b", "2");
    assert_ne!(one, other_name);
    assert_ne!(one, Section::new("s"));
}

#[test]
fn owned_section_reports_the_value_it_replaces() {
    let mut owned = SectionOwned::new();
    assert_eq!(owned, SectionOwned::new());
    assert_eq!(owned.insert("a", "1"), None);
    assert_ne!(owned, SectionOwned::new());
    assert_eq!(owned.insert("b", "2"), None);
    assert_eq!(owned.insert("a", "3"), Some("1".to_string()));
    assert_eq!(owned.insert("a", "4"), Some("3".to_string()));
    let mut same = SectionOwned::new();
    same.insert("a", "4");
    same.insert("b", "2");
    assert_eq!(owned, same);
}

#[test]
fn section_to_owned_copies_name_and_pairs() {
    let text = String::from("name key value other more");
    let mut section = Section::new(&text[0..4]);
    section.insert(&text[5..8], &text[9..14]);
    section.insert(&text[15..20], &text[21..25]);
    let (name, owned) = section.to_owned();
    assert_eq!(name, "name");
    let mut expected = SectionOwned::new();
    expected.insert("key", "value");
    expected.insert("other", "more");
    assert_eq!(owned, expected);
    let (_, empty) = Section::new("x").to_owned();
    assert_eq!(empty, SectionOwned::new());
}

#[test]
fn new_config_has_no_sections() {
    let config = Config::new();
    assert_eq!(config.sections().len(), 0);
    assert!(config.get("a").is_none());
    assert_eq!(config, Config::default());
    assert_eq!(config.to_owned(), ConfigOwned::new());
    assert_eq!(ConfigOwned::new(), ConfigOwned::default());
}

#[test]
fn config_insert_reports_a_new_name() {
    let mut config = Config::new();
    let mut first = Section::new("a");
    first.insert("k", "1");
    let mut second = Section::new("a");
    second.insert("l", "2");
    let mut third = Section::new("b");
    third.insert("m", "3");
    assert!(config.insert("a", first));
    assert!(config.insert("b", third));
    assert!(!config.insert("a", second));
    assert_eq!(config.get("a").unwrap().pairs(), vec![("l", "2")]);
    assert_eq!(config.get("b").unwrap().pairs(), vec![("m", "3")]);
    assert!(config.get("c").is_none());
    let sections = config.sections();
    assert_eq!(sections.len(), 2);
    assert_eq!(sections[0].name(), "a");
    assert_eq!(sections[0].pairs(), vec![("l", "2")]);
    assert_eq!(sections[1].name(), "b");
}

#[test]
fn config_keeps_a_section_under_the_name_it_was_given() {
    let mut config = Config::new();
    let mut section = Section::new("inner");
    section.insert("k", "v");
    assert!(config.insert("outer", section));
    assert!(config.get("inner").is_none());
    assert_eq!(config.get("outer").unwrap().name(), "inner");
    let owned = config.to_owned();
    assert!(owned.get("inner").is_none());
    let mut expected = SectionOwned::new();
    expected.insert("k", "v");
    assert_eq!(owned.get("outer"), Some(&expected));
}

#[test]
fn config_to_owned_copies_every_section() {
    let text = String::from("[one]\na = 1\nb = 2\n[two]\nc = 3\n");
    let owned = {
        let config = Config::parse_cfg(&text).unwrap();
        config.to_owned()
    };
    drop(text);
    let mut one = SectionOwned::new();
    one.insert("a", "1");
    one.insert("b", "2");
    let mut two = SectionOwned::new();
    two.insert("c", "3");
    assert_eq!(owned.get("one"), Some(&one));
    assert_eq!(owned.get("two"), Some(&two));
    assert_eq!(owned.get("three"), None);
    assert_ne!(owned.get("one"), Some(&two));
}

#[test]
fn owned_config_insert_reports_a_new_name() {
    let mut owned = ConfigOwned::new();
    let mut first = Section::new("a");
    first.insert("k", "1");
    let mut second = Section::new("a");
    second.insert("l", "2");
    assert!(owned.insert("a", &first));
    assert!(!owned.insert("a", &second));
    let mut expected = SectionOwned::new();
    expected.insert("l", "2");
    assert_eq!(owned.get("a"), Some(&expected));
    let mut config = Config::new();
    config.insert("a", second);
    assert_eq!(config.to_owned(), owned);
}
