use cfgparser::parser::atoms::{alphaword_many0_underscore_alphaword, underscore_alphaword};

#[test]
fn underscore_alphaword_given_fofo_can_parse() {
    let result = underscore_alphaword("_fofo");
    assert_eq!(result, Ok(("", "_fofo")));
}

#[test]
fn alphaword_many0_underscore_alphaword_given_a_word_followed_by_multiple_underscore_words_can_parse() {
    let result = alphaword_many0_underscore_alphaword("a13b_fofo_bla");
    assert_eq!(result, Ok(("", "a13b_fofo_bla")));
}
