use potato_plant_mission_encoder::arma_types::VariableParseError;
use potato_plant_mission_encoder::arma_types::VariableType;

fn parse(data: &str) -> Result<VariableType, VariableParseError> {
    VariableType::get_type_from_string(data)
}

fn num(text: &str) -> VariableType {
    VariableType::Number(text.to_string())
}

#[test]
fn get_type_from_string_returns_correct_type() {
    assert_eq!(parse(""), Err(VariableParseError::NothingToParse));
    assert_eq!(parse("982365.4232"), Ok(num("982365.4232")));
    assert_eq!(
        parse("\"foo\"abc\"true false [12]\""),
        Ok(VariableType::Str("foo\"abc\"true false [12]".to_string()))
    );
    assert_eq!(parse("true"), Ok(VariableType::Boolean(true)));
    assert_eq!(parse("false"), Ok(VariableType::Boolean(false)));
    assert_eq!(parse("[]"), Ok(VariableType::Array(vec![])));
}

#[test]
fn get_type_from_string_ensure_number_converts() {
    assert_eq!(parse("1"), Ok(num("1")));
    assert_eq!(parse("1.5"), Ok(num("1.5")));
    assert_eq!(parse("-1"), Ok(num("-1")));
    assert_eq!(parse("-1.5"), Ok(num("-1.5")));
    assert_eq!(parse("two"), Err(VariableParseError::NumberBadData));
}

#[test]
fn get_type_from_string_ensure_string_converts() {
    assert_eq!(parse("\"true\""), Ok(VariableType::Str("true".to_string())));
    assert_eq!(parse("\"foobar"), Err(VariableParseError::StringNoClosingQuote));
}

#[test]
fn get_type_from_string_ensure_boolean_converts() {
    assert_eq!(parse("true"), Ok(VariableType::Boolean(true)));
    assert_eq!(parse("false"), Ok(VariableType::Boolean(false)));
}

#[test]
fn get_type_from_string_ensure_array_converts() {
    assert_eq!(
        parse("[1,2,3,4]"),
        Ok(VariableType::Array(vec![num("1"), num("2"), num("3"), num("4")]))
    );
    assert_eq!(
        parse("[\"foo\", false]"),
        Ok(VariableType::Array(vec![
            VariableType::Str("foo".to_string()),
            VariableType::Boolean(false)
        ]))
    );
    assert_eq!(parse("[1,2,3,4"), Err(VariableParseError::ArrayNoClosingBracket));
    assert_eq!(parse("[foo]"), Err(VariableParseError::NumberBadData));
    assert_eq!(
        parse("[[]]"),
        Ok(VariableType::Array(vec![VariableType::Array(vec![])]))
    );
    assert_eq!(
        parse("[[1, [], [2]]]"),
        Ok(VariableType::Array(vec![VariableType::Array(vec![
            num("1"),
            VariableType::Array(vec![]),
            VariableType::Array(vec![num("2")])
        ])]))
    );
    assert_eq!(
        parse("[1, \"hello, world!\", [2, \"hi, JOHN!\", [3], [4]], [5, \"foo\"]]"),
        Ok(VariableType::Array(vec![
            num("1"),
            VariableType::Str("hello, world!".to_string()),
            VariableType::Array(vec![
                num("2"),
                VariableType::Str("hi, JOHN!".to_string()),
                VariableType::Array(vec![num("3")]),
                VariableType::Array(vec![num("4")])
            ]),
            VariableType::Array(vec![num("5"), VariableType::Str("foo".to_string())])
        ]))
    );
}

#[test]
fn commas_inside_quoted_strings_do_not_split_elements() {
    assert_eq!(
        parse("[1, \"hello, world!\", [2]]"),
        Ok(VariableType::Array(vec![
            num("1"),
            VariableType::Str("hello, world!".to_string()),
            VariableType::Array(vec![num("2")])
        ]))
    );
}

#[test]
fn parse_is_pure_and_repeatable() {
    let text = "[1, \"hello, world!\", [2]]";
    assert_eq!(parse(text), parse(text));
    assert_eq!(parse("982365.4232"), parse("982365.4232"));
    assert_eq!(parse("\"foobar"), parse("\"foobar"));
}

#[test]
fn float_words_and_exponents_parse_as_numbers() {
    assert_eq!(parse("inf"), Ok(num("inf")));
    assert_eq!(parse("Infinity"), Ok(num("Infinity")));
    assert_eq!(parse("NaN"), Ok(num("NaN")));
    assert_eq!(parse("1e5"), Ok(num("1e5")));
    assert_eq!(parse("-1.5e-3"), Ok(num("-1.5e-3")));
    assert_eq!(parse(".5"), Ok(num(".5")));
    assert_eq!(parse("5."), Ok(num("5.")));
}

#[test]
fn malformed_numbers_are_rejected() {
    assert_eq!(parse("1.2.3"), Err(VariableParseError::NumberBadData));
    assert_eq!(parse("1e"), Err(VariableParseError::NumberBadData));
    assert_eq!(parse("."), Err(VariableParseError::NumberBadData));
    assert_eq!(parse("+"), Err(VariableParseError::NumberBadData));
    assert_eq!(parse("truey"), Err(VariableParseError::NumberBadData));
    assert_eq!(parse("TRUE"), Err(VariableParseError::NumberBadData));
}

#[test]
fn alphabetic_array_elements_reach_the_word_rule() {
    // Would be an empty array if letters were never classed as word starts.
    assert_eq!(parse("[foo]"), Err(VariableParseError::NumberBadData));
    assert_eq!(
        parse("[true,false]"),
        Ok(VariableType::Array(vec![
            VariableType::Boolean(true),
            VariableType::Boolean(false)
        ]))
    );
}

#[test]
fn array_scan_edge_behaviour() {
    // A sign before a digit is not a word start: the scanner drops it.
    assert_eq!(parse("[-1]"), Ok(VariableType::Array(vec![num("1")])));
    // An element still open when the scan ends is dropped silently.
    assert_eq!(parse("[\"ab]"), Ok(VariableType::Array(vec![])));
}
