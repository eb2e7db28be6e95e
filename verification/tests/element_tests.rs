use tscn::element::{Element, ElementData, ElementType, Property};
use tscn::tokenizer::{Token, Tokenizer};

fn s(text: &str) -> Option<String> {
    Some(String::from(text))
}

#[test]
fn empty_element_is_undefined_and_unknown() {
    let e = Element::empty();
    assert_eq!(e.element_name, "Undefined");
    assert_eq!(e.element_type, ElementType::Unknown);
    assert!(e.element_data.is_empty());
    assert!(e.properties.is_empty());
    assert!(e.tokens.is_empty());
}

#[test]
fn property_to_tokens() {
    let p = Property(String::from("visible"), String::from("true"));
    let [a, b] = p.to_tokens();
    assert_eq!(a, Token::PropertyName(s("visible")));
    assert_eq!(b, Token::PropertyValue(s("true")));
}

#[test]
fn element_data_to_tokens() {
    let d = ElementData(String::from("key"), String::from("7"));
    let [a, b] = d.to_tokens();
    assert_eq!(a, Token::ElementDataName(s("key")));
    assert_eq!(b, Token::ElementDataValue(s("7")));
}

#[test]
fn force_update_tokens_writes_the_canonical_form() {
    let mut e = Element::empty();
    e.element_name = String::from("node");
    e.element_data.push(ElementData(String::from("k"), String::from("v")));
    e.properties.push(Property(String::from("p"), String::from("1")));
    e.force_update_tokens();
    let expected = vec![
        Token::BracketLeft,
        Token::ElementName(s("node")),
        Token::ElementDataName(s("k")),
        Token::ElementDataValue(s("v")),
        Token::BracketRight,
        Token::NewLine,
        Token::PropertyName(s("p")),
        Token::PropertyValue(s("1")),
        Token::NewLine,
        Token::NewLine,
    ];
    assert_eq!(e.tokens, expected);
}

#[test]
fn force_update_tokens_without_properties_has_no_blank_line() {
    let mut e = Element::empty();
    e.element_name = String::from("node");
    e.force_update_tokens();
    let expected = vec![
        Token::BracketLeft,
        Token::ElementName(s("node")),
        Token::BracketRight,
        Token::NewLine,
    ];
    assert_eq!(e.tokens, expected);
}

#[test]
fn get_data_value_returns_the_first_match() {
    // duplicate names: the first one wins
    let tk = Tokenizer::tokenize("[node a=1 a=2 ]\n").unwrap();
    let e = &tk.elements[0];
    assert_eq!(e.get_data_value("a"), Ok(String::from("1")));
    assert_eq!(e.get_data_value("missing"), Err(()));
}

#[test]
fn update_data_replaces_the_value_and_regenerates_tokens() {
    let mut tk = Tokenizer::tokenize("[node name=\"Root\" ]\n").unwrap();
    let e = &mut tk.elements[0];
    assert_eq!(e.update_data("name", "\"Other\""), Ok(()));
    assert_eq!(e.get_data_value("name"), Ok(String::from("\"Other\"")));
    let expected = vec![
        Token::BracketLeft,
        Token::ElementName(s("node")),
        Token::ElementDataName(s("name")),
        Token::ElementDataValue(s("\"Other\"")),
        Token::BracketRight,
        Token::NewLine,
    ];
    assert_eq!(e.tokens, expected);
}

#[test]
fn update_data_on_missing_name_leaves_the_element_untouched() {
    let mut tk = Tokenizer::tokenize("[node name=\"Root\" ]\n").unwrap();
    let before = format!("{:?}", tk.elements[0]);
    let e = &mut tk.elements[0];
    assert_eq!(e.update_data("missing", "x"), Err(()));
    assert_eq!(format!("{:?}", tk.elements[0]), before);
}

#[test]
fn setting_the_same_value_twice_is_idempotent() {
    let mut tk = Tokenizer::tokenize("[node name=\"Root\" parent=\".\" ]\n").unwrap();
    let e = &mut tk.elements[0];
    assert_eq!(e.update_data("name", "\"Test\""), Ok(()));
    let once = format!("{:?}", e.tokens);
    assert_eq!(e.update_data("name", "\"Test\""), Ok(()));
    assert_eq!(format!("{:?}", e.tokens), once);
}

#[test]
fn update_data_by_index_addresses_positionally() {
    let mut tk = Tokenizer::tokenize("[node a=1 b=2 ]\n").unwrap();
    let e = &mut tk.elements[0];
    assert_eq!(e.update_data_by_index(1, "9"), Ok(()));
    assert_eq!(e.get_data_value("a"), Ok(String::from("1")));
    assert_eq!(e.get_data_value("b"), Ok(String::from("9")));
}

#[test]
fn update_data_by_index_out_of_range_is_an_error() {
    let mut tk = Tokenizer::tokenize("[node a=1 ]\n").unwrap();
    let e = &mut tk.elements[0];
    assert_eq!(e.update_data_by_index(5, "9"), Err(()));
    assert_eq!(e.get_data_value("a"), Ok(String::from("1")));
}

#[test]
fn update_property_replaces_the_value() {
    let mut tk = Tokenizer::tokenize("[node ]\nvisible = true\n\n").unwrap();
    let e = &mut tk.elements[0];
    assert_eq!(e.update_property("visible", "false"), Ok(()));
    assert_eq!(e.properties[0].1, "false");
    assert_eq!(e.update_property("missing", "x"), Err(()));
}
