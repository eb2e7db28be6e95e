use tscn::element::ExpectedType;
use tscn::tokenizer::{Token, Tokenizer, TokenizerError};

fn s(text: &str) -> Option<String> {
    Some(String::from(text))
}

#[test]
fn tokenize_single_element() {
    let tk = Tokenizer::tokenize("[node name=\"Root\" parent=\".\"]\nvisible = true\n\n").unwrap();
    let expected = vec![
        Token::BracketLeft,
        Token::ElementName(s("node")),
        Token::ElementDataName(s("name")),
        Token::ElementDataValue(s("\"Root\"")),
        Token::ElementDataName(s("parent")),
        Token::ElementDataValue(s("\".\"")),
        Token::BracketRight,
        Token::NewLine,
        Token::PropertyName(s("visible")),
        Token::PropertyValue(s("true")),
        Token::NewLine,
        Token::NewLine,
    ];
    assert_eq!(tk.tokens, expected);
}

#[test]
fn quoted_value_with_space_is_one_token() {
    // a value containing a space inside quotes tokenizes to a single
    // data-value token, not two
    let tk = Tokenizer::tokenize("[node key=\"a b\" ]\n").unwrap();
    let values: Vec<&Token> = tk
        .tokens
        .iter()
        .filter(|t| matches!(t, Token::ElementDataValue(_)))
        .collect();
    assert_eq!(values.len(), 1);
    assert_eq!(*values[0], Token::ElementDataValue(s("\"a b\"")));
}

#[test]
fn property_value_captured_verbatim() {
    let tk = Tokenizer::tokenize("[node ]\npath = res://a=b/[weird].tres\n\n").unwrap();
    assert_eq!(tk.elements.len(), 1);
    assert_eq!(tk.elements[0].properties.len(), 1);
    assert_eq!(tk.elements[0].properties[0].0, "path");
    assert_eq!(tk.elements[0].properties[0].1, "res://a=b/[weird].tres");
}

#[test]
fn property_line_missing_equals_is_early_end_of_input() {
    let r = Tokenizer::tokenize("[node ]\nvisible ");
    assert!(matches!(r, Err(TokenizerError::EarlyEOF)));
}

#[test]
fn property_name_followed_by_non_separator_fails() {
    // the character after a completed property name must be `=`
    let r = Tokenizer::tokenize("[node ]\nvisible true\n");
    assert!(matches!(r, Err(TokenizerError::EarlyEOF)));
}

#[test]
fn stray_character_outside_a_record_is_invalid() {
    assert!(matches!(Tokenizer::tokenize("x"), Err(TokenizerError::InvalidChar(0))));
    assert!(matches!(Tokenizer::tokenize(" [node ]\n"), Err(TokenizerError::InvalidChar(0))));
}

#[test]
fn bracket_inside_a_value_is_kept() {
    let tk = Tokenizer::tokenize("[node k=a[b ]\n").unwrap();
    assert_eq!(tk.elements[0].get_data_value("k"), Ok(String::from("a[b")));
    let tk2 = Tokenizer::tokenize("[node k=\"a[b\" ]\n").unwrap();
    assert_eq!(tk2.elements[0].get_data_value("k"), Ok(String::from("\"a[b\"")));
}

#[test]
fn byte_exact_round_trip_of_canonical_document() {
    let doc = "[gd_scene load_steps=4 format=2 ]\n[node name=\"Root\" parent=\".\" ]\nvisible = true\n\n";
    let tk = Tokenizer::tokenize(doc).unwrap();
    assert_eq!(tk.to_tscn_content(), doc);
}

#[test]
fn replay_normalizes_the_space_before_the_closing_bracket() {
    // data values always render with their separating space, so a document
    // written without one comes back in the spaced form
    let tk = Tokenizer::tokenize("[node name=\"Root\"]\n").unwrap();
    assert_eq!(tk.to_tscn_content(), "[node name=\"Root\" ]\n");
}

#[test]
fn token_rendering() {
    assert_eq!(Token::BracketLeft.to_string(), "[");
    assert_eq!(Token::BracketRight.to_string(), "]");
    assert_eq!(Token::NewLine.to_string(), "\n");
    assert_eq!(Token::Invalid.to_string(), "{Invalid}");
    assert_eq!(Token::Unresolved.to_string(), "{UNDEFINED}");
    assert_eq!(Token::SkipTo(Box::new(Token::PropertyValue(None))).to_string(), "{UNDEFINED}");
    assert_eq!(Token::ElementName(s("node")).to_string(), "node");
    assert_eq!(Token::ElementName(None).to_string(), "{Unresolved}");
    assert_eq!(Token::ElementDataName(s("key")).to_string(), "key=");
    assert_eq!(Token::ElementDataValue(s("7")).to_string(), "7");
    assert_eq!(Token::PropertyName(s("visible")).to_string(), "visible = ");
    assert_eq!(Token::PropertyValue(s("true")).to_string(), "true");
}

#[test]
fn reconstruct_renders_spaces_after_names_and_values() {
    let tokens = vec![
        Token::BracketLeft,
        Token::ElementName(s("node")),
        Token::ElementDataName(s("k")),
        Token::ElementDataValue(s("v")),
        Token::BracketRight,
        Token::NewLine,
    ];
    assert_eq!(Tokenizer::reconstruct_tscn_from_tokens(tokens), "[node k=v ]\n");
}

#[test]
fn element_name_without_payload_is_not_found() {
    let mut tk = Tokenizer::tokenize("").unwrap();
    tk.tokens.push(Token::ElementName(None));
    let r = tk.elements_from_tokens();
    assert!(matches!(r, Err(TokenizerError::NotFound(ExpectedType::ElementName))));
}

#[test]
fn data_value_without_payload_is_not_found() {
    let mut tk = Tokenizer::tokenize("").unwrap();
    tk.tokens.push(Token::BracketLeft);
    tk.tokens.push(Token::ElementDataValue(None));
    let r = tk.elements_from_tokens();
    assert!(matches!(r, Err(TokenizerError::NotFound(ExpectedType::ElementDataValue))));
}

#[test]
fn data_value_without_preceding_name_is_unexpected() {
    let mut tk = Tokenizer::tokenize("").unwrap();
    tk.tokens.push(Token::ElementDataValue(Some(String::from("x"))));
    let r = tk.elements_from_tokens();
    assert!(matches!(r, Err(TokenizerError::UnexpectedErr)));
}

#[test]
fn property_value_without_preceding_name_is_unexpected() {
    let mut tk = Tokenizer::tokenize("").unwrap();
    tk.tokens.push(Token::PropertyValue(Some(String::from("x"))));
    let r = tk.elements_from_tokens();
    assert!(matches!(r, Err(TokenizerError::UnexpectedErr)));
}

#[test]
fn empty_input_has_no_tokens_and_no_elements() {
    let tk = Tokenizer::tokenize("").unwrap();
    assert!(tk.tokens.is_empty());
    assert!(tk.elements.is_empty());
}

#[test]
fn properties_attach_to_the_element_before_them() {
    let tk = Tokenizer::tokenize("[a ]\np = 1\n\n[b ]\nq = 2\n\n").unwrap();
    assert_eq!(tk.elements.len(), 2);
    assert_eq!(tk.elements[0].element_name, "a");
    assert_eq!(tk.elements[0].properties.len(), 1);
    assert_eq!(tk.elements[0].properties[0].0, "p");
    assert_eq!(tk.elements[1].element_name, "b");
    assert_eq!(tk.elements[1].properties.len(), 1);
    assert_eq!(tk.elements[1].properties[0].0, "q");
}
