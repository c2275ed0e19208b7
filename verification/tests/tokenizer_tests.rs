use bool_algebra::tokenizer::{tokenize, valid_identifier, Token};

#[test]
fn test_tokens_spaces_ignored() {
    let tokens = tokenize(&"a & b | c".to_string(), true).unwrap();
    assert_eq!(tokens.len(), 5);
    assert_eq!(tokens[0], Token::Identifier('a'));
    assert_eq!(tokens[1], Token::And);
    assert_eq!(tokens[2], Token::Identifier('b'));
    assert_eq!(tokens[3], Token::Or);
    assert_eq!(tokens[4], Token::Identifier('c'));
}

#[test]
fn test_tokens_error_invalid_token() {
    let tokens = tokenize(&"a|?".to_string(), true);
    assert!(tokens.is_err());
}

#[test]
fn test_tokens_idents_not_allowed() {
    let tokens = tokenize(&"a & b | c".to_string(), false);
    assert!(tokens.is_err());
}

#[test]
fn test_tokens_all_symbols() {
    let tokens = tokenize(&"()&|^!=10".to_string(), false).unwrap();
    assert_eq!(
        tokens,
        vec![
            Token::GroupOpen,
            Token::GroupClose,
            Token::And,
            Token::Or,
            Token::Xor,
            Token::Not,
            Token::Equal,
            Token::ConstTrue,
            Token::ConstFalse,
        ]
    );
}

#[test]
fn test_tokens_empty_source() {
    assert_eq!(tokenize(&String::new(), true).unwrap(), vec![]);
    assert_eq!(tokenize(&"   ".to_string(), false).unwrap(), vec![]);
}

#[test]
fn test_tokens_keywords() {
    let tokens = tokenize(&"true & false".to_string(), false).unwrap();
    assert_eq!(tokens, vec![Token::ConstTrue, Token::And, Token::ConstFalse]);
}

#[test]
fn test_tokens_keyword_wins_over_identifier() {
    let tokens = tokenize(&"true".to_string(), true).unwrap();
    assert_eq!(tokens, vec![Token::ConstTrue]);
    let tokens = tokenize(&"tru".to_string(), true).unwrap();
    assert_eq!(
        tokens,
        vec![Token::Identifier('t'), Token::Identifier('r'), Token::Identifier('u')]
    );
}

#[test]
fn test_tokens_keyword_without_boundary() {
    let tokens = tokenize(&"truea".to_string(), true).unwrap();
    assert_eq!(tokens, vec![Token::ConstTrue, Token::Identifier('a')]);
    let tokens = tokenize(&"xfalse".to_string(), true).unwrap();
    assert_eq!(tokens, vec![Token::Identifier('x'), Token::ConstFalse]);
    let tokens = tokenize(&"falsetrue".to_string(), false).unwrap();
    assert_eq!(tokens, vec![Token::ConstFalse, Token::ConstTrue]);
}

#[test]
fn test_tokens_keywords_are_case_sensitive() {
    assert!(tokenize(&"True".to_string(), true).is_err());
    assert!(tokenize(&"FALSE".to_string(), true).is_err());
}

#[test]
fn test_tokens_diagnostic_text() {
    let err = tokenize(&"a|?".to_string(), true).unwrap_err();
    assert_eq!(err, "Invalid character '?' at pos 2\n\na|?\n  ^^^\n");
}

#[test]
fn test_tokens_diagnostic_at_start() {
    let err = tokenize(&"a & b | c".to_string(), false).unwrap_err();
    assert_eq!(err, "Invalid character 'a' at pos 0\n\na & b | c\n^^^\n");
}

#[test]
fn test_tokens_diagnostic_two_digit_position() {
    let err = tokenize(&"a & b & c & d#".to_string(), true).unwrap_err();
    assert_eq!(
        err,
        "Invalid character '#' at pos 13\n\na & b & c & d#\n             ^^^\n"
    );
}

#[test]
fn test_tokens_diagnostic_counts_characters() {
    let err = tokenize(&"é|ü?".to_string(), true).unwrap_err();
    assert_eq!(err, "Invalid character 'é' at pos 0\n\né|ü?\n^^^\n");
    let err = tokenize(&"a|ü".to_string(), true).unwrap_err();
    assert_eq!(err, "Invalid character 'ü' at pos 2\n\na|ü\n  ^^^\n");
}

#[test]
fn test_tokens_first_invalid_character_wins() {
    let err = tokenize(&"1 $ 0 %".to_string(), true).unwrap_err();
    assert_eq!(err, "Invalid character '$' at pos 2\n\n1 $ 0 %\n  ^^^\n");
}

#[test]
fn test_tokens_other_blanks_are_invalid() {
    assert!(tokenize(&"a\tb".to_string(), true).is_err());
    assert!(tokenize(&"a\nb".to_string(), true).is_err());
}

#[test]
fn test_tokens_upper_case_letter_is_invalid() {
    assert!(tokenize(&"A".to_string(), true).is_err());
}

#[test]
fn test_valid_identifier_range() {
    assert!(valid_identifier('a'));
    assert!(valid_identifier('m'));
    assert!(valid_identifier('z'));
    assert!(!valid_identifier('A'));
    assert!(!valid_identifier('`'));
    assert!(!valid_identifier('{'));
    assert!(!valid_identifier('1'));
}

#[test]
fn test_token_labels() {
    assert_eq!(Token::And.label(false), "&");
    assert_eq!(Token::Or.label(false), "|");
    assert_eq!(Token::Not.label(false), "!");
    assert_eq!(Token::Xor.label(false), "^");
    assert_eq!(Token::Equal.label(false), "=");
    assert_eq!(Token::GroupOpen.label(false), "(");
    assert_eq!(Token::GroupClose.label(false), ")");
    assert_eq!(Token::ConstTrue.label(false), "true");
    assert_eq!(Token::ConstFalse.label(false), "false");
    assert_eq!(Token::Identifier('q').label(false), "q");
}

#[test]
fn test_token_labels_expanded() {
    assert_eq!(Token::And.label(true), "AND");
    assert_eq!(Token::Or.label(true), "OR");
    assert_eq!(Token::Not.label(true), "NOT");
    assert_eq!(Token::Xor.label(true), "XOR");
    assert_eq!(Token::Equal.label(true), "EQ");
    assert_eq!(Token::GroupOpen.label(true), "(");
    assert_eq!(Token::GroupClose.label(true), ")");
    assert_eq!(Token::ConstTrue.label(true), "true");
    assert_eq!(Token::ConstFalse.label(true), "false");
    assert_eq!(Token::Identifier('q').label(true), "q");
}
