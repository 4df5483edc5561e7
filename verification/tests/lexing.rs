use rs_core::tokenizer::{classify_token, tokenizer, transform_token, Token, TokenType};

#[test]
fn test_tokenizer_possessive() {
    let text = "John's cat";
    let tokens = tokenizer(text);
    assert_eq!(
        tokens,
        vec![
            Token {
                token: "john".to_string(),
                token_type: TokenType::Possessive
            },
            Token {
                token: "cat".to_string(),
                token_type: TokenType::Term
            }
        ]
    );
}

#[test]
fn test_tokenizer_abbreviation() {
    let text = "R.D.C. is a country in Africa.";
    let tokens = tokenizer(text);
    assert_eq!(
        tokens,
        vec![
            Token {
                token: "rdc".to_string(),
                token_type: TokenType::Abbreviation
            },
            Token {
                token: "is".to_string(),
                token_type: TokenType::Term
            },
            Token {
                token: "a".to_string(),
                token_type: TokenType::Term
            },
            Token {
                token: "country".to_string(),
                token_type: TokenType::Term
            },
            Token {
                token: "in".to_string(),
                token_type: TokenType::Term
            },
            Token {
                token: "africa".to_string(),
                token_type: TokenType::Term
            }
        ]
    );
}

#[test]
fn test_classify_abbreviation_normalized() {
    assert_eq!(classify_token("r.d.c."), TokenType::Abbreviation);
    assert_eq!(transform_token("r.d.c.", &TokenType::Abbreviation), "rdc");
}

#[test]
fn test_classify_possessive_normalized() {
    assert_eq!(classify_token("john's"), TokenType::Possessive);
    assert_eq!(transform_token("john's", &TokenType::Possessive), "john");
}

#[test]
fn test_classify_term_passthrough() {
    assert_eq!(classify_token("cat"), TokenType::Term);
    assert_eq!(transform_token("cat", &TokenType::Term), "cat");
}

#[test]
fn test_classify_one_class_each() {
    assert_eq!(classify_token("a.b."), TokenType::Abbreviation);
    assert_eq!(classify_token("dog's"), TokenType::Possessive);
    assert_eq!(classify_token("x9"), TokenType::Term);
    assert_eq!(classify_token("x'9"), TokenType::Invalid);
    assert_eq!(classify_token("_tag"), TokenType::Invalid);
    assert_eq!(classify_token(""), TokenType::Invalid);
    assert_eq!(classify_token("a."), TokenType::Invalid);
}

#[test]
fn test_invalid_candidates_dropped() {
    let tokens = tokenizer("x'9 cat _tag");
    assert_eq!(
        tokens,
        vec![Token {
            token: "cat".to_string(),
            token_type: TokenType::Term
        }]
    );
    for token in &tokens {
        assert_ne!(token.token_type, TokenType::Invalid);
    }
}

#[test]
fn test_tokenizer_empty_text() {
    assert!(tokenizer("").is_empty());
    assert!(tokenizer("  ...  !?").is_empty());
}

#[test]
fn test_output_fully_case_folded() {
    let tokens = tokenizer("MiXeD CaSe R.D.C.");
    assert_eq!(tokens.len(), 3);
    for token in &tokens {
        assert!(!token.token.chars().any(|c| c.is_ascii_uppercase()));
    }
}
