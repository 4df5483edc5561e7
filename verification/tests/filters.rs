use rs_core::token_filter::{StemmerTokenFilter, StopWordRemover, TokenFilter};
use rs_core::tokenizer::{Token, TokenType};

#[test]
fn test_stemmer_token_filter() {
    let filter = StemmerTokenFilter::new();
    let input = "running".to_string();
    let tokens = filter.filter(input);
    assert_eq!(
        tokens,
        vec![Token {
            token: "run".to_string(),
            token_type: TokenType::Term
        }]
    );
}

#[test]
fn test_stopword_removal() {
    let stopword_filter = StopWordRemover::new();

    let result = stopword_filter.filter("the".to_string());
    assert!(result.is_empty());

    let result: Vec<Token> = stopword_filter.filter("term".to_string());
    assert_eq!(result[0].token_type, TokenType::Term);
}

#[test]
fn test_stemming_idempotent_on_stem() {
    let filter = StemmerTokenFilter::new();
    let once = filter.filter("run".to_string());
    assert_eq!(once.len(), 1);
    assert_eq!(once[0].token, "run");
    let twice = filter.filter(once[0].token.clone());
    assert_eq!(twice[0].token, "run");
}

#[test]
fn test_stopword_keeps_text_unchanged() {
    let stopword_filter = StopWordRemover::new();
    let result = stopword_filter.filter("country".to_string());
    assert_eq!(
        result,
        vec![Token {
            token: "country".to_string(),
            token_type: TokenType::Term
        }]
    );
}
