use rs_core::token_stream::{
    EmptyTokenStream, SingleTokenStream, Token, TokenIterator, TokenStream, VecTokenStream,
};

#[test]
fn test_empty_token_stream() {
    let mut stream: EmptyTokenStream = EmptyTokenStream;
    assert_eq!(stream.next(), None);
}

#[test]
fn test_single_token_stream() {
    let mut stream: SingleTokenStream = SingleTokenStream::new("hello".to_string());
    assert_eq!(
        stream.next(),
        Some(Token {
            token: "hello".to_string()
        })
    );
    assert_eq!(stream.next(), None);
}

#[test]
fn test_vec_token_stream() {
    let mut stream: VecTokenStream =
        VecTokenStream::new(vec!["hello".to_string(), "world".to_string()]);

    assert_eq!(
        stream.next(),
        Some(Token {
            token: "hello".to_string()
        })
    );
    assert_eq!(
        stream.next(),
        Some(Token {
            token: "world".to_string()
        })
    );
    assert_eq!(stream.next(), None);
}

#[test]
fn test_token_iterator() {
    let stream: VecTokenStream =
        VecTokenStream::new(vec!["token1".to_string(), "token2".to_string()]);
    let mut iterator: TokenIterator<VecTokenStream> = TokenIterator::new(stream);

    assert_eq!(
        iterator.next(),
        Some(Token {
            token: "token1".to_string()
        })
    );
    assert_eq!(
        iterator.next(),
        Some(Token {
            token: "token2".to_string()
        })
    );
    assert_eq!(iterator.next(), None);
}

#[test]
fn test_token_iterator_equality() {
    let stream1: VecTokenStream =
        VecTokenStream::new(vec!["token1".to_string(), "token2".to_string()]);
    let stream2: VecTokenStream =
        VecTokenStream::new(vec!["token1".to_string(), "token2".to_string()]);

    let iter1: TokenIterator<VecTokenStream> = TokenIterator::new(stream1);
    let iter2: TokenIterator<VecTokenStream> = TokenIterator::new(stream2);

    assert!(iter1.not_equals(&iter2));
}

#[test]
fn test_stream_exhaustion_sticky() {
    let mut empty = EmptyTokenStream;
    assert_eq!(empty.next(), None);
    assert_eq!(empty.next(), None);

    let mut single = SingleTokenStream::new("once".to_string());
    assert!(single.next().is_some());
    assert_eq!(single.next(), None);
    assert_eq!(single.next(), None);

    let mut stream = VecTokenStream::new(vec!["a".to_string()]);
    assert!(stream.next().is_some());
    assert_eq!(stream.next(), None);
    assert_eq!(stream.next(), None);
}

#[test]
fn test_iterator_lookahead() {
    let stream = VecTokenStream::new(vec!["token1".to_string(), "token2".to_string()]);
    let mut iterator = TokenIterator::new(stream);

    assert_eq!(iterator.dereference().map(|t| t.token.as_str()), Some("token1"));
    iterator.increment();
    assert_eq!(iterator.dereference().map(|t| t.token.as_str()), Some("token2"));
    iterator.increment();
    assert!(iterator.dereference().is_none());
    iterator.increment();
    assert!(iterator.dereference().is_none());
}

#[test]
fn test_iterator_equals_itself() {
    let stream = VecTokenStream::new(vec!["token1".to_string()]);
    let iterator = TokenIterator::new(stream);
    assert!(iterator.equals(&iterator));
    assert!(!iterator.not_equals(&iterator));
}
