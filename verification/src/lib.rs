//! Text tokenization pipeline: a lexer that classifies and normalizes lexical
//! units, composable token filters (stemming, stopword removal), pull-based
//! token streams, and a one-token-lookahead iterator over such streams.

pub mod document_loader;
pub mod token_filter;
pub mod token_stream;
pub mod tokenizer;
