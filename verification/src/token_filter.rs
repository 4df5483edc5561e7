//! Token filters: capabilities that map one token's text to zero or more
//! output tokens. Two implementations ship: a stemming reducer and a
//! stopword remover. Filters are total: they always succeed, possibly with
//! an empty output list, and hold only read-only configuration fixed at
//! construction.

use crate::tokenizer::{Token, TokenSpec, TokenType};
use vstd::prelude::*;

verus! {

/// A pure mapping from one token's text to an ordered list of tokens.
/// An implementation may drop the token (empty list), pass it through, or
/// rewrite it; the list-returning contract also permits several outputs.
pub trait TokenFilter {
    /// The output owed for a given input text.
    spec fn filter_spec(&self, input: Seq<char>) -> Seq<TokenSpec>;

    /// Apply the filter to one token's text.
    fn filter(&self, input: String) -> (r: Vec<Token>)
        ensures
            r@.map_values(|t: Token| t@) == self.filter_spec(input@),
    ;
}

/// What the fixed English Snowball stemmer returns for a word: a function
/// of the input text alone.
pub uninterp spec fn stem_of(s: Seq<char>) -> Seq<char>;

/// Relies on rust_stemmers::Stemmer::create with the English algorithm and
/// rust_stemmers::Stemmer::stem: the algorithm choice is fixed here, so the
/// stemmed form depends on the input text alone.
#[verifier::external_body]
fn stem_english(input: &str) -> (r: String)
    ensures
        r@ == stem_of(input@),
{
    let stemmer = rust_stemmers::Stemmer::create(rust_stemmers::Algorithm::English);
    stemmer.stem(input).into_owned()
}

/// Reduces every input to its English stem and returns it as exactly one
/// Term-typed token; never drops an input. The language is fixed at
/// construction.
pub struct StemmerTokenFilter;

impl StemmerTokenFilter {
    pub fn new() -> (r: Self) {
        StemmerTokenFilter
    }
}

impl TokenFilter for StemmerTokenFilter {
    open spec fn filter_spec(&self, input: Seq<char>) -> Seq<TokenSpec> {
        seq![TokenSpec { token: stem_of(input), token_type: TokenType::Term }]
    }

    fn filter(&self, input: String) -> (r: Vec<Token>) {
        let stemmed = stem_english(input.as_str());
        let mut out: Vec<Token> = Vec::new();
        out.push(Token { token: stemmed, token_type: TokenType::Term });
        proof {
            assert(out@.map_values(|t: Token| t@) =~= self.filter_spec(input@));
        }
        out
    }
}

/// The stopword list the stop-words crate ships for a language code: a
/// fixed table, a function of the code alone.
pub uninterp spec fn stop_list_of(lang: Seq<char>) -> Seq<Seq<char>>;

/// Relies on stop_words::get for the language code "en", which is present
/// under the crate's default feature set, so the call cannot panic. The
/// returned list is a fixed table, a function of the code alone; its data
/// contains "the" and lacks "term". The body converts the borrowed words
/// into owned strings one for one.
#[verifier::external_body]
fn english_stop_words() -> (r: Vec<String>)
    ensures
        r@.map_values(|w: String| w@) == stop_list_of("en"@),
        r@.map_values(|w: String| w@).contains("the"@),
        !r@.map_values(|w: String| w@).contains("term"@),
{
    stop_words::get(stop_words::Language::English).iter().map(|w| w.to_string()).collect()
}

/// Drops inputs that are exact (case-sensitive) members of the precomputed
/// English stopword list; every other input passes through as exactly one
/// Term-typed token with its text unchanged.
pub struct StopWordRemover {
    stopwords: Vec<String>,
}

impl StopWordRemover {
    /// The texts this remover drops.
    pub closed spec fn stop_set(&self) -> Seq<Seq<char>> {
        self.stopwords@.map_values(|w: String| w@)
    }

    /// Build the remover over the English stopword list: afterwards it
    /// drops exactly the members of that list, "the" among them, while
    /// "term" passes through.
    pub fn new() -> (r: Self)
        ensures
            r.stop_set() == stop_list_of("en"@),
            r.stop_set().contains("the"@),
            !r.stop_set().contains("term"@),
    {
        StopWordRemover { stopwords: english_stop_words() }
    }
}

impl TokenFilter for StopWordRemover {
    open spec fn filter_spec(&self, input: Seq<char>) -> Seq<TokenSpec> {
        if self.stop_set().contains(input) {
            Seq::empty()
        } else {
            seq![TokenSpec { token: input, token_type: TokenType::Term }]
        }
    }

    fn filter(&self, input: String) -> (r: Vec<Token>) {
        let ghost inp = input@;
        let n = self.stopwords.len();
        let mut i: usize = 0;
        while i < n
            invariant
                i <= n,
                n == self.stopwords@.len(),
                inp == input@,
                forall|j: int| 0 <= j < i as int ==> (#[trigger] self.stopwords@[j])@ != inp,
            decreases n - i,
        {
            if self.stopwords[i].eq(&input) {
                let out: Vec<Token> = Vec::new();
                proof {
                    assert(self.stop_set()[i as int] == inp);
                    assert(self.stop_set().contains(inp));
                    assert(out@.map_values(|t: Token| t@) =~= self.filter_spec(inp));
                }
                return out;
            }
            i = i + 1;
        }
        proof {
            if self.stop_set().contains(inp) {
                let j = choose|j: int|
                    0 <= j < self.stop_set().len() && self.stop_set()[j] == inp;
                assert(self.stopwords@[j]@ == inp);
                assert(false);
            }
        }
        let mut out: Vec<Token> = Vec::new();
        out.push(Token { token: input, token_type: TokenType::Term });
        proof {
            assert(out@.map_values(|t: Token| t@) =~= self.filter_spec(inp));
        }
        out
    }
}

} // verus!
