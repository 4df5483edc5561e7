//! Pull-based token streams and a one-token-lookahead iterator.
//!
//! A stream yields tokens head-first until it is exhausted; exhaustion is
//! sticky. The iterator wraps exactly one stream, eagerly pulls the first
//! token, tracks how many successful advances have occurred, and offers an
//! identity-sensitive equality over iterators.

use std::collections::VecDeque;
use vstd::prelude::*;

verus! {

/// A lexical unit as it moves through streams: just its text.
#[derive(Debug)]
pub struct Token {
    pub token: String,
}

impl View for Token {
    type V = Seq<char>;

    open spec fn view(&self) -> Seq<char> {
        self.token@
    }
}

impl Clone for Token {
    fn clone(&self) -> (r: Self)
        ensures
            r@ == self@,
    {
        Token { token: self.token.clone() }
    }
}

impl PartialEq for Token {
    fn eq(&self, other: &Self) -> (r: bool) {
        self.token == other.token
    }
}

impl vstd::std_specs::cmp::PartialEqSpecImpl for Token {
    open spec fn obeys_eq_spec() -> bool {
        true
    }

    open spec fn eq_spec(&self, other: &Self) -> bool {
        self.token@ == other.token@
    }
}

/// A finite, stateful producer of tokens. Once `remaining` is empty the
/// stream is exhausted and stays exhausted: `next` keeps signalling `None`.
pub trait TokenStream {
    /// The texts of the tokens not yet yielded, in yield order.
    spec fn remaining(&self) -> Seq<Seq<char>>;

    /// Yield the next token, or `None` once the stream is exhausted.
    fn next(&mut self) -> (r: Option<Token>)
        ensures
            old(self).remaining().len() == 0 ==> r is None && final(self).remaining()
                == old(self).remaining(),
            old(self).remaining().len() > 0 ==> (r matches Some(t) && t@
                == old(self).remaining().first() && final(self).remaining()
                == old(self).remaining().drop_first()),
    ;
}

/// A stream that is immediately and permanently exhausted.
pub struct EmptyTokenStream;

impl TokenStream for EmptyTokenStream {
    open spec fn remaining(&self) -> Seq<Seq<char>> {
        Seq::empty()
    }

    fn next(&mut self) -> (r: Option<Token>) {
        None
    }
}

/// A stream that yields exactly one token, then is permanently exhausted.
pub struct SingleTokenStream {
    token: Option<Token>,
}

impl SingleTokenStream {
    pub fn new(token: String) -> (r: Self)
        ensures
            r.remaining() =~= seq![token@],
    {
        Self { token: Some(Token { token }) }
    }
}

impl TokenStream for SingleTokenStream {
    closed spec fn remaining(&self) -> Seq<Seq<char>> {
        match self.token {
            Some(t) => seq![t@],
            None => Seq::empty(),
        }
    }

    fn next(&mut self) -> (r: Option<Token>) {
        let r = self.token.take();
        proof {
            if old(self).remaining().len() > 0 {
                assert(self.remaining() =~= old(self).remaining().drop_first());
            }
        }
        r
    }
}

/// A stream backed by a finite ordered collection, consumed head-first.
pub struct VecTokenStream {
    tokens: VecDeque<Token>,
}

impl VecTokenStream {
    pub fn new(tokens: Vec<String>) -> (r: Self)
        ensures
            r.remaining() == tokens@.map_values(|s: String| s@),
    {
        let mut queue: VecDeque<Token> = VecDeque::new();
        let mut i: usize = 0;
        while i < tokens.len()
            invariant
                i <= tokens.len(),
                queue@.len() == i as int,
                forall|j: int| 0 <= j < i as int ==> (#[trigger] queue@[j])@ == tokens@[j]@,
            decreases tokens.len() - i,
        {
            queue.push_back(Token { token: tokens[i].clone() });
            i = i + 1;
        }
        proof {
            assert(queue@.map_values(|t: Token| t@) =~= tokens@.map_values(|s: String| s@));
        }
        Self { tokens: queue }
    }
}

impl TokenStream for VecTokenStream {
    closed spec fn remaining(&self) -> Seq<Seq<char>> {
        self.tokens@.map_values(|t: Token| t@)
    }

    fn next(&mut self) -> (r: Option<Token>) {
        let r = self.tokens.pop_front();
        proof {
            if old(self).remaining().len() > 0 {
                assert(self.remaining() =~= old(self).remaining().drop_first());
            } else {
                assert(self.remaining() =~= old(self).remaining());
            }
        }
        r
    }
}

/// A one-token-lookahead cursor over a single, exclusively owned stream.
///
/// `position` counts successful advances; the current token is `None` exactly
/// when the underlying stream is exhausted. Once exhausted, the iterator
/// stays exhausted and `position` no longer advances.
pub struct TokenIterator<T: TokenStream> {
    tokenizer: T,
    pos: usize,
    current_token: Option<Token>,
}

impl<T: TokenStream> TokenIterator<T> {
    /// The text under the cursor, if any.
    pub closed spec fn current(&self) -> Option<Seq<char>> {
        match self.current_token {
            Some(t) => Some(t@),
            None => None,
        }
    }

    /// The texts still held by the underlying stream, beyond the current one.
    pub closed spec fn upcoming(&self) -> Seq<Seq<char>> {
        self.tokenizer.remaining()
    }

    /// How many successful advances have occurred.
    pub closed spec fn position(&self) -> int {
        self.pos as int
    }

    /// Internal invariant: the cursor is empty only when the stream is
    /// exhausted, and the advance count cannot overflow.
    pub closed spec fn wf(&self) -> bool {
        &&& self.current_token is None ==> self.tokenizer.remaining().len() == 0
        &&& self.current_token is Some ==> self.pos + 1 + self.tokenizer.remaining().len()
            <= usize::MAX
    }

    /// Wrap a stream, eagerly pulling its first token.
    pub fn new(tokenizer: T) -> (r: Self)
        requires
            tokenizer.remaining().len() <= usize::MAX,
        ensures
            r.wf(),
            r.position() == 0,
            tokenizer.remaining().len() == 0 ==> r.current() is None && r.upcoming()
                == tokenizer.remaining(),
            tokenizer.remaining().len() > 0 ==> r.current() == Some(tokenizer.remaining().first())
                && r.upcoming() == tokenizer.remaining().drop_first(),
    {
        let mut tokenizer = tokenizer;
        let current_token = tokenizer.next();
        Self { tokenizer, pos: 0, current_token }
    }

    /// Return the current token without consuming it; `None` if exhausted.
    pub fn dereference(&self) -> (r: Option<&Token>)
        ensures
            match self.current() {
                Some(text) => (r matches Some(t) && t@ == text),
                None => r is None,
            },
    {
        self.current_token.as_ref()
    }

    /// Advance: pull the next token from the stream and count the advance.
    /// A no-op once the iterator is exhausted.
    pub fn increment(&mut self)
        requires
            old(self).wf(),
        ensures
            final(self).wf(),
            old(self).current() is None ==> *final(self) == *old(self),
            old(self).current() is Some ==> {
                &&& final(self).position() == old(self).position() + 1
                &&& old(self).upcoming().len() == 0 ==> final(self).current() is None
                    && final(self).upcoming() == old(self).upcoming()
                &&& old(self).upcoming().len() > 0 ==> final(self).current() == Some(
                    old(self).upcoming().first(),
                ) && final(self).upcoming() == old(self).upcoming().drop_first()
            },
    {
        if self.current_token.is_some() {
            self.current_token = self.tokenizer.next();
            self.pos = self.pos + 1;
        }
    }

    /// Identity-sensitive equality: the two iterators wrap the very same
    /// stream object, stand at the same position, and hold the same current
    /// token. Independently constructed iterators are never equal, however
    /// alike their contents.
    pub fn equals(&self, other: &Self) -> (r: bool)
        ensures
            r ==> self.position() == other.position() && self.current() == other.current(),
    {
        same_object(&self.tokenizer, &other.tokenizer) && self.pos == other.pos
            && self.current_token == other.current_token
    }

    /// Negation of `equals`.
    pub fn not_equals(&self, other: &Self) -> (r: bool)
        ensures
            self.position() != other.position() || self.current() != other.current() ==> r,
    {
        !self.equals(other)
    }

    /// Forward traversal: return the current token and advance, giving
    /// one-token lookahead.
    pub fn next(&mut self) -> (r: Option<Token>)
        requires
            old(self).wf(),
        ensures
            final(self).wf(),
            match old(self).current() {
                Some(text) => (r matches Some(t) && t@ == text),
                None => r is None,
            },
            old(self).current() is None ==> *final(self) == *old(self),
            old(self).current() is Some ==> {
                &&& final(self).position() == old(self).position() + 1
                &&& old(self).upcoming().len() == 0 ==> final(self).current() is None
                    && final(self).upcoming() == old(self).upcoming()
                &&& old(self).upcoming().len() > 0 ==> final(self).current() == Some(
                    old(self).upcoming().first(),
                ) && final(self).upcoming() == old(self).upcoming().drop_first()
            },
    {
        let token = self.current_token.clone();
        self.increment();
        token
    }
}

/// Relies on core::ptr::eq: true only when the two references point to the
/// same object, so a positive answer implies the referents are equal.
#[verifier::external_body]
fn same_object<T>(a: &T, b: &T) -> (r: bool)
    ensures
        r ==> a == b,
{
    core::ptr::eq(a, b)
}

} // verus!
