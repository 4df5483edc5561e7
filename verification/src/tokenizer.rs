//! Lexer/classifier: scans raw text for candidate lexical units, classifies
//! each candidate, normalizes its text, and drops invalid candidates.
//!
//! Scanning and classification work over the case-folded (lowercased) form of
//! the input: the text is folded once, before scanning, and normalized output
//! keeps that folded case. A candidate is either a run of word characters
//! optionally followed by an apostrophe and another such run, or two or more
//! groups of letters each closed by a period; at each starting position the
//! longer of the two readings wins. The scanning and classification rules are
//! built into the lexer itself, so there is no pattern-compilation fault to
//! report: every input resolves to a (possibly empty) token sequence.

use vstd::prelude::*;

verus! {

/// The lexical class of a candidate substring.
#[derive(Clone, Copy, Debug, PartialEq, Eq, Structural)]
pub enum TokenType {
    Abbreviation,
    Possessive,
    Term,
    Invalid,
}

/// A classified, normalized lexical unit.
#[derive(Debug)]
pub struct Token {
    pub token: String,
    pub token_type: TokenType,
}

/// Spec-level image of a token: its normalized text and its class.
pub struct TokenSpec {
    pub token: Seq<char>,
    pub token_type: TokenType,
}

impl View for Token {
    type V = TokenSpec;

    open spec fn view(&self) -> TokenSpec {
        TokenSpec { token: self.token@, token_type: self.token_type }
    }
}

impl PartialEq for Token {
    fn eq(&self, other: &Self) -> (r: bool) {
        self.token == other.token && self.token_type == other.token_type
    }
}

impl vstd::std_specs::cmp::PartialEqSpecImpl for Token {
    open spec fn obeys_eq_spec() -> bool {
        true
    }

    open spec fn eq_spec(&self, other: &Self) -> bool {
        self.token@ == other.token@ && self.token_type == other.token_type
    }
}

/// An ASCII letter, either case.
pub open spec fn is_ascii_letter(c: char) -> bool {
    (97 <= c as u32 && c as u32 <= 122) || (65 <= c as u32 && c as u32 <= 90)
}

/// An ASCII decimal digit.
pub open spec fn is_ascii_digit(c: char) -> bool {
    48 <= c as u32 && c as u32 <= 57
}

/// An ASCII letter or digit.
pub open spec fn is_alphanumeric_char(c: char) -> bool {
    is_ascii_letter(c) || is_ascii_digit(c)
}

/// A word character: letter, digit or underscore.
pub open spec fn is_word_char(c: char) -> bool {
    is_alphanumeric_char(c) || c == '_'
}

/// An uppercase ASCII letter.
pub open spec fn is_ascii_uppercase(c: char) -> bool {
    65 <= c as u32 && c as u32 <= 90
}

/// `s` holds no uppercase ASCII letter: it is fully case-folded.
pub open spec fn fully_folded(s: Seq<char>) -> bool {
    forall|i: int| 0 <= i < s.len() ==> !is_ascii_uppercase(#[trigger] s[i])
}

/// Number of periods in `s` at or after position `i`.
pub open spec fn dots_from(s: Seq<char>, i: int) -> nat
    decreases s.len() - i,
{
    if i < 0 || i >= s.len() {
        0
    } else if s[i] == '.' {
        1 + dots_from(s, i + 1)
    } else {
        dots_from(s, i + 1)
    }
}

/// Two or more groups of one-or-more letters each closed by a period, and
/// nothing else (for example `r.d.c.`).
pub open spec fn is_abbreviation(s: Seq<char>) -> bool {
    &&& s.len() >= 2
    &&& forall|i: int| 0 <= i < s.len() ==> is_ascii_letter(#[trigger] s[i]) || s[i] == '.'
    &&& is_ascii_letter(s[0])
    &&& s[s.len() - 1] == '.'
    &&& forall|i: int|
        0 <= i < s.len() - 1 && (#[trigger] s[i]) == '.' ==> is_ascii_letter(s[i + 1])
    &&& dots_from(s, 0) >= 2
}

/// `s` splits at position `k` into a nonempty alphanumeric run, an
/// apostrophe, and a nonempty letter run.
pub open spec fn possessive_split_at(s: Seq<char>, k: int) -> bool {
    &&& 1 <= k <= s.len() - 2
    &&& s[k] == '\''
    &&& forall|i: int| 0 <= i < k ==> is_alphanumeric_char(#[trigger] s[i])
    &&& forall|i: int| k < i < s.len() ==> is_ascii_letter(#[trigger] s[i])
}

/// One-or-more alphanumerics, an apostrophe, one-or-more letters
/// (for example `john's`).
pub open spec fn is_possessive(s: Seq<char>) -> bool {
    exists|k: int| possessive_split_at(s, k)
}

/// One-or-more alphanumerics only (for example `cat`).
pub open spec fn is_term(s: Seq<char>) -> bool {
    s.len() >= 1 && forall|i: int| 0 <= i < s.len() ==> is_alphanumeric_char(#[trigger] s[i])
}

/// First-match-wins classification of a candidate substring.
pub open spec fn classify(s: Seq<char>) -> TokenType {
    if is_abbreviation(s) {
        TokenType::Abbreviation
    } else if is_possessive(s) {
        TokenType::Possessive
    } else if is_term(s) {
        TokenType::Term
    } else {
        TokenType::Invalid
    }
}

/// `s` from position `i` on, with every period removed.
pub open spec fn strip_dots_from(s: Seq<char>, i: int) -> Seq<char>
    decreases s.len() - i,
{
    if i < 0 || i >= s.len() {
        Seq::empty()
    } else if s[i] == '.' {
        strip_dots_from(s, i + 1)
    } else {
        seq![s[i]] + strip_dots_from(s, i + 1)
    }
}

/// `s` with every period removed.
pub open spec fn strip_dots(s: Seq<char>) -> Seq<char> {
    strip_dots_from(s, 0)
}

/// Position of the first apostrophe at or after `i`, or `s.len()` if none.
pub open spec fn apos_index_from(s: Seq<char>, i: int) -> int
    decreases s.len() - i,
{
    if i < 0 || i >= s.len() {
        s.len() as int
    } else if s[i] == '\'' {
        i
    } else {
        apos_index_from(s, i + 1)
    }
}

/// The portion of `s` before its first apostrophe; all of `s` if none.
pub open spec fn before_apostrophe(s: Seq<char>) -> Seq<char> {
    s.take(apos_index_from(s, 0))
}

/// Per-class normalization: abbreviations lose their periods, possessives
/// keep only the portion before the first apostrophe, the rest is unchanged.
pub open spec fn transform(s: Seq<char>, token_type: TokenType) -> Seq<char> {
    match token_type {
        TokenType::Abbreviation => strip_dots(s),
        TokenType::Possessive => before_apostrophe(s),
        _ => s,
    }
}

/// End of the run of word characters starting at `i`.
pub open spec fn word_run_end(s: Seq<char>, i: int) -> int
    decreases s.len() - i,
{
    if 0 <= i < s.len() && is_word_char(s[i]) {
        word_run_end(s, i + 1)
    } else {
        i
    }
}

/// End of the run of ASCII letters starting at `i`.
pub open spec fn letter_run_end(s: Seq<char>, i: int) -> int
    decreases s.len() - i,
{
    if 0 <= i < s.len() && is_ascii_letter(s[i]) {
        letter_run_end(s, i + 1)
    } else {
        i
    }
}

proof fn lemma_word_run_end_bounds(s: Seq<char>, i: int)
    requires
        0 <= i <= s.len(),
    ensures
        i <= word_run_end(s, i) <= s.len(),
    decreases s.len() - i,
{
    if i < s.len() && is_word_char(s[i]) {
        lemma_word_run_end_bounds(s, i + 1);
    }
}

proof fn lemma_letter_run_end_bounds(s: Seq<char>, i: int)
    requires
        0 <= i <= s.len(),
    ensures
        i <= letter_run_end(s, i) <= s.len(),
    decreases s.len() - i,
{
    if i < s.len() && is_ascii_letter(s[i]) {
        lemma_letter_run_end_bounds(s, i + 1);
    }
}

/// Greedy parse of letter-period groups from `i`: the position after the
/// last complete group, and how many groups were consumed.
pub open spec fn abbrev_scan(s: Seq<char>, i: int) -> (int, nat)
    decreases s.len() - i when 0 <= i <= s.len() via abbrev_scan_dec
{
    let m = letter_run_end(s, i);
    if m > i && m < s.len() && s[m] == '.' {
        let r = abbrev_scan(s, m + 1);
        (r.0, r.1 + 1)
    } else {
        (i, 0)
    }
}

#[via_fn]
proof fn abbrev_scan_dec(s: Seq<char>, i: int) {
    lemma_letter_run_end_bounds(s, i);
}

proof fn lemma_abbrev_scan_bounds(s: Seq<char>, i: int)
    requires
        0 <= i <= s.len(),
    ensures
        i <= abbrev_scan(s, i).0 <= s.len(),
    decreases s.len() - i,
{
    lemma_letter_run_end_bounds(s, i);
    let m = letter_run_end(s, i);
    if m > i && m < s.len() && s[m] == '.' {
        lemma_abbrev_scan_bounds(s, m + 1);
    }
}

/// End of the word-apostrophe-word reading of a candidate starting at `i`.
pub open spec fn candidate_word_end(s: Seq<char>, i: int) -> int {
    let k = word_run_end(s, i);
    if k < s.len() && s[k] == '\'' && k + 1 < s.len() && is_word_char(s[k + 1]) {
        word_run_end(s, k + 1)
    } else {
        k
    }
}

/// End of the maximal candidate starting at `i`: the longer of the
/// word-apostrophe-word reading and the letter-period-groups reading
/// (the latter only when it has at least two groups).
pub open spec fn token_end(s: Seq<char>, i: int) -> int {
    let wa = candidate_word_end(s, i);
    let ab = abbrev_scan(s, i);
    if ab.1 >= 2 && ab.0 > wa {
        ab.0
    } else {
        wa
    }
}

proof fn lemma_token_end_bounds(s: Seq<char>, i: int)
    requires
        0 <= i < s.len(),
        is_word_char(s[i]),
    ensures
        i < token_end(s, i) <= s.len(),
{
    lemma_word_run_end_bounds(s, i + 1);
    let k = word_run_end(s, i);
    assert(k == word_run_end(s, i + 1));
    if k < s.len() && s[k] == '\'' && k + 1 < s.len() && is_word_char(s[k + 1]) {
        lemma_word_run_end_bounds(s, k + 2);
        assert(word_run_end(s, k + 1) == word_run_end(s, k + 2));
    }
    lemma_abbrev_scan_bounds(s, i);
}

/// The classified, normalized tokens of `s` from position `i` on: candidates
/// are extracted left to right, non-overlapping, each classified over its
/// pre-normalization form, normalized, and dropped when Invalid.
pub open spec fn scan_from(s: Seq<char>, i: int) -> Seq<TokenSpec>
    decreases s.len() - i when 0 <= i <= s.len() via scan_from_dec
{
    if i >= s.len() {
        Seq::empty()
    } else if !is_word_char(s[i]) {
        scan_from(s, i + 1)
    } else {
        let e = token_end(s, i);
        let cand = s.subrange(i, e);
        let t = classify(cand);
        if t is Invalid {
            scan_from(s, e)
        } else {
            seq![TokenSpec { token: transform(cand, t), token_type: t }] + scan_from(s, e)
        }
    }
}

#[via_fn]
proof fn scan_from_dec(s: Seq<char>, i: int) {
    if i < s.len() && is_word_char(s[i]) {
        lemma_token_end_bounds(s, i);
    }
}

/// The token sequence the lexer owes for the case-folded text `s`.
pub open spec fn tokens_of(s: Seq<char>) -> Seq<TokenSpec> {
    scan_from(s, 0)
}

/// What `str::to_lowercase` returns for a text: a function of the
/// characters alone.
pub uninterp spec fn lower_of(s: Seq<char>) -> Seq<char>;

/// Relies on str::to_lowercase: the lowercased text depends on the input
/// characters alone, and per the Unicode case mappings it holds no
/// uppercase ASCII letter.
#[verifier::external_body]
fn lowercase(s: &str) -> (r: String)
    ensures
        r@ == lower_of(s@),
        fully_folded(r@),
{
    s.to_lowercase()
}

fn ascii_letter(c: char) -> (b: bool)
    ensures
        b == is_ascii_letter(c),
{
    let u = c as u32;
    (97 <= u && u <= 122) || (65 <= u && u <= 90)
}

fn alphanumeric_char(c: char) -> (b: bool)
    ensures
        b == is_alphanumeric_char(c),
{
    let u = c as u32;
    (97 <= u && u <= 122) || (65 <= u && u <= 90) || (48 <= u && u <= 57)
}

fn word_char(c: char) -> (b: bool)
    ensures
        b == is_word_char(c),
{
    alphanumeric_char(c) || c == '_'
}

fn to_chars(s: &str) -> (v: Vec<char>)
    ensures
        v@ == s@,
{
    let n = s.unicode_len();
    let mut v: Vec<char> = Vec::new();
    let mut i: usize = 0;
    while i < n
        invariant
            i <= n,
            n == s@.len(),
            v@ == s@.take(i as int),
        decreases n - i,
    {
        v.push(s.get_char(i));
        i = i + 1;
        proof {
            assert(v@ =~= s@.take(i as int));
        }
    }
    proof {
        assert(v@ =~= s@);
    }
    v
}

fn check_abbreviation(v: &Vec<char>) -> (b: bool)
    ensures
        b == is_abbreviation(v@),
{
    let ghost s = v@;
    let n = v.len();
    if n < 2 {
        return false;
    }
    if !ascii_letter(v[0]) {
        return false;
    }
    if !(v[n - 1] == '.') {
        return false;
    }
    let mut i: usize = 0;
    let mut dots: usize = 0;
    while i < n
        invariant
            i <= n,
            n == s.len(),
            v@ == s,
            forall|j: int| 0 <= j < i as int ==> is_ascii_letter(#[trigger] s[j]) || s[j] == '.',
            forall|j: int|
                0 <= j < i as int && (#[trigger] s[j]) == '.' && j + 1 < s.len()
                    ==> is_ascii_letter(s[j + 1]),
            dots_from(s, 0) == dots + dots_from(s, i as int),
            dots <= i,
        decreases n - i,
    {
        let c = v[i];
        if !ascii_letter(c) && !(c == '.') {
            return false;
        }
        if c == '.' {
            if i + 1 < n && !ascii_letter(v[i + 1]) {
                return false;
            }
            dots = dots + 1;
        }
        i = i + 1;
    }
    dots >= 2
}

fn check_possessive(v: &Vec<char>) -> (b: bool)
    ensures
        b == is_possessive(v@),
{
    let ghost s = v@;
    let n = v.len();
    let mut k: usize = 0;
    while k < n && alphanumeric_char(v[k])
        invariant
            k <= n,
            n == s.len(),
            v@ == s,
            forall|j: int| 0 <= j < k as int ==> is_alphanumeric_char(#[trigger] s[j]),
        decreases n - k,
    {
        k = k + 1;
    }
    // k is the first position that is not alphanumeric (or n).
    if k < 1 || k >= n || !(v[k] == '\'') || k + 1 >= n {
        proof {
            if is_possessive(s) {
                let k0 = choose|k0: int| possessive_split_at(s, k0);
                assert(!is_alphanumeric_char(s[k0]));
                assert(k0 == k as int);
                assert(false);
            }
        }
        return false;
    }
    let mut j: usize = k + 1;
    while j < n && ascii_letter(v[j])
        invariant
            k < j && j <= n,
            n == s.len(),
            v@ == s,
            forall|i: int| (k as int) < i && i < (j as int) ==> is_ascii_letter(#[trigger] s[i]),
        decreases n - j,
    {
        j = j + 1;
    }
    if j < n {
        proof {
            if is_possessive(s) {
                let k0 = choose|k0: int| possessive_split_at(s, k0);
                assert(!is_alphanumeric_char(s[k0]));
                assert(k0 == k as int);
                assert(is_ascii_letter(s[j as int]));
                assert(false);
            }
        }
        false
    } else {
        proof {
            assert(possessive_split_at(s, k as int));
        }
        true
    }
}

fn check_term(v: &Vec<char>) -> (b: bool)
    ensures
        b == is_term(v@),
{
    let ghost s = v@;
    let n = v.len();
    if n == 0 {
        return false;
    }
    let mut i: usize = 0;
    while i < n
        invariant
            i <= n,
            n == s.len(),
            v@ == s,
            forall|j: int| 0 <= j < i as int ==> is_alphanumeric_char(#[trigger] s[j]),
        decreases n - i,
    {
        if !alphanumeric_char(v[i]) {
            return false;
        }
        i = i + 1;
    }
    true
}

/// Classify a candidate substring, first match wins: Abbreviation, then
/// Possessive, then Term, else Invalid.
pub fn classify_token(token: &str) -> (t: TokenType)
    ensures
        t == classify(token@),
{
    let chars = to_chars(token);
    if check_abbreviation(&chars) {
        TokenType::Abbreviation
    } else if check_possessive(&chars) {
        TokenType::Possessive
    } else if check_term(&chars) {
        TokenType::Term
    } else {
        TokenType::Invalid
    }
}

/// Normalize a candidate according to its class: abbreviations lose every
/// period, possessives keep only the portion before the first apostrophe,
/// terms and invalid candidates pass through unchanged.
pub fn transform_token(token: &str, token_type: &TokenType) -> (r: String)
    ensures
        r@ == transform(token@, *token_type),
{
    let ghost s = token@;
    match token_type {
        TokenType::Abbreviation => {
            let n = token.unicode_len();
            let mut out = String::new();
            let mut i: usize = 0;
            while i < n
                invariant
                    i <= n,
                    n == s.len(),
                    token@ == s,
                    out@ + strip_dots_from(s, i as int) == strip_dots(s),
                decreases n - i,
            {
                let c = token.get_char(i);
                if !(c == '.') {
                    let piece = token.substring_char(i, i + 1);
                    proof {
                        assert(piece@ =~= seq![s[i as int]]);
                    }
                    out.append(piece);
                    proof {
                        assert(out@ + strip_dots_from(s, i as int + 1) =~= strip_dots(s));
                    }
                }
                i = i + 1;
            }
            proof {
                assert(out@ =~= strip_dots(s));
            }
            out
        },
        TokenType::Possessive => {
            let n = token.unicode_len();
            let mut k: usize = 0;
            while k < n && !(token.get_char(k) == '\'')
                invariant
                    k <= n,
                    n == s.len(),
                    token@ == s,
                    apos_index_from(s, 0) == apos_index_from(s, k as int),
                decreases n - k,
            {
                k = k + 1;
            }
            proof {
                assert(apos_index_from(s, 0) == k as int);
            }
            let prefix = token.substring_char(0, k);
            prefix.to_owned()
        },
        _ => token.to_owned(),
    }
}

fn word_run_end_exec(v: &Vec<char>, i: usize) -> (e: usize)
    requires
        i <= v@.len(),
    ensures
        e as int == word_run_end(v@, i as int),
        i <= e <= v@.len(),
{
    let mut j = i;
    while j < v.len() && word_char(v[j])
        invariant
            i <= j <= v@.len(),
            word_run_end(v@, i as int) == word_run_end(v@, j as int),
        decreases v@.len() - j,
    {
        j = j + 1;
    }
    j
}

fn letter_run_end_exec(v: &Vec<char>, i: usize) -> (e: usize)
    requires
        i <= v@.len(),
    ensures
        e as int == letter_run_end(v@, i as int),
        i <= e <= v@.len(),
{
    let mut j = i;
    while j < v.len() && ascii_letter(v[j])
        invariant
            i <= j <= v@.len(),
            letter_run_end(v@, i as int) == letter_run_end(v@, j as int),
        decreases v@.len() - j,
    {
        j = j + 1;
    }
    j
}

fn abbrev_scan_exec(v: &Vec<char>, i: usize) -> (r: (usize, usize))
    requires
        i <= v@.len(),
    ensures
        r.0 as int == abbrev_scan(v@, i as int).0,
        r.1 as nat == abbrev_scan(v@, i as int).1,
        i <= r.0 <= v@.len(),
{
    let ghost s = v@;
    let mut j = i;
    let mut cnt: usize = 0;
    loop
        invariant
            i <= j <= s.len(),
            v@ == s,
            2 * cnt <= j - i,
            abbrev_scan(s, i as int).0 == abbrev_scan(s, j as int).0,
            abbrev_scan(s, i as int).1 == abbrev_scan(s, j as int).1 + cnt,
        ensures
            abbrev_scan(s, j as int) == (j as int, 0nat),
        decreases s.len() - j,
    {
        let m = letter_run_end_exec(v, j);
        if m > j && m < v.len() && v[m] == '.' {
            cnt = cnt + 1;
            j = m + 1;
        } else {
            break ;
        }
    }
    (j, cnt)
}

fn token_end_exec(v: &Vec<char>, i: usize) -> (e: usize)
    requires
        i < v@.len(),
        is_word_char(v@[i as int]),
    ensures
        e as int == token_end(v@, i as int),
        i < e <= v@.len(),
{
    proof {
        lemma_token_end_bounds(v@, i as int);
    }
    let k = word_run_end_exec(v, i);
    let wa = if k < v.len() && v[k] == '\'' && k + 1 < v.len() && word_char(v[k + 1]) {
        word_run_end_exec(v, k + 1)
    } else {
        k
    };
    let ab = abbrev_scan_exec(v, i);
    if ab.1 >= 2 && ab.0 > wa {
        ab.0
    } else {
        wa
    }
}

/// Lex a raw text: case-fold it, extract maximal candidates left to right,
/// classify each over its pre-normalization (folded) form, normalize, and
/// drop Invalid candidates.
pub fn tokenizer(text: &str) -> (r: Vec<Token>)
    ensures
        r@.map_values(|t: Token| t@) == tokens_of(lower_of(text@)),
        forall|j: int| 0 <= j < r@.len() ==> fully_folded((#[trigger] r@[j])@.token),
{
    let lowered = lowercase(text);
    let chars = to_chars(lowered.as_str());
    let ghost s = lowered@;
    let n = chars.len();
    let mut out: Vec<Token> = Vec::new();
    let mut i: usize = 0;
    while i < n
        invariant
            i <= n,
            n == s.len(),
            chars@ == s,
            lowered@ == s,
            s == lower_of(text@),
            out@.map_values(|t: Token| t@) + scan_from(s, i as int) == tokens_of(s),
        decreases n - i,
    {
        let ghost i0 = i as int;
        if !word_char(chars[i]) {
            i = i + 1;
        } else {
            let e = token_end_exec(&chars, i);
            let cand = lowered.as_str().substring_char(i, e);
            proof {
                assert(cand@ == s.subrange(i0, e as int));
            }
            let t = classify_token(cand);
            if !(t == TokenType::Invalid) {
                let normalized = transform_token(cand, &t);
                let ghost before = out@.map_values(|t: Token| t@);
                out.push(Token { token: normalized, token_type: t });
                proof {
                    let f = |t: Token| t@;
                    assert(out@.map_values(f) =~= before.push(
                        TokenSpec { token: transform(cand@, t), token_type: t },
                    ));
                    assert(before.push(TokenSpec { token: transform(cand@, t), token_type: t })
                        + scan_from(s, e as int) =~= before + (seq![
                        TokenSpec { token: transform(cand@, t), token_type: t },
                    ] + scan_from(s, e as int)));
                }
            }
            i = e;
        }
    }
    proof {
        assert(out@.map_values(|t: Token| t@) + scan_from(s, n as int) =~= out@.map_values(
            |t: Token| t@,
        ));
        lemma_tokens_case_folded(s);
        assert forall|j: int| 0 <= j < out@.len() implies fully_folded(
            (#[trigger] out@[j])@.token,
        ) by {
            assert(out@.map_values(|t: Token| t@)[j] == out@[j]@);
            assert(out@.map_values(|t: Token| t@)[j] == tokens_of(s)[j]);
        }
    }
    out
}

/// The four classes partition all candidate substrings: the three positive
/// rules are mutually exclusive, and `classify` picks a class if and only if
/// the corresponding rule (or, for Invalid, none of them) holds.
pub proof fn lemma_classification_partition(s: Seq<char>)
    ensures
        is_abbreviation(s) ==> !is_possessive(s) && !is_term(s),
        is_possessive(s) ==> !is_abbreviation(s) && !is_term(s),
        is_term(s) ==> !is_abbreviation(s) && !is_possessive(s),
        classify(s) == TokenType::Abbreviation <==> is_abbreviation(s),
        classify(s) == TokenType::Possessive <==> is_possessive(s),
        classify(s) == TokenType::Term <==> is_term(s),
        classify(s) == TokenType::Invalid <==> !is_abbreviation(s) && !is_possessive(s)
            && !is_term(s),
{
    if is_abbreviation(s) && is_possessive(s) {
        let k = choose|k: int| possessive_split_at(s, k);
        assert(is_ascii_letter(s[k]) || s[k] == '.');
        assert(false);
    }
    if is_abbreviation(s) && is_term(s) {
        assert(is_alphanumeric_char(s[s.len() - 1]));
        assert(false);
    }
    if is_possessive(s) && is_term(s) {
        let k = choose|k: int| possessive_split_at(s, k);
        assert(is_alphanumeric_char(s[k]));
        assert(false);
    }
}

proof fn lemma_apos_index_bounds(s: Seq<char>, i: int)
    requires
        0 <= i <= s.len(),
    ensures
        i <= apos_index_from(s, i) <= s.len(),
    decreases s.len() - i,
{
    if i < s.len() && s[i] != '\'' {
        lemma_apos_index_bounds(s, i + 1);
    }
}

proof fn lemma_strip_dots_folded(s: Seq<char>, i: int)
    requires
        0 <= i <= s.len(),
        fully_folded(s),
    ensures
        fully_folded(strip_dots_from(s, i)),
    decreases s.len() - i,
{
    if i < s.len() {
        lemma_strip_dots_folded(s, i + 1);
        if s[i] != '.' {
            let rest = strip_dots_from(s, i + 1);
            assert forall|k: int| 0 <= k < strip_dots_from(s, i).len() implies !is_ascii_uppercase(
                (#[trigger] strip_dots_from(s, i)[k]),
            ) by {
                if k == 0 {
                    assert(strip_dots_from(s, i)[k] == s[i]);
                } else {
                    assert(strip_dots_from(s, i)[k] == rest[k - 1]);
                }
            }
        }
    }
}

proof fn lemma_transform_folded(s: Seq<char>, t: TokenType)
    requires
        fully_folded(s),
    ensures
        fully_folded(transform(s, t)),
{
    match t {
        TokenType::Abbreviation => {
            lemma_strip_dots_folded(s, 0);
        },
        TokenType::Possessive => {
            lemma_apos_index_bounds(s, 0);
            let k = apos_index_from(s, 0);
            assert forall|j: int| 0 <= j < s.take(k).len() implies !is_ascii_uppercase(
                (#[trigger] s.take(k)[j]),
            ) by {
                assert(s.take(k)[j] == s[j]);
            }
        },
        _ => {},
    }
}

proof fn lemma_scan_from_folded(s: Seq<char>, i: int)
    requires
        0 <= i <= s.len(),
        fully_folded(s),
    ensures
        forall|j: int|
            0 <= j < scan_from(s, i).len() ==> fully_folded((#[trigger] scan_from(s, i)[j]).token),
    decreases s.len() - i,
{
    if i >= s.len() {
    } else if !is_word_char(s[i]) {
        lemma_scan_from_folded(s, i + 1);
    } else {
        lemma_token_end_bounds(s, i);
        let e = token_end(s, i);
        lemma_scan_from_folded(s, e);
        let cand = s.subrange(i, e);
        assert forall|k: int| 0 <= k < cand.len() implies !is_ascii_uppercase(
            (#[trigger] cand[k]),
        ) by {
            assert(cand[k] == s[i + k]);
        }
        let t = classify(cand);
        if !(t is Invalid) {
            lemma_transform_folded(cand, t);
            let head = seq![TokenSpec { token: transform(cand, t), token_type: t }];
            assert forall|j: int| 0 <= j < scan_from(s, i).len() implies fully_folded(
                (#[trigger] scan_from(s, i)[j]).token,
            ) by {
                if j == 0 {
                    assert(scan_from(s, i)[0] == head[0]);
                } else {
                    assert(scan_from(s, i)[j] == scan_from(s, e)[j - 1]);
                }
            }
        }
    }
}

/// For a fully case-folded text, every token the lexer owes carries fully
/// case-folded text itself: normalization introduces no uppercase letter.
pub proof fn lemma_tokens_case_folded(s: Seq<char>)
    requires
        fully_folded(s),
    ensures
        forall|j: int|
            0 <= j < tokens_of(s).len() ==> fully_folded((#[trigger] tokens_of(s)[j]).token),
{
    lemma_scan_from_folded(s, 0);
}

proof fn lemma_scan_from_no_invalid(s: Seq<char>, i: int)
    requires
        0 <= i <= s.len(),
    ensures
        forall|j: int|
            0 <= j < scan_from(s, i).len() ==> (#[trigger] scan_from(s, i)[j]).token_type
                != TokenType::Invalid,
    decreases s.len() - i,
{
    if i >= s.len() {
    } else if !is_word_char(s[i]) {
        lemma_scan_from_no_invalid(s, i + 1);
    } else {
        lemma_token_end_bounds(s, i);
        let e = token_end(s, i);
        lemma_scan_from_no_invalid(s, e);
        let cand = s.subrange(i, e);
        let t = classify(cand);
        if !(t is Invalid) {
            let head = seq![TokenSpec { token: transform(cand, t), token_type: t }];
            assert forall|j: int| 0 <= j < scan_from(s, i).len() implies (#[trigger] scan_from(
                s,
                i,
            )[j]).token_type != TokenType::Invalid by {
                if j == 0 {
                    assert(scan_from(s, i)[0] == head[0]);
                } else {
                    assert(scan_from(s, i)[j] == scan_from(s, e)[j - 1]);
                }
            }
        }
    }
}

/// A candidate matching none of the three positive rules never appears in
/// the lexer's output: every token the lexer owes is non-Invalid.
pub proof fn lemma_invalid_dropped(s: Seq<char>)
    ensures
        forall|j: int|
            0 <= j < tokens_of(s).len() ==> (#[trigger] tokens_of(s)[j]).token_type
                != TokenType::Invalid,
{
    lemma_scan_from_no_invalid(s, 0);
}

} // verus!
