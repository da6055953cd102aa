//! The search query language: whitespace-separated terms, double quotes
//! grouping words into one term, and `path:` terms that match full paths.
use vstd::prelude::*;

use crate::text::{chars_of, lowercase, string_from_chars, to_lowercase, unicode_whitespace};
use crate::text::{is_whitespace, string_from_chars_after};

verus! {

/// Options that change how ordinary terms are applied.
#[derive(Debug, Clone, Copy, Default, PartialEq, Eq)]
pub struct SearchOptions {
    /// Apply ordinary terms to full paths instead of names only.
    pub match_path: bool,
}

/// A parsed query: lower-cased name terms, lower-cased `path:` fragments,
/// and whether name terms apply to full paths.
#[derive(Debug, Clone, PartialEq, Eq)]
pub struct SearchQuery {
    pub name_terms: Vec<String>,
    pub path_terms: Vec<String>,
    pub match_path: bool,
}

/// The mathematical content of a `SearchQuery`.
pub struct SearchQueryView {
    pub name_terms: Seq<Seq<char>>,
    pub path_terms: Seq<Seq<char>>,
    pub match_path: bool,
}

pub open spec fn strings_view(v: Seq<String>) -> Seq<Seq<char>> {
    v.map_values(|s: String| s@)
}

impl View for SearchQuery {
    type V = SearchQueryView;

    open spec fn view(&self) -> SearchQueryView {
        SearchQueryView {
            name_terms: strings_view(self.name_terms@),
            path_terms: strings_view(self.path_terms@),
            match_path: self.match_path,
        }
    }
}

/// Why a query was rejected.
#[derive(Debug, Clone, Copy, PartialEq, Eq, Structural)]
pub enum QueryError {
    /// A double quote was opened and never closed.
    UnterminatedQuote,
    /// A `path:` term has nothing after the colon.
    EmptyPathTerm,
}

impl QueryError {
    /// A sentence describing the error.
    pub fn message(self) -> (text: &'static str)
        ensures
            text@ == query_error_text(self),
    {
        match self {
            QueryError::UnterminatedQuote => "unterminated quoted search term",
            QueryError::EmptyPathTerm => "path: requires a path fragment",
        }
    }
}

pub open spec fn query_error_text(e: QueryError) -> Seq<char> {
    match e {
        QueryError::UnterminatedQuote => "unterminated quoted search term"@,
        QueryError::EmptyPathTerm => "path: requires a path fragment"@,
    }
}

/// A term holds a wildcard when it contains `*` or `?`.
pub open spec fn has_wildcard_chars(term: Seq<char>) -> bool {
    term.contains('*') || term.contains('?')
}

/// Whether a term holds a `*` or `?` wildcard.
pub fn has_wildcards(term: &str) -> (r: bool)
    ensures
        r == has_wildcard_chars(term@),
{
    let chars = chars_of(term);
    let mut i: usize = 0;
    while i < chars.len()
        invariant
            i <= chars.len(),
            chars@ == term@,
            forall|k: int| 0 <= k < i ==> chars@[k] != '*' && chars@[k] != '?',
        decreases chars.len() - i,
    {
        if chars[i] == '*' || chars[i] == '?' {
            assert(chars@[i as int] == '*' ==> term@.contains('*'));
            assert(chars@[i as int] == '?' ==> term@.contains('?'));
            return true;
        }
        i = i + 1;
    }
    proof {
        true_if_none(term@);
    }
    false
}

proof fn true_if_none(term: Seq<char>)
    requires
        forall|k: int| 0 <= k < term.len() ==> term[k] != '*' && term[k] != '?',
    ensures
        !has_wildcard_chars(term),
{
}

// ---------------------------------------------------------------------------
// Tokenizing.
// ---------------------------------------------------------------------------

/// The tokenizer's state after reading part of the input: finished tokens,
/// the token being read, and whether a quote is open.
pub struct TokenState {
    pub tokens: Seq<Seq<char>>,
    pub current: Seq<char>,
    pub quoted: bool,
}

/// Reading one character: a quote toggles quoting; unquoted whitespace ends
/// the current token (if any); anything else extends it.
pub open spec fn token_step(st: TokenState, c: char) -> TokenState {
    if c == '"' {
        TokenState { quoted: !st.quoted, ..st }
    } else if unicode_whitespace(c) && !st.quoted {
        if st.current.len() > 0 {
            TokenState { tokens: st.tokens.push(st.current), current: Seq::empty(), ..st }
        } else {
            st
        }
    } else {
        TokenState { current: st.current.push(c), ..st }
    }
}

pub open spec fn scan_tokens(input: Seq<char>) -> TokenState
    decreases input.len(),
{
    if input.len() == 0 {
        TokenState { tokens: Seq::empty(), current: Seq::empty(), quoted: false }
    } else {
        token_step(scan_tokens(input.drop_last()), input.last())
    }
}

/// The tokens of an input, or `None` when a quote is left open.
pub open spec fn tokens_of(input: Seq<char>) -> Option<Seq<Seq<char>>> {
    let st = scan_tokens(input);
    if st.quoted {
        None
    } else if st.current.len() > 0 {
        Some(st.tokens.push(st.current))
    } else {
        Some(st.tokens)
    }
}

/// Splits a query into its terms.
pub fn tokenize(input: &str) -> (result: Result<Vec<String>, QueryError>)
    ensures
        match tokens_of(input@) {
            Some(tokens) => result matches Ok(v) && strings_view(v@) == tokens,
            None => result == Err::<Vec<String>, QueryError>(QueryError::UnterminatedQuote),
        },
{
    let chars = chars_of(input);
    let mut tokens: Vec<String> = Vec::new();
    let mut current: Vec<char> = Vec::new();
    let mut quoted = false;
    let mut i: usize = 0;
    while i < chars.len()
        invariant
            i <= chars.len(),
            chars@ == input@,
            ({
                let st = scan_tokens(input@.take(i as int));
                &&& strings_view(tokens@) == st.tokens
                &&& current@ == st.current
                &&& quoted == st.quoted
            }),
        decreases chars.len() - i,
    {
        let c = chars[i];
        assert(input@.take(i + 1).drop_last() =~= input@.take(i as int));
        let ghost before = tokens@;
        if c == '"' {
            quoted = !quoted;
        } else if is_whitespace(c) && !quoted {
            if current.len() > 0 {
                tokens.push(string_from_chars(current.as_slice()));
                current = Vec::new();
                assert(strings_view(tokens@) =~= strings_view(before).push(
                    scan_tokens(input@.take(i as int)).current,
                ));
            }
        } else {
            current.push(c);
        }
        i = i + 1;
    }
    assert(input@.take(chars.len() as int) =~= input@);
    if quoted {
        return Err(QueryError::UnterminatedQuote);
    }
    if current.len() > 0 {
        let ghost before = tokens@;
        tokens.push(string_from_chars(current.as_slice()));
        assert(strings_view(tokens@) =~= strings_view(before).push(current@));
    }
    Ok(tokens)
}

// ---------------------------------------------------------------------------
// Classifying terms.
// ---------------------------------------------------------------------------

pub open spec fn path_marker() -> Seq<char> {
    seq!['p', 'a', 't', 'h', ':']
}

/// A token is a `path:` term when it starts with `path:`.
pub open spec fn is_path_token(token: Seq<char>) -> bool {
    token.len() >= 5 && token.take(5) == path_marker()
}

/// The lower-cased name terms among `tokens`, in order.
pub open spec fn name_terms_of(tokens: Seq<Seq<char>>) -> Seq<Seq<char>>
    decreases tokens.len(),
{
    if tokens.len() == 0 {
        Seq::empty()
    } else if is_path_token(tokens.last()) {
        name_terms_of(tokens.drop_last())
    } else {
        name_terms_of(tokens.drop_last()).push(lowercase(tokens.last()))
    }
}

/// The lower-cased fragments of the `path:` terms among `tokens`, in order.
pub open spec fn path_terms_of(tokens: Seq<Seq<char>>) -> Seq<Seq<char>>
    decreases tokens.len(),
{
    if tokens.len() == 0 {
        Seq::empty()
    } else if is_path_token(tokens.last()) {
        path_terms_of(tokens.drop_last()).push(lowercase(tokens.last().skip(5)))
    } else {
        path_terms_of(tokens.drop_last())
    }
}

/// The token starts with the five characters `path:`.
pub open spec fn starts_with_path_colon(t: Seq<char>) -> bool {
    t.len() >= 5 && t[0] == 'p' && t[1] == 'a' && t[2] == 't' && t[3] == 'h' && t[4] == ':'
}

/// Picks the tokens that start with `path:`.
pub open spec fn path_tokens() -> spec_fn(Seq<char>) -> bool {
    |t: Seq<char>| starts_with_path_colon(t)
}

/// Picks the other tokens.
pub open spec fn other_tokens() -> spec_fn(Seq<char>) -> bool {
    |t: Seq<char>| !starts_with_path_colon(t)
}

/// A `path:` token's fragment, lower-cased.
pub open spec fn fragment_lowered() -> spec_fn(Seq<char>) -> Seq<char> {
    |t: Seq<char>| lowercase(t.skip(5))
}

/// A token lower-cased.
pub open spec fn token_lowered() -> spec_fn(Seq<char>) -> Seq<char> {
    |t: Seq<char>| lowercase(t)
}

/// Every token is a term: the tokens that start with `path:` give the path
/// terms, in order, each lower-cased without its `path:`; the other tokens
/// give the name terms, in order, lower-cased. So there are as many path
/// terms as `path:` tokens, and the k-th comes from the k-th such token.
pub proof fn lemma_terms_follow_tokens(tokens: Seq<Seq<char>>)
    ensures
        path_terms_of(tokens) == tokens.filter(path_tokens()).map_values(fragment_lowered()),
        name_terms_of(tokens) == tokens.filter(other_tokens()).map_values(token_lowered()),
    decreases tokens.len(),
{
    if tokens.len() > 0 {
        let rest = tokens.drop_last();
        let t = tokens.last();
        lemma_terms_follow_tokens(rest);
        assert(is_path_token(t) == starts_with_path_colon(t)) by {
            if t.len() >= 5 {
                if starts_with_path_colon(t) {
                    assert(t.take(5) =~= path_marker());
                }
                if t.take(5) == path_marker() {
                    assert(t.take(5)[0] == t[0] && t.take(5)[1] == t[1] && t.take(5)[2] == t[2]
                        && t.take(5)[3] == t[3] && t.take(5)[4] == t[4]);
                }
            }
        }
        reveal(Seq::filter);
        assert(tokens.filter(path_tokens()) == if starts_with_path_colon(t) {
            rest.filter(path_tokens()).push(t)
        } else {
            rest.filter(path_tokens())
        });
        assert(tokens.filter(other_tokens()) == if starts_with_path_colon(t) {
            rest.filter(other_tokens())
        } else {
            rest.filter(other_tokens()).push(t)
        });
        assert(rest.filter(path_tokens()).push(t).map_values(fragment_lowered()) =~= rest.filter(
            path_tokens(),
        ).map_values(fragment_lowered()).push(lowercase(t.skip(5))));
        assert(rest.filter(other_tokens()).push(t).map_values(token_lowered()) =~= rest.filter(
            other_tokens(),
        ).map_values(token_lowered()).push(lowercase(t)));
    } else {
        reveal(Seq::filter);
        assert(tokens.filter(path_tokens()).map_values(fragment_lowered()) =~= Seq::<Seq<char>>::empty());
        assert(tokens.filter(other_tokens()).map_values(token_lowered()) =~= Seq::<Seq<char>>::empty());
    }
}

/// A successful parse keeps every term of the input: its path terms are
/// the `path:` tokens of the input in order, each lower-cased without its
/// `path:`, and its name terms the other tokens in order, lower-cased.
pub proof fn lemma_parse_keeps_every_term(input: Seq<char>, options: SearchOptions)
    ensures
        parse_spec(input, options) matches Ok(q) ==> {
            &&& q.path_terms == tokens_of(input)->0.filter(path_tokens()).map_values(fragment_lowered())
            &&& q.name_terms == tokens_of(input)->0.filter(other_tokens()).map_values(token_lowered())
            &&& q.match_path == options.match_path
        },
{
    if tokens_of(input) is Some {
        lemma_terms_follow_tokens(tokens_of(input)->0);
    }
}

/// The parse of an input: rejected when a quote is left open or a `path:`
/// term is empty, otherwise its name and path terms.
pub open spec fn parse_spec(input: Seq<char>, options: SearchOptions) -> Result<
    SearchQueryView,
    QueryError,
> {
    match tokens_of(input) {
        None => Err(QueryError::UnterminatedQuote),
        Some(tokens) => if exists|i: int| 0 <= i < tokens.len() && tokens[i] == path_marker() {
            Err(QueryError::EmptyPathTerm)
        } else {
            Ok(
                SearchQueryView {
                    name_terms: name_terms_of(tokens),
                    path_terms: path_terms_of(tokens),
                    match_path: options.match_path,
                },
            )
        },
    }
}

fn is_path_term(token: &Vec<char>) -> (r: bool)
    ensures
        r == is_path_token(token@),
{
    if token.len() < 5 {
        return false;
    }
    let r = token[0] == 'p' && token[1] == 'a' && token[2] == 't' && token[3] == 'h' && token[4]
        == ':';
    assert(r == (token@.take(5) =~= path_marker()));
    r
}

/// Splits a query into lower-cased name terms and `path:` fragments.
pub fn parse(input: &str, options: SearchOptions) -> (result: Result<SearchQuery, QueryError>)
    ensures
        match parse_spec(input@, options) {
            Ok(q) => result matches Ok(r) && r@ == q,
            Err(e) => result == Err::<SearchQuery, QueryError>(e),
        },
{
    let tokens = match tokenize(input) {
        Ok(tokens) => tokens,
        Err(e) => return Err(e),
    };
    let ghost toks = strings_view(tokens@);
    let mut name_terms: Vec<String> = Vec::new();
    let mut path_terms: Vec<String> = Vec::new();
    let mut i: usize = 0;
    while i < tokens.len()
        invariant
            i <= tokens.len(),
            toks == strings_view(tokens@),
            tokens_of(input@) == Some(toks),
            forall|k: int| 0 <= k < i ==> toks[k] != path_marker(),
            strings_view(name_terms@) == name_terms_of(toks.take(i as int)),
            strings_view(path_terms@) == path_terms_of(toks.take(i as int)),
        decreases tokens.len() - i,
    {
        let token = chars_of(tokens[i].as_str());
        assert(toks.take(i + 1).drop_last() =~= toks.take(i as int));
        assert(toks.take(i + 1).last() == token@);
        if is_path_term(&token) {
            if token.len() == 5 {
                assert(token@ =~= path_marker());
                return Err(QueryError::EmptyPathTerm);
            }
            let rest = string_from_chars_after(token.as_slice(), 5);
            let lowered = to_lowercase(rest.as_str());
            let ghost before = path_terms@;
            path_terms.push(lowered);
            assert(strings_view(path_terms@) =~= strings_view(before).push(lowercase(token@.skip(5))));
        } else {
            let lowered = to_lowercase(tokens[i].as_str());
            let ghost before = name_terms@;
            name_terms.push(lowered);
            assert(strings_view(name_terms@) =~= strings_view(before).push(lowercase(token@)));
        }
        assert(toks[i as int] == token@);
        assert(token@ != path_marker()) by {
            if token@ == path_marker() {
                assert(path_marker().take(5) =~= path_marker());
            }
        }
        i = i + 1;
    }
    assert(toks.take(tokens.len() as int) =~= toks);
    Ok(SearchQuery { name_terms, path_terms, match_path: options.match_path })
}

} // verus!
