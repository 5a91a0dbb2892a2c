//! The runtime that generated parsers are built on: a cursor over the input
//! text with whitespace skipping and literal / regular-expression prefix
//! tests, and the runtime error type. The same operations are also part of
//! the fixed scaffold text included in every generated parser.
use vstd::prelude::*;
use vstd::string::{StrSliceExecFns, StringExecFns};

verus! {

/// The Unicode `White_Space` characters, which leading-whitespace skipping
/// removes.
pub open spec fn is_space_char(c: char) -> bool {
    c == ' ' || c == '\t' || c == '\n' || c == '\r' || c == '\u{b}' || c == '\u{c}' || c
        == '\u{85}' || c == '\u{a0}' || c == '\u{1680}' || c == '\u{2000}' || c == '\u{2001}' || c
        == '\u{2002}' || c == '\u{2003}' || c == '\u{2004}' || c == '\u{2005}' || c == '\u{2006}'
        || c == '\u{2007}' || c == '\u{2008}' || c == '\u{2009}' || c == '\u{200a}' || c
        == '\u{2028}' || c == '\u{2029}' || c == '\u{202f}' || c == '\u{205f}' || c == '\u{3000}'
}

fn is_space(c: char) -> (r: bool)
    ensures
        r == is_space_char(c),
{
    c == ' ' || c == '\t' || c == '\n' || c == '\r' || c == '\u{b}' || c == '\u{c}' || c
        == '\u{85}' || c == '\u{a0}' || c == '\u{1680}' || c == '\u{2000}' || c == '\u{2001}' || c
        == '\u{2002}' || c == '\u{2003}' || c == '\u{2004}' || c == '\u{2005}' || c == '\u{2006}'
        || c == '\u{2007}' || c == '\u{2008}' || c == '\u{2009}' || c == '\u{200a}' || c
        == '\u{2028}' || c == '\u{2029}' || c == '\u{202f}' || c == '\u{205f}' || c == '\u{3000}'
}

/// Number of leading whitespace characters of `s`.
pub open spec fn ws_count(s: Seq<char>) -> nat
    decreases s.len(),
{
    if s.len() == 0 || !is_space_char(s[0]) {
        0
    } else {
        1 + ws_count(s.drop_first())
    }
}

/// `s` with its leading whitespace removed.
pub open spec fn spec_trim(s: Seq<char>) -> Seq<char> {
    s.skip(ws_count(s) as int)
}

proof fn lemma_ws_count_is(s: Seq<char>, i: int)
    requires
        0 <= i <= s.len(),
        forall|j: int| 0 <= j < i ==> is_space_char(s[j]),
        i == s.len() || !is_space_char(s[i]),
    ensures
        ws_count(s) == i,
    decreases i,
{
    if i == 0 {
    } else {
        assert(is_space_char(s[0]));
        lemma_ws_count_is(s.drop_first(), i - 1);
    }
}

/// What `regex::Regex::find` returns for the given pattern on the given
/// haystack: the byte offset and text of the leftmost match, or `None` when
/// there is no match or the pattern does not compile.
pub uninterp spec fn re_find_spec(pattern: Seq<char>, text: Seq<char>) -> Option<(nat, Seq<char>)>;

/// Whether the pattern matches a prefix of the text: its leftmost match
/// starts at offset zero.
pub open spec fn re_prefix_matches(pattern: Seq<char>, text: Seq<char>) -> bool {
    match re_find_spec(pattern, text) {
        Some(m) => m.0 == 0,
        None => false,
    }
}

/// Relies on regex's `Regex::new`, `Regex::find` and `Match`: `find` returns
/// the leftmost match, a pure function of pattern and haystack;
/// `Match::start` is its byte offset; `Match::as_str` is
/// `&text[start..end]`, so a match starting at byte offset zero is a prefix
/// of the haystack. A pattern that does not compile is reported as `None`.
#[verifier::external_body]
fn re_find<'a>(pattern: &str, text: &'a str) -> (r: Option<(usize, &'a str)>)
    ensures
        r is Some <==> re_find_spec(pattern@, text@) is Some,
        r is Some ==> (r->0).0 as nat == (re_find_spec(pattern@, text@)->0).0 && (r->0).1@ == (
        re_find_spec(pattern@, text@)->0).1,
        r is Some && (r->0).0 == 0 ==> (r->0).1@.is_prefix_of(text@),
{
    match regex::Regex::new(pattern) {
        Ok(re) => re.find(text).map(|m| (m.start(), m.as_str())),
        Err(_) => None,
    }
}

/// A cursor over the input text. The remaining input is the view.
pub struct ParserState<'input> {
    stream: &'input str,
}

impl<'input> View for ParserState<'input> {
    type V = Seq<char>;

    closed spec fn view(&self) -> Seq<char> {
        self.stream@
    }
}

fn starts_with_chars(s: &str, p: &str) -> (r: bool)
    ensures
        r == p@.is_prefix_of(s@),
{
    let np = p.unicode_len();
    let ns = s.unicode_len();
    if np > ns {
        return false;
    }
    let mut i: usize = 0;
    while i < np
        invariant
            i <= np,
            np == p@.len(),
            ns == s@.len(),
            np <= ns,
            forall|j: int| 0 <= j < i ==> s@[j] == p@[j],
        decreases np - i,
    {
        if s.get_char(i) != p.get_char(i) {
            assert(s@.subrange(0, np as int)[i as int] != p@[i as int]);
            return false;
        }
        i = i + 1;
    }
    assert(p@ =~= s@.subrange(0, np as int));
    true
}

impl<'input> ParserState<'input> {
    /// A cursor at the start of `stream`.
    pub fn new(stream: &'input str) -> (r: Self)
        ensures
            r@ == stream@,
    {
        ParserState { stream }
    }

    /// The input that has not been consumed yet.
    pub fn remainder(&self) -> (r: &'input str)
        ensures
            r@ == self@,
    {
        self.stream
    }

    /// Skips leading whitespace.
    pub fn push_spaces(&mut self)
        ensures
            final(self)@ == spec_trim(old(self)@),
    {
        let n = self.stream.unicode_len();
        let mut i: usize = 0;
        let mut go: bool = if i < n {
            is_space(self.stream.get_char(i))
        } else {
            false
        };
        while go
            invariant
                i <= n,
                n == self.stream@.len(),
                *self == *old(self),
                forall|j: int| 0 <= j < i ==> is_space_char(self.stream@[j]),
                go == (i < n && is_space_char(self.stream@[i as int])),
            decreases n - i,
        {
            i = i + 1;
            go = if i < n {
                is_space(self.stream.get_char(i))
            } else {
                false
            };
        }
        proof {
            lemma_ws_count_is(self.stream@, i as int);
        }
        self.stream = self.stream.substring_char(i, n);
        proof {
            assert(self.stream@ =~= spec_trim(old(self)@));
        }
    }

    /// Skips leading whitespace, then tests whether the input continues with
    /// the literal `prefix`.
    pub fn is_prefix(&mut self, prefix: &str) -> (r: bool)
        ensures
            final(self)@ == spec_trim(old(self)@),
            r == prefix@.is_prefix_of(spec_trim(old(self)@)),
    {
        self.push_spaces();
        starts_with_chars(self.stream, prefix)
    }

    /// Skips leading whitespace, then tests whether the pattern matches a
    /// prefix of the input.
    pub fn is_prefix_re(&mut self, pattern: &str) -> (r: bool)
        ensures
            final(self)@ == spec_trim(old(self)@),
            r == re_prefix_matches(pattern@, spec_trim(old(self)@)),
    {
        self.push_spaces();
        match re_find(pattern, self.stream) {
            Some((start, _)) => start == 0,
            None => false,
        }
    }

    /// Skips leading whitespace, then consumes the literal `prefix` if the
    /// input continues with it, returning the consumed text.
    pub fn expect(&mut self, prefix: &str) -> (r: Option<&'input str>)
        ensures
            ({
                let t = spec_trim(old(self)@);
                if prefix@.is_prefix_of(t) {
                    &&& r is Some
                    &&& r->0@ == prefix@
                    &&& final(self)@ == t.skip(prefix@.len() as int)
                } else {
                    &&& r is None
                    &&& final(self)@ == t
                }
            }),
    {
        self.push_spaces();
        if starts_with_chars(self.stream, prefix) {
            let k = prefix.unicode_len();
            let res = self.stream.substring_char(0, k);
            self.bump(k);
            proof {
                assert(res@ =~= prefix@);
            }
            Some(res)
        } else {
            None
        }
    }

    /// Skips leading whitespace, then consumes the prefix matched by the
    /// pattern, if it matches one, returning the consumed text.
    pub fn expect_re(&mut self, pattern: &str) -> (r: Option<&'input str>)
        ensures
            ({
                let t = spec_trim(old(self)@);
                if re_prefix_matches(pattern@, t) {
                    &&& r is Some
                    &&& r->0@ == (re_find_spec(pattern@, t)->0).1
                    &&& final(self)@ == t.skip(r->0@.len() as int)
                } else {
                    &&& r is None
                    &&& final(self)@ == t
                }
            }),
    {
        self.push_spaces();
        match re_find(pattern, self.stream) {
            Some((start, mtext)) => {
                if start == 0 {
                    let k = mtext.unicode_len();
                    self.bump(k);
                    Some(mtext)
                } else {
                    None
                }
            },
            None => None,
        }
    }

    /// Drops the first `count` characters of the remaining input.
    pub fn bump(&mut self, count: usize)
        requires
            count <= old(self)@.len(),
        ensures
            final(self)@ == old(self)@.skip(count as int),
    {
        let n = self.stream.unicode_len();
        self.stream = self.stream.substring_char(count, n);
        proof {
            assert(self.stream@ =~= old(self)@.skip(count as int));
        }
    }
}

/// The one runtime error kind of generated parsers.
#[derive(Debug, Clone)]
pub enum ParseError<T> {
    UnexpectedToken { actual: Option<T>, expected: T },
    NoRuleFound(&'static str),
}

/// The rendered text of an error.
pub open spec fn spec_message(e: &ParseError<String>) -> Seq<char> {
    match e {
        ParseError::UnexpectedToken { actual: Some(actual), expected } => "Unexpected token: Expect "@
            + expected@ + ", but found "@ + actual@,
        ParseError::UnexpectedToken { actual: None, expected } => "Unexpected token: Expect "@
            + expected@ + ", but found None"@,
        ParseError::NoRuleFound(state) => "while parsing "@ + state@ + ", found no rules"@,
    }
}

impl ParseError<String> {
    /// Renders the error for display.
    pub fn message(&self) -> (r: String)
        ensures
            r@ == spec_message(self),
    {
        match self {
            ParseError::UnexpectedToken { actual: Some(actual), expected } => {
                let mut s = String::from_str("Unexpected token: Expect ");
                s.append(expected.as_str());
                s.append(", but found ");
                s.append(actual.as_str());
                s
            },
            ParseError::UnexpectedToken { actual: None, expected } => {
                let mut s = String::from_str("Unexpected token: Expect ");
                s.append(expected.as_str());
                s.append(", but found None");
                s
            },
            ParseError::NoRuleFound(state) => {
                let mut s = String::from_str("while parsing ");
                s.append(state);
                s.append(", found no rules");
                s
            },
        }
    }
}

} // verus!
