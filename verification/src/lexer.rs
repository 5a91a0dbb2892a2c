//! Terminal declarations and the lexer-spec emitter: the token tag
//! enumeration, one recognizer and one checker procedure per terminal, and
//! the scanner that classifies the current lookahead.
#![verifier::loop_isolation(false)]
use vstd::prelude::*;
use vstd::string::StringExecFns;

use crate::text::{
    cat_map, dec_u64, fnv_hash, lemma_cat_map_take, push_escaped, spec_dec, spec_escape, spec_fnv,
};

verus! {

/// How a terminal is recognized: by a literal prefix or by a regular
/// expression anchored at the cursor.
#[derive(Debug, Clone, PartialEq)]
pub enum TokDesc {
    Token(String),
    Regex(String),
}

/// A terminal, identified by its label.
#[derive(Debug, Clone, PartialEq, Eq)]
pub struct Term(pub String);

/// The generated token-tag identifier for a label: a pure function of the
/// label's characters.
pub open spec fn spec_token_name(label: Seq<char>) -> Seq<char> {
    "Tok_"@ + spec_dec(spec_fnv(label) as int)
}

impl Term {
    /// A copy of this terminal.
    pub fn duplicate(&self) -> (r: Term)
        ensures
            r == *self,
    {
        Term(self.0.clone())
    }

    /// The identifier used for this terminal in emitted code. Deterministic:
    /// equal labels give equal identifiers, in every run.
    pub fn token_name(&self) -> (r: String)
        ensures
            r@ == spec_token_name(self.0@),
    {
        let hash = fnv_hash(self.0.as_str());
        let mut s = String::from_str("Tok_");
        let d = dec_u64(hash);
        s.append(d.as_str());
        s
    }

    /// The name of the emitted checker procedure for this terminal.
    pub fn check_fn(&self) -> (r: String)
        ensures
            r@ == "check_"@ + spec_token_name(self.0@),
    {
        let mut s = String::from_str("check_");
        let t = self.token_name();
        s.append(t.as_str());
        s
    }

    /// The name of the emitted recognizer procedure for this terminal.
    pub fn parse_fn(&self) -> (r: String)
        ensures
            r@ == "parse_"@ + spec_token_name(self.0@),
    {
        let mut s = String::from_str("parse_");
        let t = self.token_name();
        s.append(t.as_str());
        s
    }

    /// The name of the emitted regex singleton for this terminal.
    pub fn re_name(&self) -> (r: String)
        ensures
            r@ == "RE_"@ + spec_token_name(self.0@),
    {
        let mut s = String::from_str("RE_");
        let t = self.token_name();
        s.append(t.as_str());
        s
    }
}

/// The terminal declarations of a grammar, in declaration order. Declaration
/// order is the disambiguation order of the emitted scanner.
#[derive(Debug, Clone)]
pub struct Tokens {
    pub mapping: Vec<(Term, TokDesc)>,
}

impl Tokens {
    /// The declared terminals, in declaration order.
    pub fn terms(&self) -> (r: Vec<Term>)
        ensures
            r@.len() == self.mapping@.len(),
            forall|i: int| 0 <= i < r@.len() ==> r@[i] == self.mapping@[i].0,
    {
        let mut r: Vec<Term> = Vec::new();
        let mut i: usize = 0;
        while i < self.mapping.len()
            invariant
                i <= self.mapping@.len(),
                r@.len() == i,
                forall|j: int| 0 <= j < i ==> r@[j] == self.mapping@[j].0,
            decreases self.mapping.len() - i,
        {
            let t = self.mapping[i].0.duplicate();
            r.push(t);
            i = i + 1;
        }
        r
    }
}

} // verus!

verus! {

/// One variant line of the emitted token enumeration.
pub open spec fn variant_line(t: Term) -> Seq<char> {
    "    "@ + spec_token_name(t.0@) + ",\n"@
}

/// One arm of the emitted display mapping, from tag back to the label.
pub open spec fn display_arm(t: Term) -> Seq<char> {
    "            Token::"@ + spec_token_name(t.0@) + " => write!(f, \""@ + spec_escape(t.0@)
        + "\"),\n"@
}

/// The emitted token tag enumeration with its display mapping.
pub open spec fn spec_token_definition(mapping: Seq<(Term, TokDesc)>) -> Seq<char> {
    "#[derive(Debug)]\npub enum Token {\n"@ + cat_map(mapping, |p: (Term, TokDesc)| variant_line(p.0))
        + "}\n\nimpl fmt::Display for Token {\n    fn fmt(&self, f: &mut fmt::Formatter<'_>) -> fmt::Result {\n        match self {\n"@
        + cat_map(mapping, |p: (Term, TokDesc)| display_arm(p.0))
        + "        }\n    }\n}\n"@
}

/// The emitted lazily-initialized regex singleton for a regex terminal.
pub open spec fn re_decl(p: (Term, TokDesc)) -> Seq<char> {
    match p.1 {
        TokDesc::Regex(re) => "    static ref RE_"@ + spec_token_name(p.0.0@)
            + ": Regex = Regex::new(\""@ + spec_escape(re@) + "\").unwrap();\n"@,
        TokDesc::Token(_) => Seq::empty(),
    }
}

/// The consuming expression of a terminal's recognizer.
pub open spec fn parse_body(p: (Term, TokDesc)) -> Seq<char> {
    match p.1 {
        TokDesc::Token(lit) => "parser.expect(\""@ + spec_escape(lit@) + "\")"@,
        TokDesc::Regex(_) => "parser.expect_re(&RE_"@ + spec_token_name(p.0.0@) + ")"@,
    }
}

/// The non-consuming expression of a terminal's checker.
pub open spec fn check_body(p: (Term, TokDesc)) -> Seq<char> {
    match p.1 {
        TokDesc::Token(lit) => "parser.is_prefix(\""@ + spec_escape(lit@) + "\")"@,
        TokDesc::Regex(_) => "parser.is_prefix_re(&RE_"@ + spec_token_name(p.0.0@) + ")"@,
    }
}

/// The emitted recognizer and checker procedures of one terminal.
pub open spec fn tok_fns(p: (Term, TokDesc)) -> Seq<char> {
    "fn parse_"@ + spec_token_name(p.0.0@)
        + "<'a>(parser: &mut ParserState<'a>) -> Result<&'a str, ParseError<Token>> {\n    if let Some(res) = "@
        + parse_body(p)
        + " {\n        Ok(res)\n    } else {\n        Err(ParseError::UnexpectedToken { actual: parser.token(), expected: Token::"@
        + spec_token_name(p.0.0@) + " })\n    }\n}\n\nfn check_"@ + spec_token_name(p.0.0@)
        + "(parser: &mut ParserState) -> bool {\n    "@ + check_body(p) + "\n}\n\n"@
}

/// The emitted regex singletons and per-terminal procedures.
pub open spec fn spec_token_parsers(mapping: Seq<(Term, TokDesc)>) -> Seq<char> {
    "lazy_static! {\n"@ + cat_map(mapping, |p: (Term, TokDesc)| re_decl(p)) + "}\n\n"@ + cat_map(
        mapping,
        |p: (Term, TokDesc)| tok_fns(p),
    )
}

/// One test of the emitted scanner, in declaration order.
pub open spec fn scan_arm(p: (Term, TokDesc)) -> Seq<char> {
    "        if check_"@ + spec_token_name(p.0.0@) + "(self) {\n            return Some(Token::"@
        + spec_token_name(p.0.0@) + ")\n        }\n"@
}

/// The emitted scanner: it classifies the lookahead as the first terminal
/// whose checker matches, or end of input.
pub open spec fn spec_token_method(mapping: Seq<(Term, TokDesc)>) -> Seq<char> {
    "impl ParserState<'_> {\n    fn token(&mut self) -> Option<Token> {\n"@ + cat_map(
        mapping,
        |p: (Term, TokDesc)| scan_arm(p),
    ) + "        None\n    }\n}\n"@
}

/// Everything the lexer-spec emitter produces.
pub open spec fn spec_tokens_generate(mapping: Seq<(Term, TokDesc)>) -> Seq<char> {
    spec_token_definition(mapping) + "\n"@ + spec_token_parsers(mapping) + "\n"@
        + spec_token_method(mapping)
}

impl Tokens {
    fn token_definition(&self, out: &mut String)
        ensures
            final(out)@ == old(out)@ + spec_token_definition(self.mapping@),
    {
        let ghost fv = |p: (Term, TokDesc)| variant_line(p.0);
        let ghost fa = |p: (Term, TokDesc)| display_arm(p.0);
        out.append("#[derive(Debug)]\npub enum Token {\n");
        let mut i: usize = 0;
        while i < self.mapping.len()
            invariant
                i <= self.mapping@.len(),
                out@ == old(out)@ + "#[derive(Debug)]\npub enum Token {\n"@ + cat_map(
                    self.mapping@.take(i as int),
                    fv,
                ),
            decreases self.mapping@.len() - i,
        {
            out.append("    ");
            let t = self.mapping[i].0.token_name();
            out.append(t.as_str());
            out.append(",\n");
            proof {
                lemma_cat_map_take(self.mapping@, fv, i as int);
                assert(out@ =~= old(out)@ + "#[derive(Debug)]\npub enum Token {\n"@ + cat_map(
                    self.mapping@.take(i + 1),
                    fv,
                ));
            }
            i = i + 1;
        }
        out.append(
            "}\n\nimpl fmt::Display for Token {\n    fn fmt(&self, f: &mut fmt::Formatter<'_>) -> fmt::Result {\n        match self {\n",
        );
        let ghost base = out@;
        let mut i: usize = 0;
        while i < self.mapping.len()
            invariant
                i <= self.mapping@.len(),
                out@ == base + cat_map(self.mapping@.take(i as int), fa),
            decreases self.mapping@.len() - i,
        {
            out.append("            Token::");
            let t = self.mapping[i].0.token_name();
            out.append(t.as_str());
            out.append(" => write!(f, \"");
            push_escaped(out, self.mapping[i].0 .0.as_str());
            out.append("\"),\n");
            proof {
                lemma_cat_map_take(self.mapping@, fa, i as int);
                assert(out@ =~= base + cat_map(self.mapping@.take(i + 1), fa));
            }
            i = i + 1;
        }
        out.append("        }\n    }\n}\n");
        proof {
            assert(self.mapping@.take(self.mapping@.len() as int) =~= self.mapping@);
            assert(final(out)@ =~= old(out)@ + spec_token_definition(self.mapping@));
        }
    }

    fn token_parsers(&self, out: &mut String)
        ensures
            final(out)@ == old(out)@ + spec_token_parsers(self.mapping@),
    {
        let ghost fr = |p: (Term, TokDesc)| re_decl(p);
        let ghost ff = |p: (Term, TokDesc)| tok_fns(p);
        out.append("lazy_static! {\n");
        let mut i: usize = 0;
        while i < self.mapping.len()
            invariant
                i <= self.mapping@.len(),
                out@ == old(out)@ + "lazy_static! {\n"@ + cat_map(self.mapping@.take(i as int), fr),
            decreases self.mapping@.len() - i,
        {
            push_re_decl(out, &self.mapping[i]);
            proof {
                lemma_cat_map_take(self.mapping@, fr, i as int);
                assert(out@ =~= old(out)@ + "lazy_static! {\n"@ + cat_map(
                    self.mapping@.take(i + 1),
                    fr,
                ));
            }
            i = i + 1;
        }
        out.append("}\n\n");
        let ghost base = out@;
        let mut i: usize = 0;
        while i < self.mapping.len()
            invariant
                i <= self.mapping@.len(),
                out@ == base + cat_map(self.mapping@.take(i as int), ff),
            decreases self.mapping@.len() - i,
        {
            push_tok_fns(out, &self.mapping[i]);
            proof {
                lemma_cat_map_take(self.mapping@, ff, i as int);
                assert(out@ =~= base + cat_map(self.mapping@.take(i + 1), ff));
            }
            i = i + 1;
        }
        proof {
            assert(self.mapping@.take(self.mapping@.len() as int) =~= self.mapping@);
            assert(final(out)@ =~= old(out)@ + spec_token_parsers(self.mapping@));
        }
    }

    fn token_method(&self, out: &mut String)
        ensures
            final(out)@ == old(out)@ + spec_token_method(self.mapping@),
    {
        let ghost fs = |p: (Term, TokDesc)| scan_arm(p);
        out.append("impl ParserState<'_> {\n    fn token(&mut self) -> Option<Token> {\n");
        let ghost base = out@;
        let mut i: usize = 0;
        while i < self.mapping.len()
            invariant
                i <= self.mapping@.len(),
                out@ == base + cat_map(self.mapping@.take(i as int), fs),
            decreases self.mapping@.len() - i,
        {
            let t = self.mapping[i].0.token_name();
            out.append("        if check_");
            out.append(t.as_str());
            out.append("(self) {\n            return Some(Token::");
            out.append(t.as_str());
            out.append(")\n        }\n");
            proof {
                lemma_cat_map_take(self.mapping@, fs, i as int);
                assert(out@ =~= base + cat_map(self.mapping@.take(i + 1), fs));
            }
            i = i + 1;
        }
        out.append("        None\n    }\n}\n");
        proof {
            assert(self.mapping@.take(self.mapping@.len() as int) =~= self.mapping@);
            assert(final(out)@ =~= old(out)@ + spec_token_method(self.mapping@));
        }
    }

    /// Emits the token tag enumeration, the per-terminal recognizers and
    /// checkers, and the scanner.
    pub fn generate(&self) -> (r: String)
        ensures
            r@ == spec_tokens_generate(self.mapping@),
    {
        let mut out = String::new();
        self.token_definition(&mut out);
        out.append("\n");
        self.token_parsers(&mut out);
        out.append("\n");
        self.token_method(&mut out);
        proof {
            assert(out@ =~= spec_tokens_generate(self.mapping@));
        }
        out
    }
}

} // verus!

verus! {

fn push_re_decl(out: &mut String, p: &(Term, TokDesc))
    ensures
        final(out)@ == old(out)@ + re_decl(*p),
{
    match &p.1 {
        TokDesc::Regex(re) => {
            out.append("    static ref RE_");
            let t = p.0.token_name();
            out.append(t.as_str());
            out.append(": Regex = Regex::new(\"");
            push_escaped(out, re.as_str());
            out.append("\").unwrap();\n");
            proof {
                assert(out@ =~= old(out)@ + re_decl(*p));
            }
        },
        TokDesc::Token(_) => {
            proof {
                assert(out@ =~= old(out)@ + re_decl(*p));
            }
        },
    }
}

#[verifier::rlimit(60)]
fn push_tok_fns(out: &mut String, p: &(Term, TokDesc))
    ensures
        final(out)@ == old(out)@ + tok_fns(*p),
{
    let t = p.0.token_name();
    out.append("fn parse_");
    out.append(t.as_str());
    out.append("<'a>(parser: &mut ParserState<'a>) -> Result<&'a str, ParseError<Token>> {\n    if let Some(res) = ");
    match &p.1 {
        TokDesc::Token(lit) => {
            out.append("parser.expect(\"");
            push_escaped(out, lit.as_str());
            out.append("\")");
        },
        TokDesc::Regex(_) => {
            out.append("parser.expect_re(&RE_");
            out.append(t.as_str());
            out.append(")");
        },
    }
    proof {
        assert(out@ =~= old(out)@ + "fn parse_"@ + spec_token_name(p.0 .0@)
            + "<'a>(parser: &mut ParserState<'a>) -> Result<&'a str, ParseError<Token>> {\n    if let Some(res) = "@
            + parse_body(*p));
    }
    let ghost mid1 = out@;
    out.append(" {\n        Ok(res)\n    } else {\n        Err(ParseError::UnexpectedToken { actual: parser.token(), expected: Token::");
    out.append(t.as_str());
    out.append(" })\n    }\n}\n\nfn check_");
    out.append(t.as_str());
    out.append("(parser: &mut ParserState) -> bool {\n    ");
    let ghost mid2 = out@;
    match &p.1 {
        TokDesc::Token(lit) => {
            out.append("parser.is_prefix(\"");
            push_escaped(out, lit.as_str());
            out.append("\")");
        },
        TokDesc::Regex(_) => {
            out.append("parser.is_prefix_re(&RE_");
            out.append(t.as_str());
            out.append(")");
        },
    }
    proof {
        assert(out@ =~= mid2 + check_body(*p));
    }
    out.append("\n}\n\n");
    proof {
        assert(out@ =~= old(out)@ + tok_fns(*p));
    }
}

} // verus!
