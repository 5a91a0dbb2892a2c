//! The parser emitter and output assembly: one predictive procedure per
//! nonterminal, dispatching on the scanner's classification of the
//! lookahead; the whole output wrapped with the fixed runtime scaffold and
//! the author's preamble.
#![verifier::loop_isolation(false)]
use vstd::prelude::*;
use vstd::string::StringExecFns;

use crate::analysis::{
    find_name, find_term, is_first_for, is_follow_for, lemma_first_unique, lemma_follow_unique,
    spec_first, FirstMap, FollowMap, SymSet,
};
use crate::ast::{Grammar, Language, Node, NonTerm, NonTermDef, Rule};
use crate::lexer::{spec_token_name, spec_tokens_generate, Term, TokDesc};
use crate::text::{cat_map, lemma_cat_map_take, push_joined, spec_join};

verus! {

/// The errors of code emission. An LL(1) conflict is reported separately,
/// by the conflict check.
#[derive(Debug, Clone, PartialEq)]
pub enum GenError {
    FragmentSyntax(String),
    UnknownSymbol(String),
    DuplicateDefinition(String),
}

/// Whether a fragment of author-supplied text lexes into target-language
/// token trees: what `proc_macro2::TokenStream::from_str` accepts, a pure
/// function of the text.
pub uninterp spec fn fragment_tokenizes(s: Seq<char>) -> bool;

/// Relies on proc-macro2's `TokenStream::from_str`: whether the text parses
/// into token trees depends on the text alone.
#[verifier::external_body]
fn tokenize_ok(s: &str) -> (r: bool)
    ensures
        r == fragment_tokenizes(s@),
{
    <proc_macro2::TokenStream as core::str::FromStr>::from_str(s).is_ok()
}

pub open spec fn opt_frag(o: Option<String>) -> Seq<char> {
    match o {
        Some(s) => s@,
        None => Seq::empty(),
    }
}

pub open spec fn bind_name(o: Option<String>) -> Seq<char> {
    match o {
        Some(s) => s@,
        None => "__"@,
    }
}

pub open spec fn opt_ok(o: Option<String>) -> bool {
    match o {
        Some(s) => fragment_tokenizes(s@),
        None => true,
    }
}

pub open spec fn node_frag_ok(n: Node) -> bool {
    match n {
        Node::NonTerm { args, .. } => opt_ok(args),
        Node::Term(..) => true,
    }
}

pub open spec fn rule_frags_ok(r: Rule) -> bool {
    &&& fragment_tokenizes(r.code@)
    &&& forall|i: int| 0 <= i < r.nodes@.len() ==> node_frag_ok(#[trigger] r.nodes@[i])
}

/// All opaque fragments of the definition lex as target-language tokens.
pub open spec fn def_frags_ok(d: NonTermDef) -> bool {
    &&& fragment_tokenizes(d.ret_ty@)
    &&& opt_ok(d.args)
    &&& forall|i: int| 0 <= i < d.rules@.len() ==> rule_frags_ok(#[trigger] d.rules@[i])
}

pub open spec fn grammar_frags_ok(g: Grammar) -> bool {
    forall|d: int| 0 <= d < g.nonterms@.len() ==> def_frags_ok(#[trigger] g.nonterms@[d])
}

fn check_opt(o: &Option<String>) -> (r: bool)
    ensures
        r == opt_ok(*o),
{
    match o {
        Some(s) => tokenize_ok(s.as_str()),
        None => true,
    }
}

fn check_def_frags(d: &NonTermDef) -> (r: Result<(), String>)
    ensures
        r is Ok <==> def_frags_ok(*d),
        r matches Err(s) ==> !fragment_tokenizes(s@),
{
    if !tokenize_ok(d.ret_ty.as_str()) {
        return Err(d.ret_ty.clone());
    }
    if !check_opt(&d.args) {
        let a = match &d.args {
            Some(s) => s.clone(),
            None => String::new(),
        };
        proof {
            assert(d.args is Some);
        }
        return Err(a);
    }
    let mut rj: usize = 0;
    while rj < d.rules.len()
        invariant
            rj <= d.rules@.len(),
            forall|i: int| 0 <= i < rj ==> rule_frags_ok(#[trigger] d.rules@[i]),
        decreases d.rules@.len() - rj,
    {
        let rule = &d.rules[rj];
        if !tokenize_ok(rule.code.as_str()) {
            return Err(rule.code.clone());
        }
        let mut p: usize = 0;
        while p < rule.nodes.len()
            invariant
                p <= rule.nodes@.len(),
                forall|i: int| 0 <= i < p ==> node_frag_ok(#[trigger] rule.nodes@[i]),
        decreases rule.nodes@.len() - p,
        {
            match &rule.nodes[p] {
                Node::NonTerm { args, .. } => {
                    if !check_opt(args) {
                        let a = match args {
                            Some(s) => s.clone(),
                            None => String::new(),
                        };
                        proof {
                            assert(args is Some);
                        }
                        return Err(a);
                    }
                },
                Node::Term(..) => {},
            }
            p = p + 1;
        }
        rj = rj + 1;
    }
    Ok(())
}

/// One sub-parse line of a branch body: a recognizer call for a terminal, a
/// parse call (threading the argument fragment) for a nonterminal, bound to
/// the author's name or a throwaway name.
pub open spec fn subparse_line(n: Node) -> Seq<char> {
    match n {
        Node::NonTerm { node, extract_name, args } => "            let "@ + bind_name(extract_name)
            + " = parse_"@ + node.0@ + " (parser, "@ + opt_frag(args) + ")?;\n"@,
        Node::Term(t, name) => "            let "@ + bind_name(name) + " = parse_"@
            + spec_token_name(t.0@) + " (parser)?;\n"@,
    }
}

/// The dispatch pattern of one terminal.
pub open spec fn pat_of(t: Term) -> Seq<char> {
    "Some(Token::"@ + spec_token_name(t.0@) + ")"@
}

/// The dispatch patterns of the terminals of `s` among the first `n`
/// interned terminals, in interned (declaration) order: the stable order
/// that keeps the output byte-identical across runs.
pub open spec fn pats_from(terms: Seq<Term>, s: Set<int>, n: int) -> Seq<Seq<char>>
    decreases n,
{
    if n <= 0 {
        Seq::empty()
    } else {
        pats_from(terms, s, n - 1) + if s.contains(n - 1) {
            seq![pat_of(terms[n - 1])]
        } else {
            Seq::empty()
        }
    }
}

proof fn lemma_pats_from_empty(terms: Seq<Term>, n: int)
    ensures
        pats_from(terms, Set::empty(), n) == Seq::<Seq<char>>::empty(),
    decreases n,
{
    if n > 0 {
        lemma_pats_from_empty(terms, n - 1);
        assert(pats_from(terms, Set::empty(), n) =~= Seq::<Seq<char>>::empty());
    }
}

/// The lookahead patterns of one rule: its FIRST set, widened by FOLLOW of
/// the nonterminal when the rule can derive epsilon, with `None` standing
/// for end of input.
pub open spec fn rule_pats(
    rule: Rule,
    defname: Seq<char>,
    terms: Seq<Term>,
    names: Seq<NonTerm>,
    fstv: Seq<SymSet>,
    flwv: Seq<SymSet>,
) -> Seq<Seq<char>> {
    let f = spec_first(rule.nodes@, 0, terms, names, fstv);
    let ai = find_name(names, defname);
    let fl = if 0 <= ai < flwv.len() {
        flwv[ai]
    } else {
        SymSet::empty()
    };
    pats_from(terms, f.terms, terms.len() as int) + if f.marker {
        pats_from(terms, fl.terms, terms.len() as int) + if fl.marker {
            seq!["None"@]
        } else {
            Seq::empty()
        }
    } else {
        Seq::empty()
    }
}

/// The emitted dispatch branch of one rule; a rule whose lookahead set is
/// empty can never be selected and gets no branch.
pub open spec fn branch_text(
    rule: Rule,
    defname: Seq<char>,
    terms: Seq<Term>,
    names: Seq<NonTerm>,
    fstv: Seq<SymSet>,
    flwv: Seq<SymSet>,
) -> Seq<char> {
    let pats = rule_pats(rule, defname, terms, names, fstv, flwv);
    if pats.len() == 0 {
        Seq::empty()
    } else {
        "        "@ + spec_join(pats, " | "@) + " => {\n"@ + cat_map(
            rule.nodes@,
            |n: Node| subparse_line(n),
        ) + "            Some({ "@ + rule.code@ + " })\n        },\n"@
    }
}

/// The emitted predictive procedure of one nonterminal definition.
pub open spec fn spec_generate_def(
    def: NonTermDef,
    terms: Seq<Term>,
    names: Seq<NonTerm>,
    fstv: Seq<SymSet>,
    flwv: Seq<SymSet>,
) -> Seq<char> {
    (if def.is_pub {
        "pub "@
    } else {
        Seq::empty()
    }) + "fn parse_"@ + def.name.0@ + " (parser: &mut ParserState, "@ + opt_frag(def.args)
        + ") -> Option<"@ + def.ret_ty@ + "> {\n    match parser.token() {\n"@ + cat_map(
        def.rules@,
        |r: Rule| branch_text(r, def.name.0@, terms, names, fstv, flwv),
    ) + "        _ => None,\n    }\n}\n"@
}

/// The emitted procedures of the whole grammar, in declaration order.
pub open spec fn spec_generate_grammar(
    g: Grammar,
    terms: Seq<Term>,
    names: Seq<NonTerm>,
    fstv: Seq<SymSet>,
    flwv: Seq<SymSet>,
) -> Seq<char> {
    cat_map(g.nonterms@, |d: NonTermDef| spec_generate_def(d, terms, names, fstv, flwv))
}

fn push_bind_name(out: &mut String, o: &Option<String>)
    ensures
        final(out)@ == old(out)@ + bind_name(*o),
{
    match o {
        Some(s) => out.append(s.as_str()),
        None => out.append("__"),
    }
}

fn push_opt_frag(out: &mut String, o: &Option<String>)
    ensures
        final(out)@ == old(out)@ + opt_frag(*o),
{
    match o {
        Some(s) => out.append(s.as_str()),
        None => {
            proof {
                assert(out@ =~= old(out)@ + opt_frag(*o));
            }
        },
    }
}

fn push_subparse(out: &mut String, n: &Node)
    ensures
        final(out)@ == old(out)@ + subparse_line(*n),
{
    out.append("            let ");
    match n {
        Node::NonTerm { node, extract_name, args } => {
            push_bind_name(out, extract_name);
            out.append(" = parse_");
            out.append(node.0.as_str());
            out.append(" (parser, ");
            push_opt_frag(out, args);
            out.append(")?;\n");
            proof {
                assert(out@ =~= old(out)@ + subparse_line(*n));
            }
        },
        Node::Term(t, name) => {
            push_bind_name(out, name);
            out.append(" = parse_");
            let tn = t.token_name();
            out.append(tn.as_str());
            out.append(" (parser)?;\n");
            proof {
                assert(out@ =~= old(out)@ + subparse_line(*n));
            }
        },
    }
}

fn push_pats(pats: &mut Vec<String>, terms: &Vec<Term>, ts: &crate::analysis::TermSet)
    requires
        ts.bits@.len() == terms@.len(),
    ensures
        final(pats)@.len() >= old(pats)@.len(),
        final(pats)@.map_values(|p: String| p@) == old(pats)@.map_values(|p: String| p@)
            + pats_from(terms@, ts@.terms, terms@.len() as int),
{
    let ghost pv = |p: String| p@;
    let mut ti: usize = 0;
    while ti < terms.len()
        invariant
            ti <= terms@.len(),
            ts.bits@.len() == terms@.len(),
            pats@.len() >= old(pats)@.len(),
            pats@.map_values(pv) == old(pats)@.map_values(pv) + pats_from(
                terms@,
                ts@.terms,
                ti as int,
            ),
        decreases terms@.len() - ti,
    {
        if ts.bits[ti] {
            let mut ps = String::from_str("Some(Token::");
            let tn = terms[ti].token_name();
            ps.append(tn.as_str());
            ps.append(")");
            let ghost prev = pats@;
            pats.push(ps);
            proof {
                assert(ts@.terms.contains(ti as int));
                assert(pats@.map_values(pv) =~= prev.map_values(pv).push(ps@));
                assert(ps@ =~= pat_of(terms@[ti as int]));
                assert(pats@.map_values(pv) =~= old(pats)@.map_values(pv) + pats_from(
                    terms@,
                    ts@.terms,
                    ti + 1,
                ));
            }
        } else {
            proof {
                assert(!ts@.terms.contains(ti as int));
                assert(pats@.map_values(pv) =~= old(pats)@.map_values(pv) + pats_from(
                    terms@,
                    ts@.terms,
                    ti + 1,
                ));
            }
        }
        ti = ti + 1;
    }
}

#[verifier::rlimit(60)]
fn push_branch(out: &mut String, rule: &Rule, name: &NonTerm, fst: &FirstMap, flw: &FollowMap)
    requires
        fst.wf(),
        flw.wf(),
        flw.terms@ == fst.terms@,
        flw.names@ == fst.names@,
    ensures
        final(out)@ == old(out)@ + branch_text(
            *rule,
            name.0@,
            fst.terms@,
            fst.names@,
            fst.views(),
            flw.views(),
        ),
{
    let ghost pv = |p: String| p@;
    let ghost goal_pats = rule_pats(
        *rule,
        name.0@,
        fst.terms@,
        fst.names@,
        fst.views(),
        flw.views(),
    );
    let f = crate::analysis::first(rule.nodes.as_slice(), fst);
    let mut pats: Vec<String> = Vec::new();
    push_pats(&mut pats, &fst.terms, &f);
    if f.has_marker() {
        match crate::analysis::find_name_exec(&fst.names, &name.0) {
            Some(a) => {
                let fl = &flw.sets[a];
                proof {
                    assert(fl@ == flw.views()[a as int]);
                }
                push_pats(&mut pats, &fst.terms, fl);
                if fl.has_marker() {
                    let ns = String::from_str("None");
                    let ghost prev = pats@;
                    pats.push(ns);
                    proof {
                        assert(pats@.map_values(pv) =~= prev.map_values(pv).push(ns@));
                    }
                }
            },
            None => {
                proof {
                    lemma_pats_from_empty(fst.terms@, fst.terms@.len() as int);
                }
            },
        }
    }
    proof {
        assert(pats@.map_values(pv) =~= goal_pats);
    }
    if pats.len() == 0 {
        proof {
            assert(out@ =~= old(out)@ + branch_text(
                *rule,
                name.0@,
                fst.terms@,
                fst.names@,
                fst.views(),
                flw.views(),
            ));
        }
        return ;
    }
    out.append("        ");
    push_joined(out, &pats, " | ");
    out.append(" => {\n");
    let ghost base = out@;
    let ghost fsub = |n: Node| subparse_line(n);
    let mut p: usize = 0;
    while p < rule.nodes.len()
        invariant
            p <= rule.nodes@.len(),
            out@ == base + cat_map(rule.nodes@.take(p as int), fsub),
        decreases rule.nodes@.len() - p,
    {
        push_subparse(out, &rule.nodes[p]);
        proof {
            lemma_cat_map_take(rule.nodes@, fsub, p as int);
            assert(out@ =~= base + cat_map(rule.nodes@.take(p + 1), fsub));
        }
        p = p + 1;
    }
    out.append("            Some({ ");
    out.append(rule.code.as_str());
    out.append(" })\n        },\n");
    proof {
        assert(rule.nodes@.take(rule.nodes@.len() as int) =~= rule.nodes@);
        assert(out@ =~= old(out)@ + branch_text(
            *rule,
            name.0@,
            fst.terms@,
            fst.names@,
            fst.views(),
            flw.views(),
        ));
    }
}

impl NonTermDef {
    /// Emits the predictive parse procedure of this definition over the
    /// given FIRST and FOLLOW tables, or reports a fragment that does not
    /// lex as target-language tokens.
    pub fn generate(&self, fst: &FirstMap, flw: &FollowMap) -> (r: Result<String, GenError>)
        requires
            fst.wf(),
            flw.wf(),
            flw.terms@ == fst.terms@,
            flw.names@ == fst.names@,
        ensures
            r is Ok <==> def_frags_ok(*self),
            r matches Ok(t) ==> t@ == spec_generate_def(
                *self,
                fst.terms@,
                fst.names@,
                fst.views(),
                flw.views(),
            ),
            r matches Err(e) ==> e matches GenError::FragmentSyntax(s) && !fragment_tokenizes(s@),
    {
        match check_def_frags(self) {
            Err(s) => {
                return Err(GenError::FragmentSyntax(s));
            },
            Ok(()) => {},
        }
        let mut out = String::new();
        if self.is_pub {
            out.append("pub ");
        }
        out.append("fn parse_");
        out.append(self.name.0.as_str());
        out.append(" (parser: &mut ParserState, ");
        push_opt_frag(&mut out, &self.args);
        out.append(") -> Option<");
        out.append(self.ret_ty.as_str());
        out.append("> {\n    match parser.token() {\n");
        let ghost base = out@;
        let ghost fbr = |r: Rule| branch_text(
            r,
            self.name.0@,
            fst.terms@,
            fst.names@,
            fst.views(),
            flw.views(),
        );
        let mut rj: usize = 0;
        while rj < self.rules.len()
            invariant
                rj <= self.rules@.len(),
                out@ == base + cat_map(self.rules@.take(rj as int), fbr),
            decreases self.rules@.len() - rj,
        {
            push_branch(&mut out, &self.rules[rj], &self.name, fst, flw);
            proof {
                lemma_cat_map_take(self.rules@, fbr, rj as int);
                assert(out@ =~= base + cat_map(self.rules@.take(rj + 1), fbr));
            }
            rj = rj + 1;
        }
        out.append("        _ => None,\n    }\n}\n");
        proof {
            assert(self.rules@.take(self.rules@.len() as int) =~= self.rules@);
            assert(out@ =~= spec_generate_def(
                *self,
                fst.terms@,
                fst.names@,
                fst.views(),
                flw.views(),
            ));
        }
        Ok(out)
    }
}

} // verus!

verus! {

/// The fixed runtime scaffold included verbatim in every generated parser:
/// the input cursor with whitespace skipping and literal / regex prefix
/// tests, and the runtime error type with its display.
pub open spec fn scaffold_spec() -> Seq<char> {
    "use std::fmt;

use lazy_static::lazy_static;
use regex::Regex;

pub struct ParserState<'input> {
    stream: &'input str,
}

impl<'input> ParserState<'input> {
    pub fn new(stream: &'input str) -> Self {
        ParserState { stream }
    }

    pub fn remainder(&self) -> &'input str {
        self.stream
    }

    pub fn push_spaces(&mut self) {
        self.stream = self.stream.trim_start()
    }

    pub fn is_prefix(&mut self, prefix: &str) -> bool {
        self.push_spaces();
        self.stream.starts_with(prefix)
    }

    pub fn is_prefix_re(&mut self, regex: &Regex) -> bool {
        self.push_spaces();
        regex.find(self.stream).is_some_and(|m| m.start() == 0)
    }

    pub fn expect(&mut self, prefix: &str) -> Option<&'input str> {
        self.push_spaces();

        if self.stream.starts_with(prefix) {
            let res = Some(&self.stream[..prefix.len()]);
            self.bump(prefix.len());
            return res;
        } else {
            None
        }
    }

    pub fn expect_re(&mut self, re: &Regex) -> Option<&'input str> {
        self.push_spaces();

        re.find(self.stream).filter(|m| m.start() == 0).map(|m| {
            let res = &self.stream[m.range()];
            self.bump(m.len());
            res
        })
    }

    pub fn bump(&mut self, bytes: usize) {
        self.stream = &self.stream[bytes..];
    }
}

#[derive(Debug, Clone)]
pub enum ParseError<T> {
    UnexpectedToken { actual: Option<T>, expected: T },
    NoRuleFound(&'static str),
}

impl<T: fmt::Display> fmt::Display for ParseError<T> {
    fn fmt(&self, f: &mut fmt::Formatter<'_>) -> fmt::Result {
        match self {
            ParseError::UnexpectedToken { actual, expected } => match actual {
                Some(actual) => {
                    write!(f, \"Unexpected token: Expect {expected}, but found {actual}\")
                }
                None => write!(f, \"Unexpected token: Expect {expected}, but found None\"),
            },
            ParseError::NoRuleFound(state) => write!(f, \"while parsing {state}, found no rules\"),
        }
    }
}
"@
}

fn scaffold_text() -> (r: &'static str)
    ensures
        r@ == scaffold_spec(),
{
    "use std::fmt;

use lazy_static::lazy_static;
use regex::Regex;

pub struct ParserState<'input> {
    stream: &'input str,
}

impl<'input> ParserState<'input> {
    pub fn new(stream: &'input str) -> Self {
        ParserState { stream }
    }

    pub fn remainder(&self) -> &'input str {
        self.stream
    }

    pub fn push_spaces(&mut self) {
        self.stream = self.stream.trim_start()
    }

    pub fn is_prefix(&mut self, prefix: &str) -> bool {
        self.push_spaces();
        self.stream.starts_with(prefix)
    }

    pub fn is_prefix_re(&mut self, regex: &Regex) -> bool {
        self.push_spaces();
        regex.find(self.stream).is_some_and(|m| m.start() == 0)
    }

    pub fn expect(&mut self, prefix: &str) -> Option<&'input str> {
        self.push_spaces();

        if self.stream.starts_with(prefix) {
            let res = Some(&self.stream[..prefix.len()]);
            self.bump(prefix.len());
            return res;
        } else {
            None
        }
    }

    pub fn expect_re(&mut self, re: &Regex) -> Option<&'input str> {
        self.push_spaces();

        re.find(self.stream).filter(|m| m.start() == 0).map(|m| {
            let res = &self.stream[m.range()];
            self.bump(m.len());
            res
        })
    }

    pub fn bump(&mut self, bytes: usize) {
        self.stream = &self.stream[bytes..];
    }
}

#[derive(Debug, Clone)]
pub enum ParseError<T> {
    UnexpectedToken { actual: Option<T>, expected: T },
    NoRuleFound(&'static str),
}

impl<T: fmt::Display> fmt::Display for ParseError<T> {
    fn fmt(&self, f: &mut fmt::Formatter<'_>) -> fmt::Result {
        match self {
            ParseError::UnexpectedToken { actual, expected } => match actual {
                Some(actual) => {
                    write!(f, \"Unexpected token: Expect {expected}, but found {actual}\")
                }
                None => write!(f, \"Unexpected token: Expect {expected}, but found None\"),
            },
            ParseError::NoRuleFound(state) => write!(f, \"while parsing {state}, found no rules\"),
        }
    }
}
"
}

pub open spec fn mod_head() -> Seq<char> {
    "mod parser {\n#![allow(non_camel_case_types)]\n#![allow(non_upper_case_globals)]\n#![allow(dead_code)]\n#![allow(non_snake_case)]\n#![allow(unused_braces)]\n#![allow(unreachable_patterns)]\n\n"@
}

/// The whole generated output: the scaffold, the author's preamble, the
/// lexer, and one predictive procedure per nonterminal, wrapped in one
/// module so that no generated name leaks.
pub open spec fn spec_generate_language(
    lang: Language,
    terms: Seq<Term>,
    names: Seq<NonTerm>,
    fstv: Seq<SymSet>,
    flwv: Seq<SymSet>,
) -> Seq<char> {
    mod_head() + scaffold_spec() + "\n"@ + lang.preamble@ + "\n"@ + spec_tokens_generate(
        lang.lexer.mapping@,
    ) + "\n"@ + spec_generate_grammar(lang.grammar, terms, names, fstv, flwv) + "}\n"@
}

/// `out` is the text that generation produces for this language
/// description: the emission over the FIRST and FOLLOW analysis of its
/// grammar.
pub open spec fn generated_text_of(lang: Language, out: Seq<char>) -> bool {
    exists|terms: Seq<Term>, names: Seq<NonTerm>, fstv: Seq<SymSet>, flwv: Seq<SymSet>|
        #![trigger is_first_for(lang.grammar, terms, names, fstv), is_follow_for(lang.grammar, terms, names, fstv, flwv)]
        {
            &&& is_first_for(lang.grammar, terms, names, fstv)
            &&& is_follow_for(lang.grammar, terms, names, fstv, flwv)
            &&& out == spec_generate_language(lang, terms, names, fstv, flwv)
        }
}

/// Output stability: generation is a function of the language description
/// alone, so for equal inputs the generated text is byte-identical.
pub proof fn lemma_output_stable(lang: Language, o1: Seq<char>, o2: Seq<char>)
    requires
        generated_text_of(lang, o1),
        generated_text_of(lang, o2),
    ensures
        o1 == o2,
{
    let (terms1, names1, fstv1, flwv1) = choose|
        terms: Seq<Term>,
        names: Seq<NonTerm>,
        fstv: Seq<SymSet>,
        flwv: Seq<SymSet>,
    |
        #![trigger is_first_for(lang.grammar, terms, names, fstv), is_follow_for(lang.grammar, terms, names, fstv, flwv)]
        {
            &&& is_first_for(lang.grammar, terms, names, fstv)
            &&& is_follow_for(lang.grammar, terms, names, fstv, flwv)
            &&& o1 == spec_generate_language(lang, terms, names, fstv, flwv)
        };
    let (terms2, names2, fstv2, flwv2) = choose|
        terms: Seq<Term>,
        names: Seq<NonTerm>,
        fstv: Seq<SymSet>,
        flwv: Seq<SymSet>,
    |
        #![trigger is_first_for(lang.grammar, terms, names, fstv), is_follow_for(lang.grammar, terms, names, fstv, flwv)]
        {
            &&& is_first_for(lang.grammar, terms, names, fstv)
            &&& is_follow_for(lang.grammar, terms, names, fstv, flwv)
            &&& o2 == spec_generate_language(lang, terms, names, fstv, flwv)
        };
    lemma_first_unique(lang.grammar, terms1, names1, fstv1, fstv2);
    lemma_follow_unique(lang.grammar, terms1, names1, fstv1, flwv1, flwv2);
}

impl Grammar {
    /// Whether some definition is an exported entry point. Output for a
    /// grammar without one is a module with no public procedure: permitted,
    /// but worth a warning.
    pub fn has_entry(&self) -> (r: bool)
        ensures
            r == exists|d: int| 0 <= d < self.nonterms@.len() && (#[trigger] self.nonterms@[d].is_pub),
    {
        let mut d: usize = 0;
        while d < self.nonterms.len()
            invariant
                d <= self.nonterms@.len(),
                forall|d2: int| 0 <= d2 < d ==> !(#[trigger] self.nonterms@[d2].is_pub),
            decreases self.nonterms@.len() - d,
        {
            if self.nonterms[d].is_pub {
                return true;
            }
            d = d + 1;
        }
        false
    }

    /// Emits the predictive parse procedures of every nonterminal, over the
    /// grammar's own FIRST and FOLLOW analysis, or reports a fragment that
    /// does not lex.
    pub fn generate(&self) -> (r: Result<String, GenError>)
        ensures
            r is Ok <==> grammar_frags_ok(*self),
            r matches Err(e) ==> e matches GenError::FragmentSyntax(s) && !fragment_tokenizes(s@),
            forall|terms: Seq<Term>, names: Seq<NonTerm>, fstv: Seq<SymSet>, flwv: Seq<SymSet>|
                #![trigger is_first_for(*self, terms, names, fstv), is_follow_for(*self, terms, names, fstv, flwv)]
                is_first_for(*self, terms, names, fstv) && is_follow_for(
                    *self,
                    terms,
                    names,
                    fstv,
                    flwv,
                ) && r is Ok ==> r->Ok_0@ == spec_generate_grammar(*self, terms, names, fstv, flwv),
            r is Ok ==> exists|terms: Seq<Term>, names: Seq<NonTerm>, fstv: Seq<SymSet>, flwv: Seq<SymSet>|
                #![trigger is_first_for(*self, terms, names, fstv), is_follow_for(*self, terms, names, fstv, flwv)]
                is_first_for(*self, terms, names, fstv) && is_follow_for(
                    *self,
                    terms,
                    names,
                    fstv,
                    flwv,
                ) && r->Ok_0@ == spec_generate_grammar(*self, terms, names, fstv, flwv),
    {
        let fst = self.build_first();
        let flw = self.build_follow(&fst);
        let mut out = String::new();
        let ghost fdef = |d: NonTermDef| spec_generate_def(
            d,
            fst.terms@,
            fst.names@,
            fst.views(),
            flw.views(),
        );
        let mut d: usize = 0;
        while d < self.nonterms.len()
            invariant
                d <= self.nonterms@.len(),
                out@ == cat_map(self.nonterms@.take(d as int), fdef),
                forall|d2: int| 0 <= d2 < d ==> def_frags_ok(#[trigger] self.nonterms@[d2]),
            decreases self.nonterms@.len() - d,
        {
            match self.nonterms[d].generate(&fst, &flw) {
                Ok(t) => {
                    out.append(t.as_str());
                },
                Err(e) => {
                    proof {
                        assert(!def_frags_ok(self.nonterms@[d as int]));
                    }
                    return Err(e);
                },
            }
            proof {
                lemma_cat_map_take(self.nonterms@, fdef, d as int);
                assert(out@ =~= cat_map(self.nonterms@.take(d + 1), fdef));
            }
            d = d + 1;
        }
        proof {
            assert(self.nonterms@.take(self.nonterms@.len() as int) =~= self.nonterms@);
        }
        let r = Ok(out);
        proof {
            assert forall|
                terms: Seq<Term>,
                names: Seq<NonTerm>,
                fstv: Seq<SymSet>,
                flwv: Seq<SymSet>,
            |
                is_first_for(*self, terms, names, fstv) && is_follow_for(
                    *self,
                    terms,
                    names,
                    fstv,
                    flwv,
                ) implies r->Ok_0@ == spec_generate_grammar(*self, terms, names, fstv, flwv) by {
                lemma_first_unique(*self, terms, names, fstv, fst.views());
                lemma_follow_unique(*self, terms, names, fstv, flwv, flw.views());
            }
        }
        r
    }
}

/// Two terminal declarations share a label.
pub open spec fn has_dup_term(mapping: Seq<(Term, TokDesc)>) -> bool {
    exists|i: int, j: int|
        0 <= i < j < mapping.len() && (#[trigger] mapping[i].0).0@ == (#[trigger] mapping[j].0).0@
}

/// Two nonterminal definitions share a name.
pub open spec fn has_dup_name(defs: Seq<NonTermDef>) -> bool {
    exists|i: int, j: int|
        0 <= i < j < defs.len() && (#[trigger] defs[i].name).0@ == (#[trigger] defs[j].name).0@
}

/// The node references a declared terminal or a defined nonterminal.
pub open spec fn node_known(n: Node, decls: Seq<Term>, names: Seq<NonTerm>) -> bool {
    match n {
        Node::Term(t, _) => find_term(decls, t.0@) >= 0,
        Node::NonTerm { node, .. } => find_name(names, node.0@) >= 0,
    }
}

/// Some node of the grammar references a name that is neither a declared
/// terminal nor a defined nonterminal.
pub open spec fn has_unknown(lang: Language) -> bool {
    exists|d: int, rj: int, p: int|
        {
            &&& 0 <= d < lang.grammar.nonterms@.len()
            &&& 0 <= rj < lang.grammar.nonterms@[d].rules@.len()
            &&& 0 <= p < lang.grammar.nonterms@[d].rules@[rj].nodes@.len()
            &&& !node_known(
                #[trigger] lang.grammar.nonterms@[d].rules@[rj].nodes@[p],
                lang.lexer.mapping@.map_values(|q: (Term, TokDesc)| q.0),
                crate::analysis::spec_collect_names(lang.grammar),
            )
        }
}

/// All fragments of the language description lex as target-language tokens.
pub open spec fn lang_frags_ok(lang: Language) -> bool {
    fragment_tokenizes(lang.preamble@) && grammar_frags_ok(lang.grammar)
}

fn find_dup_term(mapping: &Vec<(Term, TokDesc)>) -> (r: Option<String>)
    ensures
        r is Some <==> has_dup_term(mapping@),
{
    let mut i: usize = 0;
    while i < mapping.len()
        invariant
            i <= mapping@.len(),
            forall|i2: int, j2: int|
                0 <= i2 < j2 < mapping@.len() && i2 < i ==> (#[trigger] mapping@[i2].0).0@ != (
                #[trigger] mapping@[j2].0).0@,
        decreases mapping@.len() - i,
    {
        let mut j: usize = i + 1;
        while j < mapping.len()
            invariant
                i < j <= mapping@.len(),
                forall|j2: int|
                    i < j2 < j ==> (#[trigger] mapping@[j2].0).0@ != mapping@[i as int].0 .0@,
            decreases mapping@.len() - j,
        {
            if mapping[i].0 .0 == mapping[j].0 .0 {
                return Some(mapping[i].0 .0.clone());
            }
            j = j + 1;
        }
        i = i + 1;
    }
    None
}

fn find_dup_name(defs: &Vec<NonTermDef>) -> (r: Option<String>)
    ensures
        r is Some <==> has_dup_name(defs@),
{
    let mut i: usize = 0;
    while i < defs.len()
        invariant
            i <= defs@.len(),
            forall|i2: int, j2: int|
                0 <= i2 < j2 < defs@.len() && i2 < i ==> (#[trigger] defs@[i2].name).0@ != (
                #[trigger] defs@[j2].name).0@,
        decreases defs@.len() - i,
    {
        let mut j: usize = i + 1;
        while j < defs.len()
            invariant
                i < j <= defs@.len(),
                forall|j2: int|
                    i < j2 < j ==> (#[trigger] defs@[j2].name).0@ != defs@[i as int].name.0@,
            decreases defs@.len() - j,
        {
            if defs[i].name.0 == defs[j].name.0 {
                return Some(defs[i].name.0.clone());
            }
            j = j + 1;
        }
        i = i + 1;
    }
    None
}

fn find_unknown(lang: &Language) -> (r: Option<String>)
    ensures
        r is Some <==> has_unknown(*lang),
{
    let decls = lang.lexer.terms();
    let names = crate::analysis::collect_names(&lang.grammar);
    proof {
        assert(decls@ =~= lang.lexer.mapping@.map_values(|q: (Term, TokDesc)| q.0));
    }
    let ghost declv = lang.lexer.mapping@.map_values(|q: (Term, TokDesc)| q.0);
    let ghost namev = crate::analysis::spec_collect_names(lang.grammar);
    let mut d: usize = 0;
    while d < lang.grammar.nonterms.len()
        invariant
            d <= lang.grammar.nonterms@.len(),
            decls@ == declv,
            names@ == namev,
            forall|d2: int, rj2: int, p2: int|
                0 <= d2 < d && 0 <= rj2 < lang.grammar.nonterms@[d2].rules@.len() && 0 <= p2
                    < lang.grammar.nonterms@[d2].rules@[rj2].nodes@.len() ==> node_known(
                    #[trigger] lang.grammar.nonterms@[d2].rules@[rj2].nodes@[p2],
                    declv,
                    namev,
                ),
        decreases lang.grammar.nonterms@.len() - d,
    {
        let def = &lang.grammar.nonterms[d];
        let mut rj: usize = 0;
        while rj < def.rules.len()
            invariant
                rj <= def.rules@.len(),
                decls@ == declv,
                names@ == namev,
                forall|rj2: int, p2: int|
                    0 <= rj2 < rj && 0 <= p2 < def.rules@[rj2].nodes@.len() ==> node_known(
                        #[trigger] def.rules@[rj2].nodes@[p2],
                        declv,
                        namev,
                    ),
            decreases def.rules@.len() - rj,
        {
            let rule = &def.rules[rj];
            let mut p: usize = 0;
            while p < rule.nodes.len()
                invariant
                    p <= rule.nodes@.len(),
                    decls@ == declv,
                    names@ == namev,
                    forall|p2: int|
                        0 <= p2 < p ==> node_known(#[trigger] rule.nodes@[p2], declv, namev),
                decreases rule.nodes@.len() - p,
            {
                match &rule.nodes[p] {
                    Node::Term(t, _) => {
                        match crate::analysis::find_term_exec(&decls, &t.0) {
                            Some(_) => {},
                            None => {
                                return Some(t.0.clone());
                            },
                        }
                    },
                    Node::NonTerm { node, .. } => {
                        match crate::analysis::find_name_exec(&names, &node.0) {
                            Some(_) => {},
                            None => {
                                return Some(node.0.clone());
                            },
                        }
                    },
                }
                p = p + 1;
            }
            rj = rj + 1;
        }
        d = d + 1;
    }
    None
}

impl Language {
    /// Assembles the output text once the names have been validated:
    /// scaffold, preamble, lexer, and parse procedures, wrapped in one
    /// module. Reports a fragment that does not lex.
    #[verifier::rlimit(100)]
    fn assemble(&self) -> (r: Result<String, GenError>)
        ensures
            r is Ok <==> lang_frags_ok(*self),
            r matches Err(e) ==> e matches GenError::FragmentSyntax(s) && !fragment_tokenizes(s@),
            r matches Ok(t) ==> generated_text_of(*self, t@),
    {
        if !tokenize_ok(self.preamble.as_str()) {
            return Err(GenError::FragmentSyntax(self.preamble.clone()));
        }
        let body = match self.grammar.generate() {
            Ok(t) => t,
            Err(e) => {
                return Err(e);
            },
        };
        let lexed = self.lexer.generate();
        let mut out = String::from_str(
            "mod parser {\n#![allow(non_camel_case_types)]\n#![allow(non_upper_case_globals)]\n#![allow(dead_code)]\n#![allow(non_snake_case)]\n#![allow(unused_braces)]\n#![allow(unreachable_patterns)]\n\n",
        );
        out.append(scaffold_text());
        out.append("\n");
        out.append(self.preamble.as_str());
        out.append("\n");
        out.append(lexed.as_str());
        out.append("\n");
        out.append(body.as_str());
        out.append("}\n");
        proof {
            let (terms, names, fstv, flwv) = choose|
                terms: Seq<Term>,
                names: Seq<NonTerm>,
                fstv: Seq<SymSet>,
                flwv: Seq<SymSet>,
            |
                #![trigger is_first_for(self.grammar, terms, names, fstv), is_follow_for(self.grammar, terms, names, fstv, flwv)]
                is_first_for(self.grammar, terms, names, fstv) && is_follow_for(
                    self.grammar,
                    terms,
                    names,
                    fstv,
                    flwv,
                ) && body@ == spec_generate_grammar(self.grammar, terms, names, fstv, flwv);
            let a = mod_head();
            let b = scaffold_spec();
            let c = "\n"@;
            let d = self.preamble@;
            let e = spec_tokens_generate(self.lexer.mapping@);
            let f = spec_generate_grammar(self.grammar, terms, names, fstv, flwv);
            let g = "}\n"@;
            vstd::seq_lib::lemma_concat_associative(a, b, c);
            vstd::seq_lib::lemma_concat_associative(a + b, c, d);
            vstd::seq_lib::lemma_concat_associative(a + b + c, d, c);
            vstd::seq_lib::lemma_concat_associative(a + b + c + d, c, e);
            vstd::seq_lib::lemma_concat_associative(a + b + c + d + c, e, c);
            vstd::seq_lib::lemma_concat_associative(a + b + c + d + c + e, c, f);
            vstd::seq_lib::lemma_concat_associative(a + b + c + d + c + e + c, f, g);
            assert(out@ == spec_generate_language(*self, terms, names, fstv, flwv));
        }
        Ok(out)
    }

    /// Emits the complete generated parser text, or reports the first
    /// problem found: a duplicate terminal or nonterminal name, a node
    /// referencing an undeclared name, or a fragment that does not lex.
    #[verifier::rlimit(100)]
    #[verifier::spinoff_prover]
    pub fn generate(&self) -> (r: Result<String, GenError>)
        ensures
            r is Ok <==> (!has_dup_term(self.lexer.mapping@) && !has_dup_name(
                self.grammar.nonterms@,
            ) && !has_unknown(*self) && lang_frags_ok(*self)),
            r matches Ok(t) ==> generated_text_of(*self, t@),
            r matches Err(e) ==> match e {
                GenError::DuplicateDefinition(_) => has_dup_term(self.lexer.mapping@)
                    || has_dup_name(self.grammar.nonterms@),
                GenError::UnknownSymbol(_) => !has_dup_term(self.lexer.mapping@) && !has_dup_name(
                    self.grammar.nonterms@,
                ) && has_unknown(*self),
                GenError::FragmentSyntax(s) => !has_dup_term(self.lexer.mapping@) && !has_dup_name(
                    self.grammar.nonterms@,
                ) && !has_unknown(*self) && !lang_frags_ok(*self) && !fragment_tokenizes(s@),
            },
    {
        match find_dup_term(&self.lexer.mapping) {
            Some(l) => {
                return Err(GenError::DuplicateDefinition(l));
            },
            None => {},
        }
        match find_dup_name(&self.grammar.nonterms) {
            Some(l) => {
                return Err(GenError::DuplicateDefinition(l));
            },
            None => {},
        }
        match find_unknown(self) {
            Some(l) => {
                return Err(GenError::UnknownSymbol(l));
            },
            None => {},
        }
        self.assemble()
    }
}

} // verus!
