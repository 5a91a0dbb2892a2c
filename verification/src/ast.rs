//! The grammar model: terminals referenced from rules, nonterminals, rule
//! right-hand sides, nonterminal definitions, and the whole grammar and
//! language description.
use vstd::prelude::*;
use vstd::string::StringExecFns;

use crate::lexer::{Term, Tokens};
use crate::text::{cat_map, lemma_cat_map_take};

verus! {

/// A nonterminal, identified by its name.
#[derive(Debug, Clone, PartialEq, Eq)]
pub struct NonTerm(pub String);

impl NonTerm {
    /// A copy of this nonterminal.
    pub fn duplicate(&self) -> (r: NonTerm)
        ensures
            r == *self,
    {
        NonTerm(self.0.clone())
    }
}

/// One element of a rule's right-hand side.
#[derive(Debug, Clone, PartialEq)]
pub enum Node {
    NonTerm { node: NonTerm, extract_name: Option<String>, args: Option<String> },
    Term(Term, Option<String>),
}

/// Rendering wrapper for grammar data reported in diagnostics.
pub struct Display<T>(pub T);

/// The rendered text of a right-hand side: nonterminal names and quoted
/// terminal labels.
pub open spec fn spec_display_nodes(nodes: Seq<Node>) -> Seq<char> {
    cat_map(
        nodes,
        |n: Node|
            match n {
                Node::NonTerm { node, .. } => node.0@ + " "@,
                Node::Term(term, _) => "\""@ + term.0@ + " \""@,
            },
    )
}

impl<'a> Display<&'a [Node]> {
    /// Renders the wrapped right-hand side for display.
    #[verifier::loop_isolation(false)]
    pub fn render(&self) -> (r: String)
        ensures
            r@ == spec_display_nodes(self.0@),
    {
        let ghost f = |n: Node|
            match n {
                Node::NonTerm { node, .. } => node.0@ + " "@,
                Node::Term(term, _) => "\""@ + term.0@ + " \""@,
            };
        let mut out = String::new();
        let mut i: usize = 0;
        while i < self.0.len()
            invariant
                i <= self.0.len(),
                out@ == cat_map(self.0@.take(i as int), f),
            decreases self.0.len() - i,
        {
            match &self.0[i] {
                Node::NonTerm { node, .. } => {
                    out.append(node.0.as_str());
                    out.append(" ");
                    proof {
                        lemma_cat_map_take(self.0@, f, i as int);
                        assert(out@ =~= cat_map(self.0@.take(i + 1), f));
                    }
                },
                Node::Term(term, _) => {
                    out.append("\"");
                    out.append(term.0.as_str());
                    out.append(" \"");
                    proof {
                        lemma_cat_map_take(self.0@, f, i as int);
                        assert(out@ =~= cat_map(self.0@.take(i + 1), f));
                    }
                },
            }
            i = i + 1;
        }
        proof {
            assert(self.0@.take(self.0@.len() as int) =~= self.0@);
        }
        out
    }
}

/// One production: an ordered right-hand side (empty means epsilon) and the
/// semantic-action fragment that produces the rule's value.
#[derive(Debug, Clone, PartialEq)]
pub struct Rule {
    pub nodes: Vec<Node>,
    pub code: String,
}

/// A nonterminal definition: its rules, the opaque formal-parameter and
/// return-type fragments, and whether it is an exported entry point.
#[derive(Debug, Clone)]
pub struct NonTermDef {
    pub name: NonTerm,
    pub args: Option<String>,
    pub ret_ty: String,
    pub rules: Vec<Rule>,
    pub is_pub: bool,
}

/// An ordered collection of nonterminal definitions.
#[derive(Debug, Clone)]
pub struct Grammar {
    pub nonterms: Vec<NonTermDef>,
}

/// A whole language description: preamble fragment, terminal declarations,
/// and the grammar.
#[derive(Debug, Clone)]
pub struct Language {
    pub preamble: String,
    pub lexer: Tokens,
    pub grammar: Grammar,
}

} // verus!
