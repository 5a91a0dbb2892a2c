//! Grammar analysis: the FIRST and FOLLOW fixpoint engines and the LL(1)
//! conflict check. Terminals and nonterminals are interned into declaration
//! order; a set over the terminals is a bit vector plus one marker bit, which
//! stands for epsilon in FIRST sets and for the end-of-input marker in
//! FOLLOW sets.
#![verifier::loop_isolation(false)]
use vstd::prelude::*;

use crate::ast::{Grammar, Node, NonTerm, NonTermDef, Rule};
use crate::lexer::Term;

verus! {

/// The mathematical value of a `TermSet`: a set of interned terminal indices
/// plus the marker (epsilon or end-of-input).
#[verifier::ext_equal]
pub ghost struct SymSet {
    pub terms: Set<int>,
    pub marker: bool,
}

impl SymSet {
    pub open spec fn empty() -> SymSet {
        SymSet { terms: Set::empty(), marker: false }
    }

    pub open spec fn subset_of(self, other: SymSet) -> bool {
        self.terms.subset_of(other.terms) && (self.marker ==> other.marker)
    }
}

/// A set over the interned terminals: one bit per terminal plus the marker.
pub struct TermSet {
    pub bits: Vec<bool>,
    pub marker: bool,
}

impl View for TermSet {
    type V = SymSet;

    open spec fn view(&self) -> SymSet {
        SymSet {
            terms: Set::new(|i: int| 0 <= i < self.bits@.len() && self.bits@[i]),
            marker: self.marker,
        }
    }
}

/// Number of unset bits: the room a set still has to grow into.
pub open spec fn count_false(s: Seq<bool>) -> nat
    decreases s.len(),
{
    if s.len() == 0 {
        0
    } else {
        count_false(s.drop_last()) + if s.last() {
            0nat
        } else {
            1nat
        }
    }
}

proof fn lemma_count_false_take(s: Seq<bool>, i: int)
    requires
        0 <= i < s.len(),
    ensures
        count_false(s.take(i + 1)) == count_false(s.take(i)) + if s[i] {
            0nat
        } else {
            1nat
        },
{
    assert(s.take(i + 1).drop_last() =~= s.take(i));
    assert(s.take(i + 1).last() == s[i]);
}

/// Remaining growth room of one set.
pub open spec fn pot_set(ts: TermSet) -> nat {
    count_false(ts.bits@) + if ts.marker {
        0nat
    } else {
        1nat
    }
}

/// Remaining growth room of a whole table; the fixpoint loops strictly
/// shrink it on every round that changes anything.
pub open spec fn pot_all(sets: Seq<TermSet>) -> nat
    decreases sets.len(),
{
    if sets.len() == 0 {
        0
    } else {
        pot_all(sets.drop_last()) + pot_set(sets.last())
    }
}

proof fn lemma_pot_all_update(sets: Seq<TermSet>, k: int, x: TermSet)
    requires
        0 <= k < sets.len(),
    ensures
        pot_all(sets.update(k, x)) + pot_set(sets[k]) == pot_all(sets) + pot_set(x),
    decreases sets.len(),
{
    if k == sets.len() - 1 {
        assert(sets.update(k, x).drop_last() =~= sets.drop_last());
        assert(sets.update(k, x).last() == x);
    } else {
        assert(sets.update(k, x).drop_last() =~= sets.drop_last().update(k, x));
        assert(sets.update(k, x).last() == sets.last());
        lemma_pot_all_update(sets.drop_last(), k, x);
    }
}

impl TermSet {
    /// A set with `len` unset bits.
    pub fn new_empty(len: usize, marker: bool) -> (r: TermSet)
        ensures
            r.bits@.len() == len,
            forall|i: int| 0 <= i < len ==> !r.bits@[i],
            r.marker == marker,
    {
        let mut bits: Vec<bool> = Vec::new();
        let mut i: usize = 0;
        while i < len
            invariant
                i <= len,
                bits@.len() == i,
                forall|j: int| 0 <= j < i ==> !bits@[j],
            decreases len - i,
        {
            bits.push(false);
            i = i + 1;
        }
        TermSet { bits, marker }
    }

    /// A set holding exactly the terminal `at`.
    pub fn singleton(len: usize, at: usize) -> (r: TermSet)
        requires
            at < len,
        ensures
            r.bits@.len() == len,
            forall|i: int| 0 <= i < len ==> r.bits@[i] == (i == at),
            !r.marker,
            r@.terms =~= set![at as int],
    {
        let mut bits: Vec<bool> = Vec::new();
        let mut i: usize = 0;
        while i < len
            invariant
                i <= len,
                bits@.len() == i,
                forall|j: int| 0 <= j < i ==> bits@[j] == (j == at),
            decreases len - i,
        {
            bits.push(i == at);
            i = i + 1;
        }
        TermSet { bits, marker: false }
    }

    /// A copy of this set.
    pub fn duplicate(&self) -> (r: TermSet)
        ensures
            r.bits@ == self.bits@,
            r.marker == self.marker,
            r@ == self@,
    {
        let mut bits: Vec<bool> = Vec::new();
        let mut i: usize = 0;
        while i < self.bits.len()
            invariant
                i <= self.bits@.len(),
                bits@.len() == i,
                forall|j: int| 0 <= j < i ==> bits@[j] == self.bits@[j],
            decreases self.bits.len() - i,
        {
            bits.push(self.bits[i]);
            i = i + 1;
        }
        proof {
            assert(bits@ =~= self.bits@);
        }
        TermSet { bits, marker: self.marker }
    }

    /// Unions `other` into this set (terminals and marker). Returns whether
    /// anything new was added; the change detector of the fixpoint engines.
    pub fn union_into(&mut self, other: &TermSet) -> (changed: bool)
        requires
            old(self).bits@.len() == other.bits@.len(),
        ensures
            final(self).bits@.len() == old(self).bits@.len(),
            forall|i: int|
                0 <= i < other.bits@.len() ==> (#[trigger] final(self).bits@[i]) == (old(
                    self,
                ).bits@[i] || other.bits@[i]),
            final(self).marker == (old(self).marker || other.marker),
            changed == ((exists|i: int|
                0 <= i < other.bits@.len() && other.bits@[i] && !old(self).bits@[i]) || (other.marker
                && !old(self).marker)),
            pot_set(*final(self)) <= pot_set(*old(self)),
            changed ==> pot_set(*final(self)) < pot_set(*old(self)),
    {
        let n = self.bits.len();
        let mut nb: Vec<bool> = Vec::new();
        let mut changed = false;
        let mut i: usize = 0;
        while i < n
            invariant
                i <= n,
                n == self.bits@.len(),
                n == other.bits@.len(),
                *self == *old(self),
                nb@.len() == i,
                forall|j: int| 0 <= j < i ==> nb@[j] == (self.bits@[j] || other.bits@[j]),
                changed == (exists|j: int| 0 <= j < i && other.bits@[j] && !self.bits@[j]),
                count_false(nb@) <= count_false(self.bits@.take(i as int)),
                changed ==> count_false(nb@) < count_false(self.bits@.take(i as int)),
            decreases n - i,
        {
            let a = self.bits[i];
            let b = other.bits[i];
            if b && !a {
                changed = true;
            }
            let ghost prev = nb@;
            nb.push(a || b);
            proof {
                assert(nb@.drop_last() =~= prev);
                assert(count_false(nb@) == count_false(prev) + if a || b {
                    0nat
                } else {
                    1nat
                });
                lemma_count_false_take(self.bits@, i as int);
            }
            i = i + 1;
        }
        proof {
            assert(self.bits@.take(n as int) =~= self.bits@);
        }
        self.bits = nb;
        if other.marker && !self.marker {
            self.marker = true;
            changed = true;
        }
        changed
    }

    /// Unions only the terminals of `other` into this set, leaving the
    /// marker alone.
    pub fn union_terms(&mut self, other: &TermSet)
        requires
            old(self).bits@.len() == other.bits@.len(),
        ensures
            final(self).bits@.len() == old(self).bits@.len(),
            forall|i: int|
                0 <= i < other.bits@.len() ==> (#[trigger] final(self).bits@[i]) == (old(
                    self,
                ).bits@[i] || other.bits@[i]),
            final(self).marker == old(self).marker,
    {
        let n = self.bits.len();
        let mut nb: Vec<bool> = Vec::new();
        let mut i: usize = 0;
        while i < n
            invariant
                i <= n,
                n == self.bits@.len(),
                n == other.bits@.len(),
                *self == *old(self),
                nb@.len() == i,
                forall|j: int| 0 <= j < i ==> nb@[j] == (self.bits@[j] || other.bits@[j]),
            decreases n - i,
        {
            let a = self.bits[i];
            let b = other.bits[i];
            nb.push(a || b);
            i = i + 1;
        }
        self.bits = nb;
    }

    /// Whether some terminal is in both sets; the marker does not count.
    pub fn overlaps(&self, other: &TermSet) -> (r: bool)
        requires
            self.bits@.len() == other.bits@.len(),
        ensures
            r == exists|i: int| 0 <= i < self.bits@.len() && self.bits@[i] && other.bits@[i],
    {
        let n = self.bits.len();
        let mut i: usize = 0;
        while i < n
            invariant
                i <= n,
                n == self.bits@.len(),
                n == other.bits@.len(),
                forall|j: int| 0 <= j < i ==> !(self.bits@[j] && other.bits@[j]),
            decreases n - i,
        {
            if self.bits[i] && other.bits[i] {
                return true;
            }
            i = i + 1;
        }
        false
    }

    /// Whether the terminal with the given index is in the set.
    pub fn has_index(&self, i: usize) -> (r: bool)
        ensures
            r == (i < self.bits@.len() && self.bits@[i as int]),
    {
        i < self.bits.len() && self.bits[i]
    }

    /// Whether the marker (epsilon or end-of-input) is in the set.
    pub fn has_marker(&self) -> (r: bool)
        ensures
            r == self.marker,
    {
        self.marker
    }
}

/// Index of the first name with the given label, or -1 when there is none.
pub open spec fn find_name(names: Seq<NonTerm>, label: Seq<char>) -> int
    decreases names.len(),
{
    if names.len() == 0 {
        -1
    } else if names[0].0@ == label {
        0
    } else {
        let r = find_name(names.drop_first(), label);
        if r < 0 {
            -1
        } else {
            1 + r
        }
    }
}

pub proof fn lemma_find_name_props(names: Seq<NonTerm>, label: Seq<char>)
    ensures
        find_name(names, label) == -1 ==> forall|i: int|
            0 <= i < names.len() ==> names[i].0@ != label,
        find_name(names, label) >= 0 ==> {
            let r = find_name(names, label);
            &&& r < names.len()
            &&& names[r].0@ == label
            &&& forall|i: int| 0 <= i < r ==> names[i].0@ != label
        },
    decreases names.len(),
{
    if names.len() > 0 {
        lemma_find_name_props(names.drop_first(), label);
        if names[0].0@ != label {
            if find_name(names, label) == -1 {
                assert forall|i: int| 0 <= i < names.len() implies names[i].0@ != label by {
                    if i >= 1 {
                        assert(names.drop_first()[i - 1] == names[i]);
                    }
                }
            } else {
                let r = find_name(names, label);
                assert(names.drop_first()[r - 1] == names[r]);
                assert forall|i: int| 0 <= i < r implies names[i].0@ != label by {
                    if i >= 1 {
                        assert(names.drop_first()[i - 1] == names[i]);
                    }
                }
            }
        }
    }
}

/// Index of the first terminal with the given label, or -1 when there is
/// none.
pub open spec fn find_term(terms: Seq<Term>, label: Seq<char>) -> int
    decreases terms.len(),
{
    if terms.len() == 0 {
        -1
    } else if terms[0].0@ == label {
        0
    } else {
        let r = find_term(terms.drop_first(), label);
        if r < 0 {
            -1
        } else {
            1 + r
        }
    }
}

pub proof fn lemma_find_term_props(terms: Seq<Term>, label: Seq<char>)
    ensures
        find_term(terms, label) == -1 ==> forall|i: int|
            0 <= i < terms.len() ==> terms[i].0@ != label,
        find_term(terms, label) >= 0 ==> {
            let r = find_term(terms, label);
            &&& r < terms.len()
            &&& terms[r].0@ == label
            &&& forall|i: int| 0 <= i < r ==> terms[i].0@ != label
        },
    decreases terms.len(),
{
    if terms.len() > 0 {
        lemma_find_term_props(terms.drop_first(), label);
        if terms[0].0@ != label {
            if find_term(terms, label) == -1 {
                assert forall|i: int| 0 <= i < terms.len() implies terms[i].0@ != label by {
                    if i >= 1 {
                        assert(terms.drop_first()[i - 1] == terms[i]);
                    }
                }
            } else {
                let r = find_term(terms, label);
                assert(terms.drop_first()[r - 1] == terms[r]);
                assert forall|i: int| 0 <= i < r implies terms[i].0@ != label by {
                    if i >= 1 {
                        assert(terms.drop_first()[i - 1] == terms[i]);
                    }
                }
            }
        }
    }
}

pub fn find_name_exec(names: &Vec<NonTerm>, label: &String) -> (r: Option<usize>)
    ensures
        r is Some <==> find_name(names@, label@) >= 0,
        r is Some ==> r->0 == find_name(names@, label@) && r->0 < names@.len(),
{
    proof {
        lemma_find_name_props(names@, label@);
    }
    let mut i: usize = 0;
    while i < names.len()
        invariant
            i <= names@.len(),
            forall|j: int| 0 <= j < i ==> names@[j].0@ != label@,
        decreases names.len() - i,
    {
        if names[i].0 == *label {
            return Some(i);
        }
        i = i + 1;
    }
    None
}

pub fn find_term_exec(terms: &Vec<Term>, label: &String) -> (r: Option<usize>)
    ensures
        r is Some <==> find_term(terms@, label@) >= 0,
        r is Some ==> r->0 == find_term(terms@, label@) && r->0 < terms@.len(),
{
    proof {
        lemma_find_term_props(terms@, label@);
    }
    let mut i: usize = 0;
    while i < terms.len()
        invariant
            i <= terms@.len(),
            forall|j: int| 0 <= j < i ==> terms@[j].0@ != label@,
        decreases terms.len() - i,
    {
        if terms[i].0 == *label {
            return Some(i);
        }
        i = i + 1;
    }
    None
}

/// FIRST of the node sequence `nodes` from position `i` on, read over the
/// given per-nonterminal sets: the direct recurrence of the specification.
/// The marker of the result means epsilon. A nonterminal without a set
/// contributes the empty set.
pub open spec fn spec_first(
    nodes: Seq<Node>,
    i: int,
    terms: Seq<Term>,
    names: Seq<NonTerm>,
    sets: Seq<SymSet>,
) -> SymSet
    decreases nodes.len() - i,
{
    if i < 0 || i >= nodes.len() {
        SymSet { terms: Set::empty(), marker: true }
    } else {
        match nodes[i] {
            Node::Term(t, _) => {
                let ti = find_term(terms, t.0@);
                if ti >= 0 {
                    SymSet { terms: set![ti], marker: false }
                } else {
                    SymSet::empty()
                }
            },
            Node::NonTerm { node, .. } => {
                let ni = find_name(names, node.0@);
                let f = if 0 <= ni < sets.len() {
                    sets[ni]
                } else {
                    SymSet::empty()
                };
                if f.marker {
                    let rest = spec_first(nodes, i + 1, terms, names, sets);
                    SymSet { terms: f.terms.union(rest.terms), marker: rest.marker }
                } else {
                    f
                }
            },
        }
    }
}

/// Pointwise inclusion of whole tables.
pub open spec fn sets_subset(a: Seq<SymSet>, b: Seq<SymSet>) -> bool {
    a.len() == b.len() && forall|k: int| 0 <= k < a.len() ==> #[trigger] a[k].subset_of(b[k])
}

/// FIRST is monotone in the per-nonterminal sets.
pub proof fn lemma_spec_first_monotone(
    nodes: Seq<Node>,
    i: int,
    terms: Seq<Term>,
    names: Seq<NonTerm>,
    s1: Seq<SymSet>,
    s2: Seq<SymSet>,
)
    requires
        sets_subset(s1, s2),
    ensures
        spec_first(nodes, i, terms, names, s1).subset_of(spec_first(nodes, i, terms, names, s2)),
    decreases nodes.len() - i,
{
    if 0 <= i < nodes.len() {
        match nodes[i] {
            Node::Term(t, _) => {},
            Node::NonTerm { node, .. } => {
                lemma_spec_first_monotone(nodes, i + 1, terms, names, s1, s2);
                let ni = find_name(names, node.0@);
                if 0 <= ni < s1.len() {
                    assert(s1[ni].subset_of(s2[ni]));
                    let f1 = s1[ni];
                    let f2 = s2[ni];
                    let r1 = spec_first(nodes, i + 1, terms, names, s1);
                    let r2 = spec_first(nodes, i + 1, terms, names, s2);
                    if f1.marker {
                        assert(f1.terms.union(r1.terms).subset_of(f2.terms.union(r2.terms)));
                    } else if f2.marker {
                        assert(f1.terms.subset_of(f2.terms.union(r2.terms)));
                    }
                }
            },
        }
    }
}

} // verus!

verus! {

/// One step of terminal interning: a terminal node not seen yet is appended.
pub open spec fn add_node_terms(acc: Seq<Term>, n: Node) -> Seq<Term> {
    match n {
        Node::Term(t, _) => if find_term(acc, t.0@) >= 0 {
            acc
        } else {
            acc.push(t)
        },
        Node::NonTerm { .. } => acc,
    }
}

pub open spec fn add_nodes_terms(acc: Seq<Term>, nodes: Seq<Node>) -> Seq<Term>
    decreases nodes.len(),
{
    if nodes.len() == 0 {
        acc
    } else {
        add_node_terms(add_nodes_terms(acc, nodes.drop_last()), nodes.last())
    }
}

pub open spec fn add_rules_terms(acc: Seq<Term>, rules: Seq<Rule>) -> Seq<Term>
    decreases rules.len(),
{
    if rules.len() == 0 {
        acc
    } else {
        add_nodes_terms(add_rules_terms(acc, rules.drop_last()), rules.last().nodes@)
    }
}

pub open spec fn add_defs_terms(acc: Seq<Term>, defs: Seq<NonTermDef>) -> Seq<Term>
    decreases defs.len(),
{
    if defs.len() == 0 {
        acc
    } else {
        add_rules_terms(add_defs_terms(acc, defs.drop_last()), defs.last().rules@)
    }
}

/// The terminals of the grammar, in order of first appearance.
pub open spec fn spec_collect_terms(g: Grammar) -> Seq<Term> {
    add_defs_terms(Seq::empty(), g.nonterms@)
}

proof fn lemma_add_nodes_take(acc: Seq<Term>, nodes: Seq<Node>, i: int)
    requires
        0 <= i < nodes.len(),
    ensures
        add_nodes_terms(acc, nodes.take(i + 1)) == add_node_terms(
            add_nodes_terms(acc, nodes.take(i)),
            nodes[i],
        ),
{
    assert(nodes.take(i + 1).drop_last() =~= nodes.take(i));
    assert(nodes.take(i + 1).last() == nodes[i]);
}

proof fn lemma_add_rules_take(acc: Seq<Term>, rules: Seq<Rule>, i: int)
    requires
        0 <= i < rules.len(),
    ensures
        add_rules_terms(acc, rules.take(i + 1)) == add_nodes_terms(
            add_rules_terms(acc, rules.take(i)),
            rules[i].nodes@,
        ),
{
    assert(rules.take(i + 1).drop_last() =~= rules.take(i));
    assert(rules.take(i + 1).last() == rules[i]);
}

proof fn lemma_add_defs_take(acc: Seq<Term>, defs: Seq<NonTermDef>, i: int)
    requires
        0 <= i < defs.len(),
    ensures
        add_defs_terms(acc, defs.take(i + 1)) == add_rules_terms(
            add_defs_terms(acc, defs.take(i)),
            defs[i].rules@,
        ),
{
    assert(defs.take(i + 1).drop_last() =~= defs.take(i));
    assert(defs.take(i + 1).last() == defs[i]);
}

/// Interns the grammar's terminals: every terminal label that appears in
/// some rule, in order of first appearance.
pub fn collect_terms(g: &Grammar) -> (r: Vec<Term>)
    ensures
        r@ == spec_collect_terms(*g),
{
    let mut acc: Vec<Term> = Vec::new();
    let mut d: usize = 0;
    while d < g.nonterms.len()
        invariant
            d <= g.nonterms@.len(),
            acc@ == add_defs_terms(Seq::empty(), g.nonterms@.take(d as int)),
        decreases g.nonterms@.len() - d,
    {
        let ghost acc_d = acc@;
        let def = &g.nonterms[d];
        let mut rj: usize = 0;
        while rj < def.rules.len()
            invariant
                rj <= def.rules@.len(),
                acc@ == add_rules_terms(acc_d, def.rules@.take(rj as int)),
            decreases def.rules@.len() - rj,
        {
            let ghost acc_r = acc@;
            let rule = &def.rules[rj];
            let mut ni: usize = 0;
            while ni < rule.nodes.len()
                invariant
                    ni <= rule.nodes@.len(),
                    acc@ == add_nodes_terms(acc_r, rule.nodes@.take(ni as int)),
                decreases rule.nodes@.len() - ni,
            {
                match &rule.nodes[ni] {
                    Node::Term(t, _) => {
                        match find_term_exec(&acc, &t.0) {
                            Some(_) => {},
                            None => {
                                let t2 = t.duplicate();
                                acc.push(t2);
                            },
                        }
                    },
                    Node::NonTerm { .. } => {},
                }
                proof {
                    lemma_add_nodes_take(acc_r, rule.nodes@, ni as int);
                }
                ni = ni + 1;
            }
            proof {
                assert(rule.nodes@.take(rule.nodes@.len() as int) =~= rule.nodes@);
                lemma_add_rules_take(acc_d, def.rules@, rj as int);
            }
            rj = rj + 1;
        }
        proof {
            assert(def.rules@.take(def.rules@.len() as int) =~= def.rules@);
            lemma_add_defs_take(Seq::empty(), g.nonterms@, d as int);
        }
        d = d + 1;
    }
    proof {
        assert(g.nonterms@.take(g.nonterms@.len() as int) =~= g.nonterms@);
    }
    acc
}

/// One step of nonterminal interning.
pub open spec fn add_def_name(acc: Seq<NonTerm>, d: NonTermDef) -> Seq<NonTerm> {
    if find_name(acc, d.name.0@) >= 0 {
        acc
    } else {
        acc.push(d.name)
    }
}

pub open spec fn add_defs_names(acc: Seq<NonTerm>, defs: Seq<NonTermDef>) -> Seq<NonTerm>
    decreases defs.len(),
{
    if defs.len() == 0 {
        acc
    } else {
        add_def_name(add_defs_names(acc, defs.drop_last()), defs.last())
    }
}

/// The distinct nonterminal names of the grammar, in order of first
/// definition.
pub open spec fn spec_collect_names(g: Grammar) -> Seq<NonTerm> {
    add_defs_names(Seq::empty(), g.nonterms@)
}

proof fn lemma_add_names_take(acc: Seq<NonTerm>, defs: Seq<NonTermDef>, i: int)
    requires
        0 <= i < defs.len(),
    ensures
        add_defs_names(acc, defs.take(i + 1)) == add_def_name(
            add_defs_names(acc, defs.take(i)),
            defs[i],
        ),
{
    assert(defs.take(i + 1).drop_last() =~= defs.take(i));
    assert(defs.take(i + 1).last() == defs[i]);
}

proof fn lemma_find_name_push(names: Seq<NonTerm>, x: NonTerm, label: Seq<char>)
    ensures
        find_name(names, label) >= 0 ==> find_name(names.push(x), label) >= 0,
        x.0@ == label ==> find_name(names.push(x), label) >= 0,
    decreases names.len(),
{
    if names.len() == 0 {
        assert(names.push(x)[0] == x);
    } else {
        if names[0].0@ == label {
        } else {
            assert(names.push(x).drop_first() =~= names.drop_first().push(x));
            lemma_find_name_push(names.drop_first(), x, label);
        }
    }
}

/// Every definition's name resolves in the interned name list.
pub proof fn lemma_names_complete(g: Grammar)
    ensures
        forall|d: int|
            0 <= d < g.nonterms@.len() ==> 0 <= find_name(
                spec_collect_names(g),
                #[trigger] g.nonterms@[d].name.0@,
            ) < spec_collect_names(g).len(),
{
    assert forall|d: int| 0 <= d < g.nonterms@.len() implies 0 <= find_name(
        spec_collect_names(g),
        #[trigger] g.nonterms@[d].name.0@,
    ) < spec_collect_names(g).len() by {
        lemma_names_complete_step(Seq::empty(), g.nonterms@, d);
        lemma_find_name_props(spec_collect_names(g), g.nonterms@[d].name.0@);
    }
}

proof fn lemma_names_complete_step(acc: Seq<NonTerm>, defs: Seq<NonTermDef>, d: int)
    requires
        0 <= d < defs.len(),
    ensures
        find_name(add_defs_names(acc, defs), defs[d].name.0@) >= 0,
    decreases defs.len(),
{
    let prev = add_defs_names(acc, defs.drop_last());
    if d == defs.len() - 1 {
        if find_name(prev, defs[d].name.0@) >= 0 {
        } else {
            lemma_find_name_push(prev, defs.last().name, defs[d].name.0@);
        }
    } else {
        assert(defs.drop_last()[d] == defs[d]);
        lemma_names_complete_step(acc, defs.drop_last(), d);
        lemma_find_name_push(prev, defs.last().name, defs[d].name.0@);
    }
}

/// Interns the grammar's nonterminal names, in order of first definition.
pub fn collect_names(g: &Grammar) -> (r: Vec<NonTerm>)
    ensures
        r@ == spec_collect_names(*g),
{
    let mut acc: Vec<NonTerm> = Vec::new();
    let mut d: usize = 0;
    while d < g.nonterms.len()
        invariant
            d <= g.nonterms@.len(),
            acc@ == add_defs_names(Seq::empty(), g.nonterms@.take(d as int)),
        decreases g.nonterms@.len() - d,
    {
        let def = &g.nonterms[d];
        match find_name_exec(&acc, &def.name.0) {
            Some(_) => {},
            None => {
                let n2 = def.name.duplicate();
                acc.push(n2);
            },
        }
        proof {
            lemma_add_names_take(Seq::empty(), g.nonterms@, d as int);
        }
        d = d + 1;
    }
    proof {
        assert(g.nonterms@.take(g.nonterms@.len() as int) =~= g.nonterms@);
    }
    acc
}

} // verus!

verus! {

/// The views of a whole table of sets.
pub open spec fn views_of(sets: Seq<TermSet>) -> Seq<SymSet> {
    sets.map_values(|s: TermSet| s@)
}

/// An analysis table: the interned terminals and nonterminal names, and one
/// set per interned nonterminal.
pub struct SymTable {
    pub terms: Vec<Term>,
    pub names: Vec<NonTerm>,
    pub sets: Vec<TermSet>,
}

/// FIRST per nonterminal; the marker means epsilon.
pub type FirstMap = SymTable;

/// FOLLOW per nonterminal; the marker means the end-of-input marker.
pub type FollowMap = SymTable;

impl SymTable {
    /// One set per name, all bit vectors as long as the terminal list.
    pub open spec fn wf(&self) -> bool {
        &&& self.sets@.len() == self.names@.len()
        &&& forall|k: int|
            0 <= k < self.sets@.len() ==> (#[trigger] self.sets@[k].bits@.len())
                == self.terms@.len()
    }

    pub open spec fn views(&self) -> Seq<SymSet> {
        views_of(self.sets@)
    }

    /// Whether the set of `name` holds the terminal labelled `label`.
    pub fn holds(&self, name: &String, label: &String) -> (r: bool)
        requires
            self.wf(),
        ensures
            r == {
                let k = find_name(self.names@, name@);
                let t = find_term(self.terms@, label@);
                &&& 0 <= k < self.views().len()
                &&& self.views()[k].terms.contains(t)
            },
    {
        let k = match find_name_exec(&self.names, name) {
            Some(k) => k,
            None => {
                return false;
            },
        };
        let t = match find_term_exec(&self.terms, label) {
            Some(t) => t,
            None => {
                proof {
                    lemma_find_term_props(self.terms@, label@);
                }
                return false;
            },
        };
        self.sets[k].has_index(t)
    }

    /// Whether the set of `name` holds the marker (epsilon in FIRST,
    /// end-of-input in FOLLOW).
    pub fn holds_marker(&self, name: &String) -> (r: bool)
        requires
            self.wf(),
        ensures
            r == {
                let k = find_name(self.names@, name@);
                &&& 0 <= k < self.views().len()
                &&& self.views()[k].marker
            },
    {
        match find_name_exec(&self.names, name) {
            Some(k) => self.sets[k].has_marker(),
            None => false,
        }
    }
}

/// The FIRST of rule `rj` of definition `d` is already inside the
/// definition's set.
pub open spec fn rule_ok(
    g: Grammar,
    terms: Seq<Term>,
    names: Seq<NonTerm>,
    sets: Seq<SymSet>,
    d: int,
    rj: int,
) -> bool {
    let ni = find_name(names, g.nonterms@[d].name.0@);
    &&& 0 <= ni < sets.len()
    &&& spec_first(g.nonterms@[d].rules@[rj].nodes@, 0, terms, names, sets).subset_of(sets[ni])
}

/// Every rule's FIRST is already inside its nonterminal's set: no round of
/// the fixpoint engine would add anything.
pub open spec fn first_closed(
    g: Grammar,
    terms: Seq<Term>,
    names: Seq<NonTerm>,
    sets: Seq<SymSet>,
) -> bool {
    forall|d: int, rj: int|
        0 <= d < g.nonterms@.len() && 0 <= rj < g.nonterms@[d].rules@.len() ==> #[trigger] rule_ok(
            g,
            terms,
            names,
            sets,
            d,
            rj,
        )
}

/// The tables are the FIRST analysis of the grammar: the interned symbols,
/// and the least fixpoint of the FIRST recurrence.
pub open spec fn is_first_for(
    g: Grammar,
    terms: Seq<Term>,
    names: Seq<NonTerm>,
    sets: Seq<SymSet>,
) -> bool {
    &&& terms == spec_collect_terms(g)
    &&& names == spec_collect_names(g)
    &&& sets.len() == names.len()
    &&& first_closed(g, terms, names, sets)
    &&& forall|other: Seq<SymSet>|
        other.len() == names.len() && #[trigger] first_closed(g, terms, names, other)
            ==> sets_subset(sets, other)
}

fn first_from(
    nodes: &[Node],
    i: usize,
    terms: &Vec<Term>,
    names: &Vec<NonTerm>,
    sets: &Vec<TermSet>,
) -> (r: TermSet)
    requires
        i <= nodes@.len(),
        sets@.len() == names@.len(),
        forall|k: int| 0 <= k < sets@.len() ==> (#[trigger] sets@[k].bits@.len()) == terms@.len(),
    ensures
        r.bits@.len() == terms@.len(),
        r@ == spec_first(nodes@, i as int, terms@, names@, views_of(sets@)),
    decreases nodes@.len() - i,
{
    let ghost goal = spec_first(nodes@, i as int, terms@, names@, views_of(sets@));
    if i == nodes.len() {
        let r = TermSet::new_empty(terms.len(), true);
        proof {
            assert(r@.terms =~= goal.terms);
        }
        r
    } else {
        match &nodes[i] {
            Node::Term(t, _) => {
                match find_term_exec(terms, &t.0) {
                    Some(ti) => {
                        let r = TermSet::singleton(terms.len(), ti);
                        proof {
                            assert(r@.terms =~= goal.terms);
                        }
                        r
                    },
                    None => {
                        let r = TermSet::new_empty(terms.len(), false);
                        proof {
                            assert(r@.terms =~= goal.terms);
                        }
                        r
                    },
                }
            },
            Node::NonTerm { node, .. } => {
                match find_name_exec(names, &node.0) {
                    Some(ni) => {
                        let f = &sets[ni];
                        proof {
                            assert(views_of(sets@)[ni as int] == f@);
                        }
                        if f.has_marker() {
                            proof {
                                assert(sets@[ni as int].bits@.len() == terms@.len());
                            }
                            let mut rest = first_from(nodes, i + 1, terms, names, sets);
                            let ghost prevb = rest.bits@;
                            let ghost rspec = spec_first(nodes@, i + 1, terms@, names@, views_of(sets@));
                            rest.union_terms(f);
                            proof {
                                assert(goal.terms == f@.terms.union(rspec.terms));
                                assert(goal.marker == rspec.marker);
                                assert forall|j: int|
                                    rest@.terms.contains(j) <==> goal.terms.contains(j) by {
                                    if 0 <= j < terms@.len() {
                                        assert(f.bits@.len() == terms@.len());
                                        assert(prevb.len() == terms@.len());
                                        assert(rest.bits@[j] == (prevb[j] || f.bits@[j]));
                                        assert(rspec.terms.contains(j) == prevb[j]);
                                    } else {
                                        assert(!rest@.terms.contains(j));
                                        assert(!f@.terms.contains(j));
                                        assert(!rspec.terms.contains(j));
                                    }
                                }
                                assert(rest@.terms =~= goal.terms);
                            }
                            rest
                        } else {
                            let r = f.duplicate();
                            proof {
                                assert(r@.terms =~= goal.terms);
                            }
                            r
                        }
                    },
                    None => {
                        let r = TermSet::new_empty(terms.len(), false);
                        proof {
                            assert(r@.terms =~= goal.terms);
                        }
                        r
                    },
                }
            },
        }
    }
}

/// FIRST of a node sequence, read over an already computed FIRST table.
pub fn first(nodes: &[Node], fst: &FirstMap) -> (r: TermSet)
    requires
        fst.wf(),
    ensures
        r.bits@.len() == fst.terms@.len(),
        r@ == spec_first(nodes@, 0, fst.terms@, fst.names@, fst.views()),
{
    first_from(nodes, 0, &fst.terms, &fst.names, &fst.sets)
}

} // verus!

verus! {

impl Grammar {
    /// Computes FIRST for every nonterminal by naive fixpoint iteration.
    /// The result is exactly the least fixpoint of the FIRST recurrence:
    /// it is closed under every rule's contribution, and it is contained in
    /// every closed table.
    pub fn build_first(&self) -> (r: FirstMap)
        ensures
            r.wf(),
            r.terms@ == spec_collect_terms(*self),
            r.names@ == spec_collect_names(*self),
            is_first_for(*self, r.terms@, r.names@, r.views()),
    {
        let terms = collect_terms(self);
        let names = collect_names(self);
        proof {
            lemma_names_complete(*self);
        }
        let n_terms = terms.len();
        let mut sets: Vec<TermSet> = Vec::new();
        let mut k: usize = 0;
        while k < names.len()
            invariant
                k <= names@.len(),
                sets@.len() == k,
                forall|j: int|
                    0 <= j < k ==> (#[trigger] sets@[j].bits@.len()) == terms@.len()
                        && !sets@[j].marker && forall|i: int|
                        0 <= i < terms@.len() ==> !sets@[j].bits@[i],
            decreases names@.len() - k,
        {
            let s = TermSet::new_empty(n_terms, false);
            sets.push(s);
            k = k + 1;
        }
        proof {
            assert forall|other: Seq<SymSet>|
                other.len() == names@.len() && #[trigger] first_closed(
                    *self,
                    terms@,
                    names@,
                    other,
                ) implies sets_subset(views_of(sets@), other) by {
                assert forall|k2: int| 0 <= k2 < names@.len() implies (#[trigger] views_of(
                    sets@,
                )[k2]).subset_of(other[k2]) by {
                    assert(views_of(sets@)[k2] == sets@[k2]@);
                    assert(views_of(sets@)[k2].terms =~= Set::<int>::empty());
                }
            }
        }
        let mut changed = true;
        while changed
            invariant
                sets@.len() == names@.len(),
                forall|j: int| 0 <= j < sets@.len() ==> (#[trigger] sets@[j].bits@.len()) == terms@.len(),
                forall|other: Seq<SymSet>|
                    other.len() == names@.len() && #[trigger] first_closed(
                        *self,
                        terms@,
                        names@,
                        other,
                    ) ==> sets_subset(views_of(sets@), other),
                !changed ==> first_closed(*self, terms@, names@, views_of(sets@)),
            decreases pot_all(sets@) + if changed {
                1nat
            } else {
                0nat
            },
        {
            changed = false;
            let ghost pot0 = pot_all(sets@);
            let mut d: usize = 0;
            while d < self.nonterms.len()
                invariant
                    d <= self.nonterms@.len(),
                    sets@.len() == names@.len(),
                    forall|j: int|
                        0 <= j < sets@.len() ==> (#[trigger] sets@[j].bits@.len())
                            == terms@.len(),
                    forall|other: Seq<SymSet>|
                        other.len() == names@.len() && #[trigger] first_closed(
                            *self,
                            terms@,
                            names@,
                            other,
                        ) ==> sets_subset(views_of(sets@), other),
                    pot_all(sets@) <= pot0,
                    changed ==> pot_all(sets@) < pot0,
                    !changed ==> forall|d2: int, rj2: int|
                        0 <= d2 < d && 0 <= rj2 < self.nonterms@[d2].rules@.len()
                            ==> #[trigger] rule_ok(
                            *self,
                            terms@,
                            names@,
                            views_of(sets@),
                            d2,
                            rj2,
                        ),
                decreases self.nonterms@.len() - d,
            {
                let def = &self.nonterms[d];
                let mut rj: usize = 0;
                while rj < def.rules.len()
                    invariant
                        rj <= def.rules@.len(),
                        sets@.len() == names@.len(),
                        forall|j: int|
                            0 <= j < sets@.len() ==> (#[trigger] sets@[j].bits@.len())
                                == terms@.len(),
                        forall|other: Seq<SymSet>|
                            other.len() == names@.len() && #[trigger] first_closed(
                                *self,
                                terms@,
                                names@,
                                other,
                            ) ==> sets_subset(views_of(sets@), other),
                        pot_all(sets@) <= pot0,
                        changed ==> pot_all(sets@) < pot0,
                        !changed ==> forall|d2: int, rj2: int|
                            0 <= d2 < d && 0 <= rj2 < self.nonterms@[d2].rules@.len()
                                ==> #[trigger] rule_ok(
                                *self,
                                terms@,
                                names@,
                                views_of(sets@),
                                d2,
                                rj2,
                            ),
                        !changed ==> forall|rj2: int|
                            0 <= rj2 < rj ==> #[trigger] rule_ok(
                                *self,
                                terms@,
                                names@,
                                views_of(sets@),
                                d as int,
                                rj2,
                            ),
                    decreases def.rules@.len() - rj,
                {
                    let rule = &def.rules[rj];
                    let new = first_from(rule.nodes.as_slice(), 0, &terms, &names, &sets);
                    let k = match find_name_exec(&names, &def.name.0) {
                        Some(k) => k,
                        None => {
                            proof {
                                assert(false);
                            }
                            vstd::pervasive::unreached()
                        },
                    };
                    let ghost prev_sets = sets@;
                    let ghost prev_views = views_of(sets@);
                    let mut cur = sets.remove(k);
                    let ch = cur.union_into(&new);
                    let ghost curg = cur;
                    sets.insert(k, cur);
                    proof {
                        assert(sets@ =~= prev_sets.update(k as int, curg));
                        assert(views_of(sets@) =~= prev_views.update(k as int, curg@));
                        lemma_pot_all_update(prev_sets, k as int, curg);
                        // the new contribution is forced into every closed table
                        assert forall|other: Seq<SymSet>|
                            other.len() == names@.len() && #[trigger] first_closed(
                                *self,
                                terms@,
                                names@,
                                other,
                            ) implies sets_subset(views_of(sets@), other) by {
                            assert(sets_subset(prev_views, other));
                            lemma_spec_first_monotone(
                                rule.nodes@,
                                0,
                                terms@,
                                names@,
                                prev_views,
                                other,
                            );
                            assert(rule_ok(*self, terms@, names@, other, d as int, rj as int));
                            assert(new@.subset_of(other[k as int]));
                            assert forall|k2: int|
                                0 <= k2 < names@.len() implies (#[trigger] views_of(
                                sets@,
                            )[k2]).subset_of(other[k2]) by {
                                if k2 == k as int {
                                    assert(prev_views[k2].subset_of(other[k2]));
                                    assert forall|x: int| curg@.terms.contains(x) implies other[k2].terms.contains(x) by {
                                        assert(curg.bits@[x] == (prev_sets[k2].bits@[x] || new.bits@[x]));
                                        assert(prev_views[k2].terms.contains(x) || new@.terms.contains(x));
                                    }
                                } else {
                                    assert(views_of(sets@)[k2] == prev_views[k2]);
                                }
                            }
                        }
                        if !ch {
                            assert forall|i: int| 0 <= i < terms@.len() implies curg.bits@[i]
                                == prev_sets[k as int].bits@[i] by {
                                assert(curg.bits@[i] == (prev_sets[k as int].bits@[i]
                                    || new.bits@[i]));
                            }
                            assert(curg.bits@ =~= prev_sets[k as int].bits@);
                            assert(curg@ == prev_views[k as int]);
                            assert(views_of(sets@) =~= prev_views);
                            // the processed rule is closed in the unchanged table
                            assert forall|x: int| new@.terms.contains(x) implies curg@.terms.contains(x) by {
                                assert(curg.bits@[x] == (prev_sets[k as int].bits@[x] || new.bits@[x]));
                            }
                            assert(rule_ok(*self, terms@, names@, views_of(sets@), d as int, rj as int));
                        }
                    }
                    if ch {
                        changed = true;
                    }
                    rj = rj + 1;
                }
                proof {
                    assert forall|d2: int, rj2: int|
                        !changed && 0 <= d2 < d + 1 && 0 <= rj2
                            < self.nonterms@[d2].rules@.len() implies #[trigger] rule_ok(
                        *self,
                        terms@,
                        names@,
                        views_of(sets@),
                        d2,
                        rj2,
                    ) by {}
                }
                d = d + 1;
            }
            proof {
                if !changed {
                    assert(first_closed(*self, terms@, names@, views_of(sets@)));
                }
            }
        }
        let r = SymTable { terms, names, sets };
        proof {
            assert(r.views() == views_of(r.sets@));
        }
        r
    }
}

} // verus!

verus! {

fn dup_terms(v: &Vec<Term>) -> (r: Vec<Term>)
    ensures
        r@ == v@,
{
    let mut r: Vec<Term> = Vec::new();
    let mut i: usize = 0;
    while i < v.len()
        invariant
            i <= v@.len(),
            r@.len() == i,
            forall|j: int| 0 <= j < i ==> r@[j] == v@[j],
        decreases v@.len() - i,
    {
        let t = v[i].duplicate();
        r.push(t);
        i = i + 1;
    }
    proof {
        assert(r@ =~= v@);
    }
    r
}

fn dup_names(v: &Vec<NonTerm>) -> (r: Vec<NonTerm>)
    ensures
        r@ == v@,
{
    let mut r: Vec<NonTerm> = Vec::new();
    let mut i: usize = 0;
    while i < v.len()
        invariant
            i <= v@.len(),
            r@.len() == i,
            forall|j: int| 0 <= j < i ==> r@[j] == v@[j],
        decreases v@.len() - i,
    {
        let t = v[i].duplicate();
        r.push(t);
        i = i + 1;
    }
    proof {
        assert(r@ =~= v@);
    }
    r
}

/// An exported entry point has the end-of-input marker in its FOLLOW set.
pub open spec fn entry_ok(g: Grammar, names: Seq<NonTerm>, m: Seq<SymSet>, d: int) -> bool {
    g.nonterms@[d].is_pub ==> {
        let ai = find_name(names, g.nonterms@[d].name.0@);
        &&& 0 <= ai < m.len()
        &&& m[ai].marker
    }
}

/// The FOLLOW obligation of one nonterminal occurrence: for a rule
/// `A -> alpha B beta`, FIRST(beta) without epsilon is inside FOLLOW(B), and
/// if beta can derive epsilon, FOLLOW(A) is inside FOLLOW(B).
pub open spec fn edge_ok(
    g: Grammar,
    terms: Seq<Term>,
    names: Seq<NonTerm>,
    fstv: Seq<SymSet>,
    m: Seq<SymSet>,
    d: int,
    rj: int,
    p: int,
) -> bool {
    match g.nonterms@[d].rules@[rj].nodes@[p] {
        Node::NonTerm { node, .. } => {
            let bi = find_name(names, node.0@);
            let ai = find_name(names, g.nonterms@[d].name.0@);
            bi >= 0 ==> {
                let f = spec_first(g.nonterms@[d].rules@[rj].nodes@, p + 1, terms, names, fstv);
                &&& 0 <= bi < m.len()
                &&& 0 <= ai < m.len()
                &&& f.terms.subset_of(m[bi].terms)
                &&& (f.marker ==> m[ai].subset_of(m[bi]))
            }
        },
        Node::Term(..) => true,
    }
}

/// No round of the FOLLOW fixpoint engine would add anything.
pub open spec fn follow_closed(
    g: Grammar,
    terms: Seq<Term>,
    names: Seq<NonTerm>,
    fstv: Seq<SymSet>,
    m: Seq<SymSet>,
) -> bool {
    &&& forall|d: int| 0 <= d < g.nonterms@.len() ==> #[trigger] entry_ok(g, names, m, d)
    &&& forall|d: int, rj: int, p: int|
        0 <= d < g.nonterms@.len() && 0 <= rj < g.nonterms@[d].rules@.len() && 0 <= p
            < g.nonterms@[d].rules@[rj].nodes@.len() ==> #[trigger] edge_ok(
            g,
            terms,
            names,
            fstv,
            m,
            d,
            rj,
            p,
        )
}

/// The table `m` is the FOLLOW analysis of the grammar over the FIRST sets
/// `fstv`: the least table that holds the end marker at every entry point
/// and is closed under the FOLLOW flow.
pub open spec fn is_follow_for(
    g: Grammar,
    terms: Seq<Term>,
    names: Seq<NonTerm>,
    fstv: Seq<SymSet>,
    m: Seq<SymSet>,
) -> bool {
    &&& m.len() == names.len()
    &&& follow_closed(g, terms, names, fstv, m)
    &&& forall|other: Seq<SymSet>|
        other.len() == names.len() && #[trigger] follow_closed(g, terms, names, fstv, other)
            ==> sets_subset(m, other)
}


/// One FOLLOW flow step: for the occurrence of nonterminal `bi` at position
/// `p` of rule `rj` of definition `d`, unions FIRST of the tail (without
/// epsilon) and, when the tail can derive epsilon, the definition's own
/// FOLLOW set into FOLLOW of the occurrence.
fn follow_step(
    g: &Grammar,
    fst: &FirstMap,
    sets: &mut Vec<TermSet>,
    d: usize,
    rj: usize,
    p: usize,
    ai: usize,
    bi: usize,
) -> (ch: bool)
    requires
        fst.wf(),
        d < g.nonterms@.len(),
        rj < g.nonterms@[d as int].rules@.len(),
        p < g.nonterms@[d as int].rules@[rj as int].nodes@.len(),
        g.nonterms@[d as int].rules@[rj as int].nodes@[p as int] is NonTerm,
        ai == find_name(fst.names@, g.nonterms@[d as int].name.0@),
        bi == find_name(
            fst.names@,
            g.nonterms@[d as int].rules@[rj as int].nodes@[p as int]->NonTerm_node.0@,
        ),
        old(sets)@.len() == fst.names@.len(),
        forall|j: int|
            0 <= j < old(sets)@.len() ==> (#[trigger] old(sets)@[j].bits@.len())
                == fst.terms@.len(),
        ai < old(sets)@.len(),
        bi < old(sets)@.len(),
    ensures
        final(sets)@.len() == old(sets)@.len(),
        forall|j: int|
            0 <= j < final(sets)@.len() ==> (#[trigger] final(sets)@[j].bits@.len())
                == fst.terms@.len(),
        forall|j: int|
            0 <= j < final(sets)@.len() ==> (#[trigger] views_of(old(sets)@)[j]).subset_of(
                views_of(final(sets)@)[j],
            ),
        pot_all(final(sets)@) <= pot_all(old(sets)@),
        ch ==> pot_all(final(sets)@) < pot_all(old(sets)@),
        !ch ==> views_of(final(sets)@) == views_of(old(sets)@),
        !ch ==> edge_ok(
            *g,
            fst.terms@,
            fst.names@,
            fst.views(),
            views_of(final(sets)@),
            d as int,
            rj as int,
            p as int,
        ),
        forall|other: Seq<SymSet>|
            other.len() == fst.names@.len() && #[trigger] follow_closed(
                *g,
                fst.terms@,
                fst.names@,
                fst.views(),
                other,
            ) && sets_subset(views_of(old(sets)@), other) ==> sets_subset(
                views_of(final(sets)@),
                other,
            ),
{
    let def = &g.nonterms[d];
    let rule = &def.rules[rj];
    let nn = rule.nodes.len();
    assert(p < nn);
    let frest = first_from(rule.nodes.as_slice(), p + 1, &fst.terms, &fst.names, &fst.sets);
    let fm = frest.has_marker();
    let ghost fspec = frest@;
    let ghost fbits = frest.bits@;
    let mut to_add = TermSet { bits: frest.bits, marker: false };
    if fm {
        let fa = sets[ai].duplicate();
        let _ = to_add.union_into(&fa);
    }
    proof {
        assert forall|x: int| 0 <= x < fst.terms@.len() implies to_add.bits@[x] == (
        fspec.terms.contains(x) || (fm && views_of(sets@)[ai as int].terms.contains(x))) by {
            if fm {
                assert(to_add.bits@[x] == (fbits[x] || sets@[ai as int].bits@[x]));
            }
        }
        assert(to_add.marker == (fm && views_of(sets@)[ai as int].marker));
        assert(to_add.bits@.len() == fst.terms@.len());
    }
    let ghost prev_sets = sets@;
    let ghost prev_views = views_of(sets@);
    let mut cur = sets.remove(bi);
    let ch = cur.union_into(&to_add);
    let ghost curg = cur;
    sets.insert(bi, cur);
    proof {
        assert(sets@ =~= prev_sets.update(bi as int, curg));
        assert(views_of(sets@) =~= prev_views.update(bi as int, curg@));
        lemma_pot_all_update(prev_sets, bi as int, curg);
        assert forall|j: int| 0 <= j < sets@.len() implies (#[trigger] prev_views[j]).subset_of(
            views_of(sets@)[j],
        ) by {
            if j == bi as int {
                assert forall|x: int|
                    prev_views[j].terms.contains(x) implies curg@.terms.contains(x) by {
                    assert(curg.bits@[x] == (prev_sets[j].bits@[x] || to_add.bits@[x]));
                }
            }
        }
        // what was added is forced into every closed table that already
        // holds the previous state
        assert forall|other: Seq<SymSet>|
            other.len() == fst.names@.len() && #[trigger] follow_closed(
                *g,
                fst.terms@,
                fst.names@,
                fst.views(),
                other,
            ) && sets_subset(prev_views, other) implies sets_subset(views_of(sets@), other) by {
            assert(edge_ok(
                *g,
                fst.terms@,
                fst.names@,
                fst.views(),
                other,
                d as int,
                rj as int,
                p as int,
            ));
            assert forall|k2: int|
                0 <= k2 < other.len() implies (#[trigger] views_of(sets@)[k2]).subset_of(
                other[k2],
            ) by {
                assert(prev_views[k2].subset_of(other[k2]));
                if k2 == bi as int {
                    assert(fspec.terms.subset_of(other[bi as int].terms));
                    assert(prev_views[ai as int].subset_of(other[ai as int]));
                    assert forall|x: int|
                        curg@.terms.contains(x) implies other[k2].terms.contains(x) by {
                        assert(curg.bits@[x] == (prev_sets[k2].bits@[x] || to_add.bits@[x]));
                        if to_add.bits@[x] && !fspec.terms.contains(x) {
                            assert(fm && prev_views[ai as int].terms.contains(x));
                            assert(other[ai as int].subset_of(other[bi as int]));
                        }
                    }
                    if curg.marker && !prev_sets[k2].marker {
                        assert(to_add.marker);
                        assert(prev_views[ai as int].marker);
                        assert(other[ai as int].marker);
                        assert(other[ai as int].subset_of(other[bi as int]));
                    }
                }
            }
        }
        if !ch {
            assert forall|i: int| 0 <= i < fst.terms@.len() implies curg.bits@[i]
                == prev_sets[bi as int].bits@[i] by {
                assert(curg.bits@[i] == (prev_sets[bi as int].bits@[i] || to_add.bits@[i]));
            }
            assert(curg.bits@ =~= prev_sets[bi as int].bits@);
            assert(curg@ == prev_views[bi as int]);
            assert(views_of(sets@) =~= prev_views);
            assert forall|x: int| fspec.terms.contains(x) implies curg@.terms.contains(x) by {
                assert(to_add.bits@[x]);
                assert(curg.bits@[x] == (prev_sets[bi as int].bits@[x] || to_add.bits@[x]));
            }
            if fspec.marker {
                assert forall|x: int|
                    views_of(sets@)[ai as int].terms.contains(x) implies curg@.terms.contains(
                    x,
                ) by {
                    assert(to_add.bits@[x]);
                    assert(curg.bits@[x] == (prev_sets[bi as int].bits@[x] || to_add.bits@[x]));
                }
            }
            assert(edge_ok(
                *g,
                fst.terms@,
                fst.names@,
                fst.views(),
                views_of(sets@),
                d as int,
                rj as int,
                p as int,
            ));
        }
    }
    ch
}

} // verus!

verus! {

impl Grammar {
    /// Computes FOLLOW for every nonterminal over the given FIRST table, by
    /// naive fixpoint iteration. The result is the least table that has the
    /// end-of-input marker at every exported entry point and is closed under
    /// the FOLLOW flow of every rule.
    pub fn build_follow(&self, fst: &FirstMap) -> (r: FollowMap)
        requires
            fst.wf(),
            fst.terms@ == spec_collect_terms(*self),
            fst.names@ == spec_collect_names(*self),
        ensures
            r.wf(),
            r.terms@ == fst.terms@,
            r.names@ == fst.names@,
            is_follow_for(*self, fst.terms@, fst.names@, fst.views(), r.views()),
    {
        proof {
            lemma_names_complete(*self);
        }
        let n_terms = fst.terms.len();
        let n_names = fst.names.len();
        let mut sets: Vec<TermSet> = Vec::new();
        let mut k: usize = 0;
        while k < n_names
            invariant
                k <= n_names,
                sets@.len() == k,
                forall|j: int|
                    0 <= j < k ==> (#[trigger] sets@[j].bits@.len()) == fst.terms@.len(),
                forall|j: int| 0 <= j < k ==> !(#[trigger] sets@[j].marker),
                forall|j: int, i: int|
                    0 <= j < k && 0 <= i < fst.terms@.len() ==> !(#[trigger] sets@[j].bits@[i]),
            decreases n_names - k,
        {
            let s = TermSet::new_empty(n_terms, false);
            sets.push(s);
            k = k + 1;
        }
        // the end-of-input marker seeds every exported entry point
        let mut d: usize = 0;
        while d < self.nonterms.len()
            invariant
                d <= self.nonterms@.len(),
                sets@.len() == fst.names@.len(),
                forall|j: int|
                    0 <= j < sets@.len() ==> (#[trigger] sets@[j].bits@.len())
                        == fst.terms@.len(),
                forall|j: int, i: int|
                    0 <= j < sets@.len() && 0 <= i < fst.terms@.len() ==> !(
                    #[trigger] sets@[j].bits@[i]),
                forall|j: int|
                    0 <= j < sets@.len() && (#[trigger] sets@[j].marker) ==> exists|d2: int|
                        0 <= d2 < d && self.nonterms@[d2].is_pub && find_name(
                            fst.names@,
                            self.nonterms@[d2].name.0@,
                        ) == j,
                forall|d2: int|
                    0 <= d2 < d ==> #[trigger] entry_ok(*self, fst.names@, views_of(sets@), d2),
            decreases self.nonterms@.len() - d,
        {
            if self.nonterms[d].is_pub {
                let k = match find_name_exec(&fst.names, &self.nonterms[d].name.0) {
                    Some(k) => k,
                    None => {
                        proof {
                            assert(false);
                        }
                        vstd::pervasive::unreached()
                    },
                };
                let ghost prev_sets = sets@;
                let ghost prev_views = views_of(sets@);
                let cur = sets.remove(k);
                let cur = TermSet { bits: cur.bits, marker: true };
                let ghost curg = cur;
                sets.insert(k, cur);
                proof {
                    assert(sets@ =~= prev_sets.update(k as int, curg));
                    assert(views_of(sets@) =~= prev_views.update(k as int, curg@));
                    assert(curg.bits@ == prev_sets[k as int].bits@);
                    assert forall|d2: int| 0 <= d2 < d + 1 implies #[trigger] entry_ok(
                        *self,
                        fst.names@,
                        views_of(sets@),
                        d2,
                    ) by {
                        if self.nonterms@[d2].is_pub {
                            let a2 = find_name(fst.names@, self.nonterms@[d2].name.0@);
                            if d2 < d {
                                assert(entry_ok(*self, fst.names@, prev_views, d2));
                                if a2 == k as int {
                                    assert(views_of(sets@)[a2].marker);
                                } else {
                                    assert(views_of(sets@)[a2] == prev_views[a2]);
                                }
                            } else {
                                assert(a2 == k as int);
                                assert(views_of(sets@)[a2].marker);
                            }
                        }
                    }
                }
            }
            d = d + 1;
        }
        proof {
            assert forall|other: Seq<SymSet>|
                other.len() == fst.names@.len() && #[trigger] follow_closed(
                    *self,
                    fst.terms@,
                    fst.names@,
                    fst.views(),
                    other,
                ) implies sets_subset(views_of(sets@), other) by {
                assert forall|k2: int| 0 <= k2 < fst.names@.len() implies (#[trigger] views_of(
                    sets@,
                )[k2]).subset_of(other[k2]) by {
                    assert(views_of(sets@)[k2] == sets@[k2]@);
                    assert(views_of(sets@)[k2].terms =~= Set::<int>::empty());
                    if sets@[k2].marker {
                        let d2 = choose|d2: int|
                            0 <= d2 < self.nonterms@.len() && self.nonterms@[d2].is_pub
                                && find_name(fst.names@, self.nonterms@[d2].name.0@) == k2;
                        assert(entry_ok(*self, fst.names@, other, d2));
                    }
                }
            }
        }
        let mut changed = true;
        while changed
            invariant
                sets@.len() == fst.names@.len(),
                forall|j: int|
                    0 <= j < sets@.len() ==> (#[trigger] sets@[j].bits@.len())
                        == fst.terms@.len(),
                forall|other: Seq<SymSet>|
                    other.len() == fst.names@.len() && #[trigger] follow_closed(
                        *self,
                        fst.terms@,
                        fst.names@,
                        fst.views(),
                        other,
                    ) ==> sets_subset(views_of(sets@), other),
                forall|d2: int|
                    0 <= d2 < self.nonterms@.len() ==> #[trigger] entry_ok(
                        *self,
                        fst.names@,
                        views_of(sets@),
                        d2,
                    ),
                !changed ==> follow_closed(
                    *self,
                    fst.terms@,
                    fst.names@,
                    fst.views(),
                    views_of(sets@),
                ),
            decreases pot_all(sets@) + if changed {
                1nat
            } else {
                0nat
            },
        {
            changed = false;
            let ghost pot0 = pot_all(sets@);
            let mut d: usize = 0;
            while d < self.nonterms.len()
                invariant
                    d <= self.nonterms@.len(),
                    sets@.len() == fst.names@.len(),
                    forall|j: int|
                        0 <= j < sets@.len() ==> (#[trigger] sets@[j].bits@.len())
                            == fst.terms@.len(),
                    forall|other: Seq<SymSet>|
                        other.len() == fst.names@.len() && #[trigger] follow_closed(
                            *self,
                            fst.terms@,
                            fst.names@,
                            fst.views(),
                            other,
                        ) ==> sets_subset(views_of(sets@), other),
                    forall|d2: int|
                        0 <= d2 < self.nonterms@.len() ==> #[trigger] entry_ok(
                            *self,
                            fst.names@,
                            views_of(sets@),
                            d2,
                        ),
                    pot_all(sets@) <= pot0,
                    changed ==> pot_all(sets@) < pot0,
                    !changed ==> forall|d2: int, rj2: int, p2: int|
                        0 <= d2 < d && 0 <= rj2 < self.nonterms@[d2].rules@.len() && 0 <= p2
                            < self.nonterms@[d2].rules@[rj2].nodes@.len() ==> #[trigger] edge_ok(
                            *self,
                            fst.terms@,
                            fst.names@,
                            fst.views(),
                            views_of(sets@),
                            d2,
                            rj2,
                            p2,
                        ),
                decreases self.nonterms@.len() - d,
            {
                let ai = match find_name_exec(&fst.names, &self.nonterms[d].name.0) {
                    Some(ai) => ai,
                    None => {
                        proof {
                            assert(false);
                        }
                        vstd::pervasive::unreached()
                    },
                };
                let n_rules = self.nonterms[d].rules.len();
                let mut rj: usize = 0;
                while rj < n_rules
                    invariant
                        rj <= n_rules,
                        n_rules == self.nonterms@[d as int].rules@.len(),
                        sets@.len() == fst.names@.len(),
                        forall|j: int|
                            0 <= j < sets@.len() ==> (#[trigger] sets@[j].bits@.len())
                                == fst.terms@.len(),
                        forall|other: Seq<SymSet>|
                            other.len() == fst.names@.len() && #[trigger] follow_closed(
                                *self,
                                fst.terms@,
                                fst.names@,
                                fst.views(),
                                other,
                            ) ==> sets_subset(views_of(sets@), other),
                        forall|d2: int|
                            0 <= d2 < self.nonterms@.len() ==> #[trigger] entry_ok(
                                *self,
                                fst.names@,
                                views_of(sets@),
                                d2,
                            ),
                        pot_all(sets@) <= pot0,
                        changed ==> pot_all(sets@) < pot0,
                        !changed ==> forall|d2: int, rj2: int, p2: int|
                            0 <= d2 < d && 0 <= rj2 < self.nonterms@[d2].rules@.len() && 0 <= p2
                                < self.nonterms@[d2].rules@[rj2].nodes@.len()
                                ==> #[trigger] edge_ok(
                                *self,
                                fst.terms@,
                                fst.names@,
                                fst.views(),
                                views_of(sets@),
                                d2,
                                rj2,
                                p2,
                            ),
                        !changed ==> forall|rj2: int, p2: int|
                            0 <= rj2 < rj && 0 <= p2
                                < self.nonterms@[d as int].rules@[rj2].nodes@.len()
                                ==> #[trigger] edge_ok(
                                *self,
                                fst.terms@,
                                fst.names@,
                                fst.views(),
                                views_of(sets@),
                                d as int,
                                rj2,
                                p2,
                            ),
                    decreases n_rules - rj,
                {
                    let n_nodes = self.nonterms[d].rules[rj].nodes.len();
                    let mut p: usize = 0;
                    while p < n_nodes
                        invariant
                            p <= n_nodes,
                            n_nodes == self.nonterms@[d as int].rules@[rj as int].nodes@.len(),
                            sets@.len() == fst.names@.len(),
                            forall|j: int|
                                0 <= j < sets@.len() ==> (#[trigger] sets@[j].bits@.len())
                                    == fst.terms@.len(),
                            forall|other: Seq<SymSet>|
                                other.len() == fst.names@.len() && #[trigger] follow_closed(
                                    *self,
                                    fst.terms@,
                                    fst.names@,
                                    fst.views(),
                                    other,
                                ) ==> sets_subset(views_of(sets@), other),
                            forall|d2: int|
                                0 <= d2 < self.nonterms@.len() ==> #[trigger] entry_ok(
                                    *self,
                                    fst.names@,
                                    views_of(sets@),
                                    d2,
                                ),
                            pot_all(sets@) <= pot0,
                            changed ==> pot_all(sets@) < pot0,
                            !changed ==> forall|d2: int, rj2: int, p2: int|
                                0 <= d2 < d && 0 <= rj2 < self.nonterms@[d2].rules@.len() && 0
                                    <= p2 < self.nonterms@[d2].rules@[rj2].nodes@.len()
                                    ==> #[trigger] edge_ok(
                                    *self,
                                    fst.terms@,
                                    fst.names@,
                                    fst.views(),
                                    views_of(sets@),
                                    d2,
                                    rj2,
                                    p2,
                                ),
                            !changed ==> forall|rj2: int, p2: int|
                                0 <= rj2 < rj && 0 <= p2
                                    < self.nonterms@[d as int].rules@[rj2].nodes@.len()
                                    ==> #[trigger] edge_ok(
                                    *self,
                                    fst.terms@,
                                    fst.names@,
                                    fst.views(),
                                    views_of(sets@),
                                    d as int,
                                    rj2,
                                    p2,
                                ),
                            !changed ==> forall|p2: int|
                                0 <= p2 < p ==> #[trigger] edge_ok(
                                    *self,
                                    fst.terms@,
                                    fst.names@,
                                    fst.views(),
                                    views_of(sets@),
                                    d as int,
                                    rj as int,
                                    p2,
                                ),
                        decreases n_nodes - p,
                    {
                        let ghost pre_views = views_of(sets@);
                        let mut step_changed = false;
                        match &self.nonterms[d].rules[rj].nodes[p] {
                            Node::Term(..) => {},
                            Node::NonTerm { node, .. } => {
                                match find_name_exec(&fst.names, &node.0) {
                                    None => {},
                                    Some(bi) => {
                                        let ch = follow_step(self, fst, &mut sets, d, rj, p, ai, bi);
                                        if ch {
                                            step_changed = true;
                                        }
                                    },
                                }
                            },
                        }
                        proof {
                            assert forall|d2: int|
                                0 <= d2 < self.nonterms@.len() implies #[trigger] entry_ok(
                                *self,
                                fst.names@,
                                views_of(sets@),
                                d2,
                            ) by {
                                assert(entry_ok(*self, fst.names@, pre_views, d2));
                                if self.nonterms@[d2].is_pub {
                                    let a2 = find_name(fst.names@, self.nonterms@[d2].name.0@);
                                    assert(pre_views[a2].subset_of(views_of(sets@)[a2]));
                                }
                            }
                            if step_changed {
                            } else {
                                assert(views_of(sets@) == pre_views);
                                assert(edge_ok(
                                    *self,
                                    fst.terms@,
                                    fst.names@,
                                    fst.views(),
                                    views_of(sets@),
                                    d as int,
                                    rj as int,
                                    p as int,
                                ));
                            }
                        }
                        if step_changed {
                            changed = true;
                        }
                        p = p + 1;
                    }
                    rj = rj + 1;
                }
                d = d + 1;
            }
        }
        let terms = dup_terms(&fst.terms);
        let names = dup_names(&fst.names);
        let r = SymTable { terms, names, sets };
        r
    }
}

} // verus!

verus! {

/// Two least fixpoints of the FIRST recurrence are the same table.
pub proof fn lemma_first_unique(
    g: Grammar,
    terms: Seq<Term>,
    names: Seq<NonTerm>,
    s1: Seq<SymSet>,
    s2: Seq<SymSet>,
)
    requires
        is_first_for(g, terms, names, s1),
        is_first_for(g, terms, names, s2),
    ensures
        s1 == s2,
{
    assert(sets_subset(s1, s2));
    assert(sets_subset(s2, s1));
    assert forall|k: int| 0 <= k < s1.len() implies s1[k] == s2[k] by {
        assert(s1[k].subset_of(s2[k]));
        assert(s2[k].subset_of(s1[k]));
        assert(s1[k].terms =~= s2[k].terms);
        assert(s1[k] =~= s2[k]);
    }
    assert(s1 =~= s2);
}

/// Two least FOLLOW tables over the same FIRST sets are the same table.
pub proof fn lemma_follow_unique(
    g: Grammar,
    terms: Seq<Term>,
    names: Seq<NonTerm>,
    fstv: Seq<SymSet>,
    m1: Seq<SymSet>,
    m2: Seq<SymSet>,
)
    requires
        is_follow_for(g, terms, names, fstv, m1),
        is_follow_for(g, terms, names, fstv, m2),
    ensures
        m1 == m2,
{
    assert(sets_subset(m1, m2));
    assert(sets_subset(m2, m1));
    assert forall|k: int| 0 <= k < m1.len() implies m1[k] == m2[k] by {
        assert(m1[k].subset_of(m2[k]));
        assert(m2[k].subset_of(m1[k]));
        assert(m1[k].terms =~= m2[k].terms);
        assert(m1[k] =~= m2[k]);
    }
    assert(m1 =~= m2);
}

/// Whether two sets share an element.
pub open spec fn overlap(a: Set<int>, b: Set<int>) -> bool {
    exists|x: int| #![trigger a.contains(x), b.contains(x)] a.contains(x) && b.contains(x)
}

proof fn lemma_overlap_bits(a: &TermSet, b: &TermSet)
    requires
        a.bits@.len() == b.bits@.len(),
    ensures
        overlap(a@.terms, b@.terms) == (exists|i: int|
            0 <= i < a.bits@.len() && a.bits@[i] && b.bits@[i]),
{
    if overlap(a@.terms, b@.terms) {
        let x = choose|x: int|
            #![trigger a@.terms.contains(x), b@.terms.contains(x)]
            a@.terms.contains(x) && b@.terms.contains(x);
        assert(0 <= x < a.bits@.len() && a.bits@[x] && b.bits@[x]);
    }
    if exists|i: int| 0 <= i < a.bits@.len() && a.bits@[i] && b.bits@[i] {
        let i = choose|i: int| 0 <= i < a.bits@.len() && a.bits@[i] && b.bits@[i];
        assert(a@.terms.contains(i) && b@.terms.contains(i));
    }
}

/// The LL(1) conflict condition for the ordered rule pair `i < j` of
/// definition `d`: their FIRST sets intersect (epsilon included), or one can
/// derive epsilon and the other's FIRST meets FOLLOW of the definition with
/// the end marker left out.
pub open spec fn spec_conflict(
    g: Grammar,
    terms: Seq<Term>,
    names: Seq<NonTerm>,
    fstv: Seq<SymSet>,
    flwv: Seq<SymSet>,
    d: int,
    i: int,
    j: int,
) -> bool {
    let f1 = spec_first(g.nonterms@[d].rules@[i].nodes@, 0, terms, names, fstv);
    let f2 = spec_first(g.nonterms@[d].rules@[j].nodes@, 0, terms, names, fstv);
    let ai = find_name(names, g.nonterms@[d].name.0@);
    let fl = if 0 <= ai < flwv.len() {
        flwv[ai].terms
    } else {
        Set::empty()
    };
    ||| overlap(f1.terms, f2.terms)
    ||| (f1.marker && f2.marker)
    ||| (f1.marker && overlap(f2.terms, fl))
    ||| (f2.marker && overlap(f1.terms, fl))
}

/// A conflict at a valid position.
pub open spec fn conflict_at(
    g: Grammar,
    terms: Seq<Term>,
    names: Seq<NonTerm>,
    fstv: Seq<SymSet>,
    flwv: Seq<SymSet>,
    d: int,
    i: int,
    j: int,
) -> bool {
    &&& 0 <= d < g.nonterms@.len()
    &&& 0 <= i < j < g.nonterms@[d].rules@.len()
    &&& spec_conflict(g, terms, names, fstv, flwv, d, i, j)
}

/// Scan order of the pairwise conflict check: definitions in declaration
/// order, rule pairs in lexicographic order.
pub open spec fn lex_before(d1: int, i1: int, j1: int, d2: int, i2: int, j2: int) -> bool {
    ||| d1 < d2
    ||| (d1 == d2 && i1 < i2)
    ||| (d1 == d2 && i1 == i2 && j1 < j2)
}

/// The grammar passes the LL(1) check: no pair of rules of any nonterminal
/// conflicts.
pub open spec fn ll1_ok(
    g: Grammar,
    terms: Seq<Term>,
    names: Seq<NonTerm>,
    fstv: Seq<SymSet>,
    flwv: Seq<SymSet>,
) -> bool {
    forall|d: int, i: int, j: int| !(#[trigger] conflict_at(g, terms, names, fstv, flwv, d, i, j))
}

} // verus!

verus! {

/// What `check_ll1` promises, for any tables that are the FIRST and FOLLOW
/// analysis of the grammar: `Ok` exactly when no rule pair conflicts, and an
/// error names the first conflict in scan order, with the nonterminal and
/// the two offending right-hand sides.
pub open spec fn check_result_ok(
    g: Grammar,
    r: Result<(), (NonTerm, &[Node], &[Node])>,
    terms: Seq<Term>,
    names: Seq<NonTerm>,
    fstv: Seq<SymSet>,
    flwv: Seq<SymSet>,
) -> bool {
    match r {
        Ok(()) => ll1_ok(g, terms, names, fstv, flwv),
        Err((n, r1, r2)) => exists|d: int, i: int, j: int|
            #![trigger conflict_at(g, terms, names, fstv, flwv, d, i, j)]
            {
                &&& conflict_at(g, terms, names, fstv, flwv, d, i, j)
                &&& n == g.nonterms@[d].name
                &&& r1@ == g.nonterms@[d].rules@[i].nodes@
                &&& r2@ == g.nonterms@[d].rules@[j].nodes@
                &&& forall|d2: int, i2: int, j2: int|
                    lex_before(d2, i2, j2, d, i, j) ==> !(#[trigger] conflict_at(
                        g,
                        terms,
                        names,
                        fstv,
                        flwv,
                        d2,
                        i2,
                        j2,
                    ))
            },
    }
}

impl Grammar {
    /// The LL(1) conflict check: scans every unordered pair of distinct
    /// rules of every nonterminal, in declaration order, and reports the
    /// first conflict as the nonterminal and the two offending right-hand
    /// sides.
    pub fn check_ll1<'a>(&'a self) -> (r: Result<(), (NonTerm, &'a [Node], &'a [Node])>)
        ensures
            forall|terms: Seq<Term>, names: Seq<NonTerm>, fstv: Seq<SymSet>, flwv: Seq<SymSet>|
                #![trigger is_first_for(*self, terms, names, fstv), is_follow_for(*self, terms, names, fstv, flwv)]
                is_first_for(*self, terms, names, fstv) && is_follow_for(
                    *self,
                    terms,
                    names,
                    fstv,
                    flwv,
                ) ==> check_result_ok(*self, r, terms, names, fstv, flwv),
    {
        let fst = self.build_first();
        let flw = self.build_follow(&fst);
        proof {
            lemma_names_complete(*self);
        }
        let mut d: usize = 0;
        while d < self.nonterms.len()
            invariant
                d <= self.nonterms@.len(),
                forall|d2: int, i2: int, j2: int|
                    d2 < d ==> !(#[trigger] conflict_at(
                        *self,
                        fst.terms@,
                        fst.names@,
                        fst.views(),
                        flw.views(),
                        d2,
                        i2,
                        j2,
                    )),
            decreases self.nonterms@.len() - d,
        {
            let ad = match find_name_exec(&fst.names, &self.nonterms[d].name.0) {
                Some(ad) => ad,
                None => {
                    proof {
                        assert(false);
                    }
                    vstd::pervasive::unreached()
                },
            };
            let n_rules = self.nonterms[d].rules.len();
            let mut i: usize = 0;
            while i < n_rules
                invariant
                    i <= n_rules,
                    n_rules == self.nonterms@[d as int].rules@.len(),
                    d < self.nonterms@.len(),
                    ad == find_name(fst.names@, self.nonterms@[d as int].name.0@),
                    ad < flw.sets@.len(),
                    forall|d2: int, i2: int, j2: int|
                        d2 < d ==> !(#[trigger] conflict_at(
                            *self,
                            fst.terms@,
                            fst.names@,
                            fst.views(),
                            flw.views(),
                            d2,
                            i2,
                            j2,
                        )),
                    forall|i2: int, j2: int|
                        i2 < i ==> !(#[trigger] conflict_at(
                            *self,
                            fst.terms@,
                            fst.names@,
                            fst.views(),
                            flw.views(),
                            d as int,
                            i2,
                            j2,
                        )),
                decreases n_rules - i,
            {
                let f1 = first(self.nonterms[d].rules[i].nodes.as_slice(), &fst);
                let mut j: usize = i + 1;
                while j < n_rules
                    invariant
                        i < j <= n_rules,
                        n_rules == self.nonterms@[d as int].rules@.len(),
                        d < self.nonterms@.len(),
                        ad == find_name(fst.names@, self.nonterms@[d as int].name.0@),
                        ad < flw.sets@.len(),
                        f1.bits@.len() == fst.terms@.len(),
                        f1@ == spec_first(
                            self.nonterms@[d as int].rules@[i as int].nodes@,
                            0,
                            fst.terms@,
                            fst.names@,
                            fst.views(),
                        ),
                        forall|d2: int, i2: int, j2: int|
                            d2 < d ==> !(#[trigger] conflict_at(
                                *self,
                                fst.terms@,
                                fst.names@,
                                fst.views(),
                                flw.views(),
                                d2,
                                i2,
                                j2,
                            )),
                        forall|i2: int, j2: int|
                            i2 < i ==> !(#[trigger] conflict_at(
                                *self,
                                fst.terms@,
                                fst.names@,
                                fst.views(),
                                flw.views(),
                                d as int,
                                i2,
                                j2,
                            )),
                        forall|j2: int|
                            j2 < j ==> !(#[trigger] conflict_at(
                                *self,
                                fst.terms@,
                                fst.names@,
                                fst.views(),
                                flw.views(),
                                d as int,
                                i as int,
                                j2,
                            )),
                    decreases n_rules - j,
                {
                    let f2 = first(self.nonterms[d].rules[j].nodes.as_slice(), &fst);
                    let fl = &flw.sets[ad];
                    proof {
                        lemma_overlap_bits(&f1, &f2);
                        lemma_overlap_bits(&f2, fl);
                        lemma_overlap_bits(&f1, fl);
                        assert(fl@ == flw.views()[ad as int]);
                    }
                    let c1 = f1.overlaps(&f2) || (f1.has_marker() && f2.has_marker());
                    let c2 = f1.has_marker() && f2.overlaps(fl);
                    let c3 = f2.has_marker() && f1.overlaps(fl);
                    if c1 || c2 || c3 {
                        let name = self.nonterms[d].name.duplicate();
                        let r1 = self.nonterms[d].rules[i].nodes.as_slice();
                        let r2 = self.nonterms[d].rules[j].nodes.as_slice();
                        proof {
                            assert(conflict_at(
                                *self,
                                fst.terms@,
                                fst.names@,
                                fst.views(),
                                flw.views(),
                                d as int,
                                i as int,
                                j as int,
                            ));
                            assert forall|d2: int, i2: int, j2: int|
                                lex_before(d2, i2, j2, d as int, i as int, j as int) implies !(
                            #[trigger] conflict_at(
                                *self,
                                fst.terms@,
                                fst.names@,
                                fst.views(),
                                flw.views(),
                                d2,
                                i2,
                                j2,
                            )) by {}
                        }
                        let r = Err((name, r1, r2));
                        proof {
                            assert forall|
                                terms: Seq<Term>,
                                names: Seq<NonTerm>,
                                fstv: Seq<SymSet>,
                                flwv: Seq<SymSet>,
                            |
                                is_first_for(*self, terms, names, fstv) && is_follow_for(
                                    *self,
                                    terms,
                                    names,
                                    fstv,
                                    flwv,
                                ) implies check_result_ok(*self, r, terms, names, fstv, flwv) by {
                                lemma_first_unique(*self, terms, names, fstv, fst.views());
                                lemma_follow_unique(*self, terms, names, fstv, flwv, flw.views());
                            }
                        }
                        return r;
                    }
                    proof {
                        assert(!spec_conflict(
                            *self,
                            fst.terms@,
                            fst.names@,
                            fst.views(),
                            flw.views(),
                            d as int,
                            i as int,
                            j as int,
                        ));
                    }
                    j = j + 1;
                }
                proof {
                    assert forall|i2: int, j2: int| i2 < i + 1 implies !(#[trigger] conflict_at(
                        *self,
                        fst.terms@,
                        fst.names@,
                        fst.views(),
                        flw.views(),
                        d as int,
                        i2,
                        j2,
                    )) by {}
                }
                i = i + 1;
            }
            d = d + 1;
        }
        let r = Ok(());
        proof {
            assert forall|
                terms: Seq<Term>,
                names: Seq<NonTerm>,
                fstv: Seq<SymSet>,
                flwv: Seq<SymSet>,
            |
                is_first_for(*self, terms, names, fstv) && is_follow_for(
                    *self,
                    terms,
                    names,
                    fstv,
                    flwv,
                ) implies check_result_ok(*self, r, terms, names, fstv, flwv) by {
                lemma_first_unique(*self, terms, names, fstv, fst.views());
                lemma_follow_unique(*self, terms, names, fstv, flwv, flw.views());
            }
        }
        r
    }
}

} // verus!

verus! {

/// The predictive lookahead set of rule `rj` of definition `d`, as the
/// emitted dispatch uses it: the rule's FIRST without epsilon, widened by
/// FOLLOW of the definition when the rule can derive epsilon. `Some(t)` is
/// the interned terminal `t`; `None` is end of input.
pub open spec fn lookahead(
    g: Grammar,
    terms: Seq<Term>,
    names: Seq<NonTerm>,
    fstv: Seq<SymSet>,
    flwv: Seq<SymSet>,
    d: int,
    rj: int,
) -> Set<Option<int>> {
    let f = spec_first(g.nonterms@[d].rules@[rj].nodes@, 0, terms, names, fstv);
    let ai = find_name(names, g.nonterms@[d].name.0@);
    let fl = if 0 <= ai < flwv.len() {
        flwv[ai]
    } else {
        SymSet::empty()
    };
    Set::new(
        |x: Option<int>|
            match x {
                Some(t) => f.terms.contains(t) || (f.marker && fl.terms.contains(t)),
                None => f.marker && fl.marker,
            },
    )
}

/// When the LL(1) check passes, dispatch is deterministic: no token (and not
/// the end of input either) lies in the lookahead sets of two distinct rules
/// of the same nonterminal.
pub proof fn lemma_conflict_free_deterministic(
    g: Grammar,
    terms: Seq<Term>,
    names: Seq<NonTerm>,
    fstv: Seq<SymSet>,
    flwv: Seq<SymSet>,
    d: int,
    i: int,
    j: int,
    x: Option<int>,
)
    requires
        ll1_ok(g, terms, names, fstv, flwv),
        0 <= d < g.nonterms@.len(),
        0 <= i < g.nonterms@[d].rules@.len(),
        0 <= j < g.nonterms@[d].rules@.len(),
        i != j,
        lookahead(g, terms, names, fstv, flwv, d, i).contains(x),
    ensures
        !lookahead(g, terms, names, fstv, flwv, d, j).contains(x),
{
    let lo = if i < j {
        i
    } else {
        j
    };
    let hi = if i < j {
        j
    } else {
        i
    };
    if lookahead(g, terms, names, fstv, flwv, d, j).contains(x) {
        let f1 = spec_first(g.nonterms@[d].rules@[lo].nodes@, 0, terms, names, fstv);
        let f2 = spec_first(g.nonterms@[d].rules@[hi].nodes@, 0, terms, names, fstv);
        let ai = find_name(names, g.nonterms@[d].name.0@);
        let fl = if 0 <= ai < flwv.len() {
            flwv[ai].terms
        } else {
            Set::empty()
        };
        match x {
            None => {
                assert(f1.marker && f2.marker);
            },
            Some(t) => {
                if f1.terms.contains(t) && f2.terms.contains(t) {
                    assert(overlap(f1.terms, f2.terms));
                } else if f1.terms.contains(t) {
                    assert(f2.marker && fl.contains(t));
                    assert(overlap(f1.terms, fl));
                } else if f2.terms.contains(t) {
                    assert(f1.marker && fl.contains(t));
                    assert(overlap(f2.terms, fl));
                } else {
                    assert(f1.marker && f2.marker);
                }
            },
        }
        assert(conflict_at(g, terms, names, fstv, flwv, d, lo, hi));
    }
}

/// The end-of-input marker lies in FOLLOW of a nonterminal exactly when the
/// nonterminal is an exported entry point, or it occurs in some rule with a
/// tail that can derive epsilon and the marker lies in FOLLOW of that rule's
/// nonterminal: the marker reaches exactly what can end a parse from an
/// entry point.
pub proof fn lemma_follow_end_marker(
    g: Grammar,
    terms: Seq<Term>,
    names: Seq<NonTerm>,
    fstv: Seq<SymSet>,
    flwv: Seq<SymSet>,
    d: int,
)
    requires
        names == spec_collect_names(g),
        is_follow_for(g, terms, names, fstv, flwv),
        0 <= d < g.nonterms@.len(),
    ensures
        ({
            let ai = find_name(names, g.nonterms@[d].name.0@);
            flwv[ai].marker <==> {
                ||| exists|d2: int|
                    0 <= d2 < g.nonterms@.len() && (#[trigger] g.nonterms@[d2].is_pub)
                        && find_name(names, g.nonterms@[d2].name.0@) == ai
                ||| exists|d2: int, rj: int, p: int|
                    {
                        &&& 0 <= d2 < g.nonterms@.len()
                        &&& 0 <= rj < g.nonterms@[d2].rules@.len()
                        &&& 0 <= p < g.nonterms@[d2].rules@[rj].nodes@.len()
                        &&& (#[trigger] g.nonterms@[d2].rules@[rj].nodes@[p]) matches
                            Node::NonTerm { node, .. } && find_name(names, node.0@) == ai
                        &&& spec_first(g.nonterms@[d2].rules@[rj].nodes@, p + 1, terms, names, fstv).marker
                        &&& flwv[find_name(names, g.nonterms@[d2].name.0@)].marker
                    }
            }
        }),
{
    lemma_names_complete(g);
    let ai = find_name(names, g.nonterms@[d].name.0@);
    let entry_case = exists|d2: int|
        0 <= d2 < g.nonterms@.len() && (#[trigger] g.nonterms@[d2].is_pub) && find_name(
            names,
            g.nonterms@[d2].name.0@,
        ) == ai;
    let flow_case = exists|d2: int, rj: int, p: int|
        {
            &&& 0 <= d2 < g.nonterms@.len()
            &&& 0 <= rj < g.nonterms@[d2].rules@.len()
            &&& 0 <= p < g.nonterms@[d2].rules@[rj].nodes@.len()
            &&& (#[trigger] g.nonterms@[d2].rules@[rj].nodes@[p]) matches Node::NonTerm {
                node,
                ..
            } && find_name(names, node.0@) == ai
            &&& spec_first(g.nonterms@[d2].rules@[rj].nodes@, p + 1, terms, names, fstv).marker
            &&& flwv[find_name(names, g.nonterms@[d2].name.0@)].marker
        };
    // either case forces the marker, because the table is closed
    if entry_case {
        let d2 = choose|d2: int|
            0 <= d2 < g.nonterms@.len() && (#[trigger] g.nonterms@[d2].is_pub) && find_name(
                names,
                g.nonterms@[d2].name.0@,
            ) == ai;
        assert(entry_ok(g, names, flwv, d2));
        assert(flwv[ai].marker);
    }
    if flow_case {
        let (d2, rj, p) = choose|d2: int, rj: int, p: int|
            {
                &&& 0 <= d2 < g.nonterms@.len()
                &&& 0 <= rj < g.nonterms@[d2].rules@.len()
                &&& 0 <= p < g.nonterms@[d2].rules@[rj].nodes@.len()
                &&& (#[trigger] g.nonterms@[d2].rules@[rj].nodes@[p]) matches Node::NonTerm {
                    node,
                    ..
                } && find_name(names, node.0@) == ai
                &&& spec_first(g.nonterms@[d2].rules@[rj].nodes@, p + 1, terms, names, fstv).marker
                &&& flwv[find_name(names, g.nonterms@[d2].name.0@)].marker
            };
        assert(edge_ok(g, terms, names, fstv, flwv, d2, rj, p));
        assert(flwv[ai].marker);
    }
    // and the marker appears only through those two cases, because the
    // table is least: with the marker taken out at `ai`, it is still closed
    if flwv[ai].marker && !entry_case && !flow_case {
        let m2 = flwv.update(ai, SymSet { terms: flwv[ai].terms, marker: false });
        assert forall|d2: int| 0 <= d2 < g.nonterms@.len() implies #[trigger] entry_ok(
            g,
            names,
            m2,
            d2,
        ) by {
            if g.nonterms@[d2].is_pub {
                let a2 = find_name(names, g.nonterms@[d2].name.0@);
                assert(entry_ok(g, names, flwv, d2));
                if a2 == ai {
                    assert(entry_case);
                }
            }
        }
        assert forall|d2: int, rj: int, p: int|
            0 <= d2 < g.nonterms@.len() && 0 <= rj < g.nonterms@[d2].rules@.len() && 0 <= p
                < g.nonterms@[d2].rules@[rj].nodes@.len() implies #[trigger] edge_ok(
            g,
            terms,
            names,
            fstv,
            m2,
            d2,
            rj,
            p,
        ) by {
            assert(edge_ok(g, terms, names, fstv, flwv, d2, rj, p));
            match g.nonterms@[d2].rules@[rj].nodes@[p] {
                Node::NonTerm { node, .. } => {
                    let bi = find_name(names, node.0@);
                    let a2 = find_name(names, g.nonterms@[d2].name.0@);
                    if bi >= 0 {
                        assert(m2[bi].terms == flwv[bi].terms);
                        assert(m2[a2].terms == flwv[a2].terms);
                        let f = spec_first(
                            g.nonterms@[d2].rules@[rj].nodes@,
                            p + 1,
                            terms,
                            names,
                            fstv,
                        );
                        if f.marker && m2[a2].marker && bi == ai {
                            assert(a2 != ai);
                            assert(flwv[a2].marker);
                            assert(flow_case);
                        }
                    }
                },
                Node::Term(..) => {},
            }
        }
        assert(follow_closed(g, terms, names, fstv, m2));
        assert(sets_subset(flwv, m2));
        assert(flwv[ai].subset_of(m2[ai]));
        assert(false);
    }
}

} // verus!
