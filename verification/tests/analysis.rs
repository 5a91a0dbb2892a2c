use generator::ast::{Grammar, Node, NonTerm, NonTermDef, Rule};
use generator::lexer::Term;

fn t(label: &str) -> Node {
    Node::Term(Term(label.to_string()), None)
}

fn nt(name: &str) -> Node {
    Node::NonTerm { node: NonTerm(name.to_string()), extract_name: None, args: None }
}

fn nt_args(name: &str, args: &str) -> Node {
    Node::NonTerm {
        node: NonTerm(name.to_string()),
        extract_name: None,
        args: Some(args.to_string()),
    }
}

fn rule(nodes: Vec<Node>) -> Rule {
    Rule { nodes, code: "()".to_string() }
}

fn def(name: &str, is_pub: bool, rules: Vec<Rule>) -> NonTermDef {
    NonTermDef {
        name: NonTerm(name.to_string()),
        args: None,
        ret_ty: "()".to_string(),
        rules,
        is_pub,
    }
}

fn arithmetic() -> Grammar {
    Grammar {
        nonterms: vec![
            def("expr", true, vec![rule(vec![nt("prod"), nt("expr_cont")])]),
            def(
                "expr_cont",
                false,
                vec![
                    rule(vec![t("+"), nt("prod"), nt("expr_cont")]),
                    rule(vec![t("-"), nt("prod"), nt("expr_cont")]),
                    rule(vec![]),
                ],
            ),
            def("prod", false, vec![rule(vec![nt("atom"), nt("prod_cont")])]),
            def(
                "prod_cont",
                false,
                vec![
                    rule(vec![t("*"), nt("atom"), nt("prod_cont")]),
                    rule(vec![t("/"), nt("atom"), nt("prod_cont")]),
                    rule(vec![]),
                ],
            ),
            def("atom", false, vec![rule(vec![t("("), nt("expr"), t(")")]), rule(vec![t("number")])]),
        ],
    }
}

#[test]
fn arithmetic_is_ll1() {
    let g = arithmetic();
    assert!(g.check_ll1().is_ok());
}

#[test]
fn arithmetic_first_follow() {
    let g = arithmetic();
    let fst = g.build_first();
    let flw = g.build_follow(&fst);
    let expr = "expr".to_string();
    let expr_cont = "expr_cont".to_string();
    assert!(fst.holds(&expr, &"(".to_string()));
    assert!(fst.holds(&expr, &"number".to_string()));
    assert!(!fst.holds(&expr, &"+".to_string()));
    assert!(!fst.holds_marker(&expr));
    assert!(fst.holds_marker(&expr_cont));
    assert!(fst.holds(&expr_cont, &"+".to_string()));
    // expr is the entry, and it is also what atom parenthesizes
    assert!(flw.holds_marker(&expr));
    assert!(flw.holds(&expr, &")".to_string()));
    // the continuation inherits the end marker from expr
    assert!(flw.holds_marker(&expr_cont));
}

#[test]
fn counting_is_ll1() {
    let g = Grammar {
        nonterms: vec![
            def("expr", true, vec![rule(vec![nt_args("count", "0")])]),
            def(
                "count",
                false,
                vec![rule(vec![t("a"), nt_args("count", "acc+1")]), rule(vec![])],
            ),
        ],
    };
    assert!(g.check_ll1().is_ok());
}

#[test]
fn conflict_is_reported_with_both_arms() {
    let g = Grammar {
        nonterms: vec![def(
            "S",
            true,
            vec![rule(vec![t("a"), nt("B")]), rule(vec![t("a"), nt("C")])],
        )],
    };
    let err = g.check_ll1().unwrap_err();
    assert_eq!(err.0, NonTerm("S".to_string()));
    assert_eq!(err.1, &[t("a"), nt("B")][..]);
    assert_eq!(err.2, &[t("a"), nt("C")][..]);
}

#[test]
fn nullable_follow() {
    let g = Grammar {
        nonterms: vec![
            def("S", true, vec![rule(vec![nt("A"), t("b")])]),
            def("A", false, vec![rule(vec![t("a")]), rule(vec![])]),
        ],
    };
    let fst = g.build_first();
    let flw = g.build_follow(&fst);
    let s = "S".to_string();
    let a = "A".to_string();
    assert!(fst.holds(&a, &"a".to_string()));
    assert!(fst.holds_marker(&a));
    assert!(fst.holds(&s, &"a".to_string()));
    assert!(fst.holds(&s, &"b".to_string()));
    assert!(!fst.holds_marker(&s));
    assert!(flw.holds(&a, &"b".to_string()));
    assert!(!flw.holds_marker(&a));
    assert!(g.check_ll1().is_ok());
}

#[test]
fn end_marker_only_at_entries() {
    // Q is a helper that never ends P's derivations
    let g = Grammar {
        nonterms: vec![
            def("P", true, vec![rule(vec![t("x"), nt("Q"), t("y")])]),
            def("Q", false, vec![rule(vec![t("z")])]),
        ],
    };
    let fst = g.build_first();
    let flw = g.build_follow(&fst);
    assert!(flw.holds_marker(&"P".to_string()));
    assert!(!flw.holds_marker(&"Q".to_string()));
    assert!(flw.holds(&"Q".to_string(), &"y".to_string()));
}

#[test]
fn end_marker_reaches_trailing_helper() {
    // here Q ends every parse of P, so it inherits the end marker
    let g = Grammar {
        nonterms: vec![
            def("P", true, vec![rule(vec![t("x"), nt("Q")])]),
            def("Q", false, vec![rule(vec![t("z")])]),
        ],
    };
    let fst = g.build_first();
    let flw = g.build_follow(&fst);
    assert!(flw.holds_marker(&"P".to_string()));
    assert!(flw.holds_marker(&"Q".to_string()));
}

#[test]
fn undefined_nonterminal_contributes_nothing() {
    let g = Grammar {
        nonterms: vec![def("S", true, vec![rule(vec![nt("missing"), t("a")])])],
    };
    let fst = g.build_first();
    assert!(!fst.holds(&"S".to_string(), &"a".to_string()));
    assert!(!fst.holds_marker(&"S".to_string()));
    assert!(g.check_ll1().is_ok());
}

#[test]
fn first_of_a_node_sequence() {
    let g = arithmetic();
    let fst = g.build_first();
    // atom's first rule is "(" expr ")": FIRST is exactly "("
    let atom_rule = &g.nonterms[4].rules[0].nodes;
    let f = generator::analysis::first(atom_rule, &fst);
    assert!(!f.has_marker());
    // interned in order of first appearance: + - * / ( ) number
    assert!(f.has_index(4));
    assert!(!f.has_index(0));
    assert!(!f.has_index(6));
    // an empty sequence derives epsilon and nothing else
    let empty: Vec<Node> = vec![];
    let fe = generator::analysis::first(&empty, &fst);
    assert!(fe.has_marker());
    for i in 0..7 {
        assert!(!fe.has_index(i));
    }
}
