use generator::ast::{Display, Grammar, Language, Node, NonTerm, NonTermDef, Rule};
use generator::emit::GenError;
use generator::lexer::{Term, TokDesc, Tokens};
use generator::text::{dec_u64, fnv_hash};

fn t(label: &str) -> Node {
    Node::Term(Term(label.to_string()), None)
}

fn nt(name: &str) -> Node {
    Node::NonTerm { node: NonTerm(name.to_string()), extract_name: None, args: None }
}

fn rule(nodes: Vec<Node>, code: &str) -> Rule {
    Rule { nodes, code: code.to_string() }
}

fn def(name: &str, is_pub: bool, rules: Vec<Rule>) -> NonTermDef {
    NonTermDef {
        name: NonTerm(name.to_string()),
        args: None,
        ret_ty: "u64".to_string(),
        rules,
        is_pub,
    }
}

fn small_language() -> Language {
    Language {
        preamble: "use std::collections::HashMap;".to_string(),
        lexer: Tokens {
            mapping: vec![
                (Term("a".to_string()), TokDesc::Token("a".to_string())),
                (Term("number".to_string()), TokDesc::Regex("[0-9]+".to_string())),
            ],
        },
        grammar: Grammar {
            nonterms: vec![def(
                "expr",
                true,
                vec![rule(vec![t("a"), nt("item")], "1"), rule(vec![t("number")], "2")],
            ), def("item", false, vec![rule(vec![t("a")], "3")])],
        },
    }
}

#[test]
fn decimal_rendering() {
    assert_eq!(dec_u64(0), "0");
    assert_eq!(dec_u64(7), "7");
    assert_eq!(dec_u64(1234567890), "1234567890");
    assert_eq!(dec_u64(u64::MAX), "18446744073709551615");
}

#[test]
fn label_hash_values() {
    assert_eq!(fnv_hash(""), 14695981039346656037);
    assert_eq!(fnv_hash("a"), 12638187200555641996);
    assert_eq!(fnv_hash("("), 12638126727416090391);
}

// the token-tag identifier is a pure function of the label
#[test]
fn token_name_is_stable() {
    let t1 = Term("a".to_string());
    let t2 = Term("a".to_string());
    assert_eq!(t1.token_name(), t2.token_name());
    assert_eq!(t1.token_name(), "Tok_12638187200555641996");
    assert_eq!(Term("number".to_string()).token_name(), "Tok_9237349086447201248");
    assert_eq!(t1.check_fn(), "check_Tok_12638187200555641996");
    assert_eq!(t1.parse_fn(), "parse_Tok_12638187200555641996");
    assert_eq!(t1.re_name(), "RE_Tok_12638187200555641996");
}

#[test]
fn display_renders_arms() {
    let nodes = vec![nt("expr"), t("+")];
    assert_eq!(Display(&nodes[..]).render(), "expr \"+ \"");
}

// for equal inputs, generated text is byte-identical
#[test]
fn output_is_byte_stable() {
    let l1 = small_language();
    let l2 = small_language();
    let o1 = l1.generate().unwrap();
    let o2 = l2.generate().unwrap();
    assert_eq!(o1, o2);
    let o3 = l1.generate().unwrap();
    assert_eq!(o1, o3);
}

#[test]
fn output_shape() {
    let l = small_language();
    let out = l.generate().unwrap();
    assert!(out.starts_with("mod parser {\n"));
    assert!(out.ends_with("}\n"));
    assert!(out.contains("use std::collections::HashMap;"));
    assert!(out.contains("pub struct ParserState<'input>"));
    assert!(out.contains("pub enum Token {\n    Tok_12638187200555641996,"));
    assert!(out.contains("static ref RE_Tok_9237349086447201248: Regex = Regex::new(\"[0-9]+\").unwrap();"));
    assert!(out.contains("pub fn parse_expr (parser: &mut ParserState, ) -> Option<u64>"));
    assert!(out.contains("fn parse_item (parser: &mut ParserState, ) -> Option<u64>"));
    assert!(out.contains("Some(Token::Tok_12638187200555641996) => {"));
    assert!(out.contains("let __ = parse_Tok_12638187200555641996 (parser)?;"));
    assert!(out.contains("let __ = parse_item (parser, )?;"));
    assert!(out.contains("Some({ 1 })"));
    assert!(out.contains("_ => None,"));
}

#[test]
fn escaped_literals_in_output() {
    let l = Language {
        preamble: String::new(),
        lexer: Tokens {
            mapping: vec![(Term("\"".to_string()), TokDesc::Token("\"".to_string()))],
        },
        grammar: Grammar { nonterms: vec![] },
    };
    let out = l.generate().unwrap();
    assert!(out.contains("parser.expect(\"\\\"\")"));
    assert!(out.contains("write!(f, \"\\\"\")"));
}

#[test]
fn fragment_error_for_bad_code() {
    let mut l = small_language();
    l.grammar.nonterms[0].rules[0].code = "fn {".to_string();
    match l.generate() {
        Err(GenError::FragmentSyntax(s)) => assert_eq!(s, "fn {"),
        other => panic!("expected a fragment error, got {:?}", other),
    }
}

#[test]
fn fragment_error_for_bad_preamble() {
    let mut l = small_language();
    l.preamble = "mod {".to_string();
    match l.generate() {
        Err(GenError::FragmentSyntax(s)) => assert_eq!(s, "mod {"),
        other => panic!("expected a fragment error, got {:?}", other),
    }
}

#[test]
fn unknown_symbol_error() {
    let mut l = small_language();
    l.grammar.nonterms[0].rules[0].nodes.push(t("zzz"));
    match l.generate() {
        Err(GenError::UnknownSymbol(s)) => assert_eq!(s, "zzz"),
        other => panic!("expected an unknown-symbol error, got {:?}", other),
    }
}

#[test]
fn unknown_nonterminal_error() {
    let mut l = small_language();
    l.grammar.nonterms[0].rules[0].nodes.push(nt("ghost_rule"));
    match l.generate() {
        Err(GenError::UnknownSymbol(s)) => assert_eq!(s, "ghost_rule"),
        other => panic!("expected an unknown-symbol error, got {:?}", other),
    }
}

#[test]
fn duplicate_terminal_error() {
    let mut l = small_language();
    l.lexer.mapping.push((Term("a".to_string()), TokDesc::Token("aa".to_string())));
    match l.generate() {
        Err(GenError::DuplicateDefinition(s)) => assert_eq!(s, "a"),
        other => panic!("expected a duplicate error, got {:?}", other),
    }
}

#[test]
fn duplicate_nonterminal_error() {
    let mut l = small_language();
    let extra = def("expr", false, vec![rule(vec![t("a")], "4")]);
    l.grammar.nonterms.push(extra);
    match l.generate() {
        Err(GenError::DuplicateDefinition(s)) => assert_eq!(s, "expr"),
        other => panic!("expected a duplicate error, got {:?}", other),
    }
}

#[test]
fn empty_rhs_dispatches_on_follow() {
    // count -> "a" count | epsilon, inside a pub entry: the epsilon branch
    // dispatches on FOLLOW(count), which holds the end marker
    let l = Language {
        preamble: String::new(),
        lexer: Tokens {
            mapping: vec![(Term("a".to_string()), TokDesc::Token("a".to_string()))],
        },
        grammar: Grammar {
            nonterms: vec![
                def("expr", true, vec![rule(vec![nt("count")], "c")]),
                def("count", false, vec![rule(vec![t("a"), nt("count")], "c + 1"), rule(vec![], "0")]),
            ],
        },
    };
    let out = l.generate().unwrap();
    assert!(out.contains("None => {\n            Some({ 0 })"));
}

#[test]
fn has_entry_reports_exported_definitions() {
    let l = small_language();
    assert!(l.grammar.has_entry());
    let g2 = Grammar { nonterms: vec![def("quiet", false, vec![rule(vec![t("a")], "1")])] };
    assert!(!g2.has_entry());
}

#[test]
fn notation_text_trimming() {
    assert_eq!(generator::notation::literal_text("\"hello\""), "hello");
    assert_eq!(generator::notation::code_text("!{ acc + 1 }!"), " acc + 1 ");
}

#[test]
fn scanner_text_in_output() {
    let out = small_language().generate().unwrap();
    assert!(out.contains("fn token(&mut self) -> Option<Token> {"));
    assert!(out.contains("if check_Tok_12638187200555641996(self) {"));
    assert!(out.contains("return Some(Token::Tok_12638187200555641996)"));
    // declaration order: the literal terminal is tried before the regex one
    let kw = out.find("if check_Tok_12638187200555641996(self)").unwrap();
    let re = out.find("if check_Tok_9237349086447201248(self)").unwrap();
    assert!(kw < re);
}

#[test]
fn empty_description_still_generates() {
    let l = Language {
        preamble: String::new(),
        lexer: Tokens { mapping: vec![] },
        grammar: Grammar { nonterms: vec![] },
    };
    let out = l.generate().unwrap();
    assert!(out.starts_with("mod parser {\n"));
    assert!(out.contains("pub enum Token {\n}"));
}

#[test]
fn def_and_grammar_generate() {
    let l = small_language();
    let fst = l.grammar.build_first();
    let flw = l.grammar.build_follow(&fst);
    let one = l.grammar.nonterms[0].generate(&fst, &flw).unwrap();
    assert!(one.starts_with("pub fn parse_expr (parser: &mut ParserState, ) -> Option<u64> {"));
    let all = l.grammar.generate().unwrap();
    assert!(all.starts_with(&one));
    assert!(all.contains("fn parse_item (parser: &mut ParserState, ) -> Option<u64>"));
    let mut bad = l.grammar.clone();
    bad.nonterms[1].ret_ty = "Vec<(".to_string();
    assert!(matches!(bad.generate(), Err(GenError::FragmentSyntax(_))));
}
