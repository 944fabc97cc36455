use rulelib::ast::{AstNode, AstParseError, Keyword, ProxyMode, RuleOutcome, SpecialForm};
use rulelib::parser::{Pair, Rule, RuleParser};

fn sexp(src: &str) -> Pair {
    RuleParser::parse(Rule::s_exp, src).unwrap().into_iter().next().unwrap()
}

#[test]
fn try_from__works_on_valid_strings() {
    let proxy_mode = ProxyMode::try_from("OPAQUE");
    assert!(matches!(proxy_mode, Ok(ProxyMode::OPAQUE)));

    let proxy_mode = ProxyMode::try_from("TRANSPARENT");
    assert!(matches!(proxy_mode, Ok(ProxyMode::TRANSPARENT)));
}

#[test]
fn try_from__fails_on_invalid_strings() {
    let proxy_mode = ProxyMode::try_from("OPaQUE");
    assert!(matches!(proxy_mode, Err(AstParseError::ParseError(_))));

    let proxy_mode = ProxyMode::try_from("oeau");
    assert!(matches!(proxy_mode, Err(AstParseError::ParseError(_))));
}

#[test]
fn mod_try_from__fails_on_unexpected_parse_trees() {
    assert!(SpecialForm::try_from(sexp("100")).is_err());
    assert!(SpecialForm::try_from(sexp("hi")).is_err());
    assert!(SpecialForm::try_from(sexp("(bob was here)")).is_err());
    assert!(SpecialForm::try_from(sexp("(cow 100)")).is_err());
}

#[test]
fn mod_try_from__works_with_expected_parse_trees() {
    let ast = SpecialForm::try_from(sexp("(set-mode TRANSPARENT)")).unwrap();
    assert!(matches!(ast, SpecialForm::SetMode { mode: ProxyMode::TRANSPARENT }));
}

#[test]
fn mod_try_from__fails_on_parse_tree_with_wrong_arity() {
    let ast = SpecialForm::try_from(sexp("(set-mode OPAQUE hi)"));
    assert!(ast.is_err());
}

#[test]
fn mod_try_from__fails_on_well_formed_parse_tree_with_unexpected_argument() {
    let ast = SpecialForm::try_from(sexp("(set-mode CANDY)"));
    assert!(ast.is_err());
}

#[test]
fn try_from__works_with_expected_parse_trees() {
    let ast = SpecialForm::try_from(sexp("(if (placeholder) foo 85)")).unwrap();
    assert!(matches!(
        ast,
        SpecialForm::If {
            predicate,
            consequent,
            alternative
        }
        if matches!(*predicate, AstNode::Sexp(_)) && matches!(&*consequent, AstNode::Ident(id) if id == "foo") && matches!(*alternative, AstNode::Num(n) if n == 85)
    ));
}

#[test]
fn try_from__fails_on_parse_tree_with_wrong_arity() {
    let ast = SpecialForm::try_from(sexp("(if)"));
    assert!(ast.is_err());
}

#[test]
fn try_from__fails_on_well_formed_parse_tree_with_unexpected_argument() {
    let ast = SpecialForm::try_from(sexp(r#"(if 69 420 "foo")"#));
    assert!(ast.is_err());

    let ast = SpecialForm::try_from(sexp(r#"(if foo 420 (if "bar" baz cats))"#));
    assert!(ast.is_err());
}

#[test]
fn def_var_try_from__works_with_expected_parse_trees() {
    let ast = SpecialForm::try_from(sexp("(def-var foo 420)")).unwrap();
    assert!(matches!(ast, SpecialForm::DefVar {
        name, value
    } if name == "foo" && matches!(*value, AstNode::Num(n) if n == 420)));
}

#[test]
fn def_var_try_from__fails_on_parse_tree_with_wrong_arity() {
    let ast = SpecialForm::try_from(sexp("(def-var foo 420 69)"));
    assert!(ast.is_err());
}

#[test]
fn def_var_try_from__fails_on_well_formed_parse_tree_with_unexpected_argument() {
    let ast = SpecialForm::try_from(sexp("(def-var 420 69)"));
    assert!(ast.is_err());

    let ast = SpecialForm::try_from(sexp(r#"(def-var foo (if "bar" baz cats))"#));
    assert!(ast.is_err());
}

#[test]
fn def_rule_try_from__works_with_expected_parse_trees() {
    let ast =
        SpecialForm::try_from(sexp(r#"(def-rule simple-rule (if (placeholder) 420 69))"#)).unwrap();
    assert!(
        matches!(ast, SpecialForm::DefRule { name, body } if name == "simple-rule" && matches!(*body, AstNode::Keyword(_)))
    );
}

#[test]
fn def_rule_try_from__fails_on_parse_tree_with_wrong_arity() {
    let ast = SpecialForm::try_from(sexp("(def-rule foo bar baz)"));
    assert!(ast.is_err());
}

#[test]
fn def_rule_try_from__fails_on_well_formed_parse_tree_with_unexpected_argument() {
    let ast = SpecialForm::try_from(sexp("(def-rule 69 DROP)"));
    assert!(ast.is_err());

    let ast = SpecialForm::try_from(sexp(r#"(def-rule foo (if "bar" baz cats))"#));
    assert!(ast.is_err());
}

#[test]
fn try_from__fails_on_unexpected_parse_trees() {
    assert!(RuleOutcome::try_from(sexp("100")).is_err());
    assert!(RuleOutcome::try_from(sexp("hi")).is_err());
    assert!(RuleOutcome::try_from(sexp("(bob was here)")).is_err());
    assert!(RuleOutcome::try_from(sexp("(cow 100)")).is_err());
}

#[test]
fn mod_try_from__works_with_expected_parse_tree() {
    let ast = RuleOutcome::try_from(sexp("DROP")).unwrap();
    assert!(matches!(ast, RuleOutcome::DROP));
}

#[test]
fn mod_try_from__fails_on_bad_capitalization() {
    let ast = RuleOutcome::try_from(sexp("DrOP"));
    assert!(ast.is_err());
}

#[test]
fn try_from__works_with_expected_parse_tree() {
    let ast = RuleOutcome::try_from(sexp("REJECT")).unwrap();
    assert!(matches!(ast, RuleOutcome::REJECT));
}

#[test]
fn try_from__fails_on_bad_capitalization() {
    let ast = RuleOutcome::try_from(sexp("rEJECT"));
    assert!(ast.is_err());
}

#[test]
fn redirect_try_from__works_with_expected_parse_tree() {
    let ast = RuleOutcome::try_from(sexp(r#"(REDIRECT "127.0.0.1" 80)"#)).unwrap();
    assert!(matches!(ast, RuleOutcome::REDIRECT {addr, port: 80} if addr == "127.0.0.1"));
}

#[test]
fn mod_try_from__fails_on_well_formed_parse_tree_with_invalid_arity() {
    let ast = RuleOutcome::try_from(sexp(r#"(REDIRECT "127.0.0.1" 80 foo)"#));
    assert!(ast.is_err());
}

#[test]
fn try_from__fails_on_well_formed_parse_tree_with_invalid_address() {
    let ast = RuleOutcome::try_from(sexp(r#"(REDIRECT "aaeuboa" 80)"#));
    assert!(ast.is_err());
}

#[test]
fn try_from__fails_on_well_formed_parse_tree_with_invalid_port() {
    let ast = RuleOutcome::try_from(sexp(r#"(REDIRECT "127.0.0.1" 123213213112)"#));
    assert!(ast.is_err());

    let ast = RuleOutcome::try_from(sexp(r#"(REDIRECT "127.0.0.1" "80")"#));
    assert!(ast.is_err());
}

#[test]
fn rewrite_try_from__works_with_expected_parse_tree() {
    let ast = RuleOutcome::try_from(sexp(r#"(REWRITE "^bar$" "baz")"#)).unwrap();
    assert!(
        matches!(ast, RuleOutcome::REWRITE {pattern, replace_with} if pattern == "^bar$" && replace_with == "baz")
    );
}

#[test]
fn try_from__fails_on_well_formed_parse_tree_with_invalid_arity() {
    let ast = RuleOutcome::try_from(sexp(r#"(REWRITE "^bar$" "baz" "foo")"#));
    assert!(ast.is_err());
}

#[test]
fn continue_try_from__works_with_expected_parse_tree() {
    let ast = RuleOutcome::try_from(sexp("CONTINUE")).unwrap();
    assert!(matches!(ast, RuleOutcome::CONTINUE));
}

#[test]
fn continue_try_from__fails_on_bad_capitalization() {
    let ast = RuleOutcome::try_from(sexp("CONTinue"));
    assert!(ast.is_err());
}

#[test]
fn try_from__works_correctly_on_atoms() {
    let ast = AstNode::try_from(sexp(r#"foo"#)).unwrap();
    assert!(matches!(ast, AstNode::Ident(id) if id == "foo"));

    let ast = AstNode::try_from(sexp(r#"if"#));
    assert!(ast.is_err());

    let ast = AstNode::try_from(sexp("69")).unwrap();
    assert!(matches!(ast, AstNode::Num(69)));

    let ast = AstNode::try_from(sexp(r#""chicken nuggets""#)).unwrap();
    assert!(matches!(ast, AstNode::String(s) if s == "chicken nuggets"));
}

#[test]
fn try_from__works_on_lists() {
    let ast = AstNode::try_from(sexp(r#"(1 2 3 a "b" c)"#)).unwrap();
    assert!(matches!(ast, AstNode::Sexp(_)));
    if let AstNode::Sexp(v) = ast {
        assert!(matches!(v[0], AstNode::Num(1)));
        assert!(matches!(v[1], AstNode::Num(2)));
        assert!(matches!(v[2], AstNode::Num(3)));
        assert!(matches!(&v[3], AstNode::Ident(s) if s == "a"));
        assert!(matches!(&v[4], AstNode::String(s) if s == "b"));
        assert!(matches!(&v[5], AstNode::Ident(s) if s == "c"));
    }
}

#[test]
fn try_from__works_on_sample_program() {
    let program = r#"
            (set-mode OPAQUE)

            (def-var bad-ip "192.0.1.2")

            (def-rule simple-rewrite
                (if (exact? :metadata-source bad-ip)
                    (REWRITE "^bar$" "baz")
                    CONTINUE))

            (def-rule simple-rule
                (if (exact? :metadata-source bad-ip)
                    DROP
                    (REDIRECT "127.0.0.1" 80)))
            "#;

    let parse_tree = RuleParser::parse(Rule::program, program)
        .unwrap()
        .into_iter()
        .next()
        .unwrap();
    let ast = AstNode::try_from(parse_tree).unwrap();

    if let AstNode::Program(stmts) = ast {
        assert_eq!(stmts.len(), 4);

        assert!(matches!(&stmts[0], AstNode::Keyword(Keyword::SpecialForm(SpecialForm::SetMode { mode: ProxyMode::OPAQUE }))));

        assert!(matches!(&stmts[1], AstNode::Keyword(Keyword::SpecialForm(SpecialForm::DefVar { name, value }))
            if name == "bad-ip" && matches!(&**value, AstNode::String(s) if s == "192.0.1.2")));

        assert!(matches!(&stmts[2], AstNode::Keyword(Keyword::SpecialForm(SpecialForm::DefRule { name, body }))
            if name == "simple-rewrite"
            && matches!(&**body, AstNode::Keyword(Keyword::SpecialForm(SpecialForm::If { predicate, consequent, alternative }))
                if matches!(&**predicate, AstNode::Sexp(v)
                    if matches!(&v[0], AstNode::Ident(s) if s == "exact?")
                    && matches!(&v[1], AstNode::Ident(s) if s == ":metadata-source")
                    && matches!(&v[2], AstNode::Ident(s) if s == "bad-ip"))
                && matches!(&**consequent, AstNode::Keyword(Keyword::Outcome(RuleOutcome::REWRITE { pattern, replace_with }))
                    if pattern == "^bar$" && replace_with == "baz")
                && matches!(&**alternative, AstNode::Keyword(Keyword::Outcome(RuleOutcome::CONTINUE))))));

        assert!(matches!(&stmts[3], AstNode::Keyword(Keyword::SpecialForm(SpecialForm::DefRule { name, body }))
            if name == "simple-rule"
            && matches!(&**body, AstNode::Keyword(Keyword::SpecialForm(SpecialForm::If { predicate, consequent, alternative }))
                if matches!(&**predicate, AstNode::Sexp(v)
                    if matches!(&v[0], AstNode::Ident(s) if s == "exact?")
                    && matches!(&v[1], AstNode::Ident(s) if s == ":metadata-source")
                    && matches!(&v[2], AstNode::Ident(s) if s == "bad-ip"))
                && matches!(&**consequent, AstNode::Keyword(Keyword::Outcome(RuleOutcome::DROP)))
                && matches!(&**alternative, AstNode::Keyword(Keyword::Outcome(RuleOutcome::REDIRECT { addr, port }))
                    if addr == "127.0.0.1" && *port == 80))));
    } else {
        assert!(false);
    }
}

#[test]
fn redirect_accepts_full_port_range() {
    let ast = RuleOutcome::try_from(sexp(r#"(REDIRECT "10.0.0.1" 65535)"#)).unwrap();
    assert!(matches!(ast, RuleOutcome::REDIRECT { addr, port: 65535 } if addr == "10.0.0.1"));
    assert!(RuleOutcome::try_from(sexp(r#"(REDIRECT "10.0.0.1" 65536)"#)).is_err());
    assert!(RuleOutcome::try_from(sexp(r#"(REDIRECT "10.0.0.1" -1)"#)).is_err());
    assert!(RuleOutcome::try_from(sexp(r#"(REDIRECT "10.0.0.256" 80)"#)).is_err());
    assert!(RuleOutcome::try_from(sexp(r#"(REDIRECT "10.0.01.1" 80)"#)).is_err());
}

#[test]
fn booleans_and_negative_numbers_build() {
    assert!(matches!(AstNode::try_from(sexp("#t")), Ok(AstNode::Bool(true))));
    assert!(matches!(AstNode::try_from(sexp("#f")), Ok(AstNode::Bool(false))));
    assert!(matches!(AstNode::try_from(sexp("-123")), Ok(AstNode::Num(-123))));
    assert!(AstNode::try_from(sexp("99999999999999999999")).is_err());
}

#[test]
fn reserved_words_are_not_identifiers() {
    for word in ["def-var", "set-mode", "def-rule", "if"] {
        assert!(AstNode::try_from(sexp(word)).is_err());
    }
}
