use rulelib::parser::{Pair, Rule, RuleParser};

fn render(pairs: &[Pair]) -> String {
    let parts: Vec<String> = pairs.iter().map(render_pair).collect();
    format!("[{}]", parts.join(", "))
}

fn render_pair(p: &Pair) -> String {
    if p.children.is_empty() {
        format!("{:?}({}, {})", p.rule, p.start, p.end)
    } else {
        format!("{:?}({}, {}, {})", p.rule, p.start, p.end, render(&p.children))
    }
}

#[test]
fn test_example_program() {
    let program = r#"
    (set-mode OPAQUE)

    (def-var bad-ip "192.0.1.2")

    (def-rule simple-rewrite
        (if (exact? metadata-source bad-ip)
            (REWRITE "^bar$" "baz")
            CONTINUE))

    (def-rule simple-rule
        (if (exact? metadata-source bad-ip)
            DROP
            (REDIRECT "127.0.0.1" 80)))
    "#;
    let parse_result = RuleParser::parse(Rule::program, program);
    assert!(parse_result.is_ok(), "parse failed on example program");
}

#[test]
fn test_bad_program() {
    // program has an unclosed paranthesis
    let bad_program = r#"
            (def-var bad-ip "192.0.1.2")

            (def-rule simple-rule (:target "127.0.0.1" :port   "80")
                (if (and (exact? metadata-source bad-ip) (exact? metedata-dest   :target)
                    DROP
                    REDIRECT)))

            (def-rule simple-rewrite
                (if (and (exact? metadata-source bad-ip) (matches? content "foo"))
                    (REWRITE "^bar$" "baz")
                    (simple-rule))
        "#;
    let parse_result = RuleParser::parse(Rule::program, bad_program);
    assert!(parse_result.is_err());
}

#[test]
fn test_boolean() {
    let program1 = "(def-var bool-var #t)";
    let program2 = "(def-var bool-var #f)";
    let expected = "[program(0, 21, [s_exp(0, 21, [list(0, 21, [s_exp(1, 8, [atom(1, 8, [ident(1, 8)])]), s_exp(9, 17, [atom(9, 17, [ident(9, 17)])]), s_exp(18, 20, [atom(18, 20, [bool(18, 20)])])])]), EOI(21, 21)])]";
    let parse1 = RuleParser::parse(Rule::program, program1);
    let parse2 = RuleParser::parse(Rule::program, program2);
    assert_eq!(render(&parse1.unwrap()), expected);
    assert_eq!(render(&parse2.unwrap()), expected);
}

#[test]
fn test_negative() {
    let negative = "-123";
    let parse_result = RuleParser::parse(Rule::number, negative);
    assert!(parse_result.is_ok());
}

#[test]
fn grammar_rejects_unbalanced_parentheses() {
    assert!(RuleParser::parse(Rule::program, "(a (b c)").is_err());
    assert!(RuleParser::parse(Rule::program, "(a b))").is_err());
    assert!(RuleParser::parse(Rule::program, ")").is_err());
}

#[test]
fn grammar_tolerates_interior_whitespace() {
    let tree = RuleParser::parse(Rule::program, " \n\t( a\n  b\t)\r\n ").unwrap();
    assert_eq!(tree.len(), 1);
    let program = &tree[0];
    assert_eq!(program.children.len(), 2);
    assert_eq!(program.children[1].rule, Rule::EOI);
    assert_eq!(program.children[0].as_str(), "( a\n  b\t)");
}

#[test]
fn grammar_empty_program_is_only_end_of_input() {
    let tree = RuleParser::parse(Rule::program, "   ").unwrap();
    assert_eq!(render(&tree), "[program(0, 3, [EOI(3, 3)])]");
}

#[test]
fn grammar_classifies_leaves() {
    let leaf = |src: &str| {
        let atom = RuleParser::parse(Rule::atom, src).unwrap().into_iter().next().unwrap();
        atom.into_inner().into_iter().next().unwrap().as_rule()
    };
    assert_eq!(leaf("foo-bar?"), Rule::ident);
    assert_eq!(leaf(":packet-source-ip"), Rule::ident);
    assert_eq!(leaf("-42"), Rule::number);
    assert_eq!(leaf("\"x y\""), Rule::string);
    assert_eq!(leaf("#t"), Rule::bool);
    assert!(RuleParser::parse(Rule::atom, "#x").is_err());
    assert!(RuleParser::parse(Rule::atom, "\"open").is_err());
    assert!(RuleParser::parse(Rule::number, "12a").is_err());
}
