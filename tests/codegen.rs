use rulelib::codegen::{CodegenError, FALSE_KEY, TRUE_KEY};
use rulelib::compile::{compile, CompileError};
use rulelib::vm::Instruction::{DROP, ITE, REDIRECT, REWRITE, SEQ};
use rulelib::vm::{Ipv4, Object, PACKET_SOURCE_IP};

#[test]
fn test() {
    let program = r#"
            (set-mode OPAQUE)

            (def-var bad-ip "192.0.1.2")

            (def-rule simple-rule
                (if (exact? :packet-source-ip bad-ip)
                    DROP
                    (REDIRECT "127.0.0.1" 80)))
        "#;
    let bytecode = compile(program).unwrap();
    assert_eq!(bytecode.instructions, vec![SEQ(0, PACKET_SOURCE_IP, 2), ITE(0, 2, 3), DROP, REDIRECT(3, 4)]);
    assert_eq!(
        bytecode.data,
        vec![
            Object::Port(1),
            Object::Port(0),
            Object::IP(Ipv4::new(192, 0, 1, 2)),
            Object::IP(Ipv4::new(127, 0, 0, 1)),
            Object::Port(80),
        ]
    );
}

#[test]
fn test1() {
    let program = r#"
            (set-mode OPAQUE)

            (def-var bad-ip "192.0.1.2")

            (def-rule simple-rewrite
                (if (exact? :packet-source-ip bad-ip)
                    (REWRITE "^bar$" "baz")
                    CONTINUE))

            (def-rule simple-rule
                (if (exact? :packet-source-ip bad-ip)
                    DROP
                    (REDIRECT "127.0.0.1" 80)))
        "#;
    let bytecode = compile(program).unwrap();
    assert_eq!(
        bytecode.instructions,
        vec![
            SEQ(0, PACKET_SOURCE_IP, 2),
            ITE(0, 2, 3),
            REWRITE(3, 4),
            SEQ(1, TRUE_KEY, TRUE_KEY),
            ITE(1, 5, 0),
            SEQ(0, PACKET_SOURCE_IP, 2),
            ITE(0, 7, 8),
            DROP,
            REDIRECT(5, 6),
        ]
    );
    assert_eq!(bytecode.data[3], Object::Data(b"^bar$".to_vec()));
    assert_eq!(bytecode.data[4], Object::Data(b"baz".to_vec()));
}

#[test]
fn codegen_nested_if_branches_past_consequent() {
    let bytecode =
        compile("(def-var yes #t) (def-var no #f) (def-rule r (if yes (if no DROP REJECT) DROP))").unwrap();
    assert_eq!(
        bytecode.instructions,
        vec![
            SEQ(0, TRUE_KEY, TRUE_KEY),
            ITE(0, 2, 6),
            SEQ(1, FALSE_KEY, TRUE_KEY),
            ITE(1, 4, 5),
            DROP,
            rulelib::vm::Instruction::REJECT,
            DROP,
        ]
    );
}

#[test]
fn codegen_variables_bind_objects() {
    let bytecode = compile(
        "(def-var p 443) (def-var q p) (def-var yes #t) (def-rule r (if yes (REDIRECT \"10.0.0.1\" 8080) DROP))",
    )
    .unwrap();
    assert_eq!(bytecode.data[2], Object::Port(443));
    assert_eq!(bytecode.data[3], Object::Port(443));
    assert_eq!(bytecode.instructions[0], SEQ(0, TRUE_KEY, TRUE_KEY));
}

#[test]
fn codegen_reports_structural_errors() {
    assert!(matches!(
        compile("(def-rule r (if unknown DROP REJECT))"),
        Err(CompileError::Codegen(CodegenError::UnknownIdentifier))
    ));
    assert!(matches!(
        compile("(def-var p 70000)"),
        Err(CompileError::Codegen(CodegenError::InvalidPort))
    ));
    assert!(matches!(
        compile("(def-var a \"not-an-ip\")"),
        Err(CompileError::Codegen(CodegenError::InvalidAddress))
    ));
    assert!(matches!(
        compile("(def-rule r (if (matches? a b) DROP REJECT))"),
        Err(CompileError::Codegen(CodegenError::UnsupportedPredicate))
    ));
    assert!(matches!(
        compile("(def-rule r 42)"),
        Err(CompileError::Codegen(CodegenError::InvalidProgram))
    ));
    assert!(matches!(compile("(def-rule r (if 69 420 \"foo\"))"), Err(CompileError::Ast(_))));
    assert!(matches!(compile("(def-rule r DROP"), Err(CompileError::Grammar(_))));
    let mut deep = String::from("DROP");
    for _ in 0..17 {
        deep = format!("(if yes {} DROP)", deep);
    }
    assert!(matches!(
        compile(&format!("(def-var yes #t) (def-rule r {})", deep)),
        Err(CompileError::Codegen(CodegenError::TooManyRegisters))
    ));
}
