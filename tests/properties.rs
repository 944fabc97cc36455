use rulelib::addr::{parse_i64, parse_ipv4};
use rulelib::command::Command;
use rulelib::compile::{compile, default_program};
use rulelib::plane::{filter, forward, process_chunk, replace_all};
use rulelib::vm::{Action, Instruction, Ipv4, Object, Packet, Program, VM};

const IP_BLOCK: &str = r#"
    (set-mode OPAQUE)
    (def-var bad-ip "192.0.1.2")
    (def-rule r (if (exact? :packet-source-ip bad-ip) DROP (REDIRECT "127.0.0.1" 80)))
"#;

const REWRITE_THEN_BLOCK: &str = r#"
    (set-mode OPAQUE)
    (def-var bad-ip "192.0.1.2")
    (def-rule rw (if (exact? :packet-source-ip bad-ip) (REWRITE "^bar$" "baz") CONTINUE))
    (def-rule r (if (exact? :packet-source-ip bad-ip) DROP (REDIRECT "127.0.0.1" 80)))
"#;

fn packet_from(ip: Ipv4, content: &[u8]) -> Packet {
    Packet { source: (ip, 5555), dest: (Ipv4::new(10, 0, 0, 1), 80), content: content.to_vec() }
}

fn chars(s: &str) -> Vec<char> {
    s.chars().collect()
}

fn well_formed(p: &Program) -> bool {
    let n = p.instructions.len();
    p.instructions.iter().enumerate().all(|(i, ins)| match *ins {
        Instruction::ITE(r, a, b) => r < 16 && (a > i || a == 0) && a <= n && (b > i || b == 0) && b <= n,
        Instruction::SEQ(r, k1, k2) => {
            let ok = |k: u32| (k as usize) < p.data.len() || (0x8000_0000..=0x8000_0004).contains(&k);
            r < 16 && ok(k1) && ok(k2)
        }
        Instruction::REDIRECT(k1, k2) | Instruction::REWRITE(k1, k2) => {
            (k1 as usize) < p.data.len() && (k2 as usize) < p.data.len()
        }
        _ => true,
    })
}

#[test]
fn ip_block_scenario() {
    let program = compile(IP_BLOCK).unwrap();
    let blocked = filter(&packet_from(Ipv4::new(192, 0, 1, 2), b"x"), &program);
    assert_eq!(blocked, Action::DROP);
    let allowed = filter(&packet_from(Ipv4::new(192, 168, 0, 1), b"x"), &program);
    assert_eq!(allowed, Action::REDIRECT(Object::IP(Ipv4::new(127, 0, 0, 1)), Object::Port(80)));
}

#[test]
fn rewrite_then_fallthrough_scenario() {
    let program = compile(REWRITE_THEN_BLOCK).unwrap();
    let bad = filter(&packet_from(Ipv4::new(192, 0, 1, 2), b"bar"), &program);
    assert_eq!(bad, Action::REWRITE(Object::Data(b"^bar$".to_vec()), Object::Data(b"baz".to_vec())));
    let other = filter(&packet_from(Ipv4::new(8, 8, 8, 8), b"bar"), &program);
    assert_eq!(other, Action::REDIRECT(Object::IP(Ipv4::new(127, 0, 0, 1)), Object::Port(80)));
}

#[test]
fn compiled_programs_are_well_formed() {
    for src in [IP_BLOCK, REWRITE_THEN_BLOCK, "(def-rule r CONTINUE)", "(def-var yes #t) (def-rule a (if yes CONTINUE DROP)) (def-rule b REJECT)"] {
        let p = compile(src).unwrap();
        assert!(well_formed(&p));
    }
}

#[test]
fn continue_placeholder_and_patch() {
    let program = compile("(def-rule r CONTINUE)").unwrap();
    assert_eq!(program.instructions, vec![Instruction::SEQ(0, 0, 0), Instruction::ITE(0, 0, 0)]);
    let program = compile("(def-var yes #t) (def-rule a (if yes CONTINUE DROP)) (def-rule b REJECT)").unwrap();
    assert_eq!(
        program.instructions,
        vec![
            Instruction::SEQ(0, 0, 0),
            Instruction::ITE(0, 2, 4),
            Instruction::SEQ(1, 0, 0),
            Instruction::ITE(1, 5, 0),
            Instruction::DROP,
            Instruction::REJECT,
        ]
    );
    assert_eq!(filter(&packet_from(Ipv4::new(1, 2, 3, 4), b""), &program), Action::REJECT);
}

#[test]
fn trailing_continue_ends_without_action_and_drops() {
    let program = compile("(def-rule r CONTINUE)").unwrap();
    let mut vm = VM::new();
    assert!(vm.run_program(&program, &packet_from(Ipv4::new(1, 2, 3, 4), b"")).is_err());
    assert_eq!(filter(&packet_from(Ipv4::new(1, 2, 3, 4), b""), &program), Action::DROP);
}

#[test]
fn seq_writes_zero_or_one_and_ite_branches_on_nonzero() {
    let program = Program {
        instructions: vec![
            Instruction::NOT(0, 0),
            Instruction::ITE(0, 2, 3),
            Instruction::DROP,
            Instruction::REJECT,
        ],
        data: vec![],
    };
    let mut vm = VM::new();
    assert_eq!(vm.run_program(&program, &packet_from(Ipv4::new(0, 0, 0, 0), b"")).unwrap(), Action::DROP);
    assert_eq!(vm.registers[0], u32::MAX);
    let seq = Program {
        instructions: vec![Instruction::SEQ(0, 0, 1), Instruction::SEQ(1, 0, 0)],
        data: vec![Object::Port(1), Object::IP(Ipv4::new(0, 0, 0, 1))],
    };
    let mut vm = VM::new();
    let _ = vm.run_program(&seq, &packet_from(Ipv4::new(0, 0, 0, 0), b""));
    assert_eq!(vm.registers[0], 0);
    assert_eq!(vm.registers[1], 1);
}

#[test]
fn compilation_is_deterministic() {
    let a = compile(REWRITE_THEN_BLOCK).unwrap();
    let b = compile(REWRITE_THEN_BLOCK).unwrap();
    assert_eq!(a.instructions, b.instructions);
    assert_eq!(a.data, b.data);
}

#[test]
fn installing_twice_gives_identical_actions() {
    let a = compile(REWRITE_THEN_BLOCK).unwrap();
    let b = compile(REWRITE_THEN_BLOCK).unwrap();
    let stream = [
        packet_from(Ipv4::new(192, 0, 1, 2), b"bar"),
        packet_from(Ipv4::new(1, 1, 1, 1), b"foo"),
        packet_from(Ipv4::new(192, 0, 1, 2), b""),
    ];
    for p in &stream {
        assert_eq!(filter(p, &a), filter(p, &b));
    }
}

#[test]
fn rewrite_replaces_literal_bytes() {
    assert_eq!(replace_all(&b"aaa".to_vec(), &b"a".to_vec(), &b"bc".to_vec()), b"bcbcbc".to_vec());
    assert_eq!(replace_all(&b"xabcabx".to_vec(), &b"ab".to_vec(), &b"".to_vec()), b"xcx".to_vec());
    assert_eq!(replace_all(&b"aaaa".to_vec(), &b"aa".to_vec(), &b"b".to_vec()), b"bb".to_vec());
    assert_eq!(replace_all(&b"abc".to_vec(), &b"".to_vec(), &b"z".to_vec()), b"abc".to_vec());
    assert_eq!(replace_all(&b"ab".to_vec(), &b"abc".to_vec(), &b"z".to_vec()), b"ab".to_vec());
}

#[test]
fn forward_applies_each_action() {
    let chunk = b"hello bar".to_vec();
    assert_eq!(forward(&Action::DROP, &chunk), None);
    assert_eq!(forward(&Action::REJECT, &chunk), None);
    let redirect = Action::REDIRECT(Object::IP(Ipv4::new(1, 2, 3, 4)), Object::Port(9));
    assert_eq!(forward(&redirect, &chunk), Some(chunk.clone()));
    let rewrite = Action::REWRITE(Object::Data(b"bar".to_vec()), Object::Data(b"baz".to_vec()));
    assert_eq!(forward(&rewrite, &chunk), Some(b"hello baz".to_vec()));
}

#[test]
fn process_chunk_rewrites_matching_sources() {
    let program = compile(
        r#"(def-var bad-ip "192.0.1.2") (def-rule rw (if (exact? :packet-source-ip bad-ip) (REWRITE "bar" "baz") CONTINUE)) (def-rule r (REDIRECT "127.0.0.1" 80))"#,
    )
    .unwrap();
    let out = process_chunk(&program, &packet_from(Ipv4::new(192, 0, 1, 2), b"foobar"));
    assert_eq!(out, Some(b"foobaz".to_vec()));
    let out = process_chunk(&program, &packet_from(Ipv4::new(9, 9, 9, 9), b"foobar"));
    assert_eq!(out, Some(b"foobar".to_vec()));
}

#[test]
fn default_program_redirects_localhost_only() {
    let program = default_program(Ipv4::new(10, 1, 1, 1), 9000);
    let local = filter(&packet_from(Ipv4::new(127, 0, 0, 1), b""), &program);
    assert_eq!(local, Action::REDIRECT(Object::IP(Ipv4::new(10, 1, 1, 1)), Object::Port(9000)));
    let remote = filter(&packet_from(Ipv4::new(8, 8, 4, 4), b""), &program);
    assert_eq!(remote, Action::DROP);
}

#[test]
fn literals_parse_exactly() {
    assert_eq!(parse_ipv4(&chars("192.168.0.1")), Some(Ipv4::new(192, 168, 0, 1)));
    assert_eq!(parse_ipv4(&chars("0.0.0.0")), Some(Ipv4::new(0, 0, 0, 0)));
    assert_eq!(parse_ipv4(&chars("255.255.255.255")), Some(Ipv4::new(255, 255, 255, 255)));
    assert_eq!(parse_ipv4(&chars("256.0.0.1")), None);
    assert_eq!(parse_ipv4(&chars("01.2.3.4")), None);
    assert_eq!(parse_ipv4(&chars("1.2.3")), None);
    assert_eq!(parse_ipv4(&chars("1.2.3.4.5")), None);
    assert_eq!(parse_ipv4(&chars("1.2.3.4 ")), None);
    assert_eq!(parse_i64(&chars("-123")), Some(-123));
    assert_eq!(parse_i64(&chars("9223372036854775807")), Some(i64::MAX));
    assert_eq!(parse_i64(&chars("-9223372036854775808")), Some(i64::MIN));
    assert_eq!(parse_i64(&chars("9223372036854775808")), None);
    assert_eq!(parse_i64(&chars("-")), None);
    assert_eq!(parse_i64(&chars("12x")), None);
}

#[test]
fn command_words() {
    let words = Command::all_commands();
    assert_eq!(words, vec!["help", "exit", "create", "request", "update", "delete", "list", "set_program"]);
    assert_eq!(Command::List(rulelib::command::List {}).name(), "list");
}
