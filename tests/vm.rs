use rulelib::compile::compile;
use rulelib::vm::Instruction::{DROP, ITE, REDIRECT, REWRITE, SEQ};
use rulelib::vm::{Action, Instruction, Ipv4, Object, Packet, Program, VmError, PACKET_CONTENT, PACKET_SOURCE_IP, VM};

fn empty_packet() -> Packet {
    Packet {
        source: (Ipv4::new(0, 0, 0, 0), 16),
        dest: (Ipv4::new(0, 0, 0, 0), 16),
        content: vec![],
    }
}

#[test]
fn test_vm_seq() {
    let insns = vec![Instruction::SEQ(0, 0, 1)];
    let data = vec![Object::Port(10), Object::Port(10)];
    let program = Program { instructions: insns, data };
    let mut vm = VM::new();
    let packet = empty_packet();
    let _ = vm.run_program(&program, &packet);
    assert_eq!(vm.registers[0], 1);
    assert_eq!(vm.registers[1], 0);
}

#[test]
fn test_port_inequality_sets_zero() {
    let program = Program {
        instructions: vec![SEQ(0, 0, 1), SEQ(1, 0, 2)],
        data: vec![Object::Port(10), Object::Port(10), Object::Port(11)],
    };
    let mut vm = VM::new();
    vm.registers[1] = 7;
    let result = vm.run_program(&program, &empty_packet());
    assert!(matches!(result, Err(VmError::EndedWithoutAction)));
    assert_eq!(vm.registers[0], 1);
    assert_eq!(vm.registers[1], 0);
}

#[test]
fn test_ip_equals() {
    let insns = vec![SEQ(0, 0, PACKET_SOURCE_IP), ITE(0, 2, 3), DROP, REDIRECT(1, 2)];
    let data = vec![
        Object::IP(Ipv4::new(123, 123, 123, 123)),
        Object::IP(Ipv4::new(128, 128, 128, 128)),
        Object::Port(443),
    ];
    let program = Program { instructions: insns, data };
    let mut vm = VM::new();
    let packet = Packet {
        source: (Ipv4::new(123, 123, 123, 123), 16),
        dest: (Ipv4::new(0, 0, 0, 0), 16),
        content: vec![],
    };
    let result = vm.run_program(&program, &packet);
    assert!(result.is_ok());
    assert_eq!(result.unwrap(), Action::DROP);
}

#[test]
fn test_vm_data() {
    let insns: Vec<Instruction> = vec![Instruction::SEQ(5, 0, 1)];
    let data = vec![Object::Data(vec![1, 2, 3]), Object::Data(vec![1, 2, 3])];
    let program = Program { instructions: insns, data };
    let mut vm = VM::new();
    let packet = empty_packet();
    let _ = vm.run_program(&program, &packet);
    assert_eq!(vm.registers[5], 1);
    assert_eq!(vm.registers[1], 0);
}

#[test]
fn test_logical() {
    let data = vec![
        Object::Data(vec![1, 4, 8]),
        Object::Data(vec![1, 4, 8]),
        Object::Port(443),
    ];
    let insns = vec![
        Instruction::SEQ(0, 0, 1),
        Instruction::SEQ(1, 0, 2),
        Instruction::OR(2, 0, 1),
        Instruction::AND(3, 0, 1),
        Instruction::ITE(2, 5, 6),
        Instruction::NOT(5, 5),
        Instruction::DROP,
        Instruction::REJECT,
    ];
    let program = Program { instructions: insns, data };
    let packet = empty_packet();
    let mut vm = VM::new();
    let result = vm.run_program(&program, &packet);
    assert!(result.is_ok());
    assert!(result.unwrap() == Action::DROP);
    assert_eq!(vm.registers[2], 1);
    assert_eq!(vm.registers[3], 0);
    assert_eq!(vm.registers[5], !0);
}

#[test]
fn test_reset() {
    let mut vm = VM::new();
    vm.registers[0] = 1;
    vm.registers[3] = 1;
    vm.reset();
    assert_eq!(vm.registers[0], 0);
    assert_eq!(vm.registers[3], 0);
}

#[test]
fn test_redirect_rewrite() {
    let mut vm = VM::new();

    let find = Object::Data(vec![0x41]);
    let replace = Object::Data(vec![0x61]);

    let redirect_ip = Object::IP(Ipv4::new(123, 123, 123, 123));
    let redirect_port = Object::Port(442);

    let data = vec![
        Object::Data(vec![0x41, 0x41, 0x41]),
        find.clone(),
        replace.clone(),
        redirect_ip.clone(),
        redirect_port.clone(),
    ];

    let packet1 = Packet {
        source: (Ipv4::new(0, 0, 0, 0), 16),
        dest: (Ipv4::new(0, 0, 0, 0), 16),
        content: vec![0x41, 0x41, 0x41],
    };

    let packet2 = Packet { content: vec![0x42, 0x42, 0x42], ..packet1 };
    let insns = vec![SEQ(0, PACKET_CONTENT, 0), ITE(0, 2, 3), REWRITE(1, 2), REDIRECT(3, 4)];

    let program = Program { data, instructions: insns };

    // test with packet that goes to if
    let result1 = vm.run_program(&program, &packet1);
    assert!(result1.is_ok());
    let action1 = result1.unwrap();
    assert_eq!(action1, Action::REWRITE(find, replace));

    vm.reset();

    // test with packet that goes to else
    let result2 = vm.run_program(&program, &packet2);
    assert!(result2.is_ok());
    let action2 = result2.unwrap();
    assert_eq!(action2, Action::REDIRECT(redirect_ip, redirect_port));
}

fn test_program_helper(program: &str, vm: &mut VM, packet: &Packet) -> Result<Action, VmError> {
    let bytecode = compile(program).unwrap();
    vm.run_program(&bytecode, packet)
}

#[test]
fn test_simple_program() {
    let program = r#"
        (set-mode OPAQUE)

        (def-var bad-ip "192.0.1.2")

        (def-rule simple-rule
            (if (exact? :packet-source-ip bad-ip)
                DROP
                (REDIRECT "127.0.0.1" 80)))
        "#;
    let bad_ip = Ipv4::new(192, 0, 1, 2);
    let good_ip = Ipv4::new(192, 168, 0, 1);
    let dest_ip = Ipv4::new(192, 168, 1, 1);
    let content: Vec<u8> = vec![];
    let bad_packet = Packet { source: (bad_ip, 80), dest: (dest_ip, 80), content: content.clone() };
    let good_packet = Packet { source: (good_ip, 80), dest: (dest_ip, 80), content: content.clone() };
    let mut vm = VM::new();
    let bad_action = test_program_helper(program, &mut vm, &bad_packet).unwrap();
    let bad_action_target = Action::DROP;
    assert_eq!(bad_action, bad_action_target);
    let good_action = test_program_helper(program, &mut vm, &good_packet).unwrap();
    let good_action_target = Action::REDIRECT(Object::IP(Ipv4::new(127, 0, 0, 1)), Object::Port(80));
    assert_eq!(good_action, good_action_target);
}

#[test]
fn vm_errors_on_malformed_programs() {
    let packet = empty_packet();
    let mut vm = VM::new();
    let missing = Program { instructions: vec![SEQ(0, 7, 0)], data: vec![Object::Port(1)] };
    assert!(matches!(vm.run_program(&missing, &packet), Err(VmError::MissingObject)));
    let reserved = Program { instructions: vec![SEQ(0, 0x8000_0009, 0)], data: vec![Object::Port(1)] };
    assert!(matches!(vm.run_program(&reserved, &packet), Err(VmError::InvalidKey)));
    let register = Program { instructions: vec![SEQ(16, 0, 0)], data: vec![Object::Port(1)] };
    assert!(matches!(vm.run_program(&register, &packet), Err(VmError::InvalidRegister)));
    let past_end = Program { instructions: vec![ITE(0, 5, 5)], data: vec![] };
    assert!(matches!(vm.run_program(&past_end, &packet), Err(VmError::EndedWithoutAction)));
    let empty = Program { instructions: vec![], data: vec![] };
    assert!(matches!(vm.run_program(&empty, &packet), Err(VmError::EndedWithoutAction)));
    assert_eq!(VmError::EndedWithoutAction.message(), "Program ended without action");
}

#[test]
fn vm_reads_destination_fields() {
    let packet = Packet {
        source: (Ipv4::new(1, 1, 1, 1), 1000),
        dest: (Ipv4::new(2, 2, 2, 2), 2000),
        content: vec![],
    };
    let program = Program {
        instructions: vec![
            SEQ(0, 0, rulelib::vm::PACKET_DEST_IP),
            SEQ(1, 1, rulelib::vm::PACKET_DEST_PORT),
            Instruction::AND(2, 0, 1),
            ITE(2, 4, 5),
            DROP,
            Instruction::REJECT,
        ],
        data: vec![Object::IP(Ipv4::new(2, 2, 2, 2)), Object::Port(2000)],
    };
    let mut vm = VM::new();
    assert_eq!(vm.run_program(&program, &packet).unwrap(), Action::DROP);
}

#[test]
fn vm_follows_backward_jumps() {
    let program = Program { instructions: vec![ITE(0, 2, 2), DROP, ITE(0, 1, 1)], data: vec![] };
    let mut vm = VM::new();
    assert_eq!(vm.run_program(&program, &empty_packet()).unwrap(), Action::DROP);
    // a register that NOT flips sends control back once before the run goes on
    let looping = Program {
        instructions: vec![
            Instruction::NOT(1, 1),
            ITE(1, 0, 3),
            DROP,
            Instruction::REJECT,
        ],
        data: vec![],
    };
    let mut vm = VM::new();
    assert_eq!(vm.run_program(&looping, &empty_packet()).unwrap(), Action::REJECT);
    assert_eq!(vm.registers[1], 0);
}
