use vstd::prelude::*;

verus! {

/// Register index.
pub type Reg = usize;

/// Key of an object: a pool index when the top bit is clear, a packet field when it is set.
pub type ObjKey = u32;

/// Instruction offset.
pub type Label = usize;

/// Size of the register file.
pub const NUM_REGS: usize = 16;

/// The most instructions one run executes; a run that has not reached a terminal
/// instruction by then ends without an action. Runs that jump back, such as a `CONTINUE`
/// in the last rule, which restarts the program, are cut off here.
pub const MAX_STEPS: u64 = 1_000_000;

/// Keys with this bit set name a field of the packet under evaluation.
pub const PACKET_MASK: u32 = 0x8000_0000;

/// The packet's source address.
pub const PACKET_SOURCE_IP: ObjKey = 0x8000_0000;

/// The packet's source port.
pub const PACKET_SOURCE_PORT: ObjKey = 0x8000_0001;

/// The packet's destination address.
pub const PACKET_DEST_IP: ObjKey = 0x8000_0002;

/// The packet's destination port.
pub const PACKET_DEST_PORT: ObjKey = 0x8000_0003;

/// The packet's bytes.
pub const PACKET_CONTENT: ObjKey = 0x8000_0004;

/// An IPv4 address as its four octets, most significant first.
#[derive(Clone, Copy, Debug, PartialEq, Eq, Structural)]
pub struct Ipv4(pub u8, pub u8, pub u8, pub u8);

impl Ipv4 {
    pub fn new(a: u8, b: u8, c: u8, d: u8) -> (r: Ipv4)
        ensures
            r == Ipv4(a, b, c, d),
    {
        Ipv4(a, b, c, d)
    }
}

#[derive(Clone, Copy, Debug, PartialEq, Eq, Structural)]
pub enum Instruction {
    /// Set the register to 1 when the two objects are equal, else to 0.
    SEQ(Reg, ObjKey, ObjKey),
    /// Bitwise and of two registers.
    AND(Reg, Reg, Reg),
    /// Bitwise or of two registers.
    OR(Reg, Reg, Reg),
    /// Bitwise not of a register.
    NOT(Reg, Reg),
    /// Jump to the first label when the register is nonzero, else to the second.
    ITE(Reg, Label, Label),
    DROP,
    /// Redirect to an address and a port.
    REDIRECT(ObjKey, ObjKey),
    REJECT,
    /// Rewrite: find, replace.
    REWRITE(ObjKey, ObjKey),
}

/// A value that the machine compares.
#[derive(Clone, Debug)]
pub enum Object {
    IP(Ipv4),
    Port(u16),
    Data(Vec<u8>),
}

/// The mathematical value of an [`Object`].
pub enum ObjectView {
    IP(Ipv4),
    Port(u16),
    Data(Seq<u8>),
}

impl View for Object {
    type V = ObjectView;

    open spec fn view(&self) -> ObjectView {
        match self {
            Object::IP(a) => ObjectView::IP(*a),
            Object::Port(p) => ObjectView::Port(*p),
            Object::Data(d) => ObjectView::Data(d@),
        }
    }
}

fn bytes_equal(a: &Vec<u8>, b: &Vec<u8>) -> (r: bool)
    ensures
        r == (a@ == b@),
{
    if a.len() != b.len() {
        return false;
    }
    let mut i: usize = 0;
    while i < a.len()
        invariant
            a@.len() == b@.len(),
            i <= a@.len(),
            a@.subrange(0, i as int) == b@.subrange(0, i as int),
        decreases a@.len() - i,
    {
        if a[i] != b[i] {
            assert(a@[i as int] != b@[i as int]);
            return false;
        }
        assert(a@.subrange(0, i + 1) == a@.subrange(0, i as int).push(a@[i as int]));
        assert(b@.subrange(0, i + 1) == b@.subrange(0, i as int).push(b@[i as int]));
        i += 1;
    }
    assert(a@ == a@.subrange(0, a@.len() as int));
    assert(b@ == b@.subrange(0, b@.len() as int));
    true
}

impl Object {
    /// A copy of this object with the same value.
    pub fn copy(&self) -> (r: Object)
        ensures
            r@ == self@,
    {
        match self {
            Object::IP(a) => Object::IP(*a),
            Object::Port(p) => Object::Port(*p),
            Object::Data(d) => Object::Data(d.clone()),
        }
    }

    /// Structural equality of two objects.
    pub fn equals(&self, other: &Object) -> (r: bool)
        ensures
            r == (self@ == other@),
    {
        match (self, other) {
            (Object::IP(a), Object::IP(b)) => *a == *b,
            (Object::Port(a), Object::Port(b)) => *a == *b,
            (Object::Data(a), Object::Data(b)) => bytes_equal(a, b),
            _ => false,
        }
    }
}

impl PartialEq for Object {
    fn eq(&self, other: &Object) -> (r: bool) {
        self.equals(other)
    }
}

impl vstd::std_specs::cmp::PartialEqSpecImpl for Object {
    open spec fn obeys_eq_spec() -> bool {
        true
    }

    open spec fn eq_spec(&self, other: &Object) -> bool {
        self@ == other@
    }
}

/// The result of evaluating a program on a packet.
#[derive(Debug)]
pub enum Action {
    DROP,
    REDIRECT(Object, Object),
    REWRITE(Object, Object),
    REJECT,
}

/// The mathematical value of an [`Action`].
pub enum ActionView {
    DROP,
    REDIRECT(ObjectView, ObjectView),
    REWRITE(ObjectView, ObjectView),
    REJECT,
}

impl View for Action {
    type V = ActionView;

    open spec fn view(&self) -> ActionView {
        match self {
            Action::DROP => ActionView::DROP,
            Action::REDIRECT(a, p) => ActionView::REDIRECT(a@, p@),
            Action::REWRITE(f, r) => ActionView::REWRITE(f@, r@),
            Action::REJECT => ActionView::REJECT,
        }
    }
}

impl Action {
    /// Structural equality of two actions.
    pub fn equals(&self, other: &Action) -> (r: bool)
        ensures
            r == (self@ == other@),
    {
        match (self, other) {
            (Action::DROP, Action::DROP) => true,
            (Action::REJECT, Action::REJECT) => true,
            (Action::REDIRECT(a1, p1), Action::REDIRECT(a2, p2)) => a1.equals(a2) && p1.equals(p2),
            (Action::REWRITE(f1, r1), Action::REWRITE(f2, r2)) => f1.equals(f2) && r1.equals(r2),
            _ => false,
        }
    }
}

impl PartialEq for Action {
    fn eq(&self, other: &Action) -> (r: bool) {
        self.equals(other)
    }
}

impl vstd::std_specs::cmp::PartialEqSpecImpl for Action {
    open spec fn obeys_eq_spec() -> bool {
        true
    }

    open spec fn eq_spec(&self, other: &Action) -> bool {
        self@ == other@
    }
}

/// Instructions and the object pool; the object with key `k` is `data[k]`.
#[derive(Clone, Debug, Default)]
pub struct Program {
    pub instructions: Vec<Instruction>,
    pub data: Vec<Object>,
}

/// What one evaluation reads: the two endpoints and the chunk of bytes.
#[derive(Debug)]
pub struct Packet {
    pub source: (Ipv4, u16),
    pub dest: (Ipv4, u16),
    pub content: Vec<u8>,
}

/// Why a run produced no action.
#[derive(Clone, Copy, Debug, PartialEq, Eq, Structural)]
pub enum VmError {
    /// Control left the instruction list without reaching a terminal instruction.
    EndedWithoutAction,
    /// A key with the top bit set that names no packet field.
    InvalidKey,
    /// A pool key with no object in the pool.
    MissingObject,
    /// A register index outside the register file.
    InvalidRegister,
}

impl VmError {
    /// A description of the error.
    pub fn message(&self) -> (r: &'static str)
        ensures
            r@ == match self {
                VmError::EndedWithoutAction => "Program ended without action"@,
                VmError::InvalidKey => "Invalid key"@,
                VmError::MissingObject => "Missing object"@,
                VmError::InvalidRegister => "Invalid register"@,
            },
    {
        match self {
            VmError::EndedWithoutAction => "Program ended without action",
            VmError::InvalidKey => "Invalid key",
            VmError::MissingObject => "Missing object",
            VmError::InvalidRegister => "Invalid register",
        }
    }
}

/// What the memory controller yields for `key`.
pub open spec fn object_spec(key: ObjKey, program: &Program, packet: &Packet) -> Result<ObjectView, VmError> {
    if key < PACKET_MASK {
        if (key as int) < program.data@.len() {
            Ok(program.data@[key as int]@)
        } else {
            Err(VmError::MissingObject)
        }
    } else if key == PACKET_SOURCE_IP {
        Ok(ObjectView::IP(packet.source.0))
    } else if key == PACKET_SOURCE_PORT {
        Ok(ObjectView::Port(packet.source.1))
    } else if key == PACKET_DEST_IP {
        Ok(ObjectView::IP(packet.dest.0))
    } else if key == PACKET_DEST_PORT {
        Ok(ObjectView::Port(packet.dest.1))
    } else if key == PACKET_CONTENT {
        Ok(ObjectView::Data(packet.content@))
    } else {
        Err(VmError::InvalidKey)
    }
}

/// The value that `SEQ` writes: exactly 1 on equal objects, else 0.
pub open spec fn seq_value(a: ObjectView, b: ObjectView) -> u32 {
    if a == b {
        1
    } else {
        0
    }
}

/// Outcome of a terminal instruction with two operand keys.
pub open spec fn terminal_spec(
    redirect: bool,
    k1: ObjKey,
    k2: ObjKey,
    program: &Program,
    packet: &Packet,
) -> Result<ActionView, VmError> {
    match (object_spec(k1, program, packet), object_spec(k2, program, packet)) {
        (Ok(a), Ok(b)) => if redirect {
            Ok(ActionView::REDIRECT(a, b))
        } else {
            Ok(ActionView::REWRITE(a, b))
        },
        (Err(e), _) => Err(e),
        (_, Err(e)) => Err(e),
    }
}

/// Evaluation from instruction `pc` with register contents `regs` and at most `fuel` more
/// instructions: the result and the final registers. Control leaving the instruction list,
/// or the step budget running out, ends the run without an action.
pub open spec fn run_spec(
    program: &Program,
    packet: &Packet,
    regs: Seq<u32>,
    pc: int,
    fuel: nat,
) -> (Result<ActionView, VmError>, Seq<u32>)
    decreases fuel,
{
    if pc < 0 || pc >= program.instructions@.len() || fuel == 0 {
        (Err(VmError::EndedWithoutAction), regs)
    } else {
        match program.instructions@[pc] {
            Instruction::SEQ(r, k1, k2) => if r >= NUM_REGS {
                (Err(VmError::InvalidRegister), regs)
            } else {
                match (object_spec(k1, program, packet), object_spec(k2, program, packet)) {
                    (Ok(a), Ok(b)) => run_spec(
                        program,
                        packet,
                        regs.update(r as int, seq_value(a, b)),
                        pc + 1,
                        (fuel - 1) as nat,
                    ),
                    (Err(e), _) => (Err(e), regs),
                    (_, Err(e)) => (Err(e), regs),
                }
            },
            Instruction::AND(r0, r1, r2) => if r0 >= NUM_REGS || r1 >= NUM_REGS || r2
                >= NUM_REGS {
                (Err(VmError::InvalidRegister), regs)
            } else {
                run_spec(
                    program,
                    packet,
                    regs.update(r0 as int, regs[r1 as int] & regs[r2 as int]),
                    pc + 1,
                    (fuel - 1) as nat,
                )
            },
            Instruction::OR(r0, r1, r2) => if r0 >= NUM_REGS || r1 >= NUM_REGS || r2
                >= NUM_REGS {
                (Err(VmError::InvalidRegister), regs)
            } else {
                run_spec(
                    program,
                    packet,
                    regs.update(r0 as int, regs[r1 as int] | regs[r2 as int]),
                    pc + 1,
                    (fuel - 1) as nat,
                )
            },
            Instruction::NOT(r0, r1) => if r0 >= NUM_REGS || r1 >= NUM_REGS {
                (Err(VmError::InvalidRegister), regs)
            } else {
                run_spec(
                    program,
                    packet,
                    regs.update(r0 as int, !regs[r1 as int]),
                    pc + 1,
                    (fuel - 1) as nat,
                )
            },
            Instruction::ITE(r, l1, l2) => if r >= NUM_REGS {
                (Err(VmError::InvalidRegister), regs)
            } else {
                let target = if regs[r as int] != 0 {
                    l1
                } else {
                    l2
                };
                run_spec(program, packet, regs, target as int, (fuel - 1) as nat)
            },
            Instruction::DROP => (Ok(ActionView::DROP), regs),
            Instruction::REJECT => (Ok(ActionView::REJECT), regs),
            Instruction::REDIRECT(k1, k2) => (terminal_spec(true, k1, k2, program, packet), regs),
            Instruction::REWRITE(k1, k2) => (terminal_spec(false, k1, k2, program, packet), regs),
        }
    }
}

/// A run from the first instruction: the result and the final registers.
pub open spec fn run_result(program: &Program, packet: &Packet, regs: Seq<u32>) -> (
    Result<ActionView, VmError>,
    Seq<u32>,
) {
    run_spec(program, packet, regs, 0, MAX_STEPS as nat)
}

/// The register file of one evaluation.
pub struct VM {
    pub registers: [u32; NUM_REGS],
}

impl VM {
    /// A machine with every register 0.
    pub fn new() -> (r: VM)
        ensures
            r.registers@ == Seq::new(NUM_REGS as nat, |i: int| 0u32),
    {
        let r = VM { registers: [0u32; NUM_REGS] };
        assert(r.registers@ == Seq::new(NUM_REGS as nat, |i: int| 0u32));
        r
    }

    /// The memory controller: the pool entry for a key with the top bit clear, the packet
    /// field for a reserved key.
    pub fn get_object(&self, key: ObjKey, program: &Program, packet: &Packet) -> (r: Result<
        Object,
        VmError,
    >)
        ensures
            match r {
                Ok(o) => object_spec(key, program, packet) == Ok::<ObjectView, VmError>(o@),
                Err(e) => object_spec(key, program, packet) == Err::<ObjectView, VmError>(e),
            },
    {
        if key < PACKET_MASK {
            if (key as usize) < program.data.len() {
                Ok(program.data[key as usize].copy())
            } else {
                Err(VmError::MissingObject)
            }
        } else if key == PACKET_SOURCE_IP {
            Ok(Object::IP(packet.source.0))
        } else if key == PACKET_SOURCE_PORT {
            Ok(Object::Port(packet.source.1))
        } else if key == PACKET_DEST_IP {
            Ok(Object::IP(packet.dest.0))
        } else if key == PACKET_DEST_PORT {
            Ok(Object::Port(packet.dest.1))
        } else if key == PACKET_CONTENT {
            Ok(Object::Data(packet.content.clone()))
        } else {
            Err(VmError::InvalidKey)
        }
    }

    /// Runs `program` on `packet` from instruction 0 with the current registers, until a
    /// terminal instruction, the end of the instructions, or `MAX_STEPS` instructions.
    pub fn run_program(&mut self, program: &Program, packet: &Packet) -> (r: Result<
        Action,
        VmError,
    >)
        ensures
            final(self).registers@ == run_result(program, packet, old(self).registers@).1,
            match r {
                Ok(a) => run_result(program, packet, old(self).registers@).0 == Ok::<
                    ActionView,
                    VmError,
                >(a@),
                Err(e) => run_result(program, packet, old(self).registers@).0 == Err::<
                    ActionView,
                    VmError,
                >(e),
            },
    {
        let ghost start = self.registers@;
        let n = program.instructions.len();
        let mut pc: usize = 0;
        let mut fuel: u64 = MAX_STEPS;
        while pc < n && fuel > 0
            invariant
                n == program.instructions@.len(),
                start == old(self).registers@,
                self.registers@.len() == NUM_REGS,
                run_result(program, packet, start) == run_spec(
                    program,
                    packet,
                    self.registers@,
                    pc as int,
                    fuel as nat,
                ),
            decreases fuel,
        {
            fuel -= 1;
            match program.instructions[pc] {
                Instruction::SEQ(r0, k1, k2) => {
                    if r0 >= NUM_REGS {
                        return Err(VmError::InvalidRegister);
                    }
                    let a = match self.get_object(k1, program, packet) {
                        Ok(o) => o,
                        Err(e) => {
                            return Err(e);
                        },
                    };
                    let b = match self.get_object(k2, program, packet) {
                        Ok(o) => o,
                        Err(e) => {
                            return Err(e);
                        },
                    };
                    let v: u32 = if a.equals(&b) {
                        1
                    } else {
                        0
                    };
                    self.registers[r0] = v;
                    pc += 1;
                },
                Instruction::AND(r0, r1, r2) => {
                    if r0 >= NUM_REGS || r1 >= NUM_REGS || r2 >= NUM_REGS {
                        return Err(VmError::InvalidRegister);
                    }
                    let v = self.registers[r1] & self.registers[r2];
                    self.registers[r0] = v;
                    pc += 1;
                },
                Instruction::OR(r0, r1, r2) => {
                    if r0 >= NUM_REGS || r1 >= NUM_REGS || r2 >= NUM_REGS {
                        return Err(VmError::InvalidRegister);
                    }
                    let v = self.registers[r1] | self.registers[r2];
                    self.registers[r0] = v;
                    pc += 1;
                },
                Instruction::NOT(r0, r1) => {
                    if r0 >= NUM_REGS || r1 >= NUM_REGS {
                        return Err(VmError::InvalidRegister);
                    }
                    let v = !self.registers[r1];
                    self.registers[r0] = v;
                    pc += 1;
                },
                Instruction::ITE(r0, l1, l2) => {
                    if r0 >= NUM_REGS {
                        return Err(VmError::InvalidRegister);
                    }
                    let target = if self.registers[r0] != 0 {
                        l1
                    } else {
                        l2
                    };
                    pc = target;
                },
                Instruction::DROP => {
                    return Ok(Action::DROP);
                },
                Instruction::REJECT => {
                    return Ok(Action::REJECT);
                },
                Instruction::REDIRECT(k1, k2) => {
                    let a = match self.get_object(k1, program, packet) {
                        Ok(o) => o,
                        Err(e) => {
                            return Err(e);
                        },
                    };
                    let b = match self.get_object(k2, program, packet) {
                        Ok(o) => o,
                        Err(e) => {
                            return Err(e);
                        },
                    };
                    return Ok(Action::REDIRECT(a, b));
                },
                Instruction::REWRITE(k1, k2) => {
                    let a = match self.get_object(k1, program, packet) {
                        Ok(o) => o,
                        Err(e) => {
                            return Err(e);
                        },
                    };
                    let b = match self.get_object(k2, program, packet) {
                        Ok(o) => o,
                        Err(e) => {
                            return Err(e);
                        },
                    };
                    return Ok(Action::REWRITE(a, b));
                },
            }
        }
        Err(VmError::EndedWithoutAction)
    }

    /// Sets every register to 0.
    pub fn reset(&mut self)
        ensures
            final(self).registers@ == Seq::new(NUM_REGS as nat, |i: int| 0u32),
    {
        let mut i: usize = 0;
        while i < NUM_REGS
            invariant
                i <= NUM_REGS,
                self.registers@.len() == NUM_REGS,
                forall|j: int| 0 <= j < i ==> self.registers@[j] == 0u32,
            decreases NUM_REGS - i,
        {
            self.registers[i] = 0;
            i += 1;
        }
        assert(self.registers@ == Seq::new(NUM_REGS as nat, |i: int| 0u32));
    }
}

/// A key that the memory controller resolves: a pool entry or a packet field.
pub open spec fn key_ok(k: ObjKey, n_data: int) -> bool {
    (k < PACKET_MASK && (k as int) < n_data) || k == PACKET_SOURCE_IP || k == PACKET_SOURCE_PORT
        || k == PACKET_DEST_IP || k == PACKET_DEST_PORT || k == PACKET_CONTENT
}

/// The instruction names registers of the file, resolvable keys, and labels that are offsets
/// in `[0, n_instr]`.
pub open spec fn instr_valid(ins: Instruction, n_instr: int, n_data: int) -> bool {
    match ins {
        Instruction::SEQ(r, k1, k2) => r < NUM_REGS && key_ok(k1, n_data) && key_ok(k2, n_data),
        Instruction::AND(r0, r1, r2) => r0 < NUM_REGS && r1 < NUM_REGS && r2 < NUM_REGS,
        Instruction::OR(r0, r1, r2) => r0 < NUM_REGS && r1 < NUM_REGS && r2 < NUM_REGS,
        Instruction::NOT(r0, r1) => r0 < NUM_REGS && r1 < NUM_REGS,
        Instruction::ITE(r, l1, l2) => r < NUM_REGS && l1 <= n_instr && l2 <= n_instr,
        Instruction::DROP => true,
        Instruction::REJECT => true,
        Instruction::REDIRECT(k1, k2) => key_ok(k1, n_data) && key_ok(k2, n_data),
        Instruction::REWRITE(k1, k2) => key_ok(k1, n_data) && key_ok(k2, n_data),
    }
}

/// A program meets the invariants of the bytecode: every register index is in the file,
/// every label is an offset in `[0, |instructions|]`, and every key is a packet field or
/// present in the pool.
pub open spec fn valid_program(p: &Program) -> bool {
    forall|i: int|
        0 <= i < p.instructions@.len() ==> instr_valid(
            #[trigger] p.instructions@[i],
            p.instructions@.len() as int,
            p.data@.len() as int,
        )
}

/// The instruction at offset `i` is valid and each of its labels lies after `i` or is 0.
pub open spec fn instr_ok(ins: Instruction, i: int, n_instr: int, n_data: int) -> bool {
    &&& instr_valid(ins, n_instr, n_data)
    &&& ins matches Instruction::ITE(_, l1, l2) ==> (i < l1 || l1 == 0) && (i < l2 || l2 == 0)
}

/// A valid program whose jumps go forward, apart from jumps back to the start: every label
/// lies after its own instruction or is 0.
pub open spec fn wf_program(p: &Program) -> bool {
    forall|i: int|
        0 <= i < p.instructions@.len() ==> instr_ok(
            #[trigger] p.instructions@[i],
            i,
            p.instructions@.len() as int,
            p.data@.len() as int,
        )
}

/// A program whose jumps go forward is valid.
pub proof fn lemma_wf_valid(p: &Program)
    requires
        wf_program(p),
    ensures
        valid_program(p),
{
    assert forall|i: int| 0 <= i < p.instructions@.len() implies instr_valid(
        #[trigger] p.instructions@[i],
        p.instructions@.len() as int,
        p.data@.len() as int,
    ) by {
        assert(instr_ok(p.instructions@[i], i, p.instructions@.len() as int, p.data@.len() as int));
    }
}

/// On a valid program, every run from any offset, with any registers and any step budget,
/// ends with one of the four actions or with `EndedWithoutAction`, and keeps the register
/// file's size.
pub proof fn lemma_valid_run(
    program: &Program,
    packet: &Packet,
    regs: Seq<u32>,
    pc: int,
    fuel: nat,
)
    requires
        valid_program(program),
        regs.len() == NUM_REGS,
    ensures
        run_spec(program, packet, regs, pc, fuel).0 is Ok || run_spec(
            program,
            packet,
            regs,
            pc,
            fuel,
        ).0 == Err::<ActionView, VmError>(VmError::EndedWithoutAction),
        run_spec(program, packet, regs, pc, fuel).1.len() == NUM_REGS,
    decreases fuel,
{
    if 0 <= pc < program.instructions@.len() && fuel > 0 {
        let ins = program.instructions@[pc];
        let f = (fuel - 1) as nat;
        assert(instr_valid(ins, program.instructions@.len() as int, program.data@.len() as int));
        match ins {
            Instruction::SEQ(r, k1, k2) => {
                let a = object_spec(k1, program, packet);
                let b = object_spec(k2, program, packet);
                assert(a is Ok && b is Ok);
                lemma_valid_run(
                    program,
                    packet,
                    regs.update(r as int, seq_value(a->Ok_0, b->Ok_0)),
                    pc + 1,
                    f,
                );
            },
            Instruction::AND(r0, r1, r2) => {
                lemma_valid_run(
                    program,
                    packet,
                    regs.update(r0 as int, regs[r1 as int] & regs[r2 as int]),
                    pc + 1,
                    f,
                );
            },
            Instruction::OR(r0, r1, r2) => {
                lemma_valid_run(
                    program,
                    packet,
                    regs.update(r0 as int, regs[r1 as int] | regs[r2 as int]),
                    pc + 1,
                    f,
                );
            },
            Instruction::NOT(r0, r1) => {
                lemma_valid_run(program, packet, regs.update(r0 as int, !regs[r1 as int]), pc + 1, f);
            },
            Instruction::ITE(r, l1, l2) => {
                let target = if regs[r as int] != 0 {
                    l1
                } else {
                    l2
                };
                lemma_valid_run(program, packet, regs, target as int, f);
            },
            _ => {},
        }
    }
}

/// `SEQ` writes exactly 0 or 1, and 1 precisely on equal objects.
pub proof fn lemma_seq_value(a: ObjectView, b: ObjectView)
    ensures
        seq_value(a, b) == 0 || seq_value(a, b) == 1,
        seq_value(a, b) == 1 <==> a == b,
{
}

/// Two programs with the same instructions and the same pool values.
pub open spec fn same_code(p1: &Program, p2: &Program) -> bool {
    p1.instructions@ == p2.instructions@ && p1.data@.map_values(|o: Object| o@)
        == p2.data@.map_values(|o: Object| o@)
}

/// Runs read a program only through its instructions and its pool values: programs with
/// the same code give the same result and registers.
pub proof fn lemma_run_same(
    p1: &Program,
    p2: &Program,
    packet: &Packet,
    regs: Seq<u32>,
    pc: int,
    fuel: nat,
)
    requires
        same_code(p1, p2),
    ensures
        run_spec(p1, packet, regs, pc, fuel) == run_spec(p2, packet, regs, pc, fuel),
    decreases fuel,
{
    assert(p1.data@.len() == p2.data@.len()) by {
        assert(p1.data@.map_values(|o: Object| o@).len() == p2.data@.map_values(|o: Object| o@).len());
    }
    assert forall|k: ObjKey| #[trigger] object_spec(k, p1, packet) == object_spec(k, p2, packet) by {
        if k < PACKET_MASK && (k as int) < p1.data@.len() {
            assert(p1.data@.map_values(|o: Object| o@)[k as int] == p2.data@.map_values(|o: Object| o@)[k as int]);
        }
    }
    if 0 <= pc < p1.instructions@.len() && fuel > 0 {
        let f = (fuel - 1) as nat;
        match p1.instructions@[pc] {
            Instruction::SEQ(r, k1, k2) => {
                let a = object_spec(k1, p1, packet);
                let b = object_spec(k2, p1, packet);
                if a is Ok && b is Ok {
                    lemma_run_same(p1, p2, packet, regs.update(r as int, seq_value(a->Ok_0, b->Ok_0)), pc + 1, f);
                }
            },
            Instruction::AND(r0, r1, r2) => {
                lemma_run_same(p1, p2, packet, regs.update(r0 as int, regs[r1 as int] & regs[r2 as int]), pc + 1, f);
            },
            Instruction::OR(r0, r1, r2) => {
                lemma_run_same(p1, p2, packet, regs.update(r0 as int, regs[r1 as int] | regs[r2 as int]), pc + 1, f);
            },
            Instruction::NOT(r0, r1) => {
                lemma_run_same(p1, p2, packet, regs.update(r0 as int, !regs[r1 as int]), pc + 1, f);
            },
            Instruction::ITE(r, l1, l2) => {
                let target = if regs[r as int] != 0 {
                    l1
                } else {
                    l2
                };
                lemma_run_same(p1, p2, packet, regs, target as int, f);
            },
            Instruction::REDIRECT(k1, k2) => {
                assert(object_spec(k1, p1, packet) == object_spec(k1, p2, packet));
                assert(object_spec(k2, p1, packet) == object_spec(k2, p2, packet));
            },
            Instruction::REWRITE(k1, k2) => {
                assert(object_spec(k1, p1, packet) == object_spec(k1, p2, packet));
                assert(object_spec(k2, p1, packet) == object_spec(k2, p2, packet));
            },
            _ => {},
        }
    }
}

} // verus!
