use vstd::prelude::*;
use vstd::string::*;
use vstd::utf8::encode_utf8;

use crate::addr::{ipv4_spec, parse_ipv4};
use crate::ast::{same_ast, same_outcome, text_is, AstNode, Keyword, RuleOutcome, SpecialForm};
use crate::parser::chars_of;
use crate::vm::{
    instr_ok, key_ok, wf_program, Instruction, Label, ObjKey, Object, ObjectView, Program, Reg,
    NUM_REGS, PACKET_CONTENT, PACKET_MASK, PACKET_SOURCE_IP, PACKET_SOURCE_PORT,
};

verus! {

/// Pool key of the constant `TRUE`, the first object of every compiled program.
pub const TRUE_KEY: ObjKey = 0;

/// Pool key of the constant `FALSE`, the second object of every compiled program.
pub const FALSE_KEY: ObjKey = 1;

/// Why a validated tree could not be lowered to bytecode.
#[derive(Clone, Copy, Debug, PartialEq, Eq, Structural)]
pub enum CodegenError {
    /// The tree is not a program, or a form stands where it cannot.
    InvalidProgram,
    /// An identifier that no `def-var` introduced.
    UnknownIdentifier,
    /// A string that is not a dotted-quad IPv4 address.
    InvalidAddress,
    /// A number outside `[0, 65535]` where a port is expected.
    InvalidPort,
    /// A predicate other than an identifier, a boolean or `(exact? a b)`.
    UnsupportedPredicate,
    /// Conditions nested deeper than the register file.
    TooManyRegisters,
    /// More objects than pool keys.
    PoolFull,
}

/// The state of a lowering as values: the instructions and the pool so far, the name
/// bindings in order, the next free register and the pending `CONTINUE` jump.
pub struct GenState {
    pub instrs: Seq<Instruction>,
    pub data: Seq<ObjectView>,
    pub names: Seq<(Seq<char>, ObjKey)>,
    pub reg: usize,
    pub pending: Option<Label>,
}

/// The state a lowering starts from: the pool holds `TRUE` and `FALSE`.
pub open spec fn initial_state() -> GenState {
    GenState {
        instrs: Seq::empty(),
        data: seq![ObjectView::Port(1), ObjectView::Port(0)],
        names: seq![("TRUE"@, TRUE_KEY), ("FALSE"@, FALSE_KEY)],
        reg: 0,
        pending: None,
    }
}

/// The key that `name` was last bound to.
pub open spec fn lookup_spec(names: Seq<(Seq<char>, ObjKey)>, name: Seq<char>) -> Option<ObjKey>
    decreases names.len(),
{
    if names.len() == 0 {
        None
    } else if names.last().0 == name {
        Some(names.last().1)
    } else {
        lookup_spec(names.drop_last(), name)
    }
}

/// Adds an object to the pool, bound to `name` where one is given.
pub open spec fn insert_spec(st: GenState, name: Option<Seq<char>>, obj: ObjectView) -> Result<
    (GenState, ObjKey),
    CodegenError,
> {
    if st.data.len() >= PACKET_MASK - 1 {
        Err(CodegenError::PoolFull)
    } else {
        let k = st.data.len() as ObjKey;
        Ok(
            (
                GenState {
                    data: st.data.push(obj),
                    names: match name {
                        Some(n) => st.names.push((n, k)),
                        None => st.names,
                    },
                    ..st
                },
                k,
            ),
        )
    }
}

/// Appends an instruction; yields its label.
pub open spec fn add_spec(st: GenState, ins: Instruction) -> (GenState, Label) {
    (GenState { instrs: st.instrs.push(ins), ..st }, st.instrs.len() as Label)
}

/// Replaces the instruction at `l`.
pub open spec fn patch_spec(st: GenState, l: Label, ins: Instruction) -> GenState {
    GenState { instrs: st.instrs.update(l as int, ins), ..st }
}

/// Room for two more instructions.
pub open spec fn room_ok(st: GenState) -> bool {
    st.instrs.len() + 2 < usize::MAX
}

pub open spec fn name_view(name: Option<String>) -> Option<Seq<char>> {
    match name {
        Some(n) => Some(n@),
        None => None,
    }
}

/// The key of an operand of `exact?`: a packet field, a constant, a bound name, or a fresh
/// address object for a string.
pub open spec fn operand_spec(st: GenState, node: AstNode) -> Result<(GenState, ObjKey), CodegenError> {
    match node {
        AstNode::Bool(b) => Ok((st, if b { TRUE_KEY } else { FALSE_KEY })),
        AstNode::Ident(s) => if s@ == ":packet-source-ip"@ {
            Ok((st, PACKET_SOURCE_IP))
        } else if s@ == ":packet-source-port"@ {
            Ok((st, PACKET_SOURCE_PORT))
        } else if s@ == ":packet-content"@ {
            Ok((st, PACKET_CONTENT))
        } else {
            match lookup_spec(st.names, s@) {
                Some(k) => Ok((st, k)),
                None => Err(CodegenError::UnknownIdentifier),
            }
        },
        AstNode::String(s) => match ipv4_spec(s@) {
            Some(ip) => insert_spec(st, None, ObjectView::IP(ip)),
            None => Err(CodegenError::InvalidAddress),
        },
        _ => Err(CodegenError::UnsupportedPredicate),
    }
}

/// The two keys that a predicate compares.
pub open spec fn pred_keys_spec(st: GenState, predicate: AstNode) -> Result<
    (GenState, ObjKey, ObjKey),
    CodegenError,
> {
    match predicate {
        AstNode::Bool(b) => Ok((st, TRUE_KEY, if b { TRUE_KEY } else { FALSE_KEY })),
        AstNode::Ident(name) => match lookup_spec(st.names, name@) {
            Some(k) => Ok((st, k, TRUE_KEY)),
            None => Err(CodegenError::UnknownIdentifier),
        },
        AstNode::Sexp(items) => if items@.len() != 3 {
            Err(CodegenError::UnsupportedPredicate)
        } else {
            match items@[0] {
                AstNode::Ident(head) => if head@ != "exact?"@ {
                    Err(CodegenError::UnsupportedPredicate)
                } else {
                    match operand_spec(st, items@[1]) {
                        Ok((s1, a)) => match operand_spec(s1, items@[2]) {
                            Ok((s2, b)) => Ok((s2, a, b)),
                            Err(e) => Err(e),
                        },
                        Err(e) => Err(e),
                    }
                },
                _ => Err(CodegenError::UnsupportedPredicate),
            }
        },
        _ => Err(CodegenError::UnsupportedPredicate),
    }
}

/// A predicate lowers to one `SEQ` into the next free register, which it then takes.
pub open spec fn pred_spec(st: GenState, predicate: AstNode) -> Result<(GenState, Label), CodegenError> {
    if !room_ok(st) {
        Err(CodegenError::InvalidProgram)
    } else {
        match pred_keys_spec(st, predicate) {
            Ok((s1, k1, k2)) => {
                let (s2, l) = add_spec(s1, Instruction::SEQ(st.reg, k1, k2));
                Ok((GenState { reg: (st.reg + 1) as usize, ..s2 }, l))
            },
            Err(e) => Err(e),
        }
    }
}

/// An outcome lowers to its terminal instruction and the objects it names, and yields
/// that instruction's label. `CONTINUE` lowers to `SEQ(R, TRUE, TRUE)` and the placeholder
/// `ITE(R, 0, 0)`, recorded as pending: the enclosing `if` points its true target past its
/// alternative. The false target stays 0; it is never taken, since `R` holds 1.
pub open spec fn outcome_spec(st: GenState, outcome: RuleOutcome) -> Result<(GenState, Label), CodegenError> {
    if !room_ok(st) {
        Err(CodegenError::InvalidProgram)
    } else {
        match outcome {
            RuleOutcome::DROP => Ok(add_spec(st, Instruction::DROP)),
            RuleOutcome::REJECT => Ok(add_spec(st, Instruction::REJECT)),
            RuleOutcome::REDIRECT { addr, port } => match ipv4_spec(addr@) {
                Some(ip) => match insert_spec(st, None, ObjectView::IP(ip)) {
                    Ok((s1, a)) => match insert_spec(s1, None, ObjectView::Port(port)) {
                        Ok((s2, p)) => Ok(add_spec(s2, Instruction::REDIRECT(a, p))),
                        Err(e) => Err(e),
                    },
                    Err(e) => Err(e),
                },
                None => Err(CodegenError::InvalidAddress),
            },
            RuleOutcome::REWRITE { pattern, replace_with } => match insert_spec(
                st,
                None,
                ObjectView::Data(encode_utf8(pattern@)),
            ) {
                Ok((s1, f)) => match insert_spec(
                    s1,
                    None,
                    ObjectView::Data(encode_utf8(replace_with@)),
                ) {
                    Ok((s2, r)) => Ok(add_spec(s2, Instruction::REWRITE(f, r))),
                    Err(e) => Err(e),
                },
                Err(e) => Err(e),
            },
            RuleOutcome::CONTINUE => if st.reg >= NUM_REGS {
                Err(CodegenError::TooManyRegisters)
            } else {
                let (s1, _) = add_spec(st, Instruction::SEQ(st.reg, TRUE_KEY, TRUE_KEY));
                let (s2, ite) = add_spec(s1, Instruction::ITE(st.reg, 0, 0));
                Ok((GenState { pending: Some(ite), ..s2 }, ite))
            },
        }
    }
}

/// After an `if` whose code ends before `end`, a pending `CONTINUE` jump takes `end` as its
/// true target: the instruction right after the rule.
pub open spec fn settle_continue(st: GenState, end: Label) -> GenState {
    match st.pending {
        Some(c) => match st.instrs[c as int] {
            Instruction::ITE(creg, _, f) => GenState {
                pending: None,
                ..patch_spec(st, c, Instruction::ITE(creg, end, f))
            },
            _ => GenState { pending: None, ..st },
        },
        None => st,
    }
}

/// A rule body: an outcome, which yields its instruction's label, or `if` with its predicate
/// in a fresh register, a jump, the consequent, the alternative, and the jump patched to the
/// two branches; an `if` yields the position just past its code.
pub open spec fn rule_spec(st: GenState, body: AstNode) -> Result<(GenState, Label), CodegenError>
    decreases body,
{
    match body {
        AstNode::Keyword(Keyword::Outcome(outcome)) => outcome_spec(st, outcome),
        AstNode::Keyword(
            Keyword::SpecialForm(SpecialForm::If { predicate, consequent, alternative }),
        ) => {
            let reg = st.reg;
            if reg >= NUM_REGS {
                Err(CodegenError::TooManyRegisters)
            } else {
                match pred_spec(st, *predicate) {
                    Ok((s1, _)) => if !room_ok(s1) {
                        Err(CodegenError::InvalidProgram)
                    } else {
                        let next = s1.instrs.len();
                        let (s2, ite) = add_spec(
                            s1,
                            Instruction::ITE(reg, (next + 1) as Label, (next + 1) as Label),
                        );
                        match rule_spec(s2, *consequent) {
                            Ok((s3, _)) => match rule_spec(s3, *alternative) {
                                Ok((s4, _)) => {
                                    let cons_end = s3.instrs.len() as Label;
                                    let end = s4.instrs.len() as Label;
                                    let s5 = patch_spec(
                                        s4,
                                        ite,
                                        Instruction::ITE(reg, (ite + 1) as Label, cons_end),
                                    );
                                    Ok((settle_continue(GenState { reg, ..s5 }, end), end))
                                },
                                Err(e) => Err(e),
                            },
                            Err(e) => Err(e),
                        }
                    },
                    Err(e) => Err(e),
                }
            }
        },
        _ => Err(CodegenError::InvalidProgram),
    }
}

/// `def-var`: a number is a port, a boolean names `TRUE` or `FALSE`, an identifier copies
/// the object it names, a string is an address.
pub open spec fn var_spec(st: GenState, name: Seq<char>, value: AstNode) -> Result<GenState, CodegenError> {
    let inserted = |r: Result<(GenState, ObjKey), CodegenError>| match r {
        Ok((s, _)) => Ok::<GenState, CodegenError>(s),
        Err(e) => Err(e),
    };
    match value {
        AstNode::Num(n) => if n < 0 || n > 65535 {
            Err(CodegenError::InvalidPort)
        } else {
            inserted(insert_spec(st, Some(name), ObjectView::Port(n as u16)))
        },
        AstNode::Bool(b) => Ok(
            GenState { names: st.names.push((name, if b { TRUE_KEY } else { FALSE_KEY })), ..st },
        ),
        AstNode::Ident(other) => match lookup_spec(st.names, other@) {
            Some(k) => inserted(insert_spec(st, Some(name), st.data[k as int])),
            None => Err(CodegenError::UnknownIdentifier),
        },
        AstNode::String(s) => match ipv4_spec(s@) {
            Some(ip) => inserted(insert_spec(st, Some(name), ObjectView::IP(ip))),
            None => Err(CodegenError::InvalidAddress),
        },
        _ => Err(CodegenError::InvalidProgram),
    }
}

/// One top-level statement.
#[verifier::opaque]
pub open spec fn statement_spec(st: GenState, statement: AstNode) -> Result<GenState, CodegenError> {
    match statement {
        AstNode::Keyword(Keyword::SpecialForm(SpecialForm::DefVar { name, value })) => var_spec(
            st,
            name@,
            *value,
        ),
        AstNode::Keyword(Keyword::SpecialForm(SpecialForm::DefRule { name, body })) => match rule_spec(
            st,
            *body,
        ) {
            Ok((s, _)) => Ok(s),
            Err(e) => Err(e),
        },
        AstNode::Keyword(Keyword::SpecialForm(SpecialForm::SetMode { .. })) => Ok(st),
        _ => Err(CodegenError::InvalidProgram),
    }
}

/// The statements from `i` on, in order.
pub open spec fn statements_spec(st: GenState, stmts: Seq<AstNode>, i: int) -> Result<GenState, CodegenError>
    decreases stmts.len() - i,
{
    if i < 0 || i >= stmts.len() {
        Ok(st)
    } else {
        match statement_spec(st, stmts[i]) {
            Ok(s) => statements_spec(s, stmts, i + 1),
            Err(e) => Err(e),
        }
    }
}

/// The bytecode of a program tree: its instructions and its pool.
pub open spec fn codegen_spec(ast: AstNode) -> Result<(Seq<Instruction>, Seq<ObjectView>), CodegenError> {
    match ast {
        AstNode::Program(statements) => match statements_spec(initial_state(), statements@, 0) {
            Ok(s) => Ok((s.instrs, s.data)),
            Err(e) => Err(e),
        },
        _ => Err(CodegenError::InvalidProgram),
    }
}

proof fn lemma_operand_same(st: GenState, a: AstNode, b: AstNode)
    requires
        same_ast(a, b),
    ensures
        operand_spec(st, a) == operand_spec(st, b),
{
}

proof fn lemma_pred_same(st: GenState, a: AstNode, b: AstNode)
    requires
        same_ast(a, b),
    ensures
        pred_spec(st, a) == pred_spec(st, b),
{
    match (a, b) {
        (AstNode::Sexp(v), AstNode::Sexp(w)) => {
            if v@.len() == 3 {
                assert(same_ast(v@[0], w@[0]));
                assert(same_ast(v@[1], w@[1]));
                assert(same_ast(v@[2], w@[2]));
                lemma_operand_same(st, v@[1], w@[1]);
                if operand_spec(st, v@[1]) is Ok {
                    lemma_operand_same(operand_spec(st, v@[1])->Ok_0.0, v@[2], w@[2]);
                }
                assert(pred_keys_spec(st, a) == pred_keys_spec(st, b));
            }
        },
        _ => {},
    }
}

proof fn lemma_outcome_same(st: GenState, a: RuleOutcome, b: RuleOutcome)
    requires
        same_outcome(a, b),
    ensures
        outcome_spec(st, a) == outcome_spec(st, b),
{
}

proof fn lemma_rule_same(st: GenState, a: AstNode, b: AstNode)
    requires
        same_ast(a, b),
    ensures
        rule_spec(st, a) == rule_spec(st, b),
    decreases a,
{
    match (a, b) {
        (AstNode::Keyword(Keyword::Outcome(o1)), AstNode::Keyword(Keyword::Outcome(o2))) => {
            lemma_outcome_same(st, o1, o2);
        },
        (
            AstNode::Keyword(
                Keyword::SpecialForm(SpecialForm::If { predicate: p1, consequent: c1, alternative: e1 }),
            ),
            AstNode::Keyword(
                Keyword::SpecialForm(SpecialForm::If { predicate: p2, consequent: c2, alternative: e2 }),
            ),
        ) => {
            lemma_pred_same(st, *p1, *p2);
            match pred_spec(st, *p1) {
                Ok((s1, _)) => {
                    let next = s1.instrs.len();
                    let (s2, _) = add_spec(
                        s1,
                        Instruction::ITE(st.reg, (next + 1) as Label, (next + 1) as Label),
                    );
                    lemma_rule_same(s2, *c1, *c2);
                    match rule_spec(s2, *c1) {
                        Ok((s3, _)) => {
                            lemma_rule_same(s3, *e1, *e2);
                        },
                        Err(_) => {},
                    }
                },
                Err(_) => {},
            }
        },
        _ => {},
    }
}

proof fn lemma_var_same(st: GenState, name: Seq<char>, a: AstNode, b: AstNode)
    requires
        same_ast(a, b),
    ensures
        var_spec(st, name, a) == var_spec(st, name, b),
{
    match (a, b) {
        (AstNode::Num(x), AstNode::Num(y)) => {
            assert(x == y);
        },
        (AstNode::Bool(x), AstNode::Bool(y)) => {
            assert(x == y);
        },
        (AstNode::Ident(x), AstNode::Ident(y)) => {
            assert(x@ == y@);
        },
        (AstNode::String(x), AstNode::String(y)) => {
            assert(x@ == y@);
        },
        _ => {},
    }
}

proof fn lemma_statement_same(st: GenState, a: AstNode, b: AstNode)
    requires
        same_ast(a, b),
    ensures
        statement_spec(st, a) == statement_spec(st, b),
{
    reveal(statement_spec);
    match (a, b) {
        (
            AstNode::Keyword(Keyword::SpecialForm(SpecialForm::DefRule { body: v1, .. })),
            AstNode::Keyword(Keyword::SpecialForm(SpecialForm::DefRule { body: v2, .. })),
        ) => {
            lemma_rule_same(st, *v1, *v2);
        },
        (
            AstNode::Keyword(Keyword::SpecialForm(SpecialForm::DefVar { value: v1, .. })),
            AstNode::Keyword(Keyword::SpecialForm(SpecialForm::DefVar { value: v2, .. })),
        ) => {
            lemma_var_same(st, a->Keyword_0->SpecialForm_0->DefVar_name@, *v1, *v2);
        },
        _ => {},
    }
}

proof fn lemma_statements_same(st: GenState, v: Seq<AstNode>, w: Seq<AstNode>, i: int)
    requires
        v.len() == w.len(),
        forall|k: int| 0 <= k < v.len() ==> same_ast(#[trigger] v[k], w[k]),
    ensures
        statements_spec(st, v, i) == statements_spec(st, w, i),
    decreases v.len() - i,
{
    if 0 <= i < v.len() {
        lemma_statement_same(st, v[i], w[i]);
        match statement_spec(st, v[i]) {
            Ok(s) => lemma_statements_same(s, v, w, i + 1),
            Err(_) => {},
        }
    }
}

/// Lowering reads a tree only through its shape, texts, numbers and flags: two trees that
/// agree on those lower to the same instructions and pool, or fail the same way.
pub proof fn lemma_codegen_same(a: AstNode, b: AstNode)
    requires
        same_ast(a, b),
    ensures
        codegen_spec(a) == codegen_spec(b),
{
    match (a, b) {
        (AstNode::Program(v), AstNode::Program(w)) => {
            lemma_statements_same(initial_state(), v@, w@, 0);
        },
        _ => {},
    }
}

/// The state of one lowering.
struct CodeGen {
    program: Program,
    names: Vec<(String, ObjKey)>,
    curr_reg: Reg,
    should_continue: Option<Label>,
}

impl CodeGen {
    spec fn state(&self) -> GenState {
        GenState {
            instrs: self.program.instructions@,
            data: self.program.data@.map_values(|o: Object| o@),
            names: self.names@.map_values(|p: (String, ObjKey)| (p.0@, p.1)),
            reg: self.curr_reg,
            pending: self.should_continue,
        }
    }

    spec fn inv(&self) -> bool {
        &&& wf_program(&self.program)
        &&& self.program.data@.len() < PACKET_MASK
        &&& self.program.data@.len() >= 2
        &&& self.program.instructions@.len() < usize::MAX
        &&& forall|j: int|
            0 <= j < self.names@.len() ==> (#[trigger] self.names@[j]).1 < self.program.data@.len()
        &&& self.curr_reg <= NUM_REGS
        &&& self.should_continue matches Some(c) ==> c < self.program.instructions@.len()
    }

    spec fn n_instr(&self) -> int {
        self.program.instructions@.len() as int
    }

    spec fn n_data(&self) -> int {
        self.program.data@.len() as int
    }

    /// `self` grew from `old`: nothing was taken away from the program.
    spec fn grew(&self, old: &CodeGen) -> bool {
        &&& self.n_instr() >= old.n_instr()
        &&& self.n_data() >= old.n_data()
        &&& forall|k: int| 0 <= k < old.n_data() ==> #[trigger] self.program.data@[k] == old.program.data@[k]
    }

    fn new() -> (r: CodeGen)
        ensures
            r.inv(),
            r.program.instructions@.len() == 0,
            r.program.data@.len() == 2,
            r.program.data@[TRUE_KEY as int]@ == ObjectView::Port(1),
            r.program.data@[FALSE_KEY as int]@ == ObjectView::Port(0),
            r.state() == initial_state(),
    {
        let mut data: Vec<Object> = Vec::new();
        data.push(Object::Port(1));
        data.push(Object::Port(0));
        let mut names: Vec<(String, ObjKey)> = Vec::new();
        names.push((String::from_str("TRUE"), TRUE_KEY));
        names.push((String::from_str("FALSE"), FALSE_KEY));
        let r = CodeGen {
            program: Program { instructions: Vec::new(), data },
            names,
            curr_reg: 0,
            should_continue: None,
        };
        assert(r.state().instrs =~= initial_state().instrs);
        assert(r.state().data =~= initial_state().data);
        assert(r.state().names =~= initial_state().names);
        r
    }

    proof fn lemma_instr_ok_grows(&self, old: &CodeGen)
        requires
            old.inv(),
            self.n_instr() >= old.n_instr(),
            self.n_data() >= old.n_data(),
            forall|i: int|
                0 <= i < old.n_instr() ==> self.program.instructions@[i]
                    == old.program.instructions@[i],
        ensures
            forall|i: int|
                0 <= i < old.n_instr() ==> instr_ok(
                    #[trigger] self.program.instructions@[i],
                    i,
                    self.n_instr(),
                    self.n_data(),
                ),
    {
        assert forall|i: int| 0 <= i < old.n_instr() implies instr_ok(
            #[trigger] self.program.instructions@[i],
            i,
            self.n_instr(),
            self.n_data(),
        ) by {
            assert(instr_ok(old.program.instructions@[i], i, old.n_instr(), old.n_data()));
        }
    }

    /// Adds an object to the pool, under `name` where one is given.
    fn insert_obj(&mut self, name: Option<String>, obj: Object) -> (r: Result<ObjKey, CodegenError>)
        requires
            old(self).inv(),
        ensures
            final(self).inv(),
            final(self).grew(old(self)),
            final(self).n_instr() == old(self).n_instr(),
            final(self).should_continue == old(self).should_continue,
            final(self).curr_reg == old(self).curr_reg,
            r matches Ok(k) ==> (k as int) < final(self).n_data() && k < PACKET_MASK
                && final(self).program.data@[k as int]@ == obj@,
            match r {
                Ok(k) => insert_spec(old(self).state(), name_view(name), obj@) == Ok::<
                    (GenState, ObjKey),
                    CodegenError,
                >((final(self).state(), k)),
                Err(e) => insert_spec(old(self).state(), name_view(name), obj@) == Err::<
                    (GenState, ObjKey),
                    CodegenError,
                >(e),
            },
    {
        let k = self.program.data.len();
        if k >= (PACKET_MASK - 1) as usize {
            return Err(CodegenError::PoolFull);
        }
        let ghost before = *self;
        self.program.data.push(obj);
        let key = k as ObjKey;
        match name {
            Some(n) => {
                self.names.push((n, key));
            },
            None => {},
        }
        proof {
            assert forall|j: int| 0 <= j < self.names@.len() implies (#[trigger] self.names@[j]).1
                < self.program.data@.len() by {
                if j < before.names@.len() {
                    assert(self.names@[j] == before.names@[j]);
                }
            }
            self.lemma_instr_ok_grows(&before);
            assert(self.state().data =~= before.state().data.push(obj@));
            assert(self.state().names =~= (match name_view(name) {
                Some(n) => before.state().names.push((n, key)),
                None => before.state().names,
            }));
        }
        Ok(key)
    }

    /// The key that `name` was last bound to.
    fn get_obj_key(&self, name: &str) -> (r: Result<ObjKey, CodegenError>)
        requires
            self.inv(),
        ensures
            r matches Ok(k) ==> k < PACKET_MASK && (k as int) < self.n_data(),
            match r {
                Ok(k) => lookup_spec(self.state().names, name@) == Some(k),
                Err(e) => lookup_spec(self.state().names, name@) is None && e
                    == CodegenError::UnknownIdentifier,
            },
    {
        let ghost all = self.state().names;
        let mut i = self.names.len();
        assert(all.subrange(0, i as int) =~= all);
        while i > 0
            invariant
                i <= self.names@.len(),
                self.inv(),
                all == self.state().names,
                lookup_spec(all, name@) == lookup_spec(all.subrange(0, i as int), name@),
            decreases i,
        {
            let ghost prefix = all.subrange(0, i as int);
            assert(prefix.drop_last() =~= all.subrange(0, i - 1));
            i -= 1;
            if text_is(self.names[i].0.as_str(), name) {
                return Ok(self.names[i].1);
            }
        }
        assert(all.subrange(0, 0) =~= Seq::<(Seq<char>, ObjKey)>::empty());
        Err(CodegenError::UnknownIdentifier)
    }

    fn add_instr(&mut self, instr: Instruction) -> (r: Label)
        requires
            old(self).inv(),
            instr_ok(instr, old(self).n_instr(), old(self).n_instr() + 1, old(self).n_data()),
            old(self).n_instr() + 1 < usize::MAX,
        ensures
            final(self).inv(),
            final(self).grew(old(self)),
            final(self).n_instr() == old(self).n_instr() + 1,
            final(self).n_data() == old(self).n_data(),
            final(self).should_continue == old(self).should_continue,
            final(self).curr_reg == old(self).curr_reg,
            r == old(self).n_instr(),
            add_spec(old(self).state(), instr) == (final(self).state(), r),
    {
        let ghost before = *self;
        let label = self.program.instructions.len();
        self.program.instructions.push(instr);
        proof {
            self.lemma_instr_ok_grows(&before);
        }
        label
    }

    fn update_instr(&mut self, label: Label, instr: Instruction)
        requires
            old(self).inv(),
            label < old(self).n_instr(),
            instr_ok(instr, label as int, old(self).n_instr(), old(self).n_data()),
        ensures
            final(self).inv(),
            final(self).grew(old(self)),
            final(self).n_instr() == old(self).n_instr(),
            final(self).n_data() == old(self).n_data(),
            final(self).should_continue == old(self).should_continue,
            final(self).curr_reg == old(self).curr_reg,
            final(self).state() == patch_spec(old(self).state(), label, instr),
    {
        let ghost before = *self;
        self.program.instructions.set(label, instr);
        proof {
            assert forall|i: int| 0 <= i < self.n_instr() implies instr_ok(
                #[trigger] self.program.instructions@[i],
                i,
                self.n_instr(),
                self.n_data(),
            ) by {
                if i != label {
                    assert(self.program.instructions@[i] == before.program.instructions@[i]);
                    assert(instr_ok(
                        before.program.instructions@[i],
                        i,
                        before.n_instr(),
                        before.n_data(),
                    ));
                }
            }
        }
    }

    /// Makes sure that two more instructions fit.
    fn room(&self) -> (r: Result<(), CodegenError>)
        ensures
            r is Ok ==> self.n_instr() + 2 < usize::MAX,
            r is Ok <==> room_ok(self.state()),
            r matches Err(e) ==> e == CodegenError::InvalidProgram,
    {
        if self.program.instructions.len() >= usize::MAX - 2 {
            Err(CodegenError::InvalidProgram)
        } else {
            Ok(())
        }
    }
}

fn ip_object(s: &String) -> (r: Result<Object, CodegenError>)
    ensures
        match r {
            Ok(o) => ipv4_spec(s@) matches Some(ip) && o@ == ObjectView::IP(ip),
            Err(e) => ipv4_spec(s@) is None && e == CodegenError::InvalidAddress,
        },
{
    let cs = chars_of(s.as_str());
    match parse_ipv4(&cs) {
        Some(ip) => Ok(Object::IP(ip)),
        None => Err(CodegenError::InvalidAddress),
    }
}

/// The key of an operand of `exact?`.
fn codegen_get_obj_key(env: &mut CodeGen, node: &AstNode) -> (r: Result<ObjKey, CodegenError>)
    requires
        old(env).inv(),
    ensures
        final(env).inv(),
        final(env).grew(old(env)),
        final(env).n_instr() == old(env).n_instr(),
        final(env).should_continue == old(env).should_continue,
        final(env).curr_reg == old(env).curr_reg,
        r matches Ok(k) ==> key_ok(k, final(env).n_data()),
        match r {
            Ok(k) => operand_spec(old(env).state(), *node) == Ok::<(GenState, ObjKey), CodegenError>(
                (final(env).state(), k),
            ),
            Err(e) => operand_spec(old(env).state(), *node) == Err::<(GenState, ObjKey), CodegenError>(e),
        },
{
    match node {
        AstNode::Bool(b) => Ok(
            if *b {
                TRUE_KEY
            } else {
                FALSE_KEY
            },
        ),
        AstNode::Ident(s) => {
            if text_is(s.as_str(), ":packet-source-ip") {
                Ok(PACKET_SOURCE_IP)
            } else if text_is(s.as_str(), ":packet-source-port") {
                Ok(PACKET_SOURCE_PORT)
            } else if text_is(s.as_str(), ":packet-content") {
                Ok(PACKET_CONTENT)
            } else {
                env.get_obj_key(s.as_str())
            }
        },
        AstNode::String(s) => {
            let obj = ip_object(s)?;
            env.insert_obj(None, obj)
        },
        _ => Err(CodegenError::UnsupportedPredicate),
    }
}

/// Lowers a predicate into instructions that leave its truth value in the next free
/// register, which it then takes.
fn codegen_pred(env: &mut CodeGen, predicate: &AstNode) -> (r: Result<Label, CodegenError>)
    requires
        old(env).inv(),
        old(env).curr_reg < NUM_REGS,
    ensures
        final(env).inv(),
        final(env).grew(old(env)),
        final(env).should_continue == old(env).should_continue,
        r is Ok ==> final(env).curr_reg == old(env).curr_reg + 1,
        r matches Ok(l) ==> l + 1 == final(env).n_instr() && l >= old(env).n_instr(),
        match r {
            Ok(l) => pred_spec(old(env).state(), *predicate) == Ok::<(GenState, Label), CodegenError>(
                (final(env).state(), l),
            ),
            Err(e) => pred_spec(old(env).state(), *predicate) == Err::<(GenState, Label), CodegenError>(e),
        },
{
    let reg = env.curr_reg;
    env.room()?;
    let (k1, k2) = match predicate {
        AstNode::Bool(b) => (
            TRUE_KEY,
            if *b {
                TRUE_KEY
            } else {
                FALSE_KEY
            },
        ),
        AstNode::Ident(name) => (env.get_obj_key(name.as_str())?, TRUE_KEY),
        AstNode::Sexp(items) => {
            if items.len() != 3 {
                return Err(CodegenError::UnsupportedPredicate);
            }
            match &items[0] {
                AstNode::Ident(head) => {
                    if !text_is(head.as_str(), "exact?") {
                        return Err(CodegenError::UnsupportedPredicate);
                    }
                },
                _ => {
                    return Err(CodegenError::UnsupportedPredicate);
                },
            }
            let a = codegen_get_obj_key(env, &items[1])?;
            let b = codegen_get_obj_key(env, &items[2])?;
            (a, b)
        },
        _ => {
            return Err(CodegenError::UnsupportedPredicate);
        },
    };
    let l = env.add_instr(Instruction::SEQ(reg, k1, k2));
    env.curr_reg = reg + 1;
    Ok(l)
}

/// Lowers an outcome; returns the label of its last instruction.
fn codegen_outcome(env: &mut CodeGen, outcome: &RuleOutcome) -> (r: Result<Label, CodegenError>)
    requires
        old(env).inv(),
    ensures
        final(env).inv(),
        final(env).grew(old(env)),
        final(env).curr_reg == old(env).curr_reg,
        r matches Ok(l) ==> l + 1 == final(env).n_instr() && l >= old(env).n_instr(),
        match r {
            Ok(l) => outcome_spec(old(env).state(), *outcome) == Ok::<(GenState, Label), CodegenError>(
                (final(env).state(), l),
            ),
            Err(e) => outcome_spec(old(env).state(), *outcome) == Err::<(GenState, Label), CodegenError>(e),
        },
{
    env.room()?;
    match outcome {
        RuleOutcome::DROP => Ok(env.add_instr(Instruction::DROP)),
        RuleOutcome::REJECT => Ok(env.add_instr(Instruction::REJECT)),
        RuleOutcome::REDIRECT { addr, port } => {
            let obj = ip_object(addr)?;
            let a = env.insert_obj(None, obj)?;
            let p = env.insert_obj(None, Object::Port(*port))?;
            Ok(env.add_instr(Instruction::REDIRECT(a, p)))
        },
        RuleOutcome::REWRITE { pattern, replace_with } => {
            let f = env.insert_obj(None, Object::Data(pattern.as_str().as_bytes_vec()))?;
            let r = env.insert_obj(None, Object::Data(replace_with.as_str().as_bytes_vec()))?;
            Ok(env.add_instr(Instruction::REWRITE(f, r)))
        },
        RuleOutcome::CONTINUE => {
            let reg = env.curr_reg;
            if reg >= NUM_REGS {
                return Err(CodegenError::TooManyRegisters);
            }
            env.add_instr(Instruction::SEQ(reg, TRUE_KEY, TRUE_KEY));
            let ite = env.add_instr(Instruction::ITE(reg, 0, 0));
            env.should_continue = Some(ite);
            Ok(ite)
        },
    }
}

/// Lowers a rule body; returns the label of its last instruction.
#[verifier::rlimit(60)]
fn codegen_rule(env: &mut CodeGen, body: &AstNode) -> (r: Result<Label, CodegenError>)
    requires
        old(env).inv(),
    ensures
        final(env).inv(),
        final(env).grew(old(env)),
        r is Ok ==> final(env).curr_reg == old(env).curr_reg,
        r matches Ok(l) ==> l <= final(env).n_instr() && old(env).n_instr() < final(env).n_instr(),
        match r {
            Ok(l) => rule_spec(old(env).state(), *body) == Ok::<(GenState, Label), CodegenError>(
                (final(env).state(), l),
            ),
            Err(e) => rule_spec(old(env).state(), *body) == Err::<(GenState, Label), CodegenError>(e),
        },
    decreases body,
{
    match body {
        AstNode::Keyword(Keyword::Outcome(outcome)) => codegen_outcome(env, outcome),
        AstNode::Keyword(Keyword::SpecialForm(SpecialForm::If { predicate, consequent, alternative })) => {
            let reg = env.curr_reg;
            if reg >= NUM_REGS {
                return Err(CodegenError::TooManyRegisters);
            }
            codegen_pred(env, predicate)?;
            env.room()?;
            let next = env.program.instructions.len();
            let ite = env.add_instr(Instruction::ITE(reg, next + 1, next + 1));
            codegen_rule(env, consequent)?;
            let cons_end = env.program.instructions.len();
            codegen_rule(env, alternative)?;
            let end = env.program.instructions.len();
            env.update_instr(ite, Instruction::ITE(reg, ite + 1, cons_end));
            env.curr_reg = reg;
            match env.should_continue {
                Some(c) => {
                    if let Instruction::ITE(creg, _, f) = env.program.instructions[c] {
                        proof {
                            assert(instr_ok(
                                env.program.instructions@[c as int],
                                c as int,
                                env.n_instr(),
                                env.n_data(),
                            ));
                        }
                        env.update_instr(c, Instruction::ITE(creg, end, f));
                    }
                    env.should_continue = None;
                },
                None => {},
            }
            Ok(end)
        },
        _ => Err(CodegenError::InvalidProgram),
    }
}

/// Binds `name` to the object that `value` denotes.
fn codegen_var(env: &mut CodeGen, name: &String, value: &AstNode) -> (r: Result<(), CodegenError>)
    requires
        old(env).inv(),
    ensures
        final(env).inv(),
        final(env).grew(old(env)),
        match r {
            Ok(_) => var_spec(old(env).state(), name@, *value) == Ok::<GenState, CodegenError>(
                final(env).state(),
            ),
            Err(e) => var_spec(old(env).state(), name@, *value) == Err::<GenState, CodegenError>(e),
        },
{
    let key_name = String::from_str(name.as_str());
    match value {
        AstNode::Num(n) => {
            if *n < 0 || *n > 65535 {
                return Err(CodegenError::InvalidPort);
            }
            env.insert_obj(Some(key_name), Object::Port(*n as u16))?;
        },
        AstNode::Bool(b) => {
            let key = if *b {
                TRUE_KEY
            } else {
                FALSE_KEY
            };
            let ghost before = *env;
            env.names.push((key_name, key));
            proof {
                assert(env.state().names =~= before.state().names.push((name@, key)));
                assert(env.state().data =~= before.state().data);
                assert forall|j: int| 0 <= j < env.names@.len() implies (#[trigger] env.names@[j]).1
                    < env.program.data@.len() by {
                    if j < before.names@.len() {
                        assert(env.names@[j] == before.names@[j]);
                    }
                }
            }
        },
        AstNode::Ident(other) => {
            let key = env.get_obj_key(other.as_str())?;
            let obj = env.program.data[key as usize].copy();
            env.insert_obj(Some(key_name), obj)?;
        },
        AstNode::String(s) => {
            let obj = ip_object(s)?;
            env.insert_obj(Some(key_name), obj)?;
        },
        _ => {
            return Err(CodegenError::InvalidProgram);
        },
    }
    Ok(())
}

/// Lowers one top-level statement.
fn codegen_statement(env: &mut CodeGen, statement: &AstNode) -> (r: Result<(), CodegenError>)
    requires
        old(env).inv(),
    ensures
        final(env).inv(),
        final(env).grew(old(env)),
        match r {
            Ok(_) => statement_spec(old(env).state(), *statement) == Ok::<GenState, CodegenError>(
                final(env).state(),
            ),
            Err(e) => statement_spec(old(env).state(), *statement) == Err::<GenState, CodegenError>(e),
        },
{
    proof {
        reveal(statement_spec);
    }
    match statement {
        AstNode::Keyword(Keyword::SpecialForm(SpecialForm::DefVar { name, value })) => {
            codegen_var(env, name, value)
        },
        AstNode::Keyword(Keyword::SpecialForm(SpecialForm::DefRule { name, body })) => {
            codegen_rule(env, body)?;
            Ok(())
        },
        AstNode::Keyword(Keyword::SpecialForm(SpecialForm::SetMode { .. })) => Ok(()),
        _ => Err(CodegenError::InvalidProgram),
    }
}

impl AstNode {
    /// Lowers a validated `Program` tree to bytecode, exactly as `codegen_spec` describes:
    /// `set-mode` forms emit nothing, each `def-var` binds a name in the pool, and each
    /// `def-rule` body is lowered in order.
    ///
    /// Every program it returns is well formed: its labels lie in `[0, |instructions|]` and
    /// after their own instruction, its registers are in the register file, its keys are
    /// packet fields or in the pool, and the pool starts with the constants `TRUE` and
    /// `FALSE`.
    pub fn codegen(&self) -> (r: Result<Program, CodegenError>)
        ensures
            r matches Ok(p) ==> wf_program(&p) && p.data@.len() >= 2 && p.data@[TRUE_KEY as int]@
                == ObjectView::Port(1) && p.data@[FALSE_KEY as int]@ == ObjectView::Port(0),
            match r {
                Ok(p) => codegen_spec(*self) == Ok::<(Seq<Instruction>, Seq<ObjectView>), CodegenError>(
                    (p.instructions@, p.data@.map_values(|o: Object| o@)),
                ),
                Err(e) => codegen_spec(*self) == Err::<(Seq<Instruction>, Seq<ObjectView>), CodegenError>(e),
            },
            !(*self is Program) ==> r is Err,
    {
        match self {
            AstNode::Program(statements) => {
                let mut env = CodeGen::new();
                let mut i: usize = 0;
                while i < statements.len()
                    invariant
                        env.inv(),
                        i <= statements@.len(),
                        env.program.data@[TRUE_KEY as int]@ == ObjectView::Port(1),
                        env.program.data@[FALSE_KEY as int]@ == ObjectView::Port(0),
                        statements_spec(initial_state(), statements@, 0) == statements_spec(
                            env.state(),
                            statements@,
                            i as int,
                        ),
                        *self == AstNode::Program(*statements),
                    decreases statements@.len() - i,
                {
                    let ghost before = env.state();
                    match codegen_statement(&mut env, &statements[i]) {
                        Ok(()) => {},
                        Err(e) => {
                            assert(statements_spec(before, statements@, i as int) == Err::<
                                GenState,
                                CodegenError,
                            >(e));
                            return Err(e);
                        },
                    }
                    assert(statements_spec(before, statements@, i as int) == statements_spec(
                        env.state(),
                        statements@,
                        i + 1,
                    ));
                    i += 1;
                }
                Ok(env.program)
            },
            _ => Err(CodegenError::InvalidProgram),
        }
    }
}

} // verus!
