use vstd::prelude::*;
use vstd::string::*;

use crate::ast::{built, lemma_built_same, lemma_same_ok, node_ok, AstNode, AstParseError};
use crate::codegen::{codegen_spec, lemma_codegen_same, CodegenError};
use crate::parser::{lemma_unique_tree, pair_wf, GrammarError, Pair, Rule, RuleParser};
use crate::plane::{filter_spec, lemma_same_code_same_actions};
use crate::vm::{
    same_code, Packet, wf_program, Instruction, Ipv4, Object, ObjectView, Program, PACKET_SOURCE_IP,
};

verus! {

/// The first structural error found while compiling rule content.
#[derive(Debug)]
pub enum CompileError {
    Grammar(GrammarError),
    Ast(AstParseError),
    Codegen(CodegenError),
}

/// The decimal digit for `d`, which is below 10.
pub open spec fn digit_char(d: nat) -> char {
    if d == 0 {
        '0'
    } else if d == 1 {
        '1'
    } else if d == 2 {
        '2'
    } else if d == 3 {
        '3'
    } else if d == 4 {
        '4'
    } else if d == 5 {
        '5'
    } else if d == 6 {
        '6'
    } else if d == 7 {
        '7'
    } else if d == 8 {
        '8'
    } else {
        '9'
    }
}

/// The decimal text of `n`, without leading zeros.
pub open spec fn decimal_text(n: nat) -> Seq<char>
    decreases n,
{
    if n < 10 {
        seq![digit_char(n)]
    } else {
        decimal_text(n / 10).push(digit_char(n % 10))
    }
}

fn digit_str(d: usize) -> (r: &'static str)
    requires
        d < 10,
    ensures
        r@ == seq![digit_char(d as nat)],
{
    proof {
        reveal_strlit("0");
        reveal_strlit("1");
        reveal_strlit("2");
        reveal_strlit("3");
        reveal_strlit("4");
        reveal_strlit("5");
        reveal_strlit("6");
        reveal_strlit("7");
        reveal_strlit("8");
        reveal_strlit("9");
    }
    if d == 0 {
        "0"
    } else if d == 1 {
        "1"
    } else if d == 2 {
        "2"
    } else if d == 3 {
        "3"
    } else if d == 4 {
        "4"
    } else if d == 5 {
        "5"
    } else if d == 6 {
        "6"
    } else if d == 7 {
        "7"
    } else if d == 8 {
        "8"
    } else {
        "9"
    }
}

/// The decimal text of `n`.
pub fn decimal_string(n: usize) -> (r: String)
    ensures
        r@ == decimal_text(n as nat),
    decreases n,
{
    if n < 10 {
        String::from_str(digit_str(n))
    } else {
        let mut s = decimal_string(n / 10);
        s.append(digit_str(n % 10));
        s
    }
}

/// What a grammar error says before its position.
pub const GRAMMAR_PREFIX: &'static str = "the rule content is not well-formed at character ";

/// What a validation error says before the validator's own text.
pub const AST_PREFIX: &'static str = "the rule content does not validate: ";

/// The description of a compile error: where the grammar stopped, what the validator
/// refused, or which lowering rule failed.
pub open spec fn compile_message(e: CompileError) -> Seq<char> {
    match e {
        CompileError::Grammar(g) => GRAMMAR_PREFIX@ + decimal_text(g.position as nat),
        CompileError::Ast(AstParseError::ParseError(m)) => AST_PREFIX@ + m@,
        CompileError::Codegen(c) => match c {
            CodegenError::InvalidProgram => "a form stands where it cannot"@,
            CodegenError::UnknownIdentifier => "reference to an undefined identifier"@,
            CodegenError::InvalidAddress => "invalid IPv4 literal"@,
            CodegenError::InvalidPort => "port out of range"@,
            CodegenError::UnsupportedPredicate => "unsupported predicate"@,
            CodegenError::TooManyRegisters => "conditions nested too deeply"@,
            CodegenError::PoolFull => "too many objects"@,
        },
    }
}

impl CompileError {
    /// A description of the error.
    pub fn message(&self) -> (r: String)
        ensures
            r@ == compile_message(*self),
    {
        match self {
            CompileError::Grammar(g) => {
                let mut s = String::from_str(GRAMMAR_PREFIX);
                let d = decimal_string(g.position);
                s.append(d.as_str());
                s
            },
            CompileError::Ast(AstParseError::ParseError(m)) => {
                let mut s = String::from_str(AST_PREFIX);
                s.append(m.as_str());
                s
            },
            CompileError::Codegen(c) => String::from_str(
                match c {
                    CodegenError::InvalidProgram => "a form stands where it cannot",
                    CodegenError::UnknownIdentifier => "reference to an undefined identifier",
                    CodegenError::InvalidAddress => "invalid IPv4 literal",
                    CodegenError::InvalidPort => "port out of range",
                    CodegenError::UnsupportedPredicate => "unsupported predicate",
                    CodegenError::TooManyRegisters => "conditions nested too deeply",
                    CodegenError::PoolFull => "too many objects",
                },
            ),
        }
    }
}

/// `q` is a parse tree of the whole content `c`.
pub open spec fn parses_as(c: Seq<char>, q: Pair) -> bool {
    pair_wf(q, c) && q.rule == Rule::program && q.start == 0
}

/// Some parse tree of `c` builds to a tree that lowers to these instructions and this pool.
pub open spec fn compiles_to(c: Seq<char>, instrs: Seq<Instruction>, data: Seq<ObjectView>) -> bool {
    exists|q: Pair, a: AstNode|
        #[trigger] parses_as(c, q) && #[trigger] built(q, a) && codegen_spec(a) == Ok::<
            (Seq<Instruction>, Seq<ObjectView>),
            CodegenError,
        >((instrs, data))
}

/// Some parse tree of `c` builds, and what it builds to lowers without error.
pub open spec fn compiles(c: Seq<char>) -> bool {
    exists|q: Pair, a: AstNode|
        #[trigger] parses_as(c, q) && node_ok(q) && #[trigger] built(q, a) && codegen_spec(a) is Ok
}

/// `c` has a parse tree, and every parse tree of `c` builds to trees that lower without
/// error.
pub open spec fn compiles_every_parse(c: Seq<char>) -> bool {
    &&& exists|q: Pair| #[trigger] parses_as(c, q)
    &&& forall|q: Pair| #[trigger] parses_as(c, q) ==> node_ok(q)
    &&& forall|q: Pair, a: AstNode| #[trigger] parses_as(c, q) && #[trigger] built(q, a) ==> codegen_spec(a) is Ok
}

/// Any two parse trees of one content, and whatever they build to, agree: they build or
/// fail alike, and they lower to the same bytecode or fail alike.
pub proof fn lemma_one_parse(c: Seq<char>, q1: Pair, q2: Pair, a1: AstNode, a2: AstNode)
    requires
        parses_as(c, q1),
        parses_as(c, q2),
    ensures
        node_ok(q1) == node_ok(q2),
        built(q1, a1) && built(q2, a2) ==> codegen_spec(a1) == codegen_spec(a2),
{
    lemma_unique_tree(q1, q2, c);
    lemma_same_ok(q1, q2);
    if built(q1, a1) && built(q2, a2) {
        lemma_built_same(q1, q2, a1, a2);
        lemma_codegen_same(a1, a2);
    }
}

/// Content that compiles on one parse tree compiles on every one.
pub proof fn lemma_compiles_every_parse(c: Seq<char>)
    requires
        compiles(c),
    ensures
        compiles_every_parse(c),
{
    let (q, a) = choose|q: Pair, a: AstNode|
        #[trigger] parses_as(c, q) && node_ok(q) && #[trigger] built(q, a) && codegen_spec(a) is Ok;
    assert forall|q2: Pair| #[trigger] parses_as(c, q2) implies node_ok(q2) by {
        lemma_one_parse(c, q, q2, a, a);
    }
    assert forall|q2: Pair, a2: AstNode| #[trigger] parses_as(c, q2) && #[trigger] built(q2, a2)
        implies codegen_spec(a2) is Ok by {
        lemma_one_parse(c, q, q2, a, a2);
    }
}

/// Compiling is deterministic: identical content compiles to identical instructions and
/// identical pool values.
pub proof fn lemma_compile_deterministic(
    c: Seq<char>,
    i1: Seq<Instruction>,
    d1: Seq<ObjectView>,
    i2: Seq<Instruction>,
    d2: Seq<ObjectView>,
)
    requires
        compiles_to(c, i1, d1),
        compiles_to(c, i2, d2),
    ensures
        i1 == i2,
        d1 == d2,
{
    let (q1, a1) = choose|q: Pair, a: AstNode|
        #[trigger] parses_as(c, q) && #[trigger] built(q, a) && codegen_spec(a) == Ok::<
            (Seq<Instruction>, Seq<ObjectView>),
            CodegenError,
        >((i1, d1));
    let (q2, a2) = choose|q: Pair, a: AstNode|
        #[trigger] parses_as(c, q) && #[trigger] built(q, a) && codegen_spec(a) == Ok::<
            (Seq<Instruction>, Seq<ObjectView>),
            CodegenError,
        >((i2, d2));
    lemma_one_parse(c, q1, q2, a1, a2);
}

/// Installing the same content twice gives the same action for every packet.
pub proof fn lemma_install_twice(c: Seq<char>, p1: &Program, p2: &Program, packet: &Packet)
    requires
        compiles_to(c, p1.instructions@, p1.data@.map_values(|o: Object| o@)),
        compiles_to(c, p2.instructions@, p2.data@.map_values(|o: Object| o@)),
    ensures
        filter_spec(p1, packet) == filter_spec(p2, packet),
{
    lemma_compile_deterministic(
        c,
        p1.instructions@,
        p1.data@.map_values(|o: Object| o@),
        p2.instructions@,
        p2.data@.map_values(|o: Object| o@),
    );
    assert(same_code(p1, p2));
    lemma_same_code_same_actions(p1, p2, packet);
}

/// `e` is an error that compiling `c` meets: no parse tree, a parse tree that does not
/// build, or a built tree whose lowering fails with that error.
pub open spec fn compile_error_of(c: Seq<char>, e: CompileError) -> bool {
    match e {
        CompileError::Grammar(_) => !exists|q: Pair| #[trigger] parses_as(c, q),
        CompileError::Ast(_) => exists|q: Pair| #[trigger] parses_as(c, q) && !node_ok(q),
        CompileError::Codegen(ce) => exists|q: Pair, a: AstNode|
            #[trigger] parses_as(c, q) && #[trigger] built(q, a) && codegen_spec(a) == Err::<
                (Seq<Instruction>, Seq<ObjectView>),
                CodegenError,
            >(ce),
    }
}

/// Compiles rule content through the grammar, the tree builder and the code generator.
/// It succeeds exactly when the content compiles; every program it returns is well formed
/// and is the lowering of what the content's parse tree builds to; it fails in the grammar
/// exactly when the content has no parse tree.
pub fn compile(content: &str) -> (r: Result<Program, CompileError>)
    ensures
        r matches Ok(p) ==> wf_program(&p),
        r matches Ok(p) ==> compiles_to(
            content@,
            p.instructions@,
            p.data@.map_values(|o: Object| o@),
        ),
        r is Ok <==> compiles(content@),
        r matches Err(e) ==> compile_error_of(content@, e),
        r is Err && r->Err_0 is Grammar <==> !exists|q: Pair| #[trigger] parses_as(content@, q),
        r is Err && r->Err_0 is Ast ==> exists|q: Pair| #[trigger] parses_as(content@, q) && !node_ok(q),
        r is Err && r->Err_0 is Codegen ==> exists|q: Pair, a: AstNode|
            #[trigger] parses_as(content@, q) && #[trigger] built(q, a) && codegen_spec(a) == Err::<
                (Seq<Instruction>, Seq<ObjectView>),
                CodegenError,
            >(r->Err_0->Codegen_0),
{
    proof {
        if compiles(content@) {
            lemma_compiles_every_parse(content@);
        }
    }
    let mut pairs = match RuleParser::parse(Rule::program, content) {
        Ok(v) => v,
        Err(e) => {
            return Err(CompileError::Grammar(e));
        },
    };
    let tree = pairs.remove(0);
    assert(parses_as(content@, tree));
    let ghost t = tree;
    let ast = match AstNode::try_from(tree) {
        Ok(a) => a,
        Err(e) => {
            return Err(CompileError::Ast(e));
        },
    };
    assert(built(t, ast));
    match ast.codegen() {
        Ok(p) => {
            assert(compiles_to(content@, p.instructions@, p.data@.map_values(|o: Object| o@)));
            assert(compiles(content@));
            Ok(p)
        },
        Err(e) => Err(CompileError::Codegen(e)),
    }
}

/// The program a proxy starts with: packets from 127.0.0.1 are redirected to the
/// destination, all others dropped.
pub fn default_program(dest_ip: Ipv4, dest_port: u16) -> (r: Program)
    ensures
        wf_program(&r),
        r.instructions@ == seq![
            Instruction::SEQ(0, 0, PACKET_SOURCE_IP),
            Instruction::ITE(0, 2, 3),
            Instruction::REDIRECT(1, 2),
            Instruction::DROP,
        ],
        r.data@.len() == 3,
        r.data@[0]@ == ObjectView::IP(Ipv4(127, 0, 0, 1)),
        r.data@[1]@ == ObjectView::IP(dest_ip),
        r.data@[2]@ == ObjectView::Port(dest_port),
{
    let mut instructions: Vec<Instruction> = Vec::new();
    instructions.push(Instruction::SEQ(0, 0, PACKET_SOURCE_IP));
    instructions.push(Instruction::ITE(0, 2, 3));
    instructions.push(Instruction::REDIRECT(1, 2));
    instructions.push(Instruction::DROP);
    let mut data: Vec<Object> = Vec::new();
    data.push(Object::IP(Ipv4(127, 0, 0, 1)));
    data.push(Object::IP(dest_ip));
    data.push(Object::Port(dest_port));
    let r = Program { instructions, data };
    assert(r.instructions@ =~= seq![
        Instruction::SEQ(0, 0, PACKET_SOURCE_IP),
        Instruction::ITE(0, 2, 3),
        Instruction::REDIRECT(1, 2),
        Instruction::DROP,
    ]);
    r
}

} // verus!
