use vstd::prelude::*;

use crate::vm::{
    lemma_run_same, run_result, same_code, Action, ActionView, ObjectView, Packet, Program,
    MAX_STEPS, NUM_REGS, VM,
};

verus! {

/// The action for one chunk: the program's action, or `DROP` when the run ends with an
/// error. The run starts with every register 0.
pub open spec fn filter_spec(program: &Program, packet: &Packet) -> ActionView {
    match run_result(program, packet, Seq::new(NUM_REGS as nat, |i: int| 0u32)).0 {
        Ok(a) => a,
        Err(_) => ActionView::DROP,
    }
}

/// Every non-overlapping occurrence of `find`, scanning from the left, replaced by
/// `replace`. An empty `find` changes nothing.
pub open spec fn replace_spec(s: Seq<u8>, find: Seq<u8>, replace: Seq<u8>) -> Seq<u8>
    decreases s.len(),
{
    if find.len() == 0 || s.len() < find.len() {
        s
    } else if s.subrange(0, find.len() as int) == find {
        replace + replace_spec(s.subrange(find.len() as int, s.len() as int), find, replace)
    } else {
        seq![s[0]] + replace_spec(s.subrange(1, s.len() as int), find, replace)
    }
}

/// The bytes that go upstream for a chunk, if any.
pub open spec fn forward_spec(action: ActionView, chunk: Seq<u8>) -> Option<Seq<u8>> {
    match action {
        ActionView::DROP => None,
        ActionView::REJECT => None,
        ActionView::REDIRECT(_, _) => Some(chunk),
        ActionView::REWRITE(f, r) => match (f, r) {
            (ObjectView::Data(f), ObjectView::Data(r)) => Some(replace_spec(chunk, f, r)),
            _ => Some(chunk),
        },
    }
}

/// Evaluates `program` on `packet` in a fresh machine.
pub fn filter(packet: &Packet, program: &Program) -> (r: Action)
    ensures
        r@ == filter_spec(program, packet),
{
    let mut vm = VM::new();
    match vm.run_program(program, packet) {
        Ok(a) => a,
        Err(_) => Action::DROP,
    }
}

fn starts_at(s: &Vec<u8>, i: usize, find: &Vec<u8>) -> (r: bool)
    requires
        i + find@.len() <= s@.len(),
    ensures
        r == (s@.subrange(i as int, i + find@.len()) == find@),
{
    let n = s.len();
    let mut j: usize = 0;
    while j < find.len()
        invariant
            n == s@.len(),
            i + find@.len() <= s@.len(),
            j <= find@.len(),
            s@.subrange(i as int, i + j) == find@.subrange(0, j as int),
        decreases find@.len() - j,
    {
        if s[i + j] != find[j] {
            assert(s@.subrange(i as int, i + find@.len())[j as int] != find@[j as int]);
            return false;
        }
        assert(s@.subrange(i as int, i + j + 1) == s@.subrange(i as int, i + j).push(s@[i + j]));
        assert(find@.subrange(0, j + 1) == find@.subrange(0, j as int).push(find@[j as int]));
        j += 1;
    }
    assert(find@.subrange(0, find@.len() as int) == find@);
    true
}

/// Replaces every non-overlapping occurrence of `find` in `s` by `replace`, from the left.
pub fn replace_all(s: &Vec<u8>, find: &Vec<u8>, replace: &Vec<u8>) -> (r: Vec<u8>)
    ensures
        r@ == replace_spec(s@, find@, replace@),
{
    let n = s.len();
    let m = find.len();
    let mut out: Vec<u8> = Vec::new();
    if m == 0 {
        let mut k: usize = 0;
        while k < n
            invariant
                n == s@.len(),
                k <= n,
                out@ == s@.subrange(0, k as int),
            decreases n - k,
        {
            out.push(s[k]);
            k += 1;
            assert(out@ == s@.subrange(0, k as int));
        }
        assert(s@.subrange(0, n as int) == s@);
        return out;
    }
    let mut i: usize = 0;
    assert(s@.subrange(0, n as int) == s@);
    assert(out@ + replace_spec(s@, find@, replace@) == replace_spec(s@, find@, replace@));
    while i < n && n - i >= m
        invariant
            n == s@.len(),
            m == find@.len(),
            m > 0,
            i <= n,
            out@ + replace_spec(s@.subrange(i as int, n as int), find@, replace@) == replace_spec(
                s@,
                find@,
                replace@,
            ),
        decreases n - i,
    {
        let ghost rest = s@.subrange(i as int, n as int);
        if starts_at(s, i, find) {
            assert(rest.subrange(0, m as int) == s@.subrange(i as int, i + m));
            assert(rest.subrange(m as int, rest.len() as int) == s@.subrange(i + m, n as int));
            let ghost before = out@;
            let mut k: usize = 0;
            while k < replace.len()
                invariant
                    k <= replace@.len(),
                    out@ == before + replace@.subrange(0, k as int),
                decreases replace@.len() - k,
            {
                out.push(replace[k]);
                k += 1;
                assert(out@ == before + replace@.subrange(0, k as int));
            }
            assert(replace@.subrange(0, replace@.len() as int) == replace@);
            assert(out@ == before + replace@);
            assert(before + (replace@ + replace_spec(s@.subrange(i + m, n as int), find@, replace@))
                == out@ + replace_spec(s@.subrange(i + m, n as int), find@, replace@));
            i += m;
        } else {
            assert(rest.subrange(0, m as int) == s@.subrange(i as int, i + m));
            assert(rest.subrange(1, rest.len() as int) == s@.subrange(i + 1, n as int));
            assert(rest[0] == s@[i as int]);
            let ghost before = out@;
            out.push(s[i]);
            assert(before + (seq![s@[i as int]] + replace_spec(
                s@.subrange(i + 1, n as int),
                find@,
                replace@,
            )) == out@ + replace_spec(s@.subrange(i + 1, n as int), find@, replace@));
            i += 1;
        }
    }
    let ghost tail = s@.subrange(i as int, n as int);
    assert(tail.len() < find@.len());
    assert(replace_spec(tail, find@, replace@) == tail);
    let mut k: usize = i;
    while k < n
        invariant
            n == s@.len(),
            i <= k <= n,
            tail == s@.subrange(i as int, n as int),
            out@ + tail.subrange(k - i, tail.len() as int) == replace_spec(s@, find@, replace@),
        decreases n - k,
    {
        let ghost before = out@;
        out.push(s[k]);
        assert(tail.subrange(k - i, tail.len() as int) == seq![s@[k as int]] + tail.subrange(
            k + 1 - i,
            tail.len() as int,
        ));
        k += 1;
    }
    assert(tail.subrange(n - i, tail.len() as int) == Seq::<u8>::empty());
    assert(out@ + Seq::<u8>::empty() == out@);
    out
}

/// What to send upstream for a chunk under an action: nothing for `DROP` and `REJECT`, the
/// chunk itself for `REDIRECT`, the chunk with its bytes replaced for `REWRITE`.
pub fn forward(action: &Action, chunk: &Vec<u8>) -> (r: Option<Vec<u8>>)
    ensures
        match r {
            Some(v) => forward_spec(action@, chunk@) == Some(v@),
            None => forward_spec(action@, chunk@) is None,
        },
{
    match action {
        Action::DROP => None,
        Action::REJECT => None,
        Action::REDIRECT(_, _) => Some(chunk.clone()),
        Action::REWRITE(f, r) => match (f, r) {
            (crate::vm::Object::Data(f), crate::vm::Object::Data(r)) => Some(replace_all(chunk, f, r)),
            _ => Some(chunk.clone()),
        },
    }
}

/// The bytes that go upstream for one inbound chunk under the installed program.
pub fn process_chunk(program: &Program, packet: &Packet) -> (r: Option<Vec<u8>>)
    ensures
        match r {
            Some(v) => forward_spec(filter_spec(program, packet), packet.content@) == Some(v@),
            None => forward_spec(filter_spec(program, packet), packet.content@) is None,
        },
{
    let action = filter(packet, program);
    forward(&action, &packet.content)
}

/// Programs with the same code decide every packet the same way.
pub proof fn lemma_same_code_same_actions(p1: &Program, p2: &Program, packet: &Packet)
    requires
        same_code(p1, p2),
    ensures
        filter_spec(p1, packet) == filter_spec(p2, packet),
{
    lemma_run_same(p1, p2, packet, Seq::new(NUM_REGS as nat, |i: int| 0u32), 0, MAX_STEPS as nat);
}

} // verus!
