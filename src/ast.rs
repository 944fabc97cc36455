use vstd::prelude::*;
use vstd::string::*;

use crate::addr::{i64_literal, ipv4_spec, parse_i64, parse_ipv4};
use crate::parser::{chars_of, same_tree, Pair, Rule};

verus! {

#[derive(Clone, Copy, Debug, PartialEq, Eq, Structural)]
pub enum ProxyMode {
    OPAQUE,
    TRANSPARENT,
}

/// Forms with their own order of evaluation.
#[derive(Debug)]
pub enum SpecialForm {
    /// `(if <predicate> <consequent> <alternative>)`
    If { predicate: Box<AstNode>, consequent: Box<AstNode>, alternative: Box<AstNode> },
    /// `(def-var <name> <value>)`
    DefVar { name: String, value: Box<AstNode> },
    /// `(def-rule <name> <body>)`
    DefRule { name: String, body: Box<AstNode> },
    /// `(set-mode OPAQUE)` or `(set-mode TRANSPARENT)`
    SetMode { mode: ProxyMode },
}

/// What a rule decides for a packet.
#[derive(Debug)]
pub enum RuleOutcome {
    /// Silently drop the packet.
    DROP,
    /// Refuse the packet.
    REJECT,
    /// Forward the packet to the address (a dotted quad) and port.
    REDIRECT { addr: String, port: u16 },
    /// Replace `pattern` by `replace_with` in the packet's bytes.
    REWRITE { pattern: String, replace_with: String },
    /// Go on to the next rule.
    CONTINUE,
}

#[derive(Debug)]
pub enum Keyword {
    SpecialForm(SpecialForm),
    Outcome(RuleOutcome),
}

#[derive(Debug)]
pub enum AstNode {
    Keyword(Keyword),
    Num(i64),
    Bool(bool),
    Ident(String),
    String(String),
    Sexp(Vec<AstNode>),
    Program(Vec<AstNode>),
}

#[derive(Debug)]
pub enum AstParseError {
    ParseError(String),
}

/// Words that no identifier may be.
pub open spec fn reserved(t: Seq<char>) -> bool {
    t == "def-var"@ || t == "set-mode"@ || t == "def-rule"@ || t == "if"@
}

/// The bare words that are outcomes.
pub open spec fn outcome_word(t: Seq<char>) -> bool {
    t == "DROP"@ || t == "REJECT"@ || t == "CONTINUE"@
}

/// The words that head a special form.
pub open spec fn special_head(t: Seq<char>) -> bool {
    reserved(t)
}

/// The node below an `s_exp`.
#[verifier::inline]
pub open spec fn under(p: Pair) -> Pair {
    if p.rule == Rule::s_exp && p.children@.len() == 1 {
        p.children@[0]
    } else {
        p
    }
}

/// The items of a list node, seen through its `s_exp`.
pub open spec fn list_items(p: Pair) -> Option<Seq<Pair>> {
    if under(p).rule == Rule::list {
        Some(under(p).children@)
    } else {
        None
    }
}

/// The leaf below an atom, seen through its `s_exp`.
pub open spec fn leaf_of(p: Pair) -> Option<Pair> {
    let q = under(p);
    if q.rule == Rule::atom && q.children@.len() == 1 {
        Some(q.children@[0])
    } else if q.rule == Rule::ident || q.rule == Rule::number || q.rule == Rule::string || q.rule
        == Rule::bool {
        Some(q)
    } else {
        None
    }
}

/// The text of a bare identifier.
pub open spec fn bare_word(p: Pair) -> Option<Seq<char>> {
    match leaf_of(p) {
        Some(l) => if l.rule == Rule::ident {
            Some(l.text@)
        } else {
            None
        },
        None => None,
    }
}

/// The contents of a string literal, quotes removed.
pub open spec fn string_contents(p: Pair) -> Option<Seq<char>> {
    match leaf_of(p) {
        Some(l) => if l.rule == Rule::string && l.text@.len() >= 2 {
            Some(l.text@.subrange(1, l.text@.len() - 1))
        } else {
            None
        },
        None => None,
    }
}

/// The list's head word, if it has one.
pub open spec fn head_word(p: Pair) -> Option<Seq<char>> {
    match list_items(p) {
        Some(items) => if items.len() > 0 {
            Some(items[0].text@)
        } else {
            None
        },
        None => None,
    }
}

pub open spec fn item_count(p: Pair) -> int {
    match list_items(p) {
        Some(items) => items.len() as int,
        None => -1,
    }
}

pub open spec fn mode_spec(t: Seq<char>) -> Option<ProxyMode> {
    if t == "OPAQUE"@ {
        Some(ProxyMode::OPAQUE)
    } else if t == "TRANSPARENT"@ {
        Some(ProxyMode::TRANSPARENT)
    } else {
        None
    }
}

/// The port that a number literal denotes, where it lies in `[0, 65535]`.
pub open spec fn port_spec(p: Pair) -> Option<u16> {
    match leaf_of(p) {
        Some(l) => if l.rule == Rule::number {
            match i64_literal(l.text@) {
                Some(n) => if 0 <= n <= 65535 {
                    Some(n as u16)
                } else {
                    None
                },
                None => None,
            }
        } else {
            None
        },
        None => None,
    }
}

/// The keywords of the language are pairwise different words.
proof fn lemma_keywords_distinct()
    ensures
        "DROP"@ != "REJECT"@,
        "DROP"@ != "CONTINUE"@,
        "REJECT"@ != "CONTINUE"@,
        "REDIRECT"@ != "REWRITE"@,
        "def-var"@ != "def-rule"@,
        !reserved("DROP"@),
        !reserved("REJECT"@),
        !reserved("CONTINUE"@),
        !reserved("REDIRECT"@),
        !reserved("REWRITE"@),
        "if"@ != "def-var"@,
        "if"@ != "def-rule"@,
        "if"@ != "set-mode"@,
        "def-var"@ != "set-mode"@,
        "def-rule"@ != "set-mode"@,
{
    reveal_strlit("DROP");
    reveal_strlit("REJECT");
    reveal_strlit("CONTINUE");
    reveal_strlit("REDIRECT");
    reveal_strlit("REWRITE");
    reveal_strlit("if");
    reveal_strlit("def-var");
    reveal_strlit("def-rule");
    reveal_strlit("set-mode");
    assert("DROP"@.len() == 4 && "REJECT"@.len() == 6 && "CONTINUE"@.len() == 8);
    assert("REDIRECT"@.len() == 8 && "REWRITE"@.len() == 7 && "if"@.len() == 2);
    assert("def-var"@.len() == 7 && "def-rule"@.len() == 8 && "set-mode"@.len() == 8);
    assert("def-rule"@[0] != "set-mode"@[0]);
    assert("DROP"@[0] != "def-var"@[0]);
    assert("REJECT"@[0] != "def-var"@[0]);
    assert("REWRITE"@[0] != "def-var"@[0]);
    assert("CONTINUE"@[0] != "def-rule"@[0]);
    assert("CONTINUE"@[0] != "set-mode"@[0]);
    assert("REDIRECT"@[0] != "def-rule"@[0]);
    assert("REDIRECT"@[0] != "set-mode"@[0]);
}

/// Building `p` as an outcome succeeds.
pub open spec fn outcome_ok(p: Pair) -> bool {
    match list_items(p) {
        Some(items) => items.len() > 0 && ((items[0].text@ == "REDIRECT"@ && items.len() == 3 && (
        string_contents(items[1]) matches Some(a) && ipv4_spec(a) is Some) && port_spec(items[2])
            is Some) || (items[0].text@ == "REWRITE"@ && items.len() == 3 && string_contents(
            items[1],
        ) is Some && string_contents(items[2]) is Some)),
        None => bare_word(p) matches Some(w) && outcome_word(w),
    }
}

/// Building `p` gives a keyword: a special form or an outcome.
pub open spec fn keyword_ok(p: Pair) -> bool {
    sf_ok(p) || outcome_ok(p)
}

/// Building `p` as a special form succeeds.
pub open spec fn sf_ok(p: Pair) -> bool
    decreases p, 0int,
{
    let q = under(p);
    if q.rule != Rule::list || q.children@.len() == 0 {
        false
    } else {
        let items = q.children@;
        let head = items[0].text@;
        if head == "if"@ {
            items.len() == 4 && node_ok(items[1]) && !sf_ok(items[1]) && !outcome_ok(items[1]) && (under(items[1]).rule
                == Rule::list || (leaf_of(items[1]) is Some && leaf_of(items[1])->0.rule
                == Rule::ident)) && node_ok(items[2]) && node_ok(items[3])
        } else if head == "def-var"@ || head == "def-rule"@ {
            items.len() == 3 && node_ok(items[1]) && !sf_ok(items[1]) && !outcome_ok(items[1]) && leaf_of(items[1]) is Some
                && leaf_of(items[1])->0.rule == Rule::ident && node_ok(items[2])
        } else if head == "set-mode"@ {
            items.len() == 2 && mode_spec(items[1].text@) is Some
        } else {
            false
        }
    }
}

/// Building `p` succeeds: as a keyword, or else as a program, a list or an atom.
pub open spec fn node_ok(p: Pair) -> bool
    decreases p, 1int,
{
    if sf_ok(p) || outcome_ok(p) {
        true
    } else {
        plain_ok(p, under(p))
    }
}

/// Building `p`, whose node below its `s_exp` is `q`, succeeds as a program, a list or an
/// atom.
pub open spec fn plain_ok(p: Pair, q: Pair) -> bool
    decreases q, 0int,
{
    if q.rule == Rule::program {
        &&& p.rule == Rule::program
        &&& q.children@.len() > 0
        &&& q.children@[q.children@.len() - 1].rule == Rule::EOI
        &&& forall|k: int| 0 <= k < q.children@.len() - 1 ==> node_ok(#[trigger] q.children@[k])
    } else if q.rule == Rule::list {
        forall|k: int| 0 <= k < q.children@.len() ==> node_ok(#[trigger] q.children@[k])
    } else {
        match leaf_of(p) {
            Some(l) => if l.rule == Rule::ident {
                !reserved(l.text@)
            } else if l.rule == Rule::string {
                string_contents(p) is Some
            } else if l.rule == Rule::number {
                i64_literal(l.text@) is Some
            } else {
                l.rule == Rule::bool
            },
            None => false,
        }
    }
}

/// The outcome that building `p` gives.
pub open spec fn outcome_built(p: Pair, o: RuleOutcome) -> bool {
    match o {
        RuleOutcome::DROP => bare_word(p) == Some("DROP"@),
        RuleOutcome::REJECT => bare_word(p) == Some("REJECT"@),
        RuleOutcome::CONTINUE => bare_word(p) == Some("CONTINUE"@),
        RuleOutcome::REDIRECT { addr, port } => head_word(p) == Some("REDIRECT"@) && string_contents(
            list_items(p)->0[1],
        ) == Some(addr@) && port_spec(list_items(p)->0[2]) == Some(port),
        RuleOutcome::REWRITE { pattern, replace_with } => head_word(p) == Some("REWRITE"@)
            && string_contents(list_items(p)->0[1]) == Some(pattern@) && string_contents(
            list_items(p)->0[2],
        ) == Some(replace_with@),
    }
}

/// The special form that building `p` gives.
pub open spec fn sf_built(p: Pair, sf: SpecialForm) -> bool
    decreases p, 0int,
{
    let q = under(p);
    if q.children@.len() < 2 {
        false
    } else {
        let items = q.children@;
        match sf {
            SpecialForm::If { predicate, consequent, alternative } => items.len() == 4 && items[0].text@
                == "if"@ && built(
                items[1],
                *predicate,
            ) && built(items[2], *consequent) && built(items[3], *alternative),
            SpecialForm::DefVar { name, value } => items.len() == 3 && items[0].text@ == "def-var"@
                && bare_word(items[1]) == Some(name@) && built(items[2], *value),
            SpecialForm::DefRule { name, body } => items.len() == 3 && items[0].text@
                == "def-rule"@ && bare_word(items[1]) == Some(name@) && built(items[2], *body),
            SpecialForm::SetMode { mode } => items.len() == 2 && items[0].text@ == "set-mode"@
                && mode_spec(items[1].text@) == Some(mode),
        }
    }
}

/// The tree that building `p` gives, where it succeeds: a special form, else an outcome,
/// else a program, a list or an atom, each made of what its items build to.
pub open spec fn built(p: Pair, a: AstNode) -> bool
    decreases p, 1int,
{
    if sf_ok(p) {
        a matches AstNode::Keyword(Keyword::SpecialForm(sf)) && sf_built(p, sf)
    } else if outcome_ok(p) {
        a matches AstNode::Keyword(Keyword::Outcome(o)) && outcome_built(p, o)
    } else {
        plain_built(p, under(p), a)
    }
}

/// The program, list or atom that building `p`, whose node below its `s_exp` is `q`, gives.
pub open spec fn plain_built(p: Pair, q: Pair, a: AstNode) -> bool
    decreases q, 0int,
{
    match a {
        AstNode::Program(v) => q.rule == Rule::program && v@.len() == q.children@.len() - 1
            && forall|k: int| 0 <= k < v@.len() ==> built(q.children@[k], #[trigger] v@[k]),
        AstNode::Sexp(v) => q.rule == Rule::list && v@.len() == q.children@.len() && forall|k: int|
            0 <= k < v@.len() ==> built(q.children@[k], #[trigger] v@[k]),
        AstNode::Ident(s) => bare_word(p) == Some(s@),
        AstNode::String(s) => string_contents(p) == Some(s@),
        AstNode::Num(n) => leaf_of(p) matches Some(l) && l.rule == Rule::number && i64_literal(
            l.text@,
        ) == Some(n),
        AstNode::Bool(b) => leaf_of(p) matches Some(l) && l.rule == Rule::bool && b == (l.text@
            == "#t"@),
        AstNode::Keyword(_) => false,
    }
}

/// Two outcomes with the same parts.
pub open spec fn same_outcome(a: RuleOutcome, b: RuleOutcome) -> bool {
    match (a, b) {
        (RuleOutcome::DROP, RuleOutcome::DROP) => true,
        (RuleOutcome::REJECT, RuleOutcome::REJECT) => true,
        (RuleOutcome::CONTINUE, RuleOutcome::CONTINUE) => true,
        (RuleOutcome::REDIRECT { addr: a1, port: p1 }, RuleOutcome::REDIRECT { addr: a2, port: p2 }) =>
            a1@ == a2@ && p1 == p2,
        (
            RuleOutcome::REWRITE { pattern: f1, replace_with: r1 },
            RuleOutcome::REWRITE { pattern: f2, replace_with: r2 },
        ) => f1@ == f2@ && r1@ == r2@,
        _ => false,
    }
}

/// Two trees of the same shape whose texts, numbers and flags agree.
pub open spec fn same_ast(a: AstNode, b: AstNode) -> bool
    decreases a,
{
    match (a, b) {
        (AstNode::Keyword(Keyword::Outcome(o1)), AstNode::Keyword(Keyword::Outcome(o2))) =>
            same_outcome(o1, o2),
        (AstNode::Keyword(Keyword::SpecialForm(f1)), AstNode::Keyword(Keyword::SpecialForm(f2))) =>
            match (f1, f2) {
            (
                SpecialForm::If { predicate: p1, consequent: c1, alternative: e1 },
                SpecialForm::If { predicate: p2, consequent: c2, alternative: e2 },
            ) => same_ast(*p1, *p2) && same_ast(*c1, *c2) && same_ast(*e1, *e2),
            (SpecialForm::DefVar { name: n1, value: v1 }, SpecialForm::DefVar { name: n2, value: v2 }) =>
                n1@ == n2@ && same_ast(*v1, *v2),
            (SpecialForm::DefRule { name: n1, body: v1 }, SpecialForm::DefRule { name: n2, body: v2 }) =>
                n1@ == n2@ && same_ast(*v1, *v2),
            (SpecialForm::SetMode { mode: m1 }, SpecialForm::SetMode { mode: m2 }) => m1 == m2,
            _ => false,
        },
        (AstNode::Num(x), AstNode::Num(y)) => x == y,
        (AstNode::Bool(x), AstNode::Bool(y)) => x == y,
        (AstNode::Ident(x), AstNode::Ident(y)) => x@ == y@,
        (AstNode::String(x), AstNode::String(y)) => x@ == y@,
        (AstNode::Sexp(v), AstNode::Sexp(w)) => v@.len() == w@.len() && forall|k: int|
            0 <= k < v@.len() ==> same_ast(#[trigger] v@[k], w@[k]),
        (AstNode::Program(v), AstNode::Program(w)) => v@.len() == w@.len() && forall|k: int|
            0 <= k < v@.len() ==> same_ast(#[trigger] v@[k], w@[k]),
        _ => false,
    }
}

/// The leaf-level readings of two agreeing parse trees agree.
proof fn lemma_same_leafish(p1: Pair, p2: Pair)
    requires
        same_tree(p1, p2),
    ensures
        same_tree(under(p1), under(p2)),
        (leaf_of(p1) is Some) == (leaf_of(p2) is Some),
        leaf_of(p1) is Some ==> same_tree(leaf_of(p1)->0, leaf_of(p2)->0),
        bare_word(p1) == bare_word(p2),
        string_contents(p1) == string_contents(p2),
        port_spec(p1) == port_spec(p2),
{
    if p1.rule == Rule::s_exp && p1.children@.len() == 1 {
        assert(same_tree(p1.children@[0], p2.children@[0]));
    }
    let q1 = under(p1);
    let q2 = under(p2);
    if q1.rule == Rule::atom && q1.children@.len() == 1 {
        assert(same_tree(q1.children@[0], q2.children@[0]));
    }
}

/// Agreeing parse trees agree on whether they build, as a special form, as an outcome and
/// at all.
pub proof fn lemma_same_ok(p1: Pair, p2: Pair)
    requires
        same_tree(p1, p2),
    ensures
        outcome_ok(p1) == outcome_ok(p2),
        sf_ok(p1) == sf_ok(p2),
        node_ok(p1) == node_ok(p2),
    decreases p1,
{
    lemma_same_leafish(p1, p2);
    let q1 = under(p1);
    let q2 = under(p2);
    if q1.rule == Rule::list {
        let n = q1.children@.len() as int;
        assert forall|k: int| 0 <= k < n implies same_tree(
            #[trigger] q1.children@[k],
            q2.children@[k],
        ) by {}
        if n > 0 {
            lemma_same_leafish(q1.children@[0], q2.children@[0]);
        }
        if n > 1 {
            lemma_same_leafish(q1.children@[1], q2.children@[1]);
            lemma_same_ok(q1.children@[1], q2.children@[1]);
        }
        if n > 2 {
            lemma_same_leafish(q1.children@[2], q2.children@[2]);
            lemma_same_ok(q1.children@[2], q2.children@[2]);
        }
        if n > 3 {
            lemma_same_ok(q1.children@[3], q2.children@[3]);
        }
        assert(outcome_ok(p1) == outcome_ok(p2));
        assert(sf_ok(p1) == sf_ok(p2));
        if plain_ok(p1, q1) {
            assert forall|k: int| 0 <= k < n implies node_ok(#[trigger] q2.children@[k]) by {
                assert(node_ok(q1.children@[k]));
                lemma_same_ok(q1.children@[k], q2.children@[k]);
            }
        }
        if plain_ok(p2, q2) {
            assert forall|k: int| 0 <= k < n implies node_ok(#[trigger] q1.children@[k]) by {
                assert(node_ok(q2.children@[k]));
                lemma_same_ok(q1.children@[k], q2.children@[k]);
            }
        }
        assert(plain_ok(p1, q1) == plain_ok(p2, q2));
    } else if q1.rule == Rule::program {
        let n = q1.children@.len() as int;
        if n > 0 {
            assert(same_tree(q1.children@[n - 1], q2.children@[n - 1]));
        }
        if plain_ok(p1, q1) {
            assert forall|k: int| 0 <= k < n - 1 implies node_ok(#[trigger] q2.children@[k]) by {
                assert(node_ok(q1.children@[k]));
                assert(same_tree(q1.children@[k], q2.children@[k]));
                lemma_same_ok(q1.children@[k], q2.children@[k]);
            }
        }
        if plain_ok(p2, q2) {
            assert forall|k: int| 0 <= k < n - 1 implies node_ok(#[trigger] q1.children@[k]) by {
                assert(node_ok(q2.children@[k]));
                assert(same_tree(q1.children@[k], q2.children@[k]));
                lemma_same_ok(q1.children@[k], q2.children@[k]);
            }
        }
        assert(plain_ok(p1, q1) == plain_ok(p2, q2));
    }
}

/// What agreeing parse trees build to agrees.
pub proof fn lemma_built_same(p1: Pair, p2: Pair, a1: AstNode, a2: AstNode)
    requires
        same_tree(p1, p2),
        built(p1, a1),
        built(p2, a2),
    ensures
        same_ast(a1, a2),
    decreases p1,
{
    lemma_same_leafish(p1, p2);
    lemma_same_ok(p1, p2);
    let q1 = under(p1);
    let q2 = under(p2);
    let n = q1.children@.len() as int;
    assert forall|k: int| 0 <= k < n implies same_tree(#[trigger] q1.children@[k], q2.children@[k]) by {}
    if sf_ok(p1) {
        lemma_keywords_distinct();
        if n > 0 {
            lemma_same_leafish(q1.children@[0], q2.children@[0]);
        }
        if n > 1 {
            lemma_same_leafish(q1.children@[1], q2.children@[1]);
        }
        match (a1, a2) {
            (AstNode::Keyword(Keyword::SpecialForm(f1)), AstNode::Keyword(Keyword::SpecialForm(f2))) => {
                match (f1, f2) {
                    (
                        SpecialForm::If { predicate: x1, consequent: c1, alternative: e1 },
                        SpecialForm::If { predicate: x2, consequent: c2, alternative: e2 },
                    ) => {
                        lemma_built_same(q1.children@[1], q2.children@[1], *x1, *x2);
                        lemma_built_same(q1.children@[2], q2.children@[2], *c1, *c2);
                        lemma_built_same(q1.children@[3], q2.children@[3], *e1, *e2);
                    },
                    (SpecialForm::DefVar { value: v1, .. }, SpecialForm::DefVar { value: v2, .. }) => {
                        lemma_built_same(q1.children@[2], q2.children@[2], *v1, *v2);
                    },
                    (SpecialForm::DefRule { body: v1, .. }, SpecialForm::DefRule { body: v2, .. }) => {
                        lemma_built_same(q1.children@[2], q2.children@[2], *v1, *v2);
                    },
                    _ => {},
                }
            },
            _ => {},
        }
        assert(same_ast(a1, a2));
    } else if outcome_ok(p1) {
        lemma_keywords_distinct();
        if n > 0 {
            assert(same_tree(q1.children@[0], q2.children@[0]));
        }
        if n > 2 {
            lemma_same_leafish(q1.children@[1], q2.children@[1]);
            lemma_same_leafish(q1.children@[2], q2.children@[2]);
        }
        assert(same_ast(a1, a2));
    } else {
        if leaf_of(p1) is Some {
            let l1 = leaf_of(p1)->0;
            let l2 = leaf_of(p2)->0;
            assert(l1.rule == l2.rule && l1.text@ == l2.text@);
        }
        assert(q1.rule == q2.rule);
        match (a1, a2) {
            (AstNode::Sexp(v1), AstNode::Sexp(v2)) => {
                assert forall|k: int| 0 <= k < v1@.len() implies same_ast(#[trigger] v1@[k], v2@[k]) by {
                    lemma_built_same(q1.children@[k], q2.children@[k], v1@[k], v2@[k]);
                }
            },
            (AstNode::Program(v1), AstNode::Program(v2)) => {
                assert forall|k: int| 0 <= k < v1@.len() implies same_ast(#[trigger] v1@[k], v2@[k]) by {
                    lemma_built_same(q1.children@[k], q2.children@[k], v1@[k], v2@[k]);
                }
            },
            _ => {},
        }
    }
        assert(same_ast(a1, a2));
}

/// A list or a program whose item does not build does not build either.
proof fn lemma_item_fails(p: Pair, k: int)
    requires
        !sf_ok(p),
        !outcome_ok(p),
        0 <= k < under(p).children@.len(),
        under(p).rule == Rule::list || (under(p).rule == Rule::program && k < under(
            p,
        ).children@.len() - 1),
        !node_ok(under(p).children@[k]),
    ensures
        !node_ok(p),
{
    let q = under(p);
    assert(node_ok(p) == plain_ok(p, q));
    let c = q.children@[k];
    assert(c == q.children@[k]);
}

pub(crate) fn text_is(s: &str, lit: &str) -> (r: bool)
    ensures
        r == (s@ == lit@),
{
    let n = s.unicode_len();
    let m = lit.unicode_len();
    if n != m {
        return false;
    }
    let mut i: usize = 0;
    while i < n
        invariant
            n == s@.len() == lit@.len(),
            i <= n,
            s@.subrange(0, i as int) == lit@.subrange(0, i as int),
        decreases n - i,
    {
        if s.get_char(i) != lit.get_char(i) {
            return false;
        }
        assert(s@.subrange(0, i + 1) == s@.subrange(0, i as int).push(s@[i as int]));
        assert(lit@.subrange(0, i + 1) == lit@.subrange(0, i as int).push(lit@[i as int]));
        i += 1;
    }
    assert(s@ == s@.subrange(0, n as int));
    assert(lit@ == lit@.subrange(0, n as int));
    true
}

fn is_reserved(s: &str) -> (r: bool)
    ensures
        r == reserved(s@),
{
    text_is(s, "def-var") || text_is(s, "set-mode") || text_is(s, "def-rule") || text_is(s, "if")
}

fn error(msg: &str) -> (r: AstParseError) {
    AstParseError::ParseError(String::from_str(msg))
}

/// The node below an `s_exp`.
fn under_of(p: &Pair) -> (r: &Pair)
    ensures
        *r == under(*p),
{
    if p.rule == Rule::s_exp && p.children.len() == 1 {
        &p.children[0]
    } else {
        p
    }
}

fn leaf_of_exec(p: &Pair) -> (r: Option<&Pair>)
    ensures
        match r {
            Some(l) => leaf_of(*p) == Some(*l),
            None => leaf_of(*p) is None,
        },
{
    let q = under_of(p);
    if q.rule == Rule::atom && q.children.len() == 1 {
        Some(&q.children[0])
    } else if q.rule == Rule::ident || q.rule == Rule::number || q.rule == Rule::string || q.rule
        == Rule::bool {
        Some(q)
    } else {
        None
    }
}

/// The contents of a string literal.
fn string_contents_exec(p: &Pair) -> (r: Option<String>)
    ensures
        match r {
            Some(s) => string_contents(*p) == Some(s@),
            None => string_contents(*p) is None,
        },
{
    match leaf_of_exec(p) {
        Some(l) => {
            let n = l.text.as_str().unicode_len();
            if l.rule == Rule::string && n >= 2 {
                Some(String::from_str(l.text.as_str().substring_char(1, n - 1)))
            } else {
                None
            }
        },
        None => None,
    }
}

fn port_of(p: &Pair) -> (r: Option<u16>)
    ensures
        r == port_spec(*p),
{
    match leaf_of_exec(p) {
        Some(l) => {
            if l.rule != Rule::number {
                return None;
            }
            let cs = chars_of(l.text.as_str());
            match parse_i64(&cs) {
                Some(n) => if 0 <= n && n <= 65535 {
                    Some(n as u16)
                } else {
                    None
                },
                None => None,
            }
        },
        None => None,
    }
}

impl ProxyMode {
    pub fn try_from(value: &str) -> (r: Result<ProxyMode, AstParseError>)
        ensures
            match r {
                Ok(m) => mode_spec(value@) == Some(m),
                Err(_) => mode_spec(value@) is None,
            },
    {
        if text_is(value, "OPAQUE") {
            Ok(ProxyMode::OPAQUE)
        } else if text_is(value, "TRANSPARENT") {
            Ok(ProxyMode::TRANSPARENT)
        } else {
            Err(error("Unknown proxy mode"))
        }
    }
}

impl SpecialForm {
    /// Builds a special form from an `s_exp` (or `list`) node: `if` with three items whose
    /// predicate is an identifier or a list, `def-var` or `def-rule` with a name and a value,
    /// or `set-mode` with a mode.
    pub fn try_from(value: Pair) -> (r: Result<SpecialForm, AstParseError>)
        ensures
            r is Ok <==> sf_ok(value),
            r matches Ok(sf) ==> sf_built(value, sf),
    {
        build_special_form(&value)
    }
}

impl RuleOutcome {
    /// Builds an outcome from an `s_exp` node: a bare `DROP`, `REJECT` or `CONTINUE`,
    /// `(REDIRECT "<IPv4>" <port>)` or `(REWRITE "<pattern>" "<replacement>")`.
    pub fn try_from(value: Pair) -> (r: Result<RuleOutcome, AstParseError>)
        ensures
            r is Ok <==> outcome_ok(value),
            r matches Ok(o) ==> outcome_built(value, o),
    {
        build_outcome(&value)
    }
}

impl AstNode {
    /// Builds the tree of a `program` or an `s_exp` node: a special form where it is one,
    /// else an outcome, else a program, a list or an atom.
    pub fn try_from(value: Pair) -> (r: Result<AstNode, AstParseError>)
        ensures
            r is Ok <==> node_ok(value),
            r matches Ok(a) ==> built(value, a),
    {
        build_node(&value)
    }
}

fn build_outcome(p: &Pair) -> (r: Result<RuleOutcome, AstParseError>)
    ensures
        r matches Ok(RuleOutcome::DROP) <==> bare_word(*p) == Some("DROP"@),
        r matches Ok(RuleOutcome::REJECT) <==> bare_word(*p) == Some("REJECT"@),
        r matches Ok(RuleOutcome::CONTINUE) <==> bare_word(*p) == Some("CONTINUE"@),
        r matches Ok(RuleOutcome::REDIRECT { addr, port }) ==> head_word(*p) == Some(
            "REDIRECT"@,
        ) && item_count(*p) == 3 && string_contents(list_items(*p)->0[1]) == Some(addr@)
            && ipv4_spec(addr@) is Some && port_spec(list_items(*p)->0[2]) == Some(port),
        r matches Ok(RuleOutcome::REWRITE { pattern, replace_with }) ==> head_word(*p) == Some(
            "REWRITE"@,
        ) && item_count(*p) == 3 && string_contents(list_items(*p)->0[1]) == Some(pattern@)
            && string_contents(list_items(*p)->0[2]) == Some(replace_with@),
        head_word(*p) == Some("REDIRECT"@) && item_count(*p) == 3 && (string_contents(
            list_items(*p)->0[1],
        ) matches Some(a) && ipv4_spec(a) is Some) && port_spec(list_items(*p)->0[2]) is Some
            ==> r matches Ok(RuleOutcome::REDIRECT { .. }),
        head_word(*p) == Some("REWRITE"@) && item_count(*p) == 3 && string_contents(
            list_items(*p)->0[1],
        ) is Some && string_contents(list_items(*p)->0[2]) is Some ==> r matches Ok(
            RuleOutcome::REWRITE { .. },
        ),
        r is Ok <==> outcome_ok(*p),
        r matches Ok(o) ==> outcome_built(*p, o),
{
    proof {
        lemma_keywords_distinct();
    }
    let q = under_of(p);
    if q.rule == Rule::list {
        let items = &q.children;
        if items.len() == 0 {
            return Err(error("a form cannot be an empty list"));
        }
        let head = items[0].text.as_str();
        if text_is(head, "REDIRECT") {
            if items.len() != 3 {
                return Err(error("wrong arity for REDIRECT; expected 2"));
            }
            let addr = match string_contents_exec(&items[1]) {
                Some(a) => a,
                None => {
                    return Err(error("bad address to REDIRECT"));
                },
            };
            let cs = chars_of(addr.as_str());
            if parse_ipv4(&cs).is_none() {
                return Err(error("bad address to REDIRECT"));
            }
            let port = match port_of(&items[2]) {
                Some(n) => n,
                None => {
                    return Err(error("bad port to REDIRECT"));
                },
            };
            Ok(RuleOutcome::REDIRECT { addr, port })
        } else if text_is(head, "REWRITE") {
            if items.len() != 3 {
                return Err(error("wrong arity for REWRITE; expected 2"));
            }
            let pattern = match string_contents_exec(&items[1]) {
                Some(a) => a,
                None => {
                    return Err(error("REWRITE expects two strings"));
                },
            };
            let replace_with = match string_contents_exec(&items[2]) {
                Some(a) => a,
                None => {
                    return Err(error("REWRITE expects two strings"));
                },
            };
            Ok(RuleOutcome::REWRITE { pattern, replace_with })
        } else {
            Err(error("expected one of `REDIRECT` or `REWRITE`"))
        }
    } else {
        match leaf_of_exec(p) {
            Some(l) => {
                if l.rule != Rule::ident {
                    return Err(error("expected an outcome"));
                }
                let w = l.text.as_str();
                if text_is(w, "DROP") {
                    Ok(RuleOutcome::DROP)
                } else if text_is(w, "REJECT") {
                    Ok(RuleOutcome::REJECT)
                } else if text_is(w, "CONTINUE") {
                    Ok(RuleOutcome::CONTINUE)
                } else {
                    Err(error("expected one of `DROP`, `REJECT` or `CONTINUE`"))
                }
            },
            None => Err(error("expected an outcome")),
        }
    }
}

fn build_special_form(p: &Pair) -> (r: Result<SpecialForm, AstParseError>)
    ensures
        r is Ok ==> (head_word(*p) matches Some(h) && special_head(h)),
        head_word(*p) matches Some(h) && !special_head(h) ==> r is Err,
        list_items(*p) is None ==> r is Err,
        r matches Ok(SpecialForm::If { predicate, .. }) ==> head_word(*p) == Some("if"@)
            && item_count(*p) == 4 && (*predicate is Ident || *predicate is Sexp),
        r matches Ok(SpecialForm::DefVar { name, .. }) ==> head_word(*p) == Some("def-var"@)
            && item_count(*p) == 3 && bare_word(list_items(*p)->0[1]) == Some(name@) && !reserved(
            name@,
        ),
        r matches Ok(SpecialForm::DefRule { name, .. }) ==> head_word(*p) == Some("def-rule"@)
            && item_count(*p) == 3 && bare_word(list_items(*p)->0[1]) == Some(name@) && !reserved(
            name@,
        ),
        r matches Ok(SpecialForm::SetMode { mode }) ==> head_word(*p) == Some("set-mode"@)
            && item_count(*p) == 2 && mode_spec(list_items(*p)->0[1].text@) == Some(mode),
        head_word(*p) == Some("if"@) && item_count(*p) != 4 ==> r is Err,
        head_word(*p) == Some("def-var"@) && item_count(*p) != 3 ==> r is Err,
        head_word(*p) == Some("def-rule"@) && item_count(*p) != 3 ==> r is Err,
        head_word(*p) == Some("set-mode"@) && item_count(*p) != 2 ==> r is Err,
            head_word(*p) == Some("set-mode"@) && item_count(*p) == 2 && mode_spec(
                list_items(*p)->0[1].text@,
            ) is Some ==> r == Ok::<SpecialForm, AstParseError>(
                SpecialForm::SetMode { mode: mode_spec(list_items(*p)->0[1].text@)->0 },
            ),
        r is Ok <==> sf_ok(*p),
        r matches Ok(sf) ==> sf_built(*p, sf),
    decreases *p, 0int,
{
    proof {
        lemma_keywords_distinct();
    }
    let q = under_of(p);
    if q.rule != Rule::list {
        return Err(error("expected a list"));
    }
    let items = &q.children;
    if items.len() == 0 {
        return Err(error("a form cannot be an empty list"));
    }
    let head = items[0].text.as_str();
    if text_is(head, "if") {
        if items.len() != 4 {
            return Err(error("wrong arity for if; expected 3"));
        }
        let predicate = build_node(&items[1])?;
        if !matches!(predicate, AstNode::Ident(_) | AstNode::Sexp(_)) {
            return Err(error("predicate must be an ident or Sexp"));
        }
        let consequent = build_node(&items[2])?;
        let alternative = build_node(&items[3])?;
        Ok(
            SpecialForm::If {
                predicate: Box::new(predicate),
                consequent: Box::new(consequent),
                alternative: Box::new(alternative),
            },
        )
    } else if text_is(head, "def-var") || text_is(head, "def-rule") {
        let is_var = text_is(head, "def-var");
        if items.len() != 3 {
            return Err(error("wrong arity for a definition; expected 2"));
        }
        let name = match build_node(&items[1])? {
            AstNode::Ident(n) => n,
            _ => {
                return Err(error("a definition expects an `ident` as its name"));
            },
        };
        let value = build_node(&items[2])?;
        if is_var {
            Ok(SpecialForm::DefVar { name, value: Box::new(value) })
        } else {
            Ok(SpecialForm::DefRule { name, body: Box::new(value) })
        }
    } else if text_is(head, "set-mode") {
        if items.len() != 2 {
            return Err(error("wrong arity for set-mode; expected 1"));
        }
        let mode = ProxyMode::try_from(items[1].text.as_str())?;
        Ok(SpecialForm::SetMode { mode })
    } else {
        Err(error("expected a special form"))
    }
}

fn build_node(p: &Pair) -> (r: Result<AstNode, AstParseError>)
    ensures
        r matches Ok(AstNode::Ident(s)) ==> bare_word(*p) == Some(s@) && !reserved(s@),
        bare_word(*p) matches Some(w) && reserved(w) ==> r is Err,
        r matches Ok(AstNode::Num(n)) ==> (leaf_of(*p) matches Some(l) && l.rule == Rule::number
            && i64_literal(l.text@) == Some(n)),
        r matches Ok(AstNode::String(s)) ==> string_contents(*p) == Some(s@),
        r matches Ok(AstNode::Program(v)) ==> p.rule == Rule::program,
            leaf_of(*p) is Some && leaf_of(*p)->0.rule == Rule::ident && !reserved(
                leaf_of(*p)->0.text@,
            ) && !outcome_word(leaf_of(*p)->0.text@) ==> (r matches Ok(AstNode::Ident(s)) && s@
                == leaf_of(*p)->0.text@),
            leaf_of(*p) is Some && leaf_of(*p)->0.rule == Rule::number && i64_literal(
                leaf_of(*p)->0.text@,
            ) is Some ==> r == Ok::<AstNode, AstParseError>(
                AstNode::Num(i64_literal(leaf_of(*p)->0.text@)->0),
            ),
            string_contents(*p) is Some ==> (r matches Ok(AstNode::String(s)) && s@
                == string_contents(*p)->0),
            leaf_of(*p) is Some && leaf_of(*p)->0.rule == Rule::bool ==> r == Ok::<
                AstNode,
                AstParseError,
            >(AstNode::Bool(leaf_of(*p)->0.text@ == "#t"@)),
        r is Ok <==> node_ok(*p),
        r matches Ok(a) ==> built(*p, a),
        r is Ok && keyword_ok(*p) ==> r->Ok_0 is Keyword,
        r is Ok && !keyword_ok(*p) ==> (r->Ok_0 is Sexp <==> under(*p).rule == Rule::list) && (
        r->Ok_0 is Ident <==> (leaf_of(*p) is Some && leaf_of(*p)->0.rule == Rule::ident)),
    decreases *p, 1int,
{
    proof {
        lemma_keywords_distinct();
    }
    match build_special_form(p) {
        Ok(form) => {
            return Ok(AstNode::Keyword(Keyword::SpecialForm(form)));
        },
        Err(e) => {
            // a list headed by a special form's word can be nothing else: report why the
            // special form was refused
            let q = under_of(p);
            if q.rule == Rule::list && q.children.len() > 0 && is_reserved(
                q.children[0].text.as_str(),
            ) {
                if let Some(l) = leaf_of_exec(&q.children[0]) {
                    if l.rule == Rule::ident && is_reserved(l.text.as_str()) {
                        proof {
                            assert(!outcome_ok(*p));
                            let h = q.children@[0];
                            assert(!sf_ok(h) && !outcome_ok(h));
                            assert(!node_ok(h));
                            lemma_item_fails(*p, 0);
                        }
                        return Err(e);
                    }
                }
            }
        },
    }
    if let Ok(outcome) = build_outcome(p) {
        return Ok(AstNode::Keyword(Keyword::Outcome(outcome)));
    }
    let q = under_of(p);
    match q.rule {
        Rule::program => {
            if p.rule != Rule::program {
                return Err(error("unexpected program"));
            }
            let n = q.children.len();
            if n == 0 || q.children[n - 1].rule != Rule::EOI {
                return Err(error("expected the end of input"));
            }
            let mut out: Vec<AstNode> = Vec::new();
            let mut i: usize = 0;
            while i < n - 1
                invariant
                    n == q.children@.len(),
                    n > 0,
                    i <= n - 1,
                    *q == under(*p),
                    q.rule == Rule::program,
                    p.rule == Rule::program,
                    !sf_ok(*p) && !outcome_ok(*p),
                    out@.len() == i,
                    forall|k: int| 0 <= k < i ==> node_ok(#[trigger] q.children@[k]),
                    forall|k: int| 0 <= k < i ==> built(q.children@[k], #[trigger] out@[k]),
                decreases n - 1 - i,
            {
                match build_node(&q.children[i]) {
                    Ok(a) => {
                        let ghost before = out@;
                        out.push(a);
                        assert forall|k: int| 0 <= k < i + 1 implies built(
                            q.children@[k],
                            #[trigger] out@[k],
                        ) by {
                            if k < i {
                                assert(out@[k] == before[k]);
                            }
                        }
                    },
                    Err(e) => {
                        proof {
                            lemma_item_fails(*p, i as int);
                        }
                        return Err(e);
                    },
                }
                i += 1;
            }
            Ok(AstNode::Program(out))
        },
        Rule::list => {
            let mut out: Vec<AstNode> = Vec::new();
            let mut i: usize = 0;
            while i < q.children.len()
                invariant
                    i <= q.children@.len(),
                    *q == under(*p),
                    q.rule == Rule::list,
                    !sf_ok(*p) && !outcome_ok(*p),
                    forall|k: int| 0 <= k < i ==> node_ok(#[trigger] q.children@[k]),
                    out@.len() == i,
                    forall|k: int| 0 <= k < i ==> built(q.children@[k], #[trigger] out@[k]),
                decreases q.children@.len() - i,
            {
                match build_node(&q.children[i]) {
                    Ok(a) => {
                        let ghost before = out@;
                        out.push(a);
                        assert forall|k: int| 0 <= k < i + 1 implies built(
                            q.children@[k],
                            #[trigger] out@[k],
                        ) by {
                            if k < i {
                                assert(out@[k] == before[k]);
                            }
                        }
                    },
                    Err(e) => {
                        assert(!node_ok(q.children@[i as int]));
                        proof {
                            lemma_item_fails(*p, i as int);
                        }
                        return Err(e);
                    },
                }
                i += 1;
            }
            Ok(AstNode::Sexp(out))
        },
        _ => match leaf_of_exec(p) {
            Some(l) => match l.rule {
                Rule::ident => {
                    if is_reserved(l.text.as_str()) {
                        Err(error("reserved keyword"))
                    } else {
                        Ok(AstNode::Ident(String::from_str(l.text.as_str())))
                    }
                },
                Rule::string => match string_contents_exec(p) {
                    Some(s) => Ok(AstNode::String(s)),
                    None => Err(error("malformed string")),
                },
                Rule::number => {
                    let cs = chars_of(l.text.as_str());
                    match parse_i64(&cs) {
                        Some(n) => Ok(AstNode::Num(n)),
                        None => Err(error("number out of range")),
                    }
                },
                Rule::bool => Ok(AstNode::Bool(text_is(l.text.as_str(), "#t"))),
                _ => Err(error("expected `s_expr`")),
            },
            None => Err(error("expected `s_expr`")),
        },
    }
}

} // verus!
