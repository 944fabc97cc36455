use vstd::prelude::*;
use vstd::string::*;

verus! {

/// The grammar's node kinds. A program is `s_exp*` then the end of input; an `s_exp` is an
/// `atom` or a `list`; a `list` is `"(" s_exp* ")"`; an `atom` is one of the four leaves.
#[allow(non_camel_case_types)]
#[derive(Clone, Copy, Debug, PartialEq, Eq, Structural)]
pub enum Rule {
    program,
    s_exp,
    list,
    atom,
    ident,
    number,
    string,
    bool,
    EOI,
}

/// A node of the parse tree: its kind, its span in characters, the text of that span and
/// its children in order.
#[derive(Debug)]
pub struct Pair {
    pub rule: Rule,
    pub start: usize,
    pub end: usize,
    pub text: String,
    pub children: Vec<Pair>,
}

/// The input is not in the language; `position` is where parsing stopped.
#[derive(Clone, Copy, Debug, PartialEq, Eq, Structural)]
pub struct GrammarError {
    pub position: usize,
}

/// Entry point of the grammar.
pub struct RuleParser;

pub open spec fn is_ws(c: char) -> bool {
    c == ' ' || c == '\t' || c == '\n' || c == '\r'
}

/// Characters that end a bare token.
pub open spec fn is_delim(c: char) -> bool {
    is_ws(c) || c == '(' || c == ')' || c == '"'
}

pub open spec fn is_digit(c: char) -> bool {
    '0' <= c && c <= '9'
}

pub open spec fn is_letter(c: char) -> bool {
    ('a' <= c && c <= 'z') || ('A' <= c && c <= 'Z')
}

pub open spec fn is_ident_char(c: char) -> bool {
    is_letter(c) || is_digit(c) || c == '-' || c == '?' || c == '!' || c == '_'
}

/// A word that starts with a letter, optionally after one `:`.
pub open spec fn is_ident_text(t: Seq<char>) -> bool {
    let first: int = if t.len() > 0 && t[0] == ':' {
        1
    } else {
        0
    };
    &&& first < t.len()
    &&& is_letter(t[first])
    &&& forall|i: int| first <= i < t.len() ==> is_ident_char(#[trigger] t[i])
}

/// Decimal digits, optionally after one `-`.
pub open spec fn is_number_text(t: Seq<char>) -> bool {
    let first: int = if t.len() > 0 && t[0] == '-' {
        1
    } else {
        0
    };
    &&& first < t.len()
    &&& forall|i: int| first <= i < t.len() ==> is_digit(#[trigger] t[i])
}

pub open spec fn is_bool_text(t: Seq<char>) -> bool {
    t == seq!['#', 't'] || t == seq!['#', 'f']
}

/// A double-quoted run of characters without a quote inside.
pub open spec fn is_string_text(t: Seq<char>) -> bool {
    &&& t.len() >= 2
    &&& t[0] == '"'
    &&& t[t.len() - 1] == '"'
    &&& forall|i: int| 0 < i < t.len() - 1 ==> #[trigger] t[i] != '"'
}

pub open spec fn is_leaf_rule(r: Rule) -> bool {
    r == Rule::ident || r == Rule::number || r == Rule::string || r == Rule::bool
}

pub open spec fn ws_between(input: Seq<char>, a: int, b: int) -> bool {
    forall|k: int| a <= k < b ==> is_ws(#[trigger] input[k])
}

/// The nodes lie in order inside `[lo, hi]`, with only whitespace around and between them.
pub open spec fn laid_out(nodes: Seq<Pair>, input: Seq<char>, lo: int, hi: int) -> bool {
    &&& lo <= hi
    &&& forall|i: int| 0 <= i < nodes.len() ==> lo <= #[trigger] nodes[i].start
    &&& forall|i: int| 0 <= i < nodes.len() ==> #[trigger] nodes[i].end <= hi
    &&& forall|i: int|
        0 < i < nodes.len() ==> nodes[i - 1].end <= #[trigger] nodes[i].start && ws_between(
            input,
            nodes[i - 1].end as int,
            nodes[i].start as int,
        )
    &&& nodes.len() == 0 ==> ws_between(input, lo, hi)
    &&& nodes.len() > 0 ==> ws_between(input, lo, nodes[0].start as int) && ws_between(
        input,
        nodes[nodes.len() - 1].end as int,
        hi,
    )
}

/// A bare token runs up to a delimiter or the end of the input.
pub open spec fn token_ends(p: Pair, input: Seq<char>) -> bool {
    p.end == input.len() || is_delim(input[p.end as int])
}

/// `p` is a parse tree of the characters `input[p.start..p.end]`.
pub open spec fn pair_wf(p: Pair, input: Seq<char>) -> bool
    decreases p,
{
    &&& p.start <= p.end <= input.len()
    &&& p.text@ == input.subrange(p.start as int, p.end as int)
    &&& match p.rule {
        Rule::ident => p.children@.len() == 0 && is_ident_text(p.text@) && token_ends(p, input),
        Rule::number => p.children@.len() == 0 && is_number_text(p.text@) && token_ends(p, input),
        Rule::string => p.children@.len() == 0 && is_string_text(p.text@),
        Rule::bool => p.children@.len() == 0 && is_bool_text(p.text@) && token_ends(p, input),
        Rule::EOI => p.children@.len() == 0 && p.start == input.len(),
        Rule::atom => {
            &&& p.children@.len() == 1
            &&& is_leaf_rule(p.children@[0].rule)
            &&& p.children@[0].start == p.start
            &&& p.children@[0].end == p.end
            &&& pair_wf(p.children@[0], input)
        },
        Rule::s_exp => {
            &&& p.children@.len() == 1
            &&& (p.children@[0].rule == Rule::atom || p.children@[0].rule == Rule::list)
            &&& p.children@[0].start == p.start
            &&& p.children@[0].end == p.end
            &&& pair_wf(p.children@[0], input)
        },
        Rule::list => {
            &&& p.start + 2 <= p.end
            &&& input[p.start as int] == '('
            &&& input[p.end - 1] == ')'
            &&& laid_out(p.children@, input, p.start + 1, p.end - 1)
            &&& forall|i: int|
                0 <= i < p.children@.len() ==> (#[trigger] p.children@[i]).rule == Rule::s_exp
                    && pair_wf(p.children@[i], input)
        },
        Rule::program => {
            let n = p.children@.len();
            &&& p.start == 0
            &&& p.end == input.len()
            &&& n >= 1
            &&& p.children@[n - 1].rule == Rule::EOI
            &&& pair_wf(p.children@[n - 1], input)
            &&& laid_out(p.children@.take(n - 1), input, 0, input.len() as int)
            &&& forall|i: int|
                0 <= i < n - 1 ==> (#[trigger] p.children@[i]).rule == Rule::s_exp && pair_wf(
                    p.children@[i],
                    input,
                )
        },
    }
}

impl Pair {
    pub fn as_rule(&self) -> (r: Rule)
        ensures
            r == self.rule,
    {
        self.rule
    }

    pub fn as_str(&self) -> (r: &str)
        ensures
            r@ == self.text@,
    {
        self.text.as_str()
    }

    pub fn into_inner(self) -> (r: Vec<Pair>)
        ensures
            r@ == self.children@,
    {
        self.children
    }
}

pub fn chars_of(s: &str) -> (r: Vec<char>)
    ensures
        r@ == s@,
{
    let n = s.unicode_len();
    let mut r: Vec<char> = Vec::new();
    let mut i: usize = 0;
    while i < n
        invariant
            n == s@.len(),
            i <= n,
            r@ == s@.subrange(0, i as int),
        decreases n - i,
    {
        let c = s.get_char(i);
        r.push(c);
        i += 1;
        assert(r@ == s@.subrange(0, i as int));
    }
    r
}

fn char_is_ws(c: char) -> (r: bool)
    ensures
        r == is_ws(c),
{
    c == ' ' || c == '\t' || c == '\n' || c == '\r'
}

fn char_is_delim(c: char) -> (r: bool)
    ensures
        r == is_delim(c),
{
    char_is_ws(c) || c == '(' || c == ')' || c == '"'
}

fn skip_ws(cs: &Vec<char>, i: usize) -> (j: usize)
    requires
        i <= cs@.len(),
    ensures
        i <= j <= cs@.len(),
        ws_between(cs@, i as int, j as int),
        j < cs@.len() ==> !is_ws(cs@[j as int]),
{
    let mut j = i;
    while j < cs.len() && char_is_ws(cs[j])
        invariant
            i <= j <= cs@.len(),
            ws_between(cs@, i as int, j as int),
        decreases cs@.len() - j,
    {
        j += 1;
    }
    j
}

/// The text of the span `[start, end)`.
fn span_text(src: &str, start: usize, end: usize) -> (r: String)
    requires
        start <= end <= src@.len(),
    ensures
        r@ == src@.subrange(start as int, end as int),
{
    let piece = src.substring_char(start, end);
    String::from_str(piece)
}

fn node(rule: Rule, src: &str, start: usize, end: usize, children: Vec<Pair>) -> (r: Pair)
    requires
        start <= end <= src@.len(),
    ensures
        r.rule == rule,
        r.start == start,
        r.end == end,
        r.text@ == src@.subrange(start as int, end as int),
        r.children@ == children@,
{
    Pair { rule, start, end, text: span_text(src, start, end), children }
}

fn check_ident(cs: &Vec<char>, i: usize, k: usize) -> (r: bool)
    requires
        i <= k <= cs@.len(),
    ensures
        r == is_ident_text(cs@.subrange(i as int, k as int)),
{
    let ghost t = cs@.subrange(i as int, k as int);
    let first: usize = if i < k && cs[i] == ':' {
        i + 1
    } else {
        i
    };
    assert(i < k ==> t[0] == cs@[i as int]);
    if first >= k {
        return false;
    }
    let c = cs[first];
    assert(t[first - i] == c);
    if !(('a' <= c && c <= 'z') || ('A' <= c && c <= 'Z')) {
        return false;
    }
    let mut j = first;
    while j < k
        invariant
            i <= first <= j <= k <= cs@.len(),
            t == cs@.subrange(i as int, k as int),
            i < k ==> t[0] == cs@[i as int],
            first == i + 1 <==> (i < k && cs@[i as int] == ':'),
            forall|m: int| first - i <= m < j - i ==> is_ident_char(#[trigger] t[m]),
        decreases k - j,
    {
        let c = cs[j];
        if !(('a' <= c && c <= 'z') || ('A' <= c && c <= 'Z') || ('0' <= c && c <= '9') || c
            == '-' || c == '?' || c == '!' || c == '_') {
            assert(!is_ident_char(t[j - i]));
            return false;
        }
        j += 1;
    }
    true
}

fn check_number(cs: &Vec<char>, i: usize, k: usize) -> (r: bool)
    requires
        i <= k <= cs@.len(),
    ensures
        r == is_number_text(cs@.subrange(i as int, k as int)),
{
    let ghost t = cs@.subrange(i as int, k as int);
    let first: usize = if i < k && cs[i] == '-' {
        i + 1
    } else {
        i
    };
    assert(i < k ==> t[0] == cs@[i as int]);
    if first >= k {
        return false;
    }
    let mut j = first;
    while j < k
        invariant
            i <= first <= j <= k <= cs@.len(),
            t == cs@.subrange(i as int, k as int),
            i < k ==> t[0] == cs@[i as int],
            first == i + 1 <==> (i < k && cs@[i as int] == '-'),
            forall|m: int| first - i <= m < j - i ==> is_digit(#[trigger] t[m]),
        decreases k - j,
    {
        let c = cs[j];
        if !('0' <= c && c <= '9') {
            assert(!is_digit(t[j - i]));
            return false;
        }
        j += 1;
    }
    true
}

fn check_bool(cs: &Vec<char>, i: usize, k: usize) -> (r: bool)
    requires
        i <= k <= cs@.len(),
    ensures
        r == is_bool_text(cs@.subrange(i as int, k as int)),
{
    let ghost t = cs@.subrange(i as int, k as int);
    if k - i != 2 {
        assert(t.len() != 2);
        assert(t != seq!['#', 't'] && t != seq!['#', 'f']);
        return false;
    }
    let r = cs[i] == '#' && (cs[i + 1] == 't' || cs[i + 1] == 'f');
    assert(t[0] == cs@[i as int] && t[1] == cs@[i + 1]);
    if r {
        if cs[i + 1] == 't' {
            assert(t =~= seq!['#', 't']);
        } else {
            assert(t =~= seq!['#', 'f']);
        }
    } else {
        assert(seq!['#', 't'][0] == '#' && seq!['#', 't'][1] == 't');
        assert(seq!['#', 'f'][0] == '#' && seq!['#', 'f'][1] == 'f');
    }
    r
}

/// The bare token classes do not overlap: a boolean starts with `#`, a number with `-` or a
/// digit, an identifier with `:` or a letter.
proof fn lemma_leaf_classes(t: Seq<char>)
    ensures
        is_bool_text(t) ==> t.len() > 0 && t[0] == '#',
        is_number_text(t) ==> t.len() > 0 && (t[0] == '-' || is_digit(t[0])),
        is_ident_text(t) ==> t.len() > 0 && (t[0] == ':' || is_letter(t[0])),
        is_string_text(t) ==> t.len() > 0 && t[0] == '"',
{
    if is_bool_text(t) {
        if t == seq!['#', 't'] {
            assert(t[0] == '#');
        } else {
            assert(t[0] == '#');
        }
    }
    if is_number_text(t) && t[0] != '-' {
        assert(is_digit(t[0]));
    }
    if is_ident_text(t) && t[0] != ':' {
        assert(is_letter(t[0]));
    }
}

/// What a well-formed leaf looks like from its first character.
proof fn lemma_leaf_shape(l: Pair, input: Seq<char>)
    requires
        pair_wf(l, input),
        is_leaf_rule(l.rule),
    ensures
        l.start < l.end <= input.len(),
        !is_ws(input[l.start as int]),
        input[l.start as int] != '(',
        input[l.start as int] != ')',
        input[l.start as int] == '"' <==> l.rule == Rule::string,
        l.rule == Rule::bool ==> input[l.start as int] == '#',
        l.rule == Rule::number ==> input[l.start as int] == '-' || is_digit(input[l.start as int]),
        l.rule == Rule::ident ==> input[l.start as int] == ':' || is_letter(input[l.start as int]),
        input[l.start as int] == '"' ==> input[l.end - 1] == '"' && l.end >= l.start + 2 && forall|
            m: int,
        | l.start < m < l.end - 1 ==> #[trigger] input[m] != '"',
        input[l.start as int] != '"' ==> (l.end == input.len() || is_delim(input[l.end as int]))
            && (forall|m: int| l.start <= m < l.end ==> !is_delim(#[trigger] input[m])) && (
        is_bool_text(input.subrange(l.start as int, l.end as int)) || is_number_text(
            input.subrange(l.start as int, l.end as int),
        ) || is_ident_text(input.subrange(l.start as int, l.end as int))),
{
    let t = l.text@;
    lemma_leaf_classes(t);
    assert(t[0] == input[l.start as int]);
    if l.rule == Rule::string {
        assert(t[t.len() - 1] == input[l.end - 1]);
        assert forall|m: int| l.start < m < l.end - 1 implies #[trigger] input[m] != '"' by {
            assert(t[m - l.start] == input[m]);
        }
    } else {
        if l.rule == Rule::bool {
            assert forall|m: int| l.start <= m < l.end implies !is_delim(#[trigger] input[m]) by {
                assert(t[m - l.start] == input[m]);
            }
        } else if l.rule == Rule::number {
            assert forall|m: int| l.start <= m < l.end implies !is_delim(#[trigger] input[m]) by {
                assert(t[m - l.start] == input[m]);
                if m > l.start || t[0] != '-' {
                    assert(is_digit(t[m - l.start]));
                }
            }
        } else {
            assert forall|m: int| l.start <= m < l.end implies !is_delim(#[trigger] input[m]) by {
                assert(t[m - l.start] == input[m]);
                if m > l.start || t[0] != ':' {
                    assert(is_ident_char(t[m - l.start]));
                }
            }
        }
        assert(!is_delim(input[l.start as int]));
    }
}

/// What a well-formed atom looks like from its first character.
proof fn lemma_atom_shape(q: Pair, input: Seq<char>)
    requires
        pair_wf(q, input),
        q.rule == Rule::atom,
    ensures
        q.start < q.end <= input.len(),
        !is_ws(input[q.start as int]),
        input[q.start as int] != '(',
        input[q.start as int] != ')',
        input[q.start as int] == '"' ==> input[q.end - 1] == '"' && q.end >= q.start + 2 && forall|
            m: int,
        | q.start < m < q.end - 1 ==> #[trigger] input[m] != '"',
        input[q.start as int] != '"' ==> (q.end == input.len() || is_delim(input[q.end as int]))
            && (forall|m: int| q.start <= m < q.end ==> !is_delim(#[trigger] input[m])) && (
        is_bool_text(input.subrange(q.start as int, q.end as int)) || is_number_text(
            input.subrange(q.start as int, q.end as int),
        ) || is_ident_text(input.subrange(q.start as int, q.end as int))),
{
    let l = q.children@[0];
    assert(pair_wf(l, input));
    lemma_leaf_shape(l, input);
}

/// A well-formed `s_exp` starts with `(` exactly when it is a list, and never with
/// whitespace or `)`.
proof fn lemma_sexp_start(q: Pair, input: Seq<char>)
    requires
        pair_wf(q, input),
        q.rule == Rule::s_exp,
    ensures
        q.start < q.end <= input.len(),
        !is_ws(input[q.start as int]),
        input[q.start as int] != ')',
        q.children@.len() == 1,
        pair_wf(q.children@[0], input),
        q.children@[0].start == q.start,
        q.children@[0].end == q.end,
        input[q.start as int] == '(' ==> q.children@[0].rule == Rule::list,
        input[q.start as int] != '(' ==> q.children@[0].rule == Rule::atom,
{
    let c = q.children@[0];
    assert(pair_wf(c, input));
    if c.rule == Rule::atom {
        lemma_atom_shape(c, input);
    }
}

/// The first non-whitespace character at or after `e` is at `j`.
proof fn lemma_first_nonws(input: Seq<char>, e: int, j: int, x: int)
    requires
        e <= j <= input.len(),
        ws_between(input, e, j),
        j < input.len() ==> !is_ws(input[j]),
        e <= x < input.len(),
        ws_between(input, e, x),
        !is_ws(input[x]),
    ensures
        x == j,
{
    if x < j {
        assert(is_ws(input[x]));
    } else if x > j {
        assert(is_ws(input[j]));
    }
}

/// Where a list's items go on after its first `cnt` items, which end at `e`.
proof fn lemma_list_next(q: Pair, input: Seq<char>, cnt: int, e: int)
    requires
        pair_wf(q, input),
        q.rule == Rule::list,
        0 <= cnt <= q.children@.len(),
        e == (if cnt == 0 {
            q.start + 1
        } else {
            q.children@[cnt - 1].end as int
        }),
    ensures
        cnt == q.children@.len() ==> e <= q.end - 1 && ws_between(input, e, q.end - 1) && input[q.end
            - 1] == ')',
        cnt < q.children@.len() ==> e <= q.children@[cnt].start && ws_between(
            input,
            e,
            q.children@[cnt].start as int,
        ) && pair_wf(q.children@[cnt], input) && q.children@[cnt].rule == Rule::s_exp,
{
    let c = q.children@;
    if cnt < c.len() {
        assert(pair_wf(c[cnt], input) && c[cnt].rule == Rule::s_exp);
        if cnt > 0 {
            assert(c[cnt - 1].end <= c[cnt].start);
        }
    }
}

/// The atom starting at `i`: a quoted string, or a bare token up to the next delimiter.
fn parse_atom(src: &str, cs: &Vec<char>, i: usize) -> (r: Result<Pair, GrammarError>)
    requires
        cs@ == src@,
        i < cs@.len(),
        !is_ws(cs@[i as int]),
    ensures
        r matches Ok(p) ==> p.rule == Rule::atom && p.start == i && i < p.end && pair_wf(p, cs@),
        r matches Ok(p) ==> forall|q: Pair|
            #[trigger] pair_wf(q, cs@) && q.rule == Rule::atom && q.start == i ==> q.end == p.end,
        r is Err ==> forall|q: Pair|
            #[trigger] pair_wf(q, cs@) && q.rule == Rule::atom ==> q.start != i,
        r matches Ok(p) ==> forall|q: Pair|
            #[trigger] pair_wf(q, cs@) && is_leaf_rule(q.rule) && q.start == i ==> q.end == p.end
                && q.rule == p.children@[0].rule,
        r is Err ==> forall|q: Pair|
            #[trigger] pair_wf(q, cs@) && is_leaf_rule(q.rule) ==> q.start != i,
{
    let n = cs.len();
    if cs[i] == '"' {
        let mut k = i + 1;
        while k < n && cs[k] != '"'
            invariant
                i < k <= n == cs@.len(),
                forall|m: int| i < m < k ==> #[trigger] cs@[m] != '"',
            decreases n - k,
        {
            k += 1;
        }
        if k >= n {
            proof {
                assert forall|q: Pair| #[trigger] pair_wf(q, cs@) && q.rule == Rule::atom implies q.start
                    != i by {
                    if q.start == i {
                        lemma_atom_shape(q, cs@);
                    }
                }
                assert forall|q: Pair| #[trigger] pair_wf(q, cs@) && is_leaf_rule(q.rule) implies q.start
                    != i by {
                    if q.start == i {
                        lemma_leaf_shape(q, cs@);
                    }
                }
            }
            return Err(GrammarError { position: i });
        }
        proof {
            assert forall|q: Pair| #[trigger] pair_wf(q, cs@) && q.rule == Rule::atom && q.start == i
                implies q.end == k + 1 by {
                lemma_atom_shape(q, cs@);
            }
            assert forall|q: Pair| #[trigger] pair_wf(q, cs@) && is_leaf_rule(q.rule) && q.start == i
                implies q.end == k + 1 && q.rule == Rule::string by {
                lemma_leaf_shape(q, cs@);
            }
        }
        let leaf = node(Rule::string, src, i, k + 1, Vec::new());
        assert(leaf.text@ =~= cs@.subrange(i as int, k + 1));
        assert(is_string_text(leaf.text@));
        assert(pair_wf(leaf, cs@));
        let mut children = Vec::new();
        children.push(leaf);
        let p = node(Rule::atom, src, i, k + 1, children);
        assert(pair_wf(p, cs@));
        Ok(p)
    } else {
        if cs[i] == '(' || cs[i] == ')' {
            proof {
                assert forall|q: Pair| #[trigger] pair_wf(q, cs@) && q.rule == Rule::atom implies q.start
                    != i by {
                    if q.start == i {
                        lemma_atom_shape(q, cs@);
                    }
                }
                assert forall|q: Pair| #[trigger] pair_wf(q, cs@) && is_leaf_rule(q.rule) implies q.start
                    != i by {
                    if q.start == i {
                        lemma_leaf_shape(q, cs@);
                    }
                }
            }
            return Err(GrammarError { position: i });
        }
        let mut k = i;
        while k < n && !char_is_delim(cs[k])
            invariant
                i <= k <= n == cs@.len(),
                forall|m: int| i <= m < k ==> !is_delim(#[trigger] cs@[m]),
            decreases n - k,
        {
            k += 1;
        }
        proof {
            assert forall|q: Pair| #[trigger] pair_wf(q, cs@) && q.rule == Rule::atom && q.start == i
                implies q.end == k by {
                lemma_atom_shape(q, cs@);
                if q.end < k {
                    assert(!is_delim(cs@[q.end as int]));
                } else if q.end > k {
                    assert(!is_delim(cs@[k as int]));
                }
            }
            assert forall|q: Pair| #[trigger] pair_wf(q, cs@) && is_leaf_rule(q.rule) && q.start == i
                implies q.end == k && q.text@ == cs@.subrange(i as int, k as int) by {
                lemma_leaf_shape(q, cs@);
                if q.end < k {
                    assert(!is_delim(cs@[q.end as int]));
                } else if q.end > k {
                    assert(!is_delim(cs@[k as int]));
                }
            }
            lemma_leaf_classes(cs@.subrange(i as int, k as int));
        }
        let rule = if check_bool(cs, i, k) {
            Rule::bool
        } else if check_number(cs, i, k) {
            Rule::number
        } else if check_ident(cs, i, k) {
            Rule::ident
        } else {
            proof {
                assert forall|q: Pair| #[trigger] pair_wf(q, cs@) && q.rule == Rule::atom implies q.start
                    != i by {
                    if q.start == i {
                        lemma_atom_shape(q, cs@);
                        assert(q.end == k);
                    }
                }
                assert forall|q: Pair| #[trigger] pair_wf(q, cs@) && is_leaf_rule(q.rule) implies q.start
                    != i by {
                    if q.start == i {
                        lemma_leaf_shape(q, cs@);
                    }
                }
            }
            return Err(GrammarError { position: i });
        };
        assert(k == n || is_delim(cs@[k as int]));
        let leaf = node(rule, src, i, k, Vec::new());
        assert(pair_wf(leaf, cs@));
        let mut children = Vec::new();
        children.push(leaf);
        let p = node(Rule::atom, src, i, k, children);
        assert(pair_wf(p, cs@));
        Ok(p)
    }
}

/// An `s_exp` starting at `i`.
fn parse_sexp(src: &str, cs: &Vec<char>, i: usize) -> (r: Result<Pair, GrammarError>)
    requires
        cs@ == src@,
        i < cs@.len(),
        !is_ws(cs@[i as int]),
    ensures
        r matches Ok(p) ==> p.rule == Rule::s_exp && p.start == i && i < p.end && pair_wf(p, cs@),
        r matches Ok(p) ==> forall|q: Pair|
            #[trigger] pair_wf(q, cs@) && q.rule == Rule::s_exp && q.start == i ==> q.end == p.end,
        r is Err ==> forall|q: Pair|
            #[trigger] pair_wf(q, cs@) && q.rule == Rule::s_exp ==> q.start != i,
    decreases cs@.len() - i, 1int,
{
    let inner = if cs[i] == '(' {
        parse_list(src, cs, i)
    } else {
        parse_atom(src, cs, i)
    };
    proof {
        assert forall|q: Pair| #[trigger] pair_wf(q, cs@) && q.rule == Rule::s_exp && q.start == i
            implies (inner matches Ok(c) && q.end == c.end) by {
            lemma_sexp_start(q, cs@);
            let c = q.children@[0];
            assert(pair_wf(c, cs@));
        }
    }
    match inner {
        Ok(child) => {
            let start = child.start;
            let end = child.end;
            let mut children = Vec::new();
            children.push(child);
            let p = node(Rule::s_exp, src, start, end, children);
            assert(pair_wf(p, cs@));
            Ok(p)
        },
        Err(e) => Err(e),
    }
}

/// A list starting at the `(` at `i`.
fn parse_list(src: &str, cs: &Vec<char>, i: usize) -> (r: Result<Pair, GrammarError>)
    requires
        cs@ == src@,
        i < cs@.len(),
        cs@[i as int] == '(',
    ensures
        r matches Ok(p) ==> p.rule == Rule::list && p.start == i && i < p.end && pair_wf(p, cs@),
        r matches Ok(p) ==> forall|q: Pair|
            #[trigger] pair_wf(q, cs@) && q.rule == Rule::list && q.start == i ==> q.end == p.end,
        r is Err ==> forall|q: Pair|
            #[trigger] pair_wf(q, cs@) && q.rule == Rule::list ==> q.start != i,
    decreases cs@.len() - i, 0int,
{
    let n = cs.len();
    let mut children: Vec<Pair> = Vec::new();
    let mut j = skip_ws(cs, i + 1);
    while j < n && cs[j] != ')'
        invariant
            cs@ == src@,
            n == cs@.len(),
            i < j <= n,
            cs@[i as int] == '(',
            laid_out(children@, cs@, i + 1, j as int),
            j < n ==> !is_ws(cs@[j as int]),
            forall|m: int|
                0 <= m < children@.len() ==> (#[trigger] children@[m]).rule == Rule::s_exp
                    && pair_wf(children@[m], cs@),
            forall|q: Pair|
                #[trigger] pair_wf(q, cs@) && q.rule == Rule::list && q.start == i ==> q.children@.len()
                    >= children@.len() && forall|t: int|
                    0 <= t < children@.len() ==> (#[trigger] q.children@[t]).end
                        == children@[t].end,
        decreases n - j,
    {
        let ghost prev = if children@.len() == 0 {
            i + 1
        } else {
            children@[children@.len() - 1].end as int
        };
        proof {
            assert forall|q: Pair| #[trigger] pair_wf(q, cs@) && q.rule == Rule::list && q.start == i
                implies q.children@.len() > children@.len() && q.children@[children@.len() as int].start
                == j by {
                let cnt = children@.len() as int;
                if cnt > 0 {
                    assert(q.children@[cnt - 1].end == children@[cnt - 1].end);
                }
                lemma_list_next(q, cs@, cnt, prev);
                if cnt == q.children@.len() {
                    lemma_first_nonws(cs@, prev, j as int, q.end - 1);
                } else {
                    let qc = q.children@[cnt];
                    lemma_sexp_start(qc, cs@);
                    lemma_first_nonws(cs@, prev, j as int, qc.start as int);
                }
            }
        }
        let child = match parse_sexp(src, cs, j) {
            Ok(c) => c,
            Err(e) => {
                proof {
                    assert forall|q: Pair| #[trigger] pair_wf(q, cs@) && q.rule == Rule::list implies q.start
                        != i by {
                        if q.start == i {
                            let qc = q.children@[children@.len() as int];
                            assert(pair_wf(qc, cs@) && qc.rule == Rule::s_exp) by {
                                lemma_list_next(q, cs@, children@.len() as int, prev);
                            }
                        }
                    }
                }
                return Err(e);
            },
        };
        proof {
            assert forall|q: Pair| #[trigger] pair_wf(q, cs@) && q.rule == Rule::list && q.start == i
                implies q.children@[children@.len() as int].end == child.end by {
                let qc = q.children@[children@.len() as int];
                assert(pair_wf(qc, cs@) && qc.rule == Rule::s_exp) by {
                    lemma_list_next(q, cs@, children@.len() as int, prev);
                }
            }
        }
        let e = child.end;
        assert(child.start == j);
        let ghost old_children = children@;
        children.push(child);
        assert(children@ == old_children.push(child));
        let k = skip_ws(cs, e);
        assert(laid_out(children@, cs@, i + 1, k as int));
        proof {
            assert forall|q: Pair| #[trigger] pair_wf(q, cs@) && q.rule == Rule::list && q.start == i
                implies q.children@.len() >= children@.len() && forall|t: int|
                0 <= t < children@.len() ==> (#[trigger] q.children@[t]).end == children@[t].end by {
                assert forall|t: int| 0 <= t < children@.len() implies (#[trigger] q.children@[t]).end
                    == children@[t].end by {
                    if t < old_children.len() {
                        assert(children@[t] == old_children[t]);
                    }
                }
            }
        }
        j = k;
    }
    let ghost prev = if children@.len() == 0 {
        i + 1
    } else {
        children@[children@.len() - 1].end as int
    };
    proof {
        assert forall|q: Pair| #[trigger] pair_wf(q, cs@) && q.rule == Rule::list && q.start == i
            implies q.children@.len() == children@.len() && q.end == j + 1 by {
            let cnt = children@.len() as int;
            if cnt > 0 {
                assert(q.children@[cnt - 1].end == children@[cnt - 1].end);
            }
            lemma_list_next(q, cs@, cnt, prev);
            if cnt == q.children@.len() {
                lemma_first_nonws(cs@, prev, j as int, q.end - 1);
            } else {
                let qc = q.children@[cnt];
                lemma_sexp_start(qc, cs@);
                lemma_first_nonws(cs@, prev, j as int, qc.start as int);
            }
        }
    }
    if j >= n {
        return Err(GrammarError { position: i });
    }
    let p = node(Rule::list, src, i, j + 1, children);
    assert(pair_wf(p, cs@));
    Ok(p)
}

/// Where a program's items go on after its first `cnt` items, which end at `e`.
proof fn lemma_program_next(q: Pair, input: Seq<char>, cnt: int, e: int)
    requires
        pair_wf(q, input),
        q.rule == Rule::program,
        0 <= cnt <= q.children@.len() - 1,
        e == (if cnt == 0 {
            0
        } else {
            q.children@[cnt - 1].end as int
        }),
    ensures
        cnt == q.children@.len() - 1 ==> e <= input.len() && ws_between(input, e, input.len() as int),
        cnt < q.children@.len() - 1 ==> e <= q.children@[cnt].start && ws_between(
            input,
            e,
            q.children@[cnt].start as int,
        ) && pair_wf(q.children@[cnt], input) && q.children@[cnt].rule == Rule::s_exp,
{
    let n = q.children@.len();
    let body = q.children@.take(n - 1);
    assert(laid_out(body, input, 0, input.len() as int));
    if cnt > 0 {
        assert(body[cnt - 1] == q.children@[cnt - 1]);
    }
    if cnt < n - 1 {
        assert(body[cnt] == q.children@[cnt]);
        assert(pair_wf(q.children@[cnt], input) && q.children@[cnt].rule == Rule::s_exp);
        if cnt > 0 {
            assert(body[cnt - 1].end <= body[cnt].start);
        }
    }
}

/// Two trees agree in kind, span and text at every node.
pub open spec fn same_tree(a: Pair, b: Pair) -> bool
    decreases a,
{
    &&& a.rule == b.rule
    &&& a.start == b.start
    &&& a.end == b.end
    &&& a.text@ == b.text@
    &&& a.children@.len() == b.children@.len()
    &&& forall|k: int|
        0 <= k < a.children@.len() ==> same_tree(#[trigger] a.children@[k], b.children@[k])
}

/// Two well-formed leaves that start at the same place are the same leaf.
proof fn lemma_unique_leaf(a: Pair, b: Pair, input: Seq<char>)
    requires
        pair_wf(a, input),
        pair_wf(b, input),
        is_leaf_rule(a.rule),
        is_leaf_rule(b.rule),
        a.start == b.start,
    ensures
        same_tree(a, b),
{
    lemma_leaf_shape(a, input);
    lemma_leaf_shape(b, input);
    if input[a.start as int] == '"' {
        if a.end < b.end {
            assert(input[a.end - 1] == '"');
        } else if b.end < a.end {
            assert(input[b.end - 1] == '"');
        }
    } else {
        if a.end < b.end {
            assert(!is_delim(input[a.end as int]));
        } else if b.end < a.end {
            assert(!is_delim(input[b.end as int]));
        }
    }
    assert(a.children@.len() == 0 && b.children@.len() == 0);
}

/// A well-formed tree is the only one of its kind that starts where it starts.
pub proof fn lemma_unique_tree(a: Pair, b: Pair, input: Seq<char>)
    requires
        pair_wf(a, input),
        pair_wf(b, input),
        a.rule == b.rule,
        a.start == b.start,
    ensures
        same_tree(a, b),
    decreases a, a.children@.len() + 2,
{
    if is_leaf_rule(a.rule) {
        lemma_unique_leaf(a, b, input);
    } else if a.rule == Rule::EOI {
    } else if a.rule == Rule::atom {
        let ca = a.children@[0];
        let cb = b.children@[0];
        lemma_leaf_shape(ca, input);
        lemma_leaf_shape(cb, input);
        lemma_unique_leaf(ca, cb, input);
    } else if a.rule == Rule::s_exp {
        lemma_sexp_start(a, input);
        lemma_sexp_start(b, input);
        lemma_unique_tree(a.children@[0], b.children@[0], input);
    } else if a.rule == Rule::list {
        let na = a.children@.len();
        let nb = b.children@.len();
        let m: int = if na < nb { na as int } else { nb as int };
        lemma_list_align(a, b, input, m);
        let e = if m == 0 { a.start + 1 } else { a.children@[m - 1].end as int };
        if m > 0 {
            assert(same_tree(a.children@[m - 1], b.children@[m - 1]));
        }
        lemma_list_next(a, input, m, e);
        lemma_list_next(b, input, m, e);
        if na < nb {
            let qc = b.children@[m];
            lemma_sexp_start(qc, input);
            lemma_first_nonws(input, e, a.end - 1, qc.start as int);
        } else if nb < na {
            let qc = a.children@[m];
            lemma_sexp_start(qc, input);
            lemma_first_nonws(input, e, b.end - 1, qc.start as int);
        } else {
            lemma_first_nonws(input, e, a.end - 1, b.end - 1);
        }
    } else {
        let na = a.children@.len();
        let nb = b.children@.len();
        let m: int = if na < nb { na - 1 } else { nb - 1 };
        lemma_program_align(a, b, input, m);
        let e = if m == 0 { 0 } else { a.children@[m - 1].end as int };
        if m > 0 {
            assert(same_tree(a.children@[m - 1], b.children@[m - 1]));
        }
        lemma_program_next(a, input, m, e);
        lemma_program_next(b, input, m, e);
        if na < nb {
            let qc = b.children@[m];
            lemma_sexp_start(qc, input);
            assert(is_ws(input[qc.start as int]));
        } else if nb < na {
            let qc = a.children@[m];
            lemma_sexp_start(qc, input);
            assert(is_ws(input[qc.start as int]));
        }
        let ea = a.children@[na - 1];
        let eb = b.children@[nb - 1];
        assert(pair_wf(ea, input) && pair_wf(eb, input));
        assert(same_tree(ea, eb));
        assert forall|k: int| 0 <= k < na implies same_tree(#[trigger] a.children@[k], b.children@[k]) by {
            if k < m {
            }
        }
    }
}

/// The first `k` items of two well-formed lists that start at the same place agree.
proof fn lemma_list_align(a: Pair, b: Pair, input: Seq<char>, k: int)
    requires
        pair_wf(a, input),
        pair_wf(b, input),
        a.rule == Rule::list,
        b.rule == Rule::list,
        a.start == b.start,
        0 <= k <= a.children@.len(),
        k <= b.children@.len(),
    ensures
        forall|j: int| 0 <= j < k ==> same_tree(#[trigger] a.children@[j], b.children@[j]),
    decreases a, k + 1,
{
    if k > 0 {
        lemma_list_align(a, b, input, k - 1);
        let e = if k == 1 { a.start + 1 } else { a.children@[k - 2].end as int };
        if k > 1 {
            assert(same_tree(a.children@[k - 2], b.children@[k - 2]));
        }
        lemma_list_next(a, input, k - 1, e);
        lemma_list_next(b, input, k - 1, e);
        let ca = a.children@[k - 1];
        let cb = b.children@[k - 1];
        lemma_sexp_start(ca, input);
        lemma_sexp_start(cb, input);
        lemma_first_nonws(input, e, cb.start as int, ca.start as int);
        lemma_unique_tree(ca, cb, input);
    }
}

/// The first `k` items of two parse trees of one program agree.
proof fn lemma_program_align(a: Pair, b: Pair, input: Seq<char>, k: int)
    requires
        pair_wf(a, input),
        pair_wf(b, input),
        a.rule == Rule::program,
        b.rule == Rule::program,
        0 <= k <= a.children@.len() - 1,
        k <= b.children@.len() - 1,
    ensures
        forall|j: int| 0 <= j < k ==> same_tree(#[trigger] a.children@[j], b.children@[j]),
    decreases a, k + 1,
{
    if k > 0 {
        lemma_program_align(a, b, input, k - 1);
        let e = if k == 1 { 0 } else { a.children@[k - 2].end as int };
        if k > 1 {
            assert(same_tree(a.children@[k - 2], b.children@[k - 2]));
        }
        lemma_program_next(a, input, k - 1, e);
        lemma_program_next(b, input, k - 1, e);
        let ca = a.children@[k - 1];
        let cb = b.children@[k - 1];
        lemma_sexp_start(ca, input);
        lemma_sexp_start(cb, input);
        lemma_first_nonws(input, e, cb.start as int, ca.start as int);
        lemma_unique_tree(ca, cb, input);
    }
}

impl RuleParser {
    /// Parses `input` as the given kind of node, from its first character.
    ///
    /// A `program` spans the whole input; any other kind is read from the start of the
    /// input and may leave a remainder, as a prefix parse does. The one pair returned
    /// is a parse tree of its span.
    pub fn parse(rule: Rule, input: &str) -> (r: Result<Vec<Pair>, GrammarError>)
        ensures
            r matches Ok(v) ==> v@.len() == 1 && v@[0].rule == rule && v@[0].start == 0
                && pair_wf(v@[0], input@),
            r matches Ok(v) ==> (rule == Rule::program ==> v@[0].end == input@.len()),
            r matches Ok(v) ==> forall|q: Pair|
                #[trigger] pair_wf(q, input@) && q.rule == rule && q.start == 0
                    ==> q.end == v@[0].end,
            r is Err ==> forall|q: Pair|
                #[trigger] pair_wf(q, input@) && q.rule == rule ==> q.start != 0,
    {
        let cs = chars_of(input);
        let n = cs.len();
        let mut out: Vec<Pair> = Vec::new();
        match rule {
            Rule::program => {
                let mut children: Vec<Pair> = Vec::new();
                let mut j = skip_ws(&cs, 0);
                while j < n
                    invariant
                        cs@ == input@,
                        rule == Rule::program,
                        n == cs@.len(),
                        j <= n,
                        laid_out(children@, cs@, 0, j as int),
                        j < n ==> !is_ws(cs@[j as int]),
                        forall|m: int|
                            0 <= m < children@.len() ==> (#[trigger] children@[m]).rule
                                == Rule::s_exp && pair_wf(children@[m], cs@),
                        forall|q: Pair|
                            #[trigger] pair_wf(q, cs@) && q.rule == Rule::program ==> q.children@.len()
                                - 1 >= children@.len() && forall|t: int|
                                0 <= t < children@.len() ==> (#[trigger] q.children@[t]).end
                                    == children@[t].end,
                    decreases n - j,
                {
                    let ghost prev = if children@.len() == 0 {
                        0
                    } else {
                        children@[children@.len() - 1].end as int
                    };
                    proof {
                        assert forall|q: Pair| #[trigger] pair_wf(q, cs@) && q.rule == Rule::program
                            implies q.children@.len() - 1 > children@.len() && q.children@[children@.len() as int].start
                            == j by {
                            let cnt = children@.len() as int;
                            if cnt > 0 {
                                assert(q.children@[cnt - 1].end == children@[cnt - 1].end);
                            }
                            lemma_program_next(q, cs@, cnt, prev);
                            if cnt == q.children@.len() - 1 {
                                assert(is_ws(cs@[j as int]));
                            } else {
                                let qc = q.children@[cnt];
                                lemma_sexp_start(qc, cs@);
                                lemma_first_nonws(cs@, prev, j as int, qc.start as int);
                            }
                        }
                    }
                    let child = match parse_sexp(input, &cs, j) {
                        Ok(c) => c,
                        Err(e) => {
                            proof {
                                assert forall|q: Pair| #[trigger] pair_wf(q, input@) && q.rule == Rule::program
                                    implies q.start != 0 by {
                                    assert(pair_wf(q, cs@));
                                    assert(q.children@.len() - 1 > children@.len());
                                    let qc = q.children@[children@.len() as int];
                                    assert(qc.start == j);
                                    assert(pair_wf(qc, cs@) && qc.rule == Rule::s_exp) by {
                                        lemma_program_next(q, cs@, children@.len() as int, prev);
                                    }
                                }
                            }
                            return Err(e);
                        },
                    };
                    proof {
                        assert forall|q: Pair| #[trigger] pair_wf(q, cs@) && q.rule == Rule::program
                            implies q.children@[children@.len() as int].end == child.end by {
                            let qc = q.children@[children@.len() as int];
                            assert(pair_wf(qc, cs@) && qc.rule == Rule::s_exp) by {
                                lemma_program_next(q, cs@, children@.len() as int, prev);
                            }
                        }
                    }
                    let e = child.end;
                    let ghost old_children = children@;
                    children.push(child);
                    assert(children@ == old_children.push(child));
                    let k = skip_ws(&cs, e);
                    assert(laid_out(children@, cs@, 0, k as int));
                    proof {
                        assert forall|q: Pair| #[trigger] pair_wf(q, cs@) && q.rule == Rule::program
                            implies q.children@.len() - 1 >= children@.len() && forall|t: int|
                            0 <= t < children@.len() ==> (#[trigger] q.children@[t]).end
                                == children@[t].end by {
                            assert forall|t: int| 0 <= t < children@.len() implies (
                            #[trigger] q.children@[t]).end == children@[t].end by {
                                if t < old_children.len() {
                                    assert(children@[t] == old_children[t]);
                                }
                            }
                        }
                    }
                    j = k;
                }
                let ghost body = children@;
                let eoi = node(Rule::EOI, input, n, n, Vec::new());
                assert(pair_wf(eoi, cs@));
                children.push(eoi);
                assert(children@.take(children@.len() - 1) =~= body);
                let p = node(Rule::program, input, 0, n, children);
                assert(pair_wf(p, cs@));
                out.push(p);
            },
            Rule::EOI => {
                if n != 0 {
                    return Err(GrammarError { position: 0 });
                }
                let p = node(Rule::EOI, input, 0, 0, Vec::new());
                assert(pair_wf(p, cs@));
                out.push(p);
            },
            _ => {
                if n == 0 || char_is_ws(cs[0]) {
                    proof {
                        assert forall|q: Pair| #[trigger] pair_wf(q, cs@) && q.rule == rule implies q.start
                            != 0 by {
                            if q.start == 0 {
                                if q.rule == Rule::s_exp {
                                    lemma_sexp_start(q, cs@);
                                } else if q.rule == Rule::atom {
                                    lemma_atom_shape(q, cs@);
                                } else if is_leaf_rule(q.rule) {
                                    lemma_leaf_shape(q, cs@);
                                }
                            }
                        }
                    }
                    return Err(GrammarError { position: 0 });
                }
                let p = match rule {
                    Rule::s_exp => parse_sexp(input, &cs, 0),
                    Rule::list => {
                        if cs[0] != '(' {
                            return Err(GrammarError { position: 0 });
                        }
                        parse_list(input, &cs, 0)
                    },
                    _ => parse_atom(input, &cs, 0),
                };
                let p = match p {
                    Ok(p) => p,
                    Err(e) => {
                        return Err(e);
                    },
                };
                if rule == Rule::atom || rule == Rule::s_exp || rule == Rule::list {
                    out.push(p);
                } else {
                    let ghost atom = p;
                    let mut kids = p.into_inner();
                    let leaf = kids.remove(0);
                    assert(leaf == atom.children@[0]);
                    assert(pair_wf(leaf, cs@) && leaf.start == 0 && leaf.end == atom.end);
                    if leaf.rule != rule {
                        return Err(GrammarError { position: 0 });
                    }
                    out.push(leaf);
                }
            },
        }
        Ok(out)
    }
}

} // verus!
