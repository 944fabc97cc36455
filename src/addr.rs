use vstd::prelude::*;

use crate::parser::{is_digit, is_number_text};
use crate::vm::Ipv4;

verus! {

pub open spec fn digit_value(c: char) -> int {
    c as int - '0' as int
}

/// The value of a run of decimal digits.
pub open spec fn digits_value(t: Seq<char>) -> int
    decreases t.len(),
{
    if t.len() == 0 {
        0
    } else {
        digits_value(t.drop_last()) * 10 + digit_value(t.last())
    }
}

pub open spec fn all_digits(t: Seq<char>) -> bool {
    forall|i: int| 0 <= i < t.len() ==> is_digit(#[trigger] t[i])
}

/// The value of an optionally negative decimal literal.
pub open spec fn number_value(t: Seq<char>) -> int {
    if t.len() > 0 && t[0] == '-' {
        -digits_value(t.drop_first())
    } else {
        digits_value(t)
    }
}

/// One octet of a dotted quad: one to three digits, no leading zero, at most 255.
pub open spec fn is_octet(t: Seq<char>) -> bool {
    &&& 1 <= t.len() <= 3
    &&& all_digits(t)
    &&& (t[0] == '0' ==> t.len() == 1)
    &&& digits_value(t) <= 255
}

/// The end of the run of digits that starts at `i`.
pub open spec fn run_end(t: Seq<char>, i: int) -> int
    decreases t.len() - i,
{
    if i < 0 || i >= t.len() || !is_digit(t[i]) {
        i
    } else {
        run_end(t, i + 1)
    }
}

/// The octet that starts at `i`: the end of its digits and its value.
pub open spec fn octet_spec(t: Seq<char>, i: int) -> Option<(int, u8)> {
    let e = run_end(t, i);
    if is_octet(t.subrange(i, e)) {
        Some((e, digits_value(t.subrange(i, e)) as u8))
    } else {
        None
    }
}

/// The octet that starts at `i` and is followed by a dot: the position after the dot.
pub open spec fn dotted_octet(t: Seq<char>, i: int) -> Option<(int, u8)> {
    match octet_spec(t, i) {
        Some((e, v)) => if e < t.len() && t[e] == '.' {
            Some((e + 1, v))
        } else {
            None
        },
        None => None,
    }
}

/// The address that a dotted-quad literal denotes, if it is one: four octets of one to
/// three digits each, without leading zeros, separated by dots.
pub open spec fn ipv4_spec(t: Seq<char>) -> Option<Ipv4> {
    match dotted_octet(t, 0) {
        Some((i1, a)) => match dotted_octet(t, i1) {
            Some((i2, b)) => match dotted_octet(t, i2) {
                Some((i3, c)) => match octet_spec(t, i3) {
                    Some((e, d)) => if e == t.len() {
                        Some(Ipv4(a, b, c, d))
                    } else {
                        None
                    },
                    None => None,
                },
                None => None,
            },
            None => None,
        },
        None => None,
    }
}

proof fn lemma_digits_value_push(t: Seq<char>, c: char)
    ensures
        digits_value(t.push(c)) == digits_value(t) * 10 + digit_value(c),
{
    assert(t.push(c).drop_last() =~= t);
}

/// A run of digits from `i` that stops at `e` ends where `run_end` says.
proof fn lemma_run_end(t: Seq<char>, i: int, e: int)
    requires
        0 <= i <= e <= t.len(),
        forall|k: int| i <= k < e ==> is_digit(#[trigger] t[k]),
    ensures
        e == t.len() || !is_digit(t[e]) ==> run_end(t, i) == e,
        run_end(t, i) >= e,
    decreases e - i,
{
    if i < e {
        lemma_run_end(t, i + 1, e);
    } else {
        lemma_run_end_at_least(t, i);
    }
}

proof fn lemma_run_end_at_least(t: Seq<char>, i: int)
    requires
        0 <= i,
    ensures
        run_end(t, i) >= i,
        i <= t.len() ==> run_end(t, i) <= t.len(),
    decreases t.len() - i,
{
    if i < t.len() && is_digit(t[i]) {
        lemma_run_end_at_least(t, i + 1);
    }
}

/// Reads the run of digits that starts at `i`, up to four of them; returns its end and
/// its value.
fn digit_run(cs: &Vec<char>, i: usize) -> (r: (usize, u32))
    requires
        i <= cs@.len(),
    ensures
        i <= r.0 <= cs@.len(),
        r.0 - i <= 4,
        forall|k: int| i <= k < r.0 ==> is_digit(#[trigger] cs@[k]),
        r.0 - i < 4 ==> (r.0 == cs@.len() || !is_digit(cs@[r.0 as int])),
        r.1 == digits_value(cs@.subrange(i as int, r.0 as int)),
{
    let mut j = i;
    let mut v: u32 = 0;
    while j < cs.len() && j - i < 4 && '0' <= cs[j] && cs[j] <= '9'
        invariant
            i <= j <= cs@.len(),
            j - i <= 4,
            forall|k: int| i <= k < j ==> is_digit(#[trigger] cs@[k]),
            v == digits_value(cs@.subrange(i as int, j as int)),
            v < 10000 && (j - i <= 3 ==> v < 1000) && (j - i <= 2 ==> v < 100) && (j - i <= 1
                ==> v < 10) && (j == i ==> v == 0),
        decreases cs@.len() - j,
    {
        let ghost before = cs@.subrange(i as int, j as int);
        proof {
            lemma_digits_value_push(before, cs@[j as int]);
            assert(cs@.subrange(i as int, j + 1) =~= before.push(cs@[j as int]));
        }
        v = v * 10 + (cs[j] as u32 - '0' as u32);
        j += 1;
    }
    (j, v)
}

/// Parses the octet that starts at `i`.
fn octet_at(cs: &Vec<char>, i: usize) -> (r: Option<(usize, u8)>)
    requires
        i <= cs@.len(),
    ensures
        match r {
            Some((e, v)) => octet_spec(cs@, i as int) == Some((e as int, v)),
            None => octet_spec(cs@, i as int) is None,
        },
        r matches Some((e, v)) ==> e <= cs@.len(),
{
    let (e, v) = digit_run(cs, i);
    proof {
        lemma_run_end(cs@, i as int, e as int);
        lemma_run_end_at_least(cs@, i as int);
    }
    if e == i || e - i > 3 || v > 255 || (cs[i] == '0' && e - i > 1) {
        proof {
            let re = run_end(cs@, i as int);
            if e - i <= 3 && e > i {
                assert(re == e);
                assert(cs@.subrange(i as int, re)[0] == cs@[i as int]);
            }
        }
        return None;
    }
    proof {
        let t = cs@.subrange(i as int, e as int);
        assert forall|k: int| 0 <= k < t.len() implies is_digit(#[trigger] t[k]) by {
            assert(t[k] == cs@[i + k]);
        }
        assert(t[0] == cs@[i as int]);
    }
    Some((e, v as u8))
}

/// Parses a dotted-quad IPv4 literal.
pub fn parse_ipv4(s: &Vec<char>) -> (r: Option<Ipv4>)
    ensures
        r == ipv4_spec(s@),
{
    let n = s.len();
    let (a, o1) = match octet_at(s, 0) {
        Some(x) => x,
        None => {
            return None;
        },
    };
    if a >= n || s[a] != '.' {
        return None;
    }
    let (b, o2) = match octet_at(s, a + 1) {
        Some(x) => x,
        None => {
            return None;
        },
    };
    if b >= n || s[b] != '.' {
        return None;
    }
    let (c, o3) = match octet_at(s, b + 1) {
        Some(x) => x,
        None => {
            return None;
        },
    };
    if c >= n || s[c] != '.' {
        return None;
    }
    let (d, o4) = match octet_at(s, c + 1) {
        Some(x) => x,
        None => {
            return None;
        },
    };
    if d != n {
        return None;
    }
    Some(Ipv4(o1, o2, o3, o4))
}

/// The value of a decimal literal, where it is one and fits in an `i64`.
pub open spec fn i64_literal(t: Seq<char>) -> Option<i64> {
    if is_number_text(t) && i64::MIN <= number_value(t) <= i64::MAX {
        Some(number_value(t) as i64)
    } else {
        None
    }
}

proof fn lemma_digits_grow(t: Seq<char>, k: int)
    requires
        0 <= k <= t.len(),
        forall|i: int| 0 <= i < t.len() ==> is_digit(#[trigger] t[i]),
    ensures
        digits_value(t) >= digits_value(t.subrange(0, k)) >= 0,
    decreases t.len(),
{
    if t.len() > 0 {
        let u = t.drop_last();
        assert forall|i: int| 0 <= i < u.len() implies is_digit(#[trigger] u[i]) by {
            assert(u[i] == t[i]);
        }
        if k == t.len() {
            assert(t.subrange(0, k) =~= t);
            lemma_digits_grow(u, u.len() as int);
            assert(u.subrange(0, u.len() as int) =~= u);
        } else {
            lemma_digits_grow(u, k);
            assert(u.subrange(0, k) =~= t.subrange(0, k));
        }
    } else {
        assert(t.subrange(0, k) =~= t);
    }
}

/// Parses a decimal literal, optionally negative, into an `i64`.
pub fn parse_i64(t: &Vec<char>) -> (r: Option<i64>)
    ensures
        r == i64_literal(t@),
{
    let n = t.len();
    let neg = n > 0 && t[0] == '-';
    let first: usize = if neg {
        1
    } else {
        0
    };
    if first >= n {
        return None;
    }
    let limit: u64 = if neg {
        0x8000_0000_0000_0000
    } else {
        0x7fff_ffff_ffff_ffff
    };
    let ghost body = t@.subrange(first as int, n as int);
    let mut v: u64 = 0;
    let mut j = first;
    while j < n
        invariant
            first <= j <= n == t@.len(),
            first < n,
            neg == (t@.len() > 0 && t@[0] == '-'),
            first == (if neg { 1usize } else { 0usize }),
            limit == (if neg { 0x8000_0000_0000_0000u64 } else { 0x7fff_ffff_ffff_ffffu64 }),
            body == t@.subrange(first as int, n as int),
            forall|k: int| first <= k < j ==> is_digit(#[trigger] t@[k]),
            v == digits_value(t@.subrange(first as int, j as int)),
            v <= limit,
        decreases n - j,
    {
        let c = t[j];
        if !('0' <= c && c <= '9') {
            assert(!is_digit(t@[j as int]));
            assert(!is_number_text(t@)) by {
                if first == 1 {
                    assert(t@[0] == '-');
                }
            }
            return None;
        }
        let d = (c as u32 - '0' as u32) as u64;
        let ghost before = t@.subrange(first as int, j as int);
        proof {
            lemma_digits_value_push(before, c);
            assert(t@.subrange(first as int, j + 1) =~= before.push(c));
        }
        if v > (limit - d) / 10 {
            proof {
                assert(v * 10 + d > limit) by (nonlinear_arith)
                    requires v > (limit - d) / 10, d <= 9, d <= limit;
                let full = t@.subrange(first as int, n as int);
                if is_number_text(t@) {
                    assert forall|i: int| 0 <= i < full.len() implies is_digit(#[trigger] full[i]) by {
                        assert(full[i] == t@[first + i]);
                        if first == 1 {
                            assert(t@[0] == '-');
                        }
                    }
                    lemma_digits_grow(full, j + 1 - first);
                    assert(full.subrange(0, j + 1 - first) =~= t@.subrange(first as int, j + 1));
                    if neg {
                        assert(t@.drop_first() =~= full);
                    } else {
                        assert(t@ =~= full);
                    }
                }
            }
            return None;
        }
        v = v * 10 + d;
        j += 1;
    }
    proof {
        assert(t@.subrange(first as int, n as int) == body);
        if neg {
            assert(t@.drop_first() =~= body);
        } else {
            assert(t@ =~= body);
        }
        assert(is_number_text(t@)) by {
            assert forall|i: int| first <= i < t@.len() implies is_digit(#[trigger] t@[i]) by {}
        }
    }
    if neg {
        if v == 0x8000_0000_0000_0000 {
            Some(i64::MIN)
        } else {
            Some(-(v as i64))
        }
    } else {
        Some(v as i64)
    }
}

} // verus!
