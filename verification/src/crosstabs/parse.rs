//! Parsing of crosstab spec logic into a [`CrossTabsLogic`] tree.

use vstd::prelude::*;

use crate::crosstabs::logic::{CrossTabsLogic, LogicTree};
use crate::text::{
    all_ascii, char_is_whitespace, find_char, find_char_exec, find_seq, find_seq_exec, is_whitespace, lemma_find_char_from,
    lemma_find_seq_from, occurs_at, occurs_at_exec, starts_with, starts_with_exec, string_from, sub_chars,
    trim_chars, trim_end_chars, trim_end_ws, trim_start_chars, trim_start_ws, trim_ws, chars_of, extend_chars,
};
use crate::weight::{lemma_utf8_prefix_step, utf8_prefix_len, utf8_width};

verus! {

// ---------------------------------------------------------------------------
// Scanners
// ---------------------------------------------------------------------------

/// Scan for `op` at parenthesis depth 0, over the positions `i..=last`.
pub open spec fn op_scan(t: Seq<char>, op: Seq<char>, i: int, last: int, depth: int) -> Option<int>
    decreases last + 1 - i,
{
    if i < 0 || i > last || i >= t.len() {
        None
    } else {
        let d = if t[i] == '(' { depth + 1 } else if t[i] == ')' { depth - 1 } else { depth };
        if d == 0 && occurs_at(t, op, i) {
            Some(i)
        } else {
            op_scan(t, op, i + 1, last, d)
        }
    }
}

/// The character index of `op` outside parentheses, if any.
pub open spec fn find_op_outside(t: Seq<char>, op: Seq<char>) -> Option<int> {
    if t.len() == 0 {
        None
    } else {
        op_scan(t, op, 0, if t.len() >= op.len() { t.len() - op.len() } else { 0 }, 0)
    }
}

/// The number of characters of `t` that make up its first `b` bytes, when
/// `b` falls on a character boundary.
pub open spec fn chars_for_bytes(t: Seq<char>, b: int, k: int) -> Option<int>
    decreases t.len() + 1 - k,
{
    if k < 0 || k > t.len() {
        None
    } else if utf8_prefix_len(t, k) == b {
        Some(k)
    } else if utf8_prefix_len(t, k) > b {
        None
    } else {
        chars_for_bytes(t, b, k + 1)
    }
}

/// Scan for an implicit AND: a `(` at depth 0 after some non-space text.
/// The result is the length (in characters) of the text before it,
/// trailing whitespace removed.
pub open spec fn implicit_scan(t: Seq<char>, i: int, depth: int, content: bool) -> Option<int>
    decreases t.len() - i,
{
    if i < 0 || i >= t.len() {
        None
    } else {
        let c = t[i];
        if c == '(' && depth == 0 {
            if content {
                Some(trim_end_ws(t.take(i)).len() as int)
            } else {
                implicit_scan(t, i + 1, depth + 1, content)
            }
        } else if c == '(' {
            implicit_scan(t, i + 1, depth + 1, content)
        } else if c == ')' {
            implicit_scan(t, i + 1, depth - 1, content)
        } else if depth == 0 && !char_is_whitespace(c) {
            implicit_scan(t, i + 1, depth, true)
        } else {
            implicit_scan(t, i + 1, depth, content)
        }
    }
}

pub open spec fn find_implicit_and(t: Seq<char>) -> Option<int> {
    implicit_scan(t, 0, 0, false)
}

/// Whether the parentheses of `t` are balanced and the first one closes at
/// the last character.
pub open spec fn balanced_scan(t: Seq<char>, i: int, depth: int) -> bool
    decreases t.len() - i,
{
    if i < 0 || i >= t.len() {
        depth == 0
    } else if t[i] == '(' {
        balanced_scan(t, i + 1, depth + 1)
    } else if t[i] == ')' {
        if depth - 1 < 0 || (depth - 1 == 0 && i != t.len() - 1) {
            false
        } else {
            balanced_scan(t, i + 1, depth - 1)
        }
    } else {
        balanced_scan(t, i + 1, depth)
    }
}

pub open spec fn is_balanced(t: Seq<char>) -> bool {
    balanced_scan(t, 0, 0)
}

/// `str::replace`: non-overlapping occurrences of `pat`, left to right.
pub open spec fn replace_all(s: Seq<char>, pat: Seq<char>, rep: Seq<char>) -> Seq<char>
    decreases s.len(),
{
    if pat.len() == 0 {
        s
    } else {
        match find_seq(s, pat) {
            Some(k) => if 0 <= k && k + pat.len() <= s.len() {
                s.take(k) + rep + replace_all(s.skip(k + pat.len()), pat, rep)
            } else {
                s
            },
            None => s,
        }
    }
}

// ---------------------------------------------------------------------------
// The parse
// ---------------------------------------------------------------------------

pub open spec fn node(v: Seq<char>, l: Option<LogicTree>, r: Option<LogicTree>) -> LogicTree {
    LogicTree {
        value: Some(v),
        left: match l {
            Some(x) => Some(Box::new(x)),
            None => None,
        },
        right: match r {
            Some(x) => Some(Box::new(x)),
            None => None,
        },
    }
}

/// Parse `t` when it is shorter than `limit`.
pub open spec fn sub_simple(t: Seq<char>, limit: int) -> Option<LogicTree>
    decreases limit, 0int,
{
    if t.len() < limit {
        simple(t)
    } else {
        None
    }
}

/// A binary node `v` over the text before and after the operator at
/// character index `i` of length `oplen`; the text is cut at the byte
/// offsets of the operator, which must fall between characters.
pub open spec fn split_binary(t: Seq<char>, v: Seq<char>, i: int, oplen: int, limit: int) -> Option<LogicTree>
    decreases limit, 1int,
{
    match (chars_for_bytes(t, i, 0), chars_for_bytes(t, i + oplen, 0)) {
        (Some(a), Some(b)) => match (sub_simple(t.take(a), limit), sub_simple(t.skip(b), limit)) {
            (Some(l), Some(r)) => Some(node(v, Some(l), Some(r))),
            _ => None,
        },
        _ => None,
    }
}

/// The tree of a spec-logic expression; `None` where a cut would fall
/// inside a multi-byte character, which the parse cannot do.
pub open spec fn simple(s: Seq<char>) -> Option<LogicTree>
    decreases s.len(), 2int,
{
    let t = trim_ws(s);
    let limit = s.len() as int;
    if starts_with(t, "NOT"@) {
        match sub_simple(t.skip(3), limit) {
            Some(r) => Some(node("NOT"@, None, Some(r))),
            None => None,
        }
    } else if find_op_outside(t, " MINUS "@) is Some {
        split_binary(t, "--"@, find_op_outside(t, " MINUS "@)->0, 7, limit)
    } else if find_op_outside(t, " & "@) is Some {
        split_binary(t, "&"@, find_op_outside(t, " & "@)->0, 3, limit)
    } else if find_op_outside(t, " AND "@) is Some {
        split_binary(t, "&"@, find_op_outside(t, " AND "@)->0, 5, limit)
    } else if find_op_outside(t, " OR "@) is Some {
        split_binary(t, "|"@, find_op_outside(t, " OR "@)->0, 4, limit)
    } else if find_implicit_and(t) is Some {
        let j = find_implicit_and(t)->0;
        match (sub_simple(t.take(j), limit), sub_simple(trim_start_ws(t.skip(j)), limit)) {
            (Some(l), Some(r)) => Some(node("&"@, Some(l), Some(r))),
            _ => None,
        }
    } else if t.len() > 0 && t[0] == '(' && find_char(t, ':') is Some {
        if t.len() >= 2 && (t.last() as u32) < 128 {
            match sub_simple(t.subrange(1, t.len() - 1), limit) {
                Some(l) => Some(node("("@, Some(l), None)),
                None => None,
            }
        } else {
            None
        }
    } else if t.len() >= 2 && t[0] == '(' && t.last() == ')' && is_balanced(t) {
        match sub_simple(t.subrange(1, t.len() - 1), limit) {
            Some(l) => Some(node("("@, Some(l), None)),
            None => None,
        }
    } else if find_char(t, ':') is Some {
        let k = find_char(t, ':')->0;
        match (sub_simple(t.take(k), limit), sub_simple(t.skip(k + 1), limit)) {
            (Some(l), Some(r)) => Some(node(":"@, Some(l), Some(r))),
            _ => None,
        }
    } else {
        Some(LogicTree { value: Some(replace_all(t, ", "@, ","@)), left: None, right: None })
    }
}

// ---------------------------------------------------------------------------
// ASCII text always parses
// ---------------------------------------------------------------------------

proof fn lemma_ascii_prefix_len(t: Seq<char>, k: int)
    requires
        all_ascii(t),
        0 <= k <= t.len(),
    ensures
        utf8_prefix_len(t, k) == k,
    decreases k,
{
    if k == 0 {
        assert(t.take(0) =~= Seq::<char>::empty());
    } else {
        lemma_ascii_prefix_len(t, k - 1);
        lemma_utf8_prefix_step(t, k - 1);
        assert((t[k - 1] as u32) < 128);
    }
}

proof fn lemma_ascii_chars_for_bytes(t: Seq<char>, b: int, k: int)
    requires
        all_ascii(t),
        0 <= k <= b <= t.len(),
    ensures
        chars_for_bytes(t, b, k) == Some(b),
    decreases b - k,
{
    lemma_ascii_prefix_len(t, k);
    if k < b {
        lemma_ascii_chars_for_bytes(t, b, k + 1);
    }
}

pub proof fn lemma_trim_ascii(s: Seq<char>)
    requires
        all_ascii(s),
    ensures
        all_ascii(trim_start_ws(s)),
        trim_start_ws(s).len() <= s.len(),
        all_ascii(trim_end_ws(s)),
        trim_end_ws(s).len() <= s.len(),
        all_ascii(trim_ws(s)),
        trim_ws(s).len() <= s.len(),
    decreases s.len(),
{
    if s.len() > 0 {
        assert(all_ascii(s.drop_first()));
        assert(all_ascii(s.drop_last()));
        lemma_trim_ascii(s.drop_first());
        lemma_trim_ascii(s.drop_last());
    }
    lemma_trim_end_ascii(trim_start_ws(s));
}

proof fn lemma_trim_end_ascii(s: Seq<char>)
    requires
        all_ascii(s),
    ensures
        all_ascii(trim_end_ws(s)),
        trim_end_ws(s).len() <= s.len(),
    decreases s.len(),
{
    if s.len() > 0 {
        assert(all_ascii(s.drop_last()));
        lemma_trim_end_ascii(s.drop_last());
    }
}

/// Text that trims to nothing at its end is all whitespace.
proof fn lemma_trim_end_keeps(s: Seq<char>, m: int)
    requires
        0 <= m < s.len(),
        !char_is_whitespace(s[m]),
    ensures
        trim_end_ws(s).len() > m,
    decreases s.len(),
{
    if char_is_whitespace(s.last()) {
        lemma_trim_end_keeps(s.drop_last(), m);
    }
}

proof fn lemma_op_scan(t: Seq<char>, op: Seq<char>, i: int, last: int, depth: int)
    ensures
        op_scan(t, op, i, last, depth) matches Some(k) ==> i <= k && occurs_at(t, op, k),
    decreases last + 1 - i,
{
    if !(i < 0 || i > last || i >= t.len()) {
        let d = if t[i] == '(' { depth + 1 } else if t[i] == ')' { depth - 1 } else { depth };
        if !(d == 0 && occurs_at(t, op, i)) {
            lemma_op_scan(t, op, i + 1, last, d);
        }
    }
}

proof fn lemma_implicit_scan_content(t: Seq<char>, i: int, depth: int, content: bool, m: int)
    requires
        0 <= i,
        content ==> 0 <= m < i && !char_is_whitespace(t[m]),
    ensures
        implicit_scan(t, i, depth, content) matches Some(j) ==> 1 <= j < t.len(),
    decreases t.len() - i,
{
    if i < t.len() {
        let c = t[i];
        if c == '(' && depth == 0 {
            if content {
                lemma_trim_end_keeps(t.take(i), m);
                lemma_trim_end_len(t.take(i));
            } else {
                lemma_implicit_scan_content(t, i + 1, depth + 1, content, m);
            }
        } else if c == '(' {
            lemma_implicit_scan_content(t, i + 1, depth + 1, content, m);
        } else if c == ')' {
            lemma_implicit_scan_content(t, i + 1, depth - 1, content, m);
        } else if depth == 0 && !char_is_whitespace(c) {
            lemma_implicit_scan_content(t, i + 1, depth, true, i);
        } else {
            lemma_implicit_scan_content(t, i + 1, depth, content, m);
        }
    }
}

proof fn lemma_split_binary_ascii(s: Seq<char>, t: Seq<char>, v: Seq<char>, op: Seq<char>)
    requires
        all_ascii(t),
        t.len() <= s.len(),
        op.len() >= 1,
        find_op_outside(t, op) is Some,
        forall|x: Seq<char>| all_ascii(x) && x.len() < s.len() ==> #[trigger] simple(x) is Some,
    ensures
        split_binary(t, v, find_op_outside(t, op)->0, op.len() as int, s.len() as int) is Some,
{
    let i = find_op_outside(t, op)->0;
    lemma_op_scan(t, op, 0, if t.len() >= op.len() { t.len() - op.len() } else { 0 }, 0);
    lemma_ascii_chars_for_bytes(t, i, 0);
    lemma_ascii_chars_for_bytes(t, i + op.len(), 0);
    assert(all_ascii(t.take(i)));
    assert(all_ascii(t.skip(i + op.len())));
    assert(simple(t.take(i)) is Some);
    assert(simple(t.skip(i + op.len())) is Some);
}

/// Every ASCII spec text parses: the parse of spec logic fails only where
/// an operator would be cut inside a multi-byte character.
pub proof fn law_ascii_spec_logic_parses(s: Seq<char>)
    requires
        all_ascii(s),
    ensures
        simple(s) is Some,
    decreases s.len(),
{
    assert forall|x: Seq<char>| all_ascii(x) && x.len() < s.len() implies #[trigger] simple(x) is Some by {
        law_ascii_spec_logic_parses(x);
    }
    let t = trim_ws(s);
    let limit = s.len() as int;
    lemma_trim_ascii(s);
    reveal_strlit("NOT");
    reveal_strlit(" MINUS ");
    reveal_strlit(" & ");
    reveal_strlit(" AND ");
    reveal_strlit(" OR ");
    if starts_with(t, "NOT"@) {
        assert(all_ascii(t.skip(3)));
        assert(simple(t.skip(3)) is Some);
    } else if find_op_outside(t, " MINUS "@) is Some {
        lemma_split_binary_ascii(s, t, "--"@, " MINUS "@);
    } else if find_op_outside(t, " & "@) is Some {
        lemma_split_binary_ascii(s, t, "&"@, " & "@);
    } else if find_op_outside(t, " AND "@) is Some {
        lemma_split_binary_ascii(s, t, "&"@, " AND "@);
    } else if find_op_outside(t, " OR "@) is Some {
        lemma_split_binary_ascii(s, t, "|"@, " OR "@);
    } else if find_implicit_and(t) is Some {
        let j = find_implicit_and(t)->0;
        lemma_implicit_scan_content(t, 0, 0, false, 0);
        assert(all_ascii(t.take(j)));
        assert(all_ascii(t.skip(j)));
        lemma_trim_ascii(t.skip(j));
        assert(simple(t.take(j)) is Some);
        assert(simple(trim_start_ws(t.skip(j))) is Some);
    } else if t.len() > 0 && t[0] == '(' && find_char(t, ':') is Some {
        lemma_find_char_from(t, ':', 0);
        assert(t.len() >= 2);
        assert((t.last() as u32) < 128);
        assert(all_ascii(t.subrange(1, t.len() - 1)));
        assert(simple(t.subrange(1, t.len() - 1)) is Some);
    } else if t.len() >= 2 && t[0] == '(' && t.last() == ')' && is_balanced(t) {
        assert(all_ascii(t.subrange(1, t.len() - 1)));
        assert(simple(t.subrange(1, t.len() - 1)) is Some);
    } else if find_char(t, ':') is Some {
        let k = find_char(t, ':')->0;
        lemma_find_char_from(t, ':', 0);
        assert(all_ascii(t.take(k)));
        assert(all_ascii(t.skip(k + 1)));
        assert(simple(t.take(k)) is Some);
        assert(simple(t.skip(k + 1)) is Some);
    }
}

// ---------------------------------------------------------------------------
// Executable parse
// ---------------------------------------------------------------------------

/// The character index of `op` outside parentheses, if any.
pub fn find_operator_outside_parens(v: &Vec<char>, op: &[char]) -> (r: Option<usize>)
    ensures
        r matches Some(x) ==> find_op_outside(v@, op@) == Some(x as int),
        r is None ==> find_op_outside(v@, op@) is None,
        r matches Some(i) ==> occurs_at(v@, op@, i as int),
{
    if v.len() == 0 {
        return None;
    }
    let last: usize = if v.len() >= op.len() { v.len() - op.len() } else { 0 };
    let mut depth: i128 = 0;
    let mut i: usize = 0;
    while i <= last && i < v.len()
        invariant
            last <= v.len(),
            last == (if v@.len() >= op@.len() { v@.len() - op@.len() } else { 0 }),
            i <= last + 1,
            -(i as int) <= depth <= i,
            op_scan(v@, op@, i as int, last as int, depth as int) == find_op_outside(v@, op@),
        decreases last + 1 - i,
    {
        let c = v[i];
        if c == '(' {
            depth = depth + 1;
        } else if c == ')' {
            depth = depth - 1;
        }
        if depth == 0 && occurs_at_exec(v, op, i) {
            return Some(i);
        }
        i = i + 1;
    }
    None
}

/// The number of characters that make up the first `b` bytes of `v`.
pub(crate) fn chars_for_bytes_exec(v: &Vec<char>, b: usize) -> (r: Option<usize>)
    ensures
        r matches Some(x) ==> chars_for_bytes(v@, b as int, 0) == Some(x as int),
        r is None ==> chars_for_bytes(v@, b as int, 0) is None,
{
    let mut k: usize = 0;
    let mut bytes: u128 = 0;
    assert(v@.take(0) =~= Seq::<char>::empty());
    assert(utf8_prefix_len(v@, 0) == 0);
    loop
        invariant
            k <= v.len(),
            bytes == utf8_prefix_len(v@, k as int),
            bytes <= 4 * k,
            chars_for_bytes(v@, b as int, k as int) == chars_for_bytes(v@, b as int, 0),
        decreases v.len() - k,
    {
        if bytes == b as u128 {
            return Some(k);
        }
        if bytes > b as u128 {
            return None;
        }
        if k == v.len() {
            assert(chars_for_bytes(v@, b as int, k + 1) is None);
            return None;
        }
        proof {
            lemma_utf8_prefix_step(v@, k as int);
        }
        bytes = bytes + utf8_width(v[k]) as u128;
        k = k + 1;
    }
}

/// The split point of an implicit AND, if any.
pub fn find_implicit_and_exec(v: &Vec<char>) -> (r: Option<usize>)
    ensures
        r matches Some(x) ==> find_implicit_and(v@) == Some(x as int),
        r is None ==> find_implicit_and(v@) is None,
{
    let mut depth: i128 = 0;
    let mut content = false;
    let mut i: usize = 0;
    while i < v.len()
        invariant
            i <= v.len(),
            -(i as int) <= depth <= i,
            implicit_scan(v@, i as int, depth as int, content) == find_implicit_and(v@),
        decreases v.len() - i,
    {
        let c = v[i];
        if c == '(' && depth == 0 {
            if content {
                let pre = sub_chars(v, 0, i);
                assert(pre@ =~= v@.take(i as int));
                let te = trim_end_chars(&pre);
                return Some(te.len());
            }
            depth = depth + 1;
        } else if c == '(' {
            depth = depth + 1;
        } else if c == ')' {
            depth = depth - 1;
        } else if depth == 0 && !is_whitespace(c) {
            content = true;
        }
        i = i + 1;
    }
    None
}

/// Whether the parentheses of `v` are balanced and the first one closes at
/// the last character.
pub fn is_balanced_parentheses(v: &Vec<char>) -> (r: bool)
    ensures
        r == is_balanced(v@),
{
    let mut depth: i128 = 0;
    let mut i: usize = 0;
    while i < v.len()
        invariant
            i <= v.len(),
            0 <= depth <= i,
            balanced_scan(v@, i as int, depth as int) == is_balanced(v@),
        decreases v.len() - i,
    {
        let c = v[i];
        if c == '(' {
            depth = depth + 1;
        } else if c == ')' {
            depth = depth - 1;
            if depth < 0 {
                return false;
            }
            if depth == 0 && i != v.len() - 1 {
                return false;
            }
        }
        i = i + 1;
    }
    depth == 0
}

/// `str::replace` on character sequences.
pub fn replace_all_exec(v: &Vec<char>, pat: &[char], rep: &[char]) -> (r: Vec<char>)
    ensures
        r@ == replace_all(v@, pat@, rep@),
{
    if pat.len() == 0 {
        return sub_chars(v, 0, v.len());
    }
    let mut out: Vec<char> = Vec::new();
    let mut rest = sub_chars(v, 0, v.len());
    assert(rest@ =~= v@);
    loop
        invariant
            pat@.len() > 0,
            out@ + replace_all(rest@, pat@, rep@) == replace_all(v@, pat@, rep@),
        decreases rest.len(),
    {
        match find_seq_exec(&rest, pat) {
            Some(k) => {
                proof {
                    lemma_find_seq_from(rest@, pat@, 0);
                }
                assert(occurs_at(rest@, pat@, k as int));
                let head = sub_chars(&rest, 0, k);
                let next = sub_chars(&rest, k + pat.len(), rest.len());
                assert(head@ =~= rest@.take(k as int));
                assert(next@ =~= rest@.skip(k + pat@.len()));
                let ghost o = out@;
                extend_chars(&mut out, head.as_slice());
                extend_chars(&mut out, rep);
                assert(out@ + replace_all(next@, pat@, rep@) =~= o + (rest@.take(k as int) + rep@ + replace_all(next@, pat@, rep@)));
                rest = next;
            },
            None => {
                extend_chars(&mut out, rest.as_slice());
                return out;
            },
        }
    }
}

pub open spec fn opt_tree(r: Option<CrossTabsLogic>, t: Option<LogicTree>) -> bool {
    match t {
        Some(x) => r matches Some(n) && n.tree() == x,
        None => r is None,
    }
}

fn mk_node(v: &str, l: Option<CrossTabsLogic>, r: Option<CrossTabsLogic>) -> (n: CrossTabsLogic)
    ensures
        n.tree() == node(v@, match l { Some(x) => Some(x.tree()), None => None }, match r {
            Some(x) => Some(x.tree()),
            None => None,
        }),
{
    CrossTabsLogic {
        value: Some(v.to_owned()),
        left: match l {
            Some(x) => Some(Box::new(x)),
            None => None,
        },
        right: match r {
            Some(x) => Some(Box::new(x)),
            None => None,
        },
    }
}

fn sub_simple_exec(t: &Vec<char>, limit: usize) -> (r: Option<CrossTabsLogic>)
    ensures
        opt_tree(r, sub_simple(t@, limit as int)),
    decreases limit, 0int,
{
    if t.len() < limit {
        parse_simple(t)
    } else {
        None
    }
}

fn split_binary_exec(t: &Vec<char>, v: &str, i: usize, oplen: usize, limit: usize) -> (r: Option<CrossTabsLogic>)
    requires
        i + oplen <= usize::MAX,
    ensures
        opt_tree(r, split_binary(t@, v@, i as int, oplen as int, limit as int)),
    decreases limit, 1int,
{
    let a = match chars_for_bytes_exec(t, i) {
        Some(a) => a,
        None => {
            return None;
        },
    };
    let b = match chars_for_bytes_exec(t, i + oplen) {
        Some(b) => b,
        None => {
            return None;
        },
    };
    proof {
        lemma_chars_for_bytes(t@, i as int, 0);
        lemma_chars_for_bytes(t@, i + oplen, 0);
    }
    let left_t = sub_chars(t, 0, a);
    let right_t = sub_chars(t, b, t.len());
    assert(left_t@ =~= t@.take(a as int));
    assert(right_t@ =~= t@.skip(b as int));
    let l = sub_simple_exec(&left_t, limit);
    let r = sub_simple_exec(&right_t, limit);
    match (l, r) {
        (Some(l), Some(r)) => Some(mk_node(v, Some(l), Some(r))),
        _ => None,
    }
}

pub proof fn lemma_chars_for_bytes(t: Seq<char>, b: int, k: int)
    ensures
        chars_for_bytes(t, b, k) matches Some(x) ==> 0 <= x <= t.len(),
    decreases t.len() + 1 - k,
{
    if 0 <= k <= t.len() && utf8_prefix_len(t, k) < b {
        lemma_chars_for_bytes(t, b, k + 1);
    }
}

/// Parse a spec-logic expression into a tree; `None` where a cut falls
/// inside a multi-byte character.
pub fn parse_simple(s: &Vec<char>) -> (r: Option<CrossTabsLogic>)
    ensures
        opt_tree(r, simple(s@)),
    decreases s.len(), 2int,
{
    proof {
        reveal_strlit("NOT");
        reveal_strlit(" MINUS ");
        reveal_strlit(" & ");
        reveal_strlit(" AND ");
        reveal_strlit(" OR ");
        reveal_strlit(", ");
        reveal_strlit(",");
        reveal_strlit("--");
        reveal_strlit("&");
        reveal_strlit("|");
        reveal_strlit("(");
        reveal_strlit(":");
    }
    let t = trim_chars(s);
    let limit = s.len();
    let not_kw: [char; 3] = ['N', 'O', 'T'];
    let minus: [char; 7] = [' ', 'M', 'I', 'N', 'U', 'S', ' '];
    let amp: [char; 3] = [' ', '&', ' '];
    let and: [char; 5] = [' ', 'A', 'N', 'D', ' '];
    let or: [char; 4] = [' ', 'O', 'R', ' '];
    assert(not_kw@ =~= "NOT"@);
    assert(minus@ =~= " MINUS "@);
    assert(amp@ =~= " & "@);
    assert(and@ =~= " AND "@);
    assert(or@ =~= " OR "@);
    if starts_with_exec(&t, &not_kw) {
        let rest = sub_chars(&t, 3, t.len());
        assert(rest@ =~= t@.skip(3));
        return match sub_simple_exec(&rest, limit) {
            Some(r) => Some(mk_node("NOT", None, Some(r))),
            None => None,
        };
    }
    if let Some(p) = find_operator_outside_parens(&t, &minus) {
        assert(find_op_outside(t@, " MINUS "@) == Some(p as int));
        let r = split_binary_exec(&t, "--", p, 7, limit);
        assert(simple(s@) == split_binary(t@, "--"@, p as int, 7, limit as int));
        return r;
    }
    if let Some(p) = find_operator_outside_parens(&t, &amp) {
        assert(find_op_outside(t@, " & "@) == Some(p as int));
        let r = split_binary_exec(&t, "&", p, 3, limit);
        assert(simple(s@) == split_binary(t@, "&"@, p as int, 3, limit as int));
        return r;
    }
    if let Some(p) = find_operator_outside_parens(&t, &and) {
        assert(find_op_outside(t@, " AND "@) == Some(p as int));
        let r = split_binary_exec(&t, "&", p, 5, limit);
        assert(simple(s@) == split_binary(t@, "&"@, p as int, 5, limit as int));
        return r;
    }
    if let Some(p) = find_operator_outside_parens(&t, &or) {
        assert(find_op_outside(t@, " OR "@) == Some(p as int));
        let r = split_binary_exec(&t, "|", p, 4, limit);
        assert(simple(s@) == split_binary(t@, "|"@, p as int, 4, limit as int));
        return r;
    }
    if let Some(j) = find_implicit_and_exec(&t) {
        proof {
            lemma_implicit_scan(t@, 0, 0, false);
        }
        let left_t = sub_chars(&t, 0, j);
        let rest = sub_chars(&t, j, t.len());
        assert(left_t@ =~= t@.take(j as int));
        assert(rest@ =~= t@.skip(j as int));
        let right_t = trim_start_chars(&rest);
        let l = sub_simple_exec(&left_t, limit);
        let r = sub_simple_exec(&right_t, limit);
        return match (l, r) {
            (Some(l), Some(r)) => Some(mk_node("&", Some(l), Some(r))),
            _ => None,
        };
    }
    let colon = find_char_exec(&t, ':');
    if t.len() > 0 && t[0] == '(' && colon.is_some() {
        if t.len() >= 2 && (t[t.len() - 1] as u32) < 128 {
            let inner = sub_chars(&t, 1, t.len() - 1);
            return match sub_simple_exec(&inner, limit) {
                Some(l) => Some(mk_node("(", Some(l), None)),
                None => None,
            };
        } else {
            return None;
        }
    }
    if t.len() >= 2 && t[0] == '(' && t[t.len() - 1] == ')' && is_balanced_parentheses(&t) {
        let inner = sub_chars(&t, 1, t.len() - 1);
        return match sub_simple_exec(&inner, limit) {
            Some(l) => Some(mk_node("(", Some(l), None)),
            None => None,
        };
    }
    if let Some(k) = colon {
        proof {
            lemma_find_char_from(t@, ':', 0);
        }
        let left_t = sub_chars(&t, 0, k);
        let right_t = sub_chars(&t, k + 1, t.len());
        assert(left_t@ =~= t@.take(k as int));
        assert(right_t@ =~= t@.skip(k + 1));
        let l = sub_simple_exec(&left_t, limit);
        let r = sub_simple_exec(&right_t, limit);
        return match (l, r) {
            (Some(l), Some(r)) => Some(mk_node(":", Some(l), Some(r))),
            _ => None,
        };
    }
    let comma_space: [char; 2] = [',', ' '];
    let comma: [char; 1] = [','];
    assert(comma_space@ =~= ", "@);
    assert(comma@ =~= ","@);
    let leaf = replace_all_exec(&t, &comma_space, &comma);
    Some(CrossTabsLogic { value: Some(string_from(leaf.as_slice())), left: None, right: None })
}

pub proof fn lemma_implicit_scan(t: Seq<char>, i: int, depth: int, content: bool)
    requires
        0 <= i,
    ensures
        implicit_scan(t, i, depth, content) matches Some(j) ==> 0 <= j <= t.len(),
    decreases t.len() - i,
{
    if i < t.len() {
        let c = t[i];
        if c == '(' && depth == 0 {
            if !content {
                lemma_implicit_scan(t, i + 1, depth + 1, content);
            } else {
                lemma_trim_end_len(t.take(i));
            }
        } else if c == '(' {
            lemma_implicit_scan(t, i + 1, depth + 1, content);
        } else if c == ')' {
            lemma_implicit_scan(t, i + 1, depth - 1, content);
        } else if depth == 0 && !char_is_whitespace(c) {
            lemma_implicit_scan(t, i + 1, depth, true);
        } else {
            lemma_implicit_scan(t, i + 1, depth, content);
        }
    }
}

pub proof fn lemma_trim_end_len(s: Seq<char>)
    ensures
        trim_end_ws(s).len() <= s.len(),
    decreases s.len(),
{
    if s.len() > 0 && char_is_whitespace(s.last()) {
        lemma_trim_end_len(s.drop_last());
    }
}

} // verus!
