//! Conversion of spec-logic trees to UNCLE qualification syntax.

use vstd::prelude::*;

use crate::crosstabs::logic::{CrossTabsLogic, LogicTree};
use crate::crosstabs::parse::{replace_all, replace_all_exec};
use crate::question_table::{lookup_question, question_table};
use crate::rfl::{QuestionModel, RflQuestion};
use crate::text::{chars_of, extend_chars, nat_str, push_str, string_from, to_uppercase, u128_to_chars, usize_to_chars, uppercase};

verus! {

/// Whether the column arithmetic for a question stays within `usize`.
pub open spec fn gen_ok(m: QuestionModel) -> bool {
    let s = m.start_col as int;
    let w = m.width as int;
    let n = m.max_responses as int;
    if w == 1 {
        n == 1 || (s + n <= usize::MAX && s + n >= 1)
    } else if n == 1 {
        s + w <= usize::MAX && s + w >= 1
    } else {
        n == 0 || (s + n * w <= usize::MAX && s + w >= 1)
    }
}

/// Whether the `MEAN` field range stays within `usize`.
pub open spec fn mean_ok(m: QuestionModel) -> bool {
    m.start_col + m.width <= usize::MAX && m.start_col + m.width >= 1
}

pub open spec fn range_text(rs: int, re: int) -> Seq<char> {
    "1!"@ + nat_str(rs as nat) + ":"@ + nat_str(re as nat)
}

/// `1!s:e` for the slots `i` of `0..n` from `k` on, joined by `/`.
pub open spec fn slot_ranges(s: int, w: int, n: int, k: int) -> Seq<char>
    decreases n - k,
{
    if k < 0 || k >= n {
        Seq::empty()
    } else {
        (if k > 0 { "/"@ } else { Seq::empty() }) + range_text(s + k * w, s + k * w + w - 1) + slot_ranges(s, w, n, k + 1)
    }
}

/// The UNCLE test of a question's columns against `codes`.
#[verifier::opaque]
pub open spec fn gen_text(m: QuestionModel, codes: Seq<char>) -> Seq<char> {
    let s = m.start_col as int;
    let w = m.width as int;
    let n = m.max_responses as int;
    if w == 1 {
        if n == 1 {
            "1!"@ + nat_str(s as nat) + "-"@ + codes
        } else {
            "1!"@ + nat_str(s as nat) + ":"@ + nat_str((s + n - 1) as nat) + "-"@ + codes
        }
    } else if n == 1 {
        "R("@ + range_text(s, s + w - 1) + ","@ + codes + ")"@
    } else if n <= 3 {
        "R("@ + slot_ranges(s, w, n, 0) + ","@ + codes + ")"@
    } else {
        "R("@ + range_text(s, s + w - 1) + "/"@ + range_text(s + w, s + w + w - 1) + "..."@
            + range_text(s + (n - 1) * w, s + (n - 1) * w + w - 1) + ","@ + codes + ")"@
    }
}

/// `format!("{}", v)` for an `i32`.
pub open spec fn int_text(v: i32) -> Seq<char> {
    if v < 0 {
        "-"@ + nat_str((-v) as nat)
    } else {
        nat_str(v as nat)
    }
}

/// The question a comparison refers to: by its name, or by `Q` and its name.
pub open spec fn find_question(tbl: Map<Seq<char>, QuestionModel>, name: Seq<char>) -> Option<QuestionModel> {
    if tbl.contains_key(name) {
        Some(tbl[name])
    } else if tbl.contains_key("Q"@ + name) {
        Some(tbl["Q"@ + name])
    } else {
        None
    }
}

pub open spec fn value_or_empty(v: Option<Seq<char>>) -> Seq<char> {
    match v {
        Some(x) => x,
        None => Seq::empty(),
    }
}

/// A comparison in UNCLE syntax, given the question it refers to (if
/// found); `None` where the column arithmetic overflows.
pub open spec fn comparison_given(found: Option<QuestionModel>, name: Seq<char>, codes: Seq<char>) -> Option<Seq<char>> {
    match found {
        Some(m) => if codes == "MEAN"@ {
            if mean_ok(m) && gen_ok(m) {
                Some("A(1!"@ + nat_str(m.start_col as nat) + ":"@ + nat_str((m.start_col + m.width - 1) as nat)
                    + "), "@ + gen_text(m, int_text(match m.min_value { Some(x) => x, None => 0 }) + ":"@
                    + int_text(match m.max_value { Some(x) => x, None => 99 })))
            } else {
                None
            }
        } else if gen_ok(m) {
            Some(gen_text(m, replace_all(codes, "-"@, ":"@)))
        } else {
            None
        },
        None => Some(name + ":"@ + codes),
    }
}

/// A comparison `QUESTION:codes` in UNCLE syntax; `None` where the column
/// arithmetic overflows.
pub open spec fn comparison_text(l: LogicTree, r: LogicTree, tbl: Map<Seq<char>, QuestionModel>) -> Option<Seq<char>> {
    let name = uppercase(value_or_empty(l.value));
    comparison_given(find_question(tbl, name), name, value_or_empty(r.value))
}

/// Two operand texts joined by `sep`, an empty one dropped.
pub open spec fn join_nonempty(ls: Seq<char>, rs: Seq<char>, sep: Seq<char>) -> Seq<char> {
    if ls.len() == 0 {
        rs
    } else if rs.len() == 0 {
        ls
    } else {
        ls + sep + rs
    }
}

/// The tree in UNCLE syntax; `None` where the column arithmetic overflows.
pub open spec fn uncle_text(t: LogicTree, tbl: Map<Seq<char>, QuestionModel>) -> Option<Seq<char>>
    decreases t,
{
    match t.value {
        None => Some(Seq::empty()),
        Some(v) => if v == ":"@ {
            match (t.left, t.right) {
                (Some(l), Some(r)) => comparison_text(*l, *r, tbl),
                _ => Some(Seq::empty()),
            }
        } else {
            match t.left {
                Some(l) => match uncle_text(*l, tbl) {
                    None => None,
                    Some(ls) => if v == "("@ {
                        Some(if ls.len() == 0 { Seq::empty() } else { "("@ + ls + ")"@ })
                    } else if v != "--"@ && v != "|"@ && v != "&"@ && v.len() == 0 {
                        Some(ls)
                    } else {
                        match t.right {
                            Some(r) => match uncle_text(*r, tbl) {
                                None => None,
                                Some(rs) => Some(if v == "--"@ {
                                    ls + "-"@ + rs
                                } else if v == "|"@ {
                                    join_nonempty(ls, rs, " OR "@)
                                } else if v == "&"@ {
                                    join_nonempty(ls, rs, " "@)
                                } else {
                                    ls + " "@ + v + " "@ + rs
                                }),
                            },
                            None => Some(if v == "--"@ || v == "|"@ || v == "&"@ { ls } else { ls + v }),
                        }
                    },
                },
                None => match t.right {
                    Some(r) => if v == "NOT"@ {
                        match uncle_text(*r, tbl) {
                            Some(rs) => Some("NOT("@ + rs + ")"@),
                            None => None,
                        }
                    } else {
                        Some(Seq::empty())
                    },
                    None => Some(Seq::empty()),
                },
            }
        },
    }
}

fn push_range(out: &mut Vec<char>, rs: usize, re: usize)
    ensures
        final(out)@ == old(out)@ + range_text(rs as int, re as int),
{
    push_str(out, "1!");
    let a = usize_to_chars(rs);
    extend_chars(out, a.as_slice());
    out.push(':');
    let b = usize_to_chars(re);
    extend_chars(out, b.as_slice());
    proof {
        reveal_strlit("1!");
        reveal_strlit(":");
    }
    assert(out@ =~= old(out)@ + range_text(rs as int, re as int));
}

/// The UNCLE test of a question's columns against `codes`.
pub fn generate_uncle_syntax(question: &RflQuestion, codes: &Vec<char>) -> (r: Vec<char>)
    requires
        gen_ok(question.model()),
    ensures
        r@ == gen_text(question.model(), codes@),
{
    reveal(gen_text);
    proof {
        reveal_strlit("1!");
        reveal_strlit("-");
        reveal_strlit(":");
        reveal_strlit("R(");
        reveal_strlit(",");
        reveal_strlit(")");
        reveal_strlit("/");
        reveal_strlit("...");
    }
    let s = question.start_col;
    let w = question.width;
    let n = question.max_responses;
    let mut out: Vec<char> = Vec::new();
    if w == 1 {
        push_str(&mut out, "1!");
        let a = usize_to_chars(s);
        extend_chars(&mut out, a.as_slice());
        if n == 1 {
            out.push('-');
        } else {
            out.push(':');
            let b = usize_to_chars(s + n - 1);
            extend_chars(&mut out, b.as_slice());
            out.push('-');
        }
        extend_chars(&mut out, codes.as_slice());
        assert(out@ =~= gen_text(question.model(), codes@));
        return out;
    }
    push_str(&mut out, "R(");
    if n == 1 {
        push_range(&mut out, s, s + w - 1);
    } else if n <= 3 {
        let ghost base = out@;
        let mut i: usize = 0;
        assert(slot_ranges(s as int, w as int, n as int, 0) == slot_ranges(s as int, w as int, n as int, 0));
        while i < n
            invariant
                i <= n <= 3,
                n != 1,
                w != 1,
                s == question.start_col,
                w == question.width,
                n == question.max_responses,
                gen_ok(question.model()),
                out@ + slot_ranges(s as int, w as int, n as int, i as int) == base + slot_ranges(s as int, w as int, n as int, 0),
            decreases n - i,
        {
            assert(i * w + w <= n * w) by (nonlinear_arith)
                requires
                    i < n;
            assert(s + n * w <= usize::MAX);
            let rs = s + i * w;
            proof {
                reveal_strlit("/");
            }
            let ghost o = out@;
            assert(slot_ranges(s as int, w as int, n as int, i as int) == (if i > 0 { "/"@ } else { Seq::empty() })
                + range_text(s + i * w, s + i * w + w - 1) + slot_ranges(s as int, w as int, n as int, i + 1));
            if i > 0 {
                out.push('/');
            }
            push_range(&mut out, rs, rs + w - 1);
            assert(rs as int == s + i * w);
            assert(out@ + slot_ranges(s as int, w as int, n as int, i + 1) =~= o + slot_ranges(s as int, w as int, n as int, i as int));
            i = i + 1;
        }
        assert(slot_ranges(s as int, w as int, n as int, n as int) =~= Seq::<char>::empty());
    } else {
        assert(s + 1 * w <= s + n * w) by (nonlinear_arith)
            requires
                n > 3;
        assert(2 * w <= n * w && (n - 1) * w + w == n * w) by (nonlinear_arith)
            requires
                n > 3;
        push_range(&mut out, s, s + w - 1);
        out.push('/');
        push_range(&mut out, s + w, s + w + w - 1);
        push_str(&mut out, "...");
        let last = s + (n - 1) * w;
        push_range(&mut out, last, last + w - 1);
    }
    out.push(',');
    extend_chars(&mut out, codes.as_slice());
    out.push(')');
    assert(out@ =~= gen_text(question.model(), codes@));
    out
}

fn push_i32(out: &mut Vec<char>, v: i32)
    ensures
        final(out)@ == old(out)@ + int_text(v),
{
    if v < 0 {
        out.push('-');
        let m = (0 - (v as i64)) as u128;
        let d = u128_to_chars(m);
        extend_chars(out, d.as_slice());
        proof {
            reveal_strlit("-");
        }
        assert(out@ =~= old(out)@ + int_text(v));
    } else {
        let d = u128_to_chars(v as u128);
        extend_chars(out, d.as_slice());
    }
}

fn eq_chars(a: &Vec<char>, lit: &str) -> (r: bool)
    ensures
        r == (a@ == lit@),
{
    let b = chars_of(lit);
    if a.len() != b.len() {
        return false;
    }
    let mut i: usize = 0;
    while i < a.len()
        invariant
            i <= a.len() == b.len(),
            b@ == lit@,
            forall|j: int| 0 <= j < i ==> a@[j] == b@[j],
        decreases a.len() - i,
    {
        if a[i] != b[i] {
            assert(a@[i as int] != b@[i as int]);
            return false;
        }
        i = i + 1;
    }
    assert(a@ =~= b@);
    true
}

fn value_chars(v: &Option<String>) -> (r: Vec<char>)
    ensures
        r@ == value_or_empty(match v { Some(x) => Some(x@), None => None }),
{
    match v {
        Some(x) => chars_of(x.as_str()),
        None => Vec::new(),
    }
}

/// The question a comparison refers to: by its name, or by `Q` and its name.
fn find_question_exec<'a>(questions: &'a ahash::AHashMap<String, RflQuestion>, name: &String) -> (r: Option<&'a RflQuestion>)
    ensures
        match find_question(question_table(*questions), name@) {
            Some(m) => r matches Some(q) && q.model() == m,
            None => r is None,
        },
{
    proof {
        reveal_strlit("Q");
    }
    match lookup_question(questions, name.as_str()) {
        Some(q) => Some(q),
        None => {
            let mut qn: Vec<char> = Vec::new();
            qn.push('Q');
            let nc = chars_of(name.as_str());
            extend_chars(&mut qn, nc.as_slice());
            assert(qn@ =~= "Q"@ + name@);
            let qs = string_from(qn.as_slice());
            lookup_question(questions, qs.as_str())
        },
    }
}

/// The `MEAN` form: the field range and the question's value range.
fn mean_exec(q: &RflQuestion) -> (r: Option<Vec<char>>)
    ensures
        match comparison_given(Some(q.model()), Seq::empty(), "MEAN"@) {
            Some(x) => r matches Some(y) && y@ == x,
            None => r is None,
        },
{
    proof {
        reveal_strlit("MEAN");
        reveal_strlit("A(1!");
        reveal_strlit(":");
        reveal_strlit("), ");
    }
    if !(q.start_col <= usize::MAX - q.width && q.start_col + q.width >= 1) {
        return None;
    }
    if !gen_ok_exec(q) {
        return None;
    }
    let mut out: Vec<char> = Vec::new();
    push_str(&mut out, "A(1!");
    let a = usize_to_chars(q.start_col);
    extend_chars(&mut out, a.as_slice());
    out.push(':');
    let b = usize_to_chars(q.start_col + q.width - 1);
    extend_chars(&mut out, b.as_slice());
    push_str(&mut out, "), ");
    let mut punches: Vec<char> = Vec::new();
    push_i32(&mut punches, match q.min_value { Some(x) => x, None => 0 });
    punches.push(':');
    push_i32(&mut punches, match q.max_value { Some(x) => x, None => 99 });
    assert(punches@ =~= int_text(match q.model().min_value { Some(x) => x, None => 0 }) + ":"@
        + int_text(match q.model().max_value { Some(x) => x, None => 99 }));
    let g = generate_uncle_syntax(q, &punches);
    extend_chars(&mut out, g.as_slice());
    assert(out@ =~= "A(1!"@ + nat_str(q.start_col as nat) + ":"@ + nat_str((q.start_col + q.width - 1) as nat)
        + "), "@ + gen_text(q.model(), punches@));
    Some(out)
}

/// A comparison in UNCLE syntax, given the question it refers to.
fn comparison_exec(found: Option<&RflQuestion>, name: &Vec<char>, codes: &Vec<char>) -> (r: Option<Vec<char>>)
    ensures
        match comparison_given(match found { Some(q) => Some(q.model()), None => None }, name@, codes@) {
            Some(x) => r matches Some(y) && y@ == x,
            None => r is None,
        },
{
    proof {
        reveal_strlit("MEAN");
        reveal_strlit("A(1!");
        reveal_strlit(":");
        reveal_strlit("), ");
        reveal_strlit("-");
    }
    match found {
        Some(q) => {
            if eq_chars(codes, "MEAN") {
                mean_exec(q)
            } else {
                if !gen_ok_exec(q) {
                    return None;
                }
                let dash: [char; 1] = ['-'];
                let colon: [char; 1] = [':'];
                assert(dash@ =~= "-"@);
                assert(colon@ =~= ":"@);
                let punches = replace_all_exec(codes, &dash, &colon);
                Some(generate_uncle_syntax(q, &punches))
            }
        },
        None => {
            let mut out: Vec<char> = Vec::new();
            extend_chars(&mut out, name.as_slice());
            out.push(':');
            extend_chars(&mut out, codes.as_slice());
            assert(out@ =~= name@ + ":"@ + codes@);
            Some(out)
        },
    }
}

impl CrossTabsLogic {
    /// A comparison node in UNCLE syntax; `None` where the column
    /// arithmetic overflows.
    fn handle_comparison(&self, questions: &ahash::AHashMap<String, RflQuestion>) -> (r: Option<Vec<char>>)
        ensures
            match (self.tree().left, self.tree().right) {
                (Some(l), Some(rt)) => match comparison_text(*l, *rt, question_table(*questions)) {
                    Some(x) => r matches Some(y) && y@ == x,
                    None => r is None,
                },
                _ => r matches Some(y) && y@ == Seq::<char>::empty(),
            },
    {
        let (left, right) = match (&self.left, &self.right) {
            (Some(l), Some(r)) => (l, r),
            _ => {
                return Some(Vec::new());
            },
        };
        let lv = value_chars(&left.value);
        let ls = string_from(lv.as_slice());
        let name = to_uppercase(ls.as_str());
        let codes = value_chars(&right.value);
        let found = find_question_exec(questions, &name);
        let nv = chars_of(name.as_str());
        let ghost lt = left.tree();
        let ghost rt = right.tree();
        assert(self.tree().left == Some(Box::new(lt)));
        assert(self.tree().right == Some(Box::new(rt)));
        assert(nv@ == uppercase(value_or_empty(lt.value)));
        assert(codes@ == value_or_empty(rt.value));
        comparison_exec(found, &nv, &codes)
    }
}

/// Whether the column arithmetic for `q` stays within `usize`.
fn gen_ok_exec(q: &RflQuestion) -> (r: bool)
    ensures
        r == gen_ok(q.model()),
{
    let s = q.start_col;
    let w = q.width;
    let n = q.max_responses;
    if w == 1 {
        n == 1 || (s <= usize::MAX - n && s + n >= 1)
    } else if n == 1 {
        s <= usize::MAX - w && s + w >= 1
    } else {
        if n == 0 {
            return true;
        }
        assert(n * w >= w) by (nonlinear_arith)
            requires
                n >= 1;
        if s > usize::MAX - w || s + w < 1 {
            return false;
        }
        match n.checked_mul(w) {
            Some(nw) => s <= usize::MAX - nw,
            None => false,
        }
    }
}

fn join_nonempty_exec(ls: Vec<char>, rs: Vec<char>, sep: &str) -> (r: Vec<char>)
    ensures
        r@ == join_nonempty(ls@, rs@, sep@),
{
    if ls.len() == 0 {
        rs
    } else if rs.len() == 0 {
        ls
    } else {
        let mut out = ls;
        push_str(&mut out, sep);
        extend_chars(&mut out, rs.as_slice());
        out
    }
}

impl CrossTabsLogic {
    /// An operator node in UNCLE syntax; `None` where the column arithmetic
    /// of a comparison below overflows.
    fn handle_operators(&self, questions: &ahash::AHashMap<String, RflQuestion>) -> (r: Option<Vec<char>>)
        requires
            self.value is Some,
            self.value->0@ != ":"@,
        ensures
            match uncle_text(self.tree(), question_table(*questions)) {
                Some(x) => r matches Some(y) && y@ == x,
                None => r is None,
            },
        decreases self, 0int,
    {
        proof {
            reveal_strlit(":");
            reveal_strlit("(");
            reveal_strlit(")");
            reveal_strlit("--");
            reveal_strlit("|");
            reveal_strlit("&");
            reveal_strlit("-");
            reveal_strlit(" OR ");
            reveal_strlit(" ");
            reveal_strlit("NOT");
            reveal_strlit("NOT(");
        }
        let v = match &self.value {
            Some(v) => chars_of(v.as_str()),
            None => Vec::new(),
        };
        match &self.left {
            Some(l) => {
                let ls = match l.try_to_uncle_chars(questions) {
                    Some(x) => x,
                    None => {
                        return None;
                    },
                };
                if eq_chars(&v, "(") {
                    if ls.len() == 0 {
                        return Some(Vec::new());
                    }
                    let mut out: Vec<char> = Vec::new();
                    out.push('(');
                    extend_chars(&mut out, ls.as_slice());
                    out.push(')');
                    return Some(out);
                }
                let special = eq_chars(&v, "--") || eq_chars(&v, "|") || eq_chars(&v, "&");
                if !special && v.len() == 0 {
                    return Some(ls);
                }
                match &self.right {
                    Some(r) => {
                        let rs = match r.try_to_uncle_chars(questions) {
                            Some(x) => x,
                            None => {
                                return None;
                            },
                        };
                        if eq_chars(&v, "--") {
                            let mut out = ls;
                            out.push('-');
                            extend_chars(&mut out, rs.as_slice());
                            Some(out)
                        } else if eq_chars(&v, "|") {
                            Some(join_nonempty_exec(ls, rs, " OR "))
                        } else if eq_chars(&v, "&") {
                            Some(join_nonempty_exec(ls, rs, " "))
                        } else {
                            let mut out = ls;
                            out.push(' ');
                            extend_chars(&mut out, v.as_slice());
                            out.push(' ');
                            extend_chars(&mut out, rs.as_slice());
                            Some(out)
                        }
                    },
                    None => {
                        if special {
                            Some(ls)
                        } else {
                            let mut out = ls;
                            extend_chars(&mut out, v.as_slice());
                            Some(out)
                        }
                    },
                }
            },
            None => match &self.right {
                Some(r) => {
                    if eq_chars(&v, "NOT") {
                        let rs = match r.try_to_uncle_chars(questions) {
                            Some(x) => x,
                            None => {
                                return None;
                            },
                        };
                        let mut out: Vec<char> = Vec::new();
                        push_str(&mut out, "NOT(");
                        extend_chars(&mut out, rs.as_slice());
                        out.push(')');
                        Some(out)
                    } else {
                        Some(Vec::new())
                    }
                },
                None => Some(Vec::new()),
            },
        }
    }

    fn try_to_uncle_chars(&self, questions: &ahash::AHashMap<String, RflQuestion>) -> (r: Option<Vec<char>>)
        ensures
            match uncle_text(self.tree(), question_table(*questions)) {
                Some(x) => r matches Some(y) && y@ == x,
                None => r is None,
            },
        decreases self, 1int,
    {
        proof {
            reveal_strlit(":");
        }
        match &self.value {
            None => Some(Vec::new()),
            Some(v) => {
                let vc = chars_of(v.as_str());
                if eq_chars(&vc, ":") {
                    self.handle_comparison(questions)
                } else {
                    self.handle_operators(questions)
                }
            },
        }
    }

    /// The tree in UNCLE syntax, or `None` where the column arithmetic for
    /// a question it names overflows.
    pub fn try_to_uncle_syntax(&self, questions: &ahash::AHashMap<String, RflQuestion>) -> (r: Option<String>)
        ensures
            match uncle_text(self.tree(), question_table(*questions)) {
                Some(x) => r matches Some(y) && y@ == x,
                None => r is None,
            },
    {
        match self.try_to_uncle_chars(questions) {
            Some(v) => Some(string_from(v.as_slice())),
            None => None,
        }
    }

    /// The tree in UNCLE syntax: comparisons become column tests of the
    /// questions they name (by label, or by `Q` and the label), unknown
    /// questions are kept as `NAME:codes`.
    pub fn to_uncle_syntax(&self, questions: &ahash::AHashMap<String, RflQuestion>) -> (r: String)
        requires
            uncle_text(self.tree(), question_table(*questions)) is Some,
        ensures
            r@ == uncle_text(self.tree(), question_table(*questions))->0,
    {
        self.try_to_uncle_syntax(questions).unwrap()
    }
}

} // verus!
