//! Rewriting of crosstab spec text before parsing: slash lists,
//! `DO NOT SELECT` phrases, and `(...):codes`.

use vstd::prelude::*;

use crate::crosstabs::logic::{CrossTabsError, CrossTabsLogic, LogicTree};
use crate::crosstabs::parse::{law_ascii_spec_logic_parses, opt_tree, parse_simple, replace_all, replace_all_exec, simple};

use crate::regex_calls::{
    groups_view, is_part_of, matches_view, regex_all_captures, regex_captures, regex_captures_all, regex_compiles,
    regex_first_captures,
};
use crate::text::{
    all_ascii, chars_of, extend_chars, find_char, find_char_exec, find_seq, find_seq_exec, lemma_find_char_from,
    lemma_find_seq_from, occurs_at, split_char, string_from, sub_chars, trim_chars, trim_ws,
};
use crate::rfl::{chars_view, split_on};

verus! {

// ---------------------------------------------------------------------------
// DO NOT SELECT
// ---------------------------------------------------------------------------

/// `QUESTION: DO NOT SELECT :code`.
pub const DO_NOT_SELECT: &'static str = "(\\w+):\\s*DO NOT SELECT\\s*:([0-9]+)";

/// A further ` OR :code`.
pub const OR_CODE: &'static str = "\\s+OR\\s*:([0-9]+)";

pub open spec fn group(g: Seq<Option<Seq<char>>>, i: int) -> Option<Seq<char>> {
    if 0 <= i < g.len() {
        g[i]
    } else {
        None
    }
}

/// Group 1 of every match, or `None` when one lacks it.
pub open spec fn all_group1(ms: Seq<Seq<Option<Seq<char>>>>) -> Option<Seq<Seq<char>>>
    decreases ms.len(),
{
    if ms.len() == 0 {
        Some(Seq::empty())
    } else {
        match group(ms[0], 1) {
            None => None,
            Some(c) => match all_group1(ms.drop_first()) {
                Some(r) => Some(seq![c] + r),
                None => None,
            },
        }
    }
}

/// `parts` joined by `sep`.
pub open spec fn join(parts: Seq<Seq<char>>, sep: Seq<char>) -> Seq<char>
    decreases parts.len(),
{
    if parts.len() == 0 {
        Seq::empty()
    } else if parts.len() == 1 {
        parts[0]
    } else {
        join(parts.drop_last(), sep) + sep + parts.last()
    }
}

/// `Q5: DO NOT SELECT :1 OR :3` written as `NOT(Q5:1,3)`.
pub open spec fn do_not_select(logic: Seq<char>) -> Option<Seq<char>> {
    if !regex_compiles(DO_NOT_SELECT@) {
        None
    } else {
        match regex_first_captures(DO_NOT_SELECT@, logic) {
            None => None,
            Some(g) => match (group(g, 1), group(g, 2)) {
                (Some(q), Some(c0)) => if !regex_compiles(OR_CODE@) {
                    None
                } else {
                    match all_group1(regex_all_captures(OR_CODE@, logic)) {
                        Some(cs) => Some("NOT("@ + q + ":"@ + join(seq![c0] + cs, ","@) + ")"@),
                        None => None,
                    }
                },
                _ => None,
            },
        }
    }
}

/// `parts` joined by `sep`.
pub fn join_exec(parts: &Vec<Vec<char>>, sep: &[char]) -> (r: Vec<char>)
    ensures
        r@ == join(chars_view(parts@), sep@),
{
    let mut out: Vec<char> = Vec::new();
    let mut i: usize = 0;
    let ghost pv = chars_view(parts@);
    assert(pv.take(0) =~= Seq::<Seq<char>>::empty());
    while i < parts.len()
        invariant
            i <= parts.len(),
            pv == chars_view(parts@),
            out@ == join(pv.take(i as int), sep@),
        decreases parts.len() - i,
    {
        assert(pv.take(i + 1).drop_last() =~= pv.take(i as int));
        assert(pv.take(i + 1).last() == parts@[i as int]@);
        if i > 0 {
            extend_chars(&mut out, sep);
        }
        extend_chars(&mut out, parts[i].as_slice());
        i = i + 1;
        proof {
            if i == 1 {
                assert(out@ =~= join(pv.take(i as int), sep@));
            }
        }
    }
    assert(pv.take(parts.len() as int) =~= pv);
    out
}

impl CrossTabsLogic {
    /// `Q5: DO NOT SELECT :1 OR :3` written as `NOT(Q5:1,3)`; `None` when the
    /// phrase is not there.
    pub fn convert_do_not_select(logic: &str) -> (r: Option<String>)
        ensures
            match do_not_select(logic@) {
                Some(s) => r matches Some(x) && x@ == s,
                None => r is None,
            },
            all_ascii(logic@) && r is Some ==> all_ascii(r->0@),
    {
        let caps = match regex_captures(DO_NOT_SELECT, logic) {
            Some(c) => c,
            None => {
                return None;
            },
        };
        let g = match caps {
            Some(g) => g,
            None => {
                return None;
            },
        };
        let ghost gv = groups_view(g@);
        assert(gv.len() == g.len());
        if g.len() <= 1 {
            return None;
        }
        assert(gv[1] == match g@[1] { Some(s) => Some(s@), None => None });
        proof {
            if all_ascii(logic@) && g@[1] is Some {
                lemma_part_ascii(g@[1]->0@, logic@);
            }
        }
        let question = match &g[1] {
            Some(q) => chars_of(q.as_str()),
            None => {
                return None;
            },
        };
        if g.len() <= 2 {
            return None;
        }
        assert(gv[2] == match g@[2] { Some(s) => Some(s@), None => None });
        proof {
            if all_ascii(logic@) && g@[2] is Some {
                lemma_part_ascii(g@[2]->0@, logic@);
            }
        }
        let first = match &g[2] {
            Some(c) => chars_of(c.as_str()),
            None => {
                return None;
            },
        };
        let all = match regex_captures_all(OR_CODE, logic) {
            Some(a) => a,
            None => {
                return None;
            },
        };
        let ghost av = matches_view(all@);
        assert(group(gv, 1) == Some(question@));
        let mut codes: Vec<Vec<char>> = Vec::new();
        codes.push(first);
        let mut i: usize = 0;
        assert(av.skip(0) =~= av);
        while i < all.len()
            invariant
                i <= all.len(),
                av == matches_view(all@),
                regex_compiles(DO_NOT_SELECT@),
                regex_first_captures(DO_NOT_SELECT@, logic@) == Some(gv),
                group(gv, 1) == Some(question@),
                group(gv, 2) is Some,
                regex_compiles(OR_CODE@),
                regex_all_captures(OR_CODE@, logic@) == av,
                codes.len() >= 1,
                codes@[0]@ == group(gv, 2)->0,
                all_ascii(logic@) ==> all_ascii(question@),
                all_ascii(logic@) ==> forall|k: int| 0 <= k < codes.len() ==> all_ascii(#[trigger] codes@[k]@),
                forall|mm: int, kk: int|
                    0 <= mm < all.len() && 0 <= kk < all@[mm].len() && (#[trigger] all@[mm]@[kk]) is Some
                        ==> is_part_of(all@[mm]@[kk]->0@, logic@),
                all_group1(av) == match all_group1(av.skip(i as int)) {
                    Some(r) => Some(chars_view(codes@).skip(1) + r),
                    None => None::<Seq<Seq<char>>>,
                },
            decreases all.len() - i,
        {
            let m = &all[i];
            let ghost mv = groups_view(m@);
            assert(av.skip(i as int)[0] == mv);
            assert(av.skip(i as int).drop_first() =~= av.skip(i + 1));
            if m.len() <= 1 {
                return None;
            }
            assert(mv[1] == match m@[1] { Some(s) => Some(s@), None => None });
            proof {
                if all_ascii(logic@) && m@[1] is Some {
                    assert(all@[i as int]@[1] == m@[1]);
                    lemma_part_ascii(m@[1]->0@, logic@);
                }
            }
            let c = match &m[1] {
                Some(c) => chars_of(c.as_str()),
                None => {
                    return None;
                },
            };
            let ghost before = codes@;
            codes.push(c);
            assert(chars_view(codes@).skip(1) =~= chars_view(before).skip(1) + seq![c@]);
            i = i + 1;
            proof {
                match all_group1(av.skip(i as int)) {
                    Some(r) => {
                        assert(chars_view(codes@).skip(1) + r =~= chars_view(before).skip(1) + (seq![c@] + r));
                    },
                    None => {},
                }
            }
        }
        assert(av.skip(all.len() as int) =~= Seq::<Seq<Option<Seq<char>>>>::empty());
        assert(chars_view(codes@) =~= seq![codes@[0]@] + chars_view(codes@).skip(1));
        let mut out: Vec<char> = Vec::new();
        let not_open: [char; 4] = ['N', 'O', 'T', '('];
        extend_chars(&mut out, &not_open);
        extend_chars(&mut out, question.as_slice());
        out.push(':');
        let comma: [char; 1] = [','];
        let joined = join_exec(&codes, &comma);
        extend_chars(&mut out, joined.as_slice());
        out.push(')');
        proof {
            reveal_strlit("NOT(");
            reveal_strlit(":");
            reveal_strlit(",");
            reveal_strlit(")");
            assert(comma@ =~= ","@);
            assert(out@ =~= "NOT("@ + question@ + ":"@ + join(chars_view(codes@), ","@) + ")"@);
            if all_ascii(logic@) {
                assert forall|k: int| 0 <= k < chars_view(codes@).len() implies all_ascii(
                    #[trigger] chars_view(codes@)[k],
                ) by {
                    assert(chars_view(codes@)[k] == codes@[k]@);
                }
                lemma_join_ascii(chars_view(codes@), ","@);
                assert(all_ascii("NOT("@));
                assert(all_ascii(":"@));
                assert(all_ascii(")"@));
                lemma_ascii_concat("NOT("@, question@);
                lemma_ascii_concat("NOT("@ + question@, ":"@);
                lemma_ascii_concat("NOT("@ + question@ + ":"@, join(chars_view(codes@), ","@));
                lemma_ascii_concat("NOT("@ + question@ + ":"@ + join(chars_view(codes@), ","@), ")"@);
            }
        }
        Some(string_from(out.as_slice()))
    }
}

// ---------------------------------------------------------------------------
// Slash lists
// ---------------------------------------------------------------------------

/// `str::split` on a string pattern.
pub open spec fn split_seq(s: Seq<char>, pat: Seq<char>) -> Seq<Seq<char>>
    decreases s.len(),
{
    if pat.len() == 0 {
        seq![s]
    } else {
        match find_seq(s, pat) {
            Some(k) => if 0 <= k && k + pat.len() <= s.len() {
                seq![s.take(k)] + split_seq(s.skip(k + pat.len()), pat)
            } else {
                seq![s]
            },
            None => seq![s],
        }
    }
}

/// Whether some part has a code (a `:`) and no space.
pub open spec fn any_code_term(parts: Seq<Seq<char>>) -> bool {
    exists|i: int| 0 <= i < parts.len() && find_char(#[trigger] parts[i], ' ') is None && find_char(parts[i], ':') is Some
}

/// The codes (from the `:` on) of the first part that has them.
pub open spec fn first_codes(parts: Seq<Seq<char>>) -> Option<Seq<char>>
    decreases parts.len(),
{
    if parts.len() == 0 {
        None
    } else {
        match find_char(parts[0], ':') {
            Some(i) => Some(parts[0].skip(i)),
            None => first_codes(parts.drop_first()),
        }
    }
}

/// Every part trimmed, the codes appended to the parts without them.
pub open spec fn propagate(parts: Seq<Seq<char>>, codes: Seq<char>) -> Seq<Seq<char>> {
    parts.map_values(|p: Seq<char>| if find_char(p, ':') is Some { trim_ws(p) } else { trim_ws(p) + codes })
}

/// `QX2/Q17:1` written as `QX2:1 OR Q17:1`; slashes between words without
/// codes become plain `OR`s.
pub open spec fn slash_step(logic: Seq<char>) -> Seq<char> {
    if find_char(logic, '/') is None {
        logic
    } else {
        let have = any_code_term(split_char(logic, '/'));
        let l2 = replace_all(replace_all(logic, "/("@, ":("@), "/"@, " OR "@);
        if have {
            let parts = split_seq(l2, " OR "@);
            match first_codes(parts) {
                Some(c) => join(propagate(parts, c), " OR "@),
                None => l2,
            }
        } else {
            l2
        }
    }
}

/// `str::split` on a string pattern.
pub fn split_seq_exec(v: &Vec<char>, pat: &[char]) -> (r: Vec<Vec<char>>)
    ensures
        chars_view(r@) == split_seq(v@, pat@),
{
    let mut out: Vec<Vec<char>> = Vec::new();
    if pat.len() == 0 {
        out.push(sub_chars(v, 0, v.len()));
        assert(v@.subrange(0, v@.len() as int) =~= v@);
        assert(chars_view(out@) =~= seq![v@]);
        return out;
    }
    let mut rest = sub_chars(v, 0, v.len());
    assert(rest@ =~= v@);
    assert(chars_view(out@) =~= Seq::<Seq<char>>::empty());
    loop
        invariant
            pat@.len() > 0,
            chars_view(out@) + split_seq(rest@, pat@) == split_seq(v@, pat@),
        decreases rest.len(),
    {
        let ghost before = out@;
        match find_seq_exec(&rest, pat) {
            Some(k) => {
                proof {
                    lemma_find_seq_from(rest@, pat@, 0);
                }
                assert(occurs_at(rest@, pat@, k as int));
                let piece = sub_chars(&rest, 0, k);
                let next = sub_chars(&rest, k + pat.len(), rest.len());
                assert(piece@ =~= rest@.take(k as int));
                assert(next@ =~= rest@.skip(k + pat@.len()));
                let ghost pv = piece@;
                out.push(piece);
                assert(chars_view(out@) =~= chars_view(before).push(pv));
                assert(chars_view(out@) + split_seq(next@, pat@) =~= chars_view(before) + (seq![pv] + split_seq(next@, pat@)));
                rest = next;
            },
            None => {
                let ghost rv = rest@;
                out.push(rest);
                assert(chars_view(out@) =~= chars_view(before).push(rv));
                assert(chars_view(out@) =~= chars_view(before) + seq![rv]);
                return out;
            },
        }
    }
}

fn has_char(v: &Vec<char>, c: char) -> (r: bool)
    ensures
        r == (find_char(v@, c) is Some),
{
    find_char_exec(v, c).is_some()
}

/// `QX2/Q17:1` written as `QX2:1 OR Q17:1`.
pub fn rewrite_slashes(logic: &Vec<char>) -> (r: Vec<char>)
    ensures
        r@ == slash_step(logic@),
{
    if !has_char(logic, '/') {
        return sub_chars(logic, 0, logic.len());
    }
    let pieces = split_on(logic, '/');
    let ghost pv = chars_view(pieces@);
    let mut have = false;
    let mut i: usize = 0;
    while i < pieces.len()
        invariant
            i <= pieces.len(),
            pv == chars_view(pieces@),
            have <==> exists|j: int| 0 <= j < i && find_char(#[trigger] pv[j], ' ') is None && find_char(pv[j], ':') is Some,
        decreases pieces.len() - i,
    {
        assert(pv[i as int] == pieces@[i as int]@);
        if !has_char(&pieces[i], ' ') && has_char(&pieces[i], ':') {
            have = true;
        }
        i = i + 1;
    }
    proof {
        reveal_strlit("/(");
        reveal_strlit(":(");
        reveal_strlit("/");
        reveal_strlit(" OR ");
    }
    let slash_paren: [char; 2] = ['/', '('];
    let colon_paren: [char; 2] = [':', '('];
    let slash: [char; 1] = ['/'];
    let or: [char; 4] = [' ', 'O', 'R', ' '];
    assert(slash_paren@ =~= "/("@);
    assert(colon_paren@ =~= ":("@);
    assert(slash@ =~= "/"@);
    assert(or@ =~= " OR "@);
    let l1 = replace_all_exec(logic, &slash_paren, &colon_paren);
    let l2 = replace_all_exec(&l1, &slash, &or);
    if !have {
        return l2;
    }
    let parts = split_seq_exec(&l2, &or);
    let ghost qv = chars_view(parts@);
    let mut k: usize = 0;
    let mut codes: Option<Vec<char>> = None;
    assert(qv.skip(0) =~= qv);
    while k < parts.len() && codes.is_none()
        invariant
            k <= parts.len(),
            qv == chars_view(parts@),
            codes is None ==> first_codes(qv.skip(k as int)) == first_codes(qv),
            codes matches Some(c) ==> first_codes(qv) == Some(c@),
        decreases parts.len() - k,
    {
        assert(qv.skip(k as int)[0] == parts@[k as int]@);
        assert(qv.skip(k as int).drop_first() =~= qv.skip(k + 1));
        match find_char_exec(&parts[k], ':') {
            Some(p) => {
                proof {
                    lemma_find_char_from(parts@[k as int]@, ':', 0);
                }
                let c = sub_chars(&parts[k], p, parts[k].len());
                assert(c@ =~= parts@[k as int]@.skip(p as int));
                codes = Some(c);
            },
            None => {},
        }
        k = k + 1;
    }
    let codes = match codes {
        Some(c) => c,
        None => {
            assert(qv.skip(parts.len() as int) =~= Seq::<Seq<char>>::empty());
            return l2;
        },
    };
    let mut out_parts: Vec<Vec<char>> = Vec::new();
    let mut j: usize = 0;
    while j < parts.len()
        invariant
            j <= parts.len(),
            qv == chars_view(parts@),
            chars_view(out_parts@) == propagate(qv, codes@).take(j as int),
        decreases parts.len() - j,
    {
        let t = trim_chars(&parts[j]);
        let piece = if has_char(&parts[j], ':') {
            t
        } else {
            let mut x = t;
            extend_chars(&mut x, codes.as_slice());
            x
        };
        let ghost before = out_parts@;
        assert(propagate(qv, codes@)[j as int] == piece@);
        out_parts.push(piece);
        assert(chars_view(out_parts@) =~= chars_view(before).push(piece@));
        assert(propagate(qv, codes@).take(j + 1) =~= propagate(qv, codes@).take(j as int).push(piece@));
        j = j + 1;
    }
    assert(propagate(qv, codes@).take(parts.len() as int) =~= propagate(qv, codes@));
    join_exec(&out_parts, &or)
}

// ---------------------------------------------------------------------------
// `(...):codes`
// ---------------------------------------------------------------------------

pub open spec fn count_char(s: Seq<char>, c: char) -> nat
    decreases s.len(),
{
    if s.len() == 0 {
        0
    } else {
        (if s[0] == c { 1nat } else { 0nat }) + count_char(s.drop_first(), c)
    }
}

/// For each `)`, the number of `:` after it, summed: moving a `)` past a
/// `:` lowers it.
pub open spec fn paren_colon_measure(s: Seq<char>) -> nat
    decreases s.len(),
{
    if s.len() == 0 {
        0
    } else {
        (if s[0] == ')' { count_char(s.drop_first(), ':') } else { 0nat }) + paren_colon_measure(s.drop_first())
    }
}

pub proof fn lemma_count_concat(a: Seq<char>, b: Seq<char>, c: char)
    ensures
        count_char(a + b, c) == count_char(a, c) + count_char(b, c),
    decreases a.len(),
{
    if a.len() == 0 {
        assert(a + b =~= b);
    } else {
        assert((a + b).drop_first() =~= a.drop_first() + b);
        lemma_count_concat(a.drop_first(), b, c);
    }
}

pub proof fn lemma_measure_concat(a: Seq<char>, b: Seq<char>)
    ensures
        paren_colon_measure(a + b) == paren_colon_measure(a) + count_char(a, ')') * count_char(b, ':')
            + paren_colon_measure(b),
    decreases a.len(),
{
    if a.len() == 0 {
        assert(a + b =~= b);
        assert(count_char(a, ')') == 0);
        assert(paren_colon_measure(a) == 0);
    } else {
        let a1 = a.drop_first();
        assert((a + b).drop_first() =~= a1 + b);
        assert((a + b)[0] == a[0]);
        lemma_measure_concat(a1, b);
        lemma_count_concat(a1, b, ':');
        let p = count_char(a1, ')') as int;
        let cb = count_char(b, ':') as int;
        let x: int = if a[0] == ')' { 1 } else { 0 };
        assert(count_char(a, ')') == x + p);
        assert((x + p) * cb == x * cb + p * cb) by (nonlinear_arith);
        assert(x * cb == (if a[0] == ')' { cb } else { 0 })) by (nonlinear_arith)
            requires
                x == (if a[0] == ')' { 1int } else { 0int }),
        ;
        assert(paren_colon_measure(a + b) == (if a[0] == ')' { count_char(a1 + b, ':') as int } else { 0int })
            + paren_colon_measure(a1 + b));
        assert(paren_colon_measure(a) == (if a[0] == ')' { count_char(a1, ':') as int } else { 0int })
            + paren_colon_measure(a1));
    }
}

/// The position of the first `' '`, `')'` or `'('` in `s`, or its length.
pub open spec fn codes_end(s: Seq<char>, i: int) -> int
    decreases s.len() - i,
{
    if i < 0 || i >= s.len() {
        if i < 0 { 0 } else { i }
    } else if s[i] == ' ' || s[i] == ')' || s[i] == '(' {
        i
    } else {
        codes_end(s, i + 1)
    }
}

/// One rewrite: the `)` of the first `):` moves to after the codes that
/// follow the `:`.
pub open spec fn close_colon_step(s: Seq<char>, pos: int) -> Seq<char> {
    let s1 = s.take(pos) + s.skip(pos + 1);
    let ce = codes_end(s1, pos + 1);
    s1.take(ce) + seq![')'] + s1.skip(ce)
}

/// All `(...):codes` written as `(...:codes)`.
pub open spec fn fix_close_colon(s: Seq<char>) -> Seq<char>
    decreases paren_colon_measure(s),
{
    match find_seq(s, "):"@) {
        Some(pos) => {
            let s2 = close_colon_step(s, pos);
            if paren_colon_measure(s2) < paren_colon_measure(s) {
                fix_close_colon(s2)
            } else {
                s
            }
        },
        None => s,
    }
}

pub proof fn lemma_codes_end(s: Seq<char>, i: int)
    requires
        0 <= i <= s.len(),
    ensures
        i <= codes_end(s, i) <= s.len(),
    decreases s.len() - i,
{
    if i < s.len() && !(s[i] == ' ' || s[i] == ')' || s[i] == '(') {
        lemma_codes_end(s, i + 1);
    }
}

/// A rewrite step lowers the measure.
pub proof fn lemma_close_colon_step(s: Seq<char>, pos: int)
    requires
        occurs_at(s, "):"@, pos),
    ensures
        paren_colon_measure(close_colon_step(s, pos)) < paren_colon_measure(s),
        close_colon_step(s, pos).len() == s.len(),
{
    reveal_strlit("):");
    assert(s.subrange(pos, pos + 2) == "):"@);
    assert(s[pos] == s.subrange(pos, pos + 2)[0]);
    assert(s[pos + 1] == s.subrange(pos, pos + 2)[1]);
    assert(s[pos] == ')' && s[pos + 1] == ':');
    let a = s.take(pos);
    let x = s.skip(pos + 1);
    let s1 = s.take(pos) + s.skip(pos + 1);
    assert(s1 =~= a + x);
    lemma_codes_end(s1, pos + 1);
    let ce = codes_end(s1, pos + 1);
    let m = ce - pos;
    assert(1 <= m <= x.len());
    let xt = x.take(m);
    let xs = x.skip(m);
    assert(x =~= xt + xs);
    assert(s =~= a + (seq![')'] + x));
    let y = xt + (seq![')'] + xs);
    assert(close_colon_step(s, pos) =~= a + y);
    lemma_measure_concat(a, seq![')'] + x);
    lemma_measure_concat(a, y);
    lemma_count_concat(seq![')'], x, ':');
    lemma_count_concat(xt, seq![')'] + xs, ':');
    lemma_count_concat(seq![')'], xs, ':');
    lemma_count_concat(xt, xs, ':');
    assert((seq![')'] + x).drop_first() =~= x);
    assert((seq![')'] + xs).drop_first() =~= xs);
    assert(count_char(seq![')'], ':') == 0) by {
        assert(seq![')'].drop_first() =~= Seq::<char>::empty());
    }
    lemma_measure_concat(xt, seq![')'] + xs);
    lemma_measure_concat(xt, xs);
    assert(xt[0] == ':') by {
        assert(s[pos + 1] == ':');
        assert(x[0] == s[pos + 1]);
    }
    assert(count_char(xt, ':') >= 1) by {
        assert(xt.len() >= 1);
    }
}

/// After the `(...):codes` rewrite no `):` is left, and the text keeps its
/// length (each `)` only moves).
pub proof fn law_close_colon_fixed(s: Seq<char>)
    ensures
        find_seq(fix_close_colon(s), "):"@) is None,
        fix_close_colon(s).len() == s.len(),
    decreases paren_colon_measure(s),
{
    match find_seq(s, "):"@) {
        Some(pos) => {
            lemma_find_seq_from(s, "):"@, 0);
            lemma_close_colon_step(s, pos);
            law_close_colon_fixed(close_colon_step(s, pos));
        },
        None => {},
    }
}

/// One `):` rewrite on a character vector.
fn close_colon_once(v: &Vec<char>, pos: usize) -> (r: Vec<char>)
    requires
        occurs_at(v@, "):"@, pos as int),
    ensures
        r@ == close_colon_step(v@, pos as int),
{
    proof {
        reveal_strlit("):");
    }
    assert(pos + 2 <= v.len());
    let mut s1 = sub_chars(v, 0, pos);
    let tail = sub_chars(v, pos + 1, v.len());
    extend_chars(&mut s1, tail.as_slice());
    assert(s1@ =~= v@.take(pos as int) + v@.skip(pos + 1));
    proof {
        lemma_codes_end(s1@, pos + 1);
    }
    let mut ce = pos + 1;
    while ce < s1.len() && !(s1[ce] == ' ' || s1[ce] == ')' || s1[ce] == '(')
        invariant
            pos + 1 <= ce <= s1.len(),
            codes_end(s1@, ce as int) == codes_end(s1@, pos + 1),
        decreases s1.len() - ce,
    {
        ce = ce + 1;
    }
    let mut out = sub_chars(&s1, 0, ce);
    out.push(')');
    let rest = sub_chars(&s1, ce, s1.len());
    extend_chars(&mut out, rest.as_slice());
    assert(out@ =~= s1@.take(ce as int) + seq![')'] + s1@.skip(ce as int));
    out
}

/// All `(...):codes` written as `(...:codes)`.
pub fn fix_close_colon_exec(v: &Vec<char>) -> (r: Vec<char>)
    ensures
        r@ == fix_close_colon(v@),
{
    let pat: [char; 2] = [')', ':'];
    proof {
        reveal_strlit("):");
        assert(pat@ =~= "):"@);
    }
    let mut cur = sub_chars(v, 0, v.len());
    assert(cur@ =~= v@);
    loop
        invariant
            pat@ == "):"@,
            fix_close_colon(cur@) == fix_close_colon(v@),
        decreases paren_colon_measure(cur@),
    {
        match find_seq_exec(&cur, &pat) {
            Some(pos) => {
                proof {
                    lemma_find_seq_from(cur@, "):"@, 0);
                    lemma_close_colon_step(cur@, pos as int);
                }
                cur = close_colon_once(&cur, pos);
            },
            None => {
                return cur;
            },
        }
    }
}

// ---------------------------------------------------------------------------
// The whole rewrite and parse
// ---------------------------------------------------------------------------

// ---------------------------------------------------------------------------
// ASCII text stays ASCII
// ---------------------------------------------------------------------------

proof fn lemma_part_ascii(x: Seq<char>, t: Seq<char>)
    requires
        all_ascii(t),
        is_part_of(x, t),
    ensures
        all_ascii(x),
{
    let (a, b) = choose|a: int, b: int| 0 <= a <= b <= t.len() && x == t.subrange(a, b);
    lemma_ascii_sub(t, a, b);
}

proof fn lemma_ascii_concat(a: Seq<char>, b: Seq<char>)
    requires
        all_ascii(a),
        all_ascii(b),
    ensures
        all_ascii(a + b),
{
    assert forall|i: int| 0 <= i < (a + b).len() implies ((a + b)[i] as u32) < 128 by {
        if i < a.len() {
            assert((a + b)[i] == a[i]);
        } else {
            assert((a + b)[i] == b[i - a.len()]);
        }
    }
}

proof fn lemma_ascii_sub(a: Seq<char>, i: int, j: int)
    requires
        all_ascii(a),
        0 <= i <= j <= a.len(),
    ensures
        all_ascii(a.subrange(i, j)),
        all_ascii(a.take(j)),
        all_ascii(a.skip(i)),
{
    assert forall|k: int| 0 <= k < j - i implies (a.subrange(i, j)[k] as u32) < 128 by {
        assert(a.subrange(i, j)[k] == a[i + k]);
    }
    assert forall|k: int| 0 <= k < j implies (a.take(j)[k] as u32) < 128 by {
        assert(a.take(j)[k] == a[k]);
    }
    assert forall|k: int| 0 <= k < a.len() - i implies (a.skip(i)[k] as u32) < 128 by {
        assert(a.skip(i)[k] == a[i + k]);
    }
}

proof fn lemma_replace_all_ascii(s: Seq<char>, pat: Seq<char>, rep: Seq<char>)
    requires
        all_ascii(s),
        all_ascii(rep),
    ensures
        all_ascii(replace_all(s, pat, rep)),
    decreases s.len(),
{
    if pat.len() > 0 {
        match find_seq(s, pat) {
            Some(k) => if 0 <= k && k + pat.len() <= s.len() {
                lemma_ascii_sub(s, k, k + pat.len());
                lemma_ascii_sub(s, k + pat.len(), s.len() as int);
                lemma_replace_all_ascii(s.skip(k + pat.len()), pat, rep);
                lemma_ascii_concat(s.take(k), rep);
                lemma_ascii_concat(s.take(k) + rep, replace_all(s.skip(k + pat.len()), pat, rep));
            },
            None => {},
        }
    }
}

proof fn lemma_split_seq_ascii(s: Seq<char>, pat: Seq<char>)
    requires
        all_ascii(s),
    ensures
        forall|i: int| 0 <= i < split_seq(s, pat).len() ==> all_ascii(#[trigger] split_seq(s, pat)[i]),
    decreases s.len(),
{
    if pat.len() > 0 {
        match find_seq(s, pat) {
            Some(k) => if 0 <= k && k + pat.len() <= s.len() {
                lemma_ascii_sub(s, k, k + pat.len());
                lemma_ascii_sub(s, k + pat.len(), s.len() as int);
                lemma_split_seq_ascii(s.skip(k + pat.len()), pat);
                let rest = split_seq(s.skip(k + pat.len()), pat);
                assert forall|i: int| 0 <= i < split_seq(s, pat).len() implies all_ascii(
                    #[trigger] split_seq(s, pat)[i],
                ) by {
                    if i > 0 {
                        assert(split_seq(s, pat)[i] == rest[i - 1]);
                    }
                }
            },
            None => {},
        }
    }
}

proof fn lemma_first_codes_ascii(parts: Seq<Seq<char>>)
    requires
        forall|i: int| 0 <= i < parts.len() ==> all_ascii(#[trigger] parts[i]),
    ensures
        first_codes(parts) matches Some(c) ==> all_ascii(c),
    decreases parts.len(),
{
    if parts.len() > 0 {
        match find_char(parts[0], ':') {
            Some(i) => {
                lemma_find_char_from(parts[0], ':', 0);
                assert(all_ascii(parts[0]));
                lemma_ascii_sub(parts[0], i, parts[0].len() as int);
            },
            None => {
                assert forall|i: int| 0 <= i < parts.drop_first().len() implies all_ascii(
                    #[trigger] parts.drop_first()[i],
                ) by {
                    assert(parts.drop_first()[i] == parts[i + 1]);
                }
                lemma_first_codes_ascii(parts.drop_first());
            },
        }
    }
}

proof fn lemma_join_ascii(parts: Seq<Seq<char>>, sep: Seq<char>)
    requires
        forall|i: int| 0 <= i < parts.len() ==> all_ascii(#[trigger] parts[i]),
        all_ascii(sep),
    ensures
        all_ascii(join(parts, sep)),
    decreases parts.len(),
{
    if parts.len() == 1 {
        assert(all_ascii(parts[0]));
    } else if parts.len() > 1 {
        assert forall|i: int| 0 <= i < parts.drop_last().len() implies all_ascii(#[trigger] parts.drop_last()[i]) by {
            assert(parts.drop_last()[i] == parts[i]);
        }
        lemma_join_ascii(parts.drop_last(), sep);
        assert(all_ascii(parts.last()));
        lemma_ascii_concat(join(parts.drop_last(), sep), sep);
        lemma_ascii_concat(join(parts.drop_last(), sep) + sep, parts.last());
    }
}

proof fn lemma_slash_step_ascii(logic: Seq<char>)
    requires
        all_ascii(logic),
    ensures
        all_ascii(slash_step(logic)),
{
    if find_char(logic, '/') is Some {
        reveal_strlit("/(");
        reveal_strlit(":(");
        reveal_strlit("/");
        reveal_strlit(" OR ");
        lemma_replace_all_ascii(logic, "/("@, ":("@);
        lemma_replace_all_ascii(replace_all(logic, "/("@, ":("@), "/"@, " OR "@);
        let l2 = replace_all(replace_all(logic, "/("@, ":("@), "/"@, " OR "@);
        let parts = split_seq(l2, " OR "@);
        lemma_split_seq_ascii(l2, " OR "@);
        lemma_first_codes_ascii(parts);
        match first_codes(parts) {
            Some(c) => {
                let pp = propagate(parts, c);
                assert forall|i: int| 0 <= i < pp.len() implies all_ascii(#[trigger] pp[i]) by {
                    crate::crosstabs::parse::lemma_trim_ascii(parts[i]);
                    if find_char(parts[i], ':') is None {
                        lemma_ascii_concat(trim_ws(parts[i]), c);
                    }
                }
                lemma_join_ascii(pp, " OR "@);
            },
            None => {},
        }
    }
}

proof fn lemma_fix_close_colon_ascii(s: Seq<char>)
    requires
        all_ascii(s),
    ensures
        all_ascii(fix_close_colon(s)),
    decreases paren_colon_measure(s),
{
    match find_seq(s, "):"@) {
        Some(pos) => {
            let s2 = close_colon_step(s, pos);
            if paren_colon_measure(s2) < paren_colon_measure(s) {
                lemma_find_seq_from(s, "):"@, 0);
                reveal_strlit("):");
                lemma_ascii_sub(s, pos, pos + 1);
                lemma_ascii_sub(s, pos + 1, s.len() as int);
                let s1 = s.take(pos) + s.skip(pos + 1);
                lemma_ascii_concat(s.take(pos), s.skip(pos + 1));
                let ce = codes_end(s1, pos + 1);
                lemma_codes_end(s1, pos + 1);
                lemma_ascii_sub(s1, ce, s1.len() as int);
                lemma_ascii_sub(s1, 0, ce);
                assert(all_ascii(seq![')']));
                lemma_ascii_concat(s1.take(ce), seq![')']);
                lemma_ascii_concat(s1.take(ce) + seq![')'], s1.skip(ce));
                lemma_fix_close_colon_ascii(s2);
            }
        },
        None => {},
    }
}

/// The text handed to the parser.
pub open spec fn rewritten(logic: Seq<char>) -> Seq<char> {
    let l1 = slash_step(logic);
    let l2 = if find_seq(l1, "DO NOT SELECT"@) is Some {
        match do_not_select(l1) {
            Some(c) => c,
            None => l1,
        }
    } else {
        l1
    };
    fix_close_colon(l2)
}

/// The tree of a crosstab spec; `None` where an operator would be cut
/// inside a multi-byte character.
pub open spec fn logic_tree(logic: Seq<char>) -> Option<LogicTree> {
    simple(rewritten(logic))
}

/// Every ASCII spec text without a `DO NOT SELECT` phrase parses: the
/// rewrites keep it ASCII, and ASCII spec logic always parses.
pub proof fn law_ascii_logic_parses(logic: Seq<char>)
    requires
        all_ascii(logic),
        find_seq(slash_step(logic), "DO NOT SELECT"@) is None,
    ensures
        logic_tree(logic) is Some,
{
    lemma_slash_step_ascii(logic);
    lemma_fix_close_colon_ascii(slash_step(logic));
    law_ascii_spec_logic_parses(rewritten(logic));
}

impl CrossTabsLogic {
    /// Parse a spec-logic expression. Parsing cannot fail: every text
    /// gives a tree.
    pub fn new(logic: &str) -> (r: Result<Self, CrossTabsError>)
        requires
            logic_tree(logic@) is Some || all_ascii(logic@),
        ensures
            r matches Ok(t) && Some(t.tree()) == logic_tree(logic@),
    {
        Self::try_new(logic).unwrap()
    }

    /// [`CrossTabsLogic::new`], or `None` on a text in which an operator
    /// would be cut inside a multi-byte character.
    pub fn try_new(logic: &str) -> (r: Option<Result<Self, CrossTabsError>>)
        ensures
            r is Some <==> logic_tree(logic@) is Some,
            all_ascii(logic@) ==> r is Some,
            r matches Some(res) ==> res matches Ok(t) && Some(t.tree()) == logic_tree(logic@),
    {
        let v = chars_of(logic);
        let l1 = rewrite_slashes(&v);
        let dns: [char; 13] = ['D', 'O', ' ', 'N', 'O', 'T', ' ', 'S', 'E', 'L', 'E', 'C', 'T'];
        proof {
            reveal_strlit("DO NOT SELECT");
            assert(dns@ =~= "DO NOT SELECT"@);
        }
        proof {
            if all_ascii(logic@) {
                lemma_slash_step_ascii(logic@);
            }
        }
        let l2 = if find_seq_exec(&l1, &dns).is_some() {
            let s1 = string_from(l1.as_slice());
            match Self::convert_do_not_select(s1.as_str()) {
                Some(c) => {
                    let cv = chars_of(c.as_str());
                    assert(all_ascii(logic@) ==> all_ascii(cv@));
                    cv
                },
                None => l1,
            }
        } else {
            l1
        };
        assert(all_ascii(logic@) ==> all_ascii(l2@));
        let l3 = fix_close_colon_exec(&l2);
        proof {
            if all_ascii(logic@) {
                lemma_fix_close_colon_ascii(l2@);
                law_ascii_spec_logic_parses(l3@);
            }
        }
        match parse_simple(&l3) {
            Some(t) => Some(Ok(t)),
            None => None,
        }
    }
}

} // verus!
