//! UNCLE text of the spec logic's `OR`, `AND`, `NOT` and parenthesised
//! nodes read back by the UNCLE grammar: each is read as that connective of
//! its operands' texts read back.

use vstd::prelude::*;

use crate::crosstabs::logic::LogicTree;
use crate::crosstabs::parse::replace_all;
use crate::crosstabs::uncle_roundtrip::lemma_digits_run;
use crate::crosstabs::uncle_syntax::{find_question, gen_ok, gen_text, join_nonempty, uncle_text, value_or_empty};
use crate::rfl::QuestionModel;
use crate::text::{
    all_ascii, ascii_lower, find_seq, is_ascii_ws, is_digit, lemma_find_seq_from, lemma_nat_str, nat_str, uppercase,
};
use crate::weight::uncle::{holds, CodeVal, Relation, UncleModel};
use crate::weight::uncle_grammar::{
    Step, and_rest, basic_term, can_start_term, code_spec, digits_end, keyword_at, kw_and, kw_not, kw_or, norm_code,
    or_rest, parse_and, parse_or, parse_primary, parse_spec, parse_unary, parse_usize_at, position_list,
    record_prefix_at, relation_at, skip_ws,
};
use crate::weight::uncle_shift::{
    lemma_and_shift, lemma_or_shift, lemma_start_shift, lemma_term_shift, lemma_unary_shift, shifted,
};

verus! {


/// `x` is read as the one unary term `p`, alone and whenever a blank or a
/// closing parenthesis follows it, and a term can start with it.
pub open spec fn reads_alone(x: Seq<char>, p: UncleModel) -> bool {
    &&& x.len() > 0
    &&& !is_ascii_ws(x[0])
    &&& term_start(x)
    &&& forall|z: Seq<char>|
        tail_ok(z) ==> #[trigger] parse_unary(x + z, 0) == Step::Done(p, x.len() as int)
}

/// A term can start at the beginning of `x` (a digit, `(`, `R(` or the
/// word `NOT`).
#[verifier::opaque]
pub open spec fn term_start(x: Seq<char>) -> bool {
    can_start_term(x, 0)
}

/// `x` starts with a digit, `(` or `R(`.
pub open spec fn plain_start(x: Seq<char>) -> bool {
    x.len() > 0 && (is_digit(x[0]) || x[0] == '(' || (x[0] == 'R' && x.len() > 1 && x[1] == '('))
}

/// Text that may follow an operand: nothing, or a blank or `)` first.
pub open spec fn tail_ok(z: Seq<char>) -> bool {
    z.len() == 0 || z[0] == ' ' || z[0] == ')'
}

/// The test `1!s-c` of one column for one code.
pub open spec fn column_test(s: nat, c: nat) -> Seq<char> {
    seq!['1', '!'] + nat_str(s) + seq!['-'] + nat_str(c)
}

/// What `column_test(s, c)` means: column `s` holds code `c`.
pub open spec fn column_term(s: nat, c: nat) -> UncleModel {
    UncleModel::Term {
        col: s as usize,
        relation: Relation::Has,
        codes: seq![CodeVal::Numeric(norm_code((c % 256) as u8))],
    }
}

/// The characters of `s-c` and what follows it.
proof fn lemma_single_text_tail(s: nat, c: nat, z: Seq<char>)
    requires
        tail_ok(z),
    ensures
        ({
            let t = nat_str(s) + seq!['-'] + nat_str(c) + z;
            let l = nat_str(s).len() as int;
            let n = l + 1 + nat_str(c).len();
            &&& l >= 1
            &&& t.len() == n + z.len()
            &&& t[l] == '-'
            &&& digits_end(t, 0) == l
            &&& digits_end(t, l + 1) == n
            &&& t.subrange(0, l) == nat_str(s)
            &&& t.subrange(l + 1, n) == nat_str(c)
            &&& is_digit(t[0])
            &&& is_digit(t[l + 1])
            &&& !record_prefix_at(t, 0)
            &&& (n < t.len() ==> t[n] == ' ' || t[n] == ')')
        }),
{
    let a = nat_str(s);
    let b = nat_str(c);
    lemma_nat_str(s);
    lemma_nat_str(c);
    let t = a + seq!['-'] + b + z;
    let l = a.len() as int;
    let n = l + 1 + b.len();
    assert(t[l] == '-');
    assert forall|i: int| 0 <= i < l implies is_digit(#[trigger] t[i]) by {
        assert(t[i] == a[i]);
    }
    assert forall|i: int| l + 1 <= i < n implies is_digit(#[trigger] t[i]) by {
        assert(t[i] == b[i - l - 1]);
    }
    if n < t.len() {
        assert(t[n] == z[0]);
    }
    lemma_digits_run(t, 0, l);
    lemma_digits_run(t, l + 1, n);
    assert(t.subrange(0, l) =~= a);
    assert(t.subrange(l + 1, n) =~= b);
    assert(is_digit(t[0]));
    assert(is_digit(t[l + 1]));
    assert(!record_prefix_at(t, 0)) by {
        if l >= 2 {
            assert(is_digit(t[1]));
        }
    }
}

/// `s-c` is read as one term, whatever blank-led text follows it.
proof fn lemma_single_basic_tail(s: nat, c: nat, z: Seq<char>)
    requires
        s <= usize::MAX,
        c <= usize::MAX,
        tail_ok(z),
    ensures
        basic_term(nat_str(s) + seq!['-'] + nat_str(c) + z, 0) == Step::Done(
            column_term(s, c),
            nat_str(s).len() + 1 + nat_str(c).len() as int,
        ),
{
    lemma_single_text_tail(s, c, z);
    lemma_nat_str(s);
    lemma_nat_str(c);
    let t = nat_str(s) + seq!['-'] + nat_str(c) + z;
    let l = nat_str(s).len() as int;
    let n = l + 1 + nat_str(c).len();
    assert(parse_usize_at(t, 0) == Step::Done(s as usize, l));
    assert(position_list(t, 0, Seq::empty()) == Step::Done(seq![s as usize], l));
    assert(skip_ws(t, l) == l);
    assert(relation_at(t, l) == Step::Done(Relation::Has, l + 1));
    assert(parse_usize_at(t, l + 1) == Step::Done(c as usize, n));
    let codes = seq![CodeVal::Numeric(norm_code((c % 256) as u8))];
    assert(code_spec(t, l + 1, Seq::empty()) == Step::Done(codes, n));
}

/// A column test is read alone as its term.
#[verifier::rlimit(100)]
#[verifier::spinoff_prover]
pub proof fn lemma_column_test_alone(s: nat, c: nat)
    requires
        s <= usize::MAX,
        c <= usize::MAX,
    ensures
        reads_alone(column_test(s, c), column_term(s, c)),
{
    let x = column_test(s, c);
    lemma_nat_str(s);
    assert(is_digit(x[0]));
    assert(term_start(x)) by {
        reveal(term_start);
    }
    assert forall|z: Seq<char>| tail_ok(z) implies #[trigger] parse_unary(x + z, 0) == Step::Done(
        column_term(s, c),
        x.len() as int,
    ) by {
        let tz = nat_str(s) + seq!['-'] + nat_str(c) + z;
        let u = x + z;
        assert(u =~= seq!['1', '!'] + tz);
        lemma_single_text_tail(s, c, z);
        lemma_single_basic_tail(s, c, z);
        assert(shifted(u, tz, 2)) by {
            assert forall|i: int| 0 <= i < tz.len() implies #[trigger] tz[i] == u[i + 2] by {}
        }
        lemma_term_shift(u, tz, 2, 0);
        assert(record_prefix_at(u, 0));
        assert(!record_prefix_at(u, 2)) by {
            assert(u[2] == tz[0]);
            assert(u[3] == tz[1]);
        }
        assert(basic_term(u, 0) == basic_term(u, 2));
        assert(skip_ws(u, 0) == 0);
        assert(u[0] == '1');
        assert(!keyword_at(u, 0, kw_not())) by {
            assert(ascii_lower(kw_not()[0int]) != ascii_lower(u[0int]));
        }
    }
}

/// Text that may follow an `OR` chain: nothing, or `)` first.
pub open spec fn closes(w: Seq<char>) -> bool {
    w.len() == 0 || w[0] == ')'
}

/// `x` is read as the whole expression `p`, alone and whenever a `)`
/// follows it.
pub open spec fn reads_chain(x: Seq<char>, p: UncleModel) -> bool {
    &&& x.len() > 0
    &&& !is_ascii_ws(x[0])
    &&& forall|w: Seq<char>| closes(w) ==> #[trigger] parse_or(x + w, 0) == Step::Done(p, x.len() as int)
}

/// A whole expression read alone parses, on its own, as itself.
proof fn lemma_chain_parses(x: Seq<char>, p: UncleModel)
    requires
        reads_chain(x, p),
    ensures
        parse_spec(x) == Some(Ok::<UncleModel, (int, Seq<char>)>(p)),
{
    assert(x + Seq::<char>::empty() =~= x);
    assert(closes(Seq::<char>::empty()));
    assert(parse_or(x + Seq::<char>::empty(), 0) == Step::Done(p, x.len() as int));
    assert(skip_ws(x, x.len() as int) == x.len());
}

/// A term read alone, followed by nothing or `)`, ends its `AND` and `OR`
/// chains.
proof fn lemma_alone_and(x: Seq<char>, p: UncleModel, w: Seq<char>)
    requires
        reads_alone(x, p),
        closes(w),
    ensures
        parse_and(x + w, 0) == Step::Done(p, x.len() as int),
        parse_or(x + w, 0) == Step::Done(p, x.len() as int),
{
    let l = x.len() as int;
    let u = x + w;
    assert(tail_ok(w));
    assert(parse_unary(x + w, 0) == Step::Done(p, l));
    if w.len() > 0 {
        assert(u[l] == w[0]);
    }
    assert(skip_ws(u, l) == l);
    assert(and_rest(u, p, l) == Step::Done(p, l));
    assert(!keyword_at(u, l, kw_or())) by {
        if l < u.len() {
            assert(ascii_lower(kw_or()[0int]) != ascii_lower(u[l + 0]));
        }
    }
    assert(or_rest(u, p, l) == Step::Done(p, l));
}

/// A term read alone is a whole expression read alone.
pub proof fn lemma_alone_chain(x: Seq<char>, p: UncleModel)
    requires
        reads_alone(x, p),
    ensures
        reads_chain(x, p),
{
    assert forall|w: Seq<char>| closes(w) implies #[trigger] parse_or(x + w, 0) == Step::Done(p, x.len() as int) by {
        lemma_alone_and(x, p, w);
    }
}

/// The left operand of ` OR `, read up to the keyword.
proof fn lemma_or_left(a: Seq<char>, b: Seq<char>, pa: UncleModel)
    requires
        reads_alone(a, pa),
        b.len() > 0,
        !is_ascii_ws(b[0]),
    ensures
        ({
            let u = a + seq![' ', 'O', 'R', ' '] + b;
            let l = a.len() as int;
            &&& parse_and(u, 0) == Step::Done(pa, l)
            &&& skip_ws(u, l) == l + 1
            &&& keyword_at(u, l + 1, kw_or())
            &&& skip_ws(u, l + 3) == l + 4
        }),
{
    let sep = seq![' ', 'O', 'R', ' '];
    let u = a + sep + b;
    let l = a.len() as int;
    let z1 = sep + b;
    assert(u =~= a + z1);
    assert(tail_ok(z1));
    assert(parse_unary(a + z1, 0) == Step::Done(pa, l));
    assert(u[l] == ' ' && u[l + 1] == 'O' && u[l + 2] == 'R' && u[l + 3] == ' ');
    assert(u[l + 4] == b[0]);
    assert(skip_ws(u, l + 1) == l + 1);
    assert(skip_ws(u, l) == l + 1);
    assert(skip_ws(u, l + 4) == l + 4);
    assert(skip_ws(u, l + 3) == l + 4);
    assert(keyword_at(u, l + 1, kw_or())) by {
        assert forall|i: int| 0 <= i < kw_or().len() implies ascii_lower(#[trigger] kw_or()[i]) == ascii_lower(
            u[l + 1 + i],
        ) by {}
    }
    assert(and_rest(u, pa, l) == Step::Done(pa, l));
}

/// A term read alone at the end of a text, or before `)`, after `k`
/// characters of other text, ends the text's `AND` chain there.
proof fn lemma_right_operand(u: Seq<char>, k: int, b: Seq<char>, pb: UncleModel, w: Seq<char>)
    requires
        reads_alone(b, pb),
        closes(w),
        0 <= k,
        u.len() == k + b.len() + w.len(),
        u.subrange(k, u.len() as int) == b + w,
    ensures
        parse_and(u, k) == Step::Done(pb, k + b.len()),
        parse_unary(u, k) == Step::Done(pb, k + b.len()),
{
    let bw = b + w;
    assert(shifted(u, bw, k)) by {
        assert forall|i: int| 0 <= i < bw.len() implies #[trigger] bw[i] == u[i + k] by {
            assert(u.subrange(k, u.len() as int)[i] == u[i + k]);
        }
    }
    lemma_alone_and(b, pb, w);
    assert(tail_ok(w));
    assert(parse_unary(b + w, 0) == Step::Done(pb, b.len() as int));
    lemma_and_shift(u, bw, k, 0);
    lemma_unary_shift(u, bw, k, 0);
}

/// Where a chain ends at `n`, before `)` or at the end, no `OR` follows.
proof fn lemma_chain_end(u: Seq<char>, n: int, e: UncleModel)
    requires
        0 <= n <= u.len(),
        n < u.len() ==> u[n] == ')',
    ensures
        or_rest(u, e, n) == Step::Done(e, n),
        and_rest(u, e, n) == Step::Done(e, n),
{
    assert(skip_ws(u, n) == n);
    assert(!keyword_at(u, n, kw_or())) by {
        if n < u.len() {
            assert(ascii_lower(kw_or()[0int]) != ascii_lower(u[n + 0]));
        }
    }
}

/// Two terms read alone, joined by ` OR ` and followed by nothing or `)`,
/// are read as their `Or`.
#[verifier::rlimit(60)]
proof fn lemma_or_text(a: Seq<char>, b: Seq<char>, pa: UncleModel, pb: UncleModel, w: Seq<char>)
    requires
        reads_alone(a, pa),
        reads_alone(b, pb),
        closes(w),
    ensures
        parse_or(a + seq![' ', 'O', 'R', ' '] + b + w, 0) == Step::Done(
            UncleModel::Or(Box::new(pa), Box::new(pb)),
            (a + seq![' ', 'O', 'R', ' '] + b).len() as int,
        ),
{
    let bw = b + w;
    let u = a + seq![' ', 'O', 'R', ' '] + bw;
    assert(u =~= a + seq![' ', 'O', 'R', ' '] + b + w);
    let l = a.len() as int;
    let k = l + 4;
    let n = k + b.len();
    assert(bw[0] == b[0]);
    lemma_or_left(a, bw, pa);
    assert(u.subrange(k, u.len() as int) =~= bw);
    lemma_right_operand(u, k, b, pb, w);
    let both = UncleModel::Or(Box::new(pa), Box::new(pb));
    if w.len() > 0 {
        assert(u[n] == w[0]);
    }
    lemma_chain_end(u, n, both);
    assert(or_rest(u, pa, l) == Step::Done(both, n));
}

/// The left operand of a blank (an implicit `AND`), read up to it.
proof fn lemma_and_left(a: Seq<char>, b: Seq<char>, pa: UncleModel)
    requires
        reads_alone(a, pa),
        b.len() > 0,
        !is_ascii_ws(b[0]),
    ensures
        ({
            let u = a + seq![' '] + b;
            let l = a.len() as int;
            &&& parse_unary(u, 0) == Step::Done(pa, l)
            &&& skip_ws(u, l) == l + 1
        }),
{
    let u = a + seq![' '] + b;
    let l = a.len() as int;
    let z1 = seq![' '] + b;
    assert(u =~= a + z1);
    assert(tail_ok(z1));
    assert(u[l] == ' ');
    assert(u[l + 1] == b[0]);
    assert(skip_ws(u, l + 1) == l + 1);
}

/// After a term `pa` ending at `l`, a blank and a term `pb` with a plain
/// start ending at `n` make the `AND` chain `pa AND pb`.
proof fn lemma_and_step(u: Seq<char>, l: int, pa: UncleModel, pb: UncleModel, n: int)
    requires
        0 <= l,
        l + 1 <= n <= u.len(),
        skip_ws(u, l) == l + 1,
        plain_start(u.subrange(l + 1, u.len() as int)),
        parse_unary(u, l + 1) == Step::Done(pb, n),
        and_rest(u, UncleModel::And(Box::new(pa), Box::new(pb)), n) == Step::Done(
            UncleModel::And(Box::new(pa), Box::new(pb)),
            n,
        ),
    ensures
        and_rest(u, pa, l) == Step::Done(UncleModel::And(Box::new(pa), Box::new(pb)), n),
{
    let k = l + 1;
    let r = u.subrange(k, u.len() as int);
    assert(u[k] == r[0]);
    if r.len() > 1 {
        assert(u[k + 1] == r[1]);
    }
    assert(u[k] != ')' && ascii_lower(u[k]) != 'o' && ascii_lower(u[k]) != 'a');
    assert(!keyword_at(u, k, kw_or())) by {
        assert(ascii_lower(kw_or()[0int]) != ascii_lower(u[k + 0]));
    }
    assert(!keyword_at(u, k, kw_and())) by {
        assert(ascii_lower(kw_and()[0int]) != ascii_lower(u[k + 0]));
    }
    assert(can_start_term(u, k));
}

/// Two terms read alone, joined by a blank (an implicit `AND`) and followed
/// by nothing or `)`, are read as their `And`.
#[verifier::rlimit(60)]
proof fn lemma_and_text(a: Seq<char>, b: Seq<char>, pa: UncleModel, pb: UncleModel, w: Seq<char>)
    requires
        reads_alone(a, pa),
        reads_alone(b, pb),
        plain_start(b),
        closes(w),
    ensures
        parse_or(a + seq![' '] + b + w, 0) == Step::Done(
            UncleModel::And(Box::new(pa), Box::new(pb)),
            (a + seq![' '] + b).len() as int,
        ),
{
    let bw = b + w;
    let u = a + seq![' '] + bw;
    assert(u =~= a + seq![' '] + b + w);
    let l = a.len() as int;
    let k = l + 1;
    let n = k + b.len();
    assert(bw[0] == b[0]);
    lemma_and_left(a, bw, pa);
    assert(u.subrange(k, u.len() as int) =~= bw);
    lemma_right_operand(u, k, b, pb, w);
    assert(u[k] == b[0]);
    if b.len() > 1 {
        assert(u[k + 1] == b[1]);
    }
    let both = UncleModel::And(Box::new(pa), Box::new(pb));
    if w.len() > 0 {
        assert(u[n] == w[0]);
    }
    lemma_chain_end(u, n, both);
    assert(plain_start(u.subrange(k, u.len() as int))) by {
        assert(u.subrange(k, u.len() as int) =~= bw);
        if b.len() > 1 {
            assert(bw[1] == b[1]);
        }
    }
    lemma_and_step(u, l, pa, pb, n);
    assert(parse_and(u, 0) == Step::Done(both, n));
}

/// `NOT(b)`, `b` a whole expression, followed by a blank, `)` or nothing,
/// is read as the negation of `b`.
#[verifier::rlimit(100)]
#[verifier::spinoff_prover]
proof fn lemma_not_text(b: Seq<char>, pb: UncleModel, z: Seq<char>)
    requires
        reads_chain(b, pb),
        tail_ok(z),
    ensures
        parse_unary(seq!['N', 'O', 'T', '('] + b + seq![')'] + z, 0) == Step::Done(
            UncleModel::Not(Box::new(pb)),
            b.len() + 5int,
        ),
{
    let w = seq![')'] + z;
    let t = b + w;
    let u = seq!['N', 'O', 'T', '('] + t;
    assert(u =~= seq!['N', 'O', 'T', '('] + b + seq![')'] + z);
    let m = b.len() as int;
    assert(closes(w));
    assert(parse_or(b + w, 0) == Step::Done(pb, m));
    assert(shifted(u, t, 4)) by {
        assert forall|i: int| 0 <= i < t.len() implies #[trigger] t[i] == u[i + 4] by {}
    }
    lemma_or_shift(u, t, 4, 0);
    assert(parse_or(u, 4) == Step::Done(pb, m + 4));
    assert(u[0] == 'N' && u[1] == 'O' && u[2] == 'T' && u[3] == '(');
    assert(u[4] == b[0]);
    assert(u[m + 4] == ')');
    assert(skip_ws(u, 0) == 0);
    assert(keyword_at(u, 0, kw_not())) by {
        assert forall|i: int| 0 <= i < kw_not().len() implies ascii_lower(#[trigger] kw_not()[i]) == ascii_lower(
            u[0 + i],
        ) by {}
    }
    assert(skip_ws(u, 3) == 3);
    assert(skip_ws(u, 4) == 4);
    assert(skip_ws(u, m + 4) == m + 4);
}

/// A term starts at `NOT(` when the text is ASCII.
proof fn lemma_not_start(x: Seq<char>)
    requires
        x.len() >= 4,
        x[0] == 'N' && x[1] == 'O' && x[2] == 'T' && x[3] == '(',
        all_ascii(x),
    ensures
        can_start_term(x, 0),
{
    let up = uppercase(x.subrange(0, x.len() as int));
    assert(x.subrange(0, x.len() as int) =~= x);
    assert(up.subrange(0, 3) =~= kw_not());
}

/// `NOT(b)` reads alone as the negation of `b`, when all its text is ASCII.
pub proof fn lemma_not_alone(b: Seq<char>, pb: UncleModel)
    requires
        reads_chain(b, pb),
        all_ascii(seq!['N', 'O', 'T', '('] + b + seq![')']),
    ensures
        reads_alone(seq!['N', 'O', 'T', '('] + b + seq![')'], UncleModel::Not(Box::new(pb))),
{
    let x = seq!['N', 'O', 'T', '('] + b + seq![')'];
    assert forall|z: Seq<char>| tail_ok(z) implies #[trigger] parse_unary(x + z, 0) == Step::Done(
        UncleModel::Not(Box::new(pb)),
        x.len() as int,
    ) by {
        lemma_not_text(b, pb, z);
    }
    lemma_not_start(x);
    assert(term_start(x)) by {
        reveal(term_start);
    }
}

/// `(a)`, `a` a whole expression, reads alone as `a`.
#[verifier::rlimit(100)]
#[verifier::spinoff_prover]
pub proof fn lemma_paren_alone(a: Seq<char>, pa: UncleModel)
    requires
        reads_chain(a, pa),
    ensures
        reads_alone(seq!['('] + a + seq![')'], pa),
{
    let x = seq!['('] + a + seq![')'];
    let m = a.len() as int;
    assert forall|z: Seq<char>| tail_ok(z) implies #[trigger] parse_unary(x + z, 0) == Step::Done(pa, x.len() as int) by {
        let w = seq![')'] + z;
        let t = a + w;
        let u = seq!['('] + t;
        assert(u =~= x + z);
        assert(closes(w));
        assert(parse_or(a + w, 0) == Step::Done(pa, m));
        assert(shifted(u, t, 1)) by {
            assert forall|i: int| 0 <= i < t.len() implies #[trigger] t[i] == u[i + 1] by {}
        }
        lemma_or_shift(u, t, 1, 0);
        assert(u[0] == '(');
        assert(u[m + 1] == ')');
        assert(skip_ws(u, 0) == 0);
        assert(skip_ws(u, m + 1) == m + 1);
        assert(!keyword_at(u, 0, kw_not())) by {
            assert(ascii_lower(kw_not()[0int]) != ascii_lower(u[0int]));
        }
        assert(parse_primary(u, 0) == Step::Done(pa, m + 2));
    }
    assert(term_start(x)) by {
        reveal(term_start);
    }
}

/// The UNCLE text of an `OR` node of the spec logic, read back, is the `Or`
/// of its two operands' texts read back: it holds on a record exactly when
/// one of the operands' texts does (for operands each written as one term,
/// such as a column test, a `NOT(..)` or a parenthesised expression).
#[verifier::rlimit(60)]
pub proof fn law_or_node_text(t: LogicTree, tbl: Map<Seq<char>, QuestionModel>, pa: UncleModel, pb: UncleModel)
    requires
        t.value == Some("|"@),
        t.left is Some,
        t.right is Some,
        uncle_text(*t.left->0, tbl) matches Some(a) && reads_alone(a, pa),
        uncle_text(*t.right->0, tbl) matches Some(b) && reads_alone(b, pb),
    ensures
        parse_spec(uncle_text(*t.left->0, tbl)->0) == Some(Ok::<UncleModel, (int, Seq<char>)>(pa)),
        parse_spec(uncle_text(*t.right->0, tbl)->0) == Some(Ok::<UncleModel, (int, Seq<char>)>(pb)),
        uncle_text(t, tbl) matches Some(x) && reads_chain(x, UncleModel::Or(Box::new(pa), Box::new(pb)))
            && parse_spec(x) == Some(Ok::<UncleModel, (int, Seq<char>)>(UncleModel::Or(Box::new(pa), Box::new(pb)))),
        forall|rec: Seq<u8>|
            #[trigger] holds(UncleModel::Or(Box::new(pa), Box::new(pb)), rec) == (holds(pa, rec) || holds(pb, rec)),
{
    reveal_strlit("|");
    reveal_strlit(":");
    reveal_strlit("(");
    reveal_strlit("--");
    reveal_strlit(" OR ");
    let a = uncle_text(*t.left->0, tbl)->0;
    let b = uncle_text(*t.right->0, tbl)->0;
    assert("|"@[0] != ":"@[0]);
    assert("|"@[0] != "("@[0]);
    assert("|"@.len() != "--"@.len());
    assert("|"@ != ":"@ && "|"@ != "("@ && "|"@ != "--"@);
    let x = a + seq![' ', 'O', 'R', ' '] + b;
    assert(join_nonempty(a, b, " OR "@) == x);
    assert(uncle_text(t, tbl) == Some(x));
    let both = UncleModel::Or(Box::new(pa), Box::new(pb));
    assert forall|w: Seq<char>| closes(w) implies #[trigger] parse_or(x + w, 0) == Step::Done(both, x.len() as int) by {
        lemma_or_text(a, b, pa, pb, w);
    }
    assert(x[0] == a[0]);
    assert(reads_chain(x, both));
    lemma_chain_parses(x, both);
    lemma_alone_chain(a, pa);
    lemma_alone_chain(b, pb);
    lemma_chain_parses(a, pa);
    lemma_chain_parses(b, pb);
}

/// The UNCLE text of an `AND` node of the spec logic (its operands'
/// texts side by side), read back, is the `And` of its two operands' texts
/// read back: it holds on a record exactly when both operands' texts do.
#[verifier::rlimit(60)]
pub proof fn law_and_node_text(t: LogicTree, tbl: Map<Seq<char>, QuestionModel>, pa: UncleModel, pb: UncleModel)
    requires
        t.value == Some("&"@),
        t.left is Some,
        t.right is Some,
        uncle_text(*t.left->0, tbl) matches Some(a) && reads_alone(a, pa),
        uncle_text(*t.right->0, tbl) matches Some(b) && reads_alone(b, pb) && plain_start(b),
    ensures
        uncle_text(t, tbl) matches Some(x) && reads_chain(x, UncleModel::And(Box::new(pa), Box::new(pb)))
            && parse_spec(x) == Some(Ok::<UncleModel, (int, Seq<char>)>(UncleModel::And(Box::new(pa), Box::new(pb)))),
        forall|rec: Seq<u8>|
            #[trigger] holds(UncleModel::And(Box::new(pa), Box::new(pb)), rec) == (holds(pa, rec) && holds(pb, rec)),
{
    reveal_strlit("&");
    reveal_strlit("|");
    reveal_strlit(":");
    reveal_strlit("(");
    reveal_strlit("--");
    reveal_strlit(" ");
    let a = uncle_text(*t.left->0, tbl)->0;
    let b = uncle_text(*t.right->0, tbl)->0;
    assert("&"@[0] != ":"@[0]);
    assert("&"@[0] != "("@[0]);
    assert("&"@[0] != "|"@[0]);
    assert("&"@.len() != "--"@.len());
    assert("&"@ != ":"@ && "&"@ != "("@ && "&"@ != "--"@ && "&"@ != "|"@);
    let x = a + seq![' '] + b;
    assert(join_nonempty(a, b, " "@) == x);
    assert(uncle_text(t, tbl) == Some(x));
    let both = UncleModel::And(Box::new(pa), Box::new(pb));
    assert forall|w: Seq<char>| closes(w) implies #[trigger] parse_or(x + w, 0) == Step::Done(both, x.len() as int) by {
        lemma_and_text(a, b, pa, pb, w);
    }
    assert(x[0] == a[0]);
    assert(reads_chain(x, both));
    lemma_chain_parses(x, both);
}

/// The UNCLE text of a `NOT` node of the spec logic, read back, is the
/// negation of its operand's text read back: it holds on a record exactly
/// when the operand's text does not.
#[verifier::rlimit(60)]
pub proof fn law_not_node_text(t: LogicTree, tbl: Map<Seq<char>, QuestionModel>, pb: UncleModel)
    requires
        t.value == Some("NOT"@),
        t.left is None,
        t.right is Some,
        uncle_text(*t.right->0, tbl) matches Some(b) && reads_chain(b, pb),
    ensures
        uncle_text(t, tbl) matches Some(x) && parse_spec(x) == Some(
            Ok::<UncleModel, (int, Seq<char>)>(UncleModel::Not(Box::new(pb))),
        ),
        forall|rec: Seq<u8>| #[trigger] holds(UncleModel::Not(Box::new(pb)), rec) == !holds(pb, rec),
{
    reveal_strlit("NOT");
    reveal_strlit("NOT(");
    reveal_strlit(")");
    reveal_strlit(":");
    let b = uncle_text(*t.right->0, tbl)->0;
    assert("NOT"@.len() != ":"@.len());
    let x = seq!['N', 'O', 'T', '('] + b + seq![')'];
    assert(uncle_text(t, tbl) == Some("NOT("@ + b + ")"@));
    assert("NOT("@ + b + ")"@ =~= x);
    assert(x + Seq::<char>::empty() =~= x);
    lemma_not_text(b, pb, Seq::<char>::empty());
    let n = x.len() as int;
    let p = UncleModel::Not(Box::new(pb));
    assert(skip_ws(x, n) == n);
    assert(and_rest(x, p, n) == Step::Done(p, n));
    assert(parse_and(x, 0) == Step::Done(p, n));
    assert(or_rest(x, p, n) == Step::Done(p, n));
    assert(parse_or(x, 0) == Step::Done(p, n));
}

/// The UNCLE text of a parenthesised node of the spec logic reads alone as
/// its operand's text read back, so it joins `OR`, `AND` and `NOT` as one
/// term.
#[verifier::rlimit(60)]
pub proof fn law_paren_node_text(t: LogicTree, tbl: Map<Seq<char>, QuestionModel>, pa: UncleModel)
    requires
        t.value == Some("("@),
        t.left is Some,
        uncle_text(*t.left->0, tbl) matches Some(a) && reads_chain(a, pa),
    ensures
        uncle_text(t, tbl) matches Some(x) && reads_alone(x, pa) && parse_spec(x) == Some(
            Ok::<UncleModel, (int, Seq<char>)>(pa),
        ),
{
    reveal_strlit("(");
    reveal_strlit(")");
    reveal_strlit(":");
    let a = uncle_text(*t.left->0, tbl)->0;
    assert("("@[0] != ":"@[0]);
    let x = seq!['('] + a + seq![')'];
    assert(uncle_text(t, tbl) == Some("("@ + a + ")"@));
    assert("("@ + a + ")"@ =~= x);
    lemma_paren_alone(a, pa);
    lemma_alone_chain(x, pa);
    lemma_chain_parses(x, pa);
}

/// A comparison `QUESTION:c` of a one-column, one-response question, for a
/// single decimal code `c`, is written as the column test of the
/// question's column for that code.
pub proof fn lemma_column_comparison_text(l: LogicTree, tbl: Map<Seq<char>, QuestionModel>, m: QuestionModel, c: nat)
    requires
        l.value == Some(":"@),
        l.left is Some,
        l.right is Some,
        find_question(tbl, uppercase(value_or_empty(l.left->0.value))) == Some(m),
        m.width == 1,
        m.max_responses == 1,
        value_or_empty(l.right->0.value) == nat_str(c),
    ensures
        uncle_text(l, tbl) == Some(column_test(m.start_col as nat, c)),
{
    reveal(gen_text);
    reveal_strlit(":");
    reveal_strlit("MEAN");
    reveal_strlit("-");
    reveal_strlit("1!");
    lemma_nat_str(c);
    let codes = nat_str(c);
    assert(codes != "MEAN"@) by {
        assert(is_digit(codes[0]));
    }
    lemma_find_seq_from(codes, "-"@, 0);
    assert(find_seq(codes, "-"@) is None) by {
        if let Some(k) = find_seq(codes, "-"@) {
            assert(codes.subrange(k, k + 1)[0] == codes[k]);
            assert(is_digit(codes[k]));
        }
    }
    assert(replace_all(codes, "-"@, ":"@) == codes);
    assert(gen_ok(m));
    assert(gen_text(m, codes) =~= column_test(m.start_col as nat, c));
}

/// `QUESTION:c OR QUESTION:d` on two one-column, one-response questions,
/// for single decimal codes, is written so that it reads back as the `Or`
/// of the two column tests: it selects the records where either column
/// holds its code.
pub proof fn law_or_of_column_comparisons(
    t: LogicTree,
    tbl: Map<Seq<char>, QuestionModel>,
    m1: QuestionModel,
    c1: nat,
    m2: QuestionModel,
    c2: nat,
)
    requires
        t.value == Some("|"@),
        t.left is Some,
        t.right is Some,
        t.left->0.value == Some(":"@),
        t.left->0.left is Some,
        t.left->0.right is Some,
        find_question(tbl, uppercase(value_or_empty(t.left->0.left->0.value))) == Some(m1),
        m1.width == 1,
        m1.max_responses == 1,
        value_or_empty(t.left->0.right->0.value) == nat_str(c1),
        c1 <= usize::MAX,
        t.right->0.value == Some(":"@),
        t.right->0.left is Some,
        t.right->0.right is Some,
        find_question(tbl, uppercase(value_or_empty(t.right->0.left->0.value))) == Some(m2),
        m2.width == 1,
        m2.max_responses == 1,
        value_or_empty(t.right->0.right->0.value) == nat_str(c2),
        c2 <= usize::MAX,
    ensures
        uncle_text(t, tbl) matches Some(x) && parse_spec(x) == Some(
            Ok::<UncleModel, (int, Seq<char>)>(
                UncleModel::Or(
                    Box::new(column_term(m1.start_col as nat, c1)),
                    Box::new(column_term(m2.start_col as nat, c2)),
                ),
            ),
        ),
{
    lemma_column_comparison_text(*t.left->0, tbl, m1, c1);
    lemma_column_comparison_text(*t.right->0, tbl, m2, c2);
    lemma_column_test_alone(m1.start_col as nat, c1);
    lemma_column_test_alone(m2.start_col as nat, c2);
    law_or_node_text(t, tbl, column_term(m1.start_col as nat, c1), column_term(m2.start_col as nat, c2));
}

} // verus!
