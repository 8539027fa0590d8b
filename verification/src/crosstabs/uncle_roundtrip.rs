//! Generated UNCLE text read back by the UNCLE grammar.

use vstd::prelude::*;

use crate::crosstabs::uncle_syntax::{gen_ok, gen_text, range_text, slot_ranges};
use crate::rfl::QuestionModel;
use crate::text::{all_digits, ascii_lower, dec_value, is_ascii_ws, is_digit, lemma_nat_str, nat_str};
use crate::weight::uncle::{CodeVal, RValue, Relation, UncleModel};
use crate::weight::uncle_grammar::{
    Step, and_rest, basic_term, code_spec, col_range, colon_is_position, consume_at, digits_end,
    ellipsis_expand, field_group, i64_digits, keyword_at, kw_not, norm_code, or_chain, or_rest,
    parse_and, parse_or, parse_primary, parse_spec, parse_unary, parse_usize_at, peek, position_list,
    r_body, r_ellipsis, r_fields, r_values, record_prefix_at, relation_at, relation_char_at, skip_ws,
};
use crate::weight::uncle_shift::law_record_prefix_ignored;

verus! {

/// A run of digits from `p` to `q`, ended by a non-digit or the end.
pub proof fn lemma_digits_run(t: Seq<char>, p: int, q: int)
    requires
        0 <= p <= q <= t.len(),
        forall|i: int| p <= i < q ==> is_digit(#[trigger] t[i]),
        q < t.len() ==> !is_digit(t[q]),
    ensures
        digits_end(t, p) == q,
    decreases q - p,
{
    if p < q {
        lemma_digits_run(t, p + 1, q);
    }
}

/// The characters of `s-c`: digits, the `-`, digits.
proof fn lemma_single_text(s: nat, c: nat)
    ensures
        ({
            let t = nat_str(s) + seq!['-'] + nat_str(c);
            let l = nat_str(s).len() as int;
            &&& l >= 1
            &&& t.len() == l + 1 + nat_str(c).len()
            &&& nat_str(c).len() >= 1
            &&& t[l] == '-'
            &&& digits_end(t, 0) == l
            &&& digits_end(t, l + 1) == t.len()
            &&& t.subrange(0, l) == nat_str(s)
            &&& t.subrange(l + 1, t.len() as int) == nat_str(c)
            &&& is_digit(t[0])
            &&& is_digit(t[l + 1])
            &&& !record_prefix_at(t, 0)
        }),
{
    let a = nat_str(s);
    let b = nat_str(c);
    lemma_nat_str(s);
    lemma_nat_str(c);
    let t = a + seq!['-'] + b;
    let l = a.len() as int;
    let n = t.len() as int;
    assert(t[l] == '-');
    assert forall|i: int| 0 <= i < l implies is_digit(#[trigger] t[i]) by {
        assert(t[i] == a[i]);
    }
    assert forall|i: int| l + 1 <= i < n implies is_digit(#[trigger] t[i]) by {
        assert(t[i] == b[i - l - 1]);
    }
    lemma_digits_run(t, 0, l);
    lemma_digits_run(t, l + 1, n);
    assert(t.subrange(0, l) =~= a);
    assert(t.subrange(l + 1, n) =~= b);
    assert(is_digit(t[0]));
    assert(is_digit(t[l + 1]));
    assert(!record_prefix_at(t, 0)) by {
        if l >= 2 {
            assert(is_digit(t[1]));
        }
    }
}

/// `s-c` (a column and one code, both in decimal) is read as one term.
proof fn lemma_single_basic(s: nat, c: nat)
    requires
        s <= usize::MAX,
        c <= usize::MAX,
    ensures
        basic_term(nat_str(s) + seq!['-'] + nat_str(c), 0) == Step::Done(
            UncleModel::Term {
                col: s as usize,
                relation: Relation::Has,
                codes: seq![CodeVal::Numeric(norm_code((c % 256) as u8))],
            },
            (nat_str(s) + seq!['-'] + nat_str(c)).len() as int,
        ),
{
    lemma_single_text(s, c);
    lemma_nat_str(s);
    lemma_nat_str(c);
    let t = nat_str(s) + seq!['-'] + nat_str(c);
    let l = nat_str(s).len() as int;
    let n = t.len() as int;
    assert(parse_usize_at(t, 0) == Step::Done(s as usize, l));
    assert(position_list(t, 0, Seq::empty()) == Step::Done(seq![s as usize], l));
    assert(skip_ws(t, l) == l);
    assert(relation_at(t, l) == Step::Done(Relation::Has, l + 1));
    assert(parse_usize_at(t, l + 1) == Step::Done(c as usize, n));
    let codes = seq![CodeVal::Numeric(norm_code((c % 256) as u8))];
    assert(code_spec(t, l + 1, Seq::empty()) == Step::Done(codes, n));
}

/// The characters of `s:e-c`: digits, the `:`, digits, the `-`, digits.
proof fn lemma_run_text(s: nat, e: nat, c: nat)
    ensures
        ({
            let t = nat_str(s) + seq![':'] + nat_str(e) + seq!['-'] + nat_str(c);
            let l = nat_str(s).len() as int;
            let m = nat_str(e).len() as int;
            &&& l >= 1
            &&& m >= 1
            &&& t.len() == l + m + 2 + nat_str(c).len()
            &&& nat_str(c).len() >= 1
            &&& t[l] == ':'
            &&& t[l + 1 + m] == '-'
            &&& digits_end(t, 0) == l
            &&& digits_end(t, l + 1) == l + 1 + m
            &&& digits_end(t, l + m + 2) == t.len()
            &&& t.subrange(0, l) == nat_str(s)
            &&& t.subrange(l + 1, l + 1 + m) == nat_str(e)
            &&& t.subrange(l + m + 2, t.len() as int) == nat_str(c)
            &&& is_digit(t[0])
            &&& is_digit(t[l + m + 2])
            &&& !record_prefix_at(t, 0)
        }),
{
    let a = nat_str(s);
    let b = nat_str(e);
    let d = nat_str(c);
    lemma_nat_str(s);
    lemma_nat_str(e);
    lemma_nat_str(c);
    let t = a + seq![':'] + b + seq!['-'] + d;
    let l = a.len() as int;
    let m = b.len() as int;
    let n = t.len() as int;
    assert(t[l] == ':');
    assert(t[l + 1 + m] == '-');
    assert forall|i: int| 0 <= i < l implies is_digit(#[trigger] t[i]) by {
        assert(t[i] == a[i]);
    }
    assert forall|i: int| l + 1 <= i < l + 1 + m implies is_digit(#[trigger] t[i]) by {
        assert(t[i] == b[i - l - 1]);
    }
    assert forall|i: int| l + m + 2 <= i < n implies is_digit(#[trigger] t[i]) by {
        assert(t[i] == d[i - l - m - 2]);
    }
    lemma_digits_run(t, 0, l);
    lemma_digits_run(t, l + 1, l + 1 + m);
    lemma_digits_run(t, l + m + 2, n);
    assert(t.subrange(0, l) =~= a);
    assert(t.subrange(l + 1, l + 1 + m) =~= b);
    assert(t.subrange(l + m + 2, n) =~= d);
    assert(is_digit(t[0]));
    assert(is_digit(t[l + m + 2]));
    assert(!record_prefix_at(t, 0)) by {
        if l >= 2 {
            assert(is_digit(t[1]));
        }
    }
}

/// `s:e-c` (a column run and one code, in decimal) is read as the `OR` of
/// the run's columns.
proof fn lemma_run_basic(s: nat, e: nat, c: nat)
    requires
        s <= e <= usize::MAX,
        c <= usize::MAX,
    ensures
        basic_term(nat_str(s) + seq![':'] + nat_str(e) + seq!['-'] + nat_str(c), 0) == Step::Done(
            or_chain(
                col_range(s as usize, e as usize),
                Relation::Has,
                seq![CodeVal::Numeric(norm_code((c % 256) as u8))],
            ),
            (nat_str(s) + seq![':'] + nat_str(e) + seq!['-'] + nat_str(c)).len() as int,
        ),
{
    lemma_run_text(s, e, c);
    lemma_nat_str(s);
    lemma_nat_str(e);
    lemma_nat_str(c);
    let t = nat_str(s) + seq![':'] + nat_str(e) + seq!['-'] + nat_str(c);
    let l = nat_str(s).len() as int;
    let m = nat_str(e).len() as int;
    let n = t.len() as int;
    assert(parse_usize_at(t, 0) == Step::Done(s as usize, l));
    assert(relation_char_at(t, l + 1 + m));
    assert(colon_is_position(t, l));
    assert(parse_usize_at(t, l + 1) == Step::Done(e as usize, l + 1 + m));
    let cols = col_range(s as usize, e as usize);
    assert(Seq::<usize>::empty() + cols =~= cols);
    assert(position_list(t, 0, Seq::empty()) == Step::Done(cols, l + 1 + m));
    assert(cols.len() >= 1);
    assert(skip_ws(t, l + 1 + m) == l + 1 + m);
    assert(relation_at(t, l + 1 + m) == Step::Done(Relation::Has, l + m + 2));
    assert(parse_usize_at(t, l + m + 2) == Step::Done(c as usize, n));
    let codes = seq![CodeVal::Numeric(norm_code((c % 256) as u8))];
    assert(code_spec(t, l + m + 2, Seq::empty()) == Step::Done(codes, n));
}

/// A text that is one primary, first character neither blank nor `N`,
/// parses as it.
proof fn lemma_lift_primary(t: Seq<char>, term: UncleModel)
    requires
        t.len() > 0,
        !is_ascii_ws(t[0]),
        ascii_lower(t[0]) != 'n',
        parse_primary(t, 0) == Step::Done(term, t.len() as int),
    ensures
        parse_spec(t) == Some(Ok::<UncleModel, (int, Seq<char>)>(term)),
{
    let n = t.len() as int;
    assert(skip_ws(t, 0) == 0);
    assert(!keyword_at(t, 0, kw_not())) by {
        assert(ascii_lower(kw_not()[0int]) != ascii_lower(t[0int]));
    }
    assert(parse_unary(t, 0) == Step::Done(term, n));
    assert(skip_ws(t, n) == n);
    assert(and_rest(t, term, n) == Step::Done(term, n));
    assert(parse_and(t, 0) == Step::Done(term, n));
    assert(or_rest(t, term, n) == Step::Done(term, n));
    assert(parse_or(t, 0) == Step::Done(term, n));
}

/// A text that is one basic term, first character a digit, parses as it.
proof fn lemma_lift_term(t: Seq<char>, term: UncleModel)
    requires
        t.len() > 0,
        is_digit(t[0]),
        basic_term(t, 0) == Step::Done(term, t.len() as int),
    ensures
        parse_spec(t) == Some(Ok::<UncleModel, (int, Seq<char>)>(term)),
{
    assert(skip_ws(t, 0) == 0);
    assert(parse_primary(t, 0) == Step::Done(term, t.len() as int));
    lemma_lift_primary(t, term);
}

/// The UNCLE test generated for a one-column, one-response question and a
/// single decimal code reads back as the test of that column for that code.
pub proof fn law_generated_single_column_parses(m: QuestionModel, c: nat)
    requires
        m.width == 1,
        m.max_responses == 1,
        c <= usize::MAX,
    ensures
        parse_spec(gen_text(m, nat_str(c))) == Some(
            Ok::<UncleModel, (int, Seq<char>)>(
                UncleModel::Term {
                    col: m.start_col,
                    relation: Relation::Has,
                    codes: seq![CodeVal::Numeric(norm_code((c % 256) as u8))],
                },
            ),
        ),
{
    reveal(gen_text);
    reveal_strlit("1!");
    reveal_strlit("-");
    let s = m.start_col as nat;
    let t = nat_str(s) + seq!['-'] + nat_str(c);
    assert(gen_text(m, nat_str(c)) =~= seq!['1', '!'] + t);
    lemma_single_text(s, c);
    lemma_single_basic(s, c);
    lemma_lift_term(t, UncleModel::Term {
        col: m.start_col,
        relation: Relation::Has,
        codes: seq![CodeVal::Numeric(norm_code((c % 256) as u8))],
    });
    law_record_prefix_ignored(t);
}

/// The UNCLE test generated for a one-column question with several
/// responses and a single decimal code reads back as the `OR` of the tests
/// of its response columns `start..=start + responses - 1` for that code.
pub proof fn law_generated_column_run_parses(m: QuestionModel, c: nat)
    requires
        m.width == 1,
        m.max_responses >= 2,
        gen_ok(m),
        c <= usize::MAX,
    ensures
        parse_spec(gen_text(m, nat_str(c))) == Some(
            Ok::<UncleModel, (int, Seq<char>)>(
                or_chain(
                    col_range(m.start_col, (m.start_col + m.max_responses - 1) as usize),
                    Relation::Has,
                    seq![CodeVal::Numeric(norm_code((c % 256) as u8))],
                ),
            ),
        ),
{
    reveal(gen_text);
    reveal_strlit("1!");
    reveal_strlit(":");
    reveal_strlit("-");
    let s = m.start_col as nat;
    let e = (m.start_col + m.max_responses - 1) as nat;
    let t = nat_str(s) + seq![':'] + nat_str(e) + seq!['-'] + nat_str(c);
    assert(gen_text(m, nat_str(c)) =~= seq!['1', '!'] + t);
    lemma_run_text(s, e, c);
    lemma_run_basic(s, e, c);
    lemma_lift_term(t, or_chain(
        col_range(m.start_col, (m.start_col + m.max_responses - 1) as usize),
        Relation::Has,
        seq![CodeVal::Numeric(norm_code((c % 256) as u8))],
    ));
    law_record_prefix_ignored(t);
}

/// The characters of `R(1!s:e,c)`.
proof fn lemma_field_text(s: nat, e: nat, c: nat)
    ensures
        ({
            let t = seq!['R', '(', '1', '!'] + nat_str(s) + seq![':'] + nat_str(e) + seq![','] + nat_str(c)
                + seq![')'];
            let l = nat_str(s).len() as int;
            let m = nat_str(e).len() as int;
            let k = nat_str(c).len() as int;
            &&& l >= 1
            &&& m >= 1
            &&& k >= 1
            &&& t.len() == l + m + k + 7
            &&& t[0] == 'R'
            &&& t[1] == '('
            &&& t[2] == '1'
            &&& t[3] == '!'
            &&& t[4 + l] == ':'
            &&& t[5 + l + m] == ','
            &&& t[6 + l + m + k] == ')'
            &&& digits_end(t, 4) == 4 + l
            &&& digits_end(t, 5 + l) == 5 + l + m
            &&& digits_end(t, 6 + l + m) == 6 + l + m + k
            &&& t.subrange(4, 4 + l) == nat_str(s)
            &&& t.subrange(5 + l, 5 + l + m) == nat_str(e)
            &&& t.subrange(6 + l + m, 6 + l + m + k) == nat_str(c)
            &&& is_digit(t[6 + l + m])
        }),
{
    let a = nat_str(s);
    let b = nat_str(e);
    let d = nat_str(c);
    lemma_nat_str(s);
    lemma_nat_str(e);
    lemma_nat_str(c);
    let t = seq!['R', '(', '1', '!'] + a + seq![':'] + b + seq![','] + d + seq![')'];
    let l = a.len() as int;
    let m = b.len() as int;
    let k = d.len() as int;
    assert(t[4 + l] == ':');
    assert(t[5 + l + m] == ',');
    assert(t[6 + l + m + k] == ')');
    assert forall|i: int| 4 <= i < 4 + l implies is_digit(#[trigger] t[i]) by {
        assert(t[i] == a[i - 4]);
    }
    assert forall|i: int| 5 + l <= i < 5 + l + m implies is_digit(#[trigger] t[i]) by {
        assert(t[i] == b[i - l - 5]);
    }
    assert forall|i: int| 6 + l + m <= i < 6 + l + m + k implies is_digit(#[trigger] t[i]) by {
        assert(t[i] == d[i - l - m - 6]);
    }
    lemma_digits_run(t, 4, 4 + l);
    lemma_digits_run(t, 5 + l, 5 + l + m);
    lemma_digits_run(t, 6 + l + m, 6 + l + m + k);
    assert(t.subrange(4, 4 + l) =~= a);
    assert(t.subrange(5 + l, 5 + l + m) =~= b);
    assert(t.subrange(6 + l + m, 6 + l + m + k) =~= d);
    assert(is_digit(t[6 + l + m]));
}

/// `R(1!s:e,c)` is read as the field `s..=e` tested for the value `c`.
proof fn lemma_field_primary(s: nat, e: nat, c: nat)
    requires
        s <= usize::MAX,
        e <= usize::MAX,
        c <= i64::MAX,
    ensures
        ({
            let t = seq!['R', '(', '1', '!'] + nat_str(s) + seq![':'] + nat_str(e) + seq![','] + nat_str(c)
                + seq![')'];
            parse_primary(t, 0) == Step::Done(
                UncleModel::RQual {
                    fields: seq![col_range(s as usize, e as usize)],
                    values: seq![RValue::Single(c as i64)],
                },
                t.len() as int,
            )
        }),
{
    lemma_field_text(s, e, c);
    lemma_nat_str(s);
    lemma_nat_str(e);
    lemma_nat_str(c);
    let t = seq!['R', '(', '1', '!'] + nat_str(s) + seq![':'] + nat_str(e) + seq![','] + nat_str(c) + seq![')'];
    let l = nat_str(s).len() as int;
    let m = nat_str(e).len() as int;
    let k = nat_str(c).len() as int;
    let n = t.len() as int;
    assert(record_prefix_at(t, 2));
    assert(parse_usize_at(t, 4) == Step::Done(s as usize, 4 + l));
    assert(parse_usize_at(t, 5 + l) == Step::Done(e as usize, 5 + l + m));
    assert(field_group(t, 2) == Step::Done((s as usize, e as usize), 5 + l + m));
    let fields = seq![col_range(s as usize, e as usize)];
    assert(Seq::<Seq<usize>>::empty().push(col_range(s as usize, e as usize)) =~= fields);
    assert(r_fields(t, 2, Seq::empty()) == Step::Done(fields, 6 + l + m));
    assert(skip_ws(t, 6 + l + m) == 6 + l + m);
    let q1 = 6 + l + m + k;
    assert(i64_digits(t, "invalid R() value "@, 6 + l + m, q1) == Step::Done(c as i64, q1));
    assert(r_values(t, 6 + l + m, Seq::empty()) == Step::Done(seq![RValue::Single(c as i64)], q1));
    assert(skip_ws(t, q1) == q1);
    assert(consume_at(t, q1, ')') == Step::Done((), n));
    assert(r_body(t, 2) == Step::Done(UncleModel::RQual { fields, values: seq![RValue::Single(c as i64)] }, n));
    assert(skip_ws(t, 0) == 0);
}

/// The UNCLE test generated for a several-column, one-response question
/// and a single decimal value reads back as an `R()` test of the field
/// `start..=start + width - 1` for that value.
pub proof fn law_generated_field_parses(m: QuestionModel, c: nat)
    requires
        m.width >= 2,
        m.max_responses == 1,
        gen_ok(m),
        c <= i64::MAX,
    ensures
        parse_spec(gen_text(m, nat_str(c))) == Some(
            Ok::<UncleModel, (int, Seq<char>)>(
                UncleModel::RQual {
                    fields: seq![col_range(m.start_col, (m.start_col + m.width - 1) as usize)],
                    values: seq![RValue::Single(c as i64)],
                },
            ),
        ),
{
    reveal(gen_text);
    reveal_strlit("R(");
    reveal_strlit("1!");
    reveal_strlit(":");
    reveal_strlit(",");
    reveal_strlit(")");
    let s = m.start_col as nat;
    let e = (m.start_col + m.width - 1) as nat;
    let t = seq!['R', '(', '1', '!'] + nat_str(s) + seq![':'] + nat_str(e) + seq![','] + nat_str(c) + seq![')'];
    assert(gen_text(m, nat_str(c)) =~= t);
    lemma_field_text(s, e, c);
    lemma_field_primary(s, e, c);
    lemma_lift_primary(t, UncleModel::RQual {
        fields: seq![col_range(m.start_col, (m.start_col + m.width - 1) as usize)],
        values: seq![RValue::Single(c as i64)],
    });
}

/// `1!a:b` at `p`, followed by a non-digit, is read as the field group `a..b`.
#[verifier::rlimit(50)]
proof fn lemma_range_piece(t: Seq<char>, p: int, a: usize, b: usize)
    requires
        0 <= p,
        p + range_text(a as int, b as int).len() < t.len(),
        t.subrange(p, p + range_text(a as int, b as int).len()) == range_text(a as int, b as int),
        !is_digit(t[p + range_text(a as int, b as int).len()]),
    ensures
        field_group(t, p) == Step::Done((a, b), p + range_text(a as int, b as int).len()),
        record_prefix_at(t, p),
        parse_usize_at(t, p + 2) == Step::Done(a, p + 2 + nat_str(a as nat).len()),
        t[p + 2 + nat_str(a as nat).len()] == ':',
        parse_usize_at(t, p + 3 + nat_str(a as nat).len()) == Step::Done(b, p + range_text(a as int, b as int).len()),
{
    reveal_strlit("1!");
    reveal_strlit(":");
    let x = nat_str(a as nat);
    let y = nat_str(b as nat);
    lemma_nat_str(a as nat);
    lemma_nat_str(b as nat);
    let r = range_text(a as int, b as int);
    assert(r =~= seq!['1', '!'] + x + seq![':'] + y);
    let l = x.len() as int;
    let m = y.len() as int;
    let e = p + r.len();
    assert forall|i: int| p <= i < e implies #[trigger] t[i] == r[i - p] by {
        assert(t.subrange(p, e)[i - p] == t[i]);
    }
    assert(r[0] == '1' && r[1] == '!' && r[2 + l] == ':');
    assert(t[p] == r[0]);
    assert(t[p + 1] == r[1]);
    assert(t[p + 2 + l] == r[2 + l]);
    assert forall|i: int| p + 2 <= i < p + 2 + l implies is_digit(#[trigger] t[i]) by {
        assert(t[i] == r[i - p]);
        assert(r[i - p] == x[i - p - 2]);
    }
    assert forall|i: int| p + 3 + l <= i < e implies is_digit(#[trigger] t[i]) by {
        assert(t[i] == r[i - p]);
        assert(r[i - p] == y[i - p - 3 - l]);
    }
    lemma_digits_run(t, p + 2, p + 2 + l);
    lemma_digits_run(t, p + 3 + l, e);
    assert(t.subrange(p + 2, p + 2 + l) =~= x) by {
        assert forall|i: int| 0 <= i < l implies t.subrange(p + 2, p + 2 + l)[i] == x[i] by {
            assert(t[p + 2 + i] == r[i + 2]);
        }
    }
    assert(t.subrange(p + 3 + l, e) =~= y) by {
        assert forall|i: int| 0 <= i < m implies t.subrange(p + 3 + l, e)[i] == y[i] by {
            assert(t[p + 3 + l + i] == r[i + 3 + l]);
        }
    }
    assert(record_prefix_at(t, p));
    assert(parse_usize_at(t, p + 2) == Step::Done(a, p + 2 + l));
    assert(parse_usize_at(t, p + 3 + l) == Step::Done(b, e));
}

/// Column range of response slot `k` of a `w`-wide field starting at `s`.
pub open spec fn slot_field(s: int, w: int, k: int) -> Seq<usize> {
    col_range((s + k * w) as usize, (s + k * w + w - 1) as usize)
}

/// Column ranges of response slots `k..n`.
pub open spec fn slot_fields(s: int, w: int, n: int, k: int) -> Seq<Seq<usize>> {
    Seq::new((n - k) as nat, |i: int| slot_field(s, w, k + i))
}

/// Slot `k`'s range text and the slots after it.
pub open spec fn slots_from(s: int, w: int, n: int, k: int) -> Seq<char> {
    range_text(s + k * w, s + k * w + w - 1) + slot_ranges(s, w, n, k + 1)
}

proof fn lemma_slot_bounds(s: int, w: int, n: int, k: int)
    requires
        0 <= s,
        1 <= w,
        0 <= k < n,
        s + n * w <= usize::MAX,
    ensures
        0 <= s + k * w,
        s + k * w + w - 1 <= usize::MAX,
        s + k * w + w <= s + n * w,
{
    assert(k * w + w <= n * w) by (nonlinear_arith)
        requires
            k + 1 <= n,
            1 <= w,
    ;
    assert(0 <= k * w) by (nonlinear_arith)
        requires
            0 <= k,
            1 <= w,
    ;
}

/// The slots `k..n` followed by `,` are read by `r_fields` as their ranges.
#[verifier::rlimit(50)]
proof fn lemma_slots(t: Seq<char>, p: int, s: int, w: int, n: int, k: int, acc: Seq<Seq<usize>>)
    requires
        0 <= p,
        0 <= s,
        2 <= w,
        0 <= k < n,
        s + n * w <= usize::MAX,
        p + slots_from(s, w, n, k).len() < t.len(),
        t.subrange(p, p + slots_from(s, w, n, k).len()) == slots_from(s, w, n, k),
        t[p + slots_from(s, w, n, k).len()] == ',',
    ensures
        r_fields(t, p, acc) == Step::Done(acc + slot_fields(s, w, n, k), p + slots_from(s, w, n, k).len() + 1),
    decreases n - k,
{
    reveal_strlit("/");
    lemma_slot_bounds(s, w, n, k);
    let a = (s + k * w) as usize;
    let b = (s + k * w + w - 1) as usize;
    let r = range_text(a as int, b as int);
    assert(r == range_text(s + k * w, s + k * w + w - 1));
    let rest = slot_ranges(s, w, n, k + 1);
    let x = slots_from(s, w, n, k);
    assert(x == r + rest);
    let e = p + r.len();
    let xs = t.subrange(p, p + x.len());
    assert(t.subrange(p, e) =~= r) by {
        assert forall|i: int| 0 <= i < r.len() implies t.subrange(p, e)[i] == r[i] by {
            assert(xs[i] == t[p + i]);
            assert(x[i] == r[i]);
        }
    }
    let fields2 = acc.push(col_range(a, b));
    assert(col_range(a, b) == slot_field(s, w, k));
    if k + 1 < n {
        lemma_slot_bounds(s, w, n, k + 1);
        let y = slots_from(s, w, n, k + 1);
        assert(rest == seq!['/'] + y);
        assert(x.len() == r.len() + 1 + y.len());
        assert(t[e] == '/') by {
            assert(xs[r.len() as int] == t[e]);
            assert(x[r.len() as int] == '/');
        }
        assert(t.subrange(e + 1, e + 1 + y.len()) =~= y) by {
            assert forall|i: int| 0 <= i < y.len() implies t.subrange(e + 1, e + 1 + y.len())[i] == y[i] by {
                assert(xs[r.len() + 1 + i] == t[e + 1 + i]);
                assert(x[r.len() + 1 + i] == y[i]);
            }
        }
        lemma_range_piece(t, p, a, b);
        assert(field_group(t, p) == Step::Done((a, b), e));
        assert(peek(t, e) == Some('/'));
        lemma_slots(t, e + 1, s, w, n, k + 1, fields2);
        assert(fields2 + slot_fields(s, w, n, k + 1) =~= acc + slot_fields(s, w, n, k)) by {
            assert(slot_fields(s, w, n, k)[0] == slot_field(s, w, k));
            assert forall|i: int| 0 <= i < n - k - 1 implies #[trigger] slot_fields(s, w, n, k + 1)[i]
                == slot_fields(s, w, n, k)[i + 1] by {
                assert(k + 1 + i == k + (i + 1));
            }
        }
    } else {
        assert(rest =~= Seq::<char>::empty());
        assert(x =~= r);
        lemma_range_piece(t, p, a, b);
        assert(slot_fields(s, w, n, k) =~= seq![slot_field(s, w, k)]);
        assert(field_group(t, p) == Step::Done((a, b), e));
        assert(peek(t, e) == Some(','));
        assert(fields2 =~= acc + slot_fields(s, w, n, k));
    }
}

/// The UNCLE test generated for a several-column question with two or three
/// responses and a single decimal value reads back as an `R()` test of the
/// response fields `start + i*width ..= start + i*width + width - 1` for that
/// value.
#[verifier::rlimit(100)]
#[verifier::spinoff_prover]
pub proof fn law_generated_slots_parse(m: QuestionModel, c: nat)
    requires
        m.width >= 2,
        2 <= m.max_responses <= 3,
        gen_ok(m),
        c <= i64::MAX,
    ensures
        parse_spec(gen_text(m, nat_str(c))) == Some(
            Ok::<UncleModel, (int, Seq<char>)>(
                UncleModel::RQual {
                    fields: slot_fields(m.start_col as int, m.width as int, m.max_responses as int, 0),
                    values: seq![RValue::Single(c as i64)],
                },
            ),
        ),
{
    reveal(gen_text);
    reveal_strlit("R(");
    reveal_strlit(",");
    reveal_strlit(")");
    let s = m.start_col as int;
    let w = m.width as int;
    let n = m.max_responses as int;
    let x = slot_ranges(s, w, n, 0);
    assert(x =~= slots_from(s, w, n, 0));
    let d = nat_str(c);
    lemma_nat_str(c);
    let t = seq!['R', '('] + x + seq![','] + d + seq![')'];
    assert(gen_text(m, d) =~= t);
    let l = x.len() as int;
    let k = d.len() as int;
    let nn = t.len() as int;
    assert(nn == l + k + 4);
    assert(t.subrange(2, 2 + l) =~= x);
    assert(t[2 + l] == ',');
    lemma_slots(t, 2, s, w, n, 0, Seq::empty());
    let fields = slot_fields(s, w, n, 0);
    assert(Seq::<Seq<usize>>::empty() + fields =~= fields);
    assert(r_fields(t, 2, Seq::empty()) == Step::Done(fields, 3 + l));
    lemma_r_tail(x, c, fields);
}

/// `R(` field groups `,c)`, where `r_fields` reads the groups up to the
/// comma, parses as the `R()` test of those fields for the value `c`.
proof fn lemma_r_tail(x: Seq<char>, c: nat, fields: Seq<Seq<usize>>)
    requires
        c <= i64::MAX,
        r_fields(seq!['R', '('] + x + seq![','] + nat_str(c) + seq![')'], 2, Seq::empty())
            == Step::Done(fields, 3 + x.len() as int),
    ensures
        parse_spec(seq!['R', '('] + x + seq![','] + nat_str(c) + seq![')']) == Some(
            Ok::<UncleModel, (int, Seq<char>)>(UncleModel::RQual { fields, values: seq![RValue::Single(c as i64)] }),
        ),
{
    let d = nat_str(c);
    lemma_nat_str(c);
    let t = seq!['R', '('] + x + seq![','] + d + seq![')'];
    let l = x.len() as int;
    let k = d.len() as int;
    let nn = t.len() as int;
    assert(nn == l + k + 4);
    assert forall|i: int| 3 + l <= i < 3 + l + k implies is_digit(#[trigger] t[i]) by {
        assert(t[i] == d[i - 3 - l]);
    }
    assert(t[3 + l + k] == ')');
    lemma_digits_run(t, 3 + l, 3 + l + k);
    assert(t.subrange(3 + l, 3 + l + k) =~= d);
    assert(is_digit(t[3 + l]));
    assert(skip_ws(t, 3 + l) == 3 + l);
    let q1 = 3 + l + k;
    assert(i64_digits(t, "invalid R() value "@, 3 + l, q1) == Step::Done(c as i64, q1));
    assert(r_values(t, 3 + l, Seq::empty()) == Step::Done(seq![RValue::Single(c as i64)], q1));
    assert(skip_ws(t, q1) == q1);
    assert(consume_at(t, q1, ')') == Step::Done((), nn));
    let model = UncleModel::RQual { fields, values: seq![RValue::Single(c as i64)] };
    assert(r_body(t, 2) == Step::Done(model, nn));
    assert(t[0] == 'R');
    assert(t[1] == '(');
    assert(skip_ws(t, 0) == 0);
    assert(parse_primary(t, 0) == Step::Done(model, nn));
    lemma_lift_primary(t, model);
}

/// Response slots `0..j`.
pub open spec fn slot_prefix(s: int, w: int, j: int) -> Seq<Seq<usize>> {
    Seq::new(j as nat, |i: int| slot_field(s, w, i))
}

/// The `...` series from slot `j` on lands on the last slot `n - 1`.
proof fn lemma_expand(s: int, w: int, n: int, j: int)
    requires
        0 <= s,
        1 <= w,
        1 <= j <= n - 1,
        s + n * w <= usize::MAX,
    ensures
        ellipsis_expand(slot_prefix(s, w, j), s + j * w, w, w, s + (n - 1) * w) == Some(
            Ok::<Seq<Seq<usize>>, ()>(slot_prefix(s, w, n)),
        ),
    decreases n - j,
{
    lemma_slot_bounds(s, w, n, j);
    assert(j * w <= (n - 1) * w) by (nonlinear_arith)
        requires
            j <= n - 1,
            1 <= w,
    ;
    assert((j + 1) * w == j * w + w) by (nonlinear_arith);
    assert((n - 1) * w == n * w - w) by (nonlinear_arith);
    let cur = s + j * w;
    let acc2 = slot_prefix(s, w, j).push(col_range(cur as usize, (cur + w - 1) as usize));
    assert(acc2 =~= slot_prefix(s, w, j + 1));
    if j < n - 1 {
        assert((j + 1) * w <= (n - 1) * w) by (nonlinear_arith)
            requires
                j + 1 <= n - 1,
                1 <= w,
        ;
        lemma_expand(s, w, n, j + 1);
        assert(s + (j + 1) * w == cur + w);
    } else {
        assert(j == n - 1);
    }
}

/// The `...` text for `n` slots: the first two, `...`, the last.
pub open spec fn series_text(s: int, w: int, n: int) -> Seq<char> {
    range_text(s, s + w - 1) + seq!['/'] + range_text(s + w, s + w + w - 1) + seq!['.', '.', '.']
        + range_text(s + (n - 1) * w, s + (n - 1) * w + w - 1)
}

/// After the first two slots, the `...` series up to the last slot and the
/// `,` after it make up every slot.
#[verifier::rlimit(60)]
proof fn lemma_series_ellipsis(t: Seq<char>, p: int, s: int, w: int, n: int)
    requires
        0 <= s,
        2 <= w,
        4 <= n,
        s + n * w <= usize::MAX,
        0 <= p,
        ({
            let a = (s + (n - 1) * w) as usize;
            let b = (s + (n - 1) * w + w - 1) as usize;
            let e = p + range_text(a as int, b as int).len();
            &&& a as int == s + (n - 1) * w
            &&& b as int == s + (n - 1) * w + w - 1
            &&& e < t.len()
            &&& t[e] == ','
            &&& record_prefix_at(t, p)
            &&& parse_usize_at(t, p + 2) == Step::Done(a, p + 2 + nat_str(a as nat).len())
            &&& t[p + 2 + nat_str(a as nat).len()] == ':'
            &&& parse_usize_at(t, p + 3 + nat_str(a as nat).len()) == Step::Done(b, e)
        }),
    ensures
        r_ellipsis(t, p, slot_prefix(s, w, 2)) == Step::Done(
            slot_prefix(s, w, n),
            p + range_text(s + (n - 1) * w, s + (n - 1) * w + w - 1).len() + 1,
        ),
{
    lemma_slot_bounds(s, w, n, 0);
    lemma_slot_bounds(s, w, n, 1);
    assert(0 * w == 0);
    assert(1 * w == w);
    let fields2 = slot_prefix(s, w, 2);
    assert(fields2[0] == slot_field(s, w, 0));
    assert(fields2[1] == slot_field(s, w, 1));
    assert(fields2[1].len() == w && fields2[0].len() == w);
    assert(fields2[1][0] == (s + w) as usize);
    assert(fields2[0][0] == s as usize);
    lemma_expand(s, w, n, 2);
    assert(2 * w == w + w);
}

/// `r_fields` reads the `...` text, followed by `,`, as every slot.
#[verifier::rlimit(100)]
#[verifier::spinoff_prover]
proof fn lemma_series_fields(t: Seq<char>, s: int, w: int, n: int)
    requires
        0 <= s,
        2 <= w,
        4 <= n,
        s + n * w <= usize::MAX,
        2 + series_text(s, w, n).len() < t.len(),
        t.subrange(2, 2 + series_text(s, w, n).len() as int) == series_text(s, w, n),
        t[2 + series_text(s, w, n).len() as int] == ',',
    ensures
        r_fields(t, 2, Seq::empty()) == Step::Done(slot_prefix(s, w, n), 3 + series_text(s, w, n).len() as int),
{
    lemma_slot_bounds(s, w, n, 0);
    lemma_slot_bounds(s, w, n, 1);
    lemma_slot_bounds(s, w, n, n - 1);
    assert(0 * w == 0);
    assert(1 * w == w);
    let a0 = s as usize;
    let b0 = (s + w - 1) as usize;
    let a1 = (s + w) as usize;
    let b1 = (s + w + w - 1) as usize;
    let a2 = (s + (n - 1) * w) as usize;
    let b2 = (s + (n - 1) * w + w - 1) as usize;
    let r0 = range_text(a0 as int, b0 as int);
    let r1 = range_text(a1 as int, b1 as int);
    let r2 = range_text(a2 as int, b2 as int);
    let x = series_text(s, w, n);
    assert(x =~= r0 + seq!['/'] + r1 + seq!['.', '.', '.'] + r2);
    let xs = t.subrange(2, 2 + x.len() as int);
    let p0 = 2int;
    let e0 = p0 + r0.len();
    let p1 = e0 + 1;
    let e1 = p1 + r1.len();
    let p2 = e1 + 3;
    let e2 = p2 + r2.len();
    assert(e2 == 2 + x.len());
    assert(t[e0] == '/') by {
        assert(xs[r0.len() as int] == t[e0]);
    }
    assert(t[e1] == '.' && t[e1 + 1] == '.' && t[e1 + 2] == '.') by {
        assert(xs[e1 - 2] == t[e1]);
        assert(xs[e1 - 1] == t[e1 + 1]);
        assert(xs[e1] == t[e1 + 2]);
    }
    assert(t.subrange(p0, e0) =~= r0) by {
        assert forall|i: int| 0 <= i < r0.len() implies t.subrange(p0, e0)[i] == r0[i] by {
            assert(xs[i] == t[p0 + i]);
        }
    }
    assert(t.subrange(p1, e1) =~= r1) by {
        assert forall|i: int| 0 <= i < r1.len() implies t.subrange(p1, e1)[i] == r1[i] by {
            assert(xs[p1 - 2 + i] == t[p1 + i]);
        }
    }
    assert(t.subrange(p2, e2) =~= r2) by {
        assert forall|i: int| 0 <= i < r2.len() implies t.subrange(p2, e2)[i] == r2[i] by {
            assert(xs[p2 - 2 + i] == t[p2 + i]);
        }
    }
    lemma_range_piece(t, p0, a0, b0);
    lemma_range_piece(t, p1, a1, b1);
    lemma_range_piece(t, p2, a2, b2);
    let f0 = col_range(a0, b0);
    let f1 = col_range(a1, b1);
    let fields2 = seq![f0, f1];
    assert(fields2 =~= slot_prefix(s, w, 2));
    assert(f0.len() == w && f1.len() == w);
    assert(f0[0] == a0 && f1[0] == a1);
    lemma_series_ellipsis(t, p2, s, w, n);
    let all = slot_prefix(s, w, n);
    assert(Seq::<Seq<usize>>::empty().push(f0) =~= seq![f0]);
    assert(seq![f0].push(f1) =~= fields2);
    assert(r_fields(t, p1, seq![f0]) == Step::Done(all, e2 + 1));
}

/// The UNCLE test generated for a several-column question with four or
/// more responses (written with `...`) and a single decimal value reads
/// back as an `R()` test of every response field
/// `start + i*width ..= start + i*width + width - 1` for that value.
#[verifier::rlimit(100)]
#[verifier::spinoff_prover]
pub proof fn law_generated_series_parses(m: QuestionModel, c: nat)
    requires
        m.width >= 2,
        m.max_responses >= 4,
        gen_ok(m),
        c <= i64::MAX,
    ensures
        parse_spec(gen_text(m, nat_str(c))) == Some(
            Ok::<UncleModel, (int, Seq<char>)>(
                UncleModel::RQual {
                    fields: slot_prefix(m.start_col as int, m.width as int, m.max_responses as int),
                    values: seq![RValue::Single(c as i64)],
                },
            ),
        ),
{
    reveal(gen_text);
    reveal_strlit("R(");
    reveal_strlit(",");
    reveal_strlit(")");
    reveal_strlit("/");
    reveal_strlit("...");
    let s = m.start_col as int;
    let w = m.width as int;
    let n = m.max_responses as int;
    let x = series_text(s, w, n);
    let d = nat_str(c);
    let t = seq!['R', '('] + x + seq![','] + d + seq![')'];
    assert(gen_text(m, d) =~= t);
    lemma_nat_str(c);
    assert(t.subrange(2, 2 + x.len() as int) =~= x);
    assert(t[2 + x.len() as int] == ',');
    lemma_series_fields(t, s, w, n);
    lemma_r_tail(x, c, slot_prefix(s, w, n));
}
} // verus!
