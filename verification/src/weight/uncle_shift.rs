//! The UNCLE grammar reads its input from a position onward only: text put in
//! front of an input moves every position it reports and changes nothing
//! else. From that follow the laws on the `1!` record prefix and on leading
//! zeros of a first position.

use vstd::prelude::*;

use crate::text::{ascii_lower, dec_value, is_digit};
use crate::weight::uncle::{CodeVal, RValue, UncleModel};
use crate::weight::uncle_grammar::{
    Step, and_rest, basic_term, can_start_term, code_range, code_spec, col_range, colon_is_position,
    comma_is_position, consume_at, digits_end, field_group, i64_digits, keyword_at, kw_and, kw_not,
    kw_or, lemma_digits_end, lemma_skip_ws, literal_string_at, norm_code, or_rest, parse_and,
    parse_or, parse_primary, parse_spec, parse_unary, parse_usize_at, peek, position_list, quote_end,
    r_body, r_ellipsis, r_fields, r_values, record_prefix_at, relation_at, relation_char_at, skip_ws,
};

verus! {

/// `u` is `t` with `k` characters in front of it.
pub open spec fn shifted(u: Seq<char>, t: Seq<char>, k: int) -> bool {
    &&& k >= 0
    &&& u.len() == t.len() + k
    &&& forall|i: int| 0 <= i < t.len() ==> #[trigger] t[i] == u[i + k]
}

/// A step's positions moved on by `k`.
pub open spec fn shift_step<T>(st: Step<T>, k: int) -> Step<T> {
    match st {
        Step::Done(v, q) => Step::Done(v, q + k),
        Step::Fail(q, m) => Step::Fail(q + k, m),
        Step::Crash => Step::Crash,
    }
}

proof fn lemma_peek(u: Seq<char>, t: Seq<char>, k: int, p: int)
    requires
        shifted(u, t, k),
        0 <= p,
    ensures
        peek(u, p + k) == peek(t, p),
{
    if p < t.len() {
        assert(t[p] == u[p + k]);
    }
}

proof fn lemma_sub(u: Seq<char>, t: Seq<char>, k: int, p: int, q: int)
    requires
        shifted(u, t, k),
        0 <= p <= q <= t.len(),
    ensures
        u.subrange(p + k, q + k) == t.subrange(p, q),
{
    assert forall|i: int| 0 <= i < q - p implies u.subrange(p + k, q + k)[i] == t.subrange(p, q)[i] by {
        assert(t[p + i] == u[p + i + k]);
    }
    assert(u.subrange(p + k, q + k) =~= t.subrange(p, q));
}

proof fn lemma_skip_ws_shift(u: Seq<char>, t: Seq<char>, k: int, p: int)
    requires
        shifted(u, t, k),
        0 <= p,
    ensures
        skip_ws(u, p + k) == skip_ws(t, p) + k,
    decreases t.len() - p,
{
    lemma_peek(u, t, k, p);
    if p < t.len() {
        lemma_skip_ws_shift(u, t, k, p + 1);
    }
}

proof fn lemma_digits_shift(u: Seq<char>, t: Seq<char>, k: int, p: int)
    requires
        shifted(u, t, k),
        0 <= p,
    ensures
        digits_end(u, p + k) == digits_end(t, p) + k,
    decreases t.len() - p,
{
    lemma_peek(u, t, k, p);
    if p < t.len() {
        lemma_digits_shift(u, t, k, p + 1);
    }
}

proof fn lemma_scan_ge(s: Seq<char>, p: int)
    ensures
        digits_end(s, p) >= p,
        skip_ws(s, p) >= p,
    decreases s.len() - p,
{
    if 0 <= p < s.len() {
        lemma_scan_ge(s, p + 1);
    }
}

proof fn lemma_usize_shift(u: Seq<char>, t: Seq<char>, k: int, p: int)
    requires
        shifted(u, t, k),
        0 <= p,
    ensures
        parse_usize_at(u, p + k) == shift_step(parse_usize_at(t, p), k),
        parse_usize_at(t, p) matches Step::Done(_, q) ==> q > p,
{
    lemma_peek(u, t, k, p);
    lemma_digits_shift(u, t, k, p);
    lemma_scan_ge(t, p);
    let q = digits_end(t, p);
    if q != p {
        if p <= t.len() {
            lemma_digits_end(t, p);
            lemma_sub(u, t, k, p, q);
        }
    }
}

proof fn lemma_keyword_shift(u: Seq<char>, t: Seq<char>, k: int, p: int, kw: Seq<char>)
    requires
        shifted(u, t, k),
        0 <= p,
    ensures
        keyword_at(u, p + k, kw) == keyword_at(t, p, kw),
{
    lemma_peek(u, t, k, p + kw.len());
    if p + kw.len() <= t.len() {
        assert forall|i: int| 0 <= i < kw.len() implies (ascii_lower(#[trigger] kw[i]) == ascii_lower(u[p + k + i])) == (ascii_lower(kw[i]) == ascii_lower(t[p + i])) by {
            assert(t[p + i] == u[p + i + k]);
        }
    }
}

proof fn lemma_small_shift(u: Seq<char>, t: Seq<char>, k: int, p: int, e: char)
    requires
        shifted(u, t, k),
        0 <= p,
    ensures
        record_prefix_at(u, p + k) == record_prefix_at(t, p),
        consume_at(u, p + k, e) == shift_step(consume_at(t, p, e), k),
        relation_char_at(u, p + k) == relation_char_at(t, p),
        relation_at(u, p + k) == shift_step(relation_at(t, p), k),
{
    lemma_peek(u, t, k, p);
    lemma_peek(u, t, k, p + 1);
}

proof fn lemma_lookahead_shift(u: Seq<char>, t: Seq<char>, k: int, p: int)
    requires
        shifted(u, t, k),
        0 <= p,
    ensures
        colon_is_position(u, p + k) == colon_is_position(t, p),
        comma_is_position(u, p + k) == comma_is_position(t, p),
{
    lemma_digits_shift(u, t, k, p + 1);
    lemma_scan_ge(t, p + 1);
    let i = digits_end(t, p + 1);
    lemma_scan_ge(t, i + 1);
    lemma_small_shift(u, t, k, i, ' ');
    lemma_peek(u, t, k, i);
    lemma_digits_shift(u, t, k, i + 1);
    let i2 = digits_end(t, i + 1);
    lemma_small_shift(u, t, k, i2, ' ');
}

proof fn lemma_positions_shift(u: Seq<char>, t: Seq<char>, k: int, p: int, acc: Seq<usize>)
    requires
        shifted(u, t, k),
        0 <= p,
    ensures
        position_list(u, p + k, acc) == shift_step(position_list(t, p, acc), k),
    decreases t.len() - p,
{
    lemma_usize_shift(u, t, k, p);
    match parse_usize_at(t, p) {
        Step::Done(first, p1) => {
            lemma_peek(u, t, k, p1);
            lemma_lookahead_shift(u, t, k, p1);
            lemma_usize_shift(u, t, k, p1 + 1);
            match parse_usize_at(t, p1 + 1) {
                Step::Done(last, p2) => {
                    lemma_peek(u, t, k, p2);
                    lemma_lookahead_shift(u, t, k, p2);
                    if p < p2 + 1 <= t.len() {
                        lemma_positions_shift(u, t, k, p2 + 1, acc + col_range(first, last));
                    }
                },
                _ => {},
            }
            if p < p1 + 1 <= t.len() {
                lemma_positions_shift(u, t, k, p1 + 1, acc.push(first));
            }
        },
        _ => {},
    }
}

proof fn lemma_codes_shift(u: Seq<char>, t: Seq<char>, k: int, p: int, acc: Seq<CodeVal>)
    requires
        shifted(u, t, k),
        0 <= p,
    ensures
        code_spec(u, p + k, acc) == shift_step(code_spec(t, p, acc), k),
        code_spec(t, p, acc) matches Step::Done(_, q) ==> q >= p,
    decreases t.len() - p,
{
    lemma_peek(u, t, k, p);
    lemma_usize_shift(u, t, k, p);
    match parse_usize_at(t, p) {
        Step::Done(a, p1) => {
            lemma_peek(u, t, k, p1);
            lemma_usize_shift(u, t, k, p1 + 1);
            match parse_usize_at(t, p1 + 1) {
                Step::Done(b, p2) => {
                    lemma_peek(u, t, k, p2);
                },
                _ => {},
            }
        },
        _ => {},
    }
    lemma_peek(u, t, k, p + 1);
    // The first item as `code_spec` reads it; only where it ends matters
    // here, so the failure messages are left out.
    let item: Step<Seq<CodeVal>> = match peek(t, p) {
        Some(c) => if c == '$' {
            Step::Done(acc.push(CodeVal::Blank), p + 1)
        } else if is_digit(c) {
            match parse_usize_at(t, p) {
                Step::Done(a, p1) => {
                    let lo = (a % 256) as u8;
                    if peek(t, p1) == Some(':') {
                        match parse_usize_at(t, p1 + 1) {
                            Step::Done(b, p2) => Step::Done(acc + code_range(lo, (b % 256) as u8), p2),
                            Step::Fail(q, m) => Step::Fail(q, m),
                            Step::Crash => Step::Crash,
                        }
                    } else {
                        Step::Done(acc.push(CodeVal::Numeric(norm_code(lo))), p1)
                    }
                },
                Step::Fail(q, m) => Step::Fail(q, m),
                Step::Crash => Step::Crash,
            }
        } else {
            Step::Fail(p, seq![])
        },
        None => Step::Fail(p, seq![]),
    };
    match item {
        Step::Done(acc2, q) => {
            lemma_peek(u, t, k, q);
            if q >= p && p < q + 1 <= t.len() {
                lemma_codes_shift(u, t, k, q + 1, acc2);
            }
        },
        _ => {},
    }
}

proof fn lemma_quote_shift(u: Seq<char>, t: Seq<char>, k: int, i: int)
    requires
        shifted(u, t, k),
        0 <= i,
    ensures
        quote_end(u, i + k) == (match quote_end(t, i) {
            Some(j) => Some(j + k),
            None => None,
        }),
        quote_end(t, i) matches Some(j) ==> i <= j < t.len(),
    decreases t.len() - i,
{
    lemma_peek(u, t, k, i);
    if i < t.len() {
        lemma_quote_shift(u, t, k, i + 1);
    }
}

proof fn lemma_literal_shift(u: Seq<char>, t: Seq<char>, k: int, p: int)
    requires
        shifted(u, t, k),
        0 <= p,
    ensures
        literal_string_at(u, p + k) == shift_step(literal_string_at(t, p), k),
        literal_string_at(t, p) matches Step::Done(_, q) ==> q > p,
{
    lemma_quote_shift(u, t, k, p + 1);
    if let Some(j) = quote_end(t, p + 1) {
        lemma_sub(u, t, k, p + 1, j);
    }
}

/// A basic term read after text put in front reads as on its own, its
/// positions moved on.
#[verifier::spinoff_prover]
pub proof fn lemma_term_shift(u: Seq<char>, t: Seq<char>, k: int, p: int)
    requires
        shifted(u, t, k),
        0 <= p,
    ensures
        basic_term(u, p + k) == shift_step(basic_term(t, p), k),
        basic_term(t, p) matches Step::Done(_, q) ==> q >= p,
{
    lemma_small_shift(u, t, k, p, ' ');
    let p0 = if record_prefix_at(t, p) { p + 2 } else { p };
    lemma_positions_shift(u, t, k, p0, Seq::empty());
    match position_list(t, p0, Seq::empty()) {
        Step::Done(positions, p1) => {
            lemma_positions_ge(t, p0, Seq::empty());
            lemma_skip_ws_shift(u, t, k, p1);
            lemma_scan_ge(t, p1);
            let q = skip_ws(t, p1);
            lemma_peek(u, t, k, q);
            lemma_literal_shift(u, t, k, q);
            lemma_small_shift(u, t, k, p1, ' ');
            match relation_at(t, p1) {
                Step::Done(rel, p2) => {
                    lemma_codes_shift(u, t, k, p2, Seq::empty());
                },
                _ => {},
            }
        },
        _ => {},
    }
}

proof fn lemma_positions_ge(t: Seq<char>, p: int, acc: Seq<usize>)
    requires
        0 <= p,
    ensures
        position_list(t, p, acc) matches Step::Done(_, q) ==> q >= p,
    decreases t.len() - p,
{
    let u = t;
    lemma_usize_shift(u, t, 0, p);
    match parse_usize_at(t, p) {
        Step::Done(first, p1) => {
            lemma_usize_shift(u, t, 0, p1 + 1);
            match parse_usize_at(t, p1 + 1) {
                Step::Done(last, p2) => {
                    if p < p2 + 1 <= t.len() {
                        lemma_positions_ge(t, p2 + 1, acc + col_range(first, last));
                    }
                },
                _ => {},
            }
            if p < p1 + 1 <= t.len() {
                lemma_positions_ge(t, p1 + 1, acc.push(first));
            }
        },
        _ => {},
    }
}

proof fn lemma_i64_shift(u: Seq<char>, t: Seq<char>, k: int, what: Seq<char>, p: int, q: int)
    requires
        shifted(u, t, k),
        0 <= p <= q <= t.len(),
    ensures
        i64_digits(u, what, p + k, q + k) == shift_step(i64_digits(t, what, p, q), k),
{
    lemma_sub(u, t, k, p, q);
}

proof fn lemma_values_shift(u: Seq<char>, t: Seq<char>, k: int, p: int, acc: Seq<RValue>)
    requires
        shifted(u, t, k),
        0 <= p <= t.len(),
    ensures
        r_values(u, p + k, acc) == shift_step(r_values(t, p, acc), k),
        r_values(t, p, acc) matches Step::Done(_, q) ==> q <= t.len(),
    decreases t.len() - p,
{
    lemma_skip_ws_shift(u, t, k, p);
    lemma_skip_ws(t, p);
    let q = skip_ws(t, p);
    lemma_digits_shift(u, t, k, q);
    lemma_digits_end(t, q);
    let q1 = digits_end(t, q);
    lemma_i64_shift(u, t, k, "invalid R() value "@, q, q1);
    lemma_peek(u, t, k, q1);
    if q1 < t.len() {
        lemma_digits_shift(u, t, k, q1 + 1);
        lemma_digits_end(t, q1 + 1);
        let q2 = digits_end(t, q1 + 1);
        lemma_i64_shift(u, t, k, "invalid R() range end "@, q1 + 1, q2);
        lemma_peek(u, t, k, q2);
        if q2 < t.len() && p < q2 + 1 {
            match i64_digits(t, "invalid R() value "@, q, q1) {
                Step::Done(n, _) => match i64_digits(t, "invalid R() range end "@, q1 + 1, q2) {
                    Step::Done(m, _) => {
                        lemma_values_shift(u, t, k, q2 + 1, acc.push(RValue::Range(n, m)));
                    },
                    _ => {},
                },
                _ => {},
            }
        }
        if p < q1 + 1 {
            match i64_digits(t, "invalid R() value "@, q, q1) {
                Step::Done(n, _) => {
                    lemma_values_shift(u, t, k, q1 + 1, acc.push(RValue::Single(n)));
                },
                _ => {},
            }
        }
    }
}

proof fn lemma_group_shift(u: Seq<char>, t: Seq<char>, k: int, p: int)
    requires
        shifted(u, t, k),
        0 <= p,
    ensures
        field_group(u, p + k) == shift_step(field_group(t, p), k),
        field_group(t, p) matches Step::Done(_, q) ==> q > p,
{
    lemma_small_shift(u, t, k, p, ' ');
    let p0 = if record_prefix_at(t, p) { p + 2 } else { p };
    lemma_usize_shift(u, t, k, p0);
    if let Step::Done(a, p1) = parse_usize_at(t, p0) {
        lemma_peek(u, t, k, p1);
        lemma_usize_shift(u, t, k, p1 + 1);
    }
}

#[verifier::spinoff_prover]
proof fn lemma_ellipsis_shift(u: Seq<char>, t: Seq<char>, k: int, p: int, fields: Seq<Seq<usize>>)
    requires
        shifted(u, t, k),
        0 <= p,
    ensures
        r_ellipsis(u, p + k, fields) == shift_step(r_ellipsis(t, p, fields), k),
        r_ellipsis(t, p, fields) matches Step::Done(_, q) ==> q <= t.len(),
{
    lemma_small_shift(u, t, k, p, ' ');
    let p0 = if record_prefix_at(t, p) { p + 2 } else { p };
    lemma_usize_shift(u, t, k, p0);
    if let Step::Done(last, p1) = parse_usize_at(t, p0) {
        lemma_peek(u, t, k, p1);
        lemma_usize_shift(u, t, k, p1 + 1);
        lemma_small_shift(u, t, k, p1, ',');
        if let Step::Done(_, p2) = parse_usize_at(t, p1 + 1) {
            lemma_small_shift(u, t, k, p2, ',');
        }
    }
}

proof fn lemma_fields_shift(u: Seq<char>, t: Seq<char>, k: int, p: int, fields: Seq<Seq<usize>>)
    requires
        shifted(u, t, k),
        0 <= p,
    ensures
        r_fields(u, p + k, fields) == shift_step(r_fields(t, p, fields), k),
        r_fields(t, p, fields) matches Step::Done(_, q) ==> q <= t.len(),
    decreases t.len() - p,
{
    lemma_group_shift(u, t, k, p);
    if let Step::Done((a, b), p2) = field_group(t, p) {
        let fields2 = fields.push(col_range(a, b));
        lemma_peek(u, t, k, p2);
        lemma_peek(u, t, k, p2 + 1);
        lemma_peek(u, t, k, p2 + 2);
        lemma_ellipsis_shift(u, t, k, p2 + 3, fields2);
        if p < p2 + 1 <= t.len() {
            lemma_fields_shift(u, t, k, p2 + 1, fields2);
        }
    }
}

proof fn lemma_body_shift(u: Seq<char>, t: Seq<char>, k: int, p: int)
    requires
        shifted(u, t, k),
        0 <= p,
    ensures
        r_body(u, p + k) == shift_step(r_body(t, p), k),
        r_body(t, p) matches Step::Done(_, q) ==> q >= p,
{
    lemma_fields_shift(u, t, k, p, Seq::empty());
    if let Step::Done(fields, p1) = r_fields(t, p, Seq::empty()) {
        lemma_fields_ge(t, p, Seq::empty());
        lemma_values_shift(u, t, k, p1, Seq::empty());
        if let Step::Done(values, p2) = r_values(t, p1, Seq::empty()) {
            lemma_values_ge(t, p1, Seq::empty());
            lemma_skip_ws_shift(u, t, k, p2);
            lemma_scan_ge(t, p2);
            lemma_small_shift(u, t, k, skip_ws(t, p2), ')');
        }
    }
}

proof fn lemma_fields_ge(t: Seq<char>, p: int, fields: Seq<Seq<usize>>)
    requires
        0 <= p,
    ensures
        r_fields(t, p, fields) matches Step::Done(_, q) ==> q >= p,
    decreases t.len() - p,
{
    lemma_group_shift(t, t, 0, p);
    if let Step::Done((a, b), p2) = field_group(t, p) {
        let fields2 = fields.push(col_range(a, b));
        lemma_ellipsis_ge(t, p2 + 3, fields2);
        if p < p2 + 1 <= t.len() {
            lemma_fields_ge(t, p2 + 1, fields2);
        }
    }
}

proof fn lemma_ellipsis_ge(t: Seq<char>, p: int, fields: Seq<Seq<usize>>)
    requires
        0 <= p,
    ensures
        r_ellipsis(t, p, fields) matches Step::Done(_, q) ==> q >= p,
{
    let p0 = if record_prefix_at(t, p) { p + 2 } else { p };
    lemma_usize_shift(t, t, 0, p0);
    if let Step::Done(last, p1) = parse_usize_at(t, p0) {
        lemma_usize_shift(t, t, 0, p1 + 1);
    }
}

proof fn lemma_values_ge(t: Seq<char>, p: int, acc: Seq<RValue>)
    requires
        0 <= p,
    ensures
        r_values(t, p, acc) matches Step::Done(_, q) ==> q >= p,
    decreases t.len() - p,
{
    lemma_scan_ge(t, p);
    let q = skip_ws(t, p);
    lemma_scan_ge(t, q);
    let q1 = digits_end(t, q);
    lemma_scan_ge(t, q1 + 1);
    let q2 = digits_end(t, q1 + 1);
    match i64_digits(t, "invalid R() value "@, q, q1) {
        Step::Done(n, _) => {
            match i64_digits(t, "invalid R() range end "@, q1 + 1, q2) {
                Step::Done(m, _) => {
                    if p < q2 + 1 <= t.len() {
                        lemma_values_ge(t, q2 + 1, acc.push(RValue::Range(n, m)));
                    }
                },
                _ => {},
            }
            if p < q1 + 1 <= t.len() {
                lemma_values_ge(t, q1 + 1, acc.push(RValue::Single(n)));
            }
        },
        _ => {},
    }
}

/// Whether a term can start reads the same after text put in front.
pub proof fn lemma_start_shift(u: Seq<char>, t: Seq<char>, k: int, q: int)
    requires
        shifted(u, t, k),
        0 <= q,
    ensures
        can_start_term(u, q + k) == can_start_term(t, q),
{
    lemma_peek(u, t, k, q);
    lemma_peek(u, t, k, q + 1);
    lemma_peek(u, t, k, q + 3);
    if q < t.len() {
        lemma_sub(u, t, k, q, t.len() as int);
        assert(u.len() as int == t.len() + k);
    }
}

/// An `OR` chain read after text put in front reads as on its own, its
/// positions moved on.
pub proof fn lemma_or_shift(u: Seq<char>, t: Seq<char>, k: int, p: int)
    requires
        shifted(u, t, k),
        0 <= p,
    ensures
        parse_or(u, p + k) == shift_step(parse_or(t, p), k),
        parse_or(t, p) matches Step::Done(_, q) ==> q >= p,
    decreases t.len() - p, 5nat,
{
    if p <= t.len() {
        lemma_and_shift(u, t, k, p);
        if let Step::Done(left, p1) = parse_and(t, p) {
            if p <= p1 <= t.len() {
                lemma_or_rest_shift(u, t, k, left, p1);
            }
        }
    }
}

#[verifier::spinoff_prover]
proof fn lemma_or_rest_shift(u: Seq<char>, t: Seq<char>, k: int, left: UncleModel, p: int)
    requires
        shifted(u, t, k),
        0 <= p,
    ensures
        or_rest(u, left, p + k) == shift_step(or_rest(t, left, p), k),
        or_rest(t, left, p) matches Step::Done(_, q) ==> q >= p,
    decreases t.len() - p, 4nat,
{
    if p <= t.len() {
        lemma_skip_ws_shift(u, t, k, p);
        lemma_scan_ge(t, p);
        let q = skip_ws(t, p);
        lemma_keyword_shift(u, t, k, q, kw_or());
        if keyword_at(t, q, kw_or()) {
            lemma_skip_ws_shift(u, t, k, q + 2);
            lemma_scan_ge(t, q + 2);
            let q2 = skip_ws(t, q + 2);
            if p < q2 <= t.len() {
                lemma_and_shift(u, t, k, q2);
                if let Step::Done(right, p2) = parse_and(t, q2) {
                    if q2 <= p2 <= t.len() {
                        lemma_or_rest_shift(u, t, k, UncleModel::Or(Box::new(left), Box::new(right)), p2);
                    }
                }
            }
        }
    }
}

/// An `AND` chain read after text put in front reads as on its own, its
/// positions moved on.
pub proof fn lemma_and_shift(u: Seq<char>, t: Seq<char>, k: int, p: int)
    requires
        shifted(u, t, k),
        0 <= p,
    ensures
        parse_and(u, p + k) == shift_step(parse_and(t, p), k),
        parse_and(t, p) matches Step::Done(_, q) ==> q >= p,
    decreases t.len() - p, 3nat,
{
    if p <= t.len() {
        lemma_unary_shift(u, t, k, p);
        if let Step::Done(left, p1) = parse_unary(t, p) {
            if p <= p1 <= t.len() {
                lemma_and_rest_shift(u, t, k, left, p1);
            }
        }
    }
}

#[verifier::spinoff_prover]
proof fn lemma_and_rest_shift(u: Seq<char>, t: Seq<char>, k: int, left: UncleModel, p: int)
    requires
        shifted(u, t, k),
        0 <= p,
    ensures
        and_rest(u, left, p + k) == shift_step(and_rest(t, left, p), k),
        and_rest(t, left, p) matches Step::Done(_, q) ==> q >= p,
    decreases t.len() - p, 2nat,
{
    if p <= t.len() {
        lemma_skip_ws_shift(u, t, k, p);
        lemma_scan_ge(t, p);
        let q = skip_ws(t, p);
        lemma_peek(u, t, k, q);
        lemma_keyword_shift(u, t, k, q, kw_or());
        lemma_keyword_shift(u, t, k, q, kw_and());
        lemma_skip_ws_shift(u, t, k, q + 3);
        lemma_scan_ge(t, q + 3);
        let explicit = keyword_at(t, q, kw_and());
        let q2 = if explicit { skip_ws(t, q + 3) } else { q };
        lemma_start_shift(u, t, k, q2);
        if p <= q2 <= t.len() {
            lemma_unary_shift(u, t, k, q2);
            if let Step::Done(right, p2) = parse_unary(t, q2) {
                if p < p2 <= t.len() {
                    lemma_and_rest_shift(u, t, k, UncleModel::And(Box::new(left), Box::new(right)), p2);
                }
            }
        }
    }
}

/// A unary term read after text put in front reads as on its own, its
/// positions moved on.
#[verifier::spinoff_prover]
pub proof fn lemma_unary_shift(u: Seq<char>, t: Seq<char>, k: int, p: int)
    requires
        shifted(u, t, k),
        0 <= p,
    ensures
        parse_unary(u, p + k) == shift_step(parse_unary(t, p), k),
        parse_unary(t, p) matches Step::Done(_, q) ==> q >= p,
    decreases t.len() - p, 1nat,
{
    if p <= t.len() {
        lemma_skip_ws_shift(u, t, k, p);
        lemma_scan_ge(t, p);
        let q = skip_ws(t, p);
        lemma_keyword_shift(u, t, k, q, kw_not());
        if keyword_at(t, q, kw_not()) {
            lemma_skip_ws_shift(u, t, k, q + 3);
            lemma_scan_ge(t, q + 3);
            let q1 = skip_ws(t, q + 3);
            lemma_peek(u, t, k, q1);
            let has_paren = peek(t, q1) == Some('(');
            let q2 = if has_paren { q1 + 1 } else { q1 };
            lemma_skip_ws_shift(u, t, k, q2);
            lemma_scan_ge(t, q2);
            let q3 = skip_ws(t, q2);
            if p < q3 <= t.len() {
                lemma_or_shift(u, t, k, q3);
                if let Step::Done(inner, p1) = parse_or(t, q3) {
                    lemma_skip_ws_shift(u, t, k, p1);
                    lemma_scan_ge(t, p1);
                    lemma_small_shift(u, t, k, skip_ws(t, p1), ')');
                }
            }
        } else if p <= q <= t.len() {
            lemma_primary_shift(u, t, k, q);
        }
    }
}

#[verifier::spinoff_prover]
proof fn lemma_primary_shift(u: Seq<char>, t: Seq<char>, k: int, p: int)
    requires
        shifted(u, t, k),
        0 <= p,
    ensures
        parse_primary(u, p + k) == shift_step(parse_primary(t, p), k),
        parse_primary(t, p) matches Step::Done(_, q) ==> q >= p,
    decreases t.len() - p, 0nat,
{
    if p <= t.len() {
        lemma_skip_ws_shift(u, t, k, p);
        lemma_scan_ge(t, p);
        let q = skip_ws(t, p);
        lemma_peek(u, t, k, q);
        lemma_peek(u, t, k, q + 1);
        if peek(t, q) == Some('(') {
            if p < q + 1 <= t.len() {
                lemma_or_shift(u, t, k, q + 1);
                if let Step::Done(inner, p1) = parse_or(t, q + 1) {
                    lemma_skip_ws_shift(u, t, k, p1);
                    lemma_scan_ge(t, p1);
                    lemma_small_shift(u, t, k, skip_ws(t, p1), ')');
                }
            }
        } else if peek(t, q) == Some('R') && peek(t, q + 1) == Some('(') {
            lemma_body_shift(u, t, k, q + 2);
        } else {
            lemma_term_shift(u, t, k, q);
        }
    }
}

/// A whole-input parse outcome with its error position moved on by `k`.
pub open spec fn shift_outcome(r: Option<Result<UncleModel, (int, Seq<char>)>>, k: int) -> Option<
    Result<UncleModel, (int, Seq<char>)>,
> {
    match r {
        Some(Ok(e)) => Some(Ok(e)),
        Some(Err((q, m))) => Some(Err((q + k, m))),
        None => None,
    }
}

/// When the first terms of `u` and `t` agree up to a shift, the whole
/// parses do.
proof fn lemma_first_term_lifts(u: Seq<char>, t: Seq<char>, k: int)
    requires
        shifted(u, t, k),
        t.len() > 0,
        is_digit(t[0]),
        u.len() > 0,
        is_digit(u[0]),
        basic_term(u, 0) == shift_step(basic_term(t, 0), k),
    ensures
        parse_spec(u) == shift_outcome(parse_spec(t), k),
{
    lemma_term_shift(u, t, k, 0);
    lemma_keyword_shift(t, t, 0, 0, kw_not());
    lemma_keyword_shift(u, u, 0, 0, kw_not());
    assert(!keyword_at(t, 0, kw_not())) by {
        assert(ascii_lower(kw_not()[0int]) != ascii_lower(t[0int]));
    }
    assert(!keyword_at(u, 0, kw_not())) by {
        assert(ascii_lower(kw_not()[0int]) != ascii_lower(u[0int]));
    }
    assert(parse_unary(t, 0) == basic_term(t, 0));
    assert(parse_unary(u, 0) == basic_term(u, 0));
    if let Step::Done(left, p1) = basic_term(t, 0) {
        if p1 <= t.len() {
            lemma_and_rest_shift(u, t, k, left, p1);
        }
    }
    lemma_and_shift(t, t, 0, 0);
    assert(parse_and(u, 0) == shift_step(parse_and(t, 0), k));
    if let Step::Done(left, p1) = parse_and(t, 0) {
        if p1 <= t.len() {
            lemma_or_rest_shift(u, t, k, left, p1);
        }
    }
    lemma_or_shift(t, t, 0, 0);
    assert(parse_or(u, 0) == shift_step(parse_or(t, 0), k));
    if let Step::Done(e, p) = parse_or(t, 0) {
        lemma_skip_ws_shift(u, t, k, p);
        lemma_scan_ge(t, p);
        let q = skip_ws(t, p);
        if q < t.len() {
            lemma_sub(u, t, k, q, t.len() as int);
        }
    }
}

/// The `1!` record prefix in front of an expression's first term changes
/// nothing but the error positions, which move on by its two characters.
pub proof fn law_record_prefix_ignored(t: Seq<char>)
    requires
        t.len() > 0,
        is_digit(t[0]),
        !record_prefix_at(t, 0),
    ensures
        parse_spec(seq!['1', '!'] + t) == shift_outcome(parse_spec(t), 2),
{
    let u = seq!['1', '!'] + t;
    assert(shifted(u, t, 2));
    lemma_small_shift(u, t, 2, 0, ' ');
    assert(record_prefix_at(u, 0));
    assert(basic_term(u, 0) == basic_term(u, 2));
    lemma_term_shift(u, t, 2, 0);
    lemma_first_term_lifts(u, t, 2);
}

proof fn lemma_dec_leading_zero(d: Seq<char>)
    ensures
        dec_value(seq!['0'] + d) == dec_value(d),
    decreases d.len(),
{
    if d.len() > 0 {
        assert((seq!['0'] + d).drop_last() =~= seq!['0'] + d.drop_last());
        assert((seq!['0'] + d).last() == d.last());
        lemma_dec_leading_zero(d.drop_last());
    } else {
        assert(seq!['0'] + d =~= seq!['0']);
        assert(seq!['0'].drop_last() =~= Seq::<char>::empty());
        reveal_with_fuel(dec_value, 2);
    }
}

/// The position list of `0` + `t` is that of `t`, one character later.
proof fn lemma_zero_positions(u: Seq<char>, t: Seq<char>)
    requires
        u == seq!['0'] + t,
        t.len() > 0,
        is_digit(t[0]),
        dec_value(t.subrange(0, digits_end(t, 0))) <= usize::MAX,
    ensures
        position_list(u, 0, Seq::empty()) == shift_step(position_list(t, 0, Seq::empty()), 1),
{
    assert(shifted(u, t, 1));
    // The first number reads the same, one character later.
    lemma_digits_shift(u, t, 1, 0);
    lemma_digits_end(t, 0);
    let q = digits_end(t, 0);
    assert(digits_end(u, 0) == q + 1);
    assert(u.subrange(0, q + 1) =~= seq!['0'] + t.subrange(0, q));
    lemma_dec_leading_zero(t.subrange(0, q));
    assert(parse_usize_at(u, 0) == shift_step(parse_usize_at(t, 0), 1));
    // The rest of the position list, as in `lemma_positions_shift`.
    let acc = Seq::<usize>::empty();
    if let Step::Done(first, p1) = parse_usize_at(t, 0) {
        lemma_peek(u, t, 1, p1);
        lemma_lookahead_shift(u, t, 1, p1);
        lemma_usize_shift(u, t, 1, p1 + 1);
        if let Step::Done(last, p2) = parse_usize_at(t, p1 + 1) {
            lemma_peek(u, t, 1, p2);
            lemma_lookahead_shift(u, t, 1, p2);
            if p2 + 1 <= t.len() {
                lemma_positions_shift(u, t, 1, p2 + 1, acc + col_range(first, last));
            }
        }
        if p1 + 1 <= t.len() {
            lemma_positions_shift(u, t, 1, p1 + 1, acc.push(first));
        }
    }
}

/// A leading zero on an expression's first position changes nothing but
/// the error positions, which move on by one; the number must fit in
/// `usize` (else the error message quotes the digits as written).
pub proof fn law_leading_zero_ignored(t: Seq<char>)
    requires
        t.len() > 0,
        is_digit(t[0]),
        !record_prefix_at(t, 0),
        dec_value(t.subrange(0, digits_end(t, 0))) <= usize::MAX,
    ensures
        parse_spec(seq!['0'] + t) == shift_outcome(parse_spec(t), 1),
{
    let u = seq!['0'] + t;
    let acc = Seq::<usize>::empty();
    assert(shifted(u, t, 1));
    lemma_small_shift(u, t, 1, 0, ' ');
    lemma_zero_positions(u, t);
    assert(position_list(u, 0, acc) == shift_step(position_list(t, 0, acc), 1));
    // The rest of the term, as in `lemma_term_shift`.
    if let Step::Done(positions, p1) = position_list(t, 0, acc) {
        lemma_positions_ge(t, 0, acc);
        lemma_skip_ws_shift(u, t, 1, p1);
        lemma_scan_ge(t, p1);
        let q1 = skip_ws(t, p1);
        lemma_peek(u, t, 1, q1);
        lemma_literal_shift(u, t, 1, q1);
        lemma_small_shift(u, t, 1, p1, ' ');
        if let Step::Done(rel, p2) = relation_at(t, p1) {
            lemma_codes_shift(u, t, 1, p2, Seq::empty());
        }
    }
    assert(basic_term(u, 0) == shift_step(basic_term(t, 0), 1));
    lemma_first_term_lifts(u, t, 1);
}

} // verus!
