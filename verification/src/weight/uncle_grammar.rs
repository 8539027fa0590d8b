//! What the UNCLE parser accepts and builds, stated over the input's
//! characters and a position in them.
//!
//! Each function reads from position `p` and gives the value it parsed and
//! the position after it, a parse error (with the position the parser had
//! reached and the message), or `Crash` for the inputs on which parsing
//! cannot complete (an empty position range, an `R()` field series whose
//! arithmetic leaves `usize`).

use vstd::prelude::*;

use crate::text::{
    ascii_lower, char_is_alphanumeric, debug_char, debug_opt_char, debug_str, dec_value, is_ascii_ws,
    is_digit, nat_str, uppercase,
};
use crate::weight::uncle::{CodeVal, RValue, Relation, UncleModel};

verus! {

/// Outcome of reading one construct at a position.
pub enum Step<T> {
    Done(T, int),
    Fail(int, Seq<char>),
    Crash,
}

pub open spec fn peek(s: Seq<char>, p: int) -> Option<char> {
    if 0 <= p < s.len() {
        Some(s[p])
    } else {
        None
    }
}

pub open spec fn skip_ws(s: Seq<char>, p: int) -> int
    decreases s.len() - p,
{
    if 0 <= p < s.len() && is_ascii_ws(s[p]) {
        skip_ws(s, p + 1)
    } else {
        p
    }
}

pub open spec fn digits_end(s: Seq<char>, p: int) -> int
    decreases s.len() - p,
{
    if 0 <= p < s.len() && is_digit(s[p]) {
        digits_end(s, p + 1)
    } else {
        p
    }
}

/// Case-insensitive keyword followed by a word boundary.
pub open spec fn keyword_at(s: Seq<char>, p: int, kw: Seq<char>) -> bool {
    &&& 0 <= p
    &&& p + kw.len() <= s.len()
    &&& forall|i: int| 0 <= i < kw.len() ==> ascii_lower(#[trigger] kw[i]) == ascii_lower(s[p + i])
    &&& !(p + kw.len() < s.len() && char_is_alphanumeric(s[p + kw.len()]))
}

pub open spec fn kw_or() -> Seq<char> {
    seq!['O', 'R']
}

pub open spec fn kw_and() -> Seq<char> {
    seq!['A', 'N', 'D']
}

pub open spec fn kw_not() -> Seq<char> {
    seq!['N', 'O', 'T']
}

pub open spec fn record_prefix_at(s: Seq<char>, p: int) -> bool {
    peek(s, p) == Some('1') && peek(s, p + 1) == Some('!')
}

/// A run of digits read as `usize`.
pub open spec fn parse_usize_at(s: Seq<char>, p: int) -> Step<usize> {
    let q = digits_end(s, p);
    if q == p {
        Step::Fail(p, "expected a number, got "@ + debug_opt_char(peek(s, p)))
    } else if dec_value(s.subrange(p, q)) > usize::MAX {
        Step::Fail(q, "invalid number "@ + debug_str(s.subrange(p, q)) + ": number too large to fit in target type"@)
    } else {
        Step::Done(dec_value(s.subrange(p, q)) as usize, q)
    }
}

pub open spec fn consume_at(s: Seq<char>, p: int, e: char) -> Step<()> {
    match peek(s, p) {
        Some(c) => if c == e {
            Step::Done((), p + 1)
        } else {
            Step::Fail(p, "expected "@ + debug_char(e) + ", got "@ + debug_char(c))
        },
        None => Step::Fail(p, "expected "@ + debug_char(e) + ", got end of input"@),
    }
}

/// Columns `lo..=hi`.
pub open spec fn col_range(lo: usize, hi: usize) -> Seq<usize> {
    Seq::new(if lo <= hi { (hi - lo + 1) as nat } else { 0 }, |i: int| (lo + i) as usize)
}

pub open spec fn norm_code(raw: u8) -> u8 {
    if raw == 10 { 0 } else { raw }
}

/// Codes for raw values `lo..=hi` (10 stands for 0).
pub open spec fn code_range(lo: u8, hi: u8) -> Seq<CodeVal> {
    Seq::new(if lo <= hi { (hi - lo + 1) as nat } else { 0 }, |i: int| CodeVal::Numeric(norm_code((lo + i) as u8)))
}

/// `Term`s for several positions joined into a left-leaning `OR` chain.
pub open spec fn or_chain(cols: Seq<usize>, rel: Relation, codes: Seq<CodeVal>) -> UncleModel
    decreases cols.len(),
{
    if cols.len() <= 1 {
        UncleModel::Term { col: cols[0], relation: rel, codes }
    } else {
        UncleModel::Or(
            Box::new(or_chain(cols.drop_last(), rel, codes)),
            Box::new(UncleModel::Term { col: cols.last(), relation: rel, codes }),
        )
    }
}

pub open spec fn relation_char_at(s: Seq<char>, i: int) -> bool {
    match peek(s, i) {
        Some(c) => c == '-' || c == '=' || (c == 'N' && match peek(s, i + 1) {
            Some(d) => is_digit(d) || d == '$' || d == ',',
            None => false,
        }),
        None => false,
    }
}

/// After a `:` at `p`: is it a position range (a relation follows its number)?
pub open spec fn colon_is_position(s: Seq<char>, p: int) -> bool {
    let i = digits_end(s, p + 1);
    i < s.len() && relation_char_at(s, i)
}

/// After a `,` at `p`: is it a position separator?
pub open spec fn comma_is_position(s: Seq<char>, p: int) -> bool {
    let i0 = digits_end(s, p + 1);
    let i = if peek(s, i0) == Some(':') { digits_end(s, i0 + 1) } else { i0 };
    i < s.len() && relation_char_at(s, i)
}

/// Position list: `n`, `n:m`, separated by `,`.
pub open spec fn position_list(s: Seq<char>, p: int, acc: Seq<usize>) -> Step<Seq<usize>>
    decreases s.len() - p,
{
    match parse_usize_at(s, p) {
        Step::Done(first, p1) => {
            if peek(s, p1) == Some(':') {
                if colon_is_position(s, p1) {
                    match parse_usize_at(s, p1 + 1) {
                        Step::Done(last, p2) => {
                            let acc2 = acc + col_range(first, last);
                            if peek(s, p2) == Some(',') && comma_is_position(s, p2) {
                                if p < p2 + 1 <= s.len() {
                                    position_list(s, p2 + 1, acc2)
                                } else {
                                    Step::Crash
                                }
                            } else {
                                Step::Done(acc2, p2)
                            }
                        },
                        Step::Fail(q, m) => Step::Fail(q, m),
                        Step::Crash => Step::Crash,
                    }
                } else {
                    Step::Done(acc.push(first), p1)
                }
            } else if peek(s, p1) == Some(',') && comma_is_position(s, p1) {
                if p < p1 + 1 <= s.len() {
                    position_list(s, p1 + 1, acc.push(first))
                } else {
                    Step::Crash
                }
            } else {
                Step::Done(acc.push(first), p1)
            }
        },
        Step::Fail(q, m) => Step::Fail(q, m),
        Step::Crash => Step::Crash,
    }
}

pub open spec fn relation_at(s: Seq<char>, p: int) -> Step<Relation> {
    match peek(s, p) {
        Some(c) => if c == '-' {
            Step::Done(Relation::Has, p + 1)
        } else if c == '=' {
            Step::Done(Relation::Exclusive, p + 1)
        } else if c == 'N' {
            Step::Done(Relation::NotHas, p + 1)
        } else {
            Step::Fail(p, "expected relation (-, =, N), got "@ + debug_opt_char(peek(s, p)))
        },
        None => Step::Fail(p, "expected relation (-, =, N), got "@ + debug_opt_char(None)),
    }
}

/// Code list: `$`, `n`, `n:m`, separated by `,`.
pub open spec fn code_spec(s: Seq<char>, p: int, acc: Seq<CodeVal>) -> Step<Seq<CodeVal>>
    decreases s.len() - p,
{
    let item: Step<Seq<CodeVal>> = match peek(s, p) {
        Some(c) => if c == '$' {
            Step::Done(acc.push(CodeVal::Blank), p + 1)
        } else if is_digit(c) {
            match parse_usize_at(s, p) {
                Step::Done(a, p1) => {
                    let lo = (a % 256) as u8;
                    if peek(s, p1) == Some(':') {
                        match parse_usize_at(s, p1 + 1) {
                            Step::Done(b, p2) => Step::Done(acc + code_range(lo, (b % 256) as u8), p2),
                            Step::Fail(q, m) => Step::Fail(q, m),
                            Step::Crash => Step::Crash,
                        }
                    } else {
                        Step::Done(acc.push(CodeVal::Numeric(norm_code(lo))), p1)
                    }
                },
                Step::Fail(q, m) => Step::Fail(q, m),
                Step::Crash => Step::Crash,
            }
        } else {
            Step::Fail(p, "expected code (digit or $), got "@ + debug_opt_char(peek(s, p)))
        },
        None => Step::Fail(p, "expected code (digit or $), got "@ + debug_opt_char(None)),
    };
    match item {
        Step::Done(acc2, q) => if peek(s, q) == Some(',') {
            if p < q + 1 <= s.len() {
                code_spec(s, q + 1, acc2)
            } else {
                Step::Crash
            }
        } else if acc2.len() == 0 {
            Step::Fail(q, "empty code specification"@)
        } else {
            Step::Done(acc2, q)
        },
        Step::Fail(q, m) => Step::Fail(q, m),
        Step::Crash => Step::Crash,
    }
}

/// First `'` at or after `i`, if any.
pub open spec fn quote_end(s: Seq<char>, i: int) -> Option<int>
    decreases s.len() - i,
{
    if 0 <= i < s.len() {
        if s[i] == '\'' {
            Some(i)
        } else {
            quote_end(s, i + 1)
        }
    } else {
        None
    }
}

/// `'TEXT'` at `p` (the caller has seen the opening quote).
pub open spec fn literal_string_at(s: Seq<char>, p: int) -> Step<Seq<char>> {
    match quote_end(s, p + 1) {
        Some(j) => Step::Done(s.subrange(p + 1, j), j + 1),
        None => Step::Fail(s.len() as int, "unterminated literal string"@),
    }
}

/// `[1!]positions relation codes` or `[1!]positions 'TEXT'`.
pub open spec fn basic_term(s: Seq<char>, p: int) -> Step<UncleModel> {
    let p0 = if record_prefix_at(s, p) { p + 2 } else { p };
    match position_list(s, p0, Seq::empty()) {
        Step::Done(positions, p1) => {
            let q = skip_ws(s, p1);
            if peek(s, q) == Some('\'') {
                match literal_string_at(s, q) {
                    Step::Done(lit, p2) => if positions.len() == 0 {
                        Step::Crash
                    } else {
                        Step::Done(UncleModel::Literal { start_col: positions[0], value: lit }, p2)
                    },
                    Step::Fail(a, m) => Step::Fail(a, m),
                    Step::Crash => Step::Crash,
                }
            } else {
                match relation_at(s, p1) {
                    Step::Done(rel, p2) => match code_spec(s, p2, Seq::empty()) {
                        Step::Done(codes, p3) => if positions.len() == 0 {
                            Step::Crash
                        } else {
                            Step::Done(or_chain(positions, rel, codes), p3)
                        },
                        Step::Fail(a, m) => Step::Fail(a, m),
                        Step::Crash => Step::Crash,
                    },
                    Step::Fail(a, m) => Step::Fail(a, m),
                    Step::Crash => Step::Crash,
                }
            }
        },
        Step::Fail(a, m) => Step::Fail(a, m),
        Step::Crash => Step::Crash,
    }
}

// ---- R() ------------------------------------------------------------------

/// An integer read from a digit run, as `str::parse::<i64>` reads it.
pub open spec fn i64_digits(s: Seq<char>, what: Seq<char>, p: int, q: int) -> Step<i64> {
    if q == p {
        Step::Fail(q, what + debug_str(s.subrange(p, q)) + ": cannot parse integer from empty string"@)
    } else if dec_value(s.subrange(p, q)) > i64::MAX {
        Step::Fail(q, what + debug_str(s.subrange(p, q)) + ": number too large to fit in target type"@)
    } else {
        Step::Done(dec_value(s.subrange(p, q)) as i64, q)
    }
}

/// Target values of `R()`: `v` or `lo:hi`, separated by `,`.
pub open spec fn r_values(s: Seq<char>, p: int, acc: Seq<RValue>) -> Step<Seq<RValue>>
    decreases s.len() - p,
{
    let q = skip_ws(s, p);
    let q1 = digits_end(s, q);
    if q1 == q {
        if acc.len() == 0 {
            Step::Fail(q, "R() has no target values"@)
        } else {
            Step::Done(acc, q)
        }
    } else {
        match i64_digits(s, "invalid R() value "@, q, q1) {
            Step::Done(n, _) => {
                let item: Step<RValue> = if peek(s, q1) == Some(':') {
                    let q2 = digits_end(s, q1 + 1);
                    match i64_digits(s, "invalid R() range end "@, q1 + 1, q2) {
                        Step::Done(m, _) => Step::Done(RValue::Range(n, m), q2),
                        Step::Fail(a, msg) => Step::Fail(a, msg),
                        Step::Crash => Step::Crash,
                    }
                } else {
                    Step::Done(RValue::Single(n), q1)
                };
                match item {
                    Step::Done(v, q3) => if peek(s, q3) == Some(',') {
                        if p < q3 + 1 <= s.len() {
                            r_values(s, q3 + 1, acc.push(v))
                        } else {
                            Step::Crash
                        }
                    } else {
                        Step::Done(acc.push(v), q3)
                    },
                    Step::Fail(a, msg) => Step::Fail(a, msg),
                    Step::Crash => Step::Crash,
                }
            },
            Step::Fail(a, msg) => Step::Fail(a, msg),
            Step::Crash => Step::Crash,
        }
    }
}

/// One field group `[1!]a[:b]`.
pub open spec fn field_group(s: Seq<char>, p: int) -> Step<(usize, usize)> {
    let p0 = if record_prefix_at(s, p) { p + 2 } else { p };
    match parse_usize_at(s, p0) {
        Step::Done(a, p1) => if peek(s, p1) == Some(':') {
            match parse_usize_at(s, p1 + 1) {
                Step::Done(b, p2) => Step::Done((a, b), p2),
                Step::Fail(q, m) => Step::Fail(q, m),
                Step::Crash => Step::Crash,
            }
        } else {
            Step::Done((a, a), p1)
        },
        Step::Fail(q, m) => Step::Fail(q, m),
        Step::Crash => Step::Crash,
    }
}

/// Fields `cur, cur+step, ...` up to `last` (each `width` columns wide),
/// appended to `acc`; `None` for a crash.
pub open spec fn ellipsis_expand(acc: Seq<Seq<usize>>, cur: int, step: int, width: int, last: int) -> Option<Result<Seq<Seq<usize>>, ()>>
    decreases last - cur,
{
    if cur > last {
        Some(Err(()))
    } else if cur + width > usize::MAX {
        None
    } else {
        let acc2 = acc.push(col_range(cur as usize, (cur + width - 1) as usize));
        if cur == last {
            Some(Ok(acc2))
        } else if cur + step > usize::MAX || step <= 0 {
            None
        } else if cur + step > last {
            Some(Err(()))
        } else {
            ellipsis_expand(acc2, cur + step, step, width, last)
        }
    }
}

/// The `...` series after two or more field groups (position `p` is just
/// past `...`), ending with the `,` before the values.
pub open spec fn r_ellipsis(s: Seq<char>, p: int, fields: Seq<Seq<usize>>) -> Step<Seq<Seq<usize>>> {
    if fields.len() < 2 {
        Step::Fail(p, "R() ellipsis requires at least two preceding field groups"@)
    } else {
        let prev = fields[fields.len() - 1];
        let prev_prev = fields[fields.len() - 2];
        if prev.len() == 0 || prev_prev.len() == 0 {
            Step::Crash
        } else if prev[0] < prev_prev[0] {
            Step::Fail(p, "R() ellipsis: field groups must be in ascending order"@)
        } else {
            let step = prev[0] - prev_prev[0];
            let width = prev.len();
            if step == 0 {
                Step::Fail(p, "R() ellipsis: step between field groups must be > 0"@)
            } else {
                let p0 = if record_prefix_at(s, p) { p + 2 } else { p };
                match parse_usize_at(s, p0) {
                    Step::Done(last, p1) => {
                        let end: Step<()> = if peek(s, p1) == Some(':') {
                            match parse_usize_at(s, p1 + 1) {
                                Step::Done(_, p2) => Step::Done((), p2),
                                Step::Fail(q, m) => Step::Fail(q, m),
                                Step::Crash => Step::Crash,
                            }
                        } else {
                            Step::Done((), p1)
                        };
                        match end {
                            Step::Done(_, p2) => if prev[0] + step > usize::MAX {
                                Step::Crash
                            } else {
                                match ellipsis_expand(fields, prev[0] + step, step as int, width as int, last as int) {
                                    None => Step::Crash,
                                    Some(Err(())) => Step::Fail(p2,
                                        "R() ellipsis: step "@ + nat_str(step as nat) + " does not land on terminal field "@
                                            + nat_str(last as nat)),
                                    Some(Ok(all)) => match consume_at(s, p2, ',') {
                                        Step::Done(_, p3) => Step::Done(all, p3),
                                        Step::Fail(q, m) => Step::Fail(q, m),
                                        Step::Crash => Step::Crash,
                                    },
                                }
                            },
                            Step::Fail(q, m) => Step::Fail(q, m),
                            Step::Crash => Step::Crash,
                        }
                    },
                    Step::Fail(q, m) => Step::Fail(q, m),
                    Step::Crash => Step::Crash,
                }
            }
        }
    }
}

/// Field groups of `R()`, separated by `/`, ending with `,` or a `...` series.
pub open spec fn r_fields(s: Seq<char>, p: int, fields: Seq<Seq<usize>>) -> Step<Seq<Seq<usize>>>
    decreases s.len() - p,
{
    match field_group(s, p) {
        Step::Done((a, b), p2) => {
            let fields2 = fields.push(col_range(a, b));
            match peek(s, p2) {
                Some(c) => if c == '/' {
                    if p < p2 + 1 <= s.len() {
                        r_fields(s, p2 + 1, fields2)
                    } else {
                        Step::Crash
                    }
                } else if c == '.' && peek(s, p2 + 1) == Some('.') && peek(s, p2 + 2) == Some('.') {
                    r_ellipsis(s, p2 + 3, fields2)
                } else if c == ',' {
                    Step::Done(fields2, p2 + 1)
                } else {
                    Step::Fail(p2, "expected ',', '/', or '...' inside R(), got "@ + debug_opt_char(peek(s, p2)))
                },
                None => Step::Fail(p2, "expected ',', '/', or '...' inside R(), got "@ + debug_opt_char(None)),
            }
        },
        Step::Fail(q, m) => Step::Fail(q, m),
        Step::Crash => Step::Crash,
    }
}

/// The body of `R(` ... `)` starting just past `R(`.
pub open spec fn r_body(s: Seq<char>, p: int) -> Step<UncleModel> {
    match r_fields(s, p, Seq::empty()) {
        Step::Done(fields, p1) => match r_values(s, p1, Seq::empty()) {
            Step::Done(values, p2) => match consume_at(s, skip_ws(s, p2), ')') {
                Step::Done(_, p3) => Step::Done(UncleModel::RQual { fields, values }, p3),
                Step::Fail(q, m) => Step::Fail(q, m),
                Step::Crash => Step::Crash,
            },
            Step::Fail(q, m) => Step::Fail(q, m),
            Step::Crash => Step::Crash,
        },
        Step::Fail(q, m) => Step::Fail(q, m),
        Step::Crash => Step::Crash,
    }
}

// ---- Boolean structure ----------------------------------------------------

/// Whether a term (digit, `(`, `R(`, `NOT`) can start at `q`.
pub open spec fn can_start_term(s: Seq<char>, q: int) -> bool {
    match peek(s, q) {
        Some(c) => if is_digit(c) || c == '(' {
            true
        } else if c == 'R' {
            peek(s, q + 1) == Some('(')
        } else if c == 'N' {
            let up = uppercase(s.subrange(q, s.len() as int));
            up.len() >= 3 && up.subrange(0, 3) == kw_not() && !(q + 3 < s.len() && char_is_alphanumeric(s[q + 3]))
        } else {
            false
        },
        None => false,
    }
}

/// `expr := and (OR and)*`
pub open spec fn parse_or(s: Seq<char>, p: int) -> Step<UncleModel>
    decreases s.len() - p, 5nat,
{
    if !(0 <= p <= s.len()) {
        Step::Crash
    } else {
        match parse_and(s, p) {
            Step::Done(left, p1) => if p <= p1 <= s.len() {
                or_rest(s, left, p1)
            } else {
                Step::Crash
            },
            Step::Fail(q, m) => Step::Fail(q, m),
            Step::Crash => Step::Crash,
        }
    }
}

pub open spec fn or_rest(s: Seq<char>, left: UncleModel, p: int) -> Step<UncleModel>
    decreases s.len() - p, 4nat,
{
    if !(0 <= p <= s.len()) {
        Step::Crash
    } else {
        let q = skip_ws(s, p);
        if keyword_at(s, q, kw_or()) {
            let q2 = skip_ws(s, q + 2);
            if !(p < q2 <= s.len()) {
                Step::Crash
            } else {
                match parse_and(s, q2) {
                    Step::Done(right, p2) => if q2 <= p2 <= s.len() {
                        or_rest(s, UncleModel::Or(Box::new(left), Box::new(right)), p2)
                    } else {
                        Step::Crash
                    },
                    Step::Fail(a, m) => Step::Fail(a, m),
                    Step::Crash => Step::Crash,
                }
            }
        } else {
            Step::Done(left, p)
        }
    }
}

/// `and := unary ([AND] unary)*` (juxtaposition is an implicit AND).
pub open spec fn parse_and(s: Seq<char>, p: int) -> Step<UncleModel>
    decreases s.len() - p, 3nat,
{
    if !(0 <= p <= s.len()) {
        Step::Crash
    } else {
        match parse_unary(s, p) {
            Step::Done(left, p1) => if p <= p1 <= s.len() {
                and_rest(s, left, p1)
            } else {
                Step::Crash
            },
            Step::Fail(q, m) => Step::Fail(q, m),
            Step::Crash => Step::Crash,
        }
    }
}

pub open spec fn and_rest(s: Seq<char>, left: UncleModel, p: int) -> Step<UncleModel>
    decreases s.len() - p, 2nat,
{
    if !(0 <= p <= s.len()) {
        Step::Crash
    } else {
        let q = skip_ws(s, p);
        if q >= s.len() || peek(s, q) == Some(')') || keyword_at(s, q, kw_or()) {
            Step::Done(left, p)
        } else {
            let explicit = keyword_at(s, q, kw_and());
            let q2 = if explicit { skip_ws(s, q + 3) } else { q };
            if !explicit && !can_start_term(s, q2) {
                Step::Done(left, p)
            } else if !(p <= q2 <= s.len()) {
                Step::Crash
            } else {
                match parse_unary(s, q2) {
                    Step::Done(right, p2) => if p < p2 <= s.len() {
                        and_rest(s, UncleModel::And(Box::new(left), Box::new(right)), p2)
                    } else {
                        Step::Crash
                    },
                    Step::Fail(a, m) => Step::Fail(a, m),
                    Step::Crash => Step::Crash,
                }
            }
        }
    }
}

/// `unary := NOT [(] expr [)] | primary`
pub open spec fn parse_unary(s: Seq<char>, p: int) -> Step<UncleModel>
    decreases s.len() - p, 1nat,
{
    if !(0 <= p <= s.len()) {
        Step::Crash
    } else {
        let q = skip_ws(s, p);
        if keyword_at(s, q, kw_not()) {
            let q1 = skip_ws(s, q + 3);
            let has_paren = peek(s, q1) == Some('(');
            let q2 = if has_paren { q1 + 1 } else { q1 };
            let q3 = skip_ws(s, q2);
            if !(p < q3 <= s.len()) {
                Step::Crash
            } else {
                match parse_or(s, q3) {
                    Step::Done(inner, p1) => if has_paren {
                        match consume_at(s, skip_ws(s, p1), ')') {
                            Step::Done(_, p2) => Step::Done(UncleModel::Not(Box::new(inner)), p2),
                            Step::Fail(a, m) => Step::Fail(a, m),
                            Step::Crash => Step::Crash,
                        }
                    } else {
                        Step::Done(UncleModel::Not(Box::new(inner)), p1)
                    },
                    Step::Fail(a, m) => Step::Fail(a, m),
                    Step::Crash => Step::Crash,
                }
            }
        } else if !(p <= q <= s.len()) {
            Step::Crash
        } else {
            parse_primary(s, q)
        }
    }
}

/// `primary := ( expr ) | R( ... ) | basic term`
pub open spec fn parse_primary(s: Seq<char>, p: int) -> Step<UncleModel>
    decreases s.len() - p, 0nat,
{
    if !(0 <= p <= s.len()) {
        Step::Crash
    } else {
        let q = skip_ws(s, p);
        if peek(s, q) == Some('(') {
            if !(p < q + 1 <= s.len()) {
                Step::Crash
            } else {
                match parse_or(s, q + 1) {
                    Step::Done(inner, p1) => match consume_at(s, skip_ws(s, p1), ')') {
                        Step::Done(_, p2) => Step::Done(inner, p2),
                        Step::Fail(a, m) => Step::Fail(a, m),
                        Step::Crash => Step::Crash,
                    },
                    Step::Fail(a, m) => Step::Fail(a, m),
                    Step::Crash => Step::Crash,
                }
            }
        } else if peek(s, q) == Some('R') && peek(s, q + 1) == Some('(') {
            r_body(s, q + 2)
        } else {
            basic_term(s, q)
        }
    }
}

/// Result of parsing a whole input: the expression, or the error position
/// and message, or `None` for an input on which parsing cannot complete.
pub open spec fn parse_spec(s: Seq<char>) -> Option<Result<UncleModel, (int, Seq<char>)>> {
    match parse_or(s, 0) {
        Step::Done(e, p) => {
            let q = skip_ws(s, p);
            if q < s.len() {
                Some(Err((q, "unexpected trailing input: "@ + debug_str(s.subrange(q, s.len() as int)))))
            } else {
                Some(Ok(e))
            }
        },
        Step::Fail(q, m) => Some(Err((q, m))),
        Step::Crash => None,
    }
}

// ---- Facts about the scanners ---------------------------------------------

pub proof fn lemma_skip_ws(s: Seq<char>, p: int)
    requires
        0 <= p <= s.len(),
    ensures
        p <= skip_ws(s, p) <= s.len(),
        skip_ws(s, skip_ws(s, p)) == skip_ws(s, p),
    decreases s.len() - p,
{
    if p < s.len() && is_ascii_ws(s[p]) {
        lemma_skip_ws(s, p + 1);
    }
}

pub proof fn lemma_digits_end(s: Seq<char>, p: int)
    requires
        0 <= p <= s.len(),
    ensures
        p <= digits_end(s, p) <= s.len(),
        forall|i: int| p <= i < digits_end(s, p) ==> is_digit(#[trigger] s[i]),
        digits_end(s, p) < s.len() ==> !is_digit(s[digits_end(s, p)]),
    decreases s.len() - p,
{
    if p < s.len() && is_digit(s[p]) {
        lemma_digits_end(s, p + 1);
    }
}

} // verus!
