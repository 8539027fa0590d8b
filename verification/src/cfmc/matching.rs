//! The parts of CFMC evaluation that compare data with codes and values:
//! punch codes in data columns, and responses against value lists.

use vstd::prelude::*;
use vstd::string::StringSliceAdditionalSpecFns;
use vstd::utf8::encode_utf8;

use crate::cfmc::tree::{CfmcLogic, CfmcOperator};
use crate::text::{
    chars_eq, chars_of, find_char, find_char_exec, lemma_digit_run_plain, lemma_find_char_from, lemma_nat_str, nat_str,
    parse_unsigned, parse_unsigned_exec, string_from, strings_view, sub_chars, to_uppercase, trim_chars, trim_ws,
    uppercase,
};

verus! {

/// The punch code (1 to 12) of a data byte: `1`-`9`, `0` for 10, `X` for
/// 11, `Y` for 12 (either case); `None` for anything else, blanks included.
pub open spec fn punch_of(b: u8) -> Option<u8> {
    if 0x31 <= b <= 0x39 {
        Some((b - 0x30) as u8)
    } else if b == 0x30 {
        Some(10)
    } else if b == 0x58 || b == 0x78 {
        Some(11)
    } else if b == 0x59 || b == 0x79 {
        Some(12)
    } else {
        None
    }
}

/// Whether one code is punched in the data. Multi-column: codes 1-12 are
/// the first column, 13-24 the second, and so on. Single column: the code
/// is looked for in the first column only.
pub open spec fn code_punched(data: Seq<u8>, code: u8, multi_col: bool) -> bool {
    if multi_col {
        let col = (code - 1) / 12;
        let p = (code - 1) % 12 + 1;
        col < data.len() && punch_of(data[col]) == Some(p as u8)
    } else {
        data.len() > 0 && punch_of(data[0]) == Some(code)
    }
}

/// Whether any of the codes is punched in the data.
pub open spec fn any_punched(data: Seq<u8>, codes: Seq<u8>, multi_col: bool) -> bool {
    exists|i: int| 0 <= i < codes.len() && code_punched(data, #[trigger] codes[i], multi_col)
}

/// Number of bytes of the UTF-8 encoding of text (`str::len`).
pub open spec fn byte_len(s: Seq<char>) -> int {
    encode_utf8(s).len() as int
}

/// The order of `str`: lexicographic on characters by code point, which is
/// the byte order of their UTF-8 encodings.
pub open spec fn text_le(a: Seq<char>, b: Seq<char>) -> bool
    decreases a.len(),
{
    if a.len() == 0 {
        true
    } else if b.len() == 0 {
        false
    } else if a[0] != b[0] {
        (a[0] as u32) < (b[0] as u32)
    } else {
        text_le(a.drop_first(), b.drop_first())
    }
}

/// `str::parse::<u32>`.
pub open spec fn u32_of(s: Seq<char>) -> Option<int> {
    parse_unsigned(s, u32::MAX as int)
}

/// A value of a list, trimmed and upper-cased.
pub open spec fn norm(s: Seq<char>) -> Seq<char> {
    uppercase(trim_ws(s))
}

/// Whether a (trimmed, upper-cased, non-empty) response matches one
/// expected value. A value holding `-` is a range `start-end` (each side
/// trimmed): it matches a response that, read as `u32`, lies between the
/// bounds read as `u32`, or one of the byte length of `start` that lies
/// between `start` and `end` as text. Any other value matches a response
/// equal to it as `u32` or as text.
pub open spec fn value_matches(resp: Seq<char>, expected: Seq<char>) -> bool {
    let e = norm(expected);
    match find_char(e, '-') {
        Some(k) => {
            let start = trim_ws(e.take(k));
            let end = trim_ws(e.skip(k + 1));
            ||| (match (u32_of(resp), u32_of(start), u32_of(end)) {
                (Some(a), Some(b), Some(c)) => b <= a && a <= c,
                _ => false,
            })
            ||| (byte_len(resp) == byte_len(start) && text_le(start, resp) && text_le(resp, end))
        },
        None => {
            ||| (match (u32_of(resp), u32_of(e)) {
                (Some(a), Some(b)) => a == b,
                _ => false,
            })
            ||| resp == e
        },
    }
}

/// Whether some non-blank response matches some expected value.
pub open spec fn intersect(responses: Seq<Seq<char>>, expected: Seq<Seq<char>>) -> bool {
    exists|i: int, j: int|
        0 <= i < responses.len() && 0 <= j < expected.len() && norm(#[trigger] responses[i]).len() > 0
            && value_matches(norm(responses[i]), #[trigger] expected[j])
}

/// The first index of `s` from `i` on whose element, trimmed (and
/// upper-cased when `up`), is not empty.
pub open spec fn first_nonblank(s: Seq<Seq<char>>, up: bool, i: int) -> Option<int>
    decreases s.len() - i,
{
    if i < 0 || i >= s.len() {
        None
    } else if (if up { norm(s[i]) } else { trim_ws(s[i]) }).len() > 0 {
        Some(i)
    } else {
        first_nonblank(s, up, i + 1)
    }
}

/// A value read as `u32`, or 0.
pub open spec fn u32_or_zero(s: Seq<char>) -> int {
    match u32_of(s) {
        Some(v) => v,
        None => 0,
    }
}

/// The comparison that an inequality operator makes.
pub open spec fn compare(op: CfmcOperator, a: int, b: int) -> bool {
    match op {
        CfmcOperator::Less => a < b,
        CfmcOperator::LessEqual => a <= b,
        CfmcOperator::Greater => a > b,
        CfmcOperator::GreaterEqual => a >= b,
        _ => false,
    }
}

pub open spec fn is_inequality(op: CfmcOperator) -> bool {
    op is Less || op is LessEqual || op is Greater || op is GreaterEqual
}

/// The comparison of the first non-blank response with the first
/// non-blank expected value, each read as `u32` (0 where it is not a
/// number); false where either is missing or the operator is no
/// inequality.
pub open spec fn comparison(responses: Seq<Seq<char>>, expected: Seq<Seq<char>>, op: CfmcOperator) -> bool {
    match (first_nonblank(responses, false, 0), first_nonblank(expected, true, 0)) {
        (Some(i), Some(j)) => is_inequality(op) && compare(op, u32_or_zero(trim_ws(responses[i])), u32_or_zero(norm(expected[j]))),
        _ => false,
    }
}

/// The inequalities order the two values they read, the first non-blank
/// response `a` and the first non-blank expected value `b`: `>` holds
/// exactly when `a > b` (so never on equal values), `>=` when `a >= b`,
/// `<` when `a < b`, `<=` when `a <= b`; each is the negation of its
/// opposite (`>` of `<=`, `<` of `>=`), and swapping the values swaps `<`
/// and `>`.
pub proof fn law_inequalities_order_values(responses: Seq<Seq<char>>, expected: Seq<Seq<char>>)
    requires
        first_nonblank(responses, false, 0) is Some,
        first_nonblank(expected, true, 0) is Some,
    ensures
        ({
            let a = u32_or_zero(trim_ws(responses[first_nonblank(responses, false, 0)->0]));
            let b = u32_or_zero(norm(expected[first_nonblank(expected, true, 0)->0]));
            &&& comparison(responses, expected, CfmcOperator::Greater) == (a > b)
            &&& comparison(responses, expected, CfmcOperator::GreaterEqual) == (a >= b)
            &&& comparison(responses, expected, CfmcOperator::Less) == (a < b)
            &&& comparison(responses, expected, CfmcOperator::LessEqual) == (a <= b)
            &&& a == b ==> !comparison(responses, expected, CfmcOperator::Greater)
                && !comparison(responses, expected, CfmcOperator::Less)
                && comparison(responses, expected, CfmcOperator::GreaterEqual)
                && comparison(responses, expected, CfmcOperator::LessEqual)
        }),
        comparison(responses, expected, CfmcOperator::Greater) == !comparison(responses, expected, CfmcOperator::LessEqual),
        comparison(responses, expected, CfmcOperator::Less) == !comparison(responses, expected, CfmcOperator::GreaterEqual),
{
}

/// On one written number against another, `a` against `b`, each
/// inequality is that inequality between the numbers: `5 > 5` does not
/// hold, `6 > 5` does, and `5 >= 5` and `5 <= 5` both hold.
pub proof fn law_inequalities_on_numbers(a: nat, b: nat)
    requires
        a <= u32::MAX,
        b <= u32::MAX,
    ensures
        comparison(seq![nat_str(a)], seq![nat_str(b)], CfmcOperator::Greater) == (a > b),
        comparison(seq![nat_str(a)], seq![nat_str(b)], CfmcOperator::GreaterEqual) == (a >= b),
        comparison(seq![nat_str(a)], seq![nat_str(b)], CfmcOperator::Less) == (a < b),
        comparison(seq![nat_str(a)], seq![nat_str(b)], CfmcOperator::LessEqual) == (a <= b),
        comparison(seq![nat_str(a)], seq![nat_str(b)], CfmcOperator::Greater)
            == comparison(seq![nat_str(b)], seq![nat_str(a)], CfmcOperator::Less),
{
    lemma_nat_str(a);
    lemma_nat_str(b);
    lemma_digit_run_plain(nat_str(a), u32::MAX as int);
    lemma_digit_run_plain(nat_str(b), u32::MAX as int);
    let rs = seq![nat_str(a)];
    let es = seq![nat_str(b)];
    assert(first_nonblank(rs, false, 0) == Some(0int));
    assert(first_nonblank(es, true, 0) == Some(0int));
    assert(first_nonblank(es, false, 0) == Some(0int));
    assert(first_nonblank(rs, true, 0) == Some(0int));
    assert(u32_or_zero(nat_str(a)) == a);
    assert(u32_or_zero(nat_str(b)) == b);
    law_inequalities_order_values(rs, es);
    law_inequalities_order_values(es, rs);
}

/// Blank responses are skipped, and only the first non-blank response is
/// compared with the first expected value: with responses blank, `a`, `x`
/// and expected values `b`, `y`, each inequality is that between `a` and
/// `b`, whatever `x` and `y` are.
pub proof fn law_inequalities_use_first_values(a: nat, x: nat, b: nat, y: nat)
    requires
        a <= u32::MAX,
        x <= u32::MAX,
        b <= u32::MAX,
        y <= u32::MAX,
    ensures
        ({
            let rs = seq![seq![' '], nat_str(a), nat_str(x)];
            let es = seq![nat_str(b), nat_str(y)];
            &&& comparison(rs, es, CfmcOperator::Greater) == (a > b)
            &&& comparison(rs, es, CfmcOperator::GreaterEqual) == (a >= b)
            &&& comparison(rs, es, CfmcOperator::Less) == (a < b)
            &&& comparison(rs, es, CfmcOperator::LessEqual) == (a <= b)
        }),
{
    lemma_nat_str(a);
    lemma_nat_str(b);
    lemma_digit_run_plain(nat_str(a), u32::MAX as int);
    lemma_digit_run_plain(nat_str(b), u32::MAX as int);
    let rs = seq![seq![' '], nat_str(a), nat_str(x)];
    let es = seq![nat_str(b), nat_str(y)];
    let blank = seq![' '];
    assert(crate::text::trim_start_ws(blank.drop_first()) == blank.drop_first());
    assert(blank.drop_first() =~= Seq::<char>::empty());
    assert(crate::text::trim_start_ws(blank) == Seq::<char>::empty());
    assert(trim_ws(blank).len() == 0);
    assert(first_nonblank(rs, false, 1) == Some(1int));
    assert(first_nonblank(rs, false, 0) == Some(1int));
    assert(first_nonblank(es, true, 0) == Some(0int));
    assert(u32_or_zero(nat_str(a)) == a);
    assert(u32_or_zero(nat_str(b)) == b);
    law_inequalities_order_values(rs, es);
}

/// A data byte carries a punch code from 1 to 12, if any.
pub proof fn law_punch_codes_in_range(b: u8)
    ensures
        punch_of(b) matches Some(p) ==> 1 <= p <= 12,
{
}

/// Multi-column codes go twelve to a column: code `c + 12` is code `c` one
/// column further on.
pub proof fn law_multi_col_next_column(data: Seq<u8>, c: u8)
    requires
        1 <= c <= 243,
    ensures
        code_punched(data, (c + 12) as u8, true) == (data.len() > 0 && code_punched(data.drop_first(), c, true)),
{
    let c2 = (c + 12) as u8;
    assert((c2 - 1) / 12 == (c - 1) / 12 + 1);
    assert((c2 - 1) % 12 == (c - 1) % 12);
    let k = (c - 1) / 12;
    if data.len() > 0 && k + 1 < data.len() {
        assert(data.drop_first()[k] == data[k + 1]);
    }
}

/// In a single column only codes 1 to 12 can be punched.
pub proof fn law_single_col_codes(data: Seq<u8>, c: u8)
    requires
        c == 0 || c > 12,
    ensures
        !code_punched(data, c, false),
{
}

/// Blank responses never match a value list.
pub proof fn law_blank_responses_never_match(responses: Seq<Seq<char>>, expected: Seq<Seq<char>>)
    requires
        forall|i: int| 0 <= i < responses.len() ==> norm(#[trigger] responses[i]).len() == 0,
    ensures
        !intersect(responses, expected),
{
}

fn text_le_exec(a: &Vec<char>, b: &Vec<char>) -> (r: bool)
    ensures
        r == text_le(a@, b@),
{
    let mut i: usize = 0;
    assert(a@.skip(0) =~= a@);
    assert(b@.skip(0) =~= b@);
    while i < a.len()
        invariant
            i <= a.len(),
            i <= b.len(),
            forall|k: int| 0 <= k < i ==> a@[k] == b@[k],
            text_le(a@.skip(i as int), b@.skip(i as int)) == text_le(a@, b@),
        decreases a.len() - i,
    {
        assert(a@.skip(i as int).drop_first() =~= a@.skip(i + 1));
        if i >= b.len() {
            return false;
        }
        assert(b@.skip(i as int).drop_first() =~= b@.skip(i + 1));
        if a[i] != b[i] {
            return (a[i] as u32) < (b[i] as u32);
        }
        i = i + 1;
    }
    true
}

fn norm_exec(s: &String) -> (r: Vec<char>)
    ensures
        r@ == norm(s@),
{
    let v = chars_of(s.as_str());
    let t = trim_chars(&v);
    let ts = string_from(t.as_slice());
    let u = to_uppercase(ts.as_str());
    chars_of(u.as_str())
}

fn u32_exec(v: &Vec<char>) -> (r: Option<u32>)
    ensures
        match u32_of(v@) {
            Some(x) => r matches Some(y) && y == x,
            None => r is None,
        },
{
    match parse_unsigned_exec(v, 0xffff_ffffu64) {
        Some(x) => Some(x as u32),
        None => None,
    }
}

/// Number of bytes of the UTF-8 encoding of the characters.
pub fn byte_len_exec(v: &Vec<char>) -> (r: u128)
    ensures
        r == byte_len(v@),
{
    let mut acc: u128 = 0;
    let mut i: usize = v.len();
    assert(v@.skip(i as int) =~= Seq::<char>::empty());
    while i > 0
        invariant
            i <= v.len(),
            acc == byte_len(v@.skip(i as int)),
            acc <= 4 * (v.len() - i),
        decreases i,
    {
        assert(v@.skip(i - 1).drop_first() =~= v@.skip(i as int));
        assert(v@.skip(i - 1)[0] == v@[i - 1]);
        let w = crate::weight::utf8_width(v[i - 1]) as u128;
        assert(encode_utf8(v@.skip(i - 1)) == vstd::utf8::encode_scalar(v@[i - 1] as u32) + encode_utf8(v@.skip(i as int)));
        assert(vstd::utf8::encode_scalar(v@[i - 1] as u32).len() == w);
        acc = acc + w;
        i = i - 1;
    }
    assert(v@.skip(0) =~= v@);
    acc
}

fn value_matches_exec(resp: &Vec<char>, expected: &String) -> (r: bool)
    ensures
        r == value_matches(resp@, expected@),
{
    let e = norm_exec(expected);
    assert(e@ == norm(expected@));
    match find_char_exec(&e, '-') {
        Some(k) => {
            proof {
                lemma_find_char_from(e@, '-', 0);
            }
            let s0 = sub_chars(&e, 0, k);
            let e0 = sub_chars(&e, k + 1, e.len());
            assert(s0@ =~= e@.take(k as int));
            assert(e0@ =~= e@.skip(k + 1));
            let start = trim_chars(&s0);
            let end = trim_chars(&e0);
            let num = match (u32_exec(resp), u32_exec(&start), u32_exec(&end)) {
                (Some(a), Some(b), Some(c)) => b <= a && a <= c,
                _ => false,
            };
            if num {
                return true;
            }
            byte_len_exec(resp) == byte_len_exec(&start) && text_le_exec(&start, resp) && text_le_exec(resp, &end)
        },
        None => {
            let num = match (u32_exec(resp), u32_exec(&e)) {
                (Some(a), Some(b)) => a == b,
                _ => false,
            };
            if num {
                return true;
            }
            chars_eq(resp, &e)
        },
    }
}

impl CfmcLogic {
    /// The punch code of a data byte: `1`-`9`, `0` for 10, `X`/`x` for 11,
    /// `Y`/`y` for 12; `None` (a blank) for anything else.
    pub fn char_to_punch(ch: u8) -> (r: Option<u8>)
        ensures
            r == punch_of(ch),
    {
        if 0x31 <= ch && ch <= 0x39 {
            Some(ch - 0x30)
        } else if ch == 0x30 {
            Some(10)
        } else if ch == 0x58 || ch == 0x78 {
            Some(11)
        } else if ch == 0x59 || ch == 0x79 {
            Some(12)
        } else {
            None
        }
    }

    /// Whether any of the codes is punched in the data of a location.
    pub fn punch_ref_matches(data: &[u8], codes: &[u8], multi_col: bool) -> (r: bool)
        requires
            multi_col ==> forall|i: int| 0 <= i < codes.len() ==> codes[i] >= 1,
        ensures
            r == any_punched(data@, codes@, multi_col),
    {
        let mut i: usize = 0;
        while i < codes.len()
            invariant
                i <= codes.len(),
                multi_col ==> forall|k: int| 0 <= k < codes.len() ==> codes[k] >= 1,
                forall|k: int| 0 <= k < i ==> !code_punched(data@, #[trigger] codes@[k], multi_col),
            decreases codes.len() - i,
        {
            let code = codes[i];
            if multi_col {
                let col = ((code - 1) / 12) as usize;
                let p = ((code - 1) % 12) + 1;
                if col < data.len() {
                    if let Some(actual) = Self::char_to_punch(data[col]) {
                        if actual == p {
                            assert(code_punched(data@, codes@[i as int], multi_col));
                            return true;
                        }
                    }
                }
            } else {
                if data.len() > 0 {
                    if let Some(actual) = Self::char_to_punch(data[0]) {
                        if actual == code {
                            assert(code_punched(data@, codes@[i as int], multi_col));
                            return true;
                        }
                    }
                }
            }
            i = i + 1;
        }
        false
    }

    /// Whether some non-blank response matches some expected value, as
    /// numbers, as text, or within a `start-end` range (see
    /// [`value_matches`]).
    pub fn responses_intersect(responses: &[String], expected: &[String]) -> (r: bool)
        ensures
            r == intersect(strings_view(responses@), strings_view(expected@)),
    {
        let ghost rs = strings_view(responses@);
        let ghost es = strings_view(expected@);
        let mut i: usize = 0;
        while i < responses.len()
            invariant
                i <= responses.len(),
                rs == strings_view(responses@),
                es == strings_view(expected@),
                forall|a: int, b: int|
                    0 <= a < i && 0 <= b < es.len() && norm(#[trigger] rs[a]).len() > 0 ==> !value_matches(norm(rs[a]),
                        #[trigger] es[b]),
            decreases responses.len() - i,
        {
            let resp = norm_exec(&responses[i]);
            assert(rs[i as int] == responses@[i as int]@);
            if resp.len() > 0 {
                let mut j: usize = 0;
                while j < expected.len()
                    invariant
                        j <= expected.len(),
                        rs == strings_view(responses@),
                        es == strings_view(expected@),
                        i < rs.len(),
                        resp.len() > 0,
                        resp@ == norm(rs[i as int]),
                        forall|b: int| 0 <= b < j ==> !value_matches(resp@, #[trigger] es[b]),
                    decreases expected.len() - j,
                {
                    assert(es[j as int] == expected@[j as int]@);
                    if value_matches_exec(&resp, &expected[j]) {
                        assert(resp@.len() > 0);
                        assert(value_matches(resp@, es[j as int]));
                        assert(norm(rs[i as int]).len() > 0 && value_matches(norm(rs[i as int]), es[j as int]));
                        return true;
                    }
                    j = j + 1;
                }
            }
            i = i + 1;
        }
        false
    }

    /// The first non-blank response against the first non-blank expected
    /// value, both read as `u32` (0 where not a number), under the
    /// inequality `operator`; false where either is missing or the operator
    /// is no inequality.
    pub fn responses_comparison(responses: &[String], expected: &[String], operator: &CfmcOperator) -> (r: bool)
        ensures
            r == comparison(strings_view(responses@), strings_view(expected@), *operator),
    {
        let ghost rs = strings_view(responses@);
        let ghost es = strings_view(expected@);
        let mut i: usize = 0;
        while i < responses.len()
            invariant
                i <= responses.len(),
                rs == strings_view(responses@),
                es == strings_view(expected@),
                is_inequality(*operator) ==> (first_nonblank(rs, false, 0) == first_nonblank(rs, false, i as int)
                    || first_nonblank(es, true, 0) is None),
            decreases responses.len() - i,
        {
            let v = chars_of(responses[i].as_str());
            let t = trim_chars(&v);
            assert(rs[i as int] == responses@[i as int]@);
            if t.len() > 0 {
                let rv: u32 = match u32_exec(&t) {
                    Some(x) => x,
                    None => 0,
                };
                let mut j: usize = 0;
                while j < expected.len()
                    invariant
                        j <= expected.len(),
                        rs == strings_view(responses@),
                        es == strings_view(expected@),
                        i < rs.len(),
                        rv == u32_or_zero(trim_ws(rs[i as int])),
                        is_inequality(*operator) ==> first_nonblank(es, true, 0) == first_nonblank(es, true, j as int),
                        is_inequality(*operator) ==> (first_nonblank(rs, false, 0) == Some(i as int) || first_nonblank(es, true, 0) is None),
                    decreases expected.len() - j,
                {
                    let e = norm_exec(&expected[j]);
                    assert(es[j as int] == expected@[j as int]@);
                    if e.len() > 0 {
                        let ev: u32 = match u32_exec(&e) {
                            Some(x) => x,
                            None => 0,
                        };
                        match operator {
                            CfmcOperator::Less => {
                                return rv < ev;
                            },
                            CfmcOperator::LessEqual => {
                                return rv <= ev;
                            },
                            CfmcOperator::Greater => {
                                return rv > ev;
                            },
                            CfmcOperator::GreaterEqual => {
                                return rv >= ev;
                            },
                            _ => {},
                        }
                    }
                    j = j + 1;
                }
            }
            i = i + 1;
        }
        false
    }
}

} // verus!
