//! The CFMC parser, proved to produce what `grammar` describes.

use vstd::prelude::*;

use crate::cfmc::grammar::{
    binary_of, blank_operand, byte_len, cfmc_parse, check_balance_spec, code_span, column_ref, has_whitespace,
    is_known_function, is_punch_body, keyword_at, leaf, logic_parse, main_op_scan, main_operator,
    operator_at, parse_trimmed, part_codes, punch_codes, punch_ref, removable, scan_step, single_code,
    strip_brackets, strip_parens, strip_scan, sub_parse, trim_expression_spec, unary_of,
    balance_scan, BalanceState, OpScan, stray_warning, lemma_operator_at_len, unwrap_parens, is_label,
};
use crate::cfmc::tree::{trees, op_debug, op_len, precedence, operator_length, operator_precedence, push_op_debug,
    CfmcLogic, CfmcNode, CfmcOperator, CfmcTree};
use crate::text::{
    chars_of, extend_chars, find_char_exec, find_seq_exec, is_alphabetic, is_alphanumeric, is_whitespace,
    occurs_at_exec, parse_unsigned_exec, push_str, string_from, sub_chars, to_uppercase, trim_chars,
    u128_to_chars, usize_to_chars, all_digits, split_char, strings_view, char_is_whitespace, find_char, find_seq, is_digit,
    occurs_at, parse_unsigned, trim_ws, uppercase, lemma_find_char_from, find_char_from, nat_str, is_ascii_alnum,
};
use crate::weight::{lemma_utf8_prefix_step, utf8_prefix_len, utf8_width};

verus! {

/// UTF-8 length of the first `k` characters of `v`.
fn byte_prefix(v: &Vec<char>, k: usize) -> (r: u128)
    requires
        k <= v.len(),
    ensures
        r == utf8_prefix_len(v@, k as int),
{
    let mut i: usize = 0;
    let mut bytes: u128 = 0;
    assert(v@.take(0) =~= Seq::<char>::empty());
    assert(utf8_prefix_len(v@, 0) == 0);
    while i < k
        invariant
            i <= k <= v.len(),
            bytes == utf8_prefix_len(v@, i as int),
            bytes <= 4 * i,
        decreases k - i,
    {
        proof {
            lemma_utf8_prefix_step(v@, i as int);
        }
        let w = utf8_width(v[i]);
        bytes = bytes + w as u128;
        i = i + 1;
    }
    bytes
}

/// UTF-8 length of `v`.
fn byte_length(v: &Vec<char>) -> (r: u128)
    ensures
        r == byte_len(v@),
{
    let r = byte_prefix(v, v.len());
    assert(v@.take(v.len() as int) =~= v@);
    r
}

/// `strip_scan` from the start with level 0.
fn strip_scan_exec(t: &Vec<char>, open: char, close: char, blen: u128) -> (r: (bool, i128))
    ensures
        r.0 == strip_scan(t@, open, close, 0, 0, blen as int).0,
        r.1 == strip_scan(t@, open, close, 0, 0, blen as int).1,
{
    let mut j: usize = 0;
    let mut level: i128 = 0;
    while j < t.len()
        invariant
            j <= t.len(),
            -(j as int) <= level <= j,
            strip_scan(t@, open, close, j as int, level as int, blen as int)
                == strip_scan(t@, open, close, 0, 0, blen as int),
        decreases t.len() - j,
    {
        let c = t[j];
        if c == open {
            level = level + 1;
        } else if c == close {
            level = level - 1;
            if level == 0 && (j as u128) + 1 < blen {
                return (false, level);
            }
        }
        j = j + 1;
    }
    (true, level)
}

/// Whether the pair `open .. close` around `t` may be removed.
fn removable_exec(t: &Vec<char>, open: char, close: char) -> (r: bool)
    ensures
        r == removable(t@, open, close),
{
    let blen = byte_length(t);
    let (ok, level) = strip_scan_exec(t, open, close, blen);
    ok && level == 0
}

fn upper_chars(v: &Vec<char>) -> (r: Vec<char>)
    ensures
        r@ == uppercase(v@),
{
    let s = string_from(v.as_slice());
    let u = to_uppercase(s.as_str());
    chars_of(u.as_str())
}

fn is_punch_body_exec(inner: &Vec<char>) -> (r: bool)
    ensures
        r == is_punch_body(inner@),
{
    match find_char_exec(inner, '^') {
        Some(c) => {
            let dd: [char; 2] = ['^', '^'];
            assert(dd@ =~= "^^"@) by {
                reveal_strlit("^^");
            }
            proof {
                lemma_find_char_from(inner@, '^', 0);
                assert(find_char_from(inner@, '^', 0) == Some(c as int));
            }
            assert(c < inner.len());
            let start = if occurs_at_exec(inner, &dd, c) { c + 2 } else { c + 1 };
            let after = sub_chars(inner, start, inner.len());
            let b: [char; 1] = ['B'];
            let nb: [char; 2] = ['N', 'B'];
            proof {
                reveal_strlit("B");
                reveal_strlit("NB");
                assert(b@ =~= "B"@);
                assert(nb@ =~= "NB"@);
            }
            let is_b = after.len() == 1 && after[0] == 'B';
            let is_nb = after.len() == 2 && after[0] == 'N' && after[1] == 'B';
            proof {
                if is_b {
                    assert(after@ =~= "B"@);
                }
                if is_nb {
                    assert(after@ =~= "NB"@);
                }
                if after@ == "B"@ {
                    assert(after@[0] == 'B');
                }
                if after@ == "NB"@ {
                    assert(after@[0] == 'N' && after@[1] == 'B');
                }
            }
            !is_b && !is_nb
        },
        None => false,
    }
}

/// Trimmed, upper-cased, without wrapping parentheses and brackets and
/// without one trailing `$`.
pub fn trim_expression(expr: &Vec<char>) -> (r: Vec<char>)
    ensures
        r@ == trim_expression_spec(expr@),
{
    let tr = trim_chars(expr);
    let mut t = upper_chars(&tr);
    let ghost t0 = t@;
    while t.len() >= 2 && t[0] == '(' && t[t.len() - 1] == ')' && removable_exec(&t, '(', ')')
        invariant
            strip_parens(t@) == strip_parens(t0),
        decreases t.len(),
    {
        t = sub_chars(&t, 1, t.len() - 1);
    }
    let ghost t1 = t@;
    assert(strip_parens(t1) == t1);
    assert(strip_parens(t0) == t1);
    loop
        invariant
            strip_brackets(t@) == strip_brackets(t1),
        ensures
            strip_brackets(t@) == strip_brackets(t1),
            strip_brackets(t@) == t@,
        decreases t.len(),
    {
        if t.len() >= 2 && t[0] == '[' && t[t.len() - 1] == ']' {
            let inner = sub_chars(&t, 1, t.len() - 1);
            if !is_punch_body_exec(&inner) && removable_exec(&t, '[', ']') {
                t = inner;
            } else {
                break;
            }
        } else {
            break;
        }
    }
    if t.len() > 0 && t[t.len() - 1] == '$' {
        t.pop();
    }
    t
}

fn stray_warning_exec(kind: &str, c: char, pos: u128, e: &Vec<char>) -> (r: String)
    ensures
        r@ == stray_warning(kind@, c, pos as int, e@),
{
    let mut m: Vec<char> = Vec::new();
    push_str(&mut m, "Unbalanced ");
    push_str(&mut m, kind);
    push_str(&mut m, ": stray '");
    m.push(c);
    push_str(&mut m, "' at position ");
    let p = u128_to_chars(pos);
    extend_chars(&mut m, p.as_slice());
    push_str(&mut m, " in `");
    extend_chars(&mut m, e.as_slice());
    push_str(&mut m, "` (ignored)");
    assert(m@ =~= stray_warning(kind@, c, pos as int, e@));
    string_from(m.as_slice())
}

/// Balance check over the input expression: stray closing `)` / `]`
/// are dropped from the returned text and reported as warnings; unclosed
/// `(`, `[` or `"` are errors.
fn check_balance_impl(expr: &str) -> (r: Result<(String, Vec<String>), String>)
    ensures
        match check_balance_spec(expr@) {
            Ok((c, w)) => r is Ok && r->Ok_0.0@ == c && strings_view(r->Ok_0.1@) == w,
            Err(m) => r is Err && r->Err_0@ == m,
        },
{
    let e = chars_of(expr);
    let mut cleaned: Vec<char> = Vec::new();
    let mut warnings: Vec<String> = Vec::new();
    let mut paren: usize = 0;
    let mut bracket: usize = 0;
    let mut in_quotes = false;
    let mut byte_pos: u128 = 0;
    let mut j: usize = 0;
    assert(e@.take(0) =~= Seq::<char>::empty());
    assert(strings_view(warnings@) =~= Seq::<Seq<char>>::empty());
    while j < e.len()
        invariant
            j <= e.len(),
            e@ == expr@,
            paren <= j,
            bracket <= j,
            byte_pos == utf8_prefix_len(e@, j as int),
            byte_pos <= 4 * j,
            ({
                let st = balance_scan(e@, j as int);
                &&& st.paren == paren
                &&& st.bracket == bracket
                &&& st.in_quotes == in_quotes
                &&& st.cleaned == cleaned@
                &&& st.warnings == strings_view(warnings@)
            }),
        decreases e.len() - j,
    {
        let c = e[j];
        if c == '"' {
            in_quotes = !in_quotes;
            cleaned.push(c);
        } else if c == '(' && !in_quotes {
            paren = paren + 1;
            cleaned.push(c);
        } else if c == ')' && !in_quotes {
            if paren == 0 {
                let w = stray_warning_exec("parentheses", ')', byte_pos, &e);
                let ghost before = warnings@;
                warnings.push(w);
                assert(strings_view(warnings@) =~= strings_view(before).push(w@));
            } else {
                paren = paren - 1;
                cleaned.push(c);
            }
        } else if c == '[' && !in_quotes {
            bracket = bracket + 1;
            cleaned.push(c);
        } else if c == ']' && !in_quotes {
            if bracket == 0 {
                let w = stray_warning_exec("brackets", ']', byte_pos, &e);
                let ghost before = warnings@;
                warnings.push(w);
                assert(strings_view(warnings@) =~= strings_view(before).push(w@));
            } else {
                bracket = bracket - 1;
                cleaned.push(c);
            }
        } else {
            cleaned.push(c);
        }
        proof {
            lemma_utf8_prefix_step(e@, j as int);
        }
        let w = utf8_width(c);
        byte_pos = byte_pos + w as u128;
        j = j + 1;
    }
    if paren > 0 {
        let mut m: Vec<char> = Vec::new();
        push_str(&mut m, "Unbalanced parentheses: ");
        let n = usize_to_chars(paren);
        extend_chars(&mut m, n.as_slice());
        push_str(&mut m, " unclosed '(' in `");
        extend_chars(&mut m, e.as_slice());
        push_str(&mut m, "`");
        assert(m@ =~= "Unbalanced parentheses: "@ + nat_str(paren as nat) + " unclosed '(' in `"@ + expr@ + "`"@);
        return Err(string_from(m.as_slice()));
    }
    if bracket > 0 {
        let mut m: Vec<char> = Vec::new();
        push_str(&mut m, "Unbalanced brackets: ");
        let n = usize_to_chars(bracket);
        extend_chars(&mut m, n.as_slice());
        push_str(&mut m, " unclosed '[' in `");
        extend_chars(&mut m, e.as_slice());
        push_str(&mut m, "`");
        assert(m@ =~= "Unbalanced brackets: "@ + nat_str(bracket as nat) + " unclosed '[' in `"@ + expr@ + "`"@);
        return Err(string_from(m.as_slice()));
    }
    if in_quotes {
        let mut m: Vec<char> = Vec::new();
        push_str(&mut m, "Unclosed quote in `");
        extend_chars(&mut m, e.as_slice());
        push_str(&mut m, "`");
        assert(m@ =~= "Unclosed quote in `"@ + expr@ + "`"@);
        return Err(string_from(m.as_slice()));
    }
    Ok((string_from(cleaned.as_slice()), warnings))
}

fn keyword_at_exec(v: &Vec<char>, pos: usize, kw: &[char]) -> (r: bool)
    ensures
        r == keyword_at(v@, pos as int, kw@),
{
    if !occurs_at_exec(v, kw, pos) {
        return false;
    }
    assert(pos + kw@.len() <= v.len());
    let end = pos + kw.len();
    !(end < v.len() && is_ascii_alnum_exec(v[end]))
}

fn is_ascii_alnum_exec(c: char) -> (r: bool)
    ensures
        r == is_ascii_alnum(c),
{
    ('a' <= c && c <= 'z') || ('A' <= c && c <= 'Z') || ('0' <= c && c <= '9')
}

/// The operator token at `pos`, if any, and its length.
pub fn match_operator_at(v: &Vec<char>, pos: usize) -> (r: Option<(CfmcOperator, usize)>)
    ensures
        match operator_at(v@, pos as int) {
            Some((op, len)) => r == Some((op, len as usize)) && len == op_len(op) && pos + len <= v.len() && len >= 1,
            None => r is None,
        },
{
    proof {
        lemma_operator_at_len(v@, pos as int);
    }
    if pos >= v.len() {
        return None;
    }
    let numitems: [char; 8] = ['N', 'U', 'M', 'I', 'T', 'E', 'M', 'S'];
    let nb: [char; 4] = ['^', '^', 'N', 'B'];
    let not: [char; 3] = ['N', 'O', 'T'];
    let and: [char; 3] = ['A', 'N', 'D'];
    let bl: [char; 3] = ['^', '^', 'B'];
    let le: [char; 2] = ['<', '='];
    let ge: [char; 2] = ['>', '='];
    let ne: [char; 2] = ['<', '>'];
    let or: [char; 2] = ['O', 'R'];
    proof {
        reveal_strlit("NUMITEMS");
        reveal_strlit("^^NB");
        reveal_strlit("NOT");
        reveal_strlit("AND");
        reveal_strlit("^^B");
        reveal_strlit("<=");
        reveal_strlit(">=");
        reveal_strlit("<>");
        reveal_strlit("OR");
        assert(numitems@ =~= "NUMITEMS"@);
        assert(nb@ =~= "^^NB"@);
        assert(not@ =~= "NOT"@);
        assert(and@ =~= "AND"@);
        assert(bl@ =~= "^^B"@);
        assert(le@ =~= "<="@);
        assert(ge@ =~= ">="@);
        assert(ne@ =~= "<>"@);
        assert(or@ =~= "OR"@);
    }
    let lb = pos == 0 || !is_ascii_alnum_exec(v[pos - 1]);
    if lb && keyword_at_exec(v, pos, &numitems) {
        Some((CfmcOperator::NumItems, 8))
    } else if occurs_at_exec(v, &nb, pos) {
        Some((CfmcOperator::IsNotBlank, 4))
    } else if lb && keyword_at_exec(v, pos, &not) {
        Some((CfmcOperator::Not, 3))
    } else if lb && keyword_at_exec(v, pos, &and) {
        Some((CfmcOperator::And, 3))
    } else if occurs_at_exec(v, &bl, pos) {
        Some((CfmcOperator::IsBlank, 3))
    } else if occurs_at_exec(v, &le, pos) {
        Some((CfmcOperator::LessEqual, 2))
    } else if occurs_at_exec(v, &ge, pos) {
        Some((CfmcOperator::GreaterEqual, 2))
    } else if occurs_at_exec(v, &ne, pos) {
        Some((CfmcOperator::NotEqual, 2))
    } else if lb && keyword_at_exec(v, pos, &or) {
        Some((CfmcOperator::Or, 2))
    } else {
        let c = v[pos];
        if c == '<' {
            Some((CfmcOperator::Less, 1))
        } else if c == '>' {
            Some((CfmcOperator::Greater, 1))
        } else if c == '=' || c == '$' || c == '#' {
            Some((CfmcOperator::Equal, 1))
        } else if c == '+' {
            Some((CfmcOperator::Plus, 1))
        } else if c == '*' {
            Some((CfmcOperator::Multiply, 1))
        } else if c == '/' {
            Some((CfmcOperator::Divide, 1))
        } else if c == ',' {
            Some((CfmcOperator::Comma, 1))
        } else if c == '-' {
            Some((CfmcOperator::Dash, 1))
        } else {
            None
        }
    }
}

pub open spec fn best_view(b: Option<(CfmcOperator, usize)>) -> Option<(CfmcOperator, int)> {
    match b {
        Some((op, p)) => Some((op, p as int)),
        None => None,
    }
}

/// The lowest-precedence operator outside quotes, parentheses and
/// brackets (the last one among equals), and its position.
pub fn find_main_operator(v: &Vec<char>) -> (r: Option<(CfmcOperator, usize)>)
    ensures
        best_view(r) == main_operator(v@),
        r matches Some((op, p)) ==> p + op_len(op) <= v.len(),
{
    let mut level: usize = 0;
    let mut bracket: usize = 0;
    let mut in_quotes = false;
    let mut lowest: u8 = 255;
    let mut best: Option<(CfmcOperator, usize)> = None;
    let mut i: usize = 0;
    while i < v.len()
        invariant
            i <= v.len(),
            level <= i,
            bracket <= i,
            main_op_scan(v@, i as int, OpScan { level: level as nat, bracket: bracket as nat, in_quotes,
                lowest: lowest as nat, best: best_view(best) }) == main_operator(v@),
            best matches Some((op, p)) ==> p + op_len(op) <= v.len(),
        decreases v.len() - i,
    {
        let c = v[i];
        if c == '"' {
            in_quotes = !in_quotes;
        } else if c == '(' && !in_quotes {
            level = level + 1;
        } else if c == ')' && !in_quotes {
            if level > 0 {
                level = level - 1;
            }
        } else if c == '[' && !in_quotes {
            bracket = bracket + 1;
        } else if c == ']' && !in_quotes {
            if bracket > 0 {
                bracket = bracket - 1;
            }
        }
        if !in_quotes && level == 0 && bracket == 0 {
            match match_operator_at(v, i) {
                Some((op, len)) => {
                    let p = operator_precedence(op);
                    if p <= lowest {
                        lowest = p;
                        best = Some((op, i));
                    }
                    i = i + len;
                },
                None => {
                    i = i + 1;
                },
            }
        } else {
            i = i + 1;
        }
    }
    best
}

/// The exec result `r` is the spec result `s` (vectors and strings by view).
pub open spec fn res_matches<T: View, U>(r: Result<T, String>, s: Result<U, Seq<char>>) -> bool
    where T: View<V = U>
{
    match s {
        Ok(v) => r is Ok && r->Ok_0@ == v,
        Err(m) => r is Err && r->Err_0@ == m,
    }
}

fn err_with(prefix: &str, s: &Vec<char>) -> (r: String)
    ensures
        r@ == prefix@ + s@,
{
    let mut m: Vec<char> = Vec::new();
    push_str(&mut m, prefix);
    extend_chars(&mut m, s.as_slice());
    string_from(m.as_slice())
}

/// One punch code: `X` is 11, `Y` is 12, a number 0..=255 stands for itself
/// (0 for 10).
pub fn parse_single_punch_code(s: &Vec<char>) -> (r: Result<u8, String>)
    ensures
        match single_code(s@) {
            Ok(c) => r == Ok::<u8, String>(c),
            Err(m) => r is Err && r->Err_0@ == m,
        },
{
    proof {
        reveal_strlit("X");
        reveal_strlit("Y");
    }
    if s.len() == 1 && s[0] == 'X' {
        assert(s@ =~= "X"@);
        return Ok(11);
    }
    if s.len() == 1 && s[0] == 'Y' {
        assert(s@ =~= "Y"@);
        return Ok(12);
    }
    assert(s@ != "X"@ && s@ != "Y"@) by {
        if s@ == "X"@ {
            assert(s@[0] == 'X');
        }
        if s@ == "Y"@ {
            assert(s@[0] == 'Y');
        }
    }
    match parse_unsigned_exec(s, 255) {
        Some(n) => Ok(if n == 0 { 10 } else { n as u8 }),
        None => Err(err_with("Invalid punch code: ", s)),
    }
}

fn code_span_exec(a: u8, b: u8, out: &mut Vec<u8>)
    ensures
        final(out)@ == old(out)@ + code_span(a, b),
{
    if a <= b {
        let mut c = a;
        loop
            invariant_except_break
                a <= c <= b,
                out@ == old(out)@ + Seq::new((c - a) as nat, |i: int| (a + i) as u8),
            ensures
                out@ == old(out)@ + Seq::new((b - a + 1) as nat, |i: int| (a + i) as u8),
            decreases b - c,
        {
            out.push(c);
            assert(out@ =~= old(out)@ + Seq::new((c + 1 - a) as nat, |i: int| (a + i) as u8));
            if c == b {
                break;
            }
            c = c + 1;
        }
    }
    assert(out@ =~= old(out)@ + code_span(a, b));
}

/// Codes of one comma-separated part, appended to `out`.
fn part_codes_exec(part: &Vec<char>, out: &mut Vec<u8>) -> (r: Result<(), String>)
    ensures
        match part_codes(part@) {
            Ok(c) => r is Ok && final(out)@ == old(out)@ + c,
            Err(m) => r is Err && r->Err_0@ == m,
        },
{
    let p = trim_chars(part);
    if p.len() == 0 {
        assert(old(out)@ + Seq::<u8>::empty() =~= old(out)@);
        return Ok(());
    }
    let sep = match find_char_exec(&p, '-') {
        Some(k) => Some(k),
        None => find_char_exec(&p, '.'),
    };
    match sep {
        Some(k) => {
            proof {
                lemma_find_char_from(p@, '-', 0);
                lemma_find_char_from(p@, '.', 0);
            }
            let left = sub_chars(&p, 0, k);
            let lt = trim_chars(&left);
            assert(left@ =~= p@.take(k as int));
            let a = match parse_single_punch_code(&lt) {
                Ok(a) => a,
                Err(e) => {
                    return Err(e);
                },
            };
            let right = sub_chars(&p, k + 1, p.len());
            let rt = trim_chars(&right);
            assert(right@ =~= p@.skip(k + 1));
            let b = match parse_single_punch_code(&rt) {
                Ok(b) => b,
                Err(e) => {
                    return Err(e);
                },
            };
            code_span_exec(a, b, out);
            Ok(())
        },
        None => {
            let c = match parse_single_punch_code(&p) {
                Ok(c) => c,
                Err(e) => {
                    return Err(e);
                },
            };
            out.push(c);
            assert(out@ =~= old(out)@ + seq![c]);
            Ok(())
        },
    }
}

/// Punch code list like `1,5,8`, `1-9` or `1.5,8`.
pub fn parse_punch_codes(cs: &Vec<char>) -> (r: Result<Vec<u8>, String>)
    ensures
        res_matches(r, punch_codes(split_char(cs@, ','))),
{
    let ghost goal = punch_codes(split_char(cs@, ','));
    let mut codes: Vec<u8> = Vec::new();
    let mut rest = sub_chars(cs, 0, cs.len());
    assert(rest@ =~= cs@);
    loop
        invariant
            goal == punch_codes(split_char(cs@, ',')),
            goal == match punch_codes(split_char(rest@, ',')) {
                Ok(r) => Ok(codes@ + r),
                Err(e) => Err(e),
            },
        decreases rest.len(),
    {
        match find_char_exec(&rest, ',') {
            Some(k) => {
                proof {
                    lemma_find_char_from(rest@, ',', 0);
                }
                let piece = sub_chars(&rest, 0, k);
                let next = sub_chars(&rest, k + 1, rest.len());
                let ghost parts = split_char(rest@, ',');
                assert(piece@ =~= rest@.take(k as int));
                assert(next@ =~= rest@.skip(k + 1));
                assert(parts == seq![piece@] + split_char(next@, ','));
                assert(parts[0] == piece@);
                assert(parts.drop_first() =~= split_char(next@, ','));
                let ghost before = codes@;
                match part_codes_exec(&piece, &mut codes) {
                    Ok(()) => {},
                    Err(e) => {
                        return Err(e);
                    },
                }
                proof {
                    match punch_codes(split_char(next@, ',')) {
                        Ok(r) => {
                            assert(codes@ + r =~= before + (part_codes(piece@)->Ok_0 + r));
                        },
                        Err(e) => {},
                    }
                }
                rest = next;
            },
            None => {
                let ghost parts = split_char(rest@, ',');
                assert(parts == seq![rest@]);
                assert(parts[0] == rest@);
                assert(parts.len() == 1);
                assert(parts.drop_first() =~= Seq::<Seq<char>>::empty());
                assert(punch_codes(Seq::<Seq<char>>::empty()) == Ok::<Seq<u8>, Seq<char>>(Seq::empty()));
                let ghost before = codes@;
                match part_codes_exec(&rest, &mut codes) {
                    Ok(()) => {},
                    Err(e) => {
                        return Err(e);
                    },
                }
                assert(codes@ =~= before + (part_codes(rest@)->Ok_0 + Seq::<u8>::empty()));
                return Ok(codes);
            },
        }
    }
}

/// A leaf: a quoted literal, a label, or a literal.
pub fn parse_leaf(t: &Vec<char>) -> (r: Option<CfmcNode>)
    ensures
        match leaf(t@) {
            Some(x) => r matches Some(n) && n.tree() == x,
            None => r is None,
        },
{
    let n = t.len();
    if n > 0 && t[0] == '"' && t[n - 1] == '"' {
        if n < 2 {
            return None;
        }
        let inner = sub_chars(t, 1, n - 1);
        return Some(CfmcNode::Literal(string_from(inner.as_slice())));
    }
    let c = if n >= 2 && t[0] == '(' && t[n - 1] == ')' { sub_chars(t, 1, n - 1) } else { sub_chars(t, 0, n) };
    assert(t@.subrange(0, n as int) =~= t@);
    assert(c@ == unwrap_parens(t@));
    let ghost cv = c@;
    assert(!(t@.len() > 0 && t@[0] == '"' && t@.last() == '"'));
    if c.len() == 0 || !is_alphabetic(c[0]) {
        assert(leaf(t@) == Some(CfmcTree::Literal(c@)));
        return Some(CfmcNode::Literal(string_from(c.as_slice())));
    }
    let mut i: usize = 0;
    while i < c.len()
        invariant
            i <= c.len(),
            c@ == cv,
            cv == unwrap_parens(t@),
            !(t@.len() > 0 && t@[0] == '"' && t@.last() == '"'),
            c.len() > 0 && char_is_alphabetic_spec(c@[0]),
            forall|j: int| 0 <= j < i ==> crate::text::char_is_alphanumeric(#[trigger] c@[j]) || c@[j] == '_',
        decreases c.len() - i,
    {
        if !(is_alphanumeric(c[i]) || c[i] == '_') {
            assert(!(crate::text::char_is_alphanumeric(c@[i as int]) || c@[i as int] == '_'));
            assert(!is_label(c@));
            assert(leaf(t@) == Some(CfmcTree::Literal(c@)));
            return Some(CfmcNode::Literal(string_from(c.as_slice())));
        }
        i = i + 1;
    }
    assert(!(t@.len() > 0 && t@[0] == '"' && t@.last() == '"'));
    assert(leaf(t@) == Some(CfmcTree::QuestionLabel(c@)));
    Some(CfmcNode::QuestionLabel(string_from(c.as_slice())))
}

pub open spec fn char_is_alphabetic_spec(c: char) -> bool {
    crate::text::char_is_alphabetic(c)
}

/// A column reference `col.width` or `col`.
pub fn parse_column_ref(inner: &Vec<char>) -> (r: Option<CfmcNode>)
    ensures
        match column_ref(inner@) {
            Some(x) => r matches Some(n) && n.tree() == x,
            None => r is None,
        },
{
    match find_char_exec(inner, '.') {
        Some(k) => {
            proof {
                lemma_find_char_from(inner@, '.', 0);
            }
            let a = sub_chars(inner, 0, k);
            let b = sub_chars(inner, k + 1, inner.len());
            assert(a@ =~= inner@.take(k as int));
            assert(b@ =~= inner@.skip(k + 1));
            let max = usize::MAX as u64;
            match (parse_unsigned_exec(&a, max), parse_unsigned_exec(&b, max)) {
                (Some(c), Some(w)) => Some(CfmcNode::ColumnRef { col: c as usize, width: w as usize }),
                _ => None,
            }
        },
        None => {
            if inner.len() > 0 && crate::text::digits_only(inner, 0, inner.len()) {
                assert(inner@.subrange(0, inner.len() as int) =~= inner@);
                match parse_unsigned_exec(inner, usize::MAX as u64) {
                    Some(c) => Some(CfmcNode::ColumnRef { col: c as usize, width: 1 }),
                    None => None,
                }
            } else {
                assert(inner@.subrange(0, inner.len() as int) =~= inner@);
                None
            }
        },
    }
}

/// Why parsing stopped: a syntax error, or an input on which parsing
/// cannot complete.
pub enum ParseFail {
    Fail(String),
    Crash,
}

/// The exec result `r` is what the spec result `sp` describes.
pub open spec fn node_res(r: Result<CfmcNode, ParseFail>, sp: Option<Result<CfmcTree, Seq<char>>>) -> bool {
    match sp {
        None => r matches Err(ParseFail::Crash),
        Some(Ok(t)) => r matches Ok(n) && n.tree() == t,
        Some(Err(m)) => r matches Err(ParseFail::Fail(e)) && e@ == m,
    }
}

fn fail_op(prefix: &str, op: CfmcOperator) -> (r: ParseFail)
    ensures
        r matches ParseFail::Fail(e) && e@ == prefix@ + op_debug(op),
{
    let mut m: Vec<char> = Vec::new();
    push_str(&mut m, prefix);
    push_op_debug(&mut m, op);
    ParseFail::Fail(string_from(m.as_slice()))
}

/// Whether the first `n` characters of `t` (all of `t` when it is shorter)
/// hold Unicode whitespace.
fn has_ws_prefix(t: &Vec<char>, n: usize) -> (r: bool)
    requires
        n <= t.len(),
    ensures
        r == has_whitespace(t@.take(n as int)),
{
    let mut i: usize = 0;
    while i < n
        invariant
            i <= n <= t.len(),
            forall|j: int| 0 <= j < i ==> !char_is_whitespace(#[trigger] t@.take(n as int)[j]),
        decreases n - i,
    {
        assert(t@.take(n as int)[i as int] == t@[i as int]);
        if is_whitespace(t[i]) {
            return true;
        }
        i = i + 1;
    }
    false
}

/// Parse `t`, which must be shorter than `limit`.
fn sub_parse_exec(t: &Vec<char>, limit: usize) -> (r: Result<CfmcNode, ParseFail>)
    ensures
        node_res(r, sub_parse(t@, limit as int)),
    decreases limit, 0int,
{
    if t.len() < limit {
        parse_node(t)
    } else {
        Err(ParseFail::Crash)
    }
}

fn unary_exec(op: CfmcOperator, r: Result<CfmcNode, ParseFail>) -> (out: Result<CfmcNode, ParseFail>)
    ensures
        forall|sp: Option<Result<CfmcTree, Seq<char>>>| node_res(r, sp) ==> node_res(out, unary_of(op, sp)),
{
    match r {
        Ok(n) => Ok(CfmcNode::Unary { operator: op, operand: Box::new(n) }),
        Err(e) => Err(e),
    }
}

/// A punch reference inside brackets; `Ok(None)` when `inner` is not one.
fn punch_ref_exec(inner: &Vec<char>, limit: usize) -> (r: Result<Option<CfmcNode>, ParseFail>)
    ensures
        match punch_ref(inner@, limit as int) {
            None => r matches Err(ParseFail::Crash),
            Some(Err(m)) => r matches Err(ParseFail::Fail(e)) && e@ == m,
            Some(Ok(None)) => r matches Ok(None),
            Some(Ok(Some(t))) => r matches Ok(Some(n)) && n.tree() == t,
        },
    decreases limit, 2int,
{
    let dd: [char; 2] = ['^', '^'];
    proof {
        reveal_strlit("^^");
        reveal_strlit("B");
        reveal_strlit("NB");
        assert(dd@ =~= "^^"@);
    }
    let (pos, multi) = match find_seq_exec(inner, &dd) {
        Some(p) => {
            proof {
                crate::text::lemma_find_seq_from(inner@, "^^"@, 0);
                assert(occurs_at(inner@, "^^"@, p as int));
            }
            assert(p + 2 <= inner.len());
            let after = sub_chars(inner, p + 2, inner.len());
            let is_b = after.len() == 1 && after[0] == 'B';
            let is_nb = after.len() == 2 && after[0] == 'N' && after[1] == 'B';
            proof {
                if is_b {
                    assert(after@ =~= "B"@);
                }
                if is_nb {
                    assert(after@ =~= "NB"@);
                }
                if after@ == "B"@ {
                    assert(after@[0] == 'B');
                }
                if after@ == "NB"@ {
                    assert(after@[0] == 'N' && after@[1] == 'B');
                }
            }
            if is_b || is_nb {
                return Ok(None);
            }
            (p, true)
        },
        None => match find_char_exec(inner, '^') {
            Some(p) => {
                proof {
                    lemma_find_char_from(inner@, '^', 0);
                    assert(find_char_from(inner@, '^', 0) == Some(p as int));
                }
                assert(p < inner.len());
                (p, false)
            },
            None => {
                return Ok(None);
            },
        },
    };
    let caret_len: usize = if multi { 2 } else { 1 };
    assert(pos + caret_len <= inner.len());
    let loc = sub_chars(inner, 0, pos);
    let codes_str = sub_chars(inner, pos + caret_len, inner.len());
    let mut wrapped: Vec<char> = Vec::new();
    wrapped.push('[');
    extend_chars(&mut wrapped, loc.as_slice());
    wrapped.push(']');
    proof {
        reveal_strlit("[");
        reveal_strlit("]");
        assert(loc@ =~= inner@.take(pos as int));
        assert(codes_str@ =~= inner@.skip(pos + caret_len));
        assert(wrapped@ =~= "["@ + inner@.take(pos as int) + "]"@);
    }
    let location = match sub_parse_exec(&wrapped, limit) {
        Ok(n) => n,
        Err(e) => {
            return Err(e);
        },
    };
    let negated = codes_str.len() > 0 && codes_str[0] == 'N';
    let cs = if negated { sub_chars(&codes_str, 1, codes_str.len()) } else { sub_chars(&codes_str, 0, codes_str.len()) };
    proof {
        if negated {
            assert(cs@ =~= codes_str@.drop_first());
        } else {
            assert(cs@ =~= codes_str@);
        }
    }
    match parse_punch_codes(&cs) {
        Ok(codes) => Ok(Some(CfmcNode::PunchRef { location: Box::new(location), codes, multi_col: multi, negated })),
        Err(e) => Err(ParseFail::Fail(e)),
    }
}

/// Parse the trimmed text `t` of an argument of length `limit`.
fn parse_trimmed_exec(limit: usize, t: &Vec<char>) -> (r: Result<CfmcNode, ParseFail>)
    ensures
        node_res(r, parse_trimmed(limit as int, t@)),
    decreases limit, 1int,
{
    if t.len() == 0 {
        proof {
            reveal_strlit("Empty expression");
        }
        let m = err_with("Empty expression", &Vec::new());
        assert(m@ =~= "Empty expression"@);
        return Err(ParseFail::Fail(m));
    }
    match find_main_operator(t) {
        Some((op, pos)) => {
            let olen = operator_length(op);
            if op == CfmcOperator::Not || op == CfmcOperator::NumItems {
                let operand = sub_chars(t, pos + olen, t.len());
                assert(operand@ =~= t@.skip(pos + olen));
                let r = sub_parse_exec(&operand, limit);
                unary_exec(op, r)
            } else if op == CfmcOperator::IsBlank || op == CfmcOperator::IsNotBlank {
                let ot = sub_chars(t, 0, pos);
                assert(ot@ =~= t@.take(pos as int));
                let dotted = find_char_exec(&ot, '.').is_some() && digits_or_dots(&ot);
                let input = if dotted {
                    let mut w: Vec<char> = Vec::new();
                    w.push('[');
                    extend_chars(&mut w, ot.as_slice());
                    w.push(']');
                    proof {
                        reveal_strlit("[");
                        reveal_strlit("]");
                    }
                    assert(w@ =~= "["@ + ot@ + "]"@);
                    w
                } else {
                    ot
                };
                assert(input@ == blank_operand(t@.take(pos as int)));
                let r = sub_parse_exec(&input, limit);
                unary_exec(op, r)
            } else {
                let lt = sub_chars(t, 0, pos);
                let rt = sub_chars(t, pos + olen, t.len());
                assert(lt@ =~= t@.take(pos as int));
                assert(rt@ =~= t@.skip(pos + olen));
                if lt.len() == 0 {
                    return Err(fail_op("Missing left operand for operator ", op));
                }
                let left = match sub_parse_exec(&lt, limit) {
                    Ok(n) => n,
                    Err(e) => {
                        return Err(e);
                    },
                };
                if rt.len() == 0 {
                    return Err(fail_op("Missing right operand for operator ", op));
                }
                let right = match sub_parse_exec(&rt, limit) {
                    Ok(n) => n,
                    Err(e) => {
                        return Err(e);
                    },
                };
                Ok(CfmcNode::Binary { operator: op, left: Box::new(left), right: Box::new(right) })
            }
        },
        None => {
            let lf = parse_leaf(t);
            let lf_res: Result<CfmcNode, ParseFail> = match lf {
                Some(n) => Ok(n),
                None => Err(ParseFail::Crash),
            };
            match find_char_exec(t, '(') {
                Some(k) => {
                    proof {
                        lemma_find_char_from(t@, '(', 0);
                    }
                    if k == 0 {
                        return lf_res;
                    }
                    let bp = byte_prefix(t, k);
                    let n = if bp < t.len() as u128 { bp as usize } else { t.len() };
                    if has_ws_prefix(t, n) {
                        return lf_res;
                    }
                    let lt = sub_chars(t, 0, k);
                    assert(lt@ =~= t@.take(k as int));
                    if k + 1 > t.len() - 1 {
                        return Err(ParseFail::Crash);
                    }
                    if known_function(&lt) {
                        let inner = sub_chars(t, k + 1, t.len() - 1);
                        let arg = match sub_parse_exec(&inner, limit) {
                            Ok(n) => n,
                            Err(e) => {
                                return Err(e);
                            },
                        };
                        let mut args: Vec<CfmcNode> = Vec::new();
                        args.push(arg);
                        let ghost a0 = args@[0];
                        assert(trees(args@, 1) =~= Seq::<CfmcTree>::empty());
                        assert(trees(args@, 0) =~= seq![a0.tree()]);
                        return Ok(CfmcNode::FunctionCall { name: string_from(lt.as_slice()), args });
                    }
                    let iv = sub_chars(t, k + 1, t.len() - 1);
                    if iv.len() >= 2 && iv[0] == '<' && iv[1] == '>' {
                        let rest = sub_chars(&iv, 2, iv.len());
                        assert(rest@ =~= iv@.skip(2));
                        let left = match sub_parse_exec(&lt, limit) {
                            Ok(n) => n,
                            Err(e) => {
                                return Err(e);
                            },
                        };
                        let right = match sub_parse_exec(&rest, limit) {
                            Ok(n) => n,
                            Err(e) => {
                                return Err(e);
                            },
                        };
                        Ok(CfmcNode::Binary { operator: CfmcOperator::NotEqual, left: Box::new(left), right: Box::new(right) })
                    } else {
                        let rt = sub_chars(t, k, t.len());
                        assert(rt@ =~= t@.skip(k as int));
                        let left = match sub_parse_exec(&lt, limit) {
                            Ok(n) => n,
                            Err(e) => {
                                return Err(e);
                            },
                        };
                        let right = match sub_parse_exec(&rt, limit) {
                            Ok(n) => n,
                            Err(e) => {
                                return Err(e);
                            },
                        };
                        Ok(CfmcNode::Binary { operator: CfmcOperator::Equal, left: Box::new(left), right: Box::new(right) })
                    }
                },
                None => lf_res,
            }
        },
    }
}

/// Whether every character of `v` is an ASCII digit or `.`.
fn digits_or_dots(v: &Vec<char>) -> (r: bool)
    ensures
        r == (forall|j: int| 0 <= j < v@.len() ==> is_digit(#[trigger] v@[j]) || v@[j] == '.'),
{
    let mut i: usize = 0;
    while i < v.len()
        invariant
            i <= v.len(),
            forall|j: int| 0 <= j < i ==> is_digit(#[trigger] v@[j]) || v@[j] == '.',
        decreases v.len() - i,
    {
        if !(('0' <= v[i] && v[i] <= '9') || v[i] == '.') {
            return false;
        }
        i = i + 1;
    }
    true
}

/// `X`, `XF`, `CHECKTEXT`, `NUMRESP` or `NUMBER_OF_RESPONSES`.
fn known_function(name: &Vec<char>) -> (r: bool)
    ensures
        r == is_known_function(name@),
{
    proof {
        reveal_strlit("X");
        reveal_strlit("XF");
        reveal_strlit("CHECKTEXT");
        reveal_strlit("NUMRESP");
        reveal_strlit("NUMBER_OF_RESPONSES");
    }
    let x: [char; 1] = ['X'];
    let xf: [char; 2] = ['X', 'F'];
    let ct: [char; 9] = ['C', 'H', 'E', 'C', 'K', 'T', 'E', 'X', 'T'];
    let nr: [char; 7] = ['N', 'U', 'M', 'R', 'E', 'S', 'P'];
    let nor: [char; 19] = ['N', 'U', 'M', 'B', 'E', 'R', '_', 'O', 'F', '_', 'R', 'E', 'S', 'P', 'O', 'N', 'S', 'E', 'S'];
    assert(x@ =~= "X"@);
    assert(xf@ =~= "XF"@);
    assert(ct@ =~= "CHECKTEXT"@);
    assert(nr@ =~= "NUMRESP"@);
    assert(nor@ =~= "NUMBER_OF_RESPONSES"@);
    same_chars(name, &x) || same_chars(name, &xf) || same_chars(name, &ct) || same_chars(name, &nr)
        || same_chars(name, &nor)
}

fn same_chars(a: &Vec<char>, b: &[char]) -> (r: bool)
    ensures
        r == (a@ == b@),
{
    if a.len() != b.len() {
        return false;
    }
    let mut i: usize = 0;
    while i < a.len()
        invariant
            i <= a.len() == b.len(),
            forall|j: int| 0 <= j < i ==> a@[j] == b@[j],
        decreases a.len() - i,
    {
        if a[i] != b[i] {
            return false;
        }
        i = i + 1;
    }
    assert(a@ =~= b@);
    true
}

/// Parse one node of a CFMC expression.
pub fn parse_node(s: &Vec<char>) -> (r: Result<CfmcNode, ParseFail>)
    ensures
        node_res(r, cfmc_parse(s@)),
    decreases s.len(), 3int,
{
    let tr = trim_chars(s);
    let raw = upper_chars(&tr);
    if raw.len() >= 2 && raw[0] == '[' && raw[raw.len() - 1] == ']' && strip_scan_exec(&raw, '[', ']', raw.len() as u128).0 {
        let inner = sub_chars(&raw, 1, raw.len() - 1);
        match punch_ref_exec(&inner, s.len()) {
            Err(e) => {
                return Err(e);
            },
            Ok(Some(n)) => {
                return Ok(n);
            },
            Ok(None) => {
                if let Some(n) = parse_column_ref(&inner) {
                    return Ok(n);
                }
            },
        }
    }
    let t = trim_expression(s);
    parse_trimmed_exec(s.len(), &t)
}

/// What parsing `e` gives, in terms of the library's types.
pub open spec fn logic_outcome(e: Seq<char>, r: Result<CfmcLogic, String>) -> bool {
    match logic_parse(e) {
        Some(Ok(t)) => r is Ok && r->Ok_0@ == t,
        Some(Err(m)) => r is Err && r->Err_0@ == m,
        None => false,
    }
}

impl CfmcLogic {
    /// Balance check over the input expression: stray closing `)` / `]`
    /// are dropped from the returned text and reported as warnings; unclosed
    /// `(`, `[` or `"` are errors.
    pub fn check_balance(expr: &str) -> (r: Result<(String, Vec<String>), String>)
        ensures
            match check_balance_spec(expr@) {
                Ok((c, w)) => r is Ok && r->Ok_0.0@ == c && strings_view(r->Ok_0.1@) == w,
                Err(m) => r is Err && r->Err_0@ == m,
            },
    {
        check_balance_impl(expr)
    }

    /// Parse a CFMC logic expression, or `None` on an input on which the
    /// parser cannot complete.
    pub fn try_parse(expression: &str) -> (r: Option<Result<CfmcLogic, String>>)
        ensures
            r is None <==> logic_parse(expression@) is None,
            r matches Some(res) ==> logic_outcome(expression@, res),
    {
        let (cleaned, _warnings) = match check_balance_impl(expression) {
            Ok(x) => x,
            Err(e) => {
                return Some(Err(e));
            },
        };
        let cv = chars_of(cleaned.as_str());
        let trimmed = trim_expression(&cv);
        match parse_node(&trimmed) {
            Ok(root) => Some(Ok(CfmcLogic { root })),
            Err(ParseFail::Fail(m)) => Some(Err(m)),
            Err(ParseFail::Crash) => None,
        }
    }

    /// Parse a CFMC logic expression.
    pub fn parse(expression: &str) -> (r: Result<CfmcLogic, String>)
        requires
            logic_parse(expression@) is Some,
        ensures
            logic_outcome(expression@, r),
    {
        Self::try_parse(expression).unwrap()
    }
}

} // verus!
