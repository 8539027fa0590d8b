//! Recursive-descent parser for UNCLE qualifications, proved to build what
//! the grammar in `uncle_grammar` describes.

use vstd::prelude::*;

use crate::text::{
    nat_str, debug_str,
    ascii_lower_exec, chars_of, is_alphanumeric, is_ascii_ws, is_digit, push_debug_char,
    push_debug_opt_char, push_debug_str, push_str, string_from, to_uppercase, usize_to_chars,
    digits_to_usize, digits_to_i64, sub_chars, lemma_dec_value_nonneg, dec_value, extend_chars,
};
use crate::weight::uncle::{
    copy_codes, CodeVal, LiteralMatch, RQual, RValue, Relation, Term, UncleExpr, UncleModel,
    fields_model,
};
use crate::weight::uncle_grammar::{
    and_rest, basic_term, can_start_term, code_range, code_spec, col_range, colon_is_position,
    comma_is_position, consume_at, digits_end, ellipsis_expand, field_group, i64_digits, keyword_at,
    kw_and, kw_not, kw_or, lemma_digits_end, lemma_skip_ws, literal_string_at, norm_code, or_chain,
    or_rest, parse_and, parse_or, parse_primary, parse_spec, parse_unary, parse_usize_at, peek,
    position_list, quote_end, r_body, r_ellipsis, r_fields, r_values, record_prefix_at, relation_at,
    relation_char_at, skip_ws, Step,
};

verus! {

/// Failure of a parsing step: a parse error message, or an input on which
/// parsing cannot complete.
pub enum PErr {
    Fail(Vec<char>),
    Crash,
}

/// The exec result `r`, with the parser left at `pos`, is what the grammar
/// step `st` describes (values compared through `view`).
pub open spec fn step_ok<T, V>(st: Step<V>, r: Result<T, PErr>, pos: int, view: spec_fn(T) -> V) -> bool {
    match st {
        Step::Done(v, q) => r is Ok && view(r->Ok_0) == v && pos == q,
        Step::Fail(q, m) => r matches Err(PErr::Fail(e)) && e@ == m && pos == q,
        Step::Crash => r matches Err(PErr::Crash),
    }
}

pub struct Parser {
    pub chars: Vec<char>,
    pub pos: usize,
}

pub open spec fn same_input(a: &Parser, b: &Parser) -> bool {
    &&& a.chars@ == b.chars@
    &&& a.pos <= b.pos <= b.chars.len()
}

impl Parser {
    pub fn new(input: &str) -> (r: Self)
        ensures
            r.chars@ == input@,
            r.pos == 0,
    {
        Parser { chars: chars_of(input), pos: 0 }
    }

    pub fn peek(&self) -> (r: Option<char>)
        ensures
            r == peek(self.chars@, self.pos as int),
    {
        if self.pos < self.chars.len() {
            Some(self.chars[self.pos])
        } else {
            None
        }
    }

    pub fn peek_at(&self, offset: usize) -> (r: Option<char>)
        requires
            self.pos <= self.chars.len(),
            offset <= 3,
        ensures
            r == peek(self.chars@, self.pos + offset),
    {
        if offset < self.chars.len() - self.pos {
            Some(self.chars[self.pos + offset])
        } else {
            None
        }
    }

    pub fn skip_whitespace(&mut self)
        requires
            old(self).pos <= old(self).chars.len(),
        ensures
            final(self).chars@ == old(self).chars@,
            final(self).pos == skip_ws(old(self).chars@, old(self).pos as int),
            old(self).pos <= final(self).pos <= final(self).chars.len(),
    {
        proof {
            lemma_skip_ws(self.chars@, self.pos as int);
        }
        let ghost goal = skip_ws(self.chars@, self.pos as int);
        while self.pos < self.chars.len() && (self.chars[self.pos] == ' ' || self.chars[self.pos] == '\t'
            || self.chars[self.pos] == '\n' || self.chars[self.pos] == '\x0C' || self.chars[self.pos] == '\r')
            invariant
                self.chars@ == old(self).chars@,
                old(self).pos <= self.pos <= self.chars.len(),
                skip_ws(self.chars@, self.pos as int) == goal,
            decreases self.chars.len() - self.pos,
        {
            self.pos = self.pos + 1;
        }
    }

    /// End of the digit run that starts at `from`.
    pub fn digits_end_from(&self, from: usize) -> (r: usize)
        requires
            from <= self.chars.len(),
        ensures
            r == digits_end(self.chars@, from as int),
            from <= r <= self.chars.len(),
    {
        proof {
            lemma_digits_end(self.chars@, from as int);
        }
        let mut i = from;
        while i < self.chars.len() && '0' <= self.chars[i] && self.chars[i] <= '9'
            invariant
                from <= i <= self.chars.len(),
                digits_end(self.chars@, i as int) == digits_end(self.chars@, from as int),
            decreases self.chars.len() - i,
        {
            i = i + 1;
        }
        i
    }

    /// Consume a keyword (ASCII case-insensitive) followed by a word boundary.
    pub fn try_keyword(&mut self, kw: &[char]) -> (r: bool)
        requires
            old(self).pos <= old(self).chars.len(),
            kw.len() <= 3,
        ensures
            final(self).chars@ == old(self).chars@,
            r == keyword_at(old(self).chars@, old(self).pos as int, kw@),
            final(self).pos == if r { old(self).pos + kw.len() } else { old(self).pos as int },
    {
        let n = kw.len();
        if n > self.chars.len() - self.pos {
            return false;
        }
        let mut i: usize = 0;
        while i < n
            invariant
                i <= n == kw.len(),
                self.pos + n <= self.chars.len(),
                forall|j: int| 0 <= j < i ==> crate::text::ascii_lower(#[trigger] kw@[j]) == crate::text::ascii_lower(self.chars@[self.pos + j]),
            decreases n - i,
        {
            if ascii_lower_exec(kw[i]) != ascii_lower_exec(self.chars[self.pos + i]) {
                return false;
            }
            i = i + 1;
        }
        if self.pos + n < self.chars.len() && is_alphanumeric(self.chars[self.pos + n]) {
            return false;
        }
        self.pos = self.pos + n;
        true
    }

    fn fail_msg(prefix: &str) -> (r: Vec<char>)
        ensures
            r@ == prefix@,
    {
        let mut m = Vec::new();
        push_str(&mut m, prefix);
        assert(m@ =~= prefix@);
        m
    }

    pub fn consume_char(&mut self, expected: char) -> (r: Result<(), PErr>)
        requires
            old(self).pos <= old(self).chars.len(),
        ensures
            same_input(old(self), final(self)),
            step_ok(consume_at(old(self).chars@, old(self).pos as int, expected), r, final(self).pos as int, |u: ()| u),
    {
        match self.peek() {
            Some(c) => {
                if c == expected {
                    self.pos = self.pos + 1;
                    Ok(())
                } else {
                    let mut m = Self::fail_msg("expected ");
                    push_debug_char(&mut m, expected);
                    push_str(&mut m, ", got ");
                    push_debug_char(&mut m, c);
                    Err(PErr::Fail(m))
                }
            },
            None => {
                let mut m = Self::fail_msg("expected ");
                push_debug_char(&mut m, expected);
                push_str(&mut m, ", got end of input");
                Err(PErr::Fail(m))
            },
        }
    }

    /// A run of ASCII digits as `usize`.
    pub fn parse_usize(&mut self) -> (r: Result<usize, PErr>)
        requires
            old(self).pos <= old(self).chars.len(),
        ensures
            same_input(old(self), final(self)),
            step_ok(parse_usize_at(old(self).chars@, old(self).pos as int), r, final(self).pos as int, |x: usize| x),
    {
        let start = self.pos;
        let end = self.digits_end_from(start);
        proof {
            lemma_digits_end(self.chars@, start as int);
        }
        if end == start {
            let mut m = Self::fail_msg("expected a number, got ");
            push_debug_opt_char(&mut m, self.peek());
            return Err(PErr::Fail(m));
        }
        self.pos = end;
        assert(crate::text::all_digits(self.chars@.subrange(start as int, end as int))) by {
            assert forall|i: int| 0 <= i < end - start implies is_digit(#[trigger] self.chars@.subrange(start as int, end as int)[i]) by {
                assert(self.chars@.subrange(start as int, end as int)[i] == self.chars@[start + i]);
            }
        }
        match digits_to_usize(&self.chars, start, end) {
            Some(v) => Ok(v),
            None => {
                let mut m = Self::fail_msg("invalid number ");
                push_debug_str(&mut m, &self.chars, start, end);
                push_str(&mut m, ": number too large to fit in target type");
                Err(PErr::Fail(m))
            },
        }
    }

    fn is_relation_at(&self, i: usize) -> (r: bool)
        requires
            i <= self.chars.len(),
        ensures
            r == relation_char_at(self.chars@, i as int),
    {
        if i < self.chars.len() {
            let c = self.chars[i];
            if c == '-' || c == '=' {
                true
            } else if c == 'N' {
                if i + 1 < self.chars.len() {
                    let d = self.chars[i + 1];
                    ('0' <= d && d <= '9') || d == '$' || d == ','
                } else {
                    false
                }
            } else {
                false
            }
        } else {
            false
        }
    }

    fn next_after_colon_is_position(&self) -> (r: bool)
        requires
            self.pos < self.chars.len(),
        ensures
            r == colon_is_position(self.chars@, self.pos as int),
    {
        let i = self.digits_end_from(self.pos + 1);
        if i >= self.chars.len() {
            return false;
        }
        self.is_relation_at(i)
    }

    fn next_after_comma_is_position(&self) -> (r: bool)
        requires
            self.pos < self.chars.len(),
        ensures
            r == comma_is_position(self.chars@, self.pos as int),
    {
        let mut i = self.digits_end_from(self.pos + 1);
        if i < self.chars.len() && self.chars[i] == ':' {
            i = self.digits_end_from(i + 1);
        }
        if i >= self.chars.len() {
            return false;
        }
        self.is_relation_at(i)
    }

    /// Positions `n`, `n:m` separated by `,`, until a relation follows.
    fn parse_position_list(&mut self) -> (r: Result<Vec<usize>, PErr>)
        requires
            old(self).pos <= old(self).chars.len(),
        ensures
            same_input(old(self), final(self)),
            step_ok(position_list(old(self).chars@, old(self).pos as int, Seq::empty()), r, final(self).pos as int, |v: Vec<usize>| v@),
    {
        let ghost s = self.chars@;
        let ghost goal = position_list(s, self.pos as int, Seq::empty());
        let ghost start = self.pos as int;
        let mut positions: Vec<usize> = Vec::new();
        loop
            invariant
                self.chars@ == s,
                s == old(self).chars@,
                start == old(self).pos,
                goal == position_list(s, start, Seq::empty()),
                start <= self.pos <= self.chars.len(),
                position_list(s, self.pos as int, positions@) == goal,
            decreases self.chars.len() - self.pos,
        {
            let ghost p = self.pos as int;
            let first = match self.parse_usize() {
                Ok(v) => v,
                Err(e) => {
                    return Err(e);
                },
            };
            if self.peek() == Some(':') {
                if self.next_after_colon_is_position() {
                    self.pos = self.pos + 1;
                    let last = match self.parse_usize() {
                        Ok(v) => v,
                        Err(e) => {
                            return Err(e);
                        },
                    };
                    let ghost before = positions@;
                    push_col_range(&mut positions, first, last);
                    if self.peek() == Some(',') && self.next_after_comma_is_position() {
                        self.pos = self.pos + 1;
                    } else {
                        return Ok(positions);
                    }
                } else {
                    positions.push(first);
                    return Ok(positions);
                }
            } else {
                positions.push(first);
                if self.peek() == Some(',') && self.next_after_comma_is_position() {
                    self.pos = self.pos + 1;
                } else {
                    return Ok(positions);
                }
            }
        }
    }

    fn parse_relation(&mut self) -> (r: Result<Relation, PErr>)
        requires
            old(self).pos <= old(self).chars.len(),
        ensures
            same_input(old(self), final(self)),
            step_ok(relation_at(old(self).chars@, old(self).pos as int), r, final(self).pos as int, |x: Relation| x),
    {
        match self.peek() {
            Some(c) => {
                if c == '-' {
                    self.pos = self.pos + 1;
                    return Ok(Relation::Has);
                } else if c == '=' {
                    self.pos = self.pos + 1;
                    return Ok(Relation::Exclusive);
                } else if c == 'N' {
                    self.pos = self.pos + 1;
                    return Ok(Relation::NotHas);
                }
            },
            None => {},
        }
        let mut m = Self::fail_msg("expected relation (-, =, N), got ");
        push_debug_opt_char(&mut m, self.peek());
        Err(PErr::Fail(m))
    }

    /// Codes `$`, `n`, `n:m` separated by `,` (10 stands for 0).
    fn parse_code_spec(&mut self) -> (r: Result<Vec<CodeVal>, PErr>)
        requires
            old(self).pos <= old(self).chars.len(),
        ensures
            same_input(old(self), final(self)),
            step_ok(code_spec(old(self).chars@, old(self).pos as int, Seq::empty()), r, final(self).pos as int, |v: Vec<CodeVal>| v@),
    {
        let ghost s = self.chars@;
        let ghost goal = code_spec(s, self.pos as int, Seq::empty());
        let ghost start = self.pos as int;
        let mut codes: Vec<CodeVal> = Vec::new();
        loop
            invariant
                self.chars@ == s,
                s == old(self).chars@,
                start == old(self).pos,
                goal == code_spec(s, start, Seq::empty()),
                start <= self.pos <= self.chars.len(),
                code_spec(s, self.pos as int, codes@) == goal,
            decreases self.chars.len() - self.pos,
        {
            let ghost p = self.pos as int;
            match self.peek() {
                Some(c) => {
                    if c == '$' {
                        self.pos = self.pos + 1;
                        codes.push(CodeVal::Blank);
                    } else if '0' <= c && c <= '9' {
                        let a = match self.parse_usize() {
                            Ok(v) => v,
                            Err(e) => {
                                return Err(e);
                            },
                        };
                        let lo = (a % 256) as u8;
                        if self.peek() == Some(':') {
                            self.pos = self.pos + 1;
                            let b = match self.parse_usize() {
                                Ok(v) => v,
                                Err(e) => {
                                    return Err(e);
                                },
                            };
                            push_code_range(&mut codes, lo, (b % 256) as u8);
                        } else {
                            codes.push(CodeVal::Numeric(if lo == 10 { 0 } else { lo }));
                        }
                    } else {
                        let mut m = Self::fail_msg("expected code (digit or $), got ");
                        push_debug_opt_char(&mut m, self.peek());
                        return Err(PErr::Fail(m));
                    }
                },
                None => {
                    let mut m = Self::fail_msg("expected code (digit or $), got ");
                    push_debug_opt_char(&mut m, self.peek());
                    return Err(PErr::Fail(m));
                },
            }
            if self.peek() == Some(',') {
                self.pos = self.pos + 1;
            } else {
                if codes.len() == 0 {
                    let m = Self::fail_msg("empty code specification");
                    return Err(PErr::Fail(m));
                }
                return Ok(codes);
            }
        }
    }

    /// `'TEXT'` (the current character is the opening quote).
    fn parse_literal_string(&mut self) -> (r: Result<Vec<char>, PErr>)
        requires
            old(self).pos < old(self).chars.len(),
            old(self).chars@[old(self).pos as int] == '\'',
        ensures
            same_input(old(self), final(self)),
            step_ok(literal_string_at(old(self).chars@, old(self).pos as int), r, final(self).pos as int, |v: Vec<char>| v@),
    {
        let ghost s = self.chars@;
        let start = self.pos;
        self.pos = self.pos + 1;
        let mut lit: Vec<char> = Vec::new();
        while self.pos < self.chars.len() && self.chars[self.pos] != '\''
            invariant
                self.chars@ == s,
                start < self.pos <= self.chars.len(),
                lit@ == s.subrange(start + 1, self.pos as int),
                quote_end(s, self.pos as int) == quote_end(s, start + 1),
            decreases self.chars.len() - self.pos,
        {
            lit.push(self.chars[self.pos]);
            self.pos = self.pos + 1;
            assert(lit@ =~= s.subrange(start + 1, self.pos as int));
        }
        if self.pos >= self.chars.len() {
            let m = Self::fail_msg("unterminated literal string");
            return Err(PErr::Fail(m));
        }
        self.pos = self.pos + 1;
        Ok(lit)
    }

    /// `[1!]positions relation codes` or `[1!]positions 'TEXT'`.
    fn parse_basic_term(&mut self) -> (r: Result<UncleExpr, PErr>)
        requires
            old(self).pos <= old(self).chars.len(),
        ensures
            same_input(old(self), final(self)),
            step_ok(basic_term(old(self).chars@, old(self).pos as int), r, final(self).pos as int, |e: UncleExpr| e@),
    {
        if self.peek() == Some('1') && self.peek_at(1) == Some('!') {
            self.pos = self.pos + 2;
        }
        let positions = self.parse_position_list()?;
        let saved = self.pos;
        self.skip_whitespace();
        if self.peek() == Some('\'') {
            let lit = self.parse_literal_string()?;
            if positions.len() == 0 {
                return Err(PErr::Crash);
            }
            return Ok(UncleExpr::Literal(LiteralMatch { start_col: positions[0], value: string_from(lit.as_slice()) }));
        }
        self.pos = saved;
        let relation = self.parse_relation()?;
        let codes = self.parse_code_spec()?;
        if positions.len() == 0 {
            return Err(PErr::Crash);
        }
        let mut e = UncleExpr::Term(Term { col: positions[0], relation, codes: copy_codes(&codes) });
        let mut i: usize = 1;
        assert(positions@.take(1)[0] == positions@[0]);
        assert(positions@.take(1).drop_last() =~= Seq::<usize>::empty());
        while i < positions.len()
            invariant
                1 <= i <= positions.len(),
                e@ == or_chain(positions@.take(i as int), relation, codes@),
            decreases positions.len() - i,
        {
            let t = UncleExpr::Term(Term { col: positions[i], relation, codes: copy_codes(&codes) });
            assert(positions@.take(i + 1).drop_last() =~= positions@.take(i as int));
            assert(positions@.take(i + 1).last() == positions@[i as int]);
            assert(t@ == UncleModel::Term { col: positions@[i as int], relation, codes: codes@ });
            let ghost olde = e@;
            e = UncleExpr::Or(Box::new(e), Box::new(t));
            assert(e@ == UncleModel::Or(Box::new(olde), Box::new(t@)));
            i = i + 1;
        }
        assert(positions@.take(positions.len() as int) =~= positions@);
        Ok(e)
    }
}

impl Parser {
    /// `s[p..q]` (all digits) as `i64`, with the error message `what` + ...
    fn i64_from_digits(&self, what: &str, p: usize, q: usize) -> (r: Result<i64, PErr>)
        requires
            p <= q <= self.chars.len(),
            q == digits_end(self.chars@, p as int),
        ensures
            step_ok(i64_digits(self.chars@, what@, p as int, q as int), r, q as int, |x: i64| x),
    {
        proof {
            lemma_digits_end(self.chars@, p as int);
        }
        if q == p {
            let mut m = Self::fail_msg(what);
            push_debug_str(&mut m, &self.chars, p, q);
            push_str(&mut m, ": cannot parse integer from empty string");
            return Err(PErr::Fail(m));
        }
        assert(crate::text::all_digits(self.chars@.subrange(p as int, q as int))) by {
            assert forall|i: int| 0 <= i < q - p implies is_digit(#[trigger] self.chars@.subrange(p as int, q as int)[i]) by {
                assert(self.chars@.subrange(p as int, q as int)[i] == self.chars@[p + i]);
            }
        }
        if let Some(v) = digits_to_i64(&self.chars, p, q) {
            return Ok(v);
        }
        let mut m = Self::fail_msg(what);
        push_debug_str(&mut m, &self.chars, p, q);
        push_str(&mut m, ": number too large to fit in target type");
        Err(PErr::Fail(m))
    }

    /// Target values of `R()`.
    fn parse_r_values(&mut self) -> (r: Result<Vec<RValue>, PErr>)
        requires
            old(self).pos <= old(self).chars.len(),
        ensures
            same_input(old(self), final(self)),
            step_ok(r_values(old(self).chars@, old(self).pos as int, Seq::empty()), r, final(self).pos as int, |v: Vec<RValue>| v@),
    {
        let ghost s = self.chars@;
        let ghost start = self.pos as int;
        let ghost goal = r_values(s, start, Seq::empty());
        let mut values: Vec<RValue> = Vec::new();
        loop
            invariant
                self.chars@ == s,
                s == old(self).chars@,
                start == old(self).pos,
                goal == r_values(s, start, Seq::empty()),
                start <= self.pos <= self.chars.len(),
                r_values(s, self.pos as int, values@) == goal,
            decreases self.chars.len() - self.pos,
        {
            self.skip_whitespace();
            let q = self.pos;
            let q1 = self.digits_end_from(q);
            if q1 == q {
                if values.len() == 0 {
                    let m = Self::fail_msg("R() has no target values");
                    return Err(PErr::Fail(m));
                }
                return Ok(values);
            }
            self.pos = q1;
            let n = match self.i64_from_digits("invalid R() value ", q, q1) {
                Ok(v) => v,
                Err(e) => {
                    return Err(e);
                },
            };
            let v = if self.peek() == Some(':') {
                self.pos = self.pos + 1;
                let q2 = self.digits_end_from(self.pos);
                let start2 = self.pos;
                self.pos = q2;
                let m = match self.i64_from_digits("invalid R() range end ", start2, q2) {
                    Ok(v) => v,
                    Err(e) => {
                        return Err(e);
                    },
                };
                RValue::Range(n, m)
            } else {
                RValue::Single(n)
            };
            if self.peek() == Some(',') {
                values.push(v);
                self.pos = self.pos + 1;
            } else {
                values.push(v);
                return Ok(values);
            }
        }
    }

    /// One field group `[1!]a[:b]`.
    fn parse_field_group(&mut self) -> (r: Result<(usize, usize), PErr>)
        requires
            old(self).pos <= old(self).chars.len(),
        ensures
            same_input(old(self), final(self)),
            step_ok(field_group(old(self).chars@, old(self).pos as int), r, final(self).pos as int, |x: (usize, usize)| x),
    {
        if self.peek() == Some('1') && self.peek_at(1) == Some('!') {
            self.pos = self.pos + 2;
        }
        let a = self.parse_usize()?;
        if self.peek() == Some(':') {
            self.pos = self.pos + 1;
            let b = self.parse_usize()?;
            Ok((a, b))
        } else {
            Ok((a, a))
        }
    }

    /// The `...` series after the field groups (the parser is just past `...`).
    fn parse_r_ellipsis(&mut self, fields: Vec<Vec<usize>>) -> (r: Result<Vec<Vec<usize>>, PErr>)
        requires
            old(self).pos <= old(self).chars.len(),
        ensures
            same_input(old(self), final(self)),
            step_ok(r_ellipsis(old(self).chars@, old(self).pos as int, fields_model(fields@)), r, final(self).pos as int,
                |v: Vec<Vec<usize>>| fields_model(v@)),
    {
        let ghost fm = fields_model(fields@);
        let n = fields.len();
        if n < 2 {
            let m = Self::fail_msg("R() ellipsis requires at least two preceding field groups");
            return Err(PErr::Fail(m));
        }
        assert(fm[n - 1] == fields@[n - 1]@ && fm[n - 2] == fields@[n - 2]@);
        if fields[n - 1].len() == 0 || fields[n - 2].len() == 0 {
            return Err(PErr::Crash);
        }
        let prev0 = fields[n - 1][0];
        let pprev0 = fields[n - 2][0];
        let width = fields[n - 1].len();
        if prev0 < pprev0 {
            let m = Self::fail_msg("R() ellipsis: field groups must be in ascending order");
            return Err(PErr::Fail(m));
        }
        let step = prev0 - pprev0;
        if step == 0 {
            let m = Self::fail_msg("R() ellipsis: step between field groups must be > 0");
            return Err(PErr::Fail(m));
        }
        if self.peek() == Some('1') && self.peek_at(1) == Some('!') {
            self.pos = self.pos + 2;
        }
        let last = self.parse_usize()?;
        if self.peek() == Some(':') {
            self.pos = self.pos + 1;
            let _ = self.parse_usize()?;
        }
        if prev0 > usize::MAX - step {
            return Err(PErr::Crash);
        }
        match expand_series(fields, prev0 + step, step, width, last) {
            None => Err(PErr::Crash),
            Some(Err(())) => {
                let mut m = Self::fail_msg("R() ellipsis: step ");
                let sv = usize_to_chars(step);
                extend_chars(&mut m, sv.as_slice());
                push_str(&mut m, " does not land on terminal field ");
                let lv = usize_to_chars(last);
                extend_chars(&mut m, lv.as_slice());
                Err(PErr::Fail(m))
            },
            Some(Ok(out)) => {
                self.consume_char(',')?;
                Ok(out)
            },
        }
    }

    /// Field groups of `R()`.
    fn parse_r_fields(&mut self) -> (r: Result<Vec<Vec<usize>>, PErr>)
        requires
            old(self).pos <= old(self).chars.len(),
        ensures
            same_input(old(self), final(self)),
            step_ok(r_fields(old(self).chars@, old(self).pos as int, Seq::empty()), r, final(self).pos as int,
                |v: Vec<Vec<usize>>| fields_model(v@)),
    {
        let ghost s = self.chars@;
        let ghost start = self.pos as int;
        let ghost goal = r_fields(s, start, Seq::empty());
        let mut fields: Vec<Vec<usize>> = Vec::new();
        assert(fields_model(fields@) =~= Seq::<Seq<usize>>::empty());
        loop
            invariant
                self.chars@ == s,
                s == old(self).chars@,
                start == old(self).pos,
                goal == r_fields(s, start, Seq::empty()),
                start <= self.pos <= self.chars.len(),
                r_fields(s, self.pos as int, fields_model(fields@)) == goal,
            decreases self.chars.len() - self.pos,
        {
            let (a, b) = match self.parse_field_group() {
                Ok(x) => x,
                Err(e) => {
                    return Err(e);
                },
            };
            let mut f: Vec<usize> = Vec::new();
            push_col_range(&mut f, a, b);
            assert(f@ =~= col_range(a, b));
            let ghost before = fields@;
            fields.push(f);
            assert(fields_model(fields@) =~= fields_model(before).push(col_range(a, b)));
            match self.peek() {
                Some(c) => {
                    if c == '/' {
                        self.pos = self.pos + 1;
                    } else if c == '.' && self.peek_at(1) == Some('.') && self.peek_at(2) == Some('.') {
                        self.pos = self.pos + 3;
                        return self.parse_r_ellipsis(fields);
                    } else if c == ',' {
                        self.pos = self.pos + 1;
                        return Ok(fields);
                    } else {
                        let mut m = Self::fail_msg("expected ',', '/', or '...' inside R(), got ");
                        push_debug_opt_char(&mut m, self.peek());
                        return Err(PErr::Fail(m));
                    }
                },
                None => {
                    let mut m = Self::fail_msg("expected ',', '/', or '...' inside R(), got ");
                    push_debug_opt_char(&mut m, self.peek());
                    return Err(PErr::Fail(m));
                },
            }
        }
    }

    /// The body of `R(...)`, just past `R(`.
    fn parse_r_body(&mut self) -> (r: Result<UncleExpr, PErr>)
        requires
            old(self).pos <= old(self).chars.len(),
        ensures
            same_input(old(self), final(self)),
            step_ok(r_body(old(self).chars@, old(self).pos as int), r, final(self).pos as int, |e: UncleExpr| e@),
    {
        let fields = self.parse_r_fields()?;
        let values = self.parse_r_values()?;
        self.skip_whitespace();
        self.consume_char(')')?;
        Ok(UncleExpr::RQual(RQual { fields, values }))
    }
}

impl Parser {
    /// Whether a term (digit, `(`, `R(`, `NOT`) can start here.
    fn can_start_term(&self) -> (r: bool)
        requires
            self.pos <= self.chars.len(),
        ensures
            r == can_start_term(self.chars@, self.pos as int),
    {
        match self.peek() {
            Some(c) => {
                if '0' <= c && c <= '9' || c == '(' {
                    true
                } else if c == 'R' {
                    self.peek_at(1) == Some('(')
                } else if c == 'N' {
                    let tail = sub_chars(&self.chars, self.pos, self.chars.len());
                    let rest = string_from(tail.as_slice());
                    let up = to_uppercase(rest.as_str());
                    let uc = chars_of(up.as_str());
                    if uc.len() < 3 || uc[0] != 'N' || uc[1] != 'O' || uc[2] != 'T' {
                        proof {
                            if uc@.len() >= 3 {
                                assert(uc@.subrange(0, 3)[0] == uc@[0]);
                                assert(uc@.subrange(0, 3)[1] == uc@[1]);
                                assert(uc@.subrange(0, 3)[2] == uc@[2]);
                            }
                        }
                        return false;
                    }
                    assert(uc@.subrange(0, 3) =~= kw_not());
                    !(3 < self.chars.len() - self.pos && is_alphanumeric(self.chars[self.pos + 3]))
                } else {
                    false
                }
            },
            None => false,
        }
    }

    /// `expr := and (OR and)*`
    fn parse_or(&mut self) -> (r: Result<UncleExpr, PErr>)
        requires
            old(self).pos <= old(self).chars.len(),
        ensures
            same_input(old(self), final(self)),
            step_ok(parse_or(old(self).chars@, old(self).pos as int), r, final(self).pos as int, |e: UncleExpr| e@),
        decreases old(self).chars.len() - old(self).pos, 5nat,
    {
        let ghost s = self.chars@;
        let ghost p0 = self.pos as int;
        let ghost goal = parse_or(s, p0);
        let mut left = self.parse_and()?;
        let kw: [char; 2] = ['O', 'R'];
        assert(kw@ =~= kw_or());
        loop
            invariant
                self.chars@ == s,
                s == old(self).chars@,
                p0 == old(self).pos,
                goal == parse_or(s, p0),
                kw@ == kw_or(),
                p0 <= self.pos <= self.chars.len(),
                or_rest(s, left@, self.pos as int) == goal,
            decreases self.chars.len() - self.pos,
        {
            let saved = self.pos;
            self.skip_whitespace();
            if self.try_keyword(&kw) {
                self.skip_whitespace();
                let right = self.parse_and()?;
                left = UncleExpr::Or(Box::new(left), Box::new(right));
            } else {
                self.pos = saved;
                return Ok(left);
            }
        }
    }

    /// `and := unary ([AND] unary)*`
    fn parse_and(&mut self) -> (r: Result<UncleExpr, PErr>)
        requires
            old(self).pos <= old(self).chars.len(),
        ensures
            same_input(old(self), final(self)),
            step_ok(parse_and(old(self).chars@, old(self).pos as int), r, final(self).pos as int, |e: UncleExpr| e@),
        decreases old(self).chars.len() - old(self).pos, 3nat,
    {
        let ghost s = self.chars@;
        let ghost p0 = self.pos as int;
        let ghost goal = parse_and(s, p0);
        let mut left = self.parse_unary()?;
        let kw_o: [char; 2] = ['O', 'R'];
        let kw_a: [char; 3] = ['A', 'N', 'D'];
        assert(kw_o@ =~= kw_or());
        assert(kw_a@ =~= kw_and());
        loop
            invariant
                self.chars@ == s,
                s == old(self).chars@,
                p0 == old(self).pos,
                goal == parse_and(s, p0),
                kw_o@ == kw_or(),
                kw_a@ == kw_and(),
                p0 <= self.pos <= self.chars.len(),
                and_rest(s, left@, self.pos as int) == goal,
            decreases self.chars.len() - self.pos,
        {
            let saved = self.pos;
            self.skip_whitespace();
            if self.pos >= self.chars.len() || self.peek() == Some(')') {
                self.pos = saved;
                return Ok(left);
            }
            let saved2 = self.pos;
            if self.try_keyword(&kw_o) {
                self.pos = saved;
                return Ok(left);
            }
            self.pos = saved2;
            let explicit = self.try_keyword(&kw_a);
            if explicit {
                self.skip_whitespace();
            }
            if !explicit && !self.can_start_term() {
                self.pos = saved;
                return Ok(left);
            }
            let right = self.parse_unary()?;
            if self.pos <= saved {
                return Err(PErr::Crash);
            }
            left = UncleExpr::And(Box::new(left), Box::new(right));
        }
    }

    /// `unary := NOT [(] expr [)] | primary`
    fn parse_unary(&mut self) -> (r: Result<UncleExpr, PErr>)
        requires
            old(self).pos <= old(self).chars.len(),
        ensures
            same_input(old(self), final(self)),
            step_ok(parse_unary(old(self).chars@, old(self).pos as int), r, final(self).pos as int, |e: UncleExpr| e@),
        decreases old(self).chars.len() - old(self).pos, 1nat,
    {
        self.skip_whitespace();
        let kw: [char; 3] = ['N', 'O', 'T'];
        assert(kw@ =~= kw_not());
        if self.try_keyword(&kw) {
            self.skip_whitespace();
            let has_paren = self.peek() == Some('(');
            if has_paren {
                self.pos = self.pos + 1;
            }
            self.skip_whitespace();
            let inner = self.parse_or()?;
            if has_paren {
                self.skip_whitespace();
                self.consume_char(')')?;
            }
            return Ok(UncleExpr::Not(Box::new(inner)));
        }
        self.parse_primary()
    }

    /// `primary := ( expr ) | R( ... ) | basic term`
    fn parse_primary(&mut self) -> (r: Result<UncleExpr, PErr>)
        requires
            old(self).pos <= old(self).chars.len(),
        ensures
            same_input(old(self), final(self)),
            step_ok(parse_primary(old(self).chars@, old(self).pos as int), r, final(self).pos as int, |e: UncleExpr| e@),
        decreases old(self).chars.len() - old(self).pos, 0nat,
    {
        self.skip_whitespace();
        if self.peek() == Some('(') {
            self.pos = self.pos + 1;
            let inner = self.parse_or()?;
            self.skip_whitespace();
            self.consume_char(')')?;
            return Ok(inner);
        }
        if self.peek() == Some('R') && self.peek_at(1) == Some('(') {
            self.pos = self.pos + 2;
            return self.parse_r_body();
        }
        self.parse_basic_term()
    }
}

/// A syntax error: the input, the character position where parsing stopped,
/// and what was expected there.
#[derive(Debug, Clone)]
pub struct ParseError {
    pub input: String,
    pub position: usize,
    pub message: String,
}

/// `parse error at position P: MESSAGE (in "INPUT")`.
pub open spec fn parse_error_text(position: nat, message: Seq<char>, input: Seq<char>) -> Seq<char> {
    "parse error at position "@ + nat_str(position) + ": "@ + message + " (in "@ + debug_str(input) + ")"@
}

impl ParseError {
    pub fn to_string(&self) -> (r: String)
        ensures
            r@ == parse_error_text(self.position as nat, self.message@, self.input@),
    {
        let mut m: Vec<char> = Vec::new();
        push_str(&mut m, "parse error at position ");
        let pv = usize_to_chars(self.position);
        extend_chars(&mut m, pv.as_slice());
        push_str(&mut m, ": ");
        let mv = chars_of(self.message.as_str());
        extend_chars(&mut m, mv.as_slice());
        push_str(&mut m, " (in ");
        let iv = chars_of(self.input.as_str());
        push_debug_str(&mut m, &iv, 0, iv.len());
        push_str(&mut m, ")");
        assert(iv@.subrange(0, iv@.len() as int) =~= iv@);
        assert(m@ =~= parse_error_text(self.position as nat, self.message@, self.input@));
        string_from(m.as_slice())
    }
}

/// What parsing `input` gives, in terms of the library's types.
pub open spec fn parse_outcome(input: Seq<char>, r: Result<UncleExpr, ParseError>) -> bool {
    match parse_spec(input) {
        Some(Ok(e)) => r is Ok && r->Ok_0@ == e,
        Some(Err((q, m))) => r is Err && r->Err_0.input@ == input && r->Err_0.position == q
            && r->Err_0.message@ == m,
        None => false,
    }
}

impl UncleExpr {
    /// Parse a qualification, or `None` on an input on which the parser
    /// cannot complete (an empty column group before `...`, or column
    /// arithmetic past `usize::MAX`).
    pub fn try_parse(input: &str) -> (r: Option<Result<UncleExpr, ParseError>>)
        ensures
            r is None <==> parse_spec(input@) is None,
            r matches Some(res) ==> parse_outcome(input@, res),
    {
        let mut p = Parser::new(input);
        match p.parse_or() {
            Ok(e) => {
                p.skip_whitespace();
                if p.pos < p.chars.len() {
                    let mut m: Vec<char> = Vec::new();
                    push_str(&mut m, "unexpected trailing input: ");
                    push_debug_str(&mut m, &p.chars, p.pos, p.chars.len());
                    Some(Err(ParseError { input: input.to_owned(), position: p.pos, message: string_from(m.as_slice()) }))
                } else {
                    Some(Ok(e))
                }
            },
            Err(PErr::Fail(m)) => Some(
                Err(ParseError { input: input.to_owned(), position: p.pos, message: string_from(m.as_slice()) }),
            ),
            Err(PErr::Crash) => None,
        }
    }

    /// Parse a UNCLE qualification string into an expression tree.
    pub fn parse(input: &str) -> (r: Result<UncleExpr, ParseError>)
        requires
            parse_spec(input@) is Some,
        ensures
            parse_outcome(input@, r),
    {
        Self::try_parse(input).unwrap()
    }
}

/// Fields `cur, cur+step, ...` up to `last`, `width` columns each, appended
/// to `fields`: `Err` when the series misses `last`, `None` on overflow.
fn expand_series(fields: Vec<Vec<usize>>, cur: usize, step: usize, width: usize, last: usize)
    -> (r: Option<Result<Vec<Vec<usize>>, ()>>)
    requires
        step > 0,
        width >= 1,
    ensures
        match r {
            None => ellipsis_expand(fields_model(fields@), cur as int, step as int, width as int, last as int) is None,
            Some(Err(())) => ellipsis_expand(fields_model(fields@), cur as int, step as int, width as int, last as int)
                == Some(Err::<Seq<Seq<usize>>, ()>(())),
            Some(Ok(v)) => ellipsis_expand(fields_model(fields@), cur as int, step as int, width as int, last as int)
                == Some(Ok::<Seq<Seq<usize>>, ()>(fields_model(v@))),
        },
{
    let ghost target = ellipsis_expand(fields_model(fields@), cur as int, step as int, width as int, last as int);
    let mut c = cur;
    let mut out = fields;
    loop
        invariant
            step > 0,
            width >= 1,
            ellipsis_expand(fields_model(out@), c as int, step as int, width as int, last as int) == target,
            target == ellipsis_expand(fields_model(fields@), cur as int, step as int, width as int, last as int),
        decreases last - c,
    {
        if c > last {
            return Some(Err(()));
        }
        if c > usize::MAX - width {
            return None;
        }
        let mut f: Vec<usize> = Vec::new();
        push_col_range(&mut f, c, c + width - 1);
        assert(f@ =~= col_range(c, (c + width - 1) as usize));
        let ghost before = out@;
        out.push(f);
        assert(fields_model(out@) =~= fields_model(before).push(col_range(c, (c + width - 1) as usize)));
        if c == last {
            return Some(Ok(out));
        }
        if c > usize::MAX - step {
            return None;
        }
        if c + step > last {
            return Some(Err(()));
        }
        c = c + step;
    }
}

/// Append columns `lo..=hi`.
fn push_col_range(v: &mut Vec<usize>, lo: usize, hi: usize)
    ensures
        final(v)@ == old(v)@ + col_range(lo, hi),
{
    if lo <= hi {
        let mut c = lo;
        loop
            invariant_except_break
                lo <= c <= hi,
                v@ == old(v)@ + Seq::new((c - lo) as nat, |i: int| (lo + i) as usize),
            ensures
                v@ == old(v)@ + Seq::new((hi + 1 - lo) as nat, |i: int| (lo + i) as usize),
            decreases hi - c,
        {
            v.push(c);
            assert(v@ =~= old(v)@ + Seq::new((c + 1 - lo) as nat, |i: int| (lo + i) as usize));
            if c == hi {
                break;
            }
            c = c + 1;
        }
    }
    assert(v@ =~= old(v)@ + col_range(lo, hi));
}

/// Append codes for raw values `lo..=hi`.
fn push_code_range(v: &mut Vec<CodeVal>, lo: u8, hi: u8)
    ensures
        final(v)@ == old(v)@ + code_range(lo, hi),
{
    if lo <= hi {
        let mut c = lo;
        loop
            invariant_except_break
                lo <= c <= hi,
                v@ == old(v)@ + Seq::new((c - lo) as nat, |i: int| CodeVal::Numeric(norm_code((lo + i) as u8))),
            ensures
                v@ == old(v)@ + Seq::new((hi + 1 - lo) as nat, |i: int| CodeVal::Numeric(norm_code((lo + i) as u8))),
            decreases hi - c,
        {
            v.push(CodeVal::Numeric(if c == 10 { 0 } else { c }));
            assert(v@ =~= old(v)@ + Seq::new((c + 1 - lo) as nat, |i: int| CodeVal::Numeric(norm_code((lo + i) as u8))));
            if c == hi {
                break;
            }
            c = c + 1;
        }
    }
    assert(v@ =~= old(v)@ + code_range(lo, hi));
}

} // verus!
