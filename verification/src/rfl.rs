//! RFL (record format layout) files: question metadata of a survey, read
//! from the text of the layout.


use vstd::prelude::*;
use vstd::string::StringSliceAdditionalSpecFns;
use vstd::utf8::{encode_utf8, is_char_boundary};

use crate::regex_calls::{regex_compiles, regex_replace, regex_replace_first, regex_valid};
use crate::text::{
    all_digits, char_is_whitespace, chars_of, dec_value, digits_only, extend_chars, find_char,
    find_char_exec, find_seq, find_seq_exec, is_whitespace, lemma_find_char_from, lemma_find_seq_from,
    occurs_at, parse_unsigned, parse_unsigned_exec, push_str, split_char, string_from, strings_view,
    sub_chars, to_uppercase, trim_chars, trim_start_chars, trim_start_ws, trim_ws, uppercase,
    starts_with, starts_with_exec, lemma_parse_unsigned_nonneg,
};

use crate::text_map::{lookup, put, TextMap};

verus! {

/// Declared so that `std::io::Result` can stand in signatures.
#[verifier::external_type_specification]
#[verifier::external_body]
pub struct ExIoError(std::io::Error);

/// The kind of a question.
#[derive(Debug, Clone, Copy, PartialEq, Eq, Structural)]
pub enum QuestionType {
    /// Field (categorical)
    Fld,
    /// Variable
    Var,
    /// Numeric
    Num,
    /// Expression
    Exp,
}

/// The question type named by an upper-cased word.
pub open spec fn question_type_of(up: Seq<char>) -> Option<QuestionType> {
    if up == "FLD"@ {
        Some(QuestionType::Fld)
    } else if up == "VAR"@ {
        Some(QuestionType::Var)
    } else if up == "NUM"@ {
        Some(QuestionType::Num)
    } else if up == "EXP"@ {
        Some(QuestionType::Exp)
    } else {
        None
    }
}

/// One question of an RFL file.
#[derive(Debug, Clone)]
pub struct RflQuestion {
    pub label: String,
    pub text_lines: Vec<String>,
    pub response_codes: TextMap<String>,
    pub exceptions: Vec<String>,
    pub start_col: usize,
    pub width: usize,
    pub max_responses: usize,
    pub min_value: Option<i32>,
    pub max_value: Option<i32>,
    pub question_type: QuestionType,
}

/// A question with its strings as sequences; its response codes are the
/// (code, text) pairs in the order in which the codes first came.
pub struct QuestionModel {
    pub label: Seq<char>,
    pub response_codes: Seq<(Seq<char>, Seq<char>)>,
    pub text_lines: Seq<Seq<char>>,
    pub exceptions: Seq<Seq<char>>,
    pub start_col: usize,
    pub width: usize,
    pub max_responses: usize,
    pub min_value: Option<i32>,
    pub max_value: Option<i32>,
    pub question_type: QuestionType,
}

impl RflQuestion {
    pub open spec fn model(&self) -> QuestionModel {
        QuestionModel {
            label: self.label@,
            response_codes: self.response_codes.map_view(),
            text_lines: strings_view(self.text_lines@),
            exceptions: strings_view(self.exceptions@),
            start_col: self.start_col,
            width: self.width,
            max_responses: self.max_responses,
            min_value: self.min_value,
            max_value: self.max_value,
            question_type: self.question_type,
        }
    }
}

impl View for RflQuestion {
    type V = QuestionModel;

    open spec fn view(&self) -> QuestionModel {
        self.model()
    }
}

// ---------------------------------------------------------------------------
// Words and numbers
// ---------------------------------------------------------------------------

/// `str::split_whitespace` from position `i`, with the word `cur` begun.
pub open spec fn words_acc(s: Seq<char>, i: int, cur: Seq<char>) -> Seq<Seq<char>>
    decreases s.len() - i,
{
    if i < 0 || i >= s.len() {
        if cur.len() > 0 { seq![cur] } else { Seq::empty() }
    } else if char_is_whitespace(s[i]) {
        if cur.len() > 0 {
            seq![cur] + words_acc(s, i + 1, Seq::empty())
        } else {
            words_acc(s, i + 1, Seq::empty())
        }
    } else {
        words_acc(s, i + 1, cur.push(s[i]))
    }
}

/// `str::split_whitespace`.
pub open spec fn words(s: Seq<char>) -> Seq<Seq<char>> {
    words_acc(s, 0, Seq::empty())
}

/// `s` with every leading and trailing `[` and `]` removed.
pub open spec fn trim_brackets_start(s: Seq<char>) -> Seq<char>
    decreases s.len(),
{
    if s.len() > 0 && (s[0] == '[' || s[0] == ']') {
        trim_brackets_start(s.drop_first())
    } else {
        s
    }
}

pub open spec fn trim_brackets_end(s: Seq<char>) -> Seq<char>
    decreases s.len(),
{
    if s.len() > 0 && (s.last() == '[' || s.last() == ']') {
        trim_brackets_end(s.drop_last())
    } else {
        s
    }
}

pub open spec fn trim_brackets(s: Seq<char>) -> Seq<char> {
    trim_brackets_end(trim_brackets_start(s))
}

/// `str::parse::<i32>`: an optional sign, then one or more ASCII digits,
/// within the range of `i32`.
pub open spec fn parse_i32_spec(s: Seq<char>) -> Option<i32> {
    if s.len() == 0 {
        None
    } else {
        let neg = s[0] == '-';
        let d = if s[0] == '+' || s[0] == '-' { s.drop_first() } else { s };
        if d.len() == 0 || !all_digits(d) {
            None
        } else {
            let v = if neg { -dec_value(d) } else { dec_value(d) };
            if i32::MIN <= v <= i32::MAX {
                Some(v as i32)
            } else {
                None
            }
        }
    }
}


/// A line tagged `c`: the character `c`, then a space.
pub open spec fn tagged(line: Seq<char>, c: char) -> bool {
    line.len() >= 2 && line[0] == c && line[1] == ' '
}

// ---------------------------------------------------------------------------
// Question lines
// ---------------------------------------------------------------------------

/// The first word that starts with `Max=`.
pub open spec fn first_max_part(parts: Seq<Seq<char>>) -> Option<Seq<char>>
    decreases parts.len(),
{
    if parts.len() == 0 {
        None
    } else if starts_with(parts[0], "Max="@) {
        Some(parts[0])
    } else {
        first_max_part(parts.drop_first())
    }
}

/// A `Q` line: `Q LABEL TYPE ... ... [start.width] ... Max=n`. `None` where
/// the width would be divided by a zero `Max=`.
pub open spec fn question_line_step(m: QuestionModel, line: Seq<char>) -> Option<Result<QuestionModel, Seq<char>>> {
    let parts = words(line);
    if parts.len() < 6 {
        Some(Err("Invalid question line format: "@ + line))
    } else {
        let m1 = QuestionModel { label: uppercase(parts[1]), ..m };
        match question_type_of(uppercase(parts[2])) {
            None => Some(Err("Invalid question type: "@ + parts[2])),
            Some(qt) => {
                let m2 = QuestionModel { question_type: qt, ..m1 };
                let lp = split_char(trim_brackets(parts[5]), '.');
                match parse_unsigned(lp[0], usize::MAX as int) {
                    None => Some(Err("Invalid start column: "@ + lp[0])),
                    Some(sc) => {
                        let m3 = QuestionModel { start_col: sc as usize, ..m2 };
                        if lp.len() > 1 {
                            match parse_unsigned(lp[1], usize::MAX as int) {
                                None => Some(Err("Invalid width: "@ + lp[1])),
                                Some(tw) => match first_max_part(parts) {
                                    Some(mp) => {
                                        let ms = mp.skip(4);
                                        match parse_unsigned(ms, usize::MAX as int) {
                                            None => Some(Err("Invalid max responses: "@ + ms)),
                                            Some(mr) => if mr == 0 {
                                                None
                                            } else {
                                                Some(Ok(QuestionModel {
                                                    max_responses: mr as usize,
                                                    width: (tw / mr) as usize,
                                                    ..m3
                                                }))
                                            },
                                        }
                                    },
                                    None => Some(Ok(QuestionModel { width: tw as usize, ..m3 })),
                                },
                            }
                        } else {
                            Some(Ok(m3))
                        }
                    },
                }
            },
        }
    }
}

/// A question line with location `[s.w]` and `Max=n` splits the `w`
/// columns it declares into `n` response slots of equal width that fit in
/// them: `width * n <= w < (width + 1) * n`; the question starts at column
/// `s` and has `n` responses. Without `Max=` the one response takes all `w`
/// columns; without a width the line keeps the earlier width and count.
pub proof fn law_question_line_slots(m: QuestionModel, line: Seq<char>)
    requires
        question_line_step(m, line) matches Some(Ok(_)),
    ensures
        ({
            let r = question_line_step(m, line)->0->Ok_0;
            let parts = words(line);
            let lp = split_char(trim_brackets(parts[5]), '.');
            &&& r.start_col == parse_unsigned(lp[0], usize::MAX as int)->0
            &&& lp.len() > 1 ==> match first_max_part(parts) {
                Some(mp) => {
                    let w = parse_unsigned(lp[1], usize::MAX as int)->0;
                    let n = parse_unsigned(mp.skip(4), usize::MAX as int)->0;
                    &&& n > 0
                    &&& r.max_responses == n
                    &&& r.width * n <= w < (r.width + 1) * n
                },
                None => r.width == parse_unsigned(lp[1], usize::MAX as int)->0 && r.max_responses == m.max_responses,
            }
            &&& lp.len() <= 1 ==> r.width == m.width && r.max_responses == m.max_responses
        }),
{
    let parts = words(line);
    assert(parts.len() >= 6);
    let qt = question_type_of(uppercase(parts[2]));
    assert(qt is Some);
    let lp = split_char(trim_brackets(parts[5]), '.');
    assert(parse_unsigned(lp[0], usize::MAX as int) is Some);
    lemma_parse_unsigned_nonneg(lp[0], usize::MAX as int);
    if lp.len() > 1 {
        lemma_parse_unsigned_nonneg(lp[1], usize::MAX as int);
        assert(parse_unsigned(lp[1], usize::MAX as int) is Some);
        let w = parse_unsigned(lp[1], usize::MAX as int)->0;
        if let Some(mp) = first_max_part(parts) {
            assert(parse_unsigned(mp.skip(4), usize::MAX as int) is Some);
            let n = parse_unsigned(mp.skip(4), usize::MAX as int)->0;
            assert(n != 0);
            assert(w >= 0) by {
                lemma_parse_unsigned_nonneg(lp[1], usize::MAX as int);
            }
            assert(n >= 0) by {
                lemma_parse_unsigned_nonneg(mp.skip(4), usize::MAX as int);
            }
            let q = w / n;
            assert(q * n <= w < (q + 1) * n && 0 <= q <= w) by (nonlinear_arith)
                requires
                    n > 0,
                    w >= 0,
                    q == w / n,
            ;
            assert(question_line_step(m, line)->0->Ok_0.width == q);
        }
    }
}

/// Trimmed parts, the empty ones dropped.
pub open spec fn nonempty_trimmed(parts: Seq<Seq<char>>) -> Seq<Seq<char>>
    decreases parts.len(),
{
    if parts.len() == 0 {
        Seq::empty()
    } else {
        let t = trim_ws(parts[0]);
        (if t.len() > 0 { seq![t] } else { Seq::empty() }) + nonempty_trimmed(parts.drop_first())
    }
}

/// An `X` line of a numeric question: `X Range=min-max  Exceptions=a,b`.
pub open spec fn numeric_line_step(m: QuestionModel, line: Seq<char>) -> QuestionModel {
    let m1 = match find_seq(line, "Range="@) {
        Some(rs) => {
            let rp = line.skip(rs + 6);
            match find_char(rp, '-') {
                Some(dp) => {
                    let min_s = trim_ws(rp.take(dp));
                    let rest = rp.skip(dp + 1);
                    let max_s = match find_char(rest, ' ') {
                        None => trim_ws(rest),
                        Some(sp) => trim_ws(rest.take(sp)),
                    };
                    QuestionModel { min_value: parse_i32_spec(min_s), max_value: parse_i32_spec(max_s), ..m }
                },
                None => m,
            }
        },
        None => m,
    };
    match find_seq(line, "Exceptions="@) {
        Some(es) => {
            let ep = trim_ws(line.skip(es + 11));
            if ep.len() > 0 {
                QuestionModel { exceptions: nonempty_trimmed(split_char(ep, ',')), ..m1 }
            } else {
                m1
            }
        },
        None => m1,
    }
}

/// The code and text of an `R` line (`R   code   text`), if it has both.
pub open spec fn response_pair(line: Seq<char>) -> Option<(Seq<char>, Seq<char>)> {
    let trimmed = trim_start_ws(line.skip(2));
    match find_char(trimmed, ' ') {
        Some(sp) => Some((trim_ws(trimmed.take(sp)), trim_ws(trimmed.skip(sp)))),
        None => None,
    }
}

/// An `R` line: its code and text stored, a later text for a code
/// replacing the earlier one.
pub open spec fn response_step(m: QuestionModel, line: Seq<char>) -> QuestionModel {
    match response_pair(line) {
        Some((c, t)) => QuestionModel { response_codes: put(m.response_codes, c, t), ..m },
        None => m,
    }
}

pub open spec fn initial_question() -> QuestionModel {
    QuestionModel {
        label: Seq::empty(),
        response_codes: Seq::empty(),
        text_lines: Seq::empty(),
        exceptions: Seq::empty(),
        start_col: 0,
        width: 1,
        max_responses: 1,
        min_value: None,
        max_value: None,
        question_type: QuestionType::Fld,
    }
}

/// The question after the lines `lines[i..]`, starting from `m`.
pub open spec fn question_fold(m: QuestionModel, lines: Seq<Seq<char>>, i: int) -> Option<Result<QuestionModel, Seq<char>>>
    decreases lines.len() - i,
{
    if i < 0 || i >= lines.len() {
        Some(Ok(m))
    } else {
        let line = lines[i];
        if tagged(line, 'Q') {
            match question_line_step(m, line) {
                None => None,
                Some(Err(e)) => Some(Err(e)),
                Some(Ok(m2)) => question_fold(m2, lines, i + 1),
            }
        } else if tagged(line, 'T') {
            question_fold(QuestionModel { text_lines: m.text_lines.push(line.skip(2)), ..m }, lines, i + 1)
        } else if tagged(line, 'R') {
            question_fold(response_step(m, line), lines, i + 1)
        } else if line.len() > 0 && line[0] == 'X' && m.question_type == QuestionType::Num {
            question_fold(numeric_line_step(m, line), lines, i + 1)
        } else {
            question_fold(m, lines, i + 1)
        }
    }
}

/// The question that the lines describe; `None` where a `Q` line has
/// `Max=0` (its width would be divided by zero).
pub open spec fn question_from_lines(lines: Seq<Seq<char>>) -> Option<Result<QuestionModel, Seq<char>>> {
    question_fold(initial_question(), lines, 0)
}

/// The error a `Q` line gives on its own (too few words, an unknown type,
/// a location or `Max=` that is not a number), if any.
pub open spec fn q_line_error(line: Seq<char>) -> Option<Seq<char>> {
    match question_line_step(initial_question(), line) {
        Some(Err(e)) => Some(e),
        _ => None,
    }
}

/// Whether a `Q` line declares `Max=0`.
pub open spec fn q_line_max_zero(line: Seq<char>) -> bool {
    question_line_step(initial_question(), line) is None
}

/// The first `Q` line at or after `i` that fails on its own or has `Max=0`.
pub open spec fn first_bad_q(ls: Seq<Seq<char>>, i: int) -> Option<int>
    decreases ls.len() - i,
{
    if i < 0 || i >= ls.len() {
        None
    } else if tagged(ls[i], 'Q') && (q_line_max_zero(ls[i]) || q_line_error(ls[i]) is Some) {
        Some(i)
    } else {
        first_bad_q(ls, i + 1)
    }
}

proof fn lemma_q_step_independent(m: QuestionModel, line: Seq<char>)
    ensures
        (question_line_step(m, line) is None) == q_line_max_zero(line),
        question_line_step(m, line) matches Some(Err(e)) ==> q_line_error(line) == Some(e),
        q_line_error(line) matches Some(e) ==> question_line_step(m, line) == Some(Err::<QuestionModel, Seq<char>>(e)),
{
}

proof fn lemma_fold_errors(m: QuestionModel, ls: Seq<Seq<char>>, i: int)
    requires
        0 <= i,
    ensures
        match first_bad_q(ls, i) {
            None => question_fold(m, ls, i) is Some && question_fold(m, ls, i)->0 is Ok,
            Some(k) => if q_line_max_zero(ls[k]) {
                question_fold(m, ls, i) is None
            } else {
                question_fold(m, ls, i) == Some(Err::<QuestionModel, Seq<char>>(q_line_error(ls[k])->0))
            },
        },
    decreases ls.len() - i,
{
    if i < ls.len() {
        let line = ls[i];
        lemma_q_step_independent(m, line);
        if tagged(line, 'Q') {
            match question_line_step(m, line) {
                Some(Ok(m2)) => lemma_fold_errors(m2, ls, i + 1),
                _ => {},
            }
        } else if tagged(line, 'T') {
            lemma_fold_errors(QuestionModel { text_lines: m.text_lines.push(line.skip(2)), ..m }, ls, i + 1);
        } else if tagged(line, 'R') {
            lemma_fold_errors(response_step(m, line), ls, i + 1);
        } else if line.len() > 0 && line[0] == 'X' && m.question_type == QuestionType::Num {
            lemma_fold_errors(numeric_line_step(m, line), ls, i + 1);
        } else {
            lemma_fold_errors(m, ls, i + 1);
        }
    }
}

/// A question's lines parse unless a `Q` line fails on its own: the result
/// is then the error of the first such line (or, where that line has
/// `Max=0`, no result).
pub proof fn law_question_errors(ls: Seq<Seq<char>>)
    ensures
        match first_bad_q(ls, 0) {
            None => question_from_lines(ls) matches Some(Ok(_)),
            Some(k) => if q_line_max_zero(ls[k]) {
                question_from_lines(ls) is None
            } else {
                question_from_lines(ls) == Some(Err::<QuestionModel, Seq<char>>(q_line_error(ls[k])->0))
            },
        },
{
    lemma_fold_errors(initial_question(), ls, 0);
}

// ---------------------------------------------------------------------------
// Files
// ---------------------------------------------------------------------------

pub open spec fn case_id_prefix() -> Seq<char> {
    "The case ID will be in columns "@
}

pub open spec fn case_id_model(start_col: usize, width: usize) -> QuestionModel {
    QuestionModel {
        label: "CASEID"@,
        response_codes: Seq::empty(),
        text_lines: seq!["CASE ID"@],
        exceptions: Seq::empty(),
        start_col,
        width,
        max_responses: 1,
        min_value: None,
        max_value: None,
        question_type: QuestionType::Num,
    }
}

/// The case ID of a `The case ID will be in columns start.width` line.
pub open spec fn case_id_of(line: Seq<char>) -> Option<QuestionModel> {
    let parts = split_char(line.skip(case_id_prefix().len() as int), '.');
    if parts.len() == 2 {
        match (parse_unsigned(parts[0], usize::MAX as int), parse_unsigned(parts[1], usize::MAX as int)) {
            (Some(s), Some(w)) => Some(case_id_model(s as usize, w as usize)),
            _ => None,
        }
    } else {
        None
    }
}

/// The first position at or after `k` that holds a `Q` line (or the end).
pub open spec fn group_end(lines: Seq<Seq<char>>, k: int) -> int
    decreases lines.len() - k,
{
    if k < 0 || k >= lines.len() || tagged(lines[k], 'Q') {
        if k < 0 { 0 } else { k }
    } else {
        group_end(lines, k + 1)
    }
}

/// The `T`, `R` and `X` lines among `lines[a..b]`.
pub open spec fn group_lines(lines: Seq<Seq<char>>, a: int, b: int) -> Seq<Seq<char>>
    decreases b - a,
{
    if a < 0 || a >= b || a >= lines.len() {
        Seq::empty()
    } else {
        let l = lines[a];
        (if tagged(l, 'T') || tagged(l, 'R') || tagged(l, 'X') { seq![l] } else { Seq::empty() })
            + group_lines(lines, a + 1, b)
    }
}

/// The questions of an RFL file after `lines[i..]`, appended to `acc`; a
/// question whose lines fail to parse is left out.
pub open spec fn file_fold(lines: Seq<Seq<char>>, i: int, acc: Seq<QuestionModel>) -> Option<Seq<QuestionModel>>
    decreases lines.len() - i,
{
    if i < 0 || i >= lines.len() {
        Some(acc)
    } else {
        let line = lines[i];
        if starts_with(line, case_id_prefix()) {
            match case_id_of(line) {
                Some(q) => file_fold(lines, i + 1, acc.push(q)),
                None => file_fold(lines, i + 1, acc),
            }
        } else if tagged(line, 'Q') {
            let j = group_end(lines, i + 1);
            if j <= i || j > lines.len() {
                None
            } else {
                match question_from_lines(seq![line] + group_lines(lines, i + 1, j)) {
                    None => None,
                    Some(Ok(q)) => file_fold(lines, j, acc.push(q)),
                    Some(Err(_)) => file_fold(lines, j, acc),
                }
            }
        } else {
            file_fold(lines, i + 1, acc)
        }
    }
}

pub open spec fn file_questions(lines: Seq<Seq<char>>) -> Option<Seq<QuestionModel>> {
    file_fold(lines, 0, Seq::empty())
}

/// Whether the question starting at the `Q` line `k` cannot be read at all
/// (its lines give no result: a `Max=0` on a question line).
pub open spec fn q_group_fails(lines: Seq<Seq<char>>, k: int) -> bool {
    &&& 0 <= k < lines.len()
    &&& tagged(lines[k], 'Q')
    &&& !starts_with(lines[k], case_id_prefix())
    &&& question_from_lines(seq![lines[k]] + group_lines(lines, k + 1, group_end(lines, k + 1))) is None
}

proof fn lemma_fold_fails(lines: Seq<Seq<char>>, i: int, acc: Seq<QuestionModel>)
    requires
        0 <= i,
    ensures
        file_fold(lines, i, acc) is None <==> exists|k: int| i <= k && #[trigger] q_group_fails(lines, k),
    decreases lines.len() - i,
{
    if i < lines.len() {
        let line = lines[i];
        if starts_with(line, case_id_prefix()) {
            lemma_fold_fails(lines, i + 1, acc);
            lemma_fold_fails(lines, i + 1, acc.push(case_id_of(line)->0));
            if exists|k: int| i <= k && #[trigger] q_group_fails(lines, k) {
                let k = choose|k: int| i <= k && #[trigger] q_group_fails(lines, k);
                assert(i + 1 <= k);
            }
        } else if tagged(line, 'Q') {
            lemma_group_end(lines, i + 1);
            let j = group_end(lines, i + 1);
            match question_from_lines(seq![line] + group_lines(lines, i + 1, j)) {
                None => {
                    assert(q_group_fails(lines, i));
                },
                Some(r) => {
                    lemma_fold_fails(lines, j, acc);
                    if let Ok(q) = r {
                        lemma_fold_fails(lines, j, acc.push(q));
                    }
                    if exists|k: int| i <= k && #[trigger] q_group_fails(lines, k) {
                        let k = choose|k: int| i <= k && #[trigger] q_group_fails(lines, k);
                        assert(k != i);
                        if k < j {
                            assert(!tagged(lines[k], 'Q'));
                        }
                        assert(j <= k);
                    }
                    if exists|k: int| j <= k && #[trigger] q_group_fails(lines, k) {
                        let k = choose|k: int| j <= k && #[trigger] q_group_fails(lines, k);
                        assert(i <= k);
                    }
                },
            }
        } else {
            lemma_fold_fails(lines, i + 1, acc);
            if exists|k: int| i <= k && #[trigger] q_group_fails(lines, k) {
                let k = choose|k: int| i <= k && #[trigger] q_group_fails(lines, k);
                assert(i + 1 <= k);
            }
        }
    }
}

/// Reading an RFL file fails only where a question cannot be read at all:
/// the file's questions are there exactly when no `Q` line starts a
/// question whose lines give no result (which by `law_question_errors`
/// means its first failing question line carries `Max=0`); questions whose
/// lines give an error are left out instead.
pub proof fn law_file_fails_only_on_unreadable_question(lines: Seq<Seq<char>>)
    ensures
        file_questions(lines) is None <==> exists|k: int| #[trigger] q_group_fails(lines, k),
{
    lemma_fold_fails(lines, 0, Seq::empty());
    if exists|k: int| #[trigger] q_group_fails(lines, k) {
        let k = choose|k: int| #[trigger] q_group_fails(lines, k);
        assert(0 <= k);
    }
}

// ---------------------------------------------------------------------------
// Question text and responses
// ---------------------------------------------------------------------------

/// The pattern of question numbering prefixes such as `A1.`, `Q17.` or `D16C.`.
pub const QUESTION_PREFIX: &'static str = "^[A-Za-z]*\\d+[A-Za-z]*\\.?\\s*";

/// The text lines that carry question text, their numbering removed.
pub open spec fn main_text_spec(lines: Seq<Seq<char>>, pattern: Seq<char>) -> Seq<Seq<char>>
    decreases lines.len(),
{
    if lines.len() == 0 {
        Seq::empty()
    } else {
        let t = trim_ws(lines[0]);
        let skip = starts_with(t, "DATAFROM(0.1)"@) || t.len() == 0 || find_seq(t, "ENTER NUMBER"@) is Some
            || (t.len() > 0 && t[0] == '(' && t.last() == ')');
        (if skip { Seq::empty() } else { seq![regex_replace_first(pattern, t, Seq::empty())] })
            + main_text_spec(lines.drop_first(), pattern)
    }
}

/// Byte offset of response slot `i`.
pub open spec fn slot_start(start_col: usize, width: usize, i: int) -> int {
    (start_col - 1) + i * width
}

/// Whether the response slots of a question can be read from a line:
/// 1-based columns, column arithmetic within `usize`, and
/// each slot that lies within the line starting and ending on character
/// boundaries.
pub open spec fn responses_ok(start_col: usize, width: usize, max_responses: usize, bytes: Seq<u8>) -> bool {
    &&& start_col >= 1
    &&& (start_col - 1) + max_responses * width <= usize::MAX
    &&& bytes.len() <= usize::MAX
    &&& forall|i: int| 0 <= i < max_responses && #[trigger] slot_start(start_col, width, i) + width <= bytes.len()
        ==> is_char_boundary(bytes, slot_start(start_col, width, i)) && is_char_boundary(bytes, slot_start(start_col, width, i) + width)
}

/// The slots among the first `k` that lie within `len` bytes.
pub open spec fn slots_in(start_col: usize, width: usize, k: int, len: int) -> Seq<int>
    decreases k,
{
    if k <= 0 {
        Seq::empty()
    } else {
        slots_in(start_col, width, k - 1, len) + (if slot_start(start_col, width, k - 1) + width <= len {
            seq![slot_start(start_col, width, k - 1)]
        } else {
            Seq::empty()
        })
    }
}

// ---------------------------------------------------------------------------
// Executable parsing
// ---------------------------------------------------------------------------

pub open spec fn chars_view(v: Seq<Vec<char>>) -> Seq<Seq<char>> {
    v.map_values(|x: Vec<char>| x@)
}

impl QuestionType {
    /// The question type named by a word, compared upper-cased.
    pub fn from_str(s: &str) -> (r: Option<QuestionType>)
        ensures
            r == question_type_of(uppercase(s@)),
    {
        let up = to_uppercase(s);
        let u = chars_of(up.as_str());
        proof {
            reveal_strlit("FLD");
            reveal_strlit("VAR");
            reveal_strlit("NUM");
            reveal_strlit("EXP");
        }
        if u.len() != 3 {
            assert(u@ != "FLD"@ && u@ != "VAR"@ && u@ != "NUM"@ && u@ != "EXP"@);
            return None;
        }
        let (a, b, c) = (u[0], u[1], u[2]);
        if a == 'F' && b == 'L' && c == 'D' {
            assert(u@ =~= "FLD"@);
            Some(QuestionType::Fld)
        } else if a == 'V' && b == 'A' && c == 'R' {
            assert(u@ =~= "VAR"@);
            Some(QuestionType::Var)
        } else if a == 'N' && b == 'U' && c == 'M' {
            assert(u@ =~= "NUM"@);
            Some(QuestionType::Num)
        } else if a == 'E' && b == 'X' && c == 'P' {
            assert(u@ =~= "EXP"@);
            Some(QuestionType::Exp)
        } else {
            assert(u@ != "FLD"@ && u@ != "VAR"@ && u@ != "NUM"@ && u@ != "EXP"@) by {
                if u@ == "FLD"@ {
                    assert(u@[0] == 'F' && u@[1] == 'L' && u@[2] == 'D');
                }
                if u@ == "VAR"@ {
                    assert(u@[0] == 'V' && u@[1] == 'A' && u@[2] == 'R');
                }
                if u@ == "NUM"@ {
                    assert(u@[0] == 'N' && u@[1] == 'U' && u@[2] == 'M');
                }
                if u@ == "EXP"@ {
                    assert(u@[0] == 'E' && u@[1] == 'X' && u@[2] == 'P');
                }
            }
            None
        }
    }
}

/// `str::split_whitespace`.
pub fn split_words(v: &Vec<char>) -> (r: Vec<Vec<char>>)
    ensures
        chars_view(r@) == words(v@),
{
    let mut out: Vec<Vec<char>> = Vec::new();
    let mut cur: Vec<char> = Vec::new();
    let mut i: usize = 0;
    assert(chars_view(out@) =~= Seq::<Seq<char>>::empty());
    while i < v.len()
        invariant
            i <= v.len(),
            chars_view(out@) + words_acc(v@, i as int, cur@) == words(v@),
        decreases v.len() - i,
    {
        let ghost before = out@;
        let ghost c0 = cur@;
        if is_whitespace(v[i]) {
            assert(words_acc(v@, i as int, c0) == (if c0.len() > 0 {
                seq![c0] + words_acc(v@, i + 1, Seq::empty())
            } else {
                words_acc(v@, i + 1, Seq::empty())
            }));
            if cur.len() > 0 {
                let ghost c = cur@;
                out.push(cur);
                cur = Vec::new();
                assert(chars_view(out@) =~= chars_view(before).push(c));
                assert(chars_view(out@) + words_acc(v@, i + 1, cur@) =~= chars_view(before) + (seq![c] + words_acc(v@, i + 1, Seq::empty())));
            } else {
                assert(cur@ =~= Seq::<char>::empty());
            }
        } else {
            assert(words_acc(v@, i as int, c0) == words_acc(v@, i + 1, c0.push(v@[i as int])));
            cur.push(v[i]);
        }
        i = i + 1;
    }
    if cur.len() > 0 {
        let ghost before = out@;
        let ghost c = cur@;
        out.push(cur);
        assert(chars_view(out@) =~= chars_view(before).push(c));
        assert(chars_view(out@) =~= chars_view(before) + seq![c]);
    } else {
        assert(chars_view(out@) + Seq::<Seq<char>>::empty() =~= chars_view(out@));
    }
    out
}

/// Every leading and trailing `[` and `]` removed.
fn trim_brackets_exec(v: &Vec<char>) -> (r: Vec<char>)
    ensures
        r@ == trim_brackets(v@),
{
    let n = v.len();
    let mut i: usize = 0;
    assert(v@.subrange(0, n as int) =~= v@);
    while i < n && (v[i] == '[' || v[i] == ']')
        invariant
            i <= n == v.len(),
            trim_brackets_start(v@.subrange(i as int, n as int)) == trim_brackets_start(v@),
        decreases n - i,
    {
        assert(v@.subrange(i as int, n as int).drop_first() =~= v@.subrange(i + 1, n as int));
        i = i + 1;
    }
    let a = sub_chars(v, i, n);
    let mut j: usize = a.len();
    assert(a@.subrange(0, j as int) =~= a@);
    while j > 0 && (a[j - 1] == '[' || a[j - 1] == ']')
        invariant
            j <= a.len(),
            trim_brackets_end(a@.subrange(0, j as int)) == trim_brackets_end(a@),
        decreases j,
    {
        assert(a@.subrange(0, j as int).drop_last() =~= a@.subrange(0, j - 1));
        j = j - 1;
    }
    sub_chars(&a, 0, j)
}

/// `str::parse::<i32>`.
pub fn parse_i32_exec(v: &Vec<char>) -> (r: Option<i32>)
    ensures
        r == parse_i32_spec(v@),
{
    if v.len() == 0 {
        return None;
    }
    let neg = v[0] == '-';
    let signed = v[0] == '+' || v[0] == '-';
    let d = if signed { sub_chars(v, 1, v.len()) } else { sub_chars(v, 0, v.len()) };
    assert(d@ == (if v@[0] == '+' || v@[0] == '-' { v@.drop_first() } else { v@ }));
    if d.len() == 0 || !digits_only(&d, 0, d.len()) {
        assert(d@.subrange(0, d@.len() as int) =~= d@);
        return None;
    }
    assert(d@.subrange(0, d@.len() as int) =~= d@);
    assert(d@[0] != '+');
    match parse_unsigned_exec(&d, 2147483648) {
        Some(x) => {
            if neg {
                Some((0 - (x as i64)) as i32)
            } else if x <= 2147483647 {
                Some(x as i32)
            } else {
                None
            }
        },
        None => None,
    }
}


fn string_with(prefix: &str, s: &Vec<char>) -> (r: String)
    ensures
        r@ == prefix@ + s@,
{
    let mut m: Vec<char> = Vec::new();
    push_str(&mut m, prefix);
    extend_chars(&mut m, s.as_slice());
    string_from(m.as_slice())
}

fn upper_string(v: &Vec<char>) -> (r: String)
    ensures
        r@ == uppercase(v@),
{
    let s = string_from(v.as_slice());
    to_uppercase(s.as_str())
}

/// The first word that starts with `Max=`.
fn find_max_part(parts: &Vec<Vec<char>>) -> (r: Option<usize>)
    ensures
        match first_max_part(chars_view(parts@)) {
            Some(mp) => r matches Some(k) && k < parts.len() && parts@[k as int]@ == mp,
            None => r is None,
        },
        r matches Some(k) ==> k < parts.len() && starts_with(parts@[k as int]@, "Max="@),
{
    let maxeq: [char; 4] = ['M', 'a', 'x', '='];
    proof {
        reveal_strlit("Max=");
        assert(maxeq@ =~= "Max="@);
    }
    let mut k: usize = 0;
    assert(chars_view(parts@).skip(0) =~= chars_view(parts@));
    while k < parts.len()
        invariant
            k <= parts.len(),
            maxeq@ == "Max="@,
            first_max_part(chars_view(parts@).skip(k as int)) == first_max_part(chars_view(parts@)),
        decreases parts.len() - k,
    {
        let ghost rest = chars_view(parts@).skip(k as int);
        assert(rest[0] == parts@[k as int]@);
        if starts_with_exec(&parts[k], &maxeq) {
            return Some(k);
        }
        assert(rest.drop_first() =~= chars_view(parts@).skip(k + 1));
        k = k + 1;
    }
    assert(chars_view(parts@).skip(k as int) =~= Seq::<Seq<char>>::empty());
    None
}

impl RflQuestion {
    /// The question that holds the case ID.
    pub fn new_case_id(start_col: usize, width: usize) -> (r: Self)
        ensures
            r.model() == case_id_model(start_col, width),
    {
        let mut text_lines: Vec<String> = Vec::new();
        text_lines.push("CASE ID".to_owned());
        assert(strings_view(text_lines@) =~= seq!["CASE ID"@]);
        let exceptions: Vec<String> = Vec::new();
        assert(strings_view(exceptions@) =~= Seq::<Seq<char>>::empty());
        proof {
            reveal_strlit("CASEID");
        }
        RflQuestion {
            label: "CASEID".to_owned(),
            start_col,
            width,
            question_type: QuestionType::Num,
            max_responses: 1,
            text_lines,
            response_codes: TextMap::new(),
            min_value: None,
            max_value: None,
            exceptions,
        }
    }
}

impl RflQuestion {
    /// A `Q` line: label, type, location `[start.width]` and `Max=`.
    fn parse_question_line(&mut self, line: &Vec<char>) -> (r: Option<Result<(), String>>)
        ensures
            final(self).response_codes == old(self).response_codes,
            match question_line_step(old(self).model(), line@) {
                Some(Ok(m)) => r matches Some(Ok(_)) && final(self).model() == m,
                Some(Err(e)) => r matches Some(Err(x)) && x@ == e,
                None => r is None,
            },
    {
        let parts = split_words(line);
        let ghost pv = chars_view(parts@);
        if parts.len() < 6 {
            return Some(Err(string_with("Invalid question line format: ", line)));
        }
        assert(pv[1] == parts@[1]@ && pv[2] == parts@[2]@ && pv[5] == parts@[5]@);
        self.label = upper_string(&parts[1]);
        let p2 = string_from(parts[2].as_slice());
        let qt = match QuestionType::from_str(p2.as_str()) {
            Some(q) => q,
            None => {
                return Some(Err(string_with("Invalid question type: ", &parts[2])));
            },
        };
        self.question_type = qt;
        let loc = trim_brackets_exec(&parts[5]);
        let lp = split_dots(&loc);
        let ghost lpv = chars_view(lp@);
        assert(lpv[0] == lp@[0]@);
        let sc = match parse_unsigned_exec(&lp[0], usize::MAX as u64) {
            Some(x) => x as usize,
            None => {
                return Some(Err(string_with("Invalid start column: ", &lp[0])));
            },
        };
        self.start_col = sc;
        if lp.len() > 1 {
            assert(lpv[1] == lp@[1]@);
            let tw = match parse_unsigned_exec(&lp[1], usize::MAX as u64) {
                Some(x) => x as usize,
                None => {
                    return Some(Err(string_with("Invalid width: ", &lp[1])));
                },
            };
            match find_max_part(&parts) {
                Some(k) => {
                    proof {
                        reveal_strlit("Max=");
                    }
                    assert(parts@[k as int]@.len() >= 4);
                    let ms = sub_chars(&parts[k], 4, parts[k].len());
                    assert(ms@ =~= parts@[k as int]@.skip(4));
                    let mr = match parse_unsigned_exec(&ms, usize::MAX as u64) {
                        Some(x) => x as usize,
                        None => {
                            return Some(Err(string_with("Invalid max responses: ", &ms)));
                        },
                    };
                    if mr == 0 {
                        return None;
                    }
                    self.max_responses = mr;
                    self.width = tw / mr;
                },
                None => {
                    self.width = tw;
                },
            }
        }
        Some(Ok(()))
    }

    /// An `R` line: code and text, recorded in `response_codes`.
    fn parse_response_line(&mut self, line: &Vec<char>)
        requires
            tagged(line@, 'R'),
        ensures
            final(self).model() == response_step(old(self).model(), line@),
    {
        let after = sub_chars(line, 2, line.len());
        let trimmed = trim_start_chars(&after);
        assert(after@ =~= line@.skip(2));
        match find_char_exec(&trimmed, ' ') {
            Some(sp) => {
                proof {
                    lemma_find_char_from(trimmed@, ' ', 0);
                }
                let a = sub_chars(&trimmed, 0, sp);
                let b = sub_chars(&trimmed, sp, trimmed.len());
                assert(a@ =~= trimmed@.take(sp as int));
                assert(b@ =~= trimmed@.skip(sp as int));
                let code_v = trim_chars(&a);
                let text_v = trim_chars(&b);
                let code = string_from(code_v.as_slice());
                let text = string_from(text_v.as_slice());
                self.response_codes.insert(code, text);
            },
            None => {},
        }
    }

    /// An `X` line of a numeric question: range and exceptions.
    fn parse_numeric_range_line(&mut self, line: &Vec<char>)
        ensures
            final(self).response_codes == old(self).response_codes,
            final(self).model() == numeric_line_step(old(self).model(), line@),
    {
        let range: [char; 6] = ['R', 'a', 'n', 'g', 'e', '='];
        let exc: [char; 11] = ['E', 'x', 'c', 'e', 'p', 't', 'i', 'o', 'n', 's', '='];
        proof {
            reveal_strlit("Range=");
            reveal_strlit("Exceptions=");
            assert(range@ =~= "Range="@);
            assert(exc@ =~= "Exceptions="@);
        }
        match find_seq_exec(line, &range) {
            Some(rs) => {
                proof {
                    lemma_find_seq_from(line@, "Range="@, 0);
                    assert(occurs_at(line@, "Range="@, rs as int));
                    assert("Range="@.len() == 6);
                }
                assert(rs + 6 <= line.len());
                let rp = sub_chars(line, rs + 6, line.len());
                assert(rp@ =~= line@.skip(rs + 6));
                match find_char_exec(&rp, '-') {
                    Some(dp) => {
                        proof {
                            lemma_find_char_from(rp@, '-', 0);
                        }
                        let a = sub_chars(&rp, 0, dp);
                        assert(a@ =~= rp@.take(dp as int));
                        let min_s = trim_chars(&a);
                        let rest = sub_chars(&rp, dp + 1, rp.len());
                        assert(rest@ =~= rp@.skip(dp + 1));
                        let max_s = match find_char_exec(&rest, ' ') {
                            None => trim_chars(&rest),
                            Some(sp) => {
                                proof {
                                    lemma_find_char_from(rest@, ' ', 0);
                                }
                                let b = sub_chars(&rest, 0, sp);
                                assert(b@ =~= rest@.take(sp as int));
                                trim_chars(&b)
                            },
                        };
                        self.min_value = parse_i32_exec(&min_s);
                        self.max_value = parse_i32_exec(&max_s);
                    },
                    None => {},
                }
            },
            None => {},
        }
        match find_seq_exec(line, &exc) {
            Some(es) => {
                proof {
                    lemma_find_seq_from(line@, "Exceptions="@, 0);
                    assert(occurs_at(line@, "Exceptions="@, es as int));
                    assert("Exceptions="@.len() == 11);
                }
                assert(es + 11 <= line.len());
                let e = sub_chars(line, es + 11, line.len());
                assert(e@ =~= line@.skip(es + 11));
                let ep = trim_chars(&e);
                if ep.len() > 0 {
                    let pieces = split_commas(&ep);
                    self.exceptions = nonempty_trimmed_exec(&pieces);
                }
            },
            None => {},
        }
    }
}

/// `str::split('.')`.
fn split_dots(v: &Vec<char>) -> (r: Vec<Vec<char>>)
    ensures
        chars_view(r@) == split_char(v@, '.'),
        r.len() >= 1,
{
    split_on(v, '.')
}

/// `str::split(',')`.
fn split_commas(v: &Vec<char>) -> (r: Vec<Vec<char>>)
    ensures
        chars_view(r@) == split_char(v@, ','),
{
    split_on(v, ',')
}

/// `str::split` on a character.
pub fn split_on(v: &Vec<char>, c: char) -> (r: Vec<Vec<char>>)
    ensures
        chars_view(r@) == split_char(v@, c),
        r.len() >= 1,
{
    let mut out: Vec<Vec<char>> = Vec::new();
    let mut rest = sub_chars(v, 0, v.len());
    assert(rest@ =~= v@);
    assert(chars_view(out@) =~= Seq::<Seq<char>>::empty());
    loop
        invariant
            chars_view(out@) + split_char(rest@, c) == split_char(v@, c),
        decreases rest.len(),
    {
        let ghost before = out@;
        match find_char_exec(&rest, c) {
            Some(k) => {
                proof {
                    lemma_find_char_from(rest@, c, 0);
                }
                let piece = sub_chars(&rest, 0, k);
                let next = sub_chars(&rest, k + 1, rest.len());
                assert(piece@ =~= rest@.take(k as int));
                assert(next@ =~= rest@.skip(k + 1));
                let ghost pv = piece@;
                out.push(piece);
                assert(chars_view(out@) =~= chars_view(before).push(pv));
                assert(chars_view(out@) + split_char(next@, c) =~= chars_view(before) + (seq![pv] + split_char(next@, c)));
                rest = next;
            },
            None => {
                let ghost rv = rest@;
                out.push(rest);
                assert(chars_view(out@) =~= chars_view(before).push(rv));
                assert(chars_view(out@) =~= chars_view(before) + seq![rv]);
                return out;
            },
        }
    }
}

/// The trimmed pieces, the empty ones dropped.
fn nonempty_trimmed_exec(pieces: &Vec<Vec<char>>) -> (r: Vec<String>)
    ensures
        strings_view(r@) == nonempty_trimmed(chars_view(pieces@)),
{
    let mut out: Vec<String> = Vec::new();
    let mut i: usize = 0;
    let ghost pv = chars_view(pieces@);
    assert(pv.skip(0) =~= pv);
    assert(strings_view(out@) =~= Seq::<Seq<char>>::empty());
    while i < pieces.len()
        invariant
            i <= pieces.len(),
            pv == chars_view(pieces@),
            strings_view(out@) + nonempty_trimmed(pv.skip(i as int)) == nonempty_trimmed(pv),
        decreases pieces.len() - i,
    {
        let t = trim_chars(&pieces[i]);
        let ghost tail = pv.skip(i + 1);
        assert(pv.skip(i as int).drop_first() =~= tail);
        assert(pv.skip(i as int)[0] == pieces@[i as int]@);
        let ghost before = out@;
        if t.len() > 0 {
            let st = string_from(t.as_slice());
            out.push(st);
            assert(strings_view(out@) =~= strings_view(before).push(t@));
            assert(strings_view(out@) + nonempty_trimmed(tail) =~= strings_view(before) + (seq![t@] + nonempty_trimmed(tail)));
        } else {
            assert(Seq::<Seq<char>>::empty() + nonempty_trimmed(tail) =~= nonempty_trimmed(tail));
        }
        i = i + 1;
    }
    assert(pv.skip(pieces.len() as int) =~= Seq::<Seq<char>>::empty());
    assert(strings_view(out@) + Seq::<Seq<char>>::empty() =~= strings_view(out@));
    out
}

fn is_tagged(line: &Vec<char>, c: char) -> (r: bool)
    ensures
        r == tagged(line@, c),
{
    line.len() >= 2 && line[0] == c && line[1] == ' '
}

fn copy_strings(v: &Vec<String>) -> (r: Vec<String>)
    ensures
        strings_view(r@) == strings_view(v@),
{
    let mut out: Vec<String> = Vec::new();
    let mut i: usize = 0;
    while i < v.len()
        invariant
            i <= v.len(),
            strings_view(out@) == strings_view(v@).take(i as int),
        decreases v.len() - i,
    {
        let ghost before = out@;
        let x = v[i].clone();
        out.push(x);
        assert(strings_view(out@) =~= strings_view(before).push(x@));
        assert(strings_view(v@).take(i + 1) =~= strings_view(v@).take(i as int).push(strings_view(v@)[i as int]));
        i = i + 1;
    }
    assert(strings_view(v@).take(v.len() as int) =~= strings_view(v@));
    out
}

impl RflQuestion {
    /// A copy of the question.
    pub fn copy(&self) -> (r: Self)
        ensures
            r@ == self@,
    {
        RflQuestion {
            label: self.label.clone(),
            text_lines: copy_strings(&self.text_lines),
            response_codes: self.response_codes.copy(),
            exceptions: copy_strings(&self.exceptions),
            start_col: self.start_col,
            width: self.width,
            max_responses: self.max_responses,
            min_value: self.min_value,
            max_value: self.max_value,
            question_type: self.question_type,
        }
    }
}

/// The question as the parser starts it.
fn blank_question() -> (r: RflQuestion)
    ensures
        r.model() == initial_question(),
{
    let text_lines: Vec<String> = Vec::new();
    let exceptions: Vec<String> = Vec::new();
    assert(strings_view(text_lines@) =~= Seq::<Seq<char>>::empty());
    assert(strings_view(exceptions@) =~= Seq::<Seq<char>>::empty());
    RflQuestion {
        label: String::new(),
        start_col: 0,
        width: 1,
        question_type: QuestionType::Fld,
        max_responses: 1,
        text_lines,
        response_codes: TextMap::new(),
        min_value: None,
        max_value: None,
        exceptions,
    }
}

impl RflQuestion {
    /// Parse a question from its `Q`, `T`, `R` and `X` lines. The response
    /// codes of `R` lines go to `response_codes`; what that map holds after
    /// the call is not stated here.
    pub fn from_lines(lines: &[String]) -> (r: Result<Self, String>)
        requires
            question_from_lines(strings_view(lines@)) is Some,
        ensures
            match question_from_lines(strings_view(lines@)) {
                Some(Ok(m)) => r is Ok && r->Ok_0.model() == m,
                Some(Err(e)) => r is Err && r->Err_0@ == e,
                None => false,
            },
    {
        Self::try_from_lines(lines).unwrap()
    }

    /// [`RflQuestion::from_lines`], or `None` where the `Q` line has
    /// `Max=0`.
    pub fn try_from_lines(lines: &[String]) -> (r: Option<Result<Self, String>>)
        ensures
            match question_from_lines(strings_view(lines@)) {
                Some(Ok(m)) => r matches Some(Ok(q)) && q.model() == m,
                Some(Err(e)) => r matches Some(Err(x)) && x@ == e,
                None => r is None,
            },
    {
        let ghost ls = strings_view(lines@);
        let mut q = blank_question();
        let mut i: usize = 0;
        while i < lines.len()
            invariant
                i <= lines.len(),
                ls == strings_view(lines@),
                question_fold(q.model(), ls, i as int) == question_from_lines(ls),
            decreases lines.len() - i,
        {
            let line = chars_of(lines[i].as_str());
            assert(line@ == ls[i as int]);
            if is_tagged(&line, 'Q') {
                match q.parse_question_line(&line) {
                    None => {
                        return None;
                    },
                    Some(Ok(())) => {},
                    Some(Err(e)) => {
                        return Some(Err(e));
                    },
                }
            } else if is_tagged(&line, 'T') {
                let rest = sub_chars(&line, 2, line.len());
                assert(rest@ =~= line@.skip(2));
                let ghost before = q.text_lines@;
                q.text_lines.push(string_from(rest.as_slice()));
                assert(strings_view(q.text_lines@) =~= strings_view(before).push(rest@));
            } else if is_tagged(&line, 'R') {
                q.parse_response_line(&line);
            } else if line.len() > 0 && line[0] == 'X' && q.question_type == QuestionType::Num {
                q.parse_numeric_range_line(&line);
            }
            i = i + 1;
        }
        Some(Ok(q))
    }

    /// The text lines that carry question text, their numbering removed
    /// (the pattern must compile, as it does).
    pub fn main_text(&self) -> (r: Vec<String>)
        requires
            regex_compiles(QUESTION_PREFIX@),
        ensures
            strings_view(r@) == main_text_spec(strings_view(self.text_lines@), QUESTION_PREFIX@),
    {
        let ghost lv = strings_view(self.text_lines@);
        let mut out: Vec<String> = Vec::new();
        let datafrom: [char; 13] = ['D', 'A', 'T', 'A', 'F', 'R', 'O', 'M', '(', '0', '.', '1', ')'];
        let enter: [char; 12] = ['E', 'N', 'T', 'E', 'R', ' ', 'N', 'U', 'M', 'B', 'E', 'R'];
        proof {
            reveal_strlit("DATAFROM(0.1)");
            reveal_strlit("ENTER NUMBER");
            assert(datafrom@ =~= "DATAFROM(0.1)"@);
            assert(enter@ =~= "ENTER NUMBER"@);
        }
        let mut i: usize = 0;
        assert(lv.skip(0) =~= lv);
        assert(strings_view(out@) =~= Seq::<Seq<char>>::empty());
        while i < self.text_lines.len()
            invariant
                i <= self.text_lines.len(),
                lv == strings_view(self.text_lines@),
                datafrom@ == "DATAFROM(0.1)"@,
                enter@ == "ENTER NUMBER"@,
                regex_compiles(QUESTION_PREFIX@),
                strings_view(out@) + main_text_spec(lv.skip(i as int), QUESTION_PREFIX@)
                    == main_text_spec(lv, QUESTION_PREFIX@),
            decreases self.text_lines.len() - i,
        {
            let ghost tail = lv.skip(i + 1);
            assert(lv.skip(i as int).drop_first() =~= tail);
            assert(lv.skip(i as int)[0] == self.text_lines@[i as int]@);
            let raw = chars_of(self.text_lines[i].as_str());
            let t = trim_chars(&raw);
            let skip = starts_with_exec(&t, &datafrom) || t.len() == 0 || find_seq_exec(&t, &enter).is_some()
                || (t.len() > 0 && t[0] == '(' && t[t.len() - 1] == ')');
            let ghost before = out@;
            assert(main_text_spec(lv.skip(i as int), QUESTION_PREFIX@) == (if skip { Seq::empty() } else {
                seq![regex_replace_first(QUESTION_PREFIX@, t@, Seq::empty())]
            }) + main_text_spec(tail, QUESTION_PREFIX@));
            if !skip {
                let ts = string_from(t.as_slice());
                let cleaned = Self::remove_question_prefix(ts.as_str());
                out.push(cleaned);
                assert(strings_view(out@) =~= strings_view(before).push(cleaned@));
                assert(strings_view(out@) + main_text_spec(tail, QUESTION_PREFIX@) =~= strings_view(before)
                    + (seq![cleaned@] + main_text_spec(tail, QUESTION_PREFIX@)));
            } else {
                assert(Seq::<Seq<char>>::empty() + main_text_spec(tail, QUESTION_PREFIX@) =~= main_text_spec(tail, QUESTION_PREFIX@));
            }
            i = i + 1;
        }
        assert(lv.skip(self.text_lines.len() as int) =~= Seq::<Seq<char>>::empty());
        assert(strings_view(out@) + Seq::<Seq<char>>::empty() =~= strings_view(out@));
        out
    }

    /// The text without its question numbering (`A1.`, `Q17.`, `D16C.`):
    /// the first match of [`QUESTION_PREFIX`] removed.
    pub fn remove_question_prefix(text: &str) -> (r: String)
        requires
            regex_compiles(QUESTION_PREFIX@),
        ensures
            r@ == regex_replace_first(QUESTION_PREFIX@, text@, Seq::empty()),
    {
        proof {
            reveal_strlit("");
            assert(""@ =~= Seq::<char>::empty());
        }
        regex_replace(QUESTION_PREFIX, text, "")
    }

    /// [`RflQuestion::main_text`], or `None` when the numbering pattern does
    /// not compile.
    pub fn try_main_text(&self) -> (r: Option<Vec<String>>)
        ensures
            r is Some <==> regex_compiles(QUESTION_PREFIX@),
            r matches Some(v) ==> strings_view(v@) == main_text_spec(strings_view(self.text_lines@), QUESTION_PREFIX@),
    {
        if regex_valid(QUESTION_PREFIX) {
            Some(self.main_text())
        } else {
            None
        }
    }
}

/// A boundary of `bytes` at `s + w` is a boundary of `bytes[s..]` at `w`.
proof fn lemma_tail_boundary(bytes: Seq<u8>, s: int, w: int)
    requires
        vstd::utf8::valid_utf8(bytes),
        0 <= s,
        0 <= w,
        s + w <= bytes.len(),
        is_char_boundary(bytes, s),
        is_char_boundary(bytes, s + w),
    ensures
        vstd::utf8::valid_utf8(bytes.subrange(s, bytes.len() as int)),
        is_char_boundary(bytes.subrange(s, bytes.len() as int), w),
{
    broadcast use vstd::utf8::valid_utf8_split, vstd::utf8::is_char_boundary_start_end_of_seq,
        vstd::utf8::is_char_boundary_iff_not_is_continuation_byte;
    let tail = bytes.subrange(s, bytes.len() as int);
    assert(vstd::utf8::valid_utf8(tail));
    if w == 0 {
    } else if s + w == bytes.len() {
        assert(tail.len() == w);
    } else {
        assert(tail[w] == bytes[s + w]);
        assert(is_char_boundary(bytes, s + w) <==> !vstd::utf8::is_continuation_byte(bytes[s + w]));
        assert(is_char_boundary(tail, w) <==> !vstd::utf8::is_continuation_byte(tail[w]));
    }
}

impl RflQuestion {
    /// [`RflQuestion::responses`], or `None` where the slots cannot be read
    /// (see [`responses_ok`]).
    pub fn try_responses(&self, response_line: &str) -> (r: Option<Vec<String>>)
        ensures
            r is Some <==> responses_ok(self.start_col, self.width, self.max_responses, response_line.spec_bytes()),
            r matches Some(v) ==> v.len() == slots_in(self.start_col, self.width, self.max_responses as int,
                response_line.spec_bytes().len() as int).len() && forall|k: int| 0 <= k < v.len() ==> encode_utf8(
                (#[trigger] v@[k])@) == response_line.spec_bytes().subrange(
                slots_in(self.start_col, self.width, self.max_responses as int, response_line.spec_bytes().len() as int)[k],
                slots_in(self.start_col, self.width, self.max_responses as int, response_line.spec_bytes().len() as int)[k]
                    + self.width),
    {
        let ghost bytes = response_line.spec_bytes();
        if self.start_col < 1 {
            return None;
        }
        let total = match self.max_responses.checked_mul(self.width) {
            Some(t) => t,
            None => {
                return None;
            },
        };
        if total > usize::MAX - (self.start_col - 1) {
            return None;
        }
        let cv = chars_of(response_line);
        let nb = crate::cfmc::matching::byte_len_exec(&cv);
        if nb > usize::MAX as u128 {
            return None;
        }
        let n = response_line.len();
        let mut i: usize = 0;
        while i < self.max_responses
            invariant
                i <= self.max_responses,
                self.start_col >= 1,
                (self.start_col - 1) + self.max_responses * self.width <= usize::MAX,
                bytes == response_line.spec_bytes(),
                n == bytes.len(),
                forall|j: int| 0 <= j < i && #[trigger] slot_start(self.start_col, self.width, j) + self.width <= bytes.len()
                    ==> is_char_boundary(bytes, slot_start(self.start_col, self.width, j))
                    && is_char_boundary(bytes, slot_start(self.start_col, self.width, j) + self.width),
            decreases self.max_responses - i,
        {
            assert(i * self.width <= self.max_responses * self.width) by (nonlinear_arith)
                requires
                    i < self.max_responses,
            ;
            let st = (self.start_col - 1) + i * self.width;
            assert(st == slot_start(self.start_col, self.width, i as int));
            if st <= n && self.width <= n - st {
                if !response_line.is_char_boundary(st) || !response_line.is_char_boundary(st + self.width) {
                    return None;
                }
            }
            i = i + 1;
        }
        Some(self.responses(response_line))
    }

    /// The response slots of a data line: slot `i` is `width` bytes from
    /// byte `(start_col - 1) + i * width`; slots past the end of the line
    /// are left out.
    pub fn responses(&self, response_line: &str) -> (r: Vec<String>)
        requires
            self.start_col >= 1,
            (self.start_col - 1) + self.max_responses * self.width <= usize::MAX,
            response_line.spec_bytes().len() <= usize::MAX,
            forall|i: int| 0 <= i < self.max_responses
                && #[trigger] slot_start(self.start_col, self.width, i) + self.width <= response_line.spec_bytes().len()
                ==> is_char_boundary(response_line.spec_bytes(), slot_start(self.start_col, self.width, i))
                && is_char_boundary(response_line.spec_bytes(), slot_start(self.start_col, self.width, i) + self.width),
        ensures
            r.len() == slots_in(self.start_col, self.width, self.max_responses as int, response_line.spec_bytes().len() as int).len(),
            forall|k: int| 0 <= k < r.len() ==> encode_utf8((#[trigger] r@[k])@) == response_line.spec_bytes().subrange(
                slots_in(self.start_col, self.width, self.max_responses as int, response_line.spec_bytes().len() as int)[k],
                slots_in(self.start_col, self.width, self.max_responses as int, response_line.spec_bytes().len() as int)[k]
                    + self.width),
    {
        let ghost bytes = response_line.spec_bytes();
        proof {
            vstd::utf8::encode_utf8_valid_utf8(response_line@);
            assert(bytes == encode_utf8(response_line@));
        }
        let ghost len = bytes.len() as int;
        let n = response_line.len();
        let mut out: Vec<String> = Vec::new();
        let mut i: usize = 0;
        while i < self.max_responses
            invariant
                i <= self.max_responses,
                bytes == response_line.spec_bytes(),
                vstd::utf8::valid_utf8(bytes),
                len == bytes.len(),
                n == len,
                self.start_col >= 1,
                (self.start_col - 1) + self.max_responses * self.width <= usize::MAX,
                forall|j: int| 0 <= j < self.max_responses
                    && #[trigger] slot_start(self.start_col, self.width, j) + self.width <= bytes.len()
                    ==> is_char_boundary(bytes, slot_start(self.start_col, self.width, j))
                    && is_char_boundary(bytes, slot_start(self.start_col, self.width, j) + self.width),
                out.len() == slots_in(self.start_col, self.width, i as int, len).len(),
                forall|k: int| 0 <= k < out.len() ==> encode_utf8((#[trigger] out@[k])@) == bytes.subrange(
                    slots_in(self.start_col, self.width, i as int, len)[k],
                    slots_in(self.start_col, self.width, i as int, len)[k] + self.width),
            decreases self.max_responses - i,
        {
            assert(i * self.width + self.width <= self.max_responses * self.width) by (nonlinear_arith)
                requires
                    i < self.max_responses;
            let start_pos = (self.start_col - 1) + i * self.width;
            assert(start_pos == slot_start(self.start_col, self.width, i as int));
            let ghost prev = slots_in(self.start_col, self.width, i as int, len);
            if start_pos + self.width <= n {
                proof {
                    lemma_tail_boundary(bytes, start_pos as int, self.width as int);
                }
                let (_, tail) = response_line.split_at(start_pos);
                let (mid, _) = tail.split_at(self.width);
                let piece = mid.to_owned();
                assert(bytes.subrange(start_pos as int, len).subrange(0, self.width as int)
                    =~= bytes.subrange(start_pos as int, start_pos + self.width));
                out.push(piece);
                assert(slots_in(self.start_col, self.width, i + 1, len) == prev.push(start_pos as int)) by {
                    assert(seq![start_pos as int] =~= seq![slot_start(self.start_col, self.width, i as int)]);
                    assert(prev + seq![start_pos as int] =~= prev.push(start_pos as int));
                }
            } else {
                assert(slots_in(self.start_col, self.width, i + 1, len) =~= prev);
            }
            i = i + 1;
        }
        out
    }
}

// ---------------------------------------------------------------------------
// Files
// ---------------------------------------------------------------------------

pub open spec fn qmodels(s: Seq<RflQuestion>) -> Seq<QuestionModel> {
    s.map_values(|q: RflQuestion| q.model())
}

pub proof fn lemma_group_end(lines: Seq<Seq<char>>, k: int)
    requires
        0 <= k,
    ensures
        k <= group_end(lines, k) || (k > lines.len() && group_end(lines, k) == k),
        group_end(lines, k) >= k,
        k <= lines.len() ==> group_end(lines, k) <= lines.len(),
        forall|m: int| k <= m < group_end(lines, k) && m < lines.len() ==> !tagged(#[trigger] lines[m], 'Q'),
        group_end(lines, k) < lines.len() ==> tagged(lines[group_end(lines, k)], 'Q'),
    decreases lines.len() - k,
{
    if k < lines.len() && !tagged(lines[k], 'Q') {
        lemma_group_end(lines, k + 1);
    }
}

/// The questions of an RFL file, by label and in order.
#[derive(Debug)]
pub struct RflFile {
    questions: TextMap<RflQuestion>,
    questions_array: Vec<RflQuestion>,
}

/// Index of the last question labelled `label` among `qs`.
pub open spec fn last_labelled(qs: Seq<QuestionModel>, label: Seq<char>) -> Option<int>
    decreases qs.len(),
{
    if qs.len() == 0 {
        None
    } else if qs.last().label == label {
        Some(qs.len() - 1)
    } else {
        last_labelled(qs.drop_last(), label)
    }
}

/// The questions stored by label, in order: a later question with a label
/// replaces the earlier one.
pub open spec fn index_by_label(qs: Seq<QuestionModel>) -> Seq<(Seq<char>, QuestionModel)>
    decreases qs.len(),
{
    if qs.len() == 0 {
        Seq::empty()
    } else {
        put(index_by_label(qs.drop_last()), qs.last().label, qs.last())
    }
}

/// The label map of a file gives, for each label, the last question with
/// that label, and nothing for a label that no question has.
pub proof fn law_label_map_holds_last(qs: Seq<QuestionModel>, label: Seq<char>)
    ensures
        lookup(index_by_label(qs), label) == match last_labelled(qs, label) {
            Some(k) => Some(qs[k]),
            None => None::<QuestionModel>,
        },
    decreases qs.len(),
{
    if qs.len() > 0 {
        law_label_map_holds_last(qs.drop_last(), label);
        if qs.last().label == label {
            crate::text_map::law_lookup_after_put(index_by_label(qs.drop_last()), label, qs.last());
        } else {
            crate::text_map::law_put_keeps_other_keys(index_by_label(qs.drop_last()), qs.last().label, qs.last(), label);
            match last_labelled(qs.drop_last(), label) {
                Some(k) => {
                    lemma_last_labelled_in(qs.drop_last(), label);
                    assert(qs.drop_last()[k] == qs[k]);
                },
                None => {},
            }
        }
    }
}

proof fn lemma_last_labelled_in(qs: Seq<QuestionModel>, label: Seq<char>)
    ensures
        last_labelled(qs, label) matches Some(k) ==> 0 <= k < qs.len(),
    decreases qs.len(),
{
    if qs.len() > 0 && qs.last().label != label {
        lemma_last_labelled_in(qs.drop_last(), label);
    }
}

fn case_id_exec(line: &Vec<char>) -> (r: Option<RflQuestion>)
    requires
        starts_with(line@, case_id_prefix()),
    ensures
        match case_id_of(line@) {
            Some(m) => r matches Some(q) && q.model() == m,
            None => r is None,
        },
{
    proof {
        reveal_strlit("The case ID will be in columns ");
    }
    let rest = sub_chars(line, 31, line.len());
    assert(rest@ =~= line@.skip(case_id_prefix().len() as int));
    let parts = split_on(&rest, '.');
    let ghost pv = chars_view(parts@);
    if parts.len() == 2 {
        assert(pv[0] == parts@[0]@ && pv[1] == parts@[1]@);
        let max = usize::MAX as u64;
        match (parse_unsigned_exec(&parts[0], max), parse_unsigned_exec(&parts[1], max)) {
            (Some(st), Some(w)) => Some(RflQuestion::new_case_id(st as usize, w as usize)),
            _ => None,
        }
    } else {
        None
    }
}

impl RflFile {
    /// The questions in file order.
    pub closed spec fn question_list(&self) -> Seq<RflQuestion> {
        self.questions_array@
    }

    /// The map from labels to questions, by their views.
    pub closed spec fn question_map(&self) -> Seq<(Seq<char>, QuestionModel)> {
        self.questions.map_view()
    }

    /// Parse an RFL file from its lines. Questions whose lines fail to parse
    /// are left out. The map from labels to questions holds, for each
    /// label, the last question with that label (see [`index_by_label`]).
    pub fn from_lines(lines: &[String]) -> (r: std::io::Result<Self>)
        requires
            file_questions(strings_view(lines@)) is Some,
        ensures
            r is Ok,
            r matches Ok(f) ==> file_questions(strings_view(lines@)) == Some(qmodels(f.question_list())),
            r matches Ok(f) ==> f.question_map() == index_by_label(qmodels(f.question_list())),
    {
        Self::try_from_lines(lines).unwrap()
    }

    /// [`RflFile::from_lines`], or `None` on lines with a question whose
    /// `Q` line has `Max=0`.
    pub fn try_from_lines(lines: &[String]) -> (r: Option<std::io::Result<Self>>)
        ensures
            r is Some <==> file_questions(strings_view(lines@)) is Some,
            r matches Some(res) ==> res is Ok,
            r matches Some(Ok(f)) ==> file_questions(strings_view(lines@)) == Some(qmodels(f.question_list())),
            r matches Some(Ok(f)) ==> f.question_map() == index_by_label(qmodels(f.question_list())),
    {
        let ghost ls = strings_view(lines@);
        let mut questions: TextMap<RflQuestion> = TextMap::new();
        let mut arr: Vec<RflQuestion> = Vec::new();
        let prefix: [char; 31] = ['T', 'h', 'e', ' ', 'c', 'a', 's', 'e', ' ', 'I', 'D', ' ', 'w', 'i', 'l', 'l', ' ',
            'b', 'e', ' ', 'i', 'n', ' ', 'c', 'o', 'l', 'u', 'm', 'n', 's', ' '];
        proof {
            reveal_strlit("The case ID will be in columns ");
            assert(prefix@ =~= case_id_prefix());
        }
        assert(qmodels(arr@) =~= Seq::<QuestionModel>::empty());
        let mut i: usize = 0;
        while i < lines.len()
            invariant
                i <= lines.len(),
                ls == strings_view(lines@),
                prefix@ == case_id_prefix(),
                file_fold(ls, i as int, qmodels(arr@)) == file_questions(ls),
                questions.map_view() == index_by_label(qmodels(arr@)),
            decreases lines.len() - i,
        {
            let line = chars_of(lines[i].as_str());
            assert(line@ == ls[i as int]);
            let ghost before = arr@;
            if starts_with_exec(&line, &prefix) {
                match case_id_exec(&line) {
                    Some(q) => {
                        questions.insert(q.label.clone(), q.copy());
                        arr.push(q);
                        assert(qmodels(arr@) =~= qmodels(before).push(arr@.last().model()));
                        assert(qmodels(arr@).drop_last() =~= qmodels(before));
                    },
                    None => {},
                }
                i = i + 1;
            } else if is_tagged(&line, 'Q') {
                let i0 = i;
                let mut group: Vec<String> = Vec::new();
                group.push(lines[i].clone());
                i = i + 1;
                proof {
                    lemma_group_end(ls, i as int);
                }
                let ghost e = group_end(ls, i as int);
                assert(strings_view(group@) =~= seq![line@]);
                while i < lines.len() && !is_tagged_str(&lines[i], 'Q')
                    invariant
                        i0 < i <= lines.len(),
                        ls == strings_view(lines@),
                        e == group_end(ls, i0 + 1),
                        i <= e <= ls.len(),
                        e < ls.len() ==> tagged(ls[e], 'Q'),
                        forall|m: int| i0 + 1 <= m < e && m < ls.len() ==> !tagged(#[trigger] ls[m], 'Q'),
                        strings_view(group@) + group_lines(ls, i as int, e) == seq![ls[i0 as int]] + group_lines(ls, i0 + 1, e),
                    decreases lines.len() - i,
                {
                    let ghost gb = group@;
                    let next = chars_of(lines[i].as_str());
                    assert(next@ == ls[i as int]);
                    if is_tagged(&next, 'T') || is_tagged(&next, 'R') || is_tagged(&next, 'X') {
                        group.push(lines[i].clone());
                        assert(strings_view(group@) =~= strings_view(gb).push(next@));
                        assert(strings_view(group@) + group_lines(ls, i + 1, e) =~= strings_view(gb)
                            + (seq![next@] + group_lines(ls, i + 1, e)));
                    } else {
                        assert(Seq::<Seq<char>>::empty() + group_lines(ls, i + 1, e) =~= group_lines(ls, i + 1, e));
                    }
                    i = i + 1;
                }
                assert(i == e);
                assert(group_lines(ls, i as int, e) =~= Seq::<Seq<char>>::empty());
                assert(strings_view(group@) =~= seq![ls[i0 as int]] + group_lines(ls, i0 + 1, e));
                match RflQuestion::try_from_lines(group.as_slice()) {
                    None => {
                        return None;
                    },
                    Some(Ok(q)) => {
                        questions.insert(q.label.clone(), q.copy());
                        arr.push(q);
                        assert(qmodels(arr@) =~= qmodels(before).push(arr@.last().model()));
                        assert(qmodels(arr@).drop_last() =~= qmodels(before));
                    },
                    Some(Err(_)) => {},
                }
            } else {
                i = i + 1;
            }
        }
        Some(Ok(RflFile { questions, questions_array: arr }))
    }

    /// The questions by label.
    pub fn questions(&self) -> (r: &TextMap<RflQuestion>)
        ensures
            r.map_view() == self.question_map(),
    {
        &self.questions
    }

    /// The questions in file order.
    pub fn questions_array(&self) -> (r: &[RflQuestion])
        ensures
            r@ == self.question_list(),
    {
        self.questions_array.as_slice()
    }

    /// The question labelled `label` (the last one, where a label repeats).
    pub fn get_question(&self, label: &str) -> (r: Option<&RflQuestion>)
        ensures
            match last_labelled(qmodels(self.question_list()), label@) {
                Some(k) => r matches Some(q) && *q == self.question_list()[k],
                None => r is None,
            },
    {
        let key = label.to_owned();
        let mut k: usize = self.questions_array.len();
        let ghost qs = qmodels(self.questions_array@);
        assert(qs.take(k as int) =~= qs);
        while k > 0
            invariant
                k <= self.questions_array.len(),
                qs == qmodels(self.questions_array@),
                key@ == label@,
                last_labelled(qs.take(k as int), label@) == last_labelled(qs, label@),
            decreases k,
        {
            assert(qs.take(k as int).last() == self.questions_array@[k - 1].model());
            if self.questions_array[k - 1].label == key {
                return Some(&self.questions_array[k - 1]);
            }
            assert(qs.take(k as int).drop_last() =~= qs.take(k - 1));
            k = k - 1;
        }
        None
    }
}

fn is_tagged_str(line: &String, c: char) -> (r: bool)
    ensures
        r == tagged(line@, c),
{
    let v = chars_of(line.as_str());
    is_tagged(&v, c)
}

} // verus!
