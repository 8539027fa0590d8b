//! The weight specification of an `.E` file: the `X WEIGHT` passes of a
//! control table, its `X IF` assignments, and the `R` rows of the weight
//! tables. Numbers with a fractional part (`TOTAL`, `VALUE`) are kept as
//! the text of the number, checked to be one that `f64` parsing accepts.

use vstd::prelude::*;

use crate::rfl::{chars_view, split_words, words};
use crate::text::{
    ascii_lower, ascii_lower_exec, chars_eq, chars_of, extend_chars, find_char, find_char_exec, is_ascii_ws, is_digit,
    lemma_find_char_from, nat_str, push_str, starts_with, starts_with_exec, string_from, sub_chars, trim_chars, trim_ws,
    usize_to_chars,
};
use crate::weight::uncle::{UncleExpr, UncleModel};
use crate::weight::uncle_grammar::parse_spec;
use crate::weight::uncle_parser::parse_error_text;
use crate::weight::parse_e::{
    block_index, blocks_from, index_blocks_chars, try_parse_x_if, x_if_spec, ColumnAssignment, XIfModel,
    col_range, col_range_chars, eq_ignore_case, eq_ignore_case_exec, first_of, first_of_exec, id_list, id_list_chars, usize_exec,
    usize_of, ParseEError, TableBlock,
};

verus! {

// ---------------------------------------------------------------------------
// Lines
// ---------------------------------------------------------------------------

/// A line that ended with a line feed: a carriage return before the feed
/// is not part of it.
pub open spec fn strip_cr(p: Seq<char>) -> Seq<char> {
    if p.len() > 0 && p.last() == '\r' {
        p.drop_last()
    } else {
        p
    }
}

/// `str::lines` from position `i`, with the line `cur` begun.
pub open spec fn lines_acc(s: Seq<char>, i: int, cur: Seq<char>) -> Seq<Seq<char>>
    decreases s.len() - i,
{
    if i < 0 || i >= s.len() {
        if cur.len() > 0 { seq![cur] } else { Seq::empty() }
    } else if s[i] == '\n' {
        seq![strip_cr(cur)] + lines_acc(s, i + 1, Seq::empty())
    } else {
        lines_acc(s, i + 1, cur.push(s[i]))
    }
}

/// `str::lines`: the text split at line feeds, a carriage return before a
/// feed dropped; a last line without a feed counts when it is not empty.
pub open spec fn text_lines(s: Seq<char>) -> Seq<Seq<char>> {
    lines_acc(s, 0, Seq::empty())
}

fn strip_cr_exec(v: Vec<char>) -> (r: Vec<char>)
    ensures
        r@ == strip_cr(v@),
{
    if v.len() > 0 && v[v.len() - 1] == '\r' {
        let r = sub_chars(&v, 0, v.len() - 1);
        assert(r@ =~= v@.drop_last());
        r
    } else {
        v
    }
}

/// The lines of a text, as `str::lines` gives them.
pub fn split_lines(s: &str) -> (r: Vec<Vec<char>>)
    ensures
        chars_view(r@) == text_lines(s@),
{
    let v = chars_of(s);
    let mut out: Vec<Vec<char>> = Vec::new();
    let mut cur: Vec<char> = Vec::new();
    let mut i: usize = 0;
    assert(chars_view(out@) =~= Seq::<Seq<char>>::empty());
    while i < v.len()
        invariant
            i <= v.len(),
            v@ == s@,
            chars_view(out@) + lines_acc(v@, i as int, cur@) == text_lines(s@),
        decreases v.len() - i,
    {
        let ghost before = out@;
        let ghost c0 = cur@;
        if v[i] == '\n' {
            let line = strip_cr_exec(cur);
            out.push(line);
            cur = Vec::new();
            assert(chars_view(out@) =~= chars_view(before).push(strip_cr(c0)));
            assert(chars_view(out@) + lines_acc(v@, i + 1, cur@) =~= chars_view(before) + (seq![strip_cr(c0)]
                + lines_acc(v@, i + 1, Seq::empty())));
        } else {
            cur.push(v[i]);
        }
        i = i + 1;
    }
    let ghost before = out@;
    if cur.len() > 0 {
        let ghost c = cur@;
        out.push(cur);
        assert(chars_view(out@) =~= chars_view(before) + seq![c]);
    } else {
        assert(chars_view(out@) =~= chars_view(before) + Seq::<Seq<char>>::empty());
    }
    out
}

// ---------------------------------------------------------------------------
// Numbers with a fractional part
// ---------------------------------------------------------------------------

pub open spec fn all_dig(s: Seq<char>) -> bool {
    forall|i: int| 0 <= i < s.len() ==> is_digit(#[trigger] s[i])
}

/// The text with ASCII letters in lower case.
pub open spec fn lower_ascii(s: Seq<char>) -> Seq<char> {
    s.map_values(|c: char| ascii_lower(c))
}

/// `Digit+`, `Digit+ '.' Digit*` or `Digit* '.' Digit+`.
pub open spec fn mantissa_ok(m: Seq<char>) -> bool {
    match first_of(m, '.') {
        None => m.len() > 0 && all_dig(m),
        Some(k) => m.len() >= 2 && all_dig(m.take(k)) && all_dig(m.skip(k + 1)),
    }
}

/// An optional sign, then one or more digits.
pub open spec fn exponent_ok(x: Seq<char>) -> bool {
    let d = if x.len() > 0 && (x[0] == '+' || x[0] == '-') { x.drop_first() } else { x };
    d.len() > 0 && all_dig(d)
}

/// A mantissa with an optional exponent `e<exponent>`.
pub open spec fn number_ok(l: Seq<char>) -> bool {
    match first_of(l, 'e') {
        None => mantissa_ok(l),
        Some(k) => mantissa_ok(l.take(k)) && exponent_ok(l.skip(k + 1)),
    }
}

/// The texts that `str::parse::<f64>` accepts, by the grammar that `f64`'s
/// `FromStr` documents for the lower-cased text: an optional sign, then
/// `inf`, `infinity`, `nan`, or a number with an optional exponent.
pub open spec fn float_text(s: Seq<char>) -> bool {
    let t = if s.len() > 0 && (s[0] == '+' || s[0] == '-') { s.drop_first() } else { s };
    let l = lower_ascii(t);
    l == "inf"@ || l == "infinity"@ || l == "nan"@ || number_ok(l)
}

fn all_dig_exec(v: &Vec<char>, from: usize, to: usize) -> (r: bool)
    requires
        from <= to <= v.len(),
    ensures
        r == all_dig(v@.subrange(from as int, to as int)),
{
    let mut i = from;
    while i < to
        invariant
            from <= i <= to <= v.len(),
            forall|k: int| from <= k < i ==> is_digit(v@[k]),
        decreases to - i,
    {
        if !('0' <= v[i] && v[i] <= '9') {
            assert(!is_digit(v@.subrange(from as int, to as int)[i - from]));
            return false;
        }
        i = i + 1;
    }
    assert forall|k: int| 0 <= k < to - from implies is_digit(#[trigger] v@.subrange(from as int, to as int)[k]) by {
        assert(v@.subrange(from as int, to as int)[k] == v@[from + k]);
    }
    true
}

fn mantissa_ok_exec(m: &Vec<char>) -> (r: bool)
    ensures
        r == mantissa_ok(m@),
{
    match first_of_exec(m, '.') {
        None => {
            assert(m@.subrange(0, m@.len() as int) =~= m@);
            m.len() > 0 && all_dig_exec(m, 0, m.len())
        },
        Some(k) => {
            assert(m@.subrange(0, k as int) =~= m@.take(k as int));
            assert(m@.subrange(k + 1, m@.len() as int) =~= m@.skip(k + 1));
            m.len() >= 2 && all_dig_exec(m, 0, k) && all_dig_exec(m, k + 1, m.len())
        },
    }
}

fn exponent_ok_exec(x: &Vec<char>) -> (r: bool)
    ensures
        r == exponent_ok(x@),
{
    let from: usize = if x.len() > 0 && (x[0] == '+' || x[0] == '-') { 1 } else { 0 };
    assert(x@.subrange(from as int, x@.len() as int) =~= (if x@.len() > 0 && (x@[0] == '+' || x@[0] == '-') {
        x@.drop_first()
    } else {
        x@
    }));
    x.len() > from && all_dig_exec(x, from, x.len())
}

fn number_ok_exec(l: &Vec<char>) -> (r: bool)
    ensures
        r == number_ok(l@),
{
    match first_of_exec(l, 'e') {
        None => mantissa_ok_exec(l),
        Some(k) => {
            let a = sub_chars(l, 0, k);
            let b = sub_chars(l, k + 1, l.len());
            assert(a@ =~= l@.take(k as int));
            assert(b@ =~= l@.skip(k + 1));
            mantissa_ok_exec(&a) && exponent_ok_exec(&b)
        },
    }
}

/// Whether `str::parse::<f64>` accepts the text (see [`float_text`]).
pub fn float_text_exec(v: &Vec<char>) -> (r: bool)
    ensures
        r == float_text(v@),
{
    let from: usize = if v.len() > 0 && (v[0] == '+' || v[0] == '-') { 1 } else { 0 };
    let mut l: Vec<char> = Vec::new();
    let mut i = from;
    while i < v.len()
        invariant
            from <= i <= v.len(),
            l@ == lower_ascii(v@.subrange(from as int, i as int)),
        decreases v.len() - i,
    {
        l.push(ascii_lower_exec(v[i]));
        assert(lower_ascii(v@.subrange(from as int, i + 1)) =~= lower_ascii(v@.subrange(from as int, i as int)).push(
            ascii_lower(v@[i as int])));
        i = i + 1;
    }
    assert(v@.subrange(from as int, v@.len() as int) =~= (if v@.len() > 0 && (v@[0] == '+' || v@[0] == '-') {
        v@.drop_first()
    } else {
        v@
    }));
    let inf = chars_of("inf");
    let infinity = chars_of("infinity");
    let nan = chars_of("nan");
    chars_eq(&l, &inf) || chars_eq(&l, &infinity) || chars_eq(&l, &nan) || number_ok_exec(&l)
}

// ---------------------------------------------------------------------------
// `X WEIGHT`
// ---------------------------------------------------------------------------

/// The output of a weighting pass: the tables it rakes by, the columns the
/// weight goes to, its decimals, and the text of its `TOTAL`.
#[derive(Debug)]
pub struct WeightDirective {
    pub table_ids: Vec<u16>,
    pub col_start: usize,
    pub col_end: usize,
    pub decimal_width: usize,
    pub total: Option<String>,
}

/// A weight directive as values.
pub struct DirectiveModel {
    pub table_ids: Seq<u16>,
    pub col_start: int,
    pub col_end: int,
    pub decimal_width: int,
    pub total: Option<Seq<char>>,
}

impl WeightDirective {
    pub open spec fn model(&self) -> DirectiveModel {
        DirectiveModel {
            table_ids: self.table_ids@,
            col_start: self.col_start as int,
            col_end: self.col_end as int,
            decimal_width: self.decimal_width as int,
            total: match self.total {
                Some(t) => Some(t@),
                None => None,
            },
        }
    }

    /// The number of columns of the weight field.
    pub fn field_width(&self) -> (r: usize)
        requires
            self.col_start <= self.col_end,
            self.col_end - self.col_start < usize::MAX,
        ensures
            r == self.col_end - self.col_start + 1,
    {
        self.col_end - self.col_start + 1
    }
}

/// The first token from `i` on that is `TO` (in any case).
pub open spec fn to_from(ts: Seq<Seq<char>>, i: int) -> Option<int>
    decreases ts.len() - i,
{
    if i < 0 || i >= ts.len() {
        None
    } else if eq_ignore_case(ts[i], "TO"@) {
        Some(i)
    } else {
        to_from(ts, i + 1)
    }
}

/// The first `TOTAL <value>` among the tokens from `j` on: its value text,
/// or an error where the value is no number.
pub open spec fn total_scan(after: Seq<Seq<char>>, j: int) -> Result<Option<Seq<char>>, Seq<char>>
    decreases after.len() - j,
{
    if j < 0 || j >= after.len() {
        Ok(None)
    } else if eq_ignore_case(after[j], "TOTAL"@) && j + 1 < after.len() {
        if float_text(after[j + 1]) {
            Ok(Some(after[j + 1]))
        } else {
            Err("invalid TOTAL value"@)
        }
    } else {
        total_scan(after, j + 1)
    }
}

/// The tokens after `X WEIGHT`: table IDs and ranges, `TO`, the column
/// range (after an optional `1!`), the decimal width, and an optional
/// `TOTAL <n>` among the rest. The error is the message after
/// `X WEIGHT parse error: `.
pub open spec fn weight_line(s: Seq<char>) -> Result<DirectiveModel, Seq<char>> {
    let ts = words(s);
    match to_from(ts, 0) {
        None => Err("missing 'TO' keyword"@),
        Some(p) => match id_list(ts.take(p), 0) {
            Err(m) => Err(m),
            Ok(ids) => if ids.len() == 0 {
                Err("no table IDs before 'TO'"@)
            } else {
                directive_after(ids, ts.skip(p + 1))
            },
        },
    }
}

/// The directive from the tokens after `TO`.
pub open spec fn directive_after(ids: Seq<u16>, after: Seq<Seq<char>>) -> Result<DirectiveModel, Seq<char>> {
    if after.len() < 2 {
        Err("expected column range and decimal width after 'TO'"@)
    } else {
        let loc = if starts_with(after[0], "1!"@) { after[0].skip(2) } else { after[0] };
        match col_range(loc) {
            None => Err("invalid column range (expected e.g. 2000:2006)"@),
            Some((a, b)) => match usize_of(after[1]) {
                None => Err("invalid decimal width"@),
                Some(dw) => match total_scan(after, 2) {
                    Err(m) => Err(m),
                    Ok(t) => Ok(DirectiveModel { table_ids: ids, col_start: a, col_end: b, decimal_width: dw, total: t }),
                },
            },
        }
    }
}

// ---------------------------------------------------------------------------
// `R` rows
// ---------------------------------------------------------------------------

/// `str::splitn(3, ';')`: at most three parts, the last holding the rest.
pub open spec fn split3(s: Seq<char>) -> Seq<Seq<char>> {
    match find_char(s, ';') {
        None => seq![s],
        Some(a) => {
            let rest = s.skip(a + 1);
            match find_char(rest, ';') {
                None => seq![s.take(a), rest],
                Some(b) => seq![s.take(a), rest.take(b), rest.skip(b + 1)],
            }
        },
    }
}

/// A category of a weight table: label, UNCLE condition, and the text of
/// its target.
#[derive(Debug)]
pub struct ParsedCategory {
    pub label: String,
    pub condition: UncleExpr,
    pub target: String,
}

pub struct CategoryModel {
    pub label: Seq<char>,
    pub condition: UncleModel,
    pub target: Seq<char>,
}

impl ParsedCategory {
    pub open spec fn model(&self) -> CategoryModel {
        CategoryModel { label: self.label@, condition: self.condition@, target: self.target@ }
    }
}

/// An `R` row `label;condition;VALUE target` (after `R `): the message of
/// an error comes after `TABLE <id> R row: `. `None` where the condition
/// cannot be parsed to its end (an empty column group before `...`, or
/// column arithmetic past `usize::MAX`).
pub open spec fn r_row(s: Seq<char>) -> Option<Result<CategoryModel, Seq<char>>> {
    let parts = split3(s);
    if parts.len() != 3 {
        Some(Err("expected 3 semicolon-separated fields, got "@ + nat_str(parts.len())))
    } else {
        let label = trim_ws(parts[0]);
        let cond = trim_ws(parts[1]);
        match parse_spec(cond) {
            None => None,
            Some(Err((q, m))) => Some(Err("condition parse error: "@ + parse_error_text(q as nat, m, cond))),
            Some(Ok(e)) => {
                let vs = trim_ws(parts[2]);
                if starts_with(vs, "VALUE"@) || starts_with(vs, "value"@) {
                    let t = trim_ws(vs.skip(5));
                    if float_text(t) {
                        Some(Ok(CategoryModel { label, condition: e, target: t }))
                    } else {
                        Some(Err("invalid target value in '"@ + vs + "'"@))
                    }
                } else {
                    Some(Err("expected 'VALUE <target>'"@))
                }
            },
        }
    }
}

fn split3_exec(v: &Vec<char>) -> (r: Vec<Vec<char>>)
    ensures
        chars_view(r@) == split3(v@),
{
    let mut out: Vec<Vec<char>> = Vec::new();
    match find_char_exec(v, ';') {
        None => {
            let w = sub_chars(v, 0, v.len());
            assert(w@ =~= v@);
            out.push(w);
            assert(chars_view(out@) =~= seq![v@]);
        },
        Some(a) => {
            proof {
                lemma_find_char_from(v@, ';', 0);
                assert(find_char(v@, ';') == Some(a as int));
                assert(a < v@.len());
            }
            let n = v.len();
            assert(a < n);
            let a1 = a + 1;
            let first = sub_chars(v, 0, a);
            let rest = sub_chars(v, a1, n);
            assert(first@ =~= v@.take(a as int));
            assert(rest@ =~= v@.skip(a + 1));
            match find_char_exec(&rest, ';') {
                None => {
                    out.push(first);
                    out.push(rest);
                    assert(chars_view(out@) =~= seq![v@.take(a as int), v@.skip(a + 1)]);
                },
                Some(b) => {
                    proof {
                        lemma_find_char_from(rest@, ';', 0);
                    }
                    let second = sub_chars(&rest, 0, b);
                    let third = sub_chars(&rest, b + 1, rest.len());
                    assert(second@ =~= rest@.take(b as int));
                    assert(third@ =~= rest@.skip(b + 1));
                    out.push(first);
                    out.push(second);
                    out.push(third);
                    assert(chars_view(out@) =~= seq![v@.take(a as int), rest@.take(b as int), rest@.skip(b + 1)]);
                },
            }
        },
    }
    out
}

/// An error of an `R` row of table `id`.
fn row_err(table_id: u16, line_num: usize, msg: Vec<char>) -> (r: ParseEError)
    ensures
        r.line_num == line_num,
        r.message@ == "TABLE "@ + nat_str(table_id as nat) + " R row: "@ + msg@,
{
    let mut m: Vec<char> = Vec::new();
    push_str(&mut m, "TABLE ");
    let n = usize_to_chars(table_id as usize);
    extend_chars(&mut m, n.as_slice());
    push_str(&mut m, " R row: ");
    extend_chars(&mut m, msg.as_slice());
    ParseEError { line_num, message: string_from(m.as_slice()) }
}

/// An `R` row of table `table_id` on line `line_num` (see [`r_row`]);
/// `None` where the condition cannot be parsed to its end (an empty column group before `...`, or
/// column arithmetic past `usize::MAX`).
pub fn parse_r_row(s: &Vec<char>, table_id: u16, line_num: usize) -> (r: Option<Result<ParsedCategory, ParseEError>>)
    ensures
        match r_row(s@) {
            None => r is None,
            Some(Ok(c)) => r matches Some(Ok(x)) && x.model() == c,
            Some(Err(m)) => r matches Some(Err(e)) && e.line_num == line_num
                && e.message@ == "TABLE "@ + nat_str(table_id as nat) + " R row: "@ + m,
        },
{
    let parts = split3_exec(s);
    let ghost pv = chars_view(parts@);
    if parts.len() != 3 {
        let mut m: Vec<char> = Vec::new();
        push_str(&mut m, "expected 3 semicolon-separated fields, got ");
        let n = usize_to_chars(parts.len());
        extend_chars(&mut m, n.as_slice());
        return Some(Err(row_err(table_id, line_num, m)));
    }
    assert(pv[0] == parts@[0]@ && pv[1] == parts@[1]@ && pv[2] == parts@[2]@);
    let label = trim_chars(&parts[0]);
    let cond = trim_chars(&parts[1]);
    let cs = string_from(cond.as_slice());
    let condition = match UncleExpr::try_parse(cs.as_str()) {
        None => {
            return None;
        },
        Some(Err(e)) => {
            let mut m: Vec<char> = Vec::new();
            push_str(&mut m, "condition parse error: ");
            let et = e.to_string();
            push_str(&mut m, et.as_str());
            return Some(Err(row_err(table_id, line_num, m)));
        },
        Some(Ok(c)) => c,
    };
    let vs = trim_chars(&parts[2]);
    let up: [char; 5] = ['V', 'A', 'L', 'U', 'E'];
    let low: [char; 5] = ['v', 'a', 'l', 'u', 'e'];
    proof {
        reveal_strlit("VALUE");
        reveal_strlit("value");
        assert(up@ =~= "VALUE"@);
        assert(low@ =~= "value"@);
    }
    if starts_with_exec(&vs, &up) || starts_with_exec(&vs, &low) {
        let rest = sub_chars(&vs, 5, vs.len());
        assert(rest@ =~= vs@.skip(5));
        let t = trim_chars(&rest);
        if float_text_exec(&t) {
            Some(Ok(ParsedCategory { label: string_from(label.as_slice()), condition, target: string_from(t.as_slice()) }))
        } else {
            let mut m: Vec<char> = Vec::new();
            push_str(&mut m, "invalid target value in '");
            extend_chars(&mut m, vs.as_slice());
            push_str(&mut m, "'");
            Some(Err(row_err(table_id, line_num, m)))
        }
    } else {
        let mut m: Vec<char> = Vec::new();
        push_str(&mut m, "expected 'VALUE <target>'");
        Some(Err(row_err(table_id, line_num, m)))
    }
}

// ---------------------------------------------------------------------------
// Weight tables
// ---------------------------------------------------------------------------

/// A weight table: its ID and its categories.
#[derive(Debug)]
pub struct ParsedTable {
    pub id: u16,
    pub categories: Vec<ParsedCategory>,
}

pub open spec fn cat_models(cs: Seq<ParsedCategory>) -> Seq<CategoryModel> {
    cs.map_values(|c: ParsedCategory| c.model())
}

/// The line after the last line of a block, within the lines.
pub open spec fn block_end(ls: Seq<Seq<char>>, b: TableBlock) -> int {
    if (b.end as int) < ls.len() { b.end as int } else { ls.len() as int }
}

/// The `R` rows of table `id` on lines `i..end`, added to `acc`: blank
/// lines, `*` comments and `X ` directives are skipped; an error carries
/// its 1-based line. `None` where a condition cannot be parsed to its end (an empty column group before `...`, or
/// column arithmetic past `usize::MAX`).
pub open spec fn table_rows(ls: Seq<Seq<char>>, id: u16, i: int, end: int, acc: Seq<CategoryModel>)
    -> Option<Result<Seq<CategoryModel>, (int, Seq<char>)>>
    decreases end - i,
{
    if i < 0 || i >= end || i >= ls.len() {
        Some(Ok(acc))
    } else {
        let t = trim_ws(ls[i]);
        if t.len() == 0 || starts_with(t, "*"@) || starts_with(t, "X "@) {
            table_rows(ls, id, i + 1, end, acc)
        } else if starts_with(t, "R "@) {
            match r_row(trim_ws(t.skip(2))) {
                None => None,
                Some(Err(m)) => Some(Err((i + 1, "TABLE "@ + nat_str(id as nat) + " R row: "@ + m))),
                Some(Ok(c)) => table_rows(ls, id, i + 1, end, acc.push(c)),
            }
        } else {
            table_rows(ls, id, i + 1, end, acc)
        }
    }
}

/// The weight table of a block: its `R` rows after the `TABLE` line; a
/// table without rows is an error.
#[verifier::opaque]
pub open spec fn weight_table(ls: Seq<Seq<char>>, b: TableBlock) -> Option<Result<Seq<CategoryModel>, (int, Seq<char>)>> {
    match table_rows(ls, b.id, b.start + 1, block_end(ls, b), Seq::empty()) {
        None => None,
        Some(Err(x)) => Some(Err(x)),
        Some(Ok(cs)) => if cs.len() == 0 {
            Some(Err((b.start + 1, "TABLE "@ + nat_str(b.id as nat) + " has no R rows"@)))
        } else {
            Some(Ok(cs))
        },
    }
}

pub open spec fn located_err(r: Result<ParsedTable, ParseEError>, x: (int, Seq<char>)) -> bool {
    r matches Err(e) && e.line_num == x.0 && e.message@ == x.1
}

/// The weight table of a block (see [`weight_table`]); `None` where a
/// condition cannot be parsed to its end (an empty column group before `...`, or
/// column arithmetic past `usize::MAX`).
pub fn parse_weight_table(lines: &Vec<Vec<char>>, block: &TableBlock) -> (r: Option<Result<ParsedTable, ParseEError>>)
    requires
        block.start < usize::MAX,
    ensures
        match weight_table(chars_view(lines@), *block) {
            None => r is None,
            Some(Ok(cs)) => r matches Some(Ok(t)) && t.id == block.id && cat_models(t.categories@) == cs,
            Some(Err(x)) => r matches Some(res) && located_err(res, x),
        },
{
    proof {
        reveal(weight_table);
    }
    let ghost ls = chars_view(lines@);
    let end = if block.end < lines.len() { block.end } else { lines.len() };
    let mut cats: Vec<ParsedCategory> = Vec::new();
    let mut i = block.start + 1;
    assert(cat_models(cats@) =~= Seq::<CategoryModel>::empty());
    while i < end
        invariant
            block.start + 1 <= i || i >= end,
            end <= lines.len(),
            end == block_end(ls, *block),
            ls == chars_view(lines@),
            table_rows(ls, block.id, i as int, end as int, cat_models(cats@)) == table_rows(ls, block.id, block.start + 1,
                end as int, Seq::empty()),
        decreases end - i,
    {
        proof {
            reveal(weight_table);
        }
        assert(ls[i as int] == lines@[i as int]@);
        let t = trim_chars(&lines[i]);
        let star: [char; 1] = ['*'];
        let xsp: [char; 2] = ['X', ' '];
        let rsp: [char; 2] = ['R', ' '];
        proof {
            reveal_strlit("*");
            reveal_strlit("X ");
            reveal_strlit("R ");
            assert(star@ =~= "*"@);
            assert(xsp@ =~= "X "@);
            assert(rsp@ =~= "R "@);
        }
        if t.len() == 0 || starts_with_exec(&t, &star) || starts_with_exec(&t, &xsp) {
        } else if starts_with_exec(&t, &rsp) {
            let rest = sub_chars(&t, 2, t.len());
            assert(rest@ =~= t@.skip(2));
            let row = trim_chars(&rest);
            match parse_r_row(&row, block.id, i + 1) {
                None => {
                    return None;
                },
                Some(Err(e)) => {
                    return Some(Err(e));
                },
                Some(Ok(c)) => {
                    let ghost before = cats@;
                    cats.push(c);
                    assert(cat_models(cats@) =~= cat_models(before).push(c.model()));
                },
            }
        }
        i = i + 1;
    }
    if cats.len() == 0 {
        let mut m: Vec<char> = Vec::new();
        push_str(&mut m, "TABLE ");
        let n = usize_to_chars(block.id as usize);
        extend_chars(&mut m, n.as_slice());
        push_str(&mut m, " has no R rows");
        return Some(Err(ParseEError { line_num: block.start + 1, message: string_from(m.as_slice()) }));
    }
    Some(Ok(ParsedTable { id: block.id, categories: cats }))
}

// ---------------------------------------------------------------------------
// The control table
// ---------------------------------------------------------------------------

/// A weighting pass: the qualifier in force at its `X WEIGHT` line, and
/// the directive.
#[derive(Debug)]
pub struct QualifiedWeightPass {
    pub qualifier: Option<UncleExpr>,
    pub directive: WeightDirective,
}

pub struct PassModel {
    pub qualifier: Option<UncleModel>,
    pub directive: DirectiveModel,
}

pub struct AssignModel {
    pub condition: UncleModel,
    pub col: int,
    pub value: Seq<char>,
}

impl QualifiedWeightPass {
    pub open spec fn model(&self) -> PassModel {
        PassModel {
            qualifier: match self.qualifier {
                Some(q) => Some(q@),
                None => None,
            },
            directive: self.directive.model(),
        }
    }
}

pub open spec fn assign_model(a: ColumnAssignment) -> AssignModel {
    AssignModel { condition: a.condition@, col: a.col as int, value: a.value@ }
}

pub open spec fn pass_models(ps: Seq<QualifiedWeightPass>) -> Seq<PassModel> {
    ps.map_values(|p: QualifiedWeightPass| p.model())
}

pub open spec fn assign_models(as_: Seq<ColumnAssignment>) -> Seq<AssignModel> {
    as_.map_values(|a: ColumnAssignment| assign_model(a))
}

/// The passes and assignments read so far, and the qualifier in force.
pub struct PassState {
    pub passes: Seq<PassModel>,
    pub assigns: Seq<AssignModel>,
    pub qual: Option<UncleModel>,
}

/// One line of the control table (`ln` its 1-based number): `X SET QUAL(..)`
/// sets the qualifier (empty, `ALL` or no parentheses clear it), `X IF`
/// adds an assignment, `X WEIGHT` (but `X WEIGHT UNWEIGHT`) adds a pass
/// under the current qualifier. `None` where a qualifier or condition
/// cannot be parsed to its end (an empty column group before `...`, or
/// column arithmetic past `usize::MAX`).
#[verifier::opaque]
pub open spec fn pass_step(st: PassState, line: Seq<char>, ln: int) -> Option<Result<PassState, (int, Seq<char>)>> {
    let t = trim_ws(line);
    if starts_with(t, "X SET QUAL"@) {
        qual_step(st, trim_ws(t.skip(10)), ln)
    } else if starts_with(t, "X IF"@) {
        if_step(st, trim_ws(t.skip(4)), ln)
    } else if starts_with(t, "X WEIGHT"@) {
        weight_step(st, t.skip(8), ln)
    } else {
        Some(Ok(st))
    }
}

/// `X SET QUAL` followed by `rest` (trimmed).
#[verifier::opaque]
pub open spec fn qual_step(st: PassState, rest: Seq<char>, ln: int) -> Option<Result<PassState, (int, Seq<char>)>> {
    if rest.len() >= 2 && rest[0] == '(' && rest.last() == ')' {
        let inner = trim_ws(rest.subrange(1, rest.len() - 1));
        if inner.len() == 0 || eq_ignore_case(inner, "ALL"@) {
            Some(Ok(PassState { qual: None, ..st }))
        } else {
            match parse_spec(inner) {
                None => None,
                Some(Err((q, m))) => Some(Err((ln, "X SET QUAL parse error: "@ + parse_error_text(q as nat, m, inner)))),
                Some(Ok(e)) => Some(Ok(PassState { qual: Some(e), ..st })),
            }
        }
    } else if rest.len() == 0 {
        Some(Ok(PassState { qual: None, ..st }))
    } else {
        Some(Ok(st))
    }
}

/// `X IF` followed by `rest` (trimmed).
#[verifier::opaque]
pub open spec fn if_step(st: PassState, rest: Seq<char>, ln: int) -> Option<Result<PassState, (int, Seq<char>)>> {
    match x_if_spec(rest) {
        None => None,
        Some(XIfModel::NoAssignment) => Some(Ok(st)),
        Some(XIfModel::Error(m)) => Some(Err((ln, m))),
        Some(XIfModel::Assign { condition, col, value }) => Some(
            Ok(PassState { assigns: st.assigns.push(AssignModel { condition, col, value }), ..st }),
        ),
    }
}

/// `X WEIGHT` followed by `rest`.
#[verifier::opaque]
pub open spec fn weight_step(st: PassState, rest: Seq<char>, ln: int) -> Option<Result<PassState, (int, Seq<char>)>> {
    if rest.len() == 0 || !is_ascii_ws(rest[0]) {
        Some(Ok(st))
    } else if eq_ignore_case(trim_ws(rest), "UNWEIGHT"@) {
        Some(Ok(st))
    } else {
        match weight_line(trim_ws(rest)) {
            Err(m) => Some(Err((ln, "X WEIGHT parse error: "@ + m))),
            Ok(d) => Some(Ok(PassState { passes: st.passes.push(PassModel { qualifier: st.qual, directive: d }), ..st })),
        }
    }
}

/// The control-table lines `i..end`, from state `st`.
pub open spec fn passes_fold(ls: Seq<Seq<char>>, i: int, end: int, st: PassState) -> Option<Result<PassState, (int, Seq<char>)>>
    decreases end - i,
{
    if i < 0 || i >= end || i >= ls.len() {
        Some(Ok(st))
    } else {
        match pass_step(st, ls[i], i + 1) {
            None => None,
            Some(Err(x)) => Some(Err(x)),
            Some(Ok(st2)) => passes_fold(ls, i + 1, end, st2),
        }
    }
}

/// The passes and assignments of a control table; a table without a pass
/// is an error.
#[verifier::opaque]
pub open spec fn weight_passes(ls: Seq<Seq<char>>, b: TableBlock)
    -> Option<Result<(Seq<PassModel>, Seq<AssignModel>), (int, Seq<char>)>> {
    match passes_fold(ls, b.start as int, block_end(ls, b), PassState { passes: Seq::empty(), assigns: Seq::empty(), qual: None }) {
        None => None,
        Some(Err(x)) => Some(Err(x)),
        Some(Ok(st)) => if st.passes.len() == 0 {
            Some(Err((b.start + 1, "no X WEIGHT directive found in TABLE "@ + nat_str(b.id as nat))))
        } else {
            Some(Ok((st.passes, st.assigns)))
        },
    }
}

pub open spec fn opt_model(q: Option<UncleExpr>) -> Option<UncleModel> {
    match q {
        Some(x) => Some(x@),
        None => None,
    }
}

pub open spec fn state_of(passes: Seq<QualifiedWeightPass>, assigns: Seq<ColumnAssignment>, qual: Option<UncleExpr>) -> PassState {
    PassState { passes: pass_models(passes), assigns: assign_models(assigns), qual: opt_model(qual) }
}

pub open spec fn step_outcome(r: Option<Result<(), ParseEError>>, x: Option<Result<PassState, (int, Seq<char>)>>, after: PassState) -> bool {
    match x {
        None => r is None,
        Some(Err((ln, m))) => r matches Some(Err(e)) && e.line_num == ln && e.message@ == m,
        Some(Ok(st)) => r matches Some(Ok(())) && after == st,
    }
}

fn set_qual(
    passes: &mut Vec<QualifiedWeightPass>,
    assigns: &mut Vec<ColumnAssignment>,
    qual: &mut Option<UncleExpr>,
    rest: &Vec<char>,
    ln: usize,
) -> (r: Option<Result<(), ParseEError>>)
    ensures
        step_outcome(
            r,
            qual_step(state_of(old(passes)@, old(assigns)@, *old(qual)), rest@, ln as int),
            state_of(final(passes)@, final(assigns)@, *final(qual)),
        ),
{
    proof {
        reveal(qual_step);
    }
    if rest.len() >= 2 && rest[0] == '(' && rest[rest.len() - 1] == ')' {
        let i0 = sub_chars(rest, 1, rest.len() - 1);
        let inner = trim_chars(&i0);
        if inner.len() == 0 || eq_ignore_case_exec(&inner, "ALL") {
            *qual = None;
            Some(Ok(()))
        } else {
            let is = string_from(inner.as_slice());
            match UncleExpr::try_parse(is.as_str()) {
                None => None,
                Some(Err(e)) => {
                    let mut m: Vec<char> = Vec::new();
                    push_str(&mut m, "X SET QUAL parse error: ");
                    let et = e.to_string();
                    push_str(&mut m, et.as_str());
                    Some(Err(ParseEError { line_num: ln, message: string_from(m.as_slice()) }))
                },
                Some(Ok(x)) => {
                    *qual = Some(x);
                    Some(Ok(()))
                },
            }
        }
    } else if rest.len() == 0 {
        *qual = None;
        Some(Ok(()))
    } else {
        Some(Ok(()))
    }
}

fn if_exec(
    passes: &mut Vec<QualifiedWeightPass>,
    assigns: &mut Vec<ColumnAssignment>,
    qual: &mut Option<UncleExpr>,
    rest: &Vec<char>,
    ln: usize,
) -> (r: Option<Result<(), ParseEError>>)
    ensures
        step_outcome(
            r,
            if_step(state_of(old(passes)@, old(assigns)@, *old(qual)), rest@, ln as int),
            state_of(final(passes)@, final(assigns)@, *final(qual)),
        ),
{
    proof {
        reveal(if_step);
    }
    let rs = string_from(rest.as_slice());
    match try_parse_x_if(rs.as_str(), ln) {
        None => None,
        Some(Err(e)) => Some(Err(e)),
        Some(Ok(None)) => Some(Ok(())),
        Some(Ok(Some(a))) => {
            let ghost before = assigns@;
            assigns.push(a);
            assert(assign_models(assigns@) =~= assign_models(before).push(assign_model(a)));
            Some(Ok(()))
        },
    }
}

fn weight_exec(
    passes: &mut Vec<QualifiedWeightPass>,
    assigns: &mut Vec<ColumnAssignment>,
    qual: &mut Option<UncleExpr>,
    rest: &Vec<char>,
    ln: usize,
) -> (r: Option<Result<(), ParseEError>>)
    ensures
        step_outcome(
            r,
            weight_step(state_of(old(passes)@, old(assigns)@, *old(qual)), rest@, ln as int),
            state_of(final(passes)@, final(assigns)@, *final(qual)),
        ),
{
    proof {
        reveal(weight_step);
    }
    if rest.len() == 0 || !(rest[0] == ' ' || rest[0] == '\t' || rest[0] == '\n' || rest[0] == '\x0C' || rest[0] == '\r') {
        return Some(Ok(()));
    }
    let r2 = trim_chars(rest);
    if eq_ignore_case_exec(&r2, "UNWEIGHT") {
        return Some(Ok(()));
    }
    let rs = string_from(r2.as_slice());
    match parse_weight_line(rs.as_str(), ln) {
        Err(e) => Some(Err(e)),
        Ok(d) => {
            let q = match qual {
                Some(x) => Some(x.copy()),
                None => None,
            };
            let p = QualifiedWeightPass { qualifier: q, directive: d };
            let ghost before = passes@;
            passes.push(p);
            assert(pass_models(passes@) =~= pass_models(before).push(p.model()));
            Some(Ok(()))
        },
    }
}

fn pass_step_exec(
    passes: &mut Vec<QualifiedWeightPass>,
    assigns: &mut Vec<ColumnAssignment>,
    qual: &mut Option<UncleExpr>,
    line: &Vec<char>,
    ln: usize,
) -> (r: Option<Result<(), ParseEError>>)
    ensures
        step_outcome(
            r,
            pass_step(state_of(old(passes)@, old(assigns)@, *old(qual)), line@, ln as int),
            state_of(final(passes)@, final(assigns)@, *final(qual)),
        ),
{
    proof {
        reveal(pass_step);
    }
    let t = trim_chars(line);
    proof {
        reveal_strlit("X SET QUAL");
        reveal_strlit("X IF");
        reveal_strlit("X WEIGHT");
    }
    let set_qual_kw: [char; 10] = ['X', ' ', 'S', 'E', 'T', ' ', 'Q', 'U', 'A', 'L'];
    let if_kw: [char; 4] = ['X', ' ', 'I', 'F'];
    let weight_kw: [char; 8] = ['X', ' ', 'W', 'E', 'I', 'G', 'H', 'T'];
    assert(set_qual_kw@ =~= "X SET QUAL"@);
    assert(if_kw@ =~= "X IF"@);
    assert(weight_kw@ =~= "X WEIGHT"@);
    if starts_with_exec(&t, &set_qual_kw) {
        let r0 = sub_chars(&t, 10, t.len());
        assert(r0@ =~= t@.skip(10));
        let rest = trim_chars(&r0);
        set_qual(passes, assigns, qual, &rest, ln)
    } else if starts_with_exec(&t, &if_kw) {
        let r0 = sub_chars(&t, 4, t.len());
        assert(r0@ =~= t@.skip(4));
        let rest = trim_chars(&r0);
        if_exec(passes, assigns, qual, &rest, ln)
    } else if starts_with_exec(&t, &weight_kw) {
        let rest = sub_chars(&t, 8, t.len());
        assert(rest@ =~= t@.skip(8));
        weight_exec(passes, assigns, qual, &rest, ln)
    } else {
        Some(Ok(()))
    }
}

/// Copies of the tokens `ts[from..to]`.
pub fn copy_tokens(ts: &Vec<Vec<char>>, from: usize, to: usize) -> (r: Vec<Vec<char>>)
    requires
        from <= to <= ts.len(),
    ensures
        chars_view(r@) == chars_view(ts@).subrange(from as int, to as int),
{
    let mut out: Vec<Vec<char>> = Vec::new();
    let mut k = from;
    while k < to
        invariant
            from <= k <= to <= ts.len(),
            chars_view(out@) == chars_view(ts@).subrange(from as int, k as int),
        decreases to - k,
    {
        let ghost before = out@;
        let t = sub_chars(&ts[k], 0, ts[k].len());
        assert(t@ =~= ts@[k as int]@);
        out.push(t);
        assert(chars_view(out@) =~= chars_view(before).push(t@));
        assert(chars_view(ts@)[k as int] == ts@[k as int]@);
        assert(chars_view(ts@).subrange(from as int, k + 1) =~= chars_view(ts@).subrange(from as int, k as int).push(
            chars_view(ts@)[k as int]));
        k = k + 1;
    }
    out
}

fn weight_err(line_num: usize, msg: &str) -> (r: ParseEError)
    ensures
        r.line_num == line_num,
        r.message@ == "X WEIGHT parse error: "@ + msg@,
{
    let mut m: Vec<char> = Vec::new();
    push_str(&mut m, "X WEIGHT parse error: ");
    push_str(&mut m, msg);
    ParseEError { line_num, message: string_from(m.as_slice()) }
}

/// The directive after `X WEIGHT` (see [`weight_line`]); errors carry the
/// line number.
pub fn parse_weight_line(s: &str, line_num: usize) -> (r: Result<WeightDirective, ParseEError>)
    ensures
        match weight_line(s@) {
            Ok(d) => r matches Ok(w) && w.model() == d,
            Err(m) => r matches Err(e) && e.line_num == line_num && e.message@ == "X WEIGHT parse error: "@ + m,
        },
{
    let v = chars_of(s);
    let ts = split_words(&v);
    let ghost tv = chars_view(ts@);
    let mut p: usize = 0;
    while p < ts.len() && !eq_ignore_case_exec(&ts[p], "TO")
        invariant
            p <= ts.len(),
            tv == chars_view(ts@),
            to_from(tv, p as int) == to_from(tv, 0),
        decreases ts.len() - p,
    {
        assert(tv[p as int] == ts@[p as int]@);
        p = p + 1;
    }
    if p == ts.len() {
        return Err(weight_err(line_num, "missing 'TO' keyword"));
    }
    assert(tv[p as int] == ts@[p as int]@);
    assert(to_from(tv, 0) == Some(p as int));
    let head = copy_tokens(&ts, 0, p);
    assert(chars_view(head@) =~= tv.take(p as int));
    let ids = match id_list_chars(&head, line_num) {
        Ok(ids) => ids,
        Err(e) => {
            return Err(e);
        },
    };
    if ids.len() == 0 {
        return Err(weight_err(line_num, "no table IDs before 'TO'"));
    }
    let after = copy_tokens(&ts, p + 1, ts.len());
    assert(chars_view(after@) =~= tv.skip(p + 1));
    directive_after_exec(ids, &after, line_num)
}

fn total_exec(after: &Vec<Vec<char>>) -> (r: Result<Option<String>, ()>)
    requires
        after.len() >= 2,
    ensures
        match total_scan(chars_view(after@), 2) {
            Ok(None) => r matches Ok(None),
            Ok(Some(t)) => r matches Ok(Some(x)) && x@ == t,
            Err(m) => r is Err && m == "invalid TOTAL value"@,
        },
{
    let ghost av = chars_view(after@);
    let mut j: usize = 2;
    while j < after.len()
        invariant
            2 <= j <= after.len(),
            av == chars_view(after@),
            total_scan(av, j as int) == total_scan(av, 2),
        decreases after.len() - j,
    {
        assert(av[j as int] == after@[j as int]@);
        if eq_ignore_case_exec(&after[j], "TOTAL") && j + 1 < after.len() {
            assert(av[j + 1] == after@[j + 1]@);
            if float_text_exec(&after[j + 1]) {
                return Ok(Some(string_from(after[j + 1].as_slice())));
            } else {
                return Err(());
            }
        }
        j = j + 1;
    }
    Ok(None)
}

fn directive_after_exec(ids: Vec<u16>, after: &Vec<Vec<char>>, line_num: usize) -> (r: Result<WeightDirective, ParseEError>)
    ensures
        match directive_after(ids@, chars_view(after@)) {
            Ok(d) => r matches Ok(w) && w.model() == d,
            Err(m) => r matches Err(e) && e.line_num == line_num && e.message@ == "X WEIGHT parse error: "@ + m,
        },
{
    let ghost av = chars_view(after@);
    if after.len() < 2 {
        return Err(weight_err(line_num, "expected column range and decimal width after 'TO'"));
    }
    assert(av[0] == after@[0]@ && av[1] == after@[1]@);
    let pfx: [char; 2] = ['1', '!'];
    proof {
        reveal_strlit("1!");
        assert(pfx@ =~= "1!"@);
    }
    let loc = if starts_with_exec(&after[0], &pfx) {
        sub_chars(&after[0], 2, after[0].len())
    } else {
        sub_chars(&after[0], 0, after[0].len())
    };
    assert(loc@ =~= (if starts_with(av[0], "1!"@) { av[0].skip(2) } else { av[0] }));
    let (col_start, col_end) = match col_range_chars(&loc) {
        Some(x) => x,
        None => {
            return Err(weight_err(line_num, "invalid column range (expected e.g. 2000:2006)"));
        },
    };
    let decimal_width = match usize_exec(&after[1]) {
        Some(d) => d,
        None => {
            return Err(weight_err(line_num, "invalid decimal width"));
        },
    };
    let total = match total_exec(after) {
        Ok(t) => t,
        Err(()) => {
            return Err(weight_err(line_num, "invalid TOTAL value"));
        },
    };
    Ok(WeightDirective { table_ids: ids, col_start, col_end, decimal_width, total })
}


/// The passes and assignments of a control table (see [`weight_passes`]);
/// `None` where a qualifier or an `X IF` condition cannot be parsed to its end (an empty column group before `...`, or
/// column arithmetic past `usize::MAX`).
pub fn extract_weight_passes(lines: &Vec<Vec<char>>, block: &TableBlock) -> (r: Option<
    Result<(Vec<QualifiedWeightPass>, Vec<ColumnAssignment>), ParseEError>,
>)
    requires
        block.start < usize::MAX,
    ensures
        match weight_passes(chars_view(lines@), *block) {
            None => r is None,
            Some(Ok((ps, as_))) => r matches Some(Ok((p, a))) && pass_models(p@) == ps && assign_models(a@) == as_,
            Some(Err((ln, m))) => r matches Some(Err(e)) && e.line_num == ln && e.message@ == m,
        },
{
    proof {
        reveal(weight_passes);
    }
    let ghost ls = chars_view(lines@);
    let end = if block.end < lines.len() { block.end } else { lines.len() };
    let mut passes: Vec<QualifiedWeightPass> = Vec::new();
    let mut assigns: Vec<ColumnAssignment> = Vec::new();
    let mut qual: Option<UncleExpr> = None;
    let ghost init = PassState { passes: Seq::empty(), assigns: Seq::empty(), qual: None };
    assert(state_of(passes@, assigns@, qual) == init) by {
        assert(pass_models(passes@) =~= Seq::<PassModel>::empty());
        assert(assign_models(assigns@) =~= Seq::<AssignModel>::empty());
    }
    let ghost whole = passes_fold(ls, block.start as int, end as int, init);
    assert(weight_passes(ls, *block) == match whole {
        None => None,
        Some(Err(x)) => Some(Err(x)),
        Some(Ok(st)) => if st.passes.len() == 0 {
            Some(Err((block.start + 1, "no X WEIGHT directive found in TABLE "@ + nat_str(block.id as nat))))
        } else {
            Some(Ok((st.passes, st.assigns)))
        },
    });
    let mut i = block.start;
    while i < end
        invariant
            block.start <= i,
            end <= lines.len(),
            end == block_end(ls, *block),
            ls == chars_view(lines@),
            whole == passes_fold(ls, block.start as int, end as int, init),
            weight_passes(ls, *block) == match whole {
                None => None,
                Some(Err(x)) => Some(Err(x)),
                Some(Ok(st)) => if st.passes.len() == 0 {
                    Some(Err((block.start + 1, "no X WEIGHT directive found in TABLE "@ + nat_str(block.id as nat))))
                } else {
                    Some(Ok((st.passes, st.assigns)))
                },
            },
            passes_fold(ls, i as int, end as int, state_of(passes@, assigns@, qual)) == whole,
        decreases end - i,
    {
        assert(ls[i as int] == lines@[i as int]@);
        let ghost st0 = state_of(passes@, assigns@, qual);
        let ghost step = pass_step(st0, ls[i as int], i + 1);
        assert(passes_fold(ls, i as int, end as int, st0) == match step {
            None => None,
            Some(Err(x)) => Some(Err(x)),
            Some(Ok(st2)) => passes_fold(ls, i + 1, end as int, st2),
        });
        match pass_step_exec(&mut passes, &mut assigns, &mut qual, &lines[i], i + 1) {
            None => {
                return None;
            },
            Some(Err(e)) => {
                return Some(Err(e));
            },
            Some(Ok(())) => {},
        }
        i = i + 1;
    }
    if passes.len() == 0 {
        let mut m: Vec<char> = Vec::new();
        push_str(&mut m, "no X WEIGHT directive found in TABLE ");
        let n = usize_to_chars(block.id as usize);
        extend_chars(&mut m, n.as_slice());
        return Some(Err(ParseEError { line_num: block.start + 1, message: string_from(m.as_slice()) }));
    }
    Some(Ok((passes, assigns)))
}


// ---------------------------------------------------------------------------
// The whole file
// ---------------------------------------------------------------------------

/// A weight table as values.
pub struct TableModel {
    pub id: u16,
    pub categories: Seq<CategoryModel>,
}

impl ParsedTable {
    pub open spec fn model(&self) -> TableModel {
        TableModel { id: self.id, categories: cat_models(self.categories@) }
    }
}

pub open spec fn table_models(ts: Seq<ParsedTable>) -> Seq<TableModel> {
    ts.map_values(|t: ParsedTable| t.model())
}

/// `ids` with each of its IDs that `seen` lacks added, in order.
pub open spec fn add_ids(seen: Seq<u16>, ids: Seq<u16>) -> Seq<u16>
    decreases ids.len(),
{
    if ids.len() == 0 {
        seen
    } else {
        add_ids(if seen.contains(ids[0]) { seen } else { seen.push(ids[0]) }, ids.skip(1))
    }
}

/// The table IDs of the passes from `k` on, each once, in the order of
/// their first mention, added to `seen`.
pub open spec fn union_ids(ps: Seq<PassModel>, k: int, seen: Seq<u16>) -> Seq<u16>
    decreases ps.len() - k,
{
    if k < 0 || k >= ps.len() {
        seen
    } else {
        union_ids(ps, k + 1, add_ids(seen, ps[k].directive.table_ids))
    }
}

/// The weight table with the given ID; an ID without a block is an error.
#[verifier::opaque]
pub open spec fn table_step(ls: Seq<Seq<char>>, bs: Seq<TableBlock>, id: u16) -> Option<Result<TableModel, (int, Seq<char>)>> {
    match block_index(bs, id) {
        None => Some(Err((0, "TABLE "@ + nat_str(id as nat) + " referenced by X WEIGHT but not found in .E file"@))),
        Some(k) => match weight_table(ls, bs[k]) {
            None => None,
            Some(Err(x)) => Some(Err(x)),
            Some(Ok(cs)) => Some(Ok(TableModel { id: bs[k].id, categories: cs })),
        },
    }
}

proof fn lemma_add_ids(seen: Seq<u16>, ids: Seq<u16>)
    requires
        seen.no_duplicates(),
    ensures
        add_ids(seen, ids).no_duplicates(),
        forall|x: u16| #[trigger] add_ids(seen, ids).contains(x) <==> (seen.contains(x) || ids.contains(x)),
    decreases ids.len(),
{
    if ids.len() > 0 {
        let s2 = if seen.contains(ids[0]) { seen } else { seen.push(ids[0]) };
        if !seen.contains(ids[0]) {
            assert forall|a: int, b: int| 0 <= a < s2.len() && 0 <= b < s2.len() && a != b implies s2[a] != s2[b] by {
                if a == seen.len() {
                    assert(seen[b] == s2[b]);
                } else if b == seen.len() {
                    assert(seen[a] == s2[a]);
                }
            }
        }
        lemma_add_ids(s2, ids.skip(1));
        assert forall|x: u16| add_ids(seen, ids).contains(x) <==> (seen.contains(x) || ids.contains(x)) by {
            if ids.contains(x) && x != ids[0] {
                let k = choose|k: int| 0 <= k < ids.len() && ids[k] == x;
                assert(ids.skip(1)[k - 1] == x);
            }
            if ids.skip(1).contains(x) {
                let k = choose|k: int| 0 <= k < ids.len() - 1 && ids.skip(1)[k] == x;
                assert(ids[k + 1] == x);
            }
            if s2.contains(x) && !seen.contains(x) {
                let k = choose|k: int| 0 <= k < s2.len() && s2[k] == x;
                if k < seen.len() {
                    assert(seen[k] == x);
                }
                assert(ids[0] == x);
            }
            if seen.contains(x) {
                let k = choose|k: int| 0 <= k < seen.len() && seen[k] == x;
                assert(s2[k] == x);
            }
            if x == ids[0] {
                assert(ids[0] == x);
                if !seen.contains(x) {
                    assert(s2[seen.len() as int] == x);
                }
            }
        }
    }
}

proof fn lemma_union_ids(ps: Seq<PassModel>, k: int, seen: Seq<u16>)
    requires
        0 <= k <= ps.len(),
        seen.no_duplicates(),
    ensures
        union_ids(ps, k, seen).no_duplicates(),
        forall|x: u16|
            #[trigger] union_ids(ps, k, seen).contains(x) <==> (seen.contains(x) || exists|j: int|
                k <= j < ps.len() && (#[trigger] ps[j].directive.table_ids).contains(x)),
    decreases ps.len() - k,
{
    if k < ps.len() {
        let s2 = add_ids(seen, ps[k].directive.table_ids);
        lemma_add_ids(seen, ps[k].directive.table_ids);
        lemma_union_ids(ps, k + 1, s2);
        assert forall|x: u16| #[trigger] union_ids(ps, k, seen).contains(x) <==> (seen.contains(x) || exists|j: int|
            k <= j < ps.len() && (#[trigger] ps[j].directive.table_ids).contains(x)) by {
            if exists|j: int| k <= j < ps.len() && (#[trigger] ps[j].directive.table_ids).contains(x) {
                let j = choose|j: int| k <= j < ps.len() && (#[trigger] ps[j].directive.table_ids).contains(x);
                if j > k {
                    assert(exists|j2: int| k + 1 <= j2 < ps.len() && (#[trigger] ps[j2].directive.table_ids).contains(x));
                }
            }
        }
    }
}

/// The table IDs of the passes from `k` on, in order, repeats kept.
pub open spec fn flat_ids(ps: Seq<PassModel>, k: int) -> Seq<u16>
    decreases ps.len() - k,
{
    if k < 0 || k >= ps.len() {
        Seq::empty()
    } else {
        ps[k].directive.table_ids + flat_ids(ps, k + 1)
    }
}

proof fn lemma_add_ids_concat(seen: Seq<u16>, a: Seq<u16>, b: Seq<u16>)
    ensures
        add_ids(add_ids(seen, a), b) == add_ids(seen, a + b),
    decreases a.len(),
{
    if a.len() == 0 {
        assert(a + b =~= b);
    } else {
        let s2 = if seen.contains(a[0]) { seen } else { seen.push(a[0]) };
        assert((a + b)[0] == a[0]);
        assert((a + b).skip(1) =~= a.skip(1) + b);
        lemma_add_ids_concat(s2, a.skip(1), b);
    }
}

proof fn lemma_union_flat(ps: Seq<PassModel>, k: int, seen: Seq<u16>)
    requires
        0 <= k <= ps.len(),
    ensures
        union_ids(ps, k, seen) == add_ids(seen, flat_ids(ps, k)),
    decreases ps.len() - k,
{
    if k < ps.len() {
        lemma_union_flat(ps, k + 1, add_ids(seen, ps[k].directive.table_ids));
        lemma_add_ids_concat(seen, ps[k].directive.table_ids, flat_ids(ps, k + 1));
    } else {
        assert(flat_ids(ps, k) =~= Seq::<u16>::empty());
    }
}

/// The weight tables come in the order in which the passes first name
/// them: the passes' table IDs read in order, each kept where it first
/// occurs.
pub proof fn law_tables_first_seen_order(ps: Seq<PassModel>)
    ensures
        union_ids(ps, 0, Seq::empty()) == add_ids(Seq::empty(), flat_ids(ps, 0)),
{
    lemma_union_flat(ps, 0, Seq::empty());
}

/// The weight tables of a specification are those that its passes name,
/// each once: a table that several passes name is read once.
pub proof fn law_tables_named_once(ps: Seq<PassModel>)
    ensures
        union_ids(ps, 0, Seq::empty()).no_duplicates(),
        forall|x: u16|
            #[trigger] union_ids(ps, 0, Seq::empty()).contains(x) <==> exists|j: int|
                0 <= j < ps.len() && (#[trigger] ps[j].directive.table_ids).contains(x),
{
    lemma_union_ids(ps, 0, Seq::empty());
}

/// The weight tables of `ids[j..]`, added to `acc`; an ID without a block
/// is an error.
pub open spec fn tables_for(ls: Seq<Seq<char>>, bs: Seq<TableBlock>, ids: Seq<u16>, j: int, acc: Seq<TableModel>)
    -> Option<Result<Seq<TableModel>, (int, Seq<char>)>>
    decreases ids.len() - j,
{
    if j < 0 || j >= ids.len() {
        Some(Ok(acc))
    } else {
        match table_step(ls, bs, ids[j]) {
            None => None,
            Some(Err(x)) => Some(Err(x)),
            Some(Ok(t)) => tables_for(ls, bs, ids, j + 1, acc.push(t)),
        }
    }
}

/// The weight specification as values.
pub struct SpecModel {
    pub passes: Seq<PassModel>,
    pub tables: Seq<TableModel>,
    pub assigns: Seq<AssignModel>,
}

/// The weight specification of `.E` content for a control table: its
/// passes and assignments, and the weight tables that the passes name, in
/// the order of their first mention. `None` where a qualifier or condition
/// cannot be parsed to its end (an empty column group before `...`, or
/// column arithmetic past `usize::MAX`).
pub open spec fn e_content(content: Seq<char>, control: u16) -> Option<Result<SpecModel, (int, Seq<char>)>> {
    let ls = text_lines(content);
    let bs = blocks_from(ls, 0, Seq::empty());
    match block_index(bs, control) {
        None => Some(Err((0, "TABLE "@ + nat_str(control as nat) + " not found in .E file"@))),
        Some(k) => match weight_passes(ls, bs[k]) {
            None => None,
            Some(Err(x)) => Some(Err(x)),
            Some(Ok((ps, as_))) => match tables_for(ls, bs, union_ids(ps, 0, Seq::empty()), 0, Seq::empty()) {
                None => None,
                Some(Err(x)) => Some(Err(x)),
                Some(Ok(ts)) => Some(Ok(SpecModel { passes: ps, tables: ts, assigns: as_ })),
            },
        },
    }
}

/// The weight specification of an `.E` file: its passes, the weight tables
/// they name, and the `X IF` assignments.
#[derive(Debug)]
pub struct ParsedWeightSpec {
    pub passes: Vec<QualifiedWeightPass>,
    pub tables: Vec<ParsedTable>,
    pub assignments: Vec<ColumnAssignment>,
}

impl ParsedWeightSpec {
    pub open spec fn model(&self) -> SpecModel {
        SpecModel {
            passes: pass_models(self.passes@),
            tables: table_models(self.tables@),
            assigns: assign_models(self.assignments@),
        }
    }

    /// The directive of a specification with a single pass.
    pub fn directive(&self) -> (r: &WeightDirective)
        requires
            self.passes.len() == 1,
        ensures
            *r == self.passes@[0].directive,
    {
        &self.passes[0].directive
    }
}

/// The index of the first block with the given ID.
fn find_block(bs: &Vec<TableBlock>, id: u16) -> (r: Option<usize>)
    ensures
        match r {
            None => block_index(bs@, id) is None,
            Some(k) => block_index(bs@, id) == Some(k as int) && k < bs.len() && bs@[k as int].id == id,
        },
{
    let mut p: usize = 0;
    while p < bs.len() && bs[p].id != id
        invariant
            p <= bs.len(),
            forall|q: int| 0 <= q < p ==> (#[trigger] bs@[q]).id != id,
        decreases bs.len() - p,
    {
        p = p + 1;
    }
    if p < bs.len() {
        proof {
            assert(exists|k: int| 0 <= k < bs@.len() && (#[trigger] bs@[k]).id == id) by {
                assert(bs@[p as int].id == id);
            }
            let k = choose|k: int| 0 <= k < bs@.len() && (#[trigger] bs@[k]).id == id && forall|q: int|
                0 <= q < k ==> (#[trigger] bs@[q]).id != id;
            if k < p {
            } else if k > p {
                assert(bs@[p as int].id == id);
            }
        }
        Some(p)
    } else {
        assert(!exists|k: int| 0 <= k < bs@.len() && (#[trigger] bs@[k]).id == id);
        None
    }
}

fn contains_id(v: &Vec<u16>, id: u16) -> (r: bool)
    ensures
        r == v@.contains(id),
{
    let mut p: usize = 0;
    while p < v.len()
        invariant
            p <= v.len(),
            forall|q: int| 0 <= q < p ==> v@[q] != id,
        decreases v.len() - p,
    {
        if v[p] == id {
            assert(v@[p as int] == id);
            return true;
        }
        p = p + 1;
    }
    false
}

/// The IDs of `ids` that `seen` lacks, added in order.
fn add_ids_exec(seen: &mut Vec<u16>, ids: &Vec<u16>)
    ensures
        final(seen)@ == add_ids(old(seen)@, ids@),
{
    let ghost s0 = seen@;
    let mut j: usize = 0;
    assert(ids@.skip(0) =~= ids@);
    while j < ids.len()
        invariant
            j <= ids.len(),
            add_ids(seen@, ids@.skip(j as int)) == add_ids(s0, ids@),
        decreases ids.len() - j,
    {
        let ghost rest = ids@.skip(j as int);
        assert(rest[0] == ids@[j as int]);
        assert(rest.skip(1) =~= ids@.skip(j + 1));
        if !contains_id(seen, ids[j]) {
            seen.push(ids[j]);
        }
        j = j + 1;
    }
    assert(ids@.skip(ids.len() as int) =~= Seq::<u16>::empty());
}

/// The weight table with the given ID (see [`table_step`]).
fn table_of(lines: &Vec<Vec<char>>, blocks: &Vec<TableBlock>, id: u16) -> (r: Option<Result<ParsedTable, ParseEError>>)
    requires
        forall|q: int| 0 <= q < blocks.len() ==> (#[trigger] blocks@[q]).start < blocks@[q].end <= lines.len(),
    ensures
        match table_step(chars_view(lines@), blocks@, id) {
            None => r is None,
            Some(Ok(t)) => r matches Some(Ok(x)) && x.model() == t,
            Some(Err((ln, msg))) => r matches Some(Err(e)) && e.line_num == ln && e.message@ == msg,
        },
{
    proof {
        reveal(table_step);
    }
    match find_block(blocks, id) {
        None => {
            let mut m: Vec<char> = Vec::new();
            push_str(&mut m, "TABLE ");
            let n = usize_to_chars(id as usize);
            extend_chars(&mut m, n.as_slice());
            push_str(&mut m, " referenced by X WEIGHT but not found in .E file");
            Some(Err(ParseEError { line_num: 0, message: string_from(m.as_slice()) }))
        },
        Some(b) => {
            assert(blocks@[b as int].start < blocks@[b as int].end);
            let ghost w = weight_table(chars_view(lines@), blocks@[b as int]);
            assert(table_step(chars_view(lines@), blocks@, id) == match w {
                None => None,
                Some(Err(x)) => Some(Err(x)),
                Some(Ok(cs)) => Some(Ok(TableModel { id: blocks@[b as int].id, categories: cs })),
            });
            match parse_weight_table(lines, &blocks[b]) {
                None => None,
                Some(Err(e)) => Some(Err(e)),
                Some(Ok(t)) => {
                    assert(t.model() == TableModel { id: blocks@[b as int].id, categories: cat_models(t.categories@) });
                    Some(Ok(t))
                },
            }
        },
    }
}

/// The weight tables of `ids` (see [`tables_for`]).
fn tables_exec(lines: &Vec<Vec<char>>, blocks: &Vec<TableBlock>, seen: &Vec<u16>) -> (r: Option<
    Result<Vec<ParsedTable>, ParseEError>,
>)
    requires
        forall|q: int| 0 <= q < blocks.len() ==> (#[trigger] blocks@[q]).start < blocks@[q].end <= lines.len(),
    ensures
        match tables_for(chars_view(lines@), blocks@, seen@, 0, Seq::empty()) {
            None => r is None,
            Some(Ok(ts)) => r matches Some(Ok(t)) && table_models(t@) == ts,
            Some(Err((ln, msg))) => r matches Some(Err(e)) && e.line_num == ln && e.message@ == msg,
        },
{
    let ghost ls = chars_view(lines@);
    let ghost bs = blocks@;
    let ghost ids = seen@;
    let mut tables: Vec<ParsedTable> = Vec::new();
    assert(table_models(tables@) =~= Seq::<TableModel>::empty());
    let mut j: usize = 0;
    while j < seen.len()
        invariant
            j <= seen.len(),
            ids == seen@,
            ls == chars_view(lines@),
            bs == blocks@,
            forall|q: int| 0 <= q < blocks.len() ==> (#[trigger] blocks@[q]).start < blocks@[q].end <= lines.len(),
            tables_for(ls, bs, ids, j as int, table_models(tables@)) == tables_for(ls, bs, ids, 0, Seq::empty()),
        decreases seen.len() - j,
    {
        match table_of(lines, blocks, seen[j]) {
            None => {
                return None;
            },
            Some(Err(e)) => {
                return Some(Err(e));
            },
            Some(Ok(t)) => {
                let ghost before = tables@;
                tables.push(t);
                assert(table_models(tables@) =~= table_models(before).push(t.model()));
            },
        }
        j = j + 1;
    }
    Some(Ok(tables))
}

/// [`parse_e_content`], or `None` where a qualifier or condition
/// cannot be parsed to its end (an empty column group before `...`, or
/// column arithmetic past `usize::MAX`).
#[verifier::rlimit(40)]
pub fn try_parse_e_content(content: &str, control_table_id: u16) -> (r: Option<Result<ParsedWeightSpec, ParseEError>>)
    ensures
        match e_content(content@, control_table_id) {
            None => r is None,
            Some(Ok(m)) => r matches Some(Ok(w)) && w.model() == m,
            Some(Err((ln, msg))) => r matches Some(Err(e)) && e.line_num == ln && e.message@ == msg,
        },
{
    let lines = split_lines(content);
    let ghost ls = chars_view(lines@);
    let blocks = index_blocks_chars(&lines);
    let ghost bs = blocks@;
    let k = match find_block(&blocks, control_table_id) {
        None => {
            let mut m: Vec<char> = Vec::new();
            push_str(&mut m, "TABLE ");
            let n = usize_to_chars(control_table_id as usize);
            extend_chars(&mut m, n.as_slice());
            push_str(&mut m, " not found in .E file");
            return Some(Err(ParseEError { line_num: 0, message: string_from(m.as_slice()) }));
        },
        Some(k) => k,
    };
    let (passes, assignments) = match extract_weight_passes(&lines, &blocks[k]) {
        None => {
            return None;
        },
        Some(Err(e)) => {
            return Some(Err(e));
        },
        Some(Ok(x)) => x,
    };
    let ghost ps = pass_models(passes@);
    let mut seen: Vec<u16> = Vec::new();
    let mut p: usize = 0;
    while p < passes.len()
        invariant
            p <= passes.len(),
            ps == pass_models(passes@),
            union_ids(ps, p as int, seen@) == union_ids(ps, 0, Seq::empty()),
        decreases passes.len() - p,
    {
        assert(ps[p as int].directive.table_ids == passes@[p as int].directive.table_ids@);
        add_ids_exec(&mut seen, &passes[p].directive.table_ids);
        p = p + 1;
    }
    let tables = match tables_exec(&lines, &blocks, &seen) {
        None => {
            return None;
        },
        Some(Err(e)) => {
            return Some(Err(e));
        },
        Some(Ok(t)) => t,
    };
    Some(Ok(ParsedWeightSpec { passes, tables, assignments }))
}

/// The weight specification of `.E` content for a control table (see
/// [`e_content`]).
pub fn parse_e_content(content: &str, control_table_id: u16) -> (r: Result<ParsedWeightSpec, ParseEError>)
    requires
        e_content(content@, control_table_id) is Some,
    ensures
        match e_content(content@, control_table_id) {
            None => false,
            Some(Ok(m)) => r matches Ok(w) && w.model() == m,
            Some(Err((ln, msg))) => r matches Err(e) && e.line_num == ln && e.message@ == msg,
        },
{
    match try_parse_e_content(content, control_table_id) {
        Some(x) => x,
        None => {
            assert(false);
            Err(ParseEError { line_num: 0, message: String::new() })
        },
    }
}

} // verus!
