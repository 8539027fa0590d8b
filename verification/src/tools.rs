//! Small computations of the command-line tools: case IDs, weight columns,
//! output names and report layout.

use vstd::prelude::*;
use vstd::string::StringSliceAdditionalSpecFns;
use vstd::utf8::{encode_utf8, is_char_boundary};

use crate::cfmc::grammar::logic_parse;
use crate::cfmc::tree::{CfmcLogic, CfmcTree};
use crate::text::{
    char_is_whitespace, is_whitespace, strings_view, chars_of, extend_chars, find_char, find_char_exec, lemma_find_char_from, nat_str, push_str, starts_with, string_from,
    sub_chars, trim_chars, trim_ws, usize_to_chars,
};
use crate::crosstabs::parse::{chars_for_bytes, chars_for_bytes_exec};
use crate::weight::{lemma_encode_utf8_append, utf8_prefix_len};
use crate::weight::parse_e::{first_of, first_of_exec, usize_exec, usize_of};

verus! {

/// The case ID of a data line: its first 9 bytes, or the whole line where
/// it is shorter.
pub fn extract_case_id(line: &str) -> (r: &str)
    requires
        line.spec_bytes().len() >= 9 ==> is_char_boundary(line.spec_bytes(), 9),
    ensures
        r.spec_bytes() == (if line.spec_bytes().len() >= 9 { line.spec_bytes().take(9) } else { line.spec_bytes() }),
{
    let cv = chars_of(line);
    if crate::cfmc::matching::byte_len_exec(&cv) >= 9 {
        line.split_at(9).0
    } else {
        line
    }
}

/// The stem of a path as `Path::file_stem` gives it: the file name without
/// its last extension (a name that starts with `.` and has no other `.`
/// is kept whole); `None` where the path has no file name.
pub uninterp spec fn path_stem(p: Seq<char>) -> Option<Seq<char>>;

/// `Path::file_stem` of a path given as text, as text.
#[verifier::external_body]
fn file_stem_of(path: &str) -> (r: Option<String>)
    ensures
        match r {
            Some(s) => path_stem(path@) == Some(s@),
            None => path_stem(path@) is None,
        },
{
    match std::path::Path::new(path).file_stem() {
        Some(s) => s.to_str().map(|t| t.to_owned()),
        None => None,
    }
}

/// The default output file of the weighting tool: the data file's stem
/// (or `output`) with `.WT`.
pub fn default_output_name(data_file: &str) -> (r: String)
    ensures
        r@ == (match path_stem(data_file@) {
            Some(s) => s,
            None => "output"@,
        }) + ".WT"@,
{
    let mut v: Vec<char> = Vec::new();
    match file_stem_of(data_file) {
        Some(s) => push_str(&mut v, s.as_str()),
        None => push_str(&mut v, "output"),
    }
    push_str(&mut v, ".WT");
    string_from(v.as_slice())
}

/// The bytes of a line padded with spaces to at least `end` bytes.
pub open spec fn padded(line: Seq<u8>, end: int) -> Seq<u8> {
    if line.len() < end {
        line + Seq::new((end - line.len()) as nat, |i: int| 32u8)
    } else {
        line
    }
}

/// Whether the weight can be written over columns `col_start..=col_end`:
/// the range is not reversed and both ends fall on character boundaries of
/// the padded line.
pub open spec fn punch_ok(line: Seq<u8>, col_start: usize, col_end: usize) -> bool {
    &&& col_start >= 1
    &&& col_start - 1 <= col_end
    &&& is_char_boundary(padded(line, col_end as int), col_start - 1)
    &&& is_char_boundary(padded(line, col_end as int), col_end as int)
}

proof fn lemma_encode_spaces(k: nat)
    ensures
        encode_utf8(Seq::new(k, |i: int| ' ')) == Seq::new(k, |i: int| 32u8),
    decreases k,
{
    if k > 0 {
        let s = Seq::new(k, |i: int| ' ');
        let t = Seq::new((k - 1) as nat, |i: int| ' ');
        assert(s =~= seq![' '] + t);
        lemma_encode_utf8_append(seq![' '], t);
        lemma_encode_spaces((k - 1) as nat);
        assert(encode_utf8(seq![' ']) =~= seq![32u8]) by {
            assert(seq![' '].drop_first() =~= Seq::<char>::empty());
            assert((32u32 & 0x7F) == 32u32) by (bit_vector);
            assert(encode_utf8(seq![' ']) == vstd::utf8::encode_scalar(32u32) + encode_utf8(Seq::<char>::empty()));
        }
        assert(Seq::new(k, |i: int| 32u8) =~= seq![32u8] + Seq::new((k - 1) as nat, |i: int| 32u8));
    } else {
        assert(Seq::new(k, |i: int| ' ') =~= Seq::<char>::empty());
        assert(Seq::new(k, |i: int| 32u8) =~= Seq::<u8>::empty());
    }
}

/// The line with the weight text written over columns
/// `col_start..=col_end` (1-based, in bytes), the line first padded with
/// spaces to `col_end` bytes.
pub fn punch_weight(line: &str, weight_str: &str, col_start: usize, col_end: usize) -> (r: String)
    requires
        punch_ok(line.spec_bytes(), col_start, col_end),
    ensures
        encode_utf8(r@) == padded(line.spec_bytes(), col_end as int).take(col_start - 1) + weight_str.spec_bytes()
            + padded(line.spec_bytes(), col_end as int).skip(col_end as int),
{
    try_punch_weight(line, weight_str, col_start, col_end).unwrap()
}

/// A weight as wide as the field lands on exactly the named columns: the
/// columns before and after keep the (padded) line, and the length is that
/// of the padded line.
pub proof fn law_weight_over_columns(line: Seq<u8>, w: Seq<u8>, col_start: int, col_end: int)
    requires
        1 <= col_start,
        col_start - 1 <= col_end,
        w.len() == col_end - col_start + 1,
    ensures
        ({
            let p = padded(line, col_end);
            let out = p.take(col_start - 1) + w + p.skip(col_end);
            &&& out.len() == p.len()
            &&& out.subrange(col_start - 1, col_end) == w
            &&& out.take(col_start - 1) == p.take(col_start - 1)
            &&& out.skip(col_end) == p.skip(col_end)
        }),
{
    let p = padded(line, col_end);
    assert(p.len() >= col_end);
    let out = p.take(col_start - 1) + w + p.skip(col_end);
    assert(out.subrange(col_start - 1, col_end) =~= w);
    assert(out.take(col_start - 1) =~= p.take(col_start - 1));
    assert(out.skip(col_end) =~= p.skip(col_end));
}

/// [`punch_weight`], or `None` on a reversed column range or an end that
/// cuts a character.
pub fn try_punch_weight(line: &str, weight_str: &str, col_start: usize, col_end: usize) -> (r: Option<String>)
    ensures
        punch_ok(line.spec_bytes(), col_start, col_end) <==> r is Some,
        r matches Some(s) ==> encode_utf8(s@) == padded(line.spec_bytes(), col_end as int).take(col_start - 1)
            + weight_str.spec_bytes() + padded(line.spec_bytes(), col_end as int).skip(col_end as int),
{
    if col_start == 0 || col_start - 1 > col_end {
        return None;
    }
    let start = col_start - 1;
    let end = col_end;
    let mut pv = chars_of(line);
    let nb = crate::cfmc::matching::byte_len_exec(&pv);
    let ghost k: nat = if nb < end { (end - nb) as nat } else { 0 };
    if nb < end as u128 {
        let n = nb as usize;
        let mut j: usize = 0;
        while j < end - n
            invariant
                n < end,
                j <= end - n,
                pv@ == line@ + Seq::new(j as nat, |i: int| ' '),
            decreases end - n - j,
        {
            pv.push(' ');
            assert(Seq::new((j + 1) as nat, |i: int| ' ') =~= Seq::new(j as nat, |i: int| ' ').push(' '));
            j = j + 1;
        }
    } else {
        assert(line@ + Seq::new(0nat, |i: int| ' ') =~= line@);
    }
    let pad = string_from(pv.as_slice());
    let ps = pad.as_str();
    proof {
        lemma_encode_utf8_append(line@, Seq::new(k, |i: int| ' '));
        lemma_encode_spaces(k);
        assert(ps.spec_bytes() =~= padded(line.spec_bytes(), col_end as int));
    }
    if !ps.is_char_boundary(start) || !ps.is_char_boundary(end) {
        return None;
    }
    let a = ps.split_at(start).0;
    let b = ps.split_at(end).1;
    let mut out = chars_of(a);
    let wv = chars_of(weight_str);
    extend_chars(&mut out, wv.as_slice());
    let bv = chars_of(b);
    extend_chars(&mut out, bv.as_slice());
    let r = string_from(out.as_slice());
    proof {
        lemma_encode_utf8_append(a@ + weight_str@, b@);
        lemma_encode_utf8_append(a@, weight_str@);
        assert(r@ == a@ + weight_str@ + b@);
    }
    Some(r)
}

/// Where a weight sits in a data line: 1-based start column and width.
#[derive(Debug)]
pub struct WeightSpec {
    pub start_col: usize,
    pub width: usize,
}

/// What `start.width` gives: the two numbers, or the error message.
pub open spec fn weight_spec_of(s: Seq<char>) -> Result<(int, int), Seq<char>> {
    let bad = "Weight specification must be in format start_col.width (e.g., 1000.7)"@;
    match first_of(s, '.') {
        None => Err(bad),
        Some(k) => if first_of(s.skip(k + 1), '.') is Some {
            Err(bad)
        } else {
            match usize_of(s.take(k)) {
            None => Err("Invalid start column number"@),
            Some(a) => match usize_of(s.skip(k + 1)) {
                None => Err("Invalid width number"@),
                Some(b) => if a == 0 {
                    Err("Column numbers are 1-indexed, start_col must be >= 1"@)
                } else if b == 0 {
                    Err("Width must be >= 1"@)
                } else {
                    Ok((a, b))
                },
            },
        }
        },
    }
}

impl WeightSpec {
    /// Read `start_col.width`; both must be positive.
    pub fn parse(weight_spec: &str) -> (r: Result<Self, String>)
        ensures
            match weight_spec_of(weight_spec@) {
                Ok((a, b)) => r matches Ok(w) && w.start_col == a && w.width == b,
                Err(m) => r matches Err(e) && e@ == m,
            },
    {
        let v = chars_of(weight_spec);
        let k = match crate::weight::parse_e::first_of_exec(&v, '.') {
            Some(k) => k,
            None => {
                return Err("Weight specification must be in format start_col.width (e.g., 1000.7)".to_owned());
            },
        };
        let a = sub_chars(&v, 0, k);
        let b = sub_chars(&v, k + 1, v.len());
        assert(a@ =~= v@.take(k as int));
        assert(b@ =~= v@.skip(k + 1));
        if crate::weight::parse_e::first_of_exec(&b, '.').is_some() {
            return Err("Weight specification must be in format start_col.width (e.g., 1000.7)".to_owned());
        }
        let start_col = match crate::weight::parse_e::usize_exec(&a) {
            Some(x) => x,
            None => {
                return Err("Invalid start column number".to_owned());
            },
        };
        let width = match crate::weight::parse_e::usize_exec(&b) {
            Some(x) => x,
            None => {
                return Err("Invalid width number".to_owned());
            },
        };
        if start_col == 0 {
            return Err("Column numbers are 1-indexed, start_col must be >= 1".to_owned());
        }
        if width == 0 {
            return Err("Width must be >= 1".to_owned());
        }
        Ok(WeightSpec { start_col, width })
    }
}

/// The characters before which the first `b` bytes end: none of the
/// shorter prefixes has `b` bytes or more.
proof fn lemma_chars_for_bytes_first(t: Seq<char>, b: int, k: int, a: int)
    requires
        0 <= k,
        chars_for_bytes(t, b, k) == Some(a),
        forall|j: int| 0 <= j < k ==> utf8_prefix_len(t, j) < b,
    ensures
        k <= a <= t.len(),
        utf8_prefix_len(t, a) == b,
        forall|j: int| 0 <= j < a ==> utf8_prefix_len(t, j) < b,
    decreases t.len() + 1 - k,
{
    if utf8_prefix_len(t, k) != b {
        lemma_chars_for_bytes_first(t, b, k + 1, a);
    }
}

/// The trimmed text of bytes `a..b` of `s`; `None` where `a > b` or a cut
/// falls inside a character.
pub open spec fn byte_slice(s: Seq<char>, a: int, b: int) -> Option<Seq<char>> {
    if a > b {
        None
    } else {
        match (chars_for_bytes(s, a, 0), chars_for_bytes(s, b, 0)) {
            (Some(ca), Some(cb)) => Some(trim_ws(s.subrange(ca, cb))),
            _ => None,
        }
    }
}

/// The trimmed text of bytes `start..end` of a line, as far as the line
/// reaches (empty when it ends at or before `start`); `None` where the
/// bytes cannot be cut there.
pub open spec fn column_window(s: Seq<char>, start: int, end: int) -> Option<Seq<char>> {
    let n = encode_utf8(s).len() as int;
    if n >= end {
        byte_slice(s, start, end)
    } else if n > start {
        byte_slice(s, start, n)
    } else {
        Some(Seq::empty())
    }
}

fn byte_slice_exec(v: &Vec<char>, a: usize, b: usize) -> (r: Option<String>)
    ensures
        match byte_slice(v@, a as int, b as int) {
            None => r is None,
            Some(t) => r matches Some(x) && x@ == t,
        },
{
    if a > b {
        return None;
    }
    match (chars_for_bytes_exec(v, a), chars_for_bytes_exec(v, b)) {
        (Some(ca), Some(cb)) => {
            proof {
                lemma_chars_for_bytes_first(v@, a as int, 0, ca as int);
                lemma_chars_for_bytes_first(v@, b as int, 0, cb as int);
                if cb < ca {
                    assert(utf8_prefix_len(v@, cb as int) < a);
                }
            }
            let w = sub_chars(v, ca, cb);
            let t = trim_chars(&w);
            Some(string_from(t.as_slice()))
        },
        _ => None,
    }
}

/// The trimmed text of bytes `start..end` of a line (see
/// [`column_window`]).
pub fn column_text(line: &str, start: usize, end: usize) -> (r: Option<String>)
    ensures
        match column_window(line@, start as int, end as int) {
            None => r is None,
            Some(t) => r matches Some(x) && x@ == t,
        },
{
    let n = line.as_bytes().len();
    let v = chars_of(line);
    if n >= end {
        byte_slice_exec(&v, start, end)
    } else if n > start {
        byte_slice_exec(&v, start, n)
    } else {
        Some(String::new())
    }
}

impl WeightSpec {
    /// The text of the weight field of a line; `Some(None)` when the line
    /// ends before the field, `None` where the field cannot be cut out.
    pub fn weight_text(&self, line: &str) -> (r: Option<Option<String>>)
        requires
            self.start_col >= 1,
            self.start_col - 1 + self.width <= usize::MAX,
        ensures
            self.start_col - 1 >= line.spec_bytes().len() ==> r matches Some(None),
            self.start_col - 1 < line.spec_bytes().len() ==> match column_window(
                line@,
                self.start_col - 1,
                self.start_col - 1 + self.width,
            ) {
                None => r is None,
                Some(t) => r matches Some(Some(x)) && x@ == t,
            },
    {
        let start = self.start_col - 1;
        if start >= line.as_bytes().len() {
            return Some(None);
        }
        match column_text(line, start, start + self.width) {
            None => None,
            Some(t) => Some(Some(t)),
        }
    }
}

// ---------------------------------------------------------------------------
// Pieces of a data line read by CFMC logic
// ---------------------------------------------------------------------------

/// Whether every character of `s` is whitespace.
pub open spec fn all_ws(s: Seq<char>) -> bool {
    forall|i: int| 0 <= i < s.len() ==> char_is_whitespace(#[trigger] s[i])
}

/// Whether the responses are blank: their concatenation trims to nothing.
pub fn all_blank(responses: &Vec<String>) -> (r: bool)
    ensures
        r == forall|k: int| 0 <= k < responses.len() ==> all_ws(#[trigger] responses@[k]@),
{
    let mut k: usize = 0;
    while k < responses.len()
        invariant
            k <= responses.len(),
            forall|q: int| 0 <= q < k ==> all_ws(#[trigger] responses@[q]@),
        decreases responses.len() - k,
    {
        let v = chars_of(responses[k].as_str());
        let mut i: usize = 0;
        while i < v.len()
            invariant
                i <= v.len(),
                k < responses.len(),
                v@ == responses@[k as int]@,
                forall|j: int| 0 <= j < i ==> char_is_whitespace(#[trigger] v@[j]),
            decreases v.len() - i,
        {
            if !is_whitespace(v[i]) {
                assert(!all_ws(responses@[k as int]@)) by {
                    assert(!char_is_whitespace(v@[i as int]));
                }
                return false;
            }
            i = i + 1;
        }
        k = k + 1;
    }
    true
}

/// The characters of bytes `a..b` of `s`; `None` where `a > b` or a cut
/// falls inside a character.
pub open spec fn raw_byte_slice(s: Seq<char>, a: int, b: int) -> Option<Seq<char>> {
    if a > b {
        None
    } else {
        match (chars_for_bytes(s, a, 0), chars_for_bytes(s, b, 0)) {
            (Some(ca), Some(cb)) => Some(s.subrange(ca, cb)),
            _ => None,
        }
    }
}

fn raw_byte_slice_exec(v: &Vec<char>, a: usize, b: usize) -> (r: Option<Vec<char>>)
    ensures
        match raw_byte_slice(v@, a as int, b as int) {
            None => r is None,
            Some(t) => r matches Some(x) && x@ == t,
        },
{
    if a > b {
        return None;
    }
    match (chars_for_bytes_exec(v, a), chars_for_bytes_exec(v, b)) {
        (Some(ca), Some(cb)) => {
            proof {
                lemma_chars_for_bytes_first(v@, a as int, 0, ca as int);
                lemma_chars_for_bytes_first(v@, b as int, 0, cb as int);
                if cb < ca {
                    assert(utf8_prefix_len(v@, cb as int) < a);
                }
            }
            Some(sub_chars(v, ca, cb))
        },
        _ => None,
    }
}

/// Whether the columns `col..col+width` (1-based) of a line are blank; a
/// line that ends before them counts as blank. `None` where the columns cut
/// a character.
pub open spec fn columns_blank(s: Seq<char>, col: int, width: int) -> Option<bool> {
    let n = encode_utf8(s).len() as int;
    if col - 1 + width <= n {
        match raw_byte_slice(s, col - 1, col - 1 + width) {
            Some(t) => Some(all_ws(t)),
            None => None,
        }
    } else {
        Some(true)
    }
}

/// Whether the columns `col..col+width` of a line are blank (see
/// [`columns_blank`]).
pub fn blank_of_columns(line: &str, col: usize, width: usize) -> (r: Option<bool>)
    requires
        col >= 1,
        col - 1 + width <= usize::MAX,
    ensures
        r == columns_blank(line@, col as int, width as int),
{
    let n = line.as_bytes().len();
    let start = col - 1;
    if start + width <= n {
        let v = chars_of(line);
        match raw_byte_slice_exec(&v, start, start + width) {
            Some(t) => {
                assert(columns_blank(line@, col as int, width as int) == Some(all_ws(t@)));
                let mut i: usize = 0;
                while i < t.len()
                    invariant
                        i <= t.len(),
                        columns_blank(line@, col as int, width as int) == Some(all_ws(t@)),
                        forall|j: int| 0 <= j < i ==> char_is_whitespace(#[trigger] t@[j]),
                    decreases t.len() - i,
                {
                    if !is_whitespace(t[i]) {
                        assert(!all_ws(t@)) by {
                            assert(!char_is_whitespace(t@[i as int]));
                        }
                        return Some(false);
                    }
                    i = i + 1;
                }
                Some(true)
            },
            None => None,
        }
    } else {
        Some(true)
    }
}

/// The bytes of columns `col..col+width` (1-based) of a line, or none where
/// the line ends before their end.
pub open spec fn location_slice(bytes: Seq<u8>, col: int, width: int) -> Seq<u8> {
    if col - 1 + width <= bytes.len() {
        bytes.subrange(col - 1, col - 1 + width)
    } else {
        Seq::empty()
    }
}

/// The bytes of a punch reference's location (see [`location_slice`]).
pub fn location_bytes(line: &str, col: usize, width: usize) -> (r: Vec<u8>)
    requires
        col >= 1,
        col - 1 + width <= usize::MAX,
    ensures
        r@ == location_slice(line.spec_bytes(), col as int, width as int),
{
    let b = line.as_bytes();
    let start = col - 1;
    let mut out: Vec<u8> = Vec::new();
    if start + width <= b.len() {
        let mut i = start;
        while i < start + width
            invariant
                start <= i <= start + width <= b.len(),
                b@ == line.spec_bytes(),
                out@ == b@.subrange(start as int, i as int),
            decreases start + width - i,
        {
            out.push(b[i]);
            i = i + 1;
        }
    }
    out
}

/// The responses written one after another.
pub open spec fn concat_all(rs: Seq<Seq<char>>) -> Seq<char>
    decreases rs.len(),
{
    if rs.len() == 0 {
        Seq::empty()
    } else {
        concat_all(rs.drop_last()) + rs.last()
    }
}

/// What `question + col.width` gives on the question's responses: the
/// characters of bytes `col..col+width` of their concatenation (empty where
/// it is shorter); an error where the spec is not `col.width` with two
/// numbers; `None` where the bytes cut a character or `col + width`
/// passes `usize::MAX`.
pub open spec fn substring_spec(rs: Seq<Seq<char>>, spec: Seq<char>) -> Option<Result<Seq<char>, Seq<char>>> {
    match first_of(spec, '.') {
        None => Some(Err("Invalid column.width specification: "@ + spec)),
        Some(k) => match usize_of(spec.take(k)) {
            None => Some(Err("Invalid column number: "@ + spec.take(k))),
            Some(col) => match usize_of(spec.skip(k + 1)) {
                None => Some(Err("Invalid width: "@ + spec.skip(k + 1))),
                Some(width) => if col + width > usize::MAX {
                    None
                } else {
                    let c = concat_all(rs);
                    if col + width <= encode_utf8(c).len() {
                        match raw_byte_slice(c, col, col + width) {
                            Some(t) => Some(Ok(t)),
                            None => None,
                        }
                    } else {
                        Some(Ok(Seq::empty()))
                    }
                },
            },
        },
    }
}

/// `question + col.width` on the question's responses (see
/// [`substring_spec`]).
pub fn responses_substring(responses: &Vec<String>, spec: &str) -> (r: Option<Result<String, String>>)
    ensures
        match substring_spec(strings_view(responses@), spec@) {
            None => r is None,
            Some(Ok(t)) => r matches Some(Ok(x)) && x@ == t,
            Some(Err(e)) => r matches Some(Err(x)) && x@ == e,
        },
{
    let sv = chars_of(spec);
    let k = match first_of_exec(&sv, '.') {
        None => {
            let mut m: Vec<char> = Vec::new();
            push_str(&mut m, "Invalid column.width specification: ");
            extend_chars(&mut m, sv.as_slice());
            return Some(Err(string_from(m.as_slice())));
        },
        Some(k) => k,
    };
    let a = sub_chars(&sv, 0, k);
    let b = sub_chars(&sv, k + 1, sv.len());
    assert(a@ =~= sv@.take(k as int));
    assert(b@ =~= sv@.skip(k + 1));
    let col = match usize_exec(&a) {
        None => {
            let mut m: Vec<char> = Vec::new();
            push_str(&mut m, "Invalid column number: ");
            extend_chars(&mut m, a.as_slice());
            return Some(Err(string_from(m.as_slice())));
        },
        Some(c) => c,
    };
    let width = match usize_exec(&b) {
        None => {
            let mut m: Vec<char> = Vec::new();
            push_str(&mut m, "Invalid width: ");
            extend_chars(&mut m, b.as_slice());
            return Some(Err(string_from(m.as_slice())));
        },
        Some(w) => w,
    };
    if col > usize::MAX - width {
        return None;
    }
    let ghost rv = strings_view(responses@);
    let mut c: Vec<char> = Vec::new();
    let mut i: usize = 0;
    assert(rv.take(0) =~= Seq::<Seq<char>>::empty());
    while i < responses.len()
        invariant
            i <= responses.len(),
            rv == strings_view(responses@),
            c@ == concat_all(rv.take(i as int)),
        decreases responses.len() - i,
    {
        let piece = chars_of(responses[i].as_str());
        extend_chars(&mut c, piece.as_slice());
        assert(rv.take(i + 1).drop_last() =~= rv.take(i as int));
        i = i + 1;
    }
    assert(rv.take(responses.len() as int) =~= rv);
    let n = byte_len_of(&c);
    if col + width <= n {
        match raw_byte_slice_exec(&c, col, col + width) {
            Some(t) => Some(Ok(string_from(t.as_slice()))),
            None => None,
        }
    } else {
        Some(Ok(String::new()))
    }
}

fn byte_len_of(v: &Vec<char>) -> (r: usize)
    ensures
        r == encode_utf8(v@).len(),
{
    let s = string_from(v.as_slice());
    s.as_str().as_bytes().len()
}

/// Layout of a frequency report's rows.
#[derive(Debug)]
pub struct ColumnFormatter {
    pub text_width: usize,
    pub truncate: bool,
}

impl ColumnFormatter {
    /// Verbose reports fit the longest text (at least 64 columns) and do not
    /// truncate; others use 64 columns and truncate.
    pub fn new(verbose: bool, max_text_len: usize) -> (r: Self)
        ensures
            r.text_width == (if verbose { if max_text_len > 64 { max_text_len } else { 64 } } else { 64 }),
            r.truncate == !verbose,
    {
        if verbose {
            ColumnFormatter { text_width: if max_text_len > 64 { max_text_len } else { 64 }, truncate: false }
        } else {
            ColumnFormatter { text_width: 64, truncate: true }
        }
    }
}

/// The indices, in order, of the first `n` categories whose conditions hold.
pub open spec fn matched_categories(hits: Seq<bool>, n: int) -> Seq<usize>
    decreases n,
{
    if n <= 0 {
        Seq::empty()
    } else {
        matched_categories(hits, n - 1) + (if hits[n - 1] { seq![(n - 1) as usize] } else { Seq::empty() })
    }
}

/// The category of a record in a weight table, from which categories'
/// conditions hold: the one that holds, or else the indices of all that
/// hold (none, or more than one).
pub fn category_of(hits: &[bool]) -> (r: Result<usize, Vec<usize>>)
    ensures
        match r {
            Ok(c) => matched_categories(hits@, hits.len() as int) == seq![c],
            Err(v) => v@ == matched_categories(hits@, hits.len() as int) && v.len() != 1,
        },
{
    let mut m: Vec<usize> = Vec::new();
    let mut i: usize = 0;
    while i < hits.len()
        invariant
            i <= hits.len(),
            m@ == matched_categories(hits@, i as int),
        decreases hits.len() - i,
    {
        let ghost o = m@;
        if hits[i] {
            m.push(i);
        }
        assert(m@ =~= o + (if hits@[i as int] { seq![i] } else { Seq::<usize>::empty() }));
        i = i + 1;
    }
    if m.len() == 1 {
        assert(m@ =~= seq![m@[0]]);
        Ok(m[0])
    } else {
        Err(m)
    }
}

/// A counter of a counters file: a label, its CFMC logic (if any), and the
/// cases counted by the logic and by the label's responses.
#[derive(Debug)]
pub struct Counter {
    pub label: String,
    pub logic: Option<CfmcLogic>,
    pub logic_count: usize,
    pub response_count: usize,
}

/// What one line of a counters file gives.
#[derive(Debug)]
pub enum CounterLine {
    /// A comment, a blank line, or a line without `:`.
    Skip,
    Counter(Counter),
    /// The logic does not parse: the message to report.
    Invalid(String),
}

/// What one line of a counters file gives, as values.
pub enum CounterLineModel {
    Skip,
    Counter { label: Seq<char>, logic: Option<CfmcTree> },
    Invalid(Seq<char>),
}

/// A line `label:logic` of a counters file (both parts trimmed); `#`
/// comments and blank lines are skipped, and so are lines without `:`.
/// `None` where the CFMC parser cannot complete on the logic (see
/// [`CfmcLogic::try_parse`]).
pub open spec fn counter_line_spec(line: Seq<char>) -> Option<CounterLineModel> {
    let t = trim_ws(line);
    if starts_with(t, "#"@) || t.len() == 0 {
        Some(CounterLineModel::Skip)
    } else {
        match find_char(t, ':') {
            None => Some(CounterLineModel::Skip),
            Some(k) => {
                let label = trim_ws(t.take(k));
                let logic = trim_ws(t.skip(k + 1));
                if logic.len() == 0 {
                    Some(CounterLineModel::Counter { label, logic: None })
                } else {
                    match logic_parse(logic) {
                        None => None,
                        Some(Ok(tree)) => Some(CounterLineModel::Counter { label, logic: Some(tree) }),
                        Some(Err(e)) => Some(CounterLineModel::Invalid("ERROR: "@ + e + " for '"@ + label + ": "@ + logic + "'"@)),
                    }
                }
            },
        }
    }
}

pub open spec fn counter_line_outcome(m: CounterLineModel, r: CounterLine) -> bool {
    match m {
        CounterLineModel::Skip => r is Skip,
        CounterLineModel::Counter { label, logic } => r matches CounterLine::Counter(c) && c.label@ == label
            && c.logic_count == 0 && c.response_count == 0 && match logic {
            Some(t) => c.logic matches Some(l) && l@ == t,
            None => c.logic is None,
        },
        CounterLineModel::Invalid(msg) => r matches CounterLine::Invalid(e) && e@ == msg,
    }
}

/// Read one line of a counters file; `None` where the CFMC parser cannot
/// complete on its logic.
pub fn counter_line(line: &str) -> (r: Option<CounterLine>)
    ensures
        match counter_line_spec(line@) {
            Some(m) => r matches Some(c) && counter_line_outcome(m, c),
            None => r is None,
        },
{
    let v = chars_of(line);
    let t = trim_chars(&v);
    proof {
        reveal_strlit("#");
    }
    if (t.len() > 0 && t[0] == '#') || t.len() == 0 {
        proof {
            if t.len() > 0 {
                assert(t@.take(1) =~= "#"@);
            }
        }
        return Some(CounterLine::Skip);
    }
    assert(!starts_with(t@, "#"@)) by {
        if starts_with(t@, "#"@) {
            assert(t@.take(1)[0] == t@[0]);
        }
    }
    let k = match find_char_exec(&t, ':') {
        Some(k) => k,
        None => {
            return Some(CounterLine::Skip);
        },
    };
    proof {
        lemma_find_char_from(t@, ':', 0);
    }
    let l0 = sub_chars(&t, 0, k);
    let g0 = sub_chars(&t, k + 1, t.len());
    assert(l0@ =~= t@.take(k as int));
    assert(g0@ =~= t@.skip(k + 1));
    let label = trim_chars(&l0);
    let logic = trim_chars(&g0);
    let label_s = string_from(label.as_slice());
    if logic.len() == 0 {
        return Some(CounterLine::Counter(Counter { label: label_s, logic: None, logic_count: 0, response_count: 0 }));
    }
    let logic_s = string_from(logic.as_slice());
    match CfmcLogic::try_parse(logic_s.as_str()) {
        None => None,
        Some(Ok(l)) => Some(CounterLine::Counter(Counter { label: label_s, logic: Some(l), logic_count: 0, response_count: 0 })),
        Some(Err(e)) => {
            let mut m: Vec<char> = Vec::new();
            push_str(&mut m, "ERROR: ");
            push_str(&mut m, e.as_str());
            push_str(&mut m, " for '");
            extend_chars(&mut m, label.as_slice());
            push_str(&mut m, ": ");
            extend_chars(&mut m, logic.as_slice());
            push_str(&mut m, "'");
            Some(CounterLine::Invalid(string_from(m.as_slice())))
        },
    }
}

/// `s` padded with spaces on the right to `w` characters (`{:<w}`).
pub open spec fn pad_right(s: Seq<char>, w: int) -> Seq<char> {
    if s.len() < w { s + Seq::new((w - s.len()) as nat, |i: int| ' ') } else { s }
}

/// `s` padded with spaces on the left to `w` characters (`{:w}` of a number).
pub open spec fn pad_left(s: Seq<char>, w: int) -> Seq<char> {
    if s.len() < w { Seq::new((w - s.len()) as nat, |i: int| ' ') + s } else { s }
}

fn spaces(out: &mut Vec<char>, n: usize)
    ensures
        final(out)@ == old(out)@ + Seq::new(n as nat, |i: int| ' '),
{
    let ghost o = out@;
    let mut i: usize = 0;
    while i < n
        invariant
            i <= n,
            out@ == o + Seq::new(i as nat, |k: int| ' '),
        decreases n - i,
    {
        out.push(' ');
        assert(o + Seq::new((i + 1) as nat, |k: int| ' ') =~= (o + Seq::new(i as nat, |k: int| ' ')).push(' '));
        i = i + 1;
    }
}

fn push_padded_right(out: &mut Vec<char>, s: &Vec<char>, w: usize)
    ensures
        final(out)@ == old(out)@ + pad_right(s@, w as int),
{
    extend_chars(out, s.as_slice());
    if s.len() < w {
        spaces(out, w - s.len());
    }
}

fn push_padded_left(out: &mut Vec<char>, s: &Vec<char>, w: usize)
    ensures
        final(out)@ == old(out)@ + pad_left(s@, w as int),
{
    let ghost o = out@;
    if s.len() < w {
        spaces(out, w - s.len());
    }
    extend_chars(out, s.as_slice());
    assert(out@ =~= o + pad_left(s@, w as int));
}

/// A result line of the counter check: `label:` in 21 columns and the
/// logic count in 6; for a label of the layout also the response count in
/// 7, and `<--` where the counts differ.
pub open spec fn counter_report(label: Seq<char>, logic_count: nat, response_count: nat, in_layout: bool) -> Seq<char> {
    let head = pad_right(label + ":"@, 21) + pad_left(nat_str(logic_count), 6);
    if in_layout {
        head + pad_left(nat_str(response_count), 7) + (if logic_count == response_count { ""@ } else { "<--"@ })
    } else {
        head
    }
}

impl Counter {
    /// This counter's result line (see [`counter_report`]).
    pub fn report_line(&self, in_layout: bool) -> (r: String)
        ensures
            r@ == counter_report(self.label@, self.logic_count as nat, self.response_count as nat, in_layout),
    {
        let mut lab = chars_of(self.label.as_str());
        lab.push(':');
        proof {
            reveal_strlit(":");
            reveal_strlit("");
            assert(lab@ =~= self.label@ + ":"@);
        }
        let mut out: Vec<char> = Vec::new();
        push_padded_right(&mut out, &lab, 21);
        let lc = usize_to_chars(self.logic_count);
        push_padded_left(&mut out, &lc, 6);
        if in_layout {
            let rc = usize_to_chars(self.response_count);
            push_padded_left(&mut out, &rc, 7);
            if self.logic_count != self.response_count {
                push_str(&mut out, "<--");
            } else {
                assert(out@ + ""@ =~= out@);
            }
        }
        string_from(out.as_slice())
    }
}

} // verus!
