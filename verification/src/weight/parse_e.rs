//! Pieces of the `.E` weight-specification reader: `TABLE` blocks, `X IF`
//! column assignments, table-ID lists and column ranges.

use vstd::prelude::*;

use crate::rfl::chars_view;
use crate::text::{
    ascii_lower, chars_of, extend_chars, is_ascii_ws, parse_unsigned, parse_unsigned_exec, push_str, starts_with,
    starts_with_exec, string_from, sub_chars, trim_chars, trim_ws, usize_to_chars, nat_str,
};
use crate::weight::uncle::{UncleExpr, UncleModel};
use crate::weight::uncle_grammar::parse_spec;
use crate::weight::uncle_parser::{parse_error_text, ParseError};

verus! {

/// An error in an `.E` file, with its 1-based line (0 where no line applies).
#[derive(Debug)]
pub struct ParseEError {
    pub line_num: usize,
    pub message: String,
}

impl ParseEError {
    /// `line <n>: <message>`, or the message alone for line 0.
    pub fn to_string(&self) -> (r: String)
        ensures
            r@ == (if self.line_num == 0 { self.message@ } else { "line "@ + nat_str(self.line_num as nat) + ": "@
                + self.message@ }),
    {
        if self.line_num == 0 {
            return self.message.clone();
        }
        let mut v: Vec<char> = Vec::new();
        push_str(&mut v, "line ");
        let n = usize_to_chars(self.line_num);
        extend_chars(&mut v, n.as_slice());
        push_str(&mut v, ": ");
        push_str(&mut v, self.message.as_str());
        string_from(v.as_slice())
    }
}

/// A conditional column assignment from `X IF(condition) col=value`.
#[derive(Debug)]
pub struct ColumnAssignment {
    pub condition: UncleExpr,
    pub col: usize,
    pub value: String,
}

/// A condition that puts a record in a weighting category: CFMC logic or
/// an UNCLE qualification.
#[derive(Debug)]
pub enum WeightCondition {
    Cfmc(crate::cfmc::CfmcLogic),
    Uncle(UncleExpr),
}

/// A `TABLE <id>` block: its first line and the line after its last.
#[derive(Debug, Clone, Copy)]
pub struct TableBlock {
    pub id: u16,
    pub start: usize,
    pub end: usize,
}

/// `str::parse::<u16>`.
pub open spec fn u16_of(s: Seq<char>) -> Option<int> {
    parse_unsigned(s, 65535)
}

/// The table ID of a `TABLE <id>` line: after trimming, `TABLE`, ASCII
/// whitespace, and a `u16` (surrounding whitespace allowed).
#[verifier::opaque]
pub open spec fn table_line_id(line: Seq<char>) -> Option<u16> {
    let t = trim_ws(line);
    if !starts_with(t, "TABLE"@) {
        None
    } else {
        let rest = t.skip(5);
        if rest.len() == 0 || !is_ascii_ws(rest[0]) {
            None
        } else {
            match u16_of(trim_ws(rest)) {
                Some(v) => Some(v as u16),
                None => None,
            }
        }
    }
}

/// The first line from `i` on that starts a table, or the number of lines.
pub open spec fn next_table_line(ls: Seq<Seq<char>>, i: int) -> int
    decreases ls.len() - i,
{
    if i < 0 || i >= ls.len() {
        if i < 0 { 0 } else { i }
    } else if table_line_id(ls[i]) is Some {
        i
    } else {
        next_table_line(ls, i + 1)
    }
}

/// The index of the block with the given ID, if any.
pub open spec fn block_index(bs: Seq<TableBlock>, id: u16) -> Option<int> {
    if exists|k: int| 0 <= k < bs.len() && (#[trigger] bs[k]).id == id {
        Some(choose|k: int| 0 <= k < bs.len() && (#[trigger] bs[k]).id == id && forall|q: int| 0 <= q < k ==> (#[trigger] bs[q]).id != id)
    } else {
        None
    }
}

proof fn lemma_next_table_line(ls: Seq<Seq<char>>, i: int)
    requires
        0 <= i,
    ensures
        i <= next_table_line(ls, i),
        next_table_line(ls, i) <= ls.len() || next_table_line(ls, i) == i,
    decreases ls.len() - i,
{
    if i < ls.len() && table_line_id(ls[i]) is None {
        lemma_next_table_line(ls, i + 1);
    }
}

/// A block recorded: it replaces an earlier block with its ID, or is added.
pub open spec fn upsert_block(bs: Seq<TableBlock>, b: TableBlock) -> Seq<TableBlock> {
    match block_index(bs, b.id) {
        Some(k) => bs.update(k, b),
        None => bs.push(b),
    }
}

/// The blocks found from line `i` on, added to `acc`.
pub open spec fn blocks_from(ls: Seq<Seq<char>>, i: int, acc: Seq<TableBlock>) -> Seq<TableBlock>
    decreases ls.len() - i,
{
    if i < 0 || i >= ls.len() {
        acc
    } else {
        match table_line_id(ls[i]) {
            Some(id) => {
                let e = next_table_line(ls, i + 1);
                if i < e <= ls.len() {
                    blocks_from(ls, e, upsert_block(acc, TableBlock { id, start: i as usize, end: e as usize }))
                } else {
                    acc
                }
            },
            None => blocks_from(ls, i + 1, acc),
        }
    }
}

/// The blocks have distinct IDs; each starts at a `TABLE` line with its
/// ID before line `i`, and no line after its start and before `i` is a
/// `TABLE` line with its ID.
pub open spec fn blocks_ok(ls: Seq<Seq<char>>, bs: Seq<TableBlock>, i: int) -> bool {
    &&& forall|a: int, b: int| 0 <= a < b < bs.len() ==> (#[trigger] bs[a]).id != (#[trigger] bs[b]).id
    &&& forall|k: int|
        0 <= k < bs.len() ==> (#[trigger] bs[k]).start < i && bs[k].start < ls.len() && table_line_id(
            ls[bs[k].start as int],
        ) == Some(bs[k].id)
    &&& forall|k: int, j: int|
        0 <= k < bs.len() && bs[k].start < j < i && j < ls.len() ==> table_line_id(#[trigger] ls[j]) != Some(
            (#[trigger] bs[k]).id,
        )
}

/// Every ID of a `TABLE` line before line `i` has a block.
pub open spec fn blocks_cover(ls: Seq<Seq<char>>, bs: Seq<TableBlock>, i: int) -> bool {
    forall|j: int|
        0 <= j < i && j < ls.len() && (#[trigger] table_line_id(ls[j])) is Some ==> exists|k: int|
            0 <= k < bs.len() && (#[trigger] bs[k]).id == table_line_id(ls[j])->0
}

proof fn lemma_before_next_table_line(ls: Seq<Seq<char>>, i: int, j: int)
    requires
        0 <= i <= j < next_table_line(ls, i),
        j < ls.len(),
    ensures
        table_line_id(ls[j]) is None,
    decreases ls.len() - i,
{
    if i < ls.len() && table_line_id(ls[i]) is None && i < j {
        lemma_before_next_table_line(ls, i + 1, j);
    }
}

proof fn lemma_upsert_distinct(bs: Seq<TableBlock>, b: TableBlock)
    requires
        forall|x: int, y: int| 0 <= x < y < bs.len() ==> (#[trigger] bs[x]).id != (#[trigger] bs[y]).id,
    ensures
        match block_index(bs, b.id) {
            Some(k) => 0 <= k < bs.len() && bs[k].id == b.id && upsert_block(bs, b) == bs.update(k, b),
            None => (forall|k: int| 0 <= k < bs.len() ==> (#[trigger] bs[k]).id != b.id) && upsert_block(bs, b) == bs.push(b),
        },
{
}

proof fn lemma_blocks_from(ls: Seq<Seq<char>>, i: int, acc: Seq<TableBlock>)
    requires
        0 <= i <= ls.len(),
        ls.len() <= usize::MAX,
        blocks_ok(ls, acc, i),
        blocks_cover(ls, acc, i),
    ensures
        blocks_ok(ls, blocks_from(ls, i, acc), ls.len() as int),
        blocks_cover(ls, blocks_from(ls, i, acc), ls.len() as int),
    decreases ls.len() - i,
{
    if i < ls.len() {
        match table_line_id(ls[i]) {
            None => {
                assert(blocks_ok(ls, acc, i + 1));
                assert(blocks_cover(ls, acc, i + 1));
                lemma_blocks_from(ls, i + 1, acc);
            },
            Some(id) => {
                let e = next_table_line(ls, i + 1);
                lemma_next_table_line(ls, i + 1);
                let b = TableBlock { id, start: i as usize, end: e as usize };
                let acc2 = upsert_block(acc, b);
                lemma_upsert_distinct(acc, b);
                assert forall|k: int| 0 <= k < acc2.len() && (#[trigger] acc2[k]).id != id implies acc2[k] == acc[k] by {}
                assert forall|x: int, y: int| 0 <= x < y < acc2.len() implies (#[trigger] acc2[x]).id != (
                #[trigger] acc2[y]).id by {
                    if acc2[x].id == id || acc2[y].id == id {
                    }
                }
                assert forall|k: int, j: int| 0 <= k < acc2.len() && acc2[k].start < j < e && j < ls.len() implies table_line_id(
                    #[trigger] ls[j],
                ) != Some((#[trigger] acc2[k]).id) by {
                    if j > i {
                        lemma_before_next_table_line(ls, i + 1, j);
                    } else if acc2[k].id == id {
                        let k0 = match block_index(acc, id) {
                            Some(k0) => k0,
                            None => acc.len() as int,
                        };
                        assert(acc2[k0] == b);
                        if k < k0 {
                            assert(acc2[k].id != acc2[k0].id);
                        } else if k > k0 {
                            assert(acc2[k0].id != acc2[k].id);
                        }
                    } else {
                        assert(acc2[k] == acc[k]);
                        if j < i {
                            assert(table_line_id(ls[j]) != Some(acc[k].id));
                        }
                    }
                }
                assert forall|j: int|
                    0 <= j < e && j < ls.len() && (#[trigger] table_line_id(ls[j])) is Some implies exists|k: int|
                    0 <= k < acc2.len() && (#[trigger] acc2[k]).id == table_line_id(ls[j])->0 by {
                    if j > i {
                        lemma_before_next_table_line(ls, i + 1, j);
                    } else if j == i {
                        match block_index(acc, id) {
                            Some(k) => assert(acc2[k].id == id),
                            None => assert(acc2[acc.len() as int].id == id),
                        }
                    } else {
                        let k = choose|k: int| 0 <= k < acc.len() && (#[trigger] acc[k]).id == table_line_id(ls[j])->0;
                        if acc[k].id == id {
                            match block_index(acc, id) {
                                Some(k2) => assert(acc2[k2].id == id),
                                None => {},
                            }
                        } else {
                            assert(acc2[k] == acc[k]);
                        }
                    }
                }
                assert(blocks_ok(ls, acc2, e));
                assert(blocks_cover(ls, acc2, e));
                lemma_blocks_from(ls, e, acc2);
            },
        }
    }
}

/// Each table ID of the lines has one block, and it is the last `TABLE`
/// line with that ID: a later definition replaces an earlier one.
pub proof fn law_last_definition_kept(ls: Seq<Seq<char>>)
    requires
        ls.len() <= usize::MAX,
    ensures
        blocks_ok(ls, blocks_from(ls, 0, Seq::empty()), ls.len() as int),
        blocks_cover(ls, blocks_from(ls, 0, Seq::empty()), ls.len() as int),
{
    lemma_blocks_from(ls, 0, Seq::empty());
}

pub open spec fn strs_view(ls: Seq<&str>) -> Seq<Seq<char>> {
    ls.map_values(|s: &str| s@)
}

/// `str::eq_ignore_ascii_case`.
pub open spec fn eq_ignore_case(a: Seq<char>, b: Seq<char>) -> bool {
    a.len() == b.len() && forall|i: int| 0 <= i < a.len() ==> ascii_lower(#[trigger] a[i]) == ascii_lower(b[i])
}

/// The IDs `a..=b`.
pub open spec fn id_range(a: int, b: int) -> Seq<u16> {
    Seq::new(if b >= a { (b - a + 1) as nat } else { 0 }, |k: int| (a + k) as u16)
}

/// The table IDs of the tokens from `i` on: single IDs and `a TH b`
/// ranges; the error message names the token that is not a `u16`.
pub open spec fn id_list(ts: Seq<Seq<char>>, i: int) -> Result<Seq<u16>, Seq<char>>
    decreases ts.len() - i,
{
    if i < 0 || i >= ts.len() {
        Ok(Seq::empty())
    } else {
        match u16_of(ts[i]) {
            None => Err("invalid table ID '"@ + ts[i] + "'"@),
            Some(a) => if i + 2 < ts.len() && eq_ignore_case(ts[i + 1], "TH"@) {
                match u16_of(ts[i + 2]) {
                    None => Err("invalid end table ID '"@ + ts[i + 2] + "'"@),
                    Some(b) => match id_list(ts, i + 3) {
                        Ok(r) => Ok(id_range(a, b) + r),
                        Err(m) => Err(m),
                    },
                }
            } else {
                match id_list(ts, i + 1) {
                    Ok(r) => Ok(seq![a as u16] + r),
                    Err(m) => Err(m),
                }
            },
        }
    }
}

/// `str::parse::<usize>`.
pub open spec fn usize_of(s: Seq<char>) -> Option<int> {
    parse_unsigned(s, usize::MAX as int)
}

/// The first index of `c` in `s`.
pub open spec fn first_of(s: Seq<char>, c: char) -> Option<int> {
    if exists|k: int| 0 <= k < s.len() && s[k] == c {
        Some(choose|k: int| 0 <= k < s.len() && s[k] == c && forall|q: int| 0 <= q < k ==> s[q] != c)
    } else {
        None
    }
}

/// The last index of `c` in `s`.
pub open spec fn last_of(s: Seq<char>, c: char) -> Option<int> {
    if exists|k: int| 0 <= k < s.len() && s[k] == c {
        Some(choose|k: int| 0 <= k < s.len() && s[k] == c && forall|q: int| k < q < s.len() ==> s[q] != c)
    } else {
        None
    }
}

/// `a:b` as a column range.
pub open spec fn col_range(s: Seq<char>) -> Option<(int, int)> {
    match first_of(s, ':') {
        Some(k) => match (usize_of(s.take(k)), usize_of(s.skip(k + 1))) {
            (Some(a), Some(b)) => Some((a, b)),
            _ => None,
        },
        None => None,
    }
}

/// The condition and the rest of an `X IF` directive: an optional `(`, the
/// text up to the last `)` (trimmed, and not empty), and what follows.
pub open spec fn x_if_split(s: Seq<char>) -> Option<(Seq<char>, Seq<char>)> {
    let s1 = if s.len() > 0 && s[0] == '(' { s.skip(1) } else { s };
    match last_of(s1, ')') {
        Some(k) => if trim_ws(s1.take(k)).len() > 0 {
            Some((trim_ws(s1.take(k)), s1.skip(k + 1)))
        } else {
            None
        },
        None => None,
    }
}

/// The column and value text of an assignment `[1!]col=value`.
pub open spec fn x_if_target(rest: Seq<char>) -> Option<(Seq<char>, Seq<char>)> {
    let r = trim_ws(rest);
    let r2 = if starts_with(r, "1!"@) { r.skip(2) } else { r };
    match first_of(r2, '=') {
        Some(k) => Some((r2.take(k), r2.skip(k + 1))),
        None => None,
    }
}

/// What an `X IF` directive gives.
pub enum XIfModel {
    NoAssignment,
    Assign { condition: UncleModel, col: int, value: Seq<char> },
    Error(Seq<char>),
}

/// The meaning of `X IF(condition) [1!]col=value`; `None` where the
/// condition cannot be parsed to its end (an empty column group before `...`, or
/// column arithmetic past `usize::MAX`).
pub open spec fn x_if_spec(s: Seq<char>) -> Option<XIfModel> {
    match x_if_split(s) {
        None => Some(XIfModel::NoAssignment),
        Some((cond, rest)) => match parse_spec(cond) {
            None => None,
            Some(Err((q, m))) => Some(XIfModel::Error("X IF condition parse error: "@ + parse_error_text(q as nat, m, cond))),
            Some(Ok(e)) => match x_if_target(rest) {
                None => Some(XIfModel::NoAssignment),
                Some((col_str, value)) => match usize_of(trim_ws(col_str)) {
                    None => Some(XIfModel::Error("X IF: invalid column number '"@ + col_str + "'"@)),
                    Some(c) => Some(XIfModel::Assign { condition: e, col: c, value: trim_ws(value) }),
                },
            },
        },
    }
}

pub open spec fn x_if_outcome(m: XIfModel, line_num: usize, r: Result<Option<ColumnAssignment>, ParseEError>) -> bool {
    match m {
        XIfModel::NoAssignment => r matches Ok(None),
        XIfModel::Assign { condition, col, value } => r matches Ok(Some(a)) && a.condition@ == condition && a.col == col
            && a.value@ == value,
        XIfModel::Error(msg) => r matches Err(e) && e.line_num == line_num && e.message@ == msg,
    }
}

/// The first index of `c` in `v`.
pub fn first_of_exec(v: &Vec<char>, c: char) -> (r: Option<usize>)
    ensures
        match r {
            Some(k) => first_of(v@, c) == Some(k as int) && k < v.len(),
            None => first_of(v@, c) is None,
        },
{
    let mut i: usize = 0;
    while i < v.len()
        invariant
            i <= v.len(),
            forall|q: int| 0 <= q < i ==> v@[q] != c,
        decreases v.len() - i,
    {
        if v[i] == c {
            assert(exists|k: int| 0 <= k < v@.len() && v@[k] == c) by {
                assert(v@[i as int] == c);
            }
            let ghost k = choose|k: int| 0 <= k < v@.len() && v@[k] == c && forall|q: int| 0 <= q < k ==> v@[q] != c;
            assert(k == i as int) by {
                assert(v@[i as int] == c);
                if k < i {
                } else if k > i {
                    assert(v@[i as int] != c);
                }
            }
            return Some(i);
        }
        i = i + 1;
    }
    None
}

fn last_of_exec(v: &Vec<char>, c: char) -> (r: Option<usize>)
    ensures
        match r {
            Some(k) => last_of(v@, c) == Some(k as int) && k < v.len(),
            None => last_of(v@, c) is None,
        },
{
    let mut i: usize = v.len();
    while i > 0
        invariant
            i <= v.len(),
            forall|q: int| i <= q < v.len() ==> v@[q] != c,
        decreases i,
    {
        if v[i - 1] == c {
            assert(exists|k: int| 0 <= k < v@.len() && v@[k] == c) by {
                assert(v@[i - 1] == c);
            }
            let ghost k = choose|k: int| 0 <= k < v@.len() && v@[k] == c && forall|q: int| k < q < v@.len() ==> v@[q] != c;
            assert(k == i - 1) by {
                assert(v@[i - 1] == c);
                if k < i - 1 {
                } else if k > i - 1 {
                    assert(v@[i - 1] != c);
                }
            }
            return Some(i - 1);
        }
        i = i - 1;
    }
    None
}

/// `str::parse::<u16>` on characters.
pub fn u16_exec(v: &Vec<char>) -> (r: Option<u16>)
    ensures
        match u16_of(v@) {
            Some(x) => r matches Some(y) && y == x,
            None => r is None,
        },
{
    match parse_unsigned_exec(v, 65535u64) {
        Some(x) => Some(x as u16),
        None => None,
    }
}

/// `str::parse::<usize>` on characters.
pub fn usize_exec(v: &Vec<char>) -> (r: Option<usize>)
    ensures
        match usize_of(v@) {
            Some(x) => r matches Some(y) && y == x,
            None => r is None,
        },
{
    match parse_unsigned_exec(v, usize::MAX as u64) {
        Some(x) => Some(x as usize),
        None => None,
    }
}

/// `str::eq_ignore_ascii_case` of characters and a string.
pub fn eq_ignore_case_exec(a: &Vec<char>, b: &str) -> (r: bool)
    ensures
        r == eq_ignore_case(a@, b@),
{
    let bv = chars_of(b);
    if a.len() != bv.len() {
        return false;
    }
    let mut i: usize = 0;
    while i < a.len()
        invariant
            i <= a.len() == bv.len(),
            bv@ == b@,
            forall|k: int| 0 <= k < i ==> ascii_lower(#[trigger] a@[k]) == ascii_lower(bv@[k]),
        decreases a.len() - i,
    {
        if crate::text::ascii_lower_exec(a[i]) != crate::text::ascii_lower_exec(bv[i]) {
            return false;
        }
        i = i + 1;
    }
    true
}

/// The table ID of a `TABLE <id>` line.
pub fn parse_table_line(line: &str) -> (r: Option<u16>)
    ensures
        r == table_line_id(line@),
{
    let v = chars_of(line);
    table_line_chars(&v)
}

/// [`parse_table_line`] on characters.
pub fn table_line_chars(v: &Vec<char>) -> (r: Option<u16>)
    ensures
        r == table_line_id(v@),
{
    proof {
        reveal(table_line_id);
    }
    let t = trim_chars(v);
    let kw: [char; 5] = ['T', 'A', 'B', 'L', 'E'];
    proof {
        reveal_strlit("TABLE");
        assert(kw@ =~= "TABLE"@);
    }
    if !starts_with_exec(&t, &kw) {
        return None;
    }
    let rest = sub_chars(&t, 5, t.len());
    assert(rest@ =~= t@.skip(5));
    if rest.len() == 0 {
        return None;
    }
    let c = rest[0];
    if !(c == ' ' || c == '\t' || c == '\n' || c == '\x0C' || c == '\r') {
        return None;
    }
    let inner = trim_chars(&rest);
    u16_exec(&inner)
}

/// The `TABLE` blocks of the lines, each running to the next `TABLE` line
/// or the end; a later block with the same ID replaces the earlier one in
/// its place.
pub fn index_table_blocks(lines: &[&str]) -> (r: Vec<TableBlock>)
    ensures
        r@ == blocks_from(strs_view(lines@), 0, Seq::empty()),
{
    let mut lv: Vec<Vec<char>> = Vec::new();
    let mut k: usize = 0;
    while k < lines.len()
        invariant
            k <= lines.len(),
            chars_view(lv@) == strs_view(lines@).take(k as int),
        decreases lines.len() - k,
    {
        let ghost before = lv@;
        lv.push(chars_of(lines[k]));
        assert(chars_view(lv@) =~= chars_view(before).push(lines@[k as int]@));
        assert(strs_view(lines@).take(k + 1) =~= strs_view(lines@).take(k as int).push(lines@[k as int]@));
        k = k + 1;
    }
    assert(strs_view(lines@).take(lines.len() as int) =~= strs_view(lines@));
    index_blocks_chars(&lv)
}

/// [`index_table_blocks`] on lines as characters.
pub fn index_blocks_chars(lines: &Vec<Vec<char>>) -> (r: Vec<TableBlock>)
    ensures
        r@ == blocks_from(chars_view(lines@), 0, Seq::empty()),
        forall|k: int| 0 <= k < r.len() ==> (#[trigger] r@[k]).start < r@[k].end <= lines.len(),
{
    let ghost ls = chars_view(lines@);
    let mut blocks: Vec<TableBlock> = Vec::new();
    let mut i: usize = 0;
    while i < lines.len()
        invariant
            i <= lines.len(),
            ls == chars_view(lines@),
            blocks_from(ls, i as int, blocks@) == blocks_from(ls, 0, Seq::empty()),
            forall|k: int| 0 <= k < blocks.len() ==> (#[trigger] blocks@[k]).start < blocks@[k].end <= lines.len(),
        decreases lines.len() - i,
    {
        assert(ls[i as int] == lines@[i as int]@);
        match table_line_chars(&lines[i]) {
            Some(id) => {
                let start = i;
                i = i + 1;
                while i < lines.len() && table_line_chars(&lines[i]).is_none()
                    invariant
                        start < i <= lines.len(),
                        ls == chars_view(lines@),
                        next_table_line(ls, i as int) == next_table_line(ls, start + 1),
                    decreases lines.len() - i,
                {
                    assert(ls[i as int] == lines@[i as int]@);
                    i = i + 1;
                }
                proof {
                    if i < lines.len() {
                        assert(ls[i as int] == lines@[i as int]@);
                    }
                    lemma_next_table_line(ls, start + 1);
                }
                let b = TableBlock { id, start, end: i };
                let ghost before = blocks@;
                let mut p: usize = 0;
                while p < blocks.len() && blocks[p].id != id
                    invariant
                        p <= blocks.len(),
                        blocks@ == before,
                        forall|k: int| 0 <= k < blocks.len() ==> (#[trigger] blocks@[k]).start < blocks@[k].end <= lines.len(),
                        forall|q: int| 0 <= q < p ==> (#[trigger] blocks@[q]).id != id,
                    decreases blocks.len() - p,
                {
                    p = p + 1;
                }
                if p < blocks.len() {
                    proof {
                        assert(exists|k: int| 0 <= k < before.len() && (#[trigger] before[k]).id == id) by {
                            assert(before[p as int].id == id);
                        }
                        let k = choose|k: int| 0 <= k < before.len() && (#[trigger] before[k]).id == id && forall|q: int|
                            0 <= q < k ==> (#[trigger] before[q]).id != id;
                        if k < p {
                        } else if k > p {
                            assert(before[p as int].id == id);
                        }
                        assert(block_index(before, id) == Some(p as int));
                    }
                    blocks.set(p, b);
                } else {
                    blocks.push(b);
                }
            },
            None => {
                i = i + 1;
            },
        }
    }
    blocks
}

/// An `X IF(condition) [1!]col=value` directive (the text after `X IF`):
/// the condition is the text up to the last `)`; a missing `)`, an empty
/// condition or a missing `=` give no assignment.
pub fn parse_x_if(s: &str, line_num: usize) -> (r: Result<Option<ColumnAssignment>, ParseEError>)
    requires
        x_if_spec(s@) is Some,
    ensures
        x_if_outcome(x_if_spec(s@)->0, line_num, r),
{
    try_parse_x_if(s, line_num).unwrap()
}

fn x_if_split_exec(s: &str) -> (r: Option<(Vec<char>, Vec<char>)>)
    ensures
        match x_if_split(s@) {
            Some((c, rest)) => r matches Some((x, y)) && x@ == c && y@ == rest,
            None => r is None,
        },
{
    let v = chars_of(s);
    let s1 = if v.len() > 0 && v[0] == '(' {
        sub_chars(&v, 1, v.len())
    } else {
        sub_chars(&v, 0, v.len())
    };
    assert(s1@ =~= (if v@.len() > 0 && v@[0] == '(' { v@.skip(1) } else { v@ }));
    let k = match last_of_exec(&s1, ')') {
        Some(k) => k,
        None => {
            return None;
        },
    };
    let c0 = sub_chars(&s1, 0, k);
    assert(c0@ =~= s1@.take(k as int));
    let cond = trim_chars(&c0);
    if cond.len() == 0 {
        return None;
    }
    let rest = sub_chars(&s1, k + 1, s1.len());
    assert(rest@ =~= s1@.skip(k + 1));
    Some((cond, rest))
}

fn x_if_target_exec(rest: &Vec<char>) -> (r: Option<(Vec<char>, Vec<char>)>)
    ensures
        match x_if_target(rest@) {
            Some((c, v)) => r matches Some((x, y)) && x@ == c && y@ == v,
            None => r is None,
        },
{
    let r = trim_chars(rest);
    let pfx: [char; 2] = ['1', '!'];
    proof {
        reveal_strlit("1!");
        assert(pfx@ =~= "1!"@);
    }
    let r2 = if starts_with_exec(&r, &pfx) {
        sub_chars(&r, 2, r.len())
    } else {
        sub_chars(&r, 0, r.len())
    };
    assert(r2@ =~= (if starts_with(r@, "1!"@) { r@.skip(2) } else { r@ }));
    let e = match first_of_exec(&r2, '=') {
        Some(e) => e,
        None => {
            return None;
        },
    };
    let col_str = sub_chars(&r2, 0, e);
    let value = sub_chars(&r2, e + 1, r2.len());
    assert(col_str@ =~= r2@.take(e as int));
    assert(value@ =~= r2@.skip(e + 1));
    Some((col_str, value))
}

fn x_if_assignment(condition: UncleExpr, target: Option<(Vec<char>, Vec<char>)>, line_num: usize) -> (r: Result<Option<ColumnAssignment>, ParseEError>)
    ensures
        match target {
            None => r matches Ok(None),
            Some((col_str, value)) => match usize_of(trim_ws(col_str@)) {
                None => r matches Err(e) && e.line_num == line_num && e.message@ == "X IF: invalid column number '"@ + col_str@ + "'"@,
                Some(c) => r matches Ok(Some(a)) && a.condition@ == condition@ && a.col == c && a.value@ == trim_ws(value@),
            },
        },
{
    match target {
        None => Ok(None),
        Some((col_str, value)) => {
            let ct = trim_chars(&col_str);
            match usize_exec(&ct) {
                None => {
                    let mut m: Vec<char> = Vec::new();
                    push_str(&mut m, "X IF: invalid column number '");
                    extend_chars(&mut m, col_str.as_slice());
                    push_str(&mut m, "'");
                    Err(ParseEError { line_num, message: string_from(m.as_slice()) })
                },
                Some(col) => {
                    let vt = trim_chars(&value);
                    Ok(Some(ColumnAssignment { condition, col, value: string_from(vt.as_slice()) }))
                },
            }
        },
    }
}

/// [`parse_x_if`], or `None` where the condition cannot be parsed to its end (an empty column group before `...`, or
/// column arithmetic past `usize::MAX`).
pub fn try_parse_x_if(s: &str, line_num: usize) -> (r: Option<Result<Option<ColumnAssignment>, ParseEError>>)
    ensures
        match x_if_spec(s@) {
            Some(m) => r matches Some(res) && x_if_outcome(m, line_num, res),
            None => r is None,
        },
{
    let (cond, rest) = match x_if_split_exec(s) {
        Some(p) => p,
        None => {
            return Some(Ok(None));
        },
    };
    let cs = string_from(cond.as_slice());
    match UncleExpr::try_parse(cs.as_str()) {
        None => None,
        Some(Err(e)) => {
            let mut m: Vec<char> = Vec::new();
            push_str(&mut m, "X IF condition parse error: ");
            let et = e.to_string();
            push_str(&mut m, et.as_str());
            Some(Err(ParseEError { line_num, message: string_from(m.as_slice()) }))
        },
        Some(Ok(c)) => {
            let t = x_if_target_exec(&rest);
            Some(x_if_assignment(c, t, line_num))
        },
    }
}

fn weight_error(line_num: usize, msg: Vec<char>) -> (r: ParseEError)
    ensures
        r.line_num == line_num,
        r.message@ == "X WEIGHT parse error: "@ + msg@,
{
    let mut m: Vec<char> = Vec::new();
    push_str(&mut m, "X WEIGHT parse error: ");
    extend_chars(&mut m, msg.as_slice());
    ParseEError { line_num, message: string_from(m.as_slice()) }
}

/// The table IDs before `TO` in an `X WEIGHT` line: single IDs and
/// `<start> TH <end>` ranges, in order.
pub fn parse_table_id_list(tokens: &[&str], line_num: usize) -> (r: Result<Vec<u16>, ParseEError>)
    ensures
        match id_list(strs_view(tokens@), 0) {
            Ok(ids) => r matches Ok(v) && v@ == ids,
            Err(m) => r matches Err(e) && e.line_num == line_num && e.message@ == "X WEIGHT parse error: "@ + m,
        },
{
    let mut tv: Vec<Vec<char>> = Vec::new();
    let mut k: usize = 0;
    while k < tokens.len()
        invariant
            k <= tokens.len(),
            chars_view(tv@) == strs_view(tokens@).take(k as int),
        decreases tokens.len() - k,
    {
        let ghost before = tv@;
        tv.push(chars_of(tokens[k]));
        assert(chars_view(tv@) =~= chars_view(before).push(tokens@[k as int]@));
        assert(strs_view(tokens@).take(k + 1) =~= strs_view(tokens@).take(k as int).push(tokens@[k as int]@));
        k = k + 1;
    }
    assert(strs_view(tokens@).take(tokens.len() as int) =~= strs_view(tokens@));
    id_list_chars(&tv, line_num)
}

/// [`parse_table_id_list`] on tokens as characters.
pub fn id_list_chars(tokens: &Vec<Vec<char>>, line_num: usize) -> (r: Result<Vec<u16>, ParseEError>)
    ensures
        match id_list(chars_view(tokens@), 0) {
            Ok(ids) => r matches Ok(v) && v@ == ids,
            Err(m) => r matches Err(e) && e.line_num == line_num && e.message@ == "X WEIGHT parse error: "@ + m,
        },
{
    let ghost ts = chars_view(tokens@);
    let mut ids: Vec<u16> = Vec::new();
    let mut i: usize = 0;
    while i < tokens.len()
        invariant
            i <= tokens.len(),
            ts == chars_view(tokens@),
            match id_list(ts, i as int) {
                Ok(rest) => id_list(ts, 0) == Ok::<Seq<u16>, Seq<char>>(ids@ + rest),
                Err(m) => id_list(ts, 0) == Err::<Seq<u16>, Seq<char>>(m),
            },
        decreases tokens.len() - i,
    {
        assert(ts[i as int] == tokens@[i as int]@);
        let tv = &tokens[i];
        let id = match u16_exec(tv) {
            Some(x) => x,
            None => {
                let mut m: Vec<char> = Vec::new();
                push_str(&mut m, "invalid table ID '");
                extend_chars(&mut m, tv.as_slice());
                push_str(&mut m, "'");
                return Err(weight_error(line_num, m));
            },
        };
        let th = if tokens.len() - i > 2 {
            assert(ts[i + 1] == tokens@[i + 1]@);
            eq_ignore_case_exec(&tokens[i + 1], "TH")
        } else {
            false
        };
        if th {
            assert(ts[i + 2] == tokens@[i + 2]@);
            let ev = &tokens[i + 2];
            let end = match u16_exec(ev) {
                Some(x) => x,
                None => {
                    let mut m: Vec<char> = Vec::new();
                    push_str(&mut m, "invalid end table ID '");
                    extend_chars(&mut m, ev.as_slice());
                    push_str(&mut m, "'");
                    return Err(weight_error(line_num, m));
                },
            };
            let ghost pre = ids@;
            let mut k: u16 = id;
            if id <= end {
                while k < end
                    invariant
                        id <= k <= end,
                        ids@ == pre + id_range(id as int, k - 1),
                    decreases end - k,
                {
                    ids.push(k);
                    assert(id_range(id as int, k as int) =~= id_range(id as int, k - 1).push(k));
                    k = k + 1;
                }
                ids.push(k);
                assert(id_range(id as int, k as int) =~= id_range(id as int, k - 1).push(k));
                assert(ids@ =~= pre + id_range(id as int, end as int));
            } else {
                assert(id_range(id as int, end as int) =~= Seq::<u16>::empty());
                assert(ids@ =~= pre + id_range(id as int, end as int));
            }
            proof {
                match id_list(ts, i + 3) {
                    Ok(rest) => {
                        assert(pre + (id_range(id as int, end as int) + rest) =~= ids@ + rest);
                    },
                    Err(_) => {},
                }
            }
            i = i + 3;
        } else {
            let ghost pre = ids@;
            ids.push(id);
            proof {
                match id_list(ts, i + 1) {
                    Ok(rest) => {
                        assert(pre + (seq![id] + rest) =~= ids@ + rest);
                    },
                    Err(_) => {},
                }
            }
            i = i + 1;
        }
    }
    assert(ids@ + Seq::<u16>::empty() =~= ids@);
    Ok(ids)
}

/// `a:b` as a column range.
pub fn parse_col_range(s: &str) -> (r: Option<(usize, usize)>)
    ensures
        match col_range(s@) {
            Some((a, b)) => r matches Some((x, y)) && x == a && y == b,
            None => r is None,
        },
{
    let v = chars_of(s);
    col_range_chars(&v)
}

/// [`parse_col_range`] on characters.
pub fn col_range_chars(v: &Vec<char>) -> (r: Option<(usize, usize)>)
    ensures
        match col_range(v@) {
            Some((a, b)) => r matches Some((x, y)) && x == a && y == b,
            None => r is None,
        },
{
    let k = match first_of_exec(v, ':') {
        Some(k) => k,
        None => {
            return None;
        },
    };
    let a = sub_chars(v, 0, k);
    let b = sub_chars(v, k + 1, v.len());
    assert(a@ =~= v@.take(k as int));
    assert(b@ =~= v@.skip(k + 1));
    match (usize_exec(&a), usize_exec(&b)) {
        (Some(x), Some(y)) => Some((x, y)),
        _ => None,
    }
}

} // verus!
