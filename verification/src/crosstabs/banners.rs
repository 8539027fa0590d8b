//! Banner tables read from a spreadsheet's rows, and their UNCLE output.

use vstd::prelude::*;

use crate::crosstabs::logic::CrossTabsLogic;
use crate::crosstabs::uncle_syntax::uncle_text;
use crate::question_table::question_table;
use crate::rfl::{QuestionModel, RflQuestion};
use crate::crosstabs::rewrite::logic_tree;
use crate::crosstabs::tables::{
    ascii_digits, ascii_digits_exec, banner_of, banner_models, uncle_subtitle_of, uncle_title_of, BannerModel, BannersTable, BannersTableModel,
};
use crate::text::{
    chars_of, extend_chars, find_seq, find_seq_exec, find_seq_from, find_seq_from_exec, is_ascii_alnum, is_ascii_alpha, is_digit, lowercase, nat_str, push_str, to_lowercase, u128_to_chars, lemma_find_seq_from, str_eq, string_from, sub_chars,
    trim_chars, trim_ws, all_digits, dec_value, lemma_nat_str,
};

verus! {

/// `str::contains` with a string pattern.
pub open spec fn contains(s: Seq<char>, p: Seq<char>) -> bool {
    find_seq(s, p) is Some
}

fn contains_lit(v: &Vec<char>, p: &str) -> (r: bool)
    ensures
        r == contains(v@, p@),
{
    let pv = chars_of(p);
    find_seq_exec(v, pv.as_slice()).is_some()
}

fn ascii_alnum(c: char) -> (r: bool)
    ensures
        r == is_ascii_alnum(c),
{
    ('a' <= c && c <= 'z') || ('A' <= c && c <= 'Z') || ('0' <= c && c <= '9')
}

/// Whether the occurrence of `word` at `pos` of `s` stands alone: the
/// characters on either side (where there are any) are not ASCII letters or
/// digits.
pub open spec fn whole_word_at(s: Seq<char>, word: Seq<char>, pos: int) -> bool {
    &&& (pos == 0 || !is_ascii_alnum(s[pos - 1]))
    &&& (pos + word.len() >= s.len() || !is_ascii_alnum(s[pos + word.len()]))
}

/// `s` from position `i` on, with each occurrence of `word` that stands
/// alone in `s` replaced by `rep`. Occurrences are found left to right,
/// each search starting after the previous occurrence.
pub open spec fn replace_from(s: Seq<char>, word: Seq<char>, rep: Seq<char>, i: int) -> Seq<char>
    decreases s.len() - i,
{
    if word.len() == 0 || i < 0 || i > s.len() {
        Seq::empty()
    } else {
        match find_seq_from(s, word, i) {
            Some(p) => if i <= p && p + word.len() <= s.len() {
                (if whole_word_at(s, word, p) {
                    s.subrange(i, p) + rep
                } else {
                    s.subrange(i, p + word.len())
                }) + replace_from(s, word, rep, p + word.len())
            } else {
                s.skip(i)
            },
            None => s.skip(i),
        }
    }
}

/// `s` with each occurrence of `word` that stands alone (one not inside a
/// longer run of ASCII letters and digits of `s`) replaced by `rep`.
pub open spec fn replace_whole(s: Seq<char>, word: Seq<char>, rep: Seq<char>) -> Seq<char> {
    if word.len() == 0 {
        s
    } else {
        replace_from(s, word, rep, 0)
    }
}

proof fn lemma_replace_from_identity(s: Seq<char>, word: Seq<char>, i: int)
    requires
        word.len() > 0,
        0 <= i <= s.len(),
    ensures
        replace_from(s, word, word, i) == s.skip(i),
    decreases s.len() - i,
{
    lemma_find_seq_from(s, word, i);
    match find_seq_from(s, word, i) {
        Some(p) => {
            if i <= p && p + word.len() <= s.len() {
                lemma_replace_from_identity(s, word, p + word.len());
                assert(s.subrange(i, p + word.len()) =~= s.subrange(i, p) + word);
                assert(s.subrange(i, p + word.len()) + s.skip(p + word.len()) =~= s.skip(i));
            }
        },
        None => {},
    }
}

/// Replacing a word by itself leaves the text as it was.
pub proof fn law_replace_whole_identity(s: Seq<char>, word: Seq<char>)
    ensures
        replace_whole(s, word, word) == s,
{
    if word.len() > 0 {
        lemma_replace_from_identity(s, word, 0);
        assert(s.skip(0) =~= s);
    }
}

/// A word that does not occur is not replaced: the text comes back as it
/// was.
pub proof fn law_replace_whole_absent(s: Seq<char>, word: Seq<char>, rep: Seq<char>)
    requires
        find_seq(s, word) is None,
    ensures
        replace_whole(s, word, rep) == s,
{
    assert(s.skip(0) =~= s);
}

/// The age-group specs that a subtitle naming an age band stands for.
pub open spec fn age_replacement(subtitle: Seq<char>) -> Option<Seq<char>> {
    if contains(subtitle, "18-34"@) {
        Some("AGEGROUP:1-2"@)
    } else if contains(subtitle, "18-44"@) {
        Some("AGEGROUP:1-3"@)
    } else if contains(subtitle, "18-54"@) {
        Some("AGEGROUP:1-4"@)
    } else if contains(subtitle, "35-44"@) {
        Some("AGEGROUP:3"@)
    } else if contains(subtitle, "35-54"@) {
        Some("AGEGROUP:3-4"@)
    } else if contains(subtitle, "45-54"@) {
        Some("AGEGROUP:4"@)
    } else if contains(subtitle, "45-64"@) {
        Some("AGEGROUP:4-5"@)
    } else if contains(subtitle, "45+"@) {
        Some("AGEGROUP:4-6"@)
    } else if contains(subtitle, "55-64"@) {
        Some("AGEGROUP:5"@)
    } else if contains(subtitle, "55+"@) {
        Some("AGEGROUP:5-6"@)
    } else if contains(subtitle, "65+"@) {
        Some("AGEGROUP:6"@)
    } else if contains(subtitle, "18-49"@) {
        Some("(QAGE:18-49 OR AGEGROUP:1-3)"@)
    } else if contains(subtitle, "50+"@) {
        Some("(QAGE:50-110 OR AGEGROUP:5-6)"@)
    } else if contains(subtitle, "35-49"@) {
        Some("(QAGE:35-49 OR AGEGROUP:3)"@)
    } else if contains(subtitle, "50-64"@) {
        Some("(QAGE:50-64 OR AGEGROUP:5)"@)
    } else {
        None
    }
}

fn age_replacement_exec(sub: &Vec<char>) -> (r: Option<&'static str>)
    ensures
        match r {
            Some(x) => age_replacement(sub@) == Some(x@),
            None => age_replacement(sub@) is None,
        },
{
    if contains_lit(sub, "18-34") {
        Some("AGEGROUP:1-2")
    } else if contains_lit(sub, "18-44") {
        Some("AGEGROUP:1-3")
    } else if contains_lit(sub, "18-54") {
        Some("AGEGROUP:1-4")
    } else if contains_lit(sub, "35-44") {
        Some("AGEGROUP:3")
    } else if contains_lit(sub, "35-54") {
        Some("AGEGROUP:3-4")
    } else if contains_lit(sub, "45-54") {
        Some("AGEGROUP:4")
    } else if contains_lit(sub, "45-64") {
        Some("AGEGROUP:4-5")
    } else if contains_lit(sub, "45+") {
        Some("AGEGROUP:4-6")
    } else if contains_lit(sub, "55-64") {
        Some("AGEGROUP:5")
    } else if contains_lit(sub, "55+") {
        Some("AGEGROUP:5-6")
    } else if contains_lit(sub, "65+") {
        Some("AGEGROUP:6")
    } else if contains_lit(sub, "18-49") {
        Some("(QAGE:18-49 OR AGEGROUP:1-3)")
    } else if contains_lit(sub, "50+") {
        Some("(QAGE:50-110 OR AGEGROUP:5-6)")
    } else if contains_lit(sub, "35-49") {
        Some("(QAGE:35-49 OR AGEGROUP:3)")
    } else if contains_lit(sub, "50-64") {
        Some("(QAGE:50-64 OR AGEGROUP:5)")
    } else {
        None
    }
}

/// One pass of the age-group fix for the question name `part`: where the
/// specs have no `AGEGROUP:` yet and the subtitle names an age band, each
/// standalone `part` becomes that band's specs.
pub open spec fn age_step(specs: Seq<char>, subtitle: Seq<char>, part: Seq<char>) -> Seq<char> {
    if contains(specs, "AGEGROUP:"@) {
        specs
    } else {
        match age_replacement(subtitle) {
            Some(r) => replace_whole(specs, part, r),
            None => specs,
        }
    }
}

/// The age-group fix: a pass for `D1`, then one for `AGE`.
pub open spec fn agegroups_fixed(specs: Seq<char>, subtitle: Seq<char>) -> Seq<char> {
    age_step(age_step(specs, subtitle, "D1"@), subtitle, "AGE"@)
}

/// The state codes added to the specs of a banner for a national region.
pub open spec fn region_spec(subtitle: Seq<char>) -> Seq<char> {
    if subtitle == "NORTHEAST"@ {
        " & FIPSCOMB:09,23,25,33,44,50,10,11,24,34,36,42,54"@
    } else if subtitle == "MIDWEST"@ {
        " & FIPSCOMB:17,18,26,27,39,55,19,20,29,31,38,46"@
    } else if subtitle == "SOUTH"@ {
        " & FIPSCOMB:01,05,12,13,22,28,45,21,37,40,47,48,51"@
    } else if subtitle == "WEST"@ {
        " & FIPSCOMB:02,04,08,16,30,32,35,49,56,06,15,41,53"@
    } else if subtitle == "NEW ENGLAND"@ {
        " & FIPSCOMB:09,23,25,33,44,50"@
    } else if subtitle == "MID-ATLANTIC"@ {
        " & FIPSCOMB:10,11,24,34,36,42,54"@
    } else if subtitle == "GREAT LAKES"@ {
        " & FIPSCOMB:17,18,26,27,39,55"@
    } else if subtitle == "DEEP SOUTH"@ {
        " & FIPSCOMB:01,05,12,13,22,28,45"@
    } else if subtitle == "OUTER SOUTH"@ {
        " & FIPSCOMB:21,37,40,47,48,51"@
    } else if subtitle == "FARM BELT"@ {
        " & FIPSCOMB:19,20,29,31,38,46"@
    } else if subtitle == "MOUNTAIN"@ {
        " & FIPSCOMB:04,08,16,30,32,35,49,56"@
    } else if subtitle == "PACIFIC"@ {
        " & FIPSCOMB:02,06,15,41,53"@
    } else {
        ""@
    }
}

fn region_spec_exec(subtitle: &str) -> (r: &'static str)
    ensures
        r@ == region_spec(subtitle@),
{
    proof {
        reveal_strlit("");
    }
    if str_eq(subtitle, "NORTHEAST") {
        " & FIPSCOMB:09,23,25,33,44,50,10,11,24,34,36,42,54"
    } else if str_eq(subtitle, "MIDWEST") {
        " & FIPSCOMB:17,18,26,27,39,55,19,20,29,31,38,46"
    } else if str_eq(subtitle, "SOUTH") {
        " & FIPSCOMB:01,05,12,13,22,28,45,21,37,40,47,48,51"
    } else if str_eq(subtitle, "WEST") {
        " & FIPSCOMB:02,04,08,16,30,32,35,49,56,06,15,41,53"
    } else if str_eq(subtitle, "NEW ENGLAND") {
        " & FIPSCOMB:09,23,25,33,44,50"
    } else if str_eq(subtitle, "MID-ATLANTIC") {
        " & FIPSCOMB:10,11,24,34,36,42,54"
    } else if str_eq(subtitle, "GREAT LAKES") {
        " & FIPSCOMB:17,18,26,27,39,55"
    } else if str_eq(subtitle, "DEEP SOUTH") {
        " & FIPSCOMB:01,05,12,13,22,28,45"
    } else if str_eq(subtitle, "OUTER SOUTH") {
        " & FIPSCOMB:21,37,40,47,48,51"
    } else if str_eq(subtitle, "FARM BELT") {
        " & FIPSCOMB:19,20,29,31,38,46"
    } else if str_eq(subtitle, "MOUNTAIN") {
        " & FIPSCOMB:04,08,16,30,32,35,49,56"
    } else if str_eq(subtitle, "PACIFIC") {
        " & FIPSCOMB:02,06,15,41,53"
    } else {
        ""
    }
}

/// The banner tables of a spreadsheet.
#[derive(Debug)]
pub struct BannersTables {
    pub tables: Vec<BannersTable>,
}

/// The cells of a row, as text.
pub open spec fn cells(row: Vec<String>) -> Seq<Seq<char>> {
    row@.map_values(|s: String| s@)
}

/// The rows of a sheet, as text.
pub open spec fn rows_view(rows: Seq<Vec<String>>) -> Seq<Seq<Seq<char>>> {
    rows.map_values(|r: Vec<String>| cells(r))
}

pub open spec fn table_models(ts: Seq<BannersTable>) -> Seq<BannersTableModel> {
    ts.map_values(|t: BannersTable| t.model())
}

/// Whether `c` is an ASCII letter (`letters`) or an ASCII digit.
pub open spec fn run_char(c: char, letters: bool) -> bool {
    if letters {
        is_ascii_alpha(c)
    } else {
        is_digit(c)
    }
}

/// The start of the run of ASCII letters (`letters`) or digits that ends
/// just before position `j` of `t`.
pub open spec fn run_before(t: Seq<char>, j: int, letters: bool) -> int
    decreases j,
{
    if 0 < j <= t.len() && run_char(t[j - 1], letters) {
        run_before(t, j - 1, letters)
    } else {
        j
    }
}

/// Where a spec ends in letters, digits, letters and digits (such as
/// `D2B2` or `Q1A1`): the start of its final digits.
pub open spec fn spec_split(t: Seq<char>) -> Option<int> {
    let d = run_before(t, t.len() as int, false);
    let l = run_before(t, d, true);
    let e = run_before(t, l, false);
    if d < t.len() && l < d && e < l && 0 < e && is_ascii_alpha(t[e - 1]) {
        Some(d)
    } else {
        None
    }
}

/// A spec trimmed, with `:` put before its final digits where it ends in
/// letters, digits, letters and digits: `D2B2` becomes `D2B:2`.
pub open spec fn spec_format(s: Seq<char>) -> Seq<char> {
    let t = trim_ws(s);
    match spec_split(t) {
        Some(d) => t.take(d) + seq![':'] + t.skip(d),
        None => t,
    }
}

fn run_char_exec(c: char, letters: bool) -> (r: bool)
    ensures
        r == run_char(c, letters),
{
    if letters {
        ('a' <= c && c <= 'z') || ('A' <= c && c <= 'Z')
    } else {
        '0' <= c && c <= '9'
    }
}

fn run_start(t: &Vec<char>, j: usize, letters: bool) -> (r: usize)
    requires
        j <= t.len(),
    ensures
        r == run_before(t@, j as int, letters),
        r <= j,
{
    let mut k = j;
    while k > 0 && run_char_exec(t[k - 1], letters)
        invariant
            k <= j <= t.len(),
            run_before(t@, k as int, letters) == run_before(t@, j as int, letters),
        decreases k,
    {
        k = k - 1;
    }
    k
}

/// The specs of a banner row (the fourth cell): formatted (see
/// [`spec_format`]), the age bands of
/// the subtitle (the third cell) filled in, the state codes of its region
/// appended.
pub open spec fn row_specs(row: Seq<Seq<char>>) -> Seq<char> {
    agegroups_fixed(spec_format(row[3]), row[2]) + region_spec(row[2])
}

/// The base of a banner row: the fifth cell, or `ALL` where there is none.
pub open spec fn row_base(row: Seq<Seq<char>>) -> Seq<char> {
    if row.len() >= 5 {
        row[4]
    } else {
        "ALL"@
    }
}

/// Whether a row starts a new table: its index cell holds a character
/// that is not an ASCII digit, or its title is `TITLE`.
pub open spec fn starts_table(row: Seq<Seq<char>>) -> bool {
    (exists|i: int| 0 <= i < row[0].len() && !is_digit(#[trigger] row[0][i])) || row[1] == "TITLE"@
}

/// The tables read so far and the one being filled.
pub struct TablesState {
    pub done: Seq<BannersTableModel>,
    pub current: Option<BannersTableModel>,
}

/// The table that a row with the given index cell opens.
pub open spec fn opened(index: Seq<char>) -> BannersTableModel {
    BannersTableModel {
        index: ascii_digits(ascii_digits(index)),
        title: "/BANNER "@ + ascii_digits(index),
        banners: Seq::empty(),
    }
}

/// All tables, the one being filled last.
pub open spec fn closed_tables(st: TablesState) -> Seq<BannersTableModel> {
    match st.current {
        Some(t) => st.done.push(t),
        None => st.done,
    }
}

/// One row read: rows of fewer than four cells are skipped; a row that
/// starts a table closes the current one; a row with a subtitle adds a
/// banner to the current table. `None` where the banner's specs cut an
/// operator inside a multi-byte character.
pub open spec fn row_step(st: TablesState, row: Seq<Seq<char>>) -> Option<TablesState> {
    if row.len() < 4 {
        Some(st)
    } else if starts_table(row) {
        Some(TablesState { done: closed_tables(st), current: Some(opened(row[0])) })
    } else if row[2].len() > 0 && st.current is Some {
        match banner_of(row[1], row[2], row_specs(row), row_base(row), ""@) {
            Some(b) => {
                let t = st.current->0;
                Some(TablesState {
                    done: st.done,
                    current: Some(BannersTableModel { index: t.index, title: t.title, banners: t.banners.push(b) }),
                })
            },
            None => None,
        }
    } else {
        Some(st)
    }
}

/// The state after the first `n` rows.
pub open spec fn rows_fold(rows: Seq<Seq<Seq<char>>>, n: int) -> Option<TablesState>
    decreases n,
{
    if n <= 0 {
        Some(TablesState { done: Seq::empty(), current: None })
    } else {
        match rows_fold(rows, n - 1) {
            Some(st) => row_step(st, rows[n - 1]),
            None => None,
        }
    }
}

/// The banner tables of a sheet's rows.
pub open spec fn tables_from_rows(rows: Seq<Seq<Seq<char>>>) -> Option<Seq<BannersTableModel>> {
    match rows_fold(rows, rows.len() as int) {
        Some(st) => Some(closed_tables(st)),
        None => None,
    }
}

/// Once a row fails, every longer prefix fails.
proof fn lemma_rows_fold_none(rows: Seq<Seq<Seq<char>>>, n: int, m: int)
    requires
        n <= m,
        rows_fold(rows, n) is None,
    ensures
        rows_fold(rows, m) is None,
    decreases m - n,
{
    if n < m {
        lemma_rows_fold_none(rows, n, m - 1);
    }
}

proof fn lemma_fold_insert_short(rows: Seq<Seq<Seq<char>>>, k: int, row: Seq<Seq<char>>, n: int)
    requires
        row.len() < 4,
        0 <= k <= rows.len(),
        0 <= n <= rows.len(),
    ensures
        n <= k ==> rows_fold(rows.insert(k, row), n) == rows_fold(rows, n),
        n >= k ==> rows_fold(rows.insert(k, row), n + 1) == rows_fold(rows, n),
    decreases n,
{
    let r2 = rows.insert(k, row);
    if n > 0 {
        lemma_fold_insert_short(rows, k, row, n - 1);
        if n <= k {
            assert(r2[n - 1] == rows[n - 1]);
        } else {
            assert(r2[n] == rows[n - 1]);
        }
    }
    if n == k {
        assert(r2[k] == row);
    }
}

/// Rows of fewer than four cells do not count: putting one anywhere among
/// the rows leaves the tables as they were.
pub proof fn law_short_rows_skipped(rows: Seq<Seq<Seq<char>>>, k: int, row: Seq<Seq<char>>)
    requires
        row.len() < 4,
        0 <= k <= rows.len(),
    ensures
        tables_from_rows(rows.insert(k, row)) == tables_from_rows(rows),
{
    lemma_fold_insert_short(rows, k, row, rows.len() as int);
}

pub open spec fn opt_table(t: Option<BannersTable>) -> Option<BannersTableModel> {
    match t {
        Some(x) => Some(x.model()),
        None => None,
    }
}

/// The column headers of a table: the header line so far, the underline
/// line so far and the title being spanned. A banner with a title closes
/// the span of the previous title at the column before it and opens its
/// own at its column (`&CC<col>:`).
pub open spec fn header_step(st: (Seq<char>, Seq<char>, Seq<char>), title: Seq<char>, col: int) -> (Seq<char>, Seq<char>, Seq<char>) {
    let t = uncle_title_of(title);
    if t.len() == 0 {
        st
    } else {
        let o = if st.2.len() > 0 { st.0 + nat_str((col - 1) as nat) + " "@ + st.2 } else { st.0 };
        let u = if st.2.len() > 0 { st.1 + nat_str((col - 1) as nat) + "=="@ } else { st.1 };
        (o + "&CC"@ + nat_str(col as nat) + ":"@, u + "&CC"@ + nat_str(col as nat) + ":"@, t)
    }
}

/// The headers after the first `n` banners; banner `k` is column `k + 2`.
pub open spec fn header_fold(bs: Seq<BannerModel>, n: int) -> (Seq<char>, Seq<char>, Seq<char>)
    decreases n,
{
    if n <= 0 {
        (Seq::empty(), Seq::empty(), Seq::empty())
    } else {
        header_step(header_fold(bs, n - 1), bs[n - 1].title, n + 1)
    }
}

/// The `O FORMAT` line: narrower columns from 22 banners on, `BLEED` from
/// 24 on.
pub open spec fn format_line(n: int) -> Seq<char> {
    if n >= 22 {
        "O FORMAT 27 5 1 0 PDP 0 PCTS ZCELL '-' ZPACELL '-' SZR"@ + (if n >= 24 { " BLEED"@ } else { ""@ }) + "\n"@
    } else {
        "O FORMAT 27 6 1 0 PDP 0 PCTS ZCELL '-' ZPACELL '-' SZR\n"@
    }
}

/// The footer line for a (lower-cased) footer name.
pub open spec fn footer_line(kind: Seq<char>) -> Seq<char> {
    if kind == "nbc"@ {
        "F &CP HART RESEARCH ASSOCIATES//PUBLIC OPINION STRATEGIES\n"@
    } else if kind == "nmb"@ {
        "F &CP N M B  R E S E A R C H\n"@
    } else if kind == "nbs"@ {
        "F &CP N E W   B R I D G E   S T R A T E G Y\n"@
    } else if kind == "r2r"@ {
        "F &CP R 2 R  R E S E A R C H\n"@
    } else {
        "F &CP P U B L I C   O P I N I O N   S T R A T E G I E S\n"@
    }
}

/// The `C` lines of the first `n` banners: subtitle and UNCLE
/// qualification; `None` where a qualification cannot be computed.
pub open spec fn columns_text(bs: Seq<BannerModel>, tbl: Map<Seq<char>, QuestionModel>, n: int) -> Option<Seq<char>>
    decreases n,
{
    if n <= 0 {
        Some(Seq::empty())
    } else {
        match (columns_text(bs, tbl, n - 1), uncle_text(bs[n - 1].specs, tbl)) {
            (Some(a), Some(q)) => Some(a + "C &CE"@ + uncle_subtitle_of(bs[n - 1].subtitle) + ";"@ + q + "\n"@),
            _ => None,
        }
    }
}

/// The UNCLE text of table number `k` (counted from 0).
pub open spec fn table_output(k: int, t: BannersTableModel, tbl: Map<Seq<char>, QuestionModel>, footer: Seq<char>) -> Option<Seq<char>> {
    let n = t.banners.len() as int;
    let h = header_fold(t.banners, n);
    match columns_text(t.banners, tbl, n) {
        Some(cols) => Some("*\n"@ + "TABLE "@ + nat_str((901 + k) as nat) + "\n"@ + "T /BANNER "@ + t.index + "\n"@
            + "T "@ + h.0 + nat_str((n + 1) as nat) + " "@ + h.2 + "\n"@
            + "T "@ + h.1 + nat_str((n + 1) as nat) + "=="@ + "\n"@
            + format_line(n) + "C &CETOTAL;ALL;COLW 5\n"@ + cols + footer_line(lowercase(footer))),
        None => None,
    }
}

/// The UNCLE text of the first `n` tables.
pub open spec fn banner_output(ts: Seq<BannersTableModel>, tbl: Map<Seq<char>, QuestionModel>, footer: Seq<char>, n: int) -> Option<Seq<char>>
    decreases n,
{
    if n <= 0 {
        Some(Seq::empty())
    } else {
        match (banner_output(ts, tbl, footer, n - 1), table_output(n - 1, ts[n - 1], tbl, footer)) {
            (Some(a), Some(b)) => Some(a + b),
            _ => None,
        }
    }
}

/// `x` opens with the heading `*`, a line break, `TABLE ` and a decimal
/// number of value `v` ended by a line break.
pub open spec fn headed_table(x: Seq<char>, v: int) -> bool {
    exists|e: int|
        #![trigger x.subrange(8, e)]
        8 < e < x.len() && x.subrange(0, 8) == seq!['*', '\n', 'T', 'A', 'B', 'L', 'E', ' '] && x[e] == '\n'
            && all_digits(x.subrange(8, e)) && dec_value(x.subrange(8, e)) == v
}

/// Table `k` (counted from 0) is headed `TABLE 901+k`.
pub proof fn law_table_heading_number(k: int, t: BannersTableModel, tbl: Map<Seq<char>, QuestionModel>, footer: Seq<char>)
    requires
        0 <= k,
        table_output(k, t, tbl, footer) is Some,
    ensures
        headed_table(table_output(k, t, tbl, footer)->0, 901 + k),
{
    reveal_strlit("*\n");
    reveal_strlit("TABLE ");
    reveal_strlit("\n");
    let x = table_output(k, t, tbl, footer)->0;
    let d = nat_str((901 + k) as nat);
    lemma_nat_str((901 + k) as nat);
    let e = 8 + d.len() as int;
    assert(x.subrange(0, 8) =~= seq!['*', '\n', 'T', 'A', 'B', 'L', 'E', ' ']);
    assert(x.subrange(8, e) =~= d);
    assert(x[e] == '\n');
}

/// The tables of the banner output come one after another, table `n`
/// (counted from 0) headed `TABLE 901+n`: distinct tables get distinct,
/// consecutive numbers.
pub proof fn law_banner_tables_numbered(ts: Seq<BannersTableModel>, tbl: Map<Seq<char>, QuestionModel>, footer: Seq<char>, n: int)
    requires
        0 <= n,
        banner_output(ts, tbl, footer, n + 1) is Some,
    ensures
        banner_output(ts, tbl, footer, n) is Some,
        exists|b: Seq<char>|
            #[trigger] headed_table(b, 901 + n) && banner_output(ts, tbl, footer, n + 1)->0 == banner_output(ts, tbl,
                footer, n)->0 + b,
{
    let b = table_output(n, ts[n], tbl, footer)->0;
    law_table_heading_number(n, ts[n], tbl, footer);
    assert(headed_table(b, 901 + n));
}

proof fn lemma_columns_none(bs: Seq<BannerModel>, tbl: Map<Seq<char>, QuestionModel>, n: int, m: int)
    requires
        n <= m,
        columns_text(bs, tbl, n) is None,
    ensures
        columns_text(bs, tbl, m) is None,
    decreases m - n,
{
    if n < m {
        lemma_columns_none(bs, tbl, n, m - 1);
    }
}

proof fn lemma_output_none(ts: Seq<BannersTableModel>, tbl: Map<Seq<char>, QuestionModel>, f: Seq<char>, n: int, m: int)
    requires
        n <= m,
        banner_output(ts, tbl, f, n) is None,
    ensures
        banner_output(ts, tbl, f, m) is None,
    decreases m - n,
{
    if n < m {
        lemma_output_none(ts, tbl, f, n, m - 1);
    }
}

fn header_exec(bs: &Vec<crate::crosstabs::tables::Banner>) -> (r: (Vec<char>, Vec<char>, Vec<char>))
    ensures
        (r.0@, r.1@, r.2@) == header_fold(banner_models(bs@), bs.len() as int),
{
    let ghost bm = banner_models(bs@);
    let mut o: Vec<char> = Vec::new();
    let mut u: Vec<char> = Vec::new();
    let mut c: Vec<char> = Vec::new();
    let mut j: usize = 0;
    while j < bs.len()
        invariant
            j <= bs.len(),
            bm == banner_models(bs@),
            (o@, u@, c@) == header_fold(bm, j as int),
        decreases bs.len() - j,
    {
        assert(bm[j as int].title == bs@[j as int].title@);
        let t = bs[j].uncle_title();
        let tv = chars_of(t.as_str());
        let col: u128 = 2 + j as u128;
        if tv.len() > 0 {
            if c.len() > 0 {
                let n1 = u128_to_chars(col - 1);
                extend_chars(&mut o, n1.as_slice());
                push_str(&mut o, " ");
                extend_chars(&mut o, c.as_slice());
                extend_chars(&mut u, n1.as_slice());
                push_str(&mut u, "==");
            }
            let nc = u128_to_chars(col);
            push_str(&mut o, "&CC");
            extend_chars(&mut o, nc.as_slice());
            push_str(&mut o, ":");
            push_str(&mut u, "&CC");
            extend_chars(&mut u, nc.as_slice());
            push_str(&mut u, ":");
            c = tv;
        }
        j = j + 1;
    }
    (o, u, c)
}

fn columns_exec(bs: &Vec<crate::crosstabs::tables::Banner>, questions: &ahash::AHashMap<String, RflQuestion>) -> (r: Option<Vec<char>>)
    ensures
        match columns_text(banner_models(bs@), question_table(*questions), bs.len() as int) {
            Some(x) => r matches Some(y) && y@ == x,
            None => r is None,
        },
{
    let ghost bm = banner_models(bs@);
    let ghost tbl = question_table(*questions);
    let mut out: Vec<char> = Vec::new();
    let mut j: usize = 0;
    while j < bs.len()
        invariant
            j <= bs.len(),
            bm == banner_models(bs@),
            tbl == question_table(*questions),
            columns_text(bm, tbl, j as int) == Some(out@),
        decreases bs.len() - j,
    {
        assert(bm[j as int].subtitle == bs@[j as int].subtitle@);
        assert(bm[j as int].specs == bs@[j as int].specs.tree());
        let q = match bs[j].specs.try_to_uncle_syntax(questions) {
            Some(q) => q,
            None => {
                proof {
                    lemma_columns_none(bm, tbl, j + 1, bs.len() as int);
                }
                return None;
            },
        };
        let sub = bs[j].uncle_subtitle();
        push_str(&mut out, "C &CE");
        push_str(&mut out, sub.as_str());
        push_str(&mut out, ";");
        push_str(&mut out, q.as_str());
        push_str(&mut out, "\n");
        j = j + 1;
    }
    Some(out)
}

fn footer_exec(kind: &str) -> (r: &'static str)
    ensures
        r@ == footer_line(kind@),
{
    if str_eq(kind, "nbc") {
        "F &CP HART RESEARCH ASSOCIATES//PUBLIC OPINION STRATEGIES\n"
    } else if str_eq(kind, "nmb") {
        "F &CP N M B  R E S E A R C H\n"
    } else if str_eq(kind, "nbs") {
        "F &CP N E W   B R I D G E   S T R A T E G Y\n"
    } else if str_eq(kind, "r2r") {
        "F &CP R 2 R  R E S E A R C H\n"
    } else {
        "F &CP P U B L I C   O P I N I O N   S T R A T E G I E S\n"
    }
}

fn format_exec(n: usize) -> (r: &'static str)
    ensures
        r@ == format_line(n as int),
{
    proof {
        reveal_strlit("");
        reveal_strlit(" BLEED");
        reveal_strlit("\n");
        reveal_strlit("O FORMAT 27 5 1 0 PDP 0 PCTS ZCELL '-' ZPACELL '-' SZR");
        reveal_strlit("O FORMAT 27 5 1 0 PDP 0 PCTS ZCELL '-' ZPACELL '-' SZR\n");
        reveal_strlit("O FORMAT 27 5 1 0 PDP 0 PCTS ZCELL '-' ZPACELL '-' SZR BLEED\n");
    }
    if n >= 24 {
        assert("O FORMAT 27 5 1 0 PDP 0 PCTS ZCELL '-' ZPACELL '-' SZR BLEED\n"@ =~= "O FORMAT 27 5 1 0 PDP 0 PCTS ZCELL '-' ZPACELL '-' SZR"@
            + " BLEED"@ + "\n"@);
        "O FORMAT 27 5 1 0 PDP 0 PCTS ZCELL '-' ZPACELL '-' SZR BLEED\n"
    } else if n >= 22 {
        assert("O FORMAT 27 5 1 0 PDP 0 PCTS ZCELL '-' ZPACELL '-' SZR\n"@ =~= "O FORMAT 27 5 1 0 PDP 0 PCTS ZCELL '-' ZPACELL '-' SZR"@
            + ""@ + "\n"@);
        "O FORMAT 27 5 1 0 PDP 0 PCTS ZCELL '-' ZPACELL '-' SZR\n"
    } else {
        "O FORMAT 27 6 1 0 PDP 0 PCTS ZCELL '-' ZPACELL '-' SZR\n"
    }
}

fn starts_table_exec(index: &String, title: &String) -> (r: bool)
    ensures
        r == ((exists|i: int| 0 <= i < index@.len() && !is_digit(#[trigger] index@[i])) || title@ == "TITLE"@),
{
    let v = chars_of(index.as_str());
    let mut k: usize = 0;
    while k < v.len()
        invariant
            k <= v.len(),
            v@ == index@,
            forall|j: int| 0 <= j < k ==> is_digit(#[trigger] v@[j]),
        decreases v.len() - k,
    {
        if !('0' <= v[k] && v[k] <= '9') {
            assert(!is_digit(v@[k as int]));
            return true;
        }
        k = k + 1;
    }
    str_eq(title.as_str(), "TITLE")
}

impl BannersTables {
    /// The banner tables of a sheet, row by row (each row its cells as
    /// text): a row of fewer than four cells is skipped; a row whose index
    /// cell holds a non-digit, or whose title is `TITLE`, starts a table
    /// `/BANNER <digits of the index>`; a later row with a subtitle adds a
    /// banner (title, subtitle, fixed-up specs, base) to the current table.
    /// `None` where a banner's specs cut an operator inside a multi-byte
    /// character.
    pub fn from_rows(rows: &[Vec<String>]) -> (r: Option<Self>)
        ensures
            match tables_from_rows(rows_view(rows@)) {
                Some(ts) => r matches Some(b) && table_models(b.tables@) == ts,
                None => r is None,
            },
    {
        let ghost rv = rows_view(rows@);
        let mut tables: Vec<BannersTable> = Vec::new();
        let mut current: Option<BannersTable> = None;
        let mut i: usize = 0;
        assert(table_models(tables@) =~= Seq::<BannersTableModel>::empty());
        while i < rows.len()
            invariant
                i <= rows.len(),
                rv == rows_view(rows@),
                rows_fold(rv, i as int) == Some(TablesState { done: table_models(tables@), current: opt_table(current) }),
            decreases rows.len() - i,
        {
            let row = &rows[i];
            assert(rv[i as int] == cells(*row));
            let ghost cr = cells(*row);
            if row.len() < 4 {
                i = i + 1;
                continue;
            }
            assert(cr[0] == row@[0]@ && cr[1] == row@[1]@ && cr[2] == row@[2]@ && cr[3] == row@[3]@);
            let index = &row[0];
            let title = &row[1];
            let subtitle = &row[2];
            let mut specs = Self::fix_spec_format(row[3].as_str());
            let base = if row.len() >= 5 {
                assert(cr[4] == row@[4]@);
                row[4].clone()
            } else {
                proof {
                    reveal_strlit("ALL");
                }
                "ALL".to_owned()
            };
            let mut age_question = String::new();
            Self::fix_agegroups(&mut specs, subtitle.as_str(), &mut age_question);
            Self::fix_national_regions(&mut specs, subtitle.as_str());
            assert(specs@ == row_specs(cr));
            assert(base@ == row_base(cr));
            let ghost before = rows_fold(rv, i as int)->0;
            if starts_table_exec(index, title) {
                let prev = current;
                current = None;
                let ghost td = tables@;
                match prev {
                    Some(t) => {
                        tables.push(t);
                        assert(table_models(tables@) =~= table_models(td).push(t.model()));
                    },
                    None => {},
                }
                let cleaned = ascii_digits_exec(index.as_str());
                let mut tv: Vec<char> = Vec::new();
                push_str(&mut tv, "/BANNER ");
                push_str(&mut tv, cleaned.as_str());
                let ttl = string_from(tv.as_slice());
                current = Some(BannersTable::new(cleaned.as_str(), ttl.as_str()));
                assert(banner_models(current->0.banners@) =~= Seq::<BannerModel>::empty());
            } else if !subtitle.as_str().is_empty() && current.is_some() {
                match CrossTabsLogic::try_new(specs.as_str()) {
                    None => {
                        proof {
                            assert(rows_fold(rv, i + 1) is None);
                            lemma_rows_fold_none(rv, i + 1, rv.len() as int);
                        }
                        return None;
                    },
                    Some(_) => {},
                }
                let prev = current;
                current = None;
                match prev {
                    Some(mut t) => {
                        let _ = t.add_banner(title.as_str(), subtitle.as_str(), specs.as_str(), base.as_str(), "");
                        current = Some(t);
                    },
                    None => {},
                }
            }
            i = i + 1;
        }
        let prev = current;
        let ghost td = tables@;
        match prev {
            Some(t) => {
                tables.push(t);
                assert(table_models(tables@) =~= table_models(td).push(t.model()));
            },
            None => {},
        }
        assert(rv.len() == rows.len());
        Some(BannersTables { tables })
    }

    /// The UNCLE banner definitions of the tables: for table `k`, `TABLE
    /// 901+k`, its `/BANNER` title, the column headers spanning each title
    /// with its underlines, the `O FORMAT` line, the total column, a `C`
    /// line per banner (subtitle and qualification) and the footer named by
    /// `footer_type` (in any case). `None` where a banner's qualification
    /// cannot be computed within `usize` column arithmetic.
    pub fn try_generate_banner_output(&self, questions: &ahash::AHashMap<String, RflQuestion>, footer_type: &str) -> (r: Option<String>)
        ensures
            match banner_output(table_models(self.tables@), question_table(*questions), footer_type@, self.tables.len() as int) {
                Some(x) => r matches Some(y) && y@ == x,
                None => r is None,
            },
    {
        let ghost tm = table_models(self.tables@);
        let ghost tbl = question_table(*questions);
        let lf = to_lowercase(footer_type);
        let footer = footer_exec(lf.as_str());
        let mut out: Vec<char> = Vec::new();
        let mut k: usize = 0;
        while k < self.tables.len()
            invariant
                k <= self.tables.len(),
                tm == table_models(self.tables@),
                tbl == question_table(*questions),
                footer@ == footer_line(lowercase(footer_type@)),
                banner_output(tm, tbl, footer_type@, k as int) == Some(out@),
            decreases self.tables.len() - k,
        {
            let table = &self.tables[k];
            assert(tm[k as int] == table.model());
            let nb = table.banners.len();
            let (o, u, c) = header_exec(&table.banners);
            let cols = match columns_exec(&table.banners, questions) {
                Some(x) => x,
                None => {
                    proof {
                        assert(table_output(k as int, tm[k as int], tbl, footer_type@) is None);
                        lemma_output_none(tm, tbl, footer_type@, k + 1, self.tables.len() as int);
                    }
                    return None;
                },
            };
            let ghost o0 = out@;
            let num = u128_to_chars(901 + k as u128);
            let last = u128_to_chars(nb as u128 + 1);
            let mut t: Vec<char> = Vec::new();
            push_str(&mut t, "*\n");
            push_str(&mut t, "TABLE ");
            extend_chars(&mut t, num.as_slice());
            push_str(&mut t, "\n");
            push_str(&mut t, "T /BANNER ");
            push_str(&mut t, table.index.as_str());
            push_str(&mut t, "\n");
            push_str(&mut t, "T ");
            extend_chars(&mut t, o.as_slice());
            extend_chars(&mut t, last.as_slice());
            push_str(&mut t, " ");
            extend_chars(&mut t, c.as_slice());
            push_str(&mut t, "\n");
            push_str(&mut t, "T ");
            extend_chars(&mut t, u.as_slice());
            extend_chars(&mut t, last.as_slice());
            push_str(&mut t, "==");
            push_str(&mut t, "\n");
            push_str(&mut t, format_exec(nb));
            push_str(&mut t, "C &CETOTAL;ALL;COLW 5\n");
            extend_chars(&mut t, cols.as_slice());
            push_str(&mut t, footer);
            assert(banner_models(table.banners@).len() == nb);
            assert(table_output(k as int, tm[k as int], tbl, footer_type@) == Some(t@));
            extend_chars(&mut out, t.as_slice());
            k = k + 1;
        }
        Some(string_from(out.as_slice()))
    }

    /// [`BannersTables::try_generate_banner_output`], on tables whose
    /// qualifications can all be computed; it never returns an error.
    pub fn generate_banner_output(&self, questions: &ahash::AHashMap<String, RflQuestion>, footer_type: &str) -> (r: Result<String, crate::crosstabs::logic::CrossTabsError>)
        requires
            banner_output(table_models(self.tables@), question_table(*questions), footer_type@, self.tables.len() as int) is Some,
        ensures
            r matches Ok(y) && y@ == banner_output(table_models(self.tables@), question_table(*questions), footer_type@,
                self.tables.len() as int)->0,
    {
        Ok(self.try_generate_banner_output(questions, footer_type).unwrap())
    }

    /// `input` with each standalone occurrence of `word` (one not inside a
    /// longer run of ASCII letters and digits) replaced by `replacement`.
    pub fn replace_whole_word(input: &str, word: &str, replacement: &str) -> (r: String)
        requires
            word@.len() > 0,
        ensures
            r@ == replace_whole(input@, word@, replacement@),
    {
        let w = chars_of(word);
        let rep = chars_of(replacement);
        let v = chars_of(input);
        let mut out: Vec<char> = Vec::new();
        let mut i: usize = 0;
        loop
            invariant
                w@ == word@,
                rep@ == replacement@,
                v@ == input@,
                w@.len() > 0,
                i <= v.len(),
                out@ + replace_from(v@, w@, rep@, i as int) == replace_whole(input@, word@, replacement@),
            decreases v.len() - i,
        {
            match find_seq_from_exec(&v, w.as_slice(), i) {
                Some(pos) => {
                    proof {
                        lemma_find_seq_from(v@, w@, i as int);
                    }
                    let after = pos + w.len();
                    let before_ok = pos == 0 || !ascii_alnum(v[pos - 1]);
                    let after_ok = after >= v.len() || !ascii_alnum(v[after]);
                    let ghost o = out@;
                    if before_ok && after_ok {
                        let head = sub_chars(&v, i, pos);
                        extend_chars(&mut out, head.as_slice());
                        extend_chars(&mut out, rep.as_slice());
                        assert(out@ + replace_from(v@, w@, rep@, after as int) =~= o + (v@.subrange(i as int, pos as int)
                            + rep@ + replace_from(v@, w@, rep@, after as int)));
                    } else {
                        let head = sub_chars(&v, i, after);
                        extend_chars(&mut out, head.as_slice());
                        assert(out@ + replace_from(v@, w@, rep@, after as int) =~= o + (v@.subrange(i as int, after as int)
                            + replace_from(v@, w@, rep@, after as int)));
                    }
                    i = after;
                },
                None => {
                    let tail = sub_chars(&v, i, v.len());
                    assert(tail@ =~= v@.skip(i as int));
                    extend_chars(&mut out, tail.as_slice());
                    return string_from(out.as_slice());
                },
            }
        }
    }

    /// Where the subtitle names an age band, standalone `D1` (and then
    /// `AGE`) in the specs become that band's age-group specs, unless the
    /// specs already test `AGEGROUP:`. `age_question` ends as the last name
    /// tried.
    pub fn fix_agegroups(specs: &mut String, subtitle: &str, age_question: &mut String)
        ensures
            final(specs)@ == agegroups_fixed(old(specs)@, subtitle@),
            final(age_question)@ == "AGE"@,
    {
        proof {
            reveal_strlit("D1");
            reveal_strlit("AGE");
        }
        let sub = chars_of(subtitle);
        *age_question = "D1".to_owned();
        let s1 = age_pass(specs, &sub, "D1");
        *age_question = "AGE".to_owned();
        let s2 = age_pass(&s1, &sub, "AGE");
        *specs = s2;
    }

    /// Append the state codes of the national region that the subtitle
    /// names, if it names one.
    pub fn fix_national_regions(specs: &mut String, subtitle: &str)
        ensures
            final(specs)@ == old(specs)@ + region_spec(subtitle@),
    {
        let region = region_spec_exec(subtitle);
        let rv = chars_of(region);
        if rv.len() > 0 {
            let mut v = chars_of(specs.as_str());
            extend_chars(&mut v, rv.as_slice());
            *specs = string_from(v.as_slice());
        } else {
            assert(old(specs)@ + rv@ =~= old(specs)@);
        }
    }

    /// The specs trimmed, with `:` put before the final digits of a spec
    /// that ends in letters, digits, letters and digits: `D2B2` becomes
    /// `D2B:2`, `Q1A1` becomes `Q1A:1`.
    pub fn fix_spec_format(spec: &str) -> (r: String)
        ensures
            r@ == spec_format(spec@),
    {
        let v = chars_of(spec);
        let t = trim_chars(&v);
        let d = run_start(&t, t.len(), false);
        let l = run_start(&t, d, true);
        let e = run_start(&t, l, false);
        if d < t.len() && l < d && e < l && 0 < e && (('a' <= t[e - 1] && t[e - 1] <= 'z') || ('A' <= t[e - 1]
            && t[e - 1] <= 'Z')) {
            let mut out = sub_chars(&t, 0, d);
            out.push(':');
            let tail = sub_chars(&t, d, t.len());
            extend_chars(&mut out, tail.as_slice());
            assert(out@ =~= t@.take(d as int) + seq![':'] + t@.skip(d as int));
            string_from(out.as_slice())
        } else {
            string_from(t.as_slice())
        }
    }
}

fn age_pass(specs: &String, sub: &Vec<char>, part: &str) -> (r: String)
    requires
        part@.len() > 0,
    ensures
        r@ == age_step(specs@, sub@, part@),
{
    let sv = chars_of(specs.as_str());
    if contains_lit(&sv, "AGEGROUP:") {
        return specs.clone();
    }
    match age_replacement_exec(sub) {
        Some(rep) => BannersTables::replace_whole_word(specs.as_str(), part, rep),
        None => specs.clone(),
    }
}

} // verus!
