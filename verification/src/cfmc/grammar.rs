//! What parsing a CFMC expression yields, stated over character sequences.
//!
//! Results are `Option<Result<..>>`: `None` marks an input on which parsing
//! cannot complete (a slice that would cut a character or run past the
//! text, or a nested operand that is not shorter than the text it came
//! from).

use vstd::prelude::*;
use vstd::utf8::encode_utf8;

use crate::cfmc::tree::{op_debug, op_len, precedence, CfmcOperator, CfmcTree};
use crate::text::{
    all_digits, char_is_alphabetic, char_is_alphanumeric, char_is_whitespace, find_char, find_seq,
    is_ascii_alnum, is_digit, nat_str, occurs_at, parse_unsigned, trim_ws, uppercase,
    lemma_find_char_from, split_char,
};
use crate::weight::utf8_prefix_len;

verus! {

/// Number of UTF-8 bytes of `s`.
pub open spec fn byte_len(s: Seq<char>) -> int {
    encode_utf8(s).len() as int
}

// ---------------------------------------------------------------------------
// Balance check
// ---------------------------------------------------------------------------

/// State of the balance check: open parentheses, open brackets, inside
/// quotes, the text kept so far, the warnings so far.
pub struct BalanceState {
    pub paren: nat,
    pub bracket: nat,
    pub in_quotes: bool,
    pub cleaned: Seq<char>,
    pub warnings: Seq<Seq<char>>,
}

pub open spec fn stray_warning(kind: Seq<char>, c: char, pos: int, e: Seq<char>) -> Seq<char> {
    "Unbalanced "@ + kind + ": stray '"@ + seq![c] + "' at position "@ + nat_str(pos as nat) + " in `"@ + e
        + "` (ignored)"@
}

/// The balance check after the characters `e[..j]`.
pub open spec fn balance_scan(e: Seq<char>, j: int) -> BalanceState
    decreases j,
{
    if j <= 0 || j > e.len() {
        BalanceState { paren: 0, bracket: 0, in_quotes: false, cleaned: Seq::empty(), warnings: Seq::empty() }
    } else {
        let st = balance_scan(e, j - 1);
        let c = e[j - 1];
        if c == '"' {
            BalanceState { in_quotes: !st.in_quotes, cleaned: st.cleaned.push(c), ..st }
        } else if c == '(' && !st.in_quotes {
            BalanceState { paren: st.paren + 1, cleaned: st.cleaned.push(c), ..st }
        } else if c == ')' && !st.in_quotes {
            if st.paren == 0 {
                BalanceState {
                    warnings: st.warnings.push(stray_warning("parentheses"@, ')', utf8_prefix_len(e, j - 1), e)),
                    ..st
                }
            } else {
                BalanceState { paren: (st.paren - 1) as nat, cleaned: st.cleaned.push(c), ..st }
            }
        } else if c == '[' && !st.in_quotes {
            BalanceState { bracket: st.bracket + 1, cleaned: st.cleaned.push(c), ..st }
        } else if c == ']' && !st.in_quotes {
            if st.bracket == 0 {
                BalanceState {
                    warnings: st.warnings.push(stray_warning("brackets"@, ']', utf8_prefix_len(e, j - 1), e)),
                    ..st
                }
            } else {
                BalanceState { bracket: (st.bracket - 1) as nat, cleaned: st.cleaned.push(c), ..st }
            }
        } else {
            BalanceState { cleaned: st.cleaned.push(c), ..st }
        }
    }
}

/// The balance check: stray closing `)` / `]` are dropped and reported;
/// unclosed `(`, `[` or `"` are errors.
pub open spec fn check_balance_spec(e: Seq<char>) -> Result<(Seq<char>, Seq<Seq<char>>), Seq<char>> {
    let st = balance_scan(e, e.len() as int);
    if st.paren > 0 {
        Err("Unbalanced parentheses: "@ + nat_str(st.paren) + " unclosed '(' in `"@ + e + "`"@)
    } else if st.bracket > 0 {
        Err("Unbalanced brackets: "@ + nat_str(st.bracket) + " unclosed '[' in `"@ + e + "`"@)
    } else if st.in_quotes {
        Err("Unclosed quote in `"@ + e + "`"@)
    } else {
        Ok((st.cleaned, st.warnings))
    }
}

proof fn lemma_balance_scan_lengths(e: Seq<char>, j: int)
    requires
        0 <= j <= e.len(),
    ensures
        balance_scan(e, j).cleaned.len() + balance_scan(e, j).warnings.len() == j,
        balance_scan(e, j).warnings.len() == 0 ==> balance_scan(e, j).cleaned == e.take(j),
    decreases j,
{
    if j > 0 {
        lemma_balance_scan_lengths(e, j - 1);
        assert(e.take(j - 1).push(e[j - 1]) =~= e.take(j));
    } else {
        assert(e.take(0) =~= Seq::<char>::empty());
    }
}

/// The balance check drops only what it warns about: the text it keeps and
/// its warnings together account for every character, and where it warns
/// about nothing the text comes back unchanged.
pub proof fn law_balance_keeps_text(e: Seq<char>)
    ensures
        match check_balance_spec(e) {
            Ok((c, w)) => c.len() + w.len() == e.len() && (w.len() == 0 ==> c == e),
            Err(_) => true,
        },
{
    lemma_balance_scan_lengths(e, e.len() as int);
    assert(e.take(e.len() as int) =~= e);
}

proof fn lemma_balance_prefix(e: Seq<char>, j: int, k: int)
    requires
        0 <= j <= k <= e.len(),
    ensures
        balance_scan(e, j).cleaned.len() <= balance_scan(e, k).cleaned.len(),
        balance_scan(e, k).cleaned.take(balance_scan(e, j).cleaned.len() as int) == balance_scan(e, j).cleaned,
    decreases k - j,
{
    if j < k {
        lemma_balance_prefix(e, j, k - 1);
        let a = balance_scan(e, j).cleaned;
        let b = balance_scan(e, k - 1).cleaned;
        let c = balance_scan(e, k).cleaned;
        if c.len() > b.len() {
            assert(c =~= b.push(e[k - 1]));
            assert(c.take(a.len() as int) =~= b.take(a.len() as int));
        }
    } else {
        assert(balance_scan(e, j).cleaned.take(balance_scan(e, j).cleaned.len() as int) =~= balance_scan(e, j).cleaned);
    }
}

/// Scanning the final kept text up to the part kept after `e[..j]` ends in
/// the same counts as scanning `e[..j]`, keeps everything and warns about
/// nothing.
proof fn lemma_balance_rescan(e: Seq<char>, j: int)
    requires
        0 <= j <= e.len(),
    ensures
        ({
            let c = balance_scan(e, e.len() as int).cleaned;
            let st = balance_scan(e, j);
            let m = st.cleaned.len() as int;
            let r = balance_scan(c, m);
            &&& m <= c.len()
            &&& r.paren == st.paren
            &&& r.bracket == st.bracket
            &&& r.in_quotes == st.in_quotes
            &&& r.cleaned == st.cleaned
            &&& r.warnings.len() == 0
        }),
    decreases j,
{
    let c = balance_scan(e, e.len() as int).cleaned;
    lemma_balance_prefix(e, j, e.len() as int);
    if j > 0 {
        lemma_balance_rescan(e, j - 1);
        let st0 = balance_scan(e, j - 1);
        let st = balance_scan(e, j);
        let m0 = st0.cleaned.len() as int;
        if st.cleaned.len() > st0.cleaned.len() {
            assert(st.cleaned =~= st0.cleaned.push(e[j - 1]));
            assert(c.take(m0 + 1) == st.cleaned);
            assert(c[m0] == c.take(m0 + 1)[m0]);
            assert(c[m0] == e[j - 1]);
        }
    }
}

/// Stray closers are recoverable: the text the balance check keeps passes
/// the check again unchanged and without warnings, so an expression parses
/// exactly as its kept text does.
pub proof fn law_stray_closers_recoverable(e: Seq<char>)
    ensures
        match check_balance_spec(e) {
            Ok((c, _)) => check_balance_spec(c) == Ok::<(Seq<char>, Seq<Seq<char>>), Seq<char>>((c, Seq::empty()))
                && logic_parse(c) == logic_parse(e),
            Err(_) => true,
        },
{
    lemma_balance_rescan(e, e.len() as int);
    let c = balance_scan(e, e.len() as int).cleaned;
    assert(balance_scan(c, c.len() as int).warnings =~= Seq::<Seq<char>>::empty());
}

/// Number of double quotes among `e[..j]`.
pub open spec fn quote_count(e: Seq<char>, j: int) -> nat {
    e.take(j).filter(|x: char| x == '"').len()
}

/// Whether a double quote is open after `e[..j]`: an odd number of them.
pub open spec fn quote_open(e: Seq<char>, j: int) -> bool {
    quote_count(e, j) % 2 == 1
}

/// Number of `open` minus number of `close` among `e[..j]`, counting only
/// characters outside double quotes.
pub open spec fn net_count(e: Seq<char>, j: int, open: char, close: char) -> int
    decreases j,
{
    if j <= 0 || j > e.len() {
        0
    } else {
        let prev = net_count(e, j - 1, open, close);
        if quote_open(e, j - 1) {
            prev
        } else if e[j - 1] == open {
            prev + 1
        } else if e[j - 1] == close {
            prev - 1
        } else {
            prev
        }
    }
}

/// The lowest value `net_count` takes on the prefixes `e[..i]`, `i <= j`
/// (the empty prefix counts, so it is never above zero).
pub open spec fn net_low(e: Seq<char>, j: int, open: char, close: char) -> int
    decreases j,
{
    if j <= 0 || j > e.len() {
        0
    } else {
        let a = net_low(e, j - 1, open, close);
        let b = net_count(e, j, open, close);
        if b < a { b } else { a }
    }
}

/// Whether the character at `i` is a stray closer: a `)` outside quotes
/// that takes the parenthesis difference to a new low below zero, or such a
/// `]` for brackets.
pub open spec fn stray_at(e: Seq<char>, i: int) -> bool {
    &&& !quote_open(e, i)
    &&& ((e[i] == ')' && net_count(e, i + 1, '(', ')') < net_low(e, i, '(', ')'))
        || (e[i] == ']' && net_count(e, i + 1, '[', ']') < net_low(e, i, '[', ']')))
}

/// The characters of `e[..j]` that are not stray closers, in order.
pub open spec fn without_strays(e: Seq<char>, j: int) -> Seq<char>
    decreases j,
{
    if j <= 0 || j > e.len() {
        Seq::empty()
    } else if stray_at(e, j - 1) {
        without_strays(e, j - 1)
    } else {
        without_strays(e, j - 1).push(e[j - 1])
    }
}

proof fn lemma_quote_step(e: Seq<char>, j: int)
    requires
        0 < j <= e.len(),
    ensures
        quote_count(e, j) == quote_count(e, j - 1) + (if e[j - 1] == '"' { 1int } else { 0int }),
{
    reveal(Seq::filter);
    assert(e.take(j).drop_last() =~= e.take(j - 1));
    assert(e.take(j).last() == e[j - 1]);
}

proof fn lemma_balance_counts(e: Seq<char>, j: int)
    requires
        0 <= j <= e.len(),
    ensures
        balance_scan(e, j).in_quotes == quote_open(e, j),
        net_low(e, j, '(', ')') <= 0,
        net_low(e, j, '(', ')') <= net_count(e, j, '(', ')'),
        net_low(e, j, '[', ']') <= 0,
        net_low(e, j, '[', ']') <= net_count(e, j, '[', ']'),
        balance_scan(e, j).paren == net_count(e, j, '(', ')') - net_low(e, j, '(', ')'),
        balance_scan(e, j).bracket == net_count(e, j, '[', ']') - net_low(e, j, '[', ']'),
        balance_scan(e, j).warnings.len() == -net_low(e, j, '(', ')') - net_low(e, j, '[', ']'),
        balance_scan(e, j).cleaned == without_strays(e, j),
    decreases j,
{
    if j > 0 {
        lemma_balance_counts(e, j - 1);
        lemma_quote_step(e, j);
    } else {
        assert(e.take(0) =~= Seq::<char>::empty());
        reveal(Seq::filter);
    }
}

/// What the balance check counts. A double quote is left open when the
/// input holds an odd number of them. Outside quotes, the parentheses left
/// open are the opening ones less the closing ones, less the lowest that
/// difference sank to on any prefix (each step to a new low below zero is a
/// stray `)`, dropped with a warning); likewise the brackets. So the check
/// fails exactly when a quote is left open or some `(` or `[` is never
/// closed; on success the text kept is the input without its stray
/// closers; and an input whose every prefix closes no more than it opened,
/// and which closes all it opens, comes back unchanged with no warnings.
pub proof fn law_balance_counts(e: Seq<char>)
    ensures
        ({
            let st = balance_scan(e, e.len() as int);
            let n = e.len() as int;
            &&& st.in_quotes == quote_open(e, n)
            &&& st.paren == net_count(e, n, '(', ')') - net_low(e, n, '(', ')')
            &&& st.bracket == net_count(e, n, '[', ']') - net_low(e, n, '[', ']')
            &&& st.warnings.len() == -net_low(e, n, '(', ')') - net_low(e, n, '[', ']')
        }),
        check_balance_spec(e) matches Ok((c, _)) ==> c == without_strays(e, e.len() as int),
        check_balance_spec(e) is Err <==> (quote_open(e, e.len() as int)
            || net_count(e, e.len() as int, '(', ')') > net_low(e, e.len() as int, '(', ')')
            || net_count(e, e.len() as int, '[', ']') > net_low(e, e.len() as int, '[', ']')),
        (!quote_open(e, e.len() as int) && net_count(e, e.len() as int, '(', ')') == 0
            && net_low(e, e.len() as int, '(', ')') == 0 && net_count(e, e.len() as int, '[', ']') == 0
            && net_low(e, e.len() as int, '[', ']') == 0) ==> check_balance_spec(e) == Ok::<
            (Seq<char>, Seq<Seq<char>>),
            Seq<char>,
        >((e, Seq::empty())),
{
    lemma_balance_counts(e, e.len() as int);
    lemma_balance_scan_lengths(e, e.len() as int);
    assert(e.take(e.len() as int) =~= e);
    let st = balance_scan(e, e.len() as int);
    if st.warnings.len() == 0 {
        assert(st.warnings =~= Seq::<Seq<char>>::empty());
    }
}

// ---------------------------------------------------------------------------
// Trimming
// ---------------------------------------------------------------------------

/// Scan of `s[j..]` for an outer pair `open`/`close`: `false` when the level
/// returns to zero at a position before `blen - 1` (the pair does not wrap
/// the whole text); the level reached otherwise.
pub open spec fn strip_scan(s: Seq<char>, open: char, close: char, j: int, level: int, blen: int) -> (bool, int)
    decreases s.len() - j,
{
    if j < 0 || j >= s.len() {
        (true, level)
    } else if s[j] == open {
        strip_scan(s, open, close, j + 1, level + 1, blen)
    } else if s[j] == close {
        if level - 1 == 0 && j < blen - 1 {
            (false, level - 1)
        } else {
            strip_scan(s, open, close, j + 1, level - 1, blen)
        }
    } else {
        strip_scan(s, open, close, j + 1, level, blen)
    }
}

/// Whether a pair `open .. close` around `t` may be removed. The position of
/// each character is compared with the text's length in bytes.
pub open spec fn removable(t: Seq<char>, open: char, close: char) -> bool {
    let r = strip_scan(t, open, close, 0, 0, byte_len(t));
    r.0 && r.1 == 0
}

/// Outer parentheses removed, layer by layer.
pub open spec fn strip_parens(t: Seq<char>) -> Seq<char>
    decreases t.len(),
{
    if t.len() >= 2 && t[0] == '(' && t.last() == ')' && removable(t, '(', ')') {
        strip_parens(t.subrange(1, t.len() - 1))
    } else {
        t
    }
}

/// Whether `inner` is a punch reference `LOC^codes` / `LOC^^codes` (not a
/// blank check `LOC^^B` / `LOC^^NB`).
pub open spec fn is_punch_body(inner: Seq<char>) -> bool {
    match find_char(inner, '^') {
        Some(c) => {
            let after = if occurs_at(inner, "^^"@, c) {
                inner.subrange(c + 2, inner.len() as int)
            } else {
                inner.subrange(c + 1, inner.len() as int)
            };
            after != "B"@ && after != "NB"@
        },
        None => false,
    }
}

/// Outer brackets removed, layer by layer, unless they hold a punch reference.
pub open spec fn strip_brackets(t: Seq<char>) -> Seq<char>
    decreases t.len(),
{
    if t.len() >= 2 && t[0] == '[' && t.last() == ']' && !is_punch_body(t.subrange(1, t.len() - 1))
        && removable(t, '[', ']') {
        strip_brackets(t.subrange(1, t.len() - 1))
    } else {
        t
    }
}

/// Trimmed, upper-cased, without wrapping parentheses and brackets and
/// without one trailing `$`.
pub open spec fn trim_expression_spec(e: Seq<char>) -> Seq<char> {
    let t = strip_brackets(strip_parens(uppercase(trim_ws(e))));
    if t.len() > 0 && t.last() == '$' {
        t.drop_last()
    } else {
        t
    }
}

// ---------------------------------------------------------------------------
// Operators
// ---------------------------------------------------------------------------

/// Keyword `kw` at `pos`, not followed by an ASCII letter or digit.
pub open spec fn keyword_at(s: Seq<char>, pos: int, kw: Seq<char>) -> bool {
    occurs_at(s, kw, pos) && !(pos + kw.len() < s.len() && is_ascii_alnum(s[pos + kw.len()]))
}

/// The operator token at `pos`, if any, and its length.
pub open spec fn operator_at(s: Seq<char>, pos: int) -> Option<(CfmcOperator, int)> {
    if pos < 0 || pos >= s.len() {
        None
    } else {
        let lb = pos == 0 || !is_ascii_alnum(s[pos - 1]);
        if lb && keyword_at(s, pos, "NUMITEMS"@) {
            Some((CfmcOperator::NumItems, 8))
        } else if occurs_at(s, "^^NB"@, pos) {
            Some((CfmcOperator::IsNotBlank, 4))
        } else if lb && keyword_at(s, pos, "NOT"@) {
            Some((CfmcOperator::Not, 3))
        } else if lb && keyword_at(s, pos, "AND"@) {
            Some((CfmcOperator::And, 3))
        } else if occurs_at(s, "^^B"@, pos) {
            Some((CfmcOperator::IsBlank, 3))
        } else if occurs_at(s, "<="@, pos) {
            Some((CfmcOperator::LessEqual, 2))
        } else if occurs_at(s, ">="@, pos) {
            Some((CfmcOperator::GreaterEqual, 2))
        } else if occurs_at(s, "<>"@, pos) {
            Some((CfmcOperator::NotEqual, 2))
        } else if lb && keyword_at(s, pos, "OR"@) {
            Some((CfmcOperator::Or, 2))
        } else {
            let c = s[pos];
            if c == '<' {
                Some((CfmcOperator::Less, 1))
            } else if c == '>' {
                Some((CfmcOperator::Greater, 1))
            } else if c == '=' || c == '$' || c == '#' {
                Some((CfmcOperator::Equal, 1))
            } else if c == '+' {
                Some((CfmcOperator::Plus, 1))
            } else if c == '*' {
                Some((CfmcOperator::Multiply, 1))
            } else if c == '/' {
                Some((CfmcOperator::Divide, 1))
            } else if c == ',' {
                Some((CfmcOperator::Comma, 1))
            } else if c == '-' {
                Some((CfmcOperator::Dash, 1))
            } else {
                None
            }
        }
    }
}

pub proof fn lemma_operator_at_len(s: Seq<char>, pos: int)
    ensures
        operator_at(s, pos) matches Some((op, len)) ==> 1 <= len && pos + len <= s.len() && len == op_len(op),
{
    reveal_strlit("NUMITEMS");
    reveal_strlit("^^NB");
    reveal_strlit("NOT");
    reveal_strlit("AND");
    reveal_strlit("^^B");
    reveal_strlit("<=");
    reveal_strlit(">=");
    reveal_strlit("<>");
    reveal_strlit("OR");
}

/// The word operators `AND`, `OR`, `NOT` and `NUMITEMS` are found only as
/// whole words: never inside a label such as `ANDERSON` or `NUMITEMSX`.
pub proof fn law_word_operators_whole_words(s: Seq<char>, pos: int)
    ensures
        match operator_at(s, pos) {
            Some((op, len)) => (op is And || op is Or || op is Not || op is NumItems) ==> {
                &&& pos == 0 || !is_ascii_alnum(s[pos - 1])
                &&& pos + len == s.len() || !is_ascii_alnum(s[pos + len])
            },
            None => true,
        },
{
    lemma_operator_at_len(s, pos);
    reveal_strlit("NUMITEMS");
    reveal_strlit("NOT");
    reveal_strlit("AND");
    reveal_strlit("OR");
}

/// State of the scan for the main operator at position `i`.
pub struct OpScan {
    pub level: nat,
    pub bracket: nat,
    pub in_quotes: bool,
    pub lowest: nat,
    pub best: Option<(CfmcOperator, int)>,
}

/// Level bookkeeping for the character at `i`.
pub open spec fn scan_step(st: OpScan, c: char) -> OpScan {
    if c == '"' {
        OpScan { in_quotes: !st.in_quotes, ..st }
    } else if c == '(' && !st.in_quotes {
        OpScan { level: st.level + 1, ..st }
    } else if c == ')' && !st.in_quotes {
        OpScan { level: if st.level == 0 { 0 } else { (st.level - 1) as nat }, ..st }
    } else if c == '[' && !st.in_quotes {
        OpScan { bracket: st.bracket + 1, ..st }
    } else if c == ']' && !st.in_quotes {
        OpScan { bracket: if st.bracket == 0 { 0 } else { (st.bracket - 1) as nat }, ..st }
    } else {
        st
    }
}

/// The scan from position `i` on: the lowest-precedence top-level operator
/// (the last one among equals).
pub open spec fn main_op_scan(s: Seq<char>, i: int, st: OpScan) -> Option<(CfmcOperator, int)>
    decreases s.len() - i,
{
    if i < 0 || i >= s.len() {
        st.best
    } else {
        let st2 = scan_step(st, s[i]);
        if !st2.in_quotes && st2.level == 0 && st2.bracket == 0 {
            match operator_at(s, i) {
                Some((op, len)) => {
                    let st3 = if precedence(op) <= st2.lowest {
                        OpScan { lowest: precedence(op), best: Some((op, i)), ..st2 }
                    } else {
                        st2
                    };
                    if len >= 1 && i + len <= s.len() {
                        main_op_scan(s, i + len, st3)
                    } else {
                        st3.best
                    }
                },
                None => main_op_scan(s, i + 1, st2),
            }
        } else {
            main_op_scan(s, i + 1, st2)
        }
    }
}

pub open spec fn main_operator(s: Seq<char>) -> Option<(CfmcOperator, int)> {
    main_op_scan(s, 0, OpScan { level: 0, bracket: 0, in_quotes: false, lowest: 255, best: None })
}

// ---------------------------------------------------------------------------
// Leaves, punch codes, column references
// ---------------------------------------------------------------------------

/// A leaf: a quoted literal, a label (a letter, then letters, digits and
/// `_`), or a literal; one pair of wrapping parentheses is dropped.
pub open spec fn leaf(t: Seq<char>) -> Option<CfmcTree> {
    if t.len() > 0 && t[0] == '"' && t.last() == '"' {
        if t.len() < 2 {
            None
        } else {
            Some(CfmcTree::Literal(t.subrange(1, t.len() - 1)))
        }
    } else {
        let c = unwrap_parens(t);
        if is_label(c) {
            Some(CfmcTree::QuestionLabel(c))
        } else {
            Some(CfmcTree::Literal(c))
        }
    }
}

/// `t` without one pair of wrapping parentheses.
pub open spec fn unwrap_parens(t: Seq<char>) -> Seq<char> {
    if t.len() >= 2 && t[0] == '(' && t.last() == ')' {
        t.subrange(1, t.len() - 1)
    } else {
        t
    }
}

/// A question label: a letter, then letters, digits and `_`.
pub open spec fn is_label(c: Seq<char>) -> bool {
    c.len() > 0 && char_is_alphabetic(c[0]) && (forall|j: int|
        0 <= j < c.len() ==> char_is_alphanumeric(#[trigger] c[j]) || c[j] == '_')
}

/// One punch code: `X` is 11, `Y` is 12, a number 0..=255 stands for itself
/// (0 for 10).
pub open spec fn single_code(s: Seq<char>) -> Result<u8, Seq<char>> {
    if s == "X"@ {
        Ok(11u8)
    } else if s == "Y"@ {
        Ok(12u8)
    } else {
        match parse_unsigned(s, 255) {
            Some(n) => Ok(if n == 0 { 10u8 } else { n as u8 }),
            None => Err("Invalid punch code: "@ + s),
        }
    }
}

/// Codes `a..=b`.
pub open spec fn code_span(a: u8, b: u8) -> Seq<u8> {
    Seq::new(if b >= a { (b - a + 1) as nat } else { 0 }, |i: int| (a + i) as u8)
}

/// Codes of one comma-separated part: a code, or a range `a-b` / `a.b`.
pub open spec fn part_codes(part: Seq<char>) -> Result<Seq<u8>, Seq<char>> {
    let p = trim_ws(part);
    if p.len() == 0 {
        Ok(Seq::empty())
    } else {
        let sep = match find_char(p, '-') {
            Some(k) => Some(k),
            None => find_char(p, '.'),
        };
        match sep {
            Some(k) => match single_code(trim_ws(p.take(k))) {
                Ok(a) => match single_code(trim_ws(p.skip(k + 1))) {
                    Ok(b) => Ok(code_span(a, b)),
                    Err(e) => Err(e),
                },
                Err(e) => Err(e),
            },
            None => match single_code(p) {
                Ok(c) => Ok(seq![c]),
                Err(e) => Err(e),
            },
        }
    }
}

/// Codes of all parts, in order; the first part in error decides.
pub open spec fn punch_codes(parts: Seq<Seq<char>>) -> Result<Seq<u8>, Seq<char>>
    decreases parts.len(),
{
    if parts.len() == 0 {
        Ok(Seq::empty())
    } else {
        match part_codes(parts[0]) {
            Ok(c) => match punch_codes(parts.drop_first()) {
                Ok(r) => Ok(c + r),
                Err(e) => Err(e),
            },
            Err(e) => Err(e),
        }
    }
}

/// A column reference `col.width` or `col` inside brackets.
pub open spec fn column_ref(inner: Seq<char>) -> Option<CfmcTree> {
    match find_char(inner, '.') {
        Some(k) => match (parse_unsigned(inner.take(k), usize::MAX as int), parse_unsigned(inner.skip(k + 1), usize::MAX as int)) {
            (Some(c), Some(w)) => Some(CfmcTree::ColumnRef { col: c as usize, width: w as usize }),
            _ => None,
        },
        None => if inner.len() > 0 && all_digits(inner) {
            match parse_unsigned(inner, usize::MAX as int) {
                Some(c) => Some(CfmcTree::ColumnRef { col: c as usize, width: 1 }),
                None => None,
            }
        } else {
            None
        },
    }
}

pub open spec fn is_known_function(name: Seq<char>) -> bool {
    name == "X"@ || name == "XF"@ || name == "CHECKTEXT"@ || name == "NUMRESP"@ || name == "NUMBER_OF_RESPONSES"@
}

pub open spec fn has_whitespace(s: Seq<char>) -> bool {
    exists|j: int| 0 <= j < s.len() && char_is_whitespace(#[trigger] s[j])
}

/// A postfix blank-check operand `col.width` is read as `[col.width]`.
pub open spec fn blank_operand(ot: Seq<char>) -> Seq<char> {
    if find_char(ot, '.') is Some && (forall|j: int| 0 <= j < ot.len() ==> is_digit(#[trigger] ot[j]) || ot[j] == '.') {
        "["@ + ot + "]"@
    } else {
        ot
    }
}

// ---------------------------------------------------------------------------
// Parsing
// ---------------------------------------------------------------------------

/// Parse `t`, which must be shorter than `limit`.
pub open spec fn sub_parse(t: Seq<char>, limit: int) -> Option<Result<CfmcTree, Seq<char>>>
    decreases limit, 0int,
{
    if 0 <= t.len() < limit {
        cfmc_parse(t)
    } else {
        None
    }
}

/// A punch reference `LOC^codes`, `LOC^^codes` or `LOC^^Ncodes` (inside the
/// brackets); `Ok(None)` when `inner` is not one.
pub open spec fn punch_ref(inner: Seq<char>, limit: int) -> Option<Result<Option<CfmcTree>, Seq<char>>>
    decreases limit, 2int,
{
    let head: Option<(int, bool)> = match find_seq(inner, "^^"@) {
        Some(pos) => {
            let after = inner.subrange(pos + 2, inner.len() as int);
            if after == "B"@ || after == "NB"@ {
                None
            } else {
                Some((pos, true))
            }
        },
        None => match find_char(inner, '^') {
            Some(pos) => Some((pos, false)),
            None => None,
        },
    };
    match head {
        None => Some(Ok(None)),
        Some((pos, multi)) => {
            let loc = inner.take(pos);
            let codes_str = inner.skip(pos + if multi { 2int } else { 1int });
            match sub_parse("["@ + loc + "]"@, limit) {
                None => None,
                Some(Err(e)) => Some(Err(e)),
                Some(Ok(location)) => {
                    let negated = codes_str.len() > 0 && codes_str[0] == 'N';
                    let cs = if negated { codes_str.drop_first() } else { codes_str };
                    match punch_codes(split_char(cs, ',')) {
                        Ok(codes) => Some(Ok(Some(CfmcTree::PunchRef {
                            location: Box::new(location),
                            codes,
                            multi_col: multi,
                            negated,
                        }))),
                        Err(e) => Some(Err(e)),
                    }
                },
            }
        },
    }
}

/// `op` applied to the result of parsing an operand.
pub open spec fn unary_of(op: CfmcOperator, r: Option<Result<CfmcTree, Seq<char>>>) -> Option<Result<CfmcTree, Seq<char>>> {
    match r {
        None => None,
        Some(Err(e)) => Some(Err(e)),
        Some(Ok(x)) => Some(Ok(CfmcTree::Unary { operator: op, operand: Box::new(x) })),
    }
}

/// `op` applied to the results of parsing two operands (the left one first).
pub open spec fn binary_of(op: CfmcOperator, l: Option<Result<CfmcTree, Seq<char>>>, r: Option<Result<CfmcTree, Seq<char>>>) -> Option<Result<CfmcTree, Seq<char>>> {
    match l {
        None => None,
        Some(Err(e)) => Some(Err(e)),
        Some(Ok(a)) => match r {
            None => None,
            Some(Err(e)) => Some(Err(e)),
            Some(Ok(b)) => Some(Ok(CfmcTree::Binary { operator: op, left: Box::new(a), right: Box::new(b) })),
        },
    }
}

/// Parsing the trimmed text `t` of an argument of length `limit`.
pub open spec fn parse_trimmed(limit: int, t: Seq<char>) -> Option<Result<CfmcTree, Seq<char>>>
    decreases limit, 1int,
{
    if t.len() == 0 {
        Some(Err("Empty expression"@))
    } else {
        match main_operator(t) {
            Some((op, pos)) => if op == CfmcOperator::Not || op == CfmcOperator::NumItems {
                unary_of(op, sub_parse(t.skip(pos + op_len(op)), limit))
            } else if op == CfmcOperator::IsBlank || op == CfmcOperator::IsNotBlank {
                unary_of(op, sub_parse(blank_operand(t.take(pos)), limit))
            } else {
                let lt = t.take(pos);
                let rt = t.skip(pos + op_len(op));
                if lt.len() == 0 {
                    Some(Err("Missing left operand for operator "@ + op_debug(op)))
                } else {
                    match sub_parse(lt, limit) {
                        None => None,
                        Some(Err(e)) => Some(Err(e)),
                        Some(Ok(a)) => if rt.len() == 0 {
                            Some(Err("Missing right operand for operator "@ + op_debug(op)))
                        } else {
                            binary_of(op, Some(Ok(a)), sub_parse(rt, limit))
                        },
                    }
                }
            },
            None => {
                let lf = match leaf(t) {
                    Some(x) => Some(Ok(x)),
                    None => None,
                };
                match find_char(t, '(') {
                    Some(k) => if k > 0 && !has_whitespace(t.take(
                        if utf8_prefix_len(t, k) < t.len() { utf8_prefix_len(t, k) } else { t.len() as int },
                    )) {
                        let lt = t.take(k);
                        if k + 1 > t.len() - 1 {
                            None
                        } else if is_known_function(lt) {
                            match sub_parse(t.subrange(k + 1, t.len() - 1), limit) {
                                None => None,
                                Some(Err(e)) => Some(Err(e)),
                                Some(Ok(a)) => Some(Ok(CfmcTree::FunctionCall { name: lt, args: seq![a] })),
                            }
                        } else {
                            let iv = t.subrange(k + 1, t.len() - 1);
                            if iv.len() >= 2 && iv[0] == '<' && iv[1] == '>' {
                                binary_of(CfmcOperator::NotEqual, sub_parse(lt, limit), sub_parse(iv.skip(2), limit))
                            } else {
                                binary_of(CfmcOperator::Equal, sub_parse(lt, limit), sub_parse(t.skip(k), limit))
                            }
                        }
                    } else {
                        lf
                    },
                    None => lf,
                }
            },
        }
    }
}

/// Parsing one node of a CFMC expression.
pub open spec fn cfmc_parse(s: Seq<char>) -> Option<Result<CfmcTree, Seq<char>>>
    decreases s.len(), 3int,
{
    let raw = uppercase(trim_ws(s));
    if raw.len() >= 2 && raw[0] == '[' && raw.last() == ']' && strip_scan(raw, '[', ']', 0, 0, raw.len() as int).0 {
        let inner = raw.subrange(1, raw.len() - 1);
        match punch_ref(inner, s.len() as int) {
            None => None,
            Some(Err(e)) => Some(Err(e)),
            Some(Ok(Some(t))) => Some(Ok(t)),
            Some(Ok(None)) => match column_ref(inner) {
                Some(t) => Some(Ok(t)),
                None => parse_trimmed(s.len() as int, trim_expression_spec(s)),
            },
        }
    } else {
        parse_trimmed(s.len() as int, trim_expression_spec(s))
    }
}

/// Parsing a whole expression: balance check, trimming, then the tree.
pub open spec fn logic_parse(e: Seq<char>) -> Option<Result<CfmcTree, Seq<char>>> {
    match check_balance_spec(e) {
        Err(m) => Some(Err(m)),
        Ok((cleaned, _)) => cfmc_parse(trim_expression_spec(cleaned)),
    }
}

} // verus!
