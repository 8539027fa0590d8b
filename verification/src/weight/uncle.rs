//! UNCLE qualification syntax: expression tree, evaluation against a
//! fixed-width data record, and a recursive-descent parser.
//!
//! | Example              | Meaning                                          |
//! |----------------------|--------------------------------------------------|
//! | `1!43-1`             | Position 43 has code 1 (`1!` record prefix)      |
//! | `43-2:3`             | Position 43 has code 2 or 3 (code range)         |
//! | `43-4,5,7`           | Position 43 has code 4, 5, or 7 (code list)      |
//! | `43N1`               | Position 43 does NOT have code 1                 |
//! | `43-$`               | Position 43 is blank                             |
//! | `43-6:10`            | Codes 6,7,8,9,0 (10 is an alias for 0)           |
//! | `65,67-1`            | Position 65 or 67 has code 1                     |
//! | `65:67-1`            | Position 65, 66 or 67 has code 1                 |
//! | `48-6 51-1`          | Implicit AND                                     |
//! | `35-1 OR 36-2`       | Either condition                                 |
//! | `NOT(43-1)`          | Logical NOT                                      |
//! | `R(26:27,9,23,25)`   | Columns 26-27 read as a number equal to 9, 23 or 25 |
//! | `R(61:62,35:44)`     | Field in the range 35-44                         |
//! | `1949 'R'`           | Literal text starting at column 1949             |

use vstd::prelude::*;
use vstd::string::StringSliceAdditionalSpecFns;

verus! {

// ---------------------------------------------------------------------------
// Expression tree
// ---------------------------------------------------------------------------

/// A parsed UNCLE qualification expression.
#[derive(Debug)]
pub enum UncleExpr {
    /// Basic position test: `pos relation code_spec`.
    Term(Term),
    /// `R()` numeric field qualifier.
    RQual(RQual),
    /// Literal string match: `pos 'STRING'`.
    Literal(LiteralMatch),
    /// Logical NOT.
    Not(Box<UncleExpr>),
    /// Logical AND.
    And(Box<UncleExpr>, Box<UncleExpr>),
    /// Logical OR.
    Or(Box<UncleExpr>, Box<UncleExpr>),
}

/// The relation between a position and its code(s).
#[derive(Debug, Clone, Copy, PartialEq, Eq, Structural)]
pub enum Relation {
    /// `-` : the position includes one of the codes.
    Has,
    /// `N` : the position includes none of the codes.
    NotHas,
    /// `=` : the position has only these codes (single-punch data: same as `Has`).
    Exclusive,
}

/// A single code value in a basic term.
#[derive(Debug, Clone, Copy, PartialEq, Eq, Structural)]
pub enum CodeVal {
    /// Numeric code 0-9, 11 or 12 (10 is an alias for 0).
    Numeric(u8),
    /// `$` : blank position.
    Blank,
}

/// A basic position-code test.
#[derive(Debug, Clone)]
pub struct Term {
    /// 1-indexed column in the data record.
    pub col: usize,
    pub relation: Relation,
    /// The set of codes the position is tested against.
    pub codes: Vec<CodeVal>,
}

/// `R()` numeric field qualifier: each field group is read as a
/// right-aligned integer; the qualifier holds if any group's value is one of
/// the targets.
#[derive(Debug, Clone)]
pub struct RQual {
    /// Each inner vector lists the consecutive 1-indexed columns of one field.
    pub fields: Vec<Vec<usize>>,
    /// Target values.
    pub values: Vec<RValue>,
}

/// A single target value for an [`RQual`].
#[derive(Debug, Clone, Copy, PartialEq, Eq, Structural)]
pub enum RValue {
    Single(i64),
    Range(i64, i64),
}

/// Literal string match starting at a given column.
#[derive(Debug, Clone)]
pub struct LiteralMatch {
    /// 1-indexed column where the match begins.
    pub start_col: usize,
    /// The literal text to match (case-sensitive).
    pub value: String,
}

// ---------------------------------------------------------------------------
// Mathematical model of an expression
// ---------------------------------------------------------------------------

/// An expression with its vectors taken as sequences.
pub enum UncleModel {
    Term { col: usize, relation: Relation, codes: Seq<CodeVal> },
    RQual { fields: Seq<Seq<usize>>, values: Seq<RValue> },
    Literal { start_col: usize, value: Seq<char> },
    Not(Box<UncleModel>),
    And(Box<UncleModel>, Box<UncleModel>),
    Or(Box<UncleModel>, Box<UncleModel>),
}

pub open spec fn fields_model(fields: Seq<Vec<usize>>) -> Seq<Seq<usize>> {
    fields.map_values(|v: Vec<usize>| v@)
}

pub open spec fn uncle_model(e: UncleExpr) -> UncleModel
    decreases e,
{
    match e {
        UncleExpr::Term(t) => UncleModel::Term { col: t.col, relation: t.relation, codes: t.codes@ },
        UncleExpr::RQual(r) => UncleModel::RQual { fields: fields_model(r.fields@), values: r.values@ },
        UncleExpr::Literal(l) => UncleModel::Literal { start_col: l.start_col, value: l.value@ },
        UncleExpr::Not(a) => UncleModel::Not(Box::new(uncle_model(*a))),
        UncleExpr::And(a, b) => UncleModel::And(Box::new(uncle_model(*a)), Box::new(uncle_model(*b))),
        UncleExpr::Or(a, b) => UncleModel::Or(Box::new(uncle_model(*a)), Box::new(uncle_model(*b))),
    }
}

impl View for UncleExpr {
    type V = UncleModel;

    open spec fn view(&self) -> UncleModel {
        uncle_model(*self)
    }
}

// ---------------------------------------------------------------------------
// Meaning of an expression on a record (the record is taken as its bytes)
// ---------------------------------------------------------------------------

/// Punch code carried by a data byte: digits 0-9, `X`/`-` = 11, `Y`/`&` = 12.
pub open spec fn byte_code(b: u8) -> Option<u8> {
    if 48 <= b <= 57 {
        Some((b - 48) as u8)
    } else if b == 88 || b == 45 {
        Some(11u8)
    } else if b == 89 || b == 38 {
        Some(12u8)
    } else {
        None
    }
}

pub open spec fn code_matches(c: CodeVal, b: u8) -> bool {
    match c {
        CodeVal::Blank => b == 32,
        CodeVal::Numeric(n) => byte_code(b) == Some(n),
    }
}

/// The byte at a 1-indexed column; columns past the end read as blank.
pub open spec fn byte_at(rec: Seq<u8>, col: int) -> u8 {
    if col - 1 < rec.len() {
        rec[col - 1]
    } else {
        32u8
    }
}

pub open spec fn any_code_matches(codes: Seq<CodeVal>, b: u8) -> bool {
    exists|i: int| 0 <= i < codes.len() && code_matches(#[trigger] codes[i], b)
}

pub open spec fn term_holds(col: usize, relation: Relation, codes: Seq<CodeVal>, rec: Seq<u8>) -> bool {
    let b = byte_at(rec, col as int);
    match relation {
        Relation::NotHas => !any_code_matches(codes, b),
        _ => any_code_matches(codes, b),
    }
}

/// Bytes at the given columns, skipping columns past the end of the record.
pub open spec fn field_bytes(cols: Seq<usize>, rec: Seq<u8>) -> Seq<u8>
    decreases cols.len(),
{
    if cols.len() == 0 {
        Seq::empty()
    } else {
        let rest = field_bytes(cols.drop_last(), rec);
        let c = cols.last() as int;
        if c - 1 < rec.len() {
            rest.push(rec[c - 1])
        } else {
            rest
        }
    }
}

/// Drop leading blanks and zeros.
pub open spec fn strip_blank_zero(s: Seq<u8>) -> Seq<u8>
    decreases s.len(),
{
    if s.len() > 0 && (s[0] == 32 || s[0] == 48) {
        strip_blank_zero(s.drop_first())
    } else {
        s
    }
}

pub open spec fn is_digit_byte(b: u8) -> bool {
    48 <= b <= 57
}

pub open spec fn all_digit_bytes(s: Seq<u8>) -> bool {
    forall|i: int| 0 <= i < s.len() ==> is_digit_byte(#[trigger] s[i])
}

/// Decimal value of a sequence of digit bytes.
pub open spec fn digits_value(s: Seq<u8>) -> int
    decreases s.len(),
{
    if s.len() == 0 {
        0
    } else {
        digits_value(s.drop_last()) * 10 + (s.last() - 48)
    }
}

/// `i64` parsing as `str::parse::<i64>` does it: an optional sign, at least
/// one digit, nothing else, and a value that fits.
pub open spec fn parse_i64_bytes(s: Seq<u8>) -> Option<i64> {
    let signed = s.len() > 0 && (s[0] == 43 || s[0] == 45);
    let digits = if signed { s.drop_first() } else { s };
    let v = if signed && s[0] == 45 { -digits_value(digits) } else { digits_value(digits) };
    if digits.len() > 0 && all_digit_bytes(digits) && i64::MIN <= v <= i64::MAX {
        Some(v as i64)
    } else {
        None
    }
}

/// Value of one field group: blanks/zeros only read as 0; anything that is
/// not an integer makes the group unusable.
pub open spec fn field_value(cols: Seq<usize>, rec: Seq<u8>) -> Option<i64> {
    let t = strip_blank_zero(field_bytes(cols, rec));
    if t.len() == 0 {
        Some(0i64)
    } else {
        parse_i64_bytes(t)
    }
}

pub open spec fn rvalue_contains(v: RValue, n: i64) -> bool {
    match v {
        RValue::Single(x) => x == n,
        RValue::Range(lo, hi) => lo <= n && n <= hi,
    }
}

pub open spec fn group_matches(cols: Seq<usize>, values: Seq<RValue>, rec: Seq<u8>) -> bool {
    match field_value(cols, rec) {
        Some(n) => exists|j: int| 0 <= j < values.len() && rvalue_contains(#[trigger] values[j], n),
        None => false,
    }
}

pub open spec fn rqual_holds(fields: Seq<Seq<usize>>, values: Seq<RValue>, rec: Seq<u8>) -> bool {
    exists|g: int| 0 <= g < fields.len() && group_matches(#[trigger] fields[g], values, rec)
}

pub open spec fn literal_holds(start_col: usize, value: Seq<char>, rec: Seq<u8>) -> bool {
    let start = start_col - 1;
    let v = vstd::utf8::encode_utf8(value);
    let e = start + v.len();
    &&& e <= rec.len()
    &&& vstd::utf8::is_char_boundary(rec, start)
    &&& vstd::utf8::is_char_boundary(rec, e)
    &&& rec.subrange(start, e) == v
}

/// The meaning of an expression on a record.
pub open spec fn holds(e: UncleModel, rec: Seq<u8>) -> bool
    decreases e,
{
    match e {
        UncleModel::Term { col, relation, codes } => term_holds(col, relation, codes, rec),
        UncleModel::RQual { fields, values } => rqual_holds(fields, values, rec),
        UncleModel::Literal { start_col, value } => literal_holds(start_col, value, rec),
        UncleModel::Not(a) => !holds(*a, rec),
        UncleModel::And(a, b) => holds(*a, rec) && holds(*b, rec),
        UncleModel::Or(a, b) => holds(*a, rec) || holds(*b, rec),
    }
}

/// `N` is the negation of `-`: a position does not have one of the codes
/// exactly when it does not satisfy the `-` test with those codes.
pub proof fn law_not_has_negates_has(col: usize, codes: Seq<CodeVal>, rec: Seq<u8>)
    ensures
        term_holds(col, Relation::NotHas, codes, rec) == !term_holds(col, Relation::Has, codes, rec),
{
}

/// On single-punch data, `=` (only these codes) tests the same as `-`.
pub proof fn law_exclusive_is_has(col: usize, codes: Seq<CodeVal>, rec: Seq<u8>)
    ensures
        term_holds(col, Relation::Exclusive, codes, rec) == term_holds(col, Relation::Has, codes, rec),
{
}

/// A column past the end of the record reads as blank: `col-$` holds there,
/// and no numeric code does.
pub proof fn law_past_end_is_blank(col: usize, n: u8, rec: Seq<u8>)
    requires
        col >= 1,
        col - 1 >= rec.len(),
    ensures
        term_holds(col, Relation::Has, seq![CodeVal::Blank], rec),
        !term_holds(col, Relation::Has, seq![CodeVal::Numeric(n)], rec),
{
    assert(code_matches(seq![CodeVal::Blank][0], 32u8));
    if any_code_matches(seq![CodeVal::Numeric(n)], 32u8) {
        let i = choose|i: int| 0 <= i < 1 && code_matches(#[trigger] seq![CodeVal::Numeric(n)][i], 32u8);
        assert(seq![CodeVal::Numeric(n)][i] == CodeVal::Numeric(n));
    }
}

/// Every column of a field group is a valid 1-indexed column.
pub open spec fn cols_positive(cols: Seq<usize>) -> bool {
    forall|k: int| 0 <= k < cols.len() ==> #[trigger] cols[k] >= 1
}

/// `R()` reads its field groups in order and stops at the first that
/// matches: each group it reads names only valid 1-indexed columns.
pub open spec fn rqual_evaluable_on(fields: Seq<Seq<usize>>, values: Seq<RValue>, rec: Seq<u8>) -> bool {
    forall|g: int|
        #![trigger fields[g]]
        0 <= g < fields.len() && (forall|h: int| 0 <= h < g ==> !group_matches(#[trigger] fields[h], values, rec))
            ==> cols_positive(fields[g])
}

/// Columns are 1-indexed: an expression can be evaluated on a record when
/// every column it reads there is at least 1 (and a literal's end column
/// fits in `usize`). `AND` reads its right side only when the left holds,
/// `OR` only when the left does not hold.
pub open spec fn evaluable_on(e: UncleModel, rec: Seq<u8>) -> bool
    decreases e,
{
    match e {
        UncleModel::Term { col, .. } => col >= 1,
        UncleModel::RQual { fields, values } => rqual_evaluable_on(fields, values, rec),
        UncleModel::Literal { start_col, value } => start_col >= 1
            && start_col - 1 + vstd::utf8::encode_utf8(value).len() <= usize::MAX,
        UncleModel::Not(a) => evaluable_on(*a, rec),
        UncleModel::And(a, b) => evaluable_on(*a, rec) && (holds(*a, rec) ==> evaluable_on(*b, rec)),
        UncleModel::Or(a, b) => evaluable_on(*a, rec) && (!holds(*a, rec) ==> evaluable_on(*b, rec)),
    }
}

// ---------------------------------------------------------------------------
// Evaluation
// ---------------------------------------------------------------------------

impl CodeVal {
    /// Whether a raw data byte carries this code.
    fn matches_byte(&self, b: u8) -> (r: bool)
        ensures
            r == code_matches(*self, b),
    {
        match self {
            CodeVal::Blank => b == 32,
            CodeVal::Numeric(n) => {
                let code: u8 = if 48 <= b && b <= 57 {
                    b - 48
                } else if b == 88 || b == 45 {
                    11
                } else if b == 89 || b == 38 {
                    12
                } else {
                    return false;
                };
                code == *n
            },
        }
    }
}

fn any_code_matches_exec(codes: &Vec<CodeVal>, b: u8) -> (r: bool)
    ensures
        r == any_code_matches(codes@, b),
{
    let mut i: usize = 0;
    while i < codes.len()
        invariant
            i <= codes.len(),
            forall|k: int| 0 <= k < i ==> !code_matches(#[trigger] codes@[k], b),
        decreases codes.len() - i,
    {
        if codes[i].matches_byte(b) {
            return true;
        }
        i = i + 1;
    }
    false
}

impl Term {
    fn evaluate(&self, record: &str) -> (r: Result<bool, String>)
        requires
            self.col >= 1,
        ensures
            r == Ok::<bool, String>(term_holds(self.col, self.relation, self.codes@, record.spec_bytes())),
    {
        let bytes = record.as_bytes();
        let idx = self.col - 1;
        let byte: u8 = if idx < bytes.len() {
            bytes[idx]
        } else {
            32
        };
        match self.relation {
            Relation::NotHas => Ok(!any_code_matches_exec(&self.codes, byte)),
            _ => Ok(any_code_matches_exec(&self.codes, byte)),
        }
    }
}

proof fn lemma_strip_blank_zero_skip(s: Seq<u8>, k: int)
    requires
        0 <= k <= s.len(),
        forall|i: int| 0 <= i < k ==> (#[trigger] s[i] == 32 || s[i] == 48),
    ensures
        strip_blank_zero(s) == strip_blank_zero(s.skip(k)),
    decreases k,
{
    if k > 0 {
        assert(s.drop_first().skip(k - 1) =~= s.skip(k));
        lemma_strip_blank_zero_skip(s.drop_first(), k - 1);
    } else {
        assert(s.skip(0) =~= s);
    }
}

/// Parse digit bytes `s[from..]` (known to be all digits) as an integer no
/// larger than `limit`; `None` when it is larger.
fn digits_to_int(s: &Vec<u8>, from: usize, limit: i128) -> (r: Option<i128>)
    requires
        from <= s.len(),
        all_digit_bytes(s@.skip(from as int)),
        0 <= limit <= 0x8000_0000_0000_0000,
    ensures
        match r {
            Some(v) => v == digits_value(s@.skip(from as int)) && v <= limit,
            None => digits_value(s@.skip(from as int)) > limit,
        },
{
    let mut acc: i128 = 0;
    let mut i: usize = from;
    while i < s.len()
        invariant
            from <= i <= s.len(),
            all_digit_bytes(s@.skip(from as int)),
            0 <= limit <= 0x8000_0000_0000_0000,
            acc == digits_value(s@.subrange(from as int, i as int)),
            0 <= acc <= limit,
        decreases s.len() - i,
    {
        assert(s@.subrange(from as int, i + 1).drop_last() =~= s@.subrange(from as int, i as int));
        assert(s@.skip(from as int)[i - from] == s@[i as int]);
        let d = (s[i] - 48) as i128;
        acc = acc * 10 + d;
        i = i + 1;
        if acc > limit {
            proof {
                lemma_digits_value_prefix_bound(s@.skip(from as int), (i - from) as int);
                assert(s@.skip(from as int).subrange(0, (i - from) as int) =~= s@.subrange(from as int, i as int));
            }
            return None;
        }
    }
    assert(s@.subrange(from as int, s.len() as int) =~= s@.skip(from as int));
    Some(acc)
}

/// A prefix of a digit string is never worth more than the whole string.
proof fn lemma_digits_value_prefix_bound(s: Seq<u8>, k: int)
    requires
        0 <= k <= s.len(),
        all_digit_bytes(s),
    ensures
        digits_value(s.subrange(0, k)) <= digits_value(s),
        0 <= digits_value(s.subrange(0, k)),
    decreases s.len(),
{
    if s.len() == k {
        assert(s.subrange(0, k) =~= s);
        lemma_digits_value_nonneg(s);
    } else {
        let t = s.drop_last();
        assert(t.subrange(0, k) =~= s.subrange(0, k));
        assert(all_digit_bytes(t)) by {
            assert forall|i: int| 0 <= i < t.len() implies is_digit_byte(#[trigger] t[i]) by {
                assert(t[i] == s[i]);
            }
        }
        lemma_digits_value_prefix_bound(t, k);
        lemma_digits_value_nonneg(t);
        assert(is_digit_byte(s[s.len() - 1]));
    }
}

proof fn lemma_digits_value_nonneg(s: Seq<u8>)
    requires
        all_digit_bytes(s),
    ensures
        digits_value(s) >= 0,
    decreases s.len(),
{
    if s.len() > 0 {
        let t = s.drop_last();
        assert(all_digit_bytes(t)) by {
            assert forall|i: int| 0 <= i < t.len() implies is_digit_byte(#[trigger] t[i]) by {
                assert(t[i] == s[i]);
            }
        }
        lemma_digits_value_nonneg(t);
        assert(is_digit_byte(s[s.len() - 1]));
    }
}

/// `str::parse::<i64>` on a byte string.
fn parse_i64_exec(s: &Vec<u8>) -> (r: Option<i64>)
    ensures
        r == parse_i64_bytes(s@),
{
    let signed = s.len() > 0 && (s[0] == 43 || s[0] == 45);
    let negative = signed && s[0] == 45;
    let from: usize = if signed { 1 } else { 0 };
    let ghost digits = if signed { s@.drop_first() } else { s@ };
    assert(s@.skip(from as int) =~= digits);
    if from >= s.len() {
        assert(digits.len() == 0);
        return None;
    }
    let mut i = from;
    while i < s.len()
        invariant
            from <= i <= s.len(),
            from <= 1,
            signed == (s@.len() > 0 && (s@[0] == 43 || s@[0] == 45)),
            from == (if signed { 1usize } else { 0usize }),
            digits == (if signed { s@.drop_first() } else { s@ }),
            digits =~= s@.skip(from as int),
            forall|k: int| from <= k < i ==> is_digit_byte(#[trigger] s@[k]),
        decreases s.len() - i,
    {
        if !(48 <= s[i] && s[i] <= 57) {
            assert(digits[i - from] == s@[i as int]);
            assert(!is_digit_byte(digits[i - from]));
            assert(!all_digit_bytes(digits));
            return None;
        }
        i = i + 1;
    }
    assert(all_digit_bytes(digits)) by {
        assert forall|k: int| 0 <= k < digits.len() implies is_digit_byte(#[trigger] digits[k]) by {
            assert(digits[k] == s@[k + from]);
        }
    }
    proof {
        lemma_digits_value_nonneg(digits);
    }
    let limit: i128 = if negative { 0x8000_0000_0000_0000 } else { 0x7fff_ffff_ffff_ffff };
    match digits_to_int(s, from, limit) {
        Some(v) => {
            if negative {
                Some((-v) as i64)
            } else {
                Some(v as i64)
            }
        },
        None => None,
    }
}

/// Index of the first byte that is neither a blank nor a zero.
fn skip_blank_zero(s: &Vec<u8>) -> (k: usize)
    ensures
        k <= s.len(),
        strip_blank_zero(s@) == s@.skip(k as int),
{
    let mut k: usize = 0;
    while k < s.len() && (s[k] == 32 || s[k] == 48)
        invariant
            k <= s.len(),
            forall|i: int| 0 <= i < k ==> (#[trigger] s@[i] == 32 || s@[i] == 48),
        decreases s.len() - k,
    {
        k = k + 1;
    }
    proof {
        lemma_strip_blank_zero_skip(s@, k as int);
        let t = s@.skip(k as int);
        if t.len() > 0 {
            assert(t[0] == s@[k as int]);
        }
    }
    k
}

fn field_bytes_exec(cols: &Vec<usize>, record: &[u8]) -> (r: Vec<u8>)
    requires
        forall|k: int| 0 <= k < cols.len() ==> #[trigger] cols@[k] >= 1,
    ensures
        r@ == field_bytes(cols@, record@),
{
    let mut out: Vec<u8> = Vec::new();
    let mut i: usize = 0;
    while i < cols.len()
        invariant
            i <= cols.len(),
            forall|k: int| 0 <= k < cols.len() ==> #[trigger] cols@[k] >= 1,
            out@ == field_bytes(cols@.take(i as int), record@),
        decreases cols.len() - i,
    {
        assert(cols@.take(i + 1).drop_last() =~= cols@.take(i as int));
        let c = cols[i];
        assert(c >= 1);
        if c - 1 < record.len() {
            out.push(record[c - 1]);
        }
        i = i + 1;
    }
    assert(cols@.take(cols.len() as int) =~= cols@);
    out
}

impl RValue {
    fn contains(&self, n: i64) -> (r: bool)
        ensures
            r == rvalue_contains(*self, n),
    {
        match self {
            RValue::Single(v) => *v == n,
            RValue::Range(lo, hi) => n >= *lo && n <= *hi,
        }
    }
}

fn any_value_contains(values: &Vec<RValue>, n: i64) -> (r: bool)
    ensures
        r == exists|j: int| 0 <= j < values.len() && rvalue_contains(#[trigger] values@[j], n),
{
    let mut j: usize = 0;
    while j < values.len()
        invariant
            j <= values.len(),
            forall|k: int| 0 <= k < j ==> !rvalue_contains(#[trigger] values@[k], n),
        decreases values.len() - j,
    {
        if values[j].contains(n) {
            return true;
        }
        j = j + 1;
    }
    false
}

fn cols_positive_exec(cols: &Vec<usize>) -> (r: bool)
    ensures
        r == cols_positive(cols@),
{
    let mut k: usize = 0;
    while k < cols.len()
        invariant
            k <= cols.len(),
            forall|kk: int| 0 <= kk < k ==> #[trigger] cols@[kk] >= 1,
        decreases cols.len() - k,
    {
        if cols[k] < 1 {
            return false;
        }
        k = k + 1;
    }
    true
}

impl RQual {
    /// Whether the record satisfies `R()`, or `None` where a field group
    /// that is read names column 0.
    fn try_eval(&self, record: &str) -> (r: Option<bool>)
        ensures
            r == (if rqual_evaluable_on(fields_model(self.fields@), self.values@, record.spec_bytes()) {
                Some(rqual_holds(fields_model(self.fields@), self.values@, record.spec_bytes()))
            } else {
                None
            }),
    {
        let bytes = record.as_bytes();
        let ghost fm = fields_model(self.fields@);
        proof {
            lemma_fields_model(self.fields@);
        }
        let mut g: usize = 0;
        while g < self.fields.len()
            invariant
                g <= self.fields.len(),
                bytes@ == record.spec_bytes(),
                fm == fields_model(self.fields@),
                fm.len() == self.fields.len(),
                forall|x: int| 0 <= x < self.fields.len() ==> #[trigger] fm[x] == self.fields@[x]@,
                forall|h: int| 0 <= h < g ==> !group_matches(#[trigger] fm[h], self.values@, bytes@),
                forall|h: int| 0 <= h < g ==> cols_positive(#[trigger] fm[h]),
            decreases self.fields.len() - g,
        {
            let cols = &self.fields[g];
            assert(fm[g as int] == cols@);
            if !cols_positive_exec(cols) {
                assert(!rqual_evaluable_on(fm, self.values@, bytes@)) by {
                    assert(forall|h: int| 0 <= h < g ==> !group_matches(#[trigger] fm[h], self.values@, bytes@));
                    assert(!cols_positive(fm[g as int]));
                }
                return None;
            }
            let field = field_bytes_exec(cols, bytes);
            let k = skip_blank_zero(&field);
            let value: Option<i64> = if k == field.len() {
                Some(0)
            } else {
                let mut trimmed: Vec<u8> = Vec::new();
                let mut i = k;
                while i < field.len()
                    invariant
                        k <= i <= field.len(),
                        trimmed@ == field@.subrange(k as int, i as int),
                    decreases field.len() - i,
                {
                    trimmed.push(field[i]);
                    i = i + 1;
                }
                assert(trimmed@ =~= field@.skip(k as int));
                parse_i64_exec(&trimmed)
            };
            if let Some(n) = value {
                if any_value_contains(&self.values, n) {
                    assert(group_matches(fm[g as int], self.values@, bytes@));
                    assert(rqual_evaluable_on(fm, self.values@, bytes@)) by {
                        assert forall|x: int|
                            0 <= x < fm.len() && (forall|h: int|
                                0 <= h < x ==> !group_matches(#[trigger] fm[h], self.values@, bytes@)) implies cols_positive(
                            #[trigger] fm[x],
                        ) by {
                            if x > g {
                                assert(!group_matches(fm[g as int], self.values@, bytes@));
                            }
                        }
                    }
                    return Some(true);
                }
            }
            assert(!group_matches(fm[g as int], self.values@, bytes@));
            g = g + 1;
        }
        assert(rqual_evaluable_on(fm, self.values@, bytes@));
        Some(false)
    }
}

impl LiteralMatch {
    fn evaluate(&self, record: &str) -> (r: bool)
        requires
            self.start_col >= 1,
            self.start_col - 1 + vstd::utf8::encode_utf8(self.value@).len() <= usize::MAX,
        ensures
            r == literal_holds(self.start_col, self.value@, record.spec_bytes()),
    {
        let start = self.start_col - 1;
        let v = self.value.as_str().as_bytes();
        let end = start + v.len();
        let bytes = record.as_bytes();
        if end > bytes.len() {
            return false;
        }
        if !record.is_char_boundary(start) || !record.is_char_boundary(end) {
            return false;
        }
        let mut i: usize = 0;
        while i < v.len()
            invariant
                i <= v.len(),
                bytes@ == record.spec_bytes(),
                v@ == vstd::utf8::encode_utf8(self.value@),
                start == self.start_col - 1,
                end == start + v.len(),
                end <= bytes.len(),
                forall|k: int| 0 <= k < i ==> #[trigger] bytes@[start + k] == v@[k],
            decreases v.len() - i,
        {
            if bytes[start + i] != v[i] {
                assert(bytes@.subrange(start as int, end as int)[i as int] != v@[i as int]);
                return false;
            }
            i = i + 1;
        }
        assert forall|k: int| 0 <= k < v.len() implies #[trigger] bytes@.subrange(start as int, end as int)[k] == v@[k] by {
            assert(bytes@[start + k] == v@[k]);
        }
        assert(bytes@.subrange(start as int, end as int) =~= v@);
        true
    }
}

proof fn lemma_fields_model(f: Seq<Vec<usize>>)
    ensures
        fields_model(f).len() == f.len(),
        forall|g: int| 0 <= g < f.len() ==> #[trigger] fields_model(f)[g] == f[g]@,
{
    let fm = fields_model(f);
    assert forall|g: int| 0 <= g < f.len() implies #[trigger] fm[g] == f[g]@ by {}
}

impl UncleExpr {
    /// Evaluate the expression against a fixed-width data record
    /// (1-indexed columns), or `None` where a column that is read is 0 or a
    /// literal's end column does not fit in `usize`. `AND` and `OR` read
    /// their right side only when the left does not decide.
    pub fn try_evaluate(&self, record: &str) -> (r: Option<bool>)
        ensures
            r == (if evaluable_on(self@, record.spec_bytes()) {
                Some(holds(self@, record.spec_bytes()))
            } else {
                None
            }),
        decreases self,
    {
        match self {
            UncleExpr::Term(t) => {
                assert(self@ == UncleModel::Term { col: t.col, relation: t.relation, codes: t.codes@ });
                if t.col >= 1 {
                    match t.evaluate(record) {
                        Ok(b) => Some(b),
                        Err(_) => None,
                    }
                } else {
                    None
                }
            },
            UncleExpr::RQual(rq) => {
                assert(self@ == UncleModel::RQual { fields: fields_model(rq.fields@), values: rq.values@ });
                rq.try_eval(record)
            },
            UncleExpr::Literal(l) => {
                let b = l.value.as_str().as_bytes();
                let n = b.len();
                assert(b@ == vstd::utf8::encode_utf8(l.value@));
                assert(self@ == UncleModel::Literal { start_col: l.start_col, value: l.value@ });
                if l.start_col >= 1 && n <= usize::MAX - (l.start_col - 1) {
                    Some(l.evaluate(record))
                } else {
                    None
                }
            },
            UncleExpr::Not(inner) => match inner.try_evaluate(record) {
                Some(v) => Some(!v),
                None => None,
            },
            UncleExpr::And(l, r) => match l.try_evaluate(record) {
                Some(false) => Some(false),
                Some(true) => r.try_evaluate(record),
                None => None,
            },
            UncleExpr::Or(l, r) => match l.try_evaluate(record) {
                Some(true) => Some(true),
                Some(false) => r.try_evaluate(record),
                None => None,
            },
        }
    }

    /// Evaluate the expression against a fixed-width data record
    /// (1-indexed columns).
    ///
    /// Returns `Ok(true)` if the qualification is satisfied; it never fails.
    pub fn evaluate(&self, record: &str) -> (r: Result<bool, String>)
        requires
            evaluable_on(self@, record.spec_bytes()),
        ensures
            r == Ok::<bool, String>(holds(self@, record.spec_bytes())),
    {
        match self.try_evaluate(record) {
            Some(b) => Ok(b),
            None => Ok(false),
        }
    }
}

/// `NOT`, `AND` and `OR` combine what their operands give on a record;
/// `AND` and `OR` need the right operand only where the left does not
/// decide.
pub proof fn law_connectives(a: UncleModel, b: UncleModel, rec: Seq<u8>)
    ensures
        evaluable_on(UncleModel::Not(Box::new(a)), rec) == evaluable_on(a, rec),
        holds(UncleModel::Not(Box::new(a)), rec) == !holds(a, rec),
        evaluable_on(a, rec) && !holds(a, rec) ==> evaluable_on(UncleModel::And(Box::new(a), Box::new(b)), rec)
            && !holds(UncleModel::And(Box::new(a), Box::new(b)), rec),
        evaluable_on(a, rec) && evaluable_on(b, rec) ==> evaluable_on(UncleModel::And(Box::new(a), Box::new(b)), rec)
            && holds(UncleModel::And(Box::new(a), Box::new(b)), rec) == (holds(a, rec) && holds(b, rec)),
        evaluable_on(a, rec) && holds(a, rec) ==> evaluable_on(UncleModel::Or(Box::new(a), Box::new(b)), rec)
            && holds(UncleModel::Or(Box::new(a), Box::new(b)), rec),
        evaluable_on(a, rec) && evaluable_on(b, rec) ==> evaluable_on(UncleModel::Or(Box::new(a), Box::new(b)), rec)
            && holds(UncleModel::Or(Box::new(a), Box::new(b)), rec) == (holds(a, rec) || holds(b, rec)),
{
}

// ---------------------------------------------------------------------------
// Copies
// ---------------------------------------------------------------------------

pub(crate) fn copy_codes(v: &Vec<CodeVal>) -> (r: Vec<CodeVal>)
    ensures
        r@ == v@,
{
    let mut out: Vec<CodeVal> = Vec::new();
    let mut i: usize = 0;
    while i < v.len()
        invariant
            i <= v.len(),
            out@ == v@.take(i as int),
        decreases v.len() - i,
    {
        out.push(v[i]);
        i = i + 1;
        assert(out@ =~= v@.take(i as int));
    }
    assert(v@.take(v.len() as int) =~= v@);
    out
}

pub(crate) fn copy_usizes(v: &Vec<usize>) -> (r: Vec<usize>)
    ensures
        r@ == v@,
{
    let mut out: Vec<usize> = Vec::new();
    let mut i: usize = 0;
    while i < v.len()
        invariant
            i <= v.len(),
            out@ == v@.take(i as int),
        decreases v.len() - i,
    {
        out.push(v[i]);
        i = i + 1;
        assert(out@ =~= v@.take(i as int));
    }
    assert(v@.take(v.len() as int) =~= v@);
    out
}

fn copy_rvalues(v: &Vec<RValue>) -> (r: Vec<RValue>)
    ensures
        r@ == v@,
{
    let mut out: Vec<RValue> = Vec::new();
    let mut i: usize = 0;
    while i < v.len()
        invariant
            i <= v.len(),
            out@ == v@.take(i as int),
        decreases v.len() - i,
    {
        out.push(v[i]);
        i = i + 1;
        assert(out@ =~= v@.take(i as int));
    }
    assert(v@.take(v.len() as int) =~= v@);
    out
}

fn copy_fields(v: &Vec<Vec<usize>>) -> (r: Vec<Vec<usize>>)
    ensures
        r.len() == v.len(),
        forall|i: int| 0 <= i < v.len() ==> #[trigger] r@[i]@ == v@[i]@,
{
    let mut out: Vec<Vec<usize>> = Vec::new();
    let mut i: usize = 0;
    while i < v.len()
        invariant
            i <= v.len(),
            out.len() == i,
            forall|k: int| 0 <= k < i ==> #[trigger] out@[k]@ == v@[k]@,
        decreases v.len() - i,
    {
        out.push(copy_usizes(&v[i]));
        i = i + 1;
    }
    out
}

impl UncleExpr {
    /// A copy of the expression.
    pub fn copy(&self) -> (r: UncleExpr)
        ensures
            r@ == self@,
        decreases self,
    {
        match self {
            UncleExpr::Term(t) => UncleExpr::Term(Term { col: t.col, relation: t.relation, codes: copy_codes(&t.codes) }),
            UncleExpr::RQual(rq) => {
                let fields = copy_fields(&rq.fields);
                assert(fields_model(fields@) =~= fields_model(rq.fields@));
                UncleExpr::RQual(RQual { fields, values: copy_rvalues(&rq.values) })
            },
            UncleExpr::Literal(l) => UncleExpr::Literal(LiteralMatch { start_col: l.start_col, value: l.value.clone() }),
            UncleExpr::Not(a) => UncleExpr::Not(Box::new(a.copy())),
            UncleExpr::And(a, b) => UncleExpr::And(Box::new(a.copy()), Box::new(b.copy())),
            UncleExpr::Or(a, b) => UncleExpr::Or(Box::new(a.copy()), Box::new(b.copy())),
        }
    }
}

impl Clone for UncleExpr {
    fn clone(&self) -> Self {
        self.copy()
    }
}

} // verus!
