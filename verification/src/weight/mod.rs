//! UNCLE weighting: qualification expressions and `.E` weight specifications,
//! and the column helpers they share.

pub mod e_file;
pub mod parse_e;
pub mod passes;
pub mod uncle;
pub mod uncle_grammar;
pub mod uncle_parser;
pub mod uncle_shift;

pub use uncle::{CodeVal, LiteralMatch, RQual, RValue, Relation, Term, UncleExpr};
pub use uncle_parser::ParseError;

use vstd::prelude::*;
use vstd::string::{StrSliceExecFns, StringSliceAdditionalSpecFns};
use vstd::utf8::{encode_utf8, encode_scalar};

use crate::text::chars_of;

verus! {

/// Number of UTF-8 bytes of the first `k` characters of `s`.
pub open spec fn utf8_prefix_len(s: Seq<char>, k: int) -> int {
    encode_utf8(s.take(k)).len() as int
}

/// Encoding a concatenation concatenates the encodings.
pub proof fn lemma_encode_utf8_append(a: Seq<char>, b: Seq<char>)
    ensures
        encode_utf8(a + b) == encode_utf8(a) + encode_utf8(b),
    decreases a.len(),
{
    if a.len() == 0 {
        assert(a + b =~= b);
        assert(encode_utf8(a) =~= Seq::<u8>::empty());
        assert(encode_utf8(a) + encode_utf8(b) =~= encode_utf8(b));
    } else {
        assert((a + b).drop_first() =~= a.drop_first() + b);
        assert((a + b)[0] == a[0]);
        lemma_encode_utf8_append(a.drop_first(), b);
        assert(encode_utf8(a + b) =~= encode_utf8(a) + encode_utf8(b));
    }
}

/// The prefix of `i + 1` characters is one character's encoding longer than
/// the prefix of `i`.
pub proof fn lemma_utf8_prefix_step(s: Seq<char>, i: int)
    requires
        0 <= i < s.len(),
    ensures
        utf8_prefix_len(s, i + 1) == utf8_prefix_len(s, i) + encode_scalar(s[i] as u32).len(),
        encode_scalar(s[i] as u32).len() <= 4,
        utf8_prefix_len(s, i) >= 0,
{
    assert(s.take(i + 1) =~= s.take(i) + seq![s[i]]);
    lemma_encode_utf8_append(s.take(i), seq![s[i]]);
    let one = seq![s[i]];
    assert(encode_utf8(one.drop_first()) =~= Seq::<u8>::empty());
    assert(encode_utf8(one) == encode_scalar(one[0] as u32) + encode_utf8(one.drop_first()));
    assert(encode_utf8(one) =~= encode_scalar(s[i] as u32));
}

/// The bytes of the first `k` characters end on a character boundary of
/// the whole encoding.
pub proof fn lemma_prefix_is_boundary(cs: Seq<char>, k: int)
    requires
        0 <= k <= cs.len(),
    ensures
        vstd::utf8::is_char_boundary(encode_utf8(cs), utf8_prefix_len(cs, k)),
    decreases k,
{
    let bytes = encode_utf8(cs);
    vstd::utf8::encode_utf8_valid_utf8(cs);
    if k == 0 {
        assert(cs.take(0) =~= Seq::<char>::empty());
    } else {
        let rest = cs.drop_first();
        vstd::utf8::encode_utf8_first_scalar(cs);
        assert(vstd::utf8::pop_first_scalar(bytes) =~= encode_utf8(rest));
        assert(cs.take(k)[0] == cs[0]);
        assert(cs.take(k).drop_first() =~= rest.take(k - 1));
        assert(encode_utf8(cs.take(k)) == encode_scalar(cs[0] as u32) + encode_utf8(rest.take(k - 1)));
        lemma_encode_utf8_append(cs.take(k), cs.skip(k));
        assert(cs.take(k) + cs.skip(k) =~= cs);
        lemma_prefix_is_boundary(rest, k - 1);
    }
}

/// UTF-8 width of one character.
pub fn utf8_width(c: char) -> (r: usize)
    ensures
        r == encode_scalar(c as u32).len(),
{
    let v = c as u32;
    if v < 0x80 {
        1
    } else if v < 0x800 {
        2
    } else if v < 0x10000 {
        3
    } else {
        4
    }
}

/// Convert a 0-based character index to a byte offset within `s`;
/// past the last character it is `s.len()`.
pub fn char_to_byte(s: &str, char_idx: usize) -> (r: usize)
    requires
        s.spec_bytes().len() <= usize::MAX,
    ensures
        char_idx < s@.len() ==> r == utf8_prefix_len(s@, char_idx as int),
        char_idx >= s@.len() ==> r == s.spec_bytes().len(),
        vstd::utf8::is_char_boundary(s.spec_bytes(), r as int),
{
    proof {
        if char_idx < s@.len() {
            lemma_prefix_is_boundary(s@, char_idx as int);
        } else {
            vstd::utf8::encode_utf8_valid_utf8(s@);
            vstd::utf8::is_char_boundary_start_end_of_seq(s.spec_bytes());
        }
    }
    let chars = chars_of(s);
    let ghost cs = s@;
    let n = chars.len();
    let limit = if char_idx < n { char_idx } else { n };
    let mut i: usize = 0;
    let mut bytes: usize = 0;
    proof {
        assert(cs.take(0) =~= Seq::<char>::empty());
        lemma_encode_utf8_append(cs.take(n as int), Seq::<char>::empty());
        assert(cs.take(n as int) =~= cs);
        assert(cs.take(n as int) + Seq::<char>::empty() =~= cs);
        assert(s.spec_bytes() == encode_utf8(cs));
    }
    while i < limit
        invariant
            chars@ == cs,
            n == cs.len(),
            limit <= n,
            i <= limit,
            bytes == utf8_prefix_len(cs, i as int),
            encode_utf8(cs).len() == s.spec_bytes().len(),
            s.spec_bytes().len() <= usize::MAX,
        decreases limit - i,
    {
        let w = utf8_width(chars[i]);
        proof {
            assert(cs.take(i + 1) =~= cs.take(i as int) + seq![cs[i as int]]);
            lemma_encode_utf8_append(cs.take(i as int), seq![cs[i as int]]);
            assert(seq![cs[i as int]].drop_first() =~= Seq::<char>::empty());
            let one = seq![cs[i as int]];
            assert(encode_utf8(one.drop_first()) =~= Seq::<u8>::empty());
            assert(encode_utf8(one) == encode_scalar(one[0] as u32) + encode_utf8(one.drop_first()));
            assert(encode_utf8(one) =~= encode_scalar(cs[i as int] as u32));
            lemma_encode_utf8_append(cs.take(i + 1), cs.skip(i + 1));
            assert(cs.take(i + 1) + cs.skip(i + 1) =~= cs);
        }
        bytes = bytes + w;
        i = i + 1;
    }
    if char_idx < n {
        bytes
    } else {
        proof {
            assert(cs.take(n as int) =~= cs);
        }
        s.len()
    }
}

/// `s` restricted to the 1-based inclusive character columns
/// `col_start..=col_end`, as far as `s` reaches (empty when `s` is shorter
/// than `col_start`).
pub open spec fn column_slice(s: Seq<char>, col_start: int, col_end: int) -> Seq<char> {
    if col_start - 1 >= s.len() {
        Seq::empty()
    } else {
        s.subrange(col_start - 1, if col_end < s.len() { col_end } else { s.len() as int })
    }
}

/// Extract a substring using 1-based inclusive character columns.
pub fn char_substr(s: &str, col_start: usize, col_end: usize) -> (r: &str)
    requires
        col_start >= 1,
        col_start - 1 < s@.len() ==> col_start - 1 <= col_end,
    ensures
        r@ == column_slice(s@, col_start as int, col_end as int),
{
    let n = s.unicode_len();
    let start = col_start - 1;
    if start >= n {
        s.substring_char(0, 0)
    } else {
        let end = if col_end < n { col_end } else { n };
        s.substring_char(start, end)
    }
}

} // verus!
