//! Calls into the `regex` crate. Each result is named by a function of the
//! pattern and the text alone; what the crate computes is not restated here.

use vstd::prelude::*;

verus! {

/// Whether `regex::Regex::new` accepts the pattern.
pub uninterp spec fn regex_compiles(pattern: Seq<char>) -> bool;

/// What `Regex::replace` returns: the text with the leftmost match of the
/// pattern replaced by `rep` (with `$` group references expanded).
pub uninterp spec fn regex_replace_first(pattern: Seq<char>, text: Seq<char>, rep: Seq<char>) -> Seq<char>;

/// `regex::Regex::new(pattern).is_ok()`.
#[verifier::external_body]
pub(crate) fn regex_valid(pattern: &str) -> (r: bool)
    ensures
        r == regex_compiles(pattern@),
{
    regex::Regex::new(pattern).is_ok()
}

/// `Regex::new(pattern)` then `Regex::replace(text, rep)`: the contract
/// names the result; the pattern must compile.
#[verifier::external_body]
pub(crate) fn regex_replace(pattern: &str, text: &str, rep: &str) -> (r: String)
    requires
        regex_compiles(pattern@),
    ensures
        r@ == regex_replace_first(pattern@, text@, rep@),
{
    regex::Regex::new(pattern).unwrap().replace(text, rep).into_owned()
}

/// What `Regex::captures` returns: `None` without a match, else the text of
/// each group (`None` for a group that did not take part), group 0 first.
pub uninterp spec fn regex_first_captures(pattern: Seq<char>, text: Seq<char>) -> Option<Seq<Option<Seq<char>>>>;

/// What `Regex::captures_iter` yields: the groups of each successive
/// non-overlapping match.
pub uninterp spec fn regex_all_captures(pattern: Seq<char>, text: Seq<char>) -> Seq<Seq<Option<Seq<char>>>>;

/// `x` is a piece of `t`: the characters of `t` between two positions.
pub open spec fn is_part_of(x: Seq<char>, t: Seq<char>) -> bool {
    exists|a: int, b: int| 0 <= a <= b <= t.len() && x == t.subrange(a, b)
}

pub open spec fn groups_view(g: Seq<Option<String>>) -> Seq<Option<Seq<char>>> {
    g.map_values(|o: Option<String>| match o {
        Some(s) => Some(s@),
        None => None,
    })
}

pub open spec fn matches_view(m: Seq<Vec<Option<String>>>) -> Seq<Seq<Option<Seq<char>>>> {
    m.map_values(|g: Vec<Option<String>>| groups_view(g@))
}

/// `Regex::new(pattern)` then `Regex::captures(text)`, the groups taken as
/// owned strings; `None` when the pattern does not compile. Each group that
/// took part is the text between its match's start and end (`Match::as_str`).
#[verifier::external_body]
pub(crate) fn regex_captures(pattern: &str, text: &str) -> (r: Option<Option<Vec<Option<String>>>>)
    ensures
        r is Some <==> regex_compiles(pattern@),
        r matches Some(c) ==> match c {
            Some(g) => regex_first_captures(pattern@, text@) == Some(groups_view(g@)),
            None => regex_first_captures(pattern@, text@) is None,
        },
        r matches Some(Some(g)) ==> forall|k: int|
            0 <= k < g.len() && (#[trigger] g@[k]) is Some ==> is_part_of(g@[k]->0@, text@),
{
    match regex::Regex::new(pattern) {
        Ok(re) => Some(re.captures(text).map(|caps| caps.iter().map(|m| m.map(|m| m.as_str().to_owned())).collect())),
        Err(_) => None,
    }
}

/// `Regex::new(pattern)` then `Regex::captures_iter(text)`, the groups of
/// each match taken as owned strings; `None` when the pattern does not
/// compile. Each group that took part is the text between its match's start
/// and end (`Match::as_str`).
#[verifier::external_body]
pub(crate) fn regex_captures_all(pattern: &str, text: &str) -> (r: Option<Vec<Vec<Option<String>>>>)
    ensures
        r is Some <==> regex_compiles(pattern@),
        r matches Some(v) ==> regex_all_captures(pattern@, text@) == matches_view(v@),
        r matches Some(v) ==> forall|m: int, k: int|
            0 <= m < v.len() && 0 <= k < v@[m].len() && (#[trigger] v@[m]@[k]) is Some ==> is_part_of(
                v@[m]@[k]->0@,
                text@,
            ),
{
    match regex::Regex::new(pattern) {
        Ok(re) => Some(
            re.captures_iter(text).map(|caps| caps.iter().map(|m| m.map(|m| m.as_str().to_owned())).collect()).collect(),
        ),
        Err(_) => None,
    }
}

} // verus!
