//! Question tables keyed by label, held in an `ahash::AHashMap`.

use vstd::prelude::*;

use crate::rfl::{QuestionModel, RflQuestion};

verus! {

#[verifier::external_type_specification]
#[verifier::external_body]
#[verifier::reject_recursive_types(K)]
#[verifier::reject_recursive_types(V)]
#[verifier::reject_recursive_types(S)]
pub struct ExAHashMap<K, V, S>(ahash::AHashMap<K, V, S>);

#[verifier::external_type_specification]
#[verifier::external_body]
pub struct ExAHashRandomState(ahash::RandomState);

/// What a question table holds: for each label (by its characters), the
/// question stored under it.
pub uninterp spec fn question_table(m: ahash::AHashMap<String, RflQuestion>) -> Map<Seq<char>, QuestionModel>;

/// `AHashMap::get`: the question stored under `label`, if any.
#[verifier::external_body]
pub(crate) fn lookup_question<'a>(m: &'a ahash::AHashMap<String, RflQuestion>, label: &str) -> (r: Option<&'a RflQuestion>)
    ensures
        match r {
            Some(q) => question_table(*m).contains_key(label@) && q.model() == question_table(*m)[label@],
            None => !question_table(*m).contains_key(label@),
        },
{
    m.get(label)
}

} // verus!
