//! The records of a weighting pass, and the weights that the passes give:
//! each pass rakes the records its qualifier selects, and a record that
//! several passes select keeps the weight of the last of them.

use vstd::prelude::*;
use vstd::string::StringSliceAdditionalSpecFns;

use crate::weight::uncle::{evaluable_on, holds, UncleExpr, UncleModel};

verus! {

/// Whether a pass with this qualifier takes the record (a pass without a
/// qualifier takes every record).
pub open spec fn qualifies(q: Option<UncleModel>, rec: Seq<u8>) -> bool {
    match q {
        None => true,
        Some(e) => holds(e, rec),
    }
}

pub open spec fn qualifier_model(q: Option<UncleExpr>) -> Option<UncleModel> {
    match q {
        Some(e) => Some(e@),
        None => None,
    }
}

/// Whether the qualifier can be evaluated on every record.
pub open spec fn qualifier_evaluable(q: Option<UncleModel>, data: Seq<&str>) -> bool {
    q matches Some(e) ==> forall|i: int| 0 <= i < data.len() ==> evaluable_on(e, (#[trigger] data[i]).spec_bytes())
}

/// The indices of the records that the qualifier selects, in increasing
/// order; `None` where the qualifier cannot be evaluated on some record.
pub fn try_qualifying_records(qualifier: &Option<UncleExpr>, data: &[&str]) -> (r: Option<Vec<usize>>)
    ensures
        r is Some <==> qualifier_evaluable(qualifier_model(*qualifier), data@),
        r matches Some(v) ==> {
            &&& forall|k: int| 0 <= k < v.len() ==> (#[trigger] v@[k]) < data.len()
            &&& forall|j: int, k: int| 0 <= j < k < v.len() ==> v@[j] < v@[k]
            &&& forall|i: int|
                0 <= i < data.len() ==> (v@.contains(i as usize) <==> qualifies(
                    qualifier_model(*qualifier),
                    (#[trigger] data@[i]).spec_bytes(),
                ))
        },
{
    let mut out: Vec<usize> = Vec::new();
    let mut i: usize = 0;
    while i < data.len()
        invariant
            i <= data.len(),
            qualifier matches Some(q) ==> forall|p: int| 0 <= p < i ==> evaluable_on(q@, (#[trigger] data@[p]).spec_bytes()),
            forall|k: int| 0 <= k < out.len() ==> (#[trigger] out@[k]) < i,
            forall|j: int, k: int| 0 <= j < k < out.len() ==> out@[j] < out@[k],
            forall|p: int|
                0 <= p < i ==> (out@.contains(p as usize) <==> qualifies(
                    qualifier_model(*qualifier),
                    (#[trigger] data@[p]).spec_bytes(),
                )),
        decreases data.len() - i,
    {
        let take = match qualifier {
            None => true,
            Some(q) => match q.try_evaluate(data[i]) {
                Some(b) => b,
                None => {
                    return None;
                },
            },
        };
        let ghost before = out@;
        if take {
            out.push(i);
        }
        proof {
            assert forall|p: int|
                0 <= p < i + 1 implies (out@.contains(p as usize) <==> qualifies(
                qualifier_model(*qualifier),
                (#[trigger] data@[p]).spec_bytes(),
            )) by {
                if p < i {
                    if take {
                        if out@.contains(p as usize) {
                            let k = choose|k: int| 0 <= k < out@.len() && out@[k] == p as usize;
                            if k == before.len() {
                            } else {
                                assert(before[k] == p as usize);
                            }
                        }
                        if before.contains(p as usize) {
                            let k = choose|k: int| 0 <= k < before.len() && before[k] == p as usize;
                            assert(out@[k] == p as usize);
                        }
                    }
                } else {
                    if take {
                        assert(out@[before.len() as int] == i);
                    } else {
                        if out@.contains(p as usize) {
                            let k = choose|k: int| 0 <= k < out@.len() && out@[k] == p as usize;
                            assert(out@[k] < i);
                        }
                    }
                }
            }
        }
        i = i + 1;
    }
    Some(out)
}

/// The indices of the records that the qualifier selects, in increasing
/// order, on records on which the qualifier can be evaluated.
pub fn qualifying_records(qualifier: &Option<UncleExpr>, data: &[&str]) -> (r: Vec<usize>)
    requires
        qualifier_evaluable(qualifier_model(*qualifier), data@),
    ensures
        forall|k: int| 0 <= k < r.len() ==> (#[trigger] r@[k]) < data.len(),
        forall|j: int, k: int| 0 <= j < k < r.len() ==> r@[j] < r@[k],
        forall|i: int|
            0 <= i < data.len() ==> (r@.contains(i as usize) <==> qualifies(
                qualifier_model(*qualifier),
                (#[trigger] data@[i]).spec_bytes(),
            )),
{
    match try_qualifying_records(qualifier, data) {
        Some(v) => v,
        None => Vec::new(),
    }
}

/// `after` is `before` with the weight `ws[k]` given to record
/// `records[k]`, and every other record left as it was.
pub open spec fn merged<T>(before: Seq<Option<T>>, after: Seq<Option<T>>, records: Seq<usize>, ws: Seq<T>) -> bool {
    &&& after.len() == before.len()
    &&& forall|k: int| 0 <= k < records.len() ==> after[#[trigger] records[k] as int] == Some(ws[k])
    &&& forall|i: int| 0 <= i < before.len() && !records.contains(i as usize) ==> #[trigger] after[i] == before[i]
}

/// Gives each record of a pass its weight from the pass: `pass_weights[k]`
/// goes to record `records[k]`; a weight from an earlier pass is replaced.
pub fn merge_pass_weights<T: Copy>(weights: &mut Vec<Option<T>>, records: &Vec<usize>, pass_weights: &Vec<T>)
    requires
        records.len() == pass_weights.len(),
        forall|k: int| 0 <= k < records.len() ==> (#[trigger] records@[k]) < old(weights).len(),
        forall|j: int, k: int| 0 <= j < k < records.len() ==> records@[j] < records@[k],
    ensures
        merged(old(weights)@, final(weights)@, records@, pass_weights@),
{
    let ghost w0 = weights@;
    let mut j: usize = 0;
    while j < records.len()
        invariant
            j <= records.len(),
            records.len() == pass_weights.len(),
            weights.len() == w0.len(),
            forall|k: int| 0 <= k < records.len() ==> (#[trigger] records@[k]) < w0.len(),
            forall|a: int, b: int| 0 <= a < b < records.len() ==> records@[a] < records@[b],
            forall|k: int| 0 <= k < j ==> weights@[#[trigger] records@[k] as int] == Some(pass_weights@[k]),
            forall|i: int|
                0 <= i < w0.len() && !records@.take(j as int).contains(i as usize) ==> #[trigger] weights@[i] == w0[i],
        decreases records.len() - j,
    {
        let idx = records[j];
        let w = pass_weights[j];
        let ghost prev = weights@;
        weights.set(idx, Some(w));
        proof {
            assert forall|k: int| 0 <= k < j + 1 implies weights@[#[trigger] records@[k] as int] == Some(
                pass_weights@[k],
            ) by {
                if k < j {
                    assert(records@[k] < records@[j as int]);
                }
            }
            assert forall|i: int|
                0 <= i < w0.len() && !records@.take(j + 1).contains(i as usize) implies #[trigger] weights@[i]
                == w0[i] by {
                assert(records@.take(j + 1)[j as int] == idx);
                if records@.take(j as int).contains(i as usize) {
                    let k = choose|k: int| 0 <= k < j && records@.take(j as int)[k] == i as usize;
                    assert(records@.take(j + 1)[k] == i as usize);
                }
            }
        }
        j = j + 1;
    }
    assert(records@.take(records.len() as int) =~= records@);
}

/// A record that a later pass takes keeps the later pass's weight,
/// whatever an earlier pass gave it.
pub proof fn law_last_pass_wins<T>(
    w0: Seq<Option<T>>,
    w1: Seq<Option<T>>,
    w2: Seq<Option<T>>,
    r1: Seq<usize>,
    p1: Seq<T>,
    r2: Seq<usize>,
    p2: Seq<T>,
    b: int,
)
    requires
        merged(w0, w1, r1, p1),
        merged(w1, w2, r2, p2),
        0 <= b < r2.len(),
    ensures
        w2[r2[b] as int] == Some(p2[b]),
{
}

/// A record that no pass takes keeps what it had; starting from no weight,
/// it ends with none.
pub proof fn law_untaken_record_unweighted<T>(
    w0: Seq<Option<T>>,
    w1: Seq<Option<T>>,
    w2: Seq<Option<T>>,
    r1: Seq<usize>,
    p1: Seq<T>,
    r2: Seq<usize>,
    p2: Seq<T>,
    i: int,
)
    requires
        merged(w0, w1, r1, p1),
        merged(w1, w2, r2, p2),
        0 <= i < w0.len(),
        !r1.contains(i as usize),
        !r2.contains(i as usize),
        w0[i] is None,
    ensures
        w2[i] is None,
{
}

} // verus!
