use dp_library::weight::passes::{merge_pass_weights, qualifying_records, try_qualifying_records};
use dp_library::UncleExpr;

#[test]
fn qualifier_selects_records_in_order() {
    let q = Some(UncleExpr::parse("1!3-1").unwrap());
    let data = vec!["  1", "  2", "  1x", "", "ab1"];
    assert_eq!(qualifying_records(&q, &data), vec![0, 2, 4]);
}

#[test]
fn no_qualifier_selects_every_record() {
    let data = vec!["a", "b", "c"];
    assert_eq!(qualifying_records(&None, &data), vec![0, 1, 2]);
    assert_eq!(qualifying_records(&None, &[]), Vec::<usize>::new());
}

#[test]
fn later_pass_replaces_earlier_weight() {
    let mut weights: Vec<Option<u32>> = vec![None; 5];
    merge_pass_weights(&mut weights, &vec![0, 2, 3], &vec![10, 20, 30]);
    assert_eq!(weights, vec![Some(10), None, Some(20), Some(30), None]);
    merge_pass_weights(&mut weights, &vec![3, 4], &vec![7, 8]);
    assert_eq!(weights, vec![Some(10), None, Some(20), Some(7), Some(8)]);
}

#[test]
fn split_sample_passes_weight_disjoint_halves() {
    let data = vec!["1", "2", "1", "3"];
    let first = qualifying_records(&Some(UncleExpr::parse("1!1-1").unwrap()), &data);
    let second = qualifying_records(&Some(UncleExpr::parse("1!1-2").unwrap()), &data);
    let mut weights: Vec<Option<i64>> = vec![None; data.len()];
    merge_pass_weights(&mut weights, &first, &vec![5; first.len()]);
    merge_pass_weights(&mut weights, &second, &vec![9; second.len()]);
    assert_eq!(weights, vec![Some(5), Some(9), Some(5), None]);
}

#[test]
fn qualifier_stops_where_its_left_side_decides() {
    let q = Some(UncleExpr::parse("3-1 OR 0-1").unwrap());
    assert_eq!(try_qualifying_records(&q, &["  1"]), Some(vec![0]));
    assert_eq!(try_qualifying_records(&q, &["  1", "  2"]), None);
}
