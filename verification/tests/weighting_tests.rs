use dp_library::cfmc::matching::byte_len_exec;
use dp_library::tools::{
    all_blank, blank_of_columns, category_of, column_text, counter_line, location_bytes, responses_substring, default_output_name, extract_case_id, punch_weight, try_punch_weight, ColumnFormatter,
    Counter, CounterLine, WeightSpec,
};
use dp_library::weight::parse_e::{
    index_table_blocks, parse_col_range, parse_table_id_list, parse_table_line, parse_x_if, try_parse_x_if,
    ParseEError,
};
use dp_library::weight::{char_substr, char_to_byte};
use dp_library::{CfmcLogic, CfmcOperator, UncleExpr};

fn strings(v: &[&str]) -> Vec<String> {
    v.iter().map(|s| s.to_string()).collect()
}

#[test]
fn table_lines_are_recognised() {
    assert_eq!(parse_table_line("TABLE 601"), Some(601));
    assert_eq!(parse_table_line("  TABLE\t 7  "), Some(7));
    assert_eq!(parse_table_line("TABLE601"), None);
    assert_eq!(parse_table_line("TABLE"), None);
    assert_eq!(parse_table_line("TABLE 70000"), None);
    assert_eq!(parse_table_line("R MALE;1!43-1;VALUE .48"), None);
}

#[test]
fn table_blocks_keep_last_definition() {
    let lines = vec!["* x", "TABLE 600", "X WEIGHT", "TABLE 601", "R A", "TABLE 600", "R B", "R C"];
    let blocks = index_table_blocks(&lines);
    assert_eq!(blocks.len(), 2);
    assert_eq!((blocks[0].id, blocks[0].start, blocks[0].end), (600, 5, 8));
    assert_eq!((blocks[1].id, blocks[1].start, blocks[1].end), (601, 3, 5));
}

#[test]
fn table_id_lists_expand_ranges() {
    let ids = parse_table_id_list(&["601", "603", "TH", "606", "608", "th", "610"], 3).unwrap();
    assert_eq!(ids, vec![601, 603, 604, 605, 606, 608, 609, 610]);
    assert_eq!(parse_table_id_list(&["601"], 3).unwrap(), vec![601]);
    assert_eq!(parse_table_id_list(&["610", "TH", "601"], 3).unwrap(), Vec::<u16>::new());
    let e = parse_table_id_list(&["601", "TH", "abc"], 3).unwrap_err();
    assert_eq!(e.line_num, 3);
    assert_eq!(e.message, "X WEIGHT parse error: invalid end table ID 'abc'");
    let e = parse_table_id_list(&["x"], 4).unwrap_err();
    assert_eq!(e.message, "X WEIGHT parse error: invalid table ID 'x'");
}

#[test]
fn column_ranges() {
    assert_eq!(parse_col_range("2000:2006"), Some((2000, 2006)));
    assert_eq!(parse_col_range("2000"), None);
    assert_eq!(parse_col_range("a:2"), None);
}

#[test]
fn x_if_assignments() {
    let a = parse_x_if("(43-1) 1!2316=1", 9).unwrap().unwrap();
    assert_eq!(a.col, 2316);
    assert_eq!(a.value, "1");
    assert!(a.condition.evaluate(&format!("{}1", " ".repeat(42))).unwrap());
    let b = parse_x_if("(43-1) 2316= 7 ", 9).unwrap().unwrap();
    assert_eq!(b.col, 2316);
    assert_eq!(b.value, "7");
    assert!(parse_x_if("43-1 2316", 9).unwrap().is_none());
    assert!(parse_x_if("() 1!5=1", 9).unwrap().is_none());
    assert!(parse_x_if("(43-1) 1!2316", 9).unwrap().is_none());
    let e = parse_x_if("(43-1) 1!abc=1", 9).unwrap_err();
    assert_eq!(e.line_num, 9);
    assert_eq!(e.message, "X IF: invalid column number 'abc'");
    let e = parse_x_if("(@@) 1!5=1", 2).unwrap_err();
    assert!(e.message.starts_with("X IF condition parse error: parse error at position"));
    assert!(try_parse_x_if("(43-1) 5=1", 1).is_some());
}

#[test]
fn parse_e_errors_display() {
    let e = ParseEError { line_num: 0, message: "TABLE 1 not found".to_string() };
    assert_eq!(e.to_string(), "TABLE 1 not found");
    let e = ParseEError { line_num: 12, message: "bad".to_string() };
    assert_eq!(e.to_string(), "line 12: bad");
}

#[test]
fn case_ids_are_nine_bytes() {
    assert_eq!(extract_case_id("123456789ABC"), "123456789");
    assert_eq!(extract_case_id("1234"), "1234");
}

#[test]
fn weights_are_punched_into_columns() {
    assert_eq!(punch_weight("ABCDEFGH", "12", 3, 4), "AB12EFGH");
    assert_eq!(punch_weight("AB", "0100", 5, 8), "AB  0100");
    assert_eq!(try_punch_weight("AB", "1", 0, 2), None);
    assert_eq!(try_punch_weight("AB", "1", 4, 2), None);
}

#[test]
fn output_names_use_the_stem() {
    assert_eq!(default_output_name("data/study.fin"), "study.WT");
    assert_eq!(default_output_name("study"), "study.WT");
    assert_eq!(default_output_name(".."), "output.WT");
}

#[test]
fn weight_specs() {
    let w = WeightSpec::parse("1000.7").unwrap();
    assert_eq!((w.start_col, w.width), (1000, 7));
    assert_eq!(
        WeightSpec::parse("1000").unwrap_err(),
        "Weight specification must be in format start_col.width (e.g., 1000.7)"
    );
    assert_eq!(
        WeightSpec::parse("1.2.3").unwrap_err(),
        "Weight specification must be in format start_col.width (e.g., 1000.7)"
    );
    assert_eq!(WeightSpec::parse("x.7").unwrap_err(), "Invalid start column number");
    assert_eq!(WeightSpec::parse("1.y").unwrap_err(), "Invalid width number");
    assert_eq!(WeightSpec::parse("0.7").unwrap_err(), "Column numbers are 1-indexed, start_col must be >= 1");
    assert_eq!(WeightSpec::parse("5.0").unwrap_err(), "Width must be >= 1");
}

#[test]
fn column_formatter_widths() {
    let f = ColumnFormatter::new(true, 80);
    assert_eq!((f.text_width, f.truncate), (80, false));
    let f = ColumnFormatter::new(true, 10);
    assert_eq!((f.text_width, f.truncate), (64, false));
    let f = ColumnFormatter::new(false, 80);
    assert_eq!((f.text_width, f.truncate), (64, true));
}

#[test]
fn punch_codes_of_bytes() {
    assert_eq!(CfmcLogic::char_to_punch(b'1'), Some(1));
    assert_eq!(CfmcLogic::char_to_punch(b'0'), Some(10));
    assert_eq!(CfmcLogic::char_to_punch(b'x'), Some(11));
    assert_eq!(CfmcLogic::char_to_punch(b'Y'), Some(12));
    assert_eq!(CfmcLogic::char_to_punch(b' '), None);
}

#[test]
fn punch_refs_match_codes() {
    assert!(CfmcLogic::punch_ref_matches(b"5", &[1, 5], false));
    assert!(!CfmcLogic::punch_ref_matches(b"5", &[1, 2], false));
    // multi-column: code 13 is code 1 of the second column
    assert!(CfmcLogic::punch_ref_matches(b" 1", &[13], true));
    assert!(!CfmcLogic::punch_ref_matches(b"1 ", &[13], true));
    assert!(CfmcLogic::punch_ref_matches(b"X", &[11], true));
    assert!(!CfmcLogic::punch_ref_matches(b"", &[1], false));
}

#[test]
fn responses_intersect_values_and_ranges() {
    assert!(CfmcLogic::responses_intersect(&strings(&["02"]), &strings(&["2"])));
    assert!(CfmcLogic::responses_intersect(&strings(&[" ab "]), &strings(&["AB"])));
    assert!(CfmcLogic::responses_intersect(&strings(&["5"]), &strings(&["1-9"])));
    assert!(!CfmcLogic::responses_intersect(&strings(&["10"]), &strings(&["1-9"])));
    assert!(CfmcLogic::responses_intersect(&strings(&["CB"]), &strings(&["CA-CZ"])));
    assert!(!CfmcLogic::responses_intersect(&strings(&["  "]), &strings(&[""])));
    assert!(!CfmcLogic::responses_intersect(&strings(&[]), &strings(&["1"])));
}

#[test]
fn responses_comparison_uses_first_values() {
    assert!(CfmcLogic::responses_comparison(&strings(&["", "3"]), &strings(&["5"]), &CfmcOperator::Less));
    assert!(!CfmcLogic::responses_comparison(&strings(&["7"]), &strings(&[" ", "5"]), &CfmcOperator::LessEqual));
    assert!(CfmcLogic::responses_comparison(&strings(&["abc"]), &strings(&["0"]), &CfmcOperator::GreaterEqual));
    assert!(!CfmcLogic::responses_comparison(&strings(&["3"]), &strings(&["5"]), &CfmcOperator::Equal));
    assert!(!CfmcLogic::responses_comparison(&strings(&["3"]), &strings(&[]), &CfmcOperator::Less));
}

#[test]
fn uncle_not_has_is_negation() {
    let rec = format!("{}1", " ".repeat(42));
    let has = UncleExpr::parse("43-1").unwrap().evaluate(&rec).unwrap();
    let not_has = UncleExpr::parse("43N1").unwrap().evaluate(&rec).unwrap();
    assert_eq!(not_has, !has);
    let past_end = UncleExpr::parse("99-$").unwrap().evaluate(&rec).unwrap();
    assert!(past_end);
}

#[test]
fn stray_closers_parse_like_kept_text() {
    let a = CfmcLogic::parse("COMP(1))").unwrap();
    let b = CfmcLogic::parse("COMP(1)").unwrap();
    assert_eq!(a.to_string(), b.to_string());
    let (cleaned, warnings) = CfmcLogic::check_balance("COMP(1))").unwrap();
    assert_eq!(cleaned.len() + warnings.len(), "COMP(1))".len());
}

#[test]
fn byte_lengths() {
    assert_eq!(byte_len_exec(&"aé€😀".chars().collect::<Vec<char>>()), 10);
}

#[test]
fn counter_lines() {
    assert!(matches!(counter_line("# comment"), Some(CounterLine::Skip)));
    assert!(matches!(counter_line("   "), Some(CounterLine::Skip)));
    assert!(matches!(counter_line("no colon here"), Some(CounterLine::Skip)));
    match counter_line(" COMP : ") {
        Some(CounterLine::Counter(c)) => {
            assert_eq!(c.label, "COMP");
            assert!(c.logic.is_none());
            assert_eq!(c.report_line(false), "COMP:                     0");
        }
        _ => panic!("expected a counter"),
    }
    match counter_line("QA: QA(1)") {
        Some(CounterLine::Counter(c)) => {
            assert_eq!(c.label, "QA");
            assert_eq!(c.logic.unwrap().to_string(), CfmcLogic::parse("QA(1)").unwrap().to_string());
        }
        _ => panic!("expected a counter"),
    }
    match counter_line("QB: QB(1") {
        Some(CounterLine::Invalid(m)) => {
            assert!(m.starts_with("ERROR: Unbalanced parentheses: 1 unclosed '('"));
            assert!(m.ends_with(" for 'QB: QB(1'"));
        }
        _ => panic!("expected an error"),
    }
}

#[test]
fn counter_report_lines() {
    let c = Counter { label: "Q1".to_string(), logic: None, logic_count: 12, response_count: 12 };
    assert_eq!(c.report_line(true), "Q1:                      12     12");
    let d = Counter { label: "Q1".to_string(), logic: None, logic_count: 12, response_count: 3 };
    assert_eq!(d.report_line(true), "Q1:                      12      3<--");
    assert_eq!(d.report_line(false), "Q1:                      12");
}

#[test]
fn categories_of_records() {
    assert_eq!(category_of(&[false, true, false]), Ok(1));
    assert_eq!(category_of(&[false, false]), Err(vec![]));
    assert_eq!(category_of(&[true, false, true]), Err(vec![0, 2]));
}

#[test]
fn character_columns() {
    assert_eq!(char_to_byte("h\u{e9}llo", 2), 3);
    assert_eq!(char_to_byte("abc", 0), 0);
    assert_eq!(char_to_byte("abc", 10), 3);
    assert_eq!(char_substr("h\u{e9}llo", 2, 3), "\u{e9}l");
    assert_eq!(char_substr("abc", 2, 10), "bc");
    assert_eq!(char_substr("abc", 5, 6), "");
}

#[test]
fn column_windows_cut_at_the_line_end() {
    assert_eq!(column_text("abc 1.5 xyz", 3, 8).as_deref(), Some("1.5"));
    assert_eq!(column_text("abc 1.5", 4, 20).as_deref(), Some("1.5"));
    assert_eq!(column_text("abc", 3, 9).as_deref(), Some(""));
    assert_eq!(column_text("abc", 5, 9).as_deref(), Some(""));
    assert_eq!(column_text("abcdef", 4, 2), None);
    assert_eq!(column_text("é1", 1, 3), None);
    assert_eq!(column_text("é1", 2, 3).as_deref(), Some("1"));
}

#[test]
fn weight_fields_of_lines() {
    let spec = WeightSpec::parse("5.4").unwrap();
    assert_eq!(spec.weight_text("abcd 2.5 rest"), Some(Some("2.5".to_string())));
    assert_eq!(spec.weight_text("abcd 2"), Some(Some("2".to_string())));
    assert_eq!(spec.weight_text("abcd"), Some(None));
    assert_eq!(spec.weight_text("abcé"), None);
}

#[test]
fn stray_closer_logic_matches_by_punch() {
    let logic = CfmcLogic::parse("COMP(1))").unwrap();
    assert_eq!(logic.to_string(), CfmcLogic::parse("COMP(1)").unwrap().to_string());
    let line_a = "1".to_owned() + &"0".repeat(100);
    let line_b = "2".to_owned() + &"0".repeat(100);
    assert!(CfmcLogic::punch_ref_matches(&line_a.as_bytes()[0..1], &[1], false));
    assert!(!CfmcLogic::punch_ref_matches(&line_b.as_bytes()[0..1], &[1], false));
}

#[test]
fn blank_checks() {
    assert!(all_blank(&vec!["  ".to_string(), "".to_string(), "\t".to_string()]));
    assert!(!all_blank(&vec!["  ".to_string(), " 1".to_string()]));
    assert_eq!(blank_of_columns("12   45", 3, 3), Some(true));
    assert_eq!(blank_of_columns("12 3 45", 3, 3), Some(false));
    assert_eq!(blank_of_columns("12", 3, 3), Some(true));
    assert_eq!(blank_of_columns("é  ", 2, 2), None);
}

#[test]
fn punch_locations() {
    assert_eq!(location_bytes("0123456", 2, 3), b"123".to_vec());
    assert_eq!(location_bytes("0123", 3, 5), Vec::<u8>::new());
}

#[test]
fn response_substrings() {
    let rs = vec!["AB".to_string(), "CDE".to_string()];
    assert_eq!(responses_substring(&rs, "1.3"), Some(Ok("BCD".to_string())));
    assert_eq!(responses_substring(&rs, "4.3"), Some(Ok(String::new())));
    assert_eq!(responses_substring(&rs, "x.3"), Some(Err("Invalid column number: x".to_string())));
    assert_eq!(responses_substring(&rs, "1.y"), Some(Err("Invalid width: y".to_string())));
    assert_eq!(responses_substring(&rs, "13"), Some(Err("Invalid column.width specification: 13".to_string())));
    assert_eq!(responses_substring(&vec!["é".to_string()], "1.1"), None);
}
