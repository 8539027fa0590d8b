use dp_library::weight::e_file::{float_text_exec, parse_e_content, parse_weight_line, split_lines, ParsedWeightSpec};

const SAMPLE_E: &str = "\
* Test weight spec
*
TABLE 600
X ENTER NOADD
X SH 'DEL ABA.C'
X SET OUT FILE 'ABA.WT' OFF
X WEIGHT 601 TH 602 TO 1!2000:2006 4 OFF
X SET OUT FILE 'ABA.WT' CLOSE
X PUNCH CHAR
*
TABLE 601
R MALE;1!43-1;VALUE .48
R FEMALE//OTHER;1!43-2:3;VALUE .52
*
TABLE 602
R 18 TO 44;1!41-1:3;VALUE .47
R 65 AND OVER;1!41-6;VALUE .20
R BALANCE;1!41-4,5,7;VALUE .33
*
TABLE 700
R SOMETHING;1!50-1;VALUE 1.0
";

fn num(text: &str) -> f64 {
    text.parse::<f64>().unwrap()
}

fn total_of(spec: &ParsedWeightSpec, pass: usize) -> Option<f64> {
    spec.passes[pass].directive.total.as_ref().map(|t| num(t))
}

#[test]
fn parse_control_table_and_weight_tables() {
    let spec = parse_e_content(SAMPLE_E, 600).unwrap();
    assert_eq!(spec.passes.len(), 1);
    assert!(spec.passes[0].qualifier.is_none());
    let d = spec.directive();
    assert_eq!(d.table_ids, vec![601, 602]);
    assert_eq!(d.col_start, 2000);
    assert_eq!(d.col_end, 2006);
    assert_eq!(d.decimal_width, 4);
    assert_eq!(d.field_width(), 7);
    assert!(d.total.is_none());

    assert_eq!(spec.tables.len(), 2);

    assert_eq!(spec.tables[0].id, 601);
    assert_eq!(spec.tables[0].categories.len(), 2);
    assert_eq!(spec.tables[0].categories[0].label, "MALE");
    assert!((num(&spec.tables[0].categories[0].target) - 0.48).abs() < 1e-9);
    assert_eq!(spec.tables[0].categories[1].label, "FEMALE//OTHER");
    assert!((num(&spec.tables[0].categories[1].target) - 0.52).abs() < 1e-9);

    assert_eq!(spec.tables[1].id, 602);
    assert_eq!(spec.tables[1].categories.len(), 3);
    assert!((num(&spec.tables[1].categories[2].target) - 0.33).abs() < 1e-9);
}

#[test]
fn parse_total_directive() {
    let content = "\
TABLE 600
X WEIGHT 601 TH 601 TO 1!100:106 4 OFF TOTAL 800
*
TABLE 601
R A;1!10-1;VALUE .5
R B;1!10-2;VALUE .5
";
    let spec = parse_e_content(content, 600).unwrap();
    assert_eq!(spec.directive().total.as_ref().map(|t| num(t)), Some(800.0));
}

#[test]
fn missing_control_table_returns_error() {
    let err = parse_e_content(SAMPLE_E, 999).unwrap_err();
    assert!(err.message.contains("999"), "{}", err.to_string());
}

#[test]
fn missing_weight_table_returns_error() {
    let content = "\
TABLE 600
X WEIGHT 601 TH 602 TO 1!100:106 4 OFF
*
TABLE 601
R A;1!10-1;VALUE 1.0
";
    let err = parse_e_content(content, 600).unwrap_err();
    assert!(err.message.contains("602"), "{}", err.to_string());
}

#[test]
fn commented_rows_are_skipped() {
    let content = "\
TABLE 600
X WEIGHT 601 TH 601 TO 1!100:106 4 OFF
*
TABLE 601
R ACTIVE;1!10-1;VALUE .6
*R COMMENTED OUT;1!10-2;VALUE .1
R REST;1!10-2:3;VALUE .4
";
    let spec = parse_e_content(content, 600).unwrap();
    assert_eq!(spec.tables[0].categories.len(), 2);
}

#[test]
fn parse_single_table_no_th() {
    let content = "\
TABLE 600
X WEIGHT 601 TO 1!5060:5066 4
*
TABLE 601
R A;1!10-1;VALUE .5
R B;1!10-2;VALUE .5
";
    let spec = parse_e_content(content, 600).unwrap();
    assert_eq!(spec.directive().table_ids, vec![601]);
    assert_eq!(spec.tables.len(), 1);
}

#[test]
fn parse_multi_range_tables() {
    let content = "\
TABLE 600
X WEIGHT 601 603 TH 606 608 TH 610 TO 1!5060:5066 4
TABLE 601
R A;1!10-1;VALUE .5
R B;1!10-2;VALUE .5
*
TABLE 603
R A;1!11-1;VALUE .5
R B;1!11-2;VALUE .5
*
TABLE 604
R A;1!12-1;VALUE .5
R B;1!12-2;VALUE .5
*
TABLE 605
R A;1!13-1;VALUE .5
R B;1!13-2;VALUE .5
*
TABLE 606
R A;1!14-1;VALUE .5
R B;1!14-2;VALUE .5
*
TABLE 608
R A;1!15-1;VALUE .5
R B;1!15-2;VALUE .5
*
TABLE 609
R A;1!16-1;VALUE .5
R B;1!16-2;VALUE .5
*
TABLE 610
R A;1!17-1;VALUE .5
R B;1!17-2;VALUE .5
";
    let spec = parse_e_content(content, 600).unwrap();
    assert_eq!(spec.directive().table_ids, vec![601, 603, 604, 605, 606, 608, 609, 610]);
    assert_eq!(spec.tables.len(), 8);
}

#[test]
fn parse_unweight_then_weight() {
    let content = "\
TABLE 600
X ENTER NOADD
X WEIGHT UNWEIGHT
X WEIGHT 601 TH 609 TO 1!5060:5066 4
*
TABLE 601
R A;1!10-1;VALUE .5
R B;1!10-2;VALUE .5
*
TABLE 602
R A;1!11-1;VALUE .5
R B;1!11-2;VALUE .5
*
TABLE 603
R A;1!12-1;VALUE .5
R B;1!12-2;VALUE .5
*
TABLE 604
R A;1!13-1;VALUE .5
R B;1!13-2;VALUE .5
*
TABLE 605
R A;1!14-1;VALUE .5
R B;1!14-2;VALUE .5
*
TABLE 606
R A;1!15-1;VALUE .5
R B;1!15-2;VALUE .5
*
TABLE 607
R A;1!16-1;VALUE .5
R B;1!16-2;VALUE .5
*
TABLE 608
R A;1!17-1;VALUE .5
R B;1!17-2;VALUE .5
*
TABLE 609
R A;1!18-1;VALUE .5
R B;1!18-2;VALUE .5
";
    let spec = parse_e_content(content, 600).unwrap();
    assert_eq!(spec.directive().table_ids, vec![601, 602, 603, 604, 605, 606, 607, 608, 609]);
    assert_eq!(spec.tables.len(), 9);
}

#[test]
fn conditions_evaluate_correctly() {
    let spec = parse_e_content(SAMPLE_E, 600).unwrap();
    let mut record = vec![b' '; 50];
    record[42] = b'1';
    let record = String::from_utf8(record).unwrap();

    let cat = &spec.tables[0].categories[0];
    assert!(cat.condition.evaluate(&record).unwrap());
}

#[test]
fn parse_split_sample_with_x_set_qual() {
    let content = "\
TABLE 600
X ENTER NOADD
X SET QUAL(1!87-1)
X WEIGHT 601 TH 602 TO 1!2000:2006 4 OFF TOTAL 2000
X SET QUAL(1!87-2)
X WEIGHT 601 TH 602 TO 1!2000:2006 4 OFF TOTAL 2000
*
TABLE 601
R MALE;1!43-1;VALUE .48
R FEMALE;1!43-2;VALUE .52
*
TABLE 602
R YOUNG;1!41-1:3;VALUE .47
R OLD;1!41-4:7;VALUE .53
";
    let spec = parse_e_content(content, 600).unwrap();
    assert_eq!(spec.passes.len(), 2);

    assert!(spec.passes[0].qualifier.is_some());
    let q0 = spec.passes[0].qualifier.as_ref().unwrap();
    let mut record_a = vec![b' '; 90];
    record_a[86] = b'1';
    assert!(q0.evaluate(&String::from_utf8(record_a).unwrap()).unwrap());

    assert!(spec.passes[1].qualifier.is_some());
    let q1 = spec.passes[1].qualifier.as_ref().unwrap();
    let mut record_b = vec![b' '; 90];
    record_b[86] = b'2';
    assert!(q1.evaluate(&String::from_utf8(record_b).unwrap()).unwrap());

    assert_eq!(spec.passes[0].directive.table_ids, vec![601, 602]);
    assert_eq!(spec.passes[1].directive.table_ids, vec![601, 602]);
    assert_eq!(total_of(&spec, 0), Some(2000.0));
    assert_eq!(spec.tables.len(), 2);
}

#[test]
fn parse_qual_cleared_by_empty_parens() {
    let content = "\
TABLE 600
X SET QUAL(1!87-1)
X WEIGHT 601 TO 1!100:106 4 OFF
X SET QUAL()
X WEIGHT 601 TO 1!100:106 4 OFF
*
TABLE 601
R A;1!10-1;VALUE .5
R B;1!10-2;VALUE .5
";
    let spec = parse_e_content(content, 600).unwrap();
    assert_eq!(spec.passes.len(), 2);
    assert!(spec.passes[0].qualifier.is_some());
    assert!(spec.passes[1].qualifier.is_none());
}

#[test]
fn parse_qual_all_clears_qualifier() {
    let content = "\
TABLE 620
X WEIGHT UNWEIGHT
X IF(1!70N1) 1!2316=1
X SET QUAL(1!70-1)
X WEIGHT 621 TO 1!2410:2416 4 OFF TOTAL 3200
X SET QUAL(ALL)
*
TABLE 621
R A;1!10-1;VALUE .5
R B;1!10-2;VALUE .5
";
    let spec = parse_e_content(content, 620).unwrap();
    assert_eq!(spec.passes.len(), 1);
    assert!(spec.passes[0].qualifier.is_some());
    assert_eq!(total_of(&spec, 0), Some(3200.0));

    assert_eq!(spec.assignments.len(), 1);
    assert_eq!(spec.assignments[0].col, 2316);
    assert_eq!(spec.assignments[0].value, "1");
    let mut record_not_rv = vec![b' '; 100];
    record_not_rv[69] = b'2';
    assert!(spec.assignments[0].condition.evaluate(&String::from_utf8(record_not_rv).unwrap()).unwrap());
}

#[test]
fn duplicate_table_uses_last_definition() {
    let content = "\
TABLE 600
X WEIGHT 601 TH 602 TO 1!2000:2006 4 OFF
*
TABLE 601
R MALE;1!43-1;VALUE .48
R FEMALE//OTHER;1!43-2:3;VALUE .52
*
TABLE 602
R OLD FIRST;1!41-1;VALUE .30
R OLD SECOND;1!41-2;VALUE .70
*
TABLE 603
R REGISTERED;1!70-1;VALUE .80
R NOT REGISTERED;1!70-2:3;VALUE .20
*
TABLE 602
R NEW FIRST;1!41-1;VALUE .65
R NEW SECOND;1!41-2;VALUE .35
";
    let spec = parse_e_content(content, 600).unwrap();
    assert_eq!(spec.tables.len(), 2);

    let t602 = spec.tables.iter().find(|t| t.id == 602).unwrap();
    assert_eq!(t602.categories.len(), 2);
    assert_eq!(t602.categories[0].label, "NEW FIRST");
    assert!((num(&t602.categories[0].target) - 0.65).abs() < 1e-9);
    assert_eq!(t602.categories[1].label, "NEW SECOND");
    assert!((num(&t602.categories[1].target) - 0.35).abs() < 1e-9);
}

#[test]
fn parse_split_sample_different_tables() {
    let content = "\
TABLE 600
X SET QUAL(1!87-1)
X WEIGHT 601 TO 1!100:106 4 OFF TOTAL 500
X SET QUAL(1!87-2)
X WEIGHT 602 TO 1!100:106 4 OFF TOTAL 500
*
TABLE 601
R A;1!10-1;VALUE .5
R B;1!10-2;VALUE .5
*
TABLE 602
R X;1!11-1;VALUE .6
R Y;1!11-2;VALUE .4
";
    let spec = parse_e_content(content, 600).unwrap();
    assert_eq!(spec.passes.len(), 2);
    assert_eq!(spec.passes[0].directive.table_ids, vec![601]);
    assert_eq!(spec.passes[1].directive.table_ids, vec![602]);
    assert_eq!(spec.tables.len(), 2);
    assert_eq!(spec.tables[0].id, 601);
    assert_eq!(spec.tables[1].id, 602);
}

#[test]
fn weight_line_errors_carry_the_line() {
    let content = "\
TABLE 600
X WEIGHT 601 1!100:106 4
";
    let err = parse_e_content(content, 600).unwrap_err();
    assert_eq!(err.line_num, 2);
    assert_eq!(err.message, "X WEIGHT parse error: missing 'TO' keyword");
}

#[test]
fn control_table_without_weight_is_an_error() {
    let content = "\
TABLE 600
X WEIGHT UNWEIGHT
";
    let err = parse_e_content(content, 600).unwrap_err();
    assert_eq!(err.line_num, 1);
    assert_eq!(err.message, "no X WEIGHT directive found in TABLE 600");
}

#[test]
fn invalid_total_is_an_error() {
    let content = "\
TABLE 600
X WEIGHT 601 TO 1!100:106 4 TOTAL lots
";
    let err = parse_e_content(content, 600).unwrap_err();
    assert_eq!(err.message, "X WEIGHT parse error: invalid TOTAL value");
}

#[test]
fn missing_table_message_is_exact() {
    let err = parse_e_content(SAMPLE_E, 999).unwrap_err();
    assert_eq!(err.line_num, 0);
    assert_eq!(err.message, "TABLE 999 not found in .E file");
    let content = "TABLE 600\r\nX WEIGHT 601 TO 1!100:106 4\r\n";
    let err = parse_e_content(content, 600).unwrap_err();
    assert_eq!(err.message, "TABLE 601 referenced by X WEIGHT but not found in .E file");
}

#[test]
fn lines_follow_str_lines() {
    for text in ["a\nb\r\nc", "a\n\nb\n", "", "\n", "x\r", "one\r\ntwo\r\n"] {
        let got: Vec<String> = split_lines(text).iter().map(|l| l.iter().collect()).collect();
        let want: Vec<String> = text.lines().map(String::from).collect();
        assert_eq!(got, want, "{text:?}");
    }
}

#[test]
fn float_texts_are_those_f64_accepts() {
    for text in ["800", ".5", "1.", "-2.5e3", "+1E-2", "inf", "-Infinity", "NaN", "1e", ".", "", "abc", "1.2.3", "--1", "e5"] {
        let chars: Vec<char> = text.chars().collect();
        assert_eq!(float_text_exec(&chars), text.parse::<f64>().is_ok(), "{text:?}");
    }
}

#[test]
fn weight_lines() {
    let d = parse_weight_line("601 603 TH 604 to 2000:2006 4 OFF total 12.5", 7).unwrap();
    assert_eq!(d.table_ids, vec![601, 603, 604]);
    assert_eq!((d.col_start, d.col_end, d.decimal_width), (2000, 2006, 4));
    assert_eq!(d.total.as_deref(), Some("12.5"));
    let e = parse_weight_line("601 TO 1!2000 4", 7).unwrap_err();
    assert_eq!(e.line_num, 7);
    assert_eq!(e.message, "X WEIGHT parse error: invalid column range (expected e.g. 2000:2006)");
    let e = parse_weight_line("TO 1!1:2 4", 3).unwrap_err();
    assert_eq!(e.message, "X WEIGHT parse error: no table IDs before 'TO'");
    let e = parse_weight_line("601 TO 1!1:2", 3).unwrap_err();
    assert_eq!(e.message, "X WEIGHT parse error: expected column range and decimal width after 'TO'");
    let e = parse_weight_line("601 TO 1!1:2 x", 3).unwrap_err();
    assert_eq!(e.message, "X WEIGHT parse error: invalid decimal width");
}
