use dp_library::text_map::TextMap;

use ahash::AHashMap;
use dp_library::{
    Banner, BannersTable, BannersTables, CrossTab, CrossTabsLogic, CrossTabsTable, QuestionType, RflQuestion,
    UncleExpr,
};

#[test]
fn test_convert_do_not_select() {
    // Test the specific case that broke
    assert_eq!(
        CrossTabsLogic::convert_do_not_select("Q5: DO NOT SELECT :1 OR :3"),
        Some("NOT(Q5:1,3)".to_string())
    );

    // Test single value
    assert_eq!(
        CrossTabsLogic::convert_do_not_select("Q10: DO NOT SELECT :2"),
        Some("NOT(Q10:2)".to_string())
    );

    // Test multiple OR values
    assert_eq!(
        CrossTabsLogic::convert_do_not_select("QX1: DO NOT SELECT :1 OR :2 OR :5"),
        Some("NOT(QX1:1,2,5)".to_string())
    );

    // Test with extra whitespace
    assert_eq!(
        CrossTabsLogic::convert_do_not_select("Q5:    DO NOT SELECT   :1   OR   :3"),
        Some("NOT(Q5:1,3)".to_string())
    );

    // Test non-matching cases
    assert_eq!(CrossTabsLogic::convert_do_not_select("Q5: SELECT :1 OR :3"), None);
}

#[test]
fn test_do_not_select_integration() {
    let result = CrossTabsLogic::new("Q5: DO NOT SELECT :1 OR :3").unwrap();
    let converted = result.to_inorder();
    assert_eq!(converted, "NOT(Q5:1,3)");
}

#[test]
fn test_not_expression_reconstruction() {
    let simple_not = CrossTabsLogic::new("NOT(Q1:1)").unwrap();
    assert_eq!(simple_not.to_inorder(), "NOT(Q1:1)");

    let complex_not = CrossTabsLogic::new("NOT(Q1:1 OR Q2:2)").unwrap();
    assert_eq!(complex_not.to_inorder(), "NOT(Q1:1 OR Q2:2)");
}

#[test]
fn test_implicit_and() {
    let implicit = CrossTabsLogic::new("D3:6-7 & D2:2 (D7A:2-4 & D7B:1)").unwrap();
    let explicit = CrossTabsLogic::new("D3:6-7 & D2:2 & (D7A:2-4 & D7B:1)").unwrap();
    assert_eq!(implicit.to_inorder(), explicit.to_inorder());
}

fn question(name: &str, start_col: usize, width: usize) -> RflQuestion {
    RflQuestion {
        label: name.to_string(),
        text_lines: Vec::new(),
        response_codes: TextMap::new(),
        exceptions: Vec::new(),
        start_col,
        width,
        max_responses: 1,
        min_value: None,
        max_value: None,
        question_type: QuestionType::Fld,
    }
}

fn test_questions(entries: &[(&str, usize, usize)]) -> AHashMap<String, RflQuestion> {
    let mut map = AHashMap::new();
    for &(name, start_col, width) in entries {
        map.insert(name.to_string(), question(name, start_col, width));
    }
    map
}

#[test]
fn test_slash_syntax() {
    let result = CrossTabsLogic::new("QX2/Q17:1").unwrap();
    assert_eq!(result.to_inorder(), "QX2:1 OR Q17:1");

    let result = CrossTabsLogic::new("QX2/Q17:1,2").unwrap();
    assert_eq!(result.to_inorder(), "QX2:1,2 OR Q17:1,2");

    let result = CrossTabsLogic::new("QA/QB/QC:3").unwrap();
    assert_eq!(result.to_inorder(), "QA:3 OR QB:3 OR QC:3");
}

#[test]
fn test_descriptive_text_dropped_in_uncle_syntax() {
    let questions = test_questions(&[("D2", 87, 1)]);
    let logic = CrossTabsLogic::new("(DENVER, NORTH SUBURBS, SOUTH/WEST SUBURBS) & D2:1").unwrap();
    let uncle = logic.to_uncle_syntax(&questions);
    assert_eq!(uncle, "1!87-1");
}

fn row(cells: &[&str]) -> Vec<String> {
    cells.iter().map(|c| c.to_string()).collect()
}

#[test]
fn crosstab_new_trims_title_and_marks_mean() {
    let ct = CrossTab::new("  Age  ", "QAGE:MEAN", "ALL", "PCT").unwrap();
    assert_eq!(ct.title, "Age");
    assert_eq!(ct.options, "NOVP FDP 0 PCT");
    let plain = CrossTab::new("Sex", "QSEX:1", "ALL", "PCT").unwrap();
    assert_eq!(plain.options, "PCT");
}

#[test]
fn uncle_titles_double_special_characters() {
    let b = Banner::new("men/women", " a&b=c  ", "Q1:1", "ALL", "").unwrap();
    assert_eq!(b.uncle_title(), "MEN//WOMEN");
    assert_eq!(b.uncle_subtitle(), "A&&B==C");
    let ct = CrossTab::new("x=y", "Q1:1", "ALL", "").unwrap();
    assert_eq!(ct.uncle_title(), "X==Y");
}

#[test]
fn table_index_keeps_digits_only() {
    let t = CrossTabsTable::new("T-12a3", "Title", true);
    assert_eq!(t.index, "123");
    let b = BannersTable::new("B7", "/BANNER 7");
    assert_eq!(b.index, "7");
    assert!(b.banners.is_empty());
}

#[test]
fn check_bases_adds_missing_base_first() {
    let mut t = CrossTabsTable::new("1", "T", false);
    t.add_crosstab("Men", "QSEX:1", "QREG:1", "").unwrap();
    t.add_crosstab("All", "QSEX:2", "ALL", "").unwrap();
    t.check_bases();
    assert_eq!(t.crosstabs.len(), 3);
    assert_eq!(t.crosstabs[0].title, "QREG:1");
    assert_eq!(t.crosstabs[0].base, "ALL");
    assert_eq!(t.crosstabs[0].options, "NOPRINT");
    assert_eq!(t.crosstabs[1].title, "Men");
    assert_eq!(t.crosstabs[2].title, "All");
}

#[test]
fn check_bases_keeps_table_when_bases_present() {
    let mut t = CrossTabsTable::new("1", "T", false);
    t.add_crosstab("Base", "QREG:1", "ALL", "").unwrap();
    t.add_crosstab("Men", "QSEX:1", "QREG:1", "").unwrap();
    t.check_bases();
    assert_eq!(t.crosstabs.len(), 2);
}

#[test]
fn replace_whole_word_only_replaces_whole_words() {
    assert_eq!(BannersTables::replace_whole_word("AGEAGE", "AGE", "X"), "AGEAGE");
    assert_eq!(BannersTables::replace_whole_word("AGE AGEGROUP:1 (AGE)", "AGE", "X"), "X AGEGROUP:1 (X)");
    assert_eq!(BannersTables::replace_whole_word("D1 & D10 & XD1", "D1", "AGE"), "AGE & D10 & XD1");
    assert_eq!(BannersTables::replace_whole_word("(D1)", "D1", "Z"), "(Z)");
    assert_eq!(BannersTables::replace_whole_word("no match", "D1", "Z"), "no match");
    // law on concrete values: a word replaced by itself
    assert_eq!(BannersTables::replace_whole_word("D1 D1x D1", "D1", "D1"), "D1 D1x D1");
}

#[test]
fn fix_agegroups_fills_in_age_bands() {
    let mut specs = "D1".to_string();
    let mut age = String::new();
    BannersTables::fix_agegroups(&mut specs, "18-34", &mut age);
    assert_eq!(specs, "AGEGROUP:1-2");
    assert_eq!(age, "AGE");

    let mut specs = "AGE".to_string();
    BannersTables::fix_agegroups(&mut specs, "50+", &mut age);
    assert_eq!(specs, "(QAGE:50-110 OR AGEGROUP:5-6)");

    let mut specs = "AGEGROUP:3".to_string();
    BannersTables::fix_agegroups(&mut specs, "18-34", &mut age);
    assert_eq!(specs, "AGEGROUP:3");

    let mut specs = "D1".to_string();
    BannersTables::fix_agegroups(&mut specs, "MEN", &mut age);
    assert_eq!(specs, "D1");
}

#[test]
fn fix_national_regions_appends_state_codes() {
    let mut specs = "Q1:1".to_string();
    BannersTables::fix_national_regions(&mut specs, "PACIFIC");
    assert_eq!(specs, "Q1:1 & FIPSCOMB:02,06,15,41,53");
    let mut specs = "Q1:1".to_string();
    BannersTables::fix_national_regions(&mut specs, "pacific");
    assert_eq!(specs, "Q1:1");
}

#[test]
fn fix_spec_format_splits_trailing_codes() {
    assert_eq!(BannersTables::fix_spec_format("  D2B2  "), "D2B:2");
    assert_eq!(BannersTables::fix_spec_format("Q1A1"), "Q1A:1");
    assert_eq!(BannersTables::fix_spec_format("QD7B12"), "QD7B:12");
    assert_eq!(BannersTables::fix_spec_format("Q1:1"), "Q1:1");
    assert_eq!(BannersTables::fix_spec_format("D2B2:1"), "D2B2:1");
    assert_eq!(BannersTables::fix_spec_format("2B2"), "2B2");
    assert_eq!(BannersTables::fix_spec_format("AB12"), "AB12");
}

#[test]
fn from_rows_builds_tables() {
    let rows = vec![
        row(&["T1", "TITLE", "", ""]),
        row(&["1", "SEX", "Men", "QSEX:1"]),
        row(&["2", "", "Women", "QSEX:2", "QREG:1"]),
        row(&["short", "row"]),
        row(&["3", "AGE", "18-34", "D1"]),
        row(&["B2", "x", "", ""]),
        row(&["1", "REGION", "WEST", "QR:1"]),
    ];
    let t = BannersTables::from_rows(&rows).unwrap();
    assert_eq!(t.tables.len(), 2);
    assert_eq!(t.tables[0].index, "1");
    assert_eq!(t.tables[0].title, "/BANNER 1");
    assert_eq!(t.tables[0].banners.len(), 3);
    assert_eq!(t.tables[0].banners[0].subtitle, "Men");
    assert_eq!(t.tables[0].banners[0].base, "ALL");
    assert_eq!(t.tables[0].banners[1].base, "QREG:1");
    assert_eq!(t.tables[0].banners[2].specs.to_inorder(), "AGEGROUP:1-2");
    assert_eq!(t.tables[1].index, "2");
    assert_eq!(t.tables[1].banners[0].specs.to_inorder(), "QR:1 & FIPSCOMB:02,04,08,16,30,32,35,49,56,06,15,41,53");
}

#[test]
fn from_rows_without_table_start_has_no_tables() {
    let rows = vec![row(&["1", "SEX", "Men", "QSEX:1"])];
    let t = BannersTables::from_rows(&rows).unwrap();
    assert!(t.tables.is_empty());
}

#[test]
fn banner_output_for_one_table() {
    let rows = vec![
        row(&["T1", "TITLE", "", ""]),
        row(&["1", "SEX", "Men", "QSEX:1"]),
        row(&["2", "", "Women", "QSEX:2"]),
        row(&["3", "AGE", "Young", "QAGE:1"]),
    ];
    let t = BannersTables::from_rows(&rows).unwrap();
    let questions = test_questions(&[("QSEX", 40, 1), ("QAGE", 41, 1)]);
    let out = t.generate_banner_output(&questions, "NBC").unwrap();
    let expected = "*\nTABLE 901\nT /BANNER 1\nT &CC2:3 SEX&CC4:4 AGE\nT &CC2:3==&CC4:4==\n\
O FORMAT 27 6 1 0 PDP 0 PCTS ZCELL '-' ZPACELL '-' SZR\nC &CETOTAL;ALL;COLW 5\n\
C &CEMEN;1!40-1\nC &CEWOMEN;1!40-2\nC &CEYOUNG;1!41-1\n\
F &CP HART RESEARCH ASSOCIATES//PUBLIC OPINION STRATEGIES\n";
    assert_eq!(out, expected);
    let other = t.generate_banner_output(&questions, "pos").unwrap();
    assert!(other.ends_with("F &CP P U B L I C   O P I N I O N   S T R A T E G I E S\n"));
}

#[test]
fn generated_uncle_text_parses_back() {
    let one = test_questions(&[("D2", 87, 1)]);
    let text = CrossTabsLogic::new("D2:1").unwrap().to_uncle_syntax(&one);
    assert_eq!(text, "1!87-1");
    assert_eq!(format!("{:?}", UncleExpr::parse(&text).unwrap()), format!("{:?}", UncleExpr::parse("87-1").unwrap()));

    let mut multi = question("Q9", 40, 1);
    multi.max_responses = 3;
    let mut qs = AHashMap::new();
    qs.insert("Q9".to_string(), multi);
    let text = CrossTabsLogic::new("Q9:2").unwrap().to_uncle_syntax(&qs);
    assert_eq!(text, "1!40:42-2");
    assert_eq!(
        format!("{:?}", UncleExpr::parse(&text).unwrap()),
        format!("{:?}", UncleExpr::parse("40-2 OR 41-2 OR 42-2").unwrap())
    );

    let wide = test_questions(&[("AGE", 20, 2)]);
    let text = CrossTabsLogic::new("AGE:35").unwrap().to_uncle_syntax(&wide);
    assert_eq!(text, "R(1!20:21,35)");
    let mut rec = vec![b' '; 30];
    rec[19] = b'3';
    rec[20] = b'5';
    let rec = String::from_utf8(rec).unwrap();
    assert_eq!(UncleExpr::parse(&text).unwrap().evaluate(&rec), Ok(true));

    let mut series = question("Q12", 20, 2);
    series.max_responses = 4;
    let mut qs = AHashMap::new();
    qs.insert("Q12".to_string(), series);
    let text = CrossTabsLogic::new("Q12:35").unwrap().to_uncle_syntax(&qs);
    assert_eq!(text, "R(1!20:21/1!22:23...1!26:27,35)");
    let mut rec = vec![b' '; 30];
    rec[23] = b'3';
    rec[24] = b'5';
    let rec = String::from_utf8(rec).unwrap();
    let e = UncleExpr::parse(&text).unwrap();
    assert_eq!(e.evaluate(&rec), Ok(true));
    assert_eq!(e.evaluate(&" ".repeat(30)), Ok(false));
}
