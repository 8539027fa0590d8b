use dp_library::UncleExpr;


// Helper: build a fixed-width record with specific values at specific columns.
fn record(entries: &[(usize, &str)]) -> String {
    // Find the maximum column needed.
    let max_col = entries.iter().map(|(col, val)| col + val.len()).max().unwrap_or(1);
    let mut s = vec![b' '; max_col];
    for &(col, val) in entries {
        for (i, b) in val.bytes().enumerate() {
            s[col - 1 + i] = b;
        }
    }
    String::from_utf8(s).unwrap()
}

fn eval(expr: &str, rec: &str) -> bool {
    UncleExpr::parse(expr).unwrap().evaluate(rec).unwrap()
}

// -----------------------------------------------------------------------
// Parsing smoke tests (round-trip via evaluate)
// -----------------------------------------------------------------------

#[test]
fn parse_simple_term() {
    // 1!43-1 — position 43 has code 1
    let rec = record(&[(43, "1")]);
    assert!(eval("1!43-1", &rec));
    assert!(!eval("1!43-2", &rec));
}

#[test]
fn parse_no_record_prefix() {
    // "43-1" and "1!43-1" are equivalent
    let rec = record(&[(43, "1")]);
    assert!(eval("43-1", &rec));
}

#[test]
fn parse_single_digit_position() {
    // "6-1" same as "1!06-1" same as "1!6-1"
    let rec = record(&[(6, "1")]);
    assert!(eval("6-1", &rec));
    assert!(eval("06-1", &rec));
    assert!(eval("1!6-1", &rec));
}

#[test]
fn parse_code_range() {
    // 43-2:3 — codes 2 or 3
    let rec2 = record(&[(43, "2")]);
    let rec3 = record(&[(43, "3")]);
    let rec1 = record(&[(43, "1")]);
    assert!(eval("1!43-2:3", &rec2));
    assert!(eval("1!43-2:3", &rec3));
    assert!(!eval("1!43-2:3", &rec1));
}

#[test]
fn parse_code_list() {
    // 41-4,5,7
    let rec = record(&[(41, "5")]);
    assert!(eval("1!41-4,5,7", &rec));
    assert!(!eval("1!41-4,5,7", &record(&[(41, "6")])));
}

#[test]
fn parse_code_10_alias() {
    // 66-6:10 means codes 6,7,8,9,0
    assert!(eval("66-6:10", &record(&[(66, "0")])));
    assert!(eval("66-6:10", &record(&[(66, "9")])));
    assert!(!eval("66-6:10", &record(&[(66, "1")])));
}

#[test]
fn parse_blank() {
    // 17-$ means position 17 is blank
    let blank = record(&[(17, " ")]);
    let non_blank = record(&[(17, "1")]);
    assert!(eval("17-$", &blank));
    assert!(!eval("17-$", &non_blank));
    // 17=$ is equivalent
    assert!(eval("17=$", &blank));
}

#[test]
fn parse_not_has_inline() {
    // 49N1 — position 49 does NOT have code 1
    assert!(eval("49N1", &record(&[(49, "2")])));
    assert!(!eval("49N1", &record(&[(49, "1")])));
}

// -----------------------------------------------------------------------
// Boolean operators
// -----------------------------------------------------------------------

#[test]
fn implicit_and() {
    // 48-6 51-1 — both must be true
    let rec = record(&[(48, "6"), (51, "1")]);
    assert!(eval("1!48-6 1!51-1", &rec));
    assert!(!eval("1!48-6 1!51-1", &record(&[(48, "6"), (51, "2")])));
}

#[test]
fn explicit_and_keyword() {
    let rec = record(&[(48, "6"), (51, "1")]);
    assert!(eval("1!48-6 AND 1!51-1", &rec));
}

#[test]
fn or_operator() {
    let rec_u = record(&[(1949, "U")]);
    let rec_s = record(&[(1949, "S")]);
    let rec_r = record(&[(1949, "R")]);
    assert!(eval("1!1949 'U' OR 1!1949 'S'", &rec_u));
    assert!(eval("1!1949 'U' OR 1!1949 'S'", &rec_s));
    assert!(!eval("1!1949 'U' OR 1!1949 'S'", &rec_r));
}

#[test]
fn not_expression() {
    // NOT(44-1) — position 44 does not have code 1
    assert!(eval("NOT(44-1)", &record(&[(44, "2")])));
    assert!(!eval("NOT(44-1)", &record(&[(44, "1")])));
}

#[test]
fn not_wrapping_and() {
    // NOT(44-2:4 R(45:46,1)) — the AND expression inside NOT
    // Position 44 has code 3 AND field 45:46 = "01" → true → NOT = false
    let rec = record(&[(44, "3"), (45, "0"), (46, "1")]);
    assert!(!eval("NOT(44-2:4 R(45:46,1))", &rec));
    // Position 44 has code 5 → inner AND is false → NOT = true
    let rec2 = record(&[(44, "5"), (45, "0"), (46, "1")]);
    assert!(eval("NOT(44-2:4 R(45:46,1))", &rec2));
}

#[test]
fn and_or_precedence() {
    // "35-1 36-2 or 37-5" should parse as "(35-1 AND 36-2) OR 37-5"
    let both = record(&[(35, "1"), (36, "2"), (37, "3")]);
    let just37 = record(&[(35, "9"), (36, "9"), (37, "5")]);
    let neither = record(&[(35, "9"), (36, "9"), (37, "9")]);
    assert!(eval("35-1 36-2 OR 37-5", &both));
    assert!(eval("35-1 36-2 OR 37-5", &just37));
    assert!(!eval("35-1 36-2 OR 37-5", &neither));
}

// -----------------------------------------------------------------------
// Position list and range
// -----------------------------------------------------------------------

#[test]
fn position_list() {
    // 65,67-1 — position 65 or 67 has code 1
    assert!(eval("65,67-1", &record(&[(65, "1")])));
    assert!(eval("65,67-1", &record(&[(67, "1")])));
    assert!(!eval("65,67-1", &record(&[(66, "1")])));
}

#[test]
fn position_range() {
    // 65:67-1 — position 65, 66, or 67 has code 1
    assert!(eval("65:67-1", &record(&[(65, "1")])));
    assert!(eval("65:67-1", &record(&[(66, "1")])));
    assert!(eval("65:67-1", &record(&[(67, "1")])));
    assert!(!eval("65:67-1", &record(&[(64, "1")])));
}

#[test]
fn mixed_position_list() {
    // 51,53:55-6 — positions 51, 53, 54, 55 have a 6-code
    assert!(eval("51,53:55-6", &record(&[(51, "6")])));
    assert!(eval("51,53:55-6", &record(&[(53, "6")])));
    assert!(eval("51,53:55-6", &record(&[(54, "6")])));
    assert!(eval("51,53:55-6", &record(&[(55, "6")])));
    assert!(!eval("51,53:55-6", &record(&[(52, "6")])));
}

// -----------------------------------------------------------------------
// R() qualifier
// -----------------------------------------------------------------------

#[test]
fn r_qualifier_single_value() {
    // R(26:27,9) — 2-digit field positions 26-27 = 9
    let rec = record(&[(26, "0"), (27, "9")]); // field = "09" → 9
    assert!(eval("R(26:27,9)", &rec));
    assert!(!eval("R(26:27,8)", &rec));
}

#[test]
fn r_qualifier_zero_padded() {
    // R(45:46,02) — field "02" should equal 2
    let rec = record(&[(45, "0"), (46, "2")]);
    assert!(eval("R(45:46,02)", &rec));
    assert!(eval("R(45:46,2)", &rec));
}

#[test]
fn r_qualifier_value_list() {
    // R(26:27,9,23,25) — field in {9, 23, 25}
    let r9 = record(&[(26, "0"), (27, "9")]);
    let r23 = record(&[(26, "2"), (27, "3")]);
    let r10 = record(&[(26, "1"), (27, "0")]);
    assert!(eval("R(26:27,9,23,25)", &r9));
    assert!(eval("R(26:27,9,23,25)", &r23));
    assert!(!eval("R(26:27,9,23,25)", &r10));
}

#[test]
fn r_qualifier_value_range() {
    // R(61:62,35:44) — field in [35,44]
    let r35 = record(&[(61, "3"), (62, "5")]);
    let r44 = record(&[(61, "4"), (62, "4")]);
    let r34 = record(&[(61, "3"), (62, "4")]);
    let r45 = record(&[(61, "4"), (62, "5")]);
    assert!(eval("R(61:62,35:44)", &r35));
    assert!(eval("R(61:62,35:44)", &r44));
    assert!(!eval("R(61:62,35:44)", &r34));
    assert!(!eval("R(61:62,35:44)", &r45));
}

#[test]
fn r_qualifier_with_record_prefix() {
    // R(1!26:27,9) — 1! is stripped
    let rec = record(&[(26, "0"), (27, "9")]);
    assert!(eval("R(1!26:27,9)", &rec));
}

#[test]
fn r_qualifier_not_wrapped() {
    // NOT(R(45:46,02))
    let rec_match = record(&[(45, "0"), (46, "2")]);
    let rec_no = record(&[(45, "0"), (46, "3")]);
    assert!(!eval("NOT(R(45:46,02))", &rec_match));
    assert!(eval("NOT(R(45:46,02))", &rec_no));
}

// -----------------------------------------------------------------------
// Literal string match
// -----------------------------------------------------------------------

#[test]
fn literal_single_char() {
    // 1!1949 'R'
    let rec_r = record(&[(1949, "R")]);
    let rec_u = record(&[(1949, "U")]);
    assert!(eval("1!1949 'R'", &rec_r));
    assert!(!eval("1!1949 'R'", &rec_u));
}

#[test]
fn literal_multi_char() {
    // 44'NJ' — pos 44='N', pos 45='J'
    let rec = record(&[(44, "NJ")]);
    assert!(eval("44'NJ'", &rec));
    assert!(!eval("44'NJ'", &record(&[(44, "NX")])));
}

#[test]
fn literal_case_sensitive() {
    // Literal match is case-sensitive
    assert!(!eval("44'nj'", &record(&[(44, "NJ")])));
}

// -----------------------------------------------------------------------
// ABA weight table integration scenarios
// -----------------------------------------------------------------------

#[test]
fn aba_table_601_gender() {
    let male = record(&[(43, "1")]);
    let female = record(&[(43, "2")]);
    let other = record(&[(43, "3")]);
    assert!(eval("1!43-1", &male));
    assert!(!eval("1!43-1", &female));
    assert!(eval("1!43-2:3", &female));
    assert!(eval("1!43-2:3", &other));
}

#[test]
fn aba_table_603_age() {
    let young = record(&[(41, "2")]); // 25-34
    let senior = record(&[(41, "6")]); // 65+
    let mid = record(&[(41, "4")]); // 45-54
    assert!(eval("1!41-1:3", &young));
    assert!(!eval("1!41-1:3", &mid));
    assert!(eval("1!41-6", &senior));
    assert!(eval("1!41-4,5,7", &mid));
}

#[test]
fn aba_table_604_race_white() {
    // NON-HISPANIC WHITE: 1!44-2:4 R(1!45:46,1)
    // QD7A (col 44) in 2:4 AND QD7B field (cols 45:46) = 1
    let rec = record(&[(44, "2"), (45, "0"), (46, "1")]);
    assert!(eval("1!44-2:4 R(1!45:46,1)", &rec));
}

#[test]
fn aba_table_606_education_sample_split() {
    // SAMPLE A GRADUATED COLLEGE: 1!48-6 1!51-1
    let rec = record(&[(48, "6"), (51, "1")]);
    assert!(eval("1!48-6 1!51-1", &rec));
    assert!(!eval("1!48-6 1!51-1", &record(&[(48, "6"), (51, "2")])));
}

#[test]
fn aba_table_607_not_registered() {
    // NOT REGISTERED: 1!49N1 1!51-1
    // Position 49 does NOT have code 1, AND position 51 has code 1
    let rec = record(&[(49, "2"), (51, "1")]);
    assert!(eval("1!49N1 1!51-1", &rec));
    let registered = record(&[(49, "1"), (51, "1")]);
    assert!(!eval("1!49N1 1!51-1", &registered));
}

#[test]
fn aba_table_610_rural_urban() {
    let rural = record(&[(1949, "R")]);
    let urban = record(&[(1949, "U")]);
    let suburban = record(&[(1949, "S")]);
    assert!(eval("1!1949 'R'", &rural));
    assert!(eval("1!1949 'U' OR 1!1949 'S'", &urban));
    assert!(eval("1!1949 'U' OR 1!1949 'S'", &suburban));
    assert!(!eval("1!1949 'U' OR 1!1949 'S'", &rural));
}

// -----------------------------------------------------------------------
// R() ellipsis expansion
// -----------------------------------------------------------------------

#[test]
fn r_ellipsis_expands_field_series() {
    // R(1!139:140/1!141:142...1!145:146,05)
    // Step=2, width=2 → fields: 139:140, 141:142, 143:144, 145:146
    // Value 5 → field that equals 05 matches.
    let expr = UncleExpr::parse("R(1!139:140/1!141:142...1!145:146,05)").unwrap();
    let rq = match &expr {
        UncleExpr::RQual(r) => r,
        _ => panic!("expected RQual"),
    };
    assert_eq!(rq.fields.len(), 4);
    assert_eq!(rq.fields[0], vec![139, 140]);
    assert_eq!(rq.fields[1], vec![141, 142]);
    assert_eq!(rq.fields[2], vec![143, 144]);
    assert_eq!(rq.fields[3], vec![145, 146]);
}

#[test]
fn r_ellipsis_matches_any_expanded_field() {
    // Field at 143:144 = "05" → value 5 → should match
    let expr = UncleExpr::parse("R(1!139:140/1!141:142...1!145:146,05)").unwrap();
    let no_match = record(&[(139, "00"), (141, "00"), (143, "00"), (145, "00")]);
    let match_143 = record(&[(139, "00"), (141, "00"), (143, "05"), (145, "00")]);
    assert!(!expr.evaluate(&no_match).unwrap());
    assert!(expr.evaluate(&match_143).unwrap());
}

#[test]
fn r_ellipsis_error_if_fewer_than_two_fields() {
    assert!(UncleExpr::parse("R(1!139:140...1!145:146,05)").is_err());
}

// -----------------------------------------------------------------------
// Parse errors
// -----------------------------------------------------------------------

#[test]
fn parse_error_empty_input() {
    assert!(UncleExpr::parse("").is_err());
}

#[test]
fn parse_error_trailing_garbage() {
    assert!(UncleExpr::parse("43-1 !!!").is_err());
}

#[test]
fn parse_error_display_non_empty() {
    let err = UncleExpr::parse("43-").unwrap_err();
    assert!(!err.to_string().is_empty());

}

#[test]
fn skipped_operands_are_not_read() {
    let mut rec = vec![b' '; 50];
    rec[42] = b'1';
    let rec = String::from_utf8(rec).unwrap();
    let e = UncleExpr::parse("43-1 OR 0-1").unwrap();
    assert_eq!(e.try_evaluate(&rec), Some(true));
    assert_eq!(e.evaluate(&rec), Ok(true));
    let f = UncleExpr::parse("43-2 AND 0-1").unwrap();
    assert_eq!(f.try_evaluate(&rec), Some(false));
    assert_eq!(UncleExpr::parse("43-2 OR 0-1").unwrap().try_evaluate(&rec), None);
}

#[test]
fn record_prefix_and_leading_zero_move_only_error_positions() {
    let plain = format!("{:?}", UncleExpr::parse("43-1 AND 44N2").unwrap());
    assert_eq!(format!("{:?}", UncleExpr::parse("1!43-1 AND 44N2").unwrap()), plain);
    assert_eq!(format!("{:?}", UncleExpr::parse("043-1 AND 44N2").unwrap()), plain);
    let e = UncleExpr::parse("43-x").unwrap_err();
    let p = UncleExpr::parse("1!43-x").unwrap_err();
    let z = UncleExpr::parse("043-x").unwrap_err();
    assert_eq!(p.position, e.position + 2);
    assert_eq!(z.position, e.position + 1);
    assert_eq!(p.message, e.message);
    assert_eq!(z.message, e.message);
}
