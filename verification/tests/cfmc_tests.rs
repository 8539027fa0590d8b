use dp_library::CfmcLogic;

#[test]
fn test_parse_simple_equality() {
    let logic = CfmcLogic::parse("COMP(1)").unwrap();
    let output = logic.to_string();
    assert_eq!(output, "COMP(1)");
}

#[test]
fn test_parse_and_expression() {
    let logic = CfmcLogic::parse("COMP(1) AND QB(01)").unwrap();
    let output = logic.to_string();
    assert_eq!(output, "COMP(1) AND QB(01)");
}

#[test]
fn test_parse_or_expression() {
    let logic = CfmcLogic::parse("COMP(1) OR COMP(2)").unwrap();
    let output = logic.to_string();
    assert_eq!(output, "COMP(1) OR COMP(2)");
}

#[test]
fn test_parse_not_expression() {
    let logic = CfmcLogic::parse("NOT COMP(3)").unwrap();
    let output = logic.to_string();
    assert_eq!(output, "NOT(COMP(3))");
}

#[test]
fn test_parse_comma_values() {
    let logic = CfmcLogic::parse("COMP(1,2,3)").unwrap();
    let output = logic.to_string();
    assert_eq!(output, "COMP(1,2,3)");
}

#[test]
fn test_parse_range_values() {
    let logic = CfmcLogic::parse("QB(01-56)").unwrap();
    let output = logic.to_string();
    assert_eq!(output, "QB(01-56)");
}

#[test]
fn test_parse_num_expression() {
    let logic = CfmcLogic::parse("[QD1#18-110]").unwrap();
    let output = logic.to_string();
    assert_eq!(output, "QD1(18-110)");
}

#[test]
fn test_parse_paren_expression() {
    let logic = CfmcLogic::parse("COMP(1) AND (QB(01) OR AGEGROUP(1-3))").unwrap();
    let output = logic.to_string();
    assert_eq!(output, "COMP(1) AND (QB(01) OR AGEGROUP(1-3))");
}

#[test]
fn test_check_balance_stray_close_paren_dropped() {
    let (cleaned, warnings) = CfmcLogic::check_balance("COMP(1))").unwrap();
    assert_eq!(cleaned, "COMP(1)");
    assert_eq!(warnings.len(), 1);
    assert!(warnings[0].contains("stray ')'"));
    assert!(warnings[0].contains("position 7"));
}

#[test]
fn test_check_balance_unclosed_paren_errors() {
    let err = CfmcLogic::check_balance("COMP(1").unwrap_err();
    assert!(err.contains("1 unclosed '('"));
}

#[test]
fn test_check_balance_balanced_is_silent() {
    let (cleaned, warnings) = CfmcLogic::check_balance("COMP(1) AND QB(2)").unwrap();
    assert_eq!(cleaned, "COMP(1) AND QB(2)");
    assert!(warnings.is_empty());
}

#[test]
fn test_parse_errors_on_unclosed_paren() {
    // Unclosed '(' is malformed and should error
    assert!(CfmcLogic::parse("COMP(1").is_err());
}

#[test]
fn test_parse_plus_expression() {
    let logic = CfmcLogic::parse("[Q02+0.1$]=\"A\"").unwrap();
    let output = logic.to_string();
    println!("Parsed: {output}");
    assert_eq!(output, "Q02+0.1(A)");
}

#[test]
fn test_parse_plus_expression2() {
    let logic = CfmcLogic::parse("FIPSCOMB(113) AND [PREC_NO+0.4$CR01,CR02,CR03,CR04,CR05,CR06,CR07,CR08,CR09,CR10,CR11,CR12,CR13,CR14,CR15,CR16,CR17,CR18,CR19,CR20,CR21,CR22,CR23,CR24,CR25,CR26,CR27,CR28,CR29,CR30,CR31,CR32,CR33,CR34,CR35,CR36,CR37,CR38,CR39,CR40,CR41,CR42,CR43,CR44]").unwrap();
    let output = logic.to_string();
    println!("Parsed: {output}");
    assert_eq!(output, "FIPSCOMB(113) AND PREC_NO+0.4(CR01,CR02,CR03,CR04,CR05,CR06,CR07,CR08,CR09,CR10,CR11,CR12,CR13,CR14,CR15,CR16,CR17,CR18,CR19,CR20,CR21,CR22,CR23,CR24,CR25,CR26,CR27,CR28,CR29,CR30,CR31,CR32,CR33,CR34,CR35,CR36,CR37,CR38,CR39,CR40,CR41,CR42,CR43,CR44)");
}

#[test]
fn test_parse_caseid() {
    let logic = CfmcLogic::parse("[CASEID#101]").unwrap();
    let output = logic.to_string();
    println!("Parsed: {output}");
    assert_eq!(output, "CASEID(101)");
}

#[test]
fn test_nested_not_expression() {
    let logic = CfmcLogic::parse("SAMPLTY(1,2) AND (NOT(PHRACE(02)) AND NOT((QSHISP(1) OR PHRACE(06))) AND NOT(QSHISP(2) AND PHRACE(01)))").unwrap();
    println!("Parsed AST: {:#?}", logic.root);
    let output = logic.to_string();
    println!("Parsed: {output}");
    // The parser normalizes by removing redundant outer parentheses
    assert_eq!(output, "SAMPLTY(1,2) AND NOT(PHRACE(02)) AND NOT(QSHISP(1) OR PHRACE(06)) AND NOT(QSHISP(2) AND PHRACE(01))");
}

#[test]
fn test_keyword_boundary_not_in_label() {
    // Labels containing operator keywords should not be split on them
    let logic = CfmcLogic::parse("NOTABLE(1) AND ORCHID(2)").unwrap();
    let output = logic.to_string();
    assert_eq!(output, "NOTABLE(1) AND ORCHID(2)");
}

#[test]
fn test_keyword_boundary_anderson() {
    // "AND" inside "ANDERSON" must not be treated as an operator
    let logic = CfmcLogic::parse("ANDERSON(1) OR COMP(2)").unwrap();
    let output = logic.to_string();
    assert_eq!(output, "ANDERSON(1) OR COMP(2)");
}

#[test]
fn test_keyword_boundary_numitems_prefix() {
    // "NUMITEMS" inside "NUMITEMSX" must not be treated as an operator
    let logic = CfmcLogic::parse("NUMITEMSX(1) AND COMP(2)").unwrap();
    let output = logic.to_string();
    assert_eq!(output, "NUMITEMSX(1) AND COMP(2)");
}

#[test]
fn test_parse_numitems_comparison() {
    let logic = CfmcLogic::parse("NUMITEMS(BRAND) >= 2").unwrap();
    let output = logic.to_string();
    assert_eq!(output, "NUMITEMS BRAND GreaterEqual 2");
}

#[test]
fn test_parse_x_function() {
    let logic = CfmcLogic::parse("X(AGE) >= 21").unwrap();
    let output = logic.to_string();
    assert_eq!(output, "X(AGE) GreaterEqual 21");
}

#[test]
fn test_parse_xf_numresp() {
    let logic = CfmcLogic::parse("XF(NUMRESP(BEV1)) > 1").unwrap();
    let output = logic.to_string();
    assert_eq!(output, "XF(NUMRESP(BEV1)) Greater 1");
}

#[test]
fn test_parse_xf_number_of_responses() {
    // Full name should also work
    let logic = CfmcLogic::parse("XF(NUMBER_OF_RESPONSES(BEV1)) > 1").unwrap();
    let output = logic.to_string();
    assert_eq!(output, "XF(NUMBER_OF_RESPONSES(BEV1)) Greater 1");
}

#[test]
fn test_x_function_with_and() {
    // X() used in a compound expression
    let logic = CfmcLogic::parse("X(FEB) < X(JAN)").unwrap();
    let output = logic.to_string();
    assert_eq!(output, "X(FEB) Less X(JAN)");
}

#[test]
fn test_parse_checktext() {
    let logic = CfmcLogic::parse("CHECKTEXT(OTHER) > 0").unwrap();
    let output = logic.to_string();
    assert_eq!(output, "CHECKTEXT(OTHER) Greater 0");
}

#[test]
fn test_parse_negated_response_list() {
    let logic = CfmcLogic::parse("BRAND(<>1-3)").unwrap();
    let output = logic.to_string();
    // Should produce NotEqual, not Equal
    assert_eq!(output, "BRAND(<>1-3)");
}

#[test]
fn test_parse_column_ref() {
    let logic = CfmcLogic::parse("[10.2] > 9").unwrap();
    let output = logic.to_string();
    assert_eq!(output, "[10.2] Greater 9");
}

#[test]
fn test_parse_column_ref_no_width() {
    // Single column, default width 1
    let logic = CfmcLogic::parse("[5] > 3").unwrap();
    let output = logic.to_string();
    assert_eq!(output, "[5.1] Greater 3");
}

#[test]
fn test_column_ref_does_not_break_label_brackets() {
    // [QD1#18-110] should still parse as a label with # range, not a ColumnRef
    let logic = CfmcLogic::parse("[QD1#18-110]").unwrap();
    let output = logic.to_string();
    assert_eq!(output, "QD1(18-110)");
}

#[test]
fn test_substring_still_works_with_arithmetic() {
    // Ensure LABEL+0.4$ syntax still works (not treated as arithmetic)
    let logic = CfmcLogic::parse("Q02+0.1=\"A\"").unwrap();
    let output = logic.to_string();
    assert_eq!(output, "Q02+0.1(A)");
}

#[test]
fn test_parse_punch_ref_single_col() {
    let logic = CfmcLogic::parse("[Q1^1,5]").unwrap();
    let output = logic.to_string();
    assert_eq!(output, "[Q1^1,5]");
}

#[test]
fn test_parse_punch_ref_multi_col() {
    let logic = CfmcLogic::parse("[Q1^^1,5]").unwrap();
    let output = logic.to_string();
    assert_eq!(output, "[Q1^^1,5]");
}

#[test]
fn test_parse_punch_ref_negated() {
    let logic = CfmcLogic::parse("[Q1^^N1,5]").unwrap();
    let output = logic.to_string();
    assert_eq!(output, "[Q1^^N1,5]");
}

#[test]
fn test_parse_punch_ref_with_column_ref() {
    let logic = CfmcLogic::parse("[10.2^^1,3,5]").unwrap();
    let output = logic.to_string();
    assert_eq!(output, "[[10.2]^^1,3,5]");
}

#[test]
fn test_parse_blank_check_label() {
    let logic = CfmcLogic::parse("[Q1^^B]").unwrap();
    let output = logic.to_string();
    assert_eq!(output, "IsBlank Q1");
}

#[test]
fn test_parse_not_blank_check_label() {
    let logic = CfmcLogic::parse("[Q1^^NB]").unwrap();
    let output = logic.to_string();
    assert_eq!(output, "IsNotBlank Q1");
}

#[test]
fn test_parse_not_blank_check_label_or() {
    let logic = CfmcLogic::parse("[Q1^^NB] OR [Q2^^NB]").unwrap();
    let output = logic.to_string();
    assert_eq!(output, "IsNotBlank Q1 OR IsNotBlank Q2");
}

#[test]
fn test_parse_blank_check_label_and() {
    let logic = CfmcLogic::parse("[Q1^^B] AND [Q2^^B]").unwrap();
    let output = logic.to_string();
    assert_eq!(output, "IsBlank Q1 AND IsBlank Q2");
}

#[test]
fn balance_counts_only_outside_quotes() {
    // Each closer that takes its count below zero is dropped once.
    let (cleaned, warnings) = CfmcLogic::check_balance("A)) AND [B]] AND (C)").unwrap();
    assert_eq!(cleaned, "A AND [B] AND (C)");
    assert_eq!(warnings.len(), 3);
    // Brackets and parentheses inside quotes are not counted.
    let (cleaned, warnings) = CfmcLogic::check_balance("X=\"(]\"").unwrap();
    assert_eq!(cleaned, "X=\"(]\"");
    assert!(warnings.is_empty());
    // An odd number of quotes, or an opener never closed, is an error.
    assert!(CfmcLogic::check_balance("X=\"(").is_err());
    assert!(CfmcLogic::check_balance(")(").is_err());
}
