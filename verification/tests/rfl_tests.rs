use dp_library::text_map::TextMap;

use dp_library::{QuestionType, RflFile, RflQuestion};

#[test]
fn test_parse_case_id() {
    let lines = vec!["The case ID will be in columns 1.9".to_string()];
    let rfl = RflFile::from_lines(&lines).unwrap();

    let caseid = rfl.get_question("CASEID").unwrap();
    assert_eq!(caseid.start_col, 1);
    assert_eq!(caseid.width, 9);
    assert_eq!(caseid.question_type, QuestionType::Num);
}

#[test]
fn test_parse_field_question() {
    let lines = vec![
        "Q COMP                           FLD  [2942]         --> [10]".to_string(),
        "T COMP".to_string(),
        "R     1                                                             COMPLETE".to_string(),
        "R     2                                                             QUALIFIED TERMINATE".to_string(),
    ];

    let rfl = RflFile::from_lines(&lines).unwrap();
    let question = rfl.get_question("COMP").unwrap();

    assert_eq!(question.label, "COMP");
    assert_eq!(question.start_col, 10);
    assert_eq!(question.width, 1);
    assert_eq!(question.question_type, QuestionType::Fld);
    assert_eq!(question.text_lines.len(), 1);
    assert_eq!(question.text_lines[0], "COMP");
    assert_eq!(question.response_codes.len(), 2);
    assert_eq!(question.response_codes.get("1").unwrap(), "COMPLETE");
}

#[test]
fn test_parse_numeric_question() {
    let lines = vec![
        "Q QD1                            NUM  [2973.4]       --> [34.4]".to_string(),
        "X Range=1913-2005            Exceptions=9999".to_string(),
        "T Now, I am going to ask you a few questions about yourself".to_string(),
    ];

    let rfl = RflFile::from_lines(&lines).unwrap();
    let question = rfl.get_question("QD1").unwrap();

    assert_eq!(question.label, "QD1");
    assert_eq!(question.start_col, 34);
    assert_eq!(question.width, 4);
    assert_eq!(question.question_type, QuestionType::Num);
    assert_eq!(question.min_value, Some(1913));
    assert_eq!(question.max_value, Some(2005));
    assert_eq!(question.exceptions, vec!["9999".to_string()]);
}

#[test]
fn test_question_with_max_responses() {
    let lines = vec![
        "Q QB                             FLD  [2960.2]       --> [25.2]".to_string(),
        "T In which state do you currently live?".to_string(),
    ];

    let rfl = RflFile::from_lines(&lines).unwrap();
    let question = rfl.get_question("QB").unwrap();

    assert_eq!(question.start_col, 25);
    assert_eq!(question.width, 2);
    assert_eq!(question.max_responses, 1);
}

#[test]
fn test_responses_extraction() {
    let question = RflQuestion {
        label: "TEST".to_string(),
        start_col: 5,
        width: 2,
        question_type: QuestionType::Fld,
        max_responses: 3,
        text_lines: Vec::new(),
        response_codes: TextMap::new(),
        min_value: None,
        max_value: None,
        exceptions: Vec::new(),
    };

    let response_line = "123456789012345678901234567890";
    let responses = question.responses(response_line);

    assert_eq!(responses.len(), 3);
    assert_eq!(responses[0], "56"); // positions 5-6 (0-indexed: 4-5)
    assert_eq!(responses[1], "78"); // positions 7-8 (0-indexed: 6-7)
    assert_eq!(responses[2], "90"); // positions 9-10 (0-indexed: 8-9)
}

#[test]
fn test_main_text_filtering() {
    let question = RflQuestion {
        label: "TEST".to_string(),
        start_col: 1,
        width: 1,
        question_type: QuestionType::Fld,
        max_responses: 1,
        text_lines: vec![
            " ".to_string(),
            "DATAFROM(0.1) should be filtered".to_string(),
            "A1. This is a real question".to_string(),
            String::new(),
            "ENTER NUMBER should be filtered".to_string(),
            "Q17. Another question".to_string(),
        ],
        response_codes: TextMap::new(),
        min_value: None,
        max_value: None,
        exceptions: Vec::new(),
    };

    let main_text = question.main_text();
    assert_eq!(main_text.len(), 2);
    assert_eq!(main_text[0], "This is a real question");
    assert_eq!(main_text[1], "Another question");
}

#[test]
fn later_response_codes_replace_earlier_ones() {
    let lines: Vec<String> = ["Q COMP   FLD  [2942]   --> [10]", "R     1      COMPLETE", "R     2      QUALIFIED", "R     1      DONE"]
        .iter()
        .map(|s| s.to_string())
        .collect();
    let q = RflQuestion::from_lines(&lines).unwrap();
    assert_eq!(q.response_codes.len(), 2);
    assert_eq!(q.response_codes.get("1").unwrap(), "DONE");
    assert_eq!(q.response_codes.get("2").unwrap(), "QUALIFIED");
    assert!(!q.response_codes.contains_key("3"));
    let keys: Vec<&str> = q.response_codes.entries().iter().map(|(k, _)| k.as_str()).collect();
    assert_eq!(keys, vec!["1", "2"]);
}

#[test]
fn label_map_holds_the_last_question() {
    let lines: Vec<String> = [
        "The case ID will be in columns 1.9",
        "Q AGE    NUM  [1]   --> [20.2]",
        "Q SEX    FLD  [2]   --> [22]",
        "Q AGE    NUM  [3]   --> [30.3]",
    ]
    .iter()
    .map(|s| s.to_string())
    .collect();
    let rfl = RflFile::from_lines(&lines).unwrap();
    assert_eq!(rfl.questions_array().len(), 4);
    assert_eq!(rfl.questions().len(), 3);
    assert_eq!(rfl.questions().get("AGE").unwrap().start_col, 30);
    assert_eq!(rfl.questions().get("CASEID").unwrap().width, 9);
    assert_eq!(rfl.questions().get("SEX").unwrap().start_col, 22);
    assert!(rfl.questions().get("NONE").is_none());
}

#[test]
fn unreadable_question_lines_are_left_out() {
    let lines: Vec<String> = [
        "Q AGE    NUM  [1]   --> [20.2]",
        "Q BAD    XYZ  [2]   --> [22]",
        "R     1      ONE",
        "Q SHORT  FLD",
        "Q SEX    FLD  [3]   --> [24]",
    ]
    .iter()
    .map(|s| s.to_string())
    .collect();
    let rfl = RflFile::from_lines(&lines).unwrap();
    let labels: Vec<&str> = rfl.questions_array().iter().map(|q| q.label.as_str()).collect();
    assert_eq!(labels, vec!["AGE", "SEX"]);
    assert!(rfl.questions().get("BAD").is_none());
}
