use ooo_pipeline::input::{parse_program, program_from_items, InputError};

#[test]
fn parse_program_reads_an_array_of_strings() {
    let r = parse_program(r#"["addi x1, x0, 7", "mulu x4, x2, x3"]"#);
    assert_eq!(r.unwrap(), vec!["addi x1, x0, 7".to_string(), "mulu x4, x2, x3".to_string()]);
}

#[test]
fn parse_program_reads_an_empty_array() {
    assert_eq!(parse_program(" [ ] ").unwrap(), Vec::<String>::new());
}

#[test]
fn parse_program_unescapes_strings() {
    let r = parse_program(r#"["addi\tx1, x0, 7"]"#).unwrap();
    assert_eq!(r, vec!["addi\tx1, x0, 7".to_string()]);
}

#[test]
fn parse_program_turns_other_elements_into_empty_lines() {
    let r = parse_program(r#"["add x1, x2, x3", 5, null, {"a": 1}, ["x"], true, "sub x1, x2, x3"]"#);
    assert_eq!(
        r.unwrap(),
        vec![
            "add x1, x2, x3".to_string(),
            String::new(),
            String::new(),
            String::new(),
            String::new(),
            String::new(),
            "sub x1, x2, x3".to_string()
        ]
    );
}

#[test]
fn parse_program_refuses_a_value_that_is_no_array() {
    assert!(matches!(parse_program(r#"{"program": []}"#), Err(InputError::NotAnArray)));
    assert!(matches!(parse_program(r#""addi x1, x0, 7""#), Err(InputError::NotAnArray)));
    assert!(matches!(parse_program("42"), Err(InputError::NotAnArray)));
}

#[test]
fn parse_program_refuses_text_that_is_no_json() {
    assert!(matches!(parse_program(""), Err(InputError::Syntax(_))));
    assert!(matches!(parse_program("[\"a\""), Err(InputError::Syntax(_))));
    assert!(matches!(parse_program("[] []"), Err(InputError::Syntax(_))));
    assert!(matches!(parse_program("addi x1, x0, 7"), Err(InputError::Syntax(_))));
}

#[test]
fn program_from_items_fills_gaps_with_empty_lines() {
    let items = vec![Some("a b c d".to_string()), None, Some(String::new())];
    assert_eq!(program_from_items(&items), vec!["a b c d".to_string(), String::new(), String::new()]);
    assert_eq!(program_from_items(&Vec::new()), Vec::<String>::new());
}
