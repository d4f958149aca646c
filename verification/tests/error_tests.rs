use lox::error::{report, ErrorKind, Lox};

#[test]
fn new_error_state_is_clear() {
    let lox = Lox::new();
    assert!(!lox.had_error);
    assert!(lox.reported.is_empty());
    let lox = Lox::default();
    assert!(!lox.had_error);
    assert!(lox.reported.is_empty());
}

#[test]
fn report_records_the_error_and_raises_the_flag() {
    let mut lox = Lox::new();
    report(&mut lox, ErrorKind::Simple("first".to_string()));
    assert!(lox.had_error);
    lox.had_error = false;
    report(&mut lox, ErrorKind::WithLocation { message: "second".to_string(), line: 2, col: None });
    assert!(lox.had_error);
    let texts: Vec<String> = lox.reported.iter().map(|e| e.message()).collect();
    assert_eq!(texts, vec!["first", "[line 2] Error: second"]);
}

#[test]
fn message_formats() {
    assert_eq!(ErrorKind::Simple("plain".to_string()).message(), "plain");
    assert_eq!(
        ErrorKind::WithLocation { message: "x".to_string(), line: 3, col: Some(4) }.message(),
        "[line 3, col 4] Error: x"
    );
    assert_eq!(
        ErrorKind::WithLocation { message: "x".to_string(), line: 3, col: None }.message(),
        "[line 3] Error: x"
    );
    assert_eq!(
        ErrorKind::WithRange { message: "x".to_string(), start_line: 1, end_line: 12 }.message(),
        "[lines 1\u{2013}12] Error: x"
    );
}

#[test]
fn message_numbers_in_decimal() {
    assert_eq!(
        ErrorKind::WithLocation { message: "m".to_string(), line: 0, col: Some(4294967295) }.message(),
        "[line 0, col 4294967295] Error: m"
    );
    assert_eq!(
        ErrorKind::WithLocation { message: "m".to_string(), line: 1000, col: Some(90) }.message(),
        "[line 1000, col 90] Error: m"
    );
}
