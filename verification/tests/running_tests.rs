use lox::ast::Statement;
use lox::error::{Halt, Lox};
use lox::running::scan_and_parse;

fn messages(lox: &Lox) -> Vec<String> {
    lox.reported.iter().map(|e| e.message()).collect()
}

#[test]
fn program_to_interpret() {
    let mut lox = Lox::new();
    let r = scan_and_parse(&mut lox, "var a = 1;\nprint a;");
    match r {
        Ok(Some(program)) => {
            assert_eq!(program.len(), 2);
            assert!(matches!(&program[0], Statement::AssignStatement { .. }));
            assert!(matches!(&program[1], Statement::PrintStatement(_)));
        }
        other => panic!("unexpected result {:?}", other),
    }
    assert!(!lox.had_error);
}

#[test]
fn scan_error_stops_before_parsing() {
    let mut lox = Lox::new();
    let r = scan_and_parse(&mut lox, "print @;");
    assert!(matches!(r, Ok(None)));
    assert!(lox.had_error);
    assert_eq!(messages(&lox), vec!["[line 1, col 7] Error: unexpected token @"]);
}

#[test]
fn parse_errors_are_recovered_from() {
    let mut lox = Lox::new();
    let r = scan_and_parse(&mut lox, "print ;\nprint 1;");
    match r {
        Ok(Some(program)) => assert_eq!(program.len(), 1),
        other => panic!("unexpected result {:?}", other),
    }
    assert_eq!(messages(&lox), vec!["[line 1] Error: Expect expression."]);
}

#[test]
fn front_end_stops_on_a_lone_quote_at_the_end() {
    let mut lox = Lox::new();
    assert_eq!(scan_and_parse(&mut lox, "\"").err(), Some(Halt::Panic));
}

#[test]
fn front_end_recovers_from_parse_errors() {
    let mut lox = Lox::new();
    match scan_and_parse(&mut lox, "1 >=") {
        Ok(Some(program)) => assert!(program.is_empty()),
        other => panic!("unexpected result {:?}", other),
    }
    assert_eq!(
        messages(&lox),
        vec!["[line 1] Error: Expect expression.", "[line 1] Error: Expect ';' after expression."]
    );
    let mut lox = Lox::new();
    assert!(matches!(scan_and_parse(&mut lox, "class;"), Ok(Some(_))));
}
