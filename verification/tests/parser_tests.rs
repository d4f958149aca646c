use lox::ast::{pretty_print, Expr, Statement};
use lox::error::{Halt, Lox};
use lox::parser::Parser;
use lox::scanner::Scanner;
use lox::token::{Literal, Token, TokenType};

fn tokens_of(source: &str) -> Vec<Token> {
    let mut lox = Lox::new();
    let mut scanner = Scanner::init(source.to_string());
    scanner.scan_tokens(&mut lox);
    assert!(!lox.had_error, "scan error in {:?}", source);
    scanner.tokens
}

fn parse_checked(source: &str) -> (Result<Vec<Statement>, Halt>, Lox) {
    let mut lox = Lox::new();
    let mut parser = Parser::init(tokens_of(source));
    let r = parser.parse_checked(&mut lox);
    (r, lox)
}

fn parse(source: &str) -> (Vec<Statement>, Lox) {
    let mut lox = Lox::new();
    let mut parser = Parser::init(tokens_of(source));
    let r = parser.parse(&mut lox);
    (r, lox)
}

fn expression_text(source: &str) -> String {
    let (stmts, lox) = parse(source);
    assert!(lox.reported.is_empty());
    assert_eq!(stmts.len(), 1);
    match &stmts[0] {
        Statement::ExprStatement(e) => pretty_print(e),
        other => panic!("unexpected statement {:?}", other),
    }
}

fn messages(lox: &Lox) -> Vec<String> {
    lox.reported.iter().map(|e| e.message()).collect()
}

#[test]
fn binary_operators_associate_to_the_left() {
    assert_eq!(expression_text("1 - 2 - 3;"), "(- (- Num(1) Num(2)) Num(3))");
    assert_eq!(expression_text("8 / 4 / 2;"), "(/ (/ Num(8) Num(4)) Num(2))");
}

#[test]
fn precedence_of_operators() {
    assert_eq!(expression_text("1 + 2 * 3;"), "(+ Num(1) (* Num(2) Num(3)))");
    assert_eq!(expression_text("(1 + 2) * 3;"), "(* (group (+ Num(1) Num(2))) Num(3))");
    assert_eq!(expression_text("-1 < 2;"), "(< (- Num(1)) Num(2))");
    assert_eq!(expression_text("-1<2;"), "(< (- Num(1)) Num(2))");
    assert_eq!(expression_text("1<=2;"), "(<= Num(1) Num(2))");
    assert_eq!(expression_text("!!true;"), "(! (! Bool(true)))");
}

#[test]
fn literals_of_each_kind() {
    assert_eq!(expression_text("nil;"), "Nil");
    assert_eq!(expression_text("false;"), "Bool(false)");
    assert_eq!(expression_text("2.5;"), "Num(2.5)");
}

#[test]
fn assignment_associates_to_the_right() {
    let (stmts, lox) = parse("a = b = 3;");
    assert!(lox.reported.is_empty());
    match &stmts[..] {
        [Statement::ExprStatement(Expr::Assignment { name, value })] => {
            assert_eq!(name.lexeme, "a");
            match &**value {
                Expr::Assignment { name, value } => {
                    assert_eq!(name.lexeme, "b");
                    assert_eq!(pretty_print(value), "Num(3)");
                }
                other => panic!("unexpected expression {:?}", other),
            }
        }
        other => panic!("unexpected statements {:?}", other),
    }
}

#[test]
fn assignment_to_a_non_variable_is_reported_and_dropped() {
    let (stmts, lox) = parse("1 = 2; print 3;");
    assert_eq!(messages(&lox), vec!["[line 1] Error: Cant assign to something that is not a variable"]);
    assert!(!lox.had_error);
    assert_eq!(stmts.len(), 1);
    assert!(matches!(&stmts[0], Statement::PrintStatement(_)));
}

#[test]
fn logical_operators() {
    let (stmts, _) = parse("a or b and c;");
    match &stmts[..] {
        [Statement::ExprStatement(Expr::Logical { left, operator, right })] => {
            assert_eq!(operator.token_type, TokenType::Or);
            assert!(matches!(&**left, Expr::Variable { name } if name.lexeme == "a"));
            assert!(matches!(&**right, Expr::Logical { operator, .. } if operator.token_type == TokenType::And));
        }
        other => panic!("unexpected statements {:?}", other),
    }
}

#[test]
fn var_declarations() {
    let (stmts, lox) = parse("var a; var b = 1;");
    assert!(lox.reported.is_empty());
    match &stmts[..] {
        [Statement::AssignStatement { token: Some(a), expression: None }, Statement::AssignStatement { token: Some(b), expression: Some(e) }] =>
        {
            assert_eq!(a.lexeme, "a");
            assert_eq!(b.lexeme, "b");
            assert_eq!(pretty_print(e), "Num(1)");
        }
        other => panic!("unexpected statements {:?}", other),
    }
}

#[test]
fn var_declaration_without_a_name() {
    let (stmts, lox) = parse("var 1;");
    assert_eq!(
        messages(&lox),
        vec![
            "[line 1] Error: Expected a variable name",
            "[line 1] Error: Expect ';' after variable declaration."
        ]
    );
    // The statement that follows is dropped while recovering, which clears the flag.
    assert!(!lox.had_error);
    match &stmts[..] {
        [Statement::AssignStatement { token: None, expression: None }] => {}
        other => panic!("unexpected statements {:?}", other),
    }
}

#[test]
fn if_else_and_blocks() {
    let (stmts, lox) = parse("if (x) { print 1; } else print 2;");
    assert!(lox.reported.is_empty());
    match &stmts[..] {
        [Statement::IfStatement { condition, ifblock, elseblock: Some(e) }] => {
            assert!(matches!(condition, Expr::Variable { .. }));
            match &**ifblock {
                Statement::BlockStatement(inner) => {
                    assert_eq!(inner.len(), 1);
                    assert!(matches!(&inner[0], Statement::PrintStatement(_)));
                }
                other => panic!("unexpected statement {:?}", other),
            }
            assert!(matches!(&**e, Statement::PrintStatement(_)));
        }
        other => panic!("unexpected statements {:?}", other),
    }
}

#[test]
fn while_statement() {
    let (stmts, lox) = parse("while (x < 3) x = x + 1;");
    assert!(lox.reported.is_empty());
    match &stmts[..] {
        [Statement::WhileStatement { condition, statement }] => {
            assert!(matches!(condition, Expr::Binary { .. }));
            assert!(matches!(&**statement, Statement::ExprStatement(Expr::Assignment { .. })));
        }
        other => panic!("unexpected statements {:?}", other),
    }
}

#[test]
fn for_loop_becomes_a_while_loop_in_a_block() {
    let (stmts, lox) = parse("for (var i = 0; i < 3; i = i + 1) print i;");
    assert!(lox.reported.is_empty());
    match &stmts[..] {
        [Statement::BlockStatement(outer)] => match &outer[..] {
            [Statement::AssignStatement { token: Some(i), expression: Some(init) }, Statement::WhileStatement { condition, statement }] =>
            {
                assert_eq!(i.lexeme, "i");
                assert_eq!(pretty_print(init), "Num(0)");
                assert!(matches!(condition, Expr::Binary { operator, .. } if operator.token_type == TokenType::Less));
                match &**statement {
                    Statement::BlockStatement(body) => {
                        assert_eq!(body.len(), 2);
                        assert!(matches!(&body[0], Statement::PrintStatement(_)));
                        assert!(matches!(&body[1], Statement::ExprStatement(Expr::Assignment { .. })));
                    }
                    other => panic!("unexpected statement {:?}", other),
                }
            }
            other => panic!("unexpected statements {:?}", other),
        },
        other => panic!("unexpected statements {:?}", other),
    }
}

#[test]
fn empty_for_clauses_loop_on_true() {
    let (stmts, lox) = parse("for (;;) print 1;");
    assert!(lox.reported.is_empty());
    match &stmts[..] {
        [Statement::BlockStatement(outer)] => match &outer[..] {
            [Statement::WhileStatement { condition: Expr::Literal { value: Some(Literal::Bool(true)) }, statement }] => {
                match &**statement {
                    Statement::BlockStatement(body) => assert_eq!(body.len(), 1),
                    other => panic!("unexpected statement {:?}", other),
                }
            }
            other => panic!("unexpected statements {:?}", other),
        },
        other => panic!("unexpected statements {:?}", other),
    }
}

#[test]
fn missing_expression_is_reported_and_recovered_from() {
    let (stmts, lox) = parse("print; print 2;");
    assert_eq!(messages(&lox), vec!["[line 1] Error: Expect expression."]);
    assert!(!lox.had_error);
    assert_eq!(stmts.len(), 1);
}

#[test]
fn missing_semicolon_is_reported_on_the_next_line() {
    let (stmts, lox) = parse("print 1\nprint 2;");
    assert_eq!(messages(&lox), vec!["[line 2] Error: Expect ';' after value."]);
    // Recovery stops before the next `print`, which is parsed as usual.
    assert_eq!(stmts.len(), 1);
}

#[test]
fn two_errors_are_both_reported() {
    let (stmts, lox) = parse("print ); x = ;");
    assert_eq!(
        messages(&lox),
        vec![
            "[line 1] Error: Expect expression.",
            "[line 1] Error: Expect ';' after value.",
            "[line 1] Error: Expect expression."
        ]
    );
    assert!(stmts.is_empty());
}

#[test]
fn expression_expected_at_end_of_input_is_reported() {
    let (r, lox) = parse_checked("print");
    assert!(r.unwrap().is_empty());
    assert_eq!(
        messages(&lox),
        vec!["[line 1] Error: Expect expression.", "[line 1] Error: Expect ';' after value."]
    );
    let (r, lox) = parse_checked("1 +");
    assert!(r.unwrap().is_empty());
    assert_eq!(
        messages(&lox),
        vec!["[line 1] Error: Expect expression.", "[line 1] Error: Expect ';' after expression."]
    );
}

#[test]
fn recovery_skips_a_token_that_starts_nothing() {
    let (stmts, lox) = parse("1; )");
    assert_eq!(stmts.len(), 1);
    assert!(matches!(&stmts[0], Statement::ExprStatement(e) if pretty_print(e) == "Num(1)"));
    assert_eq!(
        messages(&lox),
        vec!["[line 1] Error: Expect expression.", "[line 1] Error: Expect ';' after expression."]
    );
    let (stmts, lox) = parse("class;");
    assert!(stmts.is_empty());
    assert_eq!(lox.reported.len(), 3);
}

#[test]
fn block_without_closing_brace_ends_at_end_of_input() {
    // The block is dropped with the error its missing brace reports.
    let (stmts, lox) = parse("{ print 1;");
    assert!(stmts.is_empty());
    assert_eq!(messages(&lox), vec!["[line 1] Error: Expected '}' after a block"]);
}

#[test]
fn parse_of_empty_program() {
    let (stmts, lox) = parse("");
    assert!(stmts.is_empty());
    assert!(lox.reported.is_empty());
}

#[test]
fn single_expression() {
    let mut lox = Lox::new();
    let mut parser = Parser::init(tokens_of("1 + 2"));
    let e = parser.expression(&mut lox);
    assert_eq!(pretty_print(&e), "(+ Num(1) Num(2))");
    let mut lox = Lox::new();
    let r = Parser::init(tokens_of("(")).expression_checked(&mut lox);
    assert_eq!(pretty_print(&r.unwrap()), "(group nil)");
    assert_eq!(
        messages(&lox),
        vec!["[line 1] Error: Expect expression.", "[line 1] Error: Expect ')' after expression."]
    );
    let r = Parser::init(Vec::new()).expression_checked(&mut lox);
    assert_eq!(r.err(), Some(Halt::Panic));
}
