use lox::ast::{pretty_print, Expr};
use lox::token::{Literal, Token, TokenType};

#[test]
fn test_pretty_print() {
    let expr = Expr::Binary {
        left: Box::new(Expr::Unary {
            operator: Token::new(TokenType::Minus, "-".to_string(), None, 1),
            expression: Box::new(Expr::Literal { value: Some(Literal::Num("8.0".to_string())) }),
        }),
        operator: Token::new(TokenType::Star, "*".to_string(), None, 1),
        right: Box::new(Expr::Grouping {
            expression: Box::new(Expr::Binary {
                left: Box::new(Expr::Literal { value: Some(Literal::Num("3.0".to_string())) }),
                operator: Token::new(TokenType::Plus, "+".to_string(), None, 1),
                right: Box::new(Expr::Literal { value: Some(Literal::Num("4.0".to_string())) }),
            }),
        }),
    };

    let result = pretty_print(&expr);
    println!("{}", result);
}

fn num(text: &str) -> Box<Expr> {
    Box::new(Expr::Literal { value: Some(Literal::Num(text.to_string())) })
}

#[test]
fn pretty_print_gives_prefix_form() {
    let expr = Expr::Binary {
        left: Box::new(Expr::Unary {
            operator: Token::new(TokenType::Minus, "-".to_string(), None, 1),
            expression: num("8.0"),
        }),
        operator: Token::new(TokenType::Star, "*".to_string(), None, 1),
        right: Box::new(Expr::Grouping {
            expression: Box::new(Expr::Binary {
                left: num("3.0"),
                operator: Token::new(TokenType::Plus, "+".to_string(), None, 1),
                right: num("4.0"),
            }),
        }),
    };
    assert_eq!(pretty_print(&expr), "(* (- Num(8.0)) (group (+ Num(3.0) Num(4.0))))");
}

#[test]
fn pretty_print_of_literals() {
    let show = |value: Option<Literal>| pretty_print(&Expr::Literal { value });
    assert_eq!(show(None), "nil");
    assert_eq!(show(Some(Literal::Nil)), "Nil");
    assert_eq!(show(Some(Literal::Bool(true))), "Bool(true)");
    assert_eq!(show(Some(Literal::Bool(false))), "Bool(false)");
    assert_eq!(show(Some(Literal::Num("12".to_string()))), "Num(12)");
    assert_eq!(show(Some(Literal::Str("ab".to_string()))), "Str(\"ab\")");
    assert_eq!(show(Some(Literal::Str("a\"b\n".to_string()))), "Str(\"a\\\"b\\n\")");
}

#[test]
fn pretty_print_uses_the_operator_lexeme() {
    let expr = Expr::Binary {
        left: num("1"),
        operator: Token::new(TokenType::GreaterEqual, ">=1".to_string(), None, 1),
        right: num("2"),
    };
    assert_eq!(pretty_print(&expr), "(>=1 Num(1) Num(2))");
}
