use lox::operators::{binary_action, unary_action, BinaryAction, Kind, TypeError, UnaryAction};
use lox::token::TokenType;

#[test]
fn arithmetic_on_numbers() {
    for op in [TokenType::Minus, TokenType::Plus, TokenType::Star, TokenType::Slash] {
        assert_eq!(binary_action(op, Kind::Num, Kind::Num), BinaryAction::Numbers);
    }
}

#[test]
fn arithmetic_type_errors() {
    assert_eq!(binary_action(TokenType::Minus, Kind::Str, Kind::Num), BinaryAction::Error(TypeError::Subtraction));
    assert_eq!(binary_action(TokenType::Plus, Kind::Str, Kind::Num), BinaryAction::Error(TypeError::Addition));
    assert_eq!(binary_action(TokenType::Star, Kind::Bool, Kind::Num), BinaryAction::Error(TypeError::Multiplication));
    assert_eq!(binary_action(TokenType::Slash, Kind::Nil, Kind::Nil), BinaryAction::Error(TypeError::Division));
    assert_eq!(binary_action(TokenType::Less, Kind::Num, Kind::Str), BinaryAction::Error(TypeError::Comparison));
    assert_eq!(binary_action(TokenType::EqualEqual, Kind::Bool, Kind::Bool), BinaryAction::Error(TypeError::Comparison));
}

#[test]
fn string_operators() {
    assert_eq!(binary_action(TokenType::Plus, Kind::Str, Kind::Str), BinaryAction::Concat);
    assert_eq!(binary_action(TokenType::Star, Kind::Str, Kind::Num), BinaryAction::Repeat { string_left: true });
    assert_eq!(binary_action(TokenType::Star, Kind::Num, Kind::Str), BinaryAction::Repeat { string_left: false });
    assert_eq!(binary_action(TokenType::GreaterEqual, Kind::Str, Kind::Str), BinaryAction::Strings);
    assert_eq!(binary_action(TokenType::BangEqual, Kind::Str, Kind::Str), BinaryAction::Strings);
}

#[test]
fn equality_with_nil_on_the_left() {
    assert_eq!(binary_action(TokenType::EqualEqual, Kind::Nil, Kind::Nil), BinaryAction::Constant(true));
    assert_eq!(binary_action(TokenType::EqualEqual, Kind::Nil, Kind::Num), BinaryAction::Constant(false));
    assert_eq!(binary_action(TokenType::BangEqual, Kind::Nil, Kind::Nil), BinaryAction::Constant(false));
    assert_eq!(binary_action(TokenType::BangEqual, Kind::Nil, Kind::Str), BinaryAction::Constant(true));
    // Nil on the right only is a type error.
    assert_eq!(binary_action(TokenType::EqualEqual, Kind::Num, Kind::Nil), BinaryAction::Error(TypeError::Comparison));
}

#[test]
fn non_binary_operator_does_nothing() {
    assert_eq!(binary_action(TokenType::Bang, Kind::Num, Kind::Num), BinaryAction::Nothing);
    assert_eq!(binary_action(TokenType::And, Kind::Bool, Kind::Bool), BinaryAction::Nothing);
}

#[test]
fn type_error_messages() {
    assert_eq!(TypeError::Subtraction.message(), "Types dont suit subtraction");
    assert_eq!(TypeError::Addition.message(), "Types dont suit addition");
    assert_eq!(TypeError::Multiplication.message(), "Types dont suit multiplication");
    assert_eq!(TypeError::Division.message(), "Types dont suit division");
    assert_eq!(TypeError::Comparison.message(), "Types cant be compared");
}

#[test]
fn unary_operators() {
    assert_eq!(unary_action(TokenType::Minus, Kind::Num), UnaryAction::Negate);
    assert_eq!(unary_action(TokenType::Minus, Kind::Str), UnaryAction::InvalidOperand);
    assert_eq!(unary_action(TokenType::Bang, Kind::Nil), UnaryAction::Not);
    assert_eq!(unary_action(TokenType::Bang, Kind::Num), UnaryAction::Not);
}
