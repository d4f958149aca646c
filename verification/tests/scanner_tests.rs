use lox::error::{ErrorKind, Lox};
use lox::scanner::Scanner;
use lox::token::{Literal, Token, TokenType};

fn scan(source: &str) -> (Vec<Token>, Lox) {
    let mut lox = Lox::new();
    let mut scanner = Scanner::init(source.to_string());
    scanner.scan_tokens(&mut lox);
    (scanner.tokens, lox)
}

fn kinds(tokens: &[Token]) -> Vec<TokenType> {
    tokens.iter().map(|t| t.token_type).collect()
}

fn lexemes(tokens: &[Token]) -> Vec<String> {
    tokens.iter().map(|t| t.lexeme.clone()).collect()
}

fn messages(lox: &Lox) -> Vec<String> {
    lox.reported.iter().map(|e| e.message()).collect()
}

#[test]
fn empty_source_gives_only_eof() {
    let (tokens, lox) = scan("");
    assert_eq!(kinds(&tokens), vec![TokenType::Eof]);
    assert_eq!(tokens[0].lexeme, "");
    assert_eq!(tokens[0].line, 1);
    assert!(matches!(tokens[0].literal, Some(Literal::Nil)));
    assert!(!lox.had_error);
    assert!(lox.reported.is_empty());
}

#[test]
fn single_character_tokens() {
    let (tokens, lox) = scan("(){},.-+;*");
    assert_eq!(
        kinds(&tokens),
        vec![
            TokenType::LeftParen,
            TokenType::RightParen,
            TokenType::LeftBrace,
            TokenType::RightBrace,
            TokenType::Comma,
            TokenType::Dot,
            TokenType::Minus,
            TokenType::Plus,
            TokenType::Semicolon,
            TokenType::Star,
            TokenType::Eof,
        ]
    );
    assert_eq!(lexemes(&tokens)[..10].concat(), "(){},.-+;*");
    assert!(!lox.had_error);
}

#[test]
fn var_declaration_tokens() {
    let (tokens, lox) = scan("var x = 10;");
    assert_eq!(
        kinds(&tokens),
        vec![
            TokenType::Var,
            TokenType::Identifier,
            TokenType::Equal,
            TokenType::Number,
            TokenType::Semicolon,
            TokenType::Eof,
        ]
    );
    assert_eq!(lexemes(&tokens), vec!["var", "x", "=", "10", ";", ""]);
    match &tokens[3].literal {
        Some(Literal::Num(n)) => assert_eq!(n, "10"),
        other => panic!("unexpected literal {:?}", other),
    }
    assert!(tokens.iter().all(|t| t.line == 1));
    assert!(!lox.had_error);
}

#[test]
fn two_character_operators() {
    let (tokens, _) = scan("a>=1");
    assert_eq!(kinds(&tokens), vec![TokenType::Identifier, TokenType::GreaterEqual, TokenType::Number, TokenType::Eof]);
    assert_eq!(tokens[1].lexeme, ">=");
    let (tokens, _) = scan("1<2");
    assert_eq!(kinds(&tokens), vec![TokenType::Number, TokenType::Less, TokenType::Number, TokenType::Eof]);
    assert_eq!(lexemes(&tokens), vec!["1", "<", "2", ""]);
    let (tokens, _) = scan("1<=2");
    assert_eq!(kinds(&tokens), vec![TokenType::Number, TokenType::LessEqual, TokenType::Number, TokenType::Eof]);
    assert_eq!(lexemes(&tokens), vec!["1", "<=", "2", ""]);

    let (tokens, _) = scan("a==b!=c");
    assert_eq!(
        kinds(&tokens),
        vec![
            TokenType::Identifier,
            TokenType::EqualEqual,
            TokenType::Identifier,
            TokenType::BangEqual,
            TokenType::Identifier,
            TokenType::Eof
        ]
    );
    assert_eq!(lexemes(&tokens), vec!["a", "==", "b", "!=", "c", ""]);
}

#[test]
fn one_character_operator_at_end_of_source() {
    let (tokens, lox) = scan("<");
    assert_eq!(kinds(&tokens), vec![TokenType::Less, TokenType::Eof]);
    assert_eq!(tokens[0].lexeme, "<");
    assert!(!lox.had_error);
}

#[test]
fn two_character_operator_at_end_of_source() {
    let (tokens, lox) = scan(">=");
    assert_eq!(kinds(&tokens), vec![TokenType::GreaterEqual, TokenType::Eof]);
    assert_eq!(tokens[0].lexeme, ">=");
    assert!(!lox.had_error);
}

#[test]
fn keywords_and_identifiers() {
    let (tokens, _) = scan("and class else false for fun if nil or print return super this true var while whilex");
    assert_eq!(
        kinds(&tokens),
        vec![
            TokenType::And,
            TokenType::Class,
            TokenType::Else,
            TokenType::False,
            TokenType::For,
            TokenType::Fun,
            TokenType::If,
            TokenType::Nil,
            TokenType::Or,
            TokenType::Print,
            TokenType::Return,
            TokenType::Super,
            TokenType::This,
            TokenType::True,
            TokenType::Var,
            TokenType::While,
            TokenType::Identifier,
            TokenType::Eof,
        ]
    );
    assert_eq!(tokens[16].lexeme, "whilex");
}

#[test]
fn identifiers_take_letters_then_digits() {
    let (tokens, _) = scan("abc12 x9y");
    assert_eq!(lexemes(&tokens), vec!["abc12", "x9y", ""]);
}

#[test]
fn numbers_with_fraction() {
    let (tokens, _) = scan("3.25 7. 8");
    assert_eq!(
        kinds(&tokens),
        vec![TokenType::Number, TokenType::Number, TokenType::Dot, TokenType::Number, TokenType::Eof]
    );
    assert_eq!(lexemes(&tokens), vec!["3.25", "7", ".", "8", ""]);
    match &tokens[0].literal {
        Some(Literal::Num(n)) => assert_eq!(n, "3.25"),
        other => panic!("unexpected literal {:?}", other),
    }
}

#[test]
fn comments_and_lines() {
    let (tokens, lox) = scan("// a comment\nprint 1;\n\n/ 2");
    assert_eq!(
        kinds(&tokens),
        vec![
            TokenType::Print,
            TokenType::Number,
            TokenType::Semicolon,
            TokenType::Slash,
            TokenType::Number,
            TokenType::Eof,
        ]
    );
    let lines: Vec<usize> = tokens.iter().map(|t| t.line).collect();
    assert_eq!(lines, vec![2, 2, 2, 4, 4, 4]);
    assert!(!lox.had_error);
}

#[test]
fn whitespace_is_skipped() {
    let (tokens, _) = scan(" \t\r1");
    assert_eq!(kinds(&tokens), vec![TokenType::Number, TokenType::Eof]);
}

#[test]
fn string_literal_takes_both_quotes() {
    let (tokens, lox) = scan("\"abc\";");
    assert_eq!(kinds(&tokens), vec![TokenType::String, TokenType::Semicolon, TokenType::Eof]);
    assert_eq!(lexemes(&tokens), vec!["\"abc\"", ";", ""]);
    match &tokens[0].literal {
        Some(Literal::Str(s)) => assert_eq!(s, "abc"),
        other => panic!("unexpected literal {:?}", other),
    }
    assert!(!lox.had_error);
    let (tokens, lox) = scan("\"hi\"");
    assert_eq!(lexemes(&tokens), vec!["\"hi\"", ""]);
    assert!(matches!(&tokens[0].literal, Some(Literal::Str(s)) if s == "hi"));
    assert!(!lox.had_error);
}

#[test]
fn unterminated_string_is_reported() {
    let (tokens, lox) = scan("\"ab");
    assert_eq!(kinds(&tokens), vec![TokenType::String, TokenType::Eof]);
    assert_eq!(tokens[0].lexeme, "\"ab");
    assert!(matches!(&tokens[0].literal, Some(Literal::Str(s)) if s == "a"));
    assert_eq!(messages(&lox), vec!["[line 1, col 3] Error: unterminated string literal"]);
}

#[test]
fn lone_quote_at_the_end_is_refused() {
    let mut lox = Lox::new();
    let mut scanner = Scanner::init("\"".to_string());
    assert!(scanner.scan_tokens_checked(&mut lox).is_err());
}

#[test]
fn string_spanning_lines_counts_them() {
    let (tokens, _) = scan("\"a\nb\" x");
    assert_eq!(tokens[0].token_type, TokenType::String);
    assert_eq!(tokens[0].line, 2);
}

#[test]
fn empty_string_literal() {
    let (tokens, lox) = scan("\"\"");
    assert_eq!(lexemes(&tokens), vec!["\"\"", ""]);
    assert!(matches!(&tokens[0].literal, Some(Literal::Str(s)) if s.is_empty()));
    assert!(!lox.had_error);
}

#[test]
fn unexpected_character_is_reported_with_its_column() {
    let (tokens, lox) = scan("1 @ 2");
    assert_eq!(kinds(&tokens), vec![TokenType::Number, TokenType::Number, TokenType::Eof]);
    assert!(lox.had_error);
    assert_eq!(lox.reported.len(), 1);
    match &lox.reported[0] {
        ErrorKind::WithLocation { message, line, col } => {
            assert_eq!(message, "unexpected token @");
            assert_eq!(*line, 1);
            assert_eq!(*col, Some(3));
        }
        other => panic!("unexpected error {:?}", other),
    }
    assert_eq!(messages(&lox), vec!["[line 1, col 3] Error: unexpected token @"]);
}

#[test]
fn scanning_keeps_earlier_errors() {
    let mut lox = Lox::new();
    lox::error::report(&mut lox, ErrorKind::Simple("earlier".to_string()));
    let mut scanner = Scanner::init("#".to_string());
    scanner.scan_tokens(&mut lox);
    assert_eq!(messages(&lox), vec!["earlier", "[line 1, col 1] Error: unexpected token #"]);
    assert!(lox.had_error);
}

#[test]
fn reserved_words_are_case_sensitive() {
    let (tokens, _) = scan("While");
    assert_eq!(kinds(&tokens), vec![TokenType::Identifier, TokenType::Eof]);
    assert_eq!(tokens[0].lexeme, "While");
}

#[test]
fn token_lines_count_the_line_breaks_before_them() {
    let (tokens, lox) = scan("a\n\nb // c\n1.5 - x\n");
    let lines: Vec<usize> = tokens.iter().map(|t| t.line).collect();
    assert_eq!(lines, vec![1, 3, 4, 4, 4, 5]);
    assert_eq!(lexemes(&tokens), vec!["a", "b", "1.5", "-", "x", ""]);
    assert!(!lox.had_error);
}
