use lox::error::Lox;
use lox::interpreter::{Action, Event, Interpreter, Value};
use lox::running::scan_and_parse;
use lox::parser::Parser;
use lox::token::{Literal, Token, TokenType};

fn show(v: &Value<f64>) -> String {
    match v {
        Value::Str(s) => format!("String : {s}"),
        Value::Num(n) => {
            if n.fract() == 0.0 {
                format!("Integer : {}", *n as i64)
            } else {
                format!("Float : {n}")
            }
        }
        Value::Bool(b) => format!("Boolean : {b}"),
        Value::Nil => "nandemonai desuga".to_string(),
    }
}

fn arith(op: TokenType, a: f64, b: f64) -> Event<f64> {
    match op {
        TokenType::Minus => Event::Number(a - b),
        TokenType::Plus => Event::Number(a + b),
        TokenType::Star => Event::Number(a * b),
        TokenType::Slash => {
            if b == 0.0 {
                Event::DivisionByZero
            } else {
                Event::Number(a / b)
            }
        }
        TokenType::Greater => Event::Truth(a > b),
        TokenType::GreaterEqual => Event::Truth(a >= b),
        TokenType::Less => Event::Truth(a < b),
        TokenType::LessEqual => Event::Truth(a <= b),
        TokenType::EqualEqual => Event::Truth(a == b),
        _ => Event::Truth(a != b),
    }
}

/// Runs a source text; gives the printed lines, the error messages, and
/// whether the run halted.
fn run(source: &str) -> (Vec<String>, Vec<String>, bool) {
    let mut lox = Lox::new();
    let program = match scan_and_parse(&mut lox, source) {
        Ok(Some(program)) => Some(program),
        _ => None,
    };
    run_program(program, lox)
}

/// Runs a program written as tokens.
fn run_tokens(tokens: Vec<Token>) -> (Vec<String>, Vec<String>, bool) {
    let mut lox = Lox::new();
    let program = Parser::init(tokens).parse(&mut lox);
    assert!(lox.reported.is_empty());
    run_program(Some(program), lox)
}

fn tok(token_type: TokenType, lexeme: &str) -> Token {
    Token::new(token_type, lexeme.to_string(), Some(Literal::Nil), 1)
}

fn text(s: &str) -> Token {
    Token::new(TokenType::String, format!("\"{s}"), Some(Literal::Str(s.to_string())), 1)
}

fn number(s: &str) -> Token {
    Token::new(TokenType::Number, s.to_string(), Some(Literal::Num(s.to_string())), 1)
}

/// `print left op right;`
fn print_binary(left: Token, op: Token, right: Token) -> Vec<Token> {
    vec![tok(TokenType::Print, "print"), left, op, right, tok(TokenType::Semicolon, ";"), tok(TokenType::Eof, "")]
}

fn run_program(program: Option<Vec<lox::ast::Statement>>, mut lox: Lox) -> (Vec<String>, Vec<String>, bool) {
    let mut out = Vec::new();
    let mut halted = false;
    if let Some(program) = program {
        let mut interp: Interpreter<f64> = Interpreter::init();
        interp.interpret(&program);
        let mut event = Event::Resume;
        let mut steps = 0;
        loop {
            steps += 1;
            assert!(steps < 100_000, "the run does not end");
            event = match interp.step(&mut lox, event) {
                Action::Continue => Event::Resume,
                Action::Print(v) => {
                    out.push(show(&v));
                    Event::Resume
                }
                Action::Number(text) => Event::Number(text.parse::<f64>().unwrap()),
                Action::Truthy(n) => Event::Truth(n != 0.0),
                Action::Negate(n) => Event::Number(-n),
                Action::Arith { op, left, right } => arith(op, left, right),
                Action::Count(times) => {
                    if times < 0.0 || times.fract() != 0.0 {
                        Event::BadRepeat(format!("{times}"))
                    } else {
                        Event::Count(times as usize)
                    }
                }
                Action::Halt => {
                    halted = true;
                    break;
                }
                Action::Done => break,
            };
        }
    }
    let errors = lox.reported.iter().map(|e| e.message()).collect();
    (out, errors, halted)
}

fn lines(v: &[&str]) -> Vec<String> {
    v.iter().map(|s| s.to_string()).collect()
}

#[test]
fn print_values_of_each_kind() {
    let (out, errors, _) = run("print 1; print 2.5; print true; print nil; print 1 < 2;");
    assert_eq!(
        out,
        lines(&["Integer : 1", "Float : 2.5", "Boolean : true", "nandemonai desuga", "Boolean : true"])
    );
    assert!(errors.is_empty());
}

#[test]
fn arithmetic() {
    let (out, _, _) = run("print 1 + 2 * 3; print (1 + 2) * 3; print 7 / 2; print 10 - 4 - 3;");
    assert_eq!(out, lines(&["Integer : 7", "Integer : 9", "Float : 3.5", "Integer : 3"]));
}

#[test]
fn variables_and_assignment() {
    let (out, errors, _) = run("var a = 1; var b; print b; a = a + 1; print a; print a = 5; print a;");
    assert_eq!(out, lines(&["nandemonai desuga", "Integer : 2", "Integer : 5", "Integer : 5"]));
    assert!(errors.is_empty());
}

#[test]
fn chained_assignment_propagates_the_value() {
    let (out, _, _) = run("var a; var b; a = b = 3; print a; print b;");
    assert_eq!(out, lines(&["Integer : 3", "Integer : 3"]));
}

#[test]
fn blocks_shadow_and_restore() {
    let (out, errors, _) = run("var a = 1; { var a = 2; print a; } print a; { a = 3; } print a;");
    assert_eq!(out, lines(&["Integer : 2", "Integer : 1", "Integer : 3"]));
    assert!(errors.is_empty());
}

#[test]
fn variable_declared_in_a_block_is_gone_after_it() {
    let (out, errors, _) = run("{ var inner = 1; } print inner;");
    assert!(out.is_empty());
    assert_eq!(errors, lines(&["[line 1] Error: Undefined variable 'inner'"]));
}

#[test]
fn if_else() {
    let (out, _, _) = run("if (1 < 2) print 1; else print 2; if (nil) print 3; else print 4; if (false) print 5;");
    assert_eq!(out, lines(&["Integer : 1", "Integer : 4"]));
}

#[test]
fn while_and_for_loops() {
    let (out, errors, _) = run("var i = 0; while (i < 3) { print i; i = i + 1; }");
    assert_eq!(out, lines(&["Integer : 0", "Integer : 1", "Integer : 2"]));
    assert!(errors.is_empty());
    let (out, errors, _) = run("for (var j = 0; j < 2; j = j + 1) print j;");
    assert_eq!(out, lines(&["Integer : 0", "Integer : 1"]));
    assert!(errors.is_empty());
}

#[test]
fn truth_of_values() {
    let (out, _, _) = run("if (0) print 1; if (0.5) print 2; if (3) print 3;");
    assert_eq!(out, lines(&["Integer : 2", "Integer : 3"]));
}

#[test]
fn bang_negates_the_truth_of_its_operand() {
    let (out, _, _) = run("print !true; print !nil; print !0; print !!1;");
    assert_eq!(out, lines(&["Boolean : false", "Boolean : true", "Boolean : true", "Boolean : true"]));
}

#[test]
fn logical_operators_short_circuit() {
    let (out, errors, _) = run("print nil or 2; print 1 or undefined; print nil and undefined; print 1 and 2;");
    assert_eq!(out, lines(&["Integer : 2", "Integer : 1", "nandemonai desuga", "Integer : 2"]));
    assert!(errors.is_empty());
}

#[test]
fn equality_and_comparison() {
    let (out, errors, _) =
        run("print 1 == 1; print 1 != 2; print nil == nil; print nil == 1; print nil != nil;");
    assert_eq!(
        out,
        lines(&["Boolean : true", "Boolean : true", "Boolean : true", "Boolean : false", "Boolean : false"])
    );
    assert!(errors.is_empty());
}

#[test]
fn undefined_variable_stops_the_program() {
    let (out, errors, _) = run("print 1;\nprint x;\nprint 2;");
    assert_eq!(out, lines(&["Integer : 1"]));
    assert_eq!(errors, lines(&["[line 2] Error: Undefined variable 'x'"]));
}

#[test]
fn assignment_to_an_unbound_name() {
    let (out, errors, _) = run("y = 1; print 2;");
    assert!(out.is_empty());
    assert_eq!(errors, lines(&["[line 1] Error: variable does not exist"]));
}

#[test]
fn type_errors() {
    let (_, errors, _) = run("print true - 1;");
    assert_eq!(errors, lines(&["[line 1] Error: Types dont suit subtraction"]));
    let (_, errors, _) = run("print true + 1;");
    assert_eq!(errors, lines(&["[line 1] Error: Types dont suit addition"]));
    let (_, errors, _) = run("print nil * 1;");
    assert_eq!(errors, lines(&["[line 1] Error: Types dont suit multiplication"]));
    let (_, errors, _) = run("print true / 1;");
    assert_eq!(errors, lines(&["[line 1] Error: Types dont suit division"]));
    let (_, errors, _) = run("print true > 1;");
    assert_eq!(errors, lines(&["[line 1] Error: Types cant be compared"]));
    let (_, errors, _) = run("print -nil;");
    assert_eq!(errors, lines(&["[line 1] Error: Invalid operand for unary minus"]));
}

#[test]
fn division_by_zero() {
    let (out, errors, _) = run("print 1 / 0;");
    assert!(out.is_empty());
    assert_eq!(errors, lines(&["[line 1] Error: Attempted division by zero"]));
}

#[test]
fn error_inside_a_loop_body_does_not_end_the_loop() {
    // The block stops after the statement with the error; the loop goes on
    // while its condition holds, each round running the block's first
    // statement only, as the error flag stays raised.
    let (out, errors, _) = run("var i = 0; while (i < 2) { i = i + 1; print i; print z; print 9; } print 7;");
    assert_eq!(out, lines(&["Integer : 1"]));
    assert_eq!(errors, lines(&["[line 1] Error: Undefined variable 'z'"]));
}

#[test]
fn empty_program_and_empty_block() {
    let (out, errors, halted) = run("");
    assert!(out.is_empty() && errors.is_empty() && !halted);
    let (out, _, _) = run("{} print 1;");
    assert_eq!(out, lines(&["Integer : 1"]));
}

#[test]
fn steps_after_the_end_stay_done() {
    let mut lox = Lox::new();
    let program = match scan_and_parse(&mut lox, "print 1;") {
        Ok(Some(p)) => p,
        _ => panic!("front end failed"),
    };
    let mut interp: Interpreter<f64> = Interpreter::init();
    interp.interpret(&program);
    let mut event = Event::Resume;
    let mut printed = 0;
    loop {
        match interp.step(&mut lox, event) {
            Action::Number(_) => event = Event::Number(1.0),
            Action::Print(_) => {
                printed += 1;
                event = Event::Resume
            }
            Action::Done => break,
            _ => event = Event::Resume,
        }
    }
    assert_eq!(printed, 1);
    assert!(matches!(interp.step(&mut lox, Event::Resume), Action::Done));
    assert!(matches!(interp.step(&mut lox, Event::Truth(true)), Action::Done));
}

#[test]
fn execute_a_single_statement() {
    let mut lox = Lox::new();
    let program = match scan_and_parse(&mut lox, "var q = true;") {
        Ok(Some(p)) => p,
        _ => panic!("front end failed"),
    };
    let mut interp: Interpreter<f64> = Interpreter::init();
    interp.execute(&program[0]);
    let mut steps = 0;
    while !matches!(interp.step(&mut lox, Event::Resume), Action::Done) {
        steps += 1;
    }
    assert_eq!(steps, 3);
    assert!(lox.reported.is_empty());
}

#[test]
fn string_concatenation() {
    let (out, errors, _) = run_tokens(print_binary(text("ab"), tok(TokenType::Plus, "+"), text("cd")));
    assert_eq!(out, lines(&["String : abcd"]));
    assert!(errors.is_empty());
}

#[test]
fn string_comparison_is_by_bytes() {
    let cases = [
        (TokenType::Less, "ab", "b", true),
        (TokenType::Less, "b", "ab", false),
        (TokenType::Less, "ab", "abc", true),
        (TokenType::Greater, "abc", "ab", true),
        (TokenType::GreaterEqual, "ab", "ab", true),
        (TokenType::LessEqual, "b", "a", false),
        (TokenType::EqualEqual, "x", "x", true),
        (TokenType::BangEqual, "x", "x", false),
        (TokenType::Less, "Z", "a", true),
    ];
    for (op, a, b, expected) in cases {
        let (out, _, _) = run_tokens(print_binary(text(a), tok(op, "op"), text(b)));
        assert_eq!(out, vec![format!("Boolean : {expected}")], "{a} {:?} {b}", op);
    }
}

#[test]
fn string_repetition() {
    let (out, _, _) = run_tokens(print_binary(text("ab"), tok(TokenType::Star, "*"), number("3")));
    assert_eq!(out, lines(&["String : ababab"]));
    let (out, _, _) = run_tokens(print_binary(number("2"), tok(TokenType::Star, "*"), text("x")));
    assert_eq!(out, lines(&["String : xx"]));
    let (out, errors, _) = run_tokens(print_binary(text("x"), tok(TokenType::Star, "*"), number("1.5")));
    assert!(out.is_empty());
    assert_eq!(errors, lines(&["[line 1] Error: Can't multiply a string with 1.5"]));
}

#[test]
fn truth_of_strings() {
    let mut tokens = vec![tok(TokenType::If, "if"), tok(TokenType::LeftParen, "("), text(""), tok(TokenType::RightParen, ")")];
    tokens.extend(vec![tok(TokenType::Print, "print"), number("1"), tok(TokenType::Semicolon, ";")]);
    tokens.extend(vec![tok(TokenType::If, "if"), tok(TokenType::LeftParen, "("), text("a"), tok(TokenType::RightParen, ")")]);
    tokens.extend(vec![tok(TokenType::Print, "print"), number("2"), tok(TokenType::Semicolon, ";"), tok(TokenType::Eof, "")]);
    let (out, _, _) = run_tokens(tokens);
    assert_eq!(out, lines(&["Integer : 2"]));
}

#[test]
fn string_and_nil_compare_by_the_left_operand() {
    let (out, errors, _) = run_tokens(print_binary(tok(TokenType::Nil, "nil"), tok(TokenType::EqualEqual, "=="), text("a")));
    assert_eq!(out, lines(&["Boolean : false"]));
    assert!(errors.is_empty());
    let (out, errors, _) = run_tokens(print_binary(text("a"), tok(TokenType::EqualEqual, "=="), tok(TokenType::Nil, "nil")));
    assert!(out.is_empty());
    assert_eq!(errors, lines(&["[line 1] Error: Types cant be compared"]));
}

#[test]
fn parsed_programs_run_without_halting() {
    let programs = [
        "var a = 1; { var b = a + 2; print -b; print ! b; } print a or b;",
        "var i = 0; while (i < 3 and true) { i = i + 1; if (i == 2) print i; else print -i; }",
        "for (var k = 10; k > 0; k = k - 4) print k / 2;",
        "print nil == nil; print 1 != 1; print true - 1; print 2 * 3 <= 6;",
    ];
    for source in programs {
        let (_, _, halted) = run(source);
        assert!(!halted, "{source}");
    }
}

#[test]
fn string_repeated_zero_times_is_empty() {
    let (out, errors, _) = run_tokens(print_binary(text("ab"), tok(TokenType::Star, "*"), number("0")));
    assert_eq!(out, lines(&["String : "]));
    assert!(errors.is_empty());
}

#[test]
fn logical_node_with_another_operator_gives_no_value() {
    // The left operand (an unbound name) is not evaluated: nothing is reported.
    let name = Token::new(TokenType::Identifier, "unbound".to_string(), None, 1);
    let expr = lox::ast::Expr::Logical {
        left: Box::new(lox::ast::Expr::Variable { name }),
        operator: tok(TokenType::Plus, "+"),
        right: Box::new(lox::ast::Expr::Literal { value: Some(Literal::Bool(true)) }),
    };
    let program = vec![lox::ast::Statement::PrintStatement(expr)];
    let (out, errors, halted) = run_program(Some(program), Lox::new());
    assert!(out.is_empty());
    assert!(errors.is_empty());
    assert!(!halted);
}

#[test]
fn string_literals_from_source() {
    let (out, errors, _) = run("var s = \"ab\" + \"cd\"; print s; print s * 2; print \"b\" > \"a\";");
    assert_eq!(out, lines(&["String : abcd", "String : abcdabcd", "Boolean : true"]));
    assert!(errors.is_empty());
}
