use vstd::prelude::*;
use vstd::string::StringSliceAdditionalSpecFns;
use vstd::utf8::{decode_utf8, encode_utf8};
use crate::ast::{Expr, Statement, lemma_stmts_view_index, stmt_view, stmts_view};
use crate::grammar::{PState, Parsed, is_binary_op, law_parsed_operators, lemma_block_operators, operators_ok, parse_result, stmt_operators_ok};
use crate::environment::{Environment, assign_in, define_in, lookup_in};
use crate::error::{ErrorKind, ErrorView, Lox, report};
use crate::operators::{BinaryAction, Kind, binary_action, binary_operator, binary_rule, type_error_text};
use vstd::string::StringExecFns;
use crate::token::{Literal, Token, TokenType};

verus! {

/// A runtime value.  Numbers are of the type `N` chosen by the embedder,
/// which also does all arithmetic on them (see `Action`).
pub enum Value<N> {
    Str(String),
    Num(N),
    Bool(bool),
    Nil,
}

impl<N: Copy> Clone for Value<N> {
    fn clone(&self) -> (r: Self)
        ensures
            r == *self,
    {
        match self {
            Value::Str(s) => Value::Str(s.clone()),
            Value::Num(n) => Value::Num(*n),
            Value::Bool(b) => Value::Bool(*b),
            Value::Nil => Value::Nil,
        }
    }
}

/// What remains to be done once the current statement or expression is
/// done, innermost last on the stack.
pub enum Frame<'a, N> {
    /// The statements of a block (`scoped`) or of the program, from `next` on.
    Sequence { statements: &'a Vec<Statement>, next: usize, scoped: bool },
    /// An expression statement: the value is dropped.
    ExprDone,
    /// A print statement: the value is printed.
    PrintArg,
    /// A variable declaration: the value is bound to the name.
    VarInit { token: &'a Option<Token> },
    /// An if statement: the condition's value is tested.
    IfCond { ifblock: &'a Box<Statement>, elseblock: &'a Option<Box<Statement>> },
    /// An if statement: the condition's truth selects the branch.
    IfTest { ifblock: &'a Box<Statement>, elseblock: &'a Option<Box<Statement>> },
    /// A while statement: the condition's value is tested.
    WhileCond { condition: &'a Expr, body: &'a Box<Statement> },
    /// A while statement: the condition's truth decides on another round.
    WhileTest { condition: &'a Expr, body: &'a Box<Statement> },
    /// A while statement: after the body the condition is evaluated again.
    WhileBody { condition: &'a Expr, body: &'a Box<Statement> },
    /// The embedder's reading of a numeral is awaited.
    NumberLiteral,
    /// The embedder's truth of a number is awaited.
    Truth,
    /// A unary operator applies to the operand's value.
    Unary { operator: &'a Token },
    /// The embedder's negation of a number is awaited.
    Negate,
    /// `!`: the result is the negation of the operand's truth.
    Not,
    /// A binary operator: the right operand is evaluated next.
    BinaryLeft { operator: &'a Token, right: &'a Box<Expr> },
    /// A binary operator applies to both operands' values.
    BinaryRight { operator: &'a Token, left: Value<N> },
    /// The embedder's arithmetic or numeric comparison is awaited.
    Arith { operator: &'a Token },
    /// The embedder's reading of a number as a count of repetitions of
    /// `text` is awaited.
    Repeat { operator: &'a Token, text: String },
    /// An assignment: the value is stored under the name.
    Assign { name: &'a Token },
    /// `and` / `or`: the left operand's truth is tested.
    LogicalLeft { operator: &'a Token, right: &'a Box<Expr> },
    /// `and` / `or`: the left operand's truth decides the result.
    LogicalTest { operator: &'a Token, left: Value<N>, right: &'a Box<Expr> },
}

/// What the interpreter is doing.
pub enum Control<'a, N> {
    /// A statement is to be executed.
    Exec(&'a Statement),
    /// An expression is to be evaluated.
    Eval(&'a Expr),
    /// An expression's outcome: its value, or `None` where evaluation failed.
    Value(Option<Value<N>>),
    /// A truth value is ready for the frame on top of the stack.
    Truth(bool),
    /// A statement is done.
    Finished,
    /// The embedder's answer to the last action is awaited.
    Await,
}

/// What the interpreter asks of its embedder after a step.
pub enum Action<'a, N> {
    /// Nothing: step again.
    Continue,
    /// Print the value, then step again.
    Print(Value<N>),
    /// Read the numeral, and answer with `Event::Number`.
    Number(&'a String),
    /// Answer with `Event::Truth`: whether the number is not zero.
    Truthy(N),
    /// Answer with `Event::Number`: the negated number.
    Negate(N),
    /// Apply the operator to two numbers, and answer with `Event::Number`
    /// (`-`, `+`, `*`, `/`), `Event::Truth` (comparisons and (in)equality),
    /// or `Event::DivisionByZero` (`/` by zero).
    Arith { op: TokenType, left: N, right: N },
    /// Answer with `Event::Count`: the number as a count of repetitions of a
    /// string, or with `Event::BadRepeat` and the number as shown where it is
    /// negative or not a whole number.
    Count(N),
    /// The run stops: a line number beyond `u32` where an error is to be
    /// reported, an operator no unary node has, or an answer of another kind
    /// than the action asked for.
    Halt,
    /// The program is done.
    Done,
}

/// The embedder's answer to an action.
pub enum Event<N> {
    Resume,
    Number(N),
    Truth(bool),
    Count(usize),
    DivisionByZero,
    BadRepeat(String),
}

/// The interpreter's state as a whole: the scopes (innermost first), the
/// stack of frames and what is being done.
pub struct Config<'a, N> {
    pub scopes: Seq<Map<Seq<char>, Value<N>>>,
    pub stack: Seq<Frame<'a, N>>,
    pub control: Control<'a, N>,
}

/// The error state: the flag and the errors reported so far.
pub struct Reports {
    pub had_error: bool,
    pub errors: Seq<ErrorView>,
}

pub open spec fn reports(lox: &Lox) -> Reports {
    Reports { had_error: lox.had_error, errors: lox.errors() }
}

/// One more error reported.
pub open spec fn reported(r: Reports, e: ErrorView) -> Reports {
    Reports { had_error: true, errors: r.errors.push(e) }
}

/// An error at a line, without a column.
pub open spec fn at_line(message: Seq<char>, line: u32) -> ErrorView {
    ErrorView::WithLocation { message, line, col: None }
}

/// `u32::try_from` of a line number.
pub open spec fn line_u32(line: usize) -> Option<u32> {
    if line <= u32::MAX { Some(line as u32) } else { None }
}

pub open spec fn with_control<'a, N>(c: Config<'a, N>, control: Control<'a, N>) -> Config<'a, N> {
    Config { scopes: c.scopes, stack: c.stack, control }
}

/// The frame `f` pushed, then `control`.
pub open spec fn pushed<'a, N>(c: Config<'a, N>, f: Frame<'a, N>, control: Control<'a, N>) -> Config<'a, N> {
    Config { scopes: c.scopes, stack: c.stack.push(f), control }
}

/// The top frame popped, then `control`.
pub open spec fn popped<'a, N>(c: Config<'a, N>, control: Control<'a, N>) -> Config<'a, N> {
    Config { scopes: c.scopes, stack: c.stack.drop_last(), control }
}

pub open spec fn with_scopes<'a, N>(c: Config<'a, N>, scopes: Seq<Map<Seq<char>, Value<N>>>) -> Config<'a, N> {
    Config { scopes, stack: c.stack, control: c.control }
}

/// A variable declared: `name`, where there is one, bound to `v` in the
/// innermost scope.
pub open spec fn declared<'a, N>(c: Config<'a, N>, name: Option<Token>, v: Value<N>) -> Config<'a, N> {
    match name {
        Some(t) => with_scopes(c, define_in(c.scopes, t.lexeme@, v)),
        None => c,
    }
}

/// Executing a statement: its first step.
pub open spec fn exec_step<'a, N>(c: Config<'a, N>, stmt: &'a Statement) -> (Config<'a, N>, Action<'a, N>) {
    match stmt {
        Statement::ExprStatement(e) => (pushed(c, Frame::ExprDone, Control::Eval(e)), Action::Continue),
        Statement::PrintStatement(e) => (pushed(c, Frame::PrintArg, Control::Eval(e)), Action::Continue),
        Statement::AssignStatement { token, expression } => match expression {
            Some(e) => (pushed(c, Frame::VarInit { token }, Control::Eval(e)), Action::Continue),
            None => (with_control(declared(c, *token, Value::Nil), Control::Finished), Action::Continue),
        },
        Statement::BlockStatement(v) => if v@.len() == 0 {
            (with_control(c, Control::Finished), Action::Continue)
        } else {
            (pushed(
                with_scopes(c, seq![Map::<Seq<char>, Value<N>>::empty()] + c.scopes),
                Frame::Sequence { statements: v, next: 1, scoped: true },
                Control::Exec(&v@[0]),
            ), Action::Continue)
        },
        Statement::IfStatement { condition, ifblock, elseblock } =>
            (pushed(c, Frame::IfCond { ifblock, elseblock }, Control::Eval(condition)), Action::Continue),
        Statement::WhileStatement { condition, statement } =>
            (pushed(c, Frame::WhileCond { condition, body: statement }, Control::Eval(condition)), Action::Continue),
    }
}

/// The message for reading a name that no scope binds.
pub open spec fn undefined_message(name: Seq<char>) -> Seq<char> {
    "Undefined variable '"@ + name + "'"@
}

/// Evaluating an expression: its first step.
pub open spec fn eval_step<'a, N>(c: Config<'a, N>, r: Reports, e: &'a Expr) -> (Config<'a, N>, Reports, Action<'a, N>) {
    match e {
        Expr::Literal { value } => match value {
            None => (with_control(c, Control::Value(None)), r, Action::Continue),
            Some(l) => match l {
                Literal::Num(text) => (pushed(c, Frame::NumberLiteral, Control::Await), r, Action::Number(text)),
                Literal::Str(s) => (with_control(c, Control::Value(Some(Value::Str(*s)))), r, Action::Continue),
                Literal::Bool(b) => (with_control(c, Control::Value(Some(Value::Bool(*b)))), r, Action::Continue),
                Literal::Nil => (with_control(c, Control::Value(Some(Value::Nil))), r, Action::Continue),
            },
        },
        Expr::Grouping { expression } => (with_control(c, Control::Eval(&**expression)), r, Action::Continue),
        Expr::Unary { operator, expression } =>
            (pushed(c, Frame::Unary { operator }, Control::Eval(&**expression)), r, Action::Continue),
        Expr::Binary { left, operator, right } =>
            (pushed(c, Frame::BinaryLeft { operator, right }, Control::Eval(&**left)), r, Action::Continue),
        Expr::Variable { name } => match lookup_in(c.scopes, name.lexeme@) {
            Some(v) => (with_control(c, Control::Value(Some(v))), r, Action::Continue),
            None => (
                with_control(c, Control::Value(None)),
                reported(r, at_line(undefined_message(name.lexeme@), name.line as u32)),
                Action::Continue,
            ),
        },
        Expr::Assignment { name, value } =>
            (pushed(c, Frame::Assign { name }, Control::Eval(&**value)), r, Action::Continue),
        Expr::Logical { left, operator, right } =>
            if operator.token_type == TokenType::Or || operator.token_type == TokenType::And {
                (pushed(c, Frame::LogicalLeft { operator, right }, Control::Eval(&**left)), r, Action::Continue)
            } else {
                (with_control(c, Control::Value(None)), r, Action::Continue)
            },
    }
}

/// The kind of a value, as the operators see it.
pub open spec fn kind_of<N>(v: Value<N>) -> Kind {
    match v {
        Value::Str(_) => Kind::Str,
        Value::Num(_) => Kind::Num,
        Value::Bool(_) => Kind::Bool,
        Value::Nil => Kind::Nil,
    }
}

/// Lexicographic order of byte strings: the order of `str` values.
pub open spec fn bytes_less(a: Seq<u8>, b: Seq<u8>) -> bool
    decreases a.len(),
{
    if b.len() == 0 {
        false
    } else if a.len() == 0 {
        true
    } else if a[0] != b[0] {
        a[0] < b[0]
    } else {
        bytes_less(a.drop_first(), b.drop_first())
    }
}

/// `a op b` for two strings, where `op` is a comparison or (in)equality.
pub open spec fn compare_texts(op: TokenType, a: Seq<char>, b: Seq<char>) -> bool {
    let (x, y) = (encode_utf8(a), encode_utf8(b));
    if op == TokenType::Greater {
        bytes_less(y, x)
    } else if op == TokenType::GreaterEqual {
        !bytes_less(x, y)
    } else if op == TokenType::Less {
        bytes_less(x, y)
    } else if op == TokenType::LessEqual {
        !bytes_less(y, x)
    } else if op == TokenType::EqualEqual {
        a == b
    } else {
        a != b
    }
}

/// The run abandoned: nothing left to do.
pub open spec fn halted<'a, N>(c: Config<'a, N>) -> Config<'a, N> {
    Config { scopes: c.scopes, stack: Seq::empty(), control: Control::Finished }
}

/// The top frame replaced by `f`, then `control`.
pub open spec fn replaced<'a, N>(c: Config<'a, N>, f: Frame<'a, N>, control: Control<'a, N>) -> Config<'a, N> {
    Config { scopes: c.scopes, stack: c.stack.drop_last().push(f), control }
}

/// Whether a value counts as true, where that does not depend on a number.
pub open spec fn truth_of<N>(v: Value<N>) -> bool {
    match v {
        Value::Str(s) => s@.len() != 0,
        Value::Num(_) => true,
        Value::Bool(b) => b,
        Value::Nil => false,
    }
}

/// Testing a value's truth for the frame on top: the embedder decides for
/// a number.
pub open spec fn tested<'a, N>(c: Config<'a, N>, v: Value<N>) -> (Config<'a, N>, Action<'a, N>) {
    match v {
        Value::Num(n) => (pushed(c, Frame::Truth, Control::Await), Action::Truthy(n)),
        _ => (with_control(c, Control::Truth(truth_of(v))), Action::Continue),
    }
}

/// The text `left op right` creates, where it concatenates two strings.
pub open spec fn concat_of<N>(op: TokenType, left: Value<N>, right: Value<N>) -> Option<Seq<char>> {
    match (left, right) {
        (Value::Str(a), Value::Str(b)) => if op == TokenType::Plus { Some(a@ + b@) } else { None },
        _ => None,
    }
}

/// The text a step creates by concatenation, if it creates one.
pub open spec fn concat_text<'a, N>(c: Config<'a, N>, v: Option<Value<N>>) -> Option<Seq<char>> {
    if c.stack.len() > 0 && v is Some {
        match c.stack.last() {
            Frame::BinaryRight { operator, left } => concat_of(operator.token_type, left, v->Some_0),
            _ => None,
        }
    } else {
        None
    }
}

/// A binary operator applied to two values (the operator's frame popped).
pub open spec fn binary_step<'a, N>(c: Config<'a, N>, r: Reports, operator: &'a Token, left: Value<N>, right: Value<N>, fresh: String) -> (Config<'a, N>, Reports, Action<'a, N>) {
    let op = operator.token_type;
    match binary_rule(op, kind_of(left), kind_of(right)) {
        BinaryAction::Numbers => (
            pushed(c, Frame::Arith { operator }, Control::Await),
            r,
            Action::Arith { op, left: left->Num_0, right: right->Num_0 },
        ),
        BinaryAction::Concat => (with_control(c, Control::Value(Some(Value::Str(fresh)))), r, Action::Continue),
        BinaryAction::Repeat { string_left } => (
            pushed(
                c,
                Frame::Repeat { operator, text: if string_left { left->Str_0 } else { right->Str_0 } },
                Control::Await,
            ),
            r,
            Action::Count(if string_left { right->Num_0 } else { left->Num_0 }),
        ),
        BinaryAction::Strings => (
            with_control(c, Control::Value(Some(Value::Bool(compare_texts(op, left->Str_0@, right->Str_0@))))),
            r,
            Action::Continue,
        ),
        BinaryAction::Constant(b) => (with_control(c, Control::Value(Some(Value::Bool(b)))), r, Action::Continue),
        BinaryAction::Error(e) => match line_u32(operator.line) {
            Some(l) => (with_control(c, Control::Value(None)), reported(r, at_line(type_error_text(e), l)), Action::Continue),
            None => (halted(c), r, Action::Halt),
        },
        BinaryAction::Nothing => (with_control(c, Control::Value(None)), r, Action::Continue),
    }
}

/// An expression's outcome `v` handed to the frame on top.
pub open spec fn value_step<'a, N>(c: Config<'a, N>, r: Reports, v: Option<Value<N>>, fresh: String) -> (Config<'a, N>, Reports, Action<'a, N>) {
    if c.stack.len() == 0 {
        (halted(c), r, Action::Halt)
    } else {
        let fail = (popped(c, Control::Value(None)), r, Action::Continue);
        match c.stack.last() {
            Frame::ExprDone => (popped(c, Control::Finished), r, Action::Continue),
            Frame::PrintArg => match v {
                Some(x) => (popped(c, Control::Finished), r, Action::Print(x)),
                None => (popped(c, Control::Finished), r, Action::Continue),
            },
            Frame::VarInit { token } => (
                declared(popped(c, Control::Finished), *token, match v { Some(x) => x, None => Value::Nil }),
                r,
                Action::Continue,
            ),
            Frame::IfCond { ifblock, elseblock } => match v {
                Some(x) => {
                    let (c2, a) = tested(replaced(c, Frame::IfTest { ifblock, elseblock }, Control::Finished), x);
                    (c2, r, a)
                },
                None => (popped(c, Control::Finished), r, Action::Continue),
            },
            Frame::WhileCond { condition, body } => match v {
                Some(x) => {
                    let (c2, a) = tested(replaced(c, Frame::WhileTest { condition, body }, Control::Finished), x);
                    (c2, r, a)
                },
                None => (popped(c, Control::Finished), r, Action::Continue),
            },
            Frame::Unary { operator } => match v {
                Some(x) => if operator.token_type == TokenType::Minus {
                    match x {
                        Value::Num(n) => (replaced(c, Frame::Negate, Control::Await), r, Action::Negate(n)),
                        _ => match line_u32(operator.line) {
                            Some(l) => (
                                popped(c, Control::Value(None)),
                                reported(r, at_line("Invalid operand for unary minus"@, l)),
                                Action::Continue,
                            ),
                            None => (halted(c), r, Action::Halt),
                        },
                    }
                } else if operator.token_type == TokenType::Bang {
                    let (c2, a) = tested(replaced(c, Frame::Not, Control::Finished), x);
                    (c2, r, a)
                } else {
                    (halted(c), r, Action::Halt)
                },
                None => fail,
            },
            Frame::BinaryLeft { operator, right } => match v {
                Some(x) => (replaced(c, Frame::BinaryRight { operator, left: x }, Control::Eval(&**right)), r, Action::Continue),
                None => fail,
            },
            Frame::BinaryRight { operator, left } => match v {
                Some(x) => binary_step(popped(c, Control::Finished), r, operator, left, x, fresh),
                None => fail,
            },
            Frame::Assign { name } => match v {
                Some(x) => match assign_in(c.scopes, name.lexeme@, x) {
                    Some(scopes) => (with_scopes(popped(c, Control::Value(Some(x))), scopes), r, Action::Continue),
                    None => (
                        popped(c, Control::Value(None)),
                        reported(r, at_line("variable does not exist"@, name.line as u32)),
                        Action::Continue,
                    ),
                },
                None => fail,
            },
            Frame::LogicalLeft { operator, right } => match v {
                Some(x) => if operator.token_type == TokenType::Or || operator.token_type == TokenType::And {
                    let (c2, a) = tested(replaced(c, Frame::LogicalTest { operator, left: x, right }, Control::Finished), x);
                    (c2, r, a)
                } else {
                    fail
                },
                None => fail,
            },
            _ => (halted(c), r, Action::Halt),
        }
    }
}

/// A truth value handed to the frame on top.
pub open spec fn truth_step<'a, N>(c: Config<'a, N>, r: Reports, b: bool) -> (Config<'a, N>, Reports, Action<'a, N>) {
    if c.stack.len() == 0 {
        (halted(c), r, Action::Halt)
    } else {
        match c.stack.last() {
            Frame::IfTest { ifblock, elseblock } => if b {
                (popped(c, Control::Exec(&**ifblock)), r, Action::Continue)
            } else {
                match elseblock {
                    Some(e) => (popped(c, Control::Exec(&**e)), r, Action::Continue),
                    None => (popped(c, Control::Finished), r, Action::Continue),
                }
            },
            Frame::WhileTest { condition, body } => if b {
                (replaced(c, Frame::WhileBody { condition, body }, Control::Exec(&**body)), r, Action::Continue)
            } else {
                (popped(c, Control::Finished), r, Action::Continue)
            },
            Frame::Not => (popped(c, Control::Value(Some(Value::Bool(!b)))), r, Action::Continue),
            Frame::LogicalTest { operator, left, right } => if b == (operator.token_type == TokenType::Or) {
                (popped(c, Control::Value(Some(left))), r, Action::Continue)
            } else {
                (popped(c, Control::Eval(&**right)), r, Action::Continue)
            },
            _ => (halted(c), r, Action::Halt),
        }
    }
}

/// A statement done: the frame on top goes on.
pub open spec fn finished_step<'a, N>(c: Config<'a, N>, r: Reports) -> (Config<'a, N>, Reports, Action<'a, N>) {
    if c.stack.len() == 0 {
        (c, r, Action::Done)
    } else {
        match c.stack.last() {
            Frame::Sequence { statements, next, scoped } => if r.had_error || next >= statements@.len() {
                let scopes = if scoped && c.scopes.len() > 1 { c.scopes.drop_first() } else { c.scopes };
                (with_scopes(popped(c, Control::Finished), scopes), r, Action::Continue)
            } else {
                (
                    replaced(c, Frame::Sequence { statements, next: (next + 1) as usize, scoped }, Control::Exec(&statements@[next as int])),
                    r,
                    Action::Continue,
                )
            },
            Frame::WhileBody { condition, body } =>
                (replaced(c, Frame::WhileCond { condition, body }, Control::Eval(condition)), r, Action::Continue),
            _ => (halted(c), r, Action::Halt),
        }
    }
}

/// The embedder's answer handed to the frame on top.
pub open spec fn await_step<'a, N>(c: Config<'a, N>, r: Reports, event: Event<N>, fresh: String) -> (Config<'a, N>, Reports, Action<'a, N>) {
    if c.stack.len() == 0 {
        (halted(c), r, Action::Halt)
    } else {
        match (c.stack.last(), event) {
            (Frame::NumberLiteral, Event::Number(n)) => (popped(c, Control::Value(Some(Value::Num(n)))), r, Action::Continue),
            (Frame::Negate, Event::Number(n)) => (popped(c, Control::Value(Some(Value::Num(n)))), r, Action::Continue),
            (Frame::Truth, Event::Truth(b)) => (popped(c, Control::Truth(b)), r, Action::Continue),
            (Frame::Arith { operator }, Event::Number(n)) => (popped(c, Control::Value(Some(Value::Num(n)))), r, Action::Continue),
            (Frame::Arith { operator }, Event::Truth(b)) => (popped(c, Control::Value(Some(Value::Bool(b)))), r, Action::Continue),
            (Frame::Arith { operator }, Event::DivisionByZero) => match line_u32(operator.line) {
                Some(l) => (
                    popped(c, Control::Value(None)),
                    reported(r, at_line("Attempted division by zero"@, l)),
                    Action::Continue,
                ),
                None => (halted(c), r, Action::Halt),
            },
            (Frame::Repeat { operator, text }, Event::Count(n)) =>
                (popped(c, Control::Value(Some(Value::Str(fresh)))), r, Action::Continue),
            (Frame::Repeat { operator, text }, Event::BadRepeat(shown)) => match line_u32(operator.line) {
                Some(l) => (
                    popped(c, Control::Value(None)),
                    reported(r, at_line("Can't multiply a string with "@ + shown@, l)),
                    Action::Continue,
                ),
                None => (halted(c), r, Action::Halt),
            },
            _ => (halted(c), r, Action::Halt),
        }
    }
}

/// One step of the interpreter, given the embedder's answer to the last
/// action (ignored unless one is awaited); `fresh` is the string the step
/// creates, where it concatenates two or repeats one (see `fresh_ok`).
pub open spec fn next<'a, N>(c: Config<'a, N>, r: Reports, event: Event<N>, fresh: String) -> (Config<'a, N>, Reports, Action<'a, N>) {
    match c.control {
        Control::Exec(stmt) => {
            let (c2, a) = exec_step(c, stmt);
            (c2, r, a)
        },
        Control::Eval(e) => eval_step(c, r, e),
        Control::Value(v) => value_step(c, r, v, fresh),
        Control::Truth(b) => truth_step(c, r, b),
        Control::Finished => finished_step(c, r),
        Control::Await => await_step(c, r, event, fresh),
    }
}

/// `text` repeated `n` times.
pub open spec fn repeat_text(text: Seq<char>, n: nat) -> Seq<char>
    decreases n,
{
    if n == 0 { Seq::empty() } else { repeat_text(text, (n - 1) as nat) + text }
}

/// The text a step creates by repetition, if it creates one.
pub open spec fn repeat_of<'a, N>(c: Config<'a, N>, event: Event<N>) -> Option<Seq<char>> {
    if c.stack.len() > 0 {
        match (c.stack.last(), event) {
            (Frame::Repeat { operator, text }, Event::Count(n)) => Some(repeat_text(text@, n as nat)),
            _ => None,
        }
    } else {
        None
    }
}

/// `fresh` holds the text that the step from `c`, given `event`, creates, if
/// it creates one.
pub open spec fn fresh_ok<'a, N>(c: Config<'a, N>, event: Event<N>, fresh: String) -> bool {
    match c.control {
        Control::Value(v) => concat_text(c, v) matches Some(t) ==> fresh@ == t,
        Control::Await => repeat_of(c, event) matches Some(t) ==> fresh@ == t,
        _ => true,
    }
}

/// Starting to run a program: its statements in order, stopping after the
/// first one during which an error is reported.
pub open spec fn started<'a, N>(c: Config<'a, N>, program: &'a Vec<Statement>) -> Config<'a, N> {
    if program@.len() == 0 {
        with_control(c, Control::Finished)
    } else {
        pushed(c, Frame::Sequence { statements: program, next: 1, scoped: false }, Control::Exec(&program@[0]))
    }
}

/// The interpreter: a machine that takes one step at a time and asks its
/// embedder for what it cannot do itself (printing and all work on numbers).
pub struct Interpreter<'a, N> {
    env: Environment<Value<N>>,
    stack: Vec<Frame<'a, N>>,
    control: Control<'a, N>,
}

impl<'a, N: Copy> Interpreter<'a, N> {
    pub closed spec fn config(&self) -> Config<'a, N> {
        Config { scopes: self.env.scopes(), stack: self.stack@, control: self.control }
    }

    pub closed spec fn wf(&self) -> bool {
        self.env.wf()
    }

    /// An interpreter with one empty scope and nothing to do.
    pub fn init() -> (r: Self)
        ensures
            r.wf(),
            r.config() == (Config::<'a, N> {
                scopes: seq![Map::<Seq<char>, Value<N>>::empty()],
                stack: Seq::empty(),
                control: Control::Finished,
            }),
    {
        Interpreter { env: Environment::init(), stack: Vec::new(), control: Control::Finished }
    }

    fn declare(&mut self, name: &'a Option<Token>, v: Value<N>)
        requires
            old(self).wf(),
        ensures
            final(self).wf(),
            final(self).config() == declared(old(self).config(), *name, v),
    {
        match name {
            Some(t) => self.env.define(t.lexeme.as_str(), v),
            None => {},
        }
    }

    fn exec(&mut self, stmt: &'a Statement) -> (r: Action<'a, N>)
        requires
            old(self).wf(),
        ensures
            final(self).wf(),
            (final(self).config(), r) == exec_step(old(self).config(), stmt),
    {
        match stmt {
            Statement::ExprStatement(e) => {
                self.stack.push(Frame::ExprDone);
                self.control = Control::Eval(e);
            },
            Statement::PrintStatement(e) => {
                self.stack.push(Frame::PrintArg);
                self.control = Control::Eval(e);
            },
            Statement::AssignStatement { token, expression } => match expression {
                Some(e) => {
                    self.stack.push(Frame::VarInit { token });
                    self.control = Control::Eval(e);
                },
                None => {
                    self.declare(token, Value::Nil);
                    self.control = Control::Finished;
                },
            },
            Statement::BlockStatement(v) => {
                if v.len() == 0 {
                    self.control = Control::Finished;
                } else {
                    self.env.push_scope();
                    self.stack.push(Frame::Sequence { statements: v, next: 1, scoped: true });
                    self.control = Control::Exec(&v[0]);
                }
            },
            Statement::IfStatement { condition, ifblock, elseblock } => {
                self.stack.push(Frame::IfCond { ifblock, elseblock });
                self.control = Control::Eval(condition);
            },
            Statement::WhileStatement { condition, statement } => {
                self.stack.push(Frame::WhileCond { condition, body: statement });
                self.control = Control::Eval(condition);
            },
        }
        Action::Continue
    }

    fn eval(&mut self, lox: &mut Lox, e: &'a Expr) -> (r: Action<'a, N>)
        requires
            old(self).wf(),
        ensures
            final(self).wf(),
            (final(self).config(), reports(final(lox)), r) == eval_step(old(self).config(), reports(old(lox)), e),
    {
        match e {
            Expr::Literal { value } => match value {
                None => {
                    self.control = Control::Value(None);
                },
                Some(l) => match l {
                    Literal::Num(text) => {
                        self.stack.push(Frame::NumberLiteral);
                        self.control = Control::Await;
                        return Action::Number(text);
                    },
                    Literal::Str(s) => {
                        self.control = Control::Value(Some(Value::Str(s.clone())));
                    },
                    Literal::Bool(b) => {
                        self.control = Control::Value(Some(Value::Bool(*b)));
                    },
                    Literal::Nil => {
                        self.control = Control::Value(Some(Value::Nil));
                    },
                },
            },
            Expr::Grouping { expression } => {
                self.control = Control::Eval(&**expression);
            },
            Expr::Unary { operator, expression } => {
                self.stack.push(Frame::Unary { operator });
                self.control = Control::Eval(&**expression);
            },
            Expr::Binary { left, operator, right } => {
                self.stack.push(Frame::BinaryLeft { operator, right });
                self.control = Control::Eval(&**left);
            },
            Expr::Variable { name } => {
                let found = match self.env.lookup(name.lexeme.as_str()) {
                    Some(v) => Some(v.clone()),
                    None => None,
                };
                match found {
                    Some(v) => {
                        self.control = Control::Value(Some(v));
                    },
                    None => {
                        let mut message = "Undefined variable '".to_owned();
                        message.append(name.lexeme.as_str());
                        message.append("'");
                        report(lox, ErrorKind::WithLocation { message, line: name.line as u32, col: None });
                        self.control = Control::Value(None);
                    },
                }
            },
            Expr::Assignment { name, value } => {
                self.stack.push(Frame::Assign { name });
                self.control = Control::Eval(&**value);
            },
            Expr::Logical { left, operator, right } => {
                if operator.token_type == TokenType::Or || operator.token_type == TokenType::And {
                    self.stack.push(Frame::LogicalLeft { operator, right });
                    self.control = Control::Eval(&**left);
                } else {
                    self.control = Control::Value(None);
                }
            },
        }
        Action::Continue
    }

    fn halt(&mut self) -> (r: Action<'a, N>)
        requires
            old(self).wf(),
        ensures
            final(self).wf(),
            final(self).config() == halted(old(self).config()),
            r == Action::<'a, N>::Halt,
    {
        self.stack = Vec::new();
        self.control = Control::Finished;
        Action::Halt
    }

    fn test(&mut self, v: Value<N>) -> (r: Action<'a, N>)
        requires
            old(self).wf(),
        ensures
            final(self).wf(),
            (final(self).config(), r) == tested(old(self).config(), v),
    {
        match v {
            Value::Num(n) => {
                self.stack.push(Frame::Truth);
                self.control = Control::Await;
                Action::Truthy(n)
            },
            Value::Str(s) => {
                self.control = Control::Truth(!s.as_str().is_empty());
                Action::Continue
            },
            Value::Bool(b) => {
                self.control = Control::Truth(b);
                Action::Continue
            },
            Value::Nil => {
                self.control = Control::Truth(false);
                Action::Continue
            },
        }
    }

    fn binary(&mut self, lox: &mut Lox, operator: &'a Token, left: Value<N>, right: Value<N>) -> (r: (Action<'a, N>, Ghost<String>))
        requires
            old(self).wf(),
        ensures
            final(self).wf(),
            concat_of(operator.token_type, left, right) matches Some(t) ==> r.1@@ == t,
            (final(self).config(), reports(final(lox)), r.0)
                == binary_step(old(self).config(), reports(old(lox)), operator, left, right, r.1@),
    {
        let op = operator.token_type;
        match binary_action(op, kind(&left), kind(&right)) {
            BinaryAction::Numbers => match (left, right) {
                (Value::Num(a), Value::Num(b)) => {
                    self.stack.push(Frame::Arith { operator });
                    self.control = Control::Await;
                    (Action::Arith { op, left: a, right: b }, Ghost(arbitrary()))
                },
                _ => (self.halt(), Ghost(arbitrary())),
            },
            BinaryAction::Concat => match (left, right) {
                (Value::Str(a), Value::Str(b)) => {
                    let mut text = a;
                    text.append(b.as_str());
                    let ghost fresh = text;
                    self.control = Control::Value(Some(Value::Str(text)));
                    (Action::Continue, Ghost(fresh))
                },
                _ => (self.halt(), Ghost(arbitrary())),
            },
            BinaryAction::Repeat { string_left } => match (left, right) {
                (Value::Str(text), Value::Num(times)) => {
                    self.stack.push(Frame::Repeat { operator, text });
                    self.control = Control::Await;
                    (Action::Count(times), Ghost(arbitrary()))
                },
                (Value::Num(times), Value::Str(text)) => {
                    self.stack.push(Frame::Repeat { operator, text });
                    self.control = Control::Await;
                    (Action::Count(times), Ghost(arbitrary()))
                },
                _ => (self.halt(), Ghost(arbitrary())),
            },
            BinaryAction::Strings => match (left, right) {
                (Value::Str(a), Value::Str(b)) => {
                    let result = compare_strings(op, &a, &b);
                    self.control = Control::Value(Some(Value::Bool(result)));
                    (Action::Continue, Ghost(arbitrary()))
                },
                _ => (self.halt(), Ghost(arbitrary())),
            },
            BinaryAction::Constant(b) => {
                self.control = Control::Value(Some(Value::Bool(b)));
                (Action::Continue, Ghost(arbitrary()))
            },
            BinaryAction::Error(e) => {
                if operator.line <= u32::MAX as usize {
                    report(lox, ErrorKind::WithLocation { message: e.message(), line: operator.line as u32, col: None });
                    self.control = Control::Value(None);
                    (Action::Continue, Ghost(arbitrary()))
                } else {
                    (self.halt(), Ghost(arbitrary()))
                }
            },
            BinaryAction::Nothing => {
                self.control = Control::Value(None);
                (Action::Continue, Ghost(arbitrary()))
            },
        }
    }

    fn on_value(&mut self, lox: &mut Lox, v: Option<Value<N>>) -> (r: (Action<'a, N>, Ghost<String>))
        requires
            old(self).wf(),
        ensures
            final(self).wf(),
            concat_text(old(self).config(), v) matches Some(t) ==> r.1@@ == t,
            (final(self).config(), reports(final(lox)), r.0)
                == value_step(old(self).config(), reports(old(lox)), v, r.1@),
    {
        let ghost c = self.config();
        let top = self.stack.pop();
        let f = match top {
            Some(f) => f,
            None => {
                return (self.halt(), Ghost(arbitrary()));
            },
        };
        assert(f == c.stack.last() && self.stack@ == c.stack.drop_last());
        let none = Ghost(arbitrary());
        match f {
            Frame::ExprDone => {
                self.control = Control::Finished;
                (Action::Continue, none)
            },
            Frame::PrintArg => {
                self.control = Control::Finished;
                match v {
                    Some(x) => (Action::Print(x), none),
                    None => (Action::Continue, none),
                }
            },
            Frame::VarInit { token } => {
                self.control = Control::Finished;
                let x = match v {
                    Some(x) => x,
                    None => Value::Nil,
                };
                self.declare(token, x);
                (Action::Continue, none)
            },
            Frame::IfCond { ifblock, elseblock } => match v {
                Some(x) => {
                    self.stack.push(Frame::IfTest { ifblock, elseblock });
                    self.control = Control::Finished;
                    (self.test(x), none)
                },
                None => {
                    self.control = Control::Finished;
                    (Action::Continue, none)
                },
            },
            Frame::WhileCond { condition, body } => match v {
                Some(x) => {
                    self.stack.push(Frame::WhileTest { condition, body });
                    self.control = Control::Finished;
                    (self.test(x), none)
                },
                None => {
                    self.control = Control::Finished;
                    (Action::Continue, none)
                },
            },
            Frame::Unary { operator } => match v {
                Some(x) => {
                    if operator.token_type == TokenType::Minus {
                        match x {
                            Value::Num(n) => {
                                self.stack.push(Frame::Negate);
                                self.control = Control::Await;
                                (Action::Negate(n), none)
                            },
                            _ => {
                                if operator.line <= u32::MAX as usize {
                                    let message = "Invalid operand for unary minus".to_owned();
                                    report(lox, ErrorKind::WithLocation { message, line: operator.line as u32, col: None });
                                    self.control = Control::Value(None);
                                    (Action::Continue, none)
                                } else {
                                    (self.halt(), none)
                                }
                            },
                        }
                    } else if operator.token_type == TokenType::Bang {
                        self.stack.push(Frame::Not);
                        self.control = Control::Finished;
                        (self.test(x), none)
                    } else {
                        (self.halt(), none)
                    }
                },
                None => {
                    self.control = Control::Value(None);
                    (Action::Continue, none)
                },
            },
            Frame::BinaryLeft { operator, right } => match v {
                Some(x) => {
                    self.stack.push(Frame::BinaryRight { operator, left: x });
                    self.control = Control::Eval(&**right);
                    (Action::Continue, none)
                },
                None => {
                    self.control = Control::Value(None);
                    (Action::Continue, none)
                },
            },
            Frame::BinaryRight { operator, left } => match v {
                Some(x) => {
                    self.control = Control::Finished;
                    self.binary(lox, operator, left, x)
                },
                None => {
                    self.control = Control::Value(None);
                    (Action::Continue, none)
                },
            },
            Frame::Assign { name } => match v {
                Some(x) => {
                    let stored = x.clone();
                    match self.env.assign(name.lexeme.as_str(), stored) {
                        Some(()) => {
                            self.control = Control::Value(Some(x));
                        },
                        None => {
                            let message = "variable does not exist".to_owned();
                            report(lox, ErrorKind::WithLocation { message, line: name.line as u32, col: None });
                            self.control = Control::Value(None);
                        },
                    }
                    (Action::Continue, none)
                },
                None => {
                    self.control = Control::Value(None);
                    (Action::Continue, none)
                },
            },
            Frame::LogicalLeft { operator, right } => match v {
                Some(x) => {
                    if operator.token_type == TokenType::Or || operator.token_type == TokenType::And {
                        let left = x.clone();
                        self.stack.push(Frame::LogicalTest { operator, left, right });
                        self.control = Control::Finished;
                        (self.test(x), none)
                    } else {
                        self.control = Control::Value(None);
                        (Action::Continue, none)
                    }
                },
                None => {
                    self.control = Control::Value(None);
                    (Action::Continue, none)
                },
            },
            _ => (self.halt(), none),
        }
    }

    fn on_truth(&mut self, lox: &Lox, b: bool) -> (r: Action<'a, N>)
        requires
            old(self).wf(),
        ensures
            final(self).wf(),
            (final(self).config(), reports(lox), r) == truth_step(old(self).config(), reports(lox), b),
    {
        let ghost c = self.config();
        let f = match self.stack.pop() {
            Some(f) => f,
            None => {
                return self.halt();
            },
        };
        assert(f == c.stack.last() && self.stack@ == c.stack.drop_last());
        match f {
            Frame::IfTest { ifblock, elseblock } => {
                if b {
                    self.control = Control::Exec(&**ifblock);
                } else {
                    match elseblock {
                        Some(e) => {
                            self.control = Control::Exec(&**e);
                        },
                        None => {
                            self.control = Control::Finished;
                        },
                    }
                }
            },
            Frame::WhileTest { condition, body } => {
                if b {
                    self.stack.push(Frame::WhileBody { condition, body });
                    self.control = Control::Exec(&**body);
                } else {
                    self.control = Control::Finished;
                }
            },
            Frame::Not => {
                self.control = Control::Value(Some(Value::Bool(!b)));
            },
            Frame::LogicalTest { operator, left, right } => {
                if b == (operator.token_type == TokenType::Or) {
                    self.control = Control::Value(Some(left));
                } else {
                    self.control = Control::Eval(&**right);
                }
            },
            _ => {
                return self.halt();
            },
        }
        Action::Continue
    }

    fn on_finished(&mut self, lox: &Lox) -> (r: Action<'a, N>)
        requires
            old(self).wf(),
        ensures
            final(self).wf(),
            (final(self).config(), reports(lox), r) == finished_step(old(self).config(), reports(lox)),
    {
        let ghost c = self.config();
        let f = match self.stack.pop() {
            Some(f) => f,
            None => {
                return Action::Done;
            },
        };
        assert(f == c.stack.last() && self.stack@ == c.stack.drop_last());
        match f {
            Frame::Sequence { statements, next, scoped } => {
                if lox.had_error || next >= statements.len() {
                    if scoped {
                        self.env.pop_scope();
                    }
                    self.control = Control::Finished;
                } else {
                    self.stack.push(Frame::Sequence { statements, next: next + 1, scoped });
                    self.control = Control::Exec(&statements[next]);
                }
                Action::Continue
            },
            Frame::WhileBody { condition, body } => {
                self.stack.push(Frame::WhileCond { condition, body });
                self.control = Control::Eval(condition);
                Action::Continue
            },
            _ => self.halt(),
        }
    }

    fn on_event(&mut self, lox: &mut Lox, event: Event<N>) -> (r: (Action<'a, N>, Ghost<String>))
        requires
            old(self).wf(),
        ensures
            final(self).wf(),
            repeat_of(old(self).config(), event) matches Some(t) ==> r.1@@ == t,
            (final(self).config(), reports(final(lox)), r.0)
                == await_step(old(self).config(), reports(old(lox)), event, r.1@),
    {
        let ghost c = self.config();
        let f = match self.stack.pop() {
            Some(f) => f,
            None => {
                return (self.halt(), Ghost(arbitrary()));
            },
        };
        assert(f == c.stack.last() && self.stack@ == c.stack.drop_last());
        match (f, event) {
            (Frame::NumberLiteral, Event::Number(n)) => {
                self.control = Control::Value(Some(Value::Num(n)));
            },
            (Frame::Negate, Event::Number(n)) => {
                self.control = Control::Value(Some(Value::Num(n)));
            },
            (Frame::Truth, Event::Truth(b)) => {
                self.control = Control::Truth(b);
            },
            (Frame::Arith { operator }, Event::Number(n)) => {
                self.control = Control::Value(Some(Value::Num(n)));
            },
            (Frame::Arith { operator }, Event::Truth(b)) => {
                self.control = Control::Value(Some(Value::Bool(b)));
            },
            (Frame::Arith { operator }, Event::DivisionByZero) => {
                if operator.line <= u32::MAX as usize {
                    let message = "Attempted division by zero".to_owned();
                    report(lox, ErrorKind::WithLocation { message, line: operator.line as u32, col: None });
                    self.control = Control::Value(None);
                } else {
                    return (self.halt(), Ghost(arbitrary()));
                }
            },
            (Frame::Repeat { operator, text }, Event::Count(n)) => {
                let repeated = repeat(&text, n);
                let ghost fresh = repeated;
                self.control = Control::Value(Some(Value::Str(repeated)));
                return (Action::Continue, Ghost(fresh));
            },
            (Frame::Repeat { operator, text }, Event::BadRepeat(shown)) => {
                if operator.line <= u32::MAX as usize {
                    let mut message = "Can't multiply a string with ".to_owned();
                    message.append(shown.as_str());
                    report(lox, ErrorKind::WithLocation { message, line: operator.line as u32, col: None });
                    self.control = Control::Value(None);
                } else {
                    return (self.halt(), Ghost(arbitrary()));
                }
            },
            _ => {
                return (self.halt(), Ghost(arbitrary()));
            },
        }
        (Action::Continue, Ghost(arbitrary()))
    }

    /// Sets the interpreter to run `program`: its statements in order, up to
    /// the end of the first during which an error is reported.
    pub fn interpret(&mut self, program: &'a Vec<Statement>)
        requires
            old(self).wf(),
        ensures
            final(self).wf(),
            final(self).config() == started(old(self).config(), program),
    {
        if program.len() == 0 {
            self.control = Control::Finished;
        } else {
            self.stack.push(Frame::Sequence { statements: program, next: 1, scoped: false });
            self.control = Control::Exec(&program[0]);
        }
    }

    /// Sets the interpreter to execute `stmt` next.
    pub fn execute(&mut self, stmt: &'a Statement)
        requires
            old(self).wf(),
        ensures
            final(self).wf(),
            final(self).config() == with_control(old(self).config(), Control::Exec(stmt)),
    {
        self.control = Control::Exec(stmt);
    }

    /// Takes one step.  `event` is the embedder's answer to the last action,
    /// where one is awaited; the action returned says what the embedder is
    /// to do before the next step.
    pub fn step(&mut self, lox: &mut Lox, event: Event<N>) -> (r: Action<'a, N>)
        requires
            old(self).wf(),
        ensures
            final(self).wf(),
            exists|fresh: String|
                fresh_ok(old(self).config(), event, fresh)
                && (final(self).config(), reports(final(lox)), r) == #[trigger] next(old(self).config(), reports(old(lox)), event, fresh),
    {
        let ghost c = self.config();
        let ghost rep = reports(lox);
        match &self.control {
            Control::Exec(stmt) => {
                let stmt: &'a Statement = *stmt;
                let a = self.exec(stmt);
                assert(next(c, rep, event, arbitrary()) == (self.config(), reports(lox), a));
                a
            },
            Control::Eval(e) => {
                let e: &'a Expr = *e;
                let a = self.eval(lox, e);
                assert(next(c, rep, event, arbitrary()) == (self.config(), reports(lox), a));
                a
            },
            Control::Value(v) => {
                let v = match v {
                    Some(x) => Some(x.clone()),
                    None => None,
                };
                let (a, fresh) = self.on_value(lox, v);
                assert(fresh_ok(c, event, fresh@));
                assert(next(c, rep, event, fresh@) == (self.config(), reports(lox), a));
                a
            },
            Control::Truth(b) => {
                let b = *b;
                let a = self.on_truth(lox, b);
                assert(next(c, rep, event, arbitrary()) == (self.config(), reports(lox), a));
                a
            },
            Control::Finished => {
                let a = self.on_finished(lox);
                assert(next(c, rep, event, arbitrary()) == (self.config(), reports(lox), a));
                a
            },
            Control::Await => {
                let ghost ev = event;
                let (a, fresh) = self.on_event(lox, event);
                assert(fresh_ok(c, ev, fresh@));
                assert(next(c, rep, ev, fresh@) == (self.config(), reports(lox), a));
                a
            },
        }
    }
}

/// The kind of a value.
fn kind<N>(v: &Value<N>) -> (r: Kind)
    ensures
        r == kind_of(*v),
{
    match v {
        Value::Str(_) => Kind::Str,
        Value::Num(_) => Kind::Num,
        Value::Bool(_) => Kind::Bool,
        Value::Nil => Kind::Nil,
    }
}

/// `text` repeated `n` times.
fn repeat(text: &String, n: usize) -> (r: String)
    ensures
        r@ == repeat_text(text@, n as nat),
{
    let mut s = String::new();
    let mut i: usize = 0;
    while i < n
        invariant
            i <= n,
            s@ == repeat_text(text@, i as nat),
        decreases n - i,
    {
        s.append(text.as_str());
        i = i + 1;
    }
    s
}

/// Whether `a` comes before `b` in the order of `str`.
fn text_less(a: &str, b: &str) -> (r: bool)
    ensures
        r == bytes_less(a.spec_bytes(), b.spec_bytes()),
{
    let x = a.as_bytes();
    let y = b.as_bytes();
    let mut i: usize = 0;
    assert(x@.skip(0) =~= x@);
    assert(y@.skip(0) =~= y@);
    while i < x.len() && i < y.len()
        invariant
            i <= x@.len(),
            i <= y@.len(),
            x@ == a.spec_bytes(),
            y@ == b.spec_bytes(),
            bytes_less(x@, y@) == bytes_less(x@.skip(i as int), y@.skip(i as int)),
        decreases x@.len() - i,
    {
        if x[i] != y[i] {
            return x[i] < y[i];
        }
        assert(x@.skip(i as int).drop_first() =~= x@.skip(i + 1));
        assert(y@.skip(i as int).drop_first() =~= y@.skip(i + 1));
        i = i + 1;
    }
    i < y.len()
}

/// `a op b` for two strings, where `op` is a comparison or (in)equality.
fn compare_strings(op: TokenType, a: &String, b: &String) -> (r: bool)
    ensures
        r == compare_texts(op, a@, b@),
{
    match op {
        TokenType::Greater => text_less(b.as_str(), a.as_str()),
        TokenType::GreaterEqual => !text_less(a.as_str(), b.as_str()),
        TokenType::Less => text_less(a.as_str(), b.as_str()),
        TokenType::LessEqual => !text_less(b.as_str(), a.as_str()),
        TokenType::EqualEqual => *a == *b,
        _ => *a != *b,
    }
}

} // verus!

verus! {

// ---------------------------------------------------------------------------
// Laws of the interpreter
// ---------------------------------------------------------------------------

/// The scopes a frame holds open: one for a block's statements.
pub open spec fn frame_scopes<'a, N>(f: Frame<'a, N>) -> nat {
    match f {
        Frame::Sequence { scoped, .. } => if scoped { 1 } else { 0 },
        _ => 0,
    }
}

/// The scopes the frames of a stack hold open.
pub open spec fn open_scopes<'a, N>(stack: Seq<Frame<'a, N>>) -> nat
    decreases stack.len(),
{
    if stack.len() == 0 {
        0
    } else {
        open_scopes(stack.drop_last()) + frame_scopes(stack.last())
    }
}

/// There is one scope for each block being run, and the outermost one.
pub open spec fn balanced<'a, N>(c: Config<'a, N>) -> bool {
    c.scopes.len() == open_scopes(c.stack) + 1
}

pub broadcast proof fn lemma_open_scopes_push<'a, N>(s: Seq<Frame<'a, N>>, f: Frame<'a, N>)
    ensures
        #[trigger] open_scopes(s.push(f)) == open_scopes(s) + frame_scopes(f),
{
    assert(s.push(f).drop_last() =~= s);
}

/// Every step that does not halt keeps one scope for each block being run:
/// a block's scope is opened when the block starts and dropped when it ends.
pub proof fn law_scopes_balanced<'a, N>(c: Config<'a, N>, r: Reports, event: Event<N>, fresh: String)
    requires
        balanced(c),
    ensures
        next(c, r, event, fresh).2 != Action::<'a, N>::Halt ==> balanced(next(c, r, event, fresh).0),
{
    broadcast use lemma_open_scopes_push;
    if c.stack.len() > 0 {
        assert(c.stack.drop_last().push(c.stack.last()) =~= c.stack);
        if let (Frame::Assign { name }, Control::Value(Some(x))) = (c.stack.last(), c.control) {
            crate::environment::lemma_assign_in_len(c.scopes, name.lexeme@, x);
        }
    }
}

/// The interpreter only adds errors: those reported before a step are kept,
/// and the error flag, once raised, stays raised.
pub proof fn law_reports_grow<'a, N>(c: Config<'a, N>, r: Reports, event: Event<N>, fresh: String)
    ensures
        r.errors.len() <= next(c, r, event, fresh).1.errors.len(),
        next(c, r, event, fresh).1.errors.subrange(0, r.errors.len() as int) == r.errors,
        r.had_error ==> next(c, r, event, fresh).1.had_error,
{
    let r2 = next(c, r, event, fresh).1;
    if r2 != r {
        assert(r2.errors.subrange(0, r.errors.len() as int) =~= r.errors);
    }
}

/// Once the program is done, every step leaves everything as it is and
/// reports that it is done.
pub proof fn law_done_is_final<'a, N>(c: Config<'a, N>, r: Reports, event: Event<N>, fresh: String, later: Event<N>, fresh2: String)
    requires
        next(c, r, event, fresh).2 == Action::<'a, N>::Done,
    ensures
        next(c, r, event, fresh).0 == c,
        next(c, r, event, fresh).1 == r,
        next(c, r, later, fresh2) == (c, r, Action::<'a, N>::Done),
{
}

/// An assignment to a bound name stores the value in the innermost scope
/// that binds it, and the assignment's own value is the value assigned.
pub proof fn law_assignment_value<'a, N>(c: Config<'a, N>, r: Reports, event: Event<N>, fresh: String, name: &'a Token, x: Value<N>)
    requires
        c.control == Control::<'a, N>::Value(Some(x)),
        c.stack.len() > 0,
        c.stack.last() == (Frame::Assign::<'a, N> { name }),
        (lookup_in(c.scopes, name.lexeme@) is Some),
    ensures
        next(c, r, event, fresh).0.control == Control::<'a, N>::Value(Some(x)),
        lookup_in(next(c, r, event, fresh).0.scopes, name.lexeme@) == Some(x),
        next(c, r, event, fresh).1 == r,
{
    crate::environment::law_assign_iff_bound(c.scopes, name.lexeme@, x);
}

/// Reading an unbound name reports `Undefined variable` at the name's line,
/// and the read fails.
pub proof fn law_undefined_variable<'a, N>(c: Config<'a, N>, r: Reports, event: Event<N>, fresh: String, e: &'a Expr)
    requires
        c.control == Control::<'a, N>::Eval(e),
        (e matches Expr::Variable { name } && lookup_in(c.scopes, name.lexeme@) is None),
    ensures
        next(c, r, event, fresh).0.control == Control::<'a, N>::Value(None),
        next(c, r, event, fresh).1 == reported(r, at_line(undefined_message(e->Variable_name.lexeme@), e->Variable_name.line as u32)),
{
}

/// A value's truth: `nil`, `false` and the empty string are false, `true`
/// and every other string are true, and for a number the embedder is asked
/// (`Truthy`, whose answer the step hands on unchanged).
pub proof fn law_truth<'a, N>(c: Config<'a, N>, v: Value<N>)
    ensures
        v is Num ==> tested(c, v) == (pushed(c, Frame::Truth, Control::Await), Action::<'a, N>::Truthy(v->Num_0)),
        !(v is Num) ==> tested(c, v) == (
            with_control(c, Control::Truth(!(v is Nil || v == Value::<N>::Bool(false) || (v is Str && v->Str_0@.len() == 0)))),
            Action::<'a, N>::Continue,
        ),
        c.stack.len() > 0 && c.stack.last() == Frame::<'a, N>::Truth && c.control == Control::<'a, N>::Await
            ==> forall|b: bool, r: Reports, fresh: String|
                #[trigger] next(c, r, Event::Truth(b), fresh) == (popped(c, Control::Truth(b)), r, Action::<'a, N>::Continue),
{
}

/// The statements of a program or block run in order: when one is done, the
/// next one starts unless an error has been reported, and otherwise the
/// sequence ends, dropping the block's scope.
pub proof fn law_sequence_step<'a, N>(c: Config<'a, N>, r: Reports, event: Event<N>, fresh: String, statements: &'a Vec<Statement>, index: usize, scoped: bool)
    requires
        c.control == Control::<'a, N>::Finished,
        c.stack.len() > 0,
        c.stack.last() == (Frame::Sequence::<'a, N> { statements, next: index, scoped }),
    ensures
        !r.had_error && index < statements@.len() ==> next(c, r, event, fresh) == (
            replaced(c, Frame::Sequence { statements, next: (index + 1) as usize, scoped }, Control::Exec(&statements@[index as int])),
            r,
            Action::<'a, N>::Continue,
        ),
        r.had_error || index >= statements@.len() ==> {
            &&& next(c, r, event, fresh).0.stack == c.stack.drop_last()
            &&& next(c, r, event, fresh).0.control == Control::<'a, N>::Finished
            &&& next(c, r, event, fresh).0.scopes == if scoped && c.scopes.len() > 1 { c.scopes.drop_first() } else { c.scopes }
            &&& next(c, r, event, fresh).1 == r
        },
{
}

/// A step works on the frame on top of the stack alone: every frame below it
/// stays as it is (unless the run halts).  So the statements of a program or
/// block advance only by `law_sequence_step`, once the statement before is
/// done.
pub proof fn law_lower_frames_kept<'a, N>(c: Config<'a, N>, r: Reports, event: Event<N>, fresh: String)
    requires
        c.stack.len() > 0,
        next(c, r, event, fresh).2 != Action::<'a, N>::Halt,
    ensures
        next(c, r, event, fresh).0.stack.len() >= c.stack.len() - 1,
        next(c, r, event, fresh).0.stack.subrange(0, c.stack.len() - 1) == c.stack.subrange(0, c.stack.len() - 1),
{
    let n = c.stack.len() - 1;
    let below = c.stack.subrange(0, n);
    assert(c.stack.drop_last() =~= below);
    assert forall|f: Frame<'a, N>| #[trigger] c.stack.push(f).subrange(0, n) == below by {
        assert(c.stack.push(f).subrange(0, n) =~= below);
    }
    assert forall|f: Frame<'a, N>| #[trigger] c.stack.drop_last().push(f).subrange(0, n) == below by {
        assert(c.stack.drop_last().push(f).subrange(0, n) =~= below);
    }
    assert forall|f: Frame<'a, N>, g: Frame<'a, N>| #[trigger] c.stack.drop_last().push(f).push(g).subrange(0, n) == below by {
        assert(c.stack.drop_last().push(f).push(g).subrange(0, n) =~= below);
    }
    assert(c.stack.subrange(0, n) == below);
    assert(c.stack.drop_last().subrange(0, n) =~= below);
}

/// A binary operator applied to two values either gives a value with
/// nothing reported, or asks the embedder, or gives no value and reports
/// exactly one error: no value exactly when an error is reported.
pub proof fn law_binary_value_or_error<'a, N>(c: Config<'a, N>, r: Reports, event: Event<N>, fresh: String, x: Value<N>, operator: &'a Token, left: Value<N>)
    requires
        c.control == Control::<'a, N>::Value(Some(x)),
        c.stack.len() > 0,
        c.stack.last() == (Frame::BinaryRight::<'a, N> { operator, left }),
        is_binary_op(operator.token_type),
        operator.line <= u32::MAX,
    ensures
        next(c, r, event, fresh).0.control is Value || next(c, r, event, fresh).0.control is Await,
        next(c, r, event, fresh).0.control == Control::<'a, N>::Value(None) <==> next(c, r, event, fresh).1 != r,
        next(c, r, event, fresh).1 != r ==> next(c, r, event, fresh).1.had_error
            && next(c, r, event, fresh).1.errors.len() == r.errors.len() + 1,
{
    assert forall|e: ErrorView| #[trigger] reported(r, e) != r by {
        assert(reported(r, e).errors.len() == r.errors.len() + 1);
    }
}

/// The embedder's answer to a request for arithmetic or repetition gives a
/// value with nothing reported, or, for division by zero or a count that is
/// not a whole number, no value and exactly one error.
pub proof fn law_answer_value_or_error<'a, N>(c: Config<'a, N>, r: Reports, event: Event<N>, fresh: String)
    requires
        c.control == Control::<'a, N>::Await,
        c.stack.len() > 0,
        c.stack.last() is Arith || c.stack.last() is Repeat,
        answers(c, event),
        line_fits(c),
    ensures
        next(c, r, event, fresh).0.control is Value,
        next(c, r, event, fresh).0.control == Control::<'a, N>::Value(None) <==> next(c, r, event, fresh).1 != r,
        next(c, r, event, fresh).1 != r ==> next(c, r, event, fresh).1.had_error
            && next(c, r, event, fresh).1.errors.len() == r.errors.len() + 1,
{
    assert forall|e: ErrorView| #[trigger] reported(r, e) != r by {
        assert(reported(r, e).errors.len() == r.errors.len() + 1);
    }
}

/// Unary minus on a number asks the embedder for its negation, and the
/// expression's value is the embedder's answer: the operator's frame is
/// gone and nothing else changes.
pub proof fn law_unary_minus_negates<'a, N>(c: Config<'a, N>, r: Reports, event: Event<N>, fresh: String, operator: &'a Token, n: N)
    requires
        c.control == Control::<'a, N>::Value(Some(Value::Num(n))),
        c.stack.len() > 0,
        c.stack.last() == (Frame::Unary::<'a, N> { operator }),
        operator.token_type == TokenType::Minus,
    ensures
        next(c, r, event, fresh).2 == Action::<'a, N>::Negate(n),
        next(c, r, event, fresh).1 == r,
        forall|m: N, r2: Reports, f2: String|
            #[trigger] next(next(c, r, event, fresh).0, r2, Event::Number(m), f2) == (
                Config { scopes: c.scopes, stack: c.stack.drop_last(), control: Control::<'a, N>::Value(Some(Value::Num(m))) },
                r2,
                Action::<'a, N>::Continue,
            ),
{
    assert(c.stack.drop_last().push(Frame::Negate).drop_last() =~= c.stack.drop_last());
}

/// `!` gives the negation of its operand's truth: `nil` and `false` give
/// `true`, the empty string `true`, other strings and `true` give `false`;
/// for a number the embedder is asked its truth and the result is its
/// negation.
pub proof fn law_bang_negates<'a, N>(c: Config<'a, N>, r: Reports, event: Event<N>, fresh: String, operator: &'a Token, v: Value<N>)
    requires
        c.control == Control::<'a, N>::Value(Some(v)),
        c.stack.len() > 0,
        c.stack.last() == (Frame::Unary::<'a, N> { operator }),
        operator.token_type == TokenType::Bang,
    ensures
        ({
            let (c1, r1, a1) = next(c, r, event, fresh);
            &&& r1 == r
            &&& match v {
                Value::Num(n) => a1 == Action::<'a, N>::Truthy(n) && forall|x: bool, r2: Reports, f2: String, e3: Event<N>, f3: String|
                    #[trigger] next(next(c1, r2, Event::Truth(x), f2).0, r2, e3, f3) == (
                        Config { scopes: c.scopes, stack: c.stack.drop_last(), control: Control::<'a, N>::Value(Some(Value::Bool(!x))) },
                        r2,
                        Action::<'a, N>::Continue,
                    ),
                _ => a1 == Action::<'a, N>::Continue && forall|e2: Event<N>, f2: String|
                    #[trigger] next(c1, r1, e2, f2) == (
                        Config {
                            scopes: c.scopes,
                            stack: c.stack.drop_last(),
                            control: Control::<'a, N>::Value(Some(Value::Bool(match v {
                                Value::Str(t) => t@.len() == 0,
                                Value::Bool(b) => !b,
                                _ => true,
                            }))),
                        },
                        r,
                        Action::<'a, N>::Continue,
                    ),
            }
        }),
{
    let rest = c.stack.drop_last();
    assert(rest.push(Frame::Not).drop_last() =~= rest);
    assert(rest.push(Frame::Not).push(Frame::Truth).drop_last() =~= rest.push(Frame::Not));
}

/// A binary operator on two numbers asks the embedder to apply that same
/// operator to them, in source order, and the expression's value is the
/// embedder's answer (a number, or a truth value for a comparison); a
/// division by zero reports `Attempted division by zero` and gives no value.
pub proof fn law_numbers_go_to_the_embedder<'a, N>(c: Config<'a, N>, r: Reports, event: Event<N>, fresh: String, operator: &'a Token, a: N, b: N)
    requires
        c.control == Control::<'a, N>::Value(Some(Value::Num(b))),
        c.stack.len() > 0,
        c.stack.last() == (Frame::BinaryRight::<'a, N> { operator, left: Value::Num(a) }),
        binary_operator(operator.token_type),
    ensures
        next(c, r, event, fresh).2 == (Action::Arith::<'a, N> { op: operator.token_type, left: a, right: b }),
        next(c, r, event, fresh).1 == r,
        forall|m: N, r2: Reports, f2: String|
            #[trigger] next(next(c, r, event, fresh).0, r2, Event::Number(m), f2) == (
                Config { scopes: c.scopes, stack: c.stack.drop_last(), control: Control::<'a, N>::Value(Some(Value::Num(m))) },
                r2,
                Action::<'a, N>::Continue,
            ),
        forall|x: bool, r2: Reports, f2: String|
            #[trigger] next(next(c, r, event, fresh).0, r2, Event::Truth(x), f2) == (
                Config { scopes: c.scopes, stack: c.stack.drop_last(), control: Control::<'a, N>::Value(Some(Value::Bool(x))) },
                r2,
                Action::<'a, N>::Continue,
            ),
        operator.line <= u32::MAX ==> forall|r2: Reports, f2: String|
            #[trigger] next(next(c, r, event, fresh).0, r2, Event::DivisionByZero, f2) == (
                Config { scopes: c.scopes, stack: c.stack.drop_last(), control: Control::<'a, N>::Value(None) },
                Reports {
                    had_error: true,
                    errors: r2.errors.push(ErrorView::WithLocation {
                        message: "Attempted division by zero"@,
                        line: operator.line as u32,
                        col: None,
                    }),
                },
                Action::<'a, N>::Continue,
            ),
{
    crate::operators::law_binary_rule(operator.token_type, Kind::Num, Kind::Num);
    assert(c.stack.drop_last().push(Frame::Arith { operator }).drop_last() =~= c.stack.drop_last());
}

/// `+` on two strings gives the string of the left one's text followed by
/// the right one's.
pub proof fn law_plus_joins_strings<'a, N>(c: Config<'a, N>, r: Reports, event: Event<N>, fresh: String, operator: &'a Token, a: String, b: String)
    requires
        c.control == Control::<'a, N>::Value(Some(Value::Str(b))),
        c.stack.len() > 0,
        c.stack.last() == (Frame::BinaryRight::<'a, N> { operator, left: Value::Str(a) }),
        operator.token_type == TokenType::Plus,
        fresh_ok(c, event, fresh),
    ensures
        fresh@ == a@ + b@,
        next(c, r, event, fresh) == (
            Config { scopes: c.scopes, stack: c.stack.drop_last(), control: Control::<'a, N>::Value(Some(Value::Str(fresh))) },
            r,
            Action::<'a, N>::Continue,
        ),
{
}

/// Reading a bound name gives the value of its innermost binding.
pub proof fn law_variable_read<'a, N>(c: Config<'a, N>, r: Reports, event: Event<N>, fresh: String, e: &'a Expr, v: Value<N>)
    requires
        c.control == Control::<'a, N>::Eval(e),
        (e matches Expr::Variable { name } && lookup_in(c.scopes, name.lexeme@) == Some(v)),
    ensures
        next(c, r, event, fresh) == (
            Config { scopes: c.scopes, stack: c.stack, control: Control::<'a, N>::Value(Some(v)) },
            r,
            Action::<'a, N>::Continue,
        ),
{
}

/// A print statement whose expression has a value asks the embedder to
/// print that value, and the statement is done.
pub proof fn law_print_prints<'a, N>(c: Config<'a, N>, r: Reports, event: Event<N>, fresh: String, v: Value<N>)
    requires
        c.control == Control::<'a, N>::Value(Some(v)),
        c.stack.len() > 0,
        c.stack.last() == Frame::<'a, N>::PrintArg,
    ensures
        next(c, r, event, fresh) == (
            Config { scopes: c.scopes, stack: c.stack.drop_last(), control: Control::<'a, N>::Finished },
            r,
            Action::<'a, N>::Print(v),
        ),
{
}

/// A variable declaration binds its name in the innermost scope: to the
/// initializer's value, or to `nil` where it has none or its evaluation
/// failed.
pub proof fn law_var_declares<'a, N>(c: Config<'a, N>, r: Reports, event: Event<N>, fresh: String, token: &'a Option<Token>, v: Option<Value<N>>)
    requires
        c.scopes.len() > 0,
        c.control == Control::<'a, N>::Value(v),
        c.stack.len() > 0,
        c.stack.last() == (Frame::VarInit::<'a, N> { token }),
    ensures
        next(c, r, event, fresh).0.stack == c.stack.drop_last(),
        next(c, r, event, fresh).0.control == Control::<'a, N>::Finished,
        next(c, r, event, fresh).1 == r,
        token matches Some(t) ==> lookup_in(next(c, r, event, fresh).0.scopes, t.lexeme@) == Some(match v {
            Some(x) => x,
            None => Value::<N>::Nil,
        }),
        token matches Some(t) ==> forall|other: Seq<char>| other != t.lexeme@
            ==> #[trigger] lookup_in(next(c, r, event, fresh).0.scopes, other) == lookup_in(c.scopes, other),
        token is None ==> next(c, r, event, fresh).0.scopes == c.scopes,
{
    if let Some(t) = token {
        let x = match v {
            Some(x) => x,
            None => Value::<N>::Nil,
        };
        crate::environment::law_lookup_after_define(c.scopes, t.lexeme@, x);
        assert forall|other: Seq<char>| other != t.lexeme@
            implies #[trigger] lookup_in(next(c, r, event, fresh).0.scopes, other) == lookup_in(c.scopes, other) by {
            crate::environment::law_define_keeps_others(c.scopes, t.lexeme@, other, x);
        }
    }
}

/// A declaration without an initializer binds its name to `nil` at once.
pub proof fn law_var_without_initializer<'a, N>(c: Config<'a, N>, r: Reports, event: Event<N>, fresh: String, stmt: &'a Statement, t: Token)
    requires
        c.scopes.len() > 0,
        c.control == Control::<'a, N>::Exec(stmt),
        stmt == (Statement::AssignStatement { token: Some(t), expression: None }),
    ensures
        lookup_in(next(c, r, event, fresh).0.scopes, t.lexeme@) == Some(Value::<N>::Nil),
        next(c, r, event, fresh).0.stack == c.stack,
        next(c, r, event, fresh).0.control == Control::<'a, N>::Finished,
{
    crate::environment::law_lookup_after_define(c.scopes, t.lexeme@, Value::<N>::Nil);
}

/// An if statement runs its first branch when the condition is true, its
/// else branch (if any) when it is false.
pub proof fn law_if_branches<'a, N>(c: Config<'a, N>, r: Reports, event: Event<N>, fresh: String, b: bool, ifblock: &'a Box<Statement>, elseblock: &'a Option<Box<Statement>>)
    requires
        c.control == Control::<'a, N>::Truth(b),
        c.stack.len() > 0,
        c.stack.last() == (Frame::IfTest::<'a, N> { ifblock, elseblock }),
    ensures
        next(c, r, event, fresh).0.stack == c.stack.drop_last(),
        next(c, r, event, fresh).0.scopes == c.scopes,
        b ==> next(c, r, event, fresh).0.control == Control::<'a, N>::Exec(&**ifblock),
        !b ==> match elseblock {
            Some(e) => next(c, r, event, fresh).0.control == Control::<'a, N>::Exec(&**e),
            None => true,
        },
        !b && elseblock is None ==> next(c, r, event, fresh).0.control == Control::<'a, N>::Finished,
{
}

/// A while statement runs its body while the condition is true, evaluating
/// the condition again after each run of the body, and is done once it is
/// false.
pub proof fn law_while_loops<'a, N>(c: Config<'a, N>, r: Reports, event: Event<N>, fresh: String, b: bool, condition: &'a Expr, body: &'a Box<Statement>)
    requires
        c.control == Control::<'a, N>::Truth(b),
        c.stack.len() > 0,
        c.stack.last() == (Frame::WhileTest::<'a, N> { condition, body }),
    ensures
        b ==> next(c, r, event, fresh).0.control == Control::<'a, N>::Exec(&**body),
        b ==> forall|r2: Reports, e2: Event<N>, f2: String|
            #[trigger] next(
                Config { scopes: c.scopes, stack: next(c, r, event, fresh).0.stack, control: Control::<'a, N>::Finished },
                r2, e2, f2,
            ).0.control == Control::<'a, N>::Eval(condition),
        !b ==> next(c, r, event, fresh).0.control == Control::<'a, N>::Finished
            && next(c, r, event, fresh).0.stack == c.stack.drop_last(),
{
}

/// A block runs its statements in a new innermost scope, empty at first.
pub proof fn law_block_opens_scope<'a, N>(c: Config<'a, N>, r: Reports, event: Event<N>, fresh: String, stmt: &'a Statement, v: &'a Vec<Statement>)
    requires
        c.control == Control::<'a, N>::Exec(stmt),
        stmt == (Statement::BlockStatement(*v)),
        v@.len() > 0,
    ensures
        next(c, r, event, fresh).0.scopes == seq![Map::<Seq<char>, Value<N>>::empty()] + c.scopes,
        next(c, r, event, fresh).0.control == Control::<'a, N>::Exec(&v@[0]),
{
}

/// `or` gives its left operand where that is true, and otherwise the right
/// operand's value; `and` gives its left operand where that is false, and
/// otherwise the right operand's value.
pub proof fn law_logical_short_circuit<'a, N>(c: Config<'a, N>, r: Reports, event: Event<N>, fresh: String, b: bool, operator: &'a Token, left: Value<N>, right: &'a Box<Expr>)
    requires
        c.control == Control::<'a, N>::Truth(b),
        c.stack.len() > 0,
        c.stack.last() == (Frame::LogicalTest::<'a, N> { operator, left, right }),
        operator.token_type == TokenType::Or || operator.token_type == TokenType::And,
    ensures
        next(c, r, event, fresh).0.stack == c.stack.drop_last(),
        (operator.token_type == TokenType::Or) == b
            ==> next(c, r, event, fresh).0.control == Control::<'a, N>::Value(Some(left)),
        (operator.token_type == TokenType::Or) != b
            ==> next(c, r, event, fresh).0.control == Control::<'a, N>::Eval(&**right),
{
}

proof fn lemma_bytes_less_irreflexive(x: Seq<u8>)
    ensures
        !bytes_less(x, x),
    decreases x.len(),
{
    if x.len() > 0 {
        lemma_bytes_less_irreflexive(x.drop_first());
    }
}

proof fn lemma_bytes_less_asymmetric(x: Seq<u8>, y: Seq<u8>)
    ensures
        bytes_less(x, y) ==> !bytes_less(y, x),
    decreases x.len(),
{
    if x.len() > 0 && y.len() > 0 && x[0] == y[0] {
        lemma_bytes_less_asymmetric(x.drop_first(), y.drop_first());
    }
}

proof fn lemma_bytes_less_total(x: Seq<u8>, y: Seq<u8>)
    ensures
        x != y ==> bytes_less(x, y) || bytes_less(y, x),
    decreases x.len(),
{
    if x.len() > 0 && y.len() > 0 && x[0] == y[0] {
        lemma_bytes_less_total(x.drop_first(), y.drop_first());
        if x.drop_first() == y.drop_first() {
            assert(x =~= seq![x[0]] + x.drop_first());
            assert(y =~= seq![y[0]] + y.drop_first());
        }
    } else if x.len() == 0 && y.len() == 0 {
        assert(x =~= y);
    }
}

proof fn lemma_bytes_less_transitive(x: Seq<u8>, y: Seq<u8>, z: Seq<u8>)
    ensures
        bytes_less(x, y) && bytes_less(y, z) ==> bytes_less(x, z),
    decreases x.len(),
{
    if x.len() > 0 && y.len() > 0 && z.len() > 0 {
        lemma_bytes_less_transitive(x.drop_first(), y.drop_first(), z.drop_first());
    }
}

/// Strings compare by the order of their UTF-8 bytes: `<` is a strict
/// total order (never `a < a`, at most one of `a < b` and `b < a`, exactly
/// one for different strings, and transitive); `>` is `<` with the operands
/// swapped, `>=` is not `<`, `<=` is not `>`; `==` and `!=` compare texts.
pub proof fn law_string_order(a: Seq<char>, b: Seq<char>, c: Seq<char>)
    ensures
        compare_texts(TokenType::Greater, a, b) == compare_texts(TokenType::Less, b, a),
        compare_texts(TokenType::GreaterEqual, a, b) == !compare_texts(TokenType::Less, a, b),
        compare_texts(TokenType::LessEqual, a, b) == !compare_texts(TokenType::Less, b, a),
        compare_texts(TokenType::EqualEqual, a, b) == (a == b),
        compare_texts(TokenType::BangEqual, a, b) == (a != b),
        compare_texts(TokenType::Less, a, b) == bytes_less(encode_utf8(a), encode_utf8(b)),
        !compare_texts(TokenType::Less, a, a),
        compare_texts(TokenType::Less, a, b) ==> !compare_texts(TokenType::Less, b, a),
        a != b ==> compare_texts(TokenType::Less, a, b) || compare_texts(TokenType::Less, b, a),
        compare_texts(TokenType::Less, a, b) && compare_texts(TokenType::Less, b, c) ==> compare_texts(TokenType::Less, a, c),
{
    broadcast use vstd::utf8::encode_utf8_decode_utf8;
    let (x, y, z) = (encode_utf8(a), encode_utf8(b), encode_utf8(c));
    lemma_bytes_less_irreflexive(x);
    lemma_bytes_less_asymmetric(x, y);
    lemma_bytes_less_transitive(x, y, z);
    lemma_bytes_less_total(x, y);
    if a != b {
        assert(decode_utf8(x) == a && decode_utf8(y) == b);
        assert(x != y);
    }
}

/// A comparison or (in)equality of two strings gives, at once, the truth
/// value `compare_texts` gives for their texts (see `law_string_order`).
pub proof fn law_strings_compared<'a, N>(c: Config<'a, N>, r: Reports, event: Event<N>, fresh: String, operator: &'a Token, a: String, b: String)
    requires
        c.control == Control::<'a, N>::Value(Some(Value::Str(b))),
        c.stack.len() > 0,
        c.stack.last() == (Frame::BinaryRight::<'a, N> { operator, left: Value::Str(a) }),
        binary_operator(operator.token_type),
        operator.token_type != TokenType::Minus && operator.token_type != TokenType::Plus
            && operator.token_type != TokenType::Star && operator.token_type != TokenType::Slash,
    ensures
        next(c, r, event, fresh) == (
            Config {
                scopes: c.scopes,
                stack: c.stack.drop_last(),
                control: Control::<'a, N>::Value(Some(Value::Bool(compare_texts(operator.token_type, a@, b@)))),
            },
            r,
            Action::<'a, N>::Continue,
        ),
{
}

/// `text` repeated `n` times is `n` times as long as `text`, and each of its
/// characters is the character of `text` at the same place modulo its length.
pub proof fn law_repeat_text(text: Seq<char>, n: nat)
    ensures
        repeat_text(text, n).len() == n * text.len(),
        forall|i: int| 0 <= i < repeat_text(text, n).len() ==> #[trigger] repeat_text(text, n)[i] == text[i % (text.len() as int)],
    decreases n,
{
    if n == 0 {
        assert(0 * text.len() == 0);
    } else {
        law_repeat_text(text, (n - 1) as nat);
        let prev = repeat_text(text, (n - 1) as nat);
        let k = text.len() as int;
        let m = (n - 1) as nat;
        assert(prev.len() == m * text.len());
        assert(m * k + k == n * k) by (nonlinear_arith)
            requires
                m == n - 1;
        assert(repeat_text(text, n).len() == prev.len() + k);
        assert forall|i: int| 0 <= i < repeat_text(text, n).len() implies #[trigger] repeat_text(text, n)[i] == text[i % k] by {
            if i >= prev.len() {
                let j = i - prev.len();
                assert(0 <= j < k);
                assert(prev.len() == (n - 1) * k);
                assert(i % k == j) by (nonlinear_arith)
                    requires
                        i == (n - 1) * k + j,
                        0 <= j < k,
                        n >= 1;
            }
        }
    }
}

/// A string repeated a number of times: the embedder's count `n` gives the
/// string made of `n` copies of the text, one after another.
pub proof fn law_repetition<'a, N>(c: Config<'a, N>, r: Reports, fresh: String, operator: &'a Token, text: String, n: usize)
    requires
        c.control == Control::<'a, N>::Await,
        c.stack.len() > 0,
        c.stack.last() == (Frame::Repeat::<'a, N> { operator, text }),
        fresh_ok(c, Event::Count(n), fresh),
    ensures
        fresh@.len() == n * text@.len(),
        forall|i: int| 0 <= i < fresh@.len() ==> #[trigger] fresh@[i] == text@[i % (text@.len() as int)],
        next(c, r, Event::Count(n), fresh) == (
            Config { scopes: c.scopes, stack: c.stack.drop_last(), control: Control::<'a, N>::Value(Some(Value::Str(fresh))) },
            r,
            Action::<'a, N>::Continue,
        ),
{
    law_repeat_text(text@, n as nat);
}

/// After a statement during which an error is reported, the rest of the
/// statements around it (of the program, or of the block it is in) are
/// skipped: the sequence ends.
pub proof fn law_error_ends_sequence<'a, N>(c: Config<'a, N>, r: Reports, event: Event<N>, fresh: String)
    requires
        c.control == Control::<'a, N>::Finished,
        c.stack.len() > 0,
        (c.stack.last() is Sequence),
        r.had_error,
    ensures
        next(c, r, event, fresh).0.stack == c.stack.drop_last(),
        next(c, r, event, fresh).0.control == Control::<'a, N>::Finished,
{
}

} // verus!

verus! {

// ---------------------------------------------------------------------------
// Runs of parsed programs
// ---------------------------------------------------------------------------

/// What a frame, or the interpreter's control, waits for or hands on.
pub enum Expects {
    /// A statement done.
    Finished,
    /// An expression's outcome.
    Value,
    /// A truth value.
    Truth,
    /// The embedder's answer.
    Answer,
}

/// What the frame waits for.
pub open spec fn frame_input<'a, N>(f: Frame<'a, N>) -> Expects {
    match f {
        Frame::Sequence { .. } => Expects::Finished,
        Frame::WhileBody { .. } => Expects::Finished,
        Frame::IfTest { .. } => Expects::Truth,
        Frame::WhileTest { .. } => Expects::Truth,
        Frame::Not => Expects::Truth,
        Frame::LogicalTest { .. } => Expects::Truth,
        Frame::NumberLiteral => Expects::Answer,
        Frame::Truth => Expects::Answer,
        Frame::Negate => Expects::Answer,
        Frame::Arith { .. } => Expects::Answer,
        Frame::Repeat { .. } => Expects::Answer,
        _ => Expects::Value,
    }
}

/// What the frame hands to the frame below it when it is done.
pub open spec fn frame_output<'a, N>(f: Frame<'a, N>) -> Expects {
    match f {
        Frame::Sequence { .. } => Expects::Finished,
        Frame::ExprDone => Expects::Finished,
        Frame::PrintArg => Expects::Finished,
        Frame::VarInit { .. } => Expects::Finished,
        Frame::IfCond { .. } => Expects::Finished,
        Frame::IfTest { .. } => Expects::Finished,
        Frame::WhileCond { .. } => Expects::Finished,
        Frame::WhileTest { .. } => Expects::Finished,
        Frame::WhileBody { .. } => Expects::Finished,
        Frame::Truth => Expects::Truth,
        _ => Expects::Value,
    }
}

/// What the control hands to the frame on top.
pub open spec fn control_output<'a, N>(c: Control<'a, N>) -> Expects {
    match c {
        Control::Exec(_) => Expects::Finished,
        Control::Eval(_) => Expects::Value,
        Control::Value(_) => Expects::Value,
        Control::Truth(_) => Expects::Truth,
        Control::Finished => Expects::Finished,
        Control::Await => Expects::Answer,
    }
}

/// What the top of the stack waits for; a finished statement where the
/// stack is empty.
pub open spec fn expects<'a, N>(stack: Seq<Frame<'a, N>>) -> Expects {
    if stack.len() == 0 { Expects::Finished } else { frame_input(stack.last()) }
}

/// Each frame hands on what the frame below it waits for.
pub open spec fn stack_ok<'a, N>(stack: Seq<Frame<'a, N>>) -> bool
    decreases stack.len(),
{
    stack.len() == 0 || (stack_ok(stack.drop_last()) && frame_output(stack.last()) == expects(stack.drop_last()))
}

pub open spec fn statement_ok(s: Statement) -> bool {
    stmt_operators_ok(stmt_view(s))
}

/// The statements and expressions a frame holds have only the operators
/// the parser builds.
pub open spec fn frame_ok<'a, N>(f: Frame<'a, N>) -> bool {
    match f {
        Frame::Sequence { statements, next, scoped } =>
            forall|i: int| 0 <= i < statements@.len() ==> statement_ok(#[trigger] statements@[i]),
        Frame::IfCond { ifblock, elseblock } => statement_ok(**ifblock) && (elseblock matches Some(e) ==> statement_ok(**e)),
        Frame::IfTest { ifblock, elseblock } => statement_ok(**ifblock) && (elseblock matches Some(e) ==> statement_ok(**e)),
        Frame::WhileCond { condition, body } => operators_ok(*condition) && statement_ok(**body),
        Frame::WhileTest { condition, body } => operators_ok(*condition) && statement_ok(**body),
        Frame::WhileBody { condition, body } => operators_ok(*condition) && statement_ok(**body),
        Frame::Unary { operator } => operator.token_type == TokenType::Minus || operator.token_type == TokenType::Bang,
        Frame::BinaryLeft { operator, right } => operators_ok(**right),
        Frame::LogicalLeft { operator, right } => operators_ok(**right),
        Frame::LogicalTest { operator, left, right } => operators_ok(**right),
        _ => true,
    }
}

pub open spec fn control_ok<'a, N>(c: Control<'a, N>) -> bool {
    match c {
        Control::Exec(s) => statement_ok(*s),
        Control::Eval(e) => operators_ok(*e),
        _ => true,
    }
}

/// A configuration the interpreter reaches when it runs a parsed program.
pub open spec fn runnable<'a, N>(c: Config<'a, N>) -> bool {
    &&& stack_ok(c.stack)
    &&& control_output(c.control) == expects(c.stack)
    &&& forall|i: int| 0 <= i < c.stack.len() ==> frame_ok(#[trigger] c.stack[i])
    &&& control_ok(c.control)
}

/// `event` is an answer of the kind the awaited action asks for.
pub open spec fn answers<'a, N>(c: Config<'a, N>, event: Event<N>) -> bool {
    c.control is Await && c.stack.len() > 0 ==> match c.stack.last() {
        Frame::NumberLiteral => event is Number,
        Frame::Negate => event is Number,
        Frame::Truth => event is Truth,
        Frame::Arith { .. } => event is Number || event is Truth || event is DivisionByZero,
        Frame::Repeat { .. } => event is Count || event is BadRepeat,
        _ => true,
    }
}

/// The line of the operator on top of the stack, where an error there
/// would be reported, fits in a `u32`.
pub open spec fn line_fits<'a, N>(c: Config<'a, N>) -> bool {
    c.stack.len() > 0 ==> match c.stack.last() {
        Frame::Unary { operator } => operator.line <= u32::MAX,
        Frame::BinaryRight { operator, left } => operator.line <= u32::MAX,
        Frame::Arith { operator } => operator.line <= u32::MAX,
        Frame::Repeat { operator, text } => operator.line <= u32::MAX,
        _ => true,
    }
}

pub broadcast proof fn lemma_stack_ok_push<'a, N>(s: Seq<Frame<'a, N>>, f: Frame<'a, N>)
    ensures
        #[trigger] stack_ok(s.push(f)) == (stack_ok(s) && frame_output(f) == expects(s)),
{
    assert(s.push(f).drop_last() =~= s);
}

/// A step from a runnable configuration, given an answer of the kind asked
/// for, does not halt unless an error is to be reported at a line that does
/// not fit in a `u32`, and leads to a runnable configuration again.
pub proof fn law_runnable_step<'a, N>(c: Config<'a, N>, r: Reports, event: Event<N>, fresh: String)
    requires
        runnable(c),
        answers(c, event),
        line_fits(c),
    ensures
        next(c, r, event, fresh).2 != Action::<'a, N>::Halt,
        runnable(next(c, r, event, fresh).0),
{
    broadcast use lemma_stack_ok_push;
    if c.stack.len() > 0 {
        assert(c.stack.drop_last().push(c.stack.last()) =~= c.stack);
        assert(frame_ok(c.stack.last()));
    }
    match c.control {
        Control::Exec(stmt) => {
            if let Statement::BlockStatement(v) = stmt {
                lemma_stmts_view_index(v@);
                lemma_block_operators(stmts_view(v@));
                assert forall|i: int| 0 <= i < v@.len() implies statement_ok(#[trigger] v@[i]) by {
                    assert(stmt_operators_ok(stmts_view(v@)[i]));
                }
            }
        },
        _ => {},
    }
}

/// The configuration from which a program is run by a new interpreter.
pub open spec fn initial<'a, N>() -> Config<'a, N> {
    Config { scopes: seq![Map::<Seq<char>, Value<N>>::empty()], stack: Seq::empty(), control: Control::Finished }
}

/// A program that the parser built can be run: the interpreter set to run
/// it is runnable, so it halts only as `law_runnable_step` allows.
pub proof fn law_parsed_program_runnable<'a, N>(t: Seq<Token>, st: PState, program: &'a Vec<Statement>)
    requires
        parse_result(t, st) matches Parsed::Done(p, _) && p == stmts_view(program@),
    ensures
        runnable(started(initial::<'a, N>(), program)),
{
    broadcast use lemma_stack_ok_push;
    law_parsed_operators(t, st);
    lemma_stmts_view_index(program@);
    assert forall|i: int| 0 <= i < program@.len() implies statement_ok(#[trigger] program@[i]) by {
        assert(stmt_operators_ok(stmts_view(program@)[i]));
    }
}

} // verus!
