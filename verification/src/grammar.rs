use vstd::prelude::*;
use crate::ast::{Expr, Stmt};
use crate::error::{ErrorView, Halt};
use crate::token::{Literal, Token, TokenType};

verus! {

// ---------------------------------------------------------------------------
// The recursive-descent grammar as spec functions over the token sequence.
//
// Every function takes `fuel`, which bounds the depth of the computation;
// `OutOfFuel` is returned when it is exhausted.  The parser's contracts use
// fuel `needed(...)`, which suffices for every input (the executable parser
// proves that it never runs out).
// ---------------------------------------------------------------------------

/// The parser's state: position in the tokens and the error state.
#[verifier::ext_equal]
pub struct PState {
    pub pos: int,
    pub had_error: bool,
    pub errors: Seq<ErrorView>,
}

/// Outcome of parsing a phrase.
pub enum Parsed<T> {
    Done(T, PState),
    Stop(Halt),
    OutOfFuel,
}

/// A failed outcome, retyped.
pub open spec fn failed<A, B>(p: Parsed<A>) -> Parsed<B> {
    match p {
        Parsed::Stop(h) => Parsed::Stop(h),
        _ => Parsed::OutOfFuel,
    }
}

pub open spec fn at_end(t: Seq<Token>, pos: int) -> bool {
    pos >= t.len() || t[pos].token_type == TokenType::Eof
}

pub open spec fn check(t: Seq<Token>, pos: int, tt: TokenType) -> bool {
    !at_end(t, pos) && t[pos].token_type == tt
}

/// The token at `pos` is one of `types` (it is then consumed).
pub open spec fn next_is(t: Seq<Token>, pos: int, types: Seq<TokenType>) -> bool {
    !at_end(t, pos) && types.contains(t[pos].token_type)
}

pub open spec fn previous(t: Seq<Token>, pos: int) -> Option<Token> {
    if pos <= 0 || pos > t.len() {
        None
    } else {
        Some(t[pos - 1])
    }
}

pub open spec fn adv(st: PState) -> PState {
    PState { pos: st.pos + 1, had_error: st.had_error, errors: st.errors }
}

/// Reports `msg` at `line` (no column).
pub open spec fn err(st: PState, msg: Seq<char>, line: usize) -> PState {
    PState {
        pos: st.pos,
        had_error: true,
        errors: st.errors.push(ErrorView::WithLocation { message: msg, line: line as u32, col: None }),
    }
}

pub open spec fn consume(t: Seq<Token>, st: PState, tt: TokenType, msg: Seq<char>) -> Parsed<Option<Token>> {
    if check(t, st.pos, tt) {
        Parsed::Done(Some(t[st.pos]), adv(st))
    } else if t.len() == 0 {
        Parsed::Stop(Halt::Panic)
    } else {
        let line = if !at_end(t, st.pos) { t[st.pos].line } else { t.last().line };
        Parsed::Done(None, err(st, msg, line))
    }
}

/// Operators of the binary precedence levels, loosest (6) to tightest (1):
/// `or`, `and`, equality, comparison, term, factor.
pub open spec fn level_ops(l: int) -> Seq<TokenType> {
    if l == 1 {
        seq![TokenType::Star, TokenType::Slash]
    } else if l == 2 {
        seq![TokenType::Plus, TokenType::Minus]
    } else if l == 3 {
        seq![TokenType::Less, TokenType::LessEqual, TokenType::Greater, TokenType::GreaterEqual]
    } else if l == 4 {
        seq![TokenType::BangEqual, TokenType::EqualEqual]
    } else if l == 5 {
        seq![TokenType::And]
    } else {
        seq![TokenType::Or]
    }
}

/// The node for `left op right` at level `l`.
pub open spec fn combine(l: int, left: Expr, op: Token, right: Expr) -> Expr {
    if l >= 5 {
        Expr::Logical { left: Box::new(left), operator: op, right: Box::new(right) }
    } else {
        Expr::Binary { left: Box::new(left), operator: op, right: Box::new(right) }
    }
}

pub open spec fn p_primary(t: Seq<Token>, st: PState, fuel: nat) -> Parsed<Expr>
    decreases fuel, 0nat,
{
    if fuel == 0 {
        Parsed::OutOfFuel
    } else {
        let f = (fuel - 1) as nat;
        let p = st.pos;
        if next_is(t, p, seq![TokenType::Number, TokenType::String, TokenType::Nil]) {
            Parsed::Done(Expr::Literal { value: t[p].literal }, adv(st))
        } else if check(t, p, TokenType::False) {
            Parsed::Done(Expr::Literal { value: Some(Literal::Bool(false)) }, adv(st))
        } else if check(t, p, TokenType::True) {
            Parsed::Done(Expr::Literal { value: Some(Literal::Bool(true)) }, adv(st))
        } else if check(t, p, TokenType::Identifier) {
            Parsed::Done(Expr::Variable { name: t[p] }, adv(st))
        } else if check(t, p, TokenType::LeftParen) {
            match p_expression(t, adv(st), f) {
                Parsed::Done(e, st1) => match consume(t, st1, TokenType::RightParen, "Expect ')' after expression."@) {
                    Parsed::Done(_, st2) => Parsed::Done(Expr::Grouping { expression: Box::new(e) }, st2),
                    other => failed(other),
                },
                other => other,
            }
        } else if at_end(t, p) {
            if t.len() == 0 {
                Parsed::Stop(Halt::Panic)
            } else {
                Parsed::Done(Expr::Literal { value: None }, err(st, "Expect expression."@, t.last().line))
            }
        } else {
            Parsed::Done(Expr::Literal { value: None }, err(st, "Expect expression."@, t[p].line))
        }
    }
}

pub open spec fn p_unary(t: Seq<Token>, st: PState, fuel: nat) -> Parsed<Expr>
    decreases fuel, 0nat,
{
    if fuel == 0 {
        Parsed::OutOfFuel
    } else {
        let f = (fuel - 1) as nat;
        if next_is(t, st.pos, seq![TokenType::Bang, TokenType::Minus]) {
            let op = t[st.pos];
            match p_unary(t, adv(st), f) {
                Parsed::Done(e, st1) => Parsed::Done(Expr::Unary { operator: op, expression: Box::new(e) }, st1),
                other => other,
            }
        } else {
            p_primary(t, st, f)
        }
    }
}

/// An operand of level `l`: the next tighter level, or a unary expression.
pub open spec fn p_operand(t: Seq<Token>, st: PState, l: int, fuel: nat) -> Parsed<Expr>
    decreases fuel, 1nat,
{
    if l <= 1 {
        p_unary(t, st, fuel)
    } else {
        p_level(t, st, l - 1, fuel)
    }
}

/// Binary level `l`: an operand followed by any number of
/// (operator, operand) pairs, grouped to the left.
pub open spec fn p_level(t: Seq<Token>, st: PState, l: int, fuel: nat) -> Parsed<Expr>
    decreases fuel, 0nat,
{
    if fuel == 0 {
        Parsed::OutOfFuel
    } else {
        let f = (fuel - 1) as nat;
        match p_operand(t, st, l, f) {
            Parsed::Done(e, st1) => p_level_loop(t, st1, l, e, f),
            other => other,
        }
    }
}

pub open spec fn p_level_loop(t: Seq<Token>, st: PState, l: int, left: Expr, fuel: nat) -> Parsed<Expr>
    decreases fuel, 0nat,
{
    if fuel == 0 {
        Parsed::OutOfFuel
    } else {
        let f = (fuel - 1) as nat;
        if next_is(t, st.pos, level_ops(l)) {
            let op = t[st.pos];
            match p_operand(t, adv(st), l, f) {
                Parsed::Done(right, st1) => p_level_loop(t, st1, l, combine(l, left, op, right), f),
                other => other,
            }
        } else {
            Parsed::Done(left, st)
        }
    }
}

pub open spec fn p_assignment(t: Seq<Token>, st: PState, fuel: nat) -> Parsed<Expr>
    decreases fuel, 0nat,
{
    if fuel == 0 {
        Parsed::OutOfFuel
    } else {
        let f = (fuel - 1) as nat;
        match p_level(t, st, 6, f) {
            Parsed::Done(v, st1) => if next_is(t, st1.pos, seq![TokenType::Equal]) {
                let line_no = t[st1.pos].line;
                match p_assignment(t, adv(st1), f) {
                    Parsed::Done(rem, st2) => match v {
                        Expr::Variable { name } => Parsed::Done(Expr::Assignment { name, value: Box::new(rem) }, st2),
                        _ => Parsed::Done(v, err(st2, "Cant assign to something that is not a variable"@, line_no)),
                    },
                    other => other,
                }
            } else {
                Parsed::Done(v, st1)
            },
            other => other,
        }
    }
}

pub open spec fn p_expression(t: Seq<Token>, st: PState, fuel: nat) -> Parsed<Expr>
    decreases fuel, 0nat,
{
    if fuel == 0 {
        Parsed::OutOfFuel
    } else {
        p_assignment(t, st, (fuel - 1) as nat)
    }
}

} // verus!

verus! {

#[verifier::opaque]
pub open spec fn p_expression_statement(t: Seq<Token>, st: PState, fuel: nat) -> Parsed<Stmt>
    decreases fuel, 0nat,
{
    if fuel == 0 {
        Parsed::OutOfFuel
    } else {
        match p_expression(t, st, (fuel - 1) as nat) {
            Parsed::Done(e, st1) => match consume(t, st1, TokenType::Semicolon, "Expect ';' after expression."@) {
                Parsed::Done(_, st2) => Parsed::Done(Stmt::Expression(e), st2),
                other => failed(other),
            },
            other => failed(other),
        }
    }
}

#[verifier::opaque]
pub open spec fn p_print_statement(t: Seq<Token>, st: PState, fuel: nat) -> Parsed<Stmt>
    decreases fuel, 0nat,
{
    if fuel == 0 {
        Parsed::OutOfFuel
    } else {
        match p_expression(t, st, (fuel - 1) as nat) {
            Parsed::Done(e, st1) => match consume(t, st1, TokenType::Semicolon, "Expect ';' after value."@) {
                Parsed::Done(_, st2) => Parsed::Done(Stmt::Print(e), st2),
                other => failed(other),
            },
            other => failed(other),
        }
    }
}

#[verifier::opaque]
pub open spec fn p_var_declaration(t: Seq<Token>, st: PState, fuel: nat) -> Parsed<Stmt>
    decreases fuel, 0nat,
{
    if fuel == 0 {
        Parsed::OutOfFuel
    } else {
        let f = (fuel - 1) as nat;
        match consume(t, st, TokenType::Identifier, "Expected a variable name"@) {
            Parsed::Done(name, st1) => {
                let init: Parsed<Option<Expr>> = if next_is(t, st1.pos, seq![TokenType::Equal]) {
                    match p_expression(t, adv(st1), f) {
                        Parsed::Done(e, st2) => Parsed::Done(Some(e), st2),
                        other => failed(other),
                    }
                } else {
                    Parsed::Done(None, st1)
                };
                match init {
                    Parsed::Done(initializer, st2) => match consume(
                        t,
                        st2,
                        TokenType::Semicolon,
                        "Expect ';' after variable declaration."@,
                    ) {
                        Parsed::Done(_, st3) => Parsed::Done(Stmt::Var { token: name, expression: initializer }, st3),
                        other => failed(other),
                    },
                    other => failed(other),
                }
            },
            other => failed(other),
        }
    }
}

/// Skips tokens after an error until a statement boundary: just after a `;`
/// or before a keyword that starts a declaration or statement.
pub open spec fn synchronize(t: Seq<Token>, pos: int) -> int
    decreases t.len() - pos,
{
    if pos < 0 || at_end(t, pos) {
        pos
    } else if previous(t, pos) matches Some(prev) && prev.token_type == TokenType::Semicolon {
        pos
    } else if seq![
        TokenType::Class,
        TokenType::Fun,
        TokenType::Var,
        TokenType::For,
        TokenType::If,
        TokenType::While,
        TokenType::Print,
        TokenType::Return,
    ].contains(t[pos].token_type) {
        pos
    } else {
        synchronize(t, pos + 1)
    }
}

/// The state after a declaration that started at `st` and ended at `st1`:
/// where it consumed no token (an error at a token that starts no
/// declaration, with recovery stopping at once), that token is skipped.
pub open spec fn past(st: PState, st1: PState) -> PState {
    if st1.pos <= st.pos {
        PState { pos: st.pos + 1, had_error: st1.had_error, errors: st1.errors }
    } else {
        st1
    }
}

#[verifier::opaque]
pub open spec fn p_declaration(t: Seq<Token>, st: PState, fuel: nat) -> Parsed<Option<Stmt>>
    decreases fuel, 0nat,
{
    if fuel == 0 {
        Parsed::OutOfFuel
    } else {
        let f = (fuel - 1) as nat;
        if next_is(t, st.pos, seq![TokenType::Var]) {
            match p_var_declaration(t, adv(st), f) {
                Parsed::Done(s, st1) => Parsed::Done(Some(s), st1),
                other => failed(other),
            }
        } else {
            match p_statement(t, st, f) {
                Parsed::Done(s, st1) => if st1.had_error {
                    Parsed::Done(None, PState { pos: synchronize(t, st1.pos), had_error: false, errors: st1.errors })
                } else {
                    Parsed::Done(Some(s), st1)
                },
                other => failed(other),
            }
        }
    }
}

/// The declarations of a block up to its closing brace (or the end of the
/// tokens), appended to `acc`.
#[verifier::opaque]
pub open spec fn p_block(t: Seq<Token>, st: PState, acc: Seq<Stmt>, fuel: nat) -> Parsed<Seq<Stmt>>
    decreases fuel, 0nat,
{
    if fuel == 0 {
        Parsed::OutOfFuel
    } else {
        let f = (fuel - 1) as nat;
        if check(t, st.pos, TokenType::RightBrace) || at_end(t, st.pos) {
            match consume(t, st, TokenType::RightBrace, "Expected '}' after a block"@) {
                Parsed::Done(_, st1) => Parsed::Done(acc, st1),
                other => failed(other),
            }
        } else {
            match p_declaration(t, st, f) {
                Parsed::Done(d, st1) => p_block(t, past(st, st1), match d { Some(s) => acc.push(s), None => acc }, f),
                other => failed(other),
            }
        }
    }
}

#[verifier::opaque]
pub open spec fn p_if(t: Seq<Token>, st: PState, fuel: nat) -> Parsed<Stmt>
    decreases fuel, 0nat,
{
    if fuel == 0 {
        Parsed::OutOfFuel
    } else {
        let f = (fuel - 1) as nat;
        match consume(t, st, TokenType::LeftParen, "Open paren was not found after the if keyword"@) {
            Parsed::Done(_, st1) => match p_expression(t, st1, f) {
                Parsed::Done(condition, st2) => match consume(t, st2, TokenType::RightParen, "Closing paren was not found"@) {
                    Parsed::Done(_, st3) => match p_statement(t, st3, f) {
                        Parsed::Done(ifblock, st4) => if next_is(t, st4.pos, seq![TokenType::Else]) {
                            match p_statement(t, adv(st4), f) {
                                Parsed::Done(elseblock, st5) => Parsed::Done(
                                    Stmt::If { condition, ifblock: Box::new(ifblock), elseblock: Some(Box::new(elseblock)) },
                                    st5,
                                ),
                                other => other,
                            }
                        } else {
                            Parsed::Done(Stmt::If { condition, ifblock: Box::new(ifblock), elseblock: None }, st4)
                        },
                        other => other,
                    },
                    other => failed(other),
                },
                other => failed(other),
            },
            other => failed(other),
        }
    }
}

#[verifier::opaque]
pub open spec fn p_while(t: Seq<Token>, st: PState, fuel: nat) -> Parsed<Stmt>
    decreases fuel, 0nat,
{
    if fuel == 0 {
        Parsed::OutOfFuel
    } else {
        let f = (fuel - 1) as nat;
        match consume(t, st, TokenType::LeftParen, "Open paren was not found after the for keyword"@) {
            Parsed::Done(_, st1) => match p_expression(t, st1, f) {
                Parsed::Done(condition, st2) => match consume(t, st2, TokenType::RightParen, "Closing paren was not found"@) {
                    Parsed::Done(_, st3) => match p_statement(t, st3, f) {
                        Parsed::Done(body, st4) => Parsed::Done(Stmt::While { condition, statement: Box::new(body) }, st4),
                        other => other,
                    },
                    other => failed(other),
                },
                other => failed(other),
            },
            other => failed(other),
        }
    }
}

/// The statement a `for` loop stands for: a block holding the initializer
/// (if any) and a `while` loop whose body is a block of the loop body and
/// the increment (if any); a missing condition is `true`.
pub open spec fn desugar_for(init: Option<Stmt>, cond: Option<Expr>, change: Option<Expr>, body: Stmt) -> Stmt {
    let condition = match cond {
        Some(c) => c,
        None => Expr::Literal { value: Some(Literal::Bool(true)) },
    };
    let inner = match change {
        Some(c) => seq![body, Stmt::Expression(c)],
        None => seq![body],
    };
    let w = Stmt::While { condition, statement: Box::new(Stmt::Block(inner)) };
    match init {
        Some(i) => Stmt::Block(seq![i, w]),
        None => Stmt::Block(seq![w]),
    }
}

/// The initializer clause of a `for` loop.
#[verifier::opaque]
pub open spec fn p_for_init(t: Seq<Token>, st: PState, fuel: nat) -> Parsed<Option<Stmt>>
    decreases fuel, 0nat,
{
    if fuel == 0 {
        Parsed::OutOfFuel
    } else {
        let f = (fuel - 1) as nat;
        if next_is(t, st.pos, seq![TokenType::Semicolon]) {
            Parsed::Done(None, adv(st))
        } else if next_is(t, st.pos, seq![TokenType::Var]) {
            match p_var_declaration(t, adv(st), f) {
                Parsed::Done(s, st1) => Parsed::Done(Some(s), st1),
                other => failed(other),
            }
        } else {
            match p_expression_statement(t, st, f) {
                Parsed::Done(s, st1) => Parsed::Done(Some(s), st1),
                other => failed(other),
            }
        }
    }
}

/// An optional expression, present unless the next token is `stop`.
#[verifier::opaque]
pub open spec fn p_clause(t: Seq<Token>, st: PState, stop: TokenType, fuel: nat) -> Parsed<Option<Expr>>
    decreases fuel, 0nat,
{
    if fuel == 0 {
        Parsed::OutOfFuel
    } else if !check(t, st.pos, stop) {
        match p_expression(t, st, (fuel - 1) as nat) {
            Parsed::Done(e, st1) => Parsed::Done(Some(e), st1),
            other => failed(other),
        }
    } else {
        Parsed::Done(None, st)
    }
}

#[verifier::opaque]
pub open spec fn p_for(t: Seq<Token>, st: PState, fuel: nat) -> Parsed<Stmt>
    decreases fuel, 0nat,
{
    if fuel == 0 {
        Parsed::OutOfFuel
    } else {
        let f = (fuel - 1) as nat;
        match consume(t, st, TokenType::LeftParen, "Open paren was not found after the for keyword"@) {
            Parsed::Done(_, st1) => match p_for_init(t, st1, f) {
                Parsed::Done(init, st2) => match p_clause(t, st2, TokenType::Semicolon, f) {
                    Parsed::Done(cond, st3) => match consume(
                        t,
                        st3,
                        TokenType::Semicolon,
                        "Expected semicolon after initializer in for loop"@,
                    ) {
                        Parsed::Done(_, st4) => match p_clause(t, st4, TokenType::RightParen, f) {
                            Parsed::Done(change, st5) => match consume(
                                t,
                                st5,
                                TokenType::RightParen,
                                "Expected closing paren after condition in for loop"@,
                            ) {
                                Parsed::Done(_, st6) => match p_statement(t, st6, f) {
                                    Parsed::Done(body, st7) => Parsed::Done(desugar_for(init, cond, change, body), st7),
                                    other => other,
                                },
                                other => failed(other),
                            },
                            other => failed(other),
                        },
                        other => failed(other),
                    },
                    other => failed(other),
                },
                other => failed(other),
            },
            other => failed(other),
        }
    }
}

#[verifier::opaque]
pub open spec fn p_statement(t: Seq<Token>, st: PState, fuel: nat) -> Parsed<Stmt>
    decreases fuel, 0nat,
{
    if fuel == 0 {
        Parsed::OutOfFuel
    } else {
        let f = (fuel - 1) as nat;
        if next_is(t, st.pos, seq![TokenType::Print]) {
            p_print_statement(t, adv(st), f)
        } else if next_is(t, st.pos, seq![TokenType::LeftBrace]) {
            match p_block(t, adv(st), Seq::empty(), f) {
                Parsed::Done(stmts, st1) => Parsed::Done(Stmt::Block(stmts), st1),
                other => failed(other),
            }
        } else if next_is(t, st.pos, seq![TokenType::If]) {
            p_if(t, adv(st), f)
        } else if next_is(t, st.pos, seq![TokenType::While]) {
            p_while(t, adv(st), f)
        } else if next_is(t, st.pos, seq![TokenType::For]) {
            p_for(t, adv(st), f)
        } else {
            p_expression_statement(t, st, f)
        }
    }
}

/// The declarations up to the end of the tokens, appended to `acc`.
#[verifier::opaque]
pub open spec fn p_program(t: Seq<Token>, st: PState, acc: Seq<Stmt>, fuel: nat) -> Parsed<Seq<Stmt>>
    decreases fuel, 0nat,
{
    if fuel == 0 {
        Parsed::OutOfFuel
    } else if at_end(t, st.pos) {
        Parsed::Done(acc, st)
    } else {
        let f = (fuel - 1) as nat;
        match p_declaration(t, st, f) {
            Parsed::Done(d, st1) => p_program(t, past(st, st1), match d { Some(s) => acc.push(s), None => acc }, f),
            other => failed(other),
        }
    }
}

/// Fuel that suffices to parse from position `pos` at a grammar rule of
/// rank `rank` (< 32): 32 per remaining token plus the rank.
pub open spec fn needed(t: Seq<Token>, pos: int, rank: int) -> nat {
    if pos <= t.len() {
        ((t.len() - pos) * 32 + rank) as nat
    } else {
        rank as nat
    }
}

/// What parsing an expression from `st` gives.
pub open spec fn expression_result(t: Seq<Token>, st: PState) -> Parsed<Expr> {
    p_expression(t, st, needed(t, st.pos, 16))
}

/// What parsing a program from `st` gives.
pub open spec fn parse_result(t: Seq<Token>, st: PState) -> Parsed<Seq<Stmt>> {
    p_program(t, st, Seq::empty(), needed(t, st.pos, 22))
}

} // verus!

verus! {

/// `b` keeps every error of `a`, in front.
pub open spec fn keeps_errors(a: Seq<ErrorView>, b: Seq<ErrorView>) -> bool {
    a.len() <= b.len() && b.subrange(0, a.len() as int) == a
}

pub broadcast proof fn lemma_keeps_errors_trans(a: Seq<ErrorView>, b: Seq<ErrorView>, c: Seq<ErrorView>)
    requires
        #[trigger] keeps_errors(a, b),
        #[trigger] keeps_errors(b, c),
    ensures
        keeps_errors(a, c),
{
    assert forall|i: int| 0 <= i < a.len() implies c[i] == a[i] by {
        assert(c.subrange(0, b.len() as int)[i] == c[i]);
        assert(b.subrange(0, a.len() as int)[i] == b[i]);
    }
    assert(c.subrange(0, a.len() as int) =~= a);
}

pub broadcast proof fn lemma_keeps_errors_push(a: Seq<ErrorView>, e: ErrorView)
    ensures
        #[trigger] keeps_errors(a, a.push(e)),
{
    assert(a.push(e).subrange(0, a.len() as int) =~= a);
}

pub broadcast proof fn lemma_keeps_errors_refl(a: Seq<ErrorView>)
    ensures
        #[trigger] keeps_errors(a, a),
{
    assert(a.subrange(0, a.len() as int) =~= a);
}

pub broadcast group group_keeps_errors {
    lemma_keeps_errors_trans,
    lemma_keeps_errors_push,
    lemma_keeps_errors_refl,
}

} // verus!

verus! {

// ---------------------------------------------------------------------------
// Laws of parsing: the operators the parser puts in the tree
// ---------------------------------------------------------------------------

pub open spec fn is_binary_op(tt: TokenType) -> bool {
    level_ops(1).contains(tt) || level_ops(2).contains(tt) || level_ops(3).contains(tt) || level_ops(4).contains(tt)
}

/// How loosely an operator binds: 1 for `*` and `/`, 2 for `+` and `-`, 3
/// for `<`, `<=`, `>` and `>=`, 4 for `==` and `!=`, 5 for `and`, 6 for `or`.
pub open spec fn binding(tt: TokenType) -> int {
    if tt == TokenType::Star || tt == TokenType::Slash {
        1
    } else if tt == TokenType::Plus || tt == TokenType::Minus {
        2
    } else if tt == TokenType::Less || tt == TokenType::LessEqual || tt == TokenType::Greater
        || tt == TokenType::GreaterEqual {
        3
    } else if tt == TokenType::EqualEqual || tt == TokenType::BangEqual {
        4
    } else if tt == TokenType::And {
        5
    } else if tt == TokenType::Or {
        6
    } else {
        7
    }
}

/// How loosely the top of an expression binds: its operator's binding for
/// a binary or logical node, 7 for an assignment, 0 for a unary node, a
/// grouping, a literal or a variable.
pub open spec fn looseness(e: Expr) -> int {
    match e {
        Expr::Binary { left, operator, right } => binding(operator.token_type),
        Expr::Logical { left, operator, right } => binding(operator.token_type),
        Expr::Assignment { name, value } => 7,
        _ => 0,
    }
}

/// Every unary node of `e` applies `!` or `-` to a unary or primary
/// operand, every logical node `and` or `or`, and every binary node an
/// arithmetic, comparison or equality operator; and the tree follows
/// precedence and left associativity: an operand of an operator binds at
/// least as tightly on the left, and strictly more tightly on the right.
/// So `1 + 2 < 3` is `(1 + 2) < 3` and `1 - 2 - 3` is `(1 - 2) - 3`.
pub open spec fn operators_ok(e: Expr) -> bool
    decreases e,
{
    match e {
        Expr::Unary { operator, expression } =>
            (operator.token_type == TokenType::Bang || operator.token_type == TokenType::Minus)
                && looseness(*expression) == 0 && operators_ok(*expression),
        Expr::Binary { left, operator, right } =>
            is_binary_op(operator.token_type) && looseness(*left) <= binding(operator.token_type)
                && looseness(*right) < binding(operator.token_type) && operators_ok(*left) && operators_ok(*right),
        Expr::Logical { left, operator, right } =>
            (operator.token_type == TokenType::And || operator.token_type == TokenType::Or)
                && looseness(*left) <= binding(operator.token_type) && looseness(*right) < binding(operator.token_type)
                && operators_ok(*left) && operators_ok(*right),
        Expr::Grouping { expression } => operators_ok(*expression),
        Expr::Assignment { name, value } => operators_ok(*value),
        Expr::Variable { name } => true,
        Expr::Literal { value } => true,
    }
}

/// `operators_ok` of every expression in a statement.
pub open spec fn stmt_operators_ok(s: Stmt) -> bool
    decreases s, 0int,
{
    match s {
        Stmt::Expression(e) => operators_ok(e),
        Stmt::Print(e) => operators_ok(e),
        Stmt::Var { token, expression } => match expression {
            Some(e) => operators_ok(e),
            None => true,
        },
        Stmt::Block(v) => first_operators_ok(v, v.len() as int),
        Stmt::If { condition, ifblock, elseblock } => operators_ok(condition) && stmt_operators_ok(*ifblock)
            && match elseblock {
                Some(b) => stmt_operators_ok(*b),
                None => true,
            },
        Stmt::While { condition, statement } => operators_ok(condition) && stmt_operators_ok(*statement),
    }
}

/// `stmt_operators_ok` of the first `n` statements of `v`.
pub open spec fn first_operators_ok(v: Seq<Stmt>, n: int) -> bool
    decreases v, n,
{
    if n <= 0 || n > v.len() {
        true
    } else {
        first_operators_ok(v, n - 1) && stmt_operators_ok(v[n - 1])
    }
}

pub open spec fn all_operators_ok(v: Seq<Stmt>) -> bool {
    forall|i: int| 0 <= i < v.len() ==> stmt_operators_ok(#[trigger] v[i])
}

proof fn lemma_first_operators(v: Seq<Stmt>, n: int)
    requires
        0 <= n <= v.len(),
    ensures
        first_operators_ok(v, n) == (forall|i: int| 0 <= i < n ==> stmt_operators_ok(#[trigger] v[i])),
    decreases n,
{
    if n > 0 {
        lemma_first_operators(v, n - 1);
    }
}

/// A block's operators are those of its statements.
pub proof fn lemma_block_operators(v: Seq<Stmt>)
    ensures
        stmt_operators_ok(Stmt::Block(v)) == all_operators_ok(v),
{
    lemma_first_operators(v, v.len() as int);
}


proof fn lemma_primary_ops(t: Seq<Token>, st: PState, fuel: nat)
    ensures
        p_primary(t, st, fuel) matches Parsed::Done(e, _) ==> operators_ok(e) && looseness(e) == 0,
    decreases fuel, 0nat,
{
    if fuel > 0 {
        lemma_expression_ops(t, adv(st), (fuel - 1) as nat);
    }
}

proof fn lemma_unary_ops(t: Seq<Token>, st: PState, fuel: nat)
    ensures
        p_unary(t, st, fuel) matches Parsed::Done(e, _) ==> operators_ok(e) && looseness(e) == 0,
    decreases fuel, 0nat,
{
    if fuel > 0 {
        let f = (fuel - 1) as nat;
        lemma_unary_ops(t, adv(st), f);
        lemma_primary_ops(t, st, f);
        if next_is(t, st.pos, seq![TokenType::Bang, TokenType::Minus]) {
            let tt = t[st.pos].token_type;
            assert(seq![TokenType::Bang, TokenType::Minus].contains(tt));
            assert(tt == TokenType::Bang || tt == TokenType::Minus);
        }
    }
}

proof fn lemma_operand_ops(t: Seq<Token>, st: PState, l: int, fuel: nat)
    requires
        1 <= l <= 6,
    ensures
        p_operand(t, st, l, fuel) matches Parsed::Done(e, _) ==> operators_ok(e) && looseness(e) < l,
    decreases fuel, 1nat,
{
    if l <= 1 {
        lemma_unary_ops(t, st, fuel);
    } else {
        lemma_level_ops(t, st, l - 1, fuel);
    }
}

proof fn lemma_level_ops(t: Seq<Token>, st: PState, l: int, fuel: nat)
    requires
        1 <= l <= 6,
    ensures
        p_level(t, st, l, fuel) matches Parsed::Done(e, _) ==> operators_ok(e) && looseness(e) <= l,
    decreases fuel, 0nat,
{
    if fuel > 0 {
        let f = (fuel - 1) as nat;
        lemma_operand_ops(t, st, l, f);
        if let Parsed::Done(e, st1) = p_operand(t, st, l, f) {
            lemma_level_loop_ops(t, st1, l, e, f);
        }
    }
}

proof fn lemma_level_loop_ops(t: Seq<Token>, st: PState, l: int, left: Expr, fuel: nat)
    requires
        1 <= l <= 6,
        operators_ok(left),
        looseness(left) <= l,
    ensures
        p_level_loop(t, st, l, left, fuel) matches Parsed::Done(e, _) ==> operators_ok(e) && looseness(e) <= l,
    decreases fuel, 0nat,
{
    if fuel > 0 {
        let f = (fuel - 1) as nat;
        if next_is(t, st.pos, level_ops(l)) {
            let op = t[st.pos];
            lemma_operand_ops(t, adv(st), l, f);
            if let Parsed::Done(right, st1) = p_operand(t, adv(st), l, f) {
                let tt = op.token_type;
                assert(level_ops(l).contains(tt));
                if l == 5 {
                    assert(tt == TokenType::And);
                } else if l == 6 {
                    assert(tt == TokenType::Or);
                } else {
                    assert(is_binary_op(tt));
                }
                lemma_level_loop_ops(t, st1, l, combine(l, left, op, right), f);
            }
        }
    }
}

proof fn lemma_assignment_ops(t: Seq<Token>, st: PState, fuel: nat)
    ensures
        p_assignment(t, st, fuel) matches Parsed::Done(e, _) ==> operators_ok(e),
    decreases fuel, 0nat,
{
    if fuel > 0 {
        let f = (fuel - 1) as nat;
        lemma_level_ops(t, st, 6, f);
        if let Parsed::Done(v, st1) = p_level(t, st, 6, f) {
            lemma_assignment_ops(t, adv(st1), f);
        }
    }
}

proof fn lemma_expression_ops(t: Seq<Token>, st: PState, fuel: nat)
    ensures
        p_expression(t, st, fuel) matches Parsed::Done(e, _) ==> operators_ok(e),
    decreases fuel, 0nat,
{
    if fuel > 0 {
        lemma_assignment_ops(t, st, (fuel - 1) as nat);
    }
}

proof fn lemma_expression_statement_ops(t: Seq<Token>, st: PState, fuel: nat)
    ensures
        p_expression_statement(t, st, fuel) matches Parsed::Done(s, _) ==> stmt_operators_ok(s),
    decreases fuel, 0nat,
{
    reveal_with_fuel(p_expression_statement, 1);
    if fuel > 0 {
        lemma_expression_ops(t, st, (fuel - 1) as nat);
    }
}

proof fn lemma_print_statement_ops(t: Seq<Token>, st: PState, fuel: nat)
    ensures
        p_print_statement(t, st, fuel) matches Parsed::Done(s, _) ==> stmt_operators_ok(s),
    decreases fuel, 0nat,
{
    reveal_with_fuel(p_print_statement, 1);
    if fuel > 0 {
        lemma_expression_ops(t, st, (fuel - 1) as nat);
    }
}

proof fn lemma_var_declaration_ops(t: Seq<Token>, st: PState, fuel: nat)
    ensures
        p_var_declaration(t, st, fuel) matches Parsed::Done(s, _) ==> stmt_operators_ok(s),
    decreases fuel, 0nat,
{
    reveal_with_fuel(p_var_declaration, 1);
    if fuel > 0 {
        if let Parsed::Done(name, st1) = consume(t, st, TokenType::Identifier, "Expected a variable name"@) {
            lemma_expression_ops(t, adv(st1), (fuel - 1) as nat);
        }
    }
}

proof fn lemma_declaration_ops(t: Seq<Token>, st: PState, fuel: nat)
    ensures
        p_declaration(t, st, fuel) matches Parsed::Done(Some(s), _) ==> stmt_operators_ok(s),
    decreases fuel, 0nat,
{
    reveal_with_fuel(p_declaration, 1);
    reveal_with_fuel(p_statement, 1);
    reveal_with_fuel(p_block, 1);
    reveal_with_fuel(p_if, 1);
    reveal_with_fuel(p_while, 1);
    reveal_with_fuel(p_declaration, 1);
    reveal_with_fuel(p_statement, 1);
    reveal_with_fuel(p_block, 1);
    reveal_with_fuel(p_if, 1);
    reveal_with_fuel(p_while, 1);
    reveal_with_fuel(p_for, 1);
    if fuel > 0 {
        let f = (fuel - 1) as nat;
        lemma_var_declaration_ops(t, adv(st), f);
        lemma_statement_ops(t, st, f);
    }
}

proof fn lemma_block_ops(t: Seq<Token>, st: PState, acc: Seq<Stmt>, fuel: nat)
    requires
        all_operators_ok(acc),
    ensures
        p_block(t, st, acc, fuel) matches Parsed::Done(v, _) ==> all_operators_ok(v),
    decreases fuel, 0nat,
{
    reveal_with_fuel(p_declaration, 1);
    reveal_with_fuel(p_statement, 1);
    reveal_with_fuel(p_block, 1);
    reveal_with_fuel(p_if, 1);
    reveal_with_fuel(p_while, 1);
    reveal_with_fuel(p_declaration, 1);
    reveal_with_fuel(p_statement, 1);
    reveal_with_fuel(p_block, 1);
    reveal_with_fuel(p_if, 1);
    reveal_with_fuel(p_while, 1);
    reveal_with_fuel(p_for, 1);
    if fuel > 0 {
        let f = (fuel - 1) as nat;
        lemma_declaration_ops(t, st, f);
        if let Parsed::Done(d, st1) = p_declaration(t, st, f) {
            let acc1 = match d {
                Some(s) => acc.push(s),
                None => acc,
            };
            assert(all_operators_ok(acc1));
            lemma_block_ops(t, past(st, st1), acc1, f);
        }
    }
}

proof fn lemma_if_ops(t: Seq<Token>, st: PState, fuel: nat)
    ensures
        p_if(t, st, fuel) matches Parsed::Done(s, _) ==> stmt_operators_ok(s),
    decreases fuel, 0nat,
{
    reveal_with_fuel(p_declaration, 1);
    reveal_with_fuel(p_statement, 1);
    reveal_with_fuel(p_block, 1);
    reveal_with_fuel(p_if, 1);
    reveal_with_fuel(p_while, 1);
    reveal_with_fuel(p_declaration, 1);
    reveal_with_fuel(p_statement, 1);
    reveal_with_fuel(p_block, 1);
    reveal_with_fuel(p_if, 1);
    reveal_with_fuel(p_while, 1);
    reveal_with_fuel(p_for, 1);
    if fuel > 0 {
        let f = (fuel - 1) as nat;
        if let Parsed::Done(_, st1) = consume(t, st, TokenType::LeftParen, "Open paren was not found after the if keyword"@) {
            lemma_expression_ops(t, st1, f);
            if let Parsed::Done(condition, st2) = p_expression(t, st1, f) {
                if let Parsed::Done(_, st3) = consume(t, st2, TokenType::RightParen, "Closing paren was not found"@) {
                    lemma_statement_ops(t, st3, f);
                    if let Parsed::Done(ifblock, st4) = p_statement(t, st3, f) {
                        lemma_statement_ops(t, adv(st4), f);
                    }
                }
            }
        }
    }
}

proof fn lemma_while_ops(t: Seq<Token>, st: PState, fuel: nat)
    ensures
        p_while(t, st, fuel) matches Parsed::Done(s, _) ==> stmt_operators_ok(s),
    decreases fuel, 0nat,
{
    reveal_with_fuel(p_declaration, 1);
    reveal_with_fuel(p_statement, 1);
    reveal_with_fuel(p_block, 1);
    reveal_with_fuel(p_if, 1);
    reveal_with_fuel(p_while, 1);
    reveal_with_fuel(p_declaration, 1);
    reveal_with_fuel(p_statement, 1);
    reveal_with_fuel(p_block, 1);
    reveal_with_fuel(p_if, 1);
    reveal_with_fuel(p_while, 1);
    reveal_with_fuel(p_for, 1);
    if fuel > 0 {
        let f = (fuel - 1) as nat;
        if let Parsed::Done(_, st1) = consume(t, st, TokenType::LeftParen, "Open paren was not found after the for keyword"@) {
            lemma_expression_ops(t, st1, f);
            if let Parsed::Done(condition, st2) = p_expression(t, st1, f) {
                if let Parsed::Done(_, st3) = consume(t, st2, TokenType::RightParen, "Closing paren was not found"@) {
                    lemma_statement_ops(t, st3, f);
                }
            }
        }
    }
}

proof fn lemma_for_init_ops(t: Seq<Token>, st: PState, fuel: nat)
    ensures
        p_for_init(t, st, fuel) matches Parsed::Done(Some(s), _) ==> stmt_operators_ok(s),
    decreases fuel, 0nat,
{
    reveal_with_fuel(p_for_init, 1);
    if fuel > 0 {
        let f = (fuel - 1) as nat;
        lemma_var_declaration_ops(t, adv(st), f);
        lemma_expression_statement_ops(t, st, f);
    }
}

proof fn lemma_clause_ops(t: Seq<Token>, st: PState, stop: TokenType, fuel: nat)
    ensures
        p_clause(t, st, stop, fuel) matches Parsed::Done(Some(e), _) ==> operators_ok(e),
    decreases fuel, 0nat,
{
    reveal_with_fuel(p_clause, 1);
    if fuel > 0 {
        lemma_expression_ops(t, st, (fuel - 1) as nat);
    }
}

proof fn lemma_desugar_for_ops(init: Option<Stmt>, cond: Option<Expr>, change: Option<Expr>, body: Stmt)
    requires
        init matches Some(i) ==> stmt_operators_ok(i),
        cond matches Some(c) ==> operators_ok(c),
        change matches Some(c) ==> operators_ok(c),
        stmt_operators_ok(body),
    ensures
        stmt_operators_ok(desugar_for(init, cond, change, body)),
{
    let condition = match cond {
        Some(c) => c,
        None => Expr::Literal { value: Some(Literal::Bool(true)) },
    };
    let inner = match change {
        Some(c) => seq![body, Stmt::Expression(c)],
        None => seq![body],
    };
    assert(all_operators_ok(inner));
    lemma_block_operators(inner);
    let w = Stmt::While { condition, statement: Box::new(Stmt::Block(inner)) };
    assert(stmt_operators_ok(w));
    match init {
        Some(i) => {
            assert(all_operators_ok(seq![i, w]));
            lemma_block_operators(seq![i, w]);
        },
        None => {
            assert(all_operators_ok(seq![w]));
            lemma_block_operators(seq![w]);
        },
    }
}

proof fn lemma_for_ops(t: Seq<Token>, st: PState, fuel: nat)
    ensures
        p_for(t, st, fuel) matches Parsed::Done(s, _) ==> stmt_operators_ok(s),
    decreases fuel, 0nat,
{
    reveal_with_fuel(p_declaration, 1);
    reveal_with_fuel(p_statement, 1);
    reveal_with_fuel(p_block, 1);
    reveal_with_fuel(p_if, 1);
    reveal_with_fuel(p_while, 1);
    reveal_with_fuel(p_for, 1);
    if fuel > 0 {
        let f = (fuel - 1) as nat;
        if let Parsed::Done(_, st1) = consume(t, st, TokenType::LeftParen, "Open paren was not found after the for keyword"@) {
            lemma_for_init_ops(t, st1, f);
            if let Parsed::Done(init, st2) = p_for_init(t, st1, f) {
                lemma_clause_ops(t, st2, TokenType::Semicolon, f);
                if let Parsed::Done(cond, st3) = p_clause(t, st2, TokenType::Semicolon, f) {
                    if let Parsed::Done(_, st4) = consume(t, st3, TokenType::Semicolon, "Expected semicolon after initializer in for loop"@) {
                        lemma_clause_ops(t, st4, TokenType::RightParen, f);
                        if let Parsed::Done(change, st5) = p_clause(t, st4, TokenType::RightParen, f) {
                            if let Parsed::Done(_, st6) = consume(t, st5, TokenType::RightParen, "Expected closing paren after condition in for loop"@) {
                                lemma_statement_ops(t, st6, f);
                                if let Parsed::Done(body, st7) = p_statement(t, st6, f) {
                                    lemma_desugar_for_ops(init, cond, change, body);
                                }
                            }
                        }
                    }
                }
            }
        }
    }
}

proof fn lemma_statement_ops(t: Seq<Token>, st: PState, fuel: nat)
    ensures
        p_statement(t, st, fuel) matches Parsed::Done(s, _) ==> stmt_operators_ok(s),
    decreases fuel, 0nat,
{
    reveal_with_fuel(p_declaration, 1);
    reveal_with_fuel(p_statement, 1);
    reveal_with_fuel(p_block, 1);
    reveal_with_fuel(p_if, 1);
    reveal_with_fuel(p_while, 1);
    reveal_with_fuel(p_for, 1);
    if fuel > 0 {
        let f = (fuel - 1) as nat;
        lemma_print_statement_ops(t, adv(st), f);
        lemma_block_ops(t, adv(st), Seq::empty(), f);
        if let Parsed::Done(stmts, _) = p_block(t, adv(st), Seq::empty(), f) {
            lemma_block_operators(stmts);
        }
        lemma_if_ops(t, adv(st), f);
        lemma_while_ops(t, adv(st), f);
        lemma_for_ops(t, adv(st), f);
        lemma_expression_statement_ops(t, st, f);
    }
}

proof fn lemma_program_ops(t: Seq<Token>, st: PState, acc: Seq<Stmt>, fuel: nat)
    requires
        all_operators_ok(acc),
    ensures
        p_program(t, st, acc, fuel) matches Parsed::Done(v, _) ==> all_operators_ok(v),
    decreases fuel, 0nat,
{
    reveal_with_fuel(p_program, 1);
    if fuel > 0 && !at_end(t, st.pos) {
        let f = (fuel - 1) as nat;
        lemma_declaration_ops(t, st, f);
        if let Parsed::Done(d, st1) = p_declaration(t, st, f) {
            let acc1 = match d {
                Some(s) => acc.push(s),
                None => acc,
            };
            assert(all_operators_ok(acc1));
            lemma_program_ops(t, past(st, st1), acc1, f);
        }
    }
}

/// The parser puts in the tree only the operators the language has for each
/// kind of node (`!` and `-` for unary nodes, `and` and `or` for logical
/// nodes, arithmetic, comparison and equality operators for binary ones),
/// and groups them by precedence and to the left: `*` `/` bind more
/// tightly than `+` `-`, which bind more tightly than comparisons, then
/// `==` `!=`, then `and`, then `or` (see `operators_ok`).
pub proof fn law_parsed_operators(t: Seq<Token>, st: PState)
    ensures
        parse_result(t, st) matches Parsed::Done(program, _) ==> all_operators_ok(program),
        expression_result(t, st) matches Parsed::Done(e, _) ==> operators_ok(e),
{
    lemma_program_ops(t, st, Seq::empty(), needed(t, st.pos, 22));
    lemma_expression_ops(t, st, needed(t, st.pos, 16));
}

/// A position where recovery after an error stops: the end of the tokens,
/// just after a `;`, or before a keyword that starts a declaration or
/// statement.
pub open spec fn sync_point(t: Seq<Token>, pos: int) -> bool {
    ||| at_end(t, pos)
    ||| (previous(t, pos) matches Some(prev) && prev.token_type == TokenType::Semicolon)
    ||| (0 <= pos < t.len() && seq![
        TokenType::Class,
        TokenType::Fun,
        TokenType::Var,
        TokenType::For,
        TokenType::If,
        TokenType::While,
        TokenType::Print,
        TokenType::Return,
    ].contains(t[pos].token_type))
}

/// Recovery after an error moves forward to the first position, from where it
/// starts, at which it stops: the end of the tokens, just after a `;`, or
/// before a keyword that starts a declaration or statement.
pub proof fn law_synchronize(t: Seq<Token>, pos: int)
    requires
        0 <= pos,
    ensures
        pos <= synchronize(t, pos),
        sync_point(t, synchronize(t, pos)),
        forall|k: int| pos <= k < synchronize(t, pos) ==> !#[trigger] sync_point(t, k),
    decreases t.len() - pos,
{
    if !at_end(t, pos) && !sync_point(t, pos) {
        law_synchronize(t, pos + 1);
        assert forall|k: int| pos <= k < synchronize(t, pos) implies !#[trigger] sync_point(t, k) by {
            if k > pos {
                assert(pos + 1 <= k);
            }
        }
    }
}

/// Expecting a token of type `tt`: where the next token has that type it is
/// returned and passed, and nothing is reported; otherwise nothing is
/// returned, the position stays, and `msg` is reported at the line of the
/// next token (of the last token, at the end of the tokens).
pub proof fn law_consume(t: Seq<Token>, st: PState, tt: TokenType, msg: Seq<char>)
    requires
        t.len() > 0,
    ensures
        !at_end(t, st.pos) && t[st.pos].token_type == tt ==> consume(t, st, tt, msg) == Parsed::Done(
            Some(t[st.pos]),
            PState { pos: st.pos + 1, had_error: st.had_error, errors: st.errors },
        ),
        !(!at_end(t, st.pos) && t[st.pos].token_type == tt) ==> consume(t, st, tt, msg) == Parsed::Done(
            None::<Token>,
            PState {
                pos: st.pos,
                had_error: true,
                errors: st.errors.push(ErrorView::WithLocation {
                    message: msg,
                    line: (if !at_end(t, st.pos) { t[st.pos].line } else { t.last().line }) as u32,
                    col: None,
                }),
            },
        ),
{
}

proof fn lemma_primary_goes_on(t: Seq<Token>, st: PState, fuel: nat)
    requires
        t.len() > 0,
    ensures
        !(p_primary(t, st, fuel) is Stop),
    decreases fuel, 0nat,
{
    if fuel > 0 {
        lemma_expression_goes_on(t, adv(st), (fuel - 1) as nat);
    }
}

proof fn lemma_unary_goes_on(t: Seq<Token>, st: PState, fuel: nat)
    requires
        t.len() > 0,
    ensures
        !(p_unary(t, st, fuel) is Stop),
    decreases fuel, 0nat,
{
    if fuel > 0 {
        lemma_unary_goes_on(t, adv(st), (fuel - 1) as nat);
        lemma_primary_goes_on(t, st, (fuel - 1) as nat);
    }
}

proof fn lemma_operand_goes_on(t: Seq<Token>, st: PState, l: int, fuel: nat)
    requires
        t.len() > 0,
    ensures
        !(p_operand(t, st, l, fuel) is Stop),
    decreases fuel, 1nat,
{
    if l <= 1 {
        lemma_unary_goes_on(t, st, fuel);
    } else {
        lemma_level_goes_on(t, st, l - 1, fuel);
    }
}

proof fn lemma_level_goes_on(t: Seq<Token>, st: PState, l: int, fuel: nat)
    requires
        t.len() > 0,
    ensures
        !(p_level(t, st, l, fuel) is Stop),
    decreases fuel, 0nat,
{
    if fuel > 0 {
        let f = (fuel - 1) as nat;
        lemma_operand_goes_on(t, st, l, f);
        if let Parsed::Done(e, st1) = p_operand(t, st, l, f) {
            lemma_level_loop_goes_on(t, st1, l, e, f);
        }
    }
}

proof fn lemma_level_loop_goes_on(t: Seq<Token>, st: PState, l: int, left: Expr, fuel: nat)
    requires
        t.len() > 0,
    ensures
        !(p_level_loop(t, st, l, left, fuel) is Stop),
    decreases fuel, 0nat,
{
    if fuel > 0 {
        let f = (fuel - 1) as nat;
        if next_is(t, st.pos, level_ops(l)) {
            let op = t[st.pos];
            lemma_operand_goes_on(t, adv(st), l, f);
            if let Parsed::Done(right, st1) = p_operand(t, adv(st), l, f) {
                lemma_level_loop_goes_on(t, st1, l, combine(l, left, op, right), f);
            }
        }
    }
}

proof fn lemma_assignment_goes_on(t: Seq<Token>, st: PState, fuel: nat)
    requires
        t.len() > 0,
    ensures
        !(p_assignment(t, st, fuel) is Stop),
    decreases fuel, 0nat,
{
    if fuel > 0 {
        let f = (fuel - 1) as nat;
        lemma_level_goes_on(t, st, 6, f);
        if let Parsed::Done(v, st1) = p_level(t, st, 6, f) {
            lemma_assignment_goes_on(t, adv(st1), f);
        }
    }
}

proof fn lemma_expression_goes_on(t: Seq<Token>, st: PState, fuel: nat)
    requires
        t.len() > 0,
    ensures
        !(p_expression(t, st, fuel) is Stop),
    decreases fuel, 0nat,
{
    if fuel > 0 {
        lemma_assignment_goes_on(t, st, (fuel - 1) as nat);
    }
}

proof fn lemma_expression_statement_goes_on(t: Seq<Token>, st: PState, fuel: nat)
    requires
        t.len() > 0,
    ensures
        !(p_expression_statement(t, st, fuel) is Stop),
    decreases fuel, 0nat,
{
    reveal_with_fuel(p_expression_statement, 1);
    if fuel > 0 {
        lemma_expression_goes_on(t, st, (fuel - 1) as nat);
    }
}

proof fn lemma_print_statement_goes_on(t: Seq<Token>, st: PState, fuel: nat)
    requires
        t.len() > 0,
    ensures
        !(p_print_statement(t, st, fuel) is Stop),
    decreases fuel, 0nat,
{
    reveal_with_fuel(p_print_statement, 1);
    if fuel > 0 {
        lemma_expression_goes_on(t, st, (fuel - 1) as nat);
    }
}

proof fn lemma_var_declaration_goes_on(t: Seq<Token>, st: PState, fuel: nat)
    requires
        t.len() > 0,
    ensures
        !(p_var_declaration(t, st, fuel) is Stop),
    decreases fuel, 0nat,
{
    reveal_with_fuel(p_var_declaration, 1);
    if fuel > 0 {
        if let Parsed::Done(name, st1) = consume(t, st, TokenType::Identifier, "Expected a variable name"@) {
            lemma_expression_goes_on(t, adv(st1), (fuel - 1) as nat);
        }
    }
}

proof fn lemma_declaration_goes_on(t: Seq<Token>, st: PState, fuel: nat)
    requires
        t.len() > 0,
    ensures
        !(p_declaration(t, st, fuel) is Stop),
    decreases fuel, 0nat,
{
    reveal_with_fuel(p_declaration, 1);
    reveal_with_fuel(p_statement, 1);
    reveal_with_fuel(p_block, 1);
    reveal_with_fuel(p_if, 1);
    reveal_with_fuel(p_while, 1);
    reveal_with_fuel(p_for, 1);
    if fuel > 0 {
        let f = (fuel - 1) as nat;
        lemma_var_declaration_goes_on(t, adv(st), f);
        lemma_statement_goes_on(t, st, f);
    }
}

proof fn lemma_block_goes_on(t: Seq<Token>, st: PState, acc: Seq<Stmt>, fuel: nat)
    requires
        t.len() > 0,
    ensures
        !(p_block(t, st, acc, fuel) is Stop),
    decreases fuel, 0nat,
{
    reveal_with_fuel(p_declaration, 1);
    reveal_with_fuel(p_statement, 1);
    reveal_with_fuel(p_block, 1);
    reveal_with_fuel(p_if, 1);
    reveal_with_fuel(p_while, 1);
    reveal_with_fuel(p_for, 1);
    if fuel > 0 {
        let f = (fuel - 1) as nat;
        lemma_declaration_goes_on(t, st, f);
        if let Parsed::Done(d, st1) = p_declaration(t, st, f) {
            lemma_block_goes_on(t, past(st, st1), match d { Some(s) => acc.push(s), None => acc }, f);
        }
    }
}

proof fn lemma_if_goes_on(t: Seq<Token>, st: PState, fuel: nat)
    requires
        t.len() > 0,
    ensures
        !(p_if(t, st, fuel) is Stop),
    decreases fuel, 0nat,
{
    reveal_with_fuel(p_declaration, 1);
    reveal_with_fuel(p_statement, 1);
    reveal_with_fuel(p_block, 1);
    reveal_with_fuel(p_if, 1);
    reveal_with_fuel(p_while, 1);
    reveal_with_fuel(p_for, 1);
    if fuel > 0 {
        let f = (fuel - 1) as nat;
        if let Parsed::Done(_, st1) = consume(t, st, TokenType::LeftParen, "Open paren was not found after the if keyword"@) {
            lemma_expression_goes_on(t, st1, f);
            if let Parsed::Done(condition, st2) = p_expression(t, st1, f) {
                if let Parsed::Done(_, st3) = consume(t, st2, TokenType::RightParen, "Closing paren was not found"@) {
                    lemma_statement_goes_on(t, st3, f);
                    if let Parsed::Done(ifblock, st4) = p_statement(t, st3, f) {
                        lemma_statement_goes_on(t, adv(st4), f);
                    }
                }
            }
        }
    }
}

proof fn lemma_while_goes_on(t: Seq<Token>, st: PState, fuel: nat)
    requires
        t.len() > 0,
    ensures
        !(p_while(t, st, fuel) is Stop),
    decreases fuel, 0nat,
{
    reveal_with_fuel(p_declaration, 1);
    reveal_with_fuel(p_statement, 1);
    reveal_with_fuel(p_block, 1);
    reveal_with_fuel(p_if, 1);
    reveal_with_fuel(p_while, 1);
    reveal_with_fuel(p_for, 1);
    if fuel > 0 {
        let f = (fuel - 1) as nat;
        if let Parsed::Done(_, st1) = consume(t, st, TokenType::LeftParen, "Open paren was not found after the for keyword"@) {
            lemma_expression_goes_on(t, st1, f);
            if let Parsed::Done(condition, st2) = p_expression(t, st1, f) {
                if let Parsed::Done(_, st3) = consume(t, st2, TokenType::RightParen, "Closing paren was not found"@) {
                    lemma_statement_goes_on(t, st3, f);
                }
            }
        }
    }
}

proof fn lemma_for_init_goes_on(t: Seq<Token>, st: PState, fuel: nat)
    requires
        t.len() > 0,
    ensures
        !(p_for_init(t, st, fuel) is Stop),
    decreases fuel, 0nat,
{
    reveal_with_fuel(p_for_init, 1);
    if fuel > 0 {
        let f = (fuel - 1) as nat;
        lemma_var_declaration_goes_on(t, adv(st), f);
        lemma_expression_statement_goes_on(t, st, f);
    }
}

proof fn lemma_clause_goes_on(t: Seq<Token>, st: PState, stop: TokenType, fuel: nat)
    requires
        t.len() > 0,
    ensures
        !(p_clause(t, st, stop, fuel) is Stop),
    decreases fuel, 0nat,
{
    reveal_with_fuel(p_clause, 1);
    if fuel > 0 {
        lemma_expression_goes_on(t, st, (fuel - 1) as nat);
    }
}

proof fn lemma_for_goes_on(t: Seq<Token>, st: PState, fuel: nat)
    requires
        t.len() > 0,
    ensures
        !(p_for(t, st, fuel) is Stop),
    decreases fuel, 0nat,
{
    reveal_with_fuel(p_declaration, 1);
    reveal_with_fuel(p_statement, 1);
    reveal_with_fuel(p_block, 1);
    reveal_with_fuel(p_if, 1);
    reveal_with_fuel(p_while, 1);
    reveal_with_fuel(p_for, 1);
    if fuel > 0 {
        let f = (fuel - 1) as nat;
        if let Parsed::Done(_, st1) = consume(t, st, TokenType::LeftParen, "Open paren was not found after the for keyword"@) {
            lemma_for_init_goes_on(t, st1, f);
            if let Parsed::Done(init, st2) = p_for_init(t, st1, f) {
                lemma_clause_goes_on(t, st2, TokenType::Semicolon, f);
                if let Parsed::Done(cond, st3) = p_clause(t, st2, TokenType::Semicolon, f) {
                    if let Parsed::Done(_, st4) = consume(t, st3, TokenType::Semicolon, "Expected semicolon after initializer in for loop"@) {
                        lemma_clause_goes_on(t, st4, TokenType::RightParen, f);
                        if let Parsed::Done(change, st5) = p_clause(t, st4, TokenType::RightParen, f) {
                            if let Parsed::Done(_, st6) = consume(t, st5, TokenType::RightParen, "Expected closing paren after condition in for loop"@) {
                                lemma_statement_goes_on(t, st6, f);
                            }
                        }
                    }
                }
            }
        }
    }
}

proof fn lemma_statement_goes_on(t: Seq<Token>, st: PState, fuel: nat)
    requires
        t.len() > 0,
    ensures
        !(p_statement(t, st, fuel) is Stop),
    decreases fuel, 0nat,
{
    reveal_with_fuel(p_declaration, 1);
    reveal_with_fuel(p_statement, 1);
    reveal_with_fuel(p_block, 1);
    reveal_with_fuel(p_if, 1);
    reveal_with_fuel(p_while, 1);
    reveal_with_fuel(p_for, 1);
    if fuel > 0 {
        let f = (fuel - 1) as nat;
        lemma_print_statement_goes_on(t, adv(st), f);
        lemma_block_goes_on(t, adv(st), Seq::empty(), f);
        lemma_if_goes_on(t, adv(st), f);
        lemma_while_goes_on(t, adv(st), f);
        lemma_for_goes_on(t, adv(st), f);
        lemma_expression_statement_goes_on(t, st, f);
    }
}

proof fn lemma_program_goes_on(t: Seq<Token>, st: PState, acc: Seq<Stmt>, fuel: nat)
    requires
        t.len() > 0,
    ensures
        !(p_program(t, st, acc, fuel) is Stop),
    decreases fuel, 0nat,
{
    reveal_with_fuel(p_program, 1);
    if fuel > 0 && !at_end(t, st.pos) {
        let f = (fuel - 1) as nat;
        lemma_declaration_goes_on(t, st, f);
        if let Parsed::Done(d, st1) = p_declaration(t, st, f) {
            lemma_program_goes_on(t, past(st, st1), match d { Some(s) => acc.push(s), None => acc }, f);
        }
    }
}

/// Parsing stops only where there are no tokens at all: over any tokens it
/// reports what it finds and goes on to the end.
pub proof fn law_parse_goes_on(t: Seq<Token>, st: PState)
    requires
        t.len() > 0,
    ensures
        !(parse_result(t, st) is Stop),
        !(expression_result(t, st) is Stop),
{
    lemma_program_goes_on(t, st, Seq::empty(), needed(t, st.pos, 22));
    lemma_expression_goes_on(t, st, needed(t, st.pos, 16));
}

} // verus!
