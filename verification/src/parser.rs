use vstd::prelude::*;
use crate::ast::{Expr, Statement, Stmt, stmt_view, stmts_view, lemma_stmts_view_push, lemma_stmts_view_empty};
use crate::error::{ErrorKind, ErrorView, Halt, Lox, report};
use crate::grammar::{keeps_errors, group_keeps_errors, failed, PState, Parsed, at_end, check, next_is, previous, consume, needed, p_primary, p_unary, p_expression, p_level, p_level_loop, p_operand, p_assignment, level_ops, combine, adv, err, synchronize, p_expression_statement, p_print_statement, p_var_declaration, p_declaration, p_block, p_if, p_while, p_for, p_for_init, p_clause, p_statement, p_program, past, desugar_for, parse_result, expression_result, law_parse_goes_on, law_consume, law_synchronize, sync_point};
use crate::token::{Literal, Token, TokenType};

verus! {

broadcast use group_keeps_errors;

/// The parse state of a parser together with an error state.
pub open spec fn pstate(p: &Parser, lox: &Lox) -> PState {
    PState { pos: p.position(), had_error: lox.had_error, errors: lox.errors() }
}

pub open spec fn agrees_expr(r: Result<Expr, Halt>, out: Parsed<Expr>, st: PState) -> bool {
    match out {
        Parsed::Done(e, s) => r == Ok::<Expr, Halt>(e) && st == s,
        Parsed::Stop(h) => r == Err::<Expr, Halt>(h),
        Parsed::OutOfFuel => false,
    }
}

pub open spec fn agrees_token(r: Result<Option<Token>, Halt>, out: Parsed<Option<Token>>, st: PState) -> bool {
    match out {
        Parsed::Done(e, s) => r == Ok::<Option<Token>, Halt>(e) && st == s,
        Parsed::Stop(h) => r == Err::<Option<Token>, Halt>(h),
        Parsed::OutOfFuel => false,
    }
}

pub open spec fn agrees_stmt(r: Result<Statement, Halt>, out: Parsed<Stmt>, st: PState) -> bool {
    match out {
        Parsed::Done(e, s) => r is Ok && stmt_view(r->Ok_0) == e && st == s,
        Parsed::Stop(h) => r == Err::<Statement, Halt>(h),
        Parsed::OutOfFuel => false,
    }
}

pub open spec fn agrees_decl(r: Result<Option<Statement>, Halt>, out: Parsed<Option<Stmt>>, st: PState) -> bool {
    match out {
        Parsed::Done(e, s) => r is Ok && st == s && match r->Ok_0 {
            Some(x) => e == Some(stmt_view(x)),
            None => e is None,
        },
        Parsed::Stop(h) => r == Err::<Option<Statement>, Halt>(h),
        Parsed::OutOfFuel => false,
    }
}

pub open spec fn agrees_stmts(r: Result<Vec<Statement>, Halt>, out: Parsed<Seq<Stmt>>, st: PState) -> bool {
    match out {
        Parsed::Done(e, s) => r is Ok && stmts_view(r->Ok_0@) == e && st == s,
        Parsed::Stop(h) => r == Err::<Vec<Statement>, Halt>(h),
        Parsed::OutOfFuel => false,
    }
}

fn clone_literal(o: &Option<Literal>) -> (r: Option<Literal>)
    ensures
        r == *o,
{
    match o {
        Some(l) => Some(l.clone()),
        None => None,
    }
}


/// Builds the statement that a `for` loop stands for.
fn desugar(initializer: Option<Statement>, condition: Option<Expr>, change: Option<Expr>, body: Statement) -> (r: Statement)
    ensures
        stmt_view(r) == desugar_for(
            match initializer {
                Some(i) => Some(stmt_view(i)),
                None => None,
            },
            condition,
            change,
            stmt_view(body),
        ),
{
        let ghost init_view: Option<Stmt> = match &initializer {
            Some(i) => Some(stmt_view(*i)),
            None => None,
        };
        let ghost body_view = stmt_view(body);
        let mut statements: Vec<Statement> = Vec::new();
        proof {
            lemma_stmts_view_empty();
        }
        match initializer {
            Some(stmt) => {
                proof {
                    lemma_stmts_view_push(statements@, stmt);
                }
                statements.push(stmt);
            },
            None => {},
        }
        let mut body_and_change: Vec<Statement> = Vec::new();
        proof {
            lemma_stmts_view_push(body_and_change@, body);
        }
        body_and_change.push(body);
        match change {
            Some(change) => {
                let s = Statement::ExprStatement(change);
                proof {
                    lemma_stmts_view_push(body_and_change@, s);
                }
                body_and_change.push(s);
            },
            None => {},
        }
        let ghost change_view = change;
        let condition = match condition {
            Some(c) => c,
            None => Expr::Literal { value: Some(Literal::Bool(true)) },
        };
        let ghost cond_e = condition;
        let w = Statement::WhileStatement { condition, statement: Box::new(Statement::BlockStatement(body_and_change)) };
        proof {
            let inner = match change_view {
                Some(c) => seq![body_view, Stmt::Expression(c)],
                None => seq![body_view],
            };
            assert(stmts_view(body_and_change@) =~= inner);
            reveal_with_fuel(stmt_view, 2);
            assert(stmt_view(w) == Stmt::While {
                condition: cond_e,
                statement: Box::new(Stmt::Block(inner)),
            });
            lemma_stmts_view_push(statements@, w);
        }
        statements.push(w);
        proof {
            match init_view {
                Some(i) => {
                    assert(stmts_view(statements@) =~= seq![i, stmt_view(w)]);
                },
                None => {
                    assert(stmts_view(statements@) =~= seq![stmt_view(w)]);
                },
            }
        }
        Statement::BlockStatement(statements)
}

/// A recursive-descent parser over a token sequence.
pub struct Parser {
    tokens: Vec<Token>,
    current: usize,
}

impl Parser {
    #[verifier::type_invariant]
    closed spec fn inv(&self) -> bool {
        self.current <= self.tokens@.len()
    }

    /// The tokens being parsed.
    pub closed spec fn token_seq(&self) -> Seq<Token> {
        self.tokens@
    }

    /// The index of the next token.
    pub closed spec fn position(&self) -> int {
        self.current as int
    }

    pub fn init(tokens: Vec<Token>) -> (r: Self)
        ensures
            r.token_seq() == tokens@,
            r.position() == 0,
    {
        Self { tokens, current: 0 }
    }

    fn is_at_end(&self) -> (r: bool)
        ensures
            r == at_end(self.token_seq(), self.position()),
    {
        if self.current >= self.tokens.len() || self.tokens[self.current].token_type == TokenType::Eof {
            return true;
        }
        false
    }

    fn check(&self, check_type: &TokenType) -> (r: bool)
        ensures
            r == check(self.token_seq(), self.position(), *check_type),
    {
        if self.is_at_end() {
            return false;
        }
        self.tokens[self.current].token_type == *check_type
    }

    fn peek(&self) -> (r: Option<&Token>)
        ensures
            r is Some <==> !at_end(self.token_seq(), self.position()),
            r is Some ==> *r->0 == self.token_seq()[self.position()],
    {
        if self.is_at_end() {
            return None;
        }
        Some(&self.tokens[self.current])
    }

    fn previous_token(&self) -> (r: Option<&Token>)
        ensures
            r is Some <==> previous(self.token_seq(), self.position()) is Some,
            r is Some ==> *r->0 == previous(self.token_seq(), self.position())->0,
    {
        if self.current == 0 || self.current > self.tokens.len() {
            return None;
        }
        Some(&self.tokens[self.current - 1])
    }

    fn advance(&mut self)
        ensures
            final(self).token_seq() == old(self).token_seq(),
            final(self).position() == if at_end(old(self).token_seq(), old(self).position()) {
                old(self).position()
            } else {
                old(self).position() + 1
            },
    {
        proof {
            use_type_invariant(&*self);
        }
        if self.current < self.tokens.len() && !self.is_at_end() {
            self.current = self.current + 1;
        }
    }

    fn match_types(&mut self, types: Vec<TokenType>) -> (r: bool)
        ensures
            final(self).token_seq() == old(self).token_seq(),
            r == next_is(old(self).token_seq(), old(self).position(), types@),
            final(self).position() == old(self).position() + if r { 1int } else { 0int },
    {
        let mut i: usize = 0;
        while i < types.len()
            invariant
                self.token_seq() == old(self).token_seq(),
                self.position() == old(self).position(),
                0 <= i <= types@.len(),
                forall|j: int| 0 <= j < i ==> !check(self.token_seq(), self.position(), #[trigger] types@[j]),
            decreases types@.len() - i,
        {
            if self.check(&types[i]) {
                self.advance();
                return true;
            }
            i = i + 1;
        }
        false
    }

    fn consume(&mut self, lox: &mut Lox, token_type: TokenType, message: &str) -> (r: Result<Option<Token>, Halt>)
        ensures
            keeps_errors(old(lox).errors(), final(lox).errors()),
            final(self).token_seq() == old(self).token_seq(),
            final(self).position() >= old(self).position(),
            agrees_token(r, consume(old(self).token_seq(), pstate(old(self), old(lox)), token_type, message@),
                pstate(final(self), final(lox))),
            old(self).token_seq().len() > 0 && check(old(self).token_seq(), old(self).position(), token_type) ==> {
                &&& r == Ok::<Option<Token>, Halt>(Some(old(self).token_seq()[old(self).position()]))
                &&& final(self).position() == old(self).position() + 1
                &&& final(lox).had_error == old(lox).had_error
                &&& final(lox).errors() == old(lox).errors()
            },
            old(self).token_seq().len() > 0 && !check(old(self).token_seq(), old(self).position(), token_type) ==> {
                &&& r == Ok::<Option<Token>, Halt>(None)
                &&& final(self).position() == old(self).position()
                &&& final(lox).had_error
                &&& final(lox).errors() == old(lox).errors().push(ErrorView::WithLocation {
                    message: message@,
                    line: (if !at_end(old(self).token_seq(), old(self).position()) {
                        old(self).token_seq()[old(self).position()].line
                    } else {
                        old(self).token_seq().last().line
                    }) as u32,
                    col: None,
                })
            },
    {
        proof {
            if self.token_seq().len() > 0 {
                law_consume(self.token_seq(), pstate(self, lox), token_type, message@);
            }
        }
        if self.check(&token_type) {
            self.advance();
            return Ok(Some(self.previous_token().unwrap().clone()));
        }
        if self.tokens.len() == 0 {
            return Err(Halt::Panic);
        }
        let line = match self.peek() {
            Some(t) => t.line,
            None => self.tokens[self.tokens.len() - 1].line,
        };
        report(lox, ErrorKind::WithLocation { message: message.to_owned(), line: #[verifier::truncate] (line as u32), col: None });
        Ok(None)
    }

    fn primary(&mut self, lox: &mut Lox, Ghost(fuel): Ghost<nat>) -> (r: Result<Expr, Halt>)
        requires
            fuel >= needed(old(self).token_seq(), old(self).position(), 1),
        ensures
            keeps_errors(old(lox).errors(), final(lox).errors()),
            final(self).token_seq() == old(self).token_seq(),
            final(self).position() >= old(self).position(),
            agrees_expr(r, p_primary(old(self).token_seq(), pstate(old(self), old(lox)), fuel), pstate(final(self), final(lox))),
        decreases fuel, 0nat,
    {
        proof {
            use_type_invariant(&*self);
        }
        if self.match_types(vec![TokenType::Number, TokenType::String, TokenType::Nil]) {
            return Ok(Expr::Literal { value: clone_literal(&self.previous_token().unwrap().literal) });
        }
        if self.match_types(vec![TokenType::False]) {
            return Ok(Expr::Literal { value: Some(Literal::Bool(false)) });
        }
        if self.match_types(vec![TokenType::True]) {
            return Ok(Expr::Literal { value: Some(Literal::Bool(true)) });
        }
        if self.match_types(vec![TokenType::Identifier]) {
            return Ok(Expr::Variable { name: self.previous_token().unwrap().clone() });
        }
        if self.match_types(vec![TokenType::LeftParen]) {
            let expr = self.parse_expression(lox, Ghost((fuel - 1) as nat))?;
            self.consume(lox, TokenType::RightParen, "Expect ')' after expression.")?;
            return Ok(Expr::Grouping { expression: Box::new(expr) });
        }
        let line = match self.peek() {
            Some(token) => token.line,
            None => {
                if self.tokens.len() == 0 {
                    return Err(Halt::Panic);
                }
                self.tokens[self.tokens.len() - 1].line
            },
        };
        report(lox, ErrorKind::WithLocation { message: "Expect expression.".to_owned(), line: #[verifier::truncate] (line as u32), col: None });
        Ok(Expr::Literal { value: None })
    }

    fn unary(&mut self, lox: &mut Lox, Ghost(fuel): Ghost<nat>) -> (r: Result<Expr, Halt>)
        requires
            fuel >= needed(old(self).token_seq(), old(self).position(), 2),
        ensures
            keeps_errors(old(lox).errors(), final(lox).errors()),
            final(self).token_seq() == old(self).token_seq(),
            final(self).position() >= old(self).position(),
            agrees_expr(r, p_unary(old(self).token_seq(), pstate(old(self), old(lox)), fuel), pstate(final(self), final(lox))),
        decreases fuel, 0nat,
    {
        proof {
            use_type_invariant(&*self);
        }
        if self.match_types(vec![TokenType::Bang, TokenType::Minus]) {
            let operation = self.previous_token().unwrap().clone();
            let mut inner = self.unary(lox, Ghost((fuel - 1) as nat))?;
            inner = Expr::Unary { operator: operation, expression: Box::new(inner) };
            Ok(inner)
        } else {
            self.primary(lox, Ghost((fuel - 1) as nat))
        }
    }

    fn parse_expression(&mut self, lox: &mut Lox, Ghost(fuel): Ghost<nat>) -> (r: Result<Expr, Halt>)
        requires
            fuel >= needed(old(self).token_seq(), old(self).position(), 16),
        ensures
            keeps_errors(old(lox).errors(), final(lox).errors()),
            final(self).token_seq() == old(self).token_seq(),
            final(self).position() >= old(self).position(),
            agrees_expr(r, p_expression(old(self).token_seq(), pstate(old(self), old(lox)), fuel), pstate(final(self), final(lox))),
        decreases fuel, 0nat,
    {
        proof {
            use_type_invariant(&*self);
        }
        self.assignment(lox, Ghost((fuel - 1) as nat))
    }

    fn assignment(&mut self, lox: &mut Lox, Ghost(fuel): Ghost<nat>) -> (r: Result<Expr, Halt>)
        requires
            fuel >= needed(old(self).token_seq(), old(self).position(), 15),
        ensures
            keeps_errors(old(lox).errors(), final(lox).errors()),
            final(self).token_seq() == old(self).token_seq(),
            final(self).position() >= old(self).position(),
            agrees_expr(r, p_assignment(old(self).token_seq(), pstate(old(self), old(lox)), fuel), pstate(final(self), final(lox))),
        decreases fuel, 0nat,
    {
        proof {
            use_type_invariant(&*self);
        }
        let ghost t = self.token_seq();
        let variable = self.logical_or(lox, Ghost((fuel - 1) as nat))?;
        let ghost st1 = pstate(self, lox);
        let types = vec![TokenType::Equal];
        assert(types@ =~= seq![TokenType::Equal]);
        if self.match_types(types) {
            let line_no = self.previous_token().unwrap().line;
            assert(line_no == t[st1.pos].line);
            assert(next_is(t, st1.pos, seq![TokenType::Equal]));
            assert(p_level(t, pstate(old(self), old(lox)), 6, (fuel - 1) as nat) == Parsed::Done(variable, st1));
            assert(p_assignment(t, pstate(old(self), old(lox)), fuel) == match p_assignment(t, adv(st1), (fuel - 1) as nat) {
                Parsed::Done(rem, st2) => match variable {
                    Expr::Variable { name } => Parsed::Done(Expr::Assignment { name, value: Box::new(rem) }, st2),
                    _ => Parsed::Done(variable, err(st2, "Cant assign to something that is not a variable"@, line_no)),
                },
                other => other,
            });
            let remaining = self.assignment(lox, Ghost((fuel - 1) as nat))?;
            match variable {
                Expr::Variable { name } => {
                    return Ok(Expr::Assignment { name, value: Box::new(remaining) });
                },
                other => {
                    let error = ErrorKind::WithLocation {
                        message: "Cant assign to something that is not a variable".to_owned(),
                        line: #[verifier::truncate] (line_no as u32),
                        col: None,
                    };
                    let ghost before = lox.errors();
                    report(lox, error);
                    assert(keeps_errors(before, lox.errors()));
                    return Ok(other);
                },
            }
        }
        Ok(variable)
    }

    fn logical_or(&mut self, lox: &mut Lox, Ghost(fuel): Ghost<nat>) -> (r: Result<Expr, Halt>)
        requires
            fuel >= needed(old(self).token_seq(), old(self).position(), 14),
        ensures
            keeps_errors(old(lox).errors(), final(lox).errors()),
            final(self).token_seq() == old(self).token_seq(),
            final(self).position() >= old(self).position(),
            agrees_expr(r, p_level(old(self).token_seq(), pstate(old(self), old(lox)), 6, fuel), pstate(final(self), final(lox))),
        decreases fuel, 0nat,
    {
        proof {
            use_type_invariant(&*self);
        }
        let ghost t = self.token_seq();
        let ghost target = p_level(t, pstate(self, lox), 6, fuel);
        let mut expr = self.logical_and(lox, Ghost((fuel - 1) as nat))?;
        let ghost mut g: nat = (fuel - 1) as nat;
        proof {
            use_type_invariant(&*self);
        }
        loop
            invariant
                self.token_seq() == t,
                t == old(self).token_seq(),
                keeps_errors(old(lox).errors(), lox.errors()),
                self.position() <= t.len(),
                self.position() >= old(self).position(),
                g < fuel,
                g >= needed(t, self.position(), 13),
                target == p_level(old(self).token_seq(), pstate(old(self), old(lox)), 6, fuel),
                p_level_loop(t, pstate(self, lox), 6, expr, g) == target,
            ensures
                self.token_seq() == t,
                keeps_errors(old(lox).errors(), lox.errors()),
                self.position() >= old(self).position(),
                target == Parsed::Done(expr, pstate(self, lox)),
            decreases g,
        {
            proof {
                use_type_invariant(&*self);
            }
            let ghost head = pstate(self, lox);
            if !self.match_types(vec![TokenType::Or]) {
                break;
            }
            let operation = self.previous_token().unwrap().clone();
            assert(operation == t[head.pos]);
            let ghost e0 = expr;
            assert(p_level_loop(t, head, 6, e0, g) == match p_operand(t, adv(head), 6, (g - 1) as nat) {
                Parsed::Done(right, st1) => p_level_loop(t, st1, 6, combine(6, e0, operation, right), (g - 1) as nat),
                other => other,
            });
            assert(p_operand(t, adv(head), 6, (g - 1) as nat) == p_level(t, adv(head), 5, (g - 1) as nat));
            let inner = self.logical_and(lox, Ghost((g - 1) as nat))?;
            expr = Expr::Logical { left: Box::new(expr), operator: operation, right: Box::new(inner) };
            proof {
                use_type_invariant(&*self);
                g = (g - 1) as nat;
            }
        }
        Ok(expr)
    }

    fn logical_and(&mut self, lox: &mut Lox, Ghost(fuel): Ghost<nat>) -> (r: Result<Expr, Halt>)
        requires
            fuel >= needed(old(self).token_seq(), old(self).position(), 12),
        ensures
            keeps_errors(old(lox).errors(), final(lox).errors()),
            final(self).token_seq() == old(self).token_seq(),
            final(self).position() >= old(self).position(),
            agrees_expr(r, p_level(old(self).token_seq(), pstate(old(self), old(lox)), 5, fuel), pstate(final(self), final(lox))),
        decreases fuel, 0nat,
    {
        proof {
            use_type_invariant(&*self);
        }
        let ghost t = self.token_seq();
        let ghost target = p_level(t, pstate(self, lox), 5, fuel);
        let mut expr = self.equality(lox, Ghost((fuel - 1) as nat))?;
        let ghost mut g: nat = (fuel - 1) as nat;
        proof {
            use_type_invariant(&*self);
        }
        loop
            invariant
                self.token_seq() == t,
                t == old(self).token_seq(),
                keeps_errors(old(lox).errors(), lox.errors()),
                self.position() <= t.len(),
                self.position() >= old(self).position(),
                g < fuel,
                g >= needed(t, self.position(), 11),
                target == p_level(old(self).token_seq(), pstate(old(self), old(lox)), 5, fuel),
                p_level_loop(t, pstate(self, lox), 5, expr, g) == target,
            ensures
                self.token_seq() == t,
                keeps_errors(old(lox).errors(), lox.errors()),
                self.position() >= old(self).position(),
                target == Parsed::Done(expr, pstate(self, lox)),
            decreases g,
        {
            proof {
                use_type_invariant(&*self);
            }
            let ghost head = pstate(self, lox);
            if !self.match_types(vec![TokenType::And]) {
                break;
            }
            let operation = self.previous_token().unwrap().clone();
            assert(operation == t[head.pos]);
            let ghost e0 = expr;
            assert(p_level_loop(t, head, 5, e0, g) == match p_operand(t, adv(head), 5, (g - 1) as nat) {
                Parsed::Done(right, st1) => p_level_loop(t, st1, 5, combine(5, e0, operation, right), (g - 1) as nat),
                other => other,
            });
            assert(p_operand(t, adv(head), 5, (g - 1) as nat) == p_level(t, adv(head), 4, (g - 1) as nat));
            let inner = self.equality(lox, Ghost((g - 1) as nat))?;
            expr = Expr::Logical { left: Box::new(expr), operator: operation, right: Box::new(inner) };
            proof {
                use_type_invariant(&*self);
                g = (g - 1) as nat;
            }
        }
        Ok(expr)
    }

    fn equality(&mut self, lox: &mut Lox, Ghost(fuel): Ghost<nat>) -> (r: Result<Expr, Halt>)
        requires
            fuel >= needed(old(self).token_seq(), old(self).position(), 10),
        ensures
            keeps_errors(old(lox).errors(), final(lox).errors()),
            final(self).token_seq() == old(self).token_seq(),
            final(self).position() >= old(self).position(),
            agrees_expr(r, p_level(old(self).token_seq(), pstate(old(self), old(lox)), 4, fuel), pstate(final(self), final(lox))),
        decreases fuel, 0nat,
    {
        proof {
            use_type_invariant(&*self);
        }
        let ghost t = self.token_seq();
        let ghost target = p_level(t, pstate(self, lox), 4, fuel);
        let mut expr = self.comparison(lox, Ghost((fuel - 1) as nat))?;
        let ghost mut g: nat = (fuel - 1) as nat;
        proof {
            use_type_invariant(&*self);
        }
        loop
            invariant
                self.token_seq() == t,
                t == old(self).token_seq(),
                keeps_errors(old(lox).errors(), lox.errors()),
                self.position() <= t.len(),
                self.position() >= old(self).position(),
                g < fuel,
                g >= needed(t, self.position(), 9),
                target == p_level(old(self).token_seq(), pstate(old(self), old(lox)), 4, fuel),
                p_level_loop(t, pstate(self, lox), 4, expr, g) == target,
            ensures
                self.token_seq() == t,
                keeps_errors(old(lox).errors(), lox.errors()),
                self.position() >= old(self).position(),
                target == Parsed::Done(expr, pstate(self, lox)),
            decreases g,
        {
            proof {
                use_type_invariant(&*self);
            }
            let ghost head = pstate(self, lox);
            if !self.match_types(vec![TokenType::BangEqual, TokenType::EqualEqual]) {
                break;
            }
            let operation = self.previous_token().unwrap().clone();
            assert(operation == t[head.pos]);
            let ghost e0 = expr;
            assert(p_level_loop(t, head, 4, e0, g) == match p_operand(t, adv(head), 4, (g - 1) as nat) {
                Parsed::Done(right, st1) => p_level_loop(t, st1, 4, combine(4, e0, operation, right), (g - 1) as nat),
                other => other,
            });
            assert(p_operand(t, adv(head), 4, (g - 1) as nat) == p_level(t, adv(head), 3, (g - 1) as nat));
            let inner = self.comparison(lox, Ghost((g - 1) as nat))?;
            expr = Expr::Binary { left: Box::new(expr), operator: operation, right: Box::new(inner) };
            proof {
                use_type_invariant(&*self);
                g = (g - 1) as nat;
            }
        }
        Ok(expr)
    }

    fn comparison(&mut self, lox: &mut Lox, Ghost(fuel): Ghost<nat>) -> (r: Result<Expr, Halt>)
        requires
            fuel >= needed(old(self).token_seq(), old(self).position(), 8),
        ensures
            keeps_errors(old(lox).errors(), final(lox).errors()),
            final(self).token_seq() == old(self).token_seq(),
            final(self).position() >= old(self).position(),
            agrees_expr(r, p_level(old(self).token_seq(), pstate(old(self), old(lox)), 3, fuel), pstate(final(self), final(lox))),
        decreases fuel, 0nat,
    {
        proof {
            use_type_invariant(&*self);
        }
        let ghost t = self.token_seq();
        let ghost target = p_level(t, pstate(self, lox), 3, fuel);
        let mut expr = self.term(lox, Ghost((fuel - 1) as nat))?;
        let ghost mut g: nat = (fuel - 1) as nat;
        proof {
            use_type_invariant(&*self);
        }
        loop
            invariant
                self.token_seq() == t,
                t == old(self).token_seq(),
                keeps_errors(old(lox).errors(), lox.errors()),
                self.position() <= t.len(),
                self.position() >= old(self).position(),
                g < fuel,
                g >= needed(t, self.position(), 7),
                target == p_level(old(self).token_seq(), pstate(old(self), old(lox)), 3, fuel),
                p_level_loop(t, pstate(self, lox), 3, expr, g) == target,
            ensures
                self.token_seq() == t,
                keeps_errors(old(lox).errors(), lox.errors()),
                self.position() >= old(self).position(),
                target == Parsed::Done(expr, pstate(self, lox)),
            decreases g,
        {
            proof {
                use_type_invariant(&*self);
            }
            let ghost head = pstate(self, lox);
            if !self.match_types(vec![TokenType::Less, TokenType::LessEqual, TokenType::Greater, TokenType::GreaterEqual]) {
                break;
            }
            let operation = self.previous_token().unwrap().clone();
            assert(operation == t[head.pos]);
            let ghost e0 = expr;
            assert(p_level_loop(t, head, 3, e0, g) == match p_operand(t, adv(head), 3, (g - 1) as nat) {
                Parsed::Done(right, st1) => p_level_loop(t, st1, 3, combine(3, e0, operation, right), (g - 1) as nat),
                other => other,
            });
            assert(p_operand(t, adv(head), 3, (g - 1) as nat) == p_level(t, adv(head), 2, (g - 1) as nat));
            let inner = self.term(lox, Ghost((g - 1) as nat))?;
            expr = Expr::Binary { left: Box::new(expr), operator: operation, right: Box::new(inner) };
            proof {
                use_type_invariant(&*self);
                g = (g - 1) as nat;
            }
        }
        Ok(expr)
    }

    fn term(&mut self, lox: &mut Lox, Ghost(fuel): Ghost<nat>) -> (r: Result<Expr, Halt>)
        requires
            fuel >= needed(old(self).token_seq(), old(self).position(), 6),
        ensures
            keeps_errors(old(lox).errors(), final(lox).errors()),
            final(self).token_seq() == old(self).token_seq(),
            final(self).position() >= old(self).position(),
            agrees_expr(r, p_level(old(self).token_seq(), pstate(old(self), old(lox)), 2, fuel), pstate(final(self), final(lox))),
        decreases fuel, 0nat,
    {
        proof {
            use_type_invariant(&*self);
        }
        let ghost t = self.token_seq();
        let ghost target = p_level(t, pstate(self, lox), 2, fuel);
        let mut expr = self.factor(lox, Ghost((fuel - 1) as nat))?;
        let ghost mut g: nat = (fuel - 1) as nat;
        proof {
            use_type_invariant(&*self);
        }
        loop
            invariant
                self.token_seq() == t,
                t == old(self).token_seq(),
                keeps_errors(old(lox).errors(), lox.errors()),
                self.position() <= t.len(),
                self.position() >= old(self).position(),
                g < fuel,
                g >= needed(t, self.position(), 5),
                target == p_level(old(self).token_seq(), pstate(old(self), old(lox)), 2, fuel),
                p_level_loop(t, pstate(self, lox), 2, expr, g) == target,
            ensures
                self.token_seq() == t,
                keeps_errors(old(lox).errors(), lox.errors()),
                self.position() >= old(self).position(),
                target == Parsed::Done(expr, pstate(self, lox)),
            decreases g,
        {
            proof {
                use_type_invariant(&*self);
            }
            let ghost head = pstate(self, lox);
            if !self.match_types(vec![TokenType::Plus, TokenType::Minus]) {
                break;
            }
            let operation = self.previous_token().unwrap().clone();
            assert(operation == t[head.pos]);
            let ghost e0 = expr;
            assert(p_level_loop(t, head, 2, e0, g) == match p_operand(t, adv(head), 2, (g - 1) as nat) {
                Parsed::Done(right, st1) => p_level_loop(t, st1, 2, combine(2, e0, operation, right), (g - 1) as nat),
                other => other,
            });
            assert(p_operand(t, adv(head), 2, (g - 1) as nat) == p_level(t, adv(head), 1, (g - 1) as nat));
            let inner = self.factor(lox, Ghost((g - 1) as nat))?;
            expr = Expr::Binary { left: Box::new(expr), operator: operation, right: Box::new(inner) };
            proof {
                use_type_invariant(&*self);
                g = (g - 1) as nat;
            }
        }
        Ok(expr)
    }

    fn factor(&mut self, lox: &mut Lox, Ghost(fuel): Ghost<nat>) -> (r: Result<Expr, Halt>)
        requires
            fuel >= needed(old(self).token_seq(), old(self).position(), 4),
        ensures
            keeps_errors(old(lox).errors(), final(lox).errors()),
            final(self).token_seq() == old(self).token_seq(),
            final(self).position() >= old(self).position(),
            agrees_expr(r, p_level(old(self).token_seq(), pstate(old(self), old(lox)), 1, fuel), pstate(final(self), final(lox))),
        decreases fuel, 0nat,
    {
        proof {
            use_type_invariant(&*self);
        }
        let ghost t = self.token_seq();
        let ghost target = p_level(t, pstate(self, lox), 1, fuel);
        let mut expr = self.unary(lox, Ghost((fuel - 1) as nat))?;
        let ghost mut g: nat = (fuel - 1) as nat;
        proof {
            use_type_invariant(&*self);
        }
        loop
            invariant
                self.token_seq() == t,
                t == old(self).token_seq(),
                keeps_errors(old(lox).errors(), lox.errors()),
                self.position() <= t.len(),
                self.position() >= old(self).position(),
                g < fuel,
                g >= needed(t, self.position(), 3),
                target == p_level(old(self).token_seq(), pstate(old(self), old(lox)), 1, fuel),
                p_level_loop(t, pstate(self, lox), 1, expr, g) == target,
            ensures
                self.token_seq() == t,
                keeps_errors(old(lox).errors(), lox.errors()),
                self.position() >= old(self).position(),
                target == Parsed::Done(expr, pstate(self, lox)),
            decreases g,
        {
            proof {
                use_type_invariant(&*self);
            }
            let ghost head = pstate(self, lox);
            if !self.match_types(vec![TokenType::Star, TokenType::Slash]) {
                break;
            }
            let operation = self.previous_token().unwrap().clone();
            assert(operation == t[head.pos]);
            let ghost e0 = expr;
            assert(p_level_loop(t, head, 1, e0, g) == match p_operand(t, adv(head), 1, (g - 1) as nat) {
                Parsed::Done(right, st1) => p_level_loop(t, st1, 1, combine(1, e0, operation, right), (g - 1) as nat),
                other => other,
            });
            assert(p_operand(t, adv(head), 1, (g - 1) as nat) == p_unary(t, adv(head), (g - 1) as nat));
            let inner = self.unary(lox, Ghost((g - 1) as nat))?;
            expr = Expr::Binary { left: Box::new(expr), operator: operation, right: Box::new(inner) };
            proof {
                use_type_invariant(&*self);
                g = (g - 1) as nat;
            }
        }
        Ok(expr)
    }

    fn expression_statement(&mut self, lox: &mut Lox, Ghost(fuel): Ghost<nat>) -> (r: Result<Statement, Halt>)
        requires
            fuel >= needed(old(self).token_seq(), old(self).position(), 17),
        ensures
            keeps_errors(old(lox).errors(), final(lox).errors()),
            final(self).token_seq() == old(self).token_seq(),
            final(self).position() >= old(self).position(),
            agrees_stmt(r, p_expression_statement(old(self).token_seq(), pstate(old(self), old(lox)), fuel), pstate(final(self), final(lox))),
        decreases fuel, 0nat,
    {
        proof {
            use_type_invariant(&*self);
        }
        reveal_with_fuel(p_expression_statement, 1);
        let expr = self.parse_expression(lox, Ghost((fuel - 1) as nat))?;
        self.consume(lox, TokenType::Semicolon, "Expect ';' after expression.")?;
        Ok(Statement::ExprStatement(expr))
    }

    fn print_statement(&mut self, lox: &mut Lox, Ghost(fuel): Ghost<nat>) -> (r: Result<Statement, Halt>)
        requires
            fuel >= needed(old(self).token_seq(), old(self).position(), 17),
        ensures
            keeps_errors(old(lox).errors(), final(lox).errors()),
            final(self).token_seq() == old(self).token_seq(),
            final(self).position() >= old(self).position(),
            agrees_stmt(r, p_print_statement(old(self).token_seq(), pstate(old(self), old(lox)), fuel), pstate(final(self), final(lox))),
        decreases fuel, 0nat,
    {
        proof {
            use_type_invariant(&*self);
        }
        reveal_with_fuel(p_print_statement, 1);
        let expr = self.parse_expression(lox, Ghost((fuel - 1) as nat))?;
        self.consume(lox, TokenType::Semicolon, "Expect ';' after value.")?;
        Ok(Statement::PrintStatement(expr))
    }

    fn var_declaration(&mut self, lox: &mut Lox, Ghost(fuel): Ghost<nat>) -> (r: Result<Statement, Halt>)
        requires
            fuel >= needed(old(self).token_seq(), old(self).position(), 17),
        ensures
            keeps_errors(old(lox).errors(), final(lox).errors()),
            final(self).token_seq() == old(self).token_seq(),
            final(self).position() >= old(self).position(),
            agrees_stmt(r, p_var_declaration(old(self).token_seq(), pstate(old(self), old(lox)), fuel), pstate(final(self), final(lox))),
        decreases fuel, 0nat,
    {
        proof {
            use_type_invariant(&*self);
        }
        reveal_with_fuel(p_var_declaration, 1);
        let ghost t = self.token_seq();
        let name = self.consume(lox, TokenType::Identifier, "Expected a variable name")?;
        let ghost st1 = pstate(self, lox);
        let mut initializer = None;
        let types = vec![TokenType::Equal];
        assert(types@ =~= seq![TokenType::Equal]);
        if self.match_types(types) {
            initializer = Some(self.parse_expression(lox, Ghost((fuel - 1) as nat))?);
        }
        self.consume(lox, TokenType::Semicolon, "Expect ';' after variable declaration.")?;
        Ok(Statement::AssignStatement { token: name, expression: initializer })
    }

    /// Skips tokens after a parse error, up to a statement boundary.
    fn synchronize(&mut self)
        ensures
            final(self).token_seq() == old(self).token_seq(),
            final(self).position() == synchronize(old(self).token_seq(), old(self).position()),
            final(self).position() >= old(self).position(),
            sync_point(old(self).token_seq(), final(self).position()),
            forall|k: int| old(self).position() <= k < final(self).position()
                ==> !#[trigger] sync_point(old(self).token_seq(), k),
    {
        let ghost t = self.token_seq();
        proof {
            law_synchronize(t, self.position());
        }
        while !self.is_at_end()
            invariant
                self.token_seq() == t,
                t == old(self).token_seq(),
                synchronize(t, self.position()) == synchronize(t, old(self).position()),
                self.position() >= old(self).position(),
                sync_point(t, synchronize(t, old(self).position())),
                forall|k: int| old(self).position() <= k < synchronize(t, old(self).position())
                    ==> !#[trigger] sync_point(t, k),
            decreases t.len() - self.position(),
        {
            proof {
                use_type_invariant(&*self);
            }
            match self.previous_token() {
                Some(prev) => {
                    if prev.token_type == TokenType::Semicolon {
                        return;
                    }
                },
                None => {},
            }
            let kind = self.tokens[self.current].token_type;
            match kind {
                TokenType::Class | TokenType::Fun | TokenType::Var | TokenType::For | TokenType::If
                | TokenType::While | TokenType::Print | TokenType::Return => {
                    return;
                },
                _ => {
                    self.advance();
                },
            }
        }
    }

    #[verifier::rlimit(60)]
    fn declaration(&mut self, lox: &mut Lox, Ghost(fuel): Ghost<nat>) -> (r: Result<Option<Statement>, Halt>)
        requires
            fuel >= needed(old(self).token_seq(), old(self).position(), 20),
        ensures
            keeps_errors(old(lox).errors(), final(lox).errors()),
            final(self).token_seq() == old(self).token_seq(),
            final(self).position() >= old(self).position(),
            agrees_decl(r, p_declaration(old(self).token_seq(), pstate(old(self), old(lox)), fuel), pstate(final(self), final(lox))),
        decreases fuel, 0nat,
    {
        proof {
            use_type_invariant(&*self);
        }
        reveal_with_fuel(p_declaration, 1);
        reveal_with_fuel(p_statement, 1);
        reveal_with_fuel(p_block, 1);
        reveal_with_fuel(p_if, 1);
        reveal_with_fuel(p_while, 1);
        reveal_with_fuel(p_for, 1);
        let types = vec![TokenType::Var];
        assert(types@ =~= seq![TokenType::Var]);
        if self.match_types(types) {
            return Ok(Some(self.var_declaration(lox, Ghost((fuel - 1) as nat))?));
        }
        let temp = self.statement(lox, Ghost((fuel - 1) as nat))?;
        if lox.had_error {
            self.synchronize();
            lox.had_error = false;
            return Ok(None);
        }
        Ok(Some(temp))
    }

    fn statement(&mut self, lox: &mut Lox, Ghost(fuel): Ghost<nat>) -> (r: Result<Statement, Halt>)
        requires
            fuel >= needed(old(self).token_seq(), old(self).position(), 18),
        ensures
            keeps_errors(old(lox).errors(), final(lox).errors()),
            final(self).token_seq() == old(self).token_seq(),
            final(self).position() >= old(self).position(),
            agrees_stmt(r, p_statement(old(self).token_seq(), pstate(old(self), old(lox)), fuel), pstate(final(self), final(lox))),
        decreases fuel, 0nat,
    {
        proof {
            use_type_invariant(&*self);
        }
        reveal_with_fuel(p_declaration, 1);
        reveal_with_fuel(p_statement, 1);
        reveal_with_fuel(p_block, 1);
        reveal_with_fuel(p_if, 1);
        reveal_with_fuel(p_while, 1);
        reveal_with_fuel(p_for, 1);
        let types = vec![TokenType::Print];
        assert(types@ =~= seq![TokenType::Print]);
        if self.match_types(types) {
            return self.print_statement(lox, Ghost((fuel - 1) as nat));
        }
        let types = vec![TokenType::LeftBrace];
        assert(types@ =~= seq![TokenType::LeftBrace]);
        if self.match_types(types) {
            return Ok(Statement::BlockStatement(self.block_statement(lox, Ghost((fuel - 1) as nat))?));
        }
        let types = vec![TokenType::If];
        assert(types@ =~= seq![TokenType::If]);
        if self.match_types(types) {
            return self.if_statement(lox, Ghost((fuel - 1) as nat));
        }
        let types = vec![TokenType::While];
        assert(types@ =~= seq![TokenType::While]);
        if self.match_types(types) {
            return self.while_statement(lox, Ghost((fuel - 1) as nat));
        }
        let types = vec![TokenType::For];
        assert(types@ =~= seq![TokenType::For]);
        if self.match_types(types) {
            return self.for_statement(lox, Ghost((fuel - 1) as nat));
        }
        self.expression_statement(lox, Ghost((fuel - 1) as nat))
    }

    fn block_statement(&mut self, lox: &mut Lox, Ghost(fuel): Ghost<nat>) -> (r: Result<Vec<Statement>, Halt>)
        requires
            fuel >= needed(old(self).token_seq(), old(self).position(), 21),
        ensures
            keeps_errors(old(lox).errors(), final(lox).errors()),
            final(self).token_seq() == old(self).token_seq(),
            final(self).position() >= old(self).position(),
            agrees_stmts(r, p_block(old(self).token_seq(), pstate(old(self), old(lox)), Seq::empty(), fuel),
                pstate(final(self), final(lox))),
        decreases fuel, 0nat,
    {
        proof {
            use_type_invariant(&*self);
        }
        reveal_with_fuel(p_block, 1);
        reveal_with_fuel(p_declaration, 1);
        let ghost t = self.token_seq();
        let ghost target = p_block(t, pstate(self, lox), Seq::empty(), fuel);
        let mut statements: Vec<Statement> = Vec::new();
        let ghost mut g: nat = fuel;
        while !self.check(&TokenType::RightBrace) && !self.is_at_end()
            invariant
                self.token_seq() == t,
                t == old(self).token_seq(),
                keeps_errors(old(lox).errors(), lox.errors()),
                self.position() <= t.len(),
                self.position() >= old(self).position(),
                g <= fuel,
                g >= needed(t, self.position(), 21),
                target == p_block(old(self).token_seq(), pstate(old(self), old(lox)), Seq::empty(), fuel),
                p_block(t, pstate(self, lox), stmts_view(statements@), g) == target,
            decreases g,
        {
            reveal_with_fuel(p_block, 1);
            reveal_with_fuel(p_declaration, 1);
            let ghost head = pstate(self, lox);
            let ghost acc = stmts_view(statements@);
            let before = self.current;
            assert(p_block(t, head, acc, g) == match p_declaration(t, head, (g - 1) as nat) {
                Parsed::Done(d, st1) => p_block(t, past(head, st1), match d { Some(s) => acc.push(s), None => acc }, (g - 1) as nat),
                other => failed(other),
            });
            let declared = self.declaration(lox, Ghost((g - 1) as nat))?;
            if self.current == before {
                let n = self.tokens.len();
                assert(!at_end(t, head.pos) && self.current < n);
                self.current = self.current + 1;
            }
            match declared {
                Some(statement) => {
                    proof {
                        lemma_stmts_view_push(statements@, statement);
                    }
                    statements.push(statement);
                },
                None => {},
            }
            proof {
                use_type_invariant(&*self);
                g = (g - 1) as nat;
            }
        }
        self.consume(lox, TokenType::RightBrace, "Expected '}' after a block")?;
        Ok(statements)
    }

    fn if_statement(&mut self, lox: &mut Lox, Ghost(fuel): Ghost<nat>) -> (r: Result<Statement, Halt>)
        requires
            fuel >= needed(old(self).token_seq(), old(self).position(), 19),
        ensures
            keeps_errors(old(lox).errors(), final(lox).errors()),
            final(self).token_seq() == old(self).token_seq(),
            final(self).position() >= old(self).position(),
            agrees_stmt(r, p_if(old(self).token_seq(), pstate(old(self), old(lox)), fuel), pstate(final(self), final(lox))),
        decreases fuel, 0nat,
    {
        proof {
            use_type_invariant(&*self);
        }
        reveal_with_fuel(p_if, 1);
        reveal_with_fuel(p_statement, 1);
        self.consume(lox, TokenType::LeftParen, "Open paren was not found after the if keyword")?;
        let condition = self.parse_expression(lox, Ghost((fuel - 1) as nat))?;
        self.consume(lox, TokenType::RightParen, "Closing paren was not found")?;
        let ifblock = Box::new(self.statement(lox, Ghost((fuel - 1) as nat))?);
        let mut elseblock: Option<Box<Statement>> = None;
        let types = vec![TokenType::Else];
        assert(types@ =~= seq![TokenType::Else]);
        if self.match_types(types) {
            elseblock = Some(Box::new(self.statement(lox, Ghost((fuel - 1) as nat))?));
        }
        Ok(Statement::IfStatement { condition, ifblock, elseblock })
    }

    fn while_statement(&mut self, lox: &mut Lox, Ghost(fuel): Ghost<nat>) -> (r: Result<Statement, Halt>)
        requires
            fuel >= needed(old(self).token_seq(), old(self).position(), 19),
        ensures
            keeps_errors(old(lox).errors(), final(lox).errors()),
            final(self).token_seq() == old(self).token_seq(),
            final(self).position() >= old(self).position(),
            agrees_stmt(r, p_while(old(self).token_seq(), pstate(old(self), old(lox)), fuel), pstate(final(self), final(lox))),
        decreases fuel, 0nat,
    {
        proof {
            use_type_invariant(&*self);
        }
        reveal_with_fuel(p_while, 1);
        reveal_with_fuel(p_statement, 1);
        let ghost t = self.token_seq();
        let ghost st0 = pstate(self, lox);
        let c1 = self.consume(lox, TokenType::LeftParen, "Open paren was not found after the for keyword")?;
        let ghost st1 = pstate(self, lox);
        assert(consume(t, st0, TokenType::LeftParen, "Open paren was not found after the for keyword"@) == Parsed::Done(c1, st1));
        let condition = self.parse_expression(lox, Ghost((fuel - 1) as nat))?;
        let ghost st2 = pstate(self, lox);
        assert(p_expression(t, st1, (fuel - 1) as nat) == Parsed::Done(condition, st2));
        let c3 = self.consume(lox, TokenType::RightParen, "Closing paren was not found")?;
        let ghost st3 = pstate(self, lox);
        assert(consume(t, st2, TokenType::RightParen, "Closing paren was not found"@) == Parsed::Done(c3, st3));
        let res = self.statement(lox, Ghost((fuel - 1) as nat));
        assert(agrees_stmt(res, p_statement(t, st3, (fuel - 1) as nat), pstate(self, lox)));
        assert(fuel > 0);
        assert(p_while(t, st0, fuel) == match consume(t, st0, TokenType::LeftParen, "Open paren was not found after the for keyword"@) {
            Parsed::Done(_, st1) => match p_expression(t, st1, (fuel - 1) as nat) {
                Parsed::Done(condition, st2) => match consume(t, st2, TokenType::RightParen, "Closing paren was not found"@) {
                    Parsed::Done(_, st3) => match p_statement(t, st3, (fuel - 1) as nat) {
                        Parsed::Done(body, st4) => Parsed::Done(Stmt::While { condition, statement: Box::new(body) }, st4),
                        other => other,
                    },
                    other => failed(other),
                },
                other => failed(other),
            },
            other => failed(other),
        });
        assert(p_while(t, st0, fuel) == match p_statement(t, st3, (fuel - 1) as nat) {
            Parsed::Done(body, st4) => Parsed::Done(Stmt::While { condition, statement: Box::new(body) }, st4),
            other => other,
        });
        let statement = Box::new(res?);
        Ok(Statement::WhileStatement { condition, statement })
    }

    #[verifier::rlimit(60)]
    fn for_statement(&mut self, lox: &mut Lox, Ghost(fuel): Ghost<nat>) -> (r: Result<Statement, Halt>)
        requires
            fuel >= needed(old(self).token_seq(), old(self).position(), 19),
        ensures
            keeps_errors(old(lox).errors(), final(lox).errors()),
            final(self).token_seq() == old(self).token_seq(),
            final(self).position() >= old(self).position(),
            agrees_stmt(r, p_for(old(self).token_seq(), pstate(old(self), old(lox)), fuel), pstate(final(self), final(lox))),
        decreases fuel, 0nat,
    {
        proof {
            use_type_invariant(&*self);
        }
        reveal_with_fuel(p_for, 1);
        reveal_with_fuel(p_statement, 1);
        reveal_with_fuel(p_for_init, 1);
        reveal_with_fuel(p_clause, 1);
        let ghost t = self.token_seq();
        self.consume(lox, TokenType::LeftParen, "Open paren was not found after the for keyword")?;
        let ghost st1 = pstate(self, lox);
        let initializer: Option<Statement>;
        let types = vec![TokenType::Semicolon];
        assert(types@ =~= seq![TokenType::Semicolon]);
        if self.match_types(types) {
            initializer = None;
        } else {
            let types = vec![TokenType::Var];
            assert(types@ =~= seq![TokenType::Var]);
            if self.match_types(types) {
                initializer = Some(self.var_declaration(lox, Ghost((fuel - 2) as nat))?);
            } else {
                initializer = Some(self.expression_statement(lox, Ghost((fuel - 2) as nat))?);
            }
        }
        let ghost st2 = pstate(self, lox);
        let mut condition: Option<Expr> = None;
        if !self.check(&TokenType::Semicolon) {
            condition = Some(self.parse_expression(lox, Ghost((fuel - 2) as nat))?);
        }
        let ghost st3 = pstate(self, lox);
        self.consume(lox, TokenType::Semicolon, "Expected semicolon after initializer in for loop")?;
        let ghost st4 = pstate(self, lox);
        let mut change: Option<Expr> = None;
        if !self.check(&TokenType::RightParen) {
            change = Some(self.parse_expression(lox, Ghost((fuel - 2) as nat))?);
        }
        let ghost st5 = pstate(self, lox);
        self.consume(lox, TokenType::RightParen, "Expected closing paren after condition in for loop")?;
        let body = self.statement(lox, Ghost((fuel - 1) as nat))?;

        Ok(desugar(initializer, condition, change, body))
    }


    fn parse_program(&mut self, lox: &mut Lox, Ghost(fuel): Ghost<nat>) -> (r: Result<Vec<Statement>, Halt>)
        requires
            fuel >= needed(old(self).token_seq(), old(self).position(), 22),
        ensures
            keeps_errors(old(lox).errors(), final(lox).errors()),
            final(self).token_seq() == old(self).token_seq(),
            agrees_stmts(r, p_program(old(self).token_seq(), pstate(old(self), old(lox)), Seq::empty(), fuel),
                pstate(final(self), final(lox))),
            r is Ok ==> at_end(final(self).token_seq(), final(self).position()),
    {
        proof {
            use_type_invariant(&*self);
            lemma_stmts_view_empty();
        }
        let ghost t = self.token_seq();
        let ghost target = p_program(t, pstate(self, lox), Seq::empty(), fuel);
        let mut statements: Vec<Statement> = Vec::new();
        let ghost mut g: nat = fuel;
        while !self.is_at_end()
            invariant
                self.token_seq() == t,
                t == old(self).token_seq(),
                keeps_errors(old(lox).errors(), lox.errors()),
                self.position() <= t.len(),
                g <= fuel,
                g >= needed(t, self.position(), 22),
                target == p_program(old(self).token_seq(), pstate(old(self), old(lox)), Seq::empty(), fuel),
                p_program(t, pstate(self, lox), stmts_view(statements@), g) == target,
            decreases g,
        {
            reveal_with_fuel(p_program, 1);
            reveal_with_fuel(p_declaration, 1);
            let ghost head = pstate(self, lox);
            let before = self.current;
            let declared = self.declaration(lox, Ghost((g - 1) as nat))?;
            if self.current == before {
                let n = self.tokens.len();
                assert(!at_end(t, head.pos) && self.current < n);
                self.current = self.current + 1;
            }
            match declared {
                Some(statement) => {
                    proof {
                        lemma_stmts_view_push(statements@, statement);
                    }
                    statements.push(statement);
                },
                None => {},
            }
            proof {
                use_type_invariant(&*self);
                g = (g - 1) as nat;
            }
        }
        proof {
            reveal_with_fuel(p_program, 1);
        }
        Ok(statements)
    }

    /// Parses declarations up to the end of the tokens, reporting errors to
    /// `lox`; `Err` only where there are no tokens at all (see
    /// `law_parse_goes_on`).
    pub fn parse_checked(&mut self, lox: &mut Lox) -> (r: Result<Vec<Statement>, Halt>)
        ensures
            keeps_errors(old(lox).errors(), final(lox).errors()),
            final(self).token_seq() == old(self).token_seq(),
            agrees_stmts(r, parse_result(old(self).token_seq(), pstate(old(self), old(lox))), pstate(final(self), final(lox))),
            r is Ok ==> at_end(final(self).token_seq(), final(self).position()),
    {
        let ghost t = self.token_seq();
        self.parse_program(lox, Ghost(needed(t, self.position(), 22)))
    }

    /// Parses declarations up to the end of the tokens, reporting errors to
    /// `lox`.
    pub fn parse(&mut self, lox: &mut Lox) -> (r: Vec<Statement>)
        requires
            old(self).token_seq().len() > 0,
        ensures
            parse_result(old(self).token_seq(), pstate(old(self), old(lox))) is Done,
            keeps_errors(old(lox).errors(), final(lox).errors()),
            final(self).token_seq() == old(self).token_seq(),
            stmts_view(r@) == parse_result(old(self).token_seq(), pstate(old(self), old(lox)))->Done_0,
            pstate(final(self), final(lox)) == parse_result(old(self).token_seq(), pstate(old(self), old(lox)))->Done_1,
            at_end(final(self).token_seq(), final(self).position()),
    {
        proof {
            law_parse_goes_on(self.token_seq(), pstate(self, lox));
        }
        match self.parse_checked(lox) {
            Ok(statements) => statements,
            Err(_) => Vec::new(),
        }
    }

    /// Parses one expression, reporting errors to `lox`; `Err` only where
    /// there are no tokens at all.
    pub fn expression_checked(&mut self, lox: &mut Lox) -> (r: Result<Expr, Halt>)
        ensures
            keeps_errors(old(lox).errors(), final(lox).errors()),
            final(self).token_seq() == old(self).token_seq(),
            agrees_expr(r, expression_result(old(self).token_seq(), pstate(old(self), old(lox))), pstate(final(self), final(lox))),
    {
        let ghost t = self.token_seq();
        self.parse_expression(lox, Ghost(needed(t, self.position(), 16)))
    }

    /// Parses one expression, reporting errors to `lox`.
    pub fn expression(&mut self, lox: &mut Lox) -> (r: Expr)
        requires
            old(self).token_seq().len() > 0,
        ensures
            expression_result(old(self).token_seq(), pstate(old(self), old(lox))) is Done,
            keeps_errors(old(lox).errors(), final(lox).errors()),
            final(self).token_seq() == old(self).token_seq(),
            expression_result(old(self).token_seq(), pstate(old(self), old(lox)))
                == Parsed::Done(r, pstate(final(self), final(lox))),
    {
        proof {
            law_parse_goes_on(self.token_seq(), pstate(self, lox));
        }
        match self.expression_checked(lox) {
            Ok(e) => e,
            Err(_) => Expr::Literal { value: None },
        }
    }
}

} // verus!
