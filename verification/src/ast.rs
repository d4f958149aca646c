use vstd::prelude::*;
use crate::token::{LitView, Literal, Token};
use vstd::string::StringExecFns;

verus! {

/// An expression of the language.
#[derive(Debug)]
pub enum Expr {
    Logical { left: Box<Expr>, operator: Token, right: Box<Expr> },
    Assignment { name: Token, value: Box<Expr> },
    Variable { name: Token },
    Literal { value: Option<Literal> },
    Unary { operator: Token, expression: Box<Expr> },
    Binary { left: Box<Expr>, operator: Token, right: Box<Expr> },
    Grouping { expression: Box<Expr> },
}

/// A statement of the language.
#[derive(Debug)]
pub enum Statement {
    ExprStatement(Expr),
    PrintStatement(Expr),
    AssignStatement { token: Option<Token>, expression: Option<Expr> },
    BlockStatement(Vec<Statement>),
    IfStatement { condition: Expr, ifblock: Box<Statement>, elseblock: Option<Box<Statement>> },
    WhileStatement { condition: Expr, statement: Box<Statement> },
}

/// Mathematical view of a statement: blocks hold sequences.
pub enum Stmt {
    Expression(Expr),
    Print(Expr),
    Var { token: Option<Token>, expression: Option<Expr> },
    Block(Seq<Stmt>),
    If { condition: Expr, ifblock: Box<Stmt>, elseblock: Option<Box<Stmt>> },
    While { condition: Expr, statement: Box<Stmt> },
}

pub open spec fn stmts_view(s: Seq<Statement>) -> Seq<Stmt>
    decreases s,
{
    if s.len() == 0 {
        Seq::empty()
    } else {
        stmts_view(s.drop_last()).push(stmt_view(s.last()))
    }
}

pub open spec fn stmt_view(s: Statement) -> Stmt
    decreases s,
{
    match s {
        Statement::ExprStatement(e) => Stmt::Expression(e),
        Statement::PrintStatement(e) => Stmt::Print(e),
        Statement::AssignStatement { token, expression } => Stmt::Var { token, expression },
        Statement::BlockStatement(v) => Stmt::Block(stmts_view(v@)),
        Statement::IfStatement { condition, ifblock, elseblock } => Stmt::If {
            condition,
            ifblock: Box::new(stmt_view(*ifblock)),
            elseblock: match elseblock {
                Some(b) => Some(Box::new(stmt_view(*b))),
                None => None,
            },
        },
        Statement::WhileStatement { condition, statement } => Stmt::While {
            condition,
            statement: Box::new(stmt_view(*statement)),
        },
    }
}

} // verus!

verus! {

pub proof fn lemma_stmts_view_push(v: Seq<Statement>, x: Statement)
    ensures
        stmts_view(v.push(x)) == stmts_view(v).push(stmt_view(x)),
{
    assert(v.push(x).drop_last() =~= v);
}

/// The view of a statement sequence is the view of each statement, in order.
pub proof fn lemma_stmts_view_index(v: Seq<Statement>)
    ensures
        stmts_view(v).len() == v.len(),
        forall|i: int| 0 <= i < v.len() ==> #[trigger] stmts_view(v)[i] == stmt_view(v[i]),
    decreases v.len(),
{
    if v.len() > 0 {
        lemma_stmts_view_index(v.drop_last());
    }
}

pub proof fn lemma_stmts_view_empty()
    ensures
        stmts_view(Seq::<Statement>::empty()) == Seq::<Stmt>::empty(),
{
}

} // verus!

verus! {

/// What `{:?}` prints for a string: the string quoted, with escapes.
pub uninterp spec fn debug_quoted(s: Seq<char>) -> Seq<char>;

/// Formats `s` as `{:?}` does (`<str as Debug>::fmt`).
#[verifier::external_body]
fn debug_str(s: &str) -> (r: String)
    ensures
        r@ == debug_quoted(s@),
{
    format!("{:?}", s)
}

/// How a literal is shown: its variant and value, as a derived `Debug`
/// shows it; a number shows the text of its numeral.
pub open spec fn literal_text(l: LitView) -> Seq<char> {
    match l {
        LitView::Str(s) => "Str("@ + debug_quoted(s) + ")"@,
        LitView::Num(n) => "Num("@ + n + ")"@,
        LitView::Bool(b) => if b { "Bool(true)"@ } else { "Bool(false)"@ },
        LitView::Nil => "Nil"@,
    }
}

/// The expressions `pretty_print` handles: binary, unary, grouping and
/// literal nodes only.
pub open spec fn printable(e: Expr) -> bool
    decreases e,
{
    match e {
        Expr::Binary { left, operator, right } => printable(*left) && printable(*right),
        Expr::Grouping { expression } => printable(*expression),
        Expr::Literal { value } => true,
        Expr::Unary { operator, expression } => printable(*expression),
        _ => false,
    }
}

/// The parenthesized prefix form of an expression.
pub open spec fn pretty(e: Expr) -> Seq<char>
    decreases e,
{
    match e {
        Expr::Binary { left, operator, right } =>
            "("@ + operator.lexeme@ + " "@ + pretty(*left) + " "@ + pretty(*right) + ")"@,
        Expr::Grouping { expression } => "(group "@ + pretty(*expression) + ")"@,
        Expr::Literal { value } => match value {
            Some(lit) => literal_text(lit@),
            None => "nil"@,
        },
        Expr::Unary { operator, expression } => "("@ + operator.lexeme@ + " "@ + pretty(*expression) + ")"@,
        _ => Seq::empty(),
    }
}

/// Shows an expression in parenthesized prefix form, e.g. `(* (- Num(8)) (group ...))`.
pub fn pretty_print(expr: &Expr) -> (r: String)
    requires
        printable(*expr),
    ensures
        r@ == pretty(*expr),
    decreases expr,
{
    let mut s = String::new();
    match expr {
        Expr::Binary { left, operator, right } => {
            let l = pretty_print(left);
            let r = pretty_print(right);
            s.append("(");
            s.append(operator.lexeme.as_str());
            s.append(" ");
            s.append(l.as_str());
            s.append(" ");
            s.append(r.as_str());
            s.append(")");
        },
        Expr::Grouping { expression } => {
            let inner = pretty_print(expression);
            s.append("(group ");
            s.append(inner.as_str());
            s.append(")");
        },
        Expr::Literal { value } => match value {
            Some(lit) => match lit {
                Literal::Str(text) => {
                    let q = debug_str(text.as_str());
                    s.append("Str(");
                    s.append(q.as_str());
                    s.append(")");
                },
                Literal::Num(numeral) => {
                    s.append("Num(");
                    s.append(numeral.as_str());
                    s.append(")");
                },
                Literal::Bool(b) => {
                    if *b {
                        s.append("Bool(true)");
                    } else {
                        s.append("Bool(false)");
                    }
                },
                Literal::Nil => {
                    s.append("Nil");
                },
            },
            None => {
                s.append("nil");
            },
        },
        Expr::Unary { operator, expression } => {
            let inner = pretty_print(expression);
            s.append("(");
            s.append(operator.lexeme.as_str());
            s.append(" ");
            s.append(inner.as_str());
            s.append(")");
        },
        _ => {},
    }
    s
}

} // verus!
