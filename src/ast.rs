use vstd::prelude::*;

verus! {

/// The operators of binary expressions.
#[derive(Clone, Copy, Debug, PartialEq, Eq, Structural)]
pub enum BinOp {
    Add,
    Sub,
    Mul,
    Div,
}

/// An expression.
#[derive(Debug)]
pub enum Expr {
    /// A number literal, as the bit pattern of its IEEE-754 binary64 value.
    Number(u64),
    /// A string literal, escapes resolved.
    Str(String),
    Identifier(String),
    Binary(BinOp, Box<Expr>, Box<Expr>),
    /// A call: the callee's name and the arguments.
    Call(String, Vec<Expr>),
}

/// A statement.
#[derive(Debug)]
pub enum Stmt {
    /// `let name;` or `let name = init;`
    VarDecl(String, Option<Expr>),
    /// `def name(params) { body }`
    FuncDef(String, Vec<String>, Vec<Stmt>),
    /// `write expr;`
    Write(Expr),
    /// `:name:;`
    Import(String),
    /// `expr;`
    ExprStmt(Expr),
}

/// A parsed program: its top-level statements in order.
#[derive(Debug)]
pub struct Program {
    pub statements: Vec<Stmt>,
}

/// The mathematical model of an expression.
pub enum ExprM {
    Number(u64),
    Str(Seq<char>),
    Identifier(Seq<char>),
    Binary(BinOp, Box<ExprM>, Box<ExprM>),
    Call(Seq<char>, Seq<ExprM>),
}

/// The mathematical model of a statement.
pub enum StmtM {
    VarDecl(Seq<char>, Option<ExprM>),
    FuncDef(Seq<char>, Seq<Seq<char>>, Seq<StmtM>),
    Write(ExprM),
    Import(Seq<char>),
    ExprStmt(ExprM),
}

/// The model of an expression.
pub open spec fn expr_view(e: Expr) -> ExprM
    decreases e,
{
    match e {
        Expr::Number(b) => ExprM::Number(b),
        Expr::Str(s) => ExprM::Str(s@),
        Expr::Identifier(n) => ExprM::Identifier(n@),
        Expr::Binary(op, l, r) => ExprM::Binary(op, Box::new(expr_view(*l)), Box::new(expr_view(*r))),
        Expr::Call(n, args) => ExprM::Call(n@, exprs_view(args@)),
    }
}

/// The models of a sequence of expressions.
pub open spec fn exprs_view(s: Seq<Expr>) -> Seq<ExprM>
    decreases s,
{
    if s.len() == 0 {
        Seq::empty()
    } else {
        exprs_view(s.drop_last()).push(expr_view(s.last()))
    }
}

/// The models of a sequence of names.
pub open spec fn names_view(s: Seq<String>) -> Seq<Seq<char>> {
    s.map_values(|n: String| n@)
}

/// The model of a statement.
pub open spec fn stmt_view(s: Stmt) -> StmtM
    decreases s,
{
    match s {
        Stmt::VarDecl(n, None) => StmtM::VarDecl(n@, None),
        Stmt::VarDecl(n, Some(e)) => StmtM::VarDecl(n@, Some(expr_view(e))),
        Stmt::FuncDef(n, ps, body) => StmtM::FuncDef(n@, names_view(ps@), stmts_view(body@)),
        Stmt::Write(e) => StmtM::Write(expr_view(e)),
        Stmt::Import(n) => StmtM::Import(n@),
        Stmt::ExprStmt(e) => StmtM::ExprStmt(expr_view(e)),
    }
}

/// The models of a sequence of statements.
pub open spec fn stmts_view(s: Seq<Stmt>) -> Seq<StmtM>
    decreases s,
{
    if s.len() == 0 {
        Seq::empty()
    } else {
        stmts_view(s.drop_last()).push(stmt_view(s.last()))
    }
}

} // verus!
