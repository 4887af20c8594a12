use vstd::prelude::*;
use vstd::slice::*;
use vstd::utf8::*;

use crate::ast::{BinOp, Expr, Program, Stmt};
use crate::bytecode::{is_unit, ops_of, op_encodable, Instr, Op};

verus! {

/// Why a program could not be compiled.
#[derive(Clone, Copy, Debug, PartialEq, Eq, Structural)]
pub enum CompileErrorKind {
    /// Function definitions have no code generation.
    UnsupportedFunction,
    /// Calls have no code generation.
    UnsupportedCall,
    /// A string or a name is too long for a 4-byte length prefix.
    PayloadTooLarge,
}

/// A compile-time error, with the index of the top-level statement at fault.
#[derive(Clone, Copy, Debug, PartialEq, Eq, Structural)]
pub struct CompileError {
    pub kind: CompileErrorKind,
    pub statement: usize,
}

/// The bytes that stand for a string or a name: its UTF-8 encoding.
pub open spec fn text_bytes(s: String) -> Seq<u8> {
    encode_utf8(s@)
}

pub open spec fn fits(s: String) -> bool {
    text_bytes(s).len() <= u32::MAX
}

pub open spec fn arith_instr(op: BinOp) -> Op {
    match op {
        BinOp::Add => Op::Add,
        BinOp::Sub => Op::Sub,
        BinOp::Mul => Op::Mul,
        BinOp::Div => Op::Div,
    }
}

/// The instructions of an expression, in post-order, or why it has none.
pub open spec fn expr_code(e: Expr) -> Result<Seq<Op>, CompileErrorKind>
    decreases e,
{
    match e {
        Expr::Number(b) => Ok(seq![Op::PushNum(b)]),
        Expr::Str(s) => if fits(s) {
            Ok(seq![Op::PushStr(text_bytes(s))])
        } else {
            Err(CompileErrorKind::PayloadTooLarge)
        },
        Expr::Identifier(n) => if fits(n) {
            Ok(seq![Op::Load(text_bytes(n))])
        } else {
            Err(CompileErrorKind::PayloadTooLarge)
        },
        Expr::Binary(op, l, r) => match expr_code(*l) {
            Err(k) => Err(k),
            Ok(lc) => match expr_code(*r) {
                Err(k) => Err(k),
                Ok(rc) => Ok(lc + rc + seq![arith_instr(op)]),
            },
        },
        Expr::Call(_, _) => Err(CompileErrorKind::UnsupportedCall),
    }
}

/// The instructions of a statement, or why it has none.
pub open spec fn stmt_code(s: Stmt) -> Result<Seq<Op>, CompileErrorKind> {
    match s {
        Stmt::VarDecl(name, init) => if !fits(name) {
            Err(CompileErrorKind::PayloadTooLarge)
        } else {
            match init {
                None => Ok(seq![Op::PushNum(0), Op::Store(text_bytes(name))]),
                Some(e) => match expr_code(e) {
                    Err(k) => Err(k),
                    Ok(c) => Ok(c + seq![Op::Store(text_bytes(name))]),
                },
            }
        },
        Stmt::FuncDef(_, _, _) => Err(CompileErrorKind::UnsupportedFunction),
        Stmt::Write(e) => match expr_code(e) {
            Err(k) => Err(k),
            Ok(c) => Ok(c + seq![Op::Write]),
        },
        Stmt::Import(_) => Ok(Seq::empty()),
        Stmt::ExprStmt(e) => expr_code(e),
    }
}

/// The instructions of the first `n` statements, or the first error among them.
pub open spec fn stmts_code(stmts: Seq<Stmt>, n: int) -> Result<Seq<Op>, CompileError>
    decreases n,
{
    if n <= 0 {
        Ok(Seq::empty())
    } else {
        match stmts_code(stmts, n - 1) {
            Err(e) => Err(e),
            Ok(c) => match stmt_code(stmts[n - 1]) {
                Err(k) => Err(CompileError { kind: k, statement: (n - 1) as usize }),
                Ok(sc) => Ok(c + sc),
            },
        }
    }
}

/// The compiled unit of a program: its statements' instructions, then `Halt`.
pub open spec fn program_code(p: Program) -> Result<Seq<Op>, CompileError> {
    match stmts_code(p.statements@, p.statements@.len() as int) {
        Err(e) => Err(e),
        Ok(c) => Ok(c + seq![Op::Halt]),
    }
}

proof fn lemma_stmts_code_err(stmts: Seq<Stmt>, k: int, n: int)
    requires
        0 <= k <= n,
        stmts_code(stmts, k) is Err,
    ensures
        stmts_code(stmts, n) == stmts_code(stmts, k),
    decreases n - k,
{
    if k < n {
        lemma_stmts_code_err(stmts, k, n - 1);
    }
}

/// No instruction of the sequence is `Halt`, and each can be encoded.
pub open spec fn straight(c: Seq<Op>) -> bool {
    forall|i: int| 0 <= i < c.len() ==> !(#[trigger] c[i] is Halt) && op_encodable(c[i])
}

proof fn lemma_straight_concat(a: Seq<Op>, b: Seq<Op>)
    requires
        straight(a),
        straight(b),
    ensures
        straight(a + b),
{
    assert forall|i: int| 0 <= i < (a + b).len() implies !(#[trigger] (a + b)[i] is Halt) && op_encodable((a + b)[i]) by {
        if i < a.len() {
            assert((a + b)[i] == a[i]);
        } else {
            assert((a + b)[i] == b[i - a.len()]);
        }
    }
}

proof fn lemma_expr_code_straight(e: Expr)
    ensures
        expr_code(e) matches Ok(c) ==> straight(c),
    decreases e,
{
    if let Expr::Binary(op, l, r) = e {
        lemma_expr_code_straight(*l);
        lemma_expr_code_straight(*r);
        if let (Ok(lc), Ok(rc)) = (expr_code(*l), expr_code(*r)) {
            lemma_straight_concat(lc, rc);
            lemma_straight_concat(lc + rc, seq![arith_instr(op)]);
        }
    }
}

proof fn lemma_stmts_code_straight(stmts: Seq<Stmt>, n: int)
    ensures
        stmts_code(stmts, n) matches Ok(c) ==> straight(c),
    decreases n,
{
    if n > 0 {
        lemma_stmts_code_straight(stmts, n - 1);
        let s = stmts[n - 1];
        match s {
            Stmt::VarDecl(_, Some(e)) => lemma_expr_code_straight(e),
            Stmt::Write(e) => lemma_expr_code_straight(e),
            Stmt::ExprStmt(e) => lemma_expr_code_straight(e),
            _ => {},
        }
        if let (Ok(c), Ok(sc)) = (stmts_code(stmts, n - 1), stmt_code(s)) {
            match s {
                Stmt::VarDecl(name, Some(e)) => {
                    lemma_straight_concat(expr_code(e)->Ok_0, seq![Op::Store(text_bytes(name))]);
                },
                Stmt::Write(e) => {
                    lemma_straight_concat(expr_code(e)->Ok_0, seq![Op::Write]);
                },
                _ => {},
            }
            lemma_straight_concat(c, sc);
        }
    }
}

/// Every program that compiles yields a compiled unit: encodable instructions
/// ending in exactly one `Halt`.
pub proof fn lemma_program_code_is_unit(p: Program)
    ensures
        program_code(p) matches Ok(c) ==> is_unit(c),
{
    let n = p.statements@.len() as int;
    lemma_stmts_code_straight(p.statements@, n);
    if let Ok(c) = stmts_code(p.statements@, n) {
        let u = c + seq![Op::Halt];
        assert forall|i: int| 0 <= i < u.len() - 1 implies !(#[trigger] u[i] is Halt) by {
            assert(u[i] == c[i]);
        }
        assert forall|i: int| 0 <= i < u.len() implies op_encodable(#[trigger] u[i]) by {
            if i < c.len() {
                assert(u[i] == c[i]);
            }
        }
    }
}

/// The UTF-8 bytes of a string, if they fit a 4-byte length prefix.
fn text_payload(s: &String) -> (r: Option<Vec<u8>>)
    ensures
        match r {
            Some(b) => fits(*s) && b@ == text_bytes(*s),
            None => !fits(*s),
        },
{
    let bytes = s.as_str().as_bytes();
    if bytes.len() > 0xffff_ffff {
        None
    } else {
        Some(slice_to_vec(bytes))
    }
}

/// Appends the instructions of an expression to `out`.
pub fn compile_expr(e: &Expr, out: &mut Vec<Instr>) -> (r: Result<(), CompileErrorKind>)
    ensures
        match (r, expr_code(*e)) {
            (Ok(()), Ok(c)) => ops_of(final(out)@) == ops_of(old(out)@) + c,
            (Err(k), Err(j)) => k == j,
            _ => false,
        },
    decreases e,
{
    match e {
        Expr::Number(b) => {
            out.push(Instr::PushNum(*b));
            proof {
                assert(ops_of(final(out)@) =~= ops_of(old(out)@) + seq![Op::PushNum(*b)]);
            }
            Ok(())
        },
        Expr::Str(s) => match text_payload(s) {
            Some(bytes) => {
                out.push(Instr::PushStr(bytes));
                proof {
                    assert(ops_of(final(out)@) =~= ops_of(old(out)@) + seq![Op::PushStr(text_bytes(*s))]);
                }
                Ok(())
            },
            None => Err(CompileErrorKind::PayloadTooLarge),
        },
        Expr::Identifier(n) => match text_payload(n) {
            Some(bytes) => {
                out.push(Instr::Load(bytes));
                proof {
                    assert(ops_of(final(out)@) =~= ops_of(old(out)@) + seq![Op::Load(text_bytes(*n))]);
                }
                Ok(())
            },
            None => Err(CompileErrorKind::PayloadTooLarge),
        },
        Expr::Binary(op, l, r) => {
            match compile_expr(l, out) {
                Err(k) => {
                    return Err(k);
                },
                Ok(()) => {},
            }
            let ghost mid = out@;
            match compile_expr(r, out) {
                Err(k) => {
                    return Err(k);
                },
                Ok(()) => {},
            }
            let ghost mid2 = out@;
            let instr = match op {
                BinOp::Add => Instr::Add,
                BinOp::Sub => Instr::Sub,
                BinOp::Mul => Instr::Mul,
                BinOp::Div => Instr::Div,
            };
            out.push(instr);
            proof {
                assert(ops_of(out@) =~= ops_of(mid2) + seq![arith_instr(*op)]);
                assert(ops_of(out@) =~= ops_of(old(out)@) + expr_code(**l)->Ok_0 + expr_code(**r)->Ok_0
                    + seq![arith_instr(*op)]);
            }
            Ok(())
        },
        Expr::Call(_, _) => Err(CompileErrorKind::UnsupportedCall),
    }
}

/// Appends the instructions of a statement to `out`.
pub fn compile_stmt(s: &Stmt, out: &mut Vec<Instr>) -> (r: Result<(), CompileErrorKind>)
    ensures
        match (r, stmt_code(*s)) {
            (Ok(()), Ok(c)) => ops_of(final(out)@) == ops_of(old(out)@) + c,
            (Err(k), Err(j)) => k == j,
            _ => false,
        },
{
    match s {
        Stmt::VarDecl(name, init) => {
            let bytes = match text_payload(name) {
                Some(b) => b,
                None => {
                    return Err(CompileErrorKind::PayloadTooLarge);
                },
            };
            match init {
                None => {
                    out.push(Instr::PushNum(0));
                },
                Some(e) => {
                    match compile_expr(e, out) {
                        Err(k) => {
                            return Err(k);
                        },
                        Ok(()) => {},
                    }
                },
            }
            let ghost mid = out@;
            out.push(Instr::Store(bytes));
            proof {
                assert(ops_of(out@) =~= ops_of(mid) + seq![Op::Store(text_bytes(*name))]);
                match init {
                    None => {
                        assert(ops_of(mid) =~= ops_of(old(out)@) + seq![Op::PushNum(0)]);
                    },
                    Some(e) => {},
                }
                assert(ops_of(out@) =~= ops_of(old(out)@) + stmt_code(*s)->Ok_0);
            }
            Ok(())
        },
        Stmt::FuncDef(_, _, _) => Err(CompileErrorKind::UnsupportedFunction),
        Stmt::Write(e) => {
            match compile_expr(e, out) {
                Err(k) => {
                    return Err(k);
                },
                Ok(()) => {},
            }
            let ghost mid = out@;
            out.push(Instr::Write);
            proof {
                assert(ops_of(out@) =~= ops_of(mid) + seq![Op::Write]);
                assert(ops_of(out@) =~= ops_of(old(out)@) + stmt_code(*s)->Ok_0);
            }
            Ok(())
        },
        Stmt::Import(_) => {
            proof {
                assert(ops_of(out@) =~= ops_of(out@) + Seq::<Op>::empty());
            }
            Ok(())
        },
        Stmt::ExprStmt(e) => compile_expr(e, out),
    }
}

/// Compiles a program to a unit of instructions that ends in `Halt`.
pub fn compile(p: &Program) -> (r: Result<Vec<Instr>, CompileError>)
    ensures
        match (r, program_code(*p)) {
            (Ok(v), Ok(c)) => ops_of(v@) == c,
            (Err(e), Err(f)) => e == f,
            _ => false,
        },
        r matches Ok(v) ==> is_unit(ops_of(v@)),
{
    let mut out: Vec<Instr> = Vec::new();
    let mut i: usize = 0;
    proof {
        assert(ops_of(out@) =~= Seq::<Op>::empty());
    }
    while i < p.statements.len()
        invariant
            i <= p.statements@.len(),
            stmts_code(p.statements@, i as int) == Ok::<Seq<Op>, CompileError>(ops_of(out@)),
        decreases p.statements@.len() - i,
    {
        match compile_stmt(&p.statements[i], &mut out) {
            Err(k) => {
                proof {
                    lemma_stmts_code_err(p.statements@, i + 1, p.statements@.len() as int);
                }
                return Err(CompileError { kind: k, statement: i });
            },
            Ok(()) => {},
        }
        i += 1;
    }
    let ghost body = out@;
    out.push(Instr::Halt);
    proof {
        assert(ops_of(out@) =~= ops_of(body) + seq![Op::Halt]);
        lemma_program_code_is_unit(*p);
    }
    Ok(out)
}

} // verus!
