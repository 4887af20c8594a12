use vstd::prelude::*;

use crate::ast::{BinOp, Expr, Program, Stmt};
use crate::bytecode::{encode_op, encode_ops, lemma_decode_encoded_op, op_encodable, Op};
use crate::compiler::{
    arith_instr, expr_code, fits, program_code, stmt_code, stmts_code, text_bytes, CompileErrorKind,
};
use crate::vm::{initial_state, step_spec, supply_spec, ArithOp, Outcome, Val, VmError, VmState};

verus! {

/// The numeric operation of a binary operator.
pub open spec fn arith_of(op: BinOp) -> ArithOp {
    match op {
        BinOp::Add => ArithOp::Add,
        BinOp::Sub => ArithOp::Sub,
        BinOp::Mul => ArithOp::Mul,
        BinOp::Div => ArithOp::Div,
    }
}

/// The value of an expression under the variables `env`, with numeric
/// operations computed by `arith`; `None` where evaluation fails (an unbound
/// name, mismatched operand kinds, a call).
pub open spec fn eval(e: Expr, env: Map<Seq<u8>, Val>, arith: spec_fn(ArithOp, u64, u64) -> u64) -> Option<Val>
    decreases e,
{
    match e {
        Expr::Number(b) => Some(Val::Num(b)),
        Expr::Str(s) => Some(Val::Str(text_bytes(s))),
        Expr::Identifier(n) => if env.contains_key(text_bytes(n)) {
            Some(env[text_bytes(n)])
        } else {
            None
        },
        Expr::Binary(op, l, r) => match (eval(*l, env, arith), eval(*r, env, arith)) {
            (Some(Val::Num(x)), Some(Val::Num(y))) => Some(Val::Num(arith(arith_of(op), x, y))),
            (Some(Val::Str(x)), Some(Val::Str(y))) => if op is Add {
                Some(Val::Str(x + y))
            } else {
                None
            },
            _ => None,
        },
        Expr::Call(_, _) => None,
    }
}

/// One step of the machine run by a host that answers numeric operations
/// with `arith`.
pub open spec fn host_step(s: VmState, code: Seq<u8>, arith: spec_fn(ArithOp, u64, u64) -> u64) -> Result<(VmState, Outcome), VmError> {
    match step_spec(s, code) {
        Ok((t, Outcome::Arith(op, x, y))) => Ok((supply_spec(t, arith(op, x, y)), Outcome::Arith(op, x, y))),
        other => other,
    }
}

/// The values a step prints.
pub open spec fn printed(o: Outcome) -> Seq<Val> {
    match o {
        Outcome::Output(v) => seq![v],
        _ => Seq::empty(),
    }
}

/// `n` host steps from `s`: the state reached and the values printed, or the
/// first error.
pub open spec fn run_steps(s: VmState, code: Seq<u8>, arith: spec_fn(ArithOp, u64, u64) -> u64, n: nat) -> Result<(VmState, Seq<Val>), VmError>
    decreases n,
{
    if n == 0 {
        Ok((s, Seq::empty()))
    } else {
        match host_step(s, code, arith) {
            Err(e) => Err(e),
            Ok((t, o)) => match run_steps(t, code, arith, (n - 1) as nat) {
                Err(e) => Err(e),
                Ok((u, outs)) => Ok((u, printed(o) + outs)),
            },
        }
    }
}

proof fn lemma_run_steps_split(
    s: VmState,
    code: Seq<u8>,
    arith: spec_fn(ArithOp, u64, u64) -> u64,
    n1: nat,
    n2: nat,
    mid: VmState,
    out1: Seq<Val>,
)
    requires
        run_steps(s, code, arith, n1) == Ok::<(VmState, Seq<Val>), VmError>((mid, out1)),
    ensures
        run_steps(s, code, arith, n1 + n2) == match run_steps(mid, code, arith, n2) {
            Ok((u, out2)) => Ok::<(VmState, Seq<Val>), VmError>((u, out1 + out2)),
            Err(e) => Err(e),
        },
    decreases n1,
{
    if n1 == 0 {
        assert(mid == s && out1 == Seq::<Val>::empty());
        match run_steps(mid, code, arith, n2) {
            Ok((u, out2)) => {
                assert(out1 + out2 =~= out2);
            },
            Err(e) => {},
        }
    } else {
        let (t, o) = host_step(s, code, arith)->Ok_0;
        let (m2, o2) = run_steps(t, code, arith, (n1 - 1) as nat)->Ok_0;
        lemma_run_steps_split(t, code, arith, (n1 - 1) as nat, n2, m2, o2);
        assert((n1 + n2 - 1) as nat == (n1 - 1) as nat + n2);
        match run_steps(mid, code, arith, n2) {
            Ok((u, out2)) => {
                assert(printed(o) + (o2 + out2) =~= (printed(o) + o2) + out2);
            },
            Err(e) => {},
        }
    }
}

proof fn lemma_encode_ops_concat(a: Seq<Op>, b: Seq<Op>)
    ensures
        encode_ops(a + b) == encode_ops(a) + encode_ops(b),
    decreases a.len(),
{
    if a.len() == 0 {
        assert(a + b =~= b);
        assert(encode_ops(a) + encode_ops(b) =~= encode_ops(b));
    } else {
        assert((a + b).drop_first() =~= a.drop_first() + b);
        assert((a + b)[0] == a[0]);
        lemma_encode_ops_concat(a.drop_first(), b);
        assert(encode_ops(a + b) =~= encode_ops(a) + encode_ops(b));
    }
}

proof fn lemma_encode_one(op: Op)
    ensures
        encode_ops(seq![op]) == encode_op(op),
{
    assert(seq![op].drop_first() =~= Seq::<Op>::empty());
    assert(seq![op][0] == op);
    assert(encode_ops(Seq::<Op>::empty()) == Seq::<u8>::empty());
    assert(encode_op(op) + Seq::<u8>::empty() =~= encode_op(op));
}

/// The bytes of `code` from `p` on start with `part`.
pub open spec fn holds_at(code: Seq<u8>, p: int, part: Seq<u8>) -> bool {
    0 <= p && p + part.len() <= code.len() && code.subrange(p, p + part.len()) == part
}

proof fn lemma_holds_split(code: Seq<u8>, p: int, a: Seq<u8>, b: Seq<u8>)
    requires
        holds_at(code, p, a + b),
    ensures
        holds_at(code, p, a),
        holds_at(code, p + a.len(), b),
{
    let whole = code.subrange(p, p + (a + b).len());
    assert forall|i: int| 0 <= i < a.len() implies code.subrange(p, p + a.len())[i] == a[i] by {
        assert(whole[i] == (a + b)[i]);
    }
    assert(code.subrange(p, p + a.len()) =~= a);
    assert forall|i: int| 0 <= i < b.len() implies code.subrange(p + a.len(), p + a.len() + b.len())[i] == b[i] by {
        assert(whole[a.len() + i] == (a + b)[a.len() + i]);
    }
    assert(code.subrange(p + a.len(), p + a.len() + b.len()) =~= b);
}

proof fn lemma_decode_at(code: Seq<u8>, p: int, op: Op)
    requires
        op_encodable(op),
        holds_at(code, p, encode_op(op)),
    ensures
        p < code.len(),
        crate::bytecode::decode_op(code, p) == Ok::<(Op, int), crate::bytecode::ArtifactError>(
            (op, p + encode_op(op).len()),
        ),
{
    crate::bytecode::lemma_encode_op_len(op);
    let pre = code.take(p);
    let post = code.skip(p + encode_op(op).len());
    assert(code =~= pre + encode_op(op) + post);
    lemma_decode_encoded_op(pre, op, post);
}

/// The state after pushing `v` and moving the program counter by `d` bytes.
pub open spec fn pushed(s: VmState, v: Val, d: int) -> VmState {
    VmState { stack: s.stack.push(v), globals: s.globals, pc: s.pc + d, pending: s.pending, halted: s.halted }
}

proof fn lemma_expr_runs(e: Expr, s: VmState, code: Seq<u8>, arith: spec_fn(ArithOp, u64, u64) -> u64)
    requires
        expr_code(e) is Ok,
        eval(e, s.globals, arith) is Some,
        !s.halted,
        !s.pending,
        holds_at(code, s.pc, encode_ops(expr_code(e)->Ok_0)),
    ensures
        run_steps(s, code, arith, expr_code(e)->Ok_0.len()) == Ok::<(VmState, Seq<Val>), VmError>(
            (pushed(s, eval(e, s.globals, arith)->Some_0, encode_ops(expr_code(e)->Ok_0).len() as int), Seq::empty()),
        ),
    decreases e,
{
    let c = expr_code(e)->Ok_0;
    let v = eval(e, s.globals, arith)->Some_0;
    match e {
        Expr::Binary(op, l, r) => {
            let lc = expr_code(*l)->Ok_0;
            let rc = expr_code(*r)->Ok_0;
            let o = arith_instr(op);
            let vl = eval(*l, s.globals, arith)->Some_0;
            let vr = eval(*r, s.globals, arith)->Some_0;
            lemma_encode_ops_concat(lc + rc, seq![o]);
            lemma_encode_ops_concat(lc, rc);
            lemma_encode_one(o);
            let el = encode_ops(lc);
            let er = encode_ops(rc);
            assert(encode_ops(c) == el + er + encode_op(o));
            lemma_holds_split(code, s.pc, el + er, encode_op(o));
            lemma_holds_split(code, s.pc, el, er);
            lemma_expr_runs(*l, s, code, arith);
            let s1 = pushed(s, vl, el.len() as int);
            lemma_expr_runs(*r, s1, code, arith);
            let s2 = pushed(s1, vr, er.len() as int);
            lemma_run_steps_split(s, code, arith, lc.len(), rc.len(), s1, Seq::empty());
            lemma_run_steps_split(s, code, arith, lc.len() + rc.len(), 1, s2, Seq::<Val>::empty() + Seq::empty());
            lemma_decode_at(code, s2.pc, o);
            let n = s2.stack.len();
            assert(s2.stack[n - 2] == vl && s2.stack[n - 1] == vr);
            assert(s2.stack.take(n - 2) =~= s.stack);
            let fin = pushed(s, v, encode_ops(c).len() as int);
            let st = host_step(s2, code, arith)->Ok_0.0;
            assert(st.stack =~= fin.stack);
            assert(st == fin);
            let oc = host_step(s2, code, arith)->Ok_0.1;
            assert(printed(oc) + Seq::<Val>::empty() =~= Seq::<Val>::empty());
            assert(run_steps(st, code, arith, 0) == Ok::<(VmState, Seq<Val>), VmError>((st, Seq::empty())));
            assert(run_steps(s2, code, arith, 1) == Ok::<(VmState, Seq<Val>), VmError>((fin, Seq::empty())));
            assert(Seq::<Val>::empty() + Seq::<Val>::empty() + Seq::<Val>::empty() =~= Seq::<Val>::empty());
            assert(lc.len() + rc.len() + 1 == c.len());
        },
        _ => {
            let op = c[0];
            lemma_encode_one(op);
            assert(c == seq![op]);
            lemma_decode_at(code, s.pc, op);
            let fin = pushed(s, v, encode_op(op).len() as int);
            let st = host_step(s, code, arith)->Ok_0.0;
            assert(st == fin);
            assert(run_steps(st, code, arith, 0) == Ok::<(VmState, Seq<Val>), VmError>((st, Seq::empty())));
            assert(Seq::<Val>::empty() + Seq::<Val>::empty() =~= Seq::<Val>::empty());
        },
    }
}

proof fn lemma_let_write_runs(
    p: Program,
    x: String,
    y: String,
    e: Expr,
    arith: spec_fn(ArithOp, u64, u64) -> u64,
)
    requires
        p.statements@.len() == 2,
        p.statements@[0] == Stmt::VarDecl(x, Some(e)),
        p.statements@[1] == Stmt::Write(Expr::Identifier(y)),
        x@ == y@,
        fits(x),
        expr_code(e) is Ok,
        eval(e, Map::empty(), arith) is Some,
    ensures
        program_code(p) is Ok,
        ({
            let ops = program_code(p)->Ok_0;
            let r = run_steps(initial_state(), encode_ops(ops), arith, ops.len());
            let v = eval(e, Map::empty(), arith)->Some_0;
            &&& r is Ok
            &&& r->Ok_0.1 == seq![v]
            &&& r->Ok_0.0.halted
            &&& r->Ok_0.0.globals == Map::<Seq<u8>, Val>::empty().insert(text_bytes(x), v)
            &&& r->Ok_0.0.stack.len() == 0
        }),
{
    let xb = text_bytes(x);
    let c = expr_code(e)->Ok_0;
    let v = eval(e, Map::empty(), arith)->Some_0;
    let stmts = p.statements@;
    assert(stmt_code(stmts[0]) == Ok::<Seq<Op>, crate::compiler::CompileErrorKind>(c + seq![Op::Store(xb)]));
    assert(text_bytes(y) == xb);
    assert(expr_code(Expr::Identifier(y)) == Ok::<Seq<Op>, crate::compiler::CompileErrorKind>(seq![Op::Load(xb)]));
    assert(stmt_code(stmts[1]) == Ok::<Seq<Op>, crate::compiler::CompileErrorKind>(seq![Op::Load(xb)] + seq![Op::Write]));
    assert(stmts_code(stmts, 0) == Ok::<Seq<Op>, crate::compiler::CompileError>(Seq::empty()));
    assert(stmts_code(stmts, 1) == Ok::<Seq<Op>, crate::compiler::CompileError>(Seq::empty() + (c + seq![Op::Store(xb)])));
    let ops = Seq::empty() + (c + seq![Op::Store(xb)]) + (seq![Op::Load(xb)] + seq![Op::Write]) + seq![Op::Halt];
    assert(program_code(p) == Ok::<Seq<Op>, crate::compiler::CompileError>(ops));
    let tail = seq![Op::Store(xb), Op::Load(xb), Op::Write, Op::Halt];
    assert(ops =~= c + tail);
    lemma_encode_ops_concat(c, tail);
    let code = encode_ops(ops);
    let ec = encode_ops(c);
    assert(holds_at(code, 0, ec + encode_ops(tail))) by {
        assert(code.subrange(0, code.len() as int) =~= code);
    }
    lemma_holds_split(code, 0, ec, encode_ops(tail));
    let s0 = initial_state();
    lemma_expr_runs(e, s0, code, arith);
    let s1 = pushed(s0, v, ec.len() as int);
    // the four instructions after the expression
    let t1 = seq![Op::Load(xb), Op::Write, Op::Halt];
    let t2 = seq![Op::Write, Op::Halt];
    let t3 = seq![Op::Halt];
    assert(tail.drop_first() =~= t1);
    assert(t1.drop_first() =~= t2);
    assert(t2.drop_first() =~= t3);
    lemma_encode_one(Op::Halt);
    assert(encode_ops(tail) == encode_op(Op::Store(xb)) + encode_ops(t1));
    assert(encode_ops(t1) == encode_op(Op::Load(xb)) + encode_ops(t2));
    assert(encode_ops(t2) == encode_op(Op::Write) + encode_ops(t3));
    let es = encode_op(Op::Store(xb));
    let el = encode_op(Op::Load(xb));
    let ew = encode_op(Op::Write);
    lemma_holds_split(code, s1.pc, es, encode_ops(t1));
    lemma_holds_split(code, s1.pc + es.len(), el, encode_ops(t2));
    lemma_holds_split(code, s1.pc + es.len() + el.len(), ew, encode_ops(t3));
    lemma_decode_at(code, s1.pc, Op::Store(xb));
    lemma_decode_at(code, s1.pc + es.len(), Op::Load(xb));
    lemma_decode_at(code, s1.pc + es.len() + el.len(), Op::Write);
    lemma_decode_at(code, s1.pc + es.len() + el.len() + ew.len(), Op::Halt);
    let g = Map::<Seq<u8>, Val>::empty().insert(xb, v);
    let s2 = VmState { stack: Seq::empty(), globals: g, pc: s1.pc + es.len(), pending: false, halted: false };
    assert(s1.stack.drop_last() =~= Seq::<Val>::empty());
    assert(host_step(s1, code, arith) == Ok::<(VmState, Outcome), VmError>((s2, Outcome::Continue)));
    let s3 = VmState { stack: seq![v], globals: g, pc: s2.pc + el.len(), pending: false, halted: false };
    assert(s2.stack.push(v) =~= seq![v]);
    assert(host_step(s2, code, arith) == Ok::<(VmState, Outcome), VmError>((s3, Outcome::Continue)));
    let s4 = VmState { stack: Seq::empty(), globals: g, pc: s3.pc + ew.len(), pending: false, halted: false };
    assert(s3.stack.drop_last() =~= Seq::<Val>::empty());
    assert(host_step(s3, code, arith) == Ok::<(VmState, Outcome), VmError>((s4, Outcome::Output(v))));
    let s5 = VmState { stack: Seq::empty(), globals: g, pc: s4.pc + 1, pending: false, halted: true };
    assert(host_step(s4, code, arith) == Ok::<(VmState, Outcome), VmError>((s5, Outcome::Halted)));
    assert(run_steps(s5, code, arith, 0) == Ok::<(VmState, Seq<Val>), VmError>((s5, Seq::empty())));
    assert(run_steps(s4, code, arith, 1) == Ok::<(VmState, Seq<Val>), VmError>((s5, Seq::empty() + Seq::empty())));
    assert(run_steps(s3, code, arith, 2) == Ok::<(VmState, Seq<Val>), VmError>((s5, seq![v] + (Seq::<Val>::empty() + Seq::empty()))));
    assert(run_steps(s2, code, arith, 3) == Ok::<(VmState, Seq<Val>), VmError>((s5, Seq::<Val>::empty() + (seq![v] + (Seq::<Val>::empty() + Seq::empty())))));
    assert(run_steps(s1, code, arith, 4) == Ok::<(VmState, Seq<Val>), VmError>((s5, Seq::<Val>::empty() + (Seq::<Val>::empty() + (seq![v] + (Seq::<Val>::empty() + Seq::empty()))))));
    assert(Seq::<Val>::empty() + (Seq::<Val>::empty() + (seq![v] + (Seq::<Val>::empty() + Seq::<Val>::empty()))) =~= seq![v]);
    lemma_run_steps_split(s0, code, arith, c.len(), 4, s1, Seq::empty());
    assert(Seq::<Val>::empty() + seq![v] =~= seq![v]);
    assert(ops.len() == c.len() + 4);
}

/// An expression that evaluates compiles, unless a string or name in it is
/// too long for a length prefix.
proof fn lemma_evaluable_compiles(e: Expr, env: Map<Seq<u8>, Val>, arith: spec_fn(ArithOp, u64, u64) -> u64)
    requires
        eval(e, env, arith) is Some,
    ensures
        expr_code(e) is Ok || expr_code(e) == Err::<Seq<Op>, CompileErrorKind>(CompileErrorKind::PayloadTooLarge),
    decreases e,
{
    if let Expr::Binary(_, l, r) = e {
        lemma_evaluable_compiles(*l, env, arith);
        lemma_evaluable_compiles(*r, env, arith);
    }
}

/// The program `let x = e; write x;`, where `e` evaluates to `v` with no
/// variable bound, either compiles and, run by a host that computes numeric
/// operations with `arith`, prints exactly `v`, halts with `x` bound to `v` as
/// the only variable and an empty stack; or it does not compile only because
/// a string or name is too long for the artifact's 4-byte length prefix.
pub proof fn lemma_let_write_prints_value(
    p: Program,
    x: String,
    y: String,
    e: Expr,
    arith: spec_fn(ArithOp, u64, u64) -> u64,
)
    requires
        p.statements@.len() == 2,
        p.statements@[0] == Stmt::VarDecl(x, Some(e)),
        p.statements@[1] == Stmt::Write(Expr::Identifier(y)),
        x@ == y@,
        eval(e, Map::empty(), arith) is Some,
    ensures
        match program_code(p) {
            Ok(ops) => {
                let r = run_steps(initial_state(), encode_ops(ops), arith, ops.len());
                let v = eval(e, Map::empty(), arith)->Some_0;
                &&& r is Ok
                &&& r->Ok_0.1 == seq![v]
                &&& r->Ok_0.0.halted
                &&& r->Ok_0.0.globals == Map::<Seq<u8>, Val>::empty().insert(text_bytes(x), v)
                &&& r->Ok_0.0.stack.len() == 0
            },
            Err(err) => err.kind == CompileErrorKind::PayloadTooLarge,
        },
{
    lemma_evaluable_compiles(e, Map::empty(), arith);
    let stmts = p.statements@;
    if fits(x) && expr_code(e) is Ok {
        lemma_let_write_runs(p, x, y, e, arith);
    } else {
        assert(stmts_code(stmts, 0) == Ok::<Seq<Op>, crate::compiler::CompileError>(Seq::empty()));
        assert(stmt_code(stmts[0]) == Err::<Seq<Op>, CompileErrorKind>(CompileErrorKind::PayloadTooLarge));
        assert(stmts_code(stmts, 1) is Err);
        assert(stmts_code(stmts, 2) == stmts_code(stmts, 1));
    }
}

} // verus!
