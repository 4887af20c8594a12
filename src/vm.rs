use vstd::prelude::*;
use vstd::slice::*;

use crate::bytecode::{decode_at, decode_op, ArtifactErrorKind, Instr, Op};

verus! {

/// The mathematical model of a runtime value.
pub enum Val {
    Num(u64),
    Str(Seq<u8>),
}

/// A runtime value: a number, as the bit pattern of an IEEE-754 binary64
/// value, or a string of bytes.
#[derive(Clone, Debug, PartialEq, Eq)]
pub enum Value {
    Num(u64),
    Str(Vec<u8>),
}

impl View for Value {
    type V = Val;

    open spec fn view(&self) -> Val {
        match self {
            Value::Num(b) => Val::Num(*b),
            Value::Str(s) => Val::Str(s@),
        }
    }
}

/// A copy of `v`.
pub fn copy_bytes(v: &Vec<u8>) -> (r: Vec<u8>)
    ensures
        r@ == v@,
{
    slice_to_vec(v.as_slice())
}

impl Value {
    /// A copy of the value.
    pub fn copy(&self) -> (r: Value)
        ensures
            r@ == self@,
    {
        match self {
            Value::Num(b) => Value::Num(*b),
            Value::Str(s) => Value::Str(copy_bytes(s)),
        }
    }
}

/// Whether two byte strings are equal.
pub fn bytes_eq(a: &[u8], b: &[u8]) -> (r: bool)
    ensures
        r == (a@ == b@),
{
    if a.len() != b.len() {
        return false;
    }
    let mut i: usize = 0;
    while i < a.len()
        invariant
            a@.len() == b@.len(),
            i <= a@.len(),
            a@.take(i as int) == b@.take(i as int),
        decreases a@.len() - i,
    {
        if a[i] != b[i] {
            proof {
                assert(a@[i as int] != b@[i as int]);
            }
            return false;
        }
        proof {
            assert(a@.take(i + 1) =~= a@.take(i as int).push(a@[i as int]));
            assert(b@.take(i + 1) =~= b@.take(i as int).push(b@[i as int]));
        }
        i += 1;
    }
    proof {
        assert(a@.take(i as int) =~= a@);
        assert(b@.take(i as int) =~= b@);
    }
    true
}

/// A numeric operation that the host carries out in binary64 arithmetic.
#[derive(Clone, Copy, Debug, PartialEq, Eq, Structural)]
pub enum ArithOp {
    Add,
    Sub,
    Mul,
    Div,
}

/// What a step leaves for the host to do.
#[derive(Clone, Debug, PartialEq, Eq)]
pub enum Effect {
    /// Nothing: the step was carried out within the machine.
    Continue,
    /// Print the value.
    Output(Value),
    /// Compute `left op right` in binary64 arithmetic and hand the bit pattern
    /// of the result to `supply`.
    Arith(ArithOp, u64, u64),
    /// The program has stopped at `Halt`.
    Halted,
}

/// The model of an [`Effect`].
pub enum Outcome {
    Continue,
    Output(Val),
    Arith(ArithOp, u64, u64),
    Halted,
}

impl View for Effect {
    type V = Outcome;

    open spec fn view(&self) -> Outcome {
        match self {
            Effect::Continue => Outcome::Continue,
            Effect::Output(v) => Outcome::Output(v@),
            Effect::Arith(op, l, r) => Outcome::Arith(*op, *l, *r),
            Effect::Halted => Outcome::Halted,
        }
    }
}

/// Why execution stopped with an error.
#[derive(Clone, Copy, Debug, PartialEq, Eq, Structural)]
pub enum VmErrorKind {
    /// The artifact is ill-formed at the instruction.
    Artifact(ArtifactErrorKind),
    /// The instruction needs more operands than the stack holds.
    StackUnderflow,
    /// The operator does not apply to the kinds of its operands.
    TypeMismatch,
    /// A `Load` names a variable that was never stored.
    UndefinedVariable,
    /// The instruction has no runtime support (`Call`).
    Unsupported,
}

/// A runtime error, with the byte offset of the instruction at fault.
#[derive(Clone, Copy, Debug, PartialEq, Eq, Structural)]
pub struct VmError {
    pub kind: VmErrorKind,
    pub offset: usize,
}

/// The model of the machine: operand stack, global variables, program counter,
/// whether a numeric result is awaited from the host, and whether it halted.
pub struct VmState {
    pub stack: Seq<Val>,
    pub globals: Map<Seq<u8>, Val>,
    pub pc: int,
    pub pending: bool,
    pub halted: bool,
}

/// The state in which a run starts.
pub open spec fn initial_state() -> VmState {
    VmState { stack: Seq::empty(), globals: Map::empty(), pc: 0, pending: false, halted: false }
}

/// An error of the given kind at the instruction at `pc`.
pub open spec fn vm_err(kind: VmErrorKind, pc: int) -> VmError {
    VmError { kind, offset: pc as usize }
}

/// The numeric operation of an arithmetic instruction.
pub open spec fn arith_op(op: Op) -> ArithOp {
    match op {
        Op::Add => ArithOp::Add,
        Op::Sub => ArithOp::Sub,
        Op::Mul => ArithOp::Mul,
        _ => ArithOp::Div,
    }
}

/// The state with the stack replaced and the program counter at `next`.
pub open spec fn advance(s: VmState, stack: Seq<Val>, next: int) -> VmState {
    VmState { stack, globals: s.globals, pc: next, pending: s.pending, halted: s.halted }
}

/// The effect of one decoded instruction `op`, which ends at byte `next`.
pub open spec fn exec_op(s: VmState, op: Op, next: int) -> Result<(VmState, Outcome), VmError> {
    let n = s.stack.len();
    match op {
        Op::PushNum(b) => Ok((advance(s, s.stack.push(Val::Num(b)), next), Outcome::Continue)),
        Op::PushStr(t) => Ok((advance(s, s.stack.push(Val::Str(t)), next), Outcome::Continue)),
        Op::Store(name) => if n < 1 {
            Err(vm_err(VmErrorKind::StackUnderflow, s.pc))
        } else {
            Ok((
                VmState {
                    stack: s.stack.drop_last(),
                    globals: s.globals.insert(name, s.stack.last()),
                    pc: next,
                    pending: s.pending,
                    halted: s.halted,
                },
                Outcome::Continue,
            ))
        },
        Op::Load(name) => if s.globals.contains_key(name) {
            Ok((advance(s, s.stack.push(s.globals[name]), next), Outcome::Continue))
        } else {
            Err(vm_err(VmErrorKind::UndefinedVariable, s.pc))
        },
        Op::Call(_) => Err(vm_err(VmErrorKind::Unsupported, s.pc)),
        Op::Write => if n < 1 {
            Err(vm_err(VmErrorKind::StackUnderflow, s.pc))
        } else {
            Ok((advance(s, s.stack.drop_last(), next), Outcome::Output(s.stack.last())))
        },
        Op::Halt => Ok((
            VmState { stack: s.stack, globals: s.globals, pc: next, pending: s.pending, halted: true },
            Outcome::Halted,
        )),
        _ => if n < 2 {
            Err(vm_err(VmErrorKind::StackUnderflow, s.pc))
        } else {
            let rest = s.stack.take(n - 2);
            match (s.stack[n - 2], s.stack[n - 1]) {
                (Val::Num(x), Val::Num(y)) => Ok((
                    VmState { stack: rest, globals: s.globals, pc: next, pending: true, halted: s.halted },
                    Outcome::Arith(arith_op(op), x, y),
                )),
                (Val::Str(x), Val::Str(y)) => if op is Add {
                    Ok((advance(s, rest.push(Val::Str(x + y)), next), Outcome::Continue))
                } else {
                    Err(vm_err(VmErrorKind::TypeMismatch, s.pc))
                },
                _ => Err(vm_err(VmErrorKind::TypeMismatch, s.pc)),
            }
        },
    }
}

/// One step of the machine on the artifact `code`: decode the instruction at
/// the program counter and carry it out. A halted machine stays halted.
pub open spec fn step_spec(s: VmState, code: Seq<u8>) -> Result<(VmState, Outcome), VmError> {
    if s.halted {
        Ok((s, Outcome::Halted))
    } else if s.pc < 0 || s.pc >= code.len() {
        Err(vm_err(VmErrorKind::Artifact(ArtifactErrorKind::MissingHalt), s.pc))
    } else {
        match decode_op(code, s.pc) {
            Err(e) => Err(VmError { kind: VmErrorKind::Artifact(e.kind), offset: e.offset }),
            Ok((op, next)) => exec_op(s, op, next),
        }
    }
}

/// Loading a name that no `Store` has bound is a runtime-reference error at
/// the `Load`'s offset: no default value is pushed.
pub proof fn lemma_unbound_load_fails(s: VmState, code: Seq<u8>, name: Seq<u8>, next: int)
    requires
        !s.halted,
        0 <= s.pc < code.len(),
        decode_op(code, s.pc) == Ok::<(Op, int), crate::bytecode::ArtifactError>((Op::Load(name), next)),
        !s.globals.contains_key(name),
    ensures
        step_spec(s, code) == Err::<(VmState, Outcome), VmError>(vm_err(VmErrorKind::UndefinedVariable, s.pc)),
{
}

/// `Sub`, `Mul` and `Div` with a string operand are runtime-type errors at the
/// instruction's offset: no value is coerced.
pub proof fn lemma_string_operand_fails(s: VmState, code: Seq<u8>, op: Op, next: int)
    requires
        !s.halted,
        0 <= s.pc < code.len(),
        decode_op(code, s.pc) == Ok::<(Op, int), crate::bytecode::ArtifactError>((op, next)),
        op is Sub || op is Mul || op is Div,
        s.stack.len() >= 2,
        s.stack[s.stack.len() - 2] is Str || s.stack[s.stack.len() - 1] is Str,
    ensures
        step_spec(s, code) == Err::<(VmState, Outcome), VmError>(vm_err(VmErrorKind::TypeMismatch, s.pc)),
{
}

/// The state after the host hands back the result of a numeric operation.
pub open spec fn supply_spec(s: VmState, bits: u64) -> VmState {
    VmState {
        stack: s.stack.push(Val::Num(bits)),
        globals: s.globals,
        pc: s.pc,
        pending: false,
        halted: s.halted,
    }
}

/// A global variable binding.
pub struct Binding {
    pub name: Vec<u8>,
    pub value: Value,
}

/// The variables that a list of bindings defines, later bindings taking
/// precedence.
pub open spec fn env_of(b: Seq<Binding>) -> Map<Seq<u8>, Val>
    decreases b.len(),
{
    if b.len() == 0 {
        Map::empty()
    } else {
        env_of(b.drop_last()).insert(b.last().name@, b.last().value@)
    }
}

pub open spec fn names_unique(b: Seq<Binding>) -> bool {
    forall|i: int, j: int|
        0 <= i < b.len() && 0 <= j < b.len() && i != j ==> #[trigger] b[i].name@ != #[trigger] b[j].name@
}

proof fn lemma_env_has(b: Seq<Binding>, i: int)
    requires
        names_unique(b),
        0 <= i < b.len(),
    ensures
        env_of(b).contains_key(b[i].name@),
        env_of(b)[b[i].name@] == b[i].value@,
    decreases b.len(),
{
    if i < b.len() - 1 {
        let d = b.drop_last();
        assert(d[i] == b[i]);
        assert(names_unique(d)) by {
            assert forall|x: int, y: int|
                0 <= x < d.len() && 0 <= y < d.len() && x != y implies #[trigger] d[x].name@
                != #[trigger] d[y].name@ by {
                assert(d[x] == b[x] && d[y] == b[y]);
            }
        }
        lemma_env_has(d, i);
        assert(b[b.len() - 1].name@ != b[i].name@);
    }
}

proof fn lemma_env_lacks(b: Seq<Binding>, k: Seq<u8>)
    requires
        forall|i: int| 0 <= i < b.len() ==> #[trigger] b[i].name@ != k,
    ensures
        !env_of(b).contains_key(k),
    decreases b.len(),
{
    if b.len() > 0 {
        let d = b.drop_last();
        assert forall|i: int| 0 <= i < d.len() implies #[trigger] d[i].name@ != k by {
            assert(d[i] == b[i]);
        }
        lemma_env_lacks(d, k);
        assert(b[b.len() - 1].name@ != k);
    }
}

proof fn lemma_env_update(b: Seq<Binding>, i: int, nb: Binding)
    requires
        names_unique(b),
        0 <= i < b.len(),
        nb.name@ == b[i].name@,
    ensures
        env_of(b.update(i, nb)) == env_of(b).insert(nb.name@, nb.value@),
    decreases b.len(),
{
    let u = b.update(i, nb);
    let d = b.drop_last();
    if i == b.len() - 1 {
        assert(u.drop_last() =~= d);
        assert(env_of(u) =~= env_of(b).insert(nb.name@, nb.value@));
    } else {
        assert(u.drop_last() =~= d.update(i, nb));
        assert(names_unique(d)) by {
            assert forall|x: int, y: int|
                0 <= x < d.len() && 0 <= y < d.len() && x != y implies #[trigger] d[x].name@
                != #[trigger] d[y].name@ by {
                assert(d[x] == b[x] && d[y] == b[y]);
            }
        }
        assert(d[i] == b[i]);
        lemma_env_update(d, i, nb);
        assert(b[b.len() - 1].name@ != b[i].name@);
        assert(u.last() == b.last());
        assert(env_of(u) =~= env_of(b).insert(nb.name@, nb.value@));
    }
}

/// The virtual machine: operand stack, global variables and program counter.
pub struct VM {
    stack: Vec<Value>,
    vars: Vec<Binding>,
    pc: usize,
    pending: bool,
    halted: bool,
}

impl View for VM {
    type V = VmState;

    closed spec fn view(&self) -> VmState {
        VmState {
            stack: self.stack@.map_values(|v: Value| v@),
            globals: env_of(self.vars@),
            pc: self.pc as int,
            pending: self.pending,
            halted: self.halted,
        }
    }
}

impl VM {
    /// The machine's invariant: no variable is bound twice.
    pub closed spec fn wf(&self) -> bool {
        names_unique(self.vars@)
    }

    /// A machine in its initial state.
    pub fn new() -> (r: VM)
        ensures
            r.wf(),
            r@ == initial_state(),
    {
        let r = VM { stack: Vec::new(), vars: Vec::new(), pc: 0, pending: false, halted: false };
        proof {
            assert(r@.stack =~= Seq::<Val>::empty());
            assert(r@.globals =~= Map::<Seq<u8>, Val>::empty());
        }
        r
    }

    /// Whether the machine waits for the result of a numeric operation.
    pub fn is_pending(&self) -> (r: bool)
        ensures
            r == self@.pending,
    {
        self.pending
    }

    /// Whether the machine has stopped at `Halt`.
    pub fn is_halted(&self) -> (r: bool)
        ensures
            r == self@.halted,
    {
        self.halted
    }

    /// The program counter: the byte offset of the next instruction.
    pub fn pc(&self) -> (r: usize)
        ensures
            r == self@.pc,
    {
        self.pc
    }

    /// The number of values on the operand stack.
    pub fn stack_len(&self) -> (r: usize)
        ensures
            r == self@.stack.len(),
    {
        self.stack.len()
    }

    /// A copy of the value of the global variable `name`, if it is bound.
    pub fn global(&self, name: &[u8]) -> (r: Option<Value>)
        requires
            self.wf(),
        ensures
            match r {
                Some(v) => self@.globals.contains_key(name@) && self@.globals[name@] == v@,
                None => !self@.globals.contains_key(name@),
            },
    {
        match self.find(name) {
            Some(i) => Some(self.vars[i].value.copy()),
            None => None,
        }
    }

    fn find(&self, name: &[u8]) -> (r: Option<usize>)
        requires
            self.wf(),
        ensures
            match r {
                Some(i) => i < self.vars@.len() && self.vars@[i as int].name@ == name@
                    && self@.globals.contains_key(name@)
                    && self@.globals[name@] == self.vars@[i as int].value@,
                None => !self@.globals.contains_key(name@),
            },
    {
        let mut i: usize = 0;
        while i < self.vars.len()
            invariant
                i <= self.vars@.len(),
                names_unique(self.vars@),
                forall|j: int| 0 <= j < i ==> #[trigger] self.vars@[j].name@ != name@,
            decreases self.vars@.len() - i,
        {
            if bytes_eq(self.vars[i].name.as_slice(), name) {
                proof {
                    lemma_env_has(self.vars@, i as int);
                }
                return Some(i);
            }
            i += 1;
        }
        proof {
            lemma_env_lacks(self.vars@, name@);
        }
        None
    }

    fn bind(&mut self, name: Vec<u8>, value: Value)
        requires
            old(self).wf(),
        ensures
            final(self).wf(),
            final(self)@ == (VmState { globals: old(self)@.globals.insert(name@, value@), ..old(self)@ }),
    {
        let ghost k = name@;
        let ghost v = value@;
        match self.find(name.as_slice()) {
            Some(i) => {
                let ghost nb = Binding { name, value };
                proof {
                    lemma_env_update(self.vars@, i as int, nb);
                }
                self.vars.set(i, Binding { name, value });
                proof {
                    assert(self.vars@ =~= old(self).vars@.update(i as int, nb));
                    assert(names_unique(self.vars@)) by {
                        assert forall|x: int, y: int|
                            0 <= x < self.vars@.len() && 0 <= y < self.vars@.len() && x != y
                            implies #[trigger] self.vars@[x].name@ != #[trigger] self.vars@[y].name@ by {
                            assert(old(self).vars@[x].name@ == self.vars@[x].name@);
                            assert(old(self).vars@[y].name@ == self.vars@[y].name@);
                        }
                    }
                }
            },
            None => {
                proof {
                    assert forall|j: int| 0 <= j < self.vars@.len() implies #[trigger] self.vars@[j].name@ != k by {
                        if self.vars@[j].name@ == k {
                            lemma_env_has(self.vars@, j);
                        }
                    }
                }
                self.vars.push(Binding { name, value });
                proof {
                    assert(self.vars@.drop_last() =~= old(self).vars@);
                    assert(names_unique(self.vars@)) by {
                        assert forall|x: int, y: int|
                            0 <= x < self.vars@.len() && 0 <= y < self.vars@.len() && x != y
                            implies #[trigger] self.vars@[x].name@ != #[trigger] self.vars@[y].name@ by {
                            if x < old(self).vars@.len() && y < old(self).vars@.len() {
                                assert(old(self).vars@[x] == self.vars@[x]);
                                assert(old(self).vars@[y] == self.vars@[y]);
                            } else if x < old(self).vars@.len() {
                                assert(old(self).vars@[x] == self.vars@[x]);
                            } else {
                                assert(old(self).vars@[y] == self.vars@[y]);
                            }
                        }
                    }
                }
            },
        }
        proof {
            assert(self@.globals == old(self)@.globals.insert(k, v));
        }
    }

    /// Hands back the bit pattern of the result that the last step asked for.
    pub fn supply(&mut self, bits: u64)
        requires
            old(self).wf(),
            old(self)@.pending,
        ensures
            final(self).wf(),
            final(self)@ == supply_spec(old(self)@, bits),
    {
        self.stack.push(Value::Num(bits));
        self.pending = false;
        proof {
            assert(self@.stack =~= old(self)@.stack.push(Val::Num(bits)));
        }
    }

    /// Carries out one instruction of the artifact `code`.
    ///
    /// On an error the machine is left as it was.
    pub fn step(&mut self, code: &[u8]) -> (r: Result<Effect, VmError>)
        requires
            old(self).wf(),
            !old(self)@.pending,
        ensures
            final(self).wf(),
            match (r, step_spec(old(self)@, code@)) {
                (Ok(e), Ok((st, out))) => final(self)@ == st && e@ == out,
                (Err(e), Err(f)) => e == f && final(self)@ == old(self)@,
                _ => false,
            },
    {
        if self.halted {
            return Ok(Effect::Halted);
        }
        let pc = self.pc;
        if pc >= code.len() {
            return Err(VmError { kind: VmErrorKind::Artifact(ArtifactErrorKind::MissingHalt), offset: pc });
        }
        let (instr, next) = match decode_at(code, pc) {
            Ok(d) => d,
            Err(e) => {
                return Err(VmError { kind: VmErrorKind::Artifact(e.kind), offset: e.offset });
            },
        };
        let ghost stack0 = self@.stack;
        let n = self.stack.len();
        match instr {
            Instr::PushNum(b) => {
                self.stack.push(Value::Num(b));
                self.pc = next;
                proof {
                    assert(self@.stack =~= stack0.push(Val::Num(b)));
                }
                Ok(Effect::Continue)
            },
            Instr::PushStr(t) => {
                let ghost tv = t@;
                self.stack.push(Value::Str(t));
                self.pc = next;
                proof {
                    assert(self@.stack =~= stack0.push(Val::Str(tv)));
                }
                Ok(Effect::Continue)
            },
            Instr::Store(name) => {
                if n < 1 {
                    return Err(VmError { kind: VmErrorKind::StackUnderflow, offset: pc });
                }
                let v = self.stack.pop().unwrap();
                proof {
                    assert(self@.stack =~= stack0.drop_last());
                }
                self.bind(name, v);
                self.pc = next;
                Ok(Effect::Continue)
            },
            Instr::Load(name) => {
                match self.find(name.as_slice()) {
                    Some(i) => {
                        let v = self.vars[i].value.copy();
                        self.stack.push(v);
                        self.pc = next;
                        proof {
                            assert(self@.stack =~= stack0.push(old(self)@.globals[name@]));
                        }
                        Ok(Effect::Continue)
                    },
                    None => Err(VmError { kind: VmErrorKind::UndefinedVariable, offset: pc }),
                }
            },
            Instr::Call(_) => Err(VmError { kind: VmErrorKind::Unsupported, offset: pc }),
            Instr::Write => {
                if n < 1 {
                    return Err(VmError { kind: VmErrorKind::StackUnderflow, offset: pc });
                }
                let v = self.stack.pop().unwrap();
                self.pc = next;
                proof {
                    assert(self@.stack =~= stack0.drop_last());
                }
                Ok(Effect::Output(v))
            },
            Instr::Halt => {
                self.pc = next;
                self.halted = true;
                Ok(Effect::Halted)
            },
            _ => {
                let op = match instr {
                    Instr::Add => ArithOp::Add,
                    Instr::Sub => ArithOp::Sub,
                    Instr::Mul => ArithOp::Mul,
                    _ => ArithOp::Div,
                };
                if n < 2 {
                    return Err(VmError { kind: VmErrorKind::StackUnderflow, offset: pc });
                }
                let kinds_ok = match (&self.stack[n - 2], &self.stack[n - 1]) {
                    (Value::Num(_), Value::Num(_)) => true,
                    (Value::Str(_), Value::Str(_)) => matches!(op, ArithOp::Add),
                    _ => false,
                };
                if !kinds_ok {
                    return Err(VmError { kind: VmErrorKind::TypeMismatch, offset: pc });
                }
                let right = self.stack.pop().unwrap();
                let left = self.stack.pop().unwrap();
                proof {
                    assert(self@.stack =~= stack0.take(n - 2));
                }
                self.pc = next;
                match (left, right) {
                    (Value::Num(x), Value::Num(y)) => {
                        self.pending = true;
                        Ok(Effect::Arith(op, x, y))
                    },
                    (Value::Str(mut x), Value::Str(mut y)) => {
                        let ghost xv = x@;
                        let ghost yv = y@;
                        x.append(&mut y);
                        self.stack.push(Value::Str(x));
                        proof {
                            assert(self@.stack =~= stack0.take(n - 2).push(Val::Str(xv + yv)));
                        }
                        Ok(Effect::Continue)
                    },
                    _ => Err(VmError { kind: VmErrorKind::TypeMismatch, offset: pc }),
                }
            },
        }
    }
}

} // verus!
