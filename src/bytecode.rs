use vstd::bytes::*;
use vstd::prelude::*;
use vstd::slice::*;

verus! {

/// One instruction of the virtual machine.
///
/// Numbers are carried as the bit pattern of an IEEE-754 binary64 value;
/// strings and names as raw bytes.
#[derive(Clone, Debug, PartialEq, Eq)]
pub enum Instr {
    PushNum(u64),
    PushStr(Vec<u8>),
    Add,
    Sub,
    Mul,
    Div,
    Store(Vec<u8>),
    Load(Vec<u8>),
    Call(u64),
    Write,
    Halt,
}

/// The mathematical model of an instruction.
pub enum Op {
    PushNum(u64),
    PushStr(Seq<u8>),
    Add,
    Sub,
    Mul,
    Div,
    Store(Seq<u8>),
    Load(Seq<u8>),
    Call(u64),
    Write,
    Halt,
}

impl View for Instr {
    type V = Op;

    open spec fn view(&self) -> Op {
        match self {
            Instr::PushNum(b) => Op::PushNum(*b),
            Instr::PushStr(s) => Op::PushStr(s@),
            Instr::Add => Op::Add,
            Instr::Sub => Op::Sub,
            Instr::Mul => Op::Mul,
            Instr::Div => Op::Div,
            Instr::Store(n) => Op::Store(n@),
            Instr::Load(n) => Op::Load(n@),
            Instr::Call(k) => Op::Call(*k),
            Instr::Write => Op::Write,
            Instr::Halt => Op::Halt,
        }
    }
}

/// The models of a sequence of instructions.
pub open spec fn ops_of(v: Seq<Instr>) -> Seq<Op> {
    v.map_values(|i: Instr| i@)
}

/// Opcode tags of the artifact format.
pub const TAG_PUSH_NUM: u8 = 0;
pub const TAG_PUSH_STR: u8 = 1;
pub const TAG_ADD: u8 = 2;
pub const TAG_SUB: u8 = 3;
pub const TAG_MUL: u8 = 4;
pub const TAG_DIV: u8 = 5;
pub const TAG_STORE: u8 = 6;
pub const TAG_LOAD: u8 = 7;
pub const TAG_CALL: u8 = 8;
pub const TAG_WRITE: u8 = 9;
pub const TAG_HALT: u8 = 10;

/// A payload with a 4-byte length prefix can hold at most this many bytes.
pub open spec fn payload_fits(s: Seq<u8>) -> bool {
    s.len() <= u32::MAX
}

/// Every length-prefixed payload of the instruction can be encoded.
pub open spec fn op_encodable(op: Op) -> bool {
    match op {
        Op::PushStr(s) => payload_fits(s),
        Op::Store(s) => payload_fits(s),
        Op::Load(s) => payload_fits(s),
        _ => true,
    }
}

/// A length-prefixed payload: its length as 4 little-endian bytes, then the bytes.
pub open spec fn prefixed(s: Seq<u8>) -> Seq<u8> {
    spec_u32_to_le_bytes(s.len() as u32) + s
}

/// The bytes of one instruction: its tag, then its payload.
pub open spec fn encode_op(op: Op) -> Seq<u8> {
    match op {
        Op::PushNum(b) => seq![TAG_PUSH_NUM] + spec_u64_to_le_bytes(b),
        Op::PushStr(s) => seq![TAG_PUSH_STR] + prefixed(s),
        Op::Add => seq![TAG_ADD],
        Op::Sub => seq![TAG_SUB],
        Op::Mul => seq![TAG_MUL],
        Op::Div => seq![TAG_DIV],
        Op::Store(s) => seq![TAG_STORE] + prefixed(s),
        Op::Load(s) => seq![TAG_LOAD] + prefixed(s),
        Op::Call(k) => seq![TAG_CALL] + spec_u64_to_le_bytes(k),
        Op::Write => seq![TAG_WRITE],
        Op::Halt => seq![TAG_HALT],
    }
}

/// The artifact of an instruction sequence: the encodings one after another.
pub open spec fn encode_ops(ops: Seq<Op>) -> Seq<u8>
    decreases ops.len(),
{
    if ops.len() == 0 {
        Seq::empty()
    } else {
        encode_op(ops[0]) + encode_ops(ops.drop_first())
    }
}

/// Why an artifact could not be read.
#[derive(Clone, Copy, Debug, PartialEq, Eq, Structural)]
pub enum ArtifactErrorKind {
    /// The artifact ends inside the instruction.
    Truncated,
    /// The byte at the instruction's offset is no opcode tag.
    UnknownOpcode(u8),
    /// The artifact ends before a `Halt` instruction.
    MissingHalt,
}

/// An ill-formed artifact, with the byte offset of the instruction at fault.
#[derive(Clone, Copy, Debug, PartialEq, Eq, Structural)]
pub struct ArtifactError {
    pub kind: ArtifactErrorKind,
    pub offset: usize,
}

/// The error for an instruction at `pos` that the artifact cuts short.
pub open spec fn truncated(pos: int) -> ArtifactError {
    ArtifactError { kind: ArtifactErrorKind::Truncated, offset: pos as usize }
}

/// The payload of a length-prefixed instruction whose tag stands at `pos`,
/// with the offset just past it.
pub open spec fn decode_prefixed(code: Seq<u8>, pos: int) -> Result<(Seq<u8>, int), ArtifactError> {
    if pos + 5 > code.len() {
        Err(truncated(pos))
    } else {
        let n = spec_u32_from_le_bytes(code.subrange(pos + 1, pos + 5)) as int;
        if pos + 5 + n > code.len() {
            Err(truncated(pos))
        } else {
            Ok((code.subrange(pos + 5, pos + 5 + n), pos + 5 + n))
        }
    }
}

/// The 8-byte payload of an instruction whose tag stands at `pos`.
pub open spec fn decode_word(code: Seq<u8>, pos: int) -> Result<(u64, int), ArtifactError> {
    if pos + 9 > code.len() {
        Err(truncated(pos))
    } else {
        Ok((spec_u64_from_le_bytes(code.subrange(pos + 1, pos + 9)), pos + 9))
    }
}

/// The instruction that starts at byte `pos` of an artifact, with the offset of
/// the next one.
pub open spec fn decode_op(code: Seq<u8>, pos: int) -> Result<(Op, int), ArtifactError>
    recommends
        0 <= pos < code.len(),
{
    let tag = code[pos];
    if tag == TAG_PUSH_NUM {
        match decode_word(code, pos) {
            Ok((b, next)) => Ok((Op::PushNum(b), next)),
            Err(e) => Err(e),
        }
    } else if tag == TAG_PUSH_STR {
        match decode_prefixed(code, pos) {
            Ok((s, next)) => Ok((Op::PushStr(s), next)),
            Err(e) => Err(e),
        }
    } else if tag == TAG_ADD {
        Ok((Op::Add, pos + 1))
    } else if tag == TAG_SUB {
        Ok((Op::Sub, pos + 1))
    } else if tag == TAG_MUL {
        Ok((Op::Mul, pos + 1))
    } else if tag == TAG_DIV {
        Ok((Op::Div, pos + 1))
    } else if tag == TAG_STORE {
        match decode_prefixed(code, pos) {
            Ok((s, next)) => Ok((Op::Store(s), next)),
            Err(e) => Err(e),
        }
    } else if tag == TAG_LOAD {
        match decode_prefixed(code, pos) {
            Ok((s, next)) => Ok((Op::Load(s), next)),
            Err(e) => Err(e),
        }
    } else if tag == TAG_CALL {
        match decode_word(code, pos) {
            Ok((k, next)) => Ok((Op::Call(k), next)),
            Err(e) => Err(e),
        }
    } else if tag == TAG_WRITE {
        Ok((Op::Write, pos + 1))
    } else if tag == TAG_HALT {
        Ok((Op::Halt, pos + 1))
    } else {
        Err(ArtifactError { kind: ArtifactErrorKind::UnknownOpcode(tag), offset: pos as usize })
    }
}

/// The instructions read from byte `pos` up to and including the first `Halt`.
pub open spec fn decode_from(code: Seq<u8>, pos: int) -> Result<Seq<Op>, ArtifactError>
    decreases code.len() - pos,
{
    if pos < 0 || pos >= code.len() {
        Err(ArtifactError { kind: ArtifactErrorKind::MissingHalt, offset: pos as usize })
    } else {
        match decode_op(code, pos) {
            Err(e) => Err(e),
            Ok((op, next)) => if op is Halt {
                Ok(seq![op])
            } else if next <= pos {
                Err(truncated(pos))
            } else {
                match decode_from(code, next) {
                    Ok(rest) => Ok(seq![op] + rest),
                    Err(e) => Err(e),
                }
            },
        }
    }
}

/// A compiled unit: encodable instructions that end in exactly one `Halt`.
pub open spec fn is_unit(ops: Seq<Op>) -> bool {
    &&& ops.len() > 0
    &&& ops.last() is Halt
    &&& forall|i: int| 0 <= i < ops.len() - 1 ==> !(#[trigger] ops[i] is Halt)
    &&& forall|i: int| 0 <= i < ops.len() ==> op_encodable(#[trigger] ops[i])
}

/// The first byte of an encoded instruction is its tag.
pub proof fn lemma_encode_op_len(op: Op)
    requires
        op_encodable(op),
    ensures
        encode_op(op).len() >= 1,
        encode_op(op)[0] == match op {
            Op::PushNum(_) => TAG_PUSH_NUM,
            Op::PushStr(_) => TAG_PUSH_STR,
            Op::Add => TAG_ADD,
            Op::Sub => TAG_SUB,
            Op::Mul => TAG_MUL,
            Op::Div => TAG_DIV,
            Op::Store(_) => TAG_STORE,
            Op::Load(_) => TAG_LOAD,
            Op::Call(_) => TAG_CALL,
            Op::Write => TAG_WRITE,
            Op::Halt => TAG_HALT,
        },
{
    lemma_auto_spec_u64_to_from_le_bytes();
    lemma_auto_spec_u32_to_from_le_bytes();
}

/// Decoding the bytes of one instruction, wherever they stand, gives it back.
pub proof fn lemma_decode_encoded_op(pre: Seq<u8>, op: Op, post: Seq<u8>)
    requires
        op_encodable(op),
    ensures
        decode_op(pre + encode_op(op) + post, pre.len() as int) == Ok::<(Op, int), ArtifactError>(
            (op, pre.len() + encode_op(op).len() as int),
        ),
{
    lemma_auto_spec_u64_to_from_le_bytes();
    lemma_auto_spec_u32_to_from_le_bytes();
    let code = pre + encode_op(op) + post;
    let p = pre.len() as int;
    lemma_encode_op_len(op);
    assert(code[p] == encode_op(op)[0]);
    match op {
        Op::PushNum(b) => {
            assert(code.subrange(p + 1, p + 9) =~= spec_u64_to_le_bytes(b));
        },
        Op::Call(b) => {
            assert(code.subrange(p + 1, p + 9) =~= spec_u64_to_le_bytes(b));
        },
        Op::PushStr(s) => {
            let n = s.len() as u32;
            assert(code.subrange(p + 1, p + 5) =~= spec_u32_to_le_bytes(n));
            assert(code.subrange(p + 5, p + 5 + s.len()) =~= s);
        },
        Op::Store(s) => {
            let n = s.len() as u32;
            assert(code.subrange(p + 1, p + 5) =~= spec_u32_to_le_bytes(n));
            assert(code.subrange(p + 5, p + 5 + s.len()) =~= s);
        },
        Op::Load(s) => {
            let n = s.len() as u32;
            assert(code.subrange(p + 1, p + 5) =~= spec_u32_to_le_bytes(n));
            assert(code.subrange(p + 5, p + 5 + s.len()) =~= s);
        },
        _ => {},
    }
}

proof fn lemma_encode_ops_snoc(ops: Seq<Op>, op: Op)
    ensures
        encode_ops(ops.push(op)) == encode_ops(ops) + encode_op(op),
    decreases ops.len(),
{
    if ops.len() == 0 {
        assert(ops.push(op).drop_first() =~= Seq::<Op>::empty());
        assert(encode_ops(Seq::<Op>::empty()) == Seq::<u8>::empty());
        assert(ops.push(op)[0] == op);
        assert(encode_ops(ops) == Seq::<u8>::empty());
        assert(encode_ops(ops.push(op)) =~= encode_op(op));
    } else {
        assert(ops.push(op).drop_first() =~= ops.drop_first().push(op));
        lemma_encode_ops_snoc(ops.drop_first(), op);
        assert(encode_ops(ops.push(op)) =~= encode_ops(ops) + encode_op(op));
    }
}

proof fn lemma_decode_suffix(pre: Seq<u8>, ops: Seq<Op>, post: Seq<u8>)
    requires
        is_unit(ops),
    ensures
        decode_from(pre + encode_ops(ops) + post, pre.len() as int) == Ok::<Seq<Op>, ArtifactError>(ops),
    decreases ops.len(),
{
    let code = pre + encode_ops(ops) + post;
    let op = ops[0];
    let rest = ops.drop_first();
    assert(encode_ops(ops) == encode_op(op) + encode_ops(rest));
    assert(code =~= pre + encode_op(op) + (encode_ops(rest) + post));
    lemma_decode_encoded_op(pre, op, encode_ops(rest) + post);
    lemma_encode_op_len(op);
    if op is Halt {
        assert(ops.len() == 1) by {
            if ops.len() > 1 {
                assert(!(ops[0] is Halt));
            }
        }
        assert(ops =~= seq![op]);
    } else {
        assert(ops.len() > 1);
        assert(is_unit(rest)) by {
            assert forall|i: int| 0 <= i < rest.len() - 1 implies !(#[trigger] rest[i] is Halt) by {
                assert(rest[i] == ops[i + 1]);
            }
            assert forall|i: int| 0 <= i < rest.len() implies op_encodable(#[trigger] rest[i]) by {
                assert(rest[i] == ops[i + 1]);
            }
        }
        let pre2 = pre + encode_op(op);
        assert(code =~= pre2 + encode_ops(rest) + post);
        lemma_decode_suffix(pre2, rest, post);
        assert(seq![op] + rest =~= ops);
    }
}

/// Decoding the artifact of a compiled unit gives back exactly its instructions.
pub proof fn lemma_round_trip(ops: Seq<Op>)
    requires
        is_unit(ops),
    ensures
        decode_from(encode_ops(ops), 0) == Ok::<Seq<Op>, ArtifactError>(ops),
{
    lemma_decode_suffix(Seq::empty(), ops, Seq::empty());
    assert(Seq::<u8>::empty() + encode_ops(ops) + Seq::<u8>::empty() =~= encode_ops(ops));
}

proof fn lemma_decoded_op_bytes(code: Seq<u8>, pos: int)
    requires
        0 <= pos < code.len(),
        decode_op(code, pos) is Ok,
    ensures
        ({
            let (op, next) = decode_op(code, pos)->Ok_0;
            &&& op_encodable(op)
            &&& pos < next <= code.len()
            &&& next == pos + encode_op(op).len()
            &&& code.subrange(pos, next) == encode_op(op)
        }),
{
    lemma_auto_spec_u64_to_from_le_bytes();
    lemma_auto_spec_u32_to_from_le_bytes();
    let (op, next) = decode_op(code, pos)->Ok_0;
    let tag = code[pos];
    if tag == TAG_PUSH_NUM || tag == TAG_CALL {
        let w = code.subrange(pos + 1, pos + 9);
        assert(spec_u64_to_le_bytes(spec_u64_from_le_bytes(w)) == w);
        assert(code.subrange(pos, next) =~= seq![tag] + w);
    } else if tag == TAG_PUSH_STR || tag == TAG_STORE || tag == TAG_LOAD {
        let l = code.subrange(pos + 1, pos + 5);
        let n = spec_u32_from_le_bytes(l);
        let payload = code.subrange(pos + 5, pos + 5 + n);
        assert(spec_u32_to_le_bytes(n) == l);
        assert(payload.len() as u32 == n);
        assert(code.subrange(pos, next) =~= seq![tag] + (l + payload));
    } else {
        assert(code.subrange(pos, next) =~= seq![tag]);
    }
}

proof fn lemma_decoded_bytes(code: Seq<u8>, pos: int)
    requires
        0 <= pos,
        decode_from(code, pos) is Ok,
    ensures
        is_unit(decode_from(code, pos)->Ok_0),
        pos + encode_ops(decode_from(code, pos)->Ok_0).len() <= code.len(),
        code.subrange(pos, pos + encode_ops(decode_from(code, pos)->Ok_0).len()) == encode_ops(
            decode_from(code, pos)->Ok_0,
        ),
    decreases code.len() - pos,
{
    let ops = decode_from(code, pos)->Ok_0;
    lemma_decoded_op_bytes(code, pos);
    let (op, next) = decode_op(code, pos)->Ok_0;
    if op is Halt {
        assert(ops == seq![op]);
        assert(ops.drop_first() =~= Seq::<Op>::empty());
        assert(encode_ops(ops.drop_first()) == Seq::<u8>::empty());
        assert(encode_ops(ops) =~= encode_op(op));
    } else {
        let rest = decode_from(code, next)->Ok_0;
        lemma_decoded_bytes(code, next);
        assert(ops == seq![op] + rest);
        assert(ops.drop_first() =~= rest);
        assert(ops[0] == op);
        assert(encode_ops(ops) == encode_op(op) + encode_ops(rest));
        let end = next + encode_ops(rest).len();
        assert(code.subrange(pos, end) =~= code.subrange(pos, next) + code.subrange(next, end));
        assert forall|i: int| 0 <= i < ops.len() - 1 implies !(#[trigger] ops[i] is Halt) by {
            if i > 0 {
                assert(ops[i] == rest[i - 1]);
            }
        }
        assert forall|i: int| 0 <= i < ops.len() implies op_encodable(#[trigger] ops[i]) by {
            if i > 0 {
                assert(ops[i] == rest[i - 1]);
            }
        }
    }
}

/// Whatever an artifact decodes to is a compiled unit whose encoding is
/// exactly the bytes that were read: re-encoding reproduces the artifact up to
/// its `Halt`.
pub proof fn lemma_decode_then_encode(code: Seq<u8>)
    requires
        decode_from(code, 0) is Ok,
    ensures
        is_unit(decode_from(code, 0)->Ok_0),
        encode_ops(decode_from(code, 0)->Ok_0) == code.take(
            encode_ops(decode_from(code, 0)->Ok_0).len() as int,
        ),
{
    lemma_decoded_bytes(code, 0);
}

proof fn lemma_decode_cut(pre: Seq<u8>, ops: Seq<Op>, m: int)
    requires
        is_unit(ops),
        pre.len() <= m < pre.len() + encode_ops(ops).len(),
    ensures
        decode_from((pre + encode_ops(ops)).take(m), pre.len() as int) is Err,
    decreases ops.len(),
{
    lemma_auto_spec_u64_to_from_le_bytes();
    lemma_auto_spec_u32_to_from_le_bytes();
    let code = (pre + encode_ops(ops)).take(m);
    let p = pre.len() as int;
    let op = ops[0];
    let b = encode_op(op);
    let rest = ops.drop_first();
    assert(encode_ops(ops) == b + encode_ops(rest));
    lemma_encode_op_len(op);
    if m == p {
        assert(code.len() == p);
    } else if m < p + b.len() {
        assert(code[p] == b[0]);
        match op {
            Op::PushStr(s) => {
                if m >= p + 5 {
                    assert(code.subrange(p + 1, p + 5) =~= spec_u32_to_le_bytes(s.len() as u32));
                }
            },
            Op::Store(s) => {
                if m >= p + 5 {
                    assert(code.subrange(p + 1, p + 5) =~= spec_u32_to_le_bytes(s.len() as u32));
                }
            },
            Op::Load(s) => {
                if m >= p + 5 {
                    assert(code.subrange(p + 1, p + 5) =~= spec_u32_to_le_bytes(s.len() as u32));
                }
            },
            _ => {},
        }
        assert(decode_op(code, p) is Err);
    } else {
        if op is Halt {
            if ops.len() > 1 {
                assert(!(ops[0] is Halt));
            }
            assert(rest.len() == 0);
            assert(encode_ops(rest) == Seq::<u8>::empty());
        }
        assert(!(op is Halt));
        assert(ops.len() > 1);
        assert(is_unit(rest)) by {
            assert forall|i: int| 0 <= i < rest.len() - 1 implies !(#[trigger] rest[i] is Halt) by {
                assert(rest[i] == ops[i + 1]);
            }
            assert forall|i: int| 0 <= i < rest.len() implies op_encodable(#[trigger] rest[i]) by {
                assert(rest[i] == ops[i + 1]);
            }
        }
        let pre2 = pre + b;
        let tail = encode_ops(rest).take(m - p - b.len());
        assert(code =~= pre + b + tail);
        lemma_decode_encoded_op(pre, op, tail);
        assert(code =~= (pre2 + encode_ops(rest)).take(m));
        lemma_decode_cut(pre2, rest, m);
    }
}

/// Cutting the artifact of a compiled unit anywhere before its end, inside a
/// payload or between instructions, makes decoding fail.
pub proof fn lemma_truncated_artifact_fails(ops: Seq<Op>, m: int)
    requires
        is_unit(ops),
        0 <= m < encode_ops(ops).len(),
    ensures
        decode_from(encode_ops(ops).take(m), 0) is Err,
{
    lemma_decode_cut(Seq::empty(), ops, m);
    assert(Seq::<u8>::empty() + encode_ops(ops) =~= encode_ops(ops));
}

/// A `PushStr` whose declared length runs past the end of the artifact is
/// reported as truncated at the instruction's offset.
pub proof fn lemma_short_payload_is_truncated(code: Seq<u8>, pos: int)
    requires
        0 <= pos,
        pos + 5 <= code.len(),
        code[pos] == TAG_PUSH_STR,
        pos + 5 + spec_u32_from_le_bytes(code.subrange(pos + 1, pos + 5)) > code.len(),
    ensures
        decode_op(code, pos) == Err::<(Op, int), ArtifactError>(truncated(pos)),
        decode_from(code, pos) == Err::<Seq<Op>, ArtifactError>(truncated(pos)),
{
}

/// Appends the encoding of one instruction to `out`.
pub fn encode_instr(instr: &Instr, out: &mut Vec<u8>)
    requires
        op_encodable(instr@),
    ensures
        final(out)@ == old(out)@ + encode_op(instr@),
{
    match instr {
        Instr::PushNum(b) => {
            out.push(TAG_PUSH_NUM);
            let mut w = u64_to_le_bytes(*b);
            out.append(&mut w);
        },
        Instr::PushStr(s) => {
            out.push(TAG_PUSH_STR);
            push_prefixed(s, out);
        },
        Instr::Add => out.push(TAG_ADD),
        Instr::Sub => out.push(TAG_SUB),
        Instr::Mul => out.push(TAG_MUL),
        Instr::Div => out.push(TAG_DIV),
        Instr::Store(s) => {
            out.push(TAG_STORE);
            push_prefixed(s, out);
        },
        Instr::Load(s) => {
            out.push(TAG_LOAD);
            push_prefixed(s, out);
        },
        Instr::Call(k) => {
            out.push(TAG_CALL);
            let mut w = u64_to_le_bytes(*k);
            out.append(&mut w);
        },
        Instr::Write => out.push(TAG_WRITE),
        Instr::Halt => out.push(TAG_HALT),
    }
    proof {
        assert(final(out)@ =~= old(out)@ + encode_op(instr@));
    }
}

fn push_prefixed(s: &Vec<u8>, out: &mut Vec<u8>)
    requires
        payload_fits(s@),
    ensures
        final(out)@ == old(out)@ + prefixed(s@),
{
    let mut len = u32_to_le_bytes(s.len() as u32);
    out.append(&mut len);
    out.extend_from_slice(s.as_slice());
    proof {
        assert(final(out)@ =~= old(out)@ + prefixed(s@));
    }
}

/// The artifact of an instruction sequence.
pub fn encode(instrs: &Vec<Instr>) -> (r: Vec<u8>)
    requires
        forall|i: int| 0 <= i < instrs@.len() ==> op_encodable(#[trigger] instrs@[i]@),
    ensures
        r@ == encode_ops(ops_of(instrs@)),
{
    let mut out: Vec<u8> = Vec::new();
    let mut i: usize = 0;
    while i < instrs.len()
        invariant
            i <= instrs@.len(),
            forall|j: int| 0 <= j < instrs@.len() ==> op_encodable(#[trigger] instrs@[j]@),
            out@ == encode_ops(ops_of(instrs@.take(i as int))),
        decreases instrs@.len() - i,
    {
        proof {
            assert(ops_of(instrs@.take(i + 1)) =~= ops_of(instrs@.take(i as int)).push(instrs@[i as int]@));
            lemma_encode_ops_snoc(ops_of(instrs@.take(i as int)), instrs@[i as int]@);
        }
        encode_instr(&instrs[i], &mut out);
        i += 1;
    }
    proof {
        assert(instrs@.take(i as int) =~= instrs@);
    }
    out
}

fn read_prefixed(code: &[u8], pos: usize) -> (r: Result<(Vec<u8>, usize), ArtifactError>)
    requires
        pos < code@.len(),
    ensures
        match (r, decode_prefixed(code@, pos as int)) {
            (Ok((s, next)), Ok((t, n))) => s@ == t && next == n,
            (Err(e), Err(f)) => e == f,
            _ => false,
        },
{
    if code.len() - pos < 5 {
        return Err(ArtifactError { kind: ArtifactErrorKind::Truncated, offset: pos });
    }
    let n = u32_from_le_bytes(slice_subrange(code, pos + 1, pos + 5)) as usize;
    if code.len() - (pos + 5) < n {
        return Err(ArtifactError { kind: ArtifactErrorKind::Truncated, offset: pos });
    }
    let s = slice_to_vec(slice_subrange(code, pos + 5, pos + 5 + n));
    Ok((s, pos + 5 + n))
}

fn read_word(code: &[u8], pos: usize) -> (r: Result<(u64, usize), ArtifactError>)
    requires
        pos < code@.len(),
    ensures
        match (r, decode_word(code@, pos as int)) {
            (Ok((w, next)), Ok((v, n))) => w == v && next == n,
            (Err(e), Err(f)) => e == f,
            _ => false,
        },
{
    if code.len() - pos < 9 {
        return Err(ArtifactError { kind: ArtifactErrorKind::Truncated, offset: pos });
    }
    let w = u64_from_le_bytes(slice_subrange(code, pos + 1, pos + 9));
    Ok((w, pos + 9))
}

/// Reads the instruction that starts at byte `pos`.
pub fn decode_at(code: &[u8], pos: usize) -> (r: Result<(Instr, usize), ArtifactError>)
    requires
        pos < code@.len(),
    ensures
        match (r, decode_op(code@, pos as int)) {
            (Ok((i, next)), Ok((op, n))) => i@ == op && next == n,
            (Err(e), Err(f)) => e == f,
            _ => false,
        },
        r matches Ok((_, next)) ==> pos < next <= code@.len(),
{
    let tag = code[pos];
    if tag == TAG_PUSH_NUM {
        match read_word(code, pos) {
            Ok((b, next)) => Ok((Instr::PushNum(b), next)),
            Err(e) => Err(e),
        }
    } else if tag == TAG_PUSH_STR {
        match read_prefixed(code, pos) {
            Ok((s, next)) => Ok((Instr::PushStr(s), next)),
            Err(e) => Err(e),
        }
    } else if tag == TAG_ADD {
        Ok((Instr::Add, pos + 1))
    } else if tag == TAG_SUB {
        Ok((Instr::Sub, pos + 1))
    } else if tag == TAG_MUL {
        Ok((Instr::Mul, pos + 1))
    } else if tag == TAG_DIV {
        Ok((Instr::Div, pos + 1))
    } else if tag == TAG_STORE {
        match read_prefixed(code, pos) {
            Ok((s, next)) => Ok((Instr::Store(s), next)),
            Err(e) => Err(e),
        }
    } else if tag == TAG_LOAD {
        match read_prefixed(code, pos) {
            Ok((s, next)) => Ok((Instr::Load(s), next)),
            Err(e) => Err(e),
        }
    } else if tag == TAG_CALL {
        match read_word(code, pos) {
            Ok((k, next)) => Ok((Instr::Call(k), next)),
            Err(e) => Err(e),
        }
    } else if tag == TAG_WRITE {
        Ok((Instr::Write, pos + 1))
    } else if tag == TAG_HALT {
        Ok((Instr::Halt, pos + 1))
    } else {
        Err(ArtifactError { kind: ArtifactErrorKind::UnknownOpcode(tag), offset: pos })
    }
}

/// Reads a whole artifact: the instructions up to and including the first
/// `Halt`. Bytes after it are not read.
pub fn decode(code: &[u8]) -> (r: Result<Vec<Instr>, ArtifactError>)
    ensures
        match (r, decode_from(code@, 0)) {
            (Ok(v), Ok(ops)) => ops_of(v@) == ops,
            (Err(e), Err(f)) => e == f,
            _ => false,
        },
{
    let mut out: Vec<Instr> = Vec::new();
    let mut pos: usize = 0;
    loop
        invariant
            pos <= code@.len(),
            forall|ops: Seq<Op>|
                decode_from(code@, pos as int) == Ok::<Seq<Op>, ArtifactError>(ops)
                    ==> #[trigger] decode_from(code@, 0) == Ok::<Seq<Op>, ArtifactError>(
                    ops_of(out@) + ops,
                ),
            forall|e: ArtifactError|
                decode_from(code@, pos as int) == Err::<Seq<Op>, ArtifactError>(e)
                    ==> #[trigger] decode_from(code@, 0) == Err::<Seq<Op>, ArtifactError>(e),
        decreases code@.len() - pos,
    {
        if pos >= code.len() {
            return Err(ArtifactError { kind: ArtifactErrorKind::MissingHalt, offset: pos });
        }
        match decode_at(code, pos) {
            Err(e) => {
                return Err(e);
            },
            Ok((instr, next)) => {
                let ghost op = instr@;
                let ghost prev = out@;
                let halt = matches!(instr, Instr::Halt);
                out.push(instr);
                proof {
                    assert(ops_of(out@) =~= ops_of(prev).push(op)) by {
                        assert(out@ =~= prev.push(instr));
                    }
                }
                if halt {
                    proof {
                        assert(decode_from(code@, pos as int) == Ok::<Seq<Op>, ArtifactError>(seq![op]));
                        assert(ops_of(prev) + seq![op] =~= ops_of(out@));
                    }
                    return Ok(out);
                }
                proof {
                    assert forall|ops: Seq<Op>|
                        decode_from(code@, next as int) == Ok::<Seq<Op>, ArtifactError>(ops)
                        implies #[trigger] decode_from(code@, 0) == Ok::<Seq<Op>, ArtifactError>(
                        ops_of(out@) + ops) by {
                        assert(decode_from(code@, pos as int) == Ok::<Seq<Op>, ArtifactError>(seq![op] + ops));
                        assert(ops_of(prev) + (seq![op] + ops) =~= ops_of(out@) + ops);
                    }
                }
                pos = next;
            },
        }
    }
}

} // verus!
