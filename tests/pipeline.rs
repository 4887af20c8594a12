use vira::{
    compile, decode, encode, parse, tokenize, ArithOp, ArtifactErrorKind, CompileErrorKind, Effect,
    Instr, Value, VmError, VmErrorKind, VM,
};

fn render(v: &Value) -> String {
    match v {
        Value::Num(bits) => format!("{}", f64::from_bits(*bits)),
        Value::Str(bytes) => String::from_utf8_lossy(bytes).to_string(),
    }
}

fn run_bytes(code: &[u8]) -> Result<Vec<String>, VmError> {
    let mut vm = VM::new();
    let mut out = Vec::new();
    loop {
        match vm.step(code)? {
            Effect::Continue => {}
            Effect::Output(v) => out.push(render(&v)),
            Effect::Arith(op, l, r) => {
                let (a, b) = (f64::from_bits(l), f64::from_bits(r));
                let x = match op {
                    ArithOp::Add => a + b,
                    ArithOp::Sub => a - b,
                    ArithOp::Mul => a * b,
                    ArithOp::Div => a / b,
                };
                vm.supply(x.to_bits());
            }
            Effect::Halted => return Ok(out),
        }
    }
}

fn artifact(src: &str) -> Vec<u8> {
    let tokens = tokenize(src).expect("lexes");
    let program = parse(tokens).expect("parses");
    let code = compile(&program).expect("compiles");
    encode(&code)
}

fn run_source(src: &str) -> Result<Vec<String>, VmError> {
    run_bytes(&artifact(src))
}

#[test]
fn precedence_of_multiplication() {
    assert_eq!(run_source("write 2 + 3 * 4;").unwrap(), vec!["14"]);
}

#[test]
fn string_concatenation() {
    assert_eq!(run_source("write \"a\" + \"b\";").unwrap(), vec!["ab"]);
}

#[test]
fn unary_minus() {
    assert_eq!(run_source("write -5 + 2;").unwrap(), vec!["-3"]);
}

#[test]
fn let_then_write_prints_value() {
    assert_eq!(run_source("let x = 2 * (3 + 4); write x;").unwrap(), vec!["14"]);
    assert_eq!(run_source("let s = \"hi\" + \"!\"; write s;").unwrap(), vec!["hi!"]);
    assert_eq!(run_source("let x = 7 / 2; write x;").unwrap(), vec!["3.5"]);
}

#[test]
fn let_without_initializer_is_zero() {
    assert_eq!(run_source("let x; write x;").unwrap(), vec!["0"]);
}

#[test]
fn rebinding_overwrites() {
    assert_eq!(run_source("let x = 1; let x = x + 1; write x;").unwrap(), vec!["2"]);
}

#[test]
fn left_associative_subtraction_and_division() {
    assert_eq!(run_source("write 10 - 3 - 2;").unwrap(), vec!["5"]);
    assert_eq!(run_source("write 16 / 4 / 2;").unwrap(), vec!["2"]);
}

#[test]
fn division_by_zero_is_infinite() {
    assert_eq!(run_source("write 1 / 0;").unwrap(), vec!["inf"]);
}

#[test]
fn undefined_variable_is_runtime_error() {
    let err = run_source("write z;").unwrap_err();
    assert_eq!(err.kind, VmErrorKind::UndefinedVariable);
    assert_eq!(err.offset, 0);
}

#[test]
fn string_operands_are_type_errors() {
    for src in ["write \"a\" - 1;", "write 2 * \"b\";", "write \"a\" / \"b\";", "write 1 + \"b\";"] {
        let err = run_source(src).unwrap_err();
        assert_eq!(err.kind, VmErrorKind::TypeMismatch, "{}", src);
    }
}

#[test]
fn truncated_push_str_is_artifact_error() {
    let code = artifact("write \"hello\";");
    // tag, 4 length bytes, then only two of the five payload bytes
    let cut = &code[..7];
    let err = decode(cut).unwrap_err();
    assert_eq!(err.kind, ArtifactErrorKind::Truncated);
    assert_eq!(err.offset, 0);
    let err = run_bytes(cut).unwrap_err();
    assert_eq!(err.kind, VmErrorKind::Artifact(ArtifactErrorKind::Truncated));
}

#[test]
fn truncated_length_prefix_is_artifact_error() {
    let err = decode(&[1, 5, 0]).unwrap_err();
    assert_eq!(err.kind, ArtifactErrorKind::Truncated);
}

#[test]
fn encode_then_decode_round_trips() {
    let instrs = vec![
        Instr::PushNum(2.5f64.to_bits()),
        Instr::PushStr(b"abc".to_vec()),
        Instr::Add,
        Instr::Sub,
        Instr::Mul,
        Instr::Div,
        Instr::Store(b"x".to_vec()),
        Instr::Load(b"x".to_vec()),
        Instr::Call(3),
        Instr::Write,
        Instr::Halt,
    ];
    let bytes = encode(&instrs);
    assert_eq!(decode(&bytes).unwrap(), instrs);
    assert_eq!(encode(&decode(&bytes).unwrap()), bytes);
}

#[test]
fn encoding_matches_wire_format() {
    let bytes = encode(&vec![
        Instr::PushNum(1.0f64.to_bits()),
        Instr::PushStr(b"hi".to_vec()),
        Instr::Write,
        Instr::Halt,
    ]);
    let mut expected = vec![0u8];
    expected.extend_from_slice(&1.0f64.to_le_bytes());
    expected.extend_from_slice(&[1, 2, 0, 0, 0, b'h', b'i', 9, 10]);
    assert_eq!(bytes, expected);
}

#[test]
fn decode_stops_at_halt() {
    assert_eq!(decode(&[9, 10, 2, 255]).unwrap(), vec![Instr::Write, Instr::Halt]);
}

#[test]
fn decode_requires_halt() {
    let err = decode(&[2, 3]).unwrap_err();
    assert_eq!(err.kind, ArtifactErrorKind::MissingHalt);
    assert_eq!(err.offset, 2);
}

#[test]
fn unknown_opcode_is_artifact_error() {
    let err = decode(&[42, 10]).unwrap_err();
    assert_eq!(err.kind, ArtifactErrorKind::UnknownOpcode(42));
    let err = run_bytes(&[42, 10]).unwrap_err();
    assert_eq!(err.kind, VmErrorKind::Artifact(ArtifactErrorKind::UnknownOpcode(42)));
}

#[test]
fn machine_stops_at_halt_despite_trailing_bytes() {
    assert_eq!(run_bytes(&[10, 42, 42]).unwrap(), Vec::<String>::new());
}

#[test]
fn machine_without_halt_fails() {
    let err = run_bytes(&[]).unwrap_err();
    assert_eq!(err.kind, VmErrorKind::Artifact(ArtifactErrorKind::MissingHalt));
}

#[test]
fn stack_underflow_is_error() {
    let err = run_bytes(&[2, 10]).unwrap_err();
    assert_eq!(err.kind, VmErrorKind::StackUnderflow);
    let err = run_bytes(&[9, 10]).unwrap_err();
    assert_eq!(err.kind, VmErrorKind::StackUnderflow);
}

#[test]
fn call_is_unsupported_at_runtime() {
    let mut code = vec![8u8];
    code.extend_from_slice(&0u64.to_le_bytes());
    code.push(10);
    let err = run_bytes(&code).unwrap_err();
    assert_eq!(err.kind, VmErrorKind::Unsupported);
}

#[test]
fn machine_reports_globals() {
    let code = artifact("let answer = 6 * 7;");
    let mut vm = VM::new();
    loop {
        match vm.step(&code).unwrap() {
            Effect::Arith(ArithOp::Mul, l, r) => {
                vm.supply((f64::from_bits(l) * f64::from_bits(r)).to_bits())
            }
            Effect::Halted => break,
            _ => {}
        }
    }
    assert!(vm.is_halted());
    assert_eq!(vm.stack_len(), 0);
    assert_eq!(vm.global(b"answer"), Some(Value::Num(42.0f64.to_bits())));
    assert_eq!(vm.global(b"other"), None);
}

#[test]
fn function_definitions_do_not_compile() {
    let tokens = tokenize("def f(a, b) { write a; }").unwrap();
    let program = parse(tokens).unwrap();
    let err = compile(&program).unwrap_err();
    assert_eq!(err.kind, CompileErrorKind::UnsupportedFunction);
    assert_eq!(err.statement, 0);
}

#[test]
fn calls_do_not_compile() {
    let tokens = tokenize("let y = 1; write f(1, 2);").unwrap();
    let program = parse(tokens).unwrap();
    let err = compile(&program).unwrap_err();
    assert_eq!(err.kind, CompileErrorKind::UnsupportedCall);
    assert_eq!(err.statement, 1);
}

#[test]
fn imports_and_comments_emit_nothing() {
    let code = artifact(":std:;\n< a comment\nwrite 1;");
    assert_eq!(run_bytes(&code).unwrap(), vec!["1"]);
    let instrs = decode(&code).unwrap();
    assert_eq!(instrs, vec![Instr::PushNum(1.0f64.to_bits()), Instr::Write, Instr::Halt]);
}

#[test]
fn large_literal_compiles_and_prints() {
    assert_eq!(run_source("write 100000000000000000000;").unwrap(), vec!["100000000000000000000"]);
}
