//! A small scripting language: lexer, parser, bytecode compiler, artifact
//! codec and a stack virtual machine.
use vstd::prelude::*;

pub mod ast;
pub mod bytecode;
pub mod chars;
pub mod compiler;
pub mod diagnostic;
pub mod lexer;
pub mod number;
pub mod parser;
pub mod semantics;
pub mod translator;
pub mod vm;

pub use ast::{BinOp, Expr, Program, Stmt};
pub use bytecode::{decode, decode_at, encode, ArtifactError, ArtifactErrorKind, Instr};
pub use compiler::{compile, CompileError, CompileErrorKind};
pub use diagnostic::calculate_offset;
pub use lexer::{tokenize, LexError, LexErrorKind, Lexer, Token, TokenKind};
pub use parser::{parse, ParseError, ParseErrorKind, Parser};
pub use translator::{TargetLang, Translator};
pub use vm::{ArithOp, Effect, Value, VmError, VmErrorKind, VM};

verus! {

} // verus!
