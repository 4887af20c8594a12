use vira::ast::{Expr, Stmt};
use vira::number::{binary64_of, decimal_to_binary64};
use vira::{
    calculate_offset, parse, tokenize, BinOp, LexErrorKind, Lexer, ParseErrorKind, TargetLang,
    TokenKind, Translator,
};

fn kinds(src: &str) -> Vec<TokenKind> {
    tokenize(src).unwrap().iter().map(|t| t.kind).collect()
}

#[test]
fn keywords_and_identifiers() {
    assert_eq!(
        kinds("let def write letter _x"),
        vec![
            TokenKind::Let,
            TokenKind::Def,
            TokenKind::Write,
            TokenKind::Identifier,
            TokenKind::Identifier,
            TokenKind::Eof
        ]
    );
}

#[test]
fn punctuation_tokens() {
    assert_eq!(
        kinds("= + - * / ( ) { } ; , :"),
        vec![
            TokenKind::Assign,
            TokenKind::Plus,
            TokenKind::Minus,
            TokenKind::Star,
            TokenKind::Slash,
            TokenKind::LParen,
            TokenKind::RParen,
            TokenKind::LBrace,
            TokenKind::RBrace,
            TokenKind::Semicolon,
            TokenKind::Comma,
            TokenKind::Colon,
            TokenKind::Eof
        ]
    );
}

#[test]
fn token_positions_are_one_based() {
    let toks = tokenize("let x = 12;\n  write x;").unwrap();
    let pos: Vec<(usize, usize)> = toks.iter().map(|t| (t.line, t.column)).collect();
    assert_eq!(pos, vec![(1, 1), (1, 5), (1, 7), (1, 9), (1, 11), (2, 3), (2, 9), (2, 10), (2, 11)]);
    assert_eq!(toks[3].text, "12");
}

#[test]
fn string_escapes() {
    let toks = tokenize(r#""a\"b\\c\n""#).unwrap();
    assert_eq!(toks[0].kind, TokenKind::Str);
    assert_eq!(toks[0].text, "a\"b\\cn");
}

#[test]
fn unterminated_string_is_lexical_error() {
    let err = tokenize("write \"abc").unwrap_err();
    assert_eq!(err.kind, LexErrorKind::UnterminatedString);
    assert_eq!((err.line, err.column), (1, 7));
}

#[test]
fn unknown_character_is_lexical_error() {
    let err = tokenize("let x = 1;\nwrite x # 2;").unwrap_err();
    assert_eq!(err.kind, LexErrorKind::UnexpectedChar('#'));
    assert_eq!((err.line, err.column), (2, 9));
}

#[test]
fn comments_are_left_out() {
    assert_eq!(kinds("< note\nwrite 1;"), vec![TokenKind::Write, TokenKind::Number, TokenKind::Semicolon, TokenKind::Eof]);
    let mut lexer = Lexer::new("< note");
    let t = lexer.next_token().unwrap();
    assert_eq!(t.kind, TokenKind::Comment);
    assert_eq!(t.text, " note");
}

#[test]
fn import_marker() {
    let toks = tokenize(":math2:;").unwrap();
    assert_eq!(toks[0].kind, TokenKind::Import);
    assert_eq!(toks[0].text, "math2");
    assert_eq!(kinds(":x y"), vec![TokenKind::Colon, TokenKind::Identifier, TokenKind::Identifier, TokenKind::Eof]);
}

#[test]
fn unicode_letters_and_whitespace() {
    assert_eq!(kinds("é\u{a0}x1\u{3000}y\r\nz"), vec![TokenKind::Identifier, TokenKind::Identifier, TokenKind::Identifier, TokenKind::Identifier, TokenKind::Eof]);
    let toks = tokenize("\té").unwrap();
    assert_eq!(toks[0].text, "é");
    assert_eq!(toks[0].column, 2);
}

#[test]
fn parse_precedence_tree() {
    let prog = parse(tokenize("write 1 + 2 * 3;").unwrap()).unwrap();
    assert_eq!(prog.statements.len(), 1);
    match &prog.statements[0] {
        Stmt::Write(Expr::Binary(BinOp::Add, l, r)) => {
            assert!(matches!(**l, Expr::Number(b) if b == 1.0f64.to_bits()));
            assert!(matches!(**r, Expr::Binary(BinOp::Mul, _, _)));
        }
        other => panic!("unexpected {:?}", other),
    }
}

#[test]
fn parse_unary_minus_desugars() {
    let prog = parse(tokenize("-x;").unwrap()).unwrap();
    match &prog.statements[0] {
        Stmt::ExprStmt(Expr::Binary(BinOp::Sub, l, r)) => {
            assert!(matches!(**l, Expr::Number(0)));
            assert!(matches!(&**r, Expr::Identifier(n) if n == "x"));
        }
        other => panic!("unexpected {:?}", other),
    }
}

#[test]
fn parse_function_definition() {
    let prog = parse(tokenize("def add(a, b) { write a + b; } :io:;").unwrap()).unwrap();
    match &prog.statements[0] {
        Stmt::FuncDef(name, params, body) => {
            assert_eq!(name, "add");
            assert_eq!(params, &vec!["a".to_string(), "b".to_string()]);
            assert_eq!(body.len(), 1);
        }
        other => panic!("unexpected {:?}", other),
    }
    assert!(matches!(&prog.statements[1], Stmt::Import(n) if n == "io"));
}

#[test]
fn parse_call_arguments() {
    let prog = parse(tokenize("f(1, \"a\", g());").unwrap()).unwrap();
    match &prog.statements[0] {
        Stmt::ExprStmt(Expr::Call(name, args)) => {
            assert_eq!(name, "f");
            assert_eq!(args.len(), 3);
            assert!(matches!(&args[2], Expr::Call(n, a) if n == "g" && a.is_empty()));
        }
        other => panic!("unexpected {:?}", other),
    }
}

#[test]
fn missing_semicolon_reports_location() {
    let err = parse(tokenize("let x = 1\nwrite x;").unwrap()).unwrap_err();
    assert_eq!(err.kind, ParseErrorKind::Expected(TokenKind::Semicolon));
    assert_eq!((err.line, err.column), (2, 1));
}

#[test]
fn unmatched_paren_reports_location() {
    let err = parse(tokenize("write (1 + 2;").unwrap()).unwrap_err();
    assert_eq!(err.kind, ParseErrorKind::Expected(TokenKind::RParen));
    assert_eq!((err.line, err.column), (1, 13));
}

#[test]
fn missing_closing_brace_is_error() {
    let err = parse(tokenize("def f() { write 1;").unwrap()).unwrap_err();
    assert_eq!(err.kind, ParseErrorKind::Expected(TokenKind::RBrace));
}

#[test]
fn unexpected_token_in_expression() {
    let err = parse(tokenize("write ;").unwrap()).unwrap_err();
    assert_eq!(err.kind, ParseErrorKind::UnexpectedToken);
    assert_eq!((err.line, err.column), (1, 7));
}

#[test]
fn large_number_literal_parses() {
    let prog = parse(tokenize("write 18446744073709551616;").unwrap()).unwrap();
    match &prog.statements[0] {
        Stmt::Write(Expr::Number(b)) => assert_eq!(*b, 0x43F0_0000_0000_0000),
        other => panic!("unexpected {:?}", other),
    }
}

#[test]
fn decimal_conversion_matches_float_parse() {
    let mut cases: Vec<String> = [
        "0",
        "007",
        "14",
        "9007199254740993",
        "18446744073709551615",
        "18446744073709551616",
        "100000000000000000000",
        "123456789012345678901234567890123456789",
        "79228162514264337593543950336",
        "340282366920938463463374607431768211455",
    ]
    .iter()
    .map(|s| s.to_string())
    .collect();
    cases.push(format!("1{}", "0".repeat(308)));
    cases.push(format!("17976931348623158{}", "0".repeat(292)));
    cases.push(format!("17976931348623159{}", "0".repeat(292)));
    cases.push(format!("1{}", "0".repeat(400)));
    for c in &cases {
        let expected = c.parse::<f64>().unwrap().to_bits();
        assert_eq!(decimal_to_binary64(c), expected, "{}", c);
    }
    assert_eq!(decimal_to_binary64(&format!("1{}", "0".repeat(400))), 0x7FF0_0000_0000_0000);
}

#[test]
fn binary64_conversion_matches_float_casts() {
    for n in [0u64, 1, 2, 3, 14, 1023, 1 << 52, (1 << 53) - 1, 1 << 53, (1 << 53) + 1, (1 << 53) + 3, 123456789012345678, u64::MAX] {
        assert_eq!(binary64_of(n), (n as f64).to_bits(), "{}", n);
    }
}

#[test]
fn offsets_of_line_and_column() {
    let src = "let x = 1;\nwrite y;\n";
    assert_eq!(calculate_offset(src, 1, 1), 0);
    assert_eq!(calculate_offset(src, 2, 7), 17);
    assert_eq!(calculate_offset(src, 2, 100), 19);
    assert_eq!(calculate_offset(src, 9, 1), 20);
    assert_eq!(calculate_offset("é = 1;", 1, 3), 3);
}

#[test]
fn translator_starts_empty() {
    let t = Translator::new(TargetLang::Rust);
    assert_eq!(t.target(), TargetLang::Rust);
    assert_eq!(t.indent(), 0);
    assert_eq!(t.code(), "");
}
