use vstd::prelude::*;

use crate::ast::{
    expr_view, exprs_view, names_view, stmt_view, stmts_view, BinOp, Expr, ExprM, Program, Stmt,
    StmtM,
};
use crate::chars::digit;
use crate::lexer::{Token, TokenKind};
use crate::number::{binary64_bits, decimal_to_binary64, digits_value};

verus! {

/// Why the tokens do not form a program.
#[derive(Clone, Copy, Debug, PartialEq, Eq, Structural)]
pub enum ParseErrorKind {
    /// A token of this kind was required here.
    Expected(TokenKind),
    /// No expression starts with this token.
    UnexpectedToken,
    /// A number token whose text is not a run of decimal digits.
    InvalidNumber,
}

/// A syntax error, with the line and column of the offending token.
#[derive(Clone, Copy, Debug, PartialEq, Eq, Structural)]
pub struct ParseError {
    pub kind: ParseErrorKind,
    pub line: usize,
    pub column: usize,
}

/// What a parsing function yields: a value and the position after it.
pub type Parsed<T> = Result<(T, int), ParseError>;

/// The kind of the token at `p`; past the end, the end of input.
pub open spec fn kind_at(toks: Seq<Token>, p: int) -> TokenKind {
    if 0 <= p < toks.len() {
        toks[p].kind
    } else {
        TokenKind::Eof
    }
}

/// The text of the token at `p`.
pub open spec fn text_at(toks: Seq<Token>, p: int) -> Seq<char> {
    toks[p].text@
}

/// An error located at the token at `p` (the last token, past the end).
pub open spec fn err_at(toks: Seq<Token>, p: int, kind: ParseErrorKind) -> ParseError {
    if 0 <= p < toks.len() {
        ParseError { kind, line: toks[p].line, column: toks[p].column }
    } else if toks.len() > 0 {
        ParseError { kind, line: toks.last().line, column: toks.last().column }
    } else {
        ParseError { kind, line: 1, column: 1 }
    }
}

/// The position after a token of kind `k` at `p`, or the error that it is missing.
pub open spec fn expect_at(toks: Seq<Token>, p: int, k: TokenKind) -> Result<int, ParseError> {
    if kind_at(toks, p) == k {
        Ok(p + 1)
    } else {
        Err(err_at(toks, p, ParseErrorKind::Expected(k)))
    }
}

/// The binary64 bit pattern of a number literal's text, if it is a run of
/// digits.
pub open spec fn number_bits(text: Seq<char>) -> Option<u64> {
    if forall|i: int| 0 <= i < text.len() ==> digit(#[trigger] text[i]) {
        Some(binary64_bits(digits_value(text)) as u64)
    } else {
        None
    }
}

/// Whether `q` is a position past `p` within the tokens.
pub open spec fn moved(toks: Seq<Token>, p: int, q: int) -> bool {
    p < q <= toks.len()
}

/// `primary := NUMBER | STRING | IDENT ('(' args)? | '(' expr ')'`
pub open spec fn primary(toks: Seq<Token>, p: int) -> Parsed<ExprM>
    decreases toks.len() - p, 0int,
{
    let k = kind_at(toks, p);
    if k == TokenKind::Number {
        match number_bits(text_at(toks, p)) {
            Some(b) => Ok((ExprM::Number(b), p + 1)),
            None => Err(err_at(toks, p, ParseErrorKind::InvalidNumber)),
        }
    } else if k == TokenKind::Str {
        Ok((ExprM::Str(text_at(toks, p)), p + 1))
    } else if k == TokenKind::Identifier {
        if kind_at(toks, p + 1) == TokenKind::LParen {
            match args(toks, p + 2) {
                Ok((a, q)) => Ok((ExprM::Call(text_at(toks, p), a), q)),
                Err(e) => Err(e),
            }
        } else {
            Ok((ExprM::Identifier(text_at(toks, p)), p + 1))
        }
    } else if k == TokenKind::LParen {
        match expression(toks, p + 1) {
            Ok((e, q)) => if !moved(toks, p, q) {
                Err(err_at(toks, q, ParseErrorKind::UnexpectedToken))
            } else {
                match expect_at(toks, q, TokenKind::RParen) {
                    Ok(r) => Ok((e, r)),
                    Err(x) => Err(x),
                }
            },
            Err(e) => Err(e),
        }
    } else {
        Err(err_at(toks, p, ParseErrorKind::UnexpectedToken))
    }
}

/// `unary := '-' unary | primary`; `-x` stands for `0 - x`.
pub open spec fn unary(toks: Seq<Token>, p: int) -> Parsed<ExprM>
    decreases toks.len() - p, 1int,
{
    if kind_at(toks, p) == TokenKind::Minus {
        match unary(toks, p + 1) {
            Ok((e, q)) => Ok((ExprM::Binary(BinOp::Sub, Box::new(ExprM::Number(0)), Box::new(e)), q)),
            Err(x) => Err(x),
        }
    } else {
        primary(toks, p)
    }
}

/// The rest of a product after its left operand `acc`: `(('*'|'/') unary)*`.
pub open spec fn mul_rest(toks: Seq<Token>, p: int, acc: ExprM) -> Parsed<ExprM>
    decreases toks.len() - p, 2int,
{
    let k = kind_at(toks, p);
    if k == TokenKind::Star || k == TokenKind::Slash {
        let op = if k == TokenKind::Star {
            BinOp::Mul
        } else {
            BinOp::Div
        };
        match unary(toks, p + 1) {
            Ok((r, q)) => if !moved(toks, p, q) {
                Err(err_at(toks, q, ParseErrorKind::UnexpectedToken))
            } else {
                mul_rest(toks, q, ExprM::Binary(op, Box::new(acc), Box::new(r)))
            },
            Err(x) => Err(x),
        }
    } else {
        Ok((acc, p))
    }
}

/// `multiplicative := unary (('*'|'/') unary)*`, left-associative.
pub open spec fn multiplicative(toks: Seq<Token>, p: int) -> Parsed<ExprM>
    decreases toks.len() - p, 3int,
{
    match unary(toks, p) {
        Ok((l, q)) => if q < p || q > toks.len() {
            Err(err_at(toks, q, ParseErrorKind::UnexpectedToken))
        } else {
            mul_rest(toks, q, l)
        },
        Err(x) => Err(x),
    }
}

/// The rest of a sum after its left operand `acc`: `(('+'|'-') multiplicative)*`.
pub open spec fn add_rest(toks: Seq<Token>, p: int, acc: ExprM) -> Parsed<ExprM>
    decreases toks.len() - p, 4int,
{
    let k = kind_at(toks, p);
    if k == TokenKind::Plus || k == TokenKind::Minus {
        let op = if k == TokenKind::Plus {
            BinOp::Add
        } else {
            BinOp::Sub
        };
        match multiplicative(toks, p + 1) {
            Ok((r, q)) => if !moved(toks, p, q) {
                Err(err_at(toks, q, ParseErrorKind::UnexpectedToken))
            } else {
                add_rest(toks, q, ExprM::Binary(op, Box::new(acc), Box::new(r)))
            },
            Err(x) => Err(x),
        }
    } else {
        Ok((acc, p))
    }
}

/// `expr := multiplicative (('+'|'-') multiplicative)*`, left-associative.
pub open spec fn expression(toks: Seq<Token>, p: int) -> Parsed<ExprM>
    decreases toks.len() - p, 5int,
{
    match multiplicative(toks, p) {
        Ok((l, q)) => if q < p || q > toks.len() {
            Err(err_at(toks, q, ParseErrorKind::UnexpectedToken))
        } else {
            add_rest(toks, q, l)
        },
        Err(x) => Err(x),
    }
}

/// The remaining arguments of a call, after the arguments `acc`:
/// `expr (',' expr)* ')'`.
pub open spec fn args_rest(toks: Seq<Token>, p: int, acc: Seq<ExprM>) -> Parsed<Seq<ExprM>>
    decreases toks.len() - p, 6int,
{
    match expression(toks, p) {
        Ok((e, q)) => if !moved(toks, p, q) {
            Err(err_at(toks, q, ParseErrorKind::UnexpectedToken))
        } else if kind_at(toks, q) == TokenKind::Comma {
            args_rest(toks, q + 1, acc.push(e))
        } else {
            match expect_at(toks, q, TokenKind::RParen) {
                Ok(r) => Ok((acc.push(e), r)),
                Err(x) => Err(x),
            }
        },
        Err(x) => Err(x),
    }
}

/// The arguments of a call, after its `(`: `')' | expr (',' expr)* ')'`.
pub open spec fn args(toks: Seq<Token>, p: int) -> Parsed<Seq<ExprM>>
    decreases toks.len() - p, 7int,
{
    if kind_at(toks, p) == TokenKind::RParen {
        Ok((Seq::empty(), p + 1))
    } else {
        args_rest(toks, p, Seq::empty())
    }
}

/// The remaining parameters of a definition, after the parameters `acc`:
/// `IDENT (',' IDENT)* ')'`.
pub open spec fn params_rest(toks: Seq<Token>, p: int, acc: Seq<Seq<char>>) -> Parsed<Seq<Seq<char>>>
    decreases toks.len() - p,
{
    if kind_at(toks, p) != TokenKind::Identifier {
        Err(err_at(toks, p, ParseErrorKind::Expected(TokenKind::Identifier)))
    } else if kind_at(toks, p + 1) == TokenKind::Comma {
        params_rest(toks, p + 2, acc.push(text_at(toks, p)))
    } else {
        match expect_at(toks, p + 1, TokenKind::RParen) {
            Ok(r) => Ok((acc.push(text_at(toks, p)), r)),
            Err(x) => Err(x),
        }
    }
}

/// The parameters of a definition, after its `(`.
pub open spec fn params(toks: Seq<Token>, p: int) -> Parsed<Seq<Seq<char>>> {
    if kind_at(toks, p) == TokenKind::RParen {
        Ok((Seq::empty(), p + 1))
    } else {
        params_rest(toks, p, Seq::empty())
    }
}

/// An expression followed by `;`.
pub open spec fn expr_semi(toks: Seq<Token>, p: int) -> Parsed<ExprM> {
    match expression(toks, p) {
        Ok((e, q)) => match expect_at(toks, q, TokenKind::Semicolon) {
            Ok(r) => Ok((e, r)),
            Err(x) => Err(x),
        },
        Err(x) => Err(x),
    }
}

/// `statement := varDecl | funcDef | importStmt | writeStmt | exprStmt`.
pub open spec fn statement(toks: Seq<Token>, p: int) -> Parsed<StmtM>
    decreases toks.len() - p, 8int,
{
    let k = kind_at(toks, p);
    if k == TokenKind::Let {
        if kind_at(toks, p + 1) != TokenKind::Identifier {
            Err(err_at(toks, p + 1, ParseErrorKind::Expected(TokenKind::Identifier)))
        } else if kind_at(toks, p + 2) == TokenKind::Assign {
            match expr_semi(toks, p + 3) {
                Ok((e, q)) => Ok((StmtM::VarDecl(text_at(toks, p + 1), Some(e)), q)),
                Err(x) => Err(x),
            }
        } else {
            match expect_at(toks, p + 2, TokenKind::Semicolon) {
                Ok(q) => Ok((StmtM::VarDecl(text_at(toks, p + 1), None), q)),
                Err(x) => Err(x),
            }
        }
    } else if k == TokenKind::Def {
        if kind_at(toks, p + 1) != TokenKind::Identifier {
            Err(err_at(toks, p + 1, ParseErrorKind::Expected(TokenKind::Identifier)))
        } else if kind_at(toks, p + 2) != TokenKind::LParen {
            Err(err_at(toks, p + 2, ParseErrorKind::Expected(TokenKind::LParen)))
        } else {
            match params(toks, p + 3) {
                Ok((ps, q)) => if !moved(toks, p, q) {
                    Err(err_at(toks, q, ParseErrorKind::UnexpectedToken))
                } else if kind_at(toks, q) != TokenKind::LBrace {
                    Err(err_at(toks, q, ParseErrorKind::Expected(TokenKind::LBrace)))
                } else {
                    match block(toks, q + 1, Seq::empty()) {
                        Ok((body, r)) => Ok((StmtM::FuncDef(text_at(toks, p + 1), ps, body), r)),
                        Err(x) => Err(x),
                    }
                },
                Err(x) => Err(x),
            }
        }
    } else if k == TokenKind::Import {
        match expect_at(toks, p + 1, TokenKind::Semicolon) {
            Ok(q) => Ok((StmtM::Import(text_at(toks, p)), q)),
            Err(x) => Err(x),
        }
    } else if k == TokenKind::Write {
        match expr_semi(toks, p + 1) {
            Ok((e, q)) => Ok((StmtM::Write(e), q)),
            Err(x) => Err(x),
        }
    } else {
        match expr_semi(toks, p) {
            Ok((e, q)) => Ok((StmtM::ExprStmt(e), q)),
            Err(x) => Err(x),
        }
    }
}

/// The statements of a function body up to and including its `}`, after the
/// statements `acc`.
pub open spec fn block(toks: Seq<Token>, p: int, acc: Seq<StmtM>) -> Parsed<Seq<StmtM>>
    decreases toks.len() - p, 9int,
{
    let k = kind_at(toks, p);
    if k == TokenKind::RBrace {
        Ok((acc, p + 1))
    } else if k == TokenKind::Eof {
        Err(err_at(toks, p, ParseErrorKind::Expected(TokenKind::RBrace)))
    } else {
        match statement(toks, p) {
            Ok((s, q)) => if !moved(toks, p, q) {
                Err(err_at(toks, q, ParseErrorKind::UnexpectedToken))
            } else {
                block(toks, q, acc.push(s))
            },
            Err(x) => Err(x),
        }
    }
}

/// The top-level statements from `p` to the end of input, after `acc`.
pub open spec fn program_from(toks: Seq<Token>, p: int, acc: Seq<StmtM>) -> Result<Seq<StmtM>, ParseError>
    decreases toks.len() - p,
{
    if kind_at(toks, p) == TokenKind::Eof {
        Ok(acc)
    } else {
        match statement(toks, p) {
            Ok((s, q)) => if !moved(toks, p, q) {
                Err(err_at(toks, q, ParseErrorKind::UnexpectedToken))
            } else {
                program_from(toks, q, acc.push(s))
            },
            Err(x) => Err(x),
        }
    }
}

} // verus!

verus! {

/// A recursive-descent parser over a sequence of tokens.
pub struct Parser {
    tokens: Vec<Token>,
    pos: usize,
}

/// Whether the result `r` of a parsing function, which stopped at `q`, is what
/// the grammar function gave as `s`.
pub open spec fn agrees<T, M>(
    r: Result<T, ParseError>,
    s: Parsed<M>,
    view: spec_fn(T) -> M,
    q: int,
) -> bool {
    match (r, s) {
        (Ok(v), Ok((m, e))) => view(v) == m && q == e,
        (Err(x), Err(y)) => x == y,
        _ => false,
    }
}

impl Parser {
    /// The tokens being parsed.
    pub closed spec fn tokens(&self) -> Seq<Token> {
        self.tokens@
    }

    /// The position of the next token.
    pub closed spec fn position(&self) -> int {
        self.pos as int
    }

    /// A parser at the first of `tokens`.
    pub fn new(tokens: Vec<Token>) -> (r: Parser)
        ensures
            r.tokens() == tokens@,
            r.position() == 0,
    {
        Parser { tokens, pos: 0 }
    }

    fn kind(&self, p: usize) -> (r: TokenKind)
        ensures
            r == kind_at(self.tokens@, p as int),
            self.tokens@.len() <= usize::MAX,
    {
        let n = self.tokens.len();
        if p < n {
            self.tokens[p].kind
        } else {
            TokenKind::Eof
        }
    }

    fn error(&self, p: usize, kind: ParseErrorKind) -> (r: ParseError)
        ensures
            r == err_at(self.tokens@, p as int, kind),
    {
        if p < self.tokens.len() {
            ParseError { kind, line: self.tokens[p].line, column: self.tokens[p].column }
        } else if self.tokens.len() > 0 {
            let last = self.tokens.len() - 1;
            ParseError { kind, line: self.tokens[last].line, column: self.tokens[last].column }
        } else {
            ParseError { kind, line: 1, column: 1 }
        }
    }

    fn text(&self, p: usize) -> (r: String)
        requires
            p < self.tokens@.len(),
        ensures
            r@ == text_at(self.tokens@, p as int),
    {
        self.tokens[p].text.clone()
    }

    fn number(&self, p: usize) -> (r: Option<u64>)
        requires
            p < self.tokens@.len(),
        ensures
            r == number_bits(text_at(self.tokens@, p as int)),
    {
        let text = self.tokens[p].text.as_str();
        let n = text.unicode_len();
        let mut i: usize = 0;
        while i < n
            invariant
                n == text@.len(),
                text@ == text_at(self.tokens@, p as int),
                i <= n,
                forall|j: int| 0 <= j < i ==> digit(#[trigger] text@[j]),
            decreases n - i,
        {
            let c = text.get_char(i);
            if !('0' <= c && c <= '9') {
                return None;
            }
            i += 1;
        }
        Some(decimal_to_binary64(text))
    }

    fn primary(&mut self) -> (r: Result<Expr, ParseError>)
        requires
            old(self).pos <= old(self).tokens@.len(),
        ensures
            final(self).tokens@ == old(self).tokens@,
            agrees(r, primary(old(self).tokens@, old(self).pos as int), |e: Expr| expr_view(e), final(self).pos as int),
            r is Ok ==> moved(old(self).tokens@, old(self).pos as int, final(self).pos as int),
        decreases old(self).tokens@.len() - old(self).pos, 0int,
    {
        let p = self.pos;
        let k = self.kind(p);
        if k == TokenKind::Number {
            match self.number(p) {
                Some(b) => {
                    self.pos = p + 1;
                    Ok(Expr::Number(b))
                },
                None => Err(self.error(p, ParseErrorKind::InvalidNumber)),
            }
        } else if k == TokenKind::Str {
            let t = self.text(p);
            self.pos = p + 1;
            Ok(Expr::Str(t))
        } else if k == TokenKind::Identifier {
            let name = self.text(p);
            if self.kind(p + 1) == TokenKind::LParen {
                self.pos = p + 2;
                match self.args() {
                    Ok(a) => Ok(Expr::Call(name, a)),
                    Err(e) => Err(e),
                }
            } else {
                self.pos = p + 1;
                Ok(Expr::Identifier(name))
            }
        } else if k == TokenKind::LParen {
            self.pos = p + 1;
            let e = match self.expression() {
                Ok(e) => e,
                Err(x) => {
                    return Err(x);
                },
            };
            let q = self.pos;
            if self.kind(q) == TokenKind::RParen {
                self.pos = q + 1;
                Ok(e)
            } else {
                Err(self.error(q, ParseErrorKind::Expected(TokenKind::RParen)))
            }
        } else {
            Err(self.error(p, ParseErrorKind::UnexpectedToken))
        }
    }

    fn unary(&mut self) -> (r: Result<Expr, ParseError>)
        requires
            old(self).pos <= old(self).tokens@.len(),
        ensures
            final(self).tokens@ == old(self).tokens@,
            agrees(r, unary(old(self).tokens@, old(self).pos as int), |e: Expr| expr_view(e), final(self).pos as int),
            r is Ok ==> moved(old(self).tokens@, old(self).pos as int, final(self).pos as int),
        decreases old(self).tokens@.len() - old(self).pos, 1int,
    {
        let p = self.pos;
        if self.kind(p) == TokenKind::Minus {
            self.pos = p + 1;
            match self.unary() {
                Ok(e) => {
                    let zero = Expr::Number(0);
                    proof {
                        assert(expr_view(zero) == ExprM::Number(0));
                    }
                    Ok(Expr::Binary(BinOp::Sub, Box::new(zero), Box::new(e)))
                },
                Err(x) => Err(x),
            }
        } else {
            self.primary()
        }
    }

    fn mul_rest(&mut self, acc: Expr) -> (r: Result<Expr, ParseError>)
        requires
            old(self).pos <= old(self).tokens@.len(),
        ensures
            final(self).tokens@ == old(self).tokens@,
            agrees(r, mul_rest(old(self).tokens@, old(self).pos as int, expr_view(acc)), |e: Expr| expr_view(e), final(self).pos as int),
            r is Ok ==> old(self).pos <= final(self).pos <= old(self).tokens@.len(),
        decreases old(self).tokens@.len() - old(self).pos, 2int,
    {
        let p = self.pos;
        let k = self.kind(p);
        if k == TokenKind::Star || k == TokenKind::Slash {
            let op = if k == TokenKind::Star {
                BinOp::Mul
            } else {
                BinOp::Div
            };
            self.pos = p + 1;
            match self.unary() {
                Ok(r) => self.mul_rest(Expr::Binary(op, Box::new(acc), Box::new(r))),
                Err(x) => Err(x),
            }
        } else {
            Ok(acc)
        }
    }

    fn multiplicative(&mut self) -> (r: Result<Expr, ParseError>)
        requires
            old(self).pos <= old(self).tokens@.len(),
        ensures
            final(self).tokens@ == old(self).tokens@,
            agrees(r, multiplicative(old(self).tokens@, old(self).pos as int), |e: Expr| expr_view(e), final(self).pos as int),
            r is Ok ==> moved(old(self).tokens@, old(self).pos as int, final(self).pos as int),
        decreases old(self).tokens@.len() - old(self).pos, 3int,
    {
        match self.unary() {
            Ok(l) => self.mul_rest(l),
            Err(x) => Err(x),
        }
    }

    fn add_rest(&mut self, acc: Expr) -> (r: Result<Expr, ParseError>)
        requires
            old(self).pos <= old(self).tokens@.len(),
        ensures
            final(self).tokens@ == old(self).tokens@,
            agrees(r, add_rest(old(self).tokens@, old(self).pos as int, expr_view(acc)), |e: Expr| expr_view(e), final(self).pos as int),
            r is Ok ==> old(self).pos <= final(self).pos <= old(self).tokens@.len(),
        decreases old(self).tokens@.len() - old(self).pos, 4int,
    {
        let p = self.pos;
        let k = self.kind(p);
        if k == TokenKind::Plus || k == TokenKind::Minus {
            let op = if k == TokenKind::Plus {
                BinOp::Add
            } else {
                BinOp::Sub
            };
            self.pos = p + 1;
            match self.multiplicative() {
                Ok(r) => self.add_rest(Expr::Binary(op, Box::new(acc), Box::new(r))),
                Err(x) => Err(x),
            }
        } else {
            Ok(acc)
        }
    }

    fn expression(&mut self) -> (r: Result<Expr, ParseError>)
        requires
            old(self).pos <= old(self).tokens@.len(),
        ensures
            final(self).tokens@ == old(self).tokens@,
            agrees(r, expression(old(self).tokens@, old(self).pos as int), |e: Expr| expr_view(e), final(self).pos as int),
            r is Ok ==> moved(old(self).tokens@, old(self).pos as int, final(self).pos as int),
        decreases old(self).tokens@.len() - old(self).pos, 5int,
    {
        match self.multiplicative() {
            Ok(l) => self.add_rest(l),
            Err(x) => Err(x),
        }
    }

    fn args_rest(&mut self, acc: Vec<Expr>) -> (r: Result<Vec<Expr>, ParseError>)
        requires
            old(self).pos <= old(self).tokens@.len(),
        ensures
            final(self).tokens@ == old(self).tokens@,
            agrees(r, args_rest(old(self).tokens@, old(self).pos as int, exprs_view(acc@)), |v: Vec<Expr>| exprs_view(v@), final(self).pos as int),
            r is Ok ==> moved(old(self).tokens@, old(self).pos as int, final(self).pos as int),
        decreases old(self).tokens@.len() - old(self).pos, 6int,
    {
        let mut acc = acc;
        let e = match self.expression() {
            Ok(e) => e,
            Err(x) => {
                return Err(x);
            },
        };
        let ghost ev = expr_view(e);
        let ghost prev = acc@;
        acc.push(e);
        proof {
            assert(acc@.drop_last() =~= prev);
            assert(exprs_view(acc@) == exprs_view(prev).push(ev));
        }
        let q = self.pos;
        if self.kind(q) == TokenKind::Comma {
            self.pos = q + 1;
            self.args_rest(acc)
        } else if self.kind(q) == TokenKind::RParen {
            self.pos = q + 1;
            Ok(acc)
        } else {
            Err(self.error(q, ParseErrorKind::Expected(TokenKind::RParen)))
        }
    }

    fn args(&mut self) -> (r: Result<Vec<Expr>, ParseError>)
        requires
            old(self).pos <= old(self).tokens@.len(),
        ensures
            final(self).tokens@ == old(self).tokens@,
            agrees(r, args(old(self).tokens@, old(self).pos as int), |v: Vec<Expr>| exprs_view(v@), final(self).pos as int),
            r is Ok ==> moved(old(self).tokens@, old(self).pos as int, final(self).pos as int),
        decreases old(self).tokens@.len() - old(self).pos, 7int,
    {
        let p = self.pos;
        let acc: Vec<Expr> = Vec::new();
        proof {
            assert(acc@ =~= Seq::<Expr>::empty());
            assert(exprs_view(acc@) == Seq::<ExprM>::empty());
        }
        if self.kind(p) == TokenKind::RParen {
            self.pos = p + 1;
            Ok(acc)
        } else {
            self.args_rest(acc)
        }
    }
}


impl Parser {
    fn params_rest(&mut self, acc: Vec<String>) -> (r: Result<Vec<String>, ParseError>)
        requires
            old(self).pos <= old(self).tokens@.len(),
        ensures
            final(self).tokens@ == old(self).tokens@,
            agrees(r, params_rest(old(self).tokens@, old(self).pos as int, names_view(acc@)), |v: Vec<String>| names_view(v@), final(self).pos as int),
            r is Ok ==> moved(old(self).tokens@, old(self).pos as int, final(self).pos as int),
        decreases old(self).tokens@.len() - old(self).pos,
    {
        let p = self.pos;
        if self.kind(p) != TokenKind::Identifier {
            return Err(self.error(p, ParseErrorKind::Expected(TokenKind::Identifier)));
        }
        let mut acc = acc;
        let name = self.text(p);
        let ghost prev = acc@;
        acc.push(name);
        proof {
            assert(names_view(acc@) =~= names_view(prev).push(text_at(self.tokens@, p as int)));
        }
        if self.kind(p + 1) == TokenKind::Comma {
            self.pos = p + 2;
            self.params_rest(acc)
        } else if self.kind(p + 1) == TokenKind::RParen {
            self.pos = p + 2;
            Ok(acc)
        } else {
            Err(self.error(p + 1, ParseErrorKind::Expected(TokenKind::RParen)))
        }
    }

    fn params(&mut self) -> (r: Result<Vec<String>, ParseError>)
        requires
            old(self).pos <= old(self).tokens@.len(),
        ensures
            final(self).tokens@ == old(self).tokens@,
            agrees(r, params(old(self).tokens@, old(self).pos as int), |v: Vec<String>| names_view(v@), final(self).pos as int),
            r is Ok ==> moved(old(self).tokens@, old(self).pos as int, final(self).pos as int),
    {
        let p = self.pos;
        let acc: Vec<String> = Vec::new();
        proof {
            assert(names_view(acc@) =~= Seq::<Seq<char>>::empty());
        }
        if self.kind(p) == TokenKind::RParen {
            self.pos = p + 1;
            Ok(acc)
        } else {
            self.params_rest(acc)
        }
    }

    fn expr_semi(&mut self) -> (r: Result<Expr, ParseError>)
        requires
            old(self).pos <= old(self).tokens@.len(),
        ensures
            final(self).tokens@ == old(self).tokens@,
            agrees(r, expr_semi(old(self).tokens@, old(self).pos as int), |e: Expr| expr_view(e), final(self).pos as int),
            r is Ok ==> moved(old(self).tokens@, old(self).pos as int, final(self).pos as int),
    {
        let e = match self.expression() {
            Ok(e) => e,
            Err(x) => {
                return Err(x);
            },
        };
        let q = self.pos;
        if self.kind(q) == TokenKind::Semicolon {
            self.pos = q + 1;
            Ok(e)
        } else {
            Err(self.error(q, ParseErrorKind::Expected(TokenKind::Semicolon)))
        }
    }

    fn statement(&mut self) -> (r: Result<Stmt, ParseError>)
        requires
            old(self).pos <= old(self).tokens@.len(),
        ensures
            final(self).tokens@ == old(self).tokens@,
            agrees(r, statement(old(self).tokens@, old(self).pos as int), |s: Stmt| stmt_view(s), final(self).pos as int),
            r is Ok ==> moved(old(self).tokens@, old(self).pos as int, final(self).pos as int),
        decreases old(self).tokens@.len() - old(self).pos, 8int,
    {
        let p = self.pos;
        let k = self.kind(p);
        if k == TokenKind::Let {
            if self.kind(p + 1) != TokenKind::Identifier {
                return Err(self.error(p + 1, ParseErrorKind::Expected(TokenKind::Identifier)));
            }
            let name = self.text(p + 1);
            if self.kind(p + 2) == TokenKind::Assign {
                self.pos = p + 3;
                match self.expr_semi() {
                    Ok(e) => Ok(Stmt::VarDecl(name, Some(e))),
                    Err(x) => Err(x),
                }
            } else if self.kind(p + 2) == TokenKind::Semicolon {
                self.pos = p + 3;
                Ok(Stmt::VarDecl(name, None))
            } else {
                Err(self.error(p + 2, ParseErrorKind::Expected(TokenKind::Semicolon)))
            }
        } else if k == TokenKind::Def {
            if self.kind(p + 1) != TokenKind::Identifier {
                return Err(self.error(p + 1, ParseErrorKind::Expected(TokenKind::Identifier)));
            }
            if self.kind(p + 2) != TokenKind::LParen {
                return Err(self.error(p + 2, ParseErrorKind::Expected(TokenKind::LParen)));
            }
            let name = self.text(p + 1);
            self.pos = p + 3;
            let ps = match self.params() {
                Ok(ps) => ps,
                Err(x) => {
                    return Err(x);
                },
            };
            let q = self.pos;
            if self.kind(q) != TokenKind::LBrace {
                return Err(self.error(q, ParseErrorKind::Expected(TokenKind::LBrace)));
            }
            self.pos = q + 1;
            let body: Vec<Stmt> = Vec::new();
            proof {
                assert(stmts_view(body@) =~= Seq::<StmtM>::empty()) by {
                    assert(body@ =~= Seq::<Stmt>::empty());
                }
            }
            match self.block(body) {
                Ok(body) => Ok(Stmt::FuncDef(name, ps, body)),
                Err(x) => Err(x),
            }
        } else if k == TokenKind::Import {
            let name = self.text(p);
            if self.kind(p + 1) == TokenKind::Semicolon {
                self.pos = p + 2;
                Ok(Stmt::Import(name))
            } else {
                Err(self.error(p + 1, ParseErrorKind::Expected(TokenKind::Semicolon)))
            }
        } else if k == TokenKind::Write {
            self.pos = p + 1;
            match self.expr_semi() {
                Ok(e) => Ok(Stmt::Write(e)),
                Err(x) => Err(x),
            }
        } else {
            match self.expr_semi() {
                Ok(e) => Ok(Stmt::ExprStmt(e)),
                Err(x) => Err(x),
            }
        }
    }

    fn block(&mut self, acc: Vec<Stmt>) -> (r: Result<Vec<Stmt>, ParseError>)
        requires
            old(self).pos <= old(self).tokens@.len(),
        ensures
            final(self).tokens@ == old(self).tokens@,
            agrees(r, block(old(self).tokens@, old(self).pos as int, stmts_view(acc@)), |v: Vec<Stmt>| stmts_view(v@), final(self).pos as int),
            r is Ok ==> moved(old(self).tokens@, old(self).pos as int, final(self).pos as int),
        decreases old(self).tokens@.len() - old(self).pos, 9int,
    {
        let p = self.pos;
        let k = self.kind(p);
        if k == TokenKind::RBrace {
            self.pos = p + 1;
            return Ok(acc);
        }
        if k == TokenKind::Eof {
            return Err(self.error(p, ParseErrorKind::Expected(TokenKind::RBrace)));
        }
        let s = match self.statement() {
            Ok(s) => s,
            Err(x) => {
                return Err(x);
            },
        };
        let mut acc = acc;
        let ghost sv = stmt_view(s);
        let ghost prev = acc@;
        acc.push(s);
        proof {
            assert(acc@.drop_last() =~= prev);
            assert(stmts_view(acc@) == stmts_view(prev).push(sv));
        }
        self.block(acc)
    }

    /// Parses top-level statements from the current position to the end of
    /// input. On success the parser stands at the end-of-input token (or past
    /// the last token); on an error it is left where it started.
    pub fn parse(&mut self) -> (r: Result<Program, ParseError>)
        requires
            old(self).position() <= old(self).tokens().len(),
        ensures
            final(self).tokens() == old(self).tokens(),
            final(self).position() <= final(self).tokens().len(),
            r is Ok ==> kind_at(final(self).tokens(), final(self).position()) == TokenKind::Eof,
            r is Err ==> final(self).position() == old(self).position(),
            match (r, program_from(old(self).tokens(), old(self).position(), Seq::empty())) {
                (Ok(prog), Ok(ms)) => stmts_view(prog.statements@) == ms,
                (Err(x), Err(y)) => x == y,
                _ => false,
            },
    {
        let start = self.pos;
        let mut statements: Vec<Stmt> = Vec::new();
        let ghost toks = self.tokens@;
        proof {
            assert(statements@ =~= Seq::<Stmt>::empty());
            assert(stmts_view(statements@) =~= Seq::<StmtM>::empty());
        }
        while self.kind(self.pos) != TokenKind::Eof
            invariant
                self.tokens@ == toks,
                toks == old(self).tokens@,
                start == old(self).pos,
                self.pos <= toks.len(),
                program_from(toks, old(self).pos as int, Seq::empty()) == program_from(
                    toks,
                    self.pos as int,
                    stmts_view(statements@),
                ),
            decreases toks.len() - self.pos,
        {
            let s = match self.statement() {
                Ok(s) => s,
                Err(x) => {
                    self.pos = start;
                    return Err(x);
                },
            };
            let ghost sv = stmt_view(s);
            let ghost prev = statements@;
            statements.push(s);
            proof {
                assert(statements@.drop_last() =~= prev);
                assert(stmts_view(statements@) == stmts_view(prev).push(sv));
            }
        }
        Ok(Program { statements })
    }
}

/// Parses a whole token sequence, such as `tokenize` yields.
pub fn parse(tokens: Vec<Token>) -> (r: Result<Program, ParseError>)
    ensures
        match (r, program_from(tokens@, 0, Seq::empty())) {
            (Ok(prog), Ok(ms)) => stmts_view(prog.statements@) == ms,
            (Err(x), Err(y)) => x == y,
            _ => false,
        },
{
    let mut parser = Parser::new(tokens);
    parser.parse()
}

} // verus!
