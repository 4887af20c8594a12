use vstd::prelude::*;
use vstd::slice::*;

use crate::chars::{
    alphabetic, alphanumeric, chars_of, digit, is_alphabetic, is_alphanumeric, is_whitespace, string_of,
    whitespace,
};

verus! {

/// The kinds of tokens.
#[derive(Clone, Copy, Debug, PartialEq, Eq, Structural)]
pub enum TokenKind {
    Eof,
    Identifier,
    Number,
    Str,
    Colon,
    Assign,
    Plus,
    Minus,
    Star,
    Slash,
    LParen,
    RParen,
    LBrace,
    RBrace,
    Semicolon,
    Comma,
    Let,
    Def,
    Write,
    /// `:name:`, carrying the library name as its text.
    Import,
    Comment,
    Unknown,
}

/// A token: its kind, its text (a string literal's value, an import's library
/// name, a comment's content), and the 1-based line and column of its first
/// character.
#[derive(Clone, Debug)]
pub struct Token {
    pub kind: TokenKind,
    pub text: String,
    pub line: usize,
    pub column: usize,
}

/// The model of a token.
pub struct Tok {
    pub kind: TokenKind,
    pub text: Seq<char>,
    pub line: nat,
    pub column: nat,
}

impl View for Token {
    type V = Tok;

    open spec fn view(&self) -> Tok {
        Tok { kind: self.kind, text: self.text@, line: self.line as nat, column: self.column as nat }
    }
}

/// Why the source text could not be split into tokens.
#[derive(Clone, Copy, Debug, PartialEq, Eq, Structural)]
pub enum LexErrorKind {
    /// A string literal has no closing quote.
    UnterminatedString,
    /// A character that starts no token.
    UnexpectedChar(char),
}

/// A lexical error, with the 1-based line and column where it starts.
#[derive(Clone, Copy, Debug, PartialEq, Eq, Structural)]
pub struct LexError {
    pub kind: LexErrorKind,
    pub line: usize,
    pub column: usize,
}

/// The 1-based line and column of position `p` of the source.
pub open spec fn line_col(src: Seq<char>, p: int) -> (nat, nat)
    decreases p,
{
    if p <= 0 {
        (1, 1)
    } else {
        let (l, c) = line_col(src, p - 1);
        if src[p - 1] == '\n' {
            (l + 1, 1)
        } else {
            (l, c + 1)
        }
    }
}

/// Classes of characters that the lexer reads in runs.
#[derive(Clone, Copy, Debug, PartialEq, Eq, Structural)]
pub enum Run {
    Space,
    Digits,
    Word,
    RestOfLine,
}

pub open spec fn in_run(c: char, k: Run) -> bool {
    match k {
        Run::Space => whitespace(c),
        Run::Digits => digit(c),
        Run::Word => alphanumeric(c) || c == '_',
        Run::RestOfLine => c != '\n',
    }
}

/// The end of the longest run of class `k` that starts at `p`.
pub open spec fn run_end(src: Seq<char>, p: int, k: Run) -> int
    decreases src.len() - p,
{
    if 0 <= p < src.len() && in_run(src[p], k) {
        run_end(src, p + 1, k)
    } else {
        p
    }
}

/// The value of a string literal whose body starts at `p` (just past the
/// opening quote), with the position just past the closing quote; `None` if
/// the source ends first. A backslash takes the next character literally.
pub open spec fn string_body(src: Seq<char>, p: int) -> Option<(Seq<char>, int)>
    decreases src.len() - p,
{
    if p < 0 || p >= src.len() {
        None
    } else if src[p] == '"' {
        Some((Seq::empty(), p + 1))
    } else if src[p] == '\\' {
        if p + 1 >= src.len() {
            None
        } else {
            match string_body(src, p + 2) {
                Some((v, e)) => Some((seq![src[p + 1]] + v, e)),
                None => None,
            }
        }
    } else {
        match string_body(src, p + 1) {
            Some((v, e)) => Some((seq![src[p]] + v, e)),
            None => None,
        }
    }
}

/// The kind of a word: a keyword or an identifier.
pub open spec fn word_kind(w: Seq<char>) -> TokenKind {
    if w == seq!['l', 'e', 't'] {
        TokenKind::Let
    } else if w == seq!['d', 'e', 'f'] {
        TokenKind::Def
    } else if w == seq!['w', 'r', 'i', 't', 'e'] {
        TokenKind::Write
    } else {
        TokenKind::Identifier
    }
}

/// The kind of a one-character token.
pub open spec fn punct_kind(c: char) -> TokenKind {
    if c == '=' {
        TokenKind::Assign
    } else if c == '+' {
        TokenKind::Plus
    } else if c == '-' {
        TokenKind::Minus
    } else if c == '*' {
        TokenKind::Star
    } else if c == '/' {
        TokenKind::Slash
    } else if c == '(' {
        TokenKind::LParen
    } else if c == ')' {
        TokenKind::RParen
    } else if c == '{' {
        TokenKind::LBrace
    } else if c == '}' {
        TokenKind::RBrace
    } else if c == ';' {
        TokenKind::Semicolon
    } else if c == ',' {
        TokenKind::Comma
    } else {
        TokenKind::Unknown
    }
}

/// What the lexer reads at position `p`: a token's kind, its text and its end,
/// or an unterminated string.
pub enum Scan {
    Tok(TokenKind, Seq<char>, int),
    Unterminated,
}

/// The token that starts at `p`, where no whitespace stands.
pub open spec fn scan(src: Seq<char>, p: int) -> Scan {
    if p < 0 || p >= src.len() {
        Scan::Tok(TokenKind::Eof, Seq::empty(), p)
    } else {
        let c = src[p];
        if digit(c) {
            let e = run_end(src, p, Run::Digits);
            Scan::Tok(TokenKind::Number, src.subrange(p, e), e)
        } else if alphabetic(c) || c == '_' {
            let e = run_end(src, p + 1, Run::Word);
            Scan::Tok(word_kind(src.subrange(p, e)), src.subrange(p, e), e)
        } else if c == '"' {
            match string_body(src, p + 1) {
                Some((v, e)) => Scan::Tok(TokenKind::Str, v, e),
                None => Scan::Unterminated,
            }
        } else if c == '<' {
            let e = run_end(src, p + 1, Run::RestOfLine);
            Scan::Tok(TokenKind::Comment, src.subrange(p + 1, e), e)
        } else if c == ':' {
            if p + 1 < src.len() && alphabetic(src[p + 1]) && run_end(src, p + 2, Run::Word)
                < src.len() && src[run_end(src, p + 2, Run::Word)] == ':' {
                let e = run_end(src, p + 2, Run::Word);
                Scan::Tok(TokenKind::Import, src.subrange(p + 1, e), e + 1)
            } else {
                Scan::Tok(TokenKind::Colon, seq![':'], p + 1)
            }
        } else {
            Scan::Tok(punct_kind(c), seq![c], p + 1)
        }
    }
}

/// The lexer's state: the source, the position of the next character, and
/// that position's line and column.
pub struct Lexer {
    source: Vec<char>,
    pos: usize,
    line: usize,
    column: usize,
}

proof fn lemma_run_end_bounds(src: Seq<char>, p: int, k: Run)
    requires
        0 <= p <= src.len(),
    ensures
        p <= run_end(src, p, k) <= src.len(),
    decreases src.len() - p,
{
    if p < src.len() && in_run(src[p], k) {
        lemma_run_end_bounds(src, p + 1, k);
    }
}

proof fn lemma_line_col_bound(src: Seq<char>, p: int)
    requires
        0 <= p,
    ensures
        line_col(src, p).0 <= p + 1,
        line_col(src, p).1 <= p + 1,
    decreases p,
{
    if p > 0 {
        lemma_line_col_bound(src, p - 1);
    }
}

proof fn lemma_string_body_bounds(src: Seq<char>, p: int)
    requires
        0 <= p,
    ensures
        string_body(src, p) matches Some((v, e)) ==> p < e <= src.len(),
    decreases src.len() - p,
{
    if 0 <= p < src.len() && src[p] != '"' {
        if src[p] == '\\' {
            if p + 1 < src.len() {
                lemma_string_body_bounds(src, p + 2);
            }
        } else {
            lemma_string_body_bounds(src, p + 1);
        }
    }
}

fn run_class(c: char, k: Run) -> (r: bool)
    ensures
        r == in_run(c, k),
{
    match k {
        Run::Space => is_whitespace(c),
        Run::Digits => '0' <= c && c <= '9',
        Run::Word => is_alphanumeric(c) || c == '_',
        Run::RestOfLine => c != '\n',
    }
}

impl Lexer {
    /// The source text as characters.
    pub closed spec fn source(&self) -> Seq<char> {
        self.source@
    }

    /// The position of the next character.
    pub closed spec fn position(&self) -> int {
        self.pos as int
    }

    /// The lexer's invariant: the position is within the source and the line
    /// and column are those of the position.
    pub closed spec fn wf(&self) -> bool {
        &&& self.pos <= self.source@.len()
        &&& self.source@.len() < usize::MAX
        &&& (self.line as nat, self.column as nat) == line_col(self.source@, self.pos as int)
    }

    /// A lexer at the start of `source`.
    pub fn new(source: &str) -> (r: Lexer)
        requires
            source@.len() < usize::MAX,
        ensures
            r.wf(),
            r.source() == source@,
            r.position() == 0,
    {
        Lexer { source: chars_of(source), pos: 0, line: 1, column: 1 }
    }

    /// The end of the run of class `k` that starts at `from`.
    fn run_end_from(&self, from: usize, k: Run) -> (r: usize)
        requires
            self.wf(),
            from <= self.source@.len(),
        ensures
            r == run_end(self.source@, from as int, k),
    {
        let mut i = from;
        while i < self.source.len() && run_class(self.source[i], k)
            invariant
                self.wf(),
                from <= i <= self.source@.len(),
                run_end(self.source@, from as int, k) == run_end(self.source@, i as int, k),
            decreases self.source@.len() - i,
        {
            i += 1;
        }
        i
    }

    /// Moves forward to `target`, keeping count of lines and columns.
    fn advance_to(&mut self, target: usize)
        requires
            old(self).wf(),
            old(self).pos <= target <= old(self).source@.len(),
        ensures
            final(self).wf(),
            final(self).source@ == old(self).source@,
            final(self).pos == target,
    {
        while self.pos < target
            invariant
                self.wf(),
                self.source@ == old(self).source@,
                self.pos <= target <= self.source@.len(),
            decreases target - self.pos,
        {
            proof {
                lemma_line_col_bound(self.source@, self.pos as int);
            }
            if self.source[self.pos] == '\n' {
                self.line = self.line + 1;
                self.column = 1;
            } else {
                self.column = self.column + 1;
            }
            self.pos = self.pos + 1;
        }
    }

    /// The value and end of a string literal whose body starts at `from`.
    fn string_from(&self, from: usize) -> (r: Option<(Vec<char>, usize)>)
        requires
            self.wf(),
            1 <= from <= self.source@.len(),
        ensures
            match (r, string_body(self.source@, from as int)) {
                (Some((v, e)), Some((w, f))) => v@ == w && e == f,
                (None, None) => true,
                _ => false,
            },
    {
        let mut value: Vec<char> = Vec::new();
        let mut i = from;
        let n = self.source.len();
        while i < n && self.source[i] != '"'
            invariant
                self.wf(),
                n == self.source@.len(),
                from <= i <= n,
                string_body(self.source@, from as int) == match string_body(self.source@, i as int) {
                    Some((v, e)) => Some((value@ + v, e)),
                    None => None::<(Seq<char>, int)>,
                },
            decreases n - i,
        {
            let c = self.source[i];
            if c == '\\' {
                if i + 1 >= n {
                    return None;
                }
                let ghost prev = value@;
                value.push(self.source[i + 1]);
                proof {
                    assert forall|v: Seq<char>| (prev + (seq![self.source@[i + 1]] + v)) == value@ + v by {
                        assert(prev + (seq![self.source@[i + 1]] + v) =~= value@ + v);
                    }
                }
                i += 2;
            } else {
                let ghost prev = value@;
                value.push(c);
                proof {
                    assert forall|v: Seq<char>| (prev + (seq![c] + v)) == value@ + v by {
                        assert(prev + (seq![c] + v) =~= value@ + v);
                    }
                }
                i += 1;
            }
        }
        if i >= n {
            return None;
        }
        proof {
            assert(value@ + Seq::<char>::empty() =~= value@);
        }
        Some((value, i + 1))
    }

    /// Reads the next token, after any whitespace.
    pub fn next_token(&mut self) -> (r: Result<Token, LexError>)
        requires
            old(self).wf(),
        ensures
            final(self).wf(),
            final(self).source() == old(self).source(),
            ({
                let src = old(self).source();
                let p = run_end(src, old(self).position(), Run::Space);
                match scan(src, p) {
                    Scan::Tok(kind, text, end) => r matches Ok(t) && t@ == (Tok {
                        kind,
                        text,
                        line: line_col(src, p).0,
                        column: line_col(src, p).1,
                    }) && final(self).position() == end,
                    Scan::Unterminated => r matches Err(e) && e == (LexError {
                        kind: LexErrorKind::UnterminatedString,
                        line: line_col(src, p).0 as usize,
                        column: line_col(src, p).1 as usize,
                    }),
                }
            }),
    {
        let ghost src = self.source@;
        let ws_end = self.run_end_from(self.pos, Run::Space);
        proof {
            lemma_run_end_bounds(src, self.pos as int, Run::Space);
        }
        self.advance_to(ws_end);
        let p = self.pos;
        let line = self.line;
        let column = self.column;
        let n = self.source.len();
        if p >= n {
            let empty: Vec<char> = Vec::new();
            let t = Token { kind: TokenKind::Eof, text: string_of(empty.as_slice()), line, column };
            proof {
                assert(empty@ =~= Seq::<char>::empty());
            }
            return Ok(t);
        }
        let c = self.source[p];
        if '0' <= c && c <= '9' {
            let e = self.run_end_from(p, Run::Digits);
            proof {
                lemma_run_end_bounds(src, p as int, Run::Digits);
            }
            let text = string_of(slice_subrange(self.source.as_slice(), p, e));
            self.advance_to(e);
            Ok(Token { kind: TokenKind::Number, text, line, column })
        } else if is_alphabetic(c) || c == '_' {
            let e = self.run_end_from(p + 1, Run::Word);
            proof {
                lemma_run_end_bounds(src, p + 1, Run::Word);
            }
            let word = slice_subrange(self.source.as_slice(), p, e);
            let kind = if word.len() == 3 && word[0] == 'l' && word[1] == 'e' && word[2] == 't' {
                TokenKind::Let
            } else if word.len() == 3 && word[0] == 'd' && word[1] == 'e' && word[2] == 'f' {
                TokenKind::Def
            } else if word.len() == 5 && word[0] == 'w' && word[1] == 'r' && word[2] == 'i'
                && word[3] == 't' && word[4] == 'e' {
                TokenKind::Write
            } else {
                TokenKind::Identifier
            };
            proof {
                let w = word@;
                if w == seq!['l', 'e', 't'] || w == seq!['d', 'e', 'f'] || w == seq![
                    'w',
                    'r',
                    'i',
                    't',
                    'e',
                ] {
                    assert(w.len() == 3 || w.len() == 5);
                }
                if kind is Let {
                    assert(w =~= seq!['l', 'e', 't']);
                } else if kind is Def {
                    assert(w =~= seq!['d', 'e', 'f']);
                } else if kind is Write {
                    assert(w =~= seq!['w', 'r', 'i', 't', 'e']);
                }
                assert(kind == word_kind(w));
            }
            let text = string_of(word);
            self.advance_to(e);
            Ok(Token { kind, text, line, column })
        } else if c == '"' {
            proof {
                lemma_string_body_bounds(src, p + 1);
            }
            match self.string_from(p + 1) {
                Some((value, e)) => {
                    let text = string_of(value.as_slice());
                    self.advance_to(e);
                    Ok(Token { kind: TokenKind::Str, text, line, column })
                },
                None => Err(LexError { kind: LexErrorKind::UnterminatedString, line, column }),
            }
        } else if c == '<' {
            let e = self.run_end_from(p + 1, Run::RestOfLine);
            proof {
                lemma_run_end_bounds(src, p + 1, Run::RestOfLine);
            }
            let text = string_of(slice_subrange(self.source.as_slice(), p + 1, e));
            self.advance_to(e);
            Ok(Token { kind: TokenKind::Comment, text, line, column })
        } else if c == ':' {
            if p + 1 < n && is_alphabetic(self.source[p + 1]) {
                let e = self.run_end_from(p + 2, Run::Word);
                proof {
                    lemma_run_end_bounds(src, p + 2, Run::Word);
                }
                if e < n && self.source[e] == ':' {
                    let text = string_of(slice_subrange(self.source.as_slice(), p + 1, e));
                    self.advance_to(e + 1);
                    return Ok(Token { kind: TokenKind::Import, text, line, column });
                }
            }
            let text = string_of(slice_subrange(self.source.as_slice(), p, p + 1));
            self.advance_to(p + 1);
            proof {
                assert(src.subrange(p as int, p + 1) =~= seq![':']);
            }
            Ok(Token { kind: TokenKind::Colon, text, line, column })
        } else {
            let kind = if c == '=' {
                TokenKind::Assign
            } else if c == '+' {
                TokenKind::Plus
            } else if c == '-' {
                TokenKind::Minus
            } else if c == '*' {
                TokenKind::Star
            } else if c == '/' {
                TokenKind::Slash
            } else if c == '(' {
                TokenKind::LParen
            } else if c == ')' {
                TokenKind::RParen
            } else if c == '{' {
                TokenKind::LBrace
            } else if c == '}' {
                TokenKind::RBrace
            } else if c == ';' {
                TokenKind::Semicolon
            } else if c == ',' {
                TokenKind::Comma
            } else {
                TokenKind::Unknown
            };
            let text = string_of(slice_subrange(self.source.as_slice(), p, p + 1));
            self.advance_to(p + 1);
            proof {
                assert(src.subrange(p as int, p + 1) =~= seq![c]);
            }
            Ok(Token { kind, text, line, column })
        }
    }
}

} // verus!

verus! {

/// The tokens read from position `p` on, comments left out, ending with the
/// end-of-input token; or the first lexical error.
pub open spec fn tokens_from(src: Seq<char>, p: int) -> Result<Seq<Tok>, LexError>
    decreases src.len() - p,
{
    let q = run_end(src, p, Run::Space);
    let (l, c) = line_col(src, q);
    match scan(src, q) {
        Scan::Unterminated => Err(
            LexError { kind: LexErrorKind::UnterminatedString, line: l as usize, column: c as usize },
        ),
        Scan::Tok(kind, text, e) => {
            let t = Tok { kind, text, line: l, column: c };
            if kind is Eof {
                Ok(seq![t])
            } else if kind is Unknown {
                Err(LexError { kind: LexErrorKind::UnexpectedChar(src[q]), line: l as usize, column: c as usize })
            } else if e <= p || e > src.len() {
                Ok(seq![t])
            } else {
                match tokens_from(src, e) {
                    Ok(rest) => Ok(if kind is Comment { rest } else { seq![t] + rest }),
                    Err(x) => Err(x),
                }
            }
        },
    }
}

/// The models of a sequence of tokens.
pub open spec fn toks_of(v: Seq<Token>) -> Seq<Tok> {
    v.map_values(|t: Token| t@)
}

proof fn lemma_scan_progress(src: Seq<char>, q: int)
    requires
        0 <= q < src.len(),
    ensures
        scan(src, q) matches Scan::Tok(_, _, e) ==> q < e <= src.len(),
{
    lemma_run_end_bounds(src, q, Run::Digits);
    lemma_run_end_bounds(src, q + 1, Run::Digits);
    lemma_run_end_bounds(src, q + 1, Run::Word);
    lemma_run_end_bounds(src, q + 1, Run::RestOfLine);
    if q + 2 <= src.len() {
        lemma_run_end_bounds(src, q + 2, Run::Word);
    }
    lemma_string_body_bounds(src, q + 1);
}

/// Splits source text into tokens: comments are left out, an unknown
/// character is an error, and the last token is the end of input.
pub fn tokenize(source: &str) -> (r: Result<Vec<Token>, LexError>)
    requires
        source@.len() < usize::MAX,
    ensures
        match (r, tokens_from(source@, 0)) {
            (Ok(v), Ok(ts)) => toks_of(v@) == ts,
            (Err(e), Err(f)) => e == f,
            _ => false,
        },
{
    let mut lexer = Lexer::new(source);
    let ghost src = source@;
    proof {
        assert(toks_of(Seq::<Token>::empty()) =~= Seq::<Tok>::empty());
    }
    let mut out: Vec<Token> = Vec::new();
    loop
        invariant
            lexer.wf(),
            src == source@,
            lexer.source() == src,
            0 <= lexer.position() <= src.len(),
            forall|ts: Seq<Tok>|
                tokens_from(src, lexer.position()) == Ok::<Seq<Tok>, LexError>(ts)
                    ==> #[trigger] tokens_from(src, 0) == Ok::<Seq<Tok>, LexError>(toks_of(out@) + ts),
            forall|e: LexError|
                tokens_from(src, lexer.position()) == Err::<Seq<Tok>, LexError>(e)
                    ==> #[trigger] tokens_from(src, 0) == Err::<Seq<Tok>, LexError>(e),
        decreases src.len() - lexer.position(),
    {
        let ghost p = lexer.position();
        let ghost q = run_end(src, p, Run::Space);
        proof {
            lemma_run_end_bounds(src, p, Run::Space);
            if q < src.len() {
                lemma_scan_progress(src, q);
            }
        }
        let t = match lexer.next_token() {
            Ok(t) => t,
            Err(e) => {
                proof {
                    assert(tokens_from(src, p) == Err::<Seq<Tok>, LexError>(e));
                }
                return Err(e);
            },
        };
        let ghost tm = t@;
        if t.kind == TokenKind::Eof {
            let ghost prev = out@;
            out.push(t);
            proof {
                assert(toks_of(out@) =~= toks_of(prev) + seq![tm]);
                assert(tokens_from(src, p) == Ok::<Seq<Tok>, LexError>(seq![tm]));
                assert(tokens_from(src, 0) == Ok::<Seq<Tok>, LexError>(toks_of(prev) + seq![tm]));
            }
            return Ok(out);
        }
        if t.kind == TokenKind::Unknown {
            let c = first_char(&t);
            proof {
                assert(tokens_from(src, p) == Err::<Seq<Tok>, LexError>(LexError {
                    kind: LexErrorKind::UnexpectedChar(c), line: t.line, column: t.column }));
            }
            return Err(LexError { kind: LexErrorKind::UnexpectedChar(c), line: t.line, column: t.column });
        }
        if t.kind != TokenKind::Comment {
            let ghost prev = out@;
            out.push(t);
            proof {
                assert(toks_of(out@) =~= toks_of(prev).push(tm));
                assert forall|ts: Seq<Tok>|
                    tokens_from(src, lexer.position()) == Ok::<Seq<Tok>, LexError>(ts)
                    implies #[trigger] tokens_from(src, 0) == Ok::<Seq<Tok>, LexError>(toks_of(out@) + ts) by {
                    assert(toks_of(prev) + (seq![tm] + ts) =~= toks_of(out@) + ts);
                }
            }
        }
    }
}

/// The first character of a token's text.
fn first_char(t: &Token) -> (c: char)
    requires
        t@.text.len() >= 1,
    ensures
        c == t@.text[0],
{
    t.text.as_str().get_char(0)
}

} // verus!
