//! The lexical output: token kinds, decoded literal values, and the token
//! record itself, together with their mathematical views.

use vstd::prelude::*;

verus! {

/// The closed set of token kinds a scan can produce.
#[derive(Debug, Clone, Copy, PartialEq, Eq, Structural)]
pub enum TokenType {
    LeftParen,
    RightParen,
    LeftBrace,
    RightBrace,
    Comma,
    Dot,
    Minus,
    Plus,
    Semicolon,
    Slash,
    Star,
    Bang,
    BangEqual,
    Equal,
    EqualEqual,
    Greater,
    GreaterEqual,
    Less,
    LessEqual,
    Identifier,
    StringLit,
    Number,
    And,
    Class,
    Else,
    False,
    For,
    Fun,
    If,
    Nil,
    Or,
    Print,
    Return,
    Super,
    This,
    True,
    Var,
    While,
    Eof,
}

/// The decoded value carried by a literal token: nothing, the exact digit
/// text of a number (to be turned into a machine number by a caller), or the
/// decoded contents of a string literal (without the surrounding quotes).
#[derive(Debug, Clone, PartialEq, Eq)]
pub enum Literal {
    Nothing,
    Num(String),
    Text(String),
}

/// The mathematical value of a `Literal`.
#[verifier::ext_equal]
pub enum SpecLiteral {
    Nothing,
    Num(Seq<char>),
    Text(Seq<char>),
}

impl View for Literal {
    type V = SpecLiteral;

    open spec fn view(&self) -> SpecLiteral {
        match self {
            Literal::Nothing => SpecLiteral::Nothing,
            Literal::Num(s) => SpecLiteral::Num(s@),
            Literal::Text(s) => SpecLiteral::Text(s@),
        }
    }
}

/// One unit of lexical output: a kind, the exact source text it was built
/// from, an optional decoded value, and the 1-based line where it started.
#[derive(Debug, Clone, PartialEq, Eq)]
pub struct Token {
    pub token_type: TokenType,
    pub lexeme: String,
    pub literal: Literal,
    pub line: usize,
}

/// The mathematical value of a `Token`.
#[verifier::ext_equal]
pub struct SpecToken {
    pub kind: TokenType,
    pub lexeme: Seq<char>,
    pub literal: SpecLiteral,
    pub line: nat,
}

impl View for Token {
    type V = SpecToken;

    open spec fn view(&self) -> SpecToken {
        SpecToken {
            kind: self.token_type,
            lexeme: self.lexeme@,
            literal: self.literal@,
            line: self.line as nat,
        }
    }
}

/// The terminal end-of-input token: empty lexeme, no literal, the final line.
pub open spec fn eof_token(line: nat) -> SpecToken {
    SpecToken {
        kind: TokenType::Eof,
        lexeme: Seq::<char>::empty(),
        literal: SpecLiteral::Nothing,
        line,
    }
}

/// The views of a sequence of tokens, in order.
pub open spec fn token_views(ts: Seq<Token>) -> Seq<SpecToken> {
    ts.map(|i: int, t: Token| t@)
}

} // verus!
