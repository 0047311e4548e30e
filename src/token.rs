use crate::specs::{Mnemonic, Register};
use core::ops::Range;
use vstd::prelude::*;

verus! {

/// A source location: a line and a half-open range of character offsets.
#[derive(Debug, PartialEq, Eq)]
pub struct Span {
    pub line: usize,
    pub chars: Range<usize>,
}

impl Clone for Span {
    fn clone(&self) -> (r: Self)
        ensures
            r == *self,
    {
        Span { line: self.line, chars: Range { start: self.chars.start, end: self.chars.end } }
    }
}

/// The span that encloses two spans, placed on the later of their lines.
pub open spec fn merged(a: Span, b: Span) -> Span {
    Span {
        line: if a.line >= b.line {
            a.line
        } else {
            b.line
        },
        chars: Range {
            start: if a.chars.start <= b.chars.start { a.chars.start } else { b.chars.start },
            end: if a.chars.end >= b.chars.end { a.chars.end } else { b.chars.end },
        },
    }
}

impl Span {
    pub fn new(line: usize, chars: Range<usize>) -> (r: Self)
        ensures
            r.line == line,
            r.chars == chars,
    {
        Span { line, chars }
    }

    /// Merges two spans into the one that covers both.
    pub fn add(self, rhs: Span) -> (r: Span)
        ensures
            r == merged(self, rhs),
    {
        let start = if self.chars.start <= rhs.chars.start {
            self.chars.start
        } else {
            rhs.chars.start
        };
        let end = if self.chars.end >= rhs.chars.end {
            self.chars.end
        } else {
            rhs.chars.end
        };
        let line = if self.line >= rhs.line {
            self.line
        } else {
            rhs.line
        };
        Span::new(line, Range { start, end })
    }
}

#[derive(Debug, PartialEq, Eq)]
pub enum TokenType {
    Mnemonic(Mnemonic),
    Register(Register),
    Number(i64),
    Label(String),
    LabelRef(String),
    Byte,
    LeftSquareBracket,
    RightSquareBracket,
}

impl Clone for TokenType {
    fn clone(&self) -> (r: Self)
        ensures
            r == *self,
    {
        match self {
            TokenType::Mnemonic(m) => TokenType::Mnemonic(m.clone()),
            TokenType::Register(r) => TokenType::Register(*r),
            TokenType::Number(n) => TokenType::Number(*n),
            TokenType::Label(s) => TokenType::Label(s.clone()),
            TokenType::LabelRef(s) => TokenType::LabelRef(s.clone()),
            TokenType::Byte => TokenType::Byte,
            TokenType::LeftSquareBracket => TokenType::LeftSquareBracket,
            TokenType::RightSquareBracket => TokenType::RightSquareBracket,
        }
    }
}

/// A token kind seen through the characters of its names.
pub enum TokenKind {
    Mnemonic(Seq<char>),
    Register(Register),
    Number(i64),
    Label(Seq<char>),
    LabelRef(Seq<char>),
    Byte,
    LeftSquareBracket,
    RightSquareBracket,
}

impl View for TokenType {
    type V = TokenKind;

    open spec fn view(&self) -> TokenKind {
        match self {
            TokenType::Mnemonic(m) => TokenKind::Mnemonic(m@),
            TokenType::Register(r) => TokenKind::Register(*r),
            TokenType::Number(n) => TokenKind::Number(*n),
            TokenType::Label(s) => TokenKind::Label(s@),
            TokenType::LabelRef(s) => TokenKind::LabelRef(s@),
            TokenType::Byte => TokenKind::Byte,
            TokenType::LeftSquareBracket => TokenKind::LeftSquareBracket,
            TokenType::RightSquareBracket => TokenKind::RightSquareBracket,
        }
    }
}

impl TokenType {
    /// Compares two token kinds by their names and values.
    pub fn same_kind(&self, other: &TokenType) -> (r: bool)
        ensures
            r == (self@ == other@),
    {
        match (self, other) {
            (TokenType::Mnemonic(a), TokenType::Mnemonic(b)) => a.name == b.name,
            (TokenType::Register(a), TokenType::Register(b)) => *a == *b,
            (TokenType::Number(a), TokenType::Number(b)) => *a == *b,
            (TokenType::Label(a), TokenType::Label(b)) => *a == *b,
            (TokenType::LabelRef(a), TokenType::LabelRef(b)) => *a == *b,
            (TokenType::Byte, TokenType::Byte) => true,
            (TokenType::LeftSquareBracket, TokenType::LeftSquareBracket) => true,
            (TokenType::RightSquareBracket, TokenType::RightSquareBracket) => true,
            _ => false,
        }
    }
}

/// A lexeme with its kind and its place in the source.
#[derive(Debug)]
pub struct Token {
    pub token_type: TokenType,
    pub content: String,
    pub span: Span,
}

/// A token seen through the characters of its texts.
pub struct TokenView {
    pub kind: TokenKind,
    pub content: Seq<char>,
    pub span: Span,
}

impl View for Token {
    type V = TokenView;

    open spec fn view(&self) -> TokenView {
        TokenView { kind: self.token_type@, content: self.content@, span: self.span }
    }
}

impl Clone for Token {
    fn clone(&self) -> (r: Self)
        ensures
            r == *self,
    {
        Token {
            token_type: self.token_type.clone(),
            content: self.content.clone(),
            span: self.span.clone(),
        }
    }
}

impl PartialEq for Token {
    /// Tokens are equal when their kinds and texts are; spans are not compared.
    fn eq(&self, other: &Token) -> (r: bool) {
        self.token_type.same_kind(&other.token_type) && self.content == other.content
    }
}

impl vstd::std_specs::cmp::PartialEqSpecImpl for Token {
    open spec fn obeys_eq_spec() -> bool {
        true
    }

    open spec fn eq_spec(&self, other: &Token) -> bool {
        self.token_type@ == other.token_type@ && self.content@ == other.content@
    }
}

impl Eq for Token {

}

impl Token {
    pub fn new(token_type: TokenType, content: String, line: usize, range: Range<usize>) -> (r: Self)
        ensures
            r.token_type == token_type,
            r.content == content,
            r.span.line == line,
            r.span.chars == range,
    {
        Token { token_type, content, span: Span::new(line, range) }
    }
}

} // verus!
