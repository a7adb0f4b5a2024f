use super::{SourceView, SpecSourceView};
use vstd::prelude::*;

verus! {

/// A lexeme with its category and the place it was read from.
#[derive(Debug, Copy, Clone, Eq, PartialEq)]
pub struct Token<'t> {
    pub data: TokenKind<'t>,
    pub view: SourceView<'t>,
}

/// The lexical categories of the language.
#[derive(Debug, Copy, Clone, Eq, PartialEq)]
pub enum TokenKind<'d> {
    // Keywords
    KwEnd,
    KwDo,
    KwStatic,
    KwConst,
    KwLet,
    KwFn,
    // Punctuation
    LParen,
    RParen,
    Comma,
    Dot,
    Column,
    // Operators
    Assign,
    Plus,
    AssignPlus,
    Minus,
    AssignMinus,
    Mul,
    AssignMul,
    Div,
    AssignDiv,
    Less,
    LessEq,
    Greater,
    GreaterEq,
    Equal,
    Not,
    NotEq,
    ScopeAccess,
    // Other
    /// A string literal, without its quotes.
    Str(&'d str),
    /// An identifier, as written.
    Ident(&'d str),
}

/// What a token carries: its kind, under the name of the token's field.
pub type TokenData<'d> = TokenKind<'d>;

/// What a `TokenKind` stands for: the same categories over plain characters.
pub enum SpecTokenKind {
    KwEnd,
    KwDo,
    KwStatic,
    KwConst,
    KwLet,
    KwFn,
    LParen,
    RParen,
    Comma,
    Dot,
    Column,
    Assign,
    Plus,
    AssignPlus,
    Minus,
    AssignMinus,
    Mul,
    AssignMul,
    Div,
    AssignDiv,
    Less,
    LessEq,
    Greater,
    GreaterEq,
    Equal,
    Not,
    NotEq,
    ScopeAccess,
    Str(Seq<char>),
    Ident(Seq<char>),
}

/// What a `Token` stands for.
pub struct SpecToken {
    pub kind: SpecTokenKind,
    pub span: SpecSourceView,
}

impl<'d> View for TokenKind<'d> {
    type V = SpecTokenKind;

    open spec fn view(&self) -> SpecTokenKind {
        match *self {
            TokenKind::KwEnd => SpecTokenKind::KwEnd,
            TokenKind::KwDo => SpecTokenKind::KwDo,
            TokenKind::KwStatic => SpecTokenKind::KwStatic,
            TokenKind::KwConst => SpecTokenKind::KwConst,
            TokenKind::KwLet => SpecTokenKind::KwLet,
            TokenKind::KwFn => SpecTokenKind::KwFn,
            TokenKind::LParen => SpecTokenKind::LParen,
            TokenKind::RParen => SpecTokenKind::RParen,
            TokenKind::Comma => SpecTokenKind::Comma,
            TokenKind::Dot => SpecTokenKind::Dot,
            TokenKind::Column => SpecTokenKind::Column,
            TokenKind::Assign => SpecTokenKind::Assign,
            TokenKind::Plus => SpecTokenKind::Plus,
            TokenKind::AssignPlus => SpecTokenKind::AssignPlus,
            TokenKind::Minus => SpecTokenKind::Minus,
            TokenKind::AssignMinus => SpecTokenKind::AssignMinus,
            TokenKind::Mul => SpecTokenKind::Mul,
            TokenKind::AssignMul => SpecTokenKind::AssignMul,
            TokenKind::Div => SpecTokenKind::Div,
            TokenKind::AssignDiv => SpecTokenKind::AssignDiv,
            TokenKind::Less => SpecTokenKind::Less,
            TokenKind::LessEq => SpecTokenKind::LessEq,
            TokenKind::Greater => SpecTokenKind::Greater,
            TokenKind::GreaterEq => SpecTokenKind::GreaterEq,
            TokenKind::Equal => SpecTokenKind::Equal,
            TokenKind::Not => SpecTokenKind::Not,
            TokenKind::NotEq => SpecTokenKind::NotEq,
            TokenKind::ScopeAccess => SpecTokenKind::ScopeAccess,
            TokenKind::Str(s) => SpecTokenKind::Str(s@),
            TokenKind::Ident(s) => SpecTokenKind::Ident(s@),
        }
    }
}

impl<'t> View for Token<'t> {
    type V = SpecToken;

    open spec fn view(&self) -> SpecToken {
        SpecToken { kind: self.data@, span: self.view@ }
    }
}

/// What an optional token stands for.
pub open spec fn token_view<'t>(token: Option<Token<'t>>) -> Option<SpecToken> {
    match token {
        Some(t) => Some(t@),
        None => None,
    }
}

} // verus!
