use crate::ast::token::{SpecTokenKind, TokenKind};
use crate::ast::{SourceView, SpecSourceView};
use vstd::prelude::*;

verus! {

/// The kinds of diagnostics.
#[derive(Debug, PartialEq, Eq, Clone)]
#[allow(inconsistent_fields)]
pub enum ErrorKind<'e> {
    /// The lexer met another character than the one it needed.
    UnexpectedChar { expected: char, got: char },
    /// The parser met a token of another kind than those it could go on with.
    UnexpectedToken { expected: Vec<TokenKind<'e>>, got: TokenKind<'e> },
    /// The tokens ran out in the middle of a construct.
    UnexpectedEndOfTokenStream,
    /// The named part of the grammar is not covered yet.
    NotImplemented(String),
    /// The parser reached a state that it should never reach.
    Unreachable(String),
}

/// A diagnostic: what went wrong, and where.
#[derive(Debug, PartialEq, Eq, Clone)]
pub struct Error<'e> {
    pub kind: ErrorKind<'e>,
    pub view: SourceView<'e>,
}

/// What an `ErrorKind` stands for.
#[allow(inconsistent_fields)]
pub enum SpecErrorKind {
    UnexpectedChar { expected: char, got: char },
    UnexpectedToken { expected: Seq<SpecTokenKind>, got: SpecTokenKind },
    UnexpectedEndOfTokenStream,
    NotImplemented(Seq<char>),
    Unreachable(Seq<char>),
}

/// What an `Error` stands for.
pub struct SpecError {
    pub kind: SpecErrorKind,
    pub view: SpecSourceView,
}

/// What a list of token kinds stands for.
pub open spec fn kinds_view<'e>(kinds: Seq<TokenKind<'e>>) -> Seq<SpecTokenKind> {
    kinds.map_values(|k: TokenKind<'e>| k@)
}

/// What a list of diagnostics stands for.
pub open spec fn errors_view<'e>(errors: Seq<Error<'e>>) -> Seq<SpecError> {
    errors.map_values(|e: Error<'e>| e@)
}

impl<'e> View for ErrorKind<'e> {
    type V = SpecErrorKind;

    open spec fn view(&self) -> SpecErrorKind {
        match *self {
            ErrorKind::UnexpectedChar { expected, got } => SpecErrorKind::UnexpectedChar {
                expected,
                got,
            },
            ErrorKind::UnexpectedToken { expected, got } => SpecErrorKind::UnexpectedToken {
                expected: kinds_view(expected@),
                got: got@,
            },
            ErrorKind::UnexpectedEndOfTokenStream => SpecErrorKind::UnexpectedEndOfTokenStream,
            ErrorKind::NotImplemented(feature) => SpecErrorKind::NotImplemented(feature@),
            ErrorKind::Unreachable(message) => SpecErrorKind::Unreachable(message@),
        }
    }
}

impl<'e> View for Error<'e> {
    type V = SpecError;

    open spec fn view(&self) -> SpecError {
        SpecError { kind: self.kind@, view: self.view@ }
    }
}

} // verus!
