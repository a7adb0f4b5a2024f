use super::error::{Error, ErrorKind};
use super::syntax::{explicit_type, failed};
use super::Parser;
use crate::ast::{NodeId, Tree};
use vstd::prelude::*;

verus! {

impl<'a> Parser<'a> {
    /// Reads a type annotation. The grammar of types is not settled: reading
    /// one fails, at the token where the type would start, and reads nothing.
    pub fn parse_explicit_type(&mut self) -> (r: Result<NodeId, Error<'a>>)
        requires
            old(self).wf(),
        ensures
            final(self).wf(),
            final(self).tail() == old(self).tail(),
            final(self).arena() == old(self).arena(),
            match r {
                Ok(_) => false,
                Err(e) => explicit_type(old(self).remaining(), old(self).tail()) == failed::<Tree>(
                    e@,
                    final(self).remaining(),
                ),
            },
            Self::built(
                *old(self),
                *final(self),
                r,
                explicit_type(old(self).remaining(), old(self).tail()),
            ),
    {
        let view = match self.lexer.peek(0) {
            Some(token) => token.view,
            None => self.lexer.end_of_stream(),
        };
        Err(
            Error {
                kind: ErrorKind::NotImplemented(
                    "Explicit type parsing is not yet implemented.".to_owned(),
                ),
                view,
            },
        )
    }
}

} // verus!
