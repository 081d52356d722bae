//! What a failed parse reports.

use crate::token::{Token, TokenView};
use vstd::prelude::*;

verus! {

/// The rule of the grammar that a text broke.
#[derive(PartialEq, Eq, Structural, Clone, Copy, Debug)]
pub enum ParseErrorKind {
    /// `let` is not followed by an identifier.
    MissingIdentifier,
    /// The name that `let` binds is not followed by `=`.
    MissingAssign,
    /// No expression begins with the token found.
    NoPrefixRule,
    /// An integer literal does not fit in 64 bits.
    IntegerTooLarge,
}

/// A failed parse: the rule that was broken and the token that broke it.
#[derive(PartialEq, Debug)]
pub struct ParseError {
    pub kind: ParseErrorKind,
    pub found: Token,
}

/// What a [`ParseError`] stands for.
pub ghost struct ParseErrorView {
    pub kind: ParseErrorKind,
    pub found: TokenView,
}

impl View for ParseError {
    type V = ParseErrorView;

    open spec fn view(&self) -> ParseErrorView {
        ParseErrorView { kind: self.kind, found: self.found@ }
    }
}

} // verus!
