//! Lexical units consumed by the parser.

use vstd::prelude::*;

verus! {

/// The closed set of token tags.
#[derive(Debug, Clone, Copy, PartialEq, Eq, Structural)]
pub enum TokenKind {
    Unknown,
    Literal,
    Identifier,
    Plus,
    Minus,
    Star,
    Slash,
    Power,
    Equals,
    Deg,
    Rad,
    Pipe,
    OpenParenthesis,
    ClosedParenthesis,
    Comma,
    EOF,
}

impl TokenKind {
    /// The two unit suffixes, degrees and radians.
    pub open spec fn spec_is_unit(&self) -> bool {
        *self == TokenKind::Deg || *self == TokenKind::Rad
    }

    /// Whether this kind is one of the two unit suffixes.
    #[verifier::when_used_as_spec(spec_is_unit)]
    pub fn is_unit(&self) -> (unit: bool)
        ensures
            unit == self.spec_is_unit(),
    {
        match self {
            TokenKind::Deg | TokenKind::Rad => true,
            _ => false,
        }
    }

    /// Whether two kinds carry the same tag.
    pub fn compare(&self, second_token: &TokenKind) -> (same: bool)
        ensures
            same == (*self == *second_token),
    {
        *self == *second_token
    }
}

/// A lexical unit: its tag and the source text it was read from.
#[derive(Debug, Clone, PartialEq, Eq)]
pub struct Token {
    pub kind: TokenKind,
    pub value: String,
}

/// The mathematical content of a [`Token`].
pub struct TokenView {
    pub kind: TokenKind,
    pub value: Seq<char>,
}

impl View for Token {
    type V = TokenView;

    open spec fn view(&self) -> TokenView {
        TokenView { kind: self.kind, value: self.value@ }
    }
}

} // verus!
