use crate::tokentype::{Literal, LiteralView, TokenType};
use vstd::prelude::*;

verus! {

/// One lexical unit of the source text.
#[derive(Debug)]
pub struct Token {
    /// The lexical category.
    pub kind: TokenType,
    /// The source characters the token was read from.
    pub lexeme: String,
    /// The decoded payload of a string, number or identifier.
    pub literal: Option<Literal>,
    /// The line, counted from one, on which the token starts.
    pub line: usize,
}

/// What a `Token` stands for, with its texts as character sequences.
pub struct TokenView {
    pub kind: TokenType,
    pub lexeme: Seq<char>,
    pub literal: Option<LiteralView>,
    pub line: nat,
}

impl View for Token {
    type V = TokenView;

    open spec fn view(&self) -> TokenView {
        TokenView {
            kind: self.kind,
            lexeme: self.lexeme@,
            literal: match self.literal {
                Some(l) => Some(l@),
                None => None,
            },
            line: self.line as nat,
        }
    }
}

/// Whether `literal` is the payload that a token of `kind` carries: the
/// matching variant for a string, a number or an identifier, none otherwise.
pub open spec fn literal_fits(kind: TokenType, literal: Option<Literal>) -> bool {
    match literal {
        Some(l) => l.kind() == kind,
        None => !kind.carries_literal(),
    }
}

impl TokenView {
    /// The payload is present exactly for the three literal kinds, and is of
    /// the variant that goes with the kind.
    pub open spec fn well_formed(self) -> bool {
        match self.literal {
            Some(LiteralView::String(_)) => self.kind is String,
            Some(LiteralView::Number(_)) => self.kind is Number,
            Some(LiteralView::Identifier(_)) => self.kind is Identifier,
            None => !self.kind.carries_literal(),
        }
    }
}

impl Token {
    /// The payload is present exactly for the three literal kinds, and is of
    /// the variant that goes with the kind.
    pub open spec fn well_formed(self) -> bool {
        literal_fits(self.kind, self.literal)
    }

    /// The characters the token shows as: its payload where it has one, its
    /// lexeme otherwise.
    pub open spec fn text(self) -> Seq<char> {
        match self.literal {
            Some(l) => l.text(),
            None => self.lexeme@,
        }
    }

    /// Builds a token from its four parts.
    pub fn new(kind: TokenType, lexeme: String, literal: Option<Literal>, line: usize) -> (token:
        Token)
        requires
            literal_fits(kind, literal),
        ensures
            token.kind == kind,
            token.lexeme == lexeme,
            token.literal == literal,
            token.line == line,
            token.well_formed(),
    {
        Token { kind, lexeme, literal, line }
    }

    /// Renders the token as its payload where it has one, as its lexeme
    /// otherwise.
    pub fn to_text(&self) -> (out: String)
        ensures
            out@ == self.text(),
    {
        match &self.literal {
            Some(l) => l.to_text(),
            None => self.lexeme.clone(),
        }
    }
}

impl Clone for Token {
    fn clone(&self) -> (copy: Self)
        ensures
            copy == *self,
    {
        Token {
            kind: self.kind,
            lexeme: self.lexeme.clone(),
            literal: match &self.literal {
                Some(l) => Some(l.clone()),
                None => None,
            },
            line: self.line,
        }
    }
}

} // verus!
