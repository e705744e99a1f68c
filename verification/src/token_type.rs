use vstd::prelude::*;

verus! {

/// The closed set of token kinds the scanner can produce.
///
/// Exactly one `EOF` token ends every token sequence. `Bang` and `Minus` are
/// recognised by the scanner but accepted by no grammar rule; they are kept so
/// that the scanner can hand them to the parser, which then reports them.
#[derive(Debug, Clone, Copy, PartialEq, Eq, Structural)]
pub enum TokenType {
    LeftParen,
    RightParen,
    LeftBracket,
    RightBracket,
    LeftBrace,
    RightBrace,
    Comma,
    Colon,
    SemiColon,
    Bang,
    BangEqual,
    Equal,
    EqualEqual,
    Greater,
    GreaterEqual,
    Less,
    LessEqual,
    And,
    Or,
    Minus,
    Number,
    Identifier,
    EOF,
}

} // verus!
