use vstd::prelude::*;

verus! {

/// Describes the type of a Token.
#[derive(Clone, Copy, Debug, PartialEq, Eq, Structural)]
pub enum TokenType {
    // Single-character tokens.
    OpenParen,
    CloseParen,
    OpenCurly,
    CloseCurly,
    Comma,
    Dot,
    Minus,
    Plus,
    Semicolon,
    Slash,
    Star,
    // One or two character tokens.
    Excl,
    ExclEqual,
    Equal,
    EqualEqual,
    Greater,
    GreaterEqual,
    Less,
    LessEqual,
    // Literals.
    Identifier,
    String,
    Number,
    // Keywords.
    And,
    Class,
    Else,
    False,
    Func,
    For,
    If,
    Null,
    Or,
    Print,
    Return,
    Super,
    This,
    True,
    Var,
    While,
    Error,
    Eof,
    // Bitwise operations.
    BwAnd,
    BwOr,
    BwXor,
    BwNot,
    // Array index notation.
    OpenSquare,
    CloseSquare,
    // Bitwise shifts.
    GreaterGreater,
    LessLess,
}

/// A token of the Elysabettian language: its type, the text it stands for
/// and the line on which it was recognized.
#[derive(Clone, Debug, PartialEq, Eq)]
pub struct Token {
    pub token_type: TokenType,
    pub text: String,
    pub line: i32,
}

impl Token {
    /// Creates a new Token, copying `text` into storage of its own.
    pub fn new(token_type: TokenType, text: &String, line: i32) -> (r: Token)
        ensures
            r.token_type == token_type,
            r.text@ == text@,
            r.line == line,
    {
        Token { token_type, text: text.clone(), line }
    }
}

} // verus!
