//! Tokens of the source language, as the front end hands them around.
//! The front end itself (scanning and grammar recognition) is an
//! external collaborator; only its vocabulary is defined here.

use vstd::prelude::*;

verus! {

/// The kind of a token: one punctuation mark, reserved word,
/// identifier, number, or the end of the input.
#[derive(Clone, Copy, Debug, PartialEq, Eq, Structural)]
pub enum Type {
    Bang,
    Begin,
    Call,
    Comma,
    Const,
    Do,
    Dot,
    End,
    Equal,
    Greater,
    GreaterEqual,
    Hash,
    Identifier,
    If,
    LeftParen,
    Less,
    LessEqual,
    Minus,
    Number,
    Odd,
    Plus,
    Procedure,
    Question,
    RightParen,
    ColonEqual,
    Semicolon,
    Slash,
    Star,
    Then,
    Var,
    While,
    EOF,
}

/// The literal value a number token carries.
#[derive(Debug)]
pub enum Literal {
    Number(i32),
}

/// One token: its kind, the text it was read from, its literal value
/// if it has one, and the source line it stands on.
#[derive(Debug)]
pub struct Token {
    pub kind: Type,
    pub lexeme: String,
    pub literal: Option<Literal>,
    pub line: u32,
}

impl Token {
    pub fn new(kind: Type, lexeme: String, literal: Option<Literal>, line: u32) -> (r: Token)
        ensures
            r.kind == kind,
            r.lexeme == lexeme,
            r.literal == literal,
            r.line == line,
    {
        Token { kind, lexeme, literal, line }
    }
}

} // verus!
