//! Tokens of the source language and their ghost model.

use vstd::prelude::*;

verus! {

/// The closed set of token kinds. The multi-character comparison and logical
/// operators are declared but never produced by the scanner, which only
/// recognises their single-character prefixes.
#[derive(Debug, Clone, Copy, PartialEq, Eq, Structural)]
pub enum TokenType {
    Identifier,
    Number,
    BaseLiteral,
    Text,
    LParen,
    RParen,
    LBrace,
    RBrace,
    Plus,
    Minus,
    Star,
    Slash,
    Assign,
    Equal,
    StrictEqual,
    NotEqual,
    StrictNotEqual,
    LessThan,
    Leq,
    GreaterThan,
    Geq,
    And,
    Or,
    Not,
    If,
    Else,
    While,
    Loop,
    Break,
    Continue,
    Semicolon,
    Comma,
    At,
    Return,
    Function,
    Newline,
    Eof,
}

/// The mathematical model of a token: its kind, its text as a character
/// sequence, and the character offset where it begins.
pub ghost struct TokenModel {
    pub kind: TokenType,
    pub text: Option<Seq<char>>,
    pub pos: int,
}

/// One token: a kind, the covered text (absent only for the synthetic
/// end-of-input token), and the character offset where the token begins.
#[derive(Debug, Clone)]
pub struct Token {
    pub ttype: TokenType,
    pub value: Option<String>,
    pub pos: usize,
}

impl View for Token {
    type V = TokenModel;

    open spec fn view(&self) -> TokenModel {
        TokenModel {
            kind: self.ttype,
            text: match self.value {
                Some(s) => Some(s@),
                None => None,
            },
            pos: self.pos as int,
        }
    }
}

impl Token {
    /// Builds a token from its parts.
    pub fn new(ttype: TokenType, value: Option<String>, pos: usize) -> (r: Token)
        ensures
            r.ttype == ttype,
            r.pos == pos,
            value matches Some(s) ==> r@.text == Some(s@),
            value is None ==> r@.text is None,
    {
        Token { ttype, value, pos }
    }
}

/// The models of a token sequence, in order.
pub open spec fn token_models(ts: Seq<Token>) -> Seq<TokenModel> {
    ts.map_values(|t: Token| t@)
}

} // verus!
