//! Tokens handed to the parser by a tokenizer.
use vstd::prelude::*;

verus! {

/// A lexical token. A float literal is carried as its IEEE-754 bit pattern.
#[derive(Debug, PartialEq)]
pub enum Token {
    LParen,
    Symbol(String),
    Integer(i64),
    Float(u64),
    RParen,
}

/// The mathematical view of a token: symbol text as a sequence of characters.
pub enum Tok {
    Open,
    Sym(Seq<char>),
    Int(i64),
    Flt(u64),
    Close,
}

impl View for Token {
    type V = Tok;

    open spec fn view(&self) -> Tok {
        match self {
            Token::LParen => Tok::Open,
            Token::Symbol(s) => Tok::Sym(s@),
            Token::Integer(n) => Tok::Int(*n),
            Token::Float(b) => Tok::Flt(*b),
            Token::RParen => Tok::Close,
        }
    }
}

/// The views of a sequence of tokens.
pub open spec fn toks_of(ts: Seq<Token>) -> Seq<Tok> {
    ts.map_values(|t: Token| t@)
}

/// A character that no token can start with.
#[derive(Debug)]
pub struct TokenError {
    pub ch: char,
}

impl TokenError {
    pub fn new(ch: char) -> (r: TokenError)
        ensures
            r.ch == ch,
    {
        TokenError { ch }
    }

    /// The offending character.
    pub fn ch(&self) -> (r: char)
        ensures
            r == self.ch,
    {
        self.ch
    }
}

} // verus!
