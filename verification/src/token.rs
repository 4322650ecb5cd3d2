//! The closed set of tokens that the scanner produces.

use vstd::prelude::*;

verus! {

/// One lexical unit of the language.
#[derive(Debug, PartialEq, Eq)]
pub enum Token {
    /// A byte that no rule of the grammar recognises.
    Illegal,
    /// The input is used up.
    EOF,
    /// A name that is not a reserved word, with its exact text.
    Ident(String),
    /// A decimal literal, with its value.
    Int(i32),
    /// `true` or `false`.
    Bool(bool),
    Assign,
    Plus,
    Minus,
    Bang,
    Asterisk,
    Slash,
    Equal,
    NotEqual,
    LowerThan,
    GraterThan,
    Comma,
    Semicolon,
    Lparen,
    Rparen,
    Lbrace,
    Rbrace,
    Function,
    Let,
    Return,
    If,
    Else,
}

/// The mathematical value of a [`Token`]: the same variants, with the text of
/// an identifier as a sequence of characters and the value of a literal as an
/// unbounded integer.
pub enum TokenView {
    Illegal,
    EOF,
    Ident(Seq<char>),
    Int(int),
    Bool(bool),
    Assign,
    Plus,
    Minus,
    Bang,
    Asterisk,
    Slash,
    Equal,
    NotEqual,
    LowerThan,
    GraterThan,
    Comma,
    Semicolon,
    Lparen,
    Rparen,
    Lbrace,
    Rbrace,
    Function,
    Let,
    Return,
    If,
    Else,
}

impl View for Token {
    type V = TokenView;

    open spec fn view(&self) -> TokenView {
        match self {
            Token::Illegal => TokenView::Illegal,
            Token::EOF => TokenView::EOF,
            Token::Ident(name) => TokenView::Ident(name@),
            Token::Int(value) => TokenView::Int(*value as int),
            Token::Bool(value) => TokenView::Bool(*value),
            Token::Assign => TokenView::Assign,
            Token::Plus => TokenView::Plus,
            Token::Minus => TokenView::Minus,
            Token::Bang => TokenView::Bang,
            Token::Asterisk => TokenView::Asterisk,
            Token::Slash => TokenView::Slash,
            Token::Equal => TokenView::Equal,
            Token::NotEqual => TokenView::NotEqual,
            Token::LowerThan => TokenView::LowerThan,
            Token::GraterThan => TokenView::GraterThan,
            Token::Comma => TokenView::Comma,
            Token::Semicolon => TokenView::Semicolon,
            Token::Lparen => TokenView::Lparen,
            Token::Rparen => TokenView::Rparen,
            Token::Lbrace => TokenView::Lbrace,
            Token::Rbrace => TokenView::Rbrace,
            Token::Function => TokenView::Function,
            Token::Let => TokenView::Let,
            Token::Return => TokenView::Return,
            Token::If => TokenView::If,
            Token::Else => TokenView::Else,
        }
    }
}

} // verus!
