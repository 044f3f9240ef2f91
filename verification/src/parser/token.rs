use vstd::prelude::*;

use crate::text::str_eq;

verus! {

/// A token of Java source, borrowing its text from the source.
#[derive(Debug, PartialEq, Clone, Copy)]
pub enum Token<'a> {
    LBrace,
    RBrace,
    LBracket,
    RBracket,
    LParen,
    RParen,
    LessThan,
    GreaterThan,
    Dot,
    At,
    QuestionMark,
    Comma,
    /// Literals are `true`, `false`, numeric, string, char literals.
    Literal(&'a str),
    Identifier(&'a str),
    Keyword(&'a str),
    Semicolon,
    /// Assignment token includes `=`, `-=`, `+=`, `*=`, `/=`,
    /// `%=`, `&=`, `|=`, `^=`, `<<=`, `>>=`, `>>>=`
    Assignment(&'a str),
    Op(&'a str),
    EOF,
}

/// The mathematical value of a token: its kind and, where it has one, its text.
pub enum TokenView {
    LBrace,
    RBrace,
    LBracket,
    RBracket,
    LParen,
    RParen,
    LessThan,
    GreaterThan,
    Dot,
    At,
    QuestionMark,
    Comma,
    Literal(Seq<char>),
    Identifier(Seq<char>),
    Keyword(Seq<char>),
    Semicolon,
    Assignment(Seq<char>),
    Op(Seq<char>),
    EOF,
}

impl<'a> View for Token<'a> {
    type V = TokenView;

    open spec fn view(&self) -> TokenView {
        match *self {
            Token::LBrace => TokenView::LBrace,
            Token::RBrace => TokenView::RBrace,
            Token::LBracket => TokenView::LBracket,
            Token::RBracket => TokenView::RBracket,
            Token::LParen => TokenView::LParen,
            Token::RParen => TokenView::RParen,
            Token::LessThan => TokenView::LessThan,
            Token::GreaterThan => TokenView::GreaterThan,
            Token::Dot => TokenView::Dot,
            Token::At => TokenView::At,
            Token::QuestionMark => TokenView::QuestionMark,
            Token::Comma => TokenView::Comma,
            Token::Literal(s) => TokenView::Literal(s@),
            Token::Identifier(s) => TokenView::Identifier(s@),
            Token::Keyword(s) => TokenView::Keyword(s@),
            Token::Semicolon => TokenView::Semicolon,
            Token::Assignment(s) => TokenView::Assignment(s@),
            Token::Op(s) => TokenView::Op(s@),
            Token::EOF => TokenView::EOF,
        }
    }
}

/// The owned form of a [`Token`]: a token keeps its kind and its text when
/// its text is copied out.
pub open spec fn owned_view_of(tok: TokenView) -> TokenView {
    tok
}

impl<'a> Token<'a> {
    /// Whether this is an identifier token.
    pub fn is_identifier(&self) -> (r: bool)
        ensures
            r == (self@ is Identifier),
    {
        match self {
            Token::Identifier(_) => true,
            _ => false,
        }
    }

    /// Copies the token's text out of the source.
    pub fn to_owned_token(self) -> (r: OwnedToken)
        ensures
            r@ == owned_view_of(self@),
    {
        match self {
            Token::LBrace => OwnedToken::LBrace,
            Token::RBrace => OwnedToken::RBrace,
            Token::LBracket => OwnedToken::LBracket,
            Token::RBracket => OwnedToken::RBracket,
            Token::LParen => OwnedToken::LParen,
            Token::RParen => OwnedToken::RParen,
            Token::LessThan => OwnedToken::LessThan,
            Token::GreaterThan => OwnedToken::GreaterThan,
            Token::Dot => OwnedToken::Dot,
            Token::At => OwnedToken::At,
            Token::QuestionMark => OwnedToken::QuestionMark,
            Token::Comma => OwnedToken::Comma,
            Token::Semicolon => OwnedToken::Semicolon,
            Token::Literal(s) => OwnedToken::Literal(s.to_owned()),
            Token::Identifier(s) => OwnedToken::Identifier(s.to_owned()),
            Token::Keyword(s) => OwnedToken::Keyword(s.to_owned()),
            Token::Assignment(s) => OwnedToken::Assignment(s.to_owned()),
            Token::Op(s) => OwnedToken::Op(s.to_owned()),
            Token::EOF => OwnedToken::EOF,
        }
    }
}

/// Whether two tokens are of the same kind with the same text.
pub fn token_eq(a: &Token, b: &Token) -> (r: bool)
    ensures
        r == (a@ == b@),
{
    match (a, b) {
        (Token::LBrace, Token::LBrace) => true,
        (Token::RBrace, Token::RBrace) => true,
        (Token::LBracket, Token::LBracket) => true,
        (Token::RBracket, Token::RBracket) => true,
        (Token::LParen, Token::LParen) => true,
        (Token::RParen, Token::RParen) => true,
        (Token::LessThan, Token::LessThan) => true,
        (Token::GreaterThan, Token::GreaterThan) => true,
        (Token::Dot, Token::Dot) => true,
        (Token::At, Token::At) => true,
        (Token::QuestionMark, Token::QuestionMark) => true,
        (Token::Comma, Token::Comma) => true,
        (Token::Semicolon, Token::Semicolon) => true,
        (Token::EOF, Token::EOF) => true,
        (Token::Literal(x), Token::Literal(y)) => str_eq(x, y),
        (Token::Identifier(x), Token::Identifier(y)) => str_eq(x, y),
        (Token::Keyword(x), Token::Keyword(y)) => str_eq(x, y),
        (Token::Assignment(x), Token::Assignment(y)) => str_eq(x, y),
        (Token::Op(x), Token::Op(y)) => str_eq(x, y),
        _ => false,
    }
}

/// A token together with where it starts in the source and how many
/// characters it spans.
#[derive(Debug, PartialEq, Clone, Copy)]
pub struct IndexedToken<'a> {
    pub token: Token<'a>,
    pub addr: usize,
    pub len: usize,
}

/// A token that owns its text.
#[derive(Debug, PartialEq, Clone)]
pub enum OwnedToken {
    LBrace,
    RBrace,
    LBracket,
    RBracket,
    LParen,
    RParen,
    LessThan,
    GreaterThan,
    Dot,
    At,
    QuestionMark,
    Comma,
    /// Literals are `true`, `false`, numeric, string, char literals.
    Literal(String),
    Identifier(String),
    Keyword(String),
    Semicolon,
    /// Assignment token includes `=`, `-=`, `+=`, `*=`, `/=`,
    /// `%=`, `&=`, `|=`, `^=`, `<<=`, `>>=`, `>>>=`
    Assignment(String),
    Op(String),
    EOF,
}

impl View for OwnedToken {
    type V = TokenView;

    open spec fn view(&self) -> TokenView {
        match self {
            OwnedToken::LBrace => TokenView::LBrace,
            OwnedToken::RBrace => TokenView::RBrace,
            OwnedToken::LBracket => TokenView::LBracket,
            OwnedToken::RBracket => TokenView::RBracket,
            OwnedToken::LParen => TokenView::LParen,
            OwnedToken::RParen => TokenView::RParen,
            OwnedToken::LessThan => TokenView::LessThan,
            OwnedToken::GreaterThan => TokenView::GreaterThan,
            OwnedToken::Dot => TokenView::Dot,
            OwnedToken::At => TokenView::At,
            OwnedToken::QuestionMark => TokenView::QuestionMark,
            OwnedToken::Comma => TokenView::Comma,
            OwnedToken::Literal(s) => TokenView::Literal(s@),
            OwnedToken::Identifier(s) => TokenView::Identifier(s@),
            OwnedToken::Keyword(s) => TokenView::Keyword(s@),
            OwnedToken::Semicolon => TokenView::Semicolon,
            OwnedToken::Assignment(s) => TokenView::Assignment(s@),
            OwnedToken::Op(s) => TokenView::Op(s@),
            OwnedToken::EOF => TokenView::EOF,
        }
    }
}

} // verus!
