//! Tokens: a kind and the span it was scanned from.
use vstd::prelude::*;
use vstd::string::StringExecFns;
use crate::span::Span;
use crate::text::{decimal, push_decimal, push_str};

verus! {

#[derive(Debug, PartialEq, Eq)]
pub enum TokenType {
    Ident(String),
    Num(u64),
    Mul,
    Div,
    Add,
    Sub,
    And,
    Or,
    Not,
    Eq,
    Neq,
    Assign,
    Lambda,
    Dot,
    LPar,
    RPar,
    Comment(String),
    Eol,
}

/// What a token is, with its text as a character sequence.
pub ghost enum TokenKind {
    Ident(Seq<char>),
    Num(u64),
    Mul,
    Div,
    Add,
    Sub,
    And,
    Or,
    Not,
    Eq,
    Neq,
    Assign,
    Lambda,
    Dot,
    LPar,
    RPar,
    Comment(Seq<char>),
    Eol,
}

impl View for TokenType {
    type V = TokenKind;

    open spec fn view(&self) -> TokenKind {
        match self {
            TokenType::Ident(s) => TokenKind::Ident(s@),
            TokenType::Num(n) => TokenKind::Num(*n),
            TokenType::Mul => TokenKind::Mul,
            TokenType::Div => TokenKind::Div,
            TokenType::Add => TokenKind::Add,
            TokenType::Sub => TokenKind::Sub,
            TokenType::And => TokenKind::And,
            TokenType::Or => TokenKind::Or,
            TokenType::Not => TokenKind::Not,
            TokenType::Eq => TokenKind::Eq,
            TokenType::Neq => TokenKind::Neq,
            TokenType::Assign => TokenKind::Assign,
            TokenType::Lambda => TokenKind::Lambda,
            TokenType::Dot => TokenKind::Dot,
            TokenType::LPar => TokenKind::LPar,
            TokenType::RPar => TokenKind::RPar,
            TokenType::Comment(s) => TokenKind::Comment(s@),
            TokenType::Eol => TokenKind::Eol,
        }
    }
}

/// How a token is named in messages.
pub open spec fn describe(k: TokenKind) -> Seq<char> {
    match k {
        TokenKind::Ident(name) => "identifier '"@ + name + "'"@,
        TokenKind::Num(n) => "number literal '"@ + decimal(n as nat) + "'"@,
        TokenKind::Mul => "'*'"@,
        TokenKind::Div => "'/'"@,
        TokenKind::Add => "'+'"@,
        TokenKind::Sub => "'-'"@,
        TokenKind::And => "'&&'"@,
        TokenKind::Or => "'||'"@,
        TokenKind::Not => "'!'"@,
        TokenKind::Eq => "'=='"@,
        TokenKind::Neq => "'!='"@,
        TokenKind::Assign => "'='"@,
        TokenKind::Lambda => "'\\'"@,
        TokenKind::Dot => "'.'"@,
        TokenKind::LPar => "'('"@,
        TokenKind::RPar => "')'"@,
        TokenKind::Comment(text) => "comment '"@ + text + "'"@,
        TokenKind::Eol => "end of line"@,
    }
}

impl TokenType {
    /// Whether two token types are the same kind; names, numbers and
    /// comment texts are not compared.
    pub open spec fn same_kind(a: TokenKind, b: TokenKind) -> bool {
        match (a, b) {
            (TokenKind::Ident(_), TokenKind::Ident(_)) => true,
            (TokenKind::Num(_), TokenKind::Num(_)) => true,
            (TokenKind::Comment(_), TokenKind::Comment(_)) => true,
            _ => a == b,
        }
    }

    /// The token's name in messages.
    pub fn describe(&self) -> (r: String)
        ensures
            r@ == describe(self@),
    {
        match self {
            TokenType::Ident(name) => {
                let mut r = String::from_str("identifier '");
                push_str(&mut r, name.as_str());
                push_str(&mut r, "'");
                r
            },
            TokenType::Num(n) => {
                let mut r = String::from_str("number literal '");
                push_decimal(&mut r, *n);
                push_str(&mut r, "'");
                r
            },
            TokenType::Mul => String::from_str("'*'"),
            TokenType::Div => String::from_str("'/'"),
            TokenType::Add => String::from_str("'+'"),
            TokenType::Sub => String::from_str("'-'"),
            TokenType::And => String::from_str("'&&'"),
            TokenType::Or => String::from_str("'||'"),
            TokenType::Not => String::from_str("'!'"),
            TokenType::Eq => String::from_str("'=='"),
            TokenType::Neq => String::from_str("'!='"),
            TokenType::Assign => String::from_str("'='"),
            TokenType::Lambda => String::from_str("'\\'"),
            TokenType::Dot => String::from_str("'.'"),
            TokenType::LPar => String::from_str("'('"),
            TokenType::RPar => String::from_str("')'"),
            TokenType::Comment(text) => {
                let mut r = String::from_str("comment '");
                push_str(&mut r, text.as_str());
                push_str(&mut r, "'");
                r
            },
            TokenType::Eol => String::from_str("end of line"),
        }
    }

    /// Whether this token type equals `other`, names, numbers and comment
    /// texts included.
    pub fn same_as(&self, other: &TokenType) -> (r: bool)
        ensures
            r == (self@ == other@),
    {
        match (self, other) {
            (TokenType::Ident(a), TokenType::Ident(b)) => a.eq(b),
            (TokenType::Num(a), TokenType::Num(b)) => *a == *b,
            (TokenType::Comment(a), TokenType::Comment(b)) => a.eq(b),
            (TokenType::Ident(_), _) | (TokenType::Num(_), _) | (TokenType::Comment(_), _) => false,
            (_, TokenType::Ident(_)) | (_, TokenType::Num(_)) | (_, TokenType::Comment(_)) => false,
            _ => self.is_kind(other),
        }
    }

    /// Whether this token is of the same kind as `other`.
    pub fn is_kind(&self, other: &TokenType) -> (r: bool)
        ensures
            r == TokenType::same_kind(self@, other@),
    {
        match (self, other) {
            (TokenType::Ident(_), TokenType::Ident(_)) => true,
            (TokenType::Num(_), TokenType::Num(_)) => true,
            (TokenType::Comment(_), TokenType::Comment(_)) => true,
            (TokenType::Mul, TokenType::Mul) => true,
            (TokenType::Div, TokenType::Div) => true,
            (TokenType::Add, TokenType::Add) => true,
            (TokenType::Sub, TokenType::Sub) => true,
            (TokenType::And, TokenType::And) => true,
            (TokenType::Or, TokenType::Or) => true,
            (TokenType::Not, TokenType::Not) => true,
            (TokenType::Eq, TokenType::Eq) => true,
            (TokenType::Neq, TokenType::Neq) => true,
            (TokenType::Assign, TokenType::Assign) => true,
            (TokenType::Lambda, TokenType::Lambda) => true,
            (TokenType::Dot, TokenType::Dot) => true,
            (TokenType::LPar, TokenType::LPar) => true,
            (TokenType::RPar, TokenType::RPar) => true,
            (TokenType::Eol, TokenType::Eol) => true,
            _ => false,
        }
    }
}

#[derive(Debug, PartialEq, Eq)]
pub struct Token {
    pub token_type: TokenType,
    pub span: Span,
}

impl View for Token {
    type V = (TokenKind, Span);

    open spec fn view(&self) -> (TokenKind, Span) {
        (self.token_type@, self.span)
    }
}

impl Token {
    /// A token of the given type at `span`.
    pub fn new(token_type: TokenType, span: Span) -> (r: Token)
        ensures
            r.token_type == token_type,
            r.span == span,
    {
        Token { token_type, span }
    }
}

} // verus!
