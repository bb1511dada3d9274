use crate::interned_string::InternedString;
use vstd::prelude::*;

verus! {

/// A classified unit of lexical input.
#[derive(Debug, PartialEq, Eq)]
pub enum Token {
    LParen,
    RParen,
    Colon,
    ThinArrow,
    ThickArrow,
    Assign,
    Identifier(InternedString),
}

/// A token as a mathematical value: identifiers carry their text.
pub enum TokenView {
    LParen,
    RParen,
    Colon,
    ThinArrow,
    ThickArrow,
    Assign,
    Identifier(Seq<char>),
}

impl View for Token {
    type V = TokenView;

    open spec fn view(&self) -> TokenView {
        match self {
            Token::LParen => TokenView::LParen,
            Token::RParen => TokenView::RParen,
            Token::Colon => TokenView::Colon,
            Token::ThinArrow => TokenView::ThinArrow,
            Token::ThickArrow => TokenView::ThickArrow,
            Token::Assign => TokenView::Assign,
            Token::Identifier(s) => TokenView::Identifier(s@),
        }
    }
}

} // verus!
