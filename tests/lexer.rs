use yaplang::lexer::Lexer;
use yaplang::token::Token;
use yaplang::token::Token::{Assign, LParen, RParen};
use yaplang::{Error, InternedString, Interner};

fn lex(s: &str) -> Vec<Token> {
    Lexer::new(s).tokens(&mut Interner::new())
}

fn ident(s: &str) -> Token {
    Token::Identifier(InternedString::from_str(s, &mut Interner::new()))
}

#[test]
fn empty_string() {
    assert_eq!(lex(""), [])
}

#[test]
fn comment() {
    assert_eq!(lex("#this is a comment"), [])
}

#[test]
fn multiline_comment() {
    assert_eq!(
        lex(r#"
            #this is comment line 1
            #this is comment line 2
        "#),
        []
    )
}

#[test]
fn parentheses() {
    assert_eq!(
        lex("(()(()))"),
        [LParen, LParen, RParen, LParen, LParen, RParen, RParen, RParen,]
    )
}

#[test]
fn complex() {

    assert_eq!(
        lex(r#"
# this is a comment
:= a 1
:= b 2
:= c (+ a b)
∈ c ℕ
        "#),
        [
            Assign,
            ident("a"),
            ident("1"),
            Assign,
            ident("b"),
            ident("2"),
            Assign,
            ident("c"),
            LParen,
            ident("+"),
            ident("a"),
            ident("b"),
            RParen,
            ident("∈"),
            ident("c"),
            ident("ℕ")
        ]
    )
}

#[test]
fn comment_lines_with_blank_lines_between() {
    assert_eq!(lex("\n\n  # one\n\n\t# two (not a token)\n   \n# three"), [])
}

#[test]
fn lone_operators() {
    assert_eq!(lex("-"), [ident("-")]);
    assert_eq!(lex("="), [ident("=")]);
    assert_eq!(lex(":"), [Token::Colon]);
    assert_eq!(lex("- = :"), [ident("-"), ident("="), Token::Colon]);
    assert_eq!(lex("-a"), [ident("-"), ident("a")]);
    assert_eq!(lex("=("), [ident("="), Token::LParen]);
    assert_eq!(lex(":x"), [Token::Colon, ident("x")]);
}

#[test]
fn two_character_operators() {
    assert_eq!(
        lex("-> => := ->=>:="),
        [
            Token::ThinArrow,
            Token::ThickArrow,
            Token::Assign,
            Token::ThinArrow,
            Token::ThickArrow,
            Token::Assign
        ]
    );
    assert_eq!(lex(":=="), [Token::Assign, ident("=")]);
}

#[test]
fn identifiers_stop_at_parentheses_and_whitespace() {
    assert_eq!(lex("(foo)"), [LParen, ident("foo"), RParen]);
    assert_eq!(lex("a#b c"), [ident("a#b"), ident("c")]);
    assert_eq!(lex("x:=y"), [ident("x:=y")]);
    assert_eq!(lex("a\u{3000}b\u{a0}c"), [ident("a"), ident("b"), ident("c")]);
}

#[test]
fn comment_ends_at_newline() {
    assert_eq!(lex("a # b c\nd"), [ident("a"), ident("d")]);
}

#[test]
fn next_skips_then_stops_for_good() {
    let mut strings = Interner::new();
    let mut l = Lexer::new("  x  # trailing");
    assert_eq!(l.next(&mut strings), Some(ident("x")));
    assert_eq!(l.next(&mut strings), None);
    assert_eq!(l.next(&mut strings), None);
}

#[test]
fn next_token_reports_end_of_input() {
    let mut strings = Interner::new();
    let mut l = Lexer::new("");
    assert_eq!(l.next_token(&mut strings), Err(Error::UnexpectedEOF));
    let mut l = Lexer::new("->");
    assert_eq!(l.next_token(&mut strings), Ok(Token::ThinArrow));
    assert_eq!(l.next_token(&mut strings), Err(Error::UnexpectedEOF));
    assert_eq!(Error::UnexpectedEOF.message(), "Unexpected EOF");
}

#[test]
fn identifiers_share_the_registry() {
    let mut strings = Interner::new();
    let tokens = Lexer::new("a b a - - c").tokens(&mut strings);
    assert_eq!(tokens.len(), 6);
    assert_eq!(strings.len(), 4);
    let again = Lexer::new("c a").tokens(&mut strings);
    assert_eq!(again, [ident("c"), ident("a")]);
    assert_eq!(strings.len(), 4);
}
