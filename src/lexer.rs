use crate::error::Error;
use crate::interned_string::{add_text, InternedString, Interner};
use crate::token::{Token, TokenView};
use crate::whitespace::{is_white_space, is_whitespace};
use vstd::prelude::*;
use vstd::std_specs::iter::IteratorSpec;

verus! {

/// Where skipping insignificant input that starts at `i` stops: whitespace is
/// skipped, and so is everything from a `#` up to and including the next newline.
pub open spec fn skip_end(s: Seq<char>, i: int, in_comment: bool) -> int
    decreases s.len() - i,
{
    if i < 0 || i >= s.len() {
        i
    } else if s[i] == '#' {
        skip_end(s, i + 1, true)
    } else if s[i] == '\n' {
        skip_end(s, i + 1, false)
    } else if in_comment || is_white_space(s[i]) {
        skip_end(s, i + 1, in_comment)
    } else {
        i
    }
}

/// Characters that end an identifier.
pub open spec fn ends_identifier(c: char) -> bool {
    c == '(' || c == ')' || is_white_space(c)
}

/// The end of the longest run of identifier characters that starts at `i`.
pub open spec fn ident_end(s: Seq<char>, i: int) -> int
    decreases s.len() - i,
{
    if 0 <= i < s.len() && !ends_identifier(s[i]) {
        ident_end(s, i + 1)
    } else {
        i
    }
}

/// The token that starts at position `i` of `s`, and the position after it.
pub open spec fn token_at(s: Seq<char>, i: int) -> (TokenView, int) {
    let second = |c: char| i + 1 < s.len() && s[i + 1] == c;
    if s[i] == '(' {
        (TokenView::LParen, i + 1)
    } else if s[i] == ')' {
        (TokenView::RParen, i + 1)
    } else if s[i] == ':' {
        if second('=') {
            (TokenView::Assign, i + 2)
        } else {
            (TokenView::Colon, i + 1)
        }
    } else if s[i] == '-' {
        if second('>') {
            (TokenView::ThinArrow, i + 2)
        } else {
            (TokenView::Identifier(seq!['-']), i + 1)
        }
    } else if s[i] == '=' {
        if second('>') {
            (TokenView::ThickArrow, i + 2)
        } else {
            (TokenView::Identifier(seq!['=']), i + 1)
        }
    } else {
        (TokenView::Identifier(s.subrange(i, ident_end(s, i))), ident_end(s, i))
    }
}

/// The next token after position `i` once insignificant input is skipped, with
/// the position after it; `None` when only insignificant input is left.
pub open spec fn next_step(s: Seq<char>, i: int) -> Option<(TokenView, int)> {
    let j = skip_end(s, i, false);
    if j >= s.len() {
        None
    } else {
        Some(token_at(s, j))
    }
}

/// All tokens of `s` from position `i` on.
pub open spec fn lex_from(s: Seq<char>, i: int) -> Seq<TokenView>
    decreases s.len() - i,
    when 0 <= i <= s.len()
    via lex_from_decreases
{
    match next_step(s, i) {
        None => Seq::empty(),
        Some((t, k)) => seq![t] + lex_from(s, k),
    }
}

/// All tokens of `s`.
pub open spec fn lex(s: Seq<char>) -> Seq<TokenView> {
    lex_from(s, 0)
}

/// The registry after the text of `t`, if it is an identifier, has been interned.
pub open spec fn intern_token(table: Seq<Seq<char>>, t: TokenView) -> Seq<Seq<char>> {
    match t {
        TokenView::Identifier(x) => add_text(table, x),
        _ => table,
    }
}

/// The registry after the texts of all identifiers in `ts` have been interned in turn.
pub open spec fn intern_tokens(table: Seq<Seq<char>>, ts: Seq<TokenView>) -> Seq<Seq<char>>
    decreases ts.len(),
{
    if ts.len() == 0 {
        table
    } else {
        intern_token(intern_tokens(table, ts.drop_last()), ts.last())
    }
}

proof fn lemma_skip_end(s: Seq<char>, i: int, in_comment: bool)
    requires
        0 <= i <= s.len(),
    ensures
        i <= skip_end(s, i, in_comment) <= s.len(),
        skip_end(s, i, in_comment) < s.len() ==> {
            let c = s[skip_end(s, i, in_comment)];
            c != '#' && c != '\n' && !is_white_space(c)
        },
    decreases s.len() - i,
{
    if i < s.len() {
        if s[i] == '#' {
            lemma_skip_end(s, i + 1, true);
        } else if s[i] == '\n' {
            lemma_skip_end(s, i + 1, false);
        } else if in_comment || is_white_space(s[i]) {
            lemma_skip_end(s, i + 1, in_comment);
        }
    }
}

proof fn lemma_ident_end(s: Seq<char>, i: int)
    requires
        0 <= i <= s.len(),
    ensures
        i <= ident_end(s, i) <= s.len(),
        forall|k: int| i <= k < ident_end(s, i) ==> !ends_identifier(#[trigger] s[k]),
        ident_end(s, i) < s.len() ==> ends_identifier(s[ident_end(s, i)]),
    decreases s.len() - i,
{
    if i < s.len() && !ends_identifier(s[i]) {
        lemma_ident_end(s, i + 1);
    }
}

proof fn lemma_next_step(s: Seq<char>, i: int)
    requires
        0 <= i <= s.len(),
    ensures
        next_step(s, i) matches Some((_, k)) ==> i < k <= s.len(),
{
    let j = skip_end(s, i, false);
    lemma_skip_end(s, i, false);
    if j < s.len() {
        lemma_ident_end(s, j);
    }
}

#[via_fn]
proof fn lex_from_decreases(s: Seq<char>, i: int) {
    if 0 <= i <= s.len() {
        lemma_next_step(s, i);
    }
}

/// Empty input has no tokens.
pub proof fn lemma_empty_input()
    ensures
        lex(Seq::<char>::empty()) == Seq::<TokenView>::empty(),
{
    assert(lex(Seq::<char>::empty()) =~= Seq::<TokenView>::empty());
}

/// Whether position `i` of `s` lies inside a comment that opened before it:
/// some `#` comes earlier with no newline in between.
pub open spec fn in_comment_at(s: Seq<char>, i: int) -> bool {
    exists|j: int|
        0 <= j < i && #[trigger] s[j] == '#' && forall|m: int| j <= m < i ==> s[m] != '\n'
}

/// Input in which every character is whitespace, a `#`, or inside a comment
/// has no tokens, however its comment lines and blank lines are laid out.
pub proof fn lemma_only_comments(s: Seq<char>)
    requires
        forall|k: int|
            0 <= k < s.len() && !is_white_space(#[trigger] s[k]) && s[k] != '#' ==> in_comment_at(s, k),
    ensures
        lex(s) == Seq::<TokenView>::empty(),
{
    lemma_skip_to_end(s, 0, false);
    assert(lex(s) =~= Seq::<TokenView>::empty());
}

proof fn lemma_skip_to_end(s: Seq<char>, i: int, in_comment: bool)
    requires
        0 <= i <= s.len(),
        in_comment == in_comment_at(s, i),
        forall|k: int|
            0 <= k < s.len() && !is_white_space(#[trigger] s[k]) && s[k] != '#' ==> in_comment_at(s, k),
    ensures
        skip_end(s, i, in_comment) == s.len(),
    decreases s.len() - i,
{
    if i < s.len() {
        let c = s[i];
        if c == '#' {
            assert(in_comment_at(s, i + 1)) by {
                assert(s[i] == '#');
            }
            lemma_skip_to_end(s, i + 1, true);
        } else if c == '\n' {
            assert(!in_comment_at(s, i + 1)) by {
                if in_comment_at(s, i + 1) {
                    let j = choose|j: int|
                        0 <= j < i + 1 && #[trigger] s[j] == '#' && forall|m: int|
                            j <= m < i + 1 ==> s[m] != '\n';
                    assert(s[i] != '\n');
                }
            }
            lemma_skip_to_end(s, i + 1, false);
        } else {
            assert(in_comment_at(s, i + 1) == in_comment_at(s, i)) by {
                if in_comment_at(s, i) {
                    let j = choose|j: int|
                        0 <= j < i && #[trigger] s[j] == '#' && forall|m: int|
                            j <= m < i ==> s[m] != '\n';
                    assert(forall|m: int| j <= m < i + 1 ==> s[m] != '\n');
                }
                if in_comment_at(s, i + 1) {
                    let j = choose|j: int|
                        0 <= j < i + 1 && #[trigger] s[j] == '#' && forall|m: int|
                            j <= m < i + 1 ==> s[m] != '\n';
                    assert(j != i);
                    assert(forall|m: int| j <= m < i ==> s[m] != '\n');
                }
            }
            if !in_comment && !is_white_space(c) {
                assert(in_comment_at(s, i));
            }
            lemma_skip_to_end(s, i + 1, in_comment);
        }
    }
}

/// A `#` starts a comment that runs to the end of input when no newline follows.
pub proof fn lemma_comment_without_newline(s: Seq<char>)
    requires
        s.len() > 0,
        s[0] == '#',
        forall|k: int| 0 <= k < s.len() ==> s[k] != '\n',
    ensures
        lex(s) == Seq::<TokenView>::empty(),
{
    assert forall|k: int|
        0 <= k < s.len() && !is_white_space(#[trigger] s[k]) && s[k] != '#' implies in_comment_at(s, k) by {
        assert(s[0] == '#');
    }
    lemma_only_comments(s);
}

/// The two-character operators win only when their second character follows:
/// a lone `-` or `=` is an identifier of its own, and a lone `:` is a colon.
pub proof fn lemma_lone_operators(s: Seq<char>, i: int)
    requires
        0 <= i < s.len(),
    ensures
        s[i] == '-' && !(i + 1 < s.len() && s[i + 1] == '>') ==> token_at(s, i) == (
        TokenView::Identifier(seq!['-']), i + 1),
        s[i] == '=' && !(i + 1 < s.len() && s[i + 1] == '>') ==> token_at(s, i) == (
        TokenView::Identifier(seq!['=']), i + 1),
        s[i] == ':' && !(i + 1 < s.len() && s[i + 1] == '=') ==> token_at(s, i) == (
        TokenView::Colon, i + 1),
        s[i] == '-' && i + 1 < s.len() && s[i + 1] == '>' ==> token_at(s, i) == (
        TokenView::ThinArrow, i + 2),
        s[i] == '=' && i + 1 < s.len() && s[i + 1] == '>' ==> token_at(s, i) == (
        TokenView::ThickArrow, i + 2),
        s[i] == ':' && i + 1 < s.len() && s[i + 1] == '=' ==> token_at(s, i) == (
        TokenView::Assign, i + 2),
{
}

/// Identifier text as the lexer produces it: not empty, and free of
/// whitespace and parentheses.
pub open spec fn plain_identifier(x: Seq<char>) -> bool {
    x.len() > 0 && forall|k: int| 0 <= k < x.len() ==> !ends_identifier(#[trigger] x[k])
}

/// Every identifier among the tokens of `s` is plain: parentheses always lex
/// as delimiters, and no identifier spans whitespace.
pub proof fn lemma_identifiers_are_plain(s: Seq<char>)
    ensures
        forall|n: int|
            0 <= n < lex(s).len() ==> (#[trigger] lex(s)[n] matches TokenView::Identifier(x)
                ==> plain_identifier(x)),
{
    lemma_identifiers_from(s, 0);
}

proof fn lemma_identifiers_from(s: Seq<char>, i: int)
    requires
        0 <= i <= s.len(),
    ensures
        forall|n: int|
            0 <= n < lex_from(s, i).len() ==> (#[trigger] lex_from(s, i)[n] matches TokenView::Identifier(
                x,
            ) ==> plain_identifier(x)),
    decreases s.len() - i,
{
    lemma_next_step(s, i);
    match next_step(s, i) {
        None => {},
        Some((t, k)) => {
            let j = skip_end(s, i, false);
            lemma_skip_end(s, i, false);
            lemma_ident_end(s, j);
            assert(t matches TokenView::Identifier(x) ==> plain_identifier(x)) by {
                if let TokenView::Identifier(x) = t {
                    if s[j] == '-' || s[j] == '=' {
                        assert(!ends_identifier(x[0]));
                    } else {
                        assert(!ends_identifier(s[j]));
                        assert forall|m: int| 0 <= m < x.len() implies !ends_identifier(
                            #[trigger] x[m],
                        ) by {
                            assert(x[m] == s[j + m]);
                        }
                    }
                }
            }
            lemma_identifiers_from(s, k);
            let rest = lex_from(s, k);
            assert(lex_from(s, i) == seq![t] + rest);
            assert forall|n: int| 0 <= n < lex_from(s, i).len() implies (
            #[trigger] lex_from(s, i)[n] matches TokenView::Identifier(x) ==> plain_identifier(x)) by {
                if n > 0 {
                    assert(lex_from(s, i)[n] == rest[n - 1]);
                }
            }
        },
    }
}

/// A single forward pass over a sequence of characters, handing out one token
/// at a time.
pub struct Lexer {
    chars: Vec<char>,
    pos: usize,
}

impl Lexer {
    /// The whole input.
    pub closed spec fn input(&self) -> Seq<char> {
        self.chars@
    }

    /// The position of the next character to read.
    pub closed spec fn position(&self) -> int {
        self.pos as int
    }

    /// The position lies within the input.
    pub open spec fn wf(&self) -> bool {
        0 <= self.position() <= self.input().len()
    }

    /// A lexer positioned at the first character of `input`.
    pub fn new(input: &str) -> (r: Self)
        ensures
            r.wf(),
            r.input() == input@,
            r.position() == 0,
    {
        let mut it = input.chars();
        let mut chars: Vec<char> = Vec::new();
        loop
            invariant
                chars@ + it.remaining() == input@,
                it.decrease() is Some,
            ensures
                chars@ == input@,
            decreases it.decrease()->0,
        {
            match it.next() {
                Some(c) => chars.push(c),
                None => {
                    assert(chars@ + it.remaining() =~= chars@);
                    break;
                },
            }
        }
        Lexer { chars, pos: 0 }
    }

    fn is_done(&self) -> (r: bool)
        requires
            self.wf(),
        ensures
            r == (self.position() == self.input().len()),
    {
        self.pos >= self.chars.len()
    }

    fn peek(&self) -> (r: Option<char>)
        requires
            self.wf(),
        ensures
            r == (if self.position() < self.input().len() {
                Some(self.input()[self.position()])
            } else {
                None
            }),
    {
        if self.pos < self.chars.len() {
            Some(self.chars[self.pos])
        } else {
            None
        }
    }

    fn consume(&mut self) -> (r: Result<char, Error>)
        requires
            old(self).wf(),
        ensures
            final(self).wf(),
            final(self).input() == old(self).input(),
            old(self).position() < old(self).input().len() ==> {
                &&& r == Ok::<char, Error>(old(self).input()[old(self).position()])
                &&& final(self).position() == old(self).position() + 1
            },
            old(self).position() == old(self).input().len() ==> {
                &&& r == Err::<char, Error>(Error::UnexpectedEOF)
                &&& final(self).position() == old(self).position()
            },
    {
        if self.pos < self.chars.len() {
            let c = self.chars[self.pos];
            self.pos = self.pos + 1;
            Ok(c)
        } else {
            Err(Error::UnexpectedEOF)
        }
    }

    fn skip_whitespace(&mut self)
        requires
            old(self).wf(),
        ensures
            final(self).wf(),
            final(self).input() == old(self).input(),
            final(self).position() == skip_end(old(self).input(), old(self).position(), false),
    {
        let ghost s = self.input();
        let ghost start = self.position();
        let mut in_comment = false;
        loop
            invariant
                self.wf(),
                self.input() == s,
                skip_end(s, self.position(), in_comment) == skip_end(s, start, false),
            ensures
                self.wf(),
                self.input() == s,
                self.position() == skip_end(s, start, false),
            decreases s.len() - self.position(),
        {
            let c = match self.peek() {
                Some(c) => c,
                None => break,
            };
            if c == '#' {
                in_comment = true;
            } else if c == '\n' {
                in_comment = false;
            } else if in_comment {
            } else if is_whitespace(c) {
            } else {
                break;
            }
            let _ = self.consume();
        }
    }

    fn read_identifier(&mut self, strings: &mut Interner) -> (r: InternedString)
        requires
            old(self).wf(),
            old(strings).wf(),
        ensures
            final(self).wf(),
            final(strings).wf(),
            final(self).input() == old(self).input(),
            final(self).position() == ident_end(old(self).input(), old(self).position()),
            r@ == old(self).input().subrange(old(self).position(), final(self).position()),
            final(strings)@ == add_text(old(strings)@, r@),
    {
        let ghost s = self.input();
        let ghost start = self.position();
        let mut text = String::new();
        loop
            invariant
                self.wf(),
                self.input() == s,
                0 <= start <= self.position(),
                ident_end(s, self.position()) == ident_end(s, start),
                text@ == s.subrange(start, self.position()),
            ensures
                self.wf(),
                self.input() == s,
                self.position() == ident_end(s, start),
                text@ == s.subrange(start, self.position()),
            decreases s.len() - self.position(),
        {
            let c = match self.peek() {
                Some(c) => c,
                None => break,
            };
            if c == '(' || c == ')' || is_whitespace(c) {
                break;
            }
            push_char(&mut text, c);
            let _ = self.consume();
            assert(text@ =~= s.subrange(start, self.position()));
        }
        InternedString::from_string(text, strings)
    }

    /// The token that starts at the current position, with nothing skipped
    /// first; fails when the input is exhausted.
    pub fn next_token(&mut self, strings: &mut Interner) -> (r: Result<Token, Error>)
        requires
            old(self).wf(),
            old(strings).wf(),
        ensures
            final(self).wf(),
            final(strings).wf(),
            final(self).input() == old(self).input(),
            old(self).position() == old(self).input().len() ==> {
                &&& r == Err::<Token, Error>(Error::UnexpectedEOF)
                &&& final(self).position() == old(self).position()
                &&& final(strings)@ == old(strings)@
            },
            old(self).position() < old(self).input().len() ==> {
                let (t, k) = token_at(old(self).input(), old(self).position());
                &&& r matches Ok(tok) && tok@ == t
                &&& final(self).position() == k
                &&& final(strings)@ == intern_token(old(strings)@, t)
            },
    {
        let c = match self.peek() {
            Some(c) => c,
            None => return Err(Error::UnexpectedEOF),
        };
        if c == '(' {
            let _ = self.consume();
            Ok(Token::LParen)
        } else if c == ')' {
            let _ = self.consume();
            Ok(Token::RParen)
        } else if c == ':' {
            let _ = self.consume();
            match self.peek() {
                Some('=') => {
                    let _ = self.consume();
                    Ok(Token::Assign)
                },
                _ => Ok(Token::Colon),
            }
        } else if c == '-' {
            let _ = self.consume();
            match self.peek() {
                Some('>') => {
                    let _ = self.consume();
                    Ok(Token::ThinArrow)
                },
                _ => {
                    proof {
                        reveal_strlit("-");
                        assert("-"@ =~= seq!['-']);
                    }
                    Ok(Token::Identifier(InternedString::from_str("-", strings)))
                },
            }
        } else if c == '=' {
            let _ = self.consume();
            match self.peek() {
                Some('>') => {
                    let _ = self.consume();
                    Ok(Token::ThickArrow)
                },
                _ => {
                    proof {
                        reveal_strlit("=");
                        assert("="@ =~= seq!['=']);
                    }
                    Ok(Token::Identifier(InternedString::from_str("=", strings)))
                },
            }
        } else {
            Ok(Token::Identifier(self.read_identifier(strings)))
        }
    }

    /// The next token once whitespace and comments are skipped; `None` once
    /// only those are left.
    pub fn next(&mut self, strings: &mut Interner) -> (r: Option<Token>)
        requires
            old(self).wf(),
            old(strings).wf(),
        ensures
            final(self).wf(),
            final(strings).wf(),
            final(self).input() == old(self).input(),
            match next_step(old(self).input(), old(self).position()) {
                None => {
                    &&& r is None
                    &&& final(self).position() == final(self).input().len()
                    &&& final(strings)@ == old(strings)@
                },
                Some((t, k)) => {
                    &&& r matches Some(tok) && tok@ == t
                    &&& final(self).position() == k
                    &&& final(strings)@ == intern_token(old(strings)@, t)
                },
            },
    {
        proof {
            lemma_skip_end(self.input(), self.position(), false);
        }
        self.skip_whitespace();
        if self.is_done() {
            return None;
        }
        match self.next_token(strings) {
            Ok(t) => Some(t),
            Err(_) => None,
        }
    }

    /// All tokens from the current position to the end of the input.
    pub fn tokens(&mut self, strings: &mut Interner) -> (r: Vec<Token>)
        requires
            old(self).wf(),
            old(strings).wf(),
        ensures
            final(self).wf(),
            final(strings).wf(),
            final(self).input() == old(self).input(),
            final(self).position() == final(self).input().len(),
            r@.map_values(|t: Token| t@) == lex_from(old(self).input(), old(self).position()),
            final(strings)@ == intern_tokens(
                old(strings)@,
                lex_from(old(self).input(), old(self).position()),
            ),
    {
        let ghost s = self.input();
        let ghost start = self.position();
        let ghost table = strings@;
        let mut out: Vec<Token> = Vec::new();
        loop
            invariant
                self.wf(),
                strings.wf(),
                self.input() == s,
                0 <= start <= s.len(),
                out@.map_values(|t: Token| t@) + lex_from(s, self.position()) == lex_from(s, start),
                strings@ == intern_tokens(table, out@.map_values(|t: Token| t@)),
            ensures
                self.wf(),
                strings.wf(),
                self.input() == s,
                self.position() == s.len(),
                out@.map_values(|t: Token| t@) == lex_from(s, start),
                strings@ == intern_tokens(table, lex_from(s, start)),
            decreases s.len() - self.position(),
        {
            let ghost p = self.position();
            let ghost before = out@.map_values(|t: Token| t@);
            proof {
                lemma_next_step(s, p);
            }
            match self.next(strings) {
                Some(t) => {
                    out.push(t);
                    proof {
                        let (tv, k) = next_step(s, p)->0;
                        assert(lex_from(s, p) == seq![tv] + lex_from(s, k));
                        assert(out@.map_values(|t: Token| t@) =~= before.push(tv));
                        assert(before.push(tv).drop_last() =~= before);
                        assert(before.push(tv) + lex_from(s, k) =~= before + (seq![tv] + lex_from(s, k)));
                    }
                },
                None => {
                    assert(lex_from(s, p) =~= Seq::<TokenView>::empty());
                    assert(before + lex_from(s, p) =~= before);
                    break;
                },
            }
        }
        out
    }
}

/// Relies on `String::push`: appends `c` to the end of `s`.
#[verifier::external_body]
fn push_char(s: &mut String, c: char)
    ensures
        final(s)@ == old(s)@.push(c),
{
    s.push(c)
}

} // verus!
