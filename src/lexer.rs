//! The tokenizer of the surface language.
use vstd::prelude::*;

verus! {

#[derive(Clone, Copy, Debug, PartialEq, Eq, Structural)]
pub enum TokenKind {
    Identifier,
    Wildcard,
    Atom,
    Number,
    String,
    LParens,
    RParens,
    LBrace,
    RBrace,
    LBracket,
    RBracket,
    Bar,
    Plus,
    Minus,
    Slash,
    Star,
    Equals,
    DoubleEquals,
    Fn,
    Let,
    In,
    Case,
    Of,
    End,
    If,
    Then,
    Else,
    Comma,
    Semicolon,
    Period,
    Arrow,
    Error,
    Eof,
}

#[derive(Debug)]
pub struct Token {
    pub kind: TokenKind,
    pub lexeme: String,
}

/// Which characters `advance_while` skips.
#[derive(Clone, Copy, Debug, PartialEq, Eq, Structural)]
pub enum CharClass {
    Whitespace,
    Digit,
    Alphanumeric,
}

pub open spec fn is_digit(c: char) -> bool {
    '0' <= c <= '9'
}

pub open spec fn is_alpha(c: char) -> bool {
    ('a' <= c <= 'z') || ('A' <= c <= 'Z')
}

pub open spec fn is_whitespace(c: char) -> bool {
    c == ' ' || c == '\t' || c == '\n' || c == '\r' || c == '\x0C'
}

pub open spec fn in_class(c: char, class: CharClass) -> bool {
    match class {
        CharClass::Whitespace => is_whitespace(c),
        CharClass::Digit => is_digit(c),
        CharClass::Alphanumeric => is_alpha(c) || is_digit(c),
    }
}

fn char_in_class(c: char, class: CharClass) -> (r: bool)
    ensures
        r == in_class(c, class),
{
    match class {
        CharClass::Whitespace => c == ' ' || c == '\t' || c == '\n' || c == '\r' || c == '\x0C',
        CharClass::Digit => '0' <= c && c <= '9',
        CharClass::Alphanumeric => ('a' <= c && c <= 'z') || ('A' <= c && c <= 'Z') || ('0' <= c && c <= '9'),
    }
}

/// The keyword a word spells, or `Identifier`.
pub open spec fn keyword_kind(w: Seq<char>) -> TokenKind {
    if w == seq!['f', 'n'] {
        TokenKind::Fn
    } else if w == seq!['l', 'e', 't'] {
        TokenKind::Let
    } else if w == seq!['i', 'n'] {
        TokenKind::In
    } else if w == seq!['c', 'a', 's', 'e'] {
        TokenKind::Case
    } else if w == seq!['o', 'f'] {
        TokenKind::Of
    } else if w == seq!['e', 'n', 'd'] {
        TokenKind::End
    } else if w == seq!['i', 'f'] {
        TokenKind::If
    } else if w == seq!['t', 'h', 'e', 'n'] {
        TokenKind::Then
    } else if w == seq!['e', 'l', 's', 'e'] {
        TokenKind::Else
    } else {
        TokenKind::Identifier
    }
}

/// The lexer: the source's characters, the start of the current lexeme
/// and the position of the next character.
pub struct Lexer<'input> {
    pub src: &'input str,
    pub chars: Vec<char>,
    pub start: usize,
    pub index: usize,
}

impl<'input> Lexer<'input> {
    pub open spec fn wf(&self) -> bool {
        &&& self.chars@ == self.src@
        &&& self.start <= self.index <= self.chars.len()
    }

    pub fn new(src: &'input str) -> (r: Self)
        ensures
            r.wf(),
            r.index == 0,
            r.start == 0,
    {
        let n = src.unicode_len();
        let mut chars: Vec<char> = Vec::new();
        let mut i: usize = 0;
        while i < n
            invariant
                n == src@.len(),
                i <= n,
                chars@ == src@.take(i as int),
            decreases n - i,
        {
            chars.push(src.get_char(i));
            i += 1;
            assert(chars@ =~= src@.take(i as int));
        }
        assert(chars@ =~= src@);
        Lexer { src, chars, start: 0, index: 0 }
    }

    /// The next character, consumed.
    pub fn advance(&mut self) -> (r: Option<char>)
        requires
            old(self).wf(),
        ensures
            final(self).wf(),
            final(self).src == old(self).src,
            final(self).chars == old(self).chars,
            final(self).start == old(self).start,
            old(self).index < old(self).chars.len() ==> r == Some(old(self).chars@[old(self).index as int])
                && final(self).index == old(self).index + 1,
            old(self).index >= old(self).chars.len() ==> r is None && final(self).index == old(self).index,
    {
        if self.index < self.chars.len() {
            let c = self.chars[self.index];
            self.index += 1;
            Some(c)
        } else {
            None
        }
    }

    /// The next character, not consumed.
    fn peek(&self) -> (r: Option<char>)
        requires
            self.wf(),
        ensures
            self.index < self.chars.len() ==> r == Some(self.chars@[self.index as int]),
            self.index >= self.chars.len() ==> r is None,
    {
        if self.index < self.chars.len() {
            Some(self.chars[self.index])
        } else {
            None
        }
    }

    /// Consumes characters while they are in `class`.
    pub fn advance_while(&mut self, class: CharClass)
        requires
            old(self).wf(),
        ensures
            final(self).wf(),
            final(self).src == old(self).src,
            final(self).chars == old(self).chars,
            final(self).start == old(self).start,
            old(self).index <= final(self).index,
            forall|i: int| old(self).index <= i < final(self).index ==> in_class(#[trigger] final(self).chars@[i], class),
            final(self).index == final(self).chars.len() || !in_class(final(self).chars@[final(self).index as int], class),
    {
        let ghost i0 = self.index;
        while self.index < self.chars.len() && char_in_class(self.chars[self.index], class)
            invariant
                self.wf(),
                self.src == old(self).src,
                self.chars == old(self).chars,
                self.start == old(self).start,
                i0 == old(self).index,
                i0 <= self.index,
                forall|i: int| i0 <= i < self.index ==> in_class(#[trigger] self.chars@[i], class),
            decreases self.chars.len() - self.index,
        {
            self.index += 1;
        }
    }

    /// Starts the next lexeme at the current position.
    pub fn save(&mut self)
        requires
            old(self).wf(),
        ensures
            final(self).wf(),
            final(self).src == old(self).src,
            final(self).chars == old(self).chars,
            final(self).index == old(self).index,
            final(self).start == old(self).index,
    {
        self.start = self.index;
    }

    /// The current lexeme.
    fn lexeme(&self) -> (r: String)
        requires
            self.wf(),
        ensures
            r@ == self.chars@.subrange(self.start as int, self.index as int),
    {
        String::from_str(self.src.substring_char(self.start, self.index))
    }

    /// Whether the current lexeme spells `word`.
    fn lexeme_is(&self, word: &str) -> (r: bool)
        requires
            self.wf(),
        ensures
            r == (self.chars@.subrange(self.start as int, self.index as int) == word@),
    {
        let n = word.unicode_len();
        if self.index - self.start != n {
            return false;
        }
        let mut i: usize = 0;
        while i < n
            invariant
                self.wf(),
                n == word@.len(),
                n == self.index - self.start,
                i <= n,
                forall|j: int| 0 <= j < i ==> self.chars@[self.start + j] == word@[j],
            decreases n - i,
        {
            if self.chars[self.start + i] != word.get_char(i) {
                assert(self.chars@.subrange(self.start as int, self.index as int)[i as int] != word@[i as int]);
                return false;
            }
            i += 1;
        }
        assert(self.chars@.subrange(self.start as int, self.index as int) =~= word@);
        true
    }

    /// The kind of the current word: a keyword, or `Identifier`.
    pub fn qualify(&mut self) -> (r: TokenKind)
        requires
            old(self).wf(),
        ensures
            *final(self) == *old(self),
            r == keyword_kind(old(self).chars@.subrange(old(self).start as int, old(self).index as int)),
    {
        proof {
            reveal_strlit("fn");
            reveal_strlit("let");
            reveal_strlit("in");
            reveal_strlit("case");
            reveal_strlit("of");
            reveal_strlit("end");
            reveal_strlit("if");
            reveal_strlit("then");
            reveal_strlit("else");
        }
        assert("fn"@ =~= seq!['f', 'n']);
        assert("let"@ =~= seq!['l', 'e', 't']);
        assert("in"@ =~= seq!['i', 'n']);
        assert("case"@ =~= seq!['c', 'a', 's', 'e']);
        assert("of"@ =~= seq!['o', 'f']);
        assert("end"@ =~= seq!['e', 'n', 'd']);
        assert("if"@ =~= seq!['i', 'f']);
        assert("then"@ =~= seq!['t', 'h', 'e', 'n']);
        assert("else"@ =~= seq!['e', 'l', 's', 'e']);
        if self.lexeme_is("fn") {
            TokenKind::Fn
        } else if self.lexeme_is("let") {
            TokenKind::Let
        } else if self.lexeme_is("in") {
            TokenKind::In
        } else if self.lexeme_is("case") {
            TokenKind::Case
        } else if self.lexeme_is("of") {
            TokenKind::Of
        } else if self.lexeme_is("end") {
            TokenKind::End
        } else if self.lexeme_is("if") {
            TokenKind::If
        } else if self.lexeme_is("then") {
            TokenKind::Then
        } else if self.lexeme_is("else") {
            TokenKind::Else
        } else {
            TokenKind::Identifier
        }
    }

    fn whitespaces(&mut self)
        requires
            old(self).wf(),
        ensures
            final(self).wf(),
            final(self).src == old(self).src,
            final(self).chars == old(self).chars,
            old(self).index <= final(self).index,
    {
        self.save();
        self.advance_while(CharClass::Whitespace);
    }

    /// Scans one token from the current position.
    fn token(&mut self) -> (r: (TokenKind, String))
        requires
            old(self).wf(),
            old(self).start == old(self).index,
        ensures
            final(self).wf(),
            final(self).src == old(self).src,
            final(self).chars == old(self).chars,
            old(self).index <= final(self).index,
            r.0 != TokenKind::Eof ==> old(self).index < final(self).index,
            r.0 == TokenKind::Eof <==> old(self).index >= old(self).chars.len(),
    {
        let kind = match self.advance() {
            Some(c) => {
                if c == '(' {
                    TokenKind::LParens
                } else if c == ')' {
                    TokenKind::RParens
                } else if c == '{' {
                    TokenKind::LBrace
                } else if c == '}' {
                    TokenKind::RBrace
                } else if c == '[' {
                    TokenKind::LBracket
                } else if c == ']' {
                    TokenKind::RBracket
                } else if c == '|' {
                    TokenKind::Bar
                } else if c == '+' {
                    TokenKind::Plus
                } else if c == '-' {
                    match self.peek() {
                        Some(d) => {
                            if '0' <= d && d <= '9' {
                                self.advance();
                                self.advance_while(CharClass::Digit);
                                TokenKind::Number
                            } else if d == '>' {
                                self.advance();
                                TokenKind::Arrow
                            } else {
                                TokenKind::Minus
                            }
                        },
                        None => TokenKind::Minus,
                    }
                } else if c == '/' {
                    TokenKind::Slash
                } else if c == '*' {
                    TokenKind::Star
                } else if c == '=' {
                    match self.peek() {
                        Some('=') => {
                            self.advance();
                            TokenKind::DoubleEquals
                        },
                        _ => TokenKind::Equals,
                    }
                } else if c == ',' {
                    TokenKind::Comma
                } else if c == ';' {
                    TokenKind::Semicolon
                } else if c == '.' {
                    TokenKind::Period
                } else if c == '"' {
                    self.save();
                    while self.index < self.chars.len() && self.chars[self.index] != '"'
                        invariant
                            self.wf(),
                            self.src == old(self).src,
                            self.chars == old(self).chars,
                            old(self).index < self.index,
                        decreases self.chars.len() - self.index,
                    {
                        self.index += 1;
                    }
                    let s = self.lexeme();
                    return match self.advance() {
                        Some(_) => (TokenKind::String, s),
                        None => (TokenKind::Error, s),
                    };
                } else if c == '#' {
                    self.save();
                    self.advance_while(CharClass::Alphanumeric);
                    TokenKind::Atom
                } else if c == '_' {
                    TokenKind::Wildcard
                } else if '0' <= c && c <= '9' {
                    self.advance_while(CharClass::Digit);
                    TokenKind::Number
                } else if ('a' <= c && c <= 'z') || ('A' <= c && c <= 'Z') {
                    self.advance_while(CharClass::Alphanumeric);
                    self.qualify()
                } else {
                    TokenKind::Error
                }
            },
            None => TokenKind::Eof,
        };
        (kind, self.lexeme())
    }

    /// Skips whitespace and scans the next token.
    pub fn next_token(&mut self) -> (r: Token)
        requires
            old(self).wf(),
        ensures
            final(self).wf(),
            final(self).src == old(self).src,
            final(self).chars == old(self).chars,
            old(self).index <= final(self).index,
            r.kind != TokenKind::Eof ==> old(self).index < final(self).index,
            r.kind == TokenKind::Eof ==> final(self).index == final(self).chars.len(),
    {
        self.whitespaces();
        self.save();
        let (kind, lexeme) = self.token();
        Token { kind, lexeme }
    }

    /// The next token, or `None` at the end of the source.
    pub fn next(&mut self) -> (r: Option<Token>)
        requires
            old(self).wf(),
        ensures
            final(self).wf(),
            final(self).src == old(self).src,
            final(self).chars == old(self).chars,
            r is None <==> old(self).index >= old(self).chars.len(),
            r is Some ==> old(self).index < final(self).index,
    {
        if self.index >= self.chars.len() {
            None
        } else {
            let t = self.next_token();
            Some(t)
        }
    }
}

} // verus!
