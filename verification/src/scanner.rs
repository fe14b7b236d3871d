//! The scanner: source text to tokens.

use crate::chars::{
    digit_char, lemma_alphabets, lemma_run_bounds, lemma_run_unique, letter_char, occurs_in,
    run, spans, whitespace_char, CharClass,
};
use crate::text::{
    encoded_len, first_ascii, is_ascii_char, lemma_ascii_prefix, same_text, skip_ascii, take_ascii,
};
use vstd::prelude::*;
use vstd::utf8::encode_utf8;

verus! {

/// A lexical token. Literals and identifiers carry the slice of the source
/// text they were read from.
#[derive(Debug, PartialEq, Clone, Copy)]
pub enum Token<'a> {
    Plus,
    Minus,
    Star,
    Slash,
    Number(&'a str),
    True,
    False,
    RParen,
    LParen,
    RBrace,
    LBrace,
    Let,
    SingleEq,
    Semicolon,
    Var(&'a str),
    If,
    Else,
}

/// A token as a mathematical value: its kind and, for literals and
/// identifiers, its characters.
pub enum Lexeme {
    Plus,
    Minus,
    Star,
    Slash,
    Number(Seq<char>),
    True,
    False,
    RParen,
    LParen,
    RBrace,
    LBrace,
    Let,
    SingleEq,
    Semicolon,
    Var(Seq<char>),
    If,
    Else,
}

impl<'a> View for Token<'a> {
    type V = Lexeme;

    open spec fn view(&self) -> Lexeme {
        match self {
            Token::Plus => Lexeme::Plus,
            Token::Minus => Lexeme::Minus,
            Token::Star => Lexeme::Star,
            Token::Slash => Lexeme::Slash,
            Token::Number(text) => Lexeme::Number(text@),
            Token::True => Lexeme::True,
            Token::False => Lexeme::False,
            Token::RParen => Lexeme::RParen,
            Token::LParen => Lexeme::LParen,
            Token::RBrace => Lexeme::RBrace,
            Token::LBrace => Lexeme::LBrace,
            Token::Let => Lexeme::Let,
            Token::SingleEq => Lexeme::SingleEq,
            Token::Semicolon => Lexeme::Semicolon,
            Token::Var(text) => Lexeme::Var(text@),
            Token::If => Lexeme::If,
            Token::Else => Lexeme::Else,
        }
    }
}

impl Lexeme {
    /// How the token is written in messages: its kind and, in brackets and
    /// quotes, the text it carries.
    pub open spec fn description(self) -> Seq<char> {
        match self {
            Lexeme::Plus => "Plus"@,
            Lexeme::Minus => "Minus"@,
            Lexeme::Star => "Star"@,
            Lexeme::Slash => "Slash"@,
            Lexeme::Number(text) => "Number(\""@ + text + "\")"@,
            Lexeme::True => "True"@,
            Lexeme::False => "False"@,
            Lexeme::RParen => "RParen"@,
            Lexeme::LParen => "LParen"@,
            Lexeme::RBrace => "RBrace"@,
            Lexeme::LBrace => "LBrace"@,
            Lexeme::Let => "Let"@,
            Lexeme::SingleEq => "SingleEq"@,
            Lexeme::Semicolon => "Semicolon"@,
            Lexeme::Var(text) => "Var(\""@ + text + "\")"@,
            Lexeme::If => "If"@,
            Lexeme::Else => "Else"@,
        }
    }
}

impl<'a> Token<'a> {
    /// How the token is written in messages.
    pub fn description(&self) -> (text: String)
        ensures
            text@ == self@.description(),
    {
        match self {
            Token::Plus => String::from_str("Plus"),
            Token::Minus => String::from_str("Minus"),
            Token::Star => String::from_str("Star"),
            Token::Slash => String::from_str("Slash"),
            Token::Number(text) => String::from_str("Number(\"").concat(text).concat("\")"),
            Token::True => String::from_str("True"),
            Token::False => String::from_str("False"),
            Token::RParen => String::from_str("RParen"),
            Token::LParen => String::from_str("LParen"),
            Token::RBrace => String::from_str("RBrace"),
            Token::LBrace => String::from_str("LBrace"),
            Token::Let => String::from_str("Let"),
            Token::SingleEq => String::from_str("SingleEq"),
            Token::Semicolon => String::from_str("Semicolon"),
            Token::Var(text) => String::from_str("Var(\"").concat(text).concat("\")"),
            Token::If => String::from_str("If"),
            Token::Else => String::from_str("Else"),
        }
    }

    /// Whether two tokens are of the same kind and carry the same text.
    pub fn same(&self, other: &Token<'_>) -> (b: bool)
        ensures
            b == (self@ == other@),
    {
        match (self, other) {
            (Token::Plus, Token::Plus) => true,
            (Token::Minus, Token::Minus) => true,
            (Token::Star, Token::Star) => true,
            (Token::Slash, Token::Slash) => true,
            (Token::Number(a), Token::Number(b)) => same_text(a, b),
            (Token::True, Token::True) => true,
            (Token::False, Token::False) => true,
            (Token::RParen, Token::RParen) => true,
            (Token::LParen, Token::LParen) => true,
            (Token::RBrace, Token::RBrace) => true,
            (Token::LBrace, Token::LBrace) => true,
            (Token::Let, Token::Let) => true,
            (Token::SingleEq, Token::SingleEq) => true,
            (Token::Semicolon, Token::Semicolon) => true,
            (Token::Var(a), Token::Var(b)) => same_text(a, b),
            (Token::If, Token::If) => true,
            (Token::Else, Token::Else) => true,
            _ => false,
        }
    }
}

/// The token that a single punctuation character stands for.
pub open spec fn punctuation(c: char) -> Option<Lexeme> {
    if c == '+' {
        Some(Lexeme::Plus)
    } else if c == '-' {
        Some(Lexeme::Minus)
    } else if c == '*' {
        Some(Lexeme::Star)
    } else if c == '/' {
        Some(Lexeme::Slash)
    } else if c == '(' {
        Some(Lexeme::LParen)
    } else if c == ')' {
        Some(Lexeme::RParen)
    } else if c == '{' {
        Some(Lexeme::LBrace)
    } else if c == '}' {
        Some(Lexeme::RBrace)
    } else if c == '=' {
        Some(Lexeme::SingleEq)
    } else if c == ';' {
        Some(Lexeme::Semicolon)
    } else {
        None
    }
}

/// The token for a word: a keyword if it is one, else an identifier.
pub open spec fn word(text: Seq<char>) -> Lexeme {
    if text == "let"@ {
        Lexeme::Let
    } else if text == "true"@ {
        Lexeme::True
    } else if text == "false"@ {
        Lexeme::False
    } else if text == "if"@ {
        Lexeme::If
    } else if text == "else"@ {
        Lexeme::Else
    } else {
        Lexeme::Var(text)
    }
}

/// The text after its leading whitespace.
pub open spec fn skip_whitespace(s: Seq<char>) -> Seq<char> {
    s.skip(run(s, CharClass::Whitespace) as int)
}

/// The first token of a text and the text that follows it, or `None` where
/// the text holds no further token: nothing but whitespace is left, or the
/// next character starts no token.
pub open spec fn first_token(s: Seq<char>) -> Option<(Lexeme, Seq<char>)> {
    let t = skip_whitespace(s);
    if t.len() == 0 {
        None
    } else if CharClass::Digit.has(t[0]) {
        let n = run(t, CharClass::Digit) as int;
        Some((Lexeme::Number(t.take(n)), t.skip(n)))
    } else if CharClass::Letter.has(t[0]) {
        let n = run(t, CharClass::Word) as int;
        Some((word(t.take(n)), t.skip(n)))
    } else {
        match punctuation(t[0]) {
            Some(lexeme) => Some((lexeme, t.skip(1))),
            None => None,
        }
    }
}

/// Every token takes at least one character.
pub proof fn lemma_first_token_consumes(s: Seq<char>)
    ensures
        first_token(s) matches Some((_, rest)) ==> rest.len() < s.len(),
{
    let t = skip_whitespace(s);
    lemma_run_bounds(s, CharClass::Whitespace);
    if t.len() > 0 {
        lemma_run_bounds(t, CharClass::Digit);
        lemma_run_bounds(t, CharClass::Word);
    }
}

/// The tokens of a text, in order, up to its end or to the first character
/// that starts no token.
pub open spec fn tokens(s: Seq<char>) -> Seq<Lexeme>
    decreases s.len(),
{
    match first_token(s) {
        Some((lexeme, rest)) => {
            proof {
                lemma_first_token_consumes(s);
            }
            seq![lexeme] + tokens(rest)
        },
        None => Seq::empty(),
    }
}

/// A cursor into a source text that hands out its tokens one by one.
#[derive(Debug)]
pub struct Scanner<'a> {
    /// The part of the source text that lies after the cursor.
    rest: &'a str,
}

impl<'a> View for Scanner<'a> {
    type V = Seq<char>;

    /// The text that has not been scanned yet.
    closed spec fn view(&self) -> Seq<char> {
        self.rest@
    }
}

impl<'a> Scanner<'a> {
    /// A scanner at the start of `source`.
    pub fn new(source: &'a str) -> (scanner: Self)
        ensures
            scanner@ == source@,
    {
        Scanner { rest: source }
    }

    /// The text that has not been scanned yet. Once `next` has returned
    /// `None`, it is empty where the input was exhausted, and starts with the
    /// offending character where the scanner met one that starts no token.
    pub fn unscanned(&self) -> (text: &'a str)
        ensures
            text@ == self@,
    {
        self.rest
    }

    /// The next character, if there is one and it is ASCII; the cursor stays.
    fn peek(&self) -> (c: Option<char>)
        ensures
            match c {
                Some(ch) => self@.len() > 0 && self@[0] == ch && is_ascii_char(ch),
                None => self@.len() == 0 || !is_ascii_char(self@[0]),
            },
    {
        first_ascii(self.rest)
    }

    /// The next character, if there is one and it is ASCII; the cursor moves
    /// past it.
    fn next_char(&mut self) -> (c: Option<char>)
        ensures
            match c {
                Some(ch) => old(self)@.len() > 0 && old(self)@[0] == ch && is_ascii_char(ch)
                    && final(self)@ == old(self)@.drop_first(),
                None => (old(self)@.len() == 0 || !is_ascii_char(old(self)@[0])) && final(self)@
                    == old(self)@,
            },
    {
        let c = first_ascii(self.rest);
        if c.is_some() {
            self.rest = skip_ascii(self.rest, 1);
            assert(old(self)@.skip(1) =~= old(self)@.drop_first());
        }
        c
    }

    /// Moves the cursor past the run of characters of `class` that starts at
    /// it, and says how long the run was.
    fn munch(&mut self, class: CharClass) -> (n: usize)
        ensures
            n == run(old(self)@, class),
            n <= old(self)@.len(),
            final(self)@ == old(self)@.skip(n as int),
            forall|i: int| 0 <= i < n ==> is_ascii_char(#[trigger] old(self)@[i]),
    {
        let ghost start = self@;
        let limit = encoded_len(self.rest);
        let mut n: usize = 0;
        loop
            invariant
                n <= start.len(),
                limit == encode_utf8(start).len(),
                self@ == start.skip(n as int),
                forall|i: int| 0 <= i < n ==> class.has(#[trigger] start[i]),
                forall|i: int| 0 <= i < n ==> is_ascii_char(#[trigger] start[i]),
            ensures
                n < start.len() ==> !class.has(start[n as int]),
            decreases start.len() - n,
        {
            let in_class = match self.peek() {
                Some(c) => match class {
                    CharClass::Whitespace => whitespace_char(c),
                    CharClass::Digit => digit_char(c),
                    CharClass::Letter => letter_char(c),
                    CharClass::Word => letter_char(c) || digit_char(c),
                },
                None => false,
            };
            if !in_class {
                break ;
            }
            let ghost before = self@;
            let _ = self.next_char();
            proof {
                assert(start[n as int] == before[0]);
                assert(before.drop_first() =~= start.skip(n + 1));
                lemma_ascii_prefix(start, n + 1);
            }
            n += 1;
        }
        proof {
            lemma_run_unique(start, class, n as int);
        }
        n
    }

    /// Reads the number literal that starts at the cursor.
    fn number(&mut self) -> (token: Token<'a>)
        ensures
            token@ == Lexeme::Number(old(self)@.take(run(old(self)@, CharClass::Digit) as int)),
            final(self)@ == old(self)@.skip(run(old(self)@, CharClass::Digit) as int),
    {
        let start = self.rest;
        let n = self.munch(CharClass::Digit);
        Token::Number(take_ascii(start, n))
    }

    /// Reads the keyword or identifier that starts at the cursor.
    fn identifier(&mut self) -> (token: Token<'a>)
        ensures
            token@ == word(old(self)@.take(run(old(self)@, CharClass::Word) as int)),
            final(self)@ == old(self)@.skip(run(old(self)@, CharClass::Word) as int),
    {
        let start = self.rest;
        let n = self.munch(CharClass::Word);
        let ident = take_ascii(start, n);
        if same_text(ident, "let") {
            Token::Let
        } else if same_text(ident, "true") {
            Token::True
        } else if same_text(ident, "false") {
            Token::False
        } else if same_text(ident, "if") {
            Token::If
        } else if same_text(ident, "else") {
            Token::Else
        } else {
            Token::Var(ident)
        }
    }

    /// The token that a punctuation character stands for.
    fn operator(c: char) -> (token: Option<Token<'a>>)
        ensures
            match token {
                Some(t) => punctuation(c) == Some(t@),
                None => punctuation(c) is None,
            },
    {
        if c == '+' {
            Some(Token::Plus)
        } else if c == '-' {
            Some(Token::Minus)
        } else if c == '*' {
            Some(Token::Star)
        } else if c == '/' {
            Some(Token::Slash)
        } else if c == '(' {
            Some(Token::LParen)
        } else if c == ')' {
            Some(Token::RParen)
        } else if c == '{' {
            Some(Token::LBrace)
        } else if c == '}' {
            Some(Token::RBrace)
        } else if c == '=' {
            Some(Token::SingleEq)
        } else if c == ';' {
            Some(Token::Semicolon)
        } else {
            None
        }
    }

    /// Skips whitespace and reads the next token. Where the text holds no
    /// further token, the result is `None` and the cursor rests after the
    /// whitespace: at the end of the text, or on the character that starts no
    /// token. Further calls then return `None` again.
    pub fn next(&mut self) -> (token: Option<Token<'a>>)
        ensures
            match first_token(old(self)@) {
                Some((lexeme, rest)) => token matches Some(t) && t@ == lexeme && final(self)@
                    == rest,
                None => token is None && final(self)@ == skip_whitespace(old(self)@),
            },
            token is None ==> first_token(final(self)@) is None,
    {
        let _ = self.munch(CharClass::Whitespace);
        proof {
            lemma_skip_whitespace_idempotent(old(self)@);
        }
        match self.peek() {
            None => None,
            Some(c) => {
                if digit_char(c) {
                    Some(self.number())
                } else if letter_char(c) {
                    Some(self.identifier())
                } else {
                    let token = Self::operator(c);
                    if token.is_some() {
                        let _ = self.next_char();
                        assert(skip_whitespace(old(self)@).skip(1) =~= skip_whitespace(
                            old(self)@,
                        ).drop_first());
                    }
                    token
                }
            },
        }
    }

    /// Whether `s` stands as one piece in `0123456789`; for a single
    /// character, whether it is a digit.
    pub fn is_digit(s: &str) -> (b: bool)
        ensures
            b == occurs_in(s@, "0123456789"@),
            s@.len() == 1 ==> b == CharClass::Digit.has(s@[0]),
    {
        proof {
            lemma_alphabets();
        }
        spans(CharClass::Digit, s)
    }

    /// Whether `s` stands as one piece in the capital letters followed by
    /// the small letters and the underscore; for a single character,
    /// whether it is a letter or the underscore.
    pub fn is_alpha(s: &str) -> (b: bool)
        ensures
            b == occurs_in(s@, "ABCDEFGHIJKLMNOPQRSTUVWXYZabcdefghijklmnopqrstuvwxyz_"@),
            s@.len() == 1 ==> b == CharClass::Letter.has(s@[0]),
    {
        proof {
            lemma_alphabets();
        }
        spans(CharClass::Letter, s)
    }

    /// Whether `s` stands as one piece in space, tab, newline; for a single
    /// character, whether it is one of the three.
    pub fn is_whitespace(s: &str) -> (b: bool)
        ensures
            b == occurs_in(s@, " \t\n"@),
            s@.len() == 1 ==> b == CharClass::Whitespace.has(s@[0]),
    {
        proof {
            lemma_alphabets();
        }
        spans(CharClass::Whitespace, s)
    }

    /// Reads all the tokens that are left.
    pub fn collect(self) -> (all: Vec<Token<'a>>)
        ensures
            all@.len() == tokens(self@).len(),
            forall|i: int| 0 <= i < all@.len() ==> (#[trigger] all@[i])@ == tokens(self@)[i],
    {
        let ghost start = self@;
        let mut scanner = self;
        let mut all: Vec<Token<'a>> = Vec::new();
        loop
            invariant
                all@.len() + tokens(scanner@).len() == tokens(start).len(),
                forall|i: int| 0 <= i < all@.len() ==> (#[trigger] all@[i])@ == tokens(start)[i],
                forall|i: int|
                    0 <= i < tokens(scanner@).len() ==> #[trigger] tokens(scanner@)[i] == tokens(
                        start,
                    )[all@.len() + i],
            ensures
                all@.len() == tokens(start).len(),
            decreases scanner@.len(),
        {
            let ghost before = scanner@;
            proof {
                lemma_first_token_consumes(before);
            }
            match scanner.next() {
                Some(token) => {
                    all.push(token);
                    proof {
                        let after = scanner@;
                        assert(tokens(before) == seq![token@] + tokens(after));
                        assert forall|i: int| 0 <= i < tokens(after).len() implies #[trigger] tokens(
                            after,
                        )[i] == tokens(start)[all@.len() + i] by {
                            assert(tokens(before)[i + 1] == tokens(after)[i]);
                        }
                        assert(tokens(before)[0] == token@);
                    }
                },
                None => {
                    break ;
                },
            }
        }
        all
    }
}

/// Skipping whitespace twice skips no more than skipping it once.
pub proof fn lemma_skip_whitespace_idempotent(s: Seq<char>)
    ensures
        skip_whitespace(skip_whitespace(s)) == skip_whitespace(s),
        first_token(skip_whitespace(s)) == first_token(s),
{
    lemma_run_bounds(s, CharClass::Whitespace);
    let t = skip_whitespace(s);
    lemma_run_unique(t, CharClass::Whitespace, 0);
    assert(t.skip(0) =~= t);
}

} // verus!
