//! Tokens and the scanner that produces them from source text.

pub mod error;
pub mod grammar;
pub mod order;

use vstd::prelude::*;
use vstd::string::*;
use vstd::utf8::*;
use crate::text::{bytes_of, lemma_ascii_byte_boundaries, slice_bytes};
use error::TokenError;
use grammar::{
    character_end, digits_end, identifier_end, is_alpha, is_alphanumeric, is_digit, line_after,
    line_through, number_end, operator_kind, plain, punctuation_kind, quote_position, scan_rest,
    scan_rest_end, scan_source, scan_step, skip_trivia, token_at, word_kind, Scanned, BANG,
    CARRIAGE_RETURN, COMMA, DOT, EQUAL, GREATER, LEFT_BRACE, LEFT_PAREN, LESS, MINUS, NEWLINE,
    PLUS, QUOTE, RIGHT_BRACE, RIGHT_PAREN, SEMICOLON, SLASH, SPACE, STAR, TAB,
};

verus! {

/// The kind of a token. A number's value is the decimal text of its lexeme.
#[derive(Debug, PartialEq, Eq, Structural, Clone, Copy, Hash)]
pub enum TokenType {
    // Single-character tokens.
    LeftParen,
    RightParen,
    LeftBrace,
    RightBrace,
    Comma,
    Dot,
    Minus,
    Plus,
    Semicolon,
    Slash,
    Star,
    // One or two character tokens.
    Bang,
    BangEqual,
    Equal,
    EqualEqual,
    Greater,
    GreaterEqual,
    Less,
    LessEqual,
    // Literals.
    Ident,
    String,
    Number,
    // Keywords.
    And,
    Class,
    Else,
    False,
    Fun,
    For,
    If,
    Nil,
    Or,
    Print,
    Return,
    Super,
    This,
    True,
    Var,
    While,
    EOF,
}

impl TokenType {
    /// The name of the kind.
    pub open spec fn name_spec(&self) -> Seq<char> {
        match self {
            TokenType::LeftParen => "LeftParen"@,
            TokenType::RightParen => "RightParen"@,
            TokenType::LeftBrace => "LeftBrace"@,
            TokenType::RightBrace => "RightBrace"@,
            TokenType::Comma => "Comma"@,
            TokenType::Dot => "Dot"@,
            TokenType::Minus => "Minus"@,
            TokenType::Plus => "Plus"@,
            TokenType::Semicolon => "Semicolon"@,
            TokenType::Slash => "Slash"@,
            TokenType::Star => "Star"@,
            TokenType::Bang => "Bang"@,
            TokenType::BangEqual => "BangEqual"@,
            TokenType::Equal => "Equal"@,
            TokenType::EqualEqual => "EqualEqual"@,
            TokenType::Greater => "Greater"@,
            TokenType::GreaterEqual => "GreaterEqual"@,
            TokenType::Less => "Less"@,
            TokenType::LessEqual => "LessEqual"@,
            TokenType::Ident => "Ident"@,
            TokenType::String => "String"@,
            TokenType::Number => "Number"@,
            TokenType::And => "And"@,
            TokenType::Class => "Class"@,
            TokenType::Else => "Else"@,
            TokenType::False => "False"@,
            TokenType::Fun => "Fun"@,
            TokenType::For => "For"@,
            TokenType::If => "If"@,
            TokenType::Nil => "Nil"@,
            TokenType::Or => "Or"@,
            TokenType::Print => "Print"@,
            TokenType::Return => "Return"@,
            TokenType::Super => "Super"@,
            TokenType::This => "This"@,
            TokenType::True => "True"@,
            TokenType::Var => "Var"@,
            TokenType::While => "While"@,
            TokenType::EOF => "EOF"@,
        }
    }

    /// The name of the kind.
    pub fn name(&self) -> (name: &'static str)
        ensures
            name@ == self.name_spec(),
    {
        match self {
            TokenType::LeftParen => "LeftParen",
            TokenType::RightParen => "RightParen",
            TokenType::LeftBrace => "LeftBrace",
            TokenType::RightBrace => "RightBrace",
            TokenType::Comma => "Comma",
            TokenType::Dot => "Dot",
            TokenType::Minus => "Minus",
            TokenType::Plus => "Plus",
            TokenType::Semicolon => "Semicolon",
            TokenType::Slash => "Slash",
            TokenType::Star => "Star",
            TokenType::Bang => "Bang",
            TokenType::BangEqual => "BangEqual",
            TokenType::Equal => "Equal",
            TokenType::EqualEqual => "EqualEqual",
            TokenType::Greater => "Greater",
            TokenType::GreaterEqual => "GreaterEqual",
            TokenType::Less => "Less",
            TokenType::LessEqual => "LessEqual",
            TokenType::Ident => "Ident",
            TokenType::String => "String",
            TokenType::Number => "Number",
            TokenType::And => "And",
            TokenType::Class => "Class",
            TokenType::Else => "Else",
            TokenType::False => "False",
            TokenType::Fun => "Fun",
            TokenType::For => "For",
            TokenType::If => "If",
            TokenType::Nil => "Nil",
            TokenType::Or => "Or",
            TokenType::Print => "Print",
            TokenType::Return => "Return",
            TokenType::Super => "Super",
            TokenType::This => "This",
            TokenType::True => "True",
            TokenType::Var => "Var",
            TokenType::While => "While",
            TokenType::EOF => "EOF",
        }
    }
}

/// Byte offsets of a token in the source.
#[derive(Debug, PartialEq, Eq, Structural, Clone, Copy, Hash)]
pub struct Span {
    pub begin: u32,
    pub end: u32,
}

/// A token: its kind, its text, the line it ends on and where it stands.
#[derive(Debug, PartialEq, Eq, Clone, Copy, Hash)]
pub struct Token<'a> {
    pub kind: TokenType,
    pub lexeme: &'a str,
    pub line: u32,
    pub span: Span,
}

impl<'a> Token<'a> {
    pub fn new(kind: TokenType, lexeme: &'a str, line: u32, span: Span) -> (token: Self)
        ensures
            token == (Token { kind, lexeme, line, span }),
    {
        Self { kind, lexeme, line, span }
    }

    /// The literal value of the token as a listing shows it: the text of a
    /// string; for a number `number`, the host's rendering of its value;
    /// `null` for every other kind, which has none.
    pub open spec fn literal_spec(&self, number: Seq<char>) -> Seq<char> {
        match self.kind {
            TokenType::String => self.lexeme@,
            TokenType::Number => number,
            _ => "null"@,
        }
    }

    /// The token as a line of a listing: the name of its kind, its lexeme
    /// and its literal value, with one space between them.
    pub open spec fn listing_spec(&self, number: Seq<char>) -> Seq<char> {
        self.kind.name_spec() + " "@ + self.lexeme@ + " "@ + self.literal_spec(number)
    }

    /// The token as a line of a listing. `number` is the host's rendering of
    /// the value of a number and is used for a token of that kind only.
    pub fn listing(&self, number: &str) -> (text: String)
        ensures
            text@ == self.listing_spec(number@),
    {
        let mut text = String::from_str(self.kind.name());
        text.append(" ");
        text.append(self.lexeme);
        text.append(" ");
        match self.kind {
            TokenType::String => text.append(self.lexeme),
            TokenType::Number => text.append(number),
            _ => text.append("null"),
        }
        text
    }
}

/// Whether `token` is the token that `found` describes in `src`.
pub open spec fn token_matches(token: Token, src: Seq<u8>, found: Scanned) -> bool {
    match found {
        Scanned::Token { kind, begin, end, text_begin, text_end, line } => {
            &&& token.kind == kind
            &&& token.line == line
            &&& token.span.begin == begin as u32
            &&& token.span.end == end as u32
            &&& 0 <= text_begin <= text_end <= src.len()
            &&& bytes_of(token.lexeme@) == src.subrange(text_begin, text_end)
        },
        _ => false,
    }
}

/// Whether `error` reports the failure that `found` describes in `src`.
pub open spec fn error_matches(error: TokenError, src: Seq<u8>, found: Scanned) -> bool {
    match found {
        Scanned::NonTerminatedString { begin, end } => {
            &&& error matches TokenError::NonTerminatedString(text)
            &&& 0 <= begin <= end <= src.len()
            &&& bytes_of(text@) == src.subrange(begin, end)
        },
        Scanned::UnexpectedToken { begin, end } => {
            &&& error matches TokenError::UnexpectedToken(text)
            &&& 0 <= begin <= end <= src.len()
            &&& bytes_of(text@) == src.subrange(begin, end)
        },
        Scanned::Token { .. } => false,
    }
}

/// Whether the outcome of one scanning step is the one that `found` describes.
pub open spec fn step_matches(
    outcome: Result<Token, TokenError>,
    src: Seq<u8>,
    found: Scanned,
) -> bool {
    match outcome {
        Ok(token) => token_matches(token, src, found),
        Err(error) => error_matches(error, src, found),
    }
}

/// Whether a token list is, token by token, the one that `found` describes.
pub open spec fn tokens_match(tokens: Seq<Token>, src: Seq<u8>, found: Seq<Scanned>) -> bool {
    &&& tokens.len() == found.len()
    &&& forall|i: int| 0 <= i < tokens.len() ==> token_matches(#[trigger] tokens[i], src, found[i])
}

/// Reads tokens from a source text, front to back.
pub struct Scanner<'a> {
    source: &'a str,
    position: usize,
    start: usize,
    line: u32,
}

impl<'a> Scanner<'a> {
    /// The UTF-8 bytes of the source.
    pub closed spec fn bytes(&self) -> Seq<u8> {
        bytes_of(self.source@)
    }

    /// The byte offset of the next unread byte.
    pub closed spec fn position(&self) -> int {
        self.position as int
    }

    /// The byte offset at which the token read last begins.
    pub closed spec fn start(&self) -> int {
        self.start as int
    }

    /// The line counter.
    pub closed spec fn line(&self) -> u32 {
        self.line
    }

    /// The offsets lie inside the source, in order.
    pub closed spec fn inv(&self) -> bool {
        self.start <= self.position <= self.bytes().len() <= usize::MAX
    }

    /// The offsets lie inside the source and each of them is the offset of
    /// a character.
    pub closed spec fn wf(&self) -> bool {
        &&& self.inv()
        &&& is_char_boundary(self.bytes(), self.position as int)
        &&& is_char_boundary(self.bytes(), self.start as int)
    }

    pub fn new(source: &'a str) -> (scanner: Self)
        ensures
            scanner.wf(),
            scanner.inv(),
            scanner.bytes() == bytes_of(source@),
            scanner.bytes().len() <= usize::MAX,
            scanner.position() == 0,
            scanner.start() == 0,
            scanner.line() == 1,
    {
        let length = source.as_bytes().len();
        proof {
            encode_utf8_valid_utf8(source@);
            is_char_boundary_start_end_of_seq(bytes_of(source@));
            assert(bytes_of(source@).len() == length);
        }
        Self { source, position: 0, start: 0, line: 1 }
    }

    /// The line counter.
    pub fn current_line(&self) -> (line: u32)
        ensures
            line == self.line(),
    {
        self.line
    }

    /// The next unread byte.
    pub fn peek(&self) -> (byte: Option<u8>)
        requires
            self.inv(),
        ensures
            byte == if self.position() < self.bytes().len() {
                Some(self.bytes()[self.position()])
            } else {
                None
            },
    {
        self.peek_nth(0)
    }

    /// The unread byte `nth` places ahead.
    pub fn peek_nth(&self, nth: usize) -> (byte: Option<u8>)
        requires
            self.inv(),
        ensures
            byte == if self.position() + nth < self.bytes().len() {
                Some(self.bytes()[self.position() + nth])
            } else {
                None
            },
    {
        let bytes = self.source.as_bytes();
        if nth < bytes.len() - self.position {
            Some(bytes[self.position + nth])
        } else {
            None
        }
    }

    /// Reads one byte.
    pub fn read_char(&mut self) -> (byte: Option<u8>)
        requires
            old(self).inv(),
        ensures
            final(self).inv(),
            final(self).bytes() == old(self).bytes(),
            final(self).start() == old(self).start(),
            final(self).line() == old(self).line(),
            old(self).position() < old(self).bytes().len() ==> byte == Some(
                old(self).bytes()[old(self).position()],
            ) && final(self).position() == old(self).position() + 1,
            old(self).position() >= old(self).bytes().len() ==> byte is None && final(self).position() == old(self).position(),
    {
        let byte = self.peek();
        if byte.is_some() {
            self.position += 1;
        }
        byte
    }

    /// Skips whitespace and `//` comments, counting lines.
    pub fn skip_whitespace(&mut self)
        requires
            old(self).inv(),
        ensures
            final(self).inv(),
            final(self).bytes() == old(self).bytes(),
            final(self).start() == old(self).start(),
            (final(self).position(), final(self).line()) == skip_trivia(
                old(self).bytes(),
                old(self).position(),
                old(self).line(),
                false,
            ),
            final(self).position() >= old(self).position(),
            old(self).wf() ==> final(self).wf(),
            is_char_boundary(old(self).bytes(), old(self).position()) ==> is_char_boundary(
                final(self).bytes(),
                final(self).position(),
            ),
    {
        let ghost src = self.bytes();
        let ghost goal = skip_trivia(src, self.position as int, self.line, false);
        let ghost bounded = is_char_boundary(self.bytes(), self.position as int);
        let mut in_comment = false;
        proof {
            encode_utf8_valid_utf8(self.source@);
        }
        loop
            invariant
                self.inv(),
                self.bytes() == src,
                src == old(self).bytes(),
                self.start() == old(self).start(),
                self.position() >= old(self).position(),
                valid_utf8(src),
                skip_trivia(src, self.position as int, self.line, in_comment) == goal,
                goal == skip_trivia(src, old(self).position(), old(self).line(), false),
                bounded && !in_comment ==> is_char_boundary(src, self.position as int),
            ensures
                self.inv(),
                self.bytes() == src,
                self.start() == old(self).start(),
                self.position() >= old(self).position(),
                (self.position(), self.line()) == goal,
                bounded ==> is_char_boundary(src, self.position as int),
            decreases src.len() - self.position,
        {
            let here = self.peek();
            let next = self.peek_nth(1);
            match here {
                None => {
                    proof {
                        is_char_boundary_start_end_of_seq(src);
                    }
                    break ;
                },
                Some(c) => {
                    if in_comment {
                        if c == NEWLINE {
                            proof {
                                lemma_ascii_byte_boundaries(src, self.position as int);
                            }
                            self.line = next_line(self.line);
                            in_comment = false;
                        }
                        self.position += 1;
                    } else if c == SPACE || c == CARRIAGE_RETURN || c == TAB {
                        proof {
                            lemma_ascii_byte_boundaries(src, self.position as int);
                        }
                        self.position += 1;
                    } else if c == NEWLINE {
                        proof {
                            lemma_ascii_byte_boundaries(src, self.position as int);
                        }
                        self.line = next_line(self.line);
                        self.position += 1;
                    } else if c == SLASH && next == Some(SLASH) {
                        self.position += 2;
                        in_comment = true;
                    } else {
                        break ;
                    }
                },
            }
        }
    }

    /// The token of kind `kind` whose text is the source from `start` on.
    fn make_token(&self, kind: TokenType) -> (token: Token<'a>)
        requires
            self.wf(),
            is_char_boundary(self.bytes(), self.start()),
        ensures
            token_matches(
                token,
                self.bytes(),
                plain(kind, self.start(), self.position(), self.line()),
            ),
    {
        let lexeme = slice_bytes(self.source, self.start, self.position);
        self.make_token_with_lexeme(kind, lexeme)
    }

    /// The token of kind `kind` with the given text.
    fn make_token_with_lexeme(&self, kind: TokenType, lexeme: &'a str) -> (token: Token<'a>)
        ensures
            token.kind == kind,
            token.lexeme == lexeme,
            token.line == self.line(),
            token.span.begin == self.start() as u32,
            token.span.end == self.position() as u32,
    {
        Token::new(
            kind,
            lexeme,
            self.line,
            Span {
                begin: #[verifier::truncate]
                (self.start as u32),
                end: #[verifier::truncate]
                (self.position as u32),
            },
        )
    }

    /// Reads the next byte if it is `expected`.
    fn match_next(&mut self, expected: u8) -> (matched: bool)
        requires
            old(self).inv(),
        ensures
            final(self).inv(),
            final(self).bytes() == old(self).bytes(),
            final(self).start() == old(self).start(),
            final(self).line() == old(self).line(),
            matched == (old(self).position() < old(self).bytes().len() && old(self).bytes()[old(self).position()] == expected),
            final(self).position() == old(self).position() + if matched {
                1int
            } else {
                0int
            },
    {
        if let Some(c) = self.peek() {
            if c == expected {
                self.read_char();
                return true;
            }
        }
        false
    }

    /// Reads on over digits.
    fn digits(&mut self)
        requires
            old(self).inv(),
        ensures
            final(self).inv(),
            final(self).bytes() == old(self).bytes(),
            final(self).start() == old(self).start(),
            final(self).line() == old(self).line(),
            final(self).position() == digits_end(old(self).bytes(), old(self).position()),
            final(self).position() >= old(self).position(),
            forall|i: int|
                old(self).position() <= i < final(self).position() ==> is_digit(
                    #[trigger] old(self).bytes()[i],
                ),
    {
        let ghost src = self.bytes();
        let ghost from = self.position as int;
        loop
            invariant
                self.inv(),
                self.bytes() == src,
                src == old(self).bytes(),
                self.start() == old(self).start(),
                self.line() == old(self).line(),
                self.position() >= from,
                from == old(self).position(),
                digits_end(src, self.position as int) == digits_end(src, from),
                forall|i: int| from <= i < self.position() ==> is_digit(#[trigger] src[i]),
            ensures
                self.inv(),
                self.bytes() == src,
                self.start() == old(self).start(),
                self.line() == old(self).line(),
                self.position() >= from,
                self.position() == digits_end(src, from),
                forall|i: int| from <= i < self.position() ==> is_digit(#[trigger] src[i]),
            decreases src.len() - self.position,
        {
            match self.peek() {
                Some(c) if c >= 48 && c <= 57 => {
                    self.position += 1;
                },
                _ => {
                    break ;
                },
            }
        }
    }

    /// Reads the rest of a number whose first digit was just read.
    fn number(&mut self) -> (token: Token<'a>)
        requires
            old(self).inv(),
            old(self).position() == old(self).start() + 1,
            is_digit(old(self).bytes()[old(self).start()]),
            is_char_boundary(old(self).bytes(), old(self).start()),
        ensures
            final(self).wf(),
            final(self).bytes() == old(self).bytes(),
            final(self).start() == old(self).start(),
            final(self).line() == old(self).line(),
            final(self).position() == number_end(old(self).bytes(), old(self).start()),
            final(self).position() > old(self).start(),
            token_matches(
                token,
                old(self).bytes(),
                plain(
                    TokenType::Number,
                    old(self).start(),
                    number_end(old(self).bytes(), old(self).start()),
                    old(self).line(),
                ),
            ),
    {
        let ghost src = self.bytes();
        proof {
            encode_utf8_valid_utf8(self.source@);
        }
        self.digits();
        let here = self.peek();
        let next = self.peek_nth(1);
        if here == Some(DOT) {
            if let Some(d) = next {
                if d >= 48 && d <= 57 {
                    self.position += 1;
                    proof {
                        lemma_digits_end_from(src, self.position + 1);
                    }
                    self.digits();
                }
            }
        }
        proof {
            assert(is_digit(src[self.position - 1]));
            lemma_ascii_byte_boundaries(src, self.position - 1);
        }
        self.make_token(TokenType::Number)
    }

    /// Reads the rest of a string whose opening quote was just read.
    fn string(&mut self) -> (outcome: Result<Token<'a>, TokenError>)
        requires
            old(self).inv(),
            old(self).position() == old(self).start() + 1,
            old(self).bytes()[old(self).start()] == QUOTE,
        ensures
            final(self).wf(),
            final(self).bytes() == old(self).bytes(),
            final(self).start() == old(self).start(),
            step_matches(
                outcome,
                old(self).bytes(),
                token_at(old(self).bytes(), old(self).start(), old(self).line()),
            ),
            outcome is Ok ==> final(self).line() == outcome->Ok_0.line && final(self).position()
                == quote_position(old(self).bytes(), old(self).position()) + 1,
    {
        let ghost src = self.bytes();
        let ghost from = self.position as int;
        let ghost line0 = self.line;
        proof {
            encode_utf8_valid_utf8(self.source@);
            lemma_ascii_byte_boundaries(src, self.start as int);
        }
        loop
            invariant
                self.inv(),
                self.bytes() == src,
                src == old(self).bytes(),
                self.start() == old(self).start(),
                from <= self.position(),
                from == old(self).position(),
                line0 == old(self).line(),
                quote_position(src, self.position as int) == quote_position(src, from),
                line_through(src, from, self.position as int, line0) == self.line,
            ensures
                self.inv(),
                self.bytes() == src,
                self.start() == old(self).start(),
                from <= self.position(),
                self.position() == quote_position(src, from),
                self.position() < src.len() ==> src[self.position()] == QUOTE,
                line_through(src, from, self.position as int, line0) == self.line,
            decreases src.len() - self.position,
        {
            match self.peek() {
                None => {
                    break ;
                },
                Some(c) => {
                    if c == QUOTE {
                        break ;
                    }
                    proof {
                        lemma_line_through_extend(src, from, self.position as int, line0);
                    }
                    if c == NEWLINE {
                        self.line = next_line(self.line);
                    }
                    self.position += 1;
                },
            }
        }
        if self.peek().is_none() {
            proof {
                is_char_boundary_start_end_of_seq(src);
            }
            let text = slice_bytes(self.source, self.start, self.position);
            return Err(TokenError::NonTerminatedString(text.to_owned()));
        }
        proof {
            lemma_ascii_byte_boundaries(src, self.position as int);
        }
        self.position += 1;
        let lexeme = slice_bytes(self.source, self.start + 1, self.position - 1);
        Ok(self.make_token_with_lexeme(TokenType::String, lexeme))
    }

    /// Reads the rest of a word whose first letter was just read.
    fn identifier(&mut self) -> (token: Token<'a>)
        requires
            old(self).inv(),
            old(self).position() == old(self).start() + 1,
            is_alpha(old(self).bytes()[old(self).start()]),
        ensures
            final(self).wf(),
            final(self).bytes() == old(self).bytes(),
            final(self).start() == old(self).start(),
            final(self).line() == old(self).line(),
            final(self).position() == identifier_end(old(self).bytes(), old(self).position()),
            final(self).position() > old(self).start(),
            token_matches(
                token,
                old(self).bytes(),
                token_at(old(self).bytes(), old(self).start(), old(self).line()),
            ),
    {
        let ghost src = self.bytes();
        let ghost from = self.position as int;
        proof {
            encode_utf8_valid_utf8(self.source@);
            lemma_ascii_byte_boundaries(src, self.start as int);
        }
        loop
            invariant
                self.inv(),
                self.bytes() == src,
                src == old(self).bytes(),
                self.start() == old(self).start(),
                self.line() == old(self).line(),
                valid_utf8(src),
                from <= self.position(),
                from == old(self).position(),
                identifier_end(src, self.position as int) == identifier_end(src, from),
                is_char_boundary(src, self.position as int),
            ensures
                self.inv(),
                self.bytes() == src,
                self.start() == old(self).start(),
                self.line() == old(self).line(),
                from <= self.position(),
                self.position() == identifier_end(src, from),
                is_char_boundary(src, self.position as int),
            decreases src.len() - self.position,
        {
            match self.peek() {
                Some(c) if is_word_byte(c) => {
                    proof {
                        lemma_ascii_byte_boundaries(src, self.position as int);
                    }
                    self.position += 1;
                },
                _ => {
                    break ;
                },
            }
        }
        let lexeme = slice_bytes(self.source, self.start, self.position);
        proof {
            encode_utf8_decode_utf8(lexeme@);
        }
        let kind = keyword_or_identifier(lexeme);
        self.make_token_with_lexeme(kind, lexeme)
    }

    /// Fails on the character whose first byte was just read.
    fn unexpected(&mut self) -> (error: TokenError)
        requires
            old(self).inv(),
            old(self).position() == old(self).start() + 1,
            is_char_boundary(old(self).bytes(), old(self).start()),
        ensures
            final(self).wf(),
            final(self).bytes() == old(self).bytes(),
            final(self).start() == old(self).start(),
            error_matches(
                error,
                old(self).bytes(),
                Scanned::UnexpectedToken {
                    begin: old(self).start(),
                    end: character_end(old(self).bytes(), old(self).position()),
                },
            ),
    {
        let ghost src = self.bytes();
        let ghost from = self.position as int;
        proof {
            encode_utf8_valid_utf8(self.source@);
        }
        loop
            invariant
                self.inv(),
                self.bytes() == src,
                src == old(self).bytes(),
                self.start() == old(self).start(),
                valid_utf8(src),
                from <= self.position(),
                from == old(self).position(),
                character_end(src, self.position as int) == character_end(src, from),
            ensures
                self.inv(),
                self.bytes() == src,
                self.start() == old(self).start(),
                from <= self.position(),
                self.position() == character_end(src, from),
                is_char_boundary(src, self.position as int),
            decreases src.len() - self.position,
        {
            match self.peek() {
                Some(c) if c >= 0x80 && c <= 0xbf => {
                    self.position += 1;
                },
                Some(_) => {
                    proof {
                        is_char_boundary_iff_not_is_continuation_byte(src, self.position as int);
                    }
                    break ;
                },
                None => {
                    proof {
                        is_char_boundary_start_end_of_seq(src);
                    }
                    break ;
                },
            }
        }
        let text = slice_bytes(self.source, self.start, self.position);
        TokenError::UnexpectedToken(text.to_owned())
    }

    /// Skips whitespace and comments, then reads one token; at the end of the
    /// source the token is `EOF`.
    pub fn scan_token(&mut self) -> (outcome: Result<Token<'a>, TokenError>)
        requires
            old(self).wf(),
        ensures
            final(self).wf(),
            final(self).inv(),
            final(self).bytes() == old(self).bytes(),
            step_matches(
                outcome,
                old(self).bytes(),
                scan_step(old(self).bytes(), old(self).position(), old(self).line()),
            ),
            outcome is Ok ==> final(self).line() == outcome->Ok_0.line,
            match scan_step(old(self).bytes(), old(self).position(), old(self).line()) {
                Scanned::Token { begin, end, .. } => {
                    &&& final(self).position() == end
                    &&& final(self).start() == begin
                    &&& old(self).position() <= begin <= end
                    &&& old(self).position() < old(self).bytes().len() ==> old(self).position()
                        < end
                },
                _ => true,
            },
    {
        let ghost src = self.bytes();
        proof {
            encode_utf8_valid_utf8(self.source@);
        }
        self.skip_whitespace();
        self.start = self.position;
        let c = self.read_char();
        let Some(c) = c else {
            return Ok(self.make_token(TokenType::EOF));
        };
        if let Some(kind) = punctuation(c) {
            proof {
                lemma_ascii_byte_boundaries(src, self.start as int);
            }
            return Ok(self.make_token(kind));
        }
        if c == BANG || c == EQUAL || c == LESS || c == GREATER {
            let with_equal = self.match_next(EQUAL);
            proof {
                lemma_ascii_byte_boundaries(src, self.start as int);
                if with_equal {
                    lemma_ascii_byte_boundaries(src, self.start as int + 1);
                }
            }
            return Ok(self.make_token(operator(c, with_equal)));
        }
        if c == QUOTE {
            return self.string();
        }
        if c >= 48 && c <= 57 {
            return Ok(self.number());
        }
        if is_word_byte(c) && !(c >= 48 && c <= 57) {
            return Ok(self.identifier());
        }
        Err(self.unexpected())
    }

    /// Reads every token up to the end of the source and appends a final
    /// `EOF`, which repeats the span of the token read last.
    pub fn scan_tokens(&mut self) -> (outcome: Result<Vec<Token<'a>>, TokenError>)
        requires
            old(self).wf(),
        ensures
            final(self).wf(),
            final(self).inv(),
            final(self).bytes() == old(self).bytes(),
            match scan_source(
                old(self).bytes(),
                old(self).position(),
                old(self).line(),
                old(self).start(),
            ) {
                Ok(found) => outcome is Ok && tokens_match(
                    outcome->Ok_0@,
                    old(self).bytes(),
                    found,
                ),
                Err(failure) => outcome is Err && error_matches(
                    outcome->Err_0,
                    old(self).bytes(),
                    failure,
                ),
            },
            outcome is Ok && old(self).bytes().len() <= u32::MAX && old(self).position() == 0
                && old(self).start() == 0 && old(self).line() == 1 ==> order::well_scanned(
                outcome->Ok_0@,
            ),
    {
        let ghost src = self.bytes();
        let ghost pos0 = self.position as int;
        let ghost line0 = self.line;
        let ghost start0 = self.start as int;
        let ghost mut done: Seq<Scanned> = Seq::empty();
        let mut tokens: Vec<Token<'a>> = Vec::new();
        proof {
            encode_utf8_valid_utf8(self.source@);
        }
        while self.position < self.source.as_bytes().len()
            invariant
                self.wf(),
                self.bytes() == src,
                src == old(self).bytes(),
                pos0 == old(self).position(),
                line0 == old(self).line(),
                start0 == old(self).start(),
                valid_utf8(src),
                tokens_match(tokens@, src, done),
                match scan_rest(src, self.position(), self.line()) {
                    Ok(rest) => scan_rest(src, pos0, line0) == Ok::<Seq<Scanned>, Scanned>(
                        done + rest,
                    ),
                    Err(e) => scan_rest(src, pos0, line0) == Err::<Seq<Scanned>, Scanned>(e),
                },
                scan_rest_end(src, self.position(), self.line(), self.start()) == scan_rest_end(
                    src,
                    pos0,
                    line0,
                    start0,
                ),
            decreases src.len() - self.position,
        {
            self.start = self.position;
            let ghost step = scan_step(src, self.position as int, self.line);
            let ghost before = self.position as int;
            let ghost line_before = self.line;
            let token = self.scan_token();
            match token {
                Ok(token) => {
                    proof {
                        let rest_before = scan_rest(src, before, line_before);
                        match scan_rest(src, self.position(), self.line()) {
                            Ok(rest) => {
                                assert(rest_before == Ok::<Seq<Scanned>, Scanned>(
                                    seq![step] + rest,
                                ));
                                assert(done + (seq![step] + rest) =~= done.push(step) + rest);
                            },
                            Err(e) => {},
                        }
                        if self.start() < src.len() {
                            assert(src[self.start()] < 0x80) by {
                                lemma_token_begins_ascii(src, self.start(), self.line());
                            }
                            lemma_ascii_byte_boundaries(src, self.start());
                        } else {
                            is_char_boundary_start_end_of_seq(src);
                        }
                        done = done.push(step);
                    }
                    tokens.push(token);
                },
                Err(error) => {
                    return Err(error);
                },
            }
        }
        let last = self.make_token(TokenType::EOF);
        proof {
            let ghost found = done.push(plain(TokenType::EOF, self.start(), self.position(), self.line()));
            assert(scan_rest(src, self.position(), self.line()) == Ok::<Seq<Scanned>, Scanned>(
                Seq::empty(),
            ));
            assert(done + Seq::<Scanned>::empty() =~= done);
            assert(scan_source(src, pos0, line0, start0) == Ok::<Seq<Scanned>, Scanned>(found));
        }
        tokens.push(last);
        proof {
            if src.len() <= u32::MAX && pos0 == 0 && start0 == 0 && line0 == 1 {
                order::lemma_tokens_are_well_scanned(tokens@, src);
            }
        }
        Ok(tokens)
    }
}

/// The line counter after one more newline.
fn next_line(line: u32) -> (next: u32)
    ensures
        next == line_after(line),
{
    if line < u32::MAX {
        line + 1
    } else {
        line
    }
}

/// Whether `c` may stand inside a word.
fn is_word_byte(c: u8) -> (r: bool)
    ensures
        r == is_alphanumeric(c),
{
    (c >= 65 && c <= 90) || (c >= 97 && c <= 122) || c == 95 || (c >= 48 && c <= 57)
}

/// The kind of a token that is one byte of punctuation.
fn punctuation(c: u8) -> (kind: Option<TokenType>)
    ensures
        kind == punctuation_kind(c),
{
    if c == LEFT_PAREN {
        Some(TokenType::LeftParen)
    } else if c == RIGHT_PAREN {
        Some(TokenType::RightParen)
    } else if c == LEFT_BRACE {
        Some(TokenType::LeftBrace)
    } else if c == RIGHT_BRACE {
        Some(TokenType::RightBrace)
    } else if c == COMMA {
        Some(TokenType::Comma)
    } else if c == DOT {
        Some(TokenType::Dot)
    } else if c == MINUS {
        Some(TokenType::Minus)
    } else if c == PLUS {
        Some(TokenType::Plus)
    } else if c == STAR {
        Some(TokenType::Star)
    } else if c == SEMICOLON {
        Some(TokenType::Semicolon)
    } else if c == SLASH {
        Some(TokenType::Slash)
    } else {
        None
    }
}

/// The kind of an operator that may be followed by `=`.
fn operator(first: u8, with_equal: bool) -> (kind: TokenType)
    ensures
        kind == operator_kind(first, with_equal),
{
    if first == BANG {
        if with_equal {
            TokenType::BangEqual
        } else {
            TokenType::Bang
        }
    } else if first == EQUAL {
        if with_equal {
            TokenType::EqualEqual
        } else {
            TokenType::Equal
        }
    } else if first == LESS {
        if with_equal {
            TokenType::LessEqual
        } else {
            TokenType::Less
        }
    } else {
        if with_equal {
            TokenType::GreaterEqual
        } else {
            TokenType::Greater
        }
    }
}

/// The kind of a word: a keyword's kind, or `Ident`.
pub fn keyword_or_identifier(word: &str) -> (kind: TokenType)
    ensures
        kind == word_kind(word@),
{
    if crate::text::str_eq(word, "and") {
        TokenType::And
    } else if crate::text::str_eq(word, "class") {
        TokenType::Class
    } else if crate::text::str_eq(word, "else") {
        TokenType::Else
    } else if crate::text::str_eq(word, "false") {
        TokenType::False
    } else if crate::text::str_eq(word, "for") {
        TokenType::For
    } else if crate::text::str_eq(word, "fun") {
        TokenType::Fun
    } else if crate::text::str_eq(word, "if") {
        TokenType::If
    } else if crate::text::str_eq(word, "nil") {
        TokenType::Nil
    } else if crate::text::str_eq(word, "or") {
        TokenType::Or
    } else if crate::text::str_eq(word, "print") {
        TokenType::Print
    } else if crate::text::str_eq(word, "return") {
        TokenType::Return
    } else if crate::text::str_eq(word, "super") {
        TokenType::Super
    } else if crate::text::str_eq(word, "this") {
        TokenType::This
    } else if crate::text::str_eq(word, "true") {
        TokenType::True
    } else if crate::text::str_eq(word, "var") {
        TokenType::Var
    } else if crate::text::str_eq(word, "while") {
        TokenType::While
    } else {
        TokenType::Ident
    }
}

/// Extending the range of `line_through` by one byte.
proof fn lemma_line_through_extend(src: Seq<u8>, from: int, to: int, line: u32)
    requires
        0 <= from <= to < src.len(),
    ensures
        line_through(src, from, to + 1, line) == if src[to] == NEWLINE {
            line_after(line_through(src, from, to, line))
        } else {
            line_through(src, from, to, line)
        },
    decreases to - from,
{
    if from < to {
        lemma_line_through_extend(
            src,
            from + 1,
            to,
            if src[from] == NEWLINE {
                line_after(line)
            } else {
                line
            },
        );
    } else {
        reveal_with_fuel(line_through, 2);
    }
}

/// A run of digits ends no earlier than it begins.
proof fn lemma_digits_end_from(src: Seq<u8>, pos: int)
    ensures
        digits_end(src, pos) >= pos,
    decreases src.len() - pos,
{
    if 0 <= pos < src.len() && is_digit(src[pos]) {
        lemma_digits_end_from(src, pos + 1);
    }
}

/// A token begins with an ASCII byte.
proof fn lemma_token_begins_ascii(src: Seq<u8>, pos: int, line: u32)
    requires
        0 <= pos < src.len(),
        token_at(src, pos, line) is Token,
    ensures
        src[pos] < 0x80,
{
}

} // verus!
