//! The lexical grammar, stated over the UTF-8 bytes of the source.

use vstd::prelude::*;
use vstd::utf8::decode_utf8;
use super::TokenType;

verus! {

pub const TAB: u8 = 9;
pub const NEWLINE: u8 = 10;
pub const CARRIAGE_RETURN: u8 = 13;
pub const SPACE: u8 = 32;
pub const BANG: u8 = 33;
pub const QUOTE: u8 = 34;
pub const LEFT_PAREN: u8 = 40;
pub const RIGHT_PAREN: u8 = 41;
pub const STAR: u8 = 42;
pub const PLUS: u8 = 43;
pub const COMMA: u8 = 44;
pub const MINUS: u8 = 45;
pub const DOT: u8 = 46;
pub const SLASH: u8 = 47;
pub const SEMICOLON: u8 = 59;
pub const LESS: u8 = 60;
pub const EQUAL: u8 = 61;
pub const GREATER: u8 = 62;
pub const UNDERSCORE: u8 = 95;
pub const LEFT_BRACE: u8 = 123;
pub const RIGHT_BRACE: u8 = 125;

/// `0` to `9`.
pub open spec fn is_digit(b: u8) -> bool {
    48 <= b <= 57
}

/// A letter of the ASCII alphabet or an underscore.
pub open spec fn is_alpha(b: u8) -> bool {
    (65 <= b <= 90) || (97 <= b <= 122) || b == UNDERSCORE
}

pub open spec fn is_alphanumeric(b: u8) -> bool {
    is_alpha(b) || is_digit(b)
}

/// A byte that continues a multi-byte character.
pub open spec fn is_continuation(b: u8) -> bool {
    0x80 <= b <= 0xbf
}

/// The line counter after one more newline; it stops at the largest value.
pub open spec fn line_after(line: u32) -> u32 {
    if line < u32::MAX {
        (line + 1) as u32
    } else {
        line
    }
}

/// Where whitespace and `//` comments that begin at `pos` end, and the line
/// counter there. `in_comment` says that `pos` lies inside a comment.
pub open spec fn skip_trivia(src: Seq<u8>, pos: int, line: u32, in_comment: bool) -> (int, u32)
    decreases src.len() - pos,
{
    if pos < 0 || pos >= src.len() {
        (pos, line)
    } else if in_comment {
        if src[pos] == NEWLINE {
            skip_trivia(src, pos + 1, line_after(line), false)
        } else {
            skip_trivia(src, pos + 1, line, true)
        }
    } else if src[pos] == SPACE || src[pos] == CARRIAGE_RETURN || src[pos] == TAB {
        skip_trivia(src, pos + 1, line, false)
    } else if src[pos] == NEWLINE {
        skip_trivia(src, pos + 1, line_after(line), false)
    } else if src[pos] == SLASH && pos + 1 < src.len() && src[pos + 1] == SLASH {
        skip_trivia(src, pos + 2, line, true)
    } else {
        (pos, line)
    }
}

/// The first position from `pos` on that holds no digit.
pub open spec fn digits_end(src: Seq<u8>, pos: int) -> int
    decreases src.len() - pos,
{
    if 0 <= pos < src.len() && is_digit(src[pos]) {
        digits_end(src, pos + 1)
    } else {
        pos
    }
}

/// The end of the number that begins at `pos`: digits, then a fraction only
/// where a digit follows the point.
pub open spec fn number_end(src: Seq<u8>, pos: int) -> int {
    let whole = digits_end(src, pos);
    if whole + 1 < src.len() && src[whole] == DOT && is_digit(src[whole + 1]) {
        digits_end(src, whole + 1)
    } else {
        whole
    }
}

/// The first position from `pos` on that holds no letter, digit or underscore.
pub open spec fn identifier_end(src: Seq<u8>, pos: int) -> int
    decreases src.len() - pos,
{
    if 0 <= pos < src.len() && is_alphanumeric(src[pos]) {
        identifier_end(src, pos + 1)
    } else {
        pos
    }
}

/// The position of the first double quote from `pos` on, or the length of the
/// source where there is none.
pub open spec fn quote_position(src: Seq<u8>, pos: int) -> int
    decreases src.len() - pos,
{
    if 0 <= pos < src.len() && src[pos] != QUOTE {
        quote_position(src, pos + 1)
    } else {
        pos
    }
}

/// The line counter after the newlines between `from` and `to`.
pub open spec fn line_through(src: Seq<u8>, from: int, to: int, line: u32) -> u32
    decreases to - from,
{
    if from < to && 0 <= from < src.len() {
        line_through(
            src,
            from + 1,
            to,
            if src[from] == NEWLINE {
                line_after(line)
            } else {
                line
            },
        )
    } else {
        line
    }
}

/// The end of the character whose first byte precedes `pos`.
pub open spec fn character_end(src: Seq<u8>, pos: int) -> int
    decreases src.len() - pos,
{
    if 0 <= pos < src.len() && is_continuation(src[pos]) {
        character_end(src, pos + 1)
    } else {
        pos
    }
}

/// The kind of a word: one of the sixteen keywords, else an identifier.
pub open spec fn word_kind(word: Seq<char>) -> TokenType {
    if word == "and"@ {
        TokenType::And
    } else if word == "class"@ {
        TokenType::Class
    } else if word == "else"@ {
        TokenType::Else
    } else if word == "false"@ {
        TokenType::False
    } else if word == "for"@ {
        TokenType::For
    } else if word == "fun"@ {
        TokenType::Fun
    } else if word == "if"@ {
        TokenType::If
    } else if word == "nil"@ {
        TokenType::Nil
    } else if word == "or"@ {
        TokenType::Or
    } else if word == "print"@ {
        TokenType::Print
    } else if word == "return"@ {
        TokenType::Return
    } else if word == "super"@ {
        TokenType::Super
    } else if word == "this"@ {
        TokenType::This
    } else if word == "true"@ {
        TokenType::True
    } else if word == "var"@ {
        TokenType::Var
    } else if word == "while"@ {
        TokenType::While
    } else {
        TokenType::Ident
    }
}

/// What one scanning step finds. Offsets are byte offsets into the source.
pub enum Scanned {
    /// A token that spans `begin..end`, with its lexeme at `text_begin..text_end`
    /// and the line counter after it.
    Token { kind: TokenType, begin: int, end: int, text_begin: int, text_end: int, line: u32 },
    /// A string opened at `begin` and never closed.
    NonTerminatedString { begin: int, end: int },
    /// A character at `begin..end` that starts no token.
    UnexpectedToken { begin: int, end: int },
}

pub open spec fn plain(kind: TokenType, begin: int, end: int, line: u32) -> Scanned {
    Scanned::Token { kind, begin, end, text_begin: begin, text_end: end, line }
}

/// The kind of a one-byte operator that may be followed by `=`.
pub open spec fn operator_kind(first: u8, with_equal: bool) -> TokenType {
    if first == BANG {
        if with_equal {
            TokenType::BangEqual
        } else {
            TokenType::Bang
        }
    } else if first == EQUAL {
        if with_equal {
            TokenType::EqualEqual
        } else {
            TokenType::Equal
        }
    } else if first == LESS {
        if with_equal {
            TokenType::LessEqual
        } else {
            TokenType::Less
        }
    } else {
        if with_equal {
            TokenType::GreaterEqual
        } else {
            TokenType::Greater
        }
    }
}

/// The kind of a token that is one byte of punctuation, if `b` is one.
pub open spec fn punctuation_kind(b: u8) -> Option<TokenType> {
    if b == LEFT_PAREN {
        Some(TokenType::LeftParen)
    } else if b == RIGHT_PAREN {
        Some(TokenType::RightParen)
    } else if b == LEFT_BRACE {
        Some(TokenType::LeftBrace)
    } else if b == RIGHT_BRACE {
        Some(TokenType::RightBrace)
    } else if b == COMMA {
        Some(TokenType::Comma)
    } else if b == DOT {
        Some(TokenType::Dot)
    } else if b == MINUS {
        Some(TokenType::Minus)
    } else if b == PLUS {
        Some(TokenType::Plus)
    } else if b == STAR {
        Some(TokenType::Star)
    } else if b == SEMICOLON {
        Some(TokenType::Semicolon)
    } else if b == SLASH {
        Some(TokenType::Slash)
    } else {
        None
    }
}

/// The token that begins at `start`, where `start` holds no whitespace and
/// begins no comment.
pub open spec fn token_at(src: Seq<u8>, start: int, line: u32) -> Scanned {
    if start < 0 || start >= src.len() {
        plain(TokenType::EOF, start, start, line)
    } else {
        let c = src[start];
        if punctuation_kind(c) is Some {
            plain(punctuation_kind(c)->0, start, start + 1, line)
        } else if c == BANG || c == EQUAL || c == LESS || c == GREATER {
            if start + 1 < src.len() && src[start + 1] == EQUAL {
                plain(operator_kind(c, true), start, start + 2, line)
            } else {
                plain(operator_kind(c, false), start, start + 1, line)
            }
        } else if c == QUOTE {
            let close = quote_position(src, start + 1);
            if close >= src.len() {
                Scanned::NonTerminatedString { begin: start, end: src.len() as int }
            } else {
                Scanned::Token {
                    kind: TokenType::String,
                    begin: start,
                    end: close + 1,
                    text_begin: start + 1,
                    text_end: close,
                    line: line_through(src, start + 1, close, line),
                }
            }
        } else if is_digit(c) {
            plain(TokenType::Number, start, number_end(src, start), line)
        } else if is_alpha(c) {
            let end = identifier_end(src, start + 1);
            plain(word_kind(decode_utf8(src.subrange(start, end))), start, end, line)
        } else {
            Scanned::UnexpectedToken { begin: start, end: character_end(src, start + 1) }
        }
    }
}

/// One scanning step from `pos`: skip whitespace and comments, then read one
/// token. At the end of the source the token is `EOF`.
pub open spec fn scan_step(src: Seq<u8>, pos: int, line: u32) -> Scanned {
    let (start, line) = skip_trivia(src, pos, line, false);
    token_at(src, start, line)
}

/// What scanning gives from `pos` to the end of the source, before the final
/// `EOF`: the tokens in order, or the first failure.
pub open spec fn scan_rest(src: Seq<u8>, pos: int, line: u32) -> Result<Seq<Scanned>, Scanned>
    decreases src.len() - pos,
{
    if pos < 0 || pos >= src.len() {
        Ok(Seq::empty())
    } else {
        let step = scan_step(src, pos, line);
        match step {
            Scanned::Token { end, line: after, .. } => {
                if end <= pos || end > src.len() {
                    Ok(seq![step])
                } else {
                    match scan_rest(src, end, after) {
                        Ok(rest) => Ok(seq![step] + rest),
                        Err(e) => Err(e),
                    }
                }
            },
            _ => Err(step),
        }
    }
}

/// Where scanning stands after the tokens that `scan_rest` gives: the offset
/// at which the token read last begins, the offset of the next unread byte, and
/// the line counter. `start` is where the token read before `pos` begins.
pub open spec fn scan_rest_end(src: Seq<u8>, pos: int, line: u32, start: int) -> (int, int, u32)
    decreases src.len() - pos,
{
    if pos < 0 || pos >= src.len() {
        (start, pos, line)
    } else {
        match scan_step(src, pos, line) {
            Scanned::Token { begin, end, line: after, .. } => {
                if end <= pos || end > src.len() {
                    (begin, end, after)
                } else {
                    scan_rest_end(src, end, after, begin)
                }
            },
            _ => (start, pos, line),
        }
    }
}

/// The whole token sequence of a source: the tokens of `scan_rest`, then an
/// `EOF` that repeats the span and text of the token read last; or the first
/// failure.
pub open spec fn scan_source(src: Seq<u8>, pos: int, line: u32, start: int) -> Result<
    Seq<Scanned>,
    Scanned,
> {
    match scan_rest(src, pos, line) {
        Ok(tokens) => {
            let (begin, end, last_line) = scan_rest_end(src, pos, line, start);
            Ok(tokens.push(plain(TokenType::EOF, begin, end, last_line)))
        },
        Err(e) => Err(e),
    }
}

} // verus!
