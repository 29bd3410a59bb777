//! Tokens in the order of the source: each token that scanning gives begins
//! after the one before it, and a word is a keyword exactly where it reads
//! like one.

use vstd::prelude::*;
use vstd::string::*;
use vstd::utf8::*;
use super::grammar::{
    digits_end, identifier_end, is_digit, quote_position, scan_rest, scan_rest_end, scan_source,
    scan_step, skip_trivia, token_at, word_kind, Scanned,
};
use super::{token_matches, tokens_match, Token, TokenType};

verus! {

/// Whether the tokens stand in the order of the source, each with its own
/// offset and none overlapping a token after it, and their kinds tell
/// `this`, `super` and the names apart. The `EOF` at the end is no part of
/// the order: it repeats the span of the token before it.
#[verifier::opaque]
pub open spec fn well_scanned(tokens: Seq<Token>) -> bool {
    &&& forall|i: int, j: int|
        0 <= i < j < tokens.len() && (#[trigger] tokens[j]).kind != TokenType::EOF ==> (
        #[trigger] tokens[i]).span.begin < tokens[j].span.begin
    &&& forall|i: int, j: int|
        0 <= i < j < tokens.len() && (#[trigger] tokens[j]).kind != TokenType::EOF ==> (
        #[trigger] tokens[i]).span.end <= tokens[j].span.begin
    &&& forall|i: int| 0 <= i < tokens.len() ==> (#[trigger] tokens[i]).span.begin <= tokens[i].span.end
    &&& forall|i: int|
        0 <= i < tokens.len() && (#[trigger] tokens[i]).kind == TokenType::This
            ==> tokens[i].lexeme@ == "this"@
    &&& forall|i: int|
        0 <= i < tokens.len() && (#[trigger] tokens[i]).kind == TokenType::Super
            ==> tokens[i].lexeme@ == "super"@
    &&& forall|i: int|
        0 <= i < tokens.len() && (#[trigger] tokens[i]).kind == TokenType::Ident
            ==> tokens[i].lexeme@ != "this"@ && tokens[i].lexeme@ != "super"@
}

/// Whitespace and comments end no earlier than they begin, and inside the
/// source.
proof fn lemma_skip_trivia_bounds(src: Seq<u8>, pos: int, line: u32, in_comment: bool)
    requires
        0 <= pos <= src.len(),
    ensures
        pos <= skip_trivia(src, pos, line, in_comment).0 <= src.len(),
    decreases src.len() - pos,
{
    if pos < src.len() {
        if in_comment {
            lemma_skip_trivia_bounds(src, pos + 1, super::grammar::line_after(line), false);
            lemma_skip_trivia_bounds(src, pos + 1, line, true);
        } else {
            lemma_skip_trivia_bounds(src, pos + 1, line, false);
            lemma_skip_trivia_bounds(src, pos + 1, super::grammar::line_after(line), false);
            if pos + 2 <= src.len() {
                lemma_skip_trivia_bounds(src, pos + 2, line, true);
            }
        }
    }
}

proof fn lemma_digits_end_bounds(src: Seq<u8>, pos: int)
    requires
        0 <= pos <= src.len(),
    ensures
        pos <= digits_end(src, pos) <= src.len(),
    decreases src.len() - pos,
{
    if pos < src.len() && is_digit(src[pos]) {
        lemma_digits_end_bounds(src, pos + 1);
    }
}

proof fn lemma_identifier_end_bounds(src: Seq<u8>, pos: int)
    requires
        0 <= pos <= src.len(),
    ensures
        pos <= identifier_end(src, pos) <= src.len(),
    decreases src.len() - pos,
{
    if pos < src.len() && super::grammar::is_alphanumeric(src[pos]) {
        lemma_identifier_end_bounds(src, pos + 1);
    }
}

proof fn lemma_quote_position_bounds(src: Seq<u8>, pos: int)
    requires
        0 <= pos <= src.len(),
    ensures
        pos <= quote_position(src, pos) <= src.len(),
    decreases src.len() - pos,
{
    if pos < src.len() && src[pos] != super::grammar::QUOTE {
        lemma_quote_position_bounds(src, pos + 1);
    }
}

/// Whether what was scanned is a token that begins at or after `from`, ends
/// inside the source, is longer than nothing unless it is the end, and is a
/// word where its kind is that of a word.
pub open spec fn token_in_order(src: Seq<u8>, found: Scanned, from: int) -> bool {
    match found {
        Scanned::Token { kind, begin, end, text_begin, text_end, .. } => {
            &&& from <= begin <= end <= src.len()
            &&& kind != TokenType::EOF ==> begin < end
            &&& kind == TokenType::This || kind == TokenType::Super || kind == TokenType::Ident
                ==> text_begin == begin && text_end == end && kind == word_kind(
                decode_utf8(src.subrange(begin, end)),
            )
        },
        _ => false,
    }
}

/// A token that scanning finds at a position is in order.
proof fn lemma_token_at_in_order(src: Seq<u8>, start: int, line: u32)
    requires
        0 <= start <= src.len(),
        token_at(src, start, line) is Token,
    ensures
        token_in_order(src, token_at(src, start, line), start),
        token_at(src, start, line)->Token_begin == start,
{
    if start < src.len() {
        lemma_digits_end_bounds(src, start);
        lemma_digits_end_bounds(src, start + 1);
        let whole = digits_end(src, start);
        if whole + 1 <= src.len() {
            lemma_digits_end_bounds(src, whole + 1);
        }
        lemma_identifier_end_bounds(src, start + 1);
        lemma_quote_position_bounds(src, start + 1);
    }
}

/// Whether each of the tokens scanned begins at or after `from`, and begins
/// and ends before every token after it that is not the end begins.
pub open spec fn in_order(src: Seq<u8>, found: Seq<Scanned>, from: int) -> bool {
    &&& forall|i: int| 0 <= i < found.len() ==> token_in_order(src, #[trigger] found[i], from)
    &&& forall|i: int, j: int|
        0 <= i < j < found.len() && (#[trigger] found[j])->Token_kind != TokenType::EOF ==> (
        #[trigger] found[i])->Token_begin < found[j]->Token_begin && found[i]->Token_end
            <= found[j]->Token_begin
}

/// The tokens that scanning gives from a position on are in order.
proof fn lemma_scan_rest_in_order(src: Seq<u8>, pos: int, line: u32)
    requires
        0 <= pos <= src.len(),
        scan_rest(src, pos, line) is Ok,
    ensures
        in_order(src, scan_rest(src, pos, line)->Ok_0, pos),
    decreases src.len() - pos,
{
    if pos < src.len() {
        let step = scan_step(src, pos, line);
        lemma_skip_trivia_bounds(src, pos, line, false);
        let (start, after) = skip_trivia(src, pos, line, false);
        lemma_token_at_in_order(src, start, after);
        match step {
            Scanned::Token { end, line: next_line, begin, kind, .. } => {
                if !(end <= pos || end > src.len()) {
                    lemma_scan_rest_in_order(src, end, next_line);
                    let rest = scan_rest(src, end, next_line)->Ok_0;
                    let all = seq![step] + rest;
                    assert(scan_rest(src, pos, line)->Ok_0 == all);
                    assert forall|i: int| 0 <= i < all.len() implies token_in_order(
                        src,
                        #[trigger] all[i],
                        pos,
                    ) by {
                        if i > 0 {
                            assert(all[i] == rest[i - 1]);
                        }
                    }
                    assert forall|i: int, j: int|
                        0 <= i < j < all.len() && (#[trigger] all[j])->Token_kind
                            != TokenType::EOF implies (#[trigger] all[i])->Token_begin
                        < all[j]->Token_begin && all[i]->Token_end <= all[j]->Token_begin by {
                        assert(all[j] == rest[j - 1]);
                        assert(token_in_order(src, rest[j - 1], end));
                        if i > 0 {
                            assert(all[i] == rest[i - 1]);
                        } else {
                            assert(all[0] == step);
                        }
                    }
                }
            },
            _ => {},
        }
    }
}

/// Where scanning stands after the last token: that token begins no later
/// than it ends, inside the source.
proof fn lemma_scan_rest_end_bounds(src: Seq<u8>, pos: int, line: u32, start: int)
    requires
        0 <= start <= pos <= src.len(),
    ensures
        0 <= scan_rest_end(src, pos, line, start).0 <= scan_rest_end(src, pos, line, start).1
            <= src.len(),
    decreases src.len() - pos,
{
    if pos < src.len() {
        lemma_skip_trivia_bounds(src, pos, line, false);
        let (begin_at, after) = skip_trivia(src, pos, line, false);
        match scan_step(src, pos, line) {
            Scanned::Token { begin, end, line: next_line, .. } => {
                lemma_token_at_in_order(src, begin_at, after);
                if !(end <= pos || end > src.len()) {
                    lemma_scan_rest_end_bounds(src, end, next_line, begin);
                }
            },
            _ => {},
        }
    }
}

/// A terminating `EOF` is always appended: the tokens of a source, where
/// scanning gives tokens, end with an `EOF`.
pub proof fn lemma_tokens_end_with_eof(
    tokens: Seq<Token>,
    src: Seq<u8>,
    pos: int,
    line: u32,
    start: int,
)
    requires
        scan_source(src, pos, line, start) is Ok,
        tokens_match(tokens, src, scan_source(src, pos, line, start)->Ok_0),
    ensures
        tokens.len() > 0,
        tokens.last().kind == TokenType::EOF,
{
    let found = scan_source(src, pos, line, start)->Ok_0;
    assert(token_matches(tokens.last(), src, found.last()));
}

/// Tokens do not overlap: a token ends before any token after it begins,
/// but for the `EOF` at the end, and no token ends before it begins.
pub proof fn lemma_spans_do_not_overlap(tokens: Seq<Token>, first: int, second: int)
    requires
        well_scanned(tokens),
        0 <= first < second < tokens.len(),
        tokens[second].kind != TokenType::EOF,
    ensures
        tokens[first].span.begin <= tokens[first].span.end,
        tokens[first].span.end <= tokens[second].span.begin,
        tokens[second].span.begin <= tokens[second].span.end,
{
    reveal(well_scanned);
}

/// No keyword reads like another.
proof fn lemma_this_and_super_are_keywords()
    ensures
        word_kind("this"@) == TokenType::This,
        word_kind("super"@) == TokenType::Super,
{
    reveal_strlit("and");
    reveal_strlit("class");
    reveal_strlit("else");
    reveal_strlit("false");
    reveal_strlit("for");
    reveal_strlit("fun");
    reveal_strlit("if");
    reveal_strlit("nil");
    reveal_strlit("or");
    reveal_strlit("print");
    reveal_strlit("return");
    reveal_strlit("super");
    reveal_strlit("this");
    assert("this"@.len() == 4);
    assert("super"@.len() == 5);
    assert("else"@[0] != "this"@[0]);
    assert("false"@[0] != "super"@[0]);
    assert("class"@[0] != "super"@[0]);
    assert("print"@[0] != "super"@[0]);
}

/// The tokens of a source of fewer than 2^32 bytes are well scanned: where
/// a token list is, token by token, what scanning the whole source gives,
/// its tokens stand in the order of the source and their kinds tell `this`,
/// `super` and the names apart.
pub proof fn lemma_tokens_are_well_scanned(tokens: Seq<Token>, src: Seq<u8>)
    requires
        src.len() <= u32::MAX,
        scan_source(src, 0, 1, 0) is Ok,
        tokens_match(tokens, src, scan_source(src, 0, 1, 0)->Ok_0),
    ensures
        well_scanned(tokens),
{
    reveal(well_scanned);
    let found = scan_source(src, 0, 1, 0)->Ok_0;
    let rest = scan_rest(src, 0, 1)->Ok_0;
    lemma_scan_rest_in_order(src, 0, 1);
    lemma_this_and_super_are_keywords();
    assert(found.len() == rest.len() + 1);
    assert forall|i: int| 0 <= i < rest.len() implies found[i] == rest[i] by {}
    assert(found[rest.len() as int]->Token_kind == TokenType::EOF);
    assert forall|i: int, j: int|
        0 <= i < j < tokens.len() && (#[trigger] tokens[j]).kind != TokenType::EOF implies (
    #[trigger] tokens[i]).span.begin < tokens[j].span.begin by {
        assert(token_matches(tokens[i], src, found[i]));
        assert(token_matches(tokens[j], src, found[j]));
        assert(j < rest.len());
        assert(token_in_order(src, rest[i], 0));
        assert(token_in_order(src, rest[j], 0));
        assert(rest[i]->Token_begin < rest[j]->Token_begin);
    }
    assert forall|i: int, j: int|
        0 <= i < j < tokens.len() && (#[trigger] tokens[j]).kind != TokenType::EOF implies (
    #[trigger] tokens[i]).span.end <= tokens[j].span.begin by {
        assert(token_matches(tokens[i], src, found[i]));
        assert(token_matches(tokens[j], src, found[j]));
        assert(j < rest.len());
        assert(token_in_order(src, rest[i], 0));
        assert(token_in_order(src, rest[j], 0));
        assert(rest[i]->Token_end <= rest[j]->Token_begin);
    }
    assert forall|i: int| 0 <= i < tokens.len() implies (#[trigger] tokens[i]).span.begin
        <= tokens[i].span.end by {
        assert(token_matches(tokens[i], src, found[i]));
        if i < rest.len() {
            assert(token_in_order(src, rest[i], 0));
        } else {
            lemma_scan_rest_end_bounds(src, 0, 1, 0);
        }
    }
    assert forall|i: int| 0 <= i < tokens.len() && ((#[trigger] tokens[i]).kind == TokenType::This
        || tokens[i].kind == TokenType::Super || tokens[i].kind == TokenType::Ident) implies tokens[i].kind
        == word_kind(tokens[i].lexeme@) by {
        assert(token_matches(tokens[i], src, found[i]));
        assert(i < rest.len());
        assert(token_in_order(src, rest[i], 0));
        encode_utf8_decode_utf8(tokens[i].lexeme@);
    }
}

} // verus!
