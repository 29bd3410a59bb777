//! The trees that the grammar gives from well-scanned tokens are neat: every
//! use of a variable has a key of its own, because it has a token of its
//! own.

use vstd::prelude::*;
use crate::ast::{ExprView, FunctionView, LiteralView, StmtView};
use crate::lex::order::well_scanned;
use crate::lex::{Token, TokenType};
use super::error::ParserErrorContext;
use super::grammar::{
    arguments, assignment, at_end, binary, binary_rest, block, block_items, call, call_rest, check,
    class_declaration, clip, condition, consume, declaration, desugared_for, expression,
    expression_statement, finish_call, for_initializer, for_statement, function, if_statement,
    is_operator, join, level_rank, methods, operand, optional_expression, parameters, primary,
    program, remaining, statement, synchronize, unary, var_declaration, while_statement,
};
use super::keys::{
    declares, disjoint, keys_of_expr, keys_of_exprs, keys_of_functions, keys_of_optional,
    keys_of_stmt, keys_of_stmts, neat_expr, neat_exprs, neat_function, neat_functions, neat_name,
    neat_stmt, neat_stmts,
};

verus! {

/// The offset of the token at `pos`.
pub open spec fn offset(tokens: Seq<Token>, pos: int) -> int {
    tokens[pos].span.begin as int
}

/// Whether the positions from `from` up to `to` hold tokens, at least one,
/// none of them the end.
pub open spec fn taken(tokens: Seq<Token>, from: int, to: int) -> bool {
    &&& 0 <= from < to <= tokens.len()
    &&& forall|p: int| from <= p < to ==> (#[trigger] tokens[p]).kind != TokenType::EOF
}

/// Whether every key lies between the offsets of the tokens at `from` and
/// right before `to`.
pub open spec fn within(keys: Set<u32>, tokens: Seq<Token>, from: int, to: int) -> bool {
    forall|key: u32| #[trigger]
        keys.contains(key) ==> offset(tokens, from) <= key <= offset(tokens, to - 1)
}

/// Whether the expression was made of the tokens from `from` up to `to`: it
/// is neat and its keys are offsets of that range.
pub open spec fn spans(expr: ExprView, tokens: Seq<Token>, from: int, to: int) -> bool {
    &&& taken(tokens, from, to)
    &&& within(keys_of_expr(expr), tokens, from, to)
    &&& neat_expr(expr)
}

/// The offsets of well-scanned tokens rise.
proof fn lemma_offsets_rise(tokens: Seq<Token>, from: int, to: int, low: int, high: int)
    requires
        well_scanned(tokens),
        taken(tokens, from, to),
        from <= low <= high < to,
    ensures
        offset(tokens, low) <= offset(tokens, high),
        low < high ==> offset(tokens, low) < offset(tokens, high),
{
    reveal(well_scanned);
    if low < high {
        assert(tokens[high].kind != TokenType::EOF);
        assert(tokens[low].span.begin < tokens[high].span.begin);
    }
}

/// What the kind of a well-scanned token says of its text.
proof fn lemma_token_text(tokens: Seq<Token>, at: int)
    requires
        well_scanned(tokens),
        0 <= at < tokens.len(),
    ensures
        tokens[at].kind == TokenType::Ident ==> neat_name(tokens[at]),
        tokens[at].kind == TokenType::This ==> tokens[at].lexeme@ == "this"@,
        tokens[at].kind == TokenType::Super ==> tokens[at].lexeme@ == "super"@,
{
    reveal(well_scanned);
}

/// The token before a token that is not the end has a smaller offset.
proof fn lemma_offset_before(tokens: Seq<Token>, low: int, high: int)
    requires
        well_scanned(tokens),
        0 <= low < high < tokens.len(),
        tokens[high].kind != TokenType::EOF,
    ensures
        offset(tokens, low) < offset(tokens, high),
{
    reveal(well_scanned);
}

/// Keys of a range of tokens are keys of any range around it.
proof fn lemma_wider(keys: Set<u32>, tokens: Seq<Token>, from: int, to: int, low: int, high: int)
    requires
        well_scanned(tokens),
        taken(tokens, low, high),
        low <= from < to <= high,
        within(keys, tokens, from, to),
    ensures
        within(keys, tokens, low, high),
{
    lemma_offsets_rise(tokens, low, high, low, from);
    lemma_offsets_rise(tokens, low, high, to - 1, high - 1);
}

/// Keys of two ranges of tokens of which one ends before the other begins
/// are apart.
proof fn lemma_apart(
    first: Set<u32>,
    second: Set<u32>,
    tokens: Seq<Token>,
    from: int,
    middle: int,
    next: int,
    to: int,
)
    requires
        well_scanned(tokens),
        taken(tokens, from, to),
        from < middle <= next < to,
        within(first, tokens, from, middle),
        within(second, tokens, next, to),
    ensures
        disjoint(first, second),
        disjoint(second, first),
{
    lemma_offsets_rise(tokens, from, to, middle - 1, next);
}

/// The expression that begins at `pos` is made of the tokens up to its end.
pub proof fn lemma_expression_spans(tokens: Seq<Token>, pos: int)
    requires
        well_scanned(tokens),
    ensures
        expression(tokens, pos).0 is Ok ==> spans(
            expression(tokens, pos).0->Ok_0,
            tokens,
            pos,
            expression(tokens, pos).1,
        ),
    decreases remaining(tokens, pos), 30nat,
{
    lemma_assignment_spans(tokens, pos);
}

proof fn lemma_assignment_spans(tokens: Seq<Token>, pos: int)
    requires
        well_scanned(tokens),
    ensures
        assignment(tokens, pos).0 is Ok ==> spans(
            assignment(tokens, pos).0->Ok_0,
            tokens,
            pos,
            assignment(tokens, pos).1,
        ),
    decreases remaining(tokens, pos), 29nat,
{
    lemma_binary_spans(tokens, pos, 0);
    let (target, p) = binary(tokens, pos, 0);
    let after = clip(tokens, pos, p);
    if target is Ok && check(tokens, after, TokenType::Equal) {
        lemma_assignment_spans(tokens, after + 1);
        let (value, p) = assignment(tokens, after + 1);
        let end = clip(tokens, after + 1, p);
        if value is Ok {
            let target = target->Ok_0;
            let value = value->Ok_0;
            assert(taken(tokens, pos, end)) by {
                assert forall|q: int| pos <= q < end implies (#[trigger] tokens[q]).kind
                    != TokenType::EOF by {}
            }
            lemma_apart(
                keys_of_expr(target),
                keys_of_expr(value),
                tokens,
                pos,
                after,
                after + 1,
                end,
            );
            lemma_wider(keys_of_expr(target), tokens, pos, after, pos, end);
            lemma_wider(keys_of_expr(value), tokens, after + 1, end, pos, end);
            match target {
                ExprView::Variable { name } => {
                    assert(keys_of_expr(target).contains(name.span.begin));
                },
                ExprView::Get { object, name } => {},
                _ => {},
            }
        }
    }
}

proof fn lemma_binary_spans(tokens: Seq<Token>, pos: int, level: int)
    requires
        well_scanned(tokens),
        0 <= level <= 5,
    ensures
        binary(tokens, pos, level).0 is Ok ==> spans(
            binary(tokens, pos, level).0->Ok_0,
            tokens,
            pos,
            binary(tokens, pos, level).1,
        ),
    decreases remaining(tokens, pos), level_rank(level), 0nat,
{
    lemma_operand_spans(tokens, pos, level);
    let (left, p) = operand(tokens, pos, level);
    let after = clip(tokens, pos, p);
    if left is Ok {
        lemma_binary_rest_spans(tokens, after, level, left->Ok_0, pos);
    }
}

proof fn lemma_operand_spans(tokens: Seq<Token>, pos: int, level: int)
    requires
        well_scanned(tokens),
        0 <= level <= 5,
    ensures
        operand(tokens, pos, level).0 is Ok ==> spans(
            operand(tokens, pos, level).0->Ok_0,
            tokens,
            pos,
            operand(tokens, pos, level).1,
        ),
    decreases remaining(tokens, pos), level_rank(level) - 1, 0nat,
{
    if level < 5 {
        lemma_binary_spans(tokens, pos, level + 1);
    } else {
        lemma_unary_spans(tokens, pos);
    }
}

proof fn lemma_binary_rest_spans(tokens: Seq<Token>, pos: int, level: int, left: ExprView, start: int)
    requires
        well_scanned(tokens),
        0 <= level <= 5,
        spans(left, tokens, start, pos),
    ensures
        binary_rest(tokens, pos, level, left).0 is Ok ==> spans(
            binary_rest(tokens, pos, level, left).0->Ok_0,
            tokens,
            start,
            binary_rest(tokens, pos, level, left).1,
        ),
    decreases remaining(tokens, pos), level_rank(level) - 1, 1nat,
{
    if !at_end(tokens, pos) && is_operator(level, tokens[pos].kind) {
        let operator = tokens[pos];
        lemma_operand_spans(tokens, pos + 1, level);
        let (right, p) = operand(tokens, pos + 1, level);
        let after = clip(tokens, pos + 1, p);
        if right is Ok {
            let right = right->Ok_0;
            let joined = join(level, left, operator, right);
            assert(taken(tokens, start, after)) by {
                assert forall|q: int| start <= q < after implies (#[trigger] tokens[q]).kind
                    != TokenType::EOF by {}
            }
            lemma_apart(keys_of_expr(left), keys_of_expr(right), tokens, start, pos, pos + 1, after);
            lemma_wider(keys_of_expr(left), tokens, start, pos, start, after);
            lemma_wider(keys_of_expr(right), tokens, pos + 1, after, start, after);
            assert(spans(joined, tokens, start, after));
            lemma_binary_rest_spans(tokens, after, level, joined, start);
        }
    }
}

proof fn lemma_unary_spans(tokens: Seq<Token>, pos: int)
    requires
        well_scanned(tokens),
    ensures
        unary(tokens, pos).0 is Ok ==> spans(
            unary(tokens, pos).0->Ok_0,
            tokens,
            pos,
            unary(tokens, pos).1,
        ),
    decreases remaining(tokens, pos), 16nat,
{
    if check(tokens, pos, TokenType::Bang) || check(tokens, pos, TokenType::Minus) {
        lemma_unary_spans(tokens, pos + 1);
        let (right, p) = unary(tokens, pos + 1);
        let after = clip(tokens, pos + 1, p);
        if right is Ok {
            assert(taken(tokens, pos, after)) by {
                assert forall|q: int| pos <= q < after implies (#[trigger] tokens[q]).kind
                    != TokenType::EOF by {}
            }
            lemma_wider(keys_of_expr(right->Ok_0), tokens, pos + 1, after, pos, after);
        }
    } else {
        lemma_call_spans(tokens, pos);
    }
}

proof fn lemma_call_spans(tokens: Seq<Token>, pos: int)
    requires
        well_scanned(tokens),
    ensures
        call(tokens, pos).0 is Ok ==> spans(call(tokens, pos).0->Ok_0, tokens, pos, call(tokens, pos).1),
    decreases remaining(tokens, pos), 15nat,
{
    lemma_primary_spans(tokens, pos);
    let (callee, p) = primary(tokens, pos);
    let after = clip(tokens, pos, p);
    if callee is Ok {
        lemma_call_rest_spans(tokens, after, callee->Ok_0, pos);
    }
}

proof fn lemma_call_rest_spans(tokens: Seq<Token>, pos: int, callee: ExprView, start: int)
    requires
        well_scanned(tokens),
        spans(callee, tokens, start, pos),
    ensures
        call_rest(tokens, pos, callee).0 is Ok ==> spans(
            call_rest(tokens, pos, callee).0->Ok_0,
            tokens,
            start,
            call_rest(tokens, pos, callee).1,
        ),
    decreases remaining(tokens, pos), 14nat,
{
    if check(tokens, pos, TokenType::LeftParen) {
        lemma_finish_call_spans(tokens, pos + 1, callee, start);
        let (made, p) = finish_call(tokens, pos + 1, callee);
        let after = clip(tokens, pos + 1, p);
        if made is Ok {
            lemma_call_rest_spans(tokens, after, made->Ok_0, start);
        }
    } else if check(tokens, pos, TokenType::Dot) {
        let (name, after) = consume(
            tokens,
            pos + 1,
            TokenType::Ident,
            ParserErrorContext::ExpectedPropertyNameAfterDot,
        );
        if name is Ok {
            let got = ExprView::Get { object: Box::new(callee), name: name->Ok_0 };
            assert(taken(tokens, start, after)) by {
                assert forall|q: int| start <= q < after implies (#[trigger] tokens[q]).kind
                    != TokenType::EOF by {}
            }
            lemma_wider(keys_of_expr(callee), tokens, start, pos, start, after);
            lemma_call_rest_spans(tokens, after, got, start);
        }
    }
}

/// Whether the expressions of `list` were made of tokens from `from` up to
/// `to`: they are neat, no two of them share a key, and their keys are
/// offsets of that range.
pub open spec fn list_spans(list: Seq<ExprView>, tokens: Seq<Token>, from: int, to: int) -> bool {
    &&& taken(tokens, from, to)
    &&& within(keys_of_exprs(list), tokens, from, to)
    &&& neat_exprs(list)
}

proof fn lemma_finish_call_spans(tokens: Seq<Token>, pos: int, callee: ExprView, start: int)
    requires
        well_scanned(tokens),
        spans(callee, tokens, start, pos - 1),
        check(tokens, pos - 1, TokenType::LeftParen),
    ensures
        finish_call(tokens, pos, callee).0 is Ok ==> spans(
            finish_call(tokens, pos, callee).0->Ok_0,
            tokens,
            start,
            finish_call(tokens, pos, callee).1,
        ),
    decreases remaining(tokens, pos), 36nat,
{
    let open = pos - 1;
    assert(taken(tokens, open, pos));
    assert(neat_exprs(Seq::<ExprView>::empty()));
    assert(within(keys_of_exprs(Seq::<ExprView>::empty()), tokens, open, pos));
    let (found, after) = if check(tokens, pos, TokenType::RightParen) {
        (Ok(Seq::empty()), pos)
    } else {
        lemma_arguments_spans(tokens, pos, Seq::empty(), open);
        arguments(tokens, pos, Seq::empty())
    };
    let after = clip(tokens, pos, after);
    if found is Ok {
        let (paren, end) = consume(
            tokens,
            after,
            TokenType::RightParen,
            ParserErrorContext::ExpectedRightParenAfterArguments,
        );
        if paren is Ok {
            let list = found->Ok_0;
            assert(list_spans(list, tokens, open, after));
            assert(taken(tokens, start, end)) by {
                assert forall|q: int| start <= q < end implies (#[trigger] tokens[q]).kind
                    != TokenType::EOF by {}
            }
            lemma_apart(keys_of_expr(callee), keys_of_exprs(list), tokens, start, open, open, after);
            lemma_wider(keys_of_expr(callee), tokens, start, open, start, end);
            lemma_wider(keys_of_exprs(list), tokens, open, after, start, end);
        }
    }
}

proof fn lemma_arguments_spans(tokens: Seq<Token>, pos: int, found: Seq<ExprView>, first: int)
    requires
        well_scanned(tokens),
        list_spans(found, tokens, first, pos),
    ensures
        arguments(tokens, pos, found).0 is Ok ==> list_spans(
            arguments(tokens, pos, found).0->Ok_0,
            tokens,
            first,
            arguments(tokens, pos, found).1,
        ),
    decreases remaining(tokens, pos), 35nat,
{
    lemma_expression_spans(tokens, pos);
    let (argument, p) = expression(tokens, pos);
    let after = clip(tokens, pos, p);
    if argument is Ok {
        let argument = argument->Ok_0;
        let more = found.push(argument);
        assert(taken(tokens, first, after)) by {
            assert forall|q: int| first <= q < after implies (#[trigger] tokens[q]).kind
                != TokenType::EOF by {}
        }
        lemma_apart(keys_of_exprs(found), keys_of_expr(argument), tokens, first, pos, pos, after);
        lemma_wider(keys_of_exprs(found), tokens, first, pos, first, after);
        lemma_wider(keys_of_expr(argument), tokens, pos, after, first, after);
        assert(neat_exprs(more)) by {
            assert forall|i: int, j: int| 0 <= i < j < more.len() implies disjoint(
                #[trigger] keys_of_expr(more[i]),
                #[trigger] keys_of_expr(more[j]),
            ) by {
                if j < found.len() {
                    assert(more[i] == found[i] && more[j] == found[j]);
                } else {
                    assert(more[i] == found[i]);
                    assert forall|key: u32| #[trigger]
                        keys_of_expr(found[i]).contains(key) implies keys_of_exprs(found).contains(
                        key,
                    ) by {}
                }
            }
        }
        assert(within(keys_of_exprs(more), tokens, first, after)) by {
            assert forall|key: u32| #[trigger] keys_of_exprs(more).contains(key) implies offset(
                tokens,
                first,
            ) <= key <= offset(tokens, after - 1) by {
                let i = choose|i: int| 0 <= i < more.len() && keys_of_expr(#[trigger] more[i]).contains(key);
                if i < found.len() {
                    assert(more[i] == found[i]);
                    assert(keys_of_exprs(found).contains(key));
                }
            }
        }
        if check(tokens, after, TokenType::Comma) {
            assert(taken(tokens, first, after + 1)) by {
                assert forall|q: int| first <= q < after + 1 implies (#[trigger] tokens[q]).kind
                    != TokenType::EOF by {}
            }
            lemma_wider(keys_of_exprs(more), tokens, first, after, first, after + 1);
            lemma_arguments_spans(tokens, after + 1, more, first);
        }
    }
}

proof fn lemma_primary_spans(tokens: Seq<Token>, pos: int)
    requires
        well_scanned(tokens),
    ensures
        primary(tokens, pos).0 is Ok ==> spans(
            primary(tokens, pos).0->Ok_0,
            tokens,
            pos,
            primary(tokens, pos).1,
        ),
    decreases remaining(tokens, pos), 13nat,
{
    if 0 <= pos < tokens.len() && !at_end(tokens, pos) {
        let token = tokens[pos];
        let next = pos + 1;
        assert(taken(tokens, pos, next));
        lemma_token_text(tokens, pos);
        if token.kind == TokenType::LeftParen {
            lemma_expression_spans(tokens, next);
            let (inner, p) = expression(tokens, next);
            let after = clip(tokens, next, p);
            if inner is Ok {
                let (paren, end) = consume(
                    tokens,
                    after,
                    TokenType::RightParen,
                    ParserErrorContext::UnmatchedParanthesis,
                );
                if paren is Ok {
                    assert(taken(tokens, pos, end)) by {
                        assert forall|q: int| pos <= q < end implies (#[trigger] tokens[q]).kind
                            != TokenType::EOF by {}
                    }
                    lemma_wider(keys_of_expr(inner->Ok_0), tokens, next, after, pos, end);
                }
            }
        } else if token.kind == TokenType::Super {
            let (dot, after) = consume(
                tokens,
                next,
                TokenType::Dot,
                ParserErrorContext::ExpectedDotAfterSuper,
            );
            if dot is Ok {
                let (method, end) = consume(
                    tokens,
                    after,
                    TokenType::Ident,
                    ParserErrorContext::ExpectedSuperclassMethodName,
                );
                if method is Ok {
                    assert(taken(tokens, pos, end));
                    lemma_offsets_rise(tokens, pos, end, pos, end - 1);
                }
            }
        }
    }
}

/// Whether the statement was made of the tokens from `from` up to `to`.
pub open spec fn stmt_spans(stmt: StmtView, tokens: Seq<Token>, from: int, to: int) -> bool {
    &&& taken(tokens, from, to)
    &&& within(keys_of_stmt(stmt), tokens, from, to)
    &&& neat_stmt(stmt)
}

/// Whether the statements of `list` were made of tokens from `from` up to
/// `to`.
pub open spec fn stmts_span(list: Seq<StmtView>, tokens: Seq<Token>, from: int, to: int) -> bool {
    &&& taken(tokens, from, to)
    &&& within(keys_of_stmts(list), tokens, from, to)
    &&& neat_stmts(list)
}

/// Whether the function was made of the tokens from `from` up to `to`.
pub open spec fn function_spans(function: FunctionView, tokens: Seq<Token>, from: int, to: int) -> bool {
    &&& taken(tokens, from, to)
    &&& within(keys_of_stmts(function.body), tokens, from, to)
    &&& neat_function(function)
    &&& neat_name(function.name)
}

/// Whether the functions of `list` were made of tokens from `from` up to
/// `to`.
pub open spec fn functions_span(list: Seq<FunctionView>, tokens: Seq<Token>, from: int, to: int) -> bool {
    &&& taken(tokens, from, to)
    &&& within(keys_of_functions(list), tokens, from, to)
    &&& neat_functions(list)
}

/// A range of tokens none of which is the end.
proof fn lemma_taken(tokens: Seq<Token>, from: int, to: int)
    requires
        0 <= from < to <= tokens.len(),
        forall|p: int| from <= p < to ==> (#[trigger] tokens[p]).kind != TokenType::EOF,
    ensures
        taken(tokens, from, to),
{
}

proof fn lemma_declaration_spans(tokens: Seq<Token>, pos: int)
    requires
        well_scanned(tokens),
    ensures
        declaration(tokens, pos).0 is Ok ==> stmt_spans(
            declaration(tokens, pos).0->Ok_0,
            tokens,
            pos,
            declaration(tokens, pos).1,
        ),
    decreases remaining(tokens, pos), 50nat,
{
    if check(tokens, pos, TokenType::Var) {
        lemma_var_declaration_spans(tokens, pos + 1);
        let (made, end) = var_declaration(tokens, pos + 1);
        if made is Ok {
            lemma_taken(tokens, pos, end);
            lemma_wider(keys_of_stmt(made->Ok_0), tokens, pos + 1, end, pos, end);
        }
    } else if check(tokens, pos, TokenType::Class) {
        lemma_class_declaration_spans(tokens, pos + 1);
        let (made, end) = class_declaration(tokens, pos + 1);
        if made is Ok {
            lemma_taken(tokens, pos, end);
            lemma_wider(keys_of_stmt(made->Ok_0), tokens, pos + 1, end, pos, end);
        }
    } else if check(tokens, pos, TokenType::Fun) {
        lemma_function_spans(tokens, pos + 1, ParserErrorContext::ExpectedFunctionName);
        let (made, end) = function(tokens, pos + 1, ParserErrorContext::ExpectedFunctionName);
        if made is Ok {
            lemma_taken(tokens, pos, end);
            lemma_wider(keys_of_stmts(made->Ok_0.body), tokens, pos + 1, end, pos, end);
        }
    } else {
        lemma_statement_spans(tokens, pos);
    }
}

#[verifier::rlimit(100)]
#[verifier::spinoff_prover]
proof fn lemma_class_declaration_spans(tokens: Seq<Token>, pos: int)
    requires
        well_scanned(tokens),
    ensures
        class_declaration(tokens, pos).0 is Ok ==> stmt_spans(
            class_declaration(tokens, pos).0->Ok_0,
            tokens,
            pos,
            class_declaration(tokens, pos).1,
        ),
    decreases remaining(tokens, pos), 49nat,
{
    let (name, at1) = consume(tokens, pos, TokenType::Ident, ParserErrorContext::ExpectedClassName);
    if name is Ok {
        lemma_token_text(tokens, pos);
        let (superclass, at2) = if check(tokens, at1, TokenType::Less) {
            let (parent, p) = consume(
                tokens,
                at1 + 1,
                TokenType::Ident,
                ParserErrorContext::ExpectedSuperclassName,
            );
            match parent {
                Err(e) => (Err(e), p),
                Ok(parent) => (Ok(Some(ExprView::Variable { name: parent })), p),
            }
        } else {
            (Ok(None), at1)
        };
        if superclass is Ok {
            let (brace, at3) = consume(
                tokens,
                at2,
                TokenType::LeftBrace,
                ParserErrorContext::ExpectedLeftBraceBeforeClassBody,
            );
            if brace is Ok {
                lemma_taken(tokens, at2, at3);
                assert(neat_functions(Seq::<FunctionView>::empty()));
                assert(within(keys_of_functions(Seq::<FunctionView>::empty()), tokens, at2, at3));
                lemma_methods_spans(tokens, at3, Seq::empty(), at2);
                let (found, p) = methods(tokens, at3, Seq::empty());
                let at4 = clip(tokens, at3, p);
                if found is Ok {
                    let (close, end) = consume(
                        tokens,
                        at4,
                        TokenType::RightBrace,
                        ParserErrorContext::ExpectedRightBraceAfterClassBody,
                    );
                    if close is Ok {
                        let list = found->Ok_0;
                        lemma_taken(tokens, pos, end);
                        lemma_wider(keys_of_functions(list), tokens, at2, at4, pos, end);
                        if superclass->Ok_0 is Some {
                            lemma_offsets_rise(tokens, pos, end, pos, at1 + 1);
                            lemma_offsets_rise(tokens, pos, end, at1 + 1, end - 1);
                            lemma_offsets_rise(tokens, pos, end, at1 + 1, at2);
                            assert(within(keys_of_optional(superclass->Ok_0), tokens, at1 + 1, at2));
                            lemma_taken(tokens, at1 + 1, at4);
                            lemma_apart(
                                keys_of_optional(superclass->Ok_0),
                                keys_of_functions(list),
                                tokens,
                                at1 + 1,
                                at2,
                                at2,
                                at4,
                            );
                        }
                    }
                }
            }
        }
    }
}

proof fn lemma_methods_spans(tokens: Seq<Token>, pos: int, found: Seq<FunctionView>, first: int)
    requires
        well_scanned(tokens),
        functions_span(found, tokens, first, pos),
    ensures
        methods(tokens, pos, found).0 is Ok ==> functions_span(
            methods(tokens, pos, found).0->Ok_0,
            tokens,
            first,
            methods(tokens, pos, found).1,
        ),
    decreases remaining(tokens, pos), 48nat,
{
    if !(check(tokens, pos, TokenType::RightBrace) || at_end(tokens, pos)) {
        lemma_function_spans(tokens, pos, ParserErrorContext::ExpectedMethod);
        let (method, p) = function(tokens, pos, ParserErrorContext::ExpectedMethod);
        let after = clip(tokens, pos, p);
        if method is Ok {
            let method = method->Ok_0;
            let more = found.push(method);
            lemma_taken(tokens, first, after);
            lemma_apart(
                keys_of_functions(found),
                keys_of_stmts(method.body),
                tokens,
                first,
                pos,
                pos,
                after,
            );
            lemma_wider(keys_of_functions(found), tokens, first, pos, first, after);
            lemma_wider(keys_of_stmts(method.body), tokens, pos, after, first, after);
            assert(neat_functions(more)) by {
                assert forall|i: int, j: int| 0 <= i < j < more.len() implies disjoint(
                    #[trigger] keys_of_stmts(more[i].body),
                    #[trigger] keys_of_stmts(more[j].body),
                ) by {
                    if j < found.len() {
                        assert(more[i] == found[i] && more[j] == found[j]);
                    } else {
                        assert(more[i] == found[i]);
                        assert forall|key: u32| #[trigger]
                            keys_of_stmts(found[i].body).contains(key) implies keys_of_functions(
                            found,
                        ).contains(key) by {}
                    }
                }
            }
            assert(within(keys_of_functions(more), tokens, first, after)) by {
                assert forall|key: u32| #[trigger] keys_of_functions(more).contains(key) implies offset(
                    tokens,
                    first,
                ) <= key <= offset(tokens, after - 1) by {
                    let i = choose|i: int|
                        0 <= i < more.len() && keys_of_stmts((#[trigger] more[i]).body).contains(key);
                    if i < found.len() {
                        assert(more[i] == found[i]);
                        assert(keys_of_functions(found).contains(key));
                    }
                }
            }
            if after > pos {
                lemma_methods_spans(tokens, after, more, first);
            }
        }
    }
}

/// The parameters of a list are names.
proof fn lemma_parameters_are_names(tokens: Seq<Token>, pos: int, found: Seq<Token>)
    requires
        well_scanned(tokens),
        forall|i: int| 0 <= i < found.len() ==> neat_name(#[trigger] found[i]),
    ensures
        parameters(tokens, pos, found).0 is Ok ==> {
            &&& forall|i: int|
                0 <= i < parameters(tokens, pos, found).0->Ok_0.len() ==> neat_name(
                    #[trigger] parameters(tokens, pos, found).0->Ok_0[i],
                )
            &&& pos < parameters(tokens, pos, found).1 <= tokens.len()
            &&& forall|q: int|
                pos <= q < parameters(tokens, pos, found).1 ==> (#[trigger] tokens[q]).kind
                    != TokenType::EOF
        },
    decreases remaining(tokens, pos), 46nat,
{
    let (name, after) = consume(
        tokens,
        pos,
        TokenType::Ident,
        ParserErrorContext::ExpectedParameterName,
    );
    if name is Ok {
        lemma_token_text(tokens, pos);
        let more = found.push(name->Ok_0);
        assert forall|i: int| 0 <= i < more.len() implies neat_name(#[trigger] more[i]) by {
            if i < found.len() {
                assert(more[i] == found[i]);
            }
        }
        if check(tokens, after, TokenType::Comma) {
            lemma_parameters_are_names(tokens, after + 1, more);
        }
    }
}

#[verifier::rlimit(100)]
#[verifier::spinoff_prover]
proof fn lemma_function_spans(tokens: Seq<Token>, pos: int, context: ParserErrorContext)
    requires
        well_scanned(tokens),
    ensures
        function(tokens, pos, context).0 is Ok ==> function_spans(
            function(tokens, pos, context).0->Ok_0,
            tokens,
            pos,
            function(tokens, pos, context).1,
        ),
    decreases remaining(tokens, pos), 47nat,
{
    let (name, at1) = consume(tokens, pos, TokenType::Ident, context);
    if name is Ok {
        lemma_token_text(tokens, pos);
        let (paren, at2) = consume(
            tokens,
            at1,
            TokenType::LeftParen,
            ParserErrorContext::ExpectedLeftParenAfterFunctionName,
        );
        if paren is Ok {
            let (params, p) = if check(tokens, at2, TokenType::RightParen) {
                (Ok(Seq::empty()), at2)
            } else {
                lemma_parameters_are_names(tokens, at2, Seq::empty());
                parameters(tokens, at2, Seq::empty())
            };
            let at3 = clip(tokens, at2, p);
            if params is Ok {
                let (close, at4) = consume(
                    tokens,
                    at3,
                    TokenType::RightParen,
                    ParserErrorContext::ExpectedRightParenAfterParameters,
                );
                if close is Ok {
                    let (brace, at5) = consume(
                        tokens,
                        at4,
                        TokenType::LeftBrace,
                        ParserErrorContext::ExpectedLeftBraceBeforeFunctionBody,
                    );
                    if brace is Ok {
                        lemma_block_spans(tokens, at5);
                        let (body, p) = block(tokens, at5);
                        let end = clip(tokens, at5, p);
                        if body is Ok {
                            lemma_taken(tokens, pos, end);
                            lemma_wider(keys_of_stmts(body->Ok_0), tokens, at5 - 1, end, pos, end);
                        }
                    }
                }
            }
        }
    }
}

proof fn lemma_var_declaration_spans(tokens: Seq<Token>, pos: int)
    requires
        well_scanned(tokens),
    ensures
        var_declaration(tokens, pos).0 is Ok ==> stmt_spans(
            var_declaration(tokens, pos).0->Ok_0,
            tokens,
            pos,
            var_declaration(tokens, pos).1,
        ),
    decreases remaining(tokens, pos), 41nat,
{
    let (name, at1) = consume(
        tokens,
        pos,
        TokenType::Ident,
        ParserErrorContext::InvalidAssignmentTarget,
    );
    if name is Ok {
        lemma_token_text(tokens, pos);
        let (made, end) = var_declaration(tokens, pos);
        if check(tokens, at1, TokenType::Equal) {
            lemma_expression_spans(tokens, at1 + 1);
            let (value, p) = expression(tokens, at1 + 1);
            if value is Ok && made is Ok {
                lemma_taken(tokens, pos, end);
                lemma_wider(keys_of_expr(value->Ok_0), tokens, at1 + 1, clip(tokens, at1 + 1, p), pos, end);
            }
        } else if made is Ok {
            lemma_taken(tokens, pos, end);
        }
    }
}

/// A statement that is no declaration by the grammar is none.
#[verifier::rlimit(100)]
#[verifier::spinoff_prover]
proof fn lemma_statement_spans(tokens: Seq<Token>, pos: int)
    requires
        well_scanned(tokens),
    ensures
        statement(tokens, pos).0 is Ok ==> stmt_spans(
            statement(tokens, pos).0->Ok_0,
            tokens,
            pos,
            statement(tokens, pos).1,
        ) && !declares(statement(tokens, pos).0->Ok_0),
    decreases remaining(tokens, pos), 44nat,
{
    let (made, end) = statement(tokens, pos);
    if check(tokens, pos, TokenType::If) {
        lemma_if_statement_spans(tokens, pos + 1);
        if made is Ok {
            lemma_taken(tokens, pos, end);
            lemma_wider(keys_of_stmt(made->Ok_0), tokens, pos + 1, end, pos, end);
        }
    } else if check(tokens, pos, TokenType::Print) {
        lemma_expression_spans(tokens, pos + 1);
        let (value, p) = expression(tokens, pos + 1);
        if made is Ok {
            lemma_taken(tokens, pos, end);
            lemma_wider(keys_of_expr(value->Ok_0), tokens, pos + 1, clip(tokens, pos + 1, p), pos, end);
        }
    } else if check(tokens, pos, TokenType::Return) {
        if !check(tokens, pos + 1, TokenType::Semicolon) {
            lemma_expression_spans(tokens, pos + 1);
            let (value, p) = expression(tokens, pos + 1);
            if made is Ok {
                lemma_taken(tokens, pos, end);
                lemma_wider(
                    keys_of_expr(value->Ok_0),
                    tokens,
                    pos + 1,
                    clip(tokens, pos + 1, p),
                    pos,
                    end,
                );
            }
        } else if made is Ok {
            lemma_taken(tokens, pos, end);
        }
    } else if check(tokens, pos, TokenType::LeftBrace) {
        lemma_block_spans(tokens, pos + 1);
    } else if check(tokens, pos, TokenType::While) {
        lemma_while_statement_spans(tokens, pos + 1);
        if made is Ok {
            lemma_taken(tokens, pos, end);
            lemma_wider(keys_of_stmt(made->Ok_0), tokens, pos + 1, end, pos, end);
        }
    } else if check(tokens, pos, TokenType::For) {
        lemma_for_statement_spans(tokens, pos + 1);
        if made is Ok {
            lemma_taken(tokens, pos, end);
            lemma_wider(keys_of_stmt(made->Ok_0), tokens, pos + 1, end, pos, end);
        }
    } else {
        lemma_expression_statement_spans(tokens, pos);
    }
}

proof fn lemma_expression_statement_spans(tokens: Seq<Token>, pos: int)
    requires
        well_scanned(tokens),
    ensures
        expression_statement(tokens, pos).0 is Ok ==> stmt_spans(
            expression_statement(tokens, pos).0->Ok_0,
            tokens,
            pos,
            expression_statement(tokens, pos).1,
        ),
    decreases remaining(tokens, pos), 41nat,
{
    lemma_expression_spans(tokens, pos);
    let (value, p) = expression(tokens, pos);
    let (made, end) = expression_statement(tokens, pos);
    if made is Ok {
        lemma_taken(tokens, pos, end);
        lemma_wider(keys_of_expr(value->Ok_0), tokens, pos, clip(tokens, pos, p), pos, end);
    }
}

/// A condition in parentheses is made of the tokens between them.
proof fn lemma_condition_spans(tokens: Seq<Token>, pos: int, context: ParserErrorContext)
    requires
        well_scanned(tokens),
    ensures
        condition(tokens, pos, context).0 is Ok ==> spans(
            condition(tokens, pos, context).0->Ok_0,
            tokens,
            pos,
            condition(tokens, pos, context).1,
        ),
    decreases remaining(tokens, pos), 40nat,
{
    let (paren, at1) = consume(tokens, pos, TokenType::LeftParen, context);
    if paren is Ok {
        lemma_expression_spans(tokens, at1);
        let (test, p) = expression(tokens, at1);
        let (made, end) = condition(tokens, pos, context);
        if made is Ok {
            lemma_taken(tokens, pos, end);
            lemma_wider(keys_of_expr(test->Ok_0), tokens, at1, clip(tokens, at1, p), pos, end);
        }
    }
}

#[verifier::rlimit(100)]
#[verifier::spinoff_prover]
proof fn lemma_if_statement_spans(tokens: Seq<Token>, pos: int)
    requires
        well_scanned(tokens),
    ensures
        if_statement(tokens, pos).0 is Ok ==> stmt_spans(
            if_statement(tokens, pos).0->Ok_0,
            tokens,
            pos,
            if_statement(tokens, pos).1,
        ),
    decreases remaining(tokens, pos), 41nat,
{
    lemma_condition_spans(tokens, pos, ParserErrorContext::ExpectedLeftParenAfterIf);
    let (test, p) = condition(tokens, pos, ParserErrorContext::ExpectedLeftParenAfterIf);
    let at1 = clip(tokens, pos, p);
    if test is Ok && at1 > pos {
        lemma_statement_spans(tokens, at1);
        let (then_branch, p) = statement(tokens, at1);
        let at2 = clip(tokens, at1, p);
        if then_branch is Ok {
            let (made, end) = if_statement(tokens, pos);
            if check(tokens, at2, TokenType::Else) {
                lemma_statement_spans(tokens, at2 + 1);
                let (else_branch, p) = statement(tokens, at2 + 1);
                if else_branch is Ok {
                    lemma_taken(tokens, pos, end);
                    lemma_taken(tokens, at1, end);
                    lemma_taken(tokens, pos, at2);
                    lemma_apart(
                        keys_of_expr(test->Ok_0),
                        keys_of_stmt(then_branch->Ok_0),
                        tokens,
                        pos,
                        at1,
                        at1,
                        at2,
                    );
                    lemma_apart(
                        keys_of_expr(test->Ok_0),
                        keys_of_stmt(else_branch->Ok_0),
                        tokens,
                        pos,
                        at1,
                        at2 + 1,
                        end,
                    );
                    lemma_apart(
                        keys_of_stmt(then_branch->Ok_0),
                        keys_of_stmt(else_branch->Ok_0),
                        tokens,
                        at1,
                        at2,
                        at2 + 1,
                        end,
                    );
                    lemma_wider(keys_of_expr(test->Ok_0), tokens, pos, at1, pos, end);
                    lemma_wider(keys_of_stmt(then_branch->Ok_0), tokens, at1, at2, pos, end);
                    lemma_wider(keys_of_stmt(else_branch->Ok_0), tokens, at2 + 1, end, pos, end);
                }
            } else {
                lemma_taken(tokens, pos, end);
                lemma_apart(
                    keys_of_expr(test->Ok_0),
                    keys_of_stmt(then_branch->Ok_0),
                    tokens,
                    pos,
                    at1,
                    at1,
                    end,
                );
                lemma_wider(keys_of_expr(test->Ok_0), tokens, pos, at1, pos, end);
                lemma_wider(keys_of_stmt(then_branch->Ok_0), tokens, at1, at2, pos, end);
            }
        }
    }
}

/// A block is made of the tokens from its opening brace on.
proof fn lemma_block_spans(tokens: Seq<Token>, pos: int)
    requires
        well_scanned(tokens),
        check(tokens, pos - 1, TokenType::LeftBrace),
    ensures
        block(tokens, pos).0 is Ok ==> stmts_span(
            block(tokens, pos).0->Ok_0,
            tokens,
            pos - 1,
            block(tokens, pos).1,
        ),
    decreases remaining(tokens, pos), 56nat,
{
    lemma_taken(tokens, pos - 1, pos);
    assert(neat_stmts(Seq::<StmtView>::empty()));
    assert(within(keys_of_stmts(Seq::<StmtView>::empty()), tokens, pos - 1, pos));
    lemma_block_items_spans(tokens, pos, Seq::empty(), pos - 1);
    let (found, p) = block_items(tokens, pos, Seq::empty());
    let after = clip(tokens, pos, p);
    let (made, end) = block(tokens, pos);
    if made is Ok {
        lemma_taken(tokens, pos - 1, end);
        lemma_wider(keys_of_stmts(found->Ok_0), tokens, pos - 1, after, pos - 1, end);
    }
}

proof fn lemma_block_items_spans(tokens: Seq<Token>, pos: int, found: Seq<StmtView>, first: int)
    requires
        well_scanned(tokens),
        stmts_span(found, tokens, first, pos),
    ensures
        block_items(tokens, pos, found).0 is Ok ==> stmts_span(
            block_items(tokens, pos, found).0->Ok_0,
            tokens,
            first,
            block_items(tokens, pos, found).1,
        ),
    decreases remaining(tokens, pos), 55nat,
{
    if !(check(tokens, pos, TokenType::RightBrace) || at_end(tokens, pos)) {
        lemma_declaration_spans(tokens, pos);
        let (item, p) = declaration(tokens, pos);
        let after = clip(tokens, pos, p);
        if item is Ok {
            let item = item->Ok_0;
            let more = found.push(item);
            lemma_taken(tokens, first, after);
            lemma_apart(keys_of_stmts(found), keys_of_stmt(item), tokens, first, pos, pos, after);
            lemma_wider(keys_of_stmts(found), tokens, first, pos, first, after);
            lemma_wider(keys_of_stmt(item), tokens, pos, after, first, after);
            lemma_pushed_stmts(found, item, tokens, first, after);
            if after > pos {
                lemma_block_items_spans(tokens, after, more, first);
            }
        }
    }
}

/// One more statement, apart from those of a neat list, keeps the list neat.
proof fn lemma_pushed_stmts(found: Seq<StmtView>, item: StmtView, tokens: Seq<Token>, from: int, to: int)
    requires
        neat_stmts(found),
        neat_stmt(item),
        disjoint(keys_of_stmts(found), keys_of_stmt(item)),
        within(keys_of_stmts(found), tokens, from, to),
        within(keys_of_stmt(item), tokens, from, to),
    ensures
        neat_stmts(found.push(item)),
        within(keys_of_stmts(found.push(item)), tokens, from, to),
{
    let more = found.push(item);
    assert forall|i: int, j: int| 0 <= i < j < more.len() implies disjoint(
        #[trigger] keys_of_stmt(more[i]),
        #[trigger] keys_of_stmt(more[j]),
    ) by {
        if j < found.len() {
            assert(more[i] == found[i] && more[j] == found[j]);
        } else {
            assert(more[i] == found[i]);
            assert forall|key: u32| #[trigger]
                keys_of_stmt(found[i]).contains(key) implies keys_of_stmts(found).contains(key) by {}
        }
    }
    assert forall|i: int| 0 <= i < more.len() implies neat_stmt(#[trigger] more[i]) by {
        if i < found.len() {
            assert(more[i] == found[i]);
        }
    }
    assert forall|key: u32| #[trigger] keys_of_stmts(more).contains(key) implies offset(tokens, from)
        <= key <= offset(tokens, to - 1) by {
        let i = choose|i: int| 0 <= i < more.len() && keys_of_stmt(#[trigger] more[i]).contains(key);
        if i < found.len() {
            assert(more[i] == found[i]);
            assert(keys_of_stmts(found).contains(key));
        }
    }
}

proof fn lemma_while_statement_spans(tokens: Seq<Token>, pos: int)
    requires
        well_scanned(tokens),
    ensures
        while_statement(tokens, pos).0 is Ok ==> stmt_spans(
            while_statement(tokens, pos).0->Ok_0,
            tokens,
            pos,
            while_statement(tokens, pos).1,
        ),
    decreases remaining(tokens, pos), 41nat,
{
    lemma_condition_spans(tokens, pos, ParserErrorContext::ExpectedLeftParenAfterWhile);
    let (test, p) = condition(tokens, pos, ParserErrorContext::ExpectedLeftParenAfterWhile);
    let at1 = clip(tokens, pos, p);
    if test is Ok && at1 > pos {
        lemma_statement_spans(tokens, at1);
        let (body, p) = statement(tokens, at1);
        let end = clip(tokens, at1, p);
        if body is Ok {
            lemma_taken(tokens, pos, end);
            lemma_apart(keys_of_expr(test->Ok_0), keys_of_stmt(body->Ok_0), tokens, pos, at1, at1, end);
            lemma_wider(keys_of_expr(test->Ok_0), tokens, pos, at1, pos, end);
            lemma_wider(keys_of_stmt(body->Ok_0), tokens, at1, end, pos, end);
        }
    }
}

/// The keys of two statements in a list are the keys of the one and of the
/// other; and the list is neat where they are neat and apart.
proof fn lemma_pair(first: StmtView, second: StmtView)
    ensures
        keys_of_stmts(seq![first, second]) =~= keys_of_stmt(first) + keys_of_stmt(second),
        neat_stmt(first) && neat_stmt(second) && disjoint(
            keys_of_stmt(first),
            keys_of_stmt(second),
        ) ==> neat_stmts(seq![first, second]),
{
    let list = seq![first, second];
    assert(list[0] == first && list[1] == second);
    assert forall|key: u32| keys_of_stmts(list).contains(key) <==> (keys_of_stmt(first)
        + keys_of_stmt(second)).contains(key) by {
        if keys_of_stmts(list).contains(key) {
            let i = choose|i: int| 0 <= i < list.len() && keys_of_stmt(#[trigger] list[i]).contains(key);
            assert(i == 0 || i == 1);
        }
        if keys_of_stmt(first).contains(key) {
            assert(keys_of_stmt(list[0]).contains(key));
        }
        if keys_of_stmt(second).contains(key) {
            assert(keys_of_stmt(list[1]).contains(key));
        }
    }
    if neat_stmt(first) && neat_stmt(second) && disjoint(keys_of_stmt(first), keys_of_stmt(second)) {
        assert forall|i: int, j: int| 0 <= i < j < list.len() implies disjoint(
            #[trigger] keys_of_stmt(list[i]),
            #[trigger] keys_of_stmt(list[j]),
        ) by {
            assert(i == 0 && j == 1);
        }
    }
}

proof fn lemma_for_initializer_spans(tokens: Seq<Token>, pos: int)
    requires
        well_scanned(tokens),
    ensures
        for_initializer(tokens, pos).0 is Ok ==> {
            &&& taken(tokens, pos, for_initializer(tokens, pos).1)
            &&& match for_initializer(tokens, pos).0->Ok_0 {
                Some(clause) => stmt_spans(clause, tokens, pos, for_initializer(tokens, pos).1),
                None => true,
            }
        },
    decreases remaining(tokens, pos), 43nat,
{
    let (made, end) = for_initializer(tokens, pos);
    if !check(tokens, pos, TokenType::Semicolon) {
        if check(tokens, pos, TokenType::Var) {
            lemma_var_declaration_spans(tokens, pos + 1);
            if made is Ok {
                lemma_taken(tokens, pos, end);
                lemma_wider(keys_of_stmt(made->Ok_0->0), tokens, pos + 1, end, pos, end);
            }
        } else {
            lemma_expression_statement_spans(tokens, pos);
        }
    }
}

proof fn lemma_optional_expression_spans(tokens: Seq<Token>, pos: int, closer: TokenType)
    requires
        well_scanned(tokens),
    ensures
        optional_expression(tokens, pos, closer).0 is Ok ==> match optional_expression(
            tokens,
            pos,
            closer,
        ).0->Ok_0 {
            Some(e) => spans(e, tokens, pos, optional_expression(tokens, pos, closer).1),
            None => optional_expression(tokens, pos, closer).1 == pos,
        },
    decreases remaining(tokens, pos), 43nat,
{
    if !check(tokens, pos, closer) {
        lemma_expression_spans(tokens, pos);
    }
}

#[verifier::rlimit(100)]
#[verifier::spinoff_prover]
proof fn lemma_for_statement_spans(tokens: Seq<Token>, pos: int)
    requires
        well_scanned(tokens),
    ensures
        for_statement(tokens, pos).0 is Ok ==> stmt_spans(
            for_statement(tokens, pos).0->Ok_0,
            tokens,
            pos,
            for_statement(tokens, pos).1,
        ) && !declares(for_statement(tokens, pos).0->Ok_0),
    decreases remaining(tokens, pos), 45nat,
{
    let (paren, at1) = consume(
        tokens,
        pos,
        TokenType::LeftParen,
        ParserErrorContext::ExpectedLeftParenAfterFor,
    );
    if paren is Ok {
        lemma_for_initializer_spans(tokens, at1);
        let (initializer, at2) = for_initializer(tokens, at1);
        if initializer is Ok {
            lemma_optional_expression_spans(tokens, at2, TokenType::Semicolon);
            let (test, at3) = optional_expression(tokens, at2, TokenType::Semicolon);
            if test is Ok {
                let (semicolon, at4) = consume(
                    tokens,
                    at3,
                    TokenType::Semicolon,
                    ParserErrorContext::ExpectedSemicolonAfterLoopCondition,
                );
                if semicolon is Ok {
                    lemma_optional_expression_spans(tokens, at4, TokenType::RightParen);
                    let (increment, at5) = optional_expression(tokens, at4, TokenType::RightParen);
                    if increment is Ok {
                        let (close, at6) = consume(
                            tokens,
                            at5,
                            TokenType::RightParen,
                            ParserErrorContext::ExpectedRightParenAfterForClause,
                        );
                        if close is Ok && at6 > pos {
                            lemma_statement_spans(tokens, at6);
                            let (body, p) = statement(tokens, at6);
                            let end = clip(tokens, at6, p);
                            if body is Ok {
                                lemma_taken(tokens, pos, end);
                                lemma_desugared_for_spans(
                                    tokens,
                                    pos,
                                    at1,
                                    at2,
                                    at3,
                                    at4,
                                    at5,
                                    at6,
                                    end,
                                    initializer->Ok_0,
                                    test->Ok_0,
                                    increment->Ok_0,
                                    body->Ok_0,
                                );
                            }
                        }
                    }
                }
            }
        }
    }
}

/// The loop that a `for` statement stands for is neat where its clauses and
/// its body are made of ranges of tokens that follow each other.
#[verifier::rlimit(100)]
#[verifier::spinoff_prover]
proof fn lemma_desugared_for_spans(
    tokens: Seq<Token>,
    pos: int,
    at1: int,
    at2: int,
    at3: int,
    at4: int,
    at5: int,
    at6: int,
    end: int,
    initializer: Option<StmtView>,
    test: Option<ExprView>,
    increment: Option<ExprView>,
    body: StmtView,
)
    requires
        well_scanned(tokens),
        taken(tokens, pos, end),
        pos < at1 < at2 <= at3 < at4 <= at5 < at6 < end,
        match initializer {
            Some(clause) => stmt_spans(clause, tokens, at1, at2),
            None => true,
        },
        match test {
            Some(e) => spans(e, tokens, at2, at3),
            None => true,
        },
        match increment {
            Some(e) => spans(e, tokens, at4, at5),
            None => true,
        },
        stmt_spans(body, tokens, at6, end),
        !declares(body),
    ensures
        stmt_spans(desugared_for(initializer, test, increment, body), tokens, pos, end),
        !declares(desugared_for(initializer, test, increment, body)),
{
    lemma_wider(keys_of_stmt(body), tokens, at6, end, pos, end);
    let stepped = match increment {
        Some(increment) => StmtView::Block {
            statements: seq![body, StmtView::Expression { expr: increment }],
        },
        None => body,
    };
    // The body with the increment: from the increment to the end.
    let low = if increment is Some {
        at4
    } else {
        at6
    };
    lemma_taken(tokens, low, end);
    if let Some(e) = increment {
        let step = StmtView::Expression { expr: e };
        lemma_pair(body, step);
        lemma_apart(keys_of_expr(e), keys_of_stmt(body), tokens, at4, at5, at6, end);
        lemma_wider(keys_of_expr(e), tokens, at4, at5, at4, end);
        lemma_wider(keys_of_stmt(body), tokens, at6, end, at4, end);
        assert(neat_stmts(seq![body, step]));
    }
    assert(stmt_spans(stepped, tokens, low, end));
    assert(!declares(stepped));
    // The loop: from the condition to the end.
    let condition = match test {
        Some(test) => test,
        None => ExprView::Literal { value: LiteralView::Bool(true) },
    };
    let looped = StmtView::While { condition, body: Box::new(stepped) };
    let loop_low = if test is Some {
        at2
    } else {
        low
    };
    lemma_taken(tokens, loop_low, end);
    lemma_wider(keys_of_stmt(stepped), tokens, low, end, loop_low, end);
    if let Some(e) = test {
        lemma_apart(keys_of_expr(e), keys_of_stmt(stepped), tokens, at2, at3, low, end);
        lemma_wider(keys_of_expr(e), tokens, at2, at3, at2, end);
    }
    assert(stmt_spans(looped, tokens, loop_low, end));
    // The whole: from the initializer to the end.
    lemma_wider(keys_of_stmt(looped), tokens, loop_low, end, pos, end);
    if let Some(clause) = initializer {
        lemma_pair(clause, looped);
        lemma_taken(tokens, at1, end);
        lemma_apart(keys_of_stmt(clause), keys_of_stmt(looped), tokens, at1, at2, loop_low, end);
        lemma_wider(keys_of_stmt(clause), tokens, at1, at2, pos, end);
        assert(neat_stmts(seq![clause, looped]));
    }
}

/// Whether every key is the offset of a token at or after `pos` that is not
/// the end.
pub open spec fn keys_from(keys: Set<u32>, tokens: Seq<Token>, pos: int) -> bool {
    forall|key: u32| #[trigger]
        keys.contains(key) ==> 0 <= pos < tokens.len() && tokens[pos].kind != TokenType::EOF
            && offset(tokens, pos) <= key
}

/// The statements of a program that is parsed from well-scanned tokens are
/// neat: every use of a variable in them has a key of its own, no declared
/// name is `super` or `this`, and no branch and no body of a loop is itself
/// a declaration.
pub proof fn lemma_program_is_neat(tokens: Seq<Token>, pos: int)
    requires
        well_scanned(tokens),
        0 <= pos,
    ensures
        neat_stmts(program(tokens, pos).0),
        keys_from(keys_of_stmts(program(tokens, pos).0), tokens, pos),
    decreases remaining(tokens, pos),
{
    let list = program(tokens, pos).0;
    if at_end(tokens, pos) {
        assert(list =~= Seq::<StmtView>::empty());
    } else {
        lemma_declaration_spans(tokens, pos);
        let (item, p) = declaration(tokens, pos);
        let after = clip(tokens, pos, p);
        match item {
            Ok(item) => {
                if after > pos {
                    lemma_program_is_neat(tokens, after);
                    let rest = program(tokens, after).0;
                    assert(list == seq![item] + rest);
                    assert(list[0] == item);
                    assert forall|i: int| 1 <= i < list.len() implies list[i] == rest[i - 1] by {}
                    assert forall|i: int| 0 <= i < list.len() implies neat_stmt(
                        #[trigger] list[i],
                    ) by {
                        if i > 0 {
                            assert(list[i] == rest[i - 1]);
                        }
                    }
                    assert forall|i: int, j: int| 0 <= i < j < list.len() implies disjoint(
                        #[trigger] keys_of_stmt(list[i]),
                        #[trigger] keys_of_stmt(list[j]),
                    ) by {
                        assert(list[j] == rest[j - 1]);
                        if i > 0 {
                            assert(list[i] == rest[i - 1]);
                        } else {
                            assert forall|key: u32|
                                !(#[trigger] keys_of_stmt(list[0]).contains(key) && keys_of_stmt(
                                    list[j],
                                ).contains(key)) by {
                                if keys_of_stmt(list[0]).contains(key) && keys_of_stmt(
                                    list[j],
                                ).contains(key) {
                                    assert(keys_of_stmts(rest).contains(key));
                                    assert(tokens[after].kind != TokenType::EOF);
                                    lemma_offset_before(tokens, after - 1, after);
                                }
                            }
                        }
                    }
                    assert forall|key: u32| #[trigger] keys_of_stmts(list).contains(key) implies 0
                        <= pos < tokens.len() && tokens[pos].kind != TokenType::EOF && offset(
                        tokens,
                        pos,
                    ) <= key by {
                        let i = choose|i: int|
                            0 <= i < list.len() && keys_of_stmt(#[trigger] list[i]).contains(key);
                        if i > 0 {
                            assert(list[i] == rest[i - 1]);
                            assert(keys_of_stmts(rest).contains(key));
                            lemma_offset_before(tokens, pos, after);
                        }
                    }
                } else {
                    assert(list =~= seq![item]);
                }
            },
            Err(_) => {
                let resumed = clip(tokens, after, synchronize(tokens, after));
                if resumed > pos {
                    lemma_program_is_neat(tokens, resumed);
                    assert forall|key: u32| #[trigger] keys_of_stmts(list).contains(key) implies 0
                        <= pos < tokens.len() && tokens[pos].kind != TokenType::EOF && offset(
                        tokens,
                        pos,
                    ) <= key by {
                        lemma_offset_before(tokens, pos, resumed);
                    }
                } else {
                    assert(list =~= Seq::<StmtView>::empty());
                }
            },
        }
    }
}

} // verus!
