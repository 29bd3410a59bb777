//! Operator precedence: the trees that the grammar gives group their
//! operators as the precedence of the language says, and differently only
//! where the source has parentheses.

use vstd::prelude::*;
use crate::ast::{ExprView, FunctionView, StmtView};
use crate::lex::{Token, TokenType};
use super::error::ParserErrorContext;
use super::grammar::{
    arguments, assignment, binary, binary_rest, block, block_items, call, call_rest, check, clip,
    class_declaration, condition, consume, declaration, desugared_for, expression, finish_call,
    for_initializer, for_statement, function, if_statement, is_operator, join, methods, operand,
    optional_expression, primary, program, remaining, statement, synchronize, unary,
    var_declaration, while_statement, at_end, level_rank,
};

verus! {

/// The binary level of an operator: 0 `or`, 1 `and`, 2 equality, 3
/// comparison, 4 term, 5 factor; -1 for a token that is no binary operator.
pub open spec fn operator_level(kind: TokenType) -> int {
    if kind == TokenType::Or {
        0
    } else if kind == TokenType::And {
        1
    } else if kind == TokenType::BangEqual || kind == TokenType::EqualEqual {
        2
    } else if kind == TokenType::Greater || kind == TokenType::GreaterEqual || kind
        == TokenType::Less || kind == TokenType::LessEqual {
        3
    } else if kind == TokenType::Minus || kind == TokenType::Plus {
        4
    } else if kind == TokenType::Slash || kind == TokenType::Star {
        5
    } else {
        -1
    }
}

/// How tightly the outermost construct of an expression binds: 0 assignment,
/// 1 to 6 the binary levels from `or` to factor, 7 unary, 8 call and property
/// access, 9 primary. A grouping is primary whatever it holds.
pub open spec fn tightness(expr: ExprView) -> int {
    match expr {
        ExprView::Assign { .. } => 0,
        ExprView::PropertySet { .. } => 0,
        ExprView::Logical { operator, .. } => operator_level(operator.kind) + 1,
        ExprView::Binary { operator, .. } => operator_level(operator.kind) + 1,
        ExprView::Unary { .. } => 7,
        ExprView::Call { .. } => 8,
        ExprView::Get { .. } => 8,
        _ => 9,
    }
}

/// Whether every expression of `list` respects precedence.
pub open spec fn all_respect(list: Seq<ExprView>) -> bool
    decreases list,
{
    forall|i: int| 0 <= i < list.len() ==> respects_precedence(#[trigger] list[i])
}

/// Whether the tree groups its operators as precedence says: below an
/// operator lies nothing that binds more loosely, and nothing that binds as
/// loosely on its right, unless it is a grouping. Binary operators of one
/// level so associate to the left.
pub open spec fn respects_precedence(expr: ExprView) -> bool
    decreases expr,
{
    match expr {
        ExprView::Grouping { value } => respects_precedence(*value),
        ExprView::Unary { operator, value } => {
            &&& operator.kind == TokenType::Bang || operator.kind == TokenType::Minus
            &&& tightness(*value) >= 7
            &&& respects_precedence(*value)
        },
        ExprView::Logical { left, operator, right } => {
            &&& 0 <= operator_level(operator.kind) <= 1
            &&& tightness(*left) >= operator_level(operator.kind) + 1
            &&& tightness(*right) >= operator_level(operator.kind) + 2
            &&& respects_precedence(*left)
            &&& respects_precedence(*right)
        },
        ExprView::Binary { left, operator, right } => {
            &&& 2 <= operator_level(operator.kind) <= 5
            &&& tightness(*left) >= operator_level(operator.kind) + 1
            &&& tightness(*right) >= operator_level(operator.kind) + 2
            &&& respects_precedence(*left)
            &&& respects_precedence(*right)
        },
        ExprView::Call { callee, arguments, .. } => {
            &&& tightness(*callee) >= 8
            &&& respects_precedence(*callee)
            &&& all_respect(arguments)
        },
        ExprView::Get { object, .. } => {
            &&& tightness(*object) >= 8
            &&& respects_precedence(*object)
        },
        ExprView::Assign { value, .. } => respects_precedence(*value),
        ExprView::PropertySet { object, value, .. } => {
            &&& tightness(*object) >= 8
            &&& respects_precedence(*object)
            &&& respects_precedence(*value)
        },
        _ => true,
    }
}

/// An operator of a binary level has that level.
proof fn lemma_operator_level(level: int, kind: TokenType)
    requires
        0 <= level <= 5,
        is_operator(level, kind),
    ensures
        operator_level(kind) == level,
{
}

/// The expression that begins at `pos` respects precedence.
pub proof fn lemma_expression_respects_precedence(tokens: Seq<Token>, pos: int)
    ensures
        expression(tokens, pos).0 is Ok ==> respects_precedence(expression(tokens, pos).0->Ok_0),
    decreases remaining(tokens, pos), 30nat,
{
    lemma_assignment(tokens, pos);
}

proof fn lemma_assignment(tokens: Seq<Token>, pos: int)
    ensures
        assignment(tokens, pos).0 is Ok ==> respects_precedence(assignment(tokens, pos).0->Ok_0),
    decreases remaining(tokens, pos), 29nat,
{
    lemma_binary(tokens, pos, 0);
    let (target, p) = binary(tokens, pos, 0);
    let after = clip(tokens, pos, p);
    if target is Ok && check(tokens, after, TokenType::Equal) {
        lemma_assignment(tokens, after + 1);
    }
}

proof fn lemma_binary(tokens: Seq<Token>, pos: int, level: int)
    requires
        0 <= level <= 5,
    ensures
        binary(tokens, pos, level).0 is Ok ==> respects_precedence(
            binary(tokens, pos, level).0->Ok_0,
        ) && tightness(binary(tokens, pos, level).0->Ok_0) >= level + 1,
    decreases remaining(tokens, pos), level_rank(level), 0nat,
{
    lemma_operand(tokens, pos, level);
    let (left, p) = operand(tokens, pos, level);
    let after = clip(tokens, pos, p);
    if left is Ok {
        lemma_binary_rest(tokens, after, level, left->Ok_0);
    }
}

proof fn lemma_operand(tokens: Seq<Token>, pos: int, level: int)
    requires
        0 <= level <= 5,
    ensures
        operand(tokens, pos, level).0 is Ok ==> respects_precedence(
            operand(tokens, pos, level).0->Ok_0,
        ) && tightness(operand(tokens, pos, level).0->Ok_0) >= level + 2,
    decreases remaining(tokens, pos), level_rank(level) - 1, 0nat,
{
    if level < 5 {
        lemma_binary(tokens, pos, level + 1);
    } else {
        lemma_unary(tokens, pos);
    }
}

proof fn lemma_binary_rest(tokens: Seq<Token>, pos: int, level: int, left: ExprView)
    requires
        0 <= level <= 5,
        respects_precedence(left),
        tightness(left) >= level + 1,
    ensures
        binary_rest(tokens, pos, level, left).0 is Ok ==> respects_precedence(
            binary_rest(tokens, pos, level, left).0->Ok_0,
        ) && tightness(binary_rest(tokens, pos, level, left).0->Ok_0) >= level + 1,
    decreases remaining(tokens, pos), level_rank(level) - 1, 1nat,
{
    if !at_end(tokens, pos) && is_operator(level, tokens[pos].kind) {
        let operator = tokens[pos];
        lemma_operator_level(level, operator.kind);
        lemma_operand(tokens, pos + 1, level);
        let (right, p) = operand(tokens, pos + 1, level);
        let after = clip(tokens, pos + 1, p);
        if right is Ok {
            let joined = join(level, left, operator, right->Ok_0);
            assert(respects_precedence(joined));
            assert(tightness(joined) == level + 1);
            lemma_binary_rest(tokens, after, level, joined);
        }
    }
}

proof fn lemma_unary(tokens: Seq<Token>, pos: int)
    ensures
        unary(tokens, pos).0 is Ok ==> respects_precedence(unary(tokens, pos).0->Ok_0)
            && tightness(unary(tokens, pos).0->Ok_0) >= 7,
    decreases remaining(tokens, pos), 16nat,
{
    if check(tokens, pos, TokenType::Bang) || check(tokens, pos, TokenType::Minus) {
        lemma_unary(tokens, pos + 1);
    } else {
        lemma_call(tokens, pos);
    }
}

proof fn lemma_call(tokens: Seq<Token>, pos: int)
    ensures
        call(tokens, pos).0 is Ok ==> respects_precedence(call(tokens, pos).0->Ok_0) && tightness(
            call(tokens, pos).0->Ok_0,
        ) >= 8,
    decreases remaining(tokens, pos), 15nat,
{
    lemma_primary(tokens, pos);
    let (callee, p) = primary(tokens, pos);
    let after = clip(tokens, pos, p);
    if callee is Ok {
        lemma_call_rest(tokens, after, callee->Ok_0);
    }
}

proof fn lemma_call_rest(tokens: Seq<Token>, pos: int, callee: ExprView)
    requires
        respects_precedence(callee),
        tightness(callee) >= 8,
    ensures
        call_rest(tokens, pos, callee).0 is Ok ==> respects_precedence(
            call_rest(tokens, pos, callee).0->Ok_0,
        ) && tightness(call_rest(tokens, pos, callee).0->Ok_0) >= 8,
    decreases remaining(tokens, pos), 14nat,
{
    if check(tokens, pos, TokenType::LeftParen) {
        lemma_finish_call(tokens, pos + 1, callee);
        let (made, p) = finish_call(tokens, pos + 1, callee);
        let after = clip(tokens, pos + 1, p);
        if made is Ok {
            lemma_call_rest(tokens, after, made->Ok_0);
        }
    } else if check(tokens, pos, TokenType::Dot) {
        let (name, after) = consume(
            tokens,
            pos + 1,
            TokenType::Ident,
            ParserErrorContext::ExpectedPropertyNameAfterDot,
        );
        if name is Ok {
            lemma_call_rest(
                tokens,
                after,
                ExprView::Get { object: Box::new(callee), name: name->Ok_0 },
            );
        }
    }
}

proof fn lemma_finish_call(tokens: Seq<Token>, pos: int, callee: ExprView)
    requires
        respects_precedence(callee),
        tightness(callee) >= 8,
    ensures
        finish_call(tokens, pos, callee).0 is Ok ==> respects_precedence(
            finish_call(tokens, pos, callee).0->Ok_0,
        ) && tightness(finish_call(tokens, pos, callee).0->Ok_0) >= 8,
    decreases remaining(tokens, pos), 36nat,
{
    assert(all_respect(Seq::<ExprView>::empty()));
    let (found, after) = if check(tokens, pos, TokenType::RightParen) {
        (Ok(Seq::empty()), pos)
    } else {
        lemma_arguments(tokens, pos, Seq::empty());
        arguments(tokens, pos, Seq::empty())
    };
    if found is Ok {
        let (paren, end) = consume(
            tokens,
            clip(tokens, pos, after),
            TokenType::RightParen,
            ParserErrorContext::ExpectedRightParenAfterArguments,
        );
        if paren is Ok {
            let made = ExprView::Call {
                callee: Box::new(callee),
                paren: paren->Ok_0,
                arguments: found->Ok_0,
            };
            assert(respects_precedence(made));
        }
    }
}

proof fn lemma_arguments(tokens: Seq<Token>, pos: int, found: Seq<ExprView>)
    requires
        all_respect(found),
    ensures
        arguments(tokens, pos, found).0 is Ok ==> all_respect(arguments(tokens, pos, found).0->Ok_0),
    decreases remaining(tokens, pos), 35nat,
{
    lemma_expression_respects_precedence(tokens, pos);
    let (argument, p) = expression(tokens, pos);
    let after = clip(tokens, pos, p);
    if argument is Ok {
        assert(all_respect(found.push(argument->Ok_0)));
        if check(tokens, after, TokenType::Comma) {
            lemma_arguments(tokens, after + 1, found.push(argument->Ok_0));
        }
    }
}

proof fn lemma_primary(tokens: Seq<Token>, pos: int)
    ensures
        primary(tokens, pos).0 is Ok ==> respects_precedence(primary(tokens, pos).0->Ok_0)
            && tightness(primary(tokens, pos).0->Ok_0) == 9,
    decreases remaining(tokens, pos), 13nat,
{
    if 0 <= pos < tokens.len() && !at_end(tokens, pos) && tokens[pos].kind
        == TokenType::LeftParen {
        lemma_expression_respects_precedence(tokens, pos + 1);
    }
}

/// Whether an expression that may be absent respects precedence.
pub open spec fn optional_respects(expr: Option<ExprView>) -> bool {
    match expr {
        Some(e) => respects_precedence(e),
        None => true,
    }
}

/// Whether every expression in the statements of `list` respects precedence.
pub open spec fn statements_respect(list: Seq<StmtView>) -> bool
    decreases list,
{
    forall|i: int| 0 <= i < list.len() ==> statement_respects(#[trigger] list[i])
}

/// Whether every expression in the bodies of the functions of `list` respects
/// precedence.
pub open spec fn functions_respect(list: Seq<FunctionView>) -> bool
    decreases list,
{
    forall|i: int| 0 <= i < list.len() ==> statements_respect((#[trigger] list[i]).body)
}

/// Whether every expression in a statement respects precedence.
pub open spec fn statement_respects(stmt: StmtView) -> bool
    decreases stmt,
{
    match stmt {
        StmtView::Block { statements } => statements_respect(statements),
        StmtView::Class { superclass, methods, .. } => optional_respects(superclass)
            && functions_respect(methods),
        StmtView::Expression { expr } => respects_precedence(expr),
        StmtView::Function { function } => statements_respect(function.body),
        StmtView::If { condition, then_branch, else_branch } => {
            &&& respects_precedence(condition)
            &&& statement_respects(*then_branch)
            &&& match else_branch {
                Some(branch) => statement_respects(*branch),
                None => true,
            }
        },
        StmtView::Print { expr } => respects_precedence(expr),
        StmtView::Return { value, .. } => optional_respects(value),
        StmtView::Var { initializer, .. } => optional_respects(initializer),
        StmtView::While { condition, body } => respects_precedence(condition)
            && statement_respects(*body),
    }
}

proof fn lemma_declaration(tokens: Seq<Token>, pos: int)
    ensures
        declaration(tokens, pos).0 is Ok ==> statement_respects(declaration(tokens, pos).0->Ok_0),
    decreases remaining(tokens, pos), 50nat,
{
    if check(tokens, pos, TokenType::Var) {
        lemma_var_declaration(tokens, pos + 1);
    } else if check(tokens, pos, TokenType::Class) {
        lemma_class_declaration(tokens, pos + 1);
    } else if check(tokens, pos, TokenType::Fun) {
        lemma_function(tokens, pos + 1, ParserErrorContext::ExpectedFunctionName);
    } else {
        lemma_statement(tokens, pos);
    }
}

proof fn lemma_class_declaration(tokens: Seq<Token>, pos: int)
    ensures
        class_declaration(tokens, pos).0 is Ok ==> statement_respects(
            class_declaration(tokens, pos).0->Ok_0,
        ),
    decreases remaining(tokens, pos), 49nat,
{
    let (name, at1) = consume(tokens, pos, TokenType::Ident, ParserErrorContext::ExpectedClassName);
    if name is Ok {
        let at2 = if check(tokens, at1, TokenType::Less) {
            consume(
                tokens,
                at1 + 1,
                TokenType::Ident,
                ParserErrorContext::ExpectedSuperclassName,
            ).1
        } else {
            at1
        };
        let (brace, at3) = consume(
            tokens,
            at2,
            TokenType::LeftBrace,
            ParserErrorContext::ExpectedLeftBraceBeforeClassBody,
        );
        if brace is Ok {
            assert(functions_respect(Seq::<FunctionView>::empty()));
            lemma_methods(tokens, at3, Seq::empty());
        }
    }
}

proof fn lemma_methods(tokens: Seq<Token>, pos: int, found: Seq<FunctionView>)
    requires
        functions_respect(found),
    ensures
        methods(tokens, pos, found).0 is Ok ==> functions_respect(
            methods(tokens, pos, found).0->Ok_0,
        ),
    decreases remaining(tokens, pos), 48nat,
{
    if !(check(tokens, pos, TokenType::RightBrace) || at_end(tokens, pos)) {
        lemma_function(tokens, pos, ParserErrorContext::ExpectedMethod);
        let (method, p) = function(tokens, pos, ParserErrorContext::ExpectedMethod);
        let after = clip(tokens, pos, p);
        if method is Ok {
            assert(functions_respect(found.push(method->Ok_0)));
            if after > pos {
                lemma_methods(tokens, after, found.push(method->Ok_0));
            }
        }
    }
}

proof fn lemma_function(tokens: Seq<Token>, pos: int, context: ParserErrorContext)
    ensures
        function(tokens, pos, context).0 is Ok ==> statements_respect(
            function(tokens, pos, context).0->Ok_0.body,
        ),
    decreases remaining(tokens, pos), 47nat,
{
    let (name, at1) = consume(tokens, pos, TokenType::Ident, context);
    if name is Ok {
        let (paren, at2) = consume(
            tokens,
            at1,
            TokenType::LeftParen,
            ParserErrorContext::ExpectedLeftParenAfterFunctionName,
        );
        if paren is Ok {
            let (params, at3) = if check(tokens, at2, TokenType::RightParen) {
                (Ok(Seq::empty()), at2)
            } else {
                super::grammar::parameters(tokens, at2, Seq::empty())
            };
            let at3 = clip(tokens, at2, at3);
            if params is Ok {
                let (close, at4) = consume(
                    tokens,
                    at3,
                    TokenType::RightParen,
                    ParserErrorContext::ExpectedRightParenAfterParameters,
                );
                if close is Ok {
                    let (brace, at5) = consume(
                        tokens,
                        at4,
                        TokenType::LeftBrace,
                        ParserErrorContext::ExpectedLeftBraceBeforeFunctionBody,
                    );
                    if brace is Ok {
                        lemma_block(tokens, at5);
                    }
                }
            }
        }
    }
}

proof fn lemma_var_declaration(tokens: Seq<Token>, pos: int)
    ensures
        var_declaration(tokens, pos).0 is Ok ==> statement_respects(
            var_declaration(tokens, pos).0->Ok_0,
        ),
    decreases remaining(tokens, pos), 41nat,
{
    let (name, at1) = consume(
        tokens,
        pos,
        TokenType::Ident,
        ParserErrorContext::InvalidAssignmentTarget,
    );
    if name is Ok && check(tokens, at1, TokenType::Equal) {
        lemma_expression_respects_precedence(tokens, at1 + 1);
    }
}

proof fn lemma_statement(tokens: Seq<Token>, pos: int)
    ensures
        statement(tokens, pos).0 is Ok ==> statement_respects(statement(tokens, pos).0->Ok_0),
    decreases remaining(tokens, pos), 44nat,
{
    if check(tokens, pos, TokenType::If) {
        lemma_if_statement(tokens, pos + 1);
    } else if check(tokens, pos, TokenType::Print) {
        lemma_expression_respects_precedence(tokens, pos + 1);
    } else if check(tokens, pos, TokenType::Return) {
        if !check(tokens, pos + 1, TokenType::Semicolon) {
            lemma_expression_respects_precedence(tokens, pos + 1);
        }
    } else if check(tokens, pos, TokenType::LeftBrace) {
        lemma_block(tokens, pos + 1);
    } else if check(tokens, pos, TokenType::While) {
        lemma_while_statement(tokens, pos + 1);
    } else if check(tokens, pos, TokenType::For) {
        lemma_for_statement(tokens, pos + 1);
    } else {
        lemma_expression_respects_precedence(tokens, pos);
    }
}

proof fn lemma_condition(tokens: Seq<Token>, pos: int, context: ParserErrorContext)
    ensures
        condition(tokens, pos, context).0 is Ok ==> respects_precedence(
            condition(tokens, pos, context).0->Ok_0,
        ),
    decreases remaining(tokens, pos), 40nat,
{
    let (paren, at1) = consume(tokens, pos, TokenType::LeftParen, context);
    if paren is Ok {
        lemma_expression_respects_precedence(tokens, at1);
    }
}

proof fn lemma_if_statement(tokens: Seq<Token>, pos: int)
    ensures
        if_statement(tokens, pos).0 is Ok ==> statement_respects(if_statement(tokens, pos).0->Ok_0),
    decreases remaining(tokens, pos), 41nat,
{
    lemma_condition(tokens, pos, ParserErrorContext::ExpectedLeftParenAfterIf);
    let (test, p) = condition(tokens, pos, ParserErrorContext::ExpectedLeftParenAfterIf);
    let at1 = clip(tokens, pos, p);
    if test is Ok && at1 > pos {
        lemma_statement(tokens, at1);
        let (then_branch, p) = statement(tokens, at1);
        let at2 = clip(tokens, at1, p);
        if then_branch is Ok && check(tokens, at2, TokenType::Else) {
            lemma_statement(tokens, at2 + 1);
        }
    }
}

proof fn lemma_block(tokens: Seq<Token>, pos: int)
    ensures
        block(tokens, pos).0 is Ok ==> statements_respect(block(tokens, pos).0->Ok_0),
    decreases remaining(tokens, pos), 56nat,
{
    assert(statements_respect(Seq::<StmtView>::empty()));
    lemma_block_items(tokens, pos, Seq::empty());
}

proof fn lemma_block_items(tokens: Seq<Token>, pos: int, found: Seq<StmtView>)
    requires
        statements_respect(found),
    ensures
        block_items(tokens, pos, found).0 is Ok ==> statements_respect(
            block_items(tokens, pos, found).0->Ok_0,
        ),
    decreases remaining(tokens, pos), 55nat,
{
    if !(check(tokens, pos, TokenType::RightBrace) || at_end(tokens, pos)) {
        lemma_declaration(tokens, pos);
        let (item, p) = declaration(tokens, pos);
        let after = clip(tokens, pos, p);
        if item is Ok {
            assert(statements_respect(found.push(item->Ok_0)));
            if after > pos {
                lemma_block_items(tokens, after, found.push(item->Ok_0));
            }
        }
    }
}

proof fn lemma_while_statement(tokens: Seq<Token>, pos: int)
    ensures
        while_statement(tokens, pos).0 is Ok ==> statement_respects(
            while_statement(tokens, pos).0->Ok_0,
        ),
    decreases remaining(tokens, pos), 41nat,
{
    lemma_condition(tokens, pos, ParserErrorContext::ExpectedLeftParenAfterWhile);
    let (test, p) = condition(tokens, pos, ParserErrorContext::ExpectedLeftParenAfterWhile);
    let at1 = clip(tokens, pos, p);
    if test is Ok && at1 > pos {
        lemma_statement(tokens, at1);
    }
}

proof fn lemma_optional_expression(tokens: Seq<Token>, pos: int, closer: TokenType)
    ensures
        optional_expression(tokens, pos, closer).0 is Ok ==> optional_respects(
            optional_expression(tokens, pos, closer).0->Ok_0,
        ),
    decreases remaining(tokens, pos), 43nat,
{
    if !check(tokens, pos, closer) {
        lemma_expression_respects_precedence(tokens, pos);
    }
}

proof fn lemma_for_initializer(tokens: Seq<Token>, pos: int)
    ensures
        for_initializer(tokens, pos).0 is Ok ==> match for_initializer(tokens, pos).0->Ok_0 {
            Some(clause) => statement_respects(clause),
            None => true,
        },
    decreases remaining(tokens, pos), 43nat,
{
    if !check(tokens, pos, TokenType::Semicolon) {
        if check(tokens, pos, TokenType::Var) {
            lemma_var_declaration(tokens, pos + 1);
        } else {
            lemma_expression_respects_precedence(tokens, pos);
        }
    }
}

/// The loop that a `for` statement stands for respects precedence where its
/// clauses and its body do.
proof fn lemma_desugared_for(
    initializer: Option<StmtView>,
    test: Option<ExprView>,
    increment: Option<ExprView>,
    body: StmtView,
)
    requires
        match initializer {
            Some(clause) => statement_respects(clause),
            None => true,
        },
        optional_respects(test),
        optional_respects(increment),
        statement_respects(body),
    ensures
        statement_respects(desugared_for(initializer, test, increment, body)),
{
    let stepped = match increment {
        Some(increment) => StmtView::Block {
            statements: seq![body, StmtView::Expression { expr: increment }],
        },
        None => body,
    };
    if increment is Some {
        assert(statements_respect(seq![body, StmtView::Expression { expr: increment->0 }]));
    }
    assert(statement_respects(stepped));
    let looped = StmtView::While {
        condition: match test {
            Some(test) => test,
            None => ExprView::Literal { value: crate::ast::LiteralView::Bool(true) },
        },
        body: Box::new(stepped),
    };
    assert(statement_respects(looped));
    if initializer is Some {
        assert(statements_respect(seq![initializer->0, looped]));
    }
}

proof fn lemma_for_statement(tokens: Seq<Token>, pos: int)
    ensures
        for_statement(tokens, pos).0 is Ok ==> statement_respects(
            for_statement(tokens, pos).0->Ok_0,
        ),
    decreases remaining(tokens, pos), 45nat,
{
    let (paren, at1) = consume(
        tokens,
        pos,
        TokenType::LeftParen,
        ParserErrorContext::ExpectedLeftParenAfterFor,
    );
    if paren is Ok {
        lemma_for_initializer(tokens, at1);
        let (initializer, at2) = for_initializer(tokens, at1);
        if initializer is Ok {
            lemma_optional_expression(tokens, at2, TokenType::Semicolon);
            let (test, at3) = optional_expression(tokens, at2, TokenType::Semicolon);
            if test is Ok {
                let (semicolon, at4) = consume(
                    tokens,
                    at3,
                    TokenType::Semicolon,
                    ParserErrorContext::ExpectedSemicolonAfterLoopCondition,
                );
                if semicolon is Ok {
                    lemma_optional_expression(tokens, at4, TokenType::RightParen);
                    let (increment, at5) = optional_expression(tokens, at4, TokenType::RightParen);
                    if increment is Ok {
                        let (close, at6) = consume(
                            tokens,
                            at5,
                            TokenType::RightParen,
                            ParserErrorContext::ExpectedRightParenAfterForClause,
                        );
                        if close is Ok && at6 > pos {
                            lemma_statement(tokens, at6);
                            let (body, p) = statement(tokens, at6);
                            if body is Ok {
                                lemma_desugared_for(
                                    initializer->Ok_0,
                                    test->Ok_0,
                                    increment->Ok_0,
                                    body->Ok_0,
                                );
                            }
                        }
                    }
                }
            }
        }
    }
}

/// Every expression of a program that parses groups its operators as
/// precedence says, and differently only where the source has parentheses:
/// printed with a pair of parentheses for every operator, the tree shows the
/// grouping that the source has by precedence and by its own parentheses.
pub proof fn lemma_program_respects_precedence(tokens: Seq<Token>, pos: int)
    ensures
        statements_respect(program(tokens, pos).0),
    decreases remaining(tokens, pos),
{
    if !at_end(tokens, pos) {
        lemma_declaration(tokens, pos);
        let (item, p) = declaration(tokens, pos);
        let after = clip(tokens, pos, p);
        match item {
            Ok(item) => {
                if after > pos {
                    lemma_program_respects_precedence(tokens, after);
                    let rest = program(tokens, after).0;
                    assert forall|i: int| 0 <= i < (seq![item] + rest).len() implies statement_respects(
                        #[trigger] (seq![item] + rest)[i],
                    ) by {
                        if i > 0 {
                            assert((seq![item] + rest)[i] == rest[i - 1]);
                        }
                    }
                } else {
                    assert(statements_respect(seq![item]));
                }
            },
            Err(_) => {
                let resumed = clip(tokens, after, synchronize(tokens, after));
                if resumed > pos {
                    lemma_program_respects_precedence(tokens, resumed);
                } else {
                    assert(statements_respect(Seq::<StmtView>::empty()));
                }
            },
        }
    } else {
        assert(statements_respect(Seq::<StmtView>::empty()));
    }
}

} // verus!
