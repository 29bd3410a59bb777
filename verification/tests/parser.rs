use rust_lox::ast::printer::AstPrinter;
use rust_lox::ast::{
    Expr, ExprBinary, ExprLiteral, ExprVariable, LiteralValue, Stmt, StmtBlock, StmtExpression,
    StmtVar, StmtWhile,
};
use rust_lox::lex::{Scanner, Span, Token, TokenType};
use rust_lox::parser::error::{ParserError, ParserErrorContext, TokenStreamError};
use rust_lox::parser::{Parser, TokenStream};

fn number(text: &str) -> Expr<'static> {
    Expr::Literal(ExprLiteral::new(LiteralValue::Number(text.to_string())))
}

/// The prefix form of the only statement of `source`, an expression
/// statement.
fn prefix(source: &str) -> String {
    let tokens = Scanner::new(source).scan_tokens().unwrap();
    let mut parser = Parser::new(TokenStream::new(tokens));
    let stmts = parser.parse().unwrap();
    assert_eq!(stmts.len(), 1);
    match &stmts[0] {
        Stmt::Expression(node) => AstPrinter.print(&node.expr),
        other => panic!("not an expression statement: {:?}", other),
    }
}

fn parse_error(source: &str) -> String {
    let tokens = Scanner::new(source).scan_tokens().unwrap();
    let mut parser = Parser::new(TokenStream::new(tokens));
    parser.parse().unwrap_err().message()
}

#[test]
fn ts_error() {
    let input = "2 + 3";
    let mut lexer = Scanner::new(input);
    let ts = TokenStream::new(lexer.scan_tokens().unwrap());
    let res = ts.previous();

    assert_eq!(Err(TokenStreamError::OutOfBounds), res);
}

#[test]
fn recursive_descent() {
    let input = "2 + 3;";
    let mut lexer = Scanner::new(input);
    let mut parser = Parser::new(TokenStream::new(lexer.scan_tokens().unwrap()));
    let stmts = parser.parse().unwrap();

    let left = number("2");
    let span = Span { begin: 2, end: 3 };
    let operator = Token::new(TokenType::Plus, "+", 1, span);
    let right = number("3");
    let stmt = vec![Stmt::Expression(StmtExpression::new(Expr::Binary(ExprBinary::new(
        Box::new(left),
        operator,
        Box::new(right),
    ))))];

    assert_eq!(stmt, stmts);
}

#[test]
fn rd_error() {
    let input = "(1 + 1";
    let mut lexer = Scanner::new(input);
    let mut parser = Parser::new(TokenStream::new(lexer.scan_tokens().unwrap()));
    let outcome = parser.parse();
    let span = Span { begin: 5, end: 6 };
    let right = Token::new(TokenType::Number, "1", 1, span);
    assert_eq!(outcome, Err(ParserError::UnmatchedParanthesis { token: right }));
}

#[test]
fn expr_expansion() {
    let literal = ExprLiteral::new(LiteralValue::Number("42".to_string()));
    assert_eq!(literal.value, LiteralValue::Number("42".to_string()));

    let expr = Expr::Literal(literal);
    if let Expr::Literal(lit) = expr {
        assert_eq!(lit.value, LiteralValue::Number("42".to_string()));
    } else {
        panic!("not a literal");
    }
}

#[test]
fn ast_printer() {
    let star = Token::new(TokenType::Star, "*", 1, Span { begin: 0, end: 1 });
    let plus = Token::new(TokenType::Plus, "+", 1, Span { begin: 0, end: 1 });
    let add = Box::new(Expr::Binary(ExprBinary::new(
        Box::new(number("5.1")),
        plus,
        Box::new(number("3.1")),
    )));
    let expr = Expr::Binary(ExprBinary::new(add, star, Box::new(number("2.1"))));

    let mut printer = AstPrinter;
    let result = printer.print(&expr);

    assert_eq!(result, "(* (+ 5.1 3.1) 2.1)");
}

#[test]
fn operators_group_by_precedence() {
    assert_eq!(prefix("1 + 2 * 3;"), "(+ 1 (* 2 3))");
    assert_eq!(prefix("1 * 2 + 3;"), "(+ (* 1 2) 3)");
    assert_eq!(prefix("1 - 2 - 3;"), "(- (- 1 2) 3)");
    assert_eq!(prefix("(1 + 2) * 3;"), "(* (group (+ 1 2)) 3)");
    assert_eq!(prefix("a or b and c == d < e + f * -g;"), "(or a (and b (== c (< d (+ e (* f (- g)))))))");
    assert_eq!(prefix("!!a;"), "(! (! a))");
    assert_eq!(prefix("a = b = c;"), "(= a (= b c))");
}

#[test]
fn calls_and_properties_chain() {
    assert_eq!(prefix("f(1, 2)(3).g.h(x);"), "(call (. (. (call (call f 1 2) 3) g) h) x)");
    assert_eq!(prefix("a.b.c = 1;"), "(= (. a b) c 1)");
    assert_eq!(prefix("super.m(this);"), "(call (super m) this)");
}

#[test]
fn a_for_loop_is_a_while_loop() {
    let tokens = Scanner::new("for (var i = 0; i < 2; i = i + 1) print i;").scan_tokens().unwrap();
    let mut parser = Parser::new(TokenStream::new(tokens));
    let stmts = parser.parse().unwrap();
    assert_eq!(stmts.len(), 1);
    let Stmt::Block(StmtBlock { statements }) = &stmts[0] else {
        panic!("not a block");
    };
    assert_eq!(statements.len(), 2);
    assert!(matches!(&statements[0], Stmt::Var(StmtVar { initializer: Some(_), .. })));
    let Stmt::While(StmtWhile { condition, body }) = &statements[1] else {
        panic!("not a loop");
    };
    assert_eq!(AstPrinter.print(condition), "(< i 2)");
    let Stmt::Block(StmtBlock { statements }) = &**body else {
        panic!("the body is not a block");
    };
    assert!(matches!(&statements[0], Stmt::Print(_)));
    let Stmt::Expression(StmtExpression { expr }) = &statements[1] else {
        panic!("no increment");
    };
    assert_eq!(AstPrinter.print(expr), "(= i (+ i 1))");
}

#[test]
fn a_for_loop_without_clauses_loops_on_true() {
    let tokens = Scanner::new("for (;;) print 1;").scan_tokens().unwrap();
    let mut parser = Parser::new(TokenStream::new(tokens));
    let stmts = parser.parse().unwrap();
    let Stmt::While(StmtWhile { condition, .. }) = &stmts[0] else {
        panic!("not a loop");
    };
    assert_eq!(*condition, Expr::Literal(ExprLiteral::new(LiteralValue::Bool(true))));
}

#[test]
fn an_assignment_needs_a_target() {
    let tokens = Scanner::new("1 = 2;").scan_tokens().unwrap();
    let equals = tokens[1];
    let mut parser = Parser::new(TokenStream::new(tokens));
    assert_eq!(parser.parse(), Err(ParserError::InvalidAssignmentTarget { token: equals }));
    assert_eq!(parse_error("a + b = c;"), "[line 1] Error: Invalid assignment target");
}

#[test]
fn every_error_of_a_program_is_kept() {
    let source = "var = 1;\nprint 2;\nprint (3;\nvar ok = 4;\nprint ;";
    let tokens = Scanner::new(source).scan_tokens().unwrap();
    let mut parser = Parser::new(TokenStream::new(tokens));
    let outcome = parser.parse();
    let messages: Vec<String> = parser.found_errors().iter().map(|e| e.message()).collect();
    assert_eq!(
        messages,
        vec![
            "[line 1] Error: Invalid assignment target",
            "[line 3] Error: Expected ')' after expression",
            "[line 5] Error: Unexpected token: ;",
        ]
    );
    assert_eq!(outcome.unwrap_err().message(), "[line 1] Error: Invalid assignment target");
}

#[test]
fn parse_errors_have_messages() {
    assert_eq!(parse_error("print 1"), "[line 1] Error: Expected semicolon");
    assert_eq!(parse_error("if x"), "[line 1] Error: Expected '(' after if");
    assert_eq!(parse_error("class {}"), "[line 1] Error: Expected class name");
    assert_eq!(parse_error("class A < {}"), "[line 1] Error: Expected superclass name");
    assert_eq!(parse_error("fun f(a {}"), "[line 1] Error: Expected ) after parameters");
    assert_eq!(parse_error("{ print 1;"), "[line 1] Error: Expected { after block");
    assert_eq!(parse_error("print"), "[line 1] Error: Unexpected end of file");
    assert_eq!(parse_error("a.;"), "[line 1] Error: Expected property name after '.'");
    assert_eq!(parse_error("super;"), "[line 1] Error: Expected '.' after 'super'");
}

#[test]
fn a_context_makes_its_error() {
    let token = Token::new(TokenType::Ident, "x", 7, Span { begin: 1, end: 2 });
    assert_eq!(
        ParserErrorContext::ExpectedSemicolon.to_error(token),
        ParserError::ExpectedSemicolon { token }
    );
    assert_eq!(
        ParserErrorContext::TokenStream.to_error(token),
        ParserError::TokenStream(TokenStreamError::OutOfBounds)
    );
    let error = ParserErrorContext::ExpectedMethod.to_error(token);
    assert_eq!(error.context(), ParserErrorContext::ExpectedMethod);
    assert_eq!(error.token(), Some(token));
    assert_eq!(error.message(), "[line 7] Error: Expected method");
}

#[test]
fn more_than_255_arguments_are_reported_and_parsed() {
    let arguments: Vec<String> = (0..257).map(|i| i.to_string()).collect();
    let source = format!("f({});", arguments.join(", "));
    let tokens = Scanner::new(&source).scan_tokens().unwrap();
    let mut parser = Parser::new(TokenStream::new(tokens));
    let stmts = parser.parse().unwrap();
    assert_eq!(stmts.len(), 1);
    let contexts: Vec<ParserErrorContext> =
        parser.limit_reports().iter().map(|e| e.context()).collect();
    assert_eq!(
        contexts,
        vec![
            ParserErrorContext::TooManyFunctionArguments,
            ParserErrorContext::TooManyFunctionArguments
        ]
    );
}

#[test]
fn a_variable_is_a_primary() {
    let tokens = Scanner::new("x;").scan_tokens().unwrap();
    let name = tokens[0];
    let mut parser = Parser::new(TokenStream::new(tokens));
    assert_eq!(
        parser.parse(),
        Ok(vec![Stmt::Expression(StmtExpression::new(Expr::Variable(ExprVariable::new(name))))])
    );
}

#[test]
fn every_expectation_has_its_error() {
    assert_eq!(parse_error("for x"), "[line 1] Error: Expected '(' after for");
    assert_eq!(parse_error("while x"), "[line 1] Error: Expected '(' after while");
    assert_eq!(parse_error("if (x {}"), "[line 1] Error: Expected ')' after condition");
    assert_eq!(parse_error("for (;; x {}"), "[line 1] Error: Expected ')' after for clauses");
    assert_eq!(parse_error("f(1;"), "[line 1] Error: Expected ')' after for arguments");
    assert_eq!(parse_error("fun (){}"), "[line 1] Error: Expected function name");
    assert_eq!(parse_error("fun f {}"), "[line 1] Error: Expected ( after function name");
    assert_eq!(parse_error("fun f(a, ) {}"), "[line 1] Error: Expected Parameter Name");
    assert_eq!(parse_error("fun f() print 1;"), "[line 1] Error: Expected { before function body");
    assert_eq!(parse_error("for (; x) {}"), "[line 1] Error: Expected semicolon after loop condition");
    assert_eq!(parse_error("fun f() { return 1 }"), "[line 1] Error: Expected semicolon after return value");
    assert_eq!(parse_error("class A print"), "[line 1] Error: Expected { before class body");
    assert_eq!(parse_error("class A { 1 }"), "[line 1] Error: Expected method");
    assert_eq!(parse_error("class A { m() {}"), "[line 1] Error: Expected } after class body");
    assert_eq!(parse_error("super.;"), "[line 1] Error: Expected superclass method name");
    assert_eq!(parse_error("var 1;"), "[line 1] Error: Invalid assignment target");
    assert_eq!(parse_error("\n\n+;"), "[line 3] Error: Unexpected token: +");
    let token = Token::new(TokenType::Ident, "x", 2, Span { begin: 0, end: 1 });
    assert_eq!(
        ParserErrorContext::ExpectedExpression.to_error(token).message(),
        "[line 2] Error: Expected expression"
    );
}

#[test]
fn more_than_255_parameters_are_reported_and_parsed() {
    let parameters: Vec<String> = (0..256).map(|i| format!("p{i}")).collect();
    let source = format!("fun f({}) {{}}", parameters.join(", "));
    let tokens = Scanner::new(&source).scan_tokens().unwrap();
    let last = tokens[3 + 2 * 255];
    assert_eq!(last.lexeme, "p255");
    let mut parser = Parser::new(TokenStream::new(tokens));
    let stmts = parser.parse().unwrap();
    assert_eq!(stmts.len(), 1);
    assert_eq!(
        parser.limit_reports(),
        &vec![ParserError::TooManyFunctionParameters { token: last }]
    );
    assert_eq!(
        parser.limit_reports()[0].message(),
        "[line 1] Error: Can't have more than 255 parameters"
    );
}

#[test]
fn exactly_255_arguments_are_not_reported() {
    let arguments: Vec<String> = (0..255).map(|i| i.to_string()).collect();
    let source = format!("f({});", arguments.join(", "));
    let tokens = Scanner::new(&source).scan_tokens().unwrap();
    let mut parser = Parser::new(TokenStream::new(tokens));
    assert!(parser.parse().is_ok());
    assert!(parser.limit_reports().is_empty());
    assert!(parser.found_errors().is_empty());
}

#[test]
fn parsing_takes_up_again_at_a_statement() {
    let tokens = Scanner::new("print (1 2 3; var a = 1; + ; print a;").scan_tokens().unwrap();
    let mut parser = Parser::new(TokenStream::new(tokens));
    assert!(parser.parse().is_err());
    let messages: Vec<String> = parser.found_errors().iter().map(|e| e.message()).collect();
    assert_eq!(
        messages,
        vec![
            "[line 1] Error: Expected ')' after expression",
            "[line 1] Error: Unexpected token: +",
        ]
    );
}
