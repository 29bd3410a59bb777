use rust_lox::ast::{Expr, ExprLiteral, LiteralValue, Stmt, StmtClass};
use rust_lox::interpreter::error::ResolverError;
use rust_lox::interpreter::resolver::Resolver;
use rust_lox::lex::{Scanner, Span, Token, TokenType};
use rust_lox::parser::{Parser, TokenStream};
use std::collections::HashMap;

/// The depths that resolving `source` records, by the offset of each name.
fn depths(source: &str) -> HashMap<u32, usize> {
    let tokens = Scanner::new(source).scan_tokens().unwrap();
    let mut parser = Parser::new(TokenStream::new(tokens));
    let stmts = parser.parse().unwrap();
    let mut resolver = Resolver::new();
    resolver.resolve(&stmts).unwrap();
    resolver.get_locals()
}

fn refusal(source: &str) -> String {
    let tokens = Scanner::new(source).scan_tokens().unwrap();
    let mut parser = Parser::new(TokenStream::new(tokens));
    let stmts = parser.parse().unwrap();
    let mut resolver = Resolver::new();
    resolver.resolve(&stmts).unwrap_err().message()
}

#[test]
fn a_use_is_bound_to_the_innermost_declaration() {
    //            0         1         2         3
    //            0123456789012345678901234567890123456789
    let source = "{ var a; { var b; a; b; { a; } } }";
    let found = depths(source);
    assert_eq!(found.get(&18), Some(&1));
    assert_eq!(found.get(&21), Some(&0));
    assert_eq!(found.get(&26), Some(&2));
    assert_eq!(found.len(), 3);
}

#[test]
fn a_global_has_no_depth() {
    assert!(depths("var a; a; fun f() { a; }").is_empty());
}

#[test]
fn parameters_and_this_are_local() {
    //            0         1         2         3         4
    //            01234567890123456789012345678901234567890123456789
    let source = "class A { m(p) { p; this; } } fun f(q) { q = 1; }";
    let found = depths(source);
    assert_eq!(found.get(&17), Some(&0));
    assert_eq!(found.get(&20), Some(&1));
    assert_eq!(found.get(&41), Some(&0));
}

#[test]
fn super_lies_one_scope_outside_this() {
    //            0         1         2         3         4
    //            01234567890123456789012345678901234567890123456789
    let source = "class A {} class B < A { m() { super.m; this; } }";
    let found = depths(source);
    assert_eq!(found.get(&31), Some(&2));
    assert_eq!(found.get(&40), Some(&1));
}

#[test]
fn a_new_resolver_has_recorded_nothing() {
    assert!(Resolver::new().get_locals().is_empty());
}

#[test]
fn the_rules_of_scoping_are_enforced() {
    assert_eq!(refusal("return 0;"), "[line 1] Error at 'return': Can't return from top-level code.");
    assert_eq!(
        refusal("class A { init(){ return 0; } }"),
        "[line 1] Error at 'return': Can't return a value from an initializer."
    );
    assert_eq!(refusal("class A<A{}"), "[line 1] Error at 'A': A class can't inherit from itself.");
    assert_eq!(
        refusal("{ var a=a; }"),
        "[line 1] Error at 'a': Can't read local variable in its own initializer."
    );
    assert_eq!(
        refusal("{ var a; var a; }"),
        "[line 1] Error at 'a': Already a variable with this name in this scope."
    );
    assert_eq!(refusal("print this;"), "[line 1] Error at 'this': Can't use 'this' outside of a class.");
    assert_eq!(
        refusal("fun f() { super.m; }"),
        "[line 1] Error at 'super': Can't use 'super' outside of a class."
    );
    assert_eq!(
        refusal("class A { m() { super.m; } }"),
        "[line 1] Error at 'super': Can't use 'super' in a class with no superclass."
    );
}

#[test]
fn a_return_without_a_value_is_allowed_in_an_initializer() {
    assert!(depths("class A { init(){ return; } }").is_empty());
}

#[test]
fn an_internal_error_has_no_line() {
    assert_eq!(ResolverError::InternalResolverError.message(), "Internal Error");
}

#[test]
fn a_superclass_that_is_no_name_is_an_internal_error() {
    let name = Token::new(TokenType::Ident, "A", 1, Span { begin: 6, end: 7 });
    let stmts = vec![Stmt::Class(StmtClass::new(
        name,
        Some(Expr::Literal(ExprLiteral::new(LiteralValue::Nil))),
        Vec::new(),
    ))];
    let mut resolver = Resolver::new();
    assert_eq!(resolver.resolve(&stmts), Err(ResolverError::InternalResolverError));
}

/// The error of resolving `source`, and the depths recorded until it was
/// found.
fn stopped(source: &str) -> (ResolverError<'_>, HashMap<u32, usize>) {
    let tokens = Scanner::new(source).scan_tokens().unwrap();
    let mut parser = Parser::new(TokenStream::new(tokens));
    let stmts = parser.parse().unwrap();
    let mut resolver = Resolver::new();
    let error = resolver.resolve(&stmts).unwrap_err();
    (error, resolver.get_locals())
}

#[test]
fn this_outside_a_class_records_nothing() {
    let (error, found) = stopped("print this;");
    assert!(matches!(error, ResolverError::ThisOutsideClass { .. }));
    assert!(found.is_empty());
}

#[test]
fn super_outside_a_subclass_records_nothing() {
    let (error, found) = stopped("class A { m() { super.m(); } }");
    assert!(matches!(error, ResolverError::SuperInClassWithoutSuperclass { .. }));
    assert!(found.is_empty());
    let (error, found) = stopped("super.m();");
    assert!(matches!(error, ResolverError::SuperOutsideClass { .. }));
    assert!(found.is_empty());
}

#[test]
fn an_error_keeps_what_was_recorded_before_it() {
    //            0         1         2         3
    //            0123456789012345678901234567890123456789
    let source = "{ var a; a; { a; this; a; } }";
    let (error, found) = stopped(source);
    assert!(matches!(error, ResolverError::ThisOutsideClass { .. }));
    assert_eq!(found.get(&9), Some(&0));
    assert_eq!(found.get(&14), Some(&1));
    assert_eq!(found.len(), 2);
}

#[test]
fn a_second_declaration_keeps_what_was_recorded_before_it() {
    //            0         1         2
    //            012345678901234567890123456789
    let source = "{ var a; a; var a; a; }";
    let (error, found) = stopped(source);
    assert!(matches!(error, ResolverError::SameNameVariableInLocalScope { .. }));
    assert_eq!(found.get(&9), Some(&0));
    assert_eq!(found.len(), 1);
}

