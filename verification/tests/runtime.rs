use rust_lox::ast::{Stmt, StmtFunction};
use rust_lox::interpreter::callable::{CallType, Callable, LoxFunction};
use rust_lox::interpreter::class::{LoxClass, LoxInstance};
use rust_lox::interpreter::environment::{Environment, Environments};
use rust_lox::interpreter::error::{CallableError, ClassError, RuntimeError};
use rust_lox::interpreter::native_fun::clock::Clock;
use rust_lox::interpreter::store::Store;
use rust_lox::interpreter::value::Value;
use rust_lox::lex::{Span, Token, TokenType};
use rust_lox::names::NameTable;
use rust_lox::parser::error::{ParserError, ParserErrorContext, TokenStreamError};
use rust_lox::parser::TokenStream;
use rust_lox::text::{bytes_eq, decimal_string, slice_bytes, str_eq};

fn name(text: &'static str) -> Token<'static> {
    Token::new(TokenType::Ident, text, 3, Span { begin: 0, end: text.len() as u32 })
}

#[test]
fn only_false_and_nil_are_falsy() {
    assert!(!Value::Boolean(false).is_truthy());
    assert!(!Value::Nil.is_truthy());
    assert!(Value::Boolean(true).is_truthy());
    assert!(Value::Number(0.0f64.to_bits()).is_truthy());
    assert!(Value::String(0).is_truthy());
    assert!(Value::Instance(0).is_truthy());
    assert!(Value::Callable(Callable::Native(Clock::new())).is_truthy());
    assert_eq!(Value::Nil.not(), Value::Boolean(true));
    assert_eq!(Value::Number(0).not(), Value::Boolean(false));
    assert_eq!(Value::default(), Value::Nil);
}

#[test]
fn the_clock_takes_no_argument() {
    let clock = Clock::new();
    assert_eq!(clock.arity(), 0);
    assert_eq!(clock.to_string(), "<native fun: clock>");
    assert_eq!(Callable::Native(clock).call_type(), CallType::Function);
    assert_eq!(Callable::Function(1).call_type(), CallType::Function);
    assert_eq!(Callable::Class(1).call_type(), CallType::Class);
}

#[test]
fn a_name_table_keeps_the_last_value_of_a_name() {
    let mut table: NameTable<u32> = NameTable::new();
    assert!(!table.contains_key("a"));
    assert_eq!(table.get("a"), None);
    table.insert("a", 1);
    table.insert("b", 2);
    table.insert("a", 3);
    assert!(table.contains_key("a"));
    assert_eq!(table.get("a"), Some(&3));
    assert_eq!(table.get("b"), Some(&2));
    assert_eq!(table.get("c"), None);
}

#[test]
fn a_frame_binds_names() {
    let mut frame = Environment::new(Some(4));
    assert_eq!(frame.lookup("x"), None);
    frame.define("x", None);
    assert_eq!(frame.lookup("x"), Some(None));
    frame.define("x", Some(Value::Boolean(true)));
    assert_eq!(frame.lookup("x"), Some(Some(Value::Boolean(true))));
}

#[test]
fn reading_walks_outwards_and_a_depth_does_not() {
    let mut frames = Environments::new();
    let globals = frames.create(None);
    let middle = frames.create(Some(globals));
    let inner = frames.create(Some(middle));
    assert_eq!((globals, middle, inner), (0, 1, 2));
    assert!(frames.define(globals, "g", Some(Value::Number(1))));
    assert!(frames.define(middle, "m", None));
    assert!(!frames.define(7, "x", None));

    assert_eq!(frames.get(inner, name("g")), Ok(Value::Number(1)));
    assert_eq!(frames.get(inner, name("m")), Ok(Value::Nil));
    assert_eq!(
        frames.get(inner, name("x")),
        Err(RuntimeError::UndefinedVariable { name: name("x") })
    );
    assert_eq!(frames.binding_frame(inner, "g"), Some(globals));
    assert_eq!(frames.binding_frame(inner, "x"), None);

    assert_eq!(frames.ancestor(inner, 0), Some(inner));
    assert_eq!(frames.ancestor(inner, 2), Some(globals));
    assert_eq!(frames.ancestor(inner, 3), None);
    assert_eq!(frames.get_at(inner, 2, "g"), Some(Value::Number(1)));
    assert_eq!(frames.get_at(inner, 1, "m"), Some(Value::Nil));
    assert_eq!(frames.get_at(inner, 1, "g"), None);
    assert_eq!(frames.get_at(inner, 0, "g"), None);
    assert_eq!(frames.get_at(inner, 5, "g"), None);
}

#[test]
fn assigning_changes_the_innermost_binding() {
    let mut frames = Environments::new();
    let globals = frames.create(None);
    let inner = frames.create(Some(globals));
    frames.define(globals, "a", Some(Value::Number(1)));
    frames.define(inner, "a", Some(Value::Number(2)));
    assert_eq!(frames.assign(inner, name("a"), Value::Number(3)), Ok(()));
    assert_eq!(frames.get_at(inner, 0, "a"), Some(Value::Number(3)));
    assert_eq!(frames.get_at(inner, 1, "a"), Some(Value::Number(1)));
    assert_eq!(
        frames.assign(inner, name("b"), Value::Nil),
        Err(RuntimeError::UndefinedVariable { name: name("b") })
    );
    // At a depth the binding is made where it does not exist yet.
    assert!(frames.assign_at(inner, 1, name("b"), Value::Boolean(true)));
    assert_eq!(frames.get_at(inner, 1, "b"), Some(Value::Boolean(true)));
    assert_eq!(frames.get_at(inner, 0, "b"), None);
    assert!(!frames.assign_at(inner, 2, name("b"), Value::Nil));
}

static METHOD: StmtFunction<'static> = StmtFunction {
    name: Token { kind: TokenType::Ident, lexeme: "m", line: 1, span: Span { begin: 0, end: 1 } },
    params: Vec::new(),
    body: Vec::new(),
};

static INIT: StmtFunction<'static> = StmtFunction {
    name: Token { kind: TokenType::Ident, lexeme: "init", line: 1, span: Span { begin: 0, end: 4 } },
    params: Vec::new(),
    body: Vec::new(),
};

#[test]
fn a_function_knows_its_declaration() {
    let function = LoxFunction::new(&METHOD, 2, false);
    assert_eq!(function.arity(), 0);
    let bound = function.bind(9);
    assert_eq!(bound.closure, 9);
    assert_eq!(bound.is_initializer, false);
    assert!(std::ptr::eq(bound.declaration, &METHOD));
}

#[test]
fn methods_are_found_up_the_chain_of_superclasses() {
    let mut store = Store::new();
    let frame = store.add_frame(None);
    let mut parent = LoxClass::new("A", None);
    parent.add_method("m", LoxFunction::new(&METHOD, frame, false));
    parent.add_method("init", LoxFunction::new(&INIT, frame, true));
    assert!(parent.find_method("m").is_some());
    assert!(parent.find_method("x").is_none());
    assert_eq!(parent.name(), "A");
    assert_eq!(parent.superclass(), None);
    let a = store.add_class(parent);
    let b = store.add_class(LoxClass::new("B", Some(a)));
    assert!(std::ptr::eq(store.find_method(b, "m").unwrap().declaration, &METHOD));
    assert!(store.find_method(b, "x").is_none());
    assert!(store.find_method(9, "m").is_none());
    assert_eq!(store.arity(Callable::Class(b)), Some(0));
    assert_eq!(store.arity(Callable::Class(9)), None);
    assert_eq!(store.arity(Callable::Native(Clock::new())), Some(0));
    assert_eq!(store.arity(Callable::Function(0)), None);
}

#[test]
fn a_property_is_a_field_or_a_bound_method() {
    let mut store = Store::new();
    let frame = store.add_frame(None);
    let mut class = LoxClass::new("A", None);
    class.add_method("m", LoxFunction::new(&METHOD, frame, false));
    let a = store.add_class(class);
    let object = store.add_instance(a);
    assert_eq!(store.instances(), 1);
    assert!(store.set_field(object, name("f"), Value::Number(7)));
    assert!(!store.set_field(5, name("f"), Value::Nil));
    assert_eq!(store.get_property(object, name("f")), Ok(Value::Number(7)));
    let method = store.get_property(object, name("m")).unwrap();
    let Value::Callable(Callable::Function(at)) = method else {
        panic!("not a function");
    };
    let bound = store.function(at).unwrap();
    assert_eq!(store.get_at(bound.closure, 0, "this"), Some(Value::Instance(object)));
    assert_eq!(
        store.get_property(object, name("x")),
        Err(RuntimeError::ClassError(ClassError::UndefinedProperty { token: name("x") }))
    );
    assert_eq!(store.text_of(Value::Instance(object)), Some("A instance".to_string()));
    assert_eq!(store.text_of(Value::Callable(Callable::Class(a))), Some("A".to_string()));
    assert_eq!(store.text_of(method), Some("<fn m>".to_string()));
    assert_eq!(store.text_of(Value::Number(0)), None);
    assert_eq!(store.text_of(Value::String(3)), None);
}

#[test]
fn an_object_has_fields() {
    let mut object = LoxInstance::new(2);
    assert_eq!(object.class(), 2);
    assert_eq!(object.get("f"), None);
    object.set(name("f"), Value::Nil);
    object.set(name("f"), Value::Boolean(true));
    assert_eq!(object.get("f"), Some(Value::Boolean(true)));
}

#[test]
fn strings_are_joined_and_compared_by_their_text() {
    let mut store = Store::new();
    let a = store.add_string("ab".to_string());
    let b = store.add_string("c".to_string());
    let c = store.concat(a, b).unwrap();
    assert_eq!(store.string(c), Some(&"abc".to_string()));
    assert_eq!(store.concat(a, 9), None);
    let d = store.add_string("abc".to_string());
    assert!(store.same_text(c, d));
    assert!(!store.same_text(a, d));
    assert!(!store.same_text(a, 9));
    assert_eq!(store.text_of(Value::String(c)), Some("abc".to_string()));
}

#[test]
fn the_token_stream_moves_token_by_token() {
    let plus = Token::new(TokenType::Plus, "+", 1, Span { begin: 0, end: 1 });
    let minus = Token::new(TokenType::Minus, "-", 1, Span { begin: 1, end: 2 });
    let end = Token::new(TokenType::EOF, "", 1, Span { begin: 2, end: 2 });
    let mut stream = TokenStream::new(vec![plus, minus, end]);
    assert_eq!(stream.peek(), Ok(&plus));
    assert!(!stream.is_at_end());
    assert_eq!(stream.previous(), Err(TokenStreamError::OutOfBounds));
    assert!(stream.check(&TokenType::Plus));
    assert!(!stream.check(&TokenType::Minus));
    assert!(!stream.match_l(&[TokenType::Minus, TokenType::Star]));
    assert!(stream.match_l(&[TokenType::Minus, TokenType::Plus]));
    assert_eq!(stream.previous(), Ok(plus));
    assert_eq!(
        stream.consume(&TokenType::Plus, ParserErrorContext::ExpectedExpression),
        Err(ParserError::ExpectedExpression { token: plus })
    );
    assert_eq!(stream.consume(&TokenType::Minus, ParserErrorContext::ExpectedExpression), Ok(minus));
    assert!(stream.is_at_end());
    assert!(!stream.check(&TokenType::EOF));
    // The end is never passed.
    assert_eq!(stream.advance(), Ok(minus));
    assert_eq!(stream.peek(), Ok(&end));
    let mut empty = TokenStream::new(Vec::new());
    assert!(empty.is_at_end());
    assert_eq!(empty.peek(), Err(TokenStreamError::OutOfBounds));
    assert_eq!(empty.advance(), Err(TokenStreamError::OutOfBounds));
    assert_eq!(
        empty.consume(&TokenType::Plus, ParserErrorContext::ExpectedExpression),
        Err(ParserError::TokenStream(TokenStreamError::OutOfBounds))
    );
}

#[test]
fn numbers_are_written_in_decimal() {
    assert_eq!(decimal_string(0), "0");
    assert_eq!(decimal_string(7), "7");
    assert_eq!(decimal_string(10), "10");
    assert_eq!(decimal_string(4096), "4096");
    assert_eq!(decimal_string(u64::MAX), "18446744073709551615");
}

#[test]
fn text_is_compared_and_cut_by_bytes() {
    assert!(str_eq("init", "init"));
    assert!(!str_eq("init", "inis"));
    assert!(!str_eq("init", "in"));
    assert!(bytes_eq(b"ab", b"ab"));
    assert!(!bytes_eq(b"ab", b"ac"));
    assert_eq!(slice_bytes("héllo", 1, 3), "é");
    assert_eq!(slice_bytes("héllo", 0, 0), "");
    assert_eq!(slice_bytes("héllo", 3, 6), "llo");
}

#[test]
fn internal_errors_have_messages() {
    assert_eq!(CallableError::InternalError.message(), "Internal Error");
    assert_eq!(CallableError::ParamNotFound.message(), "Parameter not Found; Internal Error");
    assert_eq!(
        RuntimeError::EnvironmentCreationError.message(),
        "Internal Error: Error while creating environments."
    );
    assert_eq!(TokenStreamError::OutOfBounds.message(), "Internal Parser Error");
    assert_eq!(ParserError::TokenStream(TokenStreamError::OutOfBounds).message(), "Internal Parser Error");
    assert_eq!(
        RuntimeError::CallableError(CallableError::InternalError).message(),
        "Internal Error"
    );
    let _unused: Option<Stmt> = None;
}
