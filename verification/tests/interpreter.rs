use rust_lox::ast::{Expr, ExprGrouping, ExprLiteral, ExprUnary, LiteralValue, Stmt, StmtPrint};
use rust_lox::interpreter::error::RuntimeError;
use rust_lox::interpreter::machine::{Action, Arithmetic, Comparison, Event};
use rust_lox::interpreter::resolver::Resolver;
use rust_lox::interpreter::value::Value;
use rust_lox::interpreter::Interpreter;
use rust_lox::lex::{Scanner, Span, Token, TokenType};
use rust_lox::parser::{Parser, TokenStream};
use std::collections::HashMap;

/// What the host answers to an action that asks for a number or a truth
/// value.
fn answer(action: &Action) -> Event {
    match action {
        Action::ParseNumber(text) => Event::Number(text.parse::<f64>().unwrap_or(0.0).to_bits()),
        Action::Negate(a) => Event::Number((-f64::from_bits(*a)).to_bits()),
        Action::Calculate(operation, a, b) => {
            let (a, b) = (f64::from_bits(*a), f64::from_bits(*b));
            Event::Number(
                match operation {
                    Arithmetic::Add => a + b,
                    Arithmetic::Subtract => a - b,
                    Arithmetic::Multiply => a * b,
                    Arithmetic::Divide => a / b,
                }
                .to_bits(),
            )
        }
        Action::Compare(comparison, a, b) => {
            let (a, b) = (f64::from_bits(*a), f64::from_bits(*b));
            Event::Boolean(match comparison {
                Comparison::Greater => a > b,
                Comparison::GreaterEqual => a >= b,
                Comparison::Less => a < b,
                Comparison::LessEqual => a <= b,
                Comparison::Equal => a == b,
                Comparison::NotEqual => a != b,
            })
        }
        Action::Clock => Event::Number(1.5f64.to_bits()),
        _ => Event::Proceed,
    }
}

/// Runs the statements on a machine and gives the lines printed and the
/// error, if any.
fn drive<'a>(interpreter: &mut Interpreter<'a>, stmts: &'a Vec<Stmt<'a>>) -> (Vec<String>, Option<RuntimeError<'a>>) {
    interpreter.interpret(stmts);
    let mut printed = Vec::new();
    let mut event = Event::Proceed;
    loop {
        let action = interpreter.run(event, 64);
        match action {
            Action::Finished => return (printed, None),
            Action::Failed(error) => return (printed, Some(error)),
            Action::Print(value) => {
                printed.push(match value {
                    Value::Number(bits) => format!("{}", f64::from_bits(bits)),
                    other => interpreter.text_of(other).unwrap(),
                });
                event = Event::Proceed;
            }
            other => event = answer(&other),
        }
    }
}

/// Scans, parses, resolves and runs a program; gives the lines printed and
/// the message of the first error.
fn run(source: &str) -> (Vec<String>, Option<String>) {
    let mut scanner = Scanner::new(source);
    let tokens = match scanner.scan_tokens() {
        Ok(tokens) => tokens,
        Err(error) => return (Vec::new(), Some(format!("{:?}", error))),
    };
    let mut parser = Parser::new(TokenStream::new(tokens));
    let stmts = match parser.parse() {
        Ok(stmts) => stmts,
        Err(error) => return (Vec::new(), Some(error.message())),
    };
    let mut resolver = Resolver::new();
    if let Err(error) = resolver.resolve(&stmts) {
        return (Vec::new(), Some(error.message()));
    }
    let mut interpreter = Interpreter::new(resolver.get_locals());
    let (printed, error) = drive(&mut interpreter, &stmts);
    (printed, error.map(|e| e.message()))
}

fn lines(source: &str) -> Vec<String> {
    let (printed, error) = run(source);
    assert_eq!(error, None);
    printed
}

fn failure(source: &str) -> String {
    run(source).1.expect("the program fails")
}

fn number(text: &str) -> Expr<'static> {
    Expr::Literal(ExprLiteral::new(LiteralValue::Number(text.to_string())))
}

/// The value that printing `expr` hands to the host.
fn evaluate<'a>(stmts: &'a Vec<Stmt<'a>>) -> Result<Value, RuntimeError<'a>> {
    let mut interpreter = Interpreter::new(HashMap::new());
    interpreter.interpret(stmts);
    let mut event = Event::Proceed;
    loop {
        match interpreter.step(event) {
            Action::Print(value) => return Ok(value),
            Action::Failed(error) => return Err(error),
            Action::Finished => panic!("nothing was printed"),
            other => event = answer(&other),
        }
    }
}

#[test]
fn literal() {
    let stmts = vec![Stmt::Print(StmtPrint::new(number("1")))];
    assert_eq!(evaluate(&stmts), Ok(Value::Number(1.0f64.to_bits())));
}

#[test]
fn grouping() {
    let stmts = vec![Stmt::Print(StmtPrint::new(Expr::Grouping(ExprGrouping::new(Box::new(
        number("1"),
    )))))];
    assert_eq!(evaluate(&stmts), Ok(Value::Number(1.0f64.to_bits())));
}

#[test]
fn unary() {
    let span = Span { begin: 0, end: 1 };
    let token = Token::new(TokenType::Minus, "-", 1, span);
    let stmts = vec![Stmt::Print(StmtPrint::new(Expr::Unary(ExprUnary::new(
        token,
        Box::new(number("1")),
    ))))];
    assert_eq!(evaluate(&stmts), Ok(Value::Number((-1.0f64).to_bits())));
}

#[test]
fn error() {
    let span = Span { begin: 0, end: 1 };
    let token = Token::new(TokenType::Minus, "-", 1, span);
    let stmts = vec![Stmt::Print(StmtPrint::new(Expr::Unary(ExprUnary::new(
        token,
        Box::new(Expr::Literal(ExprLiteral::new(LiteralValue::String("1".to_string())))),
    ))))];
    assert_eq!(evaluate(&stmts), Err(RuntimeError::NumberOperand { operator: token }));
}

#[test]
fn evaluator_visitor() {
    assert_eq!(lines("print (5 + 3) * 2;"), vec!["16"]);
}

#[test]
fn arithmetic_follows_precedence() {
    assert_eq!(lines("print 1 + 2 * 3;"), vec!["7"]);
}

#[test]
fn a_block_shadows_and_restores() {
    assert_eq!(lines("var a=1; { var a=2; print a; } print a;"), vec!["2", "1"]);
}

#[test]
fn recursion_computes_fibonacci() {
    assert_eq!(
        lines("fun fib(n){ if (n<2) return n; return fib(n-1)+fib(n-2); } print fib(10);"),
        vec!["55"]
    );
}

#[test]
fn super_calls_the_method_of_the_superclass() {
    assert_eq!(
        lines("class A{ m(){print \"A\";} } class B<A{ m(){ super.m(); print \"B\"; } } B().m();"),
        vec!["A", "B"]
    );
}

#[test]
fn an_initializer_sets_fields() {
    assert_eq!(lines("class C{ init(x){ this.x=x; } } var c=C(7); print c.x;"), vec!["7"]);
}

#[test]
fn a_function_sees_the_scope_of_its_declaration() {
    assert_eq!(lines("var x=\"a\"; fun f(){ print x; } { var x=\"b\"; f(); }"), vec!["a"]);
}

#[test]
fn counters_are_closures_of_their_own() {
    let program = "fun makeCounter(){ var n=0; fun c(){ n=n+1; return n; } return c; }
        var a = makeCounter(); var b = makeCounter();
        print a(); print a(); print a(); print b(); print a();";
    assert_eq!(lines(program), vec!["1", "2", "3", "1", "4"]);
}

#[test]
fn a_detached_method_keeps_its_receiver() {
    let program = "class P { init(n){ this.n = n; } name(){ return this.n; } }
        var p = P(\"first\"); var q = P(\"second\");
        var m = p.name; print m(); var k = q.name; print k(); print m();";
    assert_eq!(lines(program), vec!["first", "second", "first"]);
}

#[test]
fn a_subclass_inherits_and_super_keeps_this() {
    let program = "class A { who(){ return this.tag; } hello(){ return \"A\"; } }
        class B < A { who(){ return super.who(); } }
        var b = B(); b.tag = \"b\"; print b.who(); print b.hello();";
    assert_eq!(lines(program), vec!["b", "A"]);
}

#[test]
fn return_unwinds_to_the_nearest_function_only() {
    let program = "fun find(){ for (var i = 0; i < 10; i = i + 1) { { if (i == 3) return i; } } return -1; }
        fun outer(){ var r = find(); print \"after\"; return r + 1; }
        print outer();";
    assert_eq!(lines(program), vec!["after", "4"]);
}

#[test]
fn negating_a_string_fails() {
    assert_eq!(failure("print -\"x\";"), "[line 1] Operand must be a number.");
}

#[test]
fn subtracting_from_a_string_fails() {
    assert_eq!(failure("\"a\" - 1;"), "[line 1] Operands must be a number.");
}

#[test]
fn return_at_top_level_is_refused() {
    assert!(failure("return 0;").contains("Can't return from top-level code."));
}

#[test]
fn an_initializer_cannot_return_a_value() {
    assert!(failure("class A { init(){ return 0; } }")
        .contains("Can't return a value from an initializer."));
}

#[test]
fn a_class_cannot_inherit_from_itself() {
    assert!(failure("class A<A{}").contains("A class can't inherit from itself."));
}

#[test]
fn a_local_cannot_initialise_itself() {
    assert!(failure("{ var a=a; }")
        .contains("Can't read local variable in its own initializer."));
}

#[test]
fn logical_operators_give_an_operand() {
    assert_eq!(
        lines("print nil or \"yes\"; print 0 and \"zero is truthy\"; print false and 1; print 1 or 2;"),
        vec!["yes", "zero is truthy", "false", "1"]
    );
}

#[test]
fn values_print_as_the_language_says() {
    let program = "class K {} fun f(){} print K; print K(); print f; print clock; print nil; print true; print 2.5; print \"s\" + \"t\";";
    assert_eq!(
        lines(program),
        vec!["K", "K instance", "<fn f>", "<native fun: clock>", "nil", "true", "2.5", "st"]
    );
}

#[test]
fn equality_is_by_value_or_identity() {
    let program = "class K {} var a = K(); var b = K(); fun f(){}
        print a == a; print a == b; print f == f; print \"x\" == \"x\"; print 1 == 1; print nil == false; print 1 != 2;";
    assert_eq!(lines(program), vec!["true", "false", "true", "true", "true", "false", "true"]);
}

#[test]
fn runtime_errors_name_what_went_wrong() {
    assert_eq!(failure("print x;"), "[line 1] Undefined Variable 'x'.");
    assert_eq!(failure("x = 1;"), "[line 1] Undefined Variable 'x'.");
    assert_eq!(failure("var f = 1; f();"), "[line 1] Can only call functions and classes.");
    assert_eq!(failure("fun f(a){} f();"), "[line 1] Expected 1 arguments but got 0.");
    assert_eq!(failure("print 1 + \"a\";"), "[line 1] Operands must be two numbers or two strings.");
    assert_eq!(failure("var a = 1; a.b;"), "[line 1] Only instances have properties.");
    assert_eq!(failure("class K{} K().b;"), "[line 1] Undefined property b.");
    assert_eq!(failure("var n = 1; class K < n {}"), "[line 1] Superclass must be a class.");
}

#[test]
fn an_uninitialised_variable_reads_as_nil() {
    assert_eq!(lines("var x; print x; { var y; print y; }"), vec!["nil", "nil"]);
}

#[test]
fn the_clock_is_read_by_the_host() {
    assert_eq!(lines("print clock();"), vec!["1.5"]);
}

#[test]
fn while_and_for_loops_run() {
    assert_eq!(
        lines("var i = 0; while (i < 3) { print i; i = i + 1; } for (;i < 5;) { print i; i = i + 1; }"),
        vec!["0", "1", "2", "3", "4"]
    );
}

#[test]
fn every_resolved_variable_is_found_where_it_was_bound() {
    let program = "var g = \"global\";
        fun outer(a) {
            var b = \"b\";
            fun middle(c) {
                var d = \"d\";
                fun inner(e) {
                    { var f = \"f\"; { print a + b + c + d + e + f + g; } }
                    d = d + \"!\";
                    return d;
                }
                return inner;
            }
            return middle;
        }
        var first = outer(\"a\")(\"c\");
        print first(\"e\"); print first(\"E\");
        var second = outer(\"A\")(\"C\");
        print second(\"e\");";
    assert_eq!(
        lines(program),
        vec!["abcdefglobal", "d!", "abcd!Efglobal", "d!!", "AbCdefglobal", "d!"]
    );
}

#[test]
fn this_and_super_are_found_in_nested_scopes() {
    let program = "class A { name() { return \"A\"; } }
        class B < A {
            name() {
                fun helper() { { return super.name() + this.tag; } }
                return helper();
            }
        }
        var b = B(); b.tag = \"+\"; print b.name();";
    assert_eq!(lines(program), vec!["A+"]);
}

#[test]
fn an_initializer_always_gives_the_object() {
    let program = "class P { init(n) { this.n = n; if (n > 1) return; this.small = true; } }
        var p = P(2); print p.n; var q = P(1); print q.small; print p.init(5).n;";
    assert_eq!(lines(program), vec!["2", "true", "5"]);
}

#[test]
fn a_callee_is_checked_before_its_arguments_are_evaluated() {
    let (printed, error) = run("fun noisy() { print \"evaluated\"; return 1; } var f = 1; f(noisy());");
    assert_eq!(printed, Vec::<String>::new());
    assert_eq!(error, Some("[line 1] Can only call functions and classes.".to_string()));
}

#[test]
fn a_machine_without_work_is_finished() {
    let mut interpreter = Interpreter::new(HashMap::new());
    assert_eq!(interpreter.step(Event::Proceed), Action::Finished);
    assert_eq!(interpreter.run(Event::Proceed, 10), Action::Finished);
}

#[test]
fn a_wrong_answer_of_the_host_stops_the_machine() {
    let stmts = vec![Stmt::Print(StmtPrint::new(number("1")))];
    let mut interpreter = Interpreter::new(HashMap::new());
    interpreter.interpret(&stmts);
    let mut action = interpreter.step(Event::Proceed);
    while action == Action::Continue {
        action = interpreter.step(Event::Proceed);
    }
    assert!(matches!(action, Action::ParseNumber(_)));
    assert!(matches!(interpreter.step(Event::Boolean(true)), Action::Failed(_)));
    assert_eq!(interpreter.step(Event::Proceed), Action::Finished);
}

#[test]
fn a_budget_bounds_the_steps_of_a_run() {
    let tokens = Scanner::new("while (true) {}").scan_tokens().unwrap();
    let mut parser = Parser::new(TokenStream::new(tokens));
    let stmts = parser.parse().unwrap();
    let mut resolver = Resolver::new();
    resolver.resolve(&stmts).unwrap();
    let mut interpreter = Interpreter::new(resolver.get_locals());
    interpreter.interpret(&stmts);
    for _ in 0..100 {
        assert_eq!(interpreter.run(Event::Proceed, 50), Action::Continue);
    }
}

#[test]
fn a_return_outside_every_call_stops_an_unresolved_program() {
    let tokens = Scanner::new("print 1; return 2; print 3;").scan_tokens().unwrap();
    let mut parser = Parser::new(TokenStream::new(tokens));
    let stmts = parser.parse().unwrap();
    let mut interpreter = Interpreter::new(HashMap::new());
    let (printed, error) = drive(&mut interpreter, &stmts);
    assert_eq!(printed, vec!["1"]);
    assert_eq!(
        error.map(|e| e.message()),
        Some("[line 1] Error at 'return': Can't return from top-level code.".to_string())
    );
}
