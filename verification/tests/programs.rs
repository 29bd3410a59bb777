use rust_lox::interpreter::machine::{Action, Arithmetic, Comparison, Event};
use rust_lox::interpreter::resolver::Resolver;
use rust_lox::interpreter::value::Value;
use rust_lox::interpreter::Interpreter;
use rust_lox::lex::Scanner;
use rust_lox::parser::{Parser, TokenStream};

/// Runs a program with a host that works on doubles; gives the lines
/// printed and the message of the first error of any stage.
fn outcome(source: &str) -> (Vec<String>, Option<String>) {
    let mut scanner = Scanner::new(source);
    let tokens = match scanner.scan_tokens() {
        Ok(tokens) => tokens,
        Err(error) => return (Vec::new(), Some(error.message(scanner.current_line()))),
    };
    let mut parser = Parser::new(TokenStream::new(tokens));
    let stmts = match parser.parse() {
        Ok(stmts) => stmts,
        Err(error) => return (Vec::new(), Some(error.message())),
    };
    let mut resolver = Resolver::new();
    if let Err(error) = resolver.resolve(&stmts) {
        return (Vec::new(), Some(error.message()));
    }
    let mut interpreter = Interpreter::new(resolver.get_locals());
    interpreter.interpret(&stmts);
    drive(&mut interpreter)
}

/// Runs the machine to the end of its program with a host that works on
/// doubles; gives the lines printed and the message of the error, if any.
fn drive(interpreter: &mut Interpreter) -> (Vec<String>, Option<String>) {
    let mut printed = Vec::new();
    let mut event = Event::Proceed;
    let mut clock = 100.0f64;
    loop {
        match interpreter.run(event, 1000) {
            Action::Continue => event = Event::Proceed,
            Action::Finished => return (printed, None),
            Action::Failed(error) => return (printed, Some(error.message())),
            Action::Print(value) => {
                printed.push(match value {
                    Value::Number(bits) => format!("{}", f64::from_bits(bits)),
                    other => interpreter.text_of(other).unwrap(),
                });
                event = Event::Proceed;
            }
            Action::ParseNumber(text) => {
                event = Event::Number(text.parse::<f64>().unwrap_or(0.0).to_bits())
            }
            Action::Negate(a) => event = Event::Number((-f64::from_bits(a)).to_bits()),
            Action::Calculate(operation, a, b) => {
                let (a, b) = (f64::from_bits(a), f64::from_bits(b));
                event = Event::Number(
                    match operation {
                        Arithmetic::Add => a + b,
                        Arithmetic::Subtract => a - b,
                        Arithmetic::Multiply => a * b,
                        Arithmetic::Divide => a / b,
                    }
                    .to_bits(),
                )
            }
            Action::Compare(comparison, a, b) => {
                let (a, b) = (f64::from_bits(a), f64::from_bits(b));
                event = Event::Boolean(match comparison {
                    Comparison::Greater => a > b,
                    Comparison::GreaterEqual => a >= b,
                    Comparison::Less => a < b,
                    Comparison::LessEqual => a <= b,
                    Comparison::Equal => a == b,
                    Comparison::NotEqual => a != b,
                })
            }
            Action::Clock => {
                clock += 1.0;
                event = Event::Number(clock.to_bits());
            }
        }
    }
}

fn prints(source: &str) -> Vec<String> {
    let (printed, error) = outcome(source);
    assert_eq!(error, None, "the program fails after printing {:?}", printed);
    printed
}

fn fails(source: &str) -> (Vec<String>, String) {
    let (printed, error) = outcome(source);
    (printed, error.expect("the program does not fail"))
}

#[test]
fn numbers_compute() {
    assert_eq!(
        prints("print 10 / 4; print 1 - 2 - 3; print 2 * (3 + 4); print -(-3); print 7 / 2 * 2; print 0.1 + 0.2;"),
        vec!["2.5", "-4", "14", "3", "7", "0.30000000000000004"]
    );
    assert_eq!(prints("print 1 / 0; print -1 / 0;"), vec!["inf", "-inf"]);
}

#[test]
fn numbers_compare() {
    assert_eq!(
        prints("print 1 < 2; print 2 <= 2; print 3 > 4; print 4 >= 5; print 1 == 1.0; print 1 != 1;"),
        vec!["true", "true", "false", "false", "true", "false"]
    );
    assert_eq!(prints("var nan = 0 / 0; print nan == nan; print nan != nan;"), vec!["false", "true"]);
}

#[test]
fn comparisons_take_numbers_only() {
    assert_eq!(fails("print \"a\" < \"b\";").1, "[line 1] Operands must be a number.");
    assert_eq!(fails("print 1 >= nil;").1, "[line 1] Operands must be a number.");
    assert_eq!(fails("print true * 2;").1, "[line 1] Operands must be a number.");
    assert_eq!(fails("print nil / nil;").1, "[line 1] Operands must be a number.");
}

#[test]
fn values_of_different_kinds_are_never_equal() {
    assert_eq!(
        prints("print 1 == \"1\"; print nil == nil; print true == true; print \"\" == false; print 0 == false; print nil != 0;"),
        vec!["false", "true", "true", "false", "false", "true"]
    );
}

#[test]
fn strings_join_and_keep_their_text() {
    assert_eq!(
        prints("var a = \"he\"; var b = a + \"llo\"; print b; print a; print b + \" \" + b; print \"é💣\" + \"!\";"),
        vec!["hello", "he", "hello hello", "é💣!"]
    );
    assert_eq!(prints("print \"one\ntwo\";"), vec!["one\ntwo"]);
}

#[test]
fn logical_operators_evaluate_no_more_than_they_need() {
    let program = "fun t(x) { print x; return true; } fun f(x) { print x; return false; }
        print f(1) and t(2); print t(3) or f(4); print f(5) or t(6); print t(7) and f(8);";
    assert_eq!(
        prints(program),
        vec!["1", "false", "3", "true", "5", "6", "true", "7", "8", "false"]
    );
}

#[test]
fn branches_choose_by_truthiness() {
    let program = "if (0) print \"zero\"; if (\"\") print \"empty\"; if (nil) print \"nil\"; else print \"not nil\";
        if (false) print \"no\"; else if (true) print \"yes\"; else print \"never\";";
    assert_eq!(prints(program), vec!["zero", "empty", "not nil", "yes"]);
}

#[test]
fn an_else_belongs_to_the_nearest_if() {
    assert_eq!(prints("if (true) if (false) print 1; else print 2;"), vec!["2"]);
}

#[test]
fn loops_count() {
    assert_eq!(
        prints("var sum = 0; for (var i = 1; i <= 10; i = i + 1) sum = sum + i; print sum;"),
        vec!["55"]
    );
    assert_eq!(
        prints("var i = 3; while (i > 0) { print i; i = i - 1; } print \"go\";"),
        vec!["3", "2", "1", "go"]
    );
    assert_eq!(
        prints("var i = 0; for (; i < 2;) { print i; i = i + 1; } for (var j = 0; j < 2; j = j + 1) {} print i;"),
        vec!["0", "1", "2"]
    );
}

#[test]
fn the_variable_of_a_for_loop_is_its_own() {
    let program = "var i = \"outer\"; for (var i = 0; i < 1; i = i + 1) { print i; } print i;";
    assert_eq!(prints(program), vec!["0", "outer"]);
}

#[test]
fn closures_in_a_loop_share_the_variable_of_the_loop() {
    let program = "var f; var g;
        for (var i = 0; i < 2; i = i + 1) { fun show() { print i; } if (i == 0) f = show; else g = show; }
        f(); g();";
    assert_eq!(prints(program), vec!["2", "2"]);
}

#[test]
fn a_closure_keeps_the_block_it_was_made_in() {
    let program = "var f;
        { var local = \"local\"; fun show() { print local; local = local + \"!\"; } f = show; }
        f(); f();";
    assert_eq!(prints(program), vec!["local", "local!"]);
}

#[test]
fn a_closure_binds_the_declaration_it_saw() {
    let program = "var a = \"global\";
        { fun show() { print a; } show(); var a = \"block\"; show(); }";
    assert_eq!(prints(program), vec!["global", "global"]);
}

#[test]
fn globals_may_be_used_before_they_are_defined_in_the_text() {
    let program = "fun later() { return value; } var value = 3; print later();
        fun isEven(n) { if (n == 0) return true; return isOdd(n - 1); }
        fun isOdd(n) { if (n == 0) return false; return isEven(n - 1); }
        print isEven(10); var value = 4; print value;";
    assert_eq!(prints(program), vec!["3", "true", "4"]);
}

#[test]
fn functions_are_values() {
    let program = "fun twice(f, x) { return f(f(x)); } fun inc(n) { return n + 1; }
        print twice(inc, 1); var alias = inc; print alias(41); print alias == inc; print twice;
        fun nothing() {} print nothing();";
    assert_eq!(prints(program), vec!["3", "42", "true", "<fn twice>", "nil"]);
}

#[test]
fn arguments_are_evaluated_from_left_to_right() {
    let program = "fun show(x) { print x; return x; } fun sum(a, b, c) { return a + b + c; }
        print sum(show(1), show(2), show(3));";
    assert_eq!(prints(program), vec!["1", "2", "3", "6"]);
}

#[test]
fn deep_recursion_needs_no_deep_stack() {
    let program = "fun count(n) { if (n == 0) return 0; return 1 + count(n - 1); } print count(20000);";
    assert_eq!(prints(program), vec!["20000"]);
}

#[test]
fn the_number_of_arguments_is_checked() {
    assert_eq!(fails("fun f(a, b) {} f(1);").1, "[line 1] Expected 2 arguments but got 1.");
    assert_eq!(fails("fun f() {} f(1, 2);").1, "[line 1] Expected 0 arguments but got 2.");
    assert_eq!(fails("class A { init(a) {} } A();").1, "[line 1] Expected 1 arguments but got 0.");
    assert_eq!(fails("class A {} A(1);").1, "[line 1] Expected 0 arguments but got 1.");
    assert_eq!(fails("clock(1);").1, "[line 1] Expected 0 arguments but got 1.");
}

#[test]
fn only_functions_and_classes_are_called() {
    assert_eq!(fails("\"text\"();").1, "[line 1] Can only call functions and classes.");
    assert_eq!(fails("nil();").1, "[line 1] Can only call functions and classes.");
    assert_eq!(fails("class A {} var a = A(); a();").1, "[line 1] Can only call functions and classes.");
}

#[test]
fn fields_belong_to_their_object() {
    let program = "class Box {} var a = Box(); var b = Box(); a.v = 1; b.v = 2; a.w = a.v + b.v;
        print a.v; print b.v; print a.w; var c = a; c.v = 9; print a.v; print (a.v = 5) + 1;";
    assert_eq!(prints(program), vec!["1", "2", "3", "9", "6"]);
}

#[test]
fn a_field_hides_a_method_of_its_name() {
    let program = "class A { m() { return \"method\"; } } var a = A(); print a.m();
        fun f() { return \"field\"; } a.m = f; print a.m();";
    assert_eq!(prints(program), vec!["method", "field"]);
}

#[test]
fn properties_need_an_object() {
    assert_eq!(fails("var s = \"text\"; s.length;").1, "[line 1] Only instances have properties.");
    assert_eq!(fails("1.x = 2;").1, "[line 1] Only instances have properties.");
    assert_eq!(fails("class A {} A.x;").1, "[line 1] Only instances have properties.");
    assert_eq!(fails("class A {} A().missing;").1, "[line 1] Undefined property missing.");
    let (printed, error) = fails("fun noisy() { print \"evaluated\"; } var n = 1; n.x = noisy();");
    assert_eq!(printed, Vec::<String>::new());
    assert_eq!(error, "[line 1] Only instances have properties.");
}

#[test]
fn methods_read_and_write_the_fields_of_this() {
    let program = "class Counter { init() { this.n = 0; } next() { this.n = this.n + 1; return this.n; } }
        var c = Counter(); c.next(); c.next(); print c.next(); print c.n; print c;";
    assert_eq!(prints(program), vec!["3", "3", "Counter instance"]);
}

#[test]
fn a_method_may_be_taken_off_its_object() {
    let program = "class A { init(t) { this.t = t; } get() { return this.t; } }
        var a = A(1); var b = A(2); var get = a.get; b.get = get; print b.get(); print get();";
    assert_eq!(prints(program), vec!["1", "1"]);
}

#[test]
fn an_initializer_may_be_called_again() {
    let program = "class A { init(v) { this.v = v; } } var a = A(1); var same = a.init(2); print a.v; print same == a;";
    assert_eq!(prints(program), vec!["2", "true"]);
}

#[test]
fn methods_are_inherited_through_several_classes() {
    let program = "class A { a() { return \"a\"; } who() { return \"A\"; } }
        class B < A { b() { return \"b\"; } who() { return \"B\" + super.who(); } }
        class C < B { who() { return \"C\" + super.who(); } }
        var c = C(); print c.a() + c.b(); print c.who(); print B().who();";
    assert_eq!(prints(program), vec!["ab", "CBA", "BA"]);
}

#[test]
fn an_initializer_is_inherited() {
    let program = "class A { init(v) { this.v = v; } } class B < A {} print B(3).v;
        class C < A { init() { super.init(\"c\"); } } print C().v;";
    assert_eq!(prints(program), vec!["3", "c"]);
}

#[test]
fn super_is_bound_where_the_class_is_declared() {
    let program = "class A { say() { return \"A\"; } }
        class B < A { get() { fun f() { return super.say(); } return f; } say() { return \"B\"; } }
        class C < B { say() { return \"C\"; } }
        print C().get()();";
    assert_eq!(prints(program), vec!["A"]);
}

#[test]
fn super_needs_the_method() {
    assert_eq!(
        fails("class A {} class B < A { m() { super.missing(); } } B().m();").1,
        "[line 1] Undefined property missing."
    );
}

#[test]
fn a_superclass_has_to_be_a_class() {
    assert_eq!(fails("var x = \"no\"; class A < x {}").1, "[line 1] Superclass must be a class.");
    assert_eq!(fails("fun f() {} class A < f {}").1, "[line 1] Superclass must be a class.");
    assert_eq!(fails("class A < Missing {}").1, "[line 1] Undefined Variable 'Missing'.");
}

#[test]
fn a_class_may_name_itself_in_its_methods() {
    let program = "class Node { init(v) { this.v = v; } twin() { return Node(this.v); } }
        print Node(4).twin().v; { class Local { make() { return Local(); } } print Local().make(); }";
    assert_eq!(prints(program), vec!["4", "Local instance"]);
}

#[test]
fn the_clock_ticks() {
    assert_eq!(prints("var a = clock(); var b = clock(); print b - a; print clock;"), vec!["1", "<native fun: clock>"]);
}

#[test]
fn a_failure_keeps_what_was_printed_before() {
    let (printed, error) = fails("print 1; print 2; print -nil; print 3;");
    assert_eq!(printed, vec!["1", "2"]);
    assert_eq!(error, "[line 1] Operand must be a number.");
}

#[test]
fn errors_name_their_line() {
    assert_eq!(fails("var a = 1;\nvar b = 2;\nprint a + b + c;").1, "[line 3] Undefined Variable 'c'.");
    assert_eq!(fails("\n\nprint (1;").1, "[line 3] Error: Expected ')' after expression");
    assert_eq!(fails("// one\n// two\n{ var a; var a; }").1, "[line 3] Error at 'a': Already a variable with this name in this scope.");
    assert_eq!(fails("print 1;\nprint \"open").1, "[line 2] Error: String `\"open` is not terminated");
}

#[test]
fn globals_may_be_declared_again() {
    assert_eq!(prints("var a = 1; var a = 2; print a; var a; print a;"), vec!["2", "nil"]);
}

#[test]
fn a_statement_sees_every_scope_around_it() {
    let program = "var a = \"a\"; { var b = \"b\"; { var c = \"c\"; { print a + b + c; a = \"A\"; b = \"B\"; } print a + b + c; } }";
    assert_eq!(prints(program), vec!["abc", "ABc"]);
}

#[test]
fn comments_and_blank_lines_are_skipped() {
    assert_eq!(prints("// nothing\n\n  print 1; // one\n// end"), vec!["1"]);
    assert_eq!(prints(""), Vec::<String>::new());
    assert_eq!(prints("// only a comment"), Vec::<String>::new());
}

/// Runs two programs without local variables one after the other on one
/// machine.
fn one_after_the_other(first: &str, second: &str) -> ((Vec<String>, Option<String>), (Vec<String>, Option<String>)) {
    let first_tokens = Scanner::new(first).scan_tokens().unwrap();
    let first_stmts = Parser::new(TokenStream::new(first_tokens)).parse().unwrap();
    let second_tokens = Scanner::new(second).scan_tokens().unwrap();
    let second_stmts = Parser::new(TokenStream::new(second_tokens)).parse().unwrap();
    let mut resolver = Resolver::new();
    resolver.resolve(&first_stmts).unwrap();
    resolver.resolve(&second_stmts).unwrap();
    let locals = resolver.get_locals();
    assert!(locals.is_empty());
    let mut interpreter = Interpreter::new(locals);
    interpreter.interpret(&first_stmts);
    let before = drive(&mut interpreter);
    interpreter.interpret(&second_stmts);
    let after = drive(&mut interpreter);
    (before, after)
}

#[test]
fn a_failure_in_a_block_leaves_the_block() {
    let (first, second) = one_after_the_other("{ -nil; }", "var b = 1; print b;");
    assert_eq!(first, (vec![], Some("[line 1] Operand must be a number.".to_string())));
    assert_eq!(second, (vec!["1".to_string()], None));
}

#[test]
fn a_failure_in_a_call_leaves_the_call() {
    let (first, second) = one_after_the_other(
        "fun f() { { print \"in\"; -nil; } } f();",
        "var b = 2; print b; fun g() { return b; } print g();",
    );
    assert_eq!(first, (vec!["in".to_string()], Some("[line 1] Operand must be a number.".to_string())));
    assert_eq!(second, (vec!["2".to_string(), "2".to_string()], None));
}

#[test]
fn a_failure_leaves_nothing_to_do() {
    let tokens = Scanner::new("{ -nil; print 1; } print 2;").scan_tokens().unwrap();
    let stmts = Parser::new(TokenStream::new(tokens)).parse().unwrap();
    let mut resolver = Resolver::new();
    resolver.resolve(&stmts).unwrap();
    let mut interpreter = Interpreter::new(resolver.get_locals());
    interpreter.interpret(&stmts);
    let (printed, error) = drive(&mut interpreter);
    assert_eq!(printed, Vec::<String>::new());
    assert!(error.is_some());
    assert!(matches!(interpreter.step(Event::Proceed), Action::Finished));
}
