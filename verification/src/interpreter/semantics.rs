//! What one step of the evaluation machine does, stated as a function from
//! the machine's view and the host's answer to the next view and the action
//! handed to the host.

use vstd::prelude::*;
use crate::ast::{
    Expr, ExprBinary, ExprCall, ExprSuper, ExprUnary, LiteralValue, Stmt, StmtClass, StmtFunction,
    StmtReturn,
};
use crate::lex::{Token, TokenType};
use super::callable::{Callable, LoxFunction};
use super::class::{find_method, ClassView};
use super::environment::{assign, assign_at, get, get_at};
use super::error::{CallableError, ClassError, ResolverError, RuntimeError};
use super::machine::{Action, Arithmetic, Awaiting, Comparison, Event, MachineView, Task};
use super::scoping::key_of;
use super::store::{
    arity, bind_method, get_property, with_binding, with_class, with_field, with_frame,
    with_function, with_instance, with_string, StoreView,
};
use super::value::Value;

verus! {

/// The error of a machine whose state no program can bring about.
pub open spec fn internal<'a>() -> RuntimeError<'a> {
    RuntimeError::CallableError(CallableError::InternalError)
}

/// The machine stops with `error`: nothing is left to do, every block and
/// every call is left, and the current frame is the globals again.
pub open spec fn fail<'a>(m: MachineView<'a>, error: RuntimeError<'a>) -> (
    MachineView<'a>,
    Action<'a>,
) {
    (
        MachineView {
            tasks: Seq::empty(),
            values: Seq::empty(),
            awaiting: Awaiting::Nothing,
            environment: m.globals,
            ..m
        },
        Action::Failed(error),
    )
}

pub open spec fn proceed<'a>(m: MachineView<'a>) -> (MachineView<'a>, Action<'a>) {
    (m, Action::Continue)
}

/// The machine with `value` pushed.
pub open spec fn push<'a>(m: MachineView<'a>, value: Value) -> MachineView<'a> {
    MachineView { values: m.values.push(value), ..m }
}

/// The machine without the value pushed last.
pub open spec fn pop<'a>(m: MachineView<'a>) -> MachineView<'a> {
    MachineView { values: m.values.drop_last(), ..m }
}

/// The machine with `task` as the work to do next.
pub open spec fn schedule<'a>(m: MachineView<'a>, task: Task<'a>) -> MachineView<'a> {
    MachineView { tasks: m.tasks.push(task), ..m }
}

/// The machine with another store.
pub open spec fn stored<'a>(m: MachineView<'a>, store: StoreView<'a>) -> MachineView<'a> {
    MachineView { store, ..m }
}

pub open spec fn give<'a>(m: MachineView<'a>, value: Value) -> (MachineView<'a>, Action<'a>) {
    proceed(push(m, value))
}

/// The machine hands `action` to the host and waits for its answer.
pub open spec fn ask<'a>(m: MachineView<'a>, awaiting: Awaiting, action: Action<'a>) -> (
    MachineView<'a>,
    Action<'a>,
) {
    (MachineView { awaiting, ..m }, action)
}

/// Binds `name` in the current frame.
pub open spec fn define<'a>(m: MachineView<'a>, name: Seq<char>, value: Option<Value>) -> (
    MachineView<'a>,
    Action<'a>,
) {
    if m.environment < m.store.environments.len() {
        proceed(stored(m, with_binding(m.store, m.environment, name, value)))
    } else {
        fail(m, RuntimeError::EnvironmentCreationError)
    }
}

/// Reads a variable: at the depth that the resolver recorded for the use,
/// counted from the current frame, or among the globals where it recorded
/// none.
pub open spec fn lookup_variable<'a>(m: MachineView<'a>, name: Token<'a>) -> (
    MachineView<'a>,
    Action<'a>,
) {
    if m.locals.contains_key(key_of(name)) {
        match get_at(
            m.store.environments,
            m.environment,
            m.locals[key_of(name)] as nat,
            name.lexeme@,
        ) {
            Some(value) => give(m, value),
            None => fail(m, internal()),
        }
    } else {
        match get(m.store.environments, m.globals, name) {
            Ok(value) => give(m, value),
            Err(error) => fail(m, error),
        }
    }
}

/// `super.method`: the method of the superclass, bound to `this`.
pub open spec fn super_method<'a>(m: MachineView<'a>, node: ExprSuper<'a>) -> (
    MachineView<'a>,
    Action<'a>,
) {
    if !m.locals.contains_key(key_of(node.keyword)) || m.locals[key_of(node.keyword)] == 0 {
        fail(m, internal())
    } else {
        let distance = m.locals[key_of(node.keyword)];
        match (
            get_at(m.store.environments, m.environment, distance as nat, "super"@),
            get_at(m.store.environments, m.environment, (distance - 1) as nat, "this"@),
        ) {
            (Some(Value::Callable(Callable::Class(class))), Some(Value::Instance(instance))) => {
                match find_method(m.store.classes, class, node.method.lexeme@) {
                    Some(method) => {
                        let (store, function) = bind_method(m.store, method, instance);
                        give(stored(m, store), Value::Callable(Callable::Function(function)))
                    },
                    None => fail(
                        m,
                        RuntimeError::ClassError(
                            ClassError::UndefinedProperty { token: node.method },
                        ),
                    ),
                }
            },
            (Some(_), Some(_)) => fail(
                m,
                RuntimeError::ClassError(ClassError::SuperclassNotAClass { token: node.keyword }),
            ),
            _ => fail(m, internal()),
        }
    }
}

/// Begins the evaluation of an expression.
pub open spec fn evaluate<'a>(m: MachineView<'a>, expr: &'a Expr<'a>) -> (
    MachineView<'a>,
    Action<'a>,
) {
    match expr {
        Expr::Literal(node) => match &node.value {
            LiteralValue::Number(text) => ask(m, Awaiting::Number, Action::ParseNumber(text)),
            LiteralValue::String(text) => give(
                stored(m, with_string(m.store, text@)),
                Value::String(m.store.strings.len() as usize),
            ),
            LiteralValue::Bool(b) => give(m, Value::Boolean(*b)),
            LiteralValue::Nil => give(m, Value::Nil),
        },
        Expr::Grouping(node) => proceed(schedule(m, Task::Evaluate(&*node.value))),
        Expr::Logical(node) => proceed(
            schedule(schedule(m, Task::LogicalRight(node)), Task::Evaluate(&*node.left)),
        ),
        Expr::PropertySet(node) => proceed(
            schedule(schedule(m, Task::SetCheck(node)), Task::Evaluate(&*node.object)),
        ),
        Expr::Super(node) => super_method(m, *node),
        Expr::This(node) => lookup_variable(m, node.keyword),
        Expr::Unary(node) => proceed(
            schedule(schedule(m, Task::Unary(node)), Task::Evaluate(&*node.value)),
        ),
        Expr::Binary(node) => proceed(
            schedule(
                schedule(schedule(m, Task::Binary(node)), Task::Evaluate(&*node.right)),
                Task::Evaluate(&*node.left),
            ),
        ),
        Expr::Call(node) => proceed(
            schedule(schedule(m, Task::CallCheck(node)), Task::Evaluate(&*node.callee)),
        ),
        Expr::Get(node) => proceed(
            schedule(schedule(m, Task::GetProperty(node)), Task::Evaluate(&*node.object)),
        ),
        Expr::Assign(node) => proceed(
            schedule(schedule(m, Task::Assign(node)), Task::Evaluate(&*node.value)),
        ),
        Expr::Variable(node) => lookup_variable(m, node.name),
    }
}

/// The methods of a class declaration from index `from` on, each with the
/// frame `closure` as its closure, added to `found`.
pub open spec fn methods_table<'a>(
    list: &'a Vec<StmtFunction<'a>>,
    closure: usize,
    from: int,
    found: Map<Seq<char>, LoxFunction<'a>>,
) -> Map<Seq<char>, LoxFunction<'a>>
    decreases list@.len() - from,
{
    if 0 <= from < list@.len() {
        methods_table(
            list,
            closure,
            from + 1,
            found.insert(
                list@[from].name.lexeme@,
                LoxFunction {
                    declaration: &list@[from],
                    closure,
                    is_initializer: list@[from].name.lexeme@ == "init"@,
                },
            ),
        )
    } else {
        found
    }
}

/// Declares a class in the current frame. With a superclass, the methods
/// close over a new frame that binds `super` to it.
pub open spec fn declare_class<'a>(
    m: MachineView<'a>,
    node: &'a StmtClass<'a>,
    superclass: Option<usize>,
) -> (MachineView<'a>, Action<'a>) {
    if m.environment >= m.store.environments.len() {
        fail(m, RuntimeError::EnvironmentCreationError)
    } else {
        let declared = with_binding(m.store, m.environment, node.name.lexeme@, None);
        let (framed, closure) = match superclass {
            Some(parent) => {
                let frame = declared.environments.len() as usize;
                (
                    with_binding(
                        with_frame(declared, Some(m.environment)),
                        frame,
                        "super"@,
                        Some(Value::Callable(Callable::Class(parent))),
                    ),
                    frame,
                )
            },
            None => (declared, m.environment),
        };
        let class = framed.classes.len() as usize;
        let made = with_class(
            framed,
            ClassView {
                name: node.name.lexeme@,
                superclass,
                methods: methods_table(&node.methods, closure, 0, Map::empty()),
            },
        );
        match assign(
            made.environments,
            m.environment,
            node.name,
            Value::Callable(Callable::Class(class)),
        ) {
            Ok(frames) => proceed(stored(m, StoreView { environments: frames, ..made })),
            Err(error) => fail(stored(m, made), error),
        }
    }
}

/// The place of the innermost call on the agenda, or -1 outside every call.
pub open spec fn call_boundary(tasks: Seq<Task>) -> int
    decreases tasks.len(),
{
    if tasks.len() == 0 {
        -1
    } else if tasks.last() is FinishCall {
        tasks.len() - 1
    } else {
        call_boundary(tasks.drop_last())
    }
}

/// The values without those above the first `base`.
pub open spec fn cut(values: Seq<Value>, base: usize) -> Seq<Value> {
    if base <= values.len() {
        values.subrange(0, base as int)
    } else {
        values
    }
}

/// Ends a call that gives `value`: the caller's frame is the current one
/// again and the value stack is cut back to what it was when the call began.
/// The call of an initializer gives `this` whatever `value` is.
pub open spec fn finish_call<'a>(
    m: MachineView<'a>,
    caller: usize,
    receiver: Option<usize>,
    base: usize,
    value: Value,
) -> (MachineView<'a>, Action<'a>) {
    let back = MachineView { environment: caller, values: cut(m.values, base), ..m };
    match receiver {
        Some(frame) => match get_at(m.store.environments, frame, 0, "this"@) {
            Some(this) => give(back, this),
            None => fail(m, RuntimeError::EnvironmentCreationError),
        },
        None => give(back, value),
    }
}

/// Returns `value` from the innermost call: all work up to the end of that
/// call is dropped. Outside every call it is an error.
pub open spec fn return_value<'a>(m: MachineView<'a>, node: &'a StmtReturn<'a>, value: Value) -> (
    MachineView<'a>,
    Action<'a>,
) {
    let at = call_boundary(m.tasks);
    if at < 0 {
        fail(
            m,
            RuntimeError::ResolverError(ResolverError::TopLevelReturn { token: node.keyword }),
        )
    } else {
        match m.tasks[at] {
            Task::FinishCall { caller, receiver, base } => finish_call(
                MachineView { tasks: m.tasks.subrange(0, at), ..m },
                caller,
                receiver,
                base,
                value,
            ),
            _ => fail(m, internal()),
        }
    }
}

/// Begins the execution of a statement.
pub open spec fn execute<'a>(m: MachineView<'a>, stmt: &'a Stmt<'a>) -> (
    MachineView<'a>,
    Action<'a>,
) {
    match stmt {
        Stmt::Block(node) => proceed(
            MachineView {
                store: with_frame(m.store, Some(m.environment)),
                environment: m.store.environments.len() as usize,
                tasks: m.tasks.push(Task::LeaveBlock(m.environment)).push(
                    Task::Sequence(&node.statements, 0),
                ),
                ..m
            },
        ),
        Stmt::Class(node) => match &node.superclass {
            Some(parent) => proceed(
                schedule(schedule(m, Task::DeclareClass(node)), Task::Evaluate(parent)),
            ),
            None => declare_class(m, node, None),
        },
        Stmt::Expression(node) => proceed(
            schedule(schedule(m, Task::Discard), Task::Evaluate(&node.expr)),
        ),
        Stmt::Function(node) => define(
            stored(
                m,
                with_function(
                    m.store,
                    LoxFunction {
                        declaration: node,
                        closure: m.environment,
                        is_initializer: false,
                    },
                ),
            ),
            node.name.lexeme@,
            Some(Value::Callable(Callable::Function(m.store.functions.len() as usize))),
        ),
        Stmt::If(node) => proceed(
            schedule(schedule(m, Task::Branch(node)), Task::Evaluate(&node.condition)),
        ),
        Stmt::Print(node) => proceed(schedule(schedule(m, Task::Print), Task::Evaluate(&node.expr))),
        Stmt::Return(node) => match &node.value {
            Some(value) => proceed(
                schedule(schedule(m, Task::Return(node)), Task::Evaluate(value)),
            ),
            None => return_value(m, node, Value::Nil),
        },
        Stmt::Var(node) => match &node.initializer {
            Some(value) => proceed(
                schedule(schedule(m, Task::DefineVar(node)), Task::Evaluate(value)),
            ),
            None => define(m, node.name.lexeme@, None),
        },
        Stmt::While(node) => proceed(
            schedule(schedule(m, Task::Loop(node)), Task::Evaluate(&node.condition)),
        ),
    }
}

/// Applies a unary operator to `value`: `-` asks the host to negate a number
/// and fails on anything else; `!` gives whether the value is falsy.
pub open spec fn unary<'a>(m: MachineView<'a>, node: &'a ExprUnary<'a>, value: Value) -> (
    MachineView<'a>,
    Action<'a>,
) {
    match node.operator.kind {
        TokenType::Minus => match value {
            Value::Number(n) => ask(m, Awaiting::Number, Action::Negate(n)),
            _ => fail(m, RuntimeError::NumberOperand { operator: node.operator }),
        },
        TokenType::Bang => give(m, Value::Boolean(!value.truthy())),
        _ => fail(m, RuntimeError::NumberOperand { operator: node.operator }),
    }
}

/// The operation on numbers that an operator stands for.
pub open spec fn arithmetic_of(kind: TokenType) -> Option<Arithmetic> {
    match kind {
        TokenType::Minus => Some(Arithmetic::Subtract),
        TokenType::Slash => Some(Arithmetic::Divide),
        TokenType::Star => Some(Arithmetic::Multiply),
        TokenType::Plus => Some(Arithmetic::Add),
        _ => None,
    }
}

/// The comparison that an operator stands for.
pub open spec fn comparison_of(kind: TokenType) -> Option<Comparison> {
    match kind {
        TokenType::Greater => Some(Comparison::Greater),
        TokenType::GreaterEqual => Some(Comparison::GreaterEqual),
        TokenType::Less => Some(Comparison::Less),
        TokenType::LessEqual => Some(Comparison::LessEqual),
        TokenType::EqualEqual => Some(Comparison::Equal),
        TokenType::BangEqual => Some(Comparison::NotEqual),
        _ => None,
    }
}

/// Whether two values of which at most one is a number are equal: strings
/// by their text, truth values and `nil` by value, callables and objects by
/// identity.
pub open spec fn same(store: StoreView, left: Value, right: Value) -> bool {
    match (left, right) {
        (Value::String(a), Value::String(b)) => a < store.strings.len() && b < store.strings.len()
            && store.strings[a as int] == store.strings[b as int],
        _ => left == right,
    }
}

/// Applies a binary operator to two values. Work on two numbers is asked of
/// the host. `-`, `*`, `/` and the four orderings take numbers only; `+`
/// takes two numbers or two strings; `==` and `!=` take anything.
pub open spec fn binary<'a>(
    m: MachineView<'a>,
    node: &'a ExprBinary<'a>,
    left: Value,
    right: Value,
) -> (MachineView<'a>, Action<'a>) {
    let kind = node.operator.kind;
    if kind == TokenType::EqualEqual || kind == TokenType::BangEqual {
        match (left, right) {
            (Value::Number(l), Value::Number(r)) => ask(
                m,
                Awaiting::Boolean,
                Action::Compare(comparison_of(kind)->0, l, r),
            ),
            _ => give(
                m,
                Value::Boolean(same(m.store, left, right) == (kind == TokenType::EqualEqual)),
            ),
        }
    } else if comparison_of(kind) is Some {
        match (left, right) {
            (Value::Number(l), Value::Number(r)) => ask(
                m,
                Awaiting::Boolean,
                Action::Compare(comparison_of(kind)->0, l, r),
            ),
            _ => fail(m, RuntimeError::MutlipleNumberOperands { operator: node.operator }),
        }
    } else if kind == TokenType::Plus {
        match (left, right) {
            (Value::Number(l), Value::Number(r)) => ask(
                m,
                Awaiting::Number,
                Action::Calculate(Arithmetic::Add, l, r),
            ),
            (Value::String(l), Value::String(r)) => {
                if l < m.store.strings.len() && r < m.store.strings.len() {
                    give(
                        stored(
                            m,
                            with_string(
                                m.store,
                                m.store.strings[l as int] + m.store.strings[r as int],
                            ),
                        ),
                        Value::String(m.store.strings.len() as usize),
                    )
                } else {
                    fail(m, internal())
                }
            },
            _ => fail(m, RuntimeError::NumberOrStringOperands { operator: node.operator }),
        }
    } else if arithmetic_of(kind) is Some {
        match (left, right) {
            (Value::Number(l), Value::Number(r)) => ask(
                m,
                Awaiting::Number,
                Action::Calculate(arithmetic_of(kind)->0, l, r),
            ),
            _ => fail(m, RuntimeError::MutlipleNumberOperands { operator: node.operator }),
        }
    } else {
        give(m, Value::Nil)
    }
}

/// The store after the parameters from index `from` on are bound, each to the
/// argument at its index, in the frame `frame`.
pub open spec fn bind_parameters<'a>(
    store: StoreView<'a>,
    frame: usize,
    parameters: Seq<Token<'a>>,
    arguments: Seq<Value>,
    from: int,
) -> StoreView<'a>
    decreases parameters.len() - from,
{
    if 0 <= from < parameters.len() && from < arguments.len() {
        bind_parameters(
            with_binding(store, frame, parameters[from].lexeme@, Some(arguments[from])),
            frame,
            parameters,
            arguments,
            from + 1,
        )
    } else {
        store
    }
}

/// Enters a function: a new frame inside its closure binds the parameters
/// to the arguments, and the body runs in it up to the end of the call.
pub open spec fn invoke<'a>(
    m: MachineView<'a>,
    function: LoxFunction<'a>,
    arguments: Seq<Value>,
) -> (MachineView<'a>, Action<'a>) {
    let frame = m.store.environments.len() as usize;
    proceed(
        MachineView {
            store: bind_parameters(
                with_frame(m.store, Some(function.closure)),
                frame,
                function.declaration.params@,
                arguments,
                0,
            ),
            environment: frame,
            tasks: m.tasks.push(
                Task::FinishCall {
                    caller: m.environment,
                    receiver: if function.is_initializer {
                        Some(function.closure)
                    } else {
                        None
                    },
                    base: m.values.len() as usize,
                },
            ).push(Task::Sequence(&function.declaration.body, 0)),
            ..m
        },
    )
}

/// Calls the callee that lies below the arguments on the value stack. The
/// number of arguments has to be the arity of the callee. The clock is asked
/// of the host; a function is entered; a class makes an object and enters
/// its initializer, if it has one, bound to the object.
pub open spec fn call<'a>(m: MachineView<'a>, node: &'a ExprCall<'a>) -> (
    MachineView<'a>,
    Action<'a>,
) {
    let count = node.arguments@.len();
    if m.values.len() < count + 1 {
        fail(m, internal())
    } else {
        let base = m.values.len() - count - 1;
        let arguments = m.values.subrange(base + 1, m.values.len() as int);
        let rest = MachineView { values: m.values.subrange(0, base), ..m };
        match m.values[base] {
            Value::Callable(callable) => match arity(m.store, callable) {
                None => fail(rest, internal()),
                Some(expected) => {
                    if expected != count {
                        fail(
                            rest,
                            RuntimeError::ArgumentCount {
                                token: node.paren,
                                expected_arity: expected,
                                given_len: count as usize,
                            },
                        )
                    } else {
                        match callable {
                            Callable::Native(_) => ask(rest, Awaiting::Number, Action::Clock),
                            Callable::Function(at) => invoke(
                                rest,
                                m.store.functions[at as int],
                                arguments,
                            ),
                            Callable::Class(at) => {
                                let instance = m.store.instances.len() as usize;
                                let created = with_instance(m.store, at);
                                match find_method(m.store.classes, at, "init"@) {
                                    Some(initializer) => {
                                        let (store, function) = bind_method(
                                            created,
                                            initializer,
                                            instance,
                                        );
                                        invoke(
                                            stored(rest, store),
                                            store.functions[function as int],
                                            arguments,
                                        )
                                    },
                                    None => give(stored(rest, created), Value::Instance(instance)),
                                }
                            },
                        }
                    }
                },
            },
            _ => fail(rest, RuntimeError::NotCallable { token: node.paren }),
        }
    }
}

/// Does the work `task` on a machine from whose agenda it was taken.
pub open spec fn perform<'a>(m: MachineView<'a>, task: Task<'a>) -> (MachineView<'a>, Action<'a>) {
    match task {
        Task::Sequence(list, from) => {
            if from < list@.len() {
                proceed(
                    schedule(
                        schedule(m, Task::Sequence(list, (from + 1) as usize)),
                        Task::Execute(&list@[from as int]),
                    ),
                )
            } else {
                proceed(m)
            }
        },
        Task::Arguments(list, from) => {
            if from < list@.len() {
                proceed(
                    schedule(
                        schedule(m, Task::Arguments(list, (from + 1) as usize)),
                        Task::Evaluate(&list@[from as int]),
                    ),
                )
            } else {
                proceed(m)
            }
        },
        Task::Execute(stmt) => execute(m, stmt),
        Task::Evaluate(expr) => evaluate(m, expr),
        Task::LeaveBlock(frame) => proceed(MachineView { environment: frame, ..m }),
        Task::FinishCall { caller, receiver, base } => finish_call(
            m,
            caller,
            receiver,
            base,
            Value::Nil,
        ),
        Task::DeclareClass(node) => {
            if m.values.len() == 0 {
                fail(m, internal())
            } else {
                match m.values.last() {
                    Value::Callable(Callable::Class(parent)) => declare_class(
                        pop(m),
                        node,
                        Some(parent),
                    ),
                    _ => fail(
                        m,
                        RuntimeError::ClassError(
                            ClassError::SuperclassNotAClass { token: node.name },
                        ),
                    ),
                }
            }
        },
        Task::CallCheck(node) => {
            if m.values.len() == 0 {
                fail(m, internal())
            } else if m.values.last() is Callable {
                proceed(schedule(schedule(m, Task::Call(node)), Task::Arguments(&node.arguments, 0)))
            } else {
                fail(m, RuntimeError::NotCallable { token: node.paren })
            }
        },
        Task::Call(node) => call(m, node),
        Task::LogicalRight(node) => {
            if m.values.len() == 0 {
                fail(m, internal())
            } else if (node.operator.kind == TokenType::Or && m.values.last().truthy()) || (
            node.operator.kind == TokenType::And && !m.values.last().truthy()) {
                proceed(m)
            } else {
                proceed(schedule(pop(m), Task::Evaluate(&*node.right)))
            }
        },
        Task::SetCheck(node) => {
            if m.values.len() == 0 {
                fail(m, internal())
            } else if m.values.last() is Instance {
                proceed(schedule(schedule(m, Task::SetStore(node)), Task::Evaluate(&*node.value)))
            } else {
                fail(
                    m,
                    RuntimeError::ClassError(
                        ClassError::InvalidPropertyAccess { token: node.name },
                    ),
                )
            }
        },
        Task::SetStore(node) => {
            if m.values.len() < 2 {
                fail(m, internal())
            } else {
                match m.values[m.values.len() - 2] {
                    Value::Instance(instance) => {
                        if instance < m.store.instances.len() {
                            give(
                                stored(
                                    pop(pop(m)),
                                    with_field(
                                        m.store,
                                        instance,
                                        node.name.lexeme@,
                                        m.values.last(),
                                    ),
                                ),
                                m.values.last(),
                            )
                        } else {
                            fail(m, internal())
                        }
                    },
                    _ => fail(
                        m,
                        RuntimeError::ClassError(
                            ClassError::InvalidPropertyAccess { token: node.name },
                        ),
                    ),
                }
            }
        },
        Task::Binary(node) => {
            if m.values.len() < 2 {
                fail(m, internal())
            } else {
                binary(pop(pop(m)), node, m.values[m.values.len() - 2], m.values.last())
            }
        },
        _ => {
            if m.values.len() == 0 {
                fail(m, internal())
            } else {
                consume(pop(m), task, m.values.last())
            }
        },
    }
}

/// Does work that uses up the value `value`, which was taken from the value
/// stack.
pub open spec fn consume<'a>(m: MachineView<'a>, task: Task<'a>, value: Value) -> (
    MachineView<'a>,
    Action<'a>,
) {
    match task {
        Task::Discard => proceed(m),
        Task::Print => (m, Action::Print(value)),
        Task::DefineVar(node) => define(m, node.name.lexeme@, Some(value)),
        Task::Branch(node) => {
            if value.truthy() {
                proceed(schedule(m, Task::Execute(&*node.then_branch)))
            } else {
                match &node.else_branch {
                    Some(branch) => proceed(schedule(m, Task::Execute(&**branch))),
                    None => proceed(m),
                }
            }
        },
        Task::Loop(node) => {
            if value.truthy() {
                proceed(
                    schedule(
                        schedule(schedule(m, Task::Loop(node)), Task::Evaluate(&node.condition)),
                        Task::Execute(&*node.body),
                    ),
                )
            } else {
                proceed(m)
            }
        },
        Task::Return(node) => return_value(m, node, value),
        Task::Unary(node) => unary(m, node, value),
        Task::GetProperty(node) => match value {
            Value::Instance(instance) => {
                let (store, found) = get_property(m.store, instance, node.name);
                match found {
                    Ok(property) => give(stored(m, store), property),
                    Err(error) => fail(stored(m, store), error),
                }
            },
            _ => fail(
                m,
                RuntimeError::ClassError(ClassError::InvalidPropertyAccess { token: node.name }),
            ),
        },
        Task::Assign(node) => {
            if m.locals.contains_key(key_of(node.name)) {
                match assign_at(
                    m.store.environments,
                    m.environment,
                    m.locals[key_of(node.name)] as nat,
                    node.name.lexeme@,
                    value,
                ) {
                    Some(frames) => give(
                        stored(m, StoreView { environments: frames, ..m.store }),
                        value,
                    ),
                    None => fail(m, internal()),
                }
            } else {
                match assign(m.store.environments, m.globals, node.name, value) {
                    Ok(frames) => give(
                        stored(m, StoreView { environments: frames, ..m.store }),
                        value,
                    ),
                    Err(error) => fail(m, error),
                }
            }
        },
        _ => fail(m, internal()),
    }
}

/// One step of the machine. An answer that was asked for is pushed as a
/// value; an answer of the wrong kind stops the machine. Else the work to do
/// next is taken from the agenda and done; with nothing left to do the
/// program is finished.
pub open spec fn step<'a>(m: MachineView<'a>, event: Event) -> (MachineView<'a>, Action<'a>) {
    match (m.awaiting, event) {
        (Awaiting::Number, Event::Number(n)) => give(
            MachineView { awaiting: Awaiting::Nothing, ..m },
            Value::Number(n),
        ),
        (Awaiting::Boolean, Event::Boolean(b)) => give(
            MachineView { awaiting: Awaiting::Nothing, ..m },
            Value::Boolean(b),
        ),
        (Awaiting::Nothing, _) => {
            if m.tasks.len() == 0 {
                (m, Action::Finished)
            } else {
                perform(MachineView { tasks: m.tasks.drop_last(), ..m }, m.tasks.last())
            }
        },
        _ => fail(m, internal()),
    }
}

/// Steps of the machine up to the first action that is not `Continue`, and
/// no more than `budget` steps after the first.
pub open spec fn run<'a>(m: MachineView<'a>, event: Event, budget: nat) -> (
    MachineView<'a>,
    Action<'a>,
)
    decreases budget,
{
    let (next, action) = step(m, event);
    if action is Continue && budget > 0 {
        run(next, Event::Proceed, (budget - 1) as nat)
    } else {
        (next, action)
    }
}

} // verus!
