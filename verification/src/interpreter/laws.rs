//! Laws of the evaluation machine: what holds of methods, of inheritance,
//! of `return` and of failures, whatever the program.

use vstd::prelude::*;
use crate::ast::{
    Expr, ExprBinary, ExprCall, ExprSuper, ExprUnary, Stmt, StmtClass, StmtReturn,
};
use crate::lex::{Token, TokenType};
use super::callable::{Callable, LoxFunction};
use super::class::{find_method, ClassView};
use super::environment::{ancestor, get_at};
use super::error::RuntimeError;
use super::machine::{Action, Awaiting, Event, MachineView, Task};
use super::scoping::key_of;
use super::semantics;
use super::semantics::{bind_parameters, call_boundary, invoke, return_value, stored, super_method};
use super::store::{bind_method, with_binding, with_frame, StoreView};
use super::value::Value;

verus! {

/// Binding parameters in the frame `frame` changes no other frame, adds no
/// frame and keeps the link of every frame.
pub proof fn lemma_bind_parameters_is_local(
    store: StoreView,
    frame: usize,
    parameters: Seq<Token>,
    arguments: Seq<Value>,
    from: int,
)
    requires
        0 <= from,
    ensures
        bind_parameters(store, frame, parameters, arguments, from).environments.len()
            == store.environments.len(),
        forall|other: int|
            0 <= other < store.environments.len() && other != frame ==> bind_parameters(
                store,
                frame,
                parameters,
                arguments,
                from,
            ).environments[other] == store.environments[other],
        frame < store.environments.len() ==> bind_parameters(
            store,
            frame,
            parameters,
            arguments,
            from,
        ).environments[frame as int].enclosing == store.environments[frame as int].enclosing,
        bind_parameters(store, frame, parameters, arguments, from).functions == store.functions,
        bind_parameters(store, frame, parameters, arguments, from).classes == store.classes,
        bind_parameters(store, frame, parameters, arguments, from).instances == store.instances,
    decreases parameters.len() - from,
{
    if from < parameters.len() && from < arguments.len() {
        let next = with_binding(store, frame, parameters[from].lexeme@, Some(arguments[from]));
        lemma_bind_parameters_is_local(next, frame, parameters, arguments, from + 1);
        let done = bind_parameters(store, frame, parameters, arguments, from);
        assert(done == bind_parameters(next, frame, parameters, arguments, from + 1));
        assert forall|other: int|
            0 <= other < store.environments.len() && other != frame implies done.environments[other]
            == store.environments[other] by {
            assert(next.environments[other] == store.environments[other]);
        }
    }
}

/// `this` inside a method is the receiver: a method bound to an object is a
/// function of the same declaration whose closure binds `this` to that
/// object, and in the frame in which its body runs, whatever the arguments
/// and wherever the bound method was kept in between, `this` one link out is
/// that object.
pub proof fn lemma_this_is_the_receiver<'a>(
    m: MachineView<'a>,
    method: LoxFunction<'a>,
    instance: usize,
    arguments: Seq<Value>,
)
    requires
        m.store.environments.len() + 1 < usize::MAX,
        m.store.functions.len() < usize::MAX,
    ensures
        ({
            let (store, function) = bind_method(m.store, method, instance);
            let bound = store.functions[function as int];
            let (entered, action) = invoke(stored(m, store), bound, arguments);
            &&& function == m.store.functions.len()
            &&& bound.declaration == method.declaration
            &&& bound.is_initializer == method.is_initializer
            &&& get_at(store.environments, bound.closure, 0, "this"@) == Some(
                Value::Instance(instance),
            )
            &&& store.environments[bound.closure as int].enclosing == Some(method.closure)
            &&& action == Action::Continue::<'a>
            &&& get_at(entered.store.environments, entered.environment, 1, "this"@) == Some(
                Value::Instance(instance),
            )
        }),
{
    let (store, function) = bind_method(m.store, method, instance);
    let bound = store.functions[function as int];
    let frame = store.environments.len() as usize;
    let framed = with_frame(store, Some(bound.closure));
    lemma_bind_parameters_is_local(framed, frame, bound.declaration.params@, arguments, 0);
    let (entered, action) = invoke(stored(m, store), bound, arguments);
    let frames = entered.store.environments;
    assert(bound.closure == m.store.environments.len());
    assert(store.environments.len() == m.store.environments.len() + 1);
    assert(store.environments[bound.closure as int].values.contains_key("this"@));
    assert(framed.environments[frame as int].enclosing == Some(bound.closure));
    let done = bind_parameters(framed, frame, bound.declaration.params@, arguments, 0);
    assert(entered.store == done);
    assert(bound.closure < framed.environments.len() && bound.closure != frame);
    assert(done.environments[bound.closure as int] == framed.environments[bound.closure as int]);
    assert(framed.environments[bound.closure as int] == store.environments[bound.closure as int]);
    assert(frames[frame as int].enclosing == Some(bound.closure));
    assert(frames[bound.closure as int] == store.environments[bound.closure as int]);
    reveal_with_fuel(ancestor, 3);
    assert(ancestor(frames, entered.environment, 1) == Some(bound.closure));
}

/// A subclass inherits the methods that it does not define: looking up such
/// a method in the subclass gives what looking it up in the superclass gives.
pub proof fn lemma_subclass_inherits<'a>(
    classes: Seq<ClassView<'a>>,
    class: usize,
    parent: usize,
    name: Seq<char>,
)
    requires
        class < classes.len(),
        classes[class as int].superclass == Some(parent),
        parent < class,
        !classes[class as int].methods.contains_key(name),
    ensures
        find_method(classes, class, name) == find_method(classes, parent, name),
{
}

/// A method that a class defines hides the method of that name of every
/// class above it.
pub proof fn lemma_own_method_overrides<'a>(
    classes: Seq<ClassView<'a>>,
    class: usize,
    name: Seq<char>,
)
    requires
        class < classes.len(),
        classes[class as int].methods.contains_key(name),
    ensures
        find_method(classes, class, name) == Some(classes[class as int].methods[name]),
{
}

/// `super.m` is the method `m` of the superclass with `this` unchanged: where
/// the step succeeds, the value pushed is a new function with the
/// declaration of the method that the superclass has under that name, and
/// `this` of its closure is the object that `this` was where `super.m`
/// stands.
pub proof fn lemma_super_keeps_this<'a>(m: MachineView<'a>, node: ExprSuper<'a>)
    requires
        super_method(m, node).1 == Action::Continue::<'a>,
        m.store.environments.len() < usize::MAX,
        m.store.functions.len() < usize::MAX,
    ensures
        ({
            let after = super_method(m, node).0;
            let distance = m.locals[key_of(node.keyword)];
            &&& after.values.len() == m.values.len() + 1
            &&& after.values.last() matches Value::Callable(Callable::Function(function))
            &&& get_at(m.store.environments, m.environment, distance as nat, "super"@)
                matches Some(Value::Callable(Callable::Class(superclass)))
            &&& find_method(m.store.classes, superclass, node.method.lexeme@) matches Some(method)
            &&& function < after.store.functions.len()
            &&& after.store.functions[function as int].declaration == method.declaration
            &&& get_at(
                after.store.environments,
                after.store.functions[function as int].closure,
                0,
                "this"@,
            ) == get_at(m.store.environments, m.environment, (distance - 1) as nat, "this"@)
        }),
{
    let distance = m.locals[key_of(node.keyword)];
    let superclass = get_at(m.store.environments, m.environment, distance as nat, "super"@);
    let object = get_at(m.store.environments, m.environment, (distance - 1) as nat, "this"@);
    match (superclass, object) {
        (Some(Value::Callable(Callable::Class(class))), Some(Value::Instance(instance))) => {
            let method = find_method(m.store.classes, class, node.method.lexeme@)->0;
            let (store, function) = bind_method(m.store, method, instance);
            let frame = m.store.environments.len() as usize;
            assert(store.functions[function as int].closure == frame);
            assert(store.environments[frame as int].values.contains_key("this"@));
            reveal_with_fuel(ancestor, 2);
            assert(ancestor(store.environments, frame, 0) == Some(frame));
        },
        _ => {},
    }
}

/// Above the innermost call on the agenda lies no end of a call.
pub proof fn lemma_call_boundary_is_innermost(tasks: Seq<Task>)
    ensures
        -1 <= call_boundary(tasks) < tasks.len(),
        call_boundary(tasks) >= 0 ==> tasks[call_boundary(tasks)] is FinishCall,
        forall|above: int|
            call_boundary(tasks) < above < tasks.len() ==> !(#[trigger] tasks[above] is FinishCall),
        call_boundary(tasks) < 0 ==> forall|any: int|
            0 <= any < tasks.len() ==> !(#[trigger] tasks[any] is FinishCall),
    decreases tasks.len(),
{
    if tasks.len() > 0 && !(tasks.last() is FinishCall) {
        lemma_call_boundary_is_innermost(tasks.drop_last());
        let rest = tasks.drop_last();
        assert forall|above: int| call_boundary(tasks) < above < tasks.len() implies !(
        #[trigger] tasks[above] is FinishCall) by {
            if above < rest.len() {
                assert(rest[above] == tasks[above]);
            }
        }
        if call_boundary(tasks) < 0 {
            assert forall|any: int| 0 <= any < tasks.len() implies !(
            #[trigger] tasks[any] is FinishCall) by {
                if any < rest.len() {
                    assert(rest[any] == tasks[any]);
                }
            }
        } else {
            assert(rest[call_boundary(tasks)] == tasks[call_boundary(tasks)]);
        }
    }
}

/// `return` unwinds to the nearest enclosing function and no further: where
/// it succeeds, the work that is dropped is all the work above the end of the
/// innermost call, which holds no end of a call, and that end itself; the
/// work below it stays as it is, the frame of the caller is the current one
/// again, the value stack is cut back to what it was when the call began,
/// and the value returned is pushed for the caller.
pub proof fn lemma_return_unwinds_to_the_nearest_call<'a>(
    m: MachineView<'a>,
    node: &'a StmtReturn<'a>,
    value: Value,
)
    requires
        return_value(m, node, value).1 == Action::Continue::<'a>,
    ensures
        ({
            let after = return_value(m, node, value).0;
            let at = call_boundary(m.tasks);
            &&& 0 <= at < m.tasks.len()
            &&& m.tasks[at] matches Task::FinishCall { caller, receiver, base }
            &&& forall|above: int|
                at < above < m.tasks.len() ==> !(#[trigger] m.tasks[above] is FinishCall)
            &&& after.tasks == m.tasks.subrange(0, at)
            &&& after.environment == caller
            &&& after.values.drop_last() == semantics::cut(m.values, base)
            &&& receiver is None ==> after.values.last() == value
            &&& after.store == m.store
        }),
{
    lemma_call_boundary_is_innermost(m.tasks);
}

/// Whether a failure, if the outcome is one, has left every block and every
/// call: the current frame is the frame `globals`, and neither work nor
/// values nor a question are left. Whatever the outcome, `globals` stays the
/// frame of the globals and `locals` the table of depths.
pub open spec fn unwound(outcome: (MachineView, Action), globals: usize, locals: Map<u32, usize>) -> bool {
    &&& outcome.0.globals == globals
    &&& outcome.0.locals == locals
    &&& outcome.1 is Failed ==> {
        &&& outcome.0.environment == globals
        &&& outcome.0.tasks.len() == 0
        &&& outcome.0.values.len() == 0
        &&& outcome.0.awaiting == Awaiting::Nothing
    }
}

/// The end of a call that fails leaves every block and call.
proof fn lemma_finish_call_unwinds<'a>(
    m: MachineView<'a>,
    caller: usize,
    receiver: Option<usize>,
    base: usize,
    value: Value,
)
    ensures
        unwound(semantics::finish_call(m, caller, receiver, base, value), m.globals, m.locals),
{
}

/// A `return` that fails leaves every block and call.
proof fn lemma_return_unwinds<'a>(m: MachineView<'a>, node: &'a StmtReturn<'a>, value: Value)
    ensures
        unwound(return_value(m, node, value), m.globals, m.locals),
{
    let at = call_boundary(m.tasks);
    if at >= 0 {
        match m.tasks[at] {
            Task::FinishCall { caller, receiver, base } => {
                lemma_finish_call_unwinds(
                    MachineView { tasks: m.tasks.subrange(0, at), ..m },
                    caller,
                    receiver,
                    base,
                    value,
                );
            },
            _ => {},
        }
    }
}

/// The evaluation of an expression that fails at once leaves every block
/// and call.
proof fn lemma_evaluate_unwinds<'a>(m: MachineView<'a>, expr: &'a Expr<'a>)
    ensures
        unwound(semantics::evaluate(m, expr), m.globals, m.locals),
{
    match expr {
        Expr::Super(node) => {
            assert(unwound(super_method(m, *node), m.globals, m.locals));
        },
        Expr::This(node) => {
            assert(unwound(semantics::lookup_variable(m, node.keyword), m.globals, m.locals));
        },
        Expr::Variable(node) => {
            assert(unwound(semantics::lookup_variable(m, node.name), m.globals, m.locals));
        },
        _ => {},
    }
}

/// The declaration of a class that fails leaves every block and call.
proof fn lemma_declare_class_unwinds<'a>(
    m: MachineView<'a>,
    node: &'a StmtClass<'a>,
    superclass: Option<usize>,
)
    ensures
        unwound(semantics::declare_class(m, node, superclass), m.globals, m.locals),
{
}

/// The execution of a statement that fails at once leaves every block and
/// call.
proof fn lemma_execute_unwinds<'a>(m: MachineView<'a>, stmt: &'a Stmt<'a>)
    ensures
        unwound(semantics::execute(m, stmt), m.globals, m.locals),
{
    match stmt {
        Stmt::Class(node) => {
            if node.superclass is None {
                lemma_declare_class_unwinds(m, node, None);
            }
        },
        Stmt::Return(node) => {
            if node.value is None {
                lemma_return_unwinds(m, node, Value::Nil);
            }
        },
        _ => {},
    }
}

/// A call that fails leaves every block and call.
proof fn lemma_call_unwinds<'a>(m: MachineView<'a>, node: &'a ExprCall<'a>)
    ensures
        unwound(semantics::call(m, node), m.globals, m.locals),
{
}

/// Work on a value that fails leaves every block and call.
proof fn lemma_consume_unwinds<'a>(m: MachineView<'a>, task: Task<'a>, value: Value)
    ensures
        unwound(semantics::consume(m, task, value), m.globals, m.locals),
{
    match task {
        Task::Return(node) => {
            lemma_return_unwinds(m, node, value);
        },
        Task::Unary(node) => {
            assert(unwound(semantics::unary(m, node, value), m.globals, m.locals));
        },
        _ => {},
    }
}

/// Work that fails leaves every block and call.
proof fn lemma_perform_unwinds<'a>(m: MachineView<'a>, task: Task<'a>)
    ensures
        unwound(semantics::perform(m, task), m.globals, m.locals),
{
    match task {
        Task::Execute(stmt) => {
            lemma_execute_unwinds(m, stmt);
        },
        Task::Evaluate(expr) => {
            lemma_evaluate_unwinds(m, expr);
        },
        Task::FinishCall { caller, receiver, base } => {
            lemma_finish_call_unwinds(m, caller, receiver, base, Value::Nil);
        },
        Task::DeclareClass(node) => {
            if m.values.len() > 0 {
                if let Value::Callable(Callable::Class(parent)) = m.values.last() {
                    lemma_declare_class_unwinds(semantics::pop(m), node, Some(parent));
                }
            }
        },
        Task::Call(node) => {
            lemma_call_unwinds(m, node);
        },
        Task::Binary(node) => {
            if m.values.len() >= 2 {
                assert(unwound(
                    semantics::binary(
                        semantics::pop(semantics::pop(m)),
                        node,
                        m.values[m.values.len() - 2],
                        m.values.last(),
                    ),
                    m.globals,
                    m.locals,
                ));
            }
        },
        Task::Sequence(_, _) => {},
        Task::Arguments(_, _) => {},
        Task::LeaveBlock(_) => {},
        Task::CallCheck(_) => {},
        Task::LogicalRight(_) => {},
        Task::SetCheck(_) => {},
        Task::SetStore(_) => {},
        _ => {
            if m.values.len() > 0 {
                lemma_consume_unwinds(semantics::pop(m), task, m.values.last());
            }
        },
    }
}

/// A runtime error leaves every block and every call: whatever the machine
/// and whatever the host answers, after a step that fails the current frame
/// is the globals again, and the agenda and the value stack are empty, so
/// that the machine is ready for another program. No step changes which
/// frame holds the globals, nor the table of depths, which the machine only
/// reads.
pub proof fn lemma_failure_unwinds_to_the_globals<'a>(m: MachineView<'a>, event: Event)
    ensures
        unwound(semantics::step(m, event), m.globals, m.locals),
{
    if m.awaiting == Awaiting::Nothing && m.tasks.len() > 0 {
        lemma_perform_unwinds(MachineView { tasks: m.tasks.drop_last(), ..m }, m.tasks.last());
    }
}

/// A function keeps the frame in which it was declared: the declaration
/// stores a function whose closure is the frame that is current then, a
/// frame of the store.
pub proof fn lemma_declaration_captures_the_frame<'a>(
    m: MachineView<'a>,
    node: &'a crate::ast::StmtFunction<'a>,
    stmt: &'a Stmt<'a>,
)
    requires
        *stmt == Stmt::Function(*node),
        m.environment < m.store.environments.len(),
    ensures
        ({
            let after = semantics::execute(m, stmt).0;
            &&& after.store.functions.len() == m.store.functions.len() + 1
            &&& after.store.functions.last().closure == m.environment
            &&& after.store.functions.last().declaration == node
            &&& after.environment == m.environment
        }),
{
    let function = LoxFunction { declaration: node, closure: m.environment, is_initializer: false };
    let after = semantics::execute(m, stmt).0;
    assert(after.store.functions == m.store.functions.push(function));
}

/// Closures are lexically scoped: a call runs the body of the function in a
/// new frame inside the closure of the function, whatever frame the caller
/// stands in; no frame that was there before is changed; and the end of the
/// call, which is put below the body, gives the caller its frame back.
pub proof fn lemma_call_runs_in_the_closure<'a>(
    m: MachineView<'a>,
    function: LoxFunction<'a>,
    arguments: Seq<Value>,
)
    requires
        m.store.environments.len() < usize::MAX,
    ensures
        ({
            let after = invoke(m, function, arguments).0;
            let frame = m.store.environments.len() as int;
            &&& after.environment == frame
            &&& after.store.environments.len() == frame + 1
            &&& after.store.environments[frame].enclosing == Some(function.closure)
            &&& forall|older: int|
                0 <= older < frame ==> after.store.environments[older]
                    == m.store.environments[older]
            &&& after.tasks.len() == m.tasks.len() + 2
            &&& after.tasks[m.tasks.len() as int] matches Task::FinishCall { caller, .. }
                && caller == m.environment
            &&& after.tasks.last() == Task::Sequence(&function.declaration.body, 0)
        }),
{
    let framed = with_frame(m.store, Some(function.closure));
    let frame = m.store.environments.len() as usize;
    lemma_bind_parameters_is_local(framed, frame, function.declaration.params@, arguments, 0);
    let after = invoke(m, function, arguments).0;
    assert forall|older: int| 0 <= older < frame implies after.store.environments[older]
        == m.store.environments[older] by {
        assert(framed.environments[older] == m.store.environments[older]);
    }
}

/// A block runs in a frame of its own and gives the frame back: its
/// statements run in a new frame inside the current one, and the work put
/// below them makes the frame from before the block the current one again.
pub proof fn lemma_block_gives_the_frame_back<'a>(
    m: MachineView<'a>,
    node: &'a crate::ast::StmtBlock<'a>,
    stmt: &'a Stmt<'a>,
)
    requires
        *stmt == Stmt::Block(*node),
        m.store.environments.len() < usize::MAX,
    ensures
        ({
            let after = semantics::execute(m, stmt).0;
            let frame = m.store.environments.len() as int;
            &&& after.environment == frame
            &&& after.store.environments[frame].enclosing == Some(m.environment)
            &&& after.tasks == m.tasks.push(Task::LeaveBlock(m.environment)).push(
                Task::Sequence(&node.statements, 0),
            )
            &&& forall|later: MachineView<'a>|
                (#[trigger] semantics::perform(later, Task::LeaveBlock(m.environment))).0.environment
                    == m.environment
        }),
{
}

/// `==` and `!=` take any two values and never fail.
pub proof fn lemma_equality_never_fails<'a>(
    m: MachineView<'a>,
    node: &'a ExprBinary<'a>,
    left: Value,
    right: Value,
)
    requires
        node.operator.kind == TokenType::EqualEqual || node.operator.kind == TokenType::BangEqual,
    ensures
        !(semantics::binary(m, node, left, right).1 is Failed),
{
}

/// `-`, `*`, `/` and the four orderings take two numbers: with any other
/// operand they fail, and with two numbers they ask the host and do not
/// fail.
pub proof fn lemma_numeric_operators_take_numbers<'a>(
    m: MachineView<'a>,
    node: &'a ExprBinary<'a>,
    left: Value,
    right: Value,
)
    requires
        ({
            let kind = node.operator.kind;
            kind == TokenType::Minus || kind == TokenType::Star || kind == TokenType::Slash || kind
                == TokenType::Greater || kind == TokenType::GreaterEqual || kind == TokenType::Less
                || kind == TokenType::LessEqual
        }),
    ensures
        left is Number && right is Number ==> !(semantics::binary(m, node, left, right).1
            is Failed),
        !(left is Number && right is Number) ==> semantics::binary(m, node, left, right).1 == (
        Action::Failed(RuntimeError::MutlipleNumberOperands { operator: node.operator })),
{
}

/// `+` takes two numbers or two strings: with any other operands it fails.
pub proof fn lemma_plus_takes_numbers_or_strings<'a>(
    m: MachineView<'a>,
    node: &'a ExprBinary<'a>,
    left: Value,
    right: Value,
)
    requires
        node.operator.kind == TokenType::Plus,
        !(left is Number && right is Number),
        !(left is String && right is String),
    ensures
        semantics::binary(m, node, left, right).1 == (Action::Failed(
            RuntimeError::NumberOrStringOperands { operator: node.operator },
        )),
{
}

/// `!` takes any value and gives a truth value: whether the value is falsy.
/// `-` takes a number only.
pub proof fn lemma_unary_rules<'a>(m: MachineView<'a>, node: &'a ExprUnary<'a>, value: Value)
    ensures
        node.operator.kind == TokenType::Bang ==> semantics::unary(m, node, value)
            == semantics::give(m, Value::Boolean(!value.truthy())),
        node.operator.kind == TokenType::Minus && !(value is Number) ==> semantics::unary(
            m,
            node,
            value,
        ).1 == (Action::Failed(RuntimeError::NumberOperand { operator: node.operator })),
{
}

} // verus!
