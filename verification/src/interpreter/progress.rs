//! A machine that fits the resolver's table and is steady never fails on its
//! own account: whatever the program does, no step ends in an internal
//! error, and the machine stays steady.

use vstd::prelude::*;
use crate::ast::{
    Expr, ExprBinary, ExprCall, ExprGet, ExprSuper, ExprUnary, Stmt, StmtClass, StmtReturn,
};
use crate::lex::{Token, TokenType};
use super::binding::{lemma_depth_leads_to_the_binding, models};
use super::callable::{Callable, LoxFunction};
use super::class::find_method;
use super::environment::{ancestor, assign, binding_frame, get, get_at};
use super::error::RuntimeError;
use super::fitting::{fits, task_fits, Notes};
use super::machine::{Action, Arithmetic, Awaiting, Event, MachineView, Task};
use super::resolved::{expr_fits, read_fits, super_fits};
use super::scoping::{key_of, Scope};
use super::semantics;
use super::soundness::{
    bounded, lemma_assignment_finds_its_frame, lemma_read_finds_its_binding,
};
use super::steadiness::{
    all_valid, binds_this, extends, floor, height, leaves, lemma_all_valid_extends,
    lemma_bind_method_valid, lemma_binding_valid, lemma_class_valid, lemma_field_valid,
    lemma_floor_same, lemma_found_method_is_linked, lemma_frame_valid, lemma_function_valid,
    lemma_get_valid,
    lemma_instance_valid, lemma_parameters_valid, lemma_read_valid, lemma_receivers_extend,
    lemma_string_valid, lemma_supplied_same, lemma_valid_extends, receivers_bound, steady,
    store_valid, supplied, takes, valid,
};
use super::store::{
    arity, bind_method, get_property, with_binding, with_class, with_field, with_frame,
    with_function, with_instance, with_string, StoreView,
};
use super::value::Value;

verus! {

/// Whether the action reports a failure of the machine itself.
pub open spec fn internal_failure(action: Action) -> bool {
    action matches Action::Failed(error) && (error == semantics::internal()
        || error == RuntimeError::EnvironmentCreationError)
}

/// Whether the step leaves a steady machine and no failure of its own.
pub open spec fn carries_on(outcome: (MachineView, Action)) -> bool {
    steady(outcome.0) && !internal_failure(outcome.1)
}

/// Whether the host answers what the machine waits for.
pub open spec fn answers(awaiting: Awaiting, event: Event) -> bool {
    match awaiting {
        Awaiting::Nothing => true,
        Awaiting::Number => event is Number,
        Awaiting::Boolean => event is Boolean,
    }
}

/// How many values the value stack holds.
pub open spec fn high(m: MachineView) -> int {
    m.values.len() as int
}

/// How many pieces of work the agenda holds.
pub open spec fn pending(m: MachineView) -> int {
    m.tasks.len() as int
}

/// Whether a machine from whose agenda the work to do next was taken is
/// steady but for that work, where the work below it begins with `expects`
/// values on the value stack.
pub open spec fn rest_steady(m: MachineView, expects: int) -> bool {
    &&& store_valid(m.store)
    &&& all_valid(m.store, m.values)
    &&& receivers_bound(m.store, m.tasks)
    &&& m.awaiting == Awaiting::Nothing
    &&& supplied(m.tasks, pending(m), expects)
}

/// A failure that the program has caused leaves a steady machine.
proof fn lemma_fail_carries<'a>(m: MachineView<'a>, error: RuntimeError<'a>)
    requires
        store_valid(m.store),
        error != semantics::internal::<'a>(),
        error != RuntimeError::EnvironmentCreationError::<'a>,
    ensures
        carries_on(semantics::fail(m, error)),
{
}

/// A valid value that the work taken gives is what the work below expects.
proof fn lemma_give_carries(m: MachineView, value: Value)
    requires
        rest_steady(m, high(m) + 1),
        valid(m.store, value),
    ensures
        carries_on(semantics::give(m, value)),
{
    let after = semantics::push(m, value);
    assert forall|i: int| 0 <= i < after.values.len() implies valid(
        after.store,
        #[trigger] after.values[i],
    ) by {
        if i < m.values.len() {
            assert(after.values[i] == m.values[i]);
        }
    }
}

/// The machine waits for a value in place of the work taken.
proof fn lemma_ask_carries<'a>(m: MachineView<'a>, awaiting: Awaiting, action: Action<'a>)
    requires
        rest_steady(m, high(m) + 1),
        awaiting != Awaiting::Nothing,
        !(action is Failed),
    ensures
        carries_on(semantics::ask(m, awaiting, action)),
{
}

/// A machine with another store that extends the store is steady as before.
proof fn lemma_stored_rest<'a>(m: MachineView<'a>, expects: int, store: StoreView<'a>)
    requires
        rest_steady(m, expects),
        store_valid(store),
        extends(m.store, store),
    ensures
        rest_steady(semantics::stored(m, store), expects),
{
    lemma_all_valid_extends(m.store, store, m.values);
    lemma_receivers_extend(m.store, store, m.tasks);
}

/// A piece of work put on the agenda in place of the work taken, which
/// begins with `begins` values on the value stack.
proof fn lemma_schedule(m: MachineView, expects: int, task: Task, begins: int)
    requires
        rest_steady(m, expects),
        !(task is FinishCall),
        floor(m.tasks, pending(m)) + takes(task) <= begins,
        begins + leaves(task) == expects,
    ensures
        rest_steady(semantics::schedule(m, task), begins),
        floor(semantics::schedule(m, task).tasks, pending(m) + 1) == floor(
            m.tasks,
            pending(m),
        ),
{
    let after = semantics::schedule(m, task);
    let count = pending(m);
    lemma_supplied_same(m.tasks, after.tasks, count, expects);
    lemma_floor_same(m.tasks, after.tasks, count);
    assert(after.tasks[count] == task);
    assert forall|i: int| 0 <= i < after.tasks.len() implies match #[trigger] after.tasks[i] {
        Task::FinishCall { receiver: Some(frame), .. } => binds_this(after.store, frame),
        _ => true,
    } by {
        if i < count {
            assert(after.tasks[i] == m.tasks[i]);
        }
    }
}

/// Two pieces of work put on the agenda of which neither takes a value and
/// the first leaves the one value that the second takes.
proof fn lemma_then_first(m: MachineView, expects: int, then: Task, first: Task)
    requires
        rest_steady(m, expects),
        floor(m.tasks, pending(m)) <= high(m),
        !(then is FinishCall),
        !(first is FinishCall),
        takes(first) == 0,
        takes(then) <= high(m) + leaves(first) - floor(m.tasks, pending(m)),
        high(m) + leaves(first) + leaves(then) == expects,
    ensures
        carries_on(semantics::proceed(semantics::schedule(semantics::schedule(m, then), first))),
{
    lemma_schedule(m, expects, then, high(m) + leaves(first));
    lemma_schedule(
        semantics::schedule(m, then),
        high(m) + leaves(first),
        first,
        high(m),
    );
}

/// Binding a valid value in the current frame carries on.
proof fn lemma_define_carries(m: MachineView, name: Seq<char>, value: Option<Value>)
    requires
        rest_steady(m, high(m)),
        m.environment < m.store.environments.len(),
        value is Some ==> valid(m.store, value->0),
    ensures
        carries_on(semantics::define(m, name, value)),
{
    lemma_binding_valid(m.store, m.environment, name, value);
    lemma_stored_rest(m, high(m), with_binding(m.store, m.environment, name, value));
}

/// Reading a variable carries on.
proof fn lemma_lookup_carries<'a>(m: MachineView<'a>, scopes: Seq<Scope>, name: Token<'a>)
    requires
        rest_steady(m, high(m) + 1),
        models(m.store.environments, m.environment, scopes),
        m.store.environments.len() <= usize::MAX,
        read_fits(m.locals, scopes, key_of(name), name.lexeme@),
    ensures
        carries_on(semantics::lookup_variable(m, name)),
{
    if m.locals.contains_key(key_of(name)) {
        lemma_read_finds_its_binding(m, scopes, key_of(name), name.lexeme@);
        lemma_read_valid(m.store, m.environment, m.locals[key_of(name)] as nat, name.lexeme@);
        lemma_give_carries(
            m,
            get_at(
                m.store.environments,
                m.environment,
                m.locals[key_of(name)] as nat,
                name.lexeme@,
            )->0,
        );
    } else {
        match get(m.store.environments, m.globals, name) {
            Ok(value) => {
                lemma_get_valid(m.store, m.globals, name);
                lemma_give_carries(m, value);
            },
            Err(error) => {
                lemma_fail_carries(m, error);
            },
        }
    }
}

/// Whether the value stack is as high as the innermost call asks.
pub open spec fn grounded(m: MachineView) -> bool {
    floor(m.tasks, pending(m)) <= high(m)
}

/// The bindings of `super` and of `this` are found where the table fits.
proof fn lemma_super_bindings(m: MachineView, scopes: Seq<Scope>, key: u32)
    requires
        models(m.store.environments, m.environment, scopes),
        m.store.environments.len() <= usize::MAX,
        super_fits(m.locals, scopes, key),
    ensures
        m.locals.contains_key(key),
        m.locals[key] >= 1,
        get_at(m.store.environments, m.environment, m.locals[key] as nat, "super"@) is Some,
        get_at(m.store.environments, m.environment, (m.locals[key] - 1) as nat, "this"@) is Some,
{
    let frames = m.store.environments;
    super::binding::lemma_models_bounds_the_scopes(frames, m.environment, scopes);
    lemma_depth_leads_to_the_binding(frames, m.environment, scopes, "super"@);
    let depth = super::scoping::depth_of(scopes, "super"@)->0;
    super::binding::lemma_ancestor_models(frames, m.environment, scopes, (depth - 1) as nat);
    let inner = scopes.subrange(0, scopes.len() - (depth - 1));
    assert(inner.last() == scopes[scopes.len() - depth]);
}

/// `super.m` carries on.
proof fn lemma_super_carries<'a>(m: MachineView<'a>, scopes: Seq<Scope>, node: ExprSuper<'a>)
    requires
        rest_steady(m, high(m) + 1),
        models(m.store.environments, m.environment, scopes),
        super_fits(m.locals, scopes, key_of(node.keyword)),
        bounded(m.store),
        bounded(semantics::super_method(m, node).0.store),
    ensures
        carries_on(semantics::super_method(m, node)),
{
    let key = key_of(node.keyword);
    lemma_super_bindings(m, scopes, key);
    let distance = m.locals[key];
    let parent = get_at(m.store.environments, m.environment, distance as nat, "super"@);
    let object = get_at(m.store.environments, m.environment, (distance - 1) as nat, "this"@);
    lemma_read_valid(m.store, m.environment, distance as nat, "super"@);
    lemma_read_valid(m.store, m.environment, (distance - 1) as nat, "this"@);
    match (parent, object) {
        (Some(Value::Callable(Callable::Class(class))), Some(Value::Instance(instance))) => {
            match find_method(m.store.classes, class, node.method.lexeme@) {
                Some(method) => {
                    let (store, function) = bind_method(m.store, method, instance);
                    lemma_found_method_is_linked(m.store, class, node.method.lexeme@);
                    lemma_bind_method_valid(m.store, method, instance);
                    lemma_stored_rest(m, high(m) + 1, store);
                    lemma_give_carries(
                        semantics::stored(m, store),
                        Value::Callable(Callable::Function(function)),
                    );
                },
                None => {
                    lemma_fail_carries(
                        m,
                        RuntimeError::ClassError(
                            super::error::ClassError::UndefinedProperty { token: node.method },
                        ),
                    );
                },
            }
        },
        _ => {
            lemma_fail_carries(
                m,
                RuntimeError::ClassError(
                    super::error::ClassError::SuperclassNotAClass { token: node.keyword },
                ),
            );
        },
    }
}

/// Beginning the evaluation of an expression carries on.
proof fn lemma_evaluate_carries<'a>(m: MachineView<'a>, scopes: Seq<Scope>, expr: &'a Expr<'a>)
    requires
        rest_steady(m, high(m) + 1),
        grounded(m),
        models(m.store.environments, m.environment, scopes),
        expr_fits(m.locals, scopes, *expr),
        bounded(m.store),
        bounded(semantics::evaluate(m, expr).0.store),
    ensures
        carries_on(semantics::evaluate(m, expr)),
{
    let expects = high(m) + 1;
    match expr {
        Expr::Literal(node) => match &node.value {
            crate::ast::LiteralValue::Number(text) => {
                lemma_ask_carries(m, Awaiting::Number, Action::ParseNumber(text));
            },
            crate::ast::LiteralValue::String(text) => {
                lemma_string_valid(m.store, text@);
                lemma_stored_rest(m, expects, with_string(m.store, text@));
                lemma_give_carries(
                    semantics::stored(m, with_string(m.store, text@)),
                    Value::String(m.store.strings.len() as usize),
                );
            },
            crate::ast::LiteralValue::Bool(b) => {
                lemma_give_carries(m, Value::Boolean(*b));
            },
            crate::ast::LiteralValue::Nil => {
                lemma_give_carries(m, Value::Nil);
            },
        },
        Expr::Grouping(node) => {
            lemma_schedule(m, expects, Task::Evaluate(&*node.value), high(m));
        },
        Expr::Logical(node) => {
            lemma_then_first(m, expects, Task::LogicalRight(node), Task::Evaluate(&*node.left));
        },
        Expr::PropertySet(node) => {
            lemma_then_first(m, expects, Task::SetCheck(node), Task::Evaluate(&*node.object));
        },
        Expr::Super(node) => {
            lemma_super_carries(m, scopes, *node);
        },
        Expr::This(node) => {
            lemma_lookup_carries(m, scopes, node.keyword);
        },
        Expr::Unary(node) => {
            lemma_then_first(m, expects, Task::Unary(node), Task::Evaluate(&*node.value));
        },
        Expr::Binary(node) => {
            lemma_schedule(m, expects, Task::Binary(node), high(m) + 2);
            let first = semantics::schedule(m, Task::Binary(node));
            lemma_schedule(first, high(m) + 2, Task::Evaluate(&*node.right), high(m) + 1);
            let second = semantics::schedule(first, Task::Evaluate(&*node.right));
            lemma_schedule(second, high(m) + 1, Task::Evaluate(&*node.left), high(m));
        },
        Expr::Call(node) => {
            lemma_then_first(m, expects, Task::CallCheck(node), Task::Evaluate(&*node.callee));
        },
        Expr::Get(node) => {
            lemma_then_first(m, expects, Task::GetProperty(node), Task::Evaluate(&*node.object));
        },
        Expr::Assign(node) => {
            lemma_then_first(m, expects, Task::Assign(node), Task::Evaluate(&*node.value));
        },
        Expr::Variable(node) => {
            lemma_lookup_carries(m, scopes, node.name);
        },
    }
}

/// The end of a call carries on.
proof fn lemma_finish_call_carries<'a>(
    m: MachineView<'a>,
    caller: usize,
    receiver: Option<usize>,
    base: usize,
    value: Value,
)
    requires
        store_valid(m.store),
        all_valid(m.store, m.values),
        receivers_bound(m.store, m.tasks),
        m.awaiting == Awaiting::Nothing,
        supplied(m.tasks, pending(m), base + 1),
        base <= high(m),
        valid(m.store, value),
        receiver is Some ==> binds_this(m.store, receiver->0),
    ensures
        carries_on(semantics::finish_call(m, caller, receiver, base, value)),
{
    let back = MachineView { environment: caller, values: semantics::cut(m.values, base), ..m };
    assert(all_valid(back.store, back.values)) by {
        assert forall|i: int| 0 <= i < back.values.len() implies valid(
            back.store,
            #[trigger] back.values[i],
        ) by {
            assert(back.values[i] == m.values[i]);
        }
    }
    assert(rest_steady(back, high(back) + 1));
    match receiver {
        Some(frame) => {
            assert(ancestor(m.store.environments, frame, 0) == Some(frame));
            lemma_read_valid(m.store, frame, 0, "this"@);
            lemma_give_carries(back, get_at(m.store.environments, frame, 0, "this"@)->0);
        },
        None => {
            lemma_give_carries(back, value);
        },
    }
}

/// In a supplied agenda, the innermost call asks for as many values as the
/// floor says, and the work below its end is supplied with one more.
proof fn lemma_boundary_supplied(tasks: Seq<Task>, height: int)
    requires
        supplied(tasks, tasks.len() as int, height),
    ensures
        semantics::call_boundary(tasks) >= 0 ==> {
            &&& tasks[semantics::call_boundary(tasks)] matches Task::FinishCall { base, .. }
            &&& floor(tasks, tasks.len() as int) == base
            &&& supplied(tasks, semantics::call_boundary(tasks), base + 1)
        },
        -1 <= semantics::call_boundary(tasks) < tasks.len(),
    decreases tasks.len(),
{
    if tasks.len() > 0 {
        let count = tasks.len() as int;
        match tasks.last() {
            Task::FinishCall { base, .. } => {},
            task => {
                let rest = tasks.drop_last();
                lemma_supplied_same(tasks, rest, count - 1, height + leaves(task));
                lemma_boundary_supplied(rest, height + leaves(task));
                let at = semantics::call_boundary(rest);
                if at >= 0 {
                    assert(rest[at] == tasks[at]);
                    let base = rest[at]->FinishCall_base;
                    lemma_floor_same(tasks, rest, count - 1);
                    lemma_supplied_same(rest, tasks, at, base + 1);
                }
            },
        }
    }
}

/// `return` carries on.
proof fn lemma_return_carries<'a>(m: MachineView<'a>, node: &'a StmtReturn<'a>, value: Value)
    requires
        rest_steady(m, high(m)),
        grounded(m),
        valid(m.store, value),
    ensures
        carries_on(semantics::return_value(m, node, value)),
{
    let at = semantics::call_boundary(m.tasks);
    lemma_boundary_supplied(m.tasks, high(m));
    if at < 0 {
        lemma_fail_carries(
            m,
            RuntimeError::ResolverError(
                super::error::ResolverError::TopLevelReturn { token: node.keyword },
            ),
        );
    } else {
        match m.tasks[at] {
            Task::FinishCall { caller, receiver, base } => {
                let cut = MachineView { tasks: m.tasks.subrange(0, at), ..m };
                lemma_supplied_same(m.tasks, cut.tasks, at, base + 1);
                assert forall|i: int| 0 <= i < cut.tasks.len() implies match #[trigger] cut.tasks[i] {
                    Task::FinishCall { receiver: Some(frame), .. } => binds_this(cut.store, frame),
                    _ => true,
                } by {
                    assert(cut.tasks[i] == m.tasks[i]);
                }
                lemma_finish_call_carries(cut, caller, receiver, base, value);
            },
            _ => {},
        }
    }
}

/// Declaring a class carries on.
proof fn lemma_declare_class_carries<'a>(
    m: MachineView<'a>,
    node: &'a StmtClass<'a>,
    superclass: Option<usize>,
)
    requires
        rest_steady(m, high(m)),
        m.environment < m.store.environments.len(),
        superclass is Some ==> superclass->0 < m.store.classes.len(),
        bounded(m.store),
        bounded(semantics::declare_class(m, node, superclass).0.store),
    ensures
        carries_on(semantics::declare_class(m, node, superclass)),
{
    let (after, action) = semantics::declare_class(m, node, superclass);
    let name = node.name.lexeme@;
    let env = m.environment;
    let declared = with_binding(m.store, env, name, None);
    lemma_binding_valid(m.store, env, name, None);
    let frame = declared.environments.len() as usize;
    let (framed, closure) = match superclass {
        Some(parent) => (
            with_binding(
                with_frame(declared, Some(env)),
                frame,
                "super"@,
                Some(Value::Callable(Callable::Class(parent))),
            ),
            frame,
        ),
        None => (declared, env),
    };
    if let Some(parent) = superclass {
        lemma_frame_valid(declared, Some(env));
        lemma_binding_valid(
            with_frame(declared, Some(env)),
            frame,
            "super"@,
            Some(Value::Callable(Callable::Class(parent))),
        );
        lemma_extends_transitive(declared, with_frame(declared, Some(env)), framed);
    }
    lemma_extends_transitive(m.store, declared, framed);
    let class = framed.classes.len() as usize;
    let table = semantics::methods_table(&node.methods, closure, 0, Map::empty());
    let view = super::class::ClassView { name, superclass, methods: table };
    let made = with_class(framed, view);
    lemma_methods_close_over(&node.methods, closure, 0, Map::empty());
    lemma_class_valid(framed, view);
    lemma_extends_transitive(m.store, framed, made);
    match assign(made.environments, env, node.name, Value::Callable(Callable::Class(class))) {
        Ok(frames) => {
            let at = binding_frame(made.environments, env, name)->0;
            let assigned = with_binding(made, at, name, Some(Value::Callable(Callable::Class(class))));
            assert(assigned == StoreView { environments: frames, ..made });
            lemma_binding_valid(made, at, name, Some(Value::Callable(Callable::Class(class))));
            lemma_extends_transitive(m.store, made, assigned);
            lemma_stored_rest(m, high(m), assigned);
        },
        Err(error) => {
            lemma_fail_carries(semantics::stored(m, made), error);
        },
    }
}

/// Every method of a table of methods closes over the frame `closure`, where
/// those found before do.
proof fn lemma_methods_close_over<'a>(
    list: &'a Vec<crate::ast::StmtFunction<'a>>,
    closure: usize,
    from: int,
    found: Map<Seq<char>, LoxFunction<'a>>,
)
    requires
        0 <= from,
        forall|name: Seq<char>| #[trigger] found.contains_key(name) ==> found[name].closure == closure,
    ensures
        forall|name: Seq<char>| #[trigger]
            semantics::methods_table(list, closure, from, found).contains_key(name)
                ==> semantics::methods_table(list, closure, from, found)[name].closure == closure,
    decreases list@.len() - from,
{
    if from < list@.len() {
        let more = found.insert(
            list@[from].name.lexeme@,
            LoxFunction {
                declaration: &list@[from],
                closure,
                is_initializer: list@[from].name.lexeme@ == "init"@,
            },
        );
        lemma_methods_close_over(list, closure, from + 1, more);
    }
}

/// Stores that extend each other in turn extend each other.
proof fn lemma_extends_transitive(first: StoreView, second: StoreView, third: StoreView)
    requires
        extends(first, second),
        extends(second, third),
    ensures
        extends(first, third),
{
    assert forall|frame: int, name: Seq<char>|
        0 <= frame < first.environments.len() && first.environments[frame].values.contains_key(
            name,
        ) implies #[trigger] third.environments[frame].values.contains_key(name) by {
        assert(second.environments[frame].values.contains_key(name));
    }
}

/// The floor is a height.
proof fn lemma_floor_is_a_height(tasks: Seq<Task>, count: int)
    ensures
        floor(tasks, count) >= 0,
    decreases count,
{
    if count > 0 {
        lemma_floor_is_a_height(tasks, count - 1);
    }
}

/// Beginning the execution of a statement carries on.
proof fn lemma_execute_carries<'a>(m: MachineView<'a>, stmt: &'a Stmt<'a>)
    requires
        rest_steady(m, high(m)),
        grounded(m),
        m.environment < m.store.environments.len(),
        bounded(m.store),
        bounded(semantics::execute(m, stmt).0.store),
    ensures
        carries_on(semantics::execute(m, stmt)),
{
    let expects = high(m);
    match stmt {
        Stmt::Block(node) => {
            let store = with_frame(m.store, Some(m.environment));
            lemma_frame_valid(m.store, Some(m.environment));
            lemma_stored_rest(m, expects, store);
            let inside = MachineView {
                environment: m.store.environments.len() as usize,
                ..semantics::stored(m, store)
            };
            lemma_then_first(
                inside,
                expects,
                Task::LeaveBlock(m.environment),
                Task::Sequence(&node.statements, 0),
            );
            assert(semantics::execute(m, stmt).0 == semantics::schedule(
                semantics::schedule(inside, Task::LeaveBlock(m.environment)),
                Task::Sequence(&node.statements, 0),
            ));
        },
        Stmt::Class(node) => match &node.superclass {
            Some(parent) => {
                lemma_then_first(m, expects, Task::DeclareClass(node), Task::Evaluate(parent));
            },
            None => {
                lemma_declare_class_carries(m, node, None);
            },
        },
        Stmt::Expression(node) => {
            lemma_then_first(m, expects, Task::Discard, Task::Evaluate(&node.expr));
        },
        Stmt::Function(node) => {
            let function = LoxFunction {
                declaration: node,
                closure: m.environment,
                is_initializer: false,
            };
            lemma_function_valid(m.store, function);
            lemma_stored_rest(m, expects, with_function(m.store, function));
            lemma_define_carries(
                semantics::stored(m, with_function(m.store, function)),
                node.name.lexeme@,
                Some(Value::Callable(Callable::Function(m.store.functions.len() as usize))),
            );
        },
        Stmt::If(node) => {
            lemma_then_first(m, expects, Task::Branch(node), Task::Evaluate(&node.condition));
        },
        Stmt::Print(node) => {
            lemma_then_first(m, expects, Task::Print, Task::Evaluate(&node.expr));
        },
        Stmt::Return(node) => match &node.value {
            Some(value) => {
                lemma_then_first(m, expects, Task::Return(node), Task::Evaluate(value));
            },
            None => {
                lemma_return_carries(m, node, Value::Nil);
            },
        },
        Stmt::Var(node) => match &node.initializer {
            Some(value) => {
                lemma_then_first(m, expects, Task::DefineVar(node), Task::Evaluate(value));
            },
            None => {
                lemma_define_carries(m, node.name.lexeme@, None);
            },
        },
        Stmt::While(node) => {
            lemma_then_first(m, expects, Task::Loop(node), Task::Evaluate(&node.condition));
        },
    }
}

/// Applying a unary operator carries on.
proof fn lemma_unary_carries<'a>(m: MachineView<'a>, node: &'a ExprUnary<'a>, value: Value)
    requires
        rest_steady(m, high(m) + 1),
    ensures
        carries_on(semantics::unary(m, node, value)),
{
    match node.operator.kind {
        TokenType::Minus => match value {
            Value::Number(n) => {
                lemma_ask_carries(m, Awaiting::Number, Action::Negate(n));
            },
            _ => {
                lemma_fail_carries(m, RuntimeError::NumberOperand { operator: node.operator });
            },
        },
        TokenType::Bang => {
            lemma_give_carries(m, Value::Boolean(!value.truthy()));
        },
        _ => {
            lemma_fail_carries(m, RuntimeError::NumberOperand { operator: node.operator });
        },
    }
}

/// Applying a binary operator to valid values carries on.
proof fn lemma_binary_carries<'a>(
    m: MachineView<'a>,
    node: &'a ExprBinary<'a>,
    left: Value,
    right: Value,
)
    requires
        rest_steady(m, high(m) + 1),
        valid(m.store, left),
        valid(m.store, right),
    ensures
        carries_on(semantics::binary(m, node, left, right)),
{
    let kind = node.operator.kind;
    let both = RuntimeError::MutlipleNumberOperands { operator: node.operator };
    if kind == TokenType::EqualEqual || kind == TokenType::BangEqual {
        match (left, right) {
            (Value::Number(l), Value::Number(r)) => {
                lemma_ask_carries(
                    m,
                    Awaiting::Boolean,
                    Action::Compare(semantics::comparison_of(kind)->0, l, r),
                );
            },
            _ => {
                lemma_give_carries(
                    m,
                    Value::Boolean(
                        semantics::same(m.store, left, right) == (kind == TokenType::EqualEqual),
                    ),
                );
            },
        }
    } else if semantics::comparison_of(kind) is Some {
        match (left, right) {
            (Value::Number(l), Value::Number(r)) => {
                lemma_ask_carries(
                    m,
                    Awaiting::Boolean,
                    Action::Compare(semantics::comparison_of(kind)->0, l, r),
                );
            },
            _ => {
                lemma_fail_carries(m, both);
            },
        }
    } else if kind == TokenType::Plus {
        match (left, right) {
            (Value::Number(l), Value::Number(r)) => {
                lemma_ask_carries(
                    m,
                    Awaiting::Number,
                    Action::Calculate(Arithmetic::Add, l, r),
                );
            },
            (Value::String(l), Value::String(r)) => {
                let text = m.store.strings[l as int] + m.store.strings[r as int];
                lemma_string_valid(m.store, text);
                lemma_stored_rest(m, high(m) + 1, with_string(m.store, text));
                lemma_give_carries(
                    semantics::stored(m, with_string(m.store, text)),
                    Value::String(m.store.strings.len() as usize),
                );
            },
            _ => {
                lemma_fail_carries(
                    m,
                    RuntimeError::NumberOrStringOperands { operator: node.operator },
                );
            },
        }
    } else if semantics::arithmetic_of(kind) is Some {
        match (left, right) {
            (Value::Number(l), Value::Number(r)) => {
                lemma_ask_carries(
                    m,
                    Awaiting::Number,
                    Action::Calculate(semantics::arithmetic_of(kind)->0, l, r),
                );
            },
            _ => {
                lemma_fail_carries(m, both);
            },
        }
    } else {
        lemma_give_carries(m, Value::Nil);
    }
}

/// Entering a function carries on.
proof fn lemma_invoke_carries<'a>(
    m: MachineView<'a>,
    function: LoxFunction<'a>,
    arguments: Seq<Value>,
)
    requires
        rest_steady(m, high(m) + 1),
        grounded(m),
        high(m) <= usize::MAX,
        all_valid(m.store, arguments),
        function.closure < m.store.environments.len(),
        function.is_initializer ==> binds_this(m.store, function.closure),
    ensures
        carries_on(semantics::invoke(m, function, arguments)),
{
    let (after, action) = semantics::invoke(m, function, arguments);
    let frame = m.store.environments.len() as usize;
    let framed = with_frame(m.store, Some(function.closure));
    lemma_frame_valid(m.store, Some(function.closure));
    lemma_all_valid_extends(m.store, framed, arguments);
    lemma_parameters_valid(framed, frame, function.declaration.params@, arguments, 0);
    lemma_extends_transitive(m.store, framed, after.store);
    lemma_stored_rest(m, high(m) + 1, after.store);
    let count = pending(m);
    let end = Task::FinishCall {
        caller: m.environment,
        receiver: if function.is_initializer {
            Some(function.closure)
        } else {
            None
        },
        base: m.values.len() as usize,
    };
    assert(after.tasks[count] == end);
    assert(after.tasks[count + 1] == Task::Sequence(&function.declaration.body, 0));
    lemma_supplied_same(m.tasks, after.tasks, count, high(m) + 1);
    lemma_floor_same(m.tasks, after.tasks, count);
    assert(supplied(after.tasks, count + 1, high(m)));
    assert(floor(after.tasks, count + 1) == high(m));
    assert(supplied(after.tasks, count + 2, high(m)));
    assert forall|i: int| 0 <= i < after.tasks.len() implies match #[trigger] after.tasks[i] {
        Task::FinishCall { receiver: Some(frame), .. } => binds_this(after.store, frame),
        _ => true,
    } by {
        if i < count {
            assert(after.tasks[i] == m.tasks[i]);
            assert(receivers_bound(after.store, m.tasks));
        }
    }
}

/// Calling the callee below the arguments carries on.
proof fn lemma_call_carries<'a>(m: MachineView<'a>, node: &'a ExprCall<'a>)
    requires
        store_valid(m.store),
        all_valid(m.store, m.values),
        receivers_bound(m.store, m.tasks),
        m.awaiting == Awaiting::Nothing,
        supplied(m.tasks, pending(m), high(m) - node.arguments@.len()),
        floor(m.tasks, pending(m)) + node.arguments@.len() + 1 <= high(m),
        high(m) <= usize::MAX,
        bounded(m.store),
        bounded(semantics::call(m, node).0.store),
    ensures
        carries_on(semantics::call(m, node)),
{
    let count = node.arguments@.len();
    lemma_floor_is_a_height(m.tasks, pending(m));
    let base = m.values.len() - count - 1;
    let arguments = m.values.subrange(base + 1, m.values.len() as int);
    let rest = MachineView { values: m.values.subrange(0, base), ..m };
    assert(all_valid(m.store, arguments)) by {
        assert forall|i: int| 0 <= i < arguments.len() implies valid(
            m.store,
            #[trigger] arguments[i],
        ) by {
            assert(arguments[i] == m.values[base + 1 + i]);
        }
    }
    assert(all_valid(m.store, rest.values)) by {
        assert forall|i: int| 0 <= i < rest.values.len() implies valid(
            m.store,
            #[trigger] rest.values[i],
        ) by {
            assert(rest.values[i] == m.values[i]);
        }
    }
    assert(valid(m.store, m.values[base]));
    assert(rest_steady(rest, high(rest) + 1));
    match m.values[base] {
        Value::Callable(callable) => {
            let expected = arity(m.store, callable)->0;
            if expected != count {
                lemma_fail_carries(
                    rest,
                    RuntimeError::ArgumentCount {
                        token: node.paren,
                        expected_arity: expected,
                        given_len: count as usize,
                    },
                );
            } else {
                match callable {
                    Callable::Native(_) => {
                        lemma_ask_carries(rest, Awaiting::Number, Action::Clock);
                    },
                    Callable::Function(at) => {
                        lemma_invoke_carries(rest, m.store.functions[at as int], arguments);
                    },
                    Callable::Class(at) => {
                        let instance = m.store.instances.len() as usize;
                        let created = with_instance(m.store, at);
                        lemma_instance_valid(m.store, at);
                        lemma_stored_rest(rest, high(rest) + 1, created);
                        match find_method(m.store.classes, at, "init"@) {
                            Some(initializer) => {
                                let (store, function) = bind_method(created, initializer, instance);
                                let entered = semantics::stored(rest, store);
                                let framed = with_frame(
                                    store,
                                    Some(store.functions[function as int].closure),
                                );
                                lemma_sizes_of_parameters(
                                    framed,
                                    store.environments.len() as usize,
                                    store.functions[function as int].declaration.params@,
                                    arguments,
                                    0,
                                );
                                lemma_found_method_is_linked(m.store, at, "init"@);
                                lemma_bind_method_valid(created, initializer, instance);
                                lemma_extends_transitive(m.store, created, store);
                                lemma_stored_rest(rest, high(rest) + 1, store);
                                lemma_all_valid_extends(m.store, store, arguments);
                                lemma_invoke_carries(
                                    entered,
                                    store.functions[function as int],
                                    arguments,
                                );
                            },
                            None => {
                                lemma_give_carries(
                                    semantics::stored(rest, created),
                                    Value::Instance(instance),
                                );
                            },
                        }
                    },
                }
            }
        },
        _ => {
            lemma_fail_carries(rest, RuntimeError::NotCallable { token: node.paren });
        },
    }
}

/// Binding parameters adds no frame and no function.
proof fn lemma_sizes_of_parameters(
    store: StoreView,
    frame: usize,
    parameters: Seq<Token>,
    arguments: Seq<Value>,
    from: int,
)
    requires
        0 <= from,
    ensures
        semantics::bind_parameters(store, frame, parameters, arguments, from).environments.len()
            == store.environments.len(),
        semantics::bind_parameters(store, frame, parameters, arguments, from).functions
            == store.functions,
    decreases parameters.len() - from,
{
    if from < parameters.len() && from < arguments.len() {
        lemma_sizes_of_parameters(
            with_binding(store, frame, parameters[from].lexeme@, Some(arguments[from])),
            frame,
            parameters,
            arguments,
            from + 1,
        );
    }
}

/// Reading a property of an object carries on.
proof fn lemma_property_carries<'a>(m: MachineView<'a>, node: &'a ExprGet<'a>, instance: usize)
    requires
        rest_steady(m, high(m) + 1),
        instance < m.store.instances.len(),
        bounded(get_property(m.store, instance, node.name).0),
    ensures
        carries_on(
            match get_property(m.store, instance, node.name).1 {
                Ok(property) => semantics::give(
                    semantics::stored(m, get_property(m.store, instance, node.name).0),
                    property,
                ),
                Err(error) => semantics::fail(
                    semantics::stored(m, get_property(m.store, instance, node.name).0),
                    error,
                ),
            },
        ),
{
    let name = node.name.lexeme@;
    let object = m.store.instances[instance as int];
    if object.fields.contains_key(name) {
        lemma_give_carries(m, object.fields[name]);
    } else {
        match find_method(m.store.classes, object.class, name) {
            Some(method) => {
                let (store, function) = bind_method(m.store, method, instance);
                lemma_found_method_is_linked(m.store, object.class, name);
                lemma_bind_method_valid(m.store, method, instance);
                lemma_stored_rest(m, high(m) + 1, store);
                lemma_give_carries(
                    semantics::stored(m, store),
                    Value::Callable(Callable::Function(function)),
                );
            },
            None => {
                lemma_fail_carries(
                    m,
                    RuntimeError::ClassError(
                        super::error::ClassError::UndefinedProperty { token: node.name },
                    ),
                );
            },
        }
    }
}

/// Whether the work takes one value and does all the rest at once.
pub open spec fn consuming(task: Task) -> bool {
    task is Discard || task is Print || task is DefineVar || task is Branch || task is Loop
        || task is Return || task is Unary || task is GetProperty || task is Assign
}

/// Work that uses up a value carries on.
proof fn lemma_consume_carries<'a>(
    m: MachineView<'a>,
    scopes: Seq<Scope>,
    task: Task<'a>,
    value: Value,
)
    requires
        rest_steady(m, high(m) + 1 + leaves(task)),
        grounded(m),
        consuming(task),
        valid(m.store, value),
        models(m.store.environments, m.environment, scopes),
        task_fits(m.locals, scopes, task),
        bounded(m.store),
        bounded(semantics::consume(m, task, value).0.store),
    ensures
        carries_on(semantics::consume(m, task, value)),
{
    let expects = high(m) + 1 + leaves(task);
    match task {
        Task::Discard => {},
        Task::Print => {},
        Task::DefineVar(node) => {
            lemma_define_carries(m, node.name.lexeme@, Some(value));
        },
        Task::Branch(node) => {
            if value.truthy() {
                lemma_schedule(m, expects, Task::Execute(&*node.then_branch), high(m));
            } else {
                match &node.else_branch {
                    Some(branch) => {
                        lemma_schedule(m, expects, Task::Execute(&**branch), high(m));
                    },
                    None => {},
                }
            }
        },
        Task::Loop(node) => {
            if value.truthy() {
                lemma_schedule(m, expects, Task::Loop(node), high(m) + 1);
                let first = semantics::schedule(m, Task::Loop(node));
                lemma_schedule(first, high(m) + 1, Task::Evaluate(&node.condition), high(m));
                let second = semantics::schedule(first, Task::Evaluate(&node.condition));
                lemma_schedule(second, high(m), Task::Execute(&*node.body), high(m));
            }
        },
        Task::Return(node) => {
            lemma_return_carries(m, node, value);
        },
        Task::Unary(node) => {
            lemma_unary_carries(m, node, value);
        },
        Task::GetProperty(node) => match value {
            Value::Instance(instance) => {
                lemma_property_carries(m, node, instance);
            },
            _ => {
                lemma_fail_carries(
                    m,
                    RuntimeError::ClassError(
                        super::error::ClassError::InvalidPropertyAccess { token: node.name },
                    ),
                );
            },
        },
        Task::Assign(node) => {
            let name = node.name.lexeme@;
            if m.locals.contains_key(key_of(node.name)) {
                let distance = m.locals[key_of(node.name)] as nat;
                lemma_assignment_finds_its_frame(m, scopes, key_of(node.name), name, value);
                let at = ancestor(m.store.environments, m.environment, distance)->0;
                lemma_binding_valid(m.store, at, name, Some(value));
                lemma_stored_rest(m, expects, with_binding(m.store, at, name, Some(value)));
                lemma_give_carries(
                    semantics::stored(m, with_binding(m.store, at, name, Some(value))),
                    value,
                );
            } else {
                match assign(m.store.environments, m.globals, node.name, value) {
                    Ok(frames) => {
                        let at = binding_frame(m.store.environments, m.globals, name)->0;
                        lemma_binding_valid(m.store, at, name, Some(value));
                        lemma_stored_rest(m, expects, with_binding(m.store, at, name, Some(value)));
                        lemma_give_carries(
                            semantics::stored(m, with_binding(m.store, at, name, Some(value))),
                            value,
                        );
                    },
                    Err(error) => {
                        lemma_fail_carries(m, error);
                    },
                }
            }
        },
        _ => {},
    }
}

/// Whether the values are there for the work `task`, which was taken from
/// the agenda of `m`, and for the work below it.
pub open spec fn supplied_for(m: MachineView, task: Task) -> bool {
    match task {
        Task::FinishCall { receiver, base, .. } => {
            &&& floor(m.tasks, pending(m)) <= base <= high(m)
            &&& supplied(m.tasks, pending(m), base + 1)
            &&& receiver is Some ==> binds_this(m.store, receiver->0)
        },
        _ => {
            &&& floor(m.tasks, pending(m)) + takes(task) <= high(m)
            &&& supplied(m.tasks, pending(m), high(m) + leaves(task))
        },
    }
}

/// The values of a list but the last are valid where all are.
proof fn lemma_popped_valid(m: MachineView)
    requires
        all_valid(m.store, m.values),
        m.values.len() > 0,
    ensures
        all_valid(m.store, semantics::pop(m).values),
        valid(m.store, m.values.last()),
        high(semantics::pop(m)) == high(m) - 1,
{
    let after = semantics::pop(m);
    assert forall|i: int| 0 <= i < after.values.len() implies valid(
        m.store,
        #[trigger] after.values[i],
    ) by {
        assert(after.values[i] == m.values[i]);
    }
}

/// Doing the work taken from the agenda carries on.
#[verifier::rlimit(100)]
#[verifier::spinoff_prover]
proof fn lemma_perform_carries<'a>(m: MachineView<'a>, scopes: Seq<Scope>, task: Task<'a>)
    requires
        store_valid(m.store),
        all_valid(m.store, m.values),
        receivers_bound(m.store, m.tasks),
        m.awaiting == Awaiting::Nothing,
        supplied_for(m, task),
        models(m.store.environments, m.environment, scopes),
        task_fits(m.locals, scopes, task),
        high(m) <= usize::MAX,
        bounded(m.store),
        bounded(semantics::perform(m, task).0.store),
    ensures
        carries_on(semantics::perform(m, task)),
{
    lemma_floor_is_a_height(m.tasks, pending(m));
    let expects = high(m) + leaves(task);
    match task {
        Task::Sequence(list, from) => {
            if from < list@.len() {
                vstd::std_specs::vec::axiom_spec_len(list);
                lemma_then_first(
                    m,
                    expects,
                    Task::Sequence(list, (from + 1) as usize),
                    Task::Execute(&list@[from as int]),
                );
            }
        },
        Task::Arguments(list, from) => {
            if from < list@.len() {
                vstd::std_specs::vec::axiom_spec_len(list);
                lemma_then_first(
                    m,
                    expects,
                    Task::Arguments(list, (from + 1) as usize),
                    Task::Evaluate(&list@[from as int]),
                );
            }
        },
        Task::Execute(stmt) => {
            lemma_execute_carries(m, stmt);
        },
        Task::Evaluate(expr) => {
            lemma_evaluate_carries(m, scopes, expr);
        },
        Task::LeaveBlock(frame) => {
            assert(rest_steady(MachineView { environment: frame, ..m }, high(m)));
        },
        Task::FinishCall { caller, receiver, base } => {
            lemma_finish_call_carries(m, caller, receiver, base, Value::Nil);
        },
        Task::DeclareClass(node) => {
            lemma_popped_valid(m);
            match m.values.last() {
                Value::Callable(Callable::Class(parent)) => {
                    lemma_declare_class_carries(semantics::pop(m), node, Some(parent));
                },
                _ => {
                    lemma_fail_carries(
                        m,
                        RuntimeError::ClassError(
                            super::error::ClassError::SuperclassNotAClass { token: node.name },
                        ),
                    );
                },
            }
        },
        Task::CallCheck(node) => {
            if m.values.last() is Callable {
                lemma_then_first(
                    m,
                    expects,
                    Task::Call(node),
                    Task::Arguments(&node.arguments, 0),
                );
            } else {
                lemma_fail_carries(m, RuntimeError::NotCallable { token: node.paren });
            }
        },
        Task::Call(node) => {
            lemma_call_carries(m, node);
        },
        Task::LogicalRight(node) => {
            if (node.operator.kind == TokenType::Or && m.values.last().truthy()) || (
            node.operator.kind == TokenType::And && !m.values.last().truthy()) {
            } else {
                lemma_popped_valid(m);
                lemma_schedule(
                    semantics::pop(m),
                    expects,
                    Task::Evaluate(&*node.right),
                    high(m) - 1,
                );
            }
        },
        Task::SetCheck(node) => {
            if m.values.last() is Instance {
                lemma_then_first(m, expects, Task::SetStore(node), Task::Evaluate(&*node.value));
            } else {
                lemma_fail_carries(
                    m,
                    RuntimeError::ClassError(
                        super::error::ClassError::InvalidPropertyAccess { token: node.name },
                    ),
                );
            }
        },
        Task::SetStore(node) => {
            lemma_popped_valid(m);
            lemma_popped_valid(semantics::pop(m));
            let rest = semantics::pop(semantics::pop(m));
            assert(semantics::pop(m).values.last() == m.values[m.values.len() - 2]);
            match m.values[m.values.len() - 2] {
                Value::Instance(instance) => {
                    let store = with_field(m.store, instance, node.name.lexeme@, m.values.last());
                    lemma_field_valid(m.store, instance, node.name.lexeme@, m.values.last());
                    lemma_stored_rest(rest, expects, store);
                    lemma_valid_extends(m.store, store, m.values.last());
                    lemma_give_carries(semantics::stored(rest, store), m.values.last());
                },
                _ => {
                    lemma_fail_carries(
                        m,
                        RuntimeError::ClassError(
                            super::error::ClassError::InvalidPropertyAccess { token: node.name },
                        ),
                    );
                },
            }
        },
        Task::Binary(node) => {
            lemma_popped_valid(m);
            lemma_popped_valid(semantics::pop(m));
            assert(semantics::pop(m).values.last() == m.values[m.values.len() - 2]);
            lemma_binary_carries(
                semantics::pop(semantics::pop(m)),
                node,
                m.values[m.values.len() - 2],
                m.values.last(),
            );
        },
        _ => {
            lemma_popped_valid(m);
            lemma_consume_carries(semantics::pop(m), scopes, task, m.values.last());
        },
    }
}

/// No step fails on the machine's own account: where a machine fits the
/// table of depths and is steady, and the host answers what was asked, the
/// step leaves a steady machine, and where it fails, the failure is one that
/// the program has caused.
pub proof fn lemma_step_carries_on<'a>(m: MachineView<'a>, notes: Notes, event: Event)
    requires
        fits(m, notes),
        steady(m),
        answers(m.awaiting, event),
        high(m) <= usize::MAX,
        bounded(m.store),
        bounded(semantics::step(m, event).0.store),
    ensures
        carries_on(semantics::step(m, event)),
{
    let waiting = MachineView { awaiting: Awaiting::Nothing, ..m };
    match (m.awaiting, event) {
        (Awaiting::Number, Event::Number(n)) => {
            lemma_give_carries(waiting, Value::Number(n));
        },
        (Awaiting::Boolean, Event::Boolean(b)) => {
            lemma_give_carries(waiting, Value::Boolean(b));
        },
        (Awaiting::Nothing, _) => {
            if m.tasks.len() > 0 {
                let count = pending(m);
                let rest = MachineView { tasks: m.tasks.drop_last(), ..m };
                let task = m.tasks.last();
                lemma_floor_same(m.tasks, rest.tasks, count - 1);
                match task {
                    Task::FinishCall { base, .. } => {
                        lemma_supplied_same(m.tasks, rest.tasks, count - 1, base + 1);
                    },
                    _ => {
                        lemma_supplied_same(m.tasks, rest.tasks, count - 1, high(m) + leaves(task));
                    },
                }
                assert forall|i: int| 0 <= i < rest.tasks.len() implies match #[trigger] rest.tasks[i] {
                    Task::FinishCall { receiver: Some(frame), .. } => binds_this(rest.store, frame),
                    _ => true,
                } by {
                    assert(rest.tasks[i] == m.tasks[i]);
                }
                assert(m.tasks[count - 1] == task);
                lemma_perform_carries(rest, notes.tasks.last(), task);
            }
        },
        _ => {},
    }
}

/// A machine on whose agenda a program was just put is steady.
pub proof fn lemma_program_start_is_steady<'a>(locals: Map<u32, usize>, stmts: &'a Vec<Stmt<'a>>)
    ensures
        steady(semantics::schedule(crate::interpreter::initial(locals), Task::Sequence(stmts, 0))),
{
    let empty = StoreView {
        strings: Seq::empty(),
        environments: Seq::empty(),
        functions: Seq::empty(),
        classes: Seq::empty(),
        instances: Seq::empty(),
    };
    lemma_frame_valid(empty, None);
    lemma_binding_valid(
        with_frame(empty, None),
        0,
        "clock"@,
        Some(Value::Callable(Callable::Native(super::native_fun::clock::Clock { arity: 0 }))),
    );
    let m = semantics::schedule(crate::interpreter::initial(locals), Task::Sequence(stmts, 0));
    assert(supplied(m.tasks, 0, 0));
    assert(supplied(m.tasks, 1, 0));
}

} // verus!
