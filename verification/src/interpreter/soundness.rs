//! Every step of the evaluation machine keeps it fitting the resolver's
//! table, and in a machine that fits, the depth recorded for a use of a
//! variable leads to a frame that binds it.

use vstd::prelude::*;
use crate::ast::{Expr, ExprSuper, Stmt, StmtClass, StmtFunction, StmtReturn};
use crate::lex::Token;
use super::binding::{
    declared, defines, grows, lemma_ancestor_models, lemma_bind_grows,
    lemma_depth_leads_to_the_binding, lemma_grows_transitive, lemma_models_after_growth,
    lemma_models_declared, lemma_models_pushed, lemma_models_undefined, lemma_push_grows, models,
};
use super::callable::{Callable, LoxFunction};
use super::class::{find_method, ClassView};
use super::environment::{
    ancestor, assign, assign_at, bind, binding_frame, get_at, EnvironmentView,
};
use super::fitting::{
    agenda_fits, fits, lemma_agenda_after_growth, lemma_agenda_prefix, lemma_agenda_same,
    lemma_done, lemma_failed, lemma_rest_after_growth, lemma_scheduled, lemma_scheduled_two,
    lemma_store_after_growth, noted, rest_fits, scopes_left, store_fits, task_fits, Notes,
};
use super::machine::{Awaiting, Event, MachineView, Task};
use super::resolved::{
    class_scopes, expr_fits, function_fits, methods_fit, parameters_scope, read_fits, scopes_after,
    scopes_after_all, single_scope, stmt_fits, stmts_fit, use_fits,
};
use super::scoping::{depth_of, key_of, Scope};
use super::semantics;
use super::store::{
    bind_method, get_property, with_binding, with_class, with_frame, with_function, with_instance,
    StoreView,
};
use super::value::Value;

verus! {

/// Whether the numbers of frames, functions and classes of the store are
/// numbers of the machine.
pub open spec fn bounded(store: StoreView) -> bool {
    &&& store.environments.len() <= usize::MAX
    &&& store.functions.len() <= usize::MAX
    &&& store.classes.len() <= usize::MAX
}

/// Declaring a name as undefined and then as defined is declaring it as
/// defined.
pub proof fn lemma_declared_then_defined(scopes: Seq<Scope>, name: Seq<char>)
    ensures
        declared(declared(scopes, name, false), name, true) == declared(scopes, name, true),
{
    if scopes.len() > 0 {
        let once = declared(scopes, name, false);
        assert(once.drop_last() =~= scopes.drop_last());
        assert(once.last().insert(name, true) =~= scopes.last().insert(name, true));
        assert(declared(once, name, true) =~= declared(scopes, name, true));
    }
}

/// In a machine that fits, a read at the depth that the table records finds
/// its binding: the chain of frames from the current frame is longer than
/// the depth, and the frame at that depth binds the name.
pub proof fn lemma_read_finds_its_binding(
    m: MachineView,
    scopes: Seq<Scope>,
    key: u32,
    name: Seq<char>,
)
    requires
        models(m.store.environments, m.environment, scopes),
        m.store.environments.len() <= usize::MAX,
        read_fits(m.locals, scopes, key, name),
        m.locals.contains_key(key),
    ensures
        ancestor(m.store.environments, m.environment, m.locals[key] as nat) is Some,
        get_at(m.store.environments, m.environment, m.locals[key] as nat, name) is Some,
{
    lemma_depth_leads_to_the_binding(m.store.environments, m.environment, scopes, name);
    super::binding::lemma_models_bounds_the_scopes(m.store.environments, m.environment, scopes);
}

/// In a machine that fits, an assignment at the depth that the table
/// records finds its frame.
pub proof fn lemma_assignment_finds_its_frame(
    m: MachineView,
    scopes: Seq<Scope>,
    key: u32,
    name: Seq<char>,
    value: Value,
)
    requires
        models(m.store.environments, m.environment, scopes),
        m.store.environments.len() <= usize::MAX,
        use_fits(m.locals, scopes, key, name),
        m.locals.contains_key(key),
    ensures
        ancestor(m.store.environments, m.environment, m.locals[key] as nat) is Some,
        assign_at(m.store.environments, m.environment, m.locals[key] as nat, name, value) is Some,
{
    lemma_depth_leads_to_the_binding(m.store.environments, m.environment, scopes, name);
    super::binding::lemma_models_bounds_the_scopes(m.store.environments, m.environment, scopes);
}

/// The work taken gives a value and leaves the scopes as they are.
proof fn lemma_give(m: MachineView, notes: Notes, scopes: Seq<Scope>, value: Value)
    requires
        rest_fits(m, notes, scopes, scopes),
    ensures
        fits(semantics::give(m, value).0, notes),
{
    lemma_done(semantics::push(m, value), notes, scopes);
}

/// Binding a name in the current frame keeps the machine fitting, with the
/// name declared as defined.
proof fn lemma_define<'a>(
    m: MachineView<'a>,
    notes: Notes,
    scopes: Seq<Scope>,
    name: Seq<char>,
    value: Option<Value>,
) -> (next: Notes)
    requires
        rest_fits(m, notes, scopes, declared(scopes, name, true)),
    ensures
        fits(semantics::define(m, name, value).0, next),
        next.functions == notes.functions,
        next.classes == notes.classes,
{
    let frames = m.store.environments;
    let after = bind(frames, m.environment, name, value);
    lemma_bind_grows(frames, m.environment, name, value);
    lemma_rest_after_growth(m, notes, scopes, declared(scopes, name, true), after);
    let next_m = semantics::stored(m, with_binding(m.store, m.environment, name, value));
    assert(next_m.store == StoreView { environments: after, ..m.store });
    lemma_models_declared(after, m.environment, scopes, name, true);
    lemma_done(next_m, notes, declared(scopes, name, true));
    notes
}

/// Reading a variable keeps the machine fitting.
proof fn lemma_lookup_variable<'a>(
    m: MachineView<'a>,
    notes: Notes,
    scopes: Seq<Scope>,
    name: Token<'a>,
) -> (next: Notes)
    requires
        rest_fits(m, notes, scopes, scopes),
    ensures
        fits(semantics::lookup_variable(m, name).0, next),
{
    let (after, action) = semantics::lookup_variable(m, name);
    if action is Failed {
        lemma_failed(m, notes, action->Failed_0);
        Notes { tasks: Seq::empty(), ..notes }
    } else {
        lemma_done(after, notes, scopes);
        notes
    }
}

/// The class that holds the method which `find_method` finds.
pub open spec fn holder(classes: Seq<ClassView>, class: usize, name: Seq<char>) -> Option<usize>
    decreases class,
{
    if class >= classes.len() {
        None
    } else if classes[class as int].methods.contains_key(name) {
        Some(class)
    } else {
        match classes[class as int].superclass {
            Some(parent) => if parent < class {
                holder(classes, parent, name)
            } else {
                None
            },
            None => None,
        }
    }
}

/// A method that is found is a method of some class of the store.
proof fn lemma_holder<'a>(classes: Seq<ClassView<'a>>, class: usize, name: Seq<char>)
    ensures
        find_method(classes, class, name) is Some ==> {
            &&& holder(classes, class, name) is Some
            &&& holder(classes, class, name)->0 < classes.len()
            &&& classes[holder(classes, class, name)->0 as int].methods.contains_key(name)
            &&& classes[holder(classes, class, name)->0 as int].methods[name] == find_method(
                classes,
                class,
                name,
            )->0
        },
    decreases class,
{
    if class < classes.len() && !classes[class as int].methods.contains_key(name) {
        match classes[class as int].superclass {
            Some(parent) => {
                if parent < class {
                    lemma_holder(classes, parent, name);
                }
            },
            None => {},
        }
    }
}

/// Binding a method of a class of the store to an object keeps the store
/// fitting: the new function stands in the scopes of the class and one more,
/// for `this`.
proof fn lemma_bind_method<'a>(
    store: StoreView<'a>,
    locals: Map<u32, usize>,
    notes: Notes,
    method: LoxFunction<'a>,
    instance: usize,
    class: int,
    name: Seq<char>,
) -> (next: Notes)
    requires
        store_fits(store, locals, notes),
        0 <= class < store.classes.len(),
        store.classes[class].methods.contains_key(name),
        store.classes[class].methods[name] == method,
        bounded(bind_method(store, method, instance).0),
    ensures
        store_fits(bind_method(store, method, instance).0, locals, next),
        next.tasks == notes.tasks,
        next.classes == notes.classes,
        next.functions == notes.functions.push(
            notes.classes[class].push(single_scope("this"@)),
        ),
        grows(store.environments, bind_method(store, method, instance).0.environments),
        bind_method(store, method, instance).0.classes == store.classes,
        bind_method(store, method, instance).0.functions.len() == store.functions.len() + 1,
        bind_method(store, method, instance).1 == store.functions.len(),
{
    let (bound, function) = bind_method(store, method, instance);
    let frames = store.environments;
    let frame = frames.len() as usize;
    let pushed = frames.push(EnvironmentView { values: Map::empty(), enclosing: Some(method.closure) });
    let after = bind(pushed, frame, "this"@, Some(Value::Instance(instance)));
    assert(bound.environments == after);
    lemma_push_grows(frames, EnvironmentView { values: Map::empty(), enclosing: Some(method.closure) });
    lemma_bind_grows(pushed, frame, "this"@, Some(Value::Instance(instance)));
    lemma_grows_transitive(frames, pushed, after);
    let scopes = notes.classes[class];
    let inner = scopes.push(single_scope("this"@));
    lemma_models_after_growth(frames, after, method.closure, scopes);
    lemma_models_pushed(after, method.closure, scopes, frame, single_scope("this"@));
    lemma_store_after_growth(store, after, locals, notes);
    let next = Notes { functions: notes.functions.push(inner), ..notes };
    assert forall|f: int| 0 <= f < bound.functions.len() implies {
        &&& models(bound.environments, (#[trigger] bound.functions[f]).closure, next.functions[f])
        &&& function_fits(locals, next.functions[f], *bound.functions[f].declaration)
    } by {
        if f < store.functions.len() {
            assert(bound.functions[f] == store.functions[f]);
        }
    }
    next
}

/// `super.m` keeps the machine fitting.
proof fn lemma_super_method<'a>(
    m: MachineView<'a>,
    notes: Notes,
    scopes: Seq<Scope>,
    node: ExprSuper<'a>,
) -> (next: Notes)
    requires
        rest_fits(m, notes, scopes, scopes),
        bounded(semantics::super_method(m, node).0.store),
    ensures
        fits(semantics::super_method(m, node).0, next),
{
    let (after, action) = semantics::super_method(m, node);
    if action is Failed {
        lemma_failed(m, notes, action->Failed_0);
        Notes { tasks: Seq::empty(), ..notes }
    } else {
        let distance = m.locals[key_of(node.keyword)];
        let class = get_at(m.store.environments, m.environment, distance as nat, "super"@)->0->Callable_0->Class_0;
        let instance = get_at(
            m.store.environments,
            m.environment,
            (distance - 1) as nat,
            "this"@,
        )->0->Instance_0;
        let method = find_method(m.store.classes, class, node.method.lexeme@)->0;
        lemma_holder(m.store.classes, class, node.method.lexeme@);
        let at = holder(m.store.classes, class, node.method.lexeme@)->0;
        let next = lemma_bind_method(
            m.store,
            m.locals,
            notes,
            method,
            instance,
            at as int,
            node.method.lexeme@,
        );
        let (store, function) = bind_method(m.store, method, instance);
        lemma_rest_after_growth(m, notes, scopes, scopes, store.environments);
        let stored = semantics::stored(m, store);
        assert(rest_fits(stored, next, scopes, scopes));
        lemma_give(stored, next, scopes, Value::Callable(Callable::Function(function)));
        next
    }
}

/// Beginning the evaluation of an expression keeps the machine fitting.
proof fn lemma_evaluate<'a>(
    m: MachineView<'a>,
    notes: Notes,
    scopes: Seq<Scope>,
    expr: &'a Expr<'a>,
) -> (next: Notes)
    requires
        rest_fits(m, notes, scopes, scopes),
        expr_fits(m.locals, scopes, *expr),
        bounded(semantics::evaluate(m, expr).0.store),
    ensures
        fits(semantics::evaluate(m, expr).0, next),
{
    match expr {
        Expr::Literal(node) => {
            let (after, action) = semantics::evaluate(m, expr);
            lemma_done(after, notes, scopes);
            notes
        },
        Expr::Grouping(node) => {
            lemma_scheduled(m, notes, scopes, scopes, Task::Evaluate(&*node.value), scopes);
            noted(notes, scopes)
        },
        Expr::Logical(node) => {
            lemma_scheduled_two(
                m,
                notes,
                scopes,
                scopes,
                Task::LogicalRight(node),
                scopes,
                Task::Evaluate(&*node.left),
                scopes,
            );
            noted(noted(notes, scopes), scopes)
        },
        Expr::PropertySet(node) => {
            lemma_scheduled_two(
                m,
                notes,
                scopes,
                scopes,
                Task::SetCheck(node),
                scopes,
                Task::Evaluate(&*node.object),
                scopes,
            );
            noted(noted(notes, scopes), scopes)
        },
        Expr::Super(node) => lemma_super_method(m, notes, scopes, *node),
        Expr::This(node) => lemma_lookup_variable(m, notes, scopes, node.keyword),
        Expr::Unary(node) => {
            lemma_scheduled_two(
                m,
                notes,
                scopes,
                scopes,
                Task::Unary(node),
                scopes,
                Task::Evaluate(&*node.value),
                scopes,
            );
            noted(noted(notes, scopes), scopes)
        },
        Expr::Binary(node) => {
            lemma_scheduled(m, notes, scopes, scopes, Task::Binary(node), scopes);
            lemma_scheduled_two(
                semantics::schedule(m, Task::Binary(node)),
                noted(notes, scopes),
                scopes,
                scopes,
                Task::Evaluate(&*node.right),
                scopes,
                Task::Evaluate(&*node.left),
                scopes,
            );
            noted(noted(noted(notes, scopes), scopes), scopes)
        },
        Expr::Call(node) => {
            lemma_scheduled_two(
                m,
                notes,
                scopes,
                scopes,
                Task::CallCheck(node),
                scopes,
                Task::Evaluate(&*node.callee),
                scopes,
            );
            noted(noted(notes, scopes), scopes)
        },
        Expr::Get(node) => {
            lemma_scheduled_two(
                m,
                notes,
                scopes,
                scopes,
                Task::GetProperty(node),
                scopes,
                Task::Evaluate(&*node.object),
                scopes,
            );
            noted(noted(notes, scopes), scopes)
        },
        Expr::Assign(node) => {
            lemma_scheduled_two(
                m,
                notes,
                scopes,
                scopes,
                Task::Assign(node),
                scopes,
                Task::Evaluate(&*node.value),
                scopes,
            );
            noted(noted(notes, scopes), scopes)
        },
        Expr::Variable(node) => lemma_lookup_variable(m, notes, scopes, node.name),
    }
}

/// Binding parameters makes the frames grow by bindings in one frame: each
/// parameter that has an argument is bound there.
proof fn lemma_parameters_bound(
    store: StoreView,
    frame: usize,
    parameters: Seq<Token>,
    arguments: Seq<Value>,
    from: int,
)
    requires
        0 <= from,
        frame < store.environments.len(),
    ensures
        grows(
            store.environments,
            semantics::bind_parameters(store, frame, parameters, arguments, from).environments,
        ),
        semantics::bind_parameters(store, frame, parameters, arguments, from).environments.len()
            == store.environments.len(),
        semantics::bind_parameters(store, frame, parameters, arguments, from).functions
            == store.functions,
        semantics::bind_parameters(store, frame, parameters, arguments, from).classes
            == store.classes,
        semantics::bind_parameters(store, frame, parameters, arguments, from).strings
            == store.strings,
        semantics::bind_parameters(store, frame, parameters, arguments, from).instances
            == store.instances,
        forall|i: int|
            from <= i < parameters.len() && i < arguments.len() ==> semantics::bind_parameters(
                store,
                frame,
                parameters,
                arguments,
                from,
            ).environments[frame as int].values.contains_key(#[trigger] parameters[i].lexeme@),
    decreases parameters.len() - from,
{
    if from < parameters.len() && from < arguments.len() {
        let name = parameters[from].lexeme@;
        let next = with_binding(store, frame, name, Some(arguments[from]));
        lemma_bind_grows(store.environments, frame, name, Some(arguments[from]));
        lemma_parameters_bound(next, frame, parameters, arguments, from + 1);
        let done = semantics::bind_parameters(store, frame, parameters, arguments, from);
        assert(done == semantics::bind_parameters(next, frame, parameters, arguments, from + 1));
        lemma_grows_transitive(store.environments, next.environments, done.environments);
        assert(next.environments[frame as int].values.contains_key(name));
        assert(done.environments[frame as int].values.contains_key(name));
    }
}

/// Entering a function adds one frame and nothing else.
proof fn lemma_invoke_sizes<'a>(m: MachineView<'a>, function: LoxFunction<'a>, arguments: Seq<Value>)
    ensures
        semantics::invoke(m, function, arguments).0.store.environments.len()
            == m.store.environments.len() + 1,
        semantics::invoke(m, function, arguments).0.store.functions == m.store.functions,
        semantics::invoke(m, function, arguments).0.store.classes == m.store.classes,
{
    let framed = with_frame(m.store, Some(function.closure));
    let frame = m.store.environments.len() as usize;
    if frame < framed.environments.len() {
        lemma_parameters_bound(framed, frame, function.declaration.params@, arguments, 0);
    } else {
        crate::interpreter::laws::lemma_bind_parameters_is_local(
            framed,
            frame,
            function.declaration.params@,
            arguments,
            0,
        );
    }
}

/// Entering a function keeps the machine fitting: the new frame mirrors the
/// scopes around the declaration and one more, that of the parameters, and
/// the frame of the caller is given back at the end of the call.
proof fn lemma_invoke<'a>(
    m: MachineView<'a>,
    notes: Notes,
    scopes: Seq<Scope>,
    function: LoxFunction<'a>,
    function_scopes: Seq<Scope>,
    arguments: Seq<Value>,
) -> (next: Notes)
    requires
        rest_fits(m, notes, scopes, scopes),
        models(m.store.environments, function.closure, function_scopes),
        function_fits(m.locals, function_scopes, *function.declaration),
        arguments.len() == function.declaration.params@.len(),
        bounded(semantics::invoke(m, function, arguments).0.store),
    ensures
        fits(semantics::invoke(m, function, arguments).0, next),
{
    let (entered, action) = semantics::invoke(m, function, arguments);
    let frames = m.store.environments;
    let frame = frames.len() as usize;
    let parameters = function.declaration.params@;
    let framed = with_frame(m.store, Some(function.closure));
    lemma_push_grows(frames, EnvironmentView { values: Map::empty(), enclosing: Some(function.closure) });
    lemma_parameters_bound(framed, frame, parameters, arguments, 0);
    let after = entered.store.environments;
    lemma_grows_transitive(frames, framed.environments, after);
    assert(after.len() == frames.len() + 1);
    let body_scopes = function_scopes.push(parameters_scope(parameters));
    lemma_models_after_growth(frames, after, function.closure, function_scopes);
    assert(after[frame as int].enclosing == Some(function.closure));
    assert forall|name: Seq<char>| defines(parameters_scope(parameters), name) implies #[trigger] after[frame as int].values.contains_key(
        name,
    ) by {
        let i = choose|i: int| 0 <= i < parameters.len() && (#[trigger] parameters[i]).lexeme@ == name;
        assert(after[frame as int].values.contains_key(parameters[i].lexeme@));
    }
    lemma_models_pushed(after, function.closure, function_scopes, frame, parameters_scope(parameters));
    lemma_rest_after_growth(m, notes, scopes, scopes, after);
    let grown = MachineView { store: StoreView { environments: after, ..m.store }, ..m };
    assert(entered.store == grown.store);
    let left = scopes_after_all(body_scopes, function.declaration.body@, 0);
    let finish = Task::FinishCall {
        caller: m.environment,
        receiver: if function.is_initializer {
            Some(function.closure)
        } else {
            None
        },
        base: m.values.len() as usize,
    };
    let body = Task::Sequence(&function.declaration.body, 0);
    let next = noted(noted(notes, left), body_scopes);
    let count = m.tasks.len() as int;
    lemma_agenda_same(after, m.locals, m.tasks, notes.tasks, entered.tasks, next.tasks, count);
    assert(entered.tasks[count] == finish);
    assert(entered.tasks[count + 1] == body);
    assert(agenda_fits(after, m.locals, entered.tasks, next.tasks, count + 1));
    assert(agenda_fits(after, m.locals, entered.tasks, next.tasks, count + 2));
    next
}

/// A call keeps the machine fitting.
proof fn lemma_call<'a>(
    m: MachineView<'a>,
    notes: Notes,
    scopes: Seq<Scope>,
    node: &'a crate::ast::ExprCall<'a>,
) -> (next: Notes)
    requires
        rest_fits(m, notes, scopes, scopes),
        bounded(semantics::call(m, node).0.store),
    ensures
        fits(semantics::call(m, node).0, next),
{
    let (after, action) = semantics::call(m, node);
    if action is Failed {
        lemma_failed(m, notes, action->Failed_0);
        return Notes { tasks: Seq::empty(), ..notes };
    }
    let count = node.arguments@.len();
    let base = m.values.len() - count - 1;
    let arguments = m.values.subrange(base + 1, m.values.len() as int);
    let rest = MachineView { values: m.values.subrange(0, base), ..m };
    assert(rest_fits(rest, notes, scopes, scopes));
    let callable = m.values[base]->Callable_0;
    match callable {
        Callable::Native(_) => {
            lemma_done(after, notes, scopes);
            notes
        },
        Callable::Function(at) => {
            let function = m.store.functions[at as int];
            vstd::std_specs::vec::axiom_spec_len(&function.declaration.params);
            lemma_invoke(rest, notes, scopes, function, notes.functions[at as int], arguments)
        },
        Callable::Class(at) => {
            let instance = m.store.instances.len() as usize;
            let created = with_instance(m.store, at);
            assert(store_fits(created, m.locals, notes));
            match find_method(m.store.classes, at, "init"@) {
                Some(initializer) => {
                    lemma_holder(m.store.classes, at, "init"@);
                    let class = holder(m.store.classes, at, "init"@)->0;
                    vstd::std_specs::vec::axiom_spec_len(&initializer.declaration.params);
                    let (store, function) = bind_method(created, initializer, instance);
                    lemma_invoke_sizes(
                        semantics::stored(rest, store),
                        store.functions[function as int],
                        arguments,
                    );
                    let bound_notes = lemma_bind_method(
                        created,
                        m.locals,
                        notes,
                        initializer,
                        instance,
                        class as int,
                        "init"@,
                    );
                    lemma_rest_after_growth(rest, notes, scopes, scopes, store.environments);
                    let stored = semantics::stored(rest, store);
                    assert(rest_fits(stored, bound_notes, scopes, scopes));
                    lemma_invoke(
                        stored,
                        bound_notes,
                        scopes,
                        store.functions[function as int],
                        bound_notes.functions[function as int],
                        arguments,
                    )
                },
                None => {
                    let stored = semantics::stored(rest, created);
                    assert(rest_fits(stored, notes, scopes, scopes));
                    lemma_give(stored, notes, scopes, Value::Instance(instance));
                    notes
                },
            }
        },
    }
}

/// The methods of a class declaration fit as the methods of the class do:
/// each closes over `closure` and has the body of a declared method.
proof fn lemma_methods_table_fits<'a>(
    locals: Map<u32, usize>,
    scopes: Seq<Scope>,
    list: &'a Vec<StmtFunction<'a>>,
    closure: usize,
    from: int,
    found: Map<Seq<char>, LoxFunction<'a>>,
)
    requires
        0 <= from,
        methods_fit(locals, scopes, list@),
        forall|name: Seq<char>| #[trigger]
            found.contains_key(name) ==> found[name].closure == closure && function_fits(
                locals,
                scopes,
                *found[name].declaration,
            ),
    ensures
        forall|name: Seq<char>| #[trigger]
            semantics::methods_table(list, closure, from, found).contains_key(name)
                ==> semantics::methods_table(list, closure, from, found)[name].closure == closure
                && function_fits(
                locals,
                scopes,
                *semantics::methods_table(list, closure, from, found)[name].declaration,
            ),
    decreases list@.len() - from,
{
    if from < list@.len() {
        let method = LoxFunction {
            declaration: &list@[from],
            closure,
            is_initializer: list@[from].name.lexeme@ == "init"@,
        };
        let more = found.insert(list@[from].name.lexeme@, method);
        assert(function_fits(locals, scopes, list@[from]));
        lemma_methods_table_fits(locals, scopes, list, closure, from + 1, more);
    }
}

/// Declaring a class keeps the machine fitting.
proof fn lemma_declare_class<'a>(
    m: MachineView<'a>,
    notes: Notes,
    scopes: Seq<Scope>,
    node: &'a StmtClass<'a>,
    superclass: Option<usize>,
) -> (next: Notes)
    requires
        rest_fits(m, notes, scopes, declared(scopes, node.name.lexeme@, true)),
        methods_fit(
            m.locals,
            class_scopes(scopes, node.name.lexeme@, superclass is Some).push(
                single_scope("this"@),
            ),
            node.methods@,
        ),
        bounded(semantics::declare_class(m, node, superclass).0.store),
    ensures
        fits(semantics::declare_class(m, node, superclass).0, next),
{
    let (after, action) = semantics::declare_class(m, node, superclass);
    let name = node.name.lexeme@;
    let left = declared(scopes, name, true);
    let env = m.environment;
    let frames = m.store.environments;
    assert(env < frames.len());
    let declared_store = with_binding(m.store, env, name, None);
    let first = declared_store.environments;
    lemma_bind_grows(frames, env, name, None);
    let frame = first.len() as usize;
    let (framed, closure) = match superclass {
        Some(parent) => (
            with_binding(
                with_frame(declared_store, Some(env)),
                frame,
                "super"@,
                Some(Value::Callable(Callable::Class(parent))),
            ),
            frame,
        ),
        None => (declared_store, env),
    };
    let second = framed.environments;
    if superclass is Some {
        let pushed = first.push(EnvironmentView { values: Map::empty(), enclosing: Some(env) });
        lemma_push_grows(first, EnvironmentView { values: Map::empty(), enclosing: Some(env) });
        lemma_bind_grows(pushed, frame, "super"@, Some(Value::Callable(Callable::Class(superclass->0))));
        lemma_grows_transitive(first, pushed, second);
    }
    lemma_grows_transitive(frames, first, second);
    let class_scope = class_scopes(scopes, name, superclass is Some);
    let class = framed.classes.len() as usize;
    let table = semantics::methods_table(&node.methods, closure, 0, Map::empty());
    let made = with_class(framed, ClassView { name, superclass, methods: table });
    // The frames at the end: those of `made`, or those after the assignment.
    let last = after.store.environments;
    assert(grows(second, last)) by {
        match assign(made.environments, env, node.name, Value::Callable(Callable::Class(class))) {
            Ok(assigned) => {
                let at = binding_frame(made.environments, env, name)->0;
                lemma_bind_grows(second, at, name, Some(Value::Callable(Callable::Class(class))));
            },
            Err(_) => {},
        }
    }
    lemma_grows_transitive(frames, second, last);
    assert(after.store.functions == m.store.functions);
    assert(after.store.classes == m.store.classes.push(ClassView { name, superclass, methods: table }));
    // The store fits, with the scopes of the new class noted.
    let next_notes = Notes { classes: notes.classes.push(class_scope), ..notes };
    lemma_store_after_growth(m.store, last, m.locals, notes);
    lemma_models_after_growth(frames, last, env, scopes);
    assert(first[env as int].values.contains_key(name));
    assert(last[env as int].values.contains_key(name));
    lemma_models_declared(last, env, scopes, name, true);
    if superclass is Some {
        assert(second[frame as int].enclosing == Some(env));
        assert(second[frame as int].values.contains_key("super"@));
        assert(last[frame as int].values.contains_key("super"@));
        lemma_models_pushed(last, env, left, frame, single_scope("super"@));
    }
    assert(models(last, closure, class_scope));
    lemma_methods_table_fits(
        m.locals,
        class_scope.push(single_scope("this"@)),
        &node.methods,
        closure,
        0,
        Map::empty(),
    );
    assert(store_fits(after.store, m.locals, next_notes)) by {
        assert forall|c: int, method: Seq<char>|
            0 <= c < after.store.classes.len() && (#[trigger] after.store.classes[c].methods.contains_key(
                method,
            )) implies {
            &&& models(
                after.store.environments,
                after.store.classes[c].methods[method].closure,
                next_notes.classes[c],
            )
            &&& function_fits(
                m.locals,
                next_notes.classes[c].push(single_scope("this"@)),
                *after.store.classes[c].methods[method].declaration,
            )
        } by {
            if c < m.store.classes.len() {
                assert(after.store.classes[c] == m.store.classes[c]);
                assert(m.store.classes[c].methods.contains_key(method));
            } else {
                assert(table.contains_key(method));
            }
        }
    }
    if action is Failed {
        lemma_failed(after, next_notes, action->Failed_0);
        Notes { tasks: Seq::empty(), ..next_notes }
    } else {
        lemma_agenda_after_growth(frames, last, m.locals, m.tasks, notes.tasks, m.tasks.len() as int);
        assert(rest_fits(after, next_notes, left, left));
        lemma_done(after, next_notes, left);
        next_notes
    }
}

/// Whether a machine fits to which the frame `frame` is about to be given
/// back: the work to do next runs in scopes that this frame mirrors.
pub open spec fn handed_back(m: MachineView, notes: Notes, frame: usize) -> bool {
    &&& store_fits(m.store, m.locals, notes)
    &&& notes.tasks.len() == m.tasks.len()
    &&& agenda_fits(m.store.environments, m.locals, m.tasks, notes.tasks, m.tasks.len() as int)
    &&& m.tasks.len() > 0 ==> models(m.store.environments, frame, notes.tasks.last())
}

/// The end of a call keeps the machine fitting.
proof fn lemma_finish_call<'a>(
    m: MachineView<'a>,
    notes: Notes,
    caller: usize,
    receiver: Option<usize>,
    base: usize,
    value: Value,
) -> (next: Notes)
    requires
        handed_back(m, notes, caller),
    ensures
        fits(semantics::finish_call(m, caller, receiver, base, value).0, next),
{
    let (after, action) = semantics::finish_call(m, caller, receiver, base, value);
    if action is Failed {
        lemma_failed(m, notes, action->Failed_0);
        Notes { tasks: Seq::empty(), ..notes }
    } else {
        notes
    }
}

/// Whether a machine from whose agenda the work to do next was taken fits
/// but for its current frame.
pub open spec fn agenda_and_store_fit(m: MachineView, notes: Notes) -> bool {
    &&& store_fits(m.store, m.locals, notes)
    &&& notes.tasks.len() == m.tasks.len()
    &&& agenda_fits(m.store.environments, m.locals, m.tasks, notes.tasks, m.tasks.len() as int)
}

/// `return` keeps the machine fitting.
proof fn lemma_return_value<'a>(
    m: MachineView<'a>,
    notes: Notes,
    node: &'a StmtReturn<'a>,
    value: Value,
) -> (next: Notes)
    requires
        agenda_and_store_fit(m, notes),
    ensures
        fits(semantics::return_value(m, node, value).0, next),
{
    let (after, action) = semantics::return_value(m, node, value);
    let at = semantics::call_boundary(m.tasks);
    crate::interpreter::laws::lemma_call_boundary_is_innermost(m.tasks);
    if at < 0 {
        lemma_failed(m, notes, action->Failed_0);
        return Notes { tasks: Seq::empty(), ..notes };
    }
    let frames = m.store.environments;
    lemma_agenda_prefix(frames, m.locals, m.tasks, notes.tasks, m.tasks.len() as int, at + 1);
    lemma_agenda_prefix(frames, m.locals, m.tasks, notes.tasks, m.tasks.len() as int, at);
    match m.tasks[at] {
        Task::FinishCall { caller, receiver, base } => {
            let cut = MachineView { tasks: m.tasks.subrange(0, at), ..m };
            let cut_notes = Notes { tasks: notes.tasks.subrange(0, at), ..notes };
            lemma_agenda_same(frames, m.locals, m.tasks, notes.tasks, cut.tasks, cut_notes.tasks, at);
            if at > 0 {
                assert(models(frames, caller, notes.tasks[at - 1]));
                assert(cut_notes.tasks.last() == notes.tasks[at - 1]);
            }
            lemma_finish_call(cut, cut_notes, caller, receiver, base, value)
        },
        _ => notes,
    }
}

/// Beginning the execution of a statement keeps the machine fitting.
proof fn lemma_execute<'a>(
    m: MachineView<'a>,
    notes: Notes,
    scopes: Seq<Scope>,
    stmt: &'a Stmt<'a>,
) -> (next: Notes)
    requires
        rest_fits(m, notes, scopes, scopes_after(scopes, *stmt)),
        stmt_fits(m.locals, scopes, *stmt),
        bounded(semantics::execute(m, stmt).0.store),
    ensures
        fits(semantics::execute(m, stmt).0, next),
{
    match stmt {
        Stmt::Block(node) => {
            let (after, action) = semantics::execute(m, stmt);
            let frames = m.store.environments;
            let frame = frames.len() as usize;
            let last = after.store.environments;
            lemma_push_grows(
                frames,
                EnvironmentView { values: Map::empty(), enclosing: Some(m.environment) },
            );
            lemma_rest_after_growth(m, notes, scopes, scopes, last);
            let inner = scopes.push(Map::empty());
            lemma_models_after_growth(frames, last, m.environment, scopes);
            lemma_models_pushed(last, m.environment, scopes, frame, Map::empty());
            let left = scopes_after_all(inner, node.statements@, 0);
            let next = noted(noted(notes, left), inner);
            let count = m.tasks.len() as int;
            lemma_agenda_same(last, m.locals, m.tasks, notes.tasks, after.tasks, next.tasks, count);
            assert(after.tasks[count] == Task::LeaveBlock(m.environment));
            assert(agenda_fits(last, m.locals, after.tasks, next.tasks, count + 1));
            assert(agenda_fits(last, m.locals, after.tasks, next.tasks, count + 2));
            next
        },
        Stmt::Class(node) => {
            let name = node.name.lexeme@;
            match &node.superclass {
                Some(parent) => {
                    let early = declared(scopes, name, false);
                    lemma_declared_then_defined(scopes, name);
                    lemma_models_undefined(m.store.environments, m.environment, scopes, name);
                    lemma_scheduled_two(
                        m,
                        notes,
                        scopes,
                        declared(scopes, name, true),
                        Task::DeclareClass(node),
                        early,
                        Task::Evaluate(parent),
                        early,
                    );
                    noted(noted(notes, early), early)
                },
                None => lemma_declare_class(m, notes, scopes, node, None),
            }
        },
        Stmt::Expression(node) => {
            lemma_scheduled_two(
                m,
                notes,
                scopes,
                scopes,
                Task::Discard,
                scopes,
                Task::Evaluate(&node.expr),
                scopes,
            );
            noted(noted(notes, scopes), scopes)
        },
        Stmt::Function(node) => {
            let name = node.name.lexeme@;
            let function = LoxFunction {
                declaration: node,
                closure: m.environment,
                is_initializer: false,
            };
            let added = semantics::stored(m, with_function(m.store, function));
            let (after, action) = semantics::define(
                added,
                name,
                Some(Value::Callable(Callable::Function(m.store.functions.len() as usize))),
            );
            let frames = m.store.environments;
            let last = after.store.environments;
            lemma_bind_grows(
                frames,
                m.environment,
                name,
                Some(Value::Callable(Callable::Function(m.store.functions.len() as usize))),
            );
            let left = declared(scopes, name, true);
            lemma_rest_after_growth(m, notes, scopes, left, last);
            lemma_models_after_growth(frames, last, m.environment, scopes);
            lemma_models_declared(last, m.environment, scopes, name, true);
            let next = Notes { functions: notes.functions.push(left), ..notes };
            assert(after.store.functions == m.store.functions.push(function));
            assert forall|f: int| 0 <= f < after.store.functions.len() implies {
                &&& models(
                    after.store.environments,
                    (#[trigger] after.store.functions[f]).closure,
                    next.functions[f],
                )
                &&& function_fits(m.locals, next.functions[f], *after.store.functions[f].declaration)
            } by {
                if f < m.store.functions.len() {
                    assert(after.store.functions[f] == m.store.functions[f]);
                    lemma_models_after_growth(
                        frames,
                        last,
                        m.store.functions[f].closure,
                        notes.functions[f],
                    );
                }
            }
            lemma_store_after_growth(m.store, last, m.locals, notes);
            assert(store_fits(after.store, m.locals, next));
            assert(rest_fits(after, next, left, left));
            lemma_done(after, next, left);
            next
        },
        Stmt::If(node) => {
            lemma_scheduled_two(
                m,
                notes,
                scopes,
                scopes,
                Task::Branch(node),
                scopes,
                Task::Evaluate(&node.condition),
                scopes,
            );
            noted(noted(notes, scopes), scopes)
        },
        Stmt::Print(node) => {
            lemma_scheduled_two(
                m,
                notes,
                scopes,
                scopes,
                Task::Print,
                scopes,
                Task::Evaluate(&node.expr),
                scopes,
            );
            noted(noted(notes, scopes), scopes)
        },
        Stmt::Return(node) => match &node.value {
            Some(value) => {
                lemma_scheduled_two(
                    m,
                    notes,
                    scopes,
                    scopes,
                    Task::Return(node),
                    scopes,
                    Task::Evaluate(value),
                    scopes,
                );
                noted(noted(notes, scopes), scopes)
            },
            None => lemma_return_value(m, notes, node, Value::Nil),
        },
        Stmt::Var(node) => {
            let name = node.name.lexeme@;
            match &node.initializer {
                Some(value) => {
                    let early = declared(scopes, name, false);
                    lemma_declared_then_defined(scopes, name);
                    lemma_models_undefined(m.store.environments, m.environment, scopes, name);
                    lemma_scheduled_two(
                        m,
                        notes,
                        scopes,
                        declared(scopes, name, true),
                        Task::DefineVar(node),
                        early,
                        Task::Evaluate(value),
                        early,
                    );
                    noted(noted(notes, early), early)
                },
                None => lemma_define(m, notes, scopes, name, None),
            }
        },
        Stmt::While(node) => {
            lemma_scheduled_two(
                m,
                notes,
                scopes,
                scopes,
                Task::Loop(node),
                scopes,
                Task::Evaluate(&node.condition),
                scopes,
            );
            noted(noted(notes, scopes), scopes)
        },
    }
}

/// Work that uses up a value keeps the machine fitting.
proof fn lemma_consume<'a>(
    m: MachineView<'a>,
    notes: Notes,
    scopes: Seq<Scope>,
    task: Task<'a>,
    value: Value,
) -> (next: Notes)
    requires
        rest_fits(m, notes, scopes, scopes_left(task, scopes)),
        task_fits(m.locals, scopes, task),
        bounded(semantics::consume(m, task, value).0.store),
    ensures
        fits(semantics::consume(m, task, value).0, next),
{
    let (after, action) = semantics::consume(m, task, value);
    if action is Failed {
        match task {
            Task::DefineVar(node) => {
                return lemma_define(m, notes, scopes, node.name.lexeme@, Some(value));
            },
            Task::Return(node) => {
                return lemma_return_value(m, notes, node, value);
            },
            Task::GetProperty(node) => {},
            _ => {
                lemma_failed(m, notes, action->Failed_0);
                return Notes { tasks: Seq::empty(), ..notes };
            },
        }
    }
    match task {
        Task::Discard => {
            lemma_done(after, notes, scopes);
            notes
        },
        Task::Print => {
            lemma_done(after, notes, scopes);
            notes
        },
        Task::DefineVar(node) => lemma_define(m, notes, scopes, node.name.lexeme@, Some(value)),
        Task::Branch(node) => {
            if value.truthy() {
                lemma_scheduled(m, notes, scopes, scopes, Task::Execute(&*node.then_branch), scopes);
                noted(notes, scopes)
            } else {
                match &node.else_branch {
                    Some(branch) => {
                        lemma_scheduled(m, notes, scopes, scopes, Task::Execute(&**branch), scopes);
                        noted(notes, scopes)
                    },
                    None => {
                        lemma_done(after, notes, scopes);
                        notes
                    },
                }
            }
        },
        Task::Loop(node) => {
            if value.truthy() {
                lemma_scheduled(m, notes, scopes, scopes, Task::Loop(node), scopes);
                lemma_scheduled_two(
                    semantics::schedule(m, Task::Loop(node)),
                    noted(notes, scopes),
                    scopes,
                    scopes,
                    Task::Evaluate(&node.condition),
                    scopes,
                    Task::Execute(&*node.body),
                    scopes,
                );
                noted(noted(noted(notes, scopes), scopes), scopes)
            } else {
                lemma_done(after, notes, scopes);
                notes
            }
        },
        Task::Return(node) => lemma_return_value(m, notes, node, value),
        Task::Unary(node) => {
            lemma_done(after, notes, scopes);
            notes
        },
        Task::GetProperty(node) => {
            match value {
                Value::Instance(instance) => {
                    let (store, found) = get_property(m.store, instance, node.name);
                    if instance < m.store.instances.len() && !m.store.instances[instance as int].fields.contains_key(
                        node.name.lexeme@,
                    ) && find_method(
                        m.store.classes,
                        m.store.instances[instance as int].class,
                        node.name.lexeme@,
                    ) is Some {
                        let class = m.store.instances[instance as int].class;
                        let method = find_method(m.store.classes, class, node.name.lexeme@)->0;
                        lemma_holder(m.store.classes, class, node.name.lexeme@);
                        let at = holder(m.store.classes, class, node.name.lexeme@)->0;
                        let next = lemma_bind_method(
                            m.store,
                            m.locals,
                            notes,
                            method,
                            instance,
                            at as int,
                            node.name.lexeme@,
                        );
                        lemma_rest_after_growth(m, notes, scopes, scopes, store.environments);
                        let stored = semantics::stored(m, store);
                        assert(rest_fits(stored, next, scopes, scopes));
                        lemma_give(stored, next, scopes, found->Ok_0);
                        next
                    } else {
                        assert(store == m.store);
                        if action is Failed {
                            lemma_failed(m, notes, action->Failed_0);
                            Notes { tasks: Seq::empty(), ..notes }
                        } else {
                            lemma_done(after, notes, scopes);
                            notes
                        }
                    }
                },
                _ => {
                    lemma_failed(m, notes, action->Failed_0);
                    Notes { tasks: Seq::empty(), ..notes }
                },
            }
        },
        Task::Assign(node) => {
            let frames = m.store.environments;
            let last = after.store.environments;
            assert(grows(frames, last)) by {
                if m.locals.contains_key(key_of(node.name)) {
                    let at = ancestor(
                        frames,
                        m.environment,
                        m.locals[key_of(node.name)] as nat,
                    )->0;
                    lemma_bind_grows(frames, at, node.name.lexeme@, Some(value));
                } else {
                    let at = binding_frame(frames, m.globals, node.name.lexeme@)->0;
                    lemma_bind_grows(frames, at, node.name.lexeme@, Some(value));
                }
            }
            lemma_rest_after_growth(m, notes, scopes, scopes, last);
            lemma_done(after, notes, scopes);
            notes
        },
        _ => notes,
    }
}

/// A binary operator keeps the machine fitting.
proof fn lemma_binary<'a>(
    m: MachineView<'a>,
    notes: Notes,
    scopes: Seq<Scope>,
    node: &'a crate::ast::ExprBinary<'a>,
    left: Value,
    right: Value,
) -> (next: Notes)
    requires
        rest_fits(m, notes, scopes, scopes),
    ensures
        fits(semantics::binary(m, node, left, right).0, next),
{
    let (after, action) = semantics::binary(m, node, left, right);
    if action is Failed {
        lemma_failed(m, notes, action->Failed_0);
        Notes { tasks: Seq::empty(), ..notes }
    } else {
        lemma_done(after, notes, scopes);
        notes
    }
}

/// Whether the work `task`, resolved in `scopes`, is tied to the work below
/// it as the agenda asks.
pub open spec fn tied(m: MachineView, notes: Notes, task: Task, scopes: Seq<Scope>) -> bool {
    m.tasks.len() > 0 ==> match task {
        Task::LeaveBlock(frame) => models(m.store.environments, frame, notes.tasks.last()),
        Task::FinishCall { caller, .. } => models(
            m.store.environments,
            caller,
            notes.tasks.last(),
        ),
        other => notes.tasks.last() == scopes_left(other, scopes),
    }
}

/// Doing the work taken from the agenda keeps the machine fitting.
proof fn lemma_perform<'a>(m: MachineView<'a>, notes: Notes, task: Task<'a>, scopes: Seq<Scope>) -> (next:
    Notes)
    requires
        agenda_and_store_fit(m, notes),
        task_fits(m.locals, scopes, task),
        tied(m, notes, task, scopes),
        models(m.store.environments, m.environment, scopes),
        bounded(semantics::perform(m, task).0.store),
    ensures
        fits(semantics::perform(m, task).0, next),
{
    let (after, action) = semantics::perform(m, task);
    let left = scopes_left(task, scopes);
    match task {
        Task::LeaveBlock(frame) => {
            return notes;
        },
        Task::FinishCall { caller, receiver, base } => {
            return lemma_finish_call(m, notes, caller, receiver, base, Value::Nil);
        },
        _ => {},
    }
    assert(rest_fits(m, notes, scopes, left));
    match task {
        Task::Sequence(list, from) => {
            vstd::std_specs::vec::axiom_spec_len(list);
            if from < list@.len() {
                let then = scopes_after(scopes, list@[from as int]);
                lemma_scheduled_two(
                    m,
                    notes,
                    scopes,
                    left,
                    Task::Sequence(list, (from + 1) as usize),
                    then,
                    Task::Execute(&list@[from as int]),
                    scopes,
                );
                noted(noted(notes, then), scopes)
            } else {
                lemma_done(m, notes, scopes);
                notes
            }
        },
        Task::Arguments(list, from) => {
            vstd::std_specs::vec::axiom_spec_len(list);
            if from < list@.len() {
                lemma_scheduled_two(
                    m,
                    notes,
                    scopes,
                    scopes,
                    Task::Arguments(list, (from + 1) as usize),
                    scopes,
                    Task::Evaluate(&list@[from as int]),
                    scopes,
                );
                noted(noted(notes, scopes), scopes)
            } else {
                lemma_done(m, notes, scopes);
                notes
            }
        },
        Task::Execute(stmt) => lemma_execute(m, notes, scopes, stmt),
        Task::Evaluate(expr) => lemma_evaluate(m, notes, scopes, expr),
        Task::DeclareClass(node) => {
            if action is Failed && (m.values.len() == 0 || !(m.values.last() matches Value::Callable(
                Callable::Class(_),
            ))) {
                lemma_failed(m, notes, action->Failed_0);
                Notes { tasks: Seq::empty(), ..notes }
            } else {
                let parent = m.values.last()->Callable_0->Class_0;
                let popped = semantics::pop(m);
                assert(rest_fits(popped, notes, scopes, left));
                lemma_declare_class(popped, notes, scopes, node, Some(parent))
            }
        },
        Task::CallCheck(node) => {
            if action is Failed {
                lemma_failed(m, notes, action->Failed_0);
                Notes { tasks: Seq::empty(), ..notes }
            } else {
                lemma_scheduled_two(
                    m,
                    notes,
                    scopes,
                    scopes,
                    Task::Call(node),
                    scopes,
                    Task::Arguments(&node.arguments, 0),
                    scopes,
                );
                noted(noted(notes, scopes), scopes)
            }
        },
        Task::Call(node) => lemma_call(m, notes, scopes, node),
        Task::LogicalRight(node) => {
            if action is Failed {
                lemma_failed(m, notes, action->Failed_0);
                Notes { tasks: Seq::empty(), ..notes }
            } else if (node.operator.kind == crate::lex::TokenType::Or && m.values.last().truthy())
                || (node.operator.kind == crate::lex::TokenType::And && !m.values.last().truthy()) {
                lemma_done(m, notes, scopes);
                notes
            } else {
                let popped = semantics::pop(m);
                assert(rest_fits(popped, notes, scopes, scopes));
                lemma_scheduled(popped, notes, scopes, scopes, Task::Evaluate(&*node.right), scopes);
                noted(notes, scopes)
            }
        },
        Task::SetCheck(node) => {
            if action is Failed {
                lemma_failed(m, notes, action->Failed_0);
                Notes { tasks: Seq::empty(), ..notes }
            } else {
                lemma_scheduled_two(
                    m,
                    notes,
                    scopes,
                    scopes,
                    Task::SetStore(node),
                    scopes,
                    Task::Evaluate(&*node.value),
                    scopes,
                );
                noted(noted(notes, scopes), scopes)
            }
        },
        Task::SetStore(node) => {
            if action is Failed {
                lemma_failed(m, notes, action->Failed_0);
                Notes { tasks: Seq::empty(), ..notes }
            } else {
                lemma_done(after, notes, scopes);
                notes
            }
        },
        Task::Binary(node) => {
            if m.values.len() < 2 {
                lemma_failed(m, notes, action->Failed_0);
                Notes { tasks: Seq::empty(), ..notes }
            } else {
                let popped = semantics::pop(semantics::pop(m));
                assert(rest_fits(popped, notes, scopes, scopes));
                lemma_binary(
                    popped,
                    notes,
                    scopes,
                    node,
                    m.values[m.values.len() - 2],
                    m.values.last(),
                )
            }
        },
        _ => {
            if m.values.len() == 0 {
                lemma_failed(m, notes, action->Failed_0);
                Notes { tasks: Seq::empty(), ..notes }
            } else {
                let popped = semantics::pop(m);
                assert(rest_fits(popped, notes, scopes, left));
                lemma_consume(popped, notes, scopes, task, m.values.last())
            }
        },
    }
}

/// Every step keeps the machine fitting: where a machine fits the table of
/// depths, so does the machine after one more step, whatever the host
/// answers. The result is what resolving says of the machine after the step.
pub proof fn lemma_step_keeps_fitting<'a>(m: MachineView<'a>, notes: Notes, event: Event) -> (next:
    Notes)
    requires
        fits(m, notes),
        bounded(semantics::step(m, event).0.store),
    ensures
        fits(semantics::step(m, event).0, next),
{
    let (after, action) = semantics::step(m, event);
    if m.awaiting != Awaiting::Nothing {
        if action is Failed {
            lemma_failed(m, notes, action->Failed_0);
            Notes { tasks: Seq::empty(), ..notes }
        } else {
            notes
        }
    } else if m.tasks.len() == 0 {
        notes
    } else {
        let count = m.tasks.len() as int;
        let rest = MachineView { tasks: m.tasks.drop_last(), ..m };
        let rest_notes = Notes { tasks: notes.tasks.drop_last(), ..notes };
        let frames = m.store.environments;
        lemma_agenda_prefix(frames, m.locals, m.tasks, notes.tasks, count, count - 1);
        lemma_agenda_same(
            frames,
            m.locals,
            m.tasks,
            notes.tasks,
            rest.tasks,
            rest_notes.tasks,
            count - 1,
        );
        if count >= 2 {
            assert(rest_notes.tasks.last() == notes.tasks[count - 2]);
        }
        lemma_perform(rest, rest_notes, m.tasks.last(), notes.tasks.last())
    }
}

/// A machine on whose agenda a program was just put fits the table of depths
/// that fits the program.
pub proof fn lemma_program_start_fits<'a>(
    locals: Map<u32, usize>,
    stmts: &'a Vec<Stmt<'a>>,
) -> (notes: Notes)
    requires
        stmts_fit(locals, Seq::empty(), stmts@, 0),
    ensures
        fits(
            semantics::schedule(crate::interpreter::initial(locals), Task::Sequence(stmts, 0)),
            notes,
        ),
{
    let notes = Notes { tasks: seq![Seq::empty()], functions: Seq::empty(), classes: Seq::empty() };
    let m = semantics::schedule(crate::interpreter::initial(locals), Task::Sequence(stmts, 0));
    assert(agenda_fits(m.store.environments, locals, m.tasks, notes.tasks, 0));
    assert(agenda_fits(m.store.environments, locals, m.tasks, notes.tasks, 1));
    notes
}

/// Where the resolver has recorded a depth for a use of a variable, the
/// machine finds the binding there: in a machine that fits, whose next piece
/// of work is to read a variable or `this`, the chain of frames from the
/// current frame is longer than the depth recorded for that use, and the
/// frame at that depth binds the name.
pub proof fn lemma_variable_use_finds_its_binding<'a>(m: MachineView<'a>, notes: Notes, name: Token<'a>)
    requires
        fits(m, notes),
        m.tasks.len() > 0,
        m.tasks.last() matches Task::Evaluate(expr) && (match expr {
            Expr::Variable(node) => node.name == name,
            Expr::This(node) => node.keyword == name,
            _ => false,
        }),
        m.locals.contains_key(key_of(name)),
    ensures
        ancestor(m.store.environments, m.environment, m.locals[key_of(name)] as nat) is Some,
        get_at(m.store.environments, m.environment, m.locals[key_of(name)] as nat, name.lexeme@)
            is Some,
{
    lemma_read_finds_its_binding(m, notes.tasks.last(), key_of(name), name.lexeme@);
}

/// Where the resolver has recorded a depth for an assignment, the machine
/// finds the frame there: in a machine that fits, whose next piece of work is
/// to assign to a variable, the chain of frames from the current frame is
/// longer than the depth recorded for the assignment. The frame at that
/// depth binds the name too, unless the assignment stands in the initializer
/// of the very variable it assigns to, which is declared by then and not yet
/// defined.
pub proof fn lemma_assignment_finds_its_scope<'a>(
    m: MachineView<'a>,
    notes: Notes,
    node: &'a crate::ast::ExprAssign<'a>,
    value: Value,
)
    requires
        fits(m, notes),
        m.tasks.len() > 0,
        m.tasks.last() == Task::Assign(node),
        m.locals.contains_key(key_of(node.name)),
    ensures
        ancestor(m.store.environments, m.environment, m.locals[key_of(node.name)] as nat)
            is Some,
        assign_at(
            m.store.environments,
            m.environment,
            m.locals[key_of(node.name)] as nat,
            node.name.lexeme@,
            value,
        ) is Some,
        read_fits(m.locals, notes.tasks.last(), key_of(node.name), node.name.lexeme@) ==> get_at(
            m.store.environments,
            m.environment,
            m.locals[key_of(node.name)] as nat,
            node.name.lexeme@,
        ) is Some,
{
    lemma_assignment_finds_its_frame(
        m,
        notes.tasks.last(),
        key_of(node.name),
        node.name.lexeme@,
        value,
    );
    if read_fits(m.locals, notes.tasks.last(), key_of(node.name), node.name.lexeme@) {
        lemma_read_finds_its_binding(m, notes.tasks.last(), key_of(node.name), node.name.lexeme@);
    }
}

/// Where the resolver has recorded a depth for a use of `super`, the machine
/// finds `super` at that depth and `this` one frame further in.
pub proof fn lemma_super_finds_its_bindings<'a>(m: MachineView<'a>, notes: Notes, node: ExprSuper<'a>)
    requires
        fits(m, notes),
        m.tasks.len() > 0,
        m.tasks.last() matches Task::Evaluate(expr) && *expr == Expr::Super(node),
        m.locals.contains_key(key_of(node.keyword)),
    ensures
        m.locals[key_of(node.keyword)] >= 1,
        get_at(
            m.store.environments,
            m.environment,
            m.locals[key_of(node.keyword)] as nat,
            "super"@,
        ) is Some,
        get_at(
            m.store.environments,
            m.environment,
            (m.locals[key_of(node.keyword)] - 1) as nat,
            "this"@,
        ) is Some,
{
    let scopes = notes.tasks.last();
    let frames = m.store.environments;
    super::binding::lemma_models_bounds_the_scopes(frames, m.environment, scopes);
    lemma_depth_leads_to_the_binding(frames, m.environment, scopes, "super"@);
    let depth = depth_of(scopes, "super"@)->0;
    lemma_ancestor_models(frames, m.environment, scopes, (depth - 1) as nat);
    let inner = scopes.subrange(0, scopes.len() - (depth - 1));
    assert(inner.last() == scopes[scopes.len() - depth]);
}

} // verus!
