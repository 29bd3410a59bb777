//! The invariant of the evaluation machine that keeps it from failing on
//! its own account: every value names something in the store, and every
//! piece of work finds on the value stack the values it takes.

use vstd::prelude::*;
use crate::lex::Token;
use super::callable::{Callable, LoxFunction};
use super::class::{find_method, ClassView};
use super::environment::{ancestor, bind, binding_frame, get, get_at, read};
use super::machine::{Awaiting, MachineView, Task};
use super::semantics::bind_parameters;
use super::store::{
    bind_method, with_binding, with_class, with_field, with_frame, with_function, with_instance,
    with_string, StoreView,
};
use super::value::Value;

verus! {

/// Whether the value names something that the store holds.
pub open spec fn valid(store: StoreView, value: Value) -> bool {
    match value {
        Value::String(at) => at < store.strings.len(),
        Value::Callable(Callable::Function(at)) => at < store.functions.len(),
        Value::Callable(Callable::Class(at)) => at < store.classes.len(),
        Value::Instance(at) => at < store.instances.len(),
        _ => true,
    }
}

/// Whether every value of the list is valid.
pub open spec fn all_valid(store: StoreView, values: Seq<Value>) -> bool {
    forall|i: int| 0 <= i < values.len() ==> valid(store, #[trigger] values[i])
}

/// Whether every link of the store leads to a place that the store holds,
/// and to an older one within a chain: each frame is enclosed by an older
/// frame, each class has an older class as its superclass, and the closure of
/// every function and of every method is a frame of the store. Reading,
/// assigning and the search for a method follow a link to an older place
/// only, so that on a store that is linked they walk the whole chain.
pub open spec fn linked(store: StoreView) -> bool {
    &&& forall|frame: int|
        0 <= frame < store.environments.len() && (
        #[trigger] store.environments[frame]).enclosing is Some
            ==> store.environments[frame].enclosing->0 < frame
    &&& forall|class: int|
        0 <= class < store.classes.len() && (#[trigger] store.classes[class]).superclass is Some
            ==> store.classes[class].superclass->0 < class
    &&& forall|f: int|
        0 <= f < store.functions.len() ==> (#[trigger] store.functions[f]).closure
            < store.environments.len()
    &&& forall|class: int, name: Seq<char>|
        0 <= class < store.classes.len() && (#[trigger] store.classes[class].methods.contains_key(
            name,
        )) ==> store.classes[class].methods[name].closure < store.environments.len()
}

/// Whether the store is linked, every value that it holds is valid, and the
/// closure of every initializer binds `this`.
pub open spec fn store_valid(store: StoreView) -> bool {
    &&& linked(store)
    &&& forall|frame: int, name: Seq<char>|
        0 <= frame < store.environments.len() && (
        #[trigger] store.environments[frame].values.contains_key(name))
            && store.environments[frame].values[name] is Some ==> valid(
            store,
            store.environments[frame].values[name]->0,
        )
    &&& forall|object: int, name: Seq<char>|
        0 <= object < store.instances.len() && (
        #[trigger] store.instances[object].fields.contains_key(name)) ==> valid(
            store,
            store.instances[object].fields[name],
        )
    &&& forall|f: int|
        0 <= f < store.functions.len() && (#[trigger] store.functions[f]).is_initializer
            ==> binds_this(store, store.functions[f].closure)
}

/// Whether the frame exists and binds `this`.
pub open spec fn binds_this(store: StoreView, frame: usize) -> bool {
    frame < store.environments.len() && store.environments[frame as int].values.contains_key(
        "this"@,
    )
}

/// Whether every call of an initializer on the agenda ends in a frame that
/// binds `this`.
pub open spec fn receivers_bound(store: StoreView, tasks: Seq<Task>) -> bool {
    forall|i: int|
        0 <= i < tasks.len() ==> match #[trigger] tasks[i] {
            Task::FinishCall { receiver: Some(frame), .. } => binds_this(store, frame),
            _ => true,
        }
}

/// How many values a piece of work takes from the value stack.
pub open spec fn takes(task: Task) -> nat {
    match task {
        Task::Discard => 1,
        Task::Print => 1,
        Task::DefineVar(_) => 1,
        Task::Branch(_) => 1,
        Task::Loop(_) => 1,
        Task::Return(_) => 1,
        Task::DeclareClass(_) => 1,
        Task::LogicalRight(_) => 1,
        Task::SetCheck(_) => 1,
        Task::Unary(_) => 1,
        Task::CallCheck(_) => 1,
        Task::GetProperty(_) => 1,
        Task::Assign(_) => 1,
        Task::SetStore(_) => 2,
        Task::Binary(_) => 2,
        Task::Call(node) => node.arguments@.len() + 1,
        _ => 0,
    }
}

/// By how many values the value stack is higher when a piece of work is
/// all done.
pub open spec fn leaves(task: Task) -> int {
    match task {
        Task::Evaluate(_) => 1,
        Task::Arguments(list, from) => if from <= list@.len() {
            list@.len() - from
        } else {
            0
        },
        Task::Discard => -1,
        Task::Print => -1,
        Task::DefineVar(_) => -1,
        Task::Branch(_) => -1,
        Task::Loop(_) => -1,
        Task::Return(_) => -1,
        Task::DeclareClass(_) => -1,
        Task::SetStore(_) => -1,
        Task::Binary(_) => -1,
        Task::Call(node) => -node.arguments@.len(),
        _ => 0,
    }
}

/// The height of the value stack at the beginning of the innermost call
/// among the first `count` pieces of work; 0 outside every call.
pub open spec fn floor(tasks: Seq<Task>, count: int) -> int
    decreases count,
{
    if count <= 0 {
        0
    } else {
        match tasks[count - 1] {
            Task::FinishCall { base, .. } => base as int,
            _ => floor(tasks, count - 1),
        }
    }
}

/// Whether each of the first `count` pieces of work will find the values it
/// takes, above those of the calls around it, where the value stack holds
/// `height` values when the last of them begins.
pub open spec fn supplied(tasks: Seq<Task>, count: int, height: int) -> bool
    decreases count,
{
    if count <= 0 {
        true
    } else {
        match tasks[count - 1] {
            Task::FinishCall { base, .. } => {
                &&& floor(tasks, count - 1) <= base <= height
                &&& supplied(tasks, count - 1, base + 1)
            },
            task => {
                &&& floor(tasks, count - 1) + takes(task) <= height
                &&& supplied(tasks, count - 1, height + leaves(task))
            },
        }
    }
}

/// The height of the value stack when the host has answered.
pub open spec fn height(m: MachineView) -> int {
    if m.awaiting == Awaiting::Nothing {
        m.values.len() as int
    } else {
        (m.values.len() + 1) as int
    }
}

/// The invariant: the store and the value stack hold valid values only, the
/// calls of initializers end in frames that bind `this`, and the agenda is
/// supplied.
pub open spec fn steady(m: MachineView) -> bool {
    &&& store_valid(m.store)
    &&& all_valid(m.store, m.values)
    &&& receivers_bound(m.store, m.tasks)
    &&& supplied(m.tasks, m.tasks.len() as int, height(m))
}

/// Whether `after` holds all that `before` holds: every place stays, every
/// frame and every object keeps its names.
pub open spec fn extends(before: StoreView, after: StoreView) -> bool {
    &&& before.strings.len() <= after.strings.len()
    &&& before.functions.len() <= after.functions.len()
    &&& before.classes.len() <= after.classes.len()
    &&& before.instances.len() <= after.instances.len()
    &&& before.environments.len() <= after.environments.len()
    &&& forall|frame: int, name: Seq<char>|
        0 <= frame < before.environments.len() && before.environments[frame].values.contains_key(
            name,
        ) ==> #[trigger] after.environments[frame].values.contains_key(name)
}

/// A value that is valid stays valid as the store grows.
pub proof fn lemma_valid_extends(before: StoreView, after: StoreView, value: Value)
    requires
        valid(before, value),
        extends(before, after),
    ensures
        valid(after, value),
{
}

/// Values that are valid stay valid as the store grows.
pub proof fn lemma_all_valid_extends(before: StoreView, after: StoreView, values: Seq<Value>)
    requires
        all_valid(before, values),
        extends(before, after),
    ensures
        all_valid(after, values),
{
    assert forall|i: int| 0 <= i < values.len() implies valid(after, #[trigger] values[i]) by {
        lemma_valid_extends(before, after, values[i]);
    }
}

/// The calls of initializers stay bound as the store grows.
pub proof fn lemma_receivers_extend(before: StoreView, after: StoreView, tasks: Seq<Task>)
    requires
        receivers_bound(before, tasks),
        extends(before, after),
    ensures
        receivers_bound(after, tasks),
{
    assert forall|i: int| 0 <= i < tasks.len() implies match #[trigger] tasks[i] {
        Task::FinishCall { receiver: Some(frame), .. } => binds_this(after, frame),
        _ => true,
    } by {
        match tasks[i] {
            Task::FinishCall { receiver: Some(frame), .. } => {
                assert(binds_this(before, frame));
            },
            _ => {},
        }
    }
}

/// Whether the agenda is supplied depends on its first `count` pieces of
/// work only.
pub proof fn lemma_supplied_same(tasks: Seq<Task>, other: Seq<Task>, count: int, height: int)
    requires
        supplied(tasks, count, height),
        forall|i: int| 0 <= i < count ==> tasks[i] == other[i],
    ensures
        supplied(other, count, height),
        floor(other, count) == floor(tasks, count),
    decreases count,
{
    if count > 0 {
        lemma_floor_same(tasks, other, count - 1);
        match tasks[count - 1] {
            Task::FinishCall { base, .. } => {
                lemma_supplied_same(tasks, other, count - 1, base + 1);
            },
            task => {
                lemma_supplied_same(tasks, other, count - 1, height + leaves(task));
            },
        }
    }
}

/// The floor depends on the first `count` pieces of work only.
pub proof fn lemma_floor_same(tasks: Seq<Task>, other: Seq<Task>, count: int)
    requires
        forall|i: int| 0 <= i < count ==> tasks[i] == other[i],
    ensures
        floor(other, count) == floor(tasks, count),
    decreases count,
{
    if count > 0 {
        lemma_floor_same(tasks, other, count - 1);
    }
}

/// A store that holds valid values only still does when all that is new in
/// it is valid: the values of the frames and of the objects that were not
/// there before, and the closures of the initializers that were not.
proof fn lemma_store_valid_grown(before: StoreView, after: StoreView)
    requires
        store_valid(before),
        extends(before, after),
        linked(after),
        forall|frame: int, name: Seq<char>|
            0 <= frame < after.environments.len() && (
            #[trigger] after.environments[frame].values.contains_key(name))
                && after.environments[frame].values[name] is Some ==> valid(
                after,
                after.environments[frame].values[name]->0,
            ) || (frame < before.environments.len() && before.environments[frame].values.contains_key(
                name,
            ) && before.environments[frame].values[name]
                == after.environments[frame].values[name]),
        forall|object: int, name: Seq<char>|
            0 <= object < after.instances.len() && (
            #[trigger] after.instances[object].fields.contains_key(name)) ==> valid(
                after,
                after.instances[object].fields[name],
            ) || (object < before.instances.len() && before.instances[object].fields.contains_key(
                name,
            ) && before.instances[object].fields[name] == after.instances[object].fields[name]),
        forall|f: int|
            0 <= f < after.functions.len() && (#[trigger] after.functions[f]).is_initializer
                ==> binds_this(after, after.functions[f].closure) || (f < before.functions.len()
                && before.functions[f] == after.functions[f]),
    ensures
        store_valid(after),
{
    assert forall|frame: int, name: Seq<char>|
        0 <= frame < after.environments.len() && (
        #[trigger] after.environments[frame].values.contains_key(name))
            && after.environments[frame].values[name] is Some implies valid(
        after,
        after.environments[frame].values[name]->0,
    ) by {
        if !valid(after, after.environments[frame].values[name]->0) {
            assert(before.environments[frame].values.contains_key(name));
            lemma_valid_extends(before, after, before.environments[frame].values[name]->0);
        }
    }
    assert forall|object: int, name: Seq<char>|
        0 <= object < after.instances.len() && (
        #[trigger] after.instances[object].fields.contains_key(name)) implies valid(
        after,
        after.instances[object].fields[name],
    ) by {
        if !valid(after, after.instances[object].fields[name]) {
            assert(before.instances[object].fields.contains_key(name));
            lemma_valid_extends(before, after, before.instances[object].fields[name]);
        }
    }
    assert forall|f: int|
        0 <= f < after.functions.len() && (
        #[trigger] after.functions[f]).is_initializer implies binds_this(
        after,
        after.functions[f].closure,
    ) by {
        if !binds_this(after, after.functions[f].closure) {
            assert(before.functions[f].is_initializer);
            assert(binds_this(before, before.functions[f].closure));
        }
    }
}

/// Binding a valid value keeps the store valid.
pub proof fn lemma_binding_valid(store: StoreView, at: usize, name: Seq<char>, value: Option<Value>)
    requires
        store_valid(store),
        value is Some ==> valid(store, value->0),
    ensures
        store_valid(with_binding(store, at, name, value)),
        extends(store, with_binding(store, at, name, value)),
        at < store.environments.len() ==> with_binding(
            store,
            at,
            name,
            value,
        ).environments[at as int].values.contains_key(name),
{
    let after = with_binding(store, at, name, value);
    lemma_store_valid_grown(store, after);
}

/// One more frame inside a frame of the store keeps the store valid.
pub proof fn lemma_frame_valid(store: StoreView, enclosing: Option<usize>)
    requires
        store_valid(store),
        enclosing is Some ==> enclosing->0 < store.environments.len(),
    ensures
        store_valid(with_frame(store, enclosing)),
        extends(store, with_frame(store, enclosing)),
{
    let after = with_frame(store, enclosing);
    assert forall|frame: int, name: Seq<char>|
        0 <= frame < store.environments.len() && store.environments[frame].values.contains_key(
            name,
        ) implies #[trigger] after.environments[frame].values.contains_key(name) by {
        assert(after.environments[frame] == store.environments[frame]);
    }
    assert forall|frame: int|
        0 <= frame < after.environments.len() && (
        #[trigger] after.environments[frame]).enclosing is Some implies after.environments[frame].enclosing->0
        < frame by {
        if frame < store.environments.len() {
            assert(after.environments[frame] == store.environments[frame]);
        }
    }
    lemma_store_valid_grown(store, after);
}

/// One more string keeps the store valid.
pub proof fn lemma_string_valid(store: StoreView, text: Seq<char>)
    requires
        store_valid(store),
    ensures
        store_valid(with_string(store, text)),
        extends(store, with_string(store, text)),
{
    lemma_store_valid_grown(store, with_string(store, text));
}

/// One more function keeps the store valid, where its closure is a frame of
/// the store, which binds `this` if the function is an initializer.
pub proof fn lemma_function_valid(store: StoreView, function: LoxFunction)
    requires
        store_valid(store),
        function.closure < store.environments.len(),
        function.is_initializer ==> binds_this(store, function.closure),
    ensures
        store_valid(with_function(store, function)),
        extends(store, with_function(store, function)),
{
    let after = with_function(store, function);
    assert forall|f: int| 0 <= f < after.functions.len() implies (
    #[trigger] after.functions[f]).closure < after.environments.len() by {
        if f < store.functions.len() {
            assert(after.functions[f] == store.functions[f]);
        }
    }
    assert forall|f: int|
        0 <= f < after.functions.len() && (#[trigger] after.functions[f]).is_initializer implies binds_this(
        after,
        after.functions[f].closure,
    ) || (f < store.functions.len() && store.functions[f] == after.functions[f]) by {
        if f < store.functions.len() {
            assert(after.functions[f] == store.functions[f]);
        }
    }
    lemma_store_valid_grown(store, after);
}

/// One more class keeps the store valid, where its superclass is a class of
/// the store and the closures of its methods are frames of the store.
pub proof fn lemma_class_valid(store: StoreView, class: ClassView)
    requires
        store_valid(store),
        class.superclass is Some ==> class.superclass->0 < store.classes.len(),
        forall|name: Seq<char>| #[trigger]
            class.methods.contains_key(name) ==> class.methods[name].closure
                < store.environments.len(),
    ensures
        store_valid(with_class(store, class)),
        extends(store, with_class(store, class)),
{
    let after = with_class(store, class);
    assert forall|c: int|
        0 <= c < after.classes.len() && (
        #[trigger] after.classes[c]).superclass is Some implies after.classes[c].superclass->0
        < c by {
        if c < store.classes.len() {
            assert(after.classes[c] == store.classes[c]);
        }
    }
    assert forall|c: int, name: Seq<char>|
        0 <= c < after.classes.len() && (#[trigger] after.classes[c].methods.contains_key(
            name,
        )) implies after.classes[c].methods[name].closure < after.environments.len() by {
        if c < store.classes.len() {
            assert(after.classes[c] == store.classes[c]);
        }
    }
    lemma_store_valid_grown(store, after);
}

/// A method that is found in a valid store closes over a frame of the store.
pub proof fn lemma_found_method_is_linked(store: StoreView, class: usize, name: Seq<char>)
    requires
        linked(store),
    ensures
        find_method(store.classes, class, name) is Some ==> find_method(
            store.classes,
            class,
            name,
        )->0.closure < store.environments.len(),
    decreases class,
{
    if class < store.classes.len() && !store.classes[class as int].methods.contains_key(name) {
        if let Some(parent) = store.classes[class as int].superclass {
            if parent < class {
                lemma_found_method_is_linked(store, parent, name);
            }
        }
    }
}

/// On a store that is linked the search for a method walks the whole chain
/// of superclasses: a class that lacks the name has the method that its
/// superclass has, and none where it has no superclass.
pub proof fn lemma_search_walks_the_chain(store: StoreView, class: usize, name: Seq<char>)
    requires
        linked(store),
        class < store.classes.len(),
        !store.classes[class as int].methods.contains_key(name),
    ensures
        find_method(store.classes, class, name) == match store.classes[class as int].superclass {
            Some(parent) => find_method(store.classes, parent, name),
            None => None,
        },
{
}

/// On a store that is linked the search for a binding walks the whole chain
/// of frames: a frame that lacks the name has the binding that the frame
/// around it has, and none where no frame is around it.
pub proof fn lemma_lookup_walks_the_chain(store: StoreView, frame: usize, name: Seq<char>)
    requires
        linked(store),
        frame < store.environments.len(),
        !store.environments[frame as int].values.contains_key(name),
    ensures
        binding_frame(store.environments, frame, name) == match store.environments[frame as int].enclosing {
            Some(outer) => binding_frame(store.environments, outer, name),
            None => None,
        },
{
}

/// One more object keeps the store valid.
pub proof fn lemma_instance_valid(store: StoreView, class: usize)
    requires
        store_valid(store),
    ensures
        store_valid(with_instance(store, class)),
        extends(store, with_instance(store, class)),
{
    let after = with_instance(store, class);
    assert forall|object: int, name: Seq<char>|
        0 <= object < after.instances.len() && (
        #[trigger] after.instances[object].fields.contains_key(name)) implies valid(
        after,
        after.instances[object].fields[name],
    ) || (object < store.instances.len() && store.instances[object].fields.contains_key(name)
        && store.instances[object].fields[name] == after.instances[object].fields[name]) by {
        if object < store.instances.len() {
            assert(after.instances[object] == store.instances[object]);
        }
    }
    lemma_store_valid_grown(store, after);
}

/// A valid value in a field keeps the store valid.
pub proof fn lemma_field_valid(store: StoreView, at: usize, name: Seq<char>, value: Value)
    requires
        store_valid(store),
        valid(store, value),
    ensures
        store_valid(with_field(store, at, name, value)),
        extends(store, with_field(store, at, name, value)),
{
    lemma_store_valid_grown(store, with_field(store, at, name, value));
}

/// Valid arguments bound to parameters keep the store valid.
pub proof fn lemma_parameters_valid(
    store: StoreView,
    frame: usize,
    parameters: Seq<Token>,
    arguments: Seq<Value>,
    from: int,
)
    requires
        0 <= from,
        store_valid(store),
        all_valid(store, arguments),
    ensures
        store_valid(bind_parameters(store, frame, parameters, arguments, from)),
        extends(store, bind_parameters(store, frame, parameters, arguments, from)),
    decreases parameters.len() - from,
{
    if from < parameters.len() && from < arguments.len() {
        let next = with_binding(store, frame, parameters[from].lexeme@, Some(arguments[from]));
        lemma_binding_valid(store, frame, parameters[from].lexeme@, Some(arguments[from]));
        lemma_all_valid_extends(store, next, arguments);
        lemma_parameters_valid(next, frame, parameters, arguments, from + 1);
        let done = bind_parameters(store, frame, parameters, arguments, from);
        assert(done == bind_parameters(next, frame, parameters, arguments, from + 1));
        assert forall|at: int, name: Seq<char>|
            0 <= at < store.environments.len() && store.environments[at].values.contains_key(
                name,
            ) implies #[trigger] done.environments[at].values.contains_key(name) by {
            assert(next.environments[at].values.contains_key(name));
        }
    }
}

/// Binding a method to an object of the store keeps the store valid, and
/// the closure of the bound function binds `this`.
pub proof fn lemma_bind_method_valid(store: StoreView, method: LoxFunction, instance: usize)
    requires
        store_valid(store),
        instance < store.instances.len(),
        method.closure < store.environments.len(),
        store.environments.len() < usize::MAX,
        store.functions.len() < usize::MAX,
    ensures
        store_valid(bind_method(store, method, instance).0),
        extends(store, bind_method(store, method, instance).0),
        bind_method(store, method, instance).1 == store.functions.len(),
        bind_method(store, method, instance).1 < bind_method(
            store,
            method,
            instance,
        ).0.functions.len(),
        binds_this(
            bind_method(store, method, instance).0,
            bind_method(store, method, instance).0.functions[bind_method(
                store,
                method,
                instance,
            ).1 as int].closure,
        ),
{
    let frame = store.environments.len() as usize;
    let framed = with_frame(store, Some(method.closure));
    lemma_frame_valid(store, Some(method.closure));
    let bound = with_binding(framed, frame, "this"@, Some(Value::Instance(instance)));
    lemma_binding_valid(framed, frame, "this"@, Some(Value::Instance(instance)));
    let function = LoxFunction {
        declaration: method.declaration,
        closure: frame,
        is_initializer: method.is_initializer,
    };
    lemma_function_valid(bound, function);
    let after = with_function(bound, function);
    assert(after == bind_method(store, method, instance).0);
    assert forall|at: int, name: Seq<char>|
        0 <= at < store.environments.len() && store.environments[at].values.contains_key(
            name,
        ) implies #[trigger] after.environments[at].values.contains_key(name) by {
        assert(framed.environments[at].values.contains_key(name));
        assert(bound.environments[at].values.contains_key(name));
    }
}

/// What is read from a valid store is valid.
pub proof fn lemma_read_valid(store: StoreView, from: usize, distance: nat, name: Seq<char>)
    requires
        store_valid(store),
        get_at(store.environments, from, distance, name) is Some,
    ensures
        valid(store, get_at(store.environments, from, distance, name)->0),
{
    let at = ancestor(store.environments, from, distance)->0;
    lemma_ancestor_exists(store, from, distance);
    assert(store.environments[at as int].values.contains_key(name));
}

/// A frame that is found exists.
pub proof fn lemma_ancestor_exists(store: StoreView, from: usize, distance: nat)
    ensures
        ancestor(store.environments, from, distance) is Some ==> ancestor(
            store.environments,
            from,
            distance,
        )->0 < store.environments.len(),
    decreases distance,
{
    if from < store.environments.len() && distance > 0 {
        if let Some(outer) = store.environments[from as int].enclosing {
            lemma_ancestor_exists(store, outer, (distance - 1) as nat);
        }
    }
}

/// What is read from the globals of a valid store is valid.
pub proof fn lemma_get_valid<'a>(store: StoreView, from: usize, name: Token<'a>)
    requires
        store_valid(store),
        get(store.environments, from, name) is Ok,
    ensures
        valid(store, get(store.environments, from, name)->Ok_0),
{
    super::environment::lemma_found_frame_binds(store.environments, from, name.lexeme@);
}

} // verus!
