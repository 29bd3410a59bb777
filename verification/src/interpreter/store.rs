//! The store: every string, frame, function, class and object of a running
//! program, each known by its place.

use vstd::prelude::*;
use vstd::string::*;
use crate::lex::Token;
use super::callable::{Callable, LoxFunction};
use super::class::{find_method, ClassView, InstanceView, LoxClass, LoxInstance};
use super::environment::{assign, assign_at, bind, get, get_at, EnvironmentView, Environments};
use super::error::{ClassError, RuntimeError};
use super::value::Value;

verus! {

/// The mathematical view of the store.
pub struct StoreView<'a> {
    pub strings: Seq<Seq<char>>,
    pub environments: Seq<EnvironmentView>,
    pub functions: Seq<LoxFunction<'a>>,
    pub classes: Seq<ClassView<'a>>,
    pub instances: Seq<InstanceView>,
}

/// The store.
pub struct Store<'a> {
    strings: Vec<String>,
    environments: Environments<'a>,
    functions: Vec<LoxFunction<'a>>,
    classes: Vec<LoxClass<'a>>,
    instances: Vec<LoxInstance<'a>>,
}

pub open spec fn texts_view(strings: Seq<String>) -> Seq<Seq<char>> {
    Seq::new(strings.len(), |i: int| strings[i]@)
}

pub open spec fn classes_view<'a>(classes: Seq<LoxClass<'a>>) -> Seq<ClassView<'a>> {
    Seq::new(classes.len(), |i: int| classes[i]@)
}

pub open spec fn instances_view(instances: Seq<LoxInstance>) -> Seq<InstanceView> {
    Seq::new(instances.len(), |i: int| instances[i]@)
}

impl<'a> View for Store<'a> {
    type V = StoreView<'a>;

    closed spec fn view(&self) -> StoreView<'a> {
        StoreView {
            strings: texts_view(self.strings@),
            environments: self.environments@,
            functions: self.functions@,
            classes: classes_view(self.classes@),
            instances: instances_view(self.instances@),
        }
    }
}

/// The store with one more string.
pub open spec fn with_string<'a>(store: StoreView<'a>, text: Seq<char>) -> StoreView<'a> {
    StoreView { strings: store.strings.push(text), ..store }
}

/// The store with one more function.
pub open spec fn with_function<'a>(store: StoreView<'a>, function: LoxFunction<'a>) -> StoreView<
    'a,
> {
    StoreView { functions: store.functions.push(function), ..store }
}

/// The store with one more frame, empty, inside the frame `enclosing`.
pub open spec fn with_frame<'a>(store: StoreView<'a>, enclosing: Option<usize>) -> StoreView<'a> {
    StoreView {
        environments: store.environments.push(
            EnvironmentView { values: Map::empty(), enclosing },
        ),
        ..store
    }
}

/// The store with `name` bound to `value` in the frame `at`.
pub open spec fn with_binding<'a>(
    store: StoreView<'a>,
    at: usize,
    name: Seq<char>,
    value: Option<Value>,
) -> StoreView<'a> {
    StoreView { environments: bind(store.environments, at, name, value), ..store }
}

/// The store with one more object of the class `class`, without fields.
pub open spec fn with_instance<'a>(store: StoreView<'a>, class: usize) -> StoreView<'a> {
    StoreView {
        instances: store.instances.push(InstanceView { class, fields: Map::empty() }),
        ..store
    }
}

/// The store with one more class.
pub open spec fn with_class<'a>(store: StoreView<'a>, class: ClassView<'a>) -> StoreView<'a> {
    StoreView { classes: store.classes.push(class), ..store }
}

/// The store with the field `name` of the object `at` set to `value`.
pub open spec fn with_field<'a>(
    store: StoreView<'a>,
    at: usize,
    name: Seq<char>,
    value: Value,
) -> StoreView<'a> {
    if at < store.instances.len() {
        StoreView {
            instances: store.instances.update(
                at as int,
                InstanceView {
                    class: store.instances[at as int].class,
                    fields: store.instances[at as int].fields.insert(name, value),
                },
            ),
            ..store
        }
    } else {
        store
    }
}

/// Binding a method to an object: a new frame inside the method's closure
/// binds `this` to the object, and a new function has that frame as its
/// closure. Gives the store after it and the place of the new function.
pub open spec fn bind_method<'a>(
    store: StoreView<'a>,
    method: LoxFunction<'a>,
    instance: usize,
) -> (StoreView<'a>, usize) {
    let frame = store.environments.len() as usize;
    let framed = with_binding(
        with_frame(store, Some(method.closure)),
        frame,
        "this"@,
        Some(Value::Instance(instance)),
    );
    (
        with_function(
            framed,
            LoxFunction {
                declaration: method.declaration,
                closure: frame,
                is_initializer: method.is_initializer,
            },
        ),
        store.functions.len() as usize,
    )
}

/// Reading the property `name` of the object `instance`: a field of that
/// name, else the method of that name bound to the object, else an error.
pub open spec fn get_property<'a>(store: StoreView<'a>, instance: usize, name: Token<'a>) -> (
    StoreView<'a>,
    Result<Value, RuntimeError<'a>>,
) {
    if instance >= store.instances.len() {
        (store, Err(RuntimeError::EnvironmentCreationError))
    } else if store.instances[instance as int].fields.contains_key(name.lexeme@) {
        (store, Ok(store.instances[instance as int].fields[name.lexeme@]))
    } else {
        match find_method(store.classes, store.instances[instance as int].class, name.lexeme@) {
            Some(method) => {
                let (bound, function) = bind_method(store, method, instance);
                (bound, Ok(Value::Callable(Callable::Function(function))))
            },
            None => (
                store,
                Err(RuntimeError::ClassError(ClassError::UndefinedProperty { token: name })),
            ),
        }
    }
}

/// The number of arguments that a call of `callable` takes: for a class,
/// that of its initializer, and none where it has no initializer.
pub open spec fn arity(store: StoreView, callable: Callable) -> Option<usize> {
    match callable {
        Callable::Native(clock) => Some(clock.arity_spec()),
        Callable::Function(at) => if at < store.functions.len() {
            Some(store.functions[at as int].declaration.params@.len() as usize)
        } else {
            None
        },
        Callable::Class(at) => if at < store.classes.len() {
            match find_method(store.classes, at, "init"@) {
                Some(initializer) => Some(initializer.declaration.params@.len() as usize),
                None => Some(0),
            }
        } else {
            None
        },
    }
}

/// How a value that is no number prints; a number is printed by the host.
pub open spec fn text_of(store: StoreView, value: Value) -> Option<Seq<char>> {
    match value {
        Value::Number(_) => None,
        Value::String(at) => if at < store.strings.len() {
            Some(store.strings[at as int])
        } else {
            None
        },
        Value::Boolean(b) => Some(
            if b {
                "true"@
            } else {
                "false"@
            },
        ),
        Value::Nil => Some("nil"@),
        Value::Callable(Callable::Native(_)) => Some("<native fun: clock>"@),
        Value::Callable(Callable::Function(at)) => if at < store.functions.len() {
            Some("<fn "@ + store.functions[at as int].declaration.name.lexeme@ + ">"@)
        } else {
            None
        },
        Value::Callable(Callable::Class(at)) => if at < store.classes.len() {
            Some(store.classes[at as int].name)
        } else {
            None
        },
        Value::Instance(at) => if at < store.instances.len() && store.instances[at as int].class
            < store.classes.len() {
            Some(store.classes[store.instances[at as int].class as int].name + " instance"@)
        } else {
            None
        },
    }
}

impl<'a> Store<'a> {
    /// The empty store.
    pub fn new() -> (store: Self)
        ensures
            store@ == (StoreView {
                strings: Seq::empty(),
                environments: Seq::empty(),
                functions: Seq::empty(),
                classes: Seq::empty(),
                instances: Seq::empty(),
            }),
    {
        let store = Self {
            strings: Vec::new(),
            environments: Environments::new(),
            functions: Vec::new(),
            classes: Vec::new(),
            instances: Vec::new(),
        };
        assert(texts_view(store.strings@) =~= Seq::empty());
        assert(classes_view(store.classes@) =~= Seq::empty());
        assert(instances_view(store.instances@) =~= Seq::empty());
        store
    }

    /// Adds a string and gives its place.
    pub fn add_string(&mut self, text: String) -> (at: usize)
        ensures
            at == old(self)@.strings.len(),
            final(self)@ == with_string(old(self)@, text@),
    {
        let at = self.strings.len();
        self.strings.push(text);
        assert(texts_view(self.strings@) =~= texts_view(old(self).strings@).push(text@));
        at
    }

    /// The string at the place `at`.
    pub fn string(&self, at: usize) -> (text: Option<&String>)
        ensures
            match text {
                Some(text) => at < self@.strings.len() && text@ == self@.strings[at as int],
                None => at >= self@.strings.len(),
            },
    {
        if at < self.strings.len() {
            Some(&self.strings[at])
        } else {
            None
        }
    }

    /// Adds a function and gives its place.
    pub fn add_function(&mut self, function: LoxFunction<'a>) -> (at: usize)
        ensures
            at == old(self)@.functions.len(),
            final(self)@ == with_function(old(self)@, function),
    {
        let at = self.functions.len();
        self.functions.push(function);
        at
    }

    /// The function at the place `at`.
    pub fn function(&self, at: usize) -> (function: Option<LoxFunction<'a>>)
        ensures
            function == if at < self@.functions.len() {
                Some(self@.functions[at as int])
            } else {
                None
            },
    {
        if at < self.functions.len() {
            Some(self.functions[at])
        } else {
            None
        }
    }

    /// Adds an empty frame inside the frame `enclosing` and gives its place.
    /// Any link is taken, but reading and assigning follow a link to an older
    /// frame only: a valid store stays valid where `enclosing` is a frame of
    /// the store.
    pub fn add_frame(&mut self, enclosing: Option<usize>) -> (at: usize)
        ensures
            at == old(self)@.environments.len(),
            final(self)@ == with_frame(old(self)@, enclosing),
            super::steadiness::store_valid(old(self)@) && (enclosing is Some ==> enclosing->0 < old(self)@.environments.len()) ==> super::steadiness::store_valid(final(self)@),
    {
        proof {
            if super::steadiness::store_valid(self@) && (enclosing is Some ==> enclosing->0
                < self@.environments.len()) {
                super::steadiness::lemma_frame_valid(self@, enclosing);
            }
        }
        self.environments.create(enclosing)
    }

    /// Binds `name` in the frame `at`.
    pub fn define(&mut self, at: usize, name: &'a str, value: Option<Value>) -> (done: bool)
        ensures
            done == (at < old(self)@.environments.len()),
            final(self)@ == with_binding(old(self)@, at, name@, value),
    {
        self.environments.define(at, name, value)
    }

    /// Adds a class and gives its place. Any superclass is taken, but the
    /// search for a method follows a link to an older class only: a valid
    /// store stays valid where the superclass is a class of the store and the
    /// methods close over frames of the store.
    pub fn add_class(&mut self, class: LoxClass<'a>) -> (at: usize)
        ensures
            at == old(self)@.classes.len(),
            final(self)@ == with_class(old(self)@, class@),
            ({
                &&& super::steadiness::store_valid(old(self)@)
                &&& class@.superclass is Some ==> class@.superclass->0 < old(self)@.classes.len()
                &&& forall|name: Seq<char>| #[trigger]
                    class@.methods.contains_key(name) ==> class@.methods[name].closure < old(self)@.environments.len()
            }) ==> super::steadiness::store_valid(final(self)@),
    {
        proof {
            if super::steadiness::store_valid(self@) && (class@.superclass is Some
                ==> class@.superclass->0 < self@.classes.len()) && (forall|name: Seq<char>| #[trigger]
                class@.methods.contains_key(name) ==> class@.methods[name].closure
                    < self@.environments.len()) {
                super::steadiness::lemma_class_valid(self@, class@);
            }
        }
        let at = self.classes.len();
        self.classes.push(class);
        assert(classes_view(self.classes@) =~= classes_view(old(self).classes@).push(class@));
        at
    }

    /// Adds an object of the class `class` and gives its place.
    pub fn add_instance(&mut self, class: usize) -> (at: usize)
        ensures
            at == old(self)@.instances.len(),
            final(self)@ == with_instance(old(self)@, class),
    {
        let at = self.instances.len();
        self.instances.push(LoxInstance::new(class));
        assert(instances_view(self.instances@) =~= instances_view(old(self).instances@).push(
            InstanceView { class, fields: Map::empty() },
        ));
        at
    }

    /// The method named `name` of the class `class` or of the nearest class
    /// above it.
    pub fn find_method(&self, class: usize, name: &str) -> (method: Option<LoxFunction<'a>>)
        ensures
            method == find_method(self@.classes, class, name@),
    {
        let mut current = class;
        loop
            invariant
                find_method(self@.classes, current, name@) == find_method(
                    self@.classes,
                    class,
                    name@,
                ),
            decreases current,
        {
            if current >= self.classes.len() {
                return None;
            }
            if let Some(method) = self.classes[current].find_method(name) {
                return Some(method);
            }
            match self.classes[current].superclass() {
                Some(parent) => {
                    if parent < current {
                        current = parent;
                    } else {
                        return None;
                    }
                },
                None => {
                    return None;
                },
            }
        }
    }

    /// Binds `method` to the object `instance` and gives the place of the
    /// bound function.
    pub fn bind_method(&mut self, method: LoxFunction<'a>, instance: usize) -> (at: usize)
        ensures
            (final(self)@, at) == bind_method(old(self)@, method, instance),
    {
        let frame = self.add_frame(Some(method.closure));
        self.define(frame, "this", Some(Value::Instance(instance)));
        self.add_function(method.bind(frame))
    }

    /// Reads the property that `name` names of the object `instance`.
    pub fn get_property(&mut self, instance: usize, name: Token<'a>) -> (value: Result<
        Value,
        RuntimeError<'a>,
    >)
        ensures
            (final(self)@, value) == get_property(old(self)@, instance, name),
    {
        if instance >= self.instances.len() {
            return Err(RuntimeError::EnvironmentCreationError);
        }
        if let Some(value) = self.instances[instance].get(name.lexeme) {
            return Ok(value);
        }
        let class = self.instances[instance].class();
        match self.find_method(class, name.lexeme) {
            Some(method) => {
                let function = self.bind_method(method, instance);
                Ok(Value::Callable(Callable::Function(function)))
            },
            None => Err(RuntimeError::ClassError(ClassError::UndefinedProperty { token: name })),
        }
    }

    /// Sets the field that `name` names of the object `instance`; `false`
    /// where there is no such object.
    pub fn set_field(&mut self, instance: usize, name: Token<'a>, value: Value) -> (done: bool)
        ensures
            done == (instance < old(self)@.instances.len()),
            final(self)@ == with_field(old(self)@, instance, name.lexeme@, value),
    {
        if instance >= self.instances.len() {
            return false;
        }
        self.instances[instance].set(name, value);
        assert(instances_view(self.instances@) =~= instances_view(old(self).instances@).update(
            instance as int,
            InstanceView {
                class: old(self)@.instances[instance as int].class,
                fields: old(self)@.instances[instance as int].fields.insert(name.lexeme@, value),
            },
        ));
        true
    }

    /// The number of arguments that a call of `callable` takes.
    pub fn arity(&self, callable: Callable) -> (count: Option<usize>)
        ensures
            count == arity(self@, callable),
    {
        match callable {
            Callable::Native(clock) => Some(clock.arity()),
            Callable::Function(at) => match self.function(at) {
                Some(function) => Some(function.arity()),
                None => None,
            },
            Callable::Class(at) => {
                if at >= self.classes.len() {
                    return None;
                }
                match self.find_method(at, "init") {
                    Some(initializer) => Some(initializer.arity()),
                    None => Some(0),
                }
            },
        }
    }

    /// How a value that is no number prints; `None` for a number, which the
    /// host prints, and for a value that names nothing in the store.
    pub fn text_of(&self, value: Value) -> (text: Option<String>)
        ensures
            match text {
                Some(text) => text_of(self@, value) == Some(text@),
                None => text_of(self@, value) is None,
            },
    {
        match value {
            Value::Number(_) => None,
            Value::String(at) => match self.string(at) {
                Some(text) => Some(text.clone()),
                None => None,
            },
            Value::Boolean(b) => Some(
                String::from_str(
                    if b {
                        "true"
                    } else {
                        "false"
                    },
                ),
            ),
            Value::Nil => Some(String::from_str("nil")),
            Value::Callable(Callable::Native(clock)) => Some(clock.to_string()),
            Value::Callable(Callable::Function(at)) => match self.function(at) {
                Some(function) => {
                    let mut text = String::from_str("<fn ");
                    text.append(function.declaration.name.lexeme);
                    text.append(">");
                    Some(text)
                },
                None => None,
            },
            Value::Callable(Callable::Class(at)) => {
                if at < self.classes.len() {
                    Some(String::from_str(self.classes[at].name()))
                } else {
                    None
                }
            },
            Value::Instance(at) => {
                if at < self.instances.len() && self.instances[at].class() < self.classes.len() {
                    let mut text = String::from_str(
                        self.classes[self.instances[at].class()].name(),
                    );
                    text.append(" instance");
                    Some(text)
                } else {
                    None
                }
            },
        }
    }

    /// The number of objects.
    pub fn instances(&self) -> (count: usize)
        ensures
            count == self@.instances.len(),
    {
        self.instances.len()
    }

    /// Reads `name` from the frame `from`, walking outwards.
    pub fn get(&self, from: usize, name: Token<'a>) -> (value: Result<Value, RuntimeError<'a>>)
        ensures
            value == get(self@.environments, from, name),
    {
        self.environments.get(from, name)
    }

    /// Assigns `value` to the innermost binding of `name` from the frame
    /// `from` outwards.
    pub fn assign(&mut self, from: usize, name: Token<'a>, value: Value) -> (done: Result<
        (),
        RuntimeError<'a>,
    >)
        ensures
            match assign(old(self)@.environments, from, name, value) {
                Ok(frames) => done is Ok && final(self)@ == (StoreView {
                    environments: frames,
                    ..old(self)@
                }),
                Err(error) => done == Err::<(), RuntimeError<'a>>(error) && final(self)@ == old(self)@,
            },
    {
        self.environments.assign(from, name, value)
    }

    /// Reads `name` exactly `distance` links out from the frame `from`.
    pub fn get_at(&self, from: usize, distance: usize, name: &str) -> (value: Option<Value>)
        ensures
            value == get_at(self@.environments, from, distance as nat, name@),
    {
        self.environments.get_at(from, distance, name)
    }

    /// Binds `name` to `value` exactly `distance` links out from the frame
    /// `from`; `false` where there is no such frame.
    pub fn assign_at(&mut self, from: usize, distance: usize, name: Token<'a>, value: Value) -> (done:
        bool)
        ensures
            match assign_at(old(self)@.environments, from, distance as nat, name.lexeme@, value) {
                Some(frames) => done && final(self)@ == (StoreView {
                    environments: frames,
                    ..old(self)@
                }),
                None => !done && final(self)@ == old(self)@,
            },
    {
        self.environments.assign_at(from, distance, name, value)
    }

    /// Adds the string made of the strings at `left` and `right`, in this
    /// order, and gives its place; `None` where one of them does not exist.
    pub fn concat(&mut self, left: usize, right: usize) -> (at: Option<usize>)
        ensures
            match at {
                Some(at) => {
                    &&& left < old(self)@.strings.len()
                    &&& right < old(self)@.strings.len()
                    &&& at == old(self)@.strings.len()
                    &&& final(self)@ == with_string(
                        old(self)@,
                        old(self)@.strings[left as int] + old(self)@.strings[right as int],
                    )
                },
                None => {
                    &&& !(left < old(self)@.strings.len() && right < old(self)@.strings.len())
                    &&& final(self)@ == old(self)@
                },
            },
    {
        if left >= self.strings.len() || right >= self.strings.len() {
            return None;
        }
        let mut text = self.strings[left].clone();
        text.append(self.strings[right].as_str());
        Some(self.add_string(text))
    }

    /// Whether the strings at `left` and `right` exist and hold the same
    /// text.
    pub fn same_text(&self, left: usize, right: usize) -> (same: bool)
        ensures
            same == (left < self@.strings.len() && right < self@.strings.len()
                && self@.strings[left as int] == self@.strings[right as int]),
    {
        if left >= self.strings.len() || right >= self.strings.len() {
            return false;
        }
        self.strings[left] == self.strings[right]
    }

    /// The numbers of frames, functions and classes of a store are numbers
    /// of the machine.
    pub proof fn lemma_sizes(&self)
        ensures
            self@.strings.len() <= usize::MAX,
            self@.environments.len() <= usize::MAX,
            self@.functions.len() <= usize::MAX,
            self@.classes.len() <= usize::MAX,
            self@.instances.len() <= usize::MAX,
    {
        vstd::std_specs::vec::axiom_spec_len(&self.strings);
        vstd::std_specs::vec::axiom_spec_len(&self.functions);
        vstd::std_specs::vec::axiom_spec_len(&self.classes);
        vstd::std_specs::vec::axiom_spec_len(&self.instances);
        self.environments.lemma_size();
    }
}

} // verus!
