//! Classes and their instances.

use vstd::prelude::*;
use crate::lex::Token;
use crate::names::NameTable;
use super::callable::LoxFunction;
use super::value::Value;

verus! {

/// A class: its name, the class it inherits from, and its own methods.
pub struct LoxClass<'a> {
    name: &'a str,
    superclass: Option<usize>,
    methods: NameTable<'a, LoxFunction<'a>>,
}

/// The mathematical view of a class.
pub struct ClassView<'a> {
    pub name: Seq<char>,
    pub superclass: Option<usize>,
    pub methods: Map<Seq<char>, LoxFunction<'a>>,
}

impl<'a> View for LoxClass<'a> {
    type V = ClassView<'a>;

    closed spec fn view(&self) -> ClassView<'a> {
        ClassView { name: self.name@, superclass: self.superclass, methods: self.methods@ }
    }
}

impl<'a> LoxClass<'a> {
    /// A class without methods.
    pub fn new(name: &'a str, superclass: Option<usize>) -> (class: Self)
        ensures
            class@ == (ClassView { name: name@, superclass, methods: Map::empty() }),
    {
        Self { name, superclass, methods: NameTable::new() }
    }

    /// The name of the class.
    pub fn name(&self) -> (name: &'a str)
        ensures
            name@ == self@.name,
    {
        self.name
    }

    /// The class that this class inherits from.
    pub fn superclass(&self) -> (superclass: Option<usize>)
        ensures
            superclass == self@.superclass,
    {
        self.superclass
    }

    /// Adds a method, in place of one of the same name.
    pub fn add_method(&mut self, name: &'a str, method: LoxFunction<'a>)
        ensures
            final(self)@ == (ClassView {
                methods: old(self)@.methods.insert(name@, method),
                ..old(self)@
            }),
    {
        self.methods.insert(name, method);
    }

    /// The method of this class named `name`; methods of a superclass are
    /// not searched.
    pub fn find_method(&self, name: &str) -> (method: Option<LoxFunction<'a>>)
        ensures
            method == if self@.methods.contains_key(name@) {
                Some(self@.methods[name@])
            } else {
                None
            },
    {
        match self.methods.get(name) {
            Some(method) => Some(*method),
            None => None,
        }
    }
}

/// The method named `name` of the class `class` or of the nearest class above
/// it. A link to a superclass counts only where it leads to an older class.
pub open spec fn find_method<'a>(classes: Seq<ClassView<'a>>, class: usize, name: Seq<char>) -> Option<
    LoxFunction<'a>,
>
    decreases class,
{
    if class >= classes.len() {
        None
    } else if classes[class as int].methods.contains_key(name) {
        Some(classes[class as int].methods[name])
    } else {
        match classes[class as int].superclass {
            Some(parent) => if parent < class {
                find_method(classes, parent, name)
            } else {
                None
            },
            None => None,
        }
    }
}

/// An object: its class and its fields.
pub struct LoxInstance<'a> {
    class: usize,
    fields: NameTable<'a, Value>,
}

/// The mathematical view of an object.
pub struct InstanceView {
    pub class: usize,
    pub fields: Map<Seq<char>, Value>,
}

impl<'a> View for LoxInstance<'a> {
    type V = InstanceView;

    closed spec fn view(&self) -> InstanceView {
        InstanceView { class: self.class, fields: self.fields@ }
    }
}

impl<'a> LoxInstance<'a> {
    /// An object of the class `class` without fields.
    pub fn new(class: usize) -> (instance: Self)
        ensures
            instance@ == (InstanceView { class, fields: Map::empty() }),
    {
        Self { class, fields: NameTable::new() }
    }

    /// The class of the object.
    pub fn class(&self) -> (class: usize)
        ensures
            class == self@.class,
    {
        self.class
    }

    /// The field named `name`.
    pub fn get(&self, name: &str) -> (value: Option<Value>)
        ensures
            value == if self@.fields.contains_key(name@) {
                Some(self@.fields[name@])
            } else {
                None
            },
    {
        match self.fields.get(name) {
            Some(value) => Some(*value),
            None => None,
        }
    }

    /// Sets the field that `name` names, in place of what it held before.
    pub fn set(&mut self, name: Token<'a>, value: Value)
        ensures
            final(self)@ == (InstanceView {
                class: old(self)@.class,
                fields: old(self)@.fields.insert(name.lexeme@, value),
            }),
    {
        self.fields.insert(name.lexeme, value);
    }
}

} // verus!
