//! A table from names to values, for scopes, environments, fields and
//! methods.

use vstd::prelude::*;
use crate::text::str_eq;

verus! {

/// The value that the last entry named `name` holds, if there is one.
pub open spec fn lookup<V>(entries: Seq<(&str, V)>, name: Seq<char>) -> Option<V>
    decreases entries.len(),
{
    if entries.len() == 0 {
        None
    } else if entries.last().0@ == name {
        Some(entries.last().1)
    } else {
        lookup(entries.drop_last(), name)
    }
}

/// Replacing the value of the entry that `lookup` finds for a name changes
/// what that name holds and nothing else.
proof fn lemma_lookup_update<V>(entries: Seq<(&str, V)>, at: int, name: &str, value: V, key: Seq<char>)
    requires
        0 <= at < entries.len(),
        entries[at].0@ == name@,
        forall|j: int| at < j < entries.len() ==> (#[trigger] entries[j]).0@ != name@,
    ensures
        lookup(entries.update(at, (name, value)), key) == if key == name@ {
            Some(value)
        } else {
            lookup(entries, key)
        },
    decreases entries.len(),
{
    let updated = entries.update(at, (name, value));
    if at == entries.len() - 1 {
        assert(updated.drop_last() =~= entries.drop_last());
    } else {
        assert(updated.drop_last() =~= entries.drop_last().update(at, (name, value)));
        assert(updated.last() == entries.last());
        lemma_lookup_update(entries.drop_last(), at, name, value, key);
    }
}

/// A name that no entry holds has no value.
proof fn lemma_lookup_absent<V>(entries: Seq<(&str, V)>, key: Seq<char>)
    requires
        forall|j: int| 0 <= j < entries.len() ==> (#[trigger] entries[j]).0@ != key,
    ensures
        lookup(entries, key) is None,
    decreases entries.len(),
{
    if entries.len() > 0 {
        lemma_lookup_absent(entries.drop_last(), key);
    }
}

/// The last entry that holds a name gives its value.
proof fn lemma_lookup_found<V>(entries: Seq<(&str, V)>, at: int, key: Seq<char>)
    requires
        0 <= at < entries.len(),
        entries[at].0@ == key,
        forall|j: int| at < j < entries.len() ==> (#[trigger] entries[j]).0@ != key,
    ensures
        lookup(entries, key) == Some(entries[at].1),
    decreases entries.len(),
{
    if at < entries.len() - 1 {
        lemma_lookup_found(entries.drop_last(), at, key);
    }
}

/// A finite map from names to values. It is kept as a list of entries whose
/// names are compared by their text, so that what a name holds is proved: of
/// a hash map keyed by strings nothing is known to verified code.
pub struct NameTable<'a, V> {
    entries: Vec<(&'a str, V)>,
}

impl<'a, V> View for NameTable<'a, V> {
    type V = Map<Seq<char>, V>;

    closed spec fn view(&self) -> Map<Seq<char>, V> {
        Map::new(
            |name: Seq<char>| lookup(self.entries@, name) is Some,
            |name: Seq<char>| lookup(self.entries@, name)->0,
        )
    }
}

impl<'a, V> NameTable<'a, V> {
    /// The empty table.
    pub fn new() -> (table: Self)
        ensures
            table@ == Map::<Seq<char>, V>::empty(),
    {
        let table = NameTable { entries: Vec::new() };
        assert(table@ =~= Map::<Seq<char>, V>::empty());
        table
    }

    /// The place of the last entry named `name`.
    fn position(&self, name: &str) -> (at: Option<usize>)
        ensures
            match at {
                Some(i) => {
                    &&& i < self.entries@.len()
                    &&& self.entries@[i as int].0@ == name@
                    &&& forall|j: int|
                        i < j < self.entries@.len() ==> (#[trigger] self.entries@[j]).0@ != name@
                    &&& lookup(self.entries@, name@) == Some(self.entries@[i as int].1)
                },
                None => lookup(self.entries@, name@) is None,
            },
    {
        let mut i: usize = self.entries.len();
        while i > 0
            invariant
                i <= self.entries@.len(),
                forall|j: int|
                    i <= j < self.entries@.len() ==> (#[trigger] self.entries@[j]).0@ != name@,
            decreases i,
        {
            i -= 1;
            if str_eq(self.entries[i].0, name) {
                proof {
                    lemma_lookup_found(self.entries@, i as int, name@);
                }
                return Some(i);
            }
        }
        proof {
            lemma_lookup_absent(self.entries@, name@);
        }
        None
    }

    /// Whether the table holds `name`.
    pub fn contains_key(&self, name: &str) -> (found: bool)
        ensures
            found == self@.contains_key(name@),
    {
        self.position(name).is_some()
    }

    /// The value that `name` holds.
    pub fn get(&self, name: &str) -> (value: Option<&V>)
        ensures
            match value {
                Some(v) => self@.contains_key(name@) && *v == self@[name@],
                None => !self@.contains_key(name@),
            },
    {
        match self.position(name) {
            Some(i) => Some(&self.entries[i].1),
            None => None,
        }
    }

    /// Binds `name` to `value`, in place of what it held before.
    pub fn insert(&mut self, name: &'a str, value: V)
        ensures
            final(self)@ == old(self)@.insert(name@, value),
    {
        let ghost before = self.entries@;
        match self.position(name) {
            Some(i) => {
                self.entries.set(i, (name, value));
                proof {
                    assert forall|key: Seq<char>|
                        lookup(self.entries@, key) == if key == name@ {
                            Some(value)
                        } else {
                            lookup(before, key)
                        } by {
                        lemma_lookup_update(before, i as int, name, value, key);
                    }
                }
            },
            None => {
                self.entries.push((name, value));
                assert(self.entries@.drop_last() =~= before);
            },
        }
        assert(self@ =~= old(self)@.insert(name@, value));
    }
}

} // verus!
