//! Header fields: names with their values, each name at most once.

use vstd::prelude::*;
use crate::text::{chars_of, text_eq};

verus! {

/// The index of the first entry at or after `from` whose name is `name`; the
/// number of entries where there is none.
pub open spec fn name_index(
    entries: Seq<(Seq<char>, Seq<char>)>,
    name: Seq<char>,
    from: int,
) -> int
    decreases entries.len() - from,
{
    if from < 0 || from >= entries.len() {
        entries.len() as int
    } else if entries[from].0 == name {
        from
    } else {
        name_index(entries, name, from + 1)
    }
}

/// The value that `entries` hold for `name`.
pub open spec fn value_of(entries: Seq<(Seq<char>, Seq<char>)>, name: Seq<char>) -> Option<
    Seq<char>,
> {
    let i = name_index(entries, name, 0);
    if i < entries.len() {
        Some(entries[i].1)
    } else {
        None
    }
}

/// `entries` with `value` for `name`: in the place of the value that `name`
/// had, or as a new last entry.
pub open spec fn put(entries: Seq<(Seq<char>, Seq<char>)>, name: Seq<char>, value: Seq<char>) -> Seq<
    (Seq<char>, Seq<char>),
> {
    let i = name_index(entries, name, 0);
    if i < entries.len() {
        entries.update(i, (name, value))
    } else {
        entries.push((name, value))
    }
}

/// No name occurs twice.
pub open spec fn distinct_names(entries: Seq<(Seq<char>, Seq<char>)>) -> bool {
    forall|i: int, j: int|
        0 <= i < j < entries.len() ==> (#[trigger] entries[i]).0 != (#[trigger] entries[j]).0
}

/// `name_index` yields the first entry with the name.
pub proof fn name_index_is_first(entries: Seq<(Seq<char>, Seq<char>)>, name: Seq<char>, from: int)
    requires
        0 <= from <= entries.len(),
    ensures
        from <= name_index(entries, name, from) <= entries.len(),
        name_index(entries, name, from) < entries.len() ==> entries[name_index(
            entries,
            name,
            from,
        )].0 == name,
        forall|k: int|
            from <= k < name_index(entries, name, from) ==> (#[trigger] entries[k]).0 != name,
    decreases entries.len() - from,
{
    if from < entries.len() && entries[from].0 != name {
        name_index_is_first(entries, name, from + 1);
    }
}

/// Putting a value keeps every name unique, and the value can be read back.
pub proof fn put_keeps_distinct(
    entries: Seq<(Seq<char>, Seq<char>)>,
    name: Seq<char>,
    value: Seq<char>,
)
    requires
        distinct_names(entries),
    ensures
        distinct_names(put(entries, name, value)),
        value_of(put(entries, name, value), name) == Some(value),
{
    name_index_is_first(entries, name, 0);
    let i = name_index(entries, name, 0);
    let after = put(entries, name, value);
    name_index_is_first(after, name, 0);
    let j = name_index(after, name, 0);
    assert(after[i].0 == name);
    if j < i {
        assert(after[j] == entries[j]);
    }
    assert forall|a: int, b: int| 0 <= a < b < after.len() implies (#[trigger] after[a]).0 != (
    #[trigger] after[b]).0 by {
        if i < entries.len() {
            if a != i {
                assert(after[a] == entries[a]);
            }
            if b != i {
                assert(after[b] == entries[b]);
            }
            assert(entries[a].0 != entries[b].0);
        } else {
            assert(after[a] == entries[a]);
            if b < entries.len() {
                assert(after[b] == entries[b]);
            }
        }
    }
}

/// Header fields in the order in which their names were first set.
#[derive(Debug)]
pub struct Headers {
    fields: Vec<(String, String)>,
}

impl Headers {
    #[verifier::type_invariant]
    spec fn names_are_distinct(&self) -> bool {
        distinct_names(self.entries())
    }

    /// The names with their values, in order.
    pub closed spec fn entries(&self) -> Seq<(Seq<char>, Seq<char>)> {
        Seq::new(self.fields@.len(), |i: int| (self.fields@[i].0@, self.fields@[i].1@))
    }

    /// No header fields.
    pub fn new() -> (h: Self)
        ensures
            h.entries() == Seq::<(Seq<char>, Seq<char>)>::empty(),
    {
        let h = Headers { fields: Vec::new() };
        assert(h.entries() =~= Seq::empty());
        h
    }

    /// The number of names.
    pub fn len(&self) -> (n: usize)
        ensures
            n == self.entries().len(),
            distinct_names(self.entries()),
    {
        proof {
            use_type_invariant(self);
        }
        self.fields.len()
    }

    /// The position of `name`, or the number of names where it is not among them.
    fn position(&self, name: &Vec<char>) -> (i: usize)
        ensures
            i == name_index(self.entries(), name@, 0),
            i <= self.fields.len(),
    {
        let mut i: usize = 0;
        while i < self.fields.len()
            invariant
                i <= self.fields.len(),
                name_index(self.entries(), name@, 0) == name_index(self.entries(), name@, i as int),
            decreases self.fields.len() - i,
        {
            if text_eq(self.fields[i].0.as_str(), name) {
                return i;
            }
            i += 1;
        }
        i
    }

    /// The value of `name`.
    pub fn get(&self, name: &str) -> (r: Option<&String>)
        ensures
            match value_of(self.entries(), name@) {
                Some(v) => r is Some && r->0@ == v,
                None => r is None,
            },
    {
        let key = chars_of(name);
        let i = self.position(&key);
        if i < self.fields.len() {
            Some(&self.fields[i].1)
        } else {
            None
        }
    }

    /// Sets the value of `name`, and yields the value that it had.
    pub fn insert(&mut self, name: String, value: String) -> (r: Option<String>)
        ensures
            final(self).entries() == put(old(self).entries(), name@, value@),
            distinct_names(final(self).entries()),
            match value_of(old(self).entries(), name@) {
                Some(v) => r is Some && r->0@ == v,
                None => r is None,
            },
    {
        proof {
            use_type_invariant(&*self);
            put_keeps_distinct(self.entries(), name@, value@);
        }
        let key = chars_of(name.as_str());
        let i = self.position(&key);
        let mut fields: Vec<(String, String)> = Vec::new();
        assert(Seq::new(fields@.len(), |k: int| (fields@[k].0@, fields@[k].1@)) =~= Seq::<
            (Seq<char>, Seq<char>),
        >::empty());
        core::mem::swap(&mut fields, &mut self.fields);
        let previous = if i < fields.len() {
            let mut entry = (name, value);
            fields.set_and_swap(i, &mut entry);
            Some(entry.1)
        } else {
            fields.push((name, value));
            None
        };
        assert(Seq::new(fields@.len(), |k: int| (fields@[k].0@, fields@[k].1@)) =~= put(
            old(self).entries(),
            name@,
            value@,
        ));
        self.fields = fields;
        previous
    }

    /// The name and the value at position `i`; nothing where `i` is no position.
    pub fn entry(&self, i: usize) -> (r: Option<(&String, &String)>)
        ensures
            match r {
                Some(entry) => i < self.entries().len() && (entry.0@, entry.1@)
                    == self.entries()[i as int],
                None => i >= self.entries().len(),
            },
    {
        if i < self.fields.len() {
            Some((&self.fields[i].0, &self.fields[i].1))
        } else {
            None
        }
    }
}

impl Clone for Headers {
    /// The same names with the same values.
    fn clone(&self) -> (r: Self)
        ensures
            r.entries() == self.entries(),
    {
        proof {
            use_type_invariant(self);
        }
        let mut fields: Vec<(String, String)> = Vec::with_capacity(self.fields.len());
        let mut i: usize = 0;
        while i < self.fields.len()
            invariant
                i <= self.fields.len(),
                fields@.len() == i,
                forall|k: int|
                    0 <= k < i ==> (#[trigger] fields@[k]).0@ == self.fields@[k].0@ && fields@[k].1@
                        == self.fields@[k].1@,
            decreases self.fields.len() - i,
        {
            fields.push((self.fields[i].0.clone(), self.fields[i].1.clone()));
            i += 1;
        }
        assert(Seq::new(fields@.len(), |k: int| (fields@[k].0@, fields@[k].1@))
            =~= self.entries());
        Headers { fields }
    }
}

} // verus!
