//! Tables from names to what they stand for.

use vstd::prelude::*;

verus! {

/// What a list of entries binds each name to: the first entry with the name.
pub open spec fn bindings<V: View>(entries: Seq<(String, V)>) -> Map<Seq<char>, V::V>
    decreases entries.len(),
{
    if entries.len() == 0 {
        Map::empty()
    } else {
        bindings(entries.drop_first()).insert(entries[0].0@, entries[0].1@)
    }
}

/// A name that no entry has is not bound.
pub proof fn lemma_unbound<V: View>(entries: Seq<(String, V)>, name: Seq<char>)
    requires
        forall|j: int| 0 <= j < entries.len() ==> (#[trigger] entries[j]).0@ != name,
    ensures
        !bindings(entries).dom().contains(name),
    decreases entries.len(),
{
    if entries.len() > 0 {
        let rest = entries.drop_first();
        assert forall|j: int| 0 <= j < rest.len() implies (#[trigger] rest[j]).0@ != name by {
            assert(rest[j] == entries[j + 1]);
        }
        lemma_unbound(rest, name);
    }
}

/// A name is bound to what the first entry with the name holds.
pub proof fn lemma_bound<V: View>(entries: Seq<(String, V)>, name: Seq<char>, at: int)
    requires
        0 <= at < entries.len(),
        entries[at].0@ == name,
        forall|j: int| 0 <= j < at ==> (#[trigger] entries[j]).0@ != name,
    ensures
        bindings(entries).dom().contains(name),
        bindings(entries)[name] == entries[at].1@,
    decreases entries.len(),
{
    if at > 0 {
        let rest = entries.drop_first();
        assert(rest[at - 1] == entries[at]);
        assert forall|j: int| 0 <= j < at - 1 implies (#[trigger] rest[j]).0@ != name by {
            assert(rest[j] == entries[j + 1]);
        }
        lemma_bound(rest, name, at - 1);
        assert(entries[0].0@ != name);
    }
}

/// A new entry for a name at the place of the first entry with that name
/// binds the name anew and nothing else.
pub proof fn lemma_rebound<V: View>(entries: Seq<(String, V)>, entry: (String, V), at: int)
    requires
        0 <= at < entries.len(),
        entries[at].0@ == entry.0@,
        forall|j: int| 0 <= j < at ==> (#[trigger] entries[j]).0@ != entry.0@,
    ensures
        bindings(entries.update(at, entry)) == bindings(entries).insert(entry.0@, entry.1@),
    decreases entries.len(),
{
    let changed = entries.update(at, entry);
    if at == 0 {
        assert(changed.drop_first() =~= entries.drop_first());
        assert(bindings(changed) =~= bindings(entries).insert(entry.0@, entry.1@));
    } else {
        let rest = entries.drop_first();
        assert(rest[at - 1] == entries[at]);
        assert forall|j: int| 0 <= j < at - 1 implies (#[trigger] rest[j]).0@ != entry.0@ by {
            assert(rest[j] == entries[j + 1]);
        }
        lemma_rebound(rest, entry, at - 1);
        assert(changed.drop_first() =~= rest.update(at - 1, entry));
        assert(entries[0].0@ != entry.0@);
        assert(bindings(changed) =~= bindings(entries).insert(entry.0@, entry.1@));
    }
}

/// A new entry behind all others for a name that none of them has binds
/// that name and nothing else.
pub proof fn lemma_appended<V: View>(entries: Seq<(String, V)>, entry: (String, V))
    requires
        forall|j: int| 0 <= j < entries.len() ==> (#[trigger] entries[j]).0@ != entry.0@,
    ensures
        bindings(entries.push(entry)) == bindings(entries).insert(entry.0@, entry.1@),
    decreases entries.len(),
{
    let longer = entries.push(entry);
    if entries.len() == 0 {
        assert(longer.drop_first() =~= entries);
        assert(bindings(longer) =~= bindings(entries).insert(entry.0@, entry.1@));
    } else {
        let rest = entries.drop_first();
        assert forall|j: int| 0 <= j < rest.len() implies (#[trigger] rest[j]).0@ != entry.0@ by {
            assert(rest[j] == entries[j + 1]);
        }
        lemma_appended(rest, entry);
        assert(longer.drop_first() =~= rest.push(entry));
        assert(longer[0] == entries[0]);
        assert(entries[0].0@ != entry.0@);
        assert(bindings(longer) =~= bindings(entries).insert(entry.0@, entry.1@));
    }
}

/// Lists whose entries have the same names and values bind the same.
pub proof fn lemma_same_bindings<V: View>(left: Seq<(String, V)>, right: Seq<(String, V)>)
    requires
        left.len() == right.len(),
        forall|j: int|
            0 <= j < left.len() ==> (#[trigger] left[j]).0@ == right[j].0@ && left[j].1@
                == right[j].1@,
    ensures
        bindings(left) == bindings(right),
    decreases left.len(),
{
    if left.len() > 0 {
        assert forall|j: int| 0 <= j < left.drop_first().len() implies (
        #[trigger] left.drop_first()[j]).0@ == right.drop_first()[j].0@ && left.drop_first()[j].1@
            == right.drop_first()[j].1@ by {
            assert(left.drop_first()[j] == left[j + 1]);
            assert(right.drop_first()[j] == right[j + 1]);
        }
        lemma_same_bindings(left.drop_first(), right.drop_first());
    }
}

/// A table from names to values. A name stands for what was last written
/// under it.
#[derive(Debug)]
pub struct Table<V> {
    pub entries: Vec<(String, V)>,
}

impl<V: View> View for Table<V> {
    type V = Map<Seq<char>, V::V>;

    open spec fn view(&self) -> Map<Seq<char>, V::V> {
        bindings(self.entries@)
    }
}

impl<V: View> Table<V> {
    /// The table that binds no name.
    pub fn new() -> (table: Table<V>)
        ensures
            table@ == Map::<Seq<char>, V::V>::empty(),
    {
        Table { entries: Vec::new() }
    }

    /// The place of the first entry for `name`.
    fn find(&self, name: &String) -> (at: Option<usize>)
        ensures
            match at {
                Some(i) => {
                    &&& i < self.entries@.len()
                    &&& self.entries@[i as int].0@ == name@
                    &&& forall|j: int| 0 <= j < i ==> (#[trigger] self.entries@[j]).0@ != name@
                },
                None => forall|j: int|
                    0 <= j < self.entries@.len() ==> (#[trigger] self.entries@[j]).0@ != name@,
            },
    {
        let mut i: usize = 0;
        while i < self.entries.len()
            invariant
                i <= self.entries@.len(),
                forall|j: int| 0 <= j < i ==> (#[trigger] self.entries@[j]).0@ != name@,
            decreases self.entries@.len() - i,
        {
            if self.entries[i].0 == *name {
                return Some(i);
            }
            i = i + 1;
        }
        None
    }

    /// What `name` stands for, if it stands for anything.
    pub fn get(&self, name: &String) -> (value: Option<&V>)
        ensures
            match value {
                Some(v) => self@.dom().contains(name@) && self@[name@] == v@,
                None => !self@.dom().contains(name@),
            },
    {
        match self.find(name) {
            Some(i) => {
                proof {
                    lemma_bound(self.entries@, name@, i as int);
                }
                Some(&self.entries[i].1)
            },
            None => {
                proof {
                    lemma_unbound(self.entries@, name@);
                }
                None
            },
        }
    }

    /// Lets `name` stand for `value`, and says whether it stood for
    /// something before.
    pub fn insert(&mut self, name: String, value: V) -> (existed: bool)
        ensures
            final(self)@ == old(self)@.insert(name@, value@),
            existed == old(self)@.dom().contains(name@),
    {
        match self.find(&name) {
            Some(i) => {
                proof {
                    lemma_bound(self.entries@, name@, i as int);
                    lemma_rebound(self.entries@, (name, value), i as int);
                }
                self.entries.set(i, (name, value));
                true
            },
            None => {
                proof {
                    lemma_unbound(self.entries@, name@);
                    lemma_appended(self.entries@, (name, value));
                }
                self.entries.push((name, value));
                false
            },
        }
    }
}

/// A copy of a table of values.
pub fn duplicate_values(table: &Table<crate::ast::Value>) -> (copy: Table<crate::ast::Value>)
    ensures
        copy@ == table@,
{
    let mut entries: Vec<(String, crate::ast::Value)> = Vec::new();
    let mut i: usize = 0;
    while i < table.entries.len()
        invariant
            i <= table.entries@.len(),
            entries@.len() == i,
            forall|j: int|
                0 <= j < i ==> (#[trigger] entries@[j]).0@ == table.entries@[j].0@ && entries@[j].1@
                    == table.entries@[j].1@,
        decreases table.entries@.len() - i,
    {
        let entry = &table.entries[i];
        entries.push((entry.0.clone(), entry.1.duplicate()));
        i = i + 1;
    }
    proof {
        lemma_same_bindings(entries@, table.entries@);
    }
    Table { entries }
}

} // verus!
