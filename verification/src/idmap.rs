//! Values that are kept by light.
use vstd::prelude::*;
use crate::id::LightId;

verus! {

/// The value for a light: that of its first entry.
pub open spec fn value_of<V>(entries: Seq<(LightId, V)>, id: Seq<char>) -> Option<V>
    decreases entries.len(),
{
    if entries.len() == 0 {
        None
    } else if entries[0].0@ == id {
        Some(entries[0].1)
    } else {
        value_of(entries.drop_first(), id)
    }
}

proof fn value_at<V>(entries: Seq<(LightId, V)>, i: int)
    requires
        0 <= i < entries.len(),
        forall|j: int| 0 <= j < i ==> (#[trigger] entries[j]).0@ != entries[i].0@,
    ensures
        value_of(entries, entries[i].0@) == Some(entries[i].1),
    decreases entries.len(),
{
    if i > 0 {
        let rest = entries.drop_first();
        assert(entries[0].0@ != entries[i].0@);
        assert forall|j: int| 0 <= j < i - 1 implies (#[trigger] rest[j]).0@
            != rest[i - 1].0@ by {
            assert(rest[j] == entries[j + 1]);
        }
        value_at(rest, i - 1);
    }
}

proof fn no_value<V>(entries: Seq<(LightId, V)>, id: Seq<char>)
    requires
        forall|j: int| 0 <= j < entries.len() ==> (#[trigger] entries[j]).0@ != id,
    ensures
        value_of(entries, id) is None,
    decreases entries.len(),
{
    if entries.len() > 0 {
        let rest = entries.drop_first();
        assert forall|j: int| 0 <= j < rest.len() implies (#[trigger] rest[j]).0@ != id by {
            assert(rest[j] == entries[j + 1]);
        }
        no_value(rest, id);
    }
}

proof fn other_value_kept<V>(
    entries: Seq<(LightId, V)>,
    i: int,
    entry: (LightId, V),
    id: Seq<char>,
)
    requires
        0 <= i < entries.len(),
        entry.0@ == entries[i].0@,
        entry.0@ != id,
    ensures
        value_of(entries.update(i, entry), id) == value_of(entries, id),
    decreases entries.len(),
{
    let after = entries.update(i, entry);
    if i == 0 {
        assert(after.drop_first() =~= entries.drop_first());
    } else {
        assert(after.drop_first() =~= entries.drop_first().update(i - 1, entry));
        other_value_kept(entries.drop_first(), i - 1, entry, id);
    }
}

proof fn value_pushed<V>(entries: Seq<(LightId, V)>, entry: (LightId, V), id: Seq<char>)
    ensures
        value_of(entries.push(entry), id) == match value_of(entries, id) {
            Some(value) => Some(value),
            None => if entry.0@ == id {
                Some(entry.1)
            } else {
                None
            },
        },
    decreases entries.len(),
{
    let after = entries.push(entry);
    if entries.len() == 0 {
        assert(after.drop_first() =~= entries);
    } else {
        assert(after.drop_first() =~= entries.drop_first().push(entry));
        value_pushed(entries.drop_first(), entry, id);
    }
}

/// Values by the identifiers of lights.
#[derive(Debug)]
pub struct IdMap<V> {
    entries: Vec<(LightId, V)>,
}

impl<V> IdMap<V> {
    /// The value for a light, if there is one.
    pub closed spec fn of(self, id: Seq<char>) -> Option<V> {
        value_of(self.entries@, id)
    }

    /// There is no value for any light.
    pub fn new() -> (r: Self)
        ensures
            forall|id: Seq<char>| #[trigger] r.of(id) is None,
    {
        IdMap { entries: Vec::new() }
    }

    /// Returns the value for a light, if there is one.
    pub fn get(&self, id: &LightId) -> (r: Option<&V>)
        ensures
            match r {
                Some(value) => self.of(id@) == Some(*value),
                None => self.of(id@) is None,
            },
    {
        let mut i: usize = 0;
        while i < self.entries.len()
            invariant
                i <= self.entries@.len(),
                forall|j: int| 0 <= j < i ==> (#[trigger] self.entries@[j]).0@ != id@,
            decreases self.entries.len() - i,
        {
            if self.entries[i].0.same(id) {
                proof {
                    value_at(self.entries@, i as int);
                }
                return Some(&self.entries[i].1);
            }
            i += 1;
        }
        proof {
            no_value(self.entries@, id@);
        }
        None
    }

    /// All values with their lights.
    pub fn pairs(&self) -> (r: &Vec<(LightId, V)>)
        ensures
            forall|id: Seq<char>| #[trigger] value_of(r@, id) == self.of(id),
    {
        &self.entries
    }

    /// Sets the value for a light, in place of the one there was.
    pub fn insert(&mut self, id: LightId, value: V)
        ensures
            forall|other: Seq<char>|
                #[trigger] final(self).of(other) == if other == id@ {
                    Some(value)
                } else {
                    old(self).of(other)
                },
    {
        let ghost before = self.entries@;
        let mut i: usize = 0;
        while i < self.entries.len()
            invariant
                i <= self.entries@.len(),
                self.entries@ == before,
                before == old(self).entries@,
                forall|j: int| 0 <= j < i ==> (#[trigger] before[j]).0@ != id@,
            decreases self.entries.len() - i,
        {
            if self.entries[i].0.same(&id) {
                let ghost entry = (id, value);
                self.entries.set(i, (id, value));
                proof {
                    let after = self.entries@;
                    value_at(after, i as int);
                    assert forall|other: Seq<char>| #[trigger] value_of(after, other) == if other
                        == id@ {
                        Some(value)
                    } else {
                        value_of(before, other)
                    } by {
                        if other != id@ {
                            other_value_kept(before, i as int, entry, other);
                        }
                    }
                }
                return;
            }
            i += 1;
        }
        let ghost entry = (id, value);
        proof {
            no_value(before, id@);
        }
        self.entries.push((id, value));
        proof {
            assert forall|other: Seq<char>| #[trigger] value_of(self.entries@, other) == if other
                == id@ {
                Some(value)
            } else {
                value_of(before, other)
            } by {
                value_pushed(before, entry, other);
            }
        }
    }
}

} // verus!
