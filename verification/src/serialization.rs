//! Snapshots of the live entities: ids, archetype names and attribute
//! values by name.

use vstd::prelude::*;
use crate::interning::str_eq;
use crate::world::{lemma_lookup_named_at, lemma_lookup_named_none, lemma_lookup_named_push, lemma_lookup_named_update, lookup_named};

verus! {

/// One live entity: its id, archetype and attribute values by name.
pub struct EntitySnapshot {
    pub id: u32,
    pub generation: u32,
    pub archetype_name: String,
    pub attributes: Vec<(String, u64)>,
}

/// The attributes as names and values.
pub open spec fn attrs_view(a: Seq<(String, u64)>) -> Seq<(Seq<char>, u64)> {
    a.map_values(|p: (String, u64)| (p.0@, p.1))
}

/// An entity snapshot as (id, generation, archetype name, attributes).
pub open spec fn entity_view(e: EntitySnapshot) -> (u32, u32, Seq<char>, Seq<(Seq<char>, u64)>) {
    (e.id, e.generation, e.archetype_name@, attrs_view(e.attributes@))
}

/// Entity snapshots as (id, generation, archetype name, attributes).
pub open spec fn entities_view(s: Seq<EntitySnapshot>) -> Seq<(u32, u32, Seq<char>, Seq<(Seq<char>, u64)>)> {
    s.map_values(|e: EntitySnapshot| entity_view(e))
}

impl EntitySnapshot {
    pub fn new(id: u32, generation: u32, archetype_name: String) -> (e: Self)
        ensures
            entity_view(e) == (id, generation, archetype_name@, Seq::<(Seq<char>, u64)>::empty()),
    {
        let e = EntitySnapshot { id, generation, archetype_name, attributes: Vec::new() };
        proof {
            assert(attrs_view(e.attributes@) =~= Seq::<(Seq<char>, u64)>::empty());
        }
        e
    }

    /// Sets attribute `name` to `value`: a new name is appended, a known
    /// one keeps its place and takes the new value.
    pub fn add_attribute(&mut self, name: String, value: u64)
        ensures
            final(self).id == old(self).id,
            final(self).generation == old(self).generation,
            final(self).archetype_name@ == old(self).archetype_name@,
            lookup_named(attrs_view(old(self).attributes@), name@) is None
                ==> attrs_view(final(self).attributes@) == attrs_view(old(self).attributes@).push((name@, value)),
            forall|n: Seq<char>| #[trigger] lookup_named(attrs_view(final(self).attributes@), n)
                == if n == name@ { Some(value) } else { lookup_named(attrs_view(old(self).attributes@), n) },
    {
        let ghost s = attrs_view(self.attributes@);
        let n = self.attributes.len();
        let mut i: usize = 0;
        while i < n
            invariant
                n == self.attributes@.len(),
                s == attrs_view(self.attributes@),
                *self == *old(self),
                i <= n,
                forall|j: int| 0 <= j < i ==> s[j].0 != name@,
            decreases n - i,
        {
            proof {
                assert(s[i as int] == (self.attributes@[i as int].0@, self.attributes@[i as int].1));
            }
            if str_eq(self.attributes[i].0.as_str(), name.as_str()) {
                let ghost key = s[i as int].0;
                proof {
                    lemma_lookup_named_at(s, i as int, name@);
                }
                self.attributes.set(i, (name, value));
                proof {
                    assert forall|j: int| 0 <= j < n implies #[trigger] attrs_view(self.attributes@)[j] == s.update(i as int, (key, value))[j] by {
                        if j != i {
                            assert(self.attributes@[j] == old(self).attributes@[j]);
                        }
                    }
                    assert(attrs_view(self.attributes@) =~= s.update(i as int, (key, value)));
                    assert forall|m: Seq<char>| #[trigger] lookup_named(attrs_view(self.attributes@), m)
                        == if m == name@ { Some(value) } else { lookup_named(s, m) } by {
                        lemma_lookup_named_update(s, i as int, value, m);
                    }
                }
                return;
            }
            i = i + 1;
        }
        let ghost x = (name@, value);
        self.attributes.push((name, value));
        proof {
            assert forall|j: int| 0 <= j < n + 1 implies #[trigger] attrs_view(self.attributes@)[j] == s.push(x)[j] by {
                if j < n {
                    assert(self.attributes@[j] == old(self).attributes@[j]);
                }
            }
            assert(attrs_view(self.attributes@) =~= s.push(x));
            lemma_lookup_named_none(s, name@);
            assert forall|m: Seq<char>| #[trigger] lookup_named(attrs_view(self.attributes@), m)
                == if m == name@ { Some(value) } else { lookup_named(s, m) } by {
                lemma_lookup_named_push(s, x, m);
            }
        }
    }

    /// Value of attribute `name`.
    pub fn get_attribute(&self, name: &str) -> (r: Option<u64>)
        ensures
            r == lookup_named(attrs_view(self.attributes@), name@),
    {
        let ghost s = attrs_view(self.attributes@);
        let n = self.attributes.len();
        let mut i: usize = 0;
        while i < n
            invariant
                n == self.attributes@.len(),
                s == attrs_view(self.attributes@),
                i <= n,
                forall|j: int| 0 <= j < i ==> s[j].0 != name@,
            decreases n - i,
        {
            proof {
                assert(s[i as int] == (self.attributes@[i as int].0@, self.attributes@[i as int].1));
            }
            if str_eq(self.attributes[i].0.as_str(), name) {
                proof {
                    lemma_lookup_named_at(s, i as int, name@);
                }
                return Some(self.attributes[i].1);
            }
            i = i + 1;
        }
        proof {
            lemma_lookup_named_none(s, name@);
        }
        None
    }
}

/// The live entities of a world, with the layout version they were taken
/// at.
pub struct SchemaSnapshot {
    pub version: u64,
    pub entities: Vec<EntitySnapshot>,
}

impl SchemaSnapshot {
    pub fn new(version: u64) -> (s: Self)
        ensures
            s.version == version,
            s.entities@.len() == 0,
    {
        SchemaSnapshot { version, entities: Vec::new() }
    }

    pub fn add_entity(&mut self, snapshot: EntitySnapshot)
        ensures
            final(self).version == old(self).version,
            final(self).entities@ == old(self).entities@.push(snapshot),
    {
        self.entities.push(snapshot);
    }

    pub fn entity_count(&self) -> (n: usize)
        ensures
            n == self.entities@.len(),
    {
        self.entities.len()
    }
}

} // verus!
