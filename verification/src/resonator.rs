//! Field maps: how a resonator finds the fields of the archetype it runs on.

use vstd::prelude::*;
use std::collections::HashMap;
use crate::interning::{InternedStr, StringInterner};
use crate::storage::FieldIndex;

verus! {

broadcast use vstd::std_specs::hash::group_hash_axioms;

/// Attribute-to-field bindings of one archetype, keyed by attribute id, with
/// the names that the attribute ids stand for.
pub struct FieldMap {
    fields: HashMap<u32, FieldIndex>,
    interner: StringInterner,
}

impl FieldMap {
    pub closed spec fn fields_spec(&self) -> Map<u32, FieldIndex> {
        self.fields@
    }

    pub closed spec fn interner_spec(&self) -> StringInterner {
        self.interner
    }

    /// Field bound to attribute `id`, if any.
    pub open spec fn lookup(&self, id: InternedStr) -> Option<FieldIndex> {
        if self.fields_spec().contains_key(id.0) { Some(self.fields_spec()[id.0]) } else { None }
    }

    pub fn new(fields: HashMap<u32, FieldIndex>, interner: StringInterner) -> (m: Self)
        ensures
            m.fields_spec() == fields@,
            m.interner_spec() == interner,
    {
        FieldMap { fields, interner }
    }

    /// Field index of the attribute named `name`, if the name is interned
    /// and bound here.
    pub fn field_index(&self, name: &str) -> (r: Option<FieldIndex>)
        requires
            self.interner_spec().wf(),
        ensures
            r == match self.interner_spec().find_spec(name@) {
                Some(id) => self.lookup(id),
                None => None,
            },
    {
        let id = match self.interner.find(name) {
            Some(id) => id,
            None => return None,
        };
        match self.fields.get(&id.0) {
            Some(f) => Some(*f),
            None => None,
        }
    }
}

} // verus!
