//! The ordered field names a record type expects.

use vstd::prelude::*;
use crate::bytes::bytes_eq;

verus! {

/// The slot that a field name resolves to in a schema: the index of the
/// first entry equal to `name`, or `None` where no entry is.
pub open spec fn slot_of(schema: Seq<Seq<u8>>, name: Seq<u8>) -> Option<int> {
    schema.index_of_first(name)
}

/// What `slot_of` picks: the least index that holds `name`, and `None`
/// exactly when no index holds it.
pub proof fn lemma_slot_of(schema: Seq<Seq<u8>>, name: Seq<u8>)
    ensures
        match slot_of(schema, name) {
            Some(i) => {
                &&& 0 <= i < schema.len()
                &&& schema[i] == name
                &&& forall|j: int| 0 <= j < i ==> schema[j] != name
            },
            None => forall|j: int| 0 <= j < schema.len() ==> schema[j] != name,
        },
{
    schema.index_of_first_ensures(name);
    if slot_of(schema, name) is None {
        assert forall|j: int| 0 <= j < schema.len() implies schema[j] != name by {
            if schema[j] == name {
                assert(schema.contains(name));
            }
        }
    }
}

/// The byte strings that a list of names holds, in order.
pub open spec fn names_view(names: Vec<Vec<u8>>) -> Seq<Seq<u8>> {
    names@.map_values(|name: Vec<u8>| name@)
}

/// An ordered list of field names, fixed for the lifetime of a parse.
/// Names are compared as raw bytes. Where a name occurs twice, the first
/// occurrence is the one that fields resolve to.
#[derive(Clone, Debug, PartialEq, Eq)]
pub struct Schema {
    names: Vec<Vec<u8>>,
}

impl View for Schema {
    type V = Seq<Seq<u8>>;

    closed spec fn view(&self) -> Seq<Seq<u8>> {
        names_view(self.names)
    }
}

impl Schema {
    /// A schema with the given names, in the given order.
    pub fn new(names: Vec<Vec<u8>>) -> (schema: Schema)
        ensures
            schema@ == names_view(names),
    {
        Schema { names }
    }

    /// Number of fields.
    pub fn len(&self) -> (n: usize)
        ensures
            n == self@.len(),
    {
        self.names.len()
    }

    /// The name of field `i`, or `None` where the schema has no such field.
    pub fn name(&self, i: usize) -> (name: Option<&Vec<u8>>)
        ensures
            match name {
                Some(bytes) => i < self@.len() && bytes@ == self@[i as int],
                None => i >= self@.len(),
            },
    {
        if i < self.names.len() {
            Some(&self.names[i])
        } else {
            None
        }
    }

    /// Resolves a field name to its slot.
    pub fn slot_of(&self, name: &[u8]) -> (slot: Option<usize>)
        ensures
            match slot {
                Some(i) => slot_of(self@, name@) == Some(i as int),
                None => slot_of(self@, name@) is None,
            },
    {
        let mut i: usize = 0;
        while i < self.names.len()
            invariant
                i <= self.names.len(),
                self@ == names_view(self.names),
                forall|j: int| 0 <= j < i ==> self@[j] != name@,
            decreases self.names.len() - i,
        {
            if bytes_eq(self.names[i].as_slice(), name) {
                proof {
                    assert(self@[i as int] == name@);
                    lemma_slot_of(self@, name@);
                }
                return Some(i);
            }
            i += 1;
        }
        proof {
            lemma_slot_of(self@, name@);
        }
        None
    }
}

} // verus!
