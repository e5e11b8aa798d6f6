//! An insertion-ordered association table from names to slots.
//!
//! Lookup goes through a `linked_hash_map::LinkedHashMap` from name to
//! position, behind trusted wrappers; the names and the slots themselves sit
//! in two parallel vectors in insertion order, so iteration order is the
//! order in which names were first registered, as declaration merging
//! requires.

use vstd::prelude::*;
use linked_hash_map::LinkedHashMap;

verus! {

#[verifier::external_type_specification]
#[verifier::external_body]
#[verifier::reject_recursive_types(K)]
#[verifier::reject_recursive_types(V)]
#[verifier::reject_recursive_types(S)]
pub struct ExLinkedHashMap<K, V, S>(LinkedHashMap<K, V, S>);

/// What the hash map holds: the position stored under each key, keyed by the
/// key string's content.
pub uninterp spec fn name_positions(m: LinkedHashMap<String, usize>) -> Map<Seq<char>, usize>;

/// Relies on LinkedHashMap::new: the new map holds nothing.
#[verifier::external_body]
fn lhm_new() -> (m: LinkedHashMap<String, usize>)
    ensures
        name_positions(m) =~= Map::empty(),
{
    LinkedHashMap::new()
}

/// Relies on LinkedHashMap::get: returns a copy of the value stored under
/// the key; keys are compared by content.
#[verifier::external_body]
fn lhm_get(m: &LinkedHashMap<String, usize>, name: &str) -> (r: Option<usize>)
    ensures
        r == if name_positions(*m).contains_key(name@) {
            Some(name_positions(*m)[name@])
        } else {
            None::<usize>
        },
{
    m.get(name).copied()
}

/// Relies on LinkedHashMap::insert: stores the value under the key; every
/// other key keeps its value.
#[verifier::external_body]
fn lhm_insert(m: &mut LinkedHashMap<String, usize>, name: String, pos: usize)
    ensures
        name_positions(*final(m)) == name_positions(*old(m)).insert(name@, pos),
{
    let _ = m.insert(name, pos);
}

/// An insertion-ordered map from names to slots of type `T`.
pub struct Table<T> {
    /// Name content to position in `names`/`slots`.
    pub index: LinkedHashMap<String, usize>,
    /// The names, in first-registration order.
    pub names: Vec<String>,
    /// The slots, parallel to `names`.
    pub slots: Vec<T>,
}

impl<T> Table<T> {
    /// The lookup map this table's index holds.
    pub open spec fn key_map(self) -> Map<Seq<char>, usize> {
        name_positions(self.index)
    }

    /// How many names are registered.
    pub open spec fn spec_len(self) -> int {
        self.slots@.len() as int
    }

    /// Whether a name is registered.
    pub open spec fn contains(self, name: Seq<char>) -> bool {
        self.key_map().contains_key(name)
    }

    /// The position a registered name was first registered at.
    pub open spec fn pos_of(self, name: Seq<char>) -> int {
        self.key_map()[name] as int
    }

    /// The slot a registered name holds.
    pub open spec fn at(self, name: Seq<char>) -> T {
        self.slots@[self.pos_of(name)]
    }

    /// The index is exactly the positions of the (distinct) names, and the
    /// two vectors run in parallel.
    pub open spec fn wf(self) -> bool {
        &&& self.names@.len() == self.slots@.len()
        &&& forall|k: int|
            0 <= k < self.names@.len() ==> self.key_map().contains_key(
                #[trigger] self.names@[k]@,
            ) && self.key_map()[self.names@[k]@] == k
        &&& forall|s: Seq<char>| #[trigger]
            self.key_map().contains_key(s) ==> 0 <= self.key_map()[s] < self.names@.len()
                && self.names@[self.key_map()[s] as int]@ == s
    }

    /// An empty table.
    pub fn new() -> (r: Table<T>)
        ensures
            r.wf(),
            r.spec_len() == 0,
            r.names@.len() == 0,
            r.key_map() =~= Map::empty(),
    {
        Table { index: lhm_new(), names: Vec::new(), slots: Vec::new() }
    }

    /// How many names are registered.
    pub fn len(&self) -> (r: usize)
        ensures
            r == self.spec_len(),
    {
        self.slots.len()
    }

    /// The position of a name, when it is registered.
    pub fn position(&self, name: &str) -> (r: Option<usize>)
        requires
            self.wf(),
        ensures
            match r {
                Some(p) => self.contains(name@) && p == self.pos_of(name@) && p
                    < self.spec_len(),
                None => !self.contains(name@),
            },
    {
        lhm_get(&self.index, name)
    }

    /// The slot a name holds, when it is registered.
    pub fn get(&self, name: &str) -> (r: Option<&T>)
        requires
            self.wf(),
        ensures
            match r {
                Some(t) => self.contains(name@) && *t == self.at(name@),
                None => !self.contains(name@),
            },
    {
        match lhm_get(&self.index, name) {
            Some(p) => {
                proof {
                    assert(self.key_map().contains_key(name@));
                    assert(p == self.key_map()[name@]);
                }
                Some(&self.slots[p])
            },
            None => None,
        }
    }

    /// Registers a fresh name at the end of the table.
    pub fn insert_new(&mut self, name: String, value: T)
        requires
            old(self).wf(),
            !old(self).contains(name@),
        ensures
            final(self).wf(),
            final(self).names@ == old(self).names@.push(name),
            final(self).slots@ == old(self).slots@.push(value),
            final(self).key_map() == old(self).key_map().insert(
                name@,
                old(self).spec_len() as usize,
            ),
            final(self).contains(name@),
            final(self).pos_of(name@) == old(self).spec_len(),
    {
        let pos = self.slots.len();
        let key = name.clone();
        lhm_insert(&mut self.index, key, pos);
        self.names.push(name);
        self.slots.push(value);
    }
}

} // verus!
