//! The register of names.

use crate::table::{empty_table, entries, table_get, table_insert};
use crate::model::{identifier, interned, lemma_identifier_unique, Name};
use ahash::AHashMap;
use vstd::prelude::*;

verus! {

/// An append-only table of names. Each name is stored once; its identifier is
/// its position in the order of first appearance.
pub struct SymbolRegister {
    names: Vec<String>,
    indices: AHashMap<String, usize>,
}

impl View for SymbolRegister {
    type V = Seq<Name>;

    closed spec fn view(&self) -> Seq<Name> {
        Seq::new(self.names@.len(), |i: int| self.names@[i]@)
    }
}

impl Default for SymbolRegister {
    /// A register without names.
    fn default() -> (register: Self)
        ensures
            register.wf(),
            register@ == Seq::<Name>::empty(),
    {
        SymbolRegister::new()
    }
}

impl SymbolRegister {
    /// The table of identifiers is the inverse of the list of names.
    pub closed spec fn wf(&self) -> bool {
        &&& forall|i: int|
            0 <= i < self.names@.len() ==> {
                &&& entries(self.indices).contains_key(#[trigger] self.names@[i]@)
                &&& entries(self.indices)[self.names@[i]@] == i
            }
        &&& forall|name: Name| #[trigger]
            entries(self.indices).contains_key(name) ==> {
                &&& entries(self.indices)[name] < self.names@.len()
                &&& self.names@[entries(self.indices)[name] as int]@ == name
            }
    }

    /// A register without names.
    pub fn new() -> (register: Self)
        ensures
            register.wf(),
            register@ == Seq::<Name>::empty(),
    {
        SymbolRegister { names: Vec::new(), indices: empty_table() }
    }

    /// No name is stored twice.
    pub proof fn lemma_names_distinct(&self)
        requires
            self.wf(),
        ensures
            self@.no_duplicates(),
    {
    }

    /// The number of names.
    pub fn len(&self) -> (count: usize)
        ensures
            count == self@.len(),
    {
        self.names.len()
    }

    /// The name with identifier `idx`.
    pub fn name(&self, idx: usize) -> (name: &str)
        requires
            idx < self@.len(),
        ensures
            name@ == self@[idx as int],
    {
        self.names[idx].as_str()
    }

    /// The identifier of `name`, if the register holds it.
    pub fn try_idx(&self, name: &str) -> (found: Option<usize>)
        requires
            self.wf(),
        ensures
            found.is_some() == self@.contains(name@),
            found matches Some(idx) ==> idx == identifier(self@, name@),
            found matches Some(idx) ==> idx < self@.len() && self@[idx as int] == name@,
    {
        match table_get(&self.indices, name) {
            Some(idx) => {
                assert(self@[*idx as int] == name@);
                Some(*idx)
            },
            None => {
                assert forall|i: int| 0 <= i < self@.len() implies self@[i] != name@ by {
                    assert(entries(self.indices).contains_key(self.names@[i]@));
                }
                None
            },
        }
    }

    /// The identifier of `name`, which is stored as the last name if the
    /// register does not hold it yet.
    pub fn idx(&mut self, name: &str) -> (idx: usize)
        requires
            old(self).wf(),
        ensures
            final(self).wf(),
            final(self)@ == interned(old(self)@, name@),
            idx == identifier(final(self)@, name@),
            !old(self)@.contains(name@) ==> idx == old(self)@.len(),
            idx < final(self)@.len(),
            final(self)@[idx as int] == name@,
    {
        if let Some(idx) = self.try_idx(name) {
            return idx;
        }
        let new_idx = self.names.len();
        table_insert(&mut self.indices, name.to_owned(), new_idx);
        self.names.push(name.to_owned());
        proof {
            let before = entries(old(self).indices);
            let after = entries(self.indices);
            if before.contains_key(name@) {
                assert(old(self)@[before[name@] as int] == name@);
            }
            assert forall|i: int| 0 <= i < self.names@.len() implies {
                &&& after.contains_key(#[trigger] self.names@[i]@)
                &&& after[self.names@[i]@] == i
            } by {
                if i < new_idx {
                    assert(before.contains_key(old(self).names@[i]@));
                }
            }
            assert forall|other: Name| #[trigger] after.contains_key(other) implies {
                &&& after[other] < self.names@.len()
                &&& self.names@[after[other] as int]@ == other
            } by {
                if other != name@ {
                    assert(before.contains_key(other));
                }
            }
            assert(self@ == old(self)@.push(name@));
            self.lemma_names_distinct();
            lemma_identifier_unique(self@, name@, new_idx as int);
        }
        new_idx
    }
}

} // verus!
