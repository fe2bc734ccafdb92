//! An ordered, append-only collection of items keyed by a one-byte id:
//! a sequence in insertion order plus an index from id to position.

use vstd::prelude::*;
use std::collections::HashMap;

use crate::err::DbError;

verus! {

broadcast use vstd::std_specs::hash::group_hash_axioms;

/// The mathematical value of a [`Registry`]: the items in insertion order
/// and the index from id to position.
#[verifier::ext_equal]
pub struct RegistryV<V> {
    pub items: Seq<V>,
    pub index: Map<u8, usize>,
}

impl<V> RegistryV<V> {
    /// Well-formed: every indexed position exists, and no two ids share a
    /// position.
    pub open spec fn wf(self) -> bool {
        &&& forall|id: u8|
            self.index.contains_key(id) ==> (#[trigger] self.index[id]) < self.items.len()
        &&& forall|id1: u8, id2: u8|
            self.index.contains_key(id1) && self.index.contains_key(id2)
                && #[trigger] self.index[id1] == #[trigger] self.index[id2] ==> id1 == id2
    }

    /// The item registered under `id`, if any.
    pub open spec fn spec_get(self, id: u8) -> Option<V> {
        if self.index.contains_key(id) {
            Some(self.items[self.index[id] as int])
        } else {
            None
        }
    }

    /// The value after a successful `add`: the item appended and its id
    /// indexed at the old length.
    pub open spec fn spec_add(self, item: V, id: u8) -> RegistryV<V> {
        RegistryV {
            items: self.items.push(item),
            index: self.index.insert(id, self.items.len() as usize),
        }
    }
}

/// Law: after an `add` of a fresh id, `get` on that id yields exactly the
/// added item, every other id resolves as before, and the registry stays
/// well-formed. (A duplicate `add` fails with the registry unchanged; that
/// is part of [`Registry::add`]'s contract.)
pub proof fn lemma_registry_add_then_get<V>(r: RegistryV<V>, item: V, id: u8)
    requires
        r.wf(),
        !r.index.contains_key(id),
        r.items.len() <= usize::MAX,
    ensures
        r.spec_add(item, id).wf(),
        r.spec_add(item, id).spec_get(id) == Some(item),
        forall|other: u8| other != id ==> r.spec_add(item, id).spec_get(other) == r.spec_get(other),
{
    let r2 = r.spec_add(item, id);
    assert(r2.index[id] == r.items.len());
    assert(r2.spec_get(id) == Some(item));
    assert forall|other: u8| other != id implies r2.spec_get(other) == r.spec_get(other) by {
        if r.index.contains_key(other) {
            assert(r2.index[other] == r.index[other]);
        }
    }
}

/// The ordered, indexed collection itself. The index is kept by one-byte
/// id; lookups and inserts go through the id directly.
#[derive(Debug)]
pub struct Registry<T> {
    pub items: Vec<T>,
    pub items_index: HashMap<u8, usize>,
}

impl<T> View for Registry<T> {
    type V = RegistryV<T>;

    open spec fn view(&self) -> RegistryV<T> {
        RegistryV { items: self.items@, index: self.items_index@ }
    }
}

impl<T> Registry<T> {
    /// An empty registry.
    #[must_use]
    pub fn new_blank() -> (r: Self)
        ensures
            r@.items == Seq::<T>::empty(),
            r@.index == Map::<u8, usize>::empty(),
            r@.wf(),
    {
        Self { items: Vec::new(), items_index: HashMap::new() }
    }

    /// The position registered for `id`, if any.
    #[inline(always)]
    fn get_idx(&self, id: u8) -> (r: Option<usize>)
        ensures
            match r {
                Some(idx) => self@.index.contains_key(id) && idx == self@.index[id],
                None => !self@.index.contains_key(id),
            },
    {
        match self.items_index.get(&id) {
            Some(idx) => Some(*idx),
            None => None,
        }
    }

    /// The item registered under `id`, if any.
    pub fn get(&self, id: u8) -> (r: Option<&T>)
        requires
            self@.wf(),
        ensures
            match r {
                Some(item) => self@.spec_get(id) == Some(*item),
                None => self@.spec_get(id) == None::<T>,
            },
    {
        if let Some(idx) = self.get_idx(id) {
            return Some(&self.items[idx]);
        }
        None
    }

    /// Exclusive access to the item registered under `id`, if any; the
    /// registry afterwards holds whatever the caller left behind the
    /// reference, at the same position, with the index unchanged.
    pub fn get_mut(&mut self, id: u8) -> (r: Option<&mut T>)
        requires
            old(self)@.wf(),
        ensures
            match r {
                Some(item) => {
                    &&& old(self)@.index.contains_key(id)
                    &&& *item == old(self)@.items[old(self)@.index[id] as int]
                    &&& final(self)@.items == old(self)@.items.update(
                        old(self)@.index[id] as int,
                        *final(item),
                    )
                    &&& final(self)@.index == old(self)@.index
                },
                None => !old(self)@.index.contains_key(id) && *final(self) == *old(self),
            },
            final(self)@.wf(),
    {
        if let Some(idx) = self.get_idx(id) {
            return Some(&mut self.items[idx]);
        }
        None
    }

    /// Appends `item` under `id`. A duplicate id fails and changes
    /// nothing; otherwise the item is appended and its id indexed.
    pub fn add(&mut self, item: T, id: u8) -> (r: Result<(), DbError>)
        requires
            old(self)@.wf(),
        ensures
            final(self)@.wf(),
            if old(self)@.index.contains_key(id) {
                r == Err::<(), DbError>(DbError::DuplicateKey) && *final(self) == *old(self)
            } else {
                r == Ok::<(), DbError>(()) && final(self)@ == old(self)@.spec_add(item, id)
            },
    {
        if self.items_index.contains_key(&id) {
            return Err(DbError::DuplicateKey);
        }
        let val = self.count();
        proof {
            lemma_registry_add_then_get(self@, item, id);
        }
        self.items.push(item);
        self.items_index.insert(id, val);
        Ok(())
    }

    /// How many items are registered.
    pub fn count(&self) -> (r: usize)
        ensures
            r == self@.items.len(),
    {
        self.items.len()
    }

    /// The items in insertion order.
    pub fn list(&self) -> (r: &Vec<T>)
        ensures
            r@ == self@.items,
    {
        &self.items
    }

    /// Exclusive access to the items in insertion order; the index is not
    /// touched.
    pub fn list_mut(&mut self) -> (r: &mut Vec<T>)
        ensures
            r@ == old(self)@.items,
            final(self)@.items == final(r)@,
            final(self)@.index == old(self)@.index,
    {
        &mut self.items
    }

    /// Empties the registry.
    pub fn clear_state(&mut self)
        ensures
            final(self)@.items == Seq::<T>::empty(),
            final(self)@.index == Map::<u8, usize>::empty(),
            final(self)@.wf(),
    {
        self.items = Vec::new();
        self.items_index = HashMap::new();
    }
}

} // verus!
