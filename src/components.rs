//! The component set of one element: at most one type-erased value per
//! type key.

use crate::erased::{same_key, Erased};
use std::any::TypeId;
use vstd::prelude::*;

verus! {

/// One component: its type key and its boxed value.
struct Slot {
    key: TypeId,
    value: Erased,
}

/// The components of one element, keyed by type. Its view is the set of
/// type keys present; the values themselves are opaque.
pub struct ComponentHash {
    slots: Vec<Slot>,
}

impl View for ComponentHash {
    type V = Set<TypeId>;

    closed spec fn view(&self) -> Set<TypeId> {
        self.keys().to_set()
    }
}

impl ComponentHash {
    /// The type keys of the slots, in storage order.
    pub closed spec fn keys(&self) -> Seq<TypeId> {
        self.slots@.map_values(|s: Slot| s.key)
    }

    /// Well-formed: no type key is stored twice.
    pub closed spec fn wf(&self) -> bool {
        self.keys().no_duplicates()
    }

    /// An empty component set.
    pub fn new() -> (r: ComponentHash)
        ensures
            r.wf(),
            r@ == Set::<TypeId>::empty(),
    {
        let r = ComponentHash { slots: Vec::new() };
        assert(r.keys() =~= Seq::<TypeId>::empty());
        assert(r@ =~= Set::<TypeId>::empty());
        r
    }

    /// The number of components held.
    pub fn len(&self) -> (r: usize)
        requires
            self.wf(),
        ensures
            r == self@.len(),
    {
        proof {
            self.keys().unique_seq_to_set();
        }
        self.slots.len()
    }

    /// The position of the slot under `key`, if any.
    fn index_of(&self, key: &TypeId) -> (r: Option<usize>)
        requires
            self.wf(),
        ensures
            match r {
                Some(i) => i < self.slots@.len() && self.slots@[i as int].key == *key,
                None => !self@.contains(*key),
            },
    {
        let mut i: usize = 0;
        while i < self.slots.len()
            invariant
                i <= self.slots@.len(),
                forall|j: int| 0 <= j < i ==> self.slots@[j].key != *key,
            decreases self.slots@.len() - i,
        {
            if same_key(&self.slots[i].key, key) {
                return Some(i);
            }
            i = i + 1;
        }
        proof {
            if self@.contains(*key) {
                let j = choose|j: int| 0 <= j < self.keys().len() && self.keys()[j] == *key;
                assert(self.slots@[j].key == *key);
            }
        }
        None
    }

    /// Whether a component is held under `key`.
    pub fn contains_key(&self, key: &TypeId) -> (r: bool)
        requires
            self.wf(),
        ensures
            r == self@.contains(*key),
    {
        let i = self.index_of(key);
        proof {
            if let Some(j) = i {
                assert(self.keys()[j as int] == *key);
            }
        }
        i.is_some()
    }

    /// Stores `value` under `key`, replacing a value already held there.
    pub fn insert(&mut self, key: TypeId, value: Erased)
        requires
            old(self).wf(),
        ensures
            final(self).wf(),
            final(self)@ == old(self)@.insert(key),
    {
        match self.index_of(&key) {
            Some(i) => {
                let ghost before = self.keys();
                assert(before[i as int] == key);
                self.slots.set(i, Slot { key, value });
                assert(self.keys() =~= before);
                assert(self@ =~= old(self)@.insert(key)) by {
                    assert(before.contains(key));
                }
            },
            None => {
                let ghost before = self.keys();
                self.slots.push(Slot { key, value });
                assert(self.keys() =~= before.push(key));
                proof {
                    before.lemma_push_to_set_commute(key);
                    assert(!before.contains(key));
                }
            },
        }
    }

    /// Removes the component under `key`; tells whether there was one.
    pub fn remove(&mut self, key: &TypeId) -> (r: bool)
        requires
            old(self).wf(),
        ensures
            final(self).wf(),
            r == old(self)@.contains(*key),
            final(self)@ == old(self)@.remove(*key),
    {
        match self.index_of(key) {
            Some(i) => {
                let ghost before = self.keys();
                assert(before[i as int] == *key);
                let _ = self.slots.remove(i);
                assert(self.keys() =~= before.remove(i as int));
                assert(self@ =~= old(self)@.remove(*key)) by {
                    assert forall|k: TypeId| #[trigger] self@.contains(k) implies old(self)@.remove(*key).contains(k) by {
                        let j = choose|j: int| 0 <= j < self.keys().len() && self.keys()[j] == k;
                        if j < i {
                            assert(before[j] == k);
                        } else {
                            assert(before[j + 1] == k);
                        }
                    }
                    assert forall|k: TypeId| #[trigger] old(self)@.remove(*key).contains(k) implies self@.contains(k) by {
                        let j = choose|j: int| 0 <= j < before.len() && before[j] == k;
                        if j < i {
                            assert(self.keys()[j] == k);
                        } else {
                            assert(self.keys()[j - 1] == k);
                        }
                    }
                }
                true
            },
            None => {
                assert(self@ =~= old(self)@.remove(*key));
                false
            },
        }
    }

    /// The value under `key`, if any.
    pub fn get(&self, key: &TypeId) -> (r: Option<&Erased>)
        requires
            self.wf(),
        ensures
            r is Some <==> self@.contains(*key),
    {
        match self.index_of(key) {
            Some(i) => {
                assert(self.keys()[i as int] == *key);
                Some(&self.slots[i].value)
            },
            None => None,
        }
    }

    /// The value under `key`, if any, for mutation; the set of keys stays.
    pub fn get_mut(&mut self, key: &TypeId) -> (r: Option<&mut Erased>)
        requires
            old(self).wf(),
        ensures
            r is Some <==> old(self)@.contains(*key),
            final(self).wf(),
            final(self)@ == old(self)@,
    {
        match self.index_of(key) {
            Some(i) => {
                assert(self.keys()[i as int] == *key);
                let ghost before = self.slots@;
                let slot = &mut self.slots[i];
                let value = &mut slot.value;
                assert(after_borrow(self).slots@.len() == before.len());
                assert(after_borrow(self).slots@[i as int].key == before[i as int].key);
                assert(after_borrow(self).keys() =~= old(self).keys());
                Some(value)
            },
            None => None,
        }
    }
}

} // verus!
