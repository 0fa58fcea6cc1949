//! The registry: element identifiers and, for each live element, its
//! component set.

use crate::components::ComponentHash;
use crate::custom_errors::WorldError;
use crate::erased::{downcast_mut, downcast_ref, erase, Erased};
use std::any::TypeId;
use vstd::prelude::*;

verus! {

/// Identifier of an element: handed out in increasing order, never reused.
pub type EntityId = usize;

/// What the registry holds, as a mathematical value: for each live
/// element, the set of type keys of its components.
pub type WorldModel = Map<EntityId, Set<TypeId>>;

/// The effect of `add_component` with type key `k` on element `id`: the new
/// model and the result.
pub open spec fn add_outcome(m: WorldModel, id: EntityId, k: TypeId) -> (WorldModel, Result<(), WorldError>) {
    if !m.contains_key(id) {
        (m, Err(WorldError::ElementDoesNotExist))
    } else if m[id].contains(k) {
        (m, Err(WorldError::ElementAlreadyHasComponent(k)))
    } else {
        (m.insert(id, m[id].insert(k)), Ok(()))
    }
}

/// The effect of `delete_component` with type key `k` on element `id`.
pub open spec fn remove_outcome(m: WorldModel, id: EntityId, k: TypeId) -> (WorldModel, Result<(), WorldError>) {
    if !m.contains_key(id) {
        (m, Err(WorldError::ElementDoesNotExist))
    } else if !m[id].contains(k) {
        (m, Err(WorldError::ElementDoesNotHaveComponent(k)))
    } else {
        (m.insert(id, m[id].remove(k)), Ok(()))
    }
}

/// The effect of `delete_entity` on element `id`.
pub open spec fn delete_outcome(m: WorldModel, id: EntityId) -> (WorldModel, Result<(), WorldError>) {
    if !m.contains_key(id) {
        (m, Err(WorldError::ElementDoesNotExist))
    } else {
        (m.remove(id), Ok(()))
    }
}

/// The effect of `num_components` on element `id`.
pub open spec fn count_outcome(m: WorldModel, id: EntityId) -> Result<usize, WorldError> {
    if !m.contains_key(id) {
        Err(WorldError::ElementDoesNotExist)
    } else {
        Ok(m[id].len() as usize)
    }
}

/// The live elements that hold a component under type key `k`.
pub open spec fn holders_of(m: WorldModel, k: TypeId) -> Set<EntityId> {
    m.dom().filter(|id: EntityId| m[id].contains(k))
}

/// One live element and its components.
struct Entry {
    id: EntityId,
    components: ComponentHash,
}

/// The registry of elements and their components.
///
/// Elements are kept in increasing order of identifier; `new_entity_id` is
/// the identifier the element under construction gets.
pub struct World {
    entity_components: Vec<Entry>,
    new_entity_id: EntityId,
    model: Ghost<WorldModel>,
}

impl View for World {
    type V = WorldModel;

    closed spec fn view(&self) -> WorldModel {
        self.model@
    }
}

impl World {
    /// The identifiers of the live elements, in storage order.
    closed spec fn ids(&self) -> Seq<EntityId> {
        self.entity_components@.map_values(|e: Entry| e.id)
    }

    /// Identifiers are stored once each.
    proof fn lemma_ids_distinct(&self)
        requires
            self.wf(),
        ensures
            self.ids().no_duplicates(),
    {
        let ids = self.ids();
        assert forall|i: int, j: int| 0 <= i < ids.len() && 0 <= j < ids.len() && i != j implies ids[i] != ids[j] by {
            if i < j {
                assert(self.entity_components@[i].id < self.entity_components@[j].id);
            } else {
                assert(self.entity_components@[j].id < self.entity_components@[i].id);
            }
        }
    }

    /// The identifier that the next finished creation returns.
    pub closed spec fn next_id(&self) -> EntityId {
        self.new_entity_id
    }

    /// Well-formed: identifiers strictly increase along the storage, none
    /// exceeds the next identifier, each component set is well-formed, and
    /// the model is what the storage holds.
    pub closed spec fn wf(&self) -> bool {
        let es = self.entity_components@;
        &&& forall|i: int, j: int| 0 <= i < j < es.len() ==> es[i].id < es[j].id
        &&& forall|i: int| 0 <= i < es.len() ==> es[i].id <= self.new_entity_id
        &&& forall|i: int| 0 <= i < es.len() ==> (#[trigger] es[i]).components.wf()
        &&& self.model@.dom() == self.ids().to_set()
        &&& forall|i: int| 0 <= i < es.len() ==> self.model@[(#[trigger] es[i]).id] == es[i].components@
    }

    /// An empty registry.
    pub fn new() -> (r: World)
        ensures
            r.wf(),
            r@ == WorldModel::empty(),
            r.next_id() == 0,
    {
        let r = World { entity_components: Vec::new(), new_entity_id: 0, model: Ghost(Map::empty()) };
        assert(r.ids() =~= Seq::<EntityId>::empty());
        assert(r.ids().to_set() =~= Set::<EntityId>::empty());
        r
    }

    /// The storage position of element `id`, if it is live, found by
    /// bisection over the increasing identifiers.
    fn index_of(&self, id: EntityId) -> (r: Option<usize>)
        requires
            self.wf(),
        ensures
            match r {
                Some(i) => {
                    &&& i < self.entity_components@.len()
                    &&& self.entity_components@[i as int].id == id
                    &&& self@.contains_key(id)
                    &&& self@[id] == self.entity_components@[i as int].components@
                },
                None => !self@.contains_key(id),
            },
    {
        let ghost es = self.entity_components@;
        let mut lo: usize = 0;
        let mut hi: usize = self.entity_components.len();
        while lo < hi
            invariant
                self.wf(),
                es == self.entity_components@,
                lo <= hi <= es.len(),
                forall|j: int| 0 <= j < lo ==> es[j].id < id,
                forall|j: int| hi <= j < es.len() ==> es[j].id > id,
            decreases hi - lo,
        {
            let mid = lo + (hi - lo) / 2;
            let here = self.entity_components[mid].id;
            if here == id {
                assert(self.ids()[mid as int] == id);
                let ghost e = es[mid as int];
                assert(self.model@[e.id] == e.components@);
                return Some(mid);
            } else if here < id {
                proof {
                    assert forall|j: int| 0 <= j < mid + 1 implies es[j].id < id by {
                        if j < mid {
                            assert(es[j].id < es[mid as int].id);
                        }
                    }
                }
                lo = mid + 1;
            } else {
                proof {
                    assert forall|j: int| mid <= j < es.len() implies es[j].id > id by {
                        if j > mid {
                            assert(es[mid as int].id < es[j].id);
                        }
                    }
                }
                hi = mid;
            }
        }
        proof {
            if self@.contains_key(id) {
                assert(self.ids().to_set().contains(id));
                let j = choose|j: int| 0 <= j < self.ids().len() && self.ids()[j] == id;
                assert(es[j].id == id);
            }
        }
        None
    }

    /// Starts the creation of an element: the next identifier gets an
    /// empty component set (an unfinished creation under that identifier
    /// starts over). Returns the registry, for chaining.
    pub fn create_entity(&mut self) -> (r: &mut Self)
        requires
            old(self).wf(),
        ensures
            r.wf(),
            r@ == old(self)@.insert(old(self).next_id(), Set::<TypeId>::empty()),
            r.next_id() == old(self).next_id(),
            *final(self) == *final(r),
    {
        let next = self.new_entity_id;
        let n = self.entity_components.len();
        let ghost before = self.entity_components@;
        if n > 0 && self.entity_components[n - 1].id == next {
            self.entity_components.set(n - 1, Entry { id: next, components: ComponentHash::new() });
            assert(self.ids() =~= old(self).ids());
            assert(old(self).ids()[n - 1] == next);
        } else {
            self.entity_components.push(Entry { id: next, components: ComponentHash::new() });
            assert(self.ids() =~= old(self).ids().push(next));
            proof {
                old(self).ids().lemma_push_to_set_commute(next);
            }
        }
        self.model = Ghost(self.model@.insert(next, Set::<TypeId>::empty()));
        proof {
            let es = self.entity_components@;
            assert forall|i: int| 0 <= i < es.len() implies self.model@[(#[trigger] es[i]).id] == es[i].components@ by {
                if i < n && es[i].id != next {
                    assert(es[i] == before[i]);
                }
            }
            assert(self.model@.dom() =~= self.ids().to_set());
        }
        self
    }

    /// Attaches `component` to the element under construction, replacing a
    /// component of the same type attached before. Returns the registry,
    /// for chaining.
    pub fn with<T: 'static>(&mut self, component: T) -> (r: &mut Self)
        requires
            old(self).wf(),
            old(self)@.contains_key(old(self).next_id()),
        ensures
            r.wf(),
            exists|k: TypeId| r@ == #[trigger] old(self)@.insert(old(self).next_id(), old(self)@[old(self).next_id()].insert(k)),
            r.next_id() == old(self).next_id(),
            *final(self) == *final(r),
    {
        let key = TypeId::of::<T>();
        let value = erase(component);
        let next = self.new_entity_id;
        let i = self.index_of(next).unwrap();
        let ghost before = *self;
        self.entity_components[i].components.insert(key, value);
        self.model = Ghost(self.model@.insert(next, self.model@[next].insert(key)));
        proof {
            Self::lemma_entry_replaced(&before, self, i as int);
        }
        self
    }

    /// Finishes the creation: returns the identifier of the new element and
    /// moves on to the next one.
    pub fn done(&mut self) -> (r: EntityId)
        requires
            old(self).wf(),
            old(self).next_id() < usize::MAX,
        ensures
            final(self).wf(),
            r == old(self).next_id(),
            final(self).next_id() == old(self).next_id() + 1,
            final(self)@ == old(self)@,
    {
        self.new_entity_id = self.new_entity_id + 1;
        self.new_entity_id - 1
    }

    /// The number of live elements.
    pub fn num_entities(&self) -> (r: usize)
        requires
            self.wf(),
        ensures
            r == self@.len(),
    {
        proof {
            self.lemma_ids_distinct();
            self.ids().unique_seq_to_set();
        }
        self.entity_components.len()
    }

    /// The number of components of element `entity_id`.
    pub fn num_components(&self, entity_id: &EntityId) -> (r: Result<usize, WorldError>)
        requires
            self.wf(),
        ensures
            r == count_outcome(self@, *entity_id),
    {
        match self.index_of(*entity_id) {
            Some(i) => {
                Ok(self.entity_components[i].components.len())
            },
            None => Err(WorldError::ElementDoesNotExist),
        }
    }
    /// After the components of the entry at `i` changed and the model was
    /// updated to match, the registry is still well-formed.
    proof fn lemma_entry_replaced(before: &World, after: &World, i: int)
        requires
            before.wf(),
            0 <= i < before.entity_components@.len(),
            after.entity_components@.len() == before.entity_components@.len(),
            forall|j: int| 0 <= j < before.entity_components@.len() && j != i
                ==> after.entity_components@[j] == before.entity_components@[j],
            after.entity_components@[i].id == before.entity_components@[i].id,
            after.entity_components@[i].components.wf(),
            after.new_entity_id == before.new_entity_id,
            after.model@ == before.model@.insert(
                before.entity_components@[i].id,
                after.entity_components@[i].components@,
            ),
        ensures
            after.wf(),
            after.ids() == before.ids(),
    {
        let es = after.entity_components@;
        assert(after.ids() =~= before.ids());
        assert(before.ids()[i] == es[i].id);
        assert(after.model@.dom() =~= after.ids().to_set());
        assert forall|j: int| 0 <= j < es.len() implies after.model@[(#[trigger] es[j]).id] == es[j].components@ by {
            if j != i {
                assert(es[j] == before.entity_components@[j]);
            }
        }
    }

    /// Deletes element `entity_id` with all its components.
    pub fn delete_entity(&mut self, entity_id: &EntityId) -> (r: Result<(), WorldError>)
        requires
            old(self).wf(),
        ensures
            final(self).wf(),
            (final(self)@, r) == delete_outcome(old(self)@, *entity_id),
            final(self).next_id() == old(self).next_id(),
    {
        match self.index_of(*entity_id) {
            None => Err(WorldError::ElementDoesNotExist),
            Some(i) => {
                let ghost before = self.entity_components@;
                let ghost ids = self.ids();
                let _ = self.entity_components.remove(i);
                self.model = Ghost(self.model@.remove(*entity_id));
                proof {
                    let es = self.entity_components@;
                    assert(self.ids() =~= ids.remove(i as int));
                    assert forall|a: int, b: int| 0 <= a < b < es.len() implies es[a].id < es[b].id by {
                        if a < i {
                            if b < i {
                                assert(es[b] == before[b]);
                            } else {
                                assert(es[b] == before[b + 1]);
                            }
                        } else {
                            assert(es[a] == before[a + 1]);
                            assert(es[b] == before[b + 1]);
                        }
                    }
                    assert forall|j: int| 0 <= j < es.len() implies self.model@[(#[trigger] es[j]).id] == es[j].components@ && es[j].components.wf() && es[j].id <= self.new_entity_id by {
                        let jj = if j < i { j } else { j + 1 };
                        assert(es[j] == before[jj]);
                        assert(before[jj].id != *entity_id);
                    }
                    assert(self.model@.dom() =~= self.ids().to_set()) by {
                        assert forall|x: EntityId| #[trigger] self.ids().to_set().contains(x) implies self.model@.dom().contains(x) by {
                            let j = choose|j: int| 0 <= j < self.ids().len() && self.ids()[j] == x;
                            let jj = if j < i { j } else { j + 1 };
                            assert(es[j] == before[jj]);
                            assert(ids[jj] == x);
                        }
                        assert forall|x: EntityId| #[trigger] self.model@.dom().contains(x) implies self.ids().to_set().contains(x) by {
                            assert(ids.to_set().contains(x));
                            let j = choose|j: int| 0 <= j < ids.len() && ids[j] == x;
                            assert(j != i);
                            if j < i {
                                assert(self.ids()[j] == x);
                            } else {
                                assert(self.ids()[j - 1] == x);
                            }
                        }
                    }
                }
                Ok(())
            },
        }
    }

    /// Adds `component` to element `entity_id`. Refused when the element is
    /// not live, or already has a component of type `T`.
    pub fn add_component<T: 'static>(&mut self, entity_id: &EntityId, component: T) -> (r: Result<(), WorldError>)
        requires
            old(self).wf(),
        ensures
            final(self).wf(),
            exists|k: TypeId| (final(self)@, r) == #[trigger] add_outcome(old(self)@, *entity_id, k),
            final(self).next_id() == old(self).next_id(),
    {
        let key = TypeId::of::<T>();
        let r = self.add_keyed(entity_id, key, erase(component));
        assert((self@, r) == add_outcome(old(self)@, *entity_id, key));
        r
    }

    /// `add_component` for a value already boxed, under its type key.
    fn add_keyed(&mut self, entity_id: &EntityId, key: TypeId, value: Erased) -> (r: Result<(), WorldError>)
        requires
            old(self).wf(),
        ensures
            final(self).wf(),
            (final(self)@, r) == add_outcome(old(self)@, *entity_id, key),
            final(self).next_id() == old(self).next_id(),
    {
        match self.index_of(*entity_id) {
            None => Err(WorldError::ElementDoesNotExist),
            Some(i) => {
                if self.entity_components[i].components.contains_key(&key) {
                    return Err(WorldError::ElementAlreadyHasComponent(key));
                }
                let ghost before = *self;
                self.entity_components[i].components.insert(key, value);
                self.model = Ghost(self.model@.insert(*entity_id, self.model@[*entity_id].insert(key)));
                proof {
                    Self::lemma_entry_replaced(&before, self, i as int);
                }
                Ok(())
            },
        }
    }

    /// Removes the component of type `T` from element `entity_id`. Refused
    /// when the element is not live, or has no component of type `T`.
    pub fn delete_component<T: 'static>(&mut self, entity_id: &EntityId) -> (r: Result<(), WorldError>)
        requires
            old(self).wf(),
        ensures
            final(self).wf(),
            exists|k: TypeId| (final(self)@, r) == #[trigger] remove_outcome(old(self)@, *entity_id, k),
            final(self).next_id() == old(self).next_id(),
    {
        let key = TypeId::of::<T>();
        let r = self.delete_component_by_key(entity_id, &key);
        assert((self@, r) == remove_outcome(old(self)@, *entity_id, key));
        r
    }

    /// Removes the component under type key `key` from element `entity_id`.
    /// Refused when the element is not live, or has no component under
    /// `key`.
    pub fn delete_component_by_key(&mut self, entity_id: &EntityId, key: &TypeId) -> (r: Result<(), WorldError>)
        requires
            old(self).wf(),
        ensures
            final(self).wf(),
            (final(self)@, r) == remove_outcome(old(self)@, *entity_id, *key),
            final(self).next_id() == old(self).next_id(),
    {
        match self.index_of(*entity_id) {
            None => Err(WorldError::ElementDoesNotExist),
            Some(i) => {
                let ghost before = *self;
                if !self.entity_components[i].components.contains_key(key) {
                    return Err(WorldError::ElementDoesNotHaveComponent(*key));
                }
                let _ = self.entity_components[i].components.remove(key);
                self.model = Ghost(self.model@.insert(*entity_id, self.model@[*entity_id].remove(*key)));
                proof {
                    Self::lemma_entry_replaced(&before, self, i as int);
                }
                Ok(())
            },
        }
    }
    /// The boxed component under type key `key` on element `entity_id`;
    /// `None` exactly when the element is not live or has no such component.
    pub fn get_component_by_key(&self, entity_id: &EntityId, key: &TypeId) -> (r: Option<&Erased>)
        requires
            self.wf(),
        ensures
            r is Some <==> self@.contains_key(*entity_id) && self@[*entity_id].contains(*key),
    {
        match self.index_of(*entity_id) {
            None => None,
            Some(i) => self.entity_components[i].components.get(key),
        }
    }

    /// The boxed component under type key `key` on element `entity_id`, for
    /// mutation; `None` exactly when the element is not live or has no such
    /// component. Elements and type keys stay as they are.
    pub fn get_component_by_key_mut(&mut self, entity_id: &EntityId, key: &TypeId) -> (r: Option<&mut Erased>)
        requires
            old(self).wf(),
        ensures
            r is Some <==> old(self)@.contains_key(*entity_id) && old(self)@[*entity_id].contains(*key),
            final(self).wf(),
            final(self)@ == old(self)@,
            final(self).next_id() == old(self).next_id(),
    {
        match self.index_of(*entity_id) {
            None => None,
            Some(i) => {
                let ghost before = *self;
                let entry = &mut self.entity_components[i];
                let found = entry.components.get_mut(key);
                proof {
                    let after = after_borrow(self);
                    assert(after.entity_components@ == before.entity_components@.update(i as int, after.entity_components@[i as int]));
                    assert(after.model@ =~= before.model@.insert(
                        before.entity_components@[i as int].id,
                        after.entity_components@[i as int].components@,
                    ));
                    Self::lemma_entry_replaced(&before, &after, i as int);
                }
                found
            },
        }
    }

    /// The component of type `T` on element `entity_id`; `None` when the
    /// element is not live or has no such component.
    pub fn get_entity_component<T: 'static>(&self, entity_id: &EntityId) -> (r: Option<&T>)
        requires
            self.wf(),
        ensures
            r is Some ==> self@.contains_key(*entity_id) && exists|k: TypeId| #[trigger] self@[*entity_id].contains(k),
    {
        let key = TypeId::of::<T>();
        match self.get_component_by_key(entity_id, &key) {
            None => None,
            Some(e) => downcast_ref::<T>(e),
        }
    }

    /// The component of type `T` on element `entity_id`, for mutation;
    /// `None` when the element is not live or has no such component.
    /// Elements and type keys stay as they are.
    pub fn get_entity_component_mut<T: 'static>(&mut self, entity_id: &EntityId) -> (r: Option<&mut T>)
        requires
            old(self).wf(),
        ensures
            r is Some ==> old(self)@.contains_key(*entity_id) && exists|k: TypeId| #[trigger] old(self)@[*entity_id].contains(k),
            final(self).wf(),
            final(self)@ == old(self)@,
            final(self).next_id() == old(self).next_id(),
    {
        let key = TypeId::of::<T>();
        match self.get_component_by_key_mut(entity_id, &key) {
            None => None,
            Some(e) => downcast_mut::<T>(e),
        }
    }

    /// The identifiers of all live elements, each once, in increasing order.
    pub fn iter(&self) -> (r: Vec<EntityId>)
        requires
            self.wf(),
        ensures
            r@.to_set() == self@.dom(),
            r@.len() == self@.len(),
            forall|a: int, b: int| 0 <= a < b < r@.len() ==> r@[a] < r@[b],
    {
        let mut out: Vec<EntityId> = Vec::new();
        let mut i: usize = 0;
        while i < self.entity_components.len()
            invariant
                self.wf(),
                i <= self.entity_components@.len(),
                out@ == self.ids().take(i as int),
            decreases self.entity_components@.len() - i,
        {
            out.push(self.entity_components[i].id);
            i = i + 1;
            assert(out@ =~= self.ids().take(i as int));
        }
        assert(out@ =~= self.ids());
        proof {
            self.lemma_ids_distinct();
            out@.unique_seq_to_set();
        }
        out
    }

    /// The live elements that hold a component under type key `key`, each
    /// once, in increasing order of identifier.
    pub fn holders(&self, key: &TypeId) -> (r: Vec<EntityId>)
        requires
            self.wf(),
        ensures
            r@.to_set() == holders_of(self@, *key),
            r@.len() == holders_of(self@, *key).len(),
            forall|a: int, b: int| 0 <= a < b < r@.len() ==> r@[a] < r@[b],
    {
        let mut out: Vec<EntityId> = Vec::new();
        let mut i: usize = 0;
        let ghost es = self.entity_components@;
        let ghost m = self@;
        while i < self.entity_components.len()
            invariant
                self.wf(),
                es == self.entity_components@,
                m == self@,
                i <= es.len(),
                forall|a: int, b: int| 0 <= a < b < out@.len() ==> out@[a] < out@[b],
                forall|a: int| 0 <= a < out@.len() ==> holders_of(m, *key).contains(#[trigger] out@[a]),
                forall|a: int| 0 <= a < out@.len() && i < es.len() ==> #[trigger] out@[a] < es[i as int].id,
                forall|j: int| 0 <= j < i && (#[trigger] es[j]).components@.contains(*key) ==> out@.contains(es[j].id),
            decreases es.len() - i,
        {
            let ghost prev = out@;
            if self.entity_components[i].components.contains_key(key) {
                out.push(self.entity_components[i].id);
                proof {
                    assert(m[es[i as int].id] == es[i as int].components@);
                    assert(self.ids()[i as int] == es[i as int].id);
                    assert(out@[prev.len() as int] == es[i as int].id);
                    assert forall|j: int| 0 <= j < i && (#[trigger] es[j]).components@.contains(*key) implies out@.contains(es[j].id) by {
                        let a = choose|a: int| 0 <= a < prev.len() && prev[a] == es[j].id;
                        assert(out@[a] == es[j].id);
                    }
                }
            }
            proof {
                if i + 1 < es.len() {
                    assert(es[i as int].id < es[i + 1].id);
                    assert forall|a: int| 0 <= a < out@.len() implies #[trigger] out@[a] < es[i + 1].id by {
                        if a < prev.len() {
                            assert(out@[a] == prev[a]);
                        }
                    }
                }
            }
            i = i + 1;
        }
        proof {
            assert forall|x: EntityId| #[trigger] out@.to_set().contains(x) implies holders_of(m, *key).contains(x) by {
                let a = choose|a: int| 0 <= a < out@.len() && out@[a] == x;
            }
            assert forall|x: EntityId| #[trigger] holders_of(m, *key).contains(x) implies out@.to_set().contains(x) by {
                assert(self.ids().to_set().contains(x));
                let j = choose|j: int| 0 <= j < self.ids().len() && self.ids()[j] == x;
                assert(m[es[j].id] == es[j].components@);
                assert(out@.contains(es[j].id));
            }
            assert(out@.to_set() =~= holders_of(m, *key));
            assert(out@.no_duplicates());
            out@.unique_seq_to_set();
        }
        out
    }
    /// The components of type `T` of the live elements that hold one, at
    /// most one per element, in increasing order of identifier.
    pub fn query<T: 'static>(&self) -> (r: Vec<&T>)
        requires
            self.wf(),
        ensures
            exists|k: TypeId| r@.len() <= #[trigger] holders_of(self@, k).len(),
    {
        let key = TypeId::of::<T>();
        let ids = self.holders(&key);
        let mut out: Vec<&T> = Vec::new();
        let mut i: usize = 0;
        while i < ids.len()
            invariant
                self.wf(),
                i <= ids@.len(),
                out@.len() <= i,
            decreases ids@.len() - i,
        {
            if let Some(at) = self.index_of(ids[i]) {
                if let Some(e) = self.entity_components[at].components.get(&key) {
                    if let Some(c) = downcast_ref::<T>(e) {
                        out.push(c);
                    }
                }
            }
            i = i + 1;
        }
        assert(out@.len() <= holders_of(self@, key).len());
        out
    }

    /// The components of type `T` of the live elements that hold one, for
    /// mutation: at most one per element, in increasing order of identifier.
    /// The storage is split entry by entry, so the borrows handed out are
    /// disjoint by construction. Elements and type keys stay as they are.
    pub fn query_mut<T: 'static>(&mut self) -> (r: Vec<&mut T>)
        requires
            old(self).wf(),
        ensures
            final(self).wf(),
            final(self)@ == old(self)@,
            final(self).next_id() == old(self).next_id(),
            exists|k: TypeId| r@.len() <= #[trigger] holders_of(old(self)@, k).len(),
    {
        let key = TypeId::of::<T>();
        let ids = self.holders(&key);
        let mut out: Vec<&mut T> = Vec::new();
        let ghost before = *self;
        let entries = self.entity_components.as_mut_slice();
        collect_mut(entries, &ids, 0, &key, &mut out);
        proof {
            let after = after_borrow(self);
            let es = after.entity_components@;
            assert(after.ids() =~= before.ids());
            assert forall|j: int| 0 <= j < es.len() implies after.model@[(#[trigger] es[j]).id] == es[j].components@ by {
                assert(before.model@[before.entity_components@[j].id] == before.entity_components@[j].components@);
            }
        }
        assert(out@.len() <= holders_of(before@, key).len());
        out
    }
}

/// Walks `entries` and the increasing identifiers `ids[at..]` together and
/// pushes onto `out` the component of type `T` under `key` of each entry
/// whose identifier comes next in `ids`: at most one per identifier.
/// Identifiers and type keys of the entries stay as they are.
fn collect_mut<'a, T: 'static>(
    entries: &'a mut [Entry],
    ids: &Vec<EntityId>,
    at: usize,
    key: &TypeId,
    out: &mut Vec<&'a mut T>,
)
    requires
        at <= ids@.len(),
        forall|j: int| 0 <= j < old(entries)@.len() ==> (#[trigger] old(entries)@[j]).components.wf(),
    ensures
        final(entries)@.len() == old(entries)@.len(),
        forall|j: int| 0 <= j < old(entries)@.len() ==> {
            &&& (#[trigger] final(entries)@[j]).id == old(entries)@[j].id
            &&& final(entries)@[j].components.wf()
            &&& final(entries)@[j].components@ == old(entries)@[j].components@
        },
        final(out)@.len() <= old(out)@.len() + ids@.len() - at,
    decreases old(entries)@.len(),
{
    if entries.len() == 0 || at == ids.len() {
        return;
    }
    let (head, tail) = entries.split_at_mut(1);
    let first = head.first_mut().unwrap();
    if first.id == ids[at] {
        if let Some(e) = first.components.get_mut(key) {
            if let Some(c) = downcast_mut::<T>(e) {
                out.push(c);
            }
        }
        collect_mut(tail, ids, at + 1, key, out);
    } else {
        collect_mut(tail, ids, at, key, out);
    }
}

/// No live element has an identifier beyond the next one to be handed out,
/// so the identifier that `done` returns is never one already finished, and
/// identifiers, which only grow, are never reused.
pub proof fn lemma_live_ids_not_beyond_next(w: &World)
    requires
        w.wf(),
    ensures
        forall|id: EntityId| #[trigger] w@.contains_key(id) ==> id <= w.next_id(),
{
    assert forall|id: EntityId| #[trigger] w@.contains_key(id) implies id <= w.next_id() by {
        assert(w.ids().to_set().contains(id));
        let j = choose|j: int| 0 <= j < w.ids().len() && w.ids()[j] == id;
        assert(w.entity_components@[j].id <= w.new_entity_id);
    }
}

/// The number of live elements goes up by one when a creation starts under
/// an identifier not in use, and down by one when a live element is deleted.
pub proof fn lemma_count_follows_create_and_delete(m: WorldModel, next: EntityId, id: EntityId)
    requires
        m.dom().finite(),
    ensures
        !m.contains_key(next) ==> m.insert(next, Set::<TypeId>::empty()).len() == m.len() + 1,
        m.contains_key(id) ==> delete_outcome(m, id).0.len() == m.len() - 1,
{
}

/// Once a component is added under a type key, the element holds that key,
/// and adding under the same key again is refused with
/// `ElementAlreadyHasComponent`, leaving the element as it is.
pub proof fn lemma_add_then_present(m: WorldModel, id: EntityId, k: TypeId)
    requires
        add_outcome(m, id, k).1 is Ok,
    ensures
        add_outcome(m, id, k).0[id].contains(k),
        add_outcome(add_outcome(m, id, k).0, id, k) == (
            add_outcome(m, id, k).0,
            Err::<(), WorldError>(WorldError::ElementAlreadyHasComponent(k)),
        ),
{
}

/// Once the component under a type key is removed, the element no longer
/// holds that key, and removing it again is refused with
/// `ElementDoesNotHaveComponent`.
pub proof fn lemma_remove_then_absent(m: WorldModel, id: EntityId, k: TypeId)
    requires
        m.contains_key(id),
        m[id].contains(k),
    ensures
        remove_outcome(m, id, k).1 is Ok,
        !remove_outcome(m, id, k).0[id].contains(k),
        remove_outcome(remove_outcome(m, id, k).0, id, k) == (
            remove_outcome(m, id, k).0,
            Err::<(), WorldError>(WorldError::ElementDoesNotHaveComponent(k)),
        ),
{
}

/// Deleting a live element takes it out of the live identifiers; counting
/// its components and deleting it again are then refused with
/// `ElementDoesNotExist`.
pub proof fn lemma_delete_then_gone(m: WorldModel, id: EntityId)
    requires
        m.contains_key(id),
    ensures
        delete_outcome(m, id).1 is Ok,
        !delete_outcome(m, id).0.dom().contains(id),
        count_outcome(delete_outcome(m, id).0, id) == Err::<usize, WorldError>(WorldError::ElementDoesNotExist),
        delete_outcome(delete_outcome(m, id).0, id) == (
            delete_outcome(m, id).0,
            Err::<(), WorldError>(WorldError::ElementDoesNotExist),
        ),
{
}

/// Holding a component under one key is not affected by components under
/// other keys: the holders of `k` are unchanged by adding or removing a
/// component under a different key.
pub proof fn lemma_holders_ignore_other_keys(m: WorldModel, id: EntityId, k: TypeId, other: TypeId)
    requires
        k != other,
    ensures
        holders_of(add_outcome(m, id, other).0, k) == holders_of(m, k),
        holders_of(remove_outcome(m, id, other).0, k) == holders_of(m, k),
{
    assert(holders_of(add_outcome(m, id, other).0, k) =~= holders_of(m, k));
    assert(holders_of(remove_outcome(m, id, other).0, k) =~= holders_of(m, k));
}

} // verus!
