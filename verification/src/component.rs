//! Components, their type-erased form, and the storage that holds one component
//! type for many entities.

use crate::entity::Entity;
use std::any::Any;
use std::any::TypeId;
use std::collections::HashMap;
use std::collections::hash_map::RandomState;
use std::collections::hash_map::Entry;
use vstd::prelude::*;
use vstd::std_specs::iter::IteratorSpec;

verus! {

broadcast use vstd::std_specs::hash::group_hash_axioms;

/// A component value whose type has been erased (a `Box<dyn Any>`).
///
/// Values of every component type are kept in this form inside a world; the
/// typed value is recovered with [`downcast_ref`] and [`downcast`].
#[verifier::external_body]
pub struct ErasedComponent {
    value: Box<dyn Any>,
}

/// The `TypeId` of the value held in an erased component, as
/// `<dyn Any>::type_id` reports it.
pub uninterp spec fn erased_type_key(e: ErasedComponent) -> TypeId;

/// Marker trait for components. All component types must implement it.
pub trait Component: 'static {
}

/// `TypeId::of`, known to Verus with no contract: the identity of a type is
/// taken as an opaque value.
pub assume_specification<T: ?Sized + 'static>[ TypeId::of::<T> ]() -> TypeId;

/// The type identity of `T`: the value that `TypeId::of::<T>()` returns.
pub open spec fn type_key<T: ?Sized + 'static>() -> TypeId {
    choose|k: TypeId| call_ensures(TypeId::of::<T>, (), k)
}

/// `v` is the erased form of `x`: a possible result of `erase(x)`.
pub open spec fn erases_to<T: Component>(x: T, v: ErasedComponent) -> bool {
    call_ensures(erase::<T>, (x,), v)
}

/// `TypeId::of::<T>()`.
///
/// Trusted: the identity of a type is the same at every call, so the result is
/// the one value that `TypeId::of::<T>()` can return.
#[verifier::external_body]
pub fn type_key_of<T: ?Sized + 'static>() -> (k: TypeId)
    ensures
        k == type_key::<T>(),
{
    TypeId::of::<T>()
}

/// Boxes `v` as a `Box<dyn Any>`.
///
/// Trusted: the dynamic type of the boxed value is `T`.
#[verifier::external_body]
pub fn erase<T: Component>(v: T) -> (e: ErasedComponent)
    ensures
        erased_type_key(e) == type_key::<T>(),
{
    ErasedComponent { value: Box::new(v) }
}

/// `<dyn Any>::downcast_ref::<T>()` on an erased component.
///
/// Trusted: the result is a reference to the held value exactly when the
/// dynamic type of the held value is `T`; `e` is the erasure of the value
/// returned, and of no other value.
#[verifier::external_body]
pub fn downcast_ref<T: Component>(e: &ErasedComponent) -> (r: Option<&T>)
    ensures
        r is Some <==> erased_type_key(*e) == type_key::<T>(),
        r matches Some(y) ==> erases_to(*y, *e),
        forall|x: T| #[trigger] erases_to(x, *e) ==> r == Some(&x),
{
    e.value.downcast_ref::<T>()
}

/// `Box::<dyn Any>::downcast::<T>()` on an erased component, unboxed.
///
/// Trusted: the result is the held value exactly when the dynamic type of the
/// held value is `T`; `e` is the erasure of the value returned, and of no other
/// value.
#[verifier::external_body]
pub fn downcast<T: Component>(e: ErasedComponent) -> (r: Option<T>)
    ensures
        r is Some <==> erased_type_key(e) == type_key::<T>(),
        r matches Some(y) ==> erases_to(y, e),
        forall|x: T| #[trigger] erases_to(x, e) ==> r == Some(x),
{
    match e.value.downcast::<T>() {
        Ok(b) => Some(*b),
        Err(_) => None,
    }
}

/// `<dyn Any>::downcast_mut::<T>()` on an erased component.
///
/// Trusted: the result is a mutable reference to the held value exactly when
/// the dynamic type of the held value is `T`; it refers to the value that `e`
/// is the erasure of, and what is written through it is what `e` holds
/// afterwards (still of type `T`). Otherwise `e` is left as it was.
#[verifier::external_body]
pub fn downcast_mut<T: Component>(e: &mut ErasedComponent) -> (r: Option<&mut T>)
    ensures
        r is Some <==> erased_type_key(*old(e)) == type_key::<T>(),
        r matches Some(y) ==> {
            &&& erases_to(*y, *old(e))
            &&& forall|x: T| #[trigger] erases_to(x, *old(e)) ==> *y == x
            &&& erases_to(*final(y), *final(e))
            &&& erased_type_key(*final(e)) == type_key::<T>()
        },
        r is None ==> *final(e) == *old(e),
{
    e.value.downcast_mut::<T>()
}

/// Errors that can occur when working with components.
#[derive(Debug, Clone, PartialEq, Eq, Structural)]
pub enum ComponentError {
    /// The component already exists for this entity.
    ComponentAlreadyExists,
    /// The component storage for this type is not registered.
    StorageNotRegistered,
    /// The component does not exist for this entity (or the entity is not active).
    ComponentNotFound,
}

/// Storage operations for one component type.
pub trait ComponentStorage<T: Component> {
    /// The stored components, by entity identifier.
    spec fn components(&self) -> Map<u64, T>;

    /// Adds a component to an entity; fails if the entity already has one.
    fn insert(&mut self, entity: Entity, component: T) -> (r: Result<(), ComponentError>)
        ensures
            old(self).components().contains_key(entity.id()) ==> {
                &&& r == Err::<(), ComponentError>(ComponentError::ComponentAlreadyExists)
                &&& final(self).components() == old(self).components()
            },
            !old(self).components().contains_key(entity.id()) ==> {
                &&& r == Ok::<(), ComponentError>(())
                &&& final(self).components() == old(self).components().insert(entity.id(), component)
            },
    ;

    /// Adds a component to an entity, replacing and returning any existing one.
    fn insert_or_update(&mut self, entity: Entity, component: T) -> (r: Option<T>)
        ensures
            final(self).components() == old(self).components().insert(entity.id(), component),
            r == old(self).components().get(entity.id()),
    ;

    /// Removes and returns the component of an entity.
    fn remove(&mut self, entity: Entity) -> (r: Option<T>)
        ensures
            final(self).components() == old(self).components().remove(entity.id()),
            r == old(self).components().get(entity.id()),
    ;

    /// The component of an entity.
    fn get(&self, entity: Entity) -> (r: Option<&T>)
        ensures
            match r {
                Some(c) => self.components().get(entity.id()) == Some(*c),
                None => !self.components().contains_key(entity.id()),
            },
    ;

    /// Mutable access to the component of an entity: what is written through
    /// the reference is the entity's component afterwards.
    fn get_mut(&mut self, entity: Entity) -> (r: Option<&mut T>)
        ensures
            r is Some <==> old(self).components().contains_key(entity.id()),
            r matches Some(x) ==> *x == old(self).components()[entity.id()] && final(self).components()
                == old(self).components().insert(entity.id(), *final(x)),
            r is None ==> final(self).components() == old(self).components(),
    ;

    /// Whether the entity has a component in this storage.
    fn contains(&self, entity: Entity) -> (r: bool)
        ensures
            r == self.components().contains_key(entity.id()),
    ;
}

/// Operations on a storage that do not depend on its component type.
pub trait AnyStorage {
    /// The identifiers of the entities that have a component in this storage.
    spec fn entity_ids(&self) -> Set<u64>;

    /// Removes the component of the given entity, if any.
    fn remove_entity(&mut self, entity: Entity)
        ensures
            final(self).entity_ids() == old(self).entity_ids().remove(entity.id()),
    ;

    /// Removes all components.
    fn clear(&mut self)
        ensures
            final(self).entity_ids() == Set::<u64>::empty(),
    ;
}

/// An entry of a hash map, with the identifier copied out.
pub open spec fn entry_of<'a, T>(q: (&'a u64, &'a T)) -> (u64, &'a T) {
    (*q.0, q.1)
}

/// The entries of a hash map, with the identifiers copied out.
pub open spec fn entries_of<'a, T>(s: Seq<(&'a u64, &'a T)>) -> Seq<(u64, &'a T)> {
    s.map_values(|q: (&'a u64, &'a T)| entry_of(q))
}

/// The identifiers of a list of entries.
pub open spec fn entry_ids<T>(s: Seq<(u64, &T)>) -> Seq<u64> {
    s.map_values(|p: (u64, &T)| p.0)
}

/// A hash-map based storage of components of type `T`, keyed by entity identifier.
#[derive(Debug)]
pub struct HashMapComponentStorage<T> {
    data: HashMap<u64, T>,
}

impl<T> View for HashMapComponentStorage<T> {
    type V = Map<u64, T>;

    closed spec fn view(&self) -> Map<u64, T> {
        self.data@
    }
}

/// `HashMap::with_hasher`: an empty storage whose map hashes with `state`.
///
/// Trusted: the map is empty.
#[verifier::external_body]
fn empty_storage_with<T>(state: RandomState) -> (s: HashMapComponentStorage<T>)
    ensures
        s@.dom() == Set::<u64>::empty(),
{
    HashMapComponentStorage { data: HashMap::with_hasher(state) }
}

impl<T> HashMapComponentStorage<T> {
    /// Creates a new empty storage whose map hashes with `state`.
    pub fn with_hasher(state: RandomState) -> (s: Self)
        ensures
            s@ == Map::<u64, T>::empty(),
    {
        let s = empty_storage_with(state);
        assert(s@ =~= Map::<u64, T>::empty());
        s
    }

    /// Creates a new empty storage.
    pub fn new() -> (s: Self)
        ensures
            s@ == Map::<u64, T>::empty(),
    {
        HashMapComponentStorage { data: HashMap::new() }
    }

    /// Stores `component` for the entity with identifier `id` unless it already
    /// has one.
    pub fn insert_new(&mut self, id: u64, component: T) -> (r: Result<(), ComponentError>)
        ensures
            old(self)@.contains_key(id) ==> {
                &&& r == Err::<(), ComponentError>(ComponentError::ComponentAlreadyExists)
                &&& final(self)@ == old(self)@
            },
            !old(self)@.contains_key(id) ==> {
                &&& r == Ok::<(), ComponentError>(())
                &&& final(self)@ == old(self)@.insert(id, component)
            },
    {
        if self.data.contains_key(&id) {
            Err(ComponentError::ComponentAlreadyExists)
        } else {
            self.data.insert(id, component);
            Ok(())
        }
    }

    /// Stores `component` for `id`, returning the component it replaces.
    pub fn put(&mut self, id: u64, component: T) -> (r: Option<T>)
        ensures
            final(self)@ == old(self)@.insert(id, component),
            r == old(self)@.get(id),
    {
        self.data.insert(id, component)
    }

    /// Removes and returns the component stored for `id`.
    pub fn take(&mut self, id: u64) -> (r: Option<T>)
        ensures
            final(self)@ == old(self)@.remove(id),
            r == old(self)@.get(id),
    {
        self.data.remove(&id)
    }

    /// The component stored for `id`.
    pub fn lookup(&self, id: u64) -> (r: Option<&T>)
        ensures
            match r {
                Some(c) => self@.get(id) == Some(*c),
                None => !self@.contains_key(id),
            },
    {
        self.data.get(&id)
    }

    /// Mutable access to the component stored for `id`: what is written
    /// through the reference is what the storage holds for `id` afterwards.
    pub fn lookup_mut(&mut self, id: u64) -> (r: Option<&mut T>)
        ensures
            r is Some <==> old(self)@.contains_key(id),
            r matches Some(x) ==> *x == old(self)@[id] && final(self)@ == old(self)@.insert(id, *final(x)),
            r is None ==> final(self)@ == old(self)@,
    {
        match self.data.entry(id) {
            Entry::Occupied(o) => Some(o.into_mut()),
            Entry::Vacant(_) => None,
        }
    }

    /// Whether a component is stored for `id`.
    pub fn has(&self, id: u64) -> (r: bool)
        ensures
            r == self@.contains_key(id),
    {
        self.data.contains_key(&id)
    }

    /// Removes every component.
    pub fn remove_all(&mut self)
        ensures
            final(self)@ == Map::<u64, T>::empty(),
    {
        self.data.clear();
    }

    /// Each identifier that has a component, with its component, each
    /// identifier once.
    pub fn entries(&self) -> (r: Vec<(u64, &T)>)
        ensures
            entry_ids(r@).no_duplicates(),
            entry_ids(r@).to_set() == self@.dom(),
            forall|i: int| 0 <= i < r@.len() ==> #[trigger] self@[r@[i].0] == *r@[i].1,
    {
        let mut out: Vec<(u64, &T)> = Vec::with_capacity(self.data.len());
        let ghost items = vstd::std_specs::hash::spec_hash_map_iter(&self.data).remaining();
        for p in it: self.data.iter()
            invariant
                it.seq() == items,
                out@ == entries_of(it.seq().take(it.index() as int)),
        {
            proof {
                let t = it.seq().take(it.index() as int);
                assert(it.seq().take(it.index() + 1 as int) =~= t.push(it.seq()[it.index() as int]));
                assert(entries_of(t.push(it.seq()[it.index() as int])) =~= entries_of(t).push(
                    entry_of(it.seq()[it.index() as int]),
                ));
            }
            out.push((*p.0, p.1));
        }
        proof {
            assert(items.take(items.len() as int) =~= items);
            let m = self.data@;
            let ids = entry_ids(out@);
            assert forall|i: int, j: int| 0 <= i < ids.len() && 0 <= j < ids.len() && i != j implies ids[i]
                != ids[j] by {
                if ids[i] == ids[j] {
                    assert(m.contains_key(*items[i].0) && m[*items[i].0] == *items[i].1);
                    assert(m.contains_key(*items[j].0) && m[*items[j].0] == *items[j].1);
                    assert(items[i] == items[j]);
                }
            }
            assert forall|k: u64| #[trigger] ids.to_set().contains(k) <==> m.dom().contains(k) by {
                if m.dom().contains(k) {
                    assert(items.contains((&k, &m[k])));
                    let i = items.index_of((&k, &m[k]));
                    assert(ids[i] == k);
                }
                if ids.to_set().contains(k) {
                    let i = ids.index_of(k);
                    assert(m.contains_key(*items[i].0));
                }
            }
            assert(ids.to_set() =~= m.dom());
            assert forall|i: int| 0 <= i < out@.len() implies #[trigger] m[out@[i].0] == *out@[i].1 by {
                assert(m.contains_key(*items[i].0) && m[*items[i].0] == *items[i].1);
            }
        }
        out
    }

    /// The identifiers of the entities that have a component, each once.
    pub fn ids(&self) -> (r: Vec<u64>)
        ensures
            r@.to_set() == self@.dom(),
            r@.no_duplicates(),
    {
        let mut out: Vec<u64> = Vec::new();
        let ghost keys = vstd::std_specs::hash::spec_keys_iter(&self.data).remaining();
        for k in it: self.data.keys()
            invariant
                it.seq() == keys,
                out@ == it.seq().take(it.index() as int).unref(),
        {
            out.push(*k);
        }
        proof {
            assert(out@ =~= keys.unref());
        }
        out
    }
}

impl<T: Component> ComponentStorage<T> for HashMapComponentStorage<T> {
    open spec fn components(&self) -> Map<u64, T> {
        self@
    }

    fn insert(&mut self, entity: Entity, component: T) -> (r: Result<(), ComponentError>) {
        self.insert_new(entity.raw_id(), component)
    }

    fn insert_or_update(&mut self, entity: Entity, component: T) -> (r: Option<T>) {
        self.put(entity.raw_id(), component)
    }

    fn remove(&mut self, entity: Entity) -> (r: Option<T>) {
        self.take(entity.raw_id())
    }

    fn get(&self, entity: Entity) -> (r: Option<&T>) {
        self.lookup(entity.raw_id())
    }

    fn get_mut(&mut self, entity: Entity) -> (r: Option<&mut T>) {
        self.lookup_mut(entity.raw_id())
    }

    fn contains(&self, entity: Entity) -> (r: bool) {
        self.has(entity.raw_id())
    }
}

impl<T: Component> AnyStorage for HashMapComponentStorage<T> {
    open spec fn entity_ids(&self) -> Set<u64> {
        self@.dom()
    }

    fn remove_entity(&mut self, entity: Entity) {
        let _ = self.take(entity.raw_id());
    }

    fn clear(&mut self) {
        self.remove_all();
    }
}

} // verus!
