//! The world: entities, their components, ephemeral components and resources.

use crate::component::{
    Component, ComponentError, ErasedComponent, HashMapComponentStorage, downcast, downcast_mut, downcast_ref, entry_ids, erase,
    erased_type_key, erases_to, type_key, type_key_of,
};
use crate::entity::{Entity, clone_state, hash_with, new_random_state};
use crate::type_key::same_type_key;
use std::any::TypeId;
use std::collections::HashSet;
use std::collections::hash_map::RandomState;
use std::marker::PhantomData;
use vstd::prelude::*;
use vstd::std_specs::iter::IteratorSpec;

verus! {

broadcast use vstd::std_specs::hash::group_hash_axioms;

/// Component tables: for each registered component type, the erased component
/// of each entity that has one.
pub type Tables = Map<TypeId, Map<u64, ErasedComponent>>;

/// The abstract state of a [`World`].
pub struct WorldView {
    /// Identifiers of the active entities.
    pub active: Set<u64>,
    /// Identifiers of deleted entities whose component data awaits cleanup.
    pub pending: Set<u64>,
    /// Regular component tables (resources included, under `resource_id`).
    pub components: Tables,
    /// Ephemeral component tables.
    pub ephemeral: Tables,
    /// The identifier under which resources are stored.
    pub resource_id: u64,
    /// Identifiers of every entity this world has spawned, deleted ones included.
    pub spawned: Set<u64>,
    /// How many more entities this world can spawn.
    pub spawns_left: nat,
}

/// The table of `k` in `tables`, empty when `k` is not registered.
pub open spec fn table_of(tables: Tables, k: TypeId) -> Map<u64, ErasedComponent> {
    if tables.contains_key(k) {
        tables[k]
    } else {
        Map::empty()
    }
}

/// Whether `tables` holds an entry for `id` under `k`.
pub open spec fn holds(tables: Tables, k: TypeId, id: u64) -> bool {
    tables.contains_key(k) && tables[k].contains_key(id)
}

/// `tables` with `v` stored for `id` under `k` (registering `k` if needed).
pub open spec fn store(tables: Tables, k: TypeId, id: u64, v: ErasedComponent) -> Tables {
    tables.insert(k, table_of(tables, k).insert(id, v))
}

/// `tables` with the entry of `id` under `k` removed (registering `k` if needed).
pub open spec fn unstore(tables: Tables, k: TypeId, id: u64) -> Tables {
    tables.insert(k, table_of(tables, k).remove(id))
}

/// `tables` with `k` registered.
pub open spec fn register(tables: Tables, k: TypeId) -> Tables {
    tables.insert(k, table_of(tables, k))
}

/// `r` is the decoding of the entry of `id` under the type of `T`: present
/// exactly when there is such an entry, and then the value whose erasure the
/// entry is.
pub open spec fn typed_result<T: Component>(tables: Tables, id: u64, r: Option<T>) -> bool {
    &&& (r is Some <==> holds(tables, type_key::<T>(), id))
    &&& (r matches Some(c) ==> erases_to(c, tables[type_key::<T>()][id]))
    &&& forall|x: T| #[trigger] erases_to(x, tables[type_key::<T>()][id]) && holds(tables, type_key::<T>(), id)
        ==> r == Some(x)
}

/// `r` is a clone of the decoding of the entry of `id` under the type of `T`.
pub open spec fn cloned_result<T: Component + Clone>(tables: Tables, id: u64, r: Option<T>) -> bool {
    &&& (r is Some <==> holds(tables, type_key::<T>(), id))
    &&& (r matches Some(y) ==> exists|x: T| #[trigger] erases_to(x, tables[type_key::<T>()][id]) && cloned(x, y))
    &&& forall|x: T| #[trigger] erases_to(x, tables[type_key::<T>()][id]) && holds(tables, type_key::<T>(), id)
        ==> (r matches Some(y) && cloned(x, y))
}

/// Dereferences the value of an optional reference.
pub open spec fn deref_opt<T>(o: Option<&T>) -> Option<T> {
    match o {
        Some(x) => Some(*x),
        None => None,
    }
}

impl WorldView {
    /// Whether `e` is active.
    pub open spec fn is_active(self, e: Entity) -> bool {
        self.active.contains(e.id())
    }

    /// `r` is the component of type `T` of `e`, as the world's component API
    /// gives it (`None` when `e` is not active).
    pub open spec fn component_result<T: Component>(self, e: Entity, r: Option<T>) -> bool {
        if self.is_active(e) {
            typed_result::<T>(self.components, e.id(), r)
        } else {
            r is None
        }
    }

    /// Whether `e` has a component of type `T`, as the world's component API sees it.
    pub open spec fn has_component<T: Component>(self, e: Entity) -> bool {
        self.is_active(e) && holds(self.components, type_key::<T>(), e.id())
    }

    /// `r` is the ephemeral component of type `T` of `e` (`None` when `e` is not active).
    pub open spec fn ephemeral_result<T: Component>(self, e: Entity, r: Option<T>) -> bool {
        if self.is_active(e) {
            typed_result::<T>(self.ephemeral, e.id(), r)
        } else {
            r is None
        }
    }

    /// Whether `e` has an ephemeral component of type `T`.
    pub open spec fn has_ephemeral_component<T: Component>(self, e: Entity) -> bool {
        self.is_active(e) && holds(self.ephemeral, type_key::<T>(), e.id())
    }

    /// `r` is the resource of type `T`.
    pub open spec fn resource_result<T: Component>(self, r: Option<T>) -> bool {
        typed_result::<T>(self.components, self.resource_id, r)
    }

    /// Whether a resource of type `T` exists.
    pub open spec fn has_resource<T: Component>(self) -> bool {
        holds(self.components, type_key::<T>(), self.resource_id)
    }

    /// This view with other component tables.
    pub open spec fn with_components(self, components: Tables) -> WorldView {
        WorldView { components, ..self }
    }

    /// This view with other ephemeral tables.
    pub open spec fn with_ephemeral(self, ephemeral: Tables) -> WorldView {
        WorldView { ephemeral, ..self }
    }

    /// This view once the component data of deleted entities is dropped.
    pub open spec fn after_cleanup(self) -> WorldView {
        WorldView { pending: Set::empty(), components: drop_ids(self.components, self.pending), ..self }
    }
}

/// The identifiers of a sequence of entities.
pub open spec fn entity_ids(s: Seq<Entity>) -> Seq<u64> {
    s.map_values(|e: Entity| e.id())
}

/// The table view of parallel vectors of type identities and storages.
pub open spec fn table_view(keys: Seq<TypeId>, storages: Seq<HashMapComponentStorage<ErasedComponent>>) -> Tables {
    Map::new(|k: TypeId| keys.contains(k), |k: TypeId| storages[keys.index_of(k)]@)
}

/// Number of identifiers in the 64-bit space.
pub open spec fn id_space() -> int {
    0x1_0000_0000_0000_0000
}

/// The position of `id` in the identifier sequence of a world starting at `base`.
pub open spec fn id_index(base: u64, id: u64) -> int {
    if id >= base {
        id - base
    } else {
        id + id_space() - base
    }
}

/// Distinct identifiers have distinct positions.
proof fn lemma_id_index_injective(base: u64, a: u64, b: u64)
    ensures
        id_index(base, a) == id_index(base, b) ==> a == b,
        0 <= id_index(base, a) < id_space(),
{
}

/// The central container that manages entities, components and resources.
pub struct World {
    /// First identifier of this world; identifiers are handed out in sequence from it.
    base: u64,
    /// Number of identifiers handed out (the resource identifier is the first).
    issued: u64,
    /// Active entity identifiers.
    entities: HashSet<u64>,
    /// Deleted entity identifiers whose components await cleanup.
    soft_deleted_entities: HashSet<u64>,
    /// Type identities of the registered component storages.
    component_keys: Vec<TypeId>,
    /// Component storages, parallel to `component_keys`.
    component_storages: Vec<HashMapComponentStorage<ErasedComponent>>,
    /// Type identities of the registered ephemeral storages.
    ephemeral_keys: Vec<TypeId>,
    /// Ephemeral storages, parallel to `ephemeral_keys`.
    ephemeral_storages: Vec<HashMapComponentStorage<ErasedComponent>>,
    /// The hasher of every storage of this world (one seed for all of them,
    /// so that storages are laid out alike and walking one while looking up
    /// the same identifiers in another touches memory in step).
    hasher: RandomState,
}

impl View for World {
    type V = WorldView;

    closed spec fn view(&self) -> WorldView {
        WorldView {
            active: self.entities@,
            pending: self.soft_deleted_entities@,
            components: table_view(self.component_keys@, self.component_storages@),
            ephemeral: table_view(self.ephemeral_keys@, self.ephemeral_storages@),
            resource_id: self.base,
            spawned: Set::new(|id: u64| 1 <= id_index(self.base, id) < self.issued),
            spawns_left: (u64::MAX - self.issued) as nat,
        }
    }
}

/// Every entry of `tables` is held under the type identity of its value.
pub open spec fn tables_typed(tables: Tables) -> bool {
    forall|k: TypeId, id: u64| #[trigger] holds(tables, k, id) ==> erased_type_key(tables[k][id]) == k
}

/// Every identifier in `tables` is one of `live`.
pub open spec fn tables_within(tables: Tables, live: Set<u64>) -> bool {
    forall|k: TypeId, id: u64| #[trigger] holds(tables, k, id) ==> live.contains(id)
}

/// Every identifier in `tables` was handed out before position `issued`.
pub open spec fn tables_issued(tables: Tables, base: u64, issued: int) -> bool {
    forall|k: TypeId, id: u64| #[trigger] holds(tables, k, id) ==> id_index(base, id) < issued
}

impl World {
    /// Internal consistency of a world.
    pub closed spec fn wf(&self) -> bool {
        &&& self.component_keys@.len() == self.component_storages@.len()
        &&& self.component_keys@.no_duplicates()
        &&& self.ephemeral_keys@.len() == self.ephemeral_storages@.len()
        &&& self.ephemeral_keys@.no_duplicates()
        &&& 1 <= self.issued
        &&& self@.active.disjoint(self@.pending)
        &&& forall|id: u64| #[trigger] self@.active.contains(id) ==>
            1 <= id_index(self.base, id) < self.issued
        &&& forall|id: u64| #[trigger] self@.pending.contains(id) ==>
            1 <= id_index(self.base, id) < self.issued
        &&& tables_typed(self@.components)
        &&& tables_typed(self@.ephemeral)
        &&& tables_issued(self@.components, self.base, self.issued as int)
        &&& tables_issued(self@.ephemeral, self.base, self.issued as int)
        &&& tables_within(self@.components, self@.active.union(self@.pending).insert(self.base))
    }

    /// Whether another entity can be spawned.
    pub open spec fn can_spawn(&self) -> bool {
        self@.spawns_left > 0
    }
}

/// Resources live apart from entities, and every live or deleted entity was
/// spawned by the world: no active or deleted entity has the identifier under
/// which resources are kept, so writing a resource never changes a component
/// of an entity, and the reverse.
pub proof fn law_resources_apart_from_entities(w: &World, e: Entity)
    requires
        w.wf(),
    ensures
        w@.active.subset_of(w@.spawned),
        w@.pending.subset_of(w@.spawned),
        !w@.spawned.contains(w@.resource_id),
        w@.is_active(e) ==> e.id() != w@.resource_id,
        w@.pending.contains(e.id()) ==> e.id() != w@.resource_id,
{
    assert(id_index(w.base, w.base) == 0);
}

/// Looking up a registered type identity in the table view finds its storage.
pub proof fn lemma_table_lookup(keys: Seq<TypeId>, storages: Seq<HashMapComponentStorage<ErasedComponent>>, i: int)
    requires
        keys.len() == storages.len(),
        keys.no_duplicates(),
        0 <= i < keys.len(),
    ensures
        table_view(keys, storages).contains_key(keys[i]),
        table_view(keys, storages)[keys[i]] == storages[i]@,
{
    assert(keys.contains(keys[i]));
    let j = keys.index_of(keys[i]);
    assert(0 <= j < keys.len() && keys[j] == keys[i]);
}

/// Replacing one storage replaces its table in the view.
pub proof fn lemma_table_update(
    keys: Seq<TypeId>,
    storages: Seq<HashMapComponentStorage<ErasedComponent>>,
    i: int,
    s: HashMapComponentStorage<ErasedComponent>,
)
    requires
        keys.len() == storages.len(),
        keys.no_duplicates(),
        0 <= i < keys.len(),
    ensures
        table_view(keys, storages.update(i, s)) == table_view(keys, storages).insert(keys[i], s@),
{
    let a = table_view(keys, storages.update(i, s));
    let b = table_view(keys, storages).insert(keys[i], s@);
    assert forall|k: TypeId| #[trigger] a.contains_key(k) implies a[k] == b[k] by {
        let j = keys.index_of(k);
        if j == i {
        } else {
            assert(keys[j] != keys[i]);
        }
    }
    assert(keys.contains(keys[i]));
    assert(a =~= b);
}

/// Registering a new type identity adds its table to the view.
pub proof fn lemma_table_push(
    keys: Seq<TypeId>,
    storages: Seq<HashMapComponentStorage<ErasedComponent>>,
    k: TypeId,
    s: HashMapComponentStorage<ErasedComponent>,
)
    requires
        keys.len() == storages.len(),
        keys.no_duplicates(),
        !keys.contains(k),
    ensures
        keys.push(k).no_duplicates(),
        table_view(keys.push(k), storages.push(s)) == table_view(keys, storages).insert(k, s@),
{
    let keys2 = keys.push(k);
    let st2 = storages.push(s);
    assert forall|a: int, b: int| 0 <= a < b < keys2.len() implies keys2[a] != keys2[b] by {
        if b == keys.len() {
            assert(keys.contains(keys[a]));
        }
    }
    let x = table_view(keys2, st2);
    let y = table_view(keys, storages).insert(k, s@);
    assert forall|q: TypeId| #[trigger] x.contains_key(q) implies x[q] == y[q] by {
        let j = keys2.index_of(q);
        if q == k {
            assert(keys2[keys.len() as int] == k);
            if j != keys.len() {
                assert(keys.contains(k));
            }
        } else {
            assert(j < keys.len());
            assert(keys.contains(q));
            let j0 = keys.index_of(q);
            assert(keys2[j0] == q);
        }
    }
    assert forall|q: TypeId| #[trigger] y.contains_key(q) implies x.contains_key(q) by {
        if q != k {
            let j0 = keys.index_of(q);
            assert(keys2[j0] == q);
        } else {
            assert(keys2[keys.len() as int] == k);
        }
    }
    assert(x =~= y);
}

/// The table view of no storages is empty.
pub proof fn lemma_table_empty()
    ensures
        table_view(Seq::<TypeId>::empty(), Seq::<HashMapComponentStorage<ErasedComponent>>::empty())
            == Map::<TypeId, Map<u64, ErasedComponent>>::empty(),
{
    assert(table_view(Seq::<TypeId>::empty(), Seq::<HashMapComponentStorage<ErasedComponent>>::empty())
        =~= Map::<TypeId, Map<u64, ErasedComponent>>::empty());
}

/// An element of a pushed sequence is the pushed element or an element of the sequence before the push.
pub proof fn lemma_push_contains<A>(s: Seq<A>, a: A, x: A)
    ensures
        s.push(a).contains(x) <==> (s.contains(x) || x == a),
{
    if s.push(a).contains(x) && x != a {
        let t = s.push(a).index_of(x);
        assert(s[t] == x);
    }
    if s.contains(x) {
        let t = s.index_of(x);
        assert(s.push(a)[t] == x);
    }
    if x == a {
        assert(s.push(a)[s.len() as int] == a);
    }
}

/// Finds the position of `k` in `keys`.
fn find_key(keys: &Vec<TypeId>, k: &TypeId) -> (r: Option<usize>)
    ensures
        match r {
            Some(i) => i < keys@.len() && keys@[i as int] == *k,
            None => !keys@.contains(*k),
        },
{
    let mut i: usize = 0;
    while i < keys.len()
        invariant
            i <= keys@.len(),
            forall|j: int| 0 <= j < i ==> keys@[j] != *k,
        decreases keys@.len() - i,
    {
        if same_type_key(&keys[i], k) {
            return Some(i);
        }
        i = i + 1;
    }
    None
}

/// The elements of a set of identifiers, each once.
fn set_elements(s: &HashSet<u64>) -> (r: Vec<u64>)
    ensures
        r@.to_set() == s@,
        r@.no_duplicates(),
{
    let mut out: Vec<u64> = Vec::new();
    let ghost elems = vstd::std_specs::hash::spec_hash_keys_iter(s).remaining();
    for x in it: s.iter()
        invariant
            it.seq() == elems,
            out@ == it.seq().take(it.index() as int).unref(),
    {
        out.push(*x);
    }
    proof {
        assert(out@ =~= elems.unref());
    }
    out
}

impl World {
    /// Creates a new empty world.
    pub fn new() -> (w: World)
        ensures
            w.wf(),
            w.can_spawn(),
            w@.active == Set::<u64>::empty(),
            w@.pending == Set::<u64>::empty(),
            w@.spawned == Set::<u64>::empty(),
            w@.spawns_left == u64::MAX - 1,
            w@.components == Map::<TypeId, Map<u64, ErasedComponent>>::empty(),
            w@.ephemeral == Map::<TypeId, Map<u64, ErasedComponent>>::empty(),
    {
        let hasher = new_random_state();
        let base = hash_with(&hasher, 0);
        let w = World {
            base,
            hasher,
            issued: 1,
            entities: HashSet::new(),
            soft_deleted_entities: HashSet::new(),
            component_keys: Vec::new(),
            component_storages: Vec::new(),
            ephemeral_keys: Vec::new(),
            ephemeral_storages: Vec::new(),
        };
        proof {
            lemma_table_empty();
            assert(w@.spawned =~= Set::<u64>::empty());
        }
        w
    }

    /// Spawns a new entity: an identifier that this world has never handed out
    /// (not to a live entity, nor to a deleted one, nor as its resource
    /// identifier), active, with no components.
    pub fn spawn_entity(&mut self) -> (e: Entity)
        requires
            old(self).wf(),
            old(self).can_spawn(),
        ensures
            final(self).wf(),
            !old(self)@.active.contains(e.id()),
            !old(self)@.pending.contains(e.id()),
            e.id() != old(self)@.resource_id,
            forall|k: TypeId| !holds(old(self)@.components, k, e.id()),
            forall|k: TypeId| !holds(old(self)@.ephemeral, k, e.id()),
            !old(self)@.spawned.contains(e.id()),
            final(self)@ == (WorldView {
                active: old(self)@.active.insert(e.id()),
                spawned: old(self)@.spawned.insert(e.id()),
                spawns_left: (old(self)@.spawns_left - 1) as nat,
                ..old(self)@
            }),
    {
        let id: u64 = if self.issued <= u64::MAX - self.base {
            self.base + self.issued
        } else {
            self.issued - (u64::MAX - self.base) - 1
        };
        assert(id_index(self.base, id) == self.issued);
        let ghost before = self@;
        self.entities.insert(id);
        self.issued = self.issued + 1;
        proof {
            assert forall|x: u64| #[trigger] self@.spawned.contains(x) == before.spawned.insert(id).contains(x) by {
                lemma_id_index_injective(self.base, x, id);
            }
            assert(self@.spawned =~= before.spawned.insert(id));
        }
        Entity::from_id(id)
    }

    /// Whether an entity is active (spawned in this world and not deleted).
    pub fn is_entity_active(&self, entity: Entity) -> (r: bool)
        requires
            self.wf(),
        ensures
            r == self@.is_active(entity),
    {
        self.entities.contains(&entity.raw_id())
    }

    /// All active entities, each once, in no particular order.
    pub fn entities(&self) -> (r: Vec<Entity>)
        requires
            self.wf(),
        ensures
            entity_ids(r@).to_set() == self@.active,
            entity_ids(r@).no_duplicates(),
    {
        let ids = set_elements(&self.entities);
        let mut out: Vec<Entity> = Vec::new();
        let mut i: usize = 0;
        while i < ids.len()
            invariant
                i <= ids@.len(),
                out@.len() == i,
                forall|j: int| 0 <= j < i ==> #[trigger] out@[j].id() == ids@[j],
            decreases ids@.len() - i,
        {
            let e = Entity::from_id(ids[i]);
            out.push(e);
            i = i + 1;
        }
        assert(entity_ids(out@) =~= ids@);
        out
    }

    /// Deletes an entity: it is no longer active, and its component data is
    /// dropped at the next cleanup. Deleting an inactive entity does nothing.
    pub fn delete_entity(&mut self, entity: Entity)
        requires
            old(self).wf(),
        ensures
            final(self).wf(),
            old(self)@.active.contains(entity.id()) ==> final(self)@ == (WorldView {
                active: old(self)@.active.remove(entity.id()),
                pending: old(self)@.pending.insert(entity.id()),
                ..old(self)@
            }),
            !old(self)@.active.contains(entity.id()) ==> final(self)@ == old(self)@,
    {
        let id = entity.raw_id();
        if self.entities.contains(&id) {
            self.entities.remove(&id);
            self.soft_deleted_entities.insert(id);
        }
    }
}

/// `tables` with the entries of the identifiers in `ids` removed from every table.
pub open spec fn drop_ids(tables: Tables, ids: Set<u64>) -> Tables {
    tables.map_values(|t: Map<u64, ErasedComponent>| t.remove_keys(ids))
}

/// Every entry of `small` is an entry of `big`.
pub open spec fn sub_tables(small: Tables, big: Tables) -> bool {
    forall|k: TypeId, id: u64| #[trigger] holds(small, k, id) ==> holds(big, k, id) && small[k][id] == big[k][id]
}

/// Dropping entries keeps the consistency facts of the remaining ones.
pub proof fn lemma_sub_tables(small: Tables, big: Tables, base: u64, issued: int)
    requires
        sub_tables(small, big),
    ensures
        tables_typed(big) ==> tables_typed(small),
        tables_issued(big, base, issued) ==> tables_issued(small, base, issued),
        forall|live: Set<u64>| tables_within(big, live) ==> #[trigger] tables_within(small, live),
{
    assert forall|k: TypeId, id: u64| #[trigger] holds(small, k, id) implies holds(big, k, id) by {}
}

/// Dropping identifiers gives a sub-table.
pub proof fn lemma_drop_ids_sub(tables: Tables, ids: Set<u64>)
    ensures
        sub_tables(drop_ids(tables, ids), tables),
{
}

impl World {
    /// Drops the component data of deleted entities from every component storage
    /// (ephemeral storages are left alone). Active entities are untouched, and a
    /// second call does nothing more.
    pub fn cleanup_deleted_entities(&mut self)
        requires
            old(self).wf(),
        ensures
            final(self).wf(),
            final(self)@ == old(self)@.after_cleanup(),
    {
        let ids = set_elements(&self.soft_deleted_entities);
        let ghost pending = self.soft_deleted_entities@;
        let ghost old_storages = self.component_storages@;
        let mut j: usize = 0;
        while j < self.component_storages.len()
            invariant
                self.component_storages@.len() == old_storages.len(),
                old_storages == old(self).component_storages@,
                self.component_keys == old(self).component_keys,
                self.ephemeral_keys == old(self).ephemeral_keys,
                self.ephemeral_storages == old(self).ephemeral_storages,
                self.entities == old(self).entities,
                self.soft_deleted_entities == old(self).soft_deleted_entities,
                self.base == old(self).base,
                self.issued == old(self).issued,
                j <= old_storages.len(),
                ids@.to_set() == pending,
                forall|t: int| 0 <= t < j ==> #[trigger] self.component_storages@[t]@
                    == old_storages[t]@.remove_keys(pending),
                forall|t: int| j <= t < old_storages.len() ==> #[trigger] self.component_storages@[t]
                    == old_storages[t],
            decreases old_storages.len() - j,
        {
            let ghost before = self.component_storages@;
            let mut i: usize = 0;
            while i < ids.len()
                invariant
                    self.component_storages@.len() == old_storages.len(),
                    before[j as int] == old_storages[j as int],
                    self.component_keys == old(self).component_keys,
                    self.ephemeral_keys == old(self).ephemeral_keys,
                    self.ephemeral_storages == old(self).ephemeral_storages,
                    self.entities == old(self).entities,
                    self.soft_deleted_entities == old(self).soft_deleted_entities,
                    self.base == old(self).base,
                    self.issued == old(self).issued,
                    j < old_storages.len(),
                    i <= ids@.len(),
                    self.component_storages@[j as int]@ == old_storages[j as int]@.remove_keys(
                        ids@.take(i as int).to_set(),
                    ),
                    forall|t: int| 0 <= t < old_storages.len() && t != j ==> #[trigger] self.component_storages@[t]
                        == before[t],
                decreases ids@.len() - i,
            {
                let _ = self.component_storages[j].take(ids[i]);
                assert(ids@.take(i + 1 as int) =~= ids@.take(i as int).push(ids@[i as int]));
                proof {
                    ids@.take(i as int).lemma_push_to_set_commute(ids@[i as int]);
                }
                i = i + 1;
            }
            assert(ids@.take(i as int) =~= ids@);
            j = j + 1;
        }
        self.soft_deleted_entities.clear();
        proof {
            let keys = self.component_keys@;
            let new_t = table_view(keys, self.component_storages@);
            let old_t = table_view(keys, old_storages);
            assert forall|k: TypeId| #[trigger] new_t.contains_key(k) implies new_t[k]
                == old_t[k].remove_keys(pending) by {
                let x = keys.index_of(k);
                assert(0 <= x < keys.len());
            }
            assert(new_t =~= drop_ids(old_t, pending));
            lemma_drop_ids_sub(old_t, pending);
            lemma_sub_tables(new_t, old_t, self.base, self.issued as int);
        }
    }
}

/// `after` is `before` with a value that decodes to `c` stored for `id` under
/// the type of `T`.
pub open spec fn stores_typed<T: Component>(after: Tables, before: Tables, id: u64, c: T) -> bool {
    exists|v: ErasedComponent|
        #![trigger store(before, type_key::<T>(), id, v)]
        after == store(before, type_key::<T>(), id, v) && erases_to(c, v)
}

/// Storing a value of the right type for an issued identifier keeps the
/// consistency facts.
pub proof fn lemma_store_keeps(tables: Tables, k: TypeId, id: u64, v: ErasedComponent, base: u64, issued: int)
    requires
        tables_typed(tables),
        tables_issued(tables, base, issued),
        erased_type_key(v) == k,
        id_index(base, id) < issued,
    ensures
        tables_typed(store(tables, k, id, v)),
        tables_issued(store(tables, k, id, v), base, issued),
        forall|live: Set<u64>| tables_within(tables, live) && live.contains(id) ==> #[trigger] tables_within(
            store(tables, k, id, v),
            live,
        ),
{
    let t = store(tables, k, id, v);
    assert forall|live: Set<u64>| tables_within(tables, live) && live.contains(id) implies #[trigger] tables_within(
        t,
        live,
    ) by {
        assert forall|k2: TypeId, id2: u64| #[trigger] holds(t, k2, id2) implies live.contains(id2) by {
            if !(k2 == k && id2 == id) {
                assert(holds(tables, k2, id2));
            }
        }
    }
    assert forall|k2: TypeId, id2: u64| #[trigger] holds(t, k2, id2) implies erased_type_key(t[k2][id2]) == k2
        && id_index(base, id2) < issued by {
        if k2 == k && id2 == id {
        } else {
            assert(holds(tables, k2, id2));
        }
    }
}

/// Replacing any one storage replaces its table in the view.
proof fn lemma_table_update_all(keys: Seq<TypeId>, storages: Seq<HashMapComponentStorage<ErasedComponent>>, i: int)
    requires
        keys.len() == storages.len(),
        keys.no_duplicates(),
        0 <= i < keys.len(),
    ensures
        forall|s: HashMapComponentStorage<ErasedComponent>| #[trigger] table_view(keys, storages.update(i, s))
            == table_view(keys, storages).insert(keys[i], s@),
{
    assert forall|s: HashMapComponentStorage<ErasedComponent>| #[trigger] table_view(keys, storages.update(i, s))
        == table_view(keys, storages).insert(keys[i], s@) by {
        lemma_table_update(keys, storages, i, s);
    }
}

/// Writing a value of the right type into the storage at position `i` for an
/// identifier it holds stores it in the view and keeps the consistency facts.
proof fn lemma_store_through(
    keys: Seq<TypeId>,
    storages: Seq<HashMapComponentStorage<ErasedComponent>>,
    i: int,
    id: u64,
    base: u64,
    issued: int,
    live: Set<u64>,
)
    requires
        keys.len() == storages.len(),
        keys.no_duplicates(),
        0 <= i < keys.len(),
        tables_typed(table_view(keys, storages)),
        tables_issued(table_view(keys, storages), base, issued),
        holds(table_view(keys, storages), keys[i], id),
        tables_within(table_view(keys, storages), live),
    ensures
        forall|s: HashMapComponentStorage<ErasedComponent>, v: ErasedComponent|
            #![trigger storages.update(i, s), storages[i]@.insert(id, v)]
            s@ == storages[i]@.insert(id, v) && erased_type_key(v) == keys[i] ==> {
                &&& table_view(keys, storages.update(i, s)) == store(table_view(keys, storages), keys[i], id, v)
                &&& tables_typed(store(table_view(keys, storages), keys[i], id, v))
                &&& tables_issued(store(table_view(keys, storages), keys[i], id, v), base, issued)
                &&& tables_within(store(table_view(keys, storages), keys[i], id, v), live)
            },
{
    lemma_table_lookup(keys, storages, i);
    assert forall|s: HashMapComponentStorage<ErasedComponent>, v: ErasedComponent|
        #![trigger storages.update(i, s), storages[i]@.insert(id, v)]
        s@ == storages[i]@.insert(id, v) && erased_type_key(v) == keys[i] implies {
            &&& table_view(keys, storages.update(i, s)) == store(table_view(keys, storages), keys[i], id, v)
            &&& tables_typed(store(table_view(keys, storages), keys[i], id, v))
            &&& tables_issued(store(table_view(keys, storages), keys[i], id, v), base, issued)
            &&& tables_within(store(table_view(keys, storages), keys[i], id, v), live)
        } by {
        lemma_table_update(keys, storages, i, s);
        lemma_store_keeps(table_view(keys, storages), keys[i], id, v, base, issued);
    }
}

/// Registering a type identity or removing an entry keeps the consistency facts.
pub proof fn lemma_unstore_register_keep(tables: Tables, k: TypeId, id: u64, base: u64, issued: int)
    requires
        tables_typed(tables),
        tables_issued(tables, base, issued),
    ensures
        tables_typed(unstore(tables, k, id)),
        tables_issued(unstore(tables, k, id), base, issued),
        tables_typed(register(tables, k)),
        tables_issued(register(tables, k), base, issued),
        forall|live: Set<u64>| tables_within(tables, live) ==> #[trigger] tables_within(unstore(tables, k, id), live),
        forall|live: Set<u64>| tables_within(tables, live) ==> #[trigger] tables_within(register(tables, k), live),
{
    assert(sub_tables(unstore(tables, k, id), tables));
    assert(sub_tables(register(tables, k), tables));
    lemma_sub_tables(unstore(tables, k, id), tables, base, issued);
    lemma_sub_tables(register(tables, k), tables, base, issued);
}

/// Registering an already registered type identity changes nothing.
pub proof fn lemma_register_present(tables: Tables, k: TypeId)
    requires
        tables.contains_key(k),
    ensures
        register(tables, k) == tables,
{
    assert(register(tables, k) =~= tables);
}

/// The position of the storage for `k`, registering an empty one if needed.
fn slot_in(
    keys: &mut Vec<TypeId>,
    storages: &mut Vec<HashMapComponentStorage<ErasedComponent>>,
    k: TypeId,
    hasher: &RandomState,
) -> (i: usize)
    requires
        old(keys)@.len() == old(storages)@.len(),
        old(keys)@.no_duplicates(),
    ensures
        final(keys)@.len() == final(storages)@.len(),
        final(keys)@.no_duplicates(),
        i < final(keys)@.len(),
        final(keys)@[i as int] == k,
        table_view(final(keys)@, final(storages)@) == register(table_view(old(keys)@, old(storages)@), k),
{
    match find_key(keys, &k) {
        Some(i) => {
            proof {
                lemma_table_lookup(keys@, storages@, i as int);
                lemma_register_present(table_view(keys@, storages@), k);
            }
            i
        },
        None => {
            let ghost t0 = table_view(keys@, storages@);
            let s = HashMapComponentStorage::<ErasedComponent>::with_hasher(clone_state(hasher));
            proof {
                lemma_table_push(keys@, storages@, k, s);
            }
            keys.push(k);
            storages.push(s);
            assert(t0.insert(k, Map::<u64, ErasedComponent>::empty()) =~= register(t0, k));
            (keys.len() - 1) as usize
        },
    }
}

/// Stores `v` for `id` in the storage at position `i`.
fn put_at(
    keys: &Vec<TypeId>,
    storages: &mut Vec<HashMapComponentStorage<ErasedComponent>>,
    i: usize,
    id: u64,
    v: ErasedComponent,
)
    requires
        keys@.len() == old(storages)@.len(),
        keys@.no_duplicates(),
        i < keys@.len(),
    ensures
        final(storages)@.len() == keys@.len(),
        table_view(keys@, final(storages)@) == store(table_view(keys@, old(storages)@), keys@[i as int], id, v),
{
    proof {
        lemma_table_lookup(keys@, storages@, i as int);
    }
    let ghost before = storages@;
    let _ = storages[i].put(id, v);
    proof {
        assert(storages@ == before.update(i as int, storages@[i as int]));
        lemma_table_update(keys@, before, i as int, storages@[i as int]);
    }
}

/// Removes and returns the value stored for `id` in the storage at position `i`.
fn take_at(
    keys: &Vec<TypeId>,
    storages: &mut Vec<HashMapComponentStorage<ErasedComponent>>,
    i: usize,
    id: u64,
) -> (r: Option<ErasedComponent>)
    requires
        keys@.len() == old(storages)@.len(),
        keys@.no_duplicates(),
        i < keys@.len(),
    ensures
        final(storages)@.len() == keys@.len(),
        table_view(keys@, final(storages)@) == unstore(table_view(keys@, old(storages)@), keys@[i as int], id),
        r == table_of(table_view(keys@, old(storages)@), keys@[i as int]).get(id),
{
    proof {
        lemma_table_lookup(keys@, storages@, i as int);
    }
    let ghost before = storages@;
    let r = storages[i].take(id);
    proof {
        assert(storages@ == before.update(i as int, storages@[i as int]));
        lemma_table_update(keys@, before, i as int, storages@[i as int]);
    }
    r
}

/// The value stored for `id` under `k`, if `k` is registered.
fn lookup_in<'a>(
    keys: &Vec<TypeId>,
    storages: &'a Vec<HashMapComponentStorage<ErasedComponent>>,
    k: &TypeId,
    id: u64,
) -> (r: Option<&'a ErasedComponent>)
    requires
        keys@.len() == storages@.len(),
        keys@.no_duplicates(),
    ensures
        match r {
            Some(v) => holds(table_view(keys@, storages@), *k, id)
                && table_view(keys@, storages@)[*k][id] == *v,
            None => !holds(table_view(keys@, storages@), *k, id),
        },
{
    match find_key(keys, k) {
        Some(i) => {
            proof {
                lemma_table_lookup(keys@, storages@, i as int);
            }
            storages[i].lookup(id)
        },
        None => None,
    }
}

impl World {
    /// Adds a component to an entity.
    ///
    /// Fails with `ComponentNotFound` if the entity is not active, and with
    /// `ComponentAlreadyExists` if it already has a component of this type; in
    /// both cases nothing changes.
    pub fn add_component<T: Component>(&mut self, entity: Entity, component: T) -> (r: Result<(), ComponentError>)
        requires
            old(self).wf(),
        ensures
            final(self).wf(),
            !old(self)@.is_active(entity) ==> {
                &&& r == Err::<(), ComponentError>(ComponentError::ComponentNotFound)
                &&& final(self)@ == old(self)@
            },
            old(self)@.has_component::<T>(entity) ==> {
                &&& r == Err::<(), ComponentError>(ComponentError::ComponentAlreadyExists)
                &&& final(self)@ == old(self)@
            },
            old(self)@.is_active(entity) && !old(self)@.has_component::<T>(entity) ==> {
                &&& r == Ok::<(), ComponentError>(())
                &&& final(self)@ == old(self)@.with_components(final(self)@.components)
                &&& stores_typed(final(self)@.components, old(self)@.components, entity.id(), component)
            },
    {
        let id = entity.raw_id();
        if !self.entities.contains(&id) {
            return Err(ComponentError::ComponentNotFound);
        }
        let k = type_key_of::<T>();
        let ghost t0 = self@.components;
        let i = slot_in(&mut self.component_keys, &mut self.component_storages, k, &self.hasher);
        proof {
            lemma_unstore_register_keep(t0, k, id, self.base, self.issued as int);
            lemma_table_lookup(self.component_keys@, self.component_storages@, i as int);
        }
        if self.component_storages[i].has(id) {
            proof {
                lemma_register_present(t0, k);
            }
            return Err(ComponentError::ComponentAlreadyExists);
        }
        let v = erase(component);
        let ghost t1 = self@.components;
        put_at(&self.component_keys, &mut self.component_storages, i, id, v);
        proof {
            assert(store(t1, k, id, v) =~= store(t0, k, id, v));
            lemma_store_keeps(t0, k, id, v, self.base, self.issued as int);
        }
        Ok(())
    }

    /// The component of type `T` of an entity; `None` if the entity is not
    /// active or has no such component.
    pub fn get_component<T: Component>(&self, entity: Entity) -> (r: Option<&T>)
        requires
            self.wf(),
        ensures
            self@.component_result::<T>(entity, deref_opt(r)),
            r is Some <==> self@.is_active(entity) && holds(self@.components, type_key::<T>(), entity.id()),
    {
        let id = entity.raw_id();
        if !self.entities.contains(&id) {
            return None;
        }
        let k = type_key_of::<T>();
        match lookup_in(&self.component_keys, &self.component_storages, &k, id) {
            Some(v) => downcast_ref::<T>(v),
            None => None,
        }
    }

    /// Whether an entity has a component of type `T` (`false` if it is not active).
    pub fn has_component<T: Component>(&self, entity: Entity) -> (r: bool)
        requires
            self.wf(),
        ensures
            r == self@.has_component::<T>(entity),
    {
        let id = entity.raw_id();
        if !self.entities.contains(&id) {
            return false;
        }
        let k = type_key_of::<T>();
        lookup_in(&self.component_keys, &self.component_storages, &k, id).is_some()
    }

    /// Removes and returns the component of type `T` of an entity; `None` (and no
    /// change) if the entity is not active.
    pub fn remove_component<T: Component>(&mut self, entity: Entity) -> (r: Option<T>)
        requires
            old(self).wf(),
        ensures
            final(self).wf(),
            old(self)@.component_result::<T>(entity, r),
            !old(self)@.is_active(entity) ==> final(self)@ == old(self)@,
            old(self)@.is_active(entity) ==> final(self)@ == old(self)@.with_components(
                unstore(old(self)@.components, type_key::<T>(), entity.id()),
            ),
    {
        let id = entity.raw_id();
        if !self.entities.contains(&id) {
            return None;
        }
        let k = type_key_of::<T>();
        let ghost t0 = self@.components;
        let i = slot_in(&mut self.component_keys, &mut self.component_storages, k, &self.hasher);
        let ghost t1 = self@.components;
        let taken = take_at(&self.component_keys, &mut self.component_storages, i, id);
        proof {
            assert(unstore(t1, k, id) =~= unstore(t0, k, id));
            lemma_unstore_register_keep(t0, k, id, self.base, self.issued as int);
        }
        match taken {
            Some(v) => downcast::<T>(v),
            None => None,
        }
    }
}

impl World {
    /// Replaces the component of type `T` of an entity, returning a clone of the
    /// previous one (`None` if there was none). If the entity is not active,
    /// nothing changes and `None` is returned.
    pub fn replace_component<T: Component + Clone>(&mut self, entity: Entity, component: T) -> (r: Option<T>)
        requires
            old(self).wf(),
        ensures
            final(self).wf(),
            old(self)@.is_active(entity) ==> cloned_result::<T>(old(self)@.components, entity.id(), r),
            !old(self)@.is_active(entity) ==> r is None,
            !old(self)@.is_active(entity) ==> final(self)@ == old(self)@,
            old(self)@.is_active(entity) ==> {
                &&& final(self)@ == old(self)@.with_components(final(self)@.components)
                &&& stores_typed(final(self)@.components, old(self)@.components, entity.id(), component)
            },
    {
        let id = entity.raw_id();
        if !self.entities.contains(&id) {
            return None;
        }
        let k = type_key_of::<T>();
        let ghost t0 = self@.components;
        let i = slot_in(&mut self.component_keys, &mut self.component_storages, k, &self.hasher);
        proof {
            lemma_table_lookup(self.component_keys@, self.component_storages@, i as int);
        }
        let previous: Option<T> = match self.component_storages[i].lookup(id) {
            Some(v) => match downcast_ref::<T>(v) {
                Some(x) => Some(x.clone()),
                None => None,
            },
            None => None,
        };
        let e = erase(component);
        let ghost t1 = self@.components;
        put_at(&self.component_keys, &mut self.component_storages, i, id, e);
        proof {
            assert(store(t1, k, id, e) =~= store(t0, k, id, e));
            lemma_store_keeps(t0, k, id, e, self.base, self.issued as int);
        }
        previous
    }

    /// Updates the component of type `T` of an entity with `f`: `f` receives a
    /// clone of the current component, a clone of its result is stored, and the
    /// result is returned.
    ///
    /// Fails with `ComponentNotFound` if the entity is not active (nothing
    /// changes) or has no such component (the storage for `T` is registered).
    pub fn update_component<T, F>(&mut self, entity: Entity, f: F) -> (r: Result<T, ComponentError>)
        where
            T: Component + Clone,
            F: FnOnce(T) -> T,
        requires
            old(self).wf(),
            forall|x: T| f.requires((x,)),
        ensures
            final(self).wf(),
            !old(self)@.is_active(entity) ==> {
                &&& r == Err::<T, ComponentError>(ComponentError::ComponentNotFound)
                &&& final(self)@ == old(self)@
            },
            old(self)@.is_active(entity) && !old(self)@.has_component::<T>(entity) ==> {
                &&& r == Err::<T, ComponentError>(ComponentError::ComponentNotFound)
                &&& final(self)@ == old(self)@.with_components(register(old(self)@.components, type_key::<T>()))
            },
            old(self)@.has_component::<T>(entity) ==> exists|current: T, arg: T, result: T, stored: T|
                #![trigger cloned(current, arg), f.ensures((arg,), result), cloned(result, stored)]
            {
                &&& erases_to(current, old(self)@.components[type_key::<T>()][entity.id()])
                &&& cloned(current, arg)
                &&& f.ensures((arg,), result)
                &&& cloned(result, stored)
                &&& r == Ok::<T, ComponentError>(result)
                &&& final(self)@ == old(self)@.with_components(final(self)@.components)
                &&& stores_typed(final(self)@.components, old(self)@.components, entity.id(), stored)
            },
    {
        let id = entity.raw_id();
        if !self.entities.contains(&id) {
            return Err(ComponentError::ComponentNotFound);
        }
        let k = type_key_of::<T>();
        let ghost t0 = self@.components;
        let i = slot_in(&mut self.component_keys, &mut self.component_storages, k, &self.hasher);
        proof {
            lemma_table_lookup(self.component_keys@, self.component_storages@, i as int);
            lemma_unstore_register_keep(t0, k, id, self.base, self.issued as int);
        }
        let found: Option<&T> = match self.component_storages[i].lookup(id) {
            Some(v) => downcast_ref::<T>(v),
            None => None,
        };
        let current: &T = match found {
            Some(x) => x,
            None => {
                return Err(ComponentError::ComponentNotFound);
            },
        };
        let ghost current_value: T = *current;
        let arg = current.clone();
        let ghost arg_value: T = arg;
        let result = f(arg);
        let stored = result.clone();
        let e = erase(stored);
        let ghost t1 = self@.components;
        put_at(&self.component_keys, &mut self.component_storages, i, id, e);
        proof {
            assert(store(t1, k, id, e) =~= store(t0, k, id, e));
            lemma_store_keeps(t0, k, id, e, self.base, self.issued as int);
            assert(stores_typed(self@.components, t0, id, stored));
            assert(erases_to(current_value, old(self)@.components[k][id]));
            assert(cloned(current_value, arg_value));
            assert(f.ensures((arg_value,), result));
            assert(cloned(result, stored));
        }
        Ok(result)
    }
}

impl World {
    /// Inserts or replaces the global resource of type `T`.
    pub fn insert_resource<T: Component>(&mut self, resource: T)
        requires
            old(self).wf(),
        ensures
            final(self).wf(),
            final(self)@ == old(self)@.with_components(final(self)@.components),
            stores_typed(final(self)@.components, old(self)@.components, old(self)@.resource_id, resource),
    {
        let id = self.base;
        let k = type_key_of::<T>();
        let ghost t0 = self@.components;
        let i = slot_in(&mut self.component_keys, &mut self.component_storages, k, &self.hasher);
        let e = erase(resource);
        let ghost t1 = self@.components;
        put_at(&self.component_keys, &mut self.component_storages, i, id, e);
        proof {
            assert(store(t1, k, id, e) =~= store(t0, k, id, e));
            lemma_store_keeps(t0, k, id, e, self.base, self.issued as int);
        }
    }

    /// The global resource of type `T`, if any.
    pub fn get_resource<T: Component>(&self) -> (r: Option<&T>)
        requires
            self.wf(),
        ensures
            self@.resource_result::<T>(deref_opt(r)),
    {
        let k = type_key_of::<T>();
        match lookup_in(&self.component_keys, &self.component_storages, &k, self.base) {
            Some(v) => downcast_ref::<T>(v),
            None => None,
        }
    }

    /// Removes and returns the global resource of type `T`, if any.
    pub fn remove_resource<T: Component>(&mut self) -> (r: Option<T>)
        requires
            old(self).wf(),
        ensures
            final(self).wf(),
            old(self)@.resource_result::<T>(r),
            final(self)@ == old(self)@.with_components(
                unstore(old(self)@.components, type_key::<T>(), old(self)@.resource_id),
            ),
    {
        let id = self.base;
        let k = type_key_of::<T>();
        let ghost t0 = self@.components;
        let i = slot_in(&mut self.component_keys, &mut self.component_storages, k, &self.hasher);
        let ghost t1 = self@.components;
        let taken = take_at(&self.component_keys, &mut self.component_storages, i, id);
        proof {
            assert(unstore(t1, k, id) =~= unstore(t0, k, id));
            lemma_unstore_register_keep(t0, k, id, self.base, self.issued as int);
        }
        match taken {
            Some(v) => downcast::<T>(v),
            None => None,
        }
    }

    /// Whether a global resource of type `T` exists.
    pub fn has_resource<T: Component>(&self) -> (r: bool)
        requires
            self.wf(),
        ensures
            r == self@.has_resource::<T>(),
    {
        let k = type_key_of::<T>();
        lookup_in(&self.component_keys, &self.component_storages, &k, self.base).is_some()
    }

    /// Updates the global resource of type `T` with `f`: `f` receives a clone of
    /// the current resource, a clone of its result is stored, and the result is
    /// returned. Fails with `ComponentNotFound` if there is no such resource (the
    /// storage for `T` is registered).
    pub fn update_resource<T, F>(&mut self, f: F) -> (r: Result<T, ComponentError>)
        where
            T: Component + Clone,
            F: FnOnce(T) -> T,
        requires
            old(self).wf(),
            forall|x: T| f.requires((x,)),
        ensures
            final(self).wf(),
            !old(self)@.has_resource::<T>() ==> {
                &&& r == Err::<T, ComponentError>(ComponentError::ComponentNotFound)
                &&& final(self)@ == old(self)@.with_components(register(old(self)@.components, type_key::<T>()))
            },
            old(self)@.has_resource::<T>() ==> exists|current: T, arg: T, result: T, stored: T|
                #![trigger cloned(current, arg), f.ensures((arg,), result), cloned(result, stored)]
            {
                &&& erases_to(current, old(self)@.components[type_key::<T>()][old(self)@.resource_id])
                &&& cloned(current, arg)
                &&& f.ensures((arg,), result)
                &&& cloned(result, stored)
                &&& r == Ok::<T, ComponentError>(result)
                &&& final(self)@ == old(self)@.with_components(final(self)@.components)
                &&& stores_typed(final(self)@.components, old(self)@.components, old(self)@.resource_id, stored)
            },
    {
        let id = self.base;
        let k = type_key_of::<T>();
        let ghost t0 = self@.components;
        let i = slot_in(&mut self.component_keys, &mut self.component_storages, k, &self.hasher);
        proof {
            lemma_table_lookup(self.component_keys@, self.component_storages@, i as int);
            lemma_unstore_register_keep(t0, k, id, self.base, self.issued as int);
        }
        let found: Option<&T> = match self.component_storages[i].lookup(id) {
            Some(v) => downcast_ref::<T>(v),
            None => None,
        };
        let current: &T = match found {
            Some(x) => x,
            None => {
                return Err(ComponentError::ComponentNotFound);
            },
        };
        let ghost current_value: T = *current;
        let arg = current.clone();
        let ghost arg_value: T = arg;
        let result = f(arg);
        let stored = result.clone();
        let e = erase(stored);
        let ghost t1 = self@.components;
        put_at(&self.component_keys, &mut self.component_storages, i, id, e);
        proof {
            assert(store(t1, k, id, e) =~= store(t0, k, id, e));
            lemma_store_keeps(t0, k, id, e, self.base, self.issued as int);
            assert(stores_typed(self@.components, t0, id, stored));
            assert(erases_to(current_value, old(self)@.components[k][id]));
            assert(cloned(current_value, arg_value));
            assert(f.ensures((arg_value,), result));
            assert(cloned(result, stored));
        }
        Ok(result)
    }
}

impl World {
    /// Adds an ephemeral component to an entity, replacing any previous one of
    /// the same type. Fails with `ComponentNotFound` (and no change) if the entity
    /// is not active.
    pub fn add_ephemeral_component<T: Component>(&mut self, entity: Entity, component: T) -> (r: Result<(), ComponentError>)
        requires
            old(self).wf(),
        ensures
            final(self).wf(),
            !old(self)@.is_active(entity) ==> {
                &&& r == Err::<(), ComponentError>(ComponentError::ComponentNotFound)
                &&& final(self)@ == old(self)@
            },
            old(self)@.is_active(entity) ==> {
                &&& r == Ok::<(), ComponentError>(())
                &&& final(self)@ == old(self)@.with_ephemeral(final(self)@.ephemeral)
                &&& stores_typed(final(self)@.ephemeral, old(self)@.ephemeral, entity.id(), component)
            },
    {
        let id = entity.raw_id();
        if !self.entities.contains(&id) {
            return Err(ComponentError::ComponentNotFound);
        }
        let k = type_key_of::<T>();
        let ghost t0 = self@.ephemeral;
        let i = slot_in(&mut self.ephemeral_keys, &mut self.ephemeral_storages, k, &self.hasher);
        let e = erase(component);
        let ghost t1 = self@.ephemeral;
        put_at(&self.ephemeral_keys, &mut self.ephemeral_storages, i, id, e);
        proof {
            assert(store(t1, k, id, e) =~= store(t0, k, id, e));
            lemma_store_keeps(t0, k, id, e, self.base, self.issued as int);
        }
        Ok(())
    }

    /// The ephemeral component of type `T` of an entity; `None` if the entity is
    /// not active or has no such ephemeral component.
    pub fn get_ephemeral_component<T: Component>(&self, entity: Entity) -> (r: Option<&T>)
        requires
            self.wf(),
        ensures
            self@.ephemeral_result::<T>(entity, deref_opt(r)),
            r is Some <==> self@.is_active(entity) && holds(self@.ephemeral, type_key::<T>(), entity.id()),
    {
        let id = entity.raw_id();
        if !self.entities.contains(&id) {
            return None;
        }
        let k = type_key_of::<T>();
        match lookup_in(&self.ephemeral_keys, &self.ephemeral_storages, &k, id) {
            Some(v) => downcast_ref::<T>(v),
            None => None,
        }
    }

    /// Whether an entity has an ephemeral component of type `T` (`false` if it is
    /// not active).
    pub fn has_ephemeral_component<T: Component>(&self, entity: Entity) -> (r: bool)
        requires
            self.wf(),
        ensures
            r == self@.has_ephemeral_component::<T>(entity),
    {
        let id = entity.raw_id();
        if !self.entities.contains(&id) {
            return false;
        }
        let k = type_key_of::<T>();
        lookup_in(&self.ephemeral_keys, &self.ephemeral_storages, &k, id).is_some()
    }

    /// Removes every ephemeral component of every entity.
    pub fn clean_ephemeral_storage(&mut self)
        requires
            old(self).wf(),
        ensures
            final(self).wf(),
            final(self)@ == old(self)@.with_ephemeral(Map::<TypeId, Map<u64, ErasedComponent>>::empty()),
    {
        self.ephemeral_keys = Vec::new();
        self.ephemeral_storages = Vec::new();
        proof {
            lemma_table_empty();
        }
    }

    /// The active entities that have a component of type `T`, each once, in no
    /// particular order.
    pub fn entities_with_component<T: Component>(&self) -> (r: Vec<Entity>)
        requires
            self.wf(),
        ensures
            entity_ids(r@).no_duplicates(),
            forall|e: Entity| #[trigger] entity_ids(r@).contains(e.id()) <==> self@.has_component::<T>(e),
    {
        let k = type_key_of::<T>();
        let mut out: Vec<Entity> = Vec::new();
        match find_key(&self.component_keys, &k) {
            None => {
                assert(entity_ids(out@) =~= Seq::<u64>::empty());
                out
            },
            Some(i) => {
                proof {
                    lemma_table_lookup(self.component_keys@, self.component_storages@, i as int);
                }
                let ids = self.component_storages[i].ids();
                let mut j: usize = 0;
                while j < ids.len()
                    invariant
                        j <= ids@.len(),
                        ids@.no_duplicates(),
                        entity_ids(out@).no_duplicates(),
                        forall|x: u64| #[trigger] entity_ids(out@).contains(x) <==> (ids@.take(j as int).contains(x)
                            && self.entities@.contains(x)),
                    decreases ids@.len() - j,
                {
                    let id = ids[j];
                    let ghost before = out@;
                    let ghost prefix = ids@.take(j as int);
                    assert(ids@.take(j + 1 as int) =~= prefix.push(id));
                    assert(!prefix.contains(id)) by {
                        if prefix.contains(id) {
                            let t = prefix.index_of(id);
                            assert(ids@[t] == ids@[j as int]);
                        }
                    }
                    if self.entities.contains(&id) {
                        let e = Entity::from_id(id);
                        out.push(e);
                        assert(entity_ids(out@) =~= entity_ids(before).push(id));
                        assert(!entity_ids(before).contains(id));
                    }
                    assert forall|x: u64| #[trigger] entity_ids(out@).contains(x) <==> (ids@.take(j + 1 as int).contains(x)
                        && self.entities@.contains(x)) by {
                        lemma_push_contains(prefix, id, x);
                        lemma_push_contains(entity_ids(before), id, x);
                    }
                    j = j + 1;
                }
                assert(ids@.take(j as int) =~= ids@);
                assert forall|e: Entity| #[trigger] entity_ids(out@).contains(e.id()) <==> self@.has_component::<T>(e) by {
                    assert(ids@.to_set().contains(e.id()) <==> ids@.contains(e.id()));
                }
                out
            },
        }
    }
}

impl Default for World {
    /// Creates a new empty world, as [`World::new`] does.
    fn default() -> (w: World)
        ensures
            w.wf(),
            w.can_spawn(),
            w@.active == Set::<u64>::empty(),
            w@.pending == Set::<u64>::empty(),
            w@.spawned == Set::<u64>::empty(),
            w@.spawns_left == u64::MAX - 1,
            w@.components == Map::<TypeId, Map<u64, ErasedComponent>>::empty(),
            w@.ephemeral == Map::<TypeId, Map<u64, ErasedComponent>>::empty(),
    {
        World::new()
    }
}

/// `r` is the decoding of the entry of `id` in `table` as a value of type `T`:
/// present exactly when there is an entry, and then the value whose erasure
/// the entry is.
pub open spec fn typed_entry<T: Component>(table: Map<u64, ErasedComponent>, id: u64, r: Option<T>) -> bool {
    &&& (r is Some <==> table.contains_key(id))
    &&& (r matches Some(c) ==> erases_to(c, table[id]))
    &&& forall|x: T| #[trigger] erases_to(x, table[id]) && table.contains_key(id) ==> r == Some(x)
}

/// Read access to a world's storage of one component type: the components of
/// that type, by entity identifier, of active and deleted entities alike (and
/// the resource of that type, under the world's resource identifier).
pub struct StorageRef<'w, T> {
    table: &'w HashMapComponentStorage<ErasedComponent>,
    _marker: PhantomData<T>,
}

impl<'w, T> View for StorageRef<'w, T> {
    type V = Map<u64, ErasedComponent>;

    closed spec fn view(&self) -> Map<u64, ErasedComponent> {
        self.table@
    }
}

impl<'w, T: Component> StorageRef<'w, T> {
    /// Every entry holds a value of type `T`.
    pub closed spec fn wf(&self) -> bool {
        forall|id: u64| #[trigger] self@.contains_key(id) ==> erased_type_key(self@[id]) == type_key::<T>()
    }

    /// Whether a component is stored for the entity.
    pub fn contains(&self, entity: Entity) -> (r: bool)
        ensures
            r == self@.contains_key(entity.id()),
    {
        self.table.has(entity.raw_id())
    }

    /// The component stored for the entity.
    pub fn get(&self, entity: Entity) -> (r: Option<&'w T>)
        requires
            self.wf(),
        ensures
            typed_entry::<T>(self@, entity.id(), deref_opt(r)),
    {
        match self.table.lookup(entity.raw_id()) {
            Some(v) => downcast_ref::<T>(v),
            None => None,
        }
    }
}

/// The component storage at position `i` of a world, borrowed mutably: the
/// world afterwards is the world with that storage as it ends up.
fn storage_at<'a>(world: &'a mut World, i: usize) -> (st: &'a mut HashMapComponentStorage<ErasedComponent>)
    requires
        i < old(world).component_storages@.len(),
    ensures
        *st == old(world).component_storages@[i as int],
        *final(world) == (World {
            component_storages: final(world).component_storages,
            ..*old(world)
        }),
        final(world).component_storages@ == old(world).component_storages@.update(i as int, *final(st)),
{
    &mut world.component_storages[i]
}

/// Mutable access to a world's storage of one component type, handed out by
/// [`World::get_storage_mut`]: the world it borrows.
pub struct StorageMut<'w, T> {
    /// The world whose storage this is.
    pub world: &'w mut World,
    /// The component type of the storage.
    pub component: PhantomData<T>,
}

impl<'w, T: Component> StorageMut<'w, T> {
    /// Mutable access to the component of type `T` stored for the entity
    /// (whether or not it is active): what is written through the reference is
    /// what the storage holds for the entity afterwards; nothing else changes.
    pub fn get_mut(self, entity: Entity) -> (r: Option<&'w mut T>)
        requires
            self.world.wf(),
        ensures
            r is Some <==> holds(old(self.world)@.components, type_key::<T>(), entity.id()),
            r matches Some(x) ==> typed_result::<T>(old(self.world)@.components, entity.id(), Some(*x)),
            r is Some ==> final(self.world).wf(),
            r matches Some(x) ==> exists|v: ErasedComponent|
                #![trigger store(old(self.world)@.components, type_key::<T>(), entity.id(), v)]
                erases_to(*final(x), v) && final(self.world)@ == old(self.world)@.with_components(
                    store(old(self.world)@.components, type_key::<T>(), entity.id(), v),
                ),
            r is None ==> final(self.world).wf() && final(self.world)@ == old(self.world)@,
    {
        let world = self.world;
        let k = type_key_of::<T>();
        let id = entity.raw_id();
        match find_key(&world.component_keys, &k) {
            Some(i) => {
                proof {
                    lemma_table_lookup(world.component_keys@, world.component_storages@, i as int);
                }
                let ghost w0 = *world;
                proof {
                    lemma_table_update_all(w0.component_keys@, w0.component_storages@, i as int);
                    if holds(w0@.components, k, id) {
                        lemma_store_through(
                            w0.component_keys@,
                            w0.component_storages@,
                            i as int,
                            id,
                            w0.base,
                            w0.issued as int,
                            w0@.active.union(w0@.pending).insert(w0.base),
                        );
                    }
                }
                let st = storage_at(world, i);
                match st.lookup_mut(id) {
                    Some(e) => {
                        proof {
                            assert(holds(w0@.components, k, id));
                        }
                        let r = downcast_mut::<T>(e);
                        r
                    },
                    None => {
                        proof {
                            assert(w0.component_storages@.update(i as int, w0.component_storages@[i as int])
                                =~= w0.component_storages@);
                        }
                        None
                    },
                }
            },
            None => None,
        }
    }
}

impl World {
    /// Mutable access to the storage of component type `T`, registering it
    /// first if no operation has yet.
    pub fn get_storage_mut<T: Component>(&mut self) -> (r: StorageMut<'_, T>)
        requires
            old(self).wf(),
        ensures
            (*r.world).wf(),
            (*r.world)@ == old(self)@.with_components(register(old(self)@.components, type_key::<T>())),
            *final(self) == *final(r.world),
    {
        let k = type_key_of::<T>();
        let ghost t0 = self@.components;
        let _ = slot_in(&mut self.component_keys, &mut self.component_storages, k, &self.hasher);
        proof {
            lemma_unstore_register_keep(t0, k, 0, self.base, self.issued as int);
        }
        StorageMut { world: self, component: PhantomData }
    }
}

impl World {
    /// Read access to the storage of component type `T`; `None` until an
    /// operation registers it (adding, replacing, updating or removing a
    /// component of type `T` on an active entity, or inserting, updating or
    /// removing a resource of type `T`).
    pub fn get_storage<T: Component>(&self) -> (r: Option<StorageRef<'_, T>>)
        requires
            self.wf(),
        ensures
            r is Some <==> self@.components.contains_key(type_key::<T>()),
            r matches Some(s) ==> s@ == self@.components[type_key::<T>()] && s.wf(),
    {
        let k = type_key_of::<T>();
        match find_key(&self.component_keys, &k) {
            Some(i) => {
                proof {
                    lemma_table_lookup(self.component_keys@, self.component_storages@, i as int);
                }
                let s: StorageRef<'_, T> = StorageRef { table: &self.component_storages[i], _marker: PhantomData };
                assert forall|id: u64| #[trigger] s@.contains_key(id) implies erased_type_key(s@[id]) == type_key::<T>() by {
                    assert(holds(self@.components, k, id));
                }
                Some(s)
            },
            None => None,
        }
    }
}

impl World {
    /// Each identifier stored under `k` with its entry (regular components when
    /// `ephemeral` is false, ephemeral ones otherwise), each identifier once;
    /// empty if `k` is not registered.
    pub(crate) fn entries_with_key(&self, k: &TypeId, ephemeral: bool) -> (r: Vec<(u64, &ErasedComponent)>)
        requires
            self.wf(),
        ensures
            entry_ids(r@).no_duplicates(),
            forall|id: u64| #[trigger] entry_ids(r@).contains(id) <==> holds(
                if ephemeral { self@.ephemeral } else { self@.components },
                *k,
                id,
            ),
            forall|i: int| 0 <= i < r@.len() ==> (if ephemeral { self@.ephemeral } else { self@.components })[*k][
                #[trigger] r@[i].0] == *r@[i].1,
            forall|i: int| 0 <= i < r@.len() ==> erased_type_key(*#[trigger] r@[i].1) == *k,
    {
        let keys = if ephemeral { &self.ephemeral_keys } else { &self.component_keys };
        let storages = if ephemeral { &self.ephemeral_storages } else { &self.component_storages };
        match find_key(keys, k) {
            Some(i) => {
                proof {
                    lemma_table_lookup(keys@, storages@, i as int);
                }
                let entries = storages[i].entries();
                assert forall|j: int| 0 <= j < entries@.len() implies erased_type_key(*#[trigger] entries@[j].1)
                    == *k by {
                    assert(entry_ids(entries@)[j] == entries@[j].0);
                    assert(entry_ids(entries@).to_set().contains(entries@[j].0));
                    assert(holds(if ephemeral { self@.ephemeral } else { self@.components }, *k, entries@[j].0));
                }
                assert forall|id: u64| #[trigger] entry_ids(entries@).contains(id) <==> entry_ids(
                    entries@,
                ).to_set().contains(id) by {}
                entries
            },
            None => {
                let v: Vec<(u64, &ErasedComponent)> = Vec::new();
                assert(entry_ids(v@) =~= Seq::<u64>::empty());
                v
            },
        }
    }

    /// Whether the owner of a regular component entry is active: it is exactly
    /// when the identifier is neither that of a deleted entity nor the
    /// resource identifier.
    pub(crate) fn holder_is_active(&self, id: u64) -> (r: bool)
        requires
            self.wf(),
            exists|k: TypeId| holds(self@.components, k, id),
        ensures
            r == self@.active.contains(id),
    {
        proof {
            let k = choose|k: TypeId| holds(self@.components, k, id);
            assert(holds(self@.components, k, id));
            assert(id_index(self.base, self.base) == 0);
        }
        id != self.base && (self.soft_deleted_entities.is_empty() || !self.soft_deleted_entities.contains(&id))
    }

    /// Whether an entry for `id` is stored under `k` (regular components when
    /// `ephemeral` is false, ephemeral ones otherwise).
    pub(crate) fn holds_key(&self, k: &TypeId, id: u64, ephemeral: bool) -> (r: bool)
        requires
            self.wf(),
        ensures
            r == holds(if ephemeral { self@.ephemeral } else { self@.components }, *k, id),
    {
        if ephemeral {
            lookup_in(&self.ephemeral_keys, &self.ephemeral_storages, k, id).is_some()
        } else {
            lookup_in(&self.component_keys, &self.component_storages, k, id).is_some()
        }
    }
}

} // verus!
