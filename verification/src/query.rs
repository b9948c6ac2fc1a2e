//! Queries: the entities that carry a component type, filtered by the presence
//! or absence of other regular and ephemeral component types.

use crate::component::{Component, downcast_ref, entry_ids, erased_type_key, type_key, type_key_of};
use crate::entity::Entity;
use crate::type_key::same_type_key;
use crate::world::{Tables, World, WorldView, holds};
use std::any::TypeId;
use std::marker::PhantomData;
use vstd::prelude::*;
use vstd::std_specs::iter::IteratorSpec;

verus! {

broadcast use vstd::std_specs::vec::group_vec_axioms;

/// The filters of a query.
pub struct QueryView {
    /// Regular component types that matching entities must have.
    pub with: Set<TypeId>,
    /// Regular component types that matching entities must not have.
    pub without: Set<TypeId>,
    /// Ephemeral component types that matching entities must have.
    pub with_ephemeral: Set<TypeId>,
    /// Ephemeral component types that matching entities must not have.
    pub without_ephemeral: Set<TypeId>,
}

/// Whether, for every type in `keys`, `tables` holds an entry for `id` exactly
/// when `present` is true.
pub open spec fn all_hold(tables: Tables, keys: Set<TypeId>, id: u64, present: bool) -> bool {
    forall|k: TypeId| #[trigger] keys.contains(k) ==> holds(tables, k, id) == present
}

impl QueryView {
    /// Whether the entity with identifier `id` passes all the filters in `w`.
    pub open spec fn passes(self, w: WorldView, id: u64) -> bool {
        &&& all_hold(w.components, self.with, id, true)
        &&& all_hold(w.components, self.without, id, false)
        &&& all_hold(w.ephemeral, self.with_ephemeral, id, true)
        &&& all_hold(w.ephemeral, self.without_ephemeral, id, false)
    }

    /// Whether the entity with identifier `id` is selected by a query over the
    /// regular component `T` (`primary_ephemeral` false) or over the ephemeral
    /// component `T` (`primary_ephemeral` true).
    pub open spec fn selects<T: Component>(self, w: WorldView, id: u64, primary_ephemeral: bool) -> bool {
        &&& w.active.contains(id)
        &&& holds(if primary_ephemeral { w.ephemeral } else { w.components }, type_key::<T>(), id)
        &&& self.passes(w, id)
    }

    /// These filters, also requiring a component of type `k`.
    pub open spec fn requiring(self, k: TypeId) -> QueryView {
        QueryView { with: self.with.insert(k), ..self }
    }

    /// These filters, also excluding a component of type `k`.
    pub open spec fn excluding(self, k: TypeId) -> QueryView {
        QueryView { without: self.without.insert(k), ..self }
    }

    /// These filters, also requiring an ephemeral component of type `k`.
    pub open spec fn requiring_ephemeral(self, k: TypeId) -> QueryView {
        QueryView { with_ephemeral: self.with_ephemeral.insert(k), ..self }
    }

    /// These filters, also excluding an ephemeral component of type `k`.
    pub open spec fn excluding_ephemeral(self, k: TypeId) -> QueryView {
        QueryView { without_ephemeral: self.without_ephemeral.insert(k), ..self }
    }

    /// The identifiers of the entities that the query selects in `w`.
    pub open spec fn selected<T: Component>(self, w: WorldView, primary_ephemeral: bool) -> Set<u64> {
        Set::new(|id: u64| self.selects::<T>(w, id, primary_ephemeral))
    }
}

/// The identifiers of the entities of a query result.
pub open spec fn result_ids<T>(res: Seq<(Entity, &T)>) -> Seq<u64> {
    res.map_values(|p: (Entity, &T)| p.0.id())
}

/// `p` is a selected entity with its component.
pub open spec fn result_entry<T: Component>(q: QueryView, w: WorldView, p: (Entity, &T), primary_ephemeral: bool) -> bool {
    &&& q.selects::<T>(w, p.0.id(), primary_ephemeral)
    &&& if primary_ephemeral {
        w.ephemeral_result::<T>(p.0, Some(*p.1))
    } else {
        w.component_result::<T>(p.0, Some(*p.1))
    }
}

/// `res` lists, each once, exactly the entities that the query selects in `w`,
/// each with its component (regular or ephemeral, as the query is).
pub open spec fn query_result<T: Component>(
    q: QueryView,
    w: WorldView,
    res: Seq<(Entity, &T)>,
    primary_ephemeral: bool,
) -> bool {
    &&& result_ids(res).no_duplicates()
    &&& forall|i: int| 0 <= i < res.len() ==> result_entry::<T>(q, w, #[trigger] res[i], primary_ephemeral)
    &&& forall|id: u64| #[trigger] q.selects::<T>(w, id, primary_ephemeral) ==> result_ids(res).contains(id)
}

/// A query result lists the selected set, and has as many entries as it has members.
proof fn lemma_result_selected<T: Component>(q: QueryView, w: WorldView, res: Seq<(Entity, &T)>, primary_ephemeral: bool)
    requires
        query_result::<T>(q, w, res, primary_ephemeral),
    ensures
        result_ids(res).to_set() == q.selected::<T>(w, primary_ephemeral),
        q.selected::<T>(w, primary_ephemeral).finite(),
        q.selected::<T>(w, primary_ephemeral).len() == res.len(),
{
    let ids = result_ids(res);
    assert forall|x: u64| #[trigger] ids.to_set().contains(x) implies q.selects::<T>(w, x, primary_ephemeral) by {
        let i = ids.index_of(x);
        assert(result_entry::<T>(q, w, res[i], primary_ephemeral));
    }
    assert(ids.to_set() =~= q.selected::<T>(w, primary_ephemeral));
    ids.unique_seq_to_set();
}

/// A query for entities that have a component of type `T`, optionally filtered
/// by other regular and ephemeral component types.
pub struct Query<T> {
    /// Component types that entities must have (in addition to `T`).
    with_components: Vec<TypeId>,
    /// Component types that entities must not have.
    without_components: Vec<TypeId>,
    /// Ephemeral component types that entities must have.
    with_ephemeral_components: Vec<TypeId>,
    /// Ephemeral component types that entities must not have.
    without_ephemeral_components: Vec<TypeId>,
    /// Marker for the primary component type.
    _marker: PhantomData<T>,
}

impl<T> View for Query<T> {
    type V = QueryView;

    closed spec fn view(&self) -> QueryView {
        QueryView {
            with: self.with_components@.to_set(),
            without: self.without_components@.to_set(),
            with_ephemeral: self.with_ephemeral_components@.to_set(),
            without_ephemeral: self.without_ephemeral_components@.to_set(),
        }
    }
}

/// `keys` with `k` appended unless already present.
fn add_key(keys: &mut Vec<TypeId>, k: TypeId)
    ensures
        final(keys)@.to_set() == old(keys)@.to_set().insert(k),
{
    let mut i: usize = 0;
    while i < keys.len()
        invariant
            i <= keys@.len(),
            forall|j: int| 0 <= j < i ==> keys@[j] != k,
        decreases keys@.len() - i,
    {
        if same_type_key(&keys[i], &k) {
            assert(keys@.to_set() =~= keys@.to_set().insert(k));
            return;
        }
        i = i + 1;
    }
    let ghost before = keys@;
    keys.push(k);
    proof {
        before.lemma_push_to_set_commute(k);
    }
}

/// Whether every type in `keys` holds an entry for `id` (or none does, when
/// `present` is false) in the regular or ephemeral tables of `world`.
fn check_all(world: &World, keys: &Vec<TypeId>, id: u64, ephemeral: bool, present: bool) -> (r: bool)
    requires
        world.wf(),
    ensures
        r == all_hold(if ephemeral { world@.ephemeral } else { world@.components }, keys@.to_set(), id, present),
{
    let mut i: usize = 0;
    while i < keys.len()
        invariant
            world.wf(),
            i <= keys@.len(),
            forall|j: int| 0 <= j < i ==> holds(
                if ephemeral { world@.ephemeral } else { world@.components },
                #[trigger] keys@[j],
                id,
            ) == present,
        decreases keys@.len() - i,
    {
        if world.holds_key(&keys[i], id, ephemeral) != present {
            assert(keys@.to_set().contains(keys@[i as int]));
            return false;
        }
        i = i + 1;
    }
    assert forall|k: TypeId| #[trigger] keys@.to_set().contains(k) implies holds(
        if ephemeral { world@.ephemeral } else { world@.components },
        k,
        id,
    ) == present by {
        let j = keys@.index_of(k);
        assert(keys@[j] == k);
    }
    true
}

impl<T: Component> Query<T> {
    /// Creates a query for the entities that have a component of type `T`.
    pub fn new() -> (q: Self)
        ensures
            q@ == (QueryView {
                with: Set::empty(),
                without: Set::empty(),
                with_ephemeral: Set::empty(),
                without_ephemeral: Set::empty(),
            }),
    {
        let q = Query {
            with_components: Vec::new(),
            without_components: Vec::new(),
            with_ephemeral_components: Vec::new(),
            without_ephemeral_components: Vec::new(),
            _marker: PhantomData,
        };
        assert(q@.with =~= Set::<TypeId>::empty());
        assert(q@.without =~= Set::<TypeId>::empty());
        assert(q@.with_ephemeral =~= Set::<TypeId>::empty());
        assert(q@.without_ephemeral =~= Set::<TypeId>::empty());
        q
    }

    /// Also requires a component of type `C`. Adding a type twice changes nothing.
    pub fn with<C: Component>(self) -> (q: Self)
        ensures
            q@ == self@.requiring(type_key::<C>()),
    {
        let mut q = self;
        add_key(&mut q.with_components, type_key_of::<C>());
        q
    }

    /// Also requires the absence of a component of type `C`.
    pub fn without<C: Component>(self) -> (q: Self)
        ensures
            q@ == self@.excluding(type_key::<C>()),
    {
        let mut q = self;
        add_key(&mut q.without_components, type_key_of::<C>());
        q
    }

    /// Also requires an ephemeral component of type `C`.
    pub fn with_ephemeral<C: Component>(self) -> (q: Self)
        ensures
            q@ == self@.requiring_ephemeral(type_key::<C>()),
    {
        let mut q = self;
        add_key(&mut q.with_ephemeral_components, type_key_of::<C>());
        q
    }

    /// Also requires the absence of an ephemeral component of type `C`.
    pub fn without_ephemeral<C: Component>(self) -> (q: Self)
        ensures
            q@ == self@.excluding_ephemeral(type_key::<C>()),
    {
        let mut q = self;
        add_key(&mut q.without_ephemeral_components, type_key_of::<C>());
        q
    }

    /// Whether the entity with identifier `id` passes the filters in `world`.
    fn passes(&self, world: &World, id: u64) -> (r: bool)
        requires
            world.wf(),
        ensures
            r == self@.passes(world@, id),
    {
        check_all(world, &self.with_components, id, false, true)
            && check_all(world, &self.without_components, id, false, false)
            && check_all(world, &self.with_ephemeral_components, id, true, true)
            && check_all(world, &self.without_ephemeral_components, id, true, false)
    }
}

/// The entity of a candidate paired with its component, when it has one.
pub open spec fn candidate_pair<'w, T>(c: (Entity, Option<&'w T>)) -> Option<(Entity, &'w T)> {
    match c.1 {
        Some(x) => Some((c.0, x)),
        None => None,
    }
}

/// The pairs of the candidates that have a component, in order.
pub open spec fn candidate_pairs<'w, T>(s: Seq<(Entity, Option<&'w T>)>) -> Seq<(Entity, &'w T)> {
    s.filter_map(|c: (Entity, Option<&'w T>)| candidate_pair(c))
}

proof fn lemma_candidate_pairs_push<'w, T>(s: Seq<(Entity, Option<&'w T>)>, c: (Entity, Option<&'w T>))
    ensures
        candidate_pairs(s.push(c)) == match c.1 {
            Some(x) => candidate_pairs(s).push((c.0, x)),
            None => candidate_pairs(s),
        },
{
    assert(s.push(c).drop_last() =~= s);
    assert(s.push(c).last() == c);
    match c.1 {
        Some(x) => {
            assert(candidate_pairs(s) + seq![(c.0, x)] =~= candidate_pairs(s).push((c.0, x)));
        },
        None => {},
    }
}

/// The pair of a candidate, when it has a component.
fn candidate_entry<'w, T>(c: (Entity, Option<&'w T>)) -> (r: Option<(Entity, &'w T)>)
    ensures
        r == candidate_pair(c),
{
    match c.1 {
        Some(x) => Some((c.0, x)),
        None => None,
    }
}

/// The pairs of the candidates that have a component, in order.
fn present_pairs<'w, T>(candidates: &Vec<(Entity, Option<&'w T>)>) -> (r: Vec<(Entity, &'w T)>)
    ensures
        r@ == candidate_pairs(candidates@),
{
    let mut out: Vec<(Entity, &'w T)> = Vec::new();
    let mut i: usize = 0;
    assert(candidates@.take(0) =~= Seq::<(Entity, Option<&'w T>)>::empty());
    while i < candidates.len()
        invariant
            i <= candidates@.len(),
            out@ == candidate_pairs(candidates@.take(i as int)),
        decreases candidates@.len() - i,
    {
        proof {
            assert(candidates@.take(i + 1 as int) =~= candidates@.take(i as int).push(candidates@[i as int]));
            lemma_candidate_pairs_push(candidates@.take(i as int), candidates@[i as int]);
        }
        match candidate_entry(candidates[i]) {
            Some(p) => out.push(p),
            None => {},
        }
        i = i + 1;
    }
    assert(candidates@.take(i as int) =~= candidates@);
    out
}

/// `Iterator::filter_map` of std over the candidates, with [`candidate_entry`]:
/// the iterator yields, in order, the pair of each candidate that has a
/// component, and then ends. Its size hint is not stated.
#[verifier::external_body]
fn keep_present<'w, T: 'w>(candidates: Vec<(Entity, Option<&'w T>)>) -> (r: impl Iterator<Item = (Entity, &'w T)> + 'w)
    ensures
        r.obeys_prophetic_iter_laws(),
        r.will_return_none(),
        r.remaining() == candidate_pairs(candidates@),
{
    candidates.into_iter().filter_map(candidate_entry)
}

impl<T: Component> Query<T> {
    /// Every entity that holds a component of type `T` (regular or
    /// ephemeral, as `primary_ephemeral` says), with its component when the
    /// query selects it.
    fn candidates<'w>(&'w self, world: &'w World, primary_ephemeral: bool) -> (r: Vec<(Entity, Option<&'w T>)>)
        requires
            world.wf(),
        ensures
            query_result::<T>(self@, world@, candidate_pairs(r@), primary_ephemeral),
    {
        let k = type_key_of::<T>();
        let entries = world.entries_with_key(&k, primary_ephemeral);
        let ghost ids = entry_ids(entries@);
        let ghost tables = if primary_ephemeral { world@.ephemeral } else { world@.components };
        let mut cands: Vec<(Entity, Option<&'w T>)> = Vec::with_capacity(entries.len());
        let ghost mut out: Seq<(Entity, &'w T)> = Seq::empty();
        let mut j: usize = 0;
        while j < entries.len()
            invariant
                world.wf(),
                j <= entries@.len(),
                ids == entry_ids(entries@),
                tables == if primary_ephemeral { world@.ephemeral } else { world@.components },
                ids.no_duplicates(),
                forall|id: u64| #[trigger] ids.contains(id) <==> holds(tables, type_key::<T>(), id),
                forall|i: int| 0 <= i < entries@.len() ==> tables[type_key::<T>()][#[trigger] entries@[i].0]
                    == *entries@[i].1,
                forall|i: int| 0 <= i < entries@.len() ==> erased_type_key(*#[trigger] entries@[i].1) == type_key::<T>(),
                out == candidate_pairs(cands@),
                result_ids(out).no_duplicates(),
                forall|i: int| 0 <= i < out.len() ==> result_entry::<T>(self@, world@, #[trigger] out[i], primary_ephemeral),
                forall|id: u64| #[trigger] result_ids(out).contains(id) <==> (ids.take(j as int).contains(id)
                    && self@.selects::<T>(world@, id, primary_ephemeral)),
            decreases entries@.len() - j,
        {
            let (id, v) = entries[j];
            let e = Entity::from_id(id);
            let ghost before = out;
            let ghost prefix = ids.take(j as int);
            assert(ids[j as int] == id);
            assert(ids.take(j + 1 as int) =~= prefix.push(id));
            assert(!prefix.contains(id)) by {
                if prefix.contains(id) {
                    let t = prefix.index_of(id);
                    assert(ids[t] == ids[j as int]);
                }
            }
            assert(ids.contains(id));
            assert(tables[type_key::<T>()][id] == *v);
            assert(erased_type_key(*v) == type_key::<T>());
            let mut entry: Option<&'w T> = None;
            let active = if primary_ephemeral {
                world.is_entity_active(e)
            } else {
                assert(holds(world@.components, type_key::<T>(), id));
                world.holder_is_active(id)
            };
            if active && self.passes(world, id) {
                match downcast_ref::<T>(v) {
                    Some(c) => {
                        assert(self@.selects::<T>(world@, id, primary_ephemeral));
                        proof {
                            out = out.push((e, c));
                        }
                        assert(out[before.len() as int].0.id() == id);
                        assert(result_entry::<T>(self@, world@, (e, c), primary_ephemeral));
                        assert(result_ids(out) =~= result_ids(before).push(id));
                        assert(!result_ids(before).contains(id));
                        entry = Some(c);
                    },
                    None => {},
                }
            }
            proof {
                lemma_candidate_pairs_push(cands@, (e, entry));
            }
            cands.push((e, entry));
            assert forall|x: u64| #[trigger] result_ids(out).contains(x) <==> (ids.take(j + 1 as int).contains(x)
                && self@.selects::<T>(world@, x, primary_ephemeral)) by {
                crate::world::lemma_push_contains(prefix, id, x);
                crate::world::lemma_push_contains(result_ids(before), id, x);
            }
            j = j + 1;
        }
        assert(ids.take(j as int) =~= ids);
        assert forall|id: u64| #[trigger] self@.selects::<T>(world@, id, primary_ephemeral) implies result_ids(
            out,
        ).contains(id) by {
            assert(ids.contains(id));
        }
        cands
    }

    /// The entities that have a component of type `T` and pass the filters,
    /// each once with its component, in no particular order.
    pub fn iter<'w>(&'w self, world: &'w World) -> (r: impl Iterator<Item = (Entity, &'w T)> + 'w)
        requires
            world.wf(),
        ensures
            r.obeys_prophetic_iter_laws(),
            query_result::<T>(self@, world@, r.remaining(), false),
    {
        keep_present(self.candidates(world, false))
    }

    /// The entities that have an ephemeral component of type `T` and pass the
    /// filters, each once with its ephemeral component, in no particular order.
    pub fn iter_ephemeral<'w>(&'w self, world: &'w World) -> (r: impl Iterator<Item = (Entity, &'w T)> + 'w)
        requires
            world.wf(),
        ensures
            r.obeys_prophetic_iter_laws(),
            query_result::<T>(self@, world@, r.remaining(), true),
    {
        keep_present(self.candidates(world, true))
    }

    /// The number of entities that have a component of type `T` and pass the filters.
    pub fn count(&self, world: &World) -> (n: usize)
        requires
            world.wf(),
        ensures
            self@.selected::<T>(world@, false).finite(),
            n == self@.selected::<T>(world@, false).len(),
    {
        let found = present_pairs(&self.candidates(world, false));
        proof {
            lemma_result_selected::<T>(self@, world@, found@, false);
        }
        found.len()
    }

    /// Some entity that has a component of type `T` and passes the filters,
    /// with its component; `None` when there is none.
    pub fn first<'w>(&'w self, world: &'w World) -> (r: Option<(Entity, &'w T)>)
        requires
            world.wf(),
        ensures
            r is None <==> self@.selected::<T>(world@, false).is_empty(),
            r matches Some(p) ==> result_entry::<T>(self@, world@, p, false),
    {
        let found = present_pairs(&self.candidates(world, false));
        proof {
            lemma_result_selected::<T>(self@, world@, found@, false);
        }
        if found.len() == 0 {
            None
        } else {
            Some(found[0])
        }
    }

    /// Whether any entity has a component of type `T` and passes the filters.
    pub fn any(&self, world: &World) -> (r: bool)
        requires
            world.wf(),
        ensures
            r <==> !self@.selected::<T>(world@, false).is_empty(),
    {
        self.count(world) > 0
    }
}

impl<T: Component> Default for Query<T> {
    /// Creates a query without filters, as [`Query::new`] does.
    fn default() -> (q: Self)
        ensures
            q@ == (QueryView {
                with: Set::empty(),
                without: Set::empty(),
                with_ephemeral: Set::empty(),
                without_ephemeral: Set::empty(),
            }),
    {
        Query::new()
    }
}

} // verus!
