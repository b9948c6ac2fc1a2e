//! Properties that hold across the operations of the library, stated over the
//! abstract views that the operations' contracts use.

use crate::component::{Component, ErasedComponent, erases_to, type_key};
use crate::entity::Entity;
use crate::query::{QueryView, all_hold};
use crate::schedule::{is_schedule, roots_first};
use crate::world::{Tables, WorldView, holds, store, stores_typed, typed_result, unstore};
use std::any::TypeId;
use vstd::prelude::*;

verus! {

/// What is written for an entity is what is read back: once `add_component`
/// or `replace_component` has stored `c` for an active entity, every result
/// that `get_component` or `remove_component` may give is `Some(c)`, and the
/// entity has the component (so a second `add_component` fails).
pub proof fn law_component_read_after_write<T: Component>(
    before: WorldView,
    after: WorldView,
    e: Entity,
    c: T,
    r: Option<T>,
)
    requires
        before.is_active(e),
        after == before.with_components(after.components),
        stores_typed(after.components, before.components, e.id(), c),
        after.component_result::<T>(e, r),
    ensures
        r == Some(c),
        after.has_component::<T>(e),
{
    let k = type_key::<T>();
    let v = choose|v: ErasedComponent|
        after.components == store(before.components, k, e.id(), v) && erases_to(c, v);
    assert(after.components[k][e.id()] == v);
    assert(erases_to(c, after.components[k][e.id()]));
}

/// What is written as an ephemeral component is what is read back: once
/// `add_ephemeral_component` has stored `c` for an active entity, every result
/// that `get_ephemeral_component` may give is `Some(c)`, and the regular
/// components are untouched.
pub proof fn law_ephemeral_read_after_write<T: Component>(
    before: WorldView,
    after: WorldView,
    e: Entity,
    c: T,
    r: Option<T>,
)
    requires
        before.is_active(e),
        after == before.with_ephemeral(after.ephemeral),
        stores_typed(after.ephemeral, before.ephemeral, e.id(), c),
        after.ephemeral_result::<T>(e, r),
    ensures
        r == Some(c),
        after.has_ephemeral_component::<T>(e),
        after.components == before.components,
{
    let k = type_key::<T>();
    let v = choose|v: ErasedComponent|
        after.ephemeral == store(before.ephemeral, k, e.id(), v) && erases_to(c, v);
    assert(after.ephemeral[k][e.id()] == v);
    assert(erases_to(c, after.ephemeral[k][e.id()]));
}

/// Reading a component sees the regular tables only: it gives a value exactly
/// when the entity is active and the regular tables hold an entry for it
/// under the type, the value is the one that entry stores, and what the
/// ephemeral tables hold plays no part.
pub proof fn law_component_read_sees_regular_tables<T: Component>(w: WorldView, e: Entity, r: Option<T>, eph: Tables)
    requires
        w.component_result::<T>(e, r),
    ensures
        r is Some <==> w.active.contains(e.id()) && holds(w.components, type_key::<T>(), e.id()),
        r matches Some(c) ==> erases_to(c, w.components[type_key::<T>()][e.id()]),
        w.with_ephemeral(eph).component_result::<T>(e, r),
{
}

/// Reading an ephemeral component sees the ephemeral tables only: it gives a
/// value exactly when the entity is active and the ephemeral tables hold an
/// entry for it under the type, the value is the one that entry stores, and
/// what the regular tables hold plays no part; once the ephemeral tables are
/// cleared, every read gives nothing.
pub proof fn law_ephemeral_read_sees_ephemeral_tables<T: Component>(
    w: WorldView,
    e: Entity,
    r: Option<T>,
    comps: Tables,
)
    requires
        w.ephemeral_result::<T>(e, r),
    ensures
        r is Some <==> w.active.contains(e.id()) && holds(w.ephemeral, type_key::<T>(), e.id()),
        r matches Some(c) ==> erases_to(c, w.ephemeral[type_key::<T>()][e.id()]),
        w.with_components(comps).ephemeral_result::<T>(e, r),
        w.with_ephemeral(Map::empty()).ephemeral_result::<T>(e, r) ==> r is None,
{
}

/// Storing a component of one type for one entity leaves every other entry
/// as it was: the other entities' components, and the other component types
/// of the same entity, read as before.
pub proof fn law_write_leaves_others<T: Component, U: Component>(
    before: Tables,
    after: Tables,
    id: u64,
    c: T,
    id2: u64,
    r: Option<U>,
)
    requires
        stores_typed(after, before, id, c),
        id2 != id || type_key::<U>() != type_key::<T>(),
    ensures
        typed_result::<U>(after, id2, r) <==> typed_result::<U>(before, id2, r),
{
    let k = type_key::<U>();
    assert(holds(after, k, id2) == holds(before, k, id2));
    if holds(before, k, id2) {
        assert(after[k][id2] == before[k][id2]);
    }
}

/// Once the component of a type is removed from an entity, reading it gives
/// nothing.
pub proof fn law_removed_reads_none<T: Component>(before: Tables, id: u64, r: Option<T>)
    requires
        typed_result::<T>(unstore(before, type_key::<T>(), id), id, r),
    ensures
        r is None,
{
}

/// An entity that is not active (deleted, or never spawned in this world) has
/// no components and no ephemeral components: every read gives nothing.
pub proof fn law_inactive_entity_has_nothing<T: Component>(w: WorldView, e: Entity, r: Option<T>, q: Option<T>)
    requires
        !w.is_active(e),
    ensures
        !w.has_component::<T>(e),
        !w.has_ephemeral_component::<T>(e),
        w.component_result::<T>(e, r) ==> r is None,
        w.ephemeral_result::<T>(e, q) ==> q is None,
{
}

/// A newly spawned entity is active and has no components, regular or
/// ephemeral.
pub proof fn law_spawned_entity_is_bare<T: Component>(before: WorldView, after: WorldView, e: Entity)
    requires
        forall|k: TypeId| !holds(before.components, k, e.id()),
        forall|k: TypeId| !holds(before.ephemeral, k, e.id()),
        after == (WorldView {
            active: before.active.insert(e.id()),
            spawned: before.spawned.insert(e.id()),
            spawns_left: (before.spawns_left - 1) as nat,
            ..before
        }),
    ensures
        after.is_active(e),
        !after.has_component::<T>(e),
        !after.has_ephemeral_component::<T>(e),
{
    assert(!holds(before.components, type_key::<T>(), e.id()));
    assert(!holds(before.ephemeral, type_key::<T>(), e.id()));
}

/// A handle to an entity that a world spawned earlier, deleted or not, is
/// never equal to an entity the world spawns later: identifiers are not
/// reused.
pub proof fn law_no_identifier_reuse(before: WorldView, earlier: Entity, later: Entity)
    requires
        before.spawned.contains(earlier.id()),
        !before.spawned.contains(later.id()),
    ensures
        earlier != later,
{
}

/// Cleaning up deleted entities twice is the same as once.
pub proof fn law_cleanup_idempotent(w: WorldView)
    ensures
        w.after_cleanup().after_cleanup() == w.after_cleanup(),
{
    let once = w.after_cleanup();
    assert(once.after_cleanup().components =~= once.components) by {
        assert forall|k: TypeId| #[trigger] once.components.contains_key(k) implies once.after_cleanup().components[k]
            == once.components[k] by {
            assert(once.components[k].remove_keys(Set::empty()) =~= once.components[k]);
        }
    }
}

/// Cleanup drops every entry of a deleted entity and leaves the entries of
/// every other identifier (live entities and resources) as they were.
pub proof fn law_cleanup_drops_only_deleted<T: Component>(w: WorldView, id: u64, r: Option<T>)
    ensures
        w.pending.contains(id) ==> forall|k: TypeId| !holds(w.after_cleanup().components, k, id),
        !w.pending.contains(id) ==> (typed_result::<T>(w.after_cleanup().components, id, r) <==> typed_result::<T>(
            w.components,
            id,
            r,
        )),
{
    let k = type_key::<T>();
    if !w.pending.contains(id) && holds(w.components, k, id) {
        assert(w.after_cleanup().components[k][id] == w.components[k][id]);
    }
}

/// Clearing the ephemeral storage removes every ephemeral component and leaves
/// the regular components, resources and entities as they were.
pub proof fn law_ephemeral_cleared<T: Component>(w: WorldView, e: Entity)
    ensures
        !w.with_ephemeral(Map::empty()).has_ephemeral_component::<T>(e),
        w.with_ephemeral(Map::empty()).has_component::<T>(e) == w.has_component::<T>(e),
        w.with_ephemeral(Map::empty()).has_resource::<T>() == w.has_resource::<T>(),
        w.with_ephemeral(Map::empty()).is_active(e) == w.is_active(e),
{
}

/// What is written as a resource is what is read back: once `insert_resource`
/// has stored `c`, every result that `get_resource` or `remove_resource` may
/// give is `Some(c)`, and the resource exists.
pub proof fn law_resource_read_after_write<T: Component>(before: WorldView, after: WorldView, c: T, r: Option<T>)
    requires
        after == before.with_components(after.components),
        stores_typed(after.components, before.components, before.resource_id, c),
        after.resource_result::<T>(r),
    ensures
        r == Some(c),
        after.has_resource::<T>(),
{
    let k = type_key::<T>();
    let v = choose|v: ErasedComponent|
        after.components == store(before.components, k, before.resource_id, v) && erases_to(c, v);
    assert(after.components[k][before.resource_id] == v);
    assert(erases_to(c, after.components[k][before.resource_id]));
}

/// A query whose filters both require and exclude the same component type
/// (regular or ephemeral), or that excludes its own primary type, selects
/// nothing.
pub proof fn law_contradictory_query_selects_nothing<T: Component>(
    q: QueryView,
    w: WorldView,
    k: TypeId,
    primary_ephemeral: bool,
)
    requires
        (q.with.contains(k) && q.without.contains(k)) || (q.with_ephemeral.contains(k)
            && q.without_ephemeral.contains(k)) || (!primary_ephemeral && q.without.contains(type_key::<T>()))
            || (primary_ephemeral && q.without_ephemeral.contains(type_key::<T>())),
    ensures
        q.selected::<T>(w, primary_ephemeral) == Set::<u64>::empty(),
{
    assert forall|id: u64| !#[trigger] q.selects::<T>(w, id, primary_ephemeral) by {
        if q.selects::<T>(w, id, primary_ephemeral) {
            if q.with.contains(k) && q.without.contains(k) {
                assert(holds(w.components, k, id) && !holds(w.components, k, id));
            } else if q.with_ephemeral.contains(k) && q.without_ephemeral.contains(k) {
                assert(holds(w.ephemeral, k, id) && !holds(w.ephemeral, k, id));
            } else if !primary_ephemeral {
                assert(!holds(w.components, type_key::<T>(), id));
            } else {
                assert(!holds(w.ephemeral, type_key::<T>(), id));
            }
        }
    }
    assert(q.selected::<T>(w, primary_ephemeral) =~= Set::<u64>::empty());
}

/// One more type in a filter adds one more condition.
proof fn lemma_all_hold_insert(tables: Tables, keys: Set<TypeId>, k: TypeId, id: u64, present: bool)
    ensures
        all_hold(tables, keys.insert(k), id, present) == (all_hold(tables, keys, id, present) && holds(tables, k, id)
            == present),
{
    if all_hold(tables, keys.insert(k), id, present) {
        assert(keys.insert(k).contains(k));
        assert forall|k2: TypeId| #[trigger] keys.contains(k2) implies holds(tables, k2, id) == present by {
            assert(keys.insert(k).contains(k2));
        }
    }
}

/// Adding a filter for a component type splits the result of a query in two:
/// the entities with the component and those without it, disjoint, each
/// within the result of the query without the filter, and together all of it.
/// The same holds of ephemeral filters.
pub proof fn law_filter_splits_result<T: Component>(q: QueryView, w: WorldView, k: TypeId, primary_ephemeral: bool)
    ensures
        ({
            let all = q.selected::<T>(w, primary_ephemeral);
            let with = q.requiring(k).selected::<T>(w, primary_ephemeral);
            let without = q.excluding(k).selected::<T>(w, primary_ephemeral);
            &&& with.subset_of(all)
            &&& without.subset_of(all)
            &&& with.disjoint(without)
            &&& with + without == all
        }),
        ({
            let all = q.selected::<T>(w, primary_ephemeral);
            let with = q.requiring_ephemeral(k).selected::<T>(w, primary_ephemeral);
            let without = q.excluding_ephemeral(k).selected::<T>(w, primary_ephemeral);
            &&& with.subset_of(all)
            &&& without.subset_of(all)
            &&& with.disjoint(without)
            &&& with + without == all
        }),
{
    let all = q.selected::<T>(w, primary_ephemeral);
    let qa = q.requiring(k);
    let qb = q.excluding(k);
    let qc = q.requiring_ephemeral(k);
    let qd = q.excluding_ephemeral(k);
    assert forall|id: u64|
        #![trigger qa.selects::<T>(w, id, primary_ephemeral)]
        #![trigger qb.selects::<T>(w, id, primary_ephemeral)]
        #![trigger qc.selects::<T>(w, id, primary_ephemeral)]
        #![trigger qd.selects::<T>(w, id, primary_ephemeral)]
        #![trigger all.contains(id)]
        (qa.selects::<T>(w, id, primary_ephemeral) == (all.contains(id) && holds(w.components, k, id)))
            && (qb.selects::<T>(w, id, primary_ephemeral) == (all.contains(id) && !holds(w.components, k, id)))
            && (qc.selects::<T>(w, id, primary_ephemeral) == (all.contains(id) && holds(w.ephemeral, k, id)))
            && (qd.selects::<T>(w, id, primary_ephemeral) == (all.contains(id) && !holds(w.ephemeral, k, id))) by {
        lemma_all_hold_insert(w.components, q.with, k, id, true);
        lemma_all_hold_insert(w.components, q.without, k, id, false);
        lemma_all_hold_insert(w.ephemeral, q.with_ephemeral, k, id, true);
        lemma_all_hold_insert(w.ephemeral, q.without_ephemeral, k, id, false);
    }
    assert(qa.selected::<T>(w, primary_ephemeral) + qb.selected::<T>(w, primary_ephemeral) =~= all);
    assert(qc.selected::<T>(w, primary_ephemeral) + qd.selected::<T>(w, primary_ephemeral) =~= all);
}

/// Regular filters look at regular components, and ephemeral filters at
/// ephemeral ones: a selected entity has a regular component of every type
/// that `with` names and none that `without` names, and likewise for the
/// ephemeral filters; an active entity that has its primary component and
/// meets all four filters is selected; and a query without ephemeral filters
/// over regular components selects the same entities whatever the ephemeral
/// tables hold.
pub proof fn law_filters_read_their_own_tables<T: Component>(
    q: QueryView,
    w: WorldView,
    id: u64,
    k: TypeId,
    primary_ephemeral: bool,
    eph: Tables,
)
    ensures
        q.selects::<T>(w, id, primary_ephemeral) && q.with.contains(k) ==> holds(w.components, k, id),
        q.selects::<T>(w, id, primary_ephemeral) && q.without.contains(k) ==> !holds(w.components, k, id),
        q.selects::<T>(w, id, primary_ephemeral) && q.with_ephemeral.contains(k) ==> holds(w.ephemeral, k, id),
        q.selects::<T>(w, id, primary_ephemeral) && q.without_ephemeral.contains(k) ==> !holds(w.ephemeral, k, id),
        ({
            &&& w.active.contains(id)
            &&& holds(if primary_ephemeral { w.ephemeral } else { w.components }, type_key::<T>(), id)
            &&& forall|k2: TypeId| q.with.contains(k2) ==> holds(w.components, k2, id)
            &&& forall|k2: TypeId| q.without.contains(k2) ==> !holds(w.components, k2, id)
            &&& forall|k2: TypeId| q.with_ephemeral.contains(k2) ==> holds(w.ephemeral, k2, id)
            &&& forall|k2: TypeId| q.without_ephemeral.contains(k2) ==> !holds(w.ephemeral, k2, id)
        }) ==> q.selects::<T>(w, id, primary_ephemeral),
        q.with_ephemeral.is_empty() && q.without_ephemeral.is_empty() ==> (q.selects::<T>(w.with_ephemeral(eph), id, false)
            == q.selects::<T>(w, id, false)),
{
    if q.with_ephemeral.is_empty() && q.without_ephemeral.is_empty() {
        assert(forall|k2: TypeId| !q.with_ephemeral.contains(k2));
        assert(forall|k2: TypeId| !q.without_ephemeral.contains(k2));
    }
}

/// Adding the same filter twice is the same as adding it once, and filters
/// added in either order give the same query.
pub proof fn law_filters_repeat_and_commute(q: QueryView, a: TypeId, b: TypeId)
    ensures
        q.requiring(a).requiring(a) == q.requiring(a),
        q.requiring(a).requiring(b) == q.requiring(b).requiring(a),
        q.excluding(a).excluding(a) == q.excluding(a),
        q.excluding(a).excluding(b) == q.excluding(b).excluding(a),
        q.requiring_ephemeral(a).requiring_ephemeral(a) == q.requiring_ephemeral(a),
        q.requiring_ephemeral(a).requiring_ephemeral(b) == q.requiring_ephemeral(b).requiring_ephemeral(a),
        q.excluding_ephemeral(a).excluding_ephemeral(a) == q.excluding_ephemeral(a),
        q.excluding_ephemeral(a).excluding_ephemeral(b) == q.excluding_ephemeral(b).excluding_ephemeral(a),
{
    assert(q.with.insert(a).insert(a) =~= q.with.insert(a));
    assert(q.with.insert(a).insert(b) =~= q.with.insert(b).insert(a));
    assert(q.without.insert(a).insert(a) =~= q.without.insert(a));
    assert(q.without.insert(a).insert(b) =~= q.without.insert(b).insert(a));
    assert(q.with_ephemeral.insert(a).insert(a) =~= q.with_ephemeral.insert(a));
    assert(q.with_ephemeral.insert(a).insert(b) =~= q.with_ephemeral.insert(b).insert(a));
    assert(q.without_ephemeral.insert(a).insert(a) =~= q.without_ephemeral.insert(a));
    assert(q.without_ephemeral.insert(a).insert(b) =~= q.without_ephemeral.insert(b).insert(a));
}

/// A strictly increasing sequence of naturals starts at least at its position.
proof fn lemma_increasing_at_least_index(order: Seq<usize>, i: int)
    requires
        0 <= i < order.len(),
        forall|a: int, b: int| 0 <= a < b < order.len() ==> #[trigger] order[a] < #[trigger] order[b],
    ensures
        order[i] >= i,
    decreases i,
{
    if i > 0 {
        lemma_increasing_at_least_index(order, i - 1);
        assert(order[i - 1] < order[i]);
    }
}

/// A strictly increasing sequence below `n` ends at most at `n - 1`, and so
/// each entry is at most what is left after it.
proof fn lemma_increasing_at_most(order: Seq<usize>, n: int, i: int)
    requires
        0 <= i < order.len(),
        forall|b: int| 0 <= b < order.len() ==> #[trigger] order[b] < n,
        forall|a: int, b: int| 0 <= a < b < order.len() ==> #[trigger] order[a] < #[trigger] order[b],
    ensures
        order[i] <= n - (order.len() - i),
    decreases order.len() - i,
{
    if i + 1 < order.len() {
        lemma_increasing_at_most(order, n, i + 1);
        assert(order[i] < order[i + 1]);
    }
}

/// When no system depends on another, the systems run in the order in which
/// they were added.
pub proof fn law_independent_systems_keep_insertion_order(order: Seq<usize>, n: nat, preds: Seq<Seq<usize>>)
    requires
        is_schedule(order, n, preds),
        roots_first(order, preds),
        forall|v: int| 0 <= v < n ==> #[trigger] preds[v].len() == 0,
    ensures
        forall|i: int| 0 <= i < n ==> #[trigger] order[i] == i,
{
    assert forall|a: int, b: int| 0 <= a < b < order.len() implies #[trigger] order[a] < #[trigger] order[b] by {
        assert(preds[order[b] as int].len() == 0);
    }
    assert forall|i: int| 0 <= i < n implies #[trigger] order[i] == i by {
        lemma_increasing_at_least_index(order, i);
        lemma_increasing_at_most(order, n as int, i);
    }
}

} // verus!
