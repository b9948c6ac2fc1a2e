//! A scheduler that runs systems one after another in dependency order.

use crate::component::{ErasedComponent, type_key, type_key_of};
use crate::schedule::{acyclic, execution_order, first_in_first_out, is_graph, is_schedule, nested, roots_first};
use crate::system::System;
use crate::type_key::same_type_key;
use crate::world::{World, WorldView};
use std::any::TypeId;
use vstd::prelude::*;

verus! {

/// The last position of `d` in `keys`, or -1.
pub open spec fn last_position(keys: Seq<TypeId>, d: TypeId) -> int
    decreases keys.len(),
{
    if keys.len() == 0 {
        -1
    } else if keys.last() == d {
        keys.len() - 1
    } else {
        last_position(keys.drop_last(), d)
    }
}

/// The positions of the systems named by `deps` (the last system of each
/// named type; names of unregistered types are skipped), in the order of `deps`.
pub open spec fn resolved(keys: Seq<TypeId>, deps: Seq<TypeId>) -> Seq<usize>
    decreases deps.len(),
{
    if deps.len() == 0 {
        Seq::empty()
    } else {
        let rest = resolved(keys, deps.drop_last());
        let p = last_position(keys, deps.last());
        if p >= 0 {
            rest.push(p as usize)
        } else {
            rest
        }
    }
}

/// The dependency graph of systems with type identities `keys` and declared
/// dependencies `deps`: for each system, the systems that must run before it.
pub open spec fn dependency_graph(keys: Seq<TypeId>, deps: Seq<Seq<TypeId>>) -> Seq<Seq<usize>> {
    Seq::new(deps.len(), |i: int| resolved(keys, deps[i]))
}

/// The abstract state of a scheduler.
pub struct SchedulerView {
    /// Type identities of the registered systems, in registration order.
    pub keys: Seq<TypeId>,
    /// Declared dependencies of the registered systems.
    pub deps: Seq<Seq<TypeId>>,
    /// Execution order (positions of systems), fixed by `build`.
    pub order: Seq<usize>,
    /// Whether `build` has succeeded.
    pub built: bool,
}

impl SchedulerView {
    /// The dependency graph of the registered systems.
    pub open spec fn graph(self) -> Seq<Seq<usize>> {
        dependency_graph(self.keys, self.deps)
    }
}

/// The message of the error returned by `add_system` once built.
pub open spec fn already_built_message() -> Seq<char> {
    "Cannot add systems after scheduler has been built. Create a new scheduler if you need to add more systems."@
}

/// The message of the error returned by `build` on circular dependencies.
pub open spec fn cycle_message() -> Seq<char> {
    "Circular dependency detected in system dependencies"@
}

/// A phase of a tick.
pub enum TickPhase {
    /// `System::before_run`.
    BeforeRun,
    /// `System::run`.
    Run,
    /// `System::after_run`.
    AfterRun,
}

/// One phase's calls over an execution order: the phase of each system, in
/// that order.
pub open spec fn phase_calls(order: Seq<usize>, phase: TickPhase) -> Seq<(TickPhase, usize)> {
    order.map_values(|x: usize| (phase, x))
}

/// The calls of one tick over an execution order: every system's
/// `before_run` in that order, then every `run`, then every `after_run`.
pub open spec fn tick_calls(order: Seq<usize>) -> Seq<(TickPhase, usize)> {
    phase_calls(order, TickPhase::BeforeRun) + phase_calls(order, TickPhase::Run) + phase_calls(
        order,
        TickPhase::AfterRun,
    )
}

/// A tick makes three calls per system, phase by phase: for every position
/// `k` of the execution order, the `k`-th call is the `before_run` of the
/// system at that position, the `n + k`-th its `run` and the `2n + k`-th its
/// `after_run`; so every `before_run` comes before every `run`, every `run`
/// before every `after_run`, and within a phase a system is called after
/// every system it depends on whenever the order is a schedule.
pub proof fn law_tick_calls_phase_by_phase(order: Seq<usize>)
    ensures
        tick_calls(order).len() == 3 * order.len(),
        forall|k: int| 0 <= k < order.len() ==> #[trigger] tick_calls(order)[k] == (TickPhase::BeforeRun, order[k]),
        forall|k: int| 0 <= k < order.len() ==> #[trigger] tick_calls(order)[order.len() + k] == (
            TickPhase::Run,
            order[k],
        ),
        forall|k: int| 0 <= k < order.len() ==> #[trigger] tick_calls(order)[2 * order.len() + k] == (
            TickPhase::AfterRun,
            order[k],
        ),
{
    let n = order.len() as int;
    let a = phase_calls(order, TickPhase::BeforeRun);
    let b = phase_calls(order, TickPhase::Run);
    let c = phase_calls(order, TickPhase::AfterRun);
    assert forall|k: int| 0 <= k < n implies #[trigger] tick_calls(order)[n + k] == (TickPhase::Run, order[k]) by {
        assert((a + b)[n + k] == b[k]);
    }
    assert forall|k: int| 0 <= k < n implies #[trigger] tick_calls(order)[2 * n + k] == (TickPhase::AfterRun, order[k]) by {
        assert((a + b + c)[2 * n + k] == c[k]);
    }
}

/// Appending the call of the next system of a phase.
proof fn lemma_phase_calls_take(order: Seq<usize>, phase: TickPhase, i: int)
    requires
        0 <= i < order.len(),
    ensures
        phase_calls(order, phase).take(i + 1) == phase_calls(order, phase).take(i).push((phase, order[i])),
{
    assert(phase_calls(order, phase).take(i + 1) =~= phase_calls(order, phase).take(i).push((phase, order[i])));
}

/// A registered system.
struct SystemInfo {
    system: Box<dyn System>,
    type_id: TypeId,
    dependencies: Vec<TypeId>,
}

/// A scheduler that executes systems sequentially in dependency order.
///
/// Each tick runs every system's `before_run`, then every `run`, then every
/// `after_run`, each phase in execution order; then it drops the component
/// data of deleted entities and clears all ephemeral components.
pub struct SequentialSystemScheduler {
    systems: Vec<SystemInfo>,
    execution_order: Vec<usize>,
    is_built: bool,
}

/// The type identities of registered systems.
spec fn keys_of(s: Seq<SystemInfo>) -> Seq<TypeId> {
    Seq::new(s.len(), |i: int| s[i].type_id)
}

/// The declared dependencies of registered systems.
spec fn deps_of(s: Seq<SystemInfo>) -> Seq<Seq<TypeId>> {
    Seq::new(s.len(), |i: int| s[i].dependencies@)
}

/// Appends a registered system.
fn push_system(systems: &mut Vec<SystemInfo>, info: SystemInfo)
    ensures
        keys_of(final(systems)@) == keys_of(old(systems)@).push(info.type_id),
        deps_of(final(systems)@) == deps_of(old(systems)@).push(info.dependencies@),
{
    let ghost before = systems@;
    systems.push(info);
    assert(keys_of(systems@) =~= keys_of(before).push(info.type_id));
    assert(deps_of(systems@) =~= deps_of(before).push(info.dependencies@));
}

impl View for SequentialSystemScheduler {
    type V = SchedulerView;

    closed spec fn view(&self) -> SchedulerView {
        SchedulerView {
            keys: keys_of(self.systems@),
            deps: deps_of(self.systems@),
            order: self.execution_order@,
            built: self.is_built,
        }
    }
}

impl SequentialSystemScheduler {
    /// Internal consistency: once built, the execution order is a schedule of
    /// the dependency graph.
    pub closed spec fn wf(&self) -> bool {
        self.is_built ==> is_schedule(self@.order, self@.keys.len() as nat, self@.graph())
    }

    /// Creates a new empty scheduler.
    pub fn new() -> (s: Self)
        ensures
            s.wf(),
            s@.keys == Seq::<TypeId>::empty(),
            s@.deps == Seq::<Seq<TypeId>>::empty(),
            s@.order == Seq::<usize>::empty(),
            !s@.built,
    {
        let s = SequentialSystemScheduler { systems: Vec::new(), execution_order: Vec::new(), is_built: false };
        assert(s@.keys =~= Seq::<TypeId>::empty());
        assert(s@.deps =~= Seq::<Seq<TypeId>>::empty());
        s
    }

    /// The number of registered systems.
    pub fn system_count(&self) -> (r: usize)
        ensures
            r == self@.keys.len(),
    {
        self.systems.len()
    }

    /// Registers a system, with the dependencies it declares. Fails, changing
    /// nothing, once the scheduler has been built.
    pub fn add_system<S: System + 'static>(&mut self, system: S) -> (r: Result<(), String>)
        requires
            old(self).wf(),
        ensures
            final(self).wf(),
            old(self)@.built ==> {
                &&& r matches Err(m) && m@ == already_built_message()
                &&& final(self)@ == old(self)@
            },
            !old(self)@.built ==> {
                &&& r is Ok
                &&& final(self)@.keys == old(self)@.keys.push(type_key::<S>())
                &&& exists|d: &[TypeId]| #[trigger] call_ensures(S::dependencies, (&system,), d)
                    && final(self)@.deps == old(self)@.deps.push(d@)
                &&& final(self)@.order == old(self)@.order
                &&& !final(self)@.built
            },
    {
        if self.is_built {
            return Err(
                "Cannot add systems after scheduler has been built. Create a new scheduler if you need to add more systems.".to_string(),
            );
        }
        let type_id = type_key_of::<S>();
        let declared = system.dependencies();
        assert(call_ensures(S::dependencies, (&system,), declared));
        let mut dependencies: Vec<TypeId> = Vec::new();
        let mut i: usize = 0;
        while i < declared.len()
            invariant
                i <= declared@.len(),
                dependencies@ == declared@.take(i as int),
            decreases declared@.len() - i,
        {
            dependencies.push(declared[i]);
            i = i + 1;
            assert(dependencies@ =~= declared@.take(i as int));
        }
        assert(dependencies@ =~= declared@);
        let info = SystemInfo { system: Box::new(system), type_id, dependencies };
        push_system(&mut self.systems, info);
        Ok(())
    }
}

/// A position found by `last_position` is a position holding the name.
proof fn lemma_last_position(keys: Seq<TypeId>, d: TypeId)
    ensures
        -1 <= last_position(keys, d) < keys.len(),
        last_position(keys, d) >= 0 ==> keys[last_position(keys, d)] == d,
        last_position(keys, d) == -1 <==> !keys.contains(d),
        forall|j: int| last_position(keys, d) < j < keys.len() ==> keys[j] != d,
    decreases keys.len(),
{
    if keys.len() > 0 {
        lemma_last_position(keys.drop_last(), d);
        if keys.last() != d {
            if keys.contains(d) {
                let j = keys.index_of(d);
                assert(keys.drop_last()[j] == d);
            }
            assert forall|j: int| last_position(keys, d) < j < keys.len() implies keys[j] != d by {
                if j < keys.len() - 1 {
                    assert(keys[j] == keys.drop_last()[j]);
                }
            }
        } else {
            assert(keys.contains(d)) by {
                assert(keys[keys.len() - 1] == d);
            }
        }
        if keys.drop_last().contains(d) {
            let j = keys.drop_last().index_of(d);
            assert(keys[j] == d);
        }
    }
}

/// Every declared dependency that names a registered system is resolved to
/// the position of the last system of that type.
proof fn lemma_resolved_contains(keys: Seq<TypeId>, deps: Seq<TypeId>, m: int)
    requires
        0 <= m < deps.len(),
        last_position(keys, deps[m]) >= 0,
    ensures
        resolved(keys, deps).contains(last_position(keys, deps[m]) as usize),
    decreases deps.len(),
{
    let rest = deps.drop_last();
    if m < deps.len() - 1 {
        assert(rest[m] == deps[m]);
        lemma_resolved_contains(keys, rest, m);
        let r = resolved(keys, rest);
        let a = r.index_of(last_position(keys, deps[m]) as usize);
        let p = last_position(keys, deps.last());
        if p >= 0 {
            assert(resolved(keys, deps) == r.push(p as usize));
            assert(resolved(keys, deps)[a] == r[a]);
        }
    } else {
        let r = resolved(keys, rest);
        assert(resolved(keys, deps) == r.push(last_position(keys, deps[m]) as usize));
        assert(resolved(keys, deps)[r.len() as int] == last_position(keys, deps[m]) as usize);
    }
}

/// Every declared dependency is honoured: once built, for each system and
/// each type in its dependency list that names a registered system, the last
/// registered system of that type runs before it.
pub proof fn law_every_declared_dependency_runs_first(s: SchedulerView, i: int, m: int, j: int)
    requires
        s.keys.len() <= usize::MAX,
        s.deps.len() == s.keys.len(),
        is_schedule(s.order, s.keys.len() as nat, s.graph()),
        0 <= i < s.keys.len(),
        0 <= m < s.deps[i].len(),
        0 <= j < s.keys.len(),
        s.keys[j] == s.deps[i][m],
        forall|j2: int| j < j2 < s.keys.len() ==> s.keys[j2] != s.deps[i][m],
    ensures
        exists|a: int, b: int| 0 <= a < b < s.order.len() && s.order[a] == j && s.order[b] == i,
{
    let d = s.deps[i][m];
    lemma_last_position(s.keys, d);
    assert(s.keys.contains(d)) by {
        assert(s.keys[j] == d);
    }
    assert(last_position(s.keys, d) == j);
    lemma_resolved_contains(s.keys, s.deps[i], m);
    let g = s.graph();
    assert(g[i] == resolved(s.keys, s.deps[i]));
    let n = s.keys.len() as nat;
    crate::schedule::lemma_schedule_covers(s.order, n, g);
    assert(s.order.contains(i as usize));
    let b = s.order.index_of(i as usize);
    let k = g[i].index_of(j as usize);
    assert(g[s.order[b] as int][k] == j as usize);
    assert(s.order.take(b).contains(j as usize));
    let a = s.order.take(b).index_of(j as usize);
    assert(s.order[a] == j);
}

/// Resolved positions are positions of registered systems.
proof fn lemma_resolved_bound(keys: Seq<TypeId>, deps: Seq<TypeId>)
    ensures
        forall|k: int| 0 <= k < resolved(keys, deps).len() ==> #[trigger] resolved(keys, deps)[k] < keys.len(),
    decreases deps.len(),
{
    if deps.len() > 0 {
        lemma_resolved_bound(keys, deps.drop_last());
        lemma_last_position(keys, deps.last());
        let rest = resolved(keys, deps.drop_last());
        assert forall|k: int| 0 <= k < resolved(keys, deps).len() implies #[trigger] resolved(keys, deps)[k] < keys.len() by {
            if k < rest.len() {
                assert(resolved(keys, deps)[k] == rest[k]);
            }
        }
    }
}

/// The last position of a system of type `d`.
fn find_last(systems: &Vec<SystemInfo>, d: &TypeId) -> (r: Option<usize>)
    ensures
        match r {
            Some(i) => i as int == last_position(keys_of(systems@), *d),
            None => last_position(keys_of(systems@), *d) == -1,
        },
{
    let ghost keys = keys_of(systems@);
    proof {
        lemma_last_position(keys, *d);
    }
    let mut i: usize = systems.len();
    while i > 0
        invariant
            i <= systems@.len(),
            keys == keys_of(systems@),
            forall|j: int| i <= j < keys.len() ==> keys[j] != *d,
            -1 <= last_position(keys, *d) < keys.len(),
            last_position(keys, *d) >= 0 ==> keys[last_position(keys, *d)] == *d,
            forall|j: int| last_position(keys, *d) < j < keys.len() ==> keys[j] != *d,
        decreases i,
    {
        i = i - 1;
        if same_type_key(&systems[i].type_id, d) {
            assert(keys[i as int] == *d);
            return Some(i);
        }
    }
    None
}

/// The positions of the systems named by `deps`.
fn resolve(systems: &Vec<SystemInfo>, deps: &Vec<TypeId>) -> (r: Vec<usize>)
    ensures
        r@ == resolved(keys_of(systems@), deps@),
{
    let mut out: Vec<usize> = Vec::new();
    let mut k: usize = 0;
    while k < deps.len()
        invariant
            k <= deps@.len(),
            out@ == resolved(keys_of(systems@), deps@.take(k as int)),
        decreases deps@.len() - k,
    {
        let ghost prefix = deps@.take(k as int);
        assert(deps@.take(k + 1 as int).drop_last() =~= prefix);
        match find_last(systems, &deps[k]) {
            Some(p) => {
                out.push(p);
            },
            None => {},
        }
        k = k + 1;
    }
    assert(deps@.take(k as int) =~= deps@);
    out
}

impl SequentialSystemScheduler {
    /// For each system, the positions of the systems it depends on.
    fn dependency_lists(&self) -> (r: Vec<Vec<usize>>)
        ensures
            nested(r@) == self@.graph(),
            is_graph(self@.keys.len() as nat, self@.graph()),
    {
        let mut out: Vec<Vec<usize>> = Vec::new();
        let mut i: usize = 0;
        while i < self.systems.len()
            invariant
                i <= self.systems@.len(),
                out@.len() == i,
                forall|j: int| 0 <= j < i ==> (#[trigger] out@[j])@ == resolved(self@.keys, self@.deps[j]),
            decreases self.systems@.len() - i,
        {
            let r = resolve(&self.systems, &self.systems[i].dependencies);
            out.push(r);
            i = i + 1;
        }
        assert(nested(out@) =~= self@.graph());
        assert forall|v: int, k: int| 0 <= v < self@.keys.len() && 0 <= k < self@.graph()[v].len() implies #[trigger] self@.graph()[v][k]
            < self@.keys.len() by {
            lemma_resolved_bound(self@.keys, self@.deps[v]);
        }
        out
    }

    /// Computes the execution order from the dependencies.
    fn resolve_dependencies(&mut self) -> (r: Result<(), String>)
        requires
            !old(self)@.built,
        ensures
            final(self)@.keys == old(self)@.keys,
            final(self)@.deps == old(self)@.deps,
            !final(self)@.built,
            r is Ok <==> acyclic(old(self)@.keys.len() as nat, old(self)@.graph()),
            r is Ok ==> is_schedule(final(self)@.order, old(self)@.keys.len() as nat, old(self)@.graph()),
            r is Ok ==> roots_first(final(self)@.order, old(self)@.graph()),
            r is Ok ==> first_in_first_out(final(self)@.order, old(self)@.graph()),
            r matches Err(m) ==> m@ == cycle_message() && final(self)@ == old(self)@,
    {
        let lists = self.dependency_lists();
        match execution_order(&lists) {
            Some(order) => {
                self.execution_order = order;
                Ok(())
            },
            None => Err("Circular dependency detected in system dependencies".to_string()),
        }
    }

    /// Fixes the execution order of the registered systems. Succeeds exactly when
    /// their dependencies have no cycle; the order then lists every system once,
    /// each after the systems it depends on, with the systems that depend on no
    /// registered system first, in the order they were added, and every other
    /// system as soon as the last of its dependencies has been placed (ties in
    /// the order they were added). Once built, a scheduler stays
    /// built and a second call does nothing.
    pub fn build(&mut self) -> (r: Result<(), String>)
        requires
            old(self).wf(),
        ensures
            final(self).wf(),
            old(self)@.built ==> r is Ok && final(self)@ == old(self)@,
            !old(self)@.built ==> {
                &&& r is Ok <==> acyclic(old(self)@.keys.len() as nat, old(self)@.graph())
                &&& r is Ok ==> final(self)@ == (SchedulerView { order: final(self)@.order, built: true, ..old(self)@ })
                &&& r is Ok ==> is_schedule(final(self)@.order, old(self)@.keys.len() as nat, old(self)@.graph())
                &&& r is Ok ==> roots_first(final(self)@.order, old(self)@.graph())
                &&& r is Ok ==> first_in_first_out(final(self)@.order, old(self)@.graph())
                &&& r matches Err(m) ==> m@ == cycle_message() && final(self)@ == old(self)@
            },
    {
        if self.is_built {
            return Ok(());
        }
        let r = self.resolve_dependencies();
        if r.is_ok() {
            self.is_built = true;
        }
        r
    }

    /// Runs one tick: every system's `before_run`, then every `run`, then every
    /// `after_run`, each phase in execution order; then drops the component data
    /// of deleted entities and clears all ephemeral components.
    pub fn run_tick(&self, world: &mut World)
        requires
            self.wf(),
            self@.built,
            old(world).wf(),
        ensures
            final(world).wf(),
            exists|mid: WorldView|
                #![trigger mid.after_cleanup()]
                old(world)@.spawned.subset_of(mid.spawned) && mid.resource_id == old(world)@.resource_id
                    && final(world)@ == mid.after_cleanup().with_ephemeral(Map::empty()),
            old(world)@.spawned.subset_of(final(world)@.spawned),
            final(world)@.resource_id == old(world)@.resource_id,
            final(world)@.pending == Set::<u64>::empty(),
            final(world)@.ephemeral == Map::<TypeId, Map<u64, ErasedComponent>>::empty(),
    {
        let n = self.execution_order.len();
        let ghost mut calls: Seq<(TickPhase, usize)> = Seq::empty();
        assert(phase_calls(self@.order, TickPhase::BeforeRun).take(0) =~= calls);
        let mut i: usize = 0;
        while i < n
            invariant
                self.wf(),
                self@.built,
                n == self@.order.len(),
                i <= n,
                world.wf(),
                old(world)@.spawned.subset_of(world@.spawned),
                world@.resource_id == old(world)@.resource_id,
                calls == phase_calls(self@.order, TickPhase::BeforeRun).take(i as int),
            decreases n - i,
        {
            let index = self.execution_order[i];
            self.systems[index].system.before_run(world);
            proof {
                lemma_phase_calls_take(self@.order, TickPhase::BeforeRun, i as int);
                calls = calls.push((TickPhase::BeforeRun, index));
            }
            i = i + 1;
        }
        proof {
            assert(phase_calls(self@.order, TickPhase::BeforeRun).take(n as int) =~= phase_calls(
                self@.order,
                TickPhase::BeforeRun,
            ));
            assert(phase_calls(self@.order, TickPhase::Run).take(0) =~= Seq::<(TickPhase, usize)>::empty());
            assert(calls =~= phase_calls(self@.order, TickPhase::BeforeRun) + phase_calls(self@.order, TickPhase::Run).take(
                0,
            ));
        }
        let mut i: usize = 0;
        while i < n
            invariant
                self.wf(),
                self@.built,
                n == self@.order.len(),
                i <= n,
                world.wf(),
                old(world)@.spawned.subset_of(world@.spawned),
                world@.resource_id == old(world)@.resource_id,
                calls == phase_calls(self@.order, TickPhase::BeforeRun) + phase_calls(self@.order, TickPhase::Run).take(
                    i as int,
                ),
            decreases n - i,
        {
            let index = self.execution_order[i];
            self.systems[index].system.run(world);
            proof {
                lemma_phase_calls_take(self@.order, TickPhase::Run, i as int);
                assert(calls.push((TickPhase::Run, index)) =~= phase_calls(self@.order, TickPhase::BeforeRun)
                    + phase_calls(self@.order, TickPhase::Run).take(i + 1 as int));
                calls = calls.push((TickPhase::Run, index));
            }
            i = i + 1;
        }
        proof {
            assert(phase_calls(self@.order, TickPhase::Run).take(n as int) =~= phase_calls(self@.order, TickPhase::Run));
            assert(phase_calls(self@.order, TickPhase::AfterRun).take(0) =~= Seq::<(TickPhase, usize)>::empty());
            assert(calls =~= phase_calls(self@.order, TickPhase::BeforeRun) + phase_calls(self@.order, TickPhase::Run)
                + phase_calls(self@.order, TickPhase::AfterRun).take(0));
        }
        let mut i: usize = 0;
        while i < n
            invariant
                self.wf(),
                self@.built,
                n == self@.order.len(),
                i <= n,
                world.wf(),
                old(world)@.spawned.subset_of(world@.spawned),
                world@.resource_id == old(world)@.resource_id,
                calls == phase_calls(self@.order, TickPhase::BeforeRun) + phase_calls(self@.order, TickPhase::Run)
                    + phase_calls(self@.order, TickPhase::AfterRun).take(i as int),
            decreases n - i,
        {
            let index = self.execution_order[i];
            self.systems[index].system.after_run(world);
            proof {
                lemma_phase_calls_take(self@.order, TickPhase::AfterRun, i as int);
                assert(calls.push((TickPhase::AfterRun, index)) =~= phase_calls(self@.order, TickPhase::BeforeRun)
                    + phase_calls(self@.order, TickPhase::Run) + phase_calls(self@.order, TickPhase::AfterRun).take(
                    i + 1 as int,
                ));
                calls = calls.push((TickPhase::AfterRun, index));
            }
            i = i + 1;
        }
        proof {
            assert(phase_calls(self@.order, TickPhase::AfterRun).take(n as int) =~= phase_calls(
                self@.order,
                TickPhase::AfterRun,
            ));
            assert(calls == tick_calls(self@.order));
        }
        let ghost mid = world@;
        world.cleanup_deleted_entities();
        world.clean_ephemeral_storage();
        assert(world@ == mid.after_cleanup().with_ephemeral(Map::empty()));
    }
}

impl Default for SequentialSystemScheduler {
    /// Creates a new empty scheduler, as [`SequentialSystemScheduler::new`] does.
    fn default() -> (s: Self)
        ensures
            s.wf(),
            s@.keys == Seq::<TypeId>::empty(),
            s@.deps == Seq::<Seq<TypeId>>::empty(),
            s@.order == Seq::<usize>::empty(),
            !s@.built,
    {
        SequentialSystemScheduler::new()
    }
}

} // verus!
