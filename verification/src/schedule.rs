//! Execution order of systems: a topological order of their dependency graph,
//! computed with Kahn's algorithm (first-in first-out).

use vstd::prelude::*;

verus! {

/// The views of nested vectors.
pub open spec fn nested(v: Seq<Vec<usize>>) -> Seq<Seq<usize>> {
    v.map_values(|x: Vec<usize>| x@)
}

/// Number of occurrences of `x` in `s`.
pub open spec fn count_of(s: Seq<usize>, x: usize) -> nat
    decreases s.len(),
{
    if s.len() == 0 {
        0
    } else {
        count_of(s.drop_last(), x) + if s.last() == x { 1nat } else { 0nat }
    }
}

/// Number of entries of `s` outside `done`.
pub open spec fn count_outside(s: Seq<usize>, done: Set<usize>) -> nat
    decreases s.len(),
{
    if s.len() == 0 {
        0
    } else {
        count_outside(s.drop_last(), done) + if done.contains(s.last()) { 0nat } else { 1nat }
    }
}

/// `preds` describes a graph on `n` nodes: `preds[v]` lists the nodes that must
/// come before `v` (possibly with repetitions).
pub open spec fn is_graph(n: nat, preds: Seq<Seq<usize>>) -> bool {
    &&& preds.len() == n
    &&& forall|v: int, k: int| 0 <= v < n && 0 <= k < preds[v].len() ==> #[trigger] preds[v][k] < n
}

/// `order` lists every node of the graph once, each after all its predecessors.
pub open spec fn is_schedule(order: Seq<usize>, n: nat, preds: Seq<Seq<usize>>) -> bool {
    &&& order.len() == n
    &&& order.no_duplicates()
    &&& forall|b: int| 0 <= b < n ==> #[trigger] order[b] < n
    &&& forall|b: int, k: int| 0 <= b < n && 0 <= k < preds[order[b] as int].len() ==> order.take(b).contains(
        #[trigger] preds[order[b] as int][k],
    )
}

/// Nodes without predecessors come before all other nodes, in increasing order.
pub open spec fn roots_first(order: Seq<usize>, preds: Seq<Seq<usize>>) -> bool {
    forall|i: int, j: int|
        #![trigger order[i], order[j]]
        0 <= i < j < order.len() && preds[order[j] as int].len() == 0 ==> preds[order[i] as int].len() == 0
            && order[i] < order[j]
}

/// A schedule lists every node.
pub proof fn lemma_schedule_covers(order: Seq<usize>, n: nat, preds: Seq<Seq<usize>>)
    requires
        n <= usize::MAX,
        is_schedule(order, n, preds),
    ensures
        forall|r: usize| r < n ==> order.contains(r),
{
    lemma_distinct_nodes(order, n);
}

/// The graph has no cycle: some order of its nodes respects every dependency.
pub open spec fn acyclic(n: nat, preds: Seq<Seq<usize>>) -> bool {
    exists|order: Seq<usize>| is_schedule(order, n, preds)
}

proof fn lemma_count_of_push(s: Seq<usize>, a: usize, x: usize)
    ensures
        count_of(s.push(a), x) == count_of(s, x) + if a == x { 1nat } else { 0nat },
{
    assert(s.push(a).drop_last() =~= s);
}

/// Marking `u` done removes its occurrences from the count of entries outside.
proof fn lemma_count_outside_insert(s: Seq<usize>, done: Set<usize>, u: usize)
    requires
        !done.contains(u),
    ensures
        count_outside(s, done) >= count_of(s, u),
        count_outside(s, done.insert(u)) == count_outside(s, done) - count_of(s, u),
    decreases s.len(),
{
    if s.len() > 0 {
        lemma_count_outside_insert(s.drop_last(), done, u);
    }
}

/// When all entries outside `done` are `u`, every entry is done or `u`.
proof fn lemma_count_outside_only(s: Seq<usize>, done: Set<usize>, u: usize)
    requires
        !done.contains(u),
        count_outside(s, done) == count_of(s, u),
    ensures
        forall|k: int| 0 <= k < s.len() ==> done.contains(#[trigger] s[k]) || s[k] == u,
    decreases s.len(),
{
    if s.len() > 0 {
        lemma_count_outside_insert(s.drop_last(), done, u);
        lemma_count_outside_only(s.drop_last(), done, u);
        assert forall|k: int| 0 <= k < s.len() implies done.contains(#[trigger] s[k]) || s[k] == u by {
            if k < s.len() - 1 {
                assert(s[k] == s.drop_last()[k]);
            }
        }
    }
}

/// When no entry is outside `done`, every entry is done.
proof fn lemma_count_outside_zero(s: Seq<usize>, done: Set<usize>)
    ensures
        count_outside(s, done) == 0 <==> forall|k: int| 0 <= k < s.len() ==> done.contains(#[trigger] s[k]),
    decreases s.len(),
{
    if s.len() > 0 {
        lemma_count_outside_zero(s.drop_last(), done);
        if count_outside(s, done) == 0 {
            assert forall|k: int| 0 <= k < s.len() implies done.contains(#[trigger] s[k]) by {
                if k < s.len() - 1 {
                    assert(s[k] == s.drop_last()[k]);
                }
            }
        }
        if forall|k: int| 0 <= k < s.len() ==> done.contains(#[trigger] s[k]) {
            assert forall|k: int| 0 <= k < s.drop_last().len() implies done.contains(#[trigger] s.drop_last()[k]) by {
                assert(s.drop_last()[k] == s[k]);
            }
            assert(done.contains(s[s.len() - 1]));
        }
    }
}

/// Nothing is done: every entry is outside.
proof fn lemma_count_outside_empty(s: Seq<usize>)
    ensures
        count_outside(s, Set::<usize>::empty()) == s.len(),
    decreases s.len(),
{
    if s.len() > 0 {
        lemma_count_outside_empty(s.drop_last());
    }
}

/// A sequence of distinct nodes below `n` has at most `n` entries, and exactly
/// `n` only if it holds every node.
proof fn lemma_distinct_nodes(order: Seq<usize>, n: nat)
    requires
        order.no_duplicates(),
        forall|b: int| 0 <= b < order.len() ==> #[trigger] order[b] < n,
        n <= usize::MAX,
    ensures
        order.len() <= n,
        order.len() == n ==> forall|r: usize| r < n ==> order.contains(r),
        (forall|r: usize| r < n ==> order.contains(r)) ==> order.len() == n,
{
    let io = order.map_values(|x: usize| x as int);
    assert(io.no_duplicates()) by {
        assert forall|a: int, b: int| 0 <= a < io.len() && 0 <= b < io.len() && a != b implies io[a] != io[b] by {
            assert(order[a] != order[b]);
        }
    }
    io.unique_seq_to_set();
    let range = vstd::set_lib::set_int_range(0, n as int);
    vstd::set_lib::lemma_int_range(0, n as int);
    assert(io.to_set().subset_of(range)) by {
        assert forall|x: int| #[trigger] io.to_set().contains(x) implies range.contains(x) by {
            let b = io.index_of(x);
            assert(io[b] == order[b] as int);
        }
    }
    vstd::set_lib::lemma_len_subset(io.to_set(), range);
    if order.len() == n {
        vstd::set_lib::lemma_subset_equality(io.to_set(), range);
        assert forall|r: usize| r < n implies order.contains(r) by {
            assert(range.contains(r as int));
            assert(io.to_set().contains(r as int));
            let b = io.index_of(r as int);
            assert(order[b] == r);
        }
    }
    if forall|r: usize| r < n ==> order.contains(r) {
        assert(range.subset_of(io.to_set())) by {
            assert forall|x: int| #[trigger] range.contains(x) implies io.to_set().contains(x) by {
                let r = x as usize;
                assert(r as int == x);
                assert(order.contains(r));
                let b = order.index_of(r);
                assert(io[b] == x);
            }
        }
        vstd::set_lib::lemma_len_subset(range, io.to_set());
    }
}

/// In a schedule, no position holds a node of a set in which every node has a
/// predecessor in the set (below position `b`).
proof fn lemma_prefix_not_stuck(order: Seq<usize>, n: nat, preds: Seq<Seq<usize>>, stuck: Set<usize>, b: int)
    requires
        is_schedule(order, n, preds),
        0 <= b <= n,
        forall|v: usize| #[trigger] stuck.contains(v) ==> v < n && exists|k: int|
            0 <= k < preds[v as int].len() && stuck.contains(#[trigger] preds[v as int][k]),
    ensures
        forall|a: int| 0 <= a < b ==> !stuck.contains(#[trigger] order[a]),
    decreases b,
{
    if b > 0 {
        lemma_prefix_not_stuck(order, n, preds, stuck, b - 1);
        let v = order[b - 1];
        if stuck.contains(v) {
            let k = choose|k: int| 0 <= k < preds[v as int].len() && stuck.contains(#[trigger] preds[v as int][k]);
            let p = preds[v as int][k];
            assert(order.take(b - 1).contains(preds[order[b - 1] as int][k]));
            let a = order.take(b - 1).index_of(p);
            assert(order[a] == p);
        }
    }
}

/// A nonempty set of nodes that each have a predecessor in the set rules out
/// every schedule.
proof fn lemma_stuck_not_acyclic(n: nat, preds: Seq<Seq<usize>>, stuck: Set<usize>, r: usize)
    requires
        n <= usize::MAX,
        stuck.contains(r),
        forall|v: usize| #[trigger] stuck.contains(v) ==> v < n && exists|k: int|
            0 <= k < preds[v as int].len() && stuck.contains(#[trigger] preds[v as int][k]),
    ensures
        !acyclic(n, preds),
{
    if acyclic(n, preds) {
        let order = choose|order: Seq<usize>| is_schedule(order, n, preds);
        lemma_prefix_not_stuck(order, n, preds, stuck, n as int);
        lemma_distinct_nodes(order, n);
        assert(order.contains(r));
        let b = order.index_of(r);
        assert(!stuck.contains(order[b]));
    }
}

/// Taking one more element of a sequence counts it too.
proof fn lemma_count_of_take(s: Seq<usize>, t: int, x: usize)
    requires
        0 <= t < s.len(),
    ensures
        count_of(s.take(t + 1), x) == count_of(s.take(t), x) + if s[t] == x { 1nat } else { 0nat },
{
    assert(s.take(t + 1) =~= s.take(t).push(s[t]));
    lemma_count_of_push(s.take(t), s[t], x);
}

/// For each node, the nodes that list it as a predecessor, in increasing order
/// (with the same repetitions).
fn dependents(preds: &Vec<Vec<usize>>) -> (graph: Vec<Vec<usize>>)
    requires
        is_graph(preds@.len() as nat, nested(preds@)),
    ensures
        graph@.len() == preds@.len(),
        forall|u: int, v: usize| 0 <= u < preds@.len() && v < preds@.len() ==> #[trigger] count_of(graph@[u]@, v)
            == count_of(preds@[v as int]@, u as usize),
        forall|u: int, t: int| 0 <= u < preds@.len() && 0 <= t < graph@[u]@.len() ==> #[trigger] graph@[u]@[t]
            < preds@.len(),
        forall|u: int, a: int, b: int|
            0 <= u < preds@.len() && 0 <= a <= b < graph@[u]@.len() ==> #[trigger] graph@[u]@[a]
                <= #[trigger] graph@[u]@[b],
{
    let n = preds.len();
    let mut graph: Vec<Vec<usize>> = Vec::new();
    let mut j: usize = 0;
    while j < n
        invariant
            j <= n,
            n == preds@.len(),
            graph@.len() == j,
            forall|u: int| 0 <= u < j ==> (#[trigger] graph@[u])@ == Seq::<usize>::empty(),
        decreases n - j,
    {
        graph.push(Vec::new());
        j = j + 1;
    }
    let mut i: usize = 0;
    while i < n
        invariant
            i <= n,
            n == preds@.len(),
            is_graph(n as nat, nested(preds@)),
            graph@.len() == n,
            forall|u: int, v: usize| 0 <= u < n && v < n ==> #[trigger] count_of(graph@[u]@, v)
                == if v < i { count_of(preds@[v as int]@, u as usize) } else { 0 },
            forall|u: int, t: int| 0 <= u < n && 0 <= t < graph@[u]@.len() ==> #[trigger] graph@[u]@[t] < n,
            forall|u: int, t: int| 0 <= u < n && 0 <= t < graph@[u]@.len() ==> #[trigger] graph@[u]@[t] < i,
            forall|u: int, a: int, b: int|
                0 <= u < n && 0 <= a <= b < graph@[u]@.len() ==> #[trigger] graph@[u]@[a] <= #[trigger] graph@[u]@[b],
        decreases n - i,
    {
        let mut k: usize = 0;
        while k < preds[i].len()
            invariant
                i < n,
                n == preds@.len(),
                is_graph(n as nat, nested(preds@)),
                graph@.len() == n,
                k <= preds@[i as int]@.len(),
                forall|u: int, v: usize| 0 <= u < n && v < n ==> #[trigger] count_of(graph@[u]@, v)
                    == if v < i {
                        count_of(preds@[v as int]@, u as usize)
                    } else if v == i {
                        count_of(preds@[i as int]@.take(k as int), u as usize)
                    } else {
                        0
                    },
                forall|u: int, t: int| 0 <= u < n && 0 <= t < graph@[u]@.len() ==> #[trigger] graph@[u]@[t] < n,
                forall|u: int, t: int| 0 <= u < n && 0 <= t < graph@[u]@.len() ==> #[trigger] graph@[u]@[t] <= i,
                forall|u: int, a: int, b: int|
                    0 <= u < n && 0 <= a <= b < graph@[u]@.len() ==> #[trigger] graph@[u]@[a] <= #[trigger] graph@[u]@[b],
            decreases preds@[i as int]@.len() - k,
        {
            let p = preds[i][k];
            assert(nested(preds@)[i as int][k as int] == p);
            let ghost before = graph@;
            graph[p].push(i);
            assert forall|u: int, v: usize| 0 <= u < n && v < n implies #[trigger] count_of(graph@[u]@, v)
                == if v < i {
                    count_of(preds@[v as int]@, u as usize)
                } else if v == i {
                    count_of(preds@[i as int]@.take(k + 1 as int), u as usize)
                } else {
                    0
                } by {
                lemma_count_of_take(preds@[i as int]@, k as int, u as usize);
                if u == p {
                    lemma_count_of_push(before[u]@, i, v);
                } else {
                    assert(graph@[u] == before[u]);
                }
            }
            assert forall|u: int, t: int| 0 <= u < n && 0 <= t < graph@[u]@.len() implies #[trigger] graph@[u]@[t] < n
                && graph@[u]@[t] <= i by {
                if u == p && t == before[u]@.len() {
                } else {
                    assert(graph@[u]@[t] == before[u]@[t]);
                }
            }
            assert forall|u: int, a: int, b: int| 0 <= u < n && 0 <= a <= b < graph@[u]@.len() implies #[trigger] graph@[u]@[a]
                <= #[trigger] graph@[u]@[b] by {
                if u == p {
                    if b == before[u]@.len() {
                        if a < b {
                            assert(graph@[u]@[a] == before[u]@[a]);
                        }
                    } else {
                        assert(graph@[u]@[a] == before[u]@[a]);
                        assert(graph@[u]@[b] == before[u]@[b]);
                    }
                } else {
                    assert(graph@[u] == before[u]);
                }
            }
            k = k + 1;
        }
        assert(preds@[i as int]@.take(k as int) =~= preds@[i as int]@);
        i = i + 1;
    }
    graph
}

/// A prefix holds no more occurrences than the whole sequence.
proof fn lemma_count_of_prefix(s: Seq<usize>, t: int, x: usize)
    requires
        0 <= t <= s.len(),
    ensures
        count_of(s.take(t), x) <= count_of(s, x),
    decreases s.len(),
{
    if t == s.len() {
        assert(s.take(t) =~= s);
    } else {
        lemma_count_of_prefix(s.drop_last(), t, x);
        assert(s.drop_last().take(t) =~= s.take(t));
    }
}

/// The position in `order` of the last placed of the nodes `ps` (-1 for none).
pub open spec fn last_placed(order: Seq<usize>, ps: Seq<usize>) -> int
    decreases ps.len(),
{
    if ps.len() == 0 {
        -1
    } else {
        let r = last_placed(order, ps.drop_last());
        let p = order.index_of(ps.last());
        if p > r {
            p
        } else {
            r
        }
    }
}

/// The node at position `i` of `order` may stand before the one at `j` in a
/// first-in first-out order: its last predecessor was placed earlier, or the
/// same one was and it has the smaller index.
pub open spec fn placed_before(order: Seq<usize>, preds: Seq<Seq<usize>>, i: int, j: int) -> bool {
    let ri = last_placed(order, preds[order[i] as int]);
    let rj = last_placed(order, preds[order[j] as int]);
    ri < rj || (ri == rj && order[i] < order[j])
}

/// First in first out: nodes come by increasing position of their last
/// predecessor in the order (-1 for nodes without predecessors), and nodes
/// whose last predecessor is the same come by increasing index.
pub open spec fn first_in_first_out(order: Seq<usize>, preds: Seq<Seq<usize>>) -> bool {
    forall|i: int, j: int| 0 <= i < j < order.len() ==> #[trigger] placed_before(order, preds, i, j)
}

/// In a sequence without repetitions, the position of an element is where it stands.
proof fn lemma_index_of(order: Seq<usize>, i: int)
    requires
        order.no_duplicates(),
        0 <= i < order.len(),
    ensures
        order.index_of(order[i]) == i,
{
    assert(order.contains(order[i]));
}

/// The last placed of nodes that all stand before position `h` stands before
/// `h`, and at or after each of them.
proof fn lemma_last_placed_bounds(order: Seq<usize>, ps: Seq<usize>, h: int)
    requires
        order.no_duplicates(),
        0 <= h <= order.len(),
        forall|k: int| 0 <= k < ps.len() ==> order.take(h).contains(#[trigger] ps[k]),
    ensures
        -1 <= last_placed(order, ps) < h,
        forall|k: int| 0 <= k < ps.len() ==> order.index_of(#[trigger] ps[k]) <= last_placed(order, ps),
    decreases ps.len(),
{
    if ps.len() > 0 {
        let rest = ps.drop_last();
        assert forall|k: int| 0 <= k < rest.len() implies order.take(h).contains(#[trigger] rest[k]) by {
            assert(rest[k] == ps[k]);
        }
        lemma_last_placed_bounds(order, rest, h);
        let p = ps.last();
        assert(order.take(h).contains(ps[ps.len() - 1]));
        let a = order.take(h).index_of(p);
        assert(order[a] == p);
        lemma_index_of(order, a);
        assert forall|k: int| 0 <= k < ps.len() implies order.index_of(#[trigger] ps[k]) <= last_placed(order, ps) by {
            if k < rest.len() {
                assert(rest[k] == ps[k]);
            }
        }
    }
}

/// Appending a node leaves the position of nodes already placed unchanged.
proof fn lemma_last_placed_push(order: Seq<usize>, v: usize, ps: Seq<usize>)
    requires
        order.push(v).no_duplicates(),
        forall|k: int| 0 <= k < ps.len() ==> order.contains(#[trigger] ps[k]),
    ensures
        last_placed(order.push(v), ps) == last_placed(order, ps),
    decreases ps.len(),
{
    if ps.len() > 0 {
        let rest = ps.drop_last();
        assert forall|k: int| 0 <= k < rest.len() implies order.contains(#[trigger] rest[k]) by {
            assert(rest[k] == ps[k]);
        }
        lemma_last_placed_push(order, v, rest);
        let p = ps.last();
        assert(order.contains(ps[ps.len() - 1]));
        let a = order.index_of(p);
        assert(order.push(v)[a] == p);
        assert(order.no_duplicates()) by {
            assert forall|i: int, j: int| 0 <= i < order.len() && 0 <= j < order.len() && i != j implies order[i]
                != order[j] by {
                assert(order.push(v)[i] == order[i]);
                assert(order.push(v)[j] == order[j]);
            }
        }
        lemma_index_of(order, a);
        lemma_index_of(order.push(v), a);
    }
}

/// A node that occurs in a sequence is contained in it.
proof fn lemma_count_of_contains(s: Seq<usize>, x: usize)
    requires
        count_of(s, x) > 0,
    ensures
        s.contains(x),
    decreases s.len(),
{
    if s.last() == x {
        assert(s[s.len() - 1] == x);
    } else {
        lemma_count_of_contains(s.drop_last(), x);
        let a = s.drop_last().index_of(x);
        assert(s[a] == x);
    }
}

/// Appending a new node keeps a sequence free of repetitions.
proof fn lemma_push_distinct(order: Seq<usize>, v: usize)
    requires
        order.no_duplicates(),
        !order.contains(v),
    ensures
        order.push(v).no_duplicates(),
{
    let o2 = order.push(v);
    assert forall|i: int, j: int| 0 <= i < o2.len() && 0 <= j < o2.len() && i != j implies o2[i] != o2[j] by {
        if i == order.len() {
            assert(o2[j] == order[j]);
        } else if j == order.len() {
            assert(o2[i] == order[i]);
        } else {
            assert(o2[i] == order[i] && o2[j] == order[j]);
        }
    }
}

/// Appending a node leaves the last placed predecessor of every node already
/// placed where it was.
proof fn lemma_release_stable(order: Seq<usize>, pr: Seq<Seq<usize>>, v: usize)
    requires
        order.push(v).no_duplicates(),
        forall|b: int, k: int| 0 <= b < order.len() && 0 <= k < pr[order[b] as int].len() ==> order.take(b).contains(
            #[trigger] pr[order[b] as int][k],
        ),
    ensures
        forall|b: int| 0 <= b < order.len() ==> last_placed(order.push(v), pr[#[trigger] order[b] as int])
            == last_placed(order, pr[order[b] as int]),
{
    assert forall|b: int| 0 <= b < order.len() implies last_placed(order.push(v), pr[#[trigger] order[b] as int])
        == last_placed(order, pr[order[b] as int]) by {
        let ps = pr[order[b] as int];
        assert forall|k: int| 0 <= k < ps.len() implies order.contains(#[trigger] ps[k]) by {
            assert(order.take(b).contains(pr[order[b] as int][k]));
            let a = order.take(b).index_of(ps[k]);
            assert(order[a] == ps[k]);
        }
        lemma_last_placed_push(order, v, ps);
    }
}

/// A node whose predecessors all stand before position `h`, one of them at
/// `h - 1`, has its last placed predecessor at `h - 1`, also once appended.
proof fn lemma_release_new(order: Seq<usize>, pv: Seq<usize>, v: usize, h: int)
    requires
        order.push(v).no_duplicates(),
        order.no_duplicates(),
        1 <= h <= order.len(),
        forall|k: int| 0 <= k < pv.len() ==> order.take(h).contains(#[trigger] pv[k]),
        pv.contains(order[h - 1]),
    ensures
        last_placed(order.push(v), pv) == h - 1,
{
    assert forall|k: int| 0 <= k < pv.len() implies order.contains(#[trigger] pv[k]) by {
        assert(order.take(h).contains(pv[k]));
        let a = order.take(h).index_of(pv[k]);
        assert(order[a] == pv[k]);
    }
    lemma_last_placed_push(order, v, pv);
    lemma_last_placed_bounds(order, pv, h);
    let k0 = pv.index_of(order[h - 1]);
    assert(pv[k0] == order[h - 1]);
    lemma_index_of(order, h - 1);
}

/// Appending a node released by the node at position `h - 1`, after the nodes
/// released earlier and after the nodes it released before (which come
/// earlier in its list of dependents), keeps the order first in first out.
proof fn lemma_fifo_push(order: Seq<usize>, pr: Seq<Seq<usize>>, v: usize, h: int, start: int, gu: Seq<usize>, t: int)
    requires
        !order.contains(v),
        first_in_first_out(order, pr),
        forall|b: int| 0 <= b < order.len() ==> last_placed(order.push(v), pr[#[trigger] order[b] as int])
            == last_placed(order, pr[order[b] as int]),
        last_placed(order.push(v), pr[v as int]) == h - 1,
        0 <= start <= order.len(),
        forall|b: int| 0 <= b < start ==> last_placed(order, pr[#[trigger] order[b] as int]) < h - 1,
        forall|b: int| start <= b < order.len() ==> last_placed(order, pr[#[trigger] order[b] as int]) == h - 1
            && gu.take(t).contains(order[b]),
        0 <= t < gu.len(),
        gu[t] == v,
        forall|a: int, c: int| 0 <= a <= c < gu.len() ==> #[trigger] gu[a] <= #[trigger] gu[c],
    ensures
        first_in_first_out(order.push(v), pr),
{
    let o2 = order.push(v);
    assert forall|i: int, j: int| 0 <= i < j < o2.len() implies #[trigger] placed_before(o2, pr, i, j) by {
        assert(o2[i] == order[i]);
        assert(last_placed(o2, pr[order[i] as int]) == last_placed(order, pr[order[i] as int]));
        if j < order.len() {
            assert(o2[j] == order[j]);
            assert(last_placed(o2, pr[order[j] as int]) == last_placed(order, pr[order[j] as int]));
            assert(placed_before(order, pr, i, j));
        } else {
            assert(o2[j] == v);
            if i >= start {
                assert(gu.take(t).contains(order[i]));
                let a = gu.take(t).index_of(order[i]);
                assert(gu[a] == order[i]);
                assert(gu[a] <= gu[t]);
                assert(order.contains(order[i]));
            } else {
                assert(last_placed(order, pr[order[i] as int]) < h - 1);
            }
        }
    }
}

/// Orders that agree up to position `k` place nodes of that prefix alike.
proof fn lemma_last_placed_same_prefix(o1: Seq<usize>, o2: Seq<usize>, ps: Seq<usize>, k: int)
    requires
        o1.no_duplicates(),
        o2.no_duplicates(),
        0 <= k <= o1.len(),
        k <= o2.len(),
        o1.take(k) == o2.take(k),
        forall|j: int| 0 <= j < ps.len() ==> o1.take(k).contains(#[trigger] ps[j]),
    ensures
        last_placed(o1, ps) == last_placed(o2, ps),
    decreases ps.len(),
{
    if ps.len() > 0 {
        let rest = ps.drop_last();
        assert forall|j: int| 0 <= j < rest.len() implies o1.take(k).contains(#[trigger] rest[j]) by {
            assert(rest[j] == ps[j]);
        }
        lemma_last_placed_same_prefix(o1, o2, rest, k);
        let p = ps.last();
        assert(o1.take(k).contains(ps[ps.len() - 1]));
        let a = o1.take(k).index_of(p);
        assert(o1[a] == p);
        assert(o2.take(k)[a] == p);
        assert(o2[a] == p);
        lemma_index_of(o1, a);
        lemma_index_of(o2, a);
    }
}

/// Two first-in first-out schedules of a graph agree on every prefix.
proof fn lemma_fifo_prefix_agree(o1: Seq<usize>, o2: Seq<usize>, n: nat, preds: Seq<Seq<usize>>, k: int)
    requires
        n <= usize::MAX,
        is_schedule(o1, n, preds),
        is_schedule(o2, n, preds),
        first_in_first_out(o1, preds),
        first_in_first_out(o2, preds),
        0 <= k <= n,
    ensures
        o1.take(k) == o2.take(k),
    decreases k,
{
    if k > 0 {
        let m = k - 1;
        lemma_fifo_prefix_agree(o1, o2, n, preds, m);
        let x = o1[m];
        let y = o2[m];
        if x != y {
            lemma_distinct_nodes(o1, n);
            lemma_distinct_nodes(o2, n);
            assert(o1.contains(y));
            assert(o2.contains(x));
            let p = o1.index_of(y);
            let q = o2.index_of(x);
            assert(!o2.take(m).contains(y)) by {
                if o2.take(m).contains(y) {
                    let a = o2.take(m).index_of(y);
                    assert(o2[a] == o2[m]);
                }
            }
            assert(!o1.take(m).contains(x)) by {
                if o1.take(m).contains(x) {
                    let a = o1.take(m).index_of(x);
                    assert(o1[a] == o1[m]);
                }
            }
            assert(p > m) by {
                if p < m {
                    assert(o1.take(m)[p] == y);
                    assert(o2.take(m)[p] == y);
                }
            }
            assert(q > m) by {
                if q < m {
                    assert(o2.take(m)[q] == x);
                    assert(o1.take(m)[q] == x);
                }
            }
            assert forall|j: int| 0 <= j < preds[x as int].len() implies o1.take(m).contains(
                #[trigger] preds[x as int][j],
            ) by {
                assert(o1.take(m).contains(preds[o1[m] as int][j]));
            }
            assert forall|j: int| 0 <= j < preds[y as int].len() implies o1.take(m).contains(
                #[trigger] preds[y as int][j],
            ) by {
                assert(o2.take(m).contains(preds[o2[m] as int][j]));
            }
            lemma_last_placed_same_prefix(o1, o2, preds[x as int], m);
            lemma_last_placed_same_prefix(o1, o2, preds[y as int], m);
            assert(placed_before(o1, preds, m, p));
            assert(placed_before(o2, preds, m, q));
        }
        assert(o1.take(k) =~= o2.take(k)) by {
            assert forall|i: int| 0 <= i < k implies o1.take(k)[i] == o2.take(k)[i] by {
                if i < m {
                    assert(o1.take(m)[i] == o2.take(m)[i]);
                }
            }
        }
    }
}

/// The execution order is deterministic: a graph has at most one schedule
/// that is first in first out.
pub proof fn law_first_in_first_out_schedule_is_unique(o1: Seq<usize>, o2: Seq<usize>, n: nat, preds: Seq<Seq<usize>>)
    requires
        n <= usize::MAX,
        is_schedule(o1, n, preds),
        is_schedule(o2, n, preds),
        first_in_first_out(o1, preds),
        first_in_first_out(o2, preds),
    ensures
        o1 == o2,
{
    lemma_fifo_prefix_agree(o1, o2, n, preds, n as int);
    assert(o1.take(n as int) =~= o1);
    assert(o2.take(n as int) =~= o2);
}

/// An order of the nodes in which every node comes after all its predecessors,
/// or `None` if the dependencies form a cycle.
///
/// Nodes without predecessors come first, in increasing order; then, first in
/// first out, each node as soon as its last predecessor has been placed.
pub fn execution_order(preds: &Vec<Vec<usize>>) -> (r: Option<Vec<usize>>)
    requires
        is_graph(preds@.len() as nat, nested(preds@)),
    ensures
        match r {
            Some(order) => is_schedule(order@, preds@.len() as nat, nested(preds@)) && roots_first(
                order@,
                nested(preds@),
            ) && first_in_first_out(order@, nested(preds@)),
            None => !acyclic(preds@.len() as nat, nested(preds@)),
        },
{
    let n = preds.len();
    let ghost pr = nested(preds@);
    let graph = dependents(preds);
    let mut indeg: Vec<usize> = Vec::new();
    let mut order: Vec<usize> = Vec::new();
    let mut w: usize = 0;
    while w < n
        invariant
            n == preds@.len(),
            pr == nested(preds@),
            w <= n,
            indeg@.len() == w,
            forall|x: int| 0 <= x < w ==> #[trigger] indeg@[x] == pr[x].len(),
            order@.no_duplicates(),
            forall|b: int| 0 <= b < order@.len() ==> #[trigger] order@[b] < w,
            forall|b: int| 0 <= b < order@.len() ==> pr[#[trigger] order@[b] as int].len() == 0,
            forall|a: int, b: int| 0 <= a < b < order@.len() ==> #[trigger] order@[a] < #[trigger] order@[b],
            forall|x: usize| x < n ==> (#[trigger] order@.contains(x) <==> (x < w && pr[x as int].len() == 0)),
        decreases n - w,
    {
        assert(pr[w as int] == preds@[w as int]@);
        let d = preds[w].len();
        indeg.push(d);
        if d == 0 {
            let ghost before = order@;
            order.push(w);
            assert forall|x: usize| x < n implies (#[trigger] order@.contains(x) <==> (x < w + 1 && pr[x as int].len() == 0)) by {
                crate::world::lemma_push_contains(before, w, x);
            }
        } else {
            assert forall|x: usize| x < n implies (#[trigger] order@.contains(x) <==> (x < w + 1 && pr[x as int].len() == 0)) by {
                if x == w {
                }
            }
        }
        w = w + 1;
    }
    proof {
        assert(order@.take(0).to_set() =~= Set::<usize>::empty());
        assert forall|x: int| 0 <= x < n implies #[trigger] indeg@[x] == count_outside(pr[x], order@.take(0).to_set()) by {
            lemma_count_outside_empty(pr[x]);
        }
        assert forall|x: usize| x < n implies (#[trigger] order@.contains(x) <==> count_outside(pr[x as int], order@.take(0).to_set()) == 0) by {
            lemma_count_outside_empty(pr[x as int]);
        }
        lemma_distinct_nodes(order@, n as nat);
        assert(roots_first(order@, pr));
        assert(first_in_first_out(order@, pr));
    }
    let mut head: usize = 0;
    while head < order.len()
        invariant
            n == preds@.len(),
            pr == nested(preds@),
            is_graph(n as nat, pr),
            graph@.len() == n,
            forall|u: int, v: usize| 0 <= u < n && v < n ==> #[trigger] count_of(graph@[u]@, v)
                == count_of(pr[v as int], u as usize),
            forall|u: int, t: int| 0 <= u < n && 0 <= t < graph@[u]@.len() ==> #[trigger] graph@[u]@[t] < n,
            indeg@.len() == n,
            head <= order@.len() <= n,
            order@.no_duplicates(),
            forall|b: int| 0 <= b < order@.len() ==> #[trigger] order@[b] < n,
            forall|x: int| 0 <= x < n ==> #[trigger] indeg@[x] == count_outside(pr[x], order@.take(head as int).to_set()),
            forall|x: usize| x < n ==> (#[trigger] order@.contains(x) <==> count_outside(pr[x as int], order@.take(head as int).to_set()) == 0),
            forall|b: int, k: int| 0 <= b < order@.len() && 0 <= k < pr[order@[b] as int].len() ==> order@.take(b).contains(
                #[trigger] pr[order@[b] as int][k],
            ),
            roots_first(order@, pr),
            forall|u: int, a: int, b: int|
                0 <= u < n && 0 <= a <= b < graph@[u]@.len() ==> #[trigger] graph@[u]@[a] <= #[trigger] graph@[u]@[b],
            first_in_first_out(order@, pr),
            forall|b: int| 0 <= b < order@.len() ==> last_placed(order@, pr[#[trigger] order@[b] as int]) < head,
        decreases n - head,
    {
        let u = order[head];
        let ghost done_old = order@.take(head as int).to_set();
        proof {
            assert(!done_old.contains(u)) by {
                if done_old.contains(u) {
                    let a = order@.take(head as int).index_of(u);
                    assert(order@[a] == order@[head as int]);
                }
            }
            assert(order@.take(head + 1 as int) =~= order@.take(head as int).push(u));
            order@.take(head as int).lemma_push_to_set_commute(u);
        }
        head = head + 1;
        let ghost start = order@.len() as int;
        let mut t: usize = 0;
        while t < graph[u].len()
            invariant
                n == preds@.len(),
                pr == nested(preds@),
                is_graph(n as nat, pr),
                graph@.len() == n,
                u < n,
                forall|u2: int, v: usize| 0 <= u2 < n && v < n ==> #[trigger] count_of(graph@[u2]@, v)
                    == count_of(pr[v as int], u2 as usize),
                forall|u2: int, t2: int| 0 <= u2 < n && 0 <= t2 < graph@[u2]@.len() ==> #[trigger] graph@[u2]@[t2] < n,
                t <= graph@[u as int]@.len(),
                indeg@.len() == n,
                head <= order@.len() <= n,
                order@.take(head as int).to_set() == done_old.insert(u),
                !done_old.contains(u),
                order@.no_duplicates(),
                forall|b: int| 0 <= b < order@.len() ==> #[trigger] order@[b] < n,
                forall|x: int| 0 <= x < n ==> #[trigger] indeg@[x] == count_outside(pr[x], done_old)
                    - count_of(graph@[u as int]@.take(t as int), x as usize),
                forall|x: usize| x < n ==> (#[trigger] order@.contains(x) <==> indeg@[x as int] == 0),
                forall|b: int, k: int| 0 <= b < order@.len() && 0 <= k < pr[order@[b] as int].len() ==> order@.take(b).contains(
                    #[trigger] pr[order@[b] as int][k],
                ),
                roots_first(order@, pr),
                forall|u2: int, a: int, b: int|
                    0 <= u2 < n && 0 <= a <= b < graph@[u2]@.len() ==> #[trigger] graph@[u2]@[a]
                        <= #[trigger] graph@[u2]@[b],
                first_in_first_out(order@, pr),
                1 <= head <= start <= order@.len(),
                order@[head - 1] == u,
                forall|b: int| 0 <= b < start ==> last_placed(order@, pr[#[trigger] order@[b] as int]) < head - 1,
                forall|b: int| start <= b < order@.len() ==> last_placed(order@, pr[#[trigger] order@[b] as int])
                    == head - 1 && graph@[u as int]@.take(t as int).contains(order@[b]),
            decreases graph@[u as int]@.len() - t,
        {
            let v = graph[u][t];
            let ghost gu = graph@[u as int]@;
            proof {
                lemma_count_of_take(gu, t as int, v);
                lemma_count_of_prefix(gu, t + 1, v);
                lemma_count_outside_insert(pr[v as int], done_old, u);
                assert(count_of(gu, v) == count_of(pr[v as int], u));
                assert(pr[v as int].len() > 0);
            }
            let ghost before_order = order@;
            let ghost before_indeg = indeg@;
            indeg[v] = indeg[v] - 1;
            if indeg[v] == 0 {
                proof {
                    lemma_count_outside_only(pr[v as int], done_old, u);
                    assert(!before_order.contains(v));
                    assert forall|k: int| 0 <= k < pr[v as int].len() implies before_order.contains(#[trigger] pr[v as int][k]) by {
                        let p = pr[v as int][k];
                        assert(order@.take(head as int).to_set().contains(p));
                        let a = order@.take(head as int).index_of(p);
                        assert(before_order[a] == p);
                    }
                    assert forall|k: int| 0 <= k < pr[v as int].len() implies before_order.take(head as int).contains(
                        #[trigger] pr[v as int][k],
                    ) by {
                        assert(order@.take(head as int).to_set().contains(pr[v as int][k]));
                    }
                    lemma_count_of_contains(pr[v as int], u);
                    lemma_push_distinct(before_order, v);
                    lemma_release_stable(before_order, pr, v);
                    lemma_release_new(before_order, pr[v as int], v, head as int);
                    lemma_fifo_push(before_order, pr, v, head as int, start, gu, t as int);
                }
                order.push(v);
                proof {
                    assert(order@.take(head as int) =~= before_order.take(head as int));
                    assert(order@ == before_order.push(v));
                    assert forall|a: int, c: int| 0 <= a < order@.len() && 0 <= c < order@.len() && a != c implies order@[a] != order@[c] by {
                        if a == before_order.len() {
                            assert(order@[c] == before_order[c]);
                            assert(before_order.contains(before_order[c]));
                        } else if c == before_order.len() {
                            assert(order@[a] == before_order[a]);
                            assert(before_order.contains(before_order[a]));
                        }
                    }
                    assert forall|b: int, k: int| 0 <= b < order@.len() && 0 <= k < pr[order@[b] as int].len() implies order@.take(b).contains(
                        #[trigger] pr[order@[b] as int][k],
                    ) by {
                        if b < before_order.len() {
                            assert(order@.take(b) =~= before_order.take(b));
                        } else {
                            assert(order@.take(b) =~= before_order);
                        }
                    }
                    assert forall|x: usize| x < n implies (#[trigger] order@.contains(x) <==> indeg@[x as int] == 0) by {
                        crate::world::lemma_push_contains(before_order, v, x);
                    }
                    lemma_distinct_nodes(order@, n as nat);
                }
            }
            proof {
                assert forall|x: int| 0 <= x < n implies #[trigger] indeg@[x] == count_outside(pr[x], done_old)
                    - count_of(gu.take(t + 1), x as usize) by {
                    lemma_count_of_take(gu, t as int, x as usize);
                }
                assert forall|b: int| 0 <= b < start implies last_placed(order@, pr[#[trigger] order@[b] as int])
                    < head - 1 by {
                    assert(order@[b] == before_order[b]);
                }
                assert forall|b: int| start <= b < order@.len() implies last_placed(order@, pr[#[trigger] order@[b] as int])
                    == head - 1 && gu.take(t + 1).contains(order@[b]) by {
                    if b < before_order.len() {
                        assert(order@[b] == before_order[b]);
                        assert(gu.take(t as int).contains(before_order[b]));
                        let a = gu.take(t as int).index_of(before_order[b]);
                        assert(gu.take(t + 1)[a] == before_order[b]);
                    } else {
                        assert(order@[b] == v);
                        assert(gu.take(t + 1)[t as int] == v);
                    }
                }
            }
            t = t + 1;
        }
        proof {
            let gu = graph@[u as int]@;
            assert(gu.take(t as int) =~= gu);
            assert forall|x: int| 0 <= x < n implies #[trigger] indeg@[x] == count_outside(pr[x], order@.take(head as int).to_set()) by {
                lemma_count_outside_insert(pr[x], done_old, u);
                assert(count_of(gu, x as usize) == count_of(pr[x], u));
            }
        }
    }
    if order.len() == n {
        Some(order)
    } else {
        proof {
            assert(order@.take(head as int) =~= order@);
            lemma_distinct_nodes(order@, n as nat);
            let r = choose|r: usize| r < n && !order@.contains(r);
            let stuck = Set::new(|x: usize| x < n && !order@.contains(x));
            assert forall|x: usize| #[trigger] stuck.contains(x) implies x < n && exists|k: int|
                0 <= k < pr[x as int].len() && stuck.contains(#[trigger] pr[x as int][k]) by {
                lemma_count_outside_zero(pr[x as int], order@.to_set());
                let k = choose|k: int| 0 <= k < pr[x as int].len() && !order@.to_set().contains(#[trigger] pr[x as int][k]);
                assert(pr[x as int][k] < n);
                assert(stuck.contains(pr[x as int][k]));
            }
            assert(stuck.contains(r));
            lemma_stuck_not_acyclic(n as nat, pr, stuck, r);
        }
        None
    }
}

} // verus!
