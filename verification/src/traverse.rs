//! Breadth-first traversal of a `CallGraph` for `callers` and `callees`.
//!
//! Both directions share one traversal. Forward follows each edge stored
//! under a definition to its resolved target (edges to external or bare
//! targets have no node to continue from and are not followed); reverse
//! follows each edge stored under a definition back to its caller.
//!
//! The traversal is specified by `bfs_run`: the state after a number of
//! steps of a queue-driven search, where each step takes the next queued
//! node and, unless it lies at `max_depth`, appends every neighbour not seen
//! before. `bfs_hits` is the result once the queue is exhausted.
use vstd::prelude::*;
use crate::graph::{CallEdge, CallGraph, CallTarget, EdgeTable, Qn};

verus! {

broadcast use vstd::seq_lib::group_seq_properties;

/// Which way a traversal follows the edges.
#[derive(Debug, Clone, Copy, PartialEq, Eq)]
pub enum Direction {
    /// From a caller to what it calls.
    Forward,
    /// From a callee to who calls it.
    Reverse,
}

/// One definition reached by a traversal: the edge that first reached it,
/// and how many edges lie between it and the start.
#[derive(Debug, Clone, PartialEq, Eq)]
pub struct CallHit {
    pub depth: usize,
    pub edge: CallEdge,
}

/// The node that following `e` in direction `dir` leads to, if any.
pub open spec fn step_node(dir: Direction, e: CallEdge) -> Option<Seq<char>> {
    match dir {
        Direction::Forward => match e.target {
            CallTarget::Resolved(t) => Some(t@),
            _ => None,
        },
        Direction::Reverse => Some(e.source@),
    }
}

/// The steps that a list of edges offers: each edge with a node to go to,
/// paired with that node, in list order.
pub open spec fn steps_of(dir: Direction, edges: Seq<CallEdge>) -> Seq<(Seq<char>, CallEdge)>
    decreases edges.len(),
{
    if edges.len() == 0 {
        Seq::empty()
    } else {
        let rest = steps_of(dir, edges.drop_last());
        match step_node(dir, edges.last()) {
            Some(n) => rest.push((n, edges.last())),
            None => rest,
        }
    }
}

/// The index that a traversal in direction `dir` reads.
pub open spec fn table_of(g: CallGraph, dir: Direction) -> EdgeTable {
    match dir {
        Direction::Forward => g.forward,
        Direction::Reverse => g.reverse,
    }
}

/// The steps available from node `u`.
pub open spec fn neighbors(g: CallGraph, dir: Direction, u: Seq<char>) -> Seq<(Seq<char>, CallEdge)> {
    steps_of(dir, table_of(g, dir).edges_for(u))
}

/// Every node that some step of the graph leads to.
pub open spec fn node_pool(g: CallGraph, dir: Direction) -> Seq<Seq<char>> {
    steps_of(dir, table_of(g, dir).every_edge()).map_values(|p: (Seq<char>, CallEdge)| p.0)
}

/// State of the search: the queue of nodes with their depths (every node
/// ever queued, so also the set of nodes seen), the hits so far, and the
/// position of the next node to take from the queue.
pub struct BfsState {
    pub queue: Seq<(Seq<char>, nat)>,
    pub hits: Seq<CallHit>,
    pub head: nat,
}

/// Whether `v` has been queued.
pub open spec fn seen(queue: Seq<(Seq<char>, nat)>, v: Seq<char>) -> bool {
    exists|i: int| 0 <= i < queue.len() && #[trigger] queue[i].0 == v
}

/// Offers the steps `ns`, in order, to the search: each step to a node not
/// seen yet queues that node at depth `dep` and records a hit.
pub open spec fn expand(st: BfsState, ns: Seq<(Seq<char>, CallEdge)>, dep: nat) -> BfsState
    decreases ns.len(),
{
    if ns.len() == 0 {
        st
    } else {
        let s2 = expand(st, ns.drop_last(), dep);
        let v = ns.last().0;
        let e = ns.last().1;
        if seen(s2.queue, v) {
            s2
        } else {
            BfsState {
                queue: s2.queue.push((v, dep)),
                hits: s2.hits.push(CallHit { depth: dep as usize, edge: e }),
                head: s2.head,
            }
        }
    }
}

/// Whether the queue is exhausted.
pub open spec fn bfs_done(st: BfsState) -> bool {
    st.head >= st.queue.len()
}

/// One step: take the next queued node; unless it lies at depth `d`,
/// offer its steps at one more than its depth.
pub open spec fn bfs_step(g: CallGraph, dir: Direction, d: nat, st: BfsState) -> BfsState {
    if bfs_done(st) {
        st
    } else {
        let u = st.queue[st.head as int].0;
        let du = st.queue[st.head as int].1;
        let st1 = BfsState { queue: st.queue, hits: st.hits, head: st.head + 1 };
        if du >= d {
            st1
        } else {
            expand(st1, neighbors(g, dir, u), du + 1)
        }
    }
}

/// The state of the search from `s` after `n` steps.
pub open spec fn bfs_run(g: CallGraph, dir: Direction, s: Seq<char>, d: nat, n: nat) -> BfsState
    decreases n,
{
    if n == 0 {
        BfsState { queue: seq![(s, 0nat)], hits: Seq::empty(), head: 0 }
    } else {
        bfs_step(g, dir, d, bfs_run(g, dir, s, d, (n - 1) as nat))
    }
}

/// The hits of the search from `s` up to depth `d`, in the order in which
/// they are found. The number of steps given is enough for the queue to be
/// exhausted (see `lemma_bfs_done`).
pub open spec fn bfs_hits(g: CallGraph, dir: Direction, s: Seq<char>, d: nat) -> Seq<CallHit> {
    bfs_run(g, dir, s, d, node_pool(g, dir).len() + 1).hits
}

/// No node is queued twice.
pub open spec fn queue_distinct(q: Seq<(Seq<char>, nat)>) -> bool {
    forall|i: int, j: int| 0 <= i < j < q.len() ==> #[trigger] q[i].0 != #[trigger] q[j].0
}

/// The queued node at position `k` lies in the pool, at a depth between 1
/// and `d`, recorded by the hit that queued it.
pub open spec fn entry_ok(g: CallGraph, dir: Direction, d: nat, st: BfsState, k: int) -> bool {
    &&& node_pool(g, dir).contains(st.queue[k].0)
    &&& 1 <= st.queue[k].1 <= d
    &&& st.hits[k - 1].depth as nat == st.queue[k].1
}

/// Every queued node after the start satisfies `entry_ok`.
pub open spec fn queue_entries_ok(g: CallGraph, dir: Direction, d: nat, st: BfsState) -> bool {
    forall|k: int| 1 <= k < st.queue.len() ==> #[trigger] entry_ok(g, dir, d, st, k)
}

/// What the search maintains at every step.
pub open spec fn bfs_inv(g: CallGraph, dir: Direction, s: Seq<char>, d: nat, st: BfsState) -> bool {
    &&& st.queue.len() == st.hits.len() + 1
    &&& st.queue[0] == (s, 0nat)
    &&& st.head <= st.queue.len()
    &&& queue_distinct(st.queue)
    &&& queue_entries_ok(g, dir, d, st)
}

// ---------------------------------------------------------------------------
// Facts about steps.

proof fn lemma_steps_of_sound(dir: Direction, edges: Seq<CallEdge>, i: int)
    requires
        0 <= i < steps_of(dir, edges).len(),
    ensures
        edges.contains(steps_of(dir, edges)[i].1),
        step_node(dir, steps_of(dir, edges)[i].1) == Some(steps_of(dir, edges)[i].0),
    decreases edges.len(),
{
    let rest = steps_of(dir, edges.drop_last());
    if i < rest.len() {
        lemma_steps_of_sound(dir, edges.drop_last(), i);
        let j = choose|j: int| 0 <= j < edges.drop_last().len() && edges.drop_last()[j] == rest[i].1;
        assert(edges[j] == rest[i].1);
    } else {
        assert(edges[edges.len() - 1] == edges.last());
    }
}

proof fn lemma_steps_of_complete(dir: Direction, edges: Seq<CallEdge>, j: int)
    requires
        0 <= j < edges.len(),
        step_node(dir, edges[j]) is Some,
    ensures
        steps_of(dir, edges).contains((step_node(dir, edges[j])->0, edges[j])),
    decreases edges.len(),
{
    if j < edges.len() - 1 {
        assert(edges.drop_last()[j] == edges[j]);
        lemma_steps_of_complete(dir, edges.drop_last(), j);
        let rest = steps_of(dir, edges.drop_last());
        let k = choose|k: int| 0 <= k < rest.len() && rest[k] == (step_node(dir, edges[j])->0, edges[j]);
        assert(steps_of(dir, edges)[k] == rest[k]);
    } else {
        let st = steps_of(dir, edges);
        assert(st[st.len() - 1] == (step_node(dir, edges[j])->0, edges[j]));
    }
}

/// A step from `u` pairs an edge with the node that edge leads to.
pub proof fn lemma_neighbor_step(g: CallGraph, dir: Direction, u: Seq<char>, i: int)
    requires
        0 <= i < neighbors(g, dir, u).len(),
    ensures
        step_node(dir, neighbors(g, dir, u)[i].1) == Some(neighbors(g, dir, u)[i].0),
{
    lemma_steps_of_sound(dir, table_of(g, dir).edges_for(u), i);
}

/// Every node a step leads to belongs to the node pool.
pub proof fn lemma_neighbor_in_pool(g: CallGraph, dir: Direction, u: Seq<char>, i: int)
    requires
        0 <= i < neighbors(g, dir, u).len(),
    ensures
        node_pool(g, dir).contains(neighbors(g, dir, u)[i].0),
{
    let t = table_of(g, dir);
    let es = t.edges_for(u);
    lemma_steps_of_sound(dir, es, i);
    let e = neighbors(g, dir, u)[i].1;
    let j = choose|j: int| 0 <= j < es.len() && es[j] == e;
    t.lemma_edges_for_in_every_edge(u, j);
    let all = t.every_edge();
    let m = choose|m: int| 0 <= m < all.len() && all[m] == e;
    lemma_steps_of_complete(dir, all, m);
    let sa = steps_of(dir, all);
    let k = choose|k: int| 0 <= k < sa.len() && sa[k] == (step_node(dir, all[m])->0, all[m]);
    assert(node_pool(g, dir)[k] == neighbors(g, dir, u)[i].0);
}

// ---------------------------------------------------------------------------
// The invariant holds at every step.

proof fn lemma_expand_inv(g: CallGraph, dir: Direction, s: Seq<char>, d: nat, st: BfsState,
    ns: Seq<(Seq<char>, CallEdge)>, dep: nat)
    requires
        d <= usize::MAX,
        bfs_inv(g, dir, s, d, st),
        1 <= dep <= d,
        forall|i: int| 0 <= i < ns.len() ==> node_pool(g, dir).contains(#[trigger] ns[i].0),
    ensures
        bfs_inv(g, dir, s, d, expand(st, ns, dep)),
        expand(st, ns, dep).head == st.head,
        expand(st, ns, dep).queue.len() >= st.queue.len(),
        forall|i: int| 0 <= i < st.queue.len() ==> #[trigger] expand(st, ns, dep).queue[i] == st.queue[i],
    decreases ns.len(),
{
    if ns.len() > 0 {
        assert forall|i: int| 0 <= i < ns.drop_last().len() implies node_pool(g, dir).contains(#[trigger] ns.drop_last()[i].0) by {
            assert(ns.drop_last()[i] == ns[i]);
        }
        lemma_expand_inv(g, dir, s, d, st, ns.drop_last(), dep);
        let s2 = expand(st, ns.drop_last(), dep);
        let v = ns.last().0;
        assert(ns.last() == ns[ns.len() - 1]);
        if !seen(s2.queue, v) {
            let r = expand(st, ns, dep);
            assert(r.queue == s2.queue.push((v, dep)));
            assert(r.hits == s2.hits.push(CallHit { depth: dep as usize, edge: ns.last().1 }));
            assert(r.head == s2.head);
            assert forall|i: int, j: int| 0 <= i < j < r.queue.len() implies #[trigger] r.queue[i].0 != #[trigger] r.queue[j].0 by {
                assert(r.queue[i] == s2.queue[i]);
                if j == r.queue.len() - 1 {
                    assert(r.queue[j].0 == v);
                    assert(!(s2.queue[i].0 == v));
                } else {
                    assert(r.queue[j] == s2.queue[j]);
                    assert(s2.queue[i].0 != s2.queue[j].0);
                }
            }
            assert(r.queue[0] == s2.queue[0]);
            assert(node_pool(g, dir).contains(v));
            assert forall|k: int| 1 <= k < r.queue.len() implies #[trigger] entry_ok(g, dir, d, r, k) by {
                if k < s2.queue.len() {
                    assert(r.queue[k] == s2.queue[k]);
                    assert(r.hits[k - 1] == s2.hits[k - 1]);
                    assert(entry_ok(g, dir, d, s2, k));
                } else {
                    assert(r.queue[k] == (v, dep));
                    assert(r.hits[k - 1].depth == dep as usize);
                }
            }
            assert(r.queue.len() == r.hits.len() + 1);
            assert(r.head <= r.queue.len());
            assert(r.queue[0] == (s, 0nat));
            assert(queue_distinct(r.queue));
            assert(queue_entries_ok(g, dir, d, r));
        } else {
            assert(expand(st, ns, dep) == s2);
        }
    } else {
        assert(expand(st, ns, dep) == st);
    }
}

proof fn lemma_step_inv(g: CallGraph, dir: Direction, s: Seq<char>, d: nat, st: BfsState)
    requires
        d <= usize::MAX,
        bfs_inv(g, dir, s, d, st),
    ensures
        bfs_inv(g, dir, s, d, bfs_step(g, dir, d, st)),
{
    if !bfs_done(st) {
        let u = st.queue[st.head as int].0;
        let du = st.queue[st.head as int].1;
        let st1 = BfsState { queue: st.queue, hits: st.hits, head: st.head + 1 };
        assert forall|k: int| 1 <= k < st1.queue.len() implies #[trigger] entry_ok(g, dir, d, st1, k) by {
            assert(entry_ok(g, dir, d, st, k));
        }
        if du < d {
            assert forall|i: int| 0 <= i < neighbors(g, dir, u).len() implies node_pool(g, dir).contains(#[trigger] neighbors(g, dir, u)[i].0) by {
                lemma_neighbor_in_pool(g, dir, u, i);
            }
            lemma_expand_inv(g, dir, s, d, st1, neighbors(g, dir, u), du + 1);
        }
    }
}

/// The search keeps its invariant at every step.
pub proof fn lemma_run_inv(g: CallGraph, dir: Direction, s: Seq<char>, d: nat, n: nat)
    requires
        d <= usize::MAX,
    ensures
        bfs_inv(g, dir, s, d, bfs_run(g, dir, s, d, n)),
    decreases n,
{
    if n > 0 {
        lemma_run_inv(g, dir, s, d, (n - 1) as nat);
        lemma_step_inv(g, dir, s, d, bfs_run(g, dir, s, d, (n - 1) as nat));
    }
}

/// The queue never holds more nodes than the pool plus the start.
pub proof fn lemma_queue_bound(g: CallGraph, dir: Direction, s: Seq<char>, d: nat, st: BfsState)
    requires
        bfs_inv(g, dir, s, d, st),
    ensures
        st.queue.len() <= node_pool(g, dir).len() + 1,
{
    let rest = st.queue.drop_first().map_values(|p: (Seq<char>, nat)| p.0);
    let pool = node_pool(g, dir);
    assert forall|i: int, j: int| 0 <= i < rest.len() && 0 <= j < rest.len() && i != j implies rest[i] != rest[j] by {
        if i < j {
            assert(st.queue[i + 1].0 != st.queue[j + 1].0);
        } else {
            assert(st.queue[j + 1].0 != st.queue[i + 1].0);
        }
    }
    assert(rest.no_duplicates());
    rest.unique_seq_to_set();
    assert forall|x: Seq<char>| rest.to_set().contains(x) implies pool.to_set().contains(x) by {
        let i = choose|i: int| 0 <= i < rest.len() && rest[i] == x;
        assert(entry_ok(g, dir, d, st, i + 1));
    }
    vstd::set_lib::lemma_len_subset(rest.to_set(), pool.to_set());
    pool.lemma_cardinality_of_set();
}

/// Once the queue is exhausted, further steps change nothing.
pub proof fn lemma_done_stable(g: CallGraph, dir: Direction, s: Seq<char>, d: nat, n: nat, m: nat)
    requires
        bfs_done(bfs_run(g, dir, s, d, n)),
        n <= m,
    ensures
        bfs_run(g, dir, s, d, m) == bfs_run(g, dir, s, d, n),
    decreases m - n,
{
    if n < m {
        lemma_done_stable(g, dir, s, d, n, (m - 1) as nat);
    }
}

/// The search is exhausted within as many steps as `bfs_hits` takes.
pub proof fn lemma_bfs_done(g: CallGraph, dir: Direction, s: Seq<char>, d: nat, n: nat)
    requires
        d <= usize::MAX,
        bfs_done(bfs_run(g, dir, s, d, n)),
    ensures
        bfs_hits(g, dir, s, d) == bfs_run(g, dir, s, d, n).hits,
{
    let f = node_pool(g, dir).len() + 1;
    lemma_head_counts(g, dir, s, d, n);
    if n <= f {
        lemma_done_stable(g, dir, s, d, n, f);
    } else {
        lemma_head_counts(g, dir, s, d, f);
        lemma_run_inv(g, dir, s, d, f);
        lemma_queue_bound(g, dir, s, d, bfs_run(g, dir, s, d, f));
        lemma_done_stable(g, dir, s, d, f, n);
    }
}

/// Until the queue is exhausted, each step takes exactly one node from it.
pub proof fn lemma_head_counts(g: CallGraph, dir: Direction, s: Seq<char>, d: nat, n: nat)
    ensures
        bfs_done(bfs_run(g, dir, s, d, n)) || bfs_run(g, dir, s, d, n).head == n,
        forall|m: nat| m <= n && bfs_done(#[trigger] bfs_run(g, dir, s, d, m))
            ==> bfs_done(bfs_run(g, dir, s, d, n)),
    decreases n,
{
    if n > 0 {
        lemma_head_counts(g, dir, s, d, (n - 1) as nat);
        let prev = bfs_run(g, dir, s, d, (n - 1) as nat);
        if !bfs_done(prev) {
            lemma_expand_head(g, dir, s, d, prev);
        }
        assert forall|m: nat| m <= n && bfs_done(#[trigger] bfs_run(g, dir, s, d, m)) implies bfs_done(bfs_run(g, dir, s, d, n)) by {
            if m < n {
                lemma_done_stable(g, dir, s, d, m, n);
            }
        }
    }
}

proof fn lemma_expand_head(g: CallGraph, dir: Direction, s: Seq<char>, d: nat, st: BfsState)
    requires
        !bfs_done(st),
    ensures
        bfs_step(g, dir, d, st).head == st.head + 1,
{
    let u = st.queue[st.head as int].0;
    let du = st.queue[st.head as int].1;
    let st1 = BfsState { queue: st.queue, hits: st.hits, head: st.head + 1 };
    if du < d {
        lemma_expand_keeps_head(st1, neighbors(g, dir, u), du + 1);
    }
}

proof fn lemma_expand_keeps_head(st: BfsState, ns: Seq<(Seq<char>, CallEdge)>, dep: nat)
    ensures
        expand(st, ns, dep).head == st.head,
        expand(st, ns, dep).queue.len() >= st.queue.len(),
    decreases ns.len(),
{
    if ns.len() > 0 {
        lemma_expand_keeps_head(st, ns.drop_last(), dep);
    }
}

// ---------------------------------------------------------------------------
// Executable traversal.

/// The queue as the specification sees it.
pub open spec fn queue_view(q: Seq<(Qn, usize)>) -> Seq<(Seq<char>, nat)> {
    q.map_values(|p: (Qn, usize)| (p.0@, p.1 as nat))
}

/// Whether `v` has been queued.
fn queue_has(queue: &Vec<(Qn, usize)>, v: &Qn) -> (r: bool)
    ensures
        r == seen(queue_view(queue@), v@),
{
    let mut i: usize = 0;
    while i < queue.len()
        invariant
            i <= queue@.len(),
            forall|j: int| 0 <= j < i ==> queue@[j].0@ != v@,
        decreases queue@.len() - i,
    {
        if queue[i].0 == *v {
            assert(queue_view(queue@)[i as int].0 == v@);
            return true;
        }
        i += 1;
    }
    assert forall|j: int| 0 <= j < queue_view(queue@).len() implies #[trigger] queue_view(queue@)[j].0 != v@ by {
        assert(queue@[j].0@ != v@);
    }
    false
}

/// Whether the executable steps `r` are the steps `ns`.
pub open spec fn same_steps(r: Seq<(Qn, CallEdge)>, ns: Seq<(Seq<char>, CallEdge)>) -> bool {
    &&& r.len() == ns.len()
    &&& forall|i: int| 0 <= i < r.len() ==> (#[trigger] r[i]).0@ == ns[i].0 && r[i].1 == ns[i].1
}

/// The steps available from `qn` in direction `dir`.
fn edges_at(graph: &CallGraph, dir: Direction, qn: &Qn) -> (r: Vec<(Qn, CallEdge)>)
    ensures
        same_steps(r@, neighbors(*graph, dir, qn@)),
{
    let edges = match dir {
        Direction::Forward => graph.forward.get(qn.as_str()),
        Direction::Reverse => graph.reverse.get(qn.as_str()),
    };
    let ghost es = edges@;
    assert(es == table_of(*graph, dir).edges_for(qn@));
    let mut r: Vec<(Qn, CallEdge)> = Vec::new();
    let mut i: usize = 0;
    while i < edges.len()
        invariant
            i <= es.len(),
            edges@ == es,
            same_steps(r@, steps_of(dir, es.take(i as int))),
        decreases es.len() - i,
    {
        let e = &edges[i];
        assert(es.take(i + 1).drop_last() == es.take(i as int));
        assert(es.take(i + 1).last() == *e);
        match dir {
            Direction::Forward => {
                match &e.target {
                    CallTarget::Resolved(t) => {
                        r.push((t.clone(), e.duplicate()));
                    },
                    _ => {},
                }
            },
            Direction::Reverse => {
                r.push((e.source.clone(), e.duplicate()));
            },
        }
        i += 1;
    }
    assert(es.take(es.len() as int) == es);
    r
}

/// Breadth-first search from `start` up to `max_depth` edges away,
/// visiting each node once.
fn bfs(graph: &CallGraph, dir: Direction, start: &Qn, max_depth: usize) -> (out: Vec<CallHit>)
    ensures
        out@ == bfs_hits(*graph, dir, start@, max_depth as nat),
{
    let ghost g = *graph;
    let ghost s = start@;
    let ghost d = max_depth as nat;
    let ghost bound = node_pool(g, dir).len() + 1;
    let mut out: Vec<CallHit> = Vec::new();
    let mut queue: Vec<(Qn, usize)> = Vec::new();
    queue.push((start.clone(), 0));
    let mut head: usize = 0;
    assert(queue_view(queue@) =~= seq![(s, 0nat)]);
    while head < queue.len()
        invariant
            g == *graph,
            s == start@,
            d == max_depth as nat,
            bound == node_pool(g, dir).len() + 1,
            bfs_run(g, dir, s, d, head as nat) == (BfsState { queue: queue_view(queue@), hits: out@, head: head as nat }),
            queue@.len() <= bound,
        decreases bound - queue@.len(), queue@.len() - head,
    {
        let ghost before = BfsState { queue: queue_view(queue@), hits: out@, head: head as nat };
        proof {
            lemma_run_inv(g, dir, s, d, head as nat);
        }
        let cur = queue[head].0.clone();
        let depth = queue[head].1;
        assert(before.queue[head as int] == (cur@, depth as nat));
        head += 1;
        if depth < max_depth {
            let next_depth = depth + 1;
            let ns = edges_at(graph, dir, &cur);
            let ghost nsv = neighbors(g, dir, cur@);
            let ghost st1 = BfsState { queue: before.queue, hits: before.hits, head: head as nat };
            let mut i: usize = 0;
            assert(nsv.take(0) =~= Seq::<(Seq<char>, CallEdge)>::empty());
            while i < ns.len()
                invariant
                    i <= ns@.len(),
                    same_steps(ns@, nsv),
                    expand(st1, nsv.take(i as int), next_depth as nat)
                        == (BfsState { queue: queue_view(queue@), hits: out@, head: head as nat }),
                decreases ns@.len() - i,
            {
                let v = &ns[i].0;
                assert(nsv.take(i + 1).drop_last() =~= nsv.take(i as int));
                assert(nsv.take(i + 1).last() == nsv[i as int]);
                if !queue_has(&queue, v) {
                    let ghost qv0 = queue_view(queue@);
                    queue.push((v.clone(), next_depth));
                    out.push(CallHit { depth: next_depth, edge: ns[i].1.duplicate() });
                    assert(queue_view(queue@) =~= qv0.push((v@, next_depth as nat)));
                }
                i += 1;
            }
            assert(nsv.take(nsv.len() as int) =~= nsv);
            proof {
                lemma_expand_keeps_head(st1, nsv, next_depth as nat);
            }
        }
        proof {
            lemma_run_inv(g, dir, s, d, head as nat);
            lemma_queue_bound(g, dir, s, d, bfs_run(g, dir, s, d, head as nat));
        }
    }
    proof {
        lemma_bfs_done(g, dir, s, d, head as nat);
    }
    out
}

/// Forward: what `start` calls, transitively up to `max_depth` calls away,
/// each definition once, in breadth-first order. Calls to external or bare
/// targets are not followed and do not appear.
pub fn callees(graph: &CallGraph, start: &Qn, max_depth: usize) -> (r: Vec<CallHit>)
    ensures
        r@ == bfs_hits(*graph, Direction::Forward, start@, max_depth as nat),
{
    bfs(graph, Direction::Forward, start, max_depth)
}

/// Reverse: who calls `start`, transitively up to `max_depth` calls away,
/// each caller once, in breadth-first order; at most `limit` of them (the
/// first ones found).
pub fn callers(graph: &CallGraph, start: &Qn, max_depth: usize, limit: usize) -> (r: Vec<CallHit>)
    ensures
        r@ == if bfs_hits(*graph, Direction::Reverse, start@, max_depth as nat).len() > limit {
            bfs_hits(*graph, Direction::Reverse, start@, max_depth as nat).take(limit as int)
        } else {
            bfs_hits(*graph, Direction::Reverse, start@, max_depth as nat)
        },
{
    let mut all = bfs(graph, Direction::Reverse, start, max_depth);
    if all.len() > limit {
        all.truncate(limit);
    }
    all
}

/// Every edge stored under `start` in the forward index, resolved or not.
pub fn callees_one_hop(graph: &CallGraph, start: &Qn) -> (r: Vec<CallEdge>)
    ensures
        r@ == graph.forward.edges_for(start@),
{
    graph.forward.get(start.as_str())
}

} // verus!
