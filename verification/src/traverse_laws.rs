//! What the breadth-first traversal guarantees about its hits: each
//! definition is reported once, at the length of a shortest path from the
//! start, through an edge from a definition one level closer; and every
//! definition within `max_depth` steps is reported.
use vstd::prelude::*;
use crate::graph::{CallEdge, CallGraph};
use crate::traverse::{
    BfsState, CallHit, Direction, bfs_done, bfs_hits, bfs_inv, bfs_run, bfs_step, expand, entry_ok,
    lemma_bfs_done, lemma_head_counts, lemma_queue_bound, lemma_run_inv, lemma_neighbor_step, neighbors,
    node_pool, seen, step_node, table_of,
};

verus! {

broadcast use vstd::seq_lib::group_seq_properties;

/// The node that a hit reports.
pub open spec fn hit_node(dir: Direction, h: CallHit) -> Seq<char> {
    step_node(dir, h.edge).unwrap()
}

/// Whether some step from `u` leads to `v`.
pub open spec fn steps_to(g: CallGraph, dir: Direction, u: Seq<char>, v: Seq<char>) -> bool {
    exists|i: int| 0 <= i < neighbors(g, dir, u).len() && #[trigger] neighbors(g, dir, u)[i].0 == v
}

/// The last node of the walk that starts at `s` and then visits `p`.
pub open spec fn walk_end(s: Seq<char>, p: Seq<Seq<char>>) -> Seq<char> {
    if p.len() == 0 {
        s
    } else {
        p.last()
    }
}

/// Whether starting at `s` and visiting the nodes of `p` in order follows
/// a step at each move.
pub open spec fn is_walk(g: CallGraph, dir: Direction, s: Seq<char>, p: Seq<Seq<char>>) -> bool
    decreases p.len(),
{
    p.len() == 0 || (is_walk(g, dir, s, p.drop_last()) && steps_to(g, dir, walk_end(s, p.drop_last()), p.last()))
}

/// Whether `v` can be reached from `s` by following exactly `n` steps.
pub open spec fn reachable_in(g: CallGraph, dir: Direction, s: Seq<char>, v: Seq<char>, n: nat) -> bool {
    exists|p: Seq<Seq<char>>| p.len() == n && #[trigger] is_walk(g, dir, s, p) && walk_end(s, p) == v
}

/// The queued node at position `k` was reached through its hit's edge from
/// a node taken from the queue before, one level closer to the start.
pub open spec fn parent_ok(g: CallGraph, dir: Direction, st: BfsState, k: int) -> bool {
    exists|p: int|
        0 <= p < st.head && st.queue[p].1 + 1 == st.queue[k].1 && #[trigger] neighbors(
            g,
            dir,
            st.queue[p].0,
        ).contains((st.queue[k].0, st.hits[k - 1].edge))
}

/// Every step from the node at position `p`, if that node lies closer than
/// `d`, leads to a queued node at most one level further.
pub open spec fn processed_ok(g: CallGraph, dir: Direction, d: nat, st: BfsState, p: int) -> bool {
    st.queue[p].1 < d ==> forall|i: int|
        0 <= i < neighbors(g, dir, st.queue[p].0).len() ==> exists|j: int|
            0 <= j < st.queue.len() && st.queue[j].0 == #[trigger] neighbors(g, dir, st.queue[p].0)[i].0
                && st.queue[j].1 <= st.queue[p].1 + 1
}

/// Depths never decrease along the queue.
pub open spec fn depths_sorted(q: Seq<(Seq<char>, nat)>) -> bool {
    forall|i: int, j: int| 0 <= i <= j < q.len() ==> #[trigger] q[i].1 <= #[trigger] q[j].1
}

/// The breadth-first structure that the search maintains.
pub open spec fn bfs_shape(g: CallGraph, dir: Direction, d: nat, st: BfsState) -> bool {
    &&& forall|k: int| 1 <= k < st.queue.len() ==> #[trigger] parent_ok(g, dir, st, k)
    &&& depths_sorted(st.queue)
    &&& st.head < st.queue.len() ==> st.queue.last().1 <= st.queue[st.head as int].1 + 1
    &&& forall|p: int| 0 <= p < st.head ==> #[trigger] processed_ok(g, dir, d, st, p)
}

pub(crate) proof fn lemma_expand_facts(st: BfsState, ns: Seq<(Seq<char>, CallEdge)>, dep: nat)
    requires
        st.queue.len() == st.hits.len() + 1,
    ensures
        ({
            let r = expand(st, ns, dep);
            &&& r.head == st.head
            &&& r.queue.len() == r.hits.len() + 1
            &&& r.queue.len() >= st.queue.len()
            &&& forall|i: int| 0 <= i < st.queue.len() ==> #[trigger] r.queue[i] == st.queue[i]
            &&& forall|i: int| 0 <= i < st.hits.len() ==> #[trigger] r.hits[i] == st.hits[i]
            &&& forall|k: int|
                st.queue.len() <= k < r.queue.len() ==> #[trigger] r.queue[k].1 == dep && ns.contains(
                    (r.queue[k].0, r.hits[k - 1].edge),
                )
            &&& forall|i: int|
                0 <= i < ns.len() ==> exists|j: int|
                    0 <= j < r.queue.len() && r.queue[j].0 == #[trigger] ns[i].0 && (j < st.queue.len()
                        || r.queue[j].1 == dep)
        }),
    decreases ns.len(),
{
    let r = expand(st, ns, dep);
    if ns.len() > 0 {
        let nl = ns.drop_last();
        lemma_expand_facts(st, nl, dep);
        let s2 = expand(st, nl, dep);
        let v = ns.last().0;
        assert(ns.last() == ns[ns.len() - 1]);
        if seen(s2.queue, v) {
            assert(r == s2);
            assert forall|k: int| st.queue.len() <= k < r.queue.len() implies #[trigger] r.queue[k].1 == dep
                && ns.contains((r.queue[k].0, r.hits[k - 1].edge)) by {
                assert(s2.queue[k].1 == dep);
                let w = choose|w: int| 0 <= w < nl.len() && nl[w] == (s2.queue[k].0, s2.hits[k - 1].edge);
                assert(ns[w] == nl[w]);
            }
            assert forall|i: int| 0 <= i < ns.len() implies exists|j: int|
                0 <= j < r.queue.len() && r.queue[j].0 == #[trigger] ns[i].0 && (j < st.queue.len()
                    || r.queue[j].1 == dep) by {
                if i < nl.len() {
                    assert(nl[i] == ns[i]);
                    let j = choose|j: int|
                        0 <= j < s2.queue.len() && s2.queue[j].0 == #[trigger] nl[i].0 && (j < st.queue.len()
                            || s2.queue[j].1 == dep);
                } else {
                    let j = choose|j: int| 0 <= j < s2.queue.len() && #[trigger] s2.queue[j].0 == v;
                    if j >= st.queue.len() {
                        assert(s2.queue[j].1 == dep);
                    }
                }
            }
        } else {
            assert(r.queue == s2.queue.push((v, dep)));
            assert(r.hits == s2.hits.push(CallHit { depth: dep as usize, edge: ns.last().1 }));
            assert forall|i: int| 0 <= i < st.queue.len() implies #[trigger] r.queue[i] == st.queue[i] by {
                assert(s2.queue[i] == st.queue[i]);
            }
            assert forall|i: int| 0 <= i < st.hits.len() implies #[trigger] r.hits[i] == st.hits[i] by {
                assert(s2.hits[i] == st.hits[i]);
            }
            assert forall|k: int| st.queue.len() <= k < r.queue.len() implies #[trigger] r.queue[k].1 == dep
                && ns.contains((r.queue[k].0, r.hits[k - 1].edge)) by {
                if k < s2.queue.len() {
                    assert(r.queue[k] == s2.queue[k]);
                    assert(r.hits[k - 1] == s2.hits[k - 1]);
                    assert(s2.queue[k].1 == dep);
                    let w = choose|w: int| 0 <= w < nl.len() && nl[w] == (s2.queue[k].0, s2.hits[k - 1].edge);
                    assert(ns[w] == nl[w]);
                } else {
                    assert(ns[ns.len() - 1] == (r.queue[k].0, r.hits[k - 1].edge));
                }
            }
            assert forall|i: int| 0 <= i < ns.len() implies exists|j: int|
                0 <= j < r.queue.len() && r.queue[j].0 == #[trigger] ns[i].0 && (j < st.queue.len()
                    || r.queue[j].1 == dep) by {
                if i < nl.len() {
                    assert(nl[i] == ns[i]);
                    let j = choose|j: int|
                        0 <= j < s2.queue.len() && s2.queue[j].0 == #[trigger] nl[i].0 && (j < st.queue.len()
                            || s2.queue[j].1 == dep);
                    assert(r.queue[j] == s2.queue[j]);
                } else {
                    assert(r.queue[s2.queue.len() as int].0 == ns[i].0);
                }
            }
        }
    }
}

proof fn lemma_step_shape(g: CallGraph, dir: Direction, s: Seq<char>, d: nat, st: BfsState)
    requires
        d <= usize::MAX,
        bfs_inv(g, dir, s, d, st),
        bfs_shape(g, dir, d, st),
    ensures
        bfs_shape(g, dir, d, bfs_step(g, dir, d, st)),
{
    if !bfs_done(st) {
        let h = st.head as int;
        let u = st.queue[h].0;
        let du = st.queue[h].1;
        let st1 = BfsState { queue: st.queue, hits: st.hits, head: st.head + 1 };
        let r = bfs_step(g, dir, d, st);
        let ns = neighbors(g, dir, u);
        let n0 = st.queue.len();
        if du < d {
            lemma_expand_facts(st1, ns, du + 1);
            assert(r == expand(st1, ns, du + 1));
        } else {
            assert(r == st1);
        }
        assert(r.head == st.head + 1);
        assert(r.queue.len() >= n0);
        assert forall|i: int| 0 <= i < n0 implies #[trigger] r.queue[i] == st.queue[i] by {}
        assert forall|i: int| 0 <= i < st.hits.len() implies #[trigger] r.hits[i] == st.hits[i] by {}
        // Every new entry lies one level below the node just taken.
        assert forall|k: int| n0 <= k < r.queue.len() implies #[trigger] r.queue[k].1 == du + 1 && ns.contains(
            (r.queue[k].0, r.hits[k - 1].edge),
        ) by {}
        // Parents.
        assert forall|k: int| 1 <= k < r.queue.len() implies #[trigger] parent_ok(g, dir, r, k) by {
            if k < n0 {
                assert(parent_ok(g, dir, st, k));
                let p = choose|p: int|
                    0 <= p < st.head && st.queue[p].1 + 1 == st.queue[k].1 && #[trigger] neighbors(
                        g,
                        dir,
                        st.queue[p].0,
                    ).contains((st.queue[k].0, st.hits[k - 1].edge));
                assert(r.queue[p] == st.queue[p]);
                assert(r.queue[k] == st.queue[k]);
                assert(r.hits[k - 1] == st.hits[k - 1]);
            } else {
                assert(r.queue[h] == st.queue[h]);
                assert(r.queue[k].1 == du + 1);
                assert(ns.contains((r.queue[k].0, r.hits[k - 1].edge)));
                assert(neighbors(g, dir, r.queue[h].0).contains((r.queue[k].0, r.hits[k - 1].edge)));
            }
        }
        // Depths stay sorted, and the window stays within one level.
        assert forall|i: int, j: int| 0 <= i <= j < r.queue.len() implies #[trigger] r.queue[i].1
            <= #[trigger] r.queue[j].1 by {
            if j < n0 {
                assert(st.queue[i].1 <= st.queue[j].1);
            } else if i < n0 {
                assert(st.queue[i].1 <= st.queue[n0 - 1].1);
                assert(st.queue.last() == st.queue[n0 - 1]);
            }
        }
        if r.head < r.queue.len() {
            let h1 = h + 1;
            assert(r.queue.last() == r.queue[r.queue.len() - 1]);
            if h1 < n0 {
                assert(r.queue[h1] == st.queue[h1]);
                assert(st.queue[h].1 <= st.queue[h1].1);
                assert(st.queue.last() == st.queue[n0 - 1]);
                if r.queue.len() - 1 < n0 {
                    assert(r.queue[r.queue.len() - 1] == st.queue[n0 - 1]);
                }
            }
        }
        // Every node taken so far, including the one just taken, has all its
        // steps leading to queued nodes.
        assert forall|p: int| 0 <= p < r.head implies #[trigger] processed_ok(g, dir, d, r, p) by {
            assert(r.queue[p] == st.queue[p]);
            if p < h {
                assert(processed_ok(g, dir, d, st, p));
                if st.queue[p].1 < d {
                    let np = neighbors(g, dir, st.queue[p].0);
                    assert forall|i: int| 0 <= i < np.len() implies exists|j: int|
                        0 <= j < r.queue.len() && r.queue[j].0 == #[trigger] np[i].0 && r.queue[j].1
                            <= r.queue[p].1 + 1 by {
                        let j = choose|j: int|
                            0 <= j < st.queue.len() && st.queue[j].0 == #[trigger] np[i].0 && st.queue[j].1
                                <= st.queue[p].1 + 1;
                        assert(r.queue[j] == st.queue[j]);
                    }
                }
            } else {
                if du < d {
                    assert forall|i: int| 0 <= i < ns.len() implies exists|j: int|
                        0 <= j < r.queue.len() && r.queue[j].0 == #[trigger] ns[i].0 && r.queue[j].1 <= du
                            + 1 by {
                        let j = choose|j: int|
                            0 <= j < r.queue.len() && r.queue[j].0 == #[trigger] ns[i].0 && (j < st1.queue.len()
                                || r.queue[j].1 == du + 1);
                        if j < n0 {
                            assert(r.queue[j] == st.queue[j]);
                            assert(st.queue[j].1 <= st.queue[n0 - 1].1);
                            assert(st.queue.last() == st.queue[n0 - 1]);
                        }
                    }
                }
            }
        }
    }
}

pub(crate) proof fn lemma_run_shape(g: CallGraph, dir: Direction, s: Seq<char>, d: nat, n: nat)
    requires
        d <= usize::MAX,
    ensures
        bfs_shape(g, dir, d, bfs_run(g, dir, s, d, n)),
    decreases n,
{
    if n == 0 {
        let st = bfs_run(g, dir, s, d, 0);
        assert(st.queue.len() == 1);
    } else {
        lemma_run_shape(g, dir, s, d, (n - 1) as nat);
        lemma_run_inv(g, dir, s, d, (n - 1) as nat);
        lemma_step_shape(g, dir, s, d, bfs_run(g, dir, s, d, (n - 1) as nat));
    }
}

/// The final state of the search: its hits are `bfs_hits`, every queued
/// node has been taken, and both invariants hold.
proof fn lemma_final(g: CallGraph, dir: Direction, s: Seq<char>, d: nat) -> (st: BfsState)
    requires
        d <= usize::MAX,
    ensures
        st.hits == bfs_hits(g, dir, s, d),
        st.head == st.queue.len(),
        bfs_inv(g, dir, s, d, st),
        bfs_shape(g, dir, d, st),
{
    let f = node_pool(g, dir).len() + 1;
    let st = bfs_run(g, dir, s, d, f);
    lemma_run_inv(g, dir, s, d, f);
    lemma_run_shape(g, dir, s, d, f);
    lemma_queue_bound(g, dir, s, d, st);
    lemma_head_counts(g, dir, s, d, f);
    st
}

/// The node at queue position `k > 0` is the node its hit reports.
proof fn lemma_hit_node(g: CallGraph, dir: Direction, d: nat, st: BfsState, k: int)
    requires
        1 <= k < st.queue.len(),
        parent_ok(g, dir, st, k),
    ensures
        step_node(dir, st.hits[k - 1].edge) == Some(st.queue[k].0),
        hit_node(dir, st.hits[k - 1]) == st.queue[k].0,
{
    let p = choose|p: int|
        0 <= p < st.head && st.queue[p].1 + 1 == st.queue[k].1 && #[trigger] neighbors(
            g,
            dir,
            st.queue[p].0,
        ).contains((st.queue[k].0, st.hits[k - 1].edge));
    let ns = neighbors(g, dir, st.queue[p].0);
    let w = choose|w: int| 0 <= w < ns.len() && ns[w] == (st.queue[k].0, st.hits[k - 1].edge);
    lemma_neighbor_step(g, dir, st.queue[p].0, w);
}

/// Each definition is reported at most once, and the start is never
/// reported; every hit's edge leads to the definition it reports (forward:
/// a resolved call; reverse: the caller).
pub proof fn lemma_hits_distinct(g: CallGraph, dir: Direction, s: Seq<char>, d: nat)
    requires
        d <= usize::MAX,
    ensures
        forall|i: int|
            0 <= i < bfs_hits(g, dir, s, d).len() ==> step_node(dir, #[trigger] bfs_hits(g, dir, s, d)[i].edge)
                is Some && hit_node(dir, bfs_hits(g, dir, s, d)[i]) != s,
        forall|i: int, j: int|
            0 <= i < j < bfs_hits(g, dir, s, d).len() ==> hit_node(dir, #[trigger] bfs_hits(g, dir, s, d)[i])
                != hit_node(dir, #[trigger] bfs_hits(g, dir, s, d)[j]),
{
    let st = lemma_final(g, dir, s, d);
    let h = bfs_hits(g, dir, s, d);
    assert forall|i: int| 0 <= i < h.len() implies step_node(dir, #[trigger] h[i].edge) is Some && hit_node(
        dir,
        h[i],
    ) != s by {
        assert(parent_ok(g, dir, st, i + 1));
        lemma_hit_node(g, dir, d, st, i + 1);
        assert(st.queue[0].0 != st.queue[i + 1].0);
    }
    assert forall|i: int, j: int| 0 <= i < j < h.len() implies hit_node(dir, #[trigger] h[i]) != hit_node(
        dir,
        #[trigger] h[j],
    ) by {
        assert(parent_ok(g, dir, st, i + 1));
        assert(parent_ok(g, dir, st, j + 1));
        lemma_hit_node(g, dir, d, st, i + 1);
        lemma_hit_node(g, dir, d, st, j + 1);
        assert(st.queue[i + 1].0 != st.queue[j + 1].0);
    }
}

/// Every hit lies between 1 and `max_depth` steps from the start, and hits
/// come in order of depth.
pub proof fn lemma_hits_depths(g: CallGraph, dir: Direction, s: Seq<char>, d: nat)
    requires
        d <= usize::MAX,
    ensures
        forall|i: int|
            0 <= i < bfs_hits(g, dir, s, d).len() ==> 1 <= (#[trigger] bfs_hits(g, dir, s, d)[i]).depth <= d,
        forall|i: int, j: int|
            0 <= i <= j < bfs_hits(g, dir, s, d).len() ==> (#[trigger] bfs_hits(g, dir, s, d)[i]).depth
                <= (#[trigger] bfs_hits(g, dir, s, d)[j]).depth,
{
    let st = lemma_final(g, dir, s, d);
    let h = bfs_hits(g, dir, s, d);
    assert forall|i: int| 0 <= i < h.len() implies 1 <= (#[trigger] h[i]).depth <= d by {
        assert(entry_ok(g, dir, d, st, i + 1));
    }
    assert forall|i: int, j: int| 0 <= i <= j < h.len() implies (#[trigger] h[i]).depth
        <= (#[trigger] h[j]).depth by {
        assert(entry_ok(g, dir, d, st, i + 1));
        assert(entry_ok(g, dir, d, st, j + 1));
        assert(st.queue[i + 1].1 <= st.queue[j + 1].1);
    }
}

/// Whether a step from `u` leads, through the hit's edge, to the node the
/// hit reports.
pub open spec fn reached_from(g: CallGraph, dir: Direction, u: Seq<char>, h: CallHit) -> bool {
    neighbors(g, dir, u).contains((hit_node(dir, h), h.edge))
}

/// Every hit was reached through an edge from the start (at depth 1) or
/// from an earlier hit one level closer.
pub proof fn lemma_hits_tree(g: CallGraph, dir: Direction, s: Seq<char>, d: nat)
    requires
        d <= usize::MAX,
    ensures
        forall|i: int|
            0 <= i < bfs_hits(g, dir, s, d).len() ==> {
                ||| (#[trigger] bfs_hits(g, dir, s, d)[i]).depth == 1 && reached_from(g, dir, s, bfs_hits(g, dir, s, d)[i])
                ||| exists|j: int|
                    0 <= j < i && bfs_hits(g, dir, s, d)[j].depth + 1 == bfs_hits(g, dir, s, d)[i].depth
                        && reached_from(g, dir, hit_node(dir, bfs_hits(g, dir, s, d)[j]), bfs_hits(g, dir, s, d)[i])
            },
{
    let st = lemma_final(g, dir, s, d);
    let h = bfs_hits(g, dir, s, d);
    assert forall|i: int| 0 <= i < h.len() implies {
        ||| (#[trigger] h[i]).depth == 1 && reached_from(g, dir, s, h[i])
        ||| exists|j: int|
            0 <= j < i && h[j].depth + 1 == h[i].depth && reached_from(g, dir, hit_node(dir, h[j]), h[i])
    } by {
        let k = i + 1;
        assert(parent_ok(g, dir, st, k));
        lemma_hit_node(g, dir, d, st, k);
        assert(entry_ok(g, dir, d, st, k));
        let p = choose|p: int|
            0 <= p < st.head && st.queue[p].1 + 1 == st.queue[k].1 && #[trigger] neighbors(
                g,
                dir,
                st.queue[p].0,
            ).contains((st.queue[k].0, st.hits[k - 1].edge));
        if p == 0 {
            assert(st.queue[0] == (s, 0nat));
        } else {
            assert(parent_ok(g, dir, st, p));
            lemma_hit_node(g, dir, d, st, p);
            assert(entry_ok(g, dir, d, st, p));
            assert(st.queue[p].1 < st.queue[k].1);
            if p >= k {
                assert(st.queue[k].1 <= st.queue[p].1);
            }
            assert(h[p - 1].depth + 1 == h[i].depth);
            assert(reached_from(g, dir, hit_node(dir, h[p - 1]), h[i]));
        }
    }
}

/// The queue position of a node that has been queued.
proof fn lemma_queued_pos(g: CallGraph, dir: Direction, s: Seq<char>, d: nat, st: BfsState, v: Seq<char>, n: nat)
    requires
        d <= usize::MAX,
        bfs_inv(g, dir, s, d, st),
        bfs_shape(g, dir, d, st),
        st.head == st.queue.len(),
        n <= d,
        reachable_in(g, dir, s, v, n),
    ensures
        exists|j: int| 0 <= j < st.queue.len() && st.queue[j].0 == v && st.queue[j].1 <= n,
    decreases n,
{
    let p = choose|p: Seq<Seq<char>>| p.len() == n && #[trigger] is_walk(g, dir, s, p) && walk_end(s, p) == v;
    if n == 0 {
        assert(st.queue[0].0 == v);
    } else {
        let q = p.drop_last();
        let u = walk_end(s, q);
        assert(is_walk(g, dir, s, q));
        assert(reachable_in(g, dir, s, u, (n - 1) as nat));
        lemma_queued_pos(g, dir, s, d, st, u, (n - 1) as nat);
        let a = choose|a: int| 0 <= a < st.queue.len() && st.queue[a].0 == u && st.queue[a].1 <= (n - 1) as nat;
        assert(processed_ok(g, dir, d, st, a));
        assert(st.queue[a].1 < d);
        let np = neighbors(g, dir, st.queue[a].0);
        assert(steps_to(g, dir, u, v));
        let i = choose|i: int| 0 <= i < np.len() && #[trigger] np[i].0 == v;
        let j = choose|j: int| 0 <= j < st.queue.len() && st.queue[j].0 == #[trigger] np[i].0 && st.queue[j].1
            <= st.queue[a].1 + 1;
    }
}

/// Every definition that `max_depth` or fewer steps reach from the start
/// is the start itself or is reported, at a depth no greater than the
/// number of steps.
pub proof fn lemma_hits_complete(g: CallGraph, dir: Direction, s: Seq<char>, d: nat, v: Seq<char>, n: nat)
    requires
        d <= usize::MAX,
        n <= d,
        reachable_in(g, dir, s, v, n),
    ensures
        v == s || exists|i: int|
            0 <= i < bfs_hits(g, dir, s, d).len() && hit_node(dir, #[trigger] bfs_hits(g, dir, s, d)[i]) == v
                && bfs_hits(g, dir, s, d)[i].depth <= n,
{
    let st = lemma_final(g, dir, s, d);
    lemma_queued_pos(g, dir, s, d, st, v, n);
    let j = choose|j: int| 0 <= j < st.queue.len() && st.queue[j].0 == v && st.queue[j].1 <= n;
    if j > 0 {
        assert(parent_ok(g, dir, st, j));
        lemma_hit_node(g, dir, d, st, j);
        assert(entry_ok(g, dir, d, st, j));
        assert(hit_node(dir, bfs_hits(g, dir, s, d)[j - 1]) == v);
    }
}

/// A queued node is reachable in exactly as many steps as its depth.
proof fn lemma_queued_reachable(g: CallGraph, dir: Direction, s: Seq<char>, d: nat, st: BfsState, k: int)
    requires
        d <= usize::MAX,
        bfs_inv(g, dir, s, d, st),
        bfs_shape(g, dir, d, st),
        0 <= k < st.queue.len(),
    ensures
        reachable_in(g, dir, s, st.queue[k].0, st.queue[k].1),
    decreases st.queue[k].1,
{
    if k == 0 {
        assert(st.queue[0] == (s, 0nat));
        let none = Seq::<Seq<char>>::empty();
        assert(is_walk(g, dir, s, none));
        assert(walk_end(s, none) == s);
    } else {
        assert(parent_ok(g, dir, st, k));
        assert(entry_ok(g, dir, d, st, k));
        let p = choose|p: int|
            0 <= p < st.head && st.queue[p].1 + 1 == st.queue[k].1 && #[trigger] neighbors(
                g,
                dir,
                st.queue[p].0,
            ).contains((st.queue[k].0, st.hits[k - 1].edge));
        lemma_queued_reachable(g, dir, s, d, st, p);
        let u = st.queue[p].0;
        let ns = neighbors(g, dir, u);
        let w = choose|w: int| 0 <= w < ns.len() && ns[w] == (st.queue[k].0, st.hits[k - 1].edge);
        let n = st.queue[k].1;
        let walk = choose|walk: Seq<Seq<char>>| walk.len() == st.queue[p].1 && #[trigger] is_walk(g, dir, s, walk)
            && walk_end(s, walk) == u;
        let longer = walk.push(st.queue[k].0);
        assert(longer.drop_last() == walk);
        assert(ns[w].0 == st.queue[k].0);
        assert(steps_to(g, dir, u, st.queue[k].0));
        assert(is_walk(g, dir, s, longer));
        assert(walk_end(s, longer) == st.queue[k].0);
        assert(longer.len() == n);
    }
}

/// Every hit's depth is the length of a shortest path from the start to
/// the definition it reports.
pub proof fn lemma_hits_shortest(g: CallGraph, dir: Direction, s: Seq<char>, d: nat, i: int)
    requires
        d <= usize::MAX,
        0 <= i < bfs_hits(g, dir, s, d).len(),
    ensures
        reachable_in(g, dir, s, hit_node(dir, bfs_hits(g, dir, s, d)[i]), bfs_hits(g, dir, s, d)[i].depth as nat),
        forall|n: nat|
            n < bfs_hits(g, dir, s, d)[i].depth ==> !#[trigger] reachable_in(
                g,
                dir,
                s,
                hit_node(dir, bfs_hits(g, dir, s, d)[i]),
                n,
            ),
{
    let st = lemma_final(g, dir, s, d);
    let h = bfs_hits(g, dir, s, d);
    let k = i + 1;
    assert(parent_ok(g, dir, st, k));
    lemma_hit_node(g, dir, d, st, k);
    assert(entry_ok(g, dir, d, st, k));
    lemma_queued_reachable(g, dir, s, d, st, k);
    let v = hit_node(dir, h[i]);
    assert forall|n: nat| n < h[i].depth implies !#[trigger] reachable_in(g, dir, s, v, n) by {
        if reachable_in(g, dir, s, v, n) {
            lemma_queued_pos(g, dir, s, d, st, v, n);
            let j = choose|j: int| 0 <= j < st.queue.len() && st.queue[j].0 == v && st.queue[j].1 <= n;
            if j != k {
                if j < k {
                    assert(st.queue[j].0 != st.queue[k].0);
                } else {
                    assert(st.queue[k].0 != st.queue[j].0);
                }
            }
        }
    }
}


proof fn lemma_runs_agree(g1: CallGraph, g2: CallGraph, dir: Direction, s: Seq<char>, d: nat, n: nat)
    requires
        forall|k: Seq<char>| #[trigger] table_of(g1, dir).edges_for(k) == table_of(g2, dir).edges_for(k),
    ensures
        bfs_run(g1, dir, s, d, n) == bfs_run(g2, dir, s, d, n),
    decreases n,
{
    if n > 0 {
        lemma_runs_agree(g1, g2, dir, s, d, (n - 1) as nat);
        let st = bfs_run(g1, dir, s, d, (n - 1) as nat);
        if !bfs_done(st) {
            let u = st.queue[st.head as int].0;
            assert(table_of(g1, dir).edges_for(u) == table_of(g2, dir).edges_for(u));
            assert(neighbors(g1, dir, u) == neighbors(g2, dir, u));
        }
    }
}

proof fn lemma_done_at_bound(g: CallGraph, dir: Direction, s: Seq<char>, d: nat)
    requires
        d <= usize::MAX,
    ensures
        bfs_done(bfs_run(g, dir, s, d, node_pool(g, dir).len() + 1)),
{
    let f = node_pool(g, dir).len() + 1;
    lemma_head_counts(g, dir, s, d, f);
    lemma_run_inv(g, dir, s, d, f);
    lemma_queue_bound(g, dir, s, d, bfs_run(g, dir, s, d, f));
}

/// The walk depends on nothing but the edges stored under each definition:
/// two graphs whose index for `dir` holds the same edges under every key
/// give the same hits.
pub proof fn lemma_hits_depend_on_edges(g1: CallGraph, g2: CallGraph, dir: Direction, s: Seq<char>, d: nat)
    requires
        d <= usize::MAX,
        forall|k: Seq<char>| #[trigger] table_of(g1, dir).edges_for(k) == table_of(g2, dir).edges_for(k),
    ensures
        bfs_hits(g1, dir, s, d) == bfs_hits(g2, dir, s, d),
{
    let f2 = node_pool(g2, dir).len() + 1;
    lemma_done_at_bound(g2, dir, s, d);
    lemma_runs_agree(g1, g2, dir, s, d, f2);
    lemma_bfs_done(g1, dir, s, d, f2);
}



} // verus!
