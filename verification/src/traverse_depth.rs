//! How the walk at one depth bound relates to the walk at a larger one:
//! the smaller walk's hits are the larger walk's hits that lie within the
//! smaller bound, found first.
use vstd::prelude::*;
use crate::graph::CallGraph;
use crate::traverse::{
    BfsState, CallHit, Direction, bfs_done, bfs_hits, bfs_run, bfs_step, entry_ok, lemma_run_inv, neighbors,
    node_pool,
};
use crate::traverse_laws::{depths_sorted, lemma_expand_facts, lemma_run_shape};

verus! {

/// How the searches to depths `d1 <= d2` stand to each other after the
/// same number of steps: the second's queue and hits extend the first's,
/// the extra queued nodes lie deeper than `d1`, and they appear only once
/// the first search has nothing left to expand.
spec fn runs_related(d1: nat, a: BfsState, b: BfsState) -> bool {
    &&& a.queue.len() <= b.queue.len()
    &&& b.queue.take(a.queue.len() as int) == a.queue
    &&& a.hits.len() <= b.hits.len()
    &&& b.hits.take(a.hits.len() as int) == a.hits
    &&& forall|j: int| a.queue.len() <= j < b.queue.len() ==> #[trigger] b.queue[j].1 > d1
    &&& !bfs_done(a) ==> a.head == b.head
    &&& bfs_done(a) ==> b.head >= a.queue.len()
    &&& (b.queue.len() > a.queue.len() ==> bfs_done(a) || a.queue[a.head as int].1 >= d1)
}

proof fn lemma_runs_related(g: CallGraph, dir: Direction, s: Seq<char>, d1: nat, d2: nat, n: nat)
    requires
        d1 <= d2 <= usize::MAX,
    ensures
        runs_related(d1, bfs_run(g, dir, s, d1, n), bfs_run(g, dir, s, d2, n)),
    decreases n,
{
    let a = bfs_run(g, dir, s, d1, n);
    let b = bfs_run(g, dir, s, d2, n);
    if n == 0 {
        assert(b.queue.take(a.queue.len() as int) =~= a.queue);
        assert(b.hits.take(a.hits.len() as int) =~= a.hits);
    } else {
        let m = (n - 1) as nat;
        lemma_runs_related(g, dir, s, d1, d2, m);
        let pa = bfs_run(g, dir, s, d1, m);
        let pb = bfs_run(g, dir, s, d2, m);
        lemma_run_inv(g, dir, s, d1, m);
        lemma_run_inv(g, dir, s, d2, m);
        lemma_run_shape(g, dir, s, d1, m);
        assert(a == bfs_step(g, dir, d1, pa));
        assert(b == bfs_step(g, dir, d2, pb));
        if bfs_done(pa) {
            assert(a == pa);
            if !bfs_done(pb) {
                let du = pb.queue[pb.head as int].1;
                assert(pb.head >= pa.queue.len());
                assert(du > d1);
                let b1 = BfsState { queue: pb.queue, hits: pb.hits, head: pb.head + 1 };
                lemma_expand_facts(b1, neighbors(g, dir, pb.queue[pb.head as int].0), du + 1);
                assert forall|j: int| a.queue.len() <= j < b.queue.len() implies #[trigger] b.queue[j].1 > d1 by {
                    if j < pb.queue.len() {
                        assert(b.queue[j] == pb.queue[j]);
                    }
                }
                assert(b.queue.take(a.queue.len() as int) =~= pb.queue.take(a.queue.len() as int));
                assert(b.hits.take(a.hits.len() as int) =~= pb.hits.take(a.hits.len() as int));
            } else {
                assert(b == pb);
            }
        } else {
            let h = pa.head as int;
            assert(pb.head == pa.head);
            assert(pb.queue[h] == pa.queue[h]) by {
                assert(pb.queue.take(pa.queue.len() as int)[h] == pb.queue[h]);
            }
            let u = pa.queue[h].0;
            let du = pa.queue[h].1;
            let ns = neighbors(g, dir, u);
            let a1 = BfsState { queue: pa.queue, hits: pa.hits, head: pa.head + 1 };
            let b1 = BfsState { queue: pb.queue, hits: pb.hits, head: pb.head + 1 };
            if du < d1 {
                assert(pb.queue.len() == pa.queue.len());
                assert(pb.queue =~= pa.queue) by {
                    assert(pb.queue.take(pa.queue.len() as int) =~= pb.queue);
                }
                assert(pb.hits =~= pa.hits) by {
                    assert(pb.hits.take(pa.hits.len() as int) =~= pb.hits);
                }
                assert(a1 == b1);
                assert(a == b);
                lemma_expand_facts(a1, ns, du + 1);
                assert(b.queue.take(a.queue.len() as int) =~= a.queue);
                assert(b.hits.take(a.hits.len() as int) =~= a.hits);
            } else {
                assert(a == a1);
                if h + 1 < pa.queue.len() {
                    assert(depths_sorted(pa.queue));
                    assert(pa.queue[h].1 <= pa.queue[h + 1].1);
                }
                if du < d2 {
                    lemma_expand_facts(b1, ns, du + 1);
                    assert forall|j: int| a.queue.len() <= j < b.queue.len() implies #[trigger] b.queue[j].1 > d1 by {
                        if j < pb.queue.len() {
                            assert(b.queue[j] == pb.queue[j]);
                        }
                    }
                    assert(b.queue.take(a.queue.len() as int) =~= pb.queue.take(a.queue.len() as int));
                    assert(b.hits.take(a.hits.len() as int) =~= pb.hits.take(a.hits.len() as int));
                } else {
                    assert(b == b1);
                }
            }
        }
    }
}

/// A walk to depth `d1` finds what a walk to a larger depth `d2` finds
/// within `d1` steps, in the same order, and nothing else: its hits are the
/// first hits of the deeper walk, and every further hit of the deeper walk
/// lies deeper than `d1`. A walk to depth 0 finds nothing.
pub proof fn lemma_hits_deepen(g: CallGraph, dir: Direction, s: Seq<char>, d1: nat, d2: nat)
    requires
        d1 <= d2 <= usize::MAX,
    ensures
        bfs_hits(g, dir, s, d1).len() <= bfs_hits(g, dir, s, d2).len(),
        bfs_hits(g, dir, s, d1) == bfs_hits(g, dir, s, d2).take(bfs_hits(g, dir, s, d1).len() as int),
        forall|i: int|
            bfs_hits(g, dir, s, d1).len() <= i < bfs_hits(g, dir, s, d2).len() ==> (#[trigger] bfs_hits(
                g,
                dir,
                s,
                d2,
            )[i]).depth > d1,
        bfs_hits(g, dir, s, 0) == Seq::<CallHit>::empty(),
{
    let n = node_pool(g, dir).len() + 1;
    lemma_runs_related(g, dir, s, d1, d2, n);
    let a = bfs_run(g, dir, s, d1, n);
    let b = bfs_run(g, dir, s, d2, n);
    lemma_run_inv(g, dir, s, d1, n);
    lemma_run_inv(g, dir, s, d2, n);
    assert forall|i: int|
        bfs_hits(g, dir, s, d1).len() <= i < bfs_hits(g, dir, s, d2).len() implies (#[trigger] bfs_hits(
            g,
            dir,
            s,
            d2,
        )[i]).depth > d1 by {
        assert(entry_ok(g, dir, d2, b, i + 1));
        assert(b.queue[i + 1].1 > d1);
    }
    lemma_zero_depth(g, dir, s);
}

proof fn lemma_zero_depth(g: CallGraph, dir: Direction, s: Seq<char>)
    ensures
        bfs_hits(g, dir, s, 0) == Seq::<CallHit>::empty(),
{
    let n = node_pool(g, dir).len() + 1;
    lemma_zero_depth_run(g, dir, s, n);
}

proof fn lemma_zero_depth_run(g: CallGraph, dir: Direction, s: Seq<char>, n: nat)
    ensures
        bfs_run(g, dir, s, 0, n).hits == Seq::<CallHit>::empty(),
        bfs_run(g, dir, s, 0, n).queue == seq![(s, 0nat)],
    decreases n,
{
    if n > 0 {
        lemma_zero_depth_run(g, dir, s, (n - 1) as nat);
    }
}

} // verus!
