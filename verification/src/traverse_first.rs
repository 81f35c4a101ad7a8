//! What the breadth-first walk gives one level deep: the first call from
//! the start to each definition it calls.
use vstd::prelude::*;
use crate::graph::{CallEdge, CallGraph};
use crate::traverse::{
    BfsState, CallHit, Direction, bfs_done, bfs_hits, bfs_run, entry_ok, expand, lemma_bfs_done,
    lemma_head_counts, lemma_run_inv, neighbors, seen, step_node, steps_of, table_of,
};

verus! {

/// Whether some edge of `es` leads to the resolved target `t`.
pub open spec fn resolves_to(es: Seq<CallEdge>, t: Seq<char>) -> bool {
    exists|i: int| 0 <= i < es.len() && step_node(Direction::Forward, #[trigger] es[i]) == Some(t)
}

/// The edges of `es`, in order, that lead to a resolved target which is
/// not `s` and which no earlier edge of `es` leads to.
pub open spec fn first_calls(s: Seq<char>, es: Seq<CallEdge>) -> Seq<CallEdge>
    decreases es.len(),
{
    if es.len() == 0 {
        Seq::empty()
    } else {
        let rest = first_calls(s, es.drop_last());
        match step_node(Direction::Forward, es.last()) {
            Some(t) => if t != s && !resolves_to(es.drop_last(), t) {
                rest.push(es.last())
            } else {
                rest
            },
            None => rest,
        }
    }
}

/// Each edge of `es` as a hit at depth 1.
pub open spec fn at_depth_one(es: Seq<CallEdge>) -> Seq<CallHit>
    decreases es.len(),
{
    if es.len() == 0 {
        Seq::empty()
    } else {
        at_depth_one(es.drop_last()).push(CallHit { depth: 1, edge: es.last() })
    }
}

spec fn first_queue(s: Seq<char>, kept: Seq<CallEdge>) -> Seq<(Seq<char>, nat)>
    decreases kept.len(),
{
    if kept.len() == 0 {
        seq![(s, 0nat)]
    } else {
        first_queue(s, kept.drop_last()).push((step_node(Direction::Forward, kept.last())->0, 1nat))
    }
}

proof fn lemma_resolves_to_last(es: Seq<CallEdge>, t: Seq<char>)
    requires
        es.len() > 0,
    ensures
        resolves_to(es, t) <==> (resolves_to(es.drop_last(), t) || step_node(Direction::Forward, es.last()) == Some(t)),
{
    let p = es.drop_last();
    if resolves_to(es, t) {
        let i = choose|i: int| 0 <= i < es.len() && step_node(Direction::Forward, #[trigger] es[i]) == Some(t);
        if i < es.len() - 1 {
            assert(p[i] == es[i]);
        }
    }
    if resolves_to(p, t) {
        let i = choose|i: int| 0 <= i < p.len() && step_node(Direction::Forward, #[trigger] p[i]) == Some(t);
        assert(es[i] == p[i]);
    }
    if step_node(Direction::Forward, es.last()) == Some(t) {
        assert(es[es.len() - 1] == es.last());
    }
}

proof fn lemma_seen_push(q: Seq<(Seq<char>, nat)>, x: (Seq<char>, nat), t: Seq<char>)
    ensures
        seen(q.push(x), t) <==> (seen(q, t) || x.0 == t),
{
    let q2 = q.push(x);
    if seen(q2, t) {
        let i = choose|i: int| 0 <= i < q2.len() && #[trigger] q2[i].0 == t;
        if i < q.len() {
            assert(q[i].0 == t);
        }
    }
    if seen(q, t) {
        let i = choose|i: int| 0 <= i < q.len() && #[trigger] q[i].0 == t;
        assert(q2[i].0 == t);
    }
    if x.0 == t {
        assert(q2[q.len() as int].0 == t);
    }
}

proof fn lemma_first_queue_seen(s: Seq<char>, es: Seq<CallEdge>, t: Seq<char>)
    ensures
        seen(first_queue(s, first_calls(s, es)), t) <==> (t == s || resolves_to(es, t)),
    decreases es.len(),
{
    if es.len() == 0 {
        let q = first_queue(s, first_calls(s, es));
        assert(q == seq![(s, 0nat)]);
        if seen(q, t) {
            let i = choose|i: int| 0 <= i < q.len() && #[trigger] q[i].0 == t;
        }
        if t == s {
            assert(q[0].0 == t);
        }
    } else {
        let p = es.drop_last();
        lemma_first_queue_seen(s, p, t);
        lemma_resolves_to_last(es, t);
        let rest = first_calls(s, p);
        match step_node(Direction::Forward, es.last()) {
            Some(t0) => {
                if t0 != s && !resolves_to(p, t0) {
                    let kept = rest.push(es.last());
                    assert(kept.drop_last() =~= rest);
                    lemma_seen_push(first_queue(s, rest), (t0, 1nat), t);
                } else {
                    lemma_first_queue_seen(s, p, t0);
                }
            },
            None => {},
        }
    }
}

proof fn lemma_expand_first(s: Seq<char>, es: Seq<CallEdge>)
    ensures
        expand(
            BfsState { queue: seq![(s, 0nat)], hits: Seq::empty(), head: 1 },
            steps_of(Direction::Forward, es),
            1,
        ) == (BfsState { queue: first_queue(s, first_calls(s, es)), hits: at_depth_one(first_calls(s, es)), head: 1 }),
    decreases es.len(),
{
    let st1 = BfsState { queue: seq![(s, 0nat)], hits: Seq::<CallHit>::empty(), head: 1nat };
    if es.len() > 0 {
        let p = es.drop_last();
        lemma_expand_first(s, p);
        let ns = steps_of(Direction::Forward, es);
        let nsp = steps_of(Direction::Forward, p);
        let rest = first_calls(s, p);
        match step_node(Direction::Forward, es.last()) {
            Some(t) => {
                assert(ns == nsp.push((t, es.last())));
                assert(ns.drop_last() =~= nsp);
                lemma_first_queue_seen(s, p, t);
                if t != s && !resolves_to(p, t) {
                    let kept = rest.push(es.last());
                    assert(kept.drop_last() =~= rest);
                }
            },
            None => {},
        }
    }
}

proof fn lemma_depth_one_stays(g: CallGraph, s: Seq<char>, n: nat)
    requires
        n >= 1,
    ensures
        bfs_run(g, Direction::Forward, s, 1, n).queue == bfs_run(g, Direction::Forward, s, 1, 1).queue,
        bfs_run(g, Direction::Forward, s, 1, n).hits == bfs_run(g, Direction::Forward, s, 1, 1).hits,
    decreases n,
{
    if n > 1 {
        lemma_depth_one_stays(g, s, (n - 1) as nat);
        let st = bfs_run(g, Direction::Forward, s, 1, (n - 1) as nat);
        lemma_run_inv(g, Direction::Forward, s, 1, (n - 1) as nat);
        lemma_head_counts(g, Direction::Forward, s, 1, (n - 1) as nat);
        if !bfs_done(st) {
            assert(entry_ok(g, Direction::Forward, 1, st, st.head as int));
        }
    }
}

/// One level deep, the walk forward reports, in order and each at depth 1,
/// the edges stored under `s` that lead to a resolved definition other than
/// `s` which no earlier of those edges leads to: the first call to each
/// definition that `s` calls.
pub proof fn lemma_callees_depth_one(g: CallGraph, s: Seq<char>)
    ensures
        bfs_hits(g, Direction::Forward, s, 1) == at_depth_one(first_calls(s, g.forward.edges_for(s))),
{
    let es = g.forward.edges_for(s);
    let x = bfs_run(g, Direction::Forward, s, 1, 1);
    assert(table_of(g, Direction::Forward).edges_for(s) == es);
    let init = bfs_run(g, Direction::Forward, s, 1, 0);
    assert(init.queue == seq![(s, 0nat)]);
    assert(init.queue[0] == (s, 0nat));
    assert(!bfs_done(init));
    let st1 = BfsState { queue: init.queue, hits: init.hits, head: 1nat };
    assert(x == expand(st1, neighbors(g, Direction::Forward, s), 1));
    assert(st1 == BfsState { queue: seq![(s, 0nat)], hits: Seq::<CallHit>::empty(), head: 1nat });
    lemma_expand_first(s, es);
    assert(x.hits == at_depth_one(first_calls(s, es)));
    let n = x.queue.len() + 1;
    lemma_depth_one_stays(g, s, n);
    lemma_run_inv(g, Direction::Forward, s, 1, n);
    lemma_head_counts(g, Direction::Forward, s, 1, n);
    lemma_bfs_done(g, Direction::Forward, s, 1, n);
}

} // verus!
