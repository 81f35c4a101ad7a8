use ast_outline::graph::{CallEdge, CallGraph, CallTarget};
use ast_outline::traverse::{callees, callees_one_hop, callers, CallHit};

fn edge(src: &str, dst: &str) -> CallEdge {
    CallEdge { source: src.to_string(), target: CallTarget::Resolved(dst.to_string()) }
}

/// a -> b, a -> c, a -> println (external), b -> d, c -> d, d -> a, c -> helper (bare).
fn sample() -> CallGraph {
    let mut g = CallGraph::new();
    g.add_edge(edge("a", "b"));
    g.add_edge(edge("a", "c"));
    g.add_edge(CallEdge { source: "a".to_string(), target: CallTarget::External("std::println".to_string()) });
    g.add_edge(edge("b", "d"));
    g.add_edge(edge("c", "d"));
    g.add_edge(edge("d", "a"));
    g.add_edge(CallEdge { source: "c".to_string(), target: CallTarget::Bare("helper".to_string()) });
    g
}

fn hit(depth: usize, src: &str, dst: &str) -> CallHit {
    CallHit { depth, edge: edge(src, dst) }
}

#[test]
fn callees_walks_breadth_first_and_dedups_targets() {
    let g = sample();
    let hits = callees(&g, &"a".to_string(), 5);
    assert_eq!(hits, vec![hit(1, "a", "b"), hit(1, "a", "c"), hit(2, "b", "d")]);
}

#[test]
fn callees_respects_max_depth() {
    let g = sample();
    assert_eq!(callees(&g, &"a".to_string(), 1), vec![hit(1, "a", "b"), hit(1, "a", "c")]);
    assert!(callees(&g, &"a".to_string(), 0).is_empty());
}

#[test]
fn callees_never_reports_the_start_even_on_a_cycle() {
    let g = sample();
    let hits = callees(&g, &"b".to_string(), 10);
    assert_eq!(hits, vec![hit(1, "b", "d"), hit(2, "d", "a"), hit(3, "a", "c")]);
    assert!(hits.iter().all(|h| h.edge.target != CallTarget::Resolved("b".to_string())));
}

#[test]
fn callees_of_unknown_definition_is_empty() {
    let g = sample();
    assert!(callees(&g, &"nowhere".to_string(), 3).is_empty());
}

#[test]
fn callees_skips_external_and_bare_targets() {
    let g = sample();
    let hits = callees(&g, &"c".to_string(), 1);
    assert_eq!(hits, vec![hit(1, "c", "d")]);
}

#[test]
fn callers_walks_reverse_edges() {
    let g = sample();
    let hits = callers(&g, &"d".to_string(), 5, 100);
    assert_eq!(hits, vec![hit(1, "b", "d"), hit(1, "c", "d"), hit(2, "a", "b")]);
}

#[test]
fn callers_truncates_to_limit_keeping_first_found() {
    let g = sample();
    assert_eq!(callers(&g, &"d".to_string(), 5, 2), vec![hit(1, "b", "d"), hit(1, "c", "d")]);
    assert!(callers(&g, &"d".to_string(), 5, 0).is_empty());
    assert_eq!(callers(&g, &"d".to_string(), 5, 3).len(), 3);
}

#[test]
fn callers_depth_one_only_direct() {
    let g = sample();
    assert_eq!(callers(&g, &"a".to_string(), 1, 10), vec![hit(1, "d", "a")]);
}

#[test]
fn callees_one_hop_keeps_every_edge_in_order() {
    let g = sample();
    let es = callees_one_hop(&g, &"a".to_string());
    assert_eq!(
        es,
        vec![
            edge("a", "b"),
            edge("a", "c"),
            CallEdge { source: "a".to_string(), target: CallTarget::External("std::println".to_string()) },
        ]
    );
    assert!(callees_one_hop(&g, &"zzz".to_string()).is_empty());
}

#[test]
fn hits_are_distinct_sorted_by_depth_and_within_bound() {
    // A denser graph: every node calls every other.
    let names = ["p", "q", "r", "s", "t"];
    let mut g = CallGraph::new();
    for x in names.iter() {
        for y in names.iter() {
            if x != y {
                g.add_edge(edge(x, y));
            }
        }
    }
    let hits = callees(&g, &"p".to_string(), 3);
    assert_eq!(hits.len(), 4);
    let mut targets: Vec<String> = Vec::new();
    for (i, h) in hits.iter().enumerate() {
        assert!(h.depth >= 1 && h.depth <= 3);
        if i > 0 {
            assert!(hits[i - 1].depth <= h.depth);
        }
        match &h.edge.target {
            CallTarget::Resolved(t) => {
                assert_ne!(t, "p");
                assert!(!targets.contains(t));
                targets.push(t.clone());
            }
            _ => panic!("unresolved hit"),
        }
    }
}

#[test]
fn hits_have_shortest_depth() {
    // x -> y -> z and x -> z: z is reported at depth 1.
    let mut g = CallGraph::new();
    g.add_edge(edge("x", "y"));
    g.add_edge(edge("y", "z"));
    g.add_edge(edge("x", "z"));
    assert_eq!(callees(&g, &"x".to_string(), 4), vec![hit(1, "x", "y"), hit(1, "x", "z")]);
}

#[test]
fn graph_add_edge_indexes_both_directions() {
    let mut g = CallGraph::new();
    g.add_edge(edge("m", "n"));
    g.add_edge(CallEdge { source: "m".to_string(), target: CallTarget::Bare("k".to_string()) });
    assert_eq!(g.forward.get("m").len(), 2);
    assert_eq!(g.reverse.get("n"), vec![edge("m", "n")]);
    assert!(!g.reverse.has("k"));
    assert!(g.forward.has("m"));
    assert!(!g.forward.has("n"));
}

#[test]
fn shallower_walk_is_prefix_of_deeper_walk() {
    let g = sample();
    let start = "b".to_string();
    let deep = callees(&g, &start, 10);
    for d in 0..=10usize {
        let shallow = callees(&g, &start, d);
        assert_eq!(shallow[..], deep[..shallow.len()]);
        assert!(deep[shallow.len()..].iter().all(|h| h.depth > d));
    }
    assert!(callers(&g, &"d".to_string(), 0, 10).is_empty());
}

#[test]
fn depth_one_callees_are_first_calls_in_one_hop_order() {
    // s calls t twice, itself once, an external once, and u.
    let mut g = CallGraph::new();
    g.add_edge(edge("s", "t"));
    g.add_edge(edge("s", "s"));
    g.add_edge(CallEdge { source: "s".to_string(), target: CallTarget::External("ext".to_string()) });
    g.add_edge(edge("s", "t"));
    g.add_edge(edge("s", "u"));
    let hits = callees(&g, &"s".to_string(), 1);
    assert_eq!(hits, vec![hit(1, "s", "t"), hit(1, "s", "u")]);
    assert_eq!(callees_one_hop(&g, &"s".to_string()).len(), 5);
}
