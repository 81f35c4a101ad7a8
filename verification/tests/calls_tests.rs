//! The `callers` / `callees` scenarios over small projects: each project's
//! call graph is written out as its resolver records it (qualified names
//! relative to the project root), and the walk runs over it.
use ast_outline::graph::{CallEdge, CallGraph, CallTarget};
use ast_outline::paths::{find_root_for, RootProbe};
use ast_outline::traverse::{callees, callers, CallHit};

fn resolved(src: &str, dst: &str) -> CallEdge {
    CallEdge { source: src.to_string(), target: CallTarget::Resolved(dst.to_string()) }
}

fn external(src: &str, path: &str) -> CallEdge {
    CallEdge { source: src.to_string(), target: CallTarget::External(path.to_string()) }
}

fn build(edges: Vec<CallEdge>) -> CallGraph {
    let mut g = CallGraph::new();
    for e in edges {
        g.add_edge(e);
    }
    g
}

/// The lines `callers` lists: the calling definitions.
fn caller_lines(hits: &[CallHit]) -> String {
    hits.iter().map(|h| h.edge.source.clone()).collect::<Vec<_>>().join("\n")
}

/// The lines `callees` lists: the called definitions.
fn callee_lines(hits: &[CallHit]) -> String {
    hits.iter()
        .map(|h| match &h.edge.target {
            CallTarget::Resolved(t) => t.clone(),
            CallTarget::External(p) => p.clone(),
            CallTarget::Bare(n) => n.clone(),
        })
        .collect::<Vec<_>>()
        .join("\n")
}

#[test]
fn rust_callers_finds_cross_file_caller() {
    // src/lib.rs: `pub fn run() { helper::greet(); }`; src/helper.rs: `greet` prints.
    let g = build(vec![
        resolved("src/lib.rs::run", "src/helper.rs::greet"),
        external("src/helper.rs::greet", "std::println"),
    ]);
    let out = caller_lines(&callers(&g, &"src/helper.rs::greet".to_string(), 1, 200));
    assert!(out.contains("src/lib.rs") && out.contains("run"), "expected lib.rs::run in callers output, got:\n{}", out);
}

#[test]
fn rust_callees_lists_local_call() {
    // src/lib.rs: `pub fn helper() {}` and `pub fn run() { helper(); }`.
    let g = build(vec![resolved("src/lib.rs::run", "src/lib.rs::helper")]);
    let out = callee_lines(&callees(&g, &"src/lib.rs::run".to_string(), 1));
    assert!(out.contains("helper"), "expected `helper` in callees output, got:\n{}", out);
}

#[test]
fn python_callers_finds_cross_file_caller() {
    // smoke/main.py: `from smoke.helper import greet` and `def run(): greet()`.
    let g = build(vec![
        resolved("smoke/main.py::run", "smoke/helper.py::greet"),
        external("smoke/helper.py::greet", "print"),
    ]);
    let out = caller_lines(&callers(&g, &"smoke/helper.py::greet".to_string(), 1, 200));
    assert!(out.contains("smoke/main.py") && out.contains("run"), "expected smoke/main.py::run in callers, got:\n{}", out);
}

#[test]
fn typescript_callers_finds_cross_file_caller() {
    // src/main.ts: `import { greet } from './helper'` and `run()` calls it.
    let g = build(vec![
        resolved("src/main.ts::run", "src/helper.ts::greet"),
        external("src/helper.ts::greet", "console.log"),
    ]);
    let out = caller_lines(&callers(&g, &"src/helper.ts::greet".to_string(), 1, 200));
    assert!(out.contains("src/main.ts") && out.contains("run"), "expected src/main.ts::run in callers, got:\n{}", out);
}

#[test]
fn callers_with_file_filter_narrows_match() {
    // Two functions named `helper`, in src/a.rs and src/b.rs, each called by
    // its own consumer through a `use`.
    let g = build(vec![
        resolved("src/consumer_a.rs::run_a", "src/a.rs::helper"),
        resolved("src/consumer_b.rs::run_b", "src/b.rs::helper"),
    ]);
    let out = caller_lines(&callers(&g, &"src/a.rs::helper".to_string(), 1, 200));
    assert!(out.contains("run_a"), "expected run_a (caller of a::helper), got:\n{}", out);
    assert!(!out.contains("run_b"), "did not expect run_b (caller of b::helper), got:\n{}", out);
}

#[test]
fn passing_subdir_as_path_walks_up_to_project_root() {
    // `callers src/h.rs:greet ./src`: the root is the directory above
    // `src`, which holds Cargo.toml, so names stay relative to it.
    let probe = RootProbe {
        exists: true,
        canonical: Ok("/tmp/proj/src".to_string()),
        is_dir: true,
        has_manifest: vec![false, true, false, false],
        cwd: "/tmp/proj/src".to_string(),
    };
    assert_eq!(find_root_for("./src", &probe), Ok("/tmp/proj".to_string()));
    let g = build(vec![resolved("src/lib.rs::run", "src/h.rs::greet")]);
    let out = caller_lines(&callers(&g, &"src/h.rs::greet".to_string(), 1, 200));
    assert!(out.contains("run"), "expected `run` (caller of greet) when project root is walked up to, got:\n{}", out);
}

#[test]
fn callees_lists_external_targets_only_one_hop() {
    let g = build(vec![
        resolved("m::a", "m::b"),
        external("m::a", "std::fmt"),
        resolved("m::b", "m::c"),
    ]);
    assert_eq!(callee_lines(&callees(&g, &"m::a".to_string(), 3)), "m::b\nm::c");
    assert_eq!(ast_outline::traverse::callees_one_hop(&g, &"m::a".to_string()).len(), 2);
}
