//! The `deps` / `reverse-deps` scenarios over the fixture projects: the
//! file system is described by a `RootProbe` (where the manifests are) and
//! each project's import graph by a `DepGraph` of canonical paths, as the
//! project's import resolution builds it.
use ast_outline::deps::{
    command_exit_status, cycles_exit_status, deps_of, graph_exit_status, graph_format, import_graph, note, reverse_deps_of,
    unresolved, GraphFormat,
};
use ast_outline::graph::CallTarget;
use ast_outline::paths::{find_root_for, DepGraph, RootProbe};
use ast_outline::traverse::CallHit;

const CRATE: &str = "/work/ast-outline";

fn abs(rel: &str) -> String {
    format!("{}/{}", CRATE, rel)
}

/// The probe for `rel` (a file under the crate), with a manifest in the
/// directory `levels_up` above the file's own directory.
fn probe_for(rel: &str, levels_up: usize) -> RootProbe {
    let depth = abs(rel).matches('/').count();
    let mut has_manifest = vec![false; depth];
    has_manifest[levels_up] = true;
    RootProbe { exists: true, canonical: Ok(abs(rel)), is_dir: false, has_manifest, cwd: CRATE.to_string() }
}

fn graph(root: &str, entries: &[(&str, &[&str])]) -> DepGraph {
    DepGraph {
        forward: entries
            .iter()
            .map(|(f, imps)| {
                (format!("{}/{}", root, f), imps.iter().map(|i| format!("{}/{}", root, i)).collect())
            })
            .collect(),
    }
}

fn target_text(h: &CallHit) -> String {
    match &h.edge.target {
        CallTarget::Resolved(t) => t.clone(),
        other => format!("{:?}", other),
    }
}

/// What `deps <file> --depth <depth>` lists: the files reached.
fn deps(rel: &str, levels_up: usize, g: impl Fn(&str) -> DepGraph, depth: usize) -> String {
    let root = find_root_for(rel, &probe_for(rel, levels_up)).expect("project root");
    let dep_graph = g(&root);
    let (_, hits) = deps_of(rel, Some(abs(rel)), &dep_graph, depth).expect("file in graph");
    hits.iter().map(target_text).collect::<Vec<_>>().join("\n")
}

/// What `reverse-deps <file> --depth <depth>` lists: the importers found.
fn reverse(rel: &str, levels_up: usize, g: impl Fn(&str) -> DepGraph, depth: usize) -> String {
    let root = find_root_for(rel, &probe_for(rel, levels_up)).expect("project root");
    let dep_graph = g(&root);
    let (_, hits) = reverse_deps_of(rel, Some(abs(rel)), &dep_graph, depth, 200).expect("file in graph");
    hits.iter().map(|h| h.edge.source.clone()).collect::<Vec<_>>().join("\n")
}

/// rust_simple: `net.rs` imports `error.rs` via `use crate::error::Error`.
fn rust_simple(root: &str) -> DepGraph {
    graph(root, &[("src/lib.rs", &[]), ("src/net.rs", &["src/error.rs"]), ("src/error.rs", &[])])
}

/// python_pkg: `pkg/__init__.py` imports `.helpers` and `.sub`; `pkg/sub.py`
/// imports `helpers` by a relative `from` import.
fn python_pkg(root: &str) -> DepGraph {
    graph(
        root,
        &[
            ("pkg/__init__.py", &["pkg/helpers.py", "pkg/sub.py"]),
            ("pkg/sub.py", &["pkg/helpers.py"]),
            ("pkg/helpers.py", &[]),
        ],
    )
}

/// ts_barrel: `index.ts` re-exports `client` and `util`; `client.ts`
/// imports `util`.
fn ts_barrel(root: &str) -> DepGraph {
    graph(
        root,
        &[
            ("src/index.ts", &["src/client.ts", "src/util.ts"]),
            ("src/client.ts", &["src/util.ts"]),
            ("src/util.ts", &[]),
        ],
    )
}

/// java_basic: `Greeter` imports `com.example.util.Formatter`, found by the
/// package index.
fn java_basic(root: &str) -> DepGraph {
    graph(
        root,
        &[
            ("com/example/Greeter.java", &["com/example/util/Formatter.java"]),
            ("com/example/util/Formatter.java", &[]),
        ],
    )
}

/// go_module: `main.go` imports `example.com/myapp/util` (the module prefix
/// stripped to `util/`) and `fmt`, which is not a file of the module.
fn go_module(root: &str) -> DepGraph {
    graph(root, &[("main.go", &["util/util.go"]), ("util/util.go", &[])])
}

#[test]
fn rust_simple_forward_deps() {
    let s = deps("tests/fixtures/deps/rust_simple/src/net.rs", 1, rust_simple, 2);
    assert!(s.contains("error.rs"), "expected error.rs in deps:\n{s}");
}

#[test]
fn rust_simple_reverse_deps() {
    let s = reverse("tests/fixtures/deps/rust_simple/src/error.rs", 1, rust_simple, 1);
    assert!(s.contains("net.rs"), "expected net.rs as importer:\n{s}");
}

#[test]
fn python_relative_from_import() {
    let s = deps("tests/fixtures/deps/python_pkg/pkg/sub.py", 1, python_pkg, 1);
    assert!(s.contains("helpers.py"), "expected helpers.py in deps:\n{s}");
}

#[test]
fn python_init_resolves_to_init_py() {
    let s = deps("tests/fixtures/deps/python_pkg/pkg/__init__.py", 1, python_pkg, 1);
    assert!(s.contains("helpers.py"), "expected helpers.py:\n{s}");
    assert!(s.contains("sub.py"), "expected sub.py:\n{s}");
}

#[test]
fn ts_barrel_resolves_relative_imports() {
    let s = deps("tests/fixtures/deps/ts_barrel/src/index.ts", 1, ts_barrel, 1);
    assert!(s.contains("client.ts"), "expected client.ts:\n{s}");
    assert!(s.contains("util.ts"), "expected util.ts:\n{s}");
}

#[test]
fn ts_client_imports_util() {
    let s = deps("tests/fixtures/deps/ts_barrel/src/client.ts", 1, ts_barrel, 1);
    assert!(s.contains("util.ts"), "expected util.ts:\n{s}");
}

#[test]
fn java_fqn_resolves_via_package_index() {
    let s = deps("tests/fixtures/deps/java_basic/com/example/Greeter.java", 2, java_basic, 1);
    assert!(s.contains("Formatter.java"), "expected Formatter.java via FQN suffix index:\n{s}");
}

#[test]
fn go_module_prefix_strips_correctly() {
    let s = deps("tests/fixtures/deps/go_module/main.go", 0, go_module, 1);
    assert!(s.contains("util.go"), "expected util.go:\n{s}");
    assert!(!s.contains("fmt.go"), "unexpected stdlib resolution:\n{s}");
}

#[test]
fn deps_depth_zero_still_walks_one_step() {
    let s = deps("tests/fixtures/deps/python_pkg/pkg/__init__.py", 1, python_pkg, 0);
    assert_eq!(
        s,
        format!("{}/tests/fixtures/deps/python_pkg/pkg/helpers.py\n{}/tests/fixtures/deps/python_pkg/pkg/sub.py", CRATE, CRATE)
    );
}

#[test]
fn deps_walks_transitively_without_repeats() {
    let s = deps("tests/fixtures/deps/ts_barrel/src/index.ts", 1, ts_barrel, 5);
    assert_eq!(s.matches("util.ts").count(), 1);
    assert_eq!(s.lines().count(), 2);
}

#[test]
fn reverse_deps_respects_limit() {
    let g = python_pkg("/r");
    let target = Some("/r/pkg/helpers.py".to_string());
    let (c, all) = reverse_deps_of("pkg/helpers.py", target.clone(), &g, 3, 10).unwrap();
    assert_eq!(c, "/r/pkg/helpers.py");
    assert_eq!(all.len(), 2);
    assert_eq!(all[0].edge.source, "/r/pkg/__init__.py");
    assert_eq!(all[1].edge.source, "/r/pkg/sub.py");
    assert_eq!(reverse_deps_of("pkg/helpers.py", target, &g, 3, 1).unwrap().1.len(), 1);
}

#[test]
fn deps_of_file_outside_graph_gives_note() {
    let g = python_pkg("/r");
    assert_eq!(
        deps_of("pkg/gone.py", Some("/r/pkg/gone.py".to_string()), &g, 1),
        Err(("# note: pkg/gone.py is not part of the dep graph (excluded by .gitignore or unsupported language?)".to_string(), 2))
    );
    assert_eq!(
        reverse_deps_of("pkg/gone.py", None, &g, 1, 5),
        Err(("# note: pkg/gone.py is not part of the dep graph".to_string(), 2))
    );
}

#[test]
fn import_graph_indexes_both_directions() {
    let g = ts_barrel("/t");
    let cg = import_graph(&g);
    assert_eq!(cg.forward.get("/t/src/index.ts").len(), 2);
    assert_eq!(cg.reverse.get("/t/src/util.ts").len(), 2);
    assert_eq!(cg.reverse.get("/t/src/index.ts").len(), 0);
}

#[test]
fn cycles_exit_status_gates_on_any_cycle() {
    assert_eq!(cycles_exit_status(true, true, 0), 0);
    assert_eq!(cycles_exit_status(true, true, 1), 3);
    assert_eq!(cycles_exit_status(true, true, 4), 3);
    assert_eq!(cycles_exit_status(false, false, 0), 2);
    assert_eq!(cycles_exit_status(true, false, 0), 1);
}

#[test]
fn command_exit_statuses_follow_the_convention() {
    assert_eq!(command_exit_status(false, false, false), 2);
    assert_eq!(command_exit_status(true, false, false), 1);
    assert_eq!(command_exit_status(true, true, false), 2);
    assert_eq!(command_exit_status(true, true, true), 0);
    assert_eq!(graph_exit_status(false, false, true), 2);
    assert_eq!(graph_exit_status(true, false, true), 1);
    assert_eq!(graph_exit_status(true, true, false), 2);
    assert_eq!(graph_exit_status(true, true, true), 0);
}

#[test]
fn notes_are_prefixed() {
    assert_eq!(note("file not found: x.rs"), "# note: file not found: x.rs");
    assert_eq!(unresolved("proj", "No such file"), "# note: cannot resolve proj: No such file");
}

#[test]
fn graph_format_names_and_unknown_note() {
    assert_eq!(graph_format("text"), Ok(GraphFormat::Text));
    assert_eq!(graph_format("json"), Ok(GraphFormat::Json));
    assert_eq!(graph_format("dot"), Ok(GraphFormat::Dot));
    assert_eq!(graph_format("dsm"), Ok(GraphFormat::Dsm));
    assert_eq!(
        graph_format("svg"),
        Err(("# note: unknown --format 'svg'. Expected text|json|dot|dsm.".to_string(), 2))
    );
    assert!(graph_format("").is_err());
    assert!(graph_format("Text").is_err());
}
