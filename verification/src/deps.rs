//! The file dependency graph, walked as `deps` and `reverse-deps` walk it.
//!
//! A project's import graph (each file with the files it imports) is laid
//! out as a call graph whose edges go from the importing file to the
//! imported one, so that the breadth-first walk of `traverse` serves both:
//! what a file imports (forward) and who imports it (reverse).
use vstd::prelude::*;
use crate::graph::{CallEdge, CallGraph, CallTarget, Qn};
use crate::paths::{DepGraph, canonicalise_in_root, dep_graph_has};
use crate::text::concat;
use crate::traverse::{bfs_hits, callees, callers, table_of, CallHit, Direction};
use crate::traverse_laws::{lemma_hits_depend_on_edges, lemma_hits_depths};

verus! {

/// The edge for "`file` imports `target`".
pub open spec fn import_edge(file: String, target: String) -> CallEdge {
    CallEdge { source: file, target: CallTarget::Resolved(target) }
}

/// The edges for `file`'s imports, in order.
pub open spec fn edges_from(file: String, imports: Seq<String>) -> Seq<CallEdge>
    decreases imports.len(),
{
    if imports.len() == 0 {
        Seq::empty()
    } else {
        edges_from(file, imports.drop_last()).push(import_edge(file, imports.last()))
    }
}

/// The edges for those of `file`'s imports that are `k`, in order.
pub open spec fn edges_into(file: String, imports: Seq<String>, k: Seq<char>) -> Seq<CallEdge>
    decreases imports.len(),
{
    if imports.len() == 0 {
        Seq::empty()
    } else {
        let rest = edges_into(file, imports.drop_last(), k);
        if imports.last()@ == k {
            rest.push(import_edge(file, imports.last()))
        } else {
            rest
        }
    }
}

/// The import edges out of the file `k`, entry by entry.
pub open spec fn forward_index(entries: Seq<(String, Vec<String>)>, k: Seq<char>) -> Seq<CallEdge>
    decreases entries.len(),
{
    if entries.len() == 0 {
        Seq::empty()
    } else {
        let rest = forward_index(entries.drop_last(), k);
        if entries.last().0@ == k {
            rest + edges_from(entries.last().0, entries.last().1@)
        } else {
            rest
        }
    }
}

/// The import edges into the file `k`, entry by entry.
pub open spec fn reverse_index(entries: Seq<(String, Vec<String>)>, k: Seq<char>) -> Seq<CallEdge>
    decreases entries.len(),
{
    if entries.len() == 0 {
        Seq::empty()
    } else {
        reverse_index(entries.drop_last(), k) + edges_into(entries.last().0, entries.last().1@, k)
    }
}

proof fn lemma_edges_from_has(file: String, imports: Seq<String>, j: int)
    requires
        0 <= j < imports.len(),
    ensures
        edges_from(file, imports).contains(import_edge(file, imports[j])),
    decreases imports.len(),
{
    let p = imports.drop_last();
    if j < imports.len() - 1 {
        lemma_edges_from_has(file, p, j);
        assert(p[j] == imports[j]);
        let w = choose|w: int| 0 <= w < edges_from(file, p).len() && edges_from(file, p)[w] == import_edge(file, p[j]);
        assert(edges_from(file, imports)[w] == import_edge(file, imports[j]));
    } else {
        let es = edges_from(file, imports);
        assert(es[es.len() - 1] == import_edge(file, imports[j]));
    }
}

proof fn lemma_edges_into_has(file: String, imports: Seq<String>, k: Seq<char>, j: int)
    requires
        0 <= j < imports.len(),
        imports[j]@ == k,
    ensures
        edges_into(file, imports, k).contains(import_edge(file, imports[j])),
    decreases imports.len(),
{
    let p = imports.drop_last();
    if j < imports.len() - 1 {
        lemma_edges_into_has(file, p, k, j);
        assert(p[j] == imports[j]);
        let rest = edges_into(file, p, k);
        let w = choose|w: int| 0 <= w < rest.len() && rest[w] == import_edge(file, p[j]);
        assert(edges_into(file, imports, k)[w] == import_edge(file, imports[j]));
    } else {
        let es = edges_into(file, imports, k);
        assert(es[es.len() - 1] == import_edge(file, imports[j]));
    }
}

proof fn lemma_contains_concat(a: Seq<CallEdge>, b: Seq<CallEdge>, x: CallEdge)
    ensures
        a.contains(x) ==> (a + b).contains(x),
        b.contains(x) ==> (a + b).contains(x),
{
    if a.contains(x) {
        let w = choose|w: int| 0 <= w < a.len() && a[w] == x;
        assert((a + b)[w] == x);
    }
    if b.contains(x) {
        let w = choose|w: int| 0 <= w < b.len() && b[w] == x;
        assert((a + b)[a.len() + w] == x);
    }
}

/// Every import of every file of the graph is indexed, wherever the two
/// files stand among the graph's entries: under the importing file in the
/// forward index, and under the imported file in the reverse index.
pub proof fn lemma_index_holds_every_import(entries: Seq<(String, Vec<String>)>, e: int, j: int)
    requires
        0 <= e < entries.len(),
        0 <= j < entries[e].1@.len(),
    ensures
        forward_index(entries, entries[e].0@).contains(import_edge(entries[e].0, entries[e].1@[j])),
        reverse_index(entries, entries[e].1@[j]@).contains(import_edge(entries[e].0, entries[e].1@[j])),
    decreases entries.len(),
{
    let f = entries[e].0;
    let t = entries[e].1@[j];
    let x = import_edge(f, t);
    let p = entries.drop_last();
    let last = entries.last();
    if e < entries.len() - 1 {
        assert(p[e] == entries[e]);
        lemma_index_holds_every_import(p, e, j);
        if last.0@ == f@ {
            lemma_contains_concat(forward_index(p, f@), edges_from(last.0, last.1@), x);
        }
        lemma_contains_concat(reverse_index(p, t@), edges_into(last.0, last.1@, t@), x);
    } else {
        assert(last == entries[e]);
        lemma_edges_from_has(f, entries[e].1@, j);
        lemma_contains_concat(forward_index(p, f@), edges_from(last.0, last.1@), x);
        lemma_edges_into_has(f, entries[e].1@, t@, j);
        lemma_contains_concat(reverse_index(p, t@), edges_into(last.0, last.1@, t@), x);
    }
}

/// So a call graph that lays out the import graph holds every import in
/// both of its indexes.
pub proof fn lemma_laid_out_holds_every_import(cg: CallGraph, g: DepGraph, e: int, j: int)
    requires
        lays_out(cg, g),
        0 <= e < g.forward@.len(),
        0 <= j < g.forward@[e].1@.len(),
    ensures
        cg.forward.edges_for(g.forward@[e].0@).contains(import_edge(g.forward@[e].0, g.forward@[e].1@[j])),
        cg.reverse.edges_for(g.forward@[e].1@[j]@).contains(import_edge(g.forward@[e].0, g.forward@[e].1@[j])),
{
    lemma_index_holds_every_import(g.forward@, e, j);
}

/// Whether `cg` lays out the import graph `g`: under each file in
/// `forward` the edges to what it imports, and under each file in
/// `reverse` the edges from the files that import it, in the order of the
/// entries and of each entry's imports.
pub open spec fn lays_out(cg: CallGraph, g: DepGraph) -> bool {
    &&& forall|k: Seq<char>| #[trigger] cg.forward.edges_for(k) == forward_index(g.forward@, k)
    &&& forall|k: Seq<char>| #[trigger] cg.reverse.edges_for(k) == reverse_index(g.forward@, k)
}

/// The import graph as a call graph (see `lays_out`).
pub fn import_graph(g: &DepGraph) -> (r: CallGraph)
    ensures
        lays_out(r, *g),
{
    let mut cg = CallGraph::new();
    let mut i: usize = 0;
    while i < g.forward.len()
        invariant
            i <= g.forward@.len(),
            forall|k: Seq<char>| #[trigger]
                cg.forward.edges_for(k) == forward_index(g.forward@.take(i as int), k),
            forall|k: Seq<char>| #[trigger]
                cg.reverse.edges_for(k) == reverse_index(g.forward@.take(i as int), k),
        decreases g.forward@.len() - i,
    {
        let file = &g.forward[i].0;
        let imports = &g.forward[i].1;
        let ghost done = g.forward@.take(i as int);
        let mut j: usize = 0;
        while j < imports.len()
            invariant
                i < g.forward@.len(),
                done == g.forward@.take(i as int),
                *file == g.forward@[i as int].0,
                *imports == g.forward@[i as int].1,
                j <= imports@.len(),
                forall|k: Seq<char>| #[trigger]
                    cg.forward.edges_for(k) == forward_index(done, k) + (if file@ == k {
                        edges_from(*file, imports@.take(j as int))
                    } else {
                        Seq::empty()
                    }),
                forall|k: Seq<char>| #[trigger]
                    cg.reverse.edges_for(k) == reverse_index(done, k) + edges_into(
                        *file,
                        imports@.take(j as int),
                        k,
                    ),
            decreases imports@.len() - j,
        {
            let ghost before = cg;
            let e = CallEdge { source: file.clone(), target: CallTarget::Resolved(imports[j].clone()) };
            assert(e == import_edge(*file, imports@[j as int]));
            cg.add_edge(e);
            proof {
                let t0 = imports@.take(j as int);
                let t1 = imports@.take(j + 1);
                assert(t1.drop_last() =~= t0);
                assert(t1.last() == imports@[j as int]);
                assert forall|k: Seq<char>| #[trigger]
                    cg.forward.edges_for(k) == forward_index(done, k) + (if file@ == k {
                        edges_from(*file, t1)
                    } else {
                        Seq::empty()
                    }) by {
                    if file@ == k {
                        assert(before.forward.edges_for(k) == forward_index(done, k) + edges_from(*file, t0));
                        assert((forward_index(done, k) + edges_from(*file, t0)).push(
                            import_edge(*file, imports@[j as int]),
                        ) =~= forward_index(done, k) + edges_from(*file, t1));
                    } else {
                        assert(before.forward.edges_for(k) == forward_index(done, k) + Seq::<CallEdge>::empty());
                    }
                }
                assert forall|k: Seq<char>| #[trigger]
                    cg.reverse.edges_for(k) == reverse_index(done, k) + edges_into(*file, t1, k) by {
                    assert(before.reverse.edges_for(k) == reverse_index(done, k) + edges_into(*file, t0, k));
                    if imports@[j as int]@ == k {
                        assert((reverse_index(done, k) + edges_into(*file, t0, k)).push(
                            import_edge(*file, imports@[j as int]),
                        ) =~= reverse_index(done, k) + edges_into(*file, t1, k));
                    }
                }
            }
            j += 1;
        }
        proof {
            let next = g.forward@.take(i + 1);
            assert(next.drop_last() =~= done);
            assert(next.last() == g.forward@[i as int]);
            assert(imports@.take(imports@.len() as int) =~= imports@);
            assert forall|k: Seq<char>| #[trigger] cg.forward.edges_for(k) == forward_index(next, k) by {
                if file@ != k {
                    assert(forward_index(done, k) + Seq::<CallEdge>::empty() =~= forward_index(done, k));
                }
            }
            assert forall|k: Seq<char>| #[trigger] cg.reverse.edges_for(k) == reverse_index(next, k) by {}
        }
        i += 1;
    }
    proof {
        assert(g.forward@.take(g.forward@.len() as int) =~= g.forward@);
    }
    cg
}

/// The depth a walk goes to: as asked, but at least one step.
pub open spec fn walk_depth(depth: usize) -> nat {
    if depth < 1 {
        1
    } else {
        depth as nat
    }
}

/// The walk of `deps` and `reverse-deps` goes exactly as deep as asked,
/// but at least one step: to depth 1 when asked for 0.
pub proof fn lemma_walk_depth(depth: usize)
    ensures
        walk_depth(depth) >= 1,
        depth >= 1 ==> walk_depth(depth) == depth,
        depth == 0 ==> walk_depth(depth) == 1,
{
}

/// The note when `deps` is asked about a file that its project's graph
/// does not hold.
pub open spec fn deps_missing_note(file: Seq<char>) -> Seq<char> {
    "# note: "@ + file + " is not part of the dep graph (excluded by .gitignore or unsupported language?)"@
}

/// The note when `reverse-deps` is asked about a file that its project's
/// graph does not hold.
pub open spec fn reverse_deps_missing_note(file: Seq<char>) -> Seq<char> {
    "# note: "@ + file + " is not part of the dep graph"@
}

/// `deps` once the project's graph is loaded. `file` is the path as given
/// and `abs` its canonical form (none when it has none). When the graph
/// holds the file: its path in the graph, and what it imports, transitively
/// up to `depth` imports away (at least one), each file once, in
/// breadth-first order. Otherwise the note to print and the exit status,
/// 2 (a user error).
pub fn deps_of(file: &str, abs: Option<String>, graph: &DepGraph, depth: usize) -> (r: Result<(String, Vec<CallHit>), (String, i32)>)
    ensures
        r is Ok <==> (abs matches Some(a) && dep_graph_has(*graph, a@)),
        r matches Ok((c, hits)) ==> (abs matches Some(a) && c@ == a@ && forall|cg: CallGraph| #[trigger]
            lays_out(cg, *graph) ==> hits@ == bfs_hits(cg, Direction::Forward, c@, walk_depth(depth))),
        r matches Ok((_, hits)) ==> forall|i: int|
            0 <= i < hits@.len() ==> 1 <= (#[trigger] hits@[i]).depth <= (if depth < 1 { 1 } else { depth }),
        r matches Err((m, code)) ==> m@ == deps_missing_note(file@) && code == 2,
{
    let c = match canonicalise_in_root(abs, graph) {
        Some(c) => c,
        None => {
            proof {
                reveal_strlit("# note: ");
                reveal_strlit(" is not part of the dep graph (excluded by .gitignore or unsupported language?)");
            }
            let head = concat("# note: ", file);
            return Err((concat(head.as_str(), " is not part of the dep graph (excluded by .gitignore or unsupported language?)"), 2));
        },
    };
    let imports = import_graph(graph);
    let d: usize = if depth < 1 { 1 } else { depth };
    let hits = callees(&imports, &c, d);
    proof {
        lemma_hits_depths(imports, Direction::Forward, c@, d as nat);
        assert forall|cg: CallGraph| #[trigger] lays_out(cg, *graph) implies hits@ == bfs_hits(
            cg,
            Direction::Forward,
            c@,
            walk_depth(depth),
        ) by {
            assert forall|k: Seq<char>| #[trigger] table_of(cg, Direction::Forward).edges_for(k) == table_of(
                imports,
                Direction::Forward,
            ).edges_for(k) by {
                assert(cg.forward.edges_for(k) == forward_index(graph.forward@, k));
                assert(imports.forward.edges_for(k) == forward_index(graph.forward@, k));
            }
            lemma_hits_depend_on_edges(cg, imports, Direction::Forward, c@, walk_depth(depth));
        }
    }
    Ok((c, hits))
}

/// `reverse-deps` once the project's graph is loaded: as `deps_of`, but
/// the files that import `file`, transitively, at most `limit` of them
/// (the first found).
pub fn reverse_deps_of(file: &str, abs: Option<String>, graph: &DepGraph, depth: usize, limit: usize) -> (r: Result<
    (String, Vec<CallHit>),
    (String, i32),
>)
    ensures
        r is Ok <==> (abs matches Some(a) && dep_graph_has(*graph, a@)),
        r matches Ok((c, hits)) ==> (abs matches Some(a) && c@ == a@ && forall|cg: CallGraph| #[trigger]
            lays_out(cg, *graph) ==> hits@ == (if bfs_hits(cg, Direction::Reverse, c@, walk_depth(depth)).len()
            > limit {
            bfs_hits(cg, Direction::Reverse, c@, walk_depth(depth)).take(limit as int)
        } else {
            bfs_hits(cg, Direction::Reverse, c@, walk_depth(depth))
        })),
        r matches Ok((_, hits)) ==> hits@.len() <= limit && forall|i: int|
            0 <= i < hits@.len() ==> 1 <= (#[trigger] hits@[i]).depth <= (if depth < 1 { 1 } else { depth }),
        r matches Err((m, code)) ==> m@ == reverse_deps_missing_note(file@) && code == 2,
{
    let c = match canonicalise_in_root(abs, graph) {
        Some(c) => c,
        None => {
            proof {
                reveal_strlit("# note: ");
                reveal_strlit(" is not part of the dep graph");
            }
            let head = concat("# note: ", file);
            return Err((concat(head.as_str(), " is not part of the dep graph"), 2));
        },
    };
    let imports = import_graph(graph);
    let d: usize = if depth < 1 { 1 } else { depth };
    let hits = callers(&imports, &c, d, limit);
    proof {
        lemma_hits_depths(imports, Direction::Reverse, c@, d as nat);
        let all = bfs_hits(imports, Direction::Reverse, c@, d as nat);
        assert forall|i: int| 0 <= i < hits@.len() implies 1 <= (#[trigger] hits@[i]).depth <= d by {
            assert(hits@[i] == all[i]);
        }
        assert forall|cg: CallGraph| #[trigger] lays_out(cg, *graph) implies bfs_hits(
            cg,
            Direction::Reverse,
            c@,
            walk_depth(depth),
        ) == bfs_hits(imports, Direction::Reverse, c@, walk_depth(depth)) by {
            assert forall|k: Seq<char>| #[trigger] table_of(cg, Direction::Reverse).edges_for(k) == table_of(
                imports,
                Direction::Reverse,
            ).edges_for(k) by {
                assert(cg.reverse.edges_for(k) == reverse_index(graph.forward@, k));
                assert(imports.reverse.edges_for(k) == reverse_index(graph.forward@, k));
            }
            lemma_hits_depend_on_edges(cg, imports, Direction::Reverse, c@, walk_depth(depth));
        }
    }
    Ok((c, hits))
}

/// The line printed on standard error when a command stops early.
pub open spec fn note_line(msg: Seq<char>) -> Seq<char> {
    "# note: "@ + msg
}

/// The note for `msg` (see `note_line`).
pub fn note(msg: &str) -> (r: String)
    ensures
        r@ == note_line(msg@),
{
    proof {
        reveal_strlit("# note: ");
    }
    concat("# note: ", msg)
}

/// The note when the path given to `cycles` or `graph` cannot be
/// resolved, `why` telling why.
pub open spec fn unresolved_note(path: Seq<char>, why: Seq<char>) -> Seq<char> {
    note_line("cannot resolve "@ + path + ": "@ + why)
}

/// The note when `path` cannot be resolved (see `unresolved_note`).
pub fn unresolved(path: &str, why: &str) -> (r: String)
    ensures
        r@ == unresolved_note(path@, why@),
{
    proof {
        reveal_strlit("cannot resolve ");
        reveal_strlit(": ");
    }
    let a = concat("cannot resolve ", path);
    let b = concat(a.as_str(), ": ");
    let m = concat(b.as_str(), why);
    assert(m@ =~= "cannot resolve "@ + path@ + ": "@ + why@);
    note(m.as_str())
}

/// The exit status of `deps` and `reverse-deps`: 2, a user error, when no
/// project root is found for the file or the file is not in the project's
/// graph; 1, an internal error, when the graph cannot be loaded; 0 once the
/// file's dependencies are reported.
pub fn command_exit_status(root_found: bool, loaded: bool, in_graph: bool) -> (r: i32)
    ensures
        !root_found ==> r == 2,
        root_found && !loaded ==> r == 1,
        root_found && loaded && !in_graph ==> r == 2,
        root_found && loaded && in_graph ==> r == 0,
{
    if !root_found {
        2
    } else if !loaded {
        1
    } else if !in_graph {
        2
    } else {
        0
    }
}

/// The exit status of `cycles`: 2 when the path cannot be resolved, 1 when
/// the graph cannot be loaded; otherwise 3 when there is a cycle, so that
/// the command can gate a CI run, and 0 when there is none.
pub fn cycles_exit_status(resolved: bool, loaded: bool, cycle_count: usize) -> (r: i32)
    ensures
        !resolved ==> r == 2,
        resolved && !loaded ==> r == 1,
        resolved && loaded && cycle_count > 0 ==> r == 3,
        resolved && loaded && cycle_count == 0 ==> r == 0,
{
    if !resolved {
        2
    } else if !loaded {
        1
    } else if cycle_count > 0 {
        3
    } else {
        0
    }
}

/// The exit status of `graph`: 2 when the path cannot be resolved, 1 when
/// the graph cannot be loaded, 2 when the format is unknown, 0 once the
/// graph is printed.
pub fn graph_exit_status(resolved: bool, loaded: bool, format_known: bool) -> (r: i32)
    ensures
        !resolved ==> r == 2,
        resolved && !loaded ==> r == 1,
        resolved && loaded && !format_known ==> r == 2,
        resolved && loaded && format_known ==> r == 0,
{
    if !resolved {
        2
    } else if !loaded {
        1
    } else if !format_known {
        2
    } else {
        0
    }
}

/// How `graph` prints a project's import graph.
#[derive(Debug, Clone, Copy, PartialEq, Eq)]
pub enum GraphFormat {
    Text,
    Json,
    Dot,
    Dsm,
}

/// The note when `graph` is asked for a format it does not know (the
/// command then exits with status 2).
pub open spec fn unknown_format_note(format: Seq<char>) -> Seq<char> {
    "# note: unknown --format '"@ + format + "'. Expected text|json|dot|dsm."@
}

/// The format named by `--format`: `text`, `json`, `dot` or `dsm`;
/// otherwise the note to print and the exit status, 2.
pub fn graph_format(format: &str) -> (r: Result<GraphFormat, (String, i32)>)
    ensures
        format@ == "text"@ ==> r == Ok::<GraphFormat, (String, i32)>(GraphFormat::Text),
        format@ == "json"@ ==> r == Ok::<GraphFormat, (String, i32)>(GraphFormat::Json),
        format@ == "dot"@ ==> r == Ok::<GraphFormat, (String, i32)>(GraphFormat::Dot),
        format@ == "dsm"@ ==> r == Ok::<GraphFormat, (String, i32)>(GraphFormat::Dsm),
        r is Err <==> (format@ != "text"@ && format@ != "json"@ && format@ != "dot"@ && format@ != "dsm"@),
        r matches Err((m, code)) ==> m@ == unknown_format_note(format@) && code == 2,
{
    proof {
        reveal_strlit("text");
        reveal_strlit("json");
        reveal_strlit("dot");
        reveal_strlit("dsm");
        assert("text"@[0] != "json"@[0]);
        assert("dot"@[1] != "dsm"@[1]);
    }
    let f = format.to_owned();
    if f == "text".to_owned() {
        Ok(GraphFormat::Text)
    } else if f == "json".to_owned() {
        Ok(GraphFormat::Json)
    } else if f == "dot".to_owned() {
        Ok(GraphFormat::Dot)
    } else if f == "dsm".to_owned() {
        Ok(GraphFormat::Dsm)
    } else {
        proof {
            reveal_strlit("# note: unknown --format '");
            reveal_strlit("'. Expected text|json|dot|dsm.");
        }
        let head = concat("# note: unknown --format '", format);
        Err((concat(head.as_str(), "'. Expected text|json|dot|dsm."), 2))
    }
}

} // verus!
