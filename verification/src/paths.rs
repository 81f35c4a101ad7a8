//! Paths as `/`-separated strings (Unix paths), and the search for a project's root.
//!
//! The paths handled here are canonical: absolute, without `.` or `..`
//! components, repeated separators or a trailing separator (what
//! `canonicalize` produces). On such paths `parent_path` and `join_path`
//! agree with std's `Path::parent` and `Path::join`.
use vstd::prelude::*;
use crate::text::{concat, from_chars, to_chars};

verus! {

broadcast use vstd::seq_lib::group_seq_properties;

/// Position of the last `/` in `s`, or -1 when there is none.
pub open spec fn last_slash(s: Seq<char>) -> int
    decreases s.len(),
{
    if s.len() == 0 {
        -1
    } else if s.last() == '/' {
        s.len() - 1
    } else {
        last_slash(s.drop_last())
    }
}

/// `last_slash` is a position of `s` holding `/`, with none after it.
pub proof fn lemma_last_slash(s: Seq<char>)
    ensures
        -1 <= last_slash(s) < s.len(),
        last_slash(s) >= 0 ==> s[last_slash(s)] == '/',
        forall|j: int| last_slash(s) < j < s.len() ==> s[j] != '/',
    decreases s.len(),
{
    if s.len() > 0 && s.last() != '/' {
        lemma_last_slash(s.drop_last());
        assert forall|j: int| last_slash(s) < j < s.len() implies s[j] != '/' by {
            if j < s.len() - 1 {
                assert(s.drop_last()[j] == s[j]);
            }
        }
    }
}

/// The parent of a path: none for the empty path and for `/`; the empty
/// path for a single relative component; `/` for a component right under
/// the root; otherwise everything before the last `/`.
pub open spec fn parent_path(p: Seq<char>) -> Option<Seq<char>> {
    if p.len() == 0 || p == seq!['/'] {
        None
    } else {
        let i = last_slash(p);
        if i < 0 {
            Some(Seq::empty())
        } else if i == 0 {
            Some(seq!['/'])
        } else {
            Some(p.take(i))
        }
    }
}

/// A parent is shorter than its child.
pub proof fn lemma_parent_shorter(p: Seq<char>)
    ensures
        parent_path(p) matches Some(q) ==> q.len() < p.len(),
{
    lemma_last_slash(p);
    if p.len() == 1 && parent_path(p) is Some {
        if last_slash(p) == 0 {
            assert(p =~= seq!['/']);
        }
    }
}

/// `rel` placed under `base`: `rel` itself when it is absolute or `base`
/// is empty; otherwise `base`, a `/` unless `base` already ends with one,
/// then `rel`.
pub open spec fn join_path(base: Seq<char>, rel: Seq<char>) -> Seq<char> {
    if rel.len() > 0 && rel[0] == '/' {
        rel
    } else if base.len() == 0 {
        rel
    } else if base.last() == '/' {
        base + rel
    } else {
        base + seq!['/'] + rel
    }
}

/// A directory followed by its parent, its parent's parent, and so on up
/// to the root.
pub open spec fn ancestors(p: Seq<char>) -> Seq<Seq<char>>
    decreases p.len(),
{
    match parent_path(p) {
        None => seq![p],
        Some(q) => {
            proof {
                lemma_parent_shorter(p);
            }
            seq![p] + ancestors(q)
        },
    }
}

proof fn lemma_last_slash_at(s: Seq<char>, k: int)
    requires
        0 <= k < s.len(),
        s[k] == '/',
        forall|j: int| k < j < s.len() ==> s[j] != '/',
    ensures
        last_slash(s) == k,
{
    lemma_last_slash(s);
}

/// A name joined under a directory has that directory as its parent: for
/// a name without `/`, `parent_path(join_path(base, name)) == base` (and
/// `/` when `base` is the root).
pub proof fn lemma_parent_of_join(base: Seq<char>, name: Seq<char>)
    requires
        base.len() > 0,
        name.len() > 0,
        forall|j: int| 0 <= j < name.len() ==> name[j] != '/',
    ensures
        base.last() != '/' ==> parent_path(join_path(base, name)) == Some(base),
        base == seq!['/'] ==> parent_path(join_path(base, name)) == Some(seq!['/']),
{
    let p = join_path(base, name);
    if base.last() != '/' {
        assert(p =~= base + seq!['/'] + name);
        assert(p[base.len() as int] == '/');
        assert forall|j: int| base.len() < j < p.len() implies p[j] != '/' by {
            assert(p[j] == name[j - base.len() - 1]);
        }
        lemma_last_slash_at(p, base.len() as int);
        assert(p.take(base.len() as int) =~= base);
    }
    if base == seq!['/'] {
        assert(p =~= base + name);
        assert(p[0] == '/');
        assert forall|j: int| 0 < j < p.len() implies p[j] != '/' by {
            assert(p[j] == name[j - 1]);
        }
        lemma_last_slash_at(p, 0);
        assert(p != seq!['/']);
    }
}

/// The directories `ancestors` walks: `p` first, each next one the parent
/// of the one before, ending at a directory that has no parent.
pub proof fn lemma_ancestors_walk_up(p: Seq<char>)
    ensures
        ancestors(p).len() >= 1,
        ancestors(p)[0] == p,
        forall|i: int|
            0 <= i < ancestors(p).len() - 1 ==> parent_path(#[trigger] ancestors(p)[i]) == Some(ancestors(p)[i + 1]),
        parent_path(ancestors(p).last()) is None,
    decreases p.len(),
{
    match parent_path(p) {
        None => {},
        Some(q) => {
            lemma_parent_shorter(p);
            lemma_ancestors_walk_up(q);
            let a = ancestors(p);
            let b = ancestors(q);
            assert(a == seq![p] + b);
            assert forall|i: int| 0 <= i < a.len() - 1 implies parent_path(#[trigger] a[i]) == Some(a[i + 1]) by {
                if i > 0 {
                    assert(a[i] == b[i - 1]);
                    assert(a[i + 1] == b[i]);
                } else {
                    assert(a[1] == b[0]);
                }
            }
            assert(a.last() == b.last());
        },
    }
}

/// The parent of `p` (see `parent_path`).
pub fn parent_of(p: &str) -> (r: Option<String>)
    ensures
        r matches Some(q) ==> parent_path(p@) == Some(q@),
        r is None <==> parent_path(p@) is None,
{
    let v = to_chars(p);
    if v.len() == 0 || (v.len() == 1 && v[0] == '/') {
        proof {
            if v.len() == 1 {
                assert(p@ =~= seq!['/']);
            }
        }
        return None;
    }
    proof {
        if p@ == seq!['/'] {
            assert(v@[0] == '/');
        }
    }
    let mut i = v.len();
    while i > 0 && v[i - 1] != '/'
        invariant
            v@ == p@,
            i <= v@.len(),
            last_slash(p@) == last_slash(p@.take(i as int)),
        decreases i,
    {
        assert(p@.take(i as int).drop_last() =~= p@.take(i - 1));
        i -= 1;
    }
    proof {
        if i > 0 {
            assert(p@.take(i as int).last() == '/');
        } else {
            assert(p@.take(0) =~= Seq::<char>::empty());
        }
    }
    if i == 0 {
        Some(String::new())
    } else if i == 1 {
        Some(from_chars(&v, 0, 1))
    } else {
        Some(from_chars(&v, 0, i - 1))
    }
}

/// `rel` placed under `base` (see `join_path`).
pub fn join(base: &str, rel: &str) -> (r: String)
    ensures
        r@ == join_path(base@, rel@),
{
    let rv = to_chars(rel);
    if rv.len() > 0 && rv[0] == '/' {
        return rel.to_owned();
    }
    let bv = to_chars(base);
    if bv.len() == 0 {
        rel.to_owned()
    } else if bv[bv.len() - 1] == '/' {
        concat(base, rel)
    } else {
        let with_sep = concat(base, "/");
        proof {
            reveal_strlit("/");
        }
        concat(with_sep.as_str(), rel)
    }
}

/// The character sequences of a list of strings.
pub open spec fn views(v: Seq<String>) -> Seq<Seq<char>> {
    v.map_values(|s: String| s@)
}

/// The directories from `dir` up to the root (see `ancestors`).
pub fn ancestors_of(dir: &str) -> (r: Vec<String>)
    ensures
        views(r@) == ancestors(dir@),
{
    let mut r: Vec<String> = Vec::new();
    let mut cur = dir.to_owned();
    let ghost start = dir@;
    loop
        invariant
            start == dir@,
            ancestors(start) == views(r@) + ancestors(cur@),
        decreases cur@.len(),
    {
        let next = parent_of(cur.as_str());
        proof {
            lemma_parent_shorter(cur@);
        }
        let ghost before = r@;
        match next {
            None => {
                let ghost c = cur@;
                assert(ancestors(c) == seq![c]);
                r.push(cur);
                assert(views(r@) =~= views(before) + seq![c]);
                return r;
            },
            Some(q) => {
                let ghost c = cur@;
                r.push(cur);
                assert(views(r@) =~= views(before) + seq![c]);
                assert(ancestors(c) == seq![c] + ancestors(q@));
                cur = q;
            },
        }
    }
}

/// The file names that mark a directory as a project root.
pub open spec fn manifest_file_names() -> Seq<Seq<char>> {
    seq![
        "Cargo.toml"@,
        "go.mod"@,
        "package.json"@,
        "pyproject.toml"@,
        "build.gradle"@,
        "build.gradle.kts"@,
        "build.sbt"@,
        "pom.xml"@,
    ]
}

/// The file names that mark a directory as a project root, in the order in
/// which a directory is checked for them.
pub fn manifest_names() -> (r: Vec<&'static str>)
    ensures
        r@.map_values(|s: &str| s@) == manifest_file_names(),
{
    let r = vec![
        "Cargo.toml",
        "go.mod",
        "package.json",
        "pyproject.toml",
        "build.gradle",
        "build.gradle.kts",
        "build.sbt",
        "pom.xml",
    ];
    assert(r@.map_values(|s: &str| s@) =~= manifest_file_names());
    r
}

/// Where the search for a root starts: the path itself when it is a
/// directory, otherwise its parent.
pub open spec fn search_start_path(abs: Seq<char>, is_dir: bool) -> Option<Seq<char>> {
    if is_dir {
        Some(abs)
    } else {
        parent_path(abs)
    }
}

/// Where the search for a root starts (see `search_start_path`).
pub fn search_start(abs: &str, is_dir: bool) -> (r: Option<String>)
    ensures
        r matches Some(s) ==> search_start_path(abs@, is_dir) == Some(s@),
        r is None <==> search_start_path(abs@, is_dir) is None,
{
    if is_dir {
        Some(abs.to_owned())
    } else {
        parent_of(abs)
    }
}

/// What the file system told about the file whose project root is sought.
pub struct RootProbe {
    /// Whether the path exists.
    pub exists: bool,
    /// The canonical form of the path, or why it could not be formed.
    pub canonical: Result<String, String>,
    /// Whether the canonical path is a directory.
    pub is_dir: bool,
    /// For each directory of `ancestors_of(search_start(..))`, in order,
    /// whether it holds a file named by `manifest_names()`.
    pub has_manifest: Vec<bool>,
    /// The current directory, where the search ends when no directory
    /// holds a manifest.
    pub cwd: String,
}

/// Position of the first `true` in `flags`, or -1 when there is none.
pub open spec fn first_true(flags: Seq<bool>) -> int
    decreases flags.len(),
{
    if flags.len() == 0 {
        -1
    } else if flags[0] {
        0
    } else {
        let r = first_true(flags.drop_first());
        if r < 0 {
            -1
        } else {
            r + 1
        }
    }
}

/// The root of the project holding `file`: the nearest directory, starting
/// where `search_start_path` says and walking up, that holds a manifest;
/// when there is none, the current directory `cwd`.
pub open spec fn project_root(
    file: Seq<char>,
    exists: bool,
    canonical: Result<Seq<char>, Seq<char>>,
    is_dir: bool,
    has_manifest: Seq<bool>,
    cwd: Seq<char>,
) -> Result<Seq<char>, Seq<char>> {
    if !exists {
        Err("file not found: "@ + file)
    } else {
        match canonical {
            Err(e) => Err("cannot resolve "@ + file + ": "@ + e),
            Ok(abs) => match search_start_path(abs, is_dir) {
                None => Err("no parent directory"@),
                Some(start) => {
                    let anc = ancestors(start);
                    let n = if has_manifest.len() < anc.len() { has_manifest.len() } else { anc.len() };
                    let i = first_true(has_manifest.take(n as int));
                    if i < 0 {
                        Ok(cwd)
                    } else {
                        Ok(anc[i])
                    }
                },
            },
        }
    }
}

/// The view of a string result.
pub open spec fn result_view(r: Result<String, String>) -> Result<Seq<char>, Seq<char>> {
    match r {
        Ok(s) => Ok(s@),
        Err(e) => Err(e@),
    }
}

proof fn lemma_first_true_step(flags: Seq<bool>, i: int)
    requires
        0 <= i < flags.len(),
        forall|j: int| 0 <= j < i ==> !flags[j],
    ensures
        flags[i] ==> first_true(flags) == i,
        first_true(flags) < 0 || first_true(flags) >= i,
    decreases i,
{
    if i > 0 {
        lemma_first_true_step(flags.drop_first(), i - 1);
        assert(!flags[0]);
    }
}

proof fn lemma_first_true_none(flags: Seq<bool>)
    requires
        forall|j: int| 0 <= j < flags.len() ==> !flags[j],
    ensures
        first_true(flags) < 0,
    decreases flags.len(),
{
    if flags.len() > 0 {
        lemma_first_true_none(flags.drop_first());
    }
}

proof fn lemma_first_true_take(flags: Seq<bool>, n: int, i: int)
    requires
        0 <= i < n <= flags.len(),
        flags[i],
        forall|j: int| 0 <= j < i ==> !flags[j],
    ensures
        first_true(flags.take(n)) == i,
{
    lemma_first_true_step(flags.take(n), i);
}

/// The root found is the nearest directory holding a manifest, however far
/// up it lies: when the `i`-th directory from the search start holds one
/// and none below it does, the search gives that directory. When no
/// directory on the way up holds one, it gives the current directory.
pub proof fn lemma_root_is_nearest_manifest(
    file: Seq<char>,
    abs: Seq<char>,
    is_dir: bool,
    has_manifest: Seq<bool>,
    cwd: Seq<char>,
    start: Seq<char>,
    i: int,
)
    requires
        search_start_path(abs, is_dir) == Some(start),
        0 <= i < has_manifest.len(),
        i < ancestors(start).len(),
        has_manifest[i],
        forall|j: int| 0 <= j < i ==> !has_manifest[j],
    ensures
        project_root(file, true, Ok(abs), is_dir, has_manifest, cwd) == Ok::<Seq<char>, Seq<char>>(
            ancestors(start)[i],
        ),
{
    let anc = ancestors(start);
    let n = if has_manifest.len() < anc.len() { has_manifest.len() } else { anc.len() };
    lemma_first_true_take(has_manifest, n as int, i);
}

/// When no directory from the search start up to the root holds a
/// manifest, the search falls back to the current directory.
pub proof fn lemma_root_falls_back_to_cwd(
    file: Seq<char>,
    abs: Seq<char>,
    is_dir: bool,
    has_manifest: Seq<bool>,
    cwd: Seq<char>,
    start: Seq<char>,
)
    requires
        search_start_path(abs, is_dir) == Some(start),
        forall|j: int| 0 <= j < has_manifest.len() && j < ancestors(start).len() ==> !has_manifest[j],
    ensures
        project_root(file, true, Ok(abs), is_dir, has_manifest, cwd) == Ok::<Seq<char>, Seq<char>>(cwd),
{
    let anc = ancestors(start);
    let n = if has_manifest.len() < anc.len() { has_manifest.len() } else { anc.len() };
    lemma_first_true_none(has_manifest.take(n as int));
}

/// A directory that holds a manifest is its own project root: searching
/// from that directory (as from a root found before, the file system
/// unchanged) gives the directory itself, whatever the directories above
/// it hold and wherever the search is run from.
pub proof fn lemma_root_is_own_root(file: Seq<char>, r: Seq<char>, has_manifest: Seq<bool>, cwd: Seq<char>)
    requires
        has_manifest.len() > 0,
        has_manifest[0],
    ensures
        project_root(file, true, Ok(r), true, has_manifest, cwd) == Ok::<Seq<char>, Seq<char>>(r),
{
    let anc = ancestors(r);
    assert(anc[0] == r) by {
        reveal_with_fuel(ancestors, 1);
    }
    let n = if has_manifest.len() < anc.len() { has_manifest.len() } else { anc.len() };
    lemma_first_true_take(has_manifest, n as int, 0);
}

/// The root of the project holding `file` (see `project_root`), from what
/// the file system told about it.
pub fn find_root_for(file: &str, probe: &RootProbe) -> (r: Result<String, String>)
    ensures
        result_view(r) == project_root(
            file@,
            probe.exists,
            result_view(probe.canonical),
            probe.is_dir,
            probe.has_manifest@,
            probe.cwd@,
        ),
{
    proof {
        reveal_strlit("file not found: ");
        reveal_strlit("cannot resolve ");
        reveal_strlit(": ");
        reveal_strlit("no parent directory");
    }
    if !probe.exists {
        return Err(concat("file not found: ", file));
    }
    let abs = match &probe.canonical {
        Ok(a) => a,
        Err(e) => {
            let head = concat("cannot resolve ", file);
            let mid = concat(head.as_str(), ": ");
            return Err(concat(mid.as_str(), e.as_str()));
        },
    };
    let start = match search_start(abs.as_str(), probe.is_dir) {
        Some(s) => s,
        None => {
            return Err("no parent directory".to_owned());
        },
    };
    let anc = ancestors_of(start.as_str());
    let ghost av = views(anc@);
    let ghost flags = probe.has_manifest@;
    let ghost n = if flags.len() < av.len() { flags.len() } else { av.len() };
    let mut i: usize = 0;
    while i < anc.len() && i < probe.has_manifest.len()
        invariant
            av == views(anc@),
            av == ancestors(start@),
            search_start_path(abs@, probe.is_dir) == Some(start@),
            probe.exists,
            result_view(probe.canonical) == Ok::<Seq<char>, Seq<char>>(abs@),
            flags == probe.has_manifest@,
            n == if flags.len() < av.len() { flags.len() } else { av.len() },
            i <= n,
            forall|j: int| 0 <= j < i ==> !flags[j],
        decreases anc@.len() - i,
    {
        if probe.has_manifest[i] {
            proof {
                lemma_first_true_take(flags, n as int, i as int);
                assert(av[i as int] == anc@[i as int]@);
            }
            return Ok(anc[i].clone());
        }
        i += 1;
    }
    proof {
        assert(i == n);
        lemma_first_true_none(flags.take(n as int));
    }
    Ok(probe.cwd.clone())
}

/// The import graph of a project: each file with the files it imports.
pub struct DepGraph {
    pub forward: Vec<(String, Vec<String>)>,
}

/// Whether `path` is one of the files of the graph.
pub open spec fn dep_graph_has(g: DepGraph, path: Seq<char>) -> bool {
    exists|i: int| 0 <= i < g.forward@.len() && #[trigger] g.forward@[i].0@ == path
}

/// The graph's own entry for the canonical path `abs`, if the graph holds
/// that file; none when there is no canonical path or the graph does not
/// hold it. Paths are compared as text.
pub fn canonicalise_in_root(abs: Option<String>, graph: &DepGraph) -> (r: Option<String>)
    ensures
        r is Some <==> (abs matches Some(a) && dep_graph_has(*graph, a@)),
        r matches Some(k) ==> abs matches Some(a) && k@ == a@,
{
    let a = match &abs {
        Some(a) => a,
        None => return None,
    };
    let mut i: usize = 0;
    while i < graph.forward.len()
        invariant
            abs == Some(*a),
            i <= graph.forward@.len(),
            forall|j: int| 0 <= j < i ==> graph.forward@[j].0@ != a@,
        decreases graph.forward@.len() - i,
    {
        if graph.forward[i].0 == *a {
            assert(graph.forward@[i as int].0@ == a@);
            return Some(graph.forward[i].0.clone());
        }
        i += 1;
    }
    None
}

} // verus!
