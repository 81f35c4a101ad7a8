use ast_outline::paths::{
    ancestors_of, canonicalise_in_root, find_root_for, join, manifest_names, parent_of, search_start, DepGraph,
    RootProbe,
};

fn probe(canonical: &str, is_dir: bool, has_manifest: Vec<bool>) -> RootProbe {
    RootProbe { exists: true, canonical: Ok(canonical.to_string()), is_dir, has_manifest, cwd: "/home/u/elsewhere".to_string() }
}

#[test]
fn find_root_stops_at_first_directory_with_a_manifest() {
    let p = probe("/work/proj/src/lib.rs", false, vec![false, true, true, false]);
    assert_eq!(find_root_for("src/lib.rs", &p), Ok("/work/proj".to_string()));
}

#[test]
fn find_root_checks_the_file_directory_first() {
    let p = probe("/work/proj/src/lib.rs", false, vec![true, true, false, false]);
    assert_eq!(find_root_for("src/lib.rs", &p), Ok("/work/proj/src".to_string()));
}

#[test]
fn find_root_starts_at_a_directory_itself() {
    let p = probe("/work/proj", true, vec![true, false, false]);
    assert_eq!(find_root_for(".", &p), Ok("/work/proj".to_string()));
}

#[test]
fn find_root_falls_back_to_the_current_directory() {
    let p = probe("/work/proj/src/lib.rs", false, vec![false, false, false, false]);
    assert_eq!(find_root_for("src/lib.rs", &p), Ok("/home/u/elsewhere".to_string()));
    let d = probe("/work/proj", true, vec![false, false, false]);
    assert_eq!(find_root_for("/work/proj", &d), Ok("/home/u/elsewhere".to_string()));
}

#[test]
fn find_root_reports_missing_file() {
    let p = RootProbe { exists: false, canonical: Err("unused".to_string()), is_dir: false, has_manifest: vec![], cwd: "/".to_string() };
    assert_eq!(find_root_for("nope.rs", &p), Err("file not found: nope.rs".to_string()));
}

#[test]
fn find_root_reports_unresolvable_path() {
    let p = RootProbe {
        exists: true,
        canonical: Err("permission denied".to_string()),
        is_dir: false,
        has_manifest: vec![],
        cwd: "/".to_string(),
    };
    assert_eq!(find_root_for("x.rs", &p), Err("cannot resolve x.rs: permission denied".to_string()));
}

#[test]
fn find_root_reports_file_without_parent() {
    let p = probe("/", false, vec![]);
    assert_eq!(find_root_for("/", &p), Err("no parent directory".to_string()));
}

#[test]
fn ancestors_walk_up_to_the_root() {
    assert_eq!(
        ancestors_of("/work/proj/src"),
        vec!["/work/proj/src".to_string(), "/work/proj".to_string(), "/work".to_string(), "/".to_string()]
    );
    assert_eq!(ancestors_of("/"), vec!["/".to_string()]);
    assert_eq!(ancestors_of("a/b"), vec!["a/b".to_string(), "a".to_string(), "".to_string()]);
}

#[test]
fn parent_of_matches_path_parent() {
    assert_eq!(parent_of("/work/proj"), Some("/work".to_string()));
    assert_eq!(parent_of("/work"), Some("/".to_string()));
    assert_eq!(parent_of("/"), None);
    assert_eq!(parent_of(""), None);
    assert_eq!(parent_of("file.rs"), Some("".to_string()));
    assert_eq!(parent_of("a/b.rs"), Some("a".to_string()));
}

#[test]
fn join_places_relative_paths_under_base() {
    assert_eq!(join("/p", "x/y"), "/p/x/y");
    assert_eq!(join("/p/", "x"), "/p/x");
    assert_eq!(join("/p", "/abs"), "/abs");
    assert_eq!(join("", "x"), "x");
}

#[test]
fn search_start_is_directory_or_parent() {
    assert_eq!(search_start("/a/b.rs", false), Some("/a".to_string()));
    assert_eq!(search_start("/a", true), Some("/a".to_string()));
    assert_eq!(search_start("/", false), None);
}

#[test]
fn manifest_names_in_order() {
    assert_eq!(
        manifest_names(),
        vec![
            "Cargo.toml",
            "go.mod",
            "package.json",
            "pyproject.toml",
            "build.gradle",
            "build.gradle.kts",
            "build.sbt",
            "pom.xml"
        ]
    );
}

#[test]
fn canonicalise_in_root_finds_known_file() {
    let g = DepGraph {
        forward: vec![
            ("/p/src/a.rs".to_string(), vec!["/p/src/b.rs".to_string()]),
            ("/p/src/b.rs".to_string(), vec![]),
        ],
    };
    assert_eq!(canonicalise_in_root(Some("/p/src/b.rs".to_string()), &g), Some("/p/src/b.rs".to_string()));
    assert_eq!(canonicalise_in_root(Some("/p/src/c.rs".to_string()), &g), None);
    assert_eq!(canonicalise_in_root(None, &g), None);
}

#[test]
fn found_root_is_its_own_root() {
    let p = probe("/work/proj/src/lib.rs", false, vec![false, true, false, false]);
    let root = find_root_for("src/lib.rs", &p).unwrap();
    let again = probe(&root, true, vec![true, false, false]);
    assert_eq!(find_root_for(&root, &again), Ok(root.clone()));
}
