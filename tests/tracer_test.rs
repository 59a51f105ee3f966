use dep_why::graph::{LockFile, Package};
use dep_why::tracer::DependencyTracer;

fn package(name: &str, version: &str, deps: &[(&str, &str)]) -> Package {
    let mut p = Package::new(name.to_string(), version.to_string());
    for (d, r) in deps {
        p.add_dependency(d.to_string(), r.to_string());
    }
    p
}

fn create_test_lock_file() -> LockFile {
    let mut packages = LockFile::new();
    packages.insert(
        "react@18.2.0".to_string(),
        package("react", "18.2.0", &[("loose-envify", "^1.1.0")]),
    );
    packages.insert(
        "loose-envify@1.4.0".to_string(),
        package("loose-envify", "1.4.0", &[("js-tokens", "^3.0.0")]),
    );
    packages.insert("js-tokens@3.0.2".to_string(), package("js-tokens", "3.0.2", &[]));
    packages
}

fn key_of(lf: &LockFile, i: usize) -> String {
    lf.packages[i].0.clone()
}

#[test]
fn test_trace_finds_package() {
    let lock_file = create_test_lock_file();
    let tracer = DependencyTracer::new(lock_file);

    let chains = tracer.trace("js-tokens", None, false);
    assert!(!chains.is_empty());
    assert_eq!(chains[0][0].name, "js-tokens");
}

#[test]
fn test_trace_with_version() {
    let lock_file = create_test_lock_file();
    let tracer = DependencyTracer::new(lock_file);

    let chains = tracer.trace("js-tokens", Some("3.0.2"), false);
    assert!(!chains.is_empty());
    assert_eq!(chains[0][0].version, "3.0.2");
}

#[test]
fn test_trace_nonexistent_package() {
    let lock_file = create_test_lock_file();
    let tracer = DependencyTracer::new(lock_file);

    let chains = tracer.trace("nonexistent", None, false);
    assert!(chains.is_empty());
}

#[test]
fn test_build_reverse_deps() {
    let lock_file = create_test_lock_file();
    let reverse_deps = DependencyTracer::build_reverse_deps(&lock_file);

    assert!(reverse_deps.contains_key("loose-envify"));
    assert!(reverse_deps.contains_key("js-tokens"));
    assert_eq!(reverse_deps.get("loose-envify").unwrap().len(), 1);
}

#[test]
fn test_trace_all_paths() {
    let mut packages = LockFile::new();
    packages.insert("target@1.0.0".to_string(), package("target", "1.0.0", &[]));
    packages.insert("dep-a@1.0.0".to_string(), package("dep-a", "1.0.0", &[("target", "1.0.0")]));
    packages.insert("dep-b@1.0.0".to_string(), package("dep-b", "1.0.0", &[("target", "1.0.0")]));

    let tracer = DependencyTracer::new(packages);

    let chains = tracer.trace("target", None, true);
    assert!(chains.len() >= 1);
}

#[test]
fn all_paths_reaches_each_root() {
    let mut packages = LockFile::new();
    packages.insert("target@1.0.0".to_string(), package("target", "1.0.0", &[]));
    packages.insert("dep-a@1.0.0".to_string(), package("dep-a", "1.0.0", &[("target", "1.0.0")]));
    packages.insert("dep-b@1.0.0".to_string(), package("dep-b", "1.0.0", &[("target", "1.0.0")]));
    let tracer = DependencyTracer::new(packages);

    let chains = tracer.trace("target", None, true);
    assert_eq!(chains.len(), 2);
    assert_eq!(chains[0].len(), 2);
    assert_eq!(chains[0][1].name, "dep-a");
    assert_eq!(chains[1][1].name, "dep-b");

    let shortest = tracer.trace("target", None, false);
    assert_eq!(shortest.len(), 1);
    assert_eq!(shortest[0][1].name, "dep-a");
}

#[test]
fn reverse_index_lists_the_dependents() {
    let lock_file = create_test_lock_file();
    let reverse = DependencyTracer::build_reverse_deps(&lock_file);
    let le = reverse.get("loose-envify").unwrap();
    assert_eq!(le.len(), 1);
    assert_eq!(key_of(&lock_file, le[0]), "react@18.2.0");
    let jt = reverse.get("js-tokens").unwrap();
    assert_eq!(jt.len(), 1);
    assert_eq!(key_of(&lock_file, jt[0]), "loose-envify@1.4.0");
    assert!(reverse.get("react").is_none());
}

#[test]
fn shortest_chain_walks_to_the_top() {
    let tracer = DependencyTracer::new(create_test_lock_file());
    let chains = tracer.trace("js-tokens", None, false);
    assert_eq!(chains.len(), 1);
    let names: Vec<String> = chains[0].iter().map(|n| format!("{}@{}", n.name, n.version)).collect();
    assert_eq!(names, vec!["js-tokens@3.0.2", "loose-envify@1.4.0", "react@18.2.0"]);
}

#[test]
fn shortest_mode_repeats_itself() {
    let tracer = DependencyTracer::new(create_test_lock_file());
    let first = tracer.trace("js-tokens", None, false);
    let second = tracer.trace("js-tokens", None, false);
    assert_eq!(first.len(), second.len());
    assert_eq!(first[0].len(), second[0].len());
    assert_eq!(first[0].len(), 3);
}

#[test]
fn wrong_version_gives_no_chain() {
    let tracer = DependencyTracer::new(create_test_lock_file());
    assert!(tracer.trace("js-tokens", Some("4.0.0"), false).is_empty());
    assert!(tracer.trace("js-tokens", Some("4.0.0"), true).is_empty());
}

#[test]
fn top_level_package_is_its_own_chain() {
    let tracer = DependencyTracer::new(create_test_lock_file());
    let chains = tracer.trace("react", None, false);
    assert_eq!(chains.len(), 1);
    assert_eq!(chains[0].len(), 1);
    assert_eq!(chains[0][0].name, "react");
}

#[test]
fn empty_graph_gives_no_chain() {
    let tracer = DependencyTracer::new(LockFile::new());
    assert!(tracer.trace("react", None, true).is_empty());
}

#[test]
fn cycles_terminate_with_simple_chains() {
    let mut packages = LockFile::new();
    packages.insert("t@1.0.0".to_string(), package("t", "1.0.0", &[]));
    packages.insert("a@1.0.0".to_string(), package("a", "1.0.0", &[("b", "^1"), ("t", "^1")]));
    packages.insert("b@1.0.0".to_string(), package("b", "1.0.0", &[("a", "^1")]));
    packages.insert("top@1.0.0".to_string(), package("top", "1.0.0", &[("a", "^1")]));
    let tracer = DependencyTracer::new(packages);

    let chains = tracer.trace("t", None, true);
    assert_eq!(chains.len(), 1);
    let names: Vec<String> = chains[0].iter().map(|n| n.name.clone()).collect();
    assert_eq!(names, vec!["t", "a", "top"]);

    let shortest = tracer.trace("t", None, false);
    assert_eq!(shortest.len(), 1);
    assert_eq!(shortest[0].len(), 3);
}

#[test]
fn closed_cycle_has_no_chain() {
    let mut packages = LockFile::new();
    packages.insert("a@1.0.0".to_string(), package("a", "1.0.0", &[("b", "^1")]));
    packages.insert("b@1.0.0".to_string(), package("b", "1.0.0", &[("a", "^1")]));
    let tracer = DependencyTracer::new(packages);
    assert!(tracer.trace("a", None, true).is_empty());
    assert!(tracer.trace("a", None, false).is_empty());
}

#[test]
fn each_version_gets_its_own_chains() {
    let mut packages = LockFile::new();
    packages.insert("lodash@4.17.20".to_string(), package("lodash", "4.17.20", &[]));
    packages.insert("lodash@4.17.21".to_string(), package("lodash", "4.17.21", &[]));
    packages.insert("app@1.0.0".to_string(), package("app", "1.0.0", &[("lodash", "^4")]));
    let tracer = DependencyTracer::new(packages);
    let chains = tracer.trace("lodash", None, false);
    assert_eq!(chains.len(), 2);
    assert_eq!(chains[0][0].version, "4.17.20");
    assert_eq!(chains[1][0].version, "4.17.21");
    assert_eq!(chains[1][1].name, "app");
    let only = tracer.trace("lodash", Some("4.17.21"), false);
    assert_eq!(only.len(), 1);
    assert_eq!(only[0][0].version, "4.17.21");
}

#[test]
fn all_paths_lists_every_route() {
    let mut packages = LockFile::new();
    packages.insert("t@1".to_string(), package("t", "1", &[]));
    packages.insert("m@1".to_string(), package("m", "1", &[("t", "1")]));
    packages.insert("x@1".to_string(), package("x", "1", &[("m", "1"), ("t", "1")]));
    let tracer = DependencyTracer::new(packages);
    let chains = tracer.trace("t", None, true);
    let names: Vec<Vec<String>> = chains.iter().map(|c| c.iter().map(|n| n.name.clone()).collect()).collect();
    assert_eq!(names, vec![vec!["t", "m", "x"], vec!["t", "x"]]);
    let shortest = tracer.trace("t", None, false);
    assert_eq!(shortest[0].len(), 2);
}

#[test]
fn all_paths_lists_each_chain_once() {
    let tracer = DependencyTracer::new(create_test_lock_file());
    let le = tracer.trace("loose-envify", None, true);
    assert_eq!(le.len(), 1);
    let names: Vec<String> = le[0].iter().map(|n| format!("{}@{}", n.name, n.version)).collect();
    assert_eq!(names, vec!["loose-envify@1.4.0", "react@18.2.0"]);
    let jt = tracer.trace("js-tokens", None, true);
    assert_eq!(jt.len(), 1);
    assert_eq!(jt[0].len(), 3);
}
