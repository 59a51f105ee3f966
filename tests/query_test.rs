use dep_why::graph::{LockFile, Package};
use dep_why::query::parse_package_query;

#[test]
fn test_parse_package_query_with_version() {
    let query = "lodash@4.17.21";
    let (name, version) = parse_package_query(query);

    assert_eq!(name, "lodash");
    assert_eq!(version.unwrap(), "4.17.21");
}

#[test]
fn test_parse_package_query_without_version() {
    let query = "lodash";
    let (name, result) = parse_package_query(query);

    assert!(result.is_none());
    assert_eq!(name, "lodash");
}

#[test]
fn test_parse_scoped_package() {
    let query = "@babel/core@7.22.0";
    let (name, version) = parse_package_query(query);

    assert_eq!(name, "@babel/core");
    assert_eq!(version.unwrap(), "7.22.0");
}

#[test]
fn scoped_name_without_version() {
    let (name, version) = parse_package_query("@babel/core");
    assert_eq!(name, "@babel/core");
    assert!(version.is_none());
}

#[test]
fn trailing_at_gives_empty_version() {
    let (name, version) = parse_package_query("lodash@");
    assert_eq!(name, "lodash");
    assert_eq!(version.unwrap(), "");
}

#[test]
fn test_empty_dependency_chain() {
    let chains: Vec<Vec<String>> = Vec::new();
    assert!(chains.is_empty());
}

#[test]
fn test_multiple_versions_same_package() {
    let mut packages = LockFile::new();
    packages.insert("lodash@4.17.20".to_string(), Package::new("lodash".to_string(), "4.17.20".to_string()));
    packages.insert("lodash@4.17.21".to_string(), Package::new("lodash".to_string(), "4.17.21".to_string()));

    assert_eq!(packages.len(), 2);
    assert!(packages.contains_key("lodash@4.17.20"));
    assert!(packages.contains_key("lodash@4.17.21"));
}

#[test]
fn insert_replaces_under_the_same_key() {
    let mut packages = LockFile::new();
    packages.insert("a@1".to_string(), Package::new("a".to_string(), "1".to_string()));
    packages.insert("a@1".to_string(), Package::new("a".to_string(), "2".to_string()));
    assert_eq!(packages.len(), 1);
    assert_eq!(packages.get("a@1").unwrap().version, "2");
}

#[test]
fn add_keys_by_name_and_version() {
    let mut packages = LockFile::new();
    packages.add(Package::new("@scope/pkg".to_string(), "1.2.3".to_string()));
    let p = packages.get("@scope/pkg@1.2.3").unwrap();
    assert_eq!(p.name, "@scope/pkg");
    assert_eq!(p.version, "1.2.3");
    assert!(packages.get("@scope/pkg").is_none());
}

#[test]
fn redeclared_dependency_keeps_the_last_range() {
    let mut p = Package::new("a".to_string(), "1".to_string());
    p.add_dependency("b".to_string(), "^1".to_string());
    p.add_dependency("b".to_string(), "^2".to_string());
    assert_eq!(p.dependencies.len(), 1);
    assert_eq!(p.dependencies[0].1, "^2");
    assert!(p.has_dependency("b"));
    assert!(!p.has_dependency("c"));
}
