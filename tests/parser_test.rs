use dep_why::graph::LockFile;
use dep_why::parser::{install_name, parse_yarn, pnpm_key, ParseError};

#[test]
fn test_parse_npm_v2_format() {
    let content = r#"{
  "name": "test",
  "lockfileVersion": 2,
  "dependencies": {
    "lodash": {
      "version": "4.17.21",
      "resolved": "https://registry.npmjs.org/lodash/-/lodash-4.17.21.tgz"
    }
  },
  "packages": {
    "": {
      "dependencies": {
        "lodash": "^4.17.21"
      }
    },
    "node_modules/lodash": {
      "version": "4.17.21"
    }
  }
}"#;
    let lock_file = LockFile::parse_named("package-lock.json", content).ok().unwrap();

    assert!(lock_file.contains_key("lodash@4.17.21"));
    let pkg = lock_file.get("lodash@4.17.21").unwrap();
    assert_eq!(pkg.name, "lodash");
    assert_eq!(pkg.version, "4.17.21");
}

#[test]
fn test_parse_yarn_lock() {
    let content = r#"# yarn lockfile v1

lodash@^4.17.21:
  version "4.17.21"
  resolved "https://registry.yarnpkg.com/lodash/-/lodash-4.17.21.tgz"

react@^18.0.0:
  version "18.2.0"
  resolved "https://registry.yarnpkg.com/react/-/react-18.2.0.tgz"
  dependencies:
    loose-envify "^1.1.0"
"#;
    let lock_file = LockFile::parse_named("yarn.lock", content).ok().unwrap();

    assert!(lock_file.contains_key("lodash@4.17.21"));
    assert!(lock_file.contains_key("react@18.2.0"));
    let react = lock_file.get("react@18.2.0").unwrap();
    assert_eq!(react.dependencies.len(), 1);
    assert!(react.has_dependency("loose-envify"));
}

#[test]
fn test_parse_pnpm_lock() {
    let content = r#"lockfileVersion: '6.0'

dependencies:
  lodash:
    specifier: ^4.17.21
    version: 4.17.21

packages:
  /lodash@4.17.21:
    resolution: {integrity: sha512-test}
    dev: false
"#;
    let lock_file = LockFile::parse_named("pnpm-lock.yaml", content).ok().unwrap();

    assert!(lock_file.contains_key("lodash@4.17.21"));
}

#[test]
fn test_parse_nonexistent_file() {
    let result = LockFile::parse_loaded("nonexistent.json", Err("No such file or directory".to_string()));
    assert!(result.is_err());
    assert!(matches!(result, Err(ParseError::IoError(_))));
}

#[test]
fn test_parse_unsupported_format() {
    let result = LockFile::parse_named("unknown.lock", "{}");
    assert!(result.is_err());
    assert!(matches!(result, Err(ParseError::UnsupportedFormat(ref f)) if f == "unknown.lock"));
}

#[test]
fn test_parse_invalid_json() {
    let result = LockFile::parse_named("package-lock.json", "invalid json");
    assert!(result.is_err());
    assert!(matches!(result, Err(ParseError::MalformedInput(ref d)) if d == "package-lock.json"));
}

#[test]
fn npm_nested_install_paths_and_dependencies() {
    let content = r#"{
  "lockfileVersion": 3,
  "packages": {
    "": { "name": "app", "version": "1.0.0", "dependencies": { "react": "^18.0.0" } },
    "node_modules/react": { "version": "18.2.0", "dependencies": { "loose-envify": "^1.1.0" } },
    "node_modules/loose-envify": { "version": "1.4.0" },
    "node_modules/a/node_modules/@scope/b": { "version": "2.0.0" }
  }
}"#;
    let lf = LockFile::parse_named("package-lock.json", content).ok().unwrap();
    assert_eq!(lf.len(), 3);
    assert!(lf.get("react@18.2.0").unwrap().has_dependency("loose-envify"));
    assert!(lf.contains_key("@scope/b@2.0.0"));
    assert!(!lf.contains_key("app@1.0.0"));
}

#[test]
fn npm_install_name_is_after_the_last_node_modules() {
    assert_eq!(install_name(&"node_modules/a/node_modules/b".to_string()).unwrap(), "b");
    assert_eq!(install_name(&"node_modules/@s/x".to_string()).unwrap(), "@s/x");
    assert!(install_name(&"".to_string()).is_none());
    assert!(install_name(&"packages/local".to_string()).is_none());
}

#[test]
fn yarn_multiple_keys_make_one_package() {
    let content = "lodash@^4.17.0, lodash@^4.17.21:\n  version \"4.17.21\"\n\n\"@babel/core@^7.0.0\", \"@babel/core@^7.1.0\":\r\n  version \"7.22.0\"\r\n  dependencies:\r\n    \"@babel/types\" \"^7.22.0\"\r\n    debug \"^4.1.0\"\r\n";
    let lf = parse_yarn(content).ok().unwrap();
    assert_eq!(lf.len(), 2);
    assert!(lf.contains_key("lodash@4.17.21"));
    let core = lf.get("@babel/core@7.22.0").unwrap();
    assert_eq!(core.name, "@babel/core");
    assert_eq!(core.dependencies.len(), 2);
    assert!(core.has_dependency("@babel/types"));
    assert!(core.has_dependency("debug"));
}

#[test]
fn yarn_block_without_version_is_malformed() {
    let result = LockFile::parse_named("yarn.lock", "lodash@^4.17.21:\n  resolved \"x\"\n");
    assert!(matches!(result, Err(ParseError::MalformedInput(ref d)) if d == "yarn.lock"));
}

#[test]
fn yarn_header_without_colon_is_malformed() {
    let result = LockFile::parse_named("yarn.lock", "lodash@^4.17.21\n  version \"4.17.21\"\n");
    assert!(matches!(result, Err(ParseError::MalformedInput(_))));
}

#[test]
fn pnpm_dependencies_and_peer_suffixes() {
    let content = "lockfileVersion: '6.0'\n\npackages:\n\n  /react-dom@18.2.0(react@18.2.0):\n    resolution: {integrity: sha512-x}\n    dependencies:\n      loose-envify: 1.4.0\n      scheduler: 0.23.0\n    dev: false\n\n  /'@babel/core@7.22.0':\n    dev: true\n";
    let lf = LockFile::parse_named("pnpm-lock.yaml", content).ok().unwrap();
    let dom = lf.get("react-dom@18.2.0").unwrap();
    assert_eq!(dom.dependencies.len(), 2);
    assert_eq!(dom.dependencies[1].1, "0.23.0");
    assert_eq!(lf.len(), 2);
}

#[test]
fn pnpm_key_forms() {
    let (n, v) = pnpm_key("/lodash@4.17.21").unwrap();
    assert_eq!((n.as_str(), v.as_str()), ("lodash", "4.17.21"));
    let (n, v) = pnpm_key("@scope/x@1.0.0(peer@2.0.0)").unwrap();
    assert_eq!((n.as_str(), v.as_str()), ("@scope/x", "1.0.0"));
    assert!(pnpm_key("/lodash/4.17.21").is_none());
}

#[test]
fn pnpm_key_without_version_is_malformed() {
    let result = LockFile::parse_named("pnpm-lock.yaml", "packages:\n  /lodash:\n");
    assert!(matches!(result, Err(ParseError::MalformedInput(ref d)) if d == "pnpm-lock.yaml"));
}

#[test]
fn error_messages_name_the_cause() {
    assert_eq!(ParseError::MalformedInput("yarn.lock".to_string()).message(), "malformed yarn.lock");
    assert_eq!(ParseError::UnsupportedFormat("x.lock".to_string()).message(), "unsupported lock file: x.lock");
}

#[test]
fn yarn_dependency_without_block_is_not_a_package() {
    let content = "lodash@^4.17.21:\n  version \"4.17.21\"\n\nreact@^18.0.0:\n  version \"18.2.0\"\n  dependencies:\n    loose-envify \"^1.1.0\"\n";
    let lf = LockFile::parse_named("yarn.lock", content).ok().unwrap();
    let tracer = dep_why::tracer::DependencyTracer::new(lf);
    assert!(tracer.trace("loose-envify", None, false).is_empty());
    let react = tracer.trace("react", None, false);
    assert_eq!(react.len(), 1);
    assert_eq!(react[0].len(), 1);
    assert_eq!(react[0][0].version, "18.2.0");
}
