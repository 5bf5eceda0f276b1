use depx::imports::{resolve_import, Import, ImportKind, ImportMap};
use depx::lockfile::{
    detect_lockfile, extract_package_name_from_path, LockfileType, NpmDependency, NpmLockfileParser,
    NpmPackageEntry,
};
use depx::specifier::{extract_package_name, is_js_ts_file, is_node_builtin, is_test_file, line_number};
use depx::text::{chars_of, find_text, has_prefix, lt_chars, same_text};
use depx::types::Severity;

#[test]
fn mod_test_extract_package_name() {
    assert_eq!(extract_package_name("lodash"), Some("lodash".to_string()));
    assert_eq!(extract_package_name("lodash/fp"), Some("lodash".to_string()));
    assert_eq!(extract_package_name("@scope/package"), Some("@scope/package".to_string()));
    assert_eq!(extract_package_name("@scope/package/sub/path"), Some("@scope/package".to_string()));
    assert_eq!(extract_package_name("./local"), None);
    assert_eq!(extract_package_name("../utils"), None);
    assert_eq!(extract_package_name("fs"), None);
    assert_eq!(extract_package_name("node:fs"), None);
}

#[test]
fn npm_test_extract_package_name() {
    assert_eq!(extract_package_name_from_path("node_modules/lodash"), "lodash");
    assert_eq!(extract_package_name_from_path("node_modules/@types/node"), "@types/node");
    assert_eq!(extract_package_name_from_path("node_modules/foo/node_modules/bar"), "bar");
    assert_eq!(extract_package_name_from_path("node_modules/@scope/pkg/node_modules/dep"), "dep");
}

#[test]
fn package_name_edge_cases() {
    assert_eq!(extract_package_name(""), Some(String::new()));
    assert_eq!(extract_package_name("/abs/path"), None);
    assert_eq!(extract_package_name("@scope"), None);
    assert_eq!(extract_package_name("@scope/"), Some("@scope/".to_string()));
    assert_eq!(extract_package_name("node:unknown"), Some("node:unknown".to_string()));
    assert_eq!(extract_package_name("fs/promises"), Some("fs".to_string()));
    assert_eq!(extract_package_name("lodash/"), Some("lodash".to_string()));
}

#[test]
fn path_name_edge_cases() {
    assert_eq!(extract_package_name_from_path(""), "");
    assert_eq!(extract_package_name_from_path("packages/app"), "packages");
    assert_eq!(extract_package_name_from_path("node_modules/"), "");
    assert_eq!(extract_package_name_from_path("node_modules/@scope"), "@scope");
    assert_eq!(extract_package_name_from_path("node_modules/@scope/pkg/lib"), "@scope/pkg");
    assert_eq!(extract_package_name_from_path("node_modules/foo/bar"), "foo");
}

#[test]
fn node_builtins() {
    assert!(is_node_builtin("fs"));
    assert!(is_node_builtin("node:path"));
    assert!(is_node_builtin("worker_threads"));
    assert!(!is_node_builtin("lodash"));
    assert!(!is_node_builtin("node:lodash"));
    assert!(!is_node_builtin("fs/promises"));
}

#[test]
fn source_file_kinds() {
    assert!(is_js_ts_file(Some("ts")));
    assert!(is_js_ts_file(Some("mjs")));
    assert!(!is_js_ts_file(Some("rs")));
    assert!(!is_js_ts_file(Some("TS")));
    assert!(!is_js_ts_file(None));
    assert!(is_test_file("src/app.test.ts"));
    assert!(is_test_file("src/__tests__/app.ts"));
    assert!(is_test_file("a/b.spec.js"));
    assert!(is_test_file("__mocks__/fs.js"));
    assert!(!is_test_file("src/app.ts"));
    assert!(!is_test_file("src/testing.ts"));
}

#[test]
fn lockfile_detection_order() {
    assert_eq!(detect_lockfile(true, true, true, true), Some(LockfileType::Cargo));
    assert_eq!(detect_lockfile(false, true, true, true), Some(LockfileType::Npm));
    assert_eq!(detect_lockfile(false, false, true, true), Some(LockfileType::Pnpm));
    assert_eq!(detect_lockfile(false, false, false, true), Some(LockfileType::Yarn));
    assert_eq!(detect_lockfile(false, false, false, false), None);
}

#[test]
fn text_order() {
    let lt = |a: &str, b: &str| lt_chars(&chars_of(a), &chars_of(b));
    assert!(lt("a", "b"));
    assert!(lt("", "a"));
    assert!(lt("ab", "abc"));
    assert!(lt("Z", "a"));
    assert!(!lt("a", "a"));
    assert!(!lt("b", "a"));
    assert!(!lt("abc", "ab"));
    assert!(lt("z", "\u{e9}"));
    assert!(same_text("abc", "abc"));
    assert!(!same_text("abc", "abd"));
    assert!(has_prefix(&chars_of("@types/node"), &chars_of("@types/")));
    assert!(!has_prefix(&chars_of("@type"), &chars_of("@types/")));
    assert_eq!(chars_of("h\u{e9}"), vec!['h', '\u{e9}']);
}

#[test]
fn text_lookup() {
    let list = vec!["b".to_string(), "a".to_string(), "b".to_string()];
    assert_eq!(find_text(&list, "b"), Some(0));
    assert_eq!(find_text(&list, "a"), Some(1));
    assert_eq!(find_text(&list, "c"), None);
}

#[test]
fn import_map_collects_imports() {
    let import = |file: &str, line: usize, spec: &str, package: Option<&str>| Import {
        file_path: file.to_string(),
        line,
        specifier: spec.to_string(),
        kind: ImportKind::EsModule,
        resolved_package: package.map(|p| p.to_string()),
    };
    let mut map = ImportMap::new();
    assert_eq!(map.total_imports(), 0);
    assert_eq!(map.files_analyzed(), 0);
    assert!(map.packages_used().is_empty());
    assert!(map.get_package_usages("react").is_none());
    map.add_import(import("a.ts", 1, "react", Some("react")));
    map.add_import(import("a.ts", 2, "./local", None));
    map.add_import(import("b.ts", 1, "lodash/fp", Some("lodash")));
    map.add_import(import("b.ts", 5, "react", Some("react")));
    map.mark_file_analyzed();
    map.mark_file_analyzed();
    assert_eq!(map.total_imports(), 4);
    assert_eq!(map.files_analyzed(), 2);
    assert_eq!(map.packages_used(), vec!["react", "lodash"]);
    let usages = map.get_package_usages("react").unwrap();
    assert_eq!(usages.len(), 2);
    assert_eq!(usages[0].file_path, "a.ts");
    assert_eq!(usages[1].file_path, "b.ts");
    assert_eq!(usages[1].line, 5);
    assert!(map.get_package_usages("vue").is_none());
    let in_a = map.imports_by_file("a.ts");
    assert_eq!(in_a.len(), 2);
    assert_eq!(in_a[1].specifier, "./local");
    assert!(map.imports_by_file("c.ts").is_empty());
}

#[test]
fn vulnerability_severity_labels() {
    assert_eq!(Severity::Low.label(), "low");
    assert_eq!(Severity::Medium.label(), "medium");
    assert_eq!(Severity::High.label(), "high");
    assert_eq!(Severity::Critical.label(), "critical");
    assert!(Severity::Critical.rank() > Severity::High.rank());
    assert!(Severity::Low.rank() < Severity::Medium.rank());
}

#[test]
fn line_numbers_count_line_feeds() {
    let source = "import a from 'a';\nimport b from 'b';\n\nconst c = 1;";
    assert_eq!(line_number(source, 0), 1);
    assert_eq!(line_number(source, 18), 1);
    assert_eq!(line_number(source, 19), 2);
    assert_eq!(line_number(source, 39), 4);
    assert_eq!(line_number(source, source.len()), 4);
    assert_eq!(line_number("", 0), 1);
}

#[test]
fn npm_packages_from_the_packages_table() {
    let entry = |path: &str, version: Option<&str>, dev: Option<bool>, deps: &[&str]| NpmPackageEntry {
        path: path.to_string(),
        version: version.map(|v| v.to_string()),
        dev,
        dependencies: deps.iter().map(|d| d.to_string()).collect(),
        deprecated: None,
    };
    let mut old = entry("node_modules/old", Some("0.1.0"), None, &[]);
    old.deprecated = Some("use new".to_string());
    let parser = NpmLockfileParser::new(
        vec![
            entry("", Some("1.0.0"), None, &["express"]),
            entry("node_modules/express", Some("4.18.0"), None, &["body-parser", "fsevents"]),
            entry("node_modules/body-parser", None, None, &[]),
            entry("node_modules/express/node_modules/body-parser", Some("9.9.9"), None, &[]),
            entry("node_modules/jest", Some("29.0.0"), Some(true), &[]),
            entry("node_modules/tool", Some("1.0.0"), None, &[]),
            entry("node_modules/", Some("1.0.0"), None, &[]),
            old,
        ],
        vec![],
        vec!["express".to_string(), "tool".to_string()],
        vec!["tool".to_string()],
    );
    let packages = parser.parse();
    let names: Vec<String> = packages.iter().map(|p| p.name.clone()).collect();
    assert_eq!(names, vec!["express", "body-parser", "jest", "tool", "old"]);
    assert!(packages[0].is_direct);
    assert!(!packages[0].is_dev);
    assert_eq!(packages[0].dependencies, vec!["body-parser", "fsevents"]);
    assert_eq!(packages[1].version, "");
    assert!(!packages[1].is_direct);
    assert!(packages[2].is_dev);
    assert!(packages[3].is_direct);
    assert!(packages[3].is_dev);
    assert_eq!(packages[4].deprecated, Some("use new".to_string()));
}

#[test]
fn npm_packages_from_the_older_tree() {
    let dep = |name: &str, version: &str, dev: Option<bool>, requires: &[&str]| NpmDependency {
        name: name.to_string(),
        version: version.to_string(),
        dev,
        requires: requires.iter().map(|d| d.to_string()).collect(),
    };
    let legacy = vec![
        dep("a", "1.0.0", None, &["b"]),
        dep("b", "1.0.0", Some(true), &[]),
        dep("a", "2.0.0", None, &[]),
    ];
    let parser = NpmLockfileParser::new(vec![], legacy, vec!["a".to_string()], vec![]);
    let packages = parser.parse();
    assert_eq!(packages.len(), 2);
    assert_eq!(packages[0].name, "a");
    assert_eq!(packages[0].version, "1.0.0");
    assert!(packages[0].is_direct);
    assert_eq!(packages[0].dependencies, vec!["b"]);
    assert!(packages[1].is_dev);
    assert!(packages[1].deprecated.is_none());

    // the older tree is read only where the packages table gives nothing
    let root_only = NpmPackageEntry {
        path: String::new(),
        version: None,
        dev: None,
        dependencies: vec![],
        deprecated: None,
    };
    let parser = NpmLockfileParser::new(vec![root_only], vec![dep("x", "1.0.0", None, &[])], vec![], vec![]);
    assert_eq!(parser.parse().len(), 1);
    let parser = NpmLockfileParser::new(vec![], vec![], vec![], vec![]);
    assert!(parser.parse().is_empty());
}

#[test]
fn imports_are_resolved_to_packages() {
    let import = resolve_import("src/a.ts", 3, "@scope/pkg/deep", ImportKind::Dynamic).unwrap();
    assert_eq!(import.file_path, "src/a.ts");
    assert_eq!(import.line, 3);
    assert_eq!(import.specifier, "@scope/pkg/deep");
    assert_eq!(import.kind, ImportKind::Dynamic);
    assert_eq!(import.resolved_package, Some("@scope/pkg".to_string()));
    assert!(resolve_import("src/a.ts", 1, "./local", ImportKind::EsModule).is_none());
    assert!(resolve_import("src/a.ts", 1, "node:fs", ImportKind::CommonJs).is_none());
}
