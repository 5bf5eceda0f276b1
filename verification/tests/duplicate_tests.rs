use depx::duplicates::{sort_versions, suggest_resolution, summarize, DuplicateAnalyzer};
use depx::lockfile::{dependency_key, package_key, CargoLockfileParser, CargoPackage};
use depx::types::{DuplicateGroup, DuplicateSeverity, DuplicateVersion};
use depx::versions::{
    calculate_severity, compare_text, compare_versions, resolve_order, severity_from_majors, VersionOrder,
};

fn version(text: &str) -> DuplicateVersion {
    DuplicateVersion { version: text.to_string(), dependents: vec![], transitive_count: 0 }
}

fn locked(name: &str, version: &str, deps: &[&str]) -> CargoPackage {
    CargoPackage {
        name: name.to_string(),
        version: version.to_string(),
        source: Some("registry+https://github.com/rust-lang/crates.io-index".to_string()),
        dependencies: deps.iter().map(|d| d.to_string()).collect(),
    }
}

#[test]
fn test_severity_same_major() {
    let versions = vec![
        DuplicateVersion { version: "1.0.0".to_string(), dependents: vec![], transitive_count: 0 },
        DuplicateVersion { version: "1.2.0".to_string(), dependents: vec![], transitive_count: 0 },
    ];

    assert_eq!(calculate_severity(&versions), DuplicateSeverity::Low);
}

#[test]
fn test_severity_different_major() {
    let versions = vec![
        DuplicateVersion { version: "1.0.0".to_string(), dependents: vec![], transitive_count: 0 },
        DuplicateVersion { version: "2.0.0".to_string(), dependents: vec![], transitive_count: 0 },
    ];

    assert_eq!(calculate_severity(&versions), DuplicateSeverity::Medium);
}

#[test]
fn test_severity_many_versions() {
    let versions = vec![
        DuplicateVersion { version: "1.0.0".to_string(), dependents: vec![], transitive_count: 0 },
        DuplicateVersion { version: "1.1.0".to_string(), dependents: vec![], transitive_count: 0 },
        DuplicateVersion { version: "1.2.0".to_string(), dependents: vec![], transitive_count: 0 },
    ];

    assert_eq!(calculate_severity(&versions), DuplicateSeverity::High);
}

#[test]
fn test_compare_versions() {
    assert_eq!(compare_versions("1.0.0", "2.0.0"), VersionOrder::Less);
    assert_eq!(compare_versions("1.2.0", "1.1.0"), VersionOrder::Greater);
    assert_eq!(compare_versions("1.0.0", "1.0.0"), VersionOrder::Equal);
}

#[test]
fn semantic_order_is_not_lexicographic() {
    assert_eq!(compare_versions("1.10.0", "1.9.0"), VersionOrder::Greater);
    assert_eq!(compare_text("1.10.0", "1.9.0"), VersionOrder::Less);
    assert_eq!(compare_versions("1.0.0-alpha", "1.0.0"), VersionOrder::Less);
}

#[test]
fn unparsable_versions_fall_back_to_text_order() {
    assert_eq!(compare_versions("abc", "abd"), VersionOrder::Less);
    assert_eq!(compare_versions("1.0", "1.0.0"), VersionOrder::Less);
    assert_eq!(compare_versions("b", "a"), VersionOrder::Greater);
    assert_eq!(compare_versions("same", "same"), VersionOrder::Equal);
    assert_eq!(compare_versions("", "a"), VersionOrder::Less);
}

#[test]
fn resolve_order_prefers_the_parsed_order() {
    assert_eq!(resolve_order(Some(VersionOrder::Greater), "a", "b"), VersionOrder::Greater);
    assert_eq!(resolve_order(None, "a", "b"), VersionOrder::Less);
    assert_eq!(resolve_order(None, "b", "a"), VersionOrder::Greater);
    assert_eq!(resolve_order(None, "a", "a"), VersionOrder::Equal);
}

#[test]
fn severity_without_semantic_versions_is_low() {
    assert_eq!(calculate_severity(&vec![version("main"), version("next")]), DuplicateSeverity::Low);
    assert_eq!(calculate_severity(&vec![version("main"), version("2.0.0")]), DuplicateSeverity::Low);
    assert_eq!(calculate_severity(&vec![]), DuplicateSeverity::Low);
    assert_eq!(
        calculate_severity(&vec![version("a"), version("b"), version("c")]),
        DuplicateSeverity::High
    );
}

#[test]
fn severity_from_major_components() {
    assert_eq!(severity_from_majors(2, &vec![Some(1), Some(1)]), DuplicateSeverity::Low);
    assert_eq!(severity_from_majors(2, &vec![Some(1), Some(2)]), DuplicateSeverity::Medium);
    assert_eq!(severity_from_majors(2, &vec![None, Some(2)]), DuplicateSeverity::Low);
    assert_eq!(severity_from_majors(2, &vec![None, None]), DuplicateSeverity::Low);
    assert_eq!(severity_from_majors(3, &vec![Some(1), Some(1), Some(1)]), DuplicateSeverity::High);
    assert_eq!(severity_from_majors(2, &vec![Some(0), None, Some(7)]), DuplicateSeverity::Medium);
}

#[test]
fn versions_are_sorted_by_semantic_version() {
    let sorted = sort_versions(&vec![version("1.10.0"), version("1.2.0"), version("0.9.0")]);
    let texts: Vec<String> = sorted.iter().map(|v| v.version.clone()).collect();
    assert_eq!(texts, vec!["0.9.0", "1.2.0", "1.10.0"]);
    let sorted = sort_versions(&vec![version("b"), version("a")]);
    let texts: Vec<String> = sorted.iter().map(|v| v.version.clone()).collect();
    assert_eq!(texts, vec!["a", "b"]);
    assert!(sort_versions(&vec![]).is_empty());
    // versions that order as equal keep their order
    let first = DuplicateVersion { version: "1.0.0".to_string(), dependents: vec!["a".to_string()], transitive_count: 1 };
    let second = DuplicateVersion { version: "1.0.0".to_string(), dependents: vec!["b".to_string()], transitive_count: 2 };
    let sorted = sort_versions(&vec![version("2.0.0"), first, second]);
    let dependents: Vec<Vec<String>> = sorted.iter().map(|v| v.dependents.clone()).collect();
    assert_eq!(dependents, vec![vec!["a".to_string()], vec!["b".to_string()], vec![]]);
}

#[test]
fn dependency_keys() {
    assert_eq!(dependency_key("serde 1.0.0"), "serde@1.0.0");
    assert_eq!(dependency_key("serde"), "serde");
    assert_eq!(
        dependency_key("serde 1.0.0 (registry+https://github.com/rust-lang/crates.io-index)"),
        "serde@1.0.0"
    );
    assert_eq!(dependency_key("  serde \t 1.0.0  "), "serde@1.0.0");
    assert_eq!(dependency_key(""), "");
    assert_eq!(dependency_key("   "), "");
    assert_eq!(package_key("serde", "1.0.0"), "serde@1.0.0");
}

#[test]
fn lockfile_packages_become_usage_packages() {
    let mut root = locked("app", "0.1.0", &["serde 1.0.0", "log"]);
    root.source = None;
    let parser = CargoLockfileParser::new(vec![root, locked("serde", "1.0.0", &[])]);
    let packages = parser.parse();
    assert_eq!(packages.len(), 2);
    assert_eq!(packages[0].name, "app");
    assert_eq!(packages[0].version, "0.1.0");
    assert!(packages[0].is_direct);
    assert!(!packages[0].is_dev);
    assert_eq!(packages[0].dependencies, vec!["serde@1.0.0", "log"]);
    assert!(packages[0].deprecated.is_none());
    assert!(!packages[1].is_direct);
}

#[test]
fn versions_are_grouped_by_name() {
    let mut root = locked("app", "0.1.0", &["syn 1.0.0", "quote 1.0.0"]);
    root.source = None;
    let parser = CargoLockfileParser::new(vec![
        root,
        locked("syn", "1.0.0", &[]),
        locked("quote", "1.0.0", &["syn 2.0.0", "syn 2.0.0"]),
        locked("syn", "2.0.0", &[]),
    ]);
    let entries = parser.parse_for_duplicates();
    let names: Vec<String> = entries.iter().map(|e| e.name.clone()).collect();
    assert_eq!(names, vec!["app", "syn", "quote"]);
    let syn = &entries[1];
    assert_eq!(syn.versions.len(), 2);
    assert_eq!(syn.versions[0].version, "1.0.0");
    assert_eq!(syn.versions[0].dependents, vec!["app"]);
    assert!(!syn.versions[0].is_path_dep);
    assert_eq!(syn.versions[1].version, "2.0.0");
    assert_eq!(syn.versions[1].dependents, vec!["quote", "quote"]);
    assert!(entries[0].versions[0].is_path_dep);
    assert!(entries[0].versions[0].dependents.is_empty());
}

#[test]
fn transitive_dependent_counts() {
    // root -> A -> B -> C and root -> D -> B
    let analyzer = DuplicateAnalyzer::new(vec![
        locked("root", "0.1.0", &["A 1.0.0", "D 1.0.0"]),
        locked("A", "1.0.0", &["B 1.0.0"]),
        locked("D", "1.0.0", &["B 1.0.0"]),
        locked("B", "1.0.0", &["C 1.0.0"]),
        locked("C", "1.0.0", &[]),
        locked("A", "2.0.0", &[]),
        locked("B", "2.0.0", &[]),
        locked("C", "2.0.0", &[]),
    ]);
    let analysis = analyzer.analyze();
    let names: Vec<String> = analysis.duplicates.iter().map(|g| g.name.clone()).collect();
    assert_eq!(names, vec!["A", "B", "C"]);
    let count = |name: &str, version: &str| -> usize {
        let group = analysis.duplicates.iter().find(|g| g.name == name).unwrap();
        group.versions.iter().find(|v| v.version == version).unwrap().transitive_count
    };
    assert_eq!(count("C", "1.0.0"), 4);
    assert_eq!(count("B", "1.0.0"), 3);
    assert_eq!(count("A", "1.0.0"), 1);
    assert_eq!(count("C", "2.0.0"), 0);
    let b = analysis.duplicates.iter().find(|g| g.name == "B").unwrap();
    assert_eq!(b.versions[0].dependents, vec!["A", "D"]);
}

#[test]
fn transitive_count_survives_a_cycle() {
    let analyzer = DuplicateAnalyzer::new(vec![
        locked("x", "1.0.0", &["y 1.0.0"]),
        locked("y", "1.0.0", &["x 1.0.0"]),
        locked("x", "2.0.0", &[]),
    ]);
    let analysis = analyzer.analyze();
    assert_eq!(analysis.duplicates.len(), 1);
    let x = &analysis.duplicates[0];
    assert_eq!(x.versions[0].version, "1.0.0");
    // y depends on x, and x on y
    assert_eq!(x.versions[0].transitive_count, 2);
}

#[test]
fn duplicate_report_order_and_stats() {
    let analyzer = DuplicateAnalyzer::new(vec![
        locked("zlow", "1.0.0", &[]),
        locked("zlow", "1.1.0", &[]),
        locked("many", "1.0.0", &[]),
        locked("many", "1.1.0", &[]),
        locked("many", "1.2.0", &[]),
        locked("single", "1.0.0", &[]),
        locked("bmed", "2.0.0", &[]),
        locked("bmed", "1.0.0", &[]),
        locked("amed", "1.0.0", &[]),
        locked("amed", "3.0.0", &[]),
        locked("alow", "0.2.1", &[]),
        locked("alow", "0.2.0", &[]),
        locked("big", "1.0.0", &[]),
        locked("big", "2.0.0", &[]),
        locked("big", "3.0.0", &[]),
        locked("big", "4.0.0", &[]),
    ]);
    let analysis = analyzer.analyze();
    let shape: Vec<(String, DuplicateSeverity, Vec<String>)> = analysis
        .duplicates
        .iter()
        .map(|g| (g.name.clone(), g.severity, g.versions.iter().map(|v| v.version.clone()).collect()))
        .collect();
    let texts = |list: &[&str]| -> Vec<String> { list.iter().map(|s| s.to_string()).collect() };
    assert_eq!(
        shape,
        vec![
            ("big".to_string(), DuplicateSeverity::High, texts(&["1.0.0", "2.0.0", "3.0.0", "4.0.0"])),
            ("many".to_string(), DuplicateSeverity::High, texts(&["1.0.0", "1.1.0", "1.2.0"])),
            ("amed".to_string(), DuplicateSeverity::Medium, texts(&["1.0.0", "3.0.0"])),
            ("bmed".to_string(), DuplicateSeverity::Medium, texts(&["1.0.0", "2.0.0"])),
            ("alow".to_string(), DuplicateSeverity::Low, texts(&["0.2.0", "0.2.1"])),
            ("zlow".to_string(), DuplicateSeverity::Low, texts(&["1.0.0", "1.1.0"])),
        ]
    );
    assert_eq!(analysis.stats.total_duplicates, 6);
    assert_eq!(analysis.stats.high_severity, 2);
    assert_eq!(analysis.stats.medium_severity, 2);
    assert_eq!(analysis.stats.low_severity, 2);
    assert_eq!(analysis.stats.extra_compile_units, 3 + 2 + 1 + 1 + 1 + 1);
}

#[test]
fn a_group_of_three_versions_adds_two_units() {
    let group = DuplicateGroup {
        name: "many".to_string(),
        versions: vec![version("1.0.0"), version("1.1.0"), version("1.2.0")],
        severity: DuplicateSeverity::High,
    };
    let stats = summarize(&vec![group]);
    assert_eq!(stats.total_duplicates, 1);
    assert_eq!(stats.high_severity, 1);
    assert_eq!(stats.medium_severity, 0);
    assert_eq!(stats.low_severity, 0);
    assert_eq!(stats.extra_compile_units, 2);
    let none = summarize(&vec![]);
    assert_eq!(none.total_duplicates, 0);
    assert_eq!(none.extra_compile_units, 0);
}

#[test]
fn no_duplicates_gives_an_empty_report() {
    let analysis = DuplicateAnalyzer::new(vec![locked("a", "1.0.0", &[]), locked("b", "1.0.0", &["a"])]).analyze();
    assert!(analysis.duplicates.is_empty());
    assert_eq!(analysis.stats.total_duplicates, 0);
    assert_eq!(analysis.stats.extra_compile_units, 0);
}

#[test]
fn resolution_names_outdated_dependents() {
    let group = DuplicateGroup {
        name: "syn".to_string(),
        versions: vec![
            DuplicateVersion {
                version: "1.0.0".to_string(),
                dependents: vec!["a".to_string(), "b".to_string()],
                transitive_count: 2,
            },
            DuplicateVersion { version: "1.5.0".to_string(), dependents: vec!["c".to_string()], transitive_count: 1 },
            DuplicateVersion { version: "2.0.0".to_string(), dependents: vec!["d".to_string()], transitive_count: 1 },
        ],
        severity: DuplicateSeverity::High,
    };
    assert_eq!(suggest_resolution(&group), Some("Update a, b, c to use syn 2.0.0".to_string()));
}

#[test]
fn resolution_is_none_without_outdated_dependents() {
    let empty = DuplicateGroup { name: "x".to_string(), versions: vec![], severity: DuplicateSeverity::Low };
    assert_eq!(suggest_resolution(&empty), None);
    let only_newest = DuplicateGroup {
        name: "x".to_string(),
        versions: vec![
            version("1.0.0"),
            DuplicateVersion { version: "2.0.0".to_string(), dependents: vec!["d".to_string()], transitive_count: 1 },
        ],
        severity: DuplicateSeverity::Medium,
    };
    assert_eq!(suggest_resolution(&only_newest), None);
    let single = DuplicateGroup {
        name: "x".to_string(),
        versions: vec![
            DuplicateVersion { version: "1.0.0".to_string(), dependents: vec!["solo".to_string()], transitive_count: 1 },
            version("2.0.0"),
        ],
        severity: DuplicateSeverity::Medium,
    };
    assert_eq!(suggest_resolution(&single), Some("Update solo to use x 2.0.0".to_string()));
}

#[test]
fn severity_labels() {
    assert_eq!(DuplicateSeverity::Low.label(), "low");
    assert_eq!(DuplicateSeverity::Medium.label(), "medium");
    assert_eq!(DuplicateSeverity::High.label(), "high");
    assert!(DuplicateSeverity::High.rank() > DuplicateSeverity::Medium.rank());
    assert!(DuplicateSeverity::Medium.rank() > DuplicateSeverity::Low.rank());
}
