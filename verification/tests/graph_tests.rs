use depx::graph::{classify_package, DependencyGraph, UsageClass};
use depx::rules::is_expected_unused;
use depx::types::Package;

fn names(list: &[&str]) -> Vec<String> {
    list.iter().map(|s| s.to_string()).collect()
}

fn create_test_packages() -> Vec<Package> {
    vec![
        Package::new("express", "4.18.0").direct().with_dependencies(names(&["body-parser"])),
        Package::new("body-parser", "1.20.0").with_dependencies(names(&["raw-body"])),
        Package::new("raw-body", "2.5.0"),
        Package::new("unused-pkg", "1.0.0").direct(),
    ]
}

fn bucket_names(list: &[Package]) -> Vec<String> {
    list.iter().map(|p| p.name.clone()).collect()
}

#[test]
fn test_transitive_dependencies() {
    let packages = create_test_packages();
    let graph = DependencyGraph::new(&packages);

    let used: Vec<String> = vec!["express".to_string()];
    let transitive = graph.get_transitive_dependencies(&used);

    assert!(transitive.contains(&"express".to_string()));
    assert!(transitive.contains(&"body-parser".to_string()));
    assert!(transitive.contains(&"raw-body".to_string()));
    assert!(!transitive.contains(&"unused-pkg".to_string()));
}

#[test]
fn test_explain_package() {
    let packages = create_test_packages();
    let graph = DependencyGraph::new(&packages);

    let explanation = graph.explain_package("raw-body").unwrap();

    assert_eq!(explanation.package.name, "raw-body");
    assert!(!explanation.dependency_chains.is_empty());

    // The chain should be: express -> body-parser -> raw-body
    let chain = &explanation.dependency_chains[0];
    assert_eq!(chain, &vec!["express", "body-parser", "raw-body"]);
}

#[test]
fn closure_lists_names_in_package_order() {
    let graph = DependencyGraph::new(&create_test_packages());
    let reached = graph.get_transitive_dependencies(&names(&["body-parser", "missing"]));
    assert_eq!(reached, names(&["body-parser", "raw-body"]));
}

#[test]
fn closure_of_nothing_is_empty() {
    let graph = DependencyGraph::new(&create_test_packages());
    assert!(graph.get_transitive_dependencies(&Vec::new()).is_empty());
}

#[test]
fn closure_is_idempotent() {
    let graph = DependencyGraph::new(&create_test_packages());
    let once = graph.get_transitive_dependencies(&names(&["express"]));
    let twice = graph.get_transitive_dependencies(&once);
    assert_eq!(once, twice);
}

#[test]
fn closure_is_monotone() {
    let graph = DependencyGraph::new(&create_test_packages());
    let small = graph.get_transitive_dependencies(&names(&["body-parser"]));
    let large = graph.get_transitive_dependencies(&names(&["body-parser", "unused-pkg"]));
    for name in &small {
        assert!(large.contains(name));
    }
    assert_eq!(large, names(&["body-parser", "raw-body", "unused-pkg"]));
}

#[test]
fn closure_survives_a_cycle() {
    let packages = vec![
        Package::new("a", "1.0.0").with_dependencies(names(&["b"])),
        Package::new("b", "1.0.0").with_dependencies(names(&["a", "c"])),
        Package::new("c", "1.0.0"),
        Package::new("d", "1.0.0"),
    ];
    let graph = DependencyGraph::new(&packages);
    assert_eq!(graph.get_transitive_dependencies(&names(&["a"])), names(&["a", "b", "c"]));
}

#[test]
fn first_package_of_a_name_is_kept() {
    let packages = vec![
        Package::new("a", "1.0.0").direct(),
        Package::new("a", "2.0.0"),
        Package::new("b", "1.0.0"),
    ];
    let graph = DependencyGraph::new(&packages);
    assert_eq!(graph.package_count(), 2);
    assert_eq!(graph.direct_count(), 1);
    assert_eq!(graph.get_package("a").unwrap().version, "1.0.0");
    assert!(graph.get_package("zzz").is_none());
    assert_eq!(bucket_names(graph.packages()), names(&["a", "b"]));
}

#[test]
fn dangling_dependency_is_dropped() {
    let packages = vec![Package::new("a", "1.0.0").with_dependencies(names(&["ghost", "b"])), Package::new("b", "1.0.0")];
    let graph = DependencyGraph::new(&packages);
    assert_eq!(graph.get_transitive_dependencies(&names(&["a"])), names(&["a", "b"]));
}

#[test]
fn explain_unknown_package_is_none() {
    let graph = DependencyGraph::new(&create_test_packages());
    assert!(graph.explain_package("nope").is_none());
}

#[test]
fn explain_direct_dependency_is_single_chain() {
    let packages = vec![
        Package::new("top", "1.0.0").direct().with_dependencies(names(&["mid"])),
        Package::new("mid", "1.0.0").direct().dev().with_dependencies(names(&["top"])),
    ];
    let graph = DependencyGraph::new(&packages);
    let e = graph.explain_package("mid").unwrap();
    assert_eq!(e.dependency_chains, vec![names(&["mid"])]);
    assert!(e.is_dev_path);
    let e = graph.explain_package("top").unwrap();
    assert_eq!(e.dependency_chains, vec![names(&["top"])]);
    assert!(!e.is_dev_path);
}

#[test]
fn explain_terminates_on_a_cycle() {
    // root -> a -> b -> a
    let packages = vec![
        Package::new("root", "1.0.0").direct().with_dependencies(names(&["a"])),
        Package::new("a", "1.0.0").with_dependencies(names(&["b"])),
        Package::new("b", "1.0.0").with_dependencies(names(&["a"])),
    ];
    let graph = DependencyGraph::new(&packages);
    let e = graph.explain_package("b").unwrap();
    assert_eq!(e.dependency_chains, vec![names(&["root", "a", "b"])]);
    for chain in &e.dependency_chains {
        for (i, name) in chain.iter().enumerate() {
            assert!(!chain[..i].contains(name));
        }
    }
}

#[test]
fn explain_without_direct_dependant_has_no_chain() {
    let packages = vec![
        Package::new("a", "1.0.0").with_dependencies(names(&["b"])),
        Package::new("b", "1.0.0").with_dependencies(names(&["a"])),
    ];
    let graph = DependencyGraph::new(&packages);
    let e = graph.explain_package("b").unwrap();
    assert!(e.dependency_chains.is_empty());
    assert!(!e.is_dev_path);
}

#[test]
fn explain_keeps_the_five_shortest_chains() {
    // seven direct dependants of the target, and one longer way
    let mut packages = Vec::new();
    for i in 0..7 {
        packages.push(
            Package::new(&format!("d{}", i), "1.0.0").direct().with_dependencies(names(&["target"])),
        );
    }
    packages.push(Package::new("far", "1.0.0").direct().with_dependencies(names(&["mid"])));
    packages.push(Package::new("mid", "1.0.0").with_dependencies(names(&["target"])));
    packages.push(Package::new("target", "1.0.0"));
    let graph = DependencyGraph::new(&packages);
    let e = graph.explain_package("target").unwrap();
    assert_eq!(e.dependency_chains.len(), 5);
    for pair in e.dependency_chains.windows(2) {
        assert!(pair[0].len() <= pair[1].len());
    }
    for chain in &e.dependency_chains {
        assert_eq!(chain.len(), 2);
        assert_eq!(chain[1], "target");
    }
    // the dependant whose edge was added last is found first
    let heads: Vec<String> = e.dependency_chains.iter().map(|c| c[0].clone()).collect();
    assert_eq!(heads, names(&["d6", "d5", "d4", "d3", "d2"]));
}

#[test]
fn explain_orders_chains_by_length() {
    let packages = vec![
        Package::new("far", "1.0.0").direct().dev().with_dependencies(names(&["mid"])),
        Package::new("mid", "1.0.0").with_dependencies(names(&["target"])),
        Package::new("near", "1.0.0").direct().with_dependencies(names(&["target"])),
        Package::new("target", "1.0.0"),
    ];
    let graph = DependencyGraph::new(&packages);
    let e = graph.explain_package("target").unwrap();
    assert_eq!(
        e.dependency_chains,
        vec![names(&["near", "target"]), names(&["far", "mid", "target"])]
    );
    assert!(e.is_dev_path);
}

#[test]
fn explain_stops_at_the_first_direct_dependency() {
    // outer is direct too, but the chain ends at inner
    let packages = vec![
        Package::new("outer", "1.0.0").direct().with_dependencies(names(&["inner"])),
        Package::new("inner", "1.0.0").direct().with_dependencies(names(&["target"])),
        Package::new("target", "1.0.0"),
    ];
    let graph = DependencyGraph::new(&packages);
    let e = graph.explain_package("target").unwrap();
    assert_eq!(e.dependency_chains, vec![names(&["inner", "target"])]);
}

#[test]
fn explain_suppresses_equal_chains() {
    // the dependency is listed twice, which gives two parallel edges
    let packages = vec![
        Package::new("top", "1.0.0").direct().with_dependencies(names(&["target", "target"])),
        Package::new("target", "1.0.0"),
    ];
    let graph = DependencyGraph::new(&packages);
    let e = graph.explain_package("target").unwrap();
    assert_eq!(e.dependency_chains, vec![names(&["top", "target"])]);
}

#[test]
fn usage_buckets() {
    let packages = vec![
        Package::new("zeta", "1.0.0").direct(),
        Package::new("express", "4.18.0").direct().with_dependencies(names(&["body-parser"])),
        Package::new("body-parser", "1.20.0"),
        Package::new("typescript", "5.0.0").direct().dev(),
        Package::new("@types/node", "20.0.0"),
        Package::new("alpha", "1.0.0").direct(),
        Package::new("helper", "1.0.0").dev(),
        Package::new("loose", "1.0.0"),
    ];
    let graph = DependencyGraph::new(&packages);
    let analysis = graph.analyze_usage(&names(&["express"]), true);
    let used: Vec<(String, usize)> =
        analysis.used.iter().map(|u| (u.package.name.clone(), u.import_count)).collect();
    assert_eq!(used, vec![("body-parser".to_string(), 0), ("express".to_string(), 1)]);
    assert!(analysis.used.iter().all(|u| u.files.is_empty()));
    assert_eq!(bucket_names(&analysis.unused), names(&["alpha", "loose", "zeta"]));
    assert_eq!(bucket_names(&analysis.unused_direct), names(&["alpha", "zeta"]));
    assert_eq!(bucket_names(&analysis.expected_unused), names(&["@types/node", "typescript"]));
    assert_eq!(bucket_names(&analysis.expected_unused_direct), names(&["typescript"]));
    assert_eq!(bucket_names(&analysis.dev_only), names(&["helper"]));
}

#[test]
fn usage_without_dev_packages() {
    let packages = vec![
        Package::new("typescript", "5.0.0").direct().dev(),
        Package::new("helper", "1.0.0").dev(),
        Package::new("app-dep", "1.0.0").direct().dev(),
        Package::new("plain", "1.0.0").direct(),
    ];
    let graph = DependencyGraph::new(&packages);
    let analysis = graph.analyze_usage(&names(&["app-dep"]), false);
    assert!(analysis.used.is_empty());
    assert!(analysis.expected_unused.is_empty());
    assert!(analysis.dev_only.is_empty());
    assert_eq!(bucket_names(&analysis.unused), names(&["plain"]));
}

#[test]
fn used_comes_before_expected_unused() {
    let packages = vec![
        Package::new("app", "1.0.0").direct().with_dependencies(names(&["typescript"])),
        Package::new("typescript", "5.0.0").direct(),
        Package::new("eslint", "9.0.0").direct(),
    ];
    let graph = DependencyGraph::new(&packages);
    let analysis = graph.analyze_usage(&names(&["app"]), true);
    let used: Vec<String> = analysis.used.iter().map(|u| u.package.name.clone()).collect();
    assert_eq!(used, names(&["app", "typescript"]));
    assert_eq!(bucket_names(&analysis.expected_unused), names(&["eslint"]));
}

#[test]
fn usage_analysis_is_repeatable() {
    let graph = DependencyGraph::new(&create_test_packages());
    let first = graph.analyze_usage(&names(&["express"]), true);
    let second = graph.analyze_usage(&names(&["express"]), true);
    assert_eq!(bucket_names(&first.unused), bucket_names(&second.unused));
    assert_eq!(bucket_names(&first.unused), names(&["unused-pkg"]));
    let a: Vec<String> = first.used.iter().map(|u| u.package.name.clone()).collect();
    let b: Vec<String> = second.used.iter().map(|u| u.package.name.clone()).collect();
    assert_eq!(a, b);
    assert_eq!(a, names(&["body-parser", "express", "raw-body"]));
}

#[test]
fn classification_order() {
    let tool = Package::new("eslint", "9.0.0").direct().dev();
    assert_eq!(classify_package(&tool, true, true), UsageClass::Used);
    assert_eq!(classify_package(&tool, false, true), UsageClass::ExpectedUnused);
    assert_eq!(classify_package(&tool, true, false), UsageClass::Excluded);
    let dev = Package::new("helper", "1.0.0").dev();
    assert_eq!(classify_package(&dev, false, true), UsageClass::DevOnly);
    let direct_dev = Package::new("helper", "1.0.0").dev().direct();
    assert_eq!(classify_package(&direct_dev, false, true), UsageClass::Unused);
}

#[test]
fn expected_unused_ruleset() {
    assert!(is_expected_unused("typescript"));
    assert!(is_expected_unused("depcheck"));
    assert!(is_expected_unused("@playwright/test"));
    assert!(is_expected_unused("@types/node"));
    assert!(is_expected_unused("eslint-plugin-react"));
    assert!(is_expected_unused("prettier-plugin-svelte"));
    assert!(is_expected_unused("babel-loader"));
    assert!(!is_expected_unused("react"));
    assert!(!is_expected_unused("typescript-extra"));
    assert!(!is_expected_unused("@types"));
    assert!(!is_expected_unused(""));
}

#[test]
fn try_new_builds_the_same_graph() {
    let graph = DependencyGraph::try_new(&create_test_packages()).unwrap();
    assert_eq!(graph.package_count(), 4);
    assert_eq!(graph.direct_count(), 2);
    assert_eq!(
        graph.get_transitive_dependencies(&names(&["express"])),
        names(&["express", "body-parser", "raw-body"])
    );
    let empty = DependencyGraph::try_new(&Vec::new()).unwrap();
    assert_eq!(empty.package_count(), 0);
    assert!(empty.explain_package("x").is_none());
}
