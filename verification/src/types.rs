//! The package model and the result structures of the analyses.

use crate::text::{copy_note, copy_texts, note_text, texts};
use vstd::prelude::*;
use vstd::string::*;

verus! {

/// One installed package, as a lockfile describes it.
#[derive(Debug)]
pub struct Package {
    /// Package name (e.g., "lodash", "@types/node")
    pub name: String,
    /// Package version (e.g., "4.17.21")
    pub version: String,
    /// Whether the project declares this package itself
    pub is_direct: bool,
    /// Whether this is a dev dependency
    pub is_dev: bool,
    /// Identifiers of the packages this package depends on
    pub dependencies: Vec<String>,
    /// Deprecation note, if the package is deprecated
    pub deprecated: Option<String>,
}

/// What a `Package` holds, as mathematical values.
pub struct PackageView {
    pub name: Seq<char>,
    pub version: Seq<char>,
    pub is_direct: bool,
    pub is_dev: bool,
    pub dependencies: Seq<Seq<char>>,
    pub deprecated: Option<Seq<char>>,
}

impl View for Package {
    type V = PackageView;

    open spec fn view(&self) -> PackageView {
        PackageView {
            name: self.name@,
            version: self.version@,
            is_direct: self.is_direct,
            is_dev: self.is_dev,
            dependencies: texts(self.dependencies@),
            deprecated: note_text(self.deprecated),
        }
    }
}

impl Clone for Package {
    fn clone(&self) -> (r: Self)
        ensures
            r@ == self@,
    {
        Package {
            name: self.name.clone(),
            version: self.version.clone(),
            is_direct: self.is_direct,
            is_dev: self.is_dev,
            dependencies: copy_texts(&self.dependencies),
            deprecated: copy_note(&self.deprecated),
        }
    }
}

impl Package {
    /// A transitive, non-dev package without dependencies.
    pub fn new(name: &str, version: &str) -> (r: Self)
        ensures
            r@ == (PackageView {
                name: name@,
                version: version@,
                is_direct: false,
                is_dev: false,
                dependencies: Seq::empty(),
                deprecated: None,
            }),
    {
        let r = Package {
            name: String::from_str(name),
            version: String::from_str(version),
            is_direct: false,
            is_dev: false,
            dependencies: Vec::new(),
            deprecated: None,
        };
        assert(r@.dependencies =~= Seq::empty());
        r
    }

    /// The same package, marked as a direct dependency.
    pub fn direct(self) -> (r: Self)
        ensures
            r@ == (PackageView { is_direct: true, ..self@ }),
    {
        let mut r = self;
        r.is_direct = true;
        r
    }

    /// The same package, marked as a dev dependency.
    pub fn dev(self) -> (r: Self)
        ensures
            r@ == (PackageView { is_dev: true, ..self@ }),
    {
        let mut r = self;
        r.is_dev = true;
        r
    }

    /// The same package with `deps` as its dependencies.
    pub fn with_dependencies(self, deps: Vec<String>) -> (r: Self)
        ensures
            r@ == (PackageView { dependencies: texts(deps@), ..self@ }),
    {
        let mut r = self;
        r.dependencies = deps;
        r
    }
}

/// The views of a list of packages.
pub open spec fn package_views(list: Seq<Package>) -> Seq<PackageView> {
    Seq::new(list.len(), |i: int| list[i]@)
}

/// The names of a list of packages.
pub open spec fn package_names(list: Seq<Package>) -> Seq<Seq<char>> {
    Seq::new(list.len(), |i: int| list[i].name@)
}

/// A package found in use, with the presence flag of its direct import.
#[derive(Debug)]
pub struct PackageUsage {
    pub package: Package,
    /// 1 where the package is itself among the used names, else 0
    pub import_count: usize,
    pub files: Vec<String>,
}

/// Result of analyzing dependency usage
#[derive(Debug)]
pub struct UsageAnalysis {
    /// Packages that are used in source code
    pub used: Vec<PackageUsage>,
    /// Packages installed but never imported (truly removable)
    pub unused: Vec<Package>,
    /// Dev and build tooling that is not expected to be imported
    pub expected_unused: Vec<Package>,
    /// Packages used only in dev context
    pub dev_only: Vec<Package>,
    /// Direct dependencies that are unused (truly removable)
    pub unused_direct: Vec<Package>,
    /// Direct dependencies that are expected unused (dev/build tools)
    pub expected_unused_direct: Vec<Package>,
}

/// Explanation of why a package is in the dependency tree
#[derive(Debug)]
pub struct PackageExplanation {
    /// The package being explained
    pub package: Package,
    /// Chains of package names, each from a direct dependency to the package
    pub dependency_chains: Vec<Vec<String>>,
    /// Whether any chain starts from a dev dependency
    pub is_dev_path: bool,
}

/// Severity level of a vulnerability.
#[derive(Debug, Clone, Copy, PartialEq, Eq, Structural)]
pub enum Severity {
    Low,
    Medium,
    High,
    Critical,
}

impl Severity {
    /// The lower-case name of the level.
    pub fn label(&self) -> (r: &'static str)
        ensures
            r@ == match *self {
                Severity::Low => "low"@,
                Severity::Medium => "medium"@,
                Severity::High => "high"@,
                Severity::Critical => "critical"@,
            },
    {
        match self {
            Severity::Low => "low",
            Severity::Medium => "medium",
            Severity::High => "high",
            Severity::Critical => "critical",
        }
    }

    /// Position of the level in the order low < medium < high < critical.
    pub fn rank(&self) -> (r: u8)
        ensures
            r == match *self {
                Severity::Low => 0u8,
                Severity::Medium => 1u8,
                Severity::High => 2u8,
                Severity::Critical => 3u8,
            },
    {
        match self {
            Severity::Low => 0,
            Severity::Medium => 1,
            Severity::High => 2,
            Severity::Critical => 3,
        }
    }
}

/// A known vulnerability
#[derive(Debug)]
pub struct Vulnerability {
    /// CVE or GHSA identifier
    pub id: String,
    /// Human-readable title
    pub title: String,
    /// Severity level
    pub severity: Severity,
    /// Affected package name
    pub package_name: String,
    /// Affected version range
    pub vulnerable_range: String,
    /// Fixed version (if available)
    pub patched_version: Option<String>,
    /// Link to advisory
    pub url: Option<String>,
    /// Whether this vulnerability affects code that is actually used
    pub affects_used_code: bool,
    /// The installed version that is vulnerable
    pub installed_version: String,
}

/// A deprecated package
#[derive(Debug)]
pub struct DeprecatedPackage {
    pub package: Package,
    pub message: String,
    pub is_used: bool,
}

/// Severity of a duplicate, by how far its versions differ.
#[derive(Debug, Clone, Copy, PartialEq, Eq, Structural)]
pub enum DuplicateSeverity {
    /// Same major version, different minor/patch (usually fine)
    Low,
    /// Different major versions (potential issues)
    Medium,
    /// Three or more versions (likely problematic)
    High,
}

impl DuplicateSeverity {
    /// The lower-case name of the tier.
    pub fn label(&self) -> (r: &'static str)
        ensures
            r@ == match *self {
                DuplicateSeverity::Low => "low"@,
                DuplicateSeverity::Medium => "medium"@,
                DuplicateSeverity::High => "high"@,
            },
    {
        match self {
            DuplicateSeverity::Low => "low",
            DuplicateSeverity::Medium => "medium",
            DuplicateSeverity::High => "high",
        }
    }

    /// Position of the tier in the order low < medium < high.
    pub fn rank(&self) -> (r: u8)
        ensures
            r as int == severity_rank(*self),
    {
        match self {
            DuplicateSeverity::Low => 0,
            DuplicateSeverity::Medium => 1,
            DuplicateSeverity::High => 2,
        }
    }
}

/// Position of a tier in the order low < medium < high.
pub open spec fn severity_rank(s: DuplicateSeverity) -> int {
    match s {
        DuplicateSeverity::Low => 0,
        DuplicateSeverity::Medium => 1,
        DuplicateSeverity::High => 2,
    }
}

/// A specific version of a duplicated package
#[derive(Debug)]
pub struct DuplicateVersion {
    /// The version string
    pub version: String,
    /// Names of the packages that depend on this version
    pub dependents: Vec<String>,
    /// Number of distinct packages that depend on it, directly or not
    pub transitive_count: usize,
}

/// What a `DuplicateVersion` holds, as mathematical values.
pub struct DuplicateVersionView {
    pub version: Seq<char>,
    pub dependents: Seq<Seq<char>>,
    pub transitive_count: nat,
}

impl View for DuplicateVersion {
    type V = DuplicateVersionView;

    open spec fn view(&self) -> DuplicateVersionView {
        DuplicateVersionView {
            version: self.version@,
            dependents: texts(self.dependents@),
            transitive_count: self.transitive_count as nat,
        }
    }
}

impl Clone for DuplicateVersion {
    fn clone(&self) -> (r: Self)
        ensures
            r@ == self@,
    {
        DuplicateVersion {
            version: self.version.clone(),
            dependents: copy_texts(&self.dependents),
            transitive_count: self.transitive_count,
        }
    }
}

/// The views of a list of versions.
pub open spec fn version_views(list: Seq<DuplicateVersion>) -> Seq<DuplicateVersionView> {
    Seq::new(list.len(), |i: int| list[i]@)
}

/// The version strings of a list of versions.
pub open spec fn version_texts(list: Seq<DuplicateVersion>) -> Seq<Seq<char>> {
    Seq::new(list.len(), |i: int| list[i].version@)
}

/// A package name that is installed in two or more versions
#[derive(Debug)]
pub struct DuplicateGroup {
    /// The package name
    pub name: String,
    /// All versions found in the lockfile, ascending
    pub versions: Vec<DuplicateVersion>,
    /// Severity level based on version differences
    pub severity: DuplicateSeverity,
}

/// What a `DuplicateGroup` holds, as mathematical values.
pub struct DuplicateGroupView {
    pub name: Seq<char>,
    pub versions: Seq<DuplicateVersionView>,
    pub severity: DuplicateSeverity,
}

impl View for DuplicateGroup {
    type V = DuplicateGroupView;

    open spec fn view(&self) -> DuplicateGroupView {
        DuplicateGroupView {
            name: self.name@,
            versions: version_views(self.versions@),
            severity: self.severity,
        }
    }
}

/// A copy of a list of versions.
pub fn copy_versions(list: &Vec<DuplicateVersion>) -> (r: Vec<DuplicateVersion>)
    ensures
        version_views(r@) == version_views(list@),
{
    let mut r: Vec<DuplicateVersion> = Vec::new();
    let mut i: usize = 0;
    while i < list.len()
        invariant
            i <= list@.len(),
            r@.len() == i,
            forall|k: int| 0 <= k < i ==> r@[k]@ == list@[k]@,
        decreases list@.len() - i,
    {
        r.push(list[i].clone());
        i += 1;
    }
    assert(version_views(r@) =~= version_views(list@));
    r
}

impl Clone for DuplicateGroup {
    fn clone(&self) -> (r: Self)
        ensures
            r@ == self@,
    {
        DuplicateGroup {
            name: self.name.clone(),
            versions: copy_versions(&self.versions),
            severity: self.severity,
        }
    }
}

/// The views of a list of groups.
pub open spec fn group_views(list: Seq<DuplicateGroup>) -> Seq<DuplicateGroupView> {
    Seq::new(list.len(), |i: int| list[i]@)
}

/// The names of a list of groups.
pub open spec fn group_names(list: Seq<DuplicateGroupView>) -> Seq<Seq<char>> {
    Seq::new(list.len(), |i: int| list[i].name)
}

/// Statistics about duplicates
#[derive(Debug)]
pub struct DuplicateStats {
    /// Total number of package names with duplicates
    pub total_duplicates: usize,
    /// Number of high severity duplicates
    pub high_severity: usize,
    /// Number of medium severity duplicates
    pub medium_severity: usize,
    /// Number of low severity duplicates
    pub low_severity: usize,
    /// Number of redundant version instances beyond one per name
    pub extra_compile_units: usize,
}

/// Result of analyzing duplicate dependencies
#[derive(Debug)]
pub struct DuplicateAnalysis {
    /// All duplicate groups found
    pub duplicates: Vec<DuplicateGroup>,
    /// Summary statistics
    pub stats: DuplicateStats,
}

} // verus!
