//! Lockfile data after decoding: the packages of a Cargo lockfile, the keys
//! that its dependency strings resolve to, and the reverse map from each
//! package to its dependents.

use crate::specifier::scoped_prefix;
use crate::text::{
    chars_of, distinct, find_char, find_text, last_match, lemma_last_match_matches,
    lemma_lookup_sound, matches_at, same_text, seek_char, seek_last, texts,
};
use crate::text::{copy_note, copy_texts, note_text};
use crate::types::{package_views, Package, PackageView};
use vstd::prelude::*;
use vstd::string::*;

verus! {

/// Whether `c` is white space (the Unicode property `White_Space`).
pub open spec fn is_space(c: char) -> bool {
    ||| ('\u{9}' <= c && c <= '\u{d}')
    ||| c == ' '
    ||| c == '\u{85}'
    ||| c == '\u{a0}'
    ||| c == '\u{1680}'
    ||| ('\u{2000}' <= c && c <= '\u{200a}')
    ||| c == '\u{2028}'
    ||| c == '\u{2029}'
    ||| c == '\u{202f}'
    ||| c == '\u{205f}'
    ||| c == '\u{3000}'
}

/// Whether `c` is white space.
pub fn space(c: char) -> (r: bool)
    ensures
        r == is_space(c),
{
    ('\u{9}' <= c && c <= '\u{d}') || c == ' ' || c == '\u{85}' || c == '\u{a0}' || c == '\u{1680}'
        || ('\u{2000}' <= c && c <= '\u{200a}') || c == '\u{2028}' || c == '\u{2029}' || c
        == '\u{202f}' || c == '\u{205f}' || c == '\u{3000}'
}

/// The first place from `i` on that holds no white space.
pub open spec fn skip_spaces(s: Seq<char>, i: int) -> int
    decreases s.len() - i,
{
    if 0 <= i < s.len() && is_space(s[i]) {
        skip_spaces(s, i + 1)
    } else {
        i
    }
}

/// The first place from `i` on that holds white space, or the end.
pub open spec fn skip_word(s: Seq<char>, i: int) -> int
    decreases s.len() - i,
{
    if 0 <= i < s.len() && !is_space(s[i]) {
        skip_word(s, i + 1)
    } else {
        i
    }
}

/// The key that a dependency string resolves to: its first two words joined
/// by `@` (name and version), or its first word alone where it has no
/// second.
pub open spec fn dependency_key_of(s: Seq<char>) -> Seq<char> {
    let a = skip_spaces(s, 0);
    let b = skip_word(s, a);
    let c = skip_spaces(s, b);
    let d = skip_word(s, c);
    if c < d {
        s.subrange(a, b) + seq!['@'] + s.subrange(c, d)
    } else {
        s.subrange(a, b)
    }
}

fn pass_spaces(s: &Vec<char>, from: usize) -> (to: usize)
    requires
        from <= s@.len(),
    ensures
        to == skip_spaces(s@, from as int),
        from <= to <= s@.len(),
{
    let mut i = from;
    while i < s.len() && space(s[i])
        invariant
            from <= i <= s@.len(),
            skip_spaces(s@, from as int) == skip_spaces(s@, i as int),
        decreases s@.len() - i,
    {
        i += 1;
    }
    i
}

fn pass_word(s: &Vec<char>, from: usize) -> (to: usize)
    requires
        from <= s@.len(),
    ensures
        to == skip_word(s@, from as int),
        from <= to <= s@.len(),
{
    let mut i = from;
    while i < s.len() && !space(s[i])
        invariant
            from <= i <= s@.len(),
            skip_word(s@, from as int) == skip_word(s@, i as int),
        decreases s@.len() - i,
    {
        i += 1;
    }
    i
}

/// The key that a dependency string resolves to.
pub fn dependency_key(dep: &str) -> (key: String)
    ensures
        key@ == dependency_key_of(dep@),
{
    let chars = chars_of(dep);
    let a = pass_spaces(&chars, 0);
    let b = pass_word(&chars, a);
    let c = pass_spaces(&chars, b);
    let d = pass_word(&chars, c);
    let mut key = String::from_str(dep.substring_char(a, b));
    if c < d {
        proof {
            reveal_strlit("@");
            assert("@"@ =~= seq!['@']);
        }
        key.append("@");
        key.append(dep.substring_char(c, d));
    }
    key
}

/// The key of a package: its name and version joined by `@`.
pub open spec fn package_key_of(name: Seq<char>, version: Seq<char>) -> Seq<char> {
    name + seq!['@'] + version
}

/// The key of a package.
pub fn package_key(name: &str, version: &str) -> (key: String)
    ensures
        key@ == package_key_of(name@, version@),
{
    proof {
        reveal_strlit("@");
        assert("@"@ =~= seq!['@']);
    }
    let mut key = String::from_str(name);
    key.append("@");
    key.append(version);
    key
}

/// One `[[package]]` entry of a Cargo lockfile.
#[derive(Debug)]
pub struct CargoPackage {
    pub name: String,
    pub version: String,
    /// Where the package comes from; a package of the workspace has none
    pub source: Option<String>,
    /// Dependency strings: a name, or a name and a version
    pub dependencies: Vec<String>,
}

/// What a `CargoPackage` holds, as mathematical values.
pub struct CargoPackageView {
    pub name: Seq<char>,
    pub version: Seq<char>,
    pub has_source: bool,
    pub dependencies: Seq<Seq<char>>,
}

impl View for CargoPackage {
    type V = CargoPackageView;

    open spec fn view(&self) -> CargoPackageView {
        CargoPackageView {
            name: self.name@,
            version: self.version@,
            has_source: self.source is Some,
            dependencies: texts(self.dependencies@),
        }
    }
}

/// The views of a list of lockfile packages.
pub open spec fn cargo_views(list: Seq<CargoPackage>) -> Seq<CargoPackageView> {
    Seq::new(list.len(), |i: int| list[i]@)
}

/// Package info for duplicate analysis
#[derive(Debug)]
pub struct CargoPackageInfo {
    pub version: String,
    /// Names of the packages that depend on this version
    pub dependents: Vec<String>,
    pub is_path_dep: bool,
}

/// What a `CargoPackageInfo` holds, as mathematical values.
pub struct CargoPackageInfoView {
    pub version: Seq<char>,
    pub dependents: Seq<Seq<char>>,
    pub is_path_dep: bool,
}

impl View for CargoPackageInfo {
    type V = CargoPackageInfoView;

    open spec fn view(&self) -> CargoPackageInfoView {
        CargoPackageInfoView {
            version: self.version@,
            dependents: texts(self.dependents@),
            is_path_dep: self.is_path_dep,
        }
    }
}

/// The views of a list of package infos.
pub open spec fn info_views(list: Seq<CargoPackageInfo>) -> Seq<CargoPackageInfoView> {
    Seq::new(list.len(), |i: int| list[i]@)
}

/// All versions of one package name.
#[derive(Debug)]
pub struct PackageVersions {
    pub name: String,
    pub versions: Vec<CargoPackageInfo>,
}

/// What a `PackageVersions` holds, as mathematical values.
pub struct PackageVersionsView {
    pub name: Seq<char>,
    pub versions: Seq<CargoPackageInfoView>,
}

impl View for PackageVersions {
    type V = PackageVersionsView;

    open spec fn view(&self) -> PackageVersionsView {
        PackageVersionsView { name: self.name@, versions: info_views(self.versions@) }
    }
}

/// The views of a list of entries.
pub open spec fn entry_views(list: Seq<PackageVersions>) -> Seq<PackageVersionsView> {
    Seq::new(list.len(), |i: int| list[i]@)
}

/// The names of a list of entries.
pub open spec fn entry_names(list: Seq<PackageVersionsView>) -> Seq<Seq<char>> {
    Seq::new(list.len(), |i: int| list[i].name)
}

/// The keys that a list of dependency strings resolves to.
pub open spec fn keys_of(deps: Seq<Seq<char>>) -> Seq<Seq<char>> {
    Seq::new(deps.len(), |i: int| dependency_key_of(deps[i]))
}

/// `owner`, once for each of its dependency keys that is `key`.
pub open spec fn row_dependents(owner: Seq<char>, keys: Seq<Seq<char>>, key: Seq<char>) -> Seq<
    Seq<char>,
>
    decreases keys.len(),
{
    if keys.len() == 0 {
        Seq::empty()
    } else {
        let rest = row_dependents(owner, keys.drop_last(), key);
        if keys.last() == key {
            rest.push(owner)
        } else {
            rest
        }
    }
}

/// The dependents of `key` among the first `upto` packages: the name of each
/// package, once for each of its dependency strings that resolves to `key`,
/// in lockfile order.
pub open spec fn dependents_of(pkgs: Seq<CargoPackageView>, key: Seq<char>, upto: nat) -> Seq<
    Seq<char>,
>
    decreases upto,
{
    if upto == 0 {
        Seq::empty()
    } else {
        dependents_of(pkgs, key, (upto - 1) as nat) + row_dependents(
            pkgs[upto - 1].name,
            keys_of(pkgs[upto - 1].dependencies),
            key,
        )
    }
}

/// The info of package `p`: its version, its dependents, and whether it
/// comes without a source.
pub open spec fn info_of(pkgs: Seq<CargoPackageView>, p: int) -> CargoPackageInfoView {
    CargoPackageInfoView {
        version: pkgs[p].version,
        dependents: dependents_of(
            pkgs,
            package_key_of(pkgs[p].name, pkgs[p].version),
            pkgs.len(),
        ),
        is_path_dep: !pkgs[p].has_source,
    }
}

/// The infos of the packages called `name` among the first `upto`, in
/// lockfile order.
pub open spec fn versions_named(pkgs: Seq<CargoPackageView>, name: Seq<char>, upto: nat) -> Seq<
    CargoPackageInfoView,
>
    decreases upto,
{
    if upto == 0 {
        Seq::empty()
    } else {
        let before = versions_named(pkgs, name, (upto - 1) as nat);
        if pkgs[upto - 1].name == name {
            before.push(info_of(pkgs, upto - 1))
        } else {
            before
        }
    }
}

/// The names of the first `upto` packages, each once, in the order in which
/// they first occur.
pub open spec fn first_names(pkgs: Seq<CargoPackageView>, upto: nat) -> Seq<Seq<char>>
    decreases upto,
{
    if upto == 0 {
        Seq::empty()
    } else {
        let before = first_names(pkgs, (upto - 1) as nat);
        if before.contains(pkgs[upto - 1].name) {
            before
        } else {
            before.push(pkgs[upto - 1].name)
        }
    }
}

/// The versions of each package name, the names in the order in which they
/// first occur.
pub open spec fn by_name(pkgs: Seq<CargoPackageView>) -> Seq<PackageVersionsView> {
    let names = first_names(pkgs, pkgs.len());
    Seq::new(
        names.len(),
        |i: int| PackageVersionsView { name: names[i], versions: versions_named(pkgs, names[i], pkgs.len()) },
    )
}

/// Number of versions in the first `upto` entries.
pub open spec fn total_versions(entries: Seq<PackageVersionsView>, upto: nat) -> nat
    decreases upto,
{
    if upto == 0 {
        0
    } else {
        total_versions(entries, (upto - 1) as nat) + entries[upto - 1].versions.len()
    }
}

/// Number of packages among the first `upto` that bear one of `names`,
/// counted once for each such name.
pub open spec fn named_total(pkgs: Seq<CargoPackageView>, names: Seq<Seq<char>>, upto: nat) -> nat
    decreases names.len(),
{
    if names.len() == 0 {
        0
    } else {
        named_total(pkgs, names.drop_last(), upto) + versions_named(pkgs, names.last(), upto).len()
    }
}

proof fn lemma_first_names(pkgs: Seq<CargoPackageView>, upto: nat)
    requires
        upto <= pkgs.len(),
    ensures
        distinct(first_names(pkgs, upto)),
        forall|name: Seq<char>|
            !first_names(pkgs, upto).contains(name) ==> #[trigger] versions_named(
                pkgs,
                name,
                upto,
            ).len() == 0,
    decreases upto,
{
    if upto > 0 {
        lemma_first_names(pkgs, (upto - 1) as nat);
        let before = first_names(pkgs, (upto - 1) as nat);
        let now = first_names(pkgs, upto);
        let added = pkgs[upto - 1].name;
        assert forall|i: int, j: int| 0 <= i < j < now.len() implies now[i] != now[j] by {
            if j == before.len() {
                assert(before[i] == now[i]);
                assert(before.contains(now[i]));
            } else {
                assert(before[i] == now[i] && before[j] == now[j]);
            }
        }
        assert forall|name: Seq<char>| !now.contains(name) implies #[trigger] versions_named(
            pkgs,
            name,
            upto,
        ).len() == 0 by {
            if before.contains(name) {
                let k = choose|k: int| 0 <= k < before.len() && before[k] == name;
                assert(now[k] == name);
                assert(now.contains(name));
            } else if added == name {
                assert(now[now.len() - 1] == name);
                assert(now.contains(name));
            } else {
                assert(versions_named(pkgs, name, (upto - 1) as nat).len() == 0);
            }
        }
    }
}

proof fn lemma_named_total_step(pkgs: Seq<CargoPackageView>, names: Seq<Seq<char>>, upto: nat)
    requires
        distinct(names),
        upto < pkgs.len(),
    ensures
        named_total(pkgs, names, upto + 1) == named_total(pkgs, names, upto) + if names.contains(
            pkgs[upto as int].name,
        ) {
            1nat
        } else {
            0nat
        },
    decreases names.len(),
{
    if names.len() > 0 {
        let front = names.drop_last();
        let added = pkgs[upto as int].name;
        assert forall|i: int, j: int| 0 <= i < j < front.len() implies front[i] != front[j] by {
            assert(front[i] == names[i] && front[j] == names[j]);
        }
        lemma_named_total_step(pkgs, front, upto);
        if names.last() == added {
            if front.contains(added) {
                let k = choose|k: int| 0 <= k < front.len() && front[k] == added;
                assert(names[k] == names[names.len() - 1]);
            }
            assert(names[names.len() - 1] == added);
        } else {
            if names.contains(added) {
                let k = choose|k: int| 0 <= k < names.len() && names[k] == added;
                assert(front[k] == added);
            }
            if front.contains(added) {
                let k = choose|k: int| 0 <= k < front.len() && front[k] == added;
                assert(names[k] == added);
            }
        }
    }
}

proof fn lemma_named_total(pkgs: Seq<CargoPackageView>, upto: nat)
    requires
        upto <= pkgs.len(),
    ensures
        named_total(pkgs, first_names(pkgs, upto), upto) == upto,
    decreases upto,
{
    if upto > 0 {
        let u = (upto - 1) as nat;
        lemma_named_total(pkgs, u);
        lemma_first_names(pkgs, u);
        lemma_first_names(pkgs, upto);
        let before = first_names(pkgs, u);
        let added = pkgs[u as int].name;
        lemma_named_total_step(pkgs, before, u);
        if !before.contains(added) {
            assert(first_names(pkgs, upto).drop_last() =~= before);
            assert(versions_named(pkgs, added, u).len() == 0);
        }
    }
}

proof fn lemma_total_by_names(pkgs: Seq<CargoPackageView>, upto: nat)
    requires
        upto <= by_name(pkgs).len(),
    ensures
        total_versions(by_name(pkgs), upto) == named_total(
            pkgs,
            first_names(pkgs, pkgs.len()).take(upto as int),
            pkgs.len(),
        ),
    decreases upto,
{
    let names = first_names(pkgs, pkgs.len());
    if upto > 0 {
        lemma_total_by_names(pkgs, (upto - 1) as nat);
        assert(names.take(upto as int).drop_last() =~= names.take(upto - 1));
        assert(names.take(upto as int).last() == names[upto - 1]);
    }
}

/// Every package stands under exactly one name, so the versions of all
/// names are as many as the packages.
pub proof fn lemma_by_name_total(pkgs: Seq<CargoPackageView>)
    ensures
        total_versions(by_name(pkgs), by_name(pkgs).len()) == pkgs.len(),
{
    let names = first_names(pkgs, pkgs.len());
    lemma_total_by_names(pkgs, by_name(pkgs).len());
    assert(names.take(names.len() as int) =~= names);
    lemma_named_total(pkgs, pkgs.len());
}

/// The usage-graph package of each lockfile package: its dependencies are
/// the keys of its dependency strings, and it is direct where it has no
/// source.
pub open spec fn usage_package_of(p: CargoPackageView) -> PackageView {
    PackageView {
        name: p.name,
        version: p.version,
        is_direct: !p.has_source,
        is_dev: false,
        dependencies: keys_of(p.dependencies),
        deprecated: None,
    }
}

/// The keys that a list of dependency strings resolves to.
pub fn resolve_keys(deps: &Vec<String>) -> (row: Vec<String>)
    ensures
        texts(row@) == keys_of(texts(deps@)),
{
    let mut row: Vec<String> = Vec::new();
    let mut j: usize = 0;
    while j < deps.len()
        invariant
            j <= deps@.len(),
            row@.len() == j,
            forall|x: int| 0 <= x < j ==> (#[trigger] row@[x])@ == dependency_key_of(deps@[x]@),
        decreases deps@.len() - j,
    {
        row.push(dependency_key(deps[j].as_str()));
        j += 1;
    }
    assert(texts(row@) =~= keys_of(texts(deps@)));
    row
}

/// Parser for Cargo.lock files (Rust projects)
pub struct CargoLockfileParser {
    packages: Vec<CargoPackage>,
}

impl CargoLockfileParser {
    /// The decoded packages of the lockfile.
    pub closed spec fn packages(&self) -> Seq<CargoPackageView> {
        cargo_views(self.packages@)
    }

    pub fn new(packages: Vec<CargoPackage>) -> (r: Self)
        ensures
            r.packages() == cargo_views(packages@),
    {
        CargoLockfileParser { packages }
    }

    /// The keys of the dependency strings of each package.
    fn dependency_keys(&self) -> (keys: Vec<Vec<String>>)
        ensures
            keys@.len() == self.packages().len(),
            forall|q: int|
                0 <= q < keys@.len() ==> texts((#[trigger] keys@[q])@) == keys_of(
                    self.packages()[q].dependencies,
                ),
    {
        let mut keys: Vec<Vec<String>> = Vec::new();
        let mut q: usize = 0;
        while q < self.packages.len()
            invariant
                q <= self.packages@.len(),
                keys@.len() == q,
                forall|x: int|
                    0 <= x < q ==> texts((#[trigger] keys@[x])@) == keys_of(
                        self.packages()[x].dependencies,
                    ),
            decreases self.packages@.len() - q,
        {
            let row = resolve_keys(&self.packages[q].dependencies);
            keys.push(row);
            q += 1;
        }
        keys
    }

    /// The packages of the lockfile as usage-graph packages, in lockfile
    /// order.
    pub fn parse(&self) -> (r: Vec<Package>)
        ensures
            r@.len() == self.packages().len(),
            forall|i: int|
                0 <= i < r@.len() ==> (#[trigger] r@[i])@ == usage_package_of(self.packages()[i]),
    {
        let mut out: Vec<Package> = Vec::new();
        let mut i: usize = 0;
        while i < self.packages.len()
            invariant
                i <= self.packages@.len(),
                out@.len() == i,
                forall|x: int|
                    0 <= x < i ==> (#[trigger] out@[x])@ == usage_package_of(self.packages()[x]),
            decreases self.packages@.len() - i,
        {
            let p = &self.packages[i];
            let package = Package {
                name: p.name.clone(),
                version: p.version.clone(),
                is_direct: p.source.is_none(),
                is_dev: false,
                dependencies: resolve_keys(&p.dependencies),
                deprecated: None,
            };
            assert(package@ == usage_package_of(self.packages()[i as int]));
            out.push(package);
            i += 1;
        }
        out
    }

    /// The names of the packages that depend on `key`.
    fn dependents_for(&self, keys: &Vec<Vec<String>>, key: &str) -> (r: Vec<String>)
        requires
            keys@.len() == self.packages().len(),
            forall|q: int|
                0 <= q < keys@.len() ==> texts((#[trigger] keys@[q])@) == keys_of(
                    self.packages()[q].dependencies,
                ),
        ensures
            texts(r@) == dependents_of(self.packages(), key@, self.packages().len()),
    {
        let ghost pkgs = self.packages();
        let mut out: Vec<String> = Vec::new();
        let mut q: usize = 0;
        while q < self.packages.len()
            invariant
                pkgs == self.packages(),
                q <= self.packages@.len(),
                keys@.len() == pkgs.len(),
                forall|x: int|
                    0 <= x < keys@.len() ==> texts((#[trigger] keys@[x])@) == keys_of(
                        pkgs[x].dependencies,
                    ),
                texts(out@) == dependents_of(pkgs, key@, q as nat),
            decreases self.packages@.len() - q,
        {
            let row = &keys[q];
            let ghost row_keys = keys_of(pkgs[q as int].dependencies);
            let ghost owner = pkgs[q as int].name;
            let ghost base = texts(out@);
            assert(texts(row@) == row_keys);
            assert(row_keys.take(0) =~= Seq::<Seq<char>>::empty());
            let mut j: usize = 0;
            while j < row.len()
                invariant
                    q < self.packages@.len(),
                    pkgs == self.packages(),
                    owner == pkgs[q as int].name,
                    j <= row@.len(),
                    texts(row@) == row_keys,
                    texts(out@) == base + row_dependents(owner, row_keys.take(j as int), key@),
                decreases row@.len() - j,
            {
                proof {
                    assert(row_keys.take(j + 1).drop_last() =~= row_keys.take(j as int));
                    assert(row_keys.take(j + 1).last() == row@[j as int]@);
                }
                let ghost before = texts(out@);
                if same_text(row[j].as_str(), key) {
                    out.push(self.packages[q].name.clone());
                    assert(texts(out@) =~= before.push(owner));
                }
                j += 1;
            }
            assert(row_keys.take(row@.len() as int) =~= row_keys);
            q += 1;
        }
        out
    }

    /// The versions of each package name, the names in the order in which
    /// they first occur in the lockfile, each version with the packages that
    /// depend on it.
    pub fn parse_for_duplicates(&self) -> (r: Vec<PackageVersions>)
        ensures
            entry_views(r@) == by_name(self.packages()),
            distinct(entry_names(entry_views(r@))),
            total_versions(entry_views(r@), r@.len() as nat) == self.packages().len(),
            self.packages().len() <= usize::MAX,
    {
        let ghost pkgs = self.packages();
        let n = self.packages.len();
        let keys = self.dependency_keys();
        let mut names: Vec<String> = Vec::new();
        let mut t: usize = 0;
        while t < n
            invariant
                pkgs == self.packages(),
                n == self.packages@.len(),
                t <= n,
                texts(names@) == first_names(pkgs, t as nat),
                distinct(texts(names@)),
            decreases n - t,
        {
            let p = &self.packages[t];
            let ghost before = texts(names@);
            proof {
                lemma_lookup_sound(before, p.name@);
            }
            match find_text(&names, p.name.as_str()) {
                Some(at) => {
                    assert(before[at as int] == p.name@);
                },
                None => {
                    names.push(p.name.clone());
                    assert(texts(names@) =~= before.push(p.name@));
                },
            }
            t += 1;
        }
        let mut out: Vec<PackageVersions> = Vec::new();
        let mut i: usize = 0;
        while i < names.len()
            invariant
                pkgs == self.packages(),
                n == self.packages@.len(),
                keys@.len() == pkgs.len(),
                forall|q: int|
                    0 <= q < keys@.len() ==> texts((#[trigger] keys@[q])@) == keys_of(
                        pkgs[q].dependencies,
                    ),
                i <= names@.len(),
                out@.len() == i,
                forall|x: int| 0 <= x < i ==> (#[trigger] out@[x]).name@ == names@[x]@,
                forall|x: int|
                    0 <= x < i ==> info_views((#[trigger] out@[x]).versions@) == versions_named(
                        pkgs,
                        names@[x]@,
                        n as nat,
                    ),
            decreases names@.len() - i,
        {
            let name = &names[i];
            let mut versions: Vec<CargoPackageInfo> = Vec::new();
            let mut p: usize = 0;
            while p < n
                invariant
                    pkgs == self.packages(),
                    n == self.packages@.len(),
                    keys@.len() == pkgs.len(),
                    forall|q: int|
                        0 <= q < keys@.len() ==> texts((#[trigger] keys@[q])@) == keys_of(
                            pkgs[q].dependencies,
                        ),
                    p <= n,
                    info_views(versions@) == versions_named(pkgs, name@, p as nat),
                decreases n - p,
            {
                let package = &self.packages[p];
                let ghost before = info_views(versions@);
                if same_text(package.name.as_str(), name.as_str()) {
                    let key = package_key(package.name.as_str(), package.version.as_str());
                    let dependents = self.dependents_for(&keys, key.as_str());
                    let info = CargoPackageInfo {
                        version: package.version.clone(),
                        dependents,
                        is_path_dep: package.source.is_none(),
                    };
                    assert(info@ == info_of(pkgs, p as int));
                    versions.push(info);
                    assert(info_views(versions@) =~= before.push(info_of(pkgs, p as int)));
                }
                p += 1;
            }
            out.push(PackageVersions { name: name.clone(), versions });
            i += 1;
        }
        proof {
            assert(entry_names(entry_views(out@)) =~= texts(names@));
            assert(entry_views(out@) =~= by_name(pkgs));
            lemma_by_name_total(pkgs);
        }
        out
    }
}

/// The kinds of lockfile that are recognised.
#[derive(Debug, Clone, Copy, PartialEq, Eq, Structural)]
pub enum LockfileType {
    Npm,
    Pnpm,
    Yarn,
    Cargo,
}

/// The lockfile that a project is read from, given which lockfiles exist in
/// its root: `Cargo.lock` before `package-lock.json` before
/// `pnpm-lock.yaml` before `yarn.lock`.
pub fn detect_lockfile(cargo: bool, npm: bool, pnpm: bool, yarn: bool) -> (r: Option<LockfileType>)
    ensures
        r == if cargo {
            Some(LockfileType::Cargo)
        } else if npm {
            Some(LockfileType::Npm)
        } else if pnpm {
            Some(LockfileType::Pnpm)
        } else if yarn {
            Some(LockfileType::Yarn)
        } else {
            None::<LockfileType>
        },
{
    if cargo {
        Some(LockfileType::Cargo)
    } else if npm {
        Some(LockfileType::Npm)
    } else if pnpm {
        Some(LockfileType::Pnpm)
    } else if yarn {
        Some(LockfileType::Yarn)
    } else {
        None
    }
}

/// The text of the directory marker `node_modules/`.
pub open spec fn modules_marker() -> Seq<char> {
    seq!['n', 'o', 'd', 'e', '_', 'm', 'o', 'd', 'u', 'l', 'e', 's', '/']
}

/// The part of a lockfile path after its last `node_modules/`, or the whole
/// path where it has none.
pub open spec fn innermost_part(path: Seq<char>) -> Seq<char> {
    let at = last_match(path, modules_marker(), path.len() as int);
    if at >= 0 {
        path.skip(at + 13)
    } else {
        path
    }
}

/// The name of a package or of a scoped package at the start of `part`:
/// `@scope/name` where `part` starts with `@` and has a `/`, else the text
/// before the first `/`.
pub open spec fn leading_name(part: Seq<char>) -> Seq<char> {
    if part.len() > 0 && part[0] == '@' && find_char(part, '/', 0) < part.len() {
        scoped_prefix(part)
    } else {
        part.subrange(0, find_char(part, '/', 0))
    }
}

/// The package that a path of a lockfile's `packages` table installs.
pub open spec fn path_package_of(path: Seq<char>) -> Seq<char> {
    leading_name(innermost_part(path))
}

/// The name of the package that a lockfile path installs:
/// "node_modules/foo/node_modules/@scope/bar" gives "@scope/bar".
pub fn extract_package_name_from_path(path: &str) -> (name: String)
    ensures
        name@ == path_package_of(path@),
{
    let chars = chars_of(path);
    proof {
        reveal_strlit("node_modules/");
        assert("node_modules/"@ =~= modules_marker());
    }
    let marker = chars_of("node_modules/");
    let total = chars.len();
    let start: usize = match seek_last(&chars, &marker) {
        Some(at) => {
            assert(matches_at(chars@, marker@, at as int)) by {
                lemma_last_match_matches(chars@, marker@, chars@.len() as int);
            }
            assert(marker@.len() == 13);
            assert(at + 13 <= total);
            at + 13
        },
        None => 0,
    };
    let part_text = path.substring_char(start, total);
    assert(part_text@ =~= innermost_part(path@));
    let part = chars_of(part_text);
    let slash = seek_char(&part, '/', 0);
    if part.len() > 0 && part[0] == '@' && slash < part.len() {
        let end = seek_char(&part, '/', slash + 1);
        return String::from_str(part_text.substring_char(0, end));
    }
    String::from_str(part_text.substring_char(0, slash))
}

/// One entry of the `packages` table of an npm lockfile.
#[derive(Debug)]
pub struct NpmPackageEntry {
    /// The key of the entry, such as "node_modules/lodash"; empty for the
    /// project itself
    pub path: String,
    pub version: Option<String>,
    pub dev: Option<bool>,
    /// Names of the dependencies, then of the optional dependencies
    pub dependencies: Vec<String>,
    pub deprecated: Option<String>,
}

/// What an `NpmPackageEntry` holds, as mathematical values.
pub struct NpmPackageEntryView {
    pub path: Seq<char>,
    pub version: Option<Seq<char>>,
    pub dev: Option<bool>,
    pub dependencies: Seq<Seq<char>>,
    pub deprecated: Option<Seq<char>>,
}

impl View for NpmPackageEntry {
    type V = NpmPackageEntryView;

    open spec fn view(&self) -> NpmPackageEntryView {
        NpmPackageEntryView {
            path: self.path@,
            version: note_text(self.version),
            dev: self.dev,
            dependencies: texts(self.dependencies@),
            deprecated: note_text(self.deprecated),
        }
    }
}

/// One entry of the `dependencies` tree of an older npm lockfile, the tree
/// flattened so that a package stands before the packages nested in it.
#[derive(Debug)]
pub struct NpmDependency {
    pub name: String,
    pub version: String,
    pub dev: Option<bool>,
    /// Names of the packages it requires
    pub requires: Vec<String>,
}

/// What an `NpmDependency` holds, as mathematical values.
pub struct NpmDependencyView {
    pub name: Seq<char>,
    pub version: Seq<char>,
    pub dev: Option<bool>,
    pub requires: Seq<Seq<char>>,
}

impl View for NpmDependency {
    type V = NpmDependencyView;

    open spec fn view(&self) -> NpmDependencyView {
        NpmDependencyView {
            name: self.name@,
            version: self.version@,
            dev: self.dev,
            requires: texts(self.requires@),
        }
    }
}

/// The views of a list of entries.
pub open spec fn npm_entry_views(list: Seq<NpmPackageEntry>) -> Seq<NpmPackageEntryView> {
    Seq::new(list.len(), |i: int| list[i]@)
}

/// The views of a list of older entries.
pub open spec fn npm_dependency_views(list: Seq<NpmDependency>) -> Seq<NpmDependencyView> {
    Seq::new(list.len(), |i: int| list[i]@)
}

/// The names of a list of packages.
pub open spec fn names_of(list: Seq<PackageView>) -> Seq<Seq<char>> {
    Seq::new(list.len(), |i: int| list[i].name)
}

/// The package that an entry of the `packages` table describes.
pub open spec fn entry_package(
    e: NpmPackageEntryView,
    direct: Seq<Seq<char>>,
    dev: Seq<Seq<char>>,
) -> PackageView {
    let name = path_package_of(e.path);
    PackageView {
        name,
        version: match e.version {
            Some(v) => v,
            None => Seq::empty(),
        },
        is_direct: direct.contains(name),
        is_dev: e.dev == Some(true) || dev.contains(name),
        dependencies: e.dependencies,
        deprecated: e.deprecated,
    }
}

/// The packages of the first `upto` entries: the project itself and entries
/// without a name are left out, and of several entries with one name the
/// first is kept.
pub open spec fn modern_packages(
    entries: Seq<NpmPackageEntryView>,
    direct: Seq<Seq<char>>,
    dev: Seq<Seq<char>>,
    upto: nat,
) -> Seq<PackageView>
    decreases upto,
{
    if upto == 0 {
        Seq::empty()
    } else {
        let before = modern_packages(entries, direct, dev, (upto - 1) as nat);
        let e = entries[upto - 1];
        let name = path_package_of(e.path);
        if e.path.len() == 0 || name.len() == 0 || names_of(before).contains(name) {
            before
        } else {
            before.push(entry_package(e, direct, dev))
        }
    }
}

/// The package that an entry of the older `dependencies` tree describes.
pub open spec fn legacy_package(
    d: NpmDependencyView,
    direct: Seq<Seq<char>>,
    dev: Seq<Seq<char>>,
) -> PackageView {
    PackageView {
        name: d.name,
        version: d.version,
        is_direct: direct.contains(d.name),
        is_dev: d.dev == Some(true) || dev.contains(d.name),
        dependencies: d.requires,
        deprecated: None,
    }
}

/// The packages of the first `upto` older entries: of several with one name
/// the first is kept.
pub open spec fn legacy_packages(
    legacy: Seq<NpmDependencyView>,
    direct: Seq<Seq<char>>,
    dev: Seq<Seq<char>>,
    upto: nat,
) -> Seq<PackageView>
    decreases upto,
{
    if upto == 0 {
        Seq::empty()
    } else {
        let before = legacy_packages(legacy, direct, dev, (upto - 1) as nat);
        let d = legacy[upto - 1];
        if names_of(before).contains(d.name) {
            before
        } else {
            before.push(legacy_package(d, direct, dev))
        }
    }
}

/// The packages of an npm lockfile: those of the `packages` table, or, where
/// that gives none, those of the older `dependencies` tree.
pub open spec fn npm_packages(
    entries: Seq<NpmPackageEntryView>,
    legacy: Seq<NpmDependencyView>,
    direct: Seq<Seq<char>>,
    dev: Seq<Seq<char>>,
) -> Seq<PackageView> {
    let modern = modern_packages(entries, direct, dev, entries.len());
    if modern.len() == 0 && legacy.len() > 0 {
        legacy_packages(legacy, direct, dev, legacy.len())
    } else {
        modern
    }
}

/// Whether `list` holds the text of `s`.
pub fn holds_text(list: &Vec<String>, s: &str) -> (r: bool)
    ensures
        r == texts(list@).contains(s@),
{
    proof {
        lemma_lookup_sound(texts(list@), s@);
    }
    match find_text(list, s) {
        Some(at) => {
            assert(texts(list@)[at as int] == s@);
            true
        },
        None => false,
    }
}

/// Parser for npm's package-lock.json
pub struct NpmLockfileParser {
    entries: Vec<NpmPackageEntry>,
    legacy: Vec<NpmDependency>,
    direct_deps: Vec<String>,
    dev_deps: Vec<String>,
}

impl NpmLockfileParser {
    /// The packages that the parser gives.
    pub closed spec fn packages(&self) -> Seq<PackageView> {
        npm_packages(
            npm_entry_views(self.entries@),
            npm_dependency_views(self.legacy@),
            texts(self.direct_deps@),
            texts(self.dev_deps@),
        )
    }

    /// A parser for the decoded lockfile: the entries of its `packages`
    /// table, the flattened entries of its older `dependencies` tree, and the
    /// names that the project declares as dependencies (`direct_deps`, dev
    /// dependencies included) and as dev dependencies.
    pub fn new(
        entries: Vec<NpmPackageEntry>,
        legacy: Vec<NpmDependency>,
        direct_deps: Vec<String>,
        dev_deps: Vec<String>,
    ) -> (r: Self)
        ensures
            r.packages() == npm_packages(
                npm_entry_views(entries@),
                npm_dependency_views(legacy@),
                texts(direct_deps@),
                texts(dev_deps@),
            ),
    {
        NpmLockfileParser { entries, legacy, direct_deps, dev_deps }
    }

    /// The packages of the lockfile, one per name.
    pub fn parse(&self) -> (r: Vec<Package>)
        ensures
            package_views(r@) == self.packages(),
    {
        let modern = self.parse_lockfile_v3();
        if modern.len() == 0 && self.legacy.len() > 0 {
            self.parse_lockfile_v1()
        } else {
            modern
        }
    }

    /// Parse lockfile format v2/v3 (npm 7+)
    fn parse_lockfile_v3(&self) -> (r: Vec<Package>)
        ensures
            package_views(r@) == modern_packages(
                npm_entry_views(self.entries@),
                texts(self.direct_deps@),
                texts(self.dev_deps@),
                self.entries@.len() as nat,
            ),
    {
        let ghost es = npm_entry_views(self.entries@);
        let ghost direct = texts(self.direct_deps@);
        let ghost dev = texts(self.dev_deps@);
        let mut names: Vec<String> = Vec::new();
        let mut out: Vec<Package> = Vec::new();
        let mut i: usize = 0;
        while i < self.entries.len()
            invariant
                es == npm_entry_views(self.entries@),
                direct == texts(self.direct_deps@),
                dev == texts(self.dev_deps@),
                i <= self.entries@.len(),
                texts(names@) == names_of(package_views(out@)),
                package_views(out@) == modern_packages(es, direct, dev, i as nat),
            decreases self.entries@.len() - i,
        {
            let e = &self.entries[i];
            assert(e@ == es[i as int]);
            let ghost before = package_views(out@);
            let ghost names_before = texts(names@);
            if e.path.as_str().unicode_len() > 0 {
                let name = extract_package_name_from_path(e.path.as_str());
                if name.as_str().unicode_len() > 0 && !holds_text(&names, name.as_str()) {
                    let is_direct = holds_text(&self.direct_deps, name.as_str());
                    let is_dev = match e.dev {
                        Some(flag) => flag,
                        None => false,
                    } || holds_text(&self.dev_deps, name.as_str());
                    let package = Package {
                        name: name.clone(),
                        version: match &e.version {
                            Some(v) => v.clone(),
                            None => String::new(),
                        },
                        is_direct,
                        is_dev,
                        dependencies: copy_texts(&e.dependencies),
                        deprecated: copy_note(&e.deprecated),
                    };
                    assert(package@ == entry_package(es[i as int], direct, dev));
                    names.push(name);
                    out.push(package);
                    assert(package_views(out@) =~= before.push(entry_package(es[i as int], direct, dev)));
                    assert(texts(names@) =~= names_before.push(path_package_of(e.path@)));
                    assert(texts(names@) =~= names_of(package_views(out@)));
                }
            }
            i += 1;
        }
        out
    }

    /// Parse lockfile format v1 (npm 6 and earlier)
    fn parse_lockfile_v1(&self) -> (r: Vec<Package>)
        ensures
            package_views(r@) == legacy_packages(
                npm_dependency_views(self.legacy@),
                texts(self.direct_deps@),
                texts(self.dev_deps@),
                self.legacy@.len() as nat,
            ),
    {
        let ghost ds = npm_dependency_views(self.legacy@);
        let ghost direct = texts(self.direct_deps@);
        let ghost dev = texts(self.dev_deps@);
        let mut names: Vec<String> = Vec::new();
        let mut out: Vec<Package> = Vec::new();
        let mut i: usize = 0;
        while i < self.legacy.len()
            invariant
                ds == npm_dependency_views(self.legacy@),
                direct == texts(self.direct_deps@),
                dev == texts(self.dev_deps@),
                i <= self.legacy@.len(),
                texts(names@) == names_of(package_views(out@)),
                package_views(out@) == legacy_packages(ds, direct, dev, i as nat),
            decreases self.legacy@.len() - i,
        {
            let d = &self.legacy[i];
            assert(d@ == ds[i as int]);
            let ghost before = package_views(out@);
            let ghost names_before = texts(names@);
            if !holds_text(&names, d.name.as_str()) {
                let is_direct = holds_text(&self.direct_deps, d.name.as_str());
                let is_dev = match d.dev {
                    Some(flag) => flag,
                    None => false,
                } || holds_text(&self.dev_deps, d.name.as_str());
                let package = Package {
                    name: d.name.clone(),
                    version: d.version.clone(),
                    is_direct,
                    is_dev,
                    dependencies: copy_texts(&d.requires),
                    deprecated: None,
                };
                assert(package@ == legacy_package(ds[i as int], direct, dev));
                names.push(d.name.clone());
                out.push(package);
                assert(package_views(out@) =~= before.push(legacy_package(ds[i as int], direct, dev)));
                assert(texts(names@) =~= names_before.push(d.name@));
                assert(texts(names@) =~= names_of(package_views(out@)));
            }
            i += 1;
        }
        out
    }
}

} // verus!
