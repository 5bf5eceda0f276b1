//! Duplicate analysis: package names installed in several versions, the
//! number of packages that depend on each version, and a severity tier.

use crate::lockfile::{
    by_name, cargo_views, entry_names, entry_views, total_versions,
    CargoLockfileParser, CargoPackage, CargoPackageInfoView, CargoPackageView, PackageVersions,
    PackageVersionsView,
};
use crate::order::{in_order, lemma_order_decides};
use crate::reach::{adjacency_wf, count_reachable, reach_count, rows};
use crate::text::{
    char_rows, chars_of, copy_texts, distinct, find_text, is_sorted_order, lemma_lex_lt_asymmetric,
    lemma_lookup_sound, lex_lt, lookup, same_text, sorted_order, texts,
};
use crate::types::{
    group_names, group_views, severity_rank, version_texts, version_views, DuplicateAnalysis,
    DuplicateGroup, DuplicateGroupView, DuplicateSeverity, DuplicateStats, DuplicateVersion,
    DuplicateVersionView,
};
use crate::versions::{calculate_severity, compare_versions, severity_of, version_order, VersionOrder};
use vstd::prelude::*;
use vstd::seq_lib::{to_multiset_build, to_multiset_insert, to_multiset_len};
use vstd::string::*;

verus! {

/// The places in `names` of those of `deps` that `names` holds, in the order
/// of `deps`.
pub open spec fn linked(names: Seq<Seq<char>>, deps: Seq<Seq<char>>) -> Seq<usize>
    decreases deps.len(),
{
    if deps.len() == 0 {
        Seq::empty()
    } else {
        let rest = linked(names, deps.drop_last());
        match lookup(names, deps.last()) {
            Some(j) => rest.push(j as usize),
            None => rest,
        }
    }
}

/// The places in `names` of the dependents of every version in `versions`.
pub open spec fn entry_links(names: Seq<Seq<char>>, versions: Seq<CargoPackageInfoView>) -> Seq<
    usize,
>
    decreases versions.len(),
{
    if versions.len() == 0 {
        Seq::empty()
    } else {
        entry_links(names, versions.drop_last()) + linked(names, versions.last().dependents)
    }
}

/// The reverse map over names: for each name, the names that depend on some
/// version of it.
pub open spec fn reverse_links(entries: Seq<PackageVersionsView>) -> Seq<Seq<usize>> {
    Seq::new(entries.len(), |i: int| entry_links(entry_names(entries), entries[i].versions))
}

/// Number of distinct names that depend on a version with these immediate
/// dependents, directly or through other packages.
pub open spec fn transitive_count_of(entries: Seq<PackageVersionsView>, dependents: Seq<Seq<char>>) -> nat {
    reach_count(
        reverse_links(entries),
        linked(entry_names(entries), dependents).to_set(),
        entries.len(),
    )
}

/// The version entry that the analysis reports for `info`.
pub open spec fn expected_version(entries: Seq<PackageVersionsView>, info: CargoPackageInfoView) -> DuplicateVersionView {
    DuplicateVersionView {
        version: info.version,
        dependents: info.dependents,
        transitive_count: transitive_count_of(entries, info.dependents),
    }
}

/// The version entries of name `k`, in lockfile order.
pub open spec fn expected_versions(entries: Seq<PackageVersionsView>, k: int) -> Seq<
    DuplicateVersionView,
> {
    Seq::new(
        entries[k].versions.len(),
        |x: int| expected_version(entries, entries[k].versions[x]),
    )
}

/// The place at which `v` goes into the ascending list `sorted`: behind the
/// last version, seen from the end, that does not order after it.
pub open spec fn insert_place(sorted: Seq<DuplicateVersionView>, v: Seq<char>, from: int) -> int
    decreases from,
{
    if from > 0 && version_order(sorted[from - 1].version, v) == VersionOrder::Greater {
        insert_place(sorted, v, from - 1)
    } else {
        from
    }
}

/// The versions of `list` in ascending order, each put into the sorted list
/// of those before it.
pub open spec fn version_sorted(list: Seq<DuplicateVersionView>) -> Seq<DuplicateVersionView>
    decreases list.len(),
{
    if list.len() == 0 {
        Seq::empty()
    } else {
        let before = version_sorted(list.drop_last());
        before.insert(insert_place(before, list.last().version, before.len() as int), list.last())
    }
}

/// No version is followed by one that orders before it.
pub open spec fn versions_ascend(versions: Seq<DuplicateVersionView>) -> bool {
    forall|i: int, j: int|
        0 <= i && j == i + 1 && j < versions.len() ==> version_order(
            (#[trigger] versions[i]).version,
            (#[trigger] versions[j]).version,
        ) != VersionOrder::Greater
}

proof fn lemma_linked_bound(names: Seq<Seq<char>>, deps: Seq<Seq<char>>)
    requires
        names.len() <= usize::MAX,
    ensures
        forall|k: int| 0 <= k < linked(names, deps).len() ==> linked(names, deps)[k] < names.len(),
    decreases deps.len(),
{
    if deps.len() > 0 {
        lemma_linked_bound(names, deps.drop_last());
        lemma_lookup_sound(names, deps.last());
        let rest = linked(names, deps.drop_last());
        let all = linked(names, deps);
        assert forall|k: int| 0 <= k < all.len() implies all[k] < names.len() by {
            if k < rest.len() {
                assert(all[k] == rest[k]);
            }
        }
    }
}

/// Putting a version where its neighbours allow keeps the list ascending.
proof fn lemma_insert_ascends(before: Seq<DuplicateVersionView>, pos: int, x: DuplicateVersionView)
    requires
        versions_ascend(before),
        0 <= pos <= before.len(),
        pos > 0 ==> version_order(before[pos - 1].version, x.version) != VersionOrder::Greater,
        pos < before.len() ==> version_order(x.version, before[pos].version)
            != VersionOrder::Greater,
    ensures
        versions_ascend(before.insert(pos, x)),
{
    let now = before.insert(pos, x);
    assert forall|i: int, j: int| 0 <= i && j == i + 1 && j < now.len() implies version_order(
        (#[trigger] now[i]).version,
        (#[trigger] now[j]).version,
    ) != VersionOrder::Greater by {
        if j < pos {
            assert(now[i] == before[i]);
            assert(now[j] == before[j]);
        } else if j == pos {
            assert(now[i] == before[i]);
            assert(now[j] == x);
        } else if i == pos {
            assert(now[i] == x);
            assert(now[j] == before[i]);
        } else {
            assert(now[i] == before[i - 1]);
            assert(now[j] == before[i]);
        }
    }
}

/// Putting a version anywhere adds it to what the list holds.
proof fn lemma_insert_holds(
    before: Seq<DuplicateVersionView>,
    pos: int,
    x: DuplicateVersionView,
    seen: Seq<DuplicateVersionView>,
)
    requires
        0 <= pos <= before.len(),
        before.to_multiset() == seen.to_multiset(),
    ensures
        before.insert(pos, x).to_multiset() == seen.push(x).to_multiset(),
{
    to_multiset_insert(before, pos, x);
    to_multiset_build(seen, x);
}

/// The places in `names` of those of `deps` that `names` holds.
fn link_nodes(names: &Vec<String>, deps: &Vec<String>) -> (r: Vec<usize>)
    ensures
        r@ == linked(texts(names@), texts(deps@)),
        forall|k: int| 0 <= k < r@.len() ==> r@[k] < names@.len(),
{
    let ghost ns = texts(names@);
    let ghost ds = texts(deps@);
    let bound = names.len();
    let mut r: Vec<usize> = Vec::new();
    let mut j: usize = 0;
    assert(ds.take(0) =~= Seq::<Seq<char>>::empty());
    while j < deps.len()
        invariant
            ns == texts(names@),
            ds == texts(deps@),
            j <= deps@.len(),
            r@ == linked(ns, ds.take(j as int)),
        decreases deps@.len() - j,
    {
        proof {
            assert(ds.take(j + 1).drop_last() =~= ds.take(j as int));
            assert(ds.take(j + 1).last() == deps@[j as int]@);
        }
        match find_text(names, deps[j].as_str()) {
            Some(at) => {
                r.push(at);
            },
            None => {},
        }
        j += 1;
    }
    proof {
        assert(ds.take(deps@.len() as int) =~= ds);
        lemma_linked_bound(ns, ds);
    }
    r
}

/// The versions of `list` in ascending order: by semantic version where two
/// versions are semantic versions, else lexicographic. Equal versions keep
/// their order.
pub fn sort_versions(list: &Vec<DuplicateVersion>) -> (out: Vec<DuplicateVersion>)
    ensures
        version_views(out@) == version_sorted(version_views(list@)),
        version_views(out@).to_multiset() == version_views(list@).to_multiset(),
        versions_ascend(version_views(out@)),
{
    let ghost all = version_views(list@);
    let mut out: Vec<DuplicateVersion> = Vec::new();
    let mut i: usize = 0;
    assert(all.take(0) =~= version_views(out@));
    while i < list.len()
        invariant
            all == version_views(list@),
            i <= list@.len(),
            out@.len() == i,
            version_views(out@) == version_sorted(all.take(i as int)),
            version_views(out@).to_multiset() == all.take(i as int).to_multiset(),
            versions_ascend(version_views(out@)),
        decreases list@.len() - i,
    {
        let item = list[i].clone();
        let mut pos: usize = out.len();
        while pos > 0 && compare_versions(out[pos - 1].version.as_str(), item.version.as_str())
            == VersionOrder::Greater
            invariant
                pos <= out@.len(),
                item@ == list@[i as int]@,
                insert_place(version_views(out@), item.version@, out@.len() as int)
                    == insert_place(version_views(out@), item.version@, pos as int),
                pos < out@.len() ==> version_order(item.version@, out@[pos as int].version@)
                    != VersionOrder::Greater,
            decreases pos,
        {
            pos -= 1;
        }
        let ghost before = version_views(out@);
        let ghost added = list@[i as int]@;
        assert(pos > 0 ==> before[pos - 1].version == out@[pos - 1].version@);
        assert(pos < out@.len() ==> before[pos as int].version == out@[pos as int].version@);
        assert(insert_place(before, added.version, before.len() as int) == pos);
        assert(all.take(i + 1).drop_last() =~= all.take(i as int));
        assert(all.take(i + 1).last() == added);
        out.insert(pos, item);
        proof {
            assert(version_views(out@) =~= before.insert(pos as int, added));
            lemma_insert_ascends(before, pos as int, added);
            lemma_insert_holds(before, pos as int, added, all.take(i as int));
            assert(all.take(i + 1) =~= all.take(i as int).push(added));
        }
        i += 1;
    }
    assert(all.take(list@.len() as int) =~= all);
    out
}

/// The version strings of a list of version entries.
pub open spec fn view_texts(versions: Seq<DuplicateVersionView>) -> Seq<Seq<char>> {
    Seq::new(versions.len(), |i: int| versions[i].version)
}

/// Name `k` has two or more versions, so the analysis reports it.
pub open spec fn reported(entries: Seq<PackageVersionsView>, k: int) -> bool {
    0 <= k < entries.len() && entries[k].versions.len() >= 2
}

/// `g` is the group of name `k`: it holds the versions of that name, each
/// with its dependents and its transitive count, ascending, and the tier
/// that these versions give.
pub open spec fn is_group_of(entries: Seq<PackageVersionsView>, k: int, g: DuplicateGroupView) -> bool {
    &&& g.name == entries[k].name
    &&& g.versions == version_sorted(expected_versions(entries, k))
    &&& g.versions.to_multiset() == expected_versions(entries, k).to_multiset()
    &&& versions_ascend(g.versions)
    &&& g.severity == severity_of(view_texts(g.versions))
}

/// `g` is the group of a name that the analysis reports.
pub open spec fn comes_from(entries: Seq<PackageVersionsView>, g: DuplicateGroupView) -> bool {
    exists|k: int| #[trigger] reported(entries, k) && is_group_of(entries, k, g)
}

/// `a` stands before `b` in a report: by tier, the higher first, then by
/// name.
pub open spec fn group_before(a: DuplicateGroupView, b: DuplicateGroupView) -> bool {
    severity_rank(a.severity) > severity_rank(b.severity) || (severity_rank(a.severity)
        == severity_rank(b.severity) && lex_lt(a.name, b.name))
}

/// `dups` holds one group for each name with two or more versions and no
/// other, the higher tier first and ascending by name within a tier.
pub open spec fn is_report(entries: Seq<PackageVersionsView>, dups: Seq<DuplicateGroupView>) -> bool {
    &&& forall|i: int| 0 <= i < dups.len() ==> comes_from(entries, #[trigger] dups[i])
    &&& forall|k: int|
        reported(entries, k) ==> group_names(dups).contains(#[trigger] entries[k].name)
    &&& forall|a: int, b: int|
        0 <= a < b < dups.len() ==> group_before(#[trigger] dups[a], #[trigger] dups[b])
}

/// A report is determined by the versions of the names: two reports of the
/// same entries are the same list of groups, in the same order.
pub proof fn lemma_report_unique(
    entries: Seq<PackageVersionsView>,
    a: Seq<DuplicateGroupView>,
    b: Seq<DuplicateGroupView>,
)
    requires
        distinct(entry_names(entries)),
        is_report(entries, a),
        is_report(entries, b),
    ensures
        a == b,
{
    let before = |x: DuplicateGroupView, y: DuplicateGroupView| group_before(x, y);
    assert forall|x: DuplicateGroupView, y: DuplicateGroupView| #[trigger]
        before(x, y) implies !before(y, x) by {
        if lex_lt(x.name, y.name) {
            lemma_lex_lt_asymmetric(x.name, y.name);
        }
    }
    assert forall|i: int| 0 <= i < a.len() implies b.contains(#[trigger] a[i]) by {
        lemma_group_found(entries, a[i], b);
    }
    assert forall|i: int| 0 <= i < b.len() implies a.contains(#[trigger] b[i]) by {
        lemma_group_found(entries, b[i], a);
    }
    assert(in_order(a, before));
    assert(in_order(b, before));
    lemma_order_decides(a, b, before);
}

/// A group that comes from the entries stands in every report of them.
proof fn lemma_group_found(
    entries: Seq<PackageVersionsView>,
    g: DuplicateGroupView,
    report: Seq<DuplicateGroupView>,
)
    requires
        distinct(entry_names(entries)),
        comes_from(entries, g),
        is_report(entries, report),
    ensures
        report.contains(g),
{
    let k = choose|k: int| #[trigger] reported(entries, k) && is_group_of(entries, k, g);
    assert(group_names(report).contains(entries[k].name));
    let j = choose|j: int| 0 <= j < report.len() && group_names(report)[j] == entries[k].name;
    assert(comes_from(entries, report[j]));
    let m = choose|m: int| #[trigger] reported(entries, m) && is_group_of(entries, m, report[j]);
    assert(entry_names(entries)[m] == entry_names(entries)[k]);
    assert(m == k);
    assert(report[j].versions == g.versions);
    assert(report[j] == g);
}

/// Number of groups of tier `tier` among the first `upto`.
pub open spec fn tier_total(dups: Seq<DuplicateGroupView>, tier: DuplicateSeverity, upto: nat) -> nat
    decreases upto,
{
    if upto == 0 {
        0
    } else {
        tier_total(dups, tier, (upto - 1) as nat) + if dups[upto - 1].severity == tier {
            1nat
        } else {
            0nat
        }
    }
}

/// Number of versions of a group beyond the first.
pub open spec fn redundant(g: DuplicateGroupView) -> nat {
    if g.versions.len() >= 1 {
        (g.versions.len() - 1) as nat
    } else {
        0
    }
}

/// Number of version instances beyond one per name.
pub open spec fn extra_units(dups: Seq<DuplicateGroupView>) -> nat
    decreases dups.len(),
{
    if dups.len() == 0 {
        0
    } else {
        extra_units(dups.drop_last()) + redundant(dups.last())
    }
}

/// `stats` counts the groups of `dups`, those of each tier, and the version
/// instances beyond one per name (capped at the largest `usize`).
pub open spec fn is_summary(stats: DuplicateStats, dups: Seq<DuplicateGroupView>) -> bool {
    &&& stats.total_duplicates == dups.len()
    &&& stats.high_severity == tier_total(dups, DuplicateSeverity::High, dups.len())
    &&& stats.medium_severity == tier_total(dups, DuplicateSeverity::Medium, dups.len())
    &&& stats.low_severity == tier_total(dups, DuplicateSeverity::Low, dups.len())
    &&& stats.extra_compile_units == if extra_units(dups) <= usize::MAX {
        extra_units(dups)
    } else {
        usize::MAX as nat
    }
}

/// Taking one group out lowers the count by what that group adds.
proof fn lemma_extra_remove(b: Seq<DuplicateGroupView>, j: int)
    requires
        0 <= j < b.len(),
    ensures
        extra_units(b) == extra_units(b.remove(j)) + redundant(b[j]),
    decreases b.len(),
{
    if j == b.len() - 1 {
        assert(b.remove(j) =~= b.drop_last());
    } else {
        lemma_extra_remove(b.drop_last(), j);
        assert(b.remove(j).drop_last() =~= b.drop_last().remove(j));
        assert(b.remove(j).last() == b.last());
    }
}

/// Two lists that hold the same groups, each once, count the same extra
/// units, whatever their order.
proof fn lemma_extra_any_order(a: Seq<DuplicateGroupView>, b: Seq<DuplicateGroupView>)
    requires
        forall|i: int, j: int| 0 <= i < j < a.len() ==> a[i] != a[j],
        forall|i: int, j: int| 0 <= i < j < b.len() ==> b[i] != b[j],
        forall|i: int| 0 <= i < a.len() ==> b.contains(#[trigger] a[i]),
        forall|i: int| 0 <= i < b.len() ==> a.contains(#[trigger] b[i]),
    ensures
        extra_units(a) == extra_units(b),
    decreases a.len(),
{
    if a.len() == 0 {
        if b.len() > 0 {
            assert(a.contains(b[0]));
        }
    } else {
        let last = a.last();
        assert(b.contains(a[a.len() - 1]));
        let j = choose|j: int| 0 <= j < b.len() && b[j] == last;
        let ra = a.drop_last();
        let rb = b.remove(j);
        assert forall|x: int, y: int| 0 <= x < y < ra.len() implies ra[x] != ra[y] by {
            assert(ra[x] == a[x] && ra[y] == a[y]);
        }
        assert forall|x: int, y: int| 0 <= x < y < rb.len() implies rb[x] != rb[y] by {
            let p = if x < j { x } else { x + 1 };
            let q = if y < j { y } else { y + 1 };
            assert(rb[x] == b[p] && rb[y] == b[q]);
        }
        assert forall|x: int| 0 <= x < ra.len() implies rb.contains(#[trigger] ra[x]) by {
            assert(ra[x] == a[x]);
            assert(b.contains(a[x]));
            let k = choose|k: int| 0 <= k < b.len() && b[k] == a[x];
            assert(a[x] != a[a.len() - 1]);
            if k < j {
                assert(rb[k] == b[k]);
            } else {
                assert(rb[k - 1] == b[k]);
            }
        }
        assert forall|x: int| 0 <= x < rb.len() implies ra.contains(#[trigger] rb[x]) by {
            let p = if x < j { x } else { x + 1 };
            assert(rb[x] == b[p]);
            assert(a.contains(b[p]));
            let k = choose|k: int| 0 <= k < a.len() && a[k] == b[p];
            if p < j {
                assert(b[p] != b[j]);
            } else {
                assert(b[j] != b[p]);
            }
            assert(ra[k] == a[k]);
        }
        lemma_extra_any_order(ra, rb);
        lemma_extra_remove(b, j);
    }
}

/// Number of groups of tier `tier`.
fn count_tier(groups: &Vec<DuplicateGroup>, tier: DuplicateSeverity) -> (count: usize)
    ensures
        count == tier_total(group_views(groups@), tier, groups@.len() as nat),
{
    let ghost dups = group_views(groups@);
    let mut count: usize = 0;
    let mut i: usize = 0;
    while i < groups.len()
        invariant
            dups == group_views(groups@),
            i <= groups@.len(),
            count <= i,
            count == tier_total(dups, tier, i as nat),
        decreases groups@.len() - i,
    {
        if groups[i].severity == tier {
            count += 1;
        }
        i += 1;
    }
    count
}

/// Summary statistics of a list of groups.
pub fn summarize(groups: &Vec<DuplicateGroup>) -> (stats: DuplicateStats)
    ensures
        is_summary(stats, group_views(groups@)),
{
    let ghost dups = group_views(groups@);
    let mut extra: u128 = 0;
    let mut i: usize = 0;
    while i < groups.len()
        invariant
            dups == group_views(groups@),
            i <= groups@.len(),
            extra == extra_units(dups.take(i as int)),
            extra <= i * 0x1_0000_0000_0000_0000,
        decreases groups@.len() - i,
    {
        let count = groups[i].versions.len();
        assert(dups[i as int].versions.len() == count);
        assert(dups.take(i + 1).drop_last() =~= dups.take(i as int));
        assert(dups.take(i + 1).last() == dups[i as int]);
        if count >= 1 {
            extra = extra + (count - 1) as u128;
        }
        i += 1;
    }
    assert(dups.take(groups@.len() as int) =~= dups);
    let extra_compile_units: usize = if extra > usize::MAX as u128 {
        usize::MAX
    } else {
        extra as usize
    };
    DuplicateStats {
        total_duplicates: groups.len(),
        high_severity: count_tier(groups, DuplicateSeverity::High),
        medium_severity: count_tier(groups, DuplicateSeverity::Medium),
        low_severity: count_tier(groups, DuplicateSeverity::Low),
        extra_compile_units,
    }
}

/// The reverse map over names, as adjacency rows.
fn build_links(entries: &Vec<PackageVersions>, names: &Vec<String>) -> (links: Vec<Vec<usize>>)
    requires
        texts(names@) == entry_names(entry_views(entries@)),
    ensures
        links@.len() == entries@.len(),
        rows(links@) == reverse_links(entry_views(entries@)),
        adjacency_wf(rows(links@)),
{
    let ghost es = entry_views(entries@);
    let ghost ns = entry_names(es);
    let mut links: Vec<Vec<usize>> = Vec::new();
    let mut i: usize = 0;
    while i < entries.len()
        invariant
            es == entry_views(entries@),
            ns == entry_names(es),
            ns == texts(names@),
            i <= entries@.len(),
            links@.len() == i,
            forall|x: int| 0 <= x < i ==> (#[trigger] links@[x])@ == entry_links(ns, es[x].versions),
            forall|x: int, y: int|
                0 <= x < i && 0 <= y < links@[x]@.len() ==> (#[trigger] links@[x]@[y])
                    < entries@.len(),
        decreases entries@.len() - i,
    {
        let versions = &entries[i].versions;
        let ghost vs = es[i as int].versions;
        let mut row: Vec<usize> = Vec::new();
        let mut v: usize = 0;
        assert(vs.take(0) =~= Seq::<CargoPackageInfoView>::empty());
        while v < versions.len()
            invariant
                es == entry_views(entries@),
                ns == entry_names(es),
                ns == texts(names@),
                i < entries@.len(),
                vs == es[i as int].versions,
                versions == &entries@[i as int].versions,
                v <= versions@.len(),
                row@ == entry_links(ns, vs.take(v as int)),
                forall|y: int| 0 <= y < row@.len() ==> row@[y] < entries@.len(),
            decreases versions@.len() - v,
        {
            proof {
                assert(vs.take(v + 1).drop_last() =~= vs.take(v as int));
                assert(vs.take(v + 1).last() == versions@[v as int]@);
            }
            let nodes = link_nodes(names, &versions[v].dependents);
            let ghost before = row@;
            let mut y: usize = 0;
            while y < nodes.len()
                invariant
                    y <= nodes@.len(),
                    row@ == before + nodes@.take(y as int),
                decreases nodes@.len() - y,
            {
                row.push(nodes[y]);
                assert(nodes@.take(y + 1) =~= nodes@.take(y as int).push(nodes@[y as int]));
                y += 1;
            }
            assert(nodes@.take(nodes@.len() as int) =~= nodes@);
            assert(ns.len() == entries@.len());
            assert forall|z: int| 0 <= z < row@.len() implies row@[z] < entries@.len() by {
                if z >= before.len() {
                    assert(row@[z] == nodes@[z - before.len()]);
                }
            }
            v += 1;
        }
        assert(vs.take(versions@.len() as int) =~= vs);
        links.push(row);
        i += 1;
    }
    assert(rows(links@) =~= reverse_links(es));
    links
}

/// One of the first `k` names is `name`.
pub open spec fn held_before(names: Seq<Seq<char>>, k: int, name: Seq<char>) -> bool {
    exists|x: int| 0 <= x < k && #[trigger] names[x] == name
}

/// The groups of the names with two or more versions, in the order of
/// `entries`.
fn build_groups(entries: &Vec<PackageVersions>) -> (groups: Vec<DuplicateGroup>)
    requires
        distinct(entry_names(entry_views(entries@))),
    ensures
        forall|i: int|
            0 <= i < groups@.len() ==> comes_from(entry_views(entries@), (#[trigger] groups@[i])@),
        forall|k: int|
            reported(entry_views(entries@), k) ==> group_names(group_views(groups@)).contains(
                #[trigger] entry_views(entries@)[k].name,
            ),
        distinct(group_names(group_views(groups@))),
        extra_units(group_views(groups@)) <= total_versions(
            entry_views(entries@),
            entries@.len() as nat,
        ),
{
    let ghost es = entry_views(entries@);
    let ghost ns = entry_names(es);
    let mut names: Vec<String> = Vec::new();
    let mut t: usize = 0;
    while t < entries.len()
        invariant
            t <= entries@.len(),
            names@.len() == t,
            forall|x: int| 0 <= x < t ==> (#[trigger] names@[x])@ == entries@[x].name@,
        decreases entries@.len() - t,
    {
        names.push(entries[t].name.clone());
        t += 1;
    }
    assert(texts(names@) =~= ns);
    let links = build_links(entries, &names);
    let mut groups: Vec<DuplicateGroup> = Vec::new();
    let mut k: usize = 0;
    while k < entries.len()
        invariant
            es == entry_views(entries@),
            ns == entry_names(es),
            ns == texts(names@),
            distinct(ns),
            rows(links@) == reverse_links(es),
            adjacency_wf(rows(links@)),
            links@.len() == entries@.len(),
            names@.len() == entries@.len(),
            k <= entries@.len(),
            forall|i: int| 0 <= i < groups@.len() ==> comes_from(es, (#[trigger] groups@[i])@),
            forall|i: int|
                0 <= i < groups@.len() ==> held_before(ns, k as int, (#[trigger] groups@[i]).name@),
            forall|x: int|
                0 <= x < k && reported(es, x) ==> group_names(group_views(groups@)).contains(
                    #[trigger] es[x].name,
                ),
            distinct(group_names(group_views(groups@))),
            extra_units(group_views(groups@)) <= total_versions(es, k as nat),
        decreases entries@.len() - k,
    {
        let infos = &entries[k].versions;
        let ghost old_groups = groups@;
        assert(es[k as int].versions.len() == infos@.len());
        if infos.len() >= 2 {
            let mut versions: Vec<DuplicateVersion> = Vec::new();
            let mut v: usize = 0;
            while v < infos.len()
                invariant
                    es == entry_views(entries@),
                    ns == entry_names(es),
                    ns == texts(names@),
                    rows(links@) == reverse_links(es),
                    adjacency_wf(rows(links@)),
                    links@.len() == entries@.len(),
                    names@.len() == entries@.len(),
                    k < entries@.len(),
                    infos == &entries@[k as int].versions,
                    v <= infos@.len(),
                    versions@.len() == v,
                    forall|x: int|
                        0 <= x < v ==> (#[trigger] versions@[x])@ == expected_version(
                            es,
                            es[k as int].versions[x],
                        ),
                decreases infos@.len() - v,
            {
                let info = &infos[v];
                assert(info@ == es[k as int].versions[v as int]);
                let seeds = link_nodes(&names, &info.dependents);
                let transitive_count = count_reachable(&links, &seeds);
                versions.push(
                    DuplicateVersion {
                        version: info.version.clone(),
                        dependents: copy_texts(&info.dependents),
                        transitive_count,
                    },
                );
                v += 1;
            }
            assert(version_views(versions@) =~= expected_versions(es, k as int));
            let sorted = sort_versions(&versions);
            let severity = calculate_severity(&sorted);
            assert(version_texts(sorted@) =~= view_texts(version_views(sorted@)));
            let group = DuplicateGroup { name: entries[k].name.clone(), versions: sorted, severity };
            proof {
                assert(reported(es, k as int));
                assert(is_group_of(es, k as int, group@));
                assert(comes_from(es, group@));
            }
            groups.push(group);
            proof {
                assert(group_views(groups@).drop_last() =~= group_views(old_groups));
                assert(group_views(groups@).last().versions.len() == infos@.len()) by {
                    to_multiset_len(version_views(sorted@));
                    to_multiset_len(expected_versions(es, k as int));
                }
                let gn = group_names(group_views(groups@));
                let on = group_names(group_views(old_groups));
                assert(ns[k as int] == groups@[old_groups.len() as int].name@);
                assert forall|i: int| 0 <= i < groups@.len() implies held_before(
                    ns,
                    k + 1,
                    (#[trigger] groups@[i]).name@,
                ) by {
                    if i < old_groups.len() {
                        assert(held_before(ns, k as int, old_groups[i].name@));
                        let x = choose|x: int|
                            0 <= x < k && #[trigger] ns[x] == old_groups[i].name@;
                        assert(0 <= x < k + 1 && ns[x] == groups@[i].name@);
                    }
                }
                assert forall|x: int| 0 <= x < k + 1 && reported(es, x) implies gn.contains(
                    #[trigger] es[x].name,
                ) by {
                    if x < k {
                        assert(on.contains(es[x].name));
                        let i = choose|i: int| 0 <= i < on.len() && on[i] == es[x].name;
                        assert(gn[i] == es[x].name);
                    } else {
                        assert(gn[old_groups.len() as int] == es[x].name);
                    }
                }
                assert forall|a: int, b: int| 0 <= a < b < gn.len() implies gn[a] != gn[b] by {
                    if b < old_groups.len() {
                        assert(on[a] == gn[a] && on[b] == gn[b]);
                    } else {
                        assert(held_before(ns, k as int, old_groups[a].name@));
                        let x = choose|x: int|
                            0 <= x < k && #[trigger] ns[x] == old_groups[a].name@;
                        assert(ns[x] != ns[k as int]);
                    }
                }
            }
        } else {
            proof {
                assert forall|i: int| 0 <= i < groups@.len() implies held_before(
                    ns,
                    k + 1,
                    (#[trigger] groups@[i]).name@,
                ) by {
                    assert(held_before(ns, k as int, groups@[i].name@));
                    let x = choose|x: int| 0 <= x < k && #[trigger] ns[x] == groups@[i].name@;
                    assert(0 <= x < k + 1 && ns[x] == groups@[i].name@);
                }
            }
        }
        k += 1;
    }
    groups
}

/// One of the first `m` places of `order` names the group `v`.
pub open spec fn group_picked_before(
    groups: Seq<DuplicateGroupView>,
    order: Seq<usize>,
    m: int,
    v: DuplicateGroupView,
) -> bool {
    exists|w: int| 0 <= w < m && groups[(#[trigger] order[w]) as int] == v
}

/// `acc`, followed by the groups of tier `tier`, ascending by name.
fn append_tier(
    groups: &Vec<DuplicateGroup>,
    order: &Vec<usize>,
    tier: DuplicateSeverity,
    acc: Vec<DuplicateGroup>,
) -> (r: Vec<DuplicateGroup>)
    requires
        is_sorted_order(order@, group_names(group_views(groups@))),
    ensures
        r@.len() >= acc@.len(),
        forall|x: int| 0 <= x < acc@.len() ==> (#[trigger] r@[x])@ == acc@[x]@,
        forall|x: int|
            acc@.len() <= x < r@.len() ==> (#[trigger] r@[x]).severity == tier
                && group_views(groups@).contains(r@[x]@),
        forall|k: int|
            0 <= k < groups@.len() && groups@[k].severity == tier ==> exists|x: int|
                acc@.len() <= x < r@.len() && (#[trigger] r@[x])@ == groups@[k]@,
        forall|x: int, y: int|
            acc@.len() <= x < y < r@.len() ==> lex_lt(
                (#[trigger] r@[x]).name@,
                (#[trigger] r@[y]).name@,
            ),
{
    let ghost gs = group_views(groups@);
    let ghost names = group_names(gs);
    let ghost start = acc@.len();
    let ghost kept = acc@;
    let mut r = acc;
    let mut m: usize = 0;
    while m < order.len()
        invariant
            gs == group_views(groups@),
            names == group_names(gs),
            is_sorted_order(order@, names),
            m <= order@.len(),
            r@.len() >= start,
            start == kept.len(),
            forall|x: int| 0 <= x < start ==> (#[trigger] r@[x])@ == kept[x]@,
            forall|x: int|
                start <= x < r@.len() ==> (#[trigger] r@[x]).severity == tier
                    && group_picked_before(gs, order@, m as int, r@[x]@),
            forall|w: int|
                0 <= w < m && groups@[order@[w] as int].severity == tier ==> exists|x: int|
                    start <= x < r@.len() && (#[trigger] r@[x])@ == gs[order@[w] as int],
            forall|x: int, y: int|
                start <= x < y < r@.len() ==> lex_lt(
                    (#[trigger] r@[x]).name@,
                    (#[trigger] r@[y]).name@,
                ),
        decreases order@.len() - m,
    {
        let k = order[m];
        let g = &groups[k];
        assert(g@ == gs[k as int]);
        let ghost before = r@;
        proof {
            assert forall|x: int| start <= x < before.len() implies group_picked_before(
                gs,
                order@,
                m + 1,
                (#[trigger] before[x])@,
            ) by {
                assert(group_picked_before(gs, order@, m as int, before[x]@));
                let w = choose|w: int|
                    0 <= w < m && gs[(#[trigger] order@[w]) as int] == before[x]@;
                assert(0 <= w < m + 1);
            }
        }
        if g.severity == tier {
            r.push(g.clone());
            proof {
                let last = before.len() as int;
                assert(r@[last]@ == gs[order@[m as int] as int]);
                assert(group_picked_before(gs, order@, m + 1, r@[last]@));
                assert forall|x: int| start <= x < r@.len() implies (#[trigger] r@[x]).severity
                    == tier && group_picked_before(gs, order@, m + 1, r@[x]@) by {
                    if x < last {
                        assert(r@[x] == before[x]);
                    }
                }
                assert forall|w: int|
                    0 <= w < m + 1 && groups@[order@[w] as int].severity == tier implies exists|
                    x: int,
                | start <= x < r@.len() && (#[trigger] r@[x])@ == gs[order@[w] as int] by {
                    if w < m {
                        let x = choose|x: int|
                            start <= x < before.len() && (#[trigger] before[x])@
                                == gs[order@[w] as int];
                        assert(r@[x] == before[x]);
                    } else {
                        assert(start <= last < r@.len() && r@[last]@ == gs[order@[w] as int]);
                    }
                }
                assert forall|x: int, y: int| start <= x < y < r@.len() implies lex_lt(
                    (#[trigger] r@[x]).name@,
                    (#[trigger] r@[y]).name@,
                ) by {
                    assert(r@[x] == before[x]);
                    if y < last {
                        assert(r@[y] == before[y]);
                    } else {
                        assert(group_picked_before(gs, order@, m as int, before[x]@));
                        let w = choose|w: int|
                            0 <= w < m && gs[(#[trigger] order@[w]) as int] == before[x]@;
                        assert(lex_lt(names[order@[w] as int], names[order@[m as int] as int]));
                    }
                }
            }
        } else {
            proof {
                assert forall|w: int|
                    0 <= w < m + 1 && groups@[order@[w] as int].severity == tier implies exists|
                    x: int,
                | start <= x < r@.len() && (#[trigger] r@[x])@ == gs[order@[w] as int] by {
                    let x = choose|x: int|
                        start <= x < before.len() && (#[trigger] before[x])@
                            == gs[order@[w] as int];
                    assert(r@[x] == before[x]);
                }
            }
        }
        m += 1;
    }
    proof {
        assert forall|x: int| start <= x < r@.len() implies gs.contains((#[trigger] r@[x])@) by {
            assert(group_picked_before(gs, order@, order@.len() as int, r@[x]@));
            let w = choose|w: int|
                0 <= w < order@.len() && gs[(#[trigger] order@[w]) as int] == r@[x]@;
            assert(gs[order@[w] as int] == r@[x]@);
        }
        assert forall|k: int|
            0 <= k < groups@.len() && groups@[k].severity == tier implies exists|x: int|
            start <= x < r@.len() && (#[trigger] r@[x])@ == groups@[k]@ by {
            assert(order@.contains(k as usize));
            let w = choose|w: int| 0 <= w < order@.len() && order@[w] == k as usize;
            assert(groups@[order@[w] as int].severity == tier);
        }
    }
    r
}

/// The groups in report order: high tier first, then medium, then low,
/// ascending by name within a tier.
fn order_groups(groups: &Vec<DuplicateGroup>) -> (out: Vec<DuplicateGroup>)
    requires
        distinct(group_names(group_views(groups@))),
    ensures
        forall|i: int|
            0 <= i < out@.len() ==> group_views(groups@).contains((#[trigger] out@[i])@),
        forall|k: int|
            0 <= k < groups@.len() ==> group_views(out@).contains((#[trigger] groups@[k])@),
        forall|a: int, b: int|
            0 <= a < b < out@.len() ==> group_before(
                (#[trigger] out@[a])@,
                (#[trigger] out@[b])@,
            ),
{
    let ghost gs = group_views(groups@);
    let mut keys: Vec<Vec<char>> = Vec::new();
    let mut i: usize = 0;
    while i < groups.len()
        invariant
            i <= groups@.len(),
            keys@.len() == i,
            forall|x: int| 0 <= x < i ==> (#[trigger] keys@[x])@ == groups@[x].name@,
        decreases groups@.len() - i,
    {
        keys.push(chars_of(groups[i].name.as_str()));
        i += 1;
    }
    assert(char_rows(keys@) =~= group_names(gs));
    let order = sorted_order(&keys);
    let high = append_tier(groups, &order, DuplicateSeverity::High, Vec::new());
    let ghost h = high@;
    let upto_medium = append_tier(groups, &order, DuplicateSeverity::Medium, high);
    let ghost hm = upto_medium@;
    let out = append_tier(groups, &order, DuplicateSeverity::Low, upto_medium);
    proof {
        assert forall|x: int| 0 <= x < out@.len() implies gs.contains((#[trigger] out@[x])@) && (
        x < h.len() ==> out@[x].severity == DuplicateSeverity::High) && (h.len() <= x < hm.len()
            ==> out@[x].severity == DuplicateSeverity::Medium) && (hm.len() <= x
            ==> out@[x].severity == DuplicateSeverity::Low) by {
            if x < hm.len() {
                assert(out@[x]@ == hm[x]@);
                if x < h.len() {
                    assert(hm[x]@ == h[x]@);
                    assert(h[x].severity == DuplicateSeverity::High);
                } else {
                    assert(hm[x].severity == DuplicateSeverity::Medium);
                }
            }
        }
        assert forall|a: int, b: int| 0 <= a < b < out@.len() implies group_before(
            (#[trigger] out@[a])@,
            (#[trigger] out@[b])@,
        ) by {
            assert(gs.contains(out@[a]@) && gs.contains(out@[b]@));
            if b < h.len() {
                assert(out@[a]@ == hm[a]@ && hm[a]@ == h[a]@);
                assert(out@[b]@ == hm[b]@ && hm[b]@ == h[b]@);
                assert(lex_lt(h[a].name@, h[b].name@));
            } else if h.len() <= a && b < hm.len() {
                assert(out@[a]@ == hm[a]@);
                assert(out@[b]@ == hm[b]@);
                assert(lex_lt(hm[a].name@, hm[b].name@));
            } else if hm.len() <= a {
                assert(lex_lt(out@[a].name@, out@[b].name@));
            }
        }
        assert forall|k: int| 0 <= k < groups@.len() implies group_views(out@).contains(
            (#[trigger] groups@[k])@,
        ) by {
            match groups@[k].severity {
                DuplicateSeverity::High => {
                    let x = choose|x: int| 0 <= x < h.len() && (#[trigger] h[x])@ == groups@[k]@;
                    assert(hm[x]@ == h[x]@);
                    assert(out@[x]@ == hm[x]@);
                    assert(group_views(out@)[x] == groups@[k]@);
                },
                DuplicateSeverity::Medium => {
                    let x = choose|x: int|
                        h.len() <= x < hm.len() && (#[trigger] hm[x])@ == groups@[k]@;
                    assert(out@[x]@ == hm[x]@);
                    assert(group_views(out@)[x] == groups@[k]@);
                },
                DuplicateSeverity::Low => {
                    let x = choose|x: int|
                        hm.len() <= x < out@.len() && (#[trigger] out@[x])@ == groups@[k]@;
                    assert(group_views(out@)[x] == groups@[k]@);
                },
            }
        }
    }
    out
}

/// The duplicate report of `entries`, the versions of each package name:
/// one group for each name with two or more versions.
pub(crate) fn analyze_versions(entries: &Vec<PackageVersions>) -> (r: DuplicateAnalysis)
    requires
        distinct(entry_names(entry_views(entries@))),
        total_versions(entry_views(entries@), entries@.len() as nat) <= usize::MAX,
    ensures
        is_report(entry_views(entries@), group_views(r.duplicates@)),
        is_summary(r.stats, group_views(r.duplicates@)),
        r.stats.extra_compile_units == extra_units(group_views(r.duplicates@)),
{
    let ghost es = entry_views(entries@);
    let groups = build_groups(entries);
    let duplicates = order_groups(&groups);
    let stats = summarize(&duplicates);
    proof {
        let gs = group_views(groups@);
        let dups = group_views(duplicates@);
        assert forall|i: int, j: int| 0 <= i < j < gs.len() implies gs[i] != gs[j] by {
            assert(group_names(gs)[i] != group_names(gs)[j]);
        }
        assert forall|i: int, j: int| 0 <= i < j < dups.len() implies dups[i] != dups[j] by {
            assert(group_before(duplicates@[i]@, duplicates@[j]@));
            if dups[i] == dups[j] {
                if lex_lt(dups[i].name, dups[j].name) {
                    lemma_lex_lt_asymmetric(dups[i].name, dups[j].name);
                }
            }
        }
        assert forall|i: int| 0 <= i < dups.len() implies gs.contains(#[trigger] dups[i]) by {
            assert(gs.contains(duplicates@[i]@));
        }
        assert forall|i: int| 0 <= i < gs.len() implies dups.contains(#[trigger] gs[i]) by {
            assert(dups.contains(groups@[i]@));
        }
        lemma_extra_any_order(dups, gs);
        assert forall|i: int| 0 <= i < dups.len() implies comes_from(es, #[trigger] dups[i]) by {
            assert(gs.contains(duplicates@[i]@));
            let k = choose|k: int| 0 <= k < gs.len() && gs[k] == duplicates@[i]@;
            assert(comes_from(es, groups@[k]@));
        }
        assert forall|k: int| reported(es, k) implies group_names(dups).contains(
            #[trigger] es[k].name,
        ) by {
            assert(group_names(gs).contains(es[k].name));
            let j = choose|j: int| 0 <= j < gs.len() && group_names(gs)[j] == es[k].name;
            assert(dups.contains(groups@[j]@));
            let i = choose|i: int| 0 <= i < dups.len() && dups[i] == groups@[j]@;
            assert(group_names(dups)[i] == es[k].name);
        }
        assert forall|a: int, b: int| 0 <= a < b < dups.len() implies group_before(
            #[trigger] dups[a],
            #[trigger] dups[b],
        ) by {
            assert(group_before(duplicates@[a]@, duplicates@[b]@));
        }
    }
    DuplicateAnalysis { duplicates, stats }
}

/// Analyzer for detecting duplicate dependencies
pub struct DuplicateAnalyzer {
    packages: Vec<CargoPackage>,
}

impl DuplicateAnalyzer {
    /// The lockfile packages that the analyzer works on.
    pub closed spec fn packages(&self) -> Seq<CargoPackageView> {
        cargo_views(self.packages@)
    }

    pub fn new(packages: Vec<CargoPackage>) -> (r: Self)
        ensures
            r.packages() == cargo_views(packages@),
    {
        DuplicateAnalyzer { packages }
    }

    /// Analyze the packages for duplicate dependencies
    pub fn analyze(self) -> (r: DuplicateAnalysis)
        ensures
            is_report(by_name(self.packages()), group_views(r.duplicates@)),
            is_summary(r.stats, group_views(r.duplicates@)),
            r.stats.extra_compile_units == extra_units(group_views(r.duplicates@)),
    {
        let parser = CargoLockfileParser::new(self.packages);
        let entries = parser.parse_for_duplicates();
        analyze_versions(&entries)
    }
}

/// The dependents of the versions other than `newest`, in order.
pub open spec fn outdated_dependents(versions: Seq<DuplicateVersionView>, newest: Seq<char>) -> Seq<
    Seq<char>,
>
    decreases versions.len(),
{
    if versions.len() == 0 {
        Seq::empty()
    } else {
        let before = outdated_dependents(versions.drop_last(), newest);
        if versions.last().version != newest {
            before + versions.last().dependents
        } else {
            before
        }
    }
}

/// The texts of `parts`, with `", "` between them.
pub open spec fn comma_joined(parts: Seq<Seq<char>>) -> Seq<char>
    decreases parts.len(),
{
    if parts.len() == 0 {
        Seq::empty()
    } else if parts.len() == 1 {
        parts[0]
    } else {
        comma_joined(parts.drop_last()) + seq![',', ' '] + parts.last()
    }
}

/// The advice for a group: to move every dependent of an older version to
/// the newest one. `None` where no dependent uses an older version.
pub open spec fn resolution_of(g: DuplicateGroupView) -> Option<Seq<char>> {
    if g.versions.len() == 0 {
        None
    } else {
        let newest = g.versions.last().version;
        let outdated = outdated_dependents(g.versions, newest);
        if outdated.len() == 0 {
            None
        } else {
            Some(
                seq!['U', 'p', 'd', 'a', 't', 'e', ' '] + comma_joined(outdated) + seq![
                    ' ',
                    't',
                    'o',
                    ' ',
                    'u',
                    's',
                    'e',
                    ' ',
                ] + g.name + seq![' '] + newest,
            )
        }
    }
}

/// Suggest which version to upgrade to
pub fn suggest_resolution(group: &DuplicateGroup) -> (r: Option<String>)
    ensures
        match r {
            Some(text) => resolution_of(group@) == Some(text@),
            None => resolution_of(group@) is None,
        },
{
    let ghost vs = group@.versions;
    let count = group.versions.len();
    if count == 0 {
        return None;
    }
    let newest = &group.versions[count - 1];
    assert(vs.last().version == newest.version@);
    let mut listed = String::new();
    let mut any = false;
    let mut i: usize = 0;
    assert(vs.take(0) =~= Seq::<DuplicateVersionView>::empty());
    while i < count
        invariant
            vs == group@.versions,
            count == group.versions@.len(),
            i <= count,
            any == (outdated_dependents(vs.take(i as int), newest.version@).len() > 0),
            listed@ == comma_joined(outdated_dependents(vs.take(i as int), newest.version@)),
        decreases count - i,
    {
        let version = &group.versions[i];
        proof {
            assert(vs.take(i + 1).drop_last() =~= vs.take(i as int));
            assert(vs.take(i + 1).last() == version@);
        }
        if !same_text(version.version.as_str(), newest.version.as_str()) {
            let ghost base = outdated_dependents(vs.take(i as int), newest.version@);
            let ghost added = texts(version.dependents@);
            let mut d: usize = 0;
            assert(base + added.take(0) =~= base);
            while d < version.dependents.len()
                invariant
                    d <= version.dependents@.len(),
                    added == texts(version.dependents@),
                    any == ((base + added.take(d as int)).len() > 0),
                    listed@ == comma_joined(base + added.take(d as int)),
                decreases version.dependents@.len() - d,
            {
                proof {
                    reveal_strlit(", ");
                    assert(", "@ =~= seq![',', ' ']);
                    let now = base + added.take(d + 1);
                    assert(now.drop_last() =~= base + added.take(d as int));
                    assert(now.last() == version.dependents@[d as int]@);
                }
                if any {
                    listed.append(", ");
                }
                listed.append(version.dependents[d].as_str());
                proof {
                    if !any {
                        assert(listed@ =~= version.dependents@[d as int]@);
                    }
                }
                any = true;
                d += 1;
            }
            assert(added.take(version.dependents@.len() as int) =~= added);
        }
        i += 1;
    }
    assert(vs.take(count as int) =~= vs);
    if !any {
        return None;
    }
    proof {
        reveal_strlit("Update ");
        reveal_strlit(" to use ");
        reveal_strlit(" ");
        assert("Update "@ =~= seq!['U', 'p', 'd', 'a', 't', 'e', ' ']);
        assert(" to use "@ =~= seq![' ', 't', 'o', ' ', 'u', 's', 'e', ' ']);
        assert(" "@ =~= seq![' ']);
    }
    let mut text = String::from_str("Update ");
    text.append(listed.as_str());
    text.append(" to use ");
    text.append(group.name.as_str());
    text.append(" ");
    text.append(newest.version.as_str());
    Some(text)
}

} // verus!
