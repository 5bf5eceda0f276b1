//! The usage graph: one node per package name, an edge from each package to
//! each of its dependencies that is itself a package of the graph.

use crate::digraph::{
    graph_add_edge, graph_add_node, graph_edges, graph_neighbors, graph_new, graph_node_name,
    graph_nodes, neighbors_of, GRAPH_LIMIT,
};
use crate::digraph::lemma_neighbors_members;
use crate::order::lemma_order_decides;
use crate::reach::{
    adjacency_wf, bfs, is_path, lemma_reachable_monotone, lemma_reachable_trans,
    lemma_seed_reachable, reachable, rows,
};
use crate::rules::{expected_unused, is_expected_unused};
use crate::text::{
    ascending, char_rows, chars_of, distinct, find_text, is_sorted_order, lemma_lex_lt_asymmetric,
    lemma_lookup_sound,
    lex_lt, lookup, sorted_order, texts,
};
use crate::types::{
    package_names, package_views, Package, PackageExplanation, PackageUsage, PackageView,
    UsageAnalysis,
};
use petgraph::graph::Graph;
use petgraph::Directed;
use vstd::prelude::*;

verus! {

/// The names of a list of package views.
pub open spec fn view_names(views: Seq<PackageView>) -> Seq<Seq<char>> {
    Seq::new(views.len(), |i: int| views[i].name)
}

/// The packages that a graph keeps of `views`: of several with one name, the
/// first.
pub open spec fn retained(views: Seq<PackageView>) -> Seq<PackageView>
    decreases views.len(),
{
    if views.len() == 0 {
        Seq::empty()
    } else {
        let before = retained(views.drop_last());
        if view_names(before).contains(views.last().name) {
            before
        } else {
            before.push(views.last())
        }
    }
}

/// The edges that the dependencies `deps` of node `a` give: one to each
/// dependency that names a node, in the order of `deps`.
pub open spec fn row_edges(names: Seq<Seq<char>>, a: usize, deps: Seq<Seq<char>>) -> Seq<
    (usize, usize),
>
    decreases deps.len(),
{
    if deps.len() == 0 {
        Seq::empty()
    } else {
        let rest = row_edges(names, a, deps.drop_last());
        match lookup(names, deps.last()) {
            Some(b) => rest.push((a, b as usize)),
            None => rest,
        }
    }
}

/// The edges of the first `upto` packages, in order.
pub open spec fn dep_edges(views: Seq<PackageView>, upto: nat) -> Seq<(usize, usize)>
    decreases upto,
{
    if upto == 0 {
        Seq::empty()
    } else {
        dep_edges(views, (upto - 1) as nat) + row_edges(
            view_names(views),
            (upto - 1) as usize,
            views[upto - 1].dependencies,
        )
    }
}

/// Number of edges of the graph built from `packages`.
pub open spec fn edge_total(packages: Seq<Package>) -> nat {
    let kept = retained(package_views(packages));
    dep_edges(kept, kept.len()).len()
}

/// The graph of `packages` has no more nodes and no more edges than its
/// 32-bit indices can number.
pub open spec fn within_limits(packages: Seq<Package>) -> bool {
    retained(package_views(packages)).len() <= GRAPH_LIMIT && edge_total(packages) <= GRAPH_LIMIT
}

proof fn lemma_retained_grows(views: Seq<PackageView>, i: int)
    requires
        0 <= i <= views.len(),
    ensures
        retained(views.take(i)).len() <= retained(views).len(),
    decreases views.len() - i,
{
    if i == views.len() {
        assert(views.take(i) =~= views);
    } else {
        assert(views.take(i + 1).drop_last() =~= views.take(i));
        lemma_retained_grows(views, i + 1);
    }
}

proof fn lemma_row_edges_prefix(names: Seq<Seq<char>>, a: usize, deps: Seq<Seq<char>>, k: int)
    requires
        0 <= k <= deps.len(),
    ensures
        row_edges(names, a, deps.take(k)).len() <= row_edges(names, a, deps).len(),
    decreases deps.len() - k,
{
    if k == deps.len() {
        assert(deps.take(k) =~= deps);
    } else {
        assert(deps.take(k + 1).drop_last() =~= deps.take(k));
        lemma_row_edges_prefix(names, a, deps, k + 1);
    }
}

proof fn lemma_dep_edges_grow(views: Seq<PackageView>, i: nat, n: nat)
    requires
        i <= n,
    ensures
        dep_edges(views, i).len() <= dep_edges(views, n).len(),
    decreases n - i,
{
    if i < n {
        lemma_dep_edges_grow(views, i + 1, n);
    }
}

proof fn lemma_row_edges_valid(names: Seq<Seq<char>>, a: usize, deps: Seq<Seq<char>>)
    requires
        names.len() <= usize::MAX,
    ensures
        forall|k: int|
            0 <= k < row_edges(names, a, deps).len() ==> {
                let e = #[trigger] row_edges(names, a, deps)[k];
                e.0 == a && e.1 < names.len() && deps.contains(names[e.1 as int])
            },
        forall|j: int|
            0 <= j < deps.len() ==> match lookup(names, #[trigger] deps[j]) {
                Some(b) => row_edges(names, a, deps).contains((a, b as usize)),
                None => true,
            },
    decreases deps.len(),
{
    if deps.len() > 0 {
        let front = deps.drop_last();
        lemma_row_edges_valid(names, a, front);
        lemma_lookup_sound(names, deps.last());
        let rest = row_edges(names, a, front);
        let all = row_edges(names, a, deps);
        assert forall|k: int| 0 <= k < all.len() implies {
            let e = #[trigger] all[k];
            e.0 == a && e.1 < names.len() && deps.contains(names[e.1 as int])
        } by {
            if k < rest.len() {
                let e = rest[k];
                assert(all[k] == e);
                let j = choose|j: int| 0 <= j < front.len() && front[j] == names[e.1 as int];
                assert(deps[j] == front[j]);
            } else {
                assert(deps[deps.len() - 1] == deps.last());
            }
        }
        assert forall|j: int| 0 <= j < deps.len() implies match lookup(names, #[trigger] deps[j]) {
            Some(b) => all.contains((a, b as usize)),
            None => true,
        } by {
            if j < front.len() {
                assert(front[j] == deps[j]);
                match lookup(names, deps[j]) {
                    Some(b) => {
                        let k = choose|k: int| 0 <= k < rest.len() && rest[k] == (a, b as usize);
                        assert(all[k] == rest[k]);
                    },
                    None => {},
                }
            } else {
                match lookup(names, deps[j]) {
                    Some(b) => {
                        assert(all[all.len() - 1] == (a, b as usize));
                    },
                    None => {},
                }
            }
        }
    }
}

/// An edge of `dep_edges` runs from a package to one of its dependencies, and
/// every dependency that names a package has its edge.
pub proof fn lemma_dep_edges_meaning(views: Seq<PackageView>, upto: nat)
    requires
        upto <= views.len(),
        views.len() <= usize::MAX,
    ensures
        forall|k: int|
            0 <= k < dep_edges(views, upto).len() ==> {
                let e = #[trigger] dep_edges(views, upto)[k];
                e.0 < upto && e.1 < views.len() && views[e.0 as int].dependencies.contains(
                    views[e.1 as int].name,
                )
            },
        forall|a: int, j: int|
            0 <= a < upto && 0 <= j < views[a].dependencies.len() ==> match lookup(
                view_names(views),
                #[trigger] views[a].dependencies[j],
            ) {
                Some(b) => dep_edges(views, upto).contains((a as usize, b as usize)),
                None => true,
            },
    decreases upto,
{
    if upto > 0 {
        let names = view_names(views);
        let a = (upto - 1) as usize;
        let deps = views[upto - 1].dependencies;
        lemma_dep_edges_meaning(views, (upto - 1) as nat);
        lemma_row_edges_valid(names, a, deps);
        let before = dep_edges(views, (upto - 1) as nat);
        let row = row_edges(names, a, deps);
        let all = dep_edges(views, upto);
        assert(all == before + row);
        assert forall|k: int| 0 <= k < all.len() implies {
            let e = #[trigger] all[k];
            e.0 < upto && e.1 < views.len() && views[e.0 as int].dependencies.contains(
                views[e.1 as int].name,
            )
        } by {
            if k < before.len() {
                assert(all[k] == before[k]);
            } else {
                assert(all[k] == row[k - before.len()]);
            }
        }
        assert forall|x: int, j: int|
            0 <= x < upto && 0 <= j < views[x].dependencies.len() implies match lookup(
            names,
            #[trigger] views[x].dependencies[j],
        ) {
            Some(b) => all.contains((x as usize, b as usize)),
            None => true,
        } by {
            match lookup(names, views[x].dependencies[j]) {
                Some(b) => {
                    if x < upto - 1 {
                        let k = choose|k: int|
                            0 <= k < before.len() && before[k] == (x as usize, b as usize);
                        assert(all[k] == before[k]);
                    } else {
                        let k = choose|k: int|
                            0 <= k < row.len() && row[k] == (x as usize, b as usize);
                        assert(all[before.len() + k] == row[k]);
                    }
                },
                None => {},
            }
        }
    }
}

/// Dependency graph for analyzing package relationships
pub struct DependencyGraph {
    /// The underlying directed graph
    graph: Graph<String, (), Directed, u32>,
    /// The package names, by node index
    names: Vec<String>,
    /// The packages, by node index
    packages: Vec<Package>,
}

impl DependencyGraph {
    /// The packages of the graph, by node index.
    pub closed spec fn views(&self) -> Seq<PackageView> {
        package_views(self.packages@)
    }

    /// The edges of the graph, in the order in which they were added.
    pub closed spec fn edges(&self) -> Seq<(usize, usize)> {
        graph_edges(self.graph)
    }

    /// The names of the graph's packages, by node index.
    pub open spec fn names(&self) -> Seq<Seq<char>> {
        view_names(self.views())
    }

    /// For each node, the nodes it depends on, the most recently added edge
    /// first.
    pub open spec fn adjacency(&self) -> Seq<Seq<usize>> {
        Seq::new(self.views().len(), |i: int| neighbors_of(self.edges(), i as usize, true))
    }

    /// The graph holds one node per package, no name twice, and exactly the
    /// edges that the packages' dependencies give.
    pub closed spec fn wf(&self) -> bool {
        &&& self.packages@.len() <= GRAPH_LIMIT
        &&& texts(self.names@) == package_names(self.packages@)
        &&& distinct(view_names(package_views(self.packages@)))
        &&& graph_nodes(self.graph) == package_names(self.packages@)
        &&& graph_edges(self.graph) == dep_edges(
            package_views(self.packages@),
            self.packages@.len() as nat,
        )
    }

    /// Builds the graph of `packages`. Of several packages with one name the
    /// first is kept. A dependency that names no package gives no edge.
    pub fn new(packages: &Vec<Package>) -> (r: Self)
        requires
            within_limits(packages@),
        ensures
            r.wf(),
            r.views() == retained(package_views(packages@)),
    {
        match Self::try_new(packages) {
            Some(graph) => graph,
            None => unreached(),
        }
    }

    /// Builds the graph of `packages` as `new` does, or gives `None` where
    /// the packages or their edges are more than the graph can index.
    pub fn try_new(packages: &Vec<Package>) -> (r: Option<Self>)
        ensures
            r is Some <==> within_limits(packages@),
            match r {
                Some(graph) => graph.wf() && graph.views() == retained(package_views(packages@)),
                None => true,
            },
    {
        let mut graph = graph_new();
        let mut names: Vec<String> = Vec::new();
        let mut kept: Vec<Package> = Vec::new();
        let ghost input = package_views(packages@);
        let mut i: usize = 0;
        while i < packages.len()
            invariant
                i <= packages@.len(),
                input == package_views(packages@),
                kept@.len() <= i,
                kept@.len() <= GRAPH_LIMIT,
                texts(names@) == package_names(kept@),
                names@.len() == kept@.len(),
                package_views(kept@) == retained(input.take(i as int)),
                distinct(view_names(package_views(kept@))),
                graph_nodes(graph) == package_names(kept@),
                graph_edges(graph) == Seq::<(usize, usize)>::empty(),
            decreases packages@.len() - i,
        {
            let p = &packages[i];
            proof {
                assert(input.take(i + 1).drop_last() =~= input.take(i as int));
                assert(input.take(i + 1).last() == p@);
                assert(view_names(package_views(kept@)) =~= texts(names@));
                lemma_lookup_sound(texts(names@), p.name@);
            }
            let ghost before = package_views(kept@);
            let ghost names_before = texts(names@);
            let ghost old_names = names@;
            let ghost old_kept = kept@;
            match find_text(&names, p.name.as_str()) {
                Some(at) => {
                    assert(view_names(before)[at as int] == p.name@);
                },
                None => {
                    proof {
                        assert(!view_names(before).contains(p.name@)) by {
                            if view_names(before).contains(p.name@) {
                                let j = choose|j: int|
                                    0 <= j < before.len() && view_names(before)[j] == p.name@;
                                assert(names_before[j] == p.name@);
                            }
                        }
                    }
                    if kept.len() >= GRAPH_LIMIT {
                        proof {
                            lemma_retained_grows(input, i + 1);
                        }
                        return None;
                    }
                    graph_add_node(&mut graph, p.name.clone());
                    names.push(p.name.clone());
                    kept.push(p.clone());
                    proof {
                        assert(package_views(kept@) =~= before.push(p@));
                        assert forall|x: int| 0 <= x < names@.len() implies texts(names@)[x]
                            == package_names(kept@)[x] by {
                            if x < old_names.len() {
                                assert(texts(old_names)[x] == package_names(old_kept)[x]);
                            }
                        }
                        assert(texts(names@) =~= package_names(kept@));
                        assert(graph_nodes(graph) =~= package_names(kept@)) by {
                            assert(package_names(kept@) =~= package_names(old_kept).push(
                                p.name@,
                            ));
                        }
                        let now = view_names(package_views(kept@));
                        assert forall|x: int, y: int| 0 <= x < y < now.len() implies now[x]
                            != now[y] by {
                            if y == now.len() - 1 {
                                assert(view_names(before)[x] == now[x]);
                            } else {
                                assert(view_names(before)[x] == now[x]);
                                assert(view_names(before)[y] == now[y]);
                            }
                        }
                    }
                },
            }
            i += 1;
        }
        proof {
            assert(input.take(packages@.len() as int) =~= input);
        }
        let ghost views = package_views(kept@);
        let ghost all_names = view_names(views);
        let n = kept.len();
        let mut edge_count: usize = 0;
        let mut a: usize = 0;
        while a < n
            invariant
                a <= n,
                n == kept@.len(),
                n <= GRAPH_LIMIT,
                views == package_views(kept@),
                views == retained(input),
                input == package_views(packages@),
                all_names == view_names(views),
                all_names == texts(names@),
                graph_nodes(graph) == package_names(kept@),
                graph_edges(graph) == dep_edges(views, a as nat),
                edge_count == graph_edges(graph).len(),
                edge_count <= GRAPH_LIMIT,
            decreases n - a,
        {
            let deps = &kept[a].dependencies;
            let ghost row = views[a as int].dependencies;
            assert(row == texts(deps@));
            let mut k: usize = 0;
            assert(row.take(0) =~= Seq::<Seq<char>>::empty());
            while k < deps.len()
                invariant
                    a < n,
                    n == kept@.len(),
                    n <= GRAPH_LIMIT,
                    k <= deps@.len(),
                    row == texts(deps@),
                    row == views[a as int].dependencies,
                    views == package_views(kept@),
                    views == retained(input),
                    input == package_views(packages@),
                    all_names == view_names(views),
                    all_names == texts(names@),
                    graph_nodes(graph) == package_names(kept@),
                    graph_edges(graph) == dep_edges(views, a as nat) + row_edges(
                        all_names,
                        a,
                        row.take(k as int),
                    ),
                    edge_count == graph_edges(graph).len(),
                    edge_count <= GRAPH_LIMIT,
                decreases deps@.len() - k,
            {
                proof {
                    assert(row.take(k + 1).drop_last() =~= row.take(k as int));
                    assert(row.take(k + 1).last() == deps@[k as int]@);
                    lemma_row_edges_prefix(all_names, a, row, k + 1);
                    lemma_dep_edges_grow(views, (a + 1) as nat, n as nat);
                }
                match find_text(&names, deps[k].as_str()) {
                    Some(b) => {
                        if edge_count >= GRAPH_LIMIT {
                            return None;
                        }
                        graph_add_edge(&mut graph, a, b);
                        edge_count += 1;
                    },
                    None => {},
                }
                k += 1;
            }
            proof {
                assert(row.take(deps@.len() as int) =~= row);
            }
            a += 1;
        }
        Some(DependencyGraph { graph, names, packages: kept })
    }

    /// The nodes whose names are among `roots`.
    pub open spec fn root_nodes(&self, roots: Set<Seq<char>>) -> Set<usize> {
        Set::new(|i: usize| i < self.names().len() && roots.contains(self.names()[i as int]))
    }

    /// Whether node `t` is named in `roots` or can be reached from such a
    /// node along dependency edges.
    pub open spec fn reaches(&self, roots: Set<Seq<char>>, t: usize) -> bool {
        reachable(self.adjacency(), self.root_nodes(roots), t)
    }

    /// The names of the packages that `roots` name or need, directly or not.
    pub open spec fn closure(&self, roots: Set<Seq<char>>) -> Set<Seq<char>> {
        Set::new(
            |name: Seq<char>|
                exists|t: usize|
                    t < self.names().len() && self.names()[t as int] == name && self.reaches(
                        roots,
                        t,
                    ),
        )
    }

    /// For each node, whether `roots` reach it.
    pub open spec fn reach_marks(&self, roots: Set<Seq<char>>) -> Seq<bool> {
        Seq::new(self.names().len(), |t: int| self.reaches(roots, t as usize))
    }

    /// The edges of a graph are those that the dependencies of its packages
    /// give, package by package and dependency by dependency.
    pub proof fn lemma_edges(&self)
        requires
            self.wf(),
        ensures
            self.edges() == dep_edges(self.views(), self.views().len()),
    {
    }

    /// The number of packages fits the graph's index type.
    pub proof fn lemma_size(&self)
        requires
            self.wf(),
        ensures
            self.views().len() <= GRAPH_LIMIT,
            distinct(self.names()),
    {
    }

    /// An edge stands for a dependency: node `a` lists node `b` as a
    /// neighbour exactly when package `a` names package `b` among its
    /// dependencies.
    pub proof fn lemma_adjacency_meaning(&self)
        requires
            self.wf(),
        ensures
            adjacency_wf(self.adjacency()),
            forall|a: int, b: int|
                0 <= a < self.views().len() && 0 <= b < self.views().len() ==> (
                #[trigger] self.adjacency()[a].contains(b as usize)
                    <==> self.views()[a].dependencies.contains(self.names()[b])),
    {
        let views = self.views();
        let n = views.len();
        let names = self.names();
        let edges = self.edges();
        lemma_dep_edges_meaning(views, n);
        assert forall|i: int, k: int|
            0 <= i < self.adjacency().len() && 0 <= k < self.adjacency()[i].len() implies (
        #[trigger] self.adjacency()[i][k]) < self.adjacency().len() by {
            lemma_neighbors_members(edges, i as usize, true);
            let x = self.adjacency()[i][k];
            assert(neighbors_of(edges, i as usize, true).contains(x));
            let j = choose|j: int| 0 <= j < edges.len() && edges[j] == (i as usize, x);
            assert(edges[j].1 < n);
        }
        assert forall|a: int, b: int| 0 <= a < n && 0 <= b < n implies (
        #[trigger] self.adjacency()[a].contains(b as usize) <==> views[a].dependencies.contains(
            names[b],
        )) by {
            lemma_neighbors_members(edges, a as usize, true);
            if self.adjacency()[a].contains(b as usize) {
                let j = choose|j: int|
                    0 <= j < edges.len() && edges[j] == (a as usize, b as usize);
                assert(views[edges[j].0 as int].dependencies.contains(views[edges[j].1 as int].name));
            }
            if views[a].dependencies.contains(names[b]) {
                let j = choose|j: int|
                    0 <= j < views[a].dependencies.len() && views[a].dependencies[j] == names[b];
                lemma_lookup_sound(names, names[b]);
                let found = lookup(names, views[a].dependencies[j]);
                assert(found is Some);
                assert(found->0 == b);
            }
        }
    }

    /// For each node, whether it is named in `roots` or reached from there.
    fn reach_flags(&self, roots: &Vec<String>) -> (flags: Vec<bool>)
        requires
            self.wf(),
        ensures
            flags@ == self.reach_marks(texts(roots@).to_set()),
    {
        let n = self.packages.len();
        let ghost names = self.names();
        let ghost root_set = texts(roots@).to_set();
        proof {
            self.lemma_adjacency_meaning();
            assert(names =~= texts(self.names@));
        }
        let mut adj: Vec<Vec<usize>> = Vec::new();
        let mut i: usize = 0;
        while i < n
            invariant
                self.wf(),
                n == self.packages@.len(),
                i <= n,
                adj@.len() == i,
                forall|j: int| 0 <= j < i ==> (#[trigger] adj@[j])@ == self.adjacency()[j],
            decreases n - i,
        {
            let row = graph_neighbors(&self.graph, i, true);
            adj.push(row);
            i += 1;
        }
        assert(rows(adj@) =~= self.adjacency());
        let mut seeds: Vec<usize> = Vec::new();
        let mut k: usize = 0;
        while k < roots.len()
            invariant
                self.wf(),
                n == self.packages@.len(),
                names == self.names(),
                names == texts(self.names@),
                k <= roots@.len(),
                forall|j: int| 0 <= j < seeds@.len() ==> seeds@[j] < n,
                forall|j: int|
                    0 <= j < seeds@.len() ==> texts(roots@).contains(
                        names[(#[trigger] seeds@[j]) as int],
                    ),
                forall|j: int, t: int|
                    #![trigger roots@[j], names[t]]
                    0 <= j < k && 0 <= t < n && names[t] == roots@[j]@ ==> seeds@.contains(
                        t as usize,
                    ),
            decreases roots@.len() - k,
        {
            proof {
                lemma_lookup_sound(names, roots@[k as int]@);
            }
            let ghost before = seeds@;
            match find_text(&self.names, roots[k].as_str()) {
                Some(t) => {
                    seeds.push(t);
                    proof {
                        assert(texts(roots@)[k as int] == names[t as int]);
                        assert(seeds@[before.len() as int] == t);
                        assert forall|j: int, x: int|
                            #![trigger roots@[j], names[x]]
                            0 <= j < k + 1 && 0 <= x < n && names[x]
                                == roots@[j]@ implies seeds@.contains(x as usize) by {
                            if j < k {
                                assert(before.contains(x as usize));
                                let w = choose|w: int| 0 <= w < before.len() && before[w] == x as usize;
                                assert(seeds@[w] == x as usize);
                            } else {
                                assert(x == t);
                            }
                        }
                    }
                },
                None => {},
            }
            k += 1;
        }
        proof {
            assert(seeds@.to_set() =~= self.root_nodes(root_set)) by {
                assert forall|x: usize| seeds@.to_set().contains(x) <==> self.root_nodes(
                    root_set,
                ).contains(x) by {
                    if seeds@.to_set().contains(x) {
                        let w = choose|w: int| 0 <= w < seeds@.len() && seeds@[w] == x;
                        assert(texts(roots@).contains(names[seeds@[w] as int]));
                    }
                    if self.root_nodes(root_set).contains(x) {
                        let j = choose|j: int|
                            0 <= j < texts(roots@).len() && texts(roots@)[j] == names[x as int];
                        assert(roots@[j]@ == names[x as int]);
                        assert(seeds@.contains(x as int as usize));
                    }
                }
            }
        }
        let flags = bfs(&adj, &seeds);
        assert(flags@ =~= self.reach_marks(root_set));
        flags
    }

    /// The names of the packages that `roots` name or need, directly or not,
    /// in the order of the graph's packages. A root that names no package of
    /// the graph adds nothing.
    pub fn get_transitive_dependencies(&self, roots: &Vec<String>) -> (r: Vec<String>)
        requires
            self.wf(),
        ensures
            texts(r@) == marked_names(
                self.names(),
                self.reach_marks(texts(roots@).to_set()),
                self.names().len(),
            ),
            forall|name: Seq<char>|
                texts(r@).contains(name) <==> self.closure(texts(roots@).to_set()).contains(name),
    {
        let flags = self.reach_flags(roots);
        let ghost names = self.names();
        let ghost marks = self.reach_marks(texts(roots@).to_set());
        assert(names =~= texts(self.names@));
        let mut out: Vec<String> = Vec::new();
        let mut i: usize = 0;
        while i < self.names.len()
            invariant
                i <= self.names@.len(),
                names == texts(self.names@),
                names.len() == marks.len(),
                flags@ == marks,
                texts(out@) == marked_names(names, marks, i as nat),
            decreases self.names@.len() - i,
        {
            let ghost before = texts(out@);
            if flags[i] {
                out.push(self.names[i].clone());
                assert(texts(out@) =~= before.push(names[i as int]));
            }
            i += 1;
        }
        proof {
            lemma_marked_names_members(names, marks, names.len());
            let root_set = texts(roots@).to_set();
            assert forall|name: Seq<char>| texts(out@).contains(name) <==> self.closure(
                root_set,
            ).contains(name) by {
                if texts(out@).contains(name) {
                    let t = choose|t: int| 0 <= t < names.len() && marks[t] && names[t] == name;
                    assert(self.reaches(root_set, t as usize));
                }
                if self.closure(root_set).contains(name) {
                    let t = choose|t: usize|
                        t < names.len() && names[t as int] == name && self.reaches(root_set, t);
                    assert(marks[t as int]);
                }
            }
        }
        out
    }

    /// Taking the closure twice reaches the same names as taking it once.
    pub proof fn lemma_closure_idempotent(&self, roots: Set<Seq<char>>)
        requires
            self.wf(),
        ensures
            self.closure(self.closure(roots)) == self.closure(roots),
    {
        let once = self.closure(roots);
        let twice = self.closure(once);
        let adj = self.adjacency();
        let names = self.names();
        assert forall|name: Seq<char>| twice.contains(name) <==> once.contains(name) by {
            if twice.contains(name) {
                let t = choose|t: usize|
                    t < names.len() && names[t as int] == name && self.reaches(once, t);
                let p = choose|p: Seq<usize>|
                    is_path(adj, p) && self.root_nodes(once).contains(p[0]) && p.last() == t;
                let mid = p[0];
                assert(once.contains(names[mid as int]));
                let m = choose|m: usize|
                    m < names.len() && names[m as int] == names[mid as int] && self.reaches(
                        roots,
                        m,
                    );
                assert(m == mid);
                assert(reachable(adj, set![mid], t)) by {
                    assert(set![mid].contains(p[0]));
                }
                lemma_reachable_trans(adj, self.root_nodes(roots), mid, t);
                assert(self.reaches(roots, t));
            }
            if once.contains(name) {
                let t = choose|t: usize|
                    t < names.len() && names[t as int] == name && self.reaches(roots, t);
                assert(self.root_nodes(once).contains(t));
                lemma_seed_reachable(adj, self.root_nodes(once), t);
                assert(self.reaches(once, t));
            }
        }
        assert(twice =~= once);
    }

    /// A larger root set reaches at least the names that a smaller one does.
    pub proof fn lemma_closure_monotone(&self, small: Set<Seq<char>>, large: Set<Seq<char>>)
        requires
            small.subset_of(large),
        ensures
            self.closure(small).subset_of(self.closure(large)),
    {
        let adj = self.adjacency();
        let names = self.names();
        assert forall|name: Seq<char>| self.closure(small).contains(name) implies self.closure(
            large,
        ).contains(name) by {
            let t = choose|t: usize|
                t < names.len() && names[t as int] == name && self.reaches(small, t);
            assert(self.root_nodes(small).subset_of(self.root_nodes(large)));
            lemma_reachable_monotone(adj, self.root_nodes(small), self.root_nodes(large), t);
            assert(self.reaches(large, t));
        }
    }

    /// Whether package `k` is named in `used` or needed by a package named
    /// there.
    pub open spec fn is_used(&self, used: Set<Seq<char>>, k: int) -> bool {
        used.contains(self.names()[k]) || self.closure(used).contains(self.names()[k])
    }

    /// The bucket of package `k`.
    pub open spec fn class_of(&self, used: Set<Seq<char>>, include_dev: bool, k: int) -> UsageClass {
        classify(self.views()[k], self.is_used(used, k), include_dev)
    }

    /// For each package, whether it falls into `class` and, where
    /// `direct_only` is set, is a direct dependency.
    pub open spec fn class_marks(
        &self,
        used: Set<Seq<char>>,
        include_dev: bool,
        class: UsageClass,
        direct_only: bool,
    ) -> Seq<bool> {
        Seq::new(
            self.views().len(),
            |k: int|
                self.class_of(used, include_dev, k) == class && (direct_only
                    ==> self.views()[k].is_direct),
        )
    }

    /// A package is used exactly when the used names reach its node.
    proof fn lemma_used_is_reached(&self, used: Set<Seq<char>>, k: int)
        requires
            self.wf(),
            0 <= k < self.views().len(),
        ensures
            self.is_used(used, k) == self.reaches(used, k as usize),
    {
        let names = self.names();
        if used.contains(names[k]) {
            assert(self.root_nodes(used).contains(k as usize));
            lemma_seed_reachable(self.adjacency(), self.root_nodes(used), k as usize);
        }
        if self.closure(used).contains(names[k]) {
            let t = choose|t: usize|
                t < names.len() && names[t as int] == names[k] && self.reaches(used, t);
            assert(t == k);
        }
    }

    /// The packages at the places of `order` whose class is `class`, in that
    /// order.
    fn select(
        &self,
        order: &Vec<usize>,
        classes: &Vec<UsageClass>,
        class: UsageClass,
        direct_only: bool,
    ) -> (out: Vec<Package>)
        requires
            self.wf(),
            is_sorted_order(order@, self.names()),
            classes@.len() == self.views().len(),
        ensures
            is_selection(
                package_views(out@),
                self.views(),
                Seq::new(
                    self.views().len(),
                    |k: int| classes@[k] == class && (direct_only ==> self.views()[k].is_direct),
                ),
            ),
    {
        let ghost views = self.views();
        let ghost names = self.names();
        let ghost keep = Seq::new(
            views.len(),
            |k: int| classes@[k] == class && (direct_only ==> views[k].is_direct),
        );
        let mut out: Vec<Package> = Vec::new();
        let mut m: usize = 0;
        while m < order.len()
            invariant
                self.wf(),
                views == self.views(),
                names == self.names(),
                is_sorted_order(order@, names),
                classes@.len() == views.len(),
                keep == Seq::new(
                    views.len(),
                    |k: int| classes@[k] == class && (direct_only ==> views[k].is_direct),
                ),
                m <= order@.len(),
                forall|i: int|
                    0 <= i < out@.len() ==> picked_before(
                        views,
                        keep,
                        order@,
                        m as int,
                        (#[trigger] out@[i])@,
                    ),
                forall|w: int|
                    0 <= w < m && keep[order@[w] as int] ==> package_views(out@).contains(
                        #[trigger] views[order@[w] as int],
                    ),
                ascending(view_names(package_views(out@))),
            decreases order@.len() - m,
        {
            let k = order[m];
            let p = &self.packages[k];
            assert(p@ == views[k as int]);
            let ghost before = out@;
            proof {
                assert forall|i: int| 0 <= i < before.len() implies picked_before(
                    views,
                    keep,
                    order@,
                    m + 1,
                    (#[trigger] before[i])@,
                ) by {
                    assert(picked_before(views, keep, order@, m as int, before[i]@));
                    let w = choose|w: int|
                        0 <= w < m && keep[order@[w] as int] && views[(
                        #[trigger] order@[w]) as int] == before[i]@;
                    assert(0 <= w < m + 1);
                }
            }
            if classes[k] == class && (!direct_only || p.is_direct) {
                out.push(p.clone());
                proof {
                    assert(keep[order@[m as int] as int]);
                    assert(picked_before(views, keep, order@, m + 1, out@[before.len() as int]@));
                    let now = package_views(out@);
                    assert(now =~= package_views(before).push(views[k as int]));
                    assert(now[before.len() as int] == views[k as int]);
                    assert forall|w: int|
                        0 <= w < m + 1 && keep[order@[w] as int] implies now.contains(
                        #[trigger] views[order@[w] as int],
                    ) by {
                        if w < m {
                            let v = views[order@[w] as int];
                            assert(package_views(before).contains(v));
                            let i = choose|i: int|
                                0 <= i < before.len() && package_views(before)[i] == v;
                            assert(now[i] == v);
                        }
                    }
                    let ns = view_names(now);
                    assert forall|a: int, b: int| 0 <= a < b < ns.len() implies lex_lt(
                        ns[a],
                        ns[b],
                    ) by {
                        if b < before.len() {
                            assert(view_names(package_views(before))[a] == ns[a]);
                            assert(view_names(package_views(before))[b] == ns[b]);
                        } else {
                            assert(picked_before(views, keep, order@, m as int, before[a]@));
                            let w = choose|w: int|
                                0 <= w < m && keep[order@[w] as int] && views[(
                                #[trigger] order@[w]) as int] == before[a]@;
                            assert(lex_lt(names[order@[w] as int], names[order@[m as int] as int]));
                        }
                    }
                }
            }
            m += 1;
        }
        proof {
            let got = package_views(out@);
            assert forall|k: int| 0 <= k < views.len() && keep[k] implies got.contains(
                #[trigger] views[k],
            ) by {
                assert(order@.contains(k as usize));
                let w = choose|w: int| 0 <= w < order@.len() && order@[w] == k as usize;
                assert(got.contains(views[order@[w] as int]));
            }
            assert forall|i: int| 0 <= i < got.len() implies offers(views, keep, #[trigger] got[i]) by {
                assert(picked_before(views, keep, order@, order@.len() as int, out@[i]@));
                let w = choose|w: int|
                    0 <= w < order@.len() && keep[order@[w] as int] && views[(
                    #[trigger] order@[w]) as int] == out@[i]@;
                let k = order@[w] as int;
                assert(0 <= k < views.len() && keep[k] && views[k] == got[i]);
            }
        }
        out
    }

    /// Sorts every package into the bucket of its class. With `include_dev`
    /// unset, dev packages are left out of every bucket. Each bucket is
    /// ascending by name.
    pub fn analyze_usage(&self, used_packages: &Vec<String>, include_dev: bool) -> (r:
        UsageAnalysis)
        requires
            self.wf(),
        ensures
            is_selection(
                usage_views(r.used@),
                self.views(),
                self.class_marks(texts(used_packages@).to_set(), include_dev, UsageClass::Used, false),
            ),
            forall|i: int|
                0 <= i < r.used@.len() ==> (#[trigger] r.used@[i]).files@.len() == 0
                    && r.used@[i].import_count == (if texts(used_packages@).to_set().contains(
                    r.used@[i].package.name@,
                ) {
                    1usize
                } else {
                    0usize
                }),
            is_selection(
                package_views(r.unused@),
                self.views(),
                self.class_marks(
                    texts(used_packages@).to_set(),
                    include_dev,
                    UsageClass::Unused,
                    false,
                ),
            ),
            is_selection(
                package_views(r.unused_direct@),
                self.views(),
                self.class_marks(texts(used_packages@).to_set(), include_dev, UsageClass::Unused, true),
            ),
            is_selection(
                package_views(r.expected_unused@),
                self.views(),
                self.class_marks(
                    texts(used_packages@).to_set(),
                    include_dev,
                    UsageClass::ExpectedUnused,
                    false,
                ),
            ),
            is_selection(
                package_views(r.expected_unused_direct@),
                self.views(),
                self.class_marks(
                    texts(used_packages@).to_set(),
                    include_dev,
                    UsageClass::ExpectedUnused,
                    true,
                ),
            ),
            is_selection(
                package_views(r.dev_only@),
                self.views(),
                self.class_marks(
                    texts(used_packages@).to_set(),
                    include_dev,
                    UsageClass::DevOnly,
                    false,
                ),
            ),
    {
        let ghost used = texts(used_packages@).to_set();
        let ghost views = self.views();
        let ghost names = self.names();
        let n = self.packages.len();
        let flags = self.reach_flags(used_packages);
        assert(names =~= texts(self.names@));

        let mut keys: Vec<Vec<char>> = Vec::new();
        let mut classes: Vec<UsageClass> = Vec::new();
        let mut k: usize = 0;
        while k < n
            invariant
                self.wf(),
                n == self.packages@.len(),
                n == self.names@.len(),
                views == self.views(),
                names == self.names(),
                names == texts(self.names@),
                used == texts(used_packages@).to_set(),
                flags@ == self.reach_marks(used),
                k <= n,
                keys@.len() == k,
                classes@.len() == k,
                forall|j: int| 0 <= j < k ==> (#[trigger] keys@[j])@ == names[j],
                forall|j: int|
                    0 <= j < k ==> (#[trigger] classes@[j]) == self.class_of(used, include_dev, j),
            decreases n - k,
        {
            proof {
                self.lemma_used_is_reached(used, k as int);
            }
            keys.push(chars_of(self.names[k].as_str()));
            classes.push(classify_package(&self.packages[k], flags[k], include_dev));
            k += 1;
        }
        assert(char_rows(keys@) =~= names);
        let order = sorted_order(&keys);

        let used_packages_found = self.select(&order, &classes, UsageClass::Used, false);
        let unused = self.select(&order, &classes, UsageClass::Unused, false);
        let unused_direct = self.select(&order, &classes, UsageClass::Unused, true);
        let expected_unused = self.select(&order, &classes, UsageClass::ExpectedUnused, false);
        let expected_unused_direct = self.select(&order, &classes, UsageClass::ExpectedUnused, true);
        let dev_only = self.select(&order, &classes, UsageClass::DevOnly, false);
        proof {
            assert(Seq::new(views.len(), |k: int| classes@[k] == UsageClass::Used && (false ==> views[k].is_direct))
                =~= self.class_marks(used, include_dev, UsageClass::Used, false));
            assert(Seq::new(views.len(), |k: int| classes@[k] == UsageClass::Unused && (false ==> views[k].is_direct))
                =~= self.class_marks(used, include_dev, UsageClass::Unused, false));
            assert(Seq::new(views.len(), |k: int| classes@[k] == UsageClass::Unused && (true ==> views[k].is_direct))
                =~= self.class_marks(used, include_dev, UsageClass::Unused, true));
            assert(Seq::new(views.len(), |k: int| classes@[k] == UsageClass::ExpectedUnused && (false ==> views[k].is_direct))
                =~= self.class_marks(used, include_dev, UsageClass::ExpectedUnused, false));
            assert(Seq::new(views.len(), |k: int| classes@[k] == UsageClass::ExpectedUnused && (true ==> views[k].is_direct))
                =~= self.class_marks(used, include_dev, UsageClass::ExpectedUnused, true));
            assert(Seq::new(views.len(), |k: int| classes@[k] == UsageClass::DevOnly && (false ==> views[k].is_direct))
                =~= self.class_marks(used, include_dev, UsageClass::DevOnly, false));
        }

        let mut used_list: Vec<PackageUsage> = Vec::new();
        let mut i: usize = 0;
        while i < used_packages_found.len()
            invariant
                i <= used_packages_found@.len(),
                used == texts(used_packages@).to_set(),
                used_list@.len() == i,
                forall|j: int|
                    0 <= j < i ==> (#[trigger] used_list@[j]).package@ == used_packages_found@[j]@,
                forall|j: int|
                    0 <= j < i ==> (#[trigger] used_list@[j]).files@.len() == 0
                        && used_list@[j].import_count == (if used.contains(
                        used_list@[j].package.name@,
                    ) {
                        1usize
                    } else {
                        0usize
                    }),
            decreases used_packages_found@.len() - i,
        {
            let p = used_packages_found[i].clone();
            proof {
                lemma_lookup_sound(texts(used_packages@), p.name@);
            }
            let import_count: usize = match find_text(used_packages, p.name.as_str()) {
                Some(at) => {
                    assert(texts(used_packages@)[at as int] == p.name@);
                    1
                },
                None => 0,
            };
            used_list.push(PackageUsage { package: p, import_count, files: Vec::new() });
            i += 1;
        }
        assert(usage_views(used_list@) =~= package_views(used_packages_found@));
        UsageAnalysis {
            used: used_list,
            unused,
            expected_unused,
            dev_only,
            unused_direct,
            expected_unused_direct,
        }
    }

    /// A package that the used names reach is never put among the expected
    /// unused ones, whatever the ruleset says of its name.
    pub proof fn lemma_used_before_expected(&self, used: Set<Seq<char>>, include_dev: bool, k: int)
        requires
            0 <= k < self.views().len(),
            self.is_used(used, k),
        ensures
            self.class_of(used, include_dev, k) == UsageClass::Used || self.class_of(
                used,
                include_dev,
                k,
            ) == UsageClass::Excluded,
            self.class_of(used, include_dev, k) != UsageClass::ExpectedUnused,
    {
    }

    /// The names of the nodes of `p`.
    pub open spec fn chain_names(&self, p: Seq<usize>) -> Seq<Seq<char>> {
        Seq::new(p.len(), |i: int| self.names()[p[i] as int])
    }

    /// `p` runs along dependency edges to `target`, through packages that are
    /// not direct dependencies, and visits no node twice.
    pub open spec fn is_tail(&self, target: usize, p: Seq<usize>) -> bool {
        &&& p.len() > 0
        &&& p.last() == target
        &&& forall|i: int| 0 <= i < p.len() ==> (#[trigger] p[i]) < self.views().len()
        &&& forall|i: int| 1 <= i < p.len() ==> !self.views()[(#[trigger] p[i]) as int].is_direct
        &&& forall|i: int|
            0 <= i < p.len() - 1 ==> self.adjacency()[p[i] as int].contains(#[trigger] p[i + 1])
        &&& forall|i: int, j: int| 0 <= i < j < p.len() ==> p[i] != p[j]
    }

    /// `p` is a chain that explains `target`: it starts at a direct
    /// dependency, follows dependency edges through packages that are not
    /// direct, ends at `target` and visits no node twice.
    pub open spec fn is_chain(&self, target: usize, p: Seq<usize>) -> bool {
        self.is_tail(target, p) && self.views()[p[0] as int].is_direct
    }

    /// `chain` holds the names along a chain that explains `target`.
    pub open spec fn names_a_chain(&self, target: usize, chain: Seq<Seq<char>>) -> bool {
        exists|p: Seq<usize>| self.is_chain(target, p) && self.chain_names(p) == chain
    }

    /// Some package called `name` is a dev dependency.
    pub open spec fn dev_named(&self, name: Seq<char>) -> bool {
        exists|k: int|
            0 <= k < self.views().len() && #[trigger] self.names()[k] == name
                && self.views()[k].is_dev
    }

    /// What an explanation of the package at node `target` holds.
    pub open spec fn explains(&self, target: usize, e: PackageExplanation) -> bool {
        let chains = e.dependency_chains@;
        &&& e.package@ == self.views()[target as int]
        &&& self.views()[target as int].is_direct ==> chains.len() == 1 && texts(chains[0]@)
            == seq![self.names()[target as int]]
        &&& chains.len() <= 5
        &&& forall|i: int|
            0 <= i < chains.len() ==> self.names_a_chain(target, texts((#[trigger] chains[i])@))
        &&& forall|i: int| 0 <= i < chains.len() ==> distinct(texts((#[trigger] chains[i])@))
        &&& forall|i: int, j: int|
            0 <= i < j < chains.len() ==> chains[i]@.len() <= chains[j]@.len()
        &&& forall|i: int, j: int|
            0 <= i < j < chains.len() ==> texts(chains[i]@) != texts(chains[j]@)
        &&& e.is_dev_path == exists|i: int|
            0 <= i < chains.len() && self.dev_named(#[trigger] texts(chains[i]@)[0])
        &&& forall|p: Seq<usize>| #[trigger] self.is_chain(target, p) ==> self.covers(chains, p)
        &&& chains.len() == first_five(self.discovered(target)).len()
        &&& forall|i: int|
            0 <= i < chains.len() ==> texts((#[trigger] chains[i])@) == self.chain_names(
                first_five(self.discovered(target))[i],
            )
    }

    /// The chain `p` is among `chains`, or `chains` holds five chains none
    /// of which is longer than `p`.
    pub open spec fn covers(&self, chains: Seq<Vec<String>>, p: Seq<usize>) -> bool {
        (exists|i: int|
            0 <= i < chains.len() && texts((#[trigger] chains[i])@) == self.chain_names(p)) || (
        chains.len() == 5 && forall|i: int|
            0 <= i < chains.len() ==> (#[trigger] chains[i])@.len() <= p.len())
    }

    /// A node listed as an incoming neighbour depends on the node.
    proof fn lemma_incoming(&self, cur: usize, nb: usize)
        requires
            self.wf(),
            cur < self.views().len(),
            neighbors_of(self.edges(), cur, false).contains(nb),
        ensures
            nb < self.views().len(),
            self.adjacency()[nb as int].contains(cur),
    {
        let edges = self.edges();
        lemma_neighbors_members(edges, cur, false);
        let j = choose|j: int| 0 <= j < edges.len() && edges[j] == (nb, cur);
        lemma_dep_edges_meaning(self.views(), self.views().len());
        assert(edges[j].0 < self.views().len());
        lemma_neighbors_members(edges, nb, true);
    }

    /// Putting a dependant in front of a tail gives a tail again.
    proof fn lemma_extend(&self, target: usize, p: Seq<usize>, nb: usize)
        requires
            self.is_tail(target, p),
            !self.views()[p[0] as int].is_direct,
            nb < self.views().len(),
            self.adjacency()[nb as int].contains(p[0]),
            !p.contains(nb),
        ensures
            self.is_tail(target, seq![nb] + p),
    {
        let q = seq![nb] + p;
        assert forall|i: int| 0 <= i < q.len() implies (#[trigger] q[i]) < self.views().len() by {
            if i > 0 {
                assert(q[i] == p[i - 1]);
            }
        }
        assert forall|i: int| 1 <= i < q.len() implies !self.views()[(
        #[trigger] q[i]) as int].is_direct by {
            assert(q[i] == p[i - 1]);
        }
        assert forall|i: int| 0 <= i < q.len() - 1 implies self.adjacency()[q[i] as int].contains(
            #[trigger] q[i + 1],
        ) by {
            assert(q[i + 1] == p[i]);
            if i > 0 {
                assert(q[i] == p[i - 1]);
                assert(self.adjacency()[p[i - 1] as int].contains(p[i - 1 + 1]));
            }
        }
        assert forall|i: int, j: int| 0 <= i < j < q.len() implies q[i] != q[j] by {
            assert(q[j] == p[j - 1]);
            if i > 0 {
                assert(q[i] == p[i - 1]);
            } else {
                assert(p.contains(p[j - 1]));
            }
        }
        assert(q.last() == p.last());
    }

    /// The nodes that depend on node `v`, the most recently added edge first.
    pub open spec fn dependants_of(&self, v: usize) -> Seq<usize> {
        neighbors_of(self.edges(), v, false)
    }

    /// One step of the search, for one path and the nodes `dependants` that
    /// depend on its first node, in their order: a node that the path holds
    /// is passed over; a direct dependency ends a chain, which is kept unless
    /// it is already there; any other node gives a longer path to go on from.
    /// The result holds the paths to go on from, then the chains.
    pub open spec fn extend(
        &self,
        path: Seq<usize>,
        dependants: Seq<usize>,
        next: Seq<Seq<usize>>,
        chains: Seq<Seq<usize>>,
    ) -> (Seq<Seq<usize>>, Seq<Seq<usize>>)
        decreases dependants.len(),
    {
        if dependants.len() == 0 {
            (next, chains)
        } else {
            let before = self.extend(path, dependants.drop_last(), next, chains);
            let node = dependants.last();
            let longer = seq![node] + path;
            if path.contains(node) {
                before
            } else if self.views()[node as int].is_direct {
                if before.1.contains(longer) {
                    before
                } else {
                    (before.0, before.1.push(longer))
                }
            } else {
                (before.0.push(longer), before.1)
            }
        }
    }

    /// One level of the search: every path of `frontier`, in order, is
    /// extended by the nodes that depend on its first node.
    pub open spec fn level(&self, frontier: Seq<Seq<usize>>, chains: Seq<Seq<usize>>) -> (
        Seq<Seq<usize>>,
        Seq<Seq<usize>>,
    )
        decreases frontier.len(),
    {
        if frontier.len() == 0 {
            (Seq::empty(), chains)
        } else {
            let before = self.level(frontier.drop_last(), chains);
            let path = frontier.last();
            self.extend(path, self.dependants_of(path[0]), before.0, before.1)
        }
    }

    /// The search after `depth` levels, from the path that holds `target`
    /// alone: the paths to go on from, then the chains found so far.
    pub open spec fn search(&self, target: usize, depth: nat) -> (
        Seq<Seq<usize>>,
        Seq<Seq<usize>>,
    )
        decreases depth,
    {
        if depth == 0 {
            (seq![seq![target]], Seq::empty())
        } else {
            let before = self.search(target, (depth - 1) as nat);
            self.level(before.0, before.1)
        }
    }

    /// The level, from `from` on, at which the search ends: the first with
    /// no path to go on from, and no later than the number of nodes.
    pub open spec fn search_depth(&self, target: usize, from: nat) -> nat
        decreases self.views().len() - from,
    {
        if from >= self.views().len() || self.search(target, from).0.len() == 0 {
            from
        } else {
            self.search_depth(target, from + 1)
        }
    }

    /// The chains that explain `target`, in the order in which the search
    /// finds them: shorter chains first.
    pub open spec fn discovered(&self, target: usize) -> Seq<Seq<usize>> {
        if self.views()[target as int].is_direct {
            seq![seq![target]]
        } else {
            self.search(target, self.search_depth(target, 0)).1
        }
    }

    /// A tail that no direct dependency heads: the search goes on from it.
    pub open spec fn open_tail(&self, target: usize, p: Seq<usize>) -> bool {
        self.is_tail(target, p) && !self.views()[p[0] as int].is_direct
    }

    /// What follows the first node of a tail or chain is a tail that no
    /// direct dependency heads.
    proof fn lemma_rest_is_open(&self, target: usize, q: Seq<usize>)
        requires
            self.is_tail(target, q),
            q.len() >= 2,
        ensures
            self.open_tail(target, q.drop_first()),
            q =~= seq![q[0]] + q.drop_first(),
            !q.drop_first().contains(q[0]),
            q[0] < self.views().len(),
            self.adjacency()[q[0] as int].contains(q.drop_first()[0]),
    {
        let r = q.drop_first();
        assert forall|i: int| 0 <= i < r.len() implies (#[trigger] r[i]) < self.views().len() by {
            assert(r[i] == q[i + 1]);
        }
        assert forall|i: int| 1 <= i < r.len() implies !self.views()[(
        #[trigger] r[i]) as int].is_direct by {
            assert(r[i] == q[i + 1]);
        }
        assert forall|i: int| 0 <= i < r.len() - 1 implies self.adjacency()[r[i] as int].contains(
            #[trigger] r[i + 1],
        ) by {
            assert(r[i] == q[i + 1]);
            assert(r[i + 1] == q[i + 1 + 1]);
        }
        assert forall|i: int, j: int| 0 <= i < j < r.len() implies r[i] != r[j] by {
            assert(r[i] == q[i + 1] && r[j] == q[j + 1]);
        }
        assert(r.last() == q.last());
        assert(r[0] == q[1]);
        assert(self.adjacency()[q[0] as int].contains(q[1]));
        if r.contains(q[0]) {
            let k = choose|k: int| 0 <= k < r.len() && r[k] == q[0];
            assert(q[k + 1] == q[0]);
        }
    }

    /// The part of a tail from place `k` on is a tail that no direct
    /// dependency heads.
    proof fn lemma_suffix_is_open(&self, target: usize, q: Seq<usize>, k: int)
        requires
            self.is_tail(target, q),
            1 <= k < q.len(),
        ensures
            self.open_tail(target, q.skip(k)),
        decreases k,
    {
        self.lemma_rest_is_open(target, q);
        if k > 1 {
            self.lemma_suffix_is_open(target, q.drop_first(), k - 1);
            assert(q.drop_first().skip(k - 1) =~= q.skip(k));
        } else {
            assert(q.skip(1) =~= q.drop_first());
        }
    }

    /// A tail visits no node twice, so it is no longer than the graph has
    /// nodes.
    proof fn lemma_tail_length(&self, target: usize, q: Seq<usize>)
        requires
            self.is_tail(target, q),
        ensures
            q.len() <= self.views().len(),
    {
        lemma_distinct_below(q, self.views().len());
    }

    /// The one chain that explains a direct dependency is the dependency
    /// itself.
    proof fn lemma_direct_chain(&self, target: usize, c: Seq<usize>)
        requires
            target < self.views().len(),
            self.views()[target as int].is_direct,
            self.is_chain(target, c),
        ensures
            c == seq![target],
    {
        if c.len() >= 2 {
            assert(!self.views()[c[c.len() - 1] as int].is_direct);
        }
        assert(c =~= seq![target]);
    }

    /// The chains that explain the package at node `target`, shortest first,
    /// at most five. A direct dependency explains itself. Otherwise the
    /// search runs backwards along dependency edges, level by level, never
    /// through a node that the path already holds, and stops each path at
    /// the first direct dependency it meets.
    fn find_dependency_chains(&self, target: usize) -> (chains: Vec<Vec<usize>>)
        requires
            self.wf(),
            target < self.views().len(),
        ensures
            self.views()[target as int].is_direct ==> chains@.len() == 1 && chains@[0]@
                == seq![target],
            chains@.len() <= 5,
            forall|i: int| 0 <= i < chains@.len() ==> self.is_chain(target, (#[trigger] chains@[i])@),
            forall|i: int, j: int|
                0 <= i < j < chains@.len() ==> chains@[i]@.len() <= chains@[j]@.len(),
            forall|i: int, j: int| 0 <= i < j < chains@.len() ==> chains@[i]@ != chains@[j]@,
            forall|c: Seq<usize>| #[trigger]
                self.is_chain(target, c) ==> listed(chains@, c) || (chains@.len() == 5
                    && no_longer_than(chains@, c.len())),
            paths_of(chains@) == first_five(self.discovered(target)),
    {
        let n = self.packages.len();
        let mut chains: Vec<Vec<usize>> = Vec::new();
        let mut start: Vec<usize> = Vec::new();
        start.push(target);
        assert(start@ =~= seq![target]);
        if self.packages[target].is_direct {
            chains.push(start);
            proof {
                assert(paths_of(chains@) =~= seq![seq![target]]);
                assert forall|c: Seq<usize>| #[trigger] self.is_chain(target, c) implies listed(
                    chains@,
                    c,
                ) by {
                    self.lemma_direct_chain(target, c);
                    assert(chains@[0]@ == c);
                }
            }
            return chains;
        }
        let mut frontier: Vec<Vec<usize>> = Vec::new();
        frontier.push(start);
        let mut depth: usize = 0;
        proof {
            assert(paths_of(frontier@) =~= seq![seq![target]]);
            assert(paths_of(chains@) =~= Seq::<Seq<usize>>::empty());
            assert forall|q: Seq<usize>| #[trigger]
                self.open_tail(target, q) && q.len() == 1 implies listed(frontier@, q) by {
                assert(q =~= seq![target]);
                assert(frontier@[0]@ == q);
            }
            assert forall|c: Seq<usize>| #[trigger]
                self.is_chain(target, c) && c.len() <= 1 implies listed(chains@, c) by {
                assert(c[0] == target);
            }
        }
        while frontier.len() > 0 && depth < n
            invariant
                self.wf(),
                n == self.views().len(),
                target < n,
                depth <= n,
                forall|f: int|
                    0 <= f < frontier@.len() ==> self.is_tail(target, (#[trigger] frontier@[f])@)
                        && !self.views()[frontier@[f]@[0] as int].is_direct && frontier@[f]@.len()
                        == depth + 1,
                forall|i: int|
                    0 <= i < chains@.len() ==> self.is_chain(target, (#[trigger] chains@[i])@)
                        && chains@[i]@.len() <= depth + 1,
                forall|i: int, j: int|
                    0 <= i < j < chains@.len() ==> chains@[i]@.len() <= chains@[j]@.len(),
                forall|i: int, j: int| 0 <= i < j < chains@.len() ==> chains@[i]@ != chains@[j]@,
                forall|q: Seq<usize>| #[trigger]
                    self.open_tail(target, q) && q.len() == depth + 1 ==> listed(frontier@, q),
                forall|c: Seq<usize>| #[trigger]
                    self.is_chain(target, c) && c.len() <= depth + 1 ==> listed(chains@, c),
                (paths_of(frontier@), paths_of(chains@)) == self.search(target, depth as nat),
                self.search_depth(target, 0) == self.search_depth(target, depth as nat),
            decreases n - depth,
        {
            let mut next: Vec<Vec<usize>> = Vec::new();
            let mut f: usize = 0;
            let ghost level_start = paths_of(chains@);
            let ghost fronts = paths_of(frontier@);
            proof {
                assert(fronts.take(0) =~= Seq::<Seq<usize>>::empty());
                assert(paths_of(next@) =~= Seq::<Seq<usize>>::empty());
            }
            while f < frontier.len()
                invariant
                    self.wf(),
                    n == self.views().len(),
                    target < n,
                    depth < n,
                    f <= frontier@.len(),
                    forall|f: int|
                        0 <= f < frontier@.len() ==> self.is_tail(
                            target,
                            (#[trigger] frontier@[f])@,
                        ) && !self.views()[frontier@[f]@[0] as int].is_direct
                            && frontier@[f]@.len() == depth + 1,
                    forall|f: int|
                        0 <= f < next@.len() ==> self.is_tail(target, (#[trigger] next@[f])@)
                            && !self.views()[next@[f]@[0] as int].is_direct && next@[f]@.len()
                            == depth + 2,
                    forall|i: int|
                        0 <= i < chains@.len() ==> self.is_chain(target, (#[trigger] chains@[i])@)
                            && chains@[i]@.len() <= depth + 2,
                    forall|i: int, j: int|
                        0 <= i < j < chains@.len() ==> chains@[i]@.len() <= chains@[j]@.len(),
                    forall|i: int, j: int|
                        0 <= i < j < chains@.len() ==> chains@[i]@ != chains@[j]@,
                    forall|q: Seq<usize>| #[trigger]
                        self.open_tail(target, q) && q.len() == depth + 1 ==> listed(frontier@, q),
                    forall|q: Seq<usize>| #[trigger]
                        self.open_tail(target, q) && q.len() == depth + 2 && listed_before(
                            frontier@,
                            f as int,
                            q.drop_first(),
                        ) ==> listed(next@, q),
                    forall|c: Seq<usize>| #[trigger]
                        self.is_chain(target, c) && (c.len() <= depth + 1 || (c.len() == depth + 2
                            && listed_before(frontier@, f as int, c.drop_first()))) ==> listed(
                            chains@,
                            c,
                        ),
                    fronts == paths_of(frontier@),
                    (paths_of(next@), paths_of(chains@)) == self.level(
                        fronts.take(f as int),
                        level_start,
                    ),
                decreases frontier@.len() - f,
            {
                let ghost step_start = (paths_of(next@), paths_of(chains@));
                let path = &frontier[f];
                let current = path[0];
                assert(current < n);
                proof {
                    self.lemma_size();
                }
                let dependants = graph_neighbors(&self.graph, current, false);
                let mut d: usize = 0;
                proof {
                    assert(dependants@.take(0) =~= Seq::<usize>::empty());
                }
                while d < dependants.len()
                    invariant
                        (paths_of(next@), paths_of(chains@)) == self.extend(
                            path@,
                            dependants@.take(d as int),
                            step_start.0,
                            step_start.1,
                        ),
                        self.wf(),
                        n == self.views().len(),
                        target < n,
                        depth < n,
                        f < frontier@.len(),
                        path == &frontier@[f as int],
                        self.is_tail(target, path@),
                        !self.views()[path@[0] as int].is_direct,
                        path@.len() == depth + 1,
                        current == path@[0],
                        dependants@ == neighbors_of(self.edges(), current, false),
                        d <= dependants@.len(),
                        forall|f: int|
                            0 <= f < next@.len() ==> self.is_tail(target, (#[trigger] next@[f])@)
                                && !self.views()[next@[f]@[0] as int].is_direct
                                && next@[f]@.len() == depth + 2,
                        forall|i: int|
                            0 <= i < chains@.len() ==> self.is_chain(
                                target,
                                (#[trigger] chains@[i])@,
                            ) && chains@[i]@.len() <= depth + 2,
                        forall|i: int, j: int|
                            0 <= i < j < chains@.len() ==> chains@[i]@.len() <= chains@[j]@.len(),
                        forall|i: int, j: int|
                            0 <= i < j < chains@.len() ==> chains@[i]@ != chains@[j]@,
                        forall|q: Seq<usize>| #[trigger]
                            self.open_tail(target, q) && q.len() == depth + 2 && listed_before(
                                frontier@,
                                f as int,
                                q.drop_first(),
                            ) ==> listed(next@, q),
                        forall|c: Seq<usize>| #[trigger]
                            self.is_chain(target, c) && (c.len() <= depth + 1 || (c.len() == depth
                                + 2 && listed_before(frontier@, f as int, c.drop_first())))
                                ==> listed(chains@, c),
                        forall|q: Seq<usize>| #[trigger]
                            self.open_tail(target, q) && q.len() == depth + 2 && q.drop_first()
                                == path@ && seen_first(dependants@, d as int, q[0]) ==> listed(
                                next@,
                                q,
                            ),
                        forall|c: Seq<usize>| #[trigger]
                            self.is_chain(target, c) && c.len() == depth + 2 && c.drop_first()
                                == path@ && seen_first(dependants@, d as int, c[0]) ==> listed(
                                chains@,
                                c,
                            ),
                    decreases dependants@.len() - d,
                {
                    let nb = dependants[d];
                    let ghost old_next = next@;
                    let ghost old_chains = chains@;
                    proof {
                        assert(dependants@.contains(nb));
                        self.lemma_incoming(current, nb);
                    }
                    let on_path = holds_node(path, nb);
                    let mut is_direct = false;
                    if !on_path {
                        let longer = put_in_front(nb, path);
                        proof {
                            self.lemma_extend(target, path@, nb);
                        }
                        is_direct = self.packages[nb].is_direct;
                        if is_direct {
                            if !holds_path(&chains, &longer) {
                                chains.push(longer);
                            }
                        } else {
                            next.push(longer);
                        }
                    }
                    proof {
                        assert(dependants@.take(d + 1).drop_last() =~= dependants@.take(d as int));
                        assert(dependants@.take(d + 1).last() == nb);
                        assert(listed(old_chains, seq![nb] + path@) == paths_of(
                            old_chains,
                        ).contains(seq![nb] + path@)) by {
                            let want = seq![nb] + path@;
                            if listed(old_chains, want) {
                                let i = choose|i: int|
                                    0 <= i < old_chains.len() && (#[trigger] old_chains[i])@ == want;
                                assert(paths_of(old_chains)[i] == want);
                            }
                            if paths_of(old_chains).contains(want) {
                                let i = choose|i: int|
                                    0 <= i < old_chains.len() && paths_of(old_chains)[i] == want;
                                assert(old_chains[i]@ == want);
                            }
                        }
                        if next@.len() > old_next.len() {
                            assert(paths_of(next@) =~= paths_of(old_next).push(seq![nb] + path@));
                        } else {
                            assert(paths_of(next@) =~= paths_of(old_next));
                        }
                        if chains@.len() > old_chains.len() {
                            assert(paths_of(chains@) =~= paths_of(old_chains).push(
                                seq![nb] + path@,
                            ));
                        } else {
                            assert(paths_of(chains@) =~= paths_of(old_chains));
                        }
                        lemma_still_listed(old_next, next@);
                        lemma_still_listed(old_chains, chains@);
                        let step = seq![nb] + path@;
                        if !on_path {
                            if is_direct {
                                assert(listed(chains@, step)) by {
                                    if !listed(old_chains, step) {
                                        assert(chains@[old_chains.len() as int]@ == step);
                                    }
                                }
                            } else {
                                assert(next@[old_next.len() as int]@ == step);
                                assert(listed(next@, step));
                            }
                        }
                        assert forall|q: Seq<usize>| #[trigger]
                            self.open_tail(target, q) && q.len() == depth + 2 && q.drop_first()
                                == path@ && seen_first(dependants@, d + 1, q[0]) implies listed(
                            next@,
                            q,
                        ) by {
                            if seen_first(dependants@, d as int, q[0]) {
                                assert(listed(old_next, q));
                            } else {
                                let j = choose|j: int|
                                    0 <= j < d + 1 && #[trigger] dependants@[j] == q[0];
                                assert(j == d);
                                self.lemma_rest_is_open(target, q);
                                assert(q =~= step);
                            }
                        }
                        assert forall|c: Seq<usize>| #[trigger]
                            self.is_chain(target, c) && c.len() == depth + 2 && c.drop_first()
                                == path@ && seen_first(dependants@, d + 1, c[0]) implies listed(
                            chains@,
                            c,
                        ) by {
                            if seen_first(dependants@, d as int, c[0]) {
                                assert(listed(old_chains, c));
                            } else {
                                let j = choose|j: int|
                                    0 <= j < d + 1 && #[trigger] dependants@[j] == c[0];
                                assert(j == d);
                                self.lemma_rest_is_open(target, c);
                                assert(c =~= step);
                            }
                        }
                    }
                    d += 1;
                }
                proof {
                    assert(dependants@.take(dependants@.len() as int) =~= dependants@);
                    assert(fronts.take(f + 1).drop_last() =~= fronts.take(f as int));
                    assert(fronts.take(f + 1).last() == path@);
                    assert forall|q: Seq<usize>| #[trigger]
                        self.open_tail(target, q) && q.len() == depth + 2 && listed_before(
                            frontier@,
                            f + 1,
                            q.drop_first(),
                        ) implies listed(next@, q) by {
                        if !listed_before(frontier@, f as int, q.drop_first()) {
                            let i = choose|i: int|
                                0 <= i < f + 1 && (#[trigger] frontier@[i])@ == q.drop_first();
                            assert(i == f);
                            self.lemma_rest_is_open(target, q);
                            self.lemma_dependant_listed(current, q[0]);
                            let j = choose|j: int|
                                0 <= j < dependants@.len() && dependants@[j] == q[0];
                            assert(seen_first(dependants@, dependants@.len() as int, q[0]));
                        }
                    }
                    assert forall|c: Seq<usize>| #[trigger]
                        self.is_chain(target, c) && (c.len() <= depth + 1 || (c.len() == depth + 2
                            && listed_before(frontier@, f + 1, c.drop_first()))) implies listed(
                        chains@,
                        c,
                    ) by {
                        if c.len() == depth + 2 && !listed_before(
                            frontier@,
                            f as int,
                            c.drop_first(),
                        ) {
                            let i = choose|i: int|
                                0 <= i < f + 1 && (#[trigger] frontier@[i])@ == c.drop_first();
                            assert(i == f);
                            self.lemma_rest_is_open(target, c);
                            self.lemma_dependant_listed(current, c[0]);
                            let j = choose|j: int|
                                0 <= j < dependants@.len() && dependants@[j] == c[0];
                            assert(seen_first(dependants@, dependants@.len() as int, c[0]));
                        }
                    }
                }
                f += 1;
            }
            proof {
                assert(fronts.take(frontier@.len() as int) =~= fronts);
                assert(self.search(target, (depth + 1) as nat) == self.level(fronts, level_start));
                assert forall|q: Seq<usize>| #[trigger]
                    self.open_tail(target, q) && q.len() == depth + 2 implies listed(next@, q) by {
                    self.lemma_rest_is_open(target, q);
                    assert(self.open_tail(target, q.drop_first()));
                    assert(listed(frontier@, q.drop_first()));
                    let i = choose|i: int|
                        0 <= i < frontier@.len() && (#[trigger] frontier@[i])@ == q.drop_first();
                    assert(listed_before(frontier@, frontier@.len() as int, q.drop_first()));
                }
                assert forall|c: Seq<usize>| #[trigger]
                    self.is_chain(target, c) && c.len() <= depth + 2 implies listed(chains@, c) by {
                    if c.len() == depth + 2 {
                        self.lemma_rest_is_open(target, c);
                        assert(self.open_tail(target, c.drop_first()));
                        assert(listed(frontier@, c.drop_first()));
                        let i = choose|i: int|
                            0 <= i < frontier@.len() && (#[trigger] frontier@[i])@
                                == c.drop_first();
                        assert(listed_before(frontier@, frontier@.len() as int, c.drop_first()));
                    }
                }
            }
            frontier = next;
            depth += 1;
        }
        let ghost all = chains@;
        proof {
            assert forall|c: Seq<usize>| #[trigger] self.is_chain(target, c) implies listed(
                all,
                c,
            ) by {
                if c.len() > depth + 1 {
                    self.lemma_tail_length(target, c);
                    let k = c.len() - (depth + 1);
                    self.lemma_suffix_is_open(target, c, k);
                    assert(c.skip(k).len() == depth + 1);
                    assert(listed(frontier@, c.skip(k)));
                }
            }
        }
        proof {
            assert(self.search_depth(target, depth as nat) == depth);
            assert(paths_of(all) == self.discovered(target));
        }
        chains.truncate(5);
        proof {
            assert(paths_of(chains@) =~= first_five(paths_of(all)));
            assert forall|c: Seq<usize>| #[trigger] self.is_chain(target, c) implies listed(
                chains@,
                c,
            ) || (chains@.len() == 5 && no_longer_than(chains@, c.len())) by {
                assert(listed(all, c));
                let i = choose|i: int| 0 <= i < all.len() && (#[trigger] all[i])@ == c;
                if i < 5 {
                    assert(chains@[i]@ == c);
                } else {
                    assert forall|j: int| 0 <= j < chains@.len() implies (#[trigger] chains@[j])@.len()
                        <= c.len() by {
                        assert(chains@[j] == all[j]);
                        assert(all[j]@.len() <= all[i]@.len());
                    }
                }
            }
        }
        chains
    }

    /// A node that depends on `cur` is listed among its incoming neighbours.
    proof fn lemma_dependant_listed(&self, cur: usize, nb: usize)
        requires
            self.wf(),
            cur < self.views().len(),
            nb < self.views().len(),
            self.adjacency()[nb as int].contains(cur),
        ensures
            neighbors_of(self.edges(), cur, false).contains(nb),
    {
        let edges = self.edges();
        lemma_neighbors_members(edges, nb, true);
        lemma_neighbors_members(edges, cur, false);
    }

    /// Explains why the package called `package_name` is installed: the
    /// shortest chains from a direct dependency to it, at most five. `None`
    /// exactly when the graph has no package of that name.
    pub fn explain_package(&self, package_name: &str) -> (r: Option<PackageExplanation>)
        requires
            self.wf(),
        ensures
            match r {
                Some(e) => match lookup(self.names(), package_name@) {
                    Some(t) => self.explains(t as usize, e),
                    None => false,
                },
                None => !self.names().contains(package_name@),
            },
    {
        let ghost names = self.names();
        let ghost views = self.views();
        proof {
            assert(names =~= texts(self.names@));
            lemma_lookup_sound(names, package_name@);
        }
        let target = match find_text(&self.names, package_name) {
            Some(t) => t,
            None => {
                return None;
            },
        };
        let paths = self.find_dependency_chains(target);
        let mut chains: Vec<Vec<String>> = Vec::new();
        let mut is_dev_path = false;
        let mut i: usize = 0;
        while i < paths.len()
            invariant
                self.wf(),
                names == self.names(),
                views == self.views(),
                names == texts(self.names@),
                target < views.len(),
                i <= paths@.len(),
                chains@.len() == i,
                forall|j: int|
                    0 <= j < paths@.len() ==> self.is_chain(target, (#[trigger] paths@[j])@),
                forall|j: int|
                    0 <= j < i ==> texts((#[trigger] chains@[j])@) == self.chain_names(paths@[j]@),
                is_dev_path == exists|j: int|
                    0 <= j < i && views[(#[trigger] paths@[j])@[0] as int].is_dev,
            decreases paths@.len() - i,
        {
            let path = &paths[i];
            assert(self.is_chain(target, path@));
            let mut chain: Vec<String> = Vec::new();
            let mut k: usize = 0;
            while k < path.len()
                invariant
                    self.wf(),
                    names == self.names(),
                    names == texts(self.names@),
                    k <= path@.len(),
                    chain@.len() == k,
                    forall|x: int| 0 <= x < path@.len() ==> (#[trigger] path@[x]) < names.len(),
                    forall|x: int| 0 <= x < k ==> (#[trigger] chain@[x])@ == names[path@[x] as int],
                decreases path@.len() - k,
            {
                chain.push(graph_node_name(&self.graph, path[k]).clone());
                k += 1;
            }
            assert(texts(chain@) =~= self.chain_names(path@));
            let first_is_dev = self.packages[path[0]].is_dev;
            assert(first_is_dev == views[paths@[i as int]@[0] as int].is_dev);
            if first_is_dev {
                is_dev_path = true;
            }
            chains.push(chain);
            i += 1;
        }
        let e = PackageExplanation {
            package: self.packages[target].clone(),
            dependency_chains: chains,
            is_dev_path,
        };
        proof {
            let cs = e.dependency_chains@;
            assert forall|a: int| 0 <= a < cs.len() implies self.names_a_chain(
                target,
                texts((#[trigger] cs[a])@),
            ) by {
                assert(self.is_chain(target, paths@[a]@));
            }
            assert forall|a: int| 0 <= a < cs.len() implies distinct(texts((#[trigger] cs[a])@)) by {
                let p = paths@[a]@;
                assert(self.is_chain(target, p));
                let c = texts(cs[a]@);
                assert forall|x: int, y: int| 0 <= x < y < c.len() implies c[x] != c[y] by {
                    assert(c[x] == names[p[x] as int]);
                    assert(c[y] == names[p[y] as int]);
                    assert(p[x] != p[y]);
                }
            }
            assert forall|a: int, b: int| 0 <= a < b < cs.len() implies cs[a]@.len()
                <= cs[b]@.len() by {
                assert(texts(cs[a]@).len() == paths@[a]@.len());
                assert(texts(cs[b]@).len() == paths@[b]@.len());
            }
            assert forall|a: int, b: int| 0 <= a < b < cs.len() implies texts(cs[a]@) != texts(
                cs[b]@,
            ) by {
                let p = paths@[a]@;
                let q = paths@[b]@;
                assert(self.is_chain(target, p));
                assert(self.is_chain(target, q));
                if texts(cs[a]@) == texts(cs[b]@) {
                    assert(p.len() == q.len());
                    assert forall|x: int| 0 <= x < p.len() implies p[x] == q[x] by {
                        assert(texts(cs[a]@)[x] == names[p[x] as int]);
                        assert(texts(cs[b]@)[x] == names[q[x] as int]);
                    }
                    assert(p =~= q);
                }
            }
            if views[target as int].is_direct {
                assert(texts(cs[0]@) =~= seq![names[target as int]]);
            }
            assert(cs.len() == paths_of(paths@).len());
            assert forall|i: int| 0 <= i < cs.len() implies texts((#[trigger] cs[i])@)
                == self.chain_names(first_five(self.discovered(target))[i]) by {
                assert(paths_of(paths@)[i] == paths@[i]@);
            }
            assert forall|p: Seq<usize>| #[trigger] self.is_chain(target, p) implies self.covers(
                cs,
                p,
            ) by {
                if listed(paths@, p) {
                    let j = choose|j: int| 0 <= j < paths@.len() && (#[trigger] paths@[j])@ == p;
                    assert(texts(cs[j]@) == self.chain_names(p));
                } else {
                    assert forall|j: int| 0 <= j < cs.len() implies (#[trigger] cs[j])@.len()
                        <= p.len() by {
                        assert(texts(cs[j]@).len() == paths@[j]@.len());
                    }
                }
            }
            assert(e.is_dev_path == exists|a: int|
                0 <= a < cs.len() && self.dev_named(#[trigger] texts(cs[a]@)[0])) by {
                if e.is_dev_path {
                    let j = choose|j: int|
                        0 <= j < paths@.len() && views[(#[trigger] paths@[j])@[0] as int].is_dev;
                    assert(self.is_chain(target, paths@[j]@));
                    let k = paths@[j]@[0] as int;
                    assert(names[k] == texts(cs[j]@)[0]);
                    assert(self.dev_named(texts(cs[j]@)[0]));
                }
                if exists|a: int| 0 <= a < cs.len() && self.dev_named(#[trigger] texts(cs[a]@)[0]) {
                    let a = choose|a: int|
                        0 <= a < cs.len() && self.dev_named(#[trigger] texts(cs[a]@)[0]);
                    assert(self.is_chain(target, paths@[a]@));
                    let k = choose|k: int|
                        0 <= k < views.len() && #[trigger] names[k] == texts(cs[a]@)[0]
                            && views[k].is_dev;
                    let first = paths@[a]@[0] as int;
                    assert(names[first] == texts(cs[a]@)[0]);
                    assert(k == first);
                    assert(views[(paths@[a])@[0] as int].is_dev);
                }
            }
        }
        Some(e)
    }

    /// Get a package by name
    pub fn get_package(&self, name: &str) -> (r: Option<&Package>)
        requires
            self.wf(),
        ensures
            match r {
                Some(p) => match lookup(self.names(), name@) {
                    Some(t) => p@ == self.views()[t],
                    None => false,
                },
                None => !self.names().contains(name@),
            },
    {
        proof {
            assert(self.names() =~= texts(self.names@));
            lemma_lookup_sound(self.names(), name@);
        }
        match find_text(&self.names, name) {
            Some(t) => Some(&self.packages[t]),
            None => None,
        }
    }

    /// Get all packages
    pub fn packages(&self) -> (r: &Vec<Package>)
        ensures
            package_views(r@) == self.views(),
    {
        &self.packages
    }

    /// Get count of all packages
    pub fn package_count(&self) -> (r: usize)
        ensures
            r == self.views().len(),
    {
        self.packages.len()
    }

    /// Get count of direct dependencies
    pub fn direct_count(&self) -> (r: usize)
        ensures
            r == direct_total(self.views(), self.views().len()),
    {
        let mut count: usize = 0;
        let mut i: usize = 0;
        while i < self.packages.len()
            invariant
                i <= self.packages@.len(),
                count <= i,
                count == direct_total(self.views(), i as nat),
            decreases self.packages@.len() - i,
        {
            if self.packages[i].is_direct {
                count += 1;
            }
            i += 1;
        }
        count
    }
}

/// Number of direct dependencies among the first `upto` packages.
pub open spec fn direct_total(views: Seq<PackageView>, upto: nat) -> nat
    decreases upto,
{
    if upto == 0 {
        0
    } else {
        direct_total(views, (upto - 1) as nat) + if views[upto - 1].is_direct {
            1nat
        } else {
            0nat
        }
    }
}

/// The paths of a list, as sequences.
pub open spec fn paths_of(list: Seq<Vec<usize>>) -> Seq<Seq<usize>> {
    Seq::new(list.len(), |i: int| list[i]@)
}

/// The first five of `list`, or all of it where it holds fewer.
pub open spec fn first_five<A>(list: Seq<A>) -> Seq<A> {
    if list.len() > 5 {
        list.take(5)
    } else {
        list
    }
}

/// `list` holds the path `q`.
pub open spec fn listed(list: Seq<Vec<usize>>, q: Seq<usize>) -> bool {
    exists|i: int| 0 <= i < list.len() && (#[trigger] list[i])@ == q
}

/// One of the first `f` paths of `list` is `q`.
pub open spec fn listed_before(list: Seq<Vec<usize>>, f: int, q: Seq<usize>) -> bool {
    exists|i: int| 0 <= i < f && (#[trigger] list[i])@ == q
}

/// One of the first `d` nodes of `nodes` is `x`.
pub open spec fn seen_first(nodes: Seq<usize>, d: int, x: usize) -> bool {
    exists|j: int| 0 <= j < d && #[trigger] nodes[j] == x
}

/// No path of `list` is longer than `len`.
pub open spec fn no_longer_than(list: Seq<Vec<usize>>, len: nat) -> bool {
    forall|j: int| 0 <= j < list.len() ==> (#[trigger] list[j])@.len() <= len
}

/// What a list holds it still holds after paths were added at its end.
proof fn lemma_still_listed(before: Seq<Vec<usize>>, after: Seq<Vec<usize>>)
    requires
        before.len() <= after.len(),
        forall|i: int| 0 <= i < before.len() ==> before[i] == after[i],
    ensures
        forall|q: Seq<usize>| #[trigger] listed(before, q) ==> listed(after, q),
{
    assert forall|q: Seq<usize>| #[trigger] listed(before, q) implies listed(after, q) by {
        let i = choose|i: int| 0 <= i < before.len() && (#[trigger] before[i])@ == q;
        assert(after[i]@ == q);
    }
}

/// Distinct numbers below `n` are at most `n` many.
proof fn lemma_distinct_below(p: Seq<usize>, n: nat)
    requires
        forall|i: int| 0 <= i < p.len() ==> (#[trigger] p[i]) < n,
        forall|i: int, j: int| 0 <= i < j < p.len() ==> p[i] != p[j],
    ensures
        p.len() <= n,
    decreases n,
{
    if p.len() > 0 {
        if n == 0 {
            assert(p[0] < n);
        } else if exists|j: int| 0 <= j < p.len() && p[j] == n - 1 {
            let j = choose|j: int| 0 <= j < p.len() && p[j] == n - 1;
            let rest = p.subrange(0, j) + p.subrange(j + 1, p.len() as int);
            assert forall|i: int| 0 <= i < rest.len() implies (#[trigger] rest[i]) < n - 1 by {
                if i < j {
                    assert(rest[i] == p[i]);
                } else {
                    assert(rest[i] == p[i + 1]);
                }
            }
            assert forall|a: int, b: int| 0 <= a < b < rest.len() implies rest[a] != rest[b] by {
                let x = if a < j { a } else { a + 1 };
                let y = if b < j { b } else { b + 1 };
                assert(rest[a] == p[x] && rest[b] == p[y]);
            }
            lemma_distinct_below(rest, (n - 1) as nat);
        } else {
            assert forall|i: int| 0 <= i < p.len() implies (#[trigger] p[i]) < n - 1 by {
                assert(p[i] != n - 1);
            }
            lemma_distinct_below(p, (n - 1) as nat);
        }
    }
}

/// Whether `path` holds node `x`.
fn holds_node(path: &Vec<usize>, x: usize) -> (r: bool)
    ensures
        r == path@.contains(x),
{
    let mut i: usize = 0;
    while i < path.len()
        invariant
            i <= path@.len(),
            forall|j: int| 0 <= j < i ==> path@[j] != x,
        decreases path@.len() - i,
    {
        if path[i] == x {
            return true;
        }
        i += 1;
    }
    false
}

/// Whether two paths hold the same nodes in the same order.
fn same_path(a: &Vec<usize>, b: &Vec<usize>) -> (r: bool)
    ensures
        r == (a@ == b@),
{
    if a.len() != b.len() {
        return false;
    }
    let mut i: usize = 0;
    while i < a.len()
        invariant
            a@.len() == b@.len(),
            i <= a@.len(),
            forall|j: int| 0 <= j < i ==> a@[j] == b@[j],
        decreases a@.len() - i,
    {
        if a[i] != b[i] {
            return false;
        }
        i += 1;
    }
    assert(a@ =~= b@);
    true
}

/// Whether `list` holds a path equal to `p`.
fn holds_path(list: &Vec<Vec<usize>>, p: &Vec<usize>) -> (r: bool)
    ensures
        r == exists|i: int| 0 <= i < list@.len() && (#[trigger] list@[i])@ == p@,
{
    let mut i: usize = 0;
    while i < list.len()
        invariant
            i <= list@.len(),
            forall|j: int| 0 <= j < i ==> (#[trigger] list@[j])@ != p@,
        decreases list@.len() - i,
    {
        if same_path(&list[i], p) {
            return true;
        }
        i += 1;
    }
    false
}

/// The path that starts at `x` and goes on as `path`.
fn put_in_front(x: usize, path: &Vec<usize>) -> (r: Vec<usize>)
    ensures
        r@ == seq![x] + path@,
{
    let mut r: Vec<usize> = Vec::new();
    r.push(x);
    let mut i: usize = 0;
    while i < path.len()
        invariant
            i <= path@.len(),
            r@ == seq![x] + path@.subrange(0, i as int),
        decreases path@.len() - i,
    {
        r.push(path[i]);
        assert(r@ =~= seq![x] + path@.subrange(0, i + 1));
        i += 1;
    }
    assert(path@.subrange(0, path@.len() as int) =~= path@);
    r
}

/// The bucket that a package falls into.
#[derive(Debug, Clone, Copy, PartialEq, Eq, Structural)]
pub enum UsageClass {
    /// A dev package, left out because dev packages are not included
    Excluded,
    Used,
    ExpectedUnused,
    DevOnly,
    Unused,
}

/// The bucket of a package: used before expected-unused before dev-only
/// before unused.
pub open spec fn classify(p: PackageView, is_used: bool, include_dev: bool) -> UsageClass {
    if !include_dev && p.is_dev {
        UsageClass::Excluded
    } else if is_used {
        UsageClass::Used
    } else if expected_unused(p.name) {
        UsageClass::ExpectedUnused
    } else if p.is_dev && !p.is_direct {
        UsageClass::DevOnly
    } else {
        UsageClass::Unused
    }
}

/// The bucket of `p`, given whether it is used.
pub fn classify_package(p: &Package, is_used: bool, include_dev: bool) -> (c: UsageClass)
    ensures
        c == classify(p@, is_used, include_dev),
{
    if !include_dev && p.is_dev {
        UsageClass::Excluded
    } else if is_used {
        UsageClass::Used
    } else if is_expected_unused(p.name.as_str()) {
        UsageClass::ExpectedUnused
    } else if p.is_dev && !p.is_direct {
        UsageClass::DevOnly
    } else {
        UsageClass::Unused
    }
}

/// One of the first `m` places of `order` names a package that `keep` marks
/// and that is `v`.
pub open spec fn picked_before(
    views: Seq<PackageView>,
    keep: Seq<bool>,
    order: Seq<usize>,
    m: int,
    v: PackageView,
) -> bool {
    exists|w: int|
        0 <= w < m && keep[order[w] as int] && views[(#[trigger] order[w]) as int] == v
}

/// Some package of `views` that `keep` marks is `v`.
pub open spec fn offers(views: Seq<PackageView>, keep: Seq<bool>, v: PackageView) -> bool {
    exists|k: int| 0 <= k < views.len() && keep[k] && #[trigger] views[k] == v
}

/// `out` holds exactly the packages of `views` that `keep` marks, ascending
/// by name.
pub open spec fn is_selection(out: Seq<PackageView>, views: Seq<PackageView>, keep: Seq<bool>) -> bool {
    &&& ascending(view_names(out))
    &&& forall|i: int| 0 <= i < out.len() ==> offers(views, keep, #[trigger] out[i])
    &&& forall|k: int| 0 <= k < views.len() && keep[k] ==> out.contains(#[trigger] views[k])
}

/// A bucket is determined by its packages: two selections of the same
/// packages are the same list, in the same order.
pub proof fn lemma_selection_unique(
    a: Seq<PackageView>,
    b: Seq<PackageView>,
    views: Seq<PackageView>,
    keep: Seq<bool>,
)
    requires
        is_selection(a, views, keep),
        is_selection(b, views, keep),
    ensures
        a == b,
{
    assert forall|i: int| 0 <= i < a.len() implies b.contains(#[trigger] a[i]) by {
        assert(offers(views, keep, a[i]));
        let k = choose|k: int| 0 <= k < views.len() && keep[k] && #[trigger] views[k] == a[i];
        assert(b.contains(views[k]));
    }
    assert forall|i: int| 0 <= i < b.len() implies a.contains(#[trigger] b[i]) by {
        assert(offers(views, keep, b[i]));
        let k = choose|k: int| 0 <= k < views.len() && keep[k] && #[trigger] views[k] == b[i];
        assert(a.contains(views[k]));
    }
    let by_name = |x: PackageView, y: PackageView| lex_lt(x.name, y.name);
    assert forall|x: PackageView, y: PackageView| #[trigger] by_name(x, y) implies !by_name(
        y,
        x,
    ) by {
        lemma_lex_lt_asymmetric(x.name, y.name);
    }
    assert forall|i: int, j: int| 0 <= i < j < a.len() implies by_name(
        #[trigger] a[i],
        #[trigger] a[j],
    ) by {
        assert(lex_lt(view_names(a)[i], view_names(a)[j]));
    }
    assert forall|i: int, j: int| 0 <= i < j < b.len() implies by_name(
        #[trigger] b[i],
        #[trigger] b[j],
    ) by {
        assert(lex_lt(view_names(b)[i], view_names(b)[j]));
    }
    lemma_order_decides(a, b, by_name);
}

/// The packages of a list of usages.
pub open spec fn usage_views(list: Seq<PackageUsage>) -> Seq<PackageView> {
    Seq::new(list.len(), |i: int| list[i].package@)
}

/// The names at the places below `upto` that `marks` marks, in order.
pub open spec fn marked_names(names: Seq<Seq<char>>, marks: Seq<bool>, upto: nat) -> Seq<
    Seq<char>,
>
    decreases upto,
{
    if upto == 0 {
        Seq::empty()
    } else {
        let before = marked_names(names, marks, (upto - 1) as nat);
        if marks[upto - 1] {
            before.push(names[upto - 1])
        } else {
            before
        }
    }
}

/// A name is among the marked names exactly when a marked place holds it.
pub proof fn lemma_marked_names_members(names: Seq<Seq<char>>, marks: Seq<bool>, upto: nat)
    requires
        upto <= names.len(),
        names.len() == marks.len(),
    ensures
        forall|name: Seq<char>|
            marked_names(names, marks, upto).contains(name) <==> exists|t: int|
                0 <= t < upto && marks[t] && names[t] == name,
    decreases upto,
{
    if upto > 0 {
        lemma_marked_names_members(names, marks, (upto - 1) as nat);
        let before = marked_names(names, marks, (upto - 1) as nat);
        let all = marked_names(names, marks, upto);
        assert forall|name: Seq<char>| all.contains(name) <==> exists|t: int|
            0 <= t < upto && marks[t] && names[t] == name by {
            if all.contains(name) {
                let k = choose|k: int| 0 <= k < all.len() && all[k] == name;
                if k < before.len() {
                    assert(before[k] == name);
                    assert(before.contains(name));
                    let t = choose|t: int| 0 <= t < upto - 1 && marks[t] && names[t] == name;
                    assert(0 <= t < upto && marks[t] && names[t] == name);
                } else {
                    assert(marks[upto - 1] && names[upto - 1] == name);
                }
            }
            if exists|t: int| 0 <= t < upto && marks[t] && names[t] == name {
                let t = choose|t: int| 0 <= t < upto && marks[t] && names[t] == name;
                if t < upto - 1 {
                    assert(before.contains(name));
                    let k = choose|k: int| 0 <= k < before.len() && before[k] == name;
                    assert(all[k] == name);
                } else {
                    assert(all[all.len() - 1] == name);
                }
            }
        }
    }
}

} // verus!
