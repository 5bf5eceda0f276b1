//! The directed graph that backs the usage graph, kept in a `petgraph` graph.
//!
//! Everything here is a thin, unproved contract over `petgraph`; the rest of
//! the library reasons about the graph through `graph_nodes` and `graph_edges`.

use petgraph::graph::Graph;
use petgraph::graph::NodeIndex;
use petgraph::Directed;
use petgraph::Direction;
use vstd::prelude::*;

verus! {

#[verifier::external_type_specification]
#[verifier::external_body]
#[verifier::reject_recursive_types(N)]
#[verifier::reject_recursive_types(E)]
#[verifier::reject_recursive_types(Ty)]
#[verifier::reject_recursive_types(Ix)]
pub struct ExGraph<N, E, Ty, Ix>(Graph<N, E, Ty, Ix>);

#[verifier::external_type_specification]
#[verifier::external_body]
pub struct ExDirected(Directed);

/// The node weights of a graph, by node index.
pub uninterp spec fn graph_nodes(g: Graph<String, (), Directed, u32>) -> Seq<Seq<char>>;

/// The edges of a graph as (source, target) node indices, in the order in
/// which they were added.
pub uninterp spec fn graph_edges(g: Graph<String, (), Directed, u32>) -> Seq<(usize, usize)>;

/// Largest number of nodes, and of edges, that a graph indexed by `u32` holds.
pub const GRAPH_LIMIT: usize = 4294967295;

/// The neighbours of `node` that `petgraph` lists for a directed graph: the
/// far ends of the edges that leave `node` (`outgoing`) or enter it, the most
/// recently added edge first.
pub open spec fn neighbors_of(edges: Seq<(usize, usize)>, node: usize, outgoing: bool) -> Seq<usize>
    decreases edges.len(),
{
    if edges.len() == 0 {
        Seq::empty()
    } else {
        let e = edges.last();
        let rest = neighbors_of(edges.drop_last(), node, outgoing);
        if outgoing && e.0 == node {
            seq![e.1] + rest
        } else if !outgoing && e.1 == node {
            seq![e.0] + rest
        } else {
            rest
        }
    }
}

/// `Graph::new`: a directed graph without nodes or edges.
#[verifier::external_body]
pub(crate) fn graph_new() -> (g: Graph<String, (), Directed, u32>)
    ensures
        graph_nodes(g) == Seq::<Seq<char>>::empty(),
        graph_edges(g) == Seq::<(usize, usize)>::empty(),
{
    Graph::new()
}

/// `Graph::add_node`: appends a node with the given weight and returns its
/// index, which is the number of nodes before the call. `petgraph` panics
/// when the graph is full, which the precondition leaves out.
#[verifier::external_body]
pub(crate) fn graph_add_node(g: &mut Graph<String, (), Directed, u32>, name: String) -> (idx: usize)
    requires
        graph_nodes(*old(g)).len() < GRAPH_LIMIT,
    ensures
        graph_nodes(*final(g)) == graph_nodes(*old(g)).push(name@),
        graph_edges(*final(g)) == graph_edges(*old(g)),
        idx == graph_nodes(*old(g)).len(),
{
    g.add_node(name).index()
}

/// `Graph::add_edge`: appends an edge from node `a` to node `b`. `petgraph`
/// panics on a missing node or a full graph, which the precondition leaves
/// out. Parallel edges are kept.
#[verifier::external_body]
pub(crate) fn graph_add_edge(g: &mut Graph<String, (), Directed, u32>, a: usize, b: usize)
    requires
        a < graph_nodes(*old(g)).len(),
        b < graph_nodes(*old(g)).len(),
        graph_nodes(*old(g)).len() <= GRAPH_LIMIT,
        graph_edges(*old(g)).len() < GRAPH_LIMIT,
    ensures
        graph_nodes(*final(g)) == graph_nodes(*old(g)),
        graph_edges(*final(g)) == graph_edges(*old(g)).push((a, b)),
{
    g.add_edge(NodeIndex::new(a), NodeIndex::new(b), ());
}

/// `Graph::neighbors_directed`, collected: the indices of the nodes at the
/// far end of the edges that leave `node` (`outgoing`) or enter it, the most
/// recently added edge first.
#[verifier::external_body]
pub(crate) fn graph_neighbors(g: &Graph<String, (), Directed, u32>, node: usize, outgoing: bool) -> (out: Vec<usize>)
    requires
        node < graph_nodes(*g).len(),
        graph_nodes(*g).len() <= GRAPH_LIMIT,
    ensures
        out@ == neighbors_of(graph_edges(*g), node, outgoing),
{
    let dir = if outgoing { Direction::Outgoing } else { Direction::Incoming };
    g.neighbors_directed(NodeIndex::new(node), dir).map(|n| n.index()).collect()
}

/// Indexing a graph by a node: the weight of node `node`.
#[verifier::external_body]
pub(crate) fn graph_node_name(g: &Graph<String, (), Directed, u32>, node: usize) -> (name: &String)
    requires
        node < graph_nodes(*g).len(),
        graph_nodes(*g).len() <= GRAPH_LIMIT,
    ensures
        name@ == graph_nodes(*g)[node as int],
{
    &g[NodeIndex::new(node)]
}

/// The neighbours listed for a node are the far ends of its edges.
pub proof fn lemma_neighbors_members(edges: Seq<(usize, usize)>, node: usize, outgoing: bool)
    ensures
        forall|x: usize|
            neighbors_of(edges, node, outgoing).contains(x) <==> if outgoing {
                edges.contains((node, x))
            } else {
                edges.contains((x, node))
            },
    decreases edges.len(),
{
    if edges.len() > 0 {
        let front = edges.drop_last();
        let e = edges.last();
        lemma_neighbors_members(front, node, outgoing);
        let rest = neighbors_of(front, node, outgoing);
        let all = neighbors_of(edges, node, outgoing);
        assert(edges =~= front.push(e));
        assert forall|x: usize| all.contains(x) <==> if outgoing {
            edges.contains((node, x))
        } else {
            edges.contains((x, node))
        } by {
            let wanted = if outgoing { (node, x) } else { (x, node) };
            let hit = if outgoing { e.0 == node } else { e.1 == node };
            let far = if outgoing { e.1 } else { e.0 };
            if all.contains(x) {
                let k = choose|k: int| 0 <= k < all.len() && all[k] == x;
                if hit && k == 0 {
                    assert(edges[edges.len() - 1] == wanted);
                } else {
                    if hit {
                        assert(rest[k - 1] == x);
                    } else {
                        assert(rest[k] == x);
                    }
                    assert(rest.contains(x));
                    let j = choose|j: int| 0 <= j < front.len() && front[j] == wanted;
                    assert(edges[j] == wanted);
                }
            }
            if edges.contains(wanted) {
                let j = choose|j: int| 0 <= j < edges.len() && edges[j] == wanted;
                if j == edges.len() - 1 {
                    assert(all[0] == x);
                } else {
                    assert(front[j] == wanted);
                    assert(rest.contains(x));
                    let k = choose|k: int| 0 <= k < rest.len() && rest[k] == x;
                    if hit {
                        assert(all[k + 1] == x);
                    } else {
                        assert(all[k] == x);
                    }
                }
            }
        }
    }
}

} // verus!
