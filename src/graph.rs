//! The directed link graph, held in a petgraph `StableGraph`.
use vstd::prelude::*;
use crate::path::{ItemPath, PathModel};
use petgraph::stable_graph::{NodeIndex, StableGraph};

verus! {

#[verifier::external_type_specification]
#[verifier::external_body]
#[verifier::reject_recursive_types(N)]
#[verifier::reject_recursive_types(E)]
#[verifier::reject_recursive_types(Ty)]
#[verifier::reject_recursive_types(Ix)]
pub struct ExStableGraph<N, E, Ty, Ix>(StableGraph<N, E, Ty, Ix>);

#[verifier::external_type_specification]
#[verifier::external_body]
#[verifier::reject_recursive_types(Ix)]
pub struct ExNodeIndex<Ix>(NodeIndex<Ix>);

#[verifier::external_type_specification]
#[verifier::external_body]
pub struct ExDirected(petgraph::Directed);

/// A directed graph of paths; node handles are `usize`-based, so the graph
/// never runs out of handles before memory runs out.
pub type PathGraph = StableGraph<ItemPath, (), petgraph::Directed, usize>;

/// A node handle of a [`PathGraph`].
pub type Node = NodeIndex<usize>;

/// The nodes of a graph: each handle with the path it carries.
pub uninterp spec fn graph_nodes(g: PathGraph) -> Map<Node, PathModel>;

/// The edges of a graph, as (source, target) handles, oldest first.
pub uninterp spec fn graph_edges(g: PathGraph) -> Seq<(Node, Node)>;

/// The targets of the edges out of `a`, newest edge first.
pub open spec fn targets_from(edges: Seq<(Node, Node)>, a: Node) -> Seq<Node>
    decreases edges.len(),
{
    if edges.len() == 0 {
        Seq::<Node>::empty()
    } else {
        let rest = targets_from(edges.drop_last(), a);
        if edges.last().0 == a {
            seq![edges.last().1] + rest
        } else {
            rest
        }
    }
}

/// Relies on `StableGraph::default`: a graph with no nodes and no edges.
#[verifier::external_body]
pub(crate) fn empty_graph() -> (r: PathGraph)
    ensures
        graph_nodes(r).dom() == Set::<Node>::empty(),
        graph_edges(r).len() == 0,
{
    StableGraph::default()
}

/// Relies on `StableGraph::add_node`: a new node with a handle that no
/// node of the graph has.
#[verifier::external_body]
pub(crate) fn add_node(g: &mut PathGraph, weight: ItemPath) -> (n: Node)
    ensures
        !graph_nodes(*old(g)).contains_key(n),
        graph_nodes(*final(g)) == graph_nodes(*old(g)).insert(n, weight@),
        graph_edges(*final(g)) == graph_edges(*old(g)),
{
    g.add_node(weight)
}

/// Relies on `StableGraph::add_edge`: one more edge from `a` to `b`, even
/// if there is one already.
#[verifier::external_body]
pub(crate) fn add_edge(g: &mut PathGraph, a: Node, b: Node)
    requires
        graph_nodes(*old(g)).contains_key(a),
        graph_nodes(*old(g)).contains_key(b),
    ensures
        graph_nodes(*final(g)) == graph_nodes(*old(g)),
        graph_edges(*final(g)) == graph_edges(*old(g)).push((a, b)),
{
    g.add_edge(a, b, ());
}

/// Relies on `StableGraph::update_edge`: an edge from `a` to `b`, added
/// only if there is none.
#[verifier::external_body]
pub(crate) fn update_edge(g: &mut PathGraph, a: Node, b: Node)
    requires
        graph_nodes(*old(g)).contains_key(a),
        graph_nodes(*old(g)).contains_key(b),
    ensures
        graph_nodes(*final(g)) == graph_nodes(*old(g)),
        graph_edges(*final(g)) == if graph_edges(*old(g)).contains((a, b)) {
            graph_edges(*old(g))
        } else {
            graph_edges(*old(g)).push((a, b))
        },
{
    g.update_edge(a, b, ());
}

/// Relies on `StableGraph::neighbors`: the targets of the edges out of
/// `a`, newest edge first.
#[verifier::external_body]
pub(crate) fn successors(g: &PathGraph, a: Node) -> (r: Vec<Node>)
    requires
        graph_nodes(*g).contains_key(a),
    ensures
        r@ == targets_from(graph_edges(*g), a),
{
    g.neighbors(a).collect()
}

/// Relies on indexing a `StableGraph` by a node handle: the path that the
/// node carries.
#[verifier::external_body]
pub(crate) fn node_path(g: &PathGraph, a: Node) -> (r: &ItemPath)
    requires
        graph_nodes(*g).contains_key(a),
    ensures
        r@ == graph_nodes(*g)[a],
{
    &g[a]
}

/// The edges of a graph as pairs of the paths at their ends.
pub open spec fn edge_paths(g: PathGraph) -> Set<(PathModel, PathModel)> {
    Set::new(|e: (PathModel, PathModel)| exists|i: int| 0 <= i < graph_edges(g).len()
        && graph_nodes(g)[#[trigger] graph_edges(g)[i].0] == e.0
        && graph_nodes(g)[graph_edges(g)[i].1] == e.1)
}

/// The paths that the nodes of a graph carry.
pub open spec fn node_paths(g: PathGraph) -> Set<PathModel> {
    graph_nodes(g).values()
}

} // verus!
