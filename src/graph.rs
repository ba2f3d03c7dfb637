//! The two relationship graphs over turtles, `petgraph` graphs whose node
//! index is the turtle's `who` number: one undirected, one directed.
use vstd::multiset::Multiset;
use vstd::prelude::*;

verus! {

#[verifier::external_type_specification]
#[verifier::external_body]
#[verifier::reject_recursive_types(N)]
#[verifier::reject_recursive_types(E)]
#[verifier::reject_recursive_types(Ty)]
#[verifier::reject_recursive_types(Ix)]
pub struct ExGraph<N, E, Ty, Ix>(petgraph::Graph<N, E, Ty, Ix>);

#[verifier::external_type_specification]
#[verifier::external_body]
pub struct ExUndirected(petgraph::Undirected);

#[verifier::external_type_specification]
#[verifier::external_body]
pub struct ExDirected(petgraph::Directed);

/// The undirected link graph.
pub type LinkGraph = petgraph::Graph<(), (), petgraph::Undirected, usize>;

/// The directed link graph.
pub type DiLinkGraph = petgraph::Graph<(), (), petgraph::Directed, usize>;

/// Number of nodes of the undirected graph.
pub uninterp spec fn ug_nodes(g: LinkGraph) -> nat;

/// Edges of the undirected graph as (first, second) endpoints, by edge index.
pub uninterp spec fn ug_edges(g: LinkGraph) -> Seq<(usize, usize)>;

/// Number of nodes of the directed graph.
pub uninterp spec fn dg_nodes(g: DiLinkGraph) -> nat;

/// Edges of the directed graph as (source, target), by edge index.
pub uninterp spec fn dg_edges(g: DiLinkGraph) -> Seq<(usize, usize)>;

/// Node `n` renamed to `to` after node `to` was removed and the last node,
/// `n`, took its index.
pub open spec fn renamed(x: usize, last: usize, to: usize) -> usize {
    if x == last { to } else { x }
}

/// The edges left once node `a` of a graph whose last node is `last` is
/// removed: those not touching `a`, with `last` renamed to `a`.
pub open spec fn edges_without(edges: Seq<(usize, usize)>, a: usize, last: usize) -> Multiset<(usize, usize)> {
    edges.filter(|e: (usize, usize)| e.0 != a && e.1 != a).map_values(
        |e: (usize, usize)| (renamed(e.0, last, a), renamed(e.1, last, a)),
    ).to_multiset()
}

/// Relies on `petgraph_gen::empty_graph`: `n` nodes and no edges.
#[verifier::external_body]
pub(crate) fn ug_with_nodes(n: usize) -> (g: LinkGraph)
    ensures
        ug_nodes(g) == n,
        ug_edges(g) == Seq::<(usize, usize)>::empty(),
{
    petgraph_gen::empty_graph(n)
}

/// Relies on `petgraph_gen::empty_graph`: `n` nodes and no edges.
#[verifier::external_body]
pub(crate) fn dg_with_nodes(n: usize) -> (g: DiLinkGraph)
    ensures
        dg_nodes(g) == n,
        dg_edges(g) == Seq::<(usize, usize)>::empty(),
{
    petgraph_gen::empty_graph(n)
}

/// Relies on `Graph::add_node`: the new node takes the next index; with
/// `usize` indices it cannot fail.
#[verifier::external_body]
pub(crate) fn ug_add_node(g: &mut LinkGraph) -> (r: usize)
    ensures
        r == ug_nodes(*old(g)),
        ug_nodes(*final(g)) == ug_nodes(*old(g)) + 1,
        ug_edges(*final(g)) == ug_edges(*old(g)),
{
    g.add_node(()).index()
}

/// Relies on `Graph::add_node`: the new node takes the next index; with
/// `usize` indices it cannot fail.
#[verifier::external_body]
pub(crate) fn dg_add_node(g: &mut DiLinkGraph) -> (r: usize)
    ensures
        r == dg_nodes(*old(g)),
        dg_nodes(*final(g)) == dg_nodes(*old(g)) + 1,
        dg_edges(*final(g)) == dg_edges(*old(g)),
{
    g.add_node(()).index()
}

/// Relies on `Graph::add_edge`: the edge is appended to the edge list; it
/// panics unless both nodes exist.
#[verifier::external_body]
pub(crate) fn ug_add_edge(g: &mut LinkGraph, a: usize, b: usize)
    requires
        a < ug_nodes(*old(g)),
        b < ug_nodes(*old(g)),
    ensures
        ug_nodes(*final(g)) == ug_nodes(*old(g)),
        ug_edges(*final(g)) == ug_edges(*old(g)).push((a, b)),
{
    g.add_edge(petgraph::graph::NodeIndex::new(a), petgraph::graph::NodeIndex::new(b), ());
}

/// Relies on `Graph::add_edge`: the edge is appended to the edge list; it
/// panics unless both nodes exist.
#[verifier::external_body]
pub(crate) fn dg_add_edge(g: &mut DiLinkGraph, a: usize, b: usize)
    requires
        a < dg_nodes(*old(g)),
        b < dg_nodes(*old(g)),
    ensures
        dg_nodes(*final(g)) == dg_nodes(*old(g)),
        dg_edges(*final(g)) == dg_edges(*old(g)).push((a, b)),
{
    g.add_edge(petgraph::graph::NodeIndex::new(a), petgraph::graph::NodeIndex::new(b), ());
}

/// Relies on `Graph::remove_node`: the edges touching the node go, and the
/// last node takes the freed index.
#[verifier::external_body]
pub(crate) fn ug_remove_node(g: &mut LinkGraph, a: usize)
    requires
        a < ug_nodes(*old(g)),
    ensures
        ug_nodes(*final(g)) == ug_nodes(*old(g)) - 1,
        ug_edges(*final(g)).to_multiset() == edges_without(
            ug_edges(*old(g)),
            a,
            (ug_nodes(*old(g)) - 1) as usize,
        ),
{
    g.remove_node(petgraph::graph::NodeIndex::new(a));
}

/// Relies on `Graph::remove_node`: the edges touching the node go, and the
/// last node takes the freed index.
#[verifier::external_body]
pub(crate) fn dg_remove_node(g: &mut DiLinkGraph, a: usize)
    requires
        a < dg_nodes(*old(g)),
    ensures
        dg_nodes(*final(g)) == dg_nodes(*old(g)) - 1,
        dg_edges(*final(g)).to_multiset() == edges_without(
            dg_edges(*old(g)),
            a,
            (dg_nodes(*old(g)) - 1) as usize,
        ),
{
    g.remove_node(petgraph::graph::NodeIndex::new(a));
}

/// Relies on `Graph::clear_edges`: every edge goes, every node stays.
#[verifier::external_body]
pub(crate) fn ug_clear_edges(g: &mut LinkGraph)
    ensures
        ug_nodes(*final(g)) == ug_nodes(*old(g)),
        ug_edges(*final(g)) == Seq::<(usize, usize)>::empty(),
{
    g.clear_edges()
}

/// Relies on `Graph::clear_edges`: every edge goes, every node stays.
#[verifier::external_body]
pub(crate) fn dg_clear_edges(g: &mut DiLinkGraph)
    ensures
        dg_nodes(*final(g)) == dg_nodes(*old(g)),
        dg_edges(*final(g)) == Seq::<(usize, usize)>::empty(),
{
    g.clear_edges()
}

/// Relies on `Graph::edge_count`: the length of the edge list.
#[verifier::external_body]
pub(crate) fn ug_edge_count(g: &LinkGraph) -> (r: usize)
    ensures
        r == ug_edges(*g).len(),
{
    g.edge_count()
}

/// Relies on `Graph::edge_count`: the length of the edge list.
#[verifier::external_body]
pub(crate) fn dg_edge_count(g: &DiLinkGraph) -> (r: usize)
    ensures
        r == dg_edges(*g).len(),
{
    g.edge_count()
}

/// Relies on `Graph::edge_endpoints`: the endpoints of an existing edge.
#[verifier::external_body]
pub(crate) fn ug_edge(g: &LinkGraph, i: usize) -> (r: (usize, usize))
    requires
        i < ug_edges(*g).len(),
    ensures
        r == ug_edges(*g)[i as int],
{
    let (a, b) = g.edge_endpoints(petgraph::graph::EdgeIndex::new(i)).unwrap();
    (a.index(), b.index())
}

/// Relies on `Graph::edge_endpoints`: the endpoints of an existing edge.
#[verifier::external_body]
pub(crate) fn dg_edge(g: &DiLinkGraph, i: usize) -> (r: (usize, usize))
    requires
        i < dg_edges(*g).len(),
    ensures
        r == dg_edges(*g)[i as int],
{
    let (a, b) = g.edge_endpoints(petgraph::graph::EdgeIndex::new(i)).unwrap();
    (a.index(), b.index())
}

} // verus!
