//! The outside graph that holds the files and their inclusions, as this
//! library reads it: a directed multigraph of `petgraph`, whose nodes and edges
//! keep their indices when others are removed.
//!
//! Nothing in this file is proved. Each function states what the method of
//! `petgraph` that it calls does to the nodes and edges of the graph.

use vstd::prelude::*;
use petgraph::Directed;
use petgraph::stable_graph::{EdgeIndex, NodeIndex, StableGraph};
use petgraph::visit::EdgeRef;

verus! {

/// `petgraph::Directed`, the marker of a graph with directed edges.
#[verifier::external_type_specification]
#[verifier::external_body]
pub struct ExDirected(Directed);

/// `petgraph::stable_graph::StableGraph`.
#[verifier::external_type_specification]
#[verifier::external_body]
#[verifier::reject_recursive_types(N)]
#[verifier::reject_recursive_types(E)]
#[verifier::reject_recursive_types(Ty)]
#[verifier::reject_recursive_types(Ix)]
pub struct ExStableGraph<N, E, Ty, Ix>(StableGraph<N, E, Ty, Ix>);

/// What an edge carries: the line of the directive, the first column of the
/// path it names, the column of the closing quote, and a stamp that grows
/// from one edge added to the next.
pub type EdgeWeight = (usize, usize, usize, u64);

/// The graph of files: a node carries a path, an edge an `EdgeWeight`.
pub type FileGraph = StableGraph<String, EdgeWeight, Directed, u32>;

/// An edge as the contracts see it.
pub struct EdgeRecord {
    pub src: int,
    pub dst: int,
    pub line: int,
    pub start: int,
    pub end: int,
    pub order: int,
}

/// The record of an edge from `src` to `dst` that carries `w`.
pub open spec fn record(src: int, dst: int, w: EdgeWeight) -> EdgeRecord {
    EdgeRecord {
        src,
        dst,
        line: w.0 as int,
        start: w.1 as int,
        end: w.2 as int,
        order: w.3 as int,
    }
}

/// The nodes of a graph: the path that each node index in use carries.
pub uninterp spec fn graph_nodes(g: FileGraph) -> Map<int, Seq<char>>;

/// The edges of a graph: the record of each edge index in use.
pub uninterp spec fn graph_edges(g: FileGraph) -> Map<int, EdgeRecord>;

/// No node.
pub open spec fn no_nodes() -> Map<int, Seq<char>> {
    Map::empty()
}

/// No edge.
pub open spec fn no_edges() -> Map<int, EdgeRecord> {
    Map::empty()
}

/// Whether `s` is a finite set of `n` indices.
pub open spec fn counted(s: Set<int>, n: usize) -> bool {
    s.finite() && s.len() == n
}

/// `StableGraph::new`: a graph without nodes and edges.
#[verifier::external_body]
pub(crate) fn graph_new() -> (g: FileGraph)
    ensures
        graph_nodes(g) == no_nodes(),
        graph_edges(g) == no_edges(),
{
    StableGraph::new()
}

/// `StableGraph::node_count`: the number of nodes, which is finite.
#[verifier::external_body]
pub(crate) fn graph_node_count(g: &FileGraph) -> (n: usize)
    ensures
        counted(graph_nodes(*g).dom(), n),
{
    g.node_count()
}

/// `StableGraph::edge_count`: the number of edges, which is finite.
#[verifier::external_body]
pub(crate) fn graph_edge_count(g: &FileGraph) -> (n: usize)
    ensures
        counted(graph_edges(*g).dom(), n),
{
    g.edge_count()
}

/// `StableGraph::add_node`: adds a node that carries `weight` under an index
/// that no node had, and leaves the other nodes and the edges as they were.
/// It panics where the graph holds as many nodes as its index type can
/// number, which `requires` leaves out.
#[verifier::external_body]
pub(crate) fn graph_add_node(g: &mut FileGraph, weight: String) -> (id: u32)
    requires
        graph_nodes(*old(g)).dom().len() < u32::MAX,
    ensures
        !graph_nodes(*old(g)).dom().contains(id as int),
        graph_nodes(*final(g)) == graph_nodes(*old(g)).insert(id as int, weight@),
        graph_edges(*final(g)) == graph_edges(*old(g)),
{
    g.add_node(weight).index() as u32
}

/// `StableGraph::node_weight`: the path that node `id` carries, where there
/// is such a node.
#[verifier::external_body]
pub(crate) fn graph_node_weight(g: &FileGraph, id: u32) -> (w: Option<&String>)
    ensures
        match w {
            Some(s) => graph_nodes(*g).dom().contains(id as int) && s@ == graph_nodes(*g)[id as int],
            None => !graph_nodes(*g).dom().contains(id as int),
        },
{
    g.node_weight(NodeIndex::new(id as usize))
}

/// `StableGraph::node_indices`: every node index in use, each once.
#[verifier::external_body]
pub(crate) fn graph_node_indices(g: &FileGraph) -> (v: Vec<u32>)
    ensures
        v@.no_duplicates(),
        forall|id: u32| v@.contains(id) <==> graph_nodes(*g).dom().contains(id as int),
{
    g.node_indices().map(|n| n.index() as u32).collect()
}

/// `StableGraph::add_edge`: adds an edge from `a` to `b` that carries `w`
/// under an index that no edge had, and leaves the nodes and the other edges
/// as they were. It panics where `a` or `b` is no node, or where the graph
/// holds as many edges as its index type can number; `requires` leaves both out.
#[verifier::external_body]
pub(crate) fn graph_add_edge(g: &mut FileGraph, a: u32, b: u32, w: EdgeWeight) -> (e: u32)
    requires
        graph_nodes(*old(g)).dom().contains(a as int),
        graph_nodes(*old(g)).dom().contains(b as int),
        graph_edges(*old(g)).dom().len() < u32::MAX,
    ensures
        !graph_edges(*old(g)).dom().contains(e as int),
        graph_edges(*final(g)) == graph_edges(*old(g)).insert(e as int, record(a as int, b as int, w)),
        graph_nodes(*final(g)) == graph_nodes(*old(g)),
{
    g.add_edge(NodeIndex::new(a as usize), NodeIndex::new(b as usize), w).index() as u32
}

/// `StableGraph::remove_edge`: removes edge `e`, where there is one, and
/// leaves the nodes and the other edges as they were.
#[verifier::external_body]
pub(crate) fn graph_remove_edge(g: &mut FileGraph, e: u32)
    ensures
        graph_edges(*final(g)) == graph_edges(*old(g)).remove(e as int),
        graph_nodes(*final(g)) == graph_nodes(*old(g)),
{
    g.remove_edge(EdgeIndex::new(e as usize));
}

/// `StableGraph::remove_node`: removes node `a`, where there is one, with
/// every edge that leaves or enters it, and leaves the rest as it was.
#[verifier::external_body]
pub(crate) fn graph_remove_node(g: &mut FileGraph, a: u32)
    ensures
        graph_nodes(*final(g)) == graph_nodes(*old(g)).remove(a as int),
        graph_edges(*final(g)) == graph_edges(*old(g)).restrict(
            Set::new(
                |e: int|
                    graph_edges(*old(g))[e].src != a as int && graph_edges(*old(g))[e].dst
                        != a as int,
            ),
        ),
{
    g.remove_node(NodeIndex::new(a as usize));
}

/// `StableGraph::edges`: the edges that leave node `a`, each once, as index,
/// target and weight; none where `a` is no node. The order is left open.
#[verifier::external_body]
pub(crate) fn graph_edges_from(g: &FileGraph, a: u32) -> (v: Vec<(u32, u32, EdgeWeight)>)
    ensures
        forall|i: int, j: int| 0 <= i < j < v@.len() ==> v@[i].0 != v@[j].0,
        forall|i: int|
            0 <= i < v@.len() ==> graph_edges(*g).dom().contains(#[trigger] v@[i].0 as int)
                && graph_edges(*g)[v@[i].0 as int] == record(a as int, v@[i].1 as int, v@[i].2),
        forall|e: int|
            graph_edges(*g).dom().contains(e) && graph_edges(*g)[e].src == a as int ==> exists|
                i: int,
            |
                0 <= i < v@.len() && #[trigger] v@[i].0 as int == e,
{
    g.edges(NodeIndex::new(a as usize)).map(
        |e| (e.id().index() as u32, e.target().index() as u32, *e.weight()),
    ).collect()
}

} // verus!
