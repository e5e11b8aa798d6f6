//! The lexical child edges of the object tree, stored in a
//! `petgraph::graph::Graph` behind trusted wrappers.
//!
//! Node payloads live in the tree's own arena, indexed identically; the
//! graph holds only the parent-to-child edges.  Its contents are named by
//! `graph_children`: for each node, the targets of its outgoing edges in the
//! order the edges were added.

use vstd::prelude::*;
use petgraph::graph::Graph;
use petgraph::graph::NodeIndex;
use petgraph::Direction;

verus! {

#[verifier::external_type_specification]
#[verifier::external_body]
pub struct ExDirected(petgraph::Directed);

#[verifier::external_type_specification]
#[verifier::external_body]
#[verifier::reject_recursive_types(N)]
#[verifier::reject_recursive_types(E)]
#[verifier::reject_recursive_types(Ty)]
#[verifier::reject_recursive_types(Ix)]
pub struct ExGraph<N, E, Ty, Ix>(Graph<N, E, Ty, Ix>);

/// What the graph holds: for every node index, the targets of its outgoing
/// edges, in the order the edges were added.
pub uninterp spec fn graph_children(g: Graph<(), ()>) -> Map<int, Seq<int>>;

/// How many nodes the graph holds.
pub uninterp spec fn graph_node_count(g: Graph<(), ()>) -> int;

/// How many edges the graph holds; `Graph::add_edge` refuses to grow past
/// the capacity of its index type.
pub uninterp spec fn graph_edge_count(g: Graph<(), ()>) -> int;

/// Relies on Graph::with_capacity via Graph::new: the new graph is empty.
#[verifier::external_body]
pub fn graph_new() -> (g: Graph<(), ()>)
    ensures
        graph_node_count(g) == 0,
        graph_edge_count(g) == 0,
        graph_children(g) =~= Map::empty(),
{
    Graph::new()
}

/// Relies on Graph::add_node: appends a node whose index is the old node
/// count; edges are untouched.
#[verifier::external_body]
pub fn graph_add_node(g: &mut Graph<(), ()>) -> (r: usize)
    requires
        graph_node_count(*old(g)) < 0xffff_ffffusize,
    ensures
        r as int == graph_node_count(*old(g)),
        graph_node_count(*final(g)) == graph_node_count(*old(g)) + 1,
        graph_edge_count(*final(g)) == graph_edge_count(*old(g)),
        graph_children(*final(g)) == graph_children(*old(g)).insert(r as int, Seq::empty()),
{
    g.add_node(()).index()
}

/// Relies on Graph::add_edge: appends an edge from `a` to `b`; both nodes
/// must exist and the edge count must be below the index limit, which the
/// preconditions guarantee, so the call cannot panic.
#[verifier::external_body]
pub fn graph_add_edge(g: &mut Graph<(), ()>, a: usize, b: usize)
    requires
        a < graph_node_count(*old(g)),
        b < graph_node_count(*old(g)),
        graph_edge_count(*old(g)) < 0xffff_fffeusize,
        graph_children(*old(g)).contains_key(a as int),
    ensures
        graph_node_count(*final(g)) == graph_node_count(*old(g)),
        graph_edge_count(*final(g)) == graph_edge_count(*old(g)) + 1,
        graph_children(*final(g)) == graph_children(*old(g)).insert(
            a as int,
            graph_children(*old(g))[a as int].push(b as int),
        ),
{
    let _ = g.add_edge(NodeIndex::new(a), NodeIndex::new(b), ());
}

/// Relies on Graph::neighbors: the targets of the outgoing edges of `a`, in
/// reverse order of the edges' addition, as petgraph documents.
#[verifier::external_body]
pub fn graph_children_of(g: &Graph<(), ()>, a: usize) -> (r: Vec<usize>)
    requires
        a < graph_node_count(*g),
        graph_children(*g).contains_key(a as int),
    ensures
        r@.map_values(|x: usize| x as int) == graph_children(*g)[a as int].reverse(),
{
    g.neighbors(NodeIndex::new(a)).map(|n: NodeIndex| n.index()).collect()
}

/// Relies on Graph::neighbors_directed with Incoming: yields the sources of
/// the edges into `a`; returns one of them, or nothing when no edge points
/// at `a`, in which case `a` stands in no node's outgoing edge list.
#[verifier::external_body]
pub fn graph_parent_of(g: &Graph<(), ()>, a: usize) -> (r: Option<usize>)
    requires
        a < graph_node_count(*g),
    ensures
        match r {
            Some(p) => graph_children(*g).contains_key(p as int) && graph_children(*g)[
                p as int
            ].contains(a as int),
            None => forall|i: int|
                graph_children(*g).contains_key(i) ==> !graph_children(*g)[i].contains(a as int),
        },
{
    g.neighbors_directed(NodeIndex::new(a), Direction::Incoming).next().map(
        |n: NodeIndex| n.index(),
    )
}

} // verus!
