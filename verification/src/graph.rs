//! The wiring of the task graph, kept in a `petgraph` graph.
//!
//! Verus does not look inside `petgraph`. What this library relies on is
//! stated here, once: the graph holds a number of nodes and a sequence of
//! edges, and each function below is described by what it does to those two.

use vstd::prelude::*;

verus! {

/// Makes `petgraph::Directed`, the marker of graphs with directed edges,
/// known to Verus. It has no values.
#[verifier::external_type_specification]
#[verifier::external_body]
pub struct ExDirected(petgraph::Directed);

/// Makes `petgraph::graph::Graph` known to Verus, as a type that it cannot
/// look into: all that is said of a graph is said through `graph_nodes` and
/// `graph_edges`.
#[verifier::external_type_specification]
#[verifier::external_body]
#[verifier::reject_recursive_types(N)]
#[verifier::reject_recursive_types(E)]
#[verifier::reject_recursive_types(Ty)]
#[verifier::reject_recursive_types(Ix)]
pub struct ExGraph<N, E, Ty, Ix>(petgraph::graph::Graph<N, E, Ty, Ix>);

/// A directed graph whose nodes carry nothing and whose edges carry an
/// argument position and the code of an access kind.
pub type Wiring = petgraph::graph::Graph<(), (usize, u8), petgraph::Directed, u32>;

/// An edge as this library sees it: source, target, argument position, access code.
pub type Link = (usize, usize, usize, u8);

/// How many nodes the graph holds; they are numbered from 0.
pub uninterp spec fn graph_nodes(g: Wiring) -> nat;

/// The edges of the graph, in the order in which they were added.
pub uninterp spec fn graph_edges(g: Wiring) -> Seq<Link>;

/// The edges into `node`, the most recently added first, each as its source,
/// its argument position and its access code.
pub open spec fn incoming(edges: Seq<Link>, node: int) -> Seq<(usize, usize, u8)>
    decreases edges.len(),
{
    if edges.len() == 0 {
        Seq::empty()
    } else {
        let e = edges.last();
        let earlier = incoming(edges.drop_last(), node);
        if e.1 == node {
            seq![(e.0, e.2, e.3)] + earlier
        } else {
            earlier
        }
    }
}

/// Whether `node` stands somewhere in `order`.
pub open spec fn lists(order: Seq<usize>, node: int) -> bool {
    exists|i: int| 0 <= i < order.len() && #[trigger] order[i] == node
}

/// `order` lists every node once and each edge's source before its target.
pub open spec fn is_topological_order(nodes: nat, edges: Seq<Link>, order: Seq<usize>) -> bool {
    &&& order.len() == nodes
    &&& forall|i: int| 0 <= i < order.len() ==> #[trigger] order[i] < nodes
    &&& forall|i: int, j: int| 0 <= i < j < order.len() ==> order[i] != order[j]
    &&& forall|v: int| 0 <= v < nodes ==> #[trigger] lists(order, v)
    &&& forall|k: int, i: int, j: int|
        #![trigger edges[k], order[i], order[j]]
        0 <= k < edges.len() && 0 <= i < order.len() && 0 <= j < order.len() && order[i]
            == edges[k].0 && order[j] == edges[k].1 ==> i < j
}

/// `path` is a walk along edges that ends where it began: each entry is the
/// index of an edge, and each edge starts at the node where the one before it
/// ends, the first after the last.
pub open spec fn is_cycle(edges: Seq<Link>, path: Seq<int>) -> bool {
    &&& path.len() > 0
    &&& forall|i: int| 0 <= i < path.len() ==> 0 <= #[trigger] path[i] < edges.len()
    &&& forall|i: int|
        0 <= i < path.len() - 1 ==> edges[#[trigger] path[i]].1 == edges[path[i + 1]].0
    &&& edges[path.last()].1 == edges[path[0]].0
}

/// Whether some walk along the edges ends where it began.
pub open spec fn has_cycle(edges: Seq<Link>) -> bool {
    exists|path: Seq<int>| is_cycle(edges, path)
}

/// Calls `Graph::new`: a graph without nodes or edges.
#[verifier::external_body]
pub(crate) fn graph_new() -> (g: Wiring)
    ensures
        graph_nodes(g) == 0,
        graph_edges(g) == Seq::<Link>::empty(),
{
    petgraph::graph::Graph::new()
}

/// Calls `Graph::node_count`.
#[verifier::external_body]
pub(crate) fn graph_node_count(g: &Wiring) -> (n: usize)
    ensures
        n == graph_nodes(*g),
{
    g.node_count()
}

/// Calls `Graph::edge_count`.
#[verifier::external_body]
pub(crate) fn graph_edge_count(g: &Wiring) -> (n: usize)
    ensures
        n == graph_edges(*g).len(),
{
    g.edge_count()
}

/// Calls `Graph::add_node`, which appends a node and returns its index. It
/// panics when the graph already holds as many nodes as a `u32` can number,
/// which the precondition leaves out.
#[verifier::external_body]
pub(crate) fn graph_add_node(g: &mut Wiring) -> (index: usize)
    requires
        graph_nodes(*old(g)) < u32::MAX,
    ensures
        index == graph_nodes(*old(g)),
        graph_nodes(*final(g)) == graph_nodes(*old(g)) + 1,
        graph_edges(*final(g)) == graph_edges(*old(g)),
{
    g.add_node(()).index()
}

/// Calls `Graph::add_edge`, which appends an edge between two nodes. It
/// panics when either node is missing or when the graph already holds as many
/// edges as a `u32` can number; the precondition leaves both out.
#[verifier::external_body]
pub(crate) fn graph_add_edge(
    g: &mut Wiring,
    source: usize,
    target: usize,
    position: usize,
    access: u8,
)
    requires
        source < graph_nodes(*old(g)),
        target < graph_nodes(*old(g)),
        graph_edges(*old(g)).len() < u32::MAX,
    ensures
        graph_nodes(*final(g)) == graph_nodes(*old(g)),
        graph_edges(*final(g)) == graph_edges(*old(g)).push((source, target, position, access)),
{
    g.add_edge(
        petgraph::graph::NodeIndex::new(source),
        petgraph::graph::NodeIndex::new(target),
        (position, access),
    );
}

/// Calls `Graph::edges_directed` for the incoming direction. For a directed
/// graph it lists the edges into the node in reverse order of their addition.
#[verifier::external_body]
pub(crate) fn graph_incoming(g: &Wiring, node: usize) -> (found: Vec<(usize, usize, u8)>)
    requires
        node < graph_nodes(*g),
    ensures
        found@ == incoming(graph_edges(*g), node as int),
{
    g.edges_directed(petgraph::graph::NodeIndex::new(node), petgraph::Direction::Incoming).map(
        |e| (petgraph::visit::EdgeRef::source(&e).index(), e.weight().0, e.weight().1),
    ).collect()
}

/// The order in which `petgraph::algo::toposort` lists the nodes of a graph
/// that has no cycle. It walks the nodes by their numbers and the edges of
/// each node by the order in which they were added, so the order it finds
/// depends on nothing else.
pub uninterp spec fn sorted_order(nodes: nat, edges: Seq<Link>) -> Seq<usize>;

/// Calls `petgraph::algo::toposort`. On a graph without a cycle it returns
/// the nodes in an order in which each comes before its successors, the same
/// order for the same nodes and edges; on a graph with a cycle (a self loop
/// is one) it returns an error, here `None`.
#[verifier::external_body]
pub(crate) fn graph_toposort(g: &Wiring) -> (sorted: Option<Vec<usize>>)
    ensures
        match sorted {
            Some(order) => order@ == sorted_order(graph_nodes(*g), graph_edges(*g))
                && is_topological_order(graph_nodes(*g), graph_edges(*g), order@),
            None => has_cycle(graph_edges(*g)),
        },
{
    match petgraph::algo::toposort(g, None) {
        Ok(order) => Some(order.into_iter().map(|n| n.index()).collect()),
        Err(_) => None,
    }
}

/// Whether every edge joins two of the first `nodes` nodes.
pub open spec fn edges_in_range(nodes: nat, edges: Seq<Link>) -> bool {
    forall|k: int| 0 <= k < edges.len() ==> (#[trigger] edges[k]).0 < nodes && edges[k].1 < nodes
}

/// Where `order` lists `node`.
pub open spec fn place(order: Seq<usize>, node: int) -> int {
    choose|i: int| 0 <= i < order.len() && #[trigger] order[i] == node
}

/// Along a walk, the places of the nodes in a topological order only grow.
proof fn lemma_walk_ascends(
    nodes: nat,
    edges: Seq<Link>,
    order: Seq<usize>,
    path: Seq<int>,
    upto: int,
)
    requires
        is_topological_order(nodes, edges, order),
        edges_in_range(nodes, edges),
        0 <= upto < path.len(),
        forall|i: int| 0 <= i < path.len() ==> 0 <= #[trigger] path[i] < edges.len(),
        forall|i: int|
            0 <= i < path.len() - 1 ==> edges[#[trigger] path[i]].1 == edges[path[i + 1]].0,
    ensures
        place(order, edges[path[0]].0 as int) < place(order, edges[path[upto]].1 as int),
    decreases upto,
{
    let link = edges[path[upto]];
    assert(lists(order, link.0 as int) && lists(order, link.1 as int));
    let from = place(order, link.0 as int);
    let to = place(order, link.1 as int);
    assert(order[from] == link.0 && order[to] == link.1 && 0 <= from < order.len() && 0 <= to
        < order.len());
    assert(from < to);
    if upto > 0 {
        lemma_walk_ascends(nodes, edges, order, path, upto - 1);
        assert(edges[path[upto - 1]].1 == edges[path[upto - 1 + 1]].0);
    }
}

/// A graph whose nodes can be put in a topological order has no cycle.
pub proof fn lemma_ordered_is_acyclic(nodes: nat, edges: Seq<Link>, order: Seq<usize>)
    requires
        is_topological_order(nodes, edges, order),
        edges_in_range(nodes, edges),
    ensures
        !has_cycle(edges),
{
    if has_cycle(edges) {
        let path = choose|path: Seq<int>| is_cycle(edges, path);
        lemma_walk_ascends(nodes, edges, order, path, path.len() - 1);
    }
}

} // verus!
