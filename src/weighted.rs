//! Shortest paths on undirected weighted graphs held by petgraph.
use petgraph::visit::EdgeRef;
use petgraph::Graph as PetGraph;
use vstd::prelude::*;
use crate::shortest::{
    dial_adj, dijkstra_adj, dijkstra_adj_to, is_distance, known_opt, known_u64, shortest_below, wadj_ok, wview,
    INFINITY,
};

verus! {

#[verifier::external_type_specification]
#[verifier::external_body]
#[verifier::reject_recursive_types(N)]
#[verifier::reject_recursive_types(E)]
#[verifier::reject_recursive_types(Ty)]
#[verifier::reject_recursive_types(Ix)]
pub struct ExPetGraph<N, E, Ty, Ix>(PetGraph<N, E, Ty, Ix>);

#[verifier::external_type_specification]
#[verifier::external_body]
pub struct ExUndirected(petgraph::Undirected);

/// The edges at each node of an undirected petgraph graph, as `(other end, weight)` pairs in the
/// order in which `edges` yields them.
pub uninterp spec fn pg_adjacency(g: PetGraph<(), u64, petgraph::Undirected>) -> Seq<Seq<(usize, u64)>>;

/// Relies on petgraph's `Graph::node_count`: the number of nodes, which index the adjacency.
#[verifier::external_body]
fn pg_node_count(g: &PetGraph<(), u64, petgraph::Undirected>) -> (r: usize)
    ensures
        r == pg_adjacency(*g).len(),
{
    g.node_count()
}

/// Relies on petgraph's `Graph::edges` on an undirected graph: every edge at `u`, turned so that
/// `u` is its source, with its other end and weight. petgraph only stores edges between nodes
/// that exist, so every other end is a node.
#[verifier::external_body]
fn pg_edges(g: &PetGraph<(), u64, petgraph::Undirected>, u: usize) -> (r: Vec<(usize, u64)>)
    requires
        u < pg_adjacency(*g).len(),
    ensures
        r@ == pg_adjacency(*g)[u as int],
        forall|j: int| 0 <= j < r@.len() ==> (#[trigger] r@[j]).0 < pg_adjacency(*g).len(),
{
    g.edges(petgraph::graph::NodeIndex::new(u)).map(|e| (e.target().index(), *e.weight())).collect()
}

/// Why a shortest-path query was refused.
#[derive(Debug, Clone, Copy, PartialEq, Eq, Structural)]
pub enum PathError {
    /// A node index is not below the node count.
    NodeOutOfRange,
    /// Some edge weighs more than the bound given to Dial's algorithm.
    WeightAboveBound,
    /// The weight bound leaves no room for a bucket ring.
    BoundTooLarge,
}

/// The adjacency lists of `g`, copied out of it.
fn load_adjacency(g: &PetGraph<(), u64, petgraph::Undirected>) -> (r: Vec<Vec<(usize, u64)>>)
    ensures
        wview(r@) == pg_adjacency(*g),
        wadj_ok(wview(r@)),
{
    let n = pg_node_count(g);
    let mut rows: Vec<Vec<(usize, u64)>> = Vec::new();
    let mut u: usize = 0;
    while u < n
        invariant
            n == pg_adjacency(*g).len(),
            u <= n,
            rows@.len() == u,
            forall|k: int| 0 <= k < u ==> (#[trigger] rows@[k])@ == pg_adjacency(*g)[k],
            forall|k: int, j: int| 0 <= k < u && 0 <= j < rows@[k]@.len() ==> (#[trigger] rows@[k]@[j]).0 < n,
        decreases n - u,
    {
        let row = pg_edges(g, u);
        let ghost r0 = rows@;
        rows.push(row);
        proof {
            assert forall|k: int, j: int| 0 <= k < u + 1 && 0 <= j < rows@[k]@.len() implies (#[trigger] rows@[k]@[j]).0 < n by {
                if k < u {
                    assert(rows@[k] == r0[k]);
                }
            }
        }
        u += 1;
    }
    proof {
        assert(wview(rows@) =~= pg_adjacency(*g));
        assert forall|k: int, j: int| 0 <= k < wview(rows@).len() && 0 <= j < wview(rows@)[k].len()
            implies #[trigger] wview(rows@)[k][j].0 < wview(rows@).len() by {
            assert(rows@[k]@[j].0 < n);
        }
    }
    rows
}

/// Dijkstra's distances from `start` to every node (`INFINITY` where there is no path).
pub fn dijkstra_all(graph: &PetGraph<(), u64, petgraph::Undirected>, start: usize) -> (r: Result<Vec<u64>, PathError>)
    ensures
        r is Err <==> start >= pg_adjacency(*graph).len(),
        r is Err ==> r == Err::<Vec<u64>, PathError>(PathError::NodeOutOfRange),
        r matches Ok(d) ==> shortest_below(pg_adjacency(*graph), start, known_u64(d@), INFINITY as int),
{
    let adj = load_adjacency(graph);
    if start >= adj.len() {
        return Err(PathError::NodeOutOfRange);
    }
    Ok(dijkstra_adj(&adj, start))
}

/// Dijkstra's distance from `start` to `end`, stopping once `end` is settled (`INFINITY` where
/// there is no path).
pub fn dijkstra_single(graph: &PetGraph<(), u64, petgraph::Undirected>, start: usize, end: usize) -> (r: Result<u64, PathError>)
    ensures
        r is Err <==> start >= pg_adjacency(*graph).len() || end >= pg_adjacency(*graph).len(),
        r is Err ==> r == Err::<u64, PathError>(PathError::NodeOutOfRange),
        r matches Ok(x) ==> is_distance(pg_adjacency(*graph), start, end, x),
{
    let adj = load_adjacency(graph);
    if start >= adj.len() || end >= adj.len() {
        return Err(PathError::NodeOutOfRange);
    }
    Ok(dijkstra_adj_to(&adj, start, end))
}

/// Dial's distances from `start` with edge weights at most `max_cost` (`None` where there is
/// no path, or only one of `usize::MAX - max_cost` or more).
pub fn dial_all(graph: &PetGraph<(), u64, petgraph::Undirected>, start: usize, max_cost: usize)
    -> (r: Result<Vec<Option<usize>>, PathError>)
    ensures
        start >= pg_adjacency(*graph).len() <==> r == Err::<Vec<Option<usize>>, PathError>(PathError::NodeOutOfRange),
        start < pg_adjacency(*graph).len() ==> (max_cost == usize::MAX
            <==> r == Err::<Vec<Option<usize>>, PathError>(PathError::BoundTooLarge)),
        start < pg_adjacency(*graph).len() && max_cost < usize::MAX ==> (r == Err::<Vec<Option<usize>>, PathError>(
            PathError::WeightAboveBound) <==> exists|u: int, j: int| 0 <= u < pg_adjacency(*graph).len()
                && 0 <= j < pg_adjacency(*graph)[u].len() && (#[trigger] pg_adjacency(*graph)[u][j]).1 > max_cost),
        r matches Ok(d) ==> shortest_below(pg_adjacency(*graph), start, known_opt(d@), usize::MAX - max_cost),
{
    let adj = load_adjacency(graph);
    if start >= adj.len() {
        return Err(PathError::NodeOutOfRange);
    }
    if max_cost == usize::MAX {
        return Err(PathError::BoundTooLarge);
    }
    match dial_adj(&adj, start, max_cost) {
        Some(d) => Ok(d),
        None => Err(PathError::WeightAboveBound),
    }
}

/// Dial's distance from `start` to `end` with edge weights at most `max_cost`.
pub fn dial_single(graph: &PetGraph<(), u64, petgraph::Undirected>, start: usize, end: usize, max_cost: usize)
    -> (r: Result<Option<usize>, PathError>)
    ensures
        start >= pg_adjacency(*graph).len() || end >= pg_adjacency(*graph).len()
            <==> r == Err::<Option<usize>, PathError>(PathError::NodeOutOfRange),
        start < pg_adjacency(*graph).len() && end < pg_adjacency(*graph).len() ==> (max_cost == usize::MAX
            <==> r == Err::<Option<usize>, PathError>(PathError::BoundTooLarge)),
        start < pg_adjacency(*graph).len() && end < pg_adjacency(*graph).len() && max_cost < usize::MAX ==> (
            r == Err::<Option<usize>, PathError>(PathError::WeightAboveBound) <==> exists|u: int, j: int|
                0 <= u < pg_adjacency(*graph).len() && 0 <= j < pg_adjacency(*graph)[u].len()
                && (#[trigger] pg_adjacency(*graph)[u][j]).1 > max_cost),
        r matches Ok(x) ==> exists|d: Seq<Option<usize>>| shortest_below(pg_adjacency(*graph), start, known_opt(d), usize::MAX - max_cost)
            && #[trigger] d[end as int] == x,
{
    let adj = load_adjacency(graph);
    if start >= adj.len() || end >= adj.len() {
        return Err(PathError::NodeOutOfRange);
    }
    if max_cost == usize::MAX {
        return Err(PathError::BoundTooLarge);
    }
    match dial_adj(&adj, start, max_cost) {
        Some(d) => Ok(d[end]),
        None => Err(PathError::WeightAboveBound),
    }
}

} // verus!
