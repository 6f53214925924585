//! Directed graphs stored as adjacency lists over dense node indices.
use vstd::prelude::*;

verus! {

/// Errors reported by graph construction.
#[derive(Debug, Clone, Copy, PartialEq, Eq, Structural)]
pub enum GraphError {
    /// A node index is not below the node count.
    OutOfRange,
    /// The edge count would no longer fit in a `usize`.
    TooManyEdges,
}

/// A node with its index and the targets of its outgoing edges, in insertion order.
#[derive(Debug)]
pub struct Node {
    pub index: usize,
    pub edges: Vec<usize>,
}

impl Node {
    /// A node with the given index and no edges.
    pub fn new(index: usize) -> (r: Node)
        ensures
            r.index == index,
            r.edges@.len() == 0,
    {
        Node { index, edges: Vec::new() }
    }
}

/// A directed graph on the nodes `0..n`.
#[derive(Debug)]
pub struct Graph {
    pub(crate) n: usize,
    pub(crate) m: usize,
    pub(crate) adj: Vec<Vec<usize>>,
}

/// Total number of entries of an adjacency structure.
pub open spec fn total_edges(adj: Seq<Seq<usize>>) -> nat
    decreases adj.len(),
{
    if adj.len() == 0 {
        0
    } else {
        total_edges(adj.drop_last()) + adj.last().len()
    }
}

/// Every edge of `adj` ends at a node of `adj`.
pub open spec fn edges_in_range(adj: Seq<Seq<usize>>) -> bool {
    forall|u: int, j: int| 0 <= u < adj.len() && 0 <= j < adj[u].len() ==> adj[u][j] < adj.len()
}

/// `adj` with one more edge `u -> v`.
pub open spec fn with_edge(adj: Seq<Seq<usize>>, u: usize, v: usize) -> Seq<Seq<usize>> {
    adj.update(u as int, adj[u as int].push(v))
}

/// Replacing one adjacency list changes the edge total by the difference in length.
pub proof fn lemma_total_edges_update(adj: Seq<Seq<usize>>, u: int, row: Seq<usize>)
    requires
        0 <= u < adj.len(),
    ensures
        total_edges(adj.update(u, row)) == total_edges(adj) - adj[u].len() + row.len(),
    decreases adj.len(),
{
    if u < adj.len() - 1 {
        lemma_total_edges_update(adj.drop_last(), u, row);
        assert(adj.update(u, row).drop_last() =~= adj.drop_last().update(u, row));
    } else {
        assert(adj.update(u, row).drop_last() =~= adj.drop_last());
    }
}

/// Appending an adjacency list adds its length to the edge total.
pub proof fn lemma_total_edges_push(adj: Seq<Seq<usize>>, row: Seq<usize>)
    ensures
        total_edges(adj.push(row)) == total_edges(adj) + row.len(),
{
    assert(adj.push(row).drop_last() =~= adj);
}

impl Graph {
    /// The adjacency lists: entry `u` lists the targets of the edges leaving `u`.
    pub closed spec fn adj(&self) -> Seq<Seq<usize>> {
        self.adj@.map_values(|row: Vec<usize>| row@)
    }

    /// The node count matches the lists, every edge ends at a node, and the edge count is the total.
    pub closed spec fn wf(&self) -> bool {
        &&& self.n == self.adj@.len()
        &&& edges_in_range(self.adj())
        &&& self.m == total_edges(self.adj())
    }

    /// The number of nodes.
    pub open spec fn node_count(&self) -> nat {
        self.adj().len()
    }

    /// A graph of `n` nodes and no edges.
    pub fn new(n: usize) -> (g: Graph)
        ensures
            g.wf(),
            g.adj() == Seq::new(n as nat, |i: int| Seq::<usize>::empty()),
            total_edges(g.adj()) == 0,
    {
        let mut adj: Vec<Vec<usize>> = Vec::new();
        let mut i: usize = 0;
        while i < n
            invariant
                i <= n,
                adj@.len() == i,
                forall|k: int| 0 <= k < i ==> adj@[k]@ == Seq::<usize>::empty(),
                total_edges(adj@.map_values(|row: Vec<usize>| row@)) == 0,
            decreases n - i,
        {
            let ghost before = adj@;
            adj.push(Vec::new());
            proof {
                lemma_total_edges_push(before.map_values(|row: Vec<usize>| row@), Seq::empty());
                assert(adj@.map_values(|row: Vec<usize>| row@)
                    =~= before.map_values(|row: Vec<usize>| row@).push(Seq::empty()));
            }
            i += 1;
        }
        let g = Graph { n, m: 0, adj };
        assert(g.adj() =~= Seq::new(n as nat, |i: int| Seq::<usize>::empty()));
        g
    }

    /// What well-formedness gives to callers.
    pub proof fn lemma_wf(&self)
        requires
            self.wf(),
        ensures
            edges_in_range(self.adj()),
            total_edges(self.adj()) <= usize::MAX,
            self.adj().len() <= usize::MAX,
    {
    }

    /// The number of edges leaving `u`.
    pub fn degree(&self, u: usize) -> (r: usize)
        requires
            self.wf(),
            u < self.node_count(),
        ensures
            r == self.adj()[u as int].len(),
    {
        self.adj[u].len()
    }

    /// The target of the `j`-th edge leaving `u`.
    pub fn neighbor(&self, u: usize, j: usize) -> (r: usize)
        requires
            self.wf(),
            u < self.node_count(),
            j < self.adj()[u as int].len(),
        ensures
            r == self.adj()[u as int][j as int],
            r < self.node_count(),
    {
        self.adj[u][j]
    }

    /// The number of nodes.
    pub fn get_n(&self) -> (r: usize)
        requires
            self.wf(),
        ensures
            r == self.node_count(),
    {
        self.n
    }

    /// The number of edges.
    pub fn edge_count(&self) -> (r: usize)
        requires
            self.wf(),
        ensures
            r == total_edges(self.adj()),
    {
        self.m
    }

    /// Appends the edge `u -> v`; fails with `OutOfRange` when `u` or `v` is not a node.
    pub fn add_edge(&mut self, u: usize, v: usize) -> (r: Result<(), GraphError>)
        requires
            old(self).wf(),
        ensures
            final(self).wf(),
            u >= old(self).node_count() || v >= old(self).node_count() ==> r == Err::<(), GraphError>(GraphError::OutOfRange),
            r is Ok ==> final(self).adj() == with_edge(old(self).adj(), u, v),
            r is Err ==> final(self).adj() == old(self).adj(),
            r == Err::<(), GraphError>(GraphError::TooManyEdges) ==> total_edges(old(self).adj()) == usize::MAX,
            u < old(self).node_count() && v < old(self).node_count() && total_edges(old(self).adj()) < usize::MAX
                ==> r is Ok,
    {
        if u >= self.n || v >= self.n {
            return Err(GraphError::OutOfRange);
        }
        if self.m == usize::MAX {
            return Err(GraphError::TooManyEdges);
        }
        proof {
            lemma_total_edges_update(self.adj(), u as int, self.adj()[u as int].push(v));
        }
        self.adj[u].push(v);
        self.m = self.m + 1;
        assert(self.adj() =~= with_edge(old(self).adj(), u, v));
        Ok(())
    }

    /// The node `index` with a copy of its outgoing edges.
    pub fn get_node(&self, index: usize) -> (r: Node)
        requires
            self.wf(),
            index < self.node_count(),
        ensures
            r.index == index,
            r.edges@ == self.adj()[index as int],
    {
        Node { index, edges: self.adj[index].clone() }
    }

    /// Appends `node` as node `n`. Its index must be `n` and its edges must end at
    /// nodes `0..=n`; otherwise the graph is left unchanged and `OutOfRange` is returned.
    pub fn add_node(&mut self, node: Node) -> (r: Result<(), GraphError>)
        requires
            old(self).wf(),
        ensures
            final(self).wf(),
            r == Err::<(), GraphError>(GraphError::OutOfRange) <==> node.index != old(self).node_count()
                || (exists|j: int| 0 <= j < node.edges@.len() && node.edges@[j] > old(self).node_count()),
            r is Ok <==> node.index == old(self).node_count()
                && (forall|j: int| 0 <= j < node.edges@.len() ==> node.edges@[j] <= old(self).node_count())
                && total_edges(old(self).adj()) + node.edges@.len() <= usize::MAX
                && old(self).node_count() < usize::MAX,
            r is Ok ==> final(self).adj() == old(self).adj().push(node.edges@),
            r is Err ==> final(self).adj() == old(self).adj(),
    {
        if node.index != self.n {
            return Err(GraphError::OutOfRange);
        }
        let mut j: usize = 0;
        while j < node.edges.len()
            invariant
                j <= node.edges@.len(),
                *self == *old(self),
                self.wf(),
                forall|k: int| 0 <= k < j ==> node.edges@[k] <= self.n,
            decreases node.edges@.len() - j,
        {
            if node.edges[j] > self.n {
                assert(node.edges@[j as int] > self.n);
                return Err(GraphError::OutOfRange);
            }
            j += 1;
        }
        if node.edges.len() > usize::MAX - self.m || self.n == usize::MAX {
            return Err(GraphError::TooManyEdges);
        }
        proof {
            lemma_total_edges_push(self.adj(), node.edges@);
        }
        let k = node.edges.len();
        let ghost row = node.edges@;
        self.adj.push(node.edges);
        self.n = self.n + 1;
        self.m = self.m + k;
        assert(self.adj() =~= old(self).adj().push(row));
        Ok(())
    }
}

} // verus!
