//! Two-colouring by breadth-first search.
use vstd::prelude::*;
use crate::graph::{edges_in_range, Graph};
use crate::traversal::is_forest_root;
use crate::reach::{closed, count_unmarked, lemma_count_mark, lemma_reach_refl, lemma_reach_step, reachable};

verus! {

/// `side` colours the nodes so that every edge joins the two colours.
pub open spec fn is_two_colouring(adj: Seq<Seq<usize>>, side: Seq<bool>) -> bool {
    &&& side.len() == adj.len()
    &&& forall|u: int, j: int| 0 <= u < adj.len() && 0 <= j < adj[u].len() ==> side[u] != side[#[trigger] adj[u][j] as int]
}

/// The graph has a two-colouring.
pub open spec fn is_bipartite(adj: Seq<Seq<usize>>) -> bool {
    exists|side: Seq<bool>| #[trigger] is_two_colouring(adj, side)
}

/// Every edge has its reverse: the graph is undirected.
pub open spec fn is_symmetric(adj: Seq<Seq<usize>>) -> bool {
    forall|u: int, j: int| 0 <= u < adj.len() && 0 <= j < adj[u].len() ==> adj[#[trigger] adj[u][j] as int].contains(u as usize)
}

/// What the search knows of a coloured node: its colour is `1` or `-1`, and in every
/// two-colouring it shares the colour of its search root exactly when its own colour is `1`.
pub open spec fn forced(adj: Seq<Seq<usize>>, color: Seq<i32>, root: Seq<usize>, x: int) -> bool {
    &&& color[x] == 1 || color[x] == -1
    &&& root[x] < adj.len()
    &&& color[root[x] as int] == 1
    &&& forall|side: Seq<bool>| #[trigger] is_two_colouring(adj, side) ==> (side[x] == side[root[x] as int] <==> color[x] == 1)
}

impl Graph {
    /// Colours the part of the graph that a breadth-first search from `i` reaches over uncoloured
    /// nodes: `i` gets `1`, each newly reached node the opposite of the node that reached it.
    /// Returns `false` as soon as an edge joins two nodes of one colour.
    #[verifier::spinoff_prover]
    #[verifier::rlimit(50)]
    fn bfs_bipartition(
        &self,
        i: usize,
        visited: &mut Vec<bool>,
        color: &mut Vec<i32>,
        Ghost(root0): Ghost<Seq<usize>>,
    ) -> (r: (bool, Ghost<Seq<usize>>))
        requires
            self.wf(),
            i < self.node_count(),
            old(visited)@.len() == self.node_count(),
            old(color)@.len() == self.node_count(),
            root0.len() == self.node_count(),
            !old(visited)@[i as int],
            closed(self.adj(), old(visited)@),
            forall|x: int| 0 <= x < self.node_count() && old(visited)@[x] ==> #[trigger] forced(self.adj(), old(color)@, root0, x),
            forall|x: int| 0 <= x < self.node_count() && old(visited)@[x] ==> old(visited)@[#[trigger] root0[x] as int],
            forall|u: int, j: int| 0 <= u < self.node_count() && old(visited)@[u] && 0 <= j < self.adj()[u].len()
                ==> old(color)@[u] != #[trigger] old(color)@[self.adj()[u][j] as int],
        ensures
            final(visited)@.len() == self.node_count(),
            final(color)@.len() == self.node_count(),
            r.1@.len() == self.node_count(),
            count_unmarked(final(visited)@) <= count_unmarked(old(visited)@),
            forall|x: int| 0 <= x < self.node_count() && final(visited)@[x] ==> #[trigger] forced(self.adj(), final(color)@, r.1@, x),
            forall|x: int| 0 <= x < self.node_count() && final(visited)@[x] ==> final(visited)@[#[trigger] r.1@[x] as int],
            forall|x: int| 0 <= x < self.node_count() && old(visited)@[x] ==> #[trigger] final(visited)@[x],
            final(visited)@[i as int],
            r.0 ==> closed(self.adj(), final(visited)@),
            r.0 ==> forall|u: int, j: int| 0 <= u < self.node_count() && final(visited)@[u] && 0 <= j < self.adj()[u].len()
                ==> final(color)@[u] != #[trigger] final(color)@[self.adj()[u][j] as int],
            !r.0 ==> (!is_bipartite(self.adj()) || !is_symmetric(self.adj())),
            final(color)@[i as int] == 1,
            forall|x: int| 0 <= x < self.node_count() && old(visited)@[x] ==> #[trigger] final(color)@[x] == old(color)@[x],
            forall|x: usize| x < self.node_count() && #[trigger] final(visited)@[x as int] && !old(visited)@[x as int]
                ==> reachable(self.adj(), i, x),
    {
        let ghost adj = self.adj();
        let ghost n = adj.len();
        let ghost m0 = visited@;
        let ghost mut root = root0;
        proof {
            self.lemma_wf();
            lemma_count_mark(visited@, i as int);
        }
        let mut queue: Vec<usize> = Vec::new();
        queue.push(i);
        visited[i] = true;
        color[i] = 1;
        proof {
            root = root.update(i as int, i);
        }
        let mut head: usize = 0;
        proof {
            lemma_reach_refl(adj, i);
            assert(queue@[0] == i);
            assert forall|x: int| 0 <= x < n && visited@[x] implies #[trigger] forced(adj, color@, root, x) by {
                if x != i as int {
                    assert(m0[x]);
                    assert(forced(adj, old(color)@, root0, x));
                    assert(m0[root0[x] as int]);
                    assert(root[x] != i);
                }
            }
            assert forall|x: int| 0 <= x < n && visited@[x] implies visited@[#[trigger] root[x] as int] by {
                if x != i as int {
                    assert(m0[x]);
                    assert(forced(adj, old(color)@, root0, x));
                    assert(root[x] == root0[x]);
                    assert(m0[root0[x] as int]);
                } else {
                    assert(root[i as int] == i);
                    assert(visited@[i as int]);
                }
            }
        }
        while head < queue.len()
            invariant
                self.wf(),
                adj == self.adj(),
                n == adj.len(),
                n <= usize::MAX,
                edges_in_range(adj),
                visited@.len() == n,
                color@.len() == n,
                root.len() == n,
                closed(adj, m0),
                m0 == old(visited)@,
                head <= queue@.len(),
                visited@[i as int],
                count_unmarked(visited@) < count_unmarked(m0),
                forall|k: int| 0 <= k < queue@.len() ==> #[trigger] queue@[k] < n && visited@[queue@[k] as int]
                    && !m0[queue@[k] as int] && root[queue@[k] as int] == i,
                forall|k1: int, k2: int| 0 <= k1 < k2 < queue@.len() ==> #[trigger] queue@[k1] != #[trigger] queue@[k2],
                forall|x: int| 0 <= x < n && visited@[x] && !m0[x] ==> #[trigger] queue@.contains(x as usize),
                forall|x: int| 0 <= x < n && m0[x] ==> #[trigger] visited@[x],
                forall|x: int| 0 <= x < n && m0[x] ==> #[trigger] color@[x] == old(color)@[x] && root[x] == root0[x],
                forall|x: int| 0 <= x < n && visited@[x] ==> #[trigger] forced(adj, color@, root, x),
                forall|x: int| 0 <= x < n && visited@[x] ==> visited@[#[trigger] root[x] as int],
                forall|u: int, j: int| 0 <= u < n && m0[u] && 0 <= j < adj[u].len()
                    ==> color@[u] != #[trigger] color@[adj[u][j] as int],
                forall|k: int, j: int| 0 <= k < head && 0 <= j < adj[queue@[k] as int].len()
                    ==> #[trigger] visited@[adj[queue@[k] as int][j] as int],
                forall|k: int, j: int| 0 <= k < head && 0 <= j < adj[queue@[k] as int].len()
                    ==> color@[queue@[k] as int] != #[trigger] color@[adj[queue@[k] as int][j] as int],
                count_unmarked(visited@) + queue@.len() == count_unmarked(m0),
                color@[i as int] == 1,
                i < n,
                forall|k: int| 0 <= k < queue@.len() ==> reachable(adj, i, #[trigger] queue@[k]),
            decreases count_unmarked(visited@) + queue@.len() - head,
        {
            let u = queue[head];
            let deg = self.degree(u);
            let mut j: usize = 0;
            while j < deg
                invariant
                    self.wf(),
                    adj == self.adj(),
                    n == adj.len(),
                    n <= usize::MAX,
                    edges_in_range(adj),
                    visited@.len() == n,
                    color@.len() == n,
                    root.len() == n,
                    closed(adj, m0),
                    m0 == old(visited)@,
                    head < queue@.len(),
                    u == queue@[head as int],
                    deg == adj[u as int].len(),
                    j <= deg,
                    visited@[i as int],
                    count_unmarked(visited@) < count_unmarked(m0),
                    forall|k: int| 0 <= k < queue@.len() ==> #[trigger] queue@[k] < n && visited@[queue@[k] as int]
                        && !m0[queue@[k] as int] && root[queue@[k] as int] == i,
                    forall|k1: int, k2: int| 0 <= k1 < k2 < queue@.len() ==> #[trigger] queue@[k1] != #[trigger] queue@[k2],
                    forall|x: int| 0 <= x < n && visited@[x] && !m0[x] ==> #[trigger] queue@.contains(x as usize),
                    forall|x: int| 0 <= x < n && m0[x] ==> #[trigger] visited@[x],
                    forall|x: int| 0 <= x < n && m0[x] ==> #[trigger] color@[x] == old(color)@[x] && root[x] == root0[x],
                    forall|x: int| 0 <= x < n && visited@[x] ==> #[trigger] forced(adj, color@, root, x),
                    forall|x: int| 0 <= x < n && visited@[x] ==> visited@[#[trigger] root[x] as int],
                    forall|u2: int, j2: int| 0 <= u2 < n && m0[u2] && 0 <= j2 < adj[u2].len()
                        ==> color@[u2] != #[trigger] color@[adj[u2][j2] as int],
                    forall|k: int, j2: int| 0 <= k < head && 0 <= j2 < adj[queue@[k] as int].len()
                        ==> #[trigger] visited@[adj[queue@[k] as int][j2] as int],
                    forall|k: int, j2: int| 0 <= k < head && 0 <= j2 < adj[queue@[k] as int].len()
                        ==> color@[queue@[k] as int] != #[trigger] color@[adj[queue@[k] as int][j2] as int],
                    forall|j2: int| 0 <= j2 < j ==> #[trigger] visited@[adj[u as int][j2] as int],
                    forall|j2: int| 0 <= j2 < j ==> color@[u as int] != #[trigger] color@[adj[u as int][j2] as int],
                    count_unmarked(visited@) + queue@.len() == count_unmarked(m0),
                    color@[i as int] == 1,
                    i < n,
                    forall|k: int| 0 <= k < queue@.len() ==> reachable(adj, i, #[trigger] queue@[k]),
                decreases deg - j,
            {
                let v = self.neighbor(u, j);
                if !visited[v] {
                    let ghost q0 = queue@;
                    let ghost c0 = color@;
                    let ghost r0 = root;
                    let ghost v0 = visited@;
                    proof {
                        assert(reachable(adj, i, u));
                        assert(adj[u as int][j as int] == v);
                        assert(adj[u as int].contains(v));
                        lemma_reach_step(adj, i, u, v);
                        assert(v != i);
                        assert(!visited@[v as int]);
                        lemma_count_mark(visited@, v as int);
                        assert(forced(adj, color@, root, u as int));
                        assert(visited@[root[u as int] as int]);
                    }
                    visited[v] = true;
                    color[v] = -color[u];
                    proof {
                        root = root.update(v as int, root[u as int]);
                    }
                    queue.push(v);
                    proof {
                        assert(adj[u as int][j as int] == v);
                        assert forall|side: Seq<bool>| #[trigger] is_two_colouring(adj, side)
                            implies (side[v as int] == side[root[v as int] as int] <==> color@[v as int] == 1) by {
                            assert(side[u as int] != side[adj[u as int][j as int] as int]);
                            assert(side[u as int] == side[r0[u as int] as int] <==> c0[u as int] == 1);
                        }
                        assert forall|x: int| 0 <= x < n && visited@[x] implies #[trigger] forced(adj, color@, root, x) by {
                            if x != v as int {
                                assert(forced(adj, c0, r0, x));
                                assert(r0[x] != v);
                                assert forall|side: Seq<bool>| #[trigger] is_two_colouring(adj, side)
                                    implies (side[x] == side[root[x] as int] <==> color@[x] == 1) by {
                                    assert(side[x] == side[r0[x] as int] <==> c0[x] == 1);
                                }
                            }
                        }
                        assert forall|k: int| 0 <= k < queue@.len() implies #[trigger] queue@[k] < n && visited@[queue@[k] as int]
                            && !m0[queue@[k] as int] && root[queue@[k] as int] == i by {
                            if k < q0.len() {
                                assert(queue@[k] == q0[k]);
                            } else {
                                assert(!m0[v as int]);
                            }
                        }
                        assert forall|k: int| 0 <= k < queue@.len() implies reachable(adj, i, #[trigger] queue@[k]) by {
                            if k < q0.len() {
                                assert(queue@[k] == q0[k]);
                            }
                        }
                        assert forall|k1: int, k2: int| 0 <= k1 < k2 < queue@.len() implies #[trigger] queue@[k1] != #[trigger] queue@[k2] by {
                            if k2 == q0.len() {
                                assert(queue@[k1] == q0[k1]);
                            } else {
                                assert(queue@[k1] == q0[k1] && queue@[k2] == q0[k2]);
                            }
                        }
                        assert forall|x: int| 0 <= x < n && visited@[x] && !m0[x] implies #[trigger] queue@.contains(x as usize) by {
                            if x == v as int {
                                assert(queue@[q0.len() as int] == v);
                            } else {
                                assert(q0.contains(x as usize));
                                let k = choose|k: int| 0 <= k < q0.len() && q0[k] == x as usize;
                                assert(queue@[k] == x as usize);
                            }
                        }
                        assert forall|k: int, j2: int| 0 <= k < head && 0 <= j2 < adj[queue@[k] as int].len()
                            implies #[trigger] visited@[adj[queue@[k] as int][j2] as int] by {
                            assert(queue@[k] == q0[k]);
                            assert(v0[adj[q0[k] as int][j2] as int]);
                        }
                        assert forall|k: int, j2: int| 0 <= k < head && 0 <= j2 < adj[queue@[k] as int].len()
                            implies color@[queue@[k] as int] != #[trigger] color@[adj[queue@[k] as int][j2] as int] by {
                            assert(queue@[k] == q0[k]);
                            assert(v0[adj[q0[k] as int][j2] as int]);
                            assert(c0[q0[k] as int] != c0[adj[q0[k] as int][j2] as int]);
                            assert(q0[k] != v);
                            assert(adj[q0[k] as int][j2] != v);
                        }
                        assert forall|j2: int| 0 <= j2 < j + 1 implies #[trigger] visited@[adj[u as int][j2] as int]
                            && color@[u as int] != #[trigger] color@[adj[u as int][j2] as int] by {
                            if j2 < j {
                                assert(v0[adj[u as int][j2] as int]);
                                assert(c0[u as int] != c0[adj[u as int][j2] as int]);
                                assert(adj[u as int][j2] != v);
                            }
                        }
                        assert forall|x: int| 0 <= x < n && visited@[x] implies visited@[#[trigger] root[x] as int] by {
                            if x != v as int {
                                assert(v0[x]);
                                assert(forced(adj, c0, r0, x));
                                assert(v0[r0[x] as int]);
                            }
                        }
                        assert forall|u2: int, j2: int| 0 <= u2 < n && m0[u2] && 0 <= j2 < adj[u2].len()
                            implies color@[u2] != #[trigger] color@[adj[u2][j2] as int] by {
                            assert(m0[adj[u2][j2] as int]);
                        }
                    }
                } else if color[v] == color[u] {
                    proof {
                        assert(adj[u as int][j as int] == v);
                        if is_symmetric(adj) {
                            assert(root[v as int] == i) by {
                                if m0[v as int] {
                                    assert(adj[v as int].contains(u));
                                    let k = choose|k: int| 0 <= k < adj[v as int].len() && adj[v as int][k] == u;
                                    assert(m0[adj[v as int][k] as int]);
                                } else {
                                    assert(queue@.contains(v));
                                }
                            }
                            if is_bipartite(adj) {
                                let side = choose|side: Seq<bool>| #[trigger] is_two_colouring(adj, side);
                                assert(forced(adj, color@, root, u as int));
                                assert(forced(adj, color@, root, v as int));
                                assert(side[u as int] != side[adj[u as int][j as int] as int]);
                            }
                        }
                    }
                    proof {
                        assert forall|x: usize| x < n && #[trigger] visited@[x as int] && !m0[x as int]
                            implies reachable(adj, i, x) by {
                            assert(queue@.contains((x as int) as usize));
                            let k = choose|k: int| 0 <= k < queue@.len() && queue@[k] == x;
                            assert(reachable(adj, i, queue@[k]));
                        }
                    }
                    return (false, Ghost(root));
                } else {
                    proof {
                        assert(adj[u as int][j as int] == v);
                        assert forall|j2: int| 0 <= j2 < j + 1 implies #[trigger] visited@[adj[u as int][j2] as int]
                            && color@[u as int] != #[trigger] color@[adj[u as int][j2] as int] by {
                            if j2 < j {
                                assert(visited@[adj[u as int][j2] as int]);
                                assert(color@[u as int] != color@[adj[u as int][j2] as int]);
                            }
                        }
                    }
                }
                j += 1;
            }
            proof {
                assert forall|k: int, j2: int| 0 <= k < head + 1 && 0 <= j2 < adj[queue@[k] as int].len()
                    implies #[trigger] visited@[adj[queue@[k] as int][j2] as int] by {
                    if k == head {
                        assert(queue@[k] == u);
                        assert(visited@[adj[u as int][j2] as int]);
                    }
                }
                assert forall|k: int, j2: int| 0 <= k < head + 1 && 0 <= j2 < adj[queue@[k] as int].len()
                    implies color@[queue@[k] as int] != #[trigger] color@[adj[queue@[k] as int][j2] as int] by {
                    if k == head {
                        assert(queue@[k] == u);
                        assert(visited@[adj[u as int][j2] as int]);
                        assert(color@[u as int] != color@[adj[u as int][j2] as int]);
                    } else {
                        assert(visited@[adj[queue@[k] as int][j2] as int]);
                        assert(color@[queue@[k] as int] != color@[adj[queue@[k] as int][j2] as int]);
                    }
                }
            }
            head += 1;
        }
        proof {
            assert(closed(adj, visited@)) by {
                assert forall|x: int, j: int| 0 <= x < adj.len() && visited@[x] && 0 <= j < adj[x].len()
                    implies #[trigger] visited@[adj[x][j] as int] by {
                    if !m0[x] {
                        assert(queue@.contains(x as usize));
                        let k = choose|k: int| 0 <= k < queue@.len() && queue@[k] == x as usize;
                        assert(queue@[k] as int == x);
                        assert(visited@[adj[queue@[k] as int][j] as int]);
                    }
                }
            }
            assert forall|u: int, j: int| 0 <= u < n && visited@[u] && 0 <= j < adj[u].len()
                implies color@[u] != #[trigger] color@[adj[u][j] as int] by {
                if !m0[u] {
                    assert(queue@.contains(u as usize));
                    let k = choose|k: int| 0 <= k < queue@.len() && queue@[k] == u as usize;
                    assert(queue@[k] as int == u);
                    assert(visited@[adj[queue@[k] as int][j] as int]);
                    assert(color@[queue@[k] as int] != color@[adj[queue@[k] as int][j] as int]);
                }
            }
        }
        proof {
            assert forall|x: usize| x < n && #[trigger] visited@[x as int] && !m0[x as int]
                implies reachable(adj, i, x) by {
                assert(queue@.contains((x as int) as usize));
                let k = choose|k: int| 0 <= k < queue@.len() && queue@[k] == x;
                assert(reachable(adj, i, queue@[k]));
            }
        }
        (true, Ghost(root))
    }

    /// Splits the nodes into two sides with every edge between them, colouring each
    /// component by breadth-first search from its least node. Returns the sides in increasing
    /// order, or `None` when the search meets an edge inside one side. On an undirected graph
    /// (every edge has its reverse) `None` means that no such split exists.
    pub fn get_bipartition(&self) -> (r: Option<(Vec<usize>, Vec<usize>)>)
        requires
            self.wf(),
        ensures
            r is None ==> !is_bipartite(self.adj()) || !is_symmetric(self.adj()),
            r matches Some((a, b)) ==> {
                &&& is_two_colouring(self.adj(), Seq::new(self.node_count(), |x: int| a@.contains(x as usize)))
                &&& forall|x: usize| x < self.node_count() ==> (#[trigger] a@.contains(x) <==> !b@.contains(x))
                &&& forall|x: usize| x < self.node_count() && #[trigger] is_forest_root(self.adj(), x) ==> a@.contains(x)
                &&& forall|k: int| 0 <= k < a@.len() ==> #[trigger] a@[k] < self.node_count()
                &&& forall|k: int| 0 <= k < b@.len() ==> #[trigger] b@[k] < self.node_count()
                &&& forall|k1: int, k2: int| 0 <= k1 < k2 < a@.len() ==> #[trigger] a@[k1] < #[trigger] a@[k2]
                &&& forall|k1: int, k2: int| 0 <= k1 < k2 < b@.len() ==> #[trigger] b@[k1] < #[trigger] b@[k2]
            },
    {
        let ghost adj = self.adj();
        let n = self.get_n();
        let mut visited = vec![false; n];
        let mut color = vec![0i32; n];
        let ghost mut root = Seq::new(n as nat, |x: int| 0usize);
        proof {
            self.lemma_wf();
            assert(visited@ =~= Seq::new(n as nat, |x: int| false));
        }
        let mut i: usize = 0;
        while i < n
            invariant
                self.wf(),
                adj == self.adj(),
                n == adj.len(),
                i <= n,
                visited@.len() == n,
                color@.len() == n,
                root.len() == n,
                closed(adj, visited@),
                forall|x: int| 0 <= x < i ==> #[trigger] visited@[x],
                forall|x: int| 0 <= x < n && visited@[x] ==> #[trigger] forced(adj, color@, root, x),
                forall|x: int| 0 <= x < n && visited@[x] ==> visited@[#[trigger] root[x] as int],
                forall|u: int, j: int| 0 <= u < n && visited@[u] && 0 <= j < adj[u].len()
                    ==> color@[u] != #[trigger] color@[adj[u][j] as int],
                forall|x: usize| x < n && #[trigger] visited@[x as int] ==> exists|y: usize| y < i && #[trigger] reachable(adj, y, x),
                forall|x: usize| x < i && #[trigger] is_forest_root(adj, x) ==> color@[x as int] == 1,
            decreases n - i,
        {
            if !visited[i] {
                let ghost vis0 = visited@;
                let ghost col0 = color@;
                let (ok, Ghost(r2)) = self.bfs_bipartition(i, &mut visited, &mut color, Ghost(root));
                proof {
                    root = r2;
                }
                if !ok {
                    return None;
                }
                proof {
                    assert forall|x: usize| x < n && #[trigger] visited@[x as int] implies exists|y: usize| y < i + 1 && #[trigger] reachable(adj, y, x) by {
                        if vis0[x as int] {
                            let y = choose|y: usize| y < i && #[trigger] reachable(adj, y, x);
                            assert(y < i + 1 && reachable(adj, y, x));
                        } else {
                            assert(reachable(adj, i, x));
                        }
                    }
                    assert forall|x: usize| x < i + 1 && #[trigger] is_forest_root(adj, x) implies color@[x as int] == 1 by {
                        if x < i {
                            assert(vis0[x as int]);
                            assert(color@[x as int] == col0[x as int]);
                        }
                    }
                }
            } else {
                proof {
                    assert forall|x: usize| x < i + 1 && #[trigger] is_forest_root(adj, x) implies color@[x as int] == 1 by {
                        if x == i {
                            let y = choose|y: usize| y < i && #[trigger] reachable(adj, y, i);
                            assert(!is_forest_root(adj, i));
                        }
                    }
                    assert forall|x: usize| x < n && #[trigger] visited@[x as int] implies exists|y: usize| y < i + 1 && #[trigger] reachable(adj, y, x) by {
                        let y = choose|y: usize| y < i && #[trigger] reachable(adj, y, x);
                        assert(y < i + 1 && reachable(adj, y, x));
                    }
                }
            }
            i += 1;
        }
        let mut a: Vec<usize> = Vec::new();
        let mut b: Vec<usize> = Vec::new();
        let mut x: usize = 0;
        while x < n
            invariant
                n == adj.len(),
                x <= n,
                color@.len() == n,
                forall|k: int| 0 <= k < a@.len() ==> #[trigger] a@[k] < x,
                forall|k: int| 0 <= k < b@.len() ==> #[trigger] b@[k] < x,
                forall|k1: int, k2: int| 0 <= k1 < k2 < a@.len() ==> #[trigger] a@[k1] < #[trigger] a@[k2],
                forall|k1: int, k2: int| 0 <= k1 < k2 < b@.len() ==> #[trigger] b@[k1] < #[trigger] b@[k2],
                forall|y: usize| y < x ==> (#[trigger] a@.contains(y) <==> color@[y as int] == 1),
                forall|y: usize| y < x ==> (#[trigger] b@.contains(y) <==> color@[y as int] != 1),
                forall|k: int| 0 <= k < a@.len() ==> color@[#[trigger] a@[k] as int] == 1,
                forall|k: int| 0 <= k < b@.len() ==> color@[#[trigger] b@[k] as int] != 1,
            decreases n - x,
        {
            if color[x] == 1 {
                let ghost a0 = a@;
                a.push(x);
                proof {
                    assert forall|y: usize| y < x + 1 implies (#[trigger] a@.contains(y) <==> color@[y as int] == 1) by {
                        if a@.contains(y) && y != x {
                            let k = choose|k: int| 0 <= k < a@.len() && a@[k] == y;
                            assert(k < a0.len());
                            assert(a0[k] == y);
                        }
                        if y < x && color@[y as int] == 1 {
                            assert(a0.contains(y));
                            let k = choose|k: int| 0 <= k < a0.len() && a0[k] == y;
                            assert(a@[k] == y);
                        }
                        if y == x {
                            assert(a@[a0.len() as int] == x);
                        }
                    }
                    assert forall|y: usize| y < x + 1 implies (#[trigger] b@.contains(y) <==> color@[y as int] != 1) by {
                        if b@.contains(y) {
                            let k = choose|k: int| 0 <= k < b@.len() && b@[k] == y;
                            assert(b@[k] < x);
                        }
                    }
                }
            } else {
                let ghost b0 = b@;
                b.push(x);
                proof {
                    assert forall|y: usize| y < x + 1 implies (#[trigger] b@.contains(y) <==> color@[y as int] != 1) by {
                        if b@.contains(y) && y != x {
                            let k = choose|k: int| 0 <= k < b@.len() && b@[k] == y;
                            assert(k < b0.len());
                            assert(b0[k] == y);
                        }
                        if y < x && color@[y as int] != 1 {
                            assert(b0.contains(y));
                            let k = choose|k: int| 0 <= k < b0.len() && b0[k] == y;
                            assert(b@[k] == y);
                        }
                        if y == x {
                            assert(b@[b0.len() as int] == x);
                        }
                    }
                    assert forall|y: usize| y < x + 1 implies (#[trigger] a@.contains(y) <==> color@[y as int] == 1) by {
                        if a@.contains(y) {
                            let k = choose|k: int| 0 <= k < a@.len() && a@[k] == y;
                            assert(a@[k] < x);
                        }
                    }
                }
            }
            x += 1;
        }
        proof {
            assert forall|x: usize| x < n && #[trigger] is_forest_root(adj, x) implies a@.contains(x) by {
                assert(color@[x as int] == 1);
            }
            let side = Seq::new(n as nat, |x: int| a@.contains(x as usize));
            assert forall|u: int, j: int| 0 <= u < adj.len() && 0 <= j < adj[u].len() implies side[u] != side[#[trigger] adj[u][j] as int] by {
                let w = adj[u][j];
                assert(visited@[u]);
                assert(color@[u] != color@[w as int]);
                assert(forced(adj, color@, root, u));
                assert(visited@[w as int]);
                assert(forced(adj, color@, root, w as int));
                assert(a@.contains(u as usize) <==> color@[u] == 1);
                assert(a@.contains(w) <==> color@[w as int] == 1);
            }
        }
        Some((a, b))
    }
}

/// Colours alternate along a walk of a two-coloured graph.
proof fn lemma_colours_alternate(adj: Seq<Seq<usize>>, side: Seq<bool>, p: Seq<usize>, k: int)
    requires
        is_two_colouring(adj, side),
        crate::reach::is_path(adj, p),
        0 <= k < p.len(),
    ensures
        side[p[k] as int] == side[p[0] as int] <==> k % 2 == 0,
    decreases k,
{
    if k > 0 {
        lemma_colours_alternate(adj, side, p, k - 1);
        let m = k - 1;
        assert(adj[p[m] as int].contains(p[m + 1]));
        let j = choose|j: int| 0 <= j < adj[p[m] as int].len() && adj[p[m] as int][j] == p[m + 1];
        assert(side[p[m] as int] != side[adj[p[m] as int][j] as int]);
    }
}

/// A closed walk with an odd number of edges, such as a triangle, rules out every
/// two-colouring.
pub proof fn lemma_odd_cycle_not_bipartite(adj: Seq<Seq<usize>>, cycle: Seq<usize>)
    requires
        crate::reach::is_path(adj, cycle),
        cycle[0] == cycle.last(),
        (cycle.len() - 1) % 2 == 1,
    ensures
        !is_bipartite(adj),
{
    if is_bipartite(adj) {
        let side = choose|side: Seq<bool>| #[trigger] is_two_colouring(adj, side);
        lemma_colours_alternate(adj, side, cycle, cycle.len() - 1);
    }
}

} // verus!
