//! Strongly connected components by Kosaraju's two passes.
use vstd::prelude::*;
use crate::graph::{edges_in_range, total_edges, Graph};
use crate::reach::{
    closed, count_unmarked, is_path, lemma_count_all_marked, lemma_count_mark, lemma_count_none_marked,
    lists_marked, no_dup, reachable,
};
use crate::topo::{lemma_occ_push, lemma_occ_take_step, lemma_total_take, occ};
use crate::reach::{lemma_closed_reach, lemma_reach_refl, lemma_reach_step, lemma_reach_trans};
use crate::traversal::{is_permutation, pending};

verus! {

/// `t` has the edges of `adj` reversed, and no others.
pub open spec fn is_transpose(adj: Seq<Seq<usize>>, t: Seq<Seq<usize>>) -> bool {
    &&& t.len() == adj.len()
    &&& forall|u: int, j: int| 0 <= u < adj.len() && 0 <= j < adj[u].len() ==> t[#[trigger] adj[u][j] as int].contains(u as usize)
    &&& forall|v: int, k: int| 0 <= v < t.len() && 0 <= k < t[v].len() ==> adj[#[trigger] t[v][k] as int].contains(v as usize)
}

/// The graph seen from the unmarked nodes: an edge into a marked node stands as a loop on its
/// source, so walks from an unmarked node reach exactly what is reachable through unmarked nodes.
pub open spec fn white_adj(adj: Seq<Seq<usize>>, marked: Seq<bool>) -> Seq<Seq<usize>> {
    Seq::new(adj.len(), |x: int| Seq::new(adj[x].len(), |j: int|
        if marked[adj[x][j] as int] { x as usize } else { adj[x][j] }))
}

/// In `order`, an edge from a node to a later node comes with a walk back: each node comes after
/// every node it reaches that does not reach it.
pub open spec fn finishing_order(adj: Seq<Seq<usize>>, order: Seq<usize>, from: int) -> bool {
    forall|p: int, q: int| from <= p < q < order.len() && adj[order[p] as int].contains(#[trigger] order[q])
        ==> reachable(adj, order[q], #[trigger] order[p])
}

/// The components laid end to end.
pub open spec fn flatten(comps: Seq<Seq<usize>>) -> Seq<usize>
    decreases comps.len(),
{
    if comps.len() == 0 {
        Seq::empty()
    } else {
        flatten(comps.drop_last()) + comps.last()
    }
}

/// A walk in the transpose is a walk back in the graph.
proof fn lemma_transpose_reach(adj: Seq<Seq<usize>>, t: Seq<Seq<usize>>, u: usize, v: usize)
    requires
        is_transpose(adj, t),
        edges_in_range(adj),
        reachable(t, u, v),
    ensures
        reachable(adj, v, u),
{
    let p = choose|p: Seq<usize>| #[trigger] is_path(t, p) && p[0] == u && p.last() == v;
    let q = p.reverse();
    assert forall|i: int| 0 <= i < q.len() implies #[trigger] q[i] < adj.len() by {
        assert(q[i] == p[p.len() - 1 - i]);
    }
    assert forall|i: int| 0 <= i < q.len() - 1 implies #[trigger] adj[q[i] as int].contains(q[i + 1]) by {
        let a = p.len() - 2 - i;
        assert(q[i] == p[a + 1]);
        assert(q[i + 1] == p[a]);
        assert(t[p[a] as int].contains(p[a + 1]));
        let k = choose|k: int| 0 <= k < t[p[a] as int].len() && t[p[a] as int][k] == p[a + 1];
        assert(adj[t[p[a] as int][k] as int].contains(p[a]));
    }
    assert(is_path(adj, q));
    assert(q[0] == v);
    assert(q.last() == u);
}

/// A walk in the graph is a walk back in the transpose.
proof fn lemma_reach_transpose(adj: Seq<Seq<usize>>, t: Seq<Seq<usize>>, u: usize, v: usize)
    requires
        is_transpose(adj, t),
        edges_in_range(adj),
        reachable(adj, u, v),
    ensures
        reachable(t, v, u),
{
    let p = choose|p: Seq<usize>| #[trigger] is_path(adj, p) && p[0] == u && p.last() == v;
    let q = p.reverse();
    assert forall|i: int| 0 <= i < q.len() implies #[trigger] q[i] < t.len() by {
        assert(q[i] == p[p.len() - 1 - i]);
    }
    assert forall|i: int| 0 <= i < q.len() - 1 implies #[trigger] t[q[i] as int].contains(q[i + 1]) by {
        let a = p.len() - 2 - i;
        assert(q[i] == p[a + 1]);
        assert(q[i + 1] == p[a]);
        assert(adj[p[a] as int].contains(p[a + 1]));
        let k = choose|k: int| 0 <= k < adj[p[a] as int].len() && adj[p[a] as int][k] == p[a + 1];
        assert(t[adj[p[a] as int][k] as int].contains(p[a]));
    }
    assert(is_path(t, q));
    assert(q[0] == v);
    assert(q.last() == u);
}

/// Nodes that reach each other lie in one component: in the components that the second pass
/// returns, a walk never leads from a component to an earlier one.
pub proof fn lemma_mutual_reach_same_component(adj: Seq<Seq<usize>>, comps: Seq<Seq<usize>>, c1: int, m1: int, c2: int, m2: int)
    requires
        forall|a1: int, k1: int, a2: int, k2: int|
            0 <= a1 < comps.len() && 0 <= k1 < comps[a1].len() && 0 <= a2 < comps.len() && 0 <= k2 < comps[a2].len()
                && reachable(adj, #[trigger] comps[a1][k1], #[trigger] comps[a2][k2]) ==> a1 <= a2,
        0 <= c1 < comps.len(),
        0 <= m1 < comps[c1].len(),
        0 <= c2 < comps.len(),
        0 <= m2 < comps[c2].len(),
        reachable(adj, comps[c1][m1], comps[c2][m2]),
        reachable(adj, comps[c2][m2], comps[c1][m1]),
    ensures
        c1 == c2,
{
}

impl Graph {
    /// The graph with every edge reversed.
    pub fn transpose(&self) -> (t: Graph)
        requires
            self.wf(),
        ensures
            t.wf(),
            is_transpose(self.adj(), t.adj()),
            forall|u: usize, v: usize| u < self.node_count() && v < self.node_count()
                ==> #[trigger] occ(t.adj()[v as int], u) == occ(self.adj()[u as int], v),
    {
        let ghost adj = self.adj();
        let n = self.get_n();
        proof {
            self.lemma_wf();
        }
        let mut t = Graph::new(n);
        let mut u: usize = 0;
        while u < n
            invariant
                self.wf(),
                adj == self.adj(),
                n == adj.len(),
                edges_in_range(adj),
                total_edges(adj) <= usize::MAX,
                u <= n,
                t.wf(),
                t.adj().len() == n,
                total_edges(t.adj()) == total_edges(adj.take(u as int)),
                forall|u2: int, j: int| 0 <= u2 < u && 0 <= j < adj[u2].len() ==> t.adj()[#[trigger] adj[u2][j] as int].contains(u2 as usize),
                forall|v: int, k: int| 0 <= v < n && 0 <= k < t.adj()[v].len() ==> adj[#[trigger] t.adj()[v][k] as int].contains(v as usize),
                forall|v: usize, w: usize| v < n && w < n ==> #[trigger] occ(t.adj()[v as int], w)
                    == if w < u { occ(adj[w as int], v) } else { 0 },
            decreases n - u,
        {
            let deg = self.degree(u);
            let mut j: usize = 0;
            proof {
                lemma_total_take(adj, u as int);
                lemma_total_take(adj, u as int + 1);
                assert(adj[u as int].take(0) =~= Seq::<usize>::empty());
            }
            while j < deg
                invariant
                    self.wf(),
                    adj == self.adj(),
                    n == adj.len(),
                    edges_in_range(adj),
                    total_edges(adj) <= usize::MAX,
                    u < n,
                    deg == adj[u as int].len(),
                    j <= deg,
                    t.wf(),
                    t.adj().len() == n,
                    total_edges(t.adj()) == total_edges(adj.take(u as int)) + j,
                    total_edges(adj.take(u as int + 1)) == total_edges(adj.take(u as int)) + deg,
                    total_edges(adj.take(u as int + 1)) <= total_edges(adj),
                    forall|u2: int, j2: int| 0 <= u2 < u && 0 <= j2 < adj[u2].len() ==> t.adj()[#[trigger] adj[u2][j2] as int].contains(u2 as usize),
                    forall|j2: int| 0 <= j2 < j ==> t.adj()[#[trigger] adj[u as int][j2] as int].contains(u),
                    forall|v: int, k: int| 0 <= v < n && 0 <= k < t.adj()[v].len() ==> adj[#[trigger] t.adj()[v][k] as int].contains(v as usize),
                    forall|v: usize, w: usize| v < n && w < n ==> #[trigger] occ(t.adj()[v as int], w)
                        == if w < u { occ(adj[w as int], v) } else if w == u { occ(adj[u as int].take(j as int), v) } else { 0 },
                decreases deg - j,
            {
                proof {
                    lemma_total_take(adj, u as int + 1);
                }
                let v = self.neighbor(u, j);
                let ghost t0 = t.adj();
                let r = t.add_edge(v, u);
                assert(r is Ok);
                proof {
                    crate::graph::lemma_total_edges_update(t0, v as int, t0[v as int].push(u));
                    let t1 = t.adj();
                    assert(t1[v as int][t0[v as int].len() as int] == u);
                    assert forall|u2: int, j2: int| 0 <= u2 < u && 0 <= j2 < adj[u2].len()
                        implies t1[#[trigger] adj[u2][j2] as int].contains(u2 as usize) by {
                        let w = adj[u2][j2] as int;
                        assert(t0[w].contains(u2 as usize));
                        let k = choose|k: int| 0 <= k < t0[w].len() && t0[w][k] == u2 as usize;
                        assert(t1[w][k] == u2 as usize);
                    }
                    assert forall|j2: int| 0 <= j2 < j + 1 implies t1[#[trigger] adj[u as int][j2] as int].contains(u) by {
                        let w = adj[u as int][j2] as int;
                        if j2 < j {
                            assert(t0[w].contains(u));
                            let k = choose|k: int| 0 <= k < t0[w].len() && t0[w][k] == u;
                            assert(t1[w][k] == u);
                        }
                    }
                    assert forall|x: usize, w: usize| x < n && w < n implies #[trigger] occ(t1[x as int], w)
                        == if w < u { occ(adj[w as int], x) } else if w == u { occ(adj[u as int].take(j + 1), x) } else { 0 } by {
                        lemma_occ_take_step(adj[u as int], j as int, x);
                        if x == v {
                            assert(t1[x as int] == t0[x as int].push(u));
                            lemma_occ_push(t0[x as int], u, w);
                        } else {
                            assert(t1[x as int] == t0[x as int]);
                        }
                    }
                    assert forall|x: int, k: int| 0 <= x < n && 0 <= k < t1[x].len()
                        implies adj[#[trigger] t1[x][k] as int].contains(x as usize) by {
                        if x == v as int && k == t0[x].len() {
                            assert(adj[u as int][j as int] == v);
                        } else {
                            assert(t1[x][k] == t0[x][k]);
                        }
                    }
                }
                j += 1;
            }
            proof {
                assert(total_edges(t.adj()) == total_edges(adj.take(u as int + 1)));
                assert(adj[u as int].take(deg as int) =~= adj[u as int]);
            }
            u += 1;
        }
        t
    }

    /// The first edge of `x` from `c0` on that leads to an unmarked node, or the degree of `x`.
    fn next_unmarked_edge(&self, x: usize, c0: usize, visited: &Vec<bool>) -> (c: usize)
        requires
            self.wf(),
            x < self.node_count(),
            c0 <= self.adj()[x as int].len(),
            visited@.len() == self.node_count(),
        ensures
            c0 <= c <= self.adj()[x as int].len(),
            c < self.adj()[x as int].len() ==> !visited@[self.adj()[x as int][c as int] as int],
            forall|j: int| c0 <= j < c ==> visited@[#[trigger] self.adj()[x as int][j] as int],
    {
        let deg = self.degree(x);
        let mut c = c0;
        while c < deg && visited[self.neighbor(x, c)]
            invariant
                self.wf(),
                x < self.node_count(),
                deg == self.adj()[x as int].len(),
                c0 <= c <= deg,
                visited@.len() == self.node_count(),
                forall|j: int| c0 <= j < c ==> visited@[#[trigger] self.adj()[x as int][j] as int],
            decreases deg - c,
        {
            c += 1;
        }
        c
    }

    /// Depth-first search from `u` over the unmarked nodes with an explicit stack of nodes and
    /// edge cursors; each node is appended to `finished` once all its edges are explored.
    #[verifier::spinoff_prover]
    #[verifier::rlimit(50)]
    fn fill_order(&self, u: usize, visited: &mut Vec<bool>, finished: &mut Vec<usize>)
        requires
            self.wf(),
            u < self.node_count(),
            old(visited)@.len() == self.node_count(),
            !old(visited)@[u as int],
            lists_marked(old(finished)@, old(visited)@),
            old(finished)@.len() + count_unmarked(old(visited)@) == self.node_count(),
        ensures
            final(visited)@.len() == self.node_count(),
            final(visited)@[u as int],
            forall|x: int| 0 <= x < self.node_count() && old(visited)@[x] ==> #[trigger] final(visited)@[x],
            lists_marked(final(finished)@, final(visited)@),
            final(finished)@.len() + count_unmarked(final(visited)@) == self.node_count(),
            forall|x: usize| x < self.node_count() ==> (#[trigger] final(visited)@[x as int]
                <==> old(visited)@[x as int] || reachable(white_adj(self.adj(), old(visited)@), u, x)),
            final(finished)@.len() > old(finished)@.len(),
            final(finished)@.subrange(0, old(finished)@.len() as int) == old(finished)@,
            final(finished)@.last() == u,
            finishing_order(self.adj(), final(finished)@, old(finished)@.len() as int),
    {
        let ghost adj = self.adj();
        let ghost n = adj.len();
        let ghost m0 = visited@;
        let ghost f0 = finished@;
        let ghost wadj = white_adj(adj, m0);
        proof {
            self.lemma_wf();
            lemma_count_mark(visited@, u as int);
        }
        visited[u] = true;
        let mut stack: Vec<(usize, usize)> = Vec::new();
        stack.push((u, 0));
        proof {
            lemma_reach_refl(wadj, u);
            assert(finished@.subrange(0, f0.len() as int) =~= f0);
            assert(stack@[0] == (u, 0usize));
            assert(!finished@.contains(u));
            assert forall|x: int| 0 <= x < n && visited@[x] implies #[trigger] finished@.contains(x as usize) || pending(stack@, x as usize) by {
                if x == u as int {
                    assert(stack@[0].0 == u);
                }
            }
        }
        while stack.len() > 0
            invariant
                self.wf(),
                adj == self.adj(),
                n == adj.len(),
                n <= usize::MAX,
                edges_in_range(adj),
                m0 == old(visited)@,
                visited@.len() == n,
                u < n,
                visited@[u as int],
                forall|x: int| 0 <= x < n && m0[x] ==> #[trigger] visited@[x],
                forall|k: int| 0 <= k < stack@.len() ==> (#[trigger] stack@[k]).0 < n && visited@[stack@[k].0 as int]
                    && stack@[k].1 <= adj[stack@[k].0 as int].len() && !finished@.contains(stack@[k].0),
                forall|k1: int, k2: int| 0 <= k1 < k2 < stack@.len() ==> (#[trigger] stack@[k1]).0 != (#[trigger] stack@[k2]).0,
                no_dup(finished@),
                forall|k: int| 0 <= k < finished@.len() ==> #[trigger] finished@[k] < n && visited@[finished@[k] as int],
                forall|x: int| 0 <= x < n && visited@[x] ==> #[trigger] finished@.contains(x as usize) || pending(stack@, x as usize),
                finished@.len() + stack@.len() + count_unmarked(visited@) == n,
                f0 == old(finished)@,
                wadj == white_adj(adj, m0),
                finished@.len() >= f0.len(),
                finished@.subrange(0, f0.len() as int) == f0,
                forall|k: int| f0.len() <= k < finished@.len() ==> !m0[#[trigger] finished@[k] as int],
                forall|k: int| 0 <= k < stack@.len() ==> !m0[(#[trigger] stack@[k]).0 as int],
                forall|x: int| 0 <= x < n && #[trigger] visited@[x] && !m0[x] ==> reachable(wadj, u, x as usize),
                forall|k: int, j: int| 0 <= k < stack@.len() && 0 <= j < stack@[k].1
                    ==> visited@[#[trigger] adj[stack@[k].0 as int][j] as int],
                forall|k: int, j: int| f0.len() <= k < finished@.len() && 0 <= j < adj[finished@[k] as int].len()
                    ==> visited@[#[trigger] adj[finished@[k] as int][j] as int],
                forall|k: int, j: int| f0.len() <= k < finished@.len() && 0 <= j < adj[finished@[k] as int].len() ==> {
                    let w = #[trigger] adj[finished@[k] as int][j];
                    m0[w as int] || finished@.subrange(0, k).contains(w) || reachable(adj, w, finished@[k])
                },
                forall|k1: int, k2: int| 0 <= k1 < k2 < stack@.len() ==> reachable(adj, (#[trigger] stack@[k1]).0, (#[trigger] stack@[k2]).0),
                stack@.len() > 0 ==> stack@[0].0 == u,
                stack@.len() == 0 ==> finished@.len() > f0.len() && finished@.last() == u,
            decreases count_unmarked(visited@), stack@.len(),
        {
            let last = stack.len() - 1;
            let (x, c0) = stack[last];
            let deg = self.degree(x);
            let c = self.next_unmarked_edge(x, c0, visited);
            if c < deg {
                let w = self.neighbor(x, c);
                let ghost st0 = stack@;
                proof {
                    lemma_count_mark(visited@, w as int);
                    assert(!finished@.contains(w)) by {
                        if finished@.contains(w) {
                            let k = choose|k: int| 0 <= k < finished@.len() && finished@[k] == w;
                            assert(visited@[finished@[k] as int]);
                        }
                    }
                }
                stack[last] = (x, c + 1);
                visited[w] = true;
                stack.push((w, 0));
                proof {
                    assert forall|k: int| 0 <= k < stack@.len() implies (#[trigger] stack@[k]).0 < n && visited@[stack@[k].0 as int]
                        && stack@[k].1 <= adj[stack@[k].0 as int].len() && !finished@.contains(stack@[k].0) by {
                        if k < last {
                            assert(stack@[k] == st0[k]);
                        }
                    }
                    assert forall|k1: int, k2: int| 0 <= k1 < k2 < stack@.len() implies (#[trigger] stack@[k1]).0 != (#[trigger] stack@[k2]).0 by {
                        if k2 == stack@.len() - 1 {
                            if k1 < last {
                                assert(stack@[k1] == st0[k1]);
                            }
                            assert(visited@[stack@[k1].0 as int]);
                            if stack@[k1].0 == w {
                                if k1 < last {
                                    assert(st0[k1].0 == w);
                                } else {
                                    assert(st0[last as int].0 == x);
                                }
                            }
                        } else if k2 == last as int {
                            assert(stack@[k1] == st0[k1]);
                            assert(st0[k1].0 != st0[last as int].0);
                        } else {
                            assert(stack@[k1] == st0[k1] && stack@[k2] == st0[k2]);
                        }
                    }
                    assert forall|y: int| 0 <= y < n && visited@[y] implies #[trigger] finished@.contains(y as usize) || pending(stack@, y as usize) by {
                        if y == w as int {
                            assert(stack@[stack@.len() - 1].0 == w);
                        } else if !finished@.contains(y as usize) {
                            assert(pending(st0, y as usize));
                            let k = choose|k: int| 0 <= k < st0.len() && (#[trigger] st0[k]).0 == y as usize;
                            if k == last as int {
                                assert(stack@[k].0 == x);
                            } else {
                                assert(stack@[k] == st0[k]);
                            }
                        }
                    }
                }
                proof {
                    assert(adj[x as int][c as int] == w);
                    assert(!m0[w as int]);
                    assert(st0[last as int].0 == x);
                    assert(reachable(wadj, u, x));
                    assert(wadj[x as int][c as int] == w);
                    assert(wadj[x as int].contains(w));
                    lemma_reach_step(wadj, u, x, w);
                    assert(adj[x as int].contains(w));
                    assert forall|k: int| 0 <= k < stack@.len() implies !m0[(#[trigger] stack@[k]).0 as int] by {
                        if k < last {
                            assert(stack@[k] == st0[k]);
                        }
                    }
                    assert forall|k: int, j: int| 0 <= k < stack@.len() && 0 <= j < stack@[k].1
                        implies visited@[#[trigger] adj[stack@[k].0 as int][j] as int] by {
                        if k < last {
                            assert(stack@[k] == st0[k]);
                        } else if k == last {
                            if j < c0 {
                                assert(st0[k].1 == c0);
                            }
                        }
                    }
                    assert forall|k1: int, k2: int| 0 <= k1 < k2 < stack@.len()
                        implies reachable(adj, (#[trigger] stack@[k1]).0, (#[trigger] stack@[k2]).0) by {
                        if k2 < last {
                            assert(stack@[k1] == st0[k1] && stack@[k2] == st0[k2]);
                        } else if k2 == last {
                            assert(stack@[k1] == st0[k1]);
                        } else {
                            if k1 < last {
                                assert(stack@[k1] == st0[k1]);
                                assert(reachable(adj, st0[k1].0, x));
                                lemma_reach_step(adj, st0[k1].0, x, w);
                            } else {
                                lemma_reach_refl(adj, x);
                                lemma_reach_step(adj, x, x, w);
                            }
                        }
                    }
                    assert(stack@[0].0 == u);
                }
            } else {
                let ghost st0 = stack@;
                let ghost fb = finished@;
                let ghost vis_b = visited@;
                stack.pop();
                finished.push(x);
                proof {
                    assert(st0[last as int] == (x, c0));
                    assert(!fb.contains(x));
                    assert forall|k: int| 0 <= k < stack@.len() implies (#[trigger] stack@[k]).0 < n && visited@[stack@[k].0 as int]
                        && stack@[k].1 <= adj[stack@[k].0 as int].len() && !finished@.contains(stack@[k].0) by {
                        assert(stack@[k] == st0[k]);
                        assert(st0[k].0 != st0[last as int].0);
                        if finished@.contains(stack@[k].0) {
                            let q = choose|q: int| 0 <= q < finished@.len() && finished@[q] == stack@[k].0;
                            if q < fb.len() {
                                assert(fb[q] == stack@[k].0);
                            }
                        }
                    }
                    assert forall|k1: int, k2: int| 0 <= k1 < k2 < stack@.len() implies (#[trigger] stack@[k1]).0 != (#[trigger] stack@[k2]).0 by {
                        assert(stack@[k1] == st0[k1] && stack@[k2] == st0[k2]);
                    }
                    assert forall|i: int, j: int| 0 <= i < finished@.len() && 0 <= j < finished@.len() && i != j implies finished@[i] != finished@[j] by {
                        if i < fb.len() && j < fb.len() {
                            assert(finished@[i] == fb[i] && finished@[j] == fb[j]);
                        } else if i < fb.len() {
                            assert(finished@[i] == fb[i]);
                        } else if j < fb.len() {
                            assert(finished@[j] == fb[j]);
                        }
                    }
                    assert forall|k: int| 0 <= k < finished@.len() implies #[trigger] finished@[k] < n && visited@[finished@[k] as int] by {
                        if k < fb.len() {
                            assert(finished@[k] == fb[k]);
                        }
                    }
                    assert forall|y: int| 0 <= y < n && visited@[y] implies #[trigger] finished@.contains(y as usize) || pending(stack@, y as usize) by {
                        if y == x as int {
                            assert(finished@[fb.len() as int] == x);
                        } else if fb.contains(y as usize) {
                            let q = choose|q: int| 0 <= q < fb.len() && fb[q] == y as usize;
                            assert(finished@[q] == y as usize);
                        } else {
                            assert(pending(st0, y as usize));
                            let k = choose|k: int| 0 <= k < st0.len() && (#[trigger] st0[k]).0 == y as usize;
                            assert(k != last as int);
                            assert(stack@[k] == st0[k]);
                        }
                    }
                }
                proof {
                    assert(finished@.subrange(0, f0.len() as int) =~= f0) by {
                        assert(fb.subrange(0, f0.len() as int) == f0);
                    }
                    assert forall|k: int| f0.len() <= k < finished@.len() implies !m0[#[trigger] finished@[k] as int] by {
                        if k < fb.len() {
                            assert(finished@[k] == fb[k]);
                        }
                    }
                    assert forall|k: int| 0 <= k < stack@.len() implies !m0[(#[trigger] stack@[k]).0 as int] by {
                        assert(stack@[k] == st0[k]);
                    }
                    assert forall|k: int, j: int| 0 <= k < stack@.len() && 0 <= j < stack@[k].1
                        implies visited@[#[trigger] adj[stack@[k].0 as int][j] as int] by {
                        assert(stack@[k] == st0[k]);
                    }
                    assert forall|j: int| 0 <= j < adj[x as int].len() implies #[trigger] visited@[adj[x as int][j] as int] by {
                        if j < c0 {
                            assert(st0[last as int].1 == c0);
                        }
                    }
                    assert forall|k: int, j: int| f0.len() <= k < finished@.len() && 0 <= j < adj[finished@[k] as int].len()
                        implies visited@[#[trigger] adj[finished@[k] as int][j] as int] by {
                        if k < fb.len() {
                            assert(finished@[k] == fb[k]);
                        } else {
                            assert(finished@[k] == x);
                        }
                    }
                    assert forall|k: int, j: int| f0.len() <= k < finished@.len() && 0 <= j < adj[finished@[k] as int].len() implies {
                        let w = #[trigger] adj[finished@[k] as int][j];
                        m0[w as int] || finished@.subrange(0, k).contains(w) || reachable(adj, w, finished@[k])
                    } by {
                        let w = adj[finished@[k] as int][j];
                        if k < fb.len() {
                            assert(finished@[k] == fb[k]);
                            assert(finished@.subrange(0, k) =~= fb.subrange(0, k));
                        } else {
                            assert(finished@[k] == x);
                            assert(finished@.subrange(0, k) =~= fb);
                            assert(visited@[w as int]);
                            if !m0[w as int] && !fb.contains(w) {
                                assert(pending(st0, w));
                                let k1 = choose|k1: int| 0 <= k1 < st0.len() && (#[trigger] st0[k1]).0 == w;
                                if k1 == last as int {
                                    assert(w == x);
                                    lemma_reach_refl(adj, x);
                                } else {
                                    assert(reachable(adj, st0[k1].0, st0[last as int].0));
                                }
                            }
                        }
                    }
                    assert forall|k1: int, k2: int| 0 <= k1 < k2 < stack@.len()
                        implies reachable(adj, (#[trigger] stack@[k1]).0, (#[trigger] stack@[k2]).0) by {
                        assert(stack@[k1] == st0[k1] && stack@[k2] == st0[k2]);
                    }
                    if stack@.len() > 0 {
                        assert(stack@[0] == st0[0]);
                    } else {
                        assert(x == u);
                        assert(finished@.last() == u);
                    }
                }
            }
        }
        proof {
            assert forall|x: int| 0 <= x < n && visited@[x] implies #[trigger] finished@.contains(x as usize) by {
                assert(!pending(stack@, x as usize));
            }
        }
        proof {
            let nmark = Seq::new(n, |x: int| visited@[x] && !m0[x]);
            assert(closed(wadj, nmark)) by {
                assert forall|x: int, j: int| 0 <= x < wadj.len() && nmark[x] && 0 <= j < wadj[x].len()
                    implies #[trigger] nmark[wadj[x][j] as int] by {
                    assert(finished@.contains(x as usize));
                    let k = choose|k: int| 0 <= k < finished@.len() && finished@[k] == x as usize;
                    if k < f0.len() {
                        assert(finished@[k] == f0[k]);
                        assert(m0[f0[k] as int]);
                    }
                    assert(visited@[adj[finished@[k] as int][j] as int]);
                }
            }
            assert forall|x: usize| x < n implies (#[trigger] visited@[x as int]
                <==> m0[x as int] || reachable(wadj, u, x)) by {
                if reachable(wadj, u, x) {
                    lemma_closed_reach(wadj, nmark, u, x);
                }
            }
            assert forall|p: int, q: int| f0.len() <= p < q < finished@.len() && adj[finished@[p] as int].contains(#[trigger] finished@[q])
                implies reachable(adj, finished@[q], #[trigger] finished@[p]) by {
                let w = finished@[q];
                let j = choose|j: int| 0 <= j < adj[finished@[p] as int].len() && adj[finished@[p] as int][j] == w;
                assert(!m0[w as int]);
                if finished@.subrange(0, p).contains(w) {
                    let i = choose|i: int| 0 <= i < p && finished@.subrange(0, p)[i] == w;
                    assert(finished@[i] == w);
                }
            }
        }
    }

    /// Strongly connected components by Kosaraju: a depth-first pass records the order in which
    /// nodes finish; a second pass on the transposed graph, taking roots in reverse finishing
    /// order, collects each component. Every node lies in exactly one component, listed from
    /// the root of its second-pass search; every member reaches that root; and no walk leads
    /// from a component to an earlier one, so nodes that reach each other share a component.
    pub fn find_strongly_connected_components(&self) -> (comps: Vec<Vec<usize>>)
        requires
            self.wf(),
        ensures
            is_permutation(flatten(comps@.map_values(|c: Vec<usize>| c@)), self.node_count()),
            forall|c: int| 0 <= c < comps@.len() ==> (#[trigger] comps@[c])@.len() > 0,
            forall|c: int, m: int| 0 <= c < comps@.len() && 0 <= m < comps@[c]@.len()
                ==> reachable(self.adj(), #[trigger] comps@[c]@[m], comps@[c]@[0]),
            forall|c1: int, m1: int, c2: int, m2: int|
                0 <= c1 < comps@.len() && 0 <= m1 < comps@[c1]@.len() && 0 <= c2 < comps@.len() && 0 <= m2 < comps@[c2]@.len()
                    && reachable(self.adj(), #[trigger] comps@[c1]@[m1], #[trigger] comps@[c2]@[m2]) ==> c1 <= c2,
    {
        let ghost adj = self.adj();
        let n = self.get_n();
        proof {
            self.lemma_wf();
        }
        let mut visited = vec![false; n];
        let mut finished: Vec<usize> = Vec::new();
        proof {
            assert(visited@ =~= Seq::new(n as nat, |x: int| false));
            lemma_count_none_marked(n as nat);
        }
        let mut i: usize = 0;
        while i < n
            invariant
                self.wf(),
                adj == self.adj(),
                n == adj.len(),
                i <= n,
                visited@.len() == n,
                lists_marked(finished@, visited@),
                finished@.len() + count_unmarked(visited@) == n,
                forall|x: int| 0 <= x < i ==> #[trigger] visited@[x],
            decreases n - i,
        {
            if !visited[i] {
                self.fill_order(i, &mut visited, &mut finished);
            }
            i += 1;
        }
        proof {
            lemma_count_all_marked(visited@);
            assert forall|x: usize| x < n implies #[trigger] finished@.contains(x) by {
                assert(visited@[x as int]);
                assert(finished@.contains((x as int) as usize));
            }
        }
        let t = self.transpose();
        let ghost tadj = t.adj();
        let mut visited2 = vec![false; n];
        let mut parent = vec![0usize; n];
        let mut all: Vec<usize> = Vec::new();
        let mut comps: Vec<Vec<usize>> = Vec::new();
        let ghost mut comp_of = Seq::new(n as nat, |x: int| 0int);
        proof {
            assert(visited2@ =~= Seq::new(n as nat, |x: int| false));
            lemma_count_none_marked(n as nat);
            assert(comps@.map_values(|c: Vec<usize>| c@) =~= Seq::<Seq<usize>>::empty());
            assert(flatten(Seq::<Seq<usize>>::empty()) =~= all@);
        }
        let mut k = n;
        while k > 0
            invariant
                self.wf(),
                adj == self.adj(),
                edges_in_range(adj),
                n == adj.len(),
                t.wf(),
                tadj == t.adj(),
                is_transpose(adj, tadj),
                k <= n,
                finished@.len() == n,
                visited@.len() == n,
                lists_marked(finished@, visited@),
                forall|x: usize| x < n ==> #[trigger] finished@.contains(x),
                visited2@.len() == n,
                parent@.len() == n,
                closed(tadj, visited2@),
                lists_marked(all@, visited2@),
                all@.len() + count_unmarked(visited2@) == n,
                forall|q: int| k <= q < n ==> #[trigger] visited2@[finished@[q] as int],
                flatten(comps@.map_values(|c: Vec<usize>| c@)) == all@,
                forall|c: int| 0 <= c < comps@.len() ==> (#[trigger] comps@[c])@.len() > 0,
                forall|c: int, m: int| 0 <= c < comps@.len() && 0 <= m < comps@[c]@.len()
                    ==> reachable(adj, #[trigger] comps@[c]@[m], comps@[c]@[0]),
                comp_of.len() == n,
                forall|c: int, m: int| 0 <= c < comps@.len() && 0 <= m < comps@[c]@.len()
                    ==> comp_of[#[trigger] comps@[c]@[m] as int] == c,
                forall|x: int| 0 <= x < n && #[trigger] visited2@[x] ==> 0 <= comp_of[x] < comps@.len(),
                forall|x: usize, y: usize| x < n && y < n && #[trigger] visited2@[y as int] && #[trigger] reachable(adj, x, y)
                    ==> visited2@[x as int] && comp_of[x as int] <= comp_of[y as int],
            decreases k,
        {
            k -= 1;
            let root = finished[k];
            if !visited2[root] {
                let start = all.len();
                let ghost m0 = visited2@;
                let ghost a0 = all@;
                let ghost p0 = parent@;
                t.explore_dfs(root, &mut visited2, &mut all, &mut parent);
                proof {
                    assert forall|q: int| start <= q < all@.len() implies reachable(adj, #[trigger] all@[q], root) by {
                        let x = all@[q];
                        assert(visited2@[x as int]);
                        if m0[x as int] {
                            assert(a0.contains((x as int) as usize));
                            let q2 = choose|q2: int| 0 <= q2 < a0.len() && a0[q2] == x;
                            assert(all@[q2] == a0[q2]);
                        }
                        assert(reachable(tadj, root, x));
                        lemma_transpose_reach(adj, tadj, root, x);
                    }
                }
                let mut comp: Vec<usize> = Vec::new();
                let mut q = start;
                while q < all.len()
                    invariant
                        start <= q <= all@.len(),
                        comp@ == all@.subrange(start as int, q as int),
                    decreases all@.len() - q,
                {
                    comp.push(all[q]);
                    q += 1;
                    proof {
                        assert(comp@ =~= all@.subrange(start as int, q as int));
                    }
                }
                let ghost cv0 = comps@.map_values(|c: Vec<usize>| c@);
                let ghost cseq = comp@;
                let ghost cidx = comps@.len() as int;
                let ghost co0 = comp_of;
                proof {
                    comp_of = Seq::new(n as nat, |x: int| if !m0[x] && visited2@[x] { cidx } else { co0[x] });
                    assert forall|x: usize, y: usize| x < n && y < n && #[trigger] visited2@[y as int] && #[trigger] reachable(adj, x, y)
                        implies visited2@[x as int] && comp_of[x as int] <= comp_of[y as int] by {
                        if !m0[y as int] {
                            assert(reachable(tadj, root, y));
                            lemma_transpose_reach(adj, tadj, root, y);
                            crate::reach::lemma_reach_trans(adj, x, y, root);
                            lemma_reach_transpose(adj, tadj, x, root);
                            assert(visited2@[x as int]);
                        } else {
                            assert(m0[x as int] && co0[x as int] <= co0[y as int]);
                        }
                    }
                    assert forall|x: int| 0 <= x < n && #[trigger] visited2@[x] implies 0 <= comp_of[x] < cidx + 1 by {
                        if m0[x] {
                            assert(0 <= co0[x] < cidx);
                        }
                    }
                }
                comps.push(comp);
                proof {
                    assert forall|c: int, m: int| 0 <= c < comps@.len() && 0 <= m < comps@[c]@.len()
                        implies comp_of[#[trigger] comps@[c]@[m] as int] == c by {
                        if c == cidx {
                            assert(comps@[c]@ == cseq);
                            assert(cseq[m] == all@[start + m]);
                            let x = all@[start + m];
                            assert(visited2@[x as int]);
                            if m0[x as int] {
                                assert(a0.contains((x as int) as usize));
                                let q2 = choose|q2: int| 0 <= q2 < a0.len() && a0[q2] == x;
                                assert(all@[q2] == a0[q2]);
                            }
                        } else {
                            let x = comps@[c]@[m];
                            assert(co0[x as int] == c);
                            assert(m0[x as int]) by {
                                assert(flatten(cv0) == a0);
                                assert(a0.contains(x)) by {
                                    lemma_flatten_member(cv0, c, m);
                                }
                                let q2 = choose|q2: int| 0 <= q2 < a0.len() && a0[q2] == x;
                                assert(lists_marked(a0, m0));
                            }
                        }
                    }
                    let cv = comps@.map_values(|c: Vec<usize>| c@);
                    assert(cv =~= cv0.push(cseq));
                    assert(cv.drop_last() =~= cv0);
                    assert(a0 == all@.subrange(0, start as int));
                    assert(flatten(cv) =~= all@);
                    assert(cseq[0] == root);
                    assert forall|c: int, m: int| 0 <= c < comps@.len() && 0 <= m < comps@[c]@.len()
                        implies reachable(adj, #[trigger] comps@[c]@[m], comps@[c]@[0]) by {
                        if c == comps@.len() - 1 {
                            assert(comps@[c]@ == cseq);
                            assert(cseq[m] == all@[start + m]);
                        }
                    }
                    assert forall|c: int| 0 <= c < comps@.len() implies (#[trigger] comps@[c])@.len() > 0 by {
                        if c == comps@.len() - 1 {
                            assert(comps@[c]@ == cseq);
                        }
                    }
                }
            }
        }
        proof {
            assert forall|x: int| 0 <= x < n implies visited2@[x] by {
                assert(finished@.contains(x as usize));
                let q = choose|q: int| 0 <= q < finished@.len() && finished@[q] == x as usize;
                assert(visited2@[finished@[q] as int]);
            }
            lemma_count_all_marked(visited2@);
            assert forall|x: usize| x < n implies #[trigger] all@.contains(x) by {
                assert(visited2@[x as int]);
                assert(all@.contains((x as int) as usize));
            }
        }
        proof {
            assert forall|c1: int, m1: int, c2: int, m2: int|
                0 <= c1 < comps@.len() && 0 <= m1 < comps@[c1]@.len() && 0 <= c2 < comps@.len() && 0 <= m2 < comps@[c2]@.len()
                    && reachable(adj, #[trigger] comps@[c1]@[m1], #[trigger] comps@[c2]@[m2]) implies c1 <= c2 by {
                let x = comps@[c1]@[m1];
                let y = comps@[c2]@[m2];
                lemma_flatten_member(comps@.map_values(|c: Vec<usize>| c@), c2, m2);
                assert(all@.contains(y));
                assert(visited2@[y as int]);
                assert(comp_of[x as int] == c1 && comp_of[y as int] == c2);
            }
        }
        comps
    }
}

/// Every member of a component appears in the components laid end to end.
proof fn lemma_flatten_member(comps: Seq<Seq<usize>>, c: int, m: int)
    requires
        0 <= c < comps.len(),
        0 <= m < comps[c].len(),
    ensures
        flatten(comps).contains(comps[c][m]),
    decreases comps.len(),
{
    let f0 = flatten(comps.drop_last());
    assert(flatten(comps) == f0 + comps.last());
    if c == comps.len() - 1 {
        assert(flatten(comps)[f0.len() + m] == comps[c][m]);
    } else {
        lemma_flatten_member(comps.drop_last(), c, m);
        let q = choose|q: int| 0 <= q < f0.len() && f0[q] == comps[c][m];
        assert(flatten(comps)[q] == comps[c][m]);
    }
}

} // verus!
