//! Depth-first and breadth-first traversals with visit orders and spanning forests.
use vstd::prelude::*;
use crate::graph::{edges_in_range, total_edges, Graph};
use crate::reach::{
    is_path,
    closed, count_unmarked, lemma_closed_reach, lemma_count_mark, lemma_lists_marked_push,
    lemma_count_all_marked, lemma_count_none_marked, lemma_reach_refl, lemma_reach_step, lists_marked,
    no_dup, reachable,
};

verus! {

/// Some pending entry of `stack` is for node `w`.
pub open spec fn pending(stack: Seq<(usize, usize)>, w: usize) -> bool {
    exists|k: int| 0 <= k < stack.len() && (#[trigger] stack[k]).0 == w
}

/// Every edge leaving a marked node ends at a marked node or at a pending one.
pub open spec fn closed_but_pending(adj: Seq<Seq<usize>>, marked: Seq<bool>, stack: Seq<(usize, usize)>) -> bool {
    forall|x: int, j: int|
        0 <= x < adj.len() && marked[x] && 0 <= j < adj[x].len() ==> #[trigger] marked[adj[x][j] as int]
            || pending(stack, adj[x][j])
}

/// The pending entries are well formed: each names a node reached from `root` and, unless it is
/// the root's own entry, an edge from a marked parent.
pub open spec fn stack_ok(adj: Seq<Seq<usize>>, marked: Seq<bool>, stack: Seq<(usize, usize)>, root: usize) -> bool {
    forall|k: int|
        0 <= k < stack.len() ==> {
            let (v, p) = #[trigger] stack[k];
            &&& v < adj.len()
            &&& p < adj.len()
            &&& reachable(adj, root, v)
            &&& v == p ==> v == root
            &&& v != p ==> adj[p as int].contains(v) && marked[p as int]
        }
}

/// What one exploration from `root` leaves behind: the nodes reached from it are marked, and each
/// newly marked node other than the root records a parent with an edge to it.
pub open spec fn explored(
    adj: Seq<Seq<usize>>,
    root: usize,
    m0: Seq<bool>,
    m1: Seq<bool>,
    p0: Seq<usize>,
    p1: Seq<usize>,
) -> bool {
    &&& m1.len() == adj.len()
    &&& p1.len() == adj.len()
    &&& forall|x: int| 0 <= x < adj.len() ==> (#[trigger] m1[x] <==> m0[x] || reachable(adj, root, x as usize))
    &&& forall|x: int| 0 <= x < adj.len() && m0[x] ==> #[trigger] p1[x] == p0[x]
    &&& p1[root as int] == root
    &&& forall|x: int|
        0 <= x < adj.len() && m1[x] && !m0[x] && x != root ==> #[trigger] p1[x] != x && p1[x] < adj.len()
            && adj[p1[x] as int].contains(x as usize) && m1[p1[x] as int] && !m0[p1[x] as int]
}

/// `v` is reached from no node of smaller index, so a forest traversal that tries roots in
/// index order starts a new tree at `v`.
pub open spec fn is_forest_root(adj: Seq<Seq<usize>>, v: usize) -> bool {
    !exists|u: usize| u < v && #[trigger] reachable(adj, u, v)
}

/// Number of forest roots among the nodes `0..k`.
pub open spec fn forest_root_count(adj: Seq<Seq<usize>>, k: nat) -> nat
    decreases k,
{
    if k == 0 {
        0
    } else {
        forest_root_count(adj, (k - 1) as nat) + if is_forest_root(adj, (k - 1) as usize) {
            1nat
        } else {
            0nat
        }
    }
}

/// Some edge of `t` ends at `v`.
pub open spec fn has_tree_parent(t: Seq<Seq<usize>>, v: usize) -> bool {
    exists|u: int, j: int| 0 <= u < t.len() && 0 <= j < t[u].len() && #[trigger] t[u][j] == v
}

/// `t` is a spanning forest of `adj` as a forest traversal in index order builds it: it has
/// the same nodes, only edges of `adj`, at most one edge into each node, and an edge into
/// exactly the nodes that are not forest roots.
pub open spec fn is_spanning_forest(adj: Seq<Seq<usize>>, t: Seq<Seq<usize>>) -> bool {
    &&& t.len() == adj.len()
    &&& forall|u: int, j: int| 0 <= u < t.len() && 0 <= j < t[u].len() ==> adj[u].contains(#[trigger] t[u][j])
    &&& forall|u1: int, j1: int, u2: int, j2: int|
        0 <= u1 < t.len() && 0 <= j1 < t[u1].len() && 0 <= u2 < t.len() && 0 <= j2 < t[u2].len()
            && #[trigger] t[u1][j1] == #[trigger] t[u2][j2] ==> u1 == u2 && j1 == j2
    &&& forall|v: int| 0 <= v < adj.len() ==> (#[trigger] has_tree_parent(t, v as usize) <==> !is_forest_root(adj, v as usize))
    &&& total_edges(t) + forest_root_count(adj, adj.len()) == adj.len()
}

/// The parent records of a complete forest traversal: a root is its own parent, any other node
/// names a parent with an edge to it.
pub open spec fn forest_parents(adj: Seq<Seq<usize>>, parent: Seq<usize>) -> bool {
    &&& parent.len() == adj.len()
    &&& forall|x: int| 0 <= x < adj.len() ==> (#[trigger] parent[x] == x <==> is_forest_root(adj, x as usize))
    &&& forall|x: int| 0 <= x < adj.len() && parent[x] != x ==> #[trigger] parent[x] < adj.len()
        && adj[parent[x] as int].contains(x as usize)
}

/// `w` is the least node that reaches `x`.
pub open spec fn lowest_reacher(adj: Seq<Seq<usize>>, w: usize, x: usize) -> bool {
    &&& reachable(adj, w, x)
    &&& forall|y: usize| y < w ==> !#[trigger] reachable(adj, y, x)
}

/// The root of the block that holds position `p` of `order`: the nearest forest root at or
/// before `p`.
pub open spec fn block_root(adj: Seq<Seq<usize>>, order: Seq<usize>, p: int) -> usize
    decreases p,
{
    if p <= 0 || is_forest_root(adj, order[p]) {
        order[p]
    } else {
        block_root(adj, order, p - 1)
    }
}

/// The order splits into blocks, each starting at a forest root that is the least node not
/// listed before it, and holding exactly nodes that this root is the least reacher of.
pub open spec fn in_blocks(adj: Seq<Seq<usize>>, order: Seq<usize>) -> bool {
    &&& order.len() > 0 ==> is_forest_root(adj, order[0])
    &&& forall|p: int| 0 <= p < order.len() ==> lowest_reacher(adj, #[trigger] block_root(adj, order, p), order[p])
    &&& forall|p: int| 0 <= p < order.len() && is_forest_root(adj, #[trigger] order[p])
        ==> forall|x: usize| x < order[p] ==> #[trigger] order.subrange(0, p).contains(x)
}

/// Each recorded parent has the same least reacher as its child, so every tree edge stays
/// inside one block.
pub open spec fn parents_in_blocks(adj: Seq<Seq<usize>>, parent: Seq<usize>) -> bool {
    forall|x: int, w: usize| 0 <= x < parent.len() && parent[x] != x
        ==> (#[trigger] lowest_reacher(adj, w, parent[x]) <==> lowest_reacher(adj, w, x as usize))
}

proof fn lemma_lowest_unique(adj: Seq<Seq<usize>>, w1: usize, w2: usize, x: usize)
    requires
        lowest_reacher(adj, w1, x),
        lowest_reacher(adj, w2, x),
    ensures
        w1 == w2,
{
    if w1 < w2 {
        assert(!reachable(adj, w1, x));
    } else if w2 < w1 {
        assert(!reachable(adj, w2, x));
    }
}

proof fn lemma_block_root_prefix(adj: Seq<Seq<usize>>, o1: Seq<usize>, o2: Seq<usize>, p: int)
    requires
        0 <= p < o1.len(),
        p < o2.len(),
        forall|q: int| 0 <= q <= p ==> o1[q] == o2[q],
    ensures
        block_root(adj, o1, p) == block_root(adj, o2, p),
    decreases p,
{
    if p > 0 {
        lemma_block_root_prefix(adj, o1, o2, p - 1);
    }
}

proof fn lemma_block_root_segment(adj: Seq<Seq<usize>>, o: Seq<usize>, start: int, p: int)
    requires
        0 <= start <= p < o.len(),
        is_forest_root(adj, o[start]),
        forall|q: int| start < q <= p ==> !is_forest_root(adj, #[trigger] o[q]),
    ensures
        block_root(adj, o, p) == o[start],
    decreases p,
{
    if p > start {
        lemma_block_root_segment(adj, o, start, p - 1);
    }
}

/// Some walk from `r` to `x` takes at most `d` edges.
pub open spec fn within(adj: Seq<Seq<usize>>, r: usize, x: usize, d: int) -> bool {
    exists|p: Seq<usize>| #[trigger] is_path(adj, p) && p[0] == r && p.last() == x && p.len() <= d + 1
}

proof fn lemma_within_step(adj: Seq<Seq<usize>>, r: usize, u: usize, w: usize, d: int)
    requires
        within(adj, r, u, d),
        adj[u as int].contains(w),
        w < adj.len(),
    ensures
        within(adj, r, w, d + 1),
{
    let p = choose|p: Seq<usize>| #[trigger] is_path(adj, p) && p[0] == r && p.last() == u && p.len() <= d + 1;
    let q = p.push(w);
    assert forall|i: int| 0 <= i < q.len() - 1 implies #[trigger] adj[q[i] as int].contains(q[i + 1]) by {
        if i < p.len() - 1 {
            assert(q[i] == p[i] && q[i + 1] == p[i + 1]);
        }
    }
    assert(is_path(adj, q));
}

/// A walk of `d` edges from `r` ends at a node whose depth is at most `d`, when depths rise by
/// at most one along every edge from a reached node and `r` has depth 0.
proof fn lemma_depth_bound(adj: Seq<Seq<usize>>, r: usize, depth: Seq<int>, reached: Seq<bool>, p: Seq<usize>, i: int)
    requires
        is_path(adj, p),
        p[0] == r,
        0 <= i < p.len(),
        reached.len() == adj.len(),
        depth.len() == adj.len(),
        reached[r as int],
        depth[r as int] == 0,
        forall|x: int, j: int| 0 <= x < adj.len() && reached[x] && 0 <= j < adj[x].len()
            ==> #[trigger] reached[adj[x][j] as int] && depth[adj[x][j] as int] <= depth[x] + 1,
    ensures
        reached[p[i] as int],
        depth[p[i] as int] <= i,
    decreases i,
{
    if i > 0 {
        lemma_depth_bound(adj, r, depth, reached, p, i - 1);
        let k = i - 1;
        assert(adj[p[k] as int].contains(p[k + 1]));
        let j = choose|j: int| 0 <= j < adj[p[k] as int].len() && adj[p[k] as int][j] == p[k + 1];
        assert(reached[adj[p[k] as int][j] as int]);
    }
}

/// `a` is listed before `b` in `order`.
pub open spec fn listed_before(order: Seq<usize>, a: usize, b: usize) -> bool {
    exists|p: int, q: int| 0 <= p < q < order.len() && #[trigger] order[p] == a && #[trigger] order[q] == b
}

/// Every node is listed exactly once.
pub open spec fn is_permutation(order: Seq<usize>, n: nat) -> bool {
    &&& order.len() == n
    &&& no_dup(order)
    &&& forall|k: int| 0 <= k < order.len() ==> #[trigger] order[k] < n
    &&& forall|x: usize| x < n ==> #[trigger] order.contains(x)
}

/// Every edge of `t` joins two nodes with the same least reacher: two nodes of one block.
pub open spec fn edges_in_blocks(adj: Seq<Seq<usize>>, t: Seq<Seq<usize>>) -> bool {
    forall|u: int, j: int, w: usize| 0 <= u < t.len() && 0 <= j < t[u].len()
        ==> (#[trigger] lowest_reacher(adj, w, t[u][j]) <==> lowest_reacher(adj, w, u as usize))
}

/// Builds the forest whose edges go from each recorded parent to its child.
fn tree_from_parents(parent: &Vec<usize>, Ghost(adj): Ghost<Seq<Seq<usize>>>, Ghost(order): Ghost<Seq<usize>>) -> (t: Graph)
    requires
        forest_parents(adj, parent@),
        parents_in_blocks(adj, parent@),
        forall|x: int| 0 <= x < adj.len() && parent@[x] != x ==> listed_before(order, #[trigger] parent@[x], x as usize),
        adj.len() <= usize::MAX,
    ensures
        t.wf(),
        is_spanning_forest(adj, t.adj()),
        edges_in_blocks(adj, t.adj()),
        forall|u: int, j: int| 0 <= u < t.adj().len() && 0 <= j < t.adj()[u].len()
            ==> listed_before(order, u as usize, #[trigger] t.adj()[u][j]),
{
    let n = parent.len();
    let mut t = Graph::new(n);
    let mut v: usize = 0;
    while v < n
        invariant
            forest_parents(adj, parent@),
            n == adj.len(),
            v <= n,
            t.wf(),
            t.adj().len() == n,
            forall|u: int, j: int|
                0 <= u < n && 0 <= j < t.adj()[u].len() ==> #[trigger] t.adj()[u][j] < v
                    && parent@[t.adj()[u][j] as int] == u && t.adj()[u][j] != u,
            forall|w: int| 0 <= w < v && parent@[w] != w ==> #[trigger] t.adj()[parent@[w] as int].contains(w as usize),
            forall|u: int, j1: int, j2: int|
                0 <= u < n && 0 <= j1 < j2 < t.adj()[u].len() ==> #[trigger] t.adj()[u][j1] < #[trigger] t.adj()[u][j2],
            total_edges(t.adj()) + forest_root_count(adj, v as nat) == v,
        decreases n - v,
    {
        let ghost before = t.adj();
        if parent[v] != v {
            let p = parent[v];
            let r = t.add_edge(p, v);
            assert(r is Ok);
            proof {
                crate::graph::lemma_total_edges_update(before, p as int, before[p as int].push(v));
                assert(t.adj()[p as int].last() == v);
                assert forall|w: int| 0 <= w < v + 1 && parent@[w] != w implies #[trigger] t.adj()[parent@[w] as int].contains(w as usize) by {
                    if w < v {
                        let pw = parent@[w] as int;
                        let row = before[pw];
                        assert(row.contains(w as usize));
                        let k = choose|k: int| 0 <= k < row.len() && row[k] == w as usize;
                        if pw == p as int {
                            assert(t.adj()[pw] == row.push(v));
                        }
                        assert(t.adj()[pw][k] == w as usize);
                    } else {
                        assert(t.adj()[p as int][before[p as int].len() as int] == v);
                    }
                }
            }
        }
        v += 1;
    }
    proof {
        let ta = t.adj();
        assert forall|x: int| 0 <= x < n implies (#[trigger] has_tree_parent(ta, x as usize) <==> !is_forest_root(adj, x as usize)) by {
            if parent@[x] != x {
                let row = ta[parent@[x] as int];
                assert(row.contains(x as usize));
                let k = choose|k: int| 0 <= k < row.len() && row[k] == x as usize;
                assert(ta[parent@[x] as int][k] == x as usize);
            }
            if has_tree_parent(ta, x as usize) {
                let (u, j) = choose|u: int, j: int| 0 <= u < ta.len() && 0 <= j < ta[u].len() && #[trigger] ta[u][j] == x as usize;
                assert(parent@[ta[u][j] as int] == u);
            }
        }
        assert forall|u1: int, j1: int, u2: int, j2: int|
            0 <= u1 < ta.len() && 0 <= j1 < ta[u1].len() && 0 <= u2 < ta.len() && 0 <= j2 < ta[u2].len()
                && #[trigger] ta[u1][j1] == #[trigger] ta[u2][j2] implies u1 == u2 && j1 == j2 by {
            assert(parent@[ta[u1][j1] as int] == u1);
            assert(parent@[ta[u2][j2] as int] == u2);
            if j1 < j2 {
                assert(ta[u1][j1] < ta[u1][j2]);
            } else if j2 < j1 {
                assert(ta[u1][j2] < ta[u1][j1]);
            }
        }
        assert forall|u: int, j: int| 0 <= u < ta.len() && 0 <= j < ta[u].len() implies adj[u].contains(#[trigger] ta[u][j]) by {
            assert(parent@[ta[u][j] as int] == u);
        }
        assert forall|u: int, j: int| 0 <= u < ta.len() && 0 <= j < ta[u].len()
            implies listed_before(order, u as usize, #[trigger] ta[u][j]) by {
            let x = ta[u][j] as int;
            assert(parent@[x] == u);
            assert(listed_before(order, parent@[x], x as usize));
        }
        assert forall|u: int, j: int, w: usize| 0 <= u < ta.len() && 0 <= j < ta[u].len()
            implies (#[trigger] lowest_reacher(adj, w, ta[u][j]) <==> lowest_reacher(adj, w, u as usize)) by {
            let x = ta[u][j] as int;
            assert(parent@[x] == u);
            assert(parent@[x] != x);
            assert(lowest_reacher(adj, w, parent@[x]) <==> lowest_reacher(adj, w, x as usize));
        }
    }
    t
}

impl Graph {
    /// Depth-first exploration from `root` over the unmarked nodes.
    pub(crate) fn explore_dfs(&self, root: usize, visited: &mut Vec<bool>, order: &mut Vec<usize>, parent: &mut Vec<usize>)
        requires
            self.wf(),
            root < self.node_count(),
            old(visited)@.len() == self.node_count(),
            old(parent)@.len() == self.node_count(),
            !old(visited)@[root as int],
            closed(self.adj(), old(visited)@),
            lists_marked(old(order)@, old(visited)@),
        ensures
            explored(self.adj(), root, old(visited)@, final(visited)@, old(parent)@, final(parent)@),
            closed(self.adj(), final(visited)@),
            lists_marked(final(order)@, final(visited)@),
            forall|x: int| 0 <= x < self.node_count() && final(visited)@[x] && !old(visited)@[x] && x != root
                ==> listed_before(final(order)@, #[trigger] final(parent)@[x], x as usize),
            final(order)@.len() > old(order)@.len(),
            final(order)@.subrange(0, old(order)@.len() as int) == old(order)@,
            final(order)@[old(order)@.len() as int] == root,
            final(order)@.len() + count_unmarked(final(visited)@) == old(order)@.len() + count_unmarked(old(visited)@),
    {
        let ghost adj = self.adj();
        let ghost n = adj.len();
        let ghost m0 = visited@;
        let ghost o0 = order@;
        let ghost p0 = parent@;
        proof {
            self.lemma_wf();
            lemma_reach_refl(adj, root);
        }
        let mut stack: Vec<(usize, usize)> = Vec::new();
        stack.push((root, root));
        assert(stack@[0] == (root, root));
        while stack.len() > 0
            invariant
                self.wf(),
                adj == self.adj(),
                n == adj.len(),
                visited@.len() == n,
                parent@.len() == n,
                stack_ok(adj, visited@, stack@, root),
                closed_but_pending(adj, visited@, stack@),
                visited@[root as int] || pending(stack@, root),
                forall|x: int| 0 <= x < n ==> (#[trigger] visited@[x] ==> m0[x] || reachable(adj, root, x as usize)),
                forall|x: int| 0 <= x < n && m0[x] ==> #[trigger] visited@[x],
                forall|x: int| 0 <= x < n && m0[x] ==> #[trigger] parent@[x] == p0[x],
                edges_in_range(adj),
                lists_marked(order@, visited@),
                order@.len() >= o0.len(),
                order@.subrange(0, o0.len() as int) == o0,
                order@.len() > o0.len() ==> order@[o0.len() as int] == root && parent@[root as int] == root,
                visited@[root as int] <==> order@.len() > o0.len(),
                !visited@[root as int] ==> stack@.len() == 1 && stack@[0] == (root, root),
                n <= usize::MAX,
                order@.len() + count_unmarked(visited@) == o0.len() + count_unmarked(m0),
                forall|x: int|
                    0 <= x < n && visited@[x] && !m0[x] && x != root ==> #[trigger] parent@[x] != x && parent@[x] < n
                        && adj[parent@[x] as int].contains(x as usize) && visited@[parent@[x] as int] && !m0[parent@[x] as int],
                forall|k: int| 0 <= k < stack@.len() && (#[trigger] stack@[k]).0 != stack@[k].1 ==> !m0[stack@[k].1 as int],
                forall|k: int| 0 <= k < stack@.len() && (#[trigger] stack@[k]).0 != stack@[k].1 ==> order@.contains(stack@[k].1),
                forall|x: int| 0 <= x < n && visited@[x] && !m0[x] && x != root
                    ==> listed_before(order@, #[trigger] parent@[x], x as usize),
            decreases count_unmarked(visited@), stack@.len(),
        {
            let ghost st = stack@;
            let (v, p) = stack.pop().unwrap();
            assert(st[st.len() - 1] == (v, p));
            assert forall|w: usize| pending(st, w) implies pending(stack@, w) || w == v by {
                let k = choose|k: int| 0 <= k < st.len() && (#[trigger] st[k]).0 == w;
                if k < st.len() - 1 {
                    assert(stack@[k] == st[k]);
                }
            }
            assert(stack_ok(adj, visited@, stack@, root)) by {
                assert forall|k: int| 0 <= k < stack@.len() implies #[trigger] stack@[k] == st[k] by {}
            }
            if visited[v] {
                assert(closed_but_pending(adj, visited@, stack@)) by {
                    assert forall|x: int, i: int|
                        0 <= x < adj.len() && visited@[x] && 0 <= i < adj[x].len() implies #[trigger] visited@[adj[x][i] as int]
                            || pending(stack@, adj[x][i]) by {
                        if !visited@[adj[x][i] as int] {
                            assert(pending(st, adj[x][i]));
                        }
                    }
                }
            } else {
                let ghost vis_before = visited@;
                proof {
                    lemma_count_mark(visited@, v as int);
                    lemma_lists_marked_push(order@, visited@, v);
                }
                let ghost ob = order@;
                let ghost pb = parent@;
                visited[v] = true;
                parent[v] = p;
                order.push(v);
                proof {
                    if !vis_before[root as int] {
                        assert(v == root);
                    }
                    assert(order@[ob.len() as int] == v);
                    assert(order@.contains(v));
                    assert forall|x: int| 0 <= x < n && visited@[x] && !m0[x] && x != root
                        implies listed_before(order@, #[trigger] parent@[x], x as usize) by {
                        if x == v as int {
                            assert(p != v);
                            assert(ob.contains(p));
                            let q = choose|q: int| 0 <= q < ob.len() && ob[q] == p;
                            assert(order@[q] == p && order@[ob.len() as int] == x as usize);
                        } else {
                            assert(vis_before[x]);
                            assert(listed_before(ob, pb[x], x as usize));
                            let (q1, q2) = choose|q1: int, q2: int| 0 <= q1 < q2 < ob.len() && #[trigger] ob[q1] == pb[x] && #[trigger] ob[q2] == x as usize;
                            assert(order@[q1] == ob[q1] && order@[q2] == ob[q2]);
                        }
                    }
                    assert forall|k: int| 0 <= k < stack@.len() && (#[trigger] stack@[k]).0 != stack@[k].1 implies order@.contains(stack@[k].1) by {
                        let q = choose|q: int| 0 <= q < ob.len() && ob[q] == stack@[k].1;
                        assert(order@[q] == ob[q]);
                    }
                    assert(order@.subrange(0, o0.len() as int) =~= o0);
                    assert forall|x: int, i: int|
                        0 <= x < n && visited@[x] && 0 <= i < adj[x].len() && (x != v || i < 0)
                            implies #[trigger] visited@[adj[x][i] as int] || pending(stack@, adj[x][i]) by {
                        assert(x != v);
                        assert(vis_before[x]);
                        let w = adj[x][i];
                        if !vis_before[w as int] {
                            assert(pending(st, w));
                            assert(pending(stack@, w) || w == v);
                        }
                    }
                }
                let deg = self.degree(v);
                let mut j: usize = 0;
                while j < deg
                    invariant
                        self.wf(),
                        adj == self.adj(),
                        n == adj.len(),
                        v < n,
                        deg == adj[v as int].len(),
                        j <= deg,
                        visited@.len() == n,
                        visited@[v as int],
                        stack_ok(adj, visited@, stack@, root),
                        reachable(adj, root, v),
                        edges_in_range(adj),
                        !m0[v as int],
                        forall|x: int| 0 <= x < n && m0[x] ==> #[trigger] visited@[x],
                        forall|k: int| 0 <= k < stack@.len() && (#[trigger] stack@[k]).0 != stack@[k].1 ==> !m0[stack@[k].1 as int],
                        forall|k: int| 0 <= k < stack@.len() && (#[trigger] stack@[k]).0 != stack@[k].1 ==> order@.contains(stack@[k].1),
                        order@.contains(v),
                        forall|x: int, i: int|
                            0 <= x < n && visited@[x] && 0 <= i < adj[x].len() && (x != v || i < j)
                                ==> #[trigger] visited@[adj[x][i] as int] || pending(stack@, adj[x][i]),
                    decreases deg - j,
                {
                    let w = self.neighbor(v, j);
                    if !visited[w] {
                        let ghost st2 = stack@;
                        stack.push((w, v));
                        proof {
                            assert(adj[v as int][j as int] == w);
                            assert(adj[v as int].contains(w));
                            lemma_reach_step(adj, root, v, w);
                            assert(stack@[st2.len() as int] == (w, v));
                            assert forall|u: usize| pending(st2, u) implies pending(stack@, u) by {
                                let k = choose|k: int| 0 <= k < st2.len() && (#[trigger] st2[k]).0 == u;
                                assert(stack@[k] == st2[k]);
                            }
                            assert forall|k: int| 0 <= k < stack@.len() implies #[trigger] stack@[k] == if k < st2.len() {
                                st2[k]
                            } else {
                                (w, v)
                            } by {}
                        }
                    }
                    j += 1;
                }
            }
        }
        proof {
            assert(visited@[root as int]);
            assert(closed(adj, visited@)) by {
                assert forall|x: int, j: int|
                    0 <= x < adj.len() && visited@[x] && 0 <= j < adj[x].len() implies #[trigger] visited@[adj[x][j] as int] by {
                    assert(!pending(stack@, adj[x][j]));
                }
            }
            assert forall|x: int| 0 <= x < n implies (#[trigger] visited@[x] <==> m0[x] || reachable(adj, root, x as usize)) by {
                if reachable(adj, root, x as usize) {
                    lemma_closed_reach(adj, visited@, root, x as usize);
                }
            }
            assert(parent@[root as int] == root);
            assert(explored(adj, root, m0, visited@, p0, parent@));
        }
    }

    /// Breadth-first exploration from `root` over the unmarked nodes. `order` doubles as the
    /// queue: a node is marked grey when it is queued and visited when it is taken out.
    fn explore_bfs(
        &self,
        root: usize,
        visited: &mut Vec<bool>,
        grey: &mut Vec<bool>,
        order: &mut Vec<usize>,
        parent: &mut Vec<usize>,
    )
        requires
            self.wf(),
            root < self.node_count(),
            old(visited)@.len() == self.node_count(),
            old(grey)@ == old(visited)@,
            old(parent)@.len() == self.node_count(),
            !old(visited)@[root as int],
            closed(self.adj(), old(visited)@),
            lists_marked(old(order)@, old(visited)@),
        ensures
            explored(self.adj(), root, old(visited)@, final(visited)@, old(parent)@, final(parent)@),
            final(grey)@ == final(visited)@,
            forall|x: int| 0 <= x < self.node_count() && final(visited)@[x] && !old(visited)@[x] && x != root
                ==> listed_before(final(order)@, #[trigger] final(parent)@[x], x as usize),
            closed(self.adj(), final(visited)@),
            lists_marked(final(order)@, final(visited)@),
            final(order)@.len() > old(order)@.len(),
            final(order)@.subrange(0, old(order)@.len() as int) == old(order)@,
            final(order)@[old(order)@.len() as int] == root,
            final(order)@.len() + count_unmarked(final(visited)@) == old(order)@.len() + count_unmarked(old(visited)@),
            (forall|x: int| 0 <= x < self.node_count() ==> !#[trigger] old(visited)@[x]) ==> forall|k: int, d: int|
                0 <= k < final(order)@.len() - 1 && #[trigger] within(self.adj(), root, final(order)@[k + 1], d)
                    ==> within(self.adj(), root, final(order)@[k], d),
    {
        let ghost adj = self.adj();
        let ghost n = adj.len();
        let ghost m0 = visited@;
        let ghost o0 = order@;
        let ghost p0 = parent@;
        let ghost mut depth = Seq::new(n, |x: int| 0int);
        proof {
            self.lemma_wf();
            lemma_reach_refl(adj, root);
            assert(is_path(adj, seq![root]));
            assert(within(adj, root, root, 0));
            lemma_count_mark(grey@, root as int);
            lemma_lists_marked_push(order@, grey@, root);
        }
        let start = order.len();
        grey[root] = true;
        parent[root] = root;
        order.push(root);
        let mut head = start;
        proof {
            assert(order@.subrange(0, o0.len() as int) =~= o0);
            assert forall|k: int, j: int|
                0 <= k < head && 0 <= j < adj[order@[k] as int].len() implies #[trigger] grey@[adj[order@[k] as int][j] as int] by {
                assert(order@[k] == o0[k]);
                assert(m0[o0[k] as int]);
            }
        }
        while head < order.len()
            invariant
                self.wf(),
                adj == self.adj(),
                n == adj.len(),
                n <= usize::MAX,
                edges_in_range(adj),
                visited@.len() == n,
                grey@.len() == n,
                parent@.len() == n,
                lists_marked(order@, grey@),
                order@.len() + count_unmarked(grey@) == o0.len() + count_unmarked(m0),
                start == o0.len(),
                start <= head <= order@.len(),
                order@.len() > start,
                order@.subrange(0, start as int) == o0,
                order@[start as int] == root,
                parent@[root as int] == root,
                forall|k: int| 0 <= k < head ==> #[trigger] visited@[order@[k] as int],
                forall|x: int| 0 <= x < n && visited@[x] ==> #[trigger] grey@[x],
                forall|x: int| 0 <= x < n && m0[x] ==> #[trigger] grey@[x] && visited@[x],
                forall|x: int| 0 <= x < n && m0[x] ==> #[trigger] parent@[x] == p0[x],
                forall|k: int| start <= k < order@.len() ==> #[trigger] reachable(adj, root, order@[k]),
                forall|k: int, j: int|
                    0 <= k < head && 0 <= j < adj[order@[k] as int].len() ==> #[trigger] grey@[adj[order@[k] as int][j] as int],
                forall|x: int|
                    0 <= x < n && grey@[x] && !m0[x] && x != root ==> #[trigger] parent@[x] != x && parent@[x] < n
                        && adj[parent@[x] as int].contains(x as usize) && grey@[parent@[x] as int] && !m0[parent@[x] as int],
                forall|k: int| start <= k < order@.len() ==> !m0[#[trigger] order@[k] as int],
                depth.len() == n,
                depth[root as int] == 0,
                lists_marked(o0, m0),
                forall|x: int| 0 <= x < n && grey@[x] && !m0[x] && x != root
                    ==> listed_before(order@, #[trigger] parent@[x], x as usize),
                forall|k: int| start <= k < order@.len() ==> within(adj, root, #[trigger] order@[k], depth[order@[k] as int]),
                forall|k1: int, k2: int| start <= k1 <= k2 < order@.len() ==> depth[#[trigger] order@[k1] as int] <= depth[#[trigger] order@[k2] as int],
                head < order@.len() ==> depth[order@.last() as int] <= depth[order@[head as int] as int] + 1,
                forall|k: int, j: int| start <= k < head && 0 <= j < adj[order@[k] as int].len() && !m0[adj[order@[k] as int][j] as int]
                    ==> depth[#[trigger] adj[order@[k] as int][j] as int] <= depth[order@[k] as int] + 1,
            decreases count_unmarked(grey@) + order@.len() - head,
        {
            let u = order[head];
            assert(reachable(adj, root, u) || head < start);
            visited[u] = true;
            let deg = self.degree(u);
            let mut j: usize = 0;
            while j < deg
                invariant
                    self.wf(),
                    adj == self.adj(),
                    n == adj.len(),
                    n <= usize::MAX,
                    edges_in_range(adj),
                    u < n,
                    deg == adj[u as int].len(),
                    j <= deg,
                    visited@.len() == n,
                    grey@.len() == n,
                    parent@.len() == n,
                    lists_marked(order@, grey@),
                    order@.len() + count_unmarked(grey@) == o0.len() + count_unmarked(m0),
                    start == o0.len(),
                    start <= head < order@.len(),
                    order@[head as int] == u,
                    order@.subrange(0, start as int) == o0,
                    order@[start as int] == root,
                    parent@[root as int] == root,
                    head >= start ==> reachable(adj, root, u),
                    forall|k: int| 0 <= k <= head ==> #[trigger] visited@[order@[k] as int],
                    forall|x: int| 0 <= x < n && visited@[x] ==> #[trigger] grey@[x],
                    forall|x: int| 0 <= x < n && m0[x] ==> #[trigger] grey@[x] && visited@[x],
                    forall|x: int| 0 <= x < n && m0[x] ==> #[trigger] parent@[x] == p0[x],
                    forall|k: int| start <= k < order@.len() ==> #[trigger] reachable(adj, root, order@[k]),
                    forall|k: int, i: int|
                        0 <= k < head && 0 <= i < adj[order@[k] as int].len() ==> #[trigger] grey@[adj[order@[k] as int][i] as int],
                    forall|i: int| 0 <= i < j ==> #[trigger] grey@[adj[u as int][i] as int],
                    forall|x: int|
                        0 <= x < n && grey@[x] && !m0[x] && x != root ==> #[trigger] parent@[x] != x && parent@[x] < n
                            && adj[parent@[x] as int].contains(x as usize) && grey@[parent@[x] as int] && !m0[parent@[x] as int],
                    forall|k: int| start <= k < order@.len() ==> !m0[#[trigger] order@[k] as int],
                    depth.len() == n,
                    depth[root as int] == 0,
                    lists_marked(o0, m0),
                    forall|x: int| 0 <= x < n && grey@[x] && !m0[x] && x != root
                        ==> listed_before(order@, #[trigger] parent@[x], x as usize),
                    forall|k: int| start <= k < order@.len() ==> within(adj, root, #[trigger] order@[k], depth[order@[k] as int]),
                    forall|k1: int, k2: int| start <= k1 <= k2 < order@.len() ==> depth[#[trigger] order@[k1] as int] <= depth[#[trigger] order@[k2] as int],
                    depth[order@.last() as int] <= depth[u as int] + 1,
                    forall|k: int, i: int| start <= k < head && 0 <= i < adj[order@[k] as int].len() && !m0[adj[order@[k] as int][i] as int]
                        ==> depth[#[trigger] adj[order@[k] as int][i] as int] <= depth[order@[k] as int] + 1,
                    forall|i: int| 0 <= i < j && !m0[adj[u as int][i] as int] ==> depth[#[trigger] adj[u as int][i] as int] <= depth[u as int] + 1,
                decreases deg - j,
            {
                let w = self.neighbor(u, j);
                if !visited[w] && !grey[w] {
                    let ghost o1 = order@;
                    let ghost g1 = grey@;
                    proof {
                        lemma_count_mark(grey@, w as int);
                        lemma_lists_marked_push(order@, grey@, w);
                        assert(adj[u as int][j as int] == w);
                        assert(adj[u as int].contains(w));
                        if head < start {
                            assert(m0[u as int]);
                            assert(m0[w as int]);
                        }
                        lemma_reach_step(adj, root, u, w);
                    }
                    let ghost d0 = depth;
                    proof {
                        depth = depth.update(w as int, depth[u as int] + 1);
                    }
                    grey[w] = true;
                    parent[w] = u;
                    order.push(w);
                    proof {
                        assert(!m0[u as int]);
                        assert forall|x: int| 0 <= x < n && grey@[x] && !m0[x] && x != root
                            implies listed_before(order@, #[trigger] parent@[x], x as usize) by {
                            if x == w as int {
                                assert(order@[head as int] == u && order@[o1.len() as int] == w);
                            } else {
                                assert(g1[x]);
                                let (q1, q2) = choose|q1: int, q2: int| 0 <= q1 < q2 < o1.len() && #[trigger] o1[q1] == parent@[x] && #[trigger] o1[q2] == x as usize;
                                assert(order@[q1] == o1[q1] && order@[q2] == o1[q2]);
                            }
                        }
                        lemma_within_step(adj, root, u, w, d0[u as int]);
                        assert forall|k: int| start <= k < o1.len() implies #[trigger] o1[k] != w by {
                            assert(g1[o1[k] as int]);
                        }
                        assert forall|k: int| start <= k < order@.len() implies within(adj, root, #[trigger] order@[k], depth[order@[k] as int]) by {
                            if k < o1.len() {
                                assert(order@[k] == o1[k]);
                            }
                        }
                        assert forall|k1: int, k2: int| start <= k1 <= k2 < order@.len()
                            implies depth[#[trigger] order@[k1] as int] <= depth[#[trigger] order@[k2] as int] by {
                            if k2 < o1.len() {
                                assert(order@[k1] == o1[k1] && order@[k2] == o1[k2]);
                            } else if k1 < o1.len() {
                                assert(order@[k1] == o1[k1]);
                                assert(d0[o1[k1] as int] <= d0[o1.last() as int]);
                            }
                        }
                        assert forall|k: int, i: int| start <= k < head && 0 <= i < adj[order@[k] as int].len() && !m0[adj[order@[k] as int][i] as int]
                            implies depth[#[trigger] adj[order@[k] as int][i] as int] <= depth[order@[k] as int] + 1 by {
                            assert(order@[k] == o1[k]);
                            assert(g1[adj[o1[k] as int][i] as int]);
                        }
                        assert forall|i: int| 0 <= i < j + 1 && !m0[adj[u as int][i] as int]
                            implies depth[#[trigger] adj[u as int][i] as int] <= depth[u as int] + 1 by {
                            if i < j {
                                assert(g1[adj[u as int][i] as int]);
                            }
                        }
                        assert(order@.subrange(0, start as int) =~= o0);
                        assert forall|k: int| start <= k < order@.len() implies #[trigger] reachable(adj, root, order@[k]) by {
                            if k < o1.len() {
                                assert(order@[k] == o1[k]);
                            }
                        }
                        assert forall|k: int| 0 <= k <= head implies #[trigger] visited@[order@[k] as int] by {
                            assert(order@[k] == o1[k]);
                        }
                        assert forall|k: int, i: int|
                            0 <= k < head && 0 <= i < adj[order@[k] as int].len() implies #[trigger] grey@[adj[order@[k] as int][i] as int] by {
                            assert(order@[k] == o1[k]);
                            assert(g1[adj[o1[k] as int][i] as int]);
                        }
                    }
                } else {
                    proof {
                        if !m0[w as int] {
                            assert(grey@[w as int]);
                            assert(order@.contains((w as int) as usize));
                            let q = choose|q: int| 0 <= q < order@.len() && order@[q] == w;
                            if q < start {
                                assert(order@[q] == o0[q]);
                                assert(m0[o0[q] as int]);
                            }
                            assert(depth[order@[q] as int] <= depth[order@[order@.len() - 1] as int]);
                        }
                        assert forall|i: int| 0 <= i < j + 1 && !m0[adj[u as int][i] as int]
                            implies depth[#[trigger] adj[u as int][i] as int] <= depth[u as int] + 1 by {
                            if i == j {
                                assert(adj[u as int][i] == w);
                            }
                        }
                    }
                }
                j += 1;
            }
            proof {
                assert forall|k: int, i: int| start <= k < head + 1 && 0 <= i < adj[order@[k] as int].len() && !m0[adj[order@[k] as int][i] as int]
                    implies depth[#[trigger] adj[order@[k] as int][i] as int] <= depth[order@[k] as int] + 1 by {
                    if k == head {
                        assert(order@[k] == u);
                    }
                }
                if head + 1 < order@.len() {
                    assert(depth[u as int] <= depth[order@[head + 1] as int]);
                }
                assert forall|k: int, i: int|
                    0 <= k < head + 1 && 0 <= i < adj[order@[k] as int].len() implies #[trigger] grey@[adj[order@[k] as int][i] as int] by {
                    if k == head {
                        assert(grey@[adj[u as int][i] as int]);
                    }
                }
            }
            head += 1;
        }
        proof {
            assert(visited@ =~= grey@) by {
                assert forall|x: int| 0 <= x < n implies visited@[x] == grey@[x] by {
                    if grey@[x] {
                        assert(order@.contains(x as usize));
                        let k = choose|k: int| 0 <= k < order@.len() && order@[k] == x as usize;
                        assert(visited@[order@[k] as int]);
                    }
                }
            }
            assert(closed(adj, visited@)) by {
                assert forall|x: int, j: int|
                    0 <= x < adj.len() && visited@[x] && 0 <= j < adj[x].len() implies #[trigger] visited@[adj[x][j] as int] by {
                    assert(order@.contains(x as usize));
                    let k = choose|k: int| 0 <= k < order@.len() && order@[k] == x as usize;
                    assert(grey@[adj[order@[k] as int][j] as int]);
                }
            }
            assert forall|x: int| 0 <= x < n implies (#[trigger] visited@[x] <==> m0[x] || reachable(adj, root, x as usize)) by {
                if reachable(adj, root, x as usize) {
                    lemma_closed_reach(adj, visited@, root, x as usize);
                }
                if visited@[x] && !m0[x] {
                    assert(order@.contains(x as usize));
                    let k = choose|k: int| 0 <= k < order@.len() && order@[k] == x as usize;
                    if k < start {
                        assert(order@[k] == o0[k]);
                        assert(m0[o0[k] as int]);
                    }
                    assert(reachable(adj, root, order@[k]));
                }
            }
            assert(explored(adj, root, m0, visited@, p0, parent@));
            if forall|x: int| 0 <= x < n ==> !#[trigger] m0[x] {
                assert(o0.len() == 0) by {
                    if o0.len() > 0 {
                        assert(m0[o0[0] as int]);
                    }
                }
                assert forall|x: int, j: int| 0 <= x < adj.len() && visited@[x] && 0 <= j < adj[x].len()
                    implies #[trigger] visited@[adj[x][j] as int] && depth[adj[x][j] as int] <= depth[x] + 1 by {
                    assert(order@.contains(x as usize));
                    let k = choose|k: int| 0 <= k < order@.len() && order@[k] == x as usize;
                    assert(order@[k] as int == x);
                    assert(grey@[adj[order@[k] as int][j] as int]);
                    assert(!m0[adj[x][j] as int]);
                }
                assert forall|k: int, d: int| 0 <= k < order@.len() - 1 && #[trigger] within(adj, root, order@[k + 1], d)
                    implies within(adj, root, order@[k], d) by {
                    let p = choose|p: Seq<usize>| #[trigger] is_path(adj, p) && p[0] == root && p.last() == order@[k + 1] && p.len() <= d + 1;
                    lemma_depth_bound(adj, root, depth, visited@, p, p.len() - 1);
                    assert(depth[order@[k] as int] <= depth[order@[k + 1] as int]);
                    assert(within(adj, root, order@[k], depth[order@[k] as int]));
                    let p2 = choose|p2: Seq<usize>| #[trigger] is_path(adj, p2) && p2[0] == root && p2.last() == order@[k] && p2.len() <= depth[order@[k] as int] + 1;
                }
            }
        }
    }

    /// Fresh traversal state: nothing marked, nothing listed.
    fn fresh_state(&self) -> (r: (Vec<bool>, Vec<usize>, Vec<usize>))
        requires
            self.wf(),
        ensures
            r.0@ == Seq::new(self.node_count(), |i: int| false),
            r.1@.len() == self.node_count(),
            r.2@.len() == 0,
            closed(self.adj(), r.0@),
            lists_marked(r.2@, r.0@),
            count_unmarked(r.0@) == self.node_count(),
    {
        let n = self.get_n();
        let visited = vec![false; n];
        let parent = vec![0usize; n];
        let order: Vec<usize> = Vec::new();
        proof {
            assert(visited@ =~= Seq::new(self.node_count(), |i: int| false));
            lemma_count_none_marked(self.node_count());
        }
        (visited, parent, order)
    }

    /// Depth-first traversal from `root`: every node reachable from `root`, each once, in the
    /// order of first visit.
    pub fn dfs_form_node(&self, root: usize) -> (order: Vec<usize>)
        requires
            self.wf(),
            root < self.node_count(),
        ensures
            no_dup(order@),
            order@.len() > 0 && order@[0] == root,
            forall|k: int| 0 <= k < order@.len() ==> #[trigger] order@[k] < self.node_count(),
            forall|x: usize| x < self.node_count() ==> (#[trigger] order@.contains(x) <==> reachable(self.adj(), root, x)),
    {
        let (mut visited, mut parent, mut order) = self.fresh_state();
        self.explore_dfs(root, &mut visited, &mut order, &mut parent);
        proof {
            assert forall|x: usize| x < self.node_count() implies (#[trigger] order@.contains(x) <==> reachable(self.adj(), root, x)) by {
                if order@.contains(x) {
                    let k = choose|k: int| 0 <= k < order@.len() && order@[k] == x;
                    assert(visited@[order@[k] as int]);
                }
                assert(visited@[x as int] ==> order@.contains(x));
            }
        }
        order
    }

    /// Traversal of the whole graph, trying roots in index order, depth-first or breadth-first:
    /// returns the visit order and the parent records.
    fn forest(&self, breadth_first: bool) -> (r: (Vec<usize>, Vec<usize>))
        requires
            self.wf(),
        ensures
            is_permutation(r.0@, self.node_count()),
            forest_parents(self.adj(), r.1@),
            in_blocks(self.adj(), r.0@),
            parents_in_blocks(self.adj(), r.1@),
            forall|x: int| 0 <= x < self.node_count() && r.1@[x] != x ==> listed_before(r.0@, #[trigger] r.1@[x], x as usize),
    {
        let ghost adj = self.adj();
        let n = self.get_n();
        let (mut visited, mut parent, mut order) = self.fresh_state();
        let ghost mut step = Seq::new(n as nat, |x: int| 0usize);
        let mut grey = vec![false; n];
        proof {
            self.lemma_wf();
            assert(grey@ =~= visited@);
        }
        let mut i: usize = 0;
        while i < n
            invariant
                self.wf(),
                adj == self.adj(),
                n == adj.len(),
                i <= n,
                visited@.len() == n,
                parent@.len() == n,
                breadth_first ==> grey@ == visited@,
                closed(adj, visited@),
                lists_marked(order@, visited@),
                order@.len() + count_unmarked(visited@) == n,
                forall|x: int| 0 <= x < i ==> #[trigger] visited@[x],
                forall|x: usize| x < n ==> (#[trigger] visited@[x as int] <==> exists|u: usize| u < i && #[trigger] reachable(adj, u, x)),
                forall|x: int| 0 <= x < n && visited@[x] ==> (#[trigger] parent@[x] == x <==> is_forest_root(adj, x as usize)),
                forall|x: int| 0 <= x < n && visited@[x] && parent@[x] != x ==> #[trigger] parent@[x] < n
                    && adj[parent@[x] as int].contains(x as usize),
                step.len() == n,
                forall|x: usize| x < n && #[trigger] visited@[x as int] ==> step[x as int] < i && lowest_reacher(adj, step[x as int], x),
                forall|x: int| 0 <= x < n && visited@[x] && parent@[x] != x ==> visited@[parent@[x] as int]
                    && step[#[trigger] parent@[x] as int] == step[x],
                forall|p: int| 0 <= p < order@.len() ==> #[trigger] block_root(adj, order@, p) == step[order@[p] as int],
                order@.len() > 0 ==> is_forest_root(adj, order@[0]),
                forall|x: int| 0 <= x < n && visited@[x] && parent@[x] != x ==> listed_before(order@, #[trigger] parent@[x], x as usize),
                forall|p: int| 0 <= p < order@.len() && is_forest_root(adj, #[trigger] order@[p])
                    ==> forall|x: usize| x < order@[p] ==> #[trigger] order@.subrange(0, p).contains(x),
            decreases n - i,
        {
            if !visited[i] {
                let ghost m0 = visited@;
                let ghost p0 = parent@;
                let ghost o0 = order@;
                let ghost s0 = step;
                if breadth_first {
                    self.explore_bfs(i, &mut visited, &mut grey, &mut order, &mut parent);
                } else {
                    self.explore_dfs(i, &mut visited, &mut order, &mut parent);
                }
                proof {
                    assert forall|x: usize| x < n implies (#[trigger] visited@[x as int] <==> exists|u: usize| u < i + 1 && #[trigger] reachable(adj, u, x)) by {
                        if visited@[x as int] && !m0[x as int] {
                            assert(reachable(adj, i, x));
                        }
                        if exists|u: usize| u < i + 1 && #[trigger] reachable(adj, u, x) {
                            let u = choose|u: usize| u < i + 1 && #[trigger] reachable(adj, u, x);
                            if u < i {
                                assert(m0[x as int]);
                            }
                        }
                    }
                    assert forall|x: int| 0 <= x < n && visited@[x] implies (#[trigger] parent@[x] == x <==> is_forest_root(adj, x as usize)) by {
                        if !m0[x] && x != i {
                            assert(x > i);
                            assert(reachable(adj, i, x as usize));
                        }
                        if x == i {
                            assert(!m0[i as int]);
                        }
                    }
                    step = Seq::new(n as nat, |x: int| if !m0[x] && visited@[x] { i } else { s0[x] });
                    let o1 = order@;
                    assert forall|x: int| 0 <= x < n && visited@[x] && parent@[x] != x
                        implies listed_before(o1, #[trigger] parent@[x], x as usize) by {
                        if m0[x] {
                            assert(parent@[x] == p0[x]);
                            assert(listed_before(o0, p0[x], x as usize));
                            let (q1, q2) = choose|q1: int, q2: int| 0 <= q1 < q2 < o0.len() && #[trigger] o0[q1] == p0[x] && #[trigger] o0[q2] == x as usize;
                            assert(o1[q1] == o0[q1]) by {
                                assert(o1.subrange(0, o0.len() as int)[q1] == o0[q1]);
                            }
                            assert(o1[q2] == o0[q2]) by {
                                assert(o1.subrange(0, o0.len() as int)[q2] == o0[q2]);
                            }
                        } else {
                            assert(x != i as int);
                        }
                    }
                    assert(is_forest_root(adj, i)) by {
                        if !is_forest_root(adj, i) {
                            let u = choose|u: usize| u < i && #[trigger] reachable(adj, u, i);
                            assert(m0[i as int]);
                        }
                    }
                    assert forall|q: int| o0.len() <= q < o1.len() implies !m0[#[trigger] o1[q] as int] by {
                        if m0[o1[q] as int] {
                            assert(o0.contains((o1[q] as int) as usize));
                            let k = choose|k: int| 0 <= k < o0.len() && o0[k] == o1[q];
                            assert(o1.subrange(0, o0.len() as int)[k] == o0[k]);
                            assert(o1[k] == o1[q]);
                        }
                    }
                    assert forall|x: usize| x < n && #[trigger] visited@[x as int] implies step[x as int] < i + 1 && lowest_reacher(adj, step[x as int], x) by {
                        if !m0[x as int] {
                            assert(reachable(adj, i, x));
                            assert forall|y: usize| y < i implies !#[trigger] reachable(adj, y, x) by {
                                if reachable(adj, y, x) {
                                    assert(m0[x as int]);
                                }
                            }
                        }
                    }
                    assert forall|x: int| 0 <= x < n && visited@[x] && parent@[x] != x implies visited@[parent@[x] as int]
                        && step[#[trigger] parent@[x] as int] == step[x] by {
                        if !m0[x] {
                            assert(x != i as int);
                        }
                    }
                    assert forall|q: int| o0.len() < q < o1.len() implies !is_forest_root(adj, #[trigger] o1[q]) by {
                        let x = o1[q];
                        assert(!m0[x as int]);
                        assert(visited@[x as int]);
                        assert(x != i) by {
                            assert(o1[o0.len() as int] == i);
                        }
                        if x < i {
                            assert(m0[x as int]);
                        }
                        assert(reachable(adj, i, x));
                    }
                    assert forall|p: int| 0 <= p < o1.len() implies #[trigger] block_root(adj, o1, p) == step[o1[p] as int] by {
                        if p < o0.len() {
                            assert forall|q: int| 0 <= q <= p implies o1[q] == o0[q] by {
                                assert(o1.subrange(0, o0.len() as int)[q] == o0[q]);
                            }
                            lemma_block_root_prefix(adj, o1, o0, p);
                            assert(o1[p] == o0[p]);
                            assert(m0[o0[p] as int]);
                        } else {
                            lemma_block_root_segment(adj, o1, o0.len() as int, p);
                        }
                    }
                    assert forall|p: int| 0 <= p < o1.len() && is_forest_root(adj, #[trigger] o1[p])
                        implies forall|x: usize| x < o1[p] ==> #[trigger] o1.subrange(0, p).contains(x) by {
                        assert forall|x: usize| x < o1[p] implies #[trigger] o1.subrange(0, p).contains(x) by {
                            if p < o0.len() {
                                assert(o1[p] == o0[p]) by {
                                    assert(o1.subrange(0, o0.len() as int)[p] == o0[p]);
                                }
                                assert(o0.subrange(0, p).contains(x));
                                let k = choose|k: int| 0 <= k < p && o0.subrange(0, p)[k] == x;
                                assert(o1.subrange(0, p)[k] == x) by {
                                    assert(o1.subrange(0, o0.len() as int)[k] == o0[k]);
                                }
                            } else {
                                assert(p == o0.len());
                                assert(visited@[x as int] && m0[x as int]);
                                assert(o0.contains((x as int) as usize));
                                let k = choose|k: int| 0 <= k < o0.len() && o0[k] == x;
                                assert(o1.subrange(0, p)[k] == x) by {
                                    assert(o1.subrange(0, o0.len() as int)[k] == o0[k]);
                                }
                            }
                        }
                    }
                    if o0.len() > 0 {
                        assert(o1[0] == o0[0]) by {
                            assert(o1.subrange(0, o0.len() as int)[0] == o0[0]);
                        }
                    }
                }
            } else {
                proof {
                    assert forall|x: usize| x < n implies (#[trigger] visited@[x as int] <==> exists|u: usize| u < i + 1 && #[trigger] reachable(adj, u, x)) by {
                        if reachable(adj, i, x) {
                            lemma_closed_reach(adj, visited@, i, x);
                        }
                    }
                }
            }
            i += 1;
        }
        proof {
            lemma_count_all_marked(visited@);
            assert forall|x: usize| x < n implies #[trigger] order@.contains(x) by {
                let xi = x as int;
                assert(visited@[xi]);
                assert(order@.contains(xi as usize));
            }
            assert forall|p: int| 0 <= p < order@.len() implies lowest_reacher(adj, #[trigger] block_root(adj, order@, p), order@[p]) by {
                assert(visited@[order@[p] as int]);
            }
            assert forall|x: int, w: usize| 0 <= x < parent@.len() && parent@[x] != x
                implies (#[trigger] lowest_reacher(adj, w, parent@[x]) <==> lowest_reacher(adj, w, x as usize)) by {
                assert(visited@[x]);
                let px = parent@[x];
                assert(visited@[px as int]);
                assert(step[px as int] == step[x]);
                assert(lowest_reacher(adj, step[x], x as usize));
                assert(lowest_reacher(adj, step[px as int], px));
                if lowest_reacher(adj, w, px) {
                    lemma_lowest_unique(adj, w, step[px as int], px);
                }
                if lowest_reacher(adj, w, x as usize) {
                    lemma_lowest_unique(adj, w, step[x], x as usize);
                }
            }
        }
        (order, parent)
    }

    /// Depth-first traversal of the whole graph, trying roots in index order: every node once.
    pub fn dfs(&self) -> (order: Vec<usize>)
        requires
            self.wf(),
        ensures
            is_permutation(order@, self.node_count()),
            in_blocks(self.adj(), order@),
    {
        let (order, _parent) = self.forest(false);
        order
    }

    /// Depth-first traversal of the whole graph with its spanning forest: the visit order and
    /// the forest of the edges that first reached each node.
    pub fn dfs_with_tree(&self) -> (r: (Vec<usize>, Graph))
        requires
            self.wf(),
        ensures
            is_permutation(r.0@, self.node_count()),
            in_blocks(self.adj(), r.0@),
            r.1.wf(),
            is_spanning_forest(self.adj(), r.1.adj()),
            edges_in_blocks(self.adj(), r.1.adj()),
            forall|u: int, j: int| 0 <= u < r.1.adj().len() && 0 <= j < r.1.adj()[u].len()
                ==> listed_before(r.0@, u as usize, #[trigger] r.1.adj()[u][j]),
    {
        let (order, parent) = self.forest(false);
        proof {
            self.lemma_wf();
        }
        let tree = tree_from_parents(&parent, Ghost(self.adj()), Ghost(order@));
        (order, tree)
    }

    /// Breadth-first traversal from `root`: every node reachable from `root`, each once, in the
    /// order in which they are queued, which is by distance from `root`: any edge count that
    /// reaches a node also reaches every node listed before it.
    pub fn bfs_from_node(&self, root: usize) -> (order: Vec<usize>)
        requires
            self.wf(),
            root < self.node_count(),
        ensures
            no_dup(order@),
            order@.len() > 0 && order@[0] == root,
            forall|k: int| 0 <= k < order@.len() ==> #[trigger] order@[k] < self.node_count(),
            forall|x: usize| x < self.node_count() ==> (#[trigger] order@.contains(x) <==> reachable(self.adj(), root, x)),
            forall|k: int, d: int| 0 <= k < order@.len() - 1 && #[trigger] within(self.adj(), root, order@[k + 1], d)
                ==> within(self.adj(), root, order@[k], d),
    {
        let (mut visited, mut parent, mut order) = self.fresh_state();
        let mut grey = vec![false; self.get_n()];
        assert(grey@ =~= visited@);
        self.explore_bfs(root, &mut visited, &mut grey, &mut order, &mut parent);
        proof {
            assert forall|x: usize| x < self.node_count() implies (#[trigger] order@.contains(x) <==> reachable(self.adj(), root, x)) by {
                if order@.contains(x) {
                    let k = choose|k: int| 0 <= k < order@.len() && order@[k] == x;
                    assert(visited@[order@[k] as int]);
                }
                assert(visited@[x as int] ==> order@.contains(x));
            }
        }
        order
    }

    /// Breadth-first traversal of the whole graph, trying roots in index order: every node once.
    pub fn bfs(&self) -> (order: Vec<usize>)
        requires
            self.wf(),
        ensures
            is_permutation(order@, self.node_count()),
            in_blocks(self.adj(), order@),
    {
        let (order, _parent) = self.forest(true);
        order
    }

    /// Breadth-first traversal of the whole graph with its spanning forest: the visit order and
    /// the forest of the edges that first reached each node.
    pub fn bfs_with_tree(&self) -> (r: (Vec<usize>, Graph))
        requires
            self.wf(),
        ensures
            is_permutation(r.0@, self.node_count()),
            in_blocks(self.adj(), r.0@),
            r.1.wf(),
            is_spanning_forest(self.adj(), r.1.adj()),
            edges_in_blocks(self.adj(), r.1.adj()),
            forall|u: int, j: int| 0 <= u < r.1.adj().len() && 0 <= j < r.1.adj()[u].len()
                ==> listed_before(r.0@, u as usize, #[trigger] r.1.adj()[u][j]),
    {
        let (order, parent) = self.forest(true);
        proof {
            self.lemma_wf();
        }
        let tree = tree_from_parents(&parent, Ghost(self.adj()), Ghost(order@));
        (order, tree)
    }
}

} // verus!
