//! Maximum bipartite matching by breadth-first layering and augmenting paths.
use rand::seq::SliceRandom;
use vstd::prelude::*;
use crate::flow::{cursor_room, lemma_cursor_room_nonneg, lemma_cursor_room_step};
use crate::reach::{
    closed, count_unmarked, lemma_closed_reach, lemma_count_mark, lemma_count_none_marked,
    lemma_lists_marked_push, lists_marked, reachable,
};

verus! {

/// Adjacency lists held in nested vectors.
pub open spec fn lists_view(adj: Seq<Vec<usize>>) -> Seq<Seq<usize>> {
    adj.map_values(|row: Vec<usize>| row@)
}

/// Left node `u` has edges to the right nodes `adj[u]`, each below `nr`.
pub open spec fn bi_ok(adj: Seq<Seq<usize>>, nr: nat) -> bool {
    forall|u: int, j: int| 0 <= u < adj.len() && 0 <= j < adj[u].len() ==> #[trigger] adj[u][j] < nr
}

/// `ml` and `mr` are a matching and its inverse: each matched pair is an edge, and the two
/// tables point at each other.
pub open spec fn valid_matching(adj: Seq<Seq<usize>>, nr: nat, ml: Seq<Option<usize>>, mr: Seq<Option<usize>>) -> bool {
    &&& ml.len() == adj.len()
    &&& mr.len() == nr
    &&& forall|u: int| 0 <= u < ml.len() && (#[trigger] ml[u]) is Some ==> ml[u]->0 < nr && mr[ml[u]->0 as int] == Some(u as usize)
        && adj[u].contains(ml[u]->0)
    &&& forall|v: int| 0 <= v < mr.len() && (#[trigger] mr[v]) is Some ==> mr[v]->0 < adj.len() && ml[mr[v]->0 as int] == Some(v as usize)
}

/// The alternating graph on left nodes: an edge to a matched right node leads on to its
/// partner; an edge to a free right node stands as a loop.
pub open spec fn alternating(adj: Seq<Seq<usize>>, mr: Seq<Option<usize>>) -> Seq<Seq<usize>> {
    Seq::new(adj.len(), |x: int| Seq::new(adj[x].len(), |j: int|
        if mr[adj[x][j] as int] is Some { mr[adj[x][j] as int]->0 } else { x as usize }))
}

/// Some alternating walk leads from a free left node to a left node with a free right
/// neighbour: an augmenting path.
pub open spec fn has_augmenting_path(adj: Seq<Seq<usize>>, ml: Seq<Option<usize>>, mr: Seq<Option<usize>>) -> bool {
    exists|u: usize, x: usize, j: int|
        u < adj.len() && ml[u as int] is None && #[trigger] reachable(alternating(adj, mr), u, x) && x < adj.len()
            && 0 <= j < adj[x as int].len() && #[trigger] mr[adj[x as int][j] as int] is None
}

/// Number of matched left nodes among `0..k`.
pub open spec fn matched_count(ml: Seq<Option<usize>>, k: int) -> nat
    decreases k,
{
    if k <= 0 {
        0
    } else {
        matched_count(ml, k - 1) + if ml[k - 1] is Some { 1nat } else { 0nat }
    }
}

proof fn lemma_matched_count_bound(ml: Seq<Option<usize>>, k: int)
    requires
        0 <= k,
    ensures
        matched_count(ml, k) <= k,
    decreases k,
{
    if k > 0 {
        lemma_matched_count_bound(ml, k - 1);
    }
}

proof fn lemma_matched_count_grow(a: Seq<Option<usize>>, b: Seq<Option<usize>>, k: int, u: int)
    requires
        0 <= u < k,
        k <= a.len(),
        a.len() == b.len(),
        a[u] is None,
        b[u] is Some,
        forall|x: int| 0 <= x < k && x != u ==> (#[trigger] a[x] is Some <==> b[x] is Some),
    ensures
        matched_count(b, k) == matched_count(a, k) + 1,
    decreases k,
{
    if u < k - 1 {
        lemma_matched_count_grow(a, b, k - 1, u);
    } else {
        lemma_matched_count_same(a, b, k - 1);
    }
}

proof fn lemma_matched_count_same(a: Seq<Option<usize>>, b: Seq<Option<usize>>, k: int)
    requires
        0 <= k <= a.len(),
        k <= b.len(),
        forall|x: int| 0 <= x < k ==> (#[trigger] a[x] is Some <==> b[x] is Some),
    ensures
        matched_count(b, k) == matched_count(a, k),
    decreases k,
{
    if k > 0 {
        lemma_matched_count_same(a, b, k - 1);
    }
}

/// Flipping an augmenting path: left nodes `us[i]` take the right nodes `vs[i]`. The path
/// starts at a free left node, `vs[i]` is matched to `us[i + 1]`, and the last right node is
/// free. The result is again a matching, with `us[0]` matched besides the old matched nodes.
proof fn lemma_flip(
    adj: Seq<Seq<usize>>,
    nr: nat,
    ml: Seq<Option<usize>>,
    mr: Seq<Option<usize>>,
    us: Seq<usize>,
    vs: Seq<usize>,
    ml2: Seq<Option<usize>>,
    mr2: Seq<Option<usize>>,
)
    requires
        valid_matching(adj, nr, ml, mr),
        adj.len() <= usize::MAX,
        nr <= usize::MAX,
        us.len() == vs.len(),
        us.len() >= 1,
        forall|i: int| 0 <= i < us.len() ==> #[trigger] us[i] < adj.len() && vs[i] < nr && adj[us[i] as int].contains(vs[i]),
        forall|i: int, k: int| 0 <= i < k < us.len() ==> #[trigger] us[i] != #[trigger] us[k],
        ml[us[0] as int] is None,
        forall|i: int| 0 <= i < us.len() - 1 ==> #[trigger] mr[vs[i] as int] == Some(us[i + 1]),
        mr[vs.last() as int] is None,
        ml2.len() == ml.len(),
        mr2.len() == mr.len(),
        forall|i: int| 0 <= i < us.len() ==> #[trigger] ml2[us[i] as int] == Some(vs[i]),
        forall|x: int| 0 <= x < ml.len() && !us.contains(x as usize) ==> #[trigger] ml2[x] == ml[x],
        forall|i: int| 0 <= i < vs.len() ==> #[trigger] mr2[vs[i] as int] == Some(us[i]),
        forall|y: int| 0 <= y < mr.len() && !vs.contains(y as usize) ==> #[trigger] mr2[y] == mr[y],
    ensures
        valid_matching(adj, nr, ml2, mr2),
        forall|x: int| 0 <= x < ml.len() && x != us[0] ==> (#[trigger] ml2[x] is Some <==> ml[x] is Some),
        ml2[us[0] as int] is Some,
{
    assert forall|i: int| 0 < i < us.len() implies #[trigger] ml[us[i] as int] == Some(vs[i - 1]) by {
        let k = i - 1;
        assert(us[k] < adj.len() && vs[k] < nr);
        assert(mr[vs[k] as int] == Some(us[k + 1]));
        let v = vs[k] as int;
        assert(mr[v] is Some);
        assert(ml[mr[v]->0 as int] == Some(v as usize));
    }
    assert forall|u: int| 0 <= u < ml2.len() && (#[trigger] ml2[u]) is Some implies ml2[u]->0 < nr
        && mr2[ml2[u]->0 as int] == Some(u as usize) && adj[u].contains(ml2[u]->0) by {
        if us.contains(u as usize) {
            let i = choose|i: int| 0 <= i < us.len() && us[i] == u as usize;
            assert(ml2[us[i] as int] == Some(vs[i]));
            assert(mr2[vs[i] as int] == Some(us[i]));
            assert(us[i] < adj.len() && vs[i] < nr && adj[us[i] as int].contains(vs[i]));
        } else {
            assert(ml2[u] == ml[u]);
            let w = ml[u]->0;
            assert(mr[w as int] == Some(u as usize));
            if vs.contains(w) {
                let i = choose|i: int| 0 <= i < vs.len() && vs[i] == w;
                if i < vs.len() - 1 {
                    assert(mr[vs[i] as int] == Some(us[i + 1]));
                    assert(us[i + 1] == u as usize);
                    assert(us.contains(u as usize));
                } else {
                    assert(mr[vs.last() as int] is None);
                }
            }
            assert(mr2[w as int] == mr[w as int]);
        }
    }
    assert forall|v: int| 0 <= v < mr2.len() && (#[trigger] mr2[v]) is Some implies mr2[v]->0 < adj.len()
        && ml2[mr2[v]->0 as int] == Some(v as usize) by {
        if vs.contains(v as usize) {
            let i = choose|i: int| 0 <= i < vs.len() && vs[i] == v as usize;
            assert(mr2[vs[i] as int] == Some(us[i]));
            assert(ml2[us[i] as int] == Some(vs[i]));
            let j = choose|j: int| 0 <= j < vs.len() && vs[j] == v as usize;
            assert(mr2[vs[j] as int] == Some(us[j]));
        } else {
            let x = mr[v]->0;
            assert(ml[x as int] == Some(v as usize));
            if us.contains(x) {
                let i = choose|i: int| 0 <= i < us.len() && us[i] == x;
                if i == 0 {
                    assert(ml[us[0] as int] is None);
                } else {
                    assert(ml[us[i] as int] == Some(vs[i - 1]));
                }
            }
        }
    }
    assert forall|x: int| 0 <= x < ml.len() && x != us[0] implies (#[trigger] ml2[x] is Some <==> ml[x] is Some) by {
        if us.contains(x as usize) {
            let i = choose|i: int| 0 <= i < us.len() && us[i] == x as usize;
            assert(i != 0);
            assert(ml[us[i] as int] == Some(vs[i - 1]));
            assert(ml2[us[i] as int] == Some(vs[i]));
        }
    }
    assert(ml2[us[0] as int] == Some(vs[0]));
}

/// A free left node at the end of an alternating walk: `ru[k]` takes `rv[k]`, `rv[k + 1]` is the
/// partner of `ru[k]`... listed from the left node next to a free right node back to a free left
/// node.
pub open spec fn back_augmenting(adj: Seq<Seq<usize>>, nr: nat, ml: Seq<Option<usize>>, mr: Seq<Option<usize>>,
    ru: Seq<usize>, rv: Seq<usize>) -> bool {
    &&& ru.len() == rv.len()
    &&& ru.len() >= 1
    &&& forall|k: int| 0 <= k < ru.len() ==> #[trigger] ru[k] < adj.len() && rv[k] < nr && adj[ru[k] as int].contains(rv[k])
    &&& forall|k1: int, k2: int| 0 <= k1 < k2 < ru.len() ==> #[trigger] ru[k1] != #[trigger] ru[k2]
    &&& ml[ru.last() as int] is None
    &&& forall|k: int| 0 <= k < ru.len() - 1 ==> #[trigger] mr[rv[k + 1] as int] == Some(ru[k])
    &&& mr[rv[0] as int] is None
}

/// Breadth-first layering of the alternating graph from every free left node. Returns an
/// augmenting path, from its last left node back to its free start, or `None` when there is
/// none.
#[verifier::spinoff_prover]
#[verifier::rlimit(50)]
fn layered_search(adj: &Vec<Vec<usize>>, nr: usize, ml: &Vec<Option<usize>>, mr: &Vec<Option<usize>>)
    -> (r: (Option<(Vec<usize>, Vec<usize>)>, Vec<usize>))
    requires
        bi_ok(lists_view(adj@), nr as nat),
        valid_matching(lists_view(adj@), nr as nat, ml@, mr@),
    ensures
        r.0 is None ==> !has_augmenting_path(lists_view(adj@), ml@, mr@),
        r.0 matches Some((ru, rv)) ==> back_augmenting(lists_view(adj@), nr as nat, ml@, mr@, ru@, rv@),
        layers_ok(r.1@, adj@.len()),
{
    let ghost g = lists_view(adj@);
    let nl = adj.len();
    let mut seen = vec![false; nl];
    let mut depth = vec![0usize; nl];
    let mut par_left = vec![0usize; nl];
    let mut par_right = vec![0usize; nl];
    let mut queue: Vec<usize> = Vec::new();
    proof {
        assert(seen@ =~= Seq::new(nl as nat, |x: int| false));
        lemma_count_none_marked(nl as nat);
    }
    let mut u: usize = 0;
    while u < nl
        invariant
            g == lists_view(adj@),
            nl == g.len(),
            ml@.len() == nl,
            u <= nl,
            seen@.len() == nl,
            depth@.len() == nl,
            forall|x: int| u <= x < nl ==> !#[trigger] seen@[x],
            lists_marked(queue@, seen@),
            queue@.len() + count_unmarked(seen@) == nl,
            forall|x: int| 0 <= x < nl && #[trigger] seen@[x] ==> ml@[x] is None && depth@[x] == 0,
            forall|x: int| 0 <= x < u && ml@[x] is None ==> #[trigger] seen@[x],
            forall|k: int| 0 <= k < queue@.len() ==> #[trigger] depth@[queue@[k] as int] <= k,
        decreases nl - u,
    {
        if ml[u].is_none() {
            let ghost q0 = queue@;
            proof {
                lemma_count_mark(seen@, u as int);
                lemma_lists_marked_push(queue@, seen@, u);
            }
            seen[u] = true;
            depth[u] = 0;
            queue.push(u);
            proof {
                assert forall|k: int| 0 <= k < queue@.len() implies #[trigger] depth@[queue@[k] as int] <= k by {
                    if k < q0.len() {
                        assert(queue@[k] == q0[k]);
                    }
                }
            }
        }
        u += 1;
    }
    let mut head: usize = 0;
    while head < queue.len()
        invariant
            g == lists_view(adj@),
            bi_ok(g, nr as nat),
            valid_matching(g, nr as nat, ml@, mr@),
            nl == g.len(),
            nl <= usize::MAX,
            seen@.len() == nl,
            depth@.len() == nl,
            par_left@.len() == nl,
            par_right@.len() == nl,
            head <= queue@.len(),
            lists_marked(queue@, seen@),
            queue@.len() + count_unmarked(seen@) == nl,
            forall|x: int| 0 <= x < nl && ml@[x] is None ==> #[trigger] seen@[x],
            forall|x: int| 0 <= x < nl && #[trigger] seen@[x] && ml@[x] is None ==> depth@[x] == 0,
            forall|x: int| 0 <= x < nl && #[trigger] seen@[x] && ml@[x] is Some ==> {
                let p = par_left@[x];
                let v = par_right@[x];
                &&& p < nl
                &&& seen@[p as int]
                &&& depth@[x] == depth@[p as int] + 1
                &&& v < nr
                &&& g[p as int].contains(v)
                &&& mr@[v as int] == Some(x as usize)
            },
            forall|k: int| 0 <= k < queue@.len() ==> #[trigger] depth@[queue@[k] as int] <= k,
            forall|k: int, j: int| 0 <= k < head && 0 <= j < g[queue@[k] as int].len() ==> {
                let v = #[trigger] g[queue@[k] as int][j];
                mr@[v as int] is Some && seen@[mr@[v as int]->0 as int]
            },
        decreases count_unmarked(seen@) + queue@.len() - head,
    {
        let y = queue[head];
        let deg = adj[y].len();
        let mut j: usize = 0;
        while j < deg
            invariant
                g == lists_view(adj@),
                bi_ok(g, nr as nat),
                valid_matching(g, nr as nat, ml@, mr@),
                nl == g.len(),
                nl <= usize::MAX,
                seen@.len() == nl,
                depth@.len() == nl,
                par_left@.len() == nl,
                par_right@.len() == nl,
                head < queue@.len(),
                y == queue@[head as int],
                y < nl,
                deg == g[y as int].len(),
                j <= deg,
                lists_marked(queue@, seen@),
                queue@.len() + count_unmarked(seen@) == nl,
                forall|x: int| 0 <= x < nl && ml@[x] is None ==> #[trigger] seen@[x],
                forall|x: int| 0 <= x < nl && #[trigger] seen@[x] && ml@[x] is None ==> depth@[x] == 0,
                forall|x: int| 0 <= x < nl && #[trigger] seen@[x] && ml@[x] is Some ==> {
                    let p = par_left@[x];
                    let v = par_right@[x];
                    &&& p < nl
                    &&& seen@[p as int]
                    &&& depth@[x] == depth@[p as int] + 1
                    &&& v < nr
                    &&& g[p as int].contains(v)
                    &&& mr@[v as int] == Some(x as usize)
                },
                forall|k: int| 0 <= k < queue@.len() ==> #[trigger] depth@[queue@[k] as int] <= k,
                forall|k: int, j2: int| 0 <= k < head && 0 <= j2 < g[queue@[k] as int].len() ==> {
                    let v = #[trigger] g[queue@[k] as int][j2];
                    mr@[v as int] is Some && seen@[mr@[v as int]->0 as int]
                },
                forall|j2: int| 0 <= j2 < j ==> {
                    let v = #[trigger] g[y as int][j2];
                    mr@[v as int] is Some && seen@[mr@[v as int]->0 as int]
                },
            decreases deg - j,
        {
            let v = adj[y][j];
            assert(g[y as int][j as int] == v);
            match mr[v] {
                None => {
                    proof {
                        assert(seen@[y as int]);
                        assert(g[y as int].contains(v));
                        lemma_seen_depth(seen@, depth@, queue@);
                    }
                    let layers = layer_table(&seen, &depth);
                    return (Some(back_path(adj, nr, ml, mr, &depth, &par_left, &par_right, &seen, y, v)), layers);
                },
                Some(x) => {
                    if !seen[x] {
                        let ghost q0 = queue@;
                        proof {
                            lemma_count_mark(seen@, x as int);
                            lemma_lists_marked_push(queue@, seen@, x);
                            assert(seen@[y as int]);
                            assert(depth@[queue@[head as int] as int] <= head);
                            assert(g[y as int].contains(v));
                            assert(ml@[x as int] == Some(v));
                        }
                        seen[x] = true;
                        depth[x] = depth[y] + 1;
                        par_left[x] = y;
                        par_right[x] = v;
                        queue.push(x);
                        proof {
                            assert forall|k: int| 0 <= k < queue@.len() implies #[trigger] depth@[queue@[k] as int] <= k by {
                                if k < q0.len() {
                                    assert(queue@[k] == q0[k]);
                                }
                            }
                            assert forall|k: int, j2: int| 0 <= k < head && 0 <= j2 < g[queue@[k] as int].len() implies {
                                let w = #[trigger] g[queue@[k] as int][j2];
                                mr@[w as int] is Some && seen@[mr@[w as int]->0 as int]
                            } by {
                                assert(queue@[k] == q0[k]);
                            }
                        }
                    }
                },
            }
            j += 1;
        }
        proof {
            assert forall|k: int, j2: int| 0 <= k < head + 1 && 0 <= j2 < g[queue@[k] as int].len() implies {
                let w = #[trigger] g[queue@[k] as int][j2];
                mr@[w as int] is Some && seen@[mr@[w as int]->0 as int]
            } by {
                if k == head {
                    assert(queue@[k] == y);
                }
            }
        }
        head += 1;
    }
    proof {
        let alt = alternating(g, mr@);
        assert forall|x: int, j: int| 0 <= x < nl && seen@[x] && 0 <= j < g[x].len()
            implies #[trigger] mr@[g[x][j] as int] is Some && seen@[mr@[g[x][j] as int]->0 as int] by {
            assert(queue@.contains(x as usize));
            let k = choose|k: int| 0 <= k < queue@.len() && queue@[k] == x as usize;
            assert(queue@[k] as int == x);
            assert(g[queue@[k] as int][j] == g[x][j]);
        }
        assert(closed(alt, seen@)) by {
            assert forall|x: int, j: int| 0 <= x < alt.len() && seen@[x] && 0 <= j < alt[x].len()
                implies #[trigger] seen@[alt[x][j] as int] by {
                assert(mr@[g[x][j] as int] is Some);
            }
        }
        if has_augmenting_path(g, ml@, mr@) {
            let (u0, x0, j0) = choose|u0: usize, x0: usize, j0: int|
                u0 < g.len() && ml@[u0 as int] is None && #[trigger] reachable(alternating(g, mr@), u0, x0) && x0 < g.len()
                    && 0 <= j0 < g[x0 as int].len() && #[trigger] mr@[g[x0 as int][j0] as int] is None;
            assert(seen@[u0 as int]);
            lemma_closed_reach(alt, seen@, u0, x0);
            assert(mr@[g[x0 as int][j0] as int] is Some);
        }
        lemma_seen_depth(seen@, depth@, queue@);
    }
    let layers = layer_table(&seen, &depth);
    (None, layers)
}

/// Marks a left node that the current phase no longer searches from.
pub const DEAD: usize = usize::MAX;

/// Layers are below the node count or `DEAD`.
pub open spec fn layers_ok(layers: Seq<usize>, nl: nat) -> bool {
    &&& layers.len() == nl
    &&& forall|x: int| 0 <= x < nl ==> #[trigger] layers[x] == DEAD || layers[x] < nl
}

proof fn lemma_seen_depth(seen: Seq<bool>, depth: Seq<usize>, queue: Seq<usize>)
    requires
        lists_marked(queue, seen),
        queue.len() + count_unmarked(seen) == seen.len(),
        depth.len() == seen.len(),
        forall|k: int| 0 <= k < queue.len() ==> #[trigger] depth[queue[k] as int] <= k,
    ensures
        forall|x: int| 0 <= x < seen.len() && #[trigger] seen[x] ==> depth[x] < seen.len(),
{
    assert forall|x: int| 0 <= x < seen.len() && #[trigger] seen[x] implies depth[x] < seen.len() by {
        assert(queue.contains(x as usize));
        let k = choose|k: int| 0 <= k < queue.len() && queue[k] == x as usize;
        assert(depth[queue[k] as int] <= k);
    }
}

/// The layer of each node: its search depth when it was reached, else `DEAD`.
fn layer_table(seen: &Vec<bool>, depth: &Vec<usize>) -> (r: Vec<usize>)
    requires
        seen@.len() == depth@.len(),
        forall|x: int| 0 <= x < seen@.len() && #[trigger] seen@[x] ==> depth@[x] < seen@.len(),
    ensures
        layers_ok(r@, seen@.len()),
{
    let mut r: Vec<usize> = Vec::new();
    let mut x: usize = 0;
    while x < seen.len()
        invariant
            seen@.len() == depth@.len(),
            x <= seen@.len(),
            r@.len() == x,
            forall|y: int| 0 <= y < seen@.len() && #[trigger] seen@[y] ==> depth@[y] < seen@.len(),
            forall|y: int| 0 <= y < x ==> #[trigger] r@[y] == DEAD || r@[y] < seen@.len(),
        decreases seen@.len() - x,
    {
        if seen[x] {
            r.push(depth[x]);
        } else {
            r.push(DEAD);
        }
        x += 1;
    }
    r
}

/// Walks the layering back from `y`, whose neighbour `v` is free, to a free left node.
fn back_path(
    adj: &Vec<Vec<usize>>,
    nr: usize,
    ml: &Vec<Option<usize>>,
    mr: &Vec<Option<usize>>,
    depth: &Vec<usize>,
    par_left: &Vec<usize>,
    par_right: &Vec<usize>,
    seen: &Vec<bool>,
    y: usize,
    v: usize,
) -> (r: (Vec<usize>, Vec<usize>))
    requires
        valid_matching(lists_view(adj@), nr as nat, ml@, mr@),
        adj@.len() <= usize::MAX,
        seen@.len() == adj@.len(),
        depth@.len() == adj@.len(),
        par_left@.len() == adj@.len(),
        par_right@.len() == adj@.len(),
        y < adj@.len(),
        seen@[y as int],
        v < nr,
        adj@[y as int]@.contains(v),
        mr@[v as int] is None,
        forall|x: int| 0 <= x < adj@.len() && #[trigger] seen@[x] && ml@[x] is None ==> depth@[x] == 0,
        forall|x: int| 0 <= x < adj@.len() && #[trigger] seen@[x] && ml@[x] is Some ==> {
            let p = par_left@[x];
            let w = par_right@[x];
            &&& p < adj@.len()
            &&& seen@[p as int]
            &&& depth@[x] == depth@[p as int] + 1
            &&& w < nr
            &&& adj@[p as int]@.contains(w)
            &&& mr@[w as int] == Some(x as usize)
        },
    ensures
        back_augmenting(lists_view(adj@), nr as nat, ml@, mr@, r.0@, r.1@),
{
    let ghost g = lists_view(adj@);
    let mut ru: Vec<usize> = Vec::new();
    let mut rv: Vec<usize> = Vec::new();
    ru.push(y);
    rv.push(v);
    let mut x = y;
    while ml[x].is_some()
        invariant
            g == lists_view(adj@),
            valid_matching(g, nr as nat, ml@, mr@),
            g.len() <= usize::MAX,
            seen@.len() == g.len(),
            depth@.len() == g.len(),
            par_left@.len() == g.len(),
            par_right@.len() == g.len(),
            forall|z: int| 0 <= z < g.len() && #[trigger] seen@[z] && ml@[z] is None ==> depth@[z] == 0,
            forall|z: int| 0 <= z < g.len() && #[trigger] seen@[z] && ml@[z] is Some ==> {
                let p = par_left@[z];
                let w = par_right@[z];
                &&& p < g.len()
                &&& seen@[p as int]
                &&& depth@[z] == depth@[p as int] + 1
                &&& w < nr
                &&& g[p as int].contains(w)
                &&& mr@[w as int] == Some(z as usize)
            },
            x < g.len(),
            seen@[x as int],
            ru@.len() == rv@.len(),
            ru@.len() >= 1,
            ru@.last() == x,
            forall|k: int| 0 <= k < ru@.len() ==> #[trigger] ru@[k] < g.len() && rv@[k] < nr && g[ru@[k] as int].contains(rv@[k]),
            forall|k: int| 0 <= k < ru@.len() ==> depth@[#[trigger] ru@[k] as int] + k == depth@[y as int],
            forall|k: int| 0 <= k < ru@.len() - 1 ==> #[trigger] mr@[rv@[k + 1] as int] == Some(ru@[k]),
            mr@[rv@[0] as int] is None,
        decreases depth@[x as int],
    {
        let p = par_left[x];
        let w = par_right[x];
        let ghost ru0 = ru@;
        let ghost rv0 = rv@;
        ru.push(p);
        rv.push(w);
        proof {
            assert forall|k: int| 0 <= k < ru@.len() implies #[trigger] ru@[k] < g.len() && rv@[k] < nr && g[ru@[k] as int].contains(rv@[k]) by {
                if k < ru0.len() {
                    assert(ru@[k] == ru0[k] && rv@[k] == rv0[k]);
                }
            }
            assert forall|k: int| 0 <= k < ru@.len() implies depth@[#[trigger] ru@[k] as int] + k == depth@[y as int] by {
                if k < ru0.len() {
                    assert(ru@[k] == ru0[k]);
                } else {
                    assert(ru0[ru0.len() - 1] == x);
                }
            }
            assert forall|k: int| 0 <= k < ru@.len() - 1 implies #[trigger] mr@[rv@[k + 1] as int] == Some(ru@[k]) by {
                if k < ru0.len() - 1 {
                    assert(rv@[k + 1] == rv0[k + 1] && ru@[k] == ru0[k]);
                } else {
                    assert(ru@[k] == x);
                }
            }
        }
        x = p;
    }
    proof {
        assert forall|k1: int, k2: int| 0 <= k1 < k2 < ru@.len() implies #[trigger] ru@[k1] != #[trigger] ru@[k2] by {
            assert(depth@[ru@[k1] as int] + k1 == depth@[y as int]);
            assert(depth@[ru@[k2] as int] + k2 == depth@[y as int]);
        }
        assert(g[y as int] == adj@[y as int]@);
    }
    (ru, rv)
}

/// The right nodes of an augmenting path are distinct.
proof fn lemma_back_rights_distinct(adj: Seq<Seq<usize>>, nr: nat, ml: Seq<Option<usize>>, mr: Seq<Option<usize>>,
    ru: Seq<usize>, rv: Seq<usize>)
    requires
        back_augmenting(adj, nr, ml, mr, ru, rv),
    ensures
        forall|k1: int, k2: int| 0 <= k1 < k2 < rv.len() ==> #[trigger] rv[k1] != #[trigger] rv[k2],
{
    assert forall|k1: int, k2: int| 0 <= k1 < k2 < rv.len() implies #[trigger] rv[k1] != #[trigger] rv[k2] by {
        let a = k2 - 1;
        assert(mr[rv[a + 1] as int] == Some(ru[a]));
        if k1 == 0 {
            assert(mr[rv[0] as int] is None);
        } else {
            let b = k1 - 1;
            assert(mr[rv[b + 1] as int] == Some(ru[b]));
        }
    }
}

/// Flips the augmenting path `ru`, `rv` into the matching, which grows by one pair.
fn apply_path(
    ml: &mut Vec<Option<usize>>,
    mr: &mut Vec<Option<usize>>,
    ru: &Vec<usize>,
    rv: &Vec<usize>,
    Ghost(g): Ghost<Seq<Seq<usize>>>,
    nr: usize,
)
    requires
        valid_matching(g, nr as nat, old(ml)@, old(mr)@),
        g.len() <= usize::MAX,
        back_augmenting(g, nr as nat, old(ml)@, old(mr)@, ru@, rv@),
    ensures
        valid_matching(g, nr as nat, final(ml)@, final(mr)@),
        matched_count(final(ml)@, g.len() as int) == matched_count(old(ml)@, g.len() as int) + 1,
        forall|k: int| 0 <= k < ru@.len() ==> final(ml)@[#[trigger] ru@[k] as int] == Some(rv@[k]),
        forall|k: int| 0 <= k < rv@.len() ==> final(mr)@[#[trigger] rv@[k] as int] == Some(ru@[k]),
        forall|x: int| 0 <= x < old(ml)@.len() && !ru@.contains(x as usize) ==> #[trigger] final(ml)@[x] == old(ml)@[x],
        forall|y: int| 0 <= y < old(mr)@.len() && !rv@.contains(y as usize) ==> #[trigger] final(mr)@[y] == old(mr)@[y],
        final(ml)@[ru@.last() as int] is Some,
{
    let nl = ml.len();
    let ghost ml0 = ml@;
    let ghost mr0 = mr@;
    proof {
        lemma_back_rights_distinct(g, nr as nat, ml@, mr@, ru@, rv@);
    }
    let len = ru.len();
    let mut k: usize = 0;
    while k < len
        invariant
            len == ru@.len(),
            ru@.len() == rv@.len(),
            k <= len,
            nl == g.len(),
            ml@.len() == nl,
            mr@.len() == nr,
            back_augmenting(g, nr as nat, ml0, mr0, ru@, rv@),
            forall|k1: int, k2: int| 0 <= k1 < k2 < rv@.len() ==> #[trigger] rv@[k1] != #[trigger] rv@[k2],
            forall|k2: int| 0 <= k2 < k ==> #[trigger] ml@[ru@[k2] as int] == Some(rv@[k2]),
            forall|k2: int| 0 <= k2 < k ==> #[trigger] mr@[rv@[k2] as int] == Some(ru@[k2]),
            forall|x: int| 0 <= x < nl && !ru@.subrange(0, k as int).contains(x as usize) ==> #[trigger] ml@[x] == ml0[x],
            forall|y: int| 0 <= y < nr && !rv@.subrange(0, k as int).contains(y as usize) ==> #[trigger] mr@[y] == mr0[y],
        decreases len - k,
    {
        let a = ru[k];
        let b = rv[k];
        proof {
            assert(ru@[k as int] < nl && rv@[k as int] < nr);
        }
        ml[a] = Some(b);
        mr[b] = Some(a);
        proof {
            assert forall|k2: int| 0 <= k2 < k + 1 implies #[trigger] ml@[ru@[k2] as int] == Some(rv@[k2]) by {
                if k2 < k {
                    assert(ru@[k2] != ru@[k as int]);
                }
            }
            assert forall|k2: int| 0 <= k2 < k + 1 implies #[trigger] mr@[rv@[k2] as int] == Some(ru@[k2]) by {
                if k2 < k {
                    assert(rv@[k2] != rv@[k as int]);
                }
            }
            assert forall|x: int| 0 <= x < nl && !ru@.subrange(0, k + 1).contains(x as usize) implies #[trigger] ml@[x] == ml0[x] by {
                assert(ru@.subrange(0, k + 1)[k as int] == a);
                if ru@.subrange(0, k as int).contains(x as usize) {
                    let q = choose|q: int| 0 <= q < k && ru@.subrange(0, k as int)[q] == x as usize;
                    assert(ru@.subrange(0, k + 1)[q] == x as usize);
                }
            }
            assert forall|y: int| 0 <= y < nr && !rv@.subrange(0, k + 1).contains(y as usize) implies #[trigger] mr@[y] == mr0[y] by {
                assert(rv@.subrange(0, k + 1)[k as int] == b);
                if rv@.subrange(0, k as int).contains(y as usize) {
                    let q = choose|q: int| 0 <= q < k && rv@.subrange(0, k as int)[q] == y as usize;
                    assert(rv@.subrange(0, k + 1)[q] == y as usize);
                }
            }
        }
        k += 1;
    }
    proof {
        let l = len as int;
        let us = Seq::new(len as nat, |i: int| ru@[l - 1 - i]);
        let vs = Seq::new(len as nat, |i: int| rv@[l - 1 - i]);
        assert(ru@.subrange(0, l) =~= ru@);
        assert(rv@.subrange(0, l) =~= rv@);
        assert forall|x: int| 0 <= x < ml0.len() && !us.contains(x as usize) implies #[trigger] ml@[x] == ml0[x] by {
            if ru@.contains(x as usize) {
                let q = choose|q: int| 0 <= q < l && ru@[q] == x as usize;
                assert(us[l - 1 - q] == x as usize);
            }
        }
        assert forall|y: int| 0 <= y < mr0.len() && !vs.contains(y as usize) implies #[trigger] mr@[y] == mr0[y] by {
            if rv@.contains(y as usize) {
                let q = choose|q: int| 0 <= q < l && rv@[q] == y as usize;
                assert(vs[l - 1 - q] == y as usize);
            }
        }
        assert forall|i: int| 0 <= i < us.len() implies #[trigger] us[i] < g.len() && vs[i] < nr && g[us[i] as int].contains(vs[i]) by {
            assert(ru@[l - 1 - i] < g.len());
        }
        assert forall|i: int, k2: int| 0 <= i < k2 < us.len() implies #[trigger] us[i] != #[trigger] us[k2] by {
            assert(ru@[l - 1 - k2] != ru@[l - 1 - i]);
        }
        assert forall|i: int| 0 <= i < us.len() - 1 implies #[trigger] mr0[vs[i] as int] == Some(us[i + 1]) by {
            let q = l - 2 - i;
            assert(mr0[rv@[q + 1] as int] == Some(ru@[q]));
        }
        assert forall|i: int| 0 <= i < us.len() implies #[trigger] ml@[us[i] as int] == Some(vs[i]) by {
            assert(ml@[ru@[l - 1 - i] as int] == Some(rv@[l - 1 - i]));
        }
        assert forall|i: int| 0 <= i < vs.len() implies #[trigger] mr@[vs[i] as int] == Some(us[i]) by {
            assert(mr@[rv@[l - 1 - i] as int] == Some(ru@[l - 1 - i]));
        }
        assert(us[0] == ru@.last());
        assert(vs.last() == rv@[0]);
        lemma_flip(g, nr as nat, ml0, mr0, us, vs, ml@, mr@);
        assert(ml@[ru@[l - 1] as int] == Some(rv@[l - 1]));
        lemma_matched_count_grow(ml0, ml@, nl as int, us[0] as int);
    }
}

/// The search stack of a layered search from `u`: left nodes `us` on strictly rising layers,
/// joined by right nodes `vs`, each matched to the next left node.
pub open spec fn stack_ok(g: Seq<Seq<usize>>, nr: nat, mr: Seq<Option<usize>>, layers: Seq<usize>,
    us: Seq<usize>, vs: Seq<usize>) -> bool {
    &&& us.len() >= 1
    &&& vs.len() + 1 == us.len()
    &&& forall|i: int| 0 <= i < us.len() ==> #[trigger] us[i] < g.len() && layers[us[i] as int] != DEAD
        && layers[us[i] as int] == layers[us[0] as int] + i
    &&& forall|i: int| 0 <= i < vs.len() ==> #[trigger] vs[i] < nr && g[us[i] as int].contains(vs[i])
        && mr[vs[i] as int] == Some(us[i + 1])
}

/// The augmenting path of a stack whose top node has the free neighbour `v`, from its last left
/// node back to its start.
fn reverse_path(us: &Vec<usize>, vs: &Vec<usize>, v: usize, Ghost(g): Ghost<Seq<Seq<usize>>>, nr: usize,
    ml: &Vec<Option<usize>>, mr: &Vec<Option<usize>>, Ghost(layers): Ghost<Seq<usize>>) -> (r: (Vec<usize>, Vec<usize>))
    requires
        stack_ok(g, nr as nat, mr@, layers, us@, vs@),
        ml@[us@[0] as int] is None,
        v < nr,
        g[us@.last() as int].contains(v),
        mr@[v as int] is None,
    ensures
        back_augmenting(g, nr as nat, ml@, mr@, r.0@, r.1@),
        r.0@.last() == us@[0],
{
    let len = us.len();
    let mut ru: Vec<usize> = Vec::new();
    let mut rv: Vec<usize> = Vec::new();
    ru.push(us[len - 1]);
    rv.push(v);
    let mut k: usize = 1;
    while k < len
        invariant
            len == us@.len(),
            vs@.len() + 1 == len,
            1 <= k <= len,
            ru@.len() == k,
            rv@.len() == k,
            ru@[0] == us@[len - 1],
            rv@[0] == v,
            forall|q: int| 0 <= q < k ==> #[trigger] ru@[q] == us@[len - 1 - q],
            forall|q: int| 1 <= q < k ==> #[trigger] rv@[q] == vs@[len - 1 - q],
        decreases len - k,
    {
        ru.push(us[len - 1 - k]);
        rv.push(vs[len - 1 - k]);
        k += 1;
    }
    proof {
        let l = len as int;
        assert forall|q: int| 0 <= q < ru@.len() implies #[trigger] ru@[q] < g.len() && rv@[q] < nr
            && g[ru@[q] as int].contains(rv@[q]) by {
            assert(us@[l - 1 - q] < g.len());
            if q > 0 {
                assert(vs@[l - 1 - q] < nr);
            }
        }
        assert forall|k1: int, k2: int| 0 <= k1 < k2 < ru@.len() implies #[trigger] ru@[k1] != #[trigger] ru@[k2] by {
            assert(us@[l - 1 - k1] < g.len() && us@[l - 1 - k2] < g.len());
        }
        assert forall|q: int| 0 <= q < ru@.len() - 1 implies #[trigger] mr@[rv@[q + 1] as int] == Some(ru@[q]) by {
            let i = l - 2 - q;
            assert(vs@[i] < nr);
            assert(rv@[q + 1] == vs@[i]);
            assert(ru@[q] == us@[i + 1]);
        }
        assert(ru@.last() == us@[0]);
    }
    (ru, rv)
}

/// Edge `j` of left node `x` cannot carry a rising alternating path on: its right node is
/// matched, and the partner is dead now or not one layer above `x` in the layering `layers0`.
pub open spec fn blocked(g: Seq<Seq<usize>>, mr: Seq<Option<usize>>, layers0: Seq<usize>, layers: Seq<usize>, x: int, j: int) -> bool {
    let v = g[x][j];
    &&& mr[v as int] is Some
    &&& (layers[mr[v as int]->0 as int] == DEAD || layers0[mr[v as int]->0 as int] != layers0[x] + 1)
}

/// The search gave `x` up: it had a layer and is now dead.
pub open spec fn killed(layers0: Seq<usize>, layers: Seq<usize>, x: int) -> bool {
    layers0[x] != DEAD && layers[x] == DEAD
}

/// Left nodes `xs` with edge indices `js` (each at or after its node's cursor) form an
/// alternating path along rising layers that ends at a free right node.
pub open spec fn rising_path(g: Seq<Seq<usize>>, mr: Seq<Option<usize>>, layers0: Seq<usize>, cursor0: Seq<usize>,
    xs: Seq<usize>, js: Seq<int>) -> bool {
    &&& xs.len() == js.len()
    &&& xs.len() >= 1
    &&& forall|i: int| 0 <= i < xs.len() ==> #[trigger] xs[i] < g.len() && cursor0[xs[i] as int] <= js[i] < g[xs[i] as int].len()
        && layers0[xs[i] as int] != DEAD
    &&& forall|i: int| 0 <= i < xs.len() - 1 ==> mr[g[xs[i] as int][js[i]] as int] == Some(#[trigger] xs[i + 1])
        && layers0[xs[i + 1] as int] == layers0[xs[i] as int] + 1
    &&& mr[g[xs.last() as int][js.last()] as int] is None
}

proof fn lemma_blocked_grow(g: Seq<Seq<usize>>, mr: Seq<Option<usize>>, layers0: Seq<usize>, l1: Seq<usize>, l2: Seq<usize>)
    requires
        l1.len() == l2.len(),
        forall|z: int| 0 <= z < l1.len() ==> #[trigger] l2[z] == l1[z] || l2[z] == DEAD,
        forall|x: int, j: int| 0 <= x < g.len() && 0 <= j < g[x].len() ==> #[trigger] g[x][j] < mr.len(),
        forall|v: int| 0 <= v < mr.len() && (#[trigger] mr[v]) is Some ==> mr[v]->0 < l1.len(),
    ensures
        forall|x: int, j: int| 0 <= x < g.len() && 0 <= j < g[x].len() && #[trigger] blocked(g, mr, layers0, l1, x, j)
            ==> blocked(g, mr, layers0, l2, x, j),
{
    assert forall|x: int, j: int| 0 <= x < g.len() && 0 <= j < g[x].len() && #[trigger] blocked(g, mr, layers0, l1, x, j)
        implies blocked(g, mr, layers0, l2, x, j) by {
        let y = mr[g[x][j] as int]->0 as int;
        assert(l2[y] == l1[y] || l2[y] == DEAD);
    }
}

/// No rising path leaves a node that the search gave up, once every edge it tried is blocked.
pub proof fn lemma_no_rising_path(g: Seq<Seq<usize>>, mr: Seq<Option<usize>>, layers0: Seq<usize>, layers: Seq<usize>,
    cursor0: Seq<usize>, xs: Seq<usize>, js: Seq<int>, i: int)
    requires
        0 <= i < xs.len(),
        xs[i] < g.len(),
        killed(layers0, layers, xs[i] as int),
        forall|z: int| 0 <= z < layers0.len() && #[trigger] layers0[z] != DEAD ==> layers0[z] < layers0.len(),
        layers0.len() == g.len(),
        forall|z: int, j: int| 0 <= z < g.len() && killed(layers0, layers, z) && cursor0[z] <= j < g[z].len()
            ==> #[trigger] blocked(g, mr, layers0, layers, z, j),
    ensures
        !rising_path(g, mr, layers0, cursor0, xs, js),
    decreases xs.len() - i,
{
    if rising_path(g, mr, layers0, cursor0, xs, js) {
        assert(blocked(g, mr, layers0, layers, xs[i] as int, js[i]));
        if i < xs.len() - 1 {
            assert(mr[g[xs[i] as int][js[i]] as int] == Some(xs[i + 1]));
            assert(layers0[xs[i] as int] < layers0.len());
            assert(xs[i + 1] < g.len());
            assert(killed(layers0, layers, xs[i + 1] as int));
            lemma_no_rising_path(g, mr, layers0, layers, cursor0, xs, js, i + 1);
        }
    }
}

/// A depth-first search from the free left node `u` along rising layers, each left node's edges
/// tried once per phase through its cursor; a node whose edges are spent is marked `DEAD`.
/// Returns an augmenting path, from its last left node back to `u`, or `None`.
#[verifier::spinoff_prover]
#[verifier::rlimit(50)]
fn layered_dfs(adj: &Vec<Vec<usize>>, nr: usize, ml: &Vec<Option<usize>>, mr: &Vec<Option<usize>>,
    layers: &mut Vec<usize>, cursor: &mut Vec<usize>, u: usize) -> (r: Option<(Vec<usize>, Vec<usize>)>)
    requires
        bi_ok(lists_view(adj@), nr as nat),
        valid_matching(lists_view(adj@), nr as nat, ml@, mr@),
        u < adj@.len(),
        ml@[u as int] is None,
        layers_ok(old(layers)@, adj@.len()),
        old(layers)@[u as int] != DEAD,
        old(cursor)@.len() == adj@.len(),
        forall|x: int| 0 <= x < adj@.len() ==> #[trigger] old(cursor)@[x] <= adj@[x]@.len(),
    ensures
        layers_ok(final(layers)@, adj@.len()),
        final(cursor)@.len() == adj@.len(),
        forall|x: int| 0 <= x < adj@.len() ==> #[trigger] final(cursor)@[x] <= adj@[x]@.len(),
        r matches Some((ru, rv)) ==> back_augmenting(lists_view(adj@), nr as nat, ml@, mr@, ru@, rv@)
            && ru@.last() == u,
        forall|x: int| 0 <= x < adj@.len() ==> #[trigger] final(layers)@[x] == old(layers)@[x] || final(layers)@[x] == DEAD,
        forall|x: int| 0 <= x < adj@.len() ==> #[trigger] final(cursor)@[x] >= old(cursor)@[x],
        r is None ==> final(layers)@[u as int] == DEAD && forall|xs: Seq<usize>, js: Seq<int>|
            #[trigger] rising_path(lists_view(adj@), mr@, old(layers)@, old(cursor)@, xs, js) ==> xs[0] != u,
{
    let ghost g = lists_view(adj@);
    let ghost lay0 = layers@;
    let ghost oc = cursor@;
    let nl = adj.len();
    let mut us: Vec<usize> = Vec::new();
    let mut vs: Vec<usize> = Vec::new();
    us.push(u);
    loop
        invariant
            g == lists_view(adj@),
            nl == g.len(),
            nl <= usize::MAX,
            bi_ok(g, nr as nat),
            valid_matching(g, nr as nat, ml@, mr@),
            layers_ok(layers@, nl as nat),
            cursor@.len() == nl,
            forall|x: int| 0 <= x < nl ==> #[trigger] cursor@[x] <= g[x].len(),
            stack_ok(g, nr as nat, mr@, layers@, us@, vs@),
            us@[0] == u,
            ml@[u as int] is None,
            lay0 == old(layers)@,
            oc == old(cursor)@,
            oc.len() == nl,
            layers_ok(lay0, nl as nat),
            forall|z: int| 0 <= z < nl ==> #[trigger] layers@[z] == lay0[z] || layers@[z] == DEAD,
            forall|z: int| 0 <= z < nl ==> #[trigger] cursor@[z] >= oc[z],
            forall|z: int, j: int| 0 <= z < nl && killed(lay0, layers@, z) && oc[z] <= j < g[z].len()
                ==> #[trigger] blocked(g, mr@, lay0, layers@, z, j),
            forall|i: int| 0 <= i < us@.len() - 1 ==> cursor@[#[trigger] us@[i] as int] >= oc[us@[i] as int] + 1
                && g[us@[i] as int][cursor@[us@[i] as int] - 1] == vs@[i],
            forall|i: int, j: int| 0 <= i < us@.len() - 1 && oc[us@[i] as int] <= j < cursor@[us@[i] as int] - 1
                ==> #[trigger] blocked(g, mr@, lay0, layers@, us@[i] as int, j),
            forall|j: int| oc[us@.last() as int] <= j < cursor@[us@.last() as int]
                ==> #[trigger] blocked(g, mr@, lay0, layers@, us@.last() as int, j),
            forall|z: int| 0 <= z < nl && #[trigger] cursor@[z] != oc[z] ==> killed(lay0, layers@, z) || us@.contains(z as usize),
        decreases cursor_room(g, cursor@, nl as int), us@.len(),
    {
        proof {
            lemma_cursor_room_nonneg(g, cursor@, nl as int);
        }
        let top = us.len() - 1;
        let x = us[top];
        proof {
            assert(us@[top as int] < nl);
            assert(g[x as int] == adj@[x as int]@);
        }
        if cursor[x] < adj[x].len() {
            let v = adj[x][cursor[x]];
            let ghost c0 = cursor@;
            proof {
                assert(g[x as int][cursor@[x as int] as int] == v);
                assert(g[x as int].contains(v));
                lemma_cursor_room_step(g, cursor@, nl as int, x as int);
            }
            let c = cursor[x];
            cursor[x] = c + 1;
            assert(cursor@ == c0.update(x as int, (c0[x as int] + 1) as usize));
            proof {
                assert forall|z: int| 0 <= z < nl implies #[trigger] cursor@[z] <= g[z].len() by {}
                lemma_cursor_room_nonneg(g, cursor@, nl as int);
            }
            match mr[v] {
                None => {
                    proof {
                        assert(us@.last() == x);
                    }
                    return Some(reverse_path(&us, &vs, v, Ghost(g), nr, ml, mr, Ghost(layers@)));
                },
                Some(y) => {
                    proof {
                        assert(ml@[y as int] == Some(v));
                    }
                    if layers[y] != DEAD && layers[x] + 1 == layers[y] {
                        let ghost us0 = us@;
                        let ghost vs0 = vs@;
                        us.push(y);
                        vs.push(v);
                        proof {
                            assert forall|i: int| 0 <= i < us@.len() implies #[trigger] us@[i] < g.len() && layers@[us@[i] as int] != DEAD
                                && layers@[us@[i] as int] == layers@[us@[0] as int] + i by {
                                if i < us0.len() {
                                    assert(us@[i] == us0[i]);
                                }
                            }
                            assert forall|i: int| 0 <= i < vs@.len() implies #[trigger] vs@[i] < nr && g[us@[i] as int].contains(vs@[i])
                                && mr@[vs@[i] as int] == Some(us@[i + 1]) by {
                                if i < vs0.len() {
                                    assert(vs@[i] == vs0[i] && us@[i] == us0[i] && us@[i + 1] == us0[i + 1]);
                                }
                            }
                            let t0 = top as int;
                            assert(us0[t0] == x);
                            assert(layers@[us0[t0] as int] == layers@[us0[0] as int] + t0);
                            assert(!us0.contains(y)) by {
                                if us0.contains(y) {
                                    let i = choose|i: int| 0 <= i < us0.len() && us0[i] == y;
                                    assert(layers@[us0[i] as int] == layers@[us0[0] as int] + i);
                                }
                            }
                            assert(cursor@[y as int] == oc[y as int]) by {
                                assert(y != x);
                                if c0[y as int] != oc[y as int] {
                                    assert(killed(lay0, layers@, y as int) || us0.contains(y));
                                }
                            }
                            assert forall|i: int| 0 <= i < us@.len() - 1 implies cursor@[#[trigger] us@[i] as int] >= oc[us@[i] as int] + 1
                                && g[us@[i] as int][cursor@[us@[i] as int] - 1] == vs@[i] by {
                                assert(us@[i] == us0[i]);
                                if i < t0 {
                                    assert(layers@[us0[i] as int] == layers@[us0[0] as int] + i);
                                    assert(us0[i] != x);
                                    assert(vs@[i] == vs0[i]);
                                } else {
                                    assert(vs@[i] == v);
                                }
                            }
                            assert forall|i: int, j: int| 0 <= i < us@.len() - 1 && oc[us@[i] as int] <= j < cursor@[us@[i] as int] - 1
                                implies #[trigger] blocked(g, mr@, lay0, layers@, us@[i] as int, j) by {
                                assert(us@[i] == us0[i]);
                                if i < t0 {
                                    assert(layers@[us0[i] as int] == layers@[us0[0] as int] + i);
                                    assert(us0[i] != x);
                                } else {
                                    assert(us0.last() == x);
                                }
                            }
                            assert forall|j: int| oc[us@.last() as int] <= j < cursor@[us@.last() as int]
                                implies #[trigger] blocked(g, mr@, lay0, layers@, us@.last() as int, j) by {
                                assert(us@.last() == y);
                            }
                            assert forall|z: int| 0 <= z < nl && #[trigger] cursor@[z] != oc[z]
                                implies killed(lay0, layers@, z) || us@.contains(z as usize) by {
                                if z == x as int {
                                    assert(us@[t0] == x);
                                } else if us0.contains(z as usize) {
                                    let i = choose|i: int| 0 <= i < us0.len() && us0[i] == z as usize;
                                    assert(us@[i] == z as usize);
                                }
                            }
                        }
                    } else {
                        proof {
                            assert(layers@[x as int] == lay0[x as int]);
                            assert(blocked(g, mr@, lay0, layers@, x as int, c as int));
                            assert forall|j: int| oc[us@.last() as int] <= j < cursor@[us@.last() as int]
                                implies #[trigger] blocked(g, mr@, lay0, layers@, us@.last() as int, j) by {
                                if j < c {
                                    assert(blocked(g, mr@, lay0, layers@, x as int, j));
                                }
                            }
                            assert forall|i: int| 0 <= i < us@.len() - 1 implies cursor@[#[trigger] us@[i] as int] >= oc[us@[i] as int] + 1
                                && g[us@[i] as int][cursor@[us@[i] as int] - 1] == vs@[i] by {
                                assert(layers@[us@[i] as int] == layers@[us@[0] as int] + i);
                                assert(layers@[us@[top as int] as int] == layers@[us@[0] as int] + top);
                                assert(us@[i] != x);
                            }
                            assert forall|i: int, j: int| 0 <= i < us@.len() - 1 && oc[us@[i] as int] <= j < cursor@[us@[i] as int] - 1
                                implies #[trigger] blocked(g, mr@, lay0, layers@, us@[i] as int, j) by {
                                assert(layers@[us@[i] as int] == layers@[us@[0] as int] + i);
                                assert(layers@[us@[top as int] as int] == layers@[us@[0] as int] + top);
                                assert(us@[i] != x);
                            }
                            assert forall|z: int| 0 <= z < nl && #[trigger] cursor@[z] != oc[z]
                                implies killed(lay0, layers@, z) || us@.contains(z as usize) by {
                                if z == x as int {
                                    assert(us@[top as int] == x);
                                }
                            }
                        }
                    }
                },
            }
        } else {
            let ghost us0 = us@;
            let ghost vs0 = vs@;
            let ghost ly0 = layers@;
            proof {
                assert(us0.last() == x);
                assert(layers@[x as int] == lay0[x as int]);
            }
            layers[x] = DEAD;
            proof {
                lemma_blocked_grow(g, mr@, lay0, ly0, layers@);
                assert(killed(lay0, layers@, x as int));
                assert forall|z: int, j: int| 0 <= z < nl && killed(lay0, layers@, z) && oc[z] <= j < g[z].len()
                    implies #[trigger] blocked(g, mr@, lay0, layers@, z, j) by {
                    if z == x as int {
                        assert(cursor@[x as int] == g[x as int].len());
                        assert(blocked(g, mr@, lay0, ly0, us0.last() as int, j));
                        assert(blocked(g, mr@, lay0, ly0, z, j));
                    } else {
                        assert(killed(lay0, ly0, z));
                        assert(blocked(g, mr@, lay0, ly0, z, j));
                    }
                    let w = g[z][j];
                    assert(w < nr);
                    let y = mr@[w as int]->0 as int;
                    assert(y < nl);
                    assert(layers@[y] == ly0[y] || layers@[y] == DEAD);
                }
            }
            if top == 0 {
                proof {
                    assert forall|xs: Seq<usize>, js: Seq<int>|
                        #[trigger] rising_path(g, mr@, lay0, oc, xs, js) implies xs[0] != u by {
                        if xs[0] == u {
                            lemma_no_rising_path(g, mr@, lay0, layers@, oc, xs, js, 0);
                        }
                    }
                }
                return None;
            }
            us.pop();
            vs.pop();
            proof {
                let nt = (top - 1) as int;
                assert(us@[nt] == us0[nt]);
                assert(vs0[nt] == g[us0[nt] as int][cursor@[us0[nt] as int] - 1]);
                assert(mr@[vs0[nt] as int] == Some(us0[nt + 1]));
                assert(us0[nt + 1] == x);
                assert forall|j: int| oc[us@.last() as int] <= j < cursor@[us@.last() as int]
                    implies #[trigger] blocked(g, mr@, lay0, layers@, us@.last() as int, j) by {
                    assert(us@.last() == us0[nt]);
                    if j < cursor@[us0[nt] as int] - 1 {
                        assert(blocked(g, mr@, lay0, ly0, us0[nt] as int, j));
                    }
                }
                assert forall|i: int| 0 <= i < us@.len() - 1 implies cursor@[#[trigger] us@[i] as int] >= oc[us@[i] as int] + 1
                    && g[us@[i] as int][cursor@[us@[i] as int] - 1] == vs@[i] by {
                    assert(us@[i] == us0[i] && vs@[i] == vs0[i]);
                }
                assert forall|i: int, j: int| 0 <= i < us@.len() - 1 && oc[us@[i] as int] <= j < cursor@[us@[i] as int] - 1
                    implies #[trigger] blocked(g, mr@, lay0, layers@, us@[i] as int, j) by {
                    assert(us@[i] == us0[i]);
                    assert(blocked(g, mr@, lay0, ly0, us0[i] as int, j));
                }
                assert forall|z: int| 0 <= z < nl && #[trigger] cursor@[z] != oc[z]
                    implies killed(lay0, layers@, z) || us@.contains(z as usize) by {
                    if us0.contains(z as usize) && z != x as int {
                        let i = choose|i: int| 0 <= i < us0.len() && us0[i] == z as usize;
                        assert(i != top as int);
                        assert(us@[i] == z as usize);
                    } else if !us0.contains(z as usize) {
                        assert(killed(lay0, ly0, z));
                    }
                }
                assert forall|i: int| 0 <= i < us@.len() implies #[trigger] us@[i] < g.len() && layers@[us@[i] as int] != DEAD
                    && layers@[us@[i] as int] == layers@[us@[0] as int] + i by {
                    assert(us@[i] == us0[i]);
                    assert(us0[i] != x) by {
                        assert(ly0[us0[i] as int] == ly0[us0[0] as int] + i);
                        assert(ly0[us0[top as int] as int] == ly0[us0[0] as int] + top);
                    }
                    assert(us0[0] != x) by {
                        assert(ly0[us0[top as int] as int] == ly0[us0[0] as int] + top);
                    }
                }
                assert(us@[0] == us0[0]);
            }
        }
    }
}

/// A maximum matching: its size and its pairs `(left, right)` in increasing left order.
pub struct Matching {
    pub count: usize,
    pub pairs: Vec<(usize, usize)>,
}

/// The pairs list exactly the matched left nodes of `ml`, in increasing order.
pub open spec fn lists_pairs(ml: Seq<Option<usize>>, pairs: Seq<(usize, usize)>) -> bool {
    &&& forall|k: int| 0 <= k < pairs.len() ==> (#[trigger] pairs[k]).0 < ml.len() && ml[pairs[k].0 as int] == Some(pairs[k].1)
    &&& forall|k1: int, k2: int| 0 <= k1 < k2 < pairs.len() ==> (#[trigger] pairs[k1]).0 < (#[trigger] pairs[k2]).0
    &&& forall|u: int| 0 <= u < ml.len() && (#[trigger] ml[u]) is Some ==> exists|k: int| 0 <= k < pairs.len() && (#[trigger] pairs[k]).0 == u
}

/// Maximum bipartite matching by Hopcroft-Karp phases on the bipartite graph whose left node `u`
/// has edges to the right nodes `left_adj[u]` among `0..n_right`. Each phase lays out the
/// alternating graph breadth-first from all free left nodes and flips the shortest augmenting
/// path found there; then, from each left node still free, a depth-first search along rising
/// layers, trying each node's edges once per phase, flips further augmenting paths. Phases stop
/// when no augmenting path is left, so the matching is maximum. Returns `None` when an edge names
/// a right node out of range.
pub fn max_bipartite_matching(left_adj: &Vec<Vec<usize>>, n_right: usize) -> (r: Option<Matching>)
    ensures
        r is None <==> !bi_ok(lists_view(left_adj@), n_right as nat),
        r matches Some(m) ==> m.count == m.pairs@.len() && exists|ml: Seq<Option<usize>>, mr: Seq<Option<usize>>|
            #[trigger] valid_matching(lists_view(left_adj@), n_right as nat, ml, mr)
            && !has_augmenting_path(lists_view(left_adj@), ml, mr)
            && lists_pairs(ml, m.pairs@),
{
    let ghost g = lists_view(left_adj@);
    let nl = left_adj.len();
    let nr = n_right;
    let mut u: usize = 0;
    while u < nl
        invariant
            g == lists_view(left_adj@),
            nl == g.len(),
            nr == n_right,
            u <= nl,
            forall|x: int, j: int| 0 <= x < u && 0 <= j < g[x].len() ==> #[trigger] g[x][j] < nr,
        decreases nl - u,
    {
        let mut j: usize = 0;
        while j < left_adj[u].len()
            invariant
                g == lists_view(left_adj@),
                nl == g.len(),
                nr == n_right,
                u < nl,
                j <= g[u as int].len(),
                forall|x: int, j2: int| 0 <= x < u && 0 <= j2 < g[x].len() ==> #[trigger] g[x][j2] < nr,
                forall|j2: int| 0 <= j2 < j ==> #[trigger] g[u as int][j2] < nr,
            decreases g[u as int].len() - j,
        {
            assert(g[u as int][j as int] == left_adj@[u as int]@[j as int]);
            if left_adj[u][j] >= nr {
                proof {
                    assert(0 <= u < g.len() && 0 <= j < g[u as int].len() && !(g[u as int][j as int] < nr));
                    assert(!bi_ok(g, nr as nat));
                }
                return None;
            }
            j += 1;
        }
        u += 1;
    }
    let mut ml: Vec<Option<usize>> = vec![None; nl];
    let mut mr: Vec<Option<usize>> = vec![None; nr];
    loop
        invariant
            g == lists_view(left_adj@),
            nl == g.len(),
            nr == n_right,
            nl <= usize::MAX,
            bi_ok(g, nr as nat),
            valid_matching(g, nr as nat, ml@, mr@),
        ensures
            valid_matching(g, nr as nat, ml@, mr@),
            !has_augmenting_path(g, ml@, mr@),
        decreases nl - matched_count(ml@, nl as int),
    {
        let ghost old_count = matched_count(ml@, nl as int);
        proof {
            lemma_matched_count_bound(ml@, nl as int);
        }
        let (found, mut layers) = layered_search(left_adj, nr, &ml, &mr);
        match found {
            None => {
                break;
            },
            Some((ru, rv)) => {
                apply_path(&mut ml, &mut mr, &ru, &rv, Ghost(g), nr);
                proof {
                    lemma_matched_count_bound(ml@, nl as int);
                }
                let mut cursor: Vec<usize> = vec![0usize; nl];
                let mut u: usize = 0;
                assert forall|x: int| 0 <= x < nl implies #[trigger] cursor@[x] <= left_adj@[x]@.len() by {}
                while u < nl
                    invariant
                        g == lists_view(left_adj@),
                        nl == g.len(),
                        nr == n_right,
                        nl <= usize::MAX,
                        bi_ok(g, nr as nat),
                        valid_matching(g, nr as nat, ml@, mr@),
                        layers_ok(layers@, nl as nat),
                        cursor@.len() == nl,
                        forall|x: int| 0 <= x < nl ==> #[trigger] cursor@[x] <= left_adj@[x]@.len(),
                        u <= nl,
                        matched_count(ml@, nl as int) <= nl,
                        matched_count(ml@, nl as int) > old_count,
                    decreases nl - u,
                {
                    if ml[u].is_none() && layers[u] != DEAD {
                        match layered_dfs(left_adj, nr, &ml, &mr, &mut layers, &mut cursor, u) {
                            Some((ru2, rv2)) => {
                                apply_path(&mut ml, &mut mr, &ru2, &rv2, Ghost(g), nr);
                                proof {
                                    lemma_matched_count_bound(ml@, nl as int);
                                }
                            },
                            None => {},
                        }
                    }
                    u += 1;
                }
                assert(matched_count(ml@, nl as int) > old_count);
                assert(matched_count(ml@, nl as int) <= nl);
            },
        }
    }
    let mut pairs: Vec<(usize, usize)> = Vec::new();
    let mut x: usize = 0;
    while x < nl
        invariant
            nl == ml@.len(),
            x <= nl,
            forall|k: int| 0 <= k < pairs@.len() ==> (#[trigger] pairs@[k]).0 < x && ml@[pairs@[k].0 as int] == Some(pairs@[k].1),
            forall|k1: int, k2: int| 0 <= k1 < k2 < pairs@.len() ==> (#[trigger] pairs@[k1]).0 < (#[trigger] pairs@[k2]).0,
            forall|u2: int| 0 <= u2 < x && (#[trigger] ml@[u2]) is Some ==> exists|k: int| 0 <= k < pairs@.len() && (#[trigger] pairs@[k]).0 == u2,
        decreases nl - x,
    {
        if let Some(v) = ml[x] {
            let ghost p0 = pairs@;
            pairs.push((x, v));
            proof {
                assert forall|u2: int| 0 <= u2 < x + 1 && (#[trigger] ml@[u2]) is Some implies exists|k: int| 0 <= k < pairs@.len() && (#[trigger] pairs@[k]).0 == u2 by {
                    if u2 < x {
                        let k = choose|k: int| 0 <= k < p0.len() && (#[trigger] p0[k]).0 == u2;
                        assert(pairs@[k] == p0[k]);
                    } else {
                        assert(pairs@[p0.len() as int].0 == x);
                    }
                }
                assert forall|k: int| 0 <= k < pairs@.len() implies (#[trigger] pairs@[k]).0 < x + 1 && ml@[pairs@[k].0 as int] == Some(pairs@[k].1) by {
                    if k < p0.len() {
                        assert(pairs@[k] == p0[k]);
                    }
                }
                assert forall|k1: int, k2: int| 0 <= k1 < k2 < pairs@.len() implies (#[trigger] pairs@[k1]).0 < (#[trigger] pairs@[k2]).0 by {
                    assert(pairs@[k1] == p0[k1]);
                    if k2 < p0.len() {
                        assert(pairs@[k2] == p0[k2]);
                    }
                }
            }
        }
        x += 1;
    }
    let count = pairs.len();
    proof {
        assert(valid_matching(g, nr as nat, ml@, mr@));
        assert(lists_pairs(ml@, pairs@));
    }
    Some(Matching { count, pairs })
}

/// Relies on rand's `SliceRandom::choose_multiple` over the slice `0..n` with the thread-local
/// generator: it yields `min(amount, n)` entries of the slice without repetition.
#[verifier::external_body]
fn random_subset(n: usize, amount: usize) -> (r: Vec<usize>)
    ensures
        r@.len() == if amount < n { amount } else { n },
        forall|k: int| 0 <= k < r@.len() ==> #[trigger] r@[k] < n,
        forall|k1: int, k2: int| 0 <= k1 < k2 < r@.len() ==> #[trigger] r@[k1] != #[trigger] r@[k2],
{
    let all: Vec<usize> = (0..n).collect();
    all.choose_multiple(&mut rand::thread_rng(), amount).cloned().collect()
}

/// A random bipartite graph with `2^k` nodes on each side: every left node gets edges to
/// `min(i, 2^k)` distinct right nodes chosen at random.
pub fn generate_bipartite_graph(k: u32, i: usize) -> (r: Vec<Vec<usize>>)
    requires
        k < 32,
    ensures
        r@.len() == vstd::arithmetic::power2::pow2(k as nat),
        bi_ok(lists_view(r@), vstd::arithmetic::power2::pow2(k as nat)),
        forall|u: int| 0 <= u < r@.len() ==> (#[trigger] r@[u])@.len() == if i < r@.len() { i as int } else { r@.len() as int },
        forall|u: int, j1: int, j2: int| 0 <= u < r@.len() && 0 <= j1 < j2 < r@[u]@.len()
            ==> #[trigger] r@[u]@[j1] != #[trigger] r@[u]@[j2],
{
    let size: usize = 1usize << k;
    proof {
        vstd::arithmetic::power2::lemma2_to64();
        if k < 31 {
            vstd::arithmetic::power2::lemma_pow2_strictly_increases(k as nat, 31);
        }
        vstd::bits::lemma_usize_shl_is_mul(1, k as usize);
    }
    let mut rows: Vec<Vec<usize>> = Vec::new();
    let mut u: usize = 0;
    while u < size
        invariant
            u <= size,
            size == vstd::arithmetic::power2::pow2(k as nat),
            rows@.len() == u,
            forall|x: int, j: int| 0 <= x < u && 0 <= j < rows@[x]@.len() ==> #[trigger] rows@[x]@[j] < size,
            forall|x: int| 0 <= x < u ==> (#[trigger] rows@[x])@.len() == if i < size { i as int } else { size as int },
            forall|x: int, j1: int, j2: int| 0 <= x < u && 0 <= j1 < j2 < rows@[x]@.len()
                ==> #[trigger] rows@[x]@[j1] != #[trigger] rows@[x]@[j2],
        decreases size - u,
    {
        let row = random_subset(size, i);
        let ghost r0 = rows@;
        rows.push(row);
        proof {
            assert forall|x: int, j: int| 0 <= x < u + 1 && 0 <= j < rows@[x]@.len() implies #[trigger] rows@[x]@[j] < size by {
                if x < u {
                    assert(rows@[x] == r0[x]);
                }
            }
            assert forall|x: int| 0 <= x < u + 1 implies (#[trigger] rows@[x])@.len() == if i < size { i as int } else { size as int } by {
                if x < u {
                    assert(rows@[x] == r0[x]);
                }
            }
            assert forall|x: int, j1: int, j2: int| 0 <= x < u + 1 && 0 <= j1 < j2 < rows@[x]@.len()
                implies #[trigger] rows@[x]@[j1] != #[trigger] rows@[x]@[j2] by {
                if x < u {
                    assert(rows@[x] == r0[x]);
                }
            }
        }
        u += 1;
    }
    proof {
        let g = lists_view(rows@);
        assert forall|x: int, j: int| 0 <= x < g.len() && 0 <= j < g[x].len() implies #[trigger] g[x][j] < size by {
            assert(g[x] == rows@[x]@);
        }
    }
    rows
}

} // verus!
