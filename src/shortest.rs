//! Single-source shortest paths over non-negative integer weights: Dijkstra's algorithm and
//! Dial's bucket algorithm.
use vstd::prelude::*;
use crate::reach::{count_unmarked, lemma_count_mark, lemma_count_none_marked};

verus! {

/// Every edge of the weighted adjacency lists ends at a node.
pub open spec fn wadj_ok(adj: Seq<Seq<(usize, u64)>>) -> bool {
    forall|u: int, j: int| 0 <= u < adj.len() && 0 <= j < adj[u].len() ==> #[trigger] adj[u][j].0 < adj.len()
}

/// The nodes `ns` with the chosen edge indices `js` form a walk: edge `js[i]` of node `ns[i]`
/// leads to `ns[i + 1]`.
pub open spec fn is_walk(adj: Seq<Seq<(usize, u64)>>, ns: Seq<usize>, js: Seq<usize>) -> bool {
    &&& ns.len() == js.len() + 1
    &&& forall|i: int| 0 <= i < ns.len() ==> #[trigger] ns[i] < adj.len()
    &&& forall|i: int| 0 <= i < js.len() ==> #[trigger] js[i] < adj[ns[i] as int].len() && adj[ns[i] as int][js[i] as int].0 == ns[i + 1]
}

/// Total weight of the walk's edges.
pub open spec fn walk_weight(adj: Seq<Seq<(usize, u64)>>, ns: Seq<usize>, js: Seq<usize>) -> int
    decreases js.len(),
{
    if js.len() == 0 {
        0
    } else {
        walk_weight(adj, ns.drop_last(), js.drop_last()) + adj[ns[js.len() - 1] as int][js.last() as int].1
    }
}

/// Some walk from `s` to `v` weighs exactly `x`.
pub open spec fn has_walk(adj: Seq<Seq<(usize, u64)>>, s: usize, v: usize, x: int) -> bool {
    exists|ns: Seq<usize>, js: Seq<usize>|
        #[trigger] is_walk(adj, ns, js) && ns[0] == s && ns.last() == v && walk_weight(adj, ns, js) == x
}

/// `d` holds shortest distances from `s` up to `limit`: `s` is at 0, each known distance is
/// the weight of a walk and lies below `limit`, and no edge leads to a shorter distance that
/// would lie below `limit`.
pub open spec fn shortest_below(adj: Seq<Seq<(usize, u64)>>, s: usize, d: Seq<Option<int>>, limit: int) -> bool {
    &&& d.len() == adj.len()
    &&& adj.len() <= usize::MAX
    &&& s < adj.len()
    &&& d[s as int] == Some(0int)
    &&& forall|v: int| 0 <= v < d.len() && (#[trigger] d[v]) is Some ==> d[v]->0 < limit && has_walk(adj, s, v as usize, d[v]->0)
    &&& forall|u: int, j: int|
        0 <= u < adj.len() && 0 <= j < adj[u].len() && d[u] is Some && d[u]->0 + (#[trigger] adj[u][j]).1 < limit
            ==> d[adj[u][j].0 as int] is Some && d[adj[u][j].0 as int]->0 <= d[u]->0 + adj[u][j].1
}

/// A walk extends by one edge, adding its weight.
pub proof fn lemma_walk_extend(adj: Seq<Seq<(usize, u64)>>, s: usize, u: usize, x: int, j: usize)
    requires
        has_walk(adj, s, u, x),
        u < adj.len(),
        j < adj[u as int].len(),
        adj[u as int][j as int].0 < adj.len(),
    ensures
        has_walk(adj, s, adj[u as int][j as int].0, x + adj[u as int][j as int].1),
{
    let (ns, js) = choose|ns: Seq<usize>, js: Seq<usize>|
        #[trigger] is_walk(adj, ns, js) && ns[0] == s && ns.last() == u && walk_weight(adj, ns, js) == x;
    let ns2 = ns.push(adj[u as int][j as int].0);
    let js2 = js.push(j);
    assert(ns2.drop_last() =~= ns);
    assert(js2.drop_last() =~= js);
    assert forall|i: int| 0 <= i < js2.len() implies #[trigger] js2[i] < adj[ns2[i] as int].len()
        && adj[ns2[i] as int][js2[i] as int].0 == ns2[i + 1] by {
        if i < js.len() {
            assert(js2[i] == js[i] && ns2[i] == ns[i] && ns2[i + 1] == ns[i + 1]);
        }
    }
    assert(is_walk(adj, ns2, js2));
}

/// The empty walk reaches the source at weight 0.
pub proof fn lemma_walk_source(adj: Seq<Seq<(usize, u64)>>, s: usize)
    requires
        s < adj.len(),
    ensures
        has_walk(adj, s, s, 0),
{
    let ns = seq![s];
    let js = Seq::<usize>::empty();
    assert(is_walk(adj, ns, js));
}

/// A walk of weight `x` below `limit` bounds the distance that `d` records for its end.
proof fn lemma_walk_bounds(adj: Seq<Seq<(usize, u64)>>, s: usize, d: Seq<Option<int>>, limit: int, ns: Seq<usize>, js: Seq<usize>)
    requires
        shortest_below(adj, s, d, limit),
        is_walk(adj, ns, js),
        ns[0] == s,
        walk_weight(adj, ns, js) < limit,
    ensures
        d[ns.last() as int] is Some,
        d[ns.last() as int]->0 <= walk_weight(adj, ns, js),
    decreases js.len(),
{
    if js.len() > 0 {
        let ns1 = ns.drop_last();
        let js1 = js.drop_last();
        let k = js.len() - 1;
        assert(is_walk(adj, ns1, js1)) by {
            assert forall|i: int| 0 <= i < js1.len() implies #[trigger] js1[i] < adj[ns1[i] as int].len()
                && adj[ns1[i] as int][js1[i] as int].0 == ns1[i + 1] by {
                assert(js1[i] == js[i] && ns1[i] == ns[i] && ns1[i + 1] == ns[i + 1]);
            }
        }
        assert(adj[ns[k] as int][js[k] as int].1 >= 0);
        lemma_walk_bounds(adj, s, d, limit, ns1, js1);
        assert(ns1.last() == ns[k]);
        assert(adj[ns[k] as int][js[k] as int].0 == ns[k + 1]);
    }
}

/// Two shortest-distance records from the same source agree below the smaller limit.
pub proof fn lemma_shortest_unique(
    adj: Seq<Seq<(usize, u64)>>,
    s: usize,
    d1: Seq<Option<int>>,
    l1: int,
    d2: Seq<Option<int>>,
    l2: int,
)
    requires
        shortest_below(adj, s, d1, l1),
        shortest_below(adj, s, d2, l2),
        l1 <= l2,
    ensures
        forall|v: int| 0 <= v < adj.len() && (#[trigger] d1[v]) is Some ==> d2[v] == d1[v],
        forall|v: int| 0 <= v < adj.len() && (#[trigger] d2[v]) is Some && d2[v]->0 < l1 ==> d1[v] == d2[v],
{
    assert forall|v: int| 0 <= v < adj.len() && (#[trigger] d1[v]) is Some implies d2[v] == d1[v] by {
        let (ns, js) = choose|ns: Seq<usize>, js: Seq<usize>|
            #[trigger] is_walk(adj, ns, js) && ns[0] == s && ns.last() == v as usize && walk_weight(adj, ns, js) == d1[v]->0;
        lemma_walk_bounds(adj, s, d2, l2, ns, js);
        let (ns2, js2) = choose|ns: Seq<usize>, js: Seq<usize>|
            #[trigger] is_walk(adj, ns, js) && ns[0] == s && ns.last() == v as usize && walk_weight(adj, ns, js) == d2[v]->0;
        lemma_walk_bounds(adj, s, d1, l1, ns2, js2);
    }
    assert forall|v: int| 0 <= v < adj.len() && (#[trigger] d2[v]) is Some && d2[v]->0 < l1 implies d1[v] == d2[v] by {
        let (ns2, js2) = choose|ns: Seq<usize>, js: Seq<usize>|
            #[trigger] is_walk(adj, ns, js) && ns[0] == s && ns.last() == v as usize && walk_weight(adj, ns, js) == d2[v]->0;
        lemma_walk_bounds(adj, s, d1, l1, ns2, js2);
        let (ns, js) = choose|ns: Seq<usize>, js: Seq<usize>|
            #[trigger] is_walk(adj, ns, js) && ns[0] == s && ns.last() == v as usize && walk_weight(adj, ns, js) == d1[v]->0;
        lemma_walk_bounds(adj, s, d2, l2, ns, js);
    }
}

/// No walk from `s` to `t` of weight below `limit` weighs less than `x`.
pub open spec fn no_shorter_walk(adj: Seq<Seq<(usize, u64)>>, s: usize, t: usize, x: int, limit: int) -> bool {
    forall|ns: Seq<usize>, js: Seq<usize>|
        #[trigger] is_walk(adj, ns, js) && ns[0] == s && ns.last() == t && walk_weight(adj, ns, js) < limit
            ==> x <= walk_weight(adj, ns, js)
}

/// `r` is the distance from `s` to `t`: a walk of that weight exists and none is lighter, or
/// `r` is `INFINITY` and no walk weighs less than `INFINITY`.
pub open spec fn is_distance(adj: Seq<Seq<(usize, u64)>>, s: usize, t: usize, r: u64) -> bool {
    &&& r != INFINITY ==> has_walk(adj, s, t, r as int) && no_shorter_walk(adj, s, t, r as int, INFINITY as int)
    &&& r == INFINITY ==> no_shorter_walk(adj, s, t, INFINITY as int, INFINITY as int)
}

/// The invariant of Dijkstra's loop: settled nodes are no farther than unsettled ones, and the
/// edges of settled nodes are relaxed.
pub open spec fn settled_ok(g: Seq<Seq<(usize, u64)>>, s: usize, d: Seq<u64>, visited: Seq<bool>) -> bool {
    &&& d.len() == g.len()
    &&& visited.len() == g.len()
    &&& s < g.len()
    &&& d[s as int] == 0
    &&& forall|x: int| 0 <= x < g.len() && #[trigger] visited[x] ==> d[x] != INFINITY
    &&& forall|x: int, y: int| 0 <= x < g.len() && 0 <= y < g.len() && #[trigger] visited[x] && !#[trigger] visited[y] ==> d[x] <= d[y]
    &&& forall|u: int, j: int|
        0 <= u < g.len() && visited[u] && 0 <= j < g[u].len() && d[u] + (#[trigger] g[u][j]).1 < INFINITY
            ==> d[g[u][j].0 as int] <= d[u] + g[u][j].1
}

/// A walk from `s` of weight `w` below `INFINITY` either ends at a settled node no farther than
/// `w`, or passes an unsettled node no farther than `w`.
proof fn lemma_walk_meets_frontier(g: Seq<Seq<(usize, u64)>>, s: usize, d: Seq<u64>, visited: Seq<bool>,
    ns: Seq<usize>, js: Seq<usize>)
    requires
        settled_ok(g, s, d, visited),
        is_walk(g, ns, js),
        ns[0] == s,
        walk_weight(g, ns, js) < INFINITY,
    ensures
        (visited[ns.last() as int] && d[ns.last() as int] <= walk_weight(g, ns, js))
            || exists|y: int| 0 <= y < g.len() && !visited[y] && #[trigger] d[y] <= walk_weight(g, ns, js),
    decreases js.len(),
{
    if js.len() == 0 {
        if !visited[s as int] {
            assert(d[s as int] <= walk_weight(g, ns, js));
        }
    } else {
        let ns1 = ns.drop_last();
        let js1 = js.drop_last();
        let k = js.len() - 1;
        assert(is_walk(g, ns1, js1)) by {
            assert forall|i: int| 0 <= i < js1.len() implies #[trigger] js1[i] < g[ns1[i] as int].len()
                && g[ns1[i] as int][js1[i] as int].0 == ns1[i + 1] by {
                assert(js1[i] == js[i] && ns1[i] == ns[i] && ns1[i + 1] == ns[i + 1]);
            }
        }
        assert(g[ns[k] as int][js[k] as int].1 >= 0);
        lemma_walk_meets_frontier(g, s, d, visited, ns1, js1);
        let x = ns1.last();
        assert(x == ns[k]);
        let w = walk_weight(g, ns, js);
        if visited[x as int] && d[x as int] <= walk_weight(g, ns1, js1) {
            let e = g[x as int][js[k] as int];
            assert(e.0 == ns[k + 1]);
            assert(d[x as int] + e.1 < INFINITY);
            assert(d[e.0 as int] <= d[x as int] + e.1);
            if !visited[ns.last() as int] {
                assert(d[ns.last() as int] <= w);
            }
        } else {
            let y = choose|y: int| 0 <= y < g.len() && !visited[y] && #[trigger] d[y] <= walk_weight(g, ns1, js1);
            assert(d[y] <= w);
        }
    }
}

/// When `t` is the nearest unsettled node, its tentative distance is its distance.
proof fn lemma_settles_target(g: Seq<Seq<(usize, u64)>>, s: usize, t: usize, d: Seq<u64>, visited: Seq<bool>)
    requires
        settled_ok(g, s, d, visited),
        t < g.len(),
        !visited[t as int],
        d[t as int] != INFINITY,
        forall|y: int| 0 <= y < g.len() && !visited[y] ==> d[t as int] <= #[trigger] d[y],
        forall|v: int| 0 <= v < g.len() && #[trigger] d[v] != INFINITY ==> has_walk(g, s, v as usize, d[v] as int),
    ensures
        is_distance(g, s, t, d[t as int]),
{
    assert(has_walk(g, s, t, d[t as int] as int));
    assert forall|ns: Seq<usize>, js: Seq<usize>|
        #[trigger] is_walk(g, ns, js) && ns[0] == s && ns.last() == t && walk_weight(g, ns, js) < INFINITY
            implies d[t as int] <= walk_weight(g, ns, js) by {
        lemma_walk_meets_frontier(g, s, d, visited, ns, js);
    }
}

/// When no unsettled node has a finite distance and `t` is unsettled, no walk reaches `t`
/// below `INFINITY`.
proof fn lemma_unsettled_unreached(g: Seq<Seq<(usize, u64)>>, s: usize, t: usize, d: Seq<u64>, visited: Seq<bool>)
    requires
        settled_ok(g, s, d, visited),
        t < g.len(),
        !visited[t as int],
        forall|y: int| 0 <= y < g.len() && !visited[y] ==> #[trigger] d[y] == INFINITY,
    ensures
        is_distance(g, s, t, INFINITY),
{
    assert forall|ns: Seq<usize>, js: Seq<usize>|
        #[trigger] is_walk(g, ns, js) && ns[0] == s && ns.last() == t && walk_weight(g, ns, js) < INFINITY
            implies INFINITY as int <= walk_weight(g, ns, js) by {
        lemma_walk_meets_frontier(g, s, d, visited, ns, js);
    }
}

/// A table of shortest distances up to `INFINITY` gives the distance to each node, so a full
/// run and an early-exit run of Dijkstra's algorithm agree.
pub proof fn lemma_shortest_gives_distance(adj: Seq<Seq<(usize, u64)>>, s: usize, d: Seq<u64>, t: usize)
    requires
        shortest_below(adj, s, known_u64(d), INFINITY as int),
        t < adj.len(),
    ensures
        is_distance(adj, s, t, d[t as int]),
{
    let dk = known_u64(d);
    assert forall|ns: Seq<usize>, js: Seq<usize>|
        #[trigger] is_walk(adj, ns, js) && ns[0] == s && ns.last() == t && walk_weight(adj, ns, js) < INFINITY
            implies d[t as int] <= walk_weight(adj, ns, js) by {
        lemma_walk_bounds(adj, s, dk, INFINITY as int, ns, js);
    }
    if d[t as int] != INFINITY {
        assert(dk[t as int] is Some);
    }
}

/// Distance used for nodes that are not reached.
pub const INFINITY: u64 = u64::MAX;

/// The distances of a `u64` table, `INFINITY` read as unknown.
pub open spec fn known_u64(d: Seq<u64>) -> Seq<Option<int>> {
    d.map_values(|x: u64| if x == INFINITY { None } else { Some(x as int) })
}

/// The weighted adjacency lists held in nested vectors.
pub open spec fn wview(adj: Seq<Vec<(usize, u64)>>) -> Seq<Seq<(usize, u64)>> {
    adj.map_values(|row: Vec<(usize, u64)>| row@)
}

/// Dijkstra's algorithm from `s` over adjacency lists of `(target, weight)` pairs: repeatedly
/// settles the unsettled node of least tentative distance and relaxes its edges. Nodes that are
/// not reached, or only at a distance of `INFINITY` or more, get `INFINITY`.
pub fn dijkstra_adj(adj: &Vec<Vec<(usize, u64)>>, s: usize) -> (d: Vec<u64>)
    requires
        wadj_ok(wview(adj@)),
        s < adj@.len(),
    ensures
        shortest_below(wview(adj@), s, known_u64(d@), INFINITY as int),
{
    let ghost g = wview(adj@);
    let n = adj.len();
    let mut d = vec![INFINITY; n];
    let mut visited = vec![false; n];
    d[s] = 0;
    proof {
        assert(visited@ =~= Seq::new(n as nat, |i: int| false));
        lemma_count_none_marked(n as nat);
        lemma_walk_source(g, s);
    }
    loop
        invariant
            g == wview(adj@),
            wadj_ok(g),
            n == g.len(),
            n <= usize::MAX,
            s < n,
            d@.len() == n,
            visited@.len() == n,
            d@[s as int] == 0,
            forall|v: int| 0 <= v < n && #[trigger] d@[v] != INFINITY ==> has_walk(g, s, v as usize, d@[v] as int),
            forall|x: int| 0 <= x < n && #[trigger] visited@[x] ==> d@[x] != INFINITY,
            forall|x: int, y: int| 0 <= x < n && 0 <= y < n && #[trigger] visited@[x] && !#[trigger] visited@[y] ==> d@[x] <= d@[y],
            forall|u: int, j: int|
                0 <= u < n && visited@[u] && 0 <= j < g[u].len() && d@[u] + (#[trigger] g[u][j]).1 < INFINITY
                    ==> d@[g[u][j].0 as int] <= d@[u] + g[u][j].1,
        ensures
            d@.len() == n,
            d@[s as int] == 0,
            forall|v: int| 0 <= v < n && #[trigger] d@[v] != INFINITY ==> has_walk(g, s, v as usize, d@[v] as int),
            forall|u: int, j: int|
                0 <= u < n && 0 <= j < g[u].len() && d@[u] != INFINITY && d@[u] + (#[trigger] g[u][j]).1 < INFINITY
                    ==> d@[g[u][j].0 as int] <= d@[u] + g[u][j].1,
        decreases count_unmarked(visited@),
    {
        let mut best: usize = n;
        let mut k: usize = 0;
        while k < n
            invariant
                n == d@.len(),
                n == visited@.len(),
                k <= n,
                best == n || (best < k && !visited@[best as int] && d@[best as int] != INFINITY),
                best < n ==> forall|y: int| 0 <= y < k && !visited@[y] ==> d@[best as int] <= #[trigger] d@[y],
                best == n ==> forall|y: int| 0 <= y < k && !visited@[y] ==> #[trigger] d@[y] == INFINITY,
            decreases n - k,
        {
            if !visited[k] && d[k] != INFINITY && (best == n || d[k] < d[best]) {
                best = k;
            }
            k += 1;
        }
        if best == n {
            break;
        }
        let u = best;
        proof {
            lemma_count_mark(visited@, u as int);
            assert forall|x: int| 0 <= x < n && #[trigger] visited@[x] implies d@[x] <= d@[u as int] by {}
        }
        visited[u] = true;
        let du = d[u];
        let deg = adj[u].len();
        let mut j: usize = 0;
        while j < deg
            invariant
                g == wview(adj@),
                wadj_ok(g),
                n == g.len(),
                s < n,
                u < n,
                deg == g[u as int].len(),
                j <= deg,
                d@.len() == n,
                visited@.len() == n,
                visited@[u as int],
                d@[u as int] == du,
                du != INFINITY,
                forall|x: int| 0 <= x < n && #[trigger] visited@[x] ==> d@[x] <= du,
                d@[s as int] == 0,
                forall|v: int| 0 <= v < n && #[trigger] d@[v] != INFINITY ==> has_walk(g, s, v as usize, d@[v] as int),
                forall|x: int| 0 <= x < n && #[trigger] visited@[x] ==> d@[x] != INFINITY,
                forall|x: int, y: int| 0 <= x < n && 0 <= y < n && #[trigger] visited@[x] && !#[trigger] visited@[y] ==> d@[x] <= d@[y],
                forall|x: int, j2: int|
                    0 <= x < n && visited@[x] && (x != u || j2 < j) && 0 <= j2 < g[x].len() && d@[x] + (#[trigger] g[x][j2]).1 < INFINITY
                        ==> d@[g[x][j2].0 as int] <= d@[x] + g[x][j2].1,
            decreases deg - j,
        {
            let (v, w) = adj[u][j];
            assert(g[u as int][j as int] == (v, w));
            if !visited[v] && w < INFINITY - du && du + w < d[v] {
                proof {
                    lemma_walk_extend(g, s, u, du as int, j);
                }
                d[v] = du + w;
            }
            j += 1;
        }
    }
    proof {
        let dk = known_u64(d@);
        assert forall|v: int| 0 <= v < dk.len() && (#[trigger] dk[v]) is Some implies dk[v]->0 < INFINITY as int
            && has_walk(g, s, v as usize, dk[v]->0) by {
            assert(d@[v] != INFINITY);
        }
        assert forall|u: int, j: int|
            0 <= u < g.len() && 0 <= j < g[u].len() && dk[u] is Some && dk[u]->0 + (#[trigger] g[u][j]).1 < INFINITY as int
                implies dk[g[u][j].0 as int] is Some && dk[g[u][j].0 as int]->0 <= dk[u]->0 + g[u][j].1 by {
            assert(d@[u] != INFINITY);
            assert(d@[g[u][j].0 as int] <= d@[u] + g[u][j].1);
        }
    }
    d
}

/// Dijkstra's algorithm from `s` that stops as soon as `t` is settled: the distance from `s`
/// to `t`, or `INFINITY` when no walk of smaller weight reaches `t`.
pub fn dijkstra_adj_to(adj: &Vec<Vec<(usize, u64)>>, s: usize, t: usize) -> (r: u64)
    requires
        wadj_ok(wview(adj@)),
        s < adj@.len(),
        t < adj@.len(),
    ensures
        is_distance(wview(adj@), s, t, r),
{
    let ghost g = wview(adj@);
    let n = adj.len();
    let mut d = vec![INFINITY; n];
    let mut visited = vec![false; n];
    d[s] = 0;
    proof {
        assert(visited@ =~= Seq::new(n as nat, |i: int| false));
        lemma_count_none_marked(n as nat);
        lemma_walk_source(g, s);
    }
    loop
        invariant
            g == wview(adj@),
            wadj_ok(g),
            n == g.len(),
            n <= usize::MAX,
            s < n,
            t < n,
            !visited@[t as int],
            d@.len() == n,
            visited@.len() == n,
            d@[s as int] == 0,
            forall|v: int| 0 <= v < n && #[trigger] d@[v] != INFINITY ==> has_walk(g, s, v as usize, d@[v] as int),
            forall|x: int| 0 <= x < n && #[trigger] visited@[x] ==> d@[x] != INFINITY,
            forall|x: int, y: int| 0 <= x < n && 0 <= y < n && #[trigger] visited@[x] && !#[trigger] visited@[y] ==> d@[x] <= d@[y],
            forall|u: int, j: int|
                0 <= u < n && visited@[u] && 0 <= j < g[u].len() && d@[u] + (#[trigger] g[u][j]).1 < INFINITY
                    ==> d@[g[u][j].0 as int] <= d@[u] + g[u][j].1,
        decreases count_unmarked(visited@),
    {
        let mut best: usize = n;
        let mut k: usize = 0;
        while k < n
            invariant
                n == d@.len(),
                n == visited@.len(),
                k <= n,
                best == n || (best < k && !visited@[best as int] && d@[best as int] != INFINITY),
                best < n ==> forall|y: int| 0 <= y < k && !visited@[y] ==> d@[best as int] <= #[trigger] d@[y],
                best == n ==> forall|y: int| 0 <= y < k && !visited@[y] ==> #[trigger] d@[y] == INFINITY,
            decreases n - k,
        {
            if !visited[k] && d[k] != INFINITY && (best == n || d[k] < d[best]) {
                best = k;
            }
            k += 1;
        }
        if best == n {
            proof {
                lemma_unsettled_unreached(g, s, t, d@, visited@);
            }
            return INFINITY;
        }
        let u = best;
        if u == t {
            proof {
                lemma_settles_target(g, s, t, d@, visited@);
            }
            return d[t];
        }
        proof {
            lemma_count_mark(visited@, u as int);
            assert forall|x: int| 0 <= x < n && #[trigger] visited@[x] implies d@[x] <= d@[u as int] by {}
        }
        visited[u] = true;
        let du = d[u];
        let deg = adj[u].len();
        let mut j: usize = 0;
        while j < deg
            invariant
                g == wview(adj@),
                wadj_ok(g),
                n == g.len(),
                s < n,
                u < n,
                deg == g[u as int].len(),
                j <= deg,
                d@.len() == n,
                visited@.len() == n,
                visited@[u as int],
                d@[u as int] == du,
                du != INFINITY,
                forall|x: int| 0 <= x < n && #[trigger] visited@[x] ==> d@[x] <= du,
                d@[s as int] == 0,
                forall|v: int| 0 <= v < n && #[trigger] d@[v] != INFINITY ==> has_walk(g, s, v as usize, d@[v] as int),
                forall|x: int| 0 <= x < n && #[trigger] visited@[x] ==> d@[x] != INFINITY,
                forall|x: int, y: int| 0 <= x < n && 0 <= y < n && #[trigger] visited@[x] && !#[trigger] visited@[y] ==> d@[x] <= d@[y],
                forall|x: int, j2: int|
                    0 <= x < n && visited@[x] && (x != u || j2 < j) && 0 <= j2 < g[x].len() && d@[x] + (#[trigger] g[x][j2]).1 < INFINITY
                        ==> d@[g[x][j2].0 as int] <= d@[x] + g[x][j2].1,
            decreases deg - j,
        {
            let (v, w) = adj[u][j];
            assert(g[u as int][j as int] == (v, w));
            if !visited[v] && w < INFINITY - du && du + w < d[v] {
                proof {
                    lemma_walk_extend(g, s, u, du as int, j);
                }
                d[v] = du + w;
            }
            j += 1;
        }
    }
}

/// The distances of an optional table.
pub open spec fn known_opt(d: Seq<Option<usize>>) -> Seq<Option<int>> {
    d.map_values(|x: Option<usize>| match x {
        Some(v) => Some(v as int),
        None => None,
    })
}

/// Every edge weight is at most `c`.
pub open spec fn weights_at_most(adj: Seq<Seq<(usize, u64)>>, c: int) -> bool {
    forall|u: int, j: int| 0 <= u < adj.len() && 0 <= j < adj[u].len() ==> (#[trigger] adj[u][j]).1 <= c
}

proof fn lemma_same_residue(a: int, b: int, m: int)
    requires
        m > 0,
        0 <= b <= a < b + m,
        a % m == b % m,
    ensures
        a == b,
{
    vstd::arithmetic::div_mod::lemma_fundamental_div_mod(a, m);
    vstd::arithmetic::div_mod::lemma_fundamental_div_mod(b, m);
    assert(a / m == b / m) by (nonlinear_arith)
        requires
            a == m * (a / m) + a % m,
            b == m * (b / m) + b % m,
            a % m == b % m,
            0 <= b <= a < b + m,
            m > 0;
}

/// `bucket` without any entry for `x`.
fn without(bucket: &Vec<usize>, x: usize) -> (r: Vec<usize>)
    ensures
        forall|y: usize| #[trigger] r@.contains(y) <==> bucket@.contains(y) && y != x,
{
    let mut r: Vec<usize> = Vec::new();
    let mut k: usize = 0;
    while k < bucket.len()
        invariant
            k <= bucket@.len(),
            forall|q: int| 0 <= q < r@.len() ==> #[trigger] r@[q] != x && bucket@.contains(r@[q]),
            forall|i: int| 0 <= i < k && #[trigger] bucket@[i] != x ==> r@.contains(bucket@[i]),
        decreases bucket@.len() - k,
    {
        let y = bucket[k];
        let ghost r0 = r@;
        if y != x {
            r.push(y);
            proof {
                assert(r@[r@.len() - 1] == y);
                assert forall|q: int| 0 <= q < r@.len() implies #[trigger] r@[q] != x && bucket@.contains(r@[q]) by {
                    if q < r0.len() {
                        assert(r@[q] == r0[q]);
                    } else {
                        assert(bucket@[k as int] == y);
                    }
                }
                assert forall|i: int| 0 <= i < k + 1 && #[trigger] bucket@[i] != x implies r@.contains(bucket@[i]) by {
                    if i < k {
                        let q = choose|q: int| 0 <= q < r0.len() && r0[q] == bucket@[i];
                        assert(r@[q] == bucket@[i]);
                    }
                }
            }
        }
        k += 1;
    }
    proof {
        assert forall|y: usize| #[trigger] r@.contains(y) <==> bucket@.contains(y) && y != x by {
            if r@.contains(y) {
                let q = choose|q: int| 0 <= q < r@.len() && r@[q] == y;
                assert(r@[q] != x && bucket@.contains(r@[q]));
            }
            if bucket@.contains(y) && y != x {
                let i = choose|i: int| 0 <= i < bucket@.len() && bucket@[i] == y;
                assert(r@.contains(bucket@[i]));
            }
        }
    }
    r
}

/// State of Dial's scan at cursor `i`: settled nodes are no farther than `i`; every other reached
/// node waits, flagged, in the bucket of its distance modulo `c + 1` at a distance in
/// `i..=i + c`; every bucket entry is such a node; settled nodes' edges are relaxed.
pub open spec fn dial_state(
    g: Seq<Seq<(usize, u64)>>,
    s: usize,
    c: int,
    lim: int,
    i: int,
    dist: Seq<Option<usize>>,
    visited: Seq<bool>,
    in_bucket: Seq<bool>,
    buckets: Seq<Seq<usize>>,
    px: int,
    pj: int,
) -> bool {
    let n = g.len();
    &&& dist.len() == n
    &&& visited.len() == n
    &&& in_bucket.len() == n
    &&& buckets.len() == c + 1
    &&& dist[s as int] == Some(0usize)
    &&& forall|v: int| 0 <= v < n && (#[trigger] dist[v]) is Some ==> dist[v]->0 < lim && has_walk(g, s, v as usize, dist[v]->0 as int)
    &&& forall|x: int| 0 <= x < n && #[trigger] visited[x] ==> dist[x] is Some && dist[x]->0 <= i
    &&& forall|v: int|
        0 <= v < n && !visited[v] && (#[trigger] dist[v]) is Some ==> i <= dist[v]->0 <= i + c && in_bucket[v]
            && buckets[dist[v]->0 as int % (c + 1)].contains(v as usize)
    &&& forall|v: int| 0 <= v < n && #[trigger] in_bucket[v] ==> !visited[v] && dist[v] is Some
    &&& forall|b: int, k: int|
        0 <= b <= c && 0 <= k < buckets[b].len() ==> {
            let x = #[trigger] buckets[b][k];
            &&& x < n
            &&& in_bucket[x as int]
            &&& dist[x as int] is Some
            &&& dist[x as int]->0 as int % (c + 1) == b
        }
    &&& forall|u: int, j: int|
        0 <= u < n && visited[u] && 0 <= j < g[u].len() && (u != px || j < pj) && dist[u]->0 + (#[trigger] g[u][j]).1 < lim
            ==> dist[g[u][j].0 as int] is Some && dist[g[u][j].0 as int]->0 <= dist[u]->0 + g[u][j].1
}

/// A finished scan, with no reached node left unsettled, holds shortest distances.
proof fn lemma_dial_done(
    g: Seq<Seq<(usize, u64)>>, s: usize, c: int, lim: int, i: int,
    dist: Seq<Option<usize>>, visited: Seq<bool>, in_bucket: Seq<bool>, buckets: Seq<Seq<usize>>,
)
    requires
        dial_state(g, s, c, lim, i, dist, visited, in_bucket, buckets, -1, 0),
        wadj_ok(g),
        s < g.len(),
        g.len() <= usize::MAX,
        forall|v: int| 0 <= v < g.len() && (#[trigger] dist[v]) is Some ==> visited[v],
    ensures
        shortest_below(g, s, known_opt(dist), lim),
{
    let d = known_opt(dist);
    assert forall|v: int| 0 <= v < d.len() && (#[trigger] d[v]) is Some implies d[v]->0 < lim && has_walk(g, s, v as usize, d[v]->0) by {
        assert(dist[v] is Some);
    }
    assert forall|u: int, j: int|
        0 <= u < g.len() && 0 <= j < g[u].len() && d[u] is Some && d[u]->0 + (#[trigger] g[u][j]).1 < lim
            implies d[g[u][j].0 as int] is Some && d[g[u][j].0 as int]->0 <= d[u]->0 + g[u][j].1 by {
        assert(dist[u] is Some);
        assert(visited[u]);
    }
}

/// Relaxing edge `j` of the settled node `x` when it improves nothing.
proof fn lemma_dial_keep(
    g: Seq<Seq<(usize, u64)>>, s: usize, c: int, lim: int, i: int,
    dist: Seq<Option<usize>>, visited: Seq<bool>, in_bucket: Seq<bool>, buckets: Seq<Seq<usize>>,
    x: int, j: int,
)
    requires
        dial_state(g, s, c, lim, i, dist, visited, in_bucket, buckets, x, j),
        0 <= x < g.len(),
        0 <= j < g[x].len(),
        visited[x],
        0 <= i < lim,
        lim <= usize::MAX,
        wadj_ok(g),
        dist[x] == Some(i as usize),
        i + g[x][j].1 >= lim || (dist[g[x][j].0 as int] is Some && dist[g[x][j].0 as int]->0 <= i + g[x][j].1),
    ensures
        dial_state(g, s, c, lim, i, dist, visited, in_bucket, buckets, x, j + 1),
{
}

/// Relaxing edge `j` of the settled node `x` to a node `v` that gets the smaller distance `nc`,
/// after its old bucket entry, if any, has been dropped.
#[verifier::spinoff_prover]
#[verifier::rlimit(50)]
proof fn lemma_dial_lower(
    g: Seq<Seq<(usize, u64)>>, s: usize, c: int, lim: int, i: int,
    dist: Seq<Option<usize>>, visited: Seq<bool>, in_bucket: Seq<bool>, buckets: Seq<Seq<usize>>,
    x: int, j: int, mid: Seq<Seq<usize>>,
)
    requires
        dial_state(g, s, c, lim, i, dist, visited, in_bucket, buckets, x, j),
        wadj_ok(g),
        weights_at_most(g, c),
        0 <= x < g.len(),
        0 <= j < g[x].len(),
        visited[x],
        dist[x] == Some(i as usize),
        0 <= i,
        c >= 0,
        i + g[x][j].1 < lim,
        lim <= usize::MAX,
        g.len() <= usize::MAX,
        g[x].len() <= usize::MAX,
        dist[g[x][j].0 as int] is None || i + g[x][j].1 < dist[g[x][j].0 as int]->0,
        mid.len() == buckets.len(),
        forall|b: int| 0 <= b <= c && !(in_bucket[g[x][j].0 as int] && b == dist[g[x][j].0 as int]->0 as int % (c + 1))
            ==> #[trigger] mid[b] == buckets[b],
        in_bucket[g[x][j].0 as int] ==> forall|y: usize| #[trigger] mid[dist[g[x][j].0 as int]->0 as int % (c + 1)].contains(y)
            <==> buckets[dist[g[x][j].0 as int]->0 as int % (c + 1)].contains(y) && y != g[x][j].0,
    ensures
        ({
            let v = g[x][j].0 as int;
            let nc = (i + g[x][j].1) as usize;
            let b2 = nc as int % (c + 1);
            dial_state(g, s, c, lim, i, dist.update(v, Some(nc)), visited, in_bucket.update(v, true),
                mid.update(b2, mid[b2].push(nc as usize)).update(b2, mid[b2].push(v as usize)), x, j + 1)
        }),
{
    let v = g[x][j].0 as int;
    let w = g[x][j].1 as int;
    let nc = (i + w) as usize;
    let b2 = nc as int % (c + 1);
    let dist2 = dist.update(v, Some(nc));
    let in2 = in_bucket.update(v, true);
    let bk2 = mid.update(b2, mid[b2].push(v as usize));
    assert(mid.update(b2, mid[b2].push(nc as usize)).update(b2, mid[b2].push(v as usize)) =~= bk2);
    assert(!visited[v]) by {
        if visited[v] {
            assert(dist[v]->0 <= i);
        }
    }
    lemma_walk_extend(g, s, x as usize, i, j as usize);
    assert(nc as int == i + w);
    assert forall|y: int| 0 <= y < g.len() && (#[trigger] dist2[y]) is Some implies dist2[y]->0 < lim && has_walk(g, s, y as usize, dist2[y]->0 as int) by {
        if y != v {
            assert(dist[y] is Some);
        }
    }
    assert forall|y: int| 0 <= y < g.len() && !visited[y] && (#[trigger] dist2[y]) is Some implies i <= dist2[y]->0 <= i + c && in2[y]
        && bk2[dist2[y]->0 as int % (c + 1)].contains(y as usize) by {
        if y == v {
            assert(bk2[b2][bk2[b2].len() - 1] == y as usize);
        } else {
            assert(dist[y] is Some);
            let by = dist[y]->0 as int % (c + 1);
            assert(buckets[by].contains(y as usize));
            if in_bucket[v] && by == dist[v]->0 as int % (c + 1) {
                assert(mid[by].contains(y as usize));
            } else {
                assert(mid[by] == buckets[by]);
            }
            let k = choose|k: int| 0 <= k < mid[by].len() && mid[by][k] == y as usize;
            if by == b2 {
                assert(bk2[by][k] == y as usize);
            } else {
                assert(bk2[by] == mid[by]);
            }
        }
    }
    assert forall|b: int, k: int| 0 <= b <= c && 0 <= k < bk2[b].len() implies ({
        let z = #[trigger] bk2[b][k];
        &&& z < g.len()
        &&& in2[z as int]
        &&& dist2[z as int] is Some
        &&& dist2[z as int]->0 as int % (c + 1) == b
    }) by {
        let z = bk2[b][k];
        if !(b == b2 && k == mid[b2].len()) {
            assert(z == mid[b][k]);
            assert(mid[b].contains(z));
            if in_bucket[v] && b == dist[v]->0 as int % (c + 1) {
                assert(buckets[b].contains(z));
                assert(z != v as usize);
            } else {
                assert(mid[b] == buckets[b]);
                if z == v as usize {
                    assert(in_bucket[v]);
                    assert(dist[v]->0 as int % (c + 1) == b);
                }
            }
            let k2 = choose|k2: int| 0 <= k2 < buckets[b].len() && buckets[b][k2] == z;
            assert(buckets[b][k2] == z);
        }
    }
    assert forall|u: int, j2: int|
        0 <= u < g.len() && visited[u] && 0 <= j2 < g[u].len() && (u != x || j2 < j + 1) && dist2[u]->0 + (#[trigger] g[u][j2]).1 < lim
            implies dist2[g[u][j2].0 as int] is Some && dist2[g[u][j2].0 as int]->0 <= dist2[u]->0 + g[u][j2].1 by {
        assert(u != v);
        if !(u == x && j2 == j) {
            assert(dist[g[u][j2].0 as int] is Some && dist[g[u][j2].0 as int]->0 <= dist[u]->0 + g[u][j2].1);
        }
    }
}

/// The state before the first scan: only `s` is reached, alone in bucket 0.
proof fn lemma_dial_init(
    g: Seq<Seq<(usize, u64)>>, s: usize, c: int, lim: int,
    dist: Seq<Option<usize>>, visited: Seq<bool>, in_bucket: Seq<bool>, buckets: Seq<Seq<usize>>,
)
    requires
        s < g.len(),
        c >= 0,
        lim > 0,
        dist == Seq::new(g.len(), |v: int| None::<usize>).update(s as int, Some(0usize)),
        visited == Seq::new(g.len(), |v: int| false),
        in_bucket == Seq::new(g.len(), |v: int| false).update(s as int, true),
        buckets.len() == c + 1,
        buckets[0] == seq![s],
        forall|b: int| 1 <= b <= c ==> (#[trigger] buckets[b]).len() == 0,
    ensures
        dial_state(g, s, c, lim, 0, dist, visited, in_bucket, buckets, -1, 0),
{
    lemma_walk_source(g, s);
    assert(buckets[0][0] == s);
    assert forall|b: int, k: int| 0 <= b <= c && 0 <= k < buckets[b].len() implies #[trigger] buckets[b][k] == s by {
        if b > 0 {
            assert(buckets[b].len() == 0);
        }
    }
}

/// Settling `x`, the node of a bucket at the cursor: its distance is the cursor, and it leaves
/// its bucket.
proof fn lemma_dial_settle(
    g: Seq<Seq<(usize, u64)>>, s: usize, c: int, lim: int, i: int,
    dist: Seq<Option<usize>>, visited: Seq<bool>, in_bucket: Seq<bool>, buckets: Seq<Seq<usize>>,
    x: usize, rest: Seq<usize>,
)
    requires
        dial_state(g, s, c, lim, i, dist, visited, in_bucket, buckets, -1, 0),
        c >= 0,
        i >= 0,
        g.len() <= usize::MAX,
        buckets[i % (c + 1)].contains(x),
        forall|y: usize| #[trigger] rest.contains(y) <==> buckets[i % (c + 1)].contains(y) && y != x,
    ensures
        x < g.len(),
        !visited[x as int],
        dist[x as int] == Some(i as usize),
        dial_state(g, s, c, lim, i, dist, visited.update(x as int, true), in_bucket.update(x as int, false),
            buckets.update(i % (c + 1), rest), x as int, 0),
{
    let b0 = i % (c + 1);
    let k0 = choose|k: int| 0 <= k < buckets[b0].len() && buckets[b0][k] == x;
    assert(buckets[b0][k0] == x);
    assert(!visited[x as int]);
    lemma_same_residue(dist[x as int]->0 as int, i, c + 1);
    let vis2 = visited.update(x as int, true);
    let in2 = in_bucket.update(x as int, false);
    let bk2 = buckets.update(b0, rest);
    assert forall|b: int, k: int| 0 <= b <= c && 0 <= k < bk2[b].len() implies ({
        let z = #[trigger] bk2[b][k];
        &&& z < g.len()
        &&& in2[z as int]
        &&& dist[z as int] is Some
        &&& dist[z as int]->0 as int % (c + 1) == b
    }) by {
        let z = bk2[b][k];
        if b == b0 {
            assert(rest.contains(z));
            assert(buckets[b0].contains(z));
            let k2 = choose|k2: int| 0 <= k2 < buckets[b0].len() && buckets[b0][k2] == z;
            assert(buckets[b0][k2] == z);
        } else {
            assert(bk2[b] == buckets[b]);
            assert(buckets[b][k] == z);
            if z == x {
                assert(dist[x as int]->0 as int % (c + 1) == b0);
            }
        }
    }
    assert forall|v: int| 0 <= v < g.len() && !vis2[v] && (#[trigger] dist[v]) is Some implies i <= dist[v]->0 <= i + c && in2[v]
        && bk2[dist[v]->0 as int % (c + 1)].contains(v as usize) by {
        assert(v != x as int);
        let bv = dist[v]->0 as int % (c + 1);
        assert(buckets[bv].contains(v as usize));
        if bv == b0 {
            assert(rest.contains(v as usize));
        }
    }
}

/// A bucket at the cursor that is empty lets the cursor move on.
proof fn lemma_dial_advance(
    g: Seq<Seq<(usize, u64)>>, s: usize, c: int, lim: int, i: int,
    dist: Seq<Option<usize>>, visited: Seq<bool>, in_bucket: Seq<bool>, buckets: Seq<Seq<usize>>,
)
    requires
        dial_state(g, s, c, lim, i, dist, visited, in_bucket, buckets, -1, 0),
        c >= 0,
        i >= 0,
        buckets[i % (c + 1)].len() == 0,
    ensures
        dial_state(g, s, c, lim, i + 1, dist, visited, in_bucket, buckets, -1, 0),
        forall|v: int| 0 <= v < g.len() && !visited[v] && (#[trigger] dist[v]) is Some ==> dist[v]->0 != i,
{
    assert forall|v: int| 0 <= v < g.len() && !visited[v] && (#[trigger] dist[v]) is Some implies dist[v]->0 != i by {
        if dist[v]->0 == i {
            assert(buckets[i % (c + 1)].contains(v as usize));
        }
    }
}

/// All edges of the settled node `x` are relaxed.
proof fn lemma_dial_close(
    g: Seq<Seq<(usize, u64)>>, s: usize, c: int, lim: int, i: int,
    dist: Seq<Option<usize>>, visited: Seq<bool>, in_bucket: Seq<bool>, buckets: Seq<Seq<usize>>,
    x: int,
)
    requires
        dial_state(g, s, c, lim, i, dist, visited, in_bucket, buckets, x, g[x].len() as int),
        0 <= x < g.len(),
    ensures
        dial_state(g, s, c, lim, i, dist, visited, in_bucket, buckets, -1, 0),
{
}

/// Dial's algorithm from `s` with weights at most `max_cost`: a ring of `max_cost + 1` buckets
/// indexed by distance modulo `max_cost + 1`, scanned in increasing distance. Returns `None` when
/// some weight exceeds `max_cost`. Distances of `usize::MAX - max_cost` or more count as not
/// reached.
pub fn dial_adj(adj: &Vec<Vec<(usize, u64)>>, s: usize, max_cost: usize) -> (r: Option<Vec<Option<usize>>>)
    requires
        wadj_ok(wview(adj@)),
        s < adj@.len(),
        max_cost < usize::MAX,
    ensures
        r is None <==> !weights_at_most(wview(adj@), max_cost as int),
        r matches Some(d) ==> shortest_below(wview(adj@), s, known_opt(d@), usize::MAX - max_cost),
{
    let ghost g = wview(adj@);
    let n = adj.len();
    let mut u0: usize = 0;
    while u0 < n
        invariant
            g == wview(adj@),
            n == g.len(),
            u0 <= n,
            forall|u: int, j: int| 0 <= u < u0 && 0 <= j < g[u].len() ==> (#[trigger] g[u][j]).1 <= max_cost,
        decreases n - u0,
    {
        let mut j: usize = 0;
        while j < adj[u0].len()
            invariant
                g == wview(adj@),
                n == g.len(),
                u0 < n,
                j <= g[u0 as int].len(),
                forall|u: int, j2: int| 0 <= u < u0 && 0 <= j2 < g[u].len() ==> (#[trigger] g[u][j2]).1 <= max_cost,
                forall|j2: int| 0 <= j2 < j ==> (#[trigger] g[u0 as int][j2]).1 <= max_cost,
            decreases g[u0 as int].len() - j,
        {
            let (_, w) = adj[u0][j];
            assert(g[u0 as int][j as int].1 == w);
            if w > max_cost as u64 {
                return None;
            }
            j += 1;
        }
        u0 += 1;
    }
    let c = max_cost;
    let m = c + 1;
    let lim = usize::MAX - c;
    let mut dist: Vec<Option<usize>> = vec![None; n];
    let mut visited = vec![false; n];
    let mut in_bucket = vec![false; n];
    let mut buckets: Vec<Vec<usize>> = Vec::new();
    let mut b: usize = 0;
    while b < m
        invariant
            b <= m,
            buckets@.len() == b,
            forall|k: int| 0 <= k < b ==> (#[trigger] buckets@[k])@.len() == 0,
        decreases m - b,
    {
        buckets.push(Vec::new());
        b += 1;
    }
    dist[s] = Some(0);
    buckets[0].push(s);
    in_bucket[s] = true;
    proof {
        let bv = buckets@.map_values(|b: Vec<usize>| b@);
        assert(bv[0] =~= seq![s]);
        assert forall|b: int| 1 <= b <= c implies (#[trigger] bv[b]).len() == 0 by {
            assert(bv[b] == buckets@[b]@);
        }
        assert(dist@ =~= Seq::new(n as nat, |v: int| None::<usize>).update(s as int, Some(0usize)));
        assert(visited@ =~= Seq::new(n as nat, |v: int| false));
        assert(in_bucket@ =~= Seq::new(n as nat, |v: int| false).update(s as int, true));
        lemma_dial_init(g, s, c as int, lim as int, dist@, visited@, in_bucket@, bv);
        lemma_count_none_marked(n as nat);
    }
    let mut i: usize = 0;
    loop
        invariant
            g == wview(adj@),
            wadj_ok(g),
            weights_at_most(g, c as int),
            n == g.len(),
            n <= usize::MAX,
            s < n,
            m == c + 1,
            c == max_cost,
            c < usize::MAX,
            lim == usize::MAX - c,
            i < lim,
            buckets@.len() == m,
            dial_state(g, s, c as int, lim as int, i as int, dist@, visited@, in_bucket@, buckets@.map_values(|b: Vec<usize>| b@), -1, 0),
        decreases count_unmarked(visited@),
    {
        let start = i;
        while buckets[i % m].len() == 0
            invariant
                g == wview(adj@),
                n == g.len(),
                m == c + 1,
                c == max_cost,
                c < usize::MAX,
                lim == usize::MAX - c,
                start < lim,
                start <= i <= start + c,
                wadj_ok(g),
                weights_at_most(g, c as int),
                s < n,
                n <= usize::MAX,
                buckets@.len() == m,
                dial_state(g, s, c as int, lim as int, i as int, dist@, visited@, in_bucket@, buckets@.map_values(|b: Vec<usize>| b@), -1, 0),
                forall|v: int| 0 <= v < n && !visited@[v] && (#[trigger] dist@[v]) is Some ==> dist@[v]->0 <= start + c,
            decreases start + c + 1 - i,
        {
            let ghost bv = buckets@.map_values(|b: Vec<usize>| b@);
            proof {
                assert(bv[(i % m) as int] == buckets@[(i % m) as int]@);
                lemma_dial_advance(g, s, c as int, lim as int, i as int, dist@, visited@, in_bucket@, bv);
            }
            if i - start == c {
                proof {
                    assert forall|v: int| 0 <= v < n && (#[trigger] dist@[v]) is Some implies visited@[v] by {
                        if !visited@[v] {
                            assert(dist@[v]->0 != i);
                        }
                    }
                    lemma_dial_done(g, s, c as int, lim as int, i as int, dist@, visited@, in_bucket@, bv);
                }
                return Some(dist);
            }
            i += 1;
        }
        let b0 = i % m;
        let last = buckets[b0].len() - 1;
        let x = buckets[b0][last];
        let ghost bv = buckets@.map_values(|b: Vec<usize>| b@);
        let rest = without(&buckets[b0], x);
        proof {
            assert(bv[b0 as int] == buckets@[b0 as int]@);
            assert(bv[b0 as int][last as int] == x);
            assert(bv[b0 as int].contains(x));
            lemma_dial_settle(g, s, c as int, lim as int, i as int, dist@, visited@, in_bucket@, bv, x, rest@);
            lemma_count_mark(visited@, x as int);
        }
        buckets[b0] = rest;
        in_bucket[x] = false;
        visited[x] = true;
        proof {
            assert(buckets@.map_values(|b: Vec<usize>| b@) =~= bv.update(b0 as int, rest@));
        }
        let dx = i;
        let deg = adj[x].len();
        let mut j: usize = 0;
        while j < deg
            invariant
                g == wview(adj@),
                wadj_ok(g),
                weights_at_most(g, c as int),
                n == g.len(),
                n <= usize::MAX,
                s < n,
                m == c + 1,
                c == max_cost,
                c < usize::MAX,
                lim == usize::MAX - c,
                dx == i,
                i < lim,
                x < n,
                deg == g[x as int].len(),
                j <= deg,
                buckets@.len() == m,
                visited@[x as int],
                dist@[x as int] == Some(dx),
                dial_state(g, s, c as int, lim as int, i as int, dist@, visited@, in_bucket@,
                    buckets@.map_values(|b: Vec<usize>| b@), x as int, j as int),
            decreases deg - j,
        {
            let (v, w) = adj[x][j];
            assert(g[x as int][j as int] == (v, w));
            let ghost bv0 = buckets@.map_values(|b: Vec<usize>| b@);
            assert(w <= c);
            let nc = dx + w as usize;
            let improves = nc < lim && match dist[v] {
                Some(old) => nc < old,
                None => true,
            };
            if improves {
                if in_bucket[v] {
                    let old = dist[v].unwrap();
                    let kept = without(&buckets[old % m], v);
                    proof {
                        assert(bv0[(old % m) as int] == buckets@[(old % m) as int]@);
                    }
                    buckets[old % m] = kept;
                }
                let ghost mid = buckets@.map_values(|b: Vec<usize>| b@);
                proof {
                    assert forall|bb: int| 0 <= bb <= c && !(in_bucket@[v as int] && bb == dist@[v as int]->0 as int % (c as int + 1))
                        implies #[trigger] mid[bb] == bv0[bb] by {}
                    assert(mid.len() == bv0.len());
                }
                buckets[nc % m].push(v);
                proof {
                    lemma_dial_lower(g, s, c as int, lim as int, i as int, dist@, visited@, in_bucket@, bv0, x as int, j as int, mid);
                    assert(buckets@.map_values(|b: Vec<usize>| b@) =~= mid.update((nc % m) as int, mid[(nc % m) as int].push(v)));
                    assert(mid.update((nc % m) as int, mid[(nc % m) as int].push(nc as usize)).update((nc % m) as int, mid[(nc % m) as int].push(v))
                        =~= mid.update((nc % m) as int, mid[(nc % m) as int].push(v)));
                }
                in_bucket[v] = true;
                dist[v] = Some(nc);
            } else {
                proof {
                    lemma_dial_keep(g, s, c as int, lim as int, i as int, dist@, visited@, in_bucket@, bv0, x as int, j as int);
                }
            }
            j += 1;
        }
        proof {
            lemma_dial_close(g, s, c as int, lim as int, i as int, dist@, visited@, in_bucket@,
                buckets@.map_values(|b: Vec<usize>| b@), x as int);
        }
    }
}

/// Dijkstra's and Dial's distances from the same source agree: every distance Dial finds is
/// Dijkstra's, and every distance Dijkstra finds below Dial's limit `usize::MAX - max_cost` is
/// Dial's.
pub proof fn lemma_dijkstra_dial_agree(
    adj: Seq<Seq<(usize, u64)>>,
    s: usize,
    dijkstra: Seq<u64>,
    dial: Seq<Option<usize>>,
    max_cost: usize,
)
    requires
        shortest_below(adj, s, known_u64(dijkstra), INFINITY as int),
        shortest_below(adj, s, known_opt(dial), usize::MAX - max_cost),
    ensures
        forall|v: int| 0 <= v < adj.len() && (#[trigger] dial[v]) is Some ==> dijkstra[v] == dial[v]->0,
        forall|v: int| 0 <= v < adj.len() && #[trigger] dijkstra[v] < usize::MAX - max_cost
            ==> dial[v] == Some(dijkstra[v] as usize),
{
    let l1 = usize::MAX - max_cost;
    let d1 = known_opt(dial);
    let d2 = known_u64(dijkstra);
    lemma_shortest_unique(adj, s, d1, l1, d2, INFINITY as int);
    assert forall|v: int| 0 <= v < adj.len() && (#[trigger] dial[v]) is Some implies dijkstra[v] == dial[v]->0 by {
        assert(d1[v] is Some);
        assert(d2[v] == d1[v]);
    }
    assert forall|v: int| 0 <= v < adj.len() && #[trigger] dijkstra[v] < usize::MAX - max_cost
        implies dial[v] == Some(dijkstra[v] as usize) by {
        assert(d2[v] is Some);
        assert(d1[v] == d2[v]);
    }
}

} // verus!
