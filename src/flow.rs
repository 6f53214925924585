//! Flow networks as an arena of paired edges, with Edmonds-Karp and Dinic maximum flow.
use vstd::prelude::*;
use crate::graph::GraphError;
use crate::reach::{
    closed, count_unmarked, lemma_closed_reach, lemma_count_mark, lemma_count_none_marked,
    lemma_lists_marked_push, lemma_reach_refl, lemma_reach_step, lists_marked, reachable,
};

verus! {

/// Marks a node that has no BFS level.
pub const UNREACHED: usize = usize::MAX;

/// One arena edge: its endpoints, its capacity and the flow on it.
#[derive(Debug, Clone, Copy, PartialEq, Eq, Structural)]
pub struct FlowEdge {
    pub from: usize,
    pub to: usize,
    pub cap: i64,
    pub flow: i64,
}

/// A flow network on the nodes `0..n`. Edge `2i` is a forward edge and edge `2i + 1` its
/// reverse, of capacity 0, whose flow is always the negation of the forward flow.
#[derive(Debug)]
pub struct FlowNetwork {
    pub(crate) n: usize,
    pub(crate) edges: Vec<FlowEdge>,
    pub(crate) out: Vec<Vec<usize>>,
}

/// Capacity left on an edge.
pub open spec fn residual(e: FlowEdge) -> int {
    e.cap - e.flow
}

/// The other edge of the pair that holds edge `e`.
pub open spec fn mate(e: int) -> int {
    if e % 2 == 0 {
        e + 1
    } else {
        e - 1
    }
}

/// `r` is the reverse of the forward edge `f`, and `f` carries a flow within its capacity.
pub open spec fn paired(f: FlowEdge, r: FlowEdge) -> bool {
    &&& r.from == f.to
    &&& r.to == f.from
    &&& r.cap == 0
    &&& r.flow == -f.flow
    &&& 0 <= f.flow <= f.cap
}

/// Edges `i` and `i + 1` form a forward edge and its reverse.
pub open spec fn pair_ok(edges: Seq<FlowEdge>, i: int) -> bool {
    paired(edges[i], edges[i + 1])
}

/// Well-formed arena over `n` nodes.
pub open spec fn arena_ok(n: nat, edges: Seq<FlowEdge>, out: Seq<Seq<usize>>) -> bool {
    &&& out.len() == n
    &&& edges.len() % 2 == 0
    &&& forall|i: int| 0 <= i < edges.len() ==> #[trigger] edges[i].from < n && edges[i].to < n
        && 0 <= edges[i].cap <= u32::MAX
    &&& forall|i: int| 0 <= i < edges.len() && i % 2 == 0 ==> #[trigger] pair_ok(edges, i)
    &&& forall|u: int, j: int|
        0 <= u < n && 0 <= j < out[u].len() ==> #[trigger] out[u][j] < edges.len() && edges[out[u][j] as int].from == u
}

/// Every arena edge is listed among the edges of its source.
pub open spec fn listed(edges: Seq<FlowEdge>, out: Seq<Seq<usize>>) -> bool {
    forall|e: int| 0 <= e < edges.len() ==> out[(#[trigger] edges[e]).from as int].contains(e as usize)
}

/// The residual graph as adjacency lists: an edge with capacity left leads to its target, any
/// other edge stands as a loop on its source, which changes no reachability.
pub open spec fn residual_adj(edges: Seq<FlowEdge>, out: Seq<Seq<usize>>) -> Seq<Seq<usize>> {
    Seq::new(
        out.len(),
        |u: int|
            Seq::new(
                out[u].len(),
                |j: int|
                    if residual(edges[out[u][j] as int]) > 0 {
                        edges[out[u][j] as int].to
                    } else {
                        u as usize
                    },
            ),
    )
}

/// Sum of the capacity left on the first `k` edges listed for `s`.
pub open spec fn slack_upto(edges: Seq<FlowEdge>, row: Seq<usize>, k: int) -> int
    decreases k,
{
    if k <= 0 {
        0
    } else {
        slack_upto(edges, row, k - 1) + residual(edges[row[k - 1] as int])
    }
}

proof fn lemma_slack_bounds(edges: Seq<FlowEdge>, row: Seq<usize>, k: int)
    requires
        0 <= k <= row.len(),
        forall|j: int| 0 <= j < row.len() ==> 0 <= #[trigger] residual(edges[row[j] as int]) <= u32::MAX,
    ensures
        0 <= slack_upto(edges, row, k) <= k * u32::MAX,
    decreases k,
{
    if k > 0 {
        lemma_slack_bounds(edges, row, k - 1);
    }
}

proof fn lemma_slack_decrease(e1: Seq<FlowEdge>, e2: Seq<FlowEdge>, row: Seq<usize>, k: int, j0: int, d: int)
    requires
        0 <= k <= row.len(),
        d >= 0,
        forall|j: int| 0 <= j < row.len() ==> #[trigger] residual(e2[row[j] as int]) <= residual(e1[row[j] as int]),
    ensures
        slack_upto(e2, row, k) <= slack_upto(e1, row, k),
        0 <= j0 < k && residual(e2[row[j0] as int]) <= residual(e1[row[j0] as int]) - d ==> slack_upto(e2, row, k)
            <= slack_upto(e1, row, k) - d,
    decreases k,
{
    if k > 0 {
        lemma_slack_decrease(e1, e2, row, k - 1, j0, d);
    }
}

/// Residual capacities stay within `0..=u32::MAX`, and an edge and its mate point in opposite
/// directions.
proof fn lemma_arena_facts(n: nat, edges: Seq<FlowEdge>, out: Seq<Seq<usize>>, e: int)
    requires
        arena_ok(n, edges, out),
        0 <= e < edges.len(),
    ensures
        0 <= residual(edges[e]) <= u32::MAX,
        -u32::MAX <= edges[e].flow <= u32::MAX,
        0 <= mate(e) < edges.len(),
        edges[mate(e)].from == edges[e].to,
        edges[mate(e)].to == edges[e].from,
{
    if e % 2 == 0 {
        assert(pair_ok(edges, e));
    } else {
        assert(pair_ok(edges, e - 1));
    }
}

/// The edges keep their endpoints and capacities; only flows may differ.
pub open spec fn same_shape(a: Seq<FlowEdge>, b: Seq<FlowEdge>) -> bool {
    &&& a.len() == b.len()
    &&& forall|i: int| 0 <= i < a.len() ==> (#[trigger] b[i]).from == a[i].from && b[i].to == a[i].to && b[i].cap == a[i].cap
}

/// A chain of edges from `t` back to `s`: edge `i` enters the node that edge `i + 1` leaves
/// from, levels drop by one along it, and each edge has at least `df` capacity left.
pub open spec fn back_chain(edges: Seq<FlowEdge>, path: Seq<usize>, lv: Seq<usize>, s: usize, df: int) -> bool {
    &&& path.len() >= 1
    &&& forall|i: int| 0 <= i < path.len() ==> #[trigger] path[i] < edges.len()
    &&& forall|i: int| 0 <= i < path.len() ==> residual(edges[#[trigger] path[i] as int]) >= df
    &&& forall|i: int|
        0 <= i < path.len() ==> edges[#[trigger] path[i] as int].from < lv.len() && edges[path[i] as int].to < lv.len()
            && lv[edges[path[i] as int].to as int] == lv[edges[path[i] as int].from as int] + 1
            && lv[edges[path[i] as int].to as int] + i == lv[edges[path[0] as int].to as int]
            && lv[edges[path[i] as int].to as int] != UNREACHED
    &&& forall|i: int| 0 <= i < path.len() - 1 ==> edges[#[trigger] path[i] as int].from == edges[path[i + 1] as int].to
    &&& edges[path.last() as int].from == s
    &&& s < lv.len()
    &&& lv[s as int] == 0
}

/// What a breadth-first search of the residual graph from `s` leaves: levels, and for each
/// reached node other than `s` the residual edge that first reached it from one level lower.
pub open spec fn bfs_levels(
    n: nat,
    edges: Seq<FlowEdge>,
    out: Seq<Seq<usize>>,
    s: usize,
    level: Seq<usize>,
    pred: Seq<usize>,
) -> bool {
    &&& level.len() == n
    &&& pred.len() == n
    &&& s < n
    &&& level[s as int] == 0
    &&& forall|x: int| 0 <= x < n && #[trigger] level[x] != UNREACHED ==> level[x] < n
    &&& forall|x: int| 0 <= x < n && #[trigger] level[x] == 0 ==> x == s
    &&& forall|x: int|
        0 <= x < n && x != s && #[trigger] level[x] != UNREACHED ==> {
            let e = pred[x] as int;
            let u = edges[e].from;
            &&& 0 <= e < edges.len()
            &&& edges[e].to == x
            &&& residual(edges[e]) > 0
            &&& u < n
            &&& level[u as int] != UNREACHED
            &&& level[x] == level[u as int] + 1
            &&& out[u as int].contains(pred[x])
        }
    &&& forall|x: int, j: int|
        0 <= x < n && level[x] != UNREACHED && 0 <= j < out[x].len() && residual(edges[out[x][j] as int]) > 0
            ==> #[trigger] level[edges[out[x][j] as int].to as int] != UNREACHED
                && level[edges[out[x][j] as int].to as int] <= level[x] + 1
}

/// When the search does not reach `t`, the residual graph has no path from `s` to `t`.
pub proof fn lemma_unreached_no_path(
    n: nat,
    edges: Seq<FlowEdge>,
    out: Seq<Seq<usize>>,
    s: usize,
    t: usize,
    level: Seq<usize>,
    pred: Seq<usize>,
)
    requires
        arena_ok(n, edges, out),
        bfs_levels(n, edges, out, s, level, pred),
        t < n,
        level[t as int] == UNREACHED,
    ensures
        !reachable(residual_adj(edges, out), s, t),
{
    let adj = residual_adj(edges, out);
    let marked = Seq::new(n, |x: int| level[x] != UNREACHED);
    assert(closed(adj, marked)) by {
        assert forall|x: int, j: int| 0 <= x < adj.len() && marked[x] && 0 <= j < adj[x].len()
            implies #[trigger] marked[adj[x][j] as int] by {
            if residual(edges[out[x][j] as int]) > 0 {
                assert(level[edges[out[x][j] as int].to as int] != UNREACHED);
            }
        }
    }
    if reachable(adj, s, t) {
        lemma_closed_reach(adj, marked, s, t);
    }
}

/// An edge of the level graph: it climbs exactly one level and has capacity left.
pub open spec fn admissible(edges: Seq<FlowEdge>, lv: Seq<usize>, e: int) -> bool {
    &&& lv[edges[e].from as int] != UNREACHED
    &&& lv[edges[e].to as int] != UNREACHED
    &&& lv[edges[e].to as int] == lv[edges[e].from as int] + 1
    &&& residual(edges[e]) > 0
}

/// Node `y` has had every edge tried in this phase and is not the sink.
pub open spec fn exhausted(out: Seq<Seq<usize>>, cursor: Seq<usize>, t: usize, y: usize) -> bool {
    y != t && cursor[y as int] == out[y as int].len()
}

/// Every edge below a node's cursor is out of the level graph or leads to an exhausted node.
pub open spec fn blocked_below(
    n: nat,
    edges: Seq<FlowEdge>,
    out: Seq<Seq<usize>>,
    lv: Seq<usize>,
    cursor: Seq<usize>,
    t: usize,
) -> bool {
    &&& cursor.len() == n
    &&& forall|x: int| 0 <= x < n ==> #[trigger] cursor[x] <= out[x].len()
    &&& forall|x: int, j: int|
        0 <= x < n && 0 <= j < cursor[x] ==> !admissible(edges, lv, #[trigger] out[x][j] as int)
            || exhausted(out, cursor, t, edges[out[x][j] as int].to)
}

/// Sum over the nodes `0..k` of the edges not yet tried.
pub open spec fn cursor_room(out: Seq<Seq<usize>>, cursor: Seq<usize>, k: int) -> int
    decreases k,
{
    if k <= 0 {
        0
    } else {
        cursor_room(out, cursor, k - 1) + out[k - 1].len() - cursor[k - 1]
    }
}

pub(crate) proof fn lemma_cursor_room_step(out: Seq<Seq<usize>>, cursor: Seq<usize>, k: int, u: int)
    requires
        0 <= u < cursor.len(),
        k <= cursor.len(),
        cursor[u] < usize::MAX,
    ensures
        u < k ==> cursor_room(out, cursor.update(u, (cursor[u] + 1) as usize), k) == cursor_room(out, cursor, k) - 1,
        u >= k ==> cursor_room(out, cursor.update(u, (cursor[u] + 1) as usize), k) == cursor_room(out, cursor, k),
    decreases k,
{
    if k > 0 {
        lemma_cursor_room_step(out, cursor, k - 1, u);
    }
}

pub(crate) proof fn lemma_cursor_room_nonneg(out: Seq<Seq<usize>>, cursor: Seq<usize>, k: int)
    requires
        k <= cursor.len(),
        k <= out.len(),
        forall|x: int| 0 <= x < k ==> #[trigger] cursor[x] <= out[x].len(),
    ensures
        cursor_room(out, cursor, k) >= 0,
    decreases k,
{
    if k > 0 {
        lemma_cursor_room_nonneg(out, cursor, k - 1);
    }
}

/// Net flow out of `v` over the first `k` arena edges. A reverse edge carries the negated flow
/// of its forward edge, so over the whole arena this is the flow leaving `v` minus the flow
/// entering it.
pub open spec fn net_out(edges: Seq<FlowEdge>, v: usize, k: int) -> int
    decreases k,
{
    if k <= 0 {
        0
    } else {
        net_out(edges, v, k - 1) + if edges[k - 1].from == v {
            edges[k - 1].flow as int
        } else {
            0
        }
    }
}

proof fn lemma_net_out_update(edges: Seq<FlowEdge>, e: int, fl: i64, v: usize, k: int)
    requires
        0 <= e < edges.len(),
        k <= edges.len(),
    ensures
        net_out(edges.update(e, FlowEdge { flow: fl, ..edges[e] }), v, k) == net_out(edges, v, k) + if e < k
            && edges[e].from == v {
            fl - edges[e].flow
        } else {
            0
        },
    decreases k,
{
    if k > 0 {
        lemma_net_out_update(edges, e, fl, v, k - 1);
    }
}

#[verifier::spinoff_prover]
#[verifier::rlimit(50)]
/// One step of an augmentation: edge `path[i]` gains `df` units of flow and its mate loses
/// them. The arena stays well formed, later chain edges are untouched, and only edges that lead
/// one level down gain capacity.
proof fn lemma_augment_step(
    n: nat,
    e0: Seq<FlowEdge>,
    cur: Seq<FlowEdge>,
    nw: Seq<FlowEdge>,
    out: Seq<Seq<usize>>,
    path: Seq<usize>,
    lv: Seq<usize>,
    s: usize,
    df: int,
    i: int,
)
    requires
        arena_ok(n, cur, out),
        arena_ok(n, e0, out),
        same_shape(e0, cur),
        back_chain(e0, path, lv, s, df),
        df >= 1,
        0 <= i < path.len(),
        cur[path[i] as int] == e0[path[i] as int],
        nw == cur.update(path[i] as int, FlowEdge { flow: (cur[path[i] as int].flow + df) as i64, ..cur[path[i] as int] })
            .update(mate(path[i] as int), FlowEdge { flow: (cur[mate(path[i] as int)].flow - df) as i64, ..cur[mate(path[i] as int)] }),
    ensures
        arena_ok(n, nw, out),
        same_shape(e0, nw),
        forall|k: int| i < k < path.len() ==> nw[#[trigger] path[k] as int] == cur[path[k] as int],
        residual(nw[path[i] as int]) == residual(cur[path[i] as int]) - df,
        forall|x: int| 0 <= x < nw.len() && x != path[i] as int ==> #[trigger] residual(nw[x]) <= residual(cur[x])
            || (x == mate(path[i] as int) && e0[x].to < lv.len() && e0[x].from < lv.len()
                && lv[e0[x].to as int] + 1 == lv[e0[x].from as int] && e0[x].from != s),
{
    let e = path[i] as int;
    let m = mate(e);
    lemma_arena_facts(n, e0, out, e);
    lemma_arena_facts(n, cur, out, e);
    assert(residual(e0[e]) >= df);
    assert forall|k: int| i < k < path.len() implies nw[#[trigger] path[k] as int] == cur[path[k] as int] by {
        let pk = path[k] as int;
        let top = lv[e0[path[0] as int].to as int];
        assert(lv[e0[pk].to as int] + k == top);
        assert(lv[e0[e].to as int] + i == top);
        if pk == m {
            assert(lv[e0[pk].to as int] == lv[e0[pk].from as int] + 1);
            assert(lv[e0[e].to as int] == lv[e0[e].from as int] + 1);
        }
    }
    assert forall|x: int| 0 <= x < nw.len() && x % 2 == 0 implies #[trigger] pair_ok(nw, x) by {
        assert(pair_ok(cur, x));
        if e % 2 == 0 {
            assert(pair_ok(cur, e));
        } else {
            assert(pair_ok(cur, e - 1));
        }
    }
    assert forall|x: int| 0 <= x < nw.len() implies #[trigger] nw[x].from < n && nw[x].to < n && 0 <= nw[x].cap <= u32::MAX by {
        assert(cur[x].from < n);
    }
    assert(lv[e0[e].to as int] == lv[e0[e].from as int] + 1);
}

/// Edge `e` is among the first `k` edges of `path`.
pub open spec fn on_chain(path: Seq<usize>, k: int, e: int) -> bool {
    exists|i: int| 0 <= i < k && #[trigger] path[i] as int == e
}

/// Edge `e` is the mate of one of the first `k` edges of `path`.
pub open spec fn mate_on_chain(path: Seq<usize>, k: int, e: int) -> bool {
    exists|i: int| 0 <= i < k && mate(#[trigger] path[i] as int) == e
}

/// Two places of a chain hold different edges, and neither is the other's mate.
proof fn lemma_chain_apart(n: nat, e0: Seq<FlowEdge>, out: Seq<Seq<usize>>, path: Seq<usize>, lv: Seq<usize>, s: usize,
    df: int, i: int, k: int)
    requires
        arena_ok(n, e0, out),
        back_chain(e0, path, lv, s, df),
        0 <= i < path.len(),
        0 <= k < path.len(),
        i != k,
    ensures
        path[i] != path[k],
        path[i] as int != mate(path[k] as int),
{
    let top = lv[e0[path[0] as int].to as int];
    let a = path[i] as int;
    let b = path[k] as int;
    assert(lv[e0[a].to as int] + i == top);
    assert(lv[e0[b].to as int] + k == top);
    assert(lv[e0[a].to as int] == lv[e0[a].from as int] + 1);
    assert(lv[e0[b].to as int] == lv[e0[b].from as int] + 1);
    lemma_arena_facts(n, e0, out, b);
}

#[verifier::spinoff_prover]
#[verifier::rlimit(50)]
/// One augmentation step keeps the record of which edges gained and lost `df`.
proof fn lemma_flow_step(n: nat, e0: Seq<FlowEdge>, cur: Seq<FlowEdge>, nw: Seq<FlowEdge>, out: Seq<Seq<usize>>,
    path: Seq<usize>, lv: Seq<usize>, s: usize, df: int, i: int)
    requires
        arena_ok(n, e0, out),
        back_chain(e0, path, lv, s, df),
        0 <= i < path.len(),
        e0.len() == cur.len(),
        forall|q: int| 0 <= q < e0.len() ==> (#[trigger] cur[q]).flow
            == e0[q].flow + (if on_chain(path, i, q) { df } else { 0 }) - (if mate_on_chain(path, i, q) { df } else { 0 }),
        nw.len() == cur.len(),
        nw[path[i] as int].flow == cur[path[i] as int].flow + df,
        nw[mate(path[i] as int)].flow == cur[mate(path[i] as int)].flow - df,
        forall|q: int| 0 <= q < nw.len() && q != path[i] as int && q != mate(path[i] as int) ==> #[trigger] nw[q] == cur[q],
    ensures
        forall|q: int| 0 <= q < e0.len() ==> (#[trigger] nw[q]).flow
            == e0[q].flow + (if on_chain(path, i + 1, q) { df } else { 0 }) - (if mate_on_chain(path, i + 1, q) { df } else { 0 }),
{
    let e = path[i] as int;
    let m = mate(e);
    lemma_arena_facts(n, e0, out, e);
    assert(!on_chain(path, i, e)) by {
        if on_chain(path, i, e) {
            let k = choose|k: int| 0 <= k < i && #[trigger] path[k] as int == e;
            lemma_chain_apart(n, e0, out, path, lv, s, df, i, k);
        }
    }
    assert(!mate_on_chain(path, i, e)) by {
        if mate_on_chain(path, i, e) {
            let k = choose|k: int| 0 <= k < i && mate(#[trigger] path[k] as int) == e;
            lemma_chain_apart(n, e0, out, path, lv, s, df, i, k);
        }
    }
    assert(!on_chain(path, i, m)) by {
        if on_chain(path, i, m) {
            let k = choose|k: int| 0 <= k < i && #[trigger] path[k] as int == m;
            lemma_chain_apart(n, e0, out, path, lv, s, df, k, i);
        }
    }
    assert(!mate_on_chain(path, i, m)) by {
        if mate_on_chain(path, i, m) {
            let k = choose|k: int| 0 <= k < i && mate(#[trigger] path[k] as int) == m;
            lemma_chain_apart(n, e0, out, path, lv, s, df, i, k);
            lemma_arena_facts(n, e0, out, path[k] as int);
        }
    }
    assert(!on_chain(path, i + 1, m)) by {
        if on_chain(path, i + 1, m) {
            let k = choose|k: int| 0 <= k < i + 1 && #[trigger] path[k] as int == m;
            if k < i {
                lemma_chain_apart(n, e0, out, path, lv, s, df, k, i);
            }
        }
    }
    assert(!mate_on_chain(path, i + 1, e)) by {
        if mate_on_chain(path, i + 1, e) {
            let k = choose|k: int| 0 <= k < i + 1 && mate(#[trigger] path[k] as int) == e;
            if k < i {
                lemma_chain_apart(n, e0, out, path, lv, s, df, i, k);
            }
        }
    }
    assert(on_chain(path, i + 1, e)) by {
        assert(path[i] as int == e);
    }
    assert(mate_on_chain(path, i + 1, m)) by {
        assert(mate(path[i] as int) == m);
    }
    assert forall|q: int| 0 <= q < e0.len() implies (#[trigger] nw[q]).flow
        == e0[q].flow + (if on_chain(path, i + 1, q) { df } else { 0 })
        - (if mate_on_chain(path, i + 1, q) { df } else { 0 }) by {
        if q != e && q != m {
            if on_chain(path, i + 1, q) {
                let k = choose|k: int| 0 <= k < i + 1 && #[trigger] path[k] as int == q;
                assert(k != i);
                assert(on_chain(path, i, q));
            }
            if mate_on_chain(path, i + 1, q) {
                let k = choose|k: int| 0 <= k < i + 1 && mate(#[trigger] path[k] as int) == q;
                assert(k != i);
                assert(mate_on_chain(path, i, q));
            }
            if on_chain(path, i, q) {
                let k = choose|k: int| 0 <= k < i && #[trigger] path[k] as int == q;
                assert(on_chain(path, i + 1, q));
            }
            if mate_on_chain(path, i, q) {
                let k = choose|k: int| 0 <= k < i && mate(#[trigger] path[k] as int) == q;
                assert(mate_on_chain(path, i + 1, q));
            }
        }
    }
}

#[verifier::spinoff_prover]
#[verifier::rlimit(100)]
/// After one augmentation step the loop's record of the arena holds for one more edge.
proof fn lemma_augment_post(n: nat, e0: Seq<FlowEdge>, cur: Seq<FlowEdge>, nw0: Seq<FlowEdge>, out: Seq<Seq<usize>>,
    path: Seq<usize>, lv: Seq<usize>, s: usize, df: int, i: int)
    requires
        arena_ok(n, cur, out),
        listed(cur, out),
        arena_ok(n, e0, out),
        same_shape(e0, cur),
        back_chain(e0, path, lv, s, df),
        df >= 1,
        0 <= i < path.len(),
        cur[path[i] as int] == e0[path[i] as int],
        nw0 == cur.update(path[i] as int, FlowEdge { flow: (cur[path[i] as int].flow + df) as i64, ..cur[path[i] as int] })
            .update(mate(path[i] as int), FlowEdge { flow: (cur[mate(path[i] as int)].flow - df) as i64, ..cur[mate(path[i] as int)] }),
        forall|x: int| 0 <= x < e0.len() && e0[x].from == s ==> #[trigger] residual(cur[x]) <= residual(e0[x]),
        forall|x: int| 0 <= x < e0.len() && #[trigger] residual(cur[x]) > residual(e0[x])
            ==> e0[x].to < lv.len() && e0[x].from < lv.len() && lv[e0[x].to as int] + 1 == lv[e0[x].from as int],
        forall|v: usize| #[trigger] net_out(cur, v, e0.len() as int) == net_out(e0, v, e0.len() as int)
            + (if i > 0 && v == e0[path[i - 1] as int].from { df } else { 0 })
            - (if i > 0 && v == e0[path[0] as int].to { df } else { 0 }),
        forall|q: int| 0 <= q < e0.len() ==> (#[trigger] cur[q]).flow
            == e0[q].flow + (if on_chain(path, i, q) { df } else { 0 }) - (if mate_on_chain(path, i, q) { df } else { 0 }),
    ensures
        arena_ok(n, nw0, out),
        listed(nw0, out),
        same_shape(e0, nw0),
        forall|k: int| i < k < path.len() ==> nw0[#[trigger] path[k] as int] == e0[path[k] as int],
        residual(nw0[path[i] as int]) == residual(e0[path[i] as int]) - df,
        forall|x: int| 0 <= x < e0.len() && e0[x].from == s ==> #[trigger] residual(nw0[x]) <= residual(e0[x]),
        forall|x: int| 0 <= x < e0.len() && #[trigger] residual(nw0[x]) > residual(e0[x])
            ==> e0[x].to < lv.len() && e0[x].from < lv.len() && lv[e0[x].to as int] + 1 == lv[e0[x].from as int],
        forall|v: usize| #[trigger] net_out(nw0, v, e0.len() as int) == net_out(e0, v, e0.len() as int)
            + (if v == e0[path[i] as int].from { df } else { 0 })
            - (if v == e0[path[0] as int].to { df } else { 0 }),
        forall|q: int| 0 <= q < e0.len() ==> (#[trigger] nw0[q]).flow
            == e0[q].flow + (if on_chain(path, i + 1, q) { df } else { 0 }) - (if mate_on_chain(path, i + 1, q) { df } else { 0 }),
{
    let e = path[i] as int;
    let m = mate(e);
    lemma_arena_facts(n, cur, out, e);
    lemma_arena_facts(n, cur, out, m);
    assert forall|k: int| i < k < path.len() implies cur[#[trigger] path[k] as int] == e0[path[k] as int] by {
        assert(cur[path[k] as int].flow == e0[path[k] as int].flow) by {
            if on_chain(path, i, path[k] as int) {
                let k2 = choose|k2: int| 0 <= k2 < i && #[trigger] path[k2] as int == path[k] as int;
                lemma_chain_apart(n, e0, out, path, lv, s, df, k, k2);
            }
            if mate_on_chain(path, i, path[k] as int) {
                let k2 = choose|k2: int| 0 <= k2 < i && mate(#[trigger] path[k2] as int) == path[k] as int;
                lemma_chain_apart(n, e0, out, path, lv, s, df, k, k2);
            }
        }
    }
    lemma_augment_step(n, e0, cur, nw0, out, path, lv, s, df, i);
    let nw = nw0;
    lemma_flow_step(n, e0, cur, nw, out, path, lv, s, df, i);
    assert(listed(nw, out)) by {
        assert forall|q: int| 0 <= q < nw.len() implies out[(#[trigger] nw[q]).from as int].contains(q as usize) by {
            assert(nw[q].from == cur[q].from);
        }
    }
    let mid = cur.update(e, FlowEdge { flow: (cur[e].flow + df) as i64, ..cur[e] });
    assert(nw == mid.update(m, FlowEdge { flow: (cur[m].flow - df) as i64, ..cur[m] }));
    assert(cur[e] == e0[e]);
    lemma_arena_facts(n, e0, out, e);
    let a = e0[e].from;
    let b = e0[e].to;
    let top_node = e0[path[0] as int].to;
    assert(lv[b as int] + i == lv[top_node as int]);
    assert(lv[b as int] == lv[a as int] + 1);
    if i > 0 {
        assert(e0[path[i - 1] as int].from == e0[path[i] as int].to);
    }
    assert forall|v: usize| #[trigger] net_out(nw, v, e0.len() as int) == net_out(e0, v, e0.len() as int)
        + (if i + 1 > 0 && v == e0[path[i] as int].from { df } else { 0 })
        - (if i + 1 > 0 && v == e0[path[0] as int].to { df } else { 0 }) by {
        lemma_net_out_update(cur, e, (cur[e].flow + df) as i64, v, e0.len() as int);
        lemma_net_out_update(mid, m, (cur[m].flow - df) as i64, v, e0.len() as int);
        assert(mid[m] == cur[m]);
        assert(cur[m].from == b);
        assert(a != top_node);
        if i == 0 {
            assert(b == top_node);
        }
    }
    assert forall|x: int| 0 <= x < e0.len() && #[trigger] residual(nw[x]) > residual(e0[x])
        implies e0[x].to < lv.len() && e0[x].from < lv.len() && lv[e0[x].to as int] + 1 == lv[e0[x].from as int] by {
        if x != e && residual(nw[x]) > residual(cur[x]) {
        } else if x != e {
            assert(residual(cur[x]) > residual(e0[x]));
        }
    }
    assert forall|x: int| 0 <= x < e0.len() && e0[x].from == s
        implies #[trigger] residual(nw[x]) <= residual(e0[x]) by {
        assert(residual(cur[x]) <= residual(e0[x]));
    }
}

/// Flows changed only by raising capacity on edges that lead one level down keep every blocked
/// edge blocked.
proof fn lemma_blocked_after_push(
    n: nat,
    e1: Seq<FlowEdge>,
    e2: Seq<FlowEdge>,
    out: Seq<Seq<usize>>,
    lv: Seq<usize>,
    cursor: Seq<usize>,
    t: usize,
)
    requires
        arena_ok(n, e1, out),
        same_shape(e1, e2),
        blocked_below(n, e1, out, lv, cursor, t),
        forall|e: int| 0 <= e < e1.len() && #[trigger] residual(e2[e]) > residual(e1[e])
            ==> e1[e].to < lv.len() && e1[e].from < lv.len() && lv[e1[e].to as int] + 1 == lv[e1[e].from as int],
    ensures
        blocked_below(n, e2, out, lv, cursor, t),
{
    assert forall|x: int, j: int| 0 <= x < n && 0 <= j < cursor[x] implies !admissible(e2, lv, #[trigger] out[x][j] as int)
        || exhausted(out, cursor, t, e2[out[x][j] as int].to) by {
        let e = out[x][j] as int;
        assert(e2[e].from == e1[e].from && e2[e].to == e1[e].to);
        assert(!admissible(e1, lv, e) || exhausted(out, cursor, t, e1[e].to));
        if admissible(e2, lv, e) && residual(e1[e]) <= 0 {
            assert(residual(e2[e]) > residual(e1[e]));
        }
    }
}

/// Levels as a breadth-first search leaves them: `s` alone on level 0, every level below `n`.
pub open spec fn level_facts(n: nat, level: Seq<usize>, s: usize) -> bool {
    &&& level.len() == n
    &&& s < n
    &&& level[s as int] == 0
    &&& forall|x: int| 0 <= x < n && #[trigger] level[x] != UNREACHED ==> level[x] < n
    &&& forall|x: int| 0 <= x < n && #[trigger] level[x] == 0 ==> x == s
}

/// State of the level-graph search: `path` is an admissible path from `s` to `u` whose every edge
/// is the one under its source's cursor, and edges below the cursors are blocked.
#[verifier::opaque]
pub open spec fn dfs_ok(
    n: nat,
    edges: Seq<FlowEdge>,
    out: Seq<Seq<usize>>,
    level: Seq<usize>,
    cursor: Seq<usize>,
    path: Seq<usize>,
    u: usize,
    s: usize,
    t: usize,
) -> bool {
    &&& level_facts(n, level, s)
    &&& t < n
    &&& blocked_below(n, edges, out, level, cursor, t)
    &&& u < n
    &&& level[u as int] != UNREACHED
    &&& path.len() == level[u as int]
    &&& path.len() == 0 ==> u == s
    &&& path.len() > 0 ==> edges[path[0] as int].from == s && edges[path.last() as int].to == u
    &&& forall|k: int| 0 <= k < path.len() ==> #[trigger] path[k] < edges.len()
    &&& forall|k: int|
        0 <= k < path.len() ==> edges[#[trigger] path[k] as int].from < n && edges[path[k] as int].to < n
            && level[edges[path[k] as int].from as int] == k && level[edges[path[k] as int].to as int] == k + 1
            && admissible(edges, level, path[k] as int)
    &&& forall|k: int| 0 <= k < path.len() - 1 ==> edges[#[trigger] path[k] as int].to == edges[path[k + 1] as int].from
    &&& forall|k: int|
        0 <= k < path.len() ==> cursor[edges[#[trigger] path[k] as int].from as int] < out[edges[path[k] as int].from as int].len()
            && out[edges[path[k] as int].from as int][cursor[edges[path[k] as int].from as int] as int] == path[k]
}

proof fn lemma_dfs_init(n: nat, edges: Seq<FlowEdge>, out: Seq<Seq<usize>>, level: Seq<usize>, cursor: Seq<usize>, s: usize, t: usize)
    requires
        level_facts(n, level, s),
        t < n,
        blocked_below(n, edges, out, level, cursor, t),
    ensures
        dfs_ok(n, edges, out, level, cursor, Seq::empty(), s, s, t),
{
    reveal(dfs_ok);
}

proof fn lemma_dfs_bounds(
    n: nat, edges: Seq<FlowEdge>, out: Seq<Seq<usize>>, level: Seq<usize>, cursor: Seq<usize>,
    path: Seq<usize>, u: usize, s: usize, t: usize,
)
    requires
        dfs_ok(n, edges, out, level, cursor, path, u, s, t),
        out.len() == n,
    ensures
        cursor[u as int] <= out[u as int].len(),
        cursor_room(out, cursor, n as int) >= 0,
        path.len() < n,
        u < n,
        level[u as int] < n,
        cursor.len() == n,
{
    reveal(dfs_ok);
    lemma_cursor_room_nonneg(out, cursor, n as int);
}

proof fn lemma_dfs_found(
    n: nat, edges: Seq<FlowEdge>, out: Seq<Seq<usize>>, level: Seq<usize>, cursor: Seq<usize>,
    path: Seq<usize>, u: usize, s: usize, t: usize,
)
    requires
        dfs_ok(n, edges, out, level, cursor, path, u, s, t),
        arena_ok(n, edges, out),
        u == t,
        s != t,
    ensures
        path.len() >= 1,
        s < level.len(),
        level[s as int] == 0,
        edges[path[0] as int].from == s,
        edges[path.last() as int].to == t,
        forall|k: int| 0 <= k < path.len() ==> #[trigger] path[k] < edges.len(),
        forall|k: int|
            0 <= k < path.len() ==> edges[#[trigger] path[k] as int].from < level.len()
                && edges[path[k] as int].to < level.len()
                && level[edges[path[k] as int].from as int] == k && level[edges[path[k] as int].to as int] == k + 1
                && level[edges[path[k] as int].to as int] != UNREACHED
                && residual(edges[path[k] as int]) >= 1
                && out[edges[path[k] as int].from as int].contains(path[k]),
        forall|k: int| 0 <= k < path.len() - 1 ==> edges[#[trigger] path[k] as int].to == edges[path[k + 1] as int].from,
        blocked_below(n, edges, out, level, cursor, t),
{
    reveal(dfs_ok);
    assert forall|k: int| 0 <= k < path.len() implies edges[#[trigger] path[k] as int].from < level.len()
        && edges[path[k] as int].to < level.len()
        && level[edges[path[k] as int].from as int] == k && level[edges[path[k] as int].to as int] == k + 1
        && level[edges[path[k] as int].to as int] != UNREACHED
        && residual(edges[path[k] as int]) >= 1
        && out[edges[path[k] as int].from as int].contains(path[k]) by {
        let x = edges[path[k] as int].from as int;
        assert(out[x][cursor[x] as int] == path[k]);
    }
}

#[verifier::spinoff_prover]
#[verifier::rlimit(50)]
proof fn lemma_dfs_advance(
    n: nat, edges: Seq<FlowEdge>, out: Seq<Seq<usize>>, level: Seq<usize>, cursor: Seq<usize>,
    path: Seq<usize>, u: usize, s: usize, t: usize,
)
    requires
        dfs_ok(n, edges, out, level, cursor, path, u, s, t),
        arena_ok(n, edges, out),
        cursor[u as int] < out[u as int].len(),
        admissible(edges, level, out[u as int][cursor[u as int] as int] as int),
    ensures
        dfs_ok(n, edges, out, level, cursor, path.push(out[u as int][cursor[u as int] as int]),
            edges[out[u as int][cursor[u as int] as int] as int].to, s, t),
{
    reveal(dfs_ok);
    let e = out[u as int][cursor[u as int] as int];
    let p2 = path.push(e);
    assert(edges[e as int].from == u);
    assert(edges[e as int].to < n);
    assert(level[edges[e as int].to as int] == path.len() + 1);
    if path.len() > 0 {
        assert(edges[path[path.len() - 1] as int].to == u);
    }
    assert forall|k: int| 0 <= k < p2.len() implies cursor[edges[#[trigger] p2[k] as int].from as int] < out[edges[p2[k] as int].from as int].len()
        && out[edges[p2[k] as int].from as int][cursor[edges[p2[k] as int].from as int] as int] == p2[k] by {
        if k < path.len() {
            assert(p2[k] == path[k]);
        }
    }
    assert forall|k: int| 0 <= k < p2.len() implies edges[#[trigger] p2[k] as int].from < n && edges[p2[k] as int].to < n
        && level[edges[p2[k] as int].from as int] == k && level[edges[p2[k] as int].to as int] == k + 1
        && admissible(edges, level, p2[k] as int) by {
        if k < path.len() {
            assert(p2[k] == path[k]);
        }
    }
    assert forall|k: int| 0 <= k < p2.len() - 1 implies edges[#[trigger] p2[k] as int].to == edges[p2[k + 1] as int].from by {
        assert(p2[k] == path[k]);
        if k < path.len() - 1 {
            assert(p2[k + 1] == path[k + 1]);
        }
    }
    assert forall|k: int| 0 <= k < p2.len() implies #[trigger] p2[k] < edges.len() by {
        if k < path.len() {
            assert(p2[k] == path[k]);
        }
    }
}

proof fn lemma_dfs_skip(
    n: nat, edges: Seq<FlowEdge>, out: Seq<Seq<usize>>, level: Seq<usize>, cursor: Seq<usize>,
    path: Seq<usize>, u: usize, s: usize, t: usize,
)
    requires
        dfs_ok(n, edges, out, level, cursor, path, u, s, t),
        arena_ok(n, edges, out),
        cursor[u as int] < out[u as int].len(),
        out[u as int].len() <= usize::MAX,
        !admissible(edges, level, out[u as int][cursor[u as int] as int] as int),
    ensures
        dfs_ok(n, edges, out, level, cursor.update(u as int, (cursor[u as int] + 1) as usize), path, u, s, t),
        cursor_room(out, cursor.update(u as int, (cursor[u as int] + 1) as usize), n as int)
            == cursor_room(out, cursor, n as int) - 1,
{
    reveal(dfs_ok);
    let c2 = cursor.update(u as int, (cursor[u as int] + 1) as usize);
    lemma_cursor_room_step(out, cursor, n as int, u as int);
    assert forall|k: int| 0 <= k < path.len() implies c2[edges[#[trigger] path[k] as int].from as int]
        < out[edges[path[k] as int].from as int].len()
        && out[edges[path[k] as int].from as int][c2[edges[path[k] as int].from as int] as int] == path[k] by {
        assert(edges[path[k] as int].from != u);
    }
    assert(blocked_below(n, edges, out, level, c2, t)) by {
        assert forall|x: int, j: int| 0 <= x < n && 0 <= j < c2[x] implies !admissible(edges, level, #[trigger] out[x][j] as int)
            || exhausted(out, c2, t, edges[out[x][j] as int].to) by {
            if !(x == u && j == cursor[u as int]) {
                assert(!admissible(edges, level, out[x][j] as int) || exhausted(out, cursor, t, edges[out[x][j] as int].to));
            }
        }
    }
}

#[verifier::spinoff_prover]
#[verifier::rlimit(50)]
proof fn lemma_dfs_retreat(
    n: nat, edges: Seq<FlowEdge>, out: Seq<Seq<usize>>, level: Seq<usize>, cursor: Seq<usize>,
    path: Seq<usize>, u: usize, s: usize, t: usize,
)
    requires
        dfs_ok(n, edges, out, level, cursor, path, u, s, t),
        arena_ok(n, edges, out),
        forall|x: int| 0 <= x < n ==> #[trigger] out[x].len() <= usize::MAX,
        u != t,
        cursor[u as int] == out[u as int].len(),
        path.len() > 0,
    ensures
        path.last() < edges.len(),
        edges[path.last() as int].from < n,
        cursor[edges[path.last() as int].from as int] < usize::MAX,
        dfs_ok(n, edges, out, level,
            cursor.update(edges[path.last() as int].from as int, (cursor[edges[path.last() as int].from as int] + 1) as usize),
            path.drop_last(), edges[path.last() as int].from, s, t),
        cursor_room(out, cursor.update(edges[path.last() as int].from as int, (cursor[edges[path.last() as int].from as int] + 1) as usize), n as int)
            == cursor_room(out, cursor, n as int) - 1,
{
    reveal(dfs_ok);
    let last = path.len() - 1;
    let e = path[last];
    let p = edges[e as int].from;
    assert(cursor[edges[path[last] as int].from as int] < out[edges[path[last] as int].from as int].len());
    let c2 = cursor.update(p as int, (cursor[p as int] + 1) as usize);
    let p2 = path.drop_last();
    lemma_cursor_room_step(out, cursor, n as int, p as int);
    assert forall|k: int| 0 <= k < p2.len() implies c2[edges[#[trigger] p2[k] as int].from as int]
        < out[edges[p2[k] as int].from as int].len()
        && out[edges[p2[k] as int].from as int][c2[edges[p2[k] as int].from as int] as int] == p2[k] by {
        assert(p2[k] == path[k]);
        assert(edges[path[k] as int].from != p);
    }
    assert(blocked_below(n, edges, out, level, c2, t)) by {
        assert forall|x: int, j: int| 0 <= x < n && 0 <= j < c2[x] implies !admissible(edges, level, #[trigger] out[x][j] as int)
            || exhausted(out, c2, t, edges[out[x][j] as int].to) by {
            if !(x == p && j == cursor[p as int]) {
                assert(!admissible(edges, level, out[x][j] as int) || exhausted(out, cursor, t, edges[out[x][j] as int].to));
                if exhausted(out, cursor, t, edges[out[x][j] as int].to) {
                    assert(edges[out[x][j] as int].to != p);
                }
            } else {
                assert(out[x][j] == e);
                assert(edges[e as int].to == u);
            }
        }
    }
    assert forall|k: int| 0 <= k < p2.len() implies #[trigger] p2[k] < edges.len() by {
        assert(p2[k] == path[k]);
    }
    assert forall|k: int| 0 <= k < p2.len() - 1 implies edges[#[trigger] p2[k] as int].to == edges[p2[k + 1] as int].from by {
        assert(p2[k] == path[k]);
        assert(p2[k + 1] == path[k + 1]);
    }
    if p2.len() > 0 {
        assert(p2.last() == path[last - 1]);
        assert(edges[path[last - 1] as int].to == edges[path[last] as int].from);
    }
}

proof fn lemma_dfs_none(
    n: nat, edges: Seq<FlowEdge>, out: Seq<Seq<usize>>, level: Seq<usize>, cursor: Seq<usize>,
    path: Seq<usize>, u: usize, s: usize, t: usize,
)
    requires
        dfs_ok(n, edges, out, level, cursor, path, u, s, t),
        u != t,
        cursor[u as int] == out[u as int].len(),
        path.len() == 0,
    ensures
        exhausted(out, cursor, t, s),
        blocked_below(n, edges, out, level, cursor, t),
{
    reveal(dfs_ok);
}

/// The arena of a network, for use in contracts of this module.
pub(crate) open spec fn edges_of(g: &FlowNetwork) -> Seq<FlowEdge> {
    g.edges@
}

impl FlowNetwork {
    /// The arena of edges.
    pub closed spec fn edges(&self) -> Seq<FlowEdge> {
        self.edges@
    }

    /// For each node, the indices of the arena edges that leave it.
    pub closed spec fn out(&self) -> Seq<Seq<usize>> {
        self.out@.map_values(|row: Vec<usize>| row@)
    }

    /// The number of nodes.
    pub closed spec fn node_count(&self) -> nat {
        self.n as nat
    }

    /// The arena is well formed and lists every edge under its source.
    pub closed spec fn wf(&self) -> bool {
        &&& arena_ok(self.n as nat, self.edges@, self.out())
        &&& listed(self.edges@, self.out())
    }

    /// What well-formedness gives to callers.
    pub proof fn lemma_wf(&self)
        requires
            self.wf(),
        ensures
            arena_ok(self.node_count(), self.edges(), self.out()),
            listed(self.edges(), self.out()),
            self.node_count() <= usize::MAX,
            forall|u: int| 0 <= u < self.node_count() ==> #[trigger] self.out()[u].len() <= usize::MAX,
    {
        assert forall|u: int| 0 <= u < self.node_count() implies #[trigger] self.out()[u].len() <= usize::MAX by {
            let v = self.out@[u];
            assert(v.len() == v@.len());
        }
    }

    /// A network of `n` nodes and no edges.
    pub fn new(n: usize) -> (g: FlowNetwork)
        ensures
            g.wf(),
            g.node_count() == n,
            g.edges().len() == 0,
    {
        let mut out: Vec<Vec<usize>> = Vec::new();
        let mut i: usize = 0;
        while i < n
            invariant
                i <= n,
                out@.len() == i,
                forall|k: int| 0 <= k < i ==> out@[k]@.len() == 0,
            decreases n - i,
        {
            out.push(Vec::new());
            i += 1;
        }
        FlowNetwork { n, edges: Vec::new(), out }
    }

    /// The number of nodes.
    pub fn get_n(&self) -> (r: usize)
        ensures
            r == self.node_count(),
    {
        self.n
    }

    /// The number of arena edges, reverse edges included.
    pub fn edge_count(&self) -> (r: usize)
        ensures
            r == self.edges().len(),
    {
        self.edges.len()
    }

    /// The arena edge `i`.
    pub fn edge(&self, i: usize) -> (r: FlowEdge)
        requires
            i < self.edges().len(),
        ensures
            r == self.edges()[i as int],
    {
        self.edges[i]
    }

    /// Adds an edge `u -> v` of capacity `cap` with its reverse edge; returns the index of the
    /// forward edge. Fails with `OutOfRange` when `u` or `v` is not a node.
    pub fn add_edge(&mut self, u: usize, v: usize, cap: u32) -> (r: Result<usize, GraphError>)
        requires
            old(self).wf(),
        ensures
            final(self).wf(),
            final(self).node_count() == old(self).node_count(),
            u >= old(self).node_count() || v >= old(self).node_count() ==> r == Err::<usize, GraphError>(GraphError::OutOfRange),
            u < old(self).node_count() && v < old(self).node_count() && old(self).edges().len() + 2 < usize::MAX ==> r is Ok,
            r is Err ==> final(self).edges() == old(self).edges() && final(self).out() == old(self).out(),
            r is Ok ==> r->Ok_0 == old(self).edges().len() && final(self).edges() == old(self).edges().push(
                FlowEdge { from: u, to: v, cap: cap as i64, flow: 0 },
            ).push(FlowEdge { from: v, to: u, cap: 0, flow: 0 }),
    {
        if u >= self.n || v >= self.n {
            return Err(GraphError::OutOfRange);
        }
        if self.edges.len() >= usize::MAX - 2 {
            return Err(GraphError::TooManyEdges);
        }
        let e = self.edges.len();
        let ghost out0 = self.out();
        self.edges.push(FlowEdge { from: u, to: v, cap: cap as i64, flow: 0 });
        self.edges.push(FlowEdge { from: v, to: u, cap: 0, flow: 0 });
        self.out[u].push(e);
        self.out[v].push(e + 1);
        proof {
            let out1 = self.out();
            assert(pair_ok(self.edges@, e as int));
            assert forall|i: int| 0 <= i < self.edges@.len() && i % 2 == 0 implies #[trigger] pair_ok(self.edges@, i) by {
                if i < e {
                    assert(pair_ok(old(self).edges@, i));
                }
            }
            assert forall|x: int, j: int|
                0 <= x < self.n && 0 <= j < out1[x].len() implies #[trigger] out1[x][j] < self.edges@.len()
                    && self.edges@[out1[x][j] as int].from == x by {
                if j < out0[x].len() {
                    assert(out1[x][j] == out0[x][j]);
                }
            }
            assert forall|q: int| 0 <= q < self.edges@.len() implies out1[(#[trigger] self.edges@[q]).from as int].contains(q as usize) by {
                if q < e {
                    let x = old(self).edges@[q].from as int;
                    assert(out0[x].contains(q as usize));
                    let j = choose|j: int| 0 <= j < out0[x].len() && out0[x][j] == q as usize;
                    assert(out1[x][j] == q as usize);
                } else if q == e {
                    assert(out1[u as int][out0[u as int].len() as int] == e);
                } else {
                    assert(out1[v as int][out1[v as int].len() - 1] == e + 1);
                }
            }
        }
        Ok(e)
    }

    #[verifier::spinoff_prover]
    #[verifier::rlimit(50)]
    /// Breadth-first search of the residual graph from `s`: the level of each node (its
    /// distance in residual edges, `UNREACHED` when there is none) and the edge that reached it.
    pub fn residual_levels(&self, s: usize) -> (r: (Vec<usize>, Vec<usize>))
        requires
            self.wf(),
            s < self.node_count(),
        ensures
            bfs_levels(self.node_count(), self.edges(), self.out(), s, r.0@, r.1@),
    {
        let ghost edges = self.edges();
        let ghost out = self.out();
        let n = self.n;
        let mut level = vec![UNREACHED; n];
        let mut pred = vec![0usize; n];
        let mut seen = vec![false; n];
        let mut queue: Vec<usize> = Vec::new();
        proof {
            assert(seen@ =~= Seq::new(n as nat, |i: int| false));
            lemma_count_none_marked(n as nat);
            lemma_count_mark(seen@, s as int);
            lemma_lists_marked_push(queue@, seen@, s);
        }
        level[s] = 0;
        seen[s] = true;
        queue.push(s);
        let mut head: usize = 0;
        while head < queue.len()
            invariant
                self.wf(),
                edges == self.edges(),
                out == self.out(),
                n == self.node_count(),
                level@.len() == n,
                pred@.len() == n,
                seen@.len() == n,
                s < n,
                head <= queue@.len(),
                lists_marked(queue@, seen@),
                queue@.len() + count_unmarked(seen@) == n,
                forall|x: int| 0 <= x < n ==> (#[trigger] seen@[x] <==> level@[x] != UNREACHED),
                forall|k: int| 0 <= k < queue@.len() ==> #[trigger] level@[queue@[k] as int] <= k,
                level@[s as int] == 0,
                forall|x: int| 0 <= x < n && #[trigger] level@[x] == 0 ==> x == s,
                forall|x: int|
                    0 <= x < n && x != s && #[trigger] level@[x] != UNREACHED ==> {
                        let e = pred@[x] as int;
                        let u = edges[e].from;
                        &&& 0 <= e < edges.len()
                        &&& edges[e].to == x
                        &&& residual(edges[e]) > 0
                        &&& u < n
                        &&& level@[u as int] != UNREACHED
                        &&& level@[x] == level@[u as int] + 1
                        &&& out[u as int].contains(pred@[x])
                    },
                forall|k: int, j: int|
                    0 <= k < head && 0 <= j < out[queue@[k] as int].len() && residual(edges[out[queue@[k] as int][j] as int]) > 0
                        ==> #[trigger] seen@[edges[out[queue@[k] as int][j] as int].to as int],
                forall|k1: int, k2: int| 0 <= k1 <= k2 < queue@.len() ==> level@[#[trigger] queue@[k1] as int] <= level@[#[trigger] queue@[k2] as int],
                head < queue@.len() ==> level@[queue@.last() as int] <= level@[queue@[head as int] as int] + 1,
                forall|k: int, j: int|
                    0 <= k < head && 0 <= j < out[queue@[k] as int].len() && residual(edges[out[queue@[k] as int][j] as int]) > 0
                        ==> level@[#[trigger] edges[out[queue@[k] as int][j] as int].to as int] <= level@[queue@[k] as int] + 1,
            decreases count_unmarked(seen@) + queue@.len() - head,
        {
            let u = queue[head];
            let deg = self.out[u].len();
            let mut j: usize = 0;
            while j < deg
                invariant
                    self.wf(),
                    edges == self.edges(),
                    out == self.out(),
                    n == self.node_count(),
                    level@.len() == n,
                    pred@.len() == n,
                    seen@.len() == n,
                    s < n,
                    head < queue@.len(),
                    u == queue@[head as int],
                    u < n,
                    deg == out[u as int].len(),
                    j <= deg,
                    lists_marked(queue@, seen@),
                    queue@.len() + count_unmarked(seen@) == n,
                    forall|x: int| 0 <= x < n ==> (#[trigger] seen@[x] <==> level@[x] != UNREACHED),
                    forall|k: int| 0 <= k < queue@.len() ==> #[trigger] level@[queue@[k] as int] <= k,
                    level@[s as int] == 0,
                    forall|x: int| 0 <= x < n && #[trigger] level@[x] == 0 ==> x == s,
                    forall|x: int|
                        0 <= x < n && x != s && #[trigger] level@[x] != UNREACHED ==> {
                            let e = pred@[x] as int;
                            let w = edges[e].from;
                            &&& 0 <= e < edges.len()
                            &&& edges[e].to == x
                            &&& residual(edges[e]) > 0
                            &&& w < n
                            &&& level@[w as int] != UNREACHED
                            &&& level@[x] == level@[w as int] + 1
                            &&& out[w as int].contains(pred@[x])
                        },
                    forall|k: int, i: int|
                        0 <= k < head && 0 <= i < out[queue@[k] as int].len() && residual(edges[out[queue@[k] as int][i] as int]) > 0
                            ==> #[trigger] seen@[edges[out[queue@[k] as int][i] as int].to as int],
                    forall|i: int|
                        0 <= i < j && residual(edges[out[u as int][i] as int]) > 0
                            ==> #[trigger] seen@[edges[out[u as int][i] as int].to as int],
                    forall|k1: int, k2: int| 0 <= k1 <= k2 < queue@.len() ==> level@[#[trigger] queue@[k1] as int] <= level@[#[trigger] queue@[k2] as int],
                    level@[queue@.last() as int] <= level@[u as int] + 1,
                    forall|k: int, i: int|
                        0 <= k < head && 0 <= i < out[queue@[k] as int].len() && residual(edges[out[queue@[k] as int][i] as int]) > 0
                            ==> level@[#[trigger] edges[out[queue@[k] as int][i] as int].to as int] <= level@[queue@[k] as int] + 1,
                    forall|i: int|
                        0 <= i < j && residual(edges[out[u as int][i] as int]) > 0
                            ==> level@[#[trigger] edges[out[u as int][i] as int].to as int] <= level@[u as int] + 1,
                decreases deg - j,
            {
                let e = self.out[u][j];
                assert(out[u as int][j as int] == e);
                let edge = self.edges[e];
                let w = edge.to;
                if edge.flow < edge.cap && !seen[w] {
                    let ghost q1 = queue@;
                    proof {
                        lemma_count_mark(seen@, w as int);
                        lemma_lists_marked_push(queue@, seen@, w);
                        assert(seen@[u as int]);
                        assert(level@[u as int] <= head);
                        assert(out[u as int].contains(e));
                    }
                    level[w] = level[u] + 1;
                    pred[w] = e;
                    seen[w] = true;
                    queue.push(w);
                    proof {
                        assert forall|k: int| 0 <= k < queue@.len() implies #[trigger] level@[queue@[k] as int] <= k by {
                            if k < q1.len() {
                                assert(queue@[k] == q1[k]);
                            }
                        }
                        assert forall|k: int, i: int|
                            0 <= k < head && 0 <= i < out[queue@[k] as int].len() && residual(edges[out[queue@[k] as int][i] as int]) > 0
                                implies #[trigger] seen@[edges[out[queue@[k] as int][i] as int].to as int] by {
                            assert(queue@[k] == q1[k]);
                        }
                        let lv1 = level@;
                        assert forall|k1: int, k2: int| 0 <= k1 <= k2 < queue@.len()
                            implies level@[#[trigger] queue@[k1] as int] <= level@[#[trigger] queue@[k2] as int] by {
                            if k2 < q1.len() {
                                assert(queue@[k1] == q1[k1] && queue@[k2] == q1[k2]);
                                assert(q1[k1] != w && q1[k2] != w);
                            } else if k1 < q1.len() {
                                assert(queue@[k1] == q1[k1]);
                                assert(q1[k1] != w);
                                assert(level@[q1[k1] as int] <= level@[q1.last() as int]);
                                assert(q1.last() != w);
                            }
                        }
                        assert forall|k: int, i: int|
                            0 <= k < head && 0 <= i < out[queue@[k] as int].len() && residual(edges[out[queue@[k] as int][i] as int]) > 0
                                implies level@[#[trigger] edges[out[queue@[k] as int][i] as int].to as int] <= level@[queue@[k] as int] + 1 by {
                            assert(queue@[k] == q1[k]);
                            assert(q1[k] != w);
                            assert(seen@[edges[out[q1[k] as int][i] as int].to as int]);
                        }
                        assert forall|i: int|
                            0 <= i < j + 1 && residual(edges[out[u as int][i] as int]) > 0
                                implies level@[#[trigger] edges[out[u as int][i] as int].to as int] <= level@[u as int] + 1 by {
                            assert(u != w);
                        }
                    }
                } else {
                    proof {
                        if edge.flow < edge.cap {
                            assert(seen@[w as int]);
                            assert(queue@.contains((w as int) as usize));
                            let p = choose|p: int| 0 <= p < queue@.len() && queue@[p] == w;
                            assert(level@[queue@[p] as int] <= level@[queue@[queue@.len() - 1] as int]);
                        }
                    }
                }
                j += 1;
            }
            proof {
                assert forall|k: int, i: int|
                    0 <= k < head + 1 && 0 <= i < out[queue@[k] as int].len() && residual(edges[out[queue@[k] as int][i] as int]) > 0
                        implies #[trigger] seen@[edges[out[queue@[k] as int][i] as int].to as int] by {
                    if k == head {
                        assert(seen@[edges[out[u as int][i] as int].to as int]);
                    }
                }
            }
            head += 1;
        }
        proof {
            assert forall|x: int| 0 <= x < n && #[trigger] level@[x] != UNREACHED implies level@[x] < n by {
                assert(seen@[x]);
                assert(queue@.contains(x as usize));
                let k = choose|k: int| 0 <= k < queue@.len() && queue@[k] == x as usize;
                assert(level@[queue@[k] as int] <= k);
            }
            assert forall|x: int, j: int|
                0 <= x < n && level@[x] != UNREACHED && 0 <= j < out[x].len() && residual(edges[out[x][j] as int]) > 0
                    implies #[trigger] level@[edges[out[x][j] as int].to as int] != UNREACHED
                        && level@[edges[out[x][j] as int].to as int] <= level@[x] + 1 by {
                assert(seen@[x]);
                assert(queue@.contains(x as usize));
                let k = choose|k: int| 0 <= k < queue@.len() && queue@[k] == x as usize;
                assert(seen@[edges[out[queue@[k] as int][j] as int].to as int]);
                assert(level@[edges[out[queue@[k] as int][j] as int].to as int] <= level@[queue@[k] as int] + 1);
            }
        }
        (level, pred)
    }

    #[verifier::spinoff_prover]
    #[verifier::rlimit(50)]
    /// The edges that reached `t`, walked back to `s`.
    fn chain_to(&self, s: usize, t: usize, level: &Vec<usize>, pred: &Vec<usize>) -> (path: Vec<usize>)
        requires
            self.wf(),
            bfs_levels(self.node_count(), self.edges(), self.out(), s, level@, pred@),
            t < self.node_count(),
            t != s,
            level@[t as int] != UNREACHED,
        ensures
            back_chain(self.edges(), path@, level@, s, 1),
            self.edges()[path@[0] as int].to == t,
            self.out()[s as int].contains(path@.last()),
            forall|i: int| 0 <= i < path@.len() ==> self.out()[self.edges()[#[trigger] path@[i] as int].from as int].contains(path@[i]),
    {
        let ghost edges = self.edges();
        let ghost n = self.node_count();
        let mut path: Vec<usize> = Vec::new();
        let mut v = t;
        while v != s
            invariant
                self.wf(),
                edges == self.edges(),
                n == self.node_count(),
                bfs_levels(n, edges, self.out(), s, level@, pred@),
                v < n,
                level@[v as int] != UNREACHED,
                forall|i: int| 0 <= i < path@.len() ==> #[trigger] path@[i] < edges.len(),
                forall|i: int| 0 <= i < path@.len() ==> residual(edges[#[trigger] path@[i] as int]) >= 1,
                forall|i: int|
                    0 <= i < path@.len() ==> edges[#[trigger] path@[i] as int].from < n && edges[path@[i] as int].to < n
                        && level@[edges[path@[i] as int].to as int] == level@[edges[path@[i] as int].from as int] + 1
                        && level@[edges[path@[i] as int].to as int] + i == level@[t as int]
                        && level@[edges[path@[i] as int].to as int] != UNREACHED,
                forall|i: int| 0 <= i < path@.len() - 1 ==> edges[#[trigger] path@[i] as int].from == edges[path@[i + 1] as int].to,
                path@.len() == 0 ==> v == t,
                path@.len() > 0 ==> edges[path@[0] as int].to == t && edges[path@.last() as int].from == v
                    && self.out()[v as int].contains(path@.last()),
                forall|i: int| 0 <= i < path@.len() ==> self.out()[edges[#[trigger] path@[i] as int].from as int].contains(path@[i]),
                level@[v as int] + path@.len() == level@[t as int],
            decreases level@[v as int],
        {
            let e = pred[v];
            let ghost p1 = path@;
            path.push(e);
            v = self.edges[e].from;
            proof {
                assert forall|i: int| 0 <= i < path@.len() implies self.out()[edges[#[trigger] path@[i] as int].from as int].contains(path@[i]) by {
                    if i < p1.len() {
                        assert(path@[i] == p1[i]);
                    }
                }
                assert forall|i: int| 0 <= i < path@.len() - 1 implies edges[#[trigger] path@[i] as int].from == edges[path@[i + 1] as int].to by {
                    assert(path@[i] == p1[i]);
                    if i < p1.len() - 1 {
                        assert(path@[i + 1] == p1[i + 1]);
                    }
                }
            }
        }
        path
    }

    /// The least residual capacity along `path`.
    fn bottleneck(&self, path: &Vec<usize>) -> (df: i64)
        requires
            self.wf(),
            path@.len() >= 1,
            forall|i: int| 0 <= i < path@.len() ==> #[trigger] path@[i] < self.edges().len(),
            forall|i: int| 0 <= i < path@.len() ==> residual(self.edges()[#[trigger] path@[i] as int]) >= 1,
        ensures
            1 <= df <= u32::MAX,
            forall|i: int| 0 <= i < path@.len() ==> residual(self.edges()[#[trigger] path@[i] as int]) >= df,
            exists|i: int| 0 <= i < path@.len() && residual(self.edges()[#[trigger] path@[i] as int]) == df,
    {
        let ghost edges = self.edges();
        proof {
            lemma_arena_facts(self.n as nat, edges, self.out(), path@[0] as int);
        }
        let first = self.edges[path[0]];
        let mut df: i64 = first.cap - first.flow;
        let mut i: usize = 1;
        while i < path.len()
            invariant
                self.wf(),
                edges == self.edges(),
                1 <= i <= path@.len(),
                1 <= df <= u32::MAX,
                forall|k: int| 0 <= k < path@.len() ==> #[trigger] path@[k] < edges.len(),
                forall|k: int| 0 <= k < path@.len() ==> residual(edges[#[trigger] path@[k] as int]) >= 1,
                forall|k: int| 0 <= k < i ==> residual(edges[#[trigger] path@[k] as int]) >= df,
                exists|k: int| 0 <= k < i && residual(edges[#[trigger] path@[k] as int]) == df,
            decreases path@.len() - i,
        {
            proof {
                lemma_arena_facts(self.n as nat, edges, self.out(), path@[i as int] as int);
            }
            let e = self.edges[path[i]];
            if e.cap - e.flow < df {
                df = e.cap - e.flow;
            }
            i += 1;
        }
        df
    }

    #[verifier::spinoff_prover]
    #[verifier::rlimit(50)]
    /// Pushes `df` more units along `path`, and takes them back on each mate edge.
    fn augment(&mut self, path: &Vec<usize>, df: i64, Ghost(lv): Ghost<Seq<usize>>, Ghost(s): Ghost<usize>)
        requires
            old(self).wf(),
            df >= 1,
            back_chain(old(self).edges(), path@, lv, s, df as int),
        ensures
            final(self).wf(),
            final(self).node_count() == old(self).node_count(),
            final(self).out() == old(self).out(),
            same_shape(old(self).edges(), final(self).edges()),
            residual(final(self).edges()[path@.last() as int]) == residual(old(self).edges()[path@.last() as int]) - df,
            forall|e: int| 0 <= e < old(self).edges().len() && old(self).edges()[e].from == s
                ==> #[trigger] residual(final(self).edges()[e]) <= residual(old(self).edges()[e]),
            forall|e: int| 0 <= e < old(self).edges().len() && #[trigger] residual(final(self).edges()[e]) > residual(old(self).edges()[e])
                ==> old(self).edges()[e].to < lv.len() && old(self).edges()[e].from < lv.len()
                    && lv[old(self).edges()[e].to as int] + 1 == lv[old(self).edges()[e].from as int],
            forall|v: usize| #[trigger] net_out(final(self).edges(), v, final(self).edges().len() as int)
                == net_out(old(self).edges(), v, old(self).edges().len() as int)
                + (if v == s { df as int } else { 0 }) - (if v == old(self).edges()[path@[0] as int].to { df as int } else { 0 }),
            forall|e: int| 0 <= e < old(self).edges().len() ==> (#[trigger] final(self).edges()[e]).flow
                == old(self).edges()[e].flow + (if on_chain(path@, path@.len() as int, e) { df as int } else { 0 })
                - (if mate_on_chain(path@, path@.len() as int, e) { df as int } else { 0 }),
    {
        let ghost e0 = self.edges();
        let ghost n = self.node_count();
        let ghost out = self.out();
        let ghost top = lv[e0[path@[0] as int].to as int];
        let mut i: usize = 0;
        while i < path.len()
            invariant
                self.wf(),
                n == self.node_count(),
                out == self.out(),
                same_shape(e0, self.edges()),
                arena_ok(n, e0, out),
                back_chain(e0, path@, lv, s, df as int),
                df >= 1,
                top == lv[e0[path@[0] as int].to as int],
                i <= path@.len(),
                forall|k: int| i <= k < path@.len() ==> self.edges()[#[trigger] path@[k] as int] == e0[path@[k] as int],
                i == path@.len() ==> residual(self.edges()[path@.last() as int]) == residual(e0[path@.last() as int]) - df,
                forall|e: int| 0 <= e < e0.len() && e0[e].from == s
                    ==> #[trigger] residual(self.edges()[e]) <= residual(e0[e]),
                forall|e: int| 0 <= e < e0.len() && #[trigger] residual(self.edges()[e]) > residual(e0[e])
                    ==> e0[e].to < lv.len() && e0[e].from < lv.len() && lv[e0[e].to as int] + 1 == lv[e0[e].from as int],
                forall|v: usize| #[trigger] net_out(self.edges(), v, e0.len() as int) == net_out(e0, v, e0.len() as int)
                    + (if i > 0 && v == e0[path@[i - 1] as int].from { df as int } else { 0 })
                    - (if i > 0 && v == e0[path@[0] as int].to { df as int } else { 0 }),
                forall|e: int| 0 <= e < e0.len() ==> (#[trigger] self.edges()[e]).flow
                    == e0[e].flow + (if on_chain(path@, i as int, e) { df as int } else { 0 })
                    - (if mate_on_chain(path@, i as int, e) { df as int } else { 0 }),
            decreases path@.len() - i,
        {
            let e = path[i];
            let ghost cur = self.edges();
            proof {
                lemma_arena_facts(n, cur, out, e as int);
                lemma_arena_facts(n, cur, out, mate(e as int));
                assert(cur[e as int] == e0[e as int]);
                if e % 2 == 0 {
                    assert(pair_ok(cur, e as int));
                } else {
                    assert(pair_ok(cur, e as int - 1));
                }
                assert(residual(e0[e as int]) >= df);
            }
            let m = if e % 2 == 0 { e + 1 } else { e - 1 };
            let mut fe = self.edges[e];
            let mut fm = self.edges[m];
            fe.flow = fe.flow + df;
            fm.flow = fm.flow - df;
            self.edges.set(e, fe);
            self.edges.set(m, fm);
            proof {
                lemma_augment_post(n, e0, cur, self.edges(), out, path@, lv, s, df as int, i as int);
            }
            i += 1;
        }
    }

    /// Augments along `path` by its bottleneck and returns it. The capacity left on the edges
    /// out of `s` drops by at least that much.
    fn push_path(&mut self, path: &Vec<usize>, Ghost(lv): Ghost<Seq<usize>>, s: usize) -> (df: i64)
        requires
            old(self).wf(),
            s < old(self).node_count(),
            back_chain(old(self).edges(), path@, lv, s, 1),
            old(self).out()[s as int].contains(path@.last()),
        ensures
            final(self).wf(),
            final(self).node_count() == old(self).node_count(),
            final(self).out() == old(self).out(),
            same_shape(old(self).edges(), final(self).edges()),
            1 <= df <= u32::MAX,
            slack_upto(final(self).edges(), final(self).out()[s as int], final(self).out()[s as int].len() as int) + df
                <= slack_upto(old(self).edges(), old(self).out()[s as int], old(self).out()[s as int].len() as int),
            slack_upto(final(self).edges(), final(self).out()[s as int], final(self).out()[s as int].len() as int) >= 0,
            forall|e: int| 0 <= e < old(self).edges().len() && #[trigger] residual(final(self).edges()[e]) > residual(old(self).edges()[e])
                ==> old(self).edges()[e].to < lv.len() && old(self).edges()[e].from < lv.len()
                    && lv[old(self).edges()[e].to as int] + 1 == lv[old(self).edges()[e].from as int],
            forall|v: usize| #[trigger] net_out(final(self).edges(), v, final(self).edges().len() as int)
                == net_out(old(self).edges(), v, old(self).edges().len() as int)
                + (if v == s { df as int } else { 0 }) - (if v == old(self).edges()[path@[0] as int].to { df as int } else { 0 }),
            forall|e: int| 0 <= e < old(self).edges().len() ==> (#[trigger] final(self).edges()[e]).flow
                == old(self).edges()[e].flow + (if on_chain(path@, path@.len() as int, e) { df as int } else { 0 })
                - (if mate_on_chain(path@, path@.len() as int, e) { df as int } else { 0 }),
    {
        let ghost n = self.node_count();
        let ghost out = self.out();
        let ghost row = out[s as int];
        let ghost before = self.edges();
        let df = self.bottleneck(path);
        self.augment(path, df, Ghost(lv), Ghost(s));
        proof {
            let after = self.edges();
            let j0 = choose|j: int| 0 <= j < row.len() && row[j] == path@.last();
            assert forall|j: int| 0 <= j < row.len() implies #[trigger] residual(after[row[j] as int]) <= residual(before[row[j] as int]) by {
                assert(before[row[j] as int].from == s);
            }
            lemma_slack_decrease(before, after, row, row.len() as int, j0, df as int);
            assert forall|j: int| 0 <= j < row.len() implies 0 <= #[trigger] residual(after[row[j] as int]) <= u32::MAX by {
                lemma_arena_facts(n, after, out, row[j] as int);
            }
            lemma_slack_bounds(after, row, row.len() as int);
        }
        df
    }

    /// Sets up the bound on the flow that can leave `s`.
    proof fn lemma_slack_start(&self, s: usize)
        requires
            self.wf(),
            s < self.node_count(),
        ensures
            0 <= slack_upto(self.edges(), self.out()[s as int], self.out()[s as int].len() as int) <= usize::MAX * u32::MAX,
    {
        let row = self.out()[s as int];
        let e0 = self.edges();
        self.lemma_wf();
        assert forall|j: int| 0 <= j < row.len() implies 0 <= #[trigger] residual(e0[row[j] as int]) <= u32::MAX by {
            lemma_arena_facts(self.node_count(), e0, self.out(), row[j] as int);
        }
        lemma_slack_bounds(e0, row, row.len() as int);
        assert(row.len() * u32::MAX <= usize::MAX * u32::MAX) by (nonlinear_arith)
            requires row.len() <= usize::MAX;
    }

    #[verifier::spinoff_prover]
    #[verifier::rlimit(50)]
    /// Maximum flow from `s` to `t` by Edmonds-Karp: augments along shortest residual paths until
    /// none is left. Returns the flow added and the number of augmenting paths, or `None` when
    /// `s == t`. At the end no residual path leads from `s` to `t`, so the flow is maximum.
    pub fn edmonds_karp(&mut self, s: usize, t: usize) -> (r: Option<(u128, u128)>)
        requires
            old(self).wf(),
            s < old(self).node_count(),
            t < old(self).node_count(),
        ensures
            final(self).wf(),
            final(self).node_count() == old(self).node_count(),
            final(self).out() == old(self).out(),
            same_shape(old(self).edges(), final(self).edges()),
            s == t ==> r is None && final(self).edges() == old(self).edges(),
            s != t ==> r is Some && !reachable(residual_adj(final(self).edges(), final(self).out()), s, t),
            r matches Some((value, paths)) ==> paths <= value && forall|v: usize| #[trigger] net_out(final(self).edges(), v, final(self).edges().len() as int)
                == net_out(old(self).edges(), v, old(self).edges().len() as int)
                + (if v == s { value as int } else { 0 }) - (if v == t { value as int } else { 0 }),
    {
        if s == t {
            return None;
        }
        let ghost e0 = self.edges();
        let ghost out = self.out();
        let ghost row = out[s as int];
        let ghost n = self.node_count();
        let ghost slack0 = slack_upto(e0, row, row.len() as int);
        proof {
            self.lemma_slack_start(s);
        }
        let mut total: u128 = 0;
        let mut count: u128 = 0;
        loop
            invariant
                self.wf(),
                n == self.node_count(),
                out == self.out(),
                row == out[s as int],
                s < n,
                t < n,
                s != t,
                same_shape(e0, self.edges()),
                0 <= slack0 <= usize::MAX * u32::MAX,
                total + slack_upto(self.edges(), row, row.len() as int) <= slack0,
                slack_upto(self.edges(), row, row.len() as int) >= 0,
                count <= total,
                forall|v: usize| #[trigger] net_out(self.edges(), v, e0.len() as int) == net_out(e0, v, e0.len() as int)
                    + (if v == s { total as int } else { 0 }) - (if v == t { total as int } else { 0 }),
            ensures
                self.wf(),
                same_shape(e0, self.edges()),
                out == self.out(),
                count <= total,
                forall|v: usize| #[trigger] net_out(self.edges(), v, e0.len() as int) == net_out(e0, v, e0.len() as int)
                    + (if v == s { total as int } else { 0 }) - (if v == t { total as int } else { 0 }),
                !reachable(residual_adj(self.edges(), self.out()), s, t),
            decreases slack_upto(self.edges(), row, row.len() as int),
        {
            let (level, pred) = self.residual_levels(s);
            if level[t] == UNREACHED {
                proof {
                    lemma_unreached_no_path(n, self.edges(), out, s, t, level@, pred@);
                }
                break;
            }
            let path = self.chain_to(s, t, &level, &pred);
            let df = self.push_path(&path, Ghost(level@), s);
            total = total + df as u128;
            count = count + 1;
        }
        Some((total, count))
    }

    /// The edges of a forward admissible path from `s`, listed from its last edge back to `s`.
    fn reverse_chain(&self, path: &Vec<usize>, Ghost(lv): Ghost<Seq<usize>>, s: usize) -> (back: Vec<usize>)
        requires
            self.wf(),
            path@.len() >= 1,
            s < lv.len(),
            lv[s as int] == 0,
            edges_of(self)[path@[0] as int].from == s,
            forall|k: int| 0 <= k < path@.len() ==> #[trigger] path@[k] < edges_of(self).len(),
            forall|k: int|
                0 <= k < path@.len() ==> edges_of(self)[#[trigger] path@[k] as int].from < lv.len()
                    && edges_of(self)[path@[k] as int].to < lv.len()
                    && lv[edges_of(self)[path@[k] as int].from as int] == k && lv[edges_of(self)[path@[k] as int].to as int] == k + 1
                    && lv[edges_of(self)[path@[k] as int].to as int] != UNREACHED
                    && residual(edges_of(self)[path@[k] as int]) >= 1
                    && self.out()[edges_of(self)[path@[k] as int].from as int].contains(path@[k]),
            forall|k: int| 0 <= k < path@.len() - 1 ==> edges_of(self)[#[trigger] path@[k] as int].to == edges_of(self)[path@[k + 1] as int].from,
        ensures
            back_chain(self.edges(), back@, lv, s, 1),
            self.edges()[back@[0] as int].to == self.edges()[path@.last() as int].to,
            forall|i: int| 0 <= i < back@.len() ==> self.out()[self.edges()[#[trigger] back@[i] as int].from as int].contains(back@[i]),
    {
        let ghost edges = self.edges();
        let len = path.len();
        let mut back: Vec<usize> = Vec::new();
        let mut i: usize = 0;
        while i < len
            invariant
                len == path@.len(),
                i <= len,
                back@.len() == i,
                forall|k: int| 0 <= k < i ==> #[trigger] back@[k] == path@[len - 1 - k],
            decreases len - i,
        {
            back.push(path[len - 1 - i]);
            i += 1;
        }
        proof {
            assert forall|k: int| 0 <= k < len implies #[trigger] back@[k] < edges.len()
                && residual(edges[back@[k] as int]) >= 1
                && self.out()[edges[back@[k] as int].from as int].contains(back@[k]) by {
                let q = len - 1 - k;
                assert(path@[q] < edges.len());
            }
            assert forall|k: int| 0 <= k < len implies edges[#[trigger] back@[k] as int].from < lv.len()
                && edges[back@[k] as int].to < lv.len()
                && lv[edges[back@[k] as int].to as int] == lv[edges[back@[k] as int].from as int] + 1
                && lv[edges[back@[k] as int].to as int] + k == lv[edges[back@[0] as int].to as int] by {
                let q = len - 1 - k;
                assert(path@[q] < edges.len());
                assert(back@[0] == path@[len - 1]);
                assert(path@[len - 1] < edges.len());
            }
            assert forall|k: int| 0 <= k < len - 1 implies edges[#[trigger] back@[k] as int].from == edges[back@[k + 1] as int].to by {
                let q = len - 2 - k;
                assert(back@[k + 1] == path@[q]);
                assert(back@[k] == path@[q + 1]);
            }
            assert(back@.last() == path@[0]);
            assert(back@[0] == path@[len - 1]);
        }
        back
    }

    #[verifier::spinoff_prover]
    #[verifier::rlimit(50)]
    /// One augmenting path of the level graph, found by an iterative depth-first search that
    /// resumes each node at its cursor. Returns the path from `t` back to `s`, or `None` once
    /// `s` is exhausted.
    fn blocking_path(&self, s: usize, t: usize, level: &Vec<usize>, cursor: &mut Vec<usize>) -> (r: Option<Vec<usize>>)
        requires
            self.wf(),
            s < self.node_count(),
            t < self.node_count(),
            s != t,
            level_facts(self.node_count(), level@, s),
            blocked_below(self.node_count(), self.edges(), self.out(), level@, old(cursor)@, t),
        ensures
            blocked_below(self.node_count(), self.edges(), self.out(), level@, final(cursor)@, t),
            final(cursor)@.len() == old(cursor)@.len(),
            forall|x: int| 0 <= x < old(cursor)@.len() ==> #[trigger] final(cursor)@[x] >= old(cursor)@[x],
            r is None ==> exhausted(self.out(), final(cursor)@, t, s),
            r matches Some(p) ==> back_chain(self.edges(), p@, level@, s, 1) && self.edges()[p@[0] as int].to == t
                && forall|i: int| 0 <= i < p@.len() ==> self.out()[self.edges()[#[trigger] p@[i] as int].from as int].contains(p@[i]),
    {
        let ghost edges = self.edges();
        let ghost out = self.out();
        let ghost n = self.node_count();
        proof {
            self.lemma_wf();
            lemma_dfs_init(n, edges, out, level@, cursor@, s, t);
        }
        let mut path: Vec<usize> = Vec::new();
        let mut u = s;
        loop
            invariant
                self.wf(),
                edges == self.edges(),
                out == self.out(),
                n == self.node_count(),
                n <= usize::MAX,
                arena_ok(n, edges, out),
                forall|x: int| 0 <= x < n ==> #[trigger] out[x].len() <= usize::MAX,
                s < n,
                t < n,
                s != t,
                level_facts(n, level@, s),
                dfs_ok(n, edges, out, level@, cursor@, path@, u, s, t),
                cursor@.len() == old(cursor)@.len(),
                forall|z: int| 0 <= z < old(cursor)@.len() ==> #[trigger] cursor@[z] >= old(cursor)@[z],
            decreases cursor_room(out, cursor@, n as int), n - path@.len(),
        {
            let ghost room_start = cursor_room(out, cursor@, n as int);
            let ghost len_start = path@.len();
            proof {
                lemma_dfs_bounds(n, edges, out, level@, cursor@, path@, u, s, t);
            }
            if u == t {
                proof {
                    lemma_dfs_found(n, edges, out, level@, cursor@, path@, u, s, t);
                }
                return Some(self.reverse_chain(&path, Ghost(level@), s));
            }
            if cursor[u] < self.out[u].len() {
                let e = self.out[u][cursor[u]];
                let edge = self.edges[e];
                let w = edge.to;
                proof {
                    assert(out[u as int][cursor@[u as int] as int] == e);
                    assert(edges[e as int].from == u);
                    assert(level@[u as int] != UNREACHED);
                    assert(w < n);
                }
                if level[w] != UNREACHED && level[w] == level[u] + 1 && edge.flow < edge.cap {
                    proof {
                        lemma_dfs_advance(n, edges, out, level@, cursor@, path@, u, s, t);
                    }
                    path.push(e);
                    u = w;
                    assert(cursor_room(out, cursor@, n as int) == room_start);
                    assert(path@.len() == len_start + 1);
                    assert(len_start < n);
                } else {
                    let ghost c0 = cursor@;
                    proof {
                        lemma_dfs_skip(n, edges, out, level@, cursor@, path@, u, s, t);
                    }
                    let c = cursor[u];
                    cursor[u] = c + 1;
                    assert(cursor@ == c0.update(u as int, (c0[u as int] + 1) as usize));
                    assert(cursor_room(out, cursor@, n as int) < room_start);
                    proof {
                        lemma_dfs_bounds(n, edges, out, level@, cursor@, path@, u, s, t);
                    }
                }
            } else {
                if path.len() == 0 {
                    proof {
                        lemma_dfs_none(n, edges, out, level@, cursor@, path@, u, s, t);
                    }
                    return None;
                }
                let ghost c0 = cursor@;
                let ghost p0 = path@;
                proof {
                    lemma_dfs_retreat(n, edges, out, level@, cursor@, path@, u, s, t);
                }
                let e = path.pop().unwrap();
                let p = self.edges[e].from;
                let c = cursor[p];
                cursor[p] = c + 1;
                u = p;
                assert(path@ == p0.drop_last());
                assert(cursor@ == c0.update(p as int, (c0[p as int] + 1) as usize));
                assert(cursor_room(out, cursor@, n as int) < room_start);
                proof {
                    lemma_dfs_bounds(n, edges, out, level@, cursor@, path@, u, s, t);
                }
            }
        }
    }

    #[verifier::spinoff_prover]
    #[verifier::rlimit(50)]
    /// Maximum flow from `s` to `t` by Dinic: each phase builds the level graph by breadth-first
    /// search and pushes a blocking flow through it, resuming each node at its cursor. Returns
    /// the flow added and the number of augmenting paths, or `None` when `s == t`. At the end no
    /// residual path leads from `s` to `t`, so the flow is maximum.
    pub fn dinic(&mut self, s: usize, t: usize) -> (r: Option<(u128, u128)>)
        requires
            old(self).wf(),
            s < old(self).node_count(),
            t < old(self).node_count(),
        ensures
            final(self).wf(),
            final(self).node_count() == old(self).node_count(),
            final(self).out() == old(self).out(),
            same_shape(old(self).edges(), final(self).edges()),
            s == t ==> r is None && final(self).edges() == old(self).edges(),
            s != t ==> r is Some && !reachable(residual_adj(final(self).edges(), final(self).out()), s, t),
            r matches Some((value, paths)) ==> paths <= value && forall|v: usize| #[trigger] net_out(final(self).edges(), v, final(self).edges().len() as int)
                == net_out(old(self).edges(), v, old(self).edges().len() as int)
                + (if v == s { value as int } else { 0 }) - (if v == t { value as int } else { 0 }),
    {
        if s == t {
            return None;
        }
        let ghost e0 = self.edges();
        let ghost out = self.out();
        let ghost row = out[s as int];
        let ghost n = self.node_count();
        let ghost slack0 = slack_upto(e0, row, row.len() as int);
        proof {
            self.lemma_slack_start(s);
        }
        let n_exec = self.n;
        let mut total: u128 = 0;
        let mut count: u128 = 0;
        loop
            invariant
                self.wf(),
                n == self.node_count(),
                n_exec == n,
                out == self.out(),
                row == out[s as int],
                s < n,
                t < n,
                s != t,
                same_shape(e0, self.edges()),
                0 <= slack0 <= usize::MAX * u32::MAX,
                total + slack_upto(self.edges(), row, row.len() as int) <= slack0,
                slack_upto(self.edges(), row, row.len() as int) >= 0,
                count <= total,
                forall|v: usize| #[trigger] net_out(self.edges(), v, e0.len() as int) == net_out(e0, v, e0.len() as int)
                    + (if v == s { total as int } else { 0 }) - (if v == t { total as int } else { 0 }),
            ensures
                self.wf(),
                same_shape(e0, self.edges()),
                out == self.out(),
                count <= total,
                forall|v: usize| #[trigger] net_out(self.edges(), v, e0.len() as int) == net_out(e0, v, e0.len() as int)
                    + (if v == s { total as int } else { 0 }) - (if v == t { total as int } else { 0 }),
                !reachable(residual_adj(self.edges(), self.out()), s, t),
            decreases slack_upto(self.edges(), row, row.len() as int),
        {
            let (level, pred) = self.residual_levels(s);
            if level[t] == UNREACHED {
                proof {
                    lemma_unreached_no_path(n, self.edges(), out, s, t, level@, pred@);
                }
                break;
            }
            let ghost phase_slack = slack_upto(self.edges(), row, row.len() as int);
            let first = self.chain_to(s, t, &level, &pred);
            let df = self.push_path(&first, Ghost(level@), s);
            total = total + df as u128;
            count = count + 1;
            let mut cursor = vec![0usize; n_exec];
            loop
                invariant
                    self.wf(),
                    n == self.node_count(),
                    out == self.out(),
                    row == out[s as int],
                    s < n,
                    t < n,
                    s != t,
                    same_shape(e0, self.edges()),
                    level_facts(n, level@, s),
                    blocked_below(n, self.edges(), out, level@, cursor@, t),
                    0 <= slack0 <= usize::MAX * u32::MAX,
                    total + slack_upto(self.edges(), row, row.len() as int) <= slack0,
                    slack_upto(self.edges(), row, row.len() as int) >= 0,
                    slack_upto(self.edges(), row, row.len() as int) < phase_slack,
                    count <= total,
                    forall|v: usize| #[trigger] net_out(self.edges(), v, e0.len() as int) == net_out(e0, v, e0.len() as int)
                        + (if v == s { total as int } else { 0 }) - (if v == t { total as int } else { 0 }),
                decreases slack_upto(self.edges(), row, row.len() as int),
            {
                match self.blocking_path(s, t, &level, &mut cursor) {
                    None => {
                        break;
                    },
                    Some(path) => {
                        let ghost before = self.edges();
                        let df = self.push_path(&path, Ghost(level@), s);
                        proof {
                            lemma_blocked_after_push(n, before, self.edges(), out, level@, cursor@, t);
                            assert(out[s as int].contains(path@.last()));
                        }
                        total = total + df as u128;
                        count = count + 1;
                    },
                }
            }
        }
        Some((total, count))
    }
}

/// Sum over the marked nodes `v < k` of their net outflow over the first `m` edges.
pub open spec fn marked_net(edges: Seq<FlowEdge>, mark: Seq<bool>, k: int, m: int) -> int
    decreases k,
{
    if k <= 0 {
        0
    } else {
        marked_net(edges, mark, k - 1, m) + if mark[k - 1] {
            net_out(edges, (k - 1) as usize, m)
        } else {
            0
        }
    }
}

/// Sum of the flows on the first `m` edges that leave a marked node.
pub open spec fn marked_flow(edges: Seq<FlowEdge>, mark: Seq<bool>, m: int) -> int
    decreases m,
{
    if m <= 0 {
        0
    } else {
        marked_flow(edges, mark, m - 1) + if mark[edges[m - 1].from as int] {
            edges[m - 1].flow as int
        } else {
            0
        }
    }
}

/// Over the first `p` edge pairs, the flow from marked to unmarked nodes minus the flow back.
pub open spec fn cut_flow(edges: Seq<FlowEdge>, mark: Seq<bool>, p: int) -> int
    decreases p,
{
    if p <= 0 {
        0
    } else {
        let f = edges[2 * (p - 1)];
        cut_flow(edges, mark, p - 1) + (if mark[f.from as int] { f.flow as int } else { 0 }) - (if mark[f.to as int] {
            f.flow as int
        } else {
            0
        })
    }
}

/// Over the first `p` edge pairs, the capacity of the forward edges from marked to unmarked nodes.
pub open spec fn cut_capacity(edges: Seq<FlowEdge>, mark: Seq<bool>, p: int) -> int
    decreases p,
{
    if p <= 0 {
        0
    } else {
        let f = edges[2 * (p - 1)];
        cut_capacity(edges, mark, p - 1) + if mark[f.from as int] && !mark[f.to as int] {
            f.cap as int
        } else {
            0
        }
    }
}

proof fn lemma_marked_net_step(edges: Seq<FlowEdge>, mark: Seq<bool>, k: int, m: int)
    requires
        0 <= m < edges.len(),
        0 <= k,
        k <= mark.len(),
        mark.len() <= usize::MAX,
    ensures
        marked_net(edges, mark, k, m + 1) == marked_net(edges, mark, k, m) + if edges[m].from < k && mark[edges[m].from as int] {
            edges[m].flow as int
        } else {
            0
        },
    decreases k,
{
    if k > 0 {
        lemma_marked_net_step(edges, mark, k - 1, m);
        let w = (k - 1) as usize;
        assert(net_out(edges, w, m + 1) == net_out(edges, w, m) + if edges[m].from == w { edges[m].flow as int } else { 0 });
    }
}

proof fn lemma_marked_net_flow(edges: Seq<FlowEdge>, mark: Seq<bool>, n: nat, m: int)
    requires
        0 <= m <= edges.len(),
        mark.len() == n,
        n <= usize::MAX,
        forall|e: int| 0 <= e < edges.len() ==> (#[trigger] edges[e]).from < n,
    ensures
        marked_net(edges, mark, n as int, m) == marked_flow(edges, mark, m),
    decreases m,
{
    if m > 0 {
        lemma_marked_net_flow(edges, mark, n, m - 1);
        lemma_marked_net_step(edges, mark, n as int, m - 1);
        assert(edges[m - 1].from < n);
    } else {
        lemma_marked_net_zero(edges, mark, n as int);
    }
}

proof fn lemma_marked_net_zero(edges: Seq<FlowEdge>, mark: Seq<bool>, k: int)
    ensures
        marked_net(edges, mark, k, 0) == 0,
    decreases k,
{
    if k > 0 {
        lemma_marked_net_zero(edges, mark, k - 1);
    }
}

proof fn lemma_marked_net_source(edges: Seq<FlowEdge>, mark: Seq<bool>, k: int, m: int, s: usize)
    requires
        0 <= k <= mark.len(),
        forall|v: int| 0 <= v < k && mark[v] && v != s ==> #[trigger] net_out(edges, v as usize, m) == 0,
    ensures
        marked_net(edges, mark, k, m) == if s < k && mark[s as int] { net_out(edges, s, m) } else { 0 },
    decreases k,
{
    if k > 0 {
        lemma_marked_net_source(edges, mark, k - 1, m, s);
        if mark[k - 1] && k - 1 != s {
            assert(net_out(edges, (k - 1) as usize, m) == 0);
        }
    }
}

proof fn lemma_marked_flow_pairs(n: nat, edges: Seq<FlowEdge>, out: Seq<Seq<usize>>, mark: Seq<bool>, p: int)
    requires
        arena_ok(n, edges, out),
        0 <= p,
        2 * p <= edges.len(),
    ensures
        marked_flow(edges, mark, 2 * p) == cut_flow(edges, mark, p),
    decreases p,
{
    if p > 0 {
        lemma_marked_flow_pairs(n, edges, out, mark, p - 1);
        let i = 2 * (p - 1);
        assert(pair_ok(edges, i));
        assert(marked_flow(edges, mark, i + 1) == marked_flow(edges, mark, i) + if mark[edges[i].from as int] {
            edges[i].flow as int
        } else {
            0
        });
        assert(marked_flow(edges, mark, i + 2) == marked_flow(edges, mark, i + 1) + if mark[edges[i + 1].from as int] {
            edges[i + 1].flow as int
        } else {
            0
        });
        assert(i + 2 == 2 * p);
    }
}

proof fn lemma_cut_bound(n: nat, edges: Seq<FlowEdge>, out: Seq<Seq<usize>>, mark: Seq<bool>, p: int)
    requires
        arena_ok(n, edges, out),
        0 <= p,
        2 * p <= edges.len(),
    ensures
        cut_flow(edges, mark, p) <= cut_capacity(edges, mark, p),
    decreases p,
{
    if p > 0 {
        lemma_cut_bound(n, edges, out, mark, p - 1);
        assert(pair_ok(edges, 2 * (p - 1)));
    }
}

proof fn lemma_cut_shape(e1: Seq<FlowEdge>, e2: Seq<FlowEdge>, mark: Seq<bool>, p: int)
    requires
        same_shape(e1, e2),
        0 <= p,
        2 * p <= e1.len(),
    ensures
        cut_capacity(e1, mark, p) == cut_capacity(e2, mark, p),
    decreases p,
{
    if p > 0 {
        lemma_cut_shape(e1, e2, mark, p - 1);
        assert(e2[2 * (p - 1)].from == e1[2 * (p - 1)].from);
    }
}

/// The nodes that the residual graph reaches from `s`.
pub open spec fn residual_side(n: nat, edges: Seq<FlowEdge>, out: Seq<Seq<usize>>, s: usize) -> Seq<bool> {
    Seq::new(n, |v: int| reachable(residual_adj(edges, out), s, v as usize))
}

proof fn lemma_cut_tight(n: nat, edges: Seq<FlowEdge>, out: Seq<Seq<usize>>, s: usize, p: int)
    requires
        arena_ok(n, edges, out),
        listed(edges, out),
        n <= usize::MAX,
        edges.len() <= usize::MAX,
        s < n,
        0 <= p,
        2 * p <= edges.len(),
    ensures
        cut_flow(edges, residual_side(n, edges, out, s), p) == cut_capacity(edges, residual_side(n, edges, out, s), p),
    decreases p,
{
    if p > 0 {
        lemma_cut_tight(n, edges, out, s, p - 1);
        let mark = residual_side(n, edges, out, s);
        let radj = residual_adj(edges, out);
        let i = 2 * (p - 1);
        assert(pair_ok(edges, i));
        let f = edges[i];
        let r = edges[i + 1];
        assert(f.from < n && f.to < n);
        if mark[f.from as int] && !mark[f.to as int] && residual(f) > 0 {
            assert(out[f.from as int].contains(i as usize));
            let j = choose|j: int| 0 <= j < out[f.from as int].len() && out[f.from as int][j] == i as usize;
            assert(edges[out[f.from as int][j] as int] == f);
            assert(radj[f.from as int] == Seq::new(out[f.from as int].len(), |j2: int|
                if residual(edges[out[f.from as int][j2] as int]) > 0 { edges[out[f.from as int][j2] as int].to } else { f.from }));
            assert(radj[f.from as int][j] == f.to);
            assert(radj[f.from as int].contains(f.to));
            lemma_reach_step(radj, s, f.from, f.to);
        }
        if !mark[f.from as int] && mark[f.to as int] && f.flow > 0 {
            assert(out[r.from as int].contains((i + 1) as usize));
            let j = choose|j: int| 0 <= j < out[r.from as int].len() && out[r.from as int][j] == (i + 1) as usize;
            assert(residual(r) > 0);
            assert(edges[out[r.from as int][j] as int] == r);
            assert(radj[r.from as int] == Seq::new(out[r.from as int].len(), |j2: int|
                if residual(edges[out[r.from as int][j2] as int]) > 0 { edges[out[r.from as int][j2] as int].to } else { r.from }));
            assert(radj[r.from as int][j] == r.to);
            assert(radj[r.from as int].contains(r.to));
            lemma_reach_step(radj, s, r.from, r.to);
        }
    }
}

/// The value of a conserving flow that leaves no residual path from `s` to `t` bounds the value
/// of every conserving flow on the same network.
proof fn lemma_value_bound(n: nat, e1: Seq<FlowEdge>, e2: Seq<FlowEdge>, out: Seq<Seq<usize>>, s: usize, t: usize)
    requires
        arena_ok(n, e1, out),
        arena_ok(n, e2, out),
        listed(e1, out),
        same_shape(e1, e2),
        n <= usize::MAX,
        e1.len() <= usize::MAX,
        s < n,
        t < n,
        s != t,
        forall|v: usize| v < n && v != s && v != t ==> #[trigger] net_out(e1, v, e1.len() as int) == 0,
        forall|v: usize| v < n && v != s && v != t ==> #[trigger] net_out(e2, v, e2.len() as int) == 0,
        !reachable(residual_adj(e1, out), s, t),
    ensures
        net_out(e2, s, e2.len() as int) <= net_out(e1, s, e1.len() as int),
{
    let mark = residual_side(n, e1, out, s);
    let m = e1.len() as int;
    let p = m / 2;
    assert(2 * p == m);
    lemma_reach_refl(residual_adj(e1, out), s);
    assert(mark[s as int]);
    assert(!mark[t as int]);
    assert forall|v: int| 0 <= v < n && mark[v] && v != s implies #[trigger] net_out(e1, v as usize, m) == 0 by {
        assert(v as usize != t);
    }
    assert forall|v: int| 0 <= v < n && mark[v] && v != s implies #[trigger] net_out(e2, v as usize, m) == 0 by {
        assert(v as usize != t);
    }
    lemma_marked_net_source(e1, mark, n as int, m, s);
    lemma_marked_net_source(e2, mark, n as int, m, s);
    assert forall|e: int| 0 <= e < e1.len() implies (#[trigger] e1[e]).from < n by {}
    assert forall|e: int| 0 <= e < e2.len() implies (#[trigger] e2[e]).from < n by {}
    lemma_marked_net_flow(e1, mark, n, m);
    lemma_marked_net_flow(e2, mark, n, m);
    lemma_marked_flow_pairs(n, e1, out, mark, p);
    lemma_marked_flow_pairs(n, e2, out, mark, p);
    lemma_cut_bound(n, e2, out, mark, p);
    lemma_cut_shape(e1, e2, mark, p);
    lemma_cut_tight(n, e1, out, s, p);
}

/// Maximum flows have one value: two conserving flows on the same network that both leave no
/// residual path from `s` to `t`, such as the results of Edmonds-Karp and of Dinic, send the
/// same net flow out of `s`.
pub proof fn lemma_max_flow_value_unique(n: nat, e1: Seq<FlowEdge>, e2: Seq<FlowEdge>, out: Seq<Seq<usize>>, s: usize, t: usize)
    requires
        arena_ok(n, e1, out),
        arena_ok(n, e2, out),
        listed(e1, out),
        listed(e2, out),
        same_shape(e1, e2),
        n <= usize::MAX,
        e1.len() <= usize::MAX,
        s < n,
        t < n,
        s != t,
        forall|v: usize| v < n && v != s && v != t ==> #[trigger] net_out(e1, v, e1.len() as int) == 0,
        forall|v: usize| v < n && v != s && v != t ==> #[trigger] net_out(e2, v, e2.len() as int) == 0,
        !reachable(residual_adj(e1, out), s, t),
        !reachable(residual_adj(e2, out), s, t),
    ensures
        net_out(e1, s, e1.len() as int) == net_out(e2, s, e2.len() as int),
{
    lemma_value_bound(n, e1, e2, out, s, t);
    assert(same_shape(e2, e1));
    lemma_value_bound(n, e2, e1, out, s, t);
}

/// With no flow on any edge, every node has net outflow 0: a fresh network conserves flow.
pub proof fn lemma_no_flow_conserves(edges: Seq<FlowEdge>, v: usize, k: int)
    requires
        k <= edges.len(),
        forall|e: int| 0 <= e < edges.len() ==> (#[trigger] edges[e]).flow == 0,
    ensures
        net_out(edges, v, k) == 0,
    decreases k,
{
    if k > 0 {
        lemma_no_flow_conserves(edges, v, k - 1);
    }
}

} // verus!
