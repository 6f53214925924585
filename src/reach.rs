//! Paths and reachability over adjacency lists.
use vstd::prelude::*;

verus! {

/// `p` is a walk of at least one node along edges of `adj`.
pub open spec fn is_path(adj: Seq<Seq<usize>>, p: Seq<usize>) -> bool {
    &&& p.len() >= 1
    &&& forall|i: int| 0 <= i < p.len() ==> #[trigger] p[i] < adj.len()
    &&& forall|i: int| 0 <= i < p.len() - 1 ==> #[trigger] adj[p[i] as int].contains(p[i + 1])
}

/// There is a walk from `u` to `v` (every node reaches itself).
pub open spec fn reachable(adj: Seq<Seq<usize>>, u: usize, v: usize) -> bool {
    exists|p: Seq<usize>| #[trigger] is_path(adj, p) && p[0] == u && p.last() == v
}

/// Every edge that leaves a marked node ends at a marked node.
pub open spec fn closed(adj: Seq<Seq<usize>>, marked: Seq<bool>) -> bool {
    forall|x: int, j: int|
        0 <= x < adj.len() && marked[x] && 0 <= j < adj[x].len() ==> #[trigger] marked[adj[x][j] as int]
}

/// `s` holds no value twice.
pub open spec fn no_dup(s: Seq<usize>) -> bool {
    forall|i: int, j: int| 0 <= i < s.len() && 0 <= j < s.len() && i != j ==> s[i] != s[j]
}

/// Every node reaches itself.
pub proof fn lemma_reach_refl(adj: Seq<Seq<usize>>, u: usize)
    requires
        u < adj.len(),
    ensures
        reachable(adj, u, u),
{
    let p = seq![u];
    assert(is_path(adj, p));
}

/// A walk extends by one edge.
pub proof fn lemma_reach_step(adj: Seq<Seq<usize>>, u: usize, v: usize, w: usize)
    requires
        reachable(adj, u, v),
        adj[v as int].contains(w),
        w < adj.len(),
    ensures
        reachable(adj, u, w),
{
    let p = choose|p: Seq<usize>| #[trigger] is_path(adj, p) && p[0] == u && p.last() == v;
    let q = p.push(w);
    assert forall|i: int| 0 <= i < q.len() - 1 implies #[trigger] adj[q[i] as int].contains(q[i + 1]) by {
        if i < p.len() - 1 {
            assert(q[i] == p[i] && q[i + 1] == p[i + 1]);
        }
    }
    assert(is_path(adj, q));
}

proof fn lemma_closed_path(adj: Seq<Seq<usize>>, marked: Seq<bool>, p: Seq<usize>, i: int)
    requires
        marked.len() == adj.len(),
        closed(adj, marked),
        is_path(adj, p),
        marked[p[0] as int],
        0 <= i < p.len(),
    ensures
        marked[p[i] as int],
    decreases i,
{
    if i > 0 {
        lemma_closed_path(adj, marked, p, i - 1);
        let k = i - 1;
        assert(adj[p[k] as int].contains(p[k + 1]));
        let j = choose|j: int| 0 <= j < adj[p[i - 1] as int].len() && #[trigger] adj[p[i - 1] as int][j] == p[i];
        assert(marked[adj[p[i - 1] as int][j] as int]);
    }
}

/// A marked set closed under edges holds everything reachable from its members.
pub proof fn lemma_closed_reach(adj: Seq<Seq<usize>>, marked: Seq<bool>, u: usize, v: usize)
    requires
        marked.len() == adj.len(),
        closed(adj, marked),
        u < adj.len(),
        marked[u as int],
        reachable(adj, u, v),
    ensures
        marked[v as int],
{
    let p = choose|p: Seq<usize>| #[trigger] is_path(adj, p) && p[0] == u && p.last() == v;
    lemma_closed_path(adj, marked, p, p.len() - 1);
}

/// Walks compose.
pub proof fn lemma_reach_trans(adj: Seq<Seq<usize>>, u: usize, v: usize, w: usize)
    requires
        reachable(adj, u, v),
        reachable(adj, v, w),
    ensures
        reachable(adj, u, w),
{
    let p = choose|p: Seq<usize>| #[trigger] is_path(adj, p) && p[0] == u && p.last() == v;
    let q = choose|q: Seq<usize>| #[trigger] is_path(adj, q) && q[0] == v && q.last() == w;
    let r = p + q.drop_first();
    assert forall|i: int| 0 <= i < r.len() implies #[trigger] r[i] < adj.len() by {
        if i < p.len() {
            assert(r[i] == p[i]);
        } else {
            assert(r[i] == q[i - p.len() + 1]);
        }
    }
    assert forall|i: int| 0 <= i < r.len() - 1 implies #[trigger] adj[r[i] as int].contains(r[i + 1]) by {
        if i < p.len() - 1 {
            assert(r[i] == p[i] && r[i + 1] == p[i + 1]);
        } else if i == p.len() - 1 {
            assert(r[i] == p[i]);
            assert(p[i] == q[0]);
            assert(r[i + 1] == q[1]);
            let z: int = 0;
            assert(adj[q[z] as int].contains(q[z + 1]));
        } else {
            let k = i - p.len() + 1;
            assert(r[i] == q[k] && r[i + 1] == q[k + 1]);
        }
    }
    assert(is_path(adj, r));
    if q.len() == 1 {
        assert(r =~= p);
    } else {
        assert(r.last() == q.last());
    }
}

/// Number of unmarked entries.
pub open spec fn count_unmarked(m: Seq<bool>) -> nat
    decreases m.len(),
{
    if m.len() == 0 {
        0
    } else {
        count_unmarked(m.drop_last()) + if m.last() {
            0nat
        } else {
            1nat
        }
    }
}

/// Marking an unmarked entry lowers the count of unmarked entries by one.
pub proof fn lemma_count_mark(m: Seq<bool>, i: int)
    requires
        0 <= i < m.len(),
        !m[i],
    ensures
        count_unmarked(m.update(i, true)) + 1 == count_unmarked(m),
    decreases m.len(),
{
    if i < m.len() - 1 {
        lemma_count_mark(m.drop_last(), i);
        assert(m.update(i, true).drop_last() =~= m.drop_last().update(i, true));
    } else {
        assert(m.update(i, true).drop_last() =~= m.drop_last());
    }
}

/// Nothing marked: every entry counts.
pub proof fn lemma_count_none_marked(n: nat)
    ensures
        count_unmarked(Seq::new(n, |i: int| false)) == n,
    decreases n,
{
    if n > 0 {
        lemma_count_none_marked((n - 1) as nat);
        assert(Seq::new(n, |i: int| false).drop_last() =~= Seq::new((n - 1) as nat, |i: int| false));
    }
}

/// Everything marked: nothing counts.
pub proof fn lemma_count_all_marked(m: Seq<bool>)
    requires
        forall|i: int| 0 <= i < m.len() ==> m[i],
    ensures
        count_unmarked(m) == 0,
    decreases m.len(),
{
    if m.len() > 0 {
        lemma_count_all_marked(m.drop_last());
    }
}

/// The order `order` lists exactly the marked nodes, each once.
pub open spec fn lists_marked(order: Seq<usize>, marked: Seq<bool>) -> bool {
    &&& no_dup(order)
    &&& forall|k: int| 0 <= k < order.len() ==> #[trigger] order[k] < marked.len() && marked[order[k] as int]
    &&& forall|x: int| 0 <= x < marked.len() && marked[x] ==> #[trigger] order.contains(x as usize)
}

/// Marking a node and appending it keeps the order listing the marked nodes.
pub proof fn lemma_lists_marked_push(order: Seq<usize>, marked: Seq<bool>, v: usize)
    requires
        lists_marked(order, marked),
        v < marked.len(),
        !marked[v as int],
    ensures
        lists_marked(order.push(v), marked.update(v as int, true)),
{
    let o2 = order.push(v);
    let m2 = marked.update(v as int, true);
    assert forall|k: int| 0 <= k < o2.len() implies #[trigger] o2[k] < m2.len() && m2[o2[k] as int] by {
        if k < order.len() {
            assert(o2[k] == order[k]);
        }
    }
    assert forall|x: int| 0 <= x < m2.len() && m2[x] implies #[trigger] o2.contains(x as usize) by {
        if x == v as int {
            assert(o2[order.len() as int] == v);
        } else {
            assert(order.contains(x as usize));
            let k = choose|k: int| 0 <= k < order.len() && order[k] == x as usize;
            assert(o2[k] == x as usize);
        }
    }
    assert forall|i: int, j: int| 0 <= i < o2.len() && 0 <= j < o2.len() && i != j implies o2[i] != o2[j] by {
        if i < order.len() && j < order.len() {
            assert(o2[i] == order[i] && o2[j] == order[j]);
        } else if i < order.len() {
            assert(marked[order[i] as int]);
        } else if j < order.len() {
            assert(marked[order[j] as int]);
        }
    }
}

} // verus!
