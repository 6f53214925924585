//! Topological sorting by Kahn's algorithm.
use vstd::prelude::*;
use crate::graph::{edges_in_range, total_edges, Graph};
use crate::reach::{count_unmarked, is_path};
use vstd::set_lib::{lemma_int_range, lemma_len_subset, set_int_range};

verus! {

/// `rank` numbers the nodes so that every edge goes to a higher number.
pub open spec fn is_ranking(adj: Seq<Seq<usize>>, rank: Seq<int>) -> bool {
    &&& rank.len() == adj.len()
    &&& forall|u: int, j: int| 0 <= u < adj.len() && 0 <= j < adj[u].len() ==> rank[u] < rank[#[trigger] adj[u][j] as int]
}

/// The graph has a topological order.
pub open spec fn is_dag(adj: Seq<Seq<usize>>) -> bool {
    exists|rank: Seq<int>| #[trigger] is_ranking(adj, rank)
}

/// Number of entries of `row` equal to `v`.
pub open spec fn occ(row: Seq<usize>, v: usize) -> nat
    decreases row.len(),
{
    if row.len() == 0 {
        0
    } else {
        occ(row.drop_last(), v) + if row.last() == v {
            1nat
        } else {
            0nat
        }
    }
}

/// Number of edges into `v` from the nodes `u < k` with `alive[u]`.
pub open spec fn indeg_from(adj: Seq<Seq<usize>>, alive: Seq<bool>, v: usize, k: int) -> nat
    decreases k,
{
    if k <= 0 {
        0
    } else {
        indeg_from(adj, alive, v, k - 1) + if alive[k - 1] {
            occ(adj[k - 1], v)
        } else {
            0nat
        }
    }
}

pub(crate) proof fn lemma_occ_push(row: Seq<usize>, x: usize, v: usize)
    ensures
        occ(row.push(x), v) == occ(row, v) + if x == v { 1nat } else { 0nat },
{
    assert(row.push(x).drop_last() =~= row);
}

proof fn lemma_occ_le_len(row: Seq<usize>, v: usize)
    ensures
        occ(row, v) <= row.len(),
    decreases row.len(),
{
    if row.len() > 0 {
        lemma_occ_le_len(row.drop_last(), v);
    }
}

proof fn lemma_occ_pos(row: Seq<usize>, v: usize)
    requires
        occ(row, v) > 0,
    ensures
        row.contains(v),
    decreases row.len(),
{
    if row.last() != v {
        lemma_occ_pos(row.drop_last(), v);
        let i = choose|i: int| 0 <= i < row.drop_last().len() && row.drop_last()[i] == v;
        assert(row[i] == v);
    } else {
        assert(row[row.len() - 1] == v);
    }
}

pub(crate) proof fn lemma_occ_take_step(row: Seq<usize>, j: int, v: usize)
    requires
        0 <= j < row.len(),
    ensures
        occ(row.take(j + 1), v) == occ(row.take(j), v) + if row[j] == v { 1nat } else { 0nat },
{
    assert(row.take(j + 1) =~= row.take(j).push(row[j]));
    lemma_occ_push(row.take(j), row[j], v);
}

proof fn lemma_occ_take_le(row: Seq<usize>, j: int, v: usize)
    requires
        0 <= j <= row.len(),
    ensures
        occ(row.take(j), v) <= occ(row, v),
    decreases row.len() - j,
{
    if j < row.len() {
        lemma_occ_take_step(row, j, v);
        lemma_occ_take_le(row, j + 1, v);
    } else {
        assert(row.take(j) =~= row);
    }
}

proof fn lemma_indeg_kill(adj: Seq<Seq<usize>>, alive: Seq<bool>, v: usize, k: int, u: int)
    requires
        0 <= u < alive.len(),
        alive[u],
        k <= alive.len(),
    ensures
        u < k ==> indeg_from(adj, alive.update(u, false), v, k) + occ(adj[u], v) == indeg_from(adj, alive, v, k),
        u >= k ==> indeg_from(adj, alive.update(u, false), v, k) == indeg_from(adj, alive, v, k),
        u < k ==> occ(adj[u], v) <= indeg_from(adj, alive, v, k),
    decreases k,
{
    if k > 0 {
        lemma_indeg_kill(adj, alive, v, k - 1, u);
    }
}

proof fn lemma_indeg_zero(adj: Seq<Seq<usize>>, alive: Seq<bool>, v: usize, k: int, u: int)
    requires
        indeg_from(adj, alive, v, k) == 0,
        0 <= u < k,
        alive[u],
    ensures
        occ(adj[u], v) == 0,
    decreases k,
{
    if u < k - 1 {
        lemma_indeg_zero(adj, alive, v, k - 1, u);
    }
}

proof fn lemma_indeg_pos(adj: Seq<Seq<usize>>, alive: Seq<bool>, v: usize, k: int) -> (u: int)
    requires
        indeg_from(adj, alive, v, k) > 0,
    ensures
        0 <= u < k,
        alive[u],
        occ(adj[u], v) > 0,
    decreases k,
{
    if alive[k - 1] && occ(adj[k - 1], v) > 0 {
        k - 1
    } else {
        lemma_indeg_pos(adj, alive, v, k - 1)
    }
}

proof fn lemma_indeg_all_alive_step(adj: Seq<Seq<usize>>, alive: Seq<bool>, v: usize, k: int)
    requires
        0 <= k,
    ensures
        indeg_from(adj, alive, v, k + 1) == indeg_from(adj, alive, v, k) + if alive[k] { occ(adj[k], v) } else { 0nat },
{
}

pub(crate) proof fn lemma_total_take(adj: Seq<Seq<usize>>, k: int)
    requires
        0 <= k <= adj.len(),
    ensures
        total_edges(adj.take(k)) <= total_edges(adj),
        k < adj.len() ==> total_edges(adj.take(k + 1)) == total_edges(adj.take(k)) + adj[k].len(),
    decreases adj.len() - k,
{
    if k < adj.len() {
        assert(adj.take(k + 1).drop_last() =~= adj.take(k));
        lemma_total_take(adj, k + 1);
    } else {
        assert(adj.take(k) =~= adj);
    }
}

proof fn lemma_indeg_le_total(adj: Seq<Seq<usize>>, alive: Seq<bool>, v: usize, k: int)
    requires
        0 <= k <= adj.len(),
    ensures
        indeg_from(adj, alive, v, k) <= total_edges(adj.take(k)),
    decreases k,
{
    if k > 0 {
        lemma_indeg_le_total(adj, alive, v, k - 1);
        lemma_total_take(adj, k - 1);
        lemma_occ_le_len(adj[k - 1], v);
    }
}

/// An alive node of least rank.
proof fn lemma_min_rank(rank: Seq<int>, alive: Seq<bool>, k: int) -> (m: int)
    requires
        0 < k <= alive.len(),
        exists|x: int| 0 <= x < k && alive[x],
    ensures
        0 <= m < k,
        alive[m],
        forall|x: int| 0 <= x < k && alive[x] ==> rank[m] <= #[trigger] rank[x],
    decreases k,
{
    if exists|x: int| 0 <= x < k - 1 && alive[x] {
        let m0 = lemma_min_rank(rank, alive, k - 1);
        if alive[k - 1] && rank[k - 1] < rank[m0] {
            k - 1
        } else {
            m0
        }
    } else {
        k - 1
    }
}

proof fn lemma_some_unmarked(m: Seq<bool>) -> (i: int)
    requires
        count_unmarked(m) > 0,
    ensures
        0 <= i < m.len(),
        !m[i],
    decreases m.len(),
{
    if m.last() {
        lemma_some_unmarked(m.drop_last())
    } else {
        m.len() - 1
    }
}

/// A walk that returns to its start (a cycle) rules out every topological order.
pub proof fn lemma_cycle_not_dag(adj: Seq<Seq<usize>>, cycle: Seq<usize>)
    requires
        is_path(adj, cycle),
        cycle.len() >= 2,
        cycle[0] == cycle.last(),
    ensures
        !is_dag(adj),
{
    if is_dag(adj) {
        let rank = choose|rank: Seq<int>| #[trigger] is_ranking(adj, rank);
        lemma_ranks_rise(adj, rank, cycle, cycle.len() - 1);
    }
}

proof fn lemma_ranks_rise(adj: Seq<Seq<usize>>, rank: Seq<int>, p: Seq<usize>, i: int)
    requires
        is_ranking(adj, rank),
        is_path(adj, p),
        1 <= i < p.len(),
    ensures
        rank[p[0] as int] < rank[p[i] as int],
    decreases i,
{
    let k = i - 1;
    assert(adj[p[k] as int].contains(p[k + 1]));
    let j = choose|j: int| 0 <= j < adj[p[k] as int].len() && adj[p[k] as int][j] == p[k + 1];
    assert(rank[p[k] as int] < rank[adj[p[k] as int][j] as int]);
    if i > 1 {
        lemma_ranks_rise(adj, rank, p, i - 1);
    }
}

/// Number of alive nodes among `0..k`.
pub open spec fn count_alive(alive: Seq<bool>, k: int) -> nat
    decreases k,
{
    if k <= 0 {
        0
    } else {
        count_alive(alive, k - 1) + if alive[k - 1] {
            1nat
        } else {
            0nat
        }
    }
}

proof fn lemma_count_alive(alive: Seq<bool>, k: int, u: int)
    requires
        0 <= u < alive.len(),
        k <= alive.len(),
    ensures
        alive[u] && u < k ==> count_alive(alive.update(u, false), k) + 1 == count_alive(alive, k),
        alive[u] && u < k ==> count_alive(alive, k) >= 1,
        !(u < k) ==> count_alive(alive.update(u, false), k) == count_alive(alive, k),
    decreases k,
{
    if k > 0 {
        lemma_count_alive(alive, k - 1, u);
    }
}

proof fn lemma_count_alive_pos(alive: Seq<bool>, k: int) -> (u: int)
    requires
        count_alive(alive, k) > 0,
    ensures
        0 <= u < k,
        alive[u],
    decreases k,
{
    if alive[k - 1] {
        k - 1
    } else {
        lemma_count_alive_pos(alive, k - 1)
    }
}

proof fn lemma_count_alive_all(n: int)
    requires
        n >= 0,
    ensures
        count_alive(Seq::new(n as nat, |i: int| true), n) == n,
    decreases n,
{
    if n > 0 {
        lemma_count_alive_all(n - 1);
        lemma_count_alive_prefix(Seq::new(n as nat, |i: int| true), Seq::new((n - 1) as nat, |i: int| true), n - 1);
    }
}

proof fn lemma_count_alive_prefix(a: Seq<bool>, b: Seq<bool>, k: int)
    requires
        0 <= k <= a.len(),
        k <= b.len(),
        forall|i: int| 0 <= i < k ==> a[i] == b[i],
    ensures
        count_alive(a, k) == count_alive(b, k),
    decreases k,
{
    if k > 0 {
        lemma_count_alive_prefix(a, b, k - 1);
    }
}

proof fn lemma_indeg_prefix(adj: Seq<Seq<usize>>, a: Seq<bool>, b: Seq<bool>, v: usize, k: int)
    requires
        0 <= k <= a.len(),
        k <= b.len(),
        forall|i: int| 0 <= i < k ==> a[i] == b[i],
    ensures
        indeg_from(adj, a, v, k) == indeg_from(adj, b, v, k),
    decreases k,
{
    if k > 0 {
        lemma_indeg_prefix(adj, a, b, v, k - 1);
    }
}

/// The graph has a closed walk of at least one edge: a cycle.
pub open spec fn has_cycle(adj: Seq<Seq<usize>>) -> bool {
    exists|c: Seq<usize>| #[trigger] is_path(adj, c) && c.len() >= 2 && c[0] == c.last()
}

/// Among `n + 1` or more values below `n`, two are equal.
proof fn lemma_pigeonhole(s: Seq<usize>, n: nat) -> (r: (int, int))
    requires
        s.len() > n,
        forall|i: int| 0 <= i < s.len() ==> #[trigger] s[i] < n,
    ensures
        0 <= r.0 < r.1 < s.len(),
        s[r.0] == s[r.1],
{
    let t = s.map_values(|x: usize| x as int);
    if t.no_duplicates() {
        t.unique_seq_to_set();
        lemma_int_range(0, n as int);
        assert(t.to_set().subset_of(set_int_range(0, n as int))) by {
            assert forall|x: int| t.to_set().contains(x) implies set_int_range(0, n as int).contains(x) by {
                let i = choose|i: int| 0 <= i < t.len() && t[i] == x;
                assert(s[i] < n);
            }
        }
        lemma_len_subset(t.to_set(), set_int_range(0, n as int));
        assert(false);
        (0, 1)
    } else {
        let (i, j) = choose|i: int, j: int| 0 <= i < t.len() && 0 <= j < t.len() && i != j && t[i] == t[j];
        assert(s[i] == s[j]);
        if i < j { (i, j) } else { (j, i) }
    }
}

/// A predecessor of `v` among the alive nodes.
spec fn alive_pred(adj: Seq<Seq<usize>>, alive: Seq<bool>, v: usize) -> usize {
    (choose|u: int| 0 <= u < adj.len() && alive[u] && adj[u].contains(v)) as usize
}

/// A walk back from `v` through alive predecessors, `k` steps long.
spec fn back_walk(adj: Seq<Seq<usize>>, alive: Seq<bool>, v: usize, k: nat) -> Seq<usize>
    decreases k,
{
    if k == 0 {
        seq![v]
    } else {
        let w = back_walk(adj, alive, v, (k - 1) as nat);
        w.push(alive_pred(adj, alive, w.last()))
    }
}

proof fn lemma_back_walk(adj: Seq<Seq<usize>>, alive: Seq<bool>, v: usize, k: nat)
    requires
        v < adj.len(),
        alive.len() == adj.len(),
        adj.len() <= usize::MAX,
        alive[v as int],
        forall|x: usize| x < adj.len() && alive[x as int]
            ==> exists|u: int| 0 <= u < adj.len() && alive[u] && #[trigger] adj[u].contains(x),
    ensures
        back_walk(adj, alive, v, k).len() == k + 1,
        forall|i: int| 0 <= i <= k ==> #[trigger] back_walk(adj, alive, v, k)[i] < adj.len()
            && alive[back_walk(adj, alive, v, k)[i] as int],
        forall|i: int| 0 <= i < k ==> adj[#[trigger] back_walk(adj, alive, v, k)[i + 1] as int].contains(back_walk(adj, alive, v, k)[i]),
    decreases k,
{
    if k > 0 {
        lemma_back_walk(adj, alive, v, (k - 1) as nat);
        let w = back_walk(adj, alive, v, (k - 1) as nat);
        let x = w.last();
        assert(w[k - 1] == x);
        assert(x < adj.len() && alive[x as int]);
        let u = choose|u: int| 0 <= u < adj.len() && alive[u] && adj[u].contains(x);
        assert(0 <= alive_pred(adj, alive, x) < adj.len());
        let w2 = back_walk(adj, alive, v, k);
        assert forall|i: int| 0 <= i <= k implies #[trigger] w2[i] < adj.len() && alive[w2[i] as int] by {
            if i < k {
                assert(w2[i] == w[i]);
            }
        }
        assert forall|i: int| 0 <= i < k implies adj[#[trigger] w2[i + 1] as int].contains(w2[i]) by {
            if i < k - 1 {
                assert(w2[i + 1] == w[i + 1] && w2[i] == w[i]);
            } else {
                assert(w2[i] == x);
            }
        }
    }
}

/// When every alive node has an alive predecessor and some node is alive, the graph has a cycle.
proof fn lemma_alive_cycle(adj: Seq<Seq<usize>>, alive: Seq<bool>, v: usize)
    requires
        v < adj.len(),
        alive.len() == adj.len(),
        adj.len() <= usize::MAX,
        alive[v as int],
        forall|x: usize| x < adj.len() && alive[x as int]
            ==> exists|u: int| 0 <= u < adj.len() && alive[u] && #[trigger] adj[u].contains(x),
    ensures
        has_cycle(adj),
{
    let n = adj.len();
    lemma_back_walk(adj, alive, v, n);
    let w = back_walk(adj, alive, v, n);
    let (a, b) = lemma_pigeonhole(w, n);
    let c = Seq::new((b - a + 1) as nat, |t: int| w[b - t]);
    assert forall|t: int| 0 <= t < c.len() implies #[trigger] c[t] < adj.len() by {
        assert(w[b - t] < adj.len());
    }
    assert forall|t: int| 0 <= t < c.len() - 1 implies #[trigger] adj[c[t] as int].contains(c[t + 1]) by {
        let i = b - t - 1;
        assert(adj[w[i + 1] as int].contains(w[i]));
    }
    assert(is_path(adj, c));
    assert(c[0] == c.last());
}

impl Graph {
    /// Topological sort by Kahn's algorithm: repeatedly removes a node that no remaining node
    /// has an edge into. Returns each node's rank `1..=n` in the order found, or `None` when
    /// some nodes are never freed, which happens exactly when the graph has no topological
    /// order (it has a cycle).
    #[verifier::spinoff_prover]
    #[verifier::rlimit(50)]
    pub fn topological_sort(&self) -> (r: Option<Vec<usize>>)
        requires
            self.wf(),
        ensures
            r is Some <==> is_dag(self.adj()),
            r is None <==> has_cycle(self.adj()),
            r matches Some(order) ==> order@.len() == self.node_count()
                && is_ranking(self.adj(), order@.map_values(|x: usize| x as int))
                && (forall|u: int| 0 <= u < order@.len() ==> 1 <= #[trigger] order@[u] <= order@.len())
                && (forall|u: int, v: int| 0 <= u < v < order@.len() ==> #[trigger] order@[u] != #[trigger] order@[v]),
    {
        let ghost adj = self.adj();
        let n = self.get_n();
        proof {
            self.lemma_wf();
        }
        let ghost all = Seq::new(n as nat, |i: int| true);
        let mut indeg = vec![0usize; n];
        let mut u: usize = 0;
        while u < n
            invariant
                adj == self.adj(),
                self.wf(),
                n == adj.len(),
                edges_in_range(adj),
                total_edges(adj) <= usize::MAX,
                u <= n,
                indeg@.len() == n,
                all == Seq::new(n as nat, |i: int| true),
                forall|v: int| 0 <= v < n ==> #[trigger] indeg@[v] == indeg_from(adj, all, v as usize, u as int),
            decreases n - u,
        {
            let deg = self.degree(u);
            let mut j: usize = 0;
            proof {
                assert forall|v: int| 0 <= v < n implies #[trigger] indeg@[v] == indeg_from(adj, all, v as usize, u as int)
                    + occ(adj[u as int].take(0), v as usize) by {
                    assert(adj[u as int].take(0) =~= Seq::<usize>::empty());
                }
            }
            while j < deg
                invariant
                    adj == self.adj(),
                    self.wf(),
                    n == adj.len(),
                    edges_in_range(adj),
                    total_edges(adj) <= usize::MAX,
                    u < n,
                    deg == adj[u as int].len(),
                    j <= deg,
                    indeg@.len() == n,
                    all == Seq::new(n as nat, |i: int| true),
                    forall|v: int| 0 <= v < n ==> #[trigger] indeg@[v] == indeg_from(adj, all, v as usize, u as int)
                        + occ(adj[u as int].take(j as int), v as usize),
                decreases deg - j,
            {
                let v = self.neighbor(u, j);
                proof {
                    lemma_indeg_le_total(adj, all, v, u as int);
                    lemma_occ_le_len(adj[u as int].take(j as int), v);
                    lemma_total_take(adj, u as int);
                    lemma_total_take(adj, u as int + 1);
                    assert forall|x: int| 0 <= x < n implies #[trigger] occ(adj[u as int].take(j + 1), x as usize)
                        == occ(adj[u as int].take(j as int), x as usize) + if adj[u as int][j as int] == x as usize { 1nat } else { 0nat } by {
                        lemma_occ_take_step(adj[u as int], j as int, x as usize);
                    }
                }
                let c = indeg[v];
                indeg[v] = c + 1;
                j += 1;
            }
            proof {
                assert(adj[u as int].take(deg as int) =~= adj[u as int]);
                assert forall|v: int| 0 <= v < n implies #[trigger] indeg@[v] == indeg_from(adj, all, v as usize, u + 1) by {
                    lemma_indeg_all_alive_step(adj, all, v as usize, u as int);
                }
            }
            u += 1;
        }
        let mut list: Vec<usize> = Vec::new();
        let mut i: usize = 0;
        while i < n
            invariant
                n == adj.len(),
                i <= n,
                indeg@.len() == n,
                forall|k: int| 0 <= k < list@.len() ==> #[trigger] list@[k] < i && indeg@[list@[k] as int] == 0,
                forall|k1: int, k2: int| 0 <= k1 < k2 < list@.len() ==> #[trigger] list@[k1] < #[trigger] list@[k2],
                forall|x: int| 0 <= x < i && #[trigger] indeg@[x] == 0 ==> list@.contains(x as usize),
            decreases n - i,
        {
            if indeg[i] == 0 {
                let ghost l0 = list@;
                list.push(i);
                proof {
                    assert forall|x: int| 0 <= x < i + 1 && #[trigger] indeg@[x] == 0 implies list@.contains(x as usize) by {
                        if x < i {
                            let k = choose|k: int| 0 <= k < l0.len() && l0[k] == x as usize;
                            assert(list@[k] == x as usize);
                        } else {
                            assert(list@[list@.len() - 1] == i);
                        }
                    }
                }
            }
            i += 1;
        }
        let mut order = vec![0usize; n];
        let mut next: usize = 0;
        let ghost mut alive = all;
        proof {
            lemma_count_alive_all(n as int);
        }
        while list.len() > 0
            invariant
                adj == self.adj(),
                self.wf(),
                n == adj.len(),
                edges_in_range(adj),
                indeg@.len() == n,
                order@.len() == n,
                alive.len() == n,
                forall|v: int| 0 <= v < n ==> #[trigger] indeg@[v] == indeg_from(adj, alive, v as usize, n as int),
                forall|k: int| 0 <= k < list@.len() ==> #[trigger] list@[k] < n && alive[list@[k] as int] && indeg@[list@[k] as int] == 0,
                forall|k1: int, k2: int| 0 <= k1 < k2 < list@.len() ==> #[trigger] list@[k1] != #[trigger] list@[k2],
                forall|x: int| 0 <= x < n && alive[x] && #[trigger] indeg@[x] == 0 ==> list@.contains(x as usize),
                next + count_alive(alive, n as int) == n,
                forall|x: int| 0 <= x < n && !alive[x] ==> 1 <= #[trigger] order@[x] <= next,
                forall|x: int, y: int| 0 <= x < n && 0 <= y < n && x != y && !alive[x] && !alive[y] ==> #[trigger] order@[x] != #[trigger] order@[y],
                forall|x: int, j: int| 0 <= x < n && !alive[x] && 0 <= j < adj[x].len()
                    ==> alive[#[trigger] adj[x][j] as int] || order@[x] < order@[adj[x][j] as int],
                forall|x: int, w: int| 0 <= x < n && 0 <= w < n && !alive[x] && alive[w] ==> #[trigger] occ(adj[w], x as usize) == 0,
            decreases count_alive(alive, n as int),
        {
            let ghost l0 = list@;
            let u = list.pop().unwrap();
            proof {
                assert(l0[l0.len() - 1] == u);
                lemma_count_alive(alive, n as int, u as int);
                assert(indeg_from(adj, alive, u, n as int) == 0);
                lemma_indeg_zero(adj, alive, u, n as int, u as int);
                assert forall|k: int| 0 <= k < list@.len() implies #[trigger] list@[k] != u by {
                    assert(list@[k] == l0[k]);
                }
            }
            next = next + 1;
            order[u] = next;
            let deg = self.degree(u);
            let mut j: usize = 0;
            proof {
                assert forall|v: int| 0 <= v < n implies #[trigger] indeg@[v] + occ(adj[u as int].take(0), v as usize)
                    == indeg_from(adj, alive, v as usize, n as int) by {
                    assert(adj[u as int].take(0) =~= Seq::<usize>::empty());
                }
                assert forall|x: int| 0 <= x < n && alive[x] && x != u && #[trigger] indeg@[x] == 0 implies list@.contains(x as usize) by {
                    assert(l0.contains(x as usize));
                    let k = choose|k: int| 0 <= k < l0.len() && l0[k] == x as usize;
                    assert(k < l0.len() - 1);
                    assert(list@[k] == x as usize);
                }
            }
            while j < deg
                invariant
                    adj == self.adj(),
                    self.wf(),
                    n == adj.len(),
                    edges_in_range(adj),
                    u < n,
                    alive[u as int],
                    occ(adj[u as int], u) == 0,
                    deg == adj[u as int].len(),
                    j <= deg,
                    indeg@.len() == n,
                    alive.len() == n,
                    forall|v: int| 0 <= v < n ==> #[trigger] indeg@[v] + occ(adj[u as int].take(j as int), v as usize)
                        == indeg_from(adj, alive, v as usize, n as int),
                    forall|k: int| 0 <= k < list@.len() ==> #[trigger] list@[k] < n && alive[list@[k] as int]
                        && indeg@[list@[k] as int] == 0 && list@[k] != u,
                    forall|k1: int, k2: int| 0 <= k1 < k2 < list@.len() ==> #[trigger] list@[k1] != #[trigger] list@[k2],
                    forall|x: int| 0 <= x < n && alive[x] && x != u && #[trigger] indeg@[x] == 0 ==> list@.contains(x as usize),
                    forall|x: int, w: int| 0 <= x < n && 0 <= w < n && !alive[x] && alive[w] ==> #[trigger] occ(adj[w], x as usize) == 0,
                decreases deg - j,
            {
                let v = self.neighbor(u, j);
                proof {
                    lemma_occ_take_step(adj[u as int], j as int, v);
                    lemma_occ_take_le(adj[u as int], j as int + 1, v);
                    lemma_indeg_kill(adj, alive, v, n as int, u as int);
                    assert forall|x: int| 0 <= x < n implies #[trigger] occ(adj[u as int].take(j + 1), x as usize)
                        == occ(adj[u as int].take(j as int), x as usize) + if adj[u as int][j as int] == x as usize { 1nat } else { 0nat } by {
                        lemma_occ_take_step(adj[u as int], j as int, x as usize);
                    }
                    assert(v != u);
                    assert(alive[v as int]) by {
                        if !alive[v as int] {
                            assert(occ(adj[u as int], (v as int) as usize) == 0);
                        }
                    }
                }
                let c = indeg[v];
                indeg[v] = c - 1;
                if c - 1 == 0 {
                    let ghost l1 = list@;
                    list.push(v);
                    proof {
                        assert forall|k: int| 0 <= k < list@.len() implies #[trigger] list@[k] < n && alive[list@[k] as int]
                            && indeg@[list@[k] as int] == 0 && list@[k] != u by {
                            if k < l1.len() {
                                assert(list@[k] == l1[k]);
                            }
                        }
                        assert forall|k1: int, k2: int| 0 <= k1 < k2 < list@.len() implies #[trigger] list@[k1] != #[trigger] list@[k2] by {
                            if k2 == l1.len() {
                                assert(list@[k1] == l1[k1]);
                                assert(indeg@[l1[k1] as int] == 0);
                            } else {
                                assert(list@[k1] == l1[k1] && list@[k2] == l1[k2]);
                            }
                        }
                        assert forall|x: int| 0 <= x < n && alive[x] && x != u && #[trigger] indeg@[x] == 0 implies list@.contains(x as usize) by {
                            if x == v as int {
                                assert(list@[list@.len() - 1] == v);
                            } else {
                                let k = choose|k: int| 0 <= k < l1.len() && l1[k] == x as usize;
                                assert(list@[k] == x as usize);
                            }
                        }
                    }
                }
                j += 1;
            }
            let ghost a0 = alive;
            proof {
                assert(adj[u as int].take(deg as int) =~= adj[u as int]);
                alive = alive.update(u as int, false);
                assert forall|v: int| 0 <= v < n implies #[trigger] indeg@[v] == indeg_from(adj, alive, v as usize, n as int) by {
                    lemma_indeg_kill(adj, a0, v as usize, n as int, u as int);
                }
                assert forall|x: int, w: int| 0 <= x < n && 0 <= w < n && !alive[x] && alive[w] implies #[trigger] occ(adj[w], x as usize) == 0 by {
                    if x == u as int {
                        lemma_indeg_zero(adj, a0, u, n as int, w);
                    }
                }
                assert forall|x: int, j2: int| 0 <= x < n && !alive[x] && 0 <= j2 < adj[x].len()
                    implies alive[#[trigger] adj[x][j2] as int] || order@[x] < order@[adj[x][j2] as int] by {
                    let y = adj[x][j2];
                    assert(y < n);
                    if x == u as int {
                        lemma_occ_take_le(adj[u as int], j2 + 1, y);
                        lemma_occ_take_step(adj[u as int], j2, y);
                        assert(occ(adj[u as int], y) > 0);
                        assert(y != u);
                        if !a0[y as int] {
                            assert(occ(adj[u as int], (y as int) as usize) == 0);
                        }
                    } else {
                        assert(!a0[x]);
                        assert(a0[y as int] || order@[x] < order@[y as int]);
                        if y == u {
                            assert(order@[x] <= next - 1);
                            assert(order@[y as int] == next);
                        }
                    }
                }
            }
        }
        proof {
            assert forall|x: int| 0 <= x < n && alive[x] implies #[trigger] indeg@[x] > 0 by {
                if indeg@[x] == 0 {
                    assert(list@.contains(x as usize));
                }
            }
        }
        if next < n {
            proof {
                let w0 = lemma_count_alive_pos(alive, n as int);
                if is_dag(adj) {
                    let rank = choose|rank: Seq<int>| #[trigger] is_ranking(adj, rank);
                    let m = lemma_min_rank(rank, alive, n as int);
                    assert(indeg@[m] > 0);
                    assert(indeg@[m] == indeg_from(adj, alive, (m as usize) as int as usize, n as int));
                    let p = lemma_indeg_pos(adj, alive, m as usize, n as int);
                    lemma_occ_pos(adj[p], m as usize);
                    let j = choose|j: int| 0 <= j < adj[p].len() && adj[p][j] == m as usize;
                    assert(rank[p] < rank[adj[p][j] as int]);
                }
                assert forall|x: usize| x < adj.len() && alive[x as int]
                    implies exists|u: int| 0 <= u < adj.len() && alive[u] && #[trigger] adj[u].contains(x) by {
                    assert(indeg@[x as int] > 0);
                    assert(indeg@[x as int] == indeg_from(adj, alive, (x as int) as usize, n as int));
                    let q = lemma_indeg_pos(adj, alive, x, n as int);
                    lemma_occ_pos(adj[q], x);
                }
                self.lemma_wf();
                lemma_alive_cycle(adj, alive, w0 as usize);
            }
            None
        } else {
            proof {
                assert forall|x: int| 0 <= x < n implies !alive[x] by {
                    if alive[x] {
                        lemma_count_alive(alive, n as int, x);
                    }
                }
                let rk = order@.map_values(|x: usize| x as int);
                assert(is_ranking(adj, rk)) by {
                    assert forall|u2: int, j2: int| 0 <= u2 < adj.len() && 0 <= j2 < adj[u2].len()
                        implies rk[u2] < rk[#[trigger] adj[u2][j2] as int] by {
                        assert(!alive[adj[u2][j2] as int]);
                    }
                }
            }
            proof {
                if has_cycle(adj) {
                    let c = choose|c: Seq<usize>| #[trigger] is_path(adj, c) && c.len() >= 2 && c[0] == c.last();
                    lemma_cycle_not_dag(adj, c);
                    assert(is_dag(adj)) by {
                        assert(is_ranking(adj, order@.map_values(|x: usize| x as int)));
                    }
                }
            }
            Some(order)
        }
    }
}

} // verus!
