//! Edge counts of spanning forests, block by block.
use vstd::prelude::*;
use crate::reach::{lemma_reach_refl, reachable};
use crate::traversal::{has_tree_parent, is_forest_root, is_spanning_forest, lowest_reacher};

verus! {

/// Number of nodes `x < k` whose least reacher is `r`: the size of `r`'s block, counted up to `k`.
pub open spec fn block_size(adj: Seq<Seq<usize>>, r: usize, k: nat) -> nat
    decreases k,
{
    if k == 0 {
        0
    } else {
        block_size(adj, r, (k - 1) as nat) + if lowest_reacher(adj, r, (k - 1) as usize) { 1nat } else { 0nat }
    }
}

/// Number of nodes `x < k` of `r`'s block that have a tree edge into them.
pub open spec fn block_tree_edges(adj: Seq<Seq<usize>>, t: Seq<Seq<usize>>, r: usize, k: nat) -> nat
    decreases k,
{
    if k == 0 {
        0
    } else {
        block_tree_edges(adj, t, r, (k - 1) as nat) + if lowest_reacher(adj, r, (k - 1) as usize)
            && has_tree_parent(t, (k - 1) as usize) { 1nat } else { 0nat }
    }
}

proof fn lemma_block_count(adj: Seq<Seq<usize>>, t: Seq<Seq<usize>>, r: usize, k: nat)
    requires
        is_spanning_forest(adj, t),
        adj.len() <= usize::MAX,
        k <= adj.len(),
        r < adj.len(),
        is_forest_root(adj, r),
    ensures
        block_tree_edges(adj, t, r, k) + (if r < k { 1nat } else { 0nat }) == block_size(adj, r, k),
    decreases k,
{
    if k > 0 {
        lemma_block_count(adj, t, r, (k - 1) as nat);
        let x = (k - 1) as usize;
        assert(has_tree_parent(t, (x as int) as usize) <==> !is_forest_root(adj, (x as int) as usize));
        if x == r {
            lemma_reach_refl(adj, r);
            assert(lowest_reacher(adj, r, r));
            assert(!has_tree_parent(t, x));
        } else if lowest_reacher(adj, r, x) {
            assert(reachable(adj, r, x));
            if x < r {
                lemma_reach_refl(adj, x);
                assert(!reachable(adj, x, x));
            }
            assert(!is_forest_root(adj, x));
            assert(has_tree_parent(t, x));
        }
    }
}

/// Each block of a spanning forest holds one edge fewer than it has nodes: every node of the
/// block but its root has exactly one tree edge into it, and tree edges never leave a block.
pub proof fn lemma_block_edges(adj: Seq<Seq<usize>>, t: Seq<Seq<usize>>, r: usize)
    requires
        is_spanning_forest(adj, t),
        adj.len() <= usize::MAX,
        r < adj.len(),
        is_forest_root(adj, r),
    ensures
        block_tree_edges(adj, t, r, adj.len()) + 1 == block_size(adj, r, adj.len()),
{
    lemma_block_count(adj, t, r, adj.len());
}

} // verus!
