//! Random hypercube flow networks: node `i` of `2^k` sends flow to the neighbours with one more
//! bit set.
use rand::Rng;
use vstd::prelude::*;
use crate::flow::{FlowEdge, FlowNetwork};

verus! {

/// Number of one bits of `x`.
pub open spec fn popcount(x: nat) -> nat
    decreases x,
{
    if x == 0 {
        0
    } else {
        popcount(x / 2) + x % 2
    }
}

proof fn lemma_popcount_le(x: nat)
    ensures
        popcount(x) <= x,
    decreases x,
{
    if x > 0 {
        lemma_popcount_le(x / 2);
    }
}

/// Relies on `rand::Rng::gen_range` over an inclusive range of the thread-local generator: it
/// returns a value of `lo..=hi` and panics only on an empty range.
#[verifier::external_body]
fn random_between(lo: u64, hi: u64) -> (r: u64)
    requires
        lo <= hi,
    ensures
        lo <= r <= hi,
{
    rand::thread_rng().gen_range(lo..=hi)
}

/// The number of one bits of `x`.
pub fn hamming_weight(x: usize) -> (r: usize)
    ensures
        r == popcount(x as nat),
{
    let mut y = x;
    let mut c: usize = 0;
    proof {
        lemma_popcount_le(x as nat);
    }
    while y > 0
        invariant
            c + popcount(y as nat) == popcount(x as nat),
            popcount(x as nat) <= x,
        decreases y,
    {
        c = c + y % 2;
        y = y / 2;
    }
    c
}

/// The number of zero bits of `x` among its `k` lowest bits.
pub fn zero_count(x: usize, k: usize) -> (r: usize)
    requires
        popcount(x as nat) <= k,
    ensures
        r == k - popcount(x as nat),
{
    k - hamming_weight(x)
}

/// The larger of four numbers.
pub open spec fn max4(a: int, b: int, c: int, d: int) -> int {
    let x = if a > b { a } else { b };
    let y = if c > d { c } else { d };
    if x > y { x } else { y }
}

/// In the hypercube of dimension `k`, `j` differs from `i` in one bit below `k` and has more
/// one bits.
pub open spec fn cube_edge(k: nat, i: usize, j: usize) -> bool {
    &&& exists|b: usize| b < k && j == #[trigger] (i ^ (1usize << b))
    &&& popcount(i as nat) < popcount(j as nat)
}

/// The capacity bound of the edge `i -> j`: `2^l`, with `l` the largest of the one and zero
/// counts of `i` and `j` among `k` bits.
pub open spec fn cap_limit(k: nat, i: usize, j: usize) -> int {
    vstd::arithmetic::power2::pow2(max4(popcount(i as nat) as int, k - popcount(i as nat), popcount(j as nat) as int,
        k - popcount(j as nat)) as nat) as int
}

proof fn lemma_popcount_bound(x: nat, k: nat)
    requires
        x < vstd::arithmetic::power2::pow2(k),
    ensures
        popcount(x) <= k,
    decreases k,
{
    if k == 0 {
        vstd::arithmetic::power2::lemma2_to64();
        assert(x == 0);
    } else {
        vstd::arithmetic::power2::lemma_pow2_unfold(k);
        assert(x / 2 < vstd::arithmetic::power2::pow2((k - 1) as nat));
        lemma_popcount_bound(x / 2, (k - 1) as nat);
    }
}

/// The forward edge `f` flips bit `b < k` of its source and carries the capacity `caps[from][b]`.
pub open spec fn edge_from_table(k: nat, caps: Seq<Vec<u32>>, f: FlowEdge) -> bool {
    exists|b: usize| b < k && f.to == #[trigger] (f.from ^ (1usize << b)) && f.cap == caps[f.from as int]@[b as int] as i64
}

/// A hypercube network of `2^k` nodes whose capacities come from `caps`: for each node `i` and
/// bit `b < k` whose flip `j` has more one bits than `i`, it holds one edge `i -> j` of capacity
/// `caps[i][b]`, and no other edge.
#[verifier::spinoff_prover]
#[verifier::rlimit(80)]
pub fn build_hypercube(k: usize, caps: &Vec<Vec<u32>>) -> (g: FlowNetwork)
    requires
        k <= 16,
        caps@.len() == vstd::arithmetic::power2::pow2(k as nat),
        forall|x: int| 0 <= x < caps@.len() ==> (#[trigger] caps@[x])@.len() == k,
    ensures
        g.wf(),
        g.node_count() == vstd::arithmetic::power2::pow2(k as nat),
        forall|e: int| 0 <= e < g.edges().len() ==> (#[trigger] g.edges()[e]).flow == 0,
        forall|e: int| 0 <= e < g.edges().len() && e % 2 == 0 ==> {
            let f = #[trigger] g.edges()[e];
            &&& cube_edge(k as nat, f.from, f.to)
            &&& edge_from_table(k as nat, caps@, f)
        },
        forall|i: usize, b: usize| i < g.node_count() && b < k && popcount(i as nat) < popcount((i ^ (1usize << b)) as nat)
            ==> exists|e: int| 0 <= e < g.edges().len() && e % 2 == 0 && (#[trigger] g.edges()[e]).from == i
                && g.edges()[e].to == #[trigger] (i ^ (1usize << b)),
        forall|e1: int, e2: int| 0 <= e1 < e2 < g.edges().len() && e1 % 2 == 0 && e2 % 2 == 0
            ==> (#[trigger] g.edges()[e1]).from != (#[trigger] g.edges()[e2]).from || g.edges()[e1].to != g.edges()[e2].to,
{
    let n: usize = 1usize << k;
    proof {
        vstd::arithmetic::power2::lemma_pow2_pos(k as nat);
        vstd::arithmetic::power2::lemma2_to64();
        if k < 16 {
            vstd::arithmetic::power2::lemma_pow2_strictly_increases(k as nat, 16);
        }
        vstd::bits::lemma_usize_shl_is_mul(1, k);
    }
    let mut g = FlowNetwork::new(n);
    let ghost mut added: int = 0;
    let mut i: usize = 0;
    while i < n
        invariant
                g.wf(),
                g.node_count() == n,
                n == vstd::arithmetic::power2::pow2(k as nat),
                n == 1usize << k,
                n <= 65536,
                k <= 16,
                caps@.len() == n,
                forall|x: int| 0 <= x < n ==> (#[trigger] caps@[x])@.len() == k,
                g.edges().len() == 2 * added,
                forall|e: int| 0 <= e < g.edges().len() ==> (#[trigger] g.edges()[e]).flow == 0,
                forall|e: int| 0 <= e < g.edges().len() && e % 2 == 0 ==> {
                    let f = #[trigger] g.edges()[e];
                    &&& cube_edge(k as nat, f.from, f.to)
                    &&& edge_from_table(k as nat, caps@, f)
                },
                forall|e: int| 0 <= e < g.edges().len() && e % 2 == 0 ==> (#[trigger] g.edges()[e]).from <= i,
                i <= n,
                0 <= added <= i * k,
                forall|i2: usize, b: usize| i2 < i && b < k && popcount(i2 as nat) < popcount((i2 ^ (1usize << b)) as nat)
                    ==> exists|e: int| 0 <= e < g.edges().len() && e % 2 == 0 && (#[trigger] g.edges()[e]).from == i2
                        && g.edges()[e].to == #[trigger] (i2 ^ (1usize << b)),
                forall|e1: int, e2: int| 0 <= e1 < e2 < g.edges().len() && e1 % 2 == 0 && e2 % 2 == 0
                    ==> (#[trigger] g.edges()[e1]).from != (#[trigger] g.edges()[e2]).from || g.edges()[e1].to != g.edges()[e2].to,
                forall|e: int| 0 <= e < g.edges().len() && e % 2 == 0 ==> (#[trigger] g.edges()[e]).from < i,
        decreases n - i,
    {
        let mut shift: usize = 0;
        while shift < k
            invariant
                g.wf(),
                g.node_count() == n,
                n == vstd::arithmetic::power2::pow2(k as nat),
                n == 1usize << k,
                n <= 65536,
                k <= 16,
                caps@.len() == n,
                forall|x: int| 0 <= x < n ==> (#[trigger] caps@[x])@.len() == k,
                g.edges().len() == 2 * added,
                forall|e: int| 0 <= e < g.edges().len() ==> (#[trigger] g.edges()[e]).flow == 0,
                forall|e: int| 0 <= e < g.edges().len() && e % 2 == 0 ==> {
                    let f = #[trigger] g.edges()[e];
                    &&& cube_edge(k as nat, f.from, f.to)
                    &&& edge_from_table(k as nat, caps@, f)
                },
                forall|e: int| 0 <= e < g.edges().len() && e % 2 == 0 ==> (#[trigger] g.edges()[e]).from <= i,
                i < n,
                shift <= k,
                0 <= added <= i * k + shift,
                forall|i2: usize, b: usize| (i2 < i || (i2 == i && b < shift)) && b < k
                    && popcount(i2 as nat) < popcount((i2 ^ (1usize << b)) as nat)
                    ==> exists|e: int| 0 <= e < g.edges().len() && e % 2 == 0 && (#[trigger] g.edges()[e]).from == i2
                        && g.edges()[e].to == #[trigger] (i2 ^ (1usize << b)),
                forall|e1: int, e2: int| 0 <= e1 < e2 < g.edges().len() && e1 % 2 == 0 && e2 % 2 == 0
                    ==> (#[trigger] g.edges()[e1]).from != (#[trigger] g.edges()[e2]).from || g.edges()[e1].to != g.edges()[e2].to,
                forall|e: int| 0 <= e < g.edges().len() && e % 2 == 0 && (#[trigger] g.edges()[e]).from == i
                    ==> exists|b: usize| b < shift && g.edges()[e].to == #[trigger] (i ^ (1usize << b)),
            decreases k - shift,
        {
            let j = i ^ (1usize << shift);
            assert(j < n) by (bit_vector)
                requires
                    j == i ^ (1usize << shift),
                    i < n,
                    n == 1usize << k,
                    shift < k,
                    k <= 16,
            ;
            let hi = hamming_weight(i);
            let hj = hamming_weight(j);
            if hi < hj {
                let cap = caps[i][shift];
                let ghost e0 = g.edges();
                proof {
                    assert(i * k + shift < 65536 * 16) by (nonlinear_arith)
                        requires i < n, n <= 65536, shift < k, k <= 16;
                }
                let r = g.add_edge(i, j, cap);
                proof {
                    g.lemma_wf();
                    assert(r is Ok);
                    added = added + 1;
                    let ge = g.edges();
                    assert(ge[e0.len() as int] == FlowEdge { from: i, to: j, cap: cap as i64, flow: 0 });
                    assert(cube_edge(k as nat, i, j)) by {
                        assert(shift < k && j == (i ^ (1usize << shift)));
                    }
                    assert forall|e: int| 0 <= e < ge.len() implies (#[trigger] ge[e]).flow == 0 by {
                        if e < e0.len() {
                            assert(ge[e] == e0[e]);
                        }
                    }
                    assert forall|e: int| 0 <= e < ge.len() && e % 2 == 0 implies {
                        let f = #[trigger] ge[e];
                        &&& cube_edge(k as nat, f.from, f.to)
                        &&& edge_from_table(k as nat, caps@, f)
                    } by {
                        if e < e0.len() {
                            assert(ge[e] == e0[e]);
                        } else {
                            assert(e == e0.len());
                            assert(shift < k && ge[e].to == (i ^ (1usize << shift)));
                            assert(edge_from_table(k as nat, caps@, ge[e]));
                        }
                    }
                    assert forall|e: int| 0 <= e < ge.len() && e % 2 == 0 implies (#[trigger] ge[e]).from <= i by {
                        if e < e0.len() {
                            assert(ge[e] == e0[e]);
                        }
                    }
                    assert forall|e: int| 0 <= e < ge.len() && e % 2 == 0 && (#[trigger] ge[e]).from == i
                        implies exists|b: usize| b < shift + 1 && ge[e].to == #[trigger] (i ^ (1usize << b)) by {
                        if e < e0.len() {
                            assert(ge[e] == e0[e]);
                            let b = choose|b: usize| b < shift && e0[e].to == #[trigger] (i ^ (1usize << b));
                            assert(b < shift + 1);
                        } else {
                            assert(ge[e].to == (i ^ (1usize << shift)));
                        }
                    }
                    assert forall|e1: int, e2: int| 0 <= e1 < e2 < ge.len() && e1 % 2 == 0 && e2 % 2 == 0
                        implies (#[trigger] ge[e1]).from != (#[trigger] ge[e2]).from || ge[e1].to != ge[e2].to by {
                        if e2 < e0.len() {
                            assert(ge[e1] == e0[e1] && ge[e2] == e0[e2]);
                        } else {
                            assert(e2 == e0.len());
                            assert(ge[e1] == e0[e1]);
                            if e0[e1].from == i {
                                let b = choose|b: usize| b < shift && e0[e1].to == #[trigger] (i ^ (1usize << b));
                                let sh = shift;
                                assert((i ^ (1usize << b)) != (i ^ (1usize << sh))) by (bit_vector)
                                    requires b < sh, sh < 16;
                            }
                        }
                    }
                    assert forall|i2: usize, b: usize| (i2 < i || (i2 == i && b < shift + 1)) && b < k
                        && popcount(i2 as nat) < popcount((i2 ^ (1usize << b)) as nat)
                        implies exists|e: int| 0 <= e < ge.len() && e % 2 == 0 && (#[trigger] ge[e]).from == i2
                            && ge[e].to == #[trigger] (i2 ^ (1usize << b)) by {
                        if i2 == i && b == shift {
                            assert(ge[e0.len() as int].from == i2 && ge[e0.len() as int].to == (i2 ^ (1usize << b)));
                        } else {
                            let e = choose|e: int| 0 <= e < e0.len() && e % 2 == 0 && (#[trigger] e0[e]).from == i2
                                && e0[e].to == #[trigger] (i2 ^ (1usize << b));
                            assert(ge[e] == e0[e]);
                        }
                    }
                }
            } else {
                proof {
                    assert forall|e: int| 0 <= e < g.edges().len() && e % 2 == 0 && (#[trigger] g.edges()[e]).from == i
                        implies exists|b: usize| b < shift + 1 && g.edges()[e].to == #[trigger] (i ^ (1usize << b)) by {
                        let b = choose|b: usize| b < shift && g.edges()[e].to == #[trigger] (i ^ (1usize << b));
                        assert(b < shift + 1);
                    }
                }
            }
            shift += 1;
        }
        proof {
            assert(i * k + k == (i + 1) * k) by (nonlinear_arith);
            assert forall|e1: int, e2: int| 0 <= e1 < e2 < g.edges().len() && e1 % 2 == 0 && e2 % 2 == 0
                implies (#[trigger] g.edges()[e1]).from != (#[trigger] g.edges()[e2]).from || g.edges()[e1].to != g.edges()[e2].to by {}
        }
        i += 1;
    }
    g
}

/// A hypercube network of `2^k` nodes with random capacities: for each node `i` and bit
/// `b < k` whose flip `j` has more one bits than `i`, one edge `i -> j` with a capacity drawn
/// from `1..=2^l`, where `l` is the largest of the one and zero counts of `i` and `j`; no other
/// edge. `k` is at most 16, the sizes the program accepts.
pub fn initialize_graph(k: usize) -> (g: FlowNetwork)
    requires
        k <= 16,
    ensures
        g.wf(),
        g.node_count() == vstd::arithmetic::power2::pow2(k as nat),
        forall|e: int| 0 <= e < g.edges().len() ==> (#[trigger] g.edges()[e]).flow == 0,
        forall|e: int| 0 <= e < g.edges().len() && e % 2 == 0 ==> {
            let f = #[trigger] g.edges()[e];
            &&& cube_edge(k as nat, f.from, f.to)
            &&& 1 <= f.cap <= cap_limit(k as nat, f.from, f.to)
        },
        forall|i: usize, b: usize| i < g.node_count() && b < k && popcount(i as nat) < popcount((i ^ (1usize << b)) as nat)
            ==> exists|e: int| 0 <= e < g.edges().len() && e % 2 == 0 && (#[trigger] g.edges()[e]).from == i
                && g.edges()[e].to == #[trigger] (i ^ (1usize << b)),
        forall|e1: int, e2: int| 0 <= e1 < e2 < g.edges().len() && e1 % 2 == 0 && e2 % 2 == 0
            ==> (#[trigger] g.edges()[e1]).from != (#[trigger] g.edges()[e2]).from || g.edges()[e1].to != g.edges()[e2].to,
{
    let n: usize = 1usize << k;
    proof {
        vstd::arithmetic::power2::lemma_pow2_pos(k as nat);
        vstd::arithmetic::power2::lemma2_to64();
        if k < 16 {
            vstd::arithmetic::power2::lemma_pow2_strictly_increases(k as nat, 16);
        }
        vstd::bits::lemma_usize_shl_is_mul(1, k);
    }
    let mut caps: Vec<Vec<u32>> = Vec::new();
    let mut i: usize = 0;
    while i < n
        invariant
            n == vstd::arithmetic::power2::pow2(k as nat),
            n == 1usize << k,
            n <= 65536,
            k <= 16,
            i <= n,
            caps@.len() == i,
            forall|x: int| 0 <= x < i ==> (#[trigger] caps@[x])@.len() == k,
            forall|x: usize, b: usize| x < i && b < k && popcount(x as nat) < popcount((x ^ (1usize << b)) as nat)
                ==> 1 <= #[trigger] caps@[x as int]@[b as int] <= cap_limit(k as nat, x, x ^ (1usize << b)),
        decreases n - i,
    {
        let mut row: Vec<u32> = Vec::new();
        let mut shift: usize = 0;
        while shift < k
            invariant
                n == 1usize << k,
                n == vstd::arithmetic::power2::pow2(k as nat),
                k <= 16,
                i < n,
                shift <= k,
                row@.len() == shift,
                forall|b: usize| b < shift && popcount(i as nat) < popcount((i ^ (1usize << b)) as nat)
                    ==> 1 <= #[trigger] row@[b as int] <= cap_limit(k as nat, i, i ^ (1usize << b)),
            decreases k - shift,
        {
            let j = i ^ (1usize << shift);
            assert(j < n) by (bit_vector)
                requires
                    j == i ^ (1usize << shift),
                    i < n,
                    n == 1usize << k,
                    shift < k,
                    k <= 16,
            ;
            let hi = hamming_weight(i);
            let hj = hamming_weight(j);
            proof {
                lemma_popcount_bound(i as nat, k as nat);
                lemma_popcount_bound(j as nat, k as nat);
            }
            let ghost r0 = row@;
            if hi < hj {
                let zi = zero_count(i, k);
                let zj = zero_count(j, k);
                let mut l = hi;
                if zi > l {
                    l = zi;
                }
                if hj > l {
                    l = hj;
                }
                if zj > l {
                    l = zj;
                }
                assert(l as int == max4(hi as int, zi as int, hj as int, zj as int));
                assert(l <= 16);
                let top: u64 = 1u64 << l;
                proof {
                    vstd::arithmetic::power2::lemma2_to64();
                    if l < 16 {
                        vstd::arithmetic::power2::lemma_pow2_strictly_increases(l as nat, 16);
                    }
                    vstd::bits::lemma_u64_shl_is_mul(1, l as u64);
                }
                assert(top as int == vstd::arithmetic::power2::pow2(l as nat));
                let cap = random_between(1, top);
                row.push(cap as u32);
            } else {
                row.push(0);
            }
            proof {
                assert forall|b: usize| b < shift + 1 && popcount(i as nat) < popcount((i ^ (1usize << b)) as nat)
                    implies 1 <= #[trigger] row@[b as int] <= cap_limit(k as nat, i, i ^ (1usize << b)) by {
                    if b < shift {
                        assert(row@[b as int] == r0[b as int]);
                    }
                }
            }
            shift += 1;
        }
        let ghost c0 = caps@;
        caps.push(row);
        proof {
            assert forall|x: usize, b: usize| x < i + 1 && b < k && popcount(x as nat) < popcount((x ^ (1usize << b)) as nat)
                implies 1 <= #[trigger] caps@[x as int]@[b as int] <= cap_limit(k as nat, x, x ^ (1usize << b)) by {
                if x < i {
                    assert(caps@[x as int] == c0[x as int]);
                }
            }
        }
        i += 1;
    }
    let g = build_hypercube(k, &caps);
    proof {
        assert forall|e: int| 0 <= e < g.edges().len() && e % 2 == 0 implies {
            let f = #[trigger] g.edges()[e];
            &&& cube_edge(k as nat, f.from, f.to)
            &&& 1 <= f.cap <= cap_limit(k as nat, f.from, f.to)
        } by {
            let f = g.edges()[e];
            assert(edge_from_table(k as nat, caps@, f));
            let b = choose|b: usize| b < k && f.to == #[trigger] (f.from ^ (1usize << b)) && f.cap == caps@[f.from as int]@[b as int] as i64;
            g.lemma_wf();
            assert(f.from < n);
            assert(1 <= caps@[f.from as int]@[b as int] <= cap_limit(k as nat, f.from, f.from ^ (1usize << b)));
        }
    }
    g
}

} // verus!
