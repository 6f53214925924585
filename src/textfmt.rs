//! Readers for the two textual graph formats: the edge list (`D`/`U`, node count, edge count,
//! then 1-based `u v` pairs) and the DIMACS shortest-path files (`.gr`, `.ss`, `.p2p`).
use vstd::prelude::*;
use crate::graph::{lemma_total_edges_update, total_edges, with_edge, Graph};

verus! {

/// ASCII blank: space, tab, carriage return or line feed.
pub open spec fn is_blank(b: u8) -> bool {
    b == 32 || b == 9 || b == 13 || b == 10
}

/// ASCII decimal digit.
pub open spec fn is_digit(b: u8) -> bool {
    48 <= b <= 57
}

/// The number that a run of decimal digits spells.
pub open spec fn digits_value(s: Seq<u8>) -> int
    decreases s.len(),
{
    if s.len() == 0 {
        0
    } else {
        digits_value(s.drop_last()) * 10 + (s.last() - 48)
    }
}

/// The first position at or after `p` that does not hold a blank.
pub open spec fn skip_blanks(t: Seq<u8>, p: int) -> int
    decreases t.len() - p,
{
    if 0 <= p < t.len() && is_blank(t[p]) {
        skip_blanks(t, p + 1)
    } else {
        p
    }
}

/// The first position at or after `p` that holds a blank or ends the text.
pub open spec fn word_end(t: Seq<u8>, p: int) -> int
    decreases t.len() - p,
{
    if 0 <= p < t.len() && !is_blank(t[p]) {
        word_end(t, p + 1)
    } else {
        p
    }
}

/// The span of the first word at or after `p`.
pub open spec fn word_span(t: Seq<u8>, p: int) -> (int, int) {
    (skip_blanks(t, p), word_end(t, skip_blanks(t, p)))
}

/// The bytes of the first word at or after `p`.
pub open spec fn word_at(t: Seq<u8>, p: int) -> Seq<u8> {
    t.subrange(word_span(t, p).0, word_span(t, p).1)
}

/// The edge list starts with the word `D` or `U`.
pub open spec fn kind_ok(t: Seq<u8>) -> bool {
    word_at(t, 0) == seq![68u8] || word_at(t, 0) == seq![85u8]
}

/// The first line feed at or after `p`, or the end of the text.
pub open spec fn line_end(t: Seq<u8>, p: int) -> int
    decreases t.len() - p,
{
    if 0 <= p < t.len() && t[p] != 10 {
        line_end(t, p + 1)
    } else {
        p
    }
}

/// The position after the line that holds `p`.
pub open spec fn after_line(t: Seq<u8>, p: int) -> int {
    let e = line_end(t, p);
    if 0 <= e < t.len() {
        e + 1
    } else {
        e
    }
}

proof fn lemma_line_end_bounds(t: Seq<u8>, p: int)
    requires
        0 <= p <= t.len(),
    ensures
        p <= line_end(t, p) <= t.len(),
    decreases t.len() - p,
{
    if p < t.len() && t[p] != 10 {
        lemma_line_end_bounds(t, p + 1);
    }
}

/// The position after the first `i` pairs of words from `p`.
pub open spec fn after_pairs(t: Seq<u8>, p: int, i: nat) -> int
    decreases i,
{
    if i == 0 {
        p
    } else {
        word_span(t, word_span(t, after_pairs(t, p, (i - 1) as nat)).1).1
    }
}

/// The values of the `i`-th pair of words from `p`.
pub open spec fn pair_at(t: Seq<u8>, p: int, i: nat) -> (int, int) {
    let q = after_pairs(t, p, i);
    (digits_value(word_at(t, q)), digits_value(word_at(t, word_span(t, q).1)))
}

/// The adjacency lists of `n` nodes after the first `k` pairs from `p`, read as 1-based edges,
/// are added in order (each in both directions unless `directed`).
pub open spec fn edge_list_adj(t: Seq<u8>, p: int, n: nat, k: nat, directed: bool) -> Seq<Seq<usize>>
    decreases k,
{
    if k == 0 {
        Seq::new(n, |i: int| Seq::<usize>::empty())
    } else {
        let prev = edge_list_adj(t, p, n, (k - 1) as nat, directed);
        let (a, b) = pair_at(t, p, (k - 1) as nat);
        let g1 = with_edge(prev, (a - 1) as usize, (b - 1) as usize);
        if directed {
            g1
        } else {
            with_edge(g1, (b - 1) as usize, (a - 1) as usize)
        }
    }
}

/// The graph that an edge-list text describes: its node count, edge count and pairs start
/// after the kind word.
pub open spec fn edge_list_graph(t: Seq<u8>) -> Seq<Seq<usize>> {
    let p0 = word_span(t, 0).1;
    let p1 = word_span(t, p0).1;
    let p2 = word_span(t, p1).1;
    edge_list_adj(t, p2, digits_value(word_at(t, p0)) as nat, digits_value(word_at(t, p1)) as nat,
        word_at(t, 0) == seq![68u8])
}

/// The word at `p` is a number that fits a `usize`.
pub open spec fn number_word(t: Seq<u8>, p: int) -> bool {
    let w = word_at(t, p);
    &&& w.len() > 0
    &&& forall|k: int| 0 <= k < w.len() ==> is_digit(#[trigger] w[k])
    &&& digits_value(w) <= usize::MAX
}

/// Every field of an edge-list text is present and numeric: a kind word, a node count `n`, an
/// edge count `m`, then `m` pairs of node numbers in `1..=n`.
pub open spec fn edge_list_fields(t: Seq<u8>) -> bool {
    let p0 = word_span(t, 0).1;
    let p1 = word_span(t, p0).1;
    let p2 = word_span(t, p1).1;
    let n = digits_value(word_at(t, p0));
    let m = digits_value(word_at(t, p1));
    &&& kind_ok(t)
    &&& number_word(t, p0)
    &&& number_word(t, p1)
    &&& forall|i: nat| i < m ==> #[trigger] number_word(t, after_pairs(t, p2, i))
        && number_word(t, word_span(t, after_pairs(t, p2, i)).1)
        && 1 <= pair_at(t, p2, i).0 <= n && 1 <= pair_at(t, p2, i).1 <= n
}

/// An edge-list text that the reader accepts: all fields present and numeric, with room for
/// the edges.
pub open spec fn well_formed_edge_list(t: Seq<u8>) -> bool {
    &&& edge_list_fields(t)
    &&& 2 * digits_value(word_at(t, word_span(t, word_span(t, 0).1).1)) < usize::MAX
}

/// Why a text was refused.
#[derive(Debug, Clone, Copy, PartialEq, Eq, Structural)]
pub enum ParseError {
    /// The graph kind is neither `D` nor `U`.
    BadKind,
    /// A number was expected and is missing, malformed or too large.
    BadNumber,
    /// A line starts with a letter the format does not know, or a keyword is wrong.
    BadLine,
    /// A node number is 0 or above the declared node count.
    NodeOutOfRange,
    /// Fewer records than the header declares.
    MissingRecords,
    /// The graph cannot hold that many edges.
    TooManyEdges,
}

/// The first non-blank position at or after `pos` and the end of the word that starts there.
pub fn next_word(text: &Vec<u8>, pos: usize) -> (r: (usize, usize))
    requires
        pos <= text@.len(),
    ensures
        pos <= r.0 <= r.1 <= text@.len(),
        forall|k: int| pos <= k < r.0 ==> is_blank(#[trigger] text@[k]),
        forall|k: int| r.0 <= k < r.1 ==> !is_blank(#[trigger] text@[k]),
        r.1 < text@.len() ==> is_blank(text@[r.1 as int]),
        r.0 < text@.len() ==> r.0 < r.1,
        (r.0 as int, r.1 as int) == word_span(text@, pos as int),
{
    let mut s = pos;
    while s < text.len() && (text[s] == 32 || text[s] == 9 || text[s] == 13 || text[s] == 10)
        invariant
            pos <= s <= text@.len(),
            forall|k: int| pos <= k < s ==> is_blank(#[trigger] text@[k]),
            skip_blanks(text@, s as int) == skip_blanks(text@, pos as int),
        decreases text@.len() - s,
    {
        s += 1;
    }
    let mut e = s;
    while e < text.len() && !(text[e] == 32 || text[e] == 9 || text[e] == 13 || text[e] == 10)
        invariant
            s <= e <= text@.len(),
            forall|k: int| s <= k < e ==> !is_blank(#[trigger] text@[k]),
            word_end(text@, e as int) == word_end(text@, s as int),
            skip_blanks(text@, s as int) == s,
        decreases text@.len() - e,
    {
        e += 1;
    }
    (s, e)
}

/// The value of the digits `text[start..end]`, or `None` when the range is empty, holds a
/// non-digit, or spells a number above `u64::MAX`.
pub fn parse_number(text: &Vec<u8>, start: usize, end: usize) -> (r: Option<u64>)
    requires
        start <= end <= text@.len(),
    ensures
        r is Some <==> start < end && (forall|k: int| start <= k < end ==> is_digit(#[trigger] text@[k]))
            && digits_value(text@.subrange(start as int, end as int)) <= u64::MAX,
        r matches Some(v) ==> v == digits_value(text@.subrange(start as int, end as int)),
{
    if start == end {
        return None;
    }
    let mut v: u64 = 0;
    let mut k = start;
    while k < end
        invariant
            start <= k <= end,
            end <= text@.len(),
            forall|q: int| start <= q < k ==> is_digit(#[trigger] text@[q]),
            v == digits_value(text@.subrange(start as int, k as int)),
        decreases end - k,
    {
        let b = text[k];
        proof {
            assert(text@.subrange(start as int, k + 1).drop_last() =~= text@.subrange(start as int, k as int));
        }
        if b < 48 || b > 57 {
            return None;
        }
        let d = (b - 48) as u64;
        if v > (u64::MAX - d) / 10 {
            proof {
                let whole = text@.subrange(start as int, end as int);
                if forall|q: int| start <= q < end ==> is_digit(#[trigger] text@[q]) {
                    assert forall|q: int| 0 <= q < whole.len() implies is_digit(#[trigger] whole[q]) by {
                        assert(whole[q] == text@[start + q]);
                    }
                    lemma_digits_grow(whole, k - start);
                    assert(whole.take(k + 1 - start) =~= text@.subrange(start as int, k + 1));
                    assert(digits_value(text@.subrange(start as int, k + 1)) == v * 10 + d);
                    assert(v * 10 + d > u64::MAX) by (nonlinear_arith)
                        requires v > (u64::MAX - d) / 10, d <= 9;
                }
            }
            return None;
        }
        v = v * 10 + d;
        k += 1;
    }
    Some(v)
}

/// Digits never make a prefix worth more than the whole.
proof fn lemma_digits_grow(s: Seq<u8>, k: int)
    requires
        0 <= k < s.len(),
        forall|q: int| 0 <= q < s.len() ==> is_digit(#[trigger] s[q]),
    ensures
        digits_value(s.take(k + 1)) <= digits_value(s),
    decreases s.len() - k,
{
    lemma_digits_nonneg(s);
    if k + 1 < s.len() {
        lemma_digits_grow(s.drop_last(), k);
        assert(s.drop_last().take(k + 1) =~= s.take(k + 1));
        lemma_digits_nonneg(s.drop_last());
    } else {
        assert(s.take(k + 1) =~= s);
    }
}

proof fn lemma_digits_nonneg(s: Seq<u8>)
    requires
        forall|q: int| 0 <= q < s.len() ==> is_digit(#[trigger] s[q]),
    ensures
        digits_value(s) >= 0,
    decreases s.len(),
{
    if s.len() > 0 {
        lemma_digits_nonneg(s.drop_last());
    }
}

/// The word `text[s..e]` is exactly `w`.
fn word_is(text: &Vec<u8>, s: usize, e: usize, w: &Vec<u8>) -> (r: bool)
    requires
        s <= e <= text@.len(),
    ensures
        r <==> text@.subrange(s as int, e as int) == w@,
{
    if e - s != w.len() {
        proof {
            assert(text@.subrange(s as int, e as int).len() != w@.len());
        }
        return false;
    }
    let mut k: usize = 0;
    while k < w.len()
        invariant
            e - s == w@.len(),
            s <= e <= text@.len(),
            k <= w@.len(),
            forall|q: int| 0 <= q < k ==> text@[s + q] == #[trigger] w@[q],
        decreases w@.len() - k,
    {
        if text[s + k] != w[k] {
            proof {
                assert(text@.subrange(s as int, e as int)[k as int] != w@[k as int]);
            }
            return false;
        }
        k += 1;
    }
    assert(text@.subrange(s as int, e as int) =~= w@);
    true
}

/// The position after the next line feed at or after `pos`, or the end of the text.
fn skip_line(text: &Vec<u8>, pos: usize) -> (r: usize)
    requires
        pos <= text@.len(),
    ensures
        pos <= r <= text@.len(),
        pos < text@.len() ==> pos < r,
        r == after_line(text@, pos as int),
{
    let mut k = pos;
    while k < text.len() && text[k] != 10
        invariant
            pos <= k <= text@.len(),
            line_end(text@, k as int) == line_end(text@, pos as int),
        decreases text@.len() - k,
    {
        k += 1;
    }
    if k < text.len() {
        k + 1
    } else {
        k
    }
}

/// The next word read as a number that fits a `usize`.
fn next_usize(text: &Vec<u8>, pos: usize) -> (r: Result<(usize, usize), ParseError>)
    requires
        pos <= text@.len(),
    ensures
        r matches Ok((v, end)) ==> pos < end <= text@.len() && end == word_span(text@, pos as int).1
            && v == digits_value(word_at(text@, pos as int)),
        r is Err ==> r == Err::<(usize, usize), ParseError>(ParseError::BadNumber),
        number_word(text@, pos as int) ==> r is Ok,
        r is Ok ==> number_word(text@, pos as int),
{
    let (s, e) = next_word(text, pos);
    proof {
        let w = word_at(text@, pos as int);
        assert(w == text@.subrange(s as int, e as int));
        assert forall|k: int| 0 <= k < w.len() && (forall|q: int| s <= q < e ==> is_digit(#[trigger] text@[q]))
            implies is_digit(#[trigger] w[k]) by {
            assert(w[k] == text@[s + k]);
        }
        if number_word(text@, pos as int) {
            let w = word_at(text@, pos as int);
            assert(w == text@.subrange(s as int, e as int));
            assert forall|k: int| s <= k < e implies is_digit(#[trigger] text@[k]) by {
                assert(w[k - s] == text@[k]);
            }
        }
    }
    match parse_number(text, s, e) {
        Some(v) => {
            if v > usize::MAX as u64 {
                Err(ParseError::BadNumber)
            } else {
                Ok((v as usize, e))
            }
        },
        None => Err(ParseError::BadNumber),
    }
}

/// A 1-based node number of the text as a 0-based index below `n`.
fn node_index(v: usize, n: usize) -> (r: Result<usize, ParseError>)
    ensures
        r is Ok <==> 1 <= v <= n,
        r matches Ok(x) ==> x == v - 1 && x < n,
        r is Err ==> r == Err::<usize, ParseError>(ParseError::NodeOutOfRange),
{
    if v == 0 || v > n {
        Err(ParseError::NodeOutOfRange)
    } else {
        Ok(v - 1)
    }
}

/// Reads an edge list: `D` (directed) or `U` (undirected), the node count, the edge count, then
/// that many 1-based `u v` pairs. Undirected edges are stored in both directions. The graph has
/// as many nodes as the second word says.
pub fn parse_edge_list(text: &Vec<u8>) -> (r: Result<Graph, ParseError>)
    ensures
        r == Err::<Graph, ParseError>(ParseError::BadKind) <==> !kind_ok(text@),
        r matches Ok(g) ==> g.wf() && g.node_count() == digits_value(word_at(text@, word_span(text@, 0).1))
            && g.adj() == edge_list_graph(text@),
        well_formed_edge_list(text@) ==> r is Ok,
        r is Ok ==> edge_list_fields(text@),
{
    let (s, e) = next_word(text, 0);
    proof {
        assert(word_at(text@, 0) == text@.subrange(s as int, e as int));
    }
    let directed = if e - s == 1 && text[s] == 68 {
        proof {
            assert(word_at(text@, 0) =~= seq![68u8]);
        }
        true
    } else if e - s == 1 && text[s] == 85 {
        proof {
            assert(word_at(text@, 0) =~= seq![85u8]);
        }
        false
    } else {
        proof {
            if kind_ok(text@) {
                assert(word_at(text@, 0).len() == 1);
                assert(word_at(text@, 0)[0] == text@[s as int]);
            }
        }
        return Err(ParseError::BadKind);
    };
    let (n, p1) = next_usize(text, e)?;
    let (m, p2) = next_usize(text, p1)?;
    let mut g = Graph::new(n);
    let mut pos = p2;
    let mut i: usize = 0;
    while i < m
        invariant
            g.wf(),
            g.node_count() == n,
            n == digits_value(word_at(text@, e as int)),
            e as int == word_span(text@, 0).1,
            p1 as int == word_span(text@, e as int).1,
            p2 as int == word_span(text@, p1 as int).1,
            m == digits_value(word_at(text@, p1 as int)),
            kind_ok(text@),
            directed == (word_at(text@, 0) == seq![68u8]),
            pos <= text@.len(),
            i <= m,
            pos as int == after_pairs(text@, p2 as int, i as nat),
            total_edges(g.adj()) == if directed { i as int } else { 2 * i },
            number_word(text@, e as int),
            number_word(text@, p1 as int),
            forall|i2: nat| i2 < i ==> #[trigger] number_word(text@, after_pairs(text@, p2 as int, i2))
                && number_word(text@, word_span(text@, after_pairs(text@, p2 as int, i2)).1)
                && 1 <= pair_at(text@, p2 as int, i2).0 <= n && 1 <= pair_at(text@, p2 as int, i2).1 <= n,
            g.adj() == edge_list_adj(text@, p2 as int, n as nat, i as nat, directed),
        decreases m - i,
    {
        proof {
            if well_formed_edge_list(text@) {
                assert(number_word(text@, after_pairs(text@, p2 as int, i as nat)));
            }
        }
        let (a, q1) = next_usize(text, pos)?;
        proof {
            if well_formed_edge_list(text@) {
                assert(number_word(text@, word_span(text@, after_pairs(text@, p2 as int, i as nat)).1));
            }
        }
        let (b, q2) = next_usize(text, q1)?;
        proof {
            if well_formed_edge_list(text@) {
                assert(pair_at(text@, p2 as int, i as nat) == (a as int, b as int));
                assert(1 <= pair_at(text@, p2 as int, i as nat).0 <= n);
            }
        }
        let u = node_index(a, n)?;
        let v = node_index(b, n)?;
        let ghost prev = g.adj();
        proof {
            if well_formed_edge_list(text@) {
                assert(number_word(text@, after_pairs(text@, p2 as int, i as nat)));
                assert(2 * m < usize::MAX);
            }
        }
        if g.add_edge(u, v).is_err() {
            return Err(ParseError::TooManyEdges);
        }
        proof {
            lemma_total_edges_update(prev, u as int, prev[u as int].push(v));
        }
        let ghost mid = g.adj();
        if !directed && g.add_edge(v, u).is_err() {
            return Err(ParseError::TooManyEdges);
        }
        proof {
            if !directed {
                lemma_total_edges_update(mid, v as int, mid[v as int].push(u));
            }
        }
        proof {
            assert(pair_at(text@, p2 as int, i as nat) == (a as int, b as int));
            assert(after_pairs(text@, p2 as int, (i + 1) as nat) == q2 as int);
            assert(number_word(text@, after_pairs(text@, p2 as int, i as nat)));
            assert(number_word(text@, word_span(text@, after_pairs(text@, p2 as int, i as nat)).1));
            assert forall|i2: nat| i2 < i + 1 implies #[trigger] number_word(text@, after_pairs(text@, p2 as int, i2))
                && number_word(text@, word_span(text@, after_pairs(text@, p2 as int, i2)).1)
                && 1 <= pair_at(text@, p2 as int, i2).0 <= n && 1 <= pair_at(text@, p2 as int, i2).1 <= n by {
                if i2 == i as nat {
                    assert(1 <= a <= n && 1 <= b <= n);
                }
            }
        }
        pos = q2;
        i += 1;
    }
    proof {
        assert(edge_list_fields(text@));
    }
    Ok(g)
}

/// The word at `p` is a number that fits a `u64`.
pub open spec fn u64_word(t: Seq<u8>, p: int) -> bool {
    let w = word_at(t, p);
    &&& w.len() > 0
    &&& forall|k: int| 0 <= k < w.len() ==> is_digit(#[trigger] w[k])
    &&& digits_value(w) <= u64::MAX
}

/// `prefix` in front of the arcs of a parsed rest.
pub open spec fn prepend_arcs(prefix: Seq<(usize, usize, u64)>, rest: Option<(int, Seq<(usize, usize, u64)>)>)
    -> Option<(int, Seq<(usize, usize, u64)>)> {
    match rest {
        Some((n, r)) => Some((n, prefix + r)),
        None => None,
    }
}

/// The rest of a DIMACS graph text from `p`: comment lines `c ...`, one problem line
/// `p sp <n> <m>`, and after it arc lines `a <u> <v> <w>` with 1-based nodes in `1..=n`.
/// Gives the node count and the arcs with 0-based nodes, in order; `None` when malformed.
pub open spec fn gr_body(t: Seq<u8>, p: int, seen: bool, n: int) -> Option<(int, Seq<(usize, usize, u64)>)>
    decreases t.len() - p,
{
    if !(0 <= p <= t.len()) {
        None
    } else {
        let e = word_span(t, p).1;
        if word_span(t, p).0 == e {
            if seen { Some((n, Seq::empty())) } else { None }
        } else if word_at(t, p) == seq![99u8] {
            let q = after_line(t, e);
            if p < q <= t.len() {
                gr_body(t, q, seen, n)
            } else {
                None
            }
        } else if word_at(t, p) == seq![112u8] && !seen {
            let e2 = word_span(t, e).1;
            let q1 = word_span(t, e2).1;
            let q2 = word_span(t, q1).1;
            if word_at(t, e) == seq![115u8, 112u8] && number_word(t, e2) && number_word(t, q1) && p < q2 <= t.len() {
                gr_body(t, q2, true, digits_value(word_at(t, e2)))
            } else {
                None
            }
        } else if word_at(t, p) == seq![97u8] && seen {
            let q1 = word_span(t, e).1;
            let q2 = word_span(t, q1).1;
            let e3 = word_span(t, q2).1;
            let x = digits_value(word_at(t, e));
            let y = digits_value(word_at(t, q1));
            if number_word(t, e) && number_word(t, q1) && u64_word(t, q2) && 1 <= x <= n && 1 <= y <= n && p < e3 <= t.len() {
                prepend_arcs(seq![((x - 1) as usize, (y - 1) as usize, digits_value(word_at(t, q2)) as u64)], gr_body(t, e3, seen, n))
            } else {
                None
            }
        } else {
            None
        }
    }
}

/// Reads a DIMACS shortest-path graph: comment lines `c ...`, the problem line `p sp n m`, and
/// arc lines `a u v w` with 1-based nodes. Returns the node count and the arcs with 0-based
/// nodes, every one of them below the node count.
pub fn parse_dimacs_gr(text: &Vec<u8>) -> (r: Result<(usize, Vec<(usize, usize, u64)>), ParseError>)
    ensures
        r is Ok <==> gr_body(text@, 0, false, 0) is Some,
        r matches Ok((n, arcs)) ==> n as int == (gr_body(text@, 0, false, 0)->0).0 && arcs@ == (gr_body(text@, 0, false, 0)->0).1,
        r matches Ok((n, arcs)) ==> forall|k: int| 0 <= k < arcs@.len() ==> (#[trigger] arcs@[k]).0 < n && arcs@[k].1 < n,
{
    let c: Vec<u8> = vec![99];
    let p: Vec<u8> = vec![112];
    let a: Vec<u8> = vec![97];
    let sp: Vec<u8> = vec![115, 112];
    assert(c@ =~= seq![99u8]);
    assert(p@ =~= seq![112u8]);
    assert(a@ =~= seq![97u8]);
    assert(sp@ =~= seq![115u8, 112u8]);
    let mut pos: usize = 0;
    let mut n: usize = 0;
    let mut seen_problem = false;
    let mut arcs: Vec<(usize, usize, u64)> = Vec::new();
    assert(arcs@ + Seq::<(usize, usize, u64)>::empty() =~= arcs@);
    proof {
        if gr_body(text@, 0, false, 0) is Some {
            let rest = gr_body(text@, 0, false, 0)->0;
            assert(arcs@ + rest.1 =~= rest.1);
        }
    }
    loop
        invariant
            pos <= text@.len(),
            c@ == seq![99u8],
            p@ == seq![112u8],
            a@ == seq![97u8],
            sp@ == seq![115u8, 112u8],
            forall|k: int| 0 <= k < arcs@.len() ==> (#[trigger] arcs@[k]).0 < n && arcs@[k].1 < n,
            !seen_problem ==> arcs@.len() == 0,
            gr_body(text@, 0, false, 0) == prepend_arcs(arcs@, gr_body(text@, pos as int, seen_problem, n as int)),
        ensures
            seen_problem,
            gr_body(text@, 0, false, 0) == Some((n as int, arcs@)),
            forall|k: int| 0 <= k < arcs@.len() ==> (#[trigger] arcs@[k]).0 < n && arcs@[k].1 < n,
        decreases text@.len() - pos,
    {
        let (s, e) = next_word(text, pos);
        if s == e {
            if !seen_problem {
                return Err(ParseError::MissingRecords);
            }
            proof {
                assert(arcs@ + Seq::<(usize, usize, u64)>::empty() =~= arcs@);
            }
            break;
        }
        if word_is(text, s, e, &c) {
            let q = skip_line(text, e);
            proof {
                lemma_line_end_bounds(text@, e as int);
            }
            pos = q;
        } else if word_is(text, s, e, &p) && !seen_problem {
            let (s2, e2) = next_word(text, e);
            if !word_is(text, s2, e2, &sp) {
                return Err(ParseError::BadLine);
            }
            let (nn, q1) = next_usize(text, e2)?;
            let (_m, q2) = next_usize(text, q1)?;
            n = nn;
            seen_problem = true;
            pos = q2;
        } else if word_is(text, s, e, &a) && seen_problem {
            let (x, q1) = next_usize(text, e)?;
            let (y, q2) = next_usize(text, q1)?;
            let (s3, e3) = next_word(text, q2);
            proof {
                let w = word_at(text@, q2 as int);
                assert(w == text@.subrange(s3 as int, e3 as int));
                assert forall|k: int| 0 <= k < w.len() && (forall|q: int| s3 <= q < e3 ==> is_digit(#[trigger] text@[q]))
                    implies is_digit(#[trigger] w[k]) by {
                    assert(w[k] == text@[s3 + k]);
                }
                if u64_word(text@, q2 as int) {
                    assert forall|k: int| s3 <= k < e3 implies is_digit(#[trigger] text@[k]) by {
                        assert(w[k - s3] == text@[k]);
                    }
                }
            }
            let w = match parse_number(text, s3, e3) {
                Some(w) => w,
                None => {
                    return Err(ParseError::BadNumber);
                },
            };
            let u = node_index(x, n)?;
            let v = node_index(y, n)?;
            let ghost a0 = arcs@;
            arcs.push((u, v, w));
            proof {
                assert forall|k: int| 0 <= k < arcs@.len() implies (#[trigger] arcs@[k]).0 < n && arcs@[k].1 < n by {
                    if k < a0.len() {
                        assert(arcs@[k] == a0[k]);
                    }
                }
                assert(a0 + seq![(u, v, w)] =~= arcs@);
                let rest = gr_body(text@, e3 as int, seen_problem, n as int);
                if rest is Some {
                    assert(a0 + (seq![(u, v, w)] + (rest->0).1) =~= arcs@ + (rest->0).1);
                }
            }
            pos = e3;
        } else {
            return Err(ParseError::BadLine);
        }
    }
    Ok((n, arcs))
}

/// A single-source problem: the declared number of sources and the 0-based sources.
#[derive(Debug)]
pub struct ProblemSpecSS {
    pub num_sources: usize,
    pub sources: Vec<usize>,
}

/// A point-to-point problem: the declared number of pairs and the 0-based pairs.
pub struct ProblemSpecP2P {
    pub num_pairs: usize,
    pub pairs: Vec<(usize, usize)>,
}

/// The header `p aux sp <kind> <count>` of a DIMACS auxiliary file, after comment lines
/// `c ...`, read from `p`: the count and the position after it.
pub open spec fn aux_header(t: Seq<u8>, p: int, kind: Seq<u8>) -> Option<(int, int)>
    decreases t.len() - p,
{
    if !(0 <= p <= t.len()) {
        None
    } else {
        let e = word_span(t, p).1;
        if word_span(t, p).0 == e {
            None
        } else if word_at(t, p) == seq![99u8] {
            let q = after_line(t, e);
            if p < q <= t.len() {
                aux_header(t, q, kind)
            } else {
                None
            }
        } else if word_at(t, p) == seq![112u8] {
            let e1 = word_span(t, e).1;
            let e2 = word_span(t, e1).1;
            let e3 = word_span(t, e2).1;
            if word_at(t, e) == seq![97u8, 117u8, 120u8] && word_at(t, e1) == seq![115u8, 112u8] && word_at(t, e2) == kind
                && number_word(t, e3) {
                Some((digits_value(word_at(t, e3)), word_span(t, e3).1))
            } else {
                None
            }
        } else {
            None
        }
    }
}

/// Reads the header `p aux sp <kind> <count>` at or after `pos` (comment lines skipped) and
/// returns the count and the position after it.
fn read_aux_header(text: &Vec<u8>, pos: usize, kind: &Vec<u8>) -> (r: Result<(usize, usize), ParseError>)
    requires
        pos <= text@.len(),
    ensures
        r is Ok <==> aux_header(text@, pos as int, kind@) is Some,
        r matches Ok((v, end)) ==> end <= text@.len() && aux_header(text@, pos as int, kind@) == Some((v as int, end as int)),
{
    let c: Vec<u8> = vec![99];
    let p: Vec<u8> = vec![112];
    let aux: Vec<u8> = vec![97, 117, 120];
    let sp: Vec<u8> = vec![115, 112];
    assert(c@ =~= seq![99u8]);
    assert(p@ =~= seq![112u8]);
    assert(aux@ =~= seq![97u8, 117u8, 120u8]);
    assert(sp@ =~= seq![115u8, 112u8]);
    let mut at = pos;
    loop
        invariant
            at <= text@.len(),
            c@ == seq![99u8],
            p@ == seq![112u8],
            aux@ == seq![97u8, 117u8, 120u8],
            sp@ == seq![115u8, 112u8],
            aux_header(text@, at as int, kind@) == aux_header(text@, pos as int, kind@),
        decreases text@.len() - at,
    {
        let (s, e) = next_word(text, at);
        if s == e {
            return Err(ParseError::MissingRecords);
        }
        if word_is(text, s, e, &c) {
            let q = skip_line(text, e);
            proof {
                lemma_line_end_bounds(text@, e as int);
            }
            at = q;
        } else if word_is(text, s, e, &p) {
            let (s1, e1) = next_word(text, e);
            let (s2, e2) = next_word(text, e1);
            let (s3, e3) = next_word(text, e2);
            if !word_is(text, s1, e1, &aux) || !word_is(text, s2, e2, &sp) || !word_is(text, s3, e3, kind) {
                return Err(ParseError::BadLine);
            }
            let r = next_usize(text, e3);
            proof {
                if number_word(text@, e3 as int) {
                    assert(r is Ok);
                }
            }
            return r;
        } else {
            return Err(ParseError::BadLine);
        }
    }
}

/// `prefix` in front of a parsed rest, or nothing when the rest fails.
pub open spec fn prepend<A>(prefix: Seq<A>, rest: Option<Seq<A>>) -> Option<Seq<A>> {
    match rest {
        Some(r) => Some(prefix + r),
        None => None,
    }
}

/// The source lines `s <node>` (1-based) from `p` on, comment lines `c ...` skipped, as 0-based
/// nodes; `None` when some line is malformed.
pub open spec fn ss_body(t: Seq<u8>, p: int) -> Option<Seq<usize>>
    decreases t.len() - p,
{
    if !(0 <= p <= t.len()) {
        None
    } else {
        let e = word_span(t, p).1;
        if word_span(t, p).0 == e {
            Some(Seq::empty())
        } else if word_at(t, p) == seq![99u8] {
            let q = after_line(t, e);
            if p < q <= t.len() {
                ss_body(t, q)
            } else {
                None
            }
        } else if word_at(t, p) == seq![115u8] {
            let q = word_span(t, e).1;
            if number_word(t, e) && digits_value(word_at(t, e)) >= 1 && p < q <= t.len() {
                prepend(seq![(digits_value(word_at(t, e)) - 1) as usize], ss_body(t, q))
            } else {
                None
            }
        } else {
            None
        }
    }
}

/// The pair lines `q <u> <v>` (1-based) from `p` on, comment lines skipped, as 0-based pairs;
/// `None` when some line is malformed.
pub open spec fn p2p_body(t: Seq<u8>, p: int) -> Option<Seq<(usize, usize)>>
    decreases t.len() - p,
{
    if !(0 <= p <= t.len()) {
        None
    } else {
        let e = word_span(t, p).1;
        if word_span(t, p).0 == e {
            Some(Seq::empty())
        } else if word_at(t, p) == seq![99u8] {
            let q = after_line(t, e);
            if p < q <= t.len() {
                p2p_body(t, q)
            } else {
                None
            }
        } else if word_at(t, p) == seq![113u8] {
            let e1 = word_span(t, e).1;
            let q = word_span(t, e1).1;
            if number_word(t, e) && digits_value(word_at(t, e)) >= 1 && number_word(t, e1)
                && digits_value(word_at(t, e1)) >= 1 && p < q <= t.len() {
                prepend(seq![((digits_value(word_at(t, e)) - 1) as usize, (digits_value(word_at(t, e1)) - 1) as usize)],
                    p2p_body(t, q))
            } else {
                None
            }
        } else {
            None
        }
    }
}

/// A source file: its declared count and its 0-based sources.
pub open spec fn ss_text(t: Seq<u8>) -> Option<(int, Seq<usize>)> {
    match aux_header(t, 0, seq![115u8, 115u8]) {
        Some((count, q)) => match ss_body(t, q) {
            Some(sources) => Some((count, sources)),
            None => None,
        },
        None => None,
    }
}

/// A pair file: its declared count and its 0-based pairs.
pub open spec fn p2p_text(t: Seq<u8>) -> Option<(int, Seq<(usize, usize)>)> {
    match aux_header(t, 0, seq![112u8, 50u8, 112u8]) {
        Some((count, q)) => match p2p_body(t, q) {
            Some(pairs) => Some((count, pairs)),
            None => None,
        },
        None => None,
    }
}

/// Reads a DIMACS source file: `p aux sp ss <count>` and lines `s <node>` with 1-based nodes,
/// comment lines `c ...` anywhere. Sources become 0-based.
pub fn parse_ss(text: &Vec<u8>) -> (r: Result<ProblemSpecSS, ParseError>)
    ensures
        r is Ok <==> ss_text(text@) is Some,
        r matches Ok(spec) ==> spec.num_sources as int == (ss_text(text@)->0).0 && spec.sources@ == (ss_text(text@)->0).1,
{
    let ss: Vec<u8> = vec![115, 115];
    let c: Vec<u8> = vec![99];
    let sw: Vec<u8> = vec![115];
    assert(ss@ =~= seq![115u8, 115u8]);
    assert(c@ =~= seq![99u8]);
    assert(sw@ =~= seq![115u8]);
    let (num_sources, mut pos) = read_aux_header(text, 0, &ss)?;
    let ghost start = pos;
    let mut sources: Vec<usize> = Vec::new();
    assert(sources@ + ss_body(text@, pos as int)->0 =~= ss_body(text@, pos as int)->0);
    loop
        invariant
            pos <= text@.len(),
            aux_header(text@, 0, seq![115u8, 115u8]) == Some((num_sources as int, start as int)),
            c@ == seq![99u8],
            sw@ == seq![115u8],
            ss_body(text@, start as int) == prepend(sources@, ss_body(text@, pos as int)),
        ensures
            aux_header(text@, 0, seq![115u8, 115u8]) == Some((num_sources as int, start as int)),
            ss_body(text@, start as int) == Some(sources@),
        decreases text@.len() - pos,
    {
        let (s, e) = next_word(text, pos);
        if s == e {
            proof {
                assert(ss_body(text@, pos as int) == Some(Seq::<usize>::empty()));
                assert(sources@ + Seq::<usize>::empty() =~= sources@);
            }
            break;
        }
        if word_is(text, s, e, &c) {
            let q = skip_line(text, e);
            proof {
                lemma_line_end_bounds(text@, e as int);
            }
            pos = q;
        } else if word_is(text, s, e, &sw) {
            let (x, q) = next_usize(text, e)?;
            let u = node_index(x, usize::MAX)?;
            let ghost s0 = sources@;
            sources.push(u);
            proof {
                assert(s0 + seq![u] =~= sources@);
                let rest = ss_body(text@, q as int);
                if rest is Some {
                    assert(s0 + (seq![u] + rest->0) =~= sources@ + rest->0);
                }
            }
            pos = q;
        } else {
            return Err(ParseError::BadLine);
        }
    }
    proof {
        assert(sources@ + Seq::<usize>::empty() =~= sources@);
    }
    Ok(ProblemSpecSS { num_sources, sources })
}

/// Reads a DIMACS pair file: `p aux sp p2p <count>` and lines `q <u> <v>` with 1-based nodes,
/// comment lines `c ...` anywhere. Pairs become 0-based.
pub fn parse_p2p(text: &Vec<u8>) -> (r: Result<ProblemSpecP2P, ParseError>)
    ensures
        r is Ok <==> p2p_text(text@) is Some,
        r matches Ok(spec) ==> spec.num_pairs as int == (p2p_text(text@)->0).0 && spec.pairs@ == (p2p_text(text@)->0).1,
{
    let p2p: Vec<u8> = vec![112, 50, 112];
    let c: Vec<u8> = vec![99];
    let qw: Vec<u8> = vec![113];
    assert(p2p@ =~= seq![112u8, 50u8, 112u8]);
    assert(c@ =~= seq![99u8]);
    assert(qw@ =~= seq![113u8]);
    let (num_pairs, mut pos) = read_aux_header(text, 0, &p2p)?;
    let ghost start = pos;
    let mut pairs: Vec<(usize, usize)> = Vec::new();
    assert(pairs@ + p2p_body(text@, pos as int)->0 =~= p2p_body(text@, pos as int)->0);
    loop
        invariant
            pos <= text@.len(),
            aux_header(text@, 0, seq![112u8, 50u8, 112u8]) == Some((num_pairs as int, start as int)),
            c@ == seq![99u8],
            qw@ == seq![113u8],
            p2p_body(text@, start as int) == prepend(pairs@, p2p_body(text@, pos as int)),
        ensures
            aux_header(text@, 0, seq![112u8, 50u8, 112u8]) == Some((num_pairs as int, start as int)),
            p2p_body(text@, start as int) == Some(pairs@),
        decreases text@.len() - pos,
    {
        let (s, e) = next_word(text, pos);
        if s == e {
            proof {
                assert(p2p_body(text@, pos as int) == Some(Seq::<(usize, usize)>::empty()));
                assert(pairs@ + Seq::<(usize, usize)>::empty() =~= pairs@);
            }
            break;
        }
        if word_is(text, s, e, &c) {
            let q = skip_line(text, e);
            proof {
                lemma_line_end_bounds(text@, e as int);
            }
            pos = q;
        } else if word_is(text, s, e, &qw) {
            let (x, q1) = next_usize(text, e)?;
            let (y, q2) = next_usize(text, q1)?;
            let u = node_index(x, usize::MAX)?;
            let v = node_index(y, usize::MAX)?;
            let ghost p0 = pairs@;
            pairs.push((u, v));
            proof {
                assert(p0 + seq![(u, v)] =~= pairs@);
                let rest = p2p_body(text@, q2 as int);
                if rest is Some {
                    assert(p0 + (seq![(u, v)] + rest->0) =~= pairs@ + rest->0);
                }
            }
            pos = q2;
        } else {
            return Err(ParseError::BadLine);
        }
    }
    proof {
        assert(pairs@ + Seq::<(usize, usize)>::empty() =~= pairs@);
    }
    Ok(ProblemSpecP2P { num_pairs, pairs })
}

} // verus!
