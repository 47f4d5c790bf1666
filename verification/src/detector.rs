use vstd::prelude::*;

use std::collections::BTreeSet;
use std::collections::HashSet;

use crate::graph::{names_of, Graph};
use crate::scc::{
    alone_in_component, component_of, is_predecessor_lists, is_successor_lists, is_token_path,
    lemma_same_component_refl, predecessor_lists, reaches, same_component, step, successor_lists,
};
use crate::types::Cycle;

verus! {

broadcast use vstd::std_specs::btree::group_btree_axioms, vstd::laws_cmp::group_laws_cmp,
    vstd::std_specs::hash::group_hash_axioms;

/// The longest cycle searched, in hops.
pub const MAX_HOPS: usize = 4;

/// The hub tokens that every search starts from, in search order:
/// WETH, USDT, USDC, DAI, WBTC (lowercased addresses).
pub open spec fn hub_addresses() -> Seq<Seq<char>> {
    seq![
        "0xc02aaa39b223fe8d0a0e5c4f27ead9083c756cc2"@,
        "0xdac17f958d2ee523a2206206994597c13d831ec7"@,
        "0xa0b86991c6218b36c1d19d4a2e9eb0ce3606eb48"@,
        "0x6b175474e89094c44da98b954eedeac495271d0f"@,
        "0x2260fac5e5542a773aa44fbcfedf7c193bc2c599"@,
    ]
}

/// The hub token addresses, in search order.
pub fn hub_tokens() -> (hubs: Vec<String>)
    ensures
        names_of(hubs@) == hub_addresses(),
{
    let mut hubs: Vec<String> = Vec::new();
    hubs.push(String::from_str("0xc02aaa39b223fe8d0a0e5c4f27ead9083c756cc2"));  // WETH
    hubs.push(String::from_str("0xdac17f958d2ee523a2206206994597c13d831ec7"));  // USDT
    hubs.push(String::from_str("0xa0b86991c6218b36c1d19d4a2e9eb0ce3606eb48"));  // USDC
    hubs.push(String::from_str("0x6b175474e89094c44da98b954eedeac495271d0f"));  // DAI
    hubs.push(String::from_str("0x2260fac5e5542a773aa44fbcfedf7c193bc2c599"));  // WBTC
    assert(names_of(hubs@) =~= hub_addresses());
    hubs
}

/// Token that edge `e` leaves from.
pub open spec fn edge_in<R>(g: Graph<R>, e: usize) -> usize {
    g.edges@[e as int].token_in
}

/// Token that edge `e` arrives at.
pub open spec fn edge_out<R>(g: Graph<R>, e: usize) -> usize {
    g.edges@[e as int].token_out
}

/// Pool that edge `e` trades through.
pub open spec fn edge_pool<R>(g: Graph<R>, e: usize) -> usize {
    g.edges@[e as int].pool_idx
}

/// `w` is an arbitrage cycle from `start`: between 2 and `MAX_HOPS` edges,
/// each leaving the token the previous one reached, starting and ending at
/// `start`, visiting no token twice and trading through no pool twice.
pub open spec fn is_arbitrage_cycle<R>(g: Graph<R>, start: int, w: Seq<usize>) -> bool {
    &&& 2 <= w.len() <= MAX_HOPS
    &&& forall|i: int| 0 <= i < w.len() ==> #[trigger] w[i] < g.edges@.len()
    &&& edge_in(g, w[0]) == start
    &&& edge_out(g, w.last()) == start
    &&& forall|i: int, j: int|
        0 <= i && j == i + 1 && j < w.len() ==> edge_out(g, #[trigger] w[i]) == edge_in(
            g,
            #[trigger] w[j],
        )
    &&& forall|i: int, j: int|
        0 <= i < j < w.len() ==> edge_in(g, #[trigger] w[i]) != edge_in(g, #[trigger] w[j])
    &&& forall|i: int, j: int|
        0 <= i < j < w.len() ==> edge_pool(g, #[trigger] w[i]) != edge_pool(g, #[trigger] w[j])
}

/// The token each edge of `w` leaves from.
pub open spec fn walk_tokens<R>(g: Graph<R>, w: Seq<usize>) -> Seq<usize> {
    w.map_values(|e: usize| edge_in(g, e))
}

/// `c` is a cycle found by the search: an arbitrage cycle from its first
/// token, with `tokens[i]` the token that edge `i` leaves from.
pub open spec fn cycle_ok<R>(g: Graph<R>, c: Cycle) -> bool {
    &&& c.edges@.len() >= 1
    &&& c.tokens@ == walk_tokens(g, c.edges@)
    &&& is_arbitrage_cycle(g, c.tokens@[0] as int, c.edges@)
}

/// `s` rotated left by `k`.
pub open spec fn rotate(s: Seq<usize>, k: int) -> Seq<usize> {
    s.subrange(k, s.len() as int) + s.subrange(0, k)
}

/// Index of the first occurrence of the smallest element of a nonempty `s`.
pub open spec fn first_min_index(s: Seq<usize>) -> int
    decreases s.len(),
{
    if s.len() <= 1 {
        0
    } else {
        let k = first_min_index(s.drop_last());
        if s.last() < s[k] {
            s.len() - 1
        } else {
            k
        }
    }
}

/// The rotation of `s` that starts at its first smallest element.
pub open spec fn canonical(s: Seq<usize>) -> Seq<usize> {
    if s.len() == 0 {
        s
    } else {
        rotate(s, first_min_index(s))
    }
}

proof fn lemma_first_min_index(s: Seq<usize>)
    requires
        s.len() >= 1,
    ensures
        0 <= first_min_index(s) < s.len(),
        forall|j: int| 0 <= j < s.len() ==> s[first_min_index(s)] <= #[trigger] s[j],
        forall|j: int| 0 <= j < first_min_index(s) ==> s[first_min_index(s)] < #[trigger] s[j],
    decreases s.len(),
{
    if s.len() > 1 {
        let s0 = s.drop_last();
        lemma_first_min_index(s0);
        assert forall|j: int| 0 <= j < s.len() - 1 implies #[trigger] s[j] == s0[j] by {}
    }
}

/// Rotates `edge_indices` so that it starts at its first smallest element.
pub fn canonical_form(edge_indices: &[usize]) -> (canonical_seq: Vec<usize>)
    ensures
        canonical_seq@ == canonical(edge_indices@),
{
    let n = edge_indices.len();
    if n == 0 {
        return Vec::new();
    }
    // Use the rotation that starts with the smallest edge index
    let mut min_pos: usize = 0;
    let mut i: usize = 1;
    while i < n
        invariant
            n == edge_indices@.len(),
            1 <= i <= n,
            min_pos == first_min_index(edge_indices@.subrange(0, i as int)),
        decreases n - i,
    {
        let ghost pre = edge_indices@.subrange(0, i as int);
        let ghost cur = edge_indices@.subrange(0, i + 1);
        proof {
            assert(cur.drop_last() =~= pre);
            lemma_first_min_index(pre);
        }
        if edge_indices[i] < edge_indices[min_pos] {
            min_pos = i;
        }
        i += 1;
    }
    assert(edge_indices@.subrange(0, n as int) =~= edge_indices@);
    proof {
        lemma_first_min_index(edge_indices@);
    }
    let mut canonical_seq: Vec<usize> = Vec::with_capacity(n);
    let mut i: usize = 0;
    while i < n
        invariant
            n == edge_indices@.len(),
            min_pos < n,
            i <= n,
            canonical_seq@ =~= rotate(edge_indices@, min_pos as int).subrange(0, i as int),
        decreases n - i,
    {
        let j = if i >= n - min_pos {
            i - (n - min_pos)
        } else {
            min_pos + i
        };
        canonical_seq.push(edge_indices[j]);
        i += 1;
    }
    assert(rotate(edge_indices@, min_pos as int).subrange(0, n as int) =~= rotate(
        edge_indices@,
        min_pos as int,
    ));
    canonical_seq
}

/// No element of `s` occurs twice.
pub open spec fn distinct_indices(s: Seq<usize>) -> bool {
    forall|i: int, j: int| 0 <= i < j < s.len() ==> s[i] != s[j]
}

proof fn lemma_rotate_index(s: Seq<usize>, k: int, i: int)
    requires
        0 <= k <= s.len(),
        0 <= i < s.len(),
    ensures
        rotate(s, k).len() == s.len(),
        rotate(s, k)[i] == s[if i < s.len() - k { i + k } else { i + k - s.len() }],
{
}

/// The canonical form of a sequence starts at its smallest element and is
/// one of its rotations.
pub proof fn lemma_canonical_is_min_rotation(s: Seq<usize>)
    requires
        s.len() >= 1,
    ensures
        exists|k: int| 0 <= k < s.len() && canonical(s) == rotate(s, k),
        canonical(s).len() == s.len(),
        forall|j: int| 0 <= j < s.len() ==> canonical(s)[0] <= #[trigger] s[j],
{
    lemma_first_min_index(s);
    let m = first_min_index(s);
    lemma_rotate_index(s, m, 0);
}

/// Rotations of a cycle whose edges are pairwise distinct share one
/// canonical form: a cycle found from any of its tokens is recognised as
/// the same cycle.
pub proof fn lemma_canonical_rotation_invariant(s: Seq<usize>, k: int)
    requires
        distinct_indices(s),
        0 <= k < s.len(),
    ensures
        canonical(rotate(s, k)) == canonical(s),
{
    let n = s.len() as int;
    let r = rotate(s, k);
    lemma_first_min_index(s);
    let m = first_min_index(s);
    assert(r.len() == n);
    lemma_first_min_index(r);
    let fm = first_min_index(r);
    let mp = if m >= k { m - k } else { m - k + n };
    lemma_rotate_index(s, k, mp);
    assert(r[mp] == s[m]);
    lemma_rotate_index(s, k, fm);
    let src = if fm < n - k { fm + k } else { fm + k - n };
    assert(r[fm] == s[src]);
    assert(s[m] <= s[src]);
    assert(r[fm] <= r[mp]);
    assert(s[src] == s[m]);
    if src != m {
        if src < m {
            assert(s[src] != s[m]);
        } else {
            assert(s[m] != s[src]);
        }
    }
    assert(fm == mp);
    assert forall|i: int| 0 <= i < n implies #[trigger] rotate(r, mp)[i] == rotate(s, m)[i] by {
        lemma_rotate_index(r, mp, i);
        lemma_rotate_index(s, m, i);
        let ri = if i < n - mp { i + mp } else { i + mp - n };
        lemma_rotate_index(s, k, ri);
    }
    assert(rotate(r, mp) =~= rotate(s, m));
}

/// The same arbitrage cycle entered at any of its tokens is an arbitrage
/// cycle from that token with the same canonical form, so deduplication by
/// canonical form identifies it.
pub proof fn lemma_cycle_rotation_same_canonical<R>(g: Graph<R>, start: int, w: Seq<usize>, k: int)
    requires
        is_arbitrage_cycle(g, start, w),
        0 <= k < w.len(),
    ensures
        is_arbitrage_cycle(g, edge_in(g, w[k]) as int, rotate(w, k)),
        canonical(rotate(w, k)) == canonical(w),
{
    let n = w.len() as int;
    let r = rotate(w, k);
    assert forall|i: int| 0 <= i < n implies #[trigger] r[i] == w[if i < n - k { i + k } else { i + k - n }] by {
        lemma_rotate_index(w, k, i);
    }
    assert(r.len() == n);
    assert forall|i: int| 0 <= i < r.len() implies #[trigger] r[i] < g.edges@.len() by {
        let a = if i < n - k { i + k } else { i + k - n };
        assert(r[i] == w[a]);
    }
    assert(r[0] == w[k]);
    if k > 0 {
        assert(r[n - 1] == w[k - 1]);
        assert(edge_out(g, w[k - 1]) == edge_in(g, w[k]));
    }
    assert(edge_out(g, r.last()) == edge_in(g, w[k]));
    assert forall|i: int, j: int| 0 <= i && j == i + 1 && j < r.len() implies edge_out(
        g,
        #[trigger] r[i],
    ) == edge_in(g, #[trigger] r[j]) by {
        let a = if i < n - k { i + k } else { i + k - n };
        let b = if j < n - k { j + k } else { j + k - n };
        assert(r[i] == w[a]);
        assert(r[j] == w[b]);
        if a == n - 1 {
            assert(b == 0);
            assert(w.last() == w[a]);
        } else {
            assert(b == a + 1);
            assert(edge_out(g, w[a]) == edge_in(g, w[b]));
        }
    }
    assert forall|i: int, j: int| 0 <= i < j < r.len() implies edge_in(g, #[trigger] r[i]) != edge_in(
        g,
        #[trigger] r[j],
    ) && edge_pool(g, r[i]) != edge_pool(g, r[j]) by {
        let a = if i < n - k { i + k } else { i + k - n };
        let b = if j < n - k { j + k } else { j + k - n };
        assert(r[i] == w[a]);
        assert(r[j] == w[b]);
        if a < b {
            assert(edge_in(g, w[a]) != edge_in(g, w[b]));
            assert(edge_pool(g, w[a]) != edge_pool(g, w[b]));
        } else {
            assert(edge_in(g, w[b]) != edge_in(g, w[a]));
            assert(edge_pool(g, w[b]) != edge_pool(g, w[a]));
        }
    }
    assert forall|i: int, j: int| 0 <= i < j < r.len() implies edge_pool(g, #[trigger] r[i])
        != edge_pool(g, #[trigger] r[j]) by {
        let a = if i < n - k { i + k } else { i + k - n };
        let b = if j < n - k { j + k } else { j + k - n };
        assert(r[i] == w[a]);
        assert(r[j] == w[b]);
        if a < b {
            assert(edge_pool(g, w[a]) != edge_pool(g, w[b]));
        } else {
            assert(edge_pool(g, w[b]) != edge_pool(g, w[a]));
        }
    }
    assert(distinct_indices(w)) by {
        assert forall|i: int, j: int| 0 <= i < j < w.len() implies w[i] != w[j] by {
            assert(edge_pool(g, w[i]) != edge_pool(g, w[j]));
        }
    }
    lemma_canonical_rotation_invariant(w, k);
}

/// Position of edge `e` in the adjacency list of the token it leaves.
pub open spec fn adjacency_position<R>(g: Graph<R>, e: usize) -> int {
    choose|j: int|
        0 <= j < g.adjacency@[edge_in(g, e) as int]@.len() && g.adjacency@[edge_in(g, e) as int]@[j]
            == e
}

/// The adjacency position of each edge of `w`: the order in which the
/// search tries them.
pub open spec fn search_positions<R>(g: Graph<R>, w: Seq<usize>) -> Seq<int> {
    w.map_values(|e: usize| adjacency_position(g, e))
}

/// `a` comes before `b` in lexicographic order, at a position both have.
pub open spec fn lex_before(a: Seq<int>, b: Seq<int>) -> bool {
    exists|k: int| 0 <= k < a.len() && k < b.len() && a.take(k) == b.take(k) && a[k] < b[k]
}

proof fn lemma_adjacency_position<R>(g: Graph<R>, t: int, i: int)
    requires
        g.wf(),
        0 <= t < g.adjacency@.len(),
        0 <= i < g.adjacency@[t]@.len(),
    ensures
        adjacency_position(g, g.adjacency@[t]@[i]) == i,
{
    let e = g.adjacency@[t]@[i];
    assert(edge_in(g, e) == t);
    let j = adjacency_position(g, e);
    assert(0 <= j < g.adjacency@[t]@.len() && g.adjacency@[t]@[j] == e);
    if j < i {
        assert(g.adjacency@[t]@[j] < g.adjacency@[t]@[i]);
    } else if j > i {
        assert(g.adjacency@[t]@[i] < g.adjacency@[t]@[j]);
    }
}

/// Two cycles that share their first `d` edges and differ in the
/// adjacency position of edge `d` are ordered by that position.
proof fn lemma_lex_at<R>(g: Graph<R>, a: Seq<usize>, b: Seq<usize>, d: int)
    requires
        0 <= d < a.len(),
        d < b.len(),
        a.subrange(0, d) == b.subrange(0, d),
        adjacency_position(g, a[d]) < adjacency_position(g, b[d]),
    ensures
        lex_before(search_positions(g, a), search_positions(g, b)),
{
    let pa = search_positions(g, a);
    let pb = search_positions(g, b);
    assert forall|k: int| 0 <= k < d implies pa.take(d)[k] == pb.take(d)[k] by {
        assert(a.subrange(0, d)[k] == b.subrange(0, d)[k]);
        assert(a[k] == a.subrange(0, d)[k]);
        assert(b[k] == b.subrange(0, d)[k]);
        assert(pa[k] == adjacency_position(g, a[k]));
        assert(pb[k] == adjacency_position(g, b[k]));
    }
    assert(pa.take(d) =~= pb.take(d));
    assert(pa[d] < pb[d]);
}

/// A cycle of at most `MAX_HOPS` edges packed into an ordered key: its
/// length, then its edges, padded with zeros.
pub open spec fn cycle_key(s: Seq<usize>) -> (usize, usize, usize, usize, usize) {
    (
        s.len() as usize,
        if s.len() > 0 { s[0] } else { 0 },
        if s.len() > 1 { s[1] } else { 0 },
        if s.len() > 2 { s[2] } else { 0 },
        if s.len() > 3 { s[3] } else { 0 },
    )
}

proof fn lemma_cycle_key_injective(a: Seq<usize>, b: Seq<usize>)
    requires
        a.len() <= MAX_HOPS,
        b.len() <= MAX_HOPS,
        cycle_key(a) == cycle_key(b),
    ensures
        a == b,
{
    assert(a.len() == b.len());
    assert(a =~= b);
}

proof fn lemma_canonical_len(s: Seq<usize>)
    ensures
        canonical(s).len() == s.len(),
{
    if s.len() > 0 {
        lemma_first_min_index(s);
    }
}

fn cycle_key_of(s: &Vec<usize>) -> (k: (usize, usize, usize, usize, usize))
    requires
        s@.len() <= MAX_HOPS,
    ensures
        k == cycle_key(s@),
{
    let n = s.len();
    (
        n,
        if n > 0 { s[0] } else { 0 },
        if n > 1 { s[1] } else { 0 },
        if n > 2 { s[2] } else { 0 },
        if n > 3 { s[3] } else { 0 },
    )
}

/// The search state of `dfs`: the current path from `start` to `current`
/// with `depth` edges, the tokens it visits, and the pools it uses.
pub open spec fn path_ok<R>(
    g: Graph<R>,
    start: usize,
    current: usize,
    visited: Seq<bool>,
    pt: Seq<usize>,
    pe: Seq<usize>,
    used: Set<usize>,
    depth: usize,
) -> bool {
    &&& pe.len() == depth
    &&& pt.len() == depth + 1
    &&& pt[0] == start
    &&& pt[depth as int] == current
    &&& forall|i: int|
        0 <= i < depth ==> {
            &&& #[trigger] pe[i] < g.edges@.len()
            &&& edge_in(g, pe[i]) == pt[i]
            &&& edge_out(g, pe[i]) == pt[i + 1]
        }
    &&& forall|i: int| 0 <= i < pt.len() ==> #[trigger] pt[i] < g.num_tokens()
    &&& forall|i: int, j: int| 0 <= i < j < pt.len() ==> #[trigger] pt[i] != #[trigger] pt[j]
    &&& visited.len() == g.num_tokens()
    &&& g.num_tokens() <= usize::MAX
    &&& forall|t: int| 0 <= t < visited.len() ==> (#[trigger] visited[t] <==> pt.contains(t as usize))
    &&& forall|p: usize|
        #[trigger] used.contains(p) <==> exists|i: int| 0 <= i < depth && edge_pool(g, pe[i]) == p
    &&& forall|i: int, j: int|
        0 <= i < j < depth ==> edge_pool(g, #[trigger] pe[i]) != edge_pool(g, #[trigger] pe[j])
}

/// The cycles found so far are sound, pairwise distinct up to rotation, and
/// their canonical keys are exactly the keys in `seen`.
pub open spec fn results_ok<R>(
    g: Graph<R>,
    results: Seq<Cycle>,
    seen: Set<(usize, usize, usize, usize, usize)>,
) -> bool {
    &&& forall|i: int| 0 <= i < results.len() ==> cycle_ok(g, #[trigger] results[i])
    &&& forall|i: int, j: int|
        0 <= i < j < results.len() ==> canonical(#[trigger] results[i].edges@) != canonical(
            #[trigger] results[j].edges@,
        )
    &&& forall|i: int|
        0 <= i < results.len() ==> seen.contains(cycle_key(canonical(#[trigger] results[i].edges@)))
    &&& forall|k: (usize, usize, usize, usize, usize)|
        #[trigger] seen.contains(k) ==> exists|i: int|
            0 <= i < results.len() && cycle_key(canonical(results[i].edges@)) == k
}

/// Every arbitrage cycle from `start` that extends `prefix` has its
/// canonical key in `seen`.
pub open spec fn covered<R>(
    g: Graph<R>,
    start: int,
    prefix: Seq<usize>,
    seen: Set<(usize, usize, usize, usize, usize)>,
) -> bool {
    forall|w: Seq<usize>|
        #[trigger] is_arbitrage_cycle(g, start, w) && w.len() > prefix.len() && w.subrange(
            0,
            prefix.len() as int,
        ) == prefix ==> seen.contains(cycle_key(canonical(w)))
}

/// How a cycle extending the current path continues with edge `e`.
proof fn lemma_extension_cases<R>(
    g: Graph<R>,
    start: usize,
    current: usize,
    visited: Seq<bool>,
    pt: Seq<usize>,
    pe: Seq<usize>,
    used: Set<usize>,
    depth: usize,
    w: Seq<usize>,
)
    requires
        g.wf(),
        path_ok(g, start, current, visited, pt, pe, used, depth),
        is_arbitrage_cycle(g, start as int, w),
        w.len() > depth,
        w.subrange(0, depth as int) == pe,
    ensures
        edge_in(g, w[depth as int]) == current,
        !used.contains(edge_pool(g, w[depth as int])),
        edge_out(g, w[depth as int]) == start ==> depth >= 1 && w == pe.push(w[depth as int]),
        edge_out(g, w[depth as int]) != start ==> {
            &&& !visited[edge_out(g, w[depth as int]) as int]
            &&& depth < MAX_HOPS - 1
            &&& w.len() > depth + 1
            &&& w.subrange(0, depth + 1) == pe.push(w[depth as int])
        },
{
    let e = w[depth as int];
    assert forall|k: int| 0 <= k < depth implies #[trigger] w[k] == pe[k] by {
        assert(w.subrange(0, depth as int)[k] == w[k]);
    }
    // tokens that w leaves from agree with the path
    assert forall|k: int| 0 <= k <= depth implies edge_in(g, #[trigger] w[k]) == pt[k] by {
        if k == 0 {
        } else {
            assert(w[k - 1] == pe[k - 1]);
            assert(edge_out(g, w[k - 1]) == edge_in(g, w[k]));
        }
    }
    assert(edge_in(g, e) == current);
    if used.contains(edge_pool(g, e)) {
        let i = choose|i: int| 0 <= i < depth && edge_pool(g, pe[i]) == edge_pool(g, e);
        assert(w[i] == pe[i]);
        assert(edge_pool(g, w[i]) != edge_pool(g, w[depth as int]));
    }
    let next = edge_out(g, e);
    if w.len() > depth + 1 {
        assert(edge_out(g, w[depth as int]) == edge_in(g, w[depth + 1]));
    }
    if next == start {
        if w.len() > depth + 1 {
            assert(edge_in(g, w[0]) != edge_in(g, w[depth + 1]));
        }
        assert(w.len() == depth + 1);
        if depth == 0 {
            assert(edge_in(g, w[0]) != edge_in(g, w[1]));
            assert(edge_out(g, w[0]) == edge_in(g, w[1]));
        }
        assert(w =~= pe.push(e));
    } else {
        if w.len() == depth + 1 {
            assert(w.last() == e);
        }
        assert(w.len() > depth + 1);
        if visited[next as int] {
            assert(pt.contains(next));
            let j = choose|j: int| 0 <= j < pt.len() && pt[j] == next;
            assert(edge_in(g, w[j]) == pt[j]);
            assert(edge_in(g, w[j]) != edge_in(g, w[depth + 1]));
        }
        assert(w.subrange(0, depth + 1) =~= pe.push(e));
    }
}

/// Closing the current path with an edge back to `start` gives an
/// arbitrage cycle whose tokens are the path's.
proof fn lemma_closing_edge<R>(
    g: Graph<R>,
    start: usize,
    current: usize,
    visited: Seq<bool>,
    pt: Seq<usize>,
    pe: Seq<usize>,
    used: Set<usize>,
    depth: usize,
    e: usize,
)
    requires
        g.wf(),
        path_ok(g, start, current, visited, pt, pe, used, depth),
        1 <= depth < MAX_HOPS,
        e < g.edges@.len(),
        edge_in(g, e) == current,
        edge_out(g, e) == start,
        !used.contains(edge_pool(g, e)),
    ensures
        is_arbitrage_cycle(g, start as int, pe.push(e)),
        walk_tokens(g, pe.push(e)) == pt,
{
    let w = pe.push(e);
    assert forall|k: int| 0 <= k < w.len() implies edge_in(g, #[trigger] w[k]) == pt[k] by {
        if k < depth {
            assert(w[k] == pe[k]);
        }
    }
    assert(walk_tokens(g, w) =~= pt);
    assert forall|i: int| 0 <= i < w.len() implies #[trigger] w[i] < g.edges@.len() by {
        if i < depth {
            assert(w[i] == pe[i]);
        }
    }
    assert forall|i: int, j: int| 0 <= i && j == i + 1 && j < w.len() implies edge_out(
        g,
        #[trigger] w[i],
    ) == edge_in(g, #[trigger] w[j]) by {
        assert(w[i] == pe[i]);
        assert(edge_in(g, w[j]) == pt[j]);
    }
    assert forall|i: int, j: int| 0 <= i < j < w.len() implies edge_in(g, #[trigger] w[i]) != edge_in(
        g,
        #[trigger] w[j],
    ) by {
        assert(edge_in(g, w[i]) == pt[i]);
        assert(edge_in(g, w[j]) == pt[j]);
    }
    assert forall|i: int, j: int| 0 <= i < j < w.len() implies edge_pool(g, #[trigger] w[i])
        != edge_pool(g, #[trigger] w[j]) by {
        assert(w[i] == pe[i]);
        if j == depth {
            assert(used.contains(edge_pool(g, pe[i])));
        } else {
            assert(w[j] == pe[j]);
        }
    }
}

/// Following a fresh edge to an unvisited token extends the search state.
proof fn lemma_extend_path<R>(
    g: Graph<R>,
    start: usize,
    current: usize,
    visited: Seq<bool>,
    pt: Seq<usize>,
    pe: Seq<usize>,
    used: Set<usize>,
    depth: usize,
    e: usize,
)
    requires
        g.wf(),
        path_ok(g, start, current, visited, pt, pe, used, depth),
        depth < MAX_HOPS,
        e < g.edges@.len(),
        edge_in(g, e) == current,
        !visited[edge_out(g, e) as int],
        !used.contains(edge_pool(g, e)),
    ensures
        path_ok(
            g,
            start,
            edge_out(g, e),
            visited.update(edge_out(g, e) as int, true),
            pt.push(edge_out(g, e)),
            pe.push(e),
            used.insert(edge_pool(g, e)),
            (depth + 1) as usize,
        ),
{
    let next = edge_out(g, e);
    let pt2 = pt.push(next);
    let pe2 = pe.push(e);
    let used2 = used.insert(edge_pool(g, e));
    let v2 = visited.update(next as int, true);
    let d2 = (depth + 1) as usize;
    assert(g.edges@[e as int].token_out < g.num_tokens());
    assert(!pt.contains(next));
    assert forall|i: int| 0 <= i < d2 implies {
        &&& #[trigger] pe2[i] < g.edges@.len()
        &&& edge_in(g, pe2[i]) == pt2[i]
        &&& edge_out(g, pe2[i]) == pt2[i + 1]
    } by {
        if i < depth {
            assert(pe2[i] == pe[i]);
            assert(pt2[i] == pt[i]);
            assert(pt2[i + 1] == pt[i + 1]);
        }
    }
    assert forall|i: int| 0 <= i < pt2.len() implies #[trigger] pt2[i] < g.num_tokens() by {
        if i < pt.len() {
            assert(pt2[i] == pt[i]);
        }
    }
    assert forall|i: int, j: int| 0 <= i < j < pt2.len() implies #[trigger] pt2[i] != #[trigger] pt2[j] by {
        assert(pt2[i] == pt[i]);
        if j < pt.len() {
            assert(pt2[j] == pt[j]);
        }
    }
    assert forall|t: int| 0 <= t < v2.len() implies (#[trigger] v2[t] <==> pt2.contains(t as usize)) by {
        if t == next as int {
            assert(pt2[pt.len() as int] == next);
        } else {
            if pt2.contains(t as usize) {
                let k = choose|k: int| 0 <= k < pt2.len() && pt2[k] == t as usize;
                if k < pt.len() {
                    assert(pt[k] == t as usize);
                }
            }
            if pt.contains(t as usize) {
                let k = choose|k: int| 0 <= k < pt.len() && pt[k] == t as usize;
                assert(pt2[k] == t as usize);
            }
        }
    }
    assert forall|p: usize| #[trigger] used2.contains(p) <==> exists|i: int|
        0 <= i < d2 && edge_pool(g, pe2[i]) == p by {
        if used.contains(p) {
            let i = choose|i: int| 0 <= i < depth && edge_pool(g, pe[i]) == p;
            assert(pe2[i] == pe[i]);
        }
        if p == edge_pool(g, e) {
            assert(pe2[depth as int] == e);
        }
        if exists|i: int| 0 <= i < d2 && edge_pool(g, pe2[i]) == p {
            let i = choose|i: int| 0 <= i < d2 && edge_pool(g, pe2[i]) == p;
            if i < depth {
                assert(pe2[i] == pe[i]);
            }
        }
    }
    assert forall|i: int, j: int| 0 <= i < j < d2 implies edge_pool(g, #[trigger] pe2[i]) != edge_pool(
        g,
        #[trigger] pe2[j],
    ) by {
        assert(pe2[i] == pe[i]);
        if j < depth {
            assert(pe2[j] == pe[j]);
        } else {
            assert(used.contains(edge_pool(g, pe[i])));
        }
    }
}

/// Bounded depth-first search from `start`, extending the path that ends
/// at `current`; every cycle found that is new up to rotation is recorded.
pub fn dfs<R>(
    graph: &Graph<R>,
    in_component: &Vec<bool>,
    start: usize,
    current: usize,
    visited: &mut Vec<bool>,
    path_tokens: &mut Vec<usize>,
    path_edges: &mut Vec<usize>,
    used_pools: &mut HashSet<usize>,
    depth: usize,
    results: &mut Vec<Cycle>,
    seen: &mut BTreeSet<(usize, usize, usize, usize, usize)>,
)
    requires
        graph.wf(),
        depth < MAX_HOPS,
        in_component@.len() == graph.num_tokens(),
        forall|w: Seq<usize>, k: int|
            #![trigger is_arbitrage_cycle(*graph, start as int, w), w[k]]
            is_arbitrage_cycle(*graph, start as int, w) && 0 <= k < w.len()
                ==> in_component@[edge_out(*graph, w[k]) as int],
        path_ok(
            *graph,
            start,
            current,
            old(visited)@,
            old(path_tokens)@,
            old(path_edges)@,
            old(used_pools)@,
            depth,
        ),
        results_ok(*graph, old(results)@, old(seen)@),
    ensures
        final(visited)@ == old(visited)@,
        final(path_tokens)@ == old(path_tokens)@,
        final(path_edges)@ == old(path_edges)@,
        final(used_pools)@ == old(used_pools)@,
        results_ok(*graph, final(results)@, final(seen)@),
        old(seen)@.subset_of(final(seen)@),
        covered(*graph, start as int, old(path_edges)@, final(seen)@),
        final(results)@.len() >= old(results)@.len(),
        forall|a: int| 0 <= a < old(results)@.len() ==> #[trigger] final(results)@[a] == old(results)@[a],
        forall|a: int|
            old(results)@.len() <= a < final(results)@.len() ==> {
                &&& (#[trigger] final(results)@[a]).edges@.len() > depth
                &&& final(results)@[a].edges@.subrange(0, depth as int) == old(path_edges)@
                &&& final(results)@[a].tokens@[0] == start
            },
        forall|a: int, b: int|
            old(results)@.len() <= a < b < final(results)@.len() ==> lex_before(
                search_positions(*graph, (#[trigger] final(results)@[a]).edges@),
                search_positions(*graph, (#[trigger] final(results)@[b]).edges@),
            ),
    decreases MAX_HOPS - depth,
{
    let ghost visited0 = visited@;
    let ghost tokens0 = path_tokens@;
    let ghost edges0 = path_edges@;
    let ghost used0 = used_pools@;
    let ghost seen0 = seen@;
    let ghost results0 = results@;
    let ghost n0 = results@.len();
    proof {
        assert(current < graph.num_tokens());
    }
    let adj_len = graph.adjacency[current].len();
    let mut i: usize = 0;
    while i < adj_len
        invariant
            graph.wf(),
            depth < MAX_HOPS,
            in_component@.len() == graph.num_tokens(),
            forall|w: Seq<usize>, k: int|
                #![trigger is_arbitrage_cycle(*graph, start as int, w), w[k]]
                is_arbitrage_cycle(*graph, start as int, w) && 0 <= k < w.len()
                    ==> in_component@[edge_out(*graph, w[k]) as int],
            current < graph.num_tokens(),
            adj_len == graph.adjacency@[current as int]@.len(),
            i <= adj_len,
            visited@ == visited0,
            path_tokens@ == tokens0,
            path_edges@ == edges0,
            used_pools@ == used0,
            path_ok(*graph, start, current, visited0, tokens0, edges0, used0, depth),
            results_ok(*graph, results@, seen@),
            seen0.subset_of(seen@),
            results@.len() >= n0,
            n0 == results0.len(),
            forall|a: int| 0 <= a < n0 ==> #[trigger] results@[a] == results0[a],
            forall|a: int|
                n0 <= a < results@.len() ==> {
                    &&& (#[trigger] results@[a]).edges@.len() > depth
                    &&& results@[a].edges@.subrange(0, depth as int) == edges0
                    &&& results@[a].tokens@[0] == start
                    &&& adjacency_position(*graph, results@[a].edges@[depth as int]) < i
                },
            forall|a: int, b: int|
                n0 <= a < b < results@.len() ==> lex_before(
                    search_positions(*graph, (#[trigger] results@[a]).edges@),
                    search_positions(*graph, (#[trigger] results@[b]).edges@),
                ),
            forall|w: Seq<usize>|
                #[trigger] is_arbitrage_cycle(*graph, start as int, w) && w.len() > depth
                    && w.subrange(0, depth as int) == edges0 && graph.adjacency@[current as int]@.subrange(
                    0,
                    i as int,
                ).contains(w[depth as int]) ==> seen@.contains(cycle_key(canonical(w))),
        decreases adj_len - i,
    {
        let edge_idx = graph.adjacency[current][i];
        proof {
            assert(graph.adjacency@[current as int]@[i as int] == edge_idx);
        }
        let edge = &graph.edges[edge_idx];
        let next = edge.token_out;
        let pool = edge.pool_idx;
        let ghost seen1 = seen@;
        let ghost results1 = results@;
        proof {
            assert(graph.edges@[edge_idx as int] == *edge);
            assert(next < graph.num_tokens());
            lemma_adjacency_position(*graph, current as int, i as int);
        }

        if !in_component[next] {
            // Can't be part of a cycle through start
        } else if used_pools.contains(&pool) {
            // Don't reuse the same pool in a cycle
        } else if next == start && depth >= 1 {
            // Found a cycle back to start
            let mut cycle_pools = path_edges.clone();
            proof {
                assert(cycle_pools@ =~= edges0);
            }
            cycle_pools.push(edge_idx);
            // Canonical form: rotate so the smallest edge index is first
            let canonical_seq = canonical_form(cycle_pools.as_slice());
            proof {
                lemma_canonical_len(cycle_pools@);
            }
            let key = cycle_key_of(&canonical_seq);
            if seen.insert(key) {
                let tokens = path_tokens.clone();
                proof {
                    assert(tokens@ =~= tokens0);
                    lemma_closing_edge(*graph, start, current, visited0, tokens0, edges0, used0, depth, edge_idx);
                }
                let c = Cycle { edges: cycle_pools, tokens };
                results.push(c);
                proof {
                    let n1 = results1.len();
                    assert(results@[n1 as int] == c);
                    assert(cycle_ok(*graph, c));
                    assert forall|a: int| 0 <= a < results@.len() implies cycle_ok(*graph, #[trigger] results@[a]) by {
                        if a < n1 {
                            assert(results@[a] == results1[a]);
                        }
                    }
                    assert forall|a: int, b: int| 0 <= a < b < results@.len() implies canonical(
                        #[trigger] results@[a].edges@,
                    ) != canonical(#[trigger] results@[b].edges@) by {
                        assert(results@[a] == results1[a]);
                        if b < n1 {
                            assert(results@[b] == results1[b]);
                        } else {
                            assert(seen1.contains(cycle_key(canonical(results1[a].edges@))));
                        }
                    }
                    assert forall|a: int| 0 <= a < results@.len() implies seen@.contains(
                        cycle_key(canonical(#[trigger] results@[a].edges@)),
                    ) by {
                        if a < n1 {
                            assert(results@[a] == results1[a]);
                        }
                    }
                    assert forall|k: (usize, usize, usize, usize, usize)| #[trigger] seen@.contains(k) implies exists|a: int|
                        0 <= a < results@.len() && cycle_key(canonical(results@[a].edges@)) == k by {
                        if k == key {
                            assert(cycle_key(canonical(results@[n1 as int].edges@)) == k);
                        } else {
                            assert(seen1.contains(k));
                            let a = choose|a: int|
                                0 <= a < results1.len() && cycle_key(canonical(results1[a].edges@)) == k;
                            assert(results@[a] == results1[a]);
                        }
                    }
                    assert(c.edges@.subrange(0, depth as int) =~= edges0);
                    assert(c.edges@[depth as int] == edge_idx);
                    assert forall|a: int, b: int|
                        n0 <= a < b < results@.len() implies lex_before(
                            search_positions(*graph, (#[trigger] results@[a]).edges@),
                            search_positions(*graph, (#[trigger] results@[b]).edges@),
                        ) by {
                        assert(results@[a] == results1[a]);
                        if b < n1 {
                            assert(results@[b] == results1[b]);
                        } else {
                            lemma_lex_at(*graph, results@[a].edges@, results@[b].edges@, depth as int);
                        }
                    }
                    assert forall|a: int| 0 <= a < n0 implies #[trigger] results@[a] == results0[a] by {
                        assert(results@[a] == results1[a]);
                    }
                    assert forall|a: int|
                        n0 <= a < results@.len() implies {
                            &&& (#[trigger] results@[a]).edges@.len() > depth
                            &&& results@[a].edges@.subrange(0, depth as int) == edges0
                            &&& results@[a].tokens@[0] == start
                            &&& adjacency_position(*graph, results@[a].edges@[depth as int]) < i + 1
                        } by {
                        if a < n1 {
                            assert(results@[a] == results1[a]);
                        }
                    }
                }
            }
        } else if !visited[next] && depth < MAX_HOPS - 1 {
            proof {
                lemma_extend_path(*graph, start, current, visited0, tokens0, edges0, used0, depth, edge_idx);
            }
            visited.set(next, true);
            path_tokens.push(next);
            path_edges.push(edge_idx);
            used_pools.insert(pool);
            proof {
                assert(used_pools@ == used0.insert(pool));
            }

            dfs(
                graph,
                in_component,
                start,
                next,
                visited,
                path_tokens,
                path_edges,
                used_pools,
                depth + 1,
                results,
                seen,
            );

            used_pools.remove(&pool);
            path_edges.pop();
            path_tokens.pop();
            visited.set(next, false);
            proof {
                assert(used_pools@ =~= used0);
                assert(path_edges@ =~= edges0);
                assert(path_tokens@ =~= tokens0);
                assert(visited@ =~= visited0);
                let n1 = results1.len();
                assert forall|a: int| 0 <= a < n0 implies #[trigger] results@[a] == results0[a] by {
                    assert(results@[a] == results1[a]);
                }
                assert forall|a: int|
                    n0 <= a < results@.len() implies {
                        &&& (#[trigger] results@[a]).edges@.len() > depth
                        &&& results@[a].edges@.subrange(0, depth as int) == edges0
                        &&& results@[a].tokens@[0] == start
                        &&& adjacency_position(*graph, results@[a].edges@[depth as int]) < i + 1
                    } by {
                    if a < n1 {
                        assert(results@[a] == results1[a]);
                    } else {
                        let ea = results@[a].edges@;
                        assert(ea.subrange(0, depth + 1) == edges0.push(edge_idx));
                        assert(ea.subrange(0, depth as int) =~= ea.subrange(0, depth + 1).subrange(0, depth as int));
                        assert(edges0.push(edge_idx).subrange(0, depth as int) =~= edges0);
                        assert(ea[depth as int] == ea.subrange(0, depth + 1)[depth as int]);
                    }
                }
                assert forall|a: int, b: int|
                    n0 <= a < b < results@.len() implies lex_before(
                        search_positions(*graph, (#[trigger] results@[a]).edges@),
                        search_positions(*graph, (#[trigger] results@[b]).edges@),
                    ) by {
                    if b < n1 {
                        assert(results@[a] == results1[a]);
                        assert(results@[b] == results1[b]);
                    } else if a < n1 {
                        assert(results@[a] == results1[a]);
                        let eb = results@[b].edges@;
                        assert(eb.subrange(0, depth + 1) == edges0.push(edge_idx));
                        assert(eb.subrange(0, depth as int) =~= eb.subrange(0, depth + 1).subrange(0, depth as int));
                        assert(edges0.push(edge_idx).subrange(0, depth as int) =~= edges0);
                        assert(eb[depth as int] == eb.subrange(0, depth + 1)[depth as int]);
                        lemma_lex_at(*graph, results@[a].edges@, eb, depth as int);
                    }
                }
            }
        }

        proof {
            let adj = graph.adjacency@[current as int]@;
            assert forall|w: Seq<usize>|
                #[trigger] is_arbitrage_cycle(*graph, start as int, w) && w.len() > depth
                    && w.subrange(0, depth as int) == edges0 && adj.subrange(0, i + 1).contains(
                    w[depth as int],
                ) implies seen@.contains(cycle_key(canonical(w))) by {
                let sub = adj.subrange(0, i + 1);
                let k = choose|k: int| 0 <= k < sub.len() && sub[k] == w[depth as int];
                if k < i {
                    assert(adj.subrange(0, i as int)[k] == w[depth as int]);
                    assert(seen1.contains(cycle_key(canonical(w))));
                } else {
                    assert(w[depth as int] == edge_idx);
                    lemma_extension_cases(*graph, start, current, visited0, tokens0, edges0, used0, depth, w);
                    assert(in_component@[edge_out(*graph, w[depth as int]) as int]);
                }
            }
        }
        i += 1;
    }
    proof {
        let adj = graph.adjacency@[current as int]@;
        assert(adj.subrange(0, adj_len as int) =~= adj);
        assert forall|w: Seq<usize>|
            #[trigger] is_arbitrage_cycle(*graph, start as int, w) && w.len() > edges0.len()
                && w.subrange(0, edges0.len() as int) == edges0 implies seen@.contains(cycle_key(canonical(w))) by {
            lemma_extension_cases(*graph, start, current, visited0, tokens0, edges0, used0, depth, w);
            let e = w[depth as int];
            assert(e < graph.edges@.len());
            assert(graph.edges@[e as int].token_in == current);
            assert(adj.contains(e));
        }
    }
}

/// Every token of an arbitrage cycle from `start` lies in the strongly
/// connected component of `start`.
pub proof fn lemma_cycle_in_component<R>(g: Graph<R>, start: int, w: Seq<usize>, k: int)
    requires
        g.wf(),
        is_arbitrage_cycle(g, start, w),
        0 <= k < w.len(),
    ensures
        same_component(g, start, edge_out(g, w[k]) as int),
        same_component(g, start, edge_in(g, w[k]) as int),
{
    let n = w.len() as int;
    assert forall|i: int| 0 <= i < n implies edge_out(g, #[trigger] w[i]) < g.num_tokens()
        && edge_in(g, w[i]) < g.num_tokens() by {
        assert(w[i] < g.edges@.len());
        assert(g.edges@[w[i] as int].token_in < g.num_tokens());
    }
    // tokens that each edge leaves from, followed by where the last edge arrives
    let toks = Seq::new((n + 1) as nat, |i: int| if i < n { edge_in(g, w[i]) } else { edge_out(g, w[n - 1]) });
    assert forall|i: int| 0 <= i < n implies #[trigger] toks[i] == edge_in(g, w[i]) && toks[i + 1] == edge_out(g, w[i]) by {
        if i + 1 < n {
            assert(edge_out(g, w[i]) == edge_in(g, w[i + 1]));
        }
    }
    assert(toks[0] == start);
    assert(toks[n] == start);
    assert forall|a: int, b: int| 0 <= a <= b <= n implies #[trigger] reaches(g, toks[a] as int, toks[b] as int) by {
        let p = toks.subrange(a, b + 1);
        assert forall|i: int| 0 <= i < p.len() implies #[trigger] p[i] < g.num_tokens() by {
            assert(p[i] == toks[a + i]);
            if a + i < n {
                assert(toks[a + i] == edge_in(g, w[a + i]));
            } else {
                assert(toks[n] == edge_out(g, w[n - 1]));
            }
        }
        assert forall|i: int, j: int| 0 <= i && j == i + 1 && j < p.len() implies step(
            g,
            #[trigger] p[i] as int,
            #[trigger] p[j] as int,
        ) by {
            let e = w[a + i] as int;
            assert(toks[a + i] == edge_in(g, w[a + i]));
            assert(g.edges@[e].token_in == p[i] && g.edges@[e].token_out == p[j]);
        }
        assert(is_token_path(g, p));
    }
    assert(reaches(g, toks[0] as int, toks[k + 1] as int));
    assert(reaches(g, toks[k + 1] as int, toks[n] as int));
    assert(reaches(g, toks[0] as int, toks[k] as int));
    assert(reaches(g, toks[k] as int, toks[n] as int));
}

/// A hub alone in its strongly connected component lies on no arbitrage
/// cycle, so skipping its search loses nothing.
pub proof fn lemma_alone_hub_has_no_cycle<R>(g: Graph<R>, h: int, w: Seq<usize>)
    requires
        g.wf(),
        alone_in_component(g, h),
    ensures
        !is_arbitrage_cycle(g, h, w),
{
    if is_arbitrage_cycle(g, h, w) {
        lemma_cycle_in_component(g, h, w, 0);
        let t = edge_out(g, w[0]) as int;
        assert(w[0] < g.edges@.len());
        assert(t < g.num_tokens());
        assert(edge_out(g, w[0]) == edge_in(g, w[1]));
        assert(edge_in(g, w[0]) != edge_in(g, w[1]));
    }
}

/// The hub symbols an anchor may name, in default search order.
pub open spec fn hub_symbols() -> Seq<Seq<char>> {
    seq!["WETH"@, "USDT"@, "USDC"@, "DAI"@, "WBTC"@]
}

/// The hub addresses with hub `k` moved to the front.
pub open spec fn anchored_order(k: int) -> Seq<Seq<char>> {
    seq![hub_addresses()[k]] + hub_addresses().remove(k)
}

/// The hub addresses in search order: the hub that `anchor` names first,
/// the others in default order; the default order when `anchor` names none.
pub open spec fn search_order(anchor: Option<Seq<char>>) -> Seq<Seq<char>> {
    match anchor {
        Some(a) => if a == hub_symbols()[1] {
            anchored_order(1)
        } else if a == hub_symbols()[2] {
            anchored_order(2)
        } else if a == hub_symbols()[3] {
            anchored_order(3)
        } else if a == hub_symbols()[4] {
            anchored_order(4)
        } else {
            hub_addresses()
        },
        None => hub_addresses(),
    }
}

/// The anchor name held by an optional string.
pub open spec fn anchor_name(anchor: Option<&str>) -> Option<Seq<char>> {
    match anchor {
        Some(a) => Some(a@),
        None => None,
    }
}

/// A lowercase hexadecimal digit.
pub open spec fn is_lower_hex_digit(c: char) -> bool {
    ('0' <= c && c <= '9') || ('a' <= c && c <= 'f')
}

/// The hubs are five Ethereum addresses written the way the loader keys
/// tokens: `0x` followed by 40 lowercase hexadecimal digits.
pub proof fn lemma_hub_addresses_lowercase()
    ensures
        hub_addresses().len() == 5,
        forall|k: int|
            0 <= k < 5 ==> (#[trigger] hub_addresses()[k]).len() == 42 && hub_addresses()[k][0] == '0'
                && hub_addresses()[k][1] == 'x',
        forall|k: int, i: int| 0 <= k < 5 && 2 <= i < 42 ==> is_lower_hex_digit(#[trigger] hub_addresses()[k][i]),
{
    reveal_strlit("0xc02aaa39b223fe8d0a0e5c4f27ead9083c756cc2");
    reveal_strlit("0xdac17f958d2ee523a2206206994597c13d831ec7");
    reveal_strlit("0xa0b86991c6218b36c1d19d4a2e9eb0ce3606eb48");
    reveal_strlit("0x6b175474e89094c44da98b954eedeac495271d0f");
    reveal_strlit("0x2260fac5e5542a773aa44fbcfedf7c193bc2c599");
    let h = hub_addresses();
    assert forall|k: int, i: int| 0 <= k < 5 && 2 <= i < 42 implies is_lower_hex_digit(#[trigger] h[k][i]) by {
        if k == 0 {
            assert(is_lower_hex_digit(h[0][i]));
        } else if k == 1 {
            assert(is_lower_hex_digit(h[1][i]));
        } else if k == 2 {
            assert(is_lower_hex_digit(h[2][i]));
        } else if k == 3 {
            assert(is_lower_hex_digit(h[3][i]));
        } else {
            assert(is_lower_hex_digit(h[4][i]));
        }
    }
}

/// Naming a hub as anchor moves that hub to the front of the search: the
/// order starts with the named hub's address and still holds all five hubs.
pub proof fn lemma_anchor_searched_first(k: int)
    requires
        0 <= k < 5,
    ensures
        search_order(Some(hub_symbols()[k])).len() == 5,
        search_order(Some(hub_symbols()[k]))[0] == hub_addresses()[k],
        forall|j: int| 0 <= j < 5 ==> search_order(Some(hub_symbols()[k])).contains(#[trigger] hub_addresses()[j]),
{
    reveal_strlit("WETH");
    reveal_strlit("USDT");
    reveal_strlit("USDC");
    reveal_strlit("DAI");
    reveal_strlit("WBTC");
    let sy = hub_symbols();
    assert(sy[0][1] != sy[1][1] && sy[0][1] != sy[2][1] && sy[0][1] != sy[4][1]);
    assert(sy[0].len() != sy[3].len() && sy[1].len() != sy[3].len() && sy[2].len() != sy[3].len()
        && sy[4].len() != sy[3].len());
    assert(sy[1][3] != sy[2][3] && sy[1][0] != sy[4][0] && sy[2][0] != sy[4][0]);
    let h = hub_addresses();
    let o = search_order(Some(sy[k]));
    if k == 0 {
        assert(o == h);
    } else {
        assert(o == anchored_order(k));
    }
    assert(o.len() == 5);
    assert(o[0] == h[k]);
    assert forall|j: int| 0 <= j < 5 implies o.contains(#[trigger] h[j]) by {
        if k == 0 {
            assert(o[j] == h[j]);
        } else if j == k {
            assert(o[0] == h[j]);
        } else if j < k {
            assert(o[j + 1] == h[j]);
        } else {
            assert(o[j] == h[j]);
        }
    }
}

/// The hub addresses in search order for `anchor`.
pub fn hub_search_order(anchor: Option<&str>) -> (order: Vec<String>)
    ensures
        names_of(order@) == search_order(anchor_name(anchor)),
        order@.len() == 5,
        forall|k: int|
            0 <= k < 5 && anchor_name(anchor) == Some(#[trigger] hub_symbols()[k]) ==> order@[0]@
                == hub_addresses()[k],
        forall|j: int| 0 <= j < 5 ==> names_of(order@).contains(#[trigger] hub_addresses()[j]),
{
    let hubs = hub_tokens();
    let mut k: usize = 0;
    if let Some(a) = anchor {
        let name = String::from_str(a);
        if name == String::from_str("USDT") {
            k = 1;
        } else if name == String::from_str("USDC") {
            k = 2;
        } else if name == String::from_str("DAI") {
            k = 3;
        } else if name == String::from_str("WBTC") {
            k = 4;
        }
    }
    let ghost h = hub_addresses();
    assert(hubs@.len() == 5) by {
        assert(names_of(hubs@).len() == hubs@.len());
    }
    let mut order: Vec<String> = Vec::new();
    order.push(hubs[k].clone());
    let mut i: usize = 0;
    while i < hubs.len()
        invariant
            names_of(hubs@) == h,
            h.len() == 5,
            k < 5,
            i <= hubs@.len(),
            names_of(order@) =~= seq![h[k as int]] + h.remove(k as int).take(
                if i <= k { i as int } else { i - 1 },
            ),
        decreases hubs@.len() - i,
    {
        if i != k {
            let ghost before = order@;
            order.push(hubs[i].clone());
            proof {
                let r = h.remove(k as int);
                let j = if i < k { i as int } else { i - 1 };
                assert(r[j] == h[i as int]);
                assert(r.take(j + 1) =~= r.take(j).push(h[i as int]));
                assert(names_of(order@) =~= names_of(before).push(hubs@[i as int]@));
            }
        }
        i += 1;
    }
    proof {
        assert(h.remove(k as int).take(4) =~= h.remove(k as int));
        if k == 0 {
            assert(seq![h[0]] + h.remove(0) =~= h);
        }
        assert(names_of(order@).len() == order@.len());
        let o = search_order(anchor_name(anchor));
        assert forall|kk: int|
            0 <= kk < 5 && anchor_name(anchor) == Some(#[trigger] hub_symbols()[kk]) implies order@[0]@
                == hub_addresses()[kk] by {
            lemma_anchor_searched_first(kk);
            assert(names_of(order@)[0] == order@[0]@);
        }
        if anchor_name(anchor) is Some && hub_symbols().contains(anchor_name(anchor)->0) {
            let kk = choose|kk: int| 0 <= kk < hub_symbols().len() && hub_symbols()[kk] == anchor_name(anchor)->0;
            lemma_anchor_searched_first(kk);
        } else {
            assert(o == hub_addresses()) by {
                if anchor_name(anchor) is Some {
                    let a = anchor_name(anchor)->0;
                    assert(a != hub_symbols()[1] && a != hub_symbols()[2] && a != hub_symbols()[3]
                        && a != hub_symbols()[4]) by {
                        if a == hub_symbols()[1] {
                            assert(hub_symbols().contains(a));
                        }
                        if a == hub_symbols()[2] {
                            assert(hub_symbols().contains(a));
                        }
                        if a == hub_symbols()[3] {
                            assert(hub_symbols().contains(a));
                        }
                        if a == hub_symbols()[4] {
                            assert(hub_symbols().contains(a));
                        }
                    }
                }
            }
            assert forall|j: int| 0 <= j < 5 implies o.contains(#[trigger] hub_addresses()[j]) by {
                assert(o[j] == hub_addresses()[j]);
            }
        }
    }
    order
}

/// The hubs that get a search, in search order: those in the graph whose
/// component has more than one token and holds no hub searched before.
pub open spec fn searched_hubs<R>(g: Graph<R>, order: Seq<Seq<char>>) -> Seq<int>
    decreases order.len(),
{
    if order.len() == 0 {
        Seq::empty()
    } else {
        let prev = searched_hubs(g, order.drop_last());
        match g.spec_token_index(order.last()) {
            Some(h) => if !alone_in_component(g, h as int) && (forall|k: int|
                0 <= k < prev.len() ==> !same_component(g, #[trigger] prev[k], h as int)) {
                prev.push(h as int)
            } else {
                prev
            },
            None => prev,
        }
    }
}

/// Position of token `t` among the searched hubs.
pub open spec fn sweep_position(hubs: Seq<int>, t: int) -> int {
    choose|k: int| 0 <= k < hubs.len() && hubs[k] == t
}

/// Cycle `c` is reported before cycle `d`: it starts from a hub searched
/// earlier, or from the same hub with edges tried earlier by the search.
pub open spec fn reported_before<R>(g: Graph<R>, hubs: Seq<int>, c: Cycle, d: Cycle) -> bool {
    ||| sweep_position(hubs, c.tokens@[0] as int) < sweep_position(hubs, d.tokens@[0] as int)
    ||| c.tokens@[0] == d.tokens@[0] && lex_before(
        search_positions(g, c.edges@),
        search_positions(g, d.edges@),
    )
}

proof fn lemma_sweep_position(hubs: Seq<int>, k: int)
    requires
        0 <= k < hubs.len(),
        forall|a: int, b: int| 0 <= a < b < hubs.len() ==> hubs[a] != hubs[b],
    ensures
        sweep_position(hubs, hubs[k]) == k,
{
    let m = sweep_position(hubs, hubs[k]);
    assert(0 <= m < hubs.len() && hubs[m] == hubs[k]);
}

/// Detects arbitrage cycles by bounded depth-first search: hubs are tried in
/// search order (the anchor first), and one search runs per strongly
/// connected component of more than one token, from the first hub in it.
/// Every arbitrage cycle through a searched hub is reported once, starting
/// at that hub; it passes through no other searched hub.
pub fn detect_cycles<R>(graph: &Graph<R>, anchor: Option<&str>) -> (all_cycles: Vec<Cycle>)
    requires
        graph.wf(),
    ensures
        ({
            let hubs = searched_hubs(*graph, search_order(anchor_name(anchor)));
            &&& forall|i: int|
                0 <= i < all_cycles@.len() ==> cycle_ok(*graph, #[trigger] all_cycles@[i])
                    && hubs.contains(all_cycles@[i].tokens@[0] as int)
            &&& forall|i: int, j: int|
                0 <= i < all_cycles@.len() && 0 <= j < all_cycles@[i].tokens@.len() && hubs.contains(
                    #[trigger] all_cycles@[i].tokens@[j] as int,
                ) ==> all_cycles@[i].tokens@[j] == all_cycles@[i].tokens@[0]
            &&& forall|i: int, j: int|
                0 <= i < j < all_cycles@.len() ==> canonical(#[trigger] all_cycles@[i].edges@)
                    != canonical(#[trigger] all_cycles@[j].edges@)
            &&& forall|h: int, w: Seq<usize>|
                hubs.contains(h) && #[trigger] is_arbitrage_cycle(*graph, h, w) ==> exists|i: int|
                    0 <= i < all_cycles@.len() && canonical(all_cycles@[i].edges@) == canonical(w)
            &&& forall|i: int, j: int|
                0 <= i < j < all_cycles@.len() ==> reported_before(
                    *graph,
                    hubs,
                    #[trigger] all_cycles@[i],
                    #[trigger] all_cycles@[j],
                )
        }),
{
    let mut all_cycles: Vec<Cycle> = Vec::new();
    let mut seen_canonical: BTreeSet<(usize, usize, usize, usize, usize)> = BTreeSet::new();
    let order = hub_search_order(anchor);
    let ghost full_order = names_of(order@);
    let num_tokens = graph.idx_to_token.len();
    let succ = successor_lists(graph);
    let pred = predecessor_lists(graph);
    // Component of each hub searched so far
    let mut swept_components: Vec<Vec<bool>> = Vec::new();
    let ghost mut swept: Seq<int> = Seq::empty();

    let mut k: usize = 0;
    while k < order.len()
        invariant
            graph.wf(),
            num_tokens == graph.num_tokens(),
            is_successor_lists(*graph, succ@),
            is_predecessor_lists(*graph, pred@),
            full_order == names_of(order@),
            k <= order@.len(),
            swept == searched_hubs(*graph, full_order.take(k as int)),
            swept_components@.len() == swept.len(),
            forall|m: int| 0 <= m < swept.len() ==> 0 <= #[trigger] swept[m] < num_tokens,
            forall|m: int| 0 <= m < swept.len() ==> (#[trigger] swept_components@[m])@.len() == num_tokens,
            forall|m: int, t: int|
                0 <= m < swept.len() && 0 <= t < num_tokens ==> (#[trigger] swept_components@[m]@[t]
                    <==> same_component(*graph, swept[m], t)),
            forall|a: int, b: int|
                0 <= a < b < swept.len() ==> !same_component(*graph, #[trigger] swept[a], #[trigger] swept[b]),
            results_ok(*graph, all_cycles@, seen_canonical@),
            forall|a: int|
                0 <= a < all_cycles@.len() ==> swept.contains(#[trigger] all_cycles@[a].tokens@[0] as int),
            forall|a: int, b: int|
                0 <= a < b < all_cycles@.len() ==> reported_before(
                    *graph,
                    swept,
                    #[trigger] all_cycles@[a],
                    #[trigger] all_cycles@[b],
                ),
            forall|m: int, w: Seq<usize>|
                #![trigger swept[m], is_arbitrage_cycle(*graph, swept[m], w)]
                0 <= m < swept.len() && is_arbitrage_cycle(*graph, swept[m], w) ==> seen_canonical@.contains(
                    cycle_key(canonical(w)),
                ),
        decreases order@.len() - k,
    {
        let ghost prev = swept;
        proof {
            assert(full_order.take(k + 1).drop_last() =~= full_order.take(k as int));
            assert(full_order.take(k + 1).last() == order@[k as int]@);
            assert forall|a: int, b: int| 0 <= a < b < prev.len() implies prev[a] != prev[b] by {
                lemma_same_component_refl(*graph, prev[b] as usize);
            }
        }
        if let Some(start_idx) = graph.token_index(&order[k]) {
            // Skip a hub in the same component as a hub already searched
            let mut shared = false;
            let mut m: usize = 0;
            while m < swept_components.len()
                invariant
                    m <= swept_components@.len(),
                    swept_components@.len() == prev.len(),
                    start_idx < num_tokens,
                    forall|mm: int| 0 <= mm < prev.len() ==> (#[trigger] swept_components@[mm])@.len() == num_tokens,
                    forall|mm: int, t: int|
                        0 <= mm < prev.len() && 0 <= t < num_tokens ==> (#[trigger] swept_components@[mm]@[t]
                            <==> same_component(*graph, prev[mm], t)),
                    shared <==> exists|mm: int| 0 <= mm < m && same_component(*graph, #[trigger] prev[mm], start_idx as int),
                decreases swept_components@.len() - m,
            {
                if swept_components[m][start_idx] {
                    shared = true;
                }
                m += 1;
            }
            if !shared {
                let component = component_of(graph, &succ, &pred, start_idx);
                // Skip a hub alone in its component: it lies on no cycle
                let mut alone = true;
                let mut t: usize = 0;
                while t < num_tokens
                    invariant
                        t <= num_tokens,
                        component@.len() == num_tokens,
                        num_tokens == graph.num_tokens(),
                        start_idx < num_tokens,
                        forall|tt: int| 0 <= tt < num_tokens ==> (#[trigger] component@[tt]
                            <==> same_component(*graph, start_idx as int, tt)),
                        alone <==> forall|tt: int| 0 <= tt < t && #[trigger] same_component(*graph, start_idx as int, tt) ==> tt == start_idx,
                    decreases num_tokens - t,
                {
                    if t != start_idx && component[t] {
                        alone = false;
                    }
                    t += 1;
                }
                if !alone {
                    let mut visited = vec![false; num_tokens];
                    visited.set(start_idx, true);
                    let mut path_tokens: Vec<usize> = Vec::new();
                    path_tokens.push(start_idx);
                    let mut path_edges: Vec<usize> = Vec::new();
                    let mut used_pools: HashSet<usize> = HashSet::new();
                    let ghost cycles_before = all_cycles@;
                    proof {
                        assert forall|tt: int| 0 <= tt < visited@.len() implies (#[trigger] visited@[tt]
                            <==> path_tokens@.contains(tt as usize)) by {
                            if tt == start_idx as int {
                                assert(path_tokens@[0] == start_idx);
                            } else {
                                if path_tokens@.contains(tt as usize) {
                                    let j = choose|j: int| 0 <= j < path_tokens@.len() && path_tokens@[j] == tt as usize;
                                    assert(path_tokens@[j] == start_idx);
                                }
                            }
                        }
                        assert(path_ok(*graph, start_idx, start_idx, visited@, path_tokens@, path_edges@, used_pools@, 0));
                        assert forall|w: Seq<usize>, kk: int|
                            #![trigger is_arbitrage_cycle(*graph, start_idx as int, w), w[kk]]
                            is_arbitrage_cycle(*graph, start_idx as int, w) && 0 <= kk < w.len()
                                implies component@[edge_out(*graph, w[kk]) as int] by {
                            lemma_cycle_in_component(*graph, start_idx as int, w, kk);
                        }
                    }
                    dfs(
                        graph,
                        &component,
                        start_idx,
                        start_idx,
                        &mut visited,
                        &mut path_tokens,
                        &mut path_edges,
                        &mut used_pools,
                        0,
                        &mut all_cycles,
                        &mut seen_canonical,
                    );
                    proof {
                        swept = prev.push(start_idx as int);
                        assert(swept == searched_hubs(*graph, full_order.take(k + 1)));
                        assert forall|a: int, b: int| 0 <= a < b < swept.len() implies swept[a] != swept[b] by {
                            lemma_same_component_refl(*graph, swept[b] as usize);
                            if b < prev.len() {
                                assert(!same_component(*graph, prev[a], prev[b]));
                            } else {
                                assert(!same_component(*graph, prev[a], start_idx as int));
                            }
                        }
                        lemma_sweep_position(swept, prev.len() as int);
                        assert forall|a: int| 0 <= a < prev.len() implies #[trigger] sweep_position(swept, prev[a]) == a by {
                            lemma_sweep_position(swept, a);
                            assert(swept[a] == prev[a]);
                        }
                        let nb = cycles_before.len();
                        assert forall|a: int| 0 <= a < all_cycles@.len() implies swept.contains(
                            #[trigger] all_cycles@[a].tokens@[0] as int,
                        ) by {
                            if a < nb {
                                assert(all_cycles@[a] == cycles_before[a]);
                                let j = choose|j: int| 0 <= j < prev.len() && prev[j] == cycles_before[a].tokens@[0] as int;
                                assert(swept[j] == prev[j]);
                            } else {
                                assert(swept[prev.len() as int] == start_idx);
                            }
                        }
                        assert forall|a: int, b: int|
                            0 <= a < b < all_cycles@.len() implies reported_before(
                                *graph,
                                swept,
                                #[trigger] all_cycles@[a],
                                #[trigger] all_cycles@[b],
                            ) by {
                            if a < nb {
                                assert(all_cycles@[a] == cycles_before[a]);
                                let ja = choose|j: int| 0 <= j < prev.len() && prev[j] == cycles_before[a].tokens@[0] as int;
                                assert(sweep_position(swept, prev[ja]) == ja);
                                if b < nb {
                                    assert(all_cycles@[b] == cycles_before[b]);
                                    let jb = choose|j: int| 0 <= j < prev.len() && prev[j] == cycles_before[b].tokens@[0] as int;
                                    assert(sweep_position(swept, prev[jb]) == jb);
                                    assert(reported_before(*graph, prev, cycles_before[a], cycles_before[b]));
                                    lemma_sweep_position(prev, ja);
                                    lemma_sweep_position(prev, jb);
                                } else {
                                    assert(all_cycles@[b].tokens@[0] == start_idx);
                                    assert(swept[prev.len() as int] == start_idx as int);
                                }
                            }
                        }
                        assert forall|mm: int, w: Seq<usize>|
                            #![trigger swept[mm], is_arbitrage_cycle(*graph, swept[mm], w)]
                            0 <= mm < swept.len() && is_arbitrage_cycle(*graph, swept[mm], w) implies seen_canonical@.contains(
                                cycle_key(canonical(w)),
                            ) by {
                            if mm < prev.len() {
                                assert(swept[mm] == prev[mm]);
                            } else {
                                assert(w.subrange(0, 0) =~= Seq::<usize>::empty());
                            }
                        }
                        assert forall|a: int, b: int|
                            0 <= a < b < swept.len() implies !same_component(*graph, #[trigger] swept[a], #[trigger] swept[b]) by {
                            if b < prev.len() {
                                assert(swept[a] == prev[a] && swept[b] == prev[b]);
                            } else {
                                assert(swept[a] == prev[a]);
                            }
                        }
                    }
                    swept_components.push(component);
                    proof {
                        assert forall|mm: int, tt: int|
                            0 <= mm < swept.len() && 0 <= tt < num_tokens implies (#[trigger] swept_components@[mm]@[tt]
                                <==> same_component(*graph, swept[mm], tt)) by {
                            if mm < prev.len() {
                                assert(swept[mm] == prev[mm]);
                            }
                        }
                    }
                } else {
                    proof {
                        assert(alone_in_component(*graph, start_idx as int));
                        assert(swept == searched_hubs(*graph, full_order.take(k + 1)));
                    }
                }
            } else {
                proof {
                    let mm = choose|mm: int| 0 <= mm < m && same_component(*graph, #[trigger] prev[mm], start_idx as int);
                    assert(swept == searched_hubs(*graph, full_order.take(k + 1)));
                }
            }
        } else {
            proof {
                assert(swept == searched_hubs(*graph, full_order.take(k + 1)));
            }
        }
        k += 1;
    }
    proof {
        assert(full_order.take(order@.len() as int) =~= full_order);
        let hubs = swept;
        assert forall|a: int, b: int| 0 <= a < b < hubs.len() implies hubs[a] != hubs[b] by {
            lemma_same_component_refl(*graph, hubs[b] as usize);
        }
        assert forall|h: int, w: Seq<usize>|
            hubs.contains(h) && #[trigger] is_arbitrage_cycle(*graph, h, w) implies exists|i: int|
                0 <= i < all_cycles@.len() && canonical(all_cycles@[i].edges@) == canonical(w) by {
            let m = choose|m: int| 0 <= m < hubs.len() && hubs[m] == h;
            let key = cycle_key(canonical(w));
            assert(seen_canonical@.contains(key));
            let i = choose|i: int|
                0 <= i < all_cycles@.len() && cycle_key(canonical(all_cycles@[i].edges@)) == key;
            assert(cycle_ok(*graph, all_cycles@[i]));
            lemma_canonical_len(all_cycles@[i].edges@);
            lemma_canonical_len(w);
            lemma_cycle_key_injective(canonical(all_cycles@[i].edges@), canonical(w));
        }
        assert forall|i: int, j: int|
            0 <= i < all_cycles@.len() && 0 <= j < all_cycles@[i].tokens@.len() && hubs.contains(
                #[trigger] all_cycles@[i].tokens@[j] as int,
            ) implies all_cycles@[i].tokens@[j] == all_cycles@[i].tokens@[0] by {
            let c = all_cycles@[i];
            assert(cycle_ok(*graph, c));
            let s0 = c.tokens@[0] as int;
            let tj = c.tokens@[j] as int;
            assert(tj == edge_in(*graph, c.edges@[j]));
            lemma_cycle_in_component(*graph, s0, c.edges@, j);
            let a = choose|a: int| 0 <= a < hubs.len() && hubs[a] == s0;
            let b = choose|b: int| 0 <= b < hubs.len() && hubs[b] == tj;
            if a < b {
                assert(!same_component(*graph, hubs[a], hubs[b]));
            } else if b < a {
                assert(!same_component(*graph, hubs[b], hubs[a]));
            }
        }
    }
    all_cycles
}

} // verus!
