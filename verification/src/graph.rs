use vstd::prelude::*;

use crate::types::{Edge, Pool};

verus! {

/// The token swap graph: tokens are numbered `0..idx_to_token.len()`, each
/// pool gives two directed edges, and `adjacency[t]` lists the edges leaving
/// token `t`.
pub struct Graph<R> {
    pub idx_to_token: Vec<String>,
    pub adjacency: Vec<Vec<usize>>,
    pub edges: Vec<Edge<R>>,
    pub pool_addresses: Vec<String>,
}

/// The token addresses named by a sequence of pools, two per pool:
/// `token0` then `token1`.
pub open spec fn token_sequence<R>(pools: Seq<Pool<R>>) -> Seq<Seq<char>>
    decreases pools.len(),
{
    if pools.len() == 0 {
        Seq::empty()
    } else {
        token_sequence(pools.drop_last()).push(pools.last().token0@).push(pools.last().token1@)
    }
}

/// The elements of `s` in order of their first occurrence, each once.
pub open spec fn first_occurrences(s: Seq<Seq<char>>) -> Seq<Seq<char>>
    decreases s.len(),
{
    if s.len() == 0 {
        Seq::empty()
    } else {
        let prefix = first_occurrences(s.drop_last());
        if prefix.contains(s.last()) {
            prefix
        } else {
            prefix.push(s.last())
        }
    }
}

/// The addresses held by a sequence of strings.
pub open spec fn names_of(v: Seq<String>) -> Seq<Seq<char>> {
    v.map_values(|s: String| s@)
}

/// No element of `s` occurs twice.
pub open spec fn all_distinct(s: Seq<Seq<char>>) -> bool {
    forall|i: int, j: int| 0 <= i < s.len() && 0 <= j < s.len() && i != j ==> s[i] != s[j]
}

impl<R> Graph<R> {
    /// The addresses of the tokens, by index.
    pub open spec fn token_names(&self) -> Seq<Seq<char>> {
        names_of(self.idx_to_token@)
    }

    pub open spec fn num_tokens(&self) -> nat {
        self.idx_to_token@.len()
    }

    /// Well-formedness: adjacency lists hold exactly the edges leaving each
    /// token, in increasing order; every edge names valid tokens and a valid
    /// pool; and no address is numbered twice.
    pub open spec fn wf(&self) -> bool {
        &&& self.adjacency@.len() == self.idx_to_token@.len()
        &&& forall|t: int, j: int|
            #![trigger self.adjacency@[t]@[j]]
            0 <= t < self.adjacency@.len() && 0 <= j < self.adjacency@[t]@.len() ==> {
                &&& self.adjacency@[t]@[j] < self.edges@.len()
                &&& self.edges@[self.adjacency@[t]@[j] as int].token_in == t
            }
        &&& forall|e: int|
            #![trigger self.edges@[e]]
            0 <= e < self.edges@.len() ==> {
                &&& self.edges@[e].token_in < self.idx_to_token@.len()
                &&& self.edges@[e].token_out < self.idx_to_token@.len()
                &&& self.edges@[e].pool_idx < self.pool_addresses@.len()
                &&& self.adjacency@[self.edges@[e].token_in as int]@.contains(e as usize)
            }
        &&& all_distinct(self.token_names())
        &&& self.adjacency_sorted()
    }

    /// Every adjacency list is in increasing order of edge index.
    pub open spec fn adjacency_sorted(&self) -> bool {
        forall|t: int, j: int, k: int|
            #![trigger self.adjacency@[t]@[j], self.adjacency@[t]@[k]]
            0 <= t < self.adjacency@.len() && 0 <= j < k < self.adjacency@[t]@.len()
                ==> self.adjacency@[t]@[j] < self.adjacency@[t]@[k]
    }

    /// The graph built from `pools`: tokens numbered by first occurrence,
    /// edge `2p` goes `token0 -> token1` through pool `p` and edge `2p + 1`
    /// goes back, adjacency lists sorted.
    pub open spec fn built_from(&self, pools: Seq<Pool<R>>) -> bool {
        &&& self.wf()
        &&& self.token_names() == first_occurrences(token_sequence(pools))
        &&& self.pool_addresses@.len() == pools.len()
        &&& forall|p: int| 0 <= p < pools.len() ==> #[trigger] self.pool_addresses@[p]@ == pools[p].id@
        &&& self.edges@.len() == 2 * pools.len()
        &&& forall|p: int| 0 <= p < pools.len() ==> #[trigger] self.pool_edges_match(pools[p], p)
    }

    /// Edges `2p` and `2p + 1` are the two directions of `pool`.
    pub open spec fn pool_edges_match(&self, pool: Pool<R>, p: int) -> bool {
        let fwd = self.edges@[2 * p];
        let rev = self.edges@[2 * p + 1];
        &&& fwd.pool_idx == p
        &&& rev.pool_idx == p
        &&& self.token_names()[fwd.token_in as int] == pool.token0@
        &&& self.token_names()[fwd.token_out as int] == pool.token1@
        &&& rev.token_in == fwd.token_out
        &&& rev.token_out == fwd.token_in
        &&& fwd.reserve_in == pool.reserve0
        &&& fwd.reserve_out == pool.reserve1
        &&& rev.reserve_in == pool.reserve1
        &&& rev.reserve_out == pool.reserve0
    }

    /// The index of the token with address `token`, if it is in the graph.
    pub open spec fn spec_token_index(&self, token: Seq<char>) -> Option<usize> {
        if exists|i: int| 0 <= i < self.token_names().len() && self.token_names()[i] == token {
            Some((choose|i: int| 0 <= i < self.token_names().len() && self.token_names()[i] == token) as usize)
        } else {
            None
        }
    }

    /// Looks a token address up among the graph's tokens.
    pub fn token_index(&self, token: &String) -> (res: Option<usize>)
        requires
            all_distinct(self.token_names()),
        ensures
            res == self.spec_token_index(token@),
            match res {
                Some(i) => i < self.num_tokens() && self.token_names()[i as int] == token@,
                None => forall|i: int|
                    0 <= i < self.num_tokens() ==> self.token_names()[i] != token@,
            },
    {
        let n = self.idx_to_token.len();
        let mut i: usize = 0;
        while i < n
            invariant
                n == self.idx_to_token@.len(),
                i <= n,
                all_distinct(self.token_names()),
                forall|k: int| 0 <= k < i ==> self.token_names()[k] != token@,
            decreases n - i,
        {
            if self.idx_to_token[i] == *token {
                proof {
                    assert(self.token_names()[i as int] == token@);
                    let j = choose|j: int|
                        0 <= j < self.token_names().len() && self.token_names()[j] == token@;
                    if j != i {
                        assert(self.token_names()[j] != self.token_names()[i as int]);
                    }
                }
                return Some(i);
            }
            i += 1;
        }
        None
    }
}

/// Numbering a token address leaves a graph's name table, looked up again,
/// at the same index: `token_index` inverts `idx_to_token`.
pub proof fn lemma_token_index_inverts_names<R>(g: Graph<R>, i: int)
    requires
        all_distinct(g.token_names()),
        0 <= i < g.num_tokens(),
    ensures
        g.spec_token_index(g.token_names()[i]) == Some(i as usize),
{
    let t = g.token_names()[i];
    let j = choose|j: int| 0 <= j < g.token_names().len() && g.token_names()[j] == t;
    if j != i {
        assert(g.token_names()[j] != g.token_names()[i]);
    }
}

proof fn lemma_push_contains(s: Seq<Seq<char>>, y: Seq<char>, x: Seq<char>)
    ensures
        s.push(y).contains(x) <==> (s.contains(x) || x == y),
{
    if s.push(y).contains(x) {
        let k = choose|k: int| 0 <= k < s.push(y).len() && s.push(y)[k] == x;
        if k < s.len() {
            assert(s[k] == x);
        }
    }
    if s.contains(x) {
        let k = choose|k: int| 0 <= k < s.len() && s[k] == x;
        assert(s.push(y)[k] == x);
    }
    if x == y {
        assert(s.push(y)[s.len() as int] == x);
    }
}

proof fn lemma_first_occurrences_props(s: Seq<Seq<char>>)
    ensures
        all_distinct(first_occurrences(s)),
        forall|x: Seq<char>| #[trigger] first_occurrences(s).contains(x) <==> s.contains(x),
    decreases s.len(),
{
    if s.len() > 0 {
        let s0 = s.drop_last();
        let x0 = s.last();
        lemma_first_occurrences_props(s0);
        let prefix = first_occurrences(s0);
        assert(s =~= s0.push(x0));
        if !prefix.contains(x0) {
            let r = prefix.push(x0);
            assert forall|i: int, j: int| 0 <= i < r.len() && 0 <= j < r.len() && i != j implies r[i] != r[j] by {
                if i == prefix.len() {
                    assert(prefix[j] == r[j]);
                } else if j == prefix.len() {
                    assert(prefix[i] == r[i]);
                } else {
                    assert(prefix[i] == r[i] && prefix[j] == r[j]);
                }
            }
        }
        assert forall|x: Seq<char>| #[trigger] first_occurrences(s).contains(x) <==> s.contains(x) by {
            lemma_push_contains(s0, x0, x);
            lemma_push_contains(prefix, x0, x);
        }
    }
}

/// Finds `token` in `names`, appending it when absent; returns its index.
fn intern_token(names: &mut Vec<String>, token: &String) -> (idx: usize)
    ensures
        idx < final(names)@.len(),
        final(names)@[idx as int]@ == token@,
        final(names)@.len() >= old(names)@.len(),
        forall|k: int| 0 <= k < old(names)@.len() ==> #[trigger] final(names)@[k]@ == old(names)@[k]@,
        names_of(final(names)@) == if names_of(old(names)@).contains(token@) {
            names_of(old(names)@)
        } else {
            names_of(old(names)@).push(token@)
        },
{
    let ghost old_names = names_of(names@);
    let n = names.len();
    let mut i: usize = 0;
    while i < n
        invariant
            n == names@.len(),
            i <= n,
            names_of(names@) == old_names,
            forall|k: int| 0 <= k < i ==> names@[k]@ != token@,
        decreases n - i,
    {
        if names[i] == *token {
            assert(old_names[i as int] == token@);
            return i;
        }
        i += 1;
    }
    assert(!old_names.contains(token@)) by {
        if old_names.contains(token@) {
            let k = choose|k: int| 0 <= k < old_names.len() && old_names[k] == token@;
            assert(names@[k]@ == token@);
        }
    }
    let ghost before = names@;
    names.push(token.clone());
    assert(forall|k: int| 0 <= k < before.len() ==> #[trigger] names@[k] == before[k]);
    assert(names_of(names@) =~= old_names.push(token@));
    n
}

/// Builds the directed swap graph of `pools`: two edges per pool, tokens
/// numbered in order of first appearance.
pub fn build_graph<R: Copy>(pools: &Vec<Pool<R>>) -> (g: Graph<R>)
    requires
        2 * pools@.len() <= usize::MAX,
    ensures
        g.built_from(pools@),
{
    let mut idx_to_token: Vec<String> = Vec::new();
    // (index of token0, index of token1) for each pool
    let mut pool_tokens: Vec<(usize, usize)> = Vec::new();

    // First pass: collect all tokens
    let np = pools.len();
    let mut p: usize = 0;
    while p < np
        invariant
            np == pools@.len(),
            p <= np,
            names_of(idx_to_token@) == first_occurrences(
                token_sequence(pools@.take(p as int)),
            ),
            pool_tokens@.len() == p,
            forall|q: int|
                #![trigger pool_tokens@[q]]
                0 <= q < p ==> {
                    &&& pool_tokens@[q].0 < idx_to_token@.len()
                    &&& pool_tokens@[q].1 < idx_to_token@.len()
                    &&& idx_to_token@[pool_tokens@[q].0 as int]@ == pools@[q].token0@
                    &&& idx_to_token@[pool_tokens@[q].1 as int]@ == pools@[q].token1@
                },
        decreases np - p,
    {
        let ghost before = idx_to_token@;
        let pool = &pools[p];
        let t0 = intern_token(&mut idx_to_token, &pool.token0);
        let ghost mid = idx_to_token@;
        let t1 = intern_token(&mut idx_to_token, &pool.token1);
        proof {
            assert(pools@.take(p + 1).drop_last() =~= pools@.take(p as int));
            let s = token_sequence(pools@.take(p as int));
            assert(token_sequence(pools@.take(p + 1)) == s.push(pool.token0@).push(pool.token1@));
            assert(s.push(pool.token0@).push(pool.token1@).drop_last() == s.push(pool.token0@));
            assert(s.push(pool.token0@).drop_last() == s);
            let fs = first_occurrences(s);
            let fs0 = first_occurrences(s.push(pool.token0@));
            assert(fs0 == if fs.contains(pool.token0@) { fs } else { fs.push(pool.token0@) });
            assert(first_occurrences(s.push(pool.token0@).push(pool.token1@)) == if fs0.contains(
                pool.token1@,
            ) {
                fs0
            } else {
                fs0.push(pool.token1@)
            });
        }
        pool_tokens.push((t0, t1));
        p += 1;
    }
    assert(pools@.take(np as int) =~= pools@);
    proof {
        lemma_first_occurrences_props(token_sequence(pools@));
    }

    let num_tokens = idx_to_token.len();
    let mut adjacency: Vec<Vec<usize>> = Vec::new();
    let mut t: usize = 0;
    while t < num_tokens
        invariant
            t <= num_tokens,
            adjacency@.len() == t,
            forall|k: int| 0 <= k < t ==> (#[trigger] adjacency@[k])@.len() == 0,
        decreases num_tokens - t,
    {
        adjacency.push(Vec::new());
        t += 1;
    }

    let mut pool_addresses: Vec<String> = Vec::new();
    let mut p: usize = 0;
    while p < np
        invariant
            np == pools@.len(),
            p <= np,
            pool_addresses@.len() == p,
            forall|q: int| 0 <= q < p ==> #[trigger] pool_addresses@[q]@ == pools@[q].id@,
        decreases np - p,
    {
        pool_addresses.push(pools[p].id.clone());
        p += 1;
    }

    let mut edges: Vec<Edge<R>> = Vec::new();
    let ghost names = names_of(idx_to_token@);
    let mut p: usize = 0;
    while p < np
        invariant
            np == pools@.len(),
            2 * np <= usize::MAX,
            p <= np,
            num_tokens == idx_to_token@.len(),
            names == names_of(idx_to_token@),
            pool_addresses@.len() == np,
            pool_tokens@.len() == np,
            forall|q: int|
                #![trigger pool_tokens@[q]]
                0 <= q < np ==> {
                    &&& pool_tokens@[q].0 < num_tokens
                    &&& pool_tokens@[q].1 < num_tokens
                    &&& names[pool_tokens@[q].0 as int] == pools@[q].token0@
                    &&& names[pool_tokens@[q].1 as int] == pools@[q].token1@
                },
            edges@.len() == 2 * p,
            adjacency@.len() == num_tokens,
            forall|q: int|
                #![trigger edges@[2 * q]]
                0 <= q < p ==> {
                    let fwd = edges@[2 * q];
                    let rev = edges@[2 * q + 1];
                    &&& fwd.pool_idx == q
                    &&& rev.pool_idx == q
                    &&& fwd.token_in == pool_tokens@[q].0
                    &&& fwd.token_out == pool_tokens@[q].1
                    &&& rev.token_in == fwd.token_out
                    &&& rev.token_out == fwd.token_in
                    &&& fwd.reserve_in == pools@[q].reserve0
                    &&& fwd.reserve_out == pools@[q].reserve1
                    &&& rev.reserve_in == pools@[q].reserve1
                    &&& rev.reserve_out == pools@[q].reserve0
                },
            forall|tt: int, j: int|
                #![trigger adjacency@[tt]@[j]]
                0 <= tt < adjacency@.len() && 0 <= j < adjacency@[tt]@.len() ==> {
                    &&& adjacency@[tt]@[j] < edges@.len()
                    &&& edges@[adjacency@[tt]@[j] as int].token_in == tt
                },
            forall|e: int|
                #![trigger edges@[e]]
                0 <= e < edges@.len() ==> {
                    &&& edges@[e].token_in < num_tokens
                    &&& edges@[e].token_out < num_tokens
                    &&& edges@[e].pool_idx < np
                    &&& adjacency@[edges@[e].token_in as int]@.contains(e as usize)
                },
            forall|tt: int, j: int, k: int|
                #![trigger adjacency@[tt]@[j], adjacency@[tt]@[k]]
                0 <= tt < adjacency@.len() && 0 <= j < k < adjacency@[tt]@.len()
                    ==> adjacency@[tt]@[j] < adjacency@[tt]@[k],
        decreases np - p,
    {
        let pool = &pools[p];
        let (t0, t1) = pool_tokens[p];
        proof {
            assert(pool_tokens@[p as int].0 < num_tokens);
        }

        // Forward: token0 -> token1
        let e0 = edges.len();
        let ghost adj0 = adjacency@;
        let ghost edges0 = edges@;
        edges.push(Edge {
            pool_idx: p,
            token_in: t0,
            token_out: t1,
            reserve_in: pool.reserve0,
            reserve_out: pool.reserve1,
        });
        adjacency[t0].push(e0);
        proof {
            assert forall|tt: int, j: int|
                #![trigger adjacency@[tt]@[j]]
                0 <= tt < adjacency@.len() && 0 <= j < adjacency@[tt]@.len() implies {
                    &&& adjacency@[tt]@[j] < edges@.len()
                    &&& edges@[adjacency@[tt]@[j] as int].token_in == tt
                } by {
                if tt == t0 as int && j == adj0[tt]@.len() {
                } else {
                    assert(adjacency@[tt]@[j] == adj0[tt]@[j]);
                    assert(edges@[adj0[tt]@[j] as int] == edges0[adj0[tt]@[j] as int]);
                }
            }
            assert forall|e: int|
                #![trigger edges@[e]]
                0 <= e < edges@.len() implies
                    adjacency@[edges@[e].token_in as int]@.contains(e as usize) by {
                if e < edges0.len() {
                    assert(edges@[e] == edges0[e]);
                    let tt = edges0[e].token_in as int;
                    assert(adj0[tt]@.contains(e as usize));
                    let j = choose|j: int| 0 <= j < adj0[tt]@.len() && adj0[tt]@[j] == e as usize;
                    assert(adjacency@[tt]@[j] == e as usize);
                } else {
                    assert(adjacency@[t0 as int]@[adj0[t0 as int]@.len() as int] == e0);
                }
            }
            assert forall|tt: int, j: int, k: int|
                #![trigger adjacency@[tt]@[j], adjacency@[tt]@[k]]
                0 <= tt < adjacency@.len() && 0 <= j < k < adjacency@[tt]@.len()
                    implies adjacency@[tt]@[j] < adjacency@[tt]@[k] by {
                if tt == t0 as int && k == adj0[tt]@.len() {
                    assert(adjacency@[tt]@[j] == adj0[tt]@[j]);
                    assert(adj0[tt]@[j] < edges0.len());
                } else {
                    assert(adjacency@[tt]@[j] == adj0[tt]@[j]);
                    assert(adjacency@[tt]@[k] == adj0[tt]@[k]);
                }
            }
        }

        // Reverse: token1 -> token0
        let e1 = edges.len();
        let ghost adj1 = adjacency@;
        let ghost edges1 = edges@;
        edges.push(Edge {
            pool_idx: p,
            token_in: t1,
            token_out: t0,
            reserve_in: pool.reserve1,
            reserve_out: pool.reserve0,
        });
        adjacency[t1].push(e1);
        proof {
            assert forall|tt: int, j: int|
                #![trigger adjacency@[tt]@[j]]
                0 <= tt < adjacency@.len() && 0 <= j < adjacency@[tt]@.len() implies {
                    &&& adjacency@[tt]@[j] < edges@.len()
                    &&& edges@[adjacency@[tt]@[j] as int].token_in == tt
                } by {
                if tt == t1 as int && j == adj1[tt]@.len() {
                } else {
                    assert(adjacency@[tt]@[j] == adj1[tt]@[j]);
                    assert(edges@[adj1[tt]@[j] as int] == edges1[adj1[tt]@[j] as int]);
                }
            }
            assert forall|e: int|
                #![trigger edges@[e]]
                0 <= e < edges@.len() implies
                    adjacency@[edges@[e].token_in as int]@.contains(e as usize) by {
                if e < edges1.len() {
                    assert(edges@[e] == edges1[e]);
                    let tt = edges1[e].token_in as int;
                    assert(adj1[tt]@.contains(e as usize));
                    let j = choose|j: int| 0 <= j < adj1[tt]@.len() && adj1[tt]@[j] == e as usize;
                    assert(adjacency@[tt]@[j] == e as usize);
                } else {
                    assert(adjacency@[t1 as int]@[adj1[t1 as int]@.len() as int] == e1);
                }
            }
            assert forall|tt: int, j: int, k: int|
                #![trigger adjacency@[tt]@[j], adjacency@[tt]@[k]]
                0 <= tt < adjacency@.len() && 0 <= j < k < adjacency@[tt]@.len()
                    implies adjacency@[tt]@[j] < adjacency@[tt]@[k] by {
                if tt == t1 as int && k == adj1[tt]@.len() {
                    assert(adjacency@[tt]@[j] == adj1[tt]@[j]);
                    assert(adj1[tt]@[j] < edges1.len());
                } else {
                    assert(adjacency@[tt]@[j] == adj1[tt]@[j]);
                    assert(adjacency@[tt]@[k] == adj1[tt]@[k]);
                }
            }
            assert forall|q: int|
                #![trigger edges@[2 * q]]
                0 <= q < p + 1 implies {
                    let fwd = edges@[2 * q];
                    let rev = edges@[2 * q + 1];
                    &&& fwd.pool_idx == q
                    &&& rev.pool_idx == q
                    &&& fwd.token_in == pool_tokens@[q].0
                    &&& fwd.token_out == pool_tokens@[q].1
                    &&& rev.token_in == fwd.token_out
                    &&& rev.token_out == fwd.token_in
                    &&& fwd.reserve_in == pools@[q].reserve0
                    &&& fwd.reserve_out == pools@[q].reserve1
                    &&& rev.reserve_in == pools@[q].reserve1
                    &&& rev.reserve_out == pools@[q].reserve0
                } by {
                if q < p {
                    assert(edges@[2 * q] == edges0[2 * q]);
                    assert(edges@[2 * q + 1] == edges0[2 * q + 1]);
                }
            }
        }
        p += 1;
    }

    let g = Graph { idx_to_token, adjacency, edges, pool_addresses };
    proof {
        assert(g.token_names() == names);
        assert forall|q: int| 0 <= q < pools@.len() implies #[trigger] g.pool_edges_match(pools@[q], q) by {
            assert(g.edges@[2 * q] == edges@[2 * q]);
        }
    }
    g
}

} // verus!
