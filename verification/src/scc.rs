use vstd::prelude::*;

use crate::graph::Graph;

verus! {

/// Some edge of `g` leads from token `u` to token `v`.
pub open spec fn step<R>(g: Graph<R>, u: int, v: int) -> bool {
    exists|e: int|
        #![trigger g.edges@[e]]
        0 <= e < g.edges@.len() && g.edges@[e].token_in == u && g.edges@[e].token_out == v
}

/// `p` is a walk of `g` through tokens: consecutive tokens are joined by an edge.
pub open spec fn is_token_path<R>(g: Graph<R>, p: Seq<usize>) -> bool {
    &&& p.len() >= 1
    &&& forall|i: int| 0 <= i < p.len() ==> #[trigger] p[i] < g.num_tokens()
    &&& forall|i: int, j: int|
        0 <= i && j == i + 1 && j < p.len() ==> step(g, #[trigger] p[i] as int, #[trigger] p[j] as int)
}

/// Token `v` can be reached from token `u` by following edges of `g`.
pub open spec fn reaches<R>(g: Graph<R>, u: int, v: int) -> bool {
    exists|p: Seq<usize>| #[trigger] is_token_path(g, p) && p[0] == u && p.last() == v
}

/// Tokens `u` and `v` lie in the same strongly connected component.
pub open spec fn same_component<R>(g: Graph<R>, u: int, v: int) -> bool {
    reaches(g, u, v) && reaches(g, v, u)
}

/// Token `h` is the only token of its strongly connected component.
pub open spec fn alone_in_component<R>(g: Graph<R>, h: int) -> bool {
    forall|t: int| 0 <= t < g.num_tokens() && #[trigger] same_component(g, h, t) ==> t == h
}

/// Every token lies in its own component.
pub proof fn lemma_same_component_refl<R>(g: Graph<R>, h: usize)
    requires
        h < g.num_tokens(),
    ensures
        same_component(g, h as int, h as int),
{
    let p = seq![h];
    assert(is_token_path(g, p));
}

// ---------------------------------------------------------------------
// Neighbour lists and search over them

/// `p` is a walk along the neighbour lists `nbrs`.
pub open spec fn nbr_path(nbrs: Seq<Vec<usize>>, p: Seq<usize>) -> bool {
    &&& p.len() >= 1
    &&& forall|i: int| 0 <= i < p.len() ==> #[trigger] p[i] < nbrs.len()
    &&& forall|i: int, j: int|
        0 <= i && j == i + 1 && j < p.len() ==> nbrs[#[trigger] p[i] as int]@.contains(#[trigger] p[j])
}

/// `v` can be reached from `u` along the neighbour lists `nbrs`.
pub open spec fn nbr_reaches(nbrs: Seq<Vec<usize>>, u: int, v: int) -> bool {
    exists|p: Seq<usize>| #[trigger] nbr_path(nbrs, p) && p[0] == u && p.last() == v
}

/// Every entry of every list of `nbrs` is an index of `nbrs`.
pub open spec fn nbrs_in_range(nbrs: Seq<Vec<usize>>) -> bool {
    forall|u: int, j: int|
        #![trigger nbrs[u]@[j]]
        0 <= u < nbrs.len() && 0 <= j < nbrs[u]@.len() ==> nbrs[u]@[j] < nbrs.len()
}

/// The number of `true` entries of `s`.
pub open spec fn count_true(s: Seq<bool>) -> nat
    decreases s.len(),
{
    if s.len() == 0 {
        0
    } else {
        count_true(s.drop_last()) + if s.last() {
            1nat
        } else {
            0nat
        }
    }
}

proof fn lemma_count_bounds(s: Seq<bool>)
    ensures
        count_true(s) <= s.len(),
        (exists|i: int| 0 <= i < s.len() && !s[i]) ==> count_true(s) < s.len(),
    decreases s.len(),
{
    if s.len() > 0 {
        lemma_count_bounds(s.drop_last());
        if exists|i: int| 0 <= i < s.len() && !s[i] {
            let i = choose|i: int| 0 <= i < s.len() && !s[i];
            if i < s.len() - 1 {
                assert(!s.drop_last()[i]);
            }
        }
    }
}

proof fn lemma_count_update(s: Seq<bool>, i: int)
    requires
        0 <= i < s.len(),
        !s[i],
    ensures
        count_true(s.update(i, true)) == count_true(s) + 1,
    decreases s.len(),
{
    let t = s.update(i, true);
    if i == s.len() - 1 {
        assert(t.drop_last() =~= s.drop_last());
    } else {
        assert(t.drop_last() =~= s.drop_last().update(i, true));
        lemma_count_update(s.drop_last(), i);
    }
}

/// Marks reaching every token of a walk that starts at a marked token,
/// when the marks are closed under the neighbour lists.
proof fn lemma_closed_marks(nbrs: Seq<Vec<usize>>, mark: Seq<bool>, p: Seq<usize>)
    requires
        mark.len() == nbrs.len(),
        nbr_path(nbrs, p),
        mark[p[0] as int],
        forall|u: int, j: int|
            #![trigger nbrs[u]@[j]]
            0 <= u < nbrs.len() && mark[u] && 0 <= j < nbrs[u]@.len() ==> mark[nbrs[u]@[j] as int],
    ensures
        mark[p.last() as int],
    decreases p.len(),
{
    if p.len() > 1 {
        let q = p.drop_last();
        assert(nbr_path(nbrs, q)) by {
            assert forall|i: int, j: int| 0 <= i && j == i + 1 && j < q.len() implies nbrs[#[trigger] q[i] as int]@.contains(
                #[trigger] q[j],
            ) by {
                assert(q[i] == p[i] && q[j] == p[j]);
            }
        }
        lemma_closed_marks(nbrs, mark, q);
        let n = p.len() as int;
        assert(nbrs[p[n - 2] as int]@.contains(p[n - 1]));
        let lst = nbrs[p[n - 2] as int]@;
        let j = choose|j: int| 0 <= j < lst.len() && lst[j] == p[n - 1];
        assert(mark[nbrs[p[n - 2] as int]@[j] as int]);
    }
}

/// Marks the tokens that can be reached from `s` along `nbrs`, by
/// breadth-first search.
fn reach_marks(nbrs: &Vec<Vec<usize>>, s: usize) -> (mark: Vec<bool>)
    requires
        s < nbrs@.len(),
        nbrs_in_range(nbrs@),
    ensures
        mark@.len() == nbrs@.len(),
        forall|v: int| 0 <= v < nbrs@.len() ==> (#[trigger] mark@[v] <==> nbr_reaches(nbrs@, s as int, v)),
{
    let n = nbrs.len();
    let mut mark: Vec<bool> = vec![false; n];
    proof {
        lemma_count_bounds(mark@);
        assert(!mark@[s as int]);
        lemma_count_update(mark@, s as int);
        assert(count_true(mark@) == 0) by {
            assert forall|k: int| 0 <= k <= n implies count_true(#[trigger] mark@.take(k)) == 0 by {
                lemma_count_zero(mark@, k);
            }
            assert(mark@.take(n as int) =~= mark@);
        }
    }
    mark.set(s, true);
    let mut queue: Vec<usize> = Vec::new();
    queue.push(s);
    proof {
        let p = seq![s];
        assert(nbr_path(nbrs@, p));
        assert(nbr_reaches(nbrs@, s as int, s as int));
        assert forall|v: int| 0 <= v < n && #[trigger] mark@[v] implies queue@.contains(v as usize) by {
            assert(v == s);
            assert(queue@[0] == s);
        }
    }
    let mut head: usize = 0;
    while head < queue.len()
        invariant
            n == nbrs@.len(),
            mark@.len() == n,
            s < n,
            nbrs_in_range(nbrs@),
            head <= queue@.len(),
            mark@[s as int],
            queue@.len() == count_true(mark@),
            forall|i: int| 0 <= i < queue@.len() ==> #[trigger] queue@[i] < n && mark@[queue@[i] as int],
            forall|v: int| 0 <= v < n && #[trigger] mark@[v] ==> queue@.contains(v as usize),
            forall|v: int| 0 <= v < n && #[trigger] mark@[v] ==> nbr_reaches(nbrs@, s as int, v),
            forall|i: int, j: int|
                #![trigger nbrs@[queue@[i] as int]@[j]]
                0 <= i < head && 0 <= j < nbrs@[queue@[i] as int]@.len() ==> mark@[nbrs@[queue@[i] as int]@[j] as int],
        decreases n - head,
    {
        proof {
            lemma_count_bounds(mark@);
        }
        let u = queue[head];
        let m = nbrs[u].len();
        let mut j: usize = 0;
        while j < m
            invariant
                n == nbrs@.len(),
                mark@.len() == n,
                s < n,
                nbrs_in_range(nbrs@),
                head < queue@.len(),
                u == queue@[head as int],
                u < n,
                m == nbrs@[u as int]@.len(),
                j <= m,
                mark@[s as int],
                queue@.len() == count_true(mark@),
                forall|i: int| 0 <= i < queue@.len() ==> #[trigger] queue@[i] < n && mark@[queue@[i] as int],
                forall|v: int| 0 <= v < n && #[trigger] mark@[v] ==> queue@.contains(v as usize),
                forall|v: int| 0 <= v < n && #[trigger] mark@[v] ==> nbr_reaches(nbrs@, s as int, v),
                forall|i: int, jj: int|
                    #![trigger nbrs@[queue@[i] as int]@[jj]]
                    0 <= i < head && 0 <= jj < nbrs@[queue@[i] as int]@.len() ==> mark@[nbrs@[queue@[i] as int]@[jj] as int],
                forall|jj: int| 0 <= jj < j ==> mark@[#[trigger] nbrs@[u as int]@[jj] as int],
            decreases m - j,
        {
            let v = nbrs[u][j];
            proof {
                assert(v < n);
            }
            if !mark[v] {
                let ghost old_mark = mark@;
                let ghost old_queue = queue@;
                proof {
                    lemma_count_update(mark@, v as int);
                    lemma_count_bounds(mark@);
                    // a walk to u extended by v
                    let p = choose|p: Seq<usize>| #[trigger] nbr_path(nbrs@, p) && p[0] == s as int && p.last() == u as int;
                    let p2 = p.push(v);
                    assert(nbrs@[u as int]@.contains(v));
                    assert forall|a: int, b: int| 0 <= a && b == a + 1 && b < p2.len() implies nbrs@[#[trigger] p2[a] as int]@.contains(
                        #[trigger] p2[b],
                    ) by {
                        if b < p.len() {
                            assert(p2[a] == p[a] && p2[b] == p[b]);
                        }
                    }
                    assert(nbr_path(nbrs@, p2));
                    assert(nbr_reaches(nbrs@, s as int, v as int));
                }
                mark.set(v, true);
                queue.push(v);
                proof {
                    assert forall|i: int| 0 <= i < queue@.len() implies #[trigger] queue@[i] < n && mark@[queue@[i] as int] by {
                        if i < old_queue.len() {
                            assert(queue@[i] == old_queue[i]);
                        }
                    }
                    assert forall|w: int| 0 <= w < n && #[trigger] mark@[w] implies queue@.contains(w as usize) by {
                        if w == v as int {
                            assert(queue@[old_queue.len() as int] == v);
                        } else {
                            assert(old_mark[w]);
                            let k = choose|k: int| 0 <= k < old_queue.len() && old_queue[k] == w as usize;
                            assert(queue@[k] == w as usize);
                        }
                    }
                    assert forall|w: int| 0 <= w < n && #[trigger] mark@[w] implies nbr_reaches(nbrs@, s as int, w) by {
                        if w != v as int {
                            assert(old_mark[w]);
                        }
                    }
                    assert forall|i: int, jj: int|
                        #![trigger nbrs@[queue@[i] as int]@[jj]]
                        0 <= i < head && 0 <= jj < nbrs@[queue@[i] as int]@.len() implies mark@[nbrs@[queue@[i] as int]@[jj] as int] by {
                        assert(queue@[i] == old_queue[i]);
                        assert(old_mark[nbrs@[old_queue[i] as int]@[jj] as int]);
                    }
                    assert forall|jj: int| 0 <= jj < j + 1 implies mark@[#[trigger] nbrs@[u as int]@[jj] as int] by {
                        if jj < j {
                            assert(old_mark[nbrs@[u as int]@[jj] as int]);
                        }
                    }
                }
            }
            j += 1;
        }
        proof {
            assert forall|i: int, jj: int|
                #![trigger nbrs@[queue@[i] as int]@[jj]]
                0 <= i < head + 1 && 0 <= jj < nbrs@[queue@[i] as int]@.len() implies mark@[nbrs@[queue@[i] as int]@[jj] as int] by {
                if i == head as int {
                    assert(mark@[nbrs@[u as int]@[jj] as int]);
                }
            }
        }
        head += 1;
    }
    proof {
        assert forall|v: int| 0 <= v < n implies (#[trigger] mark@[v] <==> nbr_reaches(nbrs@, s as int, v)) by {
            if nbr_reaches(nbrs@, s as int, v) {
                let p = choose|p: Seq<usize>| #[trigger] nbr_path(nbrs@, p) && p[0] == s as int && p.last() == v;
                assert forall|uu: int, jj: int|
                    #![trigger nbrs@[uu]@[jj]]
                    0 <= uu < n && mark@[uu] && 0 <= jj < nbrs@[uu]@.len() implies mark@[nbrs@[uu]@[jj] as int] by {
                    let k = choose|k: int| 0 <= k < queue@.len() && queue@[k] == uu as usize;
                    assert(nbrs@[queue@[k] as int]@[jj] == nbrs@[uu]@[jj]);
                }
                lemma_closed_marks(nbrs@, mark@, p);
            }
        }
    }
    mark
}

proof fn lemma_count_zero(s: Seq<bool>, k: int)
    requires
        0 <= k <= s.len(),
        forall|i: int| 0 <= i < s.len() ==> !#[trigger] s[i],
    ensures
        count_true(s.take(k)) == 0,
    decreases k,
{
    if k > 0 {
        assert(s.take(k).drop_last() =~= s.take(k - 1));
        lemma_count_zero(s, k - 1);
    }
}

/// `succ[u]` lists the tokens one edge away from `u`.
pub open spec fn is_successor_lists<R>(g: Graph<R>, succ: Seq<Vec<usize>>) -> bool {
    &&& succ.len() == g.num_tokens()
    &&& nbrs_in_range(succ)
    &&& forall|u: int, v: usize| 0 <= u < succ.len() ==> (#[trigger] succ[u]@.contains(v) <==> step(g, u, v as int))
}

/// `pred[u]` lists the tokens with an edge into `u`.
pub open spec fn is_predecessor_lists<R>(g: Graph<R>, pred: Seq<Vec<usize>>) -> bool {
    &&& pred.len() == g.num_tokens()
    &&& nbrs_in_range(pred)
    &&& forall|u: int, v: usize| 0 <= u < pred.len() ==> (#[trigger] pred[u]@.contains(v) <==> step(g, v as int, u))
}

/// The tokens one edge away from each token.
pub fn successor_lists<R>(g: &Graph<R>) -> (succ: Vec<Vec<usize>>)
    requires
        g.wf(),
    ensures
        is_successor_lists(*g, succ@),
{
    let n = g.idx_to_token.len();
    let ne = g.edges.len();
    let mut succ: Vec<Vec<usize>> = Vec::new();
    let mut t: usize = 0;
    while t < n
        invariant
            g.wf(),
            n == g.num_tokens(),
            ne == g.edges@.len(),
            t <= n,
            succ@.len() == t,
            forall|u: int, j: int|
                #![trigger succ@[u]@[j]]
                0 <= u < t && 0 <= j < succ@[u]@.len() ==> succ@[u]@[j] < n,
            forall|u: int, v: usize| 0 <= u < t ==> (#[trigger] succ@[u]@.contains(v) <==> step(*g, u, v as int)),
        decreases n - t,
    {
        let m = g.adjacency[t].len();
        let mut lst: Vec<usize> = Vec::new();
        let mut j: usize = 0;
        while j < m
            invariant
                g.wf(),
                n == g.num_tokens(),
                t < n,
                m == g.adjacency@[t as int]@.len(),
                j <= m,
                lst@.len() == j,
                forall|k: int|
                    0 <= k < j ==> #[trigger] lst@[k] == g.edges@[g.adjacency@[t as int]@[k] as int].token_out,
            decreases m - j,
        {
            let e = g.adjacency[t][j];
            proof {
                assert(g.adjacency@[t as int]@[j as int] == e);
                assert(e < g.edges@.len());
            }
            lst.push(g.edges[e].token_out);
            j += 1;
        }
        proof {
            assert forall|k: int| 0 <= k < lst@.len() implies #[trigger] lst@[k] < n by {
                let e = g.adjacency@[t as int]@[k];
                assert(g.edges@[e as int].token_out < n);
            }
            assert forall|v: usize| #[trigger] lst@.contains(v) <==> step(*g, t as int, v as int) by {
                if lst@.contains(v) {
                    let k = choose|k: int| 0 <= k < lst@.len() && lst@[k] == v;
                    let e = g.adjacency@[t as int]@[k];
                    assert(g.edges@[e as int].token_in == t);
                    assert(g.edges@[e as int].token_out == v);
                }
                if step(*g, t as int, v as int) {
                    let e = choose|e: int|
                        #![trigger g.edges@[e]]
                        0 <= e < g.edges@.len() && g.edges@[e].token_in == t && g.edges@[e].token_out == v;
                    assert(g.adjacency@[t as int]@.contains(e as usize));
                    let k = choose|k: int| 0 <= k < m && g.adjacency@[t as int]@[k] == e as usize;
                    assert(lst@[k] == v);
                }
            }
        }
        let ghost before = succ@;
        succ.push(lst);
        proof {
            assert forall|u: int, v: usize| 0 <= u < t + 1 implies (#[trigger] succ@[u]@.contains(v) <==> step(*g, u, v as int)) by {
                if u < t {
                    assert(succ@[u] == before[u]);
                }
            }
            assert forall|u: int, jj: int|
                #![trigger succ@[u]@[jj]]
                0 <= u < t + 1 && 0 <= jj < succ@[u]@.len() implies succ@[u]@[jj] < n by {
                if u < t {
                    assert(succ@[u] == before[u]);
                }
            }
        }
        t += 1;
    }
    succ
}

/// The tokens with an edge into each token.
pub fn predecessor_lists<R>(g: &Graph<R>) -> (pred: Vec<Vec<usize>>)
    requires
        g.wf(),
    ensures
        is_predecessor_lists(*g, pred@),
{
    let n = g.idx_to_token.len();
    let mut pred: Vec<Vec<usize>> = Vec::new();
    let mut t: usize = 0;
    while t < n
        invariant
            t <= n,
            pred@.len() == t,
            forall|k: int| 0 <= k < t ==> (#[trigger] pred@[k])@.len() == 0,
        decreases n - t,
    {
        pred.push(Vec::new());
        t += 1;
    }
    let ne = g.edges.len();
    let mut e: usize = 0;
    while e < ne
        invariant
            g.wf(),
            n == g.num_tokens(),
            ne == g.edges@.len(),
            e <= ne,
            pred@.len() == n,
            forall|u: int, j: int|
                #![trigger pred@[u]@[j]]
                0 <= u < n && 0 <= j < pred@[u]@.len() ==> pred@[u]@[j] < n,
            forall|u: int, v: usize|
                0 <= u < n ==> (#[trigger] pred@[u]@.contains(v) <==> exists|f: int|
                    #![trigger g.edges@[f]]
                    0 <= f < e && g.edges@[f].token_out == u && g.edges@[f].token_in == v),
        decreases ne - e,
    {
        let tin = g.edges[e].token_in;
        let tout = g.edges[e].token_out;
        proof {
            assert(g.edges@[e as int].token_in < n && g.edges@[e as int].token_out < n);
        }
        let ghost before = pred@;
        pred[tout].push(tin);
        proof {
            assert forall|u: int, j: int|
                #![trigger pred@[u]@[j]]
                0 <= u < n && 0 <= j < pred@[u]@.len() implies pred@[u]@[j] < n by {
                if u == tout as int && j == before[u]@.len() {
                } else {
                    assert(pred@[u]@[j] == before[u]@[j]);
                }
            }
            assert forall|u: int, v: usize|
                0 <= u < n implies (#[trigger] pred@[u]@.contains(v) <==> exists|f: int|
                    #![trigger g.edges@[f]]
                    0 <= f < e + 1 && g.edges@[f].token_out == u && g.edges@[f].token_in == v) by {
                let ex_old = exists|f: int|
                    #![trigger g.edges@[f]]
                    0 <= f < e && g.edges@[f].token_out == u && g.edges@[f].token_in == v;
                assert(before[u]@.contains(v) <==> ex_old);
                if u == tout as int {
                    assert(pred@[u]@ == before[u]@.push(tin));
                    if pred@[u]@.contains(v) {
                        let k = choose|k: int| 0 <= k < pred@[u]@.len() && pred@[u]@[k] == v;
                        if k < before[u]@.len() {
                            assert(before[u]@[k] == v);
                            assert(before[u]@.contains(v));
                        } else {
                            assert(g.edges@[e as int].token_out == u);
                        }
                    }
                    if exists|f: int|
                        #![trigger g.edges@[f]]
                        0 <= f < e + 1 && g.edges@[f].token_out == u && g.edges@[f].token_in == v {
                        let f = choose|f: int|
                            #![trigger g.edges@[f]]
                            0 <= f < e + 1 && g.edges@[f].token_out == u && g.edges@[f].token_in == v;
                        if f < e {
                            assert(ex_old);
                            let k = choose|k: int| 0 <= k < before[u]@.len() && before[u]@[k] == v;
                            assert(pred@[u]@[k] == v);
                        } else {
                            assert(pred@[u]@[before[u]@.len() as int] == v);
                        }
                    }
                } else {
                    assert(pred@[u] == before[u]);
                    if exists|f: int|
                        #![trigger g.edges@[f]]
                        0 <= f < e + 1 && g.edges@[f].token_out == u && g.edges@[f].token_in == v {
                        let f = choose|f: int|
                            #![trigger g.edges@[f]]
                            0 <= f < e + 1 && g.edges@[f].token_out == u && g.edges@[f].token_in == v;
                        assert(f < e);
                        assert(ex_old);
                    }
                }
            }
        }
        e += 1;
    }
    pred
}

proof fn lemma_succ_reaches<R>(g: Graph<R>, succ: Seq<Vec<usize>>, u: int, v: int)
    requires
        is_successor_lists(g, succ),
    ensures
        nbr_reaches(succ, u, v) <==> reaches(g, u, v),
{
    if nbr_reaches(succ, u, v) {
        let p = choose|p: Seq<usize>| #[trigger] nbr_path(succ, p) && p[0] == u && p.last() == v;
        assert forall|i: int, j: int| 0 <= i && j == i + 1 && j < p.len() implies step(
            g,
            #[trigger] p[i] as int,
            #[trigger] p[j] as int,
        ) by {
            assert(succ[p[i] as int]@.contains(p[j]));
        }
        assert(is_token_path(g, p));
    }
    if reaches(g, u, v) {
        let p = choose|p: Seq<usize>| #[trigger] is_token_path(g, p) && p[0] == u && p.last() == v;
        assert forall|i: int, j: int| 0 <= i && j == i + 1 && j < p.len() implies succ[#[trigger] p[i] as int]@.contains(
            #[trigger] p[j],
        ) by {
            assert(step(g, p[i] as int, p[j] as int));
        }
        assert(nbr_path(succ, p));
    }
}

proof fn lemma_pred_reaches<R>(g: Graph<R>, pred: Seq<Vec<usize>>, u: int, v: int)
    requires
        is_predecessor_lists(g, pred),
    ensures
        nbr_reaches(pred, u, v) <==> reaches(g, v, u),
{
    if nbr_reaches(pred, u, v) {
        let p = choose|p: Seq<usize>| #[trigger] nbr_path(pred, p) && p[0] == u && p.last() == v;
        let n = p.len() as int;
        let q = Seq::new(p.len(), |i: int| p[n - 1 - i]);
        assert forall|i: int| 0 <= i < q.len() implies #[trigger] q[i] < g.num_tokens() by {
            assert(q[i] == p[n - 1 - i]);
        }
        assert forall|i: int, j: int| 0 <= i && j == i + 1 && j < q.len() implies step(
            g,
            #[trigger] q[i] as int,
            #[trigger] q[j] as int,
        ) by {
            let a = n - 1 - j;
            let b = n - 1 - i;
            assert(q[i] == p[b] && q[j] == p[a]);
            assert(pred[p[a] as int]@.contains(p[b]));
        }
        assert(is_token_path(g, q));
        assert(q[0] == v && q.last() == u);
    }
    if reaches(g, v, u) {
        let p = choose|p: Seq<usize>| #[trigger] is_token_path(g, p) && p[0] == v && p.last() == u;
        let n = p.len() as int;
        let q = Seq::new(p.len(), |i: int| p[n - 1 - i]);
        assert forall|i: int| 0 <= i < q.len() implies #[trigger] q[i] < pred.len() by {
            assert(q[i] == p[n - 1 - i]);
        }
        assert forall|i: int, j: int| 0 <= i && j == i + 1 && j < q.len() implies pred[#[trigger] q[i] as int]@.contains(
            #[trigger] q[j],
        ) by {
            let a = n - 1 - j;
            let b = n - 1 - i;
            assert(q[i] == p[b] && q[j] == p[a]);
            assert(step(g, p[a] as int, p[b] as int));
        }
        assert(nbr_path(pred, q));
        assert(q[0] == u && q.last() == v);
    }
}

/// Marks the tokens in the strongly connected component of `s`.
pub fn component_of<R>(g: &Graph<R>, succ: &Vec<Vec<usize>>, pred: &Vec<Vec<usize>>, s: usize) -> (in_component: Vec<bool>)
    requires
        s < g.num_tokens(),
        is_successor_lists(*g, succ@),
        is_predecessor_lists(*g, pred@),
    ensures
        in_component@.len() == g.num_tokens(),
        forall|t: int| 0 <= t < g.num_tokens() ==> (#[trigger] in_component@[t] <==> same_component(*g, s as int, t)),
{
    let forward = reach_marks(succ, s);
    let backward = reach_marks(pred, s);
    let n = forward.len();
    let mut in_component: Vec<bool> = Vec::new();
    let mut t: usize = 0;
    while t < n
        invariant
            n == g.num_tokens(),
            forward@.len() == n,
            backward@.len() == n,
            is_successor_lists(*g, succ@),
            is_predecessor_lists(*g, pred@),
            forall|v: int| 0 <= v < n ==> (#[trigger] forward@[v] <==> nbr_reaches(succ@, s as int, v)),
            forall|v: int| 0 <= v < n ==> (#[trigger] backward@[v] <==> nbr_reaches(pred@, s as int, v)),
            t <= n,
            in_component@.len() == t,
            forall|v: int| 0 <= v < t ==> (#[trigger] in_component@[v] <==> same_component(*g, s as int, v)),
        decreases n - t,
    {
        proof {
            lemma_succ_reaches(*g, succ@, s as int, t as int);
            lemma_pred_reaches(*g, pred@, s as int, t as int);
        }
        in_component.push(forward[t] && backward[t]);
        t += 1;
    }
    in_component
}

} // verus!
