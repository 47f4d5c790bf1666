use vstd::prelude::*;
use vstd::string::StringSliceAdditionalSpecFns;
use vstd::utf8::{
    decode_utf8, encode_utf8, encode_utf8_decode_utf8, is_ascii_chars, is_ascii_chars_encode_utf8,
    is_char_boundary,
};

use crate::graph::{names_of, Graph};
use crate::types::Cycle;

verus! {

/// `s` can be shortened without cutting a character: when its UTF-8
/// encoding is longer than 10 bytes, bytes 6 and `len - 4` are character
/// boundaries. (Its length in bytes fits a `usize`, as every string's does.)
pub open spec fn can_shorten(s: Seq<char>) -> bool {
    let b = encode_utf8(s);
    &&& b.len() <= usize::MAX
    &&& b.len() > 10 ==> is_char_boundary(b, 6) && is_char_boundary(b, b.len() - 4)
}

/// The display form of an address: an address longer than 10 bytes is shown
/// as its first 6 bytes, `...`, and its last 4 bytes; a shorter one whole.
pub open spec fn short_address(s: Seq<char>) -> Seq<char> {
    let b = encode_utf8(s);
    if b.len() > 10 {
        decode_utf8(b.subrange(0, 6)) + "..."@ + decode_utf8(b.subrange(b.len() - 4, b.len() as int))
    } else {
        s
    }
}

proof fn lemma_ascii_encode_subrange(s: Seq<char>, a: int, b: int)
    requires
        is_ascii_chars(s),
        0 <= a <= b <= s.len(),
    ensures
        decode_utf8(encode_utf8(s).subrange(a, b)) == s.subrange(a, b),
{
    let t = s.subrange(a, b);
    assert(is_ascii_chars(t)) by {
        assert forall|i: int| 0 <= i < t.len() implies '\0' <= #[trigger] t[i] <= '\u{7f}' by {
            assert(t[i] == s[a + i]);
        }
    }
    is_ascii_chars_encode_utf8(s);
    is_ascii_chars_encode_utf8(t);
    assert(encode_utf8(t) =~= encode_utf8(s).subrange(a, b)) by {
        assert forall|i: int| 0 <= i < t.len() implies encode_utf8(t)[i] == encode_utf8(s).subrange(a, b)[i] by {
            assert(t[i] == s[a + i]);
        }
    }
    encode_utf8_decode_utf8(t);
}

/// For an ASCII address the display form is its first 6 characters, `...`,
/// and its last 4 characters, when it is longer than 10 characters.
pub proof fn lemma_short_address_ascii(s: Seq<char>)
    requires
        is_ascii_chars(s),
    ensures
        short_address(s) == if s.len() > 10 {
            s.subrange(0, 6) + "..."@ + s.subrange(s.len() - 4, s.len() as int)
        } else {
            s
        },
{
    is_ascii_chars_encode_utf8(s);
    if s.len() > 10 {
        lemma_ascii_encode_subrange(s, 0, 6);
        lemma_ascii_encode_subrange(s, s.len() - 4, s.len() as int);
    }
}

/// Shortening is idempotent on ASCII addresses: a shortened address is
/// displayed as it is.
pub proof fn lemma_short_address_idempotent(s: Seq<char>)
    requires
        is_ascii_chars(s),
    ensures
        short_address(short_address(s)) == short_address(s),
{
    lemma_short_address_ascii(s);
    if s.len() > 10 {
        reveal_strlit("...");
        let r = s.subrange(0, 6) + "..."@ + s.subrange(s.len() - 4, s.len() as int);
        assert(r.len() == 13);
        assert(is_ascii_chars(r)) by {
            assert forall|i: int| 0 <= i < r.len() implies '\0' <= #[trigger] r[i] <= '\u{7f}' by {
                if i < 6 {
                    assert(r[i] == s[i]);
                } else if i >= 9 {
                    assert(r[i] == s[s.len() - 4 + (i - 9)]);
                }
            }
        }
        lemma_short_address_ascii(r);
        assert(r.subrange(0, 6) =~= s.subrange(0, 6));
        assert(r.subrange(9, 13) =~= s.subrange(s.len() - 4, s.len() as int));
        assert(r.subrange(0, 6) + "..."@ + r.subrange(9, 13) =~= r);
    }
}

/// Shortens an address for display, e.g. `0xc02a...6cc2`.
pub fn shorten_address(addr: &str) -> (res: String)
    requires
        can_shorten(addr@),
    ensures
        res@ == short_address(addr@),
{
    proof {
        assert(addr.spec_bytes() == encode_utf8(addr@));
    }
    if addr.len() > 10 {
        let (head, _) = addr.split_at(6);
        let (_, tail) = addr.split_at(addr.len() - 4);
        proof {
            assert(head.spec_bytes() == encode_utf8(head@));
            assert(tail.spec_bytes() == encode_utf8(tail@));
            encode_utf8_decode_utf8(head@);
            encode_utf8_decode_utf8(tail@);
        }
        let mut res = String::from_str(head);
        res.append("...");
        res.append(tail);
        res
    } else {
        String::from_str(addr)
    }
}

/// `parts` joined with `sep` between consecutive parts.
pub open spec fn join_with(parts: Seq<Seq<char>>, sep: Seq<char>) -> Seq<char>
    decreases parts.len(),
{
    if parts.len() == 0 {
        Seq::empty()
    } else if parts.len() == 1 {
        parts[0]
    } else {
        join_with(parts.drop_last(), sep) + sep + parts.last()
    }
}

/// The addresses of the tokens `tokens`.
pub open spec fn token_names_at<R>(g: Graph<R>, tokens: Seq<usize>) -> Seq<Seq<char>> {
    tokens.map_values(|t: usize| g.token_names()[t as int])
}

/// The token addresses of a cycle's tokens, closed by repeating the first.
pub open spec fn closed_token_names<R>(g: Graph<R>, tokens: Seq<usize>) -> Seq<Seq<char>> {
    let names = token_names_at(g, tokens);
    if tokens.len() > 0 {
        names.push(g.token_names()[tokens[0] as int])
    } else {
        names
    }
}

/// Every token of `tokens` is a token of `g`.
pub open spec fn tokens_in_graph<R>(g: Graph<R>, tokens: Seq<usize>) -> bool {
    forall|i: int| 0 <= i < tokens.len() ==> #[trigger] tokens[i] < g.num_tokens()
}

/// The addresses of a cycle's tokens, in order, with the start token
/// repeated at the end: a closed path whose first and last entries agree.
pub fn closed_path_tokens<R>(graph: &Graph<R>, cycle: &Cycle) -> (path: Vec<String>)
    requires
        tokens_in_graph(*graph, cycle.tokens@),
    ensures
        names_of(path@) == closed_token_names(*graph, cycle.tokens@),
{
    let n = cycle.tokens.len();
    let mut path: Vec<String> = Vec::new();
    let mut i: usize = 0;
    while i < n
        invariant
            n == cycle.tokens@.len(),
            i <= n,
            tokens_in_graph(*graph, cycle.tokens@),
            names_of(path@) =~= token_names_at(*graph, cycle.tokens@.take(i as int)),
        decreases n - i,
    {
        let t = cycle.tokens[i];
        proof {
            assert(t < graph.num_tokens());
        }
        let ghost before = path@;
        path.push(graph.idx_to_token[t].clone());
        proof {
            assert(cycle.tokens@.take(i + 1) =~= cycle.tokens@.take(i as int).push(t));
            assert(token_names_at(*graph, cycle.tokens@.take(i + 1)) =~= token_names_at(
                *graph,
                cycle.tokens@.take(i as int),
            ).push(graph.token_names()[t as int]));
            assert(names_of(path@) =~= names_of(before).push(graph.token_names()[t as int]));
        }
        i += 1;
    }
    assert(cycle.tokens@.take(n as int) =~= cycle.tokens@);
    if n > 0 {
        let first = cycle.tokens[0];
        let ghost before = path@;
        path.push(graph.idx_to_token[first].clone());
        assert(names_of(path@) =~= names_of(before).push(graph.token_names()[first as int]));
    }
    path
}

/// The first and last entries of a closed path are the start token: the
/// token path of a cycle is closed.
pub proof fn lemma_closed_path_is_closed<R>(g: Graph<R>, tokens: Seq<usize>)
    requires
        tokens.len() > 0,
    ensures
        closed_token_names(g, tokens).len() == tokens.len() + 1,
        closed_token_names(g, tokens)[0] == closed_token_names(g, tokens).last(),
        closed_token_names(g, tokens)[0] == g.token_names()[tokens[0] as int],
        forall|i: int|
            0 <= i < tokens.len() ==> #[trigger] closed_token_names(g, tokens)[i] == g.token_names()[tokens[i] as int],
{
}

/// Joining one more part appends the separator and that part: a join of
/// `n` parts holds every part, in order, with a separator between each two.
pub proof fn lemma_join_with_push(parts: Seq<Seq<char>>, sep: Seq<char>, x: Seq<char>)
    requires
        parts.len() >= 1,
    ensures
        join_with(parts.push(x), sep) == join_with(parts, sep) + sep + x,
{
    assert(parts.push(x).drop_last() =~= parts);
}

/// A join of no parts is empty, and of one part is that part.
pub proof fn lemma_join_with_small(sep: Seq<char>, x: Seq<char>)
    ensures
        join_with(Seq::empty(), sep) == Seq::<char>::empty(),
        join_with(seq![x], sep) == x,
{
}

/// One pool address per hop: entry `i` is the address of the pool that
/// edge `edges[i]` trades through.
pub proof fn lemma_edge_pool_addresses<R>(g: Graph<R>, edges: Seq<usize>)
    ensures
        edge_pool_addresses(g, edges).len() == edges.len(),
        forall|i: int|
            0 <= i < edges.len() ==> #[trigger] edge_pool_addresses(g, edges)[i]
                == g.pool_addresses@[g.edges@[edges[i] as int].pool_idx as int]@,
{
}

/// The on-chain pool address of each edge of `edges`.
pub open spec fn edge_pool_addresses<R>(g: Graph<R>, edges: Seq<usize>) -> Seq<Seq<char>> {
    edges.map_values(|e: usize| g.pool_addresses@[g.edges@[e as int].pool_idx as int]@)
}

/// The pool address of each hop of a cycle, in order.
pub fn path_pool_addresses<R>(graph: &Graph<R>, cycle: &Cycle) -> (pools: Vec<String>)
    requires
        forall|i: int|
            0 <= i < cycle.edges@.len() ==> #[trigger] cycle.edges@[i] < graph.edges@.len()
                && graph.edges@[cycle.edges@[i] as int].pool_idx < graph.pool_addresses@.len(),
    ensures
        names_of(pools@) == edge_pool_addresses(*graph, cycle.edges@),
        pools@.len() == cycle.edges@.len(),
        forall|i: int|
            0 <= i < cycle.edges@.len() ==> (#[trigger] pools@[i])@
                == graph.pool_addresses@[graph.edges@[cycle.edges@[i] as int].pool_idx as int]@,
{
    let n = cycle.edges.len();
    let mut pools: Vec<String> = Vec::new();
    let mut i: usize = 0;
    while i < n
        invariant
            n == cycle.edges@.len(),
            i <= n,
            forall|k: int|
                0 <= k < cycle.edges@.len() ==> #[trigger] cycle.edges@[k] < graph.edges@.len()
                    && graph.edges@[cycle.edges@[k] as int].pool_idx < graph.pool_addresses@.len(),
            names_of(pools@) =~= edge_pool_addresses(*graph, cycle.edges@.take(i as int)),
        decreases n - i,
    {
        let e = cycle.edges[i];
        proof {
            assert(e < graph.edges@.len());
        }
        let p = graph.edges[e].pool_idx;
        proof {
            assert(graph.edges@[e as int].pool_idx == p);
        }
        let ghost before = pools@;
        pools.push(graph.pool_addresses[p].clone());
        proof {
            assert(cycle.edges@.take(i + 1) =~= cycle.edges@.take(i as int).push(e));
            assert(edge_pool_addresses(*graph, cycle.edges@.take(i + 1)) =~= edge_pool_addresses(
                *graph,
                cycle.edges@.take(i as int),
            ).push(graph.pool_addresses@[p as int]@));
            assert(names_of(pools@) =~= names_of(before).push(graph.pool_addresses@[p as int]@));
        }
        i += 1;
    }
    assert(cycle.edges@.take(n as int) =~= cycle.edges@);
    proof {
        lemma_edge_pool_addresses(*graph, cycle.edges@);
        assert(names_of(pools@).len() == pools@.len());
        assert forall|i: int| 0 <= i < cycle.edges@.len() implies (#[trigger] pools@[i])@
            == graph.pool_addresses@[graph.edges@[cycle.edges@[i] as int].pool_idx as int]@ by {
            assert(names_of(pools@)[i] == pools@[i]@);
        }
    }
    pools
}

/// The path of a cycle as a display string: its shortened token
/// addresses joined by ` -> `, ending back at the start token.
pub fn format_path<R>(graph: &Graph<R>, cycle: &Cycle) -> (path: String)
    requires
        tokens_in_graph(*graph, cycle.tokens@),
        forall|i: int|
            0 <= i < cycle.tokens@.len() ==> can_shorten(
                #[trigger] graph.token_names()[cycle.tokens@[i] as int],
            ),
    ensures
        path@ == join_with(
            closed_token_names(*graph, cycle.tokens@).map_values(|s: Seq<char>| short_address(s)),
            " -> "@,
        ),
{
    let names = closed_path_tokens(graph, cycle);
    let ghost labels = closed_token_names(*graph, cycle.tokens@).map_values(
        |s: Seq<char>| short_address(s),
    );
    let n = names.len();
    proof {
        assert forall|k: int| 0 <= k < n implies can_shorten(#[trigger] names@[k]@) by {
            assert(names_of(names@)[k] == names@[k]@);
            if k < cycle.tokens@.len() {
                assert(names@[k]@ == graph.token_names()[cycle.tokens@[k] as int]);
            } else {
                assert(names@[k]@ == graph.token_names()[cycle.tokens@[0] as int]);
            }
        }
    }
    let mut path = String::new();
    let mut i: usize = 0;
    while i < n
        invariant
            n == names@.len(),
            i <= n,
            names_of(names@) == closed_token_names(*graph, cycle.tokens@),
            labels == closed_token_names(*graph, cycle.tokens@).map_values(
                |s: Seq<char>| short_address(s),
            ),
            forall|k: int| 0 <= k < n ==> can_shorten(#[trigger] names@[k]@),
            path@ == join_with(labels.take(i as int), " -> "@),
        decreases n - i,
    {
        let label = shorten_address(names[i].as_str());
        proof {
            assert(names_of(names@)[i as int] == names@[i as int]@);
            assert(label@ == labels[i as int]);
            assert(labels.take(i + 1).drop_last() =~= labels.take(i as int));
        }
        if i > 0 {
            path.append(" -> ");
        }
        path.append(label.as_str());
        proof {
            if i == 0 {
                assert(labels.take(1) =~= seq![labels[0]]);
                assert(path@ =~= label@);
            }
        }
        i += 1;
    }
    assert(labels.take(n as int) =~= labels);
    path
}

/// How the profit of a cycle is valued, by the token it starts from.
pub enum ProfitUnit {
    /// Wrapped ether (18 decimals), valued at a fixed ether price.
    Weth,
    /// A dollar stablecoin with 6 decimals (USDT, USDC).
    Usd6,
    /// DAI (18 decimals), one dollar per token.
    Dai,
    /// Wrapped bitcoin (8 decimals), valued at a fixed bitcoin price.
    Wbtc,
    /// Any other token: valued from the first pool's reserve.
    Other,
}

/// The valuation that applies to a cycle starting at `token`.
pub open spec fn spec_profit_unit(token: Seq<char>) -> ProfitUnit {
    if token == "0xc02aaa39b223fe8d0a0e5c4f27ead9083c756cc2"@ {
        ProfitUnit::Weth
    } else if token == "0xdac17f958d2ee523a2206206994597c13d831ec7"@
        || token == "0xa0b86991c6218b36c1d19d4a2e9eb0ce3606eb48"@ {
        ProfitUnit::Usd6
    } else if token == "0x6b175474e89094c44da98b954eedeac495271d0f"@ {
        ProfitUnit::Dai
    } else if token == "0x2260fac5e5542a773aa44fbcfedf7c193bc2c599"@ {
        ProfitUnit::Wbtc
    } else {
        ProfitUnit::Other
    }
}

/// Chooses how to value the profit of a cycle that starts at `start_token`.
pub fn profit_unit(start_token: &String) -> (unit: ProfitUnit)
    ensures
        unit == spec_profit_unit(start_token@),
{
    if *start_token == String::from_str("0xc02aaa39b223fe8d0a0e5c4f27ead9083c756cc2") {
        ProfitUnit::Weth
    } else if *start_token == String::from_str("0xdac17f958d2ee523a2206206994597c13d831ec7")
        || *start_token == String::from_str("0xa0b86991c6218b36c1d19d4a2e9eb0ce3606eb48") {
        ProfitUnit::Usd6
    } else if *start_token == String::from_str("0x6b175474e89094c44da98b954eedeac495271d0f") {
        ProfitUnit::Dai
    } else if *start_token == String::from_str("0x2260fac5e5542a773aa44fbcfedf7c193bc2c599") {
        ProfitUnit::Wbtc
    } else {
        ProfitUnit::Other
    }
}

} // verus!
