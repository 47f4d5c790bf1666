# dex_arb_detector

Finds arbitrage cycles among Uniswap V2 pools: a token swap graph is built
from a pool snapshot, cycles of two to four hops are enumerated by bounded
depth-first search from hub tokens (WETH, USDT, USDC, DAI, WBTC; the
`--anchor` hub first), one search per strongly connected component, and the
cycles are ranked by the profit of an optimally sized trade.

Layout:

- `src/` — the verified library (Verus).
  - `types.rs` — snapshot pools, pools, edges, cycles. Reserve amounts are a
    type parameter: the graph logic only carries them.
  - `graph.rs` — `build_graph`: tokens numbered by first appearance, two
    directed edges per pool, sorted adjacency lists; `token_index`.
  - `scc.rs` — reachability, successor and predecessor lists, and the
    strongly connected component of a token (forward and backward search).
  - `detector.rs` — `detect_cycles`: hubs in anchor-first order, one search
    per component of more than one token, from its first hub; every cycle
    through a searched hub is reported exactly once, starting at that hub,
    in search order; `canonical_form` and its rotation laws.
  - `ranker.rs` — display and output helpers: `shorten_address`,
    `format_path`, `closed_path_tokens`, `path_pool_addresses`, and the choice
    of how a cycle's profit is valued.
  - `loader.rs` — reading a token's decimals and normalising its address.
- `app/` — the command-line program: reading the JSON snapshot, the
  floating-point swap math and golden-section search, ranking, printing and
  writing `output/top10.json`.
- `tests/` — tests of the library on concrete graphs.

Usage: `dex-arb-detector data/v2pools.json [--anchor WETH|USDT|USDC|DAI|WBTC]`.
