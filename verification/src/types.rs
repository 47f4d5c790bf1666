use vstd::prelude::*;

verus! {

/// A token as it appears in a pool snapshot: its decimals (a decimal string)
/// and its address.
pub struct RawToken {
    pub decimals: String,
    pub id: String,
}

/// One pool of the snapshot, before any filtering. Reserves are
/// human-readable decimal strings.
pub struct RawPool {
    pub id: String,
    pub reserve0: String,
    pub reserve1: String,
    pub reserve_usd: String,
    pub reserve_eth: Option<String>,
    pub token0: RawToken,
    pub token1: RawToken,
}

/// A pool that passed the liquidity filter. `R` is the representation of a
/// reserve amount; the graph logic only carries it along.
pub struct Pool<R> {
    pub id: String,
    pub token0: String,
    pub token1: String,
    pub reserve0: R,
    pub reserve1: R,
    pub reserve_usd: R,
}

/// A directed swap edge: selling `token_in` into pool `pool_idx` for `token_out`.
pub struct Edge<R> {
    pub pool_idx: usize,
    pub token_in: usize,
    pub token_out: usize,
    pub reserve_in: R,
    pub reserve_out: R,
}

/// A cycle: the edges taken in order, and the token each edge starts from.
pub struct Cycle {
    pub edges: Vec<usize>,
    pub tokens: Vec<usize>,
}

} // verus!
