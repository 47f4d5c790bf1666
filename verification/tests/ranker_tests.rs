use dex_arb_detector::detector::detect_cycles;
use dex_arb_detector::graph::build_graph;
use dex_arb_detector::ranker::{
    closed_path_tokens, format_path, path_pool_addresses, profit_unit, shorten_address, ProfitUnit,
};
use dex_arb_detector::types::{Cycle, Pool};

const WETH: &str = "0xc02aaa39b223fe8d0a0e5c4f27ead9083c756cc2";
const LINK: &str = "0x514910771af9ca656af840dff83e8264ecf986ca";

fn pool(id: &str, t0: &str, t1: &str) -> Pool<f64> {
    Pool {
        id: id.to_string(),
        token0: t0.to_string(),
        token1: t1.to_string(),
        reserve0: 100.0,
        reserve1: 100.0,
        reserve_usd: 5000.0,
    }
}

#[test]
fn shorten_address_long() {
    assert_eq!(shorten_address(WETH), "0xc02a...6cc2");
}

#[test]
fn shorten_address_short_kept() {
    assert_eq!(shorten_address("0x1234"), "0x1234");
    assert_eq!(shorten_address("0123456789"), "0123456789");
    assert_eq!(shorten_address("01234567890"), "012345...7890");
}

#[test]
fn shorten_address_non_ascii_at_boundaries() {
    // "é" is two bytes: bytes 6 and len - 4 still fall on character boundaries.
    assert_eq!(shorten_address("abcdéfghijkl"), "abcdé...ijkl");
}

#[test]
fn closed_path_tokens_first_equals_last() {
    let pools = vec![pool("p0", WETH, LINK), pool("p1", LINK, "0xtokenx"), pool("p2", "0xtokenx", WETH)];
    let g = build_graph(&pools);
    let cycles = detect_cycles(&g, None);
    let path = closed_path_tokens(&g, &cycles[0]);
    assert_eq!(path.len(), cycles[0].tokens.len() + 1);
    assert_eq!(path[0], path[path.len() - 1]);
    assert_eq!(path, vec![WETH.to_string(), LINK.to_string(), "0xtokenx".to_string(), WETH.to_string()]);
}

#[test]
fn closed_path_tokens_empty_cycle() {
    let pools = vec![pool("p0", WETH, LINK)];
    let g = build_graph(&pools);
    let empty = Cycle { edges: vec![], tokens: vec![] };
    assert!(closed_path_tokens(&g, &empty).is_empty());
}

#[test]
fn path_pool_addresses_per_hop() {
    let pools = vec![pool("0xp0", WETH, LINK), pool("0xp1", LINK, "0xtokenx"), pool("0xp2", "0xtokenx", WETH)];
    let g = build_graph(&pools);
    let cycles = detect_cycles(&g, None);
    assert_eq!(path_pool_addresses(&g, &cycles[0]), vec!["0xp0", "0xp1", "0xp2"]);
    assert_eq!(path_pool_addresses(&g, &cycles[1]), vec!["0xp2", "0xp1", "0xp0"]);
}

#[test]
fn format_path_joins_short_names() {
    let pools = vec![pool("p0", WETH, LINK), pool("p1", LINK, "0xtokenx"), pool("p2", "0xtokenx", WETH)];
    let g = build_graph(&pools);
    let cycles = detect_cycles(&g, None);
    assert_eq!(
        format_path(&g, &cycles[0]),
        "0xc02a...6cc2 -> 0x5149...86ca -> 0xtokenx -> 0xc02a...6cc2"
    );
}

#[test]
fn profit_unit_by_start_token() {
    assert!(matches!(profit_unit(&WETH.to_string()), ProfitUnit::Weth));
    assert!(matches!(
        profit_unit(&"0xdac17f958d2ee523a2206206994597c13d831ec7".to_string()),
        ProfitUnit::Usd6
    ));
    assert!(matches!(
        profit_unit(&"0xa0b86991c6218b36c1d19d4a2e9eb0ce3606eb48".to_string()),
        ProfitUnit::Usd6
    ));
    assert!(matches!(
        profit_unit(&"0x6b175474e89094c44da98b954eedeac495271d0f".to_string()),
        ProfitUnit::Dai
    ));
    assert!(matches!(
        profit_unit(&"0x2260fac5e5542a773aa44fbcfedf7c193bc2c599".to_string()),
        ProfitUnit::Wbtc
    ));
    assert!(matches!(profit_unit(&LINK.to_string()), ProfitUnit::Other));
}

#[test]
fn shorten_address_idempotent() {
    for addr in [WETH, LINK, "0x1234", "01234567890"] {
        let once = shorten_address(addr);
        assert_eq!(shorten_address(&once), once);
    }
}
