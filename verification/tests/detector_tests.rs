use dex_arb_detector::detector::{canonical_form, detect_cycles, hub_search_order, hub_tokens};
use dex_arb_detector::graph::build_graph;
use dex_arb_detector::types::Pool;

const WETH: &str = "0xc02aaa39b223fe8d0a0e5c4f27ead9083c756cc2";
const USDC: &str = "0xa0b86991c6218b36c1d19d4a2e9eb0ce3606eb48";

fn pool(id: &str, t0: &str, t1: &str) -> Pool<f64> {
    Pool {
        id: id.to_string(),
        token0: t0.to_string(),
        token1: t1.to_string(),
        reserve0: 100.0,
        reserve1: 100.0,
        reserve_usd: 5000.0,
    }
}

#[test]
fn canonical_form_rotates_to_smallest() {
    assert_eq!(canonical_form(&[5, 2, 9, 1, 7]), vec![1, 7, 5, 2, 9]);
    assert_eq!(canonical_form(&[4, 8]), vec![4, 8]);
    assert_eq!(canonical_form(&[8, 4]), vec![4, 8]);
    assert_eq!(canonical_form(&[]), Vec::<usize>::new());
}

#[test]
fn canonical_form_ties_keep_first_minimum() {
    assert_eq!(canonical_form(&[3, 1, 2, 1]), vec![1, 2, 1, 3]);
}

#[test]
fn canonical_form_same_for_all_rotations() {
    let base = [12, 3, 7, 20];
    let expected = canonical_form(&base);
    for k in 0..base.len() {
        let rotated: Vec<usize> = (0..base.len()).map(|i| base[(i + k) % base.len()]).collect();
        assert_eq!(canonical_form(&rotated), expected);
    }
}

#[test]
fn hub_tokens_in_search_order() {
    let hubs = hub_tokens();
    assert_eq!(hubs.len(), 5);
    assert_eq!(hubs[0], WETH);
    assert_eq!(hubs[2], USDC);
}

#[test]
fn triangle_through_hub_found_in_both_directions() {
    let pools = vec![pool("p0", WETH, "x"), pool("p1", "x", "y"), pool("p2", "y", WETH)];
    let g = build_graph(&pools);
    let cycles = detect_cycles(&g, None);
    // WETH -> x -> y -> WETH and WETH -> y -> x -> WETH
    assert_eq!(cycles.len(), 2);
    for c in &cycles {
        assert_eq!(c.edges.len(), 3);
        assert_eq!(c.tokens.len(), 3);
        assert_eq!(c.tokens[0], 0);
        // each edge leaves the token listed for it and arrives at the next one
        for i in 0..c.edges.len() {
            let e = &g.edges[c.edges[i]];
            assert_eq!(e.token_in, c.tokens[i]);
            assert_eq!(e.token_out, c.tokens[(i + 1) % c.tokens.len()]);
        }
    }
    assert_eq!(cycles[0].edges, vec![0, 2, 4]);
    assert_eq!(cycles[1].edges, vec![5, 3, 1]);
}

#[test]
fn same_pool_not_used_twice() {
    // One pool between WETH and x: going out and back through it is no cycle.
    let pools = vec![pool("p0", WETH, "x")];
    let g = build_graph(&pools);
    assert!(detect_cycles(&g, None).is_empty());
}

#[test]
fn two_pools_for_one_pair_give_two_hop_cycles() {
    let pools = vec![pool("p0", WETH, "x"), pool("p1", "x", WETH)];
    let g = build_graph(&pools);
    let cycles = detect_cycles(&g, None);
    assert_eq!(cycles.len(), 2);
    assert_eq!(cycles[0].edges, vec![0, 2]);
    assert_eq!(cycles[1].edges, vec![3, 1]);
}

#[test]
fn cycle_without_hub_not_reported() {
    let pools = vec![pool("p0", "a", "b"), pool("p1", "b", "c"), pool("p2", "c", "a")];
    let g = build_graph(&pools);
    assert!(detect_cycles(&g, None).is_empty());
}

#[test]
fn cycle_through_two_hubs_reported_once() {
    // WETH -> USDC -> x -> WETH is found from WETH first; from USDC it is a
    // rotation of a cycle already seen.
    let pools = vec![pool("p0", WETH, USDC), pool("p1", USDC, "x"), pool("p2", "x", WETH)];
    let g = build_graph(&pools);
    let cycles = detect_cycles(&g, None);
    assert_eq!(cycles.len(), 2);
    for c in &cycles {
        assert_eq!(c.tokens[0], 0);
    }
    let forms: Vec<Vec<usize>> = cycles.iter().map(|c| canonical_form(&c.edges)).collect();
    assert_ne!(forms[0], forms[1]);
}

#[test]
fn cycles_longer_than_four_hops_not_reported() {
    let pools = vec![
        pool("p0", WETH, "a"),
        pool("p1", "a", "b"),
        pool("p2", "b", "c"),
        pool("p3", "c", "d"),
        pool("p4", "d", WETH),
    ];
    let g = build_graph(&pools);
    assert!(detect_cycles(&g, None).is_empty());
}

#[test]
fn four_hop_cycle_reported() {
    let pools = vec![
        pool("p0", WETH, "a"),
        pool("p1", "a", "b"),
        pool("p2", "b", "c"),
        pool("p3", "c", WETH),
    ];
    let g = build_graph(&pools);
    let cycles = detect_cycles(&g, None);
    assert_eq!(cycles.len(), 2);
    assert_eq!(cycles[0].edges.len(), 4);
    assert_eq!(cycles[0].tokens, vec![0, 1, 2, 3]);
}

const USDT: &str = "0xdac17f958d2ee523a2206206994597c13d831ec7";

#[test]
fn cycles_grouped_by_hub_search_order() {
    // USDT's pools come first, so USDT is token 0, yet WETH is searched first.
    let pools = vec![
        pool("p0", USDT, "x"),
        pool("p1", "x", "y"),
        pool("p2", "y", USDT),
        pool("p3", WETH, "a"),
        pool("p4", "a", "b"),
        pool("p5", "b", WETH),
    ];
    let g = build_graph(&pools);
    let weth = g.token_index(&WETH.to_string()).unwrap();
    let usdt = g.token_index(&USDT.to_string()).unwrap();
    let cycles = detect_cycles(&g, None);
    let starts: Vec<usize> = cycles.iter().map(|c| c.tokens[0]).collect();
    assert_eq!(starts, vec![weth, weth, usdt, usdt]);
}

#[test]
fn shared_cycle_reported_from_first_hub_in_order() {
    // USDC is numbered before WETH, but the cycle is reported starting at WETH.
    let pools = vec![pool("p0", USDC, "x"), pool("p1", "x", WETH), pool("p2", WETH, USDC)];
    let g = build_graph(&pools);
    let weth = g.token_index(&WETH.to_string()).unwrap();
    let cycles = detect_cycles(&g, None);
    assert_eq!(cycles.len(), 2);
    for c in &cycles {
        assert_eq!(c.tokens[0], weth);
    }
}

#[test]
fn hub_search_order_puts_anchor_first() {
    let default = hub_search_order(None);
    assert_eq!(default, hub_tokens());
    assert_eq!(hub_search_order(Some("WETH")), hub_tokens());
    assert_eq!(hub_search_order(Some("NOPE")), hub_tokens());
    let usdc_first = hub_search_order(Some("USDC"));
    assert_eq!(usdc_first[0], USDC);
    assert_eq!(usdc_first[1], WETH);
    assert_eq!(usdc_first[2], USDT);
    assert_eq!(usdc_first.len(), 5);
}

#[test]
fn anchor_hub_is_searched_first_in_shared_component() {
    let pools = vec![pool("p0", WETH, USDC), pool("p1", USDC, "x"), pool("p2", "x", WETH)];
    let g = build_graph(&pools);
    let usdc = g.token_index(&USDC.to_string()).unwrap();
    let cycles = detect_cycles(&g, Some("USDC"));
    assert_eq!(cycles.len(), 2);
    for c in &cycles {
        assert_eq!(c.tokens[0], usdc);
    }
}

#[test]
fn one_search_per_component() {
    // USDT shares WETH's component; its own cycle avoiding WETH is not searched.
    let pools = vec![
        pool("p0", WETH, USDT),
        pool("p1", USDT, "x"),
        pool("p2", "x", WETH),
        pool("p3", USDT, "y"),
        pool("p4", "y", "z"),
        pool("p5", "z", USDT),
    ];
    let g = build_graph(&pools);
    let weth = g.token_index(&WETH.to_string()).unwrap();
    let cycles = detect_cycles(&g, None);
    assert_eq!(cycles.len(), 2);
    for c in &cycles {
        assert_eq!(c.tokens[0], weth);
    }
    // With USDT as anchor, every cycle through USDT is found from USDT.
    let usdt = g.token_index(&USDT.to_string()).unwrap();
    let from_usdt = detect_cycles(&g, Some("USDT"));
    assert_eq!(from_usdt.len(), 4);
    for c in &from_usdt {
        assert_eq!(c.tokens[0], usdt);
    }
}

#[test]
fn separate_components_each_searched() {
    let pools = vec![
        pool("p0", WETH, "a"),
        pool("p1", "a", WETH),
        pool("p2", USDT, "b"),
        pool("p3", "b", USDT),
    ];
    let g = build_graph(&pools);
    let cycles = detect_cycles(&g, None);
    assert_eq!(cycles.len(), 4);
}

#[test]
fn hub_alone_in_its_component_is_skipped() {
    // A pool trading WETH against itself leaves WETH alone in its component.
    let pools = vec![pool("p0", WETH, WETH), pool("p1", "a", "b")];
    let g = build_graph(&pools);
    assert!(detect_cycles(&g, None).is_empty());
}
