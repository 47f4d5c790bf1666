use dex_arb_detector::graph::build_graph;
use dex_arb_detector::types::Pool;

fn pool(id: &str, t0: &str, t1: &str, r0: f64, r1: f64) -> Pool<f64> {
    Pool {
        id: id.to_string(),
        token0: t0.to_string(),
        token1: t1.to_string(),
        reserve0: r0,
        reserve1: r1,
        reserve_usd: 5000.0,
    }
}

#[test]
fn build_graph_numbers_tokens_by_first_appearance() {
    let pools = vec![
        pool("p0", "a", "b", 1.0, 2.0),
        pool("p1", "b", "c", 3.0, 4.0),
        pool("p2", "c", "a", 5.0, 6.0),
    ];
    let g = build_graph(&pools);
    assert_eq!(g.idx_to_token, vec!["a".to_string(), "b".to_string(), "c".to_string()]);
    assert_eq!(g.pool_addresses, vec!["p0".to_string(), "p1".to_string(), "p2".to_string()]);
}

#[test]
fn build_graph_two_edges_per_pool() {
    let pools = vec![pool("p0", "a", "b", 1.0, 2.0), pool("p1", "b", "c", 3.0, 4.0)];
    let g = build_graph(&pools);
    assert_eq!(g.edges.len(), 4);
    // forward edge of pool 1: b -> c
    let fwd = &g.edges[2];
    assert_eq!((fwd.pool_idx, fwd.token_in, fwd.token_out), (1, 1, 2));
    assert_eq!((fwd.reserve_in, fwd.reserve_out), (3.0, 4.0));
    // reverse edge of pool 1: c -> b, reserves swapped
    let rev = &g.edges[3];
    assert_eq!((rev.pool_idx, rev.token_in, rev.token_out), (1, 2, 1));
    assert_eq!((rev.reserve_in, rev.reserve_out), (4.0, 3.0));
}

#[test]
fn build_graph_adjacency_lists_outgoing_edges_in_order() {
    let pools = vec![
        pool("p0", "a", "b", 1.0, 2.0),
        pool("p1", "b", "c", 3.0, 4.0),
        pool("p2", "a", "c", 5.0, 6.0),
    ];
    let g = build_graph(&pools);
    assert_eq!(g.adjacency[0], vec![0, 4]);
    assert_eq!(g.adjacency[1], vec![1, 2]);
    assert_eq!(g.adjacency[2], vec![3, 5]);
}

#[test]
fn build_graph_empty() {
    let pools: Vec<Pool<f64>> = Vec::new();
    let g = build_graph(&pools);
    assert!(g.idx_to_token.is_empty());
    assert!(g.edges.is_empty());
    assert!(g.adjacency.is_empty());
}

#[test]
fn token_index_finds_each_token_at_its_number() {
    let pools = vec![pool("p0", "a", "b", 1.0, 2.0), pool("p1", "b", "c", 3.0, 4.0)];
    let g = build_graph(&pools);
    for (i, name) in g.idx_to_token.iter().enumerate() {
        assert_eq!(g.token_index(name), Some(i));
    }
    assert_eq!(g.token_index(&"zzz".to_string()), None);
}
