use arbgraph::errors::AnalysisError;
use arbgraph::model::{PoolEdge, Token};
use arbgraph::overlay::{project_intent, project_many, Overlay, SwapIntent};
use arbgraph::store::MarketGraphStore;

fn tok(n: u64) -> Token {
    Token { hi: n, mid: 0, lo: 0 }
}

fn edge(venue: u64, a: u64, b: u64, ra: u64, rb: u64, fee: u32, at: u64) -> PoolEdge {
    PoolEdge {
        venue_id: venue,
        token_a: tok(a),
        token_b: tok(b),
        reserve_a: ra,
        reserve_b: rb,
        fee_bps: fee,
        updated_at: at,
    }
}

fn sorted_edges(store: &MarketGraphStore) -> Vec<PoolEdge> {
    let mut v = store.edges();
    v.sort_by_key(|e| e.venue_id);
    v
}

#[test]
fn store_upsert_then_get() {
    let mut store = MarketGraphStore::new();
    let e = edge(1, 1, 2, 1000, 2000, 30, 5);
    store.upsert(e);
    assert_eq!(store.get_edge(1), Some(e));
    assert_eq!(store.get_edge(2), None);
}

#[test]
fn store_upsert_last_writer_wins_and_idempotent() {
    let mut store = MarketGraphStore::new();
    let e1 = edge(1, 1, 2, 1000, 2000, 30, 5);
    let e2 = edge(1, 1, 2, 1500, 2500, 30, 6);
    store.upsert(e1);
    store.upsert(e2);
    assert_eq!(store.get_edge(1), Some(e2));
    store.upsert(e2);
    assert_eq!(store.get_edge(1), Some(e2));
    assert_eq!(store.edges().len(), 1);
}

#[test]
fn store_inconsistent_update_marks_venue_unusable() {
    let mut store = MarketGraphStore::new();
    // fee of 100% is internally inconsistent: stored with zeroed reserves
    let bad = edge(9, 1, 2, 1000, 2000, 10_000, 5);
    store.upsert(bad);
    let got = store.get_edge(9).unwrap();
    assert_eq!(got.reserve_a, 0);
    assert_eq!(got.reserve_b, 0);
}

#[test]
fn store_snapshot_neighbors_filters_incident() {
    let mut store = MarketGraphStore::new();
    store.upsert(edge(1, 1, 2, 1000, 2000, 30, 5));
    store.upsert(edge(2, 2, 3, 1000, 2000, 30, 5));
    store.upsert(edge(3, 3, 4, 1000, 2000, 30, 5));
    let n2 = store.snapshot_neighbors(tok(2));
    let mut venues: Vec<u64> = n2.iter().map(|e| e.venue_id).collect();
    venues.sort();
    assert_eq!(venues, vec![1, 2]);
    let n5 = store.snapshot_neighbors(tok(5));
    assert!(n5.is_empty());
}

#[test]
fn projection_applies_exact_formula() {
    let mut store = MarketGraphStore::new();
    store.upsert(edge(1, 1, 2, 10_000, 10_000, 30, 100));
    let intent = SwapIntent {
        venue_id: 1,
        token_in: tok(1),
        amount_in: 1000,
        token_out: tok(2),
    };
    let ov = project_intent(&store, Overlay::new(), intent, 100, 50).unwrap();
    let e2 = ov.get(1).unwrap();
    // swap_out(1000, 10000, 10000, 30) == 906
    assert_eq!(e2.reserve_a, 11_000);
    assert_eq!(e2.reserve_b, 10_000 - 906);
    // the base store is untouched
    assert_eq!(store.get_edge(1).unwrap().reserve_a, 10_000);
}

#[test]
fn projection_is_deterministic() {
    let mut store = MarketGraphStore::new();
    store.upsert(edge(1, 1, 2, 10_000, 10_000, 30, 100));
    store.upsert(edge(2, 2, 3, 5_000, 7_000, 25, 100));
    let intents = vec![
        SwapIntent { venue_id: 1, token_in: tok(1), amount_in: 500, token_out: tok(2) },
        SwapIntent { venue_id: 2, token_in: tok(3), amount_in: 200, token_out: tok(2) },
        SwapIntent { venue_id: 1, token_in: tok(2), amount_in: 100, token_out: tok(1) },
    ];
    let ov1 = project_many(&store, &intents, 100, 50).unwrap();
    let ov2 = project_many(&store, &intents, 100, 50).unwrap();
    for v in [1u64, 2, 3] {
        assert_eq!(ov1.get(v), ov2.get(v));
    }
}

#[test]
fn projection_never_mutates_store() {
    let mut store = MarketGraphStore::new();
    store.upsert(edge(1, 1, 2, 10_000, 10_000, 30, 100));
    store.upsert(edge(2, 2, 3, 5_000, 7_000, 25, 100));
    let before = sorted_edges(&store);
    let intents = vec![
        SwapIntent { venue_id: 2, token_in: tok(2), amount_in: 400, token_out: tok(3) },
    ];
    let _ov = project_many(&store, &intents, 100, 50).unwrap();
    let after = sorted_edges(&store);
    assert_eq!(before, after);
}

#[test]
fn projection_unknown_venue_is_decode_error() {
    let store = MarketGraphStore::new();
    let intent = SwapIntent { venue_id: 42, token_in: tok(1), amount_in: 10, token_out: tok(2) };
    let r = project_intent(&store, Overlay::new(), intent, 100, 50);
    assert_eq!(r.err().map(|e| e), Some(AnalysisError::DecodeError));
}

#[test]
fn projection_token_mismatch_is_decode_error() {
    let mut store = MarketGraphStore::new();
    store.upsert(edge(1, 1, 2, 10_000, 10_000, 30, 100));
    let intent = SwapIntent { venue_id: 1, token_in: tok(3), amount_in: 10, token_out: tok(2) };
    let r = project_intent(&store, Overlay::new(), intent, 100, 50);
    assert!(matches!(r, Err(AnalysisError::DecodeError)));
}

#[test]
fn projection_stale_reserves_are_refused() {
    let mut store = MarketGraphStore::new();
    store.upsert(edge(1, 1, 2, 10_000, 10_000, 30, 10));
    let intent = SwapIntent { venue_id: 1, token_in: tok(1), amount_in: 10, token_out: tok(2) };
    // now = 100, freshness bound = 50, updated at 10: too old
    let r = project_intent(&store, Overlay::new(), intent, 100, 50);
    assert!(matches!(r, Err(AnalysisError::StaleStateError)));
    // fresh enough is fine
    let r2 = project_intent(&store, Overlay::new(), intent, 59, 50);
    assert!(r2.is_ok());
}

#[test]
fn projection_chains_through_overlay() {
    let mut store = MarketGraphStore::new();
    store.upsert(edge(1, 1, 2, 10_000, 10_000, 0, 100));
    let i1 = SwapIntent { venue_id: 1, token_in: tok(1), amount_in: 1000, token_out: tok(2) };
    let ov = project_intent(&store, Overlay::new(), i1, 100, 50).unwrap();
    // second intent on the same venue must see the post-trade reserves
    let i2 = SwapIntent { venue_id: 1, token_in: tok(1), amount_in: 1000, token_out: tok(2) };
    let ov2 = project_intent(&store, ov, i2, 100, 50).unwrap();
    let e2 = ov2.get(1).unwrap();
    assert_eq!(e2.reserve_a, 12_000);
    // first trade: floor(1000*10000/11000) = 909; second from (11000, 9091):
    // floor(1000*9091/12000) = 757
    assert_eq!(e2.reserve_b, 10_000 - 909 - 757);
}
