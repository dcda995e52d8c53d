use arbgraph::model::{PoolEdge, Token};
use arbgraph::overlay::{compose_view, Overlay, SwapIntent};
use arbgraph::pipeline::{analyze, AnalysisConfig, IngestGate, Outcome, TxHash};
use arbgraph::search::search_cycles;
use arbgraph::store::MarketGraphStore;

fn tok(n: u64) -> Token {
    Token { hi: n, mid: 0, lo: 0 }
}

fn edge(venue: u64, a: u64, b: u64, ra: u64, rb: u64, fee: u32, at: u64) -> PoolEdge {
    PoolEdge {
        venue_id: venue,
        token_a: tok(a),
        token_b: tok(b),
        reserve_a: ra,
        reserve_b: rb,
        fee_bps: fee,
        updated_at: at,
    }
}

/// Five tokens A..E; venues A-B at 1:1, B-C at 1:1.05, C-A at 1:0.99, plus
/// two quiet venues through D and E. Expected compounded rate 1.0395.
fn five_token_store() -> MarketGraphStore {
    let mut store = MarketGraphStore::new();
    store.upsert(edge(1, 1, 2, 1_000_000, 1_000_000, 0, 100));
    store.upsert(edge(2, 2, 3, 1_000_000, 1_050_000, 0, 100));
    store.upsert(edge(3, 3, 1, 1_000_000, 990_000, 0, 100));
    store.upsert(edge(4, 4, 5, 1_000_000, 1_000_000, 0, 100)); // D-E
    store.upsert(edge(5, 1, 4, 1_000_000, 500_000, 0, 100)); // A-D, lossy
    store
}

fn cfg() -> AnalysisConfig {
    AnalysisConfig {
        base: tok(1),
        max_hops: 12,
        min_amount: 1,
        max_amount: 100_000,
        freshness_bound: 50,
        est_cost: 0,
    }
}

#[test]
fn five_token_scenario_finds_the_expected_cycle() {
    let store = five_token_store();
    let view = compose_view(&store, &Overlay::new());
    let c = search_cycles(&view, tok(1), 12).expect("the 1.0395 loop must be found");
    let venues: Vec<u64> = c.hops.iter().map(|h| h.edge.venue_id).collect();
    assert_eq!(venues, vec![1, 2, 3]);
    // compounded rate 1.05 * 0.99 = 1.0395 in fixed point
    assert_eq!(c.score, 1_039_500);
}

#[test]
fn full_pipeline_emits_an_opportunity() {
    let store = five_token_store();
    // a pending swap on the quiet D-E venue: the loop is still there
    let intents = vec![SwapIntent {
        venue_id: 4,
        token_in: tok(4),
        amount_in: 1_000,
        token_out: tok(5),
    }];
    let tx = TxHash { hi: 0xabc, lo: 1 };
    let record = analyze(&store, tx, &intents, cfg(), 100, 42);
    assert_eq!(record.outcome, Outcome::OpportunityFound);
    assert_eq!(record.tx_hash, tx);
    assert_eq!(record.latency, 42);
    let op = record.opportunity.expect("an opportunity was found");
    assert!(op.expected_profit > 0);
    assert_eq!(op.cycle, vec![tok(1), tok(2), tok(3), tok(1)]);
    assert_eq!(op.venues_used, vec![1, 2, 3]);
    assert!((1..=100_000).contains(&op.input_amount));
}

#[test]
fn pipeline_outcomes_cover_the_taxonomy() {
    let store = five_token_store();
    let tx = TxHash { hi: 1, lo: 2 };
    // no intent decoded: a normal skip
    let r = analyze(&store, tx, &vec![], cfg(), 100, 1);
    assert_eq!(r.outcome, Outcome::NoIntent);
    assert!(r.opportunity.is_none());
    // unknown venue: decode error
    let bad = vec![SwapIntent { venue_id: 99, token_in: tok(1), amount_in: 5, token_out: tok(2) }];
    let r2 = analyze(&store, tx, &bad, cfg(), 100, 1);
    assert_eq!(r2.outcome, Outcome::DecodeError);
    // stale reserves: skip
    let ok_intent = vec![SwapIntent { venue_id: 1, token_in: tok(1), amount_in: 5, token_out: tok(2) }];
    let r3 = analyze(&store, tx, &ok_intent, cfg(), 100_000, 1);
    assert_eq!(r3.outcome, Outcome::StaleState);
}

#[test]
fn pipeline_reports_no_cycle_on_balanced_market() {
    let mut store = MarketGraphStore::new();
    store.upsert(edge(1, 1, 2, 1_000_000, 1_000_000, 30, 100));
    store.upsert(edge(2, 2, 3, 1_000_000, 1_000_000, 30, 100));
    store.upsert(edge(3, 3, 1, 1_000_000, 1_000_000, 30, 100));
    let intents = vec![SwapIntent { venue_id: 1, token_in: tok(1), amount_in: 5, token_out: tok(2) }];
    let r = analyze(&store, TxHash { hi: 0, lo: 0 }, &intents, cfg(), 100, 1);
    assert_eq!(r.outcome, Outcome::NoCycle);
    assert!(r.opportunity.is_none());
}

#[test]
fn analysis_does_not_mutate_the_store() {
    let store = five_token_store();
    let mut before = store.edges();
    before.sort_by_key(|e| e.venue_id);
    let intents = vec![SwapIntent { venue_id: 1, token_in: tok(1), amount_in: 500, token_out: tok(2) }];
    let _ = analyze(&store, TxHash { hi: 9, lo: 9 }, &intents, cfg(), 100, 1);
    let mut after = store.edges();
    after.sort_by_key(|e| e.venue_id);
    assert_eq!(before, after);
}

#[test]
fn ingest_gate_pauses_on_disconnect() {
    let mut gate = IngestGate::new();
    assert!(gate.gate_check().is_ok());
    gate.on_disconnect();
    let err = gate.gate_check().unwrap_err();
    assert_eq!(err, arbgraph::errors::AnalysisError::FeedDisconnected);
    gate.on_reconnect();
    assert!(gate.gate_check().is_ok());
}

#[test]
fn overlay_shifts_the_search_result() {
    // a pending trade that drains the profitable venue flips the outcome:
    // proof that the search really reads the overlay, not the base store
    let mut store = MarketGraphStore::new();
    store.upsert(edge(1, 1, 2, 1_000_000, 1_000_000, 0, 100));
    store.upsert(edge(2, 2, 3, 1_000_000, 1_050_000, 0, 100));
    store.upsert(edge(3, 3, 1, 1_000_000, 990_000, 0, 100));
    let intents = vec![SwapIntent {
        venue_id: 2,
        token_in: tok(2),
        amount_in: 900_000,
        token_out: tok(3),
    }];
    let r = analyze(&store, TxHash { hi: 5, lo: 5 }, &intents, cfg(), 100, 1);
    // the projected swap drains the B-C book far below 1.05, killing the
    // original loop — and leaves C-B so imbalanced that the reverse cycle
    // A -> C -> B -> A becomes the opportunity instead
    assert_eq!(r.outcome, Outcome::OpportunityFound);
    let op = r.opportunity.unwrap();
    assert_eq!(op.venues_used, vec![3, 2, 1]);
    assert_eq!(op.cycle, vec![tok(1), tok(3), tok(2), tok(1)]);
}
