use arbgraph::errors::AnalysisError;
use arbgraph::model::{PoolEdge, Token};
use arbgraph::search::{search_cycles, search_cycles_budgeted, search_cycles_parallel, RATE_UNIT};

fn tok(n: u64) -> Token {
    Token { hi: n, mid: 0, lo: 0 }
}

fn edge(venue: u64, a: u64, b: u64, ra: u64, rb: u64, fee: u32) -> PoolEdge {
    PoolEdge {
        venue_id: venue,
        token_a: tok(a),
        token_b: tok(b),
        reserve_a: ra,
        reserve_b: rb,
        fee_bps: fee,
        updated_at: 0,
    }
}

/// A four-token graph with one obviously mispriced three-hop loop:
/// A-B at 2.0, B-C at 2.0, C-A at 0.5 (compounded 2.0), plus two heavily
/// taxed venues through D that cannot compete.
fn mispriced_graph() -> Vec<PoolEdge> {
    vec![
        edge(1, 1, 2, 1_000, 2_000, 0), // A-B, rate A->B = 2.0
        edge(2, 2, 3, 1_000, 2_000, 0), // B-C, rate B->C = 2.0
        edge(3, 3, 1, 1_000, 500, 0),   // C-A, rate C->A = 0.5
        edge(4, 1, 4, 1_000, 900, 9_000), // A-D, 90% fee
        edge(5, 4, 3, 1_000, 900, 9_000), // D-C, 90% fee
    ]
}

#[test]
fn search_finds_the_mispriced_loop() {
    let view = mispriced_graph();
    let c = search_cycles(&view, tok(1), 12).expect("a profitable cycle exists");
    let venues: Vec<u64> = c.hops.iter().map(|h| h.edge.venue_id).collect();
    assert_eq!(venues, vec![1, 2, 3]);
    // compounded rate 2.0 in fixed point
    assert_eq!(c.score, 2 * RATE_UNIT);
}

#[test]
fn search_returns_none_when_no_cycle_compounds_above_one() {
    // every venue charges 30 bps on a flat 1:1 book: every cycle loses
    let view = vec![
        edge(1, 1, 2, 1_000_000, 1_000_000, 30),
        edge(2, 2, 3, 1_000_000, 1_000_000, 30),
        edge(3, 3, 1, 1_000_000, 1_000_000, 30),
        edge(4, 2, 4, 1_000_000, 1_000_000, 30),
        edge(5, 4, 1, 1_000_000, 1_000_000, 30),
    ];
    assert!(search_cycles(&view, tok(1), 12).is_none());
}

#[test]
fn search_ignores_two_hop_round_trips() {
    // a single mispriced venue is not an arbitrage: no cycle shorter than 3
    let view = vec![
        edge(1, 1, 2, 1_000, 2_000, 0),
        edge(2, 1, 2, 2_000, 1_000, 0),
    ];
    assert!(search_cycles(&view, tok(1), 12).is_none());
}

#[test]
fn search_respects_hop_bound() {
    // the only profitable cycle needs 4 hops; a 3-hop search must miss it
    let view = vec![
        edge(1, 1, 2, 1_000, 2_000, 0),
        edge(2, 2, 3, 1_000, 1_000, 0),
        edge(3, 3, 4, 1_000, 1_000, 0),
        edge(4, 4, 1, 1_000, 1_000, 0),
    ];
    assert!(search_cycles(&view, tok(1), 3).is_none());
    let c = search_cycles(&view, tok(1), 4).expect("4 hops suffice");
    assert_eq!(c.hops.len(), 4);
}

#[test]
fn search_tie_break_prefers_lowest_venue_sequence() {
    // two parallel venues make two identical-rate, identical-length cycles;
    // the lexicographically lowest venue sequence must win
    let view = vec![
        edge(7, 1, 2, 1_000, 2_000, 0),
        edge(2, 2, 3, 1_000, 2_000, 0),
        edge(3, 3, 1, 1_000, 500, 0),
        edge(1, 1, 2, 1_000, 2_000, 0), // same book as venue 7
    ];
    let c = search_cycles(&view, tok(1), 12).unwrap();
    let venues: Vec<u64> = c.hops.iter().map(|h| h.edge.venue_id).collect();
    assert_eq!(venues, vec![1, 2, 3]);
}

#[test]
fn parallel_search_agrees_with_sequential() {
    let view = mispriced_graph();
    let a = search_cycles(&view, tok(1), 12);
    let b = search_cycles_parallel(&view, tok(1), 12);
    match (a, b) {
        (Some(x), Some(y)) => {
            assert_eq!(x.score, y.score);
            let vx: Vec<u64> = x.hops.iter().map(|h| h.edge.venue_id).collect();
            let vy: Vec<u64> = y.hops.iter().map(|h| h.edge.venue_id).collect();
            assert_eq!(vx, vy);
        }
        (None, None) => {}
        _ => panic!("parallel and sequential search disagree"),
    }
}

#[test]
fn search_on_empty_view_finds_nothing() {
    let view: Vec<PoolEdge> = Vec::new();
    assert!(search_cycles(&view, tok(1), 12).is_none());
    assert!(search_cycles_parallel(&view, tok(1), 12).is_none());
}

#[test]
fn search_tie_break_prefers_fewer_hops() {
    // a 3-hop and a 4-hop cycle with the same compounded rate 2.0:
    // the shorter one must win
    let view = vec![
        edge(1, 1, 2, 1_000, 2_000, 0), // A-B at 2.0
        edge(2, 2, 3, 1_000, 1_000, 0), // B-C at 1.0
        edge(3, 3, 1, 1_000, 1_000, 0), // C-A at 1.0
        edge(4, 3, 4, 1_000, 1_000, 0), // C-D at 1.0
        edge(5, 4, 1, 1_000, 1_000, 0), // D-A at 1.0
    ];
    let c = search_cycles(&view, tok(1), 12).unwrap();
    assert_eq!(c.score, 2 * RATE_UNIT);
    let venues: Vec<u64> = c.hops.iter().map(|h| h.edge.venue_id).collect();
    assert_eq!(venues, vec![1, 2, 3]);
}

#[test]
fn budgeted_search_times_out_on_tiny_budget() {
    let view = mispriced_graph();
    let r = search_cycles_budgeted(&view, tok(1), 12, 1);
    assert!(matches!(r, Err(AnalysisError::SearchTimeout)));
}

#[test]
fn budgeted_search_degrades_but_still_finds_short_cycles() {
    let view = mispriced_graph();
    // enough budget for 3 hops ((2*5)^3 = 1000) but not for 12
    let (found, degraded) = search_cycles_budgeted(&view, tok(1), 12, 1_000).unwrap();
    assert!(degraded);
    let c = found.expect("the 3-hop loop fits the degraded bound");
    let venues: Vec<u64> = c.hops.iter().map(|h| h.edge.venue_id).collect();
    assert_eq!(venues, vec![1, 2, 3]);
    // a generous budget is not degraded
    let (found2, degraded2) = search_cycles_budgeted(&view, tok(1), 3, u64::MAX).unwrap();
    assert!(!degraded2);
    assert!(found2.is_some());
}
