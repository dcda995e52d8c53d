use arbgraph::errors::AnalysisError;
use arbgraph::model::{PoolEdge, Token};
use arbgraph::opportunity::{cycle_out_x, optimal_input, verify_cycle};
use arbgraph::search::{search_cycles, Candidate, Hop};

fn tok(n: u64) -> Token {
    Token { hi: n, mid: 0, lo: 0 }
}

fn edge(venue: u64, a: u64, b: u64, ra: u64, rb: u64, fee: u32) -> PoolEdge {
    PoolEdge {
        venue_id: venue,
        token_a: tok(a),
        token_b: tok(b),
        reserve_a: ra,
        reserve_b: rb,
        fee_bps: fee,
        updated_at: 0,
    }
}

/// The profitable 1.05 * 0.99 loop: A-B at 1:1, B-C at 1:1.05, C-A at 1:0.99.
fn loop_hops() -> Vec<Hop> {
    vec![
        Hop { edge: edge(1, 1, 2, 1_000_000, 1_000_000, 0), a_to_b: true },
        Hop { edge: edge(2, 2, 3, 1_000_000, 1_050_000, 0), a_to_b: true },
        Hop { edge: edge(3, 3, 1, 1_000_000, 990_000, 0), a_to_b: true },
    ]
}

#[test]
fn cycle_out_exact_value() {
    let hops = loop_hops();
    // 1000 in: hop1 floor(1000*1e6/1001000)=999, hop2 floor(999*1.05e6/1000999)=1047,
    // hop3 floor(1047*0.99e6/1001047)=1035
    assert_eq!(cycle_out_x(&hops, 1_000), 1_035);
}

#[test]
fn exact_output_never_exceeds_marginal_projection() {
    let hops = loop_hops();
    for a in [100u64, 1_000, 10_000, 100_000, 1_000_000] {
        let exact = cycle_out_x(&hops, a);
        // marginal (spot) projection: a * 1.05 * 0.99, no slippage
        let spot = a as u128 * 1_050_000 / 1_000_000 * 990_000 / 1_000_000;
        assert!(exact as u128 <= spot, "slippage must only lose value");
    }
}

#[test]
fn optimal_input_is_idempotent() {
    let hops = loop_hops();
    let a1 = optimal_input(&hops, 1, 1_000_000);
    let a2 = optimal_input(&hops, 1, 1_000_000);
    assert_eq!(a1, a2);
    assert!((1..=1_000_000).contains(&a1));
}

#[test]
fn verify_accepts_profitable_cycle() {
    let c = Candidate { hops: loop_hops(), score: 1_039_500 };
    let op = verify_cycle(&c, 1, 1_000_000, 10, 77).unwrap();
    assert!(op.expected_profit > 0);
    assert_eq!(op.discovery_latency, 77);
    assert_eq!(op.venues_used, vec![1, 2, 3]);
    assert_eq!(op.cycle, vec![tok(1), tok(2), tok(3), tok(1)]);
    assert_eq!(
        cycle_out_x(&c.hops, op.input_amount),
        op.expected_output,
    );
    // verifying again yields the identical opportunity
    let op2 = verify_cycle(&c, 1, 1_000_000, 10, 77).unwrap();
    assert_eq!(op, op2);
}

#[test]
fn verify_rejects_when_cost_eats_profit() {
    let c = Candidate { hops: loop_hops(), score: 1_039_500 };
    // an absurd execution cost: nothing clears it
    let r = verify_cycle(&c, 1, 1_000_000, u64::MAX / 2, 0);
    assert_eq!(r, Err(AnalysisError::NotProfitable));
}

#[test]
fn verify_rejects_losing_cycle() {
    // 0.997^3 < 1: no input is profitable at zero cost either
    let hops = vec![
        Hop { edge: edge(1, 1, 2, 1_000_000, 1_000_000, 30), a_to_b: true },
        Hop { edge: edge(2, 2, 3, 1_000_000, 1_000_000, 30), a_to_b: true },
        Hop { edge: edge(3, 3, 1, 1_000_000, 1_000_000, 30), a_to_b: true },
    ];
    let c = Candidate { hops, score: 991_026 };
    let r = verify_cycle(&c, 1, 1_000_000, 0, 0);
    assert_eq!(r, Err(AnalysisError::NotProfitable));
}

#[test]
fn verifier_profit_peaks_inside_the_range() {
    // profit grows then shrinks with input size: the chosen optimum must
    // beat both endpoints strictly on this curve
    let hops = loop_hops();
    let best = optimal_input(&hops, 1, 1_000_000);
    let profit = |a: u64| cycle_out_x(&hops, a) as i128 - a as i128;
    assert!(profit(best) >= profit(1));
    assert!(profit(best) >= profit(1_000_000));
    assert!(profit(best) > 0);
}

#[test]
fn error_labels_are_stable() {
    assert_eq!(AnalysisError::DecodeError.label(), "decode_error");
    assert_eq!(AnalysisError::StaleStateError.label(), "stale_state");
    assert_eq!(AnalysisError::NoCycleFound.label(), "no_cycle");
    assert_eq!(AnalysisError::NotProfitable.label(), "not_profitable");
    assert_eq!(AnalysisError::SearchTimeout.label(), "search_timeout");
    assert_eq!(AnalysisError::FeedDisconnected.label(), "feed_disconnected");
}

#[test]
fn search_then_verify_round_trip() {
    let view: Vec<PoolEdge> = loop_hops().iter().map(|h| h.edge).collect();
    let cand = search_cycles(&view, tok(1), 12).unwrap();
    let op = verify_cycle(&cand, 1, 500_000, 0, 0).unwrap();
    assert!(op.expected_profit > 0);
    assert_eq!(op.venues_used, vec![1, 2, 3]);
}
