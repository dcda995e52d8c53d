use vstd::prelude::*;
use crate::errors::AnalysisError;
use crate::model::{
    lemma_spot_out_nonneg, lemma_swap_le_spot, lemma_swap_out_monotone, lemma_swap_out_range,
    spec_spot_out, spec_swap_out, swap_out, Token, FEE_DENOM, RESERVE_CAP,
};
use crate::search::{
    hop_dst, hop_dst_x, hop_r_in, hop_r_out, hop_src, hop_src_x, hops_wf, venues_of, Candidate,
    Hop,
};

verus! {

/// Exact output of threading `amount` through the whole cycle, hop by hop,
/// with the constant-product formula (not the marginal approximation).
pub open spec fn spec_cycle_out(hops: Seq<Hop>, amount: int) -> int
    decreases hops.len(),
{
    if hops.len() == 0 {
        amount
    } else {
        let h = hops.last();
        spec_swap_out(
            spec_cycle_out(hops.drop_last(), amount),
            hop_r_in(h) as int, hop_r_out(h) as int, h.edge.fee_bps as int,
        )
    }
}

/// The marginal (spot) projection of the same cycle: each hop priced at its
/// current rate, ignoring the trade's own slippage. This is what the
/// search's log-weight scoring implies.
pub open spec fn spec_spot_cycle_out(hops: Seq<Hop>, amount: int) -> int
    decreases hops.len(),
{
    if hops.len() == 0 {
        amount
    } else {
        let h = hops.last();
        spec_spot_out(
            spec_spot_cycle_out(hops.drop_last(), amount),
            hop_r_in(h) as int, hop_r_out(h) as int, h.edge.fee_bps as int,
        )
    }
}

/// Exact profit of running the cycle with the given input.
pub open spec fn spec_profit(hops: Seq<Hop>, amount: int) -> int {
    spec_cycle_out(hops, amount) - amount
}

pub proof fn lemma_cycle_out_nonneg(hops: Seq<Hop>, amount: int)
    requires
        hops_wf(hops),
        0 <= amount,
    ensures
        0 <= spec_cycle_out(hops, amount),
    decreases hops.len(),
{
    if hops.len() > 0 {
        assert(hops_wf(hops.drop_last()));
        lemma_cycle_out_nonneg(hops.drop_last(), amount);
        let h = hops.last();
        lemma_swap_out_range(
            spec_cycle_out(hops.drop_last(), amount),
            hop_r_in(h) as int, hop_r_out(h) as int, h.edge.fee_bps as int,
        );
    }
}

pub proof fn lemma_spot_cycle_nonneg(hops: Seq<Hop>, amount: int)
    requires
        hops_wf(hops),
        0 <= amount,
    ensures
        0 <= spec_spot_cycle_out(hops, amount),
    decreases hops.len(),
{
    if hops.len() > 0 {
        assert(hops_wf(hops.drop_last()));
        lemma_spot_cycle_nonneg(hops.drop_last(), amount);
        let h = hops.last();
        lemma_spot_out_nonneg(
            spec_spot_cycle_out(hops.drop_last(), amount),
            hop_r_in(h) as int, hop_r_out(h) as int, h.edge.fee_bps as int,
        );
    }
}

/// Convexity bound: the exact cycle output never exceeds the marginal
/// projection, hop for hop — slippage only reduces what comes out.
pub proof fn lemma_cycle_exact_le_spot(hops: Seq<Hop>, amount: int)
    requires
        hops_wf(hops),
        0 <= amount,
    ensures
        spec_cycle_out(hops, amount) <= spec_spot_cycle_out(hops, amount),
    decreases hops.len(),
{
    if hops.len() > 0 {
        assert(hops_wf(hops.drop_last()));
        lemma_cycle_exact_le_spot(hops.drop_last(), amount);
        lemma_cycle_out_nonneg(hops.drop_last(), amount);
        lemma_spot_cycle_nonneg(hops.drop_last(), amount);
        let h = hops.last();
        let e1 = spec_cycle_out(hops.drop_last(), amount);
        let s1 = spec_spot_cycle_out(hops.drop_last(), amount);
        lemma_swap_out_monotone(
            e1, s1, hop_r_in(h) as int, hop_r_out(h) as int, h.edge.fee_bps as int,
        );
        lemma_swap_le_spot(s1, hop_r_in(h) as int, hop_r_out(h) as int, h.edge.fee_bps as int);
    }
}

/// The profit the exact formula reports is at most the profit the search's
/// marginal (log-weight) scoring implies: the verifier's re-check can only
/// revise a candidate downward, never invent profit the search missed.
pub proof fn lemma_exact_profit_le_spot(hops: Seq<Hop>, amount: int)
    requires
        hops_wf(hops),
        0 <= amount,
    ensures
        spec_profit(hops, amount) <= spec_spot_cycle_out(hops, amount) - amount,
{
    lemma_cycle_exact_le_spot(hops, amount);
}

/// Executable exact evaluation of a cycle for one input amount.
pub fn cycle_out_x(hops: &Vec<Hop>, amount: u64) -> (r: u64)
    requires
        hops_wf(hops@),
        amount <= RESERVE_CAP,
    ensures
        r as int == spec_cycle_out(hops@, amount as int),
        r <= RESERVE_CAP,
{
    let mut cur: u64 = amount;
    let mut i: usize = 0;
    proof {
        assert(hops@.subrange(0, 0) =~= Seq::<Hop>::empty());
    }
    while i < hops.len()
        invariant
            hops_wf(hops@),
            i <= hops@.len(),
            cur as int == spec_cycle_out(hops@.subrange(0, i as int), amount as int),
            cur <= RESERVE_CAP,
        decreases hops@.len() - i,
    {
        let h = hops[i];
        proof {
            assert(hops@[i as int] == h);
            assert(hops@.subrange(0, i as int + 1).drop_last() =~= hops@.subrange(0, i as int));
            assert(hops@.subrange(0, i as int + 1).last() == h);
        }
        let r_in: u64 = if h.a_to_b { h.edge.reserve_a } else { h.edge.reserve_b };
        let r_out: u64 = if h.a_to_b { h.edge.reserve_b } else { h.edge.reserve_a };
        cur = swap_out(cur, r_in, r_out, h.edge.fee_bps);
        i += 1;
    }
    proof {
        assert(hops@.subrange(0, hops@.len() as int) =~= hops@);
    }
    cur
}

/// Executable exact profit of a cycle for one input amount.
pub fn profit_x(hops: &Vec<Hop>, amount: u64) -> (r: i128)
    requires
        hops_wf(hops@),
        amount <= RESERVE_CAP,
    ensures
        r as int == spec_profit(hops@, amount as int),
{
    let out = cycle_out_x(hops, amount);
    out as i128 - amount as i128
}

/// The better of two trial amounts: higher exact profit wins; on a tie the
/// smaller (first) amount is kept, so the search is deterministic.
pub open spec fn spec_better_amt(hops: Seq<Hop>, a1: int, a2: int) -> int {
    if spec_profit(hops, a2) > spec_profit(hops, a1) {
        a2
    } else {
        a1
    }
}

/// The verifier's one-dimensional search over the input amount: ternary
/// steps while the interval is wide (profit is unimodal in the input for a
/// fixed constant-product cycle), then an exhaustive scan of the last three
/// points. Deterministic by construction.
pub open spec fn spec_tsearch(hops: Seq<Hop>, lo: int, hi: int) -> int
    decreases hi - lo,
{
    if lo >= hi {
        lo
    } else if hi - lo == 1 {
        spec_better_amt(hops, lo, hi)
    } else if hi - lo == 2 {
        spec_better_amt(hops, spec_better_amt(hops, lo, lo + 1), hi)
    } else {
        let t = (hi - lo) / 3;
        let m1 = lo + t;
        let m2 = hi - t;
        if spec_profit(hops, m1) < spec_profit(hops, m2) {
            spec_tsearch(hops, m1 + 1, hi)
        } else {
            spec_tsearch(hops, lo, m2 - 1)
        }
    }
}

/// Executable form of the verifier's input search, exact against its spec.
pub fn optimal_input(hops: &Vec<Hop>, lo0: u64, hi0: u64) -> (r: u64)
    requires
        hops_wf(hops@),
        lo0 <= hi0,
        hi0 <= RESERVE_CAP,
    ensures
        r as int == spec_tsearch(hops@, lo0 as int, hi0 as int),
        lo0 <= r <= hi0,
{
    let mut lo: u64 = lo0;
    let mut hi: u64 = hi0;
    while hi - lo > 2
        invariant
            hops_wf(hops@),
            lo0 <= lo <= hi <= hi0,
            hi0 <= RESERVE_CAP,
            spec_tsearch(hops@, lo0 as int, hi0 as int) == spec_tsearch(hops@, lo as int, hi as int),
        decreases hi - lo,
    {
        let t: u64 = (hi - lo) / 3;
        let m1: u64 = lo + t;
        let m2: u64 = hi - t;
        let p1 = profit_x(hops, m1);
        let p2 = profit_x(hops, m2);
        if p1 < p2 {
            lo = m1 + 1;
        } else {
            hi = m2 - 1;
        }
    }
    if lo >= hi {
        lo
    } else if hi - lo == 1 {
        let pl = profit_x(hops, lo);
        let ph = profit_x(hops, hi);
        if ph > pl {
            hi
        } else {
            lo
        }
    } else {
        let pl = profit_x(hops, lo);
        let pm = profit_x(hops, lo + 1);
        let b1: u64 = if pm > pl {
            lo + 1
        } else {
            lo
        };
        let pb = profit_x(hops, b1);
        let ph = profit_x(hops, hi);
        if ph > pb {
            hi
        } else {
            b1
        }
    }
}

/// Two runs of the verifier's input search over the same cycle and the same
/// reserves pick the same optimal amount: verification is idempotent.
pub proof fn lemma_verifier_deterministic(hops: Seq<Hop>, lo: int, hi: int, a1: int, a2: int)
    requires
        a1 == spec_tsearch(hops, lo, hi),
        a2 == spec_tsearch(hops, lo, hi),
    ensures
        a1 == a2,
{
}

/// The token sequence a hop path walks: base first, then each destination.
pub open spec fn tokens_of(hops: Seq<Hop>) -> Seq<Token> {
    Seq::new(
        hops.len() + 1,
        |i: int| if i == 0 {
            hop_src(hops[0])
        } else {
            hop_dst(hops[i - 1])
        },
    )
}

/// A validated arbitrage opportunity: immutable once produced, consumed
/// once by the submission collaborator.
#[derive(Clone, PartialEq, Eq, Debug)]
pub struct Opportunity {
    pub cycle: Vec<Token>,
    pub venues_used: Vec<u64>,
    pub input_amount: u64,
    pub expected_output: u64,
    pub expected_profit: u64,
    pub discovery_latency: u64,
}

/// Everything the verifier decides, as a predicate on its result: accepted
/// exactly when the best input's exact profit clears the estimated cost,
/// with every opportunity field pinned to the cycle and that best input.
pub open spec fn verify_post(
    hops: Seq<Hop>, min_amount: u64, max_amount: u64, est_cost: u64, latency: u64,
    r: Result<Opportunity, AnalysisError>,
) -> bool {
    let best = spec_tsearch(hops, min_amount as int, max_amount as int);
    match r {
        Ok(op) => {
            &&& spec_profit(hops, best) > est_cost
            &&& op.input_amount == best
            &&& op.expected_output as int == spec_cycle_out(hops, best)
            &&& op.expected_profit as int == spec_profit(hops, best) - est_cost
            &&& op.venues_used@ == venues_of(hops)
            &&& op.cycle@ == tokens_of(hops)
            &&& op.discovery_latency == latency
        }
        Err(e) => {
            &&& e == AnalysisError::NotProfitable
            &&& spec_profit(hops, best) <= est_cost
        }
    }
}

/// The Opportunity Verifier: re-prices the discovered cycle hop by hop with
/// the exact formula, searches the bounded amount space for the most
/// profitable input, and rejects the cycle unless that profit clears the
/// estimated execution cost.
pub fn verify_cycle(
    cand: &Candidate,
    min_amount: u64,
    max_amount: u64,
    est_cost: u64,
    latency: u64,
) -> (r: Result<Opportunity, AnalysisError>)
    requires
        hops_wf(cand.hops@),
        cand.hops@.len() >= 1,
        min_amount <= max_amount,
        max_amount <= RESERVE_CAP,
    ensures
        verify_post(cand.hops@, min_amount, max_amount, est_cost, latency, r),
{
    let best = optimal_input(&cand.hops, min_amount, max_amount);
    let out = cycle_out_x(&cand.hops, best);
    let profit: i128 = out as i128 - best as i128;
    if profit <= est_cost as i128 {
        return Err(AnalysisError::NotProfitable);
    }
    let mut venues: Vec<u64> = Vec::new();
    let mut cycle: Vec<Token> = Vec::new();
    cycle.push(hop_src_x(cand.hops[0]));
    let mut i: usize = 0;
    while i < cand.hops.len()
        invariant
            i <= cand.hops@.len(),
            cand.hops@.len() >= 1,
            venues@.len() == i,
            cycle@.len() == i + 1,
            forall|j: int| 0 <= j < i ==> venues@[j] == venues_of(cand.hops@)[j],
            cycle@[0] == hop_src(cand.hops@[0]),
            forall|j: int| 1 <= j <= i ==> cycle@[j] == hop_dst(cand.hops@[j - 1]),
        decreases cand.hops@.len() - i,
    {
        let h = cand.hops[i];
        venues.push(h.edge.venue_id);
        cycle.push(hop_dst_x(h));
        i += 1;
    }
    proof {
        assert(venues@ =~= venues_of(cand.hops@));
        assert(cycle@ =~= tokens_of(cand.hops@));
    }
    let net: u64 = (profit - est_cost as i128) as u64;
    proof {
        assert(out <= RESERVE_CAP);
        assert(profit - est_cost as i128 <= RESERVE_CAP as i128);
    }
    Ok(Opportunity {
        cycle,
        venues_used: venues,
        input_amount: best,
        expected_output: out,
        expected_profit: net,
        discovery_latency: latency,
    })
}

} // verus!
