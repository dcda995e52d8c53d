use vstd::prelude::*;
use vstd::arithmetic::div_mod::{
    lemma_div_is_ordered_by_denominator, lemma_div_pos_is_pos, lemma_fundamental_div_mod,
    lemma_multiply_divide_lt, lemma_remainder, lemma_remainder_lower,
};

verus! {

/// Fees are quoted in basis points of this denominator.
pub const FEE_DENOM: u64 = 10000;

/// Largest reserve or trade amount the model admits (2^56). Bounding values
/// here keeps every intermediate of the pricing formula exact in 128 bits.
pub const RESERVE_CAP: u64 = 0x100_0000_0000_0000;

/// One fungible asset: the 20 bytes of an on-chain address packed into
/// integers. Immutable; equality is by value.
#[derive(Clone, Copy, PartialEq, Eq, Structural, Hash, Debug)]
pub struct Token {
    pub hi: u64,
    pub mid: u64,
    pub lo: u32,
}

/// One liquidity venue between two tokens: constant-product reserves and a
/// fee in basis points. `updated_at` is the caller's clock reading for the
/// confirmed update the reserves came from; the projector's freshness check
/// reads it. Only confirmed on-chain updates mutate an edge; projection and
/// search never do.
#[derive(Clone, Copy, PartialEq, Eq, Structural, Debug)]
pub struct PoolEdge {
    pub venue_id: u64,
    pub token_a: Token,
    pub token_b: Token,
    pub reserve_a: u64,
    pub reserve_b: u64,
    pub fee_bps: u32,
    pub updated_at: u64,
}

/// A well-formed edge: fee strictly below one, distinct endpoints, reserves
/// within the model's cap.
pub open spec fn edge_wf(e: PoolEdge) -> bool {
    e.fee_bps < FEE_DENOM
    && e.token_a != e.token_b
    && e.reserve_a <= RESERVE_CAP
    && e.reserve_b <= RESERVE_CAP
}

/// A venue takes part in pricing only while both reserves are positive; a
/// zero reserve excludes it from search until a confirmed update restores it.
pub open spec fn edge_usable(e: PoolEdge) -> bool {
    e.reserve_a >= 1 && e.reserve_b >= 1
}

/// Exact constant-product output with the fee deducted from the input:
/// floor(a·k·R_out / (R_in·D + a·k)) where D is the fee denominator and
/// k = D − fee_bps.
pub open spec fn spec_swap_out(amount_in: int, r_in: int, r_out: int, fee_bps: int) -> int {
    (amount_in * (FEE_DENOM - fee_bps) * r_out)
        / (r_in * FEE_DENOM + amount_in * (FEE_DENOM - fee_bps))
}

/// Marginal (spot) projection of the same hop: the fee-adjusted rate at the
/// current reserves, ignoring the trade's own slippage. The cycle search
/// scores candidates against this projection.
pub open spec fn spec_spot_out(amount_in: int, r_in: int, r_out: int, fee_bps: int) -> int {
    (amount_in * (FEE_DENOM - fee_bps) * r_out) / (r_in * FEE_DENOM)
}

/// Floored division respects the order of fractions: if n1/d1 <= n2/d2 as
/// rationals (stated cross-multiplied), the quotients are ordered the same.
pub proof fn lemma_div_cross_le(n1: int, d1: int, n2: int, d2: int)
    requires
        0 <= n1,
        0 <= n2,
        1 <= d1,
        1 <= d2,
        n1 * d2 <= n2 * d1,
    ensures
        n1 / d1 <= n2 / d2,
{
    let q = n1 / d1;
    lemma_remainder_lower(n1, d1);
    lemma_div_pos_is_pos(n1, d1);
    assert(q * d2 <= n2) by (nonlinear_arith)
        requires
            q * d1 <= n1,
            n1 * d2 <= n2 * d1,
            1 <= d1,
            1 <= d2,
            0 <= q,
    {}
    lemma_fundamental_div_mod(n2, d2);
    lemma_remainder(n2, d2);
    assert(q <= n2 / d2) by (nonlinear_arith)
        requires
            q * d2 <= n2,
            n2 == d2 * (n2 / d2) + (n2 % d2),
            0 <= n2 - (n2 / d2) * d2 < d2,
            1 <= d2,
    {}
}

/// Raising the input of a swap never lowers its output. This is the integer
/// form of monotonicity: non-strict, because the output is floored.
pub proof fn lemma_swap_out_monotone(a1: int, a2: int, r_in: int, r_out: int, fee_bps: int)
    requires
        0 <= a1 <= a2,
        1 <= r_in,
        1 <= r_out,
        0 <= fee_bps < FEE_DENOM,
    ensures
        spec_swap_out(a1, r_in, r_out, fee_bps) <= spec_swap_out(a2, r_in, r_out, fee_bps),
{
    let k = FEE_DENOM - fee_bps;
    let n1 = a1 * k * r_out;
    let d1 = r_in * FEE_DENOM + a1 * k;
    let n2 = a2 * k * r_out;
    let d2 = r_in * FEE_DENOM + a2 * k;
    assert(0 <= n1 && 0 <= n2 && 1 <= d1 && 1 <= d2 && n1 * d2 <= n2 * d1) by (nonlinear_arith)
        requires
            0 <= a1 <= a2,
            1 <= r_in,
            1 <= r_out,
            0 < k,
            n1 == a1 * k * r_out,
            d1 == r_in * (FEE_DENOM as int) + a1 * k,
            n2 == a2 * k * r_out,
            d2 == r_in * (FEE_DENOM as int) + a2 * k,
    {}
    lemma_div_cross_le(n1, d1, n2, d2);
}

/// The exact output never exceeds the spot projection: the trade's own input
/// only deepens the denominator. One hop of the convexity bound.
pub proof fn lemma_swap_le_spot(a: int, r_in: int, r_out: int, fee_bps: int)
    requires
        0 <= a,
        1 <= r_in,
        1 <= r_out,
        0 <= fee_bps < FEE_DENOM,
    ensures
        spec_swap_out(a, r_in, r_out, fee_bps) <= spec_spot_out(a, r_in, r_out, fee_bps),
{
    let k = FEE_DENOM - fee_bps;
    let n = a * k * r_out;
    let ds = r_in * FEE_DENOM;
    let db = r_in * FEE_DENOM + a * k;
    assert(0 <= n && 0 <= a * k && 1 <= ds) by (nonlinear_arith)
        requires
            0 <= a,
            1 <= r_in,
            1 <= r_out,
            0 < k,
            n == a * k * r_out,
            ds == r_in * (FEE_DENOM as int),
    {}
    lemma_div_is_ordered_by_denominator(n, ds, db);
}

/// The exact output is never negative and never reaches the output-side
/// reserve: a venue cannot be drained.
pub proof fn lemma_swap_out_range(a: int, r_in: int, r_out: int, fee_bps: int)
    requires
        0 <= a,
        1 <= r_in,
        1 <= r_out,
        0 <= fee_bps < FEE_DENOM,
    ensures
        0 <= spec_swap_out(a, r_in, r_out, fee_bps) < r_out,
{
    let k = FEE_DENOM - fee_bps;
    let n = a * k * r_out;
    let d = r_in * FEE_DENOM + a * k;
    assert(0 <= n && 1 <= d && n < d * r_out) by (nonlinear_arith)
        requires
            0 <= a,
            1 <= r_in,
            1 <= r_out,
            0 < k <= FEE_DENOM as int,
            FEE_DENOM as int == 10000,
            n == a * k * r_out,
            d == r_in * (FEE_DENOM as int) + a * k,
    {}
    lemma_div_pos_is_pos(n, d);
    lemma_multiply_divide_lt(n, d, r_out);
}

/// The spot projection is never negative.
pub proof fn lemma_spot_out_nonneg(a: int, r_in: int, r_out: int, fee_bps: int)
    requires
        0 <= a,
        1 <= r_in,
        1 <= r_out,
        0 <= fee_bps < FEE_DENOM,
    ensures
        0 <= spec_spot_out(a, r_in, r_out, fee_bps),
{
    let k = FEE_DENOM - fee_bps;
    assert(0 <= a * k * r_out && 1 <= r_in * (FEE_DENOM as int)) by (nonlinear_arith)
        requires
            0 <= a,
            1 <= r_in,
            1 <= r_out,
            0 < k,
            FEE_DENOM as int == 10000,
    {}
    lemma_div_pos_is_pos(a * k * r_out, r_in * (FEE_DENOM as int));
}

/// Executable exact pricing of one hop. Returns the floored constant-product
/// output; it is always strictly below the output-side reserve.
pub fn swap_out(amount_in: u64, r_in: u64, r_out: u64, fee_bps: u32) -> (r: u64)
    requires
        amount_in <= RESERVE_CAP,
        1 <= r_in <= RESERVE_CAP,
        1 <= r_out <= RESERVE_CAP,
        fee_bps < FEE_DENOM,
    ensures
        r == spec_swap_out(amount_in as int, r_in as int, r_out as int, fee_bps as int),
        r < r_out,
{
    let k: u128 = (FEE_DENOM - fee_bps as u64) as u128;
    proof {
        assert((amount_in as int) * (k as int) * (r_out as int)
            <= (RESERVE_CAP as int) * (FEE_DENOM as int) * (RESERVE_CAP as int)
            && (r_in as int) * (FEE_DENOM as int) + (amount_in as int) * (k as int)
                <= (RESERVE_CAP as int) * (FEE_DENOM as int) + (RESERVE_CAP as int) * (FEE_DENOM as int))
            by (nonlinear_arith)
            requires
                0 <= amount_in as int <= RESERVE_CAP as int,
                1 <= r_in as int <= RESERVE_CAP as int,
                1 <= r_out as int <= RESERVE_CAP as int,
                0 < k as int <= FEE_DENOM as int,
        {}
    }
    let num: u128 = amount_in as u128 * k * (r_out as u128);
    let den: u128 = r_in as u128 * (FEE_DENOM as u128) + amount_in as u128 * k;
    let q: u128 = num / den;
    proof {
        assert((num as int) < (den as int) * (r_out as int)) by (nonlinear_arith)
            requires
                num as int == (amount_in as int) * (k as int) * (r_out as int),
                den as int == (r_in as int) * (FEE_DENOM as int) + (amount_in as int) * (k as int),
                1 <= r_in as int,
                1 <= r_out as int,
                0 < k as int,
                FEE_DENOM as int == 10000,
        {}
        lemma_multiply_divide_lt(num as int, den as int, r_out as int);
    }
    q as u64
}

} // verus!
