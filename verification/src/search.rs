use vstd::prelude::*;
use crate::model::{edge_usable, edge_wf, PoolEdge, Token, FEE_DENOM};
use rayon::iter::{IndexedParallelIterator, IntoParallelIterator, ParallelIterator};

verus! {

/// Fixed-point unit for compounded exchange rates: a cycle is profitable
/// exactly when its accumulated rate exceeds this unit.
pub const RATE_UNIT: u128 = 1_000_000;

/// Cap on the rate accumulator (2^56). Capping keeps every scoring product
/// within 128 bits; a compounded rate at the cap is beyond any real market.
pub const ACC_CAP: u128 = 0x100_0000_0000_0000;

/// One step of a cycle: a venue traversed in a chosen direction
/// (`a_to_b` means token_a goes in, token_b comes out).
#[derive(Clone, Copy, PartialEq, Eq, Structural, Debug)]
pub struct Hop {
    pub edge: PoolEdge,
    pub a_to_b: bool,
}

pub open spec fn hop_src(h: Hop) -> Token {
    if h.a_to_b { h.edge.token_a } else { h.edge.token_b }
}

pub open spec fn hop_dst(h: Hop) -> Token {
    if h.a_to_b { h.edge.token_b } else { h.edge.token_a }
}

pub open spec fn hop_r_in(h: Hop) -> u64 {
    if h.a_to_b { h.edge.reserve_a } else { h.edge.reserve_b }
}

pub open spec fn hop_r_out(h: Hop) -> u64 {
    if h.a_to_b { h.edge.reserve_b } else { h.edge.reserve_a }
}

/// A search view: the overlay-composed edge list the engine walks. Every
/// edge is well formed and usable, and venues are not repeated.
pub open spec fn view_wf(view: Seq<PoolEdge>) -> bool {
    (forall|i: int| 0 <= i < view.len() ==> edge_wf(#[trigger] view[i]) && edge_usable(view[i]))
    && (forall|i: int, j: int| 0 <= i < j < view.len() ==> view[i].venue_id != view[j].venue_id)
}

pub open spec fn hop_in_view(view: Seq<PoolEdge>, h: Hop) -> bool {
    exists|i: int| 0 <= i < view.len() && view[i] == h.edge
}

/// Numerator of a hop's fee-adjusted marginal rate.
pub open spec fn rate_num(h: Hop) -> int {
    (FEE_DENOM - h.edge.fee_bps) * hop_r_out(h)
}

/// Denominator of a hop's marginal rate.
pub open spec fn rate_den(h: Hop) -> int {
    (FEE_DENOM as int) * hop_r_in(h)
}

/// One scoring step: multiply the accumulated rate by the hop's marginal
/// rate, flooring, then cap the accumulator.
pub open spec fn score_step(acc: int, h: Hop) -> int {
    let raw = (acc * rate_num(h)) / rate_den(h);
    if raw > ACC_CAP as int { ACC_CAP as int } else { raw }
}

/// The compounded fee-adjusted marginal rate of a path, in RATE_UNIT fixed
/// point, floored at each step and capped at ACC_CAP. This is the search's
/// additive-weight transform in integer form: maximizing it is maximizing
/// the product of net rates.
pub open spec fn path_score(hops: Seq<Hop>) -> int
    decreases hops.len(),
{
    if hops.len() == 0 {
        RATE_UNIT as int
    } else {
        score_step(path_score(hops.drop_last()), hops.last())
    }
}

/// Every hop's edge is well formed and usable.
pub open spec fn hops_wf(hops: Seq<Hop>) -> bool {
    forall|i: int| 0 <= i < hops.len()
        ==> edge_wf(#[trigger] hops[i].edge) && edge_usable(hops[i].edge)
}

/// A partial search path: starts at the base token, chains, walks only view
/// edges, and never revisits a token (in particular it has not returned to
/// the base yet).
pub open spec fn path_ok(view: Seq<PoolEdge>, base: Token, hops: Seq<Hop>) -> bool {
    &&& hops.len() >= 1
    &&& hop_src(hops[0]) == base
    &&& forall|i: int| 0 <= i < hops.len() ==> hop_in_view(view, #[trigger] hops[i])
    &&& forall|i: int| 0 <= i < hops.len() - 1 ==> hop_dst(#[trigger] hops[i]) == hop_src(hops[i + 1])
    &&& forall|i: int| 0 <= i < hops.len() ==> hop_dst(#[trigger] hops[i]) != base
    &&& forall|i: int, j: int| 0 <= i < j < hops.len() ==> hop_dst(#[trigger] hops[i]) != hop_dst(#[trigger] hops[j])
}

/// A complete cycle: a partial path plus one closing hop back to the base,
/// between three and `max_hops` hops long.
pub open spec fn is_cycle(view: Seq<PoolEdge>, base: Token, max_hops: int, hops: Seq<Hop>) -> bool {
    &&& 3 <= hops.len() <= max_hops
    &&& path_ok(view, base, hops.drop_last())
    &&& hop_in_view(view, hops.last())
    &&& hop_src(hops.last()) == hop_dst(hops[hops.len() - 2])
    &&& hop_dst(hops.last()) == base
}

/// Lexicographic order on venue-id sequences.
pub open spec fn lex_le(a: Seq<u64>, b: Seq<u64>) -> bool
    decreases a.len(),
{
    if a.len() == 0 {
        true
    } else if b.len() == 0 {
        false
    } else if a[0] < b[0] {
        true
    } else if a[0] > b[0] {
        false
    } else {
        lex_le(a.subrange(1, a.len() as int), b.subrange(1, b.len() as int))
    }
}

pub proof fn lemma_lex_le_total(a: Seq<u64>, b: Seq<u64>)
    ensures
        lex_le(a, b) || lex_le(b, a),
    decreases a.len(),
{
    if a.len() == 0 || b.len() == 0 {
    } else if a[0] == b[0] {
        lemma_lex_le_total(a.subrange(1, a.len() as int), b.subrange(1, b.len() as int));
    }
}

pub proof fn lemma_lex_le_trans(a: Seq<u64>, b: Seq<u64>, c: Seq<u64>)
    requires
        lex_le(a, b),
        lex_le(b, c),
    ensures
        lex_le(a, c),
    decreases a.len(),
{
    if a.len() == 0 {
    } else {
        if b.len() == 0 {
            assert(false);
        } else if c.len() == 0 {
            assert(false);
        } else {
            if a[0] == b[0] && b[0] == c[0] {
                lemma_lex_le_trans(
                    a.subrange(1, a.len() as int),
                    b.subrange(1, b.len() as int),
                    c.subrange(1, c.len() as int),
                );
            }
        }
    }
}

/// The venue-id sequence of a path: the deterministic tie-break key.
pub open spec fn venues_of(hops: Seq<Hop>) -> Seq<u64> {
    hops.map_values(|h: Hop| h.edge.venue_id)
}

/// "At least as good" on cycle keys: higher compounded rate first, then
/// fewer hops, then the lexicographically lowest venue sequence.
pub open spec fn key_ge(s1: int, l1: int, v1: Seq<u64>, s2: int, l2: int, v2: Seq<u64>) -> bool {
    s1 > s2 || (s1 == s2 && (l1 < l2 || (l1 == l2 && lex_le(v1, v2))))
}

pub proof fn lemma_key_ge_refl(s: int, l: int, v: Seq<u64>)
    ensures
        key_ge(s, l, v, s, l, v),
{
    lemma_lex_le_total(v, v);
}

pub proof fn lemma_key_ge_total(s1: int, l1: int, v1: Seq<u64>, s2: int, l2: int, v2: Seq<u64>)
    ensures
        key_ge(s1, l1, v1, s2, l2, v2) || key_ge(s2, l2, v2, s1, l1, v1),
{
    lemma_lex_le_total(v1, v2);
}

pub proof fn lemma_key_ge_trans(
    s1: int, l1: int, v1: Seq<u64>,
    s2: int, l2: int, v2: Seq<u64>,
    s3: int, l3: int, v3: Seq<u64>,
)
    requires
        key_ge(s1, l1, v1, s2, l2, v2),
        key_ge(s2, l2, v2, s3, l3, v3),
    ensures
        key_ge(s1, l1, v1, s3, l3, v3),
{
    if s1 == s2 && s2 == s3 && l1 == l2 && l2 == l3 {
        lemma_lex_le_trans(v1, v2, v3);
    }
}

/// A complete profitable cycle the search found, with its exact score.
#[derive(Clone, Debug)]
pub struct Candidate {
    pub hops: Vec<Hop>,
    pub score: u128,
}

/// A well-formed candidate for a view: a real profitable cycle carrying its
/// own score.
pub open spec fn cand_wf(view: Seq<PoolEdge>, base: Token, max_hops: int, c: Candidate) -> bool {
    is_cycle(view, base, max_hops, c.hops@)
    && c.score as int == path_score(c.hops@)
    && c.score > RATE_UNIT
}

/// The candidate is at least as good as the given cycle under the
/// score-then-hops-then-venues order.
pub open spec fn cand_beats(c: Candidate, hops: Seq<Hop>) -> bool {
    key_ge(
        c.score as int, c.hops@.len() as int, venues_of(c.hops@),
        path_score(hops), hops.len() as int, venues_of(hops),
    )
}

/// `r` covers the cycle: it holds a candidate at least as good.
pub open spec fn covers(r: Option<Candidate>, hops: Seq<Hop>) -> bool {
    match r {
        Some(c) => cand_beats(c, hops),
        None => false,
    }
}

/// `r` is at least as good as the prior best `b`.
pub open spec fn opt_ge(r: Option<Candidate>, b: Option<Candidate>) -> bool {
    match b {
        None => true,
        Some(bc) => covers(r, bc.hops@),
    }
}

/// `p` is a strict prefix of `full`.
pub open spec fn prefix_of(p: Seq<Hop>, full: Seq<Hop>) -> bool {
    p.len() < full.len() && full.subrange(0, p.len() as int) == p
}

/// Whatever the search returns is real: the prior best, or a profitable
/// cycle extending the current path.
pub open spec fn achieved(
    view: Seq<PoolEdge>, base: Token, max_hops: int,
    r: Option<Candidate>, best: Option<Candidate>, p: Seq<Hop>,
) -> bool {
    match r {
        None => true,
        Some(c) => best == Some(c)
            || (cand_wf(view, base, max_hops, c) && prefix_of(p, c.hops@)),
    }
}

pub proof fn lemma_opt_ge_refl(b: Option<Candidate>)
    requires
        match b {
            Some(bc) => bc.score as int == path_score(bc.hops@),
            None => true,
        },
    ensures
        opt_ge(b, b),
{
    match b {
        Some(bc) => {
            lemma_key_ge_refl(bc.score as int, bc.hops@.len() as int, venues_of(bc.hops@));
        }
        None => {}
    }
}

/// Covering carries across "at least as good": if `r` is at least as good
/// as `m` and `m` beats a cycle, `r` beats it too.
pub proof fn lemma_covers_step(r: Option<Candidate>, m: Candidate, full: Seq<Hop>)
    requires
        opt_ge(r, Some(m)),
        cand_beats(m, full),
        m.score as int == path_score(m.hops@),
    ensures
        covers(r, full),
{
    match r {
        Some(c) => {
            lemma_key_ge_trans(
                c.score as int, c.hops@.len() as int, venues_of(c.hops@),
                m.score as int, m.hops@.len() as int, venues_of(m.hops@),
                path_score(full), full.len() as int, venues_of(full),
            );
        }
        None => {
            assert(false);
        }
    }
}

pub proof fn lemma_opt_ge_trans(r: Option<Candidate>, m: Option<Candidate>, b: Option<Candidate>)
    requires
        opt_ge(r, m),
        opt_ge(m, b),
        match m {
            Some(mc) => mc.score as int == path_score(mc.hops@),
            None => true,
        },
    ensures
        opt_ge(r, b),
{
    match b {
        Some(bc) => {
            match m {
                Some(mc) => {
                    lemma_covers_step(r, mc, bc.hops@);
                }
                None => {}
            }
        }
        None => {}
    }
}

/// Appending one hop scores by one step.
pub proof fn lemma_path_score_push(p: Seq<Hop>, h: Hop)
    ensures
        path_score(p.push(h)) == score_step(path_score(p), h),
{
    assert(p.push(h).drop_last() =~= p);
    assert(p.push(h).last() == h);
}

/// Once the accumulator floors to zero it stays zero: a zero-scored path
/// cannot extend into a profitable cycle, which justifies pruning it.
pub proof fn lemma_zero_path_stays_zero(p: Seq<Hop>, full: Seq<Hop>)
    requires
        path_score(p) == 0,
        hops_wf(full),
        p.len() <= full.len(),
        full.subrange(0, p.len() as int) == p,
    ensures
        path_score(full) == 0,
    decreases full.len(),
{
    if full.len() == p.len() {
        assert(full =~= p);
    } else {
        let fprev = full.drop_last();
        assert(hops_wf(fprev));
        assert(fprev.subrange(0, p.len() as int) =~= p);
        lemma_zero_path_stays_zero(p, fprev);
        let h = full.last();
        assert(edge_wf(h.edge) && edge_usable(h.edge));
        assert(0 * rate_num(h) == 0) by (nonlinear_arith) {}
        assert(1 <= rate_den(h)) by (nonlinear_arith)
            requires
                1 <= hop_r_in(h),
                rate_den(h) == (FEE_DENOM as int) * hop_r_in(h),
        {}
        assert(0int / rate_den(h) == 0) by {
            vstd::arithmetic::div_mod::lemma_div_of0(rate_den(h));
        }
    }
}

/// A cycle's hops are all well formed and usable, because they come from a
/// well-formed view.
pub proof fn lemma_cycle_hops_wf(view: Seq<PoolEdge>, base: Token, max_hops: int, full: Seq<Hop>)
    requires
        view_wf(view),
        is_cycle(view, base, max_hops, full),
    ensures
        hops_wf(full),
{
    assert forall|i: int| 0 <= i < full.len()
        implies edge_wf(#[trigger] full[i].edge) && edge_usable(full[i].edge) by {
        if i < full.len() - 1 {
            assert(hop_in_view(view, full.drop_last()[i]));
            assert(full.drop_last()[i] == full[i]);
        } else {
            assert(hop_in_view(view, full.last()));
        }
        let j = choose|j: int| 0 <= j < view.len() && view[j] == full[i].edge;
        assert(edge_wf(view[j]) && edge_usable(view[j]));
    }
}

/// Executable destination of a hop.
pub fn hop_dst_x(h: Hop) -> (t: Token)
    ensures
        t == hop_dst(h),
{
    if h.a_to_b { h.edge.token_b } else { h.edge.token_a }
}

/// Executable source of a hop.
pub fn hop_src_x(h: Hop) -> (t: Token)
    ensures
        t == hop_src(h),
{
    if h.a_to_b { h.edge.token_a } else { h.edge.token_b }
}

/// Executable scoring step, exact against `score_step`.
pub fn score_step_x(acc: u128, h: Hop) -> (r: u128)
    requires
        acc <= ACC_CAP,
        edge_wf(h.edge),
        edge_usable(h.edge),
    ensures
        r as int == score_step(acc as int, h),
        r <= ACC_CAP,
{
    let k: u128 = (FEE_DENOM - h.edge.fee_bps as u64) as u128;
    let r_out: u128 = (if h.a_to_b { h.edge.reserve_b } else { h.edge.reserve_a }) as u128;
    let r_in: u128 = (if h.a_to_b { h.edge.reserve_a } else { h.edge.reserve_b }) as u128;
    proof {
        assert(k as int * r_out as int <= 10000 * (crate::model::RESERVE_CAP as int)
            && acc as int * (k as int * r_out as int)
                <= (ACC_CAP as int) * (10000 * (crate::model::RESERVE_CAP as int))
            && 0 <= acc as int * (k as int * r_out as int)
            && 1 <= (FEE_DENOM as int) * (r_in as int)
            && (FEE_DENOM as int) * (r_in as int) <= 10000 * (crate::model::RESERVE_CAP as int))
            by (nonlinear_arith)
            requires
                0 < k as int <= 10000,
                1 <= r_out as int <= crate::model::RESERVE_CAP as int,
                1 <= r_in as int <= crate::model::RESERVE_CAP as int,
                0 <= acc as int <= ACC_CAP as int,
                FEE_DENOM as int == 10000,
        {}
    }
    let num: u128 = k * r_out;
    let den: u128 = (FEE_DENOM as u128) * r_in;
    let raw: u128 = (acc * num) / den;
    proof {
        assert(acc as int * num as int == acc as int * rate_num(h)) by (nonlinear_arith)
            requires
                num as int == k as int * r_out as int,
                rate_num(h) == k as int * r_out as int,
        {}
        assert(den as int == rate_den(h));
    }
    if raw > ACC_CAP {
        ACC_CAP
    } else {
        raw
    }
}

/// Copy of a hop path.
fn clone_hops(path: &Vec<Hop>) -> (r: Vec<Hop>)
    ensures
        r@ == path@,
{
    let mut out: Vec<Hop> = Vec::new();
    let mut idx: usize = 0;
    while idx < path.len()
        invariant
            idx <= path@.len(),
            out@ =~= path@.subrange(0, idx as int),
        decreases path@.len() - idx,
    {
        out.push(path[idx]);
        proof {
            assert(out@ =~= path@.subrange(0, idx as int + 1));
        }
        idx += 1;
    }
    proof {
        assert(out@ =~= path@);
    }
    out
}

/// Is the token already a visited destination on the path?
fn on_path(path: &Vec<Hop>, t: Token) -> (r: bool)
    ensures
        r == exists|j: int| 0 <= j < path@.len() && hop_dst(#[trigger] path@[j]) == t,
{
    let mut idx: usize = 0;
    while idx < path.len()
        invariant
            idx <= path@.len(),
            forall|j: int| 0 <= j < idx ==> hop_dst(#[trigger] path@[j]) != t,
        decreases path@.len() - idx,
    {
        let d = hop_dst_x(path[idx]);
        if d == t {
            proof {
                assert(hop_dst(path@[idx as int]) == t);
            }
            return true;
        }
        idx += 1;
    }
    false
}

/// Equal-length lexicographic comparison by venue id.
fn lex_le_x(a: &Vec<Hop>, b: &Vec<Hop>) -> (r: bool)
    requires
        a@.len() == b@.len(),
    ensures
        r == lex_le(venues_of(a@), venues_of(b@)),
{
    let ghost va = venues_of(a@);
    let ghost vb = venues_of(b@);
    proof {
        assert(va.subrange(0, va.len() as int) =~= va);
        assert(vb.subrange(0, vb.len() as int) =~= vb);
    }
    let mut idx: usize = 0;
    while idx < a.len()
        invariant
            idx <= a@.len(),
            a@.len() == b@.len(),
            va == venues_of(a@),
            vb == venues_of(b@),
            va.len() == a@.len() && vb.len() == b@.len(),
            forall|j: int| 0 <= j < idx ==> va[j] == vb[j],
            lex_le(va, vb) == lex_le(
                va.subrange(idx as int, va.len() as int),
                vb.subrange(idx as int, vb.len() as int),
            ),
        decreases a@.len() - idx,
    {
        let x = a[idx].edge.venue_id;
        let y = b[idx].edge.venue_id;
        proof {
            assert(va[idx as int] == x && vb[idx as int] == y);
            let sa = va.subrange(idx as int, va.len() as int);
            let sb = vb.subrange(idx as int, vb.len() as int);
            assert(sa.len() > 0 && sb.len() > 0);
            assert(sa[0] == x && sb[0] == y);
            if x == y {
                assert(sa.subrange(1, sa.len() as int)
                    =~= va.subrange(idx as int + 1, va.len() as int));
                assert(sb.subrange(1, sb.len() as int)
                    =~= vb.subrange(idx as int + 1, vb.len() as int));
            }
        }
        if x < y {
            return true;
        }
        if x > y {
            return false;
        }
        idx += 1;
    }
    proof {
        assert(va.subrange(idx as int, va.len() as int).len() == 0);
    }
    true
}

/// Is candidate `a` at least as good as candidate `b`?
pub fn cand_better_eq(a: &Candidate, b: &Candidate) -> (r: bool)
    ensures
        r == key_ge(
            a.score as int, a.hops@.len() as int, venues_of(a.hops@),
            b.score as int, b.hops@.len() as int, venues_of(b.hops@),
        ),
{
    if a.score > b.score {
        return true;
    }
    if a.score < b.score {
        return false;
    }
    if a.hops.len() < b.hops.len() {
        return true;
    }
    if a.hops.len() > b.hops.len() {
        return false;
    }
    lex_le_x(&a.hops, &b.hops)
}

/// For a cycle strictly extending `p`, the hop at position p.len() chains
/// from the destination of p's last hop.
pub proof fn lemma_next_hop_src(
    view: Seq<PoolEdge>, base: Token, max_hops: int, full: Seq<Hop>, p: Seq<Hop>,
)
    requires
        is_cycle(view, base, max_hops, full),
        prefix_of(p, full),
        p.len() >= 1,
    ensures
        hop_src(full[p.len() as int]) == hop_dst(p[p.len() - 1]),
{
    let d = p.len() as int;
    let dl = full.drop_last();
    assert(p[d - 1] == full.subrange(0, d)[d - 1]);
    assert(full.subrange(0, d)[d - 1] == full[d - 1]);
    if d < full.len() - 1 {
        assert(dl[d - 1] == full[d - 1]);
        assert(dl[d] == full[d]);
        assert(hop_dst(dl[d - 1]) == hop_src(dl[d]));
    } else {
        assert(full[d] == full.last());
        assert(full[full.len() - 2] == full[d - 1]);
        assert(hop_src(full.last()) == hop_dst(full[full.len() - 2]));
    }
}

/// In a cycle strictly extending `p`, the hop at position p.len() either
/// closes the cycle at the base (then it is the last hop) or it moves to a
/// token the path has not visited.
pub proof fn lemma_next_hop_dst(
    view: Seq<PoolEdge>, base: Token, max_hops: int, full: Seq<Hop>, p: Seq<Hop>,
)
    requires
        is_cycle(view, base, max_hops, full),
        prefix_of(p, full),
        p.len() >= 1,
    ensures
        (hop_dst(full[p.len() as int]) == base) == (p.len() == full.len() - 1),
        hop_dst(full[p.len() as int]) != base
            ==> forall|j: int| 0 <= j < p.len()
                ==> hop_dst(#[trigger] p[j]) != hop_dst(full[p.len() as int]),
{
    let d = p.len() as int;
    let dl = full.drop_last();
    if d < full.len() - 1 {
        assert(dl[d] == full[d]);
        assert(hop_dst(dl[d]) != base);
        assert forall|j: int| 0 <= j < d
            implies hop_dst(#[trigger] p[j]) != hop_dst(full[d]) by {
            assert(p[j] == full.subrange(0, d)[j]);
            assert(full.subrange(0, d)[j] == full[j]);
            assert(dl[j] == full[j]);
            assert(hop_dst(dl[j]) != hop_dst(dl[d]));
        }
    } else {
        assert(full[d] == full.last());
        assert(hop_dst(full.last()) == base);
    }
}

/// A cycle that has only its closing hop beyond `p` is exactly `p` plus that hop.
pub proof fn lemma_close_is_push(full: Seq<Hop>, p: Seq<Hop>, h: Hop)
    requires
        prefix_of(p, full),
        full.len() == p.len() + 1,
        full[p.len() as int] == h,
    ensures
        full == p.push(h),
{
    assert forall|k: int| 0 <= k < full.len() implies full[k] == p.push(h)[k] by {
        if k < p.len() {
            assert(full.subrange(0, p.len() as int)[k] == full[k]);
        }
    }
    assert(full =~= p.push(h));
}

/// A cycle extending `p` whose next hop is `h` and which goes on extends
/// `p.push(h)`.
pub proof fn lemma_extend_prefix(full: Seq<Hop>, p: Seq<Hop>, h: Hop)
    requires
        prefix_of(p, full),
        full.len() > p.len() + 1,
        full[p.len() as int] == h,
    ensures
        prefix_of(p.push(h), full),
{
    assert forall|k: int| 0 <= k < p.len() + 1
        implies full.subrange(0, p.len() as int + 1)[k] == p.push(h)[k] by {
        if k < p.len() {
            assert(full.subrange(0, p.len() as int)[k] == full[k]);
        }
    }
    assert(full.subrange(0, p.len() as int + 1) =~= p.push(h));
}

/// Conversely, a cycle extending `p.push(h)` extends `p` with next hop `h`.
pub proof fn lemma_prefix_shrink(p: Seq<Hop>, h: Hop, full: Seq<Hop>)
    requires
        prefix_of(p.push(h), full),
    ensures
        prefix_of(p, full),
        full[p.len() as int] == h,
{
    let q = p.push(h);
    assert forall|k: int| 0 <= k < p.len()
        implies full.subrange(0, p.len() as int)[k] == p[k] by {
        assert(full.subrange(0, q.len() as int)[k] == full[k]);
        assert(full.subrange(0, p.len() as int)[k] == full[k]);
    }
    assert(full.subrange(0, p.len() as int) =~= p);
    assert(full.subrange(0, q.len() as int)[p.len() as int] == full[p.len() as int]);
}

/// Extending a partial path with a fresh, chained, in-view hop keeps it a
/// partial path.
pub proof fn lemma_path_ok_push(view: Seq<PoolEdge>, base: Token, p: Seq<Hop>, h: Hop)
    requires
        path_ok(view, base, p),
        hop_in_view(view, h),
        hop_src(h) == hop_dst(p[p.len() - 1]),
        hop_dst(h) != base,
        forall|j: int| 0 <= j < p.len() ==> hop_dst(#[trigger] p[j]) != hop_dst(h),
    ensures
        path_ok(view, base, p.push(h)),
{
    let q = p.push(h);
    assert(q[0] == p[0]);
    assert forall|i: int| 0 <= i < q.len() implies hop_in_view(view, #[trigger] q[i]) by {
        if i < p.len() {
            assert(q[i] == p[i]);
        }
    }
    assert forall|i: int| 0 <= i < q.len() - 1
        implies hop_dst(#[trigger] q[i]) == hop_src(q[i + 1]) by {
        if i < p.len() - 1 {
            assert(q[i] == p[i] && q[i + 1] == p[i + 1]);
        } else {
            assert(q[i] == p[p.len() - 1] && q[i + 1] == h);
        }
    }
    assert forall|i: int| 0 <= i < q.len() implies hop_dst(#[trigger] q[i]) != base by {
        if i < p.len() {
            assert(q[i] == p[i]);
        }
    }
    assert forall|i: int, j: int| 0 <= i < j < q.len()
        implies hop_dst(#[trigger] q[i]) != hop_dst(#[trigger] q[j]) by {
        if j < p.len() {
            assert(q[i] == p[i] && q[j] == p[j]);
        } else {
            assert(q[i] == p[i] && q[j] == h);
        }
    }
}

/// Closing a partial path with an in-view hop back to the base makes a cycle.
pub proof fn lemma_cycle_close(
    view: Seq<PoolEdge>, base: Token, max_hops: int, p: Seq<Hop>, h: Hop,
)
    requires
        path_ok(view, base, p),
        hop_in_view(view, h),
        hop_src(h) == hop_dst(p[p.len() - 1]),
        hop_dst(h) == base,
        3 <= p.len() + 1 <= max_hops,
    ensures
        is_cycle(view, base, max_hops, p.push(h)),
{
    let q = p.push(h);
    assert(q.drop_last() =~= p);
    assert(q.last() == h);
    assert(q[q.len() - 2] == p[p.len() - 1]);
}

/// Chains two merge steps of the search's "what was returned is real" claim.
pub proof fn lemma_achieved_chain(
    view: Seq<PoolEdge>, base: Token, max_hops: int,
    r: Option<Candidate>, m: Option<Candidate>, b: Option<Candidate>, p: Seq<Hop>,
)
    requires
        achieved(view, base, max_hops, r, m, p),
        achieved(view, base, max_hops, m, b, p),
    ensures
        achieved(view, base, max_hops, r, b, p),
{
}

/// Consider one hop out of the current path: reject it, close a cycle with
/// it, or descend through it. `r` improves on `best` and covers every
/// profitable cycle that extends the path with exactly this hop.
fn step_hop(
    view: &Vec<PoolEdge>,
    base: Token,
    path: &mut Vec<Hop>,
    acc: u128,
    max_hops: usize,
    h: Hop,
    best: Option<Candidate>,
) -> (r: Option<Candidate>)
    requires
        view_wf(view@),
        path_ok(view@, base, old(path)@),
        1 <= old(path)@.len() < max_hops,
        acc as int == path_score(old(path)@),
        acc <= ACC_CAP,
        hop_in_view(view@, h),
        match best {
            Some(b) => cand_wf(view@, base, max_hops as int, b),
            None => true,
        },
    ensures
        final(path)@ == old(path)@,
        opt_ge(r, best),
        achieved(view@, base, max_hops as int, r, best, old(path)@),
        match r {
            Some(c) => cand_wf(view@, base, max_hops as int, c),
            None => true,
        },
        forall|full: Seq<Hop>| #![trigger is_cycle(view@, base, max_hops as int, full)]
            is_cycle(view@, base, max_hops as int, full)
                && prefix_of(old(path)@, full)
                && path_score(full) > RATE_UNIT as int
                && full[old(path)@.len() as int] == h
            ==> covers(r, full),
    decreases (max_hops as int) - (path@.len() as int), 0int,
{
    let ghost p = old(path)@;
    let ghost mh = max_hops as int;
    let d: usize = path.len();
    let cur: Token = hop_dst_x(path[d - 1]);
    let hsrc: Token = hop_src_x(h);
    proof {
        lemma_opt_ge_refl(best);
    }
    if !(hsrc == cur) {
        proof {
            assert forall|full: Seq<Hop>|
                is_cycle(view@, base, mh, full) && prefix_of(p, full)
                    && path_score(full) > RATE_UNIT as int && full[p.len() as int] == h
                implies covers(best, full) by {
                lemma_next_hop_src(view@, base, mh, full, p);
                assert(false);
            }
        }
        return best;
    }
    proof {
        let j = choose|j: int| 0 <= j < view@.len() && view@[j] == h.edge;
        assert(edge_wf(h.edge) && edge_usable(h.edge));
    }
    let acc2: u128 = score_step_x(acc, h);
    proof {
        lemma_path_score_push(p, h);
        assert(acc2 as int == path_score(p.push(h)));
    }
    let hdst: Token = hop_dst_x(h);
    if hdst == base {
        if d + 1 >= 3 && acc2 > RATE_UNIT {
            let mut ch = clone_hops(path);
            ch.push(h);
            let cand = Candidate { hops: ch, score: acc2 };
            proof {
                lemma_cycle_close(view@, base, mh, p, h);
                assert(cand.hops@ == p.push(h));
                assert(cand_wf(view@, base, mh, cand));
                assert(cand.hops@.subrange(0, p.len() as int) =~= p);
                assert(prefix_of(p, cand.hops@));
                assert forall|full: Seq<Hop>|
                    is_cycle(view@, base, mh, full) && prefix_of(p, full)
                        && path_score(full) > RATE_UNIT as int && full[p.len() as int] == h
                    implies full == cand.hops@ by {
                    lemma_next_hop_dst(view@, base, mh, full, p);
                    lemma_close_is_push(full, p, h);
                }
                lemma_key_ge_refl(
                    cand.score as int, cand.hops@.len() as int, venues_of(cand.hops@),
                );
            }
            let take: bool = match &best {
                None => true,
                Some(b) => !cand_better_eq(b, &cand),
            };
            if take {
                proof {
                    match best {
                        Some(b) => {
                            lemma_key_ge_total(
                                b.score as int, b.hops@.len() as int, venues_of(b.hops@),
                                cand.score as int, cand.hops@.len() as int, venues_of(cand.hops@),
                            );
                            assert(b.score as int == path_score(b.hops@));
                            assert(covers(Some(cand), b.hops@));
                        }
                        None => {}
                    }
                }
                return Some(cand);
            } else {
                proof {
                    match &best {
                        Some(b) => {
                            assert(cand_beats(*b, cand.hops@));
                        }
                        None => {
                            assert(false);
                        }
                    }
                }
                return best;
            }
        } else {
            proof {
                assert forall|full: Seq<Hop>|
                    is_cycle(view@, base, mh, full) && prefix_of(p, full)
                        && path_score(full) > RATE_UNIT as int && full[p.len() as int] == h
                    implies covers(best, full) by {
                    lemma_next_hop_dst(view@, base, mh, full, p);
                    lemma_close_is_push(full, p, h);
                    assert(path_score(full) == acc2 as int);
                    assert(full.len() == p.len() + 1);
                    assert(false);
                }
            }
            return best;
        }
    } else {
        if on_path(path, hdst) {
            proof {
                assert forall|full: Seq<Hop>|
                    is_cycle(view@, base, mh, full) && prefix_of(p, full)
                        && path_score(full) > RATE_UNIT as int && full[p.len() as int] == h
                    implies covers(best, full) by {
                    lemma_next_hop_dst(view@, base, mh, full, p);
                    let j = choose|j: int| 0 <= j < p.len() && hop_dst(p[j]) == hdst;
                    assert(hop_dst(p[j]) != hop_dst(full[p.len() as int]));
                    assert(false);
                }
            }
            return best;
        }
        if d + 1 >= max_hops {
            proof {
                assert forall|full: Seq<Hop>|
                    is_cycle(view@, base, mh, full) && prefix_of(p, full)
                        && path_score(full) > RATE_UNIT as int && full[p.len() as int] == h
                    implies covers(best, full) by {
                    lemma_next_hop_dst(view@, base, mh, full, p);
                    assert(full.len() > p.len() + 1);
                    assert(full.len() <= mh);
                    assert(false);
                }
            }
            return best;
        }
        path.push(h);
        proof {
            lemma_path_ok_push(view@, base, p, h);
            assert(path@ == p.push(h));
        }
        let ghost gbest = best;
        let r = explore(view, base, path, acc2, max_hops, best);
        let _popped = path.pop();
        proof {
            assert(path@ =~= p);
            match &r {
                Some(c) => {
                    if gbest != Some(*c) {
                        lemma_prefix_shrink(p, h, c.hops@);
                    }
                }
                None => {}
            }
            assert forall|full: Seq<Hop>|
                is_cycle(view@, base, mh, full) && prefix_of(p, full)
                    && path_score(full) > RATE_UNIT as int && full[p.len() as int] == h
                implies covers(r, full) by {
                lemma_next_hop_dst(view@, base, mh, full, p);
                assert(full.len() > p.len() + 1);
                lemma_extend_prefix(full, p, h);
            }
        }
        return r;
    }
}

/// Exhaustive bounded search below the current path: tries every hop out of
/// the path's head token. Returns the best profitable cycle extending the
/// path, merged with `best`. A path whose accumulator floored to zero is
/// pruned: no extension of it can be profitable.
fn explore(
    view: &Vec<PoolEdge>,
    base: Token,
    path: &mut Vec<Hop>,
    acc: u128,
    max_hops: usize,
    best: Option<Candidate>,
) -> (r: Option<Candidate>)
    requires
        view_wf(view@),
        path_ok(view@, base, old(path)@),
        1 <= old(path)@.len() < max_hops,
        acc as int == path_score(old(path)@),
        acc <= ACC_CAP,
        match best {
            Some(b) => cand_wf(view@, base, max_hops as int, b),
            None => true,
        },
    ensures
        final(path)@ == old(path)@,
        opt_ge(r, best),
        achieved(view@, base, max_hops as int, r, best, old(path)@),
        match r {
            Some(c) => cand_wf(view@, base, max_hops as int, c),
            None => true,
        },
        forall|full: Seq<Hop>| #![trigger is_cycle(view@, base, max_hops as int, full)]
            is_cycle(view@, base, max_hops as int, full)
                && prefix_of(old(path)@, full)
                && path_score(full) > RATE_UNIT as int
            ==> covers(r, full),
    decreases (max_hops as int) - (path@.len() as int), 1int,
{
    let ghost p = old(path)@;
    let ghost mh = max_hops as int;
    if acc == 0 {
        proof {
            lemma_opt_ge_refl(best);
            assert forall|full: Seq<Hop>|
                is_cycle(view@, base, mh, full) && prefix_of(p, full)
                    && path_score(full) > RATE_UNIT as int
                implies covers(best, full) by {
                lemma_cycle_hops_wf(view@, base, mh, full);
                lemma_zero_path_stays_zero(p, full);
                assert(false);
            }
        }
        return best;
    }
    let mut best_now = best;
    let mut i: usize = 0;
    proof {
        lemma_opt_ge_refl(best);
    }
    while i < view.len()
        invariant
            view_wf(view@),
            path_ok(view@, base, p),
            path@ == p,
            p == old(path)@,
            1 <= p.len() < max_hops,
            acc as int == path_score(p),
            acc <= ACC_CAP,
            i <= view@.len(),
            mh == max_hops as int,
            match best_now {
                Some(b) => cand_wf(view@, base, mh, b),
                None => true,
            },
            opt_ge(best_now, best),
            achieved(view@, base, mh, best_now, best, p),
            forall|full: Seq<Hop>| #![trigger is_cycle(view@, base, mh, full)]
                is_cycle(view@, base, mh, full) && prefix_of(p, full)
                    && path_score(full) > RATE_UNIT as int
                    && (exists|j: int| 0 <= j < i && view@[j] == full[p.len() as int].edge)
                ==> covers(best_now, full),
        decreases view@.len() - i,
    {
        let e = view[i];
        proof {
            assert(view@[i as int] == e);
        }
        let ghost b0 = best_now;
        let h1 = Hop { edge: e, a_to_b: true };
        proof {
            assert(hop_in_view(view@, h1));
        }
        best_now = step_hop(view, base, path, acc, max_hops, h1, best_now);
        let ghost b1 = best_now;
        let h2 = Hop { edge: e, a_to_b: false };
        proof {
            assert(hop_in_view(view@, h2));
        }
        best_now = step_hop(view, base, path, acc, max_hops, h2, best_now);
        let ghost b2 = best_now;
        proof {
            lemma_opt_ge_trans(b2, b1, b0);
            lemma_opt_ge_trans(b1, b0, best);
            lemma_opt_ge_trans(b2, b1, best);
            lemma_achieved_chain(view@, base, mh, b2, b1, b0, p);
            lemma_achieved_chain(view@, base, mh, b2, b0, best, p);
            assert forall|full: Seq<Hop>|
                is_cycle(view@, base, mh, full) && prefix_of(p, full)
                    && path_score(full) > RATE_UNIT as int
                    && (exists|j: int| 0 <= j < i + 1 && view@[j] == full[p.len() as int].edge)
                implies covers(b2, full) by {
                let j = choose|j: int|
                    0 <= j < i + 1 && view@[j] == full[p.len() as int].edge;
                let nh = full[p.len() as int];
                if j < i {
                    assert(covers(b0, full));
                    match b0 {
                        Some(c0) => {
                            lemma_covers_step(b1, c0, full);
                            match b1 {
                                Some(c1) => {
                                    lemma_covers_step(b2, c1, full);
                                }
                                None => {
                                    assert(false);
                                }
                            }
                        }
                        None => {
                            assert(false);
                        }
                    }
                } else {
                    assert(nh.edge == e);
                    if nh.a_to_b {
                        assert(nh == h1);
                        assert(covers(b1, full));
                        match b1 {
                            Some(c1) => {
                                lemma_covers_step(b2, c1, full);
                            }
                            None => {
                                assert(false);
                            }
                        }
                    } else {
                        assert(nh == h2);
                        assert(covers(b2, full));
                    }
                }
            }
        }
        i += 1;
    }
    proof {
        assert forall|full: Seq<Hop>|
            is_cycle(view@, base, mh, full) && prefix_of(p, full)
                && path_score(full) > RATE_UNIT as int
            implies covers(best_now, full) by {
            let d = p.len() as int;
            if d < full.len() - 1 {
                assert(full.drop_last()[d] == full[d]);
                assert(hop_in_view(view@, full.drop_last()[d]));
            } else {
                assert(full[d] == full.last());
                assert(hop_in_view(view@, full.last()));
            }
            let j = choose|j: int| 0 <= j < view@.len() && view@[j] == full[d].edge;
            assert(0 <= j < view@.len() && view@[j] == full[d].edge);
        }
    }
    best_now
}

/// All the per-first-hop worker promises: a well-formed result that covers
/// every profitable cycle whose first hop uses the venue at index `i`.
pub open spec fn worker_post(
    view: Seq<PoolEdge>, base: Token, max_hops: int, i: int, r: Option<Candidate>,
) -> bool {
    &&& match r {
        Some(c) => cand_wf(view, base, max_hops, c),
        None => true,
    }
    &&& forall|full: Seq<Hop>| #![trigger is_cycle(view, base, max_hops, full)]
        is_cycle(view, base, max_hops, full) && path_score(full) > RATE_UNIT as int
            && full[0].edge == view[i]
        ==> covers(r, full)
}

/// One search worker: owns the first-hop venue at index `i` and explores
/// both directions of it exhaustively.
pub fn search_worker(view: &Vec<PoolEdge>, base: Token, i: usize, max_hops: usize) -> (r: Option<Candidate>)
    requires
        view_wf(view@),
        i < view@.len(),
        3 <= max_hops,
    ensures
        worker_post(view@, base, max_hops as int, i as int, r),
{
    let ghost mh = max_hops as int;
    let e = view[i];
    proof {
        assert(view@[i as int] == e);
        assert(edge_wf(e) && edge_usable(e));
    }
    let mut best: Option<Candidate> = None;
    let h1 = Hop { edge: e, a_to_b: true };
    let s1: Token = hop_src_x(h1);
    if s1 == base {
        let acc1: u128 = score_step_x(RATE_UNIT, h1);
        let mut path: Vec<Hop> = Vec::new();
        path.push(h1);
        proof {
            assert(hop_in_view(view@, h1));
            assert(path@ =~= Seq::<Hop>::empty().push(h1));
            lemma_path_score_push(Seq::<Hop>::empty(), h1);
            assert(path@[0] == h1);
            assert(hop_dst(h1) != base);
            assert(path_ok(view@, base, path@));
        }
        best = explore(view, base, &mut path, acc1, max_hops, best);
    }
    let ghost g1 = best;
    let h2 = Hop { edge: e, a_to_b: false };
    let s2: Token = hop_src_x(h2);
    if s2 == base {
        let acc2: u128 = score_step_x(RATE_UNIT, h2);
        let mut path: Vec<Hop> = Vec::new();
        path.push(h2);
        proof {
            assert(hop_in_view(view@, h2));
            assert(path@ =~= Seq::<Hop>::empty().push(h2));
            lemma_path_score_push(Seq::<Hop>::empty(), h2);
            assert(path@[0] == h2);
            assert(hop_dst(h2) != base);
            assert(path_ok(view@, base, path@));
        }
        best = explore(view, base, &mut path, acc2, max_hops, best);
    }
    proof {
        assert forall|full: Seq<Hop>|
            is_cycle(view@, base, mh, full) && path_score(full) > RATE_UNIT as int
                && full[0].edge == view@[i as int]
            implies covers(best, full) by {
            let dl = full.drop_last();
            assert(dl[0] == full[0]);
            assert(hop_src(dl[0]) == base);
            let f0 = full[0];
            if f0.a_to_b {
                assert(f0 == h1);
                assert(hop_src(h1) == base);
                assert(full.subrange(0, 1) =~= Seq::<Hop>::empty().push(h1));
                assert(prefix_of(Seq::<Hop>::empty().push(h1), full));
                assert(covers(g1, full));
                match g1 {
                    Some(c1) => {
                        lemma_covers_step(best, c1, full);
                    }
                    None => {
                        assert(false);
                    }
                }
            } else {
                assert(f0 == h2);
                assert(hop_src(h2) == base);
                assert(full.subrange(0, 1) =~= Seq::<Hop>::empty().push(h2));
                assert(prefix_of(Seq::<Hop>::empty().push(h2), full));
                assert(covers(best, full));
            }
        }
    }
    best
}

/// The engine's contract: any result is a real profitable cycle at least as
/// good — under the deterministic score, hop-count, venue-sequence order —
/// as every profitable cycle within the hop bound; `None` means no
/// profitable cycle exists in the view at all.
pub open spec fn search_post(
    view: Seq<PoolEdge>, base: Token, max_hops: int, r: Option<Candidate>,
) -> bool {
    &&& match r {
        Some(c) => cand_wf(view, base, max_hops, c),
        None => true,
    }
    &&& forall|full: Seq<Hop>| #![trigger is_cycle(view, base, max_hops, full)]
        is_cycle(view, base, max_hops, full) && path_score(full) > RATE_UNIT as int
        ==> covers(r, full)
}

/// Merge per-worker results into the globally best candidate.
fn merge_results(
    view: &Vec<PoolEdge>, base: Token, max_hops: usize, results: Vec<Option<Candidate>>,
) -> (r: Option<Candidate>)
    requires
        view_wf(view@),
        3 <= max_hops,
        results@.len() == view@.len(),
        forall|i: int| 0 <= i < results@.len()
            ==> worker_post(view@, base, max_hops as int, i, #[trigger] results@[i]),
    ensures
        search_post(view@, base, max_hops as int, r),
{
    let ghost mh = max_hops as int;
    let mut rem = results;
    let mut best: Option<Candidate> = None;
    while rem.len() > 0
        invariant
            view_wf(view@),
            mh == max_hops as int,
            rem@.len() <= view@.len(),
            forall|i: int| 0 <= i < rem@.len()
                ==> worker_post(view@, base, mh, i, #[trigger] rem@[i]),
            match best {
                Some(b) => cand_wf(view@, base, mh, b),
                None => true,
            },
            forall|full: Seq<Hop>| #![trigger is_cycle(view@, base, mh, full)]
                is_cycle(view@, base, mh, full) && path_score(full) > RATE_UNIT as int
                    && (exists|j: int| rem@.len() <= j < view@.len()
                        && full[0].edge == view@[j])
                ==> covers(best, full),
        decreases rem@.len(),
    {
        let ghost rem0 = rem@;
        let popped = rem.pop();
        let ghost gi = rem@.len() as int;
        let x = match popped {
            Some(x) => x,
            None => {
                proof {
                    assert(false);
                }
                None
            }
        };
        proof {
            assert(x == rem0[gi]);
            assert(worker_post(view@, base, mh, gi, x));
            assert forall|i: int| 0 <= i < rem@.len()
                implies worker_post(view@, base, mh, i, #[trigger] rem@[i]) by {
                assert(rem@[i] == rem0[i]);
            }
        }
        let ghost old_best = best;
        let ghost gx = x;
        best = match (best, x) {
            (None, None) => None,
            (None, Some(c)) => Some(c),
            (Some(b), None) => Some(b),
            (Some(b), Some(c)) => {
                if cand_better_eq(&b, &c) {
                    Some(b)
                } else {
                    Some(c)
                }
            }
        };
        proof {
            lemma_opt_ge_refl(old_best);
            lemma_opt_ge_refl(gx);
            match (old_best, gx) {
                (Some(b), Some(c)) => {
                    lemma_key_ge_total(
                        b.score as int, b.hops@.len() as int, venues_of(b.hops@),
                        c.score as int, c.hops@.len() as int, venues_of(c.hops@),
                    );
                    assert(b.score as int == path_score(b.hops@));
                    assert(c.score as int == path_score(c.hops@));
                    assert(opt_ge(best, old_best) && opt_ge(best, gx));
                }
                _ => {
                    assert(opt_ge(best, old_best) && opt_ge(best, gx));
                }
            }
            assert forall|full: Seq<Hop>|
                is_cycle(view@, base, mh, full) && path_score(full) > RATE_UNIT as int
                    && (exists|j: int| rem@.len() <= j < view@.len()
                        && full[0].edge == view@[j])
                implies covers(best, full) by {
                let j = choose|j: int| rem@.len() <= j < view@.len()
                    && full[0].edge == view@[j];
                if j == gi {
                    assert(covers(gx, full));
                    match gx {
                        Some(c) => {
                            lemma_covers_step(best, c, full);
                        }
                        None => {
                            assert(false);
                        }
                    }
                } else {
                    assert(exists|j2: int| rem0.len() <= j2 < view@.len()
                        && full[0].edge == view@[j2]);
                    assert(covers(old_best, full));
                    match old_best {
                        Some(b) => {
                            lemma_covers_step(best, b, full);
                        }
                        None => {
                            assert(false);
                        }
                    }
                }
            }
        }
    }
    proof {
        assert forall|full: Seq<Hop>|
            is_cycle(view@, base, mh, full) && path_score(full) > RATE_UNIT as int
            implies covers(best, full) by {
            let dl = full.drop_last();
            assert(dl[0] == full[0]);
            assert(hop_in_view(view@, dl[0]));
            let j = choose|j: int| 0 <= j < view@.len() && view@[j] == full[0].edge;
            assert(0 <= j < view@.len() && full[0].edge == view@[j]);
        }
    }
    best
}

/// The Cycle Search Engine, sequential form: exhaustive bounded
/// depth-first search over the view from the base token.
pub fn search_cycles(view: &Vec<PoolEdge>, base: Token, max_hops: usize) -> (r: Option<Candidate>)
    requires
        view_wf(view@),
    ensures
        search_post(view@, base, max_hops as int, r),
{
    if max_hops < 3 {
        return None;
    }
    let mut results: Vec<Option<Candidate>> = Vec::new();
    let mut i: usize = 0;
    while i < view.len()
        invariant
            view_wf(view@),
            3 <= max_hops,
            i <= view@.len(),
            results@.len() == i,
            forall|j: int| 0 <= j < i
                ==> worker_post(view@, base, max_hops as int, j, #[trigger] results@[j]),
        decreases view@.len() - i,
    {
        let x = search_worker(view, base, i, max_hops);
        results.push(x);
        i += 1;
    }
    merge_results(view, base, max_hops, results)
}

/// Relies on rayon's indexed parallel iterator: `map` applies the verified
/// per-index worker to each first-hop index and `collect` returns one result
/// per index, in index order.
#[verifier::external_body]
fn run_workers(view: &Vec<PoolEdge>, base: Token, max_hops: usize) -> (r: Vec<Option<Candidate>>)
    requires
        view_wf(view@),
        3 <= max_hops,
    ensures
        r@.len() == view@.len(),
        forall|i: int| 0 <= i < r@.len()
            ==> worker_post(view@, base, max_hops as int, i, #[trigger] r@[i]),
{
    (0..view.len()).into_par_iter().map(|i| search_worker(view, base, i, max_hops)).collect()
}

/// The Cycle Search Engine, parallel form: the first-hop frontier is
/// partitioned across rayon's workers, each exploring independently, and the
/// partial results merged by the deterministic order. Same contract as the
/// sequential engine.
pub fn search_cycles_parallel(view: &Vec<PoolEdge>, base: Token, max_hops: usize) -> (r: Option<Candidate>)
    requires
        view_wf(view@),
    ensures
        search_post(view@, base, max_hops as int, r),
{
    if max_hops < 3 {
        return None;
    }
    let results = run_workers(view, base, max_hops);
    merge_results(view, base, max_hops, results)
}

/// Worst-case expansion estimate for an exhaustive search at hop bound `h`:
/// at most 2·edges branches at each of `h` levels, saturated at u64::MAX.
pub open spec fn spec_search_work(edges: int, h: int) -> int
    decreases h,
{
    if h <= 0 {
        1
    } else {
        let w = 2 * edges * spec_search_work(edges, h - 1);
        if w > u64::MAX as int {
            u64::MAX as int
        } else {
            w
        }
    }
}

/// Executable saturating form of the work estimate.
fn search_work(edges: u64, h: u64) -> (r: u64)
    ensures
        r as int == spec_search_work(edges as int, h as int),
{
    let mut acc: u64 = 1;
    let mut i: u64 = 0;
    while i < h
        invariant
            i <= h,
            acc as int == spec_search_work(edges as int, i as int),
        decreases h - i,
    {
        proof {
            assert((edges as int) * (acc as int) <= (u64::MAX as int) * (u64::MAX as int))
                by (nonlinear_arith)
                requires
                    0 <= edges as int <= u64::MAX as int,
                    0 <= acc as int <= u64::MAX as int,
            {}
        }
        let w128: u128 = (edges as u128) * (acc as u128);
        let next: u64 = if w128 > (u64::MAX / 2) as u128 {
            u64::MAX
        } else {
            (2 * w128) as u64
        };
        proof {
            let e = edges as int;
            let a = acc as int;
            let x = w128 as int;
            assert(x == e * a);
            assert(2 * e * a == 2 * x) by (nonlinear_arith)
                requires
                    x == e * a,
            {}
            assert(next as int == if 2 * x > u64::MAX as int {
                u64::MAX as int
            } else {
                2 * x
            });
            assert(spec_search_work(e, i as int + 1) == if 2 * x > u64::MAX as int {
                u64::MAX as int
            } else {
                2 * x
            });
        }
        acc = next;
        i += 1;
    }
    acc
}

/// The hop bound the budget affords: the largest `h` between 3 and
/// `max_hops` whose work estimate fits, or 2 when not even 3 hops fit.
pub open spec fn spec_effective_hops(edges: int, max_hops: int, budget: int) -> int
    decreases max_hops,
{
    if max_hops < 3 {
        2
    } else if spec_search_work(edges, max_hops) <= budget {
        max_hops
    } else {
        spec_effective_hops(edges, max_hops - 1, budget)
    }
}

/// The Cycle Search Engine under a deterministic work budget, the engine's
/// degraded-but-bounded mode: rather than cutting a search off mid-way at a
/// wall-clock deadline (which would make results irreproducible), the hop
/// bound is lowered until the worst-case work estimate fits the budget, and
/// that smaller space is searched exhaustively. The flag says whether the
/// search was degraded; a budget too small for even three hops is a timeout
/// with nothing searched.
pub fn search_cycles_budgeted(
    view: &Vec<PoolEdge>, base: Token, max_hops: usize, budget: u64,
) -> (r: Result<(Option<Candidate>, bool), crate::errors::AnalysisError>)
    requires
        view_wf(view@),
    ensures
        ({
            let eh = spec_effective_hops(view@.len() as int, max_hops as int, budget as int);
            match r {
                Ok(p) => {
                    &&& eh >= 3
                    &&& search_post(view@, base, eh, p.0)
                    &&& p.1 == (eh < max_hops as int)
                }
                Err(e) => {
                    &&& e == crate::errors::AnalysisError::SearchTimeout
                    &&& eh < 3
                }
            }
        }),
{
    let edges: u64 = view.len() as u64;
    let mut h: usize = max_hops;
    while h >= 3
        invariant
            view_wf(view@),
            edges as int == view@.len() as int,
            h <= max_hops,
            spec_effective_hops(view@.len() as int, max_hops as int, budget as int)
                == spec_effective_hops(view@.len() as int, h as int, budget as int),
        decreases h,
    {
        let w = search_work(edges, h as u64);
        if w <= budget {
            let found = search_cycles(view, base, h);
            return Ok((found, h < max_hops));
        }
        h -= 1;
    }
    Err(crate::errors::AnalysisError::SearchTimeout)
}

} // verus!
