use vstd::prelude::*;
use crate::errors::AnalysisError;
use crate::model::{
    edge_usable, edge_wf, spec_swap_out, swap_out, PoolEdge, Token, FEE_DENOM, RESERVE_CAP,
};
use crate::store::MarketGraphStore;

verus! {

/// A pending transaction's decoded swap intent, as the external decoder
/// hands it over: plain values only.
#[derive(Clone, Copy, PartialEq, Eq, Structural, Debug)]
pub struct SwapIntent {
    pub venue_id: u64,
    pub token_in: Token,
    pub amount_in: u64,
    pub token_out: Token,
}

/// The venue table a replacement-edge list denotes: a later entry for the
/// same venue overrides an earlier one.
pub open spec fn entries_map(s: Seq<PoolEdge>) -> Map<u64, PoolEdge>
    decreases s.len(),
{
    if s.len() == 0 {
        Map::empty()
    } else {
        entries_map(s.drop_last()).insert(s.last().venue_id, s.last())
    }
}

/// A transaction-scoped, read-only projection of the market graph: a sparse
/// set of replacement edges composed over the base store. Private to the
/// pipeline that created it; the base store is never written.
pub struct Overlay {
    entries: Vec<PoolEdge>,
}

impl View for Overlay {
    type V = Map<u64, PoolEdge>;

    /// The overlay viewed as the venue table it replaces.
    closed spec fn view(&self) -> Map<u64, PoolEdge> {
        entries_map(self.entries@)
    }
}

/// Every replaced edge is filed under its venue, well formed, and usable
/// (projection only ever writes positive post-trade reserves).
pub open spec fn overlay_wf(ov: Overlay) -> bool {
    forall|k: u64| #[trigger] ov@.contains_key(k)
        ==> ov@[k].venue_id == k && edge_wf(ov@[k]) && edge_usable(ov@[k])
}

/// The edge a pipeline sees for a venue: the overlay's replacement if
/// present, else the base store's entry.
pub open spec fn effective_edge(
    stom: Map<u64, PoolEdge>, ovm: Map<u64, PoolEdge>, venue: u64,
) -> Option<PoolEdge> {
    if ovm.contains_key(venue) {
        Some(ovm[venue])
    } else if stom.contains_key(venue) {
        Some(stom[venue])
    } else {
        None
    }
}

/// The intent trades token_a for token_b on this edge.
pub open spec fn intent_forward(e: PoolEdge, intent: SwapIntent) -> bool {
    intent.token_in == e.token_a && intent.token_out == e.token_b
}

/// The intent trades token_b for token_a on this edge.
pub open spec fn intent_backward(e: PoolEdge, intent: SwapIntent) -> bool {
    intent.token_in == e.token_b && intent.token_out == e.token_a
}

/// Cached reserves older than the freshness bound must not be acted on.
pub open spec fn is_stale(e: PoolEdge, now: u64, freshness_bound: u64) -> bool {
    e.updated_at + freshness_bound < now
}

/// The post-trade edge: constant-product output deducted on the out side,
/// input added on the in side.
pub open spec fn spec_apply_swap(e: PoolEdge, intent: SwapIntent) -> PoolEdge {
    if intent_forward(e, intent) {
        let out = spec_swap_out(
            intent.amount_in as int, e.reserve_a as int, e.reserve_b as int, e.fee_bps as int,
        );
        PoolEdge {
            reserve_a: (e.reserve_a + intent.amount_in) as u64,
            reserve_b: (e.reserve_b - out) as u64,
            ..e
        }
    } else {
        let out = spec_swap_out(
            intent.amount_in as int, e.reserve_b as int, e.reserve_a as int, e.fee_bps as int,
        );
        PoolEdge {
            reserve_b: (e.reserve_b + intent.amount_in) as u64,
            reserve_a: (e.reserve_a - out) as u64,
            ..e
        }
    }
}

/// What projecting one intent yields: the replacement edge, or the exact
/// error. Checks run in this order: unknown venue, token mismatch, stale or
/// unusable reserves, out-of-range amount.
pub open spec fn spec_project_edge(
    eff: Option<PoolEdge>, intent: SwapIntent, now: u64, freshness_bound: u64,
) -> Result<PoolEdge, AnalysisError> {
    match eff {
        None => Err(AnalysisError::DecodeError),
        Some(e) => {
            if !intent_forward(e, intent) && !intent_backward(e, intent) {
                Err(AnalysisError::DecodeError)
            } else if is_stale(e, now, freshness_bound) {
                Err(AnalysisError::StaleStateError)
            } else if !edge_usable(e) {
                Err(AnalysisError::StaleStateError)
            } else if intent.amount_in > RESERVE_CAP
                || (intent_forward(e, intent) && e.reserve_a + intent.amount_in > RESERVE_CAP)
                || (intent_backward(e, intent) && e.reserve_b + intent.amount_in > RESERVE_CAP) {
                Err(AnalysisError::DecodeError)
            } else {
                Ok(spec_apply_swap(e, intent))
            }
        }
    }
}

impl Overlay {
    /// The empty overlay: the graph exactly as the store has it.
    pub fn new() -> (r: Overlay)
        ensures
            r@ == Map::<u64, PoolEdge>::empty(),
            overlay_wf(r),
    {
        let r = Overlay { entries: Vec::new() };
        proof {
            assert(r@ =~= Map::<u64, PoolEdge>::empty());
        }
        r
    }

    /// The replacement edge for a venue, if this overlay holds one.
    pub fn get(&self, venue_id: u64) -> (r: Option<PoolEdge>)
        ensures
            r == if self@.contains_key(venue_id) {
                Some(self@[venue_id])
            } else {
                None::<PoolEdge>
            },
    {
        let mut idx: usize = self.entries.len();
        proof {
            assert(self.entries@.subrange(0, idx as int) =~= self.entries@);
        }
        while idx > 0
            invariant
                idx <= self.entries@.len(),
                self@ == entries_map(self.entries@),
                self@.contains_key(venue_id)
                    == entries_map(self.entries@.subrange(0, idx as int)).contains_key(venue_id),
                self@.contains_key(venue_id)
                    ==> self@[venue_id]
                        == entries_map(self.entries@.subrange(0, idx as int))[venue_id],
            decreases idx,
        {
            let e = self.entries[idx - 1];
            proof {
                let pre = self.entries@.subrange(0, idx as int);
                let prev = self.entries@.subrange(0, idx as int - 1);
                assert(pre.drop_last() =~= prev);
                assert(pre.last() == e);
                assert(entries_map(pre) == entries_map(prev).insert(e.venue_id, e));
            }
            if e.venue_id == venue_id {
                return Some(e);
            }
            idx -= 1;
        }
        proof {
            assert(self.entries@.subrange(0, 0) =~= Seq::<PoolEdge>::empty());
            assert(!entries_map(Seq::<PoolEdge>::empty()).contains_key(venue_id));
        }
        None
    }

    /// Record a replacement edge for its venue (later entries win).
    fn put(&mut self, e: PoolEdge)
        ensures
            final(self)@ == old(self)@.insert(e.venue_id, e),
    {
        self.entries.push(e);
        proof {
            assert(self.entries@.drop_last() =~= old(self).entries@);
        }
    }
}

/// The Impact Projector for one decoded intent: resolves the venue through
/// the overlay-composed graph, prices the swap with the exact formula, and
/// extends the overlay with the single post-trade edge. The store is only
/// read; all per-transaction state lives in the overlay.
pub fn project_intent(
    store: &MarketGraphStore,
    ov: Overlay,
    intent: SwapIntent,
    now: u64,
    freshness_bound: u64,
) -> (r: Result<Overlay, AnalysisError>)
    requires
        store.wf(),
        overlay_wf(ov),
    ensures
        match r {
            Ok(ov2) => {
                &&& spec_project_edge(
                    effective_edge(store.venues(), ov@, intent.venue_id),
                    intent, now, freshness_bound,
                ) matches Ok(e2)
                    && ov2@ == ov@.insert(intent.venue_id, e2)
                &&& overlay_wf(ov2)
            }
            Err(err) => spec_project_edge(
                effective_edge(store.venues(), ov@, intent.venue_id),
                intent, now, freshness_bound,
            ) == Err::<PoolEdge, AnalysisError>(err),
        },
{
    let ghost ovm = ov@;
    let eff: Option<PoolEdge> = match ov.get(intent.venue_id) {
        Some(e) => Some(e),
        None => store.get_edge(intent.venue_id),
    };
    let e = match eff {
        Some(e) => e,
        None => {
            return Err(AnalysisError::DecodeError);
        }
    };
    let fwd: bool = intent.token_in == e.token_a && intent.token_out == e.token_b;
    let bwd: bool = intent.token_in == e.token_b && intent.token_out == e.token_a;
    if !fwd && !bwd {
        return Err(AnalysisError::DecodeError);
    }
    let age_limit: u128 = e.updated_at as u128 + freshness_bound as u128;
    if age_limit < now as u128 {
        return Err(AnalysisError::StaleStateError);
    }
    if e.reserve_a == 0 || e.reserve_b == 0 {
        return Err(AnalysisError::StaleStateError);
    }
    proof {
        // the effective edge is well formed: overlay edges by overlay_wf,
        // store edges because a stored edge is well formed or zeroed
        if ovm.contains_key(intent.venue_id) {
            assert(edge_wf(e) && e.venue_id == intent.venue_id);
        } else {
            assert(store.venues().contains_key(intent.venue_id));
            assert(crate::store::stored_ok(e));
            assert(edge_wf(e) && e.venue_id == intent.venue_id);
        }
    }
    if intent.amount_in > RESERVE_CAP {
        return Err(AnalysisError::DecodeError);
    }
    if fwd {
        if e.reserve_a > RESERVE_CAP - intent.amount_in {
            return Err(AnalysisError::DecodeError);
        }
        let out = swap_out(intent.amount_in, e.reserve_a, e.reserve_b, e.fee_bps);
        let e2 = PoolEdge {
            reserve_a: e.reserve_a + intent.amount_in,
            reserve_b: e.reserve_b - out,
            ..e
        };
        proof {
            assert(e2 == spec_apply_swap(e, intent));
        }
        let mut ov2 = ov;
        ov2.put(e2);
        proof {
            assert forall|k: u64| #[trigger] ov2@.contains_key(k)
                implies ov2@[k].venue_id == k && edge_wf(ov2@[k]) && edge_usable(ov2@[k]) by {
                if k != e2.venue_id {
                    assert(ovm.contains_key(k));
                }
            }
        }
        Ok(ov2)
    } else {
        if e.reserve_b > RESERVE_CAP - intent.amount_in {
            return Err(AnalysisError::DecodeError);
        }
        let out = swap_out(intent.amount_in, e.reserve_b, e.reserve_a, e.fee_bps);
        let e2 = PoolEdge {
            reserve_b: e.reserve_b + intent.amount_in,
            reserve_a: e.reserve_a - out,
            ..e
        };
        proof {
            assert(!intent_forward(e, intent));
            assert(e2 == spec_apply_swap(e, intent));
        }
        let mut ov2 = ov;
        ov2.put(e2);
        proof {
            assert forall|k: u64| #[trigger] ov2@.contains_key(k)
                implies ov2@[k].venue_id == k && edge_wf(ov2@[k]) && edge_usable(ov2@[k]) by {
                if k != e2.venue_id {
                    assert(ovm.contains_key(k));
                }
            }
        }
        Ok(ov2)
    }
}

/// What projecting a whole intent list yields, in transaction order: the
/// final overlay table, or the first error.
pub open spec fn spec_project_many(
    stom: Map<u64, PoolEdge>, ovm: Map<u64, PoolEdge>, intents: Seq<SwapIntent>,
    now: u64, freshness_bound: u64,
) -> Result<Map<u64, PoolEdge>, AnalysisError>
    decreases intents.len(),
{
    if intents.len() == 0 {
        Ok(ovm)
    } else {
        match spec_project_edge(
            effective_edge(stom, ovm, intents[0].venue_id), intents[0], now, freshness_bound,
        ) {
            Ok(e2) => spec_project_many(
                stom, ovm.insert(intents[0].venue_id, e2),
                intents.subrange(1, intents.len() as int), now, freshness_bound,
            ),
            Err(err) => Err(err),
        }
    }
}

/// Project a multi-venue transaction: one overlay entry per affected venue,
/// applied in transaction order, starting from a fresh overlay.
pub fn project_many(
    store: &MarketGraphStore,
    intents: &Vec<SwapIntent>,
    now: u64,
    freshness_bound: u64,
) -> (r: Result<Overlay, AnalysisError>)
    requires
        store.wf(),
    ensures
        match r {
            Ok(ov) => {
                &&& spec_project_many(
                    store.venues(), Map::empty(), intents@, now, freshness_bound,
                ) matches Ok(m)
                    && ov@ == m
                &&& overlay_wf(ov)
            }
            Err(err) => spec_project_many(
                store.venues(), Map::empty(), intents@, now, freshness_bound,
            ) matches Err(e2)
                && e2 == err,
        },
{
    let mut ov = Overlay::new();
    let mut idx: usize = 0;
    proof {
        assert(intents@.subrange(0, intents@.len() as int) =~= intents@);
    }
    while idx < intents.len()
        invariant
            store.wf(),
            overlay_wf(ov),
            idx <= intents@.len(),
            spec_project_many(store.venues(), Map::empty(), intents@, now, freshness_bound)
                == spec_project_many(
                    store.venues(), ov@,
                    intents@.subrange(idx as int, intents@.len() as int),
                    now, freshness_bound,
                ),
        decreases intents@.len() - idx,
    {
        let ghost pre = intents@.subrange(idx as int, intents@.len() as int);
        let it = intents[idx];
        proof {
            assert(pre[0] == it);
            assert(pre.subrange(1, pre.len() as int)
                =~= intents@.subrange(idx as int + 1, intents@.len() as int));
        }
        match project_intent(store, ov, it, now, freshness_bound) {
            Ok(ov2) => {
                ov = ov2;
            }
            Err(err) => {
                return Err(err);
            }
        }
        idx += 1;
    }
    proof {
        assert(intents@.subrange(intents@.len() as int, intents@.len() as int).len() == 0);
    }
    Ok(ov)
}

/// Projection is pure: the same store table, overlay table, and intent list
/// always yield the same result — nothing in it depends on shared mutable
/// state or the order of other pipelines.
pub proof fn lemma_projection_deterministic(
    stom: Map<u64, PoolEdge>, ovm: Map<u64, PoolEdge>, intents: Seq<SwapIntent>,
    now: u64, freshness_bound: u64,
    r1: Result<Map<u64, PoolEdge>, AnalysisError>,
    r2: Result<Map<u64, PoolEdge>, AnalysisError>,
)
    requires
        r1 == spec_project_many(stom, ovm, intents, now, freshness_bound),
        r2 == spec_project_many(stom, ovm, intents, now, freshness_bound),
    ensures
        r1 == r2,
{
}

/// What the composed search view contains: a well-formed view holding,
/// for exactly the stored venues whose effective edge is usable, that
/// effective edge — the overlay's replacement where one exists, the base
/// store's entry otherwise.
pub open spec fn compose_post(
    stom: Map<u64, PoolEdge>, ovm: Map<u64, PoolEdge>, view: Seq<PoolEdge>,
) -> bool {
    &&& crate::search::view_wf(view)
    &&& forall|i: int| #![trigger view[i]] 0 <= i < view.len()
        ==> stom.contains_key(view[i].venue_id)
            && effective_edge(stom, ovm, view[i].venue_id) == Some(view[i])
    &&& forall|k: u64| #[trigger] stom.contains_key(k)
        && (effective_edge(stom, ovm, k) matches Some(e) && edge_wf(e) && edge_usable(e))
        ==> exists|i: int| 0 <= i < view.len() && view[i].venue_id == k
}

/// The overlay-composed search view: every usable stored edge, with the
/// overlay's replacement taken where one exists. The result is a
/// well-formed search view.
pub fn compose_view(store: &MarketGraphStore, ov: &Overlay) -> (r: Vec<PoolEdge>)
    requires
        store.wf(),
        overlay_wf(*ov),
    ensures
        compose_post(store.venues(), ov@, r@),
{
    let all = store.edges();
    let mut out: Vec<PoolEdge> = Vec::new();
    let mut idx: usize = 0;
    while idx < all.len()
        invariant
            store.wf(),
            overlay_wf(*ov),
            idx <= all@.len(),
            forall|i: int| #![trigger all@[i]] 0 <= i < all@.len()
                ==> store.venues().contains_key(all@[i].venue_id)
                    && store.venues()[all@[i].venue_id] == all@[i],
            forall|i: int, j: int| 0 <= i < j < all@.len()
                ==> all@[i].venue_id != all@[j].venue_id,
            forall|k: u64| #[trigger] store.venues().contains_key(k)
                ==> exists|i: int| 0 <= i < all@.len() && all@[i].venue_id == k,
            forall|m: int| #![trigger out@[m]] 0 <= m < out@.len()
                ==> store.venues().contains_key(out@[m].venue_id)
                    && effective_edge(store.venues(), ov@, out@[m].venue_id) == Some(out@[m])
                    && edge_wf(out@[m]) && edge_usable(out@[m])
                    && (exists|i: int| 0 <= i < idx && all@[i].venue_id == out@[m].venue_id),
            forall|m1: int, m2: int| 0 <= m1 < m2 < out@.len()
                ==> out@[m1].venue_id != out@[m2].venue_id,
            forall|i: int| #![trigger all@[i]] 0 <= i < idx
                && (effective_edge(store.venues(), ov@, all@[i].venue_id) matches Some(e)
                    && edge_wf(e) && edge_usable(e))
                ==> exists|m: int| 0 <= m < out@.len()
                    && out@[m].venue_id == all@[i].venue_id,
        decreases all@.len() - idx,
    {
        let se = all[idx];
        let eff: PoolEdge = match ov.get(se.venue_id) {
            Some(oe) => oe,
            None => se,
        };
        proof {
            assert(all@[idx as int] == se);
            assert(effective_edge(store.venues(), ov@, se.venue_id) == Some(eff));
            assert(eff.venue_id == se.venue_id);
            if !ov@.contains_key(se.venue_id) {
                assert(crate::store::stored_ok(se));
            }
        }
        if eff.reserve_a >= 1 && eff.reserve_b >= 1 {
            proof {
                assert(edge_usable(eff));
                assert(edge_wf(eff));
                assert forall|m1: int| 0 <= m1 < out@.len()
                    implies out@[m1].venue_id != eff.venue_id by {
                    let i = choose|i: int| 0 <= i < idx
                        && all@[i].venue_id == out@[m1].venue_id;
                    assert(all@[i].venue_id != all@[idx as int].venue_id);
                }
            }
            let ghost out0 = out@;
            out.push(eff);
            proof {
                assert(out@ == out0.push(eff));
                assert forall|i: int| #![trigger all@[i]] 0 <= i < idx + 1
                    && (effective_edge(store.venues(), ov@, all@[i].venue_id) matches Some(e)
                        && edge_wf(e) && edge_usable(e))
                    implies exists|m: int| 0 <= m < out@.len()
                        && out@[m].venue_id == all@[i].venue_id by {
                    if i == idx {
                        assert(out@[out0.len() as int].venue_id == all@[i].venue_id);
                    } else {
                        let m = choose|m: int| 0 <= m < out0.len()
                            && out0[m].venue_id == all@[i].venue_id;
                        assert(out@[m].venue_id == all@[i].venue_id);
                    }
                }
            }
        } else {
            proof {
                assert(!edge_usable(eff));
            }
        }
        idx += 1;
    }
    proof {
        assert forall|k: u64| #[trigger] store.venues().contains_key(k)
            && (effective_edge(store.venues(), ov@, k) matches Some(e)
                && edge_wf(e) && edge_usable(e))
            implies exists|i: int| 0 <= i < out@.len() && out@[i].venue_id == k by {
            let i = choose|i: int| 0 <= i < all@.len() && all@[i].venue_id == k;
            let m = choose|m: int| 0 <= m < out@.len() && out@[m].venue_id == all@[i].venue_id;
            assert(out@[m].venue_id == k);
        }
        assert forall|i: int, j: int| 0 <= i < j < out@.len()
            implies out@[i].venue_id != out@[j].venue_id by {}
    }
    out
}

} // verus!
