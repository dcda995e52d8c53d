use vstd::prelude::*;
use crate::errors::AnalysisError;
use crate::model::{PoolEdge, Token, RESERVE_CAP};
use crate::opportunity::{verify_cycle, verify_post, Opportunity};
use crate::overlay::{compose_post, compose_view, project_many, spec_project_many, SwapIntent};
use crate::search::{lemma_cycle_hops_wf, search_cycles_parallel, search_post, Candidate};
use crate::store::MarketGraphStore;

verus! {

/// A pending transaction's 32-byte hash, packed as two integers.
#[derive(Clone, Copy, PartialEq, Eq, Structural, Debug)]
pub struct TxHash {
    pub hi: u128,
    pub lo: u128,
}

/// How one analysis pipeline ended; one record per observed transaction.
#[derive(Clone, Copy, PartialEq, Eq, Structural, Debug)]
pub enum Outcome {
    NoIntent,
    DecodeError,
    StaleState,
    NoCycle,
    NotProfitable,
    OpportunityFound,
}

/// The structured observability record a completed pipeline emits.
#[derive(Clone, PartialEq, Eq, Debug)]
pub struct AnalysisRecord {
    pub tx_hash: TxHash,
    pub outcome: Outcome,
    pub latency: u64,
    pub opportunity: Option<Opportunity>,
}

/// Per-pipeline configuration: base token, hop bound, the verifier's
/// amount-search bounds, the freshness bound, and the estimated execution
/// cost in profit units.
#[derive(Clone, Copy, PartialEq, Eq, Structural, Debug)]
pub struct AnalysisConfig {
    pub base: Token,
    pub max_hops: usize,
    pub min_amount: u64,
    pub max_amount: u64,
    pub freshness_bound: u64,
    pub est_cost: u64,
}

pub open spec fn config_wf(cfg: AnalysisConfig) -> bool {
    cfg.min_amount <= cfg.max_amount <= RESERVE_CAP
}

/// Projection fails only by rejecting the intent (unknown or mismatched
/// venue) or by refusing stale data; no other error can come out of it.
pub proof fn lemma_project_errors(
    stom: Map<u64, PoolEdge>, ovm: Map<u64, PoolEdge>, intents: Seq<SwapIntent>,
    now: u64, freshness_bound: u64,
)
    ensures
        spec_project_many(stom, ovm, intents, now, freshness_bound) matches Err(e)
            ==> e == AnalysisError::DecodeError || e == AnalysisError::StaleStateError,
    decreases intents.len(),
{
    if intents.len() > 0 {
        match crate::overlay::spec_project_edge(
            crate::overlay::effective_edge(stom, ovm, intents[0].venue_id),
            intents[0], now, freshness_bound,
        ) {
            Ok(e2) => {
                lemma_project_errors(
                    stom, ovm.insert(intents[0].venue_id, e2),
                    intents.subrange(1, intents.len() as int), now, freshness_bound,
                );
            }
            Err(_) => {}
        }
    }
}

/// What the record says once projection has succeeded: there is an
/// overlay-composed view of the store that was really searched, and the
/// outcome reports that search and the verifier's decision exactly.
pub open spec fn analysis_found(
    stom: Map<u64, PoolEdge>, ovm: Map<u64, PoolEdge>, cfg: AnalysisConfig, latency: u64,
    r: AnalysisRecord,
) -> bool {
    exists|view: Seq<PoolEdge>| #[trigger] compose_post(stom, ovm, view) && match r.outcome {
        Outcome::NoCycle => r.opportunity is None
            && search_post(view, cfg.base, cfg.max_hops as int, None::<Candidate>),
        Outcome::NotProfitable => r.opportunity is None
            && exists|c: Candidate|
                #[trigger] search_post(view, cfg.base, cfg.max_hops as int, Some(c))
                && verify_post(c.hops@, cfg.min_amount, cfg.max_amount, cfg.est_cost, latency,
                    Err(AnalysisError::NotProfitable)),
        Outcome::OpportunityFound => r.opportunity matches Some(op)
            && exists|c: Candidate|
                #[trigger] search_post(view, cfg.base, cfg.max_hops as int, Some(c))
                && verify_post(c.hops@, cfg.min_amount, cfg.max_amount, cfg.est_cost, latency,
                    Ok(op)),
        _ => false,
    }
}

/// One complete analysis pipeline: project the decoded intents onto a
/// private overlay, search the overlay-composed graph for the best cycle,
/// re-verify the winner with the exact formula, and emit the observability
/// record. The store is only read; every per-transaction failure stays
/// local to this record.
pub fn analyze(
    store: &MarketGraphStore,
    tx_hash: TxHash,
    intents: &Vec<SwapIntent>,
    cfg: AnalysisConfig,
    now: u64,
    latency: u64,
) -> (r: AnalysisRecord)
    requires
        store.wf(),
        config_wf(cfg),
    ensures
        r.tx_hash == tx_hash,
        r.latency == latency,
        (r.outcome == Outcome::OpportunityFound) == (r.opportunity is Some),
        (intents@.len() == 0) == (r.outcome == Outcome::NoIntent),
        (r.outcome == Outcome::DecodeError) == (intents@.len() > 0
            && spec_project_many(store.venues(), Map::empty(), intents@, now, cfg.freshness_bound)
                == Err::<Map<u64, PoolEdge>, AnalysisError>(AnalysisError::DecodeError)),
        (r.outcome == Outcome::StaleState) == (intents@.len() > 0
            && spec_project_many(store.venues(), Map::empty(), intents@, now, cfg.freshness_bound)
                == Err::<Map<u64, PoolEdge>, AnalysisError>(AnalysisError::StaleStateError)),
        r.opportunity matches Some(op) ==> op.expected_profit > 0 && op.discovery_latency == latency,
        intents@.len() > 0
            ==> (spec_project_many(store.venues(), Map::empty(), intents@, now, cfg.freshness_bound)
                matches Ok(ovm)
                ==> analysis_found(store.venues(), ovm, cfg, latency, r)),
{
    if intents.len() == 0 {
        return AnalysisRecord {
            tx_hash,
            outcome: Outcome::NoIntent,
            latency,
            opportunity: None,
        };
    }
    let ov = match project_many(store, intents, now, cfg.freshness_bound) {
        Ok(ov) => ov,
        Err(err) => {
            proof {
                lemma_project_errors(
                    store.venues(), Map::empty(), intents@, now, cfg.freshness_bound,
                );
            }
            let outcome = match err {
                AnalysisError::DecodeError => Outcome::DecodeError,
                AnalysisError::StaleStateError => Outcome::StaleState,
                _ => {
                    proof {
                        assert(false);
                    }
                    Outcome::DecodeError
                }
            };
            return AnalysisRecord {
                tx_hash,
                outcome,
                latency,
                opportunity: None,
            };
        }
    };
    let view = compose_view(store, &ov);
    let found = search_cycles_parallel(&view, cfg.base, cfg.max_hops);
    let ghost stom = store.venues();
    let ghost ovm = ov@;
    let cand = match found {
        Some(c) => c,
        None => {
            let rec = AnalysisRecord {
                tx_hash,
                outcome: Outcome::NoCycle,
                latency,
                opportunity: None,
            };
            proof {
                assert(compose_post(stom, ovm, view@));
                assert(search_post(view@, cfg.base, cfg.max_hops as int, None::<Candidate>));
                assert(analysis_found(stom, ovm, cfg, latency, rec));
            }
            return rec;
        }
    };
    proof {
        lemma_cycle_hops_wf(view@, cfg.base, cfg.max_hops as int, cand.hops@);
    }
    let ghost gcand = cand;
    match verify_cycle(&cand, cfg.min_amount, cfg.max_amount, cfg.est_cost, latency) {
        Ok(op) => {
            let ghost gop = op;
            let rec = AnalysisRecord {
                tx_hash,
                outcome: Outcome::OpportunityFound,
                latency,
                opportunity: Some(op),
            };
            proof {
                assert(compose_post(stom, ovm, view@));
                assert(search_post(view@, cfg.base, cfg.max_hops as int, Some(gcand)));
                assert(verify_post(gcand.hops@, cfg.min_amount, cfg.max_amount, cfg.est_cost,
                    latency, Ok(gop)));
                assert(analysis_found(stom, ovm, cfg, latency, rec));
            }
            rec
        }
        Err(e) => {
            let rec = AnalysisRecord {
                tx_hash,
                outcome: Outcome::NotProfitable,
                latency,
                opportunity: None,
            };
            proof {
                assert(compose_post(stom, ovm, view@));
                assert(search_post(view@, cfg.base, cfg.max_hops as int, Some(gcand)));
                assert(e == AnalysisError::NotProfitable);
                assert(verify_post(gcand.hops@, cfg.min_amount, cfg.max_amount, cfg.est_cost,
                    latency, Err(AnalysisError::NotProfitable)));
                assert(analysis_found(stom, ovm, cfg, latency, rec));
            }
            rec
        }
    }
}

/// The ingestion gate: a feed disconnect pauses intake and surfaces a fault
/// state instead of crashing the core; a reconnect resumes it. The core
/// never retries the connection itself.
pub struct IngestGate {
    paused: bool,
}

impl IngestGate {
    pub closed spec fn is_paused(self) -> bool {
        self.paused
    }

    pub fn new() -> (r: Self)
        ensures
            !r.is_paused(),
    {
        IngestGate { paused: false }
    }

    /// The external feed dropped: pause ingestion.
    pub fn on_disconnect(&mut self)
        ensures
            final(self).is_paused(),
    {
        self.paused = true;
    }

    /// The external feed is back (possibly after a gap; the freshness bound
    /// guards stale local state): resume ingestion.
    pub fn on_reconnect(&mut self)
        ensures
            !final(self).is_paused(),
    {
        self.paused = false;
    }

    /// May a new transaction enter analysis right now?
    pub fn gate_check(&self) -> (r: Result<(), AnalysisError>)
        ensures
            (r is Ok) == !self.is_paused(),
            r matches Err(e) ==> e == AnalysisError::FeedDisconnected,
    {
        if self.paused {
            Err(AnalysisError::FeedDisconnected)
        } else {
            Ok(())
        }
    }
}

} // verus!
