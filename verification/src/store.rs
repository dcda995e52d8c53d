use vstd::prelude::*;
use crate::model::{edge_wf, PoolEdge, Token};

verus! {

#[verifier::external_type_specification]
#[verifier::external_body]
#[verifier::reject_recursive_types(K)]
#[verifier::reject_recursive_types(V)]
#[verifier::reject_recursive_types(S)]
pub struct ExDashMap<K, V, S>(dashmap::DashMap<K, V, S>);

/// The venue table a concurrent map holds: venue id to pool edge.
pub uninterp spec fn venue_table(m: dashmap::DashMap<u64, PoolEdge>) -> Map<u64, PoolEdge>;

/// Relies on dashmap::DashMap::new: creates an empty map.
#[verifier::external_body]
fn dm_new_store() -> (r: MarketGraphStore)
    ensures
        r@ =~= Map::empty(),
{
    MarketGraphStore { inner: dashmap::DashMap::new() }
}

/// Relies on dashmap::DashMap::insert: maps the key to the value, replacing
/// any previous entry and leaving every other venue's entry as it was.
#[verifier::external_body]
fn dm_insert(m: &mut dashmap::DashMap<u64, PoolEdge>, k: u64, v: PoolEdge)
    ensures
        venue_table(*final(m)) == venue_table(*old(m)).insert(k, v),
{
    m.insert(k, v);
}

/// Relies on dashmap::DashMap::get: returns the entry under the key, if any.
#[verifier::external_body]
fn dm_get(m: &dashmap::DashMap<u64, PoolEdge>, k: u64) -> (r: Option<PoolEdge>)
    ensures
        r == if venue_table(*m).contains_key(k) {
            Some(venue_table(*m)[k])
        } else {
            None::<PoolEdge>
        },
{
    match m.get(&k) {
        Some(entry) => Some(*entry.value()),
        None => None,
    }
}

/// Relies on dashmap::DashMap::iter: yields each entry exactly once; the
/// order is not fixed, so nothing is said of it.
#[verifier::external_body]
fn dm_items(m: &dashmap::DashMap<u64, PoolEdge>) -> (r: Vec<(u64, PoolEdge)>)
    ensures
        forall|i: int| #![trigger r@[i]] 0 <= i < r@.len()
            ==> venue_table(*m).contains_key(r@[i].0) && venue_table(*m)[r@[i].0] == r@[i].1,
        forall|i: int, j: int| 0 <= i < j < r@.len() ==> r@[i].0 != r@[j].0,
        forall|k: u64| #[trigger] venue_table(*m).contains_key(k)
            ==> exists|i: int| 0 <= i < r@.len() && r@[i].0 == k,
{
    let mut out = Vec::new();
    for entry in m.iter() {
        out.push((*entry.key(), *entry.value()));
    }
    out
}

/// An edge the store will keep as-is; anything else is stored with zeroed
/// reserves, which keeps the venue known but excluded from pricing.
pub open spec fn stored_ok(e: PoolEdge) -> bool {
    edge_wf(e) || (e.reserve_a == 0 && e.reserve_b == 0)
}

/// How an incoming update is admitted: well-formed edges verbatim; an
/// internally inconsistent one is marked unusable by zeroing its reserves.
pub open spec fn spec_normalize(e: PoolEdge) -> PoolEdge {
    if edge_wf(e) {
        e
    } else {
        PoolEdge { reserve_a: 0, reserve_b: 0, ..e }
    }
}

/// Does the edge touch the token?
pub open spec fn incident(e: PoolEdge, t: Token) -> bool {
    e.token_a == t || e.token_b == t
}

/// The live market graph: a concurrent venue table. Writes are serialized
/// per venue by the shard that owns it and readers never take a global lock
/// (both are the backing map's discipline); only the confirmed-state feed
/// path calls `upsert`, analysis pipelines only read.
pub struct MarketGraphStore {
    inner: dashmap::DashMap<u64, PoolEdge>,
}

impl View for MarketGraphStore {
    type V = Map<u64, PoolEdge>;

    /// The store viewed as the mapping it holds: venue id to pool edge.
    closed spec fn view(&self) -> Map<u64, PoolEdge> {
        venue_table(self.inner)
    }
}

impl MarketGraphStore {
    /// The venues the store currently maps.
    pub open spec fn venues(self) -> Map<u64, PoolEdge> {
        self.view()
    }

    /// Every entry is filed under its own venue id and is either well formed
    /// or marked unusable.
    pub open spec fn wf(self) -> bool {
        forall|k: u64| #[trigger] self.venues().contains_key(k)
            ==> self.venues()[k].venue_id == k && stored_ok(self.venues()[k])
    }

    pub fn new() -> (s: Self)
        ensures
            s.wf(),
            s.venues() == Map::<u64, PoolEdge>::empty(),
    {
        dm_new_store()
    }

    /// Idempotent, last-writer-wins update of one venue. An internally
    /// inconsistent update (fee not below one, equal endpoints, or reserves
    /// past the model cap) is not fatal: the venue is stored with zeroed
    /// reserves, excluding it from search until a good update arrives.
    pub fn upsert(&mut self, edge: PoolEdge)
        requires
            old(self).wf(),
        ensures
            final(self).wf(),
            final(self).venues()
                == old(self).venues().insert(edge.venue_id, spec_normalize(edge)),
    {
        let ok = (edge.fee_bps as u64) < crate::model::FEE_DENOM
            && !(edge.token_a == edge.token_b)
            && edge.reserve_a <= crate::model::RESERVE_CAP
            && edge.reserve_b <= crate::model::RESERVE_CAP;
        proof {
            assert(ok == edge_wf(edge));
        }
        let stored = if ok {
            edge
        } else {
            PoolEdge { reserve_a: 0, reserve_b: 0, ..edge }
        };
        proof {
            assert(stored == spec_normalize(edge));
        }
        dm_insert(&mut self.inner, edge.venue_id, stored);
        proof {
            assert forall|k2: u64| #[trigger] self.venues().contains_key(k2)
                implies self.venues()[k2].venue_id == k2 && stored_ok(self.venues()[k2]) by {
                if k2 == edge.venue_id {
                    assert(self.venues()[k2] == stored);
                } else {
                    assert(old(self).venues().contains_key(k2));
                    assert(self.venues()[k2] == old(self).venues()[k2]);
                }
            }
        }
    }

    /// The edge currently stored for a venue, if any.
    pub fn get_edge(&self, venue_id: u64) -> (r: Option<PoolEdge>)
        ensures
            r == if self.venues().contains_key(venue_id) {
                Some(self.venues()[venue_id])
            } else {
                None::<PoolEdge>
            },
    {
        dm_get(&self.inner, venue_id)
    }

    /// A point-in-time copy of every stored edge, one per venue.
    pub fn edges(&self) -> (r: Vec<PoolEdge>)
        requires
            self.wf(),
        ensures
            forall|i: int| #![trigger r@[i]] 0 <= i < r@.len()
                ==> self.venues().contains_key(r@[i].venue_id)
                    && self.venues()[r@[i].venue_id] == r@[i],
            forall|i: int, j: int| 0 <= i < j < r@.len()
                ==> r@[i].venue_id != r@[j].venue_id,
            forall|k: u64| #[trigger] self.venues().contains_key(k)
                ==> exists|i: int| 0 <= i < r@.len() && r@[i].venue_id == k,
    {
        let items = dm_items(&self.inner);
        let mut out: Vec<PoolEdge> = Vec::new();
        let mut idx: usize = 0;
        while idx < items.len()
            invariant
                idx <= items@.len(),
                self.wf(),
                forall|i: int| #![trigger items@[i]] 0 <= i < items@.len()
                    ==> venue_table(self.inner).contains_key(items@[i].0)
                        && venue_table(self.inner)[items@[i].0] == items@[i].1,
                forall|i: int, j: int| 0 <= i < j < items@.len()
                    ==> items@[i].0 != items@[j].0,
                out@.len() == idx,
                forall|j: int| #![trigger out@[j]] 0 <= j < idx
                    ==> out@[j] == items@[j].1 && out@[j].venue_id == items@[j].0,
            decreases items@.len() - idx,
        {
            let (k, e) = items[idx];
            proof {
                assert(items@[idx as int].0 == k && items@[idx as int].1 == e);
                assert(venue_table(self.inner).contains_key(k));
                assert(self.venues().contains_key(k));
                assert(self.venues()[k].venue_id == k);
                assert(e.venue_id == k);
            }
            out.push(e);
            idx += 1;
        }
        proof {
            assert forall|k: u64| #[trigger] self.venues().contains_key(k)
                implies exists|i: int| 0 <= i < out@.len() && out@[i].venue_id == k by {
                let i = choose|i: int| 0 <= i < items@.len() && items@[i].0 == k;
                assert(out@[i].venue_id == items@[i].0);
            }
        }
        out
    }

    /// A point-in-time consistent view of one token's incident edges.
    #[verifier::rlimit(50)]
    pub fn snapshot_neighbors(&self, t: Token) -> (r: Vec<PoolEdge>)
        requires
            self.wf(),
        ensures
            forall|i: int| #![trigger r@[i]] 0 <= i < r@.len()
                ==> self.venues().contains_key(r@[i].venue_id)
                    && self.venues()[r@[i].venue_id] == r@[i]
                    && incident(r@[i], t),
            forall|i: int, j: int| 0 <= i < j < r@.len()
                ==> r@[i].venue_id != r@[j].venue_id,
            forall|k: u64| #[trigger] self.venues().contains_key(k) && incident(self.venues()[k], t)
                ==> exists|i: int| 0 <= i < r@.len() && r@[i].venue_id == k,
    {
        let all = self.edges();
        let mut out: Vec<PoolEdge> = Vec::new();
        let mut idx: usize = 0;
        while idx < all.len()
            invariant
                idx <= all@.len(),
                forall|i: int| #![trigger all@[i]] 0 <= i < all@.len()
                    ==> self.venues().contains_key(all@[i].venue_id)
                        && self.venues()[all@[i].venue_id] == all@[i],
                forall|i: int, j: int| 0 <= i < j < all@.len()
                    ==> all@[i].venue_id != all@[j].venue_id,
                forall|k: u64| #[trigger] self.venues().contains_key(k)
                    ==> exists|i: int| 0 <= i < all@.len() && all@[i].venue_id == k,
                forall|m: int| #![trigger out@[m]] 0 <= m < out@.len()
                    ==> exists|i: int| 0 <= i < idx && out@[m] == all@[i],
                forall|m: int| #![trigger out@[m]] 0 <= m < out@.len()
                    ==> self.venues().contains_key(out@[m].venue_id)
                        && self.venues()[out@[m].venue_id] == out@[m]
                        && incident(out@[m], t),
                forall|i: int| #![trigger all@[i]] 0 <= i < idx && incident(all@[i], t)
                    ==> exists|m: int| 0 <= m < out@.len() && out@[m] == all@[i],
                forall|m1: int, m2: int| 0 <= m1 < m2 < out@.len()
                    ==> out@[m1].venue_id != out@[m2].venue_id,
            decreases all@.len() - idx,
        {
            let e = all[idx];
            proof {
                assert(all@[idx as int] == e);
            }
            if e.token_a == t || e.token_b == t {
                let ghost out0 = out@;
                proof {
                    assert forall|m1: int| 0 <= m1 < out0.len()
                        implies out0[m1].venue_id != e.venue_id by {
                        let i = choose|i: int| 0 <= i < idx && out0[m1] == all@[i];
                        assert(all@[i].venue_id != all@[idx as int].venue_id);
                    }
                }
                out.push(e);
                proof {
                    assert(out@ == out0.push(e));
                    assert forall|i: int| 0 <= i < idx + 1 && incident(all@[i], t)
                        implies exists|m: int| 0 <= m < out@.len() && out@[m] == all@[i] by {
                        if i == idx {
                            assert(out@[out0.len() as int] == all@[i]);
                        } else {
                            let m = choose|m: int| 0 <= m < out0.len() && out0[m] == all@[i];
                            assert(out@[m] == all@[i]);
                        }
                    }
                    assert forall|m: int| #![trigger out@[m]] 0 <= m < out@.len()
                        implies exists|i: int| 0 <= i < idx + 1 && out@[m] == all@[i] by {
                        if m < out0.len() {
                            let i = choose|i: int| 0 <= i < idx && out0[m] == all@[i];
                            assert(out@[m] == all@[i]);
                        } else {
                            assert(out@[m] == all@[idx as int]);
                        }
                    }
                }
            } else {
                proof {
                    assert(!incident(all@[idx as int], t));
                }
            }
            idx += 1;
        }
        proof {
            assert forall|k: u64|
                self.venues().contains_key(k) && incident(self.venues()[k], t)
                implies exists|i: int| 0 <= i < out@.len() && out@[i].venue_id == k by {
                let i = choose|i: int| 0 <= i < all@.len() && all@[i].venue_id == k;
                assert(all@[i] == self.venues()[k]);
                assert(incident(all@[i], t));
                let m = choose|m: int| 0 <= m < out@.len() && out@[m] == all@[i];
                assert(out@[m].venue_id == k);
            }
        }
        out
    }
}

} // verus!
