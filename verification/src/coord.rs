//! The coordinator's view of the controller's collections: the frontiers that
//! the timestamp engine reads.

use crate::frontier::Frontier;
use crate::ids::{map_keys, set_members, CollectionIdBundle, ComputeInstanceId, GlobalId};
use crate::timeline::{
    get_linearized_timeline, needs_linearization, timeline_of, IsolationLevel, QueryWhen,
    Timeline, TimelineContext,
};
use crate::timestamp_selection::{
    as_of_time, candidate_for, determine_timestamp_for, is_determination,
    lemma_serializable_is_later, tracks, AdapterError, Session, TimestampContext,
    TimestampDetermination, TimestampProvider,
};
use std::collections::BTreeMap;
use vstd::prelude::*;

verus! {

/// The frontiers of a storage collection.
pub struct StorageCollectionState {
    /// The capability that came with the collection's creation.
    pub implied_capability: Frontier,
    /// The accumulation of all read capabilities held on the collection.
    pub read_capabilities: Frontier,
    /// The reported write frontier.
    pub write_frontier: Frontier,
}

/// The frontiers of a compute collection.
pub struct ComputeCollectionState {
    /// The read capability of the collection.
    pub read_capability: Frontier,
    /// The read frontier of the collection.
    pub read_frontier: Frontier,
    /// The reported write frontier.
    pub write_frontier: Frontier,
}

/// The collections that the controller tracks, with their frontiers.
pub struct Coordinator {
    /// The storage collections, by id.
    pub storage: BTreeMap<GlobalId, StorageCollectionState>,
    /// The compute collections, by instance and id.
    pub compute: BTreeMap<ComputeInstanceId, BTreeMap<GlobalId, ComputeCollectionState>>,
}

impl Coordinator {
    /// A coordinator that tracks no collection.
    pub fn new() -> (r: Self)
        ensures
            forall|id: GlobalId| !r.tracks_storage(id),
            forall|instance: ComputeInstanceId, id: GlobalId| !r.tracks_compute(instance, id),
    {
        Coordinator { storage: BTreeMap::new(), compute: BTreeMap::new() }
    }

    /// Tracks the storage collection `id` with the given frontiers, in place
    /// of what was tracked under `id` before.
    pub fn insert_storage_collection(&mut self, id: GlobalId, state: StorageCollectionState)
        ensures
            final(self).storage@ == old(self).storage@.insert(id, state),
            final(self).compute@ == old(self).compute@,
    {
        proof {
            broadcast use vstd::std_specs::btree::group_btree_axioms;

        }
        self.storage.insert(id, state);
    }

    /// Tracks the compute collection `id` on `instance` with the given
    /// frontiers, in place of what was tracked there before.
    pub fn insert_compute_collection(
        &mut self,
        instance: ComputeInstanceId,
        id: GlobalId,
        state: ComputeCollectionState,
    )
        ensures
            final(self).storage@ == old(self).storage@,
            final(self).compute@.dom() == old(self).compute@.dom().insert(instance),
            final(self).compute@[instance]@ == (if old(self).compute@.contains_key(instance) {
                old(self).compute@[instance]@
            } else {
                Map::<GlobalId, ComputeCollectionState>::empty()
            }).insert(id, state),
            forall|other: ComputeInstanceId|
                other != instance && old(self).compute@.contains_key(other)
                    ==> final(self).compute@[other] == old(self).compute@[other],
    {
        proof {
            broadcast use vstd::std_specs::btree::group_btree_axioms;

        }
        let mut collections = match self.compute.remove(&instance) {
            Some(collections) => collections,
            None => BTreeMap::new(),
        };
        collections.insert(id, state);
        self.compute.insert(instance, collections);
    }
}

impl TimestampProvider for Coordinator {
    open spec fn tracks_compute(&self, instance: ComputeInstanceId, id: GlobalId) -> bool {
        self.compute@.contains_key(instance) && self.compute@[instance]@.contains_key(id)
    }

    open spec fn tracks_storage(&self, id: GlobalId) -> bool {
        self.storage@.contains_key(id)
    }

    open spec fn compute_read_frontier_of(
        &self,
        instance: ComputeInstanceId,
        id: GlobalId,
    ) -> Option<u64> {
        self.compute@[instance]@[id].read_frontier@
    }

    open spec fn compute_read_capability_of(
        &self,
        instance: ComputeInstanceId,
        id: GlobalId,
    ) -> Option<u64> {
        self.compute@[instance]@[id].read_capability@
    }

    open spec fn compute_write_frontier_of(
        &self,
        instance: ComputeInstanceId,
        id: GlobalId,
    ) -> Option<u64> {
        self.compute@[instance]@[id].write_frontier@
    }

    open spec fn storage_read_capabilities_of(&self, id: GlobalId) -> Option<u64> {
        self.storage@[id].read_capabilities@
    }

    open spec fn storage_implied_capability_of(&self, id: GlobalId) -> Option<u64> {
        self.storage@[id].implied_capability@
    }

    open spec fn storage_write_frontier_of(&self, id: GlobalId) -> Option<u64> {
        self.storage@[id].write_frontier@
    }

    fn compute_read_frontier(&self, instance: ComputeInstanceId, id: GlobalId) -> (r: &Frontier) {
        proof {
            broadcast use vstd::std_specs::btree::group_btree_axioms;

        }
        &self.compute.get(&instance).unwrap().get(&id).unwrap().read_frontier
    }

    fn compute_read_capability(&self, instance: ComputeInstanceId, id: GlobalId) -> (r: &Frontier) {
        proof {
            broadcast use vstd::std_specs::btree::group_btree_axioms;

        }
        &self.compute.get(&instance).unwrap().get(&id).unwrap().read_capability
    }

    fn compute_write_frontier(&self, instance: ComputeInstanceId, id: GlobalId) -> (r: &Frontier) {
        proof {
            broadcast use vstd::std_specs::btree::group_btree_axioms;

        }
        &self.compute.get(&instance).unwrap().get(&id).unwrap().write_frontier
    }

    fn storage_read_capabilities(&self, id: GlobalId) -> (r: &Frontier) {
        proof {
            broadcast use vstd::std_specs::btree::group_btree_axioms;

        }
        &self.storage.get(&id).unwrap().read_capabilities
    }

    fn storage_implied_capability(&self, id: GlobalId) -> (r: &Frontier) {
        proof {
            broadcast use vstd::std_specs::btree::group_btree_axioms;

        }
        &self.storage.get(&id).unwrap().implied_capability
    }

    fn storage_write_frontier(&self, id: GlobalId) -> (r: &Frontier) {
        proof {
            broadcast use vstd::std_specs::btree::group_btree_axioms;

        }
        &self.storage.get(&id).unwrap().write_frontier
    }
}

/// The difference that is reported for a strict serializable query that must
/// wait: by how much its time lies beyond the time that serializable isolation
/// would have chosen, and zero where it does not lie beyond it. None where the
/// query need not wait, runs at another isolation level, has a
/// real-time-recency time, or has no time.
pub open spec fn strict_serializable_gap(
    coordinator: &Coordinator,
    session: &Session,
    id_bundle: &CollectionIdBundle,
    when: QueryWhen,
    timeline_context: &TimelineContext,
    oracle_read_ts: Option<u64>,
    real_time_recency_ts: Option<u64>,
    det: TimestampDetermination,
) -> Option<u64> {
    match det.timestamp_context {
        TimestampContext::TimelineTimestamp { chosen_ts, .. } => {
            if !det.spec_respond_immediately() && session.transaction_isolation
                == IsolationLevel::StrictSerializable && real_time_recency_ts is None
                && as_of_time(when) is Ok {
                let serializable = candidate_for(
                    coordinator,
                    *session,
                    id_bundle,
                    when,
                    as_of_time(when)->Ok_0,
                    *timeline_context,
                    oracle_read_ts,
                    real_time_recency_ts,
                    IsolationLevel::Serializable,
                );
                Some(
                    if chosen_ts >= serializable {
                        (chosen_ts - serializable) as u64
                    } else {
                        0
                    },
                )
            } else {
                None
            }
        },
        TimestampContext::NoTimestamp => None,
    }
}

impl Coordinator {
    /// The timeline whose oracle must be read before the time of a query is
    /// determined: the query's timeline where the read must be linearized
    /// under the session's isolation level, and none otherwise.
    pub fn oracle_read_ts(
        session: &Session,
        timeline_ctx: &TimelineContext,
        when: &QueryWhen,
    ) -> (r: Option<Timeline>)
        ensures
            r == if needs_linearization(session.transaction_isolation, *when, *timeline_ctx) {
                timeline_of(*timeline_ctx)
            } else {
                None
            },
    {
        get_linearized_timeline(session.transaction_isolation, when, timeline_ctx)
    }

    /// Determines the time of a query under the session's isolation level,
    /// and the difference to report for a strict serializable query that must
    /// wait.
    pub fn determine_timestamp(
        &self,
        session: &Session,
        id_bundle: &CollectionIdBundle,
        when: &QueryWhen,
        compute_instance: ComputeInstanceId,
        timeline_context: &TimelineContext,
        oracle_read_ts: Option<u64>,
        real_time_recency_ts: Option<u64>,
    ) -> (r: Result<(TimestampDetermination, Option<u64>), AdapterError>)
        requires
            tracks(self, id_bundle),
            real_time_recency_ts is Some ==> session.real_time_recency
                && session.transaction_isolation == IsolationLevel::StrictSerializable,
        ensures
            is_determination(
                self,
                session,
                id_bundle,
                *when,
                timeline_context,
                oracle_read_ts,
                real_time_recency_ts,
                session.transaction_isolation,
                match r {
                    Ok(found) => Ok(found.0),
                    Err(e) => Err(e),
                },
            ),
            r matches Ok(found) ==> found.1 == strict_serializable_gap(
                self,
                session,
                id_bundle,
                *when,
                timeline_context,
                oracle_read_ts,
                real_time_recency_ts,
                found.0,
            ),
    {
        let isolation_level = session.transaction_isolation;
        let det = match determine_timestamp_for(
            self,
            session,
            id_bundle,
            when,
            compute_instance,
            timeline_context,
            oracle_read_ts,
            real_time_recency_ts,
            isolation_level,
        ) {
            Ok(det) => det,
            Err(e) => {
                return Err(e);
            },
        };
        let strict = match isolation_level {
            IsolationLevel::StrictSerializable => true,
            _ => false,
        };
        let mut gap: Option<u64> = None;
        if !det.respond_immediately() && strict && real_time_recency_ts.is_none() {
            match det.timestamp_context.timestamp() {
                Some(strict_ts) => {
                    proof {
                        lemma_serializable_is_later(
                            *when,
                            as_of_time(*when)->Ok_0,
                            crate::timestamp_selection::since_of(self, id_bundle),
                            crate::timestamp_selection::upper_of(self, id_bundle),
                            timeline_of(*timeline_context) is Some,
                            oracle_read_ts,
                            session.timestamp_oracle_read_ts,
                        );
                    }
                    let serializable_det = match determine_timestamp_for(
                        self,
                        session,
                        id_bundle,
                        when,
                        compute_instance,
                        timeline_context,
                        oracle_read_ts,
                        real_time_recency_ts,
                        IsolationLevel::Serializable,
                    ) {
                        Ok(det) => det,
                        Err(e) => {
                            return Err(e);
                        },
                    };
                    match serializable_det.timestamp_context.timestamp() {
                        Some(serializable_ts) => {
                            gap = Some(strict_ts.saturating_sub(*serializable_ts));
                        },
                        None => {},
                    }
                },
                None => {},
            }
        }
        Ok((det, gap))
    }
}

impl Coordinator {
    /// Whether every collection of the bundle is tracked.
    pub fn tracks_bundle(&self, id_bundle: &CollectionIdBundle) -> (r: bool)
        ensures
            r == tracks(self, id_bundle),
    {
        proof {
            broadcast use vstd::std_specs::btree::group_btree_axioms;

        }
        let storage_ids = set_members(&id_bundle.storage_ids);
        let mut i: usize = 0;
        while i < storage_ids.len()
            invariant
                i <= storage_ids.len(),
                storage_ids@.to_set() == id_bundle.storage_ids@,
                forall|k: int| 0 <= k < i ==> self.tracks_storage(#[trigger] storage_ids@[k]),
            decreases storage_ids.len() - i,
        {
            let id = storage_ids[i];
            if !self.storage.contains_key(&id) {
                proof {
                    assert(storage_ids@.to_set().contains(id));
                    assert(id_bundle.has_storage(id));
                }
                return false;
            }
            i += 1;
        }
        let instances = map_keys(&id_bundle.compute_ids);
        let mut j: usize = 0;
        while j < instances.len()
            invariant
                j <= instances.len(),
                instances@.to_set() == id_bundle.compute_ids@.dom(),
                forall|k: int, id: GlobalId|
                    0 <= k < j && id_bundle.compute_ids@[#[trigger] instances@[k]]@.contains(id)
                        ==> #[trigger] self.tracks_compute(instances@[k], id),
            decreases instances.len() - j,
        {
            let instance = instances[j];
            proof {
                assert(instances@.to_set().contains(instance));
            }
            let ids = set_members(id_bundle.compute_ids.get(&instance).unwrap());
            let collections = self.compute.get(&instance);
            let mut n: usize = 0;
            while n < ids.len()
                invariant
                    n <= ids.len(),
                    id_bundle.compute_ids@.contains_key(instance),
                    ids@.to_set() == id_bundle.compute_ids@[instance]@,
                    collections matches Some(c) ==> self.compute@.contains_key(instance)
                        && self.compute@[instance] == *c,
                    collections is None ==> !self.compute@.contains_key(instance),
                    forall|k: int| 0 <= k < n ==> self.tracks_compute(instance, #[trigger] ids@[k]),
                decreases ids.len() - n,
            {
                let id = ids[n];
                let known = match collections {
                    Some(c) => c.contains_key(&id),
                    None => false,
                };
                if !known {
                    proof {
                        assert(ids@.to_set().contains(id));
                        assert(id_bundle.has_compute(instance, id));
                    }
                    return false;
                }
                n += 1;
            }
            proof {
                assert forall|k: int, id: GlobalId|
                    0 <= k < j + 1 && id_bundle.compute_ids@[#[trigger] instances@[k]]@.contains(
                        id,
                    ) implies #[trigger] self.tracks_compute(instances@[k], id) by {
                    if k == j {
                        assert(ids@.to_set().contains(id));
                        let m = choose|m: int| 0 <= m < ids@.len() && ids@[m] == id;
                        assert(self.tracks_compute(instance, ids@[m]));
                    }
                }
            }
            j += 1;
        }
        proof {
            assert forall|id: GlobalId| #[trigger] id_bundle.has_storage(id) implies self.tracks_storage(
                id,
            ) by {
                assert(storage_ids@.to_set().contains(id));
                let k = choose|k: int| 0 <= k < storage_ids@.len() && storage_ids@[k] == id;
                assert(self.tracks_storage(storage_ids@[k]));
            }
            assert forall|instance: ComputeInstanceId, id: GlobalId| #[trigger]
                id_bundle.has_compute(instance, id) implies self.tracks_compute(instance, id) by {
                assert(instances@.to_set().contains(instance));
                let k = choose|k: int| 0 <= k < instances@.len() && instances@[k] == instance;
                assert(self.tracks_compute(instances@[k], id));
            }
        }
        true
    }
}

} // verus!
