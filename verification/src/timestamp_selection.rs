//! Choosing the time at which a query reads.
//!
//! Every collection is valid from its `since` and complete up to its `upper`.
//! The engine joins the sinces and unions the uppers of the collections of a
//! query, raises a candidate time as the policy and the isolation level ask,
//! and accepts the candidate if the joined since permits it.

use crate::antichain::later;
use crate::frontier::{
    frontier_join, frontier_less_equal, frontier_meet, time_advanced, Frontier,
};
use crate::ids::{map_keys, set_members, CollectionIdBundle, ComputeInstanceId, GlobalId};
use crate::timeline::{
    get_timeline, timeline_of, AsOfValue, IsolationLevel, QueryWhen, Timeline, TimelineContext,
};
use vstd::prelude::*;

verus! {

/// Whether `r` is the join of `{0}` with every frontier in `frontiers`: empty
/// if one of them is, and else the latest of their times and zero.
pub open spec fn is_join_of(frontiers: Set<Option<u64>>, r: Option<u64>) -> bool {
    match r {
        None => frontiers.contains(None),
        Some(t) => {
            &&& !frontiers.contains(None)
            &&& forall|c: u64| #[trigger] frontiers.contains(Some(c)) ==> c <= t
            &&& (t == 0 || frontiers.contains(Some(t)))
        },
    }
}

/// Whether `r` is the union of the frontiers in `frontiers`, reduced: empty if
/// all of them are, and else the earliest of their times.
pub open spec fn is_meet_of(frontiers: Set<Option<u64>>, r: Option<u64>) -> bool {
    match r {
        None => forall|c: u64| !#[trigger] frontiers.contains(Some(c)),
        Some(t) => {
            &&& frontiers.contains(Some(t))
            &&& forall|c: u64| #[trigger] frontiers.contains(Some(c)) ==> t <= c
        },
    }
}

/// The join of a set of frontiers is unique.
pub proof fn lemma_join_unique(frontiers: Set<Option<u64>>, a: Option<u64>, b: Option<u64>)
    requires
        is_join_of(frontiers, a),
        is_join_of(frontiers, b),
    ensures
        a == b,
{
}

/// The reduced union of a set of frontiers is unique.
pub proof fn lemma_meet_unique(frontiers: Set<Option<u64>>, a: Option<u64>, b: Option<u64>)
    requires
        is_meet_of(frontiers, a),
        is_meet_of(frontiers, b),
    ensures
        a == b,
{
}

/// Joining one more frontier in.
pub proof fn lemma_join_step(frontiers: Set<Option<u64>>, r: Option<u64>, f: Option<u64>)
    requires
        is_join_of(frontiers, r),
    ensures
        is_join_of(frontiers.insert(f), frontier_join(r, f)),
{
}

/// Uniting one more frontier in.
pub proof fn lemma_meet_step(frontiers: Set<Option<u64>>, r: Option<u64>, f: Option<u64>)
    requires
        is_meet_of(frontiers, r),
    ensures
        is_meet_of(frontiers.insert(f), frontier_meet(r, f)),
{
}

/// Whether the provider tracks every collection of the bundle.
pub open spec fn tracks<P: TimestampProvider>(p: &P, bundle: &CollectionIdBundle) -> bool {
    &&& forall|id: GlobalId| #[trigger] bundle.has_storage(id) ==> p.tracks_storage(id)
    &&& forall|instance: ComputeInstanceId, id: GlobalId| #[trigger]
        bundle.has_compute(instance, id) ==> p.tracks_compute(instance, id)
}

/// Whether `f` is the read capability of one of the bundle's collections.
pub open spec fn is_read_capability_in<P: TimestampProvider>(
    p: &P,
    bundle: &CollectionIdBundle,
    f: Option<u64>,
) -> bool {
    ||| exists|id: GlobalId| #[trigger]
        bundle.has_storage(id) && p.storage_implied_capability_of(id) == f
    ||| exists|instance: ComputeInstanceId, id: GlobalId| #[trigger]
        bundle.has_compute(instance, id) && p.compute_read_capability_of(instance, id) == f
}

/// Whether `f` is the write frontier of one of the bundle's collections.
pub open spec fn is_write_frontier_in<P: TimestampProvider>(
    p: &P,
    bundle: &CollectionIdBundle,
    f: Option<u64>,
) -> bool {
    ||| exists|id: GlobalId| #[trigger]
        bundle.has_storage(id) && p.storage_write_frontier_of(id) == f
    ||| exists|instance: ComputeInstanceId, id: GlobalId| #[trigger]
        bundle.has_compute(instance, id) && p.compute_write_frontier_of(instance, id) == f
}

/// The read capabilities of the bundle's collections.
pub open spec fn read_capabilities_in<P: TimestampProvider>(
    p: &P,
    bundle: &CollectionIdBundle,
) -> Set<Option<u64>> {
    Set::new(|f: Option<u64>| is_read_capability_in(p, bundle, f))
}

/// The write frontiers of the bundle's collections.
pub open spec fn write_frontiers_in<P: TimestampProvider>(
    p: &P,
    bundle: &CollectionIdBundle,
) -> Set<Option<u64>> {
    Set::new(|f: Option<u64>| is_write_frontier_in(p, bundle, f))
}

/// Read access to the frontiers that the controller holds for each collection.
///
/// Every accessor is a pure read. To ask for a collection that the controller
/// does not track is a fault of the caller.
pub trait TimestampProvider {
    /// Whether the controller tracks the compute collection `id` on `instance`.
    spec fn tracks_compute(&self, instance: ComputeInstanceId, id: GlobalId) -> bool;

    /// Whether the controller tracks the storage collection `id`.
    spec fn tracks_storage(&self, id: GlobalId) -> bool;

    /// The read frontier of a compute collection.
    spec fn compute_read_frontier_of(&self, instance: ComputeInstanceId, id: GlobalId) -> Option<
        u64,
    >;

    /// The read capability of a compute collection.
    spec fn compute_read_capability_of(
        &self,
        instance: ComputeInstanceId,
        id: GlobalId,
    ) -> Option<u64>;

    /// The write frontier of a compute collection.
    spec fn compute_write_frontier_of(&self, instance: ComputeInstanceId, id: GlobalId) -> Option<
        u64,
    >;

    /// The accumulated read capabilities of a storage collection.
    spec fn storage_read_capabilities_of(&self, id: GlobalId) -> Option<u64>;

    /// The capability that a storage collection was given when it was made.
    spec fn storage_implied_capability_of(&self, id: GlobalId) -> Option<u64>;

    /// The write frontier of a storage collection.
    spec fn storage_write_frontier_of(&self, id: GlobalId) -> Option<u64>;

    /// Reports a compute collection's current read frontier.
    fn compute_read_frontier(&self, instance: ComputeInstanceId, id: GlobalId) -> (r: &Frontier)
        requires
            self.tracks_compute(instance, id),
        ensures
            r@ == self.compute_read_frontier_of(instance, id),
    ;

    /// Reports a compute collection's current read capability.
    fn compute_read_capability(&self, instance: ComputeInstanceId, id: GlobalId) -> (r: &Frontier)
        requires
            self.tracks_compute(instance, id),
        ensures
            r@ == self.compute_read_capability_of(instance, id),
    ;

    /// Reports a compute collection's current write frontier.
    fn compute_write_frontier(&self, instance: ComputeInstanceId, id: GlobalId) -> (r: &Frontier)
        requires
            self.tracks_compute(instance, id),
        ensures
            r@ == self.compute_write_frontier_of(instance, id),
    ;

    /// Reports the accumulation of a storage collection's read capabilities.
    fn storage_read_capabilities(&self, id: GlobalId) -> (r: &Frontier)
        requires
            self.tracks_storage(id),
        ensures
            r@ == self.storage_read_capabilities_of(id),
    ;

    /// Reports the capability that came with a storage collection's creation.
    fn storage_implied_capability(&self, id: GlobalId) -> (r: &Frontier)
        requires
            self.tracks_storage(id),
        ensures
            r@ == self.storage_implied_capability_of(id),
    ;

    /// Reports a storage collection's write frontier.
    fn storage_write_frontier(&self, id: GlobalId) -> (r: &Frontier)
        requires
            self.tracks_storage(id),
        ensures
            r@ == self.storage_write_frontier_of(id),
    ;
}

/// The since of a bundle: the join of the read capabilities of its
/// collections with `{0}`.
pub open spec fn since_of<P: TimestampProvider>(p: &P, bundle: &CollectionIdBundle) -> Option<
    u64,
> {
    choose|r: Option<u64>| is_join_of(read_capabilities_in(p, bundle), r)
}

/// The upper of a bundle: the union of the write frontiers of its collections.
pub open spec fn upper_of<P: TimestampProvider>(p: &P, bundle: &CollectionIdBundle) -> Option<
    u64,
> {
    choose|r: Option<u64>| is_meet_of(write_frontiers_in(p, bundle), r)
}

/// The smallest common valid read frontier among the collections of the
/// bundle: the join of their read capabilities.
pub fn least_valid_read<P: TimestampProvider>(
    provider: &P,
    id_bundle: &CollectionIdBundle,
) -> (since: Frontier)
    requires
        tracks(provider, id_bundle),
    ensures
        is_join_of(read_capabilities_in(provider, id_bundle), since@),
        since@ == since_of(provider, id_bundle),
{
    let mut since = Frontier::from_elem(0);
    let ghost mut seen: Set<Option<u64>> = Set::empty();
    let storage_ids = set_members(&id_bundle.storage_ids);
    let mut i: usize = 0;
    while i < storage_ids.len()
        invariant
            i <= storage_ids.len(),
            tracks(provider, id_bundle),
            storage_ids@.to_set() == id_bundle.storage_ids@,
            is_join_of(seen, since@),
            forall|f: Option<u64>|
                seen.contains(f) ==> read_capabilities_in(provider, id_bundle).contains(f),
            forall|k: int|
                0 <= k < i ==> seen.contains(
                    provider.storage_implied_capability_of(#[trigger] storage_ids@[k]),
                ),
        decreases storage_ids.len() - i,
    {
        let id = storage_ids[i];
        proof {
            assert(storage_ids@.to_set().contains(id));
            assert(id_bundle.has_storage(id));
            lemma_join_step(seen, since@, provider.storage_implied_capability_of(id));
            seen = seen.insert(provider.storage_implied_capability_of(id));
        }
        since.join_assign(provider.storage_implied_capability(id));
        i += 1;
    }
    let instances = map_keys(&id_bundle.compute_ids);
    let mut j: usize = 0;
    while j < instances.len()
        invariant
            j <= instances.len(),
            tracks(provider, id_bundle),
            storage_ids@.to_set() == id_bundle.storage_ids@,
            instances@.to_set() == id_bundle.compute_ids@.dom(),
            is_join_of(seen, since@),
            forall|f: Option<u64>|
                seen.contains(f) ==> read_capabilities_in(provider, id_bundle).contains(f),
            forall|k: int|
                0 <= k < storage_ids.len() ==> seen.contains(
                    provider.storage_implied_capability_of(#[trigger] storage_ids@[k]),
                ),
            forall|k: int, id: GlobalId|
                0 <= k < j && id_bundle.compute_ids@[#[trigger] instances@[k]]@.contains(id)
                    ==> seen.contains(
                    #[trigger] provider.compute_read_capability_of(instances@[k], id),
                ),
        decreases instances.len() - j,
    {
        let instance = instances[j];
        proof {
            assert(instances@.to_set().contains(instance));
            broadcast use vstd::std_specs::btree::group_btree_axioms;

        }
        let compute_ids = set_members(id_bundle.compute_ids.get(&instance).unwrap());
        let ghost before = seen;
        let mut n: usize = 0;
        while n < compute_ids.len()
            invariant
                n <= compute_ids.len(),
                tracks(provider, id_bundle),
                id_bundle.compute_ids@.contains_key(instance),
                compute_ids@.to_set() == id_bundle.compute_ids@[instance]@,
                is_join_of(seen, since@),
                forall|f: Option<u64>| before.contains(f) ==> seen.contains(f),
                forall|f: Option<u64>|
                    seen.contains(f) ==> read_capabilities_in(provider, id_bundle).contains(f),
                forall|k: int|
                    0 <= k < n ==> seen.contains(
                        provider.compute_read_capability_of(instance, #[trigger] compute_ids@[k]),
                    ),
            decreases compute_ids.len() - n,
        {
            let id = compute_ids[n];
            proof {
                assert(compute_ids@.to_set().contains(id));
                assert(id_bundle.has_compute(instance, id));
                lemma_join_step(seen, since@, provider.compute_read_capability_of(instance, id));
                seen = seen.insert(provider.compute_read_capability_of(instance, id));
            }
            since.join_assign(provider.compute_read_capability(instance, id));
            n += 1;
        }
        proof {
            assert forall|k: int, id: GlobalId|
                0 <= k < j + 1 && id_bundle.compute_ids@[#[trigger] instances@[k]]@.contains(
                    id,
                ) implies seen.contains(
                #[trigger] provider.compute_read_capability_of(instances@[k], id),
            ) by {
                if k == j {
                    assert(compute_ids@.to_set().contains(id));
                    let m = choose|m: int| 0 <= m < compute_ids@.len() && compute_ids@[m] == id;
                    assert(seen.contains(
                        provider.compute_read_capability_of(instance, compute_ids@[m]),
                    ));
                }
            }
        }
        j += 1;
    }
    proof {
        let all = read_capabilities_in(provider, id_bundle);
        assert forall|f: Option<u64>| all.contains(f) implies seen.contains(f) by {
            if exists|id: GlobalId| #[trigger]
                id_bundle.has_storage(id) && provider.storage_implied_capability_of(id) == f {
                let id = choose|id: GlobalId| #[trigger]
                    id_bundle.has_storage(id) && provider.storage_implied_capability_of(id) == f;
                assert(storage_ids@.to_set().contains(id));
                let k = choose|k: int| 0 <= k < storage_ids@.len() && storage_ids@[k] == id;
                assert(seen.contains(provider.storage_implied_capability_of(storage_ids@[k])));
            } else {
                let (instance, id) = choose|instance: ComputeInstanceId, id: GlobalId| #[trigger]
                    id_bundle.has_compute(instance, id) && provider.compute_read_capability_of(
                        instance,
                        id,
                    ) == f;
                assert(instances@.to_set().contains(instance));
                let k = choose|k: int| 0 <= k < instances@.len() && instances@[k] == instance;
                assert(seen.contains(provider.compute_read_capability_of(instances@[k], id)));
            }
        }
        assert(seen =~= all);
        lemma_join_unique(all, since@, since_of(provider, id_bundle));
    }
    since
}

/// The smallest common valid write frontier among the collections of the
/// bundle: the union of their write frontiers. Times that are not at or beyond
/// it are complete for all of them.
pub fn least_valid_write<P: TimestampProvider>(
    provider: &P,
    id_bundle: &CollectionIdBundle,
) -> (upper: Frontier)
    requires
        tracks(provider, id_bundle),
    ensures
        is_meet_of(write_frontiers_in(provider, id_bundle), upper@),
        upper@ == upper_of(provider, id_bundle),
{
    let mut upper = Frontier::new();
    let ghost mut seen: Set<Option<u64>> = Set::empty();
    let storage_ids = set_members(&id_bundle.storage_ids);
    let mut i: usize = 0;
    while i < storage_ids.len()
        invariant
            i <= storage_ids.len(),
            tracks(provider, id_bundle),
            storage_ids@.to_set() == id_bundle.storage_ids@,
            is_meet_of(seen, upper@),
            forall|f: Option<u64>|
                seen.contains(f) ==> write_frontiers_in(provider, id_bundle).contains(f),
            forall|k: int|
                0 <= k < i ==> seen.contains(
                    provider.storage_write_frontier_of(#[trigger] storage_ids@[k]),
                ),
        decreases storage_ids.len() - i,
    {
        let id = storage_ids[i];
        proof {
            assert(storage_ids@.to_set().contains(id));
            assert(id_bundle.has_storage(id));
            lemma_meet_step(seen, upper@, provider.storage_write_frontier_of(id));
            seen = seen.insert(provider.storage_write_frontier_of(id));
        }
        upper.extend(provider.storage_write_frontier(id));
        i += 1;
    }
    let instances = map_keys(&id_bundle.compute_ids);
    let mut j: usize = 0;
    while j < instances.len()
        invariant
            j <= instances.len(),
            tracks(provider, id_bundle),
            storage_ids@.to_set() == id_bundle.storage_ids@,
            instances@.to_set() == id_bundle.compute_ids@.dom(),
            is_meet_of(seen, upper@),
            forall|f: Option<u64>|
                seen.contains(f) ==> write_frontiers_in(provider, id_bundle).contains(f),
            forall|k: int|
                0 <= k < storage_ids.len() ==> seen.contains(
                    provider.storage_write_frontier_of(#[trigger] storage_ids@[k]),
                ),
            forall|k: int, id: GlobalId|
                0 <= k < j && id_bundle.compute_ids@[#[trigger] instances@[k]]@.contains(id)
                    ==> seen.contains(
                    #[trigger] provider.compute_write_frontier_of(instances@[k], id),
                ),
        decreases instances.len() - j,
    {
        let instance = instances[j];
        proof {
            assert(instances@.to_set().contains(instance));
            broadcast use vstd::std_specs::btree::group_btree_axioms;

        }
        let compute_ids = set_members(id_bundle.compute_ids.get(&instance).unwrap());
        let ghost before = seen;
        let mut n: usize = 0;
        while n < compute_ids.len()
            invariant
                n <= compute_ids.len(),
                tracks(provider, id_bundle),
                id_bundle.compute_ids@.contains_key(instance),
                compute_ids@.to_set() == id_bundle.compute_ids@[instance]@,
                is_meet_of(seen, upper@),
                forall|f: Option<u64>| before.contains(f) ==> seen.contains(f),
                forall|f: Option<u64>|
                    seen.contains(f) ==> write_frontiers_in(provider, id_bundle).contains(f),
                forall|k: int|
                    0 <= k < n ==> seen.contains(
                        provider.compute_write_frontier_of(instance, #[trigger] compute_ids@[k]),
                    ),
            decreases compute_ids.len() - n,
        {
            let id = compute_ids[n];
            proof {
                assert(compute_ids@.to_set().contains(id));
                assert(id_bundle.has_compute(instance, id));
                lemma_meet_step(seen, upper@, provider.compute_write_frontier_of(instance, id));
                seen = seen.insert(provider.compute_write_frontier_of(instance, id));
            }
            upper.extend(provider.compute_write_frontier(instance, id));
            n += 1;
        }
        proof {
            assert forall|k: int, id: GlobalId|
                0 <= k < j + 1 && id_bundle.compute_ids@[#[trigger] instances@[k]]@.contains(
                    id,
                ) implies seen.contains(
                #[trigger] provider.compute_write_frontier_of(instances@[k], id),
            ) by {
                if k == j {
                    assert(compute_ids@.to_set().contains(id));
                    let m = choose|m: int| 0 <= m < compute_ids@.len() && compute_ids@[m] == id;
                    assert(seen.contains(
                        provider.compute_write_frontier_of(instance, compute_ids@[m]),
                    ));
                }
            }
        }
        j += 1;
    }
    proof {
        let all = write_frontiers_in(provider, id_bundle);
        assert forall|f: Option<u64>| all.contains(f) implies seen.contains(f) by {
            if exists|id: GlobalId| #[trigger]
                id_bundle.has_storage(id) && provider.storage_write_frontier_of(id) == f {
                let id = choose|id: GlobalId| #[trigger]
                    id_bundle.has_storage(id) && provider.storage_write_frontier_of(id) == f;
                assert(storage_ids@.to_set().contains(id));
                let k = choose|k: int| 0 <= k < storage_ids@.len() && storage_ids@[k] == id;
                assert(seen.contains(provider.storage_write_frontier_of(storage_ids@[k])));
            } else {
                let (instance, id) = choose|instance: ComputeInstanceId, id: GlobalId| #[trigger]
                    id_bundle.has_compute(instance, id) && provider.compute_write_frontier_of(
                        instance,
                        id,
                    ) == f;
                assert(instances@.to_set().contains(instance));
                let k = choose|k: int| 0 <= k < instances@.len() && instances@[k] == instance;
                assert(seen.contains(provider.compute_write_frontier_of(instances@[k], id)));
            }
        }
        assert(seen =~= all);
        lemma_meet_unique(all, upper@, upper_of(provider, id_bundle));
    }
    upper
}


/// The timeline and time of a read.
#[derive(Debug, PartialEq, Eq)]
pub enum TimestampContext {
    /// The read runs in a timeline, at a time.
    TimelineTimestamp {
        timeline: Timeline,
        /// The time chosen for the read. It lies beyond `oracle_ts` where the
        /// collections cannot yet be read at the oracle's time; the result is
        /// then held back until the oracle has caught up.
        chosen_ts: u64,
        /// The time that the timeline's oracle gave, if it was asked.
        oracle_ts: Option<u64>,
    },
    /// The read runs without a timeline and without a time.
    NoTimestamp,
}

impl Clone for TimestampContext {
    fn clone(&self) -> (r: Self)
        ensures
            r == *self,
    {
        match self {
            TimestampContext::TimelineTimestamp { timeline, chosen_ts, oracle_ts } => {
                TimestampContext::TimelineTimestamp {
                    timeline: timeline.clone(),
                    chosen_ts: *chosen_ts,
                    oracle_ts: *oracle_ts,
                }
            },
            TimestampContext::NoTimestamp => TimestampContext::NoTimestamp,
        }
    }
}

/// The context that a chosen time, the oracle's time and the timeline of the
/// transaction give in a timeline context.
pub open spec fn context_from(
    chosen_ts: u64,
    oracle_ts: Option<u64>,
    transaction_timeline: Option<Timeline>,
    timeline_context: TimelineContext,
) -> TimestampContext {
    match timeline_context {
        TimelineContext::TimelineDependent(timeline) => TimestampContext::TimelineTimestamp {
            timeline,
            chosen_ts,
            oracle_ts,
        },
        TimelineContext::TimestampDependent => TimestampContext::TimelineTimestamp {
            timeline: match transaction_timeline {
                Some(timeline) => timeline,
                None => Timeline::EpochMilliseconds,
            },
            chosen_ts,
            oracle_ts,
        },
        TimelineContext::TimestampIndependent => TimestampContext::NoTimestamp,
    }
}

impl TimestampContext {
    /// Makes a context from a time and a timeline context. Where the context
    /// has a timeline of its own, the transaction's timeline, if there is one,
    /// must be the same.
    pub fn from_timeline_context(
        chosen_ts: u64,
        oracle_ts: Option<u64>,
        transaction_timeline: Option<Timeline>,
        timeline_context: &TimelineContext,
    ) -> (r: TimestampContext)
        requires
            timeline_context matches TimelineContext::TimelineDependent(timeline)
                ==> transaction_timeline matches Some(other) ==> timeline == other,
        ensures
            r == context_from(chosen_ts, oracle_ts, transaction_timeline, *timeline_context),
    {
        match timeline_context {
            TimelineContext::TimelineDependent(timeline) => TimestampContext::TimelineTimestamp {
                timeline: timeline.clone(),
                chosen_ts,
                oracle_ts,
            },
            TimelineContext::TimestampDependent => {
                let timeline = match transaction_timeline {
                    Some(timeline) => timeline,
                    None => Timeline::EpochMilliseconds,
                };
                TimestampContext::TimelineTimestamp { timeline, chosen_ts, oracle_ts }
            },
            TimelineContext::TimestampIndependent => TimestampContext::NoTimestamp,
        }
    }

    /// The timeline of this context, if it has one.
    pub fn timeline(&self) -> (r: Option<&Timeline>)
        ensures
            match *self {
                TimestampContext::TimelineTimestamp { timeline, .. } => r == Some(&timeline),
                TimestampContext::NoTimestamp => r is None,
            },
    {
        match self {
            TimestampContext::TimelineTimestamp { timeline, .. } => Some(timeline),
            TimestampContext::NoTimestamp => None,
        }
    }

    /// The time of this context, if it has one.
    pub fn timestamp(&self) -> (r: Option<&u64>)
        ensures
            match *self {
                TimestampContext::TimelineTimestamp { chosen_ts, .. } => r == Some(&chosen_ts),
                TimestampContext::NoTimestamp => r is None,
            },
    {
        match self {
            TimestampContext::TimelineTimestamp { chosen_ts, .. } => Some(chosen_ts),
            TimestampContext::NoTimestamp => None,
        }
    }

    /// The timeline and the time of this context, if it has them.
    pub fn timeline_timestamp(&self) -> (r: Option<(&Timeline, &u64)>)
        ensures
            match *self {
                TimestampContext::TimelineTimestamp { timeline, chosen_ts, .. } => r == Some(
                    (&timeline, &chosen_ts),
                ),
                TimestampContext::NoTimestamp => r is None,
            },
    {
        match self {
            TimestampContext::TimelineTimestamp { timeline, chosen_ts, .. } => Some(
                (timeline, chosen_ts),
            ),
            TimestampContext::NoTimestamp => None,
        }
    }

    /// The time of this context, and the greatest time where it has none.
    pub open spec fn spec_timestamp_or_default(&self) -> u64 {
        match *self {
            TimestampContext::TimelineTimestamp { chosen_ts, .. } => chosen_ts,
            TimestampContext::NoTimestamp => u64::MAX,
        }
    }

    /// The time of this context, or the greatest time where it has none: what
    /// has no time is closed until the end of time.
    #[verifier::when_used_as_spec(spec_timestamp_or_default)]
    pub fn timestamp_or_default(&self) -> (r: u64)
        ensures
            r == self.spec_timestamp_or_default(),
    {
        match self {
            TimestampContext::TimelineTimestamp { chosen_ts, .. } => *chosen_ts,
            TimestampContext::NoTimestamp => u64::MAX,
        }
    }

    /// Whether the context holds a time.
    pub fn contains_timestamp(&self) -> (r: bool)
        ensures
            r == (*self is TimelineTimestamp),
    {
        self.timestamp().is_some()
    }

    /// The frontier that holds this context's time, or the greatest time.
    pub fn antichain(&self) -> (r: Frontier)
        ensures
            r@ == Some(self.spec_timestamp_or_default()),
    {
        Frontier::from_elem(self.timestamp_or_default())
    }
}

/// A collection whose since does not permit a candidate time.
#[derive(Clone, Copy, Debug, PartialEq, Eq, Structural)]
pub struct InvalidInput {
    /// The collection.
    pub id: GlobalId,
    /// The compute instance that holds it; none for a storage collection.
    pub instance: Option<ComputeInstanceId>,
    /// The time of its since, which is its read capability; none where that
    /// frontier is empty.
    pub since: Option<u64>,
}

/// Why no time could be determined.
#[derive(Debug, PartialEq, Eq)]
pub enum AdapterError {
    /// The expression of the explicit time evaluated to null.
    NullTimestamp,
    /// The expression of the explicit time has a type that is no time; the
    /// error names the type.
    UnsupportedTimestampType(String),
    /// The explicit time is negative or too large.
    TimestampOutOfRange,
    /// The candidate time lies before the since of some collection.
    TimestampNotValid { candidate: u64, invalid: Vec<InvalidInput> },
}

/// The time that an evaluated expression stands for, if it stands for one.
pub open spec fn evaluated(value: AsOfValue) -> Result<u64, AdapterError> {
    match value {
        AsOfValue::Null => Err(AdapterError::NullTimestamp),
        AsOfValue::Unsupported(name) => Err(AdapterError::UnsupportedTimestampType(name)),
        AsOfValue::MzTimestamp(t) => Ok(t),
        AsOfValue::UInt16(v) => Ok(v as u64),
        AsOfValue::UInt32(v) => Ok(v as u64),
        AsOfValue::UInt64(v) => Ok(v),
        AsOfValue::Numeric(v) => if 0 <= v <= u64::MAX {
            Ok(v as u64)
        } else {
            Err(AdapterError::TimestampOutOfRange)
        },
        AsOfValue::Int16(v) => if 0 <= v {
            Ok(v as u64)
        } else {
            Err(AdapterError::TimestampOutOfRange)
        },
        AsOfValue::Int32(v) => if 0 <= v {
            Ok(v as u64)
        } else {
            Err(AdapterError::TimestampOutOfRange)
        },
        AsOfValue::Int64(v) => if 0 <= v {
            Ok(v as u64)
        } else {
            Err(AdapterError::TimestampOutOfRange)
        },
        AsOfValue::TimestampTz(v) => if 0 <= v {
            Ok(v as u64)
        } else {
            Err(AdapterError::TimestampOutOfRange)
        },
        AsOfValue::Timestamp(v) => if 0 <= v {
            Ok(v as u64)
        } else {
            Err(AdapterError::TimestampOutOfRange)
        },
    }
}

/// Turns an evaluated expression into a time: unsigned values as they are,
/// signed values and milliseconds since the epoch where they are not negative.
pub fn evaluate_when(value: AsOfValue) -> (r: Result<u64, AdapterError>)
    ensures
        r == evaluated(value),
{
    match value {
        AsOfValue::Null => Err(AdapterError::NullTimestamp),
        AsOfValue::Unsupported(name) => Err(AdapterError::UnsupportedTimestampType(name)),
        AsOfValue::MzTimestamp(t) => Ok(t),
        AsOfValue::UInt16(v) => Ok(v as u64),
        AsOfValue::UInt32(v) => Ok(v as u64),
        AsOfValue::UInt64(v) => Ok(v),
        AsOfValue::Numeric(v) => if 0 <= v && v <= 18446744073709551615i128 {
            Ok(v as u64)
        } else {
            Err(AdapterError::TimestampOutOfRange)
        },
        AsOfValue::Int16(v) => if 0 <= v {
            Ok(v as u64)
        } else {
            Err(AdapterError::TimestampOutOfRange)
        },
        AsOfValue::Int32(v) => if 0 <= v {
            Ok(v as u64)
        } else {
            Err(AdapterError::TimestampOutOfRange)
        },
        AsOfValue::Int64(v) => if 0 <= v {
            Ok(v as u64)
        } else {
            Err(AdapterError::TimestampOutOfRange)
        },
        AsOfValue::TimestampTz(v) => if 0 <= v {
            Ok(v as u64)
        } else {
            Err(AdapterError::TimestampOutOfRange)
        },
        AsOfValue::Timestamp(v) => if 0 <= v {
            Ok(v as u64)
        } else {
            Err(AdapterError::TimestampOutOfRange)
        },
    }
}

/// The largest time not in advance of a frontier: the time just before the
/// frontier's time, zero where that time is zero, and the greatest time where
/// the frontier is empty.
pub open spec fn largest_not_in_advance_of(upper: Option<u64>) -> u64 {
    match upper {
        Some(t) => if t == 0 {
            0
        } else {
            (t - 1) as u64
        },
        None => u64::MAX,
    }
}

/// The largest time not in advance of `upper`. Times up to it are complete
/// for every collection that `upper` was united from.
pub fn largest_not_in_advance_of_upper(upper: &Frontier) -> (r: u64)
    ensures
        r == largest_not_in_advance_of(upper@),
{
    match upper.as_option() {
        Some(t) => match t.checked_sub(1) {
            Some(before) => before,
            None => 0,
        },
        None => u64::MAX,
    }
}

/// Whether `x` names a collection of the bundle whose since does not permit
/// `candidate`: a collection, of storage or of any compute instance, whose
/// read capability has no time at or below the candidate.
pub open spec fn is_invalid_input<P: TimestampProvider>(
    p: &P,
    bundle: &CollectionIdBundle,
    candidate: u64,
    x: InvalidInput,
) -> bool {
    &&& !frontier_less_equal(x.since, candidate)
    &&& match x.instance {
        Some(instance) => bundle.has_compute(instance, x.id) && x.since
            == p.compute_read_capability_of(instance, x.id),
        None => bundle.has_storage(x.id) && x.since == p.storage_implied_capability_of(x.id),
    }
}

/// What a sequence contains after a push.
pub proof fn lemma_push_contains<T>(s: Seq<T>, a: T)
    ensures
        forall|x: T| s.push(a).contains(x) <==> s.contains(x) || x == a,
{
    assert forall|x: T| s.push(a).contains(x) <==> s.contains(x) || x == a by {
        if s.contains(x) {
            let i = choose|i: int| 0 <= i < s.len() && s[i] == x;
            assert(s.push(a)[i] == x);
        }
        if x == a {
            assert(s.push(a)[s.len() as int] == x);
        }
        if s.push(a).contains(x) {
            let i = choose|i: int| 0 <= i < s.push(a).len() && s.push(a)[i] == x;
            if i < s.len() {
                assert(s[i] == x);
            }
        }
    }
}

/// A push of a new element keeps a sequence free of duplicates.
pub proof fn lemma_push_no_duplicates<T>(s: Seq<T>, a: T)
    requires
        s.no_duplicates(),
        !s.contains(a),
    ensures
        s.push(a).no_duplicates(),
{
    assert forall|i: int, j: int|
        0 <= i < s.push(a).len() && 0 <= j < s.push(a).len() && i != j implies s.push(a)[i]
        != s.push(a)[j] by {
        if i < s.len() && j < s.len() {
        } else if i < s.len() {
            assert(s.contains(s[i]));
        } else {
            assert(s.contains(s[j]));
        }
    }
}

/// The order in which collections that do not permit a time are listed:
/// compute collections before storage collections; compute collections by
/// instance and then by id, storage collections by id.
pub open spec fn listed_before(a: InvalidInput, b: InvalidInput) -> bool {
    match (a.instance, b.instance) {
        (Some(i), Some(j)) => i < j || (i == j && a.id < b.id),
        (Some(_), None) => true,
        (None, Some(_)) => false,
        (None, None) => a.id < b.id,
    }
}

/// Where the since of a bundle does not permit a time, one of its collections
/// does not permit it.
pub proof fn lemma_some_input_is_invalid<P: TimestampProvider>(
    p: &P,
    bundle: &CollectionIdBundle,
    candidate: u64,
    since: Option<u64>,
)
    requires
        is_join_of(read_capabilities_in(p, bundle), since),
        !frontier_less_equal(since, candidate),
    ensures
        exists|x: InvalidInput| is_invalid_input(p, bundle, candidate, x),
{
    let f = since;
    assert(read_capabilities_in(p, bundle).contains(f));
    assert(is_read_capability_in(p, bundle, f));
    if exists|id: GlobalId| #[trigger]
        bundle.has_storage(id) && p.storage_implied_capability_of(id) == f {
        let id = choose|id: GlobalId| #[trigger]
            bundle.has_storage(id) && p.storage_implied_capability_of(id) == f;
        assert(is_invalid_input(p, bundle, candidate, InvalidInput { id, instance: None, since: f }));
    } else {
        let (instance, id) = choose|instance: ComputeInstanceId, id: GlobalId| #[trigger]
            bundle.has_compute(instance, id) && p.compute_read_capability_of(instance, id) == f;
        assert(is_invalid_input(
            p,
            bundle,
            candidate,
            InvalidInput { id, instance: Some(instance), since: f },
        ));
    }
}

/// The collections of the bundle whose sinces do not permit `candidate`,
/// each once: the compute collections first, by instance and id, then the
/// storage collections, by id.
pub fn invalid_inputs<P: TimestampProvider>(
    provider: &P,
    id_bundle: &CollectionIdBundle,
    candidate: u64,
) -> (invalid: Vec<InvalidInput>)
    requires
        tracks(provider, id_bundle),
    ensures
        invalid@.no_duplicates(),
        forall|x: InvalidInput|
            invalid@.contains(x) <==> is_invalid_input(provider, id_bundle, candidate, x),
        forall|a: int, b: int|
            0 <= a < b < invalid@.len() ==> listed_before(invalid@[a], invalid@[b]),
{
    let mut invalid: Vec<InvalidInput> = Vec::new();
    let instances = map_keys(&id_bundle.compute_ids);
    let mut j: usize = 0;
    while j < instances.len()
        invariant
            j <= instances.len(),
            tracks(provider, id_bundle),
            instances@.to_set() == id_bundle.compute_ids@.dom(),
            instances@.no_duplicates(),
            forall|a: int, b: int|
                0 <= a < b < instances@.len() ==> instances@[a] < instances@[b],
            invalid@.no_duplicates(),
            forall|a: int, b: int|
                0 <= a < b < invalid@.len() ==> listed_before(invalid@[a], invalid@[b]),
            forall|a: int| 0 <= a < invalid@.len() ==> (#[trigger] invalid@[a]).instance is Some,
            forall|a: int, k: int|
                0 <= a < invalid@.len() && j <= k < instances@.len() ==> (
                #[trigger] invalid@[a]).instance->Some_0 < #[trigger] instances@[k],
            forall|x: InvalidInput|
                invalid@.contains(x) <==> is_invalid_input(provider, id_bundle, candidate, x)
                    && x.instance is Some && instances@.take(j as int).contains(
                    x.instance->Some_0,
                ),
        decreases instances.len() - j,
    {
        let instance = instances[j];
        proof {
            broadcast use vstd::std_specs::btree::group_btree_axioms;

            assert(instances@.to_set().contains(instance));
            assert(instances@.take(j + 1) =~= instances@.take(j as int).push(instance));
            lemma_push_contains(instances@.take(j as int), instance);
            if instances@.take(j as int).contains(instance) {
                let k = choose|k: int|
                    0 <= k < instances@.take(j as int).len() && instances@.take(j as int)[k]
                        == instance;
                assert(instances@[k] == instances@[j as int]);
            }
        }
        let ids = set_members(id_bundle.compute_ids.get(&instance).unwrap());
        let ghost done = instances@.take(j as int);
        let mut n: usize = 0;
        while n < ids.len()
            invariant
                n <= ids.len(),
                tracks(provider, id_bundle),
                id_bundle.compute_ids@.contains_key(instance),
                ids@.to_set() == id_bundle.compute_ids@[instance]@,
                ids@.no_duplicates(),
                forall|a: int, b: int| 0 <= a < b < ids@.len() ==> ids@[a] < ids@[b],
                !done.contains(instance),
                invalid@.no_duplicates(),
                forall|a: int, b: int|
                    0 <= a < b < invalid@.len() ==> listed_before(invalid@[a], invalid@[b]),
                forall|a: int|
                    0 <= a < invalid@.len() ==> (#[trigger] invalid@[a]).instance is Some
                        && invalid@[a].instance->Some_0 <= instance,
                forall|a: int, k: int|
                    0 <= a < invalid@.len() && n <= k < ids@.len() && (
                    #[trigger] invalid@[a]).instance == Some(instance) ==> invalid@[a].id
                        < #[trigger] ids@[k],
                forall|x: InvalidInput|
                    invalid@.contains(x) <==> is_invalid_input(provider, id_bundle, candidate, x)
                        && x.instance is Some && (done.contains(x.instance->Some_0) || (x.instance
                        == Some(instance) && ids@.take(n as int).contains(x.id))),
            decreases ids.len() - n,
        {
            let id = ids[n];
            let ghost before = invalid@;
            proof {
                assert(ids@.to_set().contains(id));
                assert(id_bundle.has_compute(instance, id));
                assert(ids@.take(n + 1) =~= ids@.take(n as int).push(id));
                lemma_push_contains(ids@.take(n as int), id);
                if ids@.take(n as int).contains(id) {
                    let k = choose|k: int|
                        0 <= k < ids@.take(n as int).len() && ids@.take(n as int)[k] == id;
                    assert(ids@[k] == ids@[n as int]);
                }
            }
            let since = provider.compute_read_capability(instance, id);
            let entry = InvalidInput { id, instance: Some(instance), since: since.as_option() };
            if !since.less_equal(candidate) {
                invalid.push(entry);
                proof {
                    lemma_push_contains(before, entry);
                    lemma_push_no_duplicates(before, entry);
                    assert forall|a: int, b: int|
                        0 <= a < b < invalid@.len() implies listed_before(
                        invalid@[a],
                        invalid@[b],
                    ) by {
                        if b == before.len() {
                            assert(invalid@[a] == before[a]);
                            assert(before[a].instance is Some);
                            if before[a].instance == Some(instance) {
                                assert(before[a].id < ids@[n as int]);
                            }
                        } else {
                            assert(invalid@[a] == before[a]);
                            assert(invalid@[b] == before[b]);
                        }
                    }
                }
            }
            proof {
                assert forall|x: InvalidInput|
                    invalid@.contains(x) <==> is_invalid_input(provider, id_bundle, candidate, x)
                        && x.instance is Some && (done.contains(x.instance->Some_0) || (x.instance
                        == Some(instance) && ids@.take(n + 1).contains(x.id))) by {
                    let seen = ids@.take(n as int);
                    let seen_next = ids@.take(n + 1);
                    assert(seen_next == seen.push(id));
                    assert(seen_next.contains(x.id) <==> seen.contains(x.id) || x.id == id);
                    assert(before.contains(x) <==> is_invalid_input(
                        provider,
                        id_bundle,
                        candidate,
                        x,
                    ) && x.instance is Some && (done.contains(x.instance->Some_0) || (x.instance
                        == Some(instance) && seen.contains(x.id))));
                    assert(invalid@.contains(x) <==> before.contains(x) || (x == entry
                        && !frontier_less_equal(entry.since, candidate)));
                    if is_invalid_input(provider, id_bundle, candidate, x) && x.instance == Some(
                        instance,
                    ) && x.id == id {
                        assert(x.since == entry.since);
                        assert(x == entry);
                    }
                }
                assert forall|a: int, k: int|
                    0 <= a < invalid@.len() && n + 1 <= k < ids@.len() && (
                    #[trigger] invalid@[a]).instance == Some(instance) implies invalid@[a].id
                    < #[trigger] ids@[k] by {
                    if a < before.len() {
                        assert(invalid@[a] == before[a]);
                    } else {
                        assert(ids@[n as int] < ids@[k]);
                    }
                }
                assert forall|a: int| 0 <= a < invalid@.len() implies (
                #[trigger] invalid@[a]).instance is Some && invalid@[a].instance->Some_0
                    <= instance by {
                    if a < before.len() {
                        assert(invalid@[a] == before[a]);
                    }
                }
            }
            n += 1;
        }
        proof {
            assert(ids@.take(n as int) =~= ids@);
            let done_next = instances@.take(j + 1);
            assert forall|x: InvalidInput|
                invalid@.contains(x) <==> is_invalid_input(provider, id_bundle, candidate, x)
                    && x.instance is Some && done_next.contains(x.instance->Some_0) by {
                assert(done_next.contains(x.instance->Some_0) <==> done.contains(
                    x.instance->Some_0,
                ) || x.instance->Some_0 == instance);
                if is_invalid_input(provider, id_bundle, candidate, x) && x.instance == Some(
                    instance,
                ) {
                    assert(ids@.to_set().contains(x.id));
                }
            }
            assert forall|a: int, k: int|
                0 <= a < invalid@.len() && j + 1 <= k < instances@.len() implies (
                #[trigger] invalid@[a]).instance->Some_0 < #[trigger] instances@[k] by {
                assert(instances@[j as int] < instances@[k]);
            }
        }
        j += 1;
    }
    let storage_ids = set_members(&id_bundle.storage_ids);
    proof {
        assert(instances@.take(j as int) =~= instances@);
        assert forall|x: InvalidInput|
            invalid@.contains(x) <==> is_invalid_input(provider, id_bundle, candidate, x)
                && x.instance is Some by {
            if is_invalid_input(provider, id_bundle, candidate, x) && x.instance is Some {
                assert(instances@.to_set().contains(x.instance->Some_0));
            }
        }
        assert forall|id: GlobalId| storage_ids@.contains(id) <==> id_bundle.has_storage(id) by {
            assert(storage_ids@.to_set().contains(id) == storage_ids@.contains(id));
        }
    }
    let mut i: usize = 0;
    while i < storage_ids.len()
        invariant
            i <= storage_ids.len(),
            tracks(provider, id_bundle),
            storage_ids@.no_duplicates(),
            forall|a: int, b: int|
                0 <= a < b < storage_ids@.len() ==> storage_ids@[a] < storage_ids@[b],
            forall|id: GlobalId| storage_ids@.contains(id) <==> id_bundle.has_storage(id),
            forall|a: int, b: int|
                0 <= a < b < invalid@.len() ==> listed_before(invalid@[a], invalid@[b]),
            forall|a: int, k: int|
                0 <= a < invalid@.len() && i <= k < storage_ids@.len() ==> (
                #[trigger] invalid@[a]).instance is Some || invalid@[a].id
                    < #[trigger] storage_ids@[k],
            invalid@.no_duplicates(),
            forall|x: InvalidInput|
                invalid@.contains(x) <==> is_invalid_input(provider, id_bundle, candidate, x) && (
                x.instance is None ==> storage_ids@.take(i as int).contains(x.id)),
        decreases storage_ids.len() - i,
    {
        let id = storage_ids[i];
        let ghost before = invalid@;
        proof {
            assert(storage_ids@.contains(id));
            assert(id_bundle.has_storage(id));
            assert(storage_ids@.take(i + 1) =~= storage_ids@.take(i as int).push(id));
            lemma_push_contains(storage_ids@.take(i as int), id);
            if storage_ids@.take(i as int).contains(id) {
                let k = choose|k: int|
                    0 <= k < storage_ids@.take(i as int).len() && storage_ids@.take(i as int)[k]
                        == id;
                assert(storage_ids@[k] == storage_ids@[i as int]);
            }
        }
        let since = provider.storage_implied_capability(id);
        let entry = InvalidInput { id, instance: None, since: since.as_option() };
        if !since.less_equal(candidate) {
            invalid.push(entry);
            proof {
                lemma_push_contains(before, entry);
                lemma_push_no_duplicates(before, entry);
            }
        }
        proof {
            assert forall|x: InvalidInput|
                invalid@.contains(x) <==> is_invalid_input(provider, id_bundle, candidate, x) && (
                x.instance is None ==> storage_ids@.take(i + 1).contains(x.id)) by {
                let seen = storage_ids@.take(i as int);
                let seen_next = storage_ids@.take(i + 1);
                assert(seen_next == seen.push(id));
                assert(seen_next.contains(x.id) <==> seen.contains(x.id) || x.id == id);
                assert(before.contains(x) <==> is_invalid_input(
                    provider,
                    id_bundle,
                    candidate,
                    x,
                ) && (x.instance is None ==> seen.contains(x.id)));
                assert(invalid@.contains(x) <==> before.contains(x) || (x == entry
                    && !frontier_less_equal(entry.since, candidate)));
                if is_invalid_input(provider, id_bundle, candidate, x) && x.instance is None
                    && x.id == id {
                    assert(x.since == entry.since);
                    assert(x == entry);
                }
            }
        }
        i += 1;
    }
    assert(storage_ids@.take(i as int) =~= storage_ids@);
    invalid
}

/// What the engine reads of the session that runs the query.
pub struct Session {
    /// The isolation level of the session's transactions.
    pub transaction_isolation: IsolationLevel,
    /// Whether the session asks for real-time recency.
    pub real_time_recency: bool,
    /// The read time of the session's own oracle for the query's timeline, if
    /// the session has one.
    pub timestamp_oracle_read_ts: Option<u64>,
}

/// The record of one determination. It is made once and never changed.
pub struct TimestampDetermination {
    /// The chosen context.
    pub timestamp_context: TimestampContext,
    /// The read frontier of all collections involved.
    pub since: Frontier,
    /// The write frontier of all collections involved.
    pub upper: Frontier,
    /// The largest time not in advance of `upper`.
    pub largest_not_in_advance_of_upper: u64,
    /// The time of the timeline's oracle, if it was used.
    pub oracle_read_ts: Option<u64>,
    /// The time of the session's own oracle, if it was used.
    pub session_oracle_read_ts: Option<u64>,
}

impl TimestampDetermination {
    /// Whether the answer can be given at once.
    pub open spec fn spec_respond_immediately(&self) -> bool {
        match self.timestamp_context {
            TimestampContext::TimelineTimestamp { chosen_ts, .. } => !frontier_less_equal(
                self.upper@,
                chosen_ts,
            ),
            TimestampContext::NoTimestamp => true,
        }
    }

    /// Whether the answer can be given at once: the context has no time, or
    /// `upper` has no time at or below the chosen one, so that all inputs are
    /// complete at the chosen time. Otherwise the answer must wait.
    #[verifier::when_used_as_spec(spec_respond_immediately)]
    pub fn respond_immediately(&self) -> (r: bool)
        ensures
            r == self.spec_respond_immediately(),
    {
        match &self.timestamp_context {
            TimestampContext::TimelineTimestamp { chosen_ts, .. } => !self.upper.less_equal(
                *chosen_ts,
            ),
            TimestampContext::NoTimestamp => true,
        }
    }
}

/// A time raised to another, where there is one.
pub open spec fn raised(c: u64, by: Option<u64>) -> u64 {
    match by {
        Some(t) => later(c, t),
        None => c,
    }
}

/// The earlier of two times.
pub open spec fn earlier(a: u64, b: u64) -> u64 {
    if a <= b {
        a
    } else {
        b
    }
}

/// The time of the policy's explicit expression: none where the policy has no
/// expression, and else what the expression stands for.
pub open spec fn as_of_time(when: QueryWhen) -> Result<Option<u64>, AdapterError> {
    match when.spec_advance_to_timestamp() {
        Some(value) => match evaluated(value) {
            Ok(t) => Ok(Some(t)),
            Err(e) => Err(e),
        },
        None => Ok(None),
    }
}

/// The time of the session's own oracle that a determination uses: only under
/// the isolation level scoped to the session, and only in a timeline.
pub open spec fn session_time_used(
    isolation_level: IsolationLevel,
    has_timeline: bool,
    session_ts: Option<u64>,
) -> Option<u64> {
    if isolation_level == IsolationLevel::StrongSessionSerializable && has_timeline {
        session_ts
    } else {
        None
    }
}

/// The candidate time. It starts at zero and is raised, in this order: to the
/// explicit time; to the since, where the policy asks for it; to the oracle's
/// time, unless the isolation level is scoped to the session and the policy
/// does not demand the oracle; to the largest time not in advance of the
/// upper, where the policy permits and the isolation level is serializable or
/// there is no timeline; to the real-time-recency time; and under the level
/// scoped to the session, to the session's own oracle time and, where the
/// policy permits both, to the earlier of the largest time not in advance of
/// the upper and the oracle's time.
pub open spec fn candidate_of(
    when: QueryWhen,
    as_of: Option<u64>,
    since: Option<u64>,
    upper: Option<u64>,
    has_timeline: bool,
    oracle_read_ts: Option<u64>,
    real_time_recency_ts: Option<u64>,
    session_ts: Option<u64>,
    isolation_level: IsolationLevel,
) -> u64 {
    let not_in_advance = largest_not_in_advance_of(upper);
    let session_scoped = isolation_level == IsolationLevel::StrongSessionSerializable;
    let c1 = raised(0, as_of);
    let c2 = if when.spec_advance_to_since() {
        time_advanced(c1, since)
    } else {
        c1
    };
    let c3 = if !session_scoped || when.spec_must_advance_to_timeline_ts() {
        raised(c2, oracle_read_ts)
    } else {
        c2
    };
    let c4 = if when.spec_can_advance_to_upper() && (isolation_level
        == IsolationLevel::Serializable || !has_timeline) {
        later(c3, not_in_advance)
    } else {
        c3
    };
    let c5 = raised(c4, real_time_recency_ts);
    if session_scoped {
        let c6 = raised(c5, session_time_used(isolation_level, has_timeline, session_ts));
        if when.spec_can_advance_to_upper() && when.spec_can_advance_to_timeline_ts() {
            later(
                c6,
                match oracle_read_ts {
                    Some(o) => earlier(not_in_advance, o),
                    None => not_in_advance,
                },
            )
        } else {
            c6
        }
    } else {
        c5
    }
}

/// The candidate time of a query over a bundle, given the time of its
/// explicit expression.
pub open spec fn candidate_for<P: TimestampProvider>(
    p: &P,
    session: Session,
    bundle: &CollectionIdBundle,
    when: QueryWhen,
    as_of: Option<u64>,
    timeline_context: TimelineContext,
    oracle_read_ts: Option<u64>,
    real_time_recency_ts: Option<u64>,
    isolation_level: IsolationLevel,
) -> u64 {
    candidate_of(
        when,
        as_of,
        since_of(p, bundle),
        upper_of(p, bundle),
        timeline_of(timeline_context) is Some,
        oracle_read_ts,
        real_time_recency_ts,
        session.timestamp_oracle_read_ts,
        isolation_level,
    )
}

/// Whether `r` is the outcome of determining the time of a query: the error
/// of its explicit time where that stands for no time; else the record of
/// the candidate, where the since of the bundle has a time at or below it; and
/// else the error that names the candidate and the collections that do not
/// permit it.
pub open spec fn is_determination<P: TimestampProvider>(
    provider: &P,
    session: &Session,
    id_bundle: &CollectionIdBundle,
    when: QueryWhen,
    timeline_context: &TimelineContext,
    oracle_read_ts: Option<u64>,
    real_time_recency_ts: Option<u64>,
    isolation_level: IsolationLevel,
    r: Result<TimestampDetermination, AdapterError>,
) -> bool {
    match as_of_time(when) {
        Err(e) => r == Err::<TimestampDetermination, AdapterError>(e),
        Ok(as_of) => {
            let since = since_of(provider, id_bundle);
            let upper = upper_of(provider, id_bundle);
            let candidate = candidate_for(
                provider,
                *session,
                id_bundle,
                when,
                as_of,
                *timeline_context,
                oracle_read_ts,
                real_time_recency_ts,
                isolation_level,
            );
            match r {
                Ok(det) => {
                    &&& frontier_less_equal(since, candidate)
                    &&& det.since@ == since
                    &&& det.upper@ == upper
                    &&& det.largest_not_in_advance_of_upper == largest_not_in_advance_of(
                        upper,
                    )
                    &&& det.oracle_read_ts == oracle_read_ts
                    &&& det.session_oracle_read_ts == session_time_used(
                        isolation_level,
                        timeline_of(*timeline_context) is Some,
                        session.timestamp_oracle_read_ts,
                    )
                    &&& det.timestamp_context == context_from(
                        candidate,
                        oracle_read_ts,
                        timeline_of(*timeline_context),
                        *timeline_context,
                    )
                },
                Err(e) => {
                    &&& !frontier_less_equal(since, candidate)
                    &&& e matches AdapterError::TimestampNotValid { candidate: c, invalid }
                    &&& c == candidate
                    &&& invalid@.len() > 0
                    &&& invalid@.no_duplicates()
                    &&& forall|a: int, b: int|
                        0 <= a < b < invalid@.len() ==> listed_before(invalid@[a], invalid@[b])
                    &&& forall|x: InvalidInput|
                        invalid@.contains(x) <==> is_invalid_input(
                            provider,
                            id_bundle,
                            candidate,
                            x,
                        )
                },
            }
        },
    }
}

/// Determines the time of a query.
///
/// The explicit time of the policy, if it has one, must stand for a time;
/// otherwise its error is returned. The candidate is then accepted if and
/// only if the since of the bundle has a time at or below it; otherwise the
/// error names the candidate and the collections that do not permit it.
/// The instance that the query runs on plays no part in either.
///
/// The oracle's time is fetched beforehand, where the read must be
/// linearized. A real-time-recency time may only be given where the session
/// asks for it under strict serializable isolation.
pub fn determine_timestamp_for<P: TimestampProvider>(
    provider: &P,
    session: &Session,
    id_bundle: &CollectionIdBundle,
    when: &QueryWhen,
    compute_instance: ComputeInstanceId,
    timeline_context: &TimelineContext,
    oracle_read_ts: Option<u64>,
    real_time_recency_ts: Option<u64>,
    isolation_level: IsolationLevel,
) -> (r: Result<TimestampDetermination, AdapterError>)
    requires
        tracks(provider, id_bundle),
        real_time_recency_ts is Some ==> session.real_time_recency && isolation_level
            == IsolationLevel::StrictSerializable,
    ensures
        is_determination(
            provider,
            session,
            id_bundle,
            *when,
            timeline_context,
            oracle_read_ts,
            real_time_recency_ts,
            isolation_level,
            r,
        ),
{
    let since = least_valid_read(provider, id_bundle);
    let upper = least_valid_write(provider, id_bundle);
    let largest_not_in_advance_of_upper = largest_not_in_advance_of_upper(&upper);
    let timeline = get_timeline(timeline_context);
    let session_scoped = match isolation_level {
        IsolationLevel::StrongSessionSerializable => true,
        _ => false,
    };
    let serializable = match isolation_level {
        IsolationLevel::Serializable => true,
        _ => false,
    };

    let mut candidate: u64 = 0;
    match when.advance_to_timestamp() {
        Some(value) => match evaluate_when(value.clone()) {
            Ok(ts) => {
                candidate = join(candidate, ts);
            },
            Err(e) => {
                return Err(e);
            },
        },
        None => {},
    }
    if when.advance_to_since() {
        candidate = since.advance(candidate);
    }
    match oracle_read_ts {
        Some(ts) => {
            if !session_scoped || when.must_advance_to_timeline_ts() {
                candidate = join(candidate, ts);
            }
        },
        None => {},
    }
    if when.can_advance_to_upper() && (serializable || timeline.is_none()) {
        candidate = join(candidate, largest_not_in_advance_of_upper);
    }
    match real_time_recency_ts {
        Some(ts) => {
            candidate = join(candidate, ts);
        },
        None => {},
    }
    let mut session_oracle_read_ts: Option<u64> = None;
    if session_scoped {
        if timeline.is_some() {
            match session.timestamp_oracle_read_ts {
                Some(session_ts) => {
                    candidate = join(candidate, session_ts);
                    session_oracle_read_ts = Some(session_ts);
                },
                None => {},
            }
        }
        if when.can_advance_to_upper() && when.can_advance_to_timeline_ts() {
            let mut advance_to = largest_not_in_advance_of_upper;
            match oracle_read_ts {
                Some(ts) => {
                    advance_to = meet(advance_to, ts);
                },
                None => {},
            }
            candidate = join(candidate, advance_to);
        }
    }
    if since.less_equal(candidate) {
        let timestamp_context = TimestampContext::from_timeline_context(
            candidate,
            oracle_read_ts,
            timeline,
            timeline_context,
        );
        Ok(
            TimestampDetermination {
                timestamp_context,
                since,
                upper,
                largest_not_in_advance_of_upper,
                oracle_read_ts,
                session_oracle_read_ts,
            },
        )
    } else {
        let invalid = invalid_inputs(provider, id_bundle, candidate);
        proof {
            lemma_some_input_is_invalid(provider, id_bundle, candidate, since@);
            let x = choose|x: InvalidInput| is_invalid_input(provider, id_bundle, candidate, x);
            assert(invalid@.contains(x));
        }
        Err(AdapterError::TimestampNotValid { candidate, invalid })
    }
}

/// The later of two times: their join.
pub fn join(a: u64, b: u64) -> (r: u64)
    ensures
        r == later(a, b),
{
    if a >= b {
        a
    } else {
        b
    }
}

/// The earlier of two times: their meet.
pub fn meet(a: u64, b: u64) -> (r: u64)
    ensures
        r == earlier(a, b),
{
    if a <= b {
        a
    } else {
        b
    }
}

/// Whenever a determination succeeds, the since that it records has a time at
/// or below the time that it chose; and whenever it fails, the error is that
/// of the explicit time or says that the candidate is not valid.
pub proof fn law_determination_is_valid<P: TimestampProvider>(
    provider: &P,
    session: &Session,
    id_bundle: &CollectionIdBundle,
    when: QueryWhen,
    timeline_context: &TimelineContext,
    oracle_read_ts: Option<u64>,
    real_time_recency_ts: Option<u64>,
    isolation_level: IsolationLevel,
    r: Result<TimestampDetermination, AdapterError>,
)
    requires
        is_determination(
            provider,
            session,
            id_bundle,
            when,
            timeline_context,
            oracle_read_ts,
            real_time_recency_ts,
            isolation_level,
            r,
        ),
    ensures
        r matches Ok(det) ==> frontier_less_equal(
            det.since@,
            det.timestamp_context.spec_timestamp_or_default(),
        ),
        r matches Err(e) ==> (e is TimestampNotValid && as_of_time(when) is Ok) || as_of_time(when)
            == Err::<Option<u64>, AdapterError>(e),
        r matches Err(AdapterError::TimestampNotValid { candidate, invalid }) ==> invalid@.len() > 0
            && forall|i: int|
            0 <= i < invalid@.len() ==> !frontier_less_equal(
                (#[trigger] invalid@[i]).since,
                candidate,
            ),
{
    if let Err(AdapterError::TimestampNotValid { candidate, invalid }) = r {
        if as_of_time(when) is Ok {
            assert forall|i: int| 0 <= i < invalid@.len() implies !frontier_less_equal(
                (#[trigger] invalid@[i]).since,
                candidate,
            ) by {
                assert(invalid@.contains(invalid@[i]));
            }
        }
    }
}

/// Without a real-time-recency time, serializable isolation chooses a time at
/// or beyond the one that strict serializable isolation chooses.
pub proof fn lemma_serializable_is_later(
    when: QueryWhen,
    as_of: Option<u64>,
    since: Option<u64>,
    upper: Option<u64>,
    has_timeline: bool,
    oracle_read_ts: Option<u64>,
    session_ts: Option<u64>,
)
    ensures
        candidate_of(
            when,
            as_of,
            since,
            upper,
            has_timeline,
            oracle_read_ts,
            None,
            session_ts,
            IsolationLevel::StrictSerializable,
        ) <= candidate_of(
            when,
            as_of,
            since,
            upper,
            has_timeline,
            oracle_read_ts,
            None,
            session_ts,
            IsolationLevel::Serializable,
        ),
{
}

} // verus!
