//! The storage protocol as the controller sees it, and the state that makes
//! the shards of a partitioned storage cluster look like one worker.

use crate::antichain::{
    counted_new, counted_times, counted_update, counted_weight, CountedAntichain,
};
use crate::consolidation::{
    absorb_drops, absorb_uppers, admits_drops, admits_uppers, all_retired, emitted_drops,
    emitted_uppers, lemma_absorb_uppers_keeps_shards, lemma_initial_is_wf, lemma_step_keeps_wf,
    CollectionUppers, ShardEvent,
};
use crate::frontier::Frontier;
use crate::command::{command_ids, same_command, same_shape, RunIngestionCommand, StorageCommand};
use crate::ids::{set_members, GlobalId};
use std::collections::{BTreeMap, BTreeSet};
use vstd::prelude::*;
use vstd::string::StringExecFns;

verus! {

/// The largest number of updates that the counts of one collection can take.
pub const MAX_UPDATES: u64 = 9223372036854775807;

/// The slot of a shard as the mathematics sees it.
pub open spec fn slot_view(slot: Option<Frontier>) -> Option<Option<u64>> {
    match slot {
        Some(f) => Some(f@),
        None => None,
    }
}

/// The uppers of one collection: the counted times across all shards, and the
/// slot of each shard.
pub struct ShardedUppers {
    /// The times that the live slots hold, counted.
    frontier: CountedAntichain,
    /// How many updates the counts have taken.
    applied: u64,
    /// The slot of each shard.
    shard_frontiers: Vec<Option<Frontier>>,
}

impl View for ShardedUppers {
    type V = CollectionUppers;

    closed spec fn view(&self) -> CollectionUppers {
        CollectionUppers {
            counts: counted_times(self.frontier),
            shards: self.shard_frontiers@.map_values(|slot: Option<Frontier>| slot_view(slot)),
        }
    }
}

impl ShardedUppers {
    /// How many updates the counts have taken.
    pub closed spec fn updates_applied(&self) -> nat {
        self.applied as nat
    }

    /// The invariant: that of the collection, and the number of updates
    /// bounds what the counts have stored.
    pub closed spec fn wf(&self) -> bool {
        &&& self@.wf()
        &&& counted_weight(self.frontier) <= self.applied
        &&& self.applied <= MAX_UPDATES
    }

    /// The uppers of a collection with `parts` shards as it starts.
    pub fn new(parts: usize) -> (r: Self)
        requires
            parts <= MAX_UPDATES,
        ensures
            r@ == CollectionUppers::initial(parts as nat),
            r.wf(),
            r.updates_applied() == parts,
    {
        let mut frontier = counted_new();
        counted_update(&mut frontier, 0, parts as i64);
        let mut shard_frontiers: Vec<Option<Frontier>> = Vec::new();
        let mut i: usize = 0;
        while i < parts
            invariant
                i <= parts,
                shard_frontiers@.len() == i,
                forall|k: int| 0 <= k < i ==> slot_view(#[trigger] shard_frontiers@[k]) == Some(
                    Some(0u64),
                ),
            decreases parts - i,
        {
            shard_frontiers.push(Some(Frontier::from_elem(0)));
            i += 1;
        }
        let r = ShardedUppers { frontier, applied: parts as u64, shard_frontiers };
        proof {
            lemma_initial_is_wf(parts as nat);
            assert(r@.shards =~= CollectionUppers::initial(parts as nat).shards);
            assert(r@.counts =~= CollectionUppers::initial(parts as nat).counts);
        }
        r
    }

    /// The consolidated frontier.
    pub fn frontier(&self) -> (r: Frontier)
        ensures
            r@ == self@.frontier(),
    {
        Frontier::of_counts(&self.frontier)
    }

    /// The number of slots.
    pub fn parts(&self) -> (r: usize)
        ensures
            r == self@.shards.len(),
    {
        self.shard_frontiers.len()
    }

    /// Whether `shard` is a live shard.
    pub fn is_live(&self, shard: usize) -> (r: bool)
        ensures
            r == self@.is_live(shard as int),
    {
        if shard < self.shard_frontiers.len() {
            self.shard_frontiers[shard].is_some()
        } else {
            false
        }
    }

    /// How many more updates the counts can take.
    pub fn headroom(&self) -> (r: u64)
        requires
            self.wf(),
        ensures
            r == MAX_UPDATES - self.updates_applied(),
    {
        MAX_UPDATES - self.applied
    }

    /// Takes in the upper that a live shard reports. Returns the new
    /// consolidated frontier where it lies strictly beyond the old one.
    pub fn report(&mut self, shard: usize, upper: &Frontier) -> (r: Option<Frontier>)
        requires
            old(self).wf(),
            old(self)@.is_live(shard as int),
            old(self).updates_applied() + 2 <= MAX_UPDATES,
        ensures
            final(self).wf(),
            final(self)@ == old(self)@.report(shard as int, upper@),
            final(self).updates_applied() <= old(self).updates_applied() + 2,
            match r {
                Some(f) => old(self)@.emitted(shard as int, upper@) == Some(f@),
                None => old(self)@.emitted(shard as int, upper@) is None,
            },
    {
        let ghost before = self@;
        let old_upper = Frontier::of_counts(&self.frontier);
        let held = match &self.shard_frontiers[shard] {
            Some(f) => f.clone(),
            None => Frontier::new(),
        };
        assert(before.shards[shard as int] == Some(held@));
        match held.as_option() {
            Some(t) => {
                counted_update(&mut self.frontier, t, -1);
                self.applied = self.applied + 1;
            },
            None => {},
        }
        match upper.as_option() {
            Some(t) => {
                counted_update(&mut self.frontier, t, 1);
                self.applied = self.applied + 1;
            },
            None => {},
        }
        let joined = held.join(upper);
        self.shard_frontiers.set(shard, Some(joined));
        proof {
            let after = before.report(shard as int, upper@);
            assert(self@.shards =~= after.shards);
            assert(self@.counts =~= after.counts);
            lemma_step_keeps_wf(before, ShardEvent::Report { shard: shard as int, upper: upper@ });
        }
        let new_upper = Frontier::of_counts(&self.frontier);
        if old_upper.strictly_before(&new_upper) {
            Some(new_upper)
        } else {
            None
        }
    }

    /// Retires a live shard. Returns whether every shard is now retired.
    pub fn retire(&mut self, shard: usize) -> (r: bool)
        requires
            old(self).wf(),
            old(self)@.is_live(shard as int),
        ensures
            final(self).wf(),
            final(self)@ == old(self)@.retire(shard as int),
            final(self).updates_applied() == old(self).updates_applied(),
            r == all_retired(final(self)@.shards),
    {
        let ghost before = self@;
        self.shard_frontiers.set(shard, None);
        proof {
            let after = before.retire(shard as int);
            assert(self@.shards =~= after.shards);
            lemma_step_keeps_wf(before, ShardEvent::Retire { shard: shard as int });
        }
        let mut i: usize = 0;
        while i < self.shard_frontiers.len()
            invariant
                i <= self.shard_frontiers.len(),
                self.wf(),
                before == old(self)@,
                self@ == before.retire(shard as int),
                self.updates_applied() == old(self).updates_applied(),
                forall|k: int| 0 <= k < i ==> self.shard_frontiers@[k] is None,
            decreases self.shard_frontiers.len() - i,
        {
            if self.shard_frontiers[i].is_some() {
                proof {
                    assert(self@.shards[i as int] is Some);
                }
                return false;
            }
            i += 1;
        }
        proof {
            assert forall|k: int| 0 <= k < self@.shards.len() implies self@.shards[k] is None by {
                assert(self.shard_frontiers@[k] is None);
            }
        }
        true
    }
}

/// A list of collections with frontiers, as the mathematics sees it.
pub open spec fn uppers_view(list: Seq<(GlobalId, Frontier)>) -> Seq<(u64, Option<u64>)> {
    list.map_values(|e: (GlobalId, Frontier)| (e.0, e.1@))
}

/// The state that unifies the responses of the shards of a partitioned
/// storage cluster, so that they present as one worker.
pub struct PartitionedStorageState {
    /// The number of shards.
    parts: usize,
    /// The uppers of the tracked collections, across all shards and from each
    /// single shard.
    uppers: BTreeMap<GlobalId, ShardedUppers>,
}

impl View for PartitionedStorageState {
    type V = Map<u64, CollectionUppers>;

    closed spec fn view(&self) -> Map<u64, CollectionUppers> {
        self.uppers@.map_values(|u: ShardedUppers| u@)
    }
}

impl PartitionedStorageState {
    /// The number of shards.
    pub closed spec fn spec_parts(&self) -> nat {
        self.parts as nat
    }

    /// How many updates the counts of a tracked collection have taken.
    pub closed spec fn updates_applied(&self, id: GlobalId) -> nat {
        self.uppers@[id].updates_applied()
    }

    /// The invariant: every tracked collection is well formed and has one
    /// slot for each shard.
    pub closed spec fn wf(&self) -> bool {
        &&& self.parts <= MAX_UPDATES
        &&& forall|id: GlobalId| #[trigger]
            self.uppers@.contains_key(id) ==> self.uppers@[id].wf()
                && self.uppers@[id]@.shards.len() == self.parts
    }

    /// What the invariant says of the view.
    pub proof fn lemma_wf_view(&self)
        requires
            self.wf(),
        ensures
            forall|id: GlobalId| #[trigger]
                self@.contains_key(id) ==> self@[id].wf() && self@[id].shards.len()
                    == self.spec_parts(),
    {
        assert forall|id: GlobalId| #[trigger] self@.contains_key(id) implies self@[id].wf()
            && self@[id].shards.len() == self.spec_parts() by {
            assert(self.uppers@.contains_key(id));
            reveal(ShardedUppers::wf);
        }
    }

    /// The state for `parts` shards, which tracks no collection.
    pub fn new(parts: usize) -> (r: Self)
        requires
            parts <= MAX_UPDATES,
        ensures
            r.wf(),
            r.spec_parts() == parts,
            r@ == Map::<u64, CollectionUppers>::empty(),
    {
        let r = PartitionedStorageState { parts, uppers: BTreeMap::new() };
        assert(r@ =~= Map::<u64, CollectionUppers>::empty());
        r
    }

    /// The number of shards.
    pub fn parts(&self) -> (r: usize)
        ensures
            r == self.spec_parts(),
    {
        self.parts
    }

    /// Whether the collection `id` is tracked.
    pub fn is_tracked(&self, id: GlobalId) -> (r: bool)
        ensures
            r == self@.contains_key(id),
    {
        proof {
            broadcast use vstd::std_specs::btree::group_btree_axioms;

        }
        self.uppers.contains_key(&id)
    }

    /// Whether `shard_id` is a live shard of the tracked collection `id`.
    pub fn is_live(&self, id: GlobalId, shard_id: usize) -> (r: bool)
        requires
            self@.contains_key(id),
        ensures
            r == self@[id].is_live(shard_id as int),
    {
        proof {
            broadcast use vstd::std_specs::btree::group_btree_axioms;

        }
        self.uppers.get(&id).unwrap().is_live(shard_id)
    }

    /// The consolidated frontier of the tracked collection `id`.
    pub fn frontier(&self, id: GlobalId) -> (r: Frontier)
        requires
            self@.contains_key(id),
        ensures
            r@ == self@[id].frontier(),
    {
        proof {
            broadcast use vstd::std_specs::btree::group_btree_axioms;

        }
        self.uppers.get(&id).unwrap().frontier()
    }

    /// How many more updates the counts of the tracked collection `id` can
    /// take. A report uses up to two.
    pub fn headroom(&self, id: GlobalId) -> (r: u64)
        requires
            self.wf(),
            self@.contains_key(id),
        ensures
            r == MAX_UPDATES - self.updates_applied(id),
    {
        proof {
            broadcast use vstd::std_specs::btree::group_btree_axioms;

        }
        self.uppers.get(&id).unwrap().headroom()
    }

    /// Starts to track the collections of `ids` that are not tracked yet,
    /// each as it starts: every shard at `{0}`.
    pub fn insert_new_uppers(&mut self, ids: &Vec<GlobalId>)
        requires
            old(self).wf(),
        ensures
            final(self).wf(),
            final(self).spec_parts() == old(self).spec_parts(),
            forall|id: GlobalId| #[trigger]
                final(self)@.contains_key(id) <==> old(self)@.contains_key(id) || ids@.contains(id),
            forall|id: GlobalId|
                #[trigger] old(self)@.contains_key(id) ==> final(self)@[id] == old(self)@[id]
                    && final(self).updates_applied(id) == old(self).updates_applied(id),
            forall|id: GlobalId|
                #[trigger] ids@.contains(id) && !old(self)@.contains_key(id) ==> final(self)@[id]
                    == CollectionUppers::initial(old(self).spec_parts())
                    && final(self).updates_applied(id) == old(self).spec_parts(),
    {
        let mut i: usize = 0;
        while i < ids.len()
            invariant
                i <= ids.len(),
                self.wf(),
                self.parts == old(self).parts,
                forall|id: GlobalId|
                    self@.contains_key(id) <==> old(self)@.contains_key(id) || ids@.take(
                        i as int,
                    ).contains(id),
                forall|id: GlobalId|
                    #[trigger] old(self)@.contains_key(id) ==> self@[id] == old(self)@[id]
                        && self.updates_applied(id) == old(self).updates_applied(id),
                forall|id: GlobalId|
                    #[trigger] ids@.take(i as int).contains(id) && !old(self)@.contains_key(id)
                        ==> self@[id]
                        == CollectionUppers::initial(old(self).spec_parts())
                        && self.updates_applied(id) == old(self).spec_parts(),
            decreases ids.len() - i,
        {
            let id = ids[i];
            let ghost prev = *self;
            proof {
                broadcast use vstd::std_specs::btree::group_btree_axioms;

                assert(ids@.take(i + 1) =~= ids@.take(i as int).push(id));
                crate::timestamp_selection::lemma_push_contains(ids@.take(i as int), id);
            }
            if !self.uppers.contains_key(&id) {
                let fresh = ShardedUppers::new(self.parts);
                self.uppers.insert(id, fresh);
                proof {
                    assert(self.uppers@ == prev.uppers@.insert(id, fresh));
                    assert(self@ =~= prev@.insert(id, fresh@));
                    assert(!prev@.contains_key(id));
                    assert(!old(self)@.contains_key(id));
                    assert forall|k: GlobalId| #[trigger]
                        self.uppers@.contains_key(k) implies self.uppers@[k].wf()
                        && self.uppers@[k]@.shards.len() == self.parts by {
                        if k != id {
                            assert(prev.uppers@.contains_key(k));
                        }
                    }
                }
            } else {
                proof {
                    assert(prev@.contains_key(id));
                }
            }
            proof {
                assert forall|k: GlobalId|
                    self@.contains_key(k) <==> old(self)@.contains_key(k) || ids@.take(
                        i + 1,
                    ).contains(k) by {
                    assert(prev@.contains_key(k) <==> old(self)@.contains_key(k) || ids@.take(
                        i as int,
                    ).contains(k));
                }
                assert forall|k: GlobalId| #[trigger] old(self)@.contains_key(k) implies self@[k]
                    == old(self)@[k] && self.updates_applied(k) == old(self).updates_applied(
                    k,
                ) by {
                    assert(prev@[k] == old(self)@[k]);
                    assert(prev.updates_applied(k) == old(self).updates_applied(k));
                }
                assert forall|k: GlobalId|
                    #[trigger] ids@.take(i + 1).contains(k) && !old(self)@.contains_key(k) implies self@[k]
                    == CollectionUppers::initial(old(self).spec_parts())
                    && self.updates_applied(k) == old(self).spec_parts() by {
                    if ids@.take(i as int).contains(k) {
                        assert(prev@[k] == CollectionUppers::initial(old(self).spec_parts()));
                        assert(prev.updates_applied(k) == old(self).spec_parts());
                        assert(prev@.contains_key(k));
                    }
                }
            }
            i += 1;
        }
        proof {
            assert(ids@.take(i as int) =~= ids@);
        }
    }
}

/// The kind of a status that the health of a source or sink is reported as.
#[derive(Copy, Clone, Debug, PartialEq, Eq, PartialOrd, Ord, Structural)]
pub enum Status {
    Starting,
    Running,
    Paused,
    Stalled,
    Ceased,
    Dropped,
}

/// A status update of a source or a sink.
#[derive(Debug, PartialEq)]
pub struct StatusUpdate {
    pub id: GlobalId,
    pub status: Status,
    /// When the status was seen, in milliseconds since the Unix epoch.
    pub timestamp: i64,
    pub error: Option<String>,
    pub hints: BTreeSet<String>,
    pub namespaced_errors: BTreeMap<String, String>,
}

/// What one worker has counted for a source since its last report.
#[derive(Clone, Copy, Debug, PartialEq, Eq, Structural)]
pub struct SourceStatisticsUpdate {
    pub id: GlobalId,
    pub worker_id: usize,
    pub messages_received: u64,
    pub bytes_received: u64,
    pub updates_staged: u64,
    pub updates_committed: u64,
}

/// What one worker has counted for a sink since its last report.
#[derive(Clone, Copy, Debug, PartialEq, Eq, Structural)]
pub struct SinkStatisticsUpdate {
    pub id: GlobalId,
    pub worker_id: usize,
    pub messages_staged: u64,
    pub messages_committed: u64,
    pub bytes_staged: u64,
    pub bytes_committed: u64,
}

/// An update to feed to a local input: a row, the time at which it changes,
/// and by how much.
#[derive(Debug, PartialEq, Eq)]
pub struct Update {
    /// The row, as the wire carries it.
    pub row: Vec<u8>,
    pub timestamp: u64,
    pub diff: i64,
}

/// An update to feed to a local input, of which the input chooses the time.
#[derive(Debug, PartialEq, Eq)]
pub struct TimestamplessUpdate {
    /// The row, as the wire carries it.
    pub row: Vec<u8>,
    pub diff: i64,
}

/// What a storage worker reports back.
#[derive(Debug, PartialEq)]
pub enum StorageResponse {
    /// Collections with their new upper frontiers.
    FrontierUppers(Vec<(GlobalId, Frontier)>),
    /// Collections for which no more responses will come.
    DroppedIds(BTreeSet<GlobalId>),
    /// Statistics of sources and of sinks.
    StatisticsUpdates(Vec<SourceStatisticsUpdate>, Vec<SinkStatisticsUpdate>),
    /// The latest status of sources and sinks.
    StatusUpdates(Vec<StatusUpdate>),
}

impl StorageResponse {
    /// Whether the state can take the response in from `shard_id`: every
    /// collection that it reports on is tracked and has `shard_id` as a live
    /// shard, and the counts can take the reports.
    pub open spec fn admitted_by(self, state: &PartitionedStorageState, shard_id: int) -> bool {
        match self {
            StorageResponse::FrontierUppers(list) => {
                &&& admits_uppers(state@, shard_id, uppers_view(list@))
                &&& forall|i: int|
                    0 <= i < list@.len() ==> state.updates_applied((#[trigger] list@[i]).0) + 2
                        * list@.len() <= MAX_UPDATES
            },
            StorageResponse::DroppedIds(ids) => admits_drops(state@, shard_id, ids@),
            _ => true,
        }
    }
}

impl PartitionedStorageState {
    /// Takes in the uppers that one shard reports. Returns the collections
    /// whose consolidated frontier has advanced, with their new frontiers.
    fn absorb_uppers(&mut self, shard_id: usize, list: &Vec<(GlobalId, Frontier)>) -> (new_uppers:
        Vec<(GlobalId, Frontier)>)
        requires
            old(self).wf(),
            admits_uppers(old(self)@, shard_id as int, uppers_view(list@)),
            forall|i: int|
                0 <= i < list@.len() ==> old(self).updates_applied((#[trigger] list@[i]).0) + 2
                    * list@.len() <= MAX_UPDATES,
        ensures
            final(self).wf(),
            final(self).spec_parts() == old(self).spec_parts(),
            final(self)@ == absorb_uppers(old(self)@, shard_id as int, uppers_view(list@)),
            uppers_view(new_uppers@) == emitted_uppers(
                old(self)@,
                shard_id as int,
                uppers_view(list@),
            ),
            forall|id: GlobalId| #[trigger]
                old(self)@.contains_key(id) ==> final(self)@.contains_key(id)
                    && final(self).updates_applied(id) <= old(self).updates_applied(id) + 2
                    * list@.len(),
    {
        let ghost reports = uppers_view(list@);
        let ghost shard = shard_id as int;
        let mut new_uppers: Vec<(GlobalId, Frontier)> = Vec::new();
        let mut i: usize = 0;
        assert(reports.skip(0) =~= reports);
        while i < list.len()
            invariant
                i <= list.len(),
                reports == uppers_view(list@),
                shard == shard_id as int,
                self.wf(),
                self.parts == old(self).parts,
                admits_uppers(self@, shard, reports),
                forall|id: GlobalId| #[trigger]
                    old(self)@.contains_key(id) ==> self@.contains_key(id)
                        && self.updates_applied(id) <= old(self).updates_applied(id) + 2 * i,
                forall|id: GlobalId| self@.contains_key(id) ==> old(self)@.contains_key(id),
                forall|k: int|
                    0 <= k < list@.len() ==> old(self).updates_applied((#[trigger] list@[k]).0) + 2
                        * list@.len() <= MAX_UPDATES,
                absorb_uppers(self@, shard, reports.skip(i as int)) == absorb_uppers(
                    old(self)@,
                    shard,
                    reports,
                ),
                uppers_view(new_uppers@) + emitted_uppers(self@, shard, reports.skip(i as int))
                    == emitted_uppers(old(self)@, shard, reports),
            decreases list.len() - i,
        {
            let id = list[i].0;
            let ghost prev = *self;
            let ghost upper = list@[i as int].1@;
            let ghost rest = reports.skip(i as int);
            proof {
                broadcast use vstd::std_specs::btree::group_btree_axioms;

                assert(reports[i as int] == (id, upper));
                assert(rest[0] == (id, upper));
                assert(rest.drop_first() =~= reports.skip(i + 1));
                assert(prev@.contains_key(id) && prev@[id].is_live(shard));
                assert(prev.uppers@.contains_key(id));
                assert(old(self)@.contains_key(id));
            }
            let mut entry = self.uppers.remove(&id).unwrap();
            proof {
                assert(entry == prev.uppers@[id]);
                assert(entry.updates_applied() == prev.updates_applied(id));
            }
            let emitted = entry.report(shard_id, &list[i].1);
            let ghost reported = entry;
            self.uppers.insert(id, entry);
            proof {
                assert(self.uppers@ =~= prev.uppers@.insert(id, reported));
                assert(self@ =~= prev@.insert(id, prev@[id].report(shard, upper)));
                assert forall|k: GlobalId| #[trigger]
                    self.uppers@.contains_key(k) implies self.uppers@[k].wf()
                    && self.uppers@[k]@.shards.len() == self.parts by {
                    if k != id {
                        assert(prev.uppers@.contains_key(k));
                    } else {
                        assert(prev.uppers@.contains_key(id));
                    }
                }
                assert forall|k: int| 0 <= k < reports.len() implies self@.contains_key(
                    (#[trigger] reports[k]).0,
                ) && self@[reports[k].0].is_live(shard) by {
                    assert(prev@.contains_key(reports[k].0));
                    assert(prev@[reports[k].0].is_live(shard));
                }
                assert forall|k: GlobalId| #[trigger]
                    old(self)@.contains_key(k) implies self@.contains_key(k)
                    && self.updates_applied(k) <= old(self).updates_applied(k) + 2 * (i + 1) by {
                    assert(prev@.contains_key(k));
                    assert(prev.updates_applied(k) <= old(self).updates_applied(k) + 2 * i);
                }
            }
            let ghost before_push = new_uppers@;
            match emitted {
                Some(f) => {
                    new_uppers.push((id, f));
                    proof {
                        assert(uppers_view(new_uppers@) =~= uppers_view(before_push) + seq![
                            (id, f@),
                        ]);
                        assert(emitted_uppers(prev@, shard, rest) == seq![(id, f@)]
                            + emitted_uppers(self@, shard, reports.skip(i + 1)));
                        assert((uppers_view(before_push) + seq![(id, f@)]) + emitted_uppers(
                            self@,
                            shard,
                            reports.skip(i + 1),
                        ) =~= uppers_view(before_push) + (seq![(id, f@)] + emitted_uppers(
                            self@,
                            shard,
                            reports.skip(i + 1),
                        )));
                    }
                },
                None => {},
            }
            i += 1;
        }
        proof {
            assert(reports.skip(i as int) =~= Seq::<(u64, Option<u64>)>::empty());
            assert(uppers_view(new_uppers@) + Seq::<(u64, Option<u64>)>::empty() =~= uppers_view(
                new_uppers@,
            ));
        }
        new_uppers
    }
}

impl PartitionedStorageState {
    /// Takes in the drops that one shard reports. Returns the collections of
    /// which it was the last live shard; they are no longer tracked.
    fn absorb_drops(&mut self, shard_id: usize, dropped_ids: &BTreeSet<GlobalId>) -> (new_drops:
        BTreeSet<GlobalId>)
        requires
            old(self).wf(),
            admits_drops(old(self)@, shard_id as int, dropped_ids@),
        ensures
            final(self).wf(),
            final(self).spec_parts() == old(self).spec_parts(),
            final(self)@ == absorb_drops(old(self)@, shard_id as int, dropped_ids@),
            new_drops@ == emitted_drops(old(self)@, shard_id as int, dropped_ids@),
            forall|id: GlobalId| #[trigger]
                final(self)@.contains_key(id) ==> final(self).updates_applied(id)
                    == old(self).updates_applied(id),
    {
        let ghost shard = shard_id as int;
        let ghost start = old(self)@;
        let ids = set_members(dropped_ids);
        let mut new_drops: BTreeSet<GlobalId> = BTreeSet::new();
        let mut i: usize = 0;
        proof {
            assert(self@ =~= absorb_drops(start, shard, ids@.take(0).to_set()));
            assert(new_drops@ =~= emitted_drops(start, shard, ids@.take(0).to_set()));
        }
        while i < ids.len()
            invariant
                i <= ids.len(),
                shard == shard_id as int,
                start == old(self)@,
                ids@.no_duplicates(),
                ids@.to_set() == dropped_ids@,
                admits_drops(start, shard, dropped_ids@),
                self.wf(),
                self.parts == old(self).parts,
                self@ == absorb_drops(start, shard, ids@.take(i as int).to_set()),
                new_drops@ == emitted_drops(start, shard, ids@.take(i as int).to_set()),
                forall|id: GlobalId| #[trigger]
                    self@.contains_key(id) ==> self.updates_applied(id) == old(self).updates_applied(id),
            decreases ids.len() - i,
        {
            let id = ids[i];
            let ghost prev = *self;
            let ghost done = ids@.take(i as int).to_set();
            let ghost done_next = ids@.take(i + 1).to_set();
            let ghost drops_before = new_drops@;
            proof {
                broadcast use vstd::std_specs::btree::group_btree_axioms;

                assert(ids@.take(i + 1) =~= ids@.take(i as int).push(id));
                crate::timestamp_selection::lemma_push_contains(ids@.take(i as int), id);
                assert forall|x: u64| done_next.contains(x) <==> done.contains(x) || x == id by {
                    assert(done_next.contains(x) == ids@.take(i + 1).contains(x));
                    assert(done.contains(x) == ids@.take(i as int).contains(x));
                }
                assert(done_next =~= done.insert(id));
                assert(ids@.to_set().contains(id));
                assert(dropped_ids@.contains(id));
                assert(start.contains_key(id) && start[id].is_live(shard));
                if done.contains(id) {
                    let k = choose|k: int|
                        0 <= k < ids@.take(i as int).len() && ids@.take(i as int)[k] == id;
                    assert(ids@[k] == ids@[i as int]);
                }
                assert(!emitted_drops(start, shard, done).contains(id));
                assert(prev@.contains_key(id));
                assert(prev@[id] == start[id]);
                assert(prev.uppers@.contains_key(id));
            }
            let mut entry = self.uppers.remove(&id).unwrap();
            let finished = entry.retire(shard_id);
            let ghost retired = entry;
            if finished {
                new_drops.insert(id);
            } else {
                self.uppers.insert(id, entry);
            }
            proof {
                assert forall|k: GlobalId| #[trigger]
                    self.uppers@.contains_key(k) implies self.uppers@[k].wf()
                    && self.uppers@[k]@.shards.len() == self.parts by {
                    if k != id {
                        assert(prev.uppers@.contains_key(k));
                    }
                }
                assert(emitted_drops(start, shard, done_next) =~= if finished {
                    emitted_drops(start, shard, done).insert(id)
                } else {
                    emitted_drops(start, shard, done)
                });
                assert(new_drops@ =~= emitted_drops(start, shard, done_next));
                if finished {
                    assert(self.uppers@ =~= prev.uppers@.remove(id));
                    assert(self@ =~= prev@.remove(id));
                } else {
                    assert(self.uppers@ =~= prev.uppers@.insert(id, retired));
                    assert(self@ =~= prev@.insert(id, start[id].retire(shard)));
                }
                assert(self@ =~= absorb_drops(start, shard, done_next));
                assert forall|k: GlobalId| #[trigger]
                    self@.contains_key(k) implies self.updates_applied(k) == old(self).updates_applied(k) by {
                    if k != id {
                        assert(prev@.contains_key(k));
                    }
                }
            }
            i += 1;
        }
        proof {
            assert(ids@.take(i as int) =~= ids@);
        }
        new_drops
    }

    /// Takes in the response of one shard, and gives the response of the
    /// cluster as a whole, if there is one.
    ///
    /// Uppers are consolidated: a collection appears in the result if and
    /// only if its consolidated frontier has strictly advanced, with its new
    /// frontier. Drops are gathered: a collection appears in the result if
    /// and only if its last live shard has now dropped it, and it is then no
    /// longer tracked. Statistics and status updates are handed on as they
    /// are.
    pub fn absorb_response(&mut self, shard_id: usize, response: StorageResponse) -> (r: Option<
        StorageResponse,
    >)
        requires
            old(self).wf(),
            response.admitted_by(old(self), shard_id as int),
        ensures
            final(self).wf(),
            final(self).spec_parts() == old(self).spec_parts(),
            forall|id: GlobalId| #[trigger]
                final(self)@.contains_key(id) ==> final(self)@[id].wf()
                    && final(self)@[id].shards.len() == final(self).spec_parts(),
            match response {
                StorageResponse::FrontierUppers(list) => {
                    let reports = uppers_view(list@);
                    let emitted = emitted_uppers(old(self)@, shard_id as int, reports);
                    &&& final(self)@ == absorb_uppers(old(self)@, shard_id as int, reports)
                    &&& forall|id: GlobalId|
                        old(self)@.contains_key(id) <==> #[trigger] final(self)@.contains_key(id)
                    &&& forall|id: GlobalId, shard: int|
                        old(self)@.contains_key(id) ==> (#[trigger] final(self)@[id].is_live(shard)
                            <==> old(self)@[id].is_live(shard))
                    &&& forall|id: GlobalId| #[trigger]
                        old(self)@.contains_key(id) ==> final(self)@.contains_key(id)
                            && final(self).updates_applied(id) <= old(self).updates_applied(id) + 2
                            * list@.len()
                    &&& emitted.len() == 0 ==> r is None
                    &&& emitted.len() > 0 ==> (r matches Some(
                        StorageResponse::FrontierUppers(out),
                    ) && uppers_view(out@) == emitted)
                },
                StorageResponse::DroppedIds(ids) => {
                    let emitted = emitted_drops(old(self)@, shard_id as int, ids@);
                    &&& final(self)@ == absorb_drops(old(self)@, shard_id as int, ids@)
                    &&& forall|id: GlobalId| #[trigger]
                        final(self)@.contains_key(id) ==> old(self)@.contains_key(id)
                    &&& forall|id: GlobalId, shard: int|
                        final(self)@.contains_key(id) && shard != shard_id ==> (
                        #[trigger] final(self)@[id].is_live(shard) <==> old(self)@[id].is_live(
                            shard,
                        ))
                    &&& forall|id: GlobalId| #[trigger]
                        final(self)@.contains_key(id) ==> final(self).updates_applied(id)
                            == old(self).updates_applied(id)
                    &&& emitted.is_empty() ==> r is None
                    &&& !emitted.is_empty() ==> (r matches Some(StorageResponse::DroppedIds(out))
                        && out@ == emitted)
                },
                _ => {
                    &&& final(self)@ == old(self)@
                    &&& forall|id: GlobalId|
                        final(self).updates_applied(id) == old(self).updates_applied(id)
                    &&& r == Some(response)
                },
            },
    {
        let r = match response {
            StorageResponse::FrontierUppers(list) => {
                let new_uppers = self.absorb_uppers(shard_id, &list);
                proof {
                    assert(uppers_view(new_uppers@).len() == new_uppers@.len());
                    lemma_absorb_uppers_keeps_shards(
                        old(self)@,
                        shard_id as int,
                        uppers_view(list@),
                    );
                }
                if new_uppers.len() == 0 {
                    None
                } else {
                    Some(StorageResponse::FrontierUppers(new_uppers))
                }
            },
            StorageResponse::DroppedIds(dropped_ids) => {
                let new_drops = self.absorb_drops(shard_id, &dropped_ids);
                if new_drops.is_empty() {
                    None
                } else {
                    Some(StorageResponse::DroppedIds(new_drops))
                }
            },
            StorageResponse::StatisticsUpdates(source_stats, sink_stats) => {
                Some(StorageResponse::StatisticsUpdates(source_stats, sink_stats))
            },
            StorageResponse::StatusUpdates(updates) => Some(
                StorageResponse::StatusUpdates(updates),
            ),
        };
        proof {
            self.lemma_wf_view();
        }
        r
    }
}

/// Why a response cannot be taken in.
#[derive(Clone, Copy, Debug, PartialEq, Eq, Structural)]
pub enum ProtocolViolation {
    /// The response refers to a collection that is not tracked.
    AbsentCollection { id: GlobalId },
    /// The response comes from a shard that the collection does not have, or
    /// that has already dropped the collection.
    AbsentShard { id: GlobalId, shard_id: usize },
    /// The counts of the collection cannot take the reports.
    CountsExhausted { id: GlobalId },
}

impl PartitionedStorageState {
    /// Says whether the uppers that a shard reports can be taken in.
    fn admits_uppers(&self, shard_id: usize, list: &Vec<(GlobalId, Frontier)>) -> (r: Result<
        (),
        ProtocolViolation,
    >)
        requires
            self.wf(),
        ensures
            r is Ok <==> StorageResponse::FrontierUppers(*list).admitted_by(self, shard_id as int),
    {
        let mut i: usize = 0;
        while i < list.len()
            invariant
                i <= list.len(),
                self.wf(),
                forall|k: int|
                    0 <= k < i ==> self@.contains_key((#[trigger] list@[k]).0)
                        && self@[list@[k].0].is_live(shard_id as int) && self.updates_applied(
                        list@[k].0,
                    ) + 2 * list@.len() <= MAX_UPDATES,
            decreases list.len() - i,
        {
            let id = list[i].0;
            proof {
                assert(uppers_view(list@)[i as int].0 == id);
                assert(list@[i as int].0 == id);
            }
            if !self.is_tracked(id) {
                return Err(ProtocolViolation::AbsentCollection { id });
            }
            if !self.is_live(id, shard_id) {
                return Err(ProtocolViolation::AbsentShard { id, shard_id });
            }
            let reports = list.len() as u64;
            if reports > 4611686018427387903u64 {
                return Err(ProtocolViolation::CountsExhausted { id });
            }
            if self.headroom(id) < 2 * reports {
                return Err(ProtocolViolation::CountsExhausted { id });
            }
            i += 1;
        }
        proof {
            assert forall|k: int| 0 <= k < uppers_view(list@).len() implies self@.contains_key(
                (#[trigger] uppers_view(list@)[k]).0,
            ) && self@[uppers_view(list@)[k].0].is_live(shard_id as int) by {
                assert(uppers_view(list@)[k].0 == list@[k].0);
            }
        }
        Ok(())
    }

    /// Says whether the drops that a shard reports can be taken in.
    fn admits_drops(&self, shard_id: usize, dropped_ids: &BTreeSet<GlobalId>) -> (r: Result<
        (),
        ProtocolViolation,
    >)
        requires
            self.wf(),
        ensures
            r is Ok <==> admits_drops(self@, shard_id as int, dropped_ids@),
    {
        let ids = set_members(dropped_ids);
        let mut i: usize = 0;
        while i < ids.len()
            invariant
                i <= ids.len(),
                self.wf(),
                ids@.to_set() == dropped_ids@,
                forall|k: int|
                    0 <= k < i ==> self@.contains_key(#[trigger] ids@[k])
                        && self@[ids@[k]].is_live(shard_id as int),
            decreases ids.len() - i,
        {
            let id = ids[i];
            proof {
                assert(ids@.to_set().contains(id));
                assert(dropped_ids@.contains(id));
            }
            if !self.is_tracked(id) {
                return Err(ProtocolViolation::AbsentCollection { id });
            }
            if !self.is_live(id, shard_id) {
                return Err(ProtocolViolation::AbsentShard { id, shard_id });
            }
            i += 1;
        }
        proof {
            assert forall|id: u64| #[trigger] dropped_ids@.contains(id) implies self@.contains_key(
                id,
            ) && self@[id].is_live(shard_id as int) by {
                assert(ids@.to_set().contains(id));
                let k = choose|k: int| 0 <= k < ids@.len() && ids@[k] == id;
                assert(self@.contains_key(ids@[k]));
            }
        }
        Ok(())
    }

    /// Says whether the response of a shard can be taken in, and if not, why
    /// not.
    pub fn admits(&self, shard_id: usize, response: &StorageResponse) -> (r: Result<
        (),
        ProtocolViolation,
    >)
        requires
            self.wf(),
        ensures
            r is Ok <==> response.admitted_by(self, shard_id as int),
    {
        match response {
            StorageResponse::FrontierUppers(list) => self.admits_uppers(shard_id, list),
            StorageResponse::DroppedIds(dropped_ids) => self.admits_drops(shard_id, dropped_ids),
            _ => Ok(()),
        }
    }
}

/// The name of a status.
pub open spec fn status_name(status: Status) -> Seq<char> {
    match status {
        Status::Starting => "starting"@,
        Status::Running => "running"@,
        Status::Paused => "paused"@,
        Status::Stalled => "stalled"@,
        Status::Ceased => "ceased"@,
        Status::Dropped => "dropped"@,
    }
}

/// Whether a new status is worth reporting after a previous one. Nothing
/// follows `Dropped`, and only `Dropped` follows `Ceased`; `Paused` is not
/// reported twice in a row; everything else is reported.
pub open spec fn supersedes(previous: Status, new: Status) -> bool {
    if previous == Status::Dropped {
        false
    } else if new == Status::Dropped {
        true
    } else if previous == Status::Ceased {
        false
    } else if new == Status::Ceased {
        true
    } else {
        !(previous == Status::Paused && new == Status::Paused)
    }
}

/// What is said of a string that is the name of no status: the string, and
/// then that it is not a valid status.
pub open spec fn not_a_status_text(s: Seq<char>) -> Seq<char> {
    s + " is not a valid status"@
}

/// `str::eq`: whether two strings hold the same characters.
#[verifier::external_body]
fn str_eq(a: &str, b: &str) -> (r: bool)
    ensures
        r == (a@ == b@),
{
    a == b
}

impl Status {
    /// The name of the status.
    pub fn to_str(&self) -> (r: &'static str)
        ensures
            r@ == status_name(*self),
    {
        match self {
            Status::Starting => "starting",
            Status::Running => "running",
            Status::Paused => "paused",
            Status::Stalled => "stalled",
            Status::Ceased => "ceased",
            Status::Dropped => "dropped",
        }
    }

    /// The status of a name. A string that is the name of no status is
    /// refused, with a message that repeats the string.
    pub fn from_str(s: &str) -> (r: Result<Status, String>)
        ensures
            match r {
                Ok(status) => s@ == status_name(status),
                Err(message) => message@ == not_a_status_text(s@) && forall|status: Status|
                    s@ != status_name(status),
            },
    {
        if str_eq(s, "starting") {
            Ok(Status::Starting)
        } else if str_eq(s, "running") {
            Ok(Status::Running)
        } else if str_eq(s, "paused") {
            Ok(Status::Paused)
        } else if str_eq(s, "stalled") {
            Ok(Status::Stalled)
        } else if str_eq(s, "ceased") {
            Ok(Status::Ceased)
        } else if str_eq(s, "dropped") {
            Ok(Status::Dropped)
        } else {
            Err(Status::not_a_status(s))
        }
    }

    /// The message that says that `s` is the name of no status.
    pub fn not_a_status(s: &str) -> (message: String)
        ensures
            message@ == not_a_status_text(s@),
    {
        let mut message = s.to_owned();
        message.append(" is not a valid status");
        message
    }

    /// Determines whether a new status should be produced after this one.
    pub fn superseded_by(self, new: Status) -> (r: bool)
        ensures
            r == supersedes(self, new),
    {
        match (self, new) {
            (Status::Dropped, _) => false,
            (_, Status::Dropped) => true,
            (Status::Ceased, _) => false,
            (_, Status::Ceased) => true,
            (Status::Paused, Status::Paused) => false,
            _ => true,
        }
    }
}

impl StatusUpdate {
    /// A status update without an error, hints or namespaced errors.
    pub fn new(id: GlobalId, timestamp: i64, status: Status) -> (r: StatusUpdate)
        ensures
            r.id == id,
            r.timestamp == timestamp,
            r.status == status,
            r.error is None,
            r.hints@ == Set::<String>::empty(),
            r.namespaced_errors@ == Map::<String, String>::empty(),
    {
        StatusUpdate {
            id,
            status,
            timestamp,
            error: None,
            hints: BTreeSet::new(),
            namespaced_errors: BTreeMap::new(),
        }
    }
}

/// Names the storage service among the services of a cluster.
#[derive(Clone, Copy, Debug, PartialEq, Eq, Structural)]
pub enum StorageProtoServiceTypes {
    /// The one service of commands and responses.
    CommandResponseStream,
}

impl StorageProtoServiceTypes {
    /// The path under which the service is reached.
    pub fn url(&self) -> (r: &'static str)
        ensures
            r@ == "/mz_storage_client.client.ProtoStorage/CommandResponseStream"@,
    {
        "/mz_storage_client.client.ProtoStorage/CommandResponseStream"
    }
}

/// A client to a storage server: it takes commands and gives responses.
pub trait StorageClient {
    /// Sends a command to the server.
    fn send(&mut self, cmd: StorageCommand) -> Result<(), String>;

    /// Receives the next response of the server, if one is to come.
    fn recv(&mut self) -> Result<Option<StorageResponse>, String>;
}

/// Whether one of the first `n` ingestions of a list writes to `id`.
pub open spec fn written_by(list: Seq<RunIngestionCommand>, n: int, id: u64) -> bool {
    exists|i: int, j: int|
        0 <= i < n && i < list.len() && 0 <= j < list[i].subsource_ids@.len()
            && #[trigger] list[i].subsource_ids@[j] == id
}

/// One more ingestion adds the collections that it writes to.
pub proof fn lemma_written_by_next(list: Seq<RunIngestionCommand>, n: int, id: u64)
    requires
        0 <= n < list.len(),
    ensures
        written_by(list, n + 1, id) <==> written_by(list, n, id) || list[n].subsource_ids@.contains(
            id,
        ),
{
    if written_by(list, n + 1, id) {
        let (i, j) = choose|i: int, j: int|
            0 <= i < n + 1 && i < list.len() && 0 <= j < list[i].subsource_ids@.len()
                && #[trigger] list[i].subsource_ids@[j] == id;
        if i == n {
            assert(list[n].subsource_ids@[j] == id);
        } else {
            assert(list[i].subsource_ids@[j] == id);
        }
    }
    if list[n].subsource_ids@.contains(id) {
        let j = choose|j: int|
            0 <= j < list[n].subsource_ids@.len() && list[n].subsource_ids@[j] == id;
        assert(list[n].subsource_ids@[j] == id);
    }
    if written_by(list, n, id) {
        let (i, j) = choose|i: int, j: int|
            0 <= i < n && i < list.len() && 0 <= j < list[i].subsource_ids@.len()
                && #[trigger] list[i].subsource_ids@[j] == id;
        assert(list[i].subsource_ids@[j] == id);
    }
}

impl PartitionedStorageState {
    /// Whether `after` is this state with the collections of `ids` tracked
    /// in addition, each as it starts, and everything else as it was.
    pub open spec fn extended_by(&self, ids: Set<u64>, after: &PartitionedStorageState) -> bool {
        &&& after.spec_parts() == self.spec_parts()
        &&& forall|id: GlobalId| #[trigger]
            after@.contains_key(id) <==> self@.contains_key(id) || ids.contains(id)
        &&& forall|id: GlobalId| #[trigger]
            self@.contains_key(id) ==> after@[id] == self@[id] && after.updates_applied(id)
                == self.updates_applied(id)
        &&& forall|id: GlobalId| #[trigger]
            ids.contains(id) && !self@.contains_key(id) ==> after@[id] == CollectionUppers::initial(
                self.spec_parts(),
            ) && after.updates_applied(id) == self.spec_parts()
    }

    /// Takes note of a command before it is split: the collections that the
    /// command starts to run, and that are not tracked yet, are tracked from
    /// now on, each as it starts.
    pub fn observe_command(&mut self, command: &StorageCommand)
        requires
            old(self).wf(),
        ensures
            final(self).wf(),
            old(self).extended_by(command_ids(*command), final(self)),
    {
        match command {
            StorageCommand::RunIngestions(ingestions) => {
                let mut n: usize = 0;
                while n < ingestions.len()
                    invariant
                        n <= ingestions.len(),
                        self.wf(),
                        old(self).extended_by(
                            Set::new(|id: u64| written_by(ingestions@, n as int, id)),
                            self,
                        ),
                    decreases ingestions.len() - n,
                {
                    let ghost prev = *self;
                    let ghost seen = Set::new(|id: u64| written_by(ingestions@, n as int, id));
                    let ghost seen_next = Set::new(|id: u64| written_by(ingestions@, n + 1, id));
                    self.insert_new_uppers(&ingestions[n].subsource_ids);
                    proof {
                        let more = ingestions@[n as int].subsource_ids@;
                        assert forall|id: u64|
                            seen_next.contains(id) <==> seen.contains(id) || more.contains(id) by {
                            lemma_written_by_next(ingestions@, n as int, id);
                        }
                        assert forall|id: GlobalId| #[trigger]
                            self@.contains_key(id) <==> old(self)@.contains_key(id)
                                || seen_next.contains(id) by {
                            assert(prev@.contains_key(id) <==> old(self)@.contains_key(id)
                                || seen.contains(id));
                            assert(self@.contains_key(id) <==> prev@.contains_key(id)
                                || more.contains(id));
                        }
                        assert forall|id: GlobalId| #[trigger]
                            old(self)@.contains_key(id) implies self@[id] == old(self)@[id]
                            && self.updates_applied(id) == old(self).updates_applied(id) by {
                            assert(prev@.contains_key(id) <==> old(self)@.contains_key(id)
                                || seen.contains(id));
                            assert(prev@[id] == old(self)@[id]);
                        }
                        assert forall|id: GlobalId| #[trigger]
                            seen_next.contains(id) && !old(self)@.contains_key(id) implies self@[id]
                            == CollectionUppers::initial(old(self).spec_parts())
                            && self.updates_applied(id) == old(self).spec_parts() by {
                            assert(prev@.contains_key(id) <==> old(self)@.contains_key(id)
                                || seen.contains(id));
                            if prev@.contains_key(id) {
                                assert(seen.contains(id));
                            } else {
                                assert(more.contains(id));
                            }
                        }
                    }
                    n += 1;
                }
                proof {
                    let seen = Set::new(|id: u64| written_by(ingestions@, n as int, id));
                    assert forall|id: u64| seen.contains(id) <==> command_ids(*command).contains(
                        id,
                    ) by {
                        if seen.contains(id) {
                            let (i, j) = choose|i: int, j: int|
                                0 <= i < n && i < ingestions@.len() && 0 <= j
                                    < ingestions@[i].subsource_ids@.len()
                                    && #[trigger] ingestions@[i].subsource_ids@[j] == id;
                            assert(ingestions@[i].subsource_ids@[j] == id);
                        }
                        if command_ids(*command).contains(id) {
                            let (i, j) = choose|i: int, j: int|
                                0 <= i < ingestions@.len() && 0 <= j
                                    < ingestions@[i].subsource_ids@.len()
                                    && #[trigger] ingestions@[i].subsource_ids@[j] == id;
                            assert(ingestions@[i].subsource_ids@[j] == id);
                        }
                    }
                    assert(seen =~= command_ids(*command));
                }
            },
            StorageCommand::RunSinks(exports) => {
                let mut ids: Vec<GlobalId> = Vec::new();
                let mut n: usize = 0;
                while n < exports.len()
                    invariant
                        n <= exports.len(),
                        ids@.len() == n,
                        forall|i: int| 0 <= i < n ==> ids@[i] == (#[trigger] exports@[i]).id,
                    decreases exports.len() - n,
                {
                    ids.push(exports[n].id);
                    n += 1;
                }
                self.insert_new_uppers(&ids);
                proof {
                    assert forall|id: u64| ids@.contains(id) <==> command_ids(*command).contains(
                        id,
                    ) by {
                        if ids@.contains(id) {
                            let i = choose|i: int| 0 <= i < ids@.len() && ids@[i] == id;
                            assert(exports@[i].id == id);
                        }
                        if command_ids(*command).contains(id) {
                            let i = choose|i: int|
                                0 <= i < exports@.len() && (#[trigger] exports@[i]).id == id;
                            assert(ids@[i] == id);
                        }
                    }
                }
            },
            _ => {
                proof {
                    assert(command_ids(*command) =~= Set::<u64>::empty());
                }
            },
        }
    }

    /// Splits a command among the shards. The command that creates the
    /// timely cluster is reshaped for each shard, which gets the
    /// configuration with itself as the process; every other command goes to
    /// every shard as it is.
    pub fn split_command(&mut self, command: StorageCommand) -> (r: Vec<Option<StorageCommand>>)
        requires
            old(self).wf(),
        ensures
            final(self).wf(),
            old(self).extended_by(command_ids(command), final(self)),
            r@.len() == old(self).spec_parts(),
            forall|i: int|
                0 <= i < r@.len() ==> match (#[trigger] r@[i], command) {
                    (
                        Some(StorageCommand::CreateTimely { config: part, epoch: part_epoch }),
                        StorageCommand::CreateTimely { config, epoch },
                    ) => part_epoch == epoch && part.process == i && same_shape(part, config),
                    (Some(part), _) => !(command is CreateTimely) && same_command(part, command),
                    (None, _) => false,
                },
    {
        self.observe_command(&command);
        let mut r: Vec<Option<StorageCommand>> = Vec::new();
        match &command {
            StorageCommand::CreateTimely { config, epoch } => {
                let mut part: usize = 0;
                while part < self.parts
                    invariant
                        part <= self.parts,
                        r@.len() == part,
                        forall|i: int|
                            0 <= i < part ==> (#[trigger] r@[i] matches Some(
                                StorageCommand::CreateTimely { config: c, epoch: e },
                            ) && e == *epoch && c.process == i && same_shape(c, *config)),
                    decreases self.parts - part,
                {
                    r.push(
                        Some(
                            StorageCommand::CreateTimely {
                                config: config.for_process(part),
                                epoch: *epoch,
                            },
                        ),
                    );
                    part += 1;
                }
            },
            _ => {
                let mut part: usize = 0;
                while part < self.parts
                    invariant
                        part <= self.parts,
                        r@.len() == part,
                        !(command is CreateTimely),
                        forall|i: int|
                            0 <= i < part ==> (#[trigger] r@[i] matches Some(c) && same_command(
                                c,
                                command,
                            )),
                    decreases self.parts - part,
                {
                    r.push(Some(command.clone()));
                    part += 1;
                }
            },
        }
        r
    }
}

} // verus!
