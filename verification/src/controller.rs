//! The controller: what it holds of its collections, its watch sets, and the
//! state machine by which its owner waits for work and processes it.
//!
//! The owner runs the loop. It calls `ready`, which says at once whether
//! there is work; where there is none, the owner waits for the first of the
//! storage layer, the compute layer, the metrics channel and the frontier
//! timer, and calls `ready` again with the one that came first. It then does
//! what the recorded readiness asks for and hands the outcome to `process`.

use crate::client::uppers_view;
use crate::frontier::{frontier_less_equal, Frontier};
use crate::ids::{set_members, GlobalId};
use crate::watch_set::{after_updates, handed_back, hands_back, Watch, WatchSets};
use std::collections::{BTreeMap, BTreeSet};
use vstd::prelude::*;

verus! {

/// Identifies a replica of a cluster.
pub type ReplicaId = u64;

/// Whether one of the sources of work is ready to be processed, and which.
#[derive(Clone, Copy, Debug, PartialEq, Eq, Structural)]
pub enum Readiness {
    /// Nothing is ready.
    NotReady,
    /// The storage controller is ready.
    Storage,
    /// The compute controller is ready.
    Compute,
    /// The metrics channel has data.
    Metrics,
    /// Frontiers are due to be recorded.
    Frontiers,
    /// A message that the controller made itself is ready to be returned.
    Internal,
}

/// The source of work that came first while the owner waited.
#[derive(Clone, Copy, Debug, PartialEq, Eq, Structural)]
pub enum Wake {
    Storage,
    Compute,
    Metrics,
    Frontiers,
}

/// The readiness that a source of work brings about.
pub open spec fn readiness_of(wake: Wake) -> Readiness {
    match wake {
        Wake::Storage => Readiness::Storage,
        Wake::Compute => Readiness::Compute,
        Wake::Metrics => Readiness::Metrics,
        Wake::Frontiers => Readiness::Frontiers,
    }
}

/// What a call of `ready` leaves recorded: what was recorded before, if
/// anything was; else `Internal` where tokens wait to be handed back without
/// delay; else what the source of work that came first brings about.
pub open spec fn readiness_after(before: Readiness, has_immediate: bool, wake: Option<Wake>)
    -> Readiness {
    if before != Readiness::NotReady {
        before
    } else if has_immediate {
        Readiness::Internal
    } else {
        match wake {
            Some(wake) => readiness_of(wake),
            None => Readiness::NotReady,
        }
    }
}

/// Configures a controller.
#[derive(Debug)]
pub struct ControllerConfig {
    /// The URL of the stash of the storage controller.
    pub storage_stash_url: String,
    /// The image to use when starting new cluster processes.
    pub clusterd_image: String,
    /// The image of the init container of cluster processes.
    pub init_container_image: Option<String>,
    /// The URL of the pub-sub service of the persistence layer.
    pub persist_pubsub_url: String,
    /// The connection context, to hand on to the clusters.
    pub connection_context: ConnectionContext,
}

/// How the clusters connect to the outside.
#[derive(Debug, PartialEq, Eq)]
pub struct ConnectionContext {
    /// The id of the environment.
    pub environment_id: String,
    /// The URL of the AWS external id prefix, if there is one.
    pub aws_external_id_prefix: Option<String>,
}

/// The configuration of the storage layer.
#[derive(Debug, PartialEq, Eq)]
pub struct StorageConfiguration {
    /// How the clusters connect to the outside.
    pub connection_context: ConnectionContext,
}

/// How the orchestrator schedules services.
#[derive(Clone, Copy, Debug, PartialEq, Eq, Structural)]
pub struct ServiceSchedulingConfig {
    pub multi_pod_az_affinity_weight: Option<i32>,
    pub soften_replication_anti_affinity: bool,
    pub soften_replication_anti_affinity_weight: i32,
}

/// What a controller has been told of how to run.
#[derive(Clone, Copy, Debug, PartialEq, Eq, Structural)]
pub struct Settings {
    /// How the orchestrator schedules services, once it has been told.
    pub scheduling_config: Option<ServiceSchedulingConfig>,
    /// The effort that idle arrangements spend on merging, by default.
    pub default_idle_arrangement_merge_effort: Option<u32>,
    /// The proportionality of the exertion of arrangements, by default.
    pub default_arrangement_exert_proportionality: Option<u32>,
    /// Whether read holds are downgraded aggressively.
    pub enable_aggressive_readhold_downgrades: Option<bool>,
    /// Whether the end of the initial commands has been marked.
    pub initialized: bool,
}

/// What the compute controller answers.
pub enum ComputeControllerResponse<C> {
    /// The answer to a peek, by the id of the peek.
    PeekResponse(u128, C),
    /// The next answer to a subscribe.
    SubscribeResponse(GlobalId, C),
    /// The next answer to a copy-to: the number of rows, or an error.
    CopyToResponse(GlobalId, Result<u64, String>),
    /// A new write frontier of a collection.
    FrontierUpper { id: GlobalId, upper: Frontier },
}

/// What the controller answers.
pub enum ControllerResponse<C, M, W> {
    /// The answer of a worker to a peek, by the id of the peek.
    PeekResponse(u128, C),
    /// The next answer of a worker to a subscribe.
    SubscribeResponse(GlobalId, C),
    /// The next answer of a worker to a copy-to.
    CopyToResponse(GlobalId, Result<u64, String>),
    /// New metrics of the resource usage of a replica.
    ComputeReplicaMetrics(ReplicaId, Vec<M>),
    /// The tokens of the watch sets that are finished.
    WatchSetFinished(Vec<W>),
}

/// What the owner found when it did the work that the recorded readiness
/// asked for.
pub enum Outcome<C, M> {
    /// There was nothing to hand over: nothing was ready, frontiers were
    /// recorded, or the work is the controller's own.
    Nothing,
    /// What the storage controller answered: new write frontiers, or nothing,
    /// or an error.
    Storage(Result<Option<Vec<(GlobalId, Frontier)>>, String>),
    /// What the compute controller answered, if it answered.
    Compute(Option<ComputeControllerResponse<C>>),
    /// What the metrics channel held, if it held anything.
    Metrics(Option<(ReplicaId, Vec<M>)>),
}

/// Whether an outcome is that of the work that a readiness asks for.
pub open spec fn answers<C, M>(outcome: Outcome<C, M>, readiness: Readiness) -> bool {
    match readiness {
        Readiness::Storage => outcome is Storage,
        Readiness::Compute => outcome is Compute,
        Readiness::Metrics => outcome is Metrics,
        _ => outcome is Nothing,
    }
}

/// The updates of write frontiers that an outcome brings.
pub open spec fn frontier_updates_of<C, M>(outcome: Outcome<C, M>) -> Seq<(u64, Option<u64>)> {
    match outcome {
        Outcome::Storage(Ok(Some(updates))) => uppers_view(updates@),
        Outcome::Compute(Some(ComputeControllerResponse::FrontierUpper { id, upper })) => seq![
            (id, upper@),
        ],
        _ => Seq::empty(),
    }
}

/// The recorded write frontiers after a list of updates, one after the
/// other: each update replaces what was recorded for its collection.
pub open spec fn recorded(
    frontiers: Map<GlobalId, Option<u64>>,
    updates: Seq<(u64, Option<u64>)>,
) -> Map<GlobalId, Option<u64>>
    decreases updates.len(),
{
    if updates.len() == 0 {
        frontiers
    } else {
        recorded(frontiers.insert(updates[0].0, updates[0].1), updates.drop_first())
    }
}

/// A client that keeps soft state of its collections and watches their
/// frontiers.
pub struct Controller<W> {
    /// The most recent write frontier of each collection.
    write_frontiers: BTreeMap<GlobalId, Frontier>,
    /// The configuration of the storage layer.
    storage_configuration: StorageConfiguration,
    /// The image to use when starting new cluster processes.
    clusterd_image: String,
    /// The image of the init container of cluster processes.
    init_container_image: Option<String>,
    /// The URL of the pub-sub service of the persistence layer.
    persist_pubsub_url: String,
    /// What the controller has been told of how to run.
    settings: Settings,
    /// Which source of work is ready.
    readiness: Readiness,
    /// The watch sets.
    watch_sets: WatchSets<W>,
}

impl<W> Controller<W> {
    /// The recorded readiness.
    pub closed spec fn spec_readiness(&self) -> Readiness {
        self.readiness
    }

    /// The pending watches, by handle.
    pub closed spec fn pending(&self) -> Map<u64, Watch<W>> {
        self.watch_sets.pending()
    }

    /// The tokens that wait to be handed back without delay.
    pub closed spec fn immediate(&self) -> Seq<W> {
        self.watch_sets.immediate()
    }

    /// How many watches have been installed to wait.
    pub closed spec fn installed(&self) -> nat {
        self.watch_sets.installed()
    }

    /// The collections with a recorded write frontier, and those frontiers.
    pub closed spec fn write_frontiers(&self) -> Map<GlobalId, Option<u64>> {
        self.write_frontiers@.map_values(|f: Frontier| f@)
    }

    /// What the controller has been told of how to run.
    pub closed spec fn spec_settings(&self) -> Settings {
        self.settings
    }

    /// The configuration of the storage layer.
    pub closed spec fn spec_storage_configuration(&self) -> StorageConfiguration {
        self.storage_configuration
    }

    /// The invariant of the controller: that of its watch sets.
    pub closed spec fn wf(&self) -> bool {
        self.watch_sets.wf()
    }

    /// Creates a new controller: nothing is ready, no collection has a
    /// write frontier, and no watch is installed.
    pub fn new(config: ControllerConfig) -> (r: Self)
        ensures
            r.wf(),
            r.spec_readiness() == Readiness::NotReady,
            r.pending() == Map::<u64, Watch<W>>::empty(),
            r.immediate() == Seq::<W>::empty(),
            r.installed() == 0,
            r.write_frontiers() == Map::<GlobalId, Option<u64>>::empty(),
            r.spec_storage_configuration().connection_context == config.connection_context,
            r.spec_settings() == (Settings {
                scheduling_config: None,
                default_idle_arrangement_merge_effort: None,
                default_arrangement_exert_proportionality: None,
                enable_aggressive_readhold_downgrades: None,
                initialized: false,
            }),
    {
        let r = Controller {
            write_frontiers: BTreeMap::new(),
            storage_configuration: StorageConfiguration {
                connection_context: config.connection_context,
            },
            clusterd_image: config.clusterd_image,
            init_container_image: config.init_container_image,
            persist_pubsub_url: config.persist_pubsub_url,
            settings: Settings {
                scheduling_config: None,
                default_idle_arrangement_merge_effort: None,
                default_arrangement_exert_proportionality: None,
                enable_aggressive_readhold_downgrades: None,
                initialized: false,
            },
            readiness: Readiness::NotReady,
            watch_sets: WatchSets::new(),
        };
        proof {
            assert(r.write_frontiers() =~= Map::<GlobalId, Option<u64>>::empty());
        }
        r
    }

    /// The recorded readiness.
    #[verifier::when_used_as_spec(spec_readiness)]
    pub fn readiness(&self) -> (r: Readiness)
        ensures
            r == self.spec_readiness(),
    {
        self.readiness
    }

    /// Records the write frontier of a collection, in place of what was
    /// recorded for it before.
    pub fn update_write_frontier(&mut self, id: GlobalId, frontier: Frontier)
        ensures
            final(self).write_frontiers() == old(self).write_frontiers().insert(id, frontier@),
            final(self).wf() == old(self).wf(),
            final(self).spec_readiness() == old(self).spec_readiness(),
            final(self).pending() == old(self).pending(),
            final(self).immediate() == old(self).immediate(),
            final(self).installed() == old(self).installed(),
            final(self).spec_settings() == old(self).spec_settings(),
            final(self).spec_storage_configuration() == old(self).spec_storage_configuration(),
    {
        proof {
            broadcast use vstd::std_specs::btree::group_btree_axioms;

        }
        self.write_frontiers.insert(id, frontier);
        proof {
            assert(self.write_frontiers() =~= old(self).write_frontiers().insert(id, frontier@));
        }
    }

    /// Whether a write frontier is recorded for the collection `id`.
    pub fn has_write_frontier(&self, id: GlobalId) -> (r: bool)
        ensures
            r == self.write_frontiers().contains_key(id),
    {
        proof {
            broadcast use vstd::std_specs::btree::group_btree_axioms;

        }
        self.write_frontiers.contains_key(&id)
    }

    /// How many more watches can be installed to wait.
    pub fn watch_headroom(&self) -> (r: u64)
        ensures
            r == u64::MAX - self.installed(),
    {
        self.watch_sets.headroom()
    }
}

/// The tokens that processing hands back when the owner found nothing to
/// hand over: those that wait to be handed back without delay, where the
/// controller's own work was recorded and there are any.
pub open spec fn handed_back_at_once<W>(readiness: Readiness, immediate: Seq<W>) -> Option<
    Seq<W>,
> {
    if readiness == Readiness::Internal && immediate.len() > 0 {
        Some(immediate)
    } else {
        None
    }
}

/// A watch set whose collections have all passed its time is handed back by
/// the next round of processing: none of its collections is left to wait
/// for, so that its token is queued; with nothing recorded as ready, the
/// next call of `ready` records the controller's own work, whichever source
/// of work came first; and processing that work hands back what is queued,
/// the token last.
pub proof fn law_satisfied_watch_fires_in_the_next_round<W>(
    frontiers: Map<GlobalId, Option<u64>>,
    objects: Set<GlobalId>,
    t: u64,
    token: W,
    queued: Seq<W>,
    wake: Option<Wake>,
)
    requires
        forall|id: GlobalId| objects.contains(id) ==> !frontier_less_equal(frontiers[id], t),
    ensures
        still_waiting(frontiers, objects, t).is_empty(),
        readiness_after(Readiness::NotReady, queued.push(token).len() > 0, wake)
            == Readiness::Internal,
        handed_back_at_once(Readiness::Internal, queued.push(token)) == Some(queued.push(token)),
        queued.push(token).last() == token,
{
    assert forall|id: GlobalId| !still_waiting(frontiers, objects, t).contains(id) by {
    }
}

/// The collections of `objects` whose recorded write frontier has not passed
/// `t`: it still has a time at or below `t`.
pub open spec fn still_waiting(
    frontiers: Map<GlobalId, Option<u64>>,
    objects: Set<GlobalId>,
    t: u64,
) -> Set<GlobalId> {
    Set::new(|id: GlobalId| objects.contains(id) && frontier_less_equal(frontiers[id], t))
}

impl<W> Controller<W> {
    /// Sets the effort that idle arrangements spend on merging, by default.
    pub fn set_default_idle_arrangement_merge_effort(&mut self, value: u32)
        ensures
            final(self).spec_settings() == (Settings {
                default_idle_arrangement_merge_effort: Some(value),
                ..old(self).spec_settings()
            }),
            final(self).wf() == old(self).wf(),
            final(self).spec_readiness() == old(self).spec_readiness(),
            final(self).pending() == old(self).pending(),
            final(self).immediate() == old(self).immediate(),
            final(self).installed() == old(self).installed(),
            final(self).write_frontiers() == old(self).write_frontiers(),
            final(self).spec_storage_configuration() == old(self).spec_storage_configuration(),
    {
        self.settings.default_idle_arrangement_merge_effort = Some(value);
    }

    /// Sets the proportionality of the exertion of arrangements, by default.
    pub fn set_default_arrangement_exert_proportionality(&mut self, value: u32)
        ensures
            final(self).spec_settings() == (Settings {
                default_arrangement_exert_proportionality: Some(value),
                ..old(self).spec_settings()
            }),
            final(self).wf() == old(self).wf(),
            final(self).spec_readiness() == old(self).spec_readiness(),
            final(self).pending() == old(self).pending(),
            final(self).immediate() == old(self).immediate(),
            final(self).installed() == old(self).installed(),
            final(self).write_frontiers() == old(self).write_frontiers(),
            final(self).spec_storage_configuration() == old(self).spec_storage_configuration(),
    {
        self.settings.default_arrangement_exert_proportionality = Some(value);
    }

    /// Sets whether read holds are downgraded aggressively.
    pub fn set_enable_compute_aggressive_readhold_downgrades(&mut self, value: bool)
        ensures
            final(self).spec_settings() == (Settings {
                enable_aggressive_readhold_downgrades: Some(value),
                ..old(self).spec_settings()
            }),
            final(self).wf() == old(self).wf(),
            final(self).spec_readiness() == old(self).spec_readiness(),
            final(self).pending() == old(self).pending(),
            final(self).immediate() == old(self).immediate(),
            final(self).installed() == old(self).installed(),
            final(self).write_frontiers() == old(self).write_frontiers(),
            final(self).spec_storage_configuration() == old(self).spec_storage_configuration(),
    {
        self.settings.enable_aggressive_readhold_downgrades = Some(value);
    }

    /// Tells the controller how the orchestrator schedules services.
    pub fn update_orchestrator_scheduling_config(&mut self, config: ServiceSchedulingConfig)
        ensures
            final(self).spec_settings() == (Settings {
                scheduling_config: Some(config),
                ..old(self).spec_settings()
            }),
            final(self).wf() == old(self).wf(),
            final(self).spec_readiness() == old(self).spec_readiness(),
            final(self).pending() == old(self).pending(),
            final(self).immediate() == old(self).immediate(),
            final(self).installed() == old(self).installed(),
            final(self).write_frontiers() == old(self).write_frontiers(),
            final(self).spec_storage_configuration() == old(self).spec_storage_configuration(),
    {
        self.settings.scheduling_config = Some(config);
    }

    /// Marks the end of the commands of the initial state.
    pub fn initialization_complete(&mut self)
        ensures
            final(self).spec_settings() == (Settings {
                initialized: true,
                ..old(self).spec_settings()
            }),
            final(self).wf() == old(self).wf(),
            final(self).spec_readiness() == old(self).spec_readiness(),
            final(self).pending() == old(self).pending(),
            final(self).immediate() == old(self).immediate(),
            final(self).installed() == old(self).installed(),
            final(self).write_frontiers() == old(self).write_frontiers(),
            final(self).spec_storage_configuration() == old(self).spec_storage_configuration(),
    {
        self.settings.initialized = true;
    }

    /// What the controller has been told of how to run.
    pub fn settings(&self) -> (r: Settings)
        ensures
            r == self.spec_settings(),
    {
        self.settings
    }

    /// The connection context that the controller was made with.
    pub fn connection_context(&self) -> (r: &ConnectionContext)
        ensures
            *r == self.spec_storage_configuration().connection_context,
    {
        &self.storage_configuration.connection_context
    }

    /// The configuration of the storage layer.
    pub fn storage_configuration(&self) -> (r: &StorageConfiguration)
        ensures
            *r == self.spec_storage_configuration(),
    {
        &self.storage_configuration
    }

    /// A time that reflects all data available in the sources at the time
    /// of the call: for now, the least time.
    pub fn recent_timestamp(&self, source_ids: &Vec<GlobalId>) -> (r: u64)
        ensures
            r == 0,
    {
        0
    }

    /// Says whether there is work to process, and records which.
    ///
    /// Where work was recorded before, it stays. Else, where tokens wait to
    /// be handed back without delay, the controller's own work is recorded,
    /// whatever source of work came first. Else the source of work that came
    /// first is recorded; without one, nothing is ready, and the owner has
    /// to wait.
    pub fn ready(&mut self, wake: Option<Wake>) -> (is_ready: bool)
        ensures
            final(self).spec_readiness() == readiness_after(
                old(self).spec_readiness(),
                old(self).immediate().len() > 0,
                wake,
            ),
            is_ready == (final(self).spec_readiness() != Readiness::NotReady),
            final(self).wf() == old(self).wf(),
            final(self).pending() == old(self).pending(),
            final(self).immediate() == old(self).immediate(),
            final(self).installed() == old(self).installed(),
            final(self).write_frontiers() == old(self).write_frontiers(),
            final(self).spec_settings() == old(self).spec_settings(),
            final(self).spec_storage_configuration() == old(self).spec_storage_configuration(),
    {
        match self.readiness {
            Readiness::NotReady => {
                if self.watch_sets.has_immediate() {
                    self.readiness = Readiness::Internal;
                } else {
                    match wake {
                        Some(Wake::Storage) => {
                            self.readiness = Readiness::Storage;
                        },
                        Some(Wake::Compute) => {
                            self.readiness = Readiness::Compute;
                        },
                        Some(Wake::Metrics) => {
                            self.readiness = Readiness::Metrics;
                        },
                        Some(Wake::Frontiers) => {
                            self.readiness = Readiness::Frontiers;
                        },
                        None => {},
                    }
                }
            },
            _ => {},
        }
        match self.readiness {
            Readiness::NotReady => false,
            _ => true,
        }
    }

    /// Installs a watch set: the token is handed back, once, when the write
    /// frontiers of all of `objects` have passed `t`. The collections whose
    /// recorded write frontier has passed `t` already are not waited for;
    /// where none is left, the token is queued, behind those queued before,
    /// and handed back by the next round of processing. Otherwise the watch
    /// is pending under a new handle, greater than every earlier one: among
    /// the watches that one update finishes, its token comes back last.
    pub fn install_watch_set(&mut self, objects: BTreeSet<GlobalId>, t: u64, token: W)
        requires
            old(self).wf(),
            forall|id: GlobalId|
                objects@.contains(id) ==> old(self).write_frontiers().contains_key(id),
            old(self).installed() < u64::MAX,
        ensures
            final(self).wf(),
            final(self).spec_readiness() == old(self).spec_readiness(),
            final(self).write_frontiers() == old(self).write_frontiers(),
            final(self).spec_settings() == old(self).spec_settings(),
            final(self).spec_storage_configuration() == old(self).spec_storage_configuration(),
            forall|h: u64| old(self).pending().contains_key(h) ==> h < old(self).installed(),
            ({
                let waiting = still_waiting(old(self).write_frontiers(), objects@, t);
                if waiting.is_empty() {
                    &&& final(self).pending() == old(self).pending()
                    &&& final(self).immediate() == old(self).immediate().push(token)
                    &&& final(self).installed() == old(self).installed()
                } else {
                    &&& final(self).immediate() == old(self).immediate()
                    &&& final(self).installed() == old(self).installed() + 1
                    &&& final(self).pending() == old(self).pending().insert(
                        old(self).installed() as u64,
                        Watch { target: t, ids: waiting, token },
                    )
                }
            }),
    {
        let ids = set_members(&objects);
        let mut waiting: BTreeSet<GlobalId> = BTreeSet::new();
        let ghost frontiers = self.write_frontiers();
        let mut i: usize = 0;
        proof {
            crate::ids::lemma_take_none_to_set(ids@);
            assert(waiting@ =~= still_waiting(frontiers, ids@.take(0).to_set(), t));
        }
        while i < ids.len()
            invariant
                i <= ids.len(),
                ids@.to_set() == objects@,
                frontiers == self.write_frontiers(),
                forall|id: GlobalId| objects@.contains(id) ==> frontiers.contains_key(id),
                waiting@ == still_waiting(frontiers, ids@.take(i as int).to_set(), t),
                self == old(self),
            decreases ids.len() - i,
        {
            let id = ids[i];
            proof {
                broadcast use vstd::std_specs::btree::group_btree_axioms;

                crate::ids::lemma_take_next_to_set(ids@, i as int);
                assert(ids@.to_set().contains(id));
                assert(frontiers.contains_key(id));
                assert(self.write_frontiers@.contains_key(id));
            }
            let ghost before = waiting@;
            if self.write_frontiers.get(&id).unwrap().less_equal(t) {
                waiting.insert(id);
            }
            proof {
                assert(waiting@ =~= still_waiting(frontiers, ids@.take(i + 1).to_set(), t));
            }
            i += 1;
        }
        proof {
            assert(ids@.take(i as int) =~= ids@);
        }
        self.watch_sets.install(&waiting, t, token);
    }

    /// Records the write frontiers of a list of updates, one after the other.
    fn record_write_frontiers(&mut self, updates: &Vec<(GlobalId, Frontier)>)
        ensures
            final(self).write_frontiers() == recorded(
                old(self).write_frontiers(),
                uppers_view(updates@),
            ),
            final(self).wf() == old(self).wf(),
            final(self).spec_readiness() == old(self).spec_readiness(),
            final(self).pending() == old(self).pending(),
            final(self).immediate() == old(self).immediate(),
            final(self).installed() == old(self).installed(),
            final(self).spec_settings() == old(self).spec_settings(),
            final(self).spec_storage_configuration() == old(self).spec_storage_configuration(),
    {
        let ghost view = uppers_view(updates@);
        let mut j: usize = 0;
        proof {
            assert(view.skip(0) =~= view);
        }
        while j < updates.len()
            invariant
                j <= updates.len(),
                view == uppers_view(updates@),
                recorded(self.write_frontiers(), view.skip(j as int)) == recorded(
                    old(self).write_frontiers(),
                    view,
                ),
                self.wf() == old(self).wf(),
                self.spec_readiness() == old(self).spec_readiness(),
                self.pending() == old(self).pending(),
                self.immediate() == old(self).immediate(),
                self.installed() == old(self).installed(),
                self.spec_settings() == old(self).spec_settings(),
                self.spec_storage_configuration() == old(self).spec_storage_configuration(),
            decreases updates.len() - j,
        {
            proof {
                let rest = view.skip(j as int);
                assert(rest[0] == (updates@[j as int].0, updates@[j as int].1@));
                assert(rest.drop_first() =~= view.skip(j + 1));
            }
            let frontier = updates[j].1.clone();
            self.update_write_frontier(updates[j].0, frontier);
            j += 1;
        }
    }

    /// Takes in updates of write frontiers: each is recorded as the write
    /// frontier of its collection, and the watches are told of it. Returns
    /// the watch sets that the updates finish, if they finish any: the
    /// tokens of an earlier update first, and those of one update in the
    /// order in which their watch sets were installed.
    pub fn handle_frontier_updates<C, M>(&mut self, updates: &Vec<(GlobalId, Frontier)>) -> (r:
        Option<ControllerResponse<C, M, W>>)
        requires
            old(self).wf(),
        ensures
            final(self).wf(),
            final(self).spec_readiness() == old(self).spec_readiness(),
            final(self).write_frontiers() == recorded(
                old(self).write_frontiers(),
                uppers_view(updates@),
            ),
            final(self).immediate() == old(self).immediate(),
            final(self).installed() == old(self).installed(),
            final(self).spec_settings() == old(self).spec_settings(),
            final(self).spec_storage_configuration() == old(self).spec_storage_configuration(),
            final(self).pending() == after_updates(old(self).pending(), uppers_view(updates@)),
            hands_back(
                handed_back(old(self).pending(), uppers_view(updates@)),
                old(self).pending(),
                final(self).pending(),
            ),
            match r {
                Some(ControllerResponse::WatchSetFinished(tokens)) => tokens@.len() > 0 && tokens@
                    == handed_back(old(self).pending(), uppers_view(updates@)),
                Some(_) => false,
                None => handed_back(old(self).pending(), uppers_view(updates@)).len() == 0,
            },
    {
        self.record_write_frontiers(updates);
        let finished = self.watch_sets.absorb_updates(updates);
        if finished.len() > 0 {
            Some(ControllerResponse::WatchSetFinished(finished))
        } else {
            None
        }
    }
}

impl<W> Controller<W> {
    /// Processes the work that `ready` recorded, given what the owner found
    /// when it did that work, and records that nothing is ready.
    ///
    /// - Nothing ready, or frontiers recorded: there is no response.
    /// - Storage: an error is handed on; new write frontiers are recorded
    ///   and the watches told of them, one after the other, and the response
    ///   holds the watch sets that they finish, if any, in the order in
    ///   which they are finished.
    /// - Compute: a new write frontier is taken in likewise; every other
    ///   answer is handed on.
    /// - Metrics: the metrics are handed on.
    /// - Internal: the tokens that waited to be handed back without delay
    ///   are handed back, if there are any.
    pub fn process<C, M>(&mut self, outcome: Outcome<C, M>) -> (r: Result<
        Option<ControllerResponse<C, M, W>>,
        String,
    >)
        requires
            old(self).wf(),
            answers(outcome, old(self).spec_readiness()),
        ensures
            final(self).wf(),
            final(self).spec_readiness() == Readiness::NotReady,
            final(self).write_frontiers() == recorded(
                old(self).write_frontiers(),
                frontier_updates_of(outcome),
            ),
            final(self).installed() == old(self).installed(),
            final(self).spec_settings() == old(self).spec_settings(),
            final(self).spec_storage_configuration() == old(self).spec_storage_configuration(),
            final(self).pending() == after_updates(
                old(self).pending(),
                frontier_updates_of(outcome),
            ),
            final(self).immediate() == if old(self).spec_readiness() == Readiness::Internal {
                Seq::<W>::empty()
            } else {
                old(self).immediate()
            },
            match outcome {
                Outcome::Nothing => match handed_back_at_once(
                    old(self).spec_readiness(),
                    old(self).immediate(),
                ) {
                    Some(tokens) => r matches Ok(
                        Some(ControllerResponse::WatchSetFinished(finished)),
                    ) && finished@ == tokens,
                    None => r matches Ok(None),
                },
                Outcome::Storage(Err(e)) => r == Err::<
                    Option<ControllerResponse<C, M, W>>,
                    String,
                >(e),
                Outcome::Storage(Ok(None)) => r matches Ok(None),
                Outcome::Storage(Ok(Some(_))) | Outcome::Compute(
                    Some(ComputeControllerResponse::FrontierUpper { .. }),
                ) => {
                    let tokens = handed_back(old(self).pending(), frontier_updates_of(outcome));
                    &&& hands_back(tokens, old(self).pending(), final(self).pending())
                    &&& match r {
                        Ok(Some(ControllerResponse::WatchSetFinished(finished))) => tokens.len() > 0
                            && finished@ == tokens,
                        Ok(None) => tokens.len() == 0,
                        _ => false,
                    }
                },
                Outcome::Compute(Some(ComputeControllerResponse::PeekResponse(uuid, peek))) => r
                    matches Ok(Some(ControllerResponse::PeekResponse(u, p))) && u == uuid && p
                    == peek,
                Outcome::Compute(Some(ComputeControllerResponse::SubscribeResponse(id, batch))) => r
                    matches Ok(Some(ControllerResponse::SubscribeResponse(i, b))) && i == id && b
                    == batch,
                Outcome::Compute(Some(ComputeControllerResponse::CopyToResponse(id, rows))) => r
                    matches Ok(Some(ControllerResponse::CopyToResponse(i, n))) && i == id && n
                    == rows,
                Outcome::Compute(None) => r matches Ok(None),
                Outcome::Metrics(Some((id, metrics))) => r matches Ok(
                    Some(ControllerResponse::ComputeReplicaMetrics(i, m)),
                ) && i == id && m == metrics,
                Outcome::Metrics(None) => r matches Ok(None),
            },
    {
        let readiness = self.readiness;
        self.readiness = Readiness::NotReady;
        match outcome {
            Outcome::Nothing => {
                match readiness {
                    Readiness::Internal => {
                        let immediate_watch_sets = self.watch_sets.take_immediate();
                        if immediate_watch_sets.len() > 0 {
                            Ok(Some(ControllerResponse::WatchSetFinished(immediate_watch_sets)))
                        } else {
                            Ok(None)
                        }
                    },
                    _ => Ok(None),
                }
            },
            Outcome::Storage(Err(e)) => Err(e),
            Outcome::Storage(Ok(None)) => Ok(None),
            Outcome::Storage(Ok(Some(updates))) => Ok(self.handle_frontier_updates(&updates)),
            Outcome::Compute(None) => Ok(None),
            Outcome::Compute(Some(response)) => match response {
                ComputeControllerResponse::PeekResponse(uuid, peek) => Ok(
                    Some(ControllerResponse::PeekResponse(uuid, peek)),
                ),
                ComputeControllerResponse::SubscribeResponse(id, batch) => Ok(
                    Some(ControllerResponse::SubscribeResponse(id, batch)),
                ),
                ComputeControllerResponse::CopyToResponse(id, rows) => Ok(
                    Some(ControllerResponse::CopyToResponse(id, rows)),
                ),
                ComputeControllerResponse::FrontierUpper { id, upper } => {
                    let mut updates: Vec<(GlobalId, Frontier)> = Vec::new();
                    updates.push((id, upper));
                    proof {
                        assert(uppers_view(updates@) =~= seq![(id, upper@)]);
                    }
                    Ok(self.handle_frontier_updates(&updates))
                },
            },
            Outcome::Metrics(Some((id, metrics))) => Ok(
                Some(ControllerResponse::ComputeReplicaMetrics(id, metrics)),
            ),
            Outcome::Metrics(None) => Ok(None),
        }
    }
}

} // verus!
