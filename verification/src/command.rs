//! The commands that the controller sends to a storage cluster.

use crate::client::uppers_view;
use crate::frontier::Frontier;
use crate::ids::GlobalId;
use vstd::prelude::*;

verus! {

/// The shape of the timely cluster that a storage server is to create.
#[derive(Debug, PartialEq, Eq)]
pub struct TimelyConfig {
    /// The number of workers of each process.
    pub workers: usize,
    /// The index of the process that the configuration is for.
    pub process: usize,
    /// The addresses of all processes.
    pub addresses: Vec<String>,
    /// The effort that idle arrangements spend on merging.
    pub idle_arrangement_merge_effort: u32,
}

/// Tells one incarnation of a cluster from the next.
#[derive(Clone, Copy, Debug, PartialEq, Eq, Structural)]
pub struct ClusterStartupEpoch {
    pub envd: i64,
    pub replica: u64,
}

/// The configuration of a storage instance, as the wire carries it.
#[derive(Debug, PartialEq, Eq)]
pub struct StorageParameters {
    pub encoded: Vec<u8>,
}

/// Starts the ingestion of a source.
#[derive(Debug, PartialEq, Eq)]
pub struct RunIngestionCommand {
    /// The storage collection that is ingested.
    pub id: GlobalId,
    /// The collections that the ingestion writes to.
    pub subsource_ids: Vec<GlobalId>,
}

/// Starts the export of a sink.
#[derive(Clone, Copy, Debug, PartialEq, Eq, Structural)]
pub struct RunSinkCommand {
    pub id: GlobalId,
}

/// The commands of the storage protocol.
#[derive(Debug, PartialEq)]
pub enum StorageCommand {
    /// The shape of the timely cluster to create. It comes before every
    /// other command.
    CreateTimely { config: TimelyConfig, epoch: ClusterStartupEpoch },
    /// The controller has sent all commands of its initial state.
    InitializationComplete,
    /// Updates the configuration of the storage instance.
    UpdateConfiguration(StorageParameters),
    /// Runs the listed sources.
    RunIngestions(Vec<RunIngestionCommand>),
    /// Permits compaction: each collection with the frontier from which its
    /// accumulations must stay correct.
    AllowCompaction(Vec<(GlobalId, Frontier)>),
    /// Runs the listed sinks.
    RunSinks(Vec<RunSinkCommand>),
}

/// A list of ingestions as the mathematics sees it.
pub open spec fn ingestions_view(list: Seq<RunIngestionCommand>) -> Seq<(u64, Seq<u64>)> {
    list.map_values(|c: RunIngestionCommand| (c.id, c.subsource_ids@))
}

/// Whether two configurations agree in all but the process.
pub open spec fn same_shape(a: TimelyConfig, b: TimelyConfig) -> bool {
    &&& a.workers == b.workers
    &&& a.addresses.deep_view() == b.addresses.deep_view()
    &&& a.idle_arrangement_merge_effort == b.idle_arrangement_merge_effort
}

/// Whether two commands say the same.
pub open spec fn same_command(a: StorageCommand, b: StorageCommand) -> bool {
    match (a, b) {
        (
            StorageCommand::CreateTimely { config: c1, epoch: e1 },
            StorageCommand::CreateTimely { config: c2, epoch: e2 },
        ) => e1 == e2 && c1.process == c2.process && same_shape(c1, c2),
        (StorageCommand::InitializationComplete, StorageCommand::InitializationComplete) => true,
        (StorageCommand::UpdateConfiguration(p1), StorageCommand::UpdateConfiguration(p2)) => {
            p1.encoded@ == p2.encoded@
        },
        (StorageCommand::RunIngestions(l1), StorageCommand::RunIngestions(l2)) => {
            ingestions_view(l1@) == ingestions_view(l2@)
        },
        (StorageCommand::AllowCompaction(l1), StorageCommand::AllowCompaction(l2)) => {
            uppers_view(l1@) == uppers_view(l2@)
        },
        (StorageCommand::RunSinks(l1), StorageCommand::RunSinks(l2)) => l1@ == l2@,
        _ => false,
    }
}

/// The collections that a command starts to run: the collections that its
/// ingestions write to, and its sinks.
pub open spec fn command_ids(command: StorageCommand) -> Set<u64> {
    match command {
        StorageCommand::RunIngestions(list) => Set::new(
            |id: u64|
                exists|i: int, j: int|
                    0 <= i < list@.len() && 0 <= j < list@[i].subsource_ids@.len()
                        && #[trigger] list@[i].subsource_ids@[j] == id,
        ),
        StorageCommand::RunSinks(list) => Set::new(
            |id: u64| exists|i: int| 0 <= i < list@.len() && (#[trigger] list@[i]).id == id,
        ),
        _ => Set::empty(),
    }
}

/// A copy of a list of numbers.
pub fn copy_ids(ids: &Vec<u64>) -> (r: Vec<u64>)
    ensures
        r@ == ids@,
{
    let mut r: Vec<u64> = Vec::new();
    let mut i: usize = 0;
    while i < ids.len()
        invariant
            i <= ids.len(),
            r@ == ids@.take(i as int),
        decreases ids.len() - i,
    {
        r.push(ids[i]);
        assert(ids@.take(i + 1) =~= ids@.take(i as int).push(ids@[i as int]));
        i += 1;
    }
    assert(ids@.take(i as int) =~= ids@);
    r
}

impl TimelyConfig {
    /// A copy of the configuration, for the process `process`.
    pub fn for_process(&self, process: usize) -> (r: TimelyConfig)
        ensures
            r.process == process,
            same_shape(r, *self),
    {
        let mut addresses: Vec<String> = Vec::new();
        let mut i: usize = 0;
        while i < self.addresses.len()
            invariant
                i <= self.addresses.len(),
                addresses.deep_view() == self.addresses.deep_view().take(i as int),
            decreases self.addresses.len() - i,
        {
            let address = self.addresses[i].clone();
            let ghost before = addresses.deep_view();
            addresses.push(address);
            proof {
                assert(addresses.deep_view() =~= before.push(address.deep_view()));
                assert(self.addresses.deep_view().take(i + 1) =~= self.addresses.deep_view().take(
                    i as int,
                ).push(self.addresses@[i as int].deep_view()));
            }
            i += 1;
        }
        proof {
            assert(self.addresses.deep_view().take(i as int) =~= self.addresses.deep_view());
        }
        TimelyConfig {
            workers: self.workers,
            process,
            addresses,
            idle_arrangement_merge_effort: self.idle_arrangement_merge_effort,
        }
    }

    /// The configuration of each of `parts` processes: that of process `i`
    /// is this one with `i` as its process.
    pub fn split_command(&self, parts: usize) -> (r: Vec<TimelyConfig>)
        ensures
            r@.len() == parts,
            forall|i: int|
                0 <= i < parts ==> (#[trigger] r@[i]).process == i && same_shape(r@[i], *self),
    {
        let mut r: Vec<TimelyConfig> = Vec::new();
        let mut part: usize = 0;
        while part < parts
            invariant
                part <= parts,
                r@.len() == part,
                forall|i: int|
                    0 <= i < part ==> (#[trigger] r@[i]).process == i && same_shape(r@[i], *self),
            decreases parts - part,
        {
            r.push(self.for_process(part));
            part += 1;
        }
        r
    }
}

impl Clone for StorageCommand {
    fn clone(&self) -> (r: Self)
        ensures
            same_command(r, *self),
    {
        match self {
            StorageCommand::CreateTimely { config, epoch } => StorageCommand::CreateTimely {
                config: config.for_process(config.process),
                epoch: *epoch,
            },
            StorageCommand::InitializationComplete => StorageCommand::InitializationComplete,
            StorageCommand::UpdateConfiguration(params) => {
                let mut encoded: Vec<u8> = Vec::new();
                let mut i: usize = 0;
                while i < params.encoded.len()
                    invariant
                        i <= params.encoded.len(),
                        encoded@ == params.encoded@.take(i as int),
                    decreases params.encoded.len() - i,
                {
                    encoded.push(params.encoded[i]);
                    assert(params.encoded@.take(i + 1) =~= params.encoded@.take(i as int).push(
                        params.encoded@[i as int],
                    ));
                    i += 1;
                }
                assert(params.encoded@.take(i as int) =~= params.encoded@);
                StorageCommand::UpdateConfiguration(StorageParameters { encoded })
            },
            StorageCommand::RunIngestions(list) => {
                let mut copy: Vec<RunIngestionCommand> = Vec::new();
                let mut i: usize = 0;
                while i < list.len()
                    invariant
                        i <= list.len(),
                        ingestions_view(copy@) == ingestions_view(list@).take(i as int),
                    decreases list.len() - i,
                {
                    let ghost before = copy@;
                    let entry = RunIngestionCommand {
                        id: list[i].id,
                        subsource_ids: copy_ids(&list[i].subsource_ids),
                    };
                    copy.push(entry);
                    proof {
                        assert(ingestions_view(copy@) =~= ingestions_view(before).push(
                            (entry.id, entry.subsource_ids@),
                        ));
                        assert(ingestions_view(list@).take(i + 1) =~= ingestions_view(list@).take(
                            i as int,
                        ).push(ingestions_view(list@)[i as int]));
                    }
                    i += 1;
                }
                assert(ingestions_view(list@).take(i as int) =~= ingestions_view(list@));
                StorageCommand::RunIngestions(copy)
            },
            StorageCommand::AllowCompaction(list) => {
                let mut copy: Vec<(GlobalId, Frontier)> = Vec::new();
                let mut i: usize = 0;
                while i < list.len()
                    invariant
                        i <= list.len(),
                        uppers_view(copy@) == uppers_view(list@).take(i as int),
                    decreases list.len() - i,
                {
                    let ghost before = copy@;
                    let entry = (list[i].0, list[i].1.clone());
                    copy.push(entry);
                    proof {
                        assert(uppers_view(copy@) =~= uppers_view(before).push(
                            (entry.0, entry.1@),
                        ));
                        assert(uppers_view(list@).take(i + 1) =~= uppers_view(list@).take(
                            i as int,
                        ).push(uppers_view(list@)[i as int]));
                    }
                    i += 1;
                }
                assert(uppers_view(list@).take(i as int) =~= uppers_view(list@));
                StorageCommand::AllowCompaction(copy)
            },
            StorageCommand::RunSinks(list) => {
                let mut copy: Vec<RunSinkCommand> = Vec::new();
                let mut i: usize = 0;
                while i < list.len()
                    invariant
                        i <= list.len(),
                        copy@ == list@.take(i as int),
                    decreases list.len() - i,
                {
                    copy.push(list[i]);
                    assert(list@.take(i + 1) =~= list@.take(i as int).push(list@[i as int]));
                    i += 1;
                }
                assert(list@.take(i as int) =~= list@);
                StorageCommand::RunSinks(copy)
            },
        }
    }
}

impl StorageCommand {
    /// The configuration and the epoch of the command that creates the
    /// timely cluster; every other command is handed back as it is.
    pub fn try_into_timely_config(self) -> (r: Result<(TimelyConfig, ClusterStartupEpoch), Self>)
        ensures
            match self {
                StorageCommand::CreateTimely { config, epoch } => r == Ok::<
                    (TimelyConfig, ClusterStartupEpoch),
                    StorageCommand,
                >((config, epoch)),
                _ => r == Err::<(TimelyConfig, ClusterStartupEpoch), StorageCommand>(self),
            },
    {
        match self {
            StorageCommand::CreateTimely { config, epoch } => Ok((config, epoch)),
            cmd => Err(cmd),
        }
    }
}

} // verus!
