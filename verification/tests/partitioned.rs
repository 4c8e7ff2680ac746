use frontier_control::client::{
    PartitionedStorageState, ProtocolViolation, SinkStatisticsUpdate, SourceStatisticsUpdate,
    Status, StatusUpdate, StorageClient, StorageResponse,
};
use frontier_control::command::{
    ClusterStartupEpoch, RunIngestionCommand, RunSinkCommand, StorageCommand, StorageParameters,
    TimelyConfig,
};
use frontier_control::frontier::Frontier;
use std::collections::BTreeSet;

fn tracking(parts: usize, ids: &[u64]) -> PartitionedStorageState {
    let mut state = PartitionedStorageState::new(parts);
    state.insert_new_uppers(&ids.to_vec());
    state
}

fn uppers(list: &[(u64, Option<u64>)]) -> StorageResponse {
    StorageResponse::FrontierUppers(
        list.iter()
            .map(|(id, t)| {
                (
                    *id,
                    match t {
                        Some(t) => Frontier::from_elem(*t),
                        None => Frontier::new(),
                    },
                )
            })
            .collect(),
    )
}

fn emitted(response: Option<StorageResponse>) -> Vec<(u64, Option<u64>)> {
    match response {
        None => vec![],
        Some(StorageResponse::FrontierUppers(list)) => {
            assert!(!list.is_empty());
            list.iter().map(|(id, f)| (*id, f.as_option())).collect()
        }
        Some(other) => panic!("unexpected response {:?}", other),
    }
}

#[test]
fn three_shard_drop() {
    let mut state = tracking(3, &[1]);
    assert!(state.is_tracked(1));
    assert_eq!(state.absorb_response(0, StorageResponse::DroppedIds(BTreeSet::from([1]))), None);
    assert!(state.is_tracked(1));
    assert!(!state.is_live(1, 0));
    assert!(state.is_live(1, 1));
    assert_eq!(state.absorb_response(1, StorageResponse::DroppedIds(BTreeSet::from([1]))), None);
    assert!(state.is_tracked(1));
    assert_eq!(
        state.absorb_response(2, StorageResponse::DroppedIds(BTreeSet::from([1]))),
        Some(StorageResponse::DroppedIds(BTreeSet::from([1])))
    );
    assert!(!state.is_tracked(1));
}

#[test]
fn drops_of_several_collections_are_gathered() {
    let mut state = tracking(2, &[1, 2, 3]);
    assert_eq!(state.absorb_response(0, StorageResponse::DroppedIds(BTreeSet::from([1, 2]))), None);
    assert_eq!(
        state.absorb_response(1, StorageResponse::DroppedIds(BTreeSet::from([2, 3]))),
        Some(StorageResponse::DroppedIds(BTreeSet::from([2])))
    );
    assert!(state.is_tracked(1));
    assert!(!state.is_tracked(2));
    assert!(state.is_tracked(3));
    assert_eq!(state.absorb_response(0, StorageResponse::DroppedIds(BTreeSet::new())), None);
}

#[test]
fn consolidated_frontier_is_the_common_upper() {
    for n in 1..5usize {
        let mut state = tracking(n, &[1]);
        assert_eq!(state.frontier(1).as_option(), Some(0));
        for shard in (0..n).rev() {
            let out = emitted(state.absorb_response(shard, uppers(&[(1, Some(7))])));
            if shard == 0 {
                assert_eq!(out, vec![(1, Some(7))]);
            } else {
                assert_eq!(out, vec![]);
            }
        }
        assert_eq!(state.frontier(1).as_option(), Some(7));
    }
}

#[test]
fn consolidated_frontier_is_empty_once_all_shards_are_done() {
    let mut state = tracking(2, &[1]);
    assert_eq!(emitted(state.absorb_response(1, uppers(&[(1, None)]))), vec![]);
    assert_eq!(emitted(state.absorb_response(0, uppers(&[(1, None)]))), vec![(1, None)]);
    assert_eq!(state.frontier(1).as_option(), None);
}

#[test]
fn consolidated_frontier_is_the_least_of_the_shards() {
    let mut state = tracking(3, &[1]);
    assert_eq!(emitted(state.absorb_response(0, uppers(&[(1, Some(5))]))), vec![]);
    assert_eq!(emitted(state.absorb_response(1, uppers(&[(1, Some(9))]))), vec![]);
    assert_eq!(emitted(state.absorb_response(2, uppers(&[(1, Some(3))]))), vec![(1, Some(3))]);
    assert_eq!(emitted(state.absorb_response(2, uppers(&[(1, Some(4))]))), vec![(1, Some(4))]);
    assert_eq!(emitted(state.absorb_response(2, uppers(&[(1, Some(8))]))), vec![(1, Some(5))]);
    assert_eq!(emitted(state.absorb_response(0, uppers(&[(1, Some(20))]))), vec![(1, Some(8))]);
    assert_eq!(emitted(state.absorb_response(1, uppers(&[(1, Some(20))]))), vec![]);
    assert_eq!(state.frontier(1).as_option(), Some(8));
}

#[test]
fn report_that_does_not_advance_emits_nothing() {
    let mut state = tracking(1, &[1]);
    assert_eq!(emitted(state.absorb_response(0, uppers(&[(1, Some(5))]))), vec![(1, Some(5))]);
    assert_eq!(emitted(state.absorb_response(0, uppers(&[(1, Some(5))]))), vec![]);
    assert_eq!(emitted(state.absorb_response(0, uppers(&[]))), vec![]);
    assert_eq!(state.frontier(1).as_option(), Some(5));
}

#[test]
fn emitted_frontiers_never_regress() {
    let mut state = tracking(2, &[1]);
    let reports: [(usize, Option<u64>); 10] = [
        (0, Some(5)),
        (1, Some(6)),
        (0, Some(9)),
        (1, Some(3)),
        (1, Some(8)),
        (0, Some(2)),
        (0, Some(30)),
        (1, Some(40)),
        (1, None),
        (0, None),
    ];
    let mut last: Option<Option<u64>> = None;
    let mut count = 0;
    for (shard, upper) in reports {
        for (id, f) in emitted(state.absorb_response(shard, uppers(&[(1, upper)]))) {
            assert_eq!(id, 1);
            if let Some(before) = last {
                let not_below = match (before, f) {
                    (_, None) => true,
                    (Some(a), Some(b)) => a <= b,
                    (None, Some(_)) => false,
                };
                assert!(not_below, "{:?} then {:?}", before, f);
            }
            last = Some(f);
            count += 1;
        }
    }
    // 5, then 6; after the report of 3 below the slot of 6 nothing advances.
    assert_eq!(count, 2);
    assert_eq!(last, Some(Some(6)));
}

#[test]
fn one_response_may_report_on_several_collections() {
    let mut state = tracking(1, &[1, 2, 3]);
    let out = emitted(state.absorb_response(
        0,
        uppers(&[(1, Some(4)), (2, Some(0)), (3, Some(6)), (1, Some(9))]),
    ));
    assert_eq!(out, vec![(1, Some(4)), (3, Some(6)), (1, Some(9))]);
}

#[test]
fn statistics_and_status_are_handed_on() {
    let mut state = tracking(2, &[1]);
    let source = SourceStatisticsUpdate {
        id: 1,
        worker_id: 0,
        messages_received: 3,
        bytes_received: 30,
        updates_staged: 2,
        updates_committed: 1,
    };
    let sink = SinkStatisticsUpdate {
        id: 2,
        worker_id: 1,
        messages_staged: 1,
        messages_committed: 1,
        bytes_staged: 8,
        bytes_committed: 8,
    };
    assert_eq!(
        state.absorb_response(1, StorageResponse::StatisticsUpdates(vec![source], vec![sink])),
        Some(StorageResponse::StatisticsUpdates(vec![source], vec![sink]))
    );
    let out = state.absorb_response(
        0,
        StorageResponse::StatusUpdates(vec![StatusUpdate::new(1, 5, Status::Stalled)]),
    );
    assert_eq!(
        out,
        Some(StorageResponse::StatusUpdates(vec![StatusUpdate::new(1, 5, Status::Stalled)]))
    );
    assert_eq!(state.frontier(1).as_option(), Some(0));
}

#[test]
fn admits_says_why_a_response_cannot_be_taken_in() {
    let mut state = tracking(2, &[1]);
    assert_eq!(state.admits(0, &uppers(&[(1, Some(4))])), Ok(()));
    assert_eq!(
        state.admits(0, &uppers(&[(1, Some(4)), (9, Some(4))])),
        Err(ProtocolViolation::AbsentCollection { id: 9 })
    );
    assert_eq!(
        state.admits(2, &uppers(&[(1, Some(4))])),
        Err(ProtocolViolation::AbsentShard { id: 1, shard_id: 2 })
    );
    assert_eq!(
        state.admits(0, &StorageResponse::DroppedIds(BTreeSet::from([9]))),
        Err(ProtocolViolation::AbsentCollection { id: 9 })
    );
    assert_eq!(state.absorb_response(1, StorageResponse::DroppedIds(BTreeSet::from([1]))), None);
    // A second drop from the same shard is a violation, and so is a report.
    assert_eq!(
        state.admits(1, &StorageResponse::DroppedIds(BTreeSet::from([1]))),
        Err(ProtocolViolation::AbsentShard { id: 1, shard_id: 1 })
    );
    assert_eq!(
        state.admits(1, &uppers(&[(1, Some(4))])),
        Err(ProtocolViolation::AbsentShard { id: 1, shard_id: 1 })
    );
    assert_eq!(state.admits(0, &StorageResponse::DroppedIds(BTreeSet::from([1]))), Ok(()));
    assert_eq!(state.admits(5, &StorageResponse::StatusUpdates(vec![])), Ok(()));
}

#[test]
fn headroom_shrinks_by_at_most_two_per_report() {
    let mut state = tracking(3, &[1]);
    let start = state.headroom(1);
    assert_eq!(start, i64::MAX as u64 - 3);
    state.absorb_response(0, uppers(&[(1, Some(4))]));
    assert_eq!(state.headroom(1), start - 2);
    state.absorb_response(0, uppers(&[(1, None)]));
    assert_eq!(state.headroom(1), start - 3);
}

#[test]
fn commands_that_run_collections_are_observed() {
    let mut state = PartitionedStorageState::new(2);
    assert_eq!(state.parts(), 2);
    state.observe_command(&StorageCommand::RunIngestions(vec![
        RunIngestionCommand { id: 1, subsource_ids: vec![1, 2] },
        RunIngestionCommand { id: 3, subsource_ids: vec![] },
        RunIngestionCommand { id: 4, subsource_ids: vec![5] },
    ]));
    for (id, known) in [(1, true), (2, true), (3, false), (4, false), (5, true)] {
        assert_eq!(state.is_tracked(id), known);
    }
    state.absorb_response(0, uppers(&[(1, Some(4))]));
    state.absorb_response(1, uppers(&[(1, Some(6))]));
    assert_eq!(state.frontier(1).as_option(), Some(4));
    // A collection that is tracked already is left as it is.
    state.observe_command(&StorageCommand::RunSinks(vec![
        RunSinkCommand { id: 1 },
        RunSinkCommand { id: 8 },
    ]));
    assert_eq!(state.frontier(1).as_option(), Some(4));
    assert_eq!(state.frontier(8).as_option(), Some(0));
    state.observe_command(&StorageCommand::InitializationComplete);
    state.observe_command(&StorageCommand::AllowCompaction(vec![(77, Frontier::from_elem(1))]));
    assert!(!state.is_tracked(77));
}

#[test]
fn create_timely_is_reshaped_for_each_shard() {
    let mut state = PartitionedStorageState::new(3);
    let config = TimelyConfig {
        workers: 4,
        process: 0,
        addresses: vec!["a:1".to_string(), "b:2".to_string(), "c:3".to_string()],
        idle_arrangement_merge_effort: 1000,
    };
    let epoch = ClusterStartupEpoch { envd: 2, replica: 5 };
    let split = state.split_command(StorageCommand::CreateTimely { config, epoch });
    assert_eq!(split.len(), 3);
    for (i, part) in split.into_iter().enumerate() {
        assert_eq!(
            part,
            Some(StorageCommand::CreateTimely {
                config: TimelyConfig {
                    workers: 4,
                    process: i,
                    addresses: vec!["a:1".to_string(), "b:2".to_string(), "c:3".to_string()],
                    idle_arrangement_merge_effort: 1000,
                },
                epoch,
            })
        );
    }
}

#[test]
fn other_commands_fan_out_as_they_are() {
    let commands = || {
        vec![
            StorageCommand::InitializationComplete,
            StorageCommand::UpdateConfiguration(StorageParameters { encoded: vec![1, 2, 3] }),
            StorageCommand::RunIngestions(vec![RunIngestionCommand {
                id: 1,
                subsource_ids: vec![1, 2],
            }]),
            StorageCommand::AllowCompaction(vec![
                (1, Frontier::from_elem(4)),
                (2, Frontier::new()),
            ]),
            StorageCommand::RunSinks(vec![RunSinkCommand { id: 9 }]),
        ]
    };
    let mut state = PartitionedStorageState::new(2);
    for (command, expected) in commands().into_iter().zip(commands()) {
        let split = state.split_command(command);
        assert_eq!(split.len(), 2);
        for part in split {
            assert_eq!(part.as_ref(), Some(&expected));
        }
    }
    assert!(state.is_tracked(1) && state.is_tracked(2) && state.is_tracked(9));
    let mut none = PartitionedStorageState::new(0);
    assert!(none.split_command(StorageCommand::InitializationComplete).is_empty());
}

struct Recorder {
    sent: Vec<StorageCommand>,
    answers: Vec<StorageResponse>,
}

impl StorageClient for Recorder {
    fn send(&mut self, cmd: StorageCommand) -> Result<(), String> {
        self.sent.push(cmd);
        Ok(())
    }

    fn recv(&mut self) -> Result<Option<StorageResponse>, String> {
        Ok(self.answers.pop())
    }
}

#[test]
fn a_storage_client_takes_commands_and_gives_responses() {
    let mut client = Recorder { sent: vec![], answers: vec![uppers(&[(1, Some(2))])] };
    client.send(StorageCommand::InitializationComplete).expect("sent");
    assert_eq!(client.sent, vec![StorageCommand::InitializationComplete]);
    assert_eq!(client.recv(), Ok(Some(uppers(&[(1, Some(2))]))));
    assert_eq!(client.recv(), Ok(None));
}

#[test]
fn a_list_without_an_advance_gives_no_response() {
    let mut state = tracking(2, &[1, 2]);
    assert_eq!(
        emitted(state.absorb_response(0, uppers(&[(1, Some(5)), (2, Some(6))]))),
        vec![]
    );
    assert_eq!(
        emitted(state.absorb_response(1, uppers(&[(1, Some(5)), (2, Some(6))]))),
        vec![(1, Some(5)), (2, Some(6))]
    );
    // No report lies strictly beyond the frontier of its collection.
    assert_eq!(
        state.absorb_response(0, uppers(&[(1, Some(5)), (2, Some(6)), (1, Some(4)), (2, Some(0))])),
        None
    );
    assert_eq!(state.absorb_response(1, uppers(&[(2, Some(6)), (1, Some(5))])), None);
}

#[test]
fn every_listed_upper_lies_beyond_the_frontier_before_the_list() {
    let mut state = tracking(1, &[1, 2]);
    assert_eq!(emitted(state.absorb_response(0, uppers(&[(1, Some(3))]))), vec![(1, Some(3))]);
    let before = [state.frontier(1).as_option(), state.frontier(2).as_option()];
    assert_eq!(before, [Some(3), Some(0)]);
    let out = emitted(state.absorb_response(
        0,
        uppers(&[(1, Some(4)), (2, Some(0)), (1, Some(9)), (2, Some(1)), (1, Some(9))]),
    ));
    assert_eq!(out, vec![(1, Some(4)), (1, Some(9)), (2, Some(1))]);
    for (id, f) in out {
        let was = before[(id - 1) as usize].expect("a time");
        assert!(f.map_or(true, |t| was < t));
    }
}

#[test]
fn the_last_shard_to_report_an_upper_completes_it() {
    let mut state = tracking(3, &[1]);
    for shard in 0..3 {
        state.absorb_response(shard, uppers(&[(1, Some(4))]));
    }
    assert_eq!(state.frontier(1).as_option(), Some(4));
    assert_eq!(emitted(state.absorb_response(2, uppers(&[(1, Some(9))]))), vec![]);
    assert_eq!(emitted(state.absorb_response(0, uppers(&[(1, Some(9))]))), vec![]);
    // Shard 1 still holds 4; the others hold 9.
    assert_eq!(emitted(state.absorb_response(1, uppers(&[(1, Some(9))]))), vec![(1, Some(9))]);
    assert_eq!(state.frontier(1).as_option(), Some(9));
    // A shard that already holds the upper completes nothing.
    assert_eq!(emitted(state.absorb_response(1, uppers(&[(1, Some(9))]))), vec![]);
    assert_eq!(state.frontier(1).as_option(), Some(9));
}
