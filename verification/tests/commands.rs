use frontier_control::client::{ShardedUppers, TimestamplessUpdate, Update};
use frontier_control::command::{
    copy_ids, ClusterStartupEpoch, StorageCommand, TimelyConfig,
};
use frontier_control::coord::{ComputeCollectionState, Coordinator, StorageCollectionState};
use frontier_control::frontier::Frontier;
use frontier_control::ids::{map_keys, set_members, CollectionIdBundle};
use std::collections::{BTreeMap, BTreeSet};

fn config() -> TimelyConfig {
    TimelyConfig {
        workers: 2,
        process: 5,
        addresses: vec!["one".to_string(), "two".to_string()],
        idle_arrangement_merge_effort: 7,
    }
}

#[test]
fn timely_config_is_split_by_process() {
    let parts = config().split_command(3);
    assert_eq!(parts.len(), 3);
    for (i, part) in parts.iter().enumerate() {
        assert_eq!(part.process, i);
        assert_eq!(part.workers, 2);
        assert_eq!(part.addresses, vec!["one".to_string(), "two".to_string()]);
        assert_eq!(part.idle_arrangement_merge_effort, 7);
    }
    assert!(config().split_command(0).is_empty());
    assert_eq!(config().for_process(9), TimelyConfig { process: 9, ..config() });
}

#[test]
fn only_create_timely_gives_a_timely_config() {
    let epoch = ClusterStartupEpoch { envd: 1, replica: 2 };
    let create = StorageCommand::CreateTimely { config: config(), epoch };
    assert_eq!(create.try_into_timely_config(), Ok((config(), epoch)));
    assert_eq!(
        StorageCommand::InitializationComplete.try_into_timely_config(),
        Err(StorageCommand::InitializationComplete)
    );
    assert_eq!(
        StorageCommand::RunSinks(vec![]).try_into_timely_config(),
        Err(StorageCommand::RunSinks(vec![]))
    );
}

#[test]
fn commands_are_copied_whole() {
    let epoch = ClusterStartupEpoch { envd: 1, replica: 2 };
    let create = StorageCommand::CreateTimely { config: config(), epoch };
    assert_eq!(create.clone(), create);
    assert_eq!(copy_ids(&vec![3, 1, 2]), vec![3, 1, 2]);
    assert_eq!(copy_ids(&vec![]), Vec::<u64>::new());
}

#[test]
fn members_and_keys_come_in_ascending_order() {
    assert_eq!(set_members(&BTreeSet::from([5, 1, 9, 3])), vec![1, 3, 5, 9]);
    assert_eq!(set_members(&BTreeSet::new()), Vec::<u64>::new());
    assert_eq!(map_keys(&BTreeMap::from([(4, "d"), (2, "b"), (8, "h")])), vec![2, 4, 8]);
}

#[test]
fn coordinator_knows_which_bundles_it_tracks() {
    let mut coordinator = Coordinator::new();
    coordinator.insert_storage_collection(
        1,
        StorageCollectionState {
            implied_capability: Frontier::from_elem(0),
            read_capabilities: Frontier::from_elem(0),
            write_frontier: Frontier::from_elem(1),
        },
    );
    coordinator.insert_compute_collection(
        7,
        11,
        ComputeCollectionState {
            read_capability: Frontier::from_elem(0),
            read_frontier: Frontier::from_elem(0),
            write_frontier: Frontier::from_elem(1),
        },
    );
    let bundle = |storage: &[u64], compute: &[(u64, u64)]| CollectionIdBundle {
        storage_ids: storage.iter().copied().collect(),
        compute_ids: compute.iter().fold(BTreeMap::new(), |mut m, (instance, id)| {
            m.entry(*instance).or_insert_with(BTreeSet::new).insert(*id);
            m
        }),
    };
    assert!(coordinator.tracks_bundle(&bundle(&[], &[])));
    assert!(coordinator.tracks_bundle(&bundle(&[1], &[(7, 11)])));
    assert!(!coordinator.tracks_bundle(&bundle(&[1, 2], &[(7, 11)])));
    assert!(!coordinator.tracks_bundle(&bundle(&[1], &[(7, 12)])));
    assert!(!coordinator.tracks_bundle(&bundle(&[], &[(8, 11)])));
    let empty_instance = CollectionIdBundle {
        storage_ids: BTreeSet::new(),
        compute_ids: BTreeMap::from([(8, BTreeSet::new())]),
    };
    assert!(coordinator.tracks_bundle(&empty_instance));
}

#[test]
fn uppers_of_one_collection() {
    let mut uppers = ShardedUppers::new(2);
    assert_eq!(uppers.parts(), 2);
    assert_eq!(uppers.frontier().as_option(), Some(0));
    assert!(uppers.is_live(0) && uppers.is_live(1) && !uppers.is_live(2));
    assert_eq!(uppers.headroom(), i64::MAX as u64 - 2);
    assert_eq!(uppers.report(0, &Frontier::from_elem(4)), None);
    assert_eq!(uppers.report(1, &Frontier::from_elem(3)), Some(Frontier::from_elem(3)));
    assert_eq!(uppers.report(1, &Frontier::new()), Some(Frontier::from_elem(4)));
    assert_eq!(uppers.frontier().as_option(), Some(4));
    assert!(!uppers.retire(1));
    assert!(!uppers.is_live(1));
    assert!(uppers.retire(0));
    let mut none = ShardedUppers::new(0);
    assert_eq!(none.frontier().as_option(), None);
    assert_eq!(none.parts(), 0);
    let _ = &mut none;
}

#[test]
fn updates_hold_rows() {
    let update = Update { row: vec![1, 2], timestamp: 3, diff: -1 };
    assert_eq!(update, Update { row: vec![1, 2], timestamp: 3, diff: -1 });
    let bare = TimestamplessUpdate { row: vec![1, 2], diff: 1 };
    assert_eq!(bare, TimestamplessUpdate { row: vec![1, 2], diff: 1 });
}
