use frontier_control::coord::{ComputeCollectionState, Coordinator, StorageCollectionState};
use frontier_control::frontier::Frontier;
use frontier_control::ids::CollectionIdBundle;
use frontier_control::timeline::{
    get_linearized_timeline, get_timeline, AsOfValue, IsolationLevel, QueryWhen, Timeline,
    TimelineContext,
};
use frontier_control::timestamp_selection::{
    determine_timestamp_for, evaluate_when, invalid_inputs, largest_not_in_advance_of_upper,
    least_valid_read, least_valid_write, AdapterError, InvalidInput, Session, TimestampContext,
    TimestampProvider,
};
use std::collections::{BTreeMap, BTreeSet};

fn storage(since: u64, upper: u64) -> StorageCollectionState {
    StorageCollectionState {
        implied_capability: Frontier::from_elem(since),
        read_capabilities: Frontier::from_elem(since),
        write_frontier: Frontier::from_elem(upper),
    }
}

fn compute(since: u64, upper: u64) -> ComputeCollectionState {
    ComputeCollectionState {
        read_capability: Frontier::from_elem(since),
        read_frontier: Frontier::from_elem(since),
        write_frontier: Frontier::from_elem(upper),
    }
}

fn one_storage_collection() -> (Coordinator, CollectionIdBundle) {
    let mut coordinator = Coordinator::new();
    coordinator.insert_storage_collection(1, storage(5, 10));
    let bundle = CollectionIdBundle {
        storage_ids: BTreeSet::from([1]),
        compute_ids: BTreeMap::new(),
    };
    (coordinator, bundle)
}

fn session(isolation: IsolationLevel) -> Session {
    Session {
        transaction_isolation: isolation,
        real_time_recency: false,
        timestamp_oracle_read_ts: None,
    }
}

fn epoch() -> TimelineContext {
    TimelineContext::TimelineDependent(Timeline::EpochMilliseconds)
}

#[test]
fn basic_determination() {
    let (coordinator, bundle) = one_storage_collection();
    let det = determine_timestamp_for(
        &coordinator,
        &session(IsolationLevel::Serializable),
        &bundle,
        &QueryWhen::Immediately,
        0,
        &epoch(),
        None,
        None,
        IsolationLevel::Serializable,
    )
    .expect("valid");
    assert_eq!(det.largest_not_in_advance_of_upper, 9);
    assert_eq!(det.since.as_option(), Some(5));
    assert_eq!(det.upper.as_option(), Some(10));
    assert_eq!(det.timestamp_context.timestamp(), Some(&9));
    assert_eq!(det.timestamp_context.timeline(), Some(&Timeline::EpochMilliseconds));
    assert_eq!(det.oracle_read_ts, None);
    assert_eq!(det.session_oracle_read_ts, None);
    assert!(det.respond_immediately());
}

#[test]
fn strict_isolation_withholds_upper() {
    let (coordinator, bundle) = one_storage_collection();
    let det = determine_timestamp_for(
        &coordinator,
        &session(IsolationLevel::StrictSerializable),
        &bundle,
        &QueryWhen::Immediately,
        0,
        &epoch(),
        None,
        None,
        IsolationLevel::StrictSerializable,
    )
    .expect("valid");
    assert_eq!(det.timestamp_context.timestamp(), Some(&5));
    assert_eq!(det.largest_not_in_advance_of_upper, 9);
    assert!(det.respond_immediately());
}

#[test]
fn strict_isolation_follows_the_oracle() {
    let (coordinator, bundle) = one_storage_collection();
    let det = determine_timestamp_for(
        &coordinator,
        &session(IsolationLevel::StrictSerializable),
        &bundle,
        &QueryWhen::Immediately,
        0,
        &epoch(),
        Some(12),
        None,
        IsolationLevel::StrictSerializable,
    )
    .expect("valid");
    assert_eq!(
        det.timestamp_context,
        TimestampContext::TimelineTimestamp {
            timeline: Timeline::EpochMilliseconds,
            chosen_ts: 12,
            oracle_ts: Some(12),
        }
    );
    assert_eq!(det.oracle_read_ts, Some(12));
    // The upper is at 10: the read at 12 has to wait.
    assert!(!det.respond_immediately());
}

#[test]
fn invalid_timestamp() {
    let (coordinator, bundle) = one_storage_collection();
    let err = determine_timestamp_for(
        &coordinator,
        &session(IsolationLevel::Serializable),
        &bundle,
        &QueryWhen::AtTimestamp(AsOfValue::MzTimestamp(2)),
        0,
        &epoch(),
        None,
        None,
        IsolationLevel::Serializable,
    )
    .err()
    .expect("not valid");
    assert_eq!(
        err,
        AdapterError::TimestampNotValid {
            candidate: 2,
            invalid: vec![InvalidInput { id: 1, instance: None, since: Some(5) }],
        }
    );
}

#[test]
fn at_least_timestamp_is_raised_to_since() {
    let (coordinator, bundle) = one_storage_collection();
    let det = determine_timestamp_for(
        &coordinator,
        &session(IsolationLevel::Serializable),
        &bundle,
        &QueryWhen::AtLeastTimestamp(AsOfValue::MzTimestamp(2)),
        0,
        &epoch(),
        None,
        None,
        IsolationLevel::Serializable,
    )
    .expect("valid");
    assert_eq!(det.timestamp_context.timestamp(), Some(&5));
    let det = determine_timestamp_for(
        &coordinator,
        &session(IsolationLevel::Serializable),
        &bundle,
        &QueryWhen::AtLeastTimestamp(AsOfValue::UInt32(8)),
        0,
        &epoch(),
        None,
        None,
        IsolationLevel::Serializable,
    )
    .expect("valid");
    assert_eq!(det.timestamp_context.timestamp(), Some(&8));
}

#[test]
fn explicit_time_that_is_no_time_is_refused() {
    let (coordinator, bundle) = one_storage_collection();
    for (value, expected) in [
        (AsOfValue::Null, AdapterError::NullTimestamp),
        (
            AsOfValue::Unsupported("text".to_string()),
            AdapterError::UnsupportedTimestampType("text".to_string()),
        ),
        (AsOfValue::Int64(-1), AdapterError::TimestampOutOfRange),
    ] {
        let err = determine_timestamp_for(
            &coordinator,
            &session(IsolationLevel::Serializable),
            &bundle,
            &QueryWhen::AtTimestamp(value),
            0,
            &epoch(),
            None,
            None,
            IsolationLevel::Serializable,
        )
        .err()
        .expect("refused");
        assert_eq!(err, expected);
    }
}

#[test]
fn evaluate_when_by_type() {
    assert_eq!(evaluate_when(AsOfValue::MzTimestamp(7)), Ok(7));
    assert_eq!(evaluate_when(AsOfValue::UInt16(7)), Ok(7));
    assert_eq!(evaluate_when(AsOfValue::UInt32(7)), Ok(7));
    assert_eq!(evaluate_when(AsOfValue::UInt64(u64::MAX)), Ok(u64::MAX));
    assert_eq!(evaluate_when(AsOfValue::Int16(7)), Ok(7));
    assert_eq!(evaluate_when(AsOfValue::Int32(0)), Ok(0));
    assert_eq!(evaluate_when(AsOfValue::Int64(i64::MAX)), Ok(i64::MAX as u64));
    assert_eq!(evaluate_when(AsOfValue::Numeric(18446744073709551615)), Ok(u64::MAX));
    assert_eq!(evaluate_when(AsOfValue::TimestampTz(1_000)), Ok(1_000));
    assert_eq!(evaluate_when(AsOfValue::Timestamp(1_000)), Ok(1_000));
    assert_eq!(evaluate_when(AsOfValue::Int16(-1)), Err(AdapterError::TimestampOutOfRange));
    assert_eq!(evaluate_when(AsOfValue::Int32(-1)), Err(AdapterError::TimestampOutOfRange));
    assert_eq!(evaluate_when(AsOfValue::Numeric(-1)), Err(AdapterError::TimestampOutOfRange));
    assert_eq!(
        evaluate_when(AsOfValue::Numeric(18446744073709551616)),
        Err(AdapterError::TimestampOutOfRange)
    );
    assert_eq!(evaluate_when(AsOfValue::TimestampTz(-1)), Err(AdapterError::TimestampOutOfRange));
    assert_eq!(evaluate_when(AsOfValue::Timestamp(-5)), Err(AdapterError::TimestampOutOfRange));
    assert_eq!(evaluate_when(AsOfValue::Null), Err(AdapterError::NullTimestamp));
    assert_eq!(
        evaluate_when(AsOfValue::Unsupported("boolean".to_string())),
        Err(AdapterError::UnsupportedTimestampType("boolean".to_string()))
    );
}

#[test]
fn largest_not_in_advance_of_upper_steps_back() {
    assert_eq!(largest_not_in_advance_of_upper(&Frontier::from_elem(10)), 9);
    assert_eq!(largest_not_in_advance_of_upper(&Frontier::from_elem(1)), 0);
    assert_eq!(largest_not_in_advance_of_upper(&Frontier::from_elem(0)), 0);
    assert_eq!(largest_not_in_advance_of_upper(&Frontier::new()), u64::MAX);
}

fn mixed() -> (Coordinator, CollectionIdBundle) {
    let mut coordinator = Coordinator::new();
    coordinator.insert_storage_collection(1, storage(5, 10));
    coordinator.insert_storage_collection(2, storage(3, 20));
    coordinator.insert_compute_collection(7, 11, compute(8, 15));
    coordinator.insert_compute_collection(7, 12, compute(2, 30));
    coordinator.insert_compute_collection(9, 13, compute(6, 12));
    let bundle = CollectionIdBundle {
        storage_ids: BTreeSet::from([1, 2]),
        compute_ids: BTreeMap::from([(7, BTreeSet::from([11, 12])), (9, BTreeSet::from([13]))]),
    };
    (coordinator, bundle)
}

#[test]
fn since_is_the_join_and_upper_the_union() {
    let (coordinator, bundle) = mixed();
    assert_eq!(least_valid_read(&coordinator, &bundle).as_option(), Some(8));
    assert_eq!(least_valid_write(&coordinator, &bundle).as_option(), Some(10));
    let nothing = CollectionIdBundle {
        storage_ids: BTreeSet::new(),
        compute_ids: BTreeMap::new(),
    };
    assert_eq!(least_valid_read(&coordinator, &nothing).as_option(), Some(0));
    assert_eq!(least_valid_write(&coordinator, &nothing).as_option(), None);
}

#[test]
fn provider_reads_what_was_inserted() {
    let (coordinator, _) = mixed();
    assert_eq!(coordinator.storage_implied_capability(2).as_option(), Some(3));
    assert_eq!(coordinator.storage_read_capabilities(2).as_option(), Some(3));
    assert_eq!(coordinator.storage_write_frontier(2).as_option(), Some(20));
    assert_eq!(coordinator.compute_read_capability(7, 11).as_option(), Some(8));
    assert_eq!(coordinator.compute_read_frontier(7, 12).as_option(), Some(2));
    assert_eq!(coordinator.compute_write_frontier(9, 13).as_option(), Some(12));
}

#[test]
fn determination_over_storage_and_compute() {
    let (coordinator, bundle) = mixed();
    let det = determine_timestamp_for(
        &coordinator,
        &session(IsolationLevel::Serializable),
        &bundle,
        &QueryWhen::Immediately,
        7,
        &epoch(),
        None,
        None,
        IsolationLevel::Serializable,
    )
    .expect("valid");
    // since = 8, upper = 10: the candidate is raised to 9.
    assert_eq!(det.timestamp_context.timestamp(), Some(&9));
    assert!(det.since.less_equal(9));
    assert!(det.respond_immediately());
}

#[test]
fn invalid_inputs_name_the_collections_of_every_instance_and_of_storage() {
    let (coordinator, bundle) = mixed();
    assert_eq!(
        invalid_inputs(&coordinator, &bundle, 4),
        vec![
            InvalidInput { id: 11, instance: Some(7), since: Some(8) },
            InvalidInput { id: 13, instance: Some(9), since: Some(6) },
            InvalidInput { id: 1, instance: None, since: Some(5) },
        ]
    );
    assert!(invalid_inputs(&coordinator, &bundle, 8).is_empty());
    assert_eq!(
        invalid_inputs(&coordinator, &bundle, 7),
        vec![InvalidInput { id: 11, instance: Some(7), since: Some(8) }]
    );
    // Compute collections by instance and id, then storage collections by id.
    assert_eq!(
        invalid_inputs(&coordinator, &bundle, 0),
        vec![
            InvalidInput { id: 11, instance: Some(7), since: Some(8) },
            InvalidInput { id: 12, instance: Some(7), since: Some(2) },
            InvalidInput { id: 13, instance: Some(9), since: Some(6) },
            InvalidInput { id: 1, instance: None, since: Some(5) },
            InvalidInput { id: 2, instance: None, since: Some(3) },
        ]
    );
}

#[test]
fn a_collection_of_another_instance_is_named_in_the_error() {
    let (coordinator, bundle) = mixed();
    // The query runs on instance 9; the collection that refuses the time is
    // on instance 7.
    let err = determine_timestamp_for(
        &coordinator,
        &session(IsolationLevel::Serializable),
        &bundle,
        &QueryWhen::AtTimestamp(AsOfValue::MzTimestamp(7)),
        9,
        &epoch(),
        None,
        None,
        IsolationLevel::Serializable,
    )
    .err()
    .expect("not valid");
    assert_eq!(
        err,
        AdapterError::TimestampNotValid {
            candidate: 7,
            invalid: vec![InvalidInput { id: 11, instance: Some(7), since: Some(8) }],
        }
    );
}

#[test]
fn the_error_names_the_capability_that_the_since_was_taken_from() {
    // The implied capability is at 5 while the read capabilities are at 0:
    // the since is 5, the time 2 is refused, and the collection is named.
    let mut coordinator = Coordinator::new();
    coordinator.insert_storage_collection(
        1,
        StorageCollectionState {
            implied_capability: Frontier::from_elem(5),
            read_capabilities: Frontier::from_elem(0),
            write_frontier: Frontier::from_elem(10),
        },
    );
    let bundle = CollectionIdBundle {
        storage_ids: BTreeSet::from([1]),
        compute_ids: BTreeMap::new(),
    };
    let err = determine_timestamp_for(
        &coordinator,
        &session(IsolationLevel::Serializable),
        &bundle,
        &QueryWhen::AtTimestamp(AsOfValue::MzTimestamp(2)),
        0,
        &epoch(),
        None,
        None,
        IsolationLevel::Serializable,
    )
    .err()
    .expect("not valid");
    assert_eq!(
        err,
        AdapterError::TimestampNotValid {
            candidate: 2,
            invalid: vec![InvalidInput { id: 1, instance: None, since: Some(5) }],
        }
    );
}

#[test]
fn empty_since_permits_no_time() {
    let mut coordinator = Coordinator::new();
    coordinator.insert_storage_collection(
        1,
        StorageCollectionState {
            implied_capability: Frontier::new(),
            read_capabilities: Frontier::new(),
            write_frontier: Frontier::new(),
        },
    );
    let bundle = CollectionIdBundle {
        storage_ids: BTreeSet::from([1]),
        compute_ids: BTreeMap::new(),
    };
    let err = determine_timestamp_for(
        &coordinator,
        &session(IsolationLevel::Serializable),
        &bundle,
        &QueryWhen::Immediately,
        0,
        &epoch(),
        None,
        None,
        IsolationLevel::Serializable,
    )
    .err()
    .expect("not valid");
    assert_eq!(
        err,
        AdapterError::TimestampNotValid {
            candidate: u64::MAX,
            invalid: vec![InvalidInput { id: 1, instance: None, since: None }],
        }
    );
}

#[test]
fn no_timeline_means_no_timestamp_but_reads_up_to_the_upper() {
    let (coordinator, bundle) = one_storage_collection();
    let det = determine_timestamp_for(
        &coordinator,
        &session(IsolationLevel::StrictSerializable),
        &bundle,
        &QueryWhen::Immediately,
        0,
        &TimelineContext::TimestampIndependent,
        None,
        None,
        IsolationLevel::StrictSerializable,
    )
    .expect("valid");
    assert_eq!(det.timestamp_context, TimestampContext::NoTimestamp);
    assert_eq!(det.timestamp_context.timestamp_or_default(), u64::MAX);
    assert!(!det.timestamp_context.contains_timestamp());
    assert_eq!(det.timestamp_context.antichain().as_option(), Some(u64::MAX));
    assert!(det.respond_immediately());
}

#[test]
fn session_isolation_prefers_the_session_oracle() {
    let (coordinator, bundle) = one_storage_collection();
    let session = Session {
        transaction_isolation: IsolationLevel::StrongSessionSerializable,
        real_time_recency: false,
        timestamp_oracle_read_ts: Some(6),
    };
    let det = determine_timestamp_for(
        &coordinator,
        &session,
        &bundle,
        &QueryWhen::Immediately,
        0,
        &epoch(),
        Some(7),
        None,
        IsolationLevel::StrongSessionSerializable,
    )
    .expect("valid");
    // since 5, session oracle 6, min(upper - 1 = 9, oracle 7) = 7.
    assert_eq!(det.timestamp_context.timestamp(), Some(&7));
    assert_eq!(det.session_oracle_read_ts, Some(6));
    assert_eq!(det.oracle_read_ts, Some(7));
    let det = determine_timestamp_for(
        &coordinator,
        &session,
        &bundle,
        &QueryWhen::Immediately,
        0,
        &epoch(),
        Some(50),
        None,
        IsolationLevel::StrongSessionSerializable,
    )
    .expect("valid");
    // The global oracle at 50 is not joined in; min(9, 50) = 9 is.
    assert_eq!(det.timestamp_context.timestamp(), Some(&9));
}

#[test]
fn real_time_recency_raises_the_candidate() {
    let (coordinator, bundle) = one_storage_collection();
    let session = Session {
        transaction_isolation: IsolationLevel::StrictSerializable,
        real_time_recency: true,
        timestamp_oracle_read_ts: None,
    };
    let det = determine_timestamp_for(
        &coordinator,
        &session,
        &bundle,
        &QueryWhen::Immediately,
        0,
        &epoch(),
        Some(6),
        Some(42),
        IsolationLevel::StrictSerializable,
    )
    .expect("valid");
    assert_eq!(det.timestamp_context.timestamp(), Some(&42));
}

#[test]
fn freshest_table_write_uses_the_oracle_under_every_level() {
    let (coordinator, bundle) = one_storage_collection();
    for isolation in [
        IsolationLevel::Serializable,
        IsolationLevel::StrongSessionSerializable,
        IsolationLevel::StrictSerializable,
    ] {
        let det = determine_timestamp_for(
            &coordinator,
            &session(isolation),
            &bundle,
            &QueryWhen::FreshestTableWrite,
            0,
            &epoch(),
            Some(8),
            None,
            isolation,
        )
        .expect("valid");
        assert_eq!(det.timestamp_context.timestamp(), Some(&8));
    }
}

#[test]
fn linearization_rule() {
    let ctx = epoch();
    let none = TimelineContext::TimestampIndependent;
    let when = QueryWhen::Immediately;
    assert_eq!(get_timeline(&ctx), Some(Timeline::EpochMilliseconds));
    assert_eq!(get_timeline(&TimelineContext::TimestampDependent), Some(Timeline::EpochMilliseconds));
    assert_eq!(get_timeline(&none), None);
    let user = TimelineContext::TimelineDependent(Timeline::User("u".to_string()));
    assert_eq!(get_timeline(&user), Some(Timeline::User("u".to_string())));
    assert_eq!(get_linearized_timeline(IsolationLevel::Serializable, &when, &ctx), None);
    assert_eq!(
        get_linearized_timeline(IsolationLevel::StrictSerializable, &when, &ctx),
        Some(Timeline::EpochMilliseconds)
    );
    assert_eq!(
        get_linearized_timeline(IsolationLevel::StrongSessionSerializable, &when, &user),
        Some(Timeline::User("u".to_string()))
    );
    assert_eq!(get_linearized_timeline(IsolationLevel::StrictSerializable, &when, &none), None);
    assert_eq!(
        get_linearized_timeline(IsolationLevel::Serializable, &QueryWhen::FreshestTableWrite, &ctx),
        Some(Timeline::EpochMilliseconds)
    );
    assert_eq!(
        get_linearized_timeline(
            IsolationLevel::StrictSerializable,
            &QueryWhen::AtTimestamp(AsOfValue::MzTimestamp(1)),
            &ctx
        ),
        None
    );
}

#[test]
fn query_when_policies() {
    let at = QueryWhen::AtTimestamp(AsOfValue::MzTimestamp(1));
    let at_least = QueryWhen::AtLeastTimestamp(AsOfValue::MzTimestamp(1));
    assert_eq!(QueryWhen::Immediately.advance_to_timestamp(), None);
    assert_eq!(at.advance_to_timestamp(), Some(&AsOfValue::MzTimestamp(1)));
    assert_eq!(at_least.advance_to_timestamp(), Some(&AsOfValue::MzTimestamp(1)));
    assert!(QueryWhen::Immediately.advance_to_since());
    assert!(QueryWhen::FreshestTableWrite.advance_to_since());
    assert!(at_least.advance_to_since());
    assert!(!at.advance_to_since());
    assert!(QueryWhen::Immediately.can_advance_to_upper());
    assert!(!QueryWhen::FreshestTableWrite.can_advance_to_upper());
    assert!(!at.can_advance_to_upper());
    assert!(QueryWhen::Immediately.can_advance_to_timeline_ts());
    assert!(QueryWhen::FreshestTableWrite.can_advance_to_timeline_ts());
    assert!(!at_least.can_advance_to_timeline_ts());
    assert!(QueryWhen::FreshestTableWrite.must_advance_to_timeline_ts());
    assert!(!QueryWhen::Immediately.must_advance_to_timeline_ts());
}

#[test]
fn context_from_timeline_context() {
    let ctx = TimestampContext::from_timeline_context(4, Some(3), None, &epoch());
    assert_eq!(ctx.timeline_timestamp(), Some((&Timeline::EpochMilliseconds, &4)));
    let ctx = TimestampContext::from_timeline_context(
        4,
        None,
        Some(Timeline::User("u".to_string())),
        &TimelineContext::TimestampDependent,
    );
    assert_eq!(ctx.timeline(), Some(&Timeline::User("u".to_string())));
    let ctx = TimestampContext::from_timeline_context(
        4,
        None,
        None,
        &TimelineContext::TimestampDependent,
    );
    assert_eq!(ctx.timeline(), Some(&Timeline::EpochMilliseconds));
    assert_eq!(ctx.antichain().as_option(), Some(4));
    assert!(ctx.contains_timestamp());
    let ctx = TimestampContext::from_timeline_context(
        4,
        None,
        None,
        &TimelineContext::TimestampIndependent,
    );
    assert_eq!(ctx, TimestampContext::NoTimestamp);
    assert_eq!(ctx.timeline_timestamp(), None);
    assert_eq!(ctx.clone(), TimestampContext::NoTimestamp);
}

#[test]
fn coordinator_reports_the_strict_serializable_gap() {
    let (coordinator, bundle) = one_storage_collection();
    let strict = session(IsolationLevel::StrictSerializable);
    let (det, gap) = coordinator
        .determine_timestamp(&strict, &bundle, &QueryWhen::Immediately, 0, &epoch(), Some(12), None)
        .expect("valid");
    assert_eq!(det.timestamp_context.timestamp(), Some(&12));
    assert!(!det.respond_immediately());
    assert_eq!(gap, Some(0));
    let (det, gap) = coordinator
        .determine_timestamp(&strict, &bundle, &QueryWhen::Immediately, 0, &epoch(), Some(6), None)
        .expect("valid");
    assert!(det.respond_immediately());
    assert_eq!(gap, None);
    let serializable = session(IsolationLevel::Serializable);
    let (det, gap) = coordinator
        .determine_timestamp(&serializable, &bundle, &QueryWhen::Immediately, 0, &epoch(), None, None)
        .expect("valid");
    assert_eq!(det.timestamp_context.timestamp(), Some(&9));
    assert_eq!(gap, None);
    assert_eq!(
        Coordinator::oracle_read_ts(&strict, &epoch(), &QueryWhen::Immediately),
        Some(Timeline::EpochMilliseconds)
    );
    assert_eq!(Coordinator::oracle_read_ts(&serializable, &epoch(), &QueryWhen::Immediately), None);
}
