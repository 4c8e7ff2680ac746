use frontier_control::coord::{Coordinator, StorageCollectionState};
use frontier_control::explain::{
    error_message, fmt_not_valid, fmt_timeline, fmt_times,
    generate_timestamp_not_valid_error_msg, DisplayableInTimeline, TimestampExplanation,
    TimestampSource,
};
use frontier_control::frontier::Frontier;
use frontier_control::ids::CollectionIdBundle;
use frontier_control::timeline::Timeline;
use frontier_control::timestamp_selection::{
    AdapterError, InvalidInput, TimestampContext, TimestampDetermination,
};
use std::collections::{BTreeMap, BTreeSet};

#[test]
fn time_is_right_aligned_to_thirteen_places() {
    assert_eq!(5u64.fmt(None), "            5");
    assert_eq!(0u64.fmt(None), "            0");
    assert_eq!(1234567890123u64.fmt(None), "1234567890123");
    assert_eq!(12345678901234u64.fmt(None), "12345678901234");
    assert_eq!(u64::MAX.fmt(None), "18446744073709551615");
    let user = Timeline::User("u".to_string());
    assert_eq!(5u64.fmt(Some(&user)), "            5");
}

#[test]
fn time_in_the_timeline_of_the_system_shows_its_date() {
    let epoch = Timeline::EpochMilliseconds;
    assert_eq!(5u64.fmt(Some(&epoch)), "            5 (1970-01-01 00:00:00.005)");
    assert_eq!(
        1_700_000_000_000u64.fmt(Some(&epoch)),
        "1700000000000 (2023-11-14 22:13:20.000)"
    );
    // Beyond what a signed number of milliseconds can hold there is no date.
    assert_eq!(u64::MAX.fmt(Some(&epoch)), "18446744073709551615");
    // And beyond what chrono can hold neither.
    assert_eq!((i64::MAX as u64).fmt(Some(&epoch)), "9223372036854775807");
    assert_eq!(5u64.display(Some(&epoch)).to_string(), "            5 (1970-01-01 00:00:00.005)");
    assert_eq!(5u64.display(None).to_string(), "            5");
}

#[test]
fn lists_of_times_and_timelines() {
    assert_eq!(fmt_times(&vec![], None), "[]");
    assert_eq!(fmt_times(&vec![5], None), "[            5]");
    assert_eq!(fmt_times(&vec![5, 10, 7], None), "[            5,            10,             7]");
    assert_eq!(fmt_timeline(None), "None");
    assert_eq!(fmt_timeline(Some(&Timeline::EpochMilliseconds)), "Some(EpochMilliseconds)");
    assert_eq!(
        fmt_timeline(Some(&Timeline::User("my \"own\"".to_string()))),
        "Some(User(\"my \\\"own\\\"\"))"
    );
    assert_eq!(
        fmt_timeline(Some(&Timeline::External("kafka".to_string()))),
        "Some(External(\"kafka\"))"
    );
}

#[test]
fn error_messages() {
    assert_eq!(fmt_not_valid(2, &vec![]), "Timestamp (2) is not valid for all inputs: []");
    let invalid = vec![
        InvalidInput { id: 1, instance: None, since: Some(5) },
        InvalidInput { id: 11, instance: Some(7), since: Some(8) },
        InvalidInput { id: 3, instance: None, since: None },
    ];
    assert_eq!(
        fmt_not_valid(2, &invalid),
        "Timestamp (2) is not valid for all inputs: [1: [5], 7/11: [8], 3: []]"
    );
    let err = AdapterError::TimestampNotValid { candidate: 2, invalid };
    assert_eq!(
        error_message(&err),
        "Timestamp (2) is not valid for all inputs: [1: [5], 7/11: [8], 3: []]"
    );
    assert_eq!(
        error_message(&AdapterError::NullTimestamp),
        "can't use NULL as a mz_timestamp for AS OF or UP TO"
    );
    assert_eq!(
        error_message(&AdapterError::UnsupportedTimestampType("boolean".to_string())),
        "can't use boolean as a mz_timestamp for AS OF or UP TO"
    );
    assert_eq!(
        error_message(&AdapterError::TimestampOutOfRange),
        "out of range integral type conversion attempted"
    );
}

#[test]
fn invalid_timestamp_message_names_the_collection_and_its_since() {
    let mut coordinator = Coordinator::new();
    coordinator.insert_storage_collection(
        1,
        StorageCollectionState {
            implied_capability: Frontier::from_elem(5),
            read_capabilities: Frontier::from_elem(5),
            write_frontier: Frontier::from_elem(10),
        },
    );
    let bundle = CollectionIdBundle {
        storage_ids: BTreeSet::from([1]),
        compute_ids: BTreeMap::new(),
    };
    assert_eq!(
        generate_timestamp_not_valid_error_msg(&coordinator, &bundle, 0, 2),
        "Timestamp (2) is not valid for all inputs: [1: [5]]"
    );
}

#[test]
fn explanation_text() {
    let explanation = TimestampExplanation {
        determination: TimestampDetermination {
            timestamp_context: TimestampContext::TimelineTimestamp {
                timeline: Timeline::EpochMilliseconds,
                chosen_ts: 9,
                oracle_ts: Some(7),
            },
            since: Frontier::from_elem(5),
            upper: Frontier::from_elem(10),
            largest_not_in_advance_of_upper: 9,
            oracle_read_ts: Some(7),
            session_oracle_read_ts: None,
        },
        sources: vec![TimestampSource {
            name: "materialize.public.t (u1, storage)".to_string(),
            read_frontier: vec![5],
            write_frontier: vec![10],
        }],
        session_wall_time: 1_700_000_000_000,
        respond_immediately: true,
    };
    let expected = "                query timestamp:             9 (1970-01-01 00:00:00.009)\n\
\x20         oracle read timestamp:             7 (1970-01-01 00:00:00.007)\n\
largest not in advance of upper:             9 (1970-01-01 00:00:00.009)\n\
\x20                         upper:[           10 (1970-01-01 00:00:00.010)]\n\
\x20                         since:[            5 (1970-01-01 00:00:00.005)]\n\
\x20       can respond immediately: true\n\
\x20                      timeline: Some(EpochMilliseconds)\n\
\x20             session wall time: 1700000000000 (2023-11-14 22:13:20.000)\n\
\n\
source materialize.public.t (u1, storage):\n\
\x20                 read frontier:[            5 (1970-01-01 00:00:00.005)]\n\
\x20                write frontier:[           10 (1970-01-01 00:00:00.010)]\n";
    assert_eq!(explanation.to_string(), expected);
}

#[test]
fn explanation_without_timeline() {
    let explanation = TimestampExplanation {
        determination: TimestampDetermination {
            timestamp_context: TimestampContext::NoTimestamp,
            since: Frontier::from_elem(0),
            upper: Frontier::new(),
            largest_not_in_advance_of_upper: u64::MAX,
            oracle_read_ts: None,
            session_oracle_read_ts: Some(3),
        },
        sources: vec![],
        session_wall_time: -5,
        respond_immediately: false,
    };
    let expected = "                query timestamp: 18446744073709551615\n\
\x20 session oracle read timestamp:             3\n\
largest not in advance of upper: 18446744073709551615\n\
\x20                         upper:[]\n\
\x20                         since:[            0]\n\
\x20       can respond immediately: false\n\
\x20                      timeline: None\n\
\x20             session wall time:            -5 (1969-12-31 23:59:59.995)\n";
    assert_eq!(explanation.to_string(), expected);
}
