use frontier_control::controller::{
    ComputeControllerResponse, ConnectionContext, Controller, ControllerConfig,
    ControllerResponse, Outcome, Readiness, ServiceSchedulingConfig, Wake,
};
use frontier_control::frontier::Frontier;
use std::collections::BTreeSet;

type Ctl = Controller<&'static str>;
type Out = Outcome<String, u32>;
type Resp = ControllerResponse<String, u32, &'static str>;

fn config() -> ControllerConfig {
    ControllerConfig {
        storage_stash_url: "postgres://stash".to_string(),
        clusterd_image: "clusterd:1".to_string(),
        init_container_image: None,
        persist_pubsub_url: "http://pubsub".to_string(),
        connection_context: ConnectionContext {
            environment_id: "env-1".to_string(),
            aws_external_id_prefix: None,
        },
    }
}

fn controller(frontiers: &[(u64, u64)]) -> Ctl {
    let mut ctl = Controller::new(config());
    for (id, upper) in frontiers {
        ctl.update_write_frontier(*id, Frontier::from_elem(*upper));
    }
    ctl
}

fn finished(response: Result<Option<Resp>, String>) -> Vec<&'static str> {
    match response {
        Ok(None) => vec![],
        Ok(Some(ControllerResponse::WatchSetFinished(tokens))) => {
            assert!(!tokens.is_empty());
            tokens
        }
        Ok(Some(_)) => panic!("unexpected response"),
        Err(e) => panic!("unexpected error {e}"),
    }
}

fn storage_updates(ctl: &mut Ctl, updates: &[(u64, u64)]) -> Vec<&'static str> {
    assert!(ctl.ready(Some(Wake::Storage)));
    assert_eq!(ctl.readiness(), Readiness::Storage);
    let updates = updates.iter().map(|(id, t)| (*id, Frontier::from_elem(*t))).collect();
    let out: Out = Outcome::Storage(Ok(Some(updates)));
    let tokens = finished(ctl.process(out));
    assert_eq!(ctl.readiness(), Readiness::NotReady);
    tokens
}

#[test]
fn watch_set_fires_once_when_the_last_frontier_has_passed() {
    let mut ctl = controller(&[(1, 0), (2, 0), (3, 0)]);
    ctl.install_watch_set(BTreeSet::from([1, 2, 3]), 5, "abc");
    assert!(!ctl.ready(None));
    assert_eq!(storage_updates(&mut ctl, &[(1, 6)]), Vec::<&str>::new());
    // At the target the frontier has not passed it.
    assert_eq!(storage_updates(&mut ctl, &[(2, 5)]), Vec::<&str>::new());
    assert_eq!(storage_updates(&mut ctl, &[(3, 9), (1, 9)]), Vec::<&str>::new());
    assert_eq!(storage_updates(&mut ctl, &[(2, 6)]), vec!["abc"]);
    assert_eq!(storage_updates(&mut ctl, &[(1, 7), (2, 8), (3, 10)]), Vec::<&str>::new());
}

#[test]
fn watch_set_over_satisfied_collections_fires_in_the_next_round() {
    let mut ctl = controller(&[(1, 6), (2, 7)]);
    ctl.install_watch_set(BTreeSet::from([1, 2]), 5, "now");
    assert_eq!(ctl.readiness(), Readiness::NotReady);
    // The queued token makes the controller ready without waiting.
    assert!(ctl.ready(None));
    assert_eq!(ctl.readiness(), Readiness::Internal);
    let out: Out = Outcome::Nothing;
    assert_eq!(finished(ctl.process(out)), vec!["now"]);
    assert_eq!(ctl.readiness(), Readiness::NotReady);
    assert!(!ctl.ready(None));
}

#[test]
fn watch_set_waits_only_for_what_has_not_passed() {
    let mut ctl = controller(&[(1, 6), (2, 3)]);
    ctl.install_watch_set(BTreeSet::from([1, 2]), 5, "two");
    ctl.install_watch_set(BTreeSet::new(), 5, "none");
    assert!(ctl.ready(Some(Wake::Compute)));
    assert_eq!(ctl.readiness(), Readiness::Internal);
    let out: Out = Outcome::Nothing;
    assert_eq!(finished(ctl.process(out)), vec!["none"]);
    assert_eq!(storage_updates(&mut ctl, &[(2, 6)]), vec!["two"]);
}

#[test]
fn several_watch_sets_share_collections() {
    let mut ctl = controller(&[(1, 0), (2, 0)]);
    ctl.install_watch_set(BTreeSet::from([1]), 3, "a");
    ctl.install_watch_set(BTreeSet::from([1, 2]), 3, "b");
    ctl.install_watch_set(BTreeSet::from([1]), 10, "c");
    ctl.install_watch_set(BTreeSet::from([2]), 1, "d");
    assert_eq!(ctl.watch_headroom(), u64::MAX - 4);
    assert_eq!(storage_updates(&mut ctl, &[(1, 4)]), vec!["a"]);
    assert_eq!(storage_updates(&mut ctl, &[(2, 4)]), vec!["b", "d"]);
    assert_eq!(storage_updates(&mut ctl, &[(1, 10)]), Vec::<&str>::new());
    assert_eq!(storage_updates(&mut ctl, &[(1, 11)]), vec!["c"]);
}

#[test]
fn compute_frontier_upper_finishes_watch_sets() {
    let mut ctl = controller(&[(1, 0)]);
    ctl.install_watch_set(BTreeSet::from([1]), 3, "w");
    assert!(ctl.ready(Some(Wake::Compute)));
    let out: Out = Outcome::Compute(Some(ComputeControllerResponse::FrontierUpper {
        id: 1,
        upper: Frontier::new(),
    }));
    assert_eq!(finished(ctl.process(out)), vec!["w"]);
}

#[test]
fn compute_answers_are_handed_on() {
    let mut ctl = controller(&[]);
    assert!(ctl.ready(Some(Wake::Compute)));
    let out: Out = Outcome::Compute(Some(ComputeControllerResponse::PeekResponse(
        42,
        "rows".to_string(),
    )));
    match ctl.process(out) {
        Ok(Some(ControllerResponse::PeekResponse(42, rows))) => assert_eq!(rows, "rows"),
        _ => panic!("no peek response"),
    }
    assert!(ctl.ready(Some(Wake::Compute)));
    let out: Out = Outcome::Compute(Some(ComputeControllerResponse::SubscribeResponse(
        7,
        "batch".to_string(),
    )));
    match ctl.process(out) {
        Ok(Some(ControllerResponse::SubscribeResponse(7, batch))) => assert_eq!(batch, "batch"),
        _ => panic!("no subscribe response"),
    }
    assert!(ctl.ready(Some(Wake::Compute)));
    let out: Out = Outcome::Compute(Some(ComputeControllerResponse::CopyToResponse(7, Ok(12))));
    match ctl.process(out) {
        Ok(Some(ControllerResponse::CopyToResponse(7, Ok(12)))) => {}
        _ => panic!("no copy-to response"),
    }
    assert!(ctl.ready(Some(Wake::Compute)));
    let out: Out = Outcome::Compute(None);
    assert!(matches!(ctl.process(out), Ok(None)));
}

#[test]
fn metrics_and_frontiers_and_errors() {
    let mut ctl = controller(&[]);
    assert!(ctl.ready(Some(Wake::Metrics)));
    assert_eq!(ctl.readiness(), Readiness::Metrics);
    let out: Out = Outcome::Metrics(Some((3, vec![1, 2])));
    match ctl.process(out) {
        Ok(Some(ControllerResponse::ComputeReplicaMetrics(3, metrics))) => {
            assert_eq!(metrics, vec![1, 2])
        }
        _ => panic!("no metrics"),
    }
    assert!(ctl.ready(Some(Wake::Metrics)));
    let out: Out = Outcome::Metrics(None);
    assert!(matches!(ctl.process(out), Ok(None)));
    assert!(ctl.ready(Some(Wake::Frontiers)));
    assert_eq!(ctl.readiness(), Readiness::Frontiers);
    let out: Out = Outcome::Nothing;
    assert!(matches!(ctl.process(out), Ok(None)));
    assert_eq!(ctl.readiness(), Readiness::NotReady);
    assert!(ctl.ready(Some(Wake::Storage)));
    let out: Out = Outcome::Storage(Err("stash is gone".to_string()));
    match ctl.process(out) {
        Err(e) => assert_eq!(e, "stash is gone"),
        Ok(_) => panic!("no error"),
    }
    assert_eq!(ctl.readiness(), Readiness::NotReady);
    assert!(ctl.ready(Some(Wake::Storage)));
    let out: Out = Outcome::Storage(Ok(None));
    assert!(matches!(ctl.process(out), Ok(None)));
    // Nothing is ready: there is nothing to process.
    let out: Out = Outcome::Nothing;
    assert!(matches!(ctl.process(out), Ok(None)));
}

#[test]
fn recorded_readiness_stays_until_it_is_processed() {
    let mut ctl = controller(&[(1, 9)]);
    assert!(!ctl.ready(None));
    assert_eq!(ctl.readiness(), Readiness::NotReady);
    assert!(ctl.ready(Some(Wake::Storage)));
    assert!(ctl.ready(Some(Wake::Compute)));
    assert_eq!(ctl.readiness(), Readiness::Storage);
    ctl.install_watch_set(BTreeSet::from([1]), 5, "now");
    assert!(ctl.ready(None));
    assert_eq!(ctl.readiness(), Readiness::Storage);
    let out: Out = Outcome::Storage(Ok(None));
    assert!(matches!(ctl.process(out), Ok(None)));
    assert!(ctl.ready(Some(Wake::Frontiers)));
    assert_eq!(ctl.readiness(), Readiness::Internal);
}

#[test]
fn settings_are_kept() {
    let mut ctl = controller(&[]);
    assert_eq!(ctl.settings().default_idle_arrangement_merge_effort, None);
    assert!(!ctl.settings().initialized);
    ctl.set_default_idle_arrangement_merge_effort(11);
    ctl.set_default_arrangement_exert_proportionality(12);
    ctl.set_enable_compute_aggressive_readhold_downgrades(true);
    let scheduling = ServiceSchedulingConfig {
        multi_pod_az_affinity_weight: Some(3),
        soften_replication_anti_affinity: true,
        soften_replication_anti_affinity_weight: 100,
    };
    ctl.update_orchestrator_scheduling_config(scheduling);
    ctl.initialization_complete();
    let settings = ctl.settings();
    assert_eq!(settings.default_idle_arrangement_merge_effort, Some(11));
    assert_eq!(settings.default_arrangement_exert_proportionality, Some(12));
    assert_eq!(settings.enable_aggressive_readhold_downgrades, Some(true));
    assert_eq!(settings.scheduling_config, Some(scheduling));
    assert!(settings.initialized);
    assert_eq!(ctl.connection_context().environment_id, "env-1");
    assert_eq!(ctl.storage_configuration().connection_context, config().connection_context);
    assert_eq!(ctl.recent_timestamp(&vec![1, 2]), 0);
    assert!(!ctl.has_write_frontier(1));
    ctl.update_write_frontier(1, Frontier::from_elem(2));
    assert!(ctl.has_write_frontier(1));
}

#[test]
fn tokens_of_one_update_come_back_in_the_order_of_installation() {
    let mut ctl = controller(&[(1, 0), (2, 0)]);
    ctl.install_watch_set(BTreeSet::from([1]), 3, "z");
    ctl.install_watch_set(BTreeSet::from([1, 2]), 9, "long");
    ctl.install_watch_set(BTreeSet::from([1]), 2, "m");
    ctl.install_watch_set(BTreeSet::from([1]), 1, "a");
    assert_eq!(storage_updates(&mut ctl, &[(1, 4)]), vec!["z", "m", "a"]);
    ctl.install_watch_set(BTreeSet::from([1]), 5, "y");
    ctl.install_watch_set(BTreeSet::from([1]), 5, "b");
    // The watch that stayed keeps its place before the later ones.
    assert_eq!(storage_updates(&mut ctl, &[(2, 10), (1, 10)]), vec!["long", "y", "b"]);
}

#[test]
fn tokens_of_an_earlier_update_come_back_first() {
    let mut ctl = controller(&[(1, 0), (2, 0)]);
    ctl.install_watch_set(BTreeSet::from([1]), 3, "first on one");
    ctl.install_watch_set(BTreeSet::from([2]), 3, "first on two");
    ctl.install_watch_set(BTreeSet::from([1]), 3, "second on one");
    ctl.install_watch_set(BTreeSet::from([1, 2]), 3, "on both");
    assert_eq!(
        storage_updates(&mut ctl, &[(2, 4), (1, 4)]),
        vec!["first on two", "first on one", "second on one", "on both"]
    );
}

#[test]
fn reported_write_frontiers_are_recorded() {
    let mut ctl = controller(&[(1, 0)]);
    assert!(!ctl.has_write_frontier(2));
    assert_eq!(storage_updates(&mut ctl, &[(1, 6), (2, 3), (2, 7)]), Vec::<&str>::new());
    assert!(ctl.has_write_frontier(2));
    // Both collections have passed 5 by what was reported: nothing to wait for.
    ctl.install_watch_set(BTreeSet::from([1, 2]), 5, "now");
    assert!(ctl.ready(None));
    assert_eq!(ctl.readiness(), Readiness::Internal);
    let out: Out = Outcome::Nothing;
    assert_eq!(finished(ctl.process(out)), vec!["now"]);
    // Neither frontier has passed 7: a watch at 7 waits for both.
    ctl.install_watch_set(BTreeSet::from([1, 2]), 7, "later");
    assert!(!ctl.ready(None));
    assert!(ctl.ready(Some(Wake::Compute)));
    let out: Out = Outcome::Compute(Some(ComputeControllerResponse::FrontierUpper {
        id: 1,
        upper: Frontier::from_elem(8),
    }));
    assert_eq!(finished(ctl.process(out)), Vec::<&str>::new());
    assert_eq!(storage_updates(&mut ctl, &[(2, 8)]), vec!["later"]);
    // The frontier that the compute layer reported was recorded too.
    ctl.install_watch_set(BTreeSet::from([1]), 7, "at once");
    assert!(ctl.ready(None));
    assert_eq!(ctl.readiness(), Readiness::Internal);
}
