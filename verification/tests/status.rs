use frontier_control::client::{Status, StatusUpdate, StorageProtoServiceTypes};

#[test]
fn status_names() {
    assert_eq!(Status::Starting.to_str(), "starting");
    assert_eq!(Status::Running.to_str(), "running");
    assert_eq!(Status::Paused.to_str(), "paused");
    assert_eq!(Status::Stalled.to_str(), "stalled");
    assert_eq!(Status::Ceased.to_str(), "ceased");
    assert_eq!(Status::Dropped.to_str(), "dropped");
}

#[test]
fn status_from_its_name_and_back() {
    let all = [
        Status::Starting,
        Status::Running,
        Status::Paused,
        Status::Stalled,
        Status::Ceased,
        Status::Dropped,
    ];
    for status in all {
        assert_eq!(Status::from_str(status.to_str()), Ok(status));
    }
    assert!(Status::from_str("Running").is_err());
    assert!(Status::from_str("").is_err());
    assert!(Status::from_str("halted").is_err());
}

#[test]
fn a_string_that_names_no_status_is_repeated_in_the_message() {
    assert_eq!(
        Status::from_str("halted"),
        Err("halted is not a valid status".to_string())
    );
    assert_eq!(Status::from_str(""), Err(" is not a valid status".to_string()));
    assert_eq!(
        Status::from_str("Running"),
        Err("Running is not a valid status".to_string())
    );
    assert_eq!(Status::not_a_status("x y"), "x y is not a valid status");
}

#[test]
fn nothing_supersedes_dropped() {
    for new in [Status::Starting, Status::Running, Status::Ceased, Status::Dropped] {
        assert!(!Status::Dropped.superseded_by(new));
    }
}

#[test]
fn dropped_supersedes_everything_else() {
    for old in [Status::Starting, Status::Running, Status::Paused, Status::Stalled, Status::Ceased]
    {
        assert!(old.superseded_by(Status::Dropped));
    }
}

#[test]
fn only_dropped_supersedes_ceased() {
    assert!(!Status::Ceased.superseded_by(Status::Running));
    assert!(!Status::Ceased.superseded_by(Status::Ceased));
    assert!(Status::Ceased.superseded_by(Status::Dropped));
    assert!(Status::Running.superseded_by(Status::Ceased));
}

#[test]
fn paused_is_not_reported_twice() {
    assert!(!Status::Paused.superseded_by(Status::Paused));
    assert!(Status::Paused.superseded_by(Status::Running));
    assert!(Status::Running.superseded_by(Status::Paused));
    assert!(Status::Running.superseded_by(Status::Running));
    assert!(Status::Stalled.superseded_by(Status::Starting));
}

#[test]
fn new_status_update_is_bare() {
    let update = StatusUpdate::new(7, 1_700_000_000_000, Status::Running);
    assert_eq!(update.id, 7);
    assert_eq!(update.timestamp, 1_700_000_000_000);
    assert_eq!(update.status, Status::Running);
    assert_eq!(update.error, None);
    assert!(update.hints.is_empty());
    assert!(update.namespaced_errors.is_empty());
}

#[test]
fn service_url() {
    assert_eq!(
        StorageProtoServiceTypes::CommandResponseStream.url(),
        "/mz_storage_client.client.ProtoStorage/CommandResponseStream"
    );
}
