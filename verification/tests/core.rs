//! The status machine, error taxonomy, estimates, the id allocator, and
//! the lock discipline.

use taskctl::dates::Timestamp;
use taskctl::error::TaskCtlError;
use taskctl::lock;
use taskctl::meta::Meta;
use taskctl::status::{transition, Status};
use taskctl::task::Estimate;

fn now() -> Timestamp {
    Timestamp { day: 739000, secs: 36000 }
}

#[test]
fn valid_transitions() {
    assert_eq!(
        transition(Status::Pending, Status::InProgress).unwrap(),
        Status::InProgress
    );
    assert_eq!(
        transition(Status::Pending, Status::Done).unwrap(),
        Status::Done
    );
    assert_eq!(
        transition(Status::InProgress, Status::Done).unwrap(),
        Status::Done
    );
    assert_eq!(
        transition(Status::InProgress, Status::Pending).unwrap(),
        Status::Pending
    );
    assert_eq!(
        transition(Status::Done, Status::Pending).unwrap(),
        Status::Pending
    );
}

#[test]
fn idempotent_transitions() {
    assert_eq!(
        transition(Status::Pending, Status::Pending).unwrap(),
        Status::Pending
    );
    assert_eq!(
        transition(Status::InProgress, Status::InProgress).unwrap(),
        Status::InProgress
    );
    assert_eq!(
        transition(Status::Done, Status::Done).unwrap(),
        Status::Done
    );
}

#[test]
fn invalid_transition_done_to_in_progress() {
    assert!(transition(Status::Done, Status::InProgress).is_err());
}

#[test]
fn display() {
    assert_eq!(Status::Pending.token(), "pending");
    assert_eq!(Status::InProgress.token(), "in_progress");
    assert_eq!(Status::Done.token(), "done");
}

#[test]
fn from_str_loose_variants() {
    assert_eq!(Status::from_str_loose("pending").unwrap(), Status::Pending);
    assert_eq!(
        Status::from_str_loose("in_progress").unwrap(),
        Status::InProgress
    );
    assert_eq!(
        Status::from_str_loose("in-progress").unwrap(),
        Status::InProgress
    );
    assert_eq!(Status::from_str_loose("done").unwrap(), Status::Done);
    assert!(Status::from_str_loose("unknown").is_err());
}

#[test]
fn exit_code_input_errors() {
    assert_eq!(TaskCtlError::TaskNotFound(99).exit_code(), 1);
    assert_eq!(
        TaskCtlError::InvalidArgument("bad".into()).exit_code(),
        1
    );
    assert_eq!(
        TaskCtlError::CyclicDependency("#1 -> #2 -> #1".into()).exit_code(),
        1
    );
    assert_eq!(TaskCtlError::SelfDependency(5).exit_code(), 1);
}

#[test]
fn exit_code_data_errors() {
    let err = TaskCtlError::ParseError {
        path: "test.md".into(),
        detail: "bad front matter".into(),
    };
    assert_eq!(err.exit_code(), 2);
    assert_eq!(
        TaskCtlError::SchemaMismatch {
            expected: 2,
            actual: 1
        }
        .exit_code(),
        2
    );
}

#[test]
fn exit_code_lock_error() {
    let err = TaskCtlError::LockError("lock failed".into());
    assert_eq!(err.exit_code(), 3);
}

#[test]
fn exit_code_config_error() {
    assert_eq!(TaskCtlError::ConfigError("bad".into()).exit_code(), 4);
}

#[test]
fn exit_code_io_error() {
    let err = TaskCtlError::Io("not found".into());
    assert_eq!(err.exit_code(), 1);
}

#[test]
fn display_messages() {
    assert_eq!(
        TaskCtlError::TaskNotFound(42).message(),
        "Task #42 does not exist"
    );
    assert_eq!(
        TaskCtlError::SelfDependency(5).message(),
        "A task cannot depend on itself (#5)"
    );
}

#[test]
fn default_meta() {
    let meta = Meta::default();
    assert_eq!(meta.next_id, 1);
}

#[test]
fn allocate_id_increments() {
    let mut meta = Meta::default();
    assert_eq!(meta.allocate_id(), 1);
    assert_eq!(meta.allocate_id(), 2);
    assert_eq!(meta.allocate_id(), 3);
    assert_eq!(meta.next_id, 4);
}

#[test]
fn meta_text_round_trip() {
    let meta = Meta { next_id: 42 };
    let text = meta.to_text();
    let back = Meta::from_text(&text).unwrap();
    assert_eq!(back.next_id, 42);
}

#[test]
fn new_task_defaults() {
    let task = taskctl::task::Task::new(1, "Test".to_string(), now());
    assert_eq!(task.id, 1);
    assert_eq!(task.title, "Test");
    assert_eq!(task.status, Status::Pending);
    assert!(task.tags.is_empty());
    assert!(task.depends_on.is_empty());
    assert!(!task.pinned);
    assert_eq!(task.schema_version, taskctl::task::SCHEMA_VERSION);
}

#[test]
fn parse_minutes() {
    assert_eq!(Estimate::parse("30m").unwrap(), Estimate::Minutes(30));
}

#[test]
fn parse_hours() {
    assert_eq!(Estimate::parse("2h").unwrap(), Estimate::Hours(2000));
}

#[test]
fn parse_points() {
    assert_eq!(Estimate::parse("3p").unwrap(), Estimate::Points(3000));
}

#[test]
fn parse_fractional_hours() {
    assert_eq!(Estimate::parse("1.5h").unwrap(), Estimate::Hours(1500));
}

#[test]
fn parse_invalid() {
    assert!(Estimate::parse("").is_err());
    assert!(Estimate::parse("abc").is_err());
    assert!(Estimate::parse("3x").is_err());
}

#[test]
fn to_hours_conversion() {
    assert_eq!(Estimate::Minutes(30).to_hours(1000), 500);
    assert_eq!(Estimate::Hours(2000).to_hours(1000), 2000);
    assert_eq!(Estimate::Points(3000).to_hours(2000), 6000);
}

#[test]
fn stale_lock_marker_is_removed() {
    // A marker naming a process that no longer runs is removed and does
    // not stop a fresh acquisition.
    let marker = lock::marker_content(999999999);
    let named = lock::parse_pid(&marker);
    assert_eq!(named, Some(999999999));
    assert!(lock::stale_should_remove(named, false));
    assert!(!lock::stale_should_remove(named, true));
    assert!(!lock::stale_should_remove(None, false));
    assert!(matches!(
        lock::acquire_step(0, true),
        lock::LockStep::Acquired
    ));
}

#[test]
fn lock_retry_schedule() {
    assert!(matches!(
        lock::acquire_step(100, false),
        lock::LockStep::Retry(100)
    ));
    assert!(matches!(
        lock::acquire_step(lock::LOCK_TIMEOUT_MS, false),
        lock::LockStep::TimedOut
    ));
}
