use dnadb_engine::group_commit::{GroupCommit, GroupCommitPolicy};
use std::time::{Duration, Instant};

#[test]
fn fires_on_batch_only() {
    let mut g = GroupCommit::new(GroupCommitPolicy {
        max_batch: 3,
        max_interval: None,
    });
    assert!(!g.after_record());
    assert!(!g.after_record());
    assert!(g.after_record());
    assert!(!g.has_pending());
    assert!(!g.after_record());
}

#[test]
fn fires_on_interval_after_first_record() {
    let mut g = GroupCommit::new(GroupCommitPolicy {
        max_batch: 1000,
        max_interval: Some(Duration::from_millis(0)),
    });
    assert!(g.after_record());
}

#[test]
fn waiting_time_counts_from_the_first_record() {
    let mut g = GroupCommit::new(GroupCommitPolicy {
        max_batch: 1000,
        max_interval: Some(Duration::from_millis(300)),
    });
    let start = Instant::now();
    assert!(!g.after_record());
    while start.elapsed() < Duration::from_millis(150) {}
    assert!(!g.after_record());
    while start.elapsed() < Duration::from_millis(320) {}
    assert!(g.after_record());
    assert!(!g.has_pending());
    assert!(!g.after_record());
}
