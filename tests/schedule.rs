use zcrab::policy::RetentionPolicy;
use zcrab::schedule::{need_removal, need_snapshot, until_next_check, ConfiguredDataSet, FALLBACK_POLL_SECONDS};
use zcrab::snapshot::SnapshotMetadata;

const NOW: i64 = 1_700_000_000;

fn aged(seconds: i64, name: &str) -> SnapshotMetadata {
    SnapshotMetadata { name: name.to_string(), created: NOW - seconds, used: 0 }
}

fn dataset(path: &str, policy: &str, snapshots: Vec<SnapshotMetadata>) -> ConfiguredDataSet {
    ConfiguredDataSet {
        path: path.to_string(),
        retention_policy: RetentionPolicy::from_str(policy).unwrap(),
        sorted_snapshots: snapshots,
    }
}

#[test]
fn sleeps_until_the_earliest_due_volume() {
    let datasets = vec![
        dataset("a", "10m2", vec![aged(5 * 60, "a@1")]),
        dataset("b", "1h2", vec![aged(20 * 60, "b@1")]),
        dataset("c", "1m2", vec![]),
    ];
    assert_eq!(until_next_check(&datasets, NOW), 5 * 60);
    assert_eq!(datasets[1].until_next_snapshot_at(NOW), Some(40 * 60));
    assert_eq!(datasets[2].until_next_snapshot_at(NOW), None);
}

#[test]
fn falls_back_to_the_poll_interval() {
    assert_eq!(until_next_check(&[], NOW), FALLBACK_POLL_SECONDS);
    let datasets = vec![dataset("c", "1m2", vec![])];
    assert_eq!(until_next_check(&datasets, NOW), 600);
}

#[test]
fn snapshots_volumes_that_are_due() {
    let datasets = vec![
        dataset("a", "10m2", vec![aged(11 * 60, "a@1")]),
        dataset("b", "1h2", vec![aged(20 * 60, "b@1")]),
        dataset("c", "1m2", vec![aged(60, "c@1")]),
        dataset("d", "1m2", vec![]),
    ];
    assert_eq!(need_snapshot(&datasets, NOW), vec![0, 2]);
}

#[test]
fn removes_what_policies_reject() {
    let datasets = vec![
        dataset("a", "10m2", vec![aged(8 * 60, "a@8"), aged(19 * 60, "a@19"), aged(30 * 60, "a@30")]),
        dataset("b", "1h9", vec![aged(60, "b@1")]),
        dataset("c", "50s2", vec![
            aged(40, "c@1"),
            aged(80, "c@2"),
            aged(120, "c@3"),
            aged(9 * 60, "c@4"),
            aged(18 * 60, "c@5"),
            aged(29 * 60, "c@6"),
        ]),
    ];
    assert_eq!(need_removal(&datasets), vec![(0, 2), (2, 1), (2, 3), (2, 4), (2, 5)]);
}
