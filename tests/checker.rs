use zcrab::policy::RetentionPolicy;
use zcrab::remote::RemoteBin;
use zcrab::snapshot::SnapshotMetadata;

const NOW: i64 = 1_700_000_000;

fn aged(seconds: i64, name: &str) -> SnapshotMetadata {
    SnapshotMetadata { name: name.to_string(), created: NOW - seconds, used: 0 }
}

#[test]
fn tomato_kept_util_amount_times_period() {
    let policy = RetentionPolicy::from_str("10m2").unwrap();
    let snapshots = [aged(9 * 60, "9m"), aged(19 * 60, "19m"), aged(29 * 60, "29m")];
    let checker = policy.checker();
    let rejected = checker.rejected_at(&snapshots, NOW);
    let rejected = rejected.iter().map(|i| snapshots[*i].clone()).collect::<Vec<_>>();
    assert_eq!(&rejected, &snapshots[2..]);
}

#[test]
fn tomato_retained_short_do_not_count_to_retained_long() {
    let policy = RetentionPolicy::from_str("50s2:10m2").unwrap();
    let snapshots = [
        aged(40, "40s"),
        aged(80, "80s"),
        aged(120, "120s"),
        aged(9 * 60, "9m"),
        aged(19 * 60, "19m"),
        aged(29 * 60, "29m"),
    ];
    let checker = policy.checker();
    let rejected = checker.rejected_at(&snapshots, NOW);
    // each rule takes the first listed snapshot of each of its age bands
    let a = rejected.iter().map(|i| snapshots[*i].clone()).collect::<Vec<_>>();
    let b = [aged(9 * 60, "9m"), aged(29 * 60, "29m")];
    assert!(a.iter().zip(b).all(|(a, b)| a.name == b.name));
    assert_eq!(a.len(), 2);
}

#[test]
fn checker_by_the_clock() {
    let policy = RetentionPolicy::from_str("10m2").unwrap();
    let now = chrono::Utc::now().timestamp();
    let snapshots = [
        SnapshotMetadata { name: "9m".to_string(), created: now - 9 * 60, used: 0 },
        SnapshotMetadata { name: "29m".to_string(), created: now - 29 * 60, used: 0 },
    ];
    assert_eq!(policy.checker().rejected(&snapshots), vec![1]);
}

#[test]
fn remote_bin_missing() {
    assert!(RemoteBin::Missing.is_missing());
    assert!(!RemoteBin::InTmp.is_missing());
    assert!(!RemoteBin::InPath.is_missing());
}
