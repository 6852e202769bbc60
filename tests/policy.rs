use zcrab::parse::ParseError;
use zcrab::policy::RetentionPolicy;
use zcrab::rule::RetentionRule;
use zcrab::snapshot::SnapshotMetadata;

const NOW: i64 = 1_700_000_000;

fn aged(seconds: i64, name: &str) -> SnapshotMetadata {
    SnapshotMetadata {
        name: name.to_string(),
        created: NOW - seconds,
        used: 0,
    }
}

fn rejected_names(policy: &RetentionPolicy, snapshots: &[SnapshotMetadata]) -> Vec<String> {
    policy
        .judge(snapshots)
        .rejected
        .iter()
        .map(|i| snapshots[*i].name.clone())
        .collect()
}

#[test]
fn optimal_interval() {
    let policy = RetentionPolicy::from_str("10m2").unwrap();
    let snapshots = [aged(5 * 60, "5m"), aged(15 * 60, "15m")];
    let next_in = policy.next_snapshot_in_at(&snapshots, NOW).unwrap();
    assert_eq!(next_in, 60 * 5);
}

#[test]
fn optimal_interval_by_the_clock() {
    let policy = RetentionPolicy::from_str("10m2").unwrap();
    let now = chrono::Utc::now().timestamp();
    let snapshots = [
        SnapshotMetadata { name: "5m".to_string(), created: now - 5 * 60, used: 0 },
        SnapshotMetadata { name: "15m".to_string(), created: now - 15 * 60, used: 0 },
    ];
    let next_in = policy.next_snapshot_in(&snapshots).unwrap();
    assert!((298..=300).contains(&next_in));
    let next_in = policy.0[0].next_snapshot_in(&snapshots).unwrap();
    assert!((298..=300).contains(&next_in));
}

#[test]
fn policy_kept_util_amount_times_period() {
    let policy = RetentionPolicy::from_str("10m2").unwrap();
    let snapshots = [aged(8 * 60, "8m"), aged(19 * 60, "19m"), aged(30 * 60, "30m")];
    let rejected = policy.judge(&snapshots).rejected;
    let rejected = rejected.iter().map(|i| snapshots[*i].clone()).collect::<Vec<_>>();
    assert_eq!(&rejected, &snapshots[2..]);
}

#[test]
fn do_not_keep_more_than_copies_to_retain() {
    let policy = RetentionPolicy::from_str("50s2").unwrap();
    let snapshots = [
        aged(40, "40s"),
        aged(80, "80s"),
        aged(120, "120s"),
        aged(9 * 60, "9m"),
        aged(18 * 60, "18m"),
        aged(29 * 60, "29m"),
    ];
    let rejected = policy.judge(&snapshots).rejected;
    assert_eq!(rejected.len(), 4);
}

#[test]
fn policy_retained_short_do_not_count_to_retained_long() {
    let policy = RetentionPolicy::from_str("50s2:10m2").unwrap();
    let snapshots = [
        aged(38, "38s"),
        aged(79, "79s"),
        aged(120, "120s"),
        aged(7 * 60, "7m"),
        aged(18 * 60, "18m"),
        aged(29 * 60, "29m"),
    ];
    let rejected = rejected_names(&policy, &snapshots);
    assert!(rejected.iter().any(|s| *s == "29m"));
    assert!(rejected.iter().any(|s| *s == "79s"));
}

#[test]
fn restores_after_offline() {
    let policy = RetentionPolicy::from_str("40s99:100s99").unwrap();
    let snapshots = [
        aged(20, "20s"),
        aged(41, "41s"),
        aged(82, "82s"),
        aged(123, "123s"), // recovered after restart
        aged(284, "284s"),
        aged(305, "305s"),
        aged(346, "346s"),
        aged(388, "388s"), // first snapshot
    ];
    let rejected = policy.judge(&snapshots).rejected;
    assert!(rejected.is_empty());
}

#[test]
fn partition_is_total_and_disjoint() {
    let policy = RetentionPolicy::from_str("50s2:10m2").unwrap();
    let snapshots = [
        aged(38, "38s"),
        aged(79, "79s"),
        aged(120, "120s"),
        aged(7 * 60, "7m"),
        aged(18 * 60, "18m"),
        aged(29 * 60, "29m"),
    ];
    let judgement = policy.judge(&snapshots);
    let mut seen: Vec<usize> = judgement.rejected.clone();
    for (i, rules) in &judgement.retained {
        assert!(!rules.is_empty());
        assert!(!judgement.rejected.contains(i));
        seen.push(*i);
    }
    seen.sort();
    assert_eq!(seen, vec![0, 1, 2, 3, 4, 5]);
    // the exact partition: 79s and 29m are wanted by neither tier
    assert_eq!(judgement.rejected, vec![1, 5]);
    assert_eq!(
        judgement.retained,
        vec![(0, vec![0]), (2, vec![0]), (3, vec![1]), (4, vec![1])]
    );
}

#[test]
fn rejected_only_when_every_rule_rejects() {
    let short = RetentionPolicy::from_str("50s2").unwrap();
    let long = RetentionPolicy::from_str("10m2").unwrap();
    let both = RetentionPolicy::from_str("10m2:50s2").unwrap();
    let snapshots = [
        aged(38, "38s"),
        aged(79, "79s"),
        aged(120, "120s"),
        aged(7 * 60, "7m"),
        aged(18 * 60, "18m"),
        aged(29 * 60, "29m"),
    ];
    let a = short.judge(&snapshots).rejected;
    let b = long.judge(&snapshots).rejected;
    let expected: Vec<usize> = a.iter().copied().filter(|i| b.contains(i)).collect();
    assert_eq!(both.judge(&snapshots).rejected, expected);
    let reversed = RetentionPolicy(vec![both.0[1], both.0[0]]);
    assert_eq!(reversed.judge(&snapshots).rejected, expected);
}

#[test]
fn single_rule_keeps_at_most_its_copies() {
    let policy = RetentionPolicy::from_str("1m3").unwrap();
    let snapshots: Vec<SnapshotMetadata> =
        (0..20).map(|k| aged(k * 70, &format!("{k}"))).collect();
    let judgement = policy.judge(&snapshots);
    assert_eq!(judgement.retained.len(), 3);
    assert_eq!(judgement.rejected.len(), 17);
}

#[test]
fn spaced_snapshots_after_a_gap_are_all_kept() {
    let policy = RetentionPolicy::from_str("1m50").unwrap();
    let mut snapshots: Vec<SnapshotMetadata> =
        (0..5).map(|k| aged(k * 60, &format!("new{k}"))).collect();
    snapshots.extend((0..5).map(|k| aged(100_000 + k * 60, &format!("old{k}"))));
    assert!(policy.judge(&snapshots).rejected.is_empty());
}

#[test]
fn judging_twice_gives_the_same_partition() {
    let policy = RetentionPolicy::from_str("50s2:10m2").unwrap();
    let snapshots = [aged(38, "a"), aged(79, "b"), aged(120, "c"), aged(29 * 60, "d")];
    assert_eq!(policy.judge(&snapshots), policy.judge(&snapshots));
}

#[test]
fn listing_order_does_not_matter() {
    let policy = RetentionPolicy::from_str("50s2").unwrap();
    let newest_first = [aged(40, "a"), aged(80, "b"), aged(120, "c"), aged(540, "d")];
    let shuffled = [
        newest_first[2].clone(),
        newest_first[0].clone(),
        newest_first[3].clone(),
        newest_first[1].clone(),
    ];
    let mut a = rejected_names(&policy, &newest_first);
    let mut b = rejected_names(&policy, &shuffled);
    a.sort();
    b.sort();
    assert_eq!(a, b);
}

#[test]
fn no_snapshots_means_no_due_time() {
    let policy = RetentionPolicy::from_str("10m2:1h3").unwrap();
    assert_eq!(policy.next_snapshot_in_at(&[], NOW), None);
    assert!(policy.judge(&[]).rejected.is_empty());
}

#[test]
fn overdue_snapshot_is_due_now() {
    let policy = RetentionPolicy::from_str("10m2:1h1").unwrap();
    let snapshots = [aged(11 * 60, "11m")];
    assert_eq!(policy.next_snapshot_in_at(&snapshots, NOW), Some(0));
    let rule = RetentionRule { snapshot_period: 3600, retained_copies: 1 };
    assert_eq!(rule.next_snapshot_in_at(&snapshots, NOW), Some(49 * 60));
}

#[test]
fn parses_and_sorts_rules() {
    let policy = RetentionPolicy::from_str("1d14:15m8:1w20:1h48").unwrap();
    let periods: Vec<u64> = policy.0.iter().map(|r| r.snapshot_period).collect();
    assert_eq!(periods, vec![900, 3600, 86400, 604800]);
    assert_eq!(policy.0[0].retained_copies, 8);
    assert_eq!(policy.shortest_period(), 900);
    assert_eq!(
        RetentionRule::from_str("2y1"),
        Ok(RetentionRule { snapshot_period: 2 * 31_536_000, retained_copies: 1 })
    );
    assert_eq!(
        RetentionRule::from_str("+3s+4"),
        Ok(RetentionRule { snapshot_period: 3, retained_copies: 4 })
    );
}

#[test]
fn parse_errors() {
    assert_eq!(RetentionPolicy::from_str(""), Err(ParseError::NoTimeUnit));
    assert_eq!(RetentionPolicy::from_str("10x2"), Err(ParseError::NoTimeUnit));
    assert_eq!(RetentionPolicy::from_str("10m2:"), Err(ParseError::NoTimeUnit));
    assert_eq!(RetentionPolicy::from_str("am2"), Err(ParseError::BadPeriod));
    assert_eq!(RetentionPolicy::from_str("10m2:5hx"), Err(ParseError::BadCopies));
    assert_eq!(RetentionPolicy::from_str("0m2"), Err(ParseError::ZeroPeriod));
    assert_eq!(RetentionPolicy::from_str("10m2:1h0"), Err(ParseError::ZeroCopies));
    assert_eq!(
        RetentionRule::from_str("18446744073709551615y1"),
        Err(ParseError::PeriodTooLong)
    );
    assert_eq!(
        RetentionRule::from_str("18446744073709551616s1"),
        Err(ParseError::BadPeriod)
    );
    assert!(!ParseError::NoRules.message().is_empty());
}

#[test]
fn periods_are_written_in_their_largest_unit() {
    let rule = |secs: u64| RetentionRule { snapshot_period: secs, retained_copies: 1 };
    assert_eq!(rule(900).display_parts(), Some((15, 'm')));
    assert_eq!(rule(7200).display_parts(), Some((2, 'h')));
    assert_eq!(rule(1_209_600).display_parts(), Some((2, 'w')));
    assert_eq!(rule(90).display_parts(), Some((90, 's')));
    assert_eq!(rule(31_536_000).display_parts(), Some((1, 'y')));
    assert_eq!(rule(0).display_parts(), None);
}

#[test]
fn snapshots_of_the_same_second_do_not_crash_the_judgement() {
    let policy = RetentionPolicy::from_str("10m1").unwrap();
    let snapshots = [aged(60, "first"), aged(60, "second")];
    let judgement = policy.judge(&snapshots);
    assert_eq!(judgement.rejected, vec![1]);
    assert_eq!(judgement.retained, vec![(0, vec![0])]);
}

#[test]
fn due_time_saturates_for_the_longest_period() {
    let rule = RetentionRule { snapshot_period: u64::MAX, retained_copies: 1 };
    let snapshots = [aged(0, "now")];
    assert_eq!(rule.next_snapshot_in_at(&snapshots, NOW), Some(u64::MAX));
}

#[test]
fn rule_order_keeps_the_retainers() {
    let forward = RetentionPolicy::from_str("50s2:10m2").unwrap();
    let backward = RetentionPolicy(vec![forward.0[1], forward.0[0]]);
    let snapshots = [
        aged(38, "38s"),
        aged(79, "79s"),
        aged(120, "120s"),
        aged(7 * 60, "7m"),
        aged(18 * 60, "18m"),
        aged(29 * 60, "29m"),
    ];
    let a = forward.judge(&snapshots);
    let b = backward.judge(&snapshots);
    assert_eq!(a.rejected, b.rejected);
    assert_eq!(a.retained.len(), b.retained.len());
    for ((i, ra), (j, rb)) in a.retained.iter().zip(b.retained.iter()) {
        assert_eq!(i, j);
        let mut va: Vec<RetentionRule> = ra.iter().map(|q| forward.0[*q]).collect();
        let mut vb: Vec<RetentionRule> = rb.iter().map(|q| backward.0[*q]).collect();
        va.sort_by_key(|r| r.snapshot_period);
        vb.sort_by_key(|r| r.snapshot_period);
        assert_eq!(va, vb);
    }
}
