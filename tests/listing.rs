use zcrab::listing::{
    check_destroy_target, configured_datasets, datetime_from, used_from, group_by_dataset, is_snapshot_name, parse_datasets,
    parse_datetime, parse_snapshots, parse_used, size_text, snapshot_name, unconfigured_datasets,
    StoreError,
};
use zcrab::parse::ParseError;
use zcrab::snapshot::SnapshotMetadata;

fn row(cells: &[&str]) -> Vec<String> {
    cells.iter().map(|c| c.to_string()).collect()
}

fn snap(name: &str, created: i64) -> SnapshotMetadata {
    SnapshotMetadata { name: name.to_string(), created, used: 0 }
}

#[test]
fn test_parse_snapshots() {
    let lines = vec![
        // name, created, used, snapkeep
        vec![
            String::from("first"),
            String::from("Sat Oct 2 09:59 2021"),
            String::from("13G"),
            String::from("at.rollc.at:snapkeep=h24d30w8m6y1"),
        ],
        vec![
            String::from("skip"),
            String::from("Sat Oct 1 19:59 2021"),
            String::from("2G"),
            String::from("-"),
        ],
    ];
    let snapshots = parse_snapshots(lines).unwrap();
    let created = chrono::NaiveDateTime::parse_from_str("Sat Oct 2 09:59 2021", "%a %b %e %H:%M %Y")
        .unwrap()
        .and_utc()
        .timestamp();
    assert_eq!(
        snapshots,
        vec![SnapshotMetadata {
            name: String::from("first"),
            created,
            used: 13u128 * 1024 * 1024 * 1024,
        }]
    );
}

#[test]
fn test_parse_snapshots_empty() {
    let lines = vec![];
    let snapshots = parse_snapshots(lines).unwrap();
    assert_eq!(snapshots, vec![]);
}

#[test]
fn test_parse_snapshots_invalid_row() {
    let lines = vec![vec![String::from("unexpected")]];
    let err = parse_snapshots(lines).unwrap_err();
    assert_eq!(err.to_string(), "list snapshots parse error");
}

#[test]
fn test_parse_snapshots_invalid_date() {
    let lines = vec![vec![
        String::from("first"),
        String::from("2 Oct 2021 9:52AM"),
        String::from("3G"),
        String::from("at.rollc.at:snapkeep=h24d30w8m6y1"),
    ]];
    let err = parse_snapshots(lines).unwrap_err();
    assert!(err.to_string().starts_with("can't parse datetime:"));
}

#[test]
fn creation_time_as_epoch_seconds() {
    assert_eq!(parse_datetime("1633168740"), Ok(1_633_168_740));
    assert_eq!(parse_datetime("Sat Oct 2 09:59 2021"), Ok(1_633_168_740));
    assert_eq!(
        parse_datetime("yesterday"),
        Err(StoreError::BadDatetime("yesterday".to_string()))
    );
}

#[test]
fn sizes_use_binary_prefixes() {
    assert_eq!(size_text("1.5M"), "1.5MiB");
    assert_eq!(size_text("512"), "512");
    assert_eq!(parse_used("13G"), Ok(13 * 1024 * 1024 * 1024));
    assert_eq!(parse_used("2K"), Ok(2048));
    assert_eq!(parse_used("100"), Ok(100));
    assert_eq!(parse_used("lots"), Err(StoreError::BadSize("lots".to_string())));
    let err = parse_snapshots(vec![row(&["a@b", "1633168740", "huge", "x"])]).unwrap_err();
    assert!(err.to_string().starts_with("can't parse size:"));
}

#[test]
fn destroy_only_snapshots() {
    assert!(is_snapshot_name("pool/home@2021-10-02"));
    assert!(!is_snapshot_name("pool/home"));
    assert_eq!(check_destroy_target(&snap("pool/home@x", 0)), Ok(()));
    let err = check_destroy_target(&snap("pool/home", 0)).unwrap_err();
    assert_eq!(err, StoreError::NotASnapshot);
    assert_eq!(err.to_string(), "Tried to destroy something that is not a snapshot");
}

#[test]
fn snapshot_dataset_is_name_before_at() {
    assert_eq!(snap("pool/home@a@b", 0).dataset(), "pool/home");
    assert_eq!(snap("@tag", 0).dataset(), "");
}

#[test]
fn groups_by_dataset_newest_first() {
    let groups = group_by_dataset(vec![
        snap("a@1", 10),
        snap("b@1", 5),
        snap("a@2", 30),
        snap("a@3", 20),
    ])
    .unwrap();
    assert_eq!(groups.len(), 2);
    assert_eq!(groups[0].0, "a");
    let names: Vec<&str> = groups[0].1.iter().map(|s| s.name.as_str()).collect();
    assert_eq!(names, vec!["a@2", "a@3", "a@1"]);
    assert_eq!(groups[1].0, "b");
    assert_eq!(groups[1].1.len(), 1);
    assert_eq!(
        group_by_dataset(vec![snap("a@1", 1), snap("nope", 2)]),
        Err(StoreError::NotASnapshot)
    );
}

#[test]
fn datasets_and_their_policies() {
    let rows = vec![row(&["pool/a", "10m2"]), row(&["pool/b", "-"]), row(&["pool/c", "1h3:1m5"])];
    let datasets = parse_datasets(rows).unwrap();
    assert_eq!(datasets.len(), 2);
    assert_eq!(datasets[0].0, "pool/a");
    assert_eq!(datasets[1].0, "pool/c");
    assert_eq!(datasets[1].1 .0[0].snapshot_period, 60);
    assert_eq!(
        parse_datasets(vec![row(&["pool/a", "10q2"])]),
        Err(StoreError::BadPolicy(ParseError::NoTimeUnit))
    );
    assert_eq!(parse_datasets(vec![row(&["pool/a"])]), Err(StoreError::BadDatasetRow));

    let groups = group_by_dataset(vec![snap("pool/a@1", 1), snap("pool/z@1", 2)]).unwrap();
    let configured = configured_datasets(datasets, &groups);
    assert_eq!(configured.len(), 2);
    assert_eq!(configured[0].path, "pool/a");
    assert_eq!(configured[0].sorted_snapshots, vec![snap("pool/a@1", 1)]);
    assert!(configured[1].sorted_snapshots.is_empty());
}

#[test]
fn snapshot_names_carry_the_time() {
    assert_eq!(
        snapshot_name("pool/home", 1_516_991_409),
        Some("pool/home@2018-01-26T18:30:09Z-autosnap".to_string())
    );
    assert_eq!(snapshot_name("pool/home", i64::MAX), None);
}

#[test]
fn datasets_without_a_policy() {
    let rows = vec![row(&["pool/a", "10m2"]), row(&["pool/b", "-"]), row(&["pool/c"]), row(&["pool/d", "-"])];
    assert_eq!(unconfigured_datasets(&rows), vec!["pool/b".to_string(), "pool/d".to_string()]);
}

#[test]
fn first_reading_of_a_time_wins() {
    assert_eq!(datetime_from(Some(5), Some(7), "x"), Ok(5));
    assert_eq!(datetime_from(None, Some(7), "x"), Ok(7));
    assert_eq!(datetime_from(None, None, "x"), Err(StoreError::BadDatetime("x".to_string())));
    assert_eq!(used_from(Some(9), "9"), Ok(9));
    assert_eq!(used_from(None, "?"), Err(StoreError::BadSize("?".to_string())));
}

#[test]
fn sizes_too_long_for_byte_unit_are_refused() {
    assert_eq!(
        parse_used("1000000000000000000Z"),
        Err(StoreError::BadSize("1000000000000000000Z".to_string()))
    );
    // fifteen characters spell out to seventeen, the longest accepted text
    assert_eq!(parse_used("999999999999999"), Ok(999_999_999_999_999));
    assert_eq!(parse_used("1234567890123456"), Ok(1_234_567_890_123_456));
    assert_eq!(
        parse_used("123456789012345678"),
        Err(StoreError::BadSize("123456789012345678".to_string()))
    );
}

#[test]
fn error_sentences() {
    assert_eq!(StoreError::BadRow.to_string(), "list snapshots parse error");
    assert_eq!(
        StoreError::BadDatetime("x".to_string()).to_string(),
        "can't parse datetime: x"
    );
    assert_eq!(
        StoreError::BadPolicy(ParseError::ZeroCopies).to_string(),
        "invalid retention policy: the number of copies to keep must be larger than zero"
    );
}
