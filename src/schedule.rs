//! The decisions of the scheduling loop: how long to sleep, which volumes to
//! snapshot on waking, and which snapshots to destroy.
use vstd::prelude::*;

use crate::policy::{earliest_due, judgement_of, RetentionPolicy};
use crate::snapshot::SnapshotMetadata;

verus! {

/// How long the loop sleeps, in seconds, when no volume reports a due time.
pub const FALLBACK_POLL_SECONDS: u64 = 600;

/// A volume under this tool's care, with its policy and current snapshots.
#[derive(Clone, Debug, PartialEq, Eq)]
pub struct ConfiguredDataSet {
    pub path: String,
    pub retention_policy: RetentionPolicy,
    /// Newest first, as the snapshot store lists them.
    pub sorted_snapshots: Vec<SnapshotMetadata>,
}

impl ConfiguredDataSet {
    /// Seconds from `now` until this volume's policy wants a new snapshot.
    pub open spec fn due(&self, now: int) -> Option<u64> {
        earliest_due(
            self.retention_policy.rules(),
            self.sorted_snapshots@,
            now,
            self.retention_policy.rules().len() as int,
        )
    }

    /// Seconds from `now` until this volume's policy wants a new snapshot;
    /// `None` when it has no snapshots.
    pub fn until_next_snapshot_at(&self, now: i64) -> (due: Option<u64>)
        ensures
            due == self.due(now as int),
    {
        self.retention_policy.next_snapshot_in_at(self.sorted_snapshots.as_slice(), now)
    }

    /// As `until_next_snapshot_at`, measured from the system clock.
    pub fn until_next_snapshot(&self) -> (due: Option<u64>)
        ensures
            exists|now: i64| due == self.due(now as int),
    {
        let now = crate::clock::now_seconds();
        self.until_next_snapshot_at(now)
    }
}

/// The earliest due time among the first `upto` volumes, ignoring those
/// that report none.
pub open spec fn earliest_of(datasets: Seq<ConfiguredDataSet>, now: int, upto: int) -> Option<u64>
    decreases upto,
{
    if upto <= 0 {
        None
    } else {
        let earlier = earliest_of(datasets, now, upto - 1);
        match (earlier, datasets[upto - 1].due(now)) {
            (None, this) => this,
            (Some(a), None) => Some(a),
            (Some(a), Some(b)) => Some(if b < a { b } else { a }),
        }
    }
}

/// The indices, in increasing order, of the first `upto` volumes that are
/// due for a snapshot at `now`.
pub open spec fn due_now_upto(datasets: Seq<ConfiguredDataSet>, now: int, upto: int) -> Seq<usize>
    decreases upto,
{
    if upto <= 0 {
        Seq::empty()
    } else {
        let earlier = due_now_upto(datasets, now, upto - 1);
        if datasets[upto - 1].due(now) == Some(0u64) {
            earlier.push((upto - 1) as usize)
        } else {
            earlier
        }
    }
}

/// The snapshots that the first `upto` volumes' policies reject, as pairs of
/// volume index and snapshot index, volume by volume.
pub open spec fn removals_upto(datasets: Seq<ConfiguredDataSet>, upto: int) -> Seq<(usize, usize)>
    decreases upto,
{
    if upto <= 0 {
        Seq::empty()
    } else {
        let d = datasets[upto - 1];
        removals_upto(datasets, upto - 1) + judgement_of(d.retention_policy.rules(), d.sorted_snapshots@).rejected.map_values(
            |i: usize| ((upto - 1) as usize, i),
        )
    }
}

/// Seconds to sleep before the next cycle: the earliest due time over all
/// volumes, or the fallback poll interval when none reports one.
pub fn until_next_check(datasets: &[ConfiguredDataSet], now: i64) -> (seconds: u64)
    ensures
        seconds == match earliest_of(datasets@, now as int, datasets@.len() as int) {
            Some(d) => d,
            None => FALLBACK_POLL_SECONDS,
        },
{
    let mut earliest: Option<u64> = None;
    for k in 0..datasets.len()
        invariant
            earliest == earliest_of(datasets@, now as int, k as int),
    {
        let this = datasets[k].until_next_snapshot_at(now);
        earliest = match (earliest, this) {
            (None, this) => this,
            (Some(a), None) => Some(a),
            (Some(a), Some(b)) => Some(if b < a { b } else { a }),
        };
    }
    match earliest {
        Some(d) => d,
        None => FALLBACK_POLL_SECONDS,
    }
}

/// The volumes, by index, whose policy wants a snapshot at `now`.
pub fn need_snapshot(datasets: &[ConfiguredDataSet], now: i64) -> (due: Vec<usize>)
    ensures
        due@ == due_now_upto(datasets@, now as int, datasets@.len() as int),
{
    let mut due: Vec<usize> = Vec::new();
    for k in 0..datasets.len()
        invariant
            due@ == due_now_upto(datasets@, now as int, k as int),
    {
        if datasets[k].until_next_snapshot_at(now) == Some(0u64) {
            due.push(k);
        }
    }
    due
}

/// Every snapshot that its volume's policy rejects, as (volume index,
/// snapshot index) pairs.
pub fn need_removal(datasets: &[ConfiguredDataSet]) -> (removals: Vec<(usize, usize)>)
    requires
        forall|k: int| 0 <= k < datasets@.len() ==> (#[trigger] datasets@[k]).retention_policy.rules().len() > 0,
    ensures
        removals@ == removals_upto(datasets@, datasets@.len() as int),
{
    let mut removals: Vec<(usize, usize)> = Vec::new();
    for k in 0..datasets.len()
        invariant
            forall|k: int| 0 <= k < datasets@.len() ==> (#[trigger] datasets@[k]).retention_policy.rules().len() > 0,
            removals@ == removals_upto(datasets@, k as int),
    {
        let d = &datasets[k];
        let judgement = d.retention_policy.judge(d.sorted_snapshots.as_slice());
        let ghost before = removals@;
        let ghost rejected = judgement.rejected@;
        for j in 0..judgement.rejected.len()
            invariant
                rejected == judgement.rejected@,
                removals@ == before + rejected.take(j as int).map_values(|i: usize| (k, i)),
        {
            removals.push((k, judgement.rejected[j]));
            assert(rejected.take(j + 1) =~= rejected.take(j as int).push(rejected[j as int]));
            assert(before + rejected.take(j + 1).map_values(|i: usize| (k, i)) =~= (before + rejected.take(
                j as int,
            ).map_values(|i: usize| (k, i))).push((k, rejected[j as int])));
        }
        assert(rejected.take(rejected.len() as int) =~= rejected);
        assert(judgement@.rejected == judgement_of(d.retention_policy.rules(), d.sorted_snapshots@).rejected);
    }
    removals
}

} // verus!
