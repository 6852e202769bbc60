//! A single retention rule: keep `retained_copies` snapshots spaced at least
//! `snapshot_period` seconds apart.
use vstd::prelude::*;

use crate::snapshot::{created_times, oldest_first, oldest_first_order, sorted_times, SnapshotMetadata};

verus! {

/// One retention tier: the period between kept snapshots, in seconds, and
/// how many such snapshots to keep.
#[derive(Clone, Copy, Debug, PartialEq, Eq, Hash, Structural)]
pub struct RetentionRule {
    pub snapshot_period: u64,
    pub retained_copies: usize,
}

/// The watermark in force at position `i` of a greedy sweep over `ts` that
/// starts at position `from` with the epoch as watermark: a snapshot at or
/// after the watermark is taken and moves it to its own time plus `period`.
pub open spec fn watermark(ts: Seq<i64>, period: int, from: int, i: int) -> int
    decreases i - from,
{
    if i <= from {
        0
    } else {
        let w = watermark(ts, period, from, i - 1);
        if ts[i - 1] >= w {
            ts[i - 1] + period
        } else {
            w
        }
    }
}

/// The sweep that starts at `from` takes position `i`.
pub open spec fn taken(ts: Seq<i64>, period: int, from: int, i: int) -> bool {
    ts[i] >= watermark(ts, period, from, i)
}

/// How many of the positions `from..i` the sweep that starts at `from` takes.
pub open spec fn taken_count(ts: Seq<i64>, period: int, from: int, i: int) -> nat
    decreases i - from,
{
    if i <= from {
        0
    } else {
        taken_count(ts, period, from, i - 1) + if taken(ts, period, from, i - 1) {
            1nat
        } else {
            0nat
        }
    }
}

/// The number of period-spaced representatives in `ts[n..]`.
pub open spec fn considered(ts: Seq<i64>, period: int, n: int) -> nat {
    taken_count(ts, period, n, ts.len() as int)
}

/// The first `m >= n` whose suffix has at most `copies` representatives, or
/// 0 when there is none.
pub open spec fn cut_from(ts: Seq<i64>, period: int, copies: int, n: int) -> int
    decreases ts.len() - n,
{
    if n >= ts.len() {
        0
    } else if considered(ts, period, n) <= copies {
        n
    } else {
        cut_from(ts, period, copies, n + 1)
    }
}

/// Where the bounded working set of a rule begins in the oldest-first times
/// `ts`: everything before it is rejected outright.
pub open spec fn cut(ts: Seq<i64>, period: int, copies: int) -> int {
    cut_from(ts, period, copies, 0)
}

/// The rule `(period, copies)` does not need the snapshot at position `j` of
/// the oldest-first times `ts`: it lies before the bounded working set, or
/// the spacing sweep over that set passes it over.
pub open spec fn rejects_at(ts: Seq<i64>, period: int, copies: int, j: int) -> bool {
    let c = cut(ts, period, copies);
    j < c || !taken(ts, period, c, j)
}

/// The position of snapshot `i` in the oldest-first order of `snaps`.
pub open spec fn position(snaps: Seq<SnapshotMetadata>, i: int) -> int {
    oldest_first(created_times(snaps)).index_of(i as usize)
}

/// Seconds from `now` until `due`, floored at zero and capped at `u64::MAX`.
pub open spec fn seconds_until(due: int, now: int) -> int {
    if due - now <= 0 {
        0
    } else if due - now >= u64::MAX {
        u64::MAX as int
    } else {
        due - now
    }
}

impl RetentionRule {
    /// The rule is a valid configuration: a positive period, at least one copy.
    pub open spec fn usable(self) -> bool {
        self.snapshot_period > 0 && self.retained_copies > 0
    }

    /// This rule, alone, does not need snapshot `i` of `snaps`.
    pub open spec fn rejects_snapshot(self, snaps: Seq<SnapshotMetadata>, i: int) -> bool {
        rejects_at(
            sorted_times(snaps),
            self.snapshot_period as int,
            self.retained_copies as int,
            position(snaps, i),
        )
    }

    /// When this rule next wants a snapshot, in seconds from `now`: one period
    /// after the newest snapshot, which always belongs to the rule's bounded
    /// working set. `None` when there
    /// are no snapshots.
    pub open spec fn next_due(self, snaps: Seq<SnapshotMetadata>, now: int) -> Option<u64> {
        let ts = sorted_times(snaps);
        if ts.len() == 0 {
            None
        } else {
            Some(seconds_until(ts.last() + self.snapshot_period, now) as u64)
        }
    }
}

/// A sweep over `ts[from..]` from the epoch watermark: how many positions it takes.
fn count_considered(ts: &Vec<i64>, period: u64, from: usize) -> (count: usize)
    requires
        from <= ts@.len(),
    ensures
        count == considered(ts@, period as int, from as int),
{
    let mut next_at: i128 = 0;
    let mut count: usize = 0;
    let mut j = from;
    while j < ts.len()
        invariant
            from <= j <= ts@.len(),
            next_at == watermark(ts@, period as int, from as int, j as int),
            0 <= next_at <= i64::MAX + u64::MAX,
            count == taken_count(ts@, period as int, from as int, j as int),
            count <= j - from,
        decreases ts@.len() - j,
    {
        if ts[j] as i128 >= next_at {
            next_at = ts[j] as i128 + period as i128;
            count = count + 1;
        }
        j = j + 1;
    }
    count
}

/// The creation times of `snapshots` in the given order of indices.
pub fn times_in_order(snapshots: &[SnapshotMetadata], order: &Vec<usize>) -> (ts: Vec<i64>)
    requires
        forall|j: int| 0 <= j < order@.len() ==> #[trigger] order@[j] < snapshots@.len(),
    ensures
        ts@ == order@.map_values(|i: usize| created_times(snapshots@)[i as int]),
{
    let mut ts: Vec<i64> = Vec::new();
    for j in 0..order.len()
        invariant
            forall|j: int| 0 <= j < order@.len() ==> #[trigger] order@[j] < snapshots@.len(),
            ts@ =~= order@.take(j as int).map_values(|i: usize| created_times(snapshots@)[i as int]),
    {
        ts.push(snapshots[order[j]].created);
        assert(order@.take(j + 1) =~= order@.take(j as int).push(order@[j as int]));
    }
    assert(order@.take(order@.len() as int) =~= order@);
    ts
}

/// Phase one of a rule: the start of its bounded working set in the
/// oldest-first times `ts`.
pub fn not_too_old(ts: &Vec<i64>, rule: &RetentionRule) -> (skip: usize)
    ensures
        skip == cut(ts@, rule.snapshot_period as int, rule.retained_copies as int),
        ts@.len() > 0 ==> skip < ts@.len(),
{
    let ghost p = rule.snapshot_period as int;
    let ghost k = rule.retained_copies as int;
    let mut n: usize = 0;
    while n < ts.len()
        invariant
            n <= ts@.len(),
            cut(ts@, p, k) == cut_from(ts@, p, k, n as int),
            p == rule.snapshot_period,
            k == rule.retained_copies,
        decreases ts@.len() - n,
    {
        let count = count_considered(ts, rule.snapshot_period, n);
        if count <= rule.retained_copies {
            return n;
        }
        n = n + 1;
    }
    0
}

impl RetentionRule {
    /// For each position of the oldest-first times `ts`, whether this rule,
    /// alone, rejects the snapshot there.
    pub fn rejects(&self, ts: &Vec<i64>) -> (rejected: Vec<bool>)
        ensures
            rejected@.len() == ts@.len(),
            forall|j: int|
                0 <= j < ts@.len() ==> #[trigger] rejected@[j] == rejects_at(
                    ts@,
                    self.snapshot_period as int,
                    self.retained_copies as int,
                    j,
                ),
    {
        let ghost p = self.snapshot_period as int;
        let ghost k = self.retained_copies as int;
        let skip = not_too_old(ts, self);
        let mut rejected: Vec<bool> = Vec::new();
        let mut next_at: i128 = 0;
        let mut j: usize = 0;
        while j < ts.len()
            invariant
                skip == cut(ts@, p, k),
                j <= ts@.len(),
                rejected@.len() == j,
                p == self.snapshot_period,
                k == self.retained_copies,
                j >= skip ==> next_at == watermark(ts@, p, skip as int, j as int),
                j < skip ==> next_at == 0,
                0 <= next_at <= i64::MAX + u64::MAX,
                forall|m: int| 0 <= m < j ==> #[trigger] rejected@[m] == rejects_at(ts@, p, k, m),
            decreases ts@.len() - j,
        {
            if j < skip {
                rejected.push(true);
            } else if ts[j] as i128 >= next_at {
                next_at = ts[j] as i128 + self.snapshot_period as i128;
                rejected.push(false);
            } else {
                rejected.push(true);
            }
            j = j + 1;
        }
        rejected
    }
}

impl RetentionRule {
    /// Seconds from `now` until this rule wants a new snapshot of the volume
    /// whose snapshots are `snapshots` (in any order); `None` when there are none.
    pub fn next_snapshot_in_at(&self, snapshots: &[SnapshotMetadata], now: i64) -> (due: Option<u64>)
        ensures
            due == self.next_due(snapshots@, now as int),
    {
        let order = oldest_first_order(snapshots);
        let ts = times_in_order(snapshots, &order);
        assert(ts@ =~= sorted_times(snapshots@));
        if ts.len() == 0 {
            return None;
        }
        let newest = ts[ts.len() - 1];
        let until = newest as i128 + self.snapshot_period as i128 - now as i128;
        if until <= 0 {
            Some(0)
        } else if until >= u64::MAX as i128 {
            Some(u64::MAX)
        } else {
            Some(until as u64)
        }
    }

    /// As `next_snapshot_in_at`, measured from the system clock.
    pub fn next_snapshot_in(&self, snapshots: &[SnapshotMetadata]) -> (due: Option<u64>)
        ensures
            exists|now: i64| due == #[trigger] self.next_due(snapshots@, now as int),
    {
        let now = crate::clock::now_seconds();
        self.next_snapshot_in_at(snapshots, now)
    }
}

/// The largest of the time units `0..=u` (see `time_unit_spec`) that
/// divides `period` a positive number of times: that number and the unit's
/// letter.
pub open spec fn display_unit_from(period: u64, u: int) -> Option<(u64, char)>
    decreases u + 1,
{
    if u < 0 {
        None
    } else {
        let (letter, seconds) = crate::parse::time_unit_spec(u);
        if period % seconds == 0 && period / seconds > 0 {
            Some(((period / seconds) as u64, letter))
        } else {
            display_unit_from(period, u - 1)
        }
    }
}

impl RetentionRule {
    /// The period written in the largest unit that divides it: the amount
    /// and the unit letter. `None` for a zero period.
    pub fn display_parts(&self) -> (parts: Option<(u64, char)>)
        ensures
            parts == display_unit_from(self.snapshot_period, 5),
    {
        let period = self.snapshot_period;
        let mut u: usize = 6;
        while u > 0
            invariant
                u <= 6,
                period == self.snapshot_period,
                display_unit_from(period, 5) == display_unit_from(period, u - 1),
            decreases u,
        {
            let (letter, seconds) = crate::parse::time_unit(u - 1);
            assert(crate::parse::time_unit_spec(u - 1) == (letter, seconds));
            if period % seconds == 0 && period / seconds > 0 {
                assert(display_unit_from(period, u - 1) == Some((period / seconds, letter)));
                return Some((period / seconds, letter));
            }
            u = u - 1;
        }
        None
    }
}

} // verus!
