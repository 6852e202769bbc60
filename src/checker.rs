//! A simpler, age-band reading of a policy: rule `(p, k)` keeps, for each
//! band `[i*p, (i+1)*p)` of age with `i < k`, the newest-listed snapshot whose
//! age falls in it. Rules are applied one after the other to what is left.
use vstd::prelude::*;

use crate::policy::RetentionPolicy;
use crate::rule::RetentionRule;
use crate::snapshot::SnapshotMetadata;

verus! {

/// Checks snapshots against the rules of a policy, in the policy's order.
pub struct PolicyChecker<'a> {
    pub rules_shortest_retention_first: &'a [RetentionRule],
}

/// The age of a snapshot created at `created`, at `now`, floored at zero.
pub open spec fn age(created: int, now: int) -> int {
    if now - created <= 0 {
        0
    } else {
        now - created
    }
}

/// The first position at or after `j` of `left` whose snapshot's age lies in
/// `[lo, hi)`, or the length of `left` when there is none.
pub open spec fn first_in_band(
    left: Seq<usize>,
    snaps: Seq<SnapshotMetadata>,
    now: int,
    lo: int,
    hi: int,
    j: int,
) -> int
    decreases left.len() - j,
{
    if j >= left.len() {
        left.len() as int
    } else if lo <= age(snaps[left[j] as int].created as int, now) < hi {
        j
    } else {
        first_in_band(left, snaps, now, lo, hi, j + 1)
    }
}

/// `left` without the first snapshot whose age lies in `[lo, hi)`.
pub open spec fn take_band(left: Seq<usize>, snaps: Seq<SnapshotMetadata>, now: int, lo: int, hi: int) -> Seq<usize> {
    let j = first_in_band(left, snaps, now, lo, hi, 0);
    if j < left.len() {
        left.remove(j)
    } else {
        left
    }
}

/// `left` after the first `bands` age bands of `rule` took their snapshot.
pub open spec fn take_bands(
    left: Seq<usize>,
    snaps: Seq<SnapshotMetadata>,
    now: int,
    rule: RetentionRule,
    bands: int,
) -> Seq<usize>
    decreases bands,
{
    if bands <= 0 {
        left
    } else {
        let p = rule.snapshot_period as int;
        take_band(take_bands(left, snaps, now, rule, bands - 1), snaps, now, p * (bands - 1), p * bands)
    }
}

/// What is left of the snapshot indices `0..snaps.len()` after the first
/// `upto` rules took their snapshots.
pub open spec fn left_after(rules: Seq<RetentionRule>, snaps: Seq<SnapshotMetadata>, now: int, upto: int) -> Seq<usize>
    decreases upto,
{
    if upto <= 0 {
        Seq::new(snaps.len(), |i: int| i as usize)
    } else {
        let rule = rules[upto - 1];
        take_bands(left_after(rules, snaps, now, upto - 1), snaps, now, rule, rule.retained_copies as int)
    }
}

impl RetentionPolicy {
    /// A checker over this policy's rules.
    pub fn checker(&self) -> (checker: PolicyChecker<'_>)
        ensures
            checker.rules_shortest_retention_first@ == self.rules(),
    {
        PolicyChecker { rules_shortest_retention_first: self.0.as_slice() }
    }
}

/// The index of the first snapshot of `left` whose age at `now` lies in
/// `[lo, hi)`, or the length of `left`.
fn find_in_band(left: &Vec<usize>, snapshots: &[SnapshotMetadata], now: i64, lo: u128, hi: u128) -> (at: usize)
    requires
        forall|j: int| 0 <= j < left@.len() ==> #[trigger] left@[j] < snapshots@.len(),
    ensures
        at == first_in_band(left@, snapshots@, now as int, lo as int, hi as int, 0),
{
    let mut j: usize = 0;
    while j < left.len()
        invariant
            j <= left@.len(),
            forall|j: int| 0 <= j < left@.len() ==> #[trigger] left@[j] < snapshots@.len(),
            first_in_band(left@, snapshots@, now as int, lo as int, hi as int, 0) == first_in_band(
                left@,
                snapshots@,
                now as int,
                lo as int,
                hi as int,
                j as int,
            ),
        decreases left@.len() - j,
    {
        let elapsed = now as i128 - snapshots[left[j]].created as i128;
        let elapsed: u128 = if elapsed <= 0 {
            0
        } else {
            elapsed as u128
        };
        if lo <= elapsed && elapsed < hi {
            return j;
        }
        j = j + 1;
    }
    j
}

impl PolicyChecker<'_> {
    /// The snapshots, by index into `snapshots_newest_first`, that no age
    /// band of any rule took, at the time `now`.
    pub fn rejected_at(&self, snapshots_newest_first: &[SnapshotMetadata], now: i64) -> (left: Vec<usize>)
        ensures
            left@ == left_after(
                self.rules_shortest_retention_first@,
                snapshots_newest_first@,
                now as int,
                self.rules_shortest_retention_first@.len() as int,
            ),
    {
        let ghost rules = self.rules_shortest_retention_first@;
        let ghost snaps = snapshots_newest_first@;
        let mut left: Vec<usize> = Vec::new();
        for i in 0..snapshots_newest_first.len()
            invariant
                snaps == snapshots_newest_first@,
                left@ =~= Seq::new(i as nat, |k: int| k as usize),
        {
            left.push(i);
        }
        for r in 0..self.rules_shortest_retention_first.len()
            invariant
                rules == self.rules_shortest_retention_first@,
                snaps == snapshots_newest_first@,
                left@ == left_after(rules, snaps, now as int, r as int),
                forall|j: int| 0 <= j < left@.len() ==> #[trigger] left@[j] < snaps.len(),
        {
            let rule = self.rules_shortest_retention_first[r];
            let period = rule.snapshot_period as u128;
            for b in 0..rule.retained_copies
                invariant
                    rules == self.rules_shortest_retention_first@,
                    snaps == snapshots_newest_first@,
                    rule == rules[r as int],
                    period == rule.snapshot_period,
                    left@ == take_bands(left_after(rules, snaps, now as int, r as int), snaps, now as int, rule, b as int),
                    forall|j: int| 0 <= j < left@.len() ==> #[trigger] left@[j] < snaps.len(),
            {
                assert(period * b as u128 <= u64::MAX as u128 * usize::MAX as u128) by (nonlinear_arith)
                    requires
                        period <= u64::MAX,
                        b < usize::MAX,
                ;
                assert(period * (b as u128 + 1) <= u64::MAX as u128 * usize::MAX as u128) by (nonlinear_arith)
                    requires
                        period <= u64::MAX,
                        b < usize::MAX,
                ;
                let lo = period * b as u128;
                let hi = period * (b as u128 + 1);
                let at = find_in_band(&left, snapshots_newest_first, now, lo, hi);
                if at < left.len() {
                    let ghost before = left@;
                    left.remove(at);
                    proof {
                        before.remove_ensures(at as int);
                        assert(left@ =~= before.remove(at as int));
                        assert forall|j: int| 0 <= j < left@.len() implies #[trigger] left@[j] < snaps.len() by {
                            if j < at {
                                assert(left@[j] == before[j]);
                            } else {
                                assert(left@[j] == before[j + 1]);
                            }
                        }
                    }
                }
            }
        }
        left
    }

    /// The snapshots, by index into `snapshots_newest_first`, that no age
    /// band of any rule took, measured from the system clock.
    pub fn rejected(&self, snapshots_newest_first: &[SnapshotMetadata]) -> (left: Vec<usize>)
        ensures
            exists|now: i64|
                left@ == left_after(
                    self.rules_shortest_retention_first@,
                    snapshots_newest_first@,
                    now as int,
                    self.rules_shortest_retention_first@.len() as int,
                ),
    {
        let now = crate::clock::now_seconds();
        let left = self.rejected_at(snapshots_newest_first, now);
        left
    }
}

} // verus!
