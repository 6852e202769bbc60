//! A retention policy: a non-empty collection of rules, any of which can keep
//! a snapshot alive.
use vstd::prelude::*;

use crate::rule::{RetentionRule, position};
use crate::snapshot::{
    created_times, is_oldest_first, lemma_position_in_order, oldest_first, oldest_first_order,
    sorted_times, SnapshotMetadata,
};
use crate::rule::times_in_order;

verus! {

/// The rules that govern one volume. A usable policy holds at least one rule.
#[derive(Clone, Debug, PartialEq, Eq, Hash)]
pub struct RetentionPolicy(pub Vec<RetentionRule>);

/// The retained / rejected partition of one volume's snapshots.
///
/// Snapshots are named by their index in the listing that was judged, and
/// rules by their index in the policy. `rejected` holds, in increasing order,
/// the snapshots that no rule needs; `retained` holds, in increasing order of
/// snapshot, every other snapshot with the rules that still want it.
#[derive(Clone, Debug, PartialEq, Eq)]
pub struct Judgement {
    pub rejected: Vec<usize>,
    pub retained: Vec<(usize, Vec<usize>)>,
}

/// The mathematical content of a [`Judgement`].
pub struct JudgementView {
    pub rejected: Seq<usize>,
    pub retained: Seq<(usize, Seq<usize>)>,
}

impl View for Judgement {
    type V = JudgementView;

    open spec fn view(&self) -> JudgementView {
        JudgementView {
            rejected: self.rejected@,
            retained: self.retained@.map_values(|e: (usize, Vec<usize>)| (e.0, e.1@)),
        }
    }
}

/// No rule of `rules` needs snapshot `i` of `snaps`.
pub open spec fn policy_rejects(rules: Seq<RetentionRule>, snaps: Seq<SnapshotMetadata>, i: int) -> bool {
    forall|r: int| 0 <= r < rules.len() ==> #[trigger] rules[r].rejects_snapshot(snaps, i)
}

/// The indices, in increasing order, of the rules among the first `upto`
/// that still want snapshot `i`.
pub open spec fn retainers(
    rules: Seq<RetentionRule>,
    snaps: Seq<SnapshotMetadata>,
    i: int,
    upto: int,
) -> Seq<usize>
    decreases upto,
{
    if upto <= 0 {
        seq![]
    } else {
        let earlier = retainers(rules, snaps, i, upto - 1);
        if rules[upto - 1].rejects_snapshot(snaps, i) {
            earlier
        } else {
            earlier.push((upto - 1) as usize)
        }
    }
}

/// The indices, in increasing order, of the snapshots among the first `upto`
/// that the policy rejects.
pub open spec fn rejected_upto(rules: Seq<RetentionRule>, snaps: Seq<SnapshotMetadata>, upto: int) -> Seq<usize>
    decreases upto,
{
    if upto <= 0 {
        seq![]
    } else {
        let earlier = rejected_upto(rules, snaps, upto - 1);
        if policy_rejects(rules, snaps, upto - 1) {
            earlier.push((upto - 1) as usize)
        } else {
            earlier
        }
    }
}

/// The snapshots among the first `upto` that the policy retains, in
/// increasing order, each with the rules that want it.
pub open spec fn retained_upto(
    rules: Seq<RetentionRule>,
    snaps: Seq<SnapshotMetadata>,
    upto: int,
) -> Seq<(usize, Seq<usize>)>
    decreases upto,
{
    if upto <= 0 {
        seq![]
    } else {
        let earlier = retained_upto(rules, snaps, upto - 1);
        if policy_rejects(rules, snaps, upto - 1) {
            earlier
        } else {
            earlier.push(((upto - 1) as usize, retainers(rules, snaps, upto - 1, rules.len() as int)))
        }
    }
}

/// The earliest of the first `upto` rules' next due times, ignoring rules
/// that report none.
pub open spec fn earliest_due(
    rules: Seq<RetentionRule>,
    snaps: Seq<SnapshotMetadata>,
    now: int,
    upto: int,
) -> Option<u64>
    decreases upto,
{
    if upto <= 0 {
        None
    } else {
        let earlier = earliest_due(rules, snaps, now, upto - 1);
        match (earlier, rules[upto - 1].next_due(snaps, now)) {
            (None, this) => this,
            (Some(a), None) => Some(a),
            (Some(a), Some(b)) => Some(if b < a { b } else { a }),
        }
    }
}

/// The shortest period among the first `upto` rules.
pub open spec fn shortest_upto(rules: Seq<RetentionRule>, upto: int) -> u64
    decreases upto,
{
    if upto <= 1 {
        rules[0].snapshot_period
    } else {
        let earlier = shortest_upto(rules, upto - 1);
        if rules[upto - 1].snapshot_period < earlier {
            rules[upto - 1].snapshot_period
        } else {
            earlier
        }
    }
}

/// The judgement of the policy `rules` on the snapshots `snaps`.
pub open spec fn judgement_of(rules: Seq<RetentionRule>, snaps: Seq<SnapshotMetadata>) -> JudgementView {
    JudgementView {
        rejected: rejected_upto(rules, snaps, snaps.len() as int),
        retained: retained_upto(rules, snaps, snaps.len() as int),
    }
}

/// A snapshot has no retainers among the first `upto` rules exactly when
/// each of them rejects it.
pub proof fn lemma_no_retainers(rules: Seq<RetentionRule>, snaps: Seq<SnapshotMetadata>, i: int, upto: int)
    requires
        0 <= upto <= rules.len(),
    ensures
        (retainers(rules, snaps, i, upto).len() == 0) <==> (forall|r: int|
            0 <= r < upto ==> #[trigger] rules[r].rejects_snapshot(snaps, i)),
    decreases upto,
{
    if upto > 0 {
        lemma_no_retainers(rules, snaps, i, upto - 1);
    }
}

/// For each snapshot of the listing, whether the rule rejects it, from the
/// per-position answers `rejected_sorted` of the oldest-first `order`.
fn by_listing_index(order: &Vec<usize>, rejected_sorted: &Vec<bool>, ghost_times: Ghost<Seq<i64>>) -> (rejected: Vec<bool>)
    requires
        is_oldest_first(ghost_times@, order@),
        rejected_sorted@.len() == order@.len(),
    ensures
        rejected@.len() == order@.len(),
        forall|i: int| 0 <= i < order@.len() ==> #[trigger] rejected@[i] == rejected_sorted@[order@.index_of(i as usize)],
{
    let n = order.len();
    let mut rejected: Vec<bool> = Vec::new();
    for i in 0..n
        invariant
            rejected@.len() == i,
    {
        rejected.push(false);
    }
    for j in 0..n
        invariant
            n == order@.len(),
            is_oldest_first(ghost_times@, order@),
            rejected_sorted@.len() == n,
            rejected@.len() == n,
            forall|m: int| 0 <= m < j ==> #[trigger] rejected@[order@[m] as int] == rejected_sorted@[m],
    {
        proof {
            assert forall|m: int| 0 <= m < j implies order@[m] != order@[j as int] by {
                assert(crate::snapshot::comes_before(ghost_times@, order@[m] as int, order@[j as int] as int));
            }
        }
        rejected.set(order[j], rejected_sorted[j]);
    }
    proof {
        assert forall|i: int| 0 <= i < n implies #[trigger] rejected@[i] == rejected_sorted@[order@.index_of(i as usize)] by {
            assert(order@.contains(i as usize));
            let j = choose|j: int| 0 <= j < n && order@[j] == i as usize;
            lemma_position_in_order(ghost_times@, order@, j);
        }
    }
    rejected
}

impl RetentionPolicy {
    /// The rules of this policy.
    pub open spec fn rules(&self) -> Seq<RetentionRule> {
        self.0@
    }

    /// The policy can be used: it has at least one rule, and every rule has
    /// a positive period and keeps at least one copy.
    pub open spec fn wf(&self) -> bool {
        &&& self.rules().len() > 0
        &&& forall|r: int| 0 <= r < self.rules().len() ==> #[trigger] self.rules()[r].usable()
    }

    /// Seconds from `now` until some rule of this policy wants a new snapshot
    /// of the volume whose snapshots are `snapshots`: the minimum over the
    /// rules that report a due time, `None` when none does.
    pub fn next_snapshot_in_at(&self, snapshots: &[SnapshotMetadata], now: i64) -> (due: Option<u64>)
        ensures
            due == earliest_due(self.rules(), snapshots@, now as int, self.rules().len() as int),
    {
        let mut earliest: Option<u64> = None;
        for r in 0..self.0.len()
            invariant
                earliest == earliest_due(self.rules(), snapshots@, now as int, r as int),
        {
            let this = self.0[r].next_snapshot_in_at(snapshots, now);
            earliest = match (earliest, this) {
                (None, this) => this,
                (Some(a), None) => Some(a),
                (Some(a), Some(b)) => Some(if b < a { b } else { a }),
            };
        }
        earliest
    }

    /// Seconds until some rule of this policy wants a new snapshot, measured
    /// from the current time of the system clock.
    pub fn next_snapshot_in(&self, snapshots: &[SnapshotMetadata]) -> (due: Option<u64>)
        ensures
            exists|now: i64| due == earliest_due(self.rules(), snapshots@, now as int, self.rules().len() as int),
    {
        let now = crate::clock::now_seconds();
        self.next_snapshot_in_at(snapshots, now)
    }

    /// The shortest period among the rules, in seconds.
    pub fn shortest_period(&self) -> (period: u64)
        requires
            self.rules().len() > 0,
        ensures
            period == shortest_upto(self.rules(), self.rules().len() as int),
            forall|r: int| 0 <= r < self.rules().len() ==> period <= #[trigger] self.rules()[r].snapshot_period,
            exists|r: int| 0 <= r < self.rules().len() && period == #[trigger] self.rules()[r].snapshot_period,
    {
        let mut shortest = self.0[0].snapshot_period;
        let mut r: usize = 1;
        while r < self.0.len()
            invariant
                1 <= r <= self.rules().len(),
                shortest == shortest_upto(self.rules(), r as int),
                forall|q: int| 0 <= q < r ==> shortest <= #[trigger] self.rules()[q].snapshot_period,
                exists|q: int| 0 <= q < r && shortest == #[trigger] self.rules()[q].snapshot_period,
            decreases self.rules().len() - r,
        {
            if self.0[r].snapshot_period < shortest {
                shortest = self.0[r].snapshot_period;
            }
            r = r + 1;
        }
        shortest
    }

    /// Splits `snapshots` (listed in any order) into those that some rule
    /// still wants and those that none does.
    pub fn judge(&self, snapshots: &[SnapshotMetadata]) -> (judgement: Judgement)
        requires
            self.rules().len() > 0,
        ensures
            judgement@ == judgement_of(self.rules(), snapshots@),
    {
        let ghost c = created_times(snapshots@);
        let ghost rules = self.rules();
        let n = snapshots.len();
        let order = oldest_first_order(snapshots);
        let ts = times_in_order(snapshots, &order);
        assert(ts@ =~= sorted_times(snapshots@));
        let mut by_rule: Vec<Vec<bool>> = Vec::new();
        for r in 0..self.0.len()
            invariant
                rules == self.rules(),
                order@ == oldest_first(c),
                is_oldest_first(c, order@),
                c == created_times(snapshots@),
                n == snapshots@.len(),
                ts@ == sorted_times(snapshots@),
                by_rule@.len() == r,
                forall|q: int| 0 <= q < r ==> (#[trigger] by_rule@[q])@.len() == n,
                forall|q: int, i: int| 0 <= q < r && 0 <= i < n ==>
                    #[trigger] by_rule@[q]@[i] == rules[q].rejects_snapshot(snapshots@, i),
        {
            let rejected_sorted = self.0[r].rejects(&ts);
            let rejected = by_listing_index(&order, &rejected_sorted, Ghost(c));
            proof {
                assert forall|i: int| 0 <= i < n implies rejected@[i] == rules[r as int].rejects_snapshot(snapshots@, i) by {
                    assert(order@.contains(i as usize));
                    let w = choose|w: int| 0 <= w < n && order@[w] == i as usize;
                    lemma_position_in_order(c, order@, w);
                    assert(position(snapshots@, i) == w);
                    assert(rejected_sorted@[w] == crate::rule::rejects_at(
                        ts@,
                        rules[r as int].snapshot_period as int,
                        rules[r as int].retained_copies as int,
                        w,
                    ));
                }
            }
            by_rule.push(rejected);
        }
        let mut rejected: Vec<usize> = Vec::new();
        let mut retained: Vec<(usize, Vec<usize>)> = Vec::new();
        let n_rules = self.0.len();
        for i in 0..n
            invariant
                rules == self.rules(),
                n == snapshots@.len(),
                n_rules == rules.len(),
                by_rule@.len() == n_rules,
                forall|q: int| 0 <= q < n_rules ==> (#[trigger] by_rule@[q])@.len() == n,
                forall|q: int, i: int| 0 <= q < n_rules && 0 <= i < n ==>
                    #[trigger] by_rule@[q]@[i] == rules[q].rejects_snapshot(snapshots@, i),
                rejected@ == rejected_upto(rules, snapshots@, i as int),
                retained@.map_values(|e: (usize, Vec<usize>)| (e.0, e.1@)) == retained_upto(rules, snapshots@, i as int),
        {
            let mut keepers: Vec<usize> = Vec::new();
            for r in 0..n_rules
                invariant
                    n == snapshots@.len(),
                    i < n,
                    n_rules == rules.len(),
                    by_rule@.len() == n_rules,
                    forall|q: int| 0 <= q < n_rules ==> (#[trigger] by_rule@[q])@.len() == n,
                    forall|q: int, i: int| 0 <= q < n_rules && 0 <= i < n ==>
                        #[trigger] by_rule@[q]@[i] == rules[q].rejects_snapshot(snapshots@, i),
                    keepers@ == retainers(rules, snapshots@, i as int, r as int),
            {
                if !by_rule[r][i] {
                    keepers.push(r);
                }
            }
            proof {
                lemma_no_retainers(rules, snapshots@, i as int, n_rules as int);
            }
            let ghost before = retained@;
            if keepers.len() == 0 {
                rejected.push(i);
            } else {
                retained.push((i, keepers));
                assert(retained@.map_values(|e: (usize, Vec<usize>)| (e.0, e.1@)) =~= before.map_values(
                    |e: (usize, Vec<usize>)| (e.0, e.1@),
                ).push((i, retainers(rules, snapshots@, i as int, n_rules as int))));
            }
        }
        Judgement { rejected, retained }
    }
}

} // verus!
