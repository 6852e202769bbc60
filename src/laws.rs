//! What holds of every judgement and of every rule's bounded working set.
use vstd::prelude::*;

use crate::policy::{judgement_of, policy_rejects, rejected_upto, retained_upto, retainers, JudgementView, lemma_no_retainers};
use crate::rule::{
    considered, cut, cut_from, rejects_at, taken, taken_count, watermark, RetentionRule,
};
use crate::snapshot::{created_times, comes_before, is_oldest_first, oldest_first, sorted_times, SnapshotMetadata};

verus! {

/// The snapshot indices that a judgement retains, in its order.
pub open spec fn retained_keys(j: JudgementView) -> Seq<usize> {
    keys_of(j.retained)
}

/// The first components of `entries`, in order.
pub open spec fn keys_of(entries: Seq<(usize, Seq<usize>)>) -> Seq<usize> {
    entries.map_values(|e: (usize, Seq<usize>)| e.0)
}

proof fn lemma_rejected_upto(rules: Seq<RetentionRule>, snaps: Seq<SnapshotMetadata>, upto: int)
    requires
        0 <= upto <= usize::MAX + 1,
    ensures
        forall|i: usize| #[trigger] rejected_upto(rules, snaps, upto).contains(i) <==> (i < upto && policy_rejects(rules, snaps, i as int)),
    decreases upto,
{
    if upto > 0 {
        lemma_rejected_upto(rules, snaps, upto - 1);
        let earlier = rejected_upto(rules, snaps, upto - 1);
        if policy_rejects(rules, snaps, upto - 1) {
            assert forall|i: usize| #[trigger] earlier.push((upto - 1) as usize).contains(i) <==> (earlier.contains(i) || i == upto - 1) by {
                if i == upto - 1 {
                    assert(earlier.push((upto - 1) as usize)[earlier.len() as int] == i);
                }
                if earlier.contains(i) {
                    let k = choose|k: int| 0 <= k < earlier.len() && earlier[k] == i;
                    assert(earlier.push((upto - 1) as usize)[k] == i);
                }
                let pushed = earlier.push((upto - 1) as usize);
                if pushed.contains(i) {
                    let k = choose|k: int| 0 <= k <= earlier.len() && #[trigger] pushed[k] == i;
                    if k < earlier.len() {
                        assert(earlier[k] == i);
                    }
                }
            }
        }
    }
}

proof fn lemma_retained_upto(rules: Seq<RetentionRule>, snaps: Seq<SnapshotMetadata>, upto: int)
    requires
        0 <= upto <= usize::MAX + 1,
        rules.len() > 0,
    ensures
        forall|i: usize| #[trigger] keys_of(retained_upto(rules, snaps, upto)).contains(i)
            <==> (i < upto && !policy_rejects(rules, snaps, i as int)),
        forall|k: int| 0 <= k < retained_upto(rules, snaps, upto).len() ==> (#[trigger] retained_upto(rules, snaps, upto)[k]).1.len() > 0,
    decreases upto,
{
    if upto > 0 {
        lemma_retained_upto(rules, snaps, upto - 1);
        let earlier = retained_upto(rules, snaps, upto - 1);
        let ek = keys_of(earlier);
        if !policy_rejects(rules, snaps, upto - 1) {
            lemma_no_retainers(rules, snaps, upto - 1, rules.len() as int);
            let entry = ((upto - 1) as usize, retainers(rules, snaps, upto - 1, rules.len() as int));
            let now_keys = keys_of(earlier.push(entry));
            assert(now_keys =~= ek.push((upto - 1) as usize));
            assert forall|i: usize| #[trigger] now_keys.contains(i) <==> (ek.contains(i) || i == upto - 1) by {
                if i == upto - 1 {
                    assert(now_keys[ek.len() as int] == i);
                }
                if ek.contains(i) {
                    let k = choose|k: int| 0 <= k < ek.len() && ek[k] == i;
                    assert(now_keys[k] == i);
                }
                if now_keys.contains(i) {
                    let k = choose|k: int| 0 <= k <= ek.len() && #[trigger] now_keys[k] == i;
                    if k < ek.len() {
                        assert(ek[k] == i);
                    }
                }
            }
        }
    }
}

/// Every snapshot of the listing lands in exactly one of the two parts of
/// its judgement, nothing else lands in either, and every retained snapshot
/// has at least one rule that wants it.
pub proof fn lemma_partition_total(rules: Seq<RetentionRule>, snaps: Seq<SnapshotMetadata>)
    requires
        rules.len() > 0,
        snaps.len() <= usize::MAX,
    ensures
        forall|i: usize|
            (judgement_of(rules, snaps).rejected.contains(i) || retained_keys(judgement_of(rules, snaps)).contains(i))
                <==> i < snaps.len(),
        forall|i: usize|
            !(judgement_of(rules, snaps).rejected.contains(i) && retained_keys(judgement_of(rules, snaps)).contains(i)),
        forall|k: int|
            0 <= k < judgement_of(rules, snaps).retained.len() ==> (#[trigger] judgement_of(rules, snaps).retained[k]).1.len() > 0,
{
    lemma_rejected_upto(rules, snaps, snaps.len() as int);
    lemma_retained_upto(rules, snaps, snaps.len() as int);
}

/// A snapshot is rejected by a policy exactly when every one of its rules,
/// each on its own, rejects it.
pub proof fn lemma_rejected_iff_every_rule_rejects(rules: Seq<RetentionRule>, snaps: Seq<SnapshotMetadata>, i: usize)
    requires
        i < snaps.len() <= usize::MAX,
    ensures
        judgement_of(rules, snaps).rejected.contains(i) <==> (forall|r: int|
            0 <= r < rules.len() ==> #[trigger] rules[r].rejects_snapshot(snaps, i as int)),
{
    lemma_rejected_upto(rules, snaps, snaps.len() as int);
}

proof fn lemma_same_rejections(r1: Seq<RetentionRule>, r2: Seq<RetentionRule>, snaps: Seq<SnapshotMetadata>, upto: int)
    requires
        forall|i: int| policy_rejects(r1, snaps, i) == policy_rejects(r2, snaps, i),
    ensures
        rejected_upto(r1, snaps, upto) == rejected_upto(r2, snaps, upto),
    decreases upto,
{
    if upto > 0 {
        lemma_same_rejections(r1, r2, snaps, upto - 1);
    }
}

/// The order in which a policy lists its rules does not change which
/// snapshots it rejects: two policies with the same rules reject the same.
pub proof fn lemma_rule_order_irrelevant(r1: Seq<RetentionRule>, r2: Seq<RetentionRule>, snaps: Seq<SnapshotMetadata>)
    requires
        r1.to_set() == r2.to_set(),
    ensures
        judgement_of(r1, snaps).rejected == judgement_of(r2, snaps).rejected,
{
    assert forall|i: int| policy_rejects(r1, snaps, i) == policy_rejects(r2, snaps, i) by {
        if policy_rejects(r1, snaps, i) {
            assert forall|r: int| 0 <= r < r2.len() implies #[trigger] r2[r].rejects_snapshot(snaps, i) by {
                assert(r2.to_set().contains(r2[r]));
                assert(r1.to_set().contains(r2[r]));
                let q = choose|q: int| 0 <= q < r1.len() && r1[q] == r2[r];
                assert(r1[q].rejects_snapshot(snaps, i));
            }
        }
        if policy_rejects(r2, snaps, i) {
            assert forall|r: int| 0 <= r < r1.len() implies #[trigger] r1[r].rejects_snapshot(snaps, i) by {
                assert(r1.to_set().contains(r1[r]));
                assert(r2.to_set().contains(r1[r]));
                let q = choose|q: int| 0 <= q < r2.len() && r2[q] == r1[r];
                assert(r2[q].rejects_snapshot(snaps, i));
            }
        }
    }
    lemma_same_rejections(r1, r2, snaps, snaps.len() as int);
}

/// The rules, by value, that the rule indices `indices` of `rules` stand for.
pub open spec fn rule_values(rules: Seq<RetentionRule>, indices: Seq<usize>) -> Set<RetentionRule> {
    indices.map_values(|q: usize| rules[q as int]).to_set()
}

proof fn lemma_retainers_contents(rules: Seq<RetentionRule>, snaps: Seq<SnapshotMetadata>, i: int, upto: int)
    requires
        0 <= upto <= rules.len(),
        rules.len() <= usize::MAX,
    ensures
        forall|q: usize| #[trigger] retainers(rules, snaps, i, upto).contains(q) <==> (q < upto && !rules[q as int].rejects_snapshot(
            snaps,
            i,
        )),
    decreases upto,
{
    if upto > 0 {
        lemma_retainers_contents(rules, snaps, i, upto - 1);
        let earlier = retainers(rules, snaps, i, upto - 1);
        if !rules[upto - 1].rejects_snapshot(snaps, i) {
            let pushed = earlier.push((upto - 1) as usize);
            assert forall|q: usize| #[trigger] pushed.contains(q) <==> (earlier.contains(q) || q == upto - 1) by {
                if q == upto - 1 {
                    assert(pushed[earlier.len() as int] == q);
                }
                if earlier.contains(q) {
                    let k = choose|k: int| 0 <= k < earlier.len() && earlier[k] == q;
                    assert(pushed[k] == q);
                }
                if pushed.contains(q) {
                    let k = choose|k: int| 0 <= k <= earlier.len() && #[trigger] pushed[k] == q;
                    if k < earlier.len() {
                        assert(earlier[k] == q);
                    }
                }
            }
        }
    }
}

/// The rules, by value, that still want snapshot `i` are those of the
/// policy's rule set that do not reject it.
proof fn lemma_retainer_values(rules: Seq<RetentionRule>, snaps: Seq<SnapshotMetadata>, i: int)
    requires
        rules.len() <= usize::MAX,
    ensures
        rule_values(rules, retainers(rules, snaps, i, rules.len() as int)) == rules.to_set().filter(
            |r: RetentionRule| !r.rejects_snapshot(snaps, i),
        ),
{
    let ret = retainers(rules, snaps, i, rules.len() as int);
    lemma_retainers_contents(rules, snaps, i, rules.len() as int);
    let lhs = rule_values(rules, ret);
    let rhs = rules.to_set().filter(|r: RetentionRule| !r.rejects_snapshot(snaps, i));
    let mapped = ret.map_values(|q: usize| rules[q as int]);
    assert forall|x: RetentionRule| lhs.contains(x) implies rhs.contains(x) by {
        let k = choose|k: int| 0 <= k < mapped.len() && mapped[k] == x;
        assert(ret.contains(ret[k]));
        assert(rules[ret[k] as int] == x);
        assert(rules.contains(x));
    }
    assert forall|x: RetentionRule| rhs.contains(x) implies lhs.contains(x) by {
        assert(rules.contains(x));
        let q = choose|q: int| 0 <= q < rules.len() && rules[q] == x;
        assert(ret.contains(q as usize));
        let k = choose|k: int| 0 <= k < ret.len() && ret[k] == q as usize;
        assert(mapped[k] == x);
        assert(mapped.contains(x));
    }
    assert(lhs =~= rhs);
}

proof fn lemma_same_retained(r1: Seq<RetentionRule>, r2: Seq<RetentionRule>, snaps: Seq<SnapshotMetadata>, upto: int)
    requires
        forall|i: int| policy_rejects(r1, snaps, i) == policy_rejects(r2, snaps, i),
        forall|i: int|
            rule_values(r1, #[trigger] retainers(r1, snaps, i, r1.len() as int)) == rule_values(
                r2,
                retainers(r2, snaps, i, r2.len() as int),
            ),
    ensures
        retained_upto(r1, snaps, upto).len() == retained_upto(r2, snaps, upto).len(),
        forall|k: int|
            0 <= k < retained_upto(r1, snaps, upto).len() ==> (#[trigger] retained_upto(r1, snaps, upto)[k]).0 == retained_upto(
                r2,
                snaps,
                upto,
            )[k].0 && rule_values(r1, retained_upto(r1, snaps, upto)[k].1) == rule_values(
                r2,
                retained_upto(r2, snaps, upto)[k].1,
            ),
    decreases upto,
{
    if upto > 0 {
        lemma_same_retained(r1, r2, snaps, upto - 1);
        assert(rule_values(r1, retainers(r1, snaps, upto - 1, r1.len() as int)) == rule_values(
            r2,
            retainers(r2, snaps, upto - 1, r2.len() as int),
        ));
    }
}

/// Listing the same rules in another order changes nothing in a judgement:
/// the same snapshots are rejected, the same are retained, in the same
/// order, and each retained snapshot is wanted by the same rules.
pub proof fn lemma_rule_order_keeps_judgement(r1: Seq<RetentionRule>, r2: Seq<RetentionRule>, snaps: Seq<SnapshotMetadata>)
    requires
        r1.to_set() == r2.to_set(),
        r1.len() <= usize::MAX,
        r2.len() <= usize::MAX,
    ensures
        judgement_of(r1, snaps).rejected == judgement_of(r2, snaps).rejected,
        judgement_of(r1, snaps).retained.len() == judgement_of(r2, snaps).retained.len(),
        forall|k: int|
            0 <= k < judgement_of(r1, snaps).retained.len() ==> (#[trigger] judgement_of(r1, snaps).retained[k]).0
                == judgement_of(r2, snaps).retained[k].0 && rule_values(r1, judgement_of(r1, snaps).retained[k].1)
                == rule_values(r2, judgement_of(r2, snaps).retained[k].1),
{
    lemma_rule_order_irrelevant(r1, r2, snaps);
    assert forall|i: int| policy_rejects(r1, snaps, i) == policy_rejects(r2, snaps, i) by {
        if policy_rejects(r1, snaps, i) {
            assert forall|r: int| 0 <= r < r2.len() implies #[trigger] r2[r].rejects_snapshot(snaps, i) by {
                assert(r2.to_set().contains(r2[r]));
                let q = choose|q: int| 0 <= q < r1.len() && r1[q] == r2[r];
                assert(r1[q].rejects_snapshot(snaps, i));
            }
        }
        if policy_rejects(r2, snaps, i) {
            assert forall|r: int| 0 <= r < r1.len() implies #[trigger] r1[r].rejects_snapshot(snaps, i) by {
                assert(r1.to_set().contains(r1[r]));
                let q = choose|q: int| 0 <= q < r2.len() && r2[q] == r1[r];
                assert(r2[q].rejects_snapshot(snaps, i));
            }
        }
    }
    assert forall|i: int|
        rule_values(r1, #[trigger] retainers(r1, snaps, i, r1.len() as int)) == rule_values(
            r2,
            retainers(r2, snaps, i, r2.len() as int),
        ) by {
        lemma_retainer_values(r1, snaps, i);
        lemma_retainer_values(r2, snaps, i);
    }
    lemma_same_retained(r1, r2, snaps, snaps.len() as int);
}

proof fn lemma_taken_count_bound(ts: Seq<i64>, period: int, from: int, i: int)
    requires
        from <= i,
    ensures
        taken_count(ts, period, from, i) <= i - from,
    decreases i - from,
{
    if i > from {
        lemma_taken_count_bound(ts, period, from, i - 1);
    }
}

proof fn lemma_cut_from_fits(ts: Seq<i64>, period: int, copies: int, n: int)
    requires
        0 <= n < ts.len(),
        copies >= 1,
    ensures
        n <= cut_from(ts, period, copies, n) < ts.len(),
        considered(ts, period, cut_from(ts, period, copies, n)) <= copies,
    decreases ts.len() - n,
{
    if considered(ts, period, n) > copies {
        lemma_taken_count_bound(ts, period, n, ts.len() as int);
        lemma_cut_from_fits(ts, period, copies, n + 1);
    }
}

/// How many of the positions `0..upto` of the oldest-first times `ts` the
/// rule `(period, copies)` keeps.
pub open spec fn kept_count(ts: Seq<i64>, period: int, copies: int, upto: int) -> nat
    decreases upto,
{
    if upto <= 0 {
        0
    } else {
        kept_count(ts, period, copies, upto - 1) + if rejects_at(ts, period, copies, upto - 1) {
            0nat
        } else {
            1nat
        }
    }
}

proof fn lemma_cut_from_nonneg(ts: Seq<i64>, period: int, copies: int, n: int)
    requires
        0 <= n,
    ensures
        cut_from(ts, period, copies, n) >= 0,
    decreases ts.len() - n,
{
    if n < ts.len() && considered(ts, period, n) > copies {
        lemma_cut_from_nonneg(ts, period, copies, n + 1);
    }
}

proof fn lemma_kept_are_taken(ts: Seq<i64>, period: int, copies: int, upto: int)
    requires
        0 <= upto,
    ensures
        kept_count(ts, period, copies, upto) == if upto <= cut(ts, period, copies) {
            0
        } else {
            taken_count(ts, period, cut(ts, period, copies), upto)
        },
    decreases upto,
{
    lemma_cut_from_nonneg(ts, period, copies, 0);
    let c = cut(ts, period, copies);
    if upto > 0 {
        lemma_kept_are_taken(ts, period, copies, upto - 1);
        if upto - 1 >= c {
            assert(rejects_at(ts, period, copies, upto - 1) == !taken(ts, period, c, upto - 1));
            assert(taken_count(ts, period, c, upto) == taken_count(ts, period, c, upto - 1) + if taken(
                ts,
                period,
                c,
                upto - 1,
            ) {
                1nat
            } else {
                0nat
            });
            if upto - 1 == c {
                assert(taken_count(ts, period, c, c) == 0);
            }
        } else {
            assert(rejects_at(ts, period, copies, upto - 1));
        }
    }
}

/// A rule that keeps at least one copy never has more than `copies`
/// period-spaced representatives in its bounded working set, and so never
/// keeps more than `copies` snapshots; and when the whole oldest-first
/// listing has no more than `copies` representatives, none of it is cut.
pub proof fn lemma_bounded_capacity(ts: Seq<i64>, period: int, copies: int)
    requires
        copies >= 1,
    ensures
        considered(ts, period, cut(ts, period, copies)) <= copies,
        kept_count(ts, period, copies, ts.len() as int) <= copies,
        considered(ts, period, 0) <= copies ==> cut(ts, period, copies) == 0,
{
    if ts.len() > 0 {
        lemma_cut_from_fits(ts, period, copies, 0);
    }
    lemma_kept_are_taken(ts, period, copies, ts.len() as int);
}

proof fn lemma_spaced_all_taken(ts: Seq<i64>, period: int, i: int)
    requires
        0 <= i <= ts.len(),
        ts.len() > 0 ==> ts[0] >= 0,
        forall|j: int| 0 <= j < ts.len() - 1 ==> #[trigger] ts[j + 1] >= ts[j] + period,
        period >= 0,
    ensures
        forall|j: int| 0 <= j < i ==> #[trigger] taken(ts, period, 0, j),
        taken_count(ts, period, 0, i) == i,
        i > 0 ==> watermark(ts, period, 0, i) == ts[i - 1] + period,
    decreases i,
{
    if i > 0 {
        lemma_spaced_all_taken(ts, period, i - 1);
        if i > 1 {
            assert(ts[i - 1] >= ts[i - 2] + period);
        }
        assert(taken(ts, period, 0, i - 1));
    }
}

/// Snapshots that stand at least one period apart are all kept by a rule
/// that may keep as many copies as there are snapshots, however long the
/// gaps between them: no snapshot pays for a gap.
pub proof fn lemma_spaced_snapshots_kept(rule: RetentionRule, snaps: Seq<SnapshotMetadata>)
    requires
        snaps.len() <= usize::MAX,
        rule.retained_copies >= snaps.len(),
        forall|i: int| 0 <= i < snaps.len() ==> #[trigger] snaps[i].created >= 0,
        forall|i: int, j: int|
            0 <= i < snaps.len() && 0 <= j < snaps.len() && i != j ==> #[trigger] snaps[i].created - #[trigger] snaps[j].created
                >= rule.snapshot_period || snaps[j].created - snaps[i].created >= rule.snapshot_period,
    ensures
        forall|i: int| 0 <= i < snaps.len() ==> !#[trigger] rule.rejects_snapshot(snaps, i),
{
    let c = created_times(snaps);
    let order = oldest_first(c);
    let ts = sorted_times(snaps);
    let p = rule.snapshot_period as int;
    let k = rule.retained_copies as int;
    if snaps.len() > 0 {
        crate::snapshot::lemma_oldest_first_exists(c);
        assert(is_oldest_first(c, order));
        assert forall|j: int| 0 <= j < ts.len() - 1 implies #[trigger] ts[j + 1] >= ts[j] + p by {
            let a = order[j] as int;
            let b = order[j + 1] as int;
            assert(comes_before(c, a, b));
            assert(snaps[a].created - snaps[b].created >= p || snaps[b].created - snaps[a].created >= p);
        }
        assert(ts[0] >= 0) by {
            assert(snaps[order[0] as int].created >= 0);
        }
        lemma_spaced_all_taken(ts, p, ts.len() as int);
        assert(cut(ts, p, k) == 0);
        assert forall|i: int| 0 <= i < snaps.len() implies !#[trigger] rule.rejects_snapshot(snaps, i) by {
            assert(order.contains(i as usize));
            let w = choose|w: int| 0 <= w < order.len() && order[w] == i as usize;
            crate::snapshot::lemma_position_in_order(c, order, w);
            assert(taken(ts, p, 0, w));
        }
    }
}

/// A policy with one rule that keeps every snapshot of a listing whose
/// snapshots stand at least that rule's period apart rejects none of them.
pub proof fn lemma_policy_keeps_spaced_snapshots(rules: Seq<RetentionRule>, snaps: Seq<SnapshotMetadata>, r: int)
    requires
        0 <= r < rules.len(),
        snaps.len() <= usize::MAX,
        rules[r].retained_copies >= snaps.len(),
        forall|i: int| 0 <= i < snaps.len() ==> #[trigger] snaps[i].created >= 0,
        forall|i: int, j: int|
            0 <= i < snaps.len() && 0 <= j < snaps.len() && i != j ==> #[trigger] snaps[i].created - #[trigger] snaps[j].created
                >= rules[r].snapshot_period || snaps[j].created - snaps[i].created >= rules[r].snapshot_period,
    ensures
        judgement_of(rules, snaps).rejected.len() == 0,
{
    lemma_spaced_snapshots_kept(rules[r], snaps);
    lemma_rejected_upto(rules, snaps, snaps.len() as int);
    let rejected = judgement_of(rules, snaps).rejected;
    if rejected.len() > 0 {
        let i = rejected[0];
        assert(rejected.contains(i));
        assert(!rules[r].rejects_snapshot(snaps, i as int));
    }
}

} // verus!
