//! Snapshot metadata and the oldest-first order in which rules sweep it.
use vstd::prelude::*;

verus! {

/// One point-in-time copy of a volume.
///
/// `created` is the creation time in whole seconds since the Unix epoch (UTC),
/// `used` the space the snapshot refers to, in bytes.
#[derive(Clone, Debug, PartialEq, Eq, Hash)]
pub struct SnapshotMetadata {
    pub name: String,
    pub created: i64,
    pub used: u128,
}

impl SnapshotMetadata {
    /// A copy of this snapshot's metadata.
    pub fn duplicate(&self) -> (copy: SnapshotMetadata)
        ensures
            copy == *self,
    {
        SnapshotMetadata { name: self.name.clone(), created: self.created, used: self.used }
    }
}

/// The creation times of `snaps`, in the order given.
pub open spec fn created_times(snaps: Seq<SnapshotMetadata>) -> Seq<i64> {
    snaps.map_values(|s: SnapshotMetadata| s.created)
}

/// Snapshot `a` comes before snapshot `b` when it was created earlier; of two
/// created in the same second, the one listed first comes first.
pub open spec fn comes_before(c: Seq<i64>, a: int, b: int) -> bool {
    c[a] < c[b] || (c[a] == c[b] && a < b)
}

/// `order` lists every index of `c` below `n` exactly once, oldest first.
pub open spec fn orders_prefix(c: Seq<i64>, order: Seq<usize>, n: int) -> bool {
    &&& order.len() == n
    &&& forall|j: int| 0 <= j < order.len() ==> #[trigger] order[j] < n
    &&& forall|j1: int, j2: int|
        0 <= j1 < j2 < order.len() ==> comes_before(c, #[trigger] order[j1] as int, #[trigger] order[j2] as int)
    &&& forall|i: int| 0 <= i < n ==> #[trigger] order.contains(i as usize)
}

/// `order` lists every index of `c` exactly once, oldest first.
pub open spec fn is_oldest_first(c: Seq<i64>, order: Seq<usize>) -> bool {
    orders_prefix(c, order, c.len() as int)
}

/// The indices of `c`, oldest first (a stable sort by creation time).
pub open spec fn oldest_first(c: Seq<i64>) -> Seq<usize> {
    choose|order: Seq<usize>| is_oldest_first(c, order)
}

/// The creation times of `snaps`, oldest first.
pub open spec fn sorted_times(snaps: Seq<SnapshotMetadata>) -> Seq<i64> {
    let c = created_times(snaps);
    oldest_first(c).map_values(|i: usize| c[i as int])
}

proof fn lemma_orders_agree_upto(c: Seq<i64>, o1: Seq<usize>, o2: Seq<usize>, n: int)
    requires
        is_oldest_first(c, o1),
        is_oldest_first(c, o2),
        0 <= n <= c.len(),
    ensures
        forall|j: int| 0 <= j < n ==> o1[j] == o2[j],
    decreases n,
{
    if n > 0 {
        lemma_orders_agree_upto(c, o1, o2, n - 1);
        let j = n - 1;
        let a = o1[j];
        let b = o2[j];
        if a != b {
            assert(o2.contains((a as int) as usize));
            let m2 = choose|m: int| 0 <= m < o2.len() && o2[m] == a;
            assert(o1.contains((b as int) as usize));
            let m1 = choose|m: int| 0 <= m < o1.len() && o1[m] == b;
            if m1 < j {
                assert(o1[m1] == o2[m1]);
                assert(comes_before(c, o2[m1] as int, o2[j] as int));
            }
            if m2 < j {
                assert(o1[m2] == o2[m2]);
                assert(comes_before(c, o1[m2] as int, o1[j] as int));
            }
            assert(comes_before(c, a as int, o1[m1] as int));
            assert(comes_before(c, b as int, o2[m2] as int));
        }
    }
}

/// There is one oldest-first order of a sequence of creation times.
pub proof fn lemma_oldest_first_unique(c: Seq<i64>, order: Seq<usize>)
    requires
        is_oldest_first(c, order),
    ensures
        oldest_first(c) == order,
{
    let o = oldest_first(c);
    assert(is_oldest_first(c, o));
    lemma_orders_agree_upto(c, o, order, c.len() as int);
    assert(o =~= order);
}

/// Each index appears once in an oldest-first order: its position there is
/// the one at which it stands.
pub proof fn lemma_position_in_order(c: Seq<i64>, order: Seq<usize>, j: int)
    requires
        is_oldest_first(c, order),
        0 <= j < order.len(),
    ensures
        order.index_of(order[j]) == j,
{
    let k = order.index_of(order[j]);
    assert(order[j] == order[j]);
    if k < j {
        assert(comes_before(c, order[k] as int, order[j] as int));
    } else if k > j {
        assert(comes_before(c, order[j] as int, order[k] as int));
    }
}

/// Inserting index `i` at a place where everything before it is older and
/// everything after it newer extends an oldest-first order of the indices
/// below `i` to one of the indices up to `i`.
proof fn lemma_insert_step(c: Seq<i64>, order: Seq<usize>, i: int, pos: int)
    requires
        orders_prefix(c, order, i),
        0 <= i < c.len(),
        i < usize::MAX,
        0 <= pos <= order.len(),
        forall|j: int| 0 <= j < pos ==> c[#[trigger] order[j] as int] <= c[i],
        pos < order.len() ==> c[order[pos] as int] > c[i],
    ensures
        orders_prefix(c, order.insert(pos, i as usize), i + 1),
{
    let new_order = order.insert(pos, i as usize);
    order.insert_ensures(pos, i as usize);
    assert forall|j: int| pos <= j < i implies comes_before(c, i, #[trigger] order[j] as int) by {
        if j > pos {
            assert(comes_before(c, order[pos] as int, order[j] as int));
        }
    }
    assert forall|k: int| 0 <= k < i + 1 implies #[trigger] new_order.contains(k as usize) by {
        if k == i {
            assert(new_order[pos] == k);
        } else {
            assert(order.contains(k as usize));
            let m = choose|m: int| 0 <= m < order.len() && order[m] == k as usize;
            if m < pos {
                assert(new_order[m] == k);
            } else {
                assert(new_order[m + 1] == k);
            }
        }
    }
    assert forall|j1: int, j2: int|
        0 <= j1 < j2 < i + 1 implies comes_before(c, #[trigger] new_order[j1] as int, #[trigger] new_order[j2] as int) by {
        if j1 < pos && j2 < pos {
        } else if j1 < pos && j2 == pos {
        } else if j1 < pos {
            assert(new_order[j2] == order[j2 - 1]);
        } else if j1 == pos {
            assert(new_order[j2] == order[j2 - 1]);
        } else {
            assert(new_order[j1] == order[j1 - 1]);
            assert(new_order[j2] == order[j2 - 1]);
        }
    }
}

/// In an oldest-first order of the indices below `i` there is a place for
/// index `i`: after every index created no later, before every later one.
proof fn lemma_insert_place(c: Seq<i64>, order: Seq<usize>, i: int, from: int) -> (pos: int)
    requires
        orders_prefix(c, order, i),
        0 <= i < c.len(),
        0 <= from <= order.len(),
        forall|j: int| 0 <= j < from ==> c[#[trigger] order[j] as int] <= c[i],
    ensures
        0 <= pos <= order.len(),
        forall|j: int| 0 <= j < pos ==> c[#[trigger] order[j] as int] <= c[i],
        pos < order.len() ==> c[order[pos] as int] > c[i],
    decreases order.len() - from,
{
    if from == order.len() || c[order[from] as int] > c[i] {
        from
    } else {
        lemma_insert_place(c, order, i, from + 1)
    }
}

proof fn lemma_prefix_order_exists(c: Seq<i64>, n: int) -> (order: Seq<usize>)
    requires
        0 <= n <= c.len(),
        c.len() <= usize::MAX,
    ensures
        orders_prefix(c, order, n),
    decreases n,
{
    if n == 0 {
        Seq::empty()
    } else {
        let earlier = lemma_prefix_order_exists(c, n - 1);
        let pos = lemma_insert_place(c, earlier, n - 1, 0);
        lemma_insert_step(c, earlier, n - 1, pos);
        earlier.insert(pos, (n - 1) as usize)
    }
}

/// Every sequence of creation times that a slice can hold has an
/// oldest-first order, and `oldest_first` is it.
pub proof fn lemma_oldest_first_exists(c: Seq<i64>)
    requires
        c.len() <= usize::MAX,
    ensures
        is_oldest_first(c, oldest_first(c)),
{
    let order = lemma_prefix_order_exists(c, c.len() as int);
    lemma_oldest_first_unique(c, order);
}

/// The indices of `snapshots`, oldest first; snapshots created in the same
/// second keep the order in which they are listed.
pub fn oldest_first_order(snapshots: &[SnapshotMetadata]) -> (order: Vec<usize>)
    ensures
        order@ == oldest_first(created_times(snapshots@)),
        is_oldest_first(created_times(snapshots@), order@),
{
    let ghost c = created_times(snapshots@);
    let mut order: Vec<usize> = Vec::new();
    let n = snapshots.len();
    for i in 0..n
        invariant
            n == snapshots@.len(),
            c == created_times(snapshots@),
            orders_prefix(c, order@, i as int),
    {
        let t = snapshots[i].created;
        let mut pos: usize = 0;
        while pos < order.len() && snapshots[order[pos]].created <= t
            invariant
                n == snapshots@.len(),
                c == created_times(snapshots@),
                orders_prefix(c, order@, i as int),
                i < n,
                t == c[i as int],
                pos <= order@.len(),
                forall|j: int| 0 <= j < pos ==> c[#[trigger] order@[j] as int] <= c[i as int],
            decreases order@.len() - pos,
        {
            pos = pos + 1;
        }
        proof {
            lemma_insert_step(c, order@, i as int, pos as int);
        }
        order.insert(pos, i);
    }
    proof {
        lemma_oldest_first_unique(c, order@);
    }
    order
}

} // verus!
