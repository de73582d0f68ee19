//! The orders in which a batch's DAGs are planned.

use vstd::prelude::*;

use crate::dag_sched::metrics::DagMetrics;

verus! {

/// In which order DAGs are planned.
#[derive(Debug, Clone, Copy, PartialEq, Eq, Structural)]
pub enum PlanOrder {
    /// Ascending slack `D - L`.
    AscendingLaxity,
    /// Descending density `C / D`.
    DescendingDensity,
}

/// A DAG with its place in the batch.
pub type Entry = (usize, DagMetrics);

impl PlanOrder {
    /// Whether `a` has to be planned before `b`. Densities are compared exactly, by
    /// cross-multiplication.
    pub open spec fn before(self, a: DagMetrics, b: DagMetrics) -> bool {
        match self {
            PlanOrder::AscendingLaxity => a.relative_deadline - a.critical_path
                < b.relative_deadline - b.critical_path,
            PlanOrder::DescendingDensity => a.volume * b.relative_deadline > b.volume
                * a.relative_deadline,
        }
    }

    fn is_before(&self, a: &DagMetrics, b: &DagMetrics) -> (r: bool)
        ensures
            r == self.before(*a, *b),
    {
        match self {
            PlanOrder::AscendingLaxity => {
                (a.relative_deadline as i128 - a.critical_path as i128) < (
                b.relative_deadline as i128 - b.critical_path as i128)
            },
            PlanOrder::DescendingDensity => {
                proof {
                    lemma_u64_product(a.volume, b.relative_deadline);
                    lemma_u64_product(b.volume, a.relative_deadline);
                }
                a.volume as u128 * b.relative_deadline as u128 > b.volume as u128
                    * a.relative_deadline as u128
            },
        }
    }
}

/// A product of two `u64` fits into a `u128`.
pub proof fn lemma_u64_product(a: u64, b: u64)
    ensures
        0 <= a * b <= u128::MAX,
{
    assert(0 <= a * b <= 0xFFFF_FFFF_FFFF_FFFF * 0xFFFF_FFFF_FFFF_FFFF) by (nonlinear_arith)
        requires
            0 <= a <= 0xFFFF_FFFF_FFFF_FFFF,
            0 <= b <= 0xFFFF_FFFF_FFFF_FFFF,
    ;
}

/// `item` put into an ordered list, behind all that need not come after it.
pub open spec fn inserted(order: PlanOrder, list: Seq<Entry>, item: Entry) -> Seq<Entry>
    decreases list.len(),
{
    if list.len() == 0 || !order.before(item.1, list.last().1) {
        list.push(item)
    } else {
        inserted(order, list.drop_last(), item).push(list.last())
    }
}

/// A list in planning order; those that need not be kept apart stay as they were.
pub open spec fn in_order(order: PlanOrder, list: Seq<Entry>) -> Seq<Entry>
    decreases list.len(),
{
    if list.len() == 0 {
        list
    } else {
        inserted(order, in_order(order, list.drop_last()), list.last())
    }
}

fn insert(order: PlanOrder, list: &mut Vec<Entry>, item: Entry)
    ensures
        final(list)@ == inserted(order, old(list)@, item),
{
    let mut at: usize = list.len();
    let ghost before = list@;
    assert(before.take(at as int) =~= before);
    assert(inserted(order, before, item) =~= inserted(order, before.take(at as int), item)
        + before.skip(at as int));
    while at > 0 && order.is_before(&item.1, &list[at - 1].1)
        invariant
            at <= list@.len(),
            before == list@,
            before == old(list)@,
            inserted(order, before, item) == inserted(order, before.take(at as int), item)
                + before.skip(at as int),
        ensures
            at <= list@.len(),
            before == list@,
            inserted(order, before, item) == inserted(order, before.take(at as int), item)
                + before.skip(at as int),
            at == 0 || !order.before(item.1, before[at - 1].1),
        decreases at,
    {
        proof {
            let shorter = before.take(at as int);
            assert(shorter.drop_last() =~= before.take(at - 1));
            assert(inserted(order, shorter, item) + before.skip(at as int) =~= inserted(
                order,
                before.take(at - 1),
                item,
            ) + before.skip(at - 1));
        }
        at = at - 1;
    }
    list.insert(at, item);
    assert(list@ =~= before.take(at as int).push(item) + before.skip(at as int));
}

/// Puts a list into planning order.
pub fn sort(order: PlanOrder, list: &Vec<Entry>) -> (sorted: Vec<Entry>)
    ensures
        sorted@ == in_order(order, list@),
{
    let mut sorted: Vec<Entry> = Vec::new();
    let mut i: usize = 0;
    while i < list.len()
        invariant
            i <= list@.len(),
            sorted@ == in_order(order, list@.take(i as int)),
        decreases list@.len() - i,
    {
        assert(list@.take(i + 1).drop_last() =~= list@.take(i as int));
        insert(order, &mut sorted, list[i]);
        i = i + 1;
    }
    assert(list@.take(i as int) =~= list@);
    sorted
}

proof fn lemma_inserted_multiset(order: PlanOrder, list: Seq<Entry>, item: Entry)
    ensures
        inserted(order, list, item).to_multiset() == list.to_multiset().insert(item),
        inserted(order, list, item).len() == list.len() + 1,
    decreases list.len(),
{
    broadcast use vstd::seq_lib::group_to_multiset_ensures;

    if list.len() == 0 || !order.before(item.1, list.last().1) {
    } else {
        lemma_inserted_multiset(order, list.drop_last(), item);
        assert(list =~= list.drop_last().push(list.last()));
        assert(inserted(order, list, item).to_multiset() =~= list.to_multiset().insert(item));
    }
}

/// Ordering a list neither adds nor drops a DAG.
pub proof fn lemma_in_order_keeps_all(order: PlanOrder, list: Seq<Entry>)
    ensures
        in_order(order, list).to_multiset() == list.to_multiset(),
        in_order(order, list).len() == list.len(),
    decreases list.len(),
{
    broadcast use vstd::seq_lib::group_to_multiset_ensures;

    if list.len() > 0 {
        lemma_in_order_keeps_all(order, list.drop_last());
        lemma_inserted_multiset(order, in_order(order, list.drop_last()), list.last());
        assert(list =~= list.drop_last().push(list.last()));
    }
}

/// Two DAGs of which neither, or only the first, has to come first.
pub open spec fn no_later(order: PlanOrder, a: DagMetrics, b: DagMetrics) -> bool {
    !order.before(b, a)
}

/// All entries have a positive deadline, so that densities can be compared.
pub open spec fn positive_deadlines(list: Seq<Entry>) -> bool {
    forall|i: int| 0 <= i < list.len() ==> (#[trigger] list[i]).1.relative_deadline > 0
}

proof fn lemma_no_later_transitive(order: PlanOrder, a: DagMetrics, b: DagMetrics, c: DagMetrics)
    requires
        no_later(order, a, b),
        no_later(order, b, c),
        b.relative_deadline > 0,
    ensures
        no_later(order, a, c),
{
    if order == PlanOrder::DescendingDensity {
        let (av, ad) = (a.volume as int, a.relative_deadline as int);
        let (bv, bd) = (b.volume as int, b.relative_deadline as int);
        let (cv, cd) = (c.volume as int, c.relative_deadline as int);
        assert(cv * ad <= av * cd) by (nonlinear_arith)
            requires
                bv * ad <= av * bd,
                cv * bd <= bv * cd,
                bd > 0,
                av >= 0,
                ad >= 0,
                bv >= 0,
                cv >= 0,
                cd >= 0,
        {
            assert((cv * bd) * ad <= (bv * cd) * ad);
            assert((bv * ad) * cd <= (av * bd) * cd);
            assert((cv * ad) * bd <= (av * cd) * bd);
        }
    }
}

/// No entry stands behind one that has to come after it, and entries that need not
/// be kept apart stand in the order of their places in the batch.
pub open spec fn is_in_order(order: PlanOrder, list: Seq<Entry>) -> bool {
    forall|i: int, j: int|
        #![trigger list[i], list[j]]
        0 <= i < j < list.len() ==> no_later(order, list[i].1, list[j].1) && (no_later(
            order,
            list[j].1,
            list[i].1,
        ) ==> list[i].0 < list[j].0)
}

proof fn lemma_inserted_in_order(order: PlanOrder, list: Seq<Entry>, item: Entry)
    requires
        is_in_order(order, list),
        positive_deadlines(list),
        item.1.relative_deadline > 0,
        forall|i: int| 0 <= i < list.len() ==> (#[trigger] list[i]).0 < item.0,
    ensures
        is_in_order(order, inserted(order, list, item)),
        positive_deadlines(inserted(order, list, item)),
        forall|i: int|
            0 <= i < inserted(order, list, item).len() ==> #[trigger] inserted(
                order,
                list,
                item,
            )[i] == item || list.contains(inserted(order, list, item)[i]),
    decreases list.len(),
{
    let result = inserted(order, list, item);
    if list.len() == 0 || !order.before(item.1, list.last().1) {
        assert forall|i: int, j: int|
            #![trigger result[i], result[j]]
            0 <= i < j < result.len() implies no_later(order, result[i].1, result[j].1) && (
        no_later(order, result[j].1, result[i].1) ==> result[i].0 < result[j].0) by {
            if j == list.len() {
                let last = list.last();
                assert(last == list[list.len() - 1]);
                assert(no_later(order, last.1, item.1));
                if i < list.len() - 1 {
                    assert(no_later(order, list[i].1, list[list.len() - 1].1));
                    lemma_no_later_transitive(order, list[i].1, last.1, item.1);
                }
            } else {
                assert(result[i] == list[i] && result[j] == list[j]);
            }
        }
        assert forall|i: int| 0 <= i < result.len() implies #[trigger] result[i] == item
            || list.contains(result[i]) by {
            if i < list.len() {
                assert(list[i] == result[i]);
            }
        }
        assert forall|i: int| 0 <= i < result.len() implies (
        #[trigger] result[i]).1.relative_deadline > 0 by {
            if i < list.len() {
                assert(list[i] == result[i]);
            }
        }
    } else {
        let rest = list.drop_last();
        let last = list.last();
        assert forall|i: int, j: int|
            #![trigger rest[i], rest[j]]
            0 <= i < j < rest.len() implies no_later(order, rest[i].1, rest[j].1) && (no_later(
            order,
            rest[j].1,
            rest[i].1,
        ) ==> rest[i].0 < rest[j].0) by {
            assert(rest[i] == list[i] && rest[j] == list[j]);
        }
        assert forall|i: int| 0 <= i < rest.len() implies (#[trigger] rest[i]).0 < item.0 && (
        rest[i]).1.relative_deadline > 0 by {
            assert(rest[i] == list[i]);
        }
        lemma_inserted_in_order(order, rest, item);
        let front = inserted(order, rest, item);
        assert(result == front.push(last));
        lemma_inserted_multiset(order, rest, item);
        assert(last == list[list.len() - 1]);
        assert forall|i: int, j: int|
            #![trigger result[i], result[j]]
            0 <= i < j < result.len() implies no_later(order, result[i].1, result[j].1) && (
        no_later(order, result[j].1, result[i].1) ==> result[i].0 < result[j].0) by {
            if j == front.len() {
                if front[i] == item {
                    lemma_before_asymmetric(order, item.1, last.1);
                } else {
                    let k = choose|k: int| 0 <= k < rest.len() && rest[k] == front[i];
                    assert(list[k] == front[i]);
                    assert(no_later(order, list[k].1, list[list.len() - 1].1));
                }
            } else {
                assert(result[i] == front[i] && result[j] == front[j]);
            }
        }
        assert forall|i: int| 0 <= i < result.len() implies #[trigger] result[i] == item
            || list.contains(result[i]) by {
            if i < front.len() {
                assert(front[i] == result[i]);
                if front[i] != item {
                    let k = choose|k: int| 0 <= k < rest.len() && rest[k] == front[i];
                    assert(list[k] == front[i]);
                }
            }
        }
        assert forall|i: int| 0 <= i < result.len() implies (
        #[trigger] result[i]).1.relative_deadline > 0 by {
            if i < front.len() {
                assert(front[i] == result[i]);
            }
        }
    }
}

proof fn lemma_before_asymmetric(order: PlanOrder, a: DagMetrics, b: DagMetrics)
    requires
        order.before(a, b),
    ensures
        !order.before(b, a),
{
}

/// Entries whose places in the batch ascend.
pub open spec fn places_ascend(list: Seq<Entry>) -> bool {
    forall|i: int, j: int|
        #![trigger list[i], list[j]]
        0 <= i < j < list.len() ==> list[i].0 < list[j].0
}

/// The planning order is what its name says, and it is stable: of two DAGs that
/// need not be kept apart, the one that comes first in the batch stays first.
pub proof fn lemma_in_order(order: PlanOrder, list: Seq<Entry>)
    requires
        places_ascend(list),
        positive_deadlines(list),
    ensures
        is_in_order(order, in_order(order, list)),
        positive_deadlines(in_order(order, list)),
        forall|i: int|
            0 <= i < in_order(order, list).len() ==> list.contains(
                #[trigger] in_order(order, list)[i],
            ),
    decreases list.len(),
{
    if list.len() > 0 {
        let rest = list.drop_last();
        assert forall|i: int, j: int|
            #![trigger rest[i], rest[j]]
            0 <= i < j < rest.len() implies rest[i].0 < rest[j].0 by {
            assert(rest[i] == list[i] && rest[j] == list[j]);
        }
        assert forall|i: int| 0 <= i < rest.len() implies (#[trigger] rest[i]).1.relative_deadline
            > 0 by {
            assert(rest[i] == list[i]);
        }
        lemma_in_order(order, rest);
        let sorted = in_order(order, rest);
        let last = list.last();
        assert(last == list[list.len() - 1]);
        assert forall|i: int| 0 <= i < sorted.len() implies (#[trigger] sorted[i]).0 < last.0 by {
            let k = choose|k: int| 0 <= k < rest.len() && rest[k] == sorted[i];
            assert(list[k] == sorted[i]);
        }
        lemma_inserted_in_order(order, sorted, last);
        let all = in_order(order, list);
        assert forall|i: int| 0 <= i < all.len() implies list.contains(#[trigger] all[i]) by {
            if all[i] == last {
                assert(list[list.len() - 1] == all[i]);
            } else {
                let m = choose|m: int| 0 <= m < sorted.len() && sorted[m] == all[i];
                assert(rest.contains(sorted[m]));
                let k = choose|k: int| 0 <= k < rest.len() && rest[k] == all[i];
                assert(list[k] == all[i]);
            }
        }
    }
}

/// Every DAG of the ordered list is one of the list.
pub proof fn lemma_in_order_members(order: PlanOrder, list: Seq<Entry>, i: int)
    requires
        0 <= i < in_order(order, list).len(),
    ensures
        list.contains(in_order(order, list)[i]),
{
    broadcast use vstd::seq_lib::group_to_multiset_ensures;

    lemma_in_order_keeps_all(order, list);
    let sorted = in_order(order, list);
    assert(sorted.contains(sorted[i]));
    assert(sorted.to_multiset().count(sorted[i]) > 0);
}

} // verus!
