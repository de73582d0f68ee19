//! When each node of a DAG runs if no node ever waits for a processor.

use vstd::prelude::*;

use super::data::links_within;
use super::topology::{is_topological, lemma_listed_at_most, topological_order};

verus! {

/// Whether every chain of links that ends at `v` has fewer than `k` nodes before
/// `v`: then `v` runs once its predecessors have. A node on a cycle, or behind one,
/// is not settled for any `k`.
pub open spec fn settled_within(links: Seq<(usize, usize)>, v: usize, k: nat) -> bool
    decreases k,
{
    k > 0 && forall|l: int|
        0 <= l < links.len() && (#[trigger] links[l]).1 == v ==> settled_within(
            links,
            links[l].0,
            (k - 1) as nat,
        )
}

/// The latest finish of the predecessors of `v` among the first `m` links, looking
/// back along chains of at most `k` links; zero if there is none.
pub open spec fn latest_finish(
    links: Seq<(usize, usize)>,
    times: Seq<u64>,
    v: usize,
    k: nat,
    m: int,
) -> int
    decreases k, m,
{
    if k == 0 || m <= 0 {
        0
    } else {
        let rest = latest_finish(links, times, v, k, m - 1);
        let (p, target) = links[m - 1];
        if target == v {
            let finish = latest_finish(links, times, p, (k - 1) as nat, links.len() as int)
                + times[p as int];
            if finish > rest {
                finish
            } else {
                rest
            }
        } else {
            rest
        }
    }
}

/// The start of `v`, looking back along chains of at most `k` links.
pub open spec fn start_within(links: Seq<(usize, usize)>, times: Seq<u64>, v: usize, k: nat) -> int {
    latest_finish(links, times, v, k, links.len() as int)
}

/// Whether `v` ever runs.
pub open spec fn settled(links: Seq<(usize, usize)>, times: Seq<u64>, v: usize) -> bool {
    settled_within(links, v, times.len())
}

/// When `v` starts: once the last of its predecessors has finished.
pub open spec fn start_of(links: Seq<(usize, usize)>, times: Seq<u64>, v: usize) -> int {
    start_within(links, times, v, times.len())
}

/// When `v` finishes.
pub open spec fn finish_of(links: Seq<(usize, usize)>, times: Seq<u64>, v: usize) -> int {
    start_of(links, times, v) + times[v as int]
}

proof fn lemma_latest_finish_stable(
    links: Seq<(usize, usize)>,
    times: Seq<u64>,
    v: usize,
    k: nat,
    m: int,
)
    requires
        k > 0,
        0 <= m <= links.len(),
        forall|l: int|
            0 <= l < m && (#[trigger] links[l]).1 == v ==> settled_within(
                links,
                links[l].0,
                (k - 1) as nat,
            ),
    ensures
        latest_finish(links, times, v, k + 1, m) == latest_finish(links, times, v, k, m),
    decreases k, m,
{
    if m > 0 {
        lemma_latest_finish_stable(links, times, v, k, m - 1);
        if links[m - 1].1 == v {
            lemma_settled_stable(links, times, links[m - 1].0, (k - 1) as nat);
        }
    }
}

/// Looking back further changes nothing for a settled node.
proof fn lemma_settled_stable(links: Seq<(usize, usize)>, times: Seq<u64>, v: usize, k: nat)
    requires
        settled_within(links, v, k),
    ensures
        settled_within(links, v, k + 1),
        start_within(links, times, v, k + 1) == start_within(links, times, v, k),
    decreases k, links.len() + 1,
{
    lemma_latest_finish_stable(links, times, v, k, links.len() as int);
    assert forall|l: int| 0 <= l < links.len() && (#[trigger] links[l]).1 == v implies settled_within(
        links,
        links[l].0,
        k,
    ) by {
        lemma_settled_stable(links, times, links[l].0, (k - 1) as nat);
    }
}

/// The same, for any greater distance.
pub proof fn lemma_settled_beyond(
    links: Seq<(usize, usize)>,
    times: Seq<u64>,
    v: usize,
    k: nat,
    far: nat,
)
    requires
        settled_within(links, v, k),
        k <= far,
    ensures
        settled_within(links, v, far),
        start_within(links, times, v, far) == start_within(links, times, v, k),
    decreases far - k,
{
    if k < far {
        lemma_settled_stable(links, times, v, k);
        lemma_settled_beyond(links, times, v, k + 1, far);
    }
}

/// A node that a topological order leaves out is not settled.
proof fn lemma_unlisted_not_settled(
    order: Seq<usize>,
    links: Seq<(usize, usize)>,
    n: int,
    v: usize,
    k: nat,
)
    requires
        is_topological(order, links, n),
        links_within(links, n),
        v < n,
        !order.contains(v),
    ensures
        !settled_within(links, v, k),
    decreases k,
{
    if k > 0 {
        let l = choose|l: int|
            0 <= l < links.len() && (#[trigger] links[l]).1 == v && !order.contains(links[l].0);
        lemma_unlisted_not_settled(order, links, n, links[l].0, (k - 1) as nat);
    }
}

/// The sum of the first `m` of `times` whose node is marked.
pub open spec fn marked_sum(times: Seq<u64>, marked: Seq<bool>, m: int) -> int
    decreases m,
{
    if m <= 0 {
        0
    } else {
        marked_sum(times, marked, m - 1) + if marked[m - 1] {
            times[m - 1] as int
        } else {
            0
        }
    }
}

/// The sum of the first `m` of `times`.
pub open spec fn time_sum(times: Seq<u64>, m: int) -> int
    decreases m,
{
    if m <= 0 {
        0
    } else {
        time_sum(times, m - 1) + times[m - 1]
    }
}

proof fn lemma_marked_sum_update(times: Seq<u64>, marked: Seq<bool>, m: int, v: int)
    requires
        0 <= m <= times.len(),
        marked.len() == times.len(),
        0 <= v < times.len(),
        !marked[v],
    ensures
        marked_sum(times, marked.update(v, true), m) == marked_sum(times, marked, m) + if v < m {
            times[v] as int
        } else {
            0
        },
    decreases m,
{
    if m > 0 {
        lemma_marked_sum_update(times, marked, m - 1, v);
    }
}

proof fn lemma_marked_sum_range(times: Seq<u64>, marked: Seq<bool>, m: int)
    requires
        0 <= m <= times.len(),
    ensures
        0 <= marked_sum(times, marked, m) <= time_sum(times, m),
    decreases m,
{
    if m > 0 {
        lemma_marked_sum_range(times, marked, m - 1);
    }
}

/// When the nodes of a DAG start, if no node ever waits for a processor.
pub struct Timing {
    /// Whether a node ever runs.
    pub runs: Vec<bool>,
    /// When it starts, if it runs.
    pub start: Vec<u64>,
}

impl Timing {
    pub open spec fn of(&self, links: Seq<(usize, usize)>, times: Seq<u64>) -> bool {
        &&& self.runs@.len() == times.len()
        &&& self.start@.len() == times.len()
        &&& forall|v: usize|
            v < times.len() ==> #[trigger] self.runs@[v as int] == settled(links, times, v)
        &&& forall|v: usize|
            v < times.len() && self.runs@[v as int] ==> #[trigger] self.start@[v as int]
                == start_of(links, times, v)
        &&& forall|v: usize|
            v < times.len() && self.runs@[v as int] ==> (#[trigger] self.start@[v as int])
                + times[v as int] <= time_sum(times, times.len() as int)
    }
}

/// Computes when each node starts, in topological order: at the latest finish of its
/// predecessors.
pub fn earliest_timing(times: &Vec<u64>, links: &Vec<(usize, usize)>) -> (timing: Timing)
    requires
        links_within(links@, times@.len() as int),
        time_sum(times@, times@.len() as int) <= u64::MAX,
    ensures
        timing.of(links@, times@),
{
    let n: usize = times.len();
    let order = topological_order(n, links);
    let ghost edges = links@;
    let ghost cost = times@;
    let mut runs: Vec<bool> = Vec::new();
    let mut start: Vec<u64> = Vec::new();
    let mut i: usize = 0;
    while i < n
        invariant
            i <= n,
            runs@.len() == i,
            start@.len() == i,
            forall|v: int| 0 <= v < i ==> !#[trigger] runs@[v],
        decreases n - i,
    {
        runs.push(false);
        start.push(0);
        i = i + 1;
    }
    proof {
        lemma_marked_sum_none(cost, runs@, n as int);
        lemma_listed_at_most(order@, n as int);
        assert(order@.take(0) =~= Seq::<usize>::empty());
    }
    let mut k: usize = 0;
    while k < order.len()
        invariant
            k <= order@.len() <= n,
            n == times@.len(),
            cost == times@,
            edges == links@,
            links_within(edges, n as int),
            is_topological(order@, edges, n as int),
            time_sum(cost, n as int) <= u64::MAX,
            runs@.len() == n,
            start@.len() == n,
            forall|v: usize|
                v < n ==> (#[trigger] runs@[v as int] <==> order@.take(k as int).contains(v)),
            forall|c: int|
                0 <= c < k ==> settled_within(edges, #[trigger] order@[c], (c + 1) as nat),
            forall|c: int|
                0 <= c < k ==> start@[(#[trigger] order@[c]) as int] == start_within(
                    edges,
                    cost,
                    order@[c],
                    (c + 1) as nat,
                ),
            forall|c: int|
                0 <= c < k ==> start@[(#[trigger] order@[c]) as int] + cost[order@[c] as int]
                    <= marked_sum(cost, runs@, n as int),
        decreases order@.len() - k,
    {
        let v: usize = order[k];
        let ghost bound = marked_sum(cost, runs@, n as int);
        let ghost level = (k + 1) as nat;
        let mut latest: u64 = 0;
        let mut l: usize = 0;
        proof {
            lemma_marked_sum_range(cost, runs@, n as int);
            assert forall|l: int| 0 <= l < edges.len() && (#[trigger] edges[l]).1
                == v implies settled_within(edges, edges[l].0, k as nat) && start@[edges[l].0 as int]
                == start_within(edges, cost, edges[l].0, k as nat)
                && start@[edges[l].0 as int] + cost[edges[l].0 as int] <= bound by {
                assert(edges[l].1 == order@[k as int]);
                let p = order@.take(k as int);
                assert(p.contains(edges[l].0));
                let c = choose|c: int| 0 <= c < p.len() && p[c] == edges[l].0;
                assert(order@[c] == edges[l].0);
                lemma_settled_beyond(edges, cost, edges[l].0, (c + 1) as nat, k as nat);
            }
        }
        while l < links.len()
            invariant
                l <= links@.len(),
                n == times@.len(),
                cost == times@,
                edges == links@,
                links_within(edges, n as int),
                start@.len() == n,
                v < n,
                level == k + 1,
                bound <= time_sum(cost, n as int) <= u64::MAX,
                0 <= bound,
                forall|m: int|
                    0 <= m < edges.len() && (#[trigger] edges[m]).1 == v ==> settled_within(
                        edges,
                        edges[m].0,
                        k as nat,
                    ) && start@[edges[m].0 as int] == start_within(
                        edges,
                        cost,
                        edges[m].0,
                        k as nat,
                    ) && start@[edges[m].0 as int] + cost[edges[m].0 as int] <= bound,
                latest == latest_finish(edges, cost, v, level, l as int),
                latest <= bound,
            decreases links@.len() - l,
        {
            let (p, target) = links[l];
            if target == v {
                assert(edges[l as int].1 == v);
                let finish: u64 = start[p] + times[p];
                if finish > latest {
                    latest = finish;
                }
            }
            l = l + 1;
        }
        let ghost runs_before = runs@;
        let ghost start_before = start@;
        proof {
            assert(!order@.take(k as int).contains(v)) by {
                let p = order@.take(k as int);
                if p.contains(v) {
                    let c = choose|c: int| 0 <= c < p.len() && p[c] == v;
                    assert(order@[c] == order@[k as int]);
                }
            }
            assert(!runs@[v as int]);
            lemma_marked_sum_update(cost, runs@, n as int, v as int);
        }
        start.set(v, latest);
        runs.set(v, true);
        proof {
            lemma_marked_sum_range(cost, runs@, n as int);
            assert(order@.take(k + 1) =~= order@.take(k as int).push(v));
            assert forall|w: usize| w < n implies (#[trigger] runs@[w as int] <==> order@.take(
                k + 1,
            ).contains(w)) by {
                super::topology::lemma_push_contains_one(order@.take(k as int), v, w);
                assert(runs_before[w as int] <==> order@.take(k as int).contains(w));
            }
            assert forall|c: int| 0 <= c < k implies start@[(#[trigger] order@[c]) as int]
                == start_before[order@[c] as int] by {
                assert(order@[c] != order@[k as int]);
            }
        }
        k = k + 1;
    }
    proof {
        assert(order@.take(k as int) =~= order@);
        lemma_marked_sum_range(cost, runs@, n as int);
        assert forall|v: usize| v < n implies #[trigger] runs@[v as int] == settled(
            edges,
            cost,
            v,
        ) by {
            if order@.contains(v) {
                let c = choose|c: int| 0 <= c < order@.len() && order@[c] == v;
                lemma_settled_beyond(edges, cost, order@[c], (c + 1) as nat, n as nat);
            } else {
                lemma_unlisted_not_settled(order@, edges, n as int, v, n as nat);
            }
        }
        assert forall|v: usize| v < n && runs@[v as int] implies #[trigger] start@[v as int]
            == start_of(edges, cost, v) && start@[v as int] + cost[v as int] <= time_sum(
            cost,
            n as int,
        ) by {
            assert(order@.contains(v));
            let c = choose|c: int| 0 <= c < order@.len() && order@[c] == v;
            lemma_settled_beyond(edges, cost, order@[c], (c + 1) as nat, n as nat);
        }
    }
    Timing { runs, start }
}

proof fn lemma_marked_sum_none(times: Seq<u64>, marked: Seq<bool>, m: int)
    requires
        0 <= m <= times.len(),
        marked.len() == times.len(),
        forall|v: int| 0 <= v < marked.len() ==> !#[trigger] marked[v],
    ensures
        marked_sum(times, marked, m) == 0,
    decreases m,
{
    if m > 0 {
        lemma_marked_sum_none(times, marked, m - 1);
    }
}

/// No latest finish is negative.
pub proof fn lemma_latest_finish_nonnegative(
    links: Seq<(usize, usize)>,
    times: Seq<u64>,
    v: usize,
    k: nat,
    m: int,
)
    ensures
        0 <= latest_finish(links, times, v, k, m),
    decreases k, m,
{
    if k > 0 && m > 0 {
        lemma_latest_finish_nonnegative(links, times, v, k, m - 1);
    }
}

/// No node starts before time zero.
pub proof fn lemma_start_nonnegative(links: Seq<(usize, usize)>, times: Seq<u64>, v: usize)
    ensures
        0 <= start_of(links, times, v),
{
    lemma_latest_finish_nonnegative(links, times, v, times.len(), links.len() as int);
}

} // verus!
