//! Aggregates of a DAG: its volume, its critical path, and each node's laxity.

use std::collections::BTreeMap;

use vstd::prelude::*;

use super::data::{links_within, DagData};
use super::timing::{
    earliest_timing, finish_of, latest_finish, lemma_latest_finish_nonnegative,
    lemma_settled_beyond, settled, settled_within, start_of, start_within, time_sum, Timing,
};

verus! {

/// DAG-level aggregates of the nodes' execution times.
#[derive(Debug, Clone, Copy, PartialEq, Eq, Structural)]
pub struct DagAggregateStats {
    /// The sum of every node's execution time.
    pub volume: u64,
    /// The sum along the longest path from a source to a sink.
    pub critical_path: u64,
}

/// The latest finish among the first `m` nodes that run; zero if none does.
pub open spec fn last_finish(links: Seq<(usize, usize)>, times: Seq<u64>, m: int) -> int
    decreases m,
{
    if m <= 0 {
        0
    } else {
        let rest = last_finish(links, times, m - 1);
        let v = (m - 1) as usize;
        if settled(links, times, v) && finish_of(links, times, v) > rest {
            finish_of(links, times, v)
        } else {
            rest
        }
    }
}

/// The length of the critical path: when the last node finishes if no node ever
/// waits for a processor.
pub open spec fn critical_path(links: Seq<(usize, usize)>, times: Seq<u64>) -> int {
    last_finish(links, times, times.len() as int)
}

fn sum_times(times: &Vec<u64>) -> (total: u64)
    requires
        time_sum(times@, times@.len() as int) <= u64::MAX,
    ensures
        total == time_sum(times@, times@.len() as int),
{
    let mut total: u64 = 0;
    let mut i: usize = 0;
    while i < times.len()
        invariant
            i <= times@.len(),
            time_sum(times@, times@.len() as int) <= u64::MAX,
            total == time_sum(times@, i as int),
        decreases times@.len() - i,
    {
        proof {
            lemma_time_sum_grows(times@, i + 1, times@.len() as int);
        }
        total = total + times[i];
        i = i + 1;
    }
    total
}

proof fn lemma_time_sum_grows(times: Seq<u64>, low: int, high: int)
    requires
        0 <= low <= high <= times.len(),
    ensures
        0 <= time_sum(times, low) <= time_sum(times, high),
    decreases high,
{
    if high > 0 {
        if low < high {
            lemma_time_sum_grows(times, low, high - 1);
        } else {
            lemma_time_sum_grows(times, low - 1, high - 1);
        }
    }
}

impl DagData {
    /// Tells whether the sum of all execution times is within the range of times.
    pub fn is_work_in_range(&self) -> (in_range: bool)
        ensures
            in_range == (self.total_work() <= u64::MAX),
    {
        let times = self.execution_times();
        let mut total: u64 = 0;
        let mut i: usize = 0;
        while i < times.len()
            invariant
                times@ == self.times(),
                i <= times@.len(),
                total == time_sum(times@, i as int),
            decreases times@.len() - i,
        {
            proof {
                lemma_time_sum_grows(times@, i + 1, times@.len() as int);
            }
            match total.checked_add(times[i]) {
                Some(sum) => {
                    total = sum;
                },
                None => {
                    return false;
                },
            }
            i = i + 1;
        }
        true
    }
}

/// When the last node finishes.
fn last_finish_time(
    timing: &Timing,
    times: &Vec<u64>,
    Ghost(links): Ghost<Seq<(usize, usize)>>,
) -> (last: u64)
    requires
        timing.of(links, times@),
        time_sum(times@, times@.len() as int) <= u64::MAX,
    ensures
        last == critical_path(links, times@),
{
    let mut last: u64 = 0;
    let mut v: usize = 0;
    while v < times.len()
        invariant
            v <= times@.len(),
            timing.of(links, times@),
            time_sum(times@, times@.len() as int) <= u64::MAX,
            last == last_finish(links, times@, v as int),
        decreases times@.len() - v,
    {
        if timing.runs[v] {
            assert(timing.start@[v as int] == start_of(links, times@, v));
            let finish: u64 = timing.start[v] + times[v];
            if finish > last {
                last = finish;
            }
        }
        v = v + 1;
    }
    last
}

/// Computes the volume and the critical path of a DAG.
pub fn compute_dag_stats(dag: &DagData) -> (stats: DagAggregateStats)
    requires
        dag.wf(),
        dag.total_work() <= u64::MAX,
    ensures
        stats.volume == dag.total_work(),
        stats.critical_path == critical_path(dag.links@, dag.times()),
{
    let times = dag.execution_times();
    let timing = earliest_timing(&times, &dag.links);
    DagAggregateStats {
        volume: sum_times(&times),
        critical_path: last_finish_time(&timing, &times, Ghost(dag.links@)),
    }
}

/// Whether the node at place `i` of a sequence is linked to the next.
pub open spec fn is_step(links: Seq<(usize, usize)>, path: Seq<usize>, i: int) -> bool {
    links.contains((path[i], path[i + 1]))
}

/// A path: a sequence of nodes of which each is linked to the next.
pub open spec fn is_path(links: Seq<(usize, usize)>, n: int, path: Seq<usize>) -> bool {
    &&& path.len() > 0
    &&& forall|i: int| 0 <= i < path.len() ==> (#[trigger] path[i]) < n
    &&& forall|i: int| 0 <= i < path.len() - 1 ==> #[trigger] is_step(links, path, i)
}

/// The sum of the execution times along a path.
pub open spec fn path_length(times: Seq<u64>, path: Seq<usize>) -> int
    decreases path.len(),
{
    if path.len() == 0 {
        0
    } else {
        path_length(times, path.drop_last()) + times[path.last() as int]
    }
}

proof fn lemma_latest_finish_covers(
    links: Seq<(usize, usize)>,
    times: Seq<u64>,
    v: usize,
    k: nat,
    m: int,
    l: int,
)
    requires
        k > 0,
        0 <= l < m <= links.len(),
        links[l].1 == v,
    ensures
        start_within(links, times, links[l].0, (k - 1) as nat) + times[links[l].0 as int]
            <= latest_finish(links, times, v, k, m),
    decreases m,
{
    if l < m - 1 {
        lemma_latest_finish_covers(links, times, v, k, m - 1, l);
    }
}

/// A node starts no earlier than each of its predecessors finishes.
pub proof fn lemma_starts_after_predecessor(
    links: Seq<(usize, usize)>,
    times: Seq<u64>,
    l: int,
)
    requires
        0 <= l < links.len(),
        links_within(links, times.len() as int),
        settled(links, times, links[l].1),
    ensures
        settled(links, times, links[l].0),
        finish_of(links, times, links[l].0) <= start_of(links, times, links[l].1),
{
    let n = times.len();
    let (p, v) = links[l];
    assert(links[l].1 == v);
    lemma_latest_finish_covers(links, times, v, n, links.len() as int, l);
    lemma_settled_beyond(links, times, p, (n - 1) as nat, n);
}

/// No path that ends at a node that runs is longer than that node's finish.
pub proof fn lemma_path_at_most_finish(
    links: Seq<(usize, usize)>,
    times: Seq<u64>,
    path: Seq<usize>,
)
    requires
        links_within(links, times.len() as int),
        is_path(links, times.len() as int, path),
        settled(links, times, path.last()),
    ensures
        path_length(times, path) <= finish_of(links, times, path.last()),
    decreases path.len(),
{
    let rest = path.drop_last();
    if path.len() == 1 {
        assert(path_length(times, rest) == 0);
        lemma_latest_finish_nonnegative(
            links,
            times,
            path.last(),
            times.len(),
            links.len() as int,
        );
    } else {
        let a = path[path.len() - 2];
        let b = path[path.len() - 1];
        assert(is_step(links, path, path.len() - 2));
        let l = choose|l: int| 0 <= l < links.len() && links[l] == (a, b);
        lemma_starts_after_predecessor(links, times, l);
        assert forall|i: int| 0 <= i < rest.len() - 1 implies #[trigger] is_step(
            links,
            rest,
            i,
        ) by {
            assert(is_step(links, path, i));
        }
        assert forall|i: int| 0 <= i < rest.len() implies (#[trigger] rest[i]) < times.len() by {
            assert(path[i] < times.len());
        }
        assert(rest.last() == a);
        lemma_path_at_most_finish(links, times, rest);
    }
}

/// The predecessor that a node waits for: one that finishes exactly when it starts.
pub proof fn lemma_latest_finish_attained(
    links: Seq<(usize, usize)>,
    times: Seq<u64>,
    v: usize,
    k: nat,
    m: int,
) -> (l: int)
    requires
        0 <= m <= links.len(),
        k > 0,
        latest_finish(links, times, v, k, m) > 0,
    ensures
        0 <= l < m,
        links[l].1 == v,
        start_within(links, times, links[l].0, (k - 1) as nat) + times[links[l].0 as int]
            == latest_finish(links, times, v, k, m),
    decreases m,
{
    let rest = latest_finish(links, times, v, k, m - 1);
    if latest_finish(links, times, v, k, m) == rest {
        lemma_latest_finish_attained(links, times, v, k, m - 1)
    } else {
        m - 1
    }
}

/// A node that starts late has a predecessor that finishes exactly then.
pub proof fn lemma_waits_for_predecessor(
    links: Seq<(usize, usize)>,
    times: Seq<u64>,
    v: usize,
) -> (p: usize)
    requires
        links_within(links, times.len() as int),
        v < times.len(),
        settled(links, times, v),
        start_of(links, times, v) > 0,
    ensures
        p < times.len(),
        links.contains((p, v)),
        settled(links, times, p),
        finish_of(links, times, p) == start_of(links, times, v),
{
    let n = times.len();
    let l = lemma_latest_finish_attained(links, times, v, n, links.len() as int);
    let p = links[l].0;
    assert(links[l] == (p, v));
    assert(settled_within(links, p, (n - 1) as nat));
    lemma_settled_beyond(links, times, p, (n - 1) as nat, n);
    p
}

/// A path as long as the finish of `v` ends at `v`, provided `v` runs.
pub proof fn lemma_path_attains_finish(
    links: Seq<(usize, usize)>,
    times: Seq<u64>,
    v: usize,
    k: nat,
) -> (path: Seq<usize>)
    requires
        links_within(links, times.len() as int),
        v < times.len(),
        k <= times.len(),
        settled_within(links, v, k),
    ensures
        is_path(links, times.len() as int, path),
        path.last() == v,
        path_length(times, path) == start_within(links, times, v, k) + times[v as int],
    decreases k,
{
    lemma_latest_finish_nonnegative(links, times, v, k, links.len() as int);
    if start_within(links, times, v, k) > 0 {
        let l = lemma_latest_finish_attained(links, times, v, k, links.len() as int);
        let p = links[l].0;
        let rest = lemma_path_attains_finish(links, times, p, (k - 1) as nat);
        let path = rest.push(v);
        assert(path.drop_last() =~= rest);
        assert forall|i: int| 0 <= i < path.len() - 1 implies #[trigger] is_step(
            links,
            path,
            i,
        ) by {
            if i < rest.len() - 1 {
                assert(is_step(links, rest, i));
            } else {
                assert(path[i] == p && path[i + 1] == v);
                assert(links[l] == (p, v));
            }
        }
        path
    } else {
        let path = seq![v];
        assert(path.drop_last() =~= Seq::<usize>::empty());
        assert(path_length(times, path.drop_last()) == 0);
        path
    }
}

proof fn lemma_last_finish(links: Seq<(usize, usize)>, times: Seq<u64>, m: int)
    requires
        0 <= m <= times.len() <= usize::MAX,
    ensures
        0 <= last_finish(links, times, m),
        forall|v: usize|
            v < m && settled(links, times, v) ==> #[trigger] finish_of(links, times, v)
                <= last_finish(links, times, m),
        last_finish(links, times, m) > 0 ==> exists|v: usize|
            v < m && settled(links, times, v) && #[trigger] finish_of(links, times, v)
                == last_finish(links, times, m),
    decreases m,
{
    if m > 0 {
        lemma_last_finish(links, times, m - 1);
        let w = (m - 1) as usize;
        let rest = last_finish(links, times, m - 1);
        assert forall|v: usize| v < m && settled(links, times, v) implies #[trigger] finish_of(
            links,
            times,
            v,
        ) <= last_finish(links, times, m) by {
            if v < m - 1 {
                assert(finish_of(links, times, v) <= rest);
            }
        }
        if last_finish(links, times, m) > 0 {
            if settled(links, times, w) && finish_of(links, times, w) > rest {
                assert(finish_of(links, times, w) == last_finish(links, times, m));
            } else {
                let v = choose|v: usize|
                    v < m - 1 && settled(links, times, v) && #[trigger] finish_of(links, times, v)
                        == rest;
                assert(finish_of(links, times, v) == last_finish(links, times, m));
            }
        }
    }
}

/// Every node that runs finishes within the critical path, and if the critical path
/// is not empty some node finishes exactly at its end.
pub proof fn lemma_critical_path(links: Seq<(usize, usize)>, times: Seq<u64>)
    requires
        times.len() <= usize::MAX,
    ensures
        0 <= critical_path(links, times),
        forall|v: usize|
            v < times.len() && settled(links, times, v) ==> #[trigger] finish_of(links, times, v)
                <= critical_path(links, times),
        critical_path(links, times) > 0 ==> exists|v: usize|
            v < times.len() && settled(links, times, v) && #[trigger] finish_of(links, times, v)
                == critical_path(links, times),
{
    lemma_last_finish(links, times, times.len() as int);
}

/// Every node runs: the links have no cycle.
pub open spec fn acyclic(links: Seq<(usize, usize)>, times: Seq<u64>) -> bool {
    forall|v: usize| v < times.len() ==> #[trigger] settled(links, times, v)
}

/// The critical path of an acyclic graph is the length of its longest path: no path
/// is longer, and some path is as long.
pub proof fn lemma_critical_path_is_longest_path(
    links: Seq<(usize, usize)>,
    times: Seq<u64>,
    path: Seq<usize>,
)
    requires
        links_within(links, times.len() as int),
        times.len() <= usize::MAX,
        acyclic(links, times),
        is_path(links, times.len() as int, path),
    ensures
        path_length(times, path) <= critical_path(links, times),
        exists|longest: Seq<usize>|
            is_path(links, times.len() as int, longest) && #[trigger] path_length(times, longest)
                == critical_path(links, times),
{
    lemma_critical_path(links, times);
    assert(path.last() == path[path.len() - 1]);
    lemma_path_at_most_finish(links, times, path);
    assert(finish_of(links, times, path.last()) <= critical_path(links, times));
    if critical_path(links, times) > 0 {
        let v = choose|v: usize|
            v < times.len() && settled(links, times, v) && #[trigger] finish_of(links, times, v)
                == critical_path(links, times);
        let longest = lemma_path_attains_finish(links, times, v, times.len());
        assert(path_length(times, longest) == critical_path(links, times));
    } else {
        lemma_path_length_nonnegative(times, path);
        assert(path_length(times, path) == critical_path(links, times));
    }
}

proof fn lemma_path_length_nonnegative(times: Seq<u64>, path: Seq<usize>)
    ensures
        0 <= path_length(times, path),
    decreases path.len(),
{
    if path.len() > 0 {
        lemma_path_length_nonnegative(times, path.drop_last());
    }
}

/// The links with their directions turned round.
pub open spec fn reversed(links: Seq<(usize, usize)>) -> Seq<(usize, usize)> {
    Seq::new(links.len(), |l: int| (links[l].1, links[l].0))
}

/// How long the longest path takes that begins at `v`.
pub open spec fn tail_of(links: Seq<(usize, usize)>, times: Seq<u64>, v: usize) -> int {
    finish_of(reversed(links), times, v)
}

fn reverse_links(links: &Vec<(usize, usize)>) -> (back: Vec<(usize, usize)>)
    ensures
        back@ == reversed(links@),
{
    let mut back: Vec<(usize, usize)> = Vec::new();
    let mut i: usize = 0;
    while i < links.len()
        invariant
            i <= links@.len(),
            back@ == reversed(links@).take(i as int),
        decreases links@.len() - i,
    {
        let (source, target) = links[i];
        back.push((target, source));
        i = i + 1;
        assert(back@ =~= reversed(links@).take(i as int));
    }
    assert(back@ =~= reversed(links@));
    back
}

fn put(map: &mut BTreeMap<u32, u64>, id: u32, value: u64)
    ensures
        final(map)@ == old(map)@.insert(id, value),
{
    broadcast use vstd::std_specs::btree::group_btree_axioms;

    map.insert(id, value);
}

/// `map` holds the laxity of each of the first `m` nodes from which a sink can be
/// reached in the end, by identifier, and nothing else: what is left of the deadline
/// once the longest path from the node on has been taken off.
pub open spec fn is_laxity_map(dag: &DagData, deadline: int, map: Map<u32, u64>, m: int) -> bool {
    let back = reversed(dag.links@);
    &&& forall|v: usize|
        v < m && settled(back, dag.times(), v) ==> map.contains_key(
            (#[trigger] dag.nodes@[v as int]).id,
        ) && map[dag.nodes@[v as int].id] == deadline - tail_of(dag.links@, dag.times(), v)
    &&& forall|id: u32| #[trigger]
        map.contains_key(id) ==> exists|v: usize|
            v < m && settled(back, dag.times(), v) && (#[trigger] dag.nodes@[v as int]).id == id
}

/// Computes every node's laxity: for a sink the deadline, for any other node the
/// least laxity of its successors, less the node's own execution time. None if a
/// node's laxity would be negative.
pub fn compute_node_laxity(dag: &DagData, relative_deadline: u64) -> (laxity: Option<
    BTreeMap<u32, u64>,
>)
    requires
        dag.wf(),
        dag.total_work() <= u64::MAX,
    ensures
        match laxity {
            None => critical_path(reversed(dag.links@), dag.times()) > relative_deadline,
            Some(map) => critical_path(reversed(dag.links@), dag.times()) <= relative_deadline
                && is_laxity_map(
                dag,
                relative_deadline as int,
                map@,
                dag.nodes@.len() as int,
            ),
        },
{
    let times = dag.execution_times();
    let back = reverse_links(&dag.links);
    assert(links_within(back@, times@.len() as int)) by {
        assert forall|l: int| 0 <= l < back@.len() implies (#[trigger] back@[l]).0 < times@.len()
            && back@[l].1 < times@.len() by {
            assert(dag.links@[l].0 < times@.len());
        }
    }
    let timing = earliest_timing(&times, &back);
    let mut map: BTreeMap<u32, u64> = BTreeMap::new();
    let mut v: usize = 0;
    proof {
        lemma_critical_path(back@, times@);
    }
    while v < times.len()
        invariant
            v <= times@.len(),
            times@ == dag.times(),
            back@ == reversed(dag.links@),
            timing.of(back@, times@),
            dag.wf(),
            time_sum(times@, times@.len() as int) <= u64::MAX,
            forall|w: usize|
                w < times@.len() && settled(back@, times@, w) ==> #[trigger] finish_of(
                    back@,
                    times@,
                    w,
                ) <= critical_path(back@, times@),
            forall|w: usize|
                w < v && settled(back@, times@, w) ==> #[trigger] finish_of(back@, times@, w)
                    <= relative_deadline,
            is_laxity_map(dag, relative_deadline as int, map@, v as int),
        decreases times@.len() - v,
    {
        let ghost before = map@;
        if timing.runs[v] {
            assert(timing.start@[v as int] == start_of(back@, times@, v));
            let tail: u64 = timing.start[v] + times[v];
            assert(finish_of(back@, times@, v) == tail);
            if tail > relative_deadline {
                return None;
            }
            put(&mut map, dag.nodes[v].id, relative_deadline - tail);
            proof {
                assert forall|w: usize| w < v + 1 && settled(back@, times@, w) implies map@.contains_key(
                    (#[trigger] dag.nodes@[w as int]).id,
                ) && map@[dag.nodes@[w as int].id] == relative_deadline - tail_of(
                    dag.links@,
                    dag.times(),
                    w,
                ) by {
                    if w < v {
                        assert(dag.nodes@[w as int].id != dag.nodes@[v as int].id);
                        assert(before.contains_key(dag.nodes@[w as int].id));
                    }
                }
                assert forall|id: u32| #[trigger] map@.contains_key(id) implies exists|w: usize|
                    w < v + 1 && settled(back@, times@, w) && (#[trigger] dag.nodes@[w as int]).id
                        == id by {
                    if id == dag.nodes@[v as int].id {
                        assert(settled(back@, times@, v));
                    } else {
                        assert(before.contains_key(id));
                        let w = choose|w: usize|
                            w < v && settled(back@, times@, w) && (
                            #[trigger] dag.nodes@[w as int]).id == id;
                        assert(dag.nodes@[w as int].id == id);
                    }
                }
            }
        } else {
            proof {
                assert forall|id: u32| #[trigger] map@.contains_key(id) implies exists|w: usize|
                    w < v + 1 && settled(back@, times@, w) && (#[trigger] dag.nodes@[w as int]).id
                        == id by {
                    let w = choose|w: usize|
                        w < v && settled(back@, times@, w) && (#[trigger] dag.nodes@[w as int]).id
                            == id;
                    assert(dag.nodes@[w as int].id == id);
                }
            }
        }
        v = v + 1;
    }
    Some(map)
}

proof fn lemma_unsettled_settles_backwards(
    links: Seq<(usize, usize)>,
    times: Seq<u64>,
    v: usize,
    k: nat,
)
    requires
        links_within(links, times.len() as int),
        acyclic(links, times),
        v < times.len(),
        k <= times.len(),
        !settled_within(links, v, k),
    ensures
        settled_within(reversed(links), v, (times.len() - k) as nat),
    decreases times.len() - k,
{
    let n = times.len();
    if k == n {
        assert(settled(links, times, v));
    } else {
        let back = reversed(links);
        assert forall|l: int| 0 <= l < back.len() && (#[trigger] back[l]).1 == v implies settled_within(
            back,
            back[l].0,
            (n - k - 1) as nat,
        ) by {
            assert(links[l] == (v, back[l].0));
            let u = links[l].1;
            assert(links[l].1 == u);
            assert(!settled_within(links, u, k + 1));
            lemma_unsettled_settles_backwards(links, times, u, k + 1);
        }
    }
}

/// An acyclic graph stays acyclic if its links are turned round.
pub proof fn lemma_reversed_acyclic(links: Seq<(usize, usize)>, times: Seq<u64>)
    requires
        links_within(links, times.len() as int),
        acyclic(links, times),
    ensures
        acyclic(reversed(links), times),
        links_within(reversed(links), times.len() as int),
{
    let back = reversed(links);
    assert forall|v: usize| v < times.len() implies #[trigger] settled(back, times, v) by {
        lemma_unsettled_settles_backwards(links, times, v, 0);
    }
    assert forall|l: int| 0 <= l < back.len() implies (#[trigger] back[l]).0 < times.len()
        && back[l].1 < times.len() by {
        assert(links[l].0 < times.len());
    }
}

proof fn lemma_path_length_front(times: Seq<u64>, path: Seq<usize>)
    requires
        path.len() > 0,
    ensures
        path_length(times, path) == times[path[0] as int] + path_length(times, path.drop_first()),
    decreases path.len(),
{
    if path.len() == 1 {
        assert(path.drop_last() =~= Seq::<usize>::empty());
        assert(path.drop_first() =~= Seq::<usize>::empty());
        assert(path_length(times, path.drop_last()) == 0);
        assert(path_length(times, path.drop_first()) == 0);
    } else {
        lemma_path_length_front(times, path.drop_last());
        assert(path.drop_last().drop_first() =~= path.drop_first().drop_last());
        assert(path.drop_first().last() == path.last());
    }
}

proof fn lemma_reversed_path(links: Seq<(usize, usize)>, times: Seq<u64>, path: Seq<usize>)
    requires
        is_path(links, times.len() as int, path),
    ensures
        is_path(reversed(links), times.len() as int, path.reverse()),
        path_length(times, path.reverse()) == path_length(times, path),
{
    let back = reversed(links);
    let turned = path.reverse();
    assert forall|i: int| 0 <= i < turned.len() implies (#[trigger] turned[i]) < times.len() by {
        assert(path[path.len() - 1 - i] < times.len());
    }
    assert forall|i: int| 0 <= i < turned.len() - 1 implies #[trigger] is_step(
        back,
        turned,
        i,
    ) by {
        let j = path.len() - 2 - i;
        assert(is_step(links, path, j));
        let l = choose|l: int| 0 <= l < links.len() && links[l] == (path[j], path[j + 1]);
        assert(back[l] == (turned[i], turned[i + 1]));
    }
    lemma_reversed_length(times, path);
}

proof fn lemma_reversed_length(times: Seq<u64>, path: Seq<usize>)
    ensures
        path_length(times, path.reverse()) == path_length(times, path),
    decreases path.len(),
{
    if path.len() > 0 {
        lemma_reversed_length(times, path.drop_last());
        let turned = path.reverse();
        lemma_path_length_front(times, turned);
        assert(turned.drop_first() =~= path.drop_last().reverse());
        assert(turned[0] == path.last());
    } else {
        assert(path.reverse() =~= path);
    }
}

proof fn lemma_critical_path_at_most_reversed(links: Seq<(usize, usize)>, times: Seq<u64>)
    requires
        links_within(links, times.len() as int),
        times.len() <= usize::MAX,
        acyclic(links, times),
    ensures
        critical_path(links, times) <= critical_path(reversed(links), times),
{
    lemma_critical_path(links, times);
    lemma_critical_path(reversed(links), times);
    lemma_reversed_acyclic(links, times);
    if critical_path(links, times) > 0 {
        let v = choose|v: usize|
            v < times.len() && settled(links, times, v) && #[trigger] finish_of(links, times, v)
                == critical_path(links, times);
        let longest = lemma_path_attains_finish(links, times, v, times.len());
        lemma_reversed_path(links, times, longest);
        lemma_critical_path_is_longest_path(reversed(links), times, longest.reverse());
    }
}

/// The longest path of an acyclic graph is as long in either direction. So a laxity
/// exists for every node exactly if the critical path is within the deadline.
pub proof fn lemma_critical_path_reversed(links: Seq<(usize, usize)>, times: Seq<u64>)
    requires
        links_within(links, times.len() as int),
        times.len() <= usize::MAX,
        acyclic(links, times),
    ensures
        critical_path(reversed(links), times) == critical_path(links, times),
{
    lemma_critical_path_at_most_reversed(links, times);
    lemma_reversed_acyclic(links, times);
    lemma_critical_path_at_most_reversed(reversed(links), times);
    assert(reversed(reversed(links)) =~= links);
}

/// A node's laxity: what is left of the deadline once the longest path from the node on has
/// been taken off.
pub open spec fn laxity_of(
    links: Seq<(usize, usize)>,
    times: Seq<u64>,
    deadline: int,
    v: usize,
) -> int {
    deadline - tail_of(links, times, v)
}

/// The laxity of a sink is the deadline less its execution time. The laxity of any other node
/// is that of its tightest successor, less its own execution time: no successor's laxity is
/// below the sum of the two, and one successor's is equal to it.
pub proof fn lemma_laxity_recurrence(
    links: Seq<(usize, usize)>,
    times: Seq<u64>,
    deadline: int,
    v: usize,
)
    requires
        links_within(links, times.len() as int),
        v < times.len(),
        settled(reversed(links), times, v),
    ensures
        (forall|w: usize| !#[trigger] links.contains((v, w))) ==> laxity_of(
            links,
            times,
            deadline,
            v,
        ) == deadline - times[v as int],
        forall|w: usize| #[trigger]
            links.contains((v, w)) ==> laxity_of(links, times, deadline, v) + times[v as int]
                <= laxity_of(links, times, deadline, w),
        (exists|w: usize| #[trigger] links.contains((v, w))) ==> exists|w: usize| #[trigger]
            links.contains((v, w)) && laxity_of(links, times, deadline, v) + times[v as int]
                == laxity_of(links, times, deadline, w),
{
    let back = reversed(links);
    assert forall|l: int| 0 <= l < back.len() implies (#[trigger] back[l]).0 < times.len()
        && back[l].1 < times.len() by {
        assert(links[l].0 < times.len());
    }
    lemma_latest_finish_nonnegative(back, times, v, times.len(), back.len() as int);
    assert forall|w: usize| #[trigger] links.contains((v, w)) implies laxity_of(
        links,
        times,
        deadline,
        v,
    ) + times[v as int] <= laxity_of(links, times, deadline, w) by {
        let l = choose|l: int| 0 <= l < links.len() && links[l] == (v, w);
        assert(back[l] == (w, v));
        lemma_starts_after_predecessor(back, times, l);
    }
    if start_of(back, times, v) > 0 {
        let w = lemma_waits_for_predecessor(back, times, v);
        let l = choose|l: int| 0 <= l < back.len() && back[l] == (w, v);
        assert(links[l] == (v, w));
        assert(links.contains((v, w)));
    } else if exists|w: usize| #[trigger] links.contains((v, w)) {
        let w = choose|w: usize| #[trigger] links.contains((v, w));
        lemma_latest_finish_nonnegative(back, times, w, times.len(), back.len() as int);
    }
}

/// A path that begins at `v`.
pub open spec fn leads_on_from(links: Seq<(usize, usize)>, n: int, path: Seq<usize>, v: usize) -> bool {
    is_path(links, n, path) && path[0] == v
}

/// A node may be put off by its laxity and no longer: started that much after the release,
/// the node and every chain of work that waits for it are through by the deadline, and one
/// such chain is through at the deadline and not before it.
pub proof fn lemma_laxity_is_what_the_longest_path_leaves(
    dag: &DagData,
    deadline: int,
    map: Map<u32, u64>,
    v: usize,
)
    requires
        dag.wf(),
        is_laxity_map(dag, deadline, map, dag.nodes@.len() as int),
        v < dag.nodes@.len(),
        acyclic(dag.links@, dag.times()),
    ensures
        map.contains_key(dag.nodes@[v as int].id),
        forall|path: Seq<usize>| #[trigger]
            leads_on_from(dag.links@, dag.nodes@.len() as int, path, v)
                ==> map[dag.nodes@[v as int].id] + path_length(dag.times(), path) <= deadline,
        exists|path: Seq<usize>| #[trigger]
            leads_on_from(dag.links@, dag.nodes@.len() as int, path, v)
                && map[dag.nodes@[v as int].id] + path_length(dag.times(), path) == deadline,
{
    let links = dag.links@;
    let times = dag.times();
    let n = dag.nodes@.len() as int;
    let back = reversed(links);
    assert(times.len() == n);
    assert forall|l: int| 0 <= l < back.len() implies (#[trigger] back[l]).0 < times.len()
        && back[l].1 < times.len() by {
        assert(links[l].0 < times.len());
    }
    lemma_reversed_acyclic(links, times);
    assert(settled(back, times, v));
    let laxity = map[dag.nodes@[v as int].id];
    assert forall|path: Seq<usize>| #[trigger] leads_on_from(links, n, path, v) implies laxity
        + path_length(times, path) <= deadline by {
        lemma_reversed_path(links, times, path);
        assert(path.reverse().last() == v);
        lemma_path_at_most_finish(back, times, path.reverse());
    }
    let turned = lemma_path_attains_finish(back, times, v, times.len());
    lemma_reversed_path(back, times, turned);
    assert(reversed(back) =~= links);
    assert(turned.reverse()[0] == v);
    assert(leads_on_from(links, n, turned.reverse(), v));
}

} // verus!
