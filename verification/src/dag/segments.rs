//! The segments of a DAG: the intervals between which the set of running nodes
//! changes, if no node ever waits for a processor.

use vstd::prelude::*;

use super::data::{links_within, DagData};
use super::stats::{acyclic, critical_path, lemma_critical_path, lemma_latest_finish_attained};
use super::timing::{
    earliest_timing, finish_of, lemma_settled_beyond, lemma_start_nonnegative, settled,
    settled_within, start_of, start_within, time_sum, Timing,
};

verus! {

/// One interval: how long it lasts and how many nodes run in it.
#[derive(Debug, Clone, Copy, PartialEq, Eq, Structural)]
pub struct Segment {
    pub duration: u64,
    pub concurrency: u32,
}

/// An instant put into an ascending list of instants, unless it is there already.
pub open spec fn with_instant(instants: Seq<int>, t: int) -> Seq<int>
    decreases instants.len(),
{
    if instants.len() == 0 || instants.last() < t {
        instants.push(t)
    } else if instants.last() == t {
        instants
    } else {
        with_instant(instants.drop_last(), t).push(instants.last())
    }
}

/// Every instant at which one of the first `m` nodes that run starts or finishes,
/// ascending.
pub open spec fn timeline_below(links: Seq<(usize, usize)>, times: Seq<u64>, m: int) -> Seq<int>
    decreases m,
{
    if m <= 0 {
        Seq::empty()
    } else {
        let rest = timeline_below(links, times, m - 1);
        let v = (m - 1) as usize;
        if settled(links, times, v) {
            with_instant(
                with_instant(rest, start_of(links, times, v)),
                finish_of(links, times, v),
            )
        } else {
            rest
        }
    }
}

/// Every instant at which a node starts or finishes, ascending.
pub open spec fn timeline(links: Seq<(usize, usize)>, times: Seq<u64>) -> Seq<int> {
    timeline_below(links, times, times.len() as int)
}

/// Whether `v` runs at the instant `t`.
pub open spec fn active(links: Seq<(usize, usize)>, times: Seq<u64>, v: usize, t: int) -> bool {
    settled(links, times, v) && start_of(links, times, v) <= t < finish_of(links, times, v)
}

/// How many of the first `m` nodes run at the instant `t`.
pub open spec fn active_below(
    links: Seq<(usize, usize)>,
    times: Seq<u64>,
    t: int,
    m: int,
) -> int
    decreases m,
{
    if m <= 0 {
        0
    } else {
        active_below(links, times, t, m - 1) + if active(links, times, (m - 1) as usize, t) {
            1int
        } else {
            0
        }
    }
}

/// How many nodes run at the instant `t`.
pub open spec fn concurrency_at(links: Seq<(usize, usize)>, times: Seq<u64>, t: int) -> int {
    active_below(links, times, t, times.len() as int)
}

/// The segments of the first `w` intervals of a timeline; intervals in which no node
/// runs are left out.
pub open spec fn segments_below(
    links: Seq<(usize, usize)>,
    times: Seq<u64>,
    instants: Seq<int>,
    w: int,
) -> Seq<Segment>
    decreases w,
{
    if w <= 0 {
        Seq::empty()
    } else {
        let rest = segments_below(links, times, instants, w - 1);
        let concurrency = concurrency_at(links, times, instants[w - 1]);
        if concurrency == 0 {
            rest
        } else {
            rest.push(
                Segment {
                    duration: (instants[w] - instants[w - 1]) as u64,
                    concurrency: concurrency as u32,
                },
            )
        }
    }
}

/// [`decompose_segments`] as a function.
pub open spec fn segments_of(links: Seq<(usize, usize)>, times: Seq<u64>) -> Seq<Segment> {
    let instants = timeline(links, times);
    segments_below(links, times, instants, instants.len() - 1)
}

/// Strictly ascending instants.
pub open spec fn ascending(instants: Seq<int>) -> bool {
    forall|i: int, j: int| 0 <= i < j < instants.len() ==> instants[i] < instants[j]
}

proof fn lemma_with_instant(instants: Seq<int>, t: int)
    requires
        ascending(instants),
    ensures
        ascending(with_instant(instants, t)),
        forall|x: int|
            #[trigger] with_instant(instants, t).contains(x) <==> instants.contains(x) || x == t,
    decreases instants.len(),
{
    let result = with_instant(instants, t);
    if instants.len() == 0 || instants.last() < t {
        assert forall|x: int| #[trigger] result.contains(x) <==> instants.contains(x) || x
            == t by {
            if instants.contains(x) {
                let i = choose|i: int| 0 <= i < instants.len() && instants[i] == x;
                assert(result[i] == x);
            }
            assert(result[instants.len() as int] == t);
            if result.contains(x) {
                let i = choose|i: int| 0 <= i < result.len() && result[i] == x;
                if i < instants.len() {
                    assert(instants[i] == x);
                }
            }
        }
        assert forall|i: int, j: int| 0 <= i < j < result.len() implies result[i] < result[j] by {
            if j == instants.len() && i < instants.len() - 1 {
                assert(instants[i] < instants[instants.len() - 1]);
            }
        }
    } else if instants.last() == t {
        assert(instants[instants.len() - 1] == t);
    } else {
        let rest = instants.drop_last();
        let last = instants.last();
        lemma_with_instant(rest, t);
        let front = with_instant(rest, t);
        assert forall|x: int| #[trigger] result.contains(x) <==> instants.contains(x) || x
            == t by {
            if result.contains(x) {
                let i = choose|i: int| 0 <= i < result.len() && result[i] == x;
                if i < front.len() {
                    assert(front[i] == x);
                    assert(front.contains(x));
                    if rest.contains(x) {
                        let k = choose|k: int| 0 <= k < rest.len() && rest[k] == x;
                        assert(instants[k] == x);
                    }
                } else {
                    assert(instants[instants.len() - 1] == x);
                }
            }
            if instants.contains(x) || x == t {
                if x == last {
                    assert(result[front.len() as int] == x);
                } else {
                    if x != t {
                        let k = choose|k: int| 0 <= k < instants.len() && instants[k] == x;
                        assert(rest[k] == x);
                    }
                    assert(front.contains(x));
                    let i = choose|i: int| 0 <= i < front.len() && front[i] == x;
                    assert(result[i] == x);
                }
            }
        }
        assert forall|i: int, j: int| 0 <= i < j < result.len() implies result[i] < result[j] by {
            if j == front.len() {
                assert(front.contains(front[i]));
                if rest.contains(front[i]) {
                    let k = choose|k: int| 0 <= k < rest.len() && rest[k] == front[i];
                    assert(instants[k] < instants[instants.len() - 1]);
                }
            } else {
                assert(front[i] < front[j]);
            }
        }
    }
}

/// A timeline ascends and holds exactly the starts and finishes of the nodes.
pub proof fn lemma_timeline_below(links: Seq<(usize, usize)>, times: Seq<u64>, m: int)
    requires
        0 <= m <= times.len() <= usize::MAX,
    ensures
        ascending(timeline_below(links, times, m)),
        forall|v: usize|
            v < m && settled(links, times, v) ==> timeline_below(links, times, m).contains(
                #[trigger] start_of(links, times, v),
            ) && timeline_below(links, times, m).contains(finish_of(links, times, v)),
        forall|t: int| #[trigger]
            timeline_below(links, times, m).contains(t) ==> exists|v: usize|
                v < m && settled(links, times, v) && (t == #[trigger] start_of(links, times, v)
                    || t == finish_of(links, times, v)),
    decreases m,
{
    if m > 0 {
        lemma_timeline_below(links, times, m - 1);
        let rest = timeline_below(links, times, m - 1);
        let all = timeline_below(links, times, m);
        let w = (m - 1) as usize;
        let s = start_of(links, times, w);
        let f = finish_of(links, times, w);
        lemma_with_instant(rest, s);
        lemma_with_instant(with_instant(rest, s), f);
        if settled(links, times, w) {
            assert forall|v: usize| v < m && settled(links, times, v) implies all.contains(
                #[trigger] start_of(links, times, v),
            ) && all.contains(finish_of(links, times, v)) by {
                if v < w {
                    assert(rest.contains(start_of(links, times, v)));
                    assert(with_instant(rest, s).contains(start_of(links, times, v)));
                    assert(with_instant(rest, s).contains(finish_of(links, times, v)));
                } else {
                    assert(with_instant(rest, s).contains(s));
                }
            }
            assert forall|t: int| #[trigger] all.contains(t) implies exists|v: usize|
                v < m && settled(links, times, v) && (t == #[trigger] start_of(links, times, v)
                    || t == finish_of(links, times, v)) by {
                if t == f {
                    assert(start_of(links, times, w) == s);
                } else {
                    assert(with_instant(rest, s).contains(t));
                    if t != s {
                        assert(rest.contains(t));
                        let v = choose|v: usize|
                            v < m - 1 && settled(links, times, v) && (t == #[trigger] start_of(
                                links,
                                times,
                                v,
                            ) || t == finish_of(links, times, v));
                        assert(start_of(links, times, v) == start_of(links, times, v));
                    }
                }
            }
        } else {
            assert forall|t: int| #[trigger] all.contains(t) implies exists|v: usize|
                v < m && settled(links, times, v) && (t == #[trigger] start_of(links, times, v)
                    || t == finish_of(links, times, v)) by {
                let v = choose|v: usize|
                    v < m - 1 && settled(links, times, v) && (t == #[trigger] start_of(
                        links,
                        times,
                        v,
                    ) || t == finish_of(links, times, v));
                assert(start_of(links, times, v) == start_of(links, times, v));
            }
        }
    }
}

proof fn lemma_no_idle_instant_within(
    links: Seq<(usize, usize)>,
    times: Seq<u64>,
    v: usize,
    k: nat,
    t: int,
) -> (u: usize)
    requires
        links_within(links, times.len() as int),
        v < times.len(),
        k <= times.len(),
        settled_within(links, v, k),
        0 <= t < start_within(links, times, v, k) + times[v as int],
    ensures
        u < times.len(),
        active(links, times, u, t),
    decreases k,
{
    if start_within(links, times, v, k) <= t {
        lemma_settled_beyond(links, times, v, k, times.len());
        v
    } else {
        let l = lemma_latest_finish_attained(links, times, v, k, links.len() as int);
        lemma_no_idle_instant_within(links, times, links[l].0, (k - 1) as nat, t)
    }
}

/// At every instant before a node's finish some node runs: the node itself, or one on
/// the chain of predecessors that it waits for.
pub proof fn lemma_no_idle_instant(
    links: Seq<(usize, usize)>,
    times: Seq<u64>,
    v: usize,
    t: int,
) -> (u: usize)
    requires
        links_within(links, times.len() as int),
        v < times.len(),
        settled(links, times, v),
        0 <= t < finish_of(links, times, v),
    ensures
        u < times.len(),
        active(links, times, u, t),
{
    lemma_no_idle_instant_within(links, times, v, times.len(), t)
}

proof fn lemma_active_below(links: Seq<(usize, usize)>, times: Seq<u64>, t: int, m: int)
    requires
        0 <= m <= times.len() <= usize::MAX,
    ensures
        0 <= active_below(links, times, t, m) <= m,
        forall|v: usize|
            v < m && #[trigger] active(links, times, v, t) ==> active_below(links, times, t, m)
                > 0,
    decreases m,
{
    if m > 0 {
        lemma_active_below(links, times, t, m - 1);
    }
}

/// How long a node runs within the first `w` intervals of a timeline.
spec fn run_below(instants: Seq<int>, start: int, finish: int, w: int) -> int
    decreases w,
{
    if w <= 0 {
        0
    } else {
        run_below(instants, start, finish, w - 1) + if start <= instants[w - 1] < finish {
            instants[w] - instants[w - 1]
        } else {
            0
        }
    }
}

spec fn clamp(x: int, low: int, high: int) -> int {
    if x < low {
        low
    } else if x > high {
        high
    } else {
        x
    }
}

proof fn lemma_run_below(instants: Seq<int>, start: int, finish: int, w: int)
    requires
        ascending(instants),
        instants.contains(start),
        instants.contains(finish),
        start <= finish,
        0 <= w < instants.len(),
    ensures
        run_below(instants, start, finish, w) == clamp(instants[w], start, finish) - clamp(
            instants[0],
            start,
            finish,
        ),
    decreases w,
{
    if w > 0 {
        lemma_run_below(instants, start, finish, w - 1);
        let a = choose|a: int| 0 <= a < instants.len() && instants[a] == start;
        let b = choose|b: int| 0 <= b < instants.len() && instants[b] == finish;
        let t0 = instants[w - 1];
        let t1 = instants[w];
        assert(t0 < t1);
        if start <= t0 < finish {
            assert(b > w - 1);
            assert(b == w || instants[w] < instants[b]);
        } else if t0 < start {
            assert(a > w - 1);
            assert(a == w || instants[w] < instants[a]);
        }
    }
}

/// A node that runs does so for exactly its execution time over a whole timeline that
/// holds its start and finish.
proof fn lemma_run_whole(instants: Seq<int>, start: int, finish: int)
    requires
        ascending(instants),
        instants.contains(start),
        instants.contains(finish),
        start <= finish,
    ensures
        run_below(instants, start, finish, instants.len() - 1) == finish - start,
{
    let last = instants.len() - 1;
    let a = choose|a: int| 0 <= a < instants.len() && instants[a] == start;
    let b = choose|b: int| 0 <= b < instants.len() && instants[b] == finish;
    lemma_run_below(instants, start, finish, last);
    assert(a == 0 || instants[0] < instants[a]);
    assert(b == last || instants[b] < instants[last]);
}

/// How long the first `m` nodes together run within the first `w` intervals.
spec fn work_below(
    links: Seq<(usize, usize)>,
    times: Seq<u64>,
    instants: Seq<int>,
    w: int,
    m: int,
) -> int
    decreases m,
{
    if m <= 0 {
        0
    } else {
        let v = (m - 1) as usize;
        work_below(links, times, instants, w, m - 1) + if settled(links, times, v) {
            run_below(instants, start_of(links, times, v), finish_of(links, times, v), w)
        } else {
            0
        }
    }
}

proof fn lemma_work_step(
    links: Seq<(usize, usize)>,
    times: Seq<u64>,
    instants: Seq<int>,
    w: int,
    m: int,
)
    requires
        0 < w < instants.len(),
        0 <= m <= times.len() <= usize::MAX,
    ensures
        work_below(links, times, instants, w, m) == work_below(links, times, instants, w - 1, m)
            + (instants[w] - instants[w - 1]) * active_below(links, times, instants[w - 1], m),
    decreases m,
{
    if m > 0 {
        lemma_work_step(links, times, instants, w, m - 1);
        let d = instants[w] - instants[w - 1];
        let c = active_below(links, times, instants[w - 1], m - 1);
        assert(d * (c + 1) == d * c + d) by (nonlinear_arith);
    } else {
        let d = instants[w] - instants[w - 1];
        assert(d * 0 == 0);
    }
}

/// The sum of the durations.
pub open spec fn total_duration(segments: Seq<Segment>) -> int
    decreases segments.len(),
{
    if segments.len() == 0 {
        0
    } else {
        total_duration(segments.drop_last()) + segments.last().duration
    }
}

/// The sum of each duration times the number of nodes that run.
pub open spec fn total_segment_work(segments: Seq<Segment>) -> int
    decreases segments.len(),
{
    if segments.len() == 0 {
        0
    } else {
        total_segment_work(segments.drop_last()) + segments.last().duration
            * segments.last().concurrency
    }
}

/// Consecutive instants are within the range of the segments' fields.
spec fn fits(links: Seq<(usize, usize)>, times: Seq<u64>, instants: Seq<int>) -> bool {
    &&& times.len() <= u32::MAX
    &&& forall|i: int| 0 <= i < instants.len() ==> 0 <= #[trigger] instants[i] <= u64::MAX
}

proof fn lemma_segment_sums(
    links: Seq<(usize, usize)>,
    times: Seq<u64>,
    instants: Seq<int>,
    w: int,
)
    requires
        fits(links, times, instants),
        ascending(instants),
        0 <= w < instants.len(),
        forall|i: int|
            0 <= i < instants.len() - 1 ==> concurrency_at(links, times, #[trigger] instants[i])
                > 0,
    ensures
        total_duration(segments_below(links, times, instants, w)) == instants[w] - instants[0],
        total_segment_work(segments_below(links, times, instants, w)) == work_below(
            links,
            times,
            instants,
            w,
            times.len() as int,
        ),
    decreases w,
{
    let n = times.len() as int;
    if w > 0 {
        lemma_segment_sums(links, times, instants, w - 1);
        lemma_work_step(links, times, instants, w, n);
        let all = segments_below(links, times, instants, w);
        let rest = segments_below(links, times, instants, w - 1);
        let c = concurrency_at(links, times, instants[w - 1]);
        lemma_active_below(links, times, instants[w - 1], n);
        assert(all.drop_last() =~= rest);
        assert(instants[w - 1] < instants[w]);
        assert(all.last().duration == instants[w] - instants[w - 1]);
        assert(all.last().concurrency == c);
    } else {
        lemma_no_work(links, times, instants, n);
    }
}

proof fn lemma_no_work(links: Seq<(usize, usize)>, times: Seq<u64>, instants: Seq<int>, m: int)
    requires
        0 <= m <= times.len(),
    ensures
        work_below(links, times, instants, 0, m) == 0,
    decreases m,
{
    if m > 0 {
        lemma_no_work(links, times, instants, m - 1);
    }
}

/// The sum of the execution times of the first `m` nodes that run.
pub open spec fn settled_work(links: Seq<(usize, usize)>, times: Seq<u64>, m: int) -> int
    decreases m,
{
    if m <= 0 {
        0
    } else {
        settled_work(links, times, m - 1) + if settled(links, times, (m - 1) as usize) {
            times[m - 1] as int
        } else {
            0
        }
    }
}

proof fn lemma_whole_work(links: Seq<(usize, usize)>, times: Seq<u64>, instants: Seq<int>, m: int)
    requires
        0 <= m <= times.len() <= usize::MAX,
        ascending(instants),
        forall|v: usize|
            v < m && settled(links, times, v) ==> instants.contains(
                #[trigger] start_of(links, times, v),
            ) && instants.contains(finish_of(links, times, v)),
    ensures
        work_below(links, times, instants, instants.len() - 1, m) == settled_work(links, times, m),
    decreases m,
{
    if m > 0 {
        lemma_whole_work(links, times, instants, m - 1);
        let v = (m - 1) as usize;
        if settled(links, times, v) {
            assert(instants.contains(start_of(links, times, v)));
            lemma_run_whole(instants, start_of(links, times, v), finish_of(links, times, v));
        }
    }
}

proof fn lemma_timeline_fits(links: Seq<(usize, usize)>, times: Seq<u64>)
    requires
        times.len() <= u32::MAX,
        critical_path(links, times) <= u64::MAX,
    ensures
        fits(links, times, timeline(links, times)),
{
    let instants = timeline(links, times);
    lemma_timeline_below(links, times, times.len() as int);
    lemma_critical_path(links, times);
    assert forall|i: int| 0 <= i < instants.len() implies 0 <= #[trigger] instants[i]
        <= u64::MAX by {
        assert(instants.contains(instants[i]));
        let v = choose|v: usize|
            v < times.len() && settled(links, times, v) && (instants[i] == #[trigger] start_of(
                links,
                times,
                v,
            ) || instants[i] == finish_of(links, times, v));
        lemma_start_nonnegative(links, times, v);
        assert(finish_of(links, times, v) <= critical_path(links, times));
    }
}

/// A timeline spans the whole critical path, and in each of its intervals some node
/// runs.
proof fn lemma_timeline_spans(links: Seq<(usize, usize)>, times: Seq<u64>)
    requires
        links_within(links, times.len() as int),
        times.len() <= usize::MAX,
    ensures
        ascending(timeline(links, times)),
        timeline(links, times).len() == 0 ==> critical_path(links, times) == 0,
        timeline(links, times).len() > 0 ==> timeline(links, times)[0] == 0 && timeline(
            links,
            times,
        ).last() == critical_path(links, times),
        forall|i: int|
            0 <= i < timeline(links, times).len() - 1 ==> concurrency_at(
                links,
                times,
                #[trigger] timeline(links, times)[i],
            ) > 0,
{
    let n = times.len() as int;
    let instants = timeline(links, times);
    lemma_timeline_below(links, times, n);
    lemma_critical_path(links, times);
    let length = critical_path(links, times);
    if instants.len() == 0 {
        if length > 0 {
            let v = choose|v: usize|
                v < times.len() && settled(links, times, v) && #[trigger] finish_of(
                    links,
                    times,
                    v,
                ) == length;
            assert(instants.contains(start_of(links, times, v)));
        }
    } else {
        let last = instants.len() - 1;
        assert forall|i: int| 0 <= i < instants.len() implies 0 <= #[trigger] instants[i]
            <= length by {
            assert(instants.contains(instants[i]));
            let u = choose|u: usize|
                u < times.len() && settled(links, times, u) && (instants[i] == #[trigger] start_of(
                    links,
                    times,
                    u,
                ) || instants[i] == finish_of(links, times, u));
            lemma_start_nonnegative(links, times, u);
            assert(finish_of(links, times, u) <= length);
        }
        assert(instants[last] == length && instants[0] == 0) by {
            if length > 0 {
                let v = choose|v: usize|
                    v < times.len() && settled(links, times, v) && #[trigger] finish_of(
                        links,
                        times,
                        v,
                    ) == length;
                assert(instants.contains(start_of(links, times, v)));
                let b = choose|b: int| 0 <= b < instants.len() && instants[b] == length;
                assert(b == last || instants[b] < instants[last]);
                let z = lemma_no_idle_instant(links, times, v, 0);
                lemma_start_nonnegative(links, times, z);
                assert(instants.contains(start_of(links, times, z)));
                let a = choose|a: int| 0 <= a < instants.len() && instants[a] == 0;
                assert(a == 0 || instants[0] < instants[a]);
            } else {
                assert(instants[last] == 0);
                assert(last == 0 || instants[0] < instants[last]);
            }
        }
        assert forall|i: int| 0 <= i < last implies concurrency_at(
            links,
            times,
            #[trigger] instants[i],
        ) > 0 by {
            assert(instants[i] < instants[last]);
            let v = choose|v: usize|
                v < times.len() && settled(links, times, v) && #[trigger] finish_of(
                    links,
                    times,
                    v,
                ) == length;
            let z = lemma_no_idle_instant(links, times, v, instants[i]);
            lemma_active_below(links, times, instants[i], n);
        }
    }
}

proof fn lemma_work_covers_span(
    links: Seq<(usize, usize)>,
    times: Seq<u64>,
    instants: Seq<int>,
    w: int,
)
    requires
        ascending(instants),
        0 <= w < instants.len(),
        times.len() <= usize::MAX,
        forall|i: int|
            0 <= i < instants.len() - 1 ==> concurrency_at(links, times, #[trigger] instants[i])
                > 0,
    ensures
        instants[w] - instants[0] <= work_below(links, times, instants, w, times.len() as int),
    decreases w,
{
    let n = times.len() as int;
    if w > 0 {
        lemma_work_covers_span(links, times, instants, w - 1);
        lemma_work_step(links, times, instants, w, n);
        let d = instants[w] - instants[w - 1];
        let c = concurrency_at(links, times, instants[w - 1]);
        assert(instants[w - 1] < instants[w]);
        assert(d <= d * c) by (nonlinear_arith)
            requires
                d > 0,
                c > 0,
        ;
    } else {
        lemma_no_work(links, times, instants, n);
    }
}

proof fn lemma_settled_work_range(links: Seq<(usize, usize)>, times: Seq<u64>, m: int)
    requires
        0 <= m <= times.len(),
    ensures
        0 <= settled_work(links, times, m) <= time_sum(times, m),
    decreases m,
{
    if m > 0 {
        lemma_settled_work_range(links, times, m - 1);
    }
}

/// The critical path is never longer than the whole volume.
pub proof fn lemma_critical_path_at_most_volume(links: Seq<(usize, usize)>, times: Seq<u64>)
    requires
        links_within(links, times.len() as int),
        times.len() <= usize::MAX,
    ensures
        critical_path(links, times) <= time_sum(times, times.len() as int),
{
    let n = times.len() as int;
    let instants = timeline(links, times);
    lemma_timeline_below(links, times, n);
    lemma_timeline_spans(links, times);
    lemma_settled_work_range(links, times, n);
    if instants.len() > 0 {
        lemma_work_covers_span(links, times, instants, instants.len() - 1);
        lemma_whole_work(links, times, instants, n);
    }
}

/// What the segments of a DAG add up to: their durations to the critical path, and
/// their durations times their concurrencies to the execution times of all nodes that
/// run.
pub proof fn lemma_segments_add_up(links: Seq<(usize, usize)>, times: Seq<u64>)
    requires
        links_within(links, times.len() as int),
        times.len() <= u32::MAX,
        time_sum(times, times.len() as int) <= u64::MAX,
    ensures
        total_duration(segments_of(links, times)) == critical_path(links, times),
        total_segment_work(segments_of(links, times)) == settled_work(
            links,
            times,
            times.len() as int,
        ),
{
    let n = times.len() as int;
    let instants = timeline(links, times);
    lemma_critical_path_at_most_volume(links, times);
    lemma_timeline_below(links, times, n);
    lemma_timeline_spans(links, times);
    lemma_timeline_fits(links, times);
    lemma_whole_work(links, times, instants, n);
    if instants.len() == 0 {
        assert(segments_of(links, times) =~= Seq::<Segment>::empty());
        lemma_no_settled_work(links, times, n);
    } else {
        lemma_segment_sums(links, times, instants, instants.len() - 1);
    }
}

proof fn lemma_no_settled_work(links: Seq<(usize, usize)>, times: Seq<u64>, m: int)
    requires
        0 <= m <= times.len() <= usize::MAX,
        timeline(links, times).len() == 0,
    ensures
        settled_work(links, times, m) == 0,
    decreases m,
{
    if m > 0 {
        lemma_no_settled_work(links, times, m - 1);
        lemma_timeline_below(links, times, times.len() as int);
        let v = (m - 1) as usize;
        if settled(links, times, v) {
            assert(timeline(links, times).contains(start_of(links, times, v)));
        }
    }
}

/// In an acyclic graph every node runs, so the segments hold the whole volume.
pub proof fn lemma_segments_hold_the_volume(dag: &DagData)
    requires
        dag.wf(),
        dag.total_work() <= u64::MAX,
        acyclic(dag.links@, dag.times()),
    ensures
        total_segment_work(segments_of(dag.links@, dag.times())) == dag.total_work(),
        total_duration(segments_of(dag.links@, dag.times())) == critical_path(
            dag.links@,
            dag.times(),
        ),
{
    lemma_segments_add_up(dag.links@, dag.times());
    lemma_all_settled_work(dag.links@, dag.times(), dag.nodes@.len() as int);
}

proof fn lemma_all_settled_work(links: Seq<(usize, usize)>, times: Seq<u64>, m: int)
    requires
        0 <= m <= times.len() <= usize::MAX,
        acyclic(links, times),
    ensures
        settled_work(links, times, m) == time_sum(times, m),
    decreases m,
{
    if m > 0 {
        lemma_all_settled_work(links, times, m - 1);
        assert(settled(links, times, (m - 1) as usize));
    }
}

/// The instants of a vector as integers.
spec fn instants_view(instants: Seq<u64>) -> Seq<int> {
    Seq::new(instants.len(), |i: int| instants[i] as int)
}

fn insert_instant(instants: &mut Vec<u64>, t: u64)
    ensures
        instants_view(final(instants)@) == with_instant(instants_view(old(instants)@), t as int),
{
    let ghost before = instants_view(instants@);
    let mut at: usize = instants.len();
    assert(before.take(at as int) =~= before);
    assert(with_instant(before, t as int) =~= with_instant(before.take(at as int), t as int)
        + before.skip(at as int));
    while at > 0 && instants[at - 1] > t
        invariant
            at <= instants@.len(),
            before == instants_view(instants@),
            with_instant(before, t as int) == with_instant(before.take(at as int), t as int)
                + before.skip(at as int),
        decreases at,
    {
        proof {
            let shorter = before.take(at as int);
            assert(shorter.drop_last() =~= before.take(at - 1));
            assert(with_instant(shorter, t as int) + before.skip(at as int) =~= with_instant(
                before.take(at - 1),
                t as int,
            ) + before.skip(at - 1));
        }
        at = at - 1;
    }
    if at > 0 && instants[at - 1] == t {
        assert(before.take(at as int) + before.skip(at as int) =~= before);
        return ;
    }
    instants.insert(at, t);
    assert(instants_view(instants@) =~= before.take(at as int).push(t as int) + before.skip(
        at as int,
    ));
}

fn active_count(
    timing: &Timing,
    times: &Vec<u64>,
    t: u64,
    Ghost(links): Ghost<Seq<(usize, usize)>>,
) -> (count: u32)
    requires
        timing.of(links, times@),
        times@.len() <= u32::MAX,
        time_sum(times@, times@.len() as int) <= u64::MAX,
    ensures
        count == concurrency_at(links, times@, t as int),
{
    let mut count: u32 = 0;
    let mut v: usize = 0;
    while v < times.len()
        invariant
            v <= times@.len() <= u32::MAX,
            timing.of(links, times@),
            time_sum(times@, times@.len() as int) <= u64::MAX,
            count == active_below(links, times@, t as int, v as int),
            count <= v,
        decreases times@.len() - v,
    {
        if timing.runs[v] {
            assert(timing.start@[v as int] == start_of(links, times@, v));
            let start: u64 = timing.start[v];
            let finish: u64 = start + times[v];
            if start <= t && t < finish {
                count = count + 1;
            }
        }
        v = v + 1;
    }
    count
}

/// Decomposes a DAG into its segments, in the order of time.
pub fn decompose_segments(dag: &DagData) -> (segments: Vec<Segment>)
    requires
        dag.wf(),
        dag.total_work() <= u64::MAX,
    ensures
        segments@ == segments_of(dag.links@, dag.times()),
{
    let times = dag.execution_times();
    let timing = earliest_timing(&times, &dag.links);
    let ghost links = dag.links@;
    let ghost cost = times@;
    let mut instants: Vec<u64> = Vec::new();
    let mut v: usize = 0;
    assert(instants_view(instants@) =~= Seq::<int>::empty());
    while v < times.len()
        invariant
            v <= times@.len(),
            cost == times@,
            timing.of(links, cost),
            time_sum(cost, cost.len() as int) <= u64::MAX,
            instants_view(instants@) == timeline_below(links, cost, v as int),
        decreases times@.len() - v,
    {
        if timing.runs[v] {
            assert(timing.start@[v as int] == start_of(links, cost, v));
            let start: u64 = timing.start[v];
            insert_instant(&mut instants, start);
            insert_instant(&mut instants, start + times[v]);
        }
        v = v + 1;
    }
    proof {
        lemma_timeline_below(links, cost, cost.len() as int);
    }
    let mut segments: Vec<Segment> = Vec::new();
    let mut w: usize = 1;
    while w < instants.len()
        invariant
            1 <= w,
            w <= instants@.len() || instants@.len() == 0,
            instants@.len() == 0 ==> w == 1,
            cost == times@,
            cost.len() <= u32::MAX,
            timing.of(links, cost),
            time_sum(cost, cost.len() as int) <= u64::MAX,
            instants_view(instants@) == timeline(links, cost),
            ascending(timeline(links, cost)),
            segments@ == segments_below(links, cost, timeline(links, cost), w - 1),
        decreases instants@.len() - w,
    {
        let t0: u64 = instants[w - 1];
        let t1: u64 = instants[w];
        assert(timeline(links, cost)[w - 1] == t0 && timeline(links, cost)[w as int] == t1);
        let concurrency: u32 = active_count(&timing, &times, t0, Ghost(links));
        if concurrency != 0 {
            segments.push(Segment { duration: t1 - t0, concurrency });
        }
        w = w + 1;
    }
    assert(instants_view(instants@).len() == instants@.len());
    segments
}

/// The nodes that have started by the instant `t` and have not finished.
pub open spec fn under_way(links: Seq<(usize, usize)>, times: Seq<u64>, t: int) -> Set<usize> {
    Set::new(
        |v: usize|
            v < times.len() && settled(links, times, v) && start_of(links, times, v) <= t
                && t < start_of(links, times, v) + times[v as int],
    )
}

proof fn lemma_active_set(links: Seq<(usize, usize)>, times: Seq<u64>, t: int, m: int)
    requires
        0 <= m <= times.len() <= usize::MAX,
    ensures
        under_way(links, times, t).filter(|v: usize| v < m).finite(),
        under_way(links, times, t).filter(|v: usize| v < m).len() == active_below(
            links,
            times,
            t,
            m,
        ),
    decreases m,
{
    let now = under_way(links, times, t).filter(|v: usize| v < m);
    if m == 0 {
        assert(now =~= Set::<usize>::empty());
    } else {
        lemma_active_set(links, times, t, m - 1);
        let before = under_way(links, times, t).filter(|v: usize| v < m - 1);
        let w = (m - 1) as usize;
        if active(links, times, w, t) {
            assert(now =~= before.insert(w));
        } else {
            assert(now =~= before);
        }
    }
}

/// No interval of the timeline is left out.
proof fn lemma_segments_follow_timeline(
    links: Seq<(usize, usize)>,
    times: Seq<u64>,
    instants: Seq<int>,
    w: int,
)
    requires
        times.len() <= u32::MAX,
        instants == timeline(links, times),
        links_within(links, times.len() as int),
        critical_path(links, times) <= u64::MAX,
        0 <= w < instants.len(),
    ensures
        segments_below(links, times, instants, w).len() == w,
        forall|j: int|
            0 <= j < w ==> (#[trigger] segments_below(links, times, instants, w)[j]).duration
                == instants[j + 1] - instants[j] && segments_below(
                links,
                times,
                instants,
                w,
            )[j].concurrency == concurrency_at(links, times, instants[j]),
        forall|j: int|
            0 <= j <= w ==> #[trigger] total_duration(
                segments_below(links, times, instants, w).take(j),
            ) == instants[j],
    decreases w,
{
    lemma_timeline_spans(links, times);
    lemma_timeline_fits(links, times);
    let all = segments_below(links, times, instants, w);
    if w > 0 {
        lemma_segments_follow_timeline(links, times, instants, w - 1);
        let rest = segments_below(links, times, instants, w - 1);
        lemma_active_below(links, times, instants[w - 1], times.len() as int);
        assert(concurrency_at(links, times, instants[w - 1]) > 0);
        assert(instants[w - 1] < instants[w]);
        assert forall|j: int| 0 <= j <= w implies #[trigger] total_duration(all.take(j))
            == instants[j] by {
            if j < w {
                assert(all.take(j) =~= rest.take(j));
            } else {
                assert(all.take(w).drop_last() =~= rest.take(w - 1));
                assert(total_duration(rest.take(w - 1)) == instants[w - 1]);
                assert(all.take(w).last() == all[w - 1]);
            }
        }
    } else {
        assert(all.take(0) =~= Seq::<Segment>::empty());
    }
}

/// A time of the timeline is not between two neighbours of it.
proof fn lemma_not_between(instants: Seq<int>, j: int, t: int, x: int)
    requires
        ascending(instants),
        instants.contains(x),
        0 <= j < instants.len() - 1,
        instants[j] <= t < instants[j + 1],
    ensures
        x <= t <==> x <= instants[j],
{
    let a = choose|a: int| 0 <= a < instants.len() && instants[a] == x;
    if a > j + 1 {
        assert(instants[j + 1] < instants[a]);
    }
    if a < j {
        assert(instants[a] < instants[j]);
    }
}

/// Between two neighbours of the timeline a node does not start or finish.
proof fn lemma_active_between(
    links: Seq<(usize, usize)>,
    times: Seq<u64>,
    v: usize,
    j: int,
    t: int,
)
    requires
        v < times.len() <= usize::MAX,
        0 <= j < timeline(links, times).len() - 1,
        timeline(links, times)[j] <= t < timeline(links, times)[j + 1],
    ensures
        active(links, times, v, t) == active(links, times, v, timeline(links, times)[j]),
{
    let instants = timeline(links, times);
    lemma_timeline_below(links, times, times.len() as int);
    if settled(links, times, v) {
        lemma_not_between(instants, j, t, start_of(links, times, v));
        lemma_not_between(instants, j, t, finish_of(links, times, v));
    }
}

/// Between two neighbours of the timeline the number of nodes that run does not change.
proof fn lemma_constant_between(
    links: Seq<(usize, usize)>,
    times: Seq<u64>,
    j: int,
    t: int,
    m: int,
)
    requires
        times.len() <= usize::MAX,
        0 <= m <= times.len(),
        0 <= j < timeline(links, times).len() - 1,
        timeline(links, times)[j] <= t < timeline(links, times)[j + 1],
    ensures
        active_below(links, times, t, m) == active_below(
            links,
            times,
            timeline(links, times)[j],
            m,
        ),
    decreases m,
{
    if m > 0 {
        lemma_constant_between(links, times, j, t, m - 1);
        lemma_active_between(links, times, (m - 1) as usize, j, t);
    }
}

/// The segments tell of every instant how many nodes are under way, if no node ever waits
/// for a processor: one after the other they cover the time from the release to the end of
/// the critical path, and throughout each as many nodes are under way as it says.
pub proof fn lemma_segments_tell_the_parallelism(
    links: Seq<(usize, usize)>,
    times: Seq<u64>,
    j: int,
    t: int,
)
    requires
        times.len() <= u32::MAX,
        links_within(links, times.len() as int),
        critical_path(links, times) <= u64::MAX,
        0 <= j < segments_of(links, times).len(),
        total_duration(segments_of(links, times).take(j)) <= t,
        t < total_duration(segments_of(links, times).take(j)) + segments_of(
            links,
            times,
        )[j].duration,
    ensures
        under_way(links, times, t).finite(),
        under_way(links, times, t).len() == segments_of(links, times)[j].concurrency,
        0 < segments_of(links, times)[j].concurrency,
        total_duration(segments_of(links, times)) == critical_path(links, times),
{
    let instants = timeline(links, times);
    lemma_timeline_spans(links, times);
    assert(instants.len() > 0);
    lemma_segments_follow_timeline(links, times, instants, instants.len() - 1);
    let all = segments_of(links, times);
    lemma_constant_between(links, times, j, t, times.len() as int);
    lemma_active_set(links, times, t, times.len() as int);
    assert(under_way(links, times, t).filter(|v: usize| v < times.len()) =~= under_way(
        links,
        times,
        t,
    ));
    assert(all.take(all.len() as int) =~= all);
}

/// Where one segment ends and the next begins, some node starts or finishes.
pub proof fn lemma_segments_part_where_a_node_starts_or_finishes(
    links: Seq<(usize, usize)>,
    times: Seq<u64>,
    j: int,
)
    requires
        times.len() <= u32::MAX,
        links_within(links, times.len() as int),
        critical_path(links, times) <= u64::MAX,
        0 <= j < segments_of(links, times).len(),
    ensures
        ({
            let t = total_duration(segments_of(links, times).take(j));
            exists|v: usize|
                v < times.len() && settled(links, times, v) && (#[trigger] start_of(
                    links,
                    times,
                    v,
                ) == t || start_of(links, times, v) + times[v as int] == t)
        }),
        0 < segments_of(links, times)[j].duration,
{
    let instants = timeline(links, times);
    lemma_timeline_spans(links, times);
    lemma_timeline_below(links, times, times.len() as int);
    assert(instants.len() > 0);
    lemma_segments_follow_timeline(links, times, instants, instants.len() - 1);
    assert(instants[j] < instants[j + 1]);
    assert(instants.contains(instants[j]));
}

} // verus!
