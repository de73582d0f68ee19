//! DAG-Fluid's static mathematics: a task's virtual deadline, the split of its
//! segments into light and heavy ones, and the processor capacity it needs.
//!
//! Every quantity is exact: where a quantity is not an integer it is kept as a
//! fraction.

use vstd::prelude::*;

use super::bignat::BigNat;
use super::segments::{total_duration, total_segment_work, Segment};
use crate::dag_sched::metrics::ceil_div;
use crate::scheduler::dp_wrap::RATE_UNIT;

verus! {

/// The virtual deadline of a task, between its critical path and its deadline.
///
/// With a deadline within the period, or a critical path beyond the period, it is the
/// deadline. Otherwise it depends on the ratio of period to deadline: up to
/// `(sqrt(3) - 1) / 2` the deadline, up to one half twice the period, up to
/// `sqrt(2) / 2` the deadline, beyond that the period. The two irrational bounds are
/// compared by squaring.
pub open spec fn virtual_deadline_of(period: int, deadline: int, critical_path: int) -> int {
    if period >= deadline || critical_path > period {
        deadline
    } else if (2 * period + deadline) * (2 * period + deadline) <= 3 * (deadline * deadline) {
        deadline
    } else if 2 * period <= deadline {
        2 * period
    } else if 2 * (period * period) <= deadline * deadline {
        deadline
    } else {
        period
    }
}

/// Picks the virtual deadline.
pub fn virtual_deadline(period: u64, deadline: u64, critical_path: u64) -> (d_star: u64)
    ensures
        d_star == virtual_deadline_of(period as int, deadline as int, critical_path as int),
{
    if period >= deadline || critical_path > period {
        return deadline;
    }
    let t: u128 = period as u128;
    let d: u128 = deadline as u128;
    proof {
        lemma_squares(period as int, deadline as int);
    }
    let half: u128 = d * d / 2;
    if 2 * t <= d {
        if t * (t + d) <= half {
            deadline
        } else {
            2 * period
        }
    } else if t * t <= half {
        deadline
    } else {
        period
    }
}

/// The comparisons of [`virtual_deadline`] in terms of half the squared deadline.
proof fn lemma_squares(t: int, d: int)
    requires
        0 <= t < d <= u64::MAX,
    ensures
        0 <= d * d <= u128::MAX,
        0 <= t * t <= u128::MAX,
        2 * t <= d ==> 0 <= t * (t + d) <= u128::MAX,
        2 * t <= d ==> ((2 * t + d) * (2 * t + d) <= 3 * (d * d) <==> t * (t + d) <= d * d / 2),
        2 * t > d ==> (2 * t + d) * (2 * t + d) > 3 * (d * d),
        2 * (t * t) <= d * d <==> t * t <= d * d / 2,
{
    let m = u64::MAX as int;
    assert(0 <= d * d <= m * m) by (nonlinear_arith)
        requires
            0 <= d <= m,
    ;
    assert(0 <= t * t <= m * m) by (nonlinear_arith)
        requires
            0 <= t <= m,
    ;
    assert(m * m <= u128::MAX) by (nonlinear_arith)
        requires
            m == 0xFFFF_FFFF_FFFF_FFFF,
    ;
    assert((2 * t + d) * (2 * t + d) == 4 * (t * t) + 4 * (t * d) + d * d) by (nonlinear_arith);
    assert(t * (t + d) == t * t + t * d) by (nonlinear_arith);
    if 2 * t <= d {
        assert(0 <= t * (t + d) && t * (t + d) <= d * d) by (nonlinear_arith)
            requires
                0 <= t,
                2 * t <= d,
        ;
    } else {
        assert(4 * (t * t) > d * d) by (nonlinear_arith)
            requires
                2 * t > d,
                0 <= d,
        ;
        assert(4 * (t * d) >= 2 * (d * d)) by (nonlinear_arith)
            requires
                2 * t > d,
                0 <= d,
        ;
    }
}

/// The virtual deadline lies between the critical path and the deadline.
pub proof fn lemma_virtual_deadline_range(period: int, deadline: int, critical_path: int)
    requires
        0 <= period,
        0 <= critical_path <= deadline,
    ensures
        critical_path <= virtual_deadline_of(period, deadline, critical_path) <= deadline,
{
}

/// `index` put into a list of places, behind all segments of at most its concurrency.
pub open spec fn inserted_by_concurrency(
    segments: Seq<Segment>,
    order: Seq<usize>,
    index: usize,
) -> Seq<usize>
    decreases order.len(),
{
    if order.len() == 0 || segments[order.last() as int].concurrency
        <= segments[index as int].concurrency {
        order.push(index)
    } else {
        inserted_by_concurrency(segments, order.drop_last(), index).push(order.last())
    }
}

/// The places of the first `m` segments by ascending concurrency; equal ones stay in
/// the order of time.
pub open spec fn by_concurrency(segments: Seq<Segment>, m: int) -> Seq<usize>
    decreases m,
{
    if m <= 0 {
        Seq::empty()
    } else {
        inserted_by_concurrency(segments, by_concurrency(segments, m - 1), (m - 1) as usize)
    }
}

/// Peeling off light segments from place `k` of the order on: while the remaining work
/// exceeds what the remaining time can hold at the next segment's concurrency, that
/// segment is light and leaves. What remains, and how many segments were peeled off;
/// none if nothing remains.
pub open spec fn peeled(
    segments: Seq<Segment>,
    order: Seq<usize>,
    work: int,
    time: int,
    k: int,
) -> Option<(int, int, int)>
    decreases order.len() - k,
{
    if k >= order.len() || work <= 0 || time <= 0 {
        None
    } else {
        let segment = segments[order[k] as int];
        if work > time * segment.concurrency {
            peeled(
                segments,
                order,
                work - segment.duration * segment.concurrency,
                time - segment.duration,
                k + 1,
            )
        } else {
            Some((work, time, k))
        }
    }
}

/// The split of a task's segments: the work and the time of the heavy ones, and how
/// many light ones there are.
pub open spec fn heavy_split(segments: Seq<Segment>, volume: int, d_star: int) -> Option<
    (int, int, int),
> {
    peeled(segments, by_concurrency(segments, segments.len() as int), volume, d_star, 0)
}

fn insert_place(segments: &[Segment], order: &mut Vec<usize>, index: usize)
    requires
        index < segments@.len(),
        forall|k: int| 0 <= k < old(order)@.len() ==> (#[trigger] old(order)@[k])
            < segments@.len(),
    ensures
        final(order)@ == inserted_by_concurrency(segments@, old(order)@, index),
{
    let ghost before = order@;
    let mut at: usize = order.len();
    assert(before.take(at as int) =~= before);
    assert(inserted_by_concurrency(segments@, before, index) =~= inserted_by_concurrency(
        segments@,
        before.take(at as int),
        index,
    ) + before.skip(at as int));
    while at > 0 && segments[order[at - 1]].concurrency > segments[index].concurrency
        invariant
            at <= order@.len(),
            index < segments@.len(),
            before == order@,
            forall|k: int| 0 <= k < order@.len() ==> (#[trigger] order@[k]) < segments@.len(),
            inserted_by_concurrency(segments@, before, index) == inserted_by_concurrency(
                segments@,
                before.take(at as int),
                index,
            ) + before.skip(at as int),
        decreases at,
    {
        proof {
            let shorter = before.take(at as int);
            assert(shorter.drop_last() =~= before.take(at - 1));
            assert(inserted_by_concurrency(segments@, shorter, index) + before.skip(at as int)
                =~= inserted_by_concurrency(segments@, before.take(at - 1), index) + before.skip(
                at - 1,
            ));
        }
        at = at - 1;
    }
    order.insert(at, index);
    assert(order@ =~= before.take(at as int).push(index) + before.skip(at as int));
}

/// Each place below `m` once, by ascending concurrency.
pub open spec fn is_sorted_permutation(segments: Seq<Segment>, order: Seq<usize>, m: int) -> bool {
    &&& order.len() == m
    &&& order.no_duplicates()
    &&& forall|k: int| 0 <= k < order.len() ==> (#[trigger] order[k]) < m
    &&& forall|j: int, k: int|
        #![trigger order[j], order[k]]
        0 <= j < k < order.len() ==> segments[order[j] as int].concurrency
            <= segments[order[k] as int].concurrency
}

proof fn lemma_inserted_by_concurrency(segments: Seq<Segment>, order: Seq<usize>, index: usize)
    requires
        order.no_duplicates(),
        forall|k: int| 0 <= k < order.len() ==> (#[trigger] order[k]) < index,
        forall|j: int, k: int|
            #![trigger order[j], order[k]]
            0 <= j < k < order.len() ==> segments[order[j] as int].concurrency
                <= segments[order[k] as int].concurrency,
    ensures
        ({
            let result = inserted_by_concurrency(segments, order, index);
            &&& result.len() == order.len() + 1
            &&& result.no_duplicates()
            &&& forall|k: int|
                0 <= k < result.len() ==> (#[trigger] result[k]) == index || order.contains(
                    result[k],
                )
            &&& forall|j: int, k: int|
                #![trigger result[j], result[k]]
                0 <= j < k < result.len() ==> segments[result[j] as int].concurrency
                    <= segments[result[k] as int].concurrency
        }),
    decreases order.len(),
{
    let result = inserted_by_concurrency(segments, order, index);
    if order.len() == 0 || segments[order.last() as int].concurrency
        <= segments[index as int].concurrency {
        assert forall|k: int| 0 <= k < result.len() implies (#[trigger] result[k]) == index
            || order.contains(result[k]) by {
            if k < order.len() {
                assert(order[k] == result[k]);
            }
        }
        assert forall|j: int, k: int|
            #![trigger result[j], result[k]]
            0 <= j < k < result.len() implies segments[result[j] as int].concurrency
            <= segments[result[k] as int].concurrency by {
            assert(order[j] == result[j]);
            if k < order.len() {
                assert(order[k] == result[k]);
            } else if j < order.len() - 1 {
                assert(segments[order[j] as int].concurrency <= segments[order[order.len()
                    - 1] as int].concurrency);
            }
        }
    } else {
        let rest = order.drop_last();
        let last = order.last();
        assert(last == order[order.len() - 1]);
        assert forall|j: int, k: int|
            #![trigger rest[j], rest[k]]
            0 <= j < k < rest.len() implies segments[rest[j] as int].concurrency
            <= segments[rest[k] as int].concurrency by {
            assert(order[j] == rest[j] && order[k] == rest[k]);
        }
        assert forall|k: int| 0 <= k < rest.len() implies (#[trigger] rest[k]) < index by {
            assert(order[k] == rest[k]);
        }
        lemma_inserted_by_concurrency(segments, rest, index);
        let front = inserted_by_concurrency(segments, rest, index);
        assert forall|k: int| 0 <= k < result.len() implies (#[trigger] result[k]) == index
            || order.contains(result[k]) by {
            if k < front.len() {
                assert(front[k] == result[k]);
                if front[k] != index {
                    let i = choose|i: int| 0 <= i < rest.len() && rest[i] == front[k];
                    assert(order[i] == front[k]);
                }
            }
        }
        assert forall|j: int| 0 <= j < front.len() implies (#[trigger] front[j]) != last
            && segments[front[j] as int].concurrency <= segments[last as int].concurrency by {
            if front[j] != index {
                let i = choose|i: int| 0 <= i < rest.len() && rest[i] == front[j];
                assert(order[i] == front[j]);
                assert(order[i] != order[order.len() - 1]);
            }
        }
        assert forall|j: int, k: int|
            #![trigger result[j], result[k]]
            0 <= j < k < result.len() implies segments[result[j] as int].concurrency
            <= segments[result[k] as int].concurrency by {
            assert(front[j] == result[j]);
            if k < front.len() {
                assert(front[k] == result[k]);
            }
        }
        assert(result.no_duplicates()) by {
            assert forall|j: int, k: int|
                0 <= j < result.len() && 0 <= k < result.len() && j != k implies result[j]
                != result[k] by {
                if j < front.len() {
                    assert(front[j] == result[j]);
                }
                if k < front.len() {
                    assert(front[k] == result[k]);
                }
            }
        }
    }
}

/// The order by concurrency holds each segment once, and is one.
pub proof fn lemma_by_concurrency(segments: Seq<Segment>, m: int)
    requires
        0 <= m <= segments.len() <= usize::MAX,
    ensures
        is_sorted_permutation(segments, by_concurrency(segments, m), m),
    decreases m,
{
    if m > 0 {
        lemma_by_concurrency(segments, m - 1);
        let rest = by_concurrency(segments, m - 1);
        let index = (m - 1) as usize;
        lemma_inserted_by_concurrency(segments, rest, index);
        let all = by_concurrency(segments, m);
        assert forall|k: int| 0 <= k < all.len() implies (#[trigger] all[k]) < m by {
            if all[k] != index {
                let i = choose|i: int| 0 <= i < rest.len() && rest[i] == all[k];
                assert(rest[i] < m - 1);
            }
        }
    }
}

fn sort_by_concurrency(segments: &[Segment]) -> (order: Vec<usize>)
    ensures
        order@ == by_concurrency(segments@, segments@.len() as int),
        is_sorted_permutation(segments@, order@, segments@.len() as int),
{
    let mut order: Vec<usize> = Vec::new();
    let mut i: usize = 0;
    while i < segments.len()
        invariant
            i <= segments@.len(),
            order@ == by_concurrency(segments@, i as int),
        decreases segments@.len() - i,
    {
        proof {
            lemma_by_concurrency(segments@, i as int);
        }
        insert_place(segments, &mut order, i);
        i = i + 1;
    }
    proof {
        lemma_by_concurrency(segments@, segments@.len() as int);
    }
    order
}

/// The heavy part of a split, with the order it was made in.
struct Split {
    order: Vec<usize>,
    work: u64,
    time: u64,
    light: usize,
}

fn split_segments(segments: &[Segment], volume: u64, virtual_deadline: u64) -> (split: Option<Split>)
    ensures
        match heavy_split(segments@, volume as int, virtual_deadline as int) {
            None => split is None,
            Some((work, time, light)) => {
                &&& split matches Some(s)
                &&& s.work == work
                &&& s.time == time
                &&& s.light == light
                &&& s.order@ == by_concurrency(segments@, segments@.len() as int)
                &&& is_sorted_permutation(segments@, s.order@, segments@.len() as int)
            },
        },
{
    let order = sort_by_concurrency(segments);
    let mut work: u64 = volume;
    let mut time: u64 = virtual_deadline;
    let mut k: usize = 0;
    while k < order.len()
        invariant
            k <= order@.len(),
            order@ == by_concurrency(segments@, segments@.len() as int),
            is_sorted_permutation(segments@, order@, segments@.len() as int),
            heavy_split(segments@, volume as int, virtual_deadline as int) == peeled(
                segments@,
                order@,
                work as int,
                time as int,
                k as int,
            ),
        decreases order@.len() - k,
    {
        if work == 0 || time == 0 {
            return None;
        }
        let segment = segments[order[k]];
        proof {
            lemma_small_product(time, segment.concurrency);
            lemma_small_product(segment.duration, segment.concurrency);
        }
        let room: u128 = time as u128 * segment.concurrency as u128;
        if work as u128 <= room {
            return Some(Split { order, work, time, light: k });
        }
        let gone: u128 = segment.duration as u128 * segment.concurrency as u128;
        if gone >= work as u128 || segment.duration >= time {
            assert(peeled(
                segments@,
                order@,
                work - gone,
                time - segment.duration,
                k + 1,
            ) is None);
            return None;
        }
        work = work - gone as u64;
        time = time - segment.duration;
        k = k + 1;
    }
    None
}

proof fn lemma_small_product(a: u64, b: u32)
    ensures
        0 <= a * b <= MAX_SEGMENT_WORK,
{
    assert(0 <= a * b <= 0xFFFF_FFFF_FFFF_FFFF * 0xFFFF_FFFF) by (nonlinear_arith)
        requires
            0 <= a <= 0xFFFF_FFFF_FFFF_FFFF,
            0 <= b <= 0xFFFF_FFFF,
    ;
}

/// The work and the time of a task's heavy segments. None if no heavy segment is left
/// or either would not be positive.
pub fn heavy_capacity_and_deadline(segments: &[Segment], volume: u64, virtual_deadline: u64) -> (heavy:
    Option<(u64, u64)>)
    ensures
        match heavy_split(segments@, volume as int, virtual_deadline as int) {
            None => heavy is None,
            Some((work, time, _)) => heavy matches Some(h) && h.0 == work && h.1 == time,
        },
{
    match split_segments(segments, volume, virtual_deadline) {
        None => None,
        Some(split) => Some((split.work, split.time)),
    }
}

/// A length of time in terms of a task's heavy segments: `whole` time units, and the
/// time that `work` units of heavy work take when all the heavy work is spread evenly
/// over all the heavy time.
#[derive(Debug, Clone, Copy, PartialEq, Eq, Structural)]
pub struct FluidTime {
    pub whole: u128,
    pub work: u128,
}

impl FluidTime {
    /// The length in fractions of one time unit, of which `heavy_capacity` make up one.
    pub open spec fn parts(self, heavy_capacity: int, heavy_deadline: int) -> int {
        self.whole * heavy_capacity + self.work * heavy_deadline
    }
}

/// The rate at which each thread of a segment runs, as a fraction of one processor.
#[derive(Debug, Clone, Copy, PartialEq, Eq, Structural)]
pub struct SegmentRate {
    pub numerator: u64,
    pub denominator: u128,
}

impl SegmentRate {
    /// A fraction of at most one processor, within the range of those of segments.
    pub open spec fn wf(self) -> bool {
        0 < self.denominator <= MAX_SEGMENT_WORK && self.numerator <= self.denominator
    }

    /// Tells whether the rate is a fraction of at most one processor, within the range of
    /// those of segments.
    pub fn is_in_range(&self) -> (in_range: bool)
        ensures
            in_range == self.wf(),
    {
        0 < self.denominator && self.denominator <= MAX_SEGMENT_WORK && self.numerator as u128
            <= self.denominator
    }

    /// The rate in parts of a processor, of which [`RATE_UNIT`] make up one, to the nearest.
    pub open spec fn parts(self) -> int {
        (2 * (self.numerator * RATE_UNIT) + self.denominator) / (2 * self.denominator)
    }

    /// Rounds the rate to whole parts of a processor.
    pub fn on_grid(&self) -> (parts: u64)
        requires
            self.wf(),
        ensures
            parts == self.parts(),
            parts <= RATE_UNIT,
    {
        proof {
            let (n, d) = (self.numerator as int, self.denominator as int);
            assert(2 * (n * RATE_UNIT) + d <= 2 * 0xFFFF_FFFF_FFFF_FFFF * RATE_UNIT
                + MAX_SEGMENT_WORK);
            assert(2 * (n * RATE_UNIT) + d < (2 * d) * (RATE_UNIT + 1)) by (nonlinear_arith)
                requires
                    0 <= n <= d,
                    0 < d,
            ;
            vstd::arithmetic::div_mod::lemma_multiply_divide_lt(
                2 * (n * RATE_UNIT) + d,
                2 * d,
                RATE_UNIT + 1,
            );
        }
        let doubled: u128 = 2 * (self.numerator as u128 * RATE_UNIT as u128) + self.denominator;
        (doubled / (2 * self.denominator)) as u64
    }
}

/// One segment with its own relative deadline and rate.
#[derive(Debug, Clone, Copy, PartialEq, Eq, Structural)]
pub struct SegmentSchedule {
    pub duration: u64,
    pub concurrency: u32,
    /// For a light segment its duration, so that it runs at full rate; for a heavy one
    /// its share of the heavy time, by its share of the heavy work.
    pub relative_deadline: FluidTime,
    /// The duration over the relative deadline: one for a light segment; for a heavy one
    /// the heavy work over the heavy time, spread over its threads.
    pub rate: SegmentRate,
}

/// The segments of a task with their relative deadlines, in the order of time.
pub struct FluidSchedule {
    /// The work of the heavy segments.
    pub heavy_capacity: u64,
    /// The time of the heavy segments.
    pub heavy_deadline: u64,
    pub segments: Vec<SegmentSchedule>,
}

/// A segment with its relative deadline and rate, where the heavy segments have `work` to do
/// in `time`.
pub open spec fn scheduled(segment: Segment, light: bool, work: int, time: int) -> SegmentSchedule {
    SegmentSchedule {
        duration: segment.duration,
        concurrency: segment.concurrency,
        relative_deadline: if light {
            FluidTime { whole: segment.duration as u128, work: 0 }
        } else {
            FluidTime { whole: 0, work: (segment.duration * segment.concurrency) as u128 }
        },
        rate: if light {
            SegmentRate { numerator: 1, denominator: 1 }
        } else {
            SegmentRate {
                numerator: work as u64,
                denominator: (time * segment.concurrency) as u128,
            }
        },
    }
}

/// Which segments are light: the first `count` by concurrency.
pub open spec fn light_flags(segments: Seq<Segment>, count: int) -> Seq<bool> {
    Seq::new(
        segments.len(),
        |i: int| by_concurrency(segments, segments.len() as int).take(count).contains(i as usize),
    )
}

/// Every segment with its relative deadline and rate; the first `count` by concurrency are
/// light.
pub open spec fn schedule_of(
    segments: Seq<Segment>,
    count: int,
    work: int,
    time: int,
) -> Seq<SegmentSchedule> {
    Seq::new(
        segments.len(),
        |i: int| scheduled(segments[i], light_flags(segments, count)[i], work, time),
    )
}

/// Every rate is a fraction of at most one processor.
pub open spec fn rates_in_range(schedule: Seq<SegmentSchedule>) -> bool {
    forall|i: int| 0 <= i < schedule.len() ==> (#[trigger] schedule[i]).rate.wf()
}

/// Gives every segment of a task its own relative deadline and rate. None where
/// [`heavy_capacity_and_deadline`] is.
pub fn assign_segment_deadlines(segments: &[Segment], volume: u64, virtual_deadline: u64) -> (schedule:
    Option<FluidSchedule>)
    ensures
        match heavy_split(segments@, volume as int, virtual_deadline as int) {
            None => schedule is None,
            Some((work, time, light)) => {
                &&& schedule matches Some(s)
                &&& s.heavy_capacity == work
                &&& s.heavy_deadline == time
                &&& s.segments@ == schedule_of(segments@, light, work, time)
                &&& deadlines_in_range(s.segments@)
                &&& rates_in_range(s.segments@)
            },
        },
{
    let split = match split_segments(segments, volume, virtual_deadline) {
        None => {
            return None;
        },
        Some(split) => split,
    };
    let n: usize = segments.len();
    let mut light: Vec<bool> = Vec::new();
    let mut i: usize = 0;
    while i < n
        invariant
            i <= n,
            light@ == Seq::new(i as nat, |k: int| false),
        decreases n - i,
    {
        light.push(false);
        i = i + 1;
        assert(light@ =~= Seq::new(i as nat, |k: int| false));
    }
    proof {
        lemma_peeled(
            segments@,
            split.order@,
            volume as int,
            virtual_deadline as int,
            0,
        );
    }
    let mut k: usize = 0;
    assert(split.order@.take(0) =~= Seq::<usize>::empty());
    assert(light@ =~= light_flags(segments@, 0));
    while k < split.light
        invariant
            k <= split.light <= n,
            n == segments@.len(),
            split.order@ == by_concurrency(segments@, n as int),
            is_sorted_permutation(segments@, split.order@, n as int),
            light@ == light_flags(segments@, k as int),
        decreases split.light - k,
    {
        let place: usize = split.order[k];
        light.set(place, true);
        proof {
            assert(split.order@.take(k + 1) =~= split.order@.take(k as int).push(place));
            assert forall|j: int| 0 <= j < n implies #[trigger] light@[j] == light_flags(
                segments@,
                k + 1,
            )[j] by {
                super::topology::lemma_push_contains_one(
                    split.order@.take(k as int),
                    place,
                    j as usize,
                );
            }
            assert(light@ =~= light_flags(segments@, k + 1));
        }
        k = k + 1;
    }
    let mut out: Vec<SegmentSchedule> = Vec::new();
    let mut j: usize = 0;
    while j < n
        invariant
            j <= n,
            n == segments@.len(),
            light@ == light_flags(segments@, split.light as int),
            out@ == schedule_of(
                segments@,
                split.light as int,
                split.work as int,
                split.time as int,
            ).take(j as int),
        decreases n - j,
    {
        let segment = segments[j];
        proof {
            lemma_small_product(segment.duration, segment.concurrency);
            lemma_small_product(split.time, segment.concurrency);
        }
        let rate = if light[j] {
            SegmentRate { numerator: 1, denominator: 1 }
        } else {
            SegmentRate {
                numerator: split.work,
                denominator: split.time as u128 * segment.concurrency as u128,
            }
        };
        let relative_deadline = if light[j] {
            FluidTime { whole: segment.duration as u128, work: 0 }
        } else {
            FluidTime {
                whole: 0,
                work: segment.duration as u128 * segment.concurrency as u128,
            }
        };
        out.push(
            SegmentSchedule {
                duration: segment.duration,
                concurrency: segment.concurrency,
                relative_deadline,
                rate,
            },
        );
        j = j + 1;
        assert(out@ =~= schedule_of(
                segments@,
                split.light as int,
                split.work as int,
                split.time as int,
            ).take(j as int));
    }
    proof {
        assert(out@ =~= schedule_of(
                segments@,
                split.light as int,
                split.work as int,
                split.time as int,
            ));
        assert forall|i: int| 0 <= i < out@.len() implies (
        #[trigger] out@[i]).relative_deadline.whole <= u64::MAX && out@[i].relative_deadline.work
            <= MAX_SEGMENT_WORK && out@[i].rate.wf() by {
            lemma_small_product(segments@[i].duration, segments@[i].concurrency);
            lemma_small_product(split.time, segments@[i].concurrency);
            lemma_rate_at_most_one(segments@, volume as int, virtual_deadline as int, i);
        }
    }
    Some(
        FluidSchedule { heavy_capacity: split.work, heavy_deadline: split.time, segments: out },
    )
}

/// The sum of the relative deadlines of the first `m` segments.
pub open spec fn offset_before(schedule: Seq<SegmentSchedule>, m: int) -> (int, int)
    decreases m,
{
    if m <= 0 {
        (0, 0)
    } else {
        let (whole, work) = offset_before(schedule, m - 1);
        let deadline = schedule[m - 1].relative_deadline;
        (whole + deadline.whole, work + deadline.work)
    }
}

/// The most work that one segment can hold.
pub const MAX_SEGMENT_WORK: u128 = 79_228_162_495_817_593_515_539_431_425;

/// Every relative deadline is within the range of those of segments.
pub open spec fn deadlines_in_range(schedule: Seq<SegmentSchedule>) -> bool {
    forall|i: int|
        0 <= i < schedule.len() ==> (#[trigger] schedule[i]).relative_deadline.whole <= u64::MAX
            && schedule[i].relative_deadline.work <= MAX_SEGMENT_WORK
}

/// When each segment is released, relative to the task's release: once the relative
/// deadlines of all segments before it have passed.
pub fn segment_release_offsets(schedule: &[SegmentSchedule]) -> (offsets: Vec<FluidTime>)
    requires
        deadlines_in_range(schedule@),
        schedule@.len() <= u32::MAX,
    ensures
        offsets@.len() == schedule@.len(),
        forall|i: int|
            0 <= i < offsets@.len() ==> (#[trigger] offsets@[i]).whole == offset_before(
                schedule@,
                i,
            ).0 && offsets@[i].work == offset_before(schedule@, i).1,
{
    let mut offsets: Vec<FluidTime> = Vec::new();
    let mut whole: u128 = 0;
    let mut work: u128 = 0;
    let mut i: usize = 0;
    while i < schedule.len()
        invariant
            i <= schedule@.len() <= u32::MAX,
            deadlines_in_range(schedule@),
            offsets@.len() == i,
            forall|k: int|
                0 <= k < i ==> (#[trigger] offsets@[k]).whole == offset_before(schedule@, k).0
                    && offsets@[k].work == offset_before(schedule@, k).1,
            whole == offset_before(schedule@, i as int).0,
            work == offset_before(schedule@, i as int).1,
            whole <= i * 0xFFFF_FFFF_FFFF_FFFF,
            work <= i * MAX_SEGMENT_WORK,
        decreases schedule@.len() - i,
    {
        offsets.push(FluidTime { whole, work });
        let deadline = schedule[i].relative_deadline;
        assert(deadline == schedule@[i as int].relative_deadline);
        assert((i + 1) * MAX_SEGMENT_WORK == i * MAX_SEGMENT_WORK + MAX_SEGMENT_WORK);
        assert((i + 1) * MAX_SEGMENT_WORK <= u128::MAX);
        if i + 1 < schedule.len() {
            whole = whole + deadline.whole;
            work = work + deadline.work;
            i = i + 1;
        } else {
            return offsets;
        }
    }
    offsets
}

/// What a split satisfies: positive remainders, and a first heavy segment at whose
/// concurrency the remaining time holds the remaining work.
proof fn lemma_peeled(segments: Seq<Segment>, order: Seq<usize>, work: int, time: int, k: int)
    requires
        0 <= k,
    ensures
        match peeled(segments, order, work, time, k) {
            None => true,
            Some((w, t, light)) => {
                &&& 0 < w
                &&& 0 < t
                &&& k <= light < order.len()
                &&& w <= t * segments[order[light] as int].concurrency
            },
        },
    decreases order.len() - k,
{
    if k < order.len() && work > 0 && time > 0 {
        let segment = segments[order[k] as int];
        if work > time * segment.concurrency {
            lemma_peeled(
                segments,
                order,
                work - segment.duration * segment.concurrency,
                time - segment.duration,
                k + 1,
            );
        }
    }
}

/// The work of the segments from place `k` of an order on.
spec fn rest_work(segments: Seq<Segment>, order: Seq<usize>, k: int) -> int
    decreases order.len() - k,
{
    if k >= order.len() {
        0
    } else {
        let segment = segments[order[k] as int];
        segment.duration * segment.concurrency + rest_work(segments, order, k + 1)
    }
}

/// The duration of the segments from place `k` of an order on.
spec fn rest_time(segments: Seq<Segment>, order: Seq<usize>, k: int) -> int
    decreases order.len() - k,
{
    if k >= order.len() {
        0
    } else {
        segments[order[k] as int].duration + rest_time(segments, order, k + 1)
    }
}

/// Every segment lasts and has a node running.
pub open spec fn all_positive(segments: Seq<Segment>) -> bool {
    forall|i: int|
        0 <= i < segments.len() ==> (#[trigger] segments[i]).duration > 0
            && segments[i].concurrency > 0
}

proof fn lemma_rest_positive(segments: Seq<Segment>, order: Seq<usize>, k: int)
    requires
        all_positive(segments),
        forall|i: int| 0 <= i < order.len() ==> (#[trigger] order[i]) < segments.len(),
        0 <= k <= order.len(),
    ensures
        0 <= rest_work(segments, order, k),
        0 <= rest_time(segments, order, k),
        k < order.len() ==> 0 < rest_work(segments, order, k) && 0 < rest_time(
            segments,
            order,
            k,
        ),
    decreases order.len() - k,
{
    if k < order.len() {
        lemma_rest_positive(segments, order, k + 1);
        let segment = segments[order[k] as int];
        assert(segment.duration * segment.concurrency > 0) by (nonlinear_arith)
            requires
                segment.duration > 0,
                segment.concurrency > 0,
        ;
    }
}

proof fn lemma_peeled_exists(
    segments: Seq<Segment>,
    order: Seq<usize>,
    work: int,
    time: int,
    k: int,
)
    requires
        all_positive(segments),
        forall|i: int| 0 <= i < order.len() ==> (#[trigger] order[i]) < segments.len(),
        0 <= k < order.len(),
        work == rest_work(segments, order, k),
        time >= rest_time(segments, order, k),
    ensures
        peeled(segments, order, work, time, k) is Some,
    decreases order.len() - k,
{
    lemma_rest_positive(segments, order, k);
    let segment = segments[order[k] as int];
    if work > time * segment.concurrency {
        if k + 1 < order.len() {
            lemma_peeled_exists(
                segments,
                order,
                work - segment.duration * segment.concurrency,
                time - segment.duration,
                k + 1,
            );
        } else {
            assert(rest_work(segments, order, k + 1) == 0);
            assert(rest_time(segments, order, k + 1) == 0);
            assert(segment.duration * segment.concurrency <= time * segment.concurrency)
                by (nonlinear_arith)
                requires
                    segment.duration <= time,
            ;
        }
    }
}

/// The sum of the durations of the first `m` segments that are flagged.
spec fn flagged_time(segments: Seq<Segment>, flags: Seq<bool>, m: int) -> int
    decreases m,
{
    if m <= 0 {
        0
    } else {
        flagged_time(segments, flags, m - 1) + if flags[m - 1] {
            segments[m - 1].duration as int
        } else {
            0
        }
    }
}

/// The sum of the work of the first `m` segments that are flagged.
spec fn flagged_work(segments: Seq<Segment>, flags: Seq<bool>, m: int) -> int
    decreases m,
{
    if m <= 0 {
        0
    } else {
        flagged_work(segments, flags, m - 1) + if flags[m - 1] {
            segments[m - 1].duration * segments[m - 1].concurrency
        } else {
            0
        }
    }
}

proof fn lemma_flagged_update(segments: Seq<Segment>, flags: Seq<bool>, m: int, i: int)
    requires
        0 <= m <= segments.len(),
        flags.len() == segments.len(),
        0 <= i < segments.len(),
        !flags[i],
    ensures
        flagged_time(segments, flags.update(i, true), m) == flagged_time(segments, flags, m) + if i
            < m {
            segments[i].duration as int
        } else {
            0
        },
        flagged_work(segments, flags.update(i, true), m) == flagged_work(segments, flags, m) + if i
            < m {
            segments[i].duration * segments[i].concurrency
        } else {
            0
        },
    decreases m,
{
    if m > 0 {
        lemma_flagged_update(segments, flags, m - 1, i);
    }
}

proof fn lemma_flagged_none(segments: Seq<Segment>, flags: Seq<bool>, m: int)
    requires
        0 <= m <= segments.len() == flags.len(),
        forall|i: int| 0 <= i < flags.len() ==> !#[trigger] flags[i],
    ensures
        flagged_time(segments, flags, m) == 0,
        flagged_work(segments, flags, m) == 0,
    decreases m,
{
    if m > 0 {
        lemma_flagged_none(segments, flags, m - 1);
    }
}

proof fn lemma_flagged_all(segments: Seq<Segment>, flags: Seq<bool>, m: int)
    requires
        0 <= m <= segments.len() == flags.len(),
        forall|i: int| 0 <= i < flags.len() ==> #[trigger] flags[i],
    ensures
        flagged_time(segments, flags, m) == total_duration(segments.take(m)),
        flagged_work(segments, flags, m) == total_segment_work(segments.take(m)),
    decreases m,
{
    if m > 0 {
        lemma_flagged_all(segments, flags, m - 1);
        assert(segments.take(m).drop_last() =~= segments.take(m - 1));
    }
}

/// One more segment of the order is flagged.
proof fn lemma_light_flags_step(segments: Seq<Segment>, k: int)
    requires
        0 <= k < segments.len() <= usize::MAX,
    ensures
        ({
            let n = segments.len() as int;
            let place = by_concurrency(segments, n)[k] as int;
            &&& 0 <= place < n
            &&& !light_flags(segments, k)[place]
            &&& light_flags(segments, k + 1) == light_flags(segments, k).update(place, true)
        }),
{
    let n = segments.len() as int;
    let order = by_concurrency(segments, n);
    lemma_by_concurrency(segments, n);
    let place = order[k];
    let taken = order.take(k);
    assert(!taken.contains(place)) by {
        if taken.contains(place) {
            let j = choose|j: int| 0 <= j < taken.len() && taken[j] == place;
            assert(order[j] == order[k]);
        }
    }
    assert(order.take(k + 1) =~= taken.push(place));
    assert forall|j: int| 0 <= j < n implies #[trigger] light_flags(segments, k + 1)[j]
        == light_flags(segments, k).update(place as int, true)[j] by {
        super::topology::lemma_push_contains_one(taken, place, j as usize);
    }
    assert(light_flags(segments, k + 1) =~= light_flags(segments, k).update(place as int, true));
}

/// What is flagged and what is left of the order add up to everything.
proof fn lemma_flags_and_rest(segments: Seq<Segment>, k: int)
    requires
        0 <= k <= segments.len() <= usize::MAX,
    ensures
        ({
            let n = segments.len() as int;
            let order = by_concurrency(segments, n);
            let flags = light_flags(segments, k);
            &&& flagged_time(segments, flags, n) + rest_time(segments, order, k)
                == total_duration(segments)
            &&& flagged_work(segments, flags, n) + rest_work(segments, order, k)
                == total_segment_work(segments)
        }),
    decreases segments.len() - k,
{
    let n = segments.len() as int;
    let order = by_concurrency(segments, n);
    lemma_by_concurrency(segments, n);
    if k == n {
        let flags = light_flags(segments, n);
        assert(order.take(n) =~= order);
        assert forall|i: int| 0 <= i < flags.len() implies #[trigger] flags[i] by {
            lemma_permutation_covers(segments, order, n, i as usize);
        }
        lemma_flagged_all(segments, flags, n);
        assert(segments.take(n) =~= segments);
    } else {
        lemma_flags_and_rest(segments, k + 1);
        lemma_light_flags_step(segments, k);
        lemma_flagged_update(segments, light_flags(segments, k), n, order[k] as int);
    }
}

/// A list of `n` distinct numbers below `n` holds each of them.
proof fn lemma_permutation_covers(segments: Seq<Segment>, order: Seq<usize>, n: int, i: usize)
    requires
        is_sorted_permutation(segments, order, n),
        i < n,
    ensures
        order.contains(i),
{
    if !order.contains(i) {
        let longer = order.push(i);
        assert(longer.no_duplicates()) by {
            assert forall|a: int, b: int|
                0 <= a < longer.len() && 0 <= b < longer.len() && a != b implies longer[a]
                != longer[b] by {
                if a < order.len() {
                    assert(order.contains(order[a]));
                }
                if b < order.len() {
                    assert(order.contains(order[b]));
                }
            }
        }
        super::topology::lemma_listed_at_most(longer, n);
    }
}

proof fn lemma_peeled_sums(segments: Seq<Segment>, work: int, time: int, k: int)
    requires
        0 <= k <= segments.len() <= usize::MAX,
    ensures
        ({
            let n = segments.len() as int;
            let order = by_concurrency(segments, n);
            match peeled(segments, order, work, time, k) {
                None => true,
                Some((w, t, light)) => {
                    let before = light_flags(segments, k);
                    let after = light_flags(segments, light);
                    &&& w == work - (flagged_work(segments, after, n) - flagged_work(
                        segments,
                        before,
                        n,
                    ))
                    &&& t == time - (flagged_time(segments, after, n) - flagged_time(
                        segments,
                        before,
                        n,
                    ))
                },
            }
        }),
    decreases segments.len() - k,
{
    let n = segments.len() as int;
    let order = by_concurrency(segments, n);
    lemma_by_concurrency(segments, n);
    if k < order.len() && work > 0 && time > 0 {
        let segment = segments[order[k] as int];
        if work > time * segment.concurrency {
            lemma_peeled_sums(
                segments,
                work - segment.duration * segment.concurrency,
                time - segment.duration,
                k + 1,
            );
            lemma_light_flags_step(segments, k);
            lemma_flagged_update(segments, light_flags(segments, k), n, order[k] as int);
        }
    }
}

/// A task whose segments hold all of its volume within its virtual deadline always has
/// a heavy segment.
pub proof fn lemma_heavy_segment_exists(segments: Seq<Segment>, volume: int, d_star: int)
    requires
        0 < segments.len() <= usize::MAX,
        all_positive(segments),
        total_segment_work(segments) == volume,
        total_duration(segments) <= d_star,
    ensures
        heavy_split(segments, volume, d_star) is Some,
{
    let n = segments.len() as int;
    let order = by_concurrency(segments, n);
    lemma_by_concurrency(segments, n);
    lemma_flags_and_rest(segments, 0);
    assert(order.take(0) =~= Seq::<usize>::empty());
    assert forall|i: int| 0 <= i < n implies !#[trigger] light_flags(segments, 0)[i] by {
        assert(!order.take(0).contains(i as usize));
    }
    lemma_flagged_none(segments, light_flags(segments, 0), n);
    lemma_peeled_exists(segments, order, volume, d_star, 0);
}

/// The sum of the relative deadlines is the virtual deadline, if the segments hold all
/// of the task's volume.
pub proof fn lemma_deadlines_add_up(segments: Seq<Segment>, volume: int, d_star: int)
    requires
        segments.len() <= usize::MAX,
        total_segment_work(segments) == volume,
        heavy_split(segments, volume, d_star) is Some,
    ensures
        ({
            let (work, time, light) = heavy_split(segments, volume, d_star)->0;
            let (sum_whole, sum_work) = offset_before(
                schedule_of(segments, light, work, time),
                segments.len() as int,
            );
            sum_whole * work + sum_work * time == d_star * work
        }),
{
    let n = segments.len() as int;
    let order = by_concurrency(segments, n);
    let (work, time, light) = heavy_split(segments, volume, d_star)->0;
    lemma_by_concurrency(segments, n);
    lemma_peeled(segments, order, volume, d_star, 0);
    lemma_peeled_sums(segments, volume, d_star, 0);
    assert(order.take(0) =~= Seq::<usize>::empty());
    assert forall|i: int| 0 <= i < n implies !#[trigger] light_flags(segments, 0)[i] by {
        assert(!order.take(0).contains(i as usize));
    }
    lemma_flagged_none(segments, light_flags(segments, 0), n);
    lemma_offset_sums(segments, light, work, time, n);
    let flags = light_flags(segments, light);
    let (sum_whole, sum_work) = offset_before(schedule_of(segments, light, work, time), n);
    assert(segments.take(n) =~= segments);
    assert(sum_whole == d_star - time);
    assert(sum_work == work);
    assert((d_star - time) * work + work * time == d_star * work) by (nonlinear_arith);
}

proof fn lemma_offset_sums(segments: Seq<Segment>, light: int, work: int, time: int, m: int)
    requires
        0 <= m <= segments.len(),
    ensures
        ({
            let flags = light_flags(segments, light);
            let (sum_whole, sum_work) = offset_before(schedule_of(segments, light, work, time), m);
            &&& sum_whole == flagged_time(segments, flags, m)
            &&& sum_work + flagged_work(segments, flags, m) == total_segment_work(
                segments.take(m),
            )
        }),
    decreases m,
{
    if m > 0 {
        lemma_offset_sums(segments, light, work, time, m - 1);
        assert(segments.take(m).drop_last() =~= segments.take(m - 1));
        lemma_small_product(segments[m - 1].duration, segments[m - 1].concurrency);
    } else {
        assert(segments.take(0) =~= Seq::<Segment>::empty());
    }
}

/// No segment has to run faster than a processor can: its relative deadline is at
/// least its duration, and its rate is at most one.
pub proof fn lemma_rate_at_most_one(segments: Seq<Segment>, volume: int, d_star: int, i: int)
    requires
        segments.len() <= usize::MAX,
        volume <= u64::MAX,
        d_star <= u64::MAX,
        heavy_split(segments, volume, d_star) is Some,
        0 <= i < segments.len(),
    ensures
        ({
            let (work, time, light) = heavy_split(segments, volume, d_star)->0;
            let entry = schedule_of(segments, light, work, time)[i];
            &&& entry.duration * work <= entry.relative_deadline.parts(work, time)
            &&& 0 < entry.rate.denominator
            &&& entry.rate.numerator <= entry.rate.denominator
        }),
{
    let n = segments.len() as int;
    let order = by_concurrency(segments, n);
    let (work, time, light) = heavy_split(segments, volume, d_star)->0;
    lemma_by_concurrency(segments, n);
    lemma_peeled(segments, order, volume, d_star, 0);
    let segment = segments[i];
    let entry = schedule_of(segments, light, work, time)[i];
    if light_flags(segments, light)[i] {
        assert(0 * time == 0);
    } else {
        lemma_permutation_covers(segments, order, n, i as usize);
        let k = choose|k: int| 0 <= k < order.len() && order[k] == i;
        assert(k >= light) by {
            if k < light {
                assert(order.take(light)[k] == i);
            }
        }
        let first = segments[order[light] as int].concurrency;
        let own = segment.concurrency;
        assert(first <= own) by {
            if light < k {
                assert(segments[order[light] as int].concurrency
                    <= segments[order[k] as int].concurrency);
            }
        }
        lemma_small_product(segment.duration, segment.concurrency);
        let l = segment.duration as int;
        assert(work <= time * own) by (nonlinear_arith)
            requires
                work <= time * first,
                first <= own,
                0 < time,
        ;
        lemma_peeled_at_most(segments, order, volume, d_star, 0);
        lemma_small_product(time as u64, own);
        assert(l * work <= (l * own) * time) by (nonlinear_arith)
            requires
                work <= time * own,
                0 <= l,
        ;
        assert(0 * work == 0);
    }
}

/// The rate of a segment is its duration over its relative deadline.
pub proof fn lemma_rate_is_duration_over_deadline(
    segments: Seq<Segment>,
    volume: int,
    d_star: int,
    i: int,
)
    requires
        segments.len() <= usize::MAX,
        volume <= u64::MAX,
        d_star <= u64::MAX,
        heavy_split(segments, volume, d_star) is Some,
        0 <= i < segments.len(),
    ensures
        ({
            let (work, time, light) = heavy_split(segments, volume, d_star)->0;
            let entry = schedule_of(segments, light, work, time)[i];
            entry.rate.numerator * entry.relative_deadline.parts(work, time) == (entry.duration
                * work) * entry.rate.denominator
        }),
{
    let n = segments.len() as int;
    let order = by_concurrency(segments, n);
    let (work, time, light) = heavy_split(segments, volume, d_star)->0;
    lemma_peeled(segments, order, volume, d_star, 0);
    lemma_peeled_at_most(segments, order, volume, d_star, 0);
    let segment = segments[i];
    lemma_small_product(segment.duration, segment.concurrency);
    lemma_small_product(time as u64, segment.concurrency);
    let l = segment.duration as int;
    let m = segment.concurrency as int;
    let entry = schedule_of(segments, light, work, time)[i];
    let parts = entry.relative_deadline.parts(work, time);
    if light_flags(segments, light)[i] {
        assert(0 * time == 0);
        assert(parts == l * work);
        assert(1 * parts == parts && (l * work) * 1 == l * work);
    } else {
        assert(0 * work == 0);
        assert(parts == (l * m) * time);
        assert(entry.rate.denominator == time * m);
        assert(work * ((l * m) * time) == (l * work) * (time * m)) by (nonlinear_arith);
    }
}

proof fn lemma_peeled_at_most(segments: Seq<Segment>, order: Seq<usize>, work: int, time: int, k: int)
    requires
        0 <= k,
    ensures
        peeled(segments, order, work, time, k) matches Some((w, t, _)) ==> w <= work && t <= time,
    decreases order.len() - k,
{
    if k < order.len() && work > 0 && time > 0 {
        let segment = segments[order[k] as int];
        if work > time * segment.concurrency {
            lemma_small_product(segment.duration, segment.concurrency);
            lemma_peeled_at_most(
                segments,
                order,
                work - segment.duration * segment.concurrency,
                time - segment.duration,
                k + 1,
            );
        }
    }
}

/// How much processor capacity a task needs: `jobs` jobs at a time, each of which does
/// `work` within `window`, so `jobs * work / window` processors.
#[derive(Debug, Clone, Copy, PartialEq, Eq, Structural)]
pub struct Capacity {
    pub jobs: u64,
    pub work: u64,
    pub window: u64,
}

/// How many cores a capacity takes up: the capacity rounded up, at most as many as can be
/// asked for.
pub open spec fn cores_for(capacity: Capacity) -> int {
    let demand = capacity.jobs * capacity.work;
    let cores = if demand == 0 {
        0
    } else if capacity.window == 0 {
        u16::MAX as int
    } else {
        ceil_div(demand, capacity.window as int)
    };
    if cores > u16::MAX {
        u16::MAX as int
    } else {
        cores
    }
}

/// The number of whole cores that a capacity takes up.
pub fn ceil_capacity_to_cores(capacity: Capacity) -> (cores: u16)
    ensures
        cores == cores_for(capacity),
{
    proof {
        assert(0 <= capacity.jobs * capacity.work <= u64::MAX * u64::MAX) by (nonlinear_arith)
            requires
                0 <= capacity.jobs <= u64::MAX,
                0 <= capacity.work <= u64::MAX,
        ;
    }
    let demand: u128 = capacity.jobs as u128 * capacity.work as u128;
    if demand == 0 {
        return 0;
    }
    if capacity.window == 0 {
        return u16::MAX;
    }
    let window: u128 = capacity.window as u128;
    proof {
        lemma_ceil_at_most(demand as int, window as int);
    }
    let cores: u128 = if demand % window == 0 {
        demand / window
    } else {
        demand / window + 1
    };
    if cores > 0xFFFF {
        u16::MAX
    } else {
        cores as u16
    }
}

/// [`required_capacity`] as a function. A task that fits sequentially into its virtual
/// deadline needs its volume over it; any other task its heavy work over its heavy
/// time. As many jobs are pending at a time as periods begin within the virtual
/// deadline.
pub open spec fn capacity_of(
    volume: u64,
    period: u64,
    critical_path: u64,
    deadline: u64,
    segments: Seq<Segment>,
) -> Option<Capacity> {
    let d_star = virtual_deadline_of(period as int, deadline as int, critical_path as int);
    let jobs = ceil_div(d_star, period as int) as u64;
    if critical_path > deadline {
        None
    } else if volume <= d_star {
        Some(Capacity { jobs, work: volume, window: d_star as u64 })
    } else {
        match heavy_split(segments, volume as int, d_star) {
            None => None,
            Some((work, time, _)) => Some(
                Capacity { jobs, work: work as u64, window: time as u64 },
            ),
        }
    }
}

/// The processor capacity that a task needs. None if its critical path exceeds its
/// deadline, or if it has no heavy segment although it needs one.
pub fn required_capacity(
    volume: u64,
    period: u64,
    critical_path: u64,
    deadline: u64,
    segments: &[Segment],
) -> (capacity: Option<Capacity>)
    requires
        period > 0 || critical_path > deadline,
    ensures
        capacity == capacity_of(volume, period, critical_path, deadline, segments@),
{
    if critical_path > deadline {
        return None;
    }
    let d_star: u64 = virtual_deadline(period, deadline, critical_path);
    proof {
        lemma_ceil_at_most(d_star as int, period as int);
    }
    let jobs: u64 = if d_star % period == 0 {
        d_star / period
    } else {
        d_star / period + 1
    };
    if volume <= d_star {
        return Some(Capacity { jobs, work: volume, window: d_star });
    }
    match heavy_capacity_and_deadline(segments, volume, d_star) {
        None => None,
        Some((work, time)) => Some(Capacity { jobs, work, window: time }),
    }
}

proof fn lemma_ceil_at_most(a: int, b: int)
    requires
        0 <= a,
        0 < b,
    ensures
        0 <= a / b,
        0 <= ceil_div(a, b) <= a,
{
    assert(0 <= a / b <= a && (a % b != 0 ==> a / b < a)) by (nonlinear_arith)
        requires
            0 <= a,
            0 < b,
    ;
}

/// A task of a batch: volume, period, critical path, deadline and segments.
pub type FluidTask<'a> = (u64, u64, u64, u64, &'a [Segment]);

/// The capacity of a task of a batch.
pub open spec fn task_capacity(task: FluidTask) -> Option<Capacity> {
    capacity_of(task.0, task.1, task.2, task.3, task.4@)
}

/// The sum of the capacities of the first `n` tasks, as a numerator and a denominator.
pub open spec fn capacity_sum(tasks: Seq<FluidTask>, n: int) -> (int, int)
    decreases n,
{
    if n <= 0 {
        (0, 1)
    } else {
        let (numerator, denominator) = capacity_sum(tasks, n - 1);
        let c = task_capacity(tasks[n - 1])->0;
        (numerator * c.window + denominator * c.jobs * c.work, denominator * c.window)
    }
}

/// Every one of the first `n` tasks has a capacity, over a window that is not empty.
pub open spec fn all_have_capacity(tasks: Seq<FluidTask>, n: int) -> bool {
    forall|i: int|
        0 <= i < n ==> (#[trigger] task_capacity(tasks[i]) matches Some(c) && c.window > 0)
}

/// A whole task set is feasible on `m` shared processors if every task has a capacity
/// and the capacities together are at most `m`.
pub open spec fn batch_feasible(tasks: Seq<FluidTask>, m: int) -> bool {
    let (numerator, denominator) = capacity_sum(tasks, tasks.len() as int);
    all_have_capacity(tasks, tasks.len() as int) && numerator <= m * denominator
}

/// Whether a whole task set is feasible on `m` shared processors.
pub fn is_batch_feasible(entries: &[FluidTask], m: u16) -> (feasible: bool)
    requires
        forall|i: int|
            0 <= i < entries@.len() ==> (#[trigger] entries@[i]).1 > 0 || entries@[i].2
                > entries@[i].3,
    ensures
        feasible == batch_feasible(entries@, m as int),
{
    let mut numerator = BigNat::from_u64(0);
    let mut denominator = BigNat::from_u64(1);
    let mut i: usize = 0;
    while i < entries.len()
        invariant
            i <= entries@.len(),
            forall|k: int|
                0 <= k < entries@.len() ==> (#[trigger] entries@[k]).1 > 0 || entries@[k].2
                    > entries@[k].3,
            numerator@ == capacity_sum(entries@, i as int).0,
            denominator@ == capacity_sum(entries@, i as int).1,
            all_have_capacity(entries@, i as int),
        decreases entries@.len() - i,
    {
        let (volume, period, critical_path, deadline, segments) = entries[i];
        assert(entries@[i as int].1 > 0 || entries@[i as int].2 > entries@[i as int].3);
        assert(task_capacity(entries@[i as int]) == capacity_of(
            volume,
            period,
            critical_path,
            deadline,
            segments@,
        ));
        match required_capacity(volume, period, critical_path, deadline, segments) {
            None => {
                return false;
            },
            Some(c) => {
                if c.window == 0 {
                    return false;
                }
                let scaled = numerator.times(c.window);
                let added = denominator.times(c.jobs).times(c.work);
                numerator = scaled.plus(&added);
                denominator = denominator.times(c.window);
            },
        }
        i = i + 1;
    }
    let limit = denominator.times(m as u64);
    assert(denominator@ * m == m * denominator@) by (nonlinear_arith);
    numerator.at_most(&limit)
}

/// Adding one more capacity to a sum.
pub open spec fn capacity_added(sum: (int, int), c: Capacity) -> (int, int) {
    (sum.0 * c.window + sum.1 * c.jobs * c.work, sum.1 * c.window)
}

proof fn lemma_capacities_commute(sum: (int, int), a: Capacity, b: Capacity)
    ensures
        capacity_added(capacity_added(sum, a), b) == capacity_added(capacity_added(sum, b), a),
{
    let (n, d) = sum;
    let (wa, ja, ka) = (a.window as int, a.jobs as int, a.work as int);
    let (wb, jb, kb) = (b.window as int, b.jobs as int, b.work as int);
    let pa = d * ja * ka;
    let pb = d * jb * kb;
    assert((n * wa + pa) * wb == n * wa * wb + pa * wb) by (nonlinear_arith);
    assert((n * wb + pb) * wa == n * wb * wa + pb * wa) by (nonlinear_arith);
    assert(n * wa * wb == n * wb * wa) by (nonlinear_arith);
    assert((d * wb) * ja * ka == pa * wb) by (nonlinear_arith)
        requires
            pa == d * ja * ka,
    ;
    assert((d * wa) * jb * kb == pb * wa) by (nonlinear_arith)
        requires
            pb == d * jb * kb,
    ;
    assert((d * wa) * wb == (d * wb) * wa) by (nonlinear_arith);
}

proof fn lemma_capacity_sum_prefix(a: Seq<FluidTask>, b: Seq<FluidTask>, n: int)
    requires
        n <= a.len(),
        n <= b.len(),
        forall|i: int| 0 <= i < n ==> a[i] == b[i],
    ensures
        capacity_sum(a, n) == capacity_sum(b, n),
    decreases n,
{
    if n > 0 {
        lemma_capacity_sum_prefix(a, b, n - 1);
    }
}

/// Moving one task to the end leaves the sum as it is.
proof fn lemma_capacity_sum_moved(tasks: Seq<FluidTask>, j: int)
    requires
        0 <= j < tasks.len(),
    ensures
        capacity_sum(tasks.remove(j).push(tasks[j]), tasks.len() as int) == capacity_sum(
            tasks,
            tasks.len() as int,
        ),
    decreases tasks.len(),
{
    let n = tasks.len() as int;
    let moved = tasks.remove(j).push(tasks[j]);
    if j == n - 1 {
        assert(moved =~= tasks);
    } else {
        let rest = tasks.drop_last();
        let x = task_capacity(tasks[j])->0;
        let y = task_capacity(tasks.last())->0;
        lemma_capacity_sum_moved(rest, j);
        let fewer = rest.remove(j);
        let with_x = fewer.push(tasks[j]);
        lemma_capacity_sum_prefix(tasks, rest, n - 1);
        lemma_capacity_sum_prefix(with_x, fewer, n - 2);
        lemma_capacity_sum_prefix(moved, fewer, n - 2);
        let base = capacity_sum(fewer, n - 2);
        assert(capacity_sum(with_x, n - 1) == capacity_added(base, x));
        assert(capacity_sum(tasks, n) == capacity_added(capacity_added(base, x), y));
        assert(moved[n - 2] == tasks.last());
        assert(moved[n - 1] == tasks[j]);
        assert(capacity_sum(moved, n - 1) == capacity_added(base, y));
        assert(capacity_sum(moved, n) == capacity_added(capacity_added(base, y), x));
        lemma_capacities_commute(base, x, y);
    }
}

proof fn lemma_capacity_sum_by_multiset(a: Seq<FluidTask>, b: Seq<FluidTask>)
    requires
        a.to_multiset() == b.to_multiset(),
    ensures
        a.len() == b.len(),
        capacity_sum(a, a.len() as int) == capacity_sum(b, b.len() as int),
    decreases a.len(),
{
    broadcast use vstd::seq_lib::group_to_multiset_ensures;

    assert(a.len() == a.to_multiset().len());
    assert(b.len() == b.to_multiset().len());
    if a.len() > 0 {
        let n = a.len() as int;
        let x = a.last();
        assert(a.contains(x)) by {
            assert(a[n - 1] == x);
        }
        assert(b.to_multiset().count(x) > 0);
        assert(b.contains(x));
        let j = choose|j: int| 0 <= j < b.len() && b[j] == x;
        assert(a.drop_last() =~= a.remove(n - 1));
        assert(a.remove(n - 1).to_multiset() =~= a.to_multiset().remove(x));
        assert(b.remove(j).to_multiset() =~= b.to_multiset().remove(x));
        lemma_capacity_sum_by_multiset(a.drop_last(), b.remove(j));
        lemma_capacity_sum_moved(b, j);
        lemma_capacity_sum_prefix(b.remove(j).push(x), b.remove(j), n - 1);
        lemma_capacity_sum_prefix(a, a.drop_last(), n - 1);
    }
}

/// The order of the tasks of a batch does not matter: task sets with the same members are
/// feasible on the same numbers of processors.
pub proof fn lemma_order_does_not_matter(a: Seq<FluidTask>, b: Seq<FluidTask>, m: int)
    requires
        a.to_multiset() == b.to_multiset(),
    ensures
        batch_feasible(a, m) == batch_feasible(b, m),
{
    lemma_capacity_sum_by_multiset(a, b);
    if all_have_capacity(a, a.len() as int) {
        lemma_all_capacities_by_multiset(a, b);
    }
    if all_have_capacity(b, b.len() as int) {
        lemma_all_capacities_by_multiset(b, a);
    }
}

proof fn lemma_all_capacities_by_multiset(a: Seq<FluidTask>, b: Seq<FluidTask>)
    requires
        a.to_multiset() == b.to_multiset(),
        all_have_capacity(a, a.len() as int),
    ensures
        all_have_capacity(b, b.len() as int),
{
    broadcast use vstd::seq_lib::group_to_multiset_ensures;

    assert forall|i: int| 0 <= i < b.len() implies (#[trigger] task_capacity(b[i]) matches Some(c)
        && c.window > 0) by {
        assert(b.contains(b[i]));
        assert(a.to_multiset().count(b[i]) > 0);
        assert(a.contains(b[i]));
        let k = choose|k: int| 0 <= k < a.len() && a[k] == b[i];
        assert(task_capacity(a[k]) is Some);
    }
}

/// The virtual deadline follows the ratio of period to deadline. Held against a fraction
/// `p / q`, whose square tells on which side of an irrational bound it lies: a ratio up to
/// `(sqrt(3) - 1) / 2` keeps the deadline, one beyond it and up to one half takes twice the
/// period, one beyond one half and up to `sqrt(2) / 2` keeps the deadline, and one beyond
/// that takes the period. A deadline within the period, or a critical path beyond it, keeps
/// the deadline.
pub proof fn lemma_virtual_deadline_goes_by_the_ratio(
    period: int,
    deadline: int,
    critical_path: int,
    p: int,
    q: int,
)
    requires
        0 < period,
        0 < deadline,
        0 <= critical_path,
        0 < p,
        0 < q,
    ensures
        ({
            let d_star = virtual_deadline_of(period, deadline, critical_path);
            let applies = period < deadline && critical_path <= period;
            &&& !applies ==> d_star == deadline
            &&& applies && (2 * p + q) * (2 * p + q) <= 3 * (q * q) && period * q <= deadline * p
                ==> d_star == deadline
            &&& applies && (2 * p + q) * (2 * p + q) > 3 * (q * q) && period * q >= deadline * p
                && 2 * period <= deadline ==> d_star == 2 * period
            &&& applies && 2 * (p * p) <= q * q && period * q <= deadline * p && 2 * period
                > deadline ==> d_star == deadline
            &&& applies && 2 * (p * p) > q * q && period * q >= deadline * p ==> d_star == period
        }),
{
    let (t, d) = (period, deadline);
    let a = (2 * t + d) * q;
    let b = (2 * p + q) * d;
    assert(a == 2 * (t * q) + d * q) by (nonlinear_arith)
        requires
            a == (2 * t + d) * q,
    ;
    assert(b == 2 * (d * p) + d * q) by (nonlinear_arith)
        requires
            b == (2 * p + q) * d,
    ;
    assert(a * a == ((2 * t + d) * (2 * t + d)) * (q * q)) by (nonlinear_arith)
        requires
            a == (2 * t + d) * q,
    ;
    assert(b * b == ((2 * p + q) * (2 * p + q)) * (d * d)) by (nonlinear_arith)
        requires
            b == (2 * p + q) * d,
    ;
    assert(0 < a && 0 < b) by (nonlinear_arith)
        requires
            a == (2 * t + d) * q,
            b == (2 * p + q) * d,
            0 < t,
            0 < d,
            0 < p,
            0 < q,
    ;
    lemma_squared_bound(t * q, d * p, t, d, p, q);
    lemma_scaled_bound(a, b, (2 * t + d) * (2 * t + d), (2 * p + q) * (2 * p + q), q * q, d * d, 3);
    lemma_beyond_both_bounds(t, d);
}

/// What two positive lengths `a` and `b` tell of their squares, one of which is `x` times
/// `r` and the other `y` times `s`.
proof fn lemma_scaled_bound(a: int, b: int, x: int, y: int, r: int, s: int, k: int)
    requires
        0 < a,
        0 < b,
        a * a == x * r,
        b * b == y * s,
        0 < r,
        0 < s,
    ensures
        a <= b && y <= k * r ==> x <= k * s,
        a >= b && y > k * r ==> x > k * s,
{
    if a <= b && y <= k * r {
        assert(x * r <= (k * s) * r) by (nonlinear_arith)
            requires
                0 < a <= b,
                a * a == x * r,
                b * b == y * s,
                y <= k * r,
                0 < s,
        ;
        assert(x <= k * s) by (nonlinear_arith)
            requires
                x * r <= (k * s) * r,
                0 < r,
        ;
    }
    if a >= b && y > k * r {
        assert(x * r > (k * s) * r) by (nonlinear_arith)
            requires
                0 < b <= a,
                a * a == x * r,
                b * b == y * s,
                y > k * r,
                0 < s,
        ;
        assert(x > k * s) by (nonlinear_arith)
            requires
                x * r > (k * s) * r,
                0 < r,
        ;
    }
}

proof fn lemma_squared_bound(a: int, b: int, t: int, d: int, p: int, q: int)
    requires
        0 < t,
        0 < d,
        0 < p,
        0 < q,
        a == t * q,
        b == d * p,
    ensures
        a <= b && 2 * (p * p) <= q * q ==> 2 * (t * t) <= d * d,
        a >= b && 2 * (p * p) > q * q ==> 2 * (t * t) > d * d,
        0 < q * q,
        0 < d * d,
{
    assert(0 < a && 0 < b && 0 < q * q && 0 < d * d) by (nonlinear_arith)
        requires
            0 < t,
            0 < d,
            0 < p,
            0 < q,
            a == t * q,
            b == d * p,
    ;
    assert((2 * a) * (2 * a) == (4 * (t * t)) * (q * q)) by (nonlinear_arith)
        requires
            a == t * q,
    ;
    assert((2 * b) * (2 * b) == (4 * (p * p)) * (d * d)) by (nonlinear_arith)
        requires
            b == d * p,
    ;
    lemma_scaled_bound(2 * a, 2 * b, 4 * (t * t), 4 * (p * p), q * q, d * d, 2);
}

proof fn lemma_beyond_both_bounds(t: int, d: int)
    requires
        0 < t,
        0 < d,
    ensures
        2 * (t * t) > d * d ==> 2 * t > d && (2 * t + d) * (2 * t + d) > 3 * (d * d),
        2 * t > d ==> (2 * t + d) * (2 * t + d) > 3 * (d * d),
{
    if 2 * t > d {
        assert((2 * t + d) * (2 * t + d) > 3 * (d * d)) by (nonlinear_arith)
            requires
                2 * t > d,
                0 < d,
        ;
    }
    if 2 * (t * t) > d * d {
        assert(2 * t > d) by (nonlinear_arith)
            requires
                2 * (t * t) > d * d,
                0 < t,
                0 < d,
        ;
    }
}

/// As many jobs of a task are pending at a time as periods begin within its virtual
/// deadline: the periods of all but one of them fall short of it, and those of all of them
/// do not. A task that fits sequentially into its virtual deadline has its volume to do in
/// it.
pub proof fn lemma_capacity_counts_the_pending_jobs(
    volume: u64,
    period: u64,
    critical_path: u64,
    deadline: u64,
    segments: Seq<Segment>,
)
    requires
        0 < period,
        0 < deadline,
    ensures
        critical_path > deadline ==> capacity_of(volume, period, critical_path, deadline, segments)
            is None,
        critical_path <= deadline && volume <= virtual_deadline_of(
            period as int,
            deadline as int,
            critical_path as int,
        ) ==> capacity_of(volume, period, critical_path, deadline, segments) is Some,
        capacity_of(volume, period, critical_path, deadline, segments) matches Some(c) ==> {
            let d_star = virtual_deadline_of(
                period as int,
                deadline as int,
                critical_path as int,
            );
            &&& 0 < c.jobs
            &&& (c.jobs - 1) * period < d_star <= c.jobs * period
            &&& volume <= d_star ==> c.work == volume && c.window == d_star
        },
{
    let d_star = virtual_deadline_of(period as int, deadline as int, critical_path as int);
    lemma_ceil_at_most(d_star, period as int);
    let jobs = ceil_div(d_star, period as int);
    let whole = d_star / period as int;
    let rest = d_star % period as int;
    vstd::arithmetic::div_mod::lemma_fundamental_div_mod(d_star, period as int);
    assert(period * whole == whole * period) by (nonlinear_arith);
    assert((whole + 1) * period == whole * period + period) by (nonlinear_arith);
    assert((whole - 1) * period == whole * period - period) by (nonlinear_arith);
    if rest != 0 {
        assert(jobs == whole + 1);
    } else {
        assert(jobs == whole);
        if whole <= 0 {
            assert(whole * period <= 0) by (nonlinear_arith)
                requires
                    whole <= 0,
                    0 < period,
            ;
        }
    }
}

/// The cores that a capacity takes up are the fewest that can do its jobs: within the
/// window they can do all the work of all the jobs, and one core fewer could not. No more
/// can be asked for than there are core numbers; an empty window takes them all.
pub proof fn lemma_cores_are_the_fewest(capacity: Capacity)
    ensures
        ({
            let cores = cores_for(capacity);
            let demand = capacity.jobs * capacity.work;
            &&& 0 <= cores <= u16::MAX
            &&& cores < u16::MAX ==> cores * capacity.window >= demand
            &&& 0 < cores && capacity.window > 0 ==> (cores - 1) * capacity.window < demand
            &&& demand == 0 ==> cores == 0
            &&& demand > 0 && capacity.window == 0 ==> cores == u16::MAX
        }),
{
    let demand = capacity.jobs * capacity.work;
    let window = capacity.window as int;
    let cores = cores_for(capacity);
    assert(0 <= demand) by (nonlinear_arith)
        requires
            demand == capacity.jobs * capacity.work,
    ;
    if demand > 0 && window > 0 {
        lemma_ceil_at_most(demand, window);
        let whole = demand / window;
        vstd::arithmetic::div_mod::lemma_fundamental_div_mod(demand, window);
        let exact = ceil_div(demand, window);
        assert(window * whole == whole * window) by (nonlinear_arith);
        assert((whole + 1) * window == whole * window + window) by (nonlinear_arith);
        assert((whole - 1) * window == whole * window - window) by (nonlinear_arith);
        assert((exact - 1) * window < demand <= exact * window);
        assert((cores - 1) * window <= (exact - 1) * window) by (nonlinear_arith)
            requires
                cores <= exact,
                0 < window,
        ;
    } else {
        assert(cores * window >= 0) by (nonlinear_arith)
            requires
                cores >= 0,
                window >= 0,
        ;
    }
}

/// The work of those of the first `m` segments whose concurrency the rate `work / time`
/// exceeds.
pub open spec fn work_outpaced(segments: Seq<Segment>, work: int, time: int, m: int) -> int
    decreases m,
{
    if m <= 0 {
        0
    } else {
        work_outpaced(segments, work, time, m - 1) + if segments[m - 1].concurrency * time < work {
            segments[m - 1].duration * segments[m - 1].concurrency
        } else {
            0
        }
    }
}

/// How long those of the first `m` segments last whose concurrency the rate `work / time`
/// exceeds.
pub open spec fn time_outpaced(segments: Seq<Segment>, work: int, time: int, m: int) -> int
    decreases m,
{
    if m <= 0 {
        0
    } else {
        time_outpaced(segments, work, time, m - 1) + if segments[m - 1].concurrency * time < work {
            segments[m - 1].duration as int
        } else {
            0
        }
    }
}

/// The last segment that was peeled off has a concurrency below the rate of what remains.
proof fn lemma_peeled_last(segments: Seq<Segment>, order: Seq<usize>, work: int, time: int, k: int)
    requires
        0 <= k,
    ensures
        peeled(segments, order, work, time, k) matches Some((w, t, light)) ==> if light == k {
            w == work && t == time
        } else {
            w > t * segments[order[light - 1] as int].concurrency
        },
    decreases order.len() - k,
{
    if k < order.len() && work > 0 && time > 0 {
        let segment = segments[order[k] as int];
        let c = segment.concurrency as int;
        let l = segment.duration as int;
        if work > time * c {
            lemma_peeled_last(segments, order, work - l * c, time - l, k + 1);
            lemma_peeled(segments, order, work - l * c, time - l, k + 1);
            assert((time - l) * c == time * c - l * c) by (nonlinear_arith);
        }
    }
}

/// The split is by the heavy rate, which is the heavy work over the heavy time. Light are
/// exactly the segments whose concurrency that rate exceeds: they cannot keep up with it
/// even at full speed. The heavy work is the volume without that of the light segments, and
/// the heavy time is the virtual deadline without the time of the light ones.
pub proof fn lemma_light_segments_cannot_keep_up(
    segments: Seq<Segment>,
    volume: int,
    d_star: int,
)
    requires
        segments.len() <= usize::MAX,
        heavy_split(segments, volume, d_star) is Some,
    ensures
        ({
            let (work, time, light) = heavy_split(segments, volume, d_star)->0;
            &&& 0 < work
            &&& 0 < time
            &&& forall|i: int|
                0 <= i < segments.len() ==> (#[trigger] light_flags(segments, light)[i]
                    <==> segments[i].concurrency * time < work)
            &&& work == volume - work_outpaced(segments, work, time, segments.len() as int)
            &&& time == d_star - time_outpaced(segments, work, time, segments.len() as int)
        }),
{
    let n = segments.len() as int;
    let order = by_concurrency(segments, n);
    let (work, time, light) = heavy_split(segments, volume, d_star)->0;
    let flags = light_flags(segments, light);
    lemma_by_concurrency(segments, n);
    lemma_peeled(segments, order, volume, d_star, 0);
    lemma_peeled_last(segments, order, volume, d_star, 0);
    lemma_peeled_sums(segments, volume, d_star, 0);
    assert(order.take(0) =~= Seq::<usize>::empty());
    assert forall|i: int| 0 <= i < n implies !#[trigger] light_flags(segments, 0)[i] by {
        assert(!order.take(0).contains(i as usize));
    }
    lemma_flagged_none(segments, light_flags(segments, 0), n);
    assert forall|i: int| 0 <= i < n implies (#[trigger] flags[i] <==> segments[i].concurrency
        * time < work) by {
        lemma_permutation_covers(segments, order, n, i as usize);
        let k = choose|k: int| 0 <= k < order.len() && order[k] == i;
        let own = segments[i].concurrency as int;
        if k < light {
            assert(order.take(light)[k] == i);
            let last = segments[order[light - 1] as int].concurrency as int;
            assert(own <= last) by {
                if k < light - 1 {
                    assert(segments[order[k] as int].concurrency <= segments[order[light
                        - 1] as int].concurrency);
                }
            }
            assert(own * time < work) by (nonlinear_arith)
                requires
                    own <= last,
                    work > time * last,
                    0 < time,
            ;
        } else {
            if order.take(light).contains(i as usize) {
                let a = choose|a: int|
                    0 <= a < order.take(light).len() && order.take(light)[a] == i;
                assert(order[a] == order[k]);
            }
            let first = segments[order[light] as int].concurrency as int;
            assert(first <= own) by {
                if light < k {
                    assert(segments[order[light] as int].concurrency
                        <= segments[order[k] as int].concurrency);
                }
            }
            assert(work <= own * time) by (nonlinear_arith)
                requires
                    first <= own,
                    work <= time * first,
                    0 < time,
            ;
        }
    }
    lemma_outpaced_are_flagged(segments, flags, work, time, n);
}

proof fn lemma_outpaced_are_flagged(
    segments: Seq<Segment>,
    flags: Seq<bool>,
    work: int,
    time: int,
    m: int,
)
    requires
        0 <= m <= segments.len() == flags.len(),
        forall|i: int|
            0 <= i < segments.len() ==> (#[trigger] flags[i] <==> segments[i].concurrency * time
                < work),
    ensures
        work_outpaced(segments, work, time, m) == flagged_work(segments, flags, m),
        time_outpaced(segments, work, time, m) == flagged_time(segments, flags, m),
    decreases m,
{
    if m > 0 {
        lemma_outpaced_are_flagged(segments, flags, work, time, m - 1);
    }
}

/// The work that the first `n` tasks have to do in a stretch of time that `q[i]` windows of
/// the task `i` make up.
pub open spec fn demand_of(tasks: Seq<FluidTask>, q: Seq<int>, n: int) -> int
    decreases n,
{
    if n <= 0 {
        0
    } else {
        let c = task_capacity(tasks[n - 1])->0;
        demand_of(tasks, q, n - 1) + q[n - 1] * (c.jobs * c.work)
    }
}

/// `q[i]` windows of the task `i` make up the same stretch of time for every task.
pub open spec fn windows_make_up(tasks: Seq<FluidTask>, q: Seq<int>, stretch: int) -> bool {
    &&& q.len() == tasks.len()
    &&& forall|i: int|
        0 <= i < tasks.len() ==> (#[trigger] q[i]) * (task_capacity(tasks[i])->0).window == stretch
}

/// A task set is feasible exactly if the processors can do all that the tasks have to do in
/// a stretch of time that every task's windows fill up.
pub proof fn lemma_feasible_if_the_processors_can_do_the_work(
    tasks: Seq<FluidTask>,
    q: Seq<int>,
    stretch: int,
    m: int,
)
    requires
        all_have_capacity(tasks, tasks.len() as int),
        windows_make_up(tasks, q, stretch),
        0 < stretch,
    ensures
        batch_feasible(tasks, m) <==> demand_of(tasks, q, tasks.len() as int) <= m * stretch,
{
    let n = tasks.len() as int;
    lemma_demand_is_sum(tasks, q, stretch, n);
    let (numerator, denominator) = capacity_sum(tasks, n);
    let demand = demand_of(tasks, q, n);
    assert(numerator <= m * denominator <==> demand <= m * stretch) by (nonlinear_arith)
        requires
            numerator * stretch == denominator * demand,
            0 < stretch,
            0 < denominator,
    {
        if numerator <= m * denominator {
            assert(denominator * demand <= (m * denominator) * stretch);
            assert(denominator * demand <= denominator * (m * stretch));
        } else {
            assert(denominator * demand > (m * denominator) * stretch);
            assert(denominator * demand > denominator * (m * stretch));
        }
    }
}

proof fn lemma_demand_is_sum(tasks: Seq<FluidTask>, q: Seq<int>, stretch: int, n: int)
    requires
        0 <= n <= tasks.len(),
        all_have_capacity(tasks, n),
        windows_make_up(tasks, q, stretch),
    ensures
        capacity_sum(tasks, n).0 * stretch == capacity_sum(tasks, n).1 * demand_of(tasks, q, n),
        0 < capacity_sum(tasks, n).1,
    decreases n,
{
    if n > 0 {
        lemma_demand_is_sum(tasks, q, stretch, n - 1);
        let (numerator, denominator) = capacity_sum(tasks, n - 1);
        let before = demand_of(tasks, q, n - 1);
        let c = task_capacity(tasks[n - 1])->0;
        assert(task_capacity(tasks[n - 1]) is Some && c.window > 0);
        let (j, w, k, x) = (c.jobs as int, c.work as int, q[n - 1], c.window as int);
        assert(k * x == stretch);
        let g = j * w;
        let (a, b) = (numerator * x, denominator * g);
        assert(denominator * j * w == b) by (nonlinear_arith)
            requires
                g == j * w,
                b == denominator * g,
        ;
        assert((a + b) * stretch == a * stretch + b * stretch) by (nonlinear_arith);
        assert(a * stretch == x * (numerator * stretch)) by (nonlinear_arith)
            requires
                a == numerator * x,
        ;
        assert(x * (denominator * before) == (denominator * x) * before) by (nonlinear_arith);
        assert(b * stretch == (denominator * x) * (k * g)) by (nonlinear_arith)
            requires
                b == denominator * g,
                stretch == k * x,
        ;
        assert((denominator * x) * (before + k * g) == (denominator * x) * before + (denominator
            * x) * (k * g)) by (nonlinear_arith);
        assert(0 < denominator * x) by (nonlinear_arith)
            requires
                0 < denominator,
                0 < x,
        ;
    } else {
        assert(0 * stretch == 0);
    }
}

/// On the grid a rate is off by at most half a part.
pub proof fn lemma_grid_is_nearest(rate: SegmentRate)
    requires
        rate.wf(),
    ensures
        -rate.denominator <= 2 * (rate.parts() * rate.denominator - rate.numerator
            * RATE_UNIT),
        2 * (rate.parts() * rate.denominator - rate.numerator * RATE_UNIT)
            <= rate.denominator,
{
    let d = rate.denominator as int;
    let doubled = 2 * (rate.numerator * RATE_UNIT) + d;
    vstd::arithmetic::div_mod::lemma_fundamental_div_mod(doubled, 2 * d);
    let parts = rate.parts();
    assert((2 * d) * parts == 2 * (parts * d)) by (nonlinear_arith);
}

/// A segment is released when the one before it is due, and the first one with the task.
pub proof fn lemma_released_when_the_one_before_is_due(schedule: Seq<SegmentSchedule>, i: int)
    requires
        0 <= i < schedule.len(),
    ensures
        offset_before(schedule, 0) == (0int, 0int),
        offset_before(schedule, i + 1).0 == offset_before(schedule, i).0
            + schedule[i].relative_deadline.whole,
        offset_before(schedule, i + 1).1 == offset_before(schedule, i).1
            + schedule[i].relative_deadline.work,
{
}

} // verus!
