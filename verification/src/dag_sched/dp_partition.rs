//! Deadline partitions: the boundaries of every DAG's segments, and when each DAG moves on
//! to its next segment.
//!
//! A boundary's scheduled time is only when it is due. A DAG moves past it once the
//! boundary's gate is satisfied: every node that is expected to have finished by then has
//! really processed a period. Until then the DAG keeps its share.

use vstd::prelude::*;

use crate::cpu::{cpu_set_view, members, CpuSet};
use crate::scheduler::dp_wrap::{
    apportioned_below, partition_length, threads, DpWrapScheduler, DpWrapView, EntitlementAction,
};
use crate::scheduler::task::TaskTable;
use crate::timer::{register_timer_callback, TimerCallbacks, TimerRequestId};

verus! {

/// The period index of a node that has not processed any period.
pub const NO_PERIOD_YET: u32 = u32::MAX;

/// One segment's end that its DAG has not moved past. Times are nanoseconds.
#[derive(Debug, Clone, PartialEq, Eq)]
pub struct BoundaryEntry {
    pub dag_id: u32,
    pub segment_index: usize,
    /// When the segment is due to end.
    pub scheduled: u64,
    /// How many threads the segment has.
    pub concurrency: u32,
    /// The rate of each thread, in parts of a processor.
    pub rate: u64,
    /// The nodes that have to have processed a period before the DAG moves on.
    pub gate_nodes: Vec<u32>,
    /// Whether the boundary's time has been observed.
    pub logged: bool,
    /// Whether it has been reported that the boundary is overdue.
    pub warned_overrun: bool,
}

/// The mathematical value of a [`BoundaryEntry`].
#[verifier::ext_equal]
pub struct BoundaryView {
    pub dag_id: u32,
    pub segment_index: usize,
    pub scheduled: u64,
    pub concurrency: u32,
    pub rate: u64,
    pub gate_nodes: Seq<u32>,
    pub logged: bool,
    pub warned_overrun: bool,
}

impl View for BoundaryEntry {
    type V = BoundaryView;

    open spec fn view(&self) -> BoundaryView {
        BoundaryView {
            dag_id: self.dag_id,
            segment_index: self.segment_index,
            scheduled: self.scheduled,
            concurrency: self.concurrency,
            rate: self.rate,
            gate_nodes: self.gate_nodes@,
            logged: self.logged,
            warned_overrun: self.warned_overrun,
        }
    }
}

/// The DAG and the density, threads and rate, of its active segment.
pub type Density = (u32, u32, u64);

/// The boundaries ahead, and each DAG's active segment.
pub struct DpPartition {
    pub pending: Vec<BoundaryEntry>,
    /// The active segment of every DAG that has one, by ascending DAG identifier.
    pub current: Vec<Density>,
}

/// The mathematical value of a [`DpPartition`].
#[verifier::ext_equal]
pub struct DpPartitionView {
    pub pending: Seq<BoundaryView>,
    pub current: Seq<Density>,
}

/// The views of boundaries.
pub open spec fn boundaries(entries: Seq<BoundaryEntry>) -> Seq<BoundaryView> {
    Seq::new(entries.len(), |i: int| entries[i]@)
}

impl View for DpPartition {
    type V = DpPartitionView;

    open spec fn view(&self) -> DpPartitionView {
        DpPartitionView { pending: boundaries(self.pending@), current: self.current@ }
    }
}

/// DAG identifiers ascend.
pub open spec fn ids_ascend(current: Seq<Density>) -> bool {
    forall|i: int, j: int|
        #![trigger current[i], current[j]]
        0 <= i < j < current.len() ==> current[i].0 < current[j].0
}

/// The active segments with that of one DAG put in or replaced.
pub open spec fn with_density(current: Seq<Density>, density: Density) -> Seq<Density>
    decreases current.len(),
{
    if current.len() == 0 || current.last().0 < density.0 {
        current.push(density)
    } else if current.last().0 == density.0 {
        current.drop_last().push(density)
    } else {
        with_density(current.drop_last(), density).push(current.last())
    }
}

/// The active segments without that of one DAG.
pub open spec fn without_density(current: Seq<Density>, dag_id: u32) -> Seq<Density>
    decreases current.len(),
{
    if current.len() == 0 {
        current
    } else if current.last().0 == dag_id {
        without_density(current.drop_last(), dag_id)
    } else {
        without_density(current.drop_last(), dag_id).push(current.last())
    }
}

/// The earliest scheduled time among the first `n` boundaries, of all or only of those not
/// observed yet.
pub open spec fn earliest_below(pending: Seq<BoundaryView>, unlogged_only: bool, n: int) -> Option<
    u64,
>
    decreases n,
{
    if n <= 0 {
        None
    } else {
        let best = earliest_below(pending, unlogged_only, n - 1);
        let entry = pending[n - 1];
        if unlogged_only && entry.logged {
            best
        } else {
            match best {
                Some(t) if t <= entry.scheduled => best,
                _ => Some(entry.scheduled),
            }
        }
    }
}

/// The time of the next boundary that has not been observed.
pub open spec fn next_unlogged(pending: Seq<BoundaryView>) -> Option<u64> {
    earliest_below(pending, true, pending.len() as int)
}

/// The end of the deadline partition: the earliest boundary ahead.
pub open spec fn partition_end(pending: Seq<BoundaryView>) -> Option<u64> {
    earliest_below(pending, false, pending.len() as int)
}

/// A boundary whose time has been observed.
#[derive(Debug, Clone, Copy, PartialEq, Eq, Structural)]
pub struct Observation {
    pub dag_id: u32,
    pub segment_index: usize,
    pub scheduled: u64,
    /// How late it was observed.
    pub latency: u64,
}

/// Whether a boundary is observed at the time `now`.
pub open spec fn is_observed(entry: BoundaryView, now: u64) -> bool {
    !entry.logged && entry.scheduled <= now
}

/// A boundary after the time `now` has been observed.
pub open spec fn observed(entry: BoundaryView, now: u64) -> BoundaryView {
    BoundaryView { logged: entry.logged || entry.scheduled <= now, ..entry }
}

/// The boundaries after the time `now` has been observed.
pub open spec fn all_observed(pending: Seq<BoundaryView>, now: u64) -> Seq<BoundaryView> {
    Seq::new(pending.len(), |i: int| observed(pending[i], now))
}

/// What is observed at the time `now` of the first `n` boundaries.
pub open spec fn observations_below(pending: Seq<BoundaryView>, now: u64, n: int) -> Seq<Observation>
    decreases n,
{
    if n <= 0 {
        Seq::empty()
    } else {
        let rest = observations_below(pending, now, n - 1);
        let entry = pending[n - 1];
        if is_observed(entry, now) {
            rest.push(
                Observation {
                    dag_id: entry.dag_id,
                    segment_index: entry.segment_index,
                    scheduled: entry.scheduled,
                    latency: (now - entry.scheduled) as u64,
                },
            )
        } else {
            rest
        }
    }
}

impl DpPartition {
    /// No boundary and no active segment.
    pub fn new() -> (partition: Self)
        ensures
            partition@.pending == Seq::<BoundaryView>::empty(),
            partition@.current == Seq::<Density>::empty(),
            ids_ascend(partition@.current),
    {
        let partition = DpPartition { pending: Vec::new(), current: Vec::new() };
        assert(partition@.pending =~= Seq::<BoundaryView>::empty());
        partition
    }

    /// Records the active segment of a DAG.
    fn set_current(&mut self, density: Density)
        ensures
            final(self)@ == (DpPartitionView {
                current: with_density(old(self)@.current, density),
                ..old(self)@
            }),
    {
        let ghost before = self.current@;
        let mut at: usize = self.current.len();
        assert(before.take(at as int) =~= before);
        assert(with_density(before, density) =~= with_density(before.take(at as int), density)
            + before.skip(at as int));
        while at > 0 && self.current[at - 1].0 > density.0
            invariant
                at <= self.current@.len(),
                before == self.current@,
                self@ == old(self)@,
                with_density(before, density) == with_density(before.take(at as int), density)
                    + before.skip(at as int),
            decreases at,
        {
            proof {
                let shorter = before.take(at as int);
                assert(shorter.drop_last() =~= before.take(at - 1));
                assert(with_density(shorter, density) + before.skip(at as int) =~= with_density(
                    before.take(at - 1),
                    density,
                ) + before.skip(at - 1));
            }
            at = at - 1;
        }
        if at > 0 && self.current[at - 1].0 == density.0 {
            self.current.set(at - 1, density);
            proof {
                let shorter = before.take(at as int);
                assert(shorter.last().0 == density.0);
                assert(shorter.drop_last() =~= before.take(at - 1));
                assert(self.current@ =~= before.take(at - 1).push(density) + before.skip(
                    at as int,
                ));
            }
        } else {
            self.current.insert(at, density);
            assert(self.current@ =~= before.take(at as int).push(density) + before.skip(
                at as int,
            ));
        }
        assert(self@.pending =~= old(self)@.pending);
    }

    /// Forgets the active segment of a DAG.
    fn clear_current(&mut self, dag_id: u32)
        ensures
            final(self)@ == (DpPartitionView {
                current: without_density(old(self)@.current, dag_id),
                ..old(self)@
            }),
    {
        let ghost before = self.current@;
        let mut kept: Vec<Density> = Vec::new();
        let mut i: usize = 0;
        assert(before.take(0) =~= Seq::<Density>::empty());
        while i < self.current.len()
            invariant
                i <= self.current@.len(),
                before == self.current@,
                self@ == old(self)@,
                kept@ == without_density(before.take(i as int), dag_id),
            decreases self.current@.len() - i,
        {
            assert(before.take(i + 1).drop_last() =~= before.take(i as int));
            let density = self.current[i];
            if density.0 != dag_id {
                kept.push(density);
            }
            i = i + 1;
        }
        assert(before.take(i as int) =~= before);
        self.current = kept;
        assert(self@.pending =~= old(self)@.pending);
    }

    /// Registers the end of one segment of a DAG. A DAG's first segment is active at once.
    pub fn register_segment(
        &mut self,
        dag_id: u32,
        segment_index: usize,
        scheduled: u64,
        concurrency: u32,
        rate: u64,
        gate_nodes: Vec<u32>,
    )
        ensures
            final(self)@ == (DpPartitionView {
                pending: old(self)@.pending.push(
                    BoundaryView {
                        dag_id,
                        segment_index,
                        scheduled,
                        concurrency,
                        rate,
                        gate_nodes: gate_nodes@,
                        logged: false,
                        warned_overrun: false,
                    },
                ),
                current: if segment_index == 0 {
                    with_density(old(self)@.current, (dag_id, concurrency, rate))
                } else {
                    old(self)@.current
                },
            }),
            ids_ascend(old(self)@.current) ==> ids_ascend(final(self)@.current),
    {
        let ghost before = self@;
        proof {
            if ids_ascend(before.current) {
                lemma_with_density(before.current, (dag_id, concurrency, rate));
            }
        }
        let entry = BoundaryEntry {
            dag_id,
            segment_index,
            scheduled,
            concurrency,
            rate,
            gate_nodes,
            logged: false,
            warned_overrun: false,
        };
        let ghost view = entry@;
        self.pending.push(entry);
        assert(self@.pending =~= before.pending.push(view));
        if segment_index == 0 {
            self.set_current((dag_id, concurrency, rate));
        }
    }

    fn earliest(&self, unlogged_only: bool) -> (time: Option<u64>)
        ensures
            time == earliest_below(self@.pending, unlogged_only, self@.pending.len() as int),
    {
        let mut best: Option<u64> = None;
        let mut i: usize = 0;
        while i < self.pending.len()
            invariant
                i <= self.pending@.len(),
                best == earliest_below(self@.pending, unlogged_only, i as int),
            decreases self.pending@.len() - i,
        {
            let entry = &self.pending[i];
            assert(self@.pending[i as int] == entry@);
            if !(unlogged_only && entry.logged) {
                best =
                match best {
                    Some(t) => {
                        if t <= entry.scheduled {
                            Some(t)
                        } else {
                            Some(entry.scheduled)
                        }
                    },
                    None => Some(entry.scheduled),
                };
            }
            i = i + 1;
        }
        best
    }

    /// The time to arm the boundary timer for: that of the earliest boundary that has not
    /// been observed, if there is one.
    pub fn arm_next(&self) -> (time: Option<u64>)
        ensures
            time == next_unlogged(self@.pending),
    {
        self.earliest(true)
    }

    /// The boundary timer fired: observes every boundary whose time has come, each once,
    /// and returns what was observed and the time to arm the timer for next. Nothing else
    /// changes.
    pub fn on_dp_boundary(&mut self, now: u64) -> (fired: (Vec<Observation>, Option<u64>))
        ensures
            final(self)@ == (DpPartitionView {
                pending: all_observed(old(self)@.pending, now),
                ..old(self)@
            }),
            fired.0@ == observations_below(
                old(self)@.pending,
                now,
                old(self)@.pending.len() as int,
            ),
            fired.1 == next_unlogged(final(self)@.pending),
    {
        let ghost start = self@.pending;
        let mut seen: Vec<Observation> = Vec::new();
        let mut i: usize = 0;
        while i < self.pending.len()
            invariant
                i <= self.pending@.len(),
                start == old(self)@.pending,
                self@.current == old(self)@.current,
                self.pending@.len() == start.len(),
                forall|k: int|
                    0 <= k < start.len() ==> (#[trigger] self.pending@[k])@ == if k < i {
                        observed(start[k], now)
                    } else {
                        start[k]
                    },
                seen@ == observations_below(start, now, i as int),
            decreases self.pending@.len() - i,
        {
            assert(self.pending@[i as int]@ == start[i as int]);
            if !self.pending[i].logged && self.pending[i].scheduled <= now {
                let scheduled: u64 = self.pending[i].scheduled;
                seen.push(
                    Observation {
                        dag_id: self.pending[i].dag_id,
                        segment_index: self.pending[i].segment_index,
                        scheduled,
                        latency: now - scheduled,
                    },
                );
                self.pending[i].logged = true;
            }
            i = i + 1;
        }
        assert(self@.pending =~= all_observed(start, now));
        let next = self.earliest(true);
        (seen, next)
    }

    /// Recomputes the entitlement of every CPU of the pool from the active segments, for the
    /// deadline partition from `now` until the earliest boundary ahead.
    pub fn apply_current_entitlement(
        &self,
        scheduler: &mut DpWrapScheduler,
        table: &TaskTable,
        pool: CpuSet,
        now: u64,
    ) -> (actions: Vec<EntitlementAction>)
        requires
            old(scheduler)@.wf(table.tasks@.len()),
        ensures
            entitles(self@, old(scheduler)@, final(scheduler)@, table, pool, now, actions@),
            final(scheduler)@.wf(table.tasks@.len()),
    {
        let dp_end = self.earliest(false);
        scheduler.recompute_and_apply(table, pool, &self.current, now, dp_end)
    }

    /// Grants every DAG its first segment's share, before dispatch begins.
    pub fn apply_initial_entitlement(
        &self,
        scheduler: &mut DpWrapScheduler,
        table: &TaskTable,
        pool: CpuSet,
        now: u64,
    ) -> (actions: Vec<EntitlementAction>)
        requires
            old(scheduler)@.wf(table.tasks@.len()),
        ensures
            entitles(self@, old(scheduler)@, final(scheduler)@, table, pool, now, actions@),
            final(scheduler)@.wf(table.tasks@.len()),
    {
        self.apply_current_entitlement(scheduler, table, pool, now)
    }
}

/// What applying the active segments does to the entitlements.
pub open spec fn entitles(
    partition: DpPartitionView,
    before: DpWrapView,
    after: DpWrapView,
    table: &TaskTable,
    pool: CpuSet,
    now: u64,
    actions: Seq<EntitlementAction>,
) -> bool {
    (after, actions) == apportioned_below(
        before,
        table.tasks@,
        table.cpus@,
        members(cpu_set_view(pool)),
        threads(partition.current),
        now,
        partition_length(now, partition_end(partition.pending)),
        members(cpu_set_view(pool)).len() as int,
    )
}

/// Whether a boundary's time has come.
pub open spec fn is_due(entry: BoundaryView, now: u64) -> bool {
    entry.scheduled <= now
}

/// The places, among the first `n` boundaries, of those that are due, ascending.
pub open spec fn due_below(pending: Seq<BoundaryView>, now: u64, n: int) -> Seq<usize>
    decreases n,
{
    if n <= 0 {
        Seq::empty()
    } else {
        let rest = due_below(pending, now, n - 1);
        if is_due(pending[n - 1], now) {
            rest.push((n - 1) as usize)
        } else {
            rest
        }
    }
}

/// Whether every node of a gate has processed a period: its period index is known and has
/// moved past [`NO_PERIOD_YET`].
pub open spec fn gate_satisfied(gate: Seq<Option<u32>>) -> bool {
    forall|k: int|
        0 <= k < gate.len() ==> ((#[trigger] gate[k]) matches Some(p) && p != NO_PERIOD_YET)
}

/// For each boundary that is due, the period indices of the nodes it waits for.
pub type Gates = Seq<Seq<Option<u32>>>;

/// There is one gate for each boundary that is due, with one period index for each of its
/// nodes.
pub open spec fn gates_match(pending: Seq<BoundaryView>, now: u64, gates: Gates) -> bool {
    &&& gates.len() == due_below(pending, now, pending.len() as int).len()
    &&& forall|i: int|
        0 <= i < pending.len() && is_due(#[trigger] pending[i], now) ==> gates[due_below(
            pending,
            now,
            i,
        ).len() as int].len() == pending[i].gate_nodes.len()
}

/// Whether the boundary at place `i` is due and its gate is satisfied.
pub open spec fn clears(pending: Seq<BoundaryView>, now: u64, gates: Gates, i: int) -> bool {
    is_due(pending[i], now) && gate_satisfied(gates[due_below(pending, now, i).len() as int])
}

/// Whether the boundary at place `i` is due and its gate is not satisfied.
pub open spec fn blocks(pending: Seq<BoundaryView>, now: u64, gates: Gates, i: int) -> bool {
    is_due(pending[i], now) && !gate_satisfied(gates[due_below(pending, now, i).len() as int])
}

/// The places, among the first `n` boundaries, of those that the DAGs move past.
pub open spec fn cleared_below(pending: Seq<BoundaryView>, now: u64, gates: Gates, n: int) -> Seq<
    usize,
>
    decreases n,
{
    if n <= 0 {
        Seq::empty()
    } else {
        let rest = cleared_below(pending, now, gates, n - 1);
        if clears(pending, now, gates, n - 1) {
            rest.push((n - 1) as usize)
        } else {
            rest
        }
    }
}

/// The boundaries with those marked that are overdue.
pub open spec fn warned(pending: Seq<BoundaryView>, now: u64, gates: Gates) -> Seq<BoundaryView> {
    Seq::new(
        pending.len(),
        |i: int|
            if blocks(pending, now, gates, i) {
                BoundaryView { warned_overrun: true, ..pending[i] }
            } else {
                pending[i]
            },
    )
}

/// A boundary that is overdue and was not reported before.
#[derive(Debug, Clone, Copy, PartialEq, Eq, Structural)]
pub struct Overrun {
    pub dag_id: u32,
    pub segment_index: usize,
    /// How long ago it was due.
    pub overrun: u64,
}

/// The overruns to report among the first `n` boundaries.
pub open spec fn overruns_below(pending: Seq<BoundaryView>, now: u64, gates: Gates, n: int) -> Seq<
    Overrun,
>
    decreases n,
{
    if n <= 0 {
        Seq::empty()
    } else {
        let rest = overruns_below(pending, now, gates, n - 1);
        let entry = pending[n - 1];
        if blocks(pending, now, gates, n - 1) && !entry.warned_overrun {
            rest.push(
                Overrun {
                    dag_id: entry.dag_id,
                    segment_index: entry.segment_index,
                    overrun: (now - entry.scheduled) as u64,
                },
            )
        } else {
            rest
        }
    }
}

/// A sequence with the element at place `i` replaced by the last one, which leaves its own
/// place.
pub open spec fn without_place<T>(s: Seq<T>, i: int) -> Seq<T> {
    s.update(i, s.last()).drop_last()
}

/// What is left of a sequence, and what was taken out, once the elements at the given
/// places, ascending, have been taken out from the last place on.
pub open spec fn taken_out<T>(s: Seq<T>, places: Seq<usize>) -> (Seq<T>, Seq<T>)
    decreases places.len(),
{
    if places.len() == 0 {
        (s, Seq::empty())
    } else {
        let i = places.last() as int;
        let (left, out) = taken_out(without_place(s, i), places.drop_last());
        (left, seq![s[i]] + out)
    }
}

/// A boundary that a DAG has moved past.
#[derive(Debug, Clone, Copy, PartialEq, Eq, Structural)]
pub struct Completion {
    pub dag_id: u32,
    pub segment_index: usize,
    pub scheduled: u64,
    /// How late its gate was satisfied.
    pub latency: u64,
    /// Whether it had been reported overdue.
    pub warned_overrun: bool,
}

/// What is reported of the boundaries that DAGs have moved past.
pub open spec fn completions(removed: Seq<BoundaryView>, now: u64) -> Seq<Completion> {
    Seq::new(
        removed.len(),
        |i: int|
            Completion {
                dag_id: removed[i].dag_id,
                segment_index: removed[i].segment_index,
                scheduled: removed[i].scheduled,
                latency: (now - removed[i].scheduled) as u64,
                warned_overrun: removed[i].warned_overrun,
            },
    )
}

/// The place, among the first `n` boundaries, of the DAG's boundary with the smallest
/// segment index.
pub open spec fn next_segment_below(pending: Seq<BoundaryView>, dag_id: u32, n: int) -> Option<int>
    decreases n,
{
    if n <= 0 {
        None
    } else {
        let best = next_segment_below(pending, dag_id, n - 1);
        if pending[n - 1].dag_id != dag_id {
            best
        } else {
            match best {
                Some(b) if pending[b].segment_index <= pending[n - 1].segment_index => best,
                _ => Some(n - 1),
            }
        }
    }
}

/// The active segments once the DAG has moved on: its next segment, or none.
pub open spec fn moved_on(current: Seq<Density>, pending: Seq<BoundaryView>, dag_id: u32) -> Seq<
    Density,
> {
    match next_segment_below(pending, dag_id, pending.len() as int) {
        Some(b) => with_density(
            current,
            (dag_id, pending[b].concurrency, pending[b].rate),
        ),
        None => without_density(current, dag_id),
    }
}

/// The active segments once the DAGs of the first `n` removed boundaries have moved on.
pub open spec fn moved_on_below(
    current: Seq<Density>,
    pending: Seq<BoundaryView>,
    removed: Seq<BoundaryView>,
    n: int,
) -> Seq<Density>
    decreases n,
{
    if n <= 0 {
        current
    } else {
        moved_on(
            moved_on_below(current, pending, removed, n - 1),
            pending,
            removed[n - 1].dag_id,
        )
    }
}

/// The state once every DAG has moved past its cleared boundaries, and the boundaries that
/// were passed.
pub open spec fn advanced(view: DpPartitionView, now: u64, gates: Gates) -> (
    DpPartitionView,
    Seq<BoundaryView>,
) {
    let n = view.pending.len() as int;
    let (left, removed) = taken_out(
        warned(view.pending, now, gates),
        cleared_below(view.pending, now, gates, n),
    );
    (
        DpPartitionView {
            pending: left,
            current: moved_on_below(view.current, left, removed, removed.len() as int),
        },
        removed,
    )
}

/// What advancing reports.
pub struct Advance {
    /// Boundaries newly found overdue.
    pub overruns: Vec<Overrun>,
    /// Boundaries that were passed.
    pub completions: Vec<Completion>,
}

/// The views of gates.
pub open spec fn gates_view(gates: Seq<Vec<Option<u32>>>) -> Gates {
    Seq::new(gates.len(), |i: int| gates[i]@)
}

fn gate_satisfied_from_cache(gate: &Vec<Option<u32>>) -> (r: bool)
    ensures
        r == gate_satisfied(gate@),
{
    let mut k: usize = 0;
    while k < gate.len()
        invariant
            k <= gate@.len(),
            forall|i: int|
                0 <= i < k ==> ((#[trigger] gate@[i]) matches Some(p) && p != NO_PERIOD_YET),
        decreases gate@.len() - k,
    {
        let satisfied: bool = match gate[k] {
            Some(p) => p != NO_PERIOD_YET,
            None => false,
        };
        if !satisfied {
            assert(!(gate@[k as int] matches Some(p) && p != NO_PERIOD_YET));
            return false;
        }
        k = k + 1;
    }
    true
}

proof fn lemma_due_grows(pending: Seq<BoundaryView>, now: u64, low: int, high: int)
    requires
        low <= high,
    ensures
        due_below(pending, now, low).len() <= due_below(pending, now, high).len(),
    decreases high - low,
{
    if low < high {
        lemma_due_grows(pending, now, low, high - 1);
    }
}

proof fn lemma_cleared_below(pending: Seq<BoundaryView>, now: u64, gates: Gates, n: int)
    requires
        0 <= n <= pending.len() <= usize::MAX,
    ensures
        forall|k: int|
            0 <= k < cleared_below(pending, now, gates, n).len() ==> (#[trigger] cleared_below(
                pending,
                now,
                gates,
                n,
            )[k]) < n && clears(pending, now, gates, cleared_below(pending, now, gates, n)[k] as int),
        forall|j: int, k: int|
            0 <= j < k < cleared_below(pending, now, gates, n).len() ==> cleared_below(
                pending,
                now,
                gates,
                n,
            )[j] < cleared_below(pending, now, gates, n)[k],
    decreases n,
{
    if n > 0 {
        lemma_cleared_below(pending, now, gates, n - 1);
        let rest = cleared_below(pending, now, gates, n - 1);
        let all = cleared_below(pending, now, gates, n);
        assert forall|k: int| 0 <= k < all.len() implies (#[trigger] all[k]) < n && clears(
            pending,
            now,
            gates,
            all[k] as int,
        ) by {
            if k < rest.len() {
                assert(all[k] == rest[k]);
            }
        }
        assert forall|j: int, k: int| 0 <= j < k < all.len() implies all[j] < all[k] by {
            assert(all[j] == rest[j]);
            if k < rest.len() {
                assert(all[k] == rest[k]);
            }
        }
    }
}

impl DpPartition {
    /// The places of the boundaries that are due, ascending: those whose gates have to be
    /// looked up before [`DpPartition::advance_due_segments`].
    pub fn due_boundaries(&self, now: u64) -> (due: Vec<usize>)
        ensures
            due@ == due_below(self@.pending, now, self@.pending.len() as int),
    {
        let mut due: Vec<usize> = Vec::new();
        let mut i: usize = 0;
        while i < self.pending.len()
            invariant
                i <= self.pending@.len(),
                due@ == due_below(self@.pending, now, i as int),
            decreases self.pending@.len() - i,
        {
            assert(self@.pending[i as int] == self.pending@[i as int]@);
            if self.pending[i].scheduled <= now {
                due.push(i);
            }
            i = i + 1;
        }
        due
    }

    /// Marks the boundaries that are overdue, and finds those that are cleared.
    fn check_gates(&mut self, now: u64, gates: &Vec<Vec<Option<u32>>>) -> (found: (
        Vec<Overrun>,
        Vec<usize>,
    ))
        requires
            gates_match(old(self)@.pending, now, gates_view(gates@)),
        ensures
            final(self)@ == (DpPartitionView {
                pending: warned(old(self)@.pending, now, gates_view(gates@)),
                ..old(self)@
            }),
            found.0@ == overruns_below(
                old(self)@.pending,
                now,
                gates_view(gates@),
                old(self)@.pending.len() as int,
            ),
            found.1@ == cleared_below(
                old(self)@.pending,
                now,
                gates_view(gates@),
                old(self)@.pending.len() as int,
            ),
    {
        let ghost start = self@.pending;
        let ghost views = gates_view(gates@);
        let mut overruns: Vec<Overrun> = Vec::new();
        let mut cleared: Vec<usize> = Vec::new();
        let mut j: usize = 0;
        let mut i: usize = 0;
        while i < self.pending.len()
            invariant
                i <= self.pending@.len(),
                start == old(self)@.pending,
                views == gates_view(gates@),
                gates_match(start, now, views),
                self@.current == old(self)@.current,
                self.pending@.len() == start.len(),
                j == due_below(start, now, i as int).len(),
                forall|k: int|
                    0 <= k < start.len() ==> (#[trigger] self.pending@[k])@ == if k < i && blocks(
                        start,
                        now,
                        views,
                        k,
                    ) {
                        BoundaryView { warned_overrun: true, ..start[k] }
                    } else {
                        start[k]
                    },
                overruns@ == overruns_below(start, now, views, i as int),
                cleared@ == cleared_below(start, now, views, i as int),
            decreases self.pending@.len() - i,
        {
            assert(self.pending@[i as int]@ == start[i as int]);
            if self.pending[i].scheduled <= now {
                proof {
                    lemma_due_grows(start, now, i + 1, start.len() as int);
                    assert(views[j as int] == gates@[j as int]@);
                    assert(j < gates.len());
                }
                if gate_satisfied_from_cache(&gates[j]) {
                    cleared.push(i);
                } else if !self.pending[i].warned_overrun {
                    overruns.push(
                        Overrun {
                            dag_id: self.pending[i].dag_id,
                            segment_index: self.pending[i].segment_index,
                            overrun: now - self.pending[i].scheduled,
                        },
                    );
                    self.pending[i].warned_overrun = true;
                }
                j = j + 1;
            }
            i = i + 1;
        }
        assert(self@.pending =~= warned(start, now, views));
        (overruns, cleared)
    }

    /// Takes the boundaries at the given places, ascending, out.
    fn take_out(&mut self, places: &Vec<usize>) -> (removed: Vec<BoundaryEntry>)
        requires
            forall|k: int| 0 <= k < places@.len() ==> (#[trigger] places@[k])
                < old(self)@.pending.len(),
            forall|j: int, k: int| 0 <= j < k < places@.len() ==> places@[j] < places@[k],
        ensures
            (final(self)@.pending, boundaries(removed@)) == taken_out(
                old(self)@.pending,
                places@,
            ),
            final(self)@.current == old(self)@.current,
    {
        let ghost start = self@.pending;
        let mut removed: Vec<BoundaryEntry> = Vec::new();
        let mut k: usize = places.len();
        assert(places@.take(k as int) =~= places@);
        assert(boundaries(removed@) + taken_out(start, places@).1 =~= taken_out(start, places@).1);
        while k > 0
            invariant
                k <= places@.len(),
                start == old(self)@.pending,
                self@.current == old(self)@.current,
                self.pending@.len() == start.len() - (places@.len() - k),
                forall|i: int| 0 <= i < places@.len() ==> (#[trigger] places@[i]) < start.len(),
                forall|i: int, j: int| 0 <= i < j < places@.len() ==> places@[i] < places@[j],
                k < places@.len() ==> places@[k as int] <= self.pending@.len(),
                taken_out(start, places@).0 == taken_out(
                    self@.pending,
                    places@.take(k as int),
                ).0,
                taken_out(start, places@).1 == boundaries(removed@) + taken_out(
                    self@.pending,
                    places@.take(k as int),
                ).1,
            decreases k,
        {
            k = k - 1;
            let place: usize = places[k];
            let ghost before = self@.pending;
            let ghost removed_before = boundaries(removed@);
            proof {
                if k + 1 < places@.len() {
                    assert(places@[k as int] < places@[k + 1]);
                }
                assert(places@.take(k + 1).drop_last() =~= places@.take(k as int));
                assert(places@.take(k + 1).last() == place);
            }
            let entry = self.pending.swap_remove(place);
            let ghost view = entry@;
            removed.push(entry);
            proof {
                assert(view == before[place as int]);
                assert(self@.pending =~= without_place(before, place as int));
                assert(boundaries(removed@) =~= removed_before.push(view));
                let rest = taken_out(self@.pending, places@.take(k as int)).1;
                assert(removed_before + (seq![view] + rest) =~= removed_before.push(view) + rest);
            }
        }
        assert(places@.take(0) =~= Seq::<usize>::empty());
        assert(boundaries(removed@) + Seq::<BoundaryView>::empty() =~= boundaries(removed@));
        removed
    }

    fn next_segment(&self, dag_id: u32) -> (next: Option<usize>)
        ensures
            match next_segment_below(self@.pending, dag_id, self@.pending.len() as int) {
                None => next is None,
                Some(b) => next matches Some(i) && i == b && i < self@.pending.len(),
            },
    {
        let mut best: Option<usize> = None;
        let mut i: usize = 0;
        while i < self.pending.len()
            invariant
                i <= self.pending@.len(),
                match next_segment_below(self@.pending, dag_id, i as int) {
                    None => best is None,
                    Some(b) => best matches Some(k) && k == b && k < self@.pending.len(),
                },
            decreases self.pending@.len() - i,
        {
            assert(self@.pending[i as int] == self.pending@[i as int]@);
            if self.pending[i].dag_id == dag_id {
                best =
                match best {
                    Some(b) => {
                        assert(self@.pending[b as int] == self.pending@[b as int]@);
                        if self.pending[b].segment_index <= self.pending[i].segment_index {
                            Some(b)
                        } else {
                            Some(i)
                        }
                    },
                    None => Some(i),
                };
            }
            i = i + 1;
        }
        best
    }

    /// Moves every DAG past its boundaries that are due and whose gates are satisfied. The
    /// gates are given for the boundaries that are due, in the order of
    /// [`DpPartition::due_boundaries`]: the period index of each gate node, if it is known.
    /// A boundary whose gate is not satisfied stays, and is reported once as overdue.
    pub fn advance_due_segments(&mut self, now: u64, gates: &Vec<Vec<Option<u32>>>) -> (advance:
        Advance)
        requires
            gates_match(old(self)@.pending, now, gates_view(gates@)),
        ensures
            ({
                let (after, removed) = advanced(old(self)@, now, gates_view(gates@));
                &&& final(self)@ == after
                &&& advance.completions@ == completions(removed, now)
            }),
            advance.overruns@ == overruns_below(
                old(self)@.pending,
                now,
                gates_view(gates@),
                old(self)@.pending.len() as int,
            ),
            ids_ascend(old(self)@.current) ==> ids_ascend(final(self)@.current),
    {
        let ghost start = self@;
        let ghost views = gates_view(gates@);
        assert(start.pending.len() == self.pending.len());
        let (overruns, cleared) = self.check_gates(now, gates);
        proof {
            lemma_cleared_below(start.pending, now, views, start.pending.len() as int);
        }
        let removed = self.take_out(&cleared);
        let ghost gone = boundaries(removed@);
        let ghost left = self@.pending;
        proof {
            let marked = warned(start.pending, now, views);
            assert forall|k: int| 0 <= k < cleared@.len() implies (#[trigger] cleared@[k])
                < marked.len() && marked[cleared@[k] as int].scheduled <= now by {
                assert(clears(start.pending, now, views, cleared@[k] as int));
            }
            lemma_taken_out_due(marked, cleared@, now);
            assert(gone == taken_out(marked, cleared@).1);
        }
        let mut done: Vec<Completion> = Vec::new();
        let mut k: usize = 0;
        while k < removed.len()
            invariant
                k <= removed@.len(),
                gone == boundaries(removed@),
                forall|i: int| 0 <= i < gone.len() ==> (#[trigger] gone[i]).scheduled <= now,
                self@.pending == left,
                self@.current == moved_on_below(start.current, left, gone, k as int),
                done@ == completions(gone, now).take(k as int),
            decreases removed@.len() - k,
        {
            let entry = &removed[k];
            assert(gone[k as int] == entry@);
            done.push(
                Completion {
                    dag_id: entry.dag_id,
                    segment_index: entry.segment_index,
                    scheduled: entry.scheduled,
                    latency: now - entry.scheduled,
                    warned_overrun: entry.warned_overrun,
                },
            );
            match self.next_segment(entry.dag_id) {
                Some(b) => {
                    assert(left[b as int] == self.pending@[b as int]@);
                    let concurrency: u32 = self.pending[b].concurrency;
                    let rate: u64 = self.pending[b].rate;
                    self.set_current((entry.dag_id, concurrency, rate));
                },
                None => {
                    self.clear_current(entry.dag_id);
                },
            }
            k = k + 1;
            assert(done@ =~= completions(gone, now).take(k as int));
        }
        assert(done@ =~= completions(gone, now));
        proof {
            if ids_ascend(start.current) {
                lemma_moving_on_keeps_order(start.current, left, gone, gone.len() as int);
            }
        }
        Advance { overruns, completions: done }
    }

    /// Moves every DAG past its boundaries that are due and whose gates are satisfied, as
    /// [`DpPartition::advance_due_segments`] does at the time `now`. Exactly if any boundary
    /// was passed, the entitlement of every CPU of the pool is then recomputed, for the
    /// deadline partition that begins at `dp_start`.
    pub fn advance_and_apply(
        &mut self,
        now: u64,
        gates: &Vec<Vec<Option<u32>>>,
        scheduler: &mut DpWrapScheduler,
        table: &TaskTable,
        pool: CpuSet,
        dp_start: u64,
    ) -> (result: (Advance, Option<Vec<EntitlementAction>>))
        requires
            gates_match(old(self)@.pending, now, gates_view(gates@)),
            old(scheduler)@.wf(table.tasks@.len()),
        ensures
            ({
                let (after, removed) = advanced(old(self)@, now, gates_view(gates@));
                &&& final(self)@ == after
                &&& result.0.completions@ == completions(removed, now)
                &&& match result.1 {
                    Some(actions) => {
                        &&& removed.len() > 0
                        &&& entitles(
                            after,
                            old(scheduler)@,
                            final(scheduler)@,
                            table,
                            pool,
                            dp_start,
                            actions@,
                        )
                    },
                    None => removed.len() == 0 && final(scheduler)@ == old(scheduler)@,
                }
            }),
            result.0.overruns@ == overruns_below(
                old(self)@.pending,
                now,
                gates_view(gates@),
                old(self)@.pending.len() as int,
            ),
            ids_ascend(old(self)@.current) ==> ids_ascend(final(self)@.current),
            final(scheduler)@.wf(table.tasks@.len()),
    {
        let advance = self.advance_due_segments(now, gates);
        if advance.completions.len() == 0 {
            return (advance, None);
        }
        let actions = self.apply_current_entitlement(scheduler, table, pool, dp_start);
        (advance, Some(actions))
    }
}

/// Moving on keeps one active segment per DAG, by ascending identifier.
proof fn lemma_moving_on_keeps_order(
    current: Seq<Density>,
    pending: Seq<BoundaryView>,
    removed: Seq<BoundaryView>,
    n: int,
)
    requires
        ids_ascend(current),
    ensures
        ids_ascend(moved_on_below(current, pending, removed, n)),
    decreases n,
{
    if n > 0 {
        lemma_moving_on_keeps_order(current, pending, removed, n - 1);
        let before = moved_on_below(current, pending, removed, n - 1);
        let dag_id = removed[n - 1].dag_id;
        match next_segment_below(pending, dag_id, pending.len() as int) {
            Some(b) => {
                lemma_with_density(before, (dag_id, pending[b].concurrency, pending[b].rate));
            },
            None => {
                lemma_without_density(before, dag_id);
            },
        }
    }
}

/// What is taken out was due.
proof fn lemma_taken_out_due(s: Seq<BoundaryView>, places: Seq<usize>, now: u64)
    requires
        forall|k: int|
            0 <= k < places.len() ==> (#[trigger] places[k]) < s.len() && s[places[k] as int].scheduled
                <= now,
        forall|j: int, k: int| 0 <= j < k < places.len() ==> places[j] < places[k],
    ensures
        forall|i: int|
            0 <= i < taken_out(s, places).1.len() ==> (#[trigger] taken_out(
                s,
                places,
            ).1[i]).scheduled <= now,
    decreases places.len(),
{
    if places.len() > 0 {
        let i = places.last() as int;
        assert(places[places.len() - 1] == i);
        let shorter = without_place(s, i);
        let rest = places.drop_last();
        assert forall|k: int| 0 <= k < rest.len() implies (#[trigger] rest[k]) < shorter.len()
            && shorter[rest[k] as int].scheduled <= now by {
            assert(rest[k] == places[k]);
            assert(places[k] < places[places.len() - 1]);
            assert(shorter[rest[k] as int] == s[places[k] as int]);
        }
        lemma_taken_out_due(shorter, rest, now);
        let out = taken_out(shorter, rest).1;
        let all = taken_out(s, places).1;
        assert forall|m: int| 0 <= m < all.len() implies (#[trigger] all[m]).scheduled <= now by {
            if m > 0 {
                assert(all[m] == out[m - 1]);
            }
        }
    }
}

/// A boundary's time is observed at most once: what has been observed at one time is not
/// observed again, then or later.
pub proof fn lemma_boundary_is_observed_once(
    pending: Seq<BoundaryView>,
    now: u64,
    later: u64,
    i: int,
)
    requires
        0 <= i < pending.len(),
        is_observed(pending[i], now),
    ensures
        !is_observed(all_observed(pending, now)[i], later),
{
}

/// An overdue boundary is reported at most once: it is marked when its gate is found not
/// satisfied, stays marked, and nothing is reported of a marked boundary.
pub proof fn lemma_overrun_is_reported_once(
    pending: Seq<BoundaryView>,
    now: u64,
    gates: Gates,
    i: int,
)
    requires
        0 <= i < pending.len(),
    ensures
        blocks(pending, now, gates, i) || pending[i].warned_overrun ==> warned(
            pending,
            now,
            gates,
        )[i].warned_overrun,
        pending[i].warned_overrun ==> overruns_below(pending, now, gates, i + 1)
            == overruns_below(pending, now, gates, i),
{
}

proof fn lemma_taken_out_keeps<T>(s: Seq<T>, places: Seq<usize>, k: int)
    requires
        forall|j: int| 0 <= j < places.len() ==> (#[trigger] places[j]) < s.len() && places[j] != k,
        forall|j: int, m: int| 0 <= j < m < places.len() ==> places[j] < places[m],
        0 <= k < s.len(),
    ensures
        taken_out(s, places).0.contains(s[k]),
    decreases places.len(),
{
    if places.len() > 0 {
        let i = places.last() as int;
        assert(places[places.len() - 1] == i);
        let shorter = without_place(s, i);
        let rest = places.drop_last();
        let moved = if k == s.len() - 1 {
            i
        } else {
            k
        };
        assert(shorter[moved] == s[k]);
        assert forall|j: int| 0 <= j < rest.len() implies (#[trigger] rest[j]) < shorter.len()
            && rest[j] != moved by {
            assert(rest[j] == places[j]);
            assert(places[j] < places[places.len() - 1]);
        }
        lemma_taken_out_keeps(shorter, rest, moved);
    } else {
        assert(taken_out(s, places).0[k] == s[k]);
    }
}

proof fn lemma_taken_out_were_at_places<T>(s: Seq<T>, places: Seq<usize>, m: int)
    requires
        forall|j: int| 0 <= j < places.len() ==> (#[trigger] places[j]) < s.len(),
        forall|j: int, k: int| 0 <= j < k < places.len() ==> places[j] < places[k],
        0 <= m < places.len(),
    ensures
        taken_out(s, places).1.len() == places.len(),
        taken_out(s, places).1[m] == s[places[places.len() - 1 - m] as int],
    decreases places.len(),
{
    let i = places.last() as int;
    assert(places[places.len() - 1] == i);
    let shorter = without_place(s, i);
    let rest = places.drop_last();
    assert forall|j: int| 0 <= j < rest.len() implies (#[trigger] rest[j]) < shorter.len() by {
        assert(rest[j] == places[j]);
        assert(places[j] < places[places.len() - 1]);
    }
    let out = taken_out(shorter, rest).1;
    if rest.len() > 0 {
        lemma_taken_out_were_at_places(shorter, rest, if m > 0 {
            m - 1
        } else {
            0
        });
        if m > 0 {
            let p = rest[rest.len() - 1 - (m - 1)] as int;
            assert(p == places[places.len() - 1 - m]);
            assert(places[places.len() - 1 - m] < places[places.len() - 1]);
            assert(out[m - 1] == shorter[p]);
            assert(shorter[p] == s[p]);
        }
    } else {
        assert(out.len() == 0);
    }
}

/// A boundary that is not due, or whose gate is not satisfied, stays: no DAG is moved on
/// before the work of its segment is done.
pub proof fn lemma_unfinished_boundaries_stay(
    view: DpPartitionView,
    now: u64,
    gates: Gates,
    i: int,
)
    requires
        0 <= i < view.pending.len() <= usize::MAX,
        !clears(view.pending, now, gates, i),
    ensures
        advanced(view, now, gates).0.pending.contains(warned(view.pending, now, gates)[i]),
{
    let n = view.pending.len() as int;
    let places = cleared_below(view.pending, now, gates, n);
    lemma_cleared_below(view.pending, now, gates, n);
    lemma_taken_out_keeps(warned(view.pending, now, gates), places, i);
}

/// Every boundary that a DAG is moved past was due and had its gate satisfied.
pub proof fn lemma_passed_boundaries_were_cleared(
    view: DpPartitionView,
    now: u64,
    gates: Gates,
    m: int,
)
    requires
        view.pending.len() <= usize::MAX,
        0 <= m < advanced(view, now, gates).1.len(),
    ensures
        exists|i: int|
            0 <= i < view.pending.len() && #[trigger] clears(view.pending, now, gates, i)
                && advanced(view, now, gates).1[m] == view.pending[i],
{
    let n = view.pending.len() as int;
    let marked = warned(view.pending, now, gates);
    let places = cleared_below(view.pending, now, gates, n);
    lemma_cleared_below(view.pending, now, gates, n);
    if places.len() > 0 {
        lemma_taken_out_were_at_places(marked, places, 0);
    }
    assert(m < places.len());
    lemma_taken_out_were_at_places(marked, places, m);
    let i = places[places.len() - 1 - m] as int;
    assert(clears(view.pending, now, gates, i));
    assert(marked[i] == view.pending[i]);
}

/// Recording a DAG's active segment keeps one entry per DAG, by ascending identifier, and
/// changes no other DAG's.
pub proof fn lemma_with_density(current: Seq<Density>, density: Density)
    requires
        ids_ascend(current),
    ensures
        ids_ascend(with_density(current, density)),
        forall|d: Density| #[trigger]
            with_density(current, density).contains(d) <==> d == density || (current.contains(d)
                && d.0 != density.0),
    decreases current.len(),
{
    let result = with_density(current, density);
    if current.len() == 0 || current.last().0 < density.0 {
        assert forall|i: int, j: int|
            #![trigger result[i], result[j]]
            0 <= i < j < result.len() implies result[i].0 < result[j].0 by {
            assert(current[i] == result[i]);
            if j < current.len() {
                assert(current[j] == result[j]);
            } else if i < current.len() - 1 {
                assert(current[i].0 < current[current.len() - 1].0);
            }
        }
        assert forall|d: Density| #[trigger] result.contains(d) <==> d == density || (
        current.contains(d) && d.0 != density.0) by {
            if result.contains(d) {
                let i = choose|i: int| 0 <= i < result.len() && result[i] == d;
                if i < current.len() {
                    assert(current[i] == d);
                    assert(result[i].0 < result[current.len() as int].0);
                }
            }
            if current.contains(d) {
                let i = choose|i: int| 0 <= i < current.len() && current[i] == d;
                assert(result[i] == d);
            }
            assert(result[current.len() as int] == density);
        }
    } else {
        let rest = current.drop_last();
        let last = current.last();
        assert(last == current[current.len() - 1]);
        assert forall|i: int, j: int|
            #![trigger rest[i], rest[j]]
            0 <= i < j < rest.len() implies rest[i].0 < rest[j].0 by {
            assert(current[i] == rest[i] && current[j] == rest[j]);
        }
        assert forall|i: int| 0 <= i < rest.len() implies (#[trigger] rest[i]).0 < last.0 by {
            assert(current[i] == rest[i]);
            assert(current[i].0 < current[current.len() - 1].0);
        }
        let front = if last.0 == density.0 {
            rest
        } else {
            with_density(rest, density)
        };
        let end = if last.0 == density.0 {
            density
        } else {
            last
        };
        if last.0 != density.0 {
            lemma_with_density(rest, density);
        }
        assert(result == front.push(end));
        assert forall|i: int| 0 <= i < front.len() implies (#[trigger] front[i]).0 < end.0 by {
            assert(front.contains(front[i]));
            if front[i] != density || last.0 == density.0 {
                assert(rest.contains(front[i]));
                let k = choose|k: int| 0 <= k < rest.len() && rest[k] == front[i];
                assert(rest[k].0 < last.0);
            }
        }
        assert forall|i: int, j: int|
            #![trigger result[i], result[j]]
            0 <= i < j < result.len() implies result[i].0 < result[j].0 by {
            assert(front[i] == result[i]);
            if j < front.len() {
                assert(front[j] == result[j]);
            }
        }
        assert forall|d: Density| #[trigger] result.contains(d) <==> d == density || (
        current.contains(d) && d.0 != density.0) by {
            if result.contains(d) {
                let i = choose|i: int| 0 <= i < result.len() && result[i] == d;
                if i < front.len() {
                    assert(front[i] == d);
                    assert(front.contains(d));
                    if d != density {
                        let k = choose|k: int| 0 <= k < rest.len() && rest[k] == d;
                        assert(current[k] == d);
                    }
                } else {
                    assert(current[current.len() - 1] == last);
                }
            }
            if d == density || (current.contains(d) && d.0 != density.0) {
                if d == end {
                    assert(result[front.len() as int] == d);
                } else {
                    if d != density {
                        let k = choose|k: int| 0 <= k < current.len() && current[k] == d;
                        assert(rest[k] == d);
                    }
                    assert(front.contains(d));
                    let i = choose|i: int| 0 <= i < front.len() && front[i] == d;
                    assert(result[i] == d);
                }
            }
        }
    }
}

/// Forgetting a DAG's active segment drops exactly that DAG's entry.
pub proof fn lemma_without_density(current: Seq<Density>, dag_id: u32)
    requires
        ids_ascend(current),
    ensures
        ids_ascend(without_density(current, dag_id)),
        forall|d: Density| #[trigger]
            without_density(current, dag_id).contains(d) <==> current.contains(d) && d.0 != dag_id,
    decreases current.len(),
{
    if current.len() > 0 {
        let rest = current.drop_last();
        let last = current.last();
        assert(last == current[current.len() - 1]);
        assert forall|i: int, j: int|
            #![trigger rest[i], rest[j]]
            0 <= i < j < rest.len() implies rest[i].0 < rest[j].0 by {
            assert(current[i] == rest[i] && current[j] == rest[j]);
        }
        lemma_without_density(rest, dag_id);
        let front = without_density(rest, dag_id);
        let result = without_density(current, dag_id);
        assert forall|i: int| 0 <= i < front.len() implies (#[trigger] front[i]).0 < last.0 by {
            assert(front.contains(front[i]));
            let k = choose|k: int| 0 <= k < rest.len() && rest[k] == front[i];
            assert(current[k].0 < current[current.len() - 1].0);
        }
        assert forall|i: int, j: int|
            #![trigger result[i], result[j]]
            0 <= i < j < result.len() implies result[i].0 < result[j].0 by {
            assert(front[i] == result[i]);
            if j < front.len() {
                assert(front[j] == result[j]);
            }
        }
        assert forall|d: Density| #[trigger] result.contains(d) <==> current.contains(d) && d.0
            != dag_id by {
            if result.contains(d) {
                let i = choose|i: int| 0 <= i < result.len() && result[i] == d;
                if i < front.len() {
                    assert(front[i] == d);
                    assert(front.contains(d));
                    let k = choose|k: int| 0 <= k < rest.len() && rest[k] == d;
                    assert(current[k] == d);
                } else {
                    assert(current[current.len() - 1] == d);
                }
            }
            if current.contains(d) && d.0 != dag_id {
                let k = choose|k: int| 0 <= k < current.len() && current[k] == d;
                if k < rest.len() {
                    assert(rest[k] == d);
                    assert(front.contains(d));
                    let i = choose|i: int| 0 <= i < front.len() && front[i] == d;
                    assert(result[i] == d);
                } else {
                    assert(result[front.len() as int] == d);
                }
            }
        }
    }
}

proof fn lemma_next_segment_below(pending: Seq<BoundaryView>, dag_id: u32, n: int)
    requires
        0 <= n <= pending.len(),
    ensures
        match next_segment_below(pending, dag_id, n) {
            None => forall|i: int| 0 <= i < n ==> (#[trigger] pending[i]).dag_id != dag_id,
            Some(b) => {
                &&& 0 <= b < n
                &&& pending[b].dag_id == dag_id
                &&& forall|i: int|
                    0 <= i < n && (#[trigger] pending[i]).dag_id == dag_id
                        ==> pending[b].segment_index <= pending[i].segment_index
            },
        },
    decreases n,
{
    if n > 0 {
        lemma_next_segment_below(pending, dag_id, n - 1);
    }
}

/// A DAG that moves on gets the density of its boundary with the smallest segment index
/// among those ahead, however they are arranged, and none if no boundary is ahead.
pub proof fn lemma_moves_to_next_segment(
    current: Seq<Density>,
    pending: Seq<BoundaryView>,
    dag_id: u32,
)
    requires
        ids_ascend(current),
    ensures
        ids_ascend(moved_on(current, pending, dag_id)),
        match next_segment_below(pending, dag_id, pending.len() as int) {
            None => {
                &&& forall|i: int|
                    0 <= i < pending.len() ==> (#[trigger] pending[i]).dag_id != dag_id
                &&& forall|d: Density| #[trigger]
                    moved_on(current, pending, dag_id).contains(d) ==> d.0 != dag_id
            },
            Some(b) => {
                &&& 0 <= b < pending.len()
                &&& pending[b].dag_id == dag_id
                &&& forall|i: int|
                    0 <= i < pending.len() && (#[trigger] pending[i]).dag_id == dag_id
                        ==> pending[b].segment_index <= pending[i].segment_index
                &&& moved_on(current, pending, dag_id).contains(
                    (dag_id, pending[b].concurrency, pending[b].rate),
                )
            },
        },
{
    lemma_next_segment_below(pending, dag_id, pending.len() as int);
    lemma_without_density(current, dag_id);
    match next_segment_below(pending, dag_id, pending.len() as int) {
        Some(b) => {
            lemma_with_density(current, (dag_id, pending[b].concurrency, pending[b].rate));
        },
        None => {},
    }
}

/// The boundaries that are due are those whose time has come: each is listed once, in the
/// order of the boundaries.
pub proof fn lemma_due_are_those_whose_time_has_come(pending: Seq<BoundaryView>, now: u64, n: int)
    requires
        0 <= n <= pending.len() <= usize::MAX,
    ensures
        ({
            let due = due_below(pending, now, n);
            &&& forall|i: int|
                0 <= i < n ==> (due.contains(i as usize) <==> (#[trigger] pending[i]).scheduled
                    <= now)
            &&& forall|j: int| 0 <= j < due.len() ==> (#[trigger] due[j]) < n
            &&& forall|j: int, k: int| 0 <= j < k < due.len() ==> due[j] < due[k]
            &&& forall|j: int|
                0 <= j < due.len() ==> due_below(pending, now, (#[trigger] due[j]) as int).len()
                    == j
        }),
    decreases n,
{
    if n > 0 {
        lemma_due_are_those_whose_time_has_come(pending, now, n - 1);
        let rest = due_below(pending, now, n - 1);
        let due = due_below(pending, now, n);
        let last = (n - 1) as usize;
        assert forall|j: int| 0 <= j < due.len() implies (#[trigger] due[j]) < n && due_below(
            pending,
            now,
            due[j] as int,
        ).len() == j by {
            if j < rest.len() {
                assert(due[j] == rest[j]);
            }
        }
        assert forall|j: int, k: int| 0 <= j < k < due.len() implies due[j] < due[k] by {
            assert(due[j] == rest[j]);
            if k < rest.len() {
                assert(due[k] == rest[k]);
            }
        }
        assert forall|i: int| 0 <= i < n implies (due.contains(i as usize) <==> (
        #[trigger] pending[i]).scheduled <= now) by {
            if i < n - 1 {
                if rest.contains(i as usize) {
                    let k = choose|k: int| 0 <= k < rest.len() && rest[k] == i as usize;
                    assert(due[k] == i as usize);
                }
                if due.contains(i as usize) {
                    let k = choose|k: int| 0 <= k < due.len() && due[k] == i as usize;
                    assert(k < rest.len());
                    assert(rest[k] == i as usize);
                }
            } else {
                if pending[i].scheduled <= now {
                    assert(due[rest.len() as int] == last);
                }
                if due.contains(last) {
                    let k = choose|k: int| 0 <= k < due.len() && due[k] == last;
                    if k < rest.len() {
                        assert(rest[k] == last);
                    }
                }
            }
        }
    }
}

/// Whether the `j`-th boundary that is due is the one at place `i`, so that the `j`-th gate
/// holds what is known of its nodes.
pub open spec fn is_due_at(pending: Seq<BoundaryView>, now: u64, i: int, j: int) -> bool {
    let due = due_below(pending, now, pending.len() as int);
    0 <= i < pending.len() && 0 <= j < due.len() && due[j] == i
}

/// Whether some node of a gate is not known, or has processed no period.
pub open spec fn some_node_unfinished(gate: Seq<Option<u32>>) -> bool {
    exists|k: int|
        0 <= k < gate.len() && ((#[trigger] gate[k]) is None || gate[k] == Some(NO_PERIOD_YET))
}

/// Whether a report is of this boundary, and says how long its time had been over.
pub open spec fn reports(report: Completion, entry: BoundaryView, now: u64) -> bool {
    &&& report.dag_id == entry.dag_id
    &&& report.segment_index == entry.segment_index
    &&& report.scheduled == entry.scheduled
    &&& report.latency == now - entry.scheduled
    &&& report.warned_overrun == entry.warned_overrun
}

/// A DAG moves past a boundary only when all of the segment's work is done. If every gate node
/// of a boundary that is due has processed a period, the boundary is passed. If one of them is
/// not known or has processed none, the boundary stays, marked as overdue.
pub proof fn lemma_boundary_waits_for_all_its_nodes(
    view: DpPartitionView,
    now: u64,
    gates: Gates,
    i: int,
    j: int,
)
    requires
        view.pending.len() <= usize::MAX,
        is_due_at(view.pending, now, i, j),
    ensures
        view.pending[i].scheduled <= now,
        some_node_unfinished(gates[j]) ==> advanced(view, now, gates).0.pending.contains(
            BoundaryView { warned_overrun: true, ..view.pending[i] },
        ),
        !some_node_unfinished(gates[j]) ==> advanced(view, now, gates).1.contains(view.pending[i]),
{
    let n = view.pending.len() as int;
    let due = due_below(view.pending, now, n);
    lemma_due_are_those_whose_time_has_come(view.pending, now, n);
    assert(due[j] == i);
    assert(due.contains(i as usize));
    let gate = gates[j];
    assert(is_due(view.pending[i], now));
    assert(gate_satisfied(gate) == !some_node_unfinished(gate)) by {
        if some_node_unfinished(gate) {
            let k = choose|k: int|
                0 <= k < gate.len() && ((#[trigger] gate[k]) is None || gate[k] == Some(
                    NO_PERIOD_YET,
                ));
            assert(!(gate[k] matches Some(p) && p != NO_PERIOD_YET));
        }
    }
    let marked = warned(view.pending, now, gates);
    let places = cleared_below(view.pending, now, gates, n);
    lemma_cleared_below(view.pending, now, gates, n);
    if some_node_unfinished(gate) {
        lemma_unfinished_boundaries_stay(view, now, gates, i);
        assert(blocks(view.pending, now, gates, i));
        assert(marked[i] == (BoundaryView { warned_overrun: true, ..view.pending[i] }));
    } else {
        assert(clears(view.pending, now, gates, i));
        lemma_cleared_below_all(view.pending, now, gates, n, i);
        let m = choose|m: int| 0 <= m < places.len() && places[m] == i;
        lemma_taken_out_were_at_places(marked, places, places.len() - 1 - m);
        assert(marked[i] == view.pending[i]);
        assert(taken_out(marked, places).1[places.len() - 1 - m] == view.pending[i]);
    }
}

proof fn lemma_cleared_below_all(pending: Seq<BoundaryView>, now: u64, gates: Gates, n: int, i: int)
    requires
        0 <= i < n <= pending.len() <= usize::MAX,
        clears(pending, now, gates, i),
    ensures
        cleared_below(pending, now, gates, n).contains(i as usize),
    decreases n,
{
    let all = cleared_below(pending, now, gates, n);
    let rest = cleared_below(pending, now, gates, n - 1);
    if i == n - 1 {
        assert(all[rest.len() as int] == i);
    } else {
        lemma_cleared_below_all(pending, now, gates, n - 1, i);
        let m = choose|m: int| 0 <= m < rest.len() && rest[m] == i;
        assert(all[m] == i);
    }
}

/// Every boundary that is reported as passed was one of those ahead, its time had come, and
/// each of its gate nodes has processed a period.
pub proof fn lemma_passed_boundaries_were_finished(
    view: DpPartitionView,
    now: u64,
    gates: Gates,
    m: int,
)
    requires
        view.pending.len() <= usize::MAX,
        0 <= m < completions(advanced(view, now, gates).1, now).len(),
    ensures
        exists|i: int, j: int|
            {
                &&& #[trigger] is_due_at(view.pending, now, i, j)
                &&& view.pending[i].scheduled <= now
                &&& !some_node_unfinished(gates[j])
                &&& advanced(view, now, gates).1[m] == view.pending[i]
                &&& reports(
                    completions(advanced(view, now, gates).1, now)[m],
                    view.pending[i],
                    now,
                )
            },
{
    let n = view.pending.len() as int;
    let due = due_below(view.pending, now, n);
    lemma_passed_boundaries_were_cleared(view, now, gates, m);
    let removed = advanced(view, now, gates).1;
    let i = choose|i: int|
        0 <= i < view.pending.len() && #[trigger] clears(view.pending, now, gates, i)
            && removed[m] == view.pending[i];
    lemma_due_are_those_whose_time_has_come(view.pending, now, n);
    assert(view.pending[i].scheduled <= now);
    let j = choose|j: int| 0 <= j < due.len() && due[j] == i as usize;
    assert(is_due_at(view.pending, now, i, j));
    assert(due_below(view.pending, now, due[j] as int).len() == j);
    assert(gate_satisfied(gates[j]));
}

/// A DAG keeps its active segment as long as none of its boundaries is passed: where every
/// boundary of the DAG is not due, or waits for a node that is not known or has processed no
/// period, the DAG's density is what it was.
pub proof fn lemma_waiting_dag_keeps_its_density(
    view: DpPartitionView,
    now: u64,
    gates: Gates,
    dag_id: u32,
)
    requires
        view.pending.len() <= usize::MAX,
        ids_ascend(view.current),
        forall|i: int, j: int|
            #[trigger] is_due_at(view.pending, now, i, j) && view.pending[i].dag_id == dag_id
                ==> some_node_unfinished(gates[j]),
    ensures
        forall|d: Density|
            d.0 == dag_id ==> (#[trigger] advanced(view, now, gates).0.current.contains(d)
                <==> view.current.contains(d)),
{
    let (after, removed) = advanced(view, now, gates);
    assert forall|m: int| 0 <= m < removed.len() implies (#[trigger] removed[m]).dag_id
        != dag_id by {
        lemma_passed_boundaries_were_finished(view, now, gates, m);
    }
    lemma_others_keep_their_density(
        view.current,
        after.pending,
        removed,
        dag_id,
        removed.len() as int,
    );
}

proof fn lemma_others_keep_their_density(
    current: Seq<Density>,
    pending: Seq<BoundaryView>,
    removed: Seq<BoundaryView>,
    dag_id: u32,
    n: int,
)
    requires
        ids_ascend(current),
        0 <= n <= removed.len(),
        forall|m: int| 0 <= m < removed.len() ==> (#[trigger] removed[m]).dag_id != dag_id,
    ensures
        forall|d: Density|
            d.0 == dag_id ==> (#[trigger] moved_on_below(current, pending, removed, n).contains(d)
                <==> current.contains(d)),
    decreases n,
{
    if n > 0 {
        lemma_others_keep_their_density(current, pending, removed, dag_id, n - 1);
        lemma_moving_on_keeps_order(current, pending, removed, n - 1);
        let before = moved_on_below(current, pending, removed, n - 1);
        let other = removed[n - 1].dag_id;
        assert(other != dag_id);
        match next_segment_below(pending, other, pending.len() as int) {
            Some(b) => {
                lemma_with_density(before, (other, pending[b].concurrency, pending[b].rate));
            },
            None => {
                lemma_without_density(before, other);
            },
        }
    }
}

/// A DAG that has passed a boundary is given the density of the segment that comes next: the
/// one with the smallest index among its boundaries still ahead. With none ahead it is given
/// none.
pub proof fn lemma_passed_dag_gets_its_next_segment(
    view: DpPartitionView,
    now: u64,
    gates: Gates,
    m: int,
)
    requires
        view.pending.len() <= usize::MAX,
        ids_ascend(view.current),
        0 <= m < advanced(view, now, gates).1.len(),
    ensures
        ({
            let (after, removed) = advanced(view, now, gates);
            let dag_id = removed[m].dag_id;
            forall|d: Density|
                d.0 == dag_id ==> (#[trigger] after.current.contains(d) <==> exists|b: int|
                    {
                        &&& 0 <= b < after.pending.len()
                        &&& d == (
                            dag_id,
                            (#[trigger] after.pending[b]).concurrency,
                            after.pending[b].rate,
                        )
                        &&& after.pending[b].dag_id == dag_id
                        &&& is_next_segment(after.pending, b)
                    })
        }),
{
    let (after, removed) = advanced(view, now, gates);
    lemma_moved_dag_gets_next(
        view.current,
        after.pending,
        removed,
        removed[m].dag_id,
        m,
        removed.len() as int,
    );
}

/// Whether the boundary at place `b` is its DAG's next: no other boundary of the DAG has a
/// smaller segment index, and none before it the same.
pub open spec fn is_next_segment(pending: Seq<BoundaryView>, b: int) -> bool {
    forall|i: int|
        0 <= i < pending.len() && (#[trigger] pending[i]).dag_id == pending[b].dag_id ==> {
            &&& pending[b].segment_index <= pending[i].segment_index
            &&& i < b ==> pending[b].segment_index < pending[i].segment_index
        }
}

proof fn lemma_next_segment_is_first(pending: Seq<BoundaryView>, dag_id: u32, n: int)
    requires
        0 <= n <= pending.len(),
    ensures
        match next_segment_below(pending, dag_id, n) {
            None => forall|i: int| 0 <= i < n ==> (#[trigger] pending[i]).dag_id != dag_id,
            Some(b) => {
                &&& 0 <= b < n
                &&& pending[b].dag_id == dag_id
                &&& forall|i: int|
                    0 <= i < n && (#[trigger] pending[i]).dag_id == dag_id ==> {
                        &&& pending[b].segment_index <= pending[i].segment_index
                        &&& i < b ==> pending[b].segment_index < pending[i].segment_index
                    }
            },
        },
    decreases n,
{
    if n > 0 {
        lemma_next_segment_is_first(pending, dag_id, n - 1);
    }
}

proof fn lemma_moved_dag_gets_next(
    current: Seq<Density>,
    pending: Seq<BoundaryView>,
    removed: Seq<BoundaryView>,
    dag_id: u32,
    m: int,
    n: int,
)
    requires
        ids_ascend(current),
        0 <= m < n <= removed.len(),
        removed[m].dag_id == dag_id,
    ensures
        forall|d: Density|
            d.0 == dag_id ==> (#[trigger] moved_on_below(current, pending, removed, n).contains(d)
                <==> exists|b: int|
                {
                    &&& 0 <= b < pending.len()
                    &&& d == (dag_id, (#[trigger] pending[b]).concurrency, pending[b].rate)
                    &&& pending[b].dag_id == dag_id
                    &&& is_next_segment(pending, b)
                }),
    decreases n,
{
    lemma_moving_on_keeps_order(current, pending, removed, n - 1);
    let before = moved_on_below(current, pending, removed, n - 1);
    let after = moved_on_below(current, pending, removed, n);
    let other = removed[n - 1].dag_id;
    lemma_next_segment_is_first(pending, other, pending.len() as int);
    let next = next_segment_below(pending, other, pending.len() as int);
    match next {
        Some(b) => {
            lemma_with_density(before, (other, pending[b].concurrency, pending[b].rate));
        },
        None => {
            lemma_without_density(before, other);
        },
    }
    if other == dag_id {
        assert forall|d: Density| d.0 == dag_id implies (#[trigger] after.contains(d)
            <==> exists|b: int|
            {
                &&& 0 <= b < pending.len()
                &&& d == (dag_id, (#[trigger] pending[b]).concurrency, pending[b].rate)
                &&& pending[b].dag_id == dag_id
                &&& is_next_segment(pending, b)
            }) by {
            match next {
                Some(b) => {
                    assert(is_next_segment(pending, b));
                    assert forall|c: int|
                        0 <= c < pending.len() && (#[trigger] pending[c]).dag_id == dag_id
                            && is_next_segment(pending, c) implies c == b by {
                        if c < b {
                            assert(pending[b].segment_index < pending[c].segment_index);
                        }
                        assert(pending[b].segment_index <= pending[c].segment_index);
                    }
                },
                None => {},
            }
        }
    } else {
        lemma_moved_dag_gets_next(current, pending, removed, dag_id, m, n - 1);
    }
}

/// `t` is the time of one of the boundaries at the places where `among` holds, and none of
/// those comes before it.
pub open spec fn comes_first(pending: Seq<BoundaryView>, among: spec_fn(int) -> bool, t: u64) -> bool {
    &&& exists|i: int|
        0 <= i < pending.len() && among(i) && (#[trigger] pending[i]).scheduled == t
    &&& forall|i: int|
        0 <= i < pending.len() && among(i) ==> t <= (#[trigger] pending[i]).scheduled
}

proof fn lemma_earliest_below(pending: Seq<BoundaryView>, unlogged_only: bool, n: int)
    requires
        0 <= n <= pending.len(),
    ensures
        match earliest_below(pending, unlogged_only, n) {
            Some(t) => comes_first(pending, |i: int| i < n && !(unlogged_only && pending[i].logged), t),
            None => forall|i: int| 0 <= i < n ==> unlogged_only && (#[trigger] pending[i]).logged,
        },
    decreases n,
{
    if n > 0 {
        lemma_earliest_below(pending, unlogged_only, n - 1);
        let before = |i: int| i < n - 1 && !(unlogged_only && pending[i].logged);
        let now = |i: int| i < n && !(unlogged_only && pending[i].logged);
        match earliest_below(pending, unlogged_only, n) {
            Some(t) => {
                if now(n - 1) && pending[n - 1].scheduled == t {
                    assert(pending[n - 1].scheduled == t && now(n - 1));
                } else {
                    assert(earliest_below(pending, unlogged_only, n - 1) == Some(t));
                    let i = choose|i: int|
                        0 <= i < pending.len() && before(i) && (#[trigger] pending[i]).scheduled
                            == t;
                    assert(now(i) && pending[i].scheduled == t);
                }
                assert forall|i: int| 0 <= i < pending.len() && now(i) implies t <= (
                #[trigger] pending[i]).scheduled by {
                    if i < n - 1 {
                        assert(before(i));
                    }
                }
                assert(comes_first(pending, now, t));
            },
            None => {},
        }
    }
}

/// The boundary timer is armed for the earliest boundary that has not been observed, and not
/// at all once every one has been.
pub proof fn lemma_timer_waits_for_the_next_boundary(pending: Seq<BoundaryView>)
    ensures
        match next_unlogged(pending) {
            Some(t) => comes_first(pending, |i: int| !pending[i].logged, t),
            None => forall|i: int| 0 <= i < pending.len() ==> (#[trigger] pending[i]).logged,
        },
{
    let n = pending.len() as int;
    lemma_earliest_below(pending, true, n);
    if next_unlogged(pending) is Some {
        let t = next_unlogged(pending)->0;
        let a = |i: int| i < n && !(true && pending[i].logged);
        let b = |i: int| !pending[i].logged;
        assert(comes_first(pending, a, t));
        let i = choose|i: int|
            0 <= i < pending.len() && a(i) && (#[trigger] pending[i]).scheduled == t;
        assert(b(i) && pending[i].scheduled == t);
        assert forall|i: int| 0 <= i < pending.len() && b(i) implies t <= (
        #[trigger] pending[i]).scheduled by {
            assert(a(i));
        }
        assert(comes_first(pending, b, t));
    }
}

/// A deadline partition lasts until the earliest boundary that is still ahead, whether or not
/// it has been observed.
pub proof fn lemma_partition_lasts_until_the_first_boundary(
    pending: Seq<BoundaryView>,
    now: u64,
)
    ensures
        match partition_end(pending) {
            Some(t) => comes_first(pending, |i: int| true, t),
            None => pending.len() == 0,
        },
        match partition_length(now, partition_end(pending)) {
            Some(length) => {
                &&& 0 < length
                &&& comes_first(pending, |i: int| true, (now + length) as u64)
                &&& now + length <= u64::MAX
            },
            None => pending.len() == 0 || exists|i: int|
                0 <= i < pending.len() && (#[trigger] pending[i]).scheduled <= now,
        },
{
    let n = pending.len() as int;
    lemma_earliest_below(pending, false, n);
    if partition_end(pending) is Some {
        let t = partition_end(pending)->0;
        let a = |i: int| i < n && !(false && pending[i].logged);
        let b = |i: int| true;
        assert(comes_first(pending, a, t));
        let i = choose|i: int|
            0 <= i < pending.len() && a(i) && (#[trigger] pending[i]).scheduled == t;
        assert(b(i) && pending[i].scheduled == t);
        assert forall|i: int| 0 <= i < pending.len() && b(i) implies t <= (
        #[trigger] pending[i]).scheduled by {
            assert(a(i));
        }
        assert(comes_first(pending, b, t));
    } else if n > 0 {
        assert(pending[0] == pending[0]);
    }
}

/// When the boundary timer fires, every boundary whose time has come and that was not observed
/// before is reported, in their order, with how long ago its time came; it counts as observed
/// from then on. The others stay as they are.
pub proof fn lemma_timer_reports_what_has_come(pending: Seq<BoundaryView>, now: u64, n: int)
    requires
        0 <= n < pending.len(),
    ensures
        ({
            let entry = pending[n];
            let after = all_observed(pending, now)[n];
            let before = observations_below(pending, now, n);
            let reported = observations_below(pending, now, n + 1);
            &&& observations_below(pending, now, 0).len() == 0
            &&& all_observed(pending, now).len() == pending.len()
            &&& after == (BoundaryView { logged: after.logged, ..entry })
            &&& now < entry.scheduled ==> reported == before && after == entry
            &&& entry.logged ==> reported == before && after == entry
            &&& now >= entry.scheduled && !entry.logged ==> {
                &&& after.logged
                &&& reported.len() == before.len() + 1
                &&& reported.drop_last() == before
                &&& reported.last().dag_id == entry.dag_id
                &&& reported.last().segment_index == entry.segment_index
                &&& reported.last().scheduled == entry.scheduled
                &&& reported.last().scheduled + reported.last().latency == now
            }
        }),
{
    let before = observations_below(pending, now, n);
    let reported = observations_below(pending, now, n + 1);
    if now >= pending[n].scheduled && !pending[n].logged {
        assert(reported.drop_last() =~= before);
    }
}

/// A boundary that is due while some node of its gate is unfinished is reported as overdue,
/// with how long ago its time came, unless it has been reported before. No other boundary is.
pub proof fn lemma_overdue_boundary_is_reported(
    pending: Seq<BoundaryView>,
    now: u64,
    gates: Gates,
    i: int,
    j: int,
)
    requires
        pending.len() <= usize::MAX,
        0 <= i < pending.len(),
        pending[i].scheduled <= now ==> is_due_at(pending, now, i, j),
    ensures
        ({
            let before = overruns_below(pending, now, gates, i);
            let reported = overruns_below(pending, now, gates, i + 1);
            &&& overruns_below(pending, now, gates, 0).len() == 0
            &&& if pending[i].scheduled <= now && some_node_unfinished(gates[j])
                && !pending[i].warned_overrun {
                &&& reported.len() == before.len() + 1
                &&& reported.drop_last() == before
                &&& reported.last().dag_id == pending[i].dag_id
                &&& reported.last().segment_index == pending[i].segment_index
                &&& reported.last().overrun + pending[i].scheduled == now
            } else {
                reported == before
            }
        }),
{
    let before = overruns_below(pending, now, gates, i);
    let reported = overruns_below(pending, now, gates, i + 1);
    if pending[i].scheduled <= now {
        lemma_due_are_those_whose_time_has_come(pending, now, pending.len() as int);
        let due = due_below(pending, now, pending.len() as int);
        assert(due_below(pending, now, due[j] as int).len() == j);
        let gate = gates[j];
        if some_node_unfinished(gate) {
            let k = choose|k: int|
                0 <= k < gate.len() && ((#[trigger] gate[k]) is None || gate[k] == Some(
                    NO_PERIOD_YET,
                ));
            assert(!(gate[k] matches Some(p) && p != NO_PERIOD_YET));
            assert(!gate_satisfied(gate));
        } else {
            assert(gate_satisfied(gate));
        }
        if some_node_unfinished(gate) && !pending[i].warned_overrun {
            assert(reported.drop_last() =~= before);
        }
    }
}

/// A boundary that is passed gives its place to the last one; the others keep their places.
pub proof fn lemma_last_boundary_takes_the_place<T>(s: Seq<T>, i: usize, k: int)
    requires
        i < s.len(),
        0 <= k < s.len() - 1,
    ensures
        taken_out(s, seq![i]).0.len() == s.len() - 1,
        taken_out(s, seq![i]).0[k] == if k == i {
            s.last()
        } else {
            s[k]
        },
        taken_out(s, seq![i]).1 == seq![s[i as int]],
{
    let places = seq![i];
    reveal_with_fuel(taken_out, 2);
    assert(places.drop_last() =~= Seq::<usize>::empty());
    assert(seq![s[i as int]] + Seq::<T>::empty() =~= seq![s[i as int]]);
}

/// Installs the callback that observes the boundaries.
pub fn install<F>(callbacks: &mut TimerCallbacks<F>, callback: F)
    ensures
        final(callbacks).callback(TimerRequestId::DpBoundary) == Some(callback),
        final(callbacks).callback(TimerRequestId::IdleWakeup) == old(callbacks).callback(
            TimerRequestId::IdleWakeup,
        ),
{
    register_timer_callback(callbacks, TimerRequestId::DpBoundary, callback);
}

} // verus!
