//! V-Fed's active virtual processors: the highest-priority tier, one exclusive
//! slot per core of a heavy DAG's group.

use vstd::prelude::*;

use super::dispatch::{
    picked_entry, picks, pop_live, preempt_or_queue, queue_wf, wakes, WakeOutcome,
};
use super::scheduler_type::SchedulerType;
use super::task::{
    preemption, running_on, woken, CpuStatus, Task, TaskTable, Wake, MAX_TASK_PRIORITY,
};
use crate::cpu::{
    cpu_list, cpu_set_empty, cpu_set_view, lemma_members_below, members, CpuSet, NUM_MAX_CPU,
};
use crate::dag::topology::lemma_push_contains_one;
use crate::queue::{
    queue_affinity_mask, queue_cpus, queue_new, queue_pushes, queue_view, queued_for_cpu,
    QueueEntry, RunQueue,
};

verus! {

/// The `leading` value of a core that is in no active-VP group. It is no valid
/// CPU identifier.
pub const NO_GROUP: usize = usize::MAX;

/// What is recorded of one core's active VP. Times and budgets are nanoseconds.
#[derive(Debug, Clone, Copy, PartialEq, Eq, Structural)]
pub struct ActiveVpCore {
    /// The leading core of this core's group, or [`NO_GROUP`].
    pub leading: usize,
    /// The budget that every job release replenishes to. Zero means that no
    /// active-VP group claims this core.
    pub initial_budget: u64,
    /// What is left of the budget for the current job.
    pub remaining: u64,
    /// The time that consumption was last measured from.
    pub last_tick: u64,
    /// Whether the active VP was running at the last tick, so that an idle gap is
    /// never charged.
    pub was_running: bool,
}

/// The active-VP state of every core.
pub struct ActiveVpTable {
    pub cores: Vec<ActiveVpCore>,
}

impl View for ActiveVpTable {
    type V = Seq<ActiveVpCore>;

    open spec fn view(&self) -> Seq<ActiveVpCore> {
        self.cores@
    }
}

/// A core that is in no group.
pub open spec fn unclaimed_core() -> ActiveVpCore {
    ActiveVpCore {
        leading: NO_GROUP,
        initial_budget: 0,
        remaining: 0,
        last_tick: 0,
        was_running: false,
    }
}

/// `core` claimed for a group with the per-job budget `budget`, ready to run.
pub open spec fn armed(core: ActiveVpCore, budget: u64) -> ActiveVpCore {
    ActiveVpCore { initial_budget: budget, remaining: budget, ..core }
}

/// The table with `core` in the place of `cpu`; the same table where it has no
/// such CPU.
pub open spec fn with_core(table: Seq<ActiveVpCore>, cpu: usize, core: ActiveVpCore) -> Seq<
    ActiveVpCore,
> {
    if cpu < table.len() {
        table.update(cpu as int, core)
    } else {
        table
    }
}

impl ActiveVpTable {
    /// A table of [`NUM_MAX_CPU`] cores, none of them in a group.
    pub fn new() -> (table: Self)
        ensures
            table@ == Seq::new(NUM_MAX_CPU as nat, |i: int| unclaimed_core()),
    {
        let mut cores: Vec<ActiveVpCore> = Vec::new();
        let mut i: usize = 0;
        while i < NUM_MAX_CPU
            invariant
                i <= NUM_MAX_CPU,
                cores@ == Seq::new(i as nat, |k: int| unclaimed_core()),
            decreases NUM_MAX_CPU - i,
        {
            cores.push(
                ActiveVpCore {
                    leading: NO_GROUP,
                    initial_budget: 0,
                    remaining: 0,
                    last_tick: 0,
                    was_running: false,
                },
            );
            i = i + 1;
        }
        ActiveVpTable { cores }
    }

    fn store(&mut self, cpu: usize, core: ActiveVpCore)
        requires
            cpu < old(self)@.len(),
        ensures
            final(self)@ == old(self)@.update(cpu as int, core),
    {
        self.cores.set(cpu, core);
    }

    fn load(&self, cpu: usize) -> (core: Option<ActiveVpCore>)
        ensures
            match core {
                Some(c) => cpu < self@.len() && c == self@[cpu as int],
                None => cpu >= self@.len(),
            },
    {
        if cpu < self.cores.len() {
            Some(self.cores[cpu])
        } else {
            None
        }
    }

    /// Claims `cpu` for an active-VP group with the per-job budget `budget_ns`, as
    /// if the group's first job had just been released.
    pub fn set_initial_budget(&mut self, cpu: usize, budget_ns: u64)
        ensures
            final(self)@ == with_core(old(self)@, cpu, armed(old(self)@[cpu as int], budget_ns)),
    {
        if let Some(core) = self.load(cpu) {
            self.store(cpu, ActiveVpCore { initial_budget: budget_ns, remaining: budget_ns, ..core });
        }
    }

    /// Releases `cpu` from active-VP duty, so that a later admission inherits nothing.
    pub fn release_budget(&mut self, cpu: usize)
        ensures
            final(self)@ == with_core(
                old(self)@,
                cpu,
                ActiveVpCore {
                    leading: NO_GROUP,
                    initial_budget: 0,
                    remaining: 0,
                    ..old(self)@[cpu as int]
                },
            ),
    {
        if let Some(core) = self.load(cpu) {
            self.store(
                cpu,
                ActiveVpCore { leading: NO_GROUP, initial_budget: 0, remaining: 0, ..core },
            );
        }
    }

    /// The leading core of `cpu`'s group.
    pub fn leading_of(&self, cpu: usize) -> (leading: Option<usize>)
        ensures
            leading == group_leader(self@, cpu),
    {
        match self.load(cpu) {
            Some(core) => {
                if core.leading == NO_GROUP {
                    None
                } else {
                    Some(core.leading)
                }
            },
            None => None,
        }
    }

    /// Records the leading core of `cpu`'s group.
    pub fn set_leading(&mut self, cpu: usize, leading_cpu: usize)
        ensures
            final(self)@ == with_core(
                old(self)@,
                cpu,
                ActiveVpCore { leading: leading_cpu, ..old(self)@[cpu as int] },
            ),
    {
        if let Some(core) = self.load(cpu) {
            self.store(cpu, ActiveVpCore { leading: leading_cpu, ..core });
        }
    }

    /// Replenishes every core of a set to its initial budget, as a job release does.
    pub fn replenish(&mut self, cpu_set: CpuSet)
        ensures
            final(self)@ == replenished(old(self)@, cpu_set_view(cpu_set)),
    {
        let cpus = cpu_list(cpu_set);
        let ghost view = cpu_set_view(cpu_set);
        let ghost start = self@;
        let mut k: usize = 0;
        proof {
            lemma_members_below(view, NUM_MAX_CPU as int);
            assert(start.len() == self.cores.len());
        }
        while k < cpus.len()
            invariant
                k <= cpus@.len(),
                cpus@ == members(view),
                start == old(self)@,
                self@.len() == start.len() <= usize::MAX,
                forall|i: int, j: int| 0 <= i < j < cpus@.len() ==> cpus@[i] < cpus@[j],
                forall|c: int|
                    0 <= c < start.len() ==> #[trigger] self@[c] == if cpus@.take(
                        k as int,
                    ).contains(c as usize) {
                        refilled(start[c])
                    } else {
                        start[c]
                    },
            decreases cpus@.len() - k,
        {
            let cpu: usize = cpus[k];
            let ghost before = self@;
            proof {
                assert(cpus@.take(k + 1) =~= cpus@.take(k as int).push(cpu));
                assert(!cpus@.take(k as int).contains(cpu)) by {
                    let taken = cpus@.take(k as int);
                    if taken.contains(cpu) {
                        let i = choose|i: int| 0 <= i < taken.len() && taken[i] == cpu;
                        assert(cpus@[i] < cpus@[k as int]);
                    }
                }
            }
            if let Some(core) = self.load(cpu) {
                self.store(cpu, ActiveVpCore { remaining: core.initial_budget, ..core });
            }
            proof {
                assert forall|c: int| 0 <= c < start.len() implies #[trigger] self@[c]
                    == if cpus@.take(k + 1).contains(c as usize) {
                    refilled(start[c])
                } else {
                    start[c]
                } by {
                    lemma_push_contains_one(cpus@.take(k as int), cpu, c as usize);
                    assert(before[c] == if cpus@.take(k as int).contains(c as usize) {
                        refilled(start[c])
                    } else {
                        start[c]
                    });
                }
            }
            k = k + 1;
        }
        proof {
            assert(cpus@.take(k as int) =~= cpus@);
            assert(self@ =~= replenished(start, view));
        }
    }

    /// Records the leading core of every core of a set.
    pub fn lead(&mut self, cpu_set: CpuSet, leading_cpu: usize)
        ensures
            final(self)@ == led(old(self)@, cpu_set_view(cpu_set), leading_cpu),
    {
        let cpus = cpu_list(cpu_set);
        let ghost view = cpu_set_view(cpu_set);
        let ghost start = self@;
        let mut k: usize = 0;
        assert(start.len() == self.cores.len());
        while k < cpus.len()
            invariant
                k <= cpus@.len(),
                cpus@ == members(view),
                start == old(self)@,
                self@.len() == start.len() <= usize::MAX,
                forall|c: int|
                    0 <= c < start.len() ==> #[trigger] self@[c] == if cpus@.take(
                        k as int,
                    ).contains(c as usize) {
                        ActiveVpCore { leading: leading_cpu, ..start[c] }
                    } else {
                        start[c]
                    },
            decreases cpus@.len() - k,
        {
            let cpu: usize = cpus[k];
            let ghost before = self@;
            assert(cpus@.take(k + 1) =~= cpus@.take(k as int).push(cpu));
            self.set_leading(cpu, leading_cpu);
            proof {
                assert forall|c: int| 0 <= c < start.len() implies #[trigger] self@[c]
                    == if cpus@.take(k + 1).contains(c as usize) {
                    ActiveVpCore { leading: leading_cpu, ..start[c] }
                } else {
                    start[c]
                } by {
                    lemma_push_contains_one(cpus@.take(k as int), cpu, c as usize);
                    assert(before[c] == if cpus@.take(k as int).contains(c as usize) {
                        ActiveVpCore { leading: leading_cpu, ..start[c] }
                    } else {
                        start[c]
                    });
                }
            }
            k = k + 1;
        }
        assert(cpus@.take(k as int) =~= cpus@);
        assert(self@ =~= led(start, view, leading_cpu));
    }

    /// Whether `cpu_id` may take active-VP work right now: it has budget left, and if it
    /// is not the leading core of its group, the leading core is busy.
    pub fn active_eligible(&self, tasks: &TaskTable, cpu_id: usize) -> (r: bool)
        ensures
            r == eligible(self@, tasks.cpus@, cpu_id),
    {
        if !self.has_budget(cpu_id) {
            return false;
        }
        match self.leading_of(cpu_id) {
            Some(leading) => leading == cpu_id || tasks.running(leading) != 0,
            None => true,
        }
    }

    /// Whether `cpu` has budget left for the current job. A core without an active VP
    /// never blocks anything.
    pub fn has_budget(&self, cpu: usize) -> (r: bool)
        ensures
            r == budget_left(self@, cpu),
    {
        match self.load(cpu) {
            Some(core) => core.initial_budget == 0 || core.remaining > 0,
            None => false,
        }
    }

    /// Records that no active-VP task runs on `cpu_id`, so that the gap until the next
    /// one does is not charged.
    pub fn mark_idle(&mut self, cpu_id: usize)
        ensures
            final(self)@ == with_core(
                old(self)@,
                cpu_id,
                ActiveVpCore { was_running: false, ..old(self)@[cpu_id as int] },
            ),
    {
        if let Some(core) = self.load(cpu_id) {
            self.store(cpu_id, ActiveVpCore { was_running: false, ..core });
        }
    }

    /// Charges the time since the last tick against the budget of `cpu_id`, on which an
    /// active-VP task runs. The first tick after a gap charges nothing.
    pub fn tick_budget(&mut self, cpu_id: usize, now: u64)
        ensures
            final(self)@ == with_core(old(self)@, cpu_id, ticked(old(self)@[cpu_id as int], now)),
    {
        if let Some(core) = self.load(cpu_id) {
            let remaining: u64 = if core.was_running {
                core.remaining.saturating_sub(now.saturating_sub(core.last_tick))
            } else {
                core.remaining
            };
            self.store(
                cpu_id,
                ActiveVpCore { remaining, last_tick: now, was_running: true, ..core },
            );
        }
    }
}

/// The leading core of `cpu`'s group, if `cpu` is in one.
pub open spec fn group_leader(table: Seq<ActiveVpCore>, cpu: usize) -> Option<usize> {
    if cpu < table.len() && table[cpu as int].leading != NO_GROUP {
        Some(table[cpu as int].leading)
    } else {
        None
    }
}

/// A core with its whole budget.
pub open spec fn refilled(core: ActiveVpCore) -> ActiveVpCore {
    ActiveVpCore { remaining: core.initial_budget, ..core }
}

/// The table with the budgets of a set of cores replenished.
pub open spec fn replenished(table: Seq<ActiveVpCore>, set: Set<usize>) -> Seq<ActiveVpCore> {
    Seq::new(
        table.len(),
        |c: int|
            if members(set).contains(c as usize) {
                refilled(table[c])
            } else {
                table[c]
            },
    )
}

/// The table with the leading core of a set of cores recorded.
pub open spec fn led(table: Seq<ActiveVpCore>, set: Set<usize>, leading: usize) -> Seq<ActiveVpCore> {
    Seq::new(
        table.len(),
        |c: int|
            if members(set).contains(c as usize) {
                ActiveVpCore { leading, ..table[c] }
            } else {
                table[c]
            },
    )
}

/// Whether `cpu` has budget left.
pub open spec fn budget_left(table: Seq<ActiveVpCore>, cpu: usize) -> bool {
    cpu < table.len() && (table[cpu as int].initial_budget == 0 || table[cpu as int].remaining > 0)
}

/// A core after a tick at the time `now`.
pub open spec fn ticked(core: ActiveVpCore, now: u64) -> ActiveVpCore {
    ActiveVpCore {
        remaining: if core.was_running && now > core.last_tick {
            if core.remaining > now - core.last_tick {
                (core.remaining - (now - core.last_tick)) as u64
            } else {
                0
            }
        } else {
            core.remaining
        },
        last_tick: now,
        was_running: true,
        ..core
    }
}

/// Over ticks that follow each other without a gap, what is charged is the time between
/// the first and the last, no matter how often the clock ticks in between.
pub proof fn lemma_ticks_charge_elapsed_time(core: ActiveVpCore, t1: u64, t2: u64)
    requires
        core.was_running,
        core.last_tick <= t1 <= t2,
    ensures
        ticked(ticked(core, t1), t2) == ticked(core, t2),
        ticked(core, t2).remaining <= core.remaining,
{
}

/// A gap is never charged: the first tick after the core was idle leaves the budget as
/// it is.
pub proof fn lemma_idle_gap_is_free(core: ActiveVpCore, now: u64)
    requires
        !core.was_running,
    ensures
        ticked(core, now).remaining == core.remaining,
{
}

/// Whether `cpu` may take active-VP work.
pub open spec fn eligible(table: Seq<ActiveVpCore>, cpus: Seq<CpuStatus>, cpu: usize) -> bool {
    budget_left(table, cpu) && (group_leader(table, cpu) matches Some(leading) ==> leading == cpu
        || running_on(cpus, leading) != 0)
}

/// A core that is not the leading one of its group takes no active-VP work while the
/// leading core is idle.
pub proof fn lemma_leading_core_comes_first(
    table: Seq<ActiveVpCore>,
    cpus: Seq<CpuStatus>,
    cpu: usize,
    leading: usize,
)
    requires
        group_leader(table, cpu) == Some(leading),
        leading != cpu,
        running_on(cpus, leading) == 0,
    ensures
        !eligible(table, cpus, cpu),
{
}

/// The scheduler of the active VPs.
pub struct ActiveVpScheduler {
    pub queue: RunQueue,
    /// The tier of this class.
    pub priority: u8,
}

/// The task that a core picks next from the queue, if the core may take active-VP work, and
/// what is left of the queue.
pub open spec fn active_next(
    entries: Seq<QueueEntry>,
    tasks: Seq<Task>,
    cpus: Seq<CpuStatus>,
    budgets: Seq<ActiveVpCore>,
    cpu: usize,
) -> (Option<usize>, Seq<QueueEntry>) {
    if eligible(budgets, cpus, cpu) {
        picked_entry(entries, tasks, cpu)
    } else {
        (None, entries)
    }
}

/// The CPUs of a clustered task: at least one, and all of them workers of the machine.
pub open spec fn is_worker_set(set: Set<usize>, num_cpu: nat) -> bool {
    &&& set != Set::<usize>::empty()
    &&& forall|cpu: usize| set.contains(cpu) ==> 1 <= cpu < num_cpu
}

/// The budgets once a task of the group on `set` has been woken: replenished if a job is
/// released, and with the group's leading core recorded.
pub open spec fn budgets_woken(
    table: Seq<ActiveVpCore>,
    set: Set<usize>,
    leading: usize,
    releases_job: bool,
) -> Seq<ActiveVpCore> {
    led(
        if releases_job {
            replenished(table, set)
        } else {
            table
        },
        set,
        leading,
    )
}

impl ActiveVpScheduler {
    /// A scheduler with an empty queue for a machine of `num_cpu` CPUs.
    pub fn new(num_cpu: usize, priority: u8) -> (scheduler: Self)
        requires
            num_cpu <= NUM_MAX_CPU,
        ensures
            queue_view(scheduler.queue) == Seq::<QueueEntry>::empty(),
            queue_cpus(scheduler.queue) == num_cpu,
            queue_pushes(scheduler.queue) == 0,
            scheduler.priority == priority,
    {
        ActiveVpScheduler { queue: queue_new(num_cpu), priority }
    }

    /// Wakes the task in `slot`: its job's release replenishes its group's budgets, its
    /// priority follows its deadline, and it takes one of its CPUs over at once or is
    /// queued for them.
    pub fn wake_task(
        &mut self,
        table: &mut TaskTable,
        budgets: &mut ActiveVpTable,
        slot: usize,
        wake: Wake,
    ) -> (outcome: WakeOutcome)
        requires
            old(table).wf(),
            slot < old(table).tasks@.len(),
            old(table).tasks@[slot as int].scheduler_type is ActiveVp,
            is_worker_set(
                cpu_set_view(old(table).tasks@[slot as int].scheduler_type->ActiveVp_0),
                queue_cpus(old(self).queue),
            ),
            wake.deadline() <= MAX_TASK_PRIORITY,
            queue_wf(old(self).queue, old(table).tasks@.len()),
        ensures
            ({
                let before = old(table).tasks@[slot as int];
                let set = cpu_set_view(before.scheduler_type->ActiveVp_0);
                let leading = before.scheduler_type->ActiveVp_1;
                &&& final(table).tasks@ == old(table).tasks@.update(
                    slot as int,
                    woken(before, old(self).priority, wake.deadline()),
                )
                &&& final(table).cpus@ == old(table).cpus@
                &&& final(budgets)@ == budgets_woken(
                    old(budgets)@,
                    set,
                    leading,
                    wake.releases_job(),
                )
                &&& wakes(
                    old(self).queue,
                    final(self).queue,
                    preemption(final(table).tasks@, old(table).cpus@, slot, members(set)),
                    (wake.key(), set, slot),
                    outcome,
                )
            }),
            final(self).priority == old(self).priority,
            final(table).wf(),
            queue_wf(final(self).queue, final(table).tasks@.len()),
    {
        match table.tasks[slot].scheduler_type {
            SchedulerType::ActiveVp(cpu_set, leading_cpu) => {
                if wake.is_job_release() {
                    budgets.replenish(cpu_set);
                }
                table.set_woken(slot, self.priority, wake.absolute_deadline());
                budgets.lead(cpu_set, leading_cpu);
                let list = cpu_list(cpu_set);
                preempt_or_queue(&mut self.queue, table, slot, &list, wake.queue_key(), cpu_set)
            },
            _ => WakeOutcome::Queued,
        }
    }

    /// Picks the next task for `cpu_id`: none while the core may not take active-VP work,
    /// else the first queued task that may run there and is not dead.
    pub fn get_next(
        &mut self,
        table: &mut TaskTable,
        budgets: &ActiveVpTable,
        cpu_id: usize,
        execution_ensured: bool,
    ) -> (next: Option<usize>)
        requires
            old(table).wf(),
            queue_wf(old(self).queue, old(table).tasks@.len()),
            cpu_id < queue_cpus(old(self).queue),
        ensures
            (next, queue_view(final(self).queue)) == active_next(
                queue_view(old(self).queue),
                old(table).tasks@,
                old(table).cpus@,
                budgets@,
                cpu_id,
            ),
            picks(*old(table), *final(table), next, cpu_id, execution_ensured),
            queue_cpus(final(self).queue) == queue_cpus(old(self).queue),
            queue_pushes(final(self).queue) == queue_pushes(old(self).queue),
            final(self).priority == old(self).priority,
            final(table).wf(),
            queue_wf(final(self).queue, final(table).tasks@.len()),
    {
        if !budgets.active_eligible(table, cpu_id) {
            return None;
        }
        match pop_live(&mut self.queue, table, cpu_id) {
            None => None,
            Some(slot) => {
                table.set_picked(slot, cpu_id, execution_ensured);
                Some(slot)
            },
        }
    }

    /// The tier of this class.
    pub fn priority(&self) -> (priority: u8)
        ensures
            priority == self.priority,
    {
        self.priority
    }

    /// The class that this scheduler serves.
    pub fn scheduler_name(&self) -> (name: SchedulerType)
        ensures
            name matches SchedulerType::ActiveVp(set, leading) && cpu_set_view(set) == Set::<
                usize,
            >::empty() && leading == 0,
    {
        SchedulerType::ActiveVp(cpu_set_empty(), 0)
    }

    /// The CPUs that at least one queued task may run on.
    pub fn queued_cpu_mask(&self) -> (mask: CpuSet)
        ensures
            forall|cpu: usize|
                cpu_set_view(mask).contains(cpu) == queued_for_cpu(queue_view(self.queue), cpu),
    {
        queue_affinity_mask(&self.queue)
    }
}

} // verus!
