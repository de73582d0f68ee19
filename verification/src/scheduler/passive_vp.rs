//! V-Fed's passive virtual processors: what is left of a core while its active VP does
//! not use it.

use vstd::prelude::*;

use super::active_vp::is_worker_set;
use super::dispatch::{
    picked_entry, picks, pop_live, preempt_or_queue, queue_wf, wakes, WakeOutcome,
};
use super::scheduler_type::SchedulerType;
use super::task::{
    preemption, running_on, slot_of, woken, CpuStatus, Task, TaskTable, Wake, MAX_TASK_PRIORITY,
};
use crate::cpu::{
    cpu_list, cpu_set_contains, cpu_set_empty, cpu_set_view, members, CpuSet, NUM_MAX_CPU,
};
use crate::queue::{
    queue_affinity_mask, queue_cpus, queue_new, queue_pushes, queue_view, queued_for_cpu,
    QueueEntry, RunQueue,
};

verus! {

/// Whether the active VP of `cpu` is executing: a task of an active-VP group runs there,
/// or a mixed task of which `cpu` is one of its own cores, not a borrowed one.
pub open spec fn owner_busy(tasks: Seq<Task>, cpus: Seq<CpuStatus>, cpu: usize) -> bool {
    running_on(cpus, cpu) != 0 && match slot_of(tasks, running_on(cpus, cpu)) {
        None => false,
        Some(slot) => match tasks[slot as int].scheduler_type {
            SchedulerType::ActiveVp(_, _) => true,
            SchedulerType::MixedVp(active_set, _, _) => cpu_set_view(active_set).contains(cpu),
            _ => false,
        },
    }
}

/// The task that a core picks next from the queue, if its active VP is not executing, and what
/// is left of the queue.
pub open spec fn passive_next(
    entries: Seq<QueueEntry>,
    tasks: Seq<Task>,
    cpus: Seq<CpuStatus>,
    cpu: usize,
) -> (Option<usize>, Seq<QueueEntry>) {
    if owner_busy(tasks, cpus, cpu) {
        (None, entries)
    } else {
        picked_entry(entries, tasks, cpu)
    }
}

/// Whether the active VP of `cpu_id` is executing.
pub fn active_vp_is_busy(table: &TaskTable, cpu_id: usize) -> (busy: bool)
    ensures
        busy == owner_busy(table.tasks@, table.cpus@, cpu_id),
{
    let running: u32 = table.running(cpu_id);
    if running == 0 {
        return false;
    }
    match table.find(running) {
        None => false,
        Some(slot) => match table.tasks[slot].scheduler_type {
            SchedulerType::ActiveVp(_, _) => true,
            SchedulerType::MixedVp(active_set, _, _) => cpu_set_contains(active_set, cpu_id),
            _ => false,
        },
    }
}

/// The scheduler of the passive VPs.
pub struct PassiveVpScheduler {
    pub queue: RunQueue,
    /// The tier of this class.
    pub priority: u8,
}

impl PassiveVpScheduler {
    /// A scheduler with an empty queue for a machine of `num_cpu` CPUs.
    pub fn new(num_cpu: usize, priority: u8) -> (scheduler: Self)
        requires
            num_cpu <= NUM_MAX_CPU,
        ensures
            queue_view(scheduler.queue) == Seq::<QueueEntry>::empty(),
            queue_cpus(scheduler.queue) == num_cpu,
            queue_pushes(scheduler.queue) == 0,
            scheduler.priority == priority,
    {
        PassiveVpScheduler { queue: queue_new(num_cpu), priority }
    }

    /// Wakes the task in `slot`: its priority follows its deadline, and it takes one of
    /// its CPUs over at once or is queued for them.
    pub fn wake_task(&mut self, table: &mut TaskTable, slot: usize, wake: Wake) -> (outcome:
        WakeOutcome)
        requires
            old(table).wf(),
            slot < old(table).tasks@.len(),
            old(table).tasks@[slot as int].scheduler_type is PassiveVp,
            is_worker_set(
                cpu_set_view(old(table).tasks@[slot as int].scheduler_type->PassiveVp_0),
                queue_cpus(old(self).queue),
            ),
            wake.deadline() <= MAX_TASK_PRIORITY,
            queue_wf(old(self).queue, old(table).tasks@.len()),
        ensures
            ({
                let before = old(table).tasks@[slot as int];
                let set = cpu_set_view(before.scheduler_type->PassiveVp_0);
                &&& final(table).tasks@ == old(table).tasks@.update(
                    slot as int,
                    woken(before, old(self).priority, wake.deadline()),
                )
                &&& final(table).cpus@ == old(table).cpus@
                &&& wakes(
                    old(self).queue,
                    final(self).queue,
                    preemption(final(table).tasks@, old(table).cpus@, slot, members(set)),
                    (wake.key(), set, slot),
                    outcome,
                )
            }),
            final(self).priority == old(self).priority,
            final(table).wf(),
            queue_wf(final(self).queue, final(table).tasks@.len()),
    {
        match table.tasks[slot].scheduler_type {
            SchedulerType::PassiveVp(cpu_set) => {
                table.set_woken(slot, self.priority, wake.absolute_deadline());
                let list = cpu_list(cpu_set);
                preempt_or_queue(&mut self.queue, table, slot, &list, wake.queue_key(), cpu_set)
            },
            _ => WakeOutcome::Queued,
        }
    }

    /// Picks the next task for `cpu_id`: none while the core's active VP is executing, else
    /// the first queued task that may run there and is not dead.
    pub fn get_next(&mut self, table: &mut TaskTable, cpu_id: usize, execution_ensured: bool) -> (next:
        Option<usize>)
        requires
            old(table).wf(),
            queue_wf(old(self).queue, old(table).tasks@.len()),
            cpu_id < queue_cpus(old(self).queue),
        ensures
            (next, queue_view(final(self).queue)) == passive_next(
                queue_view(old(self).queue),
                old(table).tasks@,
                old(table).cpus@,
                cpu_id,
            ),
            picks(*old(table), *final(table), next, cpu_id, execution_ensured),
            queue_cpus(final(self).queue) == queue_cpus(old(self).queue),
            queue_pushes(final(self).queue) == queue_pushes(old(self).queue),
            final(self).priority == old(self).priority,
            final(table).wf(),
            queue_wf(final(self).queue, final(table).tasks@.len()),
    {
        if active_vp_is_busy(table, cpu_id) {
            return None;
        }
        match pop_live(&mut self.queue, table, cpu_id) {
            None => None,
            Some(slot) => {
                table.set_picked(slot, cpu_id, execution_ensured);
                Some(slot)
            },
        }
    }

    /// The tier of this class.
    pub fn priority(&self) -> (priority: u8)
        ensures
            priority == self.priority,
    {
        self.priority
    }

    /// The class that this scheduler serves.
    pub fn scheduler_name(&self) -> (name: SchedulerType)
        ensures
            name matches SchedulerType::PassiveVp(set) && cpu_set_view(set) == Set::<
                usize,
            >::empty(),
    {
        SchedulerType::PassiveVp(cpu_set_empty())
    }

    /// The CPUs that at least one queued task may run on.
    pub fn queued_cpu_mask(&self) -> (mask: CpuSet)
        ensures
            forall|cpu: usize|
                cpu_set_view(mask).contains(cpu) == queued_for_cpu(queue_view(self.queue), cpu),
    {
        queue_affinity_mask(&self.queue)
    }
}

} // verus!
