//! V-Fed's mixed tasks: a heavy DAG whose active VPs are topped up with passive VPs of
//! other DAGs. Its tasks may run on both its own cores, under the rules of active VPs,
//! and on the borrowed cores, under the rule of passive VPs.
//!
//! A woken task is queued once, for all of its CPUs, so that no two CPUs can pick it.
//! Which rule applies is known only once an entry is considered for a CPU: entries whose
//! rule does not let them run there now are set aside and put back afterwards, so that
//! they never stand in the way of one that may.

use vstd::prelude::*;

use super::active_vp::{
    budgets_woken, eligible, is_worker_set, ActiveVpCore, ActiveVpTable,
};
use super::dispatch::{
    lemma_remove_keeps_slots, picks, preempt_or_queue, queue_wf, slots_exist, wakes, WakeOutcome,
};
use super::passive_vp::{active_vp_is_busy, owner_busy};
use super::scheduler_type::SchedulerType;
use super::task::{
    preemption, woken, CpuStatus, Task, TaskTable, Wake, MAX_TASK_PRIORITY,
};
use crate::cpu::{
    cpu_list, cpu_set_contains, cpu_set_empty, cpu_set_union, cpu_set_view, members, CpuSet,
    NUM_MAX_CPU,
};
use crate::queue::{
    first_for_cpu, keys_ascend, lemma_first_for_cpu, lemma_with_entry, lemma_with_entry_members,
    lemma_with_entry_multiset, lemma_without_entry, queue_affinity_mask, queue_cpus, queue_new, queue_pop_for_cpu,
    queue_push, queue_pushes, queue_view, queued_for_cpu, refusal, with_entry, QueueEntry,
    RunQueue,
};

verus! {

/// The cores that a mixed task owns.
pub open spec fn own_cores(task: Task) -> Set<usize> {
    match task.scheduler_type {
        SchedulerType::MixedVp(active_set, _, _) => cpu_set_view(active_set),
        _ => Set::empty(),
    }
}

/// Whether a mixed task may run on `cpu` right now: on one of its own cores, if the core
/// may take active-VP work; on a borrowed one, if its owner is not executing.
pub open spec fn may_run_now(
    task: Task,
    tasks: Seq<Task>,
    cpus: Seq<CpuStatus>,
    budgets: Seq<ActiveVpCore>,
    cpu: usize,
) -> bool {
    if own_cores(task).contains(cpu) {
        eligible(budgets, cpus, cpu)
    } else {
        !owner_busy(tasks, cpus, cpu)
    }
}

/// The state of the search for a task: the entry that was picked, the entries left in the
/// queue, and those set aside.
#[verifier::ext_equal]
pub struct MixedSearch {
    pub picked: Option<QueueEntry>,
    pub entries: Seq<QueueEntry>,
    pub deferred: Seq<QueueEntry>,
}

impl MixedSearch {
    /// The slot of the task that was picked.
    pub open spec fn next(self) -> Option<usize> {
        match self.picked {
            Some(entry) => Some(entry.2),
            None => None,
        }
    }
}

/// Searching a queue for a task for `cpu`: entries that may not run there now are set
/// aside, entries of dead tasks are dropped, and the first other entry is taken.
pub open spec fn mixed_search(
    entries: Seq<QueueEntry>,
    deferred: Seq<QueueEntry>,
    tasks: Seq<Task>,
    cpus: Seq<CpuStatus>,
    budgets: Seq<ActiveVpCore>,
    cpu: usize,
) -> MixedSearch
    decreases entries.len(),
{
    let at = first_for_cpu(entries, cpu, 0);
    if 0 <= at < entries.len() {
        let entry = entries[at];
        let task = tasks[entry.2 as int];
        let rest = entries.remove(at);
        if !may_run_now(task, tasks, cpus, budgets, cpu) {
            mixed_search(rest, deferred.push(entry), tasks, cpus, budgets, cpu)
        } else if task.dead() {
            mixed_search(rest, deferred, tasks, cpus, budgets, cpu)
        } else {
            MixedSearch { picked: Some(entry), entries: rest, deferred }
        }
    } else {
        MixedSearch { picked: None, entries, deferred }
    }
}

/// A queue's entries and how many it has accepted, once the first `n` of the entries set
/// aside have been put back.
pub open spec fn put_back(
    entries: Seq<QueueEntry>,
    pushes: nat,
    cpus: nat,
    deferred: Seq<QueueEntry>,
    n: int,
) -> (Seq<QueueEntry>, nat)
    decreases n,
{
    if n <= 0 {
        (entries, pushes)
    } else {
        let (rest, count) = put_back(entries, pushes, cpus, deferred, n - 1);
        match refusal(cpus, count, deferred[n - 1].1) {
            Some(_) => (rest, count),
            None => (with_entry(rest, deferred[n - 1]), count + 1),
        }
    }
}

/// All queued tasks are mixed.
pub open spec fn all_mixed(entries: Seq<QueueEntry>, tasks: Seq<Task>) -> bool {
    forall|i: int|
        0 <= i < entries.len() ==> tasks[(#[trigger] entries[i]).2 as int].scheduler_type is MixedVp
}

/// Whether a queue made for `cpus` CPUs accepts an entry: it may run on some CPU, and only on
/// the queue's.
pub open spec fn acceptable_entry(entry: QueueEntry, cpus: nat) -> bool {
    &&& entry.1 != Set::<usize>::empty()
    &&& forall|cpu: usize| #[trigger] entry.1.contains(cpu) ==> cpu < cpus
}

/// Entries that a queue made for `cpus` CPUs accepts.
pub open spec fn acceptable(entries: Seq<QueueEntry>, cpus: nat) -> bool {
    forall|i: int| 0 <= i < entries.len() ==> acceptable_entry(#[trigger] entries[i], cpus)
}

/// A well-formed queue of mixed tasks, each of which it would accept again.
pub open spec fn mixed_queue_wf(queue: RunQueue, tasks: Seq<Task>) -> bool {
    &&& queue_wf(queue, tasks.len())
    &&& all_mixed(queue_view(queue), tasks)
    &&& acceptable(queue_view(queue), queue_cpus(queue))
}

/// From `before` to `after` nothing came in, and of the entries of tasks that are not dead
/// nothing went but the one that was picked.
pub open spec fn only_picked_left(
    before: Seq<QueueEntry>,
    after: Seq<QueueEntry>,
    tasks: Seq<Task>,
    picked: Option<QueueEntry>,
) -> bool {
    forall|e: QueueEntry|
        {
            let left = #[trigger] after.to_multiset().count(e) + if picked == Some(e) {
                1nat
            } else {
                0nat
            };
            &&& left <= before.to_multiset().count(e)
            &&& !tasks[e.2 as int].dead() ==> left == before.to_multiset().count(e)
        }
}

/// The views of entries that are set aside.
pub open spec fn deferred_view(deferred: Seq<((u64, u64, u64), CpuSet, usize)>) -> Seq<QueueEntry> {
    Seq::new(
        deferred.len(),
        |i: int| (deferred[i].0, cpu_set_view(deferred[i].1), deferred[i].2),
    )
}

/// The scheduler of the mixed tasks.
pub struct MixedVpScheduler {
    pub queue: RunQueue,
    /// The tier of this class.
    pub priority: u8,
}

impl MixedVpScheduler {
    /// A scheduler with an empty queue for a machine of `num_cpu` CPUs.
    pub fn new(num_cpu: usize, priority: u8) -> (scheduler: Self)
        requires
            num_cpu <= NUM_MAX_CPU,
        ensures
            queue_view(scheduler.queue) == Seq::<QueueEntry>::empty(),
            queue_cpus(scheduler.queue) == num_cpu,
            queue_pushes(scheduler.queue) == 0,
            scheduler.priority == priority,
            forall|tasks: Seq<Task>| #[trigger] mixed_queue_wf(scheduler.queue, tasks),
    {
        MixedVpScheduler { queue: queue_new(num_cpu), priority }
    }

    /// Wakes the task in `slot`. A job's release replenishes only the group's own cores,
    /// and only their leading core is recorded: the borrowed cores belong to other groups.
    /// The task takes one of all its CPUs over at once or is queued for all of them.
    pub fn wake_task(
        &mut self,
        table: &mut TaskTable,
        budgets: &mut ActiveVpTable,
        slot: usize,
        wake: Wake,
    ) -> (outcome: WakeOutcome)
        requires
            old(table).wf(),
            slot < old(table).tasks@.len(),
            old(table).tasks@[slot as int].scheduler_type is MixedVp,
            is_worker_set(
                cpu_set_view(old(table).tasks@[slot as int].scheduler_type->MixedVp_0).union(
                    cpu_set_view(old(table).tasks@[slot as int].scheduler_type->MixedVp_2),
                ),
                queue_cpus(old(self).queue),
            ),
            wake.deadline() <= MAX_TASK_PRIORITY,
            mixed_queue_wf(old(self).queue, old(table).tasks@),
        ensures
            ({
                let before = old(table).tasks@[slot as int];
                let own = cpu_set_view(before.scheduler_type->MixedVp_0);
                let leading = before.scheduler_type->MixedVp_1;
                let all = own.union(cpu_set_view(before.scheduler_type->MixedVp_2));
                &&& final(table).tasks@ == old(table).tasks@.update(
                    slot as int,
                    woken(before, old(self).priority, wake.deadline()),
                )
                &&& final(table).cpus@ == old(table).cpus@
                &&& final(budgets)@ == budgets_woken(
                    old(budgets)@,
                    own,
                    leading,
                    wake.releases_job(),
                )
                &&& wakes(
                    old(self).queue,
                    final(self).queue,
                    preemption(final(table).tasks@, old(table).cpus@, slot, members(all)),
                    (wake.key(), all, slot),
                    outcome,
                )
            }),
            final(self).priority == old(self).priority,
            final(table).wf(),
            mixed_queue_wf(final(self).queue, final(table).tasks@),
    {
        let ghost tasks = table.tasks@;
        let ghost entries = queue_view(self.queue);
        match table.tasks[slot].scheduler_type {
            SchedulerType::MixedVp(active_set, leading_cpu, passive_set) => {
                if wake.is_job_release() {
                    budgets.replenish(active_set);
                }
                table.set_woken(slot, self.priority, wake.absolute_deadline());
                budgets.lead(active_set, leading_cpu);
                let cpu_set = cpu_set_union(active_set, passive_set);
                let list = cpu_list(cpu_set);
                let outcome = preempt_or_queue(
                    &mut self.queue,
                    table,
                    slot,
                    &list,
                    wake.queue_key(),
                    cpu_set,
                );
                proof {
                    let entry = (wake.key(), cpu_set_view(cpu_set), slot);
                    lemma_mixed_stays(entries, tasks, table.tasks@);
                    lemma_put_back_one(entries, entry, table.tasks@, queue_cpus(self.queue));
                }
                outcome
            },
            _ => WakeOutcome::Queued,
        }
    }

    /// Takes entries out of the queue until one may run on `cpu_id`, and sets aside those
    /// that may not.
    fn search(&mut self, table: &TaskTable, budgets: &ActiveVpTable, cpu_id: usize) -> (found: (
        Option<usize>,
        Vec<((u64, u64, u64), CpuSet, usize)>,
    ))
        requires
            mixed_queue_wf(old(self).queue, table.tasks@),
            cpu_id < queue_cpus(old(self).queue),
        ensures
            ({
                let expected = mixed_search(
                    queue_view(old(self).queue),
                    Seq::empty(),
                    table.tasks@,
                    table.cpus@,
                    budgets@,
                    cpu_id,
                );
                &&& found.0 == expected.next()
                &&& deferred_view(found.1@) == expected.deferred
                &&& queue_view(final(self).queue) == expected.entries
            }),
            found.0 matches Some(slot) ==> slot < table.tasks@.len(),
            mixed_queue_wf(final(self).queue, table.tasks@),
            slots_exist(deferred_view(found.1@), table.tasks@.len()),
            all_mixed(deferred_view(found.1@), table.tasks@),
            acceptable(deferred_view(found.1@), queue_cpus(old(self).queue)),
            queue_cpus(final(self).queue) == queue_cpus(old(self).queue),
            queue_pushes(final(self).queue) == queue_pushes(old(self).queue),
            final(self).priority == old(self).priority,
    {
        let mut deferred: Vec<((u64, u64, u64), CpuSet, usize)> = Vec::new();
        let ghost start = queue_view(self.queue);
        assert(deferred_view(deferred@) =~= Seq::<QueueEntry>::empty());
        loop
            invariant
                mixed_queue_wf(self.queue, table.tasks@),
                slots_exist(deferred_view(deferred@), table.tasks@.len()),
                all_mixed(deferred_view(deferred@), table.tasks@),
                acceptable(deferred_view(deferred@), queue_cpus(old(self).queue)),
                cpu_id < queue_cpus(self.queue),
                queue_cpus(self.queue) == queue_cpus(old(self).queue),
                queue_pushes(self.queue) == queue_pushes(old(self).queue),
                self.priority == old(self).priority,
                start == queue_view(old(self).queue),
                mixed_search(
                    start,
                    Seq::empty(),
                    table.tasks@,
                    table.cpus@,
                    budgets@,
                    cpu_id,
                ) == mixed_search(
                    queue_view(self.queue),
                    deferred_view(deferred@),
                    table.tasks@,
                    table.cpus@,
                    budgets@,
                    cpu_id,
                ),
            decreases queue_view(self.queue).len(),
        {
            let ghost entries = queue_view(self.queue);
            let ghost at = first_for_cpu(entries, cpu_id, 0);
            let ghost aside = deferred_view(deferred@);
            proof {
                lemma_first_for_cpu(entries, cpu_id, 0);
            }
            match queue_pop_for_cpu(&mut self.queue, cpu_id) {
                None => {
                    return (None, deferred);
                },
                Some((key, affinity, slot)) => {
                    assert(entries[at].2 == slot);
                    proof {
                        lemma_remove_keeps_slots(entries, at, table.tasks@.len());
                        lemma_without_entry(entries, at);
                        lemma_remove_keeps_mixed(
                            entries,
                            at,
                            table.tasks@,
                            queue_cpus(self.queue),
                        );
                    }
                    let owns: bool = match table.tasks[slot].scheduler_type {
                        SchedulerType::MixedVp(active_set, _, _) => cpu_set_contains(
                            active_set,
                            cpu_id,
                        ),
                        _ => false,
                    };
                    let may_run: bool = if owns {
                        budgets.active_eligible(table, cpu_id)
                    } else {
                        !active_vp_is_busy(table, cpu_id)
                    };
                    if !may_run {
                        deferred.push((key, affinity, slot));
                        proof {
                            assert(deferred_view(deferred@) =~= aside.push(entries[at]));
                            assert forall|i: int| 0 <= i < aside.len() + 1 implies (
                            #[trigger] deferred_view(deferred@)[i]).2 < table.tasks@.len()
                                && table.tasks@[deferred_view(
                                deferred@,
                            )[i].2 as int].scheduler_type is MixedVp && acceptable_entry(
                                deferred_view(deferred@)[i],
                                queue_cpus(self.queue),
                            ) by {
                                if i < aside.len() {
                                    assert(aside[i] == deferred_view(deferred@)[i]);
                                }
                            }
                        }
                    } else if !table.tasks[slot].is_dead() {
                        return (Some(slot), deferred);
                    }
                },
            }
        }
    }

    /// Picks the next task for `cpu_id`: the first queued task that may run there now and is
    /// not dead. Entries that may not run there now are put back.
    pub fn get_next(
        &mut self,
        table: &mut TaskTable,
        budgets: &ActiveVpTable,
        cpu_id: usize,
        execution_ensured: bool,
    ) -> (next: Option<usize>)
        requires
            old(table).wf(),
            mixed_queue_wf(old(self).queue, old(table).tasks@),
            cpu_id < queue_cpus(old(self).queue),
        ensures
            ({
                let found = mixed_search(
                    queue_view(old(self).queue),
                    Seq::empty(),
                    old(table).tasks@,
                    old(table).cpus@,
                    budgets@,
                    cpu_id,
                );
                &&& next == found.next()
                &&& (queue_view(final(self).queue), queue_pushes(final(self).queue)) == put_back(
                    found.entries,
                    queue_pushes(old(self).queue),
                    queue_cpus(old(self).queue),
                    found.deferred,
                    found.deferred.len() as int,
                )
                &&& picks(*old(table), *final(table), next, cpu_id, execution_ensured)
                &&& queue_pushes(old(self).queue) + found.deferred.len() <= u64::MAX
                    ==> only_picked_left(
                    queue_view(old(self).queue),
                    queue_view(final(self).queue),
                    old(table).tasks@,
                    found.picked,
                )
            }),
            queue_cpus(final(self).queue) == queue_cpus(old(self).queue),
            final(self).priority == old(self).priority,
            final(table).wf(),
            mixed_queue_wf(final(self).queue, final(table).tasks@),
    {
        let ghost tasks = table.tasks@;
        proof {
            lemma_nothing_is_lost(
                queue_view(self.queue),
                queue_pushes(self.queue),
                queue_cpus(self.queue),
                table.tasks@,
                table.cpus@,
                budgets@,
                cpu_id,
            );
        }
        let (next, deferred) = self.search(table, budgets, cpu_id);
        let ghost left = queue_view(self.queue);
        let ghost aside = deferred_view(deferred@);
        let ghost pushes = queue_pushes(self.queue);
        let ghost count = queue_cpus(self.queue);
        if let Some(slot) = next {
            table.set_picked(slot, cpu_id, execution_ensured);
        }
        assert(table.tasks@.len() == tasks.len());
        assert(forall|i: int|
            0 <= i < tasks.len() ==> (#[trigger] table.tasks@[i]).scheduler_type
                == tasks[i].scheduler_type);
        proof {
            lemma_mixed_stays(left, tasks, table.tasks@);
            lemma_mixed_stays(aside, tasks, table.tasks@);
        }
        let mut k: usize = 0;
        while k < deferred.len()
            invariant
                k <= deferred@.len(),
                aside == deferred_view(deferred@),
                queue_cpus(self.queue) == count,
                count == queue_cpus(old(self).queue),
                self.priority == old(self).priority,
                (queue_view(self.queue), queue_pushes(self.queue)) == put_back(
                    left,
                    pushes,
                    count,
                    aside,
                    k as int,
                ),
                mixed_queue_wf(self.queue, table.tasks@),
                slots_exist(aside, table.tasks@.len()),
                all_mixed(aside, table.tasks@),
                acceptable(aside, count),
            decreases deferred@.len() - k,
        {
            let ghost before = queue_view(self.queue);
            let (key, affinity, slot) = deferred[k];
            assert(aside[k as int] == (key, cpu_set_view(affinity), slot));
            let _ = queue_push(&mut self.queue, key, affinity, slot);
            proof {
                lemma_put_back_one(before, aside[k as int], table.tasks@, count);
            }
            k = k + 1;
        }
        next
    }

    /// The tier of this class.
    pub fn priority(&self) -> (priority: u8)
        ensures
            priority == self.priority,
    {
        self.priority
    }

    /// The class that this scheduler serves.
    pub fn scheduler_name(&self) -> (name: SchedulerType)
        ensures
            name matches SchedulerType::MixedVp(own, leading, borrowed) && cpu_set_view(own)
                == Set::<usize>::empty() && leading == 0 && cpu_set_view(borrowed) == Set::<
                usize,
            >::empty(),
    {
        SchedulerType::MixedVp(cpu_set_empty(), 0, cpu_set_empty())
    }

    /// The CPUs that at least one queued task may run on.
    pub fn queued_cpu_mask(&self) -> (mask: CpuSet)
        ensures
            forall|cpu: usize|
                cpu_set_view(mask).contains(cpu) == queued_for_cpu(queue_view(self.queue), cpu),
    {
        queue_affinity_mask(&self.queue)
    }
}

proof fn lemma_remove_keeps_mixed(
    entries: Seq<QueueEntry>,
    at: int,
    tasks: Seq<Task>,
    cpus: nat,
)
    requires
        all_mixed(entries, tasks),
        acceptable(entries, cpus),
        0 <= at < entries.len(),
    ensures
        all_mixed(entries.remove(at), tasks),
        acceptable(entries.remove(at), cpus),
{
    let rest = entries.remove(at);
    assert forall|i: int| 0 <= i < rest.len() implies tasks[(
    #[trigger] rest[i]).2 as int].scheduler_type is MixedVp && acceptable_entry(rest[i], cpus) by {
        if i < at {
            assert(rest[i] == entries[i]);
        } else {
            assert(rest[i] == entries[i + 1]);
        }
    }
}

proof fn lemma_mixed_stays(entries: Seq<QueueEntry>, before: Seq<Task>, after: Seq<Task>)
    requires
        all_mixed(entries, before),
        slots_exist(entries, before.len()),
        after.len() == before.len(),
        forall|i: int|
            0 <= i < before.len() ==> (#[trigger] after[i]).scheduler_type
                == before[i].scheduler_type,
    ensures
        all_mixed(entries, after),
{
    assert forall|i: int| 0 <= i < entries.len() implies after[(
    #[trigger] entries[i]).2 as int].scheduler_type is MixedVp by {
        assert(entries[i].2 < before.len());
        assert(after[entries[i].2 as int].scheduler_type
            == before[entries[i].2 as int].scheduler_type);
    }
}

proof fn lemma_put_back_one(
    entries: Seq<QueueEntry>,
    entry: QueueEntry,
    tasks: Seq<Task>,
    cpus: nat,
)
    requires
        slots_exist(entries, tasks.len()),
        keys_ascend(entries),
        all_mixed(entries, tasks),
        acceptable(entries, cpus),
        entry.2 < tasks.len(),
        tasks[entry.2 as int].scheduler_type is MixedVp,
        acceptable_entry(entry, cpus),
    ensures
        slots_exist(with_entry(entries, entry), tasks.len()),
        keys_ascend(with_entry(entries, entry)),
        all_mixed(with_entry(entries, entry), tasks),
        acceptable(with_entry(entries, entry), cpus),
{
    lemma_with_entry(entries, entry);
    lemma_with_entry_members(entries, entry);
    let result = with_entry(entries, entry);
    assert forall|i: int| 0 <= i < result.len() implies (#[trigger] result[i]).2 < tasks.len()
        && tasks[result[i].2 as int].scheduler_type is MixedVp && acceptable_entry(
        result[i],
        cpus,
    ) by {
        assert(result.contains(result[i]));
        if result[i] != entry {
            let k = choose|k: int| 0 <= k < entries.len() && entries[k] == result[i];
            assert(entries[k].2 < tasks.len());
        }
    }
}

/// Whether an entry could be picked for `cpu` now.
pub open spec fn pickable_now(
    entry: QueueEntry,
    tasks: Seq<Task>,
    cpus: Seq<CpuStatus>,
    budgets: Seq<ActiveVpCore>,
    cpu: usize,
) -> bool {
    &&& entry.1.contains(cpu)
    &&& may_run_now(tasks[entry.2 as int], tasks, cpus, budgets, cpu)
    &&& !tasks[entry.2 as int].dead()
}

/// An entry that may not run now never stands in the way of one that may: a task is found
/// exactly if there is one to pick, and it is then the first of them.
pub proof fn lemma_deferred_never_block(
    entries: Seq<QueueEntry>,
    deferred: Seq<QueueEntry>,
    tasks: Seq<Task>,
    cpus: Seq<CpuStatus>,
    budgets: Seq<ActiveVpCore>,
    cpu: usize,
)
    ensures
        match mixed_search(entries, deferred, tasks, cpus, budgets, cpu).next() {
            Some(slot) => exists|i: int|
                0 <= i < entries.len() && pickable_now(
                    #[trigger] entries[i],
                    tasks,
                    cpus,
                    budgets,
                    cpu,
                ) && entries[i].2 == slot && forall|k: int|
                    0 <= k < i ==> !pickable_now(
                        #[trigger] entries[k],
                        tasks,
                        cpus,
                        budgets,
                        cpu,
                    ),
            None => forall|i: int|
                0 <= i < entries.len() ==> !pickable_now(
                    #[trigger] entries[i],
                    tasks,
                    cpus,
                    budgets,
                    cpu,
                ),
        },
    decreases entries.len(),
{
    let at = first_for_cpu(entries, cpu, 0);
    lemma_first_for_cpu(entries, cpu, 0);
    if at < entries.len() {
        let entry = entries[at];
        let rest = entries.remove(at);
        if !pickable_now(entry, tasks, cpus, budgets, cpu) {
            let aside = if !may_run_now(tasks[entry.2 as int], tasks, cpus, budgets, cpu) {
                deferred.push(entry)
            } else {
                deferred
            };
            lemma_deferred_never_block(rest, aside, tasks, cpus, budgets, cpu);
            match mixed_search(rest, aside, tasks, cpus, budgets, cpu).next() {
                Some(slot) => {
                    let i = choose|i: int|
                        0 <= i < rest.len() && pickable_now(
                            #[trigger] rest[i],
                            tasks,
                            cpus,
                            budgets,
                            cpu,
                        ) && rest[i].2 == slot && forall|k: int|
                            0 <= k < i ==> !pickable_now(
                                #[trigger] rest[k],
                                tasks,
                                cpus,
                                budgets,
                                cpu,
                            );
                    let j = if i < at {
                        i
                    } else {
                        i + 1
                    };
                    assert(entries[j] == rest[i]);
                    assert forall|k: int| 0 <= k < j implies !pickable_now(
                        #[trigger] entries[k],
                        tasks,
                        cpus,
                        budgets,
                        cpu,
                    ) by {
                        if k > at {
                            assert(rest[k - 1] == entries[k]);
                        }
                    }
                },
                None => {
                    assert forall|k: int| 0 <= k < entries.len() implies !pickable_now(
                        #[trigger] entries[k],
                        tasks,
                        cpus,
                        budgets,
                        cpu,
                    ) by {
                        if k < at {
                            assert(rest[k] == entries[k]);
                        } else if k > at {
                            assert(rest[k - 1] == entries[k]);
                        }
                    }
                },
            }
        }
    }
}

/// Everything that was set aside is back in the queue afterwards, together with
/// everything that stayed there, unless the queue runs out of sequence numbers.
pub proof fn lemma_deferred_are_put_back(
    entries: Seq<QueueEntry>,
    pushes: nat,
    cpus: nat,
    deferred: Seq<QueueEntry>,
    n: int,
)
    requires
        0 <= n <= deferred.len(),
        acceptable(deferred, cpus),
        pushes + n <= u64::MAX,
    ensures
        put_back(entries, pushes, cpus, deferred, n).1 == pushes + n,
        put_back(entries, pushes, cpus, deferred, n).0.len() == entries.len() + n,
        forall|e: QueueEntry| #[trigger]
            put_back(entries, pushes, cpus, deferred, n).0.contains(e) <==> entries.contains(e)
                || deferred.take(n).contains(e),
    decreases n,
{
    if n > 0 {
        lemma_deferred_are_put_back(entries, pushes, cpus, deferred, n - 1);
        let rest = put_back(entries, pushes, cpus, deferred, n - 1).0;
        let last = deferred[n - 1];
        assert(refusal(cpus, (pushes + n - 1) as nat, last.1) is None);
        lemma_with_entry_members(rest, last);
        let all = put_back(entries, pushes, cpus, deferred, n).0;
        assert forall|e: QueueEntry| #[trigger] all.contains(e) <==> entries.contains(e)
            || deferred.take(n).contains(e) by {
            assert(all.contains(e) <==> e == last || rest.contains(e));
            let fewer = deferred.take(n - 1);
            let more = deferred.take(n);
            if fewer.contains(e) {
                let k = choose|k: int| 0 <= k < fewer.len() && fewer[k] == e;
                assert(more[k] == e);
            }
            if more.contains(e) {
                let k = choose|k: int| 0 <= k < more.len() && more[k] == e;
                if k < n - 1 {
                    assert(fewer[k] == e);
                }
            }
            assert(more[n - 1] == last);
        }
    } else {
        assert(deferred.take(0) =~= Seq::<QueueEntry>::empty());
    }
}

/// Putting entries back adds each of them once.
proof fn lemma_put_back_counts(
    entries: Seq<QueueEntry>,
    pushes: nat,
    cpus: nat,
    deferred: Seq<QueueEntry>,
    n: int,
)
    requires
        0 <= n <= deferred.len(),
        acceptable(deferred, cpus),
        pushes + n <= u64::MAX,
    ensures
        put_back(entries, pushes, cpus, deferred, n).1 == pushes + n,
        forall|e: QueueEntry| #[trigger]
            put_back(entries, pushes, cpus, deferred, n).0.to_multiset().count(e)
                == entries.to_multiset().count(e) + deferred.take(n).to_multiset().count(e),
    decreases n,
{
    broadcast use vstd::seq_lib::group_to_multiset_ensures;

    if n > 0 {
        lemma_put_back_counts(entries, pushes, cpus, deferred, n - 1);
        let last = deferred[n - 1];
        assert(acceptable_entry(last, cpus));
        assert(refusal(cpus, (pushes + n - 1) as nat, last.1) is None);
        let rest = put_back(entries, pushes, cpus, deferred, n - 1).0;
        lemma_with_entry_multiset(rest, last);
        assert(deferred.take(n) =~= deferred.take(n - 1).push(last));
        let all = put_back(entries, pushes, cpus, deferred, n).0;
        assert forall|e: QueueEntry| #[trigger] all.to_multiset().count(e)
            == entries.to_multiset().count(e) + deferred.take(n).to_multiset().count(e) by {
            assert(rest.to_multiset().count(e) == entries.to_multiset().count(e) + deferred.take(
                n - 1,
            ).to_multiset().count(e));
        }
    } else {
        assert(deferred.take(0) =~= Seq::<QueueEntry>::empty());
    }
}

/// A search drops entries of dead tasks only: any other entry is picked, set aside, or stays.
proof fn lemma_search_counts(
    entries: Seq<QueueEntry>,
    deferred: Seq<QueueEntry>,
    tasks: Seq<Task>,
    cpus: Seq<CpuStatus>,
    budgets: Seq<ActiveVpCore>,
    cpu: usize,
    num_cpu: nat,
)
    requires
        acceptable(entries, num_cpu),
        acceptable(deferred, num_cpu),
    ensures
        ({
            let found = mixed_search(entries, deferred, tasks, cpus, budgets, cpu);
            &&& acceptable(found.deferred, num_cpu)
            &&& forall|e: QueueEntry|
                {
                    let now = #[trigger] found.entries.to_multiset().count(e)
                        + found.deferred.to_multiset().count(e) + if found.picked == Some(e) {
                        1nat
                    } else {
                        0nat
                    };
                    let before = entries.to_multiset().count(e) + deferred.to_multiset().count(e);
                    &&& now <= before
                    &&& !tasks[e.2 as int].dead() ==> now == before
                }
        }),
    decreases entries.len(),
{
    broadcast use vstd::seq_lib::group_to_multiset_ensures;

    let at = first_for_cpu(entries, cpu, 0);
    if 0 <= at < entries.len() {
        let entry = entries[at];
        let task = tasks[entry.2 as int];
        let rest = entries.remove(at);
        assert(entries.contains(entry));
        assert(rest.to_multiset() =~= entries.to_multiset().remove(entry));
        assert(acceptable(rest, num_cpu)) by {
            assert forall|i: int| 0 <= i < rest.len() implies acceptable_entry(
                #[trigger] rest[i],
                num_cpu,
            ) by {
                if i < at {
                    assert(rest[i] == entries[i]);
                } else {
                    assert(rest[i] == entries[i + 1]);
                }
            }
        }
        if !may_run_now(task, tasks, cpus, budgets, cpu) {
            let aside = deferred.push(entry);
            assert forall|i: int| 0 <= i < aside.len() implies acceptable_entry(
                #[trigger] aside[i],
                num_cpu,
            ) by {
                if i < deferred.len() {
                    assert(aside[i] == deferred[i]);
                } else {
                    assert(aside[i] == entries[at]);
                }
            }
            lemma_search_counts(rest, aside, tasks, cpus, budgets, cpu, num_cpu);
            assert(aside.to_multiset() =~= deferred.to_multiset().insert(entry));
        } else if task.dead() {
            lemma_search_counts(rest, deferred, tasks, cpus, budgets, cpu, num_cpu);
        }
    }
}

/// Picking a task loses no other: unless the queue runs out of sequence numbers, every entry
/// of a task that is not dead is queued afterwards as often as before, with its key and its
/// CPUs, but for the one that was picked; and nothing comes in.
pub proof fn lemma_nothing_is_lost(
    entries: Seq<QueueEntry>,
    pushes: nat,
    num_cpu: nat,
    tasks: Seq<Task>,
    cpus: Seq<CpuStatus>,
    budgets: Seq<ActiveVpCore>,
    cpu: usize,
)
    requires
        acceptable(entries, num_cpu),
    ensures
        ({
            let found = mixed_search(entries, Seq::empty(), tasks, cpus, budgets, cpu);
            let n = found.deferred.len() as int;
            pushes + n <= u64::MAX ==> only_picked_left(
                entries,
                put_back(found.entries, pushes, num_cpu, found.deferred, n).0,
                tasks,
                found.picked,
            )
        }),
{
    broadcast use vstd::seq_lib::group_to_multiset_ensures;

    let none = Seq::<QueueEntry>::empty();
    lemma_search_counts(entries, none, tasks, cpus, budgets, cpu, num_cpu);
    let found = mixed_search(entries, none, tasks, cpus, budgets, cpu);
    let n = found.deferred.len() as int;
    if pushes + n <= u64::MAX {
        lemma_put_back_counts(found.entries, pushes, num_cpu, found.deferred, n);
        assert(found.deferred.take(n) =~= found.deferred);
        let after = put_back(found.entries, pushes, num_cpu, found.deferred, n).0;
        assert(none.to_multiset() =~= vstd::multiset::Multiset::empty());
        assert(only_picked_left(entries, after, tasks, found.picked)) by {
            assert forall|e: QueueEntry|
                {
                    let left = #[trigger] after.to_multiset().count(e) + if found.picked == Some(
                        e,
                    ) {
                        1nat
                    } else {
                        0nat
                    };
                    &&& left <= entries.to_multiset().count(e)
                    &&& !tasks[e.2 as int].dead() ==> left == entries.to_multiset().count(e)
                } by {
                assert(found.entries.to_multiset().count(e) >= 0);
            }
        }
    }
}

} // verus!
