//! What the clustered schedulers share: queueing a woken task, and picking the next one.

use vstd::prelude::*;

use super::task::{
    cpus_running, invoke_preemption, picked, preemption, Preemption, Task, TaskTable,
};
use crate::cpu::{cpu_set_view, CpuSet};
use crate::queue::{
    first_for_cpu, key_no_later, keys_ascend, lemma_first_for_cpu, lemma_with_entry,
    lemma_with_entry_members, lemma_without_entry, queue_cpus, queue_pop_for_cpu, queue_push,
    queue_pushes, queue_view, refusal, with_entry, PushRefusal, QueueEntry, RunQueue,
};

verus! {

/// What becomes of a woken task.
#[derive(Debug, Clone, Copy, PartialEq, Eq, Structural)]
pub enum WakeOutcome {
    /// It takes a CPU over at once: the caller hands it to that CPU and interrupts it.
    Preempt(Preemption),
    /// It is queued.
    Queued,
    /// The queue refused it.
    Refused(PushRefusal),
}

/// What becomes of a woken task, and of the queue: with a decision to preempt, the queue
/// stays as it is; otherwise the task is queued, unless the queue refuses it.
pub open spec fn wakes(
    before: RunQueue,
    after: RunQueue,
    decision: Option<Preemption>,
    entry: QueueEntry,
    outcome: WakeOutcome,
) -> bool {
    match decision {
        Some(p) => {
            &&& outcome == WakeOutcome::Preempt(p)
            &&& after == before
        },
        None => {
            &&& queue_cpus(after) == queue_cpus(before)
            &&& match refusal(queue_cpus(before), queue_pushes(before), entry.1) {
                Some(reason) => {
                    &&& outcome == WakeOutcome::Refused(reason)
                    &&& queue_view(after) == queue_view(before)
                    &&& queue_pushes(after) == queue_pushes(before)
                },
                None => {
                    &&& outcome == WakeOutcome::Queued
                    &&& queue_view(after) == with_entry(queue_view(before), entry)
                    &&& queue_pushes(after) == queue_pushes(before) + 1
                },
            }
        },
    }
}

/// Every queued task exists.
pub open spec fn slots_exist(entries: Seq<QueueEntry>, tasks: nat) -> bool {
    forall|i: int| 0 <= i < entries.len() ==> (#[trigger] entries[i]).2 < tasks
}

/// A queue whose entries ascend by key and whose tasks exist.
pub open spec fn queue_wf(queue: RunQueue, tasks: nat) -> bool {
    slots_exist(queue_view(queue), tasks) && keys_ascend(queue_view(queue))
}

/// Waking a task keeps a queue well formed.
pub proof fn lemma_wakes_keeps_wf(
    before: RunQueue,
    after: RunQueue,
    decision: Option<Preemption>,
    entry: QueueEntry,
    outcome: WakeOutcome,
    tasks: nat,
)
    requires
        wakes(before, after, decision, entry, outcome),
        queue_wf(before, tasks),
        entry.2 < tasks,
    ensures
        queue_wf(after, tasks),
{
    let entries = queue_view(before);
    lemma_with_entry(entries, entry);
    lemma_with_entry_members(entries, entry);
    let result = with_entry(entries, entry);
    assert forall|i: int| 0 <= i < result.len() implies (#[trigger] result[i]).2 < tasks by {
        assert(result.contains(result[i]));
        if result[i] != entry {
            let k = choose|k: int| 0 <= k < entries.len() && entries[k] == result[i];
            assert(entries[k].2 < tasks);
        }
    }
}

/// Lets a woken task take a CPU of `list` over, or queues it.
pub(crate) fn preempt_or_queue(
    queue: &mut RunQueue,
    table: &TaskTable,
    slot: usize,
    list: &Vec<usize>,
    key: (u64, u64, u64),
    affinity: CpuSet,
) -> (outcome: WakeOutcome)
    requires
        table.wf(),
        slot < table.tasks@.len(),
        queue_wf(*old(queue), table.tasks@.len()),
    ensures
        queue_wf(*final(queue), table.tasks@.len()),
        wakes(
            *old(queue),
            *final(queue),
            preemption(table.tasks@, table.cpus@, slot, list@),
            (key, cpu_set_view(affinity), slot),
            outcome,
        ),
{
    let decision = invoke_preemption(table, slot, list);
    let outcome = match decision {
        Some(p) => WakeOutcome::Preempt(p),
        None => match queue_push(queue, key, affinity, slot) {
            Ok(_) => WakeOutcome::Queued,
            Err(reason) => WakeOutcome::Refused(reason),
        },
    };
    proof {
        lemma_wakes_keeps_wf(
            *old(queue),
            *queue,
            decision,
            (key, cpu_set_view(affinity), slot),
            outcome,
            table.tasks@.len(),
        );
    }
    outcome
}

/// Picking a task for `cpu`: the first entry that may run there and whose task is not
/// dead, and what is left of the queue. Entries of dead tasks on the way are dropped.
pub open spec fn picked_entry(entries: Seq<QueueEntry>, tasks: Seq<Task>, cpu: usize) -> (
    Option<usize>,
    Seq<QueueEntry>,
)
    decreases entries.len(),
{
    let at = first_for_cpu(entries, cpu, 0);
    if 0 <= at < entries.len() {
        let slot = entries[at].2;
        let rest = entries.remove(at);
        if tasks[slot as int].dead() {
            picked_entry(rest, tasks, cpu)
        } else {
            (Some(slot), rest)
        }
    } else {
        (None, entries)
    }
}

/// Takes the next task for `cpu` out of a queue.
pub(crate) fn pop_live(queue: &mut RunQueue, table: &TaskTable, cpu: usize) -> (slot: Option<usize>)
    requires
        queue_wf(*old(queue), table.tasks@.len()),
        cpu < queue_cpus(*old(queue)),
    ensures
        queue_cpus(*final(queue)) == queue_cpus(*old(queue)),
        queue_pushes(*final(queue)) == queue_pushes(*old(queue)),
        (slot, queue_view(*final(queue))) == picked_entry(
            queue_view(*old(queue)),
            table.tasks@,
            cpu,
        ),
        slot matches Some(s) ==> s < table.tasks@.len() && !table.tasks@[s as int].dead(),
        queue_wf(*final(queue), table.tasks@.len()),
{
    let ghost start = queue_view(*queue);
    loop
        invariant
            queue_wf(*queue, table.tasks@.len()),
            cpu < queue_cpus(*queue),
            queue_cpus(*queue) == queue_cpus(*old(queue)),
            queue_pushes(*queue) == queue_pushes(*old(queue)),
            start == queue_view(*old(queue)),
            picked_entry(start, table.tasks@, cpu) == picked_entry(
                queue_view(*queue),
                table.tasks@,
                cpu,
            ),
        decreases queue_view(*queue).len(),
    {
        let ghost entries = queue_view(*queue);
        let ghost at = first_for_cpu(entries, cpu, 0);
        proof {
            lemma_first_for_cpu(entries, cpu, 0);
        }
        match queue_pop_for_cpu(queue, cpu) {
            None => {
                return None;
            },
            Some((_, _, slot)) => {
                assert(entries[at].2 == slot);
                proof {
                    lemma_remove_keeps_slots(entries, at, table.tasks@.len());
                    lemma_without_entry(entries, at);
                }
                if !table.tasks[slot].is_dead() {
                    return Some(slot);
                }
            },
        }
    }
}

/// What picking a task does to the tasks and CPUs.
pub open spec fn picks(
    before: TaskTable,
    after: TaskTable,
    next: Option<usize>,
    cpu: usize,
    execution_ensured: bool,
) -> bool {
    match next {
        Some(slot) => {
            let task = before.tasks@[slot as int];
            &&& slot < before.tasks@.len()
            &&& after.tasks@ == before.tasks@.update(slot as int, picked(task, execution_ensured))
            &&& after.cpus@ == cpus_running(before.cpus@, cpu, task.id, execution_ensured)
        },
        None => after.tasks@ == before.tasks@ && after.cpus@ == before.cpus@,
    }
}

/// Taking an entry out of a queue keeps the rest.
pub proof fn lemma_remove_keeps_slots(entries: Seq<QueueEntry>, at: int, tasks: nat)
    requires
        slots_exist(entries, tasks),
        0 <= at < entries.len(),
    ensures
        slots_exist(entries.remove(at), tasks),
{
    let rest = entries.remove(at);
    assert forall|i: int| 0 <= i < rest.len() implies (#[trigger] rest[i]).2 < tasks by {
        if i < at {
            assert(rest[i] == entries[i]);
        } else {
            assert(rest[i] == entries[i + 1]);
        }
    }
}

/// Whether an entry could be picked for `cpu`.
pub open spec fn pickable(entry: QueueEntry, tasks: Seq<Task>, cpu: usize) -> bool {
    entry.1.contains(cpu) && !tasks[entry.2 as int].dead()
}

/// A task is picked exactly if there is one to pick, and it is then the first of them.
pub proof fn lemma_picked_entry(entries: Seq<QueueEntry>, tasks: Seq<Task>, cpu: usize)
    ensures
        match picked_entry(entries, tasks, cpu).0 {
            Some(slot) => exists|i: int|
                0 <= i < entries.len() && pickable(#[trigger] entries[i], tasks, cpu)
                    && entries[i].2 == slot && forall|k: int|
                    0 <= k < i ==> !pickable(#[trigger] entries[k], tasks, cpu),
            None => forall|i: int|
                0 <= i < entries.len() ==> !pickable(#[trigger] entries[i], tasks, cpu),
        },
    decreases entries.len(),
{
    let at = first_for_cpu(entries, cpu, 0);
    lemma_first_for_cpu(entries, cpu, 0);
    if at < entries.len() {
        let rest = entries.remove(at);
        if tasks[entries[at].2 as int].dead() {
            lemma_picked_entry(rest, tasks, cpu);
            match picked_entry(rest, tasks, cpu).0 {
                Some(slot) => {
                    let i = choose|i: int|
                        0 <= i < rest.len() && pickable(#[trigger] rest[i], tasks, cpu)
                            && rest[i].2 == slot && forall|k: int|
                            0 <= k < i ==> !pickable(#[trigger] rest[k], tasks, cpu);
                    let j = if i < at {
                        i
                    } else {
                        i + 1
                    };
                    assert(entries[j] == rest[i]);
                    assert forall|k: int| 0 <= k < j implies !pickable(
                        #[trigger] entries[k],
                        tasks,
                        cpu,
                    ) by {
                        if k < at {
                        } else if k > at {
                            assert(rest[k - 1] == entries[k]);
                        }
                    }
                },
                None => {
                    assert forall|k: int| 0 <= k < entries.len() implies !pickable(
                        #[trigger] entries[k],
                        tasks,
                        cpu,
                    ) by {
                        if k < at {
                            assert(rest[k] == entries[k]);
                        } else if k > at {
                            assert(rest[k - 1] == entries[k]);
                        }
                    }
                },
            }
        } else {
            assert(pickable(entries[at], tasks, cpu));
        }
    }
}

/// The picked task is the one with the least key of all that could be picked.
pub proof fn lemma_picked_has_least_key(entries: Seq<QueueEntry>, tasks: Seq<Task>, cpu: usize)
    requires
        keys_ascend(entries),
        picked_entry(entries, tasks, cpu).0 is Some,
    ensures
        exists|i: int|
            0 <= i < entries.len() && pickable(#[trigger] entries[i], tasks, cpu) && entries[i].2
                == picked_entry(entries, tasks, cpu).0->0 && forall|k: int|
                0 <= k < entries.len() && pickable(#[trigger] entries[k], tasks, cpu)
                    ==> key_no_later(entries[i].0, entries[k].0),
{
    lemma_picked_entry(entries, tasks, cpu);
    let slot = picked_entry(entries, tasks, cpu).0->0;
    let i = choose|i: int|
        0 <= i < entries.len() && pickable(#[trigger] entries[i], tasks, cpu) && entries[i].2
            == slot && forall|k: int| 0 <= k < i ==> !pickable(#[trigger] entries[k], tasks, cpu);
    assert forall|k: int| 0 <= k < entries.len() && pickable(
        #[trigger] entries[k],
        tasks,
        cpu,
    ) implies key_no_later(entries[i].0, entries[k].0) by {
        if i < k {
            assert(key_no_later(entries[i].0, entries[k].0));
        }
    }
}

} // verus!
