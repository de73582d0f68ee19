//! Who goes first: what the dispatch of all scheduler classes guarantees to urgent tasks.

use vstd::prelude::*;

use super::active_vp::{
    active_next, armed, budget_left, budgets_woken, eligible, ticked, with_core, ActiveVpCore,
    NO_GROUP,
};
use super::dispatch::{
    lemma_picked_entry, lemma_picked_has_least_key, pickable, picked_entry, picks, wakes,
    WakeOutcome,
};
use super::dp_wrap::{
    entitled_preemption, lemma_lowest_below, lowest_below, may_take_over, running_target, NO_DAG,
};
use super::mixed_vp::{mixed_search, own_cores};
use super::passive_vp::{owner_busy, passive_next};
use super::scheduler_type::SchedulerType;
use super::task::{
    lemma_victim_below, preemption, slot_from, slot_of, stops_search, target_on, victim_below,
    woken, CpuStatus, Preemption, State, Task, TaskTable, Wake, MAX_TASK_PRIORITY,
};
use crate::cpu::{cpu_set_view, lemma_members_below, members, NUM_MAX_CPU};
use crate::queue::{
    first_for_cpu, keys_ascend, lemma_first_for_cpu, lemma_with_entry_members,
    lemma_without_entry, queue_cpus, queue_pushes, queue_view, QueueEntry, RunQueue,
};

verus! {

/// Whether task `a` goes before task `b`: it is of a higher tier, or of the same tier and of a
/// higher priority.
pub open spec fn outranks(a: Task, b: Task) -> bool {
    a.class_priority > b.class_priority || (a.class_priority == b.class_priority && a.task_priority
        > b.task_priority)
}

/// Of two woken tasks the one of the higher tier goes first, and of the same tier the one with
/// the earlier deadline; a task remembers the deadline it was woken with.
pub proof fn lemma_woken_tasks_rank_by_deadline(
    a: Task,
    b: Task,
    tier_a: u8,
    tier_b: u8,
    deadline_a: u64,
    deadline_b: u64,
)
    requires
        deadline_a <= MAX_TASK_PRIORITY,
        deadline_b <= MAX_TASK_PRIORITY,
    ensures
        outranks(woken(a, tier_a, deadline_a), woken(b, tier_b, deadline_b)) <==> tier_a > tier_b
            || (tier_a == tier_b && deadline_a < deadline_b),
        woken(b, tier_b, deadline_b).below(woken(a, tier_a, deadline_a)) <==> tier_a > tier_b || (
        tier_a == tier_b && deadline_a < deadline_b),
        woken(a, tier_a, deadline_a).absolute_deadline == Some(deadline_a),
        woken(a, tier_a, deadline_a).id == a.id,
        woken(a, tier_a, deadline_a).scheduler_type == a.scheduler_type,
        woken(a, tier_a, deadline_a).state == a.state,
{
}

/// The absolute deadline that a wake gives: its job's, or the time of the wake for a task that
/// is no node of a DAG.
pub open spec fn deadline_given(wake: Wake) -> u64 {
    if wake.dag is Some {
        wake.dag->0.absolute_deadline
    } else {
        wake.time
    }
}

/// The node priority that a wake gives; the lowest for a task that is no node of a DAG.
pub open spec fn priority_given(wake: Wake) -> u64 {
    if wake.dag is Some {
        wake.dag->0.node_priority
    } else {
        0
    }
}

/// The queue goes by deadline: of two woken tasks the one with the earlier absolute deadline
/// comes first; of equal deadlines the one with the higher node priority; of those the one
/// that was woken earlier.
pub proof fn lemma_queue_goes_by_deadline(a: Wake, b: Wake)
    ensures
        a.deadline() == deadline_given(a),
        a.node_priority() == priority_given(a),
        deadline_given(a) < deadline_given(b) ==> earlier(a.key(), b.key()),
        deadline_given(a) == deadline_given(b) && priority_given(a) > priority_given(b) ==> earlier(
            a.key(),
            b.key(),
        ),
        deadline_given(a) == deadline_given(b) && priority_given(a) == priority_given(b) && a.time
            < b.time ==> earlier(a.key(), b.key()),
{
}

/// Whether the key `a` is before the key `b` in the order of tuples.
pub open spec fn earlier(a: (u64, u64, u64), b: (u64, u64, u64)) -> bool {
    a.0 < b.0 || (a.0 == b.0 && a.1 < b.1) || (a.0 == b.0 && a.1 == b.1 && a.2 < b.2)
}

/// Whether a task can still run.
pub open spec fn alive(task: Task) -> bool {
    task.state != State::Terminated && task.state != State::Panicked
}

/// The task that is picked for a CPU may run on it and is alive, and no other queued task that
/// may run there and is alive has an earlier key. None is picked exactly if there is no such
/// task.
pub proof fn lemma_picked_task_is_most_urgent(
    entries: Seq<QueueEntry>,
    tasks: Seq<Task>,
    cpu: usize,
)
    requires
        keys_ascend(entries),
    ensures
        match picked_entry(entries, tasks, cpu).0 {
            Some(slot) => exists|i: int|
                {
                    &&& 0 <= i < entries.len()
                    &&& (#[trigger] entries[i]).2 == slot
                    &&& entries[i].1.contains(cpu)
                    &&& alive(tasks[slot as int])
                    &&& forall|k: int|
                        0 <= k < entries.len() && (#[trigger] entries[k]).1.contains(cpu) && alive(
                            tasks[entries[k].2 as int],
                        ) ==> !earlier(entries[k].0, entries[i].0)
                },
            None => forall|k: int|
                0 <= k < entries.len() && (#[trigger] entries[k]).1.contains(cpu) ==> !alive(
                    tasks[entries[k].2 as int],
                ),
        },
{
    lemma_picked_entry(entries, tasks, cpu);
    match picked_entry(entries, tasks, cpu).0 {
        Some(slot) => {
            lemma_picked_has_least_key(entries, tasks, cpu);
            let i = choose|i: int|
                0 <= i < entries.len() && pickable(#[trigger] entries[i], tasks, cpu)
                    && entries[i].2 == slot && forall|k: int|
                    0 <= k < entries.len() && pickable(#[trigger] entries[k], tasks, cpu)
                        ==> crate::queue::key_no_later(entries[i].0, entries[k].0);
            assert(pickable(entries[i], tasks, cpu));
            assert forall|k: int|
                0 <= k < entries.len() && (#[trigger] entries[k]).1.contains(cpu) && alive(
                    tasks[entries[k].2 as int],
                ) implies !earlier(entries[k].0, entries[i].0) by {
                assert(pickable(entries[k], tasks, cpu));
            }
        },
        None => {
            assert forall|k: int|
                0 <= k < entries.len() && (#[trigger] entries[k]).1.contains(cpu) implies !alive(
                tasks[entries[k].2 as int],
            ) by {
                assert(!pickable(entries[k], tasks, cpu));
            }
        },
    }
}

/// Picking takes nothing out of the queue but the picked task and dead ones: every entry of
/// another task that is alive stays.
pub proof fn lemma_picking_keeps_the_others(
    entries: Seq<QueueEntry>,
    tasks: Seq<Task>,
    cpu: usize,
    e: QueueEntry,
)
    requires
        alive(tasks[e.2 as int]),
        picked_entry(entries, tasks, cpu).0 != Some(e.2),
    ensures
        picked_entry(entries, tasks, cpu).1.to_multiset().count(e) == entries.to_multiset().count(
            e,
        ),
    decreases entries.len(),
{
    broadcast use vstd::seq_lib::group_to_multiset_ensures;

    let at = first_for_cpu(entries, cpu, 0);
    lemma_first_for_cpu(entries, cpu, 0);
    if at < entries.len() && tasks[entries[at].2 as int].dead() {
        lemma_picking_keeps_the_others(entries.remove(at), tasks, cpu, e);
    }
}

/// A woken task is never lost: it takes a CPU over, or it is queued with its CPUs and its key
/// and nothing leaves the queue, or the queue refuses it because it has no CPU that the queue
/// knows, or has accepted as many as it can number.
pub proof fn lemma_woken_task_is_not_lost(
    before: RunQueue,
    after: RunQueue,
    decision: Option<Preemption>,
    entry: QueueEntry,
    outcome: WakeOutcome,
)
    requires
        wakes(before, after, decision, entry, outcome),
    ensures
        match outcome {
            WakeOutcome::Preempt(p) => decision == Some(p) && queue_view(after) == queue_view(
                before,
            ),
            WakeOutcome::Queued => {
                &&& decision is None
                &&& queue_view(after).contains(entry)
                &&& queue_view(after).len() == queue_view(before).len() + 1
                &&& forall|e: QueueEntry|
                    #[trigger] queue_view(before).contains(e) ==> queue_view(after).contains(e)
            },
            WakeOutcome::Refused(_) => {
                &&& decision is None
                &&& queue_view(after) == queue_view(before)
                &&& entry.1 == Set::<usize>::empty() || queue_pushes(before) >= u64::MAX || exists|
                    cpu: usize,
                |
                    entry.1.contains(cpu) && cpu >= queue_cpus(before)
            },
        },
{
    lemma_with_entry_members(queue_view(before), entry);
}

/// What is recorded of a picked task: with its execution ensured, it is running and its CPU
/// runs it; otherwise no CPU and no state changes. Only a preempted task is relieved of its
/// preemption, and no other task and no other CPU is touched.
pub proof fn lemma_picking_is_recorded(
    before: TaskTable,
    after: TaskTable,
    slot: usize,
    cpu: usize,
    execution_ensured: bool,
)
    requires
        picks(before, after, Some(slot), cpu, execution_ensured),
        cpu < before.cpus@.len(),
    ensures
        slot < after.tasks@.len(),
        execution_ensured ==> after.cpus@[cpu as int].running == before.tasks@[slot as int].id,
        execution_ensured ==> after.tasks@[slot as int].state == State::Running,
        !execution_ensured ==> after.cpus@ == before.cpus@,
        !execution_ensured ==> after.tasks@[slot as int].state == before.tasks@[slot as int].state,
        after.tasks@[slot as int].need_preemption == (before.tasks@[slot as int].need_preemption
            && before.tasks@[slot as int].state != State::Preempted),
        after.tasks@[slot as int].id == before.tasks@[slot as int].id,
        after.tasks@[slot as int].task_priority == before.tasks@[slot as int].task_priority,
        forall|s: int|
            0 <= s < before.tasks@.len() && s != slot ==> (#[trigger] after.tasks@[s])
                == before.tasks@[s],
        forall|c: int|
            0 <= c < before.cpus@.len() && c != cpu ==> (#[trigger] after.cpus@[c])
                == before.cpus@[c],
        after.cpus@[cpu as int].pending == before.cpus@[cpu as int].pending,
{
}

/// Looking a task up by its identifier finds a task that has it, or there is none.
pub proof fn lemma_slot_holds_the_task(tasks: Seq<Task>, id: u32, i: int)
    requires
        0 <= i,
        tasks.len() <= usize::MAX,
    ensures
        match slot_from(tasks, id, i) {
            Some(s) => i <= s < tasks.len() && tasks[s as int].id == id,
            None => forall|k: int| i <= k < tasks.len() ==> (#[trigger] tasks[k]).id != id,
        },
    decreases tasks.len() - i,
{
    if i < tasks.len() && tasks[i].id != id {
        lemma_slot_holds_the_task(tasks, id, i + 1);
    }
}

/// Whether the task in slot `s` would have to give way on `cpu`: it runs there or waits for it,
/// and neither the running nor the waiting task outranks it.
pub open spec fn gives_way(tasks: Seq<Task>, cpus: Seq<CpuStatus>, cpu: usize, s: usize) -> bool {
    let status = cpus[cpu as int];
    &&& cpu < cpus.len()
    &&& s < tasks.len()
    &&& tasks[s as int].id == status.running || status.pending == Some(s)
    &&& status.pending matches Some(p) ==> !outranks(tasks[p as int], tasks[s as int])
    &&& slot_of(tasks, status.running) matches Some(r) ==> !outranks(
        tasks[r as int],
        tasks[s as int],
    )
}

proof fn lemma_target_gives_way(tasks: Seq<Task>, cpus: Seq<CpuStatus>, cpu: usize)
    requires
        tasks.len() <= usize::MAX,
        cpu < cpus.len(),
        cpus[cpu as int].pending matches Some(p) ==> p < tasks.len(),
        target_on(tasks, cpus, cpu) is Some,
    ensures
        gives_way(tasks, cpus, cpu, target_on(tasks, cpus, cpu)->0),
{
    lemma_slot_holds_the_task(tasks, cpus[cpu as int].running, 0);
}

/// Whether the waiting tasks of all CPUs exist.
pub open spec fn waiting_exist(tasks: Seq<Task>, cpus: Seq<CpuStatus>) -> bool {
    forall|c: int|
        0 <= c < cpus.len() ==> ((#[trigger] cpus[c]).pending matches Some(p) ==> p < tasks.len())
}

/// Whether `task` does not outrank a task that has to give way on `cpu`.
pub open spec fn withstands(
    tasks: Seq<Task>,
    cpus: Seq<CpuStatus>,
    cpu: usize,
    task: Task,
) -> bool {
    exists|t: usize| #[trigger] gives_way(tasks, cpus, cpu, t) && !outranks(task, tasks[t as int])
}

/// Whether the search for a CPU ends at `cpu`: it is idle, or runs the task `id` already, or
/// nothing is known of what it runs or of what waits for it.
pub open spec fn ends_search(tasks: Seq<Task>, cpus: Seq<CpuStatus>, cpu: usize, id: u32) -> bool {
    let status = cpus[cpu as int];
    ||| status.running == 0
    ||| status.running == id
    ||| slot_of(tasks, status.running) is None && status.pending is None
}

/// Whether the search ends at none of the CPUs of a list.
pub open spec fn all_busy(
    tasks: Seq<Task>,
    cpus: Seq<CpuStatus>,
    list: Seq<usize>,
    id: u32,
) -> bool {
    forall|k: int| 0 <= k < list.len() ==> !ends_search(tasks, cpus, #[trigger] list[k], id)
}

/// Whether on every CPU of a list a task has to give way that `task` does not outrank.
pub open spec fn all_withstand(
    tasks: Seq<Task>,
    cpus: Seq<CpuStatus>,
    list: Seq<usize>,
    task: Task,
) -> bool {
    forall|k: int| 0 <= k < list.len() ==> withstands(tasks, cpus, #[trigger] list[k], task)
}

/// Whether a decision takes a CPU from a task that `task` outranks.
pub open spec fn displaces(
    tasks: Seq<Task>,
    cpus: Seq<CpuStatus>,
    decision: Preemption,
    s: usize,
    task: Task,
) -> bool {
    &&& gives_way(tasks, cpus, decision.cpu, s)
    &&& tasks[s as int].id == decision.target
    &&& outranks(task, tasks[s as int])
}

/// A woken task takes a CPU over exactly if the search ends at none of its CPUs and it outranks
/// the task that has to give way on one of them; it then takes the CPU whose task is of the
/// lowest rank of all that would have to give way.
pub proof fn lemma_urgent_task_takes_a_cpu_over(
    tasks: Seq<Task>,
    cpus: Seq<CpuStatus>,
    slot: usize,
    list: Seq<usize>,
)
    requires
        tasks.len() <= usize::MAX,
        slot < tasks.len(),
        waiting_exist(tasks, cpus),
        forall|k: int| 0 <= k < list.len() ==> (#[trigger] list[k]) < cpus.len(),
    ensures
        preemption(tasks, cpus, slot, list) matches Some(decision) ==> {
            &&& list.contains(decision.cpu)
            &&& all_busy(tasks, cpus, list, tasks[slot as int].id)
            &&& exists|s: usize|
                #[trigger] displaces(tasks, cpus, decision, s, tasks[slot as int])
                    && all_withstand(tasks, cpus, list, tasks[s as int])
        },
        preemption(tasks, cpus, slot, list) is None && all_busy(
            tasks,
            cpus,
            list,
            tasks[slot as int].id,
        ) ==> all_withstand(tasks, cpus, list, tasks[slot as int]),
{
    let task = tasks[slot as int];
    assert forall|k: int| 0 <= k < list.len() implies stops_search(
        tasks,
        cpus,
        task.id,
        #[trigger] list[k],
    ) == ends_search(tasks, cpus, list[k], task.id) by {}
    if exists|k: int| 0 <= k < list.len() && stops_search(tasks, cpus, task.id, #[trigger] list[k]) {
        let k = choose|k: int|
            0 <= k < list.len() && stops_search(tasks, cpus, task.id, #[trigger] list[k]);
        assert(ends_search(tasks, cpus, list[k], task.id));
        assert(preemption(tasks, cpus, slot, list) is None);
    } else {
        assert forall|k: int| 0 <= k < list.len() implies !ends_search(
            tasks,
            cpus,
            #[trigger] list[k],
            task.id,
        ) && target_on(tasks, cpus, list[k]) is Some && gives_way(
            tasks,
            cpus,
            list[k],
            target_on(tasks, cpus, list[k])->0,
        ) by {
            assert(!stops_search(tasks, cpus, task.id, list[k]));
            lemma_target_gives_way(tasks, cpus, list[k]);
        }
        assert(all_busy(tasks, cpus, list, task.id));
        lemma_victim_below(tasks, cpus, list, list.len() as int);
        if let Some((cpu, s)) = victim_below(tasks, cpus, list, list.len() as int) {
            let c = choose|k: int| 0 <= k < list.len() && (#[trigger] list[k]) == cpu;
            assert(gives_way(tasks, cpus, list[c], s));
            assert forall|k: int| 0 <= k < list.len() implies withstands(
                tasks,
                cpus,
                #[trigger] list[k],
                tasks[s as int],
            ) && (!outranks(task, tasks[s as int]) ==> withstands(tasks, cpus, list[k], task)) by {
                let t = target_on(tasks, cpus, list[k])->0;
                assert(gives_way(tasks, cpus, list[k], t));
                assert(!tasks[t as int].below(tasks[s as int]));
            }
            if tasks[s as int].below(task) {
                let decision = Preemption { cpu, target: tasks[s as int].id };
                assert(displaces(tasks, cpus, decision, s, task));
                assert(all_withstand(tasks, cpus, list, tasks[s as int]));
                assert(list.contains(decision.cpu));
                assert(preemption(tasks, cpus, slot, list) == Some(decision));
            } else {
                assert(preemption(tasks, cpus, slot, list) is None);
            }
        }
    }
}

/// Whether a node of `dag` can take `cpu` over: the CPU is entitled to the DAG, is not reserved,
/// and runs a known task.
pub open spec fn open_to(
    tasks: Seq<Task>,
    cpus: Seq<CpuStatus>,
    entitlement: Seq<u32>,
    dag: u32,
    cpu: usize,
) -> bool {
    &&& cpu < cpus.len()
    &&& cpu < entitlement.len()
    &&& entitlement[cpu as int] == dag
    &&& dag != NO_DAG
    &&& !cpus[cpu as int].reserved
    &&& cpus[cpu as int].running != 0
    &&& slot_of(tasks, cpus[cpu as int].running) is Some
}

/// Whether the woken task runs already, or an idle worker that is entitled to its DAG will pick
/// it up.
pub open spec fn served_anyway(
    cpus: Seq<CpuStatus>,
    entitlement: Seq<u32>,
    id: u32,
    dag: u32,
) -> bool {
    ||| exists|c: int|
        0 <= c < cpus.len() && (#[trigger] cpus[c]).running == id && id != 0
    ||| exists|c: int|
        1 <= c < cpus.len() && c < entitlement.len() && (#[trigger] cpus[c]).running == 0
            && entitlement[c] == dag && dag != NO_DAG
}

/// Whether on every CPU that a node of `dag` can take over a task has to give way that `task`
/// does not outrank.
pub open spec fn all_open_withstand(
    tasks: Seq<Task>,
    cpus: Seq<CpuStatus>,
    entitlement: Seq<u32>,
    dag: u32,
    task: Task,
) -> bool {
    forall|c: usize| #[trigger] open_to(tasks, cpus, entitlement, dag, c) ==> withstands(
        tasks,
        cpus,
        c,
        task,
    )
}

/// A woken node of a fluid DAG takes over only a CPU that is entitled to its DAG, and the one
/// whose task is of the lowest rank, if it outranks that task. Where it is not served anyway,
/// it takes one over whenever it outranks the task that has to give way on an entitled CPU.
pub proof fn lemma_urgent_node_takes_an_entitled_cpu(
    tasks: Seq<Task>,
    cpus: Seq<CpuStatus>,
    entitlement: Seq<u32>,
    slot: usize,
    dag: u32,
)
    requires
        tasks.len() <= usize::MAX,
        cpus.len() <= usize::MAX,
        slot < tasks.len(),
        waiting_exist(tasks, cpus),
    ensures
        served_anyway(cpus, entitlement, tasks[slot as int].id, dag) ==> entitled_preemption(
            tasks,
            cpus,
            entitlement,
            slot,
            dag,
        ) is None,
        entitled_preemption(tasks, cpus, entitlement, slot, dag) matches Some(decision) ==> {
            &&& open_to(tasks, cpus, entitlement, dag, decision.cpu)
            &&& exists|s: usize|
                #[trigger] displaces(tasks, cpus, decision, s, tasks[slot as int])
                    && all_open_withstand(tasks, cpus, entitlement, dag, tasks[s as int])
        },
        entitled_preemption(tasks, cpus, entitlement, slot, dag) is None && !served_anyway(
            cpus,
            entitlement,
            tasks[slot as int].id,
            dag,
        ) ==> all_open_withstand(tasks, cpus, entitlement, dag, tasks[slot as int]),
{
    let task = tasks[slot as int];
    let n = cpus.len() as int;
    lemma_lowest_below(tasks, cpus, entitlement, dag, n);
    assert forall|c: usize| #[trigger] open_to(tasks, cpus, entitlement, dag, c) implies
        may_take_over(tasks, cpus, entitlement, dag, c) && gives_way(
        tasks,
        cpus,
        c,
        running_target(tasks, cpus, c)->0,
    ) by {
        lemma_slot_holds_the_task(tasks, cpus[c as int].running, 0);
    }
    if let Some((cpu, s)) = lowest_below(tasks, cpus, entitlement, dag, n) {
        assert(open_to(tasks, cpus, entitlement, dag, cpu));
        assert(gives_way(tasks, cpus, cpu, s));
        assert forall|c: usize|
            #[trigger] open_to(tasks, cpus, entitlement, dag, c) implies withstands(
            tasks,
            cpus,
            c,
            tasks[s as int],
        ) && (!outranks(task, tasks[s as int]) ==> withstands(tasks, cpus, c, task)) by {
            let t = running_target(tasks, cpus, c)->0;
            assert(gives_way(tasks, cpus, c, t));
            assert(may_take_over(tasks, cpus, entitlement, dag, c));
            assert(!tasks[t as int].below(tasks[s as int]));
        }
        if tasks[s as int].below(task) {
            let decision = Preemption { cpu, target: tasks[s as int].id };
            assert(displaces(tasks, cpus, decision, s, task));
            assert(all_open_withstand(tasks, cpus, entitlement, dag, tasks[s as int]));
        }
    }
    if exists|c: int|
        1 <= c < cpus.len() && (#[trigger] cpus[c]).running == 0 && super::dp_wrap::entitled_dag(
            entitlement,
            c as usize,
        ) == Some(dag) {
        let c = choose|c: int|
            1 <= c < cpus.len() && (#[trigger] cpus[c]).running == 0
                && super::dp_wrap::entitled_dag(entitlement, c as usize) == Some(dag);
        assert(cpus[c].running == 0 && entitlement[c] == dag);
    }
}

/// An active VP has exactly its budget per job: a core that is given a budget and then runs
/// without a gap from `start` on has budget left at a later tick exactly as long as it has run
/// for less than the budget, and never more than the budget less that time.
pub proof fn lemma_budget_is_used_up_by_running(
    table: Seq<ActiveVpCore>,
    cpu: usize,
    budget: u64,
    start: u64,
    now: u64,
)
    requires
        cpu < table.len(),
        0 < budget,
        !table[cpu as int].was_running,
        start <= now,
    ensures
        ({
            let given = with_core(table, cpu, armed(table[cpu as int], budget));
            let running = with_core(given, cpu, ticked(given[cpu as int], start));
            let later = with_core(running, cpu, ticked(running[cpu as int], now));
            &&& budget_left(given, cpu)
            &&& budget_left(running, cpu)
            &&& budget_left(later, cpu) <==> now - start < budget
            &&& now - start <= budget ==> later[cpu as int].remaining == budget - (now - start)
            &&& now - start > budget ==> later[cpu as int].remaining == 0
            &&& forall|c: int|
                0 <= c < table.len() && c != cpu ==> (#[trigger] later[c]) == table[c]
        }),
{
}

/// Every job of a group gets the whole budget: a wake that releases a job refills the cores of
/// the group's set to their initial budget, any other wake leaves what is left; both record
/// the leading core, and no core outside the set changes.
pub proof fn lemma_job_release_refills_the_group(
    table: Seq<ActiveVpCore>,
    set: Set<usize>,
    leading: usize,
    releases_job: bool,
)
    requires
        table.len() <= NUM_MAX_CPU,
    ensures
        ({
            let after = budgets_woken(table, set, leading, releases_job);
            &&& after.len() == table.len()
            &&& forall|c: int|
                0 <= c < table.len() && set.contains(c as usize) ==> {
                    &&& (#[trigger] after[c]).leading == leading
                    &&& after[c].initial_budget == table[c].initial_budget
                    &&& after[c].remaining == if releases_job {
                        table[c].initial_budget
                    } else {
                        table[c].remaining
                    }
                    &&& after[c].last_tick == table[c].last_tick
                    &&& after[c].was_running == table[c].was_running
                }
            &&& forall|c: int|
                0 <= c < table.len() && !set.contains(c as usize) ==> (#[trigger] after[c])
                    == table[c]
        }),
{
    lemma_members_below(set, NUM_MAX_CPU as int);
    assert forall|c: int| 0 <= c < table.len() implies #[trigger] members(set).contains(c as usize)
        == set.contains(c as usize) by {}
}

/// A core takes active-VP work exactly if it has budget left, or no budget is set for it, and
/// it is in no group, leads its group, or the leading core of its group is busy.
pub proof fn lemma_active_work_needs_budget_and_leader(
    table: Seq<ActiveVpCore>,
    cpus: Seq<CpuStatus>,
    cpu: usize,
)
    requires
        cpu < table.len(),
    ensures
        ({
            let core = table[cpu as int];
            let leader_busy = core.leading < cpus.len() && cpus[core.leading as int].running != 0;
            eligible(table, cpus, cpu) <==> (core.initial_budget == 0 || core.remaining > 0) && (
            core.leading == NO_GROUP || core.leading == cpu || leader_busy)
        }),
{
}

/// The active VP of a core is executing exactly if the core runs a known task that is of an
/// active-VP group, or that is mixed and owns the core.
pub proof fn lemma_owner_executes(tasks: Seq<Task>, cpus: Seq<CpuStatus>, cpu: usize)
    requires
        tasks.len() <= usize::MAX,
        cpu < cpus.len(),
    ensures
        cpus[cpu as int].running == 0 ==> !owner_busy(tasks, cpus, cpu),
        owner_busy(tasks, cpus, cpu) ==> exists|s: int|
            {
                &&& 0 <= s < tasks.len()
                &&& (#[trigger] tasks[s]).id == cpus[cpu as int].running
                &&& owns(tasks[s], cpu)
            },
        cpus[cpu as int].running != 0 && !owner_busy(tasks, cpus, cpu) ==> {
            ||| forall|s: int|
                0 <= s < tasks.len() ==> (#[trigger] tasks[s]).id != cpus[cpu as int].running
            ||| exists|s: int|
                {
                    &&& 0 <= s < tasks.len()
                    &&& (#[trigger] tasks[s]).id == cpus[cpu as int].running
                    &&& !owns(tasks[s], cpu)
                }
        },
{
    let running = cpus[cpu as int].running;
    lemma_slot_holds_the_task(tasks, running, 0);
    if let Some(s) = slot_of(tasks, running) {
        assert(tasks[s as int].id == running);
    }
}

/// Whether a task that runs on `cpu` does so on a core of its own.
pub open spec fn owns(task: Task, cpu: usize) -> bool {
    match task.scheduler_type {
        SchedulerType::ActiveVp(_, _) => true,
        SchedulerType::MixedVp(own, _, _) => cpu_set_view(own).contains(cpu),
        _ => false,
    }
}

/// Whether a mixed task can run on `cpu` now: it is alive and, on a core of its own, the core
/// takes active-VP work; on a borrowed core, the core's active VP is not executing.
pub open spec fn runs_here(
    task: Task,
    tasks: Seq<Task>,
    cpus: Seq<CpuStatus>,
    budgets: Seq<ActiveVpCore>,
    cpu: usize,
) -> bool {
    &&& alive(task)
    &&& own_cores(task).contains(cpu) ==> eligible(budgets, cpus, cpu)
    &&& !own_cores(task).contains(cpu) ==> !owner_busy(tasks, cpus, cpu)
}

/// The mixed task that is picked for a CPU may run on it and can do so now, and no other queued
/// task that may and can has an earlier key. None is picked exactly if there is no such task.
pub proof fn lemma_picked_mixed_task_is_most_urgent(
    entries: Seq<QueueEntry>,
    deferred: Seq<QueueEntry>,
    tasks: Seq<Task>,
    cpus: Seq<CpuStatus>,
    budgets: Seq<ActiveVpCore>,
    cpu: usize,
)
    requires
        keys_ascend(entries),
    ensures
        match mixed_search(entries, deferred, tasks, cpus, budgets, cpu).picked {
            Some(e) => {
                &&& entries.contains(e)
                &&& e.1.contains(cpu)
                &&& runs_here(tasks[e.2 as int], tasks, cpus, budgets, cpu)
                &&& forall|k: int|
                    0 <= k < entries.len() && (#[trigger] entries[k]).1.contains(cpu) && runs_here(
                        tasks[entries[k].2 as int],
                        tasks,
                        cpus,
                        budgets,
                        cpu,
                    ) ==> !earlier(entries[k].0, e.0)
            },
            None => forall|k: int|
                0 <= k < entries.len() && (#[trigger] entries[k]).1.contains(cpu) ==> !runs_here(
                    tasks[entries[k].2 as int],
                    tasks,
                    cpus,
                    budgets,
                    cpu,
                ),
        },
    decreases entries.len(),
{
    let at = first_for_cpu(entries, cpu, 0);
    lemma_first_for_cpu(entries, cpu, 0);
    if at < entries.len() {
        let entry = entries[at];
        let task = tasks[entry.2 as int];
        let rest = entries.remove(at);
        lemma_without_entry(entries, at);
        if runs_here(task, tasks, cpus, budgets, cpu) {
            assert(entries.contains(entry));
            assert forall|k: int|
                0 <= k < entries.len() && (#[trigger] entries[k]).1.contains(cpu) implies !earlier(
                entries[k].0,
                entry.0,
            ) by {
                if k > at {
                    assert(crate::queue::key_no_later(entries[at].0, entries[k].0));
                }
            }
        } else {
            let aside = if alive(task) || !(own_cores(task).contains(cpu) ==> eligible(
                budgets,
                cpus,
                cpu,
            )) || !(!own_cores(task).contains(cpu) ==> !owner_busy(tasks, cpus, cpu)) {
                deferred.push(entry)
            } else {
                deferred
            };
            lemma_picked_mixed_task_is_most_urgent(rest, aside, tasks, cpus, budgets, cpu);
            if let Some(e) = mixed_search(rest, aside, tasks, cpus, budgets, cpu).picked {
                let i = choose|i: int| 0 <= i < rest.len() && rest[i] == e;
                let place = if i < at {
                    i
                } else {
                    i + 1
                };
                assert(entries[place] == e);
            }
            assert forall|k: int| 0 <= k < entries.len() && k != at implies #[trigger] entries[k]
                == rest[if k < at {
                k
            } else {
                k - 1
            }] by {}
        }
    }
}

/// The task in `slot` goes first on `cpu`: it is queued for the CPU and alive, and no other
/// that is has an earlier key.
pub open spec fn first_on(
    entries: Seq<QueueEntry>,
    tasks: Seq<Task>,
    cpu: usize,
    slot: usize,
) -> bool {
    exists|i: int|
        {
            &&& 0 <= i < entries.len()
            &&& (#[trigger] entries[i]).2 == slot
            &&& entries[i].1.contains(cpu)
            &&& alive(tasks[slot as int])
            &&& forall|k: int|
                0 <= k < entries.len() && (#[trigger] entries[k]).1.contains(cpu) && alive(
                    tasks[entries[k].2 as int],
                ) ==> !earlier(entries[k].0, entries[i].0)
        }
}

/// No task that is queued for `cpu` is alive.
pub open spec fn none_on(entries: Seq<QueueEntry>, tasks: Seq<Task>, cpu: usize) -> bool {
    forall|k: int|
        0 <= k < entries.len() && (#[trigger] entries[k]).1.contains(cpu) ==> !alive(
            tasks[entries[k].2 as int],
        )
}

/// A core with no budget left, or whose group's leading core is idle, picks no active-VP task
/// and leaves the queue as it is. Any other core picks the most urgent task that is queued for
/// it, if there is one.
pub proof fn lemma_active_core_serves_within_its_budget(
    entries: Seq<QueueEntry>,
    tasks: Seq<Task>,
    cpus: Seq<CpuStatus>,
    budgets: Seq<ActiveVpCore>,
    cpu: usize,
)
    requires
        keys_ascend(entries),
        cpu < budgets.len(),
    ensures
        ({
            let core = budgets[cpu as int];
            let used_up = core.initial_budget > 0 && core.remaining == 0;
            let waits = core.leading != NO_GROUP && core.leading != cpu && (core.leading
                >= cpus.len() || cpus[core.leading as int].running == 0);
            let (next, left) = active_next(entries, tasks, cpus, budgets, cpu);
            if used_up || waits {
                next is None && left == entries
            } else {
                match next {
                    Some(slot) => first_on(entries, tasks, cpu, slot),
                    None => none_on(entries, tasks, cpu),
                }
            }
        }),
{
    lemma_active_work_needs_budget_and_leader(budgets, cpus, cpu);
    lemma_picked_task_is_most_urgent(entries, tasks, cpu);
}

/// A core whose active VP executes picks no passive-VP task and leaves the queue as it is. An
/// idle core, or one that runs another task, picks the most urgent task that is queued for
/// it, if there is one.
pub proof fn lemma_passive_work_yields_to_the_owner(
    entries: Seq<QueueEntry>,
    tasks: Seq<Task>,
    cpus: Seq<CpuStatus>,
    cpu: usize,
    running: int,
)
    requires
        keys_ascend(entries),
        tasks.len() <= usize::MAX,
        cpu < cpus.len(),
        cpus[cpu as int].running != 0 ==> 0 <= running < tasks.len() && tasks[running].id
            == cpus[cpu as int].running,
        forall|a: int, b: int|
            0 <= a < b < tasks.len() ==> (#[trigger] tasks[a]).id != (#[trigger] tasks[b]).id,
    ensures
        ({
            let (next, left) = passive_next(entries, tasks, cpus, cpu);
            if cpus[cpu as int].running != 0 && owns(tasks[running], cpu) {
                next is None && left == entries
            } else {
                match next {
                    Some(slot) => first_on(entries, tasks, cpu, slot),
                    None => none_on(entries, tasks, cpu),
                }
            }
        }),
{
    lemma_owner_executes(tasks, cpus, cpu);
    lemma_picked_task_is_most_urgent(entries, tasks, cpu);
    if cpus[cpu as int].running != 0 {
        assert forall|s: int|
            0 <= s < tasks.len() && (#[trigger] tasks[s]).id == cpus[cpu as int].running implies s
            == running by {
            if s < running {
                assert(tasks[s].id != tasks[running].id);
            }
            if running < s {
                assert(tasks[running].id != tasks[s].id);
            }
        }
    }
}

} // verus!
