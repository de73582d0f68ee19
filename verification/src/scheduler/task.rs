//! The tasks and CPUs as the schedulers see them.

use vstd::prelude::*;

use super::scheduler_type::SchedulerType;

verus! {

/// The greatest priority of a task within its scheduler class.
pub const MAX_TASK_PRIORITY: u64 = 72_057_594_037_927_935;

/// What a task is doing.
#[derive(Debug, Clone, Copy, PartialEq, Eq, Structural)]
pub enum State {
    Ready,
    Running,
    Waiting,
    Preempted,
    Terminated,
    Panicked,
}

/// One task.
#[derive(Debug, Clone, Copy, PartialEq, Eq)]
pub struct Task {
    /// Never zero.
    pub id: u32,
    pub scheduler_type: SchedulerType,
    pub state: State,
    pub need_preemption: bool,
    /// The DAG that the task is a node of.
    pub dag_id: Option<u32>,
    /// The tier of the task's scheduler class; a higher tier always outranks a lower
    /// one.
    pub class_priority: u8,
    /// The priority within the tier.
    pub task_priority: u64,
    pub absolute_deadline: Option<u64>,
}

impl Task {
    /// Whether its priority is lower than that of the other.
    pub open spec fn below(self, other: Task) -> bool {
        self.class_priority < other.class_priority || (self.class_priority
            == other.class_priority && self.task_priority < other.task_priority)
    }

    pub fn is_below(&self, other: &Task) -> (r: bool)
        ensures
            r == self.below(*other),
    {
        self.class_priority < other.class_priority || (self.class_priority
            == other.class_priority && self.task_priority < other.task_priority)
    }

    /// Whether the task will never run again.
    pub open spec fn dead(self) -> bool {
        self.state == State::Terminated || self.state == State::Panicked
    }

    pub fn is_dead(&self) -> (r: bool)
        ensures
            r == self.dead(),
    {
        match self.state {
            State::Terminated => true,
            State::Panicked => true,
            _ => false,
        }
    }
}

/// A task of a higher class tier is never below one of a lower tier.
pub proof fn lemma_tiers_dominate(a: Task, b: Task)
    requires
        a.class_priority > b.class_priority,
    ensures
        b.below(a),
        !a.below(b),
{
}

/// What one CPU is doing.
#[derive(Debug, Clone, Copy, PartialEq, Eq)]
pub struct CpuStatus {
    /// The identifier of the running task; zero if the CPU is idle.
    pub running: u32,
    /// The slot of the highest-priority task that waits to take this CPU over.
    pub pending: Option<usize>,
    /// Whether the CPU is reserved for clustered tasks.
    pub reserved: bool,
}

/// Every task, by slot, and every CPU.
pub struct TaskTable {
    pub tasks: Vec<Task>,
    pub cpus: Vec<CpuStatus>,
}

/// The slot of the first task, from `i` on, with the identifier `id`.
pub open spec fn slot_from(tasks: Seq<Task>, id: u32, i: int) -> Option<usize>
    decreases tasks.len() - i,
{
    if i >= tasks.len() {
        None
    } else if tasks[i].id == id {
        Some(i as usize)
    } else {
        slot_from(tasks, id, i + 1)
    }
}

/// The slot of the task with the identifier `id`.
pub open spec fn slot_of(tasks: Seq<Task>, id: u32) -> Option<usize> {
    slot_from(tasks, id, 0)
}

/// The task that runs on `cpu`; zero if the CPU is idle or there is none such.
pub open spec fn running_on(cpus: Seq<CpuStatus>, cpu: usize) -> u32 {
    if cpu < cpus.len() {
        cpus[cpu as int].running
    } else {
        0
    }
}

/// The task that waits to take `cpu` over.
pub open spec fn pending_on(cpus: Seq<CpuStatus>, cpu: usize) -> Option<usize> {
    if cpu < cpus.len() {
        cpus[cpu as int].pending
    } else {
        None
    }
}

impl TaskTable {
    /// Every task that waits for a CPU exists.
    pub open spec fn wf(&self) -> bool {
        forall|c: int|
            0 <= c < self.cpus@.len() ==> ((#[trigger] self.cpus@[c]).pending matches Some(slot)
                ==> slot < self.tasks@.len())
    }

    /// The slot of the task with the identifier `id`.
    pub fn find(&self, id: u32) -> (slot: Option<usize>)
        ensures
            slot == slot_of(self.tasks@, id),
            slot matches Some(s) ==> s < self.tasks@.len() && self.tasks@[s as int].id == id,
    {
        let mut i: usize = 0;
        while i < self.tasks.len()
            invariant
                i <= self.tasks@.len(),
                slot_of(self.tasks@, id) == slot_from(self.tasks@, id, i as int),
            decreases self.tasks@.len() - i,
        {
            if self.tasks[i].id == id {
                return Some(i);
            }
            i = i + 1;
        }
        None
    }

    pub fn running(&self, cpu: usize) -> (id: u32)
        ensures
            id == running_on(self.cpus@, cpu),
    {
        if cpu < self.cpus.len() {
            self.cpus[cpu].running
        } else {
            0
        }
    }

    pub fn pending(&self, cpu: usize) -> (slot: Option<usize>)
        ensures
            slot == pending_on(self.cpus@, cpu),
    {
        if cpu < self.cpus.len() {
            self.cpus[cpu].pending
        } else {
            None
        }
    }
}

/// When a woken task was woken, and what its DAG says of it.
#[derive(Debug, Clone, Copy, PartialEq, Eq)]
pub struct Wake {
    /// The current time in nanoseconds.
    pub time: u64,
    /// For a node of a DAG: the absolute deadline of its job, its priority among the
    /// DAG's nodes, and whether this wake releases a new job.
    pub dag: Option<DagWake>,
}

#[derive(Debug, Clone, Copy, PartialEq, Eq)]
pub struct DagWake {
    pub absolute_deadline: u64,
    pub node_priority: u64,
    pub job_release: bool,
}

impl Wake {
    /// The absolute deadline: that of the DAG's job, else the time of the wake.
    pub open spec fn deadline(self) -> u64 {
        match self.dag {
            Some(dag) => dag.absolute_deadline,
            None => self.time,
        }
    }

    /// The priority among the DAG's nodes.
    pub open spec fn node_priority(self) -> u64 {
        match self.dag {
            Some(dag) => dag.node_priority,
            None => 0,
        }
    }

    /// Whether this wake releases a new job.
    pub open spec fn releases_job(self) -> bool {
        self.dag matches Some(dag) && dag.job_release
    }

    /// The key under which the task is queued.
    pub open spec fn key(self) -> (u64, u64, u64) {
        (self.deadline(), (u64::MAX - self.node_priority()) as u64, self.time)
    }

    pub fn absolute_deadline(&self) -> (deadline: u64)
        ensures
            deadline == self.deadline(),
    {
        match self.dag {
            Some(dag) => dag.absolute_deadline,
            None => self.time,
        }
    }

    pub fn is_job_release(&self) -> (r: bool)
        ensures
            r == self.releases_job(),
    {
        match self.dag {
            Some(dag) => dag.job_release,
            None => false,
        }
    }

    pub fn queue_key(&self) -> (key: (u64, u64, u64))
        ensures
            key == self.key(),
    {
        match self.dag {
            Some(dag) => (dag.absolute_deadline, u64::MAX - dag.node_priority, self.time),
            None => (self.time, u64::MAX, self.time),
        }
    }
}

/// A woken task: its tier, and a priority that is the higher the earlier its deadline.
pub open spec fn woken(task: Task, class_priority: u8, deadline: u64) -> Task {
    Task {
        class_priority,
        task_priority: (MAX_TASK_PRIORITY - deadline) as u64,
        absolute_deadline: Some(deadline),
        ..task
    }
}

impl TaskTable {
    /// Records a wake on the task in `slot`.
    pub fn set_woken(&mut self, slot: usize, class_priority: u8, deadline: u64)
        requires
            slot < old(self).tasks@.len(),
            deadline <= MAX_TASK_PRIORITY,
        ensures
            final(self).tasks@ == old(self).tasks@.update(
                slot as int,
                woken(old(self).tasks@[slot as int], class_priority, deadline),
            ),
            final(self).cpus@ == old(self).cpus@,
    {
        let task = self.tasks[slot];
        self.tasks.set(
            slot,
            Task {
                class_priority,
                task_priority: MAX_TASK_PRIORITY - deadline,
                absolute_deadline: Some(deadline),
                ..task
            },
        );
    }
}

/// A task that has been picked to run: a preempted task need not be preempted any more,
/// and one that is sure to run is running.
pub open spec fn picked(task: Task, execution_ensured: bool) -> Task {
    Task {
        need_preemption: if task.state == State::Preempted {
            false
        } else {
            task.need_preemption
        },
        state: if execution_ensured {
            State::Running
        } else {
            task.state
        },
        ..task
    }
}

/// The CPUs once `cpu` runs the task `id`, if that is sure.
pub open spec fn cpus_running(
    cpus: Seq<CpuStatus>,
    cpu: usize,
    id: u32,
    execution_ensured: bool,
) -> Seq<CpuStatus> {
    if execution_ensured && cpu < cpus.len() {
        cpus.update(cpu as int, CpuStatus { running: id, ..cpus[cpu as int] })
    } else {
        cpus
    }
}

impl TaskTable {
    /// Records that `cpu` picked the task in `slot`.
    pub fn set_picked(&mut self, slot: usize, cpu: usize, execution_ensured: bool)
        requires
            slot < old(self).tasks@.len(),
        ensures
            final(self).tasks@ == old(self).tasks@.update(
                slot as int,
                picked(old(self).tasks@[slot as int], execution_ensured),
            ),
            final(self).cpus@ == cpus_running(
                old(self).cpus@,
                cpu,
                old(self).tasks@[slot as int].id,
                execution_ensured,
            ),
            old(self).wf() ==> final(self).wf(),
    {
        let mut task = self.tasks[slot];
        match task.state {
            State::Preempted => {
                task.need_preemption = false;
            },
            _ => {},
        }
        if execution_ensured {
            task.state = State::Running;
            if cpu < self.cpus.len() {
                let status = self.cpus[cpu];
                self.cpus.set(cpu, CpuStatus { running: task.id, ..status });
            }
        }
        self.tasks.set(slot, task);
    }
}

/// A decision to take a CPU away from the task that runs on it, or that waits for it.
#[derive(Debug, Clone, Copy, PartialEq, Eq, Structural)]
pub struct Preemption {
    pub cpu: usize,
    /// The identifier of the task that has to give way.
    pub target: u32,
}

/// The task that would have to give way on `cpu`: the higher of the running and the
/// waiting one, the waiting one if they are equal.
pub open spec fn target_on(tasks: Seq<Task>, cpus: Seq<CpuStatus>, cpu: usize) -> Option<usize> {
    match (slot_of(tasks, running_on(cpus, cpu)), pending_on(cpus, cpu)) {
        (Some(running), Some(pending)) => Some(
            if tasks[pending as int].below(tasks[running as int]) {
                running
            } else {
                pending
            },
        ),
        (Some(running), None) => Some(running),
        (None, Some(pending)) => Some(pending),
        (None, None) => None,
    }
}

/// Whether the search for a CPU to preempt stops at `cpu`: the task runs there already,
/// or the CPU is idle and will pick the task up itself, or nothing is known of what runs
/// there.
pub open spec fn stops_search(
    tasks: Seq<Task>,
    cpus: Seq<CpuStatus>,
    id: u32,
    cpu: usize,
) -> bool {
    running_on(cpus, cpu) == id || running_on(cpus, cpu) == 0 || target_on(tasks, cpus, cpu) is None
}

/// Among the first `n` CPUs of a list, the first one whose target has the lowest
/// priority, with that target.
pub open spec fn victim_below(
    tasks: Seq<Task>,
    cpus: Seq<CpuStatus>,
    list: Seq<usize>,
    n: int,
) -> Option<(usize, usize)>
    decreases n,
{
    if n <= 0 {
        None
    } else {
        let best = victim_below(tasks, cpus, list, n - 1);
        let target = target_on(tasks, cpus, list[n - 1])->0;
        match best {
            Some((_, lowest)) if !tasks[target as int].below(tasks[lowest as int]) => best,
            _ => Some((list[n - 1], target)),
        }
    }
}

/// The decision on a woken task: none if the search stops at any of its CPUs; else the
/// CPU whose target has the lowest priority, if the woken task outranks that target.
pub open spec fn preemption(
    tasks: Seq<Task>,
    cpus: Seq<CpuStatus>,
    slot: usize,
    list: Seq<usize>,
) -> Option<Preemption> {
    let task = tasks[slot as int];
    if exists|k: int| 0 <= k < list.len() && stops_search(tasks, cpus, task.id, #[trigger] list[k]) {
        None
    } else {
        match victim_below(tasks, cpus, list, list.len() as int) {
            Some((cpu, target)) if tasks[target as int].below(task) => Some(
                Preemption { cpu, target: tasks[target as int].id },
            ),
            _ => None,
        }
    }
}

/// Decides whether a woken task takes a CPU of its list over at once, and which.
pub fn invoke_preemption(table: &TaskTable, slot: usize, list: &Vec<usize>) -> (decision: Option<
    Preemption,
>)
    requires
        table.wf(),
        slot < table.tasks@.len(),
    ensures
        decision == preemption(table.tasks@, table.cpus@, slot, list@),
{
    let task = table.tasks[slot];
    let mut victim: Option<(usize, usize)> = None;
    let mut k: usize = 0;
    while k < list.len()
        invariant
            k <= list@.len(),
            table.wf(),
            slot < table.tasks@.len(),
            task == table.tasks@[slot as int],
            forall|i: int|
                0 <= i < k ==> !stops_search(
                    table.tasks@,
                    table.cpus@,
                    task.id,
                    #[trigger] list@[i],
                ),
            victim == victim_below(table.tasks@, table.cpus@, list@, k as int),
            victim matches Some(v) ==> v.1 < table.tasks@.len(),
        decreases list@.len() - k,
    {
        let cpu: usize = list[k];
        let running: u32 = table.running(cpu);
        if running == task.id || running == 0 {
            assert(stops_search(table.tasks@, table.cpus@, task.id, list@[k as int]));
            return None;
        }
        let target: usize = match (table.find(running), table.pending(cpu)) {
            (Some(r), Some(p)) => {
                if table.tasks[p].is_below(&table.tasks[r]) {
                    r
                } else {
                    p
                }
            },
            (Some(r), None) => r,
            (None, Some(p)) => p,
            (None, None) => {
                assert(stops_search(table.tasks@, table.cpus@, task.id, list@[k as int]));
                return None;
            },
        };
        victim =
        match victim {
            Some((c, lowest)) => {
                if table.tasks[target].is_below(&table.tasks[lowest]) {
                    Some((cpu, target))
                } else {
                    Some((c, lowest))
                }
            },
            None => Some((cpu, target)),
        };
        k = k + 1;
    }
    match victim {
        None => None,
        Some((cpu, target)) => {
            if table.tasks[target].is_below(&task) {
                Some(Preemption { cpu, target: table.tasks[target].id })
            } else {
                None
            }
        },
    }
}

pub proof fn lemma_victim_below(tasks: Seq<Task>, cpus: Seq<CpuStatus>, list: Seq<usize>, n: int)
    requires
        0 <= n <= list.len(),
        forall|i: int| 0 <= i < list.len() ==> target_on(tasks, cpus, #[trigger] list[i]) is Some,
    ensures
        match victim_below(tasks, cpus, list, n) {
            None => n == 0,
            Some((cpu, target)) => {
                &&& exists|k: int| 0 <= k < n && (#[trigger] list[k]) == cpu
                &&& target_on(tasks, cpus, cpu) == Some(target)
                &&& forall|k: int|
                    0 <= k < n ==> !tasks[target_on(tasks, cpus, #[trigger] list[k])->0 as int].below(
                        tasks[target as int],
                    )
            },
        },
    decreases n,
{
    if n > 0 {
        lemma_victim_below(tasks, cpus, list, n - 1);
        assert(target_on(tasks, cpus, list[n - 1]) is Some);
    }
}

/// What a preemption guarantees: the CPU is one of the task's, the task that gives way
/// has a strictly lower priority than the woken one, and no other CPU of the list has a
/// target of even lower priority. So a task of a higher tier never gives way to one of a
/// lower tier.
pub proof fn lemma_preemption_displaces_the_lowest(
    tasks: Seq<Task>,
    cpus: Seq<CpuStatus>,
    slot: usize,
    list: Seq<usize>,
)
    requires
        preemption(tasks, cpus, slot, list) is Some,
    ensures
        ({
            let decision = preemption(tasks, cpus, slot, list)->0;
            let target = target_on(tasks, cpus, decision.cpu);
            &&& list.contains(decision.cpu)
            &&& target is Some
            &&& tasks[target->0 as int].id == decision.target
            &&& tasks[target->0 as int].below(tasks[slot as int])
            &&& tasks[target->0 as int].class_priority <= tasks[slot as int].class_priority
            &&& forall|k: int|
                0 <= k < list.len() ==> !tasks[target_on(
                    tasks,
                    cpus,
                    #[trigger] list[k],
                )->0 as int].below(tasks[target->0 as int])
        }),
{
    assert forall|i: int| 0 <= i < list.len() implies target_on(
        tasks,
        cpus,
        #[trigger] list[i],
    ) is Some by {
        assert(!stops_search(tasks, cpus, tasks[slot as int].id, list[i]));
    }
    lemma_victim_below(tasks, cpus, list, list.len() as int);
}

} // verus!
