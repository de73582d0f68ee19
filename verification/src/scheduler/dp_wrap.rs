//! DAG-Fluid's dispatch within one deadline partition: each CPU is entitled to one DAG at
//! a time, and runs that DAG's ready nodes.

use vstd::prelude::*;

use super::dispatch::picks;
use super::scheduler_type::SchedulerType;
use super::task::{
    pending_on, running_on, slot_of, woken, CpuStatus, Preemption, Task, TaskTable, Wake,
    MAX_TASK_PRIORITY,
};
use super::wrap::{lemma_pieces_do_not_overlap, pieces_on, wrap_blocks};
use crate::cpu::{cpu_list, cpu_set_view, members, CpuSet, NUM_MAX_CPU};

verus! {

/// The entitlement of a CPU that no DAG may use.
pub const NO_DAG: u32 = u32::MAX;

/// How many parts make up one processor in a rate.
pub const RATE_UNIT: u64 = 4_503_599_627_370_496;

/// A ready node.
#[derive(Debug, Clone, Copy, PartialEq, Eq, Structural)]
pub struct ReadyTask {
    pub dag_id: u32,
    /// The task's slot in the task table.
    pub slot: usize,
    pub absolute_deadline: u64,
    pub node_priority: u64,
    pub wake_time: u64,
}

impl ReadyTask {
    /// Whether this node runs before the other: an earlier deadline, then a higher node
    /// priority, then an earlier wake.
    pub open spec fn before(self, other: ReadyTask) -> bool {
        self.absolute_deadline < other.absolute_deadline || (self.absolute_deadline
            == other.absolute_deadline && (self.node_priority > other.node_priority || (
        self.node_priority == other.node_priority && self.wake_time < other.wake_time)))
    }

    fn is_before(&self, other: &ReadyTask) -> (r: bool)
        ensures
            r == self.before(*other),
    {
        self.absolute_deadline < other.absolute_deadline || (self.absolute_deadline
            == other.absolute_deadline && (self.node_priority > other.node_priority || (
        self.node_priority == other.node_priority && self.wake_time < other.wake_time)))
    }
}

/// A planned change of a CPU's entitlement within the current deadline partition.
#[derive(Debug, Clone, Copy, PartialEq, Eq, Structural)]
pub struct SwitchPoint {
    /// When, in nanoseconds.
    pub at: u64,
    pub dag_id: u32,
}

/// What a CPU has to be told after its entitlement changed.
#[derive(Debug, Clone, Copy, PartialEq, Eq, Structural)]
pub enum EntitlementAction {
    /// Nothing.
    Nothing,
    /// To look for a task: it is idle.
    WakeCpu,
    /// To run the task in slot `successor` in place of the task `target`.
    Preempt { successor: usize, target: u32 },
}

/// The entitlements, the planned changes of each CPU, and the ready nodes of every DAG.
pub struct DpWrapScheduler {
    /// Per CPU: the DAG it is entitled to, or [`NO_DAG`].
    pub entitlement: Vec<u32>,
    /// Per CPU: the changes still ahead in this deadline partition, soonest first.
    pub switch_plan: Vec<Vec<SwitchPoint>>,
    pub ready: Vec<ReadyTask>,
    /// The tier of this class.
    pub priority: u8,
}

/// The mathematical value of a [`DpWrapScheduler`].
#[verifier::ext_equal]
pub struct DpWrapView {
    pub entitlement: Seq<u32>,
    pub switch_plan: Seq<Seq<SwitchPoint>>,
    pub ready: Seq<ReadyTask>,
    pub priority: u8,
}

impl View for DpWrapScheduler {
    type V = DpWrapView;

    open spec fn view(&self) -> DpWrapView {
        DpWrapView {
            entitlement: self.entitlement@,
            switch_plan: Seq::new(self.switch_plan@.len(), |c: int| self.switch_plan@[c]@),
            ready: self.ready@,
            priority: self.priority,
        }
    }
}

impl DpWrapView {
    /// Every CPU has an entitlement and a plan, and every ready task exists.
    pub open spec fn wf(self, tasks: nat) -> bool {
        &&& self.entitlement.len() == NUM_MAX_CPU
        &&& self.switch_plan.len() == NUM_MAX_CPU
        &&& forall|i: int| 0 <= i < self.ready.len() ==> (#[trigger] self.ready[i]).slot < tasks
    }
}

/// The DAG that `cpu` is entitled to.
pub open spec fn entitled_dag(entitlement: Seq<u32>, cpu: usize) -> Option<u32> {
    if cpu < entitlement.len() && entitlement[cpu as int] != NO_DAG {
        Some(entitlement[cpu as int])
    } else {
        None
    }
}

/// The place, among the first `n` ready nodes, of the one of `dag` that runs first.
pub open spec fn best_below(ready: Seq<ReadyTask>, dag: u32, n: int) -> Option<usize>
    decreases n,
{
    if n <= 0 {
        None
    } else {
        let best = best_below(ready, dag, n - 1);
        let candidate = ready[n - 1];
        if candidate.dag_id != dag {
            best
        } else {
            match best {
                Some(b) if !candidate.before(ready[b as int]) => best,
                _ => Some((n - 1) as usize),
            }
        }
    }
}

/// The place of the ready node of `dag` that runs first.
pub open spec fn best_ready(ready: Seq<ReadyTask>, dag: u32) -> Option<usize> {
    best_below(ready, dag, ready.len() as int)
}

proof fn lemma_best_below(ready: Seq<ReadyTask>, dag: u32, n: int)
    requires
        0 <= n <= ready.len() <= usize::MAX,
    ensures
        match best_below(ready, dag, n) {
            None => forall|i: int| 0 <= i < n ==> (#[trigger] ready[i]).dag_id != dag,
            Some(b) => {
                &&& b < n
                &&& ready[b as int].dag_id == dag
                &&& forall|i: int|
                    0 <= i < n && (#[trigger] ready[i]).dag_id == dag ==> !ready[i].before(
                        ready[b as int],
                    )
            },
        },
    decreases n,
{
    if n > 0 {
        lemma_best_below(ready, dag, n - 1);
    }
}

/// The node that is taken is one of the DAG that no other ready node of the DAG runs
/// before; none is taken exactly if the DAG has no ready node.
pub proof fn lemma_best_ready(ready: Seq<ReadyTask>, dag: u32)
    requires
        ready.len() <= usize::MAX,
    ensures
        match best_ready(ready, dag) {
            None => forall|i: int| 0 <= i < ready.len() ==> (#[trigger] ready[i]).dag_id != dag,
            Some(b) => {
                &&& b < ready.len()
                &&& ready[b as int].dag_id == dag
                &&& forall|i: int|
                    0 <= i < ready.len() && (#[trigger] ready[i]).dag_id == dag
                        ==> !ready[i].before(ready[b as int])
            },
        },
{
    lemma_best_below(ready, dag, ready.len() as int);
}

/// Taking the next node of `dag` that is not dead: its slot, and what is left. Dead ones on
/// the way are dropped.
pub open spec fn picked_ready(ready: Seq<ReadyTask>, tasks: Seq<Task>, dag: u32) -> (
    Option<usize>,
    Seq<ReadyTask>,
)
    decreases ready.len(),
{
    match best_ready(ready, dag) {
        Some(b) if b < ready.len() => {
            let rest = ready.remove(b as int);
            let slot = ready[b as int].slot;
            if tasks[slot as int].dead() {
                picked_ready(rest, tasks, dag)
            } else {
                (Some(slot), rest)
            }
        },
        _ => (None, ready),
    }
}

/// The node that a CPU picks next: the most urgent of the DAG that it is entitled to, if it is
/// entitled to one.
pub open spec fn entitled_next(view: DpWrapView, tasks: Seq<Task>, cpu: usize) -> (
    Option<usize>,
    DpWrapView,
) {
    match entitled_dag(view.entitlement, cpu) {
        None => (None, view),
        Some(dag) => {
            let (next, ready) = picked_ready(view.ready, tasks, dag);
            (next, DpWrapView { ready, ..view })
        },
    }
}

/// What is ready once a node has been woken: the node waits with the others, unless it takes a
/// CPU over at once.
pub open spec fn node_woken(
    view: DpWrapView,
    dag: u32,
    slot: usize,
    wake: Wake,
    decision: Option<Preemption>,
) -> DpWrapView {
    DpWrapView {
        ready: if decision is Some {
            view.ready
        } else {
            view.ready.push(
                ReadyTask {
                    dag_id: dag,
                    slot,
                    absolute_deadline: wake.deadline(),
                    node_priority: wake.node_priority(),
                    wake_time: wake.time,
                },
            )
        },
        ..view
    }
}

/// The task that would have to give way on `cpu`: the higher of the running and the
/// waiting one, the waiting one if they are equal; none unless the running task is known.
pub open spec fn running_target(
    tasks: Seq<Task>,
    cpus: Seq<CpuStatus>,
    cpu: usize,
) -> Option<usize> {
    match slot_of(tasks, running_on(cpus, cpu)) {
        None => None,
        Some(running) => match pending_on(cpus, cpu) {
            Some(pending) if !tasks[pending as int].below(tasks[running as int]) => Some(pending),
            _ => Some(running),
        },
    }
}

/// Whether a task of `dag` may take `cpu` over: the CPU is busy with a known task, is not
/// reserved for clusters, and is entitled to the DAG.
pub open spec fn may_take_over(
    tasks: Seq<Task>,
    cpus: Seq<CpuStatus>,
    entitlement: Seq<u32>,
    dag: u32,
    cpu: usize,
) -> bool {
    &&& running_on(cpus, cpu) != 0
    &&& !cpus[cpu as int].reserved
    &&& entitled_dag(entitlement, cpu) == Some(dag)
    &&& running_target(tasks, cpus, cpu) is Some
}

/// Among the first `n` CPUs, the first one of lowest target priority that a task of `dag`
/// may take over, with that target.
pub open spec fn lowest_below(
    tasks: Seq<Task>,
    cpus: Seq<CpuStatus>,
    entitlement: Seq<u32>,
    dag: u32,
    n: int,
) -> Option<(usize, usize)>
    decreases n,
{
    if n <= 0 {
        None
    } else {
        let best = lowest_below(tasks, cpus, entitlement, dag, n - 1);
        let cpu = (n - 1) as usize;
        if !may_take_over(tasks, cpus, entitlement, dag, cpu) {
            best
        } else {
            let target = running_target(tasks, cpus, cpu)->0;
            match best {
                Some((_, lowest)) if !tasks[target as int].below(tasks[lowest as int]) => best,
                _ => Some((cpu, target)),
            }
        }
    }
}

/// The decision on a woken node of `dag`: none if it runs already, or if an idle worker
/// entitled to the DAG will pick it up; else the entitled CPU whose target has the lowest
/// priority, if the node outranks that target.
pub open spec fn entitled_preemption(
    tasks: Seq<Task>,
    cpus: Seq<CpuStatus>,
    entitlement: Seq<u32>,
    slot: usize,
    dag: u32,
) -> Option<Preemption> {
    let task = tasks[slot as int];
    if exists|c: int|
        0 <= c < cpus.len() && (#[trigger] cpus[c]).running == task.id && task.id != 0 {
        None
    } else if exists|c: int|
        1 <= c < cpus.len() && (#[trigger] cpus[c]).running == 0 && entitled_dag(
            entitlement,
            c as usize,
        ) == Some(dag) {
        None
    } else {
        match lowest_below(tasks, cpus, entitlement, dag, cpus.len() as int) {
            Some((cpu, target)) if tasks[target as int].below(task) => Some(
                Preemption { cpu, target: tasks[target as int].id },
            ),
            _ => None,
        }
    }
}

impl DpWrapScheduler {
    /// A scheduler in which no CPU is entitled to any DAG.
    pub fn new(priority: u8) -> (scheduler: Self)
        ensures
            scheduler@.entitlement == Seq::new(NUM_MAX_CPU as nat, |c: int| NO_DAG),
            scheduler@.switch_plan == Seq::new(
                NUM_MAX_CPU as nat,
                |c: int| Seq::<SwitchPoint>::empty(),
            ),
            scheduler@.ready == Seq::<ReadyTask>::empty(),
            scheduler@.priority == priority,
            scheduler@.wf(0),
    {
        let mut entitlement: Vec<u32> = Vec::new();
        let mut switch_plan: Vec<Vec<SwitchPoint>> = Vec::new();
        let mut c: usize = 0;
        while c < NUM_MAX_CPU
            invariant
                c <= NUM_MAX_CPU,
                entitlement@ == Seq::new(c as nat, |k: int| NO_DAG),
                switch_plan@.len() == c,
                forall|k: int| 0 <= k < c ==> (#[trigger] switch_plan@[k])@.len() == 0,
            decreases NUM_MAX_CPU - c,
        {
            entitlement.push(NO_DAG);
            switch_plan.push(Vec::new());
            c = c + 1;
            assert(entitlement@ =~= Seq::new(c as nat, |k: int| NO_DAG));
        }
        let scheduler = DpWrapScheduler { entitlement, switch_plan, ready: Vec::new(), priority };
        assert(scheduler@.switch_plan =~~= Seq::new(
            NUM_MAX_CPU as nat,
            |c: int| Seq::<SwitchPoint>::empty(),
        ));
        scheduler
    }

    /// The DAG that `cpu_id` is entitled to.
    pub fn entitlement_of(&self, cpu_id: usize) -> (dag: Option<u32>)
        ensures
            dag == entitled_dag(self@.entitlement, cpu_id),
    {
        if cpu_id < self.entitlement.len() {
            let dag: u32 = self.entitlement[cpu_id];
            if dag == NO_DAG {
                None
            } else {
                Some(dag)
            }
        } else {
            None
        }
    }

    fn best(&self, dag: u32) -> (best: Option<usize>)
        ensures
            best == best_ready(self.ready@, dag),
            best matches Some(b) ==> b < self.ready@.len(),
    {
        let mut best: Option<usize> = None;
        let mut i: usize = 0;
        while i < self.ready.len()
            invariant
                i <= self.ready@.len(),
                best == best_below(self.ready@, dag, i as int),
                best matches Some(b) ==> b < self.ready@.len(),
            decreases self.ready@.len() - i,
        {
            let candidate = self.ready[i];
            if candidate.dag_id == dag {
                best =
                match best {
                    Some(b) => {
                        if candidate.is_before(&self.ready[b]) {
                            Some(i)
                        } else {
                            Some(b)
                        }
                    },
                    None => Some(i),
                };
            }
            i = i + 1;
        }
        best
    }

    /// Decides whether a woken node takes a CPU over at once.
    fn invoke_preemption(&self, table: &TaskTable, slot: usize, dag_id: u32) -> (decision: Option<
        Preemption,
    >)
        requires
            table.wf(),
            slot < table.tasks@.len(),
            table.cpus@.len() <= NUM_MAX_CPU,
        ensures
            decision == entitled_preemption(
                table.tasks@,
                table.cpus@,
                self@.entitlement,
                slot,
                dag_id,
            ),
    {
        let task = table.tasks[slot];
        let mut victim: Option<(usize, usize)> = None;
        let mut runs: bool = false;
        let mut idle: bool = false;
        let mut c: usize = 0;
        while c < table.cpus.len()
            invariant
                c <= table.cpus@.len() <= NUM_MAX_CPU,
                table.wf(),
                slot < table.tasks@.len(),
                task == table.tasks@[slot as int],
                runs == exists|k: int|
                    0 <= k < c && (#[trigger] table.cpus@[k]).running == task.id && task.id != 0,
                idle == exists|k: int|
                    1 <= k < c && (#[trigger] table.cpus@[k]).running == 0 && entitled_dag(
                        self@.entitlement,
                        k as usize,
                    ) == Some(dag_id),
                victim == lowest_below(
                    table.tasks@,
                    table.cpus@,
                    self@.entitlement,
                    dag_id,
                    c as int,
                ),
                victim matches Some(v) ==> v.1 < table.tasks@.len(),
            decreases table.cpus@.len() - c,
        {
            let status = table.cpus[c];
            let entitled: bool = match self.entitlement_of(c) {
                Some(dag) => dag == dag_id,
                None => false,
            };
            if status.running == 0 {
                if c >= 1 && entitled {
                    assert(table.cpus@[c as int].running == 0);
                    idle = true;
                }
            } else {
                if status.running == task.id {
                    assert(table.cpus@[c as int].running == task.id);
                    runs = true;
                }
                if !status.reserved && entitled {
                    if let Some(running) = table.find(status.running) {
                        let target: usize = match status.pending {
                            Some(p) => {
                                if table.tasks[p].is_below(&table.tasks[running]) {
                                    running
                                } else {
                                    p
                                }
                            },
                            None => running,
                        };
                        victim =
                        match victim {
                            Some((cpu, lowest)) => {
                                if table.tasks[target].is_below(&table.tasks[lowest]) {
                                    Some((c, target))
                                } else {
                                    Some((cpu, lowest))
                                }
                            },
                            None => Some((c, target)),
                        };
                    }
                }
            }
            c = c + 1;
        }
        if runs || idle {
            return None;
        }
        match victim {
            None => None,
            Some((cpu, target)) => {
                if table.tasks[target].is_below(&task) {
                    Some(Preemption { cpu, target: table.tasks[target].id })
                } else {
                    None
                }
            },
        }
    }

    /// Wakes the node in `slot`: its priority follows its deadline, and it takes one of the
    /// CPUs that are entitled to its DAG over at once, or becomes ready.
    pub fn wake_task(&mut self, table: &mut TaskTable, slot: usize, wake: Wake) -> (decision: Option<
        Preemption,
    >)
        requires
            old(table).wf(),
            slot < old(table).tasks@.len(),
            old(table).cpus@.len() <= NUM_MAX_CPU,
            old(table).tasks@[slot as int].scheduler_type is DpWrap,
            wake.deadline() <= MAX_TASK_PRIORITY,
            old(self)@.wf(old(table).tasks@.len()),
        ensures
            ({
                let before = old(table).tasks@[slot as int];
                let dag = before.scheduler_type->DpWrap_0;
                &&& final(table).tasks@ == old(table).tasks@.update(
                    slot as int,
                    woken(before, old(self)@.priority, wake.deadline()),
                )
                &&& final(table).cpus@ == old(table).cpus@
                &&& decision == entitled_preemption(
                    final(table).tasks@,
                    old(table).cpus@,
                    old(self)@.entitlement,
                    slot,
                    dag,
                )
                &&& final(self)@ == node_woken(old(self)@, dag, slot, wake, decision)
            }),
            final(self)@.wf(final(table).tasks@.len()),
            final(table).wf(),
    {
        match table.tasks[slot].scheduler_type {
            SchedulerType::DpWrap(dag_id) => {
                table.set_woken(slot, self.priority, wake.absolute_deadline());
                let decision = self.invoke_preemption(table, slot, dag_id);
                if decision.is_none() {
                    let node_priority: u64 = match wake.dag {
                        Some(dag) => dag.node_priority,
                        None => 0,
                    };
                    self.ready.push(
                        ReadyTask {
                            dag_id,
                            slot,
                            absolute_deadline: wake.absolute_deadline(),
                            node_priority,
                            wake_time: wake.time,
                        },
                    );
                }
                assert(self@.switch_plan =~= old(self)@.switch_plan);
                assert forall|i: int| 0 <= i < self@.ready.len() implies (
                #[trigger] self@.ready[i]).slot < table.tasks@.len() by {
                    if i < old(self)@.ready.len() {
                        assert(self@.ready[i] == old(self)@.ready[i]);
                    }
                }
                decision
            },
            _ => None,
        }
    }

    /// Picks the next node for `cpu_id`: none if the CPU is entitled to no DAG, else the
    /// DAG's first ready node that is not dead.
    pub fn get_next(&mut self, table: &mut TaskTable, cpu_id: usize, execution_ensured: bool) -> (next:
        Option<usize>)
        requires
            old(table).wf(),
            old(self)@.wf(old(table).tasks@.len()),
        ensures
            (next, final(self)@) == entitled_next(old(self)@, old(table).tasks@, cpu_id),
            picks(*old(table), *final(table), next, cpu_id, execution_ensured),
            final(self)@.wf(final(table).tasks@.len()),
            final(table).wf(),
    {
        let dag: u32 = match self.entitlement_of(cpu_id) {
            None => {
                return None;
            },
            Some(dag) => dag,
        };
        let ghost start = self.ready@;
        let ghost tasks = table.tasks@;
        loop
            invariant
                old(table).wf(),
                table.tasks@ == tasks,
                table.tasks@ == old(table).tasks@,
                table.cpus@ == old(table).cpus@,
                start == old(self)@.ready,
                self@ == (DpWrapView { ready: self.ready@, ..old(self)@ }),
                self@.wf(tasks.len()),
                entitled_dag(old(self)@.entitlement, cpu_id) == Some(dag),
                picked_ready(start, tasks, dag) == picked_ready(self.ready@, tasks, dag),
            decreases self.ready@.len(),
        {
            let ghost before = self@.ready;
            assert(forall|i: int| 0 <= i < before.len() ==> (#[trigger] before[i]).slot
                < tasks.len());
            match self.best(dag) {
                None => {
                    return None;
                },
                Some(b) => {
                    let task = self.ready.remove(b);
                    proof {
                        assert(self@.switch_plan =~= old(self)@.switch_plan);
                        assert forall|i: int| 0 <= i < self.ready@.len() implies (
                        #[trigger] self.ready@[i]).slot < tasks.len() by {
                            if i < b {
                                assert(self.ready@[i] == before[i]);
                            } else {
                                assert(self.ready@[i] == before[i + 1]);
                            }
                        }
                        assert(before[b as int].slot < tasks.len());
                    }
                    if !table.tasks[task.slot].is_dead() {
                        table.set_picked(task.slot, cpu_id, execution_ensured);
                        return Some(task.slot);
                    }
                },
            }
        }
    }

    /// The tier of this class.
    pub fn priority(&self) -> (priority: u8)
        ensures
            priority == self.priority,
    {
        self.priority
    }

    /// The class that this scheduler serves.
    pub fn scheduler_name(&self) -> (name: SchedulerType)
        ensures
            name == SchedulerType::DpWrap(0),
    {
        SchedulerType::DpWrap(0)
    }
}

/// What changing the entitlement of `cpu` does: the new entitlement is recorded, and where
/// it changed to a DAG, an idle CPU is woken, a CPU that runs that DAG already goes on, and
/// any other CPU is given the DAG's first ready node, if there is one. A CPU is never
/// stopped without a successor.
pub open spec fn entitled(
    view: DpWrapView,
    tasks: Seq<Task>,
    cpus: Seq<CpuStatus>,
    cpu: usize,
    new_dag: Option<u32>,
) -> (DpWrapView, EntitlementAction) {
    if cpu >= view.entitlement.len() {
        (view, EntitlementAction::Nothing)
    } else {
        let changed = DpWrapView {
            entitlement: view.entitlement.update(
                cpu as int,
                match new_dag {
                    Some(dag) => dag,
                    None => NO_DAG,
                },
            ),
            ..view
        };
        let running = running_on(cpus, cpu);
        match new_dag {
            None => (changed, EntitlementAction::Nothing),
            Some(dag) => if entitled_dag(view.entitlement, cpu) == new_dag {
                (changed, EntitlementAction::Nothing)
            } else if running == 0 {
                (changed, EntitlementAction::WakeCpu)
            } else if slot_of(tasks, running) matches Some(slot) && tasks[slot as int].dag_id
                == Some(dag) {
                (changed, EntitlementAction::Nothing)
            } else {
                match best_ready(view.ready, dag) {
                    None => (changed, EntitlementAction::Nothing),
                    Some(b) => (
                        DpWrapView { ready: view.ready.remove(b as int), ..changed },
                        EntitlementAction::Preempt {
                            successor: view.ready[b as int].slot,
                            target: running,
                        },
                    ),
                }
            },
        }
    }
}

/// One entry per thread of every active segment, in order: its DAG and its rate.
pub open spec fn threads_below(active: Seq<(u32, u32, u64)>, n: int) -> Seq<(u32, u64)>
    decreases n,
{
    if n <= 0 {
        Seq::empty()
    } else {
        let (dag, concurrency, rate) = active[n - 1];
        threads_below(active, n - 1) + Seq::new(concurrency as nat, |k: int| (dag, rate))
    }
}

/// The threads of all active segments.
pub open spec fn threads(active: Seq<(u32, u32, u64)>) -> Seq<(u32, u64)> {
    threads_below(active, active.len() as int)
}

/// The threads' rates as blocks, each named by its place.
pub open spec fn blocks_of(threads: Seq<(u32, u64)>) -> Seq<(usize, u64)> {
    Seq::new(threads.len(), |i: int| (i as usize, threads[i].1))
}

/// What falls on processor `p`.
pub open spec fn share_of(threads: Seq<(u32, u64)>, p: int) -> Seq<(usize, u64, u64)> {
    pieces_on(blocks_of(threads), RATE_UNIT as int, p, threads.len() as int)
}

/// The instant that lies `start` parts into a deadline partition, to the nearest
/// nanosecond.
pub open spec fn switch_time(dp_start: int, length: int, start: int) -> int {
    dp_start + (2 * (length * start) + RATE_UNIT) / (2 * RATE_UNIT as int)
}

/// The changes that a processor's share asks for within a deadline partition.
pub open spec fn switch_points(
    share: Seq<(usize, u64, u64)>,
    threads: Seq<(u32, u64)>,
    dp_start: u64,
    length: u64,
) -> Seq<SwitchPoint> {
    Seq::new(
        share.len(),
        |k: int|
            SwitchPoint {
                at: switch_time(dp_start as int, length as int, share[k].1 as int) as u64,
                dag_id: threads[share[k].0 as int].0,
            },
    )
}

/// The place of the longest among the first `n` pieces, the last of several.
pub open spec fn longest_below(share: Seq<(usize, u64, u64)>, n: int) -> Option<int>
    decreases n,
{
    if n <= 0 {
        None
    } else {
        match longest_below(share, n - 1) {
            Some(b) if share[n - 1].2 - share[n - 1].1 < share[b].2 - share[b].1 => Some(b),
            _ => Some(n - 1),
        }
    }
}

/// What one processor, the CPU `cpu`, is given for the next deadline partition: with a
/// known length the first of its pieces now and the others at their times, else the
/// longest of its pieces.
pub open spec fn apportioned(
    view: DpWrapView,
    tasks: Seq<Task>,
    cpus: Seq<CpuStatus>,
    threads: Seq<(u32, u64)>,
    dp_start: u64,
    length: Option<u64>,
    p: int,
    cpu: usize,
) -> (DpWrapView, EntitlementAction) {
    let share = share_of(threads, p);
    let (plan, first) = match length {
        None => (
            Seq::<SwitchPoint>::empty(),
            match longest_below(share, share.len() as int) {
                None => None,
                Some(k) => Some(threads[share[k].0 as int].0),
            },
        ),
        Some(l) => {
            let points = switch_points(share, threads, dp_start, l);
            if points.len() == 0 {
                (points, None)
            } else {
                (points.skip(1), Some(points[0].dag_id))
            }
        },
    };
    let planned = if cpu < view.switch_plan.len() {
        DpWrapView { switch_plan: view.switch_plan.update(cpu as int, plan), ..view }
    } else {
        view
    };
    entitled(planned, tasks, cpus, cpu, first)
}

/// What the first `n` CPUs of the pool are given.
pub open spec fn apportioned_below(
    view: DpWrapView,
    tasks: Seq<Task>,
    cpus: Seq<CpuStatus>,
    pool: Seq<usize>,
    threads: Seq<(u32, u64)>,
    dp_start: u64,
    length: Option<u64>,
    n: int,
) -> (DpWrapView, Seq<EntitlementAction>)
    decreases n,
{
    if n <= 0 {
        (view, Seq::empty())
    } else {
        let (before, actions) = apportioned_below(
            view,
            tasks,
            cpus,
            pool,
            threads,
            dp_start,
            length,
            n - 1,
        );
        let (after, action) = apportioned(
            before,
            tasks,
            cpus,
            threads,
            dp_start,
            length,
            n - 1,
            pool[n - 1],
        );
        (after, actions.push(action))
    }
}

/// What the tick of a CPU's plan does at the time `now`: the first change of the plan is made
/// if its time has come, and leaves the plan.
pub open spec fn plan_ticked(
    view: DpWrapView,
    tasks: Seq<Task>,
    cpus: Seq<CpuStatus>,
    cpu: usize,
    now: u64,
) -> (DpWrapView, EntitlementAction) {
    let plan = view.switch_plan[cpu as int];
    if cpu < view.switch_plan.len() && plan.len() > 0 && plan[0].at <= now {
        entitled(
            DpWrapView {
                switch_plan: view.switch_plan.update(cpu as int, plan.skip(1)),
                ..view
            },
            tasks,
            cpus,
            cpu,
            Some(plan[0].dag_id),
        )
    } else {
        (view, EntitlementAction::Nothing)
    }
}

/// The length of a deadline partition, if it is known and not empty.
pub open spec fn partition_length(dp_start: u64, dp_end: Option<u64>) -> Option<u64> {
    match dp_end {
        Some(end) if end > dp_start => Some((end - dp_start) as u64),
        _ => None,
    }
}

proof fn lemma_share_ids(threads: Seq<(u32, u64)>, p: int, n: int)
    requires
        0 <= n <= threads.len() <= usize::MAX,
    ensures
        forall|k: int|
            0 <= k < pieces_on(blocks_of(threads), RATE_UNIT as int, p, n).len() ==> (
            #[trigger] pieces_on(blocks_of(threads), RATE_UNIT as int, p, n)[k]).0 < n,
    decreases n,
{
    if n > 0 {
        lemma_share_ids(threads, p, n - 1);
        let rest = pieces_on(blocks_of(threads), RATE_UNIT as int, p, n - 1);
        let all = pieces_on(blocks_of(threads), RATE_UNIT as int, p, n);
        assert forall|k: int| 0 <= k < all.len() implies (#[trigger] all[k]).0 < n by {
            if k < rest.len() {
                assert(all[k] == rest[k]);
            }
        }
    }
}

/// A change within a deadline partition happens within it.
pub proof fn lemma_switch_time_within(dp_start: int, length: int, start: int)
    requires
        0 <= start < RATE_UNIT,
        0 <= length,
    ensures
        dp_start <= switch_time(dp_start, length, start) <= dp_start + length,
{
    let u = RATE_UNIT as int;
    let x = 2 * (length * start) + u;
    assert(0 <= length * start) by (nonlinear_arith)
        requires
            0 <= length,
            0 <= start,
    ;
    if length > 0 {
        assert(x < 2 * u * (length + 1)) by (nonlinear_arith)
            requires
                x == 2 * (length * start) + u,
                0 <= start < u,
                0 < length,
        ;
    } else {
        assert(length * start == 0) by (nonlinear_arith)
            requires
                length == 0,
        ;
    }
    assert(0 <= x / (2 * u) <= length) by (nonlinear_arith)
        requires
            0 <= x < 2 * u * (length + 1),
            u > 0,
    ;
}

impl DpWrapScheduler {
    /// Records a new entitlement of one CPU and says what the CPU has to be told.
    pub fn apply_entitlement(&mut self, table: &TaskTable, cpu_id: usize, new_dag: Option<u32>) -> (action:
        EntitlementAction)
        requires
            old(self)@.wf(table.tasks@.len()),
        ensures
            (final(self)@, action) == entitled(
                old(self)@,
                table.tasks@,
                table.cpus@,
                cpu_id,
                new_dag,
            ),
            final(self)@.wf(table.tasks@.len()),
    {
        if cpu_id >= self.entitlement.len() {
            return EntitlementAction::Nothing;
        }
        let old_dag = self.entitlement_of(cpu_id);
        let value: u32 = match new_dag {
            Some(dag) => dag,
            None => NO_DAG,
        };
        self.entitlement.set(cpu_id, value);
        assert(self@.switch_plan =~= old(self)@.switch_plan);
        let dag: u32 = match new_dag {
            None => {
                return EntitlementAction::Nothing;
            },
            Some(dag) => dag,
        };
        let unchanged: bool = match old_dag {
            Some(d) => d == dag,
            None => false,
        };
        if unchanged {
            return EntitlementAction::Nothing;
        }
        let running: u32 = table.running(cpu_id);
        if running == 0 {
            return EntitlementAction::WakeCpu;
        }
        if let Some(slot) = table.find(running) {
            let same: bool = match table.tasks[slot].dag_id {
                Some(d) => d == dag,
                None => false,
            };
            if same {
                return EntitlementAction::Nothing;
            }
        }
        match self.best(dag) {
            None => EntitlementAction::Nothing,
            Some(b) => {
                let ghost before = self@.ready;
                assert(forall|i: int| 0 <= i < before.len() ==> (#[trigger] before[i]).slot
                    < table.tasks@.len());
                let successor = self.ready.remove(b);
                proof {
                    assert(self@.switch_plan =~= old(self)@.switch_plan);
                    assert forall|i: int| 0 <= i < self.ready@.len() implies (
                    #[trigger] self.ready@[i]).slot < table.tasks@.len() by {
                        if i < b {
                            assert(self.ready@[i] == before[i]);
                        } else {
                            assert(self.ready@[i] == before[i + 1]);
                        }
                    }
                }
                EntitlementAction::Preempt { successor: successor.slot, target: running }
            },
        }
    }

    fn set_plan(&mut self, cpu_id: usize, plan: Vec<SwitchPoint>)
        ensures
            final(self)@ == if cpu_id < old(self)@.switch_plan.len() {
                DpWrapView {
                    switch_plan: old(self)@.switch_plan.update(cpu_id as int, plan@),
                    ..old(self)@
                }
            } else {
                old(self)@
            },
    {
        if cpu_id < self.switch_plan.len() {
            self.switch_plan.set(cpu_id, plan);
            assert(self@.switch_plan =~= old(self)@.switch_plan.update(cpu_id as int, plan@));
        }
    }

    /// Applies the next planned change of a CPU's entitlement, if its time has come.
    pub fn tick_switch_plan(&mut self, table: &TaskTable, cpu_id: usize, now: u64) -> (action:
        EntitlementAction)
        requires
            old(self)@.wf(table.tasks@.len()),
        ensures
            (final(self)@, action) == plan_ticked(
                old(self)@,
                table.tasks@,
                table.cpus@,
                cpu_id,
                now,
            ),
            final(self)@.wf(table.tasks@.len()),
    {
        if cpu_id >= self.switch_plan.len() {
            return EntitlementAction::Nothing;
        }
        if self.switch_plan[cpu_id].len() == 0 || self.switch_plan[cpu_id][0].at > now {
            return EntitlementAction::Nothing;
        }
        let dag: u32 = self.switch_plan[cpu_id][0].dag_id;
        let rest = tail_of(&self.switch_plan[cpu_id]);
        self.set_plan(cpu_id, rest);
        self.apply_entitlement(table, cpu_id, Some(dag))
    }

    /// Recomputes the entitlement of every CPU of the pool for the deadline partition from
    /// `dp_start` until `dp_end`: the threads of all active segments are laid along the
    /// pool's processors by their rates. Returns what each CPU of the pool, ascending, has
    /// to be told.
    pub fn recompute_and_apply(
        &mut self,
        table: &TaskTable,
        pool: CpuSet,
        active: &[(u32, u32, u64)],
        dp_start: u64,
        dp_end: Option<u64>,
    ) -> (actions: Vec<EntitlementAction>)
        requires
            old(self)@.wf(table.tasks@.len()),
        ensures
            (final(self)@, actions@) == apportioned_below(
                old(self)@,
                table.tasks@,
                table.cpus@,
                members(cpu_set_view(pool)),
                threads(active@),
                dp_start,
                partition_length(dp_start, dp_end),
                members(cpu_set_view(pool)).len() as int,
            ),
            final(self)@.wf(table.tasks@.len()),
    {
        let cpus = cpu_list(pool);
        let all = thread_list(active);
        let blocks = block_list(&all);
        let length: Option<u64> = match dp_end {
            Some(end) => {
                if end > dp_start {
                    Some(end - dp_start)
                } else {
                    None
                }
            },
            None => None,
        };
        let shares = wrap_blocks(&blocks, cpus.len(), RATE_UNIT);
        let mut actions: Vec<EntitlementAction> = Vec::new();
        let mut p: usize = 0;
        while p < cpus.len()
            invariant
                p <= cpus@.len(),
                cpus@ == members(cpu_set_view(pool)),
                all@ == threads(active@),
                blocks@ == blocks_of(all@),
                length == partition_length(dp_start, dp_end),
                shares@.len() == cpus@.len(),
                forall|q: int|
                    0 <= q < cpus@.len() ==> (#[trigger] shares@[q])@ == share_of(all@, q),
                (self@, actions@) == apportioned_below(
                    old(self)@,
                    table.tasks@,
                    table.cpus@,
                    cpus@,
                    all@,
                    dp_start,
                    length,
                    p as int,
                ),
                self@.wf(table.tasks@.len()),
            decreases cpus@.len() - p,
        {
            let share = &shares[p];
            let ghost n = all.len();
            proof {
                lemma_share_ids(all@, p as int, all@.len() as int);
                lemma_pieces_do_not_overlap(
                    blocks@,
                    RATE_UNIT,
                    p as int,
                    blocks@.len() as int,
                );
            }
            let mut plan: Vec<SwitchPoint> = Vec::new();
            let mut first: Option<u32> = None;
            match length {
                None => {
                    if let Some(k) = longest(share) {
                        first = Some(all[share[k].0].0);
                    }
                },
                Some(l) => {
                    let points = point_list(share, &all, dp_start, l);
                    if points.len() > 0 {
                        first = Some(points[0].dag_id);
                        plan = tail_of(&points);
                    }
                },
            }
            let ghost before = self@;
            let ghost plan_view = plan@;
            self.set_plan(cpus[p], plan);
            let action = self.apply_entitlement(table, cpus[p], first);
            proof {
                let own = share_of(all@, p as int);
                match length {
                    None => {},
                    Some(l) => {
                        let points = switch_points(own, all@, dp_start, l);
                        if points.len() == 0 {
                            assert(plan_view =~= points);
                        }
                    },
                }
                assert((self@, action) == apportioned(
                    before,
                    table.tasks@,
                    table.cpus@,
                    all@,
                    dp_start,
                    length,
                    p as int,
                    cpus@[p as int],
                ));
            }
            actions.push(action);
            p = p + 1;
        }
        actions
    }
}

fn tail_of(points: &Vec<SwitchPoint>) -> (rest: Vec<SwitchPoint>)
    requires
        points@.len() > 0,
    ensures
        rest@ == points@.skip(1),
{
    let mut rest: Vec<SwitchPoint> = Vec::new();
    let mut i: usize = 1;
    while i < points.len()
        invariant
            1 <= i <= points@.len(),
            rest@ == points@.subrange(1, i as int),
        decreases points@.len() - i,
    {
        rest.push(points[i]);
        i = i + 1;
        assert(rest@ =~= points@.subrange(1, i as int));
    }
    assert(rest@ =~= points@.skip(1));
    rest
}

fn thread_list(active: &[(u32, u32, u64)]) -> (all: Vec<(u32, u64)>)
    ensures
        all@ == threads(active@),
{
    let mut all: Vec<(u32, u64)> = Vec::new();
    let mut i: usize = 0;
    while i < active.len()
        invariant
            i <= active@.len(),
            all@ == threads_below(active@, i as int),
        decreases active@.len() - i,
    {
        let (dag, concurrency, rate) = active[i];
        let ghost before = all@;
        let mut k: u32 = 0;
        while k < concurrency
            invariant
                k <= concurrency,
                all@ == before + Seq::new(k as nat, |j: int| (dag, rate)),
            decreases concurrency - k,
        {
            all.push((dag, rate));
            k = k + 1;
            assert(all@ =~= before + Seq::new(k as nat, |j: int| (dag, rate)));
        }
        i = i + 1;
    }
    all
}

fn block_list(all: &Vec<(u32, u64)>) -> (blocks: Vec<(usize, u64)>)
    ensures
        blocks@ == blocks_of(all@),
{
    let mut blocks: Vec<(usize, u64)> = Vec::new();
    let mut i: usize = 0;
    while i < all.len()
        invariant
            i <= all@.len(),
            blocks@ == blocks_of(all@).take(i as int),
        decreases all@.len() - i,
    {
        blocks.push((i, all[i].1));
        i = i + 1;
        assert(blocks@ =~= blocks_of(all@).take(i as int));
    }
    assert(blocks@ =~= blocks_of(all@));
    blocks
}

fn longest(share: &Vec<(usize, u64, u64)>) -> (k: Option<usize>)
    requires
        forall|a: int| 0 <= a < share@.len() ==> (#[trigger] share@[a]).1 < share@[a].2,
    ensures
        match longest_below(share@, share@.len() as int) {
            None => k is None,
            Some(b) => k matches Some(i) && i == b && i < share@.len(),
        },
{
    let mut best: Option<usize> = None;
    let mut i: usize = 0;
    while i < share.len()
        invariant
            i <= share@.len(),
            forall|a: int| 0 <= a < share@.len() ==> (#[trigger] share@[a]).1 < share@[a].2,
            match longest_below(share@, i as int) {
                None => best is None,
                Some(b) => best matches Some(k) && k == b && k < share@.len(),
            },
        decreases share@.len() - i,
    {
        let (_, start, end) = share[i];
        assert(share@[i as int].1 < share@[i as int].2);
        best =
        match best {
            Some(b) => {
                let (_, s, e) = share[b];
                assert(share@[b as int].1 < share@[b as int].2);
                if end - start < e - s {
                    Some(b)
                } else {
                    Some(i)
                }
            },
            None => Some(i),
        };
        i = i + 1;
    }
    best
}

fn point_list(
    share: &Vec<(usize, u64, u64)>,
    all: &Vec<(u32, u64)>,
    dp_start: u64,
    length: u64,
) -> (points: Vec<SwitchPoint>)
    requires
        forall|a: int|
            0 <= a < share@.len() ==> (#[trigger] share@[a]).0 < all@.len() && share@[a].1
                < RATE_UNIT,
        dp_start + length <= u64::MAX,
    ensures
        points@ == switch_points(share@, all@, dp_start, length),
{
    let mut points: Vec<SwitchPoint> = Vec::new();
    let mut k: usize = 0;
    while k < share.len()
        invariant
            k <= share@.len(),
            forall|a: int|
                0 <= a < share@.len() ==> (#[trigger] share@[a]).0 < all@.len() && share@[a].1
                    < RATE_UNIT,
            dp_start + length <= u64::MAX,
            points@ == switch_points(share@, all@, dp_start, length).take(k as int),
        decreases share@.len() - k,
    {
        let (thread, start, _) = share[k];
        proof {
            assert(share@[k as int].1 < RATE_UNIT);
            lemma_switch_time_within(dp_start as int, length as int, start as int);
            assert(0 <= length * start <= 0xFFFF_FFFF_FFFF_FFFF * 4_503_599_627_370_496)
                by (nonlinear_arith)
                requires
                    0 <= length <= 0xFFFF_FFFF_FFFF_FFFF,
                    0 <= start < 4_503_599_627_370_496,
            ;
        }
        let scaled: u128 = 2 * (length as u128 * start as u128) + RATE_UNIT as u128;
        let shift: u64 = (scaled / (2 * RATE_UNIT as u128)) as u64;
        points.push(SwitchPoint { at: dp_start + shift, dag_id: all[thread].0 });
        k = k + 1;
        assert(points@ =~= switch_points(share@, all@, dp_start, length).take(k as int));
    }
    assert(points@ =~= switch_points(share@, all@, dp_start, length));
    points
}

pub proof fn lemma_lowest_below(
    tasks: Seq<Task>,
    cpus: Seq<CpuStatus>,
    entitlement: Seq<u32>,
    dag: u32,
    n: int,
)
    requires
        0 <= n <= cpus.len() <= usize::MAX,
    ensures
        match lowest_below(tasks, cpus, entitlement, dag, n) {
            None => forall|c: usize|
                c < n ==> !#[trigger] may_take_over(tasks, cpus, entitlement, dag, c),
            Some((cpu, target)) => {
                &&& cpu < n
                &&& may_take_over(tasks, cpus, entitlement, dag, cpu)
                &&& running_target(tasks, cpus, cpu) == Some(target)
                &&& forall|c: usize|
                    c < n && #[trigger] may_take_over(tasks, cpus, entitlement, dag, c)
                        ==> !tasks[running_target(tasks, cpus, c)->0 as int].below(
                        tasks[target as int],
                    )
            },
        },
    decreases n,
{
    if n > 0 {
        lemma_lowest_below(tasks, cpus, entitlement, dag, n - 1);
    }
}

/// A node never takes over a CPU that another DAG is entitled to, nor one that is reserved
/// for clusters, nor one whose task it does not outrank.
pub proof fn lemma_preemption_stays_entitled(
    tasks: Seq<Task>,
    cpus: Seq<CpuStatus>,
    entitlement: Seq<u32>,
    slot: usize,
    dag: u32,
)
    requires
        entitled_preemption(tasks, cpus, entitlement, slot, dag) is Some,
        cpus.len() <= usize::MAX,
    ensures
        ({
            let decision = entitled_preemption(tasks, cpus, entitlement, slot, dag)->0;
            let target = running_target(tasks, cpus, decision.cpu);
            &&& entitled_dag(entitlement, decision.cpu) == Some(dag)
            &&& !cpus[decision.cpu as int].reserved
            &&& target is Some
            &&& tasks[target->0 as int].id == decision.target
            &&& tasks[target->0 as int].below(tasks[slot as int])
        }),
{
    lemma_lowest_below(tasks, cpus, entitlement, dag, cpus.len() as int);
}

} // verus!
