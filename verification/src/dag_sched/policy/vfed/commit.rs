//! Admitting DAGs: claiming what the plans ask for.

use vstd::prelude::*;

use super::packing::{
    choose_partition, chosen_partition, lemma_chosen_partition, PackingStrategy, Partition,
};
use super::plan::{
    ascending_below, class_of, classify, generate_passive_vps, heavy_plan,
    lemma_heavy_plan_is_schedulable, lemma_pulled, lemma_without_indices_members,
    lemma_without_indices_wf, plan_heavy, plan_light, pool_wf, pulled, schedulable, select, sum,
    take_indices, vps_view, without_indices, HeavyPlanView, TaskClass, VFedError,
};
use super::supply::{PassiveVp, PassiveVpView};
use super::batch::{
    density, is_heavy_dag, is_light_dag, joined, lemma_pool_after, pool_after, within_one_core,
};
use crate::cpu::{
    cpu_set_empty, cpu_set_to_vec, cpu_set_view, cpu_set_with, lemma_ascending_unique, CpuSet,
    NUM_MAX_CPU,
};
use crate::dag_sched::metrics::DagMetrics;
use crate::dag_sched::resource::{
    allocate_cluster, free_core_count, free_workers, lemma_free_workers,
    lemma_scaled_ratio_at_most_one, lemma_take_one_more, utilization_scaled, PoolLedger,
    ResourceError,
};
use crate::scheduler::active_vp::{armed, with_core, ActiveVpCore, ActiveVpTable};
use crate::scheduler::scheduler_type::SchedulerType;

verus! {

/// One core of a heavy DAG's group of active VPs.
#[derive(Debug, Clone, Copy, PartialEq, Eq, Structural)]
pub struct ActiveVp {
    pub cpu: usize,
    /// The initial budget: every job release replenishes to it.
    pub budget: u64,
}

/// The outcome of admitting one DAG.
#[derive(Debug, Clone, PartialEq, Eq)]
pub enum VFedAssignment {
    /// A heavy DAG: its active VPs, the leading one first, and the passive VPs of
    /// other DAGs that it draws on.
    Heavy { active: Vec<ActiveVp>, passive: Vec<PassiveVp> },
    /// A light DAG that passive VPs serve, with no core of its own.
    LightPassive { passive: Vec<PassiveVp> },
    /// A light DAG on a partitioned-EDF core.
    LightPartitioned { cpu: usize },
}

/// The mathematical value of a [`VFedAssignment`].
#[verifier::ext_equal]
pub enum VFedAssignmentView {
    Heavy { active: Seq<ActiveVp>, passive: Seq<PassiveVpView> },
    LightPassive { passive: Seq<PassiveVpView> },
    LightPartitioned { cpu: usize },
}

impl View for VFedAssignment {
    type V = VFedAssignmentView;

    open spec fn view(&self) -> VFedAssignmentView {
        match self {
            VFedAssignment::Heavy { active, passive } => VFedAssignmentView::Heavy {
                active: active@,
                passive: vps_view(passive@),
            },
            VFedAssignment::LightPassive { passive } => VFedAssignmentView::LightPassive {
                passive: vps_view(passive@),
            },
            VFedAssignment::LightPartitioned { cpu } => VFedAssignmentView::LightPartitioned {
                cpu: *cpu,
            },
        }
    }
}

/// All that admission draws on: the core ledger, the passive VPs that no task has
/// claimed, the partitioned-EDF cores, and the budgets of the active VPs.
pub struct VFedState {
    pub ledger: PoolLedger,
    pub passive_pool: Vec<PassiveVp>,
    pub partitions: Vec<(usize, Partition)>,
    pub budgets: ActiveVpTable,
}

/// The mathematical value of a [`VFedState`].
#[verifier::ext_equal]
pub struct VFedStateView {
    pub claimed: Set<usize>,
    pub light_utilization_scaled: u64,
    pub pool: Seq<PassiveVpView>,
    pub partitions: Seq<(usize, Partition)>,
    pub budgets: Seq<ActiveVpCore>,
}

impl View for VFedState {
    type V = VFedStateView;

    open spec fn view(&self) -> VFedStateView {
        VFedStateView {
            claimed: cpu_set_view(self.ledger.claimed_cores),
            light_utilization_scaled: self.ledger.light_utilization_scaled,
            pool: vps_view(self.passive_pool@),
            partitions: self.partitions@,
            budgets: self.budgets@,
        }
    }
}

/// The partitions without their CPUs.
pub open spec fn partitions_of(partitions: Seq<(usize, Partition)>) -> Seq<Partition> {
    Seq::new(partitions.len(), |i: int| partitions[i].1)
}

/// Passive VPs on CPUs that the kernel supports.
pub open spec fn pool_supported(pool: Seq<PassiveVpView>) -> bool {
    forall|i: int| 0 <= i < pool.len() ==> (#[trigger] pool[i]).cpu < NUM_MAX_CPU
}

/// Partitions on CPUs that the kernel supports.
pub open spec fn partitions_supported(partitions: Seq<(usize, Partition)>) -> bool {
    forall|i: int| 0 <= i < partitions.len() ==> (#[trigger] partitions[i]).0 < NUM_MAX_CPU
}

/// Active VPs on CPUs that the kernel supports.
pub open spec fn active_supported(active: Seq<ActiveVp>) -> bool {
    forall|i: int| 0 <= i < active.len() ==> (#[trigger] active[i]).cpu < NUM_MAX_CPU
}

impl VFedAssignmentView {
    /// Every CPU of the assignment is one that the kernel supports.
    pub open spec fn cpus_supported(self) -> bool {
        match self {
            VFedAssignmentView::Heavy { active, passive } => active_supported(active)
                && pool_supported(passive),
            VFedAssignmentView::LightPassive { passive } => pool_supported(passive),
            VFedAssignmentView::LightPartitioned { cpu } => cpu < NUM_MAX_CPU,
        }
    }
}

impl VFedStateView {
    /// The passive VPs are well formed, no partition is committed beyond one core, and all
    /// of them are on CPUs that the kernel supports.
    pub open spec fn wf(self) -> bool {
        &&& pool_wf(self.pool)
        &&& within_one_core(partitions_of(self.partitions))
        &&& pool_supported(self.pool)
        &&& partitions_supported(self.partitions)
    }
}

impl VFedState {
    /// A state in which nothing has been admitted.
    pub fn new() -> (state: Self)
        ensures
            state@.wf(),
            state@.claimed == Set::<usize>::empty(),
            state@.light_utilization_scaled == 0,
            state@.pool == Seq::<PassiveVpView>::empty(),
            state@.partitions == Seq::<(usize, Partition)>::empty(),
            state@.budgets == Seq::new(
                NUM_MAX_CPU as nat,
                |i: int| crate::scheduler::active_vp::unclaimed_core(),
            ),
    {
        let state = VFedState {
            ledger: PoolLedger::new(),
            passive_pool: Vec::new(),
            partitions: Vec::new(),
            budgets: ActiveVpTable::new(),
        };
        assert(state@.pool =~= Seq::<PassiveVpView>::empty());
        state
    }
}

/// Claims the first `count` free cores and lists them in ascending order.
pub(crate) fn claim_cores(ledger: &mut PoolLedger, num_cpu: usize, count: u16) -> (result: Result<
    Vec<usize>,
    ResourceError,
>)
    requires
        num_cpu <= NUM_MAX_CPU,
    ensures
        match result {
            Ok(cpus) => {
                &&& count <= old(ledger).free(num_cpu).len()
                &&& cpus@ == old(ledger).free(num_cpu).take(count as int)
                &&& cpu_set_view(final(ledger).claimed_cores) == cpu_set_view(
                    old(ledger).claimed_cores,
                ).union(cpus@.to_set())
                &&& final(ledger).light_utilization_scaled == old(ledger).light_utilization_scaled
            },
            Err(error) => {
                &&& old(ledger).free(num_cpu).len() < count
                &&& error == (ResourceError::InsufficientCores {
                    required: count,
                    available: old(ledger).free(num_cpu).len() as u16,
                })
                &&& *final(ledger) == *old(ledger)
            },
        },
{
    let ghost free = ledger.free(num_cpu);
    proof {
        lemma_free_workers(cpu_set_view(ledger.claimed_cores), num_cpu, num_cpu as int);
    }
    match allocate_cluster(ledger, num_cpu, count) {
        Err(error) => Err(error),
        Ok(cluster) => {
            let cpus = cpu_set_to_vec(cluster);
            proof {
                let taken = free.take(count as int);
                assert forall|x: usize| cpus@.contains(x) == taken.contains(x) by {
                    assert(cpus@.contains(x) == cpu_set_view(cluster).contains(x));
                    assert(taken.to_set().contains(x) == taken.contains(x));
                }
                assert forall|i: int, j: int| 0 <= i < j < taken.len() implies taken[i]
                    < taken[j] by {
                    assert(free[i] < free[j]);
                }
                lemma_ascending_unique(cpus@, taken);
            }
            Ok(cpus)
        },
    }
}

/// A budget on each CPU.
pub open spec fn active_vps(cpus: Seq<usize>, budgets: Seq<u64>) -> Seq<ActiveVp> {
    Seq::new(cpus.len(), |i: int| ActiveVp { cpu: cpus[i], budget: budgets[i] })
}

/// The budget table once each of the given active VPs is armed.
pub open spec fn arm_all(table: Seq<ActiveVpCore>, active: Seq<ActiveVp>) -> Seq<ActiveVpCore>
    decreases active.len(),
{
    if active.len() == 0 {
        table
    } else {
        let rest = arm_all(table, active.drop_last());
        let vp = active.last();
        with_core(rest, vp.cpu, armed(rest[vp.cpu as int], vp.budget))
    }
}

pub(crate) fn arm(table: &mut ActiveVpTable, cpus: &Vec<usize>, budgets: &Vec<u64>) -> (active: Vec<ActiveVp>)
    requires
        cpus@.len() == budgets@.len(),
    ensures
        active@ == active_vps(cpus@, budgets@),
        final(table)@ == arm_all(old(table)@, active@),
{
    let mut active: Vec<ActiveVp> = Vec::new();
    let mut i: usize = 0;
    while i < cpus.len()
        invariant
            i <= cpus@.len(),
            cpus@.len() == budgets@.len(),
            active@ == active_vps(cpus@, budgets@).take(i as int),
            table@ == arm_all(old(table)@, active@),
        decreases cpus@.len() - i,
    {
        let ghost before = active@;
        active.push(ActiveVp { cpu: cpus[i], budget: budgets[i] });
        assert(active@.drop_last() =~= before);
        table.set_initial_budget(cpus[i], budgets[i]);
        i = i + 1;
        assert(active@ =~= active_vps(cpus@, budgets@).take(i as int));
    }
    assert(active@ =~= active_vps(cpus@, budgets@));
    active
}

/// What the admission of one DAG gives: the state after it and the assignment, or
/// the error, in which case the state stays as it is.
pub type Admission = Result<(VFedStateView, VFedAssignmentView), VFedError>;

/// Admitting a heavy DAG: it takes the first free cores that its plan asks for and
/// the passive VPs that the plan names, and leaves its own passive VPs.
pub open spec fn heavy_admission(state: VFedStateView, config: DagMetrics, num_cpu: usize) -> Admission {
    let free = free_workers(state.claimed, num_cpu);
    match heavy_plan(config, free.len() as u16, state.pool) {
        Err(error) => Err(error),
        Ok(plan) => {
            let cpus = free.take(plan.cores_used as int);
            let active = active_vps(cpus, plan.active_budgets);
            Ok(
                (
                    VFedStateView {
                        claimed: state.claimed.union(cpus.to_set()),
                        pool: pool_after(state.pool, config, plan, cpus),
                        budgets: arm_all(state.budgets, active),
                        ..state
                    },
                    VFedAssignmentView::Heavy {
                        active,
                        passive: select(state.pool, plan.passive_indices),
                    },
                ),
            )
        },
    }
}

/// Admitting a light DAG: passive VPs if they suffice, else a partition with room,
/// else a new partition on the first free core.
pub open spec fn light_admission(
    state: VFedStateView,
    config: DagMetrics,
    packing: PackingStrategy,
    num_cpu: usize,
) -> Admission {
    match pulled(config, 0, state.pool) {
        Some(indices) => Ok(
            (
                VFedStateView { pool: without_indices(state.pool, indices), ..state },
                VFedAssignmentView::LightPassive { passive: select(state.pool, indices) },
            ),
        ),
        None => match chosen_partition(packing, partitions_of(state.partitions), density(config)) {
            Some(index) => {
                let (cpu, partition) = state.partitions[index as int];
                Ok(
                    (
                        VFedStateView {
                            partitions: state.partitions.update(
                                index as int,
                                (cpu, joined(partition, density(config))),
                            ),
                            ..state
                        },
                        VFedAssignmentView::LightPartitioned { cpu },
                    ),
                )
            },
            None => {
                let free = free_workers(state.claimed, num_cpu);
                if free.len() == 0 {
                    Err(
                        VFedError::Resource(
                            ResourceError::InsufficientCores { required: 1, available: 0 },
                        ),
                    )
                } else {
                    Ok(
                        (
                            VFedStateView {
                                claimed: state.claimed.union(free.take(1).to_set()),
                                partitions: state.partitions.push(
                                    (
                                        free[0],
                                        Partition { committed_density_scaled: density(config) },
                                    ),
                                ),
                                ..state
                            },
                            VFedAssignmentView::LightPartitioned { cpu: free[0] },
                        ),
                    )
                }
            },
        },
    }
}

/// Admitting one DAG, by its class.
pub open spec fn admission(
    state: VFedStateView,
    config: DagMetrics,
    packing: PackingStrategy,
    num_cpu: usize,
) -> Admission {
    match class_of(config) {
        Err(error) => Err(error),
        Ok(TaskClass::Heavy { .. }) => heavy_admission(state, config, num_cpu),
        Ok(TaskClass::Light) => light_admission(state, config, packing, num_cpu),
    }
}

/// The executed admission does what the mathematical one says.
pub open spec fn admits(
    before: VFedStateView,
    after: VFedStateView,
    expected: Admission,
    result: Result<VFedAssignment, VFedError>,
) -> bool {
    match expected {
        Ok((state, assignment)) => {
            &&& after == state
            &&& result matches Ok(r)
            &&& r@ == assignment
        },
        Err(error) => {
            &&& after == before
            &&& result == Err::<VFedAssignment, VFedError>(error)
        },
    }
}

/// Admitting a heavy DAG keeps to the CPUs that the kernel supports.
proof fn lemma_heavy_cpus_supported(state: VFedStateView, config: DagMetrics, num_cpu: usize)
    requires
        state.wf(),
        state.pool.len() <= usize::MAX,
        num_cpu <= NUM_MAX_CPU,
        is_heavy_dag(config),
    ensures
        heavy_admission(state, config, num_cpu) matches Ok((after, assignment)) ==> pool_supported(
            after.pool,
        ) && after.partitions == state.partitions && assignment.cpus_supported(),
{
    let free = free_workers(state.claimed, num_cpu);
    lemma_free_workers(state.claimed, num_cpu, num_cpu as int);
    if let Ok(plan) = heavy_plan(config, free.len() as u16, state.pool) {
        let cpus = free.take(plan.cores_used as int);
        lemma_pool_after(state.pool, config, free.len() as u16, cpus);
        assert forall|i: int| 0 <= i < cpus.len() implies (#[trigger] cpus[i]) < NUM_MAX_CPU by {
            assert(cpus[i] == free[i]);
        }
        lemma_pool_after_supported(state.pool, config, plan, cpus);
        lemma_selected_supported(state.pool, plan.passive_indices);
    }
}

/// What is selected from a pool on supported CPUs is on supported CPUs.
pub proof fn lemma_selected_supported(pool: Seq<PassiveVpView>, indices: Seq<usize>)
    requires
        pool_supported(pool),
        ascending_below(indices, pool.len() as int),
    ensures
        pool_supported(select(pool, indices)),
        pool_supported(without_indices(pool, indices)),
{
    let taken = select(pool, indices);
    assert forall|k: int| 0 <= k < taken.len() implies (#[trigger] taken[k]).cpu < NUM_MAX_CPU by {
        assert(taken[k] == pool[indices[k] as int]);
    }
    let left = without_indices(pool, indices);
    assert forall|i: int| 0 <= i < left.len() implies (#[trigger] left[i]).cpu < NUM_MAX_CPU by {
        lemma_without_indices_members(pool, indices, i);
        let k = choose|k: int| 0 <= k < pool.len() && pool[k] == left[i];
        assert(pool[k].cpu < NUM_MAX_CPU);
    }
}

/// A pool on supported CPUs stays on them once a DAG has taken its passive VPs and its group
/// on the CPUs `cpus` has left its own.
pub proof fn lemma_pool_after_supported(
    pool: Seq<PassiveVpView>,
    config: DagMetrics,
    plan: HeavyPlanView,
    cpus: Seq<usize>,
)
    requires
        pool_supported(pool),
        ascending_below(plan.passive_indices, pool.len() as int),
        plan.active_budgets.len() == cpus.len(),
        forall|i: int| 0 <= i < cpus.len() ==> (#[trigger] cpus[i]) < NUM_MAX_CPU,
    ensures
        pool_supported(pool_after(pool, config, plan, cpus)),
{
    lemma_selected_supported(pool, plan.passive_indices);
    let left = without_indices(pool, plan.passive_indices);
    let after = pool_after(pool, config, plan, cpus);
    assert forall|i: int| 0 <= i < after.len() implies (#[trigger] after[i]).cpu < NUM_MAX_CPU by {
        if i < left.len() {
            assert(after[i] == left[i]);
        } else {
            assert(after[i].cpu == cpus[i - left.len()]);
        }
    }
}

/// Admitting a light DAG keeps to the CPUs that the kernel supports.
proof fn lemma_light_cpus_supported(
    state: VFedStateView,
    config: DagMetrics,
    packing: PackingStrategy,
    num_cpu: usize,
)
    requires
        state.wf(),
        state.pool.len() <= usize::MAX,
        state.partitions.len() <= usize::MAX,
        num_cpu <= NUM_MAX_CPU,
    ensures
        light_admission(state, config, packing, num_cpu) matches Ok((after, assignment))
            ==> pool_supported(after.pool) && partitions_supported(after.partitions)
            && assignment.cpus_supported(),
{
    let free = free_workers(state.claimed, num_cpu);
    lemma_free_workers(state.claimed, num_cpu, num_cpu as int);
    lemma_pulled(config, 0, state.pool);
    match pulled(config, 0, state.pool) {
        Some(indices) => {
            lemma_selected_supported(state.pool, indices);
        },
        None => {
            lemma_chosen_partition(packing, partitions_of(state.partitions), density(config));
        },
    }
}

fn admit_heavy(state: &mut VFedState, config: DagMetrics, num_cpu: usize) -> (result: Result<
    VFedAssignment,
    VFedError,
>)
    requires
        old(state)@.wf(),
        num_cpu <= NUM_MAX_CPU,
        is_heavy_dag(config),
    ensures
        admits(old(state)@, final(state)@, heavy_admission(old(state)@, config, num_cpu), result),
        final(state)@.wf(),
        result matches Ok(assignment) ==> assignment.cpus_supported(),
{
    let cores_available: u16 = free_core_count(&state.ledger, num_cpu);
    let plan = match plan_heavy(&config, cores_available, &state.passive_pool) {
        Err(error) => {
            return Err(error);
        },
        Ok(plan) => plan,
    };
    let ghost free = state.ledger.free(num_cpu);
    let ghost cpus_taken = free.take(plan.cores_used as int);
    let ghost before = state@;
    let ghost pool_len = state.passive_pool.len();
    proof {
        lemma_pool_after(before.pool, config, cores_available, cpus_taken);
        lemma_heavy_cpus_supported(before, config, num_cpu);
    }
    let cpus = match claim_cores(&mut state.ledger, num_cpu, plan.cores_used) {
        Err(error) => {
            return Err(VFedError::Resource(error));
        },
        Ok(cpus) => cpus,
    };
    let active = arm(&mut state.budgets, &cpus, &plan.active_budgets);
    let mut new_passives = generate_passive_vps(
        &plan.active_budgets,
        &cpus,
        config.period,
        config.relative_deadline,
        config.max_parallelism,
    );
    let passive = take_indices(&mut state.passive_pool, &plan.passive_indices);
    let ghost left = state.passive_pool@;
    let ghost added = new_passives@;
    state.passive_pool.append(&mut new_passives);
    assert(vps_view(state.passive_pool@) =~= vps_view(left) + vps_view(added));
    assert(state@ =~= (heavy_admission(before, config, num_cpu)->Ok_0).0);
    Ok(VFedAssignment::Heavy { active, passive })
}

fn open_partitions(partitions: &Vec<(usize, Partition)>) -> (open: Vec<Partition>)
    ensures
        open@ == partitions_of(partitions@),
{
    let mut open: Vec<Partition> = Vec::new();
    let mut i: usize = 0;
    while i < partitions.len()
        invariant
            i <= partitions@.len(),
            open@ == partitions_of(partitions@).take(i as int),
        decreases partitions@.len() - i,
    {
        open.push(partitions[i].1);
        i = i + 1;
        assert(open@ =~= partitions_of(partitions@).take(i as int));
    }
    assert(open@ =~= partitions_of(partitions@));
    open
}

fn admit_light(
    state: &mut VFedState,
    config: DagMetrics,
    packing: PackingStrategy,
    num_cpu: usize,
) -> (result: Result<VFedAssignment, VFedError>)
    requires
        old(state)@.wf(),
        num_cpu <= NUM_MAX_CPU,
        is_light_dag(config),
    ensures
        admits(
            old(state)@,
            final(state)@,
            light_admission(old(state)@, config, packing, num_cpu),
            result,
        ),
        final(state)@.wf(),
        result matches Ok(assignment) ==> assignment.cpus_supported(),
{
    let ghost before = state@;
    let ghost pool_len = state.passive_pool.len();
    proof {
        lemma_pulled(config, 0, before.pool);
        assert(before.partitions.len() == state.partitions.len());
        lemma_light_cpus_supported(before, config, packing, num_cpu);
    }
    match plan_light(&config, &state.passive_pool) {
        Ok(indices) => {
            proof {
                lemma_without_indices_wf(before.pool, indices@);
            }
            let passive = take_indices(&mut state.passive_pool, &indices);
            assert(state@ =~= (light_admission(before, config, packing, num_cpu)->Ok_0).0);
            Ok(VFedAssignment::LightPassive { passive })
        },
        Err(_) => admit_light_partitioned(state, config, packing, num_cpu),
    }
}

/// The fallback for a light DAG that no passive VP can serve.
fn admit_light_partitioned(
    state: &mut VFedState,
    config: DagMetrics,
    packing: PackingStrategy,
    num_cpu: usize,
) -> (result: Result<VFedAssignment, VFedError>)
    requires
        old(state)@.wf(),
        num_cpu <= NUM_MAX_CPU,
        is_light_dag(config),
        pulled(config, 0, old(state)@.pool) is None,
    ensures
        admits(
            old(state)@,
            final(state)@,
            light_admission(old(state)@, config, packing, num_cpu),
            result,
        ),
        final(state)@.wf(),
        result matches Ok(assignment) ==> assignment.cpus_supported(),
{
    let density_scaled: u64 = utilization_scaled(config.volume, config.relative_deadline);
    let existing = open_partitions(&state.partitions);
    let ghost before = state.partitions@;
    proof {
        assert(state@.pool.len() == state.passive_pool.len());
        assert(existing@.len() == existing.len());
        lemma_light_cpus_supported(state@, config, packing, num_cpu);
        lemma_chosen_partition(packing, existing@, density_scaled);
        lemma_scaled_ratio_at_most_one(config.volume as int, config.relative_deadline as int);
    }
    match choose_partition(packing, &existing, density_scaled) {
        Some(index) => {
            let (cpu, partition) = state.partitions[index];
            assert(existing@[index as int] == partition);
            let more: u64 = partition.committed_density_scaled + density_scaled;
            state.partitions.set(index, (cpu, Partition { committed_density_scaled: more }));
            assert(partitions_of(state.partitions@) =~= existing@.update(
                index as int,
                Partition { committed_density_scaled: more },
            ));
            Ok(VFedAssignment::LightPartitioned { cpu })
        },
        None => match claim_cores(&mut state.ledger, num_cpu, 1) {
            Err(error) => Err(VFedError::Resource(error)),
            Ok(cpus) => {
                let cpu: usize = cpus[0];
                let partition = Partition { committed_density_scaled: density_scaled };
                state.partitions.push((cpu, partition));
                assert(partitions_of(state.partitions@) =~= existing@.push(partition));
                Ok(VFedAssignment::LightPartitioned { cpu })
            },
        },
    }
}

/// Admits one DAG against what is currently free. Each call commits by itself.
pub fn admit_one(
    state: &mut VFedState,
    config: DagMetrics,
    packing: PackingStrategy,
    num_cpu: usize,
) -> (result: Result<VFedAssignment, VFedError>)
    requires
        old(state)@.wf(),
        num_cpu <= NUM_MAX_CPU,
    ensures
        admits(
            old(state)@,
            final(state)@,
            admission(old(state)@, config, packing, num_cpu),
            result,
        ),
        final(state)@.wf(),
        result matches Ok(assignment) ==> assignment.cpus_supported(),
{
    match classify(&config) {
        Err(error) => Err(error),
        Ok(class) => match class {
            TaskClass::Heavy { .. } => admit_heavy(state, config, num_cpu),
            TaskClass::Light => admit_light(state, config, packing, num_cpu),
        },
    }
}

/// The budgets of active VPs.
pub open spec fn budgets_of(active: Seq<ActiveVp>) -> Seq<u64> {
    Seq::new(active.len(), |i: int| active[i].budget)
}

/// What a DAG is assigned suffices for it: a heavy DAG's active budgets and passive
/// VPs, or a light DAG's passive VPs, meet the schedulability condition. (A
/// partitioned core is held to its capacity instead.)
pub open spec fn suffices(config: DagMetrics, assignment: VFedAssignmentView) -> bool {
    match assignment {
        VFedAssignmentView::Heavy { active, passive } => schedulable(
            config,
            sum(budgets_of(active)),
            passive,
        ),
        VFedAssignmentView::LightPassive { passive } => schedulable(config, 0, passive),
        VFedAssignmentView::LightPartitioned { .. } => true,
    }
}

/// An admitted DAG is schedulable with what it is assigned.
pub proof fn lemma_admitted_is_schedulable(
    state: VFedStateView,
    config: DagMetrics,
    packing: PackingStrategy,
    num_cpu: usize,
)
    requires
        state.wf(),
        state.pool.len() <= usize::MAX,
        num_cpu <= NUM_MAX_CPU,
        admission(state, config, packing, num_cpu) is Ok,
    ensures
        suffices(config, (admission(state, config, packing, num_cpu)->Ok_0).1),
{
    let free = free_workers(state.claimed, num_cpu);
    lemma_free_workers(state.claimed, num_cpu, num_cpu as int);
    match class_of(config) {
        Ok(TaskClass::Heavy { .. }) => {
            let plan = heavy_plan(config, free.len() as u16, state.pool)->Ok_0;
            lemma_heavy_plan_is_schedulable(config, free.len() as u16, state.pool);
            let active = active_vps(free.take(plan.cores_used as int), plan.active_budgets);
            assert(budgets_of(active) =~= plan.active_budgets);
        },
        Ok(TaskClass::Light) => {
            lemma_pulled(config, 0, state.pool);
        },
        Err(_) => {},
    }
}

/// The CPUs of active VPs.
pub open spec fn active_cpus(active: Seq<ActiveVp>) -> Set<usize> {
    Seq::new(active.len(), |i: int| active[i].cpu).to_set()
}

/// The CPUs of passive VPs.
pub open spec fn passive_cpus(passive: Seq<PassiveVpView>) -> Set<usize> {
    Seq::new(passive.len(), |i: int| passive[i].cpu).to_set()
}

fn active_cpu_set(active: &Vec<ActiveVp>) -> (set: CpuSet)
    requires
        active_supported(active@),
    ensures
        cpu_set_view(set) == active_cpus(active@),
{
    let ghost cpus = Seq::new(active@.len(), |i: int| active@[i].cpu);
    let mut set = cpu_set_empty();
    let mut i: usize = 0;
    assert(cpus.take(0).to_set() =~= Set::<usize>::empty());
    while i < active.len()
        invariant
            i <= active@.len(),
            cpus == Seq::new(active@.len(), |k: int| active@[k].cpu),
            active_supported(active@),
            cpu_set_view(set) == cpus.take(i as int).to_set(),
        decreases active@.len() - i,
    {
        set = cpu_set_with(set, active[i].cpu);
        proof {
            lemma_take_one_more(cpus, i as int);
        }
        i = i + 1;
    }
    assert(cpus.take(i as int) =~= cpus);
    set
}

fn passive_cpu_set(passive: &Vec<PassiveVp>) -> (set: CpuSet)
    requires
        pool_supported(vps_view(passive@)),
    ensures
        cpu_set_view(set) == passive_cpus(vps_view(passive@)),
{
    let ghost vps = vps_view(passive@);
    let ghost cpus = Seq::new(vps.len(), |i: int| vps[i].cpu);
    let mut set = cpu_set_empty();
    let mut i: usize = 0;
    assert(cpus.take(0).to_set() =~= Set::<usize>::empty());
    while i < passive.len()
        invariant
            i <= passive@.len(),
            vps == vps_view(passive@),
            cpus == Seq::new(vps.len(), |k: int| vps[k].cpu),
            pool_supported(vps),
            cpu_set_view(set) == cpus.take(i as int).to_set(),
        decreases passive@.len() - i,
    {
        assert(vps[i as int] == passive@[i as int]@);
        set = cpu_set_with(set, passive[i].cpu);
        proof {
            lemma_take_one_more(cpus, i as int);
        }
        i = i + 1;
    }
    assert(cpus.take(i as int) =~= cpus);
    set
}

/// Whether `class` is the scheduler class of every node of a DAG with this assignment: active
/// VPs alone, active VPs topped up with passive ones, passive VPs, or EDF on one core. There
/// is none for a heavy DAG without any VP.
pub open spec fn runs_under(
    assignment: VFedAssignmentView,
    relative_deadline: u64,
    class: Option<SchedulerType>,
) -> bool {
    match assignment {
        VFedAssignmentView::Heavy { active, passive } => if passive.len() == 0 {
            if active.len() == 0 {
                class is None
            } else {
                class matches Some(SchedulerType::ActiveVp(set, leading)) && cpu_set_view(set)
                    == active_cpus(active) && leading == active[0].cpu
            }
        } else {
            class matches Some(SchedulerType::MixedVp(own, leading, borrowed)) && cpu_set_view(own)
                == active_cpus(active) && cpu_set_view(borrowed) == passive_cpus(passive)
                && leading == if active.len() == 0 {
                0
            } else {
                active[0].cpu
            }
        },
        VFedAssignmentView::LightPassive { passive } => {
            class matches Some(SchedulerType::PassiveVp(set)) && cpu_set_view(set) == passive_cpus(
                passive,
            )
        },
        VFedAssignmentView::LightPartitioned { cpu } => {
            class matches Some(SchedulerType::ClusteredEDF(deadline, set)) && deadline
                == relative_deadline && cpu_set_view(set) == set![cpu]
        },
    }
}

fn is_active_supported(active: &Vec<ActiveVp>) -> (supported: bool)
    ensures
        supported == active_supported(active@),
{
    let mut i: usize = 0;
    while i < active.len()
        invariant
            i <= active@.len(),
            forall|k: int| 0 <= k < i ==> (#[trigger] active@[k]).cpu < NUM_MAX_CPU,
        decreases active@.len() - i,
    {
        if active[i].cpu >= NUM_MAX_CPU {
            return false;
        }
        i = i + 1;
    }
    true
}

fn is_pool_supported(passive: &Vec<PassiveVp>) -> (supported: bool)
    ensures
        supported == pool_supported(vps_view(passive@)),
{
    let ghost views = vps_view(passive@);
    let mut i: usize = 0;
    while i < passive.len()
        invariant
            i <= passive@.len(),
            views == vps_view(passive@),
            forall|k: int| 0 <= k < i ==> (#[trigger] views[k]).cpu < NUM_MAX_CPU,
        decreases passive@.len() - i,
    {
        assert(views[i as int] == passive@[i as int]@);
        if passive[i].cpu >= NUM_MAX_CPU {
            return false;
        }
        i = i + 1;
    }
    true
}

impl VFedAssignment {
    /// Every CPU of the assignment is one that the kernel supports.
    pub open spec fn cpus_supported(&self) -> bool {
        self@.cpus_supported()
    }

    /// Tells whether every CPU of the assignment is one that the kernel supports.
    pub fn are_cpus_supported(&self) -> (supported: bool)
        ensures
            supported == self.cpus_supported(),
    {
        match self {
            VFedAssignment::Heavy { active, passive } => is_active_supported(active)
                && is_pool_supported(passive),
            VFedAssignment::LightPassive { passive } => is_pool_supported(passive),
            VFedAssignment::LightPartitioned { cpu } => *cpu < NUM_MAX_CPU,
        }
    }

    /// The scheduler class of every node of the DAG: active VPs alone, active VPs
    /// topped up with passive ones (with no active VP the leading CPU is a
    /// placeholder), passive VPs, or EDF on one core. None for a heavy DAG without
    /// any VP.
    pub fn into_scheduler_type(&self, relative_deadline: u64) -> (class: Option<SchedulerType>)
        requires
            self.cpus_supported(),
        ensures
            runs_under(self@, relative_deadline, class),
    {
        match self {
            VFedAssignment::Heavy { active, passive } => {
                let active_set = active_cpu_set(active);
                if passive.len() == 0 {
                    if active.len() == 0 {
                        None
                    } else {
                        Some(SchedulerType::ActiveVp(active_set, active[0].cpu))
                    }
                } else {
                    let leading: usize = if active.len() == 0 {
                        0
                    } else {
                        active[0].cpu
                    };
                    let passive_set = passive_cpu_set(passive);
                    Some(SchedulerType::MixedVp(active_set, leading, passive_set))
                }
            },
            VFedAssignment::LightPassive { passive } => {
                Some(SchedulerType::PassiveVp(passive_cpu_set(passive)))
            },
            VFedAssignment::LightPartitioned { cpu } => {
                let set = cpu_set_with(cpu_set_empty(), *cpu);
                assert(cpu_set_view(set) =~= set![*cpu]);
                Some(SchedulerType::ClusteredEDF(relative_deadline, set))
            },
        }
    }
}

} // verus!
