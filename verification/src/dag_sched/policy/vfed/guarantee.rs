//! What V-Fed admission guarantees to the DAGs that it admits, measured on schedules, budgets
//! and cores.

use vstd::prelude::*;

use super::batch::{
    batch_plan, density, heavy_entries, heavy_in_order, light_entries, light_in_order,
};
use super::commit::{
    active_cpus, active_vps, admission, arm_all, budgets_of, lemma_admitted_is_schedulable,
    partitions_of, passive_cpus, runs_under, suffices, ActiveVp, VFedAssignmentView,
    VFedStateView,
};
use super::commit_batch::{batch_assignments, lemma_admitted_batch_is_schedulable};
use super::idle::{idle_units, lemma_supply_is_guaranteed, owner_schedule};
use super::order::{
    is_in_order, lemma_in_order, lemma_in_order_keeps_all, places_ascend, positive_deadlines,
    PlanOrder,
};
use super::packing::{chosen_partition, lemma_chosen_partition, PackingStrategy, Partition};
use super::plan::{
    class_of, generated, heavy_plan, lemma_full_budgets_add_up, lemma_full_group,
    lemma_heavy_needs_two_cores, lemma_heavy_plan_is_schedulable, lemma_pulled,
    lemma_sum_of_equal_tail, lemma_take_conserves, partial_budgets, pulled, schedulable, select,
    sum, total_surplus, TaskClass, VFedError,
};
use super::supply::{PassiveVpKindView, PassiveVpView};
use crate::cpu::{cpu_set_view, NUM_MAX_CPU};
use crate::dag_sched::metrics::{
    lemma_core_count_is_the_fewest, meets_deadline_on, DagMetrics,
};
use crate::dag_sched::resource::{
    free_workers, lemma_free_workers, lemma_lowest_free_cores_are_taken,
    lemma_scaled_ratio_at_most_one, lemma_scaled_ratio_is_rounded_down,
};
use crate::scheduler::active_vp::ActiveVpCore;
use crate::scheduler::pool::lemma_last_worker_is_kept_for_regular_work;
use crate::scheduler::scheduler_type::SchedulerType;

verus! {

/// A DAG with a deadline longer than its period is not supported; of the others, one whose
/// critical path exceeds its deadline is infeasible, one whose volume fits into its deadline
/// is light, and one whose volume does not is heavy, with the fewest cores on which it meets
/// its deadline, if there is such a number.
pub proof fn lemma_class_follows_the_volume(config: DagMetrics)
    ensures
        ({
            let (c, l, d, t) = (
                config.volume,
                config.critical_path,
                config.relative_deadline,
                config.period,
            );
            match class_of(config) {
                Ok(TaskClass::Light) => l <= d <= t && c <= d,
                Ok(TaskClass::Heavy { required_cores }) => {
                    &&& l < d <= t && d < c
                    &&& meets_deadline_on(config, required_cores as int)
                    &&& required_cores >= 2 && !meets_deadline_on(config, required_cores - 1)
                },
                Err(VFedError::ArbitraryDeadlineNotSupported { relative_deadline, period }) => {
                    d > t && relative_deadline == d && period == t
                },
                Err(VFedError::Infeasible { critical_path, relative_deadline }) => {
                    &&& d <= t && (l > d || (c > d && (l == d || !meets_deadline_on(
                        config,
                        u16::MAX as int,
                    ))))
                    &&& critical_path == l && relative_deadline == d
                },
                Err(_) => false,
            }
        }),
{
    lemma_core_count_is_the_fewest(config);
    if class_of(config) matches Ok(TaskClass::Heavy { .. }) {
        lemma_heavy_needs_two_cores(config);
    }
}

/// The sum of the budgets of active VPs.
pub open spec fn granted(active: Seq<u64>) -> int
    decreases active.len(),
{
    if active.len() == 0 {
        0
    } else {
        granted(active.drop_last()) + active.last()
    }
}

proof fn lemma_granted_is_sum(active: Seq<u64>)
    ensures
        granted(active) == sum(active),
    decreases active.len(),
{
    if active.len() > 0 {
        lemma_granted_is_sum(active.drop_last());
    }
}

/// The plan of a heavy DAG. With the fewest cores that it needs, or more, it gets exactly so
/// many, no passive VP, and budgets that add up to its volume; with fewer it gets all of them
/// and passive VPs. The leading budget is the deadline, each other one at most what the
/// deadline leaves beyond the critical path, and in a partial group exactly that.
pub proof fn lemma_group_budgets(
    config: DagMetrics,
    cores_available: u16,
    pool: Seq<PassiveVpView>,
    required_cores: u16,
)
    requires
        class_of(config) == Ok::<TaskClass, VFedError>(TaskClass::Heavy { required_cores }),
        pool.len() <= usize::MAX,
    ensures
        heavy_plan(config, cores_available, pool) matches Ok(plan) ==> {
            let slack = config.relative_deadline - config.critical_path;
            let budgets = plan.active_budgets;
            &&& budgets.len() == plan.cores_used
            &&& budgets.len() > 0 ==> budgets[0] == config.relative_deadline
            &&& forall|i: int| 1 <= i < budgets.len() ==> 0 < (#[trigger] budgets[i]) <= slack
            &&& cores_available >= required_cores ==> {
                &&& plan.cores_used == required_cores
                &&& plan.passive_indices.len() == 0
                &&& granted(budgets) == config.volume
            }
            &&& cores_available < required_cores ==> {
                &&& plan.cores_used == cores_available
                &&& plan.passive_indices.len() > 0
                &&& forall|i: int| 1 <= i < budgets.len() ==> (#[trigger] budgets[i]) == slack
            }
        },
        heavy_plan(config, cores_available, pool) is Err ==> {
            let slack = config.relative_deadline - config.critical_path;
            let own = if cores_available == 0 {
                0
            } else {
                config.relative_deadline + (cores_available - 1) * slack
            };
            cores_available < required_cores && pool_falls_short(config, own, pool)
        },
{
    lemma_heavy_needs_two_cores(config);
    lemma_full_group(config, required_cores as int);
    lemma_full_budgets_add_up(config);
    if let Ok(plan) = heavy_plan(config, cores_available, pool) {
        lemma_granted_is_sum(plan.active_budgets);
        if cores_available < required_cores {
            lemma_pulled(config, sum(plan.active_budgets), pool);
        }
    } else {
        let (l, d) = (config.critical_path as int, config.relative_deadline as int);
        let budgets = partial_budgets(l, d, cores_available as int);
        lemma_passive_vps_are_taken_as_needed(config, sum(budgets), pool);
        if cores_available > 0 {
            lemma_sum_of_equal_tail(budgets, d, d - l);
        }
    }
}

/// Whether a passive VP may be idle for so long in an interval of length `delta`: beside an
/// active VP, in some interval of some schedule of that VP; one that is always free, for the
/// whole interval; one that shares, at least for its part of what the group guarantees.
pub open spec fn may_idle(vp: PassiveVpView, delta: int, idle: int) -> bool {
    match vp.kind {
        PassiveVpKindView::Independent { active_budget, owner_period, owner_deadline } => exists|
            busy: spec_fn(int) -> bool,
            start: int,
        |
            owner_schedule(
                busy,
                active_budget as int,
                owner_period as int,
                owner_deadline as int,
            ) && #[trigger] idle_units(busy, start, start + delta) == idle,
        PassiveVpKindView::AlwaysFree => idle == delta,
        PassiveVpKindView::Shared { .. } => idle >= vp.supply(delta),
    }
}

/// Whether these are times that passive VPs may be idle for.
pub open spec fn all_may_idle(vps: Seq<PassiveVpView>, delta: int, idle: Seq<int>) -> bool {
    &&& idle.len() == vps.len()
    &&& forall|i: int| 0 <= i < vps.len() ==> may_idle(#[trigger] vps[i], delta, idle[i])
}

/// The sum of what idle times leave beyond a critical path each.
pub open spec fn beyond(idle: Seq<int>, critical_path: int) -> int
    decreases idle.len(),
{
    if idle.len() == 0 {
        0
    } else {
        beyond(idle.drop_last(), critical_path) + if idle.last() > critical_path {
            idle.last() - critical_path
        } else {
            0
        }
    }
}

/// Whether budgets and passive VPs do for a DAG: whatever the schedules of the VPs' owners,
/// the budgets and what the passive VPs leave within the deadline, beyond the critical path
/// each, come to the DAG's volume.
pub open spec fn does_for(
    config: DagMetrics,
    budgets: Seq<u64>,
    passive: Seq<PassiveVpView>,
) -> bool {
    forall|idle: Seq<int>|
        #[trigger] all_may_idle(passive, config.relative_deadline as int, idle) ==> config.volume
            <= granted(budgets) + beyond(idle, config.critical_path as int)
}

proof fn lemma_idle_at_least_supply(vp: PassiveVpView, delta: int, idle: int)
    requires
        vp.wf(),
        0 <= delta,
        may_idle(vp, delta, idle),
    ensures
        idle >= vp.supply(delta),
{
    match vp.kind {
        PassiveVpKindView::Independent { active_budget, owner_period, owner_deadline } => {
            let (b, t, d) = (active_budget as int, owner_period as int, owner_deadline as int);
            let (busy, start) = choose|busy: spec_fn(int) -> bool, start: int|
                owner_schedule(busy, b, t, d) && #[trigger] idle_units(busy, start, start + delta)
                    == idle;
            lemma_supply_is_guaranteed(busy, start, delta, b, t, d);
        },
        _ => {},
    }
}

proof fn lemma_beyond_at_least_surplus(
    vps: Seq<PassiveVpView>,
    idle: Seq<int>,
    critical_path: int,
    deadline: int,
)
    requires
        0 <= deadline,
        all_may_idle(vps, deadline, idle),
        forall|i: int| 0 <= i < vps.len() ==> (#[trigger] vps[i]).wf(),
    ensures
        total_surplus(vps, critical_path, deadline) <= beyond(idle, critical_path),
    decreases vps.len(),
{
    if vps.len() > 0 {
        let (rest, less) = (vps.drop_last(), idle.drop_last());
        assert forall|i: int| 0 <= i < rest.len() implies may_idle(#[trigger] rest[i], deadline, less[i])
            && rest[i].wf() by {
            assert(rest[i] == vps[i] && less[i] == idle[i]);
        }
        lemma_beyond_at_least_surplus(rest, less, critical_path, deadline);
        let last = vps.len() - 1;
        assert(may_idle(vps[last], deadline, idle[last]));
        lemma_idle_at_least_supply(vps[last], deadline, idle[last]);
    }
}

proof fn lemma_schedulable_does(config: DagMetrics, budgets: Seq<u64>, passive: Seq<PassiveVpView>)
    requires
        schedulable(config, sum(budgets), passive),
        forall|i: int| 0 <= i < passive.len() ==> (#[trigger] passive[i]).wf(),
    ensures
        does_for(config, budgets, passive),
{
    lemma_granted_is_sum(budgets);
    assert forall|idle: Seq<int>|
        #[trigger] all_may_idle(passive, config.relative_deadline as int, idle) implies config.volume
        <= granted(budgets) + beyond(idle, config.critical_path as int) by {
        lemma_beyond_at_least_surplus(
            passive,
            idle,
            config.critical_path as int,
            config.relative_deadline as int,
        );
    }
}

/// Whether an assignment does for a DAG; a partition is held to its core's capacity instead.
pub open spec fn assignment_does_for(config: DagMetrics, assignment: VFedAssignmentView) -> bool {
    match assignment {
        VFedAssignmentView::Heavy { active, passive } => does_for(
            config,
            Seq::new(active.len(), |i: int| active[i].budget),
            passive,
        ),
        VFedAssignmentView::LightPassive { passive } => does_for(config, Seq::empty(), passive),
        VFedAssignmentView::LightPartitioned { .. } => true,
    }
}

proof fn lemma_sufficient_does(config: DagMetrics, assignment: VFedAssignmentView)
    requires
        suffices(config, assignment),
        match assignment {
            VFedAssignmentView::Heavy { active, passive } => forall|i: int|
                0 <= i < passive.len() ==> (#[trigger] passive[i]).wf(),
            VFedAssignmentView::LightPassive { passive } => forall|i: int|
                0 <= i < passive.len() ==> (#[trigger] passive[i]).wf(),
            VFedAssignmentView::LightPartitioned { .. } => true,
        },
    ensures
        assignment_does_for(config, assignment),
{
    match assignment {
        VFedAssignmentView::Heavy { active, passive } => {
            let budgets = budgets_of(active);
            assert(budgets =~= Seq::new(active.len(), |i: int| active[i].budget));
            lemma_schedulable_does(config, budgets, passive);
        },
        VFedAssignmentView::LightPassive { passive } => {
            assert(sum(Seq::<u64>::empty()) == 0);
            lemma_schedulable_does(config, Seq::empty(), passive);
        },
        VFedAssignmentView::LightPartitioned { .. } => {},
    }
}

/// A DAG that is admitted alone can do its work in time: whatever the other DAGs' schedules,
/// the budgets that it is given and what its passive VPs leave come to its volume.
pub proof fn lemma_admitted_dag_is_served(
    state: VFedStateView,
    config: DagMetrics,
    packing: PackingStrategy,
    num_cpu: usize,
)
    requires
        state.wf(),
        state.pool.len() <= usize::MAX,
        num_cpu <= NUM_MAX_CPU,
        admission(state, config, packing, num_cpu) is Ok,
    ensures
        assignment_does_for(config, (admission(state, config, packing, num_cpu)->Ok_0).1),
{
    let assignment = (admission(state, config, packing, num_cpu)->Ok_0).1;
    lemma_admitted_is_schedulable(state, config, packing, num_cpu);
    let free = free_workers(state.claimed, num_cpu);
    lemma_free_workers(state.claimed, num_cpu, num_cpu as int);
    match class_of(config) {
        Ok(TaskClass::Heavy { .. }) => {
            lemma_heavy_plan_is_schedulable(config, free.len() as u16, state.pool);
            let plan = heavy_plan(config, free.len() as u16, state.pool)->Ok_0;
            lemma_selected_wf(state.pool, plan.passive_indices);
        },
        Ok(TaskClass::Light) => {
            lemma_pulled(config, 0, state.pool);
            if let Some(indices) = pulled(config, 0, state.pool) {
                lemma_selected_wf(state.pool, indices);
            }
        },
        Err(_) => {},
    }
    lemma_sufficient_does(config, assignment);
}

proof fn lemma_selected_wf(pool: Seq<PassiveVpView>, indices: Seq<usize>)
    requires
        super::plan::pool_wf(pool),
        super::plan::ascending_below(indices, pool.len() as int),
    ensures
        forall|i: int|
            0 <= i < select(pool, indices).len() ==> (#[trigger] select(pool, indices)[i]).wf(),
{
    let taken = select(pool, indices);
    assert forall|i: int| 0 <= i < taken.len() implies (#[trigger] taken[i]).wf() by {
        assert(taken[i] == pool[indices[i] as int]);
        assert(indices[i] < pool.len());
    }
}

/// The sum of what passive VPs supply within a deadline, beyond a critical path each.
pub open spec fn supplied_beyond(
    pool: Seq<PassiveVpView>,
    critical_path: int,
    deadline: int,
) -> int
    decreases pool.len(),
{
    if pool.len() == 0 {
        0
    } else {
        supplied_beyond(pool.drop_last(), critical_path, deadline) + if pool.last().supply(deadline)
            > critical_path {
            pool.last().supply(deadline) - critical_path
        } else {
            0
        }
    }
}

proof fn lemma_supplied_beyond_is_surplus(
    pool: Seq<PassiveVpView>,
    critical_path: int,
    deadline: int,
)
    ensures
        supplied_beyond(pool, critical_path, deadline) == total_surplus(
            pool,
            critical_path,
            deadline,
        ),
    decreases pool.len(),
{
    if pool.len() > 0 {
        lemma_supplied_beyond_is_surplus(pool.drop_last(), critical_path, deadline);
    }
}

/// Whether no passive VP of a pool supplies more than the critical path within the deadline, or
/// all of them together leave some of the volume.
pub open spec fn pool_falls_short(
    config: DagMetrics,
    active_sum: int,
    pool: Seq<PassiveVpView>,
) -> bool {
    let (l, d) = (config.critical_path as int, config.relative_deadline as int);
    ||| forall|i: int| 0 <= i < pool.len() ==> (#[trigger] pool[i]).supply(d) <= l
    ||| active_sum + supplied_beyond(pool, l, d) < config.volume
}

/// Passive VPs are refused only where the whole pool falls short. Those that are taken are
/// taken in the pool's order, each supplies more than the critical path, none that does is
/// skipped before the last of them, and without the last they would not do.
pub proof fn lemma_passive_vps_are_taken_as_needed(
    config: DagMetrics,
    active_sum: int,
    pool: Seq<PassiveVpView>,
)
    requires
        pool.len() <= usize::MAX,
    ensures
        ({
            let (l, d) = (config.critical_path as int, config.relative_deadline as int);
            match pulled(config, active_sum, pool) {
                None => pool_falls_short(config, active_sum, pool),
                Some(indices) => {
                    &&& indices.len() > 0
                    &&& forall|k: int| 0 <= k < indices.len() ==> (#[trigger] indices[k])
                        < pool.len() && pool[indices[k] as int].supply(d) > l
                    &&& forall|j: int, k: int| 0 <= j < k < indices.len() ==> indices[j] < indices[k]
                    &&& forall|i: int|
                        0 <= i <= indices.last() && (#[trigger] pool[i]).supply(d) > l
                            ==> indices.contains(i as usize)
                    &&& active_sum + supplied_beyond(select(pool, indices), l, d) >= config.volume
                    &&& indices.len() > 1 ==> active_sum + supplied_beyond(
                        select(pool, indices.drop_last()),
                        l,
                        d,
                    ) < config.volume
                },
            }
        }),
{
    let (l, d) = (config.critical_path as int, config.relative_deadline as int);
    lemma_pulled(config, active_sum, pool);
    lemma_supplied_beyond_is_surplus(pool, l, d);
    match pulled(config, active_sum, pool) {
        None => {
            if forall|i: int|
                0 <= i < pool.len() ==> !super::plan::is_useful(#[trigger] pool[i], l, d) {
                assert forall|i: int| 0 <= i < pool.len() implies (#[trigger] pool[i]).supply(d)
                    <= l by {
                    assert(!super::plan::is_useful(pool[i], l, d));
                }
            }
        },
        Some(indices) => {
            lemma_supplied_beyond_is_surplus(select(pool, indices), l, d);
            lemma_supplied_beyond_is_surplus(select(pool, indices.drop_last()), l, d);
            let n = indices.last() + 1;
            super::plan::lemma_useful_below(pool, l, d, n);
            assert forall|k: int| 0 <= k < indices.len() implies (#[trigger] indices[k])
                < pool.len() && pool[indices[k] as int].supply(d) > l by {
                assert(super::plan::is_useful(pool[indices[k] as int], l, d));
            }
            assert forall|i: int|
                0 <= i <= indices.last() && (#[trigger] pool[i]).supply(d)
                    > l implies indices.contains(i as usize) by {
                assert(super::plan::is_useful(pool[i], l, d));
            }
        },
    }
}

/// Every DAG of an admitted batch can do its work in time.
pub proof fn lemma_admitted_batch_is_served(
    before: VFedStateView,
    configs: Seq<DagMetrics>,
    packing: PackingStrategy,
    num_cpu: usize,
    assignments: Seq<VFedAssignmentView>,
    place: int,
)
    requires
        num_cpu <= NUM_MAX_CPU,
        configs.len() <= usize::MAX,
        ({
            let free = free_workers(before.claimed, num_cpu);
            let plan = batch_plan(configs, free.len() as u16, packing);
            plan is Ok && batch_assignments(before.budgets, plan->Ok_0, free, assignments)
        }),
        0 <= place < configs.len(),
    ensures
        assignment_does_for(configs[place], assignments[place]),
{
    lemma_admitted_batch_is_schedulable(before, configs, packing, num_cpu, assignments, place);
    super::commit_batch::lemma_batch_passives_wf(
        before,
        configs,
        packing,
        num_cpu,
        assignments,
        place,
    );
    lemma_sufficient_does(configs[place], assignments[place]);
}

/// Whether `amount` is the volume over the deadline in parts per million, rounded down.
pub open spec fn is_density_of(amount: int, config: DagMetrics) -> bool {
    amount * config.relative_deadline <= config.volume * 1_000_000 < (amount + 1)
        * config.relative_deadline
}

/// The density of a light DAG is its volume over its deadline in parts per million, rounded
/// down, and at most one.
pub proof fn lemma_density_is_rounded_down(config: DagMetrics)
    requires
        class_of(config) == Ok::<TaskClass, VFedError>(TaskClass::Light),
        0 < config.volume,
        config.volume * 1_000_000 <= u64::MAX,
    ensures
        is_density_of(density(config) as int, config),
        density(config) <= 1_000_000,
{
    let (v, d) = (config.volume as int, config.relative_deadline as int);
    lemma_scaled_ratio_is_rounded_down(v, d);
    lemma_scaled_ratio_at_most_one(v, d);
}

/// What admitting a light DAG does. Passive VPs serve it if they do; else a partition with
/// room, or a new one on a free core of its own, commits its density, and no more than one
/// core in all. It is refused only if the passive VPs fall short, no partition has room for
/// its density, and no core is free.
pub proof fn lemma_light_dag_is_placed(
    state: VFedStateView,
    config: DagMetrics,
    packing: PackingStrategy,
    num_cpu: usize,
)
    requires
        state.wf(),
        state.pool.len() <= usize::MAX,
        state.partitions.len() <= usize::MAX,
        num_cpu <= NUM_MAX_CPU,
        class_of(config) == Ok::<TaskClass, VFedError>(TaskClass::Light),
        0 < config.volume,
        config.volume * 1_000_000 <= u64::MAX,
    ensures
        match admission(state, config, packing, num_cpu) {
            Ok((after, VFedAssignmentView::LightPassive { .. })) => {
                &&& !pool_falls_short(config, 0, state.pool)
                &&& after.partitions == state.partitions
                &&& after.claimed == state.claimed
            },
            Ok((after, VFedAssignmentView::LightPartitioned { cpu })) => {
                &&& pool_falls_short(config, 0, state.pool)
                &&& after.pool == state.pool
                &&& joins_partition(state.partitions, after.partitions, cpu, config)
                    || opens_partition(state.partitions, after.partitions, cpu, config)
            },
            Ok((_, VFedAssignmentView::Heavy { .. })) => false,
            Err(_) => {
                &&& pool_falls_short(config, 0, state.pool)
                &&& no_room(state.partitions, config)
                &&& free_workers(state.claimed, num_cpu).len() == 0
            },
        },
{
    lemma_density_is_rounded_down(config);
    lemma_passive_vps_are_taken_as_needed(config, 0, state.pool);
    let open = partitions_of(state.partitions);
    lemma_chosen_partition(packing, open, density(config));
    lemma_free_workers(state.claimed, num_cpu, num_cpu as int);
    match pulled(config, 0, state.pool) {
        Some(indices) => {
            lemma_taken_pool_does_not_fall_short(config, state.pool, indices);
        },
        None => match chosen_partition(packing, open, density(config)) {
            Some(index) => {
                let i = index as int;
                assert(open[i] == state.partitions[i].1);
                let (after, assignment) = admission(state, config, packing, num_cpu)->Ok_0;
                let cpu = assignment->LightPartitioned_cpu;
                let amount = after.partitions[i].1.committed_density_scaled
                    - state.partitions[i].1.committed_density_scaled;
                assert(amount == density(config));
                assert(joins_at(state.partitions, after.partitions, cpu, config, i));
            },
            None => {
                assert(no_room(state.partitions, config)) by {
                    assert forall|i: int, amount: int|
                        0 <= i < state.partitions.len() && #[trigger] is_density_of(
                            amount,
                            config,
                        ) implies (
                    #[trigger] state.partitions[i]).1.committed_density_scaled + amount
                        > 1_000_000 by {
                        lemma_density_is_unique(config, amount, density(config) as int);
                        assert(open[i].room() < density(config));
                        assert(open[i].committed_density_scaled <= 1_000_000);
                    }
                }
                if free_workers(state.claimed, num_cpu).len() > 0 {
                    let (after, assignment) = admission(state, config, packing, num_cpu)->Ok_0;
                    assert(after.partitions.last().1.committed_density_scaled == density(config));
                }
            },
        },
    }
}

proof fn lemma_density_is_unique(config: DagMetrics, a: int, b: int)
    requires
        0 < config.relative_deadline,
        is_density_of(a, config),
        is_density_of(b, config),
    ensures
        a == b,
{
    let d = config.relative_deadline as int;
    assert(a == b) by (nonlinear_arith)
        requires
            a * d < (b + 1) * d,
            b * d < (a + 1) * d,
            0 < d,
    ;
}

proof fn lemma_taken_pool_does_not_fall_short(
    config: DagMetrics,
    pool: Seq<PassiveVpView>,
    indices: Seq<usize>,
)
    requires
        pool.len() <= usize::MAX,
        pulled(config, 0, pool) == Some(indices),
    ensures
        !pool_falls_short(config, 0, pool),
{
    let (l, d) = (config.critical_path as int, config.relative_deadline as int);
    lemma_pulled(config, 0, pool);
    lemma_passive_vps_are_taken_as_needed(config, 0, pool);
    lemma_supplied_beyond_is_surplus(pool, l, d);
    let n = indices.last() + 1;
    assert(indices[indices.len() - 1] < pool.len());
    super::plan::lemma_useful_below(pool, l, d, n);
    super::plan::lemma_total_surplus_grows(pool, l, d, n, pool.len() as int);
    assert(pool.take(pool.len() as int) =~= pool);
    let first = indices[0] as int;
    assert(pool[first].supply(d) > l);
}

/// Whether the DAG joins the partition at place `i`, which is on `cpu`: its density is added
/// there, which keeps within one core, and nothing else changes.
pub open spec fn joins_at(
    before: Seq<(usize, Partition)>,
    after: Seq<(usize, Partition)>,
    cpu: usize,
    config: DagMetrics,
    i: int,
) -> bool {
    let amount = after[i].1.committed_density_scaled - before[i].1.committed_density_scaled;
    &&& 0 <= i < before.len() == after.len()
    &&& before[i].0 == cpu
    &&& after[i].0 == cpu
    &&& is_density_of(amount, config)
    &&& after[i].1.committed_density_scaled <= 1_000_000
    &&& forall|k: int| 0 <= k < before.len() && k != i ==> (#[trigger] after[k]) == before[k]
}

/// Whether the DAG joins a partition that is open on `cpu`.
pub open spec fn joins_partition(
    before: Seq<(usize, Partition)>,
    after: Seq<(usize, Partition)>,
    cpu: usize,
    config: DagMetrics,
) -> bool {
    exists|i: int| #[trigger] joins_at(before, after, cpu, config, i)
}

/// Whether no open partition has room for the DAG's density.
pub open spec fn no_room(partitions: Seq<(usize, Partition)>, config: DagMetrics) -> bool {
    forall|i: int, amount: int|
        0 <= i < partitions.len() && #[trigger] is_density_of(amount, config) ==> (
        #[trigger] partitions[i]).1.committed_density_scaled + amount > 1_000_000
}

/// Whether a partition is opened for the DAG on `cpu`, with its density, because none has room
/// for it.
pub open spec fn opens_partition(
    before: Seq<(usize, Partition)>,
    after: Seq<(usize, Partition)>,
    cpu: usize,
    config: DagMetrics,
) -> bool {
    &&& no_room(before, config)
    &&& after.len() == before.len() + 1
    &&& after.last().0 == cpu
    &&& is_density_of(after.last().1.committed_density_scaled as int, config)
    &&& after.last().1.committed_density_scaled <= 1_000_000
    &&& forall|k: int| 0 <= k < before.len() ==> (#[trigger] after[k]) == before[k]
}

/// The heavy DAGs of a batch are planned by what their deadlines leave beyond their critical
/// paths, the least first; the light ones by density, the highest first; of equals the one
/// that comes first in the batch. Each list holds every DAG of its class, and no other, once.
pub proof fn lemma_batch_order(configs: Seq<DagMetrics>)
    requires
        configs.len() <= usize::MAX,
    ensures
        ({
            let heavy = heavy_in_order(configs);
            forall|i: int, j: int|
                #![trigger heavy[i], heavy[j]]
                0 <= i < j < heavy.len() ==> {
                    let a = heavy[i].1.relative_deadline - heavy[i].1.critical_path;
                    let b = heavy[j].1.relative_deadline - heavy[j].1.critical_path;
                    a < b || (a == b && heavy[i].0 < heavy[j].0)
                }
        }),
        (forall|i: int|
            0 <= i < configs.len() ==> (#[trigger] configs[i]).relative_deadline > 0) ==> ({
            let light = light_in_order(configs);
            forall|i: int, j: int|
                #![trigger light[i], light[j]]
                0 <= i < j < light.len() ==> {
                    let a = light[i].1.volume * light[j].1.relative_deadline;
                    let b = light[j].1.volume * light[i].1.relative_deadline;
                    a > b || (a == b && light[i].0 < light[j].0)
                }
        }),
        heavy_in_order(configs).to_multiset() == heavy_entries(
            configs,
            configs.len() as int,
        ).to_multiset(),
        light_in_order(configs).to_multiset() == light_entries(
            configs,
            configs.len() as int,
        ).to_multiset(),
{
    let n = configs.len() as int;
    lemma_entries_ascend(configs, n);
    let heavy = heavy_entries(configs, n);
    let light = light_entries(configs, n);
    lemma_in_order_keeps_all(PlanOrder::AscendingLaxity, heavy);
    lemma_in_order_keeps_all(PlanOrder::DescendingDensity, light);
    lemma_in_order(PlanOrder::AscendingLaxity, heavy);
    let sorted = heavy_in_order(configs);
    assert(is_in_order(PlanOrder::AscendingLaxity, sorted));
    if forall|i: int| 0 <= i < configs.len() ==> (#[trigger] configs[i]).relative_deadline > 0 {
        assert(positive_deadlines(light)) by {
            assert forall|i: int| 0 <= i < light.len() implies (
            #[trigger] light[i]).1.relative_deadline > 0 by {
                assert(light[i].1 == configs[light[i].0 as int]);
            }
        }
        lemma_in_order(PlanOrder::DescendingDensity, light);
    }
}

proof fn lemma_entries_ascend(configs: Seq<DagMetrics>, n: int)
    requires
        0 <= n <= configs.len() <= usize::MAX,
    ensures
        places_ascend(heavy_entries(configs, n)),
        places_ascend(light_entries(configs, n)),
        positive_deadlines(heavy_entries(configs, n)),
        forall|i: int|
            0 <= i < heavy_entries(configs, n).len() ==> (#[trigger] heavy_entries(configs, n)[i]).0
                < n && heavy_entries(configs, n)[i].1 == configs[heavy_entries(configs, n)[i].0 as int],
        forall|i: int|
            0 <= i < light_entries(configs, n).len() ==> (#[trigger] light_entries(configs, n)[i]).0
                < n && light_entries(configs, n)[i].1 == configs[light_entries(configs, n)[i].0 as int],
    decreases n,
{
    if n > 0 {
        lemma_entries_ascend(configs, n - 1);
        if super::batch::is_heavy_dag(configs[n - 1]) {
            lemma_heavy_needs_two_cores(configs[n - 1]);
        }
    }
}

/// An admitted heavy DAG takes the passive VPs that it is assigned out of the pool, and leaves
/// one behind on each of its cores: what its own active VP there leaves, where it can use all
/// of them at once. It is armed with the budgets that it is assigned. An admitted light DAG
/// takes what it is assigned and leaves none.
pub proof fn lemma_pool_is_conserved(
    state: VFedStateView,
    config: DagMetrics,
    packing: PackingStrategy,
    num_cpu: usize,
)
    requires
        state.wf(),
        state.pool.len() <= usize::MAX,
        num_cpu <= NUM_MAX_CPU,
        admission(state, config, packing, num_cpu) is Ok,
    ensures
        ({
            let (after, assignment) = admission(state, config, packing, num_cpu)->Ok_0;
            match assignment {
                VFedAssignmentView::Heavy { active, passive } => {
                    let n = active.len() as int;
                    let kept = after.pool.len() - n;
                    &&& kept == state.pool.len() - passive.len()
                    &&& after.pool.take(kept).to_multiset().add(passive.to_multiset())
                        == state.pool.to_multiset()
                    &&& forall|i: int|
                        0 <= i < n ==> after.pool[kept + i].cpu == (#[trigger] active[i]).cpu
                    &&& n <= config.max_parallelism ==> forall|i: int|
                        0 <= i < n ==> after.pool[kept + i].kind == (
                        PassiveVpKindView::Independent {
                            active_budget: (#[trigger] active[i]).budget,
                            owner_period: config.period,
                            owner_deadline: config.relative_deadline,
                        })
                    &&& after.budgets == arm_all(state.budgets, active)
                    &&& after.partitions == state.partitions
                    &&& after.light_utilization_scaled == state.light_utilization_scaled
                },
                VFedAssignmentView::LightPassive { passive } => {
                    &&& after.pool.to_multiset().add(passive.to_multiset())
                        == state.pool.to_multiset()
                    &&& after.budgets == state.budgets
                },
                VFedAssignmentView::LightPartitioned { .. } => {
                    &&& after.pool == state.pool
                    &&& after.budgets == state.budgets
                },
            }
        }),
{
    let (after, assignment) = admission(state, config, packing, num_cpu)->Ok_0;
    let free = free_workers(state.claimed, num_cpu);
    lemma_free_workers(state.claimed, num_cpu, num_cpu as int);
    match class_of(config) {
        Ok(TaskClass::Heavy { .. }) => {
            let plan = heavy_plan(config, free.len() as u16, state.pool)->Ok_0;
            lemma_heavy_plan_is_schedulable(config, free.len() as u16, state.pool);
            lemma_take_conserves(state.pool, plan.passive_indices);
            super::plan::lemma_without_indices_len(state.pool, plan.passive_indices);
            let left = super::plan::without_indices(state.pool, plan.passive_indices);
            let kept = left.len() as int;
            assert(after.pool.take(kept) =~= left);
        },
        Ok(TaskClass::Light) => {
            lemma_pulled(config, 0, state.pool);
            if let Some(indices) = pulled(config, 0, state.pool) {
                lemma_take_conserves(state.pool, indices);
            }
        },
        Err(_) => {},
    }
}

/// A group's cores are armed with its budgets: each core of the group has the budget of its
/// active VP, all of it left, and no other core changes.
pub proof fn lemma_group_is_armed(table: Seq<ActiveVpCore>, active: Seq<ActiveVp>)
    requires
        forall|i: int| 0 <= i < active.len() ==> (#[trigger] active[i]).cpu < table.len(),
        forall|i: int, j: int| 0 <= i < j < active.len() ==> active[i].cpu != active[j].cpu,
    ensures
        ({
            let after = arm_all(table, active);
            &&& after.len() == table.len()
            &&& forall|i: int|
                0 <= i < active.len() ==> {
                    let core = after[(#[trigger] active[i]).cpu as int];
                    core.initial_budget == active[i].budget && core.remaining == active[i].budget
                }
            &&& forall|c: int|
                0 <= c < table.len() && (forall|i: int|
                    0 <= i < active.len() ==> (#[trigger] active[i]).cpu != c) ==> (
                #[trigger] after[c]) == table[c]
        }),
    decreases active.len(),
{
    if active.len() > 0 {
        let rest = active.drop_last();
        assert forall|i: int| 0 <= i < rest.len() implies (#[trigger] rest[i]).cpu < table.len() by {
            assert(rest[i] == active[i]);
        }
        assert forall|i: int, j: int| 0 <= i < j < rest.len() implies rest[i].cpu
            != rest[j].cpu by {
            assert(rest[i] == active[i] && rest[j] == active[j]);
        }
        lemma_group_is_armed(table, rest);
        let before = arm_all(table, rest);
        let after = arm_all(table, active);
        let last = active.len() - 1;
        assert forall|i: int| 0 <= i < active.len() implies {
            let core = after[(#[trigger] active[i]).cpu as int];
            core.initial_budget == active[i].budget && core.remaining == active[i].budget
        } by {
            if i < last {
                assert(rest[i] == active[i]);
                assert(active[i].cpu != active[last].cpu);
            }
        }
        assert forall|c: int|
            0 <= c < table.len() && (forall|i: int|
                0 <= i < active.len() ==> (#[trigger] active[i]).cpu != c) implies (
        #[trigger] after[c]) == table[c] by {
            assert(active[last].cpu != c);
            assert forall|i: int| 0 <= i < rest.len() implies (#[trigger] rest[i]).cpu != c by {
                assert(rest[i] == active[i]);
            }
            assert(before[c] == table[c]);
        }
    }
}

/// What a group leaves over lies on the group's own cores, one passive VP on each. Where the
/// owner can use all of its active VPs at once, each is what its own active VP leaves. Where it
/// can use only so many, the others are always free, and so many share the rest.
pub proof fn lemma_group_leaves_its_own_cores(
    budgets: Seq<u64>,
    cpus: Seq<usize>,
    period: u64,
    deadline: u64,
    max_parallelism: u16,
)
    requires
        budgets.len() == cpus.len(),
    ensures
        ({
            let vps = generated(budgets, cpus, period, deadline, max_parallelism);
            &&& vps.len() == budgets.len()
            &&& forall|i: int| 0 <= i < vps.len() ==> (#[trigger] vps[i]).cpu == cpus[i]
            &&& budgets.len() <= max_parallelism ==> forall|i: int|
                0 <= i < vps.len() ==> (#[trigger] vps[i]).kind == (
                PassiveVpKindView::Independent {
                    active_budget: budgets[i],
                    owner_period: period,
                    owner_deadline: deadline,
                })
            &&& budgets.len() > max_parallelism ==> forall|i: int|
                0 <= i < vps.len() ==> (#[trigger] vps[i]).kind == if i + max_parallelism
                    < budgets.len() {
                    PassiveVpKindView::AlwaysFree
                } else {
                    PassiveVpKindView::Shared {
                        budgets,
                        owner_period: period,
                        owner_deadline: deadline,
                        li: max_parallelism,
                    }
                }
        }),
{
}

/// A DAG runs on the CPUs that it was assigned, and under the class that fits: active VPs alone
/// where it borrows none, a mixture where it does, borrowed ones alone for a light DAG, and EDF
/// on its one core for a partitioned one. The leading CPU is that of the first active VP.
pub proof fn lemma_dag_runs_where_it_was_assigned(
    assignment: VFedAssignmentView,
    relative_deadline: u64,
    class: Option<SchedulerType>,
)
    requires
        runs_under(assignment, relative_deadline, class),
    ensures
        match assignment {
            VFedAssignmentView::Heavy { active, passive } => match class {
                None => active.len() == 0 && passive.len() == 0,
                Some(SchedulerType::ActiveVp(set, leading)) => {
                    &&& passive.len() == 0 && active.len() > 0
                    &&& leading == active[0].cpu
                    &&& forall|cpu: usize|
                        #[trigger] cpu_set_view(set).contains(cpu) <==> exists|i: int|
                            0 <= i < active.len() && (#[trigger] active[i]).cpu == cpu
                },
                Some(SchedulerType::MixedVp(own, leading, borrowed)) => {
                    &&& passive.len() > 0
                    &&& active.len() > 0 ==> leading == active[0].cpu
                    &&& forall|cpu: usize|
                        #[trigger] cpu_set_view(own).contains(cpu) <==> exists|i: int|
                            0 <= i < active.len() && (#[trigger] active[i]).cpu == cpu
                    &&& forall|cpu: usize|
                        #[trigger] cpu_set_view(borrowed).contains(cpu) <==> exists|i: int|
                            0 <= i < passive.len() && (#[trigger] passive[i]).cpu == cpu
                },
                _ => false,
            },
            VFedAssignmentView::LightPassive { passive } => {
                &&& class matches Some(SchedulerType::PassiveVp(set))
                &&& forall|cpu: usize|
                    #[trigger] cpu_set_view(set).contains(cpu) <==> exists|i: int|
                        0 <= i < passive.len() && (#[trigger] passive[i]).cpu == cpu
            },
            VFedAssignmentView::LightPartitioned { cpu } => {
                &&& class matches Some(SchedulerType::ClusteredEDF(deadline, set))
                &&& deadline == relative_deadline
                &&& forall|c: usize| #[trigger] cpu_set_view(set).contains(c) <==> c == cpu
            },
        },
{
    match assignment {
        VFedAssignmentView::Heavy { active, passive } => {
            lemma_active_cpus(active);
            lemma_passive_cpus(passive);
        },
        VFedAssignmentView::LightPassive { passive } => {
            lemma_passive_cpus(passive);
        },
        VFedAssignmentView::LightPartitioned { .. } => {},
    }
}

proof fn lemma_active_cpus(active: Seq<ActiveVp>)
    ensures
        forall|cpu: usize|
            #[trigger] active_cpus(active).contains(cpu) <==> exists|i: int|
                0 <= i < active.len() && (#[trigger] active[i]).cpu == cpu,
{
    let list = Seq::new(active.len(), |i: int| active[i].cpu);
    assert forall|cpu: usize| #[trigger] active_cpus(active).contains(cpu) <==> exists|i: int|
        0 <= i < active.len() && (#[trigger] active[i]).cpu == cpu by {
        if list.contains(cpu) {
            let i = choose|i: int| 0 <= i < list.len() && list[i] == cpu;
            assert(active[i].cpu == cpu);
        }
        if exists|i: int| 0 <= i < active.len() && (#[trigger] active[i]).cpu == cpu {
            let i = choose|i: int| 0 <= i < active.len() && (#[trigger] active[i]).cpu == cpu;
            assert(list[i] == cpu);
        }
    }
}

proof fn lemma_passive_cpus(passive: Seq<PassiveVpView>)
    ensures
        forall|cpu: usize|
            #[trigger] passive_cpus(passive).contains(cpu) <==> exists|i: int|
                0 <= i < passive.len() && (#[trigger] passive[i]).cpu == cpu,
{
    let list = Seq::new(passive.len(), |i: int| passive[i].cpu);
    assert forall|cpu: usize| #[trigger] passive_cpus(passive).contains(cpu) <==> exists|i: int|
        0 <= i < passive.len() && (#[trigger] passive[i]).cpu == cpu by {
        if list.contains(cpu) {
            let i = choose|i: int| 0 <= i < list.len() && list[i] == cpu;
            assert(passive[i].cpu == cpu);
        }
        if exists|i: int| 0 <= i < passive.len() && (#[trigger] passive[i]).cpu == cpu {
            let i = choose|i: int| 0 <= i < passive.len() && (#[trigger] passive[i]).cpu == cpu;
            assert(list[i] == cpu);
        }
    }
}

/// The cores of an admitted group were free DAG workers, ascend, and are claimed from then on.
/// A free worker that the group does not take is above all of them, and nothing else is
/// claimed.
pub proof fn lemma_group_takes_the_lowest_cores(
    state: VFedStateView,
    config: DagMetrics,
    packing: PackingStrategy,
    num_cpu: usize,
    i: int,
    other: usize,
)
    requires
        num_cpu <= NUM_MAX_CPU,
        admission(state, config, packing, num_cpu) matches Ok((_, assignment))
            && assignment is Heavy,
        0 <= i < ((admission(state, config, packing, num_cpu)->Ok_0).1->Heavy_active).len(),
    ensures
        ({
            let (after, assignment) = admission(state, config, packing, num_cpu)->Ok_0;
            let active = assignment->Heavy_active;
            let cpu = active[i].cpu;
            &&& !state.claimed.contains(cpu)
            &&& after.claimed.contains(cpu)
            &&& 1 <= cpu < num_cpu
            &&& cpu < num_cpu - 1 || num_cpu == 2
            &&& forall|j: int| i < j < active.len() ==> cpu < (#[trigger] active[j]).cpu
            &&& after.claimed.contains(other) && !state.claimed.contains(other) ==> exists|j: int|
                0 <= j < active.len() && (#[trigger] active[j]).cpu == other
            &&& !after.claimed.contains(other) && 1 <= other < num_cpu - 1 ==> cpu < other
        }),
{
    let free = free_workers(state.claimed, num_cpu);
    lemma_free_workers(state.claimed, num_cpu, num_cpu as int);
    let plan = heavy_plan(config, free.len() as u16, state.pool)->Ok_0;
    let (after, assignment) = admission(state, config, packing, num_cpu)->Ok_0;
    let active = assignment->Heavy_active;
    let count = plan.cores_used as int;
    let cpus = free.take(count);
    assert(count <= free.len());
    assert(active == active_vps(cpus, plan.active_budgets));
    let cpu = active[i].cpu;
    assert(cpus[i] == cpu && free[i] == cpu);
    assert(cpus.contains(cpu));
    assert(cpus.to_set().contains(cpu));
    lemma_last_worker_is_kept_for_regular_work(cpu as int, num_cpu as int);
    assert forall|j: int| i < j < active.len() implies cpu < (#[trigger] active[j]).cpu by {
        assert(free[j] == active[j].cpu);
        assert(free[i] < free[j]);
    }
    if after.claimed.contains(other) && !state.claimed.contains(other) {
        assert(cpus.to_set().contains(other));
        let j = choose|j: int| 0 <= j < cpus.len() && cpus[j] == other;
        assert(active[j].cpu == other);
    }
    if !after.claimed.contains(other) && 1 <= other < num_cpu - 1 {
        lemma_last_worker_is_kept_for_regular_work(other as int, num_cpu as int);
        assert(!cpus.to_set().contains(other));
        lemma_lowest_free_cores_are_taken(state.claimed, num_cpu, count, cpu, other);
    }
}

} // verus!
