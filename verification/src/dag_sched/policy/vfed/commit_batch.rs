//! Admitting a whole batch, all or nothing.

use vstd::prelude::*;

use super::batch::{
    batch_plan, configs_of, first_error, heavy_allocation, heavy_entries, heavy_in_order,
    is_heavy_dag, is_light_dag, lemma_entries, lemma_heavy_allocation,
    lemma_heavy_allocation_prefix, lemma_light_run, lemma_light_run_prefix, lemma_min_heavy_cores,
    lemma_planned_entries, light_entries, light_in_order, light_run, outcomes_view, plan_batch,
    plans_view, pool_after, within_one_core, BatchPlan, BatchPlanView, LightOutcome,
    LightOutcomeView,
};
use super::commit::{
    active_vps, arm, arm_all, budgets_of, claim_cores, lemma_pool_after_supported,
    lemma_selected_supported, partitions_of, partitions_supported, pool_supported, suffices,
    VFedAssignment, VFedAssignmentView, VFedState, VFedStateView,
};
use super::order::{in_order, lemma_in_order_keeps_all, Entry, PlanOrder};
use super::packing::{PackingStrategy, Partition};
use super::plan::{
    ascending_below, class_of, generate_passive_vps, generated, heavy_plan,
    lemma_heavy_plan_is_schedulable, lemma_pulled, pool_wf, pulled, select, take_indices,
    total_surplus, vps_view, without_indices, HeavyPlan, HeavyPlanView, VFedError,
};
use super::supply::{PassiveVp, PassiveVpKindView, PassiveVpView};
use crate::cpu::{cpu_set_view, NUM_MAX_CPU};
use crate::dag_sched::metrics::DagMetrics;
use crate::dag_sched::resource::{
    free_core_count, free_workers, lemma_free_after_claim, lemma_free_workers, PoolLedger,
};
use crate::scheduler::active_vp::{ActiveVpCore, ActiveVpTable};

verus! {

/// The state of handing the claimed cores to the heavy DAGs of a batch, in planning
/// order: how many cores are used, the passive VPs left over, and the budgets.
#[verifier::ext_equal]
pub struct HeavyCommit {
    pub used: nat,
    pub pool: Seq<PassiveVpView>,
    pub budgets: Seq<ActiveVpCore>,
}

/// The cores that the `k`-th heavy DAG gets.
pub open spec fn cores_of(
    cores: Seq<usize>,
    state: HeavyCommit,
    plan: HeavyPlanView,
) -> Seq<usize> {
    cores.subrange(state.used as int, state.used + plan.cores_used)
}

/// The state once the first `n` heavy DAGs have their cores.
pub open spec fn heavy_commit(
    heavy: Seq<Entry>,
    plans: Seq<HeavyPlanView>,
    cores: Seq<usize>,
    budgets: Seq<ActiveVpCore>,
    n: int,
) -> HeavyCommit
    decreases n,
{
    if n <= 0 {
        HeavyCommit { used: 0, pool: Seq::empty(), budgets }
    } else {
        let state = heavy_commit(heavy, plans, cores, budgets, n - 1);
        let plan = plans[n - 1];
        let cpus = cores_of(cores, state, plan);
        HeavyCommit {
            used: state.used + plan.cores_used as nat,
            pool: pool_after(state.pool, heavy[n - 1].1, plan, cpus),
            budgets: arm_all(state.budgets, active_vps(cpus, plan.active_budgets)),
        }
    }
}

/// What the `k`-th heavy DAG is assigned.
pub open spec fn heavy_assignment(
    heavy: Seq<Entry>,
    plans: Seq<HeavyPlanView>,
    cores: Seq<usize>,
    budgets: Seq<ActiveVpCore>,
    k: int,
) -> VFedAssignmentView {
    let state = heavy_commit(heavy, plans, cores, budgets, k);
    VFedAssignmentView::Heavy {
        active: active_vps(cores_of(cores, state, plans[k]), plans[k].active_budgets),
        passive: select(state.pool, plans[k].passive_indices),
    }
}

/// The passive VPs left over once the first `n` light DAGs have taken theirs.
pub open spec fn light_pool(
    pool: Seq<PassiveVpView>,
    outcomes: Seq<LightOutcomeView>,
    n: int,
) -> Seq<PassiveVpView>
    decreases n,
{
    if n <= 0 {
        pool
    } else {
        let rest = light_pool(pool, outcomes, n - 1);
        match outcomes[n - 1] {
            LightOutcomeView::Passive(indices) => without_indices(rest, indices),
            LightOutcomeView::Partitioned(_) => rest,
        }
    }
}

/// What the `k`-th light DAG is assigned; `cores` are the CPUs of the partitions.
pub open spec fn light_assignment(
    pool: Seq<PassiveVpView>,
    outcomes: Seq<LightOutcomeView>,
    cores: Seq<usize>,
    k: int,
) -> VFedAssignmentView {
    match outcomes[k] {
        LightOutcomeView::Passive(indices) => VFedAssignmentView::LightPassive {
            passive: select(light_pool(pool, outcomes, k), indices),
        },
        LightOutcomeView::Partitioned(index) => VFedAssignmentView::LightPartitioned {
            cpu: cores[index as int],
        },
    }
}

/// The heavy DAGs' part of a batch that is admitted on the free cores `free`.
pub open spec fn committed_heavy(
    budgets: Seq<ActiveVpCore>,
    plan: BatchPlanView,
    free: Seq<usize>,
    n: int,
) -> HeavyCommit {
    heavy_commit(plan.heavy, plan.heavy_plans, free.take(plan.mh as int), budgets, n)
}

/// The CPUs of the partitions that a batch opens: the free cores behind those of the
/// heavy DAGs.
pub open spec fn partition_cores(plan: BatchPlanView, free: Seq<usize>) -> Seq<usize> {
    free.subrange(plan.mh as int, plan.mh + plan.sim_partitions.len())
}

/// The state after a batch has been admitted: its cores are claimed, and what its
/// passive VPs and partitions have left over is there for later admissions.
pub open spec fn state_after(before: VFedStateView, plan: BatchPlanView, free: Seq<usize>) -> VFedStateView {
    let heavy = committed_heavy(before.budgets, plan, free, plan.heavy.len() as int);
    VFedStateView {
        claimed: before.claimed.union(
            free.take(plan.mh + plan.sim_partitions.len()).to_set(),
        ),
        light_utilization_scaled: before.light_utilization_scaled,
        pool: before.pool + light_pool(heavy.pool, plan.outcomes, plan.outcomes.len() as int),
        partitions: before.partitions + Seq::new(
            plan.sim_partitions.len(),
            |i: int| (partition_cores(plan, free)[i], plan.sim_partitions[i]),
        ),
        budgets: heavy.budgets,
    }
}

/// What each DAG of an admitted batch is assigned, at its place in the batch.
pub open spec fn batch_assignments(
    budgets: Seq<ActiveVpCore>,
    plan: BatchPlanView,
    free: Seq<usize>,
    assignments: Seq<VFedAssignmentView>,
) -> bool {
    let leftover = committed_heavy(budgets, plan, free, plan.heavy.len() as int).pool;
    &&& assignments.len() == plan.heavy.len() + plan.light.len()
    &&& forall|k: int|
        0 <= k < plan.heavy.len() ==> assignments[(#[trigger] plan.heavy[k]).0 as int]
            == heavy_assignment(
            plan.heavy,
            plan.heavy_plans,
            free.take(plan.mh as int),
            budgets,
            k,
        )
    &&& forall|k: int|
        0 <= k < plan.light.len() ==> assignments[(#[trigger] plan.light[k]).0 as int]
            == light_assignment(leftover, plan.outcomes, partition_cores(plan, free), k)
}

/// The views of a vector of assignments.
pub open spec fn assignments_view(assignments: Seq<VFedAssignment>) -> Seq<VFedAssignmentView> {
    Seq::new(assignments.len(), |i: int| assignments[i]@)
}

/// Admitting a batch is all or nothing: either the plan succeeds and all of it is
/// committed, or nothing changes and the plan's error is returned.
pub open spec fn batch_admits(
    before: VFedStateView,
    after: VFedStateView,
    configs: Seq<DagMetrics>,
    packing: PackingStrategy,
    num_cpu: usize,
    result: Result<Vec<VFedAssignment>, VFedError>,
) -> bool {
    let free = free_workers(before.claimed, num_cpu);
    match batch_plan(configs, free.len() as u16, packing) {
        Err(error) => {
            &&& after == before
            &&& result == Err::<Vec<VFedAssignment>, VFedError>(error)
        },
        Ok(plan) => {
            &&& after == state_after(before, plan, free)
            &&& result matches Ok(assignments)
            &&& assignments@.len() == configs.len()
            &&& batch_assignments(before.budgets, plan, free, assignments_view(assignments@))
        },
    }
}

/// The kinds of the passive VPs of a pool, whatever their CPUs.
pub open spec fn kinds(pool: Seq<PassiveVpView>) -> Seq<PassiveVpKindView> {
    Seq::new(pool.len(), |i: int| pool[i].kind)
}

proof fn lemma_kinds_without(pool: Seq<PassiveVpView>, indices: Seq<usize>)
    requires
        ascending_below(indices, pool.len() as int),
    ensures
        kinds(without_indices(pool, indices)) == without_indices(kinds(pool), indices),
    decreases indices.len(),
{
    if indices.len() > 0 {
        let last = indices.last() as int;
        let rest = indices.drop_last();
        assert forall|k: int| 0 <= k < rest.len() implies (#[trigger] rest[k]) < pool.len() - 1 by {
            assert(rest[k] == indices[k]);
            assert(indices[k] < indices[indices.len() - 1]);
        }
        lemma_kinds_without(pool.remove(last), rest);
        assert(kinds(pool.remove(last)) =~= kinds(pool).remove(last));
    }
}

/// What passive VPs supply does not depend on their CPUs.
pub proof fn lemma_surplus_by_kind(
    a: Seq<PassiveVpView>,
    b: Seq<PassiveVpView>,
    critical_path: int,
    deadline: int,
)
    requires
        kinds(a) == kinds(b),
    ensures
        total_surplus(a, critical_path, deadline) == total_surplus(b, critical_path, deadline),
    decreases a.len(),
{
    assert(a.len() == kinds(a).len() && b.len() == kinds(b).len());
    if a.len() > 0 {
        assert(kinds(a)[a.len() - 1] == kinds(b)[b.len() - 1]);
        assert(kinds(a.drop_last()) =~= kinds(a).drop_last());
        assert(kinds(b.drop_last()) =~= kinds(b).drop_last());
        lemma_surplus_by_kind(a.drop_last(), b.drop_last(), critical_path, deadline);
    }
}

proof fn lemma_select_by_kind(a: Seq<PassiveVpView>, b: Seq<PassiveVpView>, indices: Seq<usize>)
    requires
        kinds(a) == kinds(b),
        ascending_below(indices, a.len() as int),
    ensures
        kinds(select(a, indices)) == kinds(select(b, indices)),
{
    assert(a.len() == kinds(a).len() && b.len() == kinds(b).len());
    assert forall|k: int| 0 <= k < indices.len() implies kinds(select(a, indices))[k] == kinds(
        select(b, indices),
    )[k] by {
        assert(kinds(a)[indices[k] as int] == kinds(b)[indices[k] as int]);
    }
    assert(kinds(select(a, indices)) =~= kinds(select(b, indices)));
}

proof fn lemma_wf_by_kind(a: Seq<PassiveVpView>, b: Seq<PassiveVpView>)
    requires
        kinds(a) == kinds(b),
        pool_wf(a),
    ensures
        pool_wf(b),
{
    assert(a.len() == kinds(a).len() && b.len() == kinds(b).len());
    assert forall|i: int| 0 <= i < b.len() implies (#[trigger] b[i]).wf() by {
        assert(kinds(a)[i] == kinds(b)[i]);
        assert(a[i].wf());
    }
}

pub proof fn lemma_pool_after_by_kind(
    a: Seq<PassiveVpView>,
    b: Seq<PassiveVpView>,
    config: DagMetrics,
    plan: HeavyPlanView,
    cpus_a: Seq<usize>,
    cpus_b: Seq<usize>,
)
    requires
        kinds(a) == kinds(b),
        ascending_below(plan.passive_indices, a.len() as int),
    ensures
        kinds(pool_after(a, config, plan, cpus_a)) == kinds(pool_after(b, config, plan, cpus_b)),
{
    assert(a.len() == kinds(a).len() && b.len() == kinds(b).len());
    lemma_kinds_without(a, plan.passive_indices);
    lemma_kinds_without(b, plan.passive_indices);
    let left_a = without_indices(a, plan.passive_indices);
    let left_b = without_indices(b, plan.passive_indices);
    assert(kinds(left_a) == kinds(left_b));
    assert(left_a.len() == kinds(left_a).len() && left_b.len() == kinds(left_b).len());
    let new_a = generated(
        plan.active_budgets,
        cpus_a,
        config.period,
        config.relative_deadline,
        config.max_parallelism,
    );
    let new_b = generated(
        plan.active_budgets,
        cpus_b,
        config.period,
        config.relative_deadline,
        config.max_parallelism,
    );
    assert(kinds(new_a) =~= kinds(new_b));
    assert(kinds(left_a + new_a) =~= kinds(left_a) + kinds(new_a));
    assert(kinds(left_b + new_b) =~= kinds(left_b) + kinds(new_b));
}

/// Every heavy DAG of a list of entries is classified heavy.
pub open spec fn all_heavy(heavy: Seq<Entry>) -> bool {
    forall|i: int| 0 <= i < heavy.len() ==> is_heavy_dag((#[trigger] heavy[i]).1)
}

/// Every light DAG of a list of entries is classified light.
pub open spec fn all_light(light: Seq<Entry>) -> bool {
    forall|i: int| 0 <= i < light.len() ==> is_light_dag((#[trigger] light[i]).1)
}

/// Handing out cores follows the plan: the same number of cores is used, and the
/// passive VPs left over are the planned ones but for their CPUs.
pub proof fn lemma_commit_follows_plan(
    heavy: Seq<Entry>,
    mh: u16,
    cores: Seq<usize>,
    budgets: Seq<ActiveVpCore>,
    n: int,
)
    requires
        all_heavy(heavy),
        heavy_allocation(configs_of(heavy), mh) is Some,
        cores.len() == mh,
        0 <= n <= heavy.len(),
    ensures
        ({
            let plans = heavy_allocation(configs_of(heavy), mh)->0.plans;
            let planned = heavy_allocation(configs_of(heavy).take(n), mh)->0;
            let actual = heavy_commit(heavy, plans, cores, budgets, n);
            &&& plans.len() == heavy.len()
            &&& heavy_allocation(configs_of(heavy).take(n), mh) is Some
            &&& planned.cores_left <= mh
            &&& planned.pool.len() <= mh
            &&& pool_wf(planned.pool)
            &&& pool_wf(actual.pool)
            &&& actual.used == mh - planned.cores_left
            &&& kinds(actual.pool) == kinds(planned.pool)
            &&& actual.pool.len() == planned.pool.len()
            &&& n < heavy.len() ==> {
                &&& heavy_plan(heavy[n].1, planned.cores_left, planned.pool) == Ok::<
                    HeavyPlanView,
                    VFedError,
                >(plans[n])
                &&& ascending_below(plans[n].passive_indices, actual.pool.len() as int)
                &&& plans[n].active_budgets.len() == plans[n].cores_used
                    <= planned.cores_left
            }
        }),
    decreases n,
{
    let configs = configs_of(heavy);
    let plans = heavy_allocation(configs, mh)->0.plans;
    lemma_heavy_allocation_prefix(configs, mh, n);
    let planned = heavy_allocation(configs.take(n), mh)->0;
    let actual = heavy_commit(heavy, plans, cores, budgets, n);
    assert forall|i: int| 0 <= i < configs.take(n).len() implies is_heavy_dag(
        #[trigger] configs.take(n)[i],
    ) by {
        assert(is_heavy_dag(heavy[i].1));
    }
    lemma_heavy_allocation(configs.take(n), mh);
    if n > 0 {
        lemma_commit_follows_plan(heavy, mh, cores, budgets, n - 1);
        assert(configs.take(n).drop_last() =~= configs.take(n - 1));
        assert(configs.take(n).last() == heavy[n - 1].1);
        let before = heavy_allocation(configs.take(n - 1), mh)->0;
        let actual_before = heavy_commit(heavy, plans, cores, budgets, n - 1);
        let plan = plans[n - 1];
        lemma_pool_after_by_kind(
            actual_before.pool,
            before.pool,
            heavy[n - 1].1,
            plan,
            cores_of(cores, actual_before, plan),
            super::batch::slots(mh - before.cores_left, plan.active_budgets.len()),
        );
        assert(actual.pool.len() == kinds(actual.pool).len());
        assert(planned.pool.len() == kinds(planned.pool).len());
    } else {
        assert(configs.take(0) =~= Seq::<DagMetrics>::empty());
        assert(kinds(actual.pool) =~= kinds(planned.pool));
    }
    lemma_wf_by_kind(planned.pool, actual.pool);
    if n < heavy.len() {
        lemma_heavy_allocation_prefix(configs, mh, n + 1);
        assert(configs.take(n + 1).drop_last() =~= configs.take(n));
        assert(configs.take(n + 1).last() == heavy[n].1);
        assert(heavy_allocation(configs.take(n + 1), mh)->0.plans.last() == plans[n]);
        lemma_heavy_plan_is_schedulable(heavy[n].1, planned.cores_left, planned.pool);
    }
}

/// Serving light DAGs from the actual pool follows the plan.
proof fn lemma_light_follows_plan(
    light: Seq<Entry>,
    actual: Seq<PassiveVpView>,
    pool: Seq<PassiveVpView>,
    spare: int,
    packing: PackingStrategy,
    n: int,
)
    requires
        all_light(light),
        kinds(actual) == kinds(pool),
        pool_wf(pool),
        pool.len() <= u16::MAX,
        0 <= spare <= u16::MAX,
        light_run(light, pool, spare, packing) is Some,
        0 <= n <= light.len(),
    ensures
        ({
            let outcomes = light_run(light, pool, spare, packing)->0.outcomes;
            let planned = light_run(light.take(n), pool, spare, packing)->0;
            let left = light_pool(actual, outcomes, n);
            &&& outcomes.len() == light.len()
            &&& light_run(light.take(n), pool, spare, packing) is Some
            &&& planned.pool.len() <= pool.len()
            &&& pool_wf(left)
            &&& kinds(left) == kinds(planned.pool)
            &&& left.len() == planned.pool.len()
            &&& planned.partitions.len() <= spare
            &&& n < light.len() ==> match outcomes[n] {
                LightOutcomeView::Passive(indices) => {
                    &&& ascending_below(indices, left.len() as int)
                    &&& pulled(light[n].1, 0, planned.pool) == Some(indices)
                },
                LightOutcomeView::Partitioned(index) => index < light_run(
                    light.take(n + 1),
                    pool,
                    spare,
                    packing,
                )->0.partitions.len(),
            }
        }),
    decreases n,
{
    let outcomes = light_run(light, pool, spare, packing)->0.outcomes;
    lemma_light_run_prefix(light, pool, spare, packing, n);
    let planned = light_run(light.take(n), pool, spare, packing)->0;
    let left = light_pool(actual, outcomes, n);
    assert forall|i: int| 0 <= i < light.take(n).len() implies is_light_dag(
        (#[trigger] light.take(n)[i]).1,
    ) by {
        assert(is_light_dag(light[i].1));
    }
    lemma_light_run(light.take(n), pool, spare, packing);
    if n > 0 {
        lemma_light_follows_plan(light, actual, pool, spare, packing, n - 1);
        assert(light.take(n).drop_last() =~= light.take(n - 1));
        assert(light.take(n).last() == light[n - 1]);
        assert(planned.outcomes.last() == outcomes[n - 1]);
        let before = light_run(light.take(n - 1), pool, spare, packing)->0;
        let left_before = light_pool(actual, outcomes, n - 1);
        match outcomes[n - 1] {
            LightOutcomeView::Passive(indices) => {
                lemma_kinds_without(left_before, indices);
                lemma_kinds_without(before.pool, indices);
            },
            LightOutcomeView::Partitioned(_) => {},
        }
    } else {
        assert(light.take(0) =~= Seq::<Entry>::empty());
    }
    assert(left.len() == kinds(left).len());
    assert(planned.pool.len() == kinds(planned.pool).len());
    lemma_wf_by_kind(planned.pool, left);
    if n < light.len() {
        lemma_light_run_prefix(light, pool, spare, packing, n + 1);
        assert(light.take(n + 1).drop_last() =~= light.take(n));
        assert(light.take(n + 1).last() == light[n]);
        let next = light_run(light.take(n + 1), pool, spare, packing)->0;
        assert(next.outcomes.last() == outcomes[n]);
        lemma_pulled(light[n].1, 0, planned.pool);
        super::packing::lemma_chosen_partition(
            packing,
            planned.partitions,
            super::batch::density(light[n].1),
        );
    }
}

/// The number of partitions never shrinks as planning goes on.
pub proof fn lemma_partitions_grow(
    light: Seq<Entry>,
    pool: Seq<PassiveVpView>,
    spare: int,
    packing: PackingStrategy,
    n: int,
)
    requires
        all_light(light),
        pool_wf(pool),
        pool.len() <= u16::MAX,
        0 <= spare <= u16::MAX,
        light_run(light, pool, spare, packing) is Some,
        0 <= n <= light.len(),
    ensures
        light_run(light.take(n), pool, spare, packing) is Some,
        light_run(light.take(n), pool, spare, packing)->0.partitions.len() <= light_run(
            light,
            pool,
            spare,
            packing,
        )->0.partitions.len(),
    decreases light.len() - n,
{
    lemma_light_run_prefix(light, pool, spare, packing, n);
    if n == light.len() {
        assert(light.take(n) =~= light);
    } else {
        lemma_partitions_grow(light, pool, spare, packing, n + 1);
        assert(light.take(n + 1).drop_last() =~= light.take(n));
        assert(light.take(n + 1).last() == light[n]);
        assert forall|i: int| 0 <= i < light.take(n).len() implies is_light_dag(
            (#[trigger] light.take(n)[i]).1,
        ) by {
            assert(is_light_dag(light[i].1));
        }
        lemma_light_run(light.take(n), pool, spare, packing);
        super::batch::lemma_light_step(
            light_run(light.take(n), pool, spare, packing)->0,
            light[n].1,
            spare,
            packing,
        );
    }
}

proof fn lemma_all_classified(configs: Seq<DagMetrics>, from: int)
    requires
        first_error(configs, from) is None,
        0 <= from,
    ensures
        forall|i: int| from <= i < configs.len() ==> class_of(#[trigger] configs[i]) is Ok,
    decreases configs.len() - from,
{
    if from < configs.len() {
        lemma_all_classified(configs, from + 1);
    }
}

proof fn lemma_entries_cover(configs: Seq<DagMetrics>, n: int)
    requires
        0 <= n <= configs.len() <= usize::MAX,
        forall|i: int| 0 <= i < configs.len() ==> class_of(#[trigger] configs[i]) is Ok,
    ensures
        heavy_entries(configs, n).len() + light_entries(configs, n).len() == n,
        forall|i: int|
            0 <= i < n ==> heavy_entries(configs, n).contains((i as usize, #[trigger] configs[i]))
                || light_entries(configs, n).contains((i as usize, configs[i])),
    decreases n,
{
    if n > 0 {
        lemma_entries_cover(configs, n - 1);
        let heavy = heavy_entries(configs, n);
        let light = light_entries(configs, n);
        let fewer_heavy = heavy_entries(configs, n - 1);
        let fewer_light = light_entries(configs, n - 1);
        assert(class_of(configs[n - 1]) is Ok);
        assert forall|i: int| 0 <= i < n implies heavy.contains((i as usize, #[trigger] configs[i]))
            || light.contains((i as usize, configs[i])) by {
            let entry = (i as usize, configs[i]);
            if i == n - 1 {
                if is_heavy_dag(configs[i]) {
                    assert(heavy.last() == entry);
                } else {
                    assert(light.last() == entry);
                }
            } else if fewer_heavy.contains(entry) {
                let k = choose|k: int| 0 <= k < fewer_heavy.len() && fewer_heavy[k] == entry;
                assert(heavy[k] == entry);
            } else {
                let k = choose|k: int| 0 <= k < fewer_light.len() && fewer_light[k] == entry;
                assert(light[k] == entry);
            }
        }
    }
}

proof fn lemma_sorted_distinct(configs: Seq<DagMetrics>, list: Seq<Entry>, order: PlanOrder)
    requires
        forall|i: int, j: int|
            0 <= i < j < list.len() ==> (#[trigger] list[i]).0 < (#[trigger] list[j]).0,
        forall|i: int| 0 <= i < list.len() ==> (#[trigger] list[i]).1 == configs[list[i].0 as int],
    ensures
        in_order(order, list).len() == list.len(),
        forall|x: Entry| in_order(order, list).contains(x) == list.contains(x),
        forall|i: int, j: int|
            0 <= i < j < list.len() ==> (#[trigger] in_order(order, list)[i]).0 != (
            #[trigger] in_order(order, list)[j]).0,
{
    broadcast use vstd::seq_lib::group_to_multiset_ensures;

    lemma_in_order_keeps_all(order, list);
    let sorted = in_order(order, list);
    assert forall|x: Entry| sorted.contains(x) == list.contains(x) by {
        assert(sorted.contains(x) == (sorted.to_multiset().count(x) > 0));
        assert(list.contains(x) == (list.to_multiset().count(x) > 0));
    }
    assert(list.no_duplicates());
    list.lemma_multiset_has_no_duplicates();
    sorted.lemma_multiset_has_no_duplicates_conv();
    assert forall|i: int, j: int| 0 <= i < j < list.len() implies (#[trigger] sorted[i]).0 != (
    #[trigger] sorted[j]).0 by {
        if sorted[i].0 == sorted[j].0 {
            assert(sorted.contains(sorted[i]) && sorted.contains(sorted[j]));
            let a = choose|a: int| 0 <= a < list.len() && list[a] == sorted[i];
            let b = choose|b: int| 0 <= b < list.len() && list[b] == sorted[j];
            assert(list[a].1 == list[b].1);
            assert(sorted[i] == sorted[j]);
        }
    }
}

/// Every DAG of a batch that can be classified is planned exactly once: at each place
/// of the batch there is one entry, in one of the two planning orders.
pub proof fn lemma_every_dag_is_planned_once(configs: Seq<DagMetrics>)
    requires
        first_error(configs, 0) is None,
        configs.len() <= usize::MAX,
    ensures
        heavy_in_order(configs).len() + light_in_order(configs).len() == configs.len(),
        forall|i: int, j: int|
            0 <= i < j < heavy_in_order(configs).len() ==> (#[trigger] heavy_in_order(
                configs,
            )[i]).0 != (#[trigger] heavy_in_order(configs)[j]).0,
        forall|i: int, j: int|
            0 <= i < j < light_in_order(configs).len() ==> (#[trigger] light_in_order(
                configs,
            )[i]).0 != (#[trigger] light_in_order(configs)[j]).0,
        forall|i: int, j: int|
            0 <= i < heavy_in_order(configs).len() && 0 <= j < light_in_order(configs).len() ==> (
            #[trigger] heavy_in_order(configs)[i]).0 != (#[trigger] light_in_order(configs)[j]).0,
        forall|place: int|
            0 <= place < configs.len() ==> heavy_in_order(configs).contains(
                (place as usize, #[trigger] configs[place]),
            ) || light_in_order(configs).contains((place as usize, configs[place])),
{
    let n = configs.len() as int;
    lemma_all_classified(configs, 0);
    lemma_entries_cover(configs, n);
    lemma_entries(configs, n);
    lemma_planned_entries(configs);
    lemma_sorted_distinct(configs, heavy_entries(configs, n), PlanOrder::AscendingLaxity);
    lemma_sorted_distinct(configs, light_entries(configs, n), PlanOrder::DescendingDensity);
    assert forall|i: int, j: int|
        0 <= i < heavy_in_order(configs).len() && 0 <= j < light_in_order(configs).len() implies (
    #[trigger] heavy_in_order(configs)[i]).0 != (#[trigger] light_in_order(configs)[j]).0 by {
        assert(is_heavy_dag(heavy_in_order(configs)[i].1));
        assert(is_light_dag(light_in_order(configs)[j].1));
    }
    assert forall|place: int| 0 <= place < configs.len() implies heavy_in_order(configs).contains(
        (place as usize, #[trigger] configs[place]),
    ) || light_in_order(configs).contains((place as usize, configs[place])) by {
        let entry = (place as usize, configs[place]);
        assert(heavy_in_order(configs).contains(entry) == heavy_entries(configs, n).contains(
            entry,
        ));
        assert(light_in_order(configs).contains(entry) == light_entries(configs, n).contains(
            entry,
        ));
    }
}

/// Places for the assignments of a batch, filled in planning order.
type Slots = Vec<Option<VFedAssignment>>;

fn empty_slots(n: usize) -> (slots: Slots)
    ensures
        slots@.len() == n,
{
    let mut slots: Slots = Vec::new();
    let mut i: usize = 0;
    while i < n
        invariant
            i <= n,
            slots@.len() == i,
        decreases n - i,
    {
        slots.push(None);
        i = i + 1;
    }
    slots
}

/// What the places of the first `n` heavy DAGs hold.
spec fn heavy_slots_filled(
    slots: Seq<Option<VFedAssignment>>,
    heavy: Seq<Entry>,
    plans: Seq<HeavyPlanView>,
    cores: Seq<usize>,
    budgets: Seq<ActiveVpCore>,
    n: int,
) -> bool {
    forall|k: int|
        0 <= k < n ==> slots[(#[trigger] heavy[k]).0 as int] is Some && slots[heavy[k].0 as int]->0@
            == heavy_assignment(heavy, plans, cores, budgets, k)
}

/// What the places of the first `n` light DAGs hold.
spec fn light_slots_filled(
    slots: Seq<Option<VFedAssignment>>,
    light: Seq<Entry>,
    pool: Seq<PassiveVpView>,
    outcomes: Seq<LightOutcomeView>,
    cores: Seq<usize>,
    n: int,
) -> bool {
    forall|k: int|
        0 <= k < n ==> slots[(#[trigger] light[k]).0 as int] is Some && slots[light[k].0 as int]->0@
            == light_assignment(pool, outcomes, cores, k)
}

/// Hands the claimed cores to the heavy DAGs in planning order.
fn commit_heavy(
    heavy: &Vec<Entry>,
    mh: u16,
    plans: &Vec<HeavyPlan>,
    cores: &Vec<usize>,
    budgets: &mut ActiveVpTable,
    slots: &mut Slots,
) -> (pool: Vec<PassiveVp>)
    requires
        all_heavy(heavy@),
        heavy_allocation(configs_of(heavy@), mh) is Some,
        plans_view(plans@) == heavy_allocation(configs_of(heavy@), mh)->0.plans,
        cores@.len() == mh,
        forall|k: int| 0 <= k < heavy@.len() ==> (#[trigger] heavy@[k]).0 < old(slots)@.len(),
        forall|i: int, j: int|
            0 <= i < j < heavy@.len() ==> (#[trigger] heavy@[i]).0 != (#[trigger] heavy@[j]).0,
    ensures
        final(slots)@.len() == old(slots)@.len(),
        heavy_slots_filled(
            final(slots)@,
            heavy@,
            plans_view(plans@),
            cores@,
            old(budgets)@,
            heavy@.len() as int,
        ),
        ({
            let state = heavy_commit(
                heavy@,
                plans_view(plans@),
                cores@,
                old(budgets)@,
                heavy@.len() as int,
            );
            &&& vps_view(pool@) == state.pool
            &&& final(budgets)@ == state.budgets
        }),
{
    let ghost plan_views = plans_view(plans@);
    let ghost start = budgets@;
    let mut pool: Vec<PassiveVp> = Vec::new();
    let mut used: usize = 0;
    let mut k: usize = 0;
    assert(vps_view(pool@) =~= Seq::<PassiveVpView>::empty());
    proof {
        lemma_commit_follows_plan(heavy@, mh, cores@, start, 0);
    }
    while k < heavy.len()
        invariant
            k <= heavy@.len(),
            all_heavy(heavy@),
            heavy_allocation(configs_of(heavy@), mh) is Some,
            plan_views == heavy_allocation(configs_of(heavy@), mh)->0.plans,
            plan_views == plans_view(plans@),
            plan_views.len() == heavy@.len(),
            cores@.len() == mh,
            start == old(budgets)@,
            forall|i: int| 0 <= i < heavy@.len() ==> (#[trigger] heavy@[i]).0 < slots@.len(),
            forall|i: int, j: int|
                0 <= i < j < heavy@.len() ==> (#[trigger] heavy@[i]).0 != (#[trigger] heavy@[j]).0,
            slots@.len() == old(slots)@.len(),
            heavy_slots_filled(slots@, heavy@, plan_views, cores@, start, k as int),
            heavy_commit(heavy@, plan_views, cores@, start, k as int) == (HeavyCommit {
                used: used as nat,
                pool: vps_view(pool@),
                budgets: budgets@,
            }),
        decreases heavy@.len() - k,
    {
        let ghost before = heavy_commit(heavy@, plan_views, cores@, start, k as int);
        let ghost slots_before = slots@;
        proof {
            lemma_commit_follows_plan(heavy@, mh, cores@, start, k as int);
            lemma_commit_follows_plan(heavy@, mh, cores@, start, k + 1);
            assert(plan_views[k as int] == plans@[k as int]@);
        }
        let place: usize = heavy[k].0;
        let config = heavy[k].1;
        let plan = &plans[k];
        let cpus = copy_range(cores, used, used + plan.cores_used as usize);
        let active = arm(budgets, &cpus, &plan.active_budgets);
        let passive = take_indices(&mut pool, &plan.passive_indices);
        let mut new_passives = generate_passive_vps(
            &plan.active_budgets,
            &cpus,
            config.period,
            config.relative_deadline,
            config.max_parallelism,
        );
        let ghost left = pool@;
        let ghost added = new_passives@;
        pool.append(&mut new_passives);
        assert(vps_view(pool@) =~= vps_view(left) + vps_view(added));
        let assignment = VFedAssignment::Heavy { active, passive };
        assert(assignment@ == heavy_assignment(heavy@, plan_views, cores@, start, k as int));
        slots.set(place, Some(assignment));
        proof {
            assert forall|i: int| 0 <= i < k + 1 implies slots@[(
            #[trigger] heavy@[i]).0 as int] is Some && slots@[heavy@[i].0 as int]->0@
                == heavy_assignment(heavy@, plan_views, cores@, start, i) by {
                if i < k {
                    assert(heavy@[i].0 != heavy@[k as int].0);
                    assert(slots@[heavy@[i].0 as int] == slots_before[heavy@[i].0 as int]);
                }
            }
        }
        used = used + plan.cores_used as usize;
        k = k + 1;
    }
    pool
}

fn copy_range(cores: &Vec<usize>, from: usize, to: usize) -> (range: Vec<usize>)
    requires
        from <= to <= cores@.len(),
    ensures
        range@ == cores@.subrange(from as int, to as int),
{
    let mut range: Vec<usize> = Vec::new();
    let mut i: usize = from;
    while i < to
        invariant
            from <= i <= to <= cores@.len(),
            range@ == cores@.subrange(from as int, i as int),
        decreases to - i,
    {
        range.push(cores[i]);
        i = i + 1;
        assert(range@ =~= cores@.subrange(from as int, i as int));
    }
    range
}

/// Serves the light DAGs in planning order.
fn commit_light(
    light: &Vec<Entry>,
    outcomes: &Vec<LightOutcome>,
    cores: &Vec<usize>,
    pool: &mut Vec<PassiveVp>,
    slots: &mut Slots,
    Ghost(planned): Ghost<Seq<PassiveVpView>>,
    Ghost(spare): Ghost<int>,
    Ghost(packing): Ghost<PackingStrategy>,
)
    requires
        all_light(light@),
        kinds(vps_view(old(pool)@)) == kinds(planned),
        pool_wf(planned),
        planned.len() <= u16::MAX,
        0 <= spare <= u16::MAX,
        light_run(light@, planned, spare, packing) is Some,
        outcomes_view(outcomes@) == light_run(light@, planned, spare, packing)->0.outcomes,
        cores@.len() == light_run(light@, planned, spare, packing)->0.partitions.len(),
        forall|k: int| 0 <= k < light@.len() ==> (#[trigger] light@[k]).0 < old(slots)@.len(),
        forall|i: int, j: int|
            0 <= i < j < light@.len() ==> (#[trigger] light@[i]).0 != (#[trigger] light@[j]).0,
    ensures
        final(slots)@.len() == old(slots)@.len(),
        light_slots_filled(
            final(slots)@,
            light@,
            vps_view(old(pool)@),
            outcomes_view(outcomes@),
            cores@,
            light@.len() as int,
        ),
        forall|place: int|
            0 <= place < final(slots)@.len() && (forall|k: int|
                0 <= k < light@.len() ==> (#[trigger] light@[k]).0 != place)
                ==> #[trigger] final(slots)@[place] == old(slots)@[place],
        vps_view(final(pool)@) == light_pool(
            vps_view(old(pool)@),
            outcomes_view(outcomes@),
            light@.len() as int,
        ),
        pool_wf(vps_view(final(pool)@)),
{
    let ghost views = outcomes_view(outcomes@);
    let ghost start = vps_view(pool@);
    let mut k: usize = 0;
    proof {
        lemma_light_follows_plan(light@, start, planned, spare, packing, 0);
    }
    while k < light.len()
        invariant
            k <= light@.len(),
            all_light(light@),
            start == vps_view(old(pool)@),
            kinds(start) == kinds(planned),
            pool_wf(planned),
            planned.len() <= u16::MAX,
            0 <= spare <= u16::MAX,
            light_run(light@, planned, spare, packing) is Some,
            views == outcomes_view(outcomes@),
            views == light_run(light@, planned, spare, packing)->0.outcomes,
            views.len() == light@.len(),
            cores@.len() == light_run(light@, planned, spare, packing)->0.partitions.len(),
            forall|i: int| 0 <= i < light@.len() ==> (#[trigger] light@[i]).0 < slots@.len(),
            forall|i: int, j: int|
                0 <= i < j < light@.len() ==> (#[trigger] light@[i]).0 != (#[trigger] light@[j]).0,
            slots@.len() == old(slots)@.len(),
            light_slots_filled(slots@, light@, start, views, cores@, k as int),
            forall|place: int|
                0 <= place < slots@.len() && (forall|i: int|
                    0 <= i < light@.len() ==> (#[trigger] light@[i]).0 != place)
                    ==> #[trigger] slots@[place] == old(slots)@[place],
            vps_view(pool@) == light_pool(start, views, k as int),
        decreases light@.len() - k,
    {
        let ghost slots_before = slots@;
        let ghost pool_before = vps_view(pool@);
        proof {
            lemma_light_follows_plan(light@, start, planned, spare, packing, k as int);
            lemma_partitions_grow(light@, planned, spare, packing, k + 1);
            assert(views[k as int] == outcomes@[k as int]@);
        }
        let place: usize = light[k].0;
        let assignment = match &outcomes[k] {
            LightOutcome::Passive(indices) => {
                let passive = take_indices(pool, indices);
                VFedAssignment::LightPassive { passive }
            },
            LightOutcome::Partitioned(index) => VFedAssignment::LightPartitioned {
                cpu: cores[*index],
            },
        };
        assert(assignment@ == light_assignment(start, views, cores@, k as int));
        slots.set(place, Some(assignment));
        proof {
            assert(light@[k as int].0 == place);
            assert forall|i: int| 0 <= i < k + 1 implies slots@[(
            #[trigger] light@[i]).0 as int] is Some && slots@[light@[i].0 as int]->0@
                == light_assignment(start, views, cores@, i) by {
                if i < k {
                    assert(light@[i].0 != light@[k as int].0);
                    assert(slots@[light@[i].0 as int] == slots_before[light@[i].0 as int]);
                }
            }
        }
        k = k + 1;
    }
    proof {
        lemma_light_follows_plan(light@, start, planned, spare, packing, light@.len() as int);
    }
}

/// Takes the assignments out of their places.
fn collect(slots: Slots) -> (assignments: Vec<VFedAssignment>)
    requires
        forall|i: int| 0 <= i < slots@.len() ==> (#[trigger] slots@[i]) is Some,
    ensures
        assignments@.len() == slots@.len(),
        forall|i: int| 0 <= i < slots@.len() ==> #[trigger] assignments@[i] == slots@[i]->0,
{
    let ghost all = slots@;
    let mut rest = slots;
    let mut assignments: Vec<VFedAssignment> = Vec::new();
    while rest.len() > 0
        invariant
            rest@.len() + assignments@.len() == all.len(),
            forall|i: int| 0 <= i < all.len() ==> (#[trigger] all[i]) is Some,
            forall|i: int| 0 <= i < rest@.len() ==> #[trigger] rest@[i] == all[i],
            forall|i: int|
                0 <= i < assignments@.len() ==> #[trigger] assignments@[i] == all[rest@.len()
                    + i]->0,
        decreases rest@.len(),
    {
        let ghost last = rest@.len() - 1;
        let ghost before = assignments@;
        assert(rest@[last] == all[last]);
        if let Some(Some(assignment)) = rest.pop() {
            assignments.insert(0, assignment);
            proof {
                assert forall|i: int| 0 <= i < assignments@.len() implies #[trigger] assignments@[i]
                    == all[rest@.len() + i]->0 by {
                    if i > 0 {
                        assert(assignments@[i] == before[i - 1]);
                    }
                }
            }
        }
    }
    assignments
}

/// What holds of a batch plan that succeeds: each DAG is planned once and as its
/// class asks, and the plan stays within `max_cores` cores.
pub open spec fn sound_plan(
    plan: BatchPlanView,
    count: nat,
    max_cores: u16,
    packing: PackingStrategy,
) -> bool {
    let allocation = heavy_allocation(configs_of(plan.heavy), plan.mh);
    let run = light_run(plan.light, allocation->0.pool, max_cores - plan.mh, packing);
    &&& all_heavy(plan.heavy)
    &&& all_light(plan.light)
    &&& plan.mh <= max_cores
    &&& allocation is Some
    &&& allocation->0.plans == plan.heavy_plans
    &&& pool_wf(allocation->0.pool)
    &&& allocation->0.pool.len() <= u16::MAX
    &&& run is Some
    &&& run->0.outcomes == plan.outcomes
    &&& run->0.outcomes.len() == plan.light.len()
    &&& run->0.partitions == plan.sim_partitions
    &&& plan.sim_partitions.len() <= max_cores - plan.mh
    &&& within_one_core(plan.sim_partitions)
    &&& plan.heavy.len() + plan.light.len() == count
    &&& forall|k: int| 0 <= k < plan.heavy.len() ==> (#[trigger] plan.heavy[k]).0 < count
    &&& forall|k: int| 0 <= k < plan.light.len() ==> (#[trigger] plan.light[k]).0 < count
    &&& forall|i: int, j: int|
        0 <= i < j < plan.heavy.len() ==> (#[trigger] plan.heavy[i]).0 != (
        #[trigger] plan.heavy[j]).0
    &&& forall|i: int, j: int|
        0 <= i < j < plan.light.len() ==> (#[trigger] plan.light[i]).0 != (
        #[trigger] plan.light[j]).0
    &&& forall|i: int, j: int|
        0 <= i < plan.heavy.len() && 0 <= j < plan.light.len() ==> (#[trigger] plan.heavy[i]).0
            != (#[trigger] plan.light[j]).0
    &&& forall|place: int|
        0 <= place < count ==> #[trigger] is_planned(plan, place)
}

/// Some DAG is planned for this place of the batch.
pub open spec fn is_planned(plan: BatchPlanView, place: int) -> bool {
    ||| exists|k: int| 0 <= k < plan.heavy.len() && (#[trigger] plan.heavy[k]).0 == place
    ||| exists|k: int| 0 <= k < plan.light.len() && (#[trigger] plan.light[k]).0 == place
}

/// Every batch plan that succeeds is sound.
pub proof fn lemma_batch_plan_is_sound(
    configs: Seq<DagMetrics>,
    max_cores: u16,
    packing: PackingStrategy,
)
    requires
        batch_plan(configs, max_cores, packing) is Ok,
        configs.len() <= usize::MAX,
    ensures
        sound_plan(
            batch_plan(configs, max_cores, packing)->Ok_0,
            configs.len(),
            max_cores,
            packing,
        ),
{
    let plan = batch_plan(configs, max_cores, packing)->Ok_0;
    lemma_every_dag_is_planned_once(configs);
    lemma_planned_entries(configs);
    lemma_min_heavy_cores(configs_of(plan.heavy), max_cores);
    assert forall|i: int| 0 <= i < plan.heavy.len() implies is_heavy_dag(
        (#[trigger] plan.heavy[i]).1,
    ) && plan.heavy[i].0 < configs.len() by {
        assert(is_heavy_dag(heavy_in_order(configs)[i].1));
    }
    assert forall|i: int| 0 <= i < plan.light.len() implies is_light_dag(
        (#[trigger] plan.light[i]).1,
    ) && plan.light[i].0 < configs.len() by {
        assert(is_light_dag(light_in_order(configs)[i].1));
    }
    assert forall|i: int| 0 <= i < configs_of(plan.heavy).len() implies is_heavy_dag(
        #[trigger] configs_of(plan.heavy)[i],
    ) by {
        assert(is_heavy_dag(plan.heavy[i].1));
    }
    lemma_heavy_allocation(configs_of(plan.heavy), plan.mh);
    let allocation = heavy_allocation(configs_of(plan.heavy), plan.mh)->0;
    lemma_light_run(plan.light, allocation.pool, max_cores - plan.mh, packing);
    assert forall|place: int| 0 <= place < configs.len() implies #[trigger] is_planned(
        plan,
        place,
    ) by {
        let entry = (place as usize, configs[place]);
        if plan.heavy.contains(entry) {
            let k = choose|k: int| 0 <= k < plan.heavy.len() && plan.heavy[k] == entry;
            assert(plan.heavy[k].0 == place);
        } else {
            assert(plan.light.contains(entry));
            let k = choose|k: int| 0 <= k < plan.light.len() && plan.light[k] == entry;
            assert(plan.light[k].0 == place);
        }
    }
}

proof fn lemma_set_of_two_ranges(s: Seq<usize>, a: int, b: int)
    requires
        0 <= a,
        0 <= b,
        a + b <= s.len(),
    ensures
        s.take(a + b).to_set() == s.take(a).to_set().union(s.skip(a).take(b).to_set()),
{
    let first = s.take(a);
    let second = s.skip(a).take(b);
    let all = s.take(a + b);
    assert forall|x: usize| #[trigger]
        all.to_set().contains(x) == first.to_set().union(second.to_set()).contains(x) by {
        if all.contains(x) {
            let k = choose|k: int| 0 <= k < all.len() && all[k] == x;
            if k < a {
                assert(first[k] == x);
            } else {
                assert(second[k - a] == x);
            }
        }
        if first.contains(x) {
            let k = choose|k: int| 0 <= k < first.len() && first[k] == x;
            assert(all[k] == x);
        }
        if second.contains(x) {
            let k = choose|k: int| 0 <= k < second.len() && second[k] == x;
            assert(all[k + a] == x);
        }
    }
    assert(all.to_set() =~= first.to_set().union(second.to_set()));
}

/// Claims the cores of the heavy DAGs and behind them those of the partitions.
fn claim_batch(ledger: &mut PoolLedger, num_cpu: usize, mh: u16, partitions: u16) -> (cores: (
    Vec<usize>,
    Vec<usize>,
))
    requires
        num_cpu <= NUM_MAX_CPU,
        mh + partitions <= old(ledger).free(num_cpu).len(),
    ensures
        cores.0@ == old(ledger).free(num_cpu).take(mh as int),
        cores.1@ == old(ledger).free(num_cpu).subrange(mh as int, mh + partitions),
        cpu_set_view(final(ledger).claimed_cores) == cpu_set_view(
            old(ledger).claimed_cores,
        ).union(old(ledger).free(num_cpu).take(mh + partitions).to_set()),
        final(ledger).light_utilization_scaled == old(ledger).light_utilization_scaled,
{
    let ghost claimed = cpu_set_view(ledger.claimed_cores);
    let ghost free = ledger.free(num_cpu);
    proof {
        lemma_free_after_claim(claimed, num_cpu, mh as int);
        lemma_set_of_two_ranges(free, mh as int, partitions as int);
    }
    let heavy_cores = match claim_cores(ledger, num_cpu, mh) {
        Ok(cores) => cores,
        Err(_) => Vec::new(),
    };
    assert(ledger.free(num_cpu) == free.skip(mh as int));
    let light_cores = match claim_cores(ledger, num_cpu, partitions) {
        Ok(cores) => cores,
        Err(_) => Vec::new(),
    };
    proof {
        assert(light_cores@ =~= free.subrange(mh as int, mh + partitions));
        assert(cpu_set_view(ledger.claimed_cores) =~= claimed.union(
            free.take(mh + partitions).to_set(),
        ));
    }
    (heavy_cores, light_cores)
}

/// Gives each DAG of a plan what it is assigned, and returns what is left of the
/// passive VPs.
fn assign(
    plan: &BatchPlan,
    count: usize,
    heavy_cores: &Vec<usize>,
    light_cores: &Vec<usize>,
    budgets: &mut ActiveVpTable,
    Ghost(max_cores): Ghost<u16>,
    Ghost(packing): Ghost<PackingStrategy>,
    Ghost(free): Ghost<Seq<usize>>,
) -> (assigned: (Vec<VFedAssignment>, Vec<PassiveVp>))
    requires
        sound_plan(plan@, count as nat, max_cores, packing),
        free.len() == max_cores,
        heavy_cores@ == free.take(plan.mh as int),
        light_cores@ == partition_cores(plan@, free),
    ensures
        assigned.0@.len() == count,
        batch_assignments(old(budgets)@, plan@, free, assignments_view(assigned.0@)),
        ({
            let heavy = committed_heavy(old(budgets)@, plan@, free, plan@.heavy.len() as int);
            &&& final(budgets)@ == heavy.budgets
            &&& vps_view(assigned.1@) == light_pool(
                heavy.pool,
                plan@.outcomes,
                plan@.outcomes.len() as int,
            )
        }),
        pool_wf(vps_view(assigned.1@)),
{
    let ghost view = plan@;
    let ghost start = budgets@;
    let ghost allocation = heavy_allocation(configs_of(view.heavy), view.mh)->0;
    let mut slots = empty_slots(count);
    let mut pool = commit_heavy(
        &plan.heavy,
        plan.mh,
        &plan.heavy_plans,
        heavy_cores,
        budgets,
        &mut slots,
    );
    let ghost heavy_slots = slots@;
    proof {
        let n = view.heavy.len() as int;
        lemma_commit_follows_plan(view.heavy, view.mh, heavy_cores@, start, n);
        assert(configs_of(view.heavy).take(n) =~= configs_of(view.heavy));
    }
    commit_light(
        &plan.light,
        &plan.outcomes,
        light_cores,
        &mut pool,
        &mut slots,
        Ghost(allocation.pool),
        Ghost(max_cores - view.mh),
        Ghost(packing),
    );
    proof {
        assert forall|k: int| 0 <= k < view.heavy.len() implies slots@[(
        #[trigger] view.heavy[k]).0 as int] == heavy_slots[view.heavy[k].0 as int] by {
            assert forall|i: int| 0 <= i < view.light.len() implies (#[trigger] view.light[i]).0
                != view.heavy[k].0 by {
                assert(view.heavy[k].0 != view.light[i].0);
            }
        }
        assert forall|place: int| 0 <= place < slots@.len() implies (
        #[trigger] slots@[place]) is Some by {
            assert(is_planned(view, place));
            if exists|k: int| 0 <= k < view.heavy.len() && (#[trigger] view.heavy[k]).0 == place {
                let k = choose|k: int|
                    0 <= k < view.heavy.len() && (#[trigger] view.heavy[k]).0 == place;
                assert(slots@[view.heavy[k].0 as int] == heavy_slots[view.heavy[k].0 as int]);
            } else {
                let k = choose|k: int|
                    0 <= k < view.light.len() && (#[trigger] view.light[k]).0 == place;
                assert(slots@[view.light[k].0 as int] is Some);
            }
        }
    }
    let ghost filled = slots@;
    let assignments = collect(slots);
    proof {
        let views = assignments_view(assignments@);
        assert forall|k: int| 0 <= k < view.heavy.len() implies views[(
        #[trigger] view.heavy[k]).0 as int] == heavy_assignment(
            view.heavy,
            view.heavy_plans,
            free.take(view.mh as int),
            start,
            k,
        ) by {
            assert(filled[view.heavy[k].0 as int] == heavy_slots[view.heavy[k].0 as int]);
        }
    }
    (assignments, pool)
}

/// The passive VPs of the heavy DAGs of a batch are on CPUs that the kernel supports.
proof fn lemma_heavy_commit_supported(
    heavy: Seq<Entry>,
    mh: u16,
    cores: Seq<usize>,
    budgets: Seq<ActiveVpCore>,
    n: int,
)
    requires
        all_heavy(heavy),
        heavy_allocation(configs_of(heavy), mh) is Some,
        cores.len() == mh,
        forall|i: int| 0 <= i < cores.len() ==> (#[trigger] cores[i]) < NUM_MAX_CPU,
        0 <= n <= heavy.len(),
    ensures
        ({
            let plans = heavy_allocation(configs_of(heavy), mh)->0.plans;
            &&& pool_supported(heavy_commit(heavy, plans, cores, budgets, n).pool)
            &&& n < heavy.len() ==> heavy_assignment(
                heavy,
                plans,
                cores,
                budgets,
                n,
            ).cpus_supported()
        }),
    decreases n,
{
    let plans = heavy_allocation(configs_of(heavy), mh)->0.plans;
    if n > 0 {
        lemma_heavy_commit_supported(heavy, mh, cores, budgets, n - 1);
        lemma_commit_follows_plan(heavy, mh, cores, budgets, n - 1);
        let before = heavy_commit(heavy, plans, cores, budgets, n - 1);
        let cpus = cores_of(cores, before, plans[n - 1]);
        assert forall|i: int| 0 <= i < cpus.len() implies (#[trigger] cpus[i]) < NUM_MAX_CPU by {
            assert(cpus[i] == cores[before.used + i]);
        }
        lemma_pool_after_supported(before.pool, heavy[n - 1].1, plans[n - 1], cpus);
    }
    if n < heavy.len() {
        lemma_commit_follows_plan(heavy, mh, cores, budgets, n);
        let state = heavy_commit(heavy, plans, cores, budgets, n);
        let cpus = cores_of(cores, state, plans[n]);
        lemma_selected_supported(state.pool, plans[n].passive_indices);
        let active = active_vps(cpus, plans[n].active_budgets);
        assert forall|i: int| 0 <= i < active.len() implies (#[trigger] active[i]).cpu
            < NUM_MAX_CPU by {
            assert(active[i].cpu == cores[state.used + i]);
        }
    }
}

/// The passive VPs that the light DAGs of a batch leave, and those that they take, are on
/// CPUs that the kernel supports.
proof fn lemma_light_pool_supported(
    light: Seq<Entry>,
    actual: Seq<PassiveVpView>,
    pool: Seq<PassiveVpView>,
    spare: int,
    packing: PackingStrategy,
    n: int,
)
    requires
        all_light(light),
        kinds(actual) == kinds(pool),
        pool_wf(pool),
        pool.len() <= u16::MAX,
        0 <= spare <= u16::MAX,
        light_run(light, pool, spare, packing) is Some,
        pool_supported(actual),
        0 <= n <= light.len(),
    ensures
        pool_supported(
            light_pool(actual, light_run(light, pool, spare, packing)->0.outcomes, n),
        ),
    decreases n,
{
    if n > 0 {
        lemma_light_pool_supported(light, actual, pool, spare, packing, n - 1);
        lemma_light_follows_plan(light, actual, pool, spare, packing, n - 1);
        let outcomes = light_run(light, pool, spare, packing)->0.outcomes;
        match outcomes[n - 1] {
            LightOutcomeView::Passive(indices) => {
                lemma_selected_supported(light_pool(actual, outcomes, n - 1), indices);
            },
            LightOutcomeView::Partitioned(_) => {},
        }
    }
}

/// The state after a batch is on CPUs that the kernel supports.
proof fn lemma_batch_state_supported(
    before: VFedStateView,
    configs: Seq<DagMetrics>,
    packing: PackingStrategy,
    num_cpu: usize,
)
    requires
        num_cpu <= NUM_MAX_CPU,
        configs.len() <= usize::MAX,
        pool_supported(before.pool),
        partitions_supported(before.partitions),
        batch_plan(
            configs,
            free_workers(before.claimed, num_cpu).len() as u16,
            packing,
        ) is Ok,
    ensures
        ({
            let free = free_workers(before.claimed, num_cpu);
            let plan = batch_plan(configs, free.len() as u16, packing)->Ok_0;
            let after = state_after(before, plan, free);
            pool_supported(after.pool) && partitions_supported(after.partitions)
        }),
{
    let free = free_workers(before.claimed, num_cpu);
    lemma_free_workers(before.claimed, num_cpu, num_cpu as int);
    let max_cores = free.len() as u16;
    let plan = batch_plan(configs, max_cores, packing)->Ok_0;
    lemma_batch_plan_is_sound(configs, max_cores, packing);
    let cores = free.take(plan.mh as int);
    let n = plan.heavy.len() as int;
    let planned = heavy_allocation(configs_of(plan.heavy), plan.mh)->0;
    lemma_heavy_commit_supported(plan.heavy, plan.mh, cores, before.budgets, n);
    lemma_commit_follows_plan(plan.heavy, plan.mh, cores, before.budgets, n);
    assert(configs_of(plan.heavy).take(n) =~= configs_of(plan.heavy));
    let heavy = committed_heavy(before.budgets, plan, free, n);
    lemma_light_pool_supported(
        plan.light,
        heavy.pool,
        planned.pool,
        max_cores - plan.mh,
        packing,
        plan.outcomes.len() as int,
    );
    let after = state_after(before, plan, free);
    let left = light_pool(heavy.pool, plan.outcomes, plan.outcomes.len() as int);
    assert forall|i: int| 0 <= i < after.pool.len() implies (#[trigger] after.pool[i]).cpu
        < NUM_MAX_CPU by {
        if i < before.pool.len() {
            assert(after.pool[i] == before.pool[i]);
        } else {
            assert(after.pool[i] == left[i - before.pool.len()]);
        }
    }
    assert forall|i: int| 0 <= i < after.partitions.len() implies (
    #[trigger] after.partitions[i]).0 < NUM_MAX_CPU by {
        let m = before.partitions.len() as int;
        if i < m {
            assert(after.partitions[i] == before.partitions[i]);
        } else {
            assert(after.partitions[i].0 == partition_cores(plan, free)[i - m]);
            assert(after.partitions[i].0 == free[plan.mh + (i - m)]);
        }
    }
}

/// Every DAG of an admitted batch is assigned CPUs that the kernel supports.
pub proof fn lemma_batch_cpus_supported(
    before: VFedStateView,
    configs: Seq<DagMetrics>,
    packing: PackingStrategy,
    num_cpu: usize,
    assignments: Seq<VFedAssignmentView>,
    place: int,
)
    requires
        num_cpu <= NUM_MAX_CPU,
        configs.len() <= usize::MAX,
        ({
            let free = free_workers(before.claimed, num_cpu);
            let plan = batch_plan(configs, free.len() as u16, packing);
            plan is Ok && batch_assignments(before.budgets, plan->Ok_0, free, assignments)
        }),
        0 <= place < configs.len(),
    ensures
        assignments[place].cpus_supported(),
{
    let free = free_workers(before.claimed, num_cpu);
    lemma_free_workers(before.claimed, num_cpu, num_cpu as int);
    let max_cores = free.len() as u16;
    let plan = batch_plan(configs, max_cores, packing)->Ok_0;
    lemma_batch_plan_is_sound(configs, max_cores, packing);
    let cores = free.take(plan.mh as int);
    let n = plan.heavy.len() as int;
    assert(is_planned(plan, place));
    if exists|k: int| 0 <= k < plan.heavy.len() && (#[trigger] plan.heavy[k]).0 == place {
        let k = choose|k: int| 0 <= k < plan.heavy.len() && (#[trigger] plan.heavy[k]).0 == place;
        lemma_heavy_commit_supported(plan.heavy, plan.mh, cores, before.budgets, k);
    } else {
        let k = choose|k: int| 0 <= k < plan.light.len() && (#[trigger] plan.light[k]).0 == place;
        let planned = heavy_allocation(configs_of(plan.heavy), plan.mh)->0;
        lemma_heavy_commit_supported(plan.heavy, plan.mh, cores, before.budgets, n);
        lemma_commit_follows_plan(plan.heavy, plan.mh, cores, before.budgets, n);
        assert(configs_of(plan.heavy).take(n) =~= configs_of(plan.heavy));
        let leftover = committed_heavy(before.budgets, plan, free, n).pool;
        let spare = max_cores - plan.mh;
        lemma_light_pool_supported(plan.light, leftover, planned.pool, spare, packing, k);
        lemma_light_follows_plan(plan.light, leftover, planned.pool, spare, packing, k);
        match plan.outcomes[k] {
            LightOutcomeView::Passive(indices) => {
                lemma_selected_supported(light_pool(leftover, plan.outcomes, k), indices);
            },
            LightOutcomeView::Partitioned(index) => {
                lemma_partitions_grow(plan.light, planned.pool, spare, packing, k + 1);
                let opened = partition_cores(plan, free);
                assert(index < opened.len());
                assert(opened[index as int] == free[plan.mh + index]);
            },
        }
    }
}

/// Admits every DAG of a batch, or none: a batch that does not fit leaves the state
/// exactly as it was. The assignments come in the order of `configs`.
pub fn admit_batch(
    state: &mut VFedState,
    configs: &[DagMetrics],
    packing: PackingStrategy,
    num_cpu: usize,
) -> (result: Result<Vec<VFedAssignment>, VFedError>)
    requires
        old(state)@.wf(),
        num_cpu <= NUM_MAX_CPU,
    ensures
        batch_admits(old(state)@, final(state)@, configs@, packing, num_cpu, result),
        final(state)@.wf(),
        result matches Ok(assignments) ==> forall|i: int|
            0 <= i < assignments@.len() ==> (#[trigger] assignments@[i]).cpus_supported(),
{
    let ghost before = state@;
    let ghost free = free_workers(before.claimed, num_cpu);
    let max_cores: u16 = free_core_count(&state.ledger, num_cpu);
    let count: usize = configs.len();
    let plan = match plan_batch(configs, max_cores, packing) {
        Err(error) => {
            return Err(error);
        },
        Ok(plan) => plan,
    };
    let ghost view = plan@;
    proof {
        lemma_batch_plan_is_sound(configs@, max_cores, packing);
    }
    let partition_count: u16 = plan.sim_partitions.len() as u16;
    let (heavy_cores, light_cores) = claim_batch(
        &mut state.ledger,
        num_cpu,
        plan.mh,
        partition_count,
    );
    let (assignments, mut pool) = assign(
        &plan,
        count,
        &heavy_cores,
        &light_cores,
        &mut state.budgets,
        Ghost(max_cores),
        Ghost(packing),
        Ghost(free),
    );
    let ghost pool_before = state.passive_pool@;
    let ghost left = pool@;
    state.passive_pool.append(&mut pool);
    assert(vps_view(state.passive_pool@) =~= vps_view(pool_before) + vps_view(left));
    add_partitions(&mut state.partitions, &light_cores, &plan.sim_partitions);
    proof {
        assert(partitions_of(state@.partitions) =~= partitions_of(before.partitions)
            + view.sim_partitions);
        assert(state@.pool == before.pool + vps_view(left));
        assert(state@ =~= state_after(before, view, free));
        let views = assignments_view(assignments@);
        assert forall|i: int| 0 <= i < assignments@.len() implies (
        #[trigger] assignments@[i]).cpus_supported() by {
            lemma_batch_cpus_supported(before, configs@, packing, num_cpu, views, i);
            assert(views[i] == assignments@[i]@);
        }
        lemma_batch_state_supported(before, configs@, packing, num_cpu);
    }
    Ok(assignments)
}

fn add_partitions(
    partitions: &mut Vec<(usize, Partition)>,
    cores: &Vec<usize>,
    new: &Vec<Partition>,
)
    requires
        cores@.len() == new@.len(),
    ensures
        final(partitions)@ == old(partitions)@ + Seq::new(
            new@.len(),
            |i: int| (cores@[i], new@[i]),
        ),
{
    let mut i: usize = 0;
    assert(partitions@ =~= old(partitions)@ + Seq::new(0, |k: int| (cores@[k], new@[k])));
    while i < cores.len()
        invariant
            i <= cores@.len(),
            cores@.len() == new@.len(),
            partitions@ == old(partitions)@ + Seq::new(i as nat, |k: int| (cores@[k], new@[k])),
        decreases cores@.len() - i,
    {
        partitions.push((cores[i], new[i]));
        i = i + 1;
        assert(partitions@ =~= old(partitions)@ + Seq::new(
            i as nat,
            |k: int| (cores@[k], new@[k]),
        ));
    }
}

/// Every DAG of an admitted batch is schedulable with what it is assigned.
pub proof fn lemma_admitted_batch_is_schedulable(
    before: VFedStateView,
    configs: Seq<DagMetrics>,
    packing: PackingStrategy,
    num_cpu: usize,
    assignments: Seq<VFedAssignmentView>,
    place: int,
)
    requires
        num_cpu <= NUM_MAX_CPU,
        configs.len() <= usize::MAX,
        ({
            let free = free_workers(before.claimed, num_cpu);
            let plan = batch_plan(configs, free.len() as u16, packing);
            plan is Ok && batch_assignments(before.budgets, plan->Ok_0, free, assignments)
        }),
        0 <= place < configs.len(),
    ensures
        suffices(configs[place], assignments[place]),
{
    let free = free_workers(before.claimed, num_cpu);
    lemma_free_workers(before.claimed, num_cpu, num_cpu as int);
    let max_cores = free.len() as u16;
    let plan = batch_plan(configs, max_cores, packing)->Ok_0;
    lemma_batch_plan_is_sound(configs, max_cores, packing);
    lemma_planned_entries(configs);
    let cores = free.take(plan.mh as int);
    let allocation = heavy_allocation(configs_of(plan.heavy), plan.mh)->0;
    let n = plan.heavy.len() as int;
    assert(is_planned(plan, place));
    if exists|k: int| 0 <= k < plan.heavy.len() && (#[trigger] plan.heavy[k]).0 == place {
        let k = choose|k: int| 0 <= k < plan.heavy.len() && (#[trigger] plan.heavy[k]).0 == place;
        assert(plan.heavy[k].1 == configs[place]);
        lemma_commit_follows_plan(plan.heavy, plan.mh, cores, before.budgets, k);
        let planned = heavy_allocation(configs_of(plan.heavy).take(k), plan.mh)->0;
        let actual = heavy_commit(plan.heavy, plan.heavy_plans, cores, before.budgets, k);
        let one = plan.heavy_plans[k];
        lemma_heavy_plan_is_schedulable(configs[place], planned.cores_left, planned.pool);
        lemma_select_by_kind(actual.pool, planned.pool, one.passive_indices);
        lemma_surplus_by_kind(
            select(actual.pool, one.passive_indices),
            select(planned.pool, one.passive_indices),
            configs[place].critical_path as int,
            configs[place].relative_deadline as int,
        );
        let active = active_vps(cores_of(cores, actual, one), one.active_budgets);
        assert(budgets_of(active) =~= one.active_budgets);
    } else {
        let k = choose|k: int| 0 <= k < plan.light.len() && (#[trigger] plan.light[k]).0 == place;
        assert(plan.light[k].1 == configs[place]);
        lemma_commit_follows_plan(plan.heavy, plan.mh, cores, before.budgets, n);
        assert(configs_of(plan.heavy).take(n) =~= configs_of(plan.heavy));
        let leftover = heavy_commit(plan.heavy, plan.heavy_plans, cores, before.budgets, n).pool;
        let spare = max_cores - plan.mh;
        lemma_light_follows_plan(plan.light, leftover, allocation.pool, spare, packing, k);
        let planned = light_run(plan.light.take(k), allocation.pool, spare, packing)->0;
        let left = light_pool(leftover, plan.outcomes, k);
        match plan.outcomes[k] {
            LightOutcomeView::Passive(indices) => {
                lemma_pulled(configs[place], 0, planned.pool);
                lemma_select_by_kind(left, planned.pool, indices);
                lemma_surplus_by_kind(
                    select(left, indices),
                    select(planned.pool, indices),
                    configs[place].critical_path as int,
                    configs[place].relative_deadline as int,
                );
            },
            LightOutcomeView::Partitioned(_) => {},
        }
    }
}

/// The passive VPs that the DAGs of an admitted batch are assigned are well formed.
pub proof fn lemma_batch_passives_wf(
    before: VFedStateView,
    configs: Seq<DagMetrics>,
    packing: PackingStrategy,
    num_cpu: usize,
    assignments: Seq<VFedAssignmentView>,
    place: int,
)
    requires
        num_cpu <= NUM_MAX_CPU,
        configs.len() <= usize::MAX,
        ({
            let free = free_workers(before.claimed, num_cpu);
            let plan = batch_plan(configs, free.len() as u16, packing);
            plan is Ok && batch_assignments(before.budgets, plan->Ok_0, free, assignments)
        }),
        0 <= place < configs.len(),
    ensures
        match assignments[place] {
            VFedAssignmentView::Heavy { passive, .. } => pool_wf(passive),
            VFedAssignmentView::LightPassive { passive } => pool_wf(passive),
            VFedAssignmentView::LightPartitioned { .. } => true,
        },
{
    let free = free_workers(before.claimed, num_cpu);
    lemma_free_workers(before.claimed, num_cpu, num_cpu as int);
    let max_cores = free.len() as u16;
    let plan = batch_plan(configs, max_cores, packing)->Ok_0;
    lemma_batch_plan_is_sound(configs, max_cores, packing);
    let cores = free.take(plan.mh as int);
    let n = plan.heavy.len() as int;
    assert(is_planned(plan, place));
    if exists|k: int| 0 <= k < plan.heavy.len() && (#[trigger] plan.heavy[k]).0 == place {
        let k = choose|k: int| 0 <= k < plan.heavy.len() && (#[trigger] plan.heavy[k]).0 == place;
        lemma_commit_follows_plan(plan.heavy, plan.mh, cores, before.budgets, k);
        let planned = heavy_allocation(configs_of(plan.heavy).take(k), plan.mh)->0;
        let actual = committed_heavy(before.budgets, plan, free, k);
        lemma_wf_by_kind(planned.pool, actual.pool);
        lemma_select_wf(actual.pool, plan.heavy_plans[k].passive_indices);
    } else {
        let k = choose|k: int| 0 <= k < plan.light.len() && (#[trigger] plan.light[k]).0 == place;
        let allocation = heavy_allocation(configs_of(plan.heavy), plan.mh)->0;
        lemma_commit_follows_plan(plan.heavy, plan.mh, cores, before.budgets, n);
        assert(configs_of(plan.heavy).take(n) =~= configs_of(plan.heavy));
        let leftover = committed_heavy(before.budgets, plan, free, n).pool;
        let spare = max_cores - plan.mh;
        lemma_light_follows_plan(plan.light, leftover, allocation.pool, spare, packing, k);
        let planned = light_run(plan.light.take(k), allocation.pool, spare, packing)->0;
        let left = light_pool(leftover, plan.outcomes, k);
        let shorter = plan.light.take(k);
        assert forall|i: int| 0 <= i < shorter.len() implies is_light_dag(
            (#[trigger] shorter[i]).1,
        ) by {
            assert(shorter[i] == plan.light[i]);
        }
        lemma_light_run(shorter, allocation.pool, spare, packing);
        lemma_wf_by_kind(planned.pool, left);
        match plan.outcomes[k] {
            LightOutcomeView::Passive(indices) => {
                lemma_select_wf(left, indices);
            },
            LightOutcomeView::Partitioned(_) => {},
        }
    }
}

proof fn lemma_select_wf(pool: Seq<PassiveVpView>, indices: Seq<usize>)
    requires
        pool_wf(pool),
        ascending_below(indices, pool.len() as int),
    ensures
        pool_wf(select(pool, indices)),
{
    let taken = select(pool, indices);
    assert forall|i: int| 0 <= i < taken.len() implies (#[trigger] taken[i]).wf() by {
        assert(taken[i] == pool[indices[i] as int]);
    }
}

/// The cores of the `k`-th heavy DAG of an admitted batch.
pub open spec fn batch_cores(
    budgets: Seq<ActiveVpCore>,
    plan: BatchPlanView,
    free: Seq<usize>,
    k: int,
) -> Seq<usize> {
    cores_of(
        free.take(plan.mh as int),
        committed_heavy(budgets, plan, free, k),
        plan.heavy_plans[k],
    )
}

proof fn lemma_used_grows(
    budgets: Seq<ActiveVpCore>,
    plan: BatchPlanView,
    free: Seq<usize>,
    j: int,
    k: int,
)
    requires
        0 <= j < k,
    ensures
        committed_heavy(budgets, plan, free, j).used + plan.heavy_plans[j].cores_used
            <= committed_heavy(budgets, plan, free, k).used,
    decreases k,
{
    if j < k - 1 {
        lemma_used_grows(budgets, plan, free, j, k - 1);
    }
}

/// No two DAGs of an admitted batch share a core of their own: the cores of a heavy DAG are
/// neither those of another heavy DAG nor those of a partition, and all of them were free.
pub proof fn lemma_batch_cores_are_exclusive(
    before: VFedStateView,
    configs: Seq<DagMetrics>,
    packing: PackingStrategy,
    num_cpu: usize,
    k: int,
    i: int,
)
    requires
        num_cpu <= NUM_MAX_CPU,
        configs.len() <= usize::MAX,
        batch_plan(
            configs,
            free_workers(before.claimed, num_cpu).len() as u16,
            packing,
        ) is Ok,
        ({
            let free = free_workers(before.claimed, num_cpu);
            let plan = batch_plan(configs, free.len() as u16, packing)->Ok_0;
            0 <= k < plan.heavy.len() && 0 <= i < batch_cores(before.budgets, plan, free, k).len()
        }),
    ensures
        ({
            let free = free_workers(before.claimed, num_cpu);
            let plan = batch_plan(configs, free.len() as u16, packing)->Ok_0;
            let cpu = batch_cores(before.budgets, plan, free, k)[i];
            &&& !before.claimed.contains(cpu)
            &&& free.contains(cpu)
            &&& !partition_cores(plan, free).contains(cpu)
            &&& forall|j: int|
                0 <= j < plan.heavy.len() && j != k ==> !(#[trigger] batch_cores(
                    before.budgets,
                    plan,
                    free,
                    j,
                )).contains(cpu)
        }),
{
    let free = free_workers(before.claimed, num_cpu);
    lemma_free_workers(before.claimed, num_cpu, num_cpu as int);
    let plan = batch_plan(configs, free.len() as u16, packing)->Ok_0;
    lemma_batch_plan_is_sound(configs, free.len() as u16, packing);
    let cores = free.take(plan.mh as int);
    lemma_commit_follows_plan(plan.heavy, plan.mh, cores, before.budgets, k);
    let at = committed_heavy(before.budgets, plan, free, k).used + i;
    let cpu = batch_cores(before.budgets, plan, free, k)[i];
    assert(cpu == free[at]);
    let opened = partition_cores(plan, free);
    if opened.contains(cpu) {
        let q = choose|q: int| 0 <= q < opened.len() && opened[q] == cpu;
        assert(opened[q] == free[plan.mh + q]);
        assert(free[at] < free[plan.mh + q]);
    }
    assert forall|j: int| 0 <= j < plan.heavy.len() && j != k implies !(#[trigger] batch_cores(
        before.budgets,
        plan,
        free,
        j,
    )).contains(cpu) by {
        let other = batch_cores(before.budgets, plan, free, j);
        if other.contains(cpu) {
            lemma_commit_follows_plan(plan.heavy, plan.mh, cores, before.budgets, j);
            let q = choose|q: int| 0 <= q < other.len() && other[q] == cpu;
            let there = committed_heavy(before.budgets, plan, free, j).used + q;
            assert(other[q] == free[there]);
            if j < k {
                lemma_used_grows(before.budgets, plan, free, j, k);
                assert(free[there] < free[at]);
            } else {
                lemma_used_grows(before.budgets, plan, free, k, j);
                assert(free[at] < free[there]);
            }
        }
    }
}

/// A batch is admitted exactly if it is feasible on the cores that are free, and a batch that
/// is not admitted changes nothing.
pub proof fn lemma_admitted_iff_feasible(
    before: VFedStateView,
    after: VFedStateView,
    configs: Seq<DagMetrics>,
    packing: PackingStrategy,
    num_cpu: usize,
    result: Result<Vec<VFedAssignment>, VFedError>,
)
    requires
        batch_admits(before, after, configs, packing, num_cpu, result),
    ensures
        result is Ok == batch_plan(
            configs,
            free_workers(before.claimed, num_cpu).len() as u16,
            packing,
        ) is Ok,
        result is Err ==> after == before,
{
}

/// A batch with a DAG that cannot be classified is refused for the first such DAG.
pub proof fn lemma_batch_is_refused_for_the_first(
    configs: Seq<DagMetrics>,
    max_cores: u16,
    packing: PackingStrategy,
    k: int,
)
    requires
        0 <= k < configs.len(),
        class_of(configs[k]) is Err,
        forall|i: int| 0 <= i < k ==> class_of(#[trigger] configs[i]) is Ok,
    ensures
        batch_plan(configs, max_cores, packing) == Err::<BatchPlanView, VFedError>(
            class_of(configs[k])->Err_0,
        ),
{
    lemma_first_error_at(configs, 0, k);
}

proof fn lemma_first_error_at(configs: Seq<DagMetrics>, from: int, k: int)
    requires
        0 <= from <= k < configs.len(),
        class_of(configs[k]) is Err,
        forall|i: int| from <= i < k ==> class_of(#[trigger] configs[i]) is Ok,
    ensures
        first_error(configs, from) == Some(class_of(configs[k])->Err_0),
    decreases k - from,
{
    if from < k {
        lemma_first_error_at(configs, from + 1, k);
    }
}

} // verus!
