//! What an admitted batch holds afterwards: its cores, its budgets and its partitions.

use vstd::prelude::*;

use super::batch::{batch_plan, density, light_run, light_step, within_one_core, LightOutcomeView};
use super::commit::{active_vps, ActiveVp, VFedAssignmentView, VFedStateView};
use super::commit_batch::{
    all_light, batch_assignments, batch_cores, committed_heavy, cores_of, heavy_commit, is_planned,
    lemma_batch_cores_are_exclusive, lemma_batch_plan_is_sound, lemma_commit_follows_plan,
    lemma_partitions_grow, partition_cores, state_after,
};
use super::guarantee::lemma_group_is_armed;
use super::order::Entry;
use super::packing::{lemma_chosen_partition, PackingStrategy};
use super::plan::HeavyPlanView;
use super::supply::PassiveVpView;
use crate::cpu::NUM_MAX_CPU;
use crate::dag_sched::metrics::DagMetrics;
use crate::dag_sched::resource::{free_workers, lemma_free_workers};
use crate::scheduler::active_vp::ActiveVpCore;

verus! {

/// A batch that was admitted: the plan succeeded and the assignments are the planned ones.
pub open spec fn batch_admitted(
    before: VFedStateView,
    configs: Seq<DagMetrics>,
    packing: PackingStrategy,
    num_cpu: usize,
    assignments: Seq<VFedAssignmentView>,
) -> bool {
    let free = free_workers(before.claimed, num_cpu);
    let plan = batch_plan(configs, free.len() as u16, packing);
    plan is Ok && batch_assignments(before.budgets, plan->Ok_0, free, assignments)
}

/// The state after a batch.
pub open spec fn after_batch(
    before: VFedStateView,
    configs: Seq<DagMetrics>,
    packing: PackingStrategy,
    num_cpu: usize,
) -> VFedStateView {
    let free = free_workers(before.claimed, num_cpu);
    state_after(before, batch_plan(configs, free.len() as u16, packing)->Ok_0, free)
}

proof fn lemma_heavy_place(
    before: VFedStateView,
    configs: Seq<DagMetrics>,
    packing: PackingStrategy,
    num_cpu: usize,
    assignments: Seq<VFedAssignmentView>,
    place: int,
) -> (k: int)
    requires
        num_cpu <= NUM_MAX_CPU,
        configs.len() <= usize::MAX,
        batch_admitted(before, configs, packing, num_cpu, assignments),
        0 <= place < configs.len(),
        assignments[place] is Heavy,
    ensures
        ({
            let free = free_workers(before.claimed, num_cpu);
            let plan = batch_plan(configs, free.len() as u16, packing)->Ok_0;
            let active = assignments[place]->Heavy_active;
            let cores = batch_cores(before.budgets, plan, free, k);
            &&& 0 <= k < plan.heavy.len()
            &&& plan.heavy[k].0 == place
            &&& active == active_vps(cores, plan.heavy_plans[k].active_budgets)
            &&& active.len() == cores.len() == plan.heavy_plans[k].cores_used
        }),
{
    let free = free_workers(before.claimed, num_cpu);
    lemma_free_workers(before.claimed, num_cpu, num_cpu as int);
    let plan = batch_plan(configs, free.len() as u16, packing)->Ok_0;
    lemma_batch_plan_is_sound(configs, free.len() as u16, packing);
    assert(is_planned(plan, place));
    if !(exists|k: int| 0 <= k < plan.heavy.len() && (#[trigger] plan.heavy[k]).0 == place) {
        let k = choose|k: int| 0 <= k < plan.light.len() && (#[trigger] plan.light[k]).0 == place;
        assert(assignments[plan.light[k].0 as int] is LightPassive
            || assignments[plan.light[k].0 as int] is LightPartitioned);
    }
    let k = choose|k: int| 0 <= k < plan.heavy.len() && (#[trigger] plan.heavy[k]).0 == place;
    assert(plan.heavy[k].0 == place);
    lemma_commit_follows_plan(
        plan.heavy,
        plan.mh,
        free.take(plan.mh as int),
        before.budgets,
        k,
    );
    k
}

/// Every core of a heavy DAG of an admitted batch was free, is claimed afterwards, and is a
/// core of no other DAG of the batch, heavy or partitioned.
pub proof fn lemma_batch_cores_are_its_own(
    before: VFedStateView,
    configs: Seq<DagMetrics>,
    packing: PackingStrategy,
    num_cpu: usize,
    assignments: Seq<VFedAssignmentView>,
    place: int,
    i: int,
)
    requires
        num_cpu <= NUM_MAX_CPU,
        configs.len() <= usize::MAX,
        batch_admitted(before, configs, packing, num_cpu, assignments),
        0 <= place < configs.len(),
        assignments[place] matches VFedAssignmentView::Heavy { active, .. } && 0 <= i
            < active.len(),
    ensures
        ({
            let cpu = assignments[place]->Heavy_active[i].cpu;
            &&& !before.claimed.contains(cpu)
            &&& after_batch(before, configs, packing, num_cpu).claimed.contains(cpu)
            &&& forall|other: int|
                0 <= other < configs.len() && other != place ==> match #[trigger] assignments[other] {
                    VFedAssignmentView::Heavy { active, .. } => forall|j: int|
                        0 <= j < active.len() ==> (#[trigger] active[j]).cpu != cpu,
                    VFedAssignmentView::LightPassive { .. } => true,
                    VFedAssignmentView::LightPartitioned { cpu: core } => core != cpu,
                }
        }),
{
    let free = free_workers(before.claimed, num_cpu);
    lemma_free_workers(before.claimed, num_cpu, num_cpu as int);
    let plan = batch_plan(configs, free.len() as u16, packing)->Ok_0;
    lemma_batch_plan_is_sound(configs, free.len() as u16, packing);
    let k = lemma_heavy_place(before, configs, packing, num_cpu, assignments, place);
    let own = batch_cores(before.budgets, plan, free, k);
    let cpu = assignments[place]->Heavy_active[i].cpu;
    assert(cpu == own[i]);
    lemma_batch_cores_are_exclusive(before, configs, packing, num_cpu, k, i);
    lemma_commit_follows_plan(
        plan.heavy,
        plan.mh,
        free.take(plan.mh as int),
        before.budgets,
        k,
    );
    let at = committed_heavy(before.budgets, plan, free, k).used + i;
    let claims = free.take(plan.mh + plan.sim_partitions.len());
    assert(claims[at] == cpu);
    assert(claims.contains(cpu));
    assert forall|other: int| 0 <= other < configs.len() && other != place implies match
    #[trigger] assignments[other] {
        VFedAssignmentView::Heavy { active, .. } => forall|j: int|
            0 <= j < active.len() ==> (#[trigger] active[j]).cpu != cpu,
        VFedAssignmentView::LightPassive { .. } => true,
        VFedAssignmentView::LightPartitioned { cpu: core } => core != cpu,
    } by {
        match assignments[other] {
            VFedAssignmentView::Heavy { active, .. } => {
                let q = lemma_heavy_place(before, configs, packing, num_cpu, assignments, other);
                assert(plan.heavy[q].0 == other && plan.heavy[k].0 == place);
                assert(q != k);
                let theirs = batch_cores(before.budgets, plan, free, q);
                assert(!theirs.contains(cpu));
                assert forall|j: int| 0 <= j < active.len() implies (#[trigger] active[j]).cpu
                    != cpu by {
                    assert(active[j].cpu == theirs[j]);
                }
            },
            VFedAssignmentView::LightPassive { .. } => {},
            VFedAssignmentView::LightPartitioned { cpu: core } => {
                let q = lemma_partitioned_place(
                    before,
                    configs,
                    packing,
                    num_cpu,
                    assignments,
                    other,
                );
                let opened = partition_cores(plan, free);
                assert(opened[plan.outcomes[q]->Partitioned_0 as int] == core);
            },
        }
    }
}

proof fn lemma_partitioned_place(
    before: VFedStateView,
    configs: Seq<DagMetrics>,
    packing: PackingStrategy,
    num_cpu: usize,
    assignments: Seq<VFedAssignmentView>,
    place: int,
) -> (k: int)
    requires
        num_cpu <= NUM_MAX_CPU,
        configs.len() <= usize::MAX,
        batch_admitted(before, configs, packing, num_cpu, assignments),
        0 <= place < configs.len(),
        assignments[place] is LightPartitioned,
    ensures
        ({
            let free = free_workers(before.claimed, num_cpu);
            let plan = batch_plan(configs, free.len() as u16, packing)->Ok_0;
            let opened = partition_cores(plan, free);
            &&& 0 <= k < plan.light.len() == plan.outcomes.len()
            &&& plan.light[k].0 == place
            &&& plan.outcomes[k] matches LightOutcomeView::Partitioned(index) && index
                < opened.len() && opened[index as int] == assignments[place]->LightPartitioned_cpu
        }),
{
    let free = free_workers(before.claimed, num_cpu);
    lemma_free_workers(before.claimed, num_cpu, num_cpu as int);
    let max_cores = free.len() as u16;
    let plan = batch_plan(configs, max_cores, packing)->Ok_0;
    lemma_batch_plan_is_sound(configs, max_cores, packing);
    assert(is_planned(plan, place));
    if exists|k: int| 0 <= k < plan.heavy.len() && (#[trigger] plan.heavy[k]).0 == place {
        let k = choose|k: int| 0 <= k < plan.heavy.len() && (#[trigger] plan.heavy[k]).0 == place;
        assert(assignments[plan.heavy[k].0 as int] is Heavy);
    }
    let k = choose|k: int| 0 <= k < plan.light.len() && (#[trigger] plan.light[k]).0 == place;
    assert(plan.light[k].0 == place);
    let pool = super::batch::heavy_allocation(
        super::batch::configs_of(plan.heavy),
        plan.mh,
    )->0.pool;
    let spare = max_cores - plan.mh;
    lemma_partitions_grow(plan.light, pool, spare, packing, k + 1);
    super::batch::lemma_light_run_prefix(plan.light, pool, spare, packing, k + 1);
    super::batch::lemma_light_run_prefix(plan.light, pool, spare, packing, k);
    let run = light_run(plan.light.take(k), pool, spare, packing)->0;
    assert(plan.light.take(k + 1).drop_last() =~= plan.light.take(k));
    assert(plan.light.take(k + 1).last() == plan.light[k]);
    let next = light_run(plan.light.take(k + 1), pool, spare, packing)->0;
    assert(next.outcomes.last() == plan.outcomes[k]);
    lemma_chosen_partition(packing, run.partitions, density(plan.light[k].1));
    k
}

/// The cores of the heavy DAGs are armed as they are handed out: what a DAG was given stays,
/// as no later one gets the same core.
proof fn lemma_handed_out_cores_stay_armed(
    heavy: Seq<Entry>,
    mh: u16,
    cores: Seq<usize>,
    budgets: Seq<ActiveVpCore>,
    n: int,
    k: int,
    i: int,
)
    requires
        super::commit_batch::all_heavy(heavy),
        super::batch::heavy_allocation(super::batch::configs_of(heavy), mh) is Some,
        cores.len() == mh,
        forall|a: int, b: int| 0 <= a < b < cores.len() ==> cores[a] != cores[b],
        forall|a: int| 0 <= a < cores.len() ==> (#[trigger] cores[a]) < budgets.len(),
        0 <= k < n <= heavy.len(),
        ({
            let plans = super::batch::heavy_allocation(
                super::batch::configs_of(heavy),
                mh,
            )->0.plans;
            0 <= i < plans[k].cores_used
        }),
    ensures
        ({
            let plans = super::batch::heavy_allocation(
                super::batch::configs_of(heavy),
                mh,
            )->0.plans;
            let cpu = cores[heavy_commit(heavy, plans, cores, budgets, k).used + i];
            let after = heavy_commit(heavy, plans, cores, budgets, n).budgets;
            &&& after.len() == budgets.len()
            &&& after[cpu as int].initial_budget == plans[k].active_budgets[i]
            &&& after[cpu as int].remaining == plans[k].active_budgets[i]
        }),
    decreases n,
{
    let plans = super::batch::heavy_allocation(super::batch::configs_of(heavy), mh)->0.plans;
    lemma_commit_follows_plan(heavy, mh, cores, budgets, n - 1);
    lemma_commit_follows_plan(heavy, mh, cores, budgets, k);
    let before = heavy_commit(heavy, plans, cores, budgets, n - 1);
    let plan = plans[n - 1];
    let own = cores_of(cores, before, plan);
    let active = active_vps(own, plan.active_budgets);
    let cpu = cores[heavy_commit(heavy, plans, cores, budgets, k).used + i];
    lemma_budgets_len(heavy, plans, cores, budgets, n - 1);
    assert forall|a: int| 0 <= a < active.len() implies (#[trigger] active[a]).cpu
        < before.budgets.len() by {
        assert(active[a].cpu == cores[before.used + a]);
    }
    assert forall|a: int, b: int| 0 <= a < b < active.len() implies active[a].cpu
        != active[b].cpu by {
        assert(active[a].cpu == cores[before.used + a] && active[b].cpu == cores[before.used + b]);
    }
    lemma_group_is_armed(before.budgets, active);
    if k == n - 1 {
        assert(active[i].cpu == cpu);
        assert(active[i].budget == plan.active_budgets[i]);
    } else {
        lemma_handed_out_cores_stay_armed(heavy, mh, cores, budgets, n - 1, k, i);
        lemma_used_so_far(heavy, plans, cores, budgets, k, n - 1);
        assert forall|a: int| 0 <= a < active.len() implies (#[trigger] active[a]).cpu != cpu by {
            assert(active[a].cpu == cores[before.used + a]);
        }
    }
}

proof fn lemma_budgets_len(
    heavy: Seq<Entry>,
    plans: Seq<HeavyPlanView>,
    cores: Seq<usize>,
    budgets: Seq<ActiveVpCore>,
    n: int,
)
    ensures
        heavy_commit(heavy, plans, cores, budgets, n).budgets.len() == budgets.len(),
    decreases n,
{
    if n > 0 {
        lemma_budgets_len(heavy, plans, cores, budgets, n - 1);
        let before = heavy_commit(heavy, plans, cores, budgets, n - 1);
        let active = active_vps(cores_of(cores, before, plans[n - 1]), plans[n - 1].active_budgets);
        lemma_arm_all_len(before.budgets, active);
    }
}

proof fn lemma_arm_all_len(table: Seq<ActiveVpCore>, active: Seq<ActiveVp>)
    ensures
        super::commit::arm_all(table, active).len() == table.len(),
    decreases active.len(),
{
    if active.len() > 0 {
        lemma_arm_all_len(table, active.drop_last());
    }
}

proof fn lemma_used_so_far(
    heavy: Seq<Entry>,
    plans: Seq<HeavyPlanView>,
    cores: Seq<usize>,
    budgets: Seq<ActiveVpCore>,
    k: int,
    n: int,
)
    requires
        0 <= k < n,
    ensures
        heavy_commit(heavy, plans, cores, budgets, k).used + plans[k].cores_used <= heavy_commit(
            heavy,
            plans,
            cores,
            budgets,
            n,
        ).used,
    decreases n,
{
    if k < n - 1 {
        lemma_used_so_far(heavy, plans, cores, budgets, k, n - 1);
    }
}

/// After a batch, every core of a heavy DAG is armed with the budget that the DAG was assigned
/// on it, all of it left.
#[verifier::rlimit(50)]
#[verifier::spinoff_prover]
pub proof fn lemma_batch_budgets_are_armed(
    before: VFedStateView,
    configs: Seq<DagMetrics>,
    packing: PackingStrategy,
    num_cpu: usize,
    assignments: Seq<VFedAssignmentView>,
    place: int,
    i: int,
)
    requires
        num_cpu <= NUM_MAX_CPU,
        before.budgets.len() == NUM_MAX_CPU,
        configs.len() <= usize::MAX,
        batch_admitted(before, configs, packing, num_cpu, assignments),
        0 <= place < configs.len(),
        assignments[place] matches VFedAssignmentView::Heavy { active, .. } && 0 <= i
            < active.len(),
    ensures
        ({
            let vp = assignments[place]->Heavy_active[i];
            let core = after_batch(before, configs, packing, num_cpu).budgets[vp.cpu as int];
            core.initial_budget == vp.budget && core.remaining == vp.budget
        }),
{
    let free = free_workers(before.claimed, num_cpu);
    lemma_free_workers(before.claimed, num_cpu, num_cpu as int);
    let plan = batch_plan(configs, free.len() as u16, packing)->Ok_0;
    lemma_batch_plan_is_sound(configs, free.len() as u16, packing);
    let k = lemma_heavy_place(before, configs, packing, num_cpu, assignments, place);
    let cores = free.take(plan.mh as int);
    assert forall|a: int, b: int| 0 <= a < b < cores.len() implies cores[a] != cores[b] by {
        assert(free[a] < free[b]);
    }
    assert forall|a: int| 0 <= a < cores.len() implies (#[trigger] cores[a])
        < before.budgets.len() by {
        assert(cores[a] == free[a]);
    }
    lemma_commit_follows_plan(plan.heavy, plan.mh, cores, before.budgets, k);
    let plans = super::batch::heavy_allocation(
        super::batch::configs_of(plan.heavy),
        plan.mh,
    )->0.plans;
    assert(plans == plan.heavy_plans);
    assert(0 <= i < plans[k].cores_used);
    lemma_handed_out_cores_stay_armed(
        plan.heavy,
        plan.mh,
        cores,
        before.budgets,
        plan.heavy.len() as int,
        k,
        i,
    );
    let vp = assignments[place]->Heavy_active[i];
    assert(vp.cpu == cores[committed_heavy(before.budgets, plan, free, k).used + i]);
}

/// The sum of the densities of those of the first `n` light DAGs that joined the partition at
/// place `p`.
pub open spec fn joined_density(
    light: Seq<Entry>,
    outcomes: Seq<LightOutcomeView>,
    p: int,
    n: int,
) -> int
    decreases n,
{
    if n <= 0 {
        0
    } else {
        joined_density(light, outcomes, p, n - 1) + if outcomes[n - 1] is Partitioned
            && outcomes[n - 1]->Partitioned_0 == p {
            density(light[n - 1].1) as int
        } else {
            0
        }
    }
}

proof fn lemma_joined_density_prefix(
    light: Seq<Entry>,
    a: Seq<LightOutcomeView>,
    b: Seq<LightOutcomeView>,
    shorter: Seq<Entry>,
    p: int,
    n: int,
)
    requires
        n <= a.len(),
        n <= b.len(),
        n <= light.len(),
        n <= shorter.len(),
        forall|i: int| 0 <= i < n ==> (#[trigger] a[i]) == b[i],
        forall|i: int| 0 <= i < n ==> (#[trigger] light[i]) == shorter[i],
    ensures
        joined_density(light, a, p, n) == joined_density(shorter, b, p, n),
    decreases n,
{
    if n > 0 {
        lemma_joined_density_prefix(light, a, b, shorter, p, n - 1);
        assert(a[n - 1] == b[n - 1] && light[n - 1] == shorter[n - 1]);
    }
}

/// A partition is committed to exactly the DAGs that are placed in it: what it holds is the sum
/// of their densities, and that is at most one core.
pub proof fn lemma_partition_holds_its_dags(
    light: Seq<Entry>,
    pool: Seq<PassiveVpView>,
    spare: int,
    packing: PackingStrategy,
)
    requires
        all_light(light),
        super::plan::pool_wf(pool),
        pool.len() <= usize::MAX,
        0 <= spare <= u16::MAX,
        light_run(light, pool, spare, packing) is Some,
    ensures
        ({
            let run = light_run(light, pool, spare, packing)->0;
            &&& run.outcomes.len() == light.len()
            &&& forall|p: int|
                0 <= p < run.partitions.len() ==> (
                #[trigger] run.partitions[p]).committed_density_scaled == joined_density(
                    light,
                    run.outcomes,
                    p,
                    light.len() as int,
                ) && run.partitions[p].committed_density_scaled <= 1_000_000
            &&& forall|p: int|
                p >= run.partitions.len() ==> #[trigger] joined_density(
                    light,
                    run.outcomes,
                    p,
                    light.len() as int,
                ) == 0
        }),
    decreases light.len(),
{
    super::batch::lemma_light_run(light, pool, spare, packing);
    let run = light_run(light, pool, spare, packing)->0;
    let n = light.len() as int;
    assert(within_one_core(run.partitions));
    if n > 0 {
        let rest = light.drop_last();
        assert forall|i: int| 0 <= i < rest.len() implies super::batch::is_light_dag(
            (#[trigger] rest[i]).1,
        ) by {
            assert(rest[i] == light[i]);
        }
        lemma_partition_holds_its_dags(rest, pool, spare, packing);
        super::batch::lemma_light_run(rest, pool, spare, packing);
        let before = light_run(rest, pool, spare, packing)->0;
        let config = light.last().1;
        lemma_chosen_partition(packing, before.partitions, density(config));
        assert(light_step(before, config, spare, packing) == Some(run));
        assert forall|p: int| joined_density(light, run.outcomes, p, n - 1)
            == #[trigger] joined_density(rest, before.outcomes, p, n - 1) by {
            lemma_joined_density_prefix(light, run.outcomes, before.outcomes, rest, p, n - 1);
        }
        assert(super::batch::is_light_dag(light[n - 1].1));
        crate::dag_sched::resource::lemma_scaled_ratio_at_most_one(
            config.volume as int,
            config.relative_deadline as int,
        );
        assert forall|p: int| 0 <= p < run.partitions.len() implies (
        #[trigger] run.partitions[p]).committed_density_scaled == joined_density(
            light,
            run.outcomes,
            p,
            n,
        ) by {
            let earlier = joined_density(rest, before.outcomes, p, n - 1);
            if p < before.partitions.len() {
                assert(before.partitions[p].committed_density_scaled == earlier);
            } else {
                assert(earlier == 0);
            }
        }
        assert forall|p: int| p >= run.partitions.len() implies #[trigger] joined_density(
            light,
            run.outcomes,
            p,
            n,
        ) == 0 by {
            assert(joined_density(rest, before.outcomes, p, n - 1) == 0);
        }
    }
}

} // verus!
