//! What holds when DAGs are admitted one after another.

use vstd::prelude::*;

use super::batch::{
    density, heavy_allocation, is_heavy_dag, is_light_dag, lemma_heavy_allocation,
    lemma_pool_after, light_run, light_step, slots,
};
use super::commit::{
    active_cpus, active_vps, admission, budgets_of, partitions_of, VFedAssignmentView,
    VFedStateView,
};
use super::commit_batch::{kinds, lemma_pool_after_by_kind, lemma_surplus_by_kind};
use super::order::Entry;
use super::packing::{chosen_partition, lemma_chosen_partition, PackingStrategy};
use super::plan::{heavy_plan, partial_budgets, pull_from, pulled, sum, useful_below};
use super::supply::PassiveVpView;
use crate::cpu::NUM_MAX_CPU;
use crate::dag_sched::metrics::DagMetrics;
use crate::dag_sched::resource::{
    free_workers, lemma_cluster_is_fresh, lemma_free_after_claim, lemma_free_workers,
};
use crate::scheduler::pool::dag_pool_core;

verus! {

/// No core is ever handed out twice. The cores of a new group of active VPs, and that of a
/// new partition, belong to the DAG pool, nobody had claimed them, and they are claimed from
/// now on; what was claimed stays claimed.
pub proof fn lemma_admission_takes_free_cores(
    state: VFedStateView,
    config: DagMetrics,
    packing: PackingStrategy,
    num_cpu: usize,
)
    requires
        state.wf(),
        state.pool.len() <= usize::MAX,
        state.partitions.len() <= usize::MAX,
        num_cpu <= NUM_MAX_CPU,
        admission(state, config, packing, num_cpu) is Ok,
    ensures
        ({
            let (after, assignment) = admission(state, config, packing, num_cpu)->Ok_0;
            &&& state.claimed.subset_of(after.claimed)
            &&& match assignment {
                VFedAssignmentView::Heavy { active, .. } => {
                    &&& after.claimed == state.claimed.union(active_cpus(active))
                    &&& forall|cpu: usize| #[trigger]
                        active_cpus(active).contains(cpu) ==> !state.claimed.contains(cpu)
                            && dag_pool_core(cpu as int, num_cpu as int)
                    &&& forall|i: int, j: int|
                        0 <= i < j < active.len() ==> (#[trigger] active[i]).cpu != (
                        #[trigger] active[j]).cpu
                },
                VFedAssignmentView::LightPassive { .. } => after.claimed == state.claimed,
                VFedAssignmentView::LightPartitioned { cpu } => {
                    ||| after.claimed == state.claimed && exists|i: int|
                        0 <= i < state.partitions.len() && (#[trigger] state.partitions[i]).0
                            == cpu
                    ||| after.claimed == state.claimed.insert(cpu) && !state.claimed.contains(cpu)
                        && dag_pool_core(cpu as int, num_cpu as int)
                },
            }
        }),
{
    let free = free_workers(state.claimed, num_cpu);
    lemma_free_workers(state.claimed, num_cpu, num_cpu as int);
    let (after, assignment) = admission(state, config, packing, num_cpu)->Ok_0;
    match assignment {
        VFedAssignmentView::Heavy { active, .. } => {
            let plan = heavy_plan(config, free.len() as u16, state.pool)->Ok_0;
            lemma_pool_after(
                state.pool,
                config,
                free.len() as u16,
                free.take(plan.cores_used as int),
            );
            let cpus = free.take(plan.cores_used as int);
            assert(Seq::new(active.len(), |i: int| active[i].cpu) =~= cpus);
            assert forall|cpu: usize| #[trigger] active_cpus(active).contains(cpu) implies
                !state.claimed.contains(cpu) && dag_pool_core(cpu as int, num_cpu as int) by {
                lemma_cluster_is_fresh(state.claimed, num_cpu, plan.cores_used as int, cpu);
            }
            assert forall|i: int, j: int| 0 <= i < j < active.len() implies (
            #[trigger] active[i]).cpu != (#[trigger] active[j]).cpu by {
                assert(free[i] < free[j]);
            }
        },
        VFedAssignmentView::LightPassive { .. } => {},
        VFedAssignmentView::LightPartitioned { cpu } => {
            lemma_chosen_partition(packing, partitions_of(state.partitions), density(config));
            match chosen_partition(packing, partitions_of(state.partitions), density(config)) {
                Some(index) => {
                    assert(state.partitions[index as int].0 == cpu);
                },
                None => {
                    assert(free.take(1) =~= seq![free[0]]);
                    assert(seq![cpu][0] == cpu);
                    assert(free.take(1).to_set().contains(cpu));
                    lemma_cluster_is_fresh(state.claimed, num_cpu, 1, cpu);
                    assert forall|c: usize| free.take(1).to_set().contains(c) implies c == cpu by {
                        let k = choose|k: int| 0 <= k < free.take(1).len() && free.take(1)[k] == c;
                    }
                    assert(after.claimed =~= state.claimed.insert(cpu));
                },
            }
        },
    }
}

/// Admitting every DAG of a list in turn: the state and the assignments at the end, or
/// nothing if one of them is refused.
pub open spec fn one_by_one(
    state: VFedStateView,
    configs: Seq<DagMetrics>,
    packing: PackingStrategy,
    num_cpu: usize,
) -> Option<(VFedStateView, Seq<VFedAssignmentView>)>
    decreases configs.len(),
{
    if configs.len() == 0 {
        Some((state, Seq::empty()))
    } else {
        match one_by_one(state, configs.drop_last(), packing, num_cpu) {
            None => None,
            Some((reached, done)) => match admission(reached, configs.last(), packing, num_cpu) {
                Err(_) => None,
                Ok((after, assignment)) => Some((after, done.push(assignment))),
            },
        }
    }
}

proof fn lemma_useful_by_kind(
    a: Seq<PassiveVpView>,
    b: Seq<PassiveVpView>,
    critical_path: int,
    deadline: int,
    n: int,
)
    requires
        kinds(a) == kinds(b),
        n <= a.len(),
    ensures
        useful_below(a, critical_path, deadline, n) == useful_below(b, critical_path, deadline, n),
    decreases n,
{
    assert(a.len() == kinds(a).len() && b.len() == kinds(b).len());
    if n > 0 {
        lemma_useful_by_kind(a, b, critical_path, deadline, n - 1);
        assert(kinds(a)[n - 1] == kinds(b)[n - 1]);
    }
}

/// Which passive VPs a DAG takes does not depend on their CPUs.
proof fn lemma_pull_by_kind(
    volume: int,
    critical_path: int,
    deadline: int,
    active_sum: int,
    a: Seq<PassiveVpView>,
    b: Seq<PassiveVpView>,
    n: int,
)
    requires
        kinds(a) == kinds(b),
        0 <= n,
    ensures
        pull_from(volume, critical_path, deadline, active_sum, a, n) == pull_from(
            volume,
            critical_path,
            deadline,
            active_sum,
            b,
            n,
        ),
    decreases a.len() - n,
{
    assert(a.len() == kinds(a).len() && b.len() == kinds(b).len());
    if n < a.len() {
        assert(kinds(a)[n] == kinds(b)[n]);
        assert(kinds(a.take(n + 1)) =~= kinds(a).take(n + 1));
        assert(kinds(b.take(n + 1)) =~= kinds(b).take(n + 1));
        lemma_surplus_by_kind(a.take(n + 1), b.take(n + 1), critical_path, deadline);
        lemma_useful_by_kind(a, b, critical_path, deadline, n + 1);
        lemma_pull_by_kind(volume, critical_path, deadline, active_sum, a, b, n + 1);
    }
}

proof fn lemma_plan_by_kind(
    config: DagMetrics,
    cores: u16,
    a: Seq<PassiveVpView>,
    b: Seq<PassiveVpView>,
)
    requires
        kinds(a) == kinds(b),
    ensures
        heavy_plan(config, cores, a) == heavy_plan(config, cores, b),
{
    let budgets = partial_budgets(
        config.critical_path as int,
        config.relative_deadline as int,
        cores as int,
    );
    lemma_pull_by_kind(
        config.volume as int,
        config.critical_path as int,
        config.relative_deadline as int,
        sum(budgets),
        a,
        b,
        0,
    );
}

/// Admitting heavy DAGs one after another, from a state without passive VPs, comes to what
/// planning them together with all free cores does: all are admitted exactly if the plan
/// succeeds, each with the planned budgets and as many passive VPs as planned; and as many
/// cores stay free, and passive VPs of the same kinds are left over, as planned.
pub proof fn lemma_heavy_one_by_one(
    state: VFedStateView,
    configs: Seq<DagMetrics>,
    packing: PackingStrategy,
    num_cpu: usize,
)
    requires
        num_cpu <= NUM_MAX_CPU,
        state.pool.len() == 0,
        forall|i: int| 0 <= i < configs.len() ==> is_heavy_dag(#[trigger] configs[i]),
    ensures
        ({
            let mh = free_workers(state.claimed, num_cpu).len() as u16;
            let planned = heavy_allocation(configs, mh);
            let admitted = one_by_one(state, configs, packing, num_cpu);
            &&& planned is Some == admitted is Some
            &&& admitted matches Some((after, assignments)) ==> {
                &&& free_workers(after.claimed, num_cpu).len() == planned->0.cores_left
                &&& kinds(after.pool) == kinds(planned->0.pool)
                &&& after.partitions == state.partitions
                &&& assignments.len() == configs.len() == planned->0.plans.len()
                &&& forall|k: int|
                    0 <= k < assignments.len() ==> ((#[trigger] assignments[k]) matches
                        VFedAssignmentView::Heavy { active, passive } && budgets_of(active)
                        == planned->0.plans[k].active_budgets && passive.len()
                        == planned->0.plans[k].passive_indices.len())
            }
        }),
    decreases configs.len(),
{
    let mh = free_workers(state.claimed, num_cpu).len() as u16;
    lemma_free_workers(state.claimed, num_cpu, num_cpu as int);
    if configs.len() == 0 {
        assert(kinds(state.pool) =~= kinds(Seq::<PassiveVpView>::empty()));
    } else {
        let rest = configs.drop_last();
        assert forall|i: int| 0 <= i < rest.len() implies is_heavy_dag(#[trigger] rest[i]) by {
            assert(rest[i] == configs[i]);
        }
        lemma_heavy_one_by_one(state, rest, packing, num_cpu);
        if let Some((reached, done)) = one_by_one(state, rest, packing, num_cpu) {
            let before = heavy_allocation(rest, mh)->0;
            let config = configs.last();
            assert(config == configs[configs.len() - 1]);
            let free = free_workers(reached.claimed, num_cpu);
            lemma_heavy_allocation(rest, mh);
            assert(free.len() as u16 == before.cores_left);
            assert(reached.pool.len() == kinds(reached.pool).len());
            assert(before.pool.len() == kinds(before.pool).len());
            lemma_plan_by_kind(config, before.cores_left, reached.pool, before.pool);
            if heavy_plan(config, before.cores_left, before.pool) is Ok {
                let plan = heavy_plan(config, before.cores_left, before.pool)->Ok_0;
                let cpus = free.take(plan.cores_used as int);
                let places = slots(mh - before.cores_left, plan.active_budgets.len());
                lemma_pool_after(before.pool, config, before.cores_left, places);
                lemma_pool_after_by_kind(
                    reached.pool,
                    before.pool,
                    config,
                    plan,
                    cpus,
                    places,
                );
                lemma_free_after_claim(reached.claimed, num_cpu, plan.cores_used as int);
                let active = active_vps(cpus, plan.active_budgets);
                assert(budgets_of(active) =~= plan.active_budgets);
            }
        }
    }
}

/// Admitting light DAGs one after another, from a state without partitions, comes to what
/// planning them together with the free cores to spare does: all are admitted exactly if the
/// plan succeeds, and the same passive VPs are left over and the same partitions opened.
pub proof fn lemma_light_one_by_one(
    state: VFedStateView,
    light: Seq<Entry>,
    packing: PackingStrategy,
    num_cpu: usize,
)
    requires
        num_cpu <= NUM_MAX_CPU,
        state.partitions.len() == 0,
        forall|i: int| 0 <= i < light.len() ==> is_light_dag((#[trigger] light[i]).1),
    ensures
        ({
            let spare = free_workers(state.claimed, num_cpu).len() as int;
            let planned = light_run(light, state.pool, spare, packing);
            let configs = Seq::new(light.len(), |i: int| light[i].1);
            let admitted = one_by_one(state, configs, packing, num_cpu);
            &&& planned is Some == admitted is Some
            &&& admitted matches Some((after, assignments)) ==> {
                &&& after.pool == planned->0.pool
                &&& partitions_of(after.partitions) == planned->0.partitions
                &&& free_workers(after.claimed, num_cpu).len() == spare
                    - planned->0.partitions.len()
                &&& assignments.len() == light.len()
            }
        }),
    decreases light.len(),
{
    let spare = free_workers(state.claimed, num_cpu).len() as int;
    lemma_free_workers(state.claimed, num_cpu, num_cpu as int);
    let configs = Seq::new(light.len(), |i: int| light[i].1);
    if light.len() == 0 {
        assert(partitions_of(state.partitions) =~= Seq::empty());
    } else {
        let rest = light.drop_last();
        assert forall|i: int| 0 <= i < rest.len() implies is_light_dag((#[trigger] rest[i]).1) by {
            assert(rest[i] == light[i]);
        }
        lemma_light_one_by_one(state, rest, packing, num_cpu);
        assert(configs.drop_last() =~= Seq::new(rest.len(), |i: int| rest[i].1));
        if let Some((reached, done)) = one_by_one(state, configs.drop_last(), packing, num_cpu) {
            let run = light_run(rest, state.pool, spare, packing)->0;
            let config = light.last().1;
            assert(light.last() == light[light.len() - 1]);
            assert(is_light_dag(config));
            let free = free_workers(reached.claimed, num_cpu);
            let open = partitions_of(reached.partitions);
            assert(open.len() == reached.partitions.len());
            match pulled(config, 0, run.pool) {
                Some(_) => {},
                None => {
                    assert(open.len() <= spare);
                    lemma_chosen_partition(packing, open, density(config));
                    match chosen_partition(packing, open, density(config)) {
                        Some(index) => {
                            let after = admission(reached, config, packing, num_cpu)->Ok_0.0;
                            assert(partitions_of(after.partitions) =~= light_step(
                                run,
                                config,
                                spare,
                                packing,
                            )->0.partitions);
                        },
                        None => {
                            if free.len() > 0 {
                                lemma_free_after_claim(reached.claimed, num_cpu, 1);
                                let after = admission(reached, config, packing, num_cpu)->Ok_0.0;
                                assert(partitions_of(after.partitions) =~= light_step(
                                    run,
                                    config,
                                    spare,
                                    packing,
                                )->0.partitions);
                            }
                        },
                    }
                },
            }
        }
    }
}

} // verus!
