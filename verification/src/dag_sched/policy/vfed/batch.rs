//! Planning a whole batch of DAGs, without taking anything.

use vstd::prelude::*;

use super::order::{in_order, lemma_in_order_members, sort, Entry, PlanOrder};
use super::packing::{
    choose_partition, chosen_partition, lemma_chosen_partition, PackingStrategy, Partition,
};
use super::plan::{
    ascending_below, class_of, classify, generate_passive_vps, generated, heavy_plan,
    lemma_generated_wf, lemma_heavy_needs_two_cores, lemma_heavy_plan_is_schedulable, lemma_pulled,
    lemma_without_indices_len, lemma_without_indices_wf, plan_heavy, plan_light, pool_wf, pulled,
    take_indices, vps_view, without_indices, HeavyPlan, HeavyPlanView, TaskClass, VFedError,
};
use super::supply::{PassiveVp, PassiveVpView};
use crate::dag_sched::metrics::DagMetrics;
use crate::dag_sched::resource::{
    lemma_scaled_ratio_at_most_one, scaled_ratio, utilization_scaled, UTILIZATION_SCALE,
};

verus! {

/// Whether a DAG is classified heavy.
pub open spec fn is_heavy_dag(config: DagMetrics) -> bool {
    class_of(config) matches Ok(TaskClass::Heavy { .. })
}

/// Whether a DAG is classified light.
pub open spec fn is_light_dag(config: DagMetrics) -> bool {
    class_of(config) matches Ok(TaskClass::Light)
}

/// The state of handing out cores to heavy DAGs: how many cores are left, the plan
/// of each DAG so far, and the passive VPs that are left over.
#[verifier::ext_equal]
pub struct HeavyAllocation {
    pub cores_left: u16,
    pub plans: Seq<HeavyPlanView>,
    pub pool: Seq<PassiveVpView>,
}

/// The identifiers of the slots from `first` on.
pub open spec fn slots(first: int, count: nat) -> Seq<usize> {
    Seq::new(count, |i: int| (first + i) as usize)
}

/// The pool once a heavy DAG with the given plan has taken its passive VPs and its
/// own group, on the CPUs `cpus`, has added what it leaves over.
pub open spec fn pool_after(
    pool: Seq<PassiveVpView>,
    config: DagMetrics,
    plan: HeavyPlanView,
    cpus: Seq<usize>,
) -> Seq<PassiveVpView> {
    without_indices(pool, plan.passive_indices) + generated(
        plan.active_budgets,
        cpus,
        config.period,
        config.relative_deadline,
        config.max_parallelism,
    )
}

/// Planning every DAG of `heavy` in turn with at most `mh` cores in all. A core is
/// addressed by its place among the `mh`.
pub open spec fn heavy_allocation(heavy: Seq<DagMetrics>, mh: u16) -> Option<HeavyAllocation>
    decreases heavy.len(),
{
    if heavy.len() == 0 {
        Some(HeavyAllocation { cores_left: mh, plans: Seq::empty(), pool: Seq::empty() })
    } else {
        match heavy_allocation(heavy.drop_last(), mh) {
            None => None,
            Some(state) => {
                let config = heavy.last();
                match heavy_plan(config, state.cores_left, state.pool) {
                    Err(_) => None,
                    Ok(plan) => Some(
                        HeavyAllocation {
                            cores_left: (state.cores_left - plan.cores_used) as u16,
                            plans: state.plans.push(plan),
                            pool: pool_after(
                                state.pool,
                                config,
                                plan,
                                slots(mh - state.cores_left, plan.active_budgets.len()),
                            ),
                        },
                    ),
                }
            },
        }
    }
}

/// An allocation of a list succeeds only if that of each of its prefixes does, and
/// it then begins with the same plans.
pub proof fn lemma_heavy_allocation_prefix(heavy: Seq<DagMetrics>, mh: u16, n: int)
    requires
        0 <= n <= heavy.len(),
        heavy_allocation(heavy, mh) is Some,
    ensures
        heavy_allocation(heavy, mh)->0.plans.len() == heavy.len(),
        heavy_allocation(heavy.take(n), mh) is Some,
        heavy_allocation(heavy.take(n), mh)->0.plans == heavy_allocation(heavy, mh)->0.plans.take(n),
    decreases heavy.len(),
{
    if heavy.len() > 0 {
        let rest = heavy.drop_last();
        if n == heavy.len() {
            lemma_heavy_allocation_prefix(rest, mh, n - 1);
            assert(heavy.take(n) =~= heavy);
        } else {
            lemma_heavy_allocation_prefix(rest, mh, n);
            assert(rest.take(n) =~= heavy.take(n));
        }
        assert(heavy_allocation(heavy.take(n), mh)->0.plans =~= heavy_allocation(
            heavy,
            mh,
        )->0.plans.take(n));
    } else {
        assert(heavy.take(n) =~= heavy);
        assert(heavy_allocation(heavy, mh)->0.plans.take(n) =~= heavy_allocation(
            heavy,
            mh,
        )->0.plans);
    }
}

/// One step of an allocation keeps the pool well formed and within the cores that
/// were handed out.
pub proof fn lemma_pool_after(
    pool: Seq<PassiveVpView>,
    config: DagMetrics,
    cores_available: u16,
    cpus: Seq<usize>,
)
    requires
        is_heavy_dag(config),
        pool_wf(pool),
        pool.len() <= usize::MAX,
        heavy_plan(config, cores_available, pool) is Ok,
    ensures
        ({
            let plan = heavy_plan(config, cores_available, pool)->Ok_0;
            let after = pool_after(pool, config, plan, cpus);
            &&& plan.cores_used == plan.active_budgets.len() <= cores_available
            &&& ascending_below(plan.passive_indices, pool.len() as int)
            &&& pool_wf(after)
            &&& after.len() == pool.len() - plan.passive_indices.len() + plan.cores_used
        }),
{
    let plan = heavy_plan(config, cores_available, pool)->Ok_0;
    lemma_heavy_plan_is_schedulable(config, cores_available, pool);
    lemma_heavy_needs_two_cores(config);
    lemma_without_indices_len(pool, plan.passive_indices);
    lemma_without_indices_wf(pool, plan.passive_indices);
    lemma_generated_wf(
        plan.active_budgets,
        cpus,
        config.period,
        config.relative_deadline,
        config.max_parallelism,
    );
    let left = without_indices(pool, plan.passive_indices);
    let new = generated(
        plan.active_budgets,
        cpus,
        config.period,
        config.relative_deadline,
        config.max_parallelism,
    );
    let after = pool_after(pool, config, plan, cpus);
    assert forall|i: int| 0 <= i < after.len() implies (#[trigger] after[i]).wf() by {
        if i < left.len() {
            assert(after[i] == left[i]);
        } else {
            assert(after[i] == new[i - left.len()]);
        }
    }
}

/// What holds of every allocation of heavy DAGs: there is one plan per DAG, the
/// cores handed out are within `mh`, and no more passive VPs are left over than
/// cores were handed out.
pub proof fn lemma_heavy_allocation(heavy: Seq<DagMetrics>, mh: u16)
    requires
        forall|i: int| 0 <= i < heavy.len() ==> is_heavy_dag(#[trigger] heavy[i]),
        heavy_allocation(heavy, mh) is Some,
    ensures
        ({
            let state = heavy_allocation(heavy, mh)->0;
            &&& state.cores_left <= mh
            &&& state.plans.len() == heavy.len()
            &&& pool_wf(state.pool)
            &&& state.pool.len() <= mh - state.cores_left
        }),
    decreases heavy.len(),
{
    if heavy.len() > 0 {
        let rest = heavy.drop_last();
        assert forall|i: int| 0 <= i < rest.len() implies is_heavy_dag(#[trigger] rest[i]) by {
            assert(rest[i] == heavy[i]);
        }
        lemma_heavy_allocation(rest, mh);
        let state = heavy_allocation(rest, mh)->0;
        let config = heavy.last();
        assert(config == heavy[heavy.len() - 1]);
        let plan = heavy_plan(config, state.cores_left, state.pool)->Ok_0;
        lemma_pool_after(
            state.pool,
            config,
            state.cores_left,
            slots(mh - state.cores_left, plan.active_budgets.len()),
        );
    }
}

/// The views of a vector of plans.
pub open spec fn plans_view(plans: Seq<HeavyPlan>) -> Seq<HeavyPlanView> {
    Seq::new(plans.len(), |i: int| plans[i]@)
}

fn slot_range(first: usize, count: usize) -> (cpus: Vec<usize>)
    requires
        first + count <= usize::MAX,
    ensures
        cpus@ == slots(first as int, count as nat),
{
    let mut cpus: Vec<usize> = Vec::new();
    let mut i: usize = 0;
    while i < count
        invariant
            i <= count,
            first + count <= usize::MAX,
            cpus@ == slots(first as int, i as nat),
        decreases count - i,
    {
        cpus.push(first + i);
        i = i + 1;
        assert(cpus@ =~= slots(first as int, i as nat));
    }
    cpus
}

/// Plans every heavy DAG of a list with at most `mh` cores in all, against a local
/// pool of passive VPs. Fails if one of them cannot be planned.
pub fn try_alloc_heavy_within(heavy_sorted: &[DagMetrics], mh: u16) -> (result: Option<
    (Vec<HeavyPlan>, Vec<PassiveVp>),
>)
    requires
        forall|i: int| 0 <= i < heavy_sorted@.len() ==> is_heavy_dag(#[trigger] heavy_sorted@[i]),
    ensures
        match heavy_allocation(heavy_sorted@, mh) {
            None => result is None,
            Some(state) => result matches Some(r) && plans_view(r.0@) == state.plans && vps_view(
                r.1@,
            ) == state.pool,
        },
{
    let mut cores_remaining: u16 = mh;
    let mut pool: Vec<PassiveVp> = Vec::new();
    let mut plans: Vec<HeavyPlan> = Vec::new();
    let mut i: usize = 0;
    assert(heavy_sorted@.take(0) =~= Seq::<DagMetrics>::empty());
    assert(plans_view(plans@) =~= Seq::<HeavyPlanView>::empty());
    assert(vps_view(pool@) =~= Seq::<PassiveVpView>::empty());
    while i < heavy_sorted.len()
        invariant
            i <= heavy_sorted@.len(),
            forall|k: int|
                0 <= k < heavy_sorted@.len() ==> is_heavy_dag(#[trigger] heavy_sorted@[k]),
            heavy_allocation(heavy_sorted@.take(i as int), mh) == Some(
                HeavyAllocation {
                    cores_left: cores_remaining,
                    plans: plans_view(plans@),
                    pool: vps_view(pool@),
                },
            ),
        decreases heavy_sorted@.len() - i,
    {
        let config = heavy_sorted[i];
        let ghost done = heavy_sorted@.take(i as int);
        let ghost more = heavy_sorted@.take(i + 1);
        let ghost pool_before = vps_view(pool@);
        let ghost plans_before = plans@;
        proof {
            assert(more.drop_last() =~= done);
            assert(more.last() == config);
            assert forall|k: int| 0 <= k < done.len() implies is_heavy_dag(#[trigger] done[k]) by {
                assert(done[k] == heavy_sorted@[k]);
            }
            lemma_heavy_allocation(done, mh);
        }
        match plan_heavy(&config, cores_remaining, &pool) {
            Err(_) => {
                proof {
                    if heavy_allocation(heavy_sorted@, mh) is Some {
                        lemma_heavy_allocation_prefix(heavy_sorted@, mh, i + 1);
                    }
                }
                return None;
            },
            Ok(plan) => {
                proof {
                    lemma_pool_after(
                        pool_before,
                        config,
                        cores_remaining,
                        slots(mh - cores_remaining, plan.active_budgets@.len()),
                    );
                }
                let first: usize = (mh - cores_remaining) as usize;
                let cpus = slot_range(first, plan.active_budgets.len());
                cores_remaining = cores_remaining - plan.cores_used;
                let _ = take_indices(&mut pool, &plan.passive_indices);
                let mut new = generate_passive_vps(
                    &plan.active_budgets,
                    &cpus,
                    config.period,
                    config.relative_deadline,
                    config.max_parallelism,
                );
                let ghost left = pool@;
                let ghost added = new@;
                pool.append(&mut new);
                assert(vps_view(pool@) =~= vps_view(left) + vps_view(added));
                plans.push(plan);
                assert(plans_view(plans@) =~= plans_view(plans_before).push(plan@));
            },
        }
        i = i + 1;
    }
    assert(heavy_sorted@.take(i as int) =~= heavy_sorted@);
    Some((plans, pool))
}

/// The smallest core count from `mh` to `max_cores` with which every heavy DAG can
/// be planned, and the allocation with it.
pub open spec fn search_from(heavy: Seq<DagMetrics>, mh: int, max_cores: u16) -> Option<
    (u16, HeavyAllocation),
>
    decreases max_cores - mh + 1,
{
    if mh > max_cores {
        None
    } else {
        match heavy_allocation(heavy, mh as u16) {
            Some(state) => Some((mh as u16, state)),
            None => search_from(heavy, mh + 1, max_cores),
        }
    }
}

/// How many cores the heavy DAGs get as a whole: none if there is no heavy DAG,
/// else the smallest number that suffices.
pub open spec fn min_heavy_cores(heavy: Seq<DagMetrics>, max_cores: u16) -> Option<
    (u16, HeavyAllocation),
> {
    if heavy.len() == 0 {
        Some((0u16, heavy_allocation(heavy, 0)->0))
    } else {
        search_from(heavy, 1, max_cores)
    }
}

proof fn lemma_search_from(heavy: Seq<DagMetrics>, mh: int, max_cores: u16)
    requires
        1 <= mh,
        forall|k: int| 1 <= k < mh ==> #[trigger] heavy_allocation(heavy, k as u16) is None,
        mh <= max_cores + 1,
    ensures
        match search_from(heavy, mh, max_cores) {
            Some((found, state)) => {
                &&& 1 <= found <= max_cores
                &&& heavy_allocation(heavy, found) == Some(state)
                &&& forall|k: int|
                    1 <= k < found ==> #[trigger] heavy_allocation(heavy, k as u16) is None
            },
            None => forall|k: int|
                1 <= k <= max_cores ==> #[trigger] heavy_allocation(heavy, k as u16) is None,
        },
    decreases max_cores - mh + 1,
{
    if mh <= max_cores && heavy_allocation(heavy, mh as u16) is None {
        assert forall|k: int| 1 <= k < mh + 1 implies #[trigger] heavy_allocation(
            heavy,
            k as u16,
        ) is None by {
            if k == mh {
            }
        }
        lemma_search_from(heavy, mh + 1, max_cores);
    }
}

/// The search finds the smallest core count that suffices, and fails exactly if
/// none within the limit does.
pub proof fn lemma_min_heavy_cores(heavy: Seq<DagMetrics>, max_cores: u16)
    ensures
        match min_heavy_cores(heavy, max_cores) {
            Some((found, state)) => {
                &&& found <= max_cores
                &&& heavy_allocation(heavy, found) == Some(state)
                &&& (found == 0) == (heavy.len() == 0)
                &&& forall|k: int|
                    1 <= k < found ==> #[trigger] heavy_allocation(heavy, k as u16) is None
            },
            None => heavy.len() > 0 && forall|k: int|
                1 <= k <= max_cores ==> #[trigger] heavy_allocation(heavy, k as u16) is None,
        },
{
    if heavy.len() > 0 {
        lemma_search_from(heavy, 1, max_cores);
    }
}

/// Finds the smallest number of cores, at most `max_cores`, with which every heavy
/// DAG of a list can be planned, together with the plans and the passive VPs left
/// over.
pub fn search_min_heavy_cores(heavy_sorted: &[DagMetrics], max_cores: u16) -> (result: Option<
    (u16, Vec<HeavyPlan>, Vec<PassiveVp>),
>)
    requires
        forall|i: int| 0 <= i < heavy_sorted@.len() ==> is_heavy_dag(#[trigger] heavy_sorted@[i]),
    ensures
        match min_heavy_cores(heavy_sorted@, max_cores) {
            None => result is None,
            Some((mh, state)) => result matches Some(r) && r.0 == mh && plans_view(r.1@)
                == state.plans && vps_view(r.2@) == state.pool,
        },
{
    if heavy_sorted.len() == 0 {
        let plans: Vec<HeavyPlan> = Vec::new();
        let pool: Vec<PassiveVp> = Vec::new();
        assert(plans_view(plans@) =~= Seq::<HeavyPlanView>::empty());
        assert(vps_view(pool@) =~= Seq::<PassiveVpView>::empty());
        return Some((0, plans, pool));
    }
    let mut mh: u16 = 1;
    while mh <= max_cores
        invariant
            1 <= mh,
            heavy_sorted@.len() > 0,
            forall|i: int|
                0 <= i < heavy_sorted@.len() ==> is_heavy_dag(#[trigger] heavy_sorted@[i]),
            min_heavy_cores(heavy_sorted@, max_cores) == search_from(
                heavy_sorted@,
                mh as int,
                max_cores,
            ),
        decreases max_cores - mh + 1,
    {
        match try_alloc_heavy_within(heavy_sorted, mh) {
            Some((plans, pool)) => {
                return Some((mh, plans, pool));
            },
            None => {},
        }
        if mh == u16::MAX {
            assert(search_from(heavy_sorted@, mh + 1, max_cores) is None);
            return None;
        }
        mh = mh + 1;
    }
    None
}

/// What a light DAG is served by, before any core is claimed.
pub enum LightOutcome {
    /// By the passive VPs at these places of the pool, as it is when the DAG's turn
    /// comes.
    Passive(Vec<usize>),
    /// By the partition at this place.
    Partitioned(usize),
}

/// The mathematical value of a [`LightOutcome`].
#[verifier::ext_equal]
pub enum LightOutcomeView {
    Passive(Seq<usize>),
    Partitioned(usize),
}

impl View for LightOutcome {
    type V = LightOutcomeView;

    open spec fn view(&self) -> LightOutcomeView {
        match self {
            LightOutcome::Passive(indices) => LightOutcomeView::Passive(indices@),
            LightOutcome::Partitioned(index) => LightOutcomeView::Partitioned(*index),
        }
    }
}

/// The views of a vector of outcomes.
pub open spec fn outcomes_view(outcomes: Seq<LightOutcome>) -> Seq<LightOutcomeView> {
    Seq::new(outcomes.len(), |i: int| outcomes[i]@)
}

/// The state of planning light DAGs.
#[verifier::ext_equal]
pub struct LightRun {
    pub pool: Seq<PassiveVpView>,
    pub partitions: Seq<Partition>,
    pub outcomes: Seq<LightOutcomeView>,
}

/// The density `C / D` of a DAG in parts per million.
pub open spec fn density(config: DagMetrics) -> u64 {
    scaled_ratio(config.volume as int, config.relative_deadline as int) as u64
}

/// A partition that one more DAG has joined.
pub open spec fn joined(partition: Partition, density_scaled: u64) -> Partition {
    Partition {
        committed_density_scaled: (partition.committed_density_scaled + density_scaled) as u64,
    }
}

/// Planning one light DAG: from passive VPs if they suffice, else in a partition
/// that has room, else in a new partition, of which there may be `spare` in all.
pub open spec fn light_step(
    run: LightRun,
    config: DagMetrics,
    spare: int,
    packing: PackingStrategy,
) -> Option<LightRun> {
    match pulled(config, 0, run.pool) {
        Some(indices) => Some(
            LightRun {
                pool: without_indices(run.pool, indices),
                partitions: run.partitions,
                outcomes: run.outcomes.push(LightOutcomeView::Passive(indices)),
            },
        ),
        None => match chosen_partition(packing, run.partitions, density(config)) {
            Some(index) => Some(
                LightRun {
                    pool: run.pool,
                    partitions: run.partitions.update(
                        index as int,
                        joined(run.partitions[index as int], density(config)),
                    ),
                    outcomes: run.outcomes.push(LightOutcomeView::Partitioned(index)),
                },
            ),
            None => if run.partitions.len() < spare {
                Some(
                    LightRun {
                        pool: run.pool,
                        partitions: run.partitions.push(
                            Partition { committed_density_scaled: density(config) },
                        ),
                        outcomes: run.outcomes.push(
                            LightOutcomeView::Partitioned(run.partitions.len() as usize),
                        ),
                    },
                )
            } else {
                None
            },
        },
    }
}

/// Planning every DAG of `light` in turn.
pub open spec fn light_run(
    light: Seq<Entry>,
    pool: Seq<PassiveVpView>,
    spare: int,
    packing: PackingStrategy,
) -> Option<LightRun>
    decreases light.len(),
{
    if light.len() == 0 {
        Some(LightRun { pool, partitions: Seq::empty(), outcomes: Seq::empty() })
    } else {
        match light_run(light.drop_last(), pool, spare, packing) {
            None => None,
            Some(run) => light_step(run, light.last().1, spare, packing),
        }
    }
}

/// Planning a list succeeds only if planning each of its prefixes does, and it then
/// begins with the same outcomes.
pub proof fn lemma_light_run_prefix(
    light: Seq<Entry>,
    pool: Seq<PassiveVpView>,
    spare: int,
    packing: PackingStrategy,
    n: int,
)
    requires
        0 <= n <= light.len(),
        light_run(light, pool, spare, packing) is Some,
    ensures
        light_run(light, pool, spare, packing)->0.outcomes.len() == light.len(),
        light_run(light.take(n), pool, spare, packing) is Some,
        light_run(light.take(n), pool, spare, packing)->0.outcomes == light_run(
            light,
            pool,
            spare,
            packing,
        )->0.outcomes.take(n),
    decreases light.len(),
{
    if light.len() > 0 {
        let rest = light.drop_last();
        if n == light.len() {
            lemma_light_run_prefix(rest, pool, spare, packing, n - 1);
            assert(light.take(n) =~= light);
        } else {
            lemma_light_run_prefix(rest, pool, spare, packing, n);
            assert(rest.take(n) =~= light.take(n));
        }
        assert(light_run(light.take(n), pool, spare, packing)->0.outcomes =~= light_run(
            light,
            pool,
            spare,
            packing,
        )->0.outcomes.take(n));
    } else {
        assert(light.take(n) =~= light);
        assert(light_run(light, pool, spare, packing)->0.outcomes.take(n) =~= light_run(
            light,
            pool,
            spare,
            packing,
        )->0.outcomes);
    }
}

/// No partition is committed beyond one core.
pub open spec fn within_one_core(partitions: Seq<Partition>) -> bool {
    forall|i: int|
        0 <= i < partitions.len() ==> (#[trigger] partitions[i]).committed_density_scaled
            <= UTILIZATION_SCALE
}

/// What one step of planning light DAGs keeps.
pub proof fn lemma_light_step(
    run: LightRun,
    config: DagMetrics,
    spare: int,
    packing: PackingStrategy,
)
    requires
        is_light_dag(config),
        pool_wf(run.pool),
        run.pool.len() <= usize::MAX,
        within_one_core(run.partitions),
        run.partitions.len() <= spare <= u16::MAX,
        light_step(run, config, spare, packing) is Some,
    ensures
        ({
            let after = light_step(run, config, spare, packing)->0;
            &&& pool_wf(after.pool)
            &&& after.pool.len() <= run.pool.len()
            &&& within_one_core(after.partitions)
            &&& run.partitions.len() <= after.partitions.len() <= spare
            &&& after.outcomes.len() == run.outcomes.len() + 1
        }),
{
    lemma_pulled(config, 0, run.pool);
    lemma_chosen_partition(packing, run.partitions, density(config));
    lemma_scaled_ratio_at_most_one(config.volume as int, config.relative_deadline as int);
    match pulled(config, 0, run.pool) {
        Some(indices) => {
            lemma_without_indices_len(run.pool, indices);
            lemma_without_indices_wf(run.pool, indices);
        },
        None => {},
    }
}

/// What holds of every plan of light DAGs: there is one outcome per DAG, no
/// partition is committed beyond one core, and no more partitions are opened than
/// there are spare cores.
pub proof fn lemma_light_run(
    light: Seq<Entry>,
    pool: Seq<PassiveVpView>,
    spare: int,
    packing: PackingStrategy,
)
    requires
        forall|i: int| 0 <= i < light.len() ==> is_light_dag((#[trigger] light[i]).1),
        pool_wf(pool),
        pool.len() <= usize::MAX,
        0 <= spare <= u16::MAX,
        light_run(light, pool, spare, packing) is Some,
    ensures
        ({
            let run = light_run(light, pool, spare, packing)->0;
            &&& pool_wf(run.pool)
            &&& run.pool.len() <= pool.len()
            &&& within_one_core(run.partitions)
            &&& run.partitions.len() <= spare
            &&& run.outcomes.len() == light.len()
        }),
    decreases light.len(),
{
    if light.len() > 0 {
        let rest = light.drop_last();
        assert forall|i: int| 0 <= i < rest.len() implies is_light_dag((#[trigger] rest[i]).1) by {
            assert(rest[i] == light[i]);
        }
        lemma_light_run(rest, pool, spare, packing);
        assert(light.last() == light[light.len() - 1]);
        lemma_light_step(
            light_run(rest, pool, spare, packing)->0,
            light.last().1,
            spare,
            packing,
        );
    }
}

fn plan_light_dags(
    light: &Vec<Entry>,
    pool: &mut Vec<PassiveVp>,
    spare: u16,
    packing: PackingStrategy,
) -> (result: Option<(Vec<Partition>, Vec<LightOutcome>)>)
    requires
        forall|i: int| 0 <= i < light@.len() ==> is_light_dag((#[trigger] light@[i]).1),
        pool_wf(vps_view(old(pool)@)),
    ensures
        match light_run(light@, vps_view(old(pool)@), spare as int, packing) {
            None => result is None,
            Some(run) => result matches Some(r) && r.0@ == run.partitions && outcomes_view(r.1@)
                == run.outcomes,
        },
{
    let ghost start = vps_view(pool@);
    let mut partitions: Vec<Partition> = Vec::new();
    let mut outcomes: Vec<LightOutcome> = Vec::new();
    let mut i: usize = 0;
    let ghost start_len = pool.len();
    assert(light@.take(0) =~= Seq::<Entry>::empty());
    assert(outcomes_view(outcomes@) =~= Seq::<LightOutcomeView>::empty());
    while i < light.len()
        invariant
            i <= light@.len(),
            start == vps_view(old(pool)@),
            pool_wf(start),
            start.len() == start_len,
            start_len <= usize::MAX,
            forall|k: int| 0 <= k < light@.len() ==> is_light_dag((#[trigger] light@[k]).1),
            light_run(light@.take(i as int), start, spare as int, packing) == Some(
                LightRun {
                    pool: vps_view(pool@),
                    partitions: partitions@,
                    outcomes: outcomes_view(outcomes@),
                },
            ),
        decreases light@.len() - i,
    {
        let config = light[i].1;
        let ghost done = light@.take(i as int);
        let ghost more = light@.take(i + 1);
        let ghost outcomes_before = outcomes@;
        let ghost run = LightRun {
            pool: vps_view(pool@),
            partitions: partitions@,
            outcomes: outcomes_view(outcomes@),
        };
        proof {
            assert(more.drop_last() =~= done);
            assert(more.last() == light@[i as int]);
            assert forall|k: int| 0 <= k < done.len() implies is_light_dag(
                (#[trigger] done[k]).1,
            ) by {
                assert(done[k] == light@[k]);
            }
            lemma_light_run(done, start, spare as int, packing);
            lemma_pulled(config, 0, run.pool);
            lemma_scaled_ratio_at_most_one(config.volume as int, config.relative_deadline as int);
        }
        match plan_light(&config, pool) {
            Ok(indices) => {
                let _ = take_indices(pool, &indices);
                outcomes.push(LightOutcome::Passive(indices));
                assert(outcomes_view(outcomes@) =~= outcomes_view(outcomes_before).push(
                    LightOutcomeView::Passive(indices@),
                ));
            },
            Err(_) => {
                let density_scaled: u64 = utilization_scaled(
                    config.volume,
                    config.relative_deadline,
                );
                proof {
                    lemma_chosen_partition(packing, partitions@, density_scaled);
                }
                match choose_partition(packing, &partitions, density_scaled) {
                    Some(index) => {
                        let committed: u64 = partitions[index].committed_density_scaled;
                        partitions.set(
                            index,
                            Partition { committed_density_scaled: committed + density_scaled },
                        );
                        outcomes.push(LightOutcome::Partitioned(index));
                        assert(outcomes_view(outcomes@) =~= outcomes_view(outcomes_before).push(
                            LightOutcomeView::Partitioned(index),
                        ));
                    },
                    None => {
                        if partitions.len() < spare as usize {
                            let index: usize = partitions.len();
                            partitions.push(
                                Partition { committed_density_scaled: density_scaled },
                            );
                            outcomes.push(LightOutcome::Partitioned(index));
                            assert(outcomes_view(outcomes@) =~= outcomes_view(
                                outcomes_before,
                            ).push(LightOutcomeView::Partitioned(index)));
                        } else {
                            proof {
                                if light_run(light@, start, spare as int, packing) is Some {
                                    lemma_light_run_prefix(
                                        light@,
                                        start,
                                        spare as int,
                                        packing,
                                        i + 1,
                                    );
                                }
                            }
                            return None;
                        }
                    },
                }
            },
        }
        i = i + 1;
    }
    assert(light@.take(i as int) =~= light@);
    Some((partitions, outcomes))
}

/// The error of the first DAG, from `i` on, that cannot be classified.
pub open spec fn first_error(configs: Seq<DagMetrics>, i: int) -> Option<VFedError>
    decreases configs.len() - i,
{
    if i >= configs.len() {
        None
    } else {
        match class_of(configs[i]) {
            Err(error) => Some(error),
            Ok(_) => first_error(configs, i + 1),
        }
    }
}

/// The heavy DAGs among the first `n`, each with its place.
pub open spec fn heavy_entries(configs: Seq<DagMetrics>, n: int) -> Seq<Entry>
    decreases n,
{
    if n <= 0 {
        Seq::empty()
    } else {
        let rest = heavy_entries(configs, n - 1);
        if is_heavy_dag(configs[n - 1]) {
            rest.push(((n - 1) as usize, configs[n - 1]))
        } else {
            rest
        }
    }
}

/// The light DAGs among the first `n`, each with its place.
pub open spec fn light_entries(configs: Seq<DagMetrics>, n: int) -> Seq<Entry>
    decreases n,
{
    if n <= 0 {
        Seq::empty()
    } else {
        let rest = light_entries(configs, n - 1);
        if is_light_dag(configs[n - 1]) {
            rest.push(((n - 1) as usize, configs[n - 1]))
        } else {
            rest
        }
    }
}

/// The DAGs of a list of entries.
pub open spec fn configs_of(entries: Seq<Entry>) -> Seq<DagMetrics> {
    Seq::new(entries.len(), |i: int| entries[i].1)
}

/// The heavy DAGs of a batch in the order in which they are planned.
pub open spec fn heavy_in_order(configs: Seq<DagMetrics>) -> Seq<Entry> {
    in_order(PlanOrder::AscendingLaxity, heavy_entries(configs, configs.len() as int))
}

/// The light DAGs of a batch in the order in which they are planned.
pub open spec fn light_in_order(configs: Seq<DagMetrics>) -> Seq<Entry> {
    in_order(PlanOrder::DescendingDensity, light_entries(configs, configs.len() as int))
}

/// The entries of either list are the DAGs of the batch at their places, of the
/// right class.
pub proof fn lemma_entries(configs: Seq<DagMetrics>, n: int)
    requires
        0 <= n <= configs.len() <= usize::MAX,
    ensures
        forall|i: int|
            0 <= i < heavy_entries(configs, n).len() ==> is_heavy_dag(
                (#[trigger] heavy_entries(configs, n)[i]).1,
            ) && heavy_entries(configs, n)[i].0 < n && heavy_entries(configs, n)[i].1
                == configs[heavy_entries(configs, n)[i].0 as int],
        forall|i: int|
            0 <= i < light_entries(configs, n).len() ==> is_light_dag(
                (#[trigger] light_entries(configs, n)[i]).1,
            ) && light_entries(configs, n)[i].0 < n && light_entries(configs, n)[i].1
                == configs[light_entries(configs, n)[i].0 as int],
        forall|i: int, j: int|
            0 <= i < j < heavy_entries(configs, n).len() ==> (#[trigger] heavy_entries(
                configs,
                n,
            )[i]).0 < (#[trigger] heavy_entries(configs, n)[j]).0,
        forall|i: int, j: int|
            0 <= i < j < light_entries(configs, n).len() ==> (#[trigger] light_entries(
                configs,
                n,
            )[i]).0 < (#[trigger] light_entries(configs, n)[j]).0,
    decreases n,
{
    if n > 0 {
        lemma_entries(configs, n - 1);
        let heavy = heavy_entries(configs, n);
        let light = light_entries(configs, n);
        let fewer_heavy = heavy_entries(configs, n - 1);
        let fewer_light = light_entries(configs, n - 1);
        assert forall|i: int| 0 <= i < heavy.len() implies is_heavy_dag((#[trigger] heavy[i]).1)
            && heavy[i].0 < n && heavy[i].1 == configs[heavy[i].0 as int] by {
            if i < fewer_heavy.len() {
                assert(heavy[i] == fewer_heavy[i]);
            }
        }
        assert forall|i: int| 0 <= i < light.len() implies is_light_dag((#[trigger] light[i]).1)
            && light[i].0 < n && light[i].1 == configs[light[i].0 as int] by {
            if i < fewer_light.len() {
                assert(light[i] == fewer_light[i]);
            }
        }
    }
}

/// Each DAG of the planning order is the DAG of the batch at its place, and of its
/// class.
pub proof fn lemma_planned_entries(configs: Seq<DagMetrics>)
    requires
        configs.len() <= usize::MAX,
    ensures
        forall|i: int|
            0 <= i < heavy_in_order(configs).len() ==> is_heavy_dag(
                (#[trigger] heavy_in_order(configs)[i]).1,
            ) && heavy_in_order(configs)[i].0 < configs.len() && heavy_in_order(configs)[i].1
                == configs[heavy_in_order(configs)[i].0 as int],
        forall|i: int|
            0 <= i < light_in_order(configs).len() ==> is_light_dag(
                (#[trigger] light_in_order(configs)[i]).1,
            ) && light_in_order(configs)[i].0 < configs.len() && light_in_order(configs)[i].1
                == configs[light_in_order(configs)[i].0 as int],
{
    let n = configs.len() as int;
    lemma_entries(configs, n);
    let heavy = heavy_entries(configs, n);
    let light = light_entries(configs, n);
    assert forall|i: int| 0 <= i < heavy_in_order(configs).len() implies is_heavy_dag(
        (#[trigger] heavy_in_order(configs)[i]).1,
    ) && heavy_in_order(configs)[i].0 < configs.len() && heavy_in_order(configs)[i].1
        == configs[heavy_in_order(configs)[i].0 as int] by {
        lemma_in_order_members(PlanOrder::AscendingLaxity, heavy, i);
        let k = choose|k: int| 0 <= k < heavy.len() && heavy[k] == heavy_in_order(configs)[i];
        assert(is_heavy_dag(heavy[k].1));
    }
    assert forall|i: int| 0 <= i < light_in_order(configs).len() implies is_light_dag(
        (#[trigger] light_in_order(configs)[i]).1,
    ) && light_in_order(configs)[i].0 < configs.len() && light_in_order(configs)[i].1
        == configs[light_in_order(configs)[i].0 as int] by {
        lemma_in_order_members(PlanOrder::DescendingDensity, light, i);
        let k = choose|k: int| 0 <= k < light.len() && light[k] == light_in_order(configs)[i];
        assert(is_light_dag(light[k].1));
    }
}

/// The full decision for a batch. Cores and partitions are addressed by their place
/// in the plan, not by CPU.
pub struct BatchPlan {
    /// The heavy DAGs with their places, in planning order.
    pub heavy: Vec<Entry>,
    /// The light DAGs with their places, in planning order.
    pub light: Vec<Entry>,
    /// How many cores the heavy DAGs get as a whole.
    pub mh: u16,
    /// One plan per heavy DAG.
    pub heavy_plans: Vec<HeavyPlan>,
    /// One outcome per light DAG.
    pub outcomes: Vec<LightOutcome>,
    pub sim_partitions: Vec<Partition>,
}

/// The mathematical value of a [`BatchPlan`].
#[verifier::ext_equal]
pub struct BatchPlanView {
    pub heavy: Seq<Entry>,
    pub light: Seq<Entry>,
    pub mh: u16,
    pub heavy_plans: Seq<HeavyPlanView>,
    pub outcomes: Seq<LightOutcomeView>,
    pub sim_partitions: Seq<Partition>,
}

impl View for BatchPlan {
    type V = BatchPlanView;

    open spec fn view(&self) -> BatchPlanView {
        BatchPlanView {
            heavy: self.heavy@,
            light: self.light@,
            mh: self.mh,
            heavy_plans: plans_view(self.heavy_plans@),
            outcomes: outcomes_view(self.outcomes@),
            sim_partitions: self.sim_partitions@,
        }
    }
}

/// [`plan_batch`] as a function: heavy DAGs first, with as few cores as possible,
/// then light DAGs with what is left.
pub open spec fn batch_plan(configs: Seq<DagMetrics>, max_cores: u16, packing: PackingStrategy) -> Result<
    BatchPlanView,
    VFedError,
> {
    match first_error(configs, 0) {
        Some(error) => Err(error),
        None => {
            let heavy = heavy_in_order(configs);
            let light = light_in_order(configs);
            match min_heavy_cores(configs_of(heavy), max_cores) {
                None => Err(VFedError::NoFeasibleAllocation),
                Some((mh, state)) => match light_run(light, state.pool, max_cores - mh, packing) {
                    None => Err(VFedError::NoFeasibleAllocation),
                    Some(run) => Ok(
                        BatchPlanView {
                            heavy,
                            light,
                            mh,
                            heavy_plans: state.plans,
                            outcomes: run.outcomes,
                            sim_partitions: run.partitions,
                        },
                    ),
                },
            }
        },
    }
}

fn dags_of(entries: &Vec<Entry>) -> (configs: Vec<DagMetrics>)
    ensures
        configs@ == configs_of(entries@),
{
    let mut configs: Vec<DagMetrics> = Vec::new();
    let mut i: usize = 0;
    while i < entries.len()
        invariant
            i <= entries@.len(),
            configs@ == configs_of(entries@).take(i as int),
        decreases entries@.len() - i,
    {
        configs.push(entries[i].1);
        i = i + 1;
        assert(configs@ =~= configs_of(entries@).take(i as int));
    }
    assert(configs@ =~= configs_of(entries@));
    configs
}

/// Decides a whole batch against `max_cores` free cores. Changes nothing, so that a
/// batch that does not fit leaves nothing to undo.
pub fn plan_batch(configs: &[DagMetrics], max_cores: u16, packing: PackingStrategy) -> (result: Result<
    BatchPlan,
    VFedError,
>)
    ensures
        match batch_plan(configs@, max_cores, packing) {
            Ok(plan) => result matches Ok(r) && r@ == plan,
            Err(error) => result == Err::<BatchPlan, VFedError>(error),
        },
{
    let mut heavy_list: Vec<Entry> = Vec::new();
    let mut light_list: Vec<Entry> = Vec::new();
    let mut i: usize = 0;
    while i < configs.len()
        invariant
            i <= configs@.len(),
            heavy_list@ == heavy_entries(configs@, i as int),
            light_list@ == light_entries(configs@, i as int),
            first_error(configs@, 0) == first_error(configs@, i as int),
        decreases configs@.len() - i,
    {
        let config = configs[i];
        match classify(&config) {
            Err(error) => {
                return Err(error);
            },
            Ok(class) => match class {
                TaskClass::Heavy { .. } => heavy_list.push((i, config)),
                TaskClass::Light => light_list.push((i, config)),
            },
        }
        i = i + 1;
    }
    let heavy = sort(PlanOrder::AscendingLaxity, &heavy_list);
    let light = sort(PlanOrder::DescendingDensity, &light_list);
    let heavy_configs = dags_of(&heavy);
    proof {
        lemma_planned_entries(configs@);
        lemma_min_heavy_cores(heavy_configs@, max_cores);
        assert forall|k: int| 0 <= k < heavy_configs@.len() implies is_heavy_dag(
            #[trigger] heavy_configs@[k],
        ) by {
            assert(is_heavy_dag(heavy_in_order(configs@)[k].1));
        }
    }
    match search_min_heavy_cores(&heavy_configs, max_cores) {
        None => Err(VFedError::NoFeasibleAllocation),
        Some((mh, heavy_plans, leftover)) => {
            let mut pool = leftover;
            proof {
                lemma_heavy_allocation(heavy_configs@, mh);
            }
            match plan_light_dags(&light, &mut pool, max_cores - mh, packing) {
                None => Err(VFedError::NoFeasibleAllocation),
                Some((sim_partitions, outcomes)) => Ok(
                    BatchPlan { heavy, light, mh, heavy_plans, outcomes, sim_partitions },
                ),
            }
        },
    }
}

/// Whether a batch would be admitted as a whole with `max_cores` free cores. Touches
/// no shared state.
pub fn is_batch_feasible(configs: &[DagMetrics], max_cores: u16, packing: PackingStrategy) -> (feasible:
    bool)
    ensures
        feasible == (batch_plan(configs@, max_cores, packing) is Ok),
{
    match plan_batch(configs, max_cores, packing) {
        Ok(_) => true,
        Err(_) => false,
    }
}

} // verus!
