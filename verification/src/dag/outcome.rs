//! What the admission of a DAG comes to: which timing it is judged by, and what it is promised
//! under each policy.

use vstd::prelude::*;

use super::build_dag::{admits_dag, Admission, AdmissionPolicy, BuildDagError};
use super::data::DagData;
use super::fluid::{cores_for, lemma_cores_are_the_fewest};
use super::register::lemma_neighbours_are_those_linked;
use super::segments::lemma_critical_path_at_most_volume;
use super::stats::{
    acyclic, critical_path, is_path, leads_on_from, lemma_critical_path,
    lemma_critical_path_is_longest_path, lemma_critical_path_reversed,
    lemma_laxity_is_what_the_longest_path_leaves, path_length,
};
use super::timing::time_sum;
use crate::cpu::{cpu_set_view, NUM_MAX_CPU};
use crate::dag_sched::resource::{
    free_workers, lemma_cluster_is_fresh, lemma_free_workers, lemma_lowest_free_cores_are_taken,
    PoolLedger, ResourceError,
};
use crate::scheduler::pool::lemma_last_worker_is_kept_for_regular_work;
use crate::scheduler::scheduler_type::SchedulerType;

verus! {

/// Some link ends at the node at place `v`.
pub open spec fn entered(dag: &DagData, v: int) -> bool {
    exists|l: int| 0 <= l < dag.links@.len() && (#[trigger] dag.links@[l]).1 == v
}

/// Some link begins at the node at place `v`.
pub open spec fn left(dag: &DagData, v: int) -> bool {
    exists|l: int| 0 <= l < dag.links@.len() && (#[trigger] dag.links@[l]).0 == v
}

proof fn lemma_first_source(dag: &DagData, u: int, v: int)
    requires
        0 <= u <= v <= dag.nodes@.len(),
        forall|w: int| u <= w < v ==> entered(dag, w),
        v < dag.nodes@.len() ==> !entered(dag, v),
    ensures
        dag.source_from(u) == if v < dag.nodes@.len() {
            Some(v)
        } else {
            None
        },
    decreases v - u,
{
    lemma_neighbours_are_those_linked(dag, u);
    if u < v {
        assert(entered(dag, u));
        lemma_first_source(dag, u + 1, v);
    }
}

proof fn lemma_first_sink(dag: &DagData, u: int, v: int)
    requires
        0 <= u <= v <= dag.nodes@.len(),
        forall|w: int| u <= w < v ==> left(dag, w),
        v < dag.nodes@.len() ==> !left(dag, v),
    ensures
        dag.sink_from(u) == if v < dag.nodes@.len() {
            Some(v)
        } else {
            None
        },
    decreases v - u,
{
    lemma_neighbours_are_those_linked(dag, u);
    if u < v {
        assert(left(dag, u));
        lemma_first_sink(dag, u + 1, v);
    }
}

/// A DAG's period is that of its first node that no link ends at. It has none if there is no
/// such node.
pub proof fn lemma_period_is_that_of_the_first_source(dag: &DagData, v: int)
    requires
        0 <= v <= dag.nodes@.len(),
        forall|w: int| 0 <= w < v ==> entered(dag, w),
        v < dag.nodes@.len() ==> !entered(dag, v),
    ensures
        v < dag.nodes@.len() ==> dag.spec_period() == dag.nodes@[v].period,
        v == dag.nodes@.len() ==> dag.spec_period() is None,
{
    lemma_first_source(dag, 0, v);
}

/// A DAG's relative deadline is the end-to-end deadline of its first node that no link begins
/// at. It has none if there is no such node.
pub proof fn lemma_deadline_is_that_of_the_first_sink(dag: &DagData, v: int)
    requires
        0 <= v <= dag.nodes@.len(),
        forall|w: int| 0 <= w < v ==> left(dag, w),
        v < dag.nodes@.len() ==> !left(dag, v),
    ensures
        v < dag.nodes@.len() ==> dag.spec_relative_deadline() == dag.nodes@[v].end_to_end_deadline,
        v == dag.nodes@.len() ==> dag.spec_relative_deadline() is None,
{
    lemma_first_sink(dag, 0, v);
}

/// The sum of the execution times of the first `m` nodes.
pub open spec fn work_of(dag: &DagData, m: int) -> int
    decreases m,
{
    if m <= 0 {
        0
    } else {
        work_of(dag, m - 1) + dag.nodes@[m - 1].execution_time
    }
}

proof fn lemma_work_is_time_sum(dag: &DagData, m: int)
    requires
        0 <= m <= dag.nodes@.len(),
    ensures
        work_of(dag, m) == time_sum(dag.times(), m),
    decreases m,
{
    if m > 0 {
        lemma_work_is_time_sum(dag, m - 1);
    }
}

proof fn lemma_critical_path_is_reached(dag: &DagData)
    requires
        dag.wf(),
        acyclic(dag.links@, dag.times()),
        dag.nodes@.len() > 0,
    ensures
        forall|path: Seq<usize>| #[trigger]
            is_path(dag.links@, dag.nodes@.len() as int, path) ==> path_length(dag.times(), path)
                <= critical_path(dag.links@, dag.times()),
        exists|path: Seq<usize>| #[trigger]
            is_path(dag.links@, dag.nodes@.len() as int, path) && path_length(dag.times(), path)
                == critical_path(dag.links@, dag.times()),
{
    let (links, times, n) = (dag.links@, dag.times(), dag.nodes@.len() as int);
    assert(times.len() == n);
    assert forall|path: Seq<usize>| #[trigger] is_path(links, n, path) implies path_length(
        times,
        path,
    ) <= critical_path(links, times) by {
        lemma_critical_path_is_longest_path(links, times, path);
    }
    let alone = seq![0usize];
    assert(is_path(links, n, alone));
    lemma_critical_path_is_longest_path(links, times, alone);
    let longest = choose|longest: Seq<usize>|
        is_path(links, times.len() as int, longest) && #[trigger] path_length(times, longest)
            == critical_path(links, times);
    assert(is_path(links, n, longest));
}

/// A DAG is judged by the sum of its nodes' execution times and by its longest path: no path
/// takes longer than the critical path, and one takes as long. Its timing is the one given,
/// and nothing is known of how far it can run in parallel.
pub proof fn lemma_dag_is_judged_by_its_work_and_longest_path(
    dag: &DagData,
    period: u64,
    deadline: u64,
)
    requires
        dag.wf(),
        dag.total_work() <= u64::MAX,
        acyclic(dag.links@, dag.times()),
        dag.nodes@.len() > 0,
    ensures
        ({
            let metrics = dag.metrics(period, deadline);
            &&& metrics.volume == work_of(dag, dag.nodes@.len() as int)
            &&& metrics.period == period
            &&& metrics.relative_deadline == deadline
            &&& metrics.max_parallelism == u16::MAX
            &&& forall|path: Seq<usize>| #[trigger]
                is_path(dag.links@, dag.nodes@.len() as int, path) ==> path_length(
                    dag.times(),
                    path,
                ) <= metrics.critical_path
            &&& exists|path: Seq<usize>| #[trigger]
                is_path(dag.links@, dag.nodes@.len() as int, path) && path_length(
                    dag.times(),
                    path,
                ) == metrics.critical_path
        }),
{
    let n = dag.nodes@.len() as int;
    lemma_work_is_time_sum(dag, n);
    lemma_work_nonnegative(dag, n);
    lemma_critical_path_is_reached(dag);
    lemma_critical_path(dag.links@, dag.times());
    lemma_critical_path_at_most_volume(dag.links@, dag.times());
}

proof fn lemma_work_nonnegative(dag: &DagData, m: int)
    ensures
        0 <= work_of(dag, m),
    decreases m,
{
    if m > 0 {
        lemma_work_nonnegative(dag, m - 1);
    }
}

/// A DAG without a period or without a deadline is refused as such under every policy, and
/// nothing is claimed for it.
pub proof fn lemma_timing_is_needed(
    policy: AdmissionPolicy,
    dag_id: u32,
    dag: &DagData,
    before: PoolLedger,
    after: PoolLedger,
    num_cpu: usize,
    result: Result<Admission, BuildDagError>,
)
    requires
        admits_dag(policy, dag_id, dag, before, after, num_cpu, result),
    ensures
        result == Err::<Admission, BuildDagError>(BuildDagError::MissingDagTiming(dag_id)) <==>
            dag.spec_period() is None || dag.spec_relative_deadline() is None,
        result is Err && policy != AdmissionPolicy::Federated ==> after == before,
{
}

/// Every node has a laxity, and a node put off by it still leaves the time for every path from
/// it on.
pub open spec fn leaves_time(dag: &DagData, laxity: Map<u32, u64>, deadline: u64) -> bool {
    forall|v: usize, path: Seq<usize>| #[trigger]
        leads_on_from(dag.links@, dag.nodes@.len() as int, path, v) ==> laxity.contains_key(
            dag.nodes@[v as int].id,
        ) && laxity[dag.nodes@[v as int].id] + path_length(dag.times(), path) <= deadline
}

/// Under the policy of laxities a DAG is admitted exactly if each of its paths can be done by
/// the deadline. Its nodes then run under global EDF with that deadline, by laxities that
/// leave the time for every path. Nothing is claimed for it.
pub proof fn lemma_laxities_leave_time_for_every_path(
    dag_id: u32,
    dag: &DagData,
    before: PoolLedger,
    after: PoolLedger,
    num_cpu: usize,
    result: Result<Admission, BuildDagError>,
    deadline: u64,
)
    requires
        admits_dag(AdmissionPolicy::Laxity, dag_id, dag, before, after, num_cpu, result),
        dag.wf(),
        acyclic(dag.links@, dag.times()),
        dag.nodes@.len() > 0,
        dag.spec_period() is Some,
        dag.spec_relative_deadline() == Some(deadline),
    ensures
        after == before,
        result is Ok <==> forall|path: Seq<usize>| #[trigger]
            is_path(dag.links@, dag.nodes@.len() as int, path) ==> path_length(dag.times(), path)
                <= deadline,
        result matches Err(error) ==> error == BuildDagError::LaxityInfeasible(dag_id),
        result matches Ok(admission) ==> {
            &&& admission.spec_scheduler_type() == SchedulerType::GEDF(deadline)
            &&& admission.spec_laxity() is Some
            &&& leaves_time(dag, admission.spec_laxity()->0, deadline)
        },
{
    let (links, times, n) = (dag.links@, dag.times(), dag.nodes@.len() as int);
    assert(times.len() == n);
    lemma_critical_path_is_reached(dag);
    lemma_critical_path_reversed(links, times);
    let longest = choose|path: Seq<usize>| #[trigger]
        is_path(links, n, path) && path_length(times, path) == critical_path(links, times);
    assert(is_path(links, n, longest));
    if let Ok(admission) = result {
        let laxity = admission.spec_laxity()->0;
        assert forall|v: usize, path: Seq<usize>| #[trigger]
            leads_on_from(links, n, path, v) implies laxity.contains_key(dag.nodes@[v as int].id)
            && laxity[dag.nodes@[v as int].id] + path_length(times, path) <= deadline by {
            assert(path[0] == v);
            lemma_laxity_is_what_the_longest_path_leaves(dag, deadline as int, laxity, v);
        }
    }
}

/// Under the fluid policy an admitted DAG gets cores of its own: DAG workers that were free,
/// the lowest of them and as many as are the fewest that can do its jobs, and they are claimed
/// from then on. Its nodes run on them by its deadline. It is refused for want of cores only if
/// fewer are free, and then nothing is claimed.
pub proof fn lemma_fluid_dag_gets_cores_of_its_own(
    dag_id: u32,
    dag: &DagData,
    before: PoolLedger,
    after: PoolLedger,
    num_cpu: usize,
    result: Result<Admission, BuildDagError>,
    deadline: u64,
    cpu: usize,
    other: usize,
)
    requires
        admits_dag(AdmissionPolicy::DagFluid, dag_id, dag, before, after, num_cpu, result),
        num_cpu <= NUM_MAX_CPU,
        dag.spec_period() is Some,
        dag.spec_relative_deadline() == Some(deadline),
    ensures
        after.light_utilization_scaled == before.light_utilization_scaled,
        result is Err ==> after == before,
        result matches Ok(admission) ==> {
            &&& admission matches Admission::DagFluid { required, cores, .. }
            &&& admission.spec_scheduler_type() == SchedulerType::ClusteredEDF(deadline, cores)
            &&& admission.spec_laxity() is None
            &&& cpu_set_view(cores).finite()
            &&& ({
                let count = cpu_set_view(cores).len();
                let demand = required.jobs * required.work;
                &&& count < u16::MAX ==> count * required.window >= demand
                &&& 0 < count && required.window > 0 ==> (count - 1) * required.window < demand
            })
            &&& cpu_set_view(cores).contains(cpu) ==> {
                &&& !cpu_set_view(before.claimed_cores).contains(cpu)
                &&& 1 <= cpu < num_cpu
                &&& cpu < num_cpu - 1 || num_cpu == 2
                &&& !cpu_set_view(cores).contains(other) && !cpu_set_view(
                    before.claimed_cores,
                ).contains(other) && 1 <= other < num_cpu - 1 ==> cpu < other
            }
            &&& cpu_set_view(after.claimed_cores).contains(cpu) <==> cpu_set_view(
                before.claimed_cores,
            ).contains(cpu) || cpu_set_view(cores).contains(cpu)
        },
        result matches Err(BuildDagError::DagFluidResource(error)) ==> {
            &&& error matches ResourceError::InsufficientCores { required, available }
            &&& available < required
            &&& available == before.free(num_cpu).len()
        },
{
    let claimed = cpu_set_view(before.claimed_cores);
    let free = free_workers(claimed, num_cpu);
    lemma_free_workers(claimed, num_cpu, num_cpu as int);
    if let Ok(admission) = result {
        if let Admission::DagFluid { required, cores, .. } = admission {
            lemma_cores_are_the_fewest(required);
            let needed = cores_for(required);
            let taken = free.take(needed);
            assert(taken.no_duplicates()) by {
                assert forall|i: int, j: int|
                    0 <= i < taken.len() && 0 <= j < taken.len() && i != j implies taken[i]
                    != taken[j] by {
                    assert(free[i] == taken[i] && free[j] == taken[j]);
                }
            }
            taken.unique_seq_to_set();
            vstd::seq_lib::seq_to_set_is_finite(taken);
            if cpu_set_view(cores).contains(cpu) {
                lemma_cluster_is_fresh(claimed, num_cpu, needed, cpu);
                lemma_last_worker_is_kept_for_regular_work(cpu as int, num_cpu as int);
                if !cpu_set_view(cores).contains(other) && !claimed.contains(other) && 1 <= other
                    < num_cpu - 1 {
                    lemma_last_worker_is_kept_for_regular_work(other as int, num_cpu as int);
                    assert(taken.to_set().contains(cpu) && !taken.to_set().contains(other));
                    lemma_lowest_free_cores_are_taken(claimed, num_cpu, needed, cpu, other);
                }
            }
        }
    }
}

} // verus!
