//! The split of the worker CPUs into a DAG pool and a regular pool.
//!
//! One worker core is carved out for regular (non-DAG) tasks, so that a DAG's
//! admission math is never invalidated by interference it cannot model. This is
//! pure arithmetic on CPU identifiers and on the number of CPUs.

use vstd::prelude::*;

verus! {

/// Whether the split is in effect.
pub open spec fn split_active(num_cpu: int) -> bool {
    num_cpu >= 3
}

/// Whether `cpu_id` may run DAG work.
pub open spec fn dag_pool_core(cpu_id: int, num_cpu: int) -> bool {
    cpu_id != 0 && (!split_active(num_cpu) || cpu_id != num_cpu - 1)
}

/// Whether `cpu_id` may run regular work.
pub open spec fn regular_pool_core(cpu_id: int, num_cpu: int) -> bool {
    cpu_id != 0 && (!split_active(num_cpu) || cpu_id == num_cpu - 1)
}

/// Whether the DAG pool and the regular pool are separate. Splitting off one core
/// needs at least two workers; a smaller system shares its only worker.
pub fn dag_pool_split_active(num_cpu: usize) -> (active: bool)
    ensures
        active == split_active(num_cpu as int),
{
    num_cpu >= 3
}

/// Whether `cpu_id` may run DAG-pool work: every worker but the last, or every
/// worker while the pools are not split.
pub fn is_dag_pool_core(cpu_id: usize, num_cpu: usize) -> (member: bool)
    ensures
        member == dag_pool_core(cpu_id as int, num_cpu as int),
{
    cpu_id != 0 && (!dag_pool_split_active(num_cpu) || cpu_id != num_cpu - 1)
}

/// Whether `cpu_id` may run regular work: the last worker, or every worker while
/// the pools are not split.
pub fn is_regular_pool_core(cpu_id: usize, num_cpu: usize) -> (member: bool)
    ensures
        member == regular_pool_core(cpu_id as int, num_cpu as int),
{
    cpu_id != 0 && (!dag_pool_split_active(num_cpu) || cpu_id == num_cpu - 1)
}

/// While the pools are split, every worker is in exactly one of them; while they
/// are not, every worker is in both. CPU 0 is in neither.
pub proof fn lemma_pools_partition_the_workers(cpu_id: int, num_cpu: int)
    ensures
        cpu_id != 0 && split_active(num_cpu) ==> dag_pool_core(cpu_id, num_cpu)
            != regular_pool_core(cpu_id, num_cpu),
        cpu_id != 0 && !split_active(num_cpu) ==> dag_pool_core(cpu_id, num_cpu)
            && regular_pool_core(cpu_id, num_cpu),
        !dag_pool_core(0, num_cpu) && !regular_pool_core(0, num_cpu),
{
}

/// On a machine with at least three CPUs the last one alone is kept for regular work and the
/// others but CPU 0 run DAG work; on a smaller one every worker does both.
pub proof fn lemma_last_worker_is_kept_for_regular_work(cpu_id: int, num_cpu: int)
    requires
        0 <= cpu_id < num_cpu,
    ensures
        dag_pool_core(cpu_id, num_cpu) <==> 1 <= cpu_id && (cpu_id < num_cpu - 1 || num_cpu == 2),
        regular_pool_core(cpu_id, num_cpu) <==> 1 <= cpu_id && cpu_id == num_cpu - 1,
{
}

} // verus!
