//! Which scheduler class a task belongs to.

use vstd::prelude::*;

use crate::cpu::CpuSet;

verus! {

/// The scheduler class of a task, with what the class needs to know of it.
#[derive(Debug, Clone, Copy, PartialEq, Eq)]
pub enum SchedulerType {
    /// First in, first out, by priority.
    PrioritizedFIFO(u8),
    /// Global EDF, with the relative deadline.
    GEDF(u64),
    /// EDF restricted to a cluster of CPUs, with the relative deadline.
    ClusteredEDF(u64, CpuSet),
    /// A heavy DAG's own active VPs, and the leading CPU among them.
    ActiveVp(CpuSet, usize),
    /// A heavy DAG's own active VPs, the leading CPU among them, and the CPUs of
    /// the passive VPs that it draws on.
    MixedVp(CpuSet, usize, CpuSet),
    /// The CPUs of the passive VPs that serve a light DAG.
    PassiveVp(CpuSet),
    /// Deadline-partitioned wrap-around scheduling, with the DAG's identifier.
    DpWrap(u32),
}

} // verus!
