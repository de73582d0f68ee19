//! The shape in which an admission policy expresses its resource decision.

use vstd::prelude::*;

use crate::cpu::CpuSet;
use crate::scheduler::scheduler_type::SchedulerType;

verus! {

/// A DAG admission policy's resource decision, whatever scheduler implements it.
#[derive(Debug, Clone, Copy, PartialEq, Eq)]
pub enum Provision {
    /// An exclusive cluster of cores.
    Dedicated { cores: CpuSet },
    /// A share of the remaining pool, tracked by its utilization in parts per
    /// million.
    Shared { utilization_scaled: u64 },
}

impl Provision {
    /// [`Provision::into_scheduler_type`] as a function.
    pub open spec fn scheduler_type(self, relative_deadline: u64) -> SchedulerType {
        match self {
            Provision::Dedicated { cores } => SchedulerType::ClusteredEDF(relative_deadline, cores),
            Provision::Shared { .. } => SchedulerType::GEDF(relative_deadline),
        }
    }

    /// The scheduler class of every node of the DAG: EDF on the cluster, or global
    /// EDF.
    pub fn into_scheduler_type(self, relative_deadline: u64) -> (class: SchedulerType)
        ensures
            class == self.scheduler_type(relative_deadline),
    {
        match self {
            Provision::Dedicated { cores } => SchedulerType::ClusteredEDF(relative_deadline, cores),
            Provision::Shared { .. } => SchedulerType::GEDF(relative_deadline),
        }
    }
}

} // verus!
