//! Building a DAG: its admission under a policy, and the registration of its nodes.

use std::collections::BTreeMap;

use vstd::prelude::*;
use vstd::std_specs::convert::FromSpecImpl;
use vstd::string::*;

use super::data::DagData;
use super::fluid::{
    capacity_of, ceil_capacity_to_cores, cores_for, required_capacity, Capacity,
};
use super::register::{
    register_dag_nodes, registers_nodes, timings_given, LinkNumError, NodeRegistration,
};
use super::segments::{decompose_segments, segments_of};
use super::stats::{
    compute_dag_stats, compute_node_laxity, critical_path, is_laxity_map, reversed,
};
use super::time_unit::TimeUnit;
use crate::cpu::{cpu_set_view, CpuSet, NUM_MAX_CPU};
use crate::dag_sched::metrics::{DagMetrics, MetricsSource, UNKNOWN_PARALLELISM};
use crate::dag_sched::policy::federated::{admit_dag, admits, FederatedAssignment, FederatedError};
use crate::dag_sched::policy::vfed::commit::{runs_under, VFedAssignment};
use crate::dag_sched::policy::vfed::plan::VFedError;
use crate::dag_sched::resource::{allocate_cluster, PoolLedger, ResourceError};
use crate::scheduler::scheduler_type::SchedulerType;
use crate::text::{append_decimal, decimal};

verus! {

/// Why a DAG is not built.
#[derive(Debug, Clone, Copy, PartialEq, Eq, Structural)]
pub enum BuildDagError {
    LinkNum(LinkNumError),
    Federated(FederatedError),
    VFed(VFedError),
    /// The DAG was admitted without a scheduler class for its nodes.
    VFedSchedulerTypeMissing(u32),
    /// The DAG's source has no period, or its sink no end-to-end deadline.
    MissingDagTiming(u32),
    /// A node's laxity would be negative.
    LaxityInfeasible(u32),
    /// The critical path exceeds the deadline, or no segment is heavy although one has to
    /// be.
    DagFluidInfeasible(u32),
    /// The ledger could not provide the cores.
    DagFluidResource(ResourceError),
}

impl From<ResourceError> for BuildDagError {
    fn from(error: ResourceError) -> (converted: Self) {
        BuildDagError::DagFluidResource(error)
    }
}

impl FromSpecImpl<ResourceError> for BuildDagError {
    open spec fn obeys_from_spec() -> bool {
        true
    }

    open spec fn from_spec(error: ResourceError) -> Self {
        BuildDagError::DagFluidResource(error)
    }
}

impl From<LinkNumError> for BuildDagError {
    fn from(error: LinkNumError) -> (converted: Self) {
        BuildDagError::LinkNum(error)
    }
}

impl FromSpecImpl<LinkNumError> for BuildDagError {
    open spec fn obeys_from_spec() -> bool {
        true
    }

    open spec fn from_spec(error: LinkNumError) -> Self {
        BuildDagError::LinkNum(error)
    }
}

impl From<FederatedError> for BuildDagError {
    fn from(error: FederatedError) -> (converted: Self) {
        BuildDagError::Federated(error)
    }
}

impl FromSpecImpl<FederatedError> for BuildDagError {
    open spec fn obeys_from_spec() -> bool {
        true
    }

    open spec fn from_spec(error: FederatedError) -> Self {
        BuildDagError::Federated(error)
    }
}

impl From<VFedError> for BuildDagError {
    fn from(error: VFedError) -> (converted: Self) {
        BuildDagError::VFed(error)
    }
}

impl FromSpecImpl<VFedError> for BuildDagError {
    open spec fn obeys_from_spec() -> bool {
        true
    }

    open spec fn from_spec(error: VFedError) -> Self {
        BuildDagError::VFed(error)
    }
}

fn dag_message(dag_id: u32, rest: &str) -> (text: String)
    ensures
        text@ == "DAG#"@ + decimal(dag_id as nat) + rest@,
{
    let mut text = String::from_str("DAG#");
    append_decimal(&mut text, dag_id as u64);
    text.append(rest);
    text
}

impl BuildDagError {
    /// The text of [`BuildDagError::message`].
    pub open spec fn text(self) -> Seq<char> {
        match self {
            BuildDagError::LinkNum(error) => error.text(),
            BuildDagError::Federated(error) => error.text(),
            BuildDagError::VFed(error) => error.debug_text(),
            BuildDagError::VFedSchedulerTypeMissing(dag_id) => "DAG#"@ + decimal(dag_id as nat)
                + ": vfed admitted it but produced no SchedulerType"@,
            BuildDagError::MissingDagTiming(dag_id) => "DAG#"@ + decimal(dag_id as nat)
                + " has no source period or no sink end-to-end deadline"@,
            BuildDagError::LaxityInfeasible(dag_id) => "DAG#"@ + decimal(dag_id as nat)
                + ": relative_deadline <= critical_path, unconditionally infeasible"@,
            BuildDagError::DagFluidInfeasible(dag_id) => "DAG#"@ + decimal(dag_id as nat)
                + ": relative_deadline <= critical_path, unconditionally infeasible"@,
            BuildDagError::DagFluidResource(error) => error.text(),
        }
    }

    /// The error in words.
    pub fn message(&self) -> (text: String)
        ensures
            text@ == self.text(),
    {
        match self {
            BuildDagError::LinkNum(error) => error.message(),
            BuildDagError::Federated(error) => error.message(),
            BuildDagError::VFed(error) => error.debug_message(),
            BuildDagError::VFedSchedulerTypeMissing(dag_id) => dag_message(
                *dag_id,
                ": vfed admitted it but produced no SchedulerType",
            ),
            BuildDagError::MissingDagTiming(dag_id) => dag_message(
                *dag_id,
                " has no source period or no sink end-to-end deadline",
            ),
            BuildDagError::LaxityInfeasible(dag_id) => dag_message(
                *dag_id,
                ": relative_deadline <= critical_path, unconditionally infeasible",
            ),
            BuildDagError::DagFluidInfeasible(dag_id) => dag_message(
                *dag_id,
                ": relative_deadline <= critical_path, unconditionally infeasible",
            ),
            BuildDagError::DagFluidResource(error) => error.message(),
        }
    }
}

impl DagData {
    /// The first source, from place `v` on.
    pub open spec fn source_from(&self, v: int) -> Option<int>
        decreases self.nodes@.len() - v,
    {
        if v >= self.nodes@.len() {
            None
        } else if self.source(v) {
            Some(v)
        } else {
            self.source_from(v + 1)
        }
    }

    /// The first sink, from place `v` on.
    pub open spec fn sink_from(&self, v: int) -> Option<int>
        decreases self.nodes@.len() - v,
    {
        if v >= self.nodes@.len() {
            None
        } else if self.sink(v) {
            Some(v)
        } else {
            self.sink_from(v + 1)
        }
    }

    /// The DAG's period: that of its first source.
    pub open spec fn spec_period(&self) -> Option<u64> {
        match self.source_from(0) {
            Some(v) => self.nodes@[v].period,
            None => None,
        }
    }

    /// The DAG's relative deadline: the end-to-end deadline of its first sink.
    pub open spec fn spec_relative_deadline(&self) -> Option<u64> {
        match self.sink_from(0) {
            Some(v) => self.nodes@[v].end_to_end_deadline,
            None => None,
        }
    }

    /// The DAG's period: that of its first source, if it has one.
    pub fn period(&self) -> (period: Option<u64>)
        requires
            self.wf(),
        ensures
            period == self.spec_period(),
    {
        let mut v: usize = 0;
        while v < self.nodes.len()
            invariant
                self.wf(),
                v <= self.nodes@.len(),
                self.source_from(0) == self.source_from(v as int),
            decreases self.nodes@.len() - v,
        {
            if self.in_links(v).len() == 0 {
                return self.nodes[v].period;
            }
            v = v + 1;
        }
        None
    }

    /// The DAG's relative deadline: the end-to-end deadline of its first sink, if it has
    /// one.
    pub fn relative_deadline(&self) -> (deadline: Option<u64>)
        requires
            self.wf(),
        ensures
            deadline == self.spec_relative_deadline(),
    {
        let mut v: usize = 0;
        while v < self.nodes.len()
            invariant
                self.wf(),
                v <= self.nodes@.len(),
                self.sink_from(0) == self.sink_from(v as int),
            decreases self.nodes@.len() - v,
        {
            if self.out_links(v).len() == 0 {
                return self.nodes[v].end_to_end_deadline;
            }
            v = v + 1;
        }
        None
    }

    /// The metrics of the DAG with the given timing.
    pub open spec fn metrics(&self, period: u64, relative_deadline: u64) -> DagMetrics {
        DagMetrics {
            volume: self.total_work() as u64,
            critical_path: critical_path(self.links@, self.times()) as u64,
            period,
            relative_deadline,
            max_parallelism: UNKNOWN_PARALLELISM,
            source: MetricsSource::Static,
        }
    }
}

/// The policies that admit one DAG at a time.
#[derive(Debug, Clone, Copy, PartialEq, Eq, Structural)]
pub enum AdmissionPolicy {
    /// A heavy DAG gets cores of its own, a light one shares the rest.
    Federated,
    /// Global EDF, with the nodes of a DAG ordered by their laxity.
    Laxity,
    /// The DAG's fluid capacity, rounded up to cores of its own.
    DagFluid,
}

/// What a DAG was admitted with.
pub enum Admission {
    Federated { assignment: FederatedAssignment },
    Laxity { relative_deadline: u64, laxity: BTreeMap<u32, u64> },
    DagFluid { relative_deadline: u64, required: Capacity, cores: CpuSet },
}

impl Admission {
    /// The scheduler class of all of the DAG's nodes.
    pub open spec fn spec_scheduler_type(&self) -> SchedulerType {
        match self {
            Admission::Federated { assignment } => assignment.scheduler_type,
            Admission::Laxity { relative_deadline, .. } => SchedulerType::GEDF(*relative_deadline),
            Admission::DagFluid { relative_deadline, cores, .. } => SchedulerType::ClusteredEDF(
                *relative_deadline,
                *cores,
            ),
        }
    }

    /// The laxity of the DAG's nodes, under the policy that goes by it.
    pub open spec fn spec_laxity(&self) -> Option<Map<u32, u64>> {
        match self {
            Admission::Laxity { laxity, .. } => Some(laxity@),
            _ => None,
        }
    }

    /// The scheduler class of all of the DAG's nodes.
    pub fn scheduler_type(&self) -> (class: SchedulerType)
        ensures
            class == self.spec_scheduler_type(),
    {
        match self {
            Admission::Federated { assignment } => assignment.scheduler_type,
            Admission::Laxity { relative_deadline, .. } => SchedulerType::GEDF(*relative_deadline),
            Admission::DagFluid { relative_deadline, cores, .. } => SchedulerType::ClusteredEDF(
                *relative_deadline,
                *cores,
            ),
        }
    }
}

/// What admitting a DAG does. Without a period or without a deadline there is nothing to
/// admit. Federated admission draws on the ledger with the DAG's metrics; laxity needs no
/// resource, only that no laxity is negative; the fluid policy claims the cores that the
/// DAG's capacity takes up.
pub open spec fn admits_dag(
    policy: AdmissionPolicy,
    dag_id: u32,
    dag: &DagData,
    before: PoolLedger,
    after: PoolLedger,
    num_cpu: usize,
    result: Result<Admission, BuildDagError>,
) -> bool {
    match (dag.spec_period(), dag.spec_relative_deadline()) {
        (Some(period), Some(deadline)) => {
            let metrics = dag.metrics(period, deadline);
            match policy {
                AdmissionPolicy::Federated => match result {
                    Ok(admission) => {
                        &&& admission matches Admission::Federated { assignment }
                        &&& admits(before, after, num_cpu, metrics, Ok(assignment))
                    },
                    Err(error) => {
                        &&& error matches BuildDagError::Federated(error)
                        &&& admits(before, after, num_cpu, metrics, Err(error))
                    },
                },
                AdmissionPolicy::Laxity => {
                    &&& after == before
                    &&& if critical_path(reversed(dag.links@), dag.times()) > deadline {
                        result == Err::<Admission, BuildDagError>(
                            BuildDagError::LaxityInfeasible(dag_id),
                        )
                    } else {
                        &&& result matches Ok(admission)
                        &&& admission matches Admission::Laxity { relative_deadline, laxity }
                        &&& relative_deadline == deadline
                        &&& is_laxity_map(
                            dag,
                            deadline as int,
                            laxity@,
                            dag.nodes@.len() as int,
                        )
                    }
                },
                AdmissionPolicy::DagFluid => {
                    let segments = segments_of(dag.links@, dag.times());
                    match capacity_of(
                        metrics.volume,
                        period,
                        metrics.critical_path,
                        deadline,
                        segments,
                    ) {
                        None => {
                            &&& result == Err::<Admission, BuildDagError>(
                                BuildDagError::DagFluidInfeasible(dag_id),
                            )
                            &&& after == before
                        },
                        Some(capacity) => {
                            let free = before.free(num_cpu);
                            let needed = cores_for(capacity);
                            if needed <= free.len() {
                                &&& result matches Ok(admission)
                                &&& admission matches Admission::DagFluid {
                                    relative_deadline,
                                    required,
                                    cores,
                                }
                                &&& relative_deadline == deadline
                                &&& required == capacity
                                &&& cpu_set_view(cores) == free.take(needed).to_set()
                                &&& cpu_set_view(after.claimed_cores) == cpu_set_view(
                                    before.claimed_cores,
                                ).union(cpu_set_view(cores))
                                &&& after.light_utilization_scaled
                                    == before.light_utilization_scaled
                            } else {
                                &&& result == Err::<Admission, BuildDagError>(
                                    BuildDagError::DagFluidResource(
                                        ResourceError::InsufficientCores {
                                            required: needed as u16,
                                            available: free.len() as u16,
                                        },
                                    ),
                                )
                                &&& after == before
                            }
                        },
                    }
                },
            }
        },
        _ => {
            &&& result == Err::<Admission, BuildDagError>(BuildDagError::MissingDagTiming(dag_id))
            &&& after == before
        },
    }
}

/// The fluid policy divides by the period, where it gets to it.
pub open spec fn period_usable(policy: AdmissionPolicy, dag: &DagData) -> bool {
    policy == AdmissionPolicy::DagFluid && dag.spec_period() == Some(0u64) ==> match dag.spec_relative_deadline() {
        Some(deadline) => critical_path(dag.links@, dag.times()) > deadline,
        None => true,
    }
}

/// Tells whether the period can be divided by, where the policy gets to it.
pub fn is_period_usable(policy: AdmissionPolicy, dag: &DagData) -> (usable: bool)
    requires
        dag.wf(),
        dag.total_work() <= u64::MAX,
    ensures
        usable == period_usable(policy, dag),
{
    match (policy, dag.period(), dag.relative_deadline()) {
        (AdmissionPolicy::DagFluid, Some(period), Some(deadline)) => period > 0
            || compute_dag_stats(dag).critical_path > deadline,
        _ => true,
    }
}

/// Admits a DAG under the given policy.
pub fn admit_for_policy(
    policy: AdmissionPolicy,
    dag_id: u32,
    dag: &DagData,
    pool: &mut PoolLedger,
    num_cpu: usize,
) -> (result: Result<Admission, BuildDagError>)
    requires
        dag.wf(),
        dag.total_work() <= u64::MAX,
        num_cpu <= NUM_MAX_CPU,
        period_usable(policy, dag),
    ensures
        admits_dag(policy, dag_id, dag, *old(pool), *final(pool), num_cpu, result),
{
    let stats = compute_dag_stats(dag);
    let period: u64 = match dag.period() {
        Some(period) => period,
        None => {
            return Err(BuildDagError::MissingDagTiming(dag_id));
        },
    };
    let relative_deadline: u64 = match dag.relative_deadline() {
        Some(deadline) => deadline,
        None => {
            return Err(BuildDagError::MissingDagTiming(dag_id));
        },
    };
    match policy {
        AdmissionPolicy::Federated => {
            let config = DagMetrics::from_static(
                stats.volume,
                stats.critical_path,
                period,
                relative_deadline,
            );
            match admit_dag(pool, num_cpu, config) {
                Ok(assignment) => Ok(Admission::Federated { assignment }),
                Err(error) => Err(BuildDagError::from(error)),
            }
        },
        AdmissionPolicy::Laxity => {
            match compute_node_laxity(dag, relative_deadline) {
                Some(laxity) => Ok(Admission::Laxity { relative_deadline, laxity }),
                None => Err(BuildDagError::LaxityInfeasible(dag_id)),
            }
        },
        AdmissionPolicy::DagFluid => {
            let segments = decompose_segments(dag);
            let required = match required_capacity(
                stats.volume,
                period,
                stats.critical_path,
                relative_deadline,
                segments.as_slice(),
            ) {
                Some(required) => required,
                None => {
                    return Err(BuildDagError::DagFluidInfeasible(dag_id));
                },
            };
            let needed: u16 = ceil_capacity_to_cores(required);
            match allocate_cluster(pool, num_cpu, needed) {
                Ok(cores) => Ok(Admission::DagFluid { relative_deadline, required, cores }),
                Err(error) => Err(BuildDagError::from(error)),
            }
        },
    }
}

/// What building a DAG comes to.
pub struct Build {
    /// What the DAG was admitted with, if it was.
    pub admission: Option<Admission>,
    /// The nodes to register.
    pub registrations: Vec<NodeRegistration>,
    /// Why the DAG is not built, if it is not. The nodes to register are then those before
    /// the one that cannot be.
    pub error: Option<BuildDagError>,
}

/// Builds a DAG: admits it under the given policy and prepares the registration of its
/// nodes. What it was admitted with stays claimed even if a node cannot be registered.
pub fn build_dag_impl(
    policy: AdmissionPolicy,
    dag_id: u32,
    dag: &DagData,
    unit: TimeUnit,
    pool: &mut PoolLedger,
    num_cpu: usize,
) -> (build: Build)
    requires
        dag.wf(),
        dag.total_work() <= u64::MAX,
        num_cpu <= NUM_MAX_CPU,
        period_usable(policy, dag),
        dag.spec_period() is Some && dag.spec_relative_deadline() is Some ==> timings_given(
            dag_id,
            dag,
        ),
    ensures
        match build.admission {
            None => {
                &&& build.error matches Some(error)
                &&& admits_dag(policy, dag_id, dag, *old(pool), *final(pool), num_cpu, Err(error))
                &&& build.registrations@.len() == 0
            },
            Some(admission) => {
                &&& admits_dag(
                    policy,
                    dag_id,
                    dag,
                    *old(pool),
                    *final(pool),
                    num_cpu,
                    Ok(admission),
                )
                &&& build.error is None || build.error->0 is LinkNum
                &&& registers_nodes(
                    dag_id,
                    dag,
                    unit,
                    admission.spec_scheduler_type(),
                    admission.spec_laxity(),
                    build.registrations@,
                    match build.error {
                        Some(BuildDagError::LinkNum(error)) => Some(error),
                        _ => None,
                    },
                )
            },
        },
{
    match admit_for_policy(policy, dag_id, dag, pool, num_cpu) {
        Err(error) => Build { admission: None, registrations: Vec::new(), error: Some(error) },
        Ok(admission) => {
            let laxity: Option<&BTreeMap<u32, u64>> = match &admission {
                Admission::Laxity { laxity, .. } => Some(laxity),
                _ => None,
            };
            let (registrations, error) = register_dag_nodes(
                dag_id,
                dag,
                unit,
                admission.scheduler_type(),
                laxity,
            );
            Build {
                admission: Some(admission),
                registrations,
                error: match error {
                    Some(error) => Some(BuildDagError::from(error)),
                    None => None,
                },
            }
        },
    }
}

/// What building a DAG with an assignment that was decided for a whole batch comes to.
pub struct AssignedBuild {
    /// The scheduler class of all of the DAG's nodes, if there is one.
    pub scheduler_type: Option<SchedulerType>,
    /// The nodes to register.
    pub registrations: Vec<NodeRegistration>,
    /// Why the DAG is not built, if it is not.
    pub error: Option<BuildDagError>,
}

/// Builds a DAG that a batch admission has given an assignment: prepares the registration
/// of its nodes under that assignment's scheduler class.
pub fn build_dag_impl_vfed(
    dag_id: u32,
    dag: &DagData,
    unit: TimeUnit,
    assignment: &VFedAssignment,
) -> (build: AssignedBuild)
    requires
        dag.wf(),
        assignment.cpus_supported(),
        dag.spec_relative_deadline() is Some ==> timings_given(dag_id, dag),
    ensures
        match dag.spec_relative_deadline() {
            None => {
                &&& build.scheduler_type is None
                &&& build.error == Some(BuildDagError::MissingDagTiming(dag_id))
                &&& build.registrations@.len() == 0
            },
            Some(deadline) => {
                &&& runs_under(assignment@, deadline, build.scheduler_type)
                &&& match build.scheduler_type {
                    None => {
                        &&& build.error == Some(BuildDagError::VFedSchedulerTypeMissing(dag_id))
                        &&& build.registrations@.len() == 0
                    },
                    Some(class) => {
                        &&& build.error is None || build.error->0 is LinkNum
                        &&& registers_nodes(
                            dag_id,
                            dag,
                            unit,
                            class,
                            None,
                            build.registrations@,
                            match build.error {
                                Some(BuildDagError::LinkNum(error)) => Some(error),
                                _ => None,
                            },
                        )
                    },
                }
            },
        },
{
    let relative_deadline: u64 = match dag.relative_deadline() {
        Some(deadline) => deadline,
        None => {
            return AssignedBuild {
                scheduler_type: None,
                registrations: Vec::new(),
                error: Some(BuildDagError::MissingDagTiming(dag_id)),
            };
        },
    };
    match assignment.into_scheduler_type(relative_deadline) {
        None => AssignedBuild {
            scheduler_type: None,
            registrations: Vec::new(),
            error: Some(BuildDagError::VFedSchedulerTypeMissing(dag_id)),
        },
        Some(class) => {
            let (registrations, error) = register_dag_nodes(dag_id, dag, unit, class, None);
            AssignedBuild {
                scheduler_type: Some(class),
                registrations,
                error: match error {
                    Some(error) => Some(BuildDagError::from(error)),
                    None => None,
                },
            }
        },
    }
}

} // verus!
