//! Names, registrations, builds and time units.

use std::collections::BTreeMap;

use affinity_btree_queue::CpuMask;
use dag_sched::cpu::CpuSet;
use dag_sched::dag::build_dag::{
    admit_for_policy, build_dag_impl, build_dag_impl_vfed, is_period_usable, Admission,
    AdmissionPolicy, BuildDagError,
};
use dag_sched::dag::data::{DagData, NodeData};
use dag_sched::dag::names::{create_pub_topics, create_reactor_name, create_sub_topics};
use dag_sched::dag::register::{
    are_timings_given, register_dag_nodes, register_intermediate_node, register_sink_node,
    register_source_node, setup_node_registration, LinkNumError, ReactorKind,
};
use dag_sched::dag::time_unit::{
    busy_iteration, busy_work_for_millisec, calibrate_busy_work, calibration_done,
    convert_duration, iterate, simulated_execution_time, BusyWork, TimeUnit,
};
use dag_sched::dag_sched::policy::federated::FederatedError;
use dag_sched::dag_sched::policy::vfed::{ActiveVp, VFedAssignment, VFedError};
use dag_sched::dag_sched::resource::{free_core_count, PoolLedger, ResourceError};
use dag_sched::scheduler::scheduler_type::SchedulerType;
use dag_sched::time::Duration;

fn node(id: u32, execution_time: u64, period: Option<u64>, deadline: Option<u64>) -> NodeData {
    NodeData {
        id,
        execution_time,
        period,
        end_to_end_deadline: deadline,
    }
}

/// 0 fans out to 1 and 2, which join at 3.
fn diamond(period: Option<u64>, deadline: Option<u64>) -> DagData {
    DagData::new(
        0,
        vec![
            node(0, 10, period, None),
            node(1, 30, None, None),
            node(2, 5, None, None),
            node(3, 5, None, deadline),
        ],
        &[(0, 1), (0, 2), (1, 3), (2, 3)],
    )
    .unwrap()
}

#[test]
fn test_create_reactor_name() {
    let dag_id: u32 = 1;
    let node_id: u32 = 2;
    let expected_name = "dag1_node2";
    let reactor_name = create_reactor_name(dag_id, node_id);
    assert_eq!(reactor_name, expected_name);
}

#[test]
fn test_create_sub_topics() {
    let dag_id: u32 = 1;
    let node_id: u32 = 2;
    let in_links: Vec<u32> = vec![3, 4];
    let expected_topics = vec!["dag1_path3-2", "dag1_path4-2"];
    let sub_topics = create_sub_topics(dag_id, node_id, &in_links);
    assert_eq!(sub_topics, expected_topics);
}

#[test]
fn test_create_pub_topics() {
    let dag_id: u32 = 1;
    let node_id: u32 = 2;
    let out_links: Vec<u32> = vec![3, 4];
    let expected_topics = vec!["dag1_path2-3", "dag1_path2-4"];
    let pub_topics = create_pub_topics(dag_id, node_id, &out_links);
    assert_eq!(pub_topics, expected_topics);
}

#[test]
fn both_ends_of_a_link_use_one_topic() {
    let sent = create_pub_topics(7, 10, &[20, 30]);
    let received = create_sub_topics(7, 30, &[5, 10]);
    assert_eq!(sent[1], received[1]);
}

#[test]
fn registrations_carry_names_and_times() {
    let info = setup_node_registration(4, &node(1, 30, None, None), &[0], &[3]);
    assert_eq!(info.execution_time, 30);
    assert_eq!(info.reactor_name, "dag4_node1");
    assert_eq!(info.sub_topics, vec!["dag4_path0-1"]);
    assert_eq!(info.pub_topics, vec!["dag4_path1-3"]);
}

#[test]
fn link_numbers_are_checked() {
    let class = SchedulerType::GEDF(1);
    let many: Vec<u32> = (0..17).collect();
    let full: Vec<u32> = (0..16).collect();
    let one: [u32; 1] = [9];
    let source = node(1, 1, Some(5), None);
    let sink = node(2, 1, None, Some(5));
    let unit = TimeUnit::Milliseconds;

    assert!(register_source_node(0, &source, &[], &full, unit, class).is_ok());
    assert_eq!(
        register_source_node(0, &source, &[], &many, unit, class).err(),
        Some(LinkNumError::Output(0, 1))
    );
    assert_eq!(
        register_source_node(0, &source, &[], &[], unit, class).err(),
        Some(LinkNumError::Output(0, 1))
    );
    assert!(register_sink_node(0, &sink, &full, &[], unit, class).is_ok());
    assert_eq!(
        register_sink_node(0, &sink, &many, &[], unit, class).err(),
        Some(LinkNumError::Input(0, 2))
    );
    let middle = |ins: &[u32], outs: &[u32]| {
        register_intermediate_node(0, &node(3, 1, None, None), ins, outs, class).err()
    };
    assert_eq!(middle(&full, &full), None);
    assert_eq!(middle(&one, &one), None);
    assert_eq!(middle(&many, &many), Some(LinkNumError::InOut(0, 3)));
    assert_eq!(middle(&many, &one), Some(LinkNumError::Input(0, 3)));
    assert_eq!(middle(&one, &many), Some(LinkNumError::Output(0, 3)));
    assert_eq!(middle(&many, &[]), Some(LinkNumError::Input(0, 3)));
    assert_eq!(middle(&[], &one), Some(LinkNumError::InOut(0, 3)));
}

#[test]
fn every_node_is_registered_by_its_place() {
    let dag = diamond(Some(50), Some(100));
    let class = SchedulerType::GEDF(100);
    let mut laxity: BTreeMap<u32, u64> = BTreeMap::new();
    laxity.insert(1, 65);
    let (nodes, error) = register_dag_nodes(3, &dag, TimeUnit::Milliseconds, class, Some(&laxity));
    assert_eq!(error, None);
    assert_eq!(nodes.len(), 4);
    assert_eq!(
        nodes[0].kind,
        ReactorKind::Periodic {
            period: Duration::from_millis(50)
        }
    );
    assert_eq!(nodes[1].kind, ReactorKind::Intermediate);
    assert_eq!(
        nodes[3].kind,
        ReactorKind::Sink {
            relative_deadline: Duration::from_millis(100)
        }
    );
    assert_eq!(nodes[0].info.pub_topics, vec!["dag3_path0-1", "dag3_path0-2"]);
    assert_eq!(nodes[3].info.sub_topics, vec!["dag3_path1-3", "dag3_path2-3"]);
    assert_eq!(nodes[1].node_priority, Some(u64::MAX - 65));
    assert_eq!(nodes[2].node_priority, None);
    assert_eq!(nodes[2].scheduler_type, class);
}

#[test]
fn registration_stops_at_a_lonely_node() {
    let dag = DagData::new(
        0,
        vec![
            node(0, 1, Some(5), None),
            node(1, 1, None, Some(5)),
            node(2, 1, Some(5), Some(5)),
        ],
        &[(0, 1)],
    )
    .unwrap();
    let (nodes, error) =
        register_dag_nodes(8, &dag, TimeUnit::Milliseconds, SchedulerType::GEDF(5), None);
    assert_eq!(nodes.len(), 2);
    assert_eq!(error, Some(LinkNumError::Output(8, 2)));
}

#[test]
fn a_federated_build_claims_its_cluster() {
    // Volume 50, critical path 45, deadline 46: five cores.
    let dag = diamond(Some(46), Some(46));
    let mut pool = PoolLedger::new();
    let build = build_dag_impl(
        AdmissionPolicy::Federated,
        1,
        &dag,
        TimeUnit::Milliseconds,
        &mut pool,
        10,
    );
    assert_eq!(build.error, None);
    assert_eq!(build.registrations.len(), 4);
    let expected: CpuSet = CpuMask::empty().with(1).with(2).with(3).with(4).with(5);
    assert_eq!(
        build.admission.unwrap().scheduler_type(),
        SchedulerType::ClusteredEDF(46, expected)
    );
    assert_eq!(free_core_count(&pool, 10), 3);

    let again = build_dag_impl(
        AdmissionPolicy::Federated,
        2,
        &dag,
        TimeUnit::Milliseconds,
        &mut pool,
        10,
    );
    assert_eq!(
        again.error,
        Some(BuildDagError::Federated(FederatedError::Resource(
            ResourceError::InsufficientCores {
                required: 5,
                available: 3
            }
        )))
    );
    assert!(again.registrations.is_empty());
}

#[test]
fn a_laxity_build_orders_the_nodes() {
    let dag = diamond(Some(50), Some(100));
    let mut pool = PoolLedger::new();
    let build = build_dag_impl(
        AdmissionPolicy::Laxity,
        1,
        &dag,
        TimeUnit::Milliseconds,
        &mut pool,
        10,
    );
    assert_eq!(build.error, None);
    let priorities: Vec<Option<u64>> = build.registrations.iter().map(|r| r.node_priority).collect();
    assert_eq!(
        priorities,
        vec![
            Some(u64::MAX - 55),
            Some(u64::MAX - 65),
            Some(u64::MAX - 90),
            Some(u64::MAX - 95)
        ]
    );
    assert_eq!(
        build.registrations[0].scheduler_type,
        SchedulerType::GEDF(100)
    );
    let late = build_dag_impl(
        AdmissionPolicy::Laxity,
        6,
        &diamond(Some(50), Some(44)),
        TimeUnit::Milliseconds,
        &mut pool,
        10,
    );
    assert_eq!(late.error, Some(BuildDagError::LaxityInfeasible(6)));
}

#[test]
fn a_fluid_build_rounds_its_capacity_up() {
    let dag = diamond(Some(50), Some(48));
    let mut pool = PoolLedger::new();
    match admit_for_policy(AdmissionPolicy::DagFluid, 1, &dag, &mut pool, 10) {
        Ok(Admission::DagFluid {
            relative_deadline,
            required,
            cores,
        }) => {
            assert_eq!(relative_deadline, 48);
            assert_eq!((required.jobs, required.work, required.window), (1, 10, 8));
            let expected: CpuSet = CpuMask::empty().with(1).with(2);
            assert_eq!(cores, expected);
        }
        _ => panic!("expected a fluid admission"),
    }
    let late = admit_for_policy(
        AdmissionPolicy::DagFluid,
        5,
        &diamond(Some(50), Some(44)),
        &mut pool,
        10,
    );
    assert_eq!(late.err(), Some(BuildDagError::DagFluidInfeasible(5)));
    let full = admit_for_policy(AdmissionPolicy::DagFluid, 5, &dag, &mut pool, 4);
    assert_eq!(
        full.err(),
        Some(BuildDagError::DagFluidResource(
            ResourceError::InsufficientCores {
                required: 2,
                available: 0
            }
        ))
    );
}

#[test]
fn a_build_needs_a_period_and_a_deadline() {
    let mut pool = PoolLedger::new();
    for dag in [diamond(None, Some(100)), diamond(Some(50), None)] {
        for policy in [
            AdmissionPolicy::Federated,
            AdmissionPolicy::Laxity,
            AdmissionPolicy::DagFluid,
        ] {
            let build = build_dag_impl(policy, 9, &dag, TimeUnit::Milliseconds, &mut pool, 10);
            assert_eq!(build.error, Some(BuildDagError::MissingDagTiming(9)));
            assert!(build.admission.is_none());
        }
    }
}

#[test]
fn an_assigned_build_uses_the_assignment() {
    let dag = diamond(Some(50), Some(100));
    let assignment = VFedAssignment::Heavy {
        active: vec![ActiveVp { cpu: 3, budget: 8 }],
        passive: Vec::new(),
    };
    let build = build_dag_impl_vfed(2, &dag, TimeUnit::Milliseconds, &assignment);
    let expected: CpuSet = CpuMask::empty().with(3);
    assert_eq!(
        build.scheduler_type,
        Some(SchedulerType::ActiveVp(expected, 3))
    );
    assert_eq!(build.error, None);
    assert_eq!(build.registrations.len(), 4);

    let nothing = VFedAssignment::Heavy {
        active: Vec::new(),
        passive: Vec::new(),
    };
    assert_eq!(
        build_dag_impl_vfed(2, &dag, TimeUnit::Milliseconds, &nothing).error,
        Some(BuildDagError::VFedSchedulerTypeMissing(2))
    );
    assert_eq!(
        build_dag_impl_vfed(2, &diamond(Some(50), None), TimeUnit::Milliseconds, &assignment).error,
        Some(BuildDagError::MissingDagTiming(2))
    );
}

#[test]
fn build_errors_have_words() {
    let resource = ResourceError::InsufficientCores {
        required: 3,
        available: 2,
    };
    let infeasible = FederatedError::Infeasible {
        critical_path: 50,
        relative_deadline: 40,
    };
    let table = [
        (
            BuildDagError::from(LinkNumError::Input(1, 2)),
            "DAG#1 Node#2 has no input links".to_string(),
        ),
        (
            BuildDagError::from(LinkNumError::Output(1, 2)),
            "DAG#1 Node#2 has no output links".to_string(),
        ),
        (
            BuildDagError::from(LinkNumError::InOut(10, 205)),
            "DAG#10 Node#205 has no links".to_string(),
        ),
        (BuildDagError::from(infeasible), infeasible.message()),
        (
            BuildDagError::from(VFedError::NoFeasibleAllocation),
            "NoFeasibleAllocation".to_string(),
        ),
        (
            BuildDagError::VFedSchedulerTypeMissing(4),
            "DAG#4: vfed admitted it but produced no SchedulerType".to_string(),
        ),
        (
            BuildDagError::MissingDagTiming(4),
            "DAG#4 has no source period or no sink end-to-end deadline".to_string(),
        ),
        (
            BuildDagError::LaxityInfeasible(4),
            "DAG#4: relative_deadline <= critical_path, unconditionally infeasible".to_string(),
        ),
        (
            BuildDagError::DagFluidInfeasible(4),
            "DAG#4: relative_deadline <= critical_path, unconditionally infeasible".to_string(),
        ),
        (BuildDagError::from(resource), resource.message()),
    ];
    for (error, words) in table {
        assert_eq!(error.message(), words);
    }
}

#[test]
fn times_follow_their_unit() {
    assert_eq!(TimeUnit::default(), TimeUnit::Milliseconds);
    assert_eq!(
        convert_duration(TimeUnit::Seconds, 3),
        Duration::from_secs(3)
    );
    assert_eq!(
        convert_duration(TimeUnit::Milliseconds, 1_234),
        Duration {
            secs: 1,
            subsec_nanos: 234_000_000
        }
    );
    assert_eq!(
        convert_duration(TimeUnit::Microseconds, 5),
        Duration::from_nanos(5_000)
    );
    assert_eq!(
        convert_duration(TimeUnit::Nanoseconds, 5),
        Duration::from_nanos(5)
    );
    assert_eq!(simulated_execution_time(TimeUnit::Seconds, 2), 2_000);
    assert_eq!(simulated_execution_time(TimeUnit::Milliseconds, 2), 2);
    assert_eq!(simulated_execution_time(TimeUnit::Microseconds, 2_999), 2);
    assert_eq!(simulated_execution_time(TimeUnit::Nanoseconds, 3_000_000), 3);
}

#[test]
fn busy_work_is_calibrated() {
    assert_eq!(busy_iteration(1), 2_654_435_762);
    assert_eq!(busy_iteration(u64::MAX), 0u64.wrapping_sub(2_654_435_760));
    assert_eq!(iterate(0), 1);
    assert_eq!(iterate(2), busy_iteration(busy_iteration(1)));
    assert_eq!(calibrate_busy_work(50_000), 10_000);
    assert_eq!(calibrate_busy_work(3), 1);
    assert!(!calibration_done(4_095, 6_000));
    assert!(!calibration_done(4_096, 4_999));
    assert!(calibration_done(8_192, 5_000));
    assert_eq!(busy_work_for_millisec(0, 7), BusyWork::Wait(7));
    assert_eq!(busy_work_for_millisec(10, 7), BusyWork::Iterate(70));
    assert_eq!(
        busy_work_for_millisec(u64::MAX, 2),
        BusyWork::Iterate(u64::MAX)
    );
}

#[test]
fn timings_are_asked_of_what_gets_registered() {
    assert!(are_timings_given(1, &diamond(Some(50), Some(100))));
    assert!(!are_timings_given(1, &diamond(None, Some(100))));
    assert!(!are_timings_given(1, &diamond(Some(50), None)));
    // The node without links cannot be registered, so the sink after it never is.
    let alone = DagData::new(
        0,
        vec![
            node(0, 1, Some(50), None),
            node(1, 1, None, None),
            node(2, 1, None, None),
        ],
        &[(0, 2)],
    )
    .unwrap();
    assert!(are_timings_given(1, &alone));
}

#[test]
fn only_the_fluid_policy_divides_by_the_period() {
    let zero = diamond(Some(0), Some(100));
    assert!(!is_period_usable(AdmissionPolicy::DagFluid, &zero));
    assert!(is_period_usable(AdmissionPolicy::Federated, &zero));
    assert!(is_period_usable(AdmissionPolicy::Laxity, &zero));
    // The critical path of 45 is beyond the deadline, which is noticed first.
    assert!(is_period_usable(
        AdmissionPolicy::DagFluid,
        &diamond(Some(0), Some(44))
    ));
    assert!(!is_period_usable(
        AdmissionPolicy::DagFluid,
        &diamond(Some(0), Some(45))
    ));
    assert!(is_period_usable(
        AdmissionPolicy::DagFluid,
        &diamond(Some(50), Some(100))
    ));
}
