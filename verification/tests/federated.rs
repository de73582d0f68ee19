//! Federated admission and what it draws on.

use affinity_btree_queue::CpuMask;
use dag_sched::cpu::CpuSet;
use dag_sched::dag_sched::metrics::{DagMetrics, MetricsSource};
use dag_sched::dag_sched::policy::federated::{
    admit_dag, classify_dag, density_window, is_heavy, FederatedError, TaskClass,
};
use dag_sched::dag_sched::provision::Provision;
use dag_sched::dag_sched::resource::{
    allocate_cluster, dagfluid_pool_cpu_set, free_core_count, release_cluster,
    release_dagfluid_capacity, release_light_utilization, reserve_dagfluid_capacity,
    reserve_light_utilization, utilization_scaled, PoolLedger, ResourceError,
};
use dag_sched::scheduler::pool::{
    dag_pool_split_active, is_dag_pool_core, is_regular_pool_core,
};
use dag_sched::scheduler::scheduler_type::SchedulerType;

fn cpus(set: CpuSet) -> Vec<usize> {
    set.iter().collect()
}

#[test]
fn test_from_measured_and_from_static_differ_only_in_source() {
    let static_config = DagMetrics::from_static(100, 20, 50, 50);
    let measured_config = DagMetrics::from_measured(100, 20, 50, 50);

    assert!(!static_config.is_measured());
    assert!(measured_config.is_measured());
    assert_eq!(static_config.volume, measured_config.volume);
    assert_eq!(static_config.critical_path, measured_config.critical_path);
    assert_eq!(static_config.period, measured_config.period);
    assert_eq!(
        static_config.relative_deadline,
        measured_config.relative_deadline
    );
}

#[test]
fn test_dedicated_becomes_clustered_edf() {
    let cores: CpuSet = CpuMask::empty().with(1).with(2);
    let provision = Provision::Dedicated { cores };
    assert!(matches!(
        provision.into_scheduler_type(50),
        SchedulerType::ClusteredEDF(50, set) if set == cores
    ));
}

#[test]
fn test_shared_becomes_gedf() {
    let provision = Provision::Shared {
        utilization_scaled: 500_000,
    };
    assert!(matches!(
        provision.into_scheduler_type(50),
        SchedulerType::GEDF(50)
    ));
}

#[test]
fn test_dag_pool_split() {
    // Workers 1..10; the last (9) is the regular-pool core.
    let num_cpu: usize = 10;
    assert!(dag_pool_split_active(num_cpu));
    assert!(is_regular_pool_core(9, num_cpu));
    assert!(!is_dag_pool_core(9, num_cpu));
    for cpu in 1..9usize {
        assert!(
            is_dag_pool_core(cpu, num_cpu),
            "cpu {cpu} should be in the DAG pool"
        );
        assert!(
            !is_regular_pool_core(cpu, num_cpu),
            "cpu {cpu} should not be the regular-pool core"
        );
    }

    // Too few workers to split: every worker is eligible for both pools.
    let few: usize = 2;
    assert!(!dag_pool_split_active(few));
    assert!(is_dag_pool_core(1, few));
    assert!(is_regular_pool_core(1, few));
}

#[test]
fn pools_leave_the_first_cpu_out() {
    for num_cpu in 1..20usize {
        assert!(!is_dag_pool_core(0, num_cpu));
        assert!(!is_regular_pool_core(0, num_cpu));
        for cpu in 1..num_cpu {
            assert!(is_dag_pool_core(cpu, num_cpu) || is_regular_pool_core(cpu, num_cpu));
        }
    }
    assert!(dag_pool_split_active(3));
}

#[test]
fn federated_test_is_heavy_boundary() {
    // u = C/T == 1 is Light (u <= 1), not Heavy.
    assert!(!is_heavy(100, 100));
    assert!(is_heavy(101, 100));
}

#[test]
fn test_required_cores_formula() {
    // m = ceil((100 - 20) / (50 - 20)) = ceil(80 / 30) = 3
    let config = DagMetrics::from_static(100, 20, 1000, 50);
    assert_eq!(config.min_dedicated_cores(), Some(3));
}

#[test]
fn test_required_cores_sequential_dag_clamped_to_one() {
    let config = DagMetrics::from_static(50, 50, 1000, 60);
    assert_eq!(config.min_dedicated_cores(), Some(1));
}

#[test]
fn test_required_cores_infeasible_deadline() {
    assert_eq!(
        DagMetrics::from_static(100, 50, 1000, 50).min_dedicated_cores(),
        None
    ); // D <= L
    assert_eq!(
        DagMetrics::from_static(100, 50, 1000, 40).min_dedicated_cores(),
        None
    ); // D < L
}

#[test]
fn core_counts_beyond_the_range_are_none() {
    assert_eq!(
        DagMetrics::from_static(65_535, 0, 1, 1).min_dedicated_cores(),
        Some(65_535)
    );
    assert_eq!(
        DagMetrics::from_static(65_536, 0, 1, 1).min_dedicated_cores(),
        None
    );
}

#[test]
fn test_classify_dag_infeasible_when_strictly_past_deadline() {
    let config = DagMetrics::from_static(10, 50, 1000, 40);
    assert_eq!(
        classify_dag(&config),
        Err(FederatedError::Infeasible {
            critical_path: 50,
            relative_deadline: 40,
        })
    );
}

#[test]
fn test_classify_dag_deadline_equals_critical_path_light_ok() {
    let config = DagMetrics::from_static(50, 50, 1000, 50);
    assert_eq!(classify_dag(&config), Ok(TaskClass::Light));
}

#[test]
fn test_classify_dag_deadline_equals_critical_path_heavy_infeasible() {
    let config = DagMetrics::from_static(100, 50, 1000, 50);
    assert_eq!(
        classify_dag(&config),
        Err(FederatedError::Infeasible {
            critical_path: 50,
            relative_deadline: 50,
        })
    );
}

#[test]
fn test_classify_dag_light() {
    // density_window = min(D=90, T=100) = 90; volume(80) <= 90 => Light
    let config = DagMetrics::from_static(80, 20, 100, 90);
    assert_eq!(classify_dag(&config), Ok(TaskClass::Light));
}

#[test]
fn test_classify_dag_heavy() {
    // D == T (implicit deadline): density_window = 50; volume(100) > 50 => Heavy
    let config = DagMetrics::from_static(100, 20, 50, 50);
    assert_eq!(
        classify_dag(&config),
        Ok(TaskClass::Heavy { required_cores: 3 }) // ceil((100-20)/(50-20)) = 3
    );
}

#[test]
fn test_classify_dag_constrained_deadline_reclassifies_as_heavy() {
    // Light by plain utilization (0.6), heavy by density (60/50 = 1.2).
    let config = DagMetrics::from_static(60, 10, 100, 50);
    assert_eq!(
        classify_dag(&config),
        Ok(TaskClass::Heavy { required_cores: 2 }) // ceil((60-10)/(50-10)) = 2
    );
}

#[test]
fn test_classify_dag_from_measured_matches_from_static() {
    let static_config = DagMetrics::from_static(100, 20, 50, 50);
    let measured_config = DagMetrics::from_measured(100, 20, 50, 50);

    assert!(!static_config.is_measured());
    assert!(measured_config.is_measured());
    assert_eq!(classify_dag(&static_config), classify_dag(&measured_config));
}

#[test]
fn density_window_is_the_shorter_of_deadline_and_period() {
    assert_eq!(density_window(&DagMetrics::from_static(1, 1, 100, 50)), 50);
    assert_eq!(density_window(&DagMetrics::from_static(1, 1, 100, 150)), 100);
}

#[test]
fn test_cluster_allocation_lifecycle() {
    // Workers 1..10 (9); core 9 is the regular pool, so the DAG pool (1..9) has 8 cores.
    let num_cpu: usize = 10;
    let mut pool = PoolLedger::new();

    let heavy_a = allocate_cluster(&mut pool, num_cpu, 3).unwrap();
    let heavy_b = allocate_cluster(&mut pool, num_cpu, 3).unwrap();
    assert!(!heavy_a.contains(9) && !heavy_b.contains(9)); // never claims the regular-pool core
    assert_eq!(heavy_a.union(heavy_b).iter().count(), 6); // disjoint: 3 + 3 distinct cores
    for cpu in heavy_a.iter() {
        assert!(!heavy_b.contains(cpu));
    }

    // Only 2 workers remain (8 - 3 - 3); a third 3-core cluster must fail.
    match allocate_cluster(&mut pool, num_cpu, 3) {
        Err(ResourceError::InsufficientCores {
            required: 3,
            available: 2,
        }) => {}
        other => {
            panic!("expected InsufficientCores{{required: 3, available: 2}}, got {other:?}")
        }
    }

    release_cluster(&mut pool, heavy_a);
    let heavy_c = allocate_cluster(&mut pool, num_cpu, 3).unwrap();
    assert!(heavy_c.iter().all(|cpu| !heavy_b.contains(cpu)));

    // admit_dag end-to-end: Light gets GEDF, Heavy gets a fresh cluster.
    let light = admit_dag(&mut pool, num_cpu, DagMetrics::from_static(10, 5, 100, 50)).unwrap();
    assert_eq!(light.class, TaskClass::Light);
    assert_eq!(light.source, MetricsSource::Static);
    assert!(matches!(light.provision, Provision::Shared { .. }));
    assert!(matches!(light.scheduler_type, SchedulerType::GEDF(50)));
    release_light_utilization(&mut pool, 10, 50);

    release_cluster(&mut pool, heavy_b);
    release_cluster(&mut pool, heavy_c);

    // Light-pool oversubscription: claim 7 of the 8 workers, leaving exactly 1 core.
    let heavy_big = allocate_cluster(&mut pool, num_cpu, 7).unwrap();

    reserve_light_utilization(&mut pool, num_cpu, 60, 100).unwrap(); // committed = 600_000

    match reserve_light_utilization(&mut pool, num_cpu, 50, 100) {
        // u = 0.5 => additional 500_000; 600_000 + 500_000 > 1_000_000
        Err(ResourceError::LightPoolOversubscribed {
            additional_utilization_scaled: 500_000,
            available_capacity_scaled: 400_000,
        }) => {}
        other => panic!(
            "expected LightPoolOversubscribed{{additional: 500_000, available: 400_000}}, got {other:?}"
        ),
    }

    release_light_utilization(&mut pool, 60, 100); // frees the 600_000 back up

    let heavy_config = DagMetrics::from_measured(50, 10, 100, 90);
    assert!(matches!(
        classify_dag(&heavy_config).unwrap(),
        TaskClass::Light
    ));
    reserve_light_utilization(&mut pool, num_cpu, 50, 100).unwrap();
    release_light_utilization(&mut pool, 50, 100);

    release_cluster(&mut pool, heavy_big);
}

#[test]
fn a_cluster_takes_the_first_free_workers() {
    let mut pool = PoolLedger::new();
    let first = allocate_cluster(&mut pool, 10, 2).unwrap();
    assert_eq!(cpus(first), vec![1, 2]);
    let second = allocate_cluster(&mut pool, 10, 3).unwrap();
    assert_eq!(cpus(second), vec![3, 4, 5]);
    assert_eq!(free_core_count(&pool, 10), 3);
    release_cluster(&mut pool, first);
    assert_eq!(free_core_count(&pool, 10), 5);
    assert_eq!(cpus(dagfluid_pool_cpu_set(&pool, 10)), vec![1, 2, 6, 7, 8]);
}

#[test]
fn releasing_undoes_claiming_and_reserving() {
    let mut pool = PoolLedger::new();
    let before_free = free_core_count(&pool, 10);
    let cluster = allocate_cluster(&mut pool, 10, 4).unwrap();
    release_cluster(&mut pool, cluster);
    assert_eq!(free_core_count(&pool, 10), before_free);
    assert!(pool.claimed_cores.is_empty());

    reserve_light_utilization(&mut pool, 10, 30, 100).unwrap();
    assert_eq!(pool.light_utilization_scaled, 300_000);
    release_light_utilization(&mut pool, 30, 100);
    assert_eq!(pool.light_utilization_scaled, 0);

    reserve_dagfluid_capacity(&mut pool, 10, 1_250_000).unwrap();
    assert_eq!(pool.light_utilization_scaled, 1_250_000);
    release_dagfluid_capacity(&mut pool, 1_250_000);
    assert_eq!(pool.light_utilization_scaled, 0);
}

#[test]
fn the_capacity_of_the_pool_is_exact() {
    let mut pool = PoolLedger::new();
    // Eight free cores: exactly eight processors fit.
    assert_eq!(
        reserve_dagfluid_capacity(&mut pool, 10, 8_000_000),
        Ok(8_000_000)
    );
    assert_eq!(
        reserve_dagfluid_capacity(&mut pool, 10, 1),
        Err(ResourceError::LightPoolOversubscribed {
            additional_utilization_scaled: 1,
            available_capacity_scaled: 0,
        })
    );
}

#[test]
fn scaled_utilization_rounds_down_and_saturates() {
    assert_eq!(utilization_scaled(1, 3), 333_333);
    assert_eq!(utilization_scaled(5, 0), 5_000_000);
    assert_eq!(utilization_scaled(u64::MAX, 1), u64::MAX);
}

#[test]
fn heavy_dags_get_clusters_or_an_error() {
    let mut pool = PoolLedger::new();
    let heavy = DagMetrics::from_static(100, 20, 50, 50);
    let assignment = admit_dag(&mut pool, 10, heavy).unwrap();
    assert_eq!(assignment.class, TaskClass::Heavy { required_cores: 3 });
    match assignment.scheduler_type {
        SchedulerType::ClusteredEDF(50, set) => assert_eq!(cpus(set), vec![1, 2, 3]),
        other => panic!("expected ClusteredEDF, got {other:?}"),
    }
    admit_dag(&mut pool, 10, heavy).unwrap();
    let refused = admit_dag(&mut pool, 10, heavy);
    assert_eq!(
        refused.err(),
        Some(FederatedError::Resource(ResourceError::InsufficientCores {
            required: 3,
            available: 2,
        }))
    );
    assert_eq!(free_core_count(&pool, 10), 2);
}

#[test]
fn messages_name_the_numbers() {
    let infeasible = FederatedError::Infeasible {
        critical_path: 50,
        relative_deadline: 40,
    };
    assert_eq!(
        infeasible.message(),
        "relative_deadline(40) <= critical_path(50); no core count can meet this deadline"
    );
    let cores = ResourceError::InsufficientCores {
        required: 3,
        available: 2,
    };
    assert_eq!(
        cores.message(),
        "needs 3 dedicated core(s) but only 2 are free"
    );
    assert_eq!(FederatedError::from(cores).message(), cores.message());
    let light = ResourceError::LightPoolOversubscribed {
        additional_utilization_scaled: 505_009,
        available_capacity_scaled: 1_000_000,
    };
    assert_eq!(
        light.message(),
        "light pool oversubscribed: this DAG needs 50.50% more utilization but only 100.00% is free"
    );
    assert_eq!(cores.debug_message(), format!("{cores:?}"));
    assert_eq!(light.debug_message(), format!("{light:?}"));
}
