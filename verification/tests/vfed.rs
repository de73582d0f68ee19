//! V-Fed admission: supply bounds, plans, partitions and whole batches.

use affinity_btree_queue::CpuMask;
use dag_sched::cpu::{CpuSet, NUM_MAX_CPU};
use dag_sched::dag_sched::metrics::DagMetrics;
use dag_sched::dag_sched::policy::vfed::batch::{
    plan_batch, search_min_heavy_cores, try_alloc_heavy_within,
};
use dag_sched::dag_sched::policy::vfed::order::{sort, PlanOrder};
use dag_sched::dag_sched::policy::vfed::packing::{choose_partition, Partition};
use dag_sched::dag_sched::policy::vfed::plan::{
    full_active_vp_budgets, generate_passive_vps, is_heavy, mixed_schedulable,
    partial_active_vp_budgets, passive_vp_is_useful, pull_passives_until_schedulable, take_indices,
};
use dag_sched::dag_sched::policy::vfed::supply::{sbf, PassiveVpKind};
use dag_sched::dag_sched::policy::vfed::{
    admit_batch, admit_one, classify, is_batch_feasible, plan_heavy, plan_light, ActiveVp,
    PackingStrategy, PassiveVp, TaskClass, VFedAssignment, VFedError, VFedState,
};
use dag_sched::dag_sched::resource::{free_core_count, ResourceError};
use dag_sched::scheduler::scheduler_type::SchedulerType;

fn vp(cpu: usize, active_budget: u64, owner_period: u64, owner_deadline: u64) -> PassiveVp {
    PassiveVp {
        cpu,
        kind: PassiveVpKind::Independent {
            active_budget,
            owner_period,
            owner_deadline,
        },
    }
}

#[test]
fn vfed_test_is_heavy_boundary() {
    assert!(!is_heavy(100, 100));
    assert!(is_heavy(101, 100));
}

#[test]
fn test_classify_rejects_arbitrary_deadline() {
    let config = DagMetrics::from_static(10, 5, 100, 150); // D=150 > T=100
    assert_eq!(
        classify(&config),
        Err(VFedError::ArbitraryDeadlineNotSupported {
            relative_deadline: 150,
            period: 100,
        })
    );
}

#[test]
fn test_classify_infeasible_when_strictly_past_deadline() {
    let config = DagMetrics::from_static(10, 50, 1000, 40);
    assert_eq!(
        classify(&config),
        Err(VFedError::Infeasible {
            critical_path: 50,
            relative_deadline: 40,
        })
    );
}

#[test]
fn test_classify_deadline_equals_critical_path_light_ok() {
    let config = DagMetrics::from_static(50, 50, 1000, 50);
    assert_eq!(classify(&config), Ok(TaskClass::Light));
}

#[test]
fn test_classify_deadline_equals_critical_path_heavy_infeasible() {
    let config = DagMetrics::from_static(100, 50, 1000, 50);
    assert_eq!(
        classify(&config),
        Err(VFedError::Infeasible {
            critical_path: 50,
            relative_deadline: 50,
        })
    );
}

#[test]
fn test_classify_light_and_heavy() {
    assert_eq!(
        classify(&DagMetrics::from_static(80, 20, 100, 90)).unwrap(),
        TaskClass::Light
    );
    assert_eq!(
        classify(&DagMetrics::from_static(100, 20, 100, 50)).unwrap(),
        TaskClass::Heavy { required_cores: 3 } // ceil((100-20)/(50-20)) = 3
    );
}

#[test]
fn test_sbf_zero_below_budget() {
    assert_eq!(sbf(5, 6, 10, 10), 0); // delta < budget
}

#[test]
fn test_sbf_matches_paper_worked_example_leading_vp() {
    let p1 = vp(1, 8, 10, 8);
    assert_eq!(p1.sbf(9), 1);
    assert_eq!(p1.sbf(8), 0);
}

#[test]
fn test_sbf_matches_paper_worked_example_non_leading_vp() {
    let p = vp(2, 1, 10, 8);
    assert_eq!(p.sbf(8), 6); // used when planning tau2 (D2=8)
    assert_eq!(p.sbf(9), 7); // used when planning tau3 (D3=9)
}

#[test]
fn test_always_free_slot_sbf_is_full_delta() {
    let always_free = PassiveVp {
        cpu: 0,
        kind: PassiveVpKind::AlwaysFree,
    };
    for delta in [0, 1, 9, 1000] {
        assert_eq!(always_free.sbf(delta), delta);
    }
}

#[test]
fn test_shared_slot_matches_hand_computed_example() {
    let shared = PassiveVp {
        cpu: 0,
        kind: PassiveVpKind::Shared {
            budgets: vec![8, 1, 1],
            owner_period: 10,
            owner_deadline: 8,
            li: 2,
        },
    };
    assert_eq!(shared.sbf(9), 3);
}

#[test]
fn test_shared_slot_li_zero_is_defensive_zero_not_panic() {
    let shared = PassiveVp {
        cpu: 0,
        kind: PassiveVpKind::Shared {
            budgets: vec![8, 1, 1],
            owner_period: 10,
            owner_deadline: 8,
            li: 0,
        },
    };
    assert_eq!(shared.sbf(9), 0);
}

#[test]
fn test_generate_passive_vps_falls_back_to_independent_when_unknown() {
    let budgets = vec![8, 1, 1, 1, 1];
    let vps = generate_passive_vps(&budgets, &[0, 1, 2, 3, 4], 10, 8, u16::MAX);
    assert_eq!(vps.len(), 5);
    for (v, &b) in vps.iter().zip(&budgets) {
        assert_eq!(
            v.kind,
            PassiveVpKind::Independent {
                active_budget: b,
                owner_period: 10,
                owner_deadline: 8,
            }
        );
    }
}

#[test]
fn test_generate_passive_vps_falls_back_to_independent_when_li_not_less_than_mi() {
    let budgets = vec![8, 1, 1];
    let vps = generate_passive_vps(&budgets, &[0, 1, 2], 10, 8, 3);
    assert!(vps
        .iter()
        .all(|v| matches!(v.kind, PassiveVpKind::Independent { .. })));
}

#[test]
fn test_generate_passive_vps_splits_always_free_then_shared() {
    let budgets = vec![8, 1, 1];
    let vps = generate_passive_vps(&budgets, &[10, 11, 12], 10, 8, 2); // li=2, mi-li=1
    assert_eq!(vps.len(), 3);
    assert_eq!(vps[0].cpu, 10);
    assert!(matches!(vps[0].kind, PassiveVpKind::AlwaysFree));
    for v in &vps[1..] {
        assert!(matches!(v.kind, PassiveVpKind::Shared { li: 2, .. }));
    }
    assert_eq!(vps[1].cpu, 11);
    assert_eq!(vps[2].cpu, 12);
}

#[test]
fn test_ours2_split_is_not_always_better_than_ours1_pointwise() {
    let budgets = vec![8u64, 1, 1, 1, 1];
    let independent = generate_passive_vps(&budgets, &[0, 1, 2, 3, 4], 10, 8, u16::MAX);
    let split = generate_passive_vps(&budgets, &[0, 1, 2, 3, 4], 10, 8, 3);
    let sum = |vps: &[PassiveVp]| -> u64 { vps.iter().map(|v| v.sbf(5)).sum() };
    assert_eq!(sum(&independent), 12);
    assert_eq!(sum(&split), 10);
}

#[test]
fn test_paper_worked_example() {
    let tau1 = DagMetrics::from_static(12, 7, 10, 8);
    let tau2 = DagMetrics::from_static(10, 4, 10, 8);
    let tau3 = DagMetrics::from_static(10, 2, 9, 9);
    let tau4 = DagMetrics::from_static(6, 2, 10, 10);
    let tau5 = DagMetrics::from_static(5, 3, 10, 10);

    assert_eq!(
        classify(&tau1).unwrap(),
        TaskClass::Heavy { required_cores: 5 }
    );
    assert_eq!(
        classify(&tau2).unwrap(),
        TaskClass::Heavy { required_cores: 2 }
    );
    assert_eq!(
        classify(&tau3).unwrap(),
        TaskClass::Heavy { required_cores: 2 }
    );
    assert_eq!(classify(&tau4).unwrap(), TaskClass::Light);
    assert_eq!(classify(&tau5).unwrap(), TaskClass::Light);

    let mut pool: Vec<PassiveVp> = Vec::new();

    let plan1 = plan_heavy(&tau1, 5, &pool).unwrap();
    assert_eq!(plan1.cores_used, 5);
    assert_eq!(plan1.active_budgets, vec![8, 1, 1, 1, 1]);
    assert!(plan1.passive_indices.is_empty());
    pool.extend(plan1.active_budgets.iter().enumerate().map(|(i, &b)| {
        vp(i + 1, b, tau1.period, tau1.relative_deadline)
    })); // p1..p5

    let plan2 = plan_heavy(&tau2, 1, &pool).unwrap();
    assert_eq!(plan2.cores_used, 1);
    assert_eq!(plan2.active_budgets, vec![8]);
    assert_eq!(plan2.passive_indices, vec![1]); // p2, index 1
    for &idx in plan2.passive_indices.iter().rev() {
        pool.remove(idx);
    }
    pool.push(vp(6, 8, tau2.period, tau2.relative_deadline)); // p6

    let plan3 = plan_heavy(&tau3, 0, &pool).unwrap();
    assert_eq!(plan3.cores_used, 0);
    assert!(plan3.active_budgets.is_empty());
    assert_eq!(plan3.passive_indices, vec![1, 2]);
    for &idx in plan3.passive_indices.iter().rev() {
        pool.remove(idx);
    }

    let plan4 = plan_light(&tau4, &pool).unwrap();
    assert_eq!(plan4, vec![1]); // p5
}

#[test]
fn test_search_min_heavy_cores_matches_paper() {
    let tau1 = DagMetrics::from_static(12, 7, 10, 8);
    let tau2 = DagMetrics::from_static(10, 4, 10, 8);
    let tau3 = DagMetrics::from_static(10, 2, 9, 9);
    let heavy = [tau1, tau2, tau3]; // already ascending D-L: 1, 4, 7

    let (mh, plans, pool) = search_min_heavy_cores(&heavy, 7).unwrap();
    assert_eq!(mh, 6);
    assert_eq!(plans.len(), 3);
    assert_eq!(plans[0].cores_used, 5); // tau1
    assert_eq!(plans[1].cores_used, 1); // tau2
    assert_eq!(plans[2].cores_used, 0); // tau3
    assert_eq!(pool.len(), 3);
}

#[test]
fn test_search_min_heavy_cores_fails_when_no_mh_fits() {
    let huge = DagMetrics::from_static(10_000, 10, 20, 15);
    assert!(search_min_heavy_cores(&[huge], 4).is_none());
}

#[test]
fn test_search_min_heavy_cores_empty_input() {
    let (mh, plans, pool) = search_min_heavy_cores(&[], 7).unwrap();
    assert_eq!(mh, 0);
    assert!(plans.is_empty());
    assert!(pool.is_empty());
}

fn partition(committed_scaled: u64) -> Partition {
    Partition {
        committed_density_scaled: committed_scaled,
    }
}

#[test]
fn test_choose_partition_first_fit_picks_earliest_that_fits() {
    let partitions = [partition(900_000), partition(100_000), partition(500_000)];
    assert_eq!(
        choose_partition(PackingStrategy::FirstFit, &partitions, 400_000),
        Some(1)
    );
}

#[test]
fn test_choose_partition_best_fit_picks_tightest_fit() {
    let partitions = [partition(900_000), partition(100_000), partition(500_000)];
    assert_eq!(
        choose_partition(PackingStrategy::BestFit, &partitions, 400_000),
        Some(2)
    );
}

#[test]
fn test_choose_partition_worst_fit_picks_roomiest() {
    let partitions = [partition(900_000), partition(100_000), partition(500_000)];
    assert_eq!(
        choose_partition(PackingStrategy::WorstFit, &partitions, 400_000),
        Some(1)
    );
}

#[test]
fn test_choose_partition_none_fit() {
    let partitions = [partition(700_000), partition(800_000)];
    assert_eq!(
        choose_partition(PackingStrategy::BestFit, &partitions, 400_000),
        None
    );
}

#[test]
fn test_into_scheduler_type_pure_active_vp() {
    let assignment = VFedAssignment::Heavy {
        active: vec![
            ActiveVp { cpu: 3, budget: 8 },
            ActiveVp { cpu: 4, budget: 1 },
        ],
        passive: Vec::new(),
    };
    let sched = assignment.into_scheduler_type(50).unwrap();
    match sched {
        SchedulerType::ActiveVp(cpu_set, leading) => {
            assert_eq!(leading, 3); // first entry is always the leading VP
            assert!(cpu_set.contains(3) && cpu_set.contains(4));
        }
        other => panic!("expected ActiveVp, got {other:?}"),
    }
}

#[test]
fn test_into_scheduler_type_mixed_heavy() {
    let assignment = VFedAssignment::Heavy {
        active: vec![ActiveVp { cpu: 3, budget: 8 }],
        passive: vec![vp(9, 1, 10, 8)],
    };
    let sched = assignment.into_scheduler_type(50).unwrap();
    match sched {
        SchedulerType::MixedVp(active_set, leading, passive_set) => {
            assert_eq!(leading, 3);
            assert!(active_set.contains(3) && !active_set.contains(9));
            assert!(passive_set.contains(9) && !passive_set.contains(3));
        }
        other => panic!("expected MixedVp, got {other:?}"),
    }
}

#[test]
fn test_into_scheduler_type_mixed_heavy_fully_passive() {
    let assignment = VFedAssignment::Heavy {
        active: vec![],
        passive: vec![vp(5, 1, 10, 8), vp(6, 1, 10, 8)],
    };
    let sched = assignment.into_scheduler_type(50).unwrap();
    match sched {
        SchedulerType::MixedVp(active_set, leading, passive_set) => {
            assert!(active_set.is_empty());
            assert_eq!(leading, 0);
            assert!(passive_set.contains(5) && passive_set.contains(6));
        }
        other => panic!("expected MixedVp, got {other:?}"),
    }
}

#[test]
fn test_into_scheduler_type_pure_passive() {
    let assignment = VFedAssignment::LightPassive {
        passive: vec![vp(5, 1, 10, 8), vp(6, 1, 10, 8)],
    };
    let sched = assignment.into_scheduler_type(50).unwrap();
    match sched {
        SchedulerType::PassiveVp(cpu_set) => {
            assert!(cpu_set.contains(5) && cpu_set.contains(6));
        }
        other => panic!("expected PassiveVp, got {other:?}"),
    }
}

#[test]
fn test_into_scheduler_type_partitioned() {
    let assignment = VFedAssignment::LightPartitioned { cpu: 7 };
    let sched = assignment.into_scheduler_type(50).unwrap();
    match sched {
        SchedulerType::ClusteredEDF(deadline, cpu_set) => {
            assert_eq!(deadline, 50);
            assert!(cpu_set.contains(7));
            assert_eq!(cpu_set.iter().count(), 1);
        }
        other => panic!("expected ClusteredEDF, got {other:?}"),
    }
}

#[test]
fn test_is_batch_feasible_matches_paper_worked_example() {
    let tau1 = DagMetrics::from_static(12, 7, 10, 8);
    let tau2 = DagMetrics::from_static(10, 4, 10, 8);
    let tau3 = DagMetrics::from_static(10, 2, 9, 9);
    let tau4 = DagMetrics::from_static(6, 2, 10, 10);
    let tau5 = DagMetrics::from_static(5, 3, 10, 10);
    assert!(is_batch_feasible(
        &[tau1, tau2, tau3, tau4, tau5],
        7,
        PackingStrategy::FirstFit
    ));
}

#[test]
fn test_is_batch_feasible_false_when_infeasible() {
    let huge = DagMetrics::from_static(10_000, 10, 20, 15);
    assert!(!is_batch_feasible(&[huge], 4, PackingStrategy::FirstFit));
}

#[test]
fn test_is_batch_feasible_false_when_core_budget_too_small() {
    let tau1 = DagMetrics::from_static(12, 7, 10, 8);
    let tau2 = DagMetrics::from_static(10, 4, 10, 8);
    let tau3 = DagMetrics::from_static(10, 2, 9, 9);
    assert!(!is_batch_feasible(&[tau1, tau2, tau3], 5, PackingStrategy::FirstFit));
}

fn five_tasks() -> [DagMetrics; 5] {
    [
        DagMetrics::from_static(12, 7, 10, 8),
        DagMetrics::from_static(10, 4, 10, 8),
        DagMetrics::from_static(10, 2, 9, 9),
        DagMetrics::from_static(6, 2, 10, 10),
        DagMetrics::from_static(5, 3, 10, 10),
    ]
}

#[test]
fn supply_is_monotone_and_bounded_by_the_interval() {
    for budget in 1..=10u64 {
        for deadline in budget..=10u64 {
            let mut last: u64 = 0;
            for delta in 0..60u64 {
                let supply: u64 = sbf(delta, budget, 10, deadline);
                assert!(supply >= last);
                assert!(supply <= delta);
                last = supply;
            }
        }
    }
}

#[test]
fn supply_grows_by_the_leftover_in_every_period() {
    // Each further period supplies what the active VP leaves of it.
    assert_eq!(sbf(19, 8, 10, 8), sbf(9, 8, 10, 8) + 2);
    assert_eq!(sbf(29, 8, 10, 8), sbf(9, 8, 10, 8) + 4);
}

#[test]
fn full_groups_cover_the_volume() {
    let budgets = full_active_vp_budgets(12, 7, 8, 5);
    assert_eq!(budgets, vec![8, 1, 1, 1, 1]);
    let total: u64 = budgets.iter().sum();
    assert_eq!(total, 12);
    assert_eq!(partial_active_vp_budgets(4, 8, 3), vec![8, 4, 4]);
}

#[test]
fn schedulability_compares_supply_and_volume() {
    assert!(mixed_schedulable(10, 8, 2));
    assert!(!mixed_schedulable(10, 8, 1));
    assert!(mixed_schedulable(10, u64::MAX, u64::MAX));
}

#[test]
fn useful_passive_vps_beat_the_critical_path() {
    let p = vp(2, 1, 10, 8);
    assert!(passive_vp_is_useful(&p, 4, 8));
    assert!(!passive_vp_is_useful(&p, 6, 8));
}

#[test]
fn passive_vps_are_pulled_in_order_until_enough() {
    let pool = [vp(1, 8, 10, 8), vp(2, 1, 10, 8), vp(3, 1, 10, 8)];
    assert_eq!(
        pull_passives_until_schedulable(10, 4, 8, 8, &pool),
        Ok(vec![1])
    );
    assert_eq!(
        pull_passives_until_schedulable(100, 4, 8, 8, &pool),
        Err(VFedError::NoFeasibleAllocation)
    );
}

#[test]
fn taking_splits_the_pool() {
    let mut pool = vec![vp(1, 1, 10, 8), vp(2, 2, 10, 8), vp(3, 3, 10, 8), vp(4, 4, 10, 8)];
    let taken = take_indices(&mut pool, &[1, 3]);
    let left: Vec<usize> = pool.iter().map(|v| v.cpu).collect();
    let mut got: Vec<usize> = taken.iter().map(|v| v.cpu).collect();
    got.sort();
    assert_eq!(left, vec![1, 3]);
    assert_eq!(got, vec![2, 4]);
}

#[test]
fn planning_orders_are_stable() {
    let list = vec![
        (0, DagMetrics::from_static(10, 2, 10, 9)),
        (1, DagMetrics::from_static(10, 7, 10, 8)),
        (2, DagMetrics::from_static(20, 7, 10, 8)),
        (3, DagMetrics::from_static(10, 4, 10, 8)),
    ];
    let by_laxity: Vec<usize> = sort(PlanOrder::AscendingLaxity, &list)
        .iter()
        .map(|e| e.0)
        .collect();
    assert_eq!(by_laxity, vec![1, 2, 3, 0]);
    let by_density: Vec<usize> = sort(PlanOrder::DescendingDensity, &list)
        .iter()
        .map(|e| e.0)
        .collect();
    assert_eq!(by_density, vec![2, 1, 3, 0]);
}

#[test]
fn densities_are_compared_exactly() {
    // Both are so close to one that a ratio in parts per million does not tell them apart.
    let list = vec![
        (0, DagMetrics::from_static(10_000_000_000, 1, 10_000_000_001, 10_000_000_001)),
        (1, DagMetrics::from_static(20_000_000_000, 1, 20_000_000_001, 20_000_000_001)),
    ];
    let order: Vec<usize> = sort(PlanOrder::DescendingDensity, &list)
        .iter()
        .map(|e| e.0)
        .collect();
    assert_eq!(order, vec![1, 0]);
}

#[test]
fn a_batch_plan_names_every_dag_once() {
    let tasks = five_tasks();
    let plan = plan_batch(&tasks, 7, PackingStrategy::FirstFit).unwrap();
    let mut places: Vec<usize> = plan
        .heavy
        .iter()
        .chain(plan.light.iter())
        .map(|e| e.0)
        .collect();
    places.sort();
    assert_eq!(places, vec![0, 1, 2, 3, 4]);
    assert_eq!(plan.mh, 6);
    assert_eq!(plan.heavy_plans.len(), 3);
    assert_eq!(plan.outcomes.len(), 2);
}

#[test]
fn a_batch_is_admitted_as_planned() {
    let tasks = five_tasks();
    let mut state = VFedState::new();
    // Nine CPUs: workers 1..8 of the DAG pool, and the regular-pool core.
    let assignments = admit_batch(&mut state, &tasks, PackingStrategy::FirstFit, 9).unwrap();
    assert_eq!(assignments.len(), 5);
    match &assignments[0] {
        VFedAssignment::Heavy { active, passive } => {
            let cores: Vec<usize> = active.iter().map(|a| a.cpu).collect();
            let budgets: Vec<u64> = active.iter().map(|a| a.budget).collect();
            assert_eq!(cores, vec![1, 2, 3, 4, 5]);
            assert_eq!(budgets, vec![8, 1, 1, 1, 1]);
            assert!(passive.is_empty());
        }
        other => panic!("expected Heavy, got {other:?}"),
    }
    match &assignments[1] {
        VFedAssignment::Heavy { active, passive } => {
            assert_eq!(active[0].cpu, 6);
            assert_eq!(passive.len(), 1);
            assert_eq!(passive[0].cpu, 2);
        }
        other => panic!("expected Heavy, got {other:?}"),
    }
    match &assignments[2] {
        VFedAssignment::Heavy { active, passive } => {
            assert!(active.is_empty());
            let cores: Vec<usize> = passive.iter().map(|p| p.cpu).collect();
            assert_eq!(cores, vec![3, 4]);
        }
        other => panic!("expected Heavy, got {other:?}"),
    }
    match &assignments[3] {
        VFedAssignment::LightPassive { passive } => assert_eq!(passive[0].cpu, 5),
        other => panic!("expected LightPassive, got {other:?}"),
    }
    match &assignments[4] {
        VFedAssignment::LightPartitioned { cpu } => assert_eq!(*cpu, 7),
        other => panic!("expected LightPartitioned, got {other:?}"),
    }
    assert_eq!(free_core_count(&state.ledger, 9), 0);
    assert_eq!(state.budgets.cores[1].initial_budget, 8);
    assert_eq!(state.budgets.cores[2].initial_budget, 1);
    assert_eq!(state.budgets.cores[7].initial_budget, 0);
}

#[test]
fn an_infeasible_batch_changes_nothing() {
    let tasks = five_tasks();
    let mut state = VFedState::new();
    assert_eq!(
        admit_batch(&mut state, &tasks[0..3], PackingStrategy::FirstFit, 7).err(),
        Some(VFedError::NoFeasibleAllocation)
    );
    assert_eq!(free_core_count(&state.ledger, 7), 5);
    assert!(state.passive_pool.is_empty());
    assert!(state.partitions.is_empty());
}

#[test]
fn one_dag_at_a_time_draws_on_what_the_others_left() {
    let tasks = five_tasks();
    let mut state = VFedState::new();
    let first = admit_one(&mut state, tasks[0], PackingStrategy::FirstFit, 8).unwrap();
    assert!(matches!(first, VFedAssignment::Heavy { .. }));
    assert_eq!(free_core_count(&state.ledger, 8), 1);
    assert_eq!(state.passive_pool.len(), 5);

    let second = admit_one(&mut state, tasks[1], PackingStrategy::FirstFit, 8).unwrap();
    match second {
        VFedAssignment::Heavy { active, passive } => {
            assert_eq!(active.len(), 1);
            assert_eq!(active[0].cpu, 6);
            assert_eq!(passive[0].cpu, 2);
        }
        other => panic!("expected Heavy, got {other:?}"),
    }
    assert_eq!(free_core_count(&state.ledger, 8), 0);
}

#[test]
fn light_dags_share_partitions() {
    let light = DagMetrics::from_static(3, 2, 10, 10);
    let mut state = VFedState::new();
    let first = admit_one(&mut state, light, PackingStrategy::FirstFit, 4).unwrap();
    let second = admit_one(&mut state, light, PackingStrategy::FirstFit, 4).unwrap();
    assert!(matches!(first, VFedAssignment::LightPartitioned { cpu: 1 }));
    assert!(matches!(second, VFedAssignment::LightPartitioned { cpu: 1 }));
    assert_eq!(state.partitions.len(), 1);
    assert_eq!(state.partitions[0].1.committed_density_scaled, 600_000);
    // A third and a fourth: the partition is full after the third.
    admit_one(&mut state, light, PackingStrategy::FirstFit, 4).unwrap();
    let fourth = admit_one(&mut state, light, PackingStrategy::FirstFit, 4).unwrap();
    assert!(matches!(fourth, VFedAssignment::LightPartitioned { cpu: 2 }));
}

#[test]
fn a_light_dag_without_a_core_is_refused() {
    let light = DagMetrics::from_static(10, 2, 10, 10);
    let mut state = VFedState::new();
    // Three CPUs: one DAG-pool worker.
    admit_one(&mut state, light, PackingStrategy::FirstFit, 3).unwrap();
    assert_eq!(
        admit_one(&mut state, light, PackingStrategy::FirstFit, 3).err(),
        Some(VFedError::Resource(ResourceError::InsufficientCores {
            required: 1,
            available: 0,
        }))
    );
}

#[test]
fn no_vp_at_all_means_no_scheduler_class() {
    let nothing = VFedAssignment::Heavy {
        active: Vec::new(),
        passive: Vec::new(),
    };
    assert!(nothing.into_scheduler_type(50).is_none());
}

#[test]
fn partitions_know_their_room() {
    assert_eq!(partition(400_000).remaining_scaled(), 600_000);
    assert_eq!(partition(1_200_000).remaining_scaled(), 0);
}

#[test]
fn errors_read_as_they_are_written() {
    let resource = ResourceError::InsufficientCores {
        required: 1,
        available: 0,
    };
    for error in [
        VFedError::Infeasible {
            critical_path: 50,
            relative_deadline: 40,
        },
        VFedError::ArbitraryDeadlineNotSupported {
            relative_deadline: 150,
            period: 100,
        },
        VFedError::NoFeasibleAllocation,
        VFedError::from(resource),
    ] {
        assert_eq!(error.debug_message(), format!("{error:?}"));
    }
    assert_eq!(VFedError::from(resource), VFedError::Resource(resource));
}

#[test]
fn assignments_cover_exactly_their_cpus() {
    let assignment = VFedAssignment::LightPassive {
        passive: vec![vp(5, 1, 10, 8), vp(6, 1, 10, 8), vp(5, 2, 10, 8)],
    };
    let expected: CpuSet = CpuMask::empty().with(5).with(6);
    match assignment.into_scheduler_type(50) {
        Some(SchedulerType::PassiveVp(set)) => assert_eq!(set, expected),
        other => panic!("expected PassiveVp, got {other:?}"),
    }
}

#[test]
fn ties_between_partitions_are_broken_by_strategy() {
    let partitions = [partition(300_000), partition(300_000), partition(900_000)];
    assert_eq!(
        choose_partition(PackingStrategy::FirstFit, &partitions, 100_000),
        Some(0)
    );
    assert_eq!(
        choose_partition(PackingStrategy::BestFit, &partitions, 200_000),
        Some(0)
    );
    assert_eq!(
        choose_partition(PackingStrategy::WorstFit, &partitions, 200_000),
        Some(1)
    );
}

#[test]
fn heavy_dags_one_by_one_follow_the_joint_plan() {
    let tasks = five_tasks();
    let heavy = &tasks[0..3];
    // Eight CPUs: six DAG-pool workers.
    let (plans, pool) = try_alloc_heavy_within(heavy, 6).unwrap();
    let mut state = VFedState::new();
    for (config, plan) in heavy.iter().zip(&plans) {
        match admit_one(&mut state, *config, PackingStrategy::FirstFit, 8).unwrap() {
            VFedAssignment::Heavy { active, passive } => {
                let budgets: Vec<u64> = active.iter().map(|a| a.budget).collect();
                assert_eq!(budgets, plan.active_budgets);
                assert_eq!(passive.len(), plan.passive_indices.len());
            }
            other => panic!("expected Heavy, got {other:?}"),
        }
    }
    assert_eq!(state.passive_pool.len(), pool.len());
    for (real_vp, planned_vp) in state.passive_pool.iter().zip(&pool) {
        assert_eq!(real_vp.kind, planned_vp.kind);
    }
}

#[test]
fn no_core_is_handed_out_twice() {
    let tasks = five_tasks();
    let mut state = VFedState::new();
    let mut taken: Vec<usize> = Vec::new();
    for config in &tasks {
        let assignment = admit_one(&mut state, *config, PackingStrategy::BestFit, 16).unwrap();
        if let VFedAssignment::Heavy { active, .. } = assignment {
            for vp in active {
                assert!(!taken.contains(&vp.cpu));
                assert!(state.ledger.claimed_cores.contains(vp.cpu));
                taken.push(vp.cpu);
            }
        }
    }
    assert_eq!(taken, vec![1, 2, 3, 4, 5, 6, 7, 8, 9]);
}

#[test]
fn a_batch_is_admitted_exactly_if_it_is_feasible() {
    let tasks = five_tasks();
    for num_cpu in 2..12usize {
        let mut state = VFedState::new();
        let free: u16 = free_core_count(&state.ledger, num_cpu);
        let feasible = is_batch_feasible(&tasks, free, PackingStrategy::WorstFit);
        let admitted = admit_batch(&mut state, &tasks, PackingStrategy::WorstFit, num_cpu).is_ok();
        assert_eq!(admitted, feasible);
        assert_eq!(feasible, free >= 7);
    }
}

#[test]
fn assignments_keep_to_supported_cpus() {
    let mut state = VFedState::new();
    let batch = admit_batch(&mut state, &five_tasks(), PackingStrategy::FirstFit, 12).unwrap();
    assert_eq!(batch.len(), 5);
    assert!(batch.iter().all(|assignment| assignment.are_cpus_supported()));
    for config in [
        DagMetrics::from_static(10, 2, 9, 9),
        DagMetrics::from_static(5, 3, 10, 10),
    ] {
        let assignment = admit_one(&mut state, config, PackingStrategy::BestFit, 12).unwrap();
        assert!(assignment.are_cpus_supported());
        assert!(assignment.into_scheduler_type(9).is_some());
    }

    let beyond = VFedAssignment::LightPartitioned { cpu: NUM_MAX_CPU };
    assert!(!beyond.are_cpus_supported());
    let borrowed = VFedAssignment::LightPassive {
        passive: vec![vp(1, 1, 10, 8), vp(NUM_MAX_CPU, 1, 10, 8)],
    };
    assert!(!borrowed.are_cpus_supported());
    let own = VFedAssignment::Heavy {
        active: vec![ActiveVp {
            cpu: NUM_MAX_CPU,
            budget: 8,
        }],
        passive: Vec::new(),
    };
    assert!(!own.are_cpus_supported());
}
