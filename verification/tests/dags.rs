//! DAG data, aggregate stats, laxity, segments and the fluid model.

use dag_sched::dag::data::{DagData, DagDataError, NodeData};
use dag_sched::dag::fluid::{
    assign_segment_deadlines, ceil_capacity_to_cores, heavy_capacity_and_deadline,
    is_batch_feasible, required_capacity, segment_release_offsets, virtual_deadline, Capacity,
    FluidSchedule, FluidTime, SegmentRate,
};
use dag_sched::dag::segments::{decompose_segments, Segment};
use dag_sched::dag::stats::{compute_dag_stats, compute_node_laxity};
use dag_sched::scheduler::dp_wrap::RATE_UNIT;

fn node(id: u32, execution_time: u64) -> NodeData {
    NodeData {
        id,
        execution_time,
        period: None,
        end_to_end_deadline: None,
    }
}

fn source(id: u32, execution_time: u64, period: u64) -> NodeData {
    NodeData {
        period: Some(period),
        ..node(id, execution_time)
    }
}

fn sink(id: u32, execution_time: u64, deadline: u64) -> NodeData {
    NodeData {
        end_to_end_deadline: Some(deadline),
        ..node(id, execution_time)
    }
}

/// 0 --10--> 1 --20--> 2.
fn chain() -> DagData {
    DagData::new(
        0,
        vec![source(0, 10, 50), node(1, 20), sink(2, 5, 40)],
        &[(0, 1), (1, 2)],
    )
    .unwrap()
}

/// 0 fans out to 1 (heavy, 30) and 2 (light, 5); both join at 3.
fn diamond() -> DagData {
    DagData::new(
        0,
        vec![source(0, 10, 50), node(1, 30), node(2, 5), sink(3, 5, 100)],
        &[(0, 1), (0, 2), (1, 3), (2, 3)],
    )
    .unwrap()
}

fn as_f64(schedule: &FluidSchedule, time: FluidTime) -> f64 {
    time.whole as f64
        + schedule.heavy_deadline as f64 * time.work as f64 / schedule.heavy_capacity as f64
}

fn capacity_f64(c: Capacity) -> f64 {
    c.jobs as f64 * (c.work as f64 / c.window as f64)
}

#[test]
fn test_compute_dag_stats_chain() {
    let stats = compute_dag_stats(&chain());
    assert_eq!(stats.volume, 35);
    assert_eq!(stats.critical_path, 35);
}

#[test]
fn test_compute_dag_stats_diamond() {
    let stats = compute_dag_stats(&diamond());
    assert_eq!(stats.volume, 50); // 10 + 30 + 5 + 5
    assert_eq!(stats.critical_path, 45); // 10 + 30 + 5, not the 2-fanned sum
}

#[test]
fn test_compute_node_laxity_matches_worked_example_chain() {
    let dag = DagData::new(
        0,
        vec![source(0, 20, 1000), node(1, 20), sink(2, 10, 80)],
        &[(0, 1), (1, 2)],
    )
    .unwrap();
    let laxity = compute_node_laxity(&dag, 80).unwrap();
    assert_eq!(laxity[&2], 70); // C (sink)
    assert_eq!(laxity[&1], 50); // B
    assert_eq!(laxity[&0], 30); // A
}

#[test]
fn test_compute_node_laxity_diamond_takes_min_successor() {
    let laxity = compute_node_laxity(&diamond(), 100).unwrap();
    assert_eq!(laxity[&3], 95);
    assert_eq!(laxity[&1], 65);
    assert_eq!(laxity[&2], 90);
    assert_eq!(laxity[&0], 55);
}

#[test]
fn test_compute_node_laxity_none_when_infeasible() {
    assert!(compute_node_laxity(&chain(), 5).is_none());
}

#[test]
fn laxity_exists_exactly_down_to_the_critical_path() {
    assert!(compute_node_laxity(&diamond(), 44).is_none());
    let laxity = compute_node_laxity(&diamond(), 45).unwrap();
    assert_eq!(laxity[&0], 0);
}

#[test]
fn nodes_on_a_cycle_never_run() {
    let dag = DagData::new(
        0,
        vec![node(1, 10), node(2, 20), node(3, 5)],
        &[(2, 3), (3, 2)],
    )
    .unwrap();
    let stats = compute_dag_stats(&dag);
    assert_eq!(stats.volume, 35);
    assert_eq!(stats.critical_path, 10);
    let laxity = compute_node_laxity(&dag, 10).unwrap();
    assert_eq!(laxity.get(&1), Some(&0));
    assert_eq!(laxity.get(&2), None);
    assert_eq!(
        decompose_segments(&dag),
        vec![Segment {
            duration: 10,
            concurrency: 1
        }]
    );
}

#[test]
fn an_empty_dag_takes_no_time() {
    let dag = DagData::new(0, Vec::new(), &[]).unwrap();
    let stats = compute_dag_stats(&dag);
    assert_eq!((stats.volume, stats.critical_path), (0, 0));
    assert!(decompose_segments(&dag).is_empty());
}

#[test]
fn dag_data_is_checked() {
    assert_eq!(
        DagData::new(0, vec![node(1, 1), node(1, 2)], &[]).err(),
        Some(DagDataError::DuplicateNode(1))
    );
    assert_eq!(
        DagData::new(0, vec![node(1, 1)], &[(1, 7)]).err(),
        Some(DagDataError::UnknownNode(7))
    );
    assert_eq!(
        DagData::new(0, vec![node(1, 1)], &[(8, 9)]).err(),
        Some(DagDataError::UnknownNode(8))
    );
}

#[test]
fn test_decompose_segments_linear_chain() {
    let dag = chain();
    let segments = decompose_segments(&dag);
    assert!(segments.iter().all(|s| s.concurrency == 1));
    let total_duration: u64 = segments.iter().map(|s| s.duration).sum();
    let total_work: u64 = segments
        .iter()
        .map(|s| s.duration * s.concurrency as u64)
        .sum();
    let stats = compute_dag_stats(&dag);
    assert_eq!(total_duration, stats.critical_path);
    assert_eq!(total_work, stats.volume);
}

#[test]
fn test_decompose_segments_diamond_matches_dag_stats() {
    let dag = diamond();
    let segments = decompose_segments(&dag);
    assert_eq!(
        segments,
        vec![
            Segment { duration: 10, concurrency: 1 },
            Segment { duration: 5, concurrency: 2 },
            Segment { duration: 25, concurrency: 1 },
            Segment { duration: 5, concurrency: 1 },
        ]
    );

    let total_duration: u64 = segments.iter().map(|s| s.duration).sum();
    let total_work: u64 = segments
        .iter()
        .map(|s| s.duration * s.concurrency as u64)
        .sum();
    let stats = compute_dag_stats(&dag);
    assert_eq!(total_duration, stats.critical_path); // 45
    assert_eq!(total_work, stats.volume); // 50
}

#[test]
fn nodes_without_work_make_no_segment() {
    let dag = DagData::new(
        0,
        vec![node(0, 0), node(1, 4), node(2, 0), node(3, 6)],
        &[(0, 1), (1, 2), (2, 3)],
    )
    .unwrap();
    assert_eq!(
        decompose_segments(&dag),
        vec![
            Segment { duration: 4, concurrency: 1 },
            Segment { duration: 6, concurrency: 1 },
        ]
    );
}

#[test]
fn test_assign_segment_deadlines_matches_paper_worked_example() {
    let segments = [
        Segment { duration: 10, concurrency: 1 },
        Segment { duration: 10, concurrency: 2 },
        Segment { duration: 20, concurrency: 3 },
        Segment { duration: 10, concurrency: 2 },
        Segment { duration: 10, concurrency: 1 },
    ];
    let volume: u64 = 120;
    let d_star: u64 = virtual_deadline(90, 80, 60);
    assert_eq!(d_star, 80);

    let schedule = assign_segment_deadlines(&segments, volume, d_star).unwrap();
    assert_eq!((schedule.heavy_capacity, schedule.heavy_deadline), (100, 60));
    let deadlines: Vec<f64> = schedule
        .segments
        .iter()
        .map(|s| as_f64(&schedule, s.relative_deadline))
        .collect();
    assert_eq!(deadlines, vec![10.0, 12.0, 36.0, 12.0, 10.0]);

    let rates: Vec<f64> = schedule
        .segments
        .iter()
        .map(|s| s.rate.numerator as f64 / s.rate.denominator as f64)
        .collect();
    assert_eq!(rates, vec![1.0, 10.0 / 12.0, 20.0 / 36.0, 10.0 / 12.0, 1.0]);
    assert!((rates[1] - 5.0 / 6.0).abs() < 1e-9);
    assert!((rates[2] - 5.0 / 9.0).abs() < 1e-9);

    let offsets: Vec<f64> = segment_release_offsets(&schedule.segments)
        .iter()
        .map(|o| as_f64(&schedule, *o))
        .collect();
    assert_eq!(offsets, vec![0.0, 10.0, 22.0, 58.0, 70.0]);
    let total: f64 = deadlines.iter().sum();
    assert!((total - d_star as f64).abs() < 1e-9);
}

#[test]
fn test_virtual_deadline_row1_constrained_deadline() {
    assert_eq!(virtual_deadline(20, 10, 8), 10);
}

#[test]
fn test_virtual_deadline_row2_arbitrary_deadline_long_critical_path() {
    assert_eq!(virtual_deadline(50, 100, 60), 100);
}

#[test]
fn test_virtual_deadline_row3() {
    assert_eq!(virtual_deadline(30, 100, 20), 100);
}

#[test]
fn test_virtual_deadline_row4() {
    assert_eq!(virtual_deadline(45, 100, 40), 90);
}

#[test]
fn test_virtual_deadline_row5() {
    assert_eq!(virtual_deadline(60, 100, 50), 100);
}

#[test]
fn test_virtual_deadline_row6() {
    assert_eq!(virtual_deadline(90, 100, 80), 90);
}

#[test]
fn the_rows_of_the_virtual_deadline_meet_exactly() {
    // Around (sqrt(3) - 1) / 2 = 0.366..., one half and sqrt(2) / 2 = 0.707....
    assert_eq!(virtual_deadline(366, 1000, 1), 1000);
    assert_eq!(virtual_deadline(367, 1000, 1), 734);
    assert_eq!(virtual_deadline(500, 1000, 1), 1000);
    assert_eq!(virtual_deadline(501, 1000, 1), 1000);
    assert_eq!(virtual_deadline(707, 1000, 1), 1000);
    assert_eq!(virtual_deadline(708, 1000, 1), 708);
}

#[test]
fn test_heavy_capacity_and_deadline_hand_computed() {
    let segments = [
        Segment { duration: 5, concurrency: 1 },
        Segment { duration: 3, concurrency: 2 },
        Segment { duration: 4, concurrency: 1 },
    ];
    assert_eq!(heavy_capacity_and_deadline(&segments, 15, 14), Some((6, 5)));
}

#[test]
fn test_heavy_capacity_and_deadline_no_peeling_when_first_segment_already_heavy() {
    let segments = [Segment { duration: 10, concurrency: 1 }];
    assert_eq!(heavy_capacity_and_deadline(&segments, 10, 20), Some((10, 20)));
}

#[test]
fn test_heavy_capacity_and_deadline_none_when_fully_peeled() {
    let segments = [Segment { duration: 10, concurrency: 1 }];
    assert_eq!(heavy_capacity_and_deadline(&segments, 10, 5), None);
}

#[test]
fn test_required_capacity_tau_seq() {
    let segments = [Segment { duration: 5, concurrency: 1 }];
    let got = required_capacity(8, 20, 5, 10, &segments).unwrap();
    assert!((capacity_f64(got) - 0.8).abs() < 1e-9);
    assert_eq!(
        got,
        Capacity {
            jobs: 1,
            work: 8,
            window: 10
        }
    );
}

#[test]
fn test_required_capacity_tau_paral_uses_heavy_capacity() {
    let segments = [
        Segment { duration: 5, concurrency: 1 },
        Segment { duration: 3, concurrency: 2 },
        Segment { duration: 4, concurrency: 1 },
    ];
    let got = required_capacity(15, 20, 12, 14, &segments).unwrap();
    assert!((capacity_f64(got) - 1.2).abs() < 1e-9);
}

#[test]
fn test_required_capacity_none_when_critical_path_exceeds_deadline() {
    let segments = [Segment { duration: 50, concurrency: 2 }];
    assert!(required_capacity(10, 100, 50, 40, &segments).is_none());
}

#[test]
fn test_is_batch_feasible_sums_required_capacity() {
    let seq_segments = [Segment { duration: 5, concurrency: 1 }];
    let paral_segments = [
        Segment { duration: 5, concurrency: 1 },
        Segment { duration: 3, concurrency: 2 },
        Segment { duration: 4, concurrency: 1 },
    ];
    let entries: [(u64, u64, u64, u64, &[Segment]); 2] = [
        (8, 20, 5, 10, &seq_segments),
        (15, 20, 12, 14, &paral_segments),
    ];
    assert!(is_batch_feasible(&entries, 2));
    assert!(!is_batch_feasible(&entries, 1));
}

#[test]
fn test_is_batch_feasible_rejects_when_any_entry_is_infeasible() {
    let ok_segments = [Segment { duration: 5, concurrency: 1 }];
    let bad_segments = [Segment { duration: 50, concurrency: 2 }];
    let entries: [(u64, u64, u64, u64, &[Segment]); 2] = [
        (8, 20, 5, 10, &ok_segments),
        (10, 100, 50, 40, &bad_segments), // critical_path > deadline
    ];
    assert!(!is_batch_feasible(&entries, 100));
}

#[test]
fn many_small_tasks_add_up_exactly() {
    // Forty-nine tasks of a forty-ninth of a processor each: exactly one processor.
    let segments = [Segment { duration: 1, concurrency: 1 }];
    let entries: Vec<(u64, u64, u64, u64, &[Segment])> =
        (0..49).map(|_| (1, 49, 1, 49, &segments[..])).collect();
    assert!(is_batch_feasible(&entries, 1));
    let mut more = entries.clone();
    more.push((1, 1_000_000_007, 1, 1_000_000_007, &segments));
    assert!(!is_batch_feasible(&more, 1));
    assert!(is_batch_feasible(&[], 0));
}

#[test]
fn capacities_round_up_to_cores() {
    let cores = |jobs: u64, work: u64, window: u64| {
        ceil_capacity_to_cores(Capacity { jobs, work, window })
    };
    assert_eq!(cores(1, 8, 10), 1);
    assert_eq!(cores(1, 6, 5), 2);
    assert_eq!(cores(2, 5, 5), 2);
    assert_eq!(cores(0, 0, 0), 0);
    assert_eq!(cores(u64::MAX, u64::MAX, 1), u16::MAX);
}

#[test]
fn the_order_of_a_batch_does_not_matter() {
    let seq_segments = [Segment { duration: 5, concurrency: 1 }];
    let paral_segments = [
        Segment { duration: 5, concurrency: 1 },
        Segment { duration: 3, concurrency: 2 },
        Segment { duration: 4, concurrency: 1 },
    ];
    let a: (u64, u64, u64, u64, &[Segment]) = (8, 20, 5, 10, &seq_segments);
    let b: (u64, u64, u64, u64, &[Segment]) = (15, 20, 12, 14, &paral_segments);
    let c: (u64, u64, u64, u64, &[Segment]) = (3, 7, 3, 7, &seq_segments);
    for m in 0..4u16 {
        let expected = is_batch_feasible(&[a, b, c], m);
        assert_eq!(is_batch_feasible(&[c, b, a], m), expected);
        assert_eq!(is_batch_feasible(&[b, c, a], m), expected);
        assert_eq!(expected, m >= 3);
    }
}

#[test]
fn rates_are_rounded_to_the_nearest_part() {
    let rate = |numerator: u64, denominator: u128| SegmentRate {
        numerator,
        denominator,
    };
    assert_eq!(rate(1, 1).on_grid(), RATE_UNIT);
    assert_eq!(rate(0, 5).on_grid(), 0);
    assert_eq!(rate(1, 2).on_grid(), RATE_UNIT / 2);
    // Five sixths come to a third more than a whole part, five ninths to a ninth less.
    assert_eq!(rate(100, 120).on_grid(), 3_752_999_689_475_413);
    assert_eq!(rate(100, 180).on_grid(), 2_501_999_792_983_609);
    assert!(rate(7, 7).is_in_range());
    assert!(!rate(8, 7).is_in_range());
    assert!(!rate(0, 0).is_in_range());
}

#[test]
fn the_rate_is_the_duration_over_the_relative_deadline() {
    let segment = |duration: u64, concurrency: u32| Segment {
        duration,
        concurrency,
    };
    let segments = vec![
        segment(10, 1),
        segment(10, 2),
        segment(20, 3),
        segment(10, 2),
        segment(10, 1),
    ];
    let schedule = assign_segment_deadlines(&segments, 120, 80).unwrap();
    for s in &schedule.segments {
        let whole = s.relative_deadline.whole * u128::from(schedule.heavy_capacity);
        let share = s.relative_deadline.work * u128::from(schedule.heavy_deadline);
        let deadline = whole + share;
        let duration = u128::from(s.duration) * u128::from(schedule.heavy_capacity);
        assert_eq!(
            u128::from(s.rate.numerator) * deadline,
            s.rate.denominator * duration
        );
        assert!(s.rate.is_in_range());
    }
}

#[test]
fn data_is_checked_before_it_is_computed_with() {
    assert!(diamond().is_well_formed());
    let mut twice = diamond();
    twice.nodes[3].id = 1;
    assert!(!twice.is_well_formed());
    let mut astray = diamond();
    astray.links.push((0, 4));
    assert!(!astray.is_well_formed());

    assert!(diamond().is_work_in_range());
    let mut full = diamond();
    full.nodes[0].execution_time = u64::MAX - 40;
    assert!(full.is_work_in_range());
    full.nodes[0].execution_time = u64::MAX - 39;
    assert!(!full.is_work_in_range());
}
