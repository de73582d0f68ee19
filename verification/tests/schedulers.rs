//! The dispatch of active, passive, mixed and fluid tasks.

use affinity_btree_queue::CpuMask;
use dag_sched::cpu::{cpu_list, CpuSet};
use dag_sched::scheduler::active_vp::{ActiveVpScheduler, ActiveVpTable};
use dag_sched::scheduler::dispatch::WakeOutcome;
use dag_sched::scheduler::dp_wrap::{
    DpWrapScheduler, EntitlementAction, SwitchPoint, RATE_UNIT,
};
use dag_sched::scheduler::mixed_vp::MixedVpScheduler;
use dag_sched::scheduler::passive_vp::{active_vp_is_busy, PassiveVpScheduler};
use dag_sched::scheduler::scheduler_type::SchedulerType;
use dag_sched::scheduler::task::{
    invoke_preemption, CpuStatus, DagWake, Preemption, State, Task, TaskTable, Wake,
    MAX_TASK_PRIORITY,
};
use dag_sched::scheduler::wrap::wrap_blocks;

const TENTH: u64 = 1_000_000_000;
const UNIT: u64 = 10_000_000_000;

fn set(cpus: &[usize]) -> CpuSet {
    let mut set: CpuSet = CpuMask::empty();
    for cpu in cpus {
        set = set.with(*cpu);
    }
    set
}

fn task(id: u32, scheduler_type: SchedulerType) -> Task {
    Task {
        id,
        scheduler_type,
        state: State::Ready,
        need_preemption: false,
        dag_id: None,
        class_priority: 0,
        task_priority: 0,
        absolute_deadline: None,
    }
}

fn idle() -> CpuStatus {
    CpuStatus {
        running: 0,
        pending: None,
        reserved: false,
    }
}

fn table(tasks: Vec<Task>, num_cpu: usize) -> TaskTable {
    TaskTable {
        tasks,
        cpus: vec![idle(); num_cpu],
    }
}

fn wake(time: u64, absolute_deadline: u64) -> Wake {
    Wake {
        time,
        dag: Some(DagWake {
            absolute_deadline,
            node_priority: 0,
            job_release: false,
        }),
    }
}

fn release(time: u64, absolute_deadline: u64) -> Wake {
    Wake {
        time,
        dag: Some(DagWake {
            absolute_deadline,
            node_priority: 0,
            job_release: true,
        }),
    }
}

#[test]
fn test_set_and_replenish_budget() {
    let mut budgets = ActiveVpTable::new();
    budgets.set_initial_budget(200, 5_000);
    assert!(budgets.has_budget(200));

    // Drain it directly to simulate consumption, then confirm
    // replenish restores it.
    budgets.cores[200].remaining = 0;
    assert!(!budgets.has_budget(200));

    budgets.replenish(set(&[200]));
    assert!(budgets.has_budget(200));

    budgets.release_budget(200);
    assert!(budgets.has_budget(200)); // "no active-VP here" reads as available
}

#[test]
fn test_has_budget_true_when_no_active_vp_claimed() {
    assert!(ActiveVpTable::new().has_budget(201));
}

#[test]
fn test_tick_budget_does_not_charge_idle_gap() {
    let mut budgets = ActiveVpTable::new();
    budgets.set_initial_budget(202, 1_000_000_000); // 1s, plenty of headroom
    budgets.mark_idle(202);
    // First tick after being idle: charges nothing.
    budgets.tick_budget(202, 77_000);
    let after_first: u64 = budgets.cores[202].remaining;
    assert_eq!(after_first, 1_000_000_000);
}

#[test]
fn test_leading_of_defaults_to_no_group() {
    assert_eq!(ActiveVpTable::new().leading_of(210), None);
}

#[test]
fn test_leading_of_reflects_group_membership() {
    let mut budgets = ActiveVpTable::new();
    budgets.set_leading(211, 211); // leading maps to itself
    budgets.set_leading(212, 211); // non-leading maps to leading
    assert_eq!(budgets.leading_of(211), Some(211));
    assert_eq!(budgets.leading_of(212), Some(211));

    budgets.release_budget(211);
    assert_eq!(budgets.leading_of(211), None);
}

#[test]
fn ticks_charge_what_passed_while_running() {
    let mut budgets = ActiveVpTable::new();
    budgets.set_initial_budget(3, 1_000);
    budgets.tick_budget(3, 5_000);
    budgets.tick_budget(3, 5_300);
    assert_eq!(budgets.cores[3].remaining, 700);
    budgets.mark_idle(3);
    budgets.tick_budget(3, 9_000);
    assert_eq!(budgets.cores[3].remaining, 700);
    budgets.tick_budget(3, 20_000);
    assert_eq!(budgets.cores[3].remaining, 0);
    assert!(!budgets.has_budget(3));
}

#[test]
fn the_leading_core_comes_first() {
    let mut budgets = ActiveVpTable::new();
    budgets.set_initial_budget(1, 100);
    budgets.set_initial_budget(2, 100);
    budgets.lead(set(&[1, 2]), 1);
    let mut tasks = table(vec![task(9, SchedulerType::GEDF(1))], 4);
    assert!(budgets.active_eligible(&tasks, 1));
    assert!(!budgets.active_eligible(&tasks, 2));
    tasks.cpus[1].running = 9;
    assert!(budgets.active_eligible(&tasks, 2));
    budgets.cores[2].remaining = 0;
    assert!(!budgets.active_eligible(&tasks, 2));
}

#[test]
fn cpu_lists_ascend() {
    assert_eq!(cpu_list(set(&[300, 5, 64, 1])), vec![1, 5, 64, 300]);
    assert!(cpu_list(set(&[])).is_empty());
}

#[test]
fn test_active_vp_is_busy_false_when_idle() {
    // CPU 0 never runs a task here.
    assert!(!active_vp_is_busy(&table(Vec::new(), 4), 0));
}

#[test]
fn an_owner_is_busy_while_its_active_task_runs() {
    let active = task(7, SchedulerType::ActiveVp(set(&[1]), 1));
    let passive = task(8, SchedulerType::PassiveVp(set(&[1])));
    let mut tasks = table(vec![active, passive], 4);
    tasks.cpus[1].running = 7;
    assert!(active_vp_is_busy(&tasks, 1));
    tasks.cpus[1].running = 8;
    assert!(!active_vp_is_busy(&tasks, 1));
}

#[test]
fn active_tasks_are_queued_and_picked_by_deadline() {
    let class = SchedulerType::ActiveVp(set(&[1, 2]), 1);
    let mut tasks = table(vec![task(10, class), task(11, class)], 4);
    let mut budgets = ActiveVpTable::new();
    let mut scheduler = ActiveVpScheduler::new(4, 5);
    assert_eq!(scheduler.priority(), 5);
    assert_eq!(
        scheduler.wake_task(&mut tasks, &mut budgets, 0, wake(1, 500)),
        WakeOutcome::Queued
    );
    assert_eq!(
        scheduler.wake_task(&mut tasks, &mut budgets, 1, wake(2, 300)),
        WakeOutcome::Queued
    );
    assert_eq!(scheduler.queued_cpu_mask(), set(&[1, 2]));
    assert_eq!(tasks.tasks[0].class_priority, 5);
    assert_eq!(tasks.tasks[0].task_priority, MAX_TASK_PRIORITY - 500);
    assert_eq!(tasks.tasks[0].absolute_deadline, Some(500));
    assert_eq!(budgets.leading_of(2), Some(1));

    // Core 2 has to wait until the leading core is busy.
    assert_eq!(scheduler.get_next(&mut tasks, &budgets, 2, true), None);
    assert_eq!(scheduler.get_next(&mut tasks, &budgets, 1, true), Some(1));
    assert_eq!(tasks.cpus[1].running, 11);
    assert_eq!(tasks.tasks[1].state, State::Running);
    assert_eq!(scheduler.get_next(&mut tasks, &budgets, 2, true), Some(0));
    assert_eq!(scheduler.get_next(&mut tasks, &budgets, 2, true), None);
    assert!(scheduler.queued_cpu_mask().is_empty());
}

#[test]
fn a_release_replenishes_the_group() {
    let class = SchedulerType::ActiveVp(set(&[1, 2]), 1);
    let mut tasks = table(vec![task(10, class)], 4);
    let mut budgets = ActiveVpTable::new();
    budgets.set_initial_budget(1, 100);
    budgets.set_initial_budget(3, 100);
    budgets.cores[1].remaining = 0;
    budgets.cores[3].remaining = 0;
    let mut scheduler = ActiveVpScheduler::new(4, 5);
    scheduler.wake_task(&mut tasks, &mut budgets, 0, wake(1, 500));
    assert_eq!(budgets.cores[1].remaining, 0);
    scheduler.wake_task(&mut tasks, &mut budgets, 0, release(1, 500));
    assert_eq!(budgets.cores[1].remaining, 100);
    assert_eq!(budgets.cores[3].remaining, 0);
}

#[test]
fn a_woken_task_preempts_the_lowest_priority() {
    let class = SchedulerType::ActiveVp(set(&[1, 2]), 1);
    let mut low = task(20, SchedulerType::GEDF(1));
    low.class_priority = 1;
    low.task_priority = 10;
    let mut lower = low;
    lower.id = 21;
    lower.task_priority = 5;
    let mut tasks = table(vec![task(10, class), low, lower], 4);
    tasks.cpus[1].running = 20;
    tasks.cpus[2].running = 21;
    let mut budgets = ActiveVpTable::new();
    let mut scheduler = ActiveVpScheduler::new(4, 5);
    assert_eq!(
        scheduler.wake_task(&mut tasks, &mut budgets, 0, wake(1, 500)),
        WakeOutcome::Preempt(Preemption { cpu: 2, target: 21 })
    );
    assert!(scheduler.queued_cpu_mask().is_empty());
}

#[test]
fn a_waiting_task_counts_for_its_cpu() {
    let mut running = task(20, SchedulerType::GEDF(1));
    running.task_priority = 5;
    let mut waiting = task(21, SchedulerType::GEDF(1));
    waiting.task_priority = 50;
    let mut woken = task(22, SchedulerType::GEDF(1));
    woken.task_priority = 20;
    let mut tasks = table(vec![running, waiting, woken], 2);
    tasks.cpus[1].running = 20;
    assert_eq!(
        invoke_preemption(&tasks, 2, &vec![1]),
        Some(Preemption { cpu: 1, target: 20 })
    );
    tasks.cpus[1].pending = Some(1);
    assert_eq!(invoke_preemption(&tasks, 2, &vec![1]), None);
}

#[test]
fn passive_tasks_wait_for_the_owner() {
    let active = task(7, SchedulerType::ActiveVp(set(&[1]), 1));
    let mut tasks = table(vec![active, task(8, SchedulerType::PassiveVp(set(&[1, 2])))], 4);
    let mut scheduler = PassiveVpScheduler::new(4, 2);
    scheduler.wake_task(&mut tasks, 1, wake(1, 500));
    tasks.cpus[1].running = 7;
    assert_eq!(scheduler.get_next(&mut tasks, 1, false), None);
    assert_eq!(scheduler.get_next(&mut tasks, 2, false), Some(1));
    assert_eq!(tasks.tasks[1].state, State::Ready);
    assert_eq!(tasks.cpus[2].running, 0);
}

#[test]
fn dead_tasks_are_dropped() {
    let class = SchedulerType::PassiveVp(set(&[1]));
    let mut tasks = table(vec![task(7, class), task(8, class)], 4);
    let mut scheduler = PassiveVpScheduler::new(4, 2);
    scheduler.wake_task(&mut tasks, 0, wake(1, 100));
    scheduler.wake_task(&mut tasks, 1, wake(1, 200));
    tasks.tasks[0].state = State::Terminated;
    tasks.tasks[1].state = State::Preempted;
    tasks.tasks[1].need_preemption = true;
    assert_eq!(scheduler.get_next(&mut tasks, 1, true), Some(1));
    assert!(!tasks.tasks[1].need_preemption);
    assert_eq!(scheduler.get_next(&mut tasks, 1, true), None);
}

#[test]
fn equal_deadlines_go_by_node_priority_and_then_by_wake() {
    let class = SchedulerType::PassiveVp(set(&[1]));
    let mut tasks = table(vec![task(7, class), task(8, class), task(9, class)], 4);
    let mut scheduler = PassiveVpScheduler::new(4, 2);
    let with_priority = |time: u64, node_priority: u64| Wake {
        time,
        dag: Some(DagWake {
            absolute_deadline: 100,
            node_priority,
            job_release: false,
        }),
    };
    scheduler.wake_task(&mut tasks, 0, with_priority(5, 1));
    scheduler.wake_task(&mut tasks, 1, with_priority(4, 1));
    scheduler.wake_task(&mut tasks, 2, with_priority(6, 2));
    assert_eq!(scheduler.get_next(&mut tasks, 1, false), Some(2));
    assert_eq!(scheduler.get_next(&mut tasks, 1, false), Some(1));
    assert_eq!(scheduler.get_next(&mut tasks, 1, false), Some(0));
}

#[test]
fn mixed_tasks_that_may_not_run_do_not_block() {
    // The first task owns core 1 whose budget is used up; the second borrows core 1.
    let first = task(7, SchedulerType::MixedVp(set(&[1]), 1, set(&[2])));
    let second = task(8, SchedulerType::MixedVp(set(&[3]), 3, set(&[1])));
    let mut tasks = table(vec![first, second], 5);
    let mut budgets = ActiveVpTable::new();
    budgets.set_initial_budget(1, 10);
    let mut scheduler = MixedVpScheduler::new(5, 3);
    assert_eq!(
        scheduler.wake_task(&mut tasks, &mut budgets, 0, wake(1, 100)),
        WakeOutcome::Queued
    );
    scheduler.wake_task(&mut tasks, &mut budgets, 1, wake(2, 200));
    budgets.cores[1].remaining = 0;
    assert_eq!(scheduler.get_next(&mut tasks, &budgets, 1, true), Some(1));
    // The first task is still queued, for both of its cores.
    assert_eq!(scheduler.queued_cpu_mask(), set(&[1, 2]));
    assert_eq!(scheduler.get_next(&mut tasks, &budgets, 2, true), Some(0));
    assert!(scheduler.queued_cpu_mask().is_empty());
}

#[test]
fn schedulers_name_their_class() {
    let none = set(&[]);
    assert_eq!(
        ActiveVpScheduler::new(4, 1).scheduler_name(),
        SchedulerType::ActiveVp(none, 0)
    );
    assert_eq!(
        PassiveVpScheduler::new(4, 1).scheduler_name(),
        SchedulerType::PassiveVp(none)
    );
    assert_eq!(
        MixedVpScheduler::new(4, 1).scheduler_name(),
        SchedulerType::MixedVp(none, 0, none)
    );
    assert_eq!(
        DpWrapScheduler::new(1).scheduler_name(),
        SchedulerType::DpWrap(0)
    );
    assert_eq!(PassiveVpScheduler::new(4, 9).priority(), 9);
    assert_eq!(MixedVpScheduler::new(4, 8).priority(), 8);
    assert_eq!(DpWrapScheduler::new(7).priority(), 7);
}

fn grid(densities: &[(usize, f64)]) -> Vec<(usize, u64)> {
    densities
        .iter()
        .map(|(id, density)| (*id, (density * UNIT as f64).round() as u64))
        .collect()
}

fn fractions(pieces: &[(usize, u64, u64)]) -> Vec<(usize, f64, f64)> {
    pieces
        .iter()
        .map(|(id, s, e)| (*id, *s as f64 / UNIT as f64, *e as f64 / UNIT as f64))
        .collect()
}

fn assert_close(actual: &[(usize, f64, f64)], expected: &[(usize, f64, f64)]) {
    assert_eq!(actual.len(), expected.len());
    for (&(aid, astart, aend), &(eid, estart, eend)) in actual.iter().zip(expected) {
        assert_eq!(aid, eid);
        assert!((astart - estart).abs() < 1e-9, "{astart} vs {estart}");
        assert!((aend - eend).abs() < 1e-9, "{aend} vs {eend}");
    }
}

#[test]
fn test_wrap_blocks_matches_paper_worked_example() {
    let densities: Vec<(usize, f64)> = vec![
        (0, 0.3),
        (1, 0.5),
        (2, 0.5),
        (3, 0.6),
        (4, 0.5),
        (5, 0.4),
        (6, 0.2),
    ];
    let result = wrap_blocks(&grid(&densities), 3, UNIT);
    assert_eq!(result.len(), 3);

    assert_close(&fractions(&result[0]), &[(0, 0.0, 0.3), (1, 0.3, 0.8), (2, 0.8, 1.0)]);
    assert_close(&fractions(&result[1]), &[(2, 0.0, 0.3), (3, 0.3, 0.9), (4, 0.9, 1.0)]);
    assert_close(&fractions(&result[2]), &[(4, 0.0, 0.4), (5, 0.4, 0.8), (6, 0.8, 1.0)]);

    // Every block's total assigned time equals its own density.
    let mut totals = [0.0_f64; 7];
    for proc in &result {
        for (id, start, end) in fractions(proc) {
            totals[id] += end - start;
        }
    }
    for (id, &(_, expected_density)) in densities.iter().enumerate() {
        assert!((totals[id] - expected_density).abs() < 1e-9, "block {id}");
    }
}

#[test]
fn test_wrap_blocks_single_task_no_migration() {
    let densities = [(0, 0.5)];
    let result = wrap_blocks(&grid(&densities), 2, UNIT);
    assert_eq!(fractions(&result[0]), vec![(0, 0.0, 0.5)]);
    assert_eq!(result[1], vec![]);
}

#[test]
fn test_scaling_by_slice_length() {
    let densities: Vec<(usize, f64)> = vec![(0, 0.3), (1, 0.5), (2, 0.5)];
    let result = wrap_blocks(&grid(&densities), 1, UNIT);
    let l_j = 10.0_f64;
    let scaled: Vec<(usize, f64, f64)> = fractions(&result[0])
        .iter()
        .map(|&(id, s, e)| (id, s * l_j, e * l_j))
        .collect();
    assert_eq!(scaled, vec![(0, 0.0, 3.0), (1, 3.0, 8.0), (2, 8.0, 10.0)]);
}

#[test]
fn a_migrating_block_never_runs_twice_at_once() {
    let blocks = [(0, 6 * TENTH), (1, 9 * TENTH), (2, 5 * TENTH)];
    let result = wrap_blocks(&blocks, 2, UNIT);
    assert_eq!(
        result[0],
        vec![(0, 0, 6 * TENTH), (1, 6 * TENTH, UNIT)]
    );
    assert_eq!(
        result[1],
        vec![(1, 0, 5 * TENTH), (2, 5 * TENTH, UNIT)]
    );
}

fn node_of(id: u32, dag: u32) -> Task {
    let mut node = task(id, SchedulerType::DpWrap(dag));
    node.dag_id = Some(dag);
    node
}

#[test]
fn entitled_cpus_run_their_dag_only() {
    let mut tasks = table(vec![node_of(1, 40), node_of(2, 50)], 4);
    let mut scheduler = DpWrapScheduler::new(3);
    assert_eq!(scheduler.entitlement_of(1), None);
    scheduler.wake_task(&mut tasks, 0, wake(1, 100));
    scheduler.wake_task(&mut tasks, 1, wake(1, 90));
    assert_eq!(scheduler.get_next(&mut tasks, 1, true), None);
    assert_eq!(
        scheduler.apply_entitlement(&tasks, 1, Some(40)),
        EntitlementAction::WakeCpu
    );
    assert_eq!(scheduler.entitlement_of(1), Some(40));
    assert_eq!(scheduler.get_next(&mut tasks, 1, true), Some(0));
    assert_eq!(tasks.cpus[1].running, 1);
    // Now the CPU changes to the other DAG: its ready node takes over.
    assert_eq!(
        scheduler.apply_entitlement(&tasks, 1, Some(50)),
        EntitlementAction::Preempt {
            successor: 1,
            target: 1
        }
    );
    // Without a ready node nothing is stopped.
    assert_eq!(
        scheduler.apply_entitlement(&tasks, 1, Some(60)),
        EntitlementAction::Nothing
    );
    assert_eq!(
        scheduler.apply_entitlement(&tasks, 1, None),
        EntitlementAction::Nothing
    );
    assert_eq!(scheduler.entitlement_of(1), None);
}

#[test]
fn a_woken_node_preempts_on_entitled_cpus_only() {
    let mut running = task(9, SchedulerType::GEDF(1));
    running.class_priority = 1;
    let mut tasks = table(vec![node_of(1, 40), running, node_of(2, 40)], 4);
    let mut scheduler = DpWrapScheduler::new(3);
    tasks.cpus[1].running = 9;
    tasks.cpus[2].running = 9;
    scheduler.apply_entitlement(&tasks, 2, Some(40));
    assert_eq!(
        scheduler.wake_task(&mut tasks, 0, wake(1, 100)),
        Some(Preemption { cpu: 2, target: 9 })
    );
    assert_eq!(scheduler.ready.len(), 0);
    // With an idle entitled CPU the node is queued instead.
    scheduler.apply_entitlement(&tasks, 3, Some(40));
    assert_eq!(scheduler.wake_task(&mut tasks, 2, wake(1, 100)), None);
    assert_eq!(scheduler.ready.len(), 1);
}

#[test]
fn shares_follow_the_rates_within_a_partition() {
    let tasks = table(Vec::new(), 4);
    let mut scheduler = DpWrapScheduler::new(3);
    let half: u64 = RATE_UNIT / 2;
    let quarter: u64 = RATE_UNIT / 4;
    // DAG 40: one thread of a half; DAG 50: two threads of three quarters.
    let active = [(40, 1, half), (50, 2, half + quarter)];
    let actions =
        scheduler.recompute_and_apply(&tasks, set(&[1, 2]), &active, 1_000, Some(2_000));
    assert_eq!(
        actions,
        vec![EntitlementAction::WakeCpu, EntitlementAction::WakeCpu]
    );
    assert_eq!(scheduler.entitlement_of(1), Some(40));
    assert_eq!(scheduler.entitlement_of(2), Some(50));
    assert_eq!(
        scheduler.switch_plan[1],
        vec![SwitchPoint {
            at: 1_500,
            dag_id: 50
        }]
    );
    assert_eq!(
        scheduler.tick_switch_plan(&tasks, 1, 1_499),
        EntitlementAction::Nothing
    );
    assert_eq!(
        scheduler.tick_switch_plan(&tasks, 1, 1_500),
        EntitlementAction::WakeCpu
    );
    assert_eq!(scheduler.entitlement_of(1), Some(50));
    assert!(scheduler.switch_plan[1].is_empty());
}

#[test]
fn without_a_partition_the_longest_piece_decides() {
    let tasks = table(Vec::new(), 4);
    let mut scheduler = DpWrapScheduler::new(3);
    let half: u64 = RATE_UNIT / 2;
    let quarter: u64 = RATE_UNIT / 4;
    let active = [(40, 1, quarter), (50, 1, half)];
    scheduler.recompute_and_apply(&tasks, set(&[1, 2]), &active, 1_000, None);
    assert_eq!(scheduler.entitlement_of(1), Some(50));
    assert_eq!(scheduler.entitlement_of(2), None);
    assert!(scheduler.switch_plan[1].is_empty());
}

#[test]
fn processors_fill_up_one_after_the_other() {
    let blocks = [
        (0, 7 * TENTH),
        (1, 8 * TENTH),
        (2, 0),
        (3, 9 * TENTH),
        (4, TENTH),
    ];
    let result = wrap_blocks(&blocks, 4, UNIT);
    // Pieces are back to back, from the start of the processor on.
    for pieces in &result {
        let mut filled: u64 = 0;
        for (_, start, end) in pieces {
            assert_eq!(*start, filled);
            filled = *end;
        }
    }
    // A processor is full before the next one is used.
    let filled: Vec<u64> = result
        .iter()
        .map(|pieces| pieces.last().map_or(0, |piece| piece.2))
        .collect();
    assert_eq!(filled, vec![UNIT, UNIT, 5 * TENTH, 0]);
    // A block lies on at most two processors, and those are neighbours.
    for (id, _) in blocks {
        let on: Vec<usize> = (0..result.len())
            .filter(|p| result[*p].iter().any(|piece| piece.0 == id))
            .collect();
        assert!(on.len() <= 2);
        assert!(on.windows(2).all(|pair| pair[1] == pair[0] + 1));
    }
}

#[test]
fn looking_for_a_mixed_task_loses_none() {
    // The first two own core 1 whose budget is used up; the last borrows it.
    let tasks_of = |id: u32| task(id, SchedulerType::MixedVp(set(&[1]), 1, set(&[2])));
    let borrower = task(9, SchedulerType::MixedVp(set(&[3]), 3, set(&[1])));
    let mut tasks = table(vec![tasks_of(7), tasks_of(8), borrower], 5);
    let mut budgets = ActiveVpTable::new();
    budgets.set_initial_budget(1, 10);
    let mut scheduler = MixedVpScheduler::new(5, 3);
    for slot in 0..3 {
        scheduler.wake_task(&mut tasks, &mut budgets, slot, wake(1, 100 + slot as u64));
    }
    budgets.cores[1].remaining = 0;
    assert_eq!(scheduler.get_next(&mut tasks, &budgets, 1, true), Some(2));
    assert_eq!(scheduler.get_next(&mut tasks, &budgets, 1, true), None);
    // Both are still there, in their order, for the core that they borrow.
    assert_eq!(scheduler.get_next(&mut tasks, &budgets, 2, true), Some(0));
    assert_eq!(scheduler.get_next(&mut tasks, &budgets, 2, true), Some(1));
    assert!(scheduler.queued_cpu_mask().is_empty());
}
