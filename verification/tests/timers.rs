//! Times, timers, timer requests and deadline partitions.

use std::cell::Cell;

use affinity_btree_queue::CpuMask;
use dag_sched::cpu::CpuSet;
use dag_sched::dag_sched::dp_partition::{
    install, Completion, DpPartition, Observation, NO_PERIOD_YET,
};
use dag_sched::scheduler::dp_wrap::{DpWrapScheduler, EntitlementAction, RATE_UNIT};
use dag_sched::scheduler::task::{CpuStatus, TaskTable};
use dag_sched::time::{Duration, Time};
use dag_sched::timer::{
    arm_at, cancel, disable, handle_timer_fire, has_passed, irq_id, is_timer_enabled,
    register_timer, register_timer_callback, request_at, reset, sanity_check, FireStep,
    PerCpuTimerState, Timer, TimerAction, TimerCallbacks, TimerRequestId, TimerUnit,
};

fn at_millis(millis: u64) -> Time {
    Time::zero().plus(Duration::from_millis(millis))
}

#[test]
fn test_per_cpu_timer_state_soonest_is_none_when_empty() {
    let state = PerCpuTimerState::new();
    assert_eq!(state.soonest(), None);
}

#[test]
fn test_per_cpu_timer_state_soonest_picks_the_minimum() {
    let mut state = PerCpuTimerState::new();
    let t10 = at_millis(10);
    let t5 = at_millis(5);
    state.set(TimerRequestId::IdleWakeup, t10);
    state.set(TimerRequestId::DpBoundary, t5);
    assert_eq!(state.soonest(), Some(t5));
}

#[test]
fn test_per_cpu_timer_state_clear_falls_back_to_remaining() {
    let mut state = PerCpuTimerState::new();
    let t10 = at_millis(10);
    let t5 = at_millis(5);
    state.set(TimerRequestId::IdleWakeup, t10);
    state.set(TimerRequestId::DpBoundary, t5);
    state.clear(TimerRequestId::DpBoundary);
    assert_eq!(state.soonest(), Some(t10));
}

#[test]
fn test_per_cpu_timer_state_clear_last_one_is_none() {
    let mut state = PerCpuTimerState::new();
    let t5 = at_millis(5);
    state.set(TimerRequestId::IdleWakeup, t5);
    state.clear(TimerRequestId::IdleWakeup);
    assert_eq!(state.soonest(), None);
}

#[test]
fn test_per_cpu_timer_state_updating_same_id_replaces_its_own_deadline() {
    let mut state = PerCpuTimerState::new();
    let t10 = at_millis(10);
    let t20 = at_millis(20);
    state.set(TimerRequestId::IdleWakeup, t10);
    state.set(TimerRequestId::IdleWakeup, t20);
    assert_eq!(state.soonest(), Some(t20));
}

#[test]
fn requests_arm_for_the_soonest() {
    let mut state = PerCpuTimerState::new();
    assert_eq!(
        request_at(&mut state, TimerRequestId::IdleWakeup, at_millis(10)),
        TimerAction::Arm(at_millis(10))
    );
    assert_eq!(
        request_at(&mut state, TimerRequestId::DpBoundary, at_millis(20)),
        TimerAction::Nothing
    );
    assert_eq!(
        request_at(&mut state, TimerRequestId::DpBoundary, at_millis(5)),
        TimerAction::Arm(at_millis(5))
    );
    assert_eq!(
        cancel(&mut state, TimerRequestId::DpBoundary),
        TimerAction::Arm(at_millis(10))
    );
    assert_eq!(
        cancel(&mut state, TimerRequestId::IdleWakeup),
        TimerAction::Disable
    );
}

#[test]
fn an_interrupt_invokes_what_is_due() {
    let mut state = PerCpuTimerState::new();
    request_at(&mut state, TimerRequestId::IdleWakeup, at_millis(10));
    request_at(&mut state, TimerRequestId::DpBoundary, at_millis(20));
    let mut invoked: Vec<TimerRequestId> = Vec::new();
    let mut from = Some(TimerRequestId::IdleWakeup);
    let end = loop {
        match handle_timer_fire(&mut state, at_millis(10), from) {
            FireStep::Invoke { id, next } => {
                invoked.push(id);
                from = next;
            }
            FireStep::Finish(action) => break action,
        }
    };
    assert_eq!(invoked, vec![TimerRequestId::IdleWakeup]);
    assert_eq!(end, TimerAction::Arm(at_millis(20)));

    // Too early: nothing is due, the timer is armed again.
    assert_eq!(
        handle_timer_fire(&mut state, at_millis(19), Some(TimerRequestId::IdleWakeup)),
        FireStep::Finish(TimerAction::Arm(at_millis(20)))
    );
    assert!(has_passed(at_millis(20), at_millis(20)));
    assert!(!has_passed(at_millis(20), at_millis(19)));
}

#[test]
fn callbacks_are_kept_by_consumer() {
    let mut callbacks: TimerCallbacks<fn() -> u32> = TimerCallbacks::new();
    assert!(callbacks.of(TimerRequestId::IdleWakeup).is_none());
    register_timer_callback(&mut callbacks, TimerRequestId::IdleWakeup, || 1);
    install(&mut callbacks, || 2);
    assert_eq!(callbacks.of(TimerRequestId::IdleWakeup).map(|f| f()), Some(1));
    assert_eq!(callbacks.of(TimerRequestId::DpBoundary).map(|f| f()), Some(2));
}

struct Recorder {
    last: Cell<Option<Duration>>,
    off: Cell<bool>,
}

impl Timer for Recorder {
    fn reset(&self, dur: Duration) {
        self.last.set(Some(dur));
    }

    fn irq_id(&self) -> u16 {
        30
    }

    fn disable(&self) {
        self.off.set(true);
    }
}

#[test]
fn the_unit_forwards_to_its_timer() {
    let mut unit: TimerUnit<Recorder> = TimerUnit::new();
    assert!(!is_timer_enabled(&unit));
    assert!(!reset(&unit, Duration::from_millis(1)));
    assert_eq!(irq_id(&unit), None);
    let without = sanity_check(&unit);
    register_timer(
        &mut unit,
        Recorder {
            last: Cell::new(None),
            off: Cell::new(false),
        },
    );
    assert!(is_timer_enabled(&unit));
    assert_ne!(sanity_check(&unit), without);
    assert!(arm_at(&unit, at_millis(7), at_millis(5)));
    let timer = unit.timer.as_ref().unwrap();
    assert_eq!(timer.last.get(), Some(Duration::from_millis(2)));
    assert!(arm_at(&unit, at_millis(5), at_millis(7)));
    assert_eq!(timer.last.get(), Some(Duration::from_millis(0)));
    assert_eq!(irq_id(&unit), Some(30));
    assert!(disable(&unit));
    assert!(timer.off.get());
}

#[test]
fn durations_hold_every_length() {
    assert_eq!(
        Duration::from_millis(1_500),
        Duration {
            secs: 1,
            subsec_nanos: 500_000_000
        }
    );
    assert_eq!(Duration::from_secs(u64::MAX).secs, u64::MAX);
    assert_eq!(Duration::from_micros(2_000_001).subsec_nanos, 1_000);
    assert_eq!(Duration::from_nanos(1_000_000_007).subsec_nanos, 7);
}

fn idle_table(num_cpu: usize) -> TaskTable {
    TaskTable {
        tasks: Vec::new(),
        cpus: vec![
            CpuStatus {
                running: 0,
                pending: None,
                reserved: false,
            };
            num_cpu
        ],
    }
}

fn two_segments() -> DpPartition {
    let mut partition = DpPartition::new();
    partition.register_segment(4, 0, 100, 1, RATE_UNIT / 2, vec![1]);
    partition.register_segment(4, 1, 250, 2, RATE_UNIT / 4, vec![2, 3]);
    partition
}

#[test]
fn boundaries_are_observed_once() {
    let mut partition = two_segments();
    assert_eq!(partition.arm_next(), Some(100));
    let (seen, next) = partition.on_dp_boundary(130);
    assert_eq!(
        seen,
        vec![Observation {
            dag_id: 4,
            segment_index: 0,
            scheduled: 100,
            latency: 30
        }]
    );
    assert_eq!(next, Some(250));
    let (again, _) = partition.on_dp_boundary(140);
    assert!(again.is_empty());
    // Observing moves no DAG on.
    assert_eq!(partition.pending.len(), 2);
    assert_eq!(partition.current, vec![(4, 1, RATE_UNIT / 2)]);
}

#[test]
fn dags_move_on_once_their_gate_is_satisfied() {
    let mut partition = two_segments();
    assert!(partition.due_boundaries(99).is_empty());
    assert_eq!(partition.due_boundaries(120), vec![0]);
    let waiting = partition.advance_due_segments(120, &vec![vec![Some(NO_PERIOD_YET)]]);
    assert_eq!(waiting.overruns.len(), 1);
    assert!(waiting.completions.is_empty());
    // It is reported as overdue once only.
    let still = partition.advance_due_segments(125, &vec![vec![None]]);
    assert!(still.overruns.is_empty());
    assert_eq!(partition.current, vec![(4, 1, RATE_UNIT / 2)]);

    let moved = partition.advance_due_segments(130, &vec![vec![Some(0)]]);
    assert_eq!(
        moved.completions,
        vec![Completion {
            dag_id: 4,
            segment_index: 0,
            scheduled: 100,
            latency: 30,
            warned_overrun: true
        }]
    );
    assert_eq!(partition.current, vec![(4, 2, RATE_UNIT / 4)]);
    assert_eq!(partition.pending.len(), 1);

    let last = partition.advance_due_segments(300, &vec![vec![Some(0), Some(0)]]);
    assert_eq!(last.completions.len(), 1);
    assert!(!last.completions[0].warned_overrun);
    assert!(partition.current.is_empty());
    assert_eq!(partition.arm_next(), None);
}

#[test]
fn active_segments_share_the_pool() {
    let mut partition = two_segments();
    partition.register_segment(2, 0, 400, 1, RATE_UNIT, vec![9]);
    assert_eq!(
        partition.current,
        vec![(2, 1, RATE_UNIT), (4, 1, RATE_UNIT / 2)]
    );
    let mut scheduler = DpWrapScheduler::new(3);
    let pool: CpuSet = CpuMask::empty().with(1).with(2);
    let table = idle_table(4);
    let actions = partition.apply_initial_entitlement(&mut scheduler, &table, pool, 0);
    assert_eq!(
        actions,
        vec![EntitlementAction::WakeCpu, EntitlementAction::WakeCpu]
    );
    assert_eq!(scheduler.entitlement_of(1), Some(2));
    assert_eq!(scheduler.entitlement_of(2), Some(4));
}

#[test]
fn shares_change_only_when_a_boundary_is_passed() {
    let mut partition = two_segments();
    let mut scheduler = DpWrapScheduler::new(3);
    let pool: CpuSet = CpuMask::empty().with(1);
    let table = idle_table(4);

    let blocked = vec![vec![Some(NO_PERIOD_YET)]];
    let (advance, actions) =
        partition.advance_and_apply(120, &blocked, &mut scheduler, &table, pool, 120);
    assert_eq!(advance.overruns.len(), 1);
    assert!(advance.completions.is_empty());
    assert_eq!(actions, None);
    assert_eq!(scheduler.entitlement_of(1), None);
    assert_eq!(partition.pending.len(), 2);

    let satisfied = vec![vec![Some(0)]];
    let (advance, actions) =
        partition.advance_and_apply(130, &satisfied, &mut scheduler, &table, pool, 131);
    assert_eq!(advance.completions.len(), 1);
    assert_eq!(actions, Some(vec![EntitlementAction::WakeCpu]));
    assert_eq!(scheduler.entitlement_of(1), Some(4));
    assert_eq!(partition.current, vec![(4, 2, RATE_UNIT / 4)]);

    let last = vec![vec![Some(0), Some(3)]];
    let (advance, actions) =
        partition.advance_and_apply(300, &last, &mut scheduler, &table, pool, 301);
    assert_eq!(advance.completions.len(), 1);
    assert!(actions.is_some());
    assert_eq!(scheduler.entitlement_of(1), None);
    assert!(partition.current.is_empty());
}

#[test]
fn active_segments_stay_in_the_order_of_their_dags() {
    let mut partition = DpPartition::new();
    for dag_id in [9, 4, 6] {
        partition.register_segment(dag_id, 0, 100, 1, RATE_UNIT / 2, Vec::new());
        partition.register_segment(dag_id, 1, 200, 1, RATE_UNIT / 8, Vec::new());
    }
    let ids = |p: &DpPartition| p.current.iter().map(|d| d.0).collect::<Vec<u32>>();
    assert_eq!(ids(&partition), vec![4, 6, 9]);
    let gates = vec![Vec::new(); 3];
    partition.advance_due_segments(150, &gates);
    assert_eq!(ids(&partition), vec![4, 6, 9]);
    assert!(partition.current.iter().all(|d| d.2 == RATE_UNIT / 8));
}
