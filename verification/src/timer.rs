//! The timer of a core, and the requests that share it.
//!
//! There is one timer per core. Each of several consumers asks to be woken at a time of
//! its own; the timer is armed for the soonest of them, and again for what remains each
//! time it fires. The functions here decide what is to be done; the caller does it: it
//! arms or disables the timer and invokes the callbacks, holding no state meanwhile, so
//! that a callback may make a new request.

use vstd::prelude::*;
use vstd::string::*;

use crate::time::{Duration, Time};

verus! {

/// A timer driver.
pub trait Timer {
    /// Resets the timer interrupt.
    fn reset(&self, dur: Duration);

    /// The number of the timer's interrupt.
    fn irq_id(&self) -> (id: u16);

    /// Disables the timer interrupt.
    fn disable(&self);
}

/// The timer driver of the system, once there is one.
pub struct TimerUnit<T> {
    pub timer: Option<T>,
    pub enabled: bool,
}

impl<T> TimerUnit<T> {
    /// No driver yet.
    pub fn new() -> (unit: Self)
        ensures
            unit.timer is None,
            !unit.enabled,
    {
        TimerUnit { timer: None, enabled: false }
    }
}

/// Registers the timer driver; the timer counts as enabled from then on.
pub fn register_timer<T: Timer>(unit: &mut TimerUnit<T>, timer: T)
    ensures
        final(unit).timer == Some(timer),
        final(unit).enabled,
{
    unit.enabled = true;
    unit.timer = Some(timer);
}

/// Whether a timer driver has been registered.
pub fn is_timer_enabled<T>(unit: &TimerUnit<T>) -> (enabled: bool)
    ensures
        enabled == unit.enabled,
{
    unit.enabled
}

/// Resets the timer to fire after `dur`, if there is one; says whether there is.
pub fn reset<T: Timer>(unit: &TimerUnit<T>, dur: Duration) -> (done: bool)
    ensures
        done == (unit.timer is Some),
        unit.timer matches Some(timer) ==> call_ensures(T::reset, (&timer, dur), ()),
{
    match &unit.timer {
        Some(timer) => {
            timer.reset(dur);
            true
        },
        None => false,
    }
}

/// Arms the timer for the time `deadline`, if there is one: resets it to fire after what is
/// left until then, at once if the time has passed. Says whether there is a timer.
pub fn arm_at<T: Timer>(unit: &TimerUnit<T>, deadline: Time, now: Time) -> (done: bool)
    ensures
        done == (unit.timer is Some),
        unit.timer matches Some(timer) ==> exists|dur: Duration|
            dur.wf() && dur.total_nanos() == (if deadline.nanos > now.nanos {
                deadline.nanos - now.nanos
            } else {
                0
            }) && #[trigger] call_ensures(T::reset, (&timer, dur), ()),
{
    let dur = deadline.saturating_duration_since(now);
    reset(unit, dur)
}

/// The number of the timer's interrupt, if there is a timer.
pub fn irq_id<T: Timer>(unit: &TimerUnit<T>) -> (id: Option<u16>)
    ensures
        id is Some == unit.timer is Some,
        unit.timer matches Some(timer) ==> call_ensures(T::irq_id, (&timer,), id->0),
{
    match &unit.timer {
        Some(timer) => Some(timer.irq_id()),
        None => None,
    }
}

/// Disables the timer interrupt, if there is a timer; says whether there is.
pub fn disable<T: Timer>(unit: &TimerUnit<T>) -> (done: bool)
    ensures
        done == (unit.timer is Some),
        unit.timer matches Some(timer) ==> call_ensures(T::disable, (&timer,), ()),
{
    match &unit.timer {
        Some(timer) => {
            timer.disable();
            true
        },
        None => false,
    }
}

/// What to report of whether the timer has been initialised.
pub fn sanity_check<T>(unit: &TimerUnit<T>) -> (report: String)
    ensures
        report@ == if unit.timer is None {
            "timer::TIMER is not yet initialized."@
        } else {
            "timer::TIMER has been initialized."@
        },
{
    match &unit.timer {
        None => String::from_str("timer::TIMER is not yet initialized."),
        Some(_) => String::from_str("timer::TIMER has been initialized."),
    }
}

/// A consumer of a core's timer.
#[derive(Debug, Clone, Copy, PartialEq, Eq, Structural)]
pub enum TimerRequestId {
    /// Wakes an idle CPU.
    IdleWakeup,
    /// Marks the boundaries of deadline partitions.
    DpBoundary,
}

/// The requests that are pending on one core.
#[derive(Debug, Clone, Copy, PartialEq, Eq)]
pub struct PerCpuTimerState {
    pub idle_wakeup: Option<Time>,
    pub dp_boundary: Option<Time>,
}

/// What to do with the timer.
#[derive(Debug, Clone, Copy, PartialEq, Eq, Structural)]
pub enum TimerAction {
    /// Leave it as it is.
    Nothing,
    /// Arm it for this time, and then see with [`has_passed`] whether it has to be treated
    /// as fired at once.
    Arm(Time),
    Disable,
}

impl PerCpuTimerState {
    /// The request of one consumer.
    pub open spec fn request(self, id: TimerRequestId) -> Option<Time> {
        match id {
            TimerRequestId::IdleWakeup => self.idle_wakeup,
            TimerRequestId::DpBoundary => self.dp_boundary,
        }
    }

    /// The state with the request of one consumer replaced.
    pub open spec fn with_request(self, id: TimerRequestId, request: Option<Time>) -> Self {
        match id {
            TimerRequestId::IdleWakeup => PerCpuTimerState { idle_wakeup: request, ..self },
            TimerRequestId::DpBoundary => PerCpuTimerState { dp_boundary: request, ..self },
        }
    }

    /// The earliest pending request.
    pub open spec fn earliest(self) -> Option<Time> {
        match (self.idle_wakeup, self.dp_boundary) {
            (Some(a), Some(b)) => Some(
                if b.nanos < a.nanos {
                    b
                } else {
                    a
                },
            ),
            (Some(a), None) => Some(a),
            (None, b) => b,
        }
    }

    /// No request.
    pub fn new() -> (state: Self)
        ensures
            state == (PerCpuTimerState { idle_wakeup: None, dp_boundary: None }),
    {
        PerCpuTimerState { idle_wakeup: None, dp_boundary: None }
    }

    /// Sets the request of a consumer.
    pub fn set(&mut self, id: TimerRequestId, deadline: Time)
        ensures
            *final(self) == old(self).with_request(id, Some(deadline)),
    {
        match id {
            TimerRequestId::IdleWakeup => {
                self.idle_wakeup = Some(deadline);
            },
            TimerRequestId::DpBoundary => {
                self.dp_boundary = Some(deadline);
            },
        }
    }

    /// Drops the request of a consumer.
    pub fn clear(&mut self, id: TimerRequestId)
        ensures
            *final(self) == old(self).with_request(id, None),
    {
        match id {
            TimerRequestId::IdleWakeup => {
                self.idle_wakeup = None;
            },
            TimerRequestId::DpBoundary => {
                self.dp_boundary = None;
            },
        }
    }

    /// The earliest pending request, if there is any.
    pub fn soonest(&self) -> (time: Option<Time>)
        ensures
            time == self.earliest(),
    {
        match (self.idle_wakeup, self.dp_boundary) {
            (Some(a), Some(b)) => {
                if b.nanos < a.nanos {
                    Some(b)
                } else {
                    Some(a)
                }
            },
            (Some(a), None) => Some(a),
            (None, b) => b,
        }
    }
}

/// The earliest pending request is one of those pending, and none is earlier.
pub proof fn lemma_soonest(state: PerCpuTimerState, id: TimerRequestId)
    requires
        state.request(id) is Some,
    ensures
        state.earliest() is Some,
        state.earliest()->0.nanos <= state.request(id)->0.nanos,
        state.earliest() == state.request(TimerRequestId::IdleWakeup) || state.earliest()
            == state.request(TimerRequestId::DpBoundary),
{
}

/// The action for what remains pending: arm for the soonest, or disable.
pub open spec fn rearm(state: PerCpuTimerState) -> TimerAction {
    match state.earliest() {
        Some(next) => TimerAction::Arm(next),
        None => TimerAction::Disable,
    }
}

fn rearm_action(state: &PerCpuTimerState) -> (action: TimerAction)
    ensures
        action == rearm(*state),
{
    match state.soonest() {
        Some(next) => TimerAction::Arm(next),
        None => TimerAction::Disable,
    }
}

/// The action for a request: arm for it if it is now the soonest.
pub open spec fn request_action(state: PerCpuTimerState, deadline: Time) -> TimerAction {
    if state.earliest() == Some(deadline) {
        TimerAction::Arm(deadline)
    } else {
        TimerAction::Nothing
    }
}

/// Requests, or moves, a consumer's wake-up time on a core.
pub fn request_at(state: &mut PerCpuTimerState, id: TimerRequestId, deadline: Time) -> (action:
    TimerAction)
    ensures
        *final(state) == old(state).with_request(id, Some(deadline)),
        action == request_action(*final(state), deadline),
{
    state.set(id, deadline);
    let is_soonest: bool = match state.soonest() {
        Some(soonest) => soonest.nanos == deadline.nanos,
        None => false,
    };
    if is_soonest {
        TimerAction::Arm(deadline)
    } else {
        TimerAction::Nothing
    }
}

/// Cancels a consumer's request on a core.
pub fn cancel(state: &mut PerCpuTimerState, id: TimerRequestId) -> (action: TimerAction)
    ensures
        *final(state) == old(state).with_request(id, None),
        action == rearm(*final(state)),
{
    state.clear(id);
    rearm_action(state)
}

/// Whether a time has come.
pub open spec fn time_passed(deadline: Time, now: Time) -> bool {
    now.nanos >= deadline.nanos
}

/// Whether a time has come: then an interrupt for it may have been lost, and the timer has
/// to be treated as fired.
pub fn has_passed(deadline: Time, now: Time) -> (passed: bool)
    ensures
        passed == time_passed(deadline, now),
{
    now.nanos >= deadline.nanos
}

/// The next step of treating a timer interrupt.
#[derive(Debug, Clone, Copy, PartialEq, Eq)]
pub enum FireStep {
    /// Invoke the callback of `id`, and go on with `next`.
    Invoke { id: TimerRequestId, next: Option<TimerRequestId> },
    /// Do this, and be done.
    Finish(TimerAction),
}

/// Whether a consumer's request is due.
pub open spec fn request_due(state: PerCpuTimerState, id: TimerRequestId, now: Time) -> bool {
    state.request(id) matches Some(deadline) && deadline.nanos <= now.nanos
}

fn is_request_due(request: Option<Time>, now: Time) -> (due: bool)
    ensures
        due == (request matches Some(deadline) && deadline.nanos <= now.nanos),
{
    match request {
        Some(deadline) => deadline.nanos <= now.nanos,
        None => false,
    }
}

/// What one step does: consumers from `from` on are looked at in turn, those before it have
/// been. The first whose request is due has it dropped and its callback invoked. If none
/// is left, the timer is armed for what remains.
pub open spec fn fire_step(state: PerCpuTimerState, now: Time, from: Option<TimerRequestId>) -> (
    PerCpuTimerState,
    FireStep,
) {
    let idle = TimerRequestId::IdleWakeup;
    let boundary = TimerRequestId::DpBoundary;
    if from == Some(idle) && request_due(state, idle, now) {
        (
            state.with_request(idle, None),
            FireStep::Invoke { id: idle, next: Some(boundary) },
        )
    } else if from is Some && request_due(state, boundary, now) {
        (state.with_request(boundary, None), FireStep::Invoke { id: boundary, next: None })
    } else {
        (state, FireStep::Finish(rearm(state)))
    }
}

/// Treats a timer interrupt at the time `now`, step by step: begin with
/// [`TimerRequestId::IdleWakeup`] and go on with what each step names.
pub fn handle_timer_fire(
    state: &mut PerCpuTimerState,
    now: Time,
    from: Option<TimerRequestId>,
) -> (step: FireStep)
    ensures
        (*final(state), step) == fire_step(*old(state), now, from),
{
    let first: bool = match from {
        Some(TimerRequestId::IdleWakeup) => true,
        _ => false,
    };
    if first && is_request_due(state.idle_wakeup, now) {
        state.clear(TimerRequestId::IdleWakeup);
        return FireStep::Invoke {
            id: TimerRequestId::IdleWakeup,
            next: Some(TimerRequestId::DpBoundary),
        };
    }
    if from.is_some() && is_request_due(state.dp_boundary, now) {
        state.clear(TimerRequestId::DpBoundary);
        return FireStep::Invoke { id: TimerRequestId::DpBoundary, next: None };
    }
    FireStep::Finish(rearm_action(state))
}

/// The callbacks of the consumers.
pub struct TimerCallbacks<F> {
    pub idle_wakeup: Option<F>,
    pub dp_boundary: Option<F>,
}

impl<F> TimerCallbacks<F> {
    /// The callback of one consumer.
    pub open spec fn callback(self, id: TimerRequestId) -> Option<F> {
        match id {
            TimerRequestId::IdleWakeup => self.idle_wakeup,
            TimerRequestId::DpBoundary => self.dp_boundary,
        }
    }

    /// No callback.
    pub fn new() -> (callbacks: Self)
        ensures
            forall|id: TimerRequestId| #[trigger] callbacks.callback(id) is None,
    {
        TimerCallbacks { idle_wakeup: None, dp_boundary: None }
    }

    /// The callback of one consumer, if it has one.
    pub fn of(&self, id: TimerRequestId) -> (callback: Option<&F>)
        ensures
            match callback {
                Some(f) => self.callback(id) == Some(*f),
                None => self.callback(id) is None,
            },
    {
        match id {
            TimerRequestId::IdleWakeup => self.idle_wakeup.as_ref(),
            TimerRequestId::DpBoundary => self.dp_boundary.as_ref(),
        }
    }
}

/// Registers the callback of a consumer, in place of any earlier one.
pub fn register_timer_callback<F>(
    callbacks: &mut TimerCallbacks<F>,
    id: TimerRequestId,
    callback: F,
)
    ensures
        final(callbacks).callback(id) == Some(callback),
        forall|other: TimerRequestId|
            other != id ==> #[trigger] final(callbacks).callback(other) == old(
                callbacks,
            ).callback(other),
{
    match id {
        TimerRequestId::IdleWakeup => {
            callbacks.idle_wakeup = Some(callback);
        },
        TimerRequestId::DpBoundary => {
            callbacks.dp_boundary = Some(callback);
        },
    }
}

/// The time that the timer is armed for after an action.
pub open spec fn armed_after(armed: Option<Time>, action: TimerAction) -> Option<Time> {
    match action {
        TimerAction::Nothing => armed,
        TimerAction::Arm(time) => Some(time),
        TimerAction::Disable => None,
    }
}

/// No pending request is missed: while any is pending, the timer is armed for a time that
/// is not later than the soonest of them.
pub open spec fn armed_in_time(armed: Option<Time>, state: PerCpuTimerState) -> bool {
    state.earliest() matches Some(soonest) ==> (armed matches Some(a) && a.nanos <= soonest.nanos)
}

/// Requesting, cancelling and the end of treating an interrupt all keep the timer armed in
/// time.
pub proof fn lemma_requests_are_never_missed(
    state: PerCpuTimerState,
    armed: Option<Time>,
    id: TimerRequestId,
    deadline: Time,
)
    requires
        armed_in_time(armed, state),
    ensures
        ({
            let requested = state.with_request(id, Some(deadline));
            armed_in_time(armed_after(armed, request_action(requested, deadline)), requested)
        }),
        ({
            let cancelled = state.with_request(id, None);
            armed_in_time(armed_after(armed, rearm(cancelled)), cancelled)
        }),
        armed_in_time(armed_after(armed, rearm(state)), state),
{
}

/// Treating an interrupt invokes exactly the callbacks of the requests that are due when
/// their turn comes, and leaves the others pending.
pub proof fn lemma_fire_invokes_what_is_due(
    state: PerCpuTimerState,
    now: Time,
    id: TimerRequestId,
)
    ensures
        ({
            let (after, step) = fire_step(state, now, Some(id));
            &&& step matches FireStep::Invoke { id: invoked, .. } ==> request_due(
                state,
                invoked,
                now,
            ) && after == state.with_request(invoked, None)
            &&& step is Finish ==> after == state && !request_due(
                state,
                TimerRequestId::DpBoundary,
                now,
            ) && (id == TimerRequestId::IdleWakeup ==> !request_due(state, id, now))
        }),
{
}

/// A whole interrupt, treated in at most `k` steps from `from` on, if no callback makes a
/// request meanwhile: what is pending in the end, whose callbacks were invoked, and what is
/// done with the timer once no step is left.
pub open spec fn treated(
    state: PerCpuTimerState,
    now: Time,
    from: Option<TimerRequestId>,
    k: nat,
) -> (PerCpuTimerState, Seq<TimerRequestId>, Option<TimerAction>)
    decreases k,
{
    if k == 0 {
        (state, Seq::empty(), None)
    } else {
        let (after, step) = fire_step(state, now, from);
        match step {
            FireStep::Finish(action) => (after, Seq::empty(), Some(action)),
            FireStep::Invoke { id, next } => {
                let (last, invoked, action) = treated(after, now, next, (k - 1) as nat);
                (last, seq![id] + invoked, action)
            },
        }
    }
}

/// An interrupt wakes every consumer whose time has come, and no other, each once; what it
/// had asked for is dropped, and what the other had asked for stays. The treatment ends with
/// the timer armed for what stays, or disabled if nothing does.
pub proof fn lemma_interrupt_wakes_those_whose_time_has_come(state: PerCpuTimerState, now: Time)
    ensures
        ({
            let (after, invoked, action) = treated(
                state,
                now,
                Some(TimerRequestId::IdleWakeup),
                3,
            );
            let idle_over = state.idle_wakeup is Some && now.nanos >= state.idle_wakeup->0.nanos;
            let boundary_over = state.dp_boundary is Some && now.nanos
                >= state.dp_boundary->0.nanos;
            &&& invoked.no_duplicates()
            &&& invoked.contains(TimerRequestId::IdleWakeup) <==> idle_over
            &&& invoked.contains(TimerRequestId::DpBoundary) <==> boundary_over
            &&& after.idle_wakeup == if idle_over {
                None
            } else {
                state.idle_wakeup
            }
            &&& after.dp_boundary == if boundary_over {
                None
            } else {
                state.dp_boundary
            }
            &&& match action {
                None => false,
                Some(TimerAction::Nothing) => false,
                Some(TimerAction::Disable) => after.idle_wakeup is None && after.dp_boundary is None,
                Some(TimerAction::Arm(time)) => {
                    &&& after.idle_wakeup == Some(time) || after.dp_boundary == Some(time)
                    &&& after.idle_wakeup matches Some(a) ==> time.nanos <= a.nanos
                    &&& after.dp_boundary matches Some(b) ==> time.nanos <= b.nanos
                },
            }
        }),
{
    reveal_with_fuel(treated, 4);
    let (after, invoked, action) = treated(state, now, Some(TimerRequestId::IdleWakeup), 3);
    let idle = TimerRequestId::IdleWakeup;
    let boundary = TimerRequestId::DpBoundary;
    let none = Seq::<TimerRequestId>::empty();
    if request_due(state, idle, now) {
        if request_due(state, boundary, now) {
            assert(invoked =~= seq![idle, boundary]);
            assert(invoked[0] == idle && invoked[1] == boundary);
        } else {
            assert(invoked =~= seq![idle]);
            assert(invoked[0] == idle);
        }
    } else if request_due(state, boundary, now) {
        assert(invoked =~= seq![boundary]);
        assert(invoked[0] == boundary);
    } else {
        assert(invoked =~= none);
    }
}

/// A consumer's request takes the place of its own earlier one and leaves that of the other
/// alone; the timer is armed for it unless the other's comes first.
pub proof fn lemma_request_replaces_the_own_one(state: PerCpuTimerState, deadline: Time)
    ensures
        ({
            let woken = state.with_request(TimerRequestId::IdleWakeup, Some(deadline));
            &&& woken.idle_wakeup == Some(deadline)
            &&& woken.dp_boundary == state.dp_boundary
            &&& request_action(woken, deadline) == TimerAction::Arm(deadline) <==> (
            state.dp_boundary matches Some(other) ==> deadline.nanos <= other.nanos)
            &&& request_action(woken, deadline) != TimerAction::Arm(deadline) ==> request_action(
                woken,
                deadline,
            ) == TimerAction::Nothing
        }),
        ({
            let bounded = state.with_request(TimerRequestId::DpBoundary, Some(deadline));
            &&& bounded.dp_boundary == Some(deadline)
            &&& bounded.idle_wakeup == state.idle_wakeup
            &&& request_action(bounded, deadline) == TimerAction::Arm(deadline) <==> (
            state.idle_wakeup matches Some(other) ==> deadline.nanos <= other.nanos)
            &&& request_action(bounded, deadline) != TimerAction::Arm(deadline) ==> request_action(
                bounded,
                deadline,
            ) == TimerAction::Nothing
        }),
{
}

/// A request is due exactly from the time on that it is for.
pub proof fn lemma_request_is_due_once_its_time_has_passed(
    state: PerCpuTimerState,
    id: TimerRequestId,
    now: Time,
)
    ensures
        request_due(state, id, now) <==> state.request(id) is Some && time_passed(
            state.request(id)->0,
            now,
        ),
        time_passed(now, now),
{
}

} // verus!
