//! The passive supply, measured on schedules of the active virtual processor.

use vstd::arithmetic::div_mod::lemma_fundamental_div_mod_converse;
use vstd::prelude::*;

use super::supply::{
    lemma_supply_bound_monotone, lemma_supply_bound_step, supply_bound, supply_params, total_supply,
    PassiveVpKindView,
};

verus! {

/// How many of the units of time from `from` until `to` are busy.
pub open spec fn busy_units(busy: spec_fn(int) -> bool, from: int, to: int) -> int
    decreases to - from,
{
    if to <= from {
        0
    } else {
        busy_units(busy, from, to - 1) + if busy(to - 1) {
            1int
        } else {
            0
        }
    }
}

/// How many of the units of time from `from` until `to` are idle.
pub open spec fn idle_units(busy: spec_fn(int) -> bool, from: int, to: int) -> int {
    to - from - busy_units(busy, from, to)
}

/// Whether an active VP with the budget `budget` may be busy at these times: in every period
/// at most for its budget, and never after the relative deadline of the period.
pub open spec fn owner_schedule(
    busy: spec_fn(int) -> bool,
    budget: int,
    period: int,
    deadline: int,
) -> bool {
    &&& forall|k: int| busy_units(busy, #[trigger] (k * period), k * period + period) <= budget
    &&& forall|t: int| #[trigger] busy(t) ==> t % period < deadline
}

proof fn lemma_busy_units_range(busy: spec_fn(int) -> bool, from: int, to: int)
    requires
        from <= to,
    ensures
        0 <= busy_units(busy, from, to) <= to - from,
    decreases to - from,
{
    if from < to {
        lemma_busy_units_range(busy, from, to - 1);
    }
}

proof fn lemma_busy_units_split(busy: spec_fn(int) -> bool, from: int, mid: int, to: int)
    requires
        from <= mid <= to,
    ensures
        busy_units(busy, from, to) == busy_units(busy, from, mid) + busy_units(busy, mid, to),
    decreases to - mid,
{
    if mid < to {
        lemma_busy_units_split(busy, from, mid, to - 1);
    }
}

/// Busy units that all lie between `low` and `high` are at most so many.
proof fn lemma_busy_units_between(
    busy: spec_fn(int) -> bool,
    from: int,
    to: int,
    low: int,
    high: int,
)
    requires
        from <= to,
        low <= high,
        forall|t: int| from <= t < to && #[trigger] busy(t) ==> low <= t < high,
    ensures
        busy_units(busy, from, to) <= high - low,
    decreases to - from,
{
    if from < to {
        if to - 1 < low || to - 1 >= high {
            lemma_busy_units_between(busy, from, to - 1, low, high);
        } else {
            let cut = if low > from {
                low
            } else {
                from
            };
            lemma_busy_units_between(busy, from, cut, low, low);
            lemma_busy_units_split(busy, from, cut, to);
            lemma_busy_units_range(busy, cut, to);
        }
    }
}

/// Whole periods are busy for at most the budget each.
proof fn lemma_busy_periods(
    busy: spec_fn(int) -> bool,
    budget: int,
    period: int,
    deadline: int,
    k: int,
    m: int,
)
    requires
        0 < period,
        owner_schedule(busy, budget, period, deadline),
        0 <= m,
    ensures
        busy_units(busy, k * period, (k + m) * period) <= m * budget,
    decreases m,
{
    if m == 0 {
        assert(0 * budget == 0);
    } else {
        lemma_busy_periods(busy, budget, period, deadline, k, m - 1);
        let last = (k + m - 1) * period;
        assert((k + m) * period == last + period) by (nonlinear_arith)
            requires
                last == (k + m - 1) * period,
        ;
        assert(k * period <= last) by (nonlinear_arith)
            requires
                last == (k + m - 1) * period,
                m >= 1,
                0 < period,
        ;
        lemma_busy_units_split(busy, k * period, last, last + period);
        assert(busy_units(busy, last, last + period) <= budget);
        assert(m * budget == (m - 1) * budget + budget) by (nonlinear_arith);
    }
}

/// The most that an interval can be busy: what the supply leaves of it.
spec fn most_busy(delta: int, budget: int, period: int, deadline: int) -> int {
    delta - supply_bound(delta, budget, period, deadline)
}

spec fn clamped(x: int, high: int) -> int {
    if x < 0 {
        0
    } else if x > high {
        high
    } else {
        x
    }
}

/// The most that an interval can be busy, once it is longer than the budget by `q` periods
/// and `beta`.
proof fn lemma_most_busy(q: int, beta: int, budget: int, period: int, deadline: int)
    requires
        0 <= budget <= deadline <= period,
        0 < period,
        0 <= q,
        0 <= beta < period,
    ensures
        most_busy(budget + q * period + beta, budget, period, deadline) == budget + q * budget
            + clamped(beta - (period - deadline), budget),
{
    let x = q * period + beta;
    lemma_fundamental_div_mod_converse(x, period, q, beta);
    assert(q * (period - budget) == q * period - q * budget) by (nonlinear_arith);
    assert(q * period >= 0) by (nonlinear_arith)
        requires
            0 <= q,
            0 < period,
    ;
}

proof fn lemma_most_busy_grows(short: int, long: int, budget: int, period: int, deadline: int)
    requires
        0 <= budget <= deadline <= period,
        0 < period,
        0 <= short <= long,
    ensures
        0 <= most_busy(long, budget, period, deadline) - most_busy(short, budget, period, deadline)
            <= long - short,
    decreases long - short,
{
    if short < long {
        lemma_most_busy_grows(short, long - 1, budget, period, deadline);
        lemma_supply_bound_step(long - 1, budget, period, deadline);
    }
}

/// An interval that begins with a period is busy for at most the budget per whole period,
/// and for the rest at most for its length.
proof fn lemma_aligned(m: int, t: int, budget: int, period: int, deadline: int)
    requires
        0 <= budget <= deadline <= period,
        0 < period,
        0 <= m,
        0 <= t < period,
    ensures
        m * budget + clamped(t, budget) <= most_busy(m * period + t, budget, period, deadline),
{
    let y = m * period + t;
    if t >= budget {
        lemma_most_busy(m, t - budget, budget, period, deadline);
    } else if m >= 1 {
        lemma_most_busy(m - 1, period + t - budget, budget, period, deadline);
        assert((m - 1) * period == m * period - period && (m - 1) * budget == m * budget - budget)
            by (nonlinear_arith);
    } else {
        assert(0 * period == 0 && 0 * budget == 0);
    }
}

/// The bound on an interval that begins `r` before the end of a period and goes on for `m`
/// whole periods and `t`.
proof fn lemma_unaligned(r: int, m: int, t: int, budget: int, period: int, deadline: int)
    requires
        0 <= budget <= deadline <= period,
        0 < period,
        0 < r <= period,
        0 <= m,
        0 <= t < period,
    ensures
        clamped(r - (period - deadline), budget) + m * budget + clamped(t, budget) <= most_busy(
            r + m * period + t,
            budget,
            period,
            deadline,
        ),
{
    let room = period - deadline;
    let u = clamped(r - room, budget);
    assert(0 <= m * period) by (nonlinear_arith)
        requires
            0 <= m,
            0 < period,
    ;
    let delta = r + m * period + t;
    if r < room {
        lemma_aligned(m, t, budget, period, deadline);
        lemma_most_busy_grows(m * period + t, delta, budget, period, deadline);
    } else {
        let least = u + room + m * period + t;
        let full = budget + room + m * period + t;
        lemma_most_busy_grows(least, delta, budget, period, deadline);
        lemma_most_busy_grows(least, full, budget, period, deadline);
        if room + t < period {
            lemma_most_busy(m, room + t, budget, period, deadline);
        } else {
            lemma_most_busy(m + 1, room + t - period, budget, period, deadline);
            assert((m + 1) * period == m * period + period && (m + 1) * budget == m * budget
                + budget) by (nonlinear_arith);
        }
    }
}

/// Whatever the active VP's schedule and wherever the interval lies, the passive VP beside it
/// is idle for at least the supply bound of the interval's length: that much is guaranteed.
pub proof fn lemma_supply_is_guaranteed(
    busy: spec_fn(int) -> bool,
    start: int,
    delta: int,
    budget: int,
    period: int,
    deadline: int,
)
    requires
        0 <= budget <= deadline <= period,
        0 < period,
        0 <= delta,
        owner_schedule(busy, budget, period, deadline),
    ensures
        idle_units(busy, start, start + delta) >= supply_bound(delta, budget, period, deadline),
{
    let k = start / period;
    let o = start % period;
    assert(start == k * period + o && 0 <= o < period) by (nonlinear_arith)
        requires
            0 < period,
            k == start / period,
            o == start % period,
    ;
    let begin = k * period;
    let r = period - o;
    let next = begin + period;
    assert((k + 1) * period == next) by (nonlinear_arith)
        requires
            next == k * period + period,
    ;
    assert forall|t: int| begin <= t < next && #[trigger] busy(t) implies t < begin + deadline by {
        lemma_fundamental_div_mod_converse(t, period, k, t - begin);
    }
    assert(busy_units(busy, k * period, k * period + period) <= budget);
    if delta <= r {
        let end = start + delta;
        lemma_busy_units_split(busy, begin, start, next);
        lemma_busy_units_split(busy, start, end, next);
        lemma_busy_units_range(busy, begin, start);
        lemma_busy_units_range(busy, end, next);
        lemma_busy_units_range(busy, start, end);
        if delta >= budget {
            lemma_most_busy(0, 0, budget, period, deadline);
            assert(0 * period == 0 && 0 * budget == 0);
            lemma_most_busy_grows(budget, delta, budget, period, deadline);
        }
    } else {
        let rest = delta - r;
        let m = rest / period;
        let t = rest % period;
        assert(rest == m * period + t && 0 <= t < period && 0 <= m) by (nonlinear_arith)
            requires
                0 < period,
                0 <= rest,
                m == rest / period,
                t == rest % period,
        ;
        let whole = (k + 1 + m) * period;
        assert(whole == next + m * period) by (nonlinear_arith)
            requires
                whole == (k + 1 + m) * period,
                next == k * period + period,
        ;
        assert(0 <= m * period) by (nonlinear_arith)
            requires
                0 <= m,
                0 < period,
        ;
        let end = start + delta;
        assert(end == whole + t);
        // The rest of the first period.
        lemma_busy_units_split(busy, begin, start, next);
        lemma_busy_units_range(busy, begin, start);
        let stop = if begin + deadline > start {
            begin + deadline
        } else {
            start
        };
        lemma_busy_units_between(busy, start, next, start, stop);
        // The whole periods.
        lemma_busy_periods(busy, budget, period, deadline, k + 1, m);
        // The beginning of the last one.
        assert(busy_units(busy, (k + 1 + m) * period, (k + 1 + m) * period + period) <= budget);
        lemma_busy_units_split(busy, whole, end, whole + period);
        lemma_busy_units_range(busy, end, whole + period);
        lemma_busy_units_range(busy, whole, end);
        lemma_busy_units_split(busy, start, next, end);
        lemma_busy_units_split(busy, next, whole, end);
        lemma_unaligned(r, m, t, budget, period, deadline);
    }
}

/// The schedule that leaves least from `deadline - budget` on: the budget as late as it can
/// be in one period, and as early as it can be in every later one.
pub open spec fn worst_schedule(budget: int, period: int, deadline: int) -> spec_fn(int) -> bool {
    |t: int|
        if t < period {
            deadline - budget <= t < deadline
        } else {
            t % period < budget
        }
}

proof fn lemma_worst_schedule_is_one(budget: int, period: int, deadline: int)
    requires
        0 <= budget <= deadline <= period,
        0 < period,
    ensures
        owner_schedule(worst_schedule(budget, period, deadline), budget, period, deadline),
{
    let busy = worst_schedule(budget, period, deadline);
    assert forall|t: int| #[trigger] busy(t) implies t % period < deadline by {
        if t < period {
            assert(0 * period == 0);
            lemma_fundamental_div_mod_converse(t, period, 0, t);
        }
    }
    assert forall|k: int| busy_units(busy, #[trigger] (k * period), k * period + period)
        <= budget by {
        let begin = k * period;
        if k <= 0 {
            assert(begin <= 0) by (nonlinear_arith)
                requires
                    begin == k * period,
                    k <= 0,
                    0 < period,
            ;
            lemma_busy_units_between(busy, begin, begin + period, deadline - budget, deadline);
        } else {
            assert(begin >= period) by (nonlinear_arith)
                requires
                    begin == k * period,
                    k >= 1,
                    0 < period,
            ;
            assert forall|t: int| begin <= t < begin + period && #[trigger] busy(t) implies begin
                <= t < begin + budget by {
                lemma_fundamental_div_mod_converse(t, period, k, t - begin);
            }
            lemma_busy_units_between(busy, begin, begin + period, begin, begin + budget);
        }
    }
}

proof fn lemma_worst_schedule_busy(delta: int, budget: int, period: int, deadline: int)
    requires
        0 <= budget <= deadline <= period,
        0 < period,
        0 <= delta,
    ensures
        busy_units(
            worst_schedule(budget, period, deadline),
            deadline - budget,
            deadline - budget + delta,
        ) == most_busy(delta, budget, period, deadline),
    decreases delta,
{
    let busy = worst_schedule(budget, period, deadline);
    let start = deadline - budget;
    if delta == 0 {
        if budget == 0 {
            lemma_most_busy(0, 0, budget, period, deadline);
            assert(0 * period == 0 && 0 * budget == 0);
        }
    } else {
        lemma_worst_schedule_busy(delta - 1, budget, period, deadline);
        let before = delta - 1;
        let t = start + before;
        assert(busy_units(busy, start, start + delta) == busy_units(busy, start, start + before)
            + if busy(t) {
            1int
        } else {
            0
        });
        if before < budget {
            if delta == budget {
                lemma_most_busy(0, 0, budget, period, deadline);
                assert(0 * period == 0 && 0 * budget == 0);
            }
        } else {
            let x = before - budget;
            let q = x / period;
            let beta = x % period;
            assert(x == q * period + beta && 0 <= beta < period && 0 <= q) by (nonlinear_arith)
                requires
                    0 < period,
                    0 <= x,
                    q == x / period,
                    beta == x % period,
            ;
            lemma_most_busy(q, beta, budget, period, deadline);
            assert((q + 1) * period == q * period + period && (q + 1) * budget == q * budget
                + budget) by (nonlinear_arith);
            if beta + 1 < period {
                lemma_most_busy(q, beta + 1, budget, period, deadline);
            } else {
                lemma_most_busy(q + 1, 0, budget, period, deadline);
            }
            assert(t == deadline + x);
            if deadline + beta < period {
                if q >= 1 {
                    assert(q * period >= period) by (nonlinear_arith)
                        requires
                            q >= 1,
                            0 < period,
                    ;
                    lemma_fundamental_div_mod_converse(t, period, q, deadline + beta);
                } else {
                    assert(0 * period == 0);
                }
            } else {
                assert(q * period >= 0) by (nonlinear_arith)
                    requires
                        q >= 0,
                        0 < period,
                ;
                lemma_fundamental_div_mod_converse(t, period, q + 1, deadline + beta - period);
            }
        }
    }
}

/// No more than the supply bound is guaranteed: with some schedule of the active VP, some
/// interval of that length is idle for no longer.
pub proof fn lemma_supply_is_attained(delta: int, budget: int, period: int, deadline: int)
    requires
        0 <= budget <= deadline <= period,
        0 < period,
        0 <= delta,
    ensures
        exists|busy: spec_fn(int) -> bool, start: int|
            owner_schedule(busy, budget, period, deadline) && #[trigger] idle_units(
                busy,
                start,
                start + delta,
            ) == supply_bound(delta, budget, period, deadline),
{
    let busy = worst_schedule(budget, period, deadline);
    let start = deadline - budget;
    lemma_worst_schedule_is_one(budget, period, deadline);
    lemma_worst_schedule_busy(delta, budget, period, deadline);
    assert(idle_units(busy, start, start + delta) == supply_bound(
        delta,
        budget,
        period,
        deadline,
    ));
}

/// With an implicit deadline, the budget at the end of one period and at the beginning of the
/// next leaves nothing of an interval of twice the budget.
pub proof fn lemma_no_supply_in_two_budgets(delta: int, budget: int, period: int)
    requires
        0 <= budget <= period,
        0 < period,
        0 <= delta <= 2 * budget,
    ensures
        supply_bound(delta, budget, period, period) == 0,
{
    if budget < period {
        lemma_most_busy(0, budget, budget, period, period);
        assert(0 * period == 0 && 0 * budget == 0);
    } else {
        lemma_most_busy(1, 0, budget, period, period);
        assert(1 * period == period && 1 * budget == budget);
    }
    lemma_supply_bound_monotone(delta, 2 * budget, budget, period, period);
    if delta >= budget {
        super::supply::lemma_supply_bound_range(delta, budget, period, period);
    }
}

/// The sum of how long the cores of a group are idle in intervals of the same length, the
/// `i`-th beginning at `starts[i]`.
pub open spec fn group_idle(
    busy: Seq<spec_fn(int) -> bool>,
    starts: Seq<int>,
    delta: int,
    n: int,
) -> int
    decreases n,
{
    if n <= 0 {
        0
    } else {
        group_idle(busy, starts, delta, n - 1) + idle_units(
            busy[n - 1],
            starts[n - 1],
            starts[n - 1] + delta,
        )
    }
}

/// Whether every core of a group has a schedule of its active VP.
pub open spec fn group_schedule(
    busy: Seq<spec_fn(int) -> bool>,
    budgets: Seq<u64>,
    period: int,
    deadline: int,
) -> bool {
    &&& busy.len() == budgets.len()
    &&& forall|i: int|
        0 <= i < budgets.len() ==> owner_schedule(
            #[trigger] busy[i],
            budgets[i] as int,
            period,
            deadline,
        )
}

proof fn lemma_total_supply_is_guaranteed(
    busy: Seq<spec_fn(int) -> bool>,
    starts: Seq<int>,
    budgets: Seq<u64>,
    delta: int,
    period: int,
    deadline: int,
)
    requires
        0 <= delta,
        group_schedule(busy, budgets, period, deadline),
        forall|i: int|
            0 <= i < budgets.len() ==> supply_params(#[trigger] budgets[i] as int, period, deadline),
    ensures
        total_supply(budgets, delta, period, deadline) <= group_idle(
            busy,
            starts,
            delta,
            budgets.len() as int,
        ),
    decreases budgets.len(),
{
    if budgets.len() > 0 {
        let (rest, fewer) = (budgets.drop_last(), busy.drop_last());
        let last = budgets.len() - 1;
        assert forall|i: int| 0 <= i < rest.len() implies owner_schedule(
            #[trigger] fewer[i],
            rest[i] as int,
            period,
            deadline,
        ) by {
            assert(fewer[i] == busy[i] && rest[i] == budgets[i]);
        }
        assert forall|i: int| 0 <= i < rest.len() implies supply_params(
            #[trigger] rest[i] as int,
            period,
            deadline,
        ) by {
            assert(rest[i] == budgets[i]);
        }
        lemma_total_supply_is_guaranteed(fewer, starts, rest, delta, period, deadline);
        lemma_group_idle_prefix(fewer, busy, starts, delta, last);
        assert(owner_schedule(busy[last], budgets[last] as int, period, deadline));
        assert(supply_params(budgets[last] as int, period, deadline));
        lemma_supply_is_guaranteed(
            busy[last],
            starts[last],
            delta,
            budgets[last] as int,
            period,
            deadline,
        );
    }
}

proof fn lemma_group_idle_prefix(
    a: Seq<spec_fn(int) -> bool>,
    b: Seq<spec_fn(int) -> bool>,
    starts: Seq<int>,
    delta: int,
    n: int,
)
    requires
        n <= a.len(),
        n <= b.len(),
        forall|i: int| 0 <= i < n ==> (#[trigger] a[i]) == b[i],
    ensures
        group_idle(a, starts, delta, n) == group_idle(b, starts, delta, n),
    decreases n,
{
    if n > 0 {
        lemma_group_idle_prefix(a, b, starts, delta, n - 1);
        assert(a[n - 1] == b[n - 1]);
    }
}

/// The slots of a group that share are guaranteed what they supply: whatever the schedules of
/// the group's active VPs, the group's cores are idle for as long as the slots that are always
/// free take, and the sharing slots supply, taken together; unless the sharing slots supply
/// nothing at all.
pub proof fn lemma_shared_supply_is_guaranteed(
    budgets: Seq<u64>,
    period: u64,
    deadline: u64,
    li: u16,
    busy: Seq<spec_fn(int) -> bool>,
    starts: Seq<int>,
    delta: int,
)
    requires
        0 <= delta,
        0 < li <= budgets.len(),
        group_schedule(busy, budgets, period as int, deadline as int),
        forall|i: int|
            0 <= i < budgets.len() ==> 0 <= (#[trigger] budgets[i]) <= deadline <= period && 0
                < period,
    ensures
        ({
            let supply = PassiveVpKindView::Shared {
                budgets,
                owner_period: period,
                owner_deadline: deadline,
                li,
            }.supply(delta);
            supply == 0 || li * supply + (budgets.len() - li) * delta <= group_idle(
                busy,
                starts,
                delta,
                budgets.len() as int,
            )
        }),
{
    let (t, d, n, k) = (period as int, deadline as int, budgets.len() as int, li as int);
    assert forall|i: int| 0 <= i < budgets.len() implies supply_params(
        #[trigger] budgets[i] as int,
        t,
        d,
    ) by {}
    lemma_total_supply_is_guaranteed(busy, starts, budgets, delta, t, d);
    let always_free = if n > k {
        n - k
    } else {
        0
    };
    let shared = total_supply(budgets, delta, t, d) - delta * always_free;
    if shared >= 0 {
        let q = shared / k;
        assert(k * q <= shared) by (nonlinear_arith)
            requires
                q == shared / k,
                0 < k,
                0 <= shared,
        ;
        assert((n - k) * delta == delta * always_free) by (nonlinear_arith)
            requires
                always_free == n - k,
        ;
    }
}

/// The sharing slots are guaranteed no more than they supply: one unit more each, and the
/// group's active VPs have schedules that leave too little.
pub proof fn lemma_shared_supply_is_attained(
    budgets: Seq<u64>,
    period: u64,
    deadline: u64,
    li: u16,
    delta: int,
)
    requires
        0 <= delta,
        0 < li <= budgets.len(),
        forall|i: int|
            0 <= i < budgets.len() ==> 0 <= (#[trigger] budgets[i]) <= deadline <= period && 0
                < period,
    ensures
        ({
            let supply = PassiveVpKindView::Shared {
                budgets,
                owner_period: period,
                owner_deadline: deadline,
                li,
            }.supply(delta);
            exists|busy: Seq<spec_fn(int) -> bool>, starts: Seq<int>|
                group_schedule(busy, budgets, period as int, deadline as int)
                    && #[trigger] group_idle(busy, starts, delta, budgets.len() as int) < li * (
                supply + 1) + (budgets.len() - li) * delta
        }),
{
    let (t, d, n, k) = (period as int, deadline as int, budgets.len() as int, li as int);
    let busy = Seq::new(budgets.len(), |i: int| worst_schedule(budgets[i] as int, t, d));
    let starts = Seq::new(budgets.len(), |i: int| d - budgets[i]);
    assert forall|i: int| 0 <= i < budgets.len() implies owner_schedule(
        #[trigger] busy[i],
        budgets[i] as int,
        t,
        d,
    ) by {
        assert(0 <= budgets[i] <= deadline);
        lemma_worst_schedule_is_one(budgets[i] as int, t, d);
    }
    lemma_worst_group(budgets, busy, starts, delta, t, d, n);
    assert(budgets.take(n) =~= budgets);
    let always_free = if n > k {
        n - k
    } else {
        0
    };
    let total = total_supply(budgets, delta, t, d);
    let shared = total - delta * always_free;
    assert((n - k) * delta == delta * always_free) by (nonlinear_arith)
        requires
            always_free == n - k,
    ;
    let supply = PassiveVpKindView::Shared {
        budgets,
        owner_period: period,
        owner_deadline: deadline,
        li,
    }.supply(delta);
    assert(shared < k * (supply + 1)) by {
        if shared >= 0 {
            let q = shared / k;
            assert(shared < k * (q + 1)) by (nonlinear_arith)
                requires
                    q == shared / k,
                    0 < k,
                    0 <= shared,
            ;
        }
    }
    assert(group_idle(busy, starts, delta, n) == total);
}

proof fn lemma_worst_group(
    budgets: Seq<u64>,
    busy: Seq<spec_fn(int) -> bool>,
    starts: Seq<int>,
    delta: int,
    period: int,
    deadline: int,
    n: int,
)
    requires
        0 <= n <= budgets.len(),
        0 <= delta,
        busy == Seq::new(budgets.len(), |i: int| worst_schedule(budgets[i] as int, period, deadline)),
        starts == Seq::new(budgets.len(), |i: int| deadline - budgets[i]),
        forall|i: int|
            0 <= i < budgets.len() ==> 0 <= (#[trigger] budgets[i]) <= deadline <= period && 0
                < period,
    ensures
        group_idle(busy, starts, delta, n) == total_supply(
            budgets.take(n),
            delta,
            period,
            deadline,
        ),
    decreases n,
{
    if n > 0 {
        lemma_worst_group(budgets, busy, starts, delta, period, deadline, n - 1);
        assert(budgets.take(n).drop_last() =~= budgets.take(n - 1));
        let budget = budgets[n - 1];
        lemma_worst_schedule_busy(delta, budget as int, period, deadline);
    }
}

} // verus!
