//! What a passive virtual processor is guaranteed to supply.

use vstd::arithmetic::div_mod::lemma_fundamental_div_mod_converse;
use vstd::prelude::*;

verus! {

/// What the supply bound is defined for: a constrained deadline, and a budget
/// within it.
pub open spec fn supply_params(budget: int, period: int, deadline: int) -> bool {
    0 <= budget <= deadline <= period && 0 < period
}

/// The least processing time that the passive VP beside an active VP with the
/// budget `budget` supplies in any interval of length `delta`, where the active
/// VP's task has the given period and relative deadline.
pub open spec fn supply_bound(delta: int, budget: int, period: int, deadline: int) -> int {
    if delta < budget {
        0
    } else {
        let x = delta - budget;
        let beta = x % period;
        let gamma = if beta <= period - deadline {
            beta
        } else if beta <= period - deadline + budget {
            period - deadline
        } else {
            beta - budget
        };
        (x / period) * (period - budget) + gamma
    }
}

/// The supply is never negative and never more than what remains of the interval
/// once the budget is taken off.
pub proof fn lemma_supply_bound_range(delta: int, budget: int, period: int, deadline: int)
    requires
        supply_params(budget, period, deadline),
        0 <= delta,
    ensures
        0 <= supply_bound(delta, budget, period, deadline) <= delta,
        delta >= budget ==> supply_bound(delta, budget, period, deadline) <= delta - budget,
{
    if delta >= budget {
        let x = delta - budget;
        assert(0 <= (x / period) * (period - budget) <= x - x % period) by (nonlinear_arith)
            requires
                0 <= budget <= period,
                0 < period,
                0 <= x,
        ;
        assert(0 <= x % period < period) by (nonlinear_arith)
            requires
                0 < period,
        ;
    }
}

/// A longer interval by one unit supplies the same or one unit more.
pub proof fn lemma_supply_bound_step(delta: int, budget: int, period: int, deadline: int)
    requires
        supply_params(budget, period, deadline),
        0 <= delta,
    ensures
        supply_bound(delta, budget, period, deadline) <= supply_bound(
            delta + 1,
            budget,
            period,
            deadline,
        ) <= supply_bound(delta, budget, period, deadline) + 1,
{
    if delta + 1 < budget {
    } else if delta < budget {
        assert(0int % period == 0 && 0int / period == 0) by (nonlinear_arith)
            requires
                0 < period,
        ;
        assert(0 * (period - budget) == 0);
    } else {
        let x = delta - budget;
        let q = x / period;
        let r = x % period;
        assert(x == q * period + r && 0 <= r < period) by (nonlinear_arith)
            requires
                0 < period,
                q == x / period,
                r == x % period,
        ;
        if r + 1 < period {
            lemma_fundamental_div_mod_converse(x + 1, period, q, r + 1);
        } else {
            assert((q + 1) * period == q * period + period) by (nonlinear_arith);
            lemma_fundamental_div_mod_converse(x + 1, period, q + 1, 0);
            assert((q + 1) * (period - budget) == q * (period - budget) + (period - budget))
                by (nonlinear_arith);
        }
    }
}

/// A longer interval never supplies less.
pub proof fn lemma_supply_bound_monotone(
    short: int,
    long: int,
    budget: int,
    period: int,
    deadline: int,
)
    requires
        supply_params(budget, period, deadline),
        0 <= short <= long,
    ensures
        supply_bound(short, budget, period, deadline) <= supply_bound(
            long,
            budget,
            period,
            deadline,
        ),
    decreases long - short,
{
    if short < long {
        lemma_supply_bound_monotone(short, long - 1, budget, period, deadline);
        lemma_supply_bound_step(long - 1, budget, period, deadline);
    }
}

/// Once the budget has been used, every further period supplies all of the period
/// but the budget.
pub proof fn lemma_supply_bound_per_period(delta: int, budget: int, period: int, deadline: int)
    requires
        supply_params(budget, period, deadline),
        budget <= delta,
    ensures
        supply_bound(delta + period, budget, period, deadline) == supply_bound(
            delta,
            budget,
            period,
            deadline,
        ) + (period - budget),
{
    let x = delta - budget;
    let q = x / period;
    let r = x % period;
    assert(x == q * period + r && 0 <= r < period) by (nonlinear_arith)
        requires
            0 < period,
            q == x / period,
            r == x % period,
    ;
    assert((q + 1) * period == q * period + period) by (nonlinear_arith);
    lemma_fundamental_div_mod_converse(x + period, period, q + 1, r);
    assert((q + 1) * (period - budget) == q * (period - budget) + (period - budget))
        by (nonlinear_arith);
}

/// [`supply_bound`] on machine integers.
pub fn sbf(delta: u64, budget: u64, period: u64, deadline: u64) -> (supply: u64)
    requires
        supply_params(budget as int, period as int, deadline as int),
    ensures
        supply == supply_bound(delta as int, budget as int, period as int, deadline as int),
{
    if delta < budget {
        return 0;
    }
    let x: u64 = delta - budget;
    proof {
        lemma_supply_bound_range(delta as int, budget as int, period as int, deadline as int);
        assert(0 <= (x as int / period as int) * (period - budget) <= x) by (nonlinear_arith)
            requires
                0 <= budget <= period,
                0 < period,
                0 <= x,
        ;
    }
    let alpha: u64 = (x / period) * (period - budget);
    let beta: u64 = x % period;
    let room: u64 = period - deadline;
    let gamma: u64 = if beta <= room {
        beta
    } else if beta - room <= budget {
        room
    } else {
        beta - budget
    };
    alpha + gamma
}

/// How a passive VP's supply is characterised.
#[derive(Debug, Clone, PartialEq, Eq)]
pub enum PassiveVpKind {
    /// By the active VP on the same core alone.
    Independent { active_budget: u64, owner_period: u64, owner_deadline: u64 },
    /// The owning DAG can never use this slot: its parallelism is too low. The
    /// whole interval is supplied.
    AlwaysFree,
    /// One of the `li` slots of a group that share what the group leaves over.
    Shared {
        /// Every active-VP budget of the whole group.
        budgets: Vec<u64>,
        owner_period: u64,
        owner_deadline: u64,
        /// The parallelism of the owning DAG, and the number of sharing slots.
        li: u16,
    },
}

/// A core's leftover capacity beside its active VP.
#[derive(Debug, Clone, PartialEq, Eq)]
pub struct PassiveVp {
    pub cpu: usize,
    pub kind: PassiveVpKind,
}

/// The mathematical value of a [`PassiveVpKind`].
#[verifier::ext_equal]
pub enum PassiveVpKindView {
    Independent { active_budget: u64, owner_period: u64, owner_deadline: u64 },
    AlwaysFree,
    Shared { budgets: Seq<u64>, owner_period: u64, owner_deadline: u64, li: u16 },
}

/// The mathematical value of a [`PassiveVp`].
#[verifier::ext_equal]
pub struct PassiveVpView {
    pub cpu: usize,
    pub kind: PassiveVpKindView,
}

impl View for PassiveVpKind {
    type V = PassiveVpKindView;

    open spec fn view(&self) -> PassiveVpKindView {
        match self {
            PassiveVpKind::Independent { active_budget, owner_period, owner_deadline } => {
                PassiveVpKindView::Independent {
                    active_budget: *active_budget,
                    owner_period: *owner_period,
                    owner_deadline: *owner_deadline,
                }
            },
            PassiveVpKind::AlwaysFree => PassiveVpKindView::AlwaysFree,
            PassiveVpKind::Shared { budgets, owner_period, owner_deadline, li } => {
                PassiveVpKindView::Shared {
                    budgets: budgets@,
                    owner_period: *owner_period,
                    owner_deadline: *owner_deadline,
                    li: *li,
                }
            },
        }
    }
}

impl View for PassiveVp {
    type V = PassiveVpView;

    open spec fn view(&self) -> PassiveVpView {
        PassiveVpView { cpu: self.cpu, kind: self.kind@ }
    }
}

/// The sum of the supply bounds beside each of `budgets`.
pub open spec fn total_supply(budgets: Seq<u64>, delta: int, period: int, deadline: int) -> int
    decreases budgets.len(),
{
    if budgets.len() == 0 {
        0
    } else {
        total_supply(budgets.drop_last(), delta, period, deadline) + supply_bound(
            delta,
            budgets.last() as int,
            period,
            deadline,
        )
    }
}

impl PassiveVpKindView {
    /// The parameters are those of a constrained-deadline task and of budgets
    /// within its deadline.
    pub open spec fn wf(self) -> bool {
        match self {
            PassiveVpKindView::Independent { active_budget, owner_period, owner_deadline } => {
                supply_params(active_budget as int, owner_period as int, owner_deadline as int)
            },
            PassiveVpKindView::AlwaysFree => true,
            PassiveVpKindView::Shared { budgets, owner_period, owner_deadline, li } => {
                forall|i: int|
                    0 <= i < budgets.len() ==> supply_params(
                        #[trigger] budgets[i] as int,
                        owner_period as int,
                        owner_deadline as int,
                    )
            },
        }
    }

    /// The least processing time supplied in any interval of length `delta`.
    ///
    /// A sharing slot gets an equal part, rounded down, of what the whole group
    /// supplies beyond its slots that are always free.
    pub open spec fn supply(self, delta: int) -> int {
        match self {
            PassiveVpKindView::Independent { active_budget, owner_period, owner_deadline } => {
                supply_bound(
                    delta,
                    active_budget as int,
                    owner_period as int,
                    owner_deadline as int,
                )
            },
            PassiveVpKindView::AlwaysFree => delta,
            PassiveVpKindView::Shared { budgets, owner_period, owner_deadline, li } => {
                if li == 0 {
                    0
                } else {
                    let always_free = if budgets.len() > li {
                        budgets.len() - li
                    } else {
                        0
                    };
                    let shared = total_supply(
                        budgets,
                        delta,
                        owner_period as int,
                        owner_deadline as int,
                    ) - delta * always_free;
                    if shared < 0 {
                        0
                    } else {
                        shared / li as int
                    }
                }
            },
        }
    }
}

impl PassiveVpView {
    pub open spec fn wf(self) -> bool {
        self.kind.wf()
    }

    pub open spec fn supply(self, delta: int) -> int {
        self.kind.supply(delta)
    }
}

proof fn lemma_total_supply_range(budgets: Seq<u64>, delta: int, period: int, deadline: int)
    requires
        0 <= delta,
        forall|i: int|
            0 <= i < budgets.len() ==> supply_params(#[trigger] budgets[i] as int, period, deadline),
    ensures
        0 <= total_supply(budgets, delta, period, deadline) <= budgets.len() * delta,
    decreases budgets.len(),
{
    if budgets.len() > 0 {
        assert forall|i: int| 0 <= i < budgets.drop_last().len() implies supply_params(
            #[trigger] budgets.drop_last()[i] as int,
            period,
            deadline,
        ) by {
            assert(budgets.drop_last()[i] == budgets[i]);
        }
        lemma_total_supply_range(budgets.drop_last(), delta, period, deadline);
        assert(budgets.last() == budgets[budgets.len() - 1]);
        lemma_supply_bound_range(delta, budgets.last() as int, period, deadline);
        let n = budgets.len();
        assert(n * delta == (n - 1) * delta + delta) by (nonlinear_arith)
            requires
                n >= 1,
        ;
    }
}

/// A passive VP never supplies more than the interval itself.
pub proof fn lemma_supply_at_most_interval(vp: PassiveVpView, delta: int)
    requires
        vp.wf(),
        0 <= delta,
    ensures
        0 <= vp.supply(delta) <= delta,
{
    match vp.kind {
        PassiveVpKindView::Independent { active_budget, owner_period, owner_deadline } => {
            lemma_supply_bound_range(
                delta,
                active_budget as int,
                owner_period as int,
                owner_deadline as int,
            );
        },
        PassiveVpKindView::AlwaysFree => {},
        PassiveVpKindView::Shared { budgets, owner_period, owner_deadline, li } => {
            let period = owner_period as int;
            let deadline = owner_deadline as int;
            lemma_total_supply_range(budgets, delta, period, deadline);
            let total = total_supply(budgets, delta, period, deadline);
            let n = budgets.len() as int;
            if li > 0 {
                let free = if n > li {
                    n - li
                } else {
                    0
                };
                let shared = total - delta * free;
                assert(shared <= li * delta) by (nonlinear_arith)
                    requires
                        shared == total - delta * free,
                        total <= n * delta,
                        free >= n - li,
                        0 <= delta,
                ;
                if shared >= 0 {
                    let parts = li as int;
                    assert(0 <= shared / parts <= delta) by (nonlinear_arith)
                        requires
                            0 <= shared <= parts * delta,
                            parts > 0,
                    ;
                }
            }
        },
    }
}

impl PassiveVp {
    /// The least processing time that this passive VP supplies in any interval of
    /// length `delta`.
    pub fn sbf(&self, delta: u64) -> (supply: u64)
        requires
            self@.wf(),
        ensures
            supply == self@.supply(delta as int),
            supply <= delta,
    {
        proof {
            lemma_supply_at_most_interval(self@, delta as int);
        }
        match &self.kind {
            PassiveVpKind::Independent { active_budget, owner_period, owner_deadline } => sbf(
                delta,
                *active_budget,
                *owner_period,
                *owner_deadline,
            ),
            PassiveVpKind::AlwaysFree => delta,
            PassiveVpKind::Shared { budgets, owner_period, owner_deadline, li } => {
                if *li == 0 {
                    return 0;
                }
                let ghost period = *owner_period as int;
                let ghost deadline = *owner_deadline as int;
                let mut raw: u128 = 0;
                let mut i: usize = 0;
                while i < budgets.len()
                    invariant
                        i <= budgets@.len(),
                        period == *owner_period,
                        deadline == *owner_deadline,
                        forall|k: int|
                            0 <= k < budgets@.len() ==> supply_params(
                                #[trigger] budgets@[k] as int,
                                period,
                                deadline,
                            ),
                        raw == total_supply(
                            budgets@.take(i as int),
                            delta as int,
                            period,
                            deadline,
                        ),
                        0 <= raw <= i * delta,
                    decreases budgets@.len() - i,
                {
                    let one: u64 = sbf(delta, budgets[i], *owner_period, *owner_deadline);
                    proof {
                        lemma_supply_bound_range(
                            delta as int,
                            budgets@[i as int] as int,
                            period,
                            deadline,
                        );
                        assert(budgets@.take(i + 1).drop_last() =~= budgets@.take(i as int));
                        lemma_product_fits(i as int, delta as int);
                        assert((i + 1) * delta == i * delta + delta) by (nonlinear_arith);
                    }
                    raw = raw + one as u128;
                    i = i + 1;
                }
                assert(budgets@.take(i as int) =~= budgets@);
                let mi: usize = budgets.len();
                let always_free: u128 = if mi > *li as usize {
                    (mi - *li as usize) as u128
                } else {
                    0
                };
                proof {
                    lemma_product_fits(always_free as int, delta as int);
                    assert(delta * always_free == always_free * delta) by (nonlinear_arith);
                }
                let idle: u128 = delta as u128 * always_free;
                if raw < idle {
                    0
                } else {
                    ((raw - idle) / (*li as u128)) as u64
                }
            },
        }
    }
}

/// A count times a length stays far enough below the range of `u128`.
proof fn lemma_product_fits(count: int, length: int)
    requires
        0 <= count <= u64::MAX,
        0 <= length <= u64::MAX,
    ensures
        0 <= count * length,
        count * length + length <= u128::MAX,
{
    assert(0 <= count * length && count * length + length <= 0xFFFF_FFFF_FFFF_FFFF
        * 0x1_0000_0000_0000_0000) by (nonlinear_arith)
        requires
            0 <= count <= 0xFFFF_FFFF_FFFF_FFFF,
            0 <= length <= 0xFFFF_FFFF_FFFF_FFFF,
    ;
}

} // verus!
