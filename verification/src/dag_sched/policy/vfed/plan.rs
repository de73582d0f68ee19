//! Planning one DAG: what its admission would take, without taking anything.

use vstd::prelude::*;
use vstd::std_specs::convert::FromSpecImpl;
use vstd::string::*;

use super::supply::{PassiveVp, PassiveVpKind, PassiveVpKindView, PassiveVpView};
use crate::dag_sched::metrics::{ceil_div, DagMetrics};
use crate::dag_sched::resource::ResourceError;
use crate::text::{append_decimal, decimal};

verus! {

/// Result of [`classify`].
#[derive(Debug, Clone, Copy, PartialEq, Eq, Structural)]
pub enum TaskClass {
    Light,
    Heavy { required_cores: u16 },
}

/// Why a DAG, or a batch of them, is not admitted.
#[derive(Debug, Clone, Copy, PartialEq, Eq, Structural)]
pub enum VFedError {
    /// The critical path alone exceeds the deadline, or it takes all of the
    /// deadline while there is parallel work left, or no core count suffices.
    Infeasible { critical_path: u64, relative_deadline: u64 },
    /// The deadline is longer than the period: only constrained deadlines are
    /// covered.
    ArbitraryDeadlineNotSupported { relative_deadline: u64, period: u64 },
    /// No combination of the available cores, passive VPs and partitions can
    /// schedule the DAG, or the whole batch.
    NoFeasibleAllocation,
    /// The core ledger could not satisfy a request.
    Resource(ResourceError),
}

impl From<ResourceError> for VFedError {
    fn from(error: ResourceError) -> (converted: Self) {
        VFedError::Resource(error)
    }
}

impl FromSpecImpl<ResourceError> for VFedError {
    open spec fn obeys_from_spec() -> bool {
        true
    }

    open spec fn from_spec(error: ResourceError) -> Self {
        VFedError::Resource(error)
    }
}

impl VFedError {
    /// The text of [`VFedError::debug_message`].
    pub open spec fn debug_text(self) -> Seq<char> {
        match self {
            VFedError::Infeasible { critical_path, relative_deadline } => {
                "Infeasible { critical_path: "@ + decimal(critical_path as nat)
                    + ", relative_deadline: "@ + decimal(relative_deadline as nat) + " }"@
            },
            VFedError::ArbitraryDeadlineNotSupported { relative_deadline, period } => {
                "ArbitraryDeadlineNotSupported { relative_deadline: "@ + decimal(
                    relative_deadline as nat,
                ) + ", period: "@ + decimal(period as nat) + " }"@
            },
            VFedError::NoFeasibleAllocation => "NoFeasibleAllocation"@,
            VFedError::Resource(error) => "Resource("@ + error.debug_text() + ")"@,
        }
    }

    /// The error as it is written in code.
    pub fn debug_message(&self) -> (text: String)
        ensures
            text@ == self.debug_text(),
    {
        match self {
            VFedError::Infeasible { critical_path, relative_deadline } => {
                let mut text = String::from_str("Infeasible { critical_path: ");
                append_decimal(&mut text, *critical_path);
                text.append(", relative_deadline: ");
                append_decimal(&mut text, *relative_deadline);
                text.append(" }");
                text
            },
            VFedError::ArbitraryDeadlineNotSupported { relative_deadline, period } => {
                let mut text = String::from_str(
                    "ArbitraryDeadlineNotSupported { relative_deadline: ",
                );
                append_decimal(&mut text, *relative_deadline);
                text.append(", period: ");
                append_decimal(&mut text, *period);
                text.append(" }");
                text
            },
            VFedError::NoFeasibleAllocation => String::from_str("NoFeasibleAllocation"),
            VFedError::Resource(error) => {
                let mut text = String::from_str("Resource(");
                let inner = error.debug_message();
                text.append(inner.as_str());
                text.append(")");
                text
            },
        }
    }
}

/// A DAG is heavy if its volume exceeds its relative deadline.
pub fn is_heavy(volume: u64, deadline: u64) -> (heavy: bool)
    ensures
        heavy == (volume > deadline),
{
    volume > deadline
}

/// The error of a DAG whose critical path leaves no room.
pub open spec fn infeasible(config: DagMetrics) -> VFedError {
    VFedError::Infeasible {
        critical_path: config.critical_path,
        relative_deadline: config.relative_deadline,
    }
}

/// [`classify`] as a function.
pub open spec fn class_of(config: DagMetrics) -> Result<TaskClass, VFedError> {
    if config.relative_deadline > config.period {
        Err(
            VFedError::ArbitraryDeadlineNotSupported {
                relative_deadline: config.relative_deadline,
                period: config.period,
            },
        )
    } else if config.relative_deadline < config.critical_path {
        Err(infeasible(config))
    } else if config.volume <= config.relative_deadline {
        Ok(TaskClass::Light)
    } else {
        match config.spec_min_dedicated_cores() {
            None => Err(infeasible(config)),
            Some(required_cores) => Ok(TaskClass::Heavy { required_cores }),
        }
    }
}

/// Classifies a DAG. Claims nothing.
pub fn classify(config: &DagMetrics) -> (class: Result<TaskClass, VFedError>)
    ensures
        class == class_of(*config),
{
    if config.relative_deadline > config.period {
        return Err(
            VFedError::ArbitraryDeadlineNotSupported {
                relative_deadline: config.relative_deadline,
                period: config.period,
            },
        );
    }
    if config.relative_deadline < config.critical_path {
        return Err(
            VFedError::Infeasible {
                critical_path: config.critical_path,
                relative_deadline: config.relative_deadline,
            },
        );
    }
    if !is_heavy(config.volume, config.relative_deadline) {
        return Ok(TaskClass::Light);
    }
    match config.min_dedicated_cores() {
        None => Err(
            VFedError::Infeasible {
                critical_path: config.critical_path,
                relative_deadline: config.relative_deadline,
            },
        ),
        Some(required_cores) => Ok(TaskClass::Heavy { required_cores }),
    }
}

/// A heavy DAG needs at least two cores.
pub proof fn lemma_heavy_needs_two_cores(config: DagMetrics)
    requires
        class_of(config) matches Ok(TaskClass::Heavy { .. }),
    ensures
        class_of(config)->Ok_0->required_cores >= 2,
        config.critical_path < config.relative_deadline < config.volume,
{
    let slack = config.relative_deadline - config.critical_path;
    let work = config.volume - config.critical_path;
    lemma_ceil_div(work, slack);
    if ceil_div(work, slack) <= 1 {
        assert(ceil_div(work, slack) * slack <= slack) by (nonlinear_arith)
            requires
                ceil_div(work, slack) <= 1,
                slack > 0,
        ;
    }
}

/// Rounding up gives the least multiple that reaches the dividend.
pub proof fn lemma_ceil_div(a: int, b: int)
    requires
        0 <= a,
        0 < b,
    ensures
        (ceil_div(a, b) - 1) * b < a <= ceil_div(a, b) * b,
        0 <= ceil_div(a, b),
{
    assert(a == (a / b) * b + a % b && 0 <= a % b < b && 0 <= a / b) by (nonlinear_arith)
        requires
            0 <= a,
            0 < b,
    ;
    let q = a / b;
    assert((q + 1) * b == q * b + b && (q - 1) * b == q * b - b) by (nonlinear_arith);
}

/// The budgets of a full group of active VPs: the leading one may run for the
/// whole deadline, each other one for the slack, and the last one only for what is
/// then left of the volume.
pub open spec fn full_budgets(volume: int, critical_path: int, deadline: int, cores: int) -> Seq<u64> {
    Seq::new(
        cores as nat,
        |i: int|
            if i == 0 {
                deadline as u64
            } else if i < cores - 1 {
                (deadline - critical_path) as u64
            } else {
                (volume - deadline - (cores - 2) * (deadline - critical_path)) as u64
            },
    )
}

/// The budgets of a partial group: each VP gets the most it may have.
pub open spec fn partial_budgets(critical_path: int, deadline: int, cores: int) -> Seq<u64> {
    Seq::new(
        cores as nat,
        |i: int|
            if i == 0 {
                deadline as u64
            } else {
                (deadline - critical_path) as u64
            },
    )
}

/// The sum of budgets.
pub open spec fn sum(budgets: Seq<u64>) -> int
    decreases budgets.len(),
{
    if budgets.len() == 0 {
        0
    } else {
        sum(budgets.drop_last()) + budgets.last()
    }
}

/// A leading budget followed by equal ones.
pub proof fn lemma_sum_of_equal_tail(budgets: Seq<u64>, first: int, rest: int)
    requires
        budgets.len() >= 1,
        budgets[0] == first,
        forall|i: int| 0 < i < budgets.len() ==> #[trigger] budgets[i] == rest,
    ensures
        sum(budgets) == first + (budgets.len() - 1) * rest,
    decreases budgets.len(),
{
    if budgets.len() == 1 {
        assert(budgets.drop_last() =~= Seq::<u64>::empty());
        assert(sum(budgets.drop_last()) == 0);
        assert(0 * rest == 0);
    } else {
        lemma_sum_of_equal_tail(budgets.drop_last(), first, rest);
        let n = budgets.len();
        assert((n - 1) * rest == (n - 2) * rest + rest) by (nonlinear_arith);
    }
}

/// How many cores a full group has, and what its last VP is left with.
pub proof fn lemma_full_group(config: DagMetrics, cores: int)
    requires
        config.spec_min_dedicated_cores() == Some(cores as u16),
        1 <= cores <= u16::MAX,
        cores >= 2,
    ensures
        config.critical_path < config.relative_deadline < config.volume,
        ({
            let slack = config.relative_deadline - config.critical_path;
            let last = config.volume - config.relative_deadline - (cores - 2) * slack;
            &&& 0 < last <= slack
            &&& ceil_div(config.volume - config.relative_deadline, slack) == cores - 1
        }),
{
    let slack = config.relative_deadline - config.critical_path;
    let work = config.volume - config.critical_path;
    if config.volume <= config.critical_path {
        assert(0int % slack == 0 && 0int / slack == 0) by (nonlinear_arith)
            requires
                slack > 0,
        ;
    }
    assert(cores == config.dedicated_cores());
    assert(cores == ceil_div(work, slack));
    lemma_ceil_div(work, slack);
    assert((cores - 1) * slack == (cores - 2) * slack + slack && cores * slack == (cores - 1)
        * slack + slack) by (nonlinear_arith);
    let rest = config.volume - config.relative_deadline;
    assert(rest == work - slack);
    assert(config.volume > config.relative_deadline) by {
        if rest <= 0 {
            assert((cores - 1) * slack >= slack) by (nonlinear_arith)
                requires
                    cores >= 2,
                    slack > 0,
            ;
        }
    }
    lemma_ceil_div(rest, slack);
    let c = ceil_div(rest, slack);
    assert(c == cores - 1) by (nonlinear_arith)
        requires
            (c - 1) * slack < rest <= c * slack,
            (cores - 2) * slack < rest <= (cores - 1) * slack,
            slack > 0,
    ;
}

/// Builds the budgets of a full group of active VPs; they add up to the volume.
pub fn full_active_vp_budgets(volume: u64, critical_path: u64, deadline: u64, cores: u16) -> (budgets:
    Vec<u64>)
    requires
        cores >= 1,
        cores > 1 ==> critical_path < deadline < volume && ceil_div(
            volume - deadline,
            deadline - critical_path,
        ) == cores - 1,
    ensures
        budgets@ == full_budgets(
            volume as int,
            critical_path as int,
            deadline as int,
            cores as int,
        ),
{
    let mut budgets: Vec<u64> = Vec::new();
    budgets.push(deadline);
    if cores == 1 {
        assert(budgets@ =~= full_budgets(
            volume as int,
            critical_path as int,
            deadline as int,
            cores as int,
        ));
        return budgets;
    }
    let slack: u64 = deadline - critical_path;
    let rest: u64 = volume - deadline;
    let full: u64 = rest / slack;
    proof {
        lemma_ceil_div(rest as int, slack as int);
        assert(rest == (rest as int / slack as int) * slack + rest as int % slack as int && 0
            <= rest as int % slack as int) by (nonlinear_arith)
            requires
                slack > 0,
                rest >= 0,
        ;
    }
    let remainder: u64 = rest % slack;
    let mut i: u64 = 0;
    while i < full
        invariant
            i <= full,
            budgets@.len() == i + 1,
            budgets@[0] == deadline,
            forall|k: int| 0 < k < budgets@.len() ==> #[trigger] budgets@[k] == slack,
        decreases full - i,
    {
        budgets.push(slack);
        i = i + 1;
    }
    if remainder > 0 {
        budgets.push(remainder);
    }
    proof {
        let f = full as int;
        assert((f - 1) * slack == f * slack - slack) by (nonlinear_arith);
        assert(budgets@ =~= full_budgets(
            volume as int,
            critical_path as int,
            deadline as int,
            cores as int,
        ));
    }
    budgets
}

/// Builds the budgets of a partial group of active VPs.
pub fn partial_active_vp_budgets(critical_path: u64, deadline: u64, cores: u16) -> (budgets: Vec<u64>)
    requires
        cores >= 1,
        critical_path <= deadline,
    ensures
        budgets@ == partial_budgets(critical_path as int, deadline as int, cores as int),
{
    let mut budgets: Vec<u64> = Vec::new();
    budgets.push(deadline);
    let mut i: u16 = 1;
    while i < cores
        invariant
            1 <= i <= cores,
            critical_path <= deadline,
            budgets@ == partial_budgets(critical_path as int, deadline as int, i as int),
        decreases cores - i,
    {
        budgets.push(deadline - critical_path);
        i = i + 1;
        assert(budgets@ =~= partial_budgets(critical_path as int, deadline as int, i as int));
    }
    budgets
}

/// What a passive VP supplies within `deadline` beyond a consumer's critical path.
pub open spec fn surplus(vp: PassiveVpView, critical_path: int, deadline: int) -> int {
    if vp.supply(deadline) > critical_path {
        vp.supply(deadline) - critical_path
    } else {
        0
    }
}

/// The sum of what several passive VPs supply beyond the critical path.
pub open spec fn total_surplus(vps: Seq<PassiveVpView>, critical_path: int, deadline: int) -> int
    decreases vps.len(),
{
    if vps.len() == 0 {
        0
    } else {
        total_surplus(vps.drop_last(), critical_path, deadline) + surplus(
            vps.last(),
            critical_path,
            deadline,
        )
    }
}

/// The schedulability condition: the volume is covered by the budgets of the
/// active VPs and by what the passive VPs supply beyond the critical path.
pub open spec fn schedulable(
    config: DagMetrics,
    active_budget_sum: int,
    passives: Seq<PassiveVpView>,
) -> bool {
    config.volume <= active_budget_sum + total_surplus(
        passives,
        config.critical_path as int,
        config.relative_deadline as int,
    )
}

/// Whether a passive VP is worth taking.
pub open spec fn is_useful(vp: PassiveVpView, critical_path: int, deadline: int) -> bool {
    vp.supply(deadline) > critical_path
}

/// The indices below `n` of the passive VPs worth taking, ascending.
pub open spec fn useful_below(
    pool: Seq<PassiveVpView>,
    critical_path: int,
    deadline: int,
    n: int,
) -> Seq<usize>
    decreases n,
{
    if n <= 0 {
        Seq::empty()
    } else {
        let rest = useful_below(pool, critical_path, deadline, n - 1);
        if is_useful(pool[n - 1], critical_path, deadline) {
            rest.push((n - 1) as usize)
        } else {
            rest
        }
    }
}

/// Starting from the pool's entry `n`: the useful entries up to the first one with
/// which the volume is covered, or nothing if the pool runs out before that.
pub open spec fn pull_from(
    volume: int,
    critical_path: int,
    deadline: int,
    active_sum: int,
    pool: Seq<PassiveVpView>,
    n: int,
) -> Option<Seq<usize>>
    decreases pool.len() - n,
{
    if n >= pool.len() {
        None
    } else if is_useful(pool[n], critical_path, deadline) && volume <= active_sum + total_surplus(
        pool.take(n + 1),
        critical_path,
        deadline,
    ) {
        Some(useful_below(pool, critical_path, deadline, n + 1))
    } else {
        pull_from(volume, critical_path, deadline, active_sum, pool, n + 1)
    }
}

/// Which passive VPs of the pool a DAG takes on top of the given active budgets.
pub open spec fn pulled(config: DagMetrics, active_sum: int, pool: Seq<PassiveVpView>) -> Option<
    Seq<usize>,
> {
    pull_from(
        config.volume as int,
        config.critical_path as int,
        config.relative_deadline as int,
        active_sum,
        pool,
        0,
    )
}

/// Every entry of a pool is well formed.
pub open spec fn pool_wf(pool: Seq<PassiveVpView>) -> bool {
    forall|i: int| 0 <= i < pool.len() ==> (#[trigger] pool[i]).wf()
}

/// The views of the elements of a slice of passive VPs.
pub open spec fn vps_view(vps: Seq<PassiveVp>) -> Seq<PassiveVpView> {
    Seq::new(vps.len(), |i: int| vps[i]@)
}

/// The schedulability condition on the two sums.
pub fn mixed_schedulable(volume: u64, active_budget_sum: u64, passive_supply: u64) -> (covered: bool)
    ensures
        covered == (volume <= active_budget_sum + passive_supply),
{
    volume <= active_budget_sum.saturating_add(passive_supply)
}

/// Whether a passive VP is worth taking for a task with the given critical path
/// and relative deadline.
pub fn passive_vp_is_useful(vp: &PassiveVp, critical_path: u64, deadline: u64) -> (useful: bool)
    requires
        vp@.wf(),
    ensures
        useful == is_useful(vp@, critical_path as int, deadline as int),
{
    vp.sbf(deadline) > critical_path
}

/// Takes passive VPs in the pool's order, each that is useful, until the volume is
/// covered; fails if the pool runs out first. At least one is taken.
pub fn pull_passives_until_schedulable(
    volume: u64,
    critical_path: u64,
    deadline: u64,
    active_sum: u64,
    pool: &[PassiveVp],
) -> (result: Result<Vec<usize>, VFedError>)
    requires
        pool_wf(vps_view(pool@)),
    ensures
        match pull_from(
            volume as int,
            critical_path as int,
            deadline as int,
            active_sum as int,
            vps_view(pool@),
            0,
        ) {
            Some(indices) => result matches Ok(r) && r@ == indices,
            None => result == Err::<Vec<usize>, VFedError>(VFedError::NoFeasibleAllocation),
        },
{
    let ghost vps = vps_view(pool@);
    let ghost cp = critical_path as int;
    let ghost d = deadline as int;
    let mut used: Vec<usize> = Vec::new();
    let mut supply: u64 = 0;
    let mut i: usize = 0;
    assert(vps.take(0) =~= Seq::<PassiveVpView>::empty());
    while i < pool.len()
        invariant
            i <= pool@.len(),
            vps == vps_view(pool@),
            cp == critical_path,
            d == deadline,
            pool_wf(vps),
            used@ == useful_below(vps, cp, d, i as int),
            supply == total_surplus(vps.take(i as int), cp, d),
            used@.len() == 0 ==> supply == 0,
            used@.len() > 0 ==> active_sum + supply < volume,
            pull_from(volume as int, cp, d, active_sum as int, vps, 0) == pull_from(
                volume as int,
                cp,
                d,
                active_sum as int,
                vps,
                i as int,
            ),
        decreases pool@.len() - i,
    {
        assert(vps[i as int] == pool@[i as int]@);
        assert(vps.take(i + 1).drop_last() =~= vps.take(i as int));
        assert(vps.take(i + 1).last() == vps[i as int]);
        let vp = &pool[i];
        if passive_vp_is_useful(vp, critical_path, deadline) {
            used.push(i);
            let gain: u64 = vp.sbf(deadline) - critical_path;
            // A sum beyond the range of `u64` covers any volume.
            let covered: bool = match supply.checked_add(gain) {
                None => true,
                Some(more) => {
                    supply = more;
                    mixed_schedulable(volume, active_sum, more)
                },
            };
            if covered {
                return Ok(used);
            }
        }
        i = i + 1;
    }
    Err(VFedError::NoFeasibleAllocation)
}

/// Pure planning result for a heavy DAG: how many cores its active VPs claim,
/// their budgets in the order of the cores, and which entries of the pool it
/// takes on top.
#[derive(Debug, Clone, PartialEq, Eq)]
pub struct HeavyPlan {
    pub cores_used: u16,
    pub active_budgets: Vec<u64>,
    pub passive_indices: Vec<usize>,
}

/// The mathematical value of a [`HeavyPlan`].
#[verifier::ext_equal]
pub struct HeavyPlanView {
    pub cores_used: u16,
    pub active_budgets: Seq<u64>,
    pub passive_indices: Seq<usize>,
}

impl View for HeavyPlan {
    type V = HeavyPlanView;

    open spec fn view(&self) -> HeavyPlanView {
        HeavyPlanView {
            cores_used: self.cores_used,
            active_budgets: self.active_budgets@,
            passive_indices: self.passive_indices@,
        }
    }
}

/// [`plan_heavy`] as a function.
///
/// With enough cores the DAG gets a full group of active VPs and no passive VP;
/// otherwise every available core and the passive VPs that make up the rest.
pub open spec fn heavy_plan(config: DagMetrics, cores_available: u16, pool: Seq<PassiveVpView>) -> Result<
    HeavyPlanView,
    VFedError,
> {
    match config.spec_min_dedicated_cores() {
        None => Err(infeasible(config)),
        Some(required) => {
            if cores_available >= required {
                Ok(
                    HeavyPlanView {
                        cores_used: required,
                        active_budgets: full_budgets(
                            config.volume as int,
                            config.critical_path as int,
                            config.relative_deadline as int,
                            required as int,
                        ),
                        passive_indices: Seq::empty(),
                    },
                )
            } else {
                let budgets = partial_budgets(
                    config.critical_path as int,
                    config.relative_deadline as int,
                    cores_available as int,
                );
                match pulled(config, sum(budgets), pool) {
                    None => Err(VFedError::NoFeasibleAllocation),
                    Some(indices) => Ok(
                        HeavyPlanView {
                            cores_used: cores_available,
                            active_budgets: budgets,
                            passive_indices: indices,
                        },
                    ),
                }
            }
        },
    }
}

/// A partial group's budgets never cover the volume by themselves.
proof fn lemma_partial_group_falls_short(config: DagMetrics, cores: int)
    requires
        config.critical_path < config.relative_deadline,
        1 <= cores < config.dedicated_cores(),
    ensures
        sum(
            partial_budgets(
                config.critical_path as int,
                config.relative_deadline as int,
                cores,
            ),
        ) == config.relative_deadline + (cores - 1) * (config.relative_deadline
            - config.critical_path),
        config.relative_deadline + (cores - 1) * (config.relative_deadline - config.critical_path)
            < config.volume,
{
    let slack = config.relative_deadline - config.critical_path;
    let work = config.volume - config.critical_path;
    if config.volume <= config.critical_path {
        assert(0int % slack == 0 && 0int / slack == 0) by (nonlinear_arith)
            requires
                slack > 0,
        ;
    }
    let c = ceil_div(work, slack);
    lemma_ceil_div(work, slack);
    assert(cores * slack <= (c - 1) * slack) by (nonlinear_arith)
        requires
            cores <= c - 1,
            slack > 0,
    ;
    assert((cores - 1) * slack == cores * slack - slack) by (nonlinear_arith);
    lemma_sum_of_equal_tail(
        partial_budgets(config.critical_path as int, config.relative_deadline as int, cores),
        config.relative_deadline as int,
        slack,
    );
}

/// Plans a heavy DAG's admission against `cores_available` free cores and the
/// current pool of passive VPs. Changes nothing.
pub fn plan_heavy(config: &DagMetrics, cores_available: u16, pool: &[PassiveVp]) -> (result: Result<
    HeavyPlan,
    VFedError,
>)
    requires
        pool_wf(vps_view(pool@)),
    ensures
        match heavy_plan(*config, cores_available, vps_view(pool@)) {
            Ok(plan) => result matches Ok(r) && r@ == plan,
            Err(error) => result == Err::<HeavyPlan, VFedError>(error),
        },
{
    let required: u16 = match config.min_dedicated_cores() {
        None => {
            return Err(
                VFedError::Infeasible {
                    critical_path: config.critical_path,
                    relative_deadline: config.relative_deadline,
                },
            );
        },
        Some(required) => required,
    };
    if cores_available >= required {
        proof {
            if required >= 2 {
                lemma_full_group(*config, required as int);
            }
        }
        let active_budgets = full_active_vp_budgets(
            config.volume,
            config.critical_path,
            config.relative_deadline,
            required,
        );
        return Ok(
            HeavyPlan { cores_used: required, active_budgets, passive_indices: Vec::new() },
        );
    }
    let mut active_budgets: Vec<u64> = Vec::new();
    let mut active_sum: u64 = 0;
    if cores_available == 0 {
        assert(active_budgets@ =~= partial_budgets(
            config.critical_path as int,
            config.relative_deadline as int,
            0,
        ));
    } else {
        proof {
            lemma_partial_group_falls_short(*config, cores_available as int);
            let n = cores_available - 1;
            let slack = config.relative_deadline - config.critical_path;
            assert(0 <= n * slack) by (nonlinear_arith)
                requires
                    0 <= n,
                    0 <= slack,
            ;
        }
        active_sum = config.relative_deadline + (cores_available - 1) as u64 * (
        config.relative_deadline - config.critical_path);
        active_budgets =
        partial_active_vp_budgets(config.critical_path, config.relative_deadline, cores_available);
    }
    match pull_passives_until_schedulable(
        config.volume,
        config.critical_path,
        config.relative_deadline,
        active_sum,
        pool,
    ) {
        Err(error) => Err(error),
        Ok(passive_indices) => Ok(
            HeavyPlan { cores_used: cores_available, active_budgets, passive_indices },
        ),
    }
}

/// Plans a light DAG from passive VPs alone.
pub fn plan_light(config: &DagMetrics, pool: &[PassiveVp]) -> (result: Result<
    Vec<usize>,
    VFedError,
>)
    requires
        pool_wf(vps_view(pool@)),
    ensures
        match pulled(*config, 0, vps_view(pool@)) {
            Some(indices) => result matches Ok(r) && r@ == indices,
            None => result == Err::<Vec<usize>, VFedError>(VFedError::NoFeasibleAllocation),
        },
{
    pull_passives_until_schedulable(
        config.volume,
        config.critical_path,
        config.relative_deadline,
        0,
        pool,
    )
}

/// The entries of a pool that `indices` name, in that order.
pub open spec fn select(pool: Seq<PassiveVpView>, indices: Seq<usize>) -> Seq<PassiveVpView> {
    Seq::new(indices.len(), |k: int| pool[indices[k] as int])
}

/// Indices into a sequence of length `len`, strictly ascending.
pub open spec fn ascending_below(indices: Seq<usize>, len: int) -> bool {
    &&& forall|k: int| 0 <= k < indices.len() ==> (#[trigger] indices[k]) < len
    &&& forall|j: int, k: int| 0 <= j < k < indices.len() ==> indices[j] < indices[k]
}

/// The useful entries among the first `n` are listed once each, ascending, and
/// supply what all of the first `n` supply.
pub proof fn lemma_useful_below(pool: Seq<PassiveVpView>, critical_path: int, deadline: int, n: int)
    requires
        0 <= n <= pool.len() <= usize::MAX,
    ensures
        ascending_below(useful_below(pool, critical_path, deadline, n), n),
        forall|k: int|
            0 <= k < useful_below(pool, critical_path, deadline, n).len() ==> is_useful(
                pool[#[trigger] useful_below(pool, critical_path, deadline, n)[k] as int],
                critical_path,
                deadline,
            ),
        forall|i: int|
            0 <= i < n && is_useful(#[trigger] pool[i], critical_path, deadline) ==> useful_below(
                pool,
                critical_path,
                deadline,
                n,
            ).contains(i as usize),
        total_surplus(
            select(pool, useful_below(pool, critical_path, deadline, n)),
            critical_path,
            deadline,
        ) == total_surplus(pool.take(n), critical_path, deadline),
    decreases n,
{
    let all = useful_below(pool, critical_path, deadline, n);
    if n > 0 {
        lemma_useful_below(pool, critical_path, deadline, n - 1);
        let rest = useful_below(pool, critical_path, deadline, n - 1);
        assert(pool.take(n).drop_last() =~= pool.take(n - 1));
        if is_useful(pool[n - 1], critical_path, deadline) {
            assert(select(pool, all).drop_last() =~= select(pool, rest));
            assert(select(pool, all).last() == pool[n - 1]);
            assert(all[all.len() - 1] == n - 1);
        }
        assert forall|i: int|
            0 <= i < n && is_useful(
                #[trigger] pool[i],
                critical_path,
                deadline,
            ) implies all.contains(i as usize) by {
            if i < n - 1 {
                let k = choose|k: int| 0 <= k < rest.len() && rest[k] == i;
                assert(all[k] == i);
            }
        }
    } else {
        assert(select(pool, all) =~= Seq::<PassiveVpView>::empty());
        assert(pool.take(0) =~= Seq::<PassiveVpView>::empty());
    }
}

pub proof fn lemma_total_surplus_grows(
    pool: Seq<PassiveVpView>,
    critical_path: int,
    deadline: int,
    low: int,
    high: int,
)
    requires
        0 <= low <= high <= pool.len(),
    ensures
        0 <= total_surplus(pool.take(low), critical_path, deadline) <= total_surplus(
            pool.take(high),
            critical_path,
            deadline,
        ),
    decreases high,
{
    if high > 0 {
        assert(pool.take(high).drop_last() =~= pool.take(high - 1));
        if low < high {
            lemma_total_surplus_grows(pool, critical_path, deadline, low, high - 1);
        } else {
            lemma_total_surplus_grows(pool, critical_path, deadline, low - 1, high - 1);
        }
    } else {
        assert(pool.take(0) =~= Seq::<PassiveVpView>::empty());
    }
}

proof fn lemma_pull_from(
    volume: int,
    critical_path: int,
    deadline: int,
    active_sum: int,
    pool: Seq<PassiveVpView>,
    n: int,
)
    requires
        0 <= n <= pool.len() <= usize::MAX,
        useful_below(pool, critical_path, deadline, n).len() > 0 ==> active_sum + total_surplus(
            pool.take(n),
            critical_path,
            deadline,
        ) < volume,
    ensures
        match pull_from(volume, critical_path, deadline, active_sum, pool, n) {
            Some(indices) => {
                &&& indices.len() > 0
                &&& ascending_below(indices, pool.len() as int)
                &&& indices == useful_below(pool, critical_path, deadline, indices.last() + 1)
                &&& volume <= active_sum + total_surplus(
                    select(pool, indices),
                    critical_path,
                    deadline,
                )
                &&& indices.len() > 1 ==> active_sum + total_surplus(
                    select(pool, indices.drop_last()),
                    critical_path,
                    deadline,
                ) < volume
            },
            None => {
                ||| forall|i: int|
                    0 <= i < pool.len() ==> !is_useful(#[trigger] pool[i], critical_path, deadline)
                ||| active_sum + total_surplus(pool, critical_path, deadline) < volume
            },
        },
    decreases pool.len() - n,
{
    lemma_useful_below(pool, critical_path, deadline, n);
    if n >= pool.len() {
        assert(pool.take(n) =~= pool);
        let all = useful_below(pool, critical_path, deadline, n);
        if all.len() == 0 {
            assert forall|i: int| 0 <= i < pool.len() implies !is_useful(
                #[trigger] pool[i],
                critical_path,
                deadline,
            ) by {
                if is_useful(pool[i], critical_path, deadline) {
                    assert(all.contains(i as usize));
                }
            }
        }
    } else {
        lemma_useful_below(pool, critical_path, deadline, n + 1);
        assert(pool.take(n + 1).drop_last() =~= pool.take(n));
        let longer = useful_below(pool, critical_path, deadline, n + 1);
        let shorter = useful_below(pool, critical_path, deadline, n);
        if is_useful(pool[n], critical_path, deadline) {
            assert(longer.drop_last() =~= shorter);
            if volume > active_sum + total_surplus(pool.take(n + 1), critical_path, deadline) {
                lemma_pull_from(volume, critical_path, deadline, active_sum, pool, n + 1);
            }
        } else {
            lemma_pull_from(volume, critical_path, deadline, active_sum, pool, n + 1);
        }
    }
}

/// What the selection of passive VPs guarantees: it takes the useful entries in the
/// pool's order, together they cover the volume, and without the last of them they
/// would not. It fails only if no entry is useful or all of them do not suffice.
pub proof fn lemma_pulled(config: DagMetrics, active_sum: int, pool: Seq<PassiveVpView>)
    requires
        pool.len() <= usize::MAX,
    ensures
        match pulled(config, active_sum, pool) {
            Some(indices) => {
                &&& indices.len() > 0
                &&& ascending_below(indices, pool.len() as int)
                &&& indices == useful_below(
                    pool,
                    config.critical_path as int,
                    config.relative_deadline as int,
                    indices.last() + 1,
                )
                &&& schedulable(config, active_sum, select(pool, indices))
                &&& indices.len() > 1 ==> !schedulable(
                    config,
                    active_sum,
                    select(pool, indices.drop_last()),
                )
            },
            None => {
                ||| forall|i: int|
                    0 <= i < pool.len() ==> !is_useful(
                        #[trigger] pool[i],
                        config.critical_path as int,
                        config.relative_deadline as int,
                    )
                ||| !schedulable(config, active_sum, pool)
            },
        },
{
    lemma_pull_from(
        config.volume as int,
        config.critical_path as int,
        config.relative_deadline as int,
        active_sum,
        pool,
        0,
    );
}

/// A full group's budgets add up to the volume.
pub proof fn lemma_full_budgets_add_up(config: DagMetrics)
    requires
        config.spec_min_dedicated_cores() matches Some(cores) && cores >= 2,
    ensures
        sum(
            full_budgets(
                config.volume as int,
                config.critical_path as int,
                config.relative_deadline as int,
                config.spec_min_dedicated_cores()->0 as int,
            ),
        ) == config.volume,
{
    let cores = config.spec_min_dedicated_cores()->0 as int;
    lemma_full_group(config, cores);
    let slack = config.relative_deadline - config.critical_path;
    let budgets = full_budgets(
        config.volume as int,
        config.critical_path as int,
        config.relative_deadline as int,
        cores,
    );
    lemma_sum_of_equal_tail(budgets.drop_last(), config.relative_deadline as int, slack);
    assert(budgets.last() == config.volume - config.relative_deadline - (cores - 2) * slack);
}

/// What a heavy plan that succeeds guarantees: one budget per core and no more
/// cores than there are, budgets within the deadline, passive VPs that exist, and
/// the schedulability condition.
pub proof fn lemma_heavy_plan_is_schedulable(
    config: DagMetrics,
    cores_available: u16,
    pool: Seq<PassiveVpView>,
)
    requires
        heavy_plan(config, cores_available, pool) is Ok,
        pool.len() <= usize::MAX,
    ensures
        ({
            let plan = heavy_plan(config, cores_available, pool)->Ok_0;
            &&& plan.active_budgets.len() == plan.cores_used <= cores_available
            &&& ascending_below(plan.passive_indices, pool.len() as int)
            &&& schedulable(
                config,
                sum(plan.active_budgets),
                select(pool, plan.passive_indices),
            )
            &&& forall|i: int|
                0 <= i < plan.active_budgets.len() ==> #[trigger] plan.active_budgets[i]
                    <= config.relative_deadline
            &&& config.critical_path < config.relative_deadline
        }),
{
    let required = config.spec_min_dedicated_cores()->0;
    let plan = heavy_plan(config, cores_available, pool)->Ok_0;
    let slack = config.relative_deadline - config.critical_path;
    if cores_available >= required {
        if required >= 2 {
            lemma_full_budgets_add_up(config);
            lemma_full_group(config, required as int);
        } else {
            lemma_sum_of_equal_tail(plan.active_budgets, config.relative_deadline as int, 0);
            if config.volume > config.critical_path {
                let c = ceil_div(config.volume - config.critical_path, slack);
                lemma_ceil_div(config.volume - config.critical_path, slack);
                assert(c * slack <= slack) by (nonlinear_arith)
                    requires
                        c <= 1,
                        slack > 0,
                ;
            }
            assert(0 * 0 == 0);
        }
        assert(total_surplus(
            select(pool, plan.passive_indices),
            config.critical_path as int,
            config.relative_deadline as int,
        ) == 0);
    } else {
        lemma_pulled(config, sum(plan.active_budgets), pool);
    }
}

/// The passive VPs beside a group of active VPs.
///
/// Where the owning DAG's parallelism is lower than the number of active VPs, that
/// many of them can never be used at once: the difference is always free, and the
/// rest share what the group leaves over.
pub open spec fn generated(
    budgets: Seq<u64>,
    cpus: Seq<usize>,
    period: u64,
    deadline: u64,
    max_parallelism: u16,
) -> Seq<PassiveVpView> {
    Seq::new(
        budgets.len(),
        |i: int|
            PassiveVpView {
                cpu: cpus[i],
                kind: if max_parallelism < budgets.len() {
                    if i < budgets.len() - max_parallelism {
                        PassiveVpKindView::AlwaysFree
                    } else {
                        PassiveVpKindView::Shared {
                            budgets,
                            owner_period: period,
                            owner_deadline: deadline,
                            li: max_parallelism,
                        }
                    }
                } else {
                    PassiveVpKindView::Independent {
                        active_budget: budgets[i],
                        owner_period: period,
                        owner_deadline: deadline,
                    }
                },
            },
    )
}

/// The passive VPs of a well-formed group are well formed.
pub proof fn lemma_generated_wf(
    budgets: Seq<u64>,
    cpus: Seq<usize>,
    period: u64,
    deadline: u64,
    max_parallelism: u16,
)
    requires
        0 < period,
        deadline <= period,
        forall|i: int| 0 <= i < budgets.len() ==> #[trigger] budgets[i] <= deadline,
    ensures
        pool_wf(generated(budgets, cpus, period, deadline, max_parallelism)),
{
}

fn copy_budgets(budgets: &[u64]) -> (copy: Vec<u64>)
    ensures
        copy@ == budgets@,
{
    let mut copy: Vec<u64> = Vec::new();
    let mut i: usize = 0;
    while i < budgets.len()
        invariant
            i <= budgets@.len(),
            copy@ == budgets@.take(i as int),
        decreases budgets@.len() - i,
    {
        copy.push(budgets[i]);
        i = i + 1;
        assert(copy@ =~= budgets@.take(i as int));
    }
    assert(copy@ =~= budgets@);
    copy
}

/// Turns a group's active-VP budgets into the passive VPs on the same cores.
pub fn generate_passive_vps(
    budgets: &[u64],
    cpus: &[usize],
    period: u64,
    deadline: u64,
    max_parallelism: u16,
) -> (vps: Vec<PassiveVp>)
    requires
        budgets@.len() == cpus@.len() <= u16::MAX,
    ensures
        vps_view(vps@) == generated(budgets@, cpus@, period, deadline, max_parallelism),
{
    let mi: u16 = budgets.len() as u16;
    let mut vps: Vec<PassiveVp> = Vec::new();
    let mut i: usize = 0;
    while i < budgets.len()
        invariant
            i <= budgets@.len(),
            budgets@.len() == cpus@.len() == mi,
            vps_view(vps@) == generated(
                budgets@,
                cpus@,
                period,
                deadline,
                max_parallelism,
            ).take(i as int),
        decreases budgets@.len() - i,
    {
        let kind = if max_parallelism < mi {
            if i < (mi - max_parallelism) as usize {
                PassiveVpKind::AlwaysFree
            } else {
                PassiveVpKind::Shared {
                    budgets: copy_budgets(budgets),
                    owner_period: period,
                    owner_deadline: deadline,
                    li: max_parallelism,
                }
            }
        } else {
            PassiveVpKind::Independent {
                active_budget: budgets[i],
                owner_period: period,
                owner_deadline: deadline,
            }
        };
        let ghost before = vps@;
        vps.push(PassiveVp { cpu: cpus[i], kind });
        proof {
            let all = generated(budgets@, cpus@, period, deadline, max_parallelism);
            assert(vps@.last()@ =~= all[i as int]);
            assert(vps_view(vps@) =~= vps_view(before).push(all[i as int]));
            assert(all.take(i + 1) =~= all.take(i as int).push(all[i as int]));
        }
        i = i + 1;
    }
    proof {
        let all = generated(budgets@, cpus@, period, deadline, max_parallelism);
        assert(all.take(i as int) =~= all);
    }
    vps
}

/// What is left of a pool once the entries at `indices`, ascending, are taken out.
pub open spec fn without_indices<T>(pool: Seq<T>, indices: Seq<usize>) -> Seq<T>
    decreases indices.len(),
{
    if indices.len() == 0 {
        pool
    } else {
        without_indices(pool.remove(indices.last() as int), indices.drop_last())
    }
}

/// Taking one entry out of a pool, seen through the views.
proof fn lemma_remove_view(pool: Seq<PassiveVp>, i: int)
    requires
        0 <= i < pool.len(),
    ensures
        vps_view(pool.remove(i)) == vps_view(pool).remove(i),
{
    assert(vps_view(pool.remove(i)) =~= vps_view(pool).remove(i));
}

/// How many entries are left.
pub proof fn lemma_without_indices_len<T>(pool: Seq<T>, indices: Seq<usize>)
    requires
        ascending_below(indices, pool.len() as int),
    ensures
        without_indices(pool, indices).len() == pool.len() - indices.len(),
    decreases indices.len(),
{
    if indices.len() > 0 {
        let rest = indices.drop_last();
        assert forall|k: int| 0 <= k < rest.len() implies (#[trigger] rest[k]) < pool.len() - 1 by {
            assert(rest[k] == indices[k]);
            assert(indices[k] < indices[indices.len() - 1]);
        }
        lemma_without_indices_len(pool.remove(indices.last() as int), rest);
    }
}

/// Every entry that is left was in the pool.
pub proof fn lemma_without_indices_members<T>(pool: Seq<T>, indices: Seq<usize>, i: int)
    requires
        ascending_below(indices, pool.len() as int),
        0 <= i < without_indices(pool, indices).len(),
    ensures
        pool.contains(without_indices(pool, indices)[i]),
    decreases indices.len(),
{
    if indices.len() > 0 {
        let rest = indices.drop_last();
        let smaller = pool.remove(indices.last() as int);
        assert forall|k: int| 0 <= k < rest.len() implies (#[trigger] rest[k])
            < smaller.len() by {
            assert(rest[k] == indices[k]);
            assert(indices[k] < indices[indices.len() - 1]);
        }
        lemma_without_indices_members(smaller, rest, i);
        let x = without_indices(pool, indices)[i];
        let k = choose|k: int| 0 <= k < smaller.len() && smaller[k] == x;
        if k < indices.last() {
            assert(pool[k] == x);
        } else {
            assert(pool[k + 1] == x);
        }
    } else {
        assert(pool[i] == without_indices(pool, indices)[i]);
    }
}

/// What is left of a well-formed pool is well formed.
pub proof fn lemma_without_indices_wf(pool: Seq<PassiveVpView>, indices: Seq<usize>)
    requires
        pool_wf(pool),
        ascending_below(indices, pool.len() as int),
    ensures
        pool_wf(without_indices(pool, indices)),
{
    let left = without_indices(pool, indices);
    assert forall|i: int| 0 <= i < left.len() implies (#[trigger] left[i]).wf() by {
        lemma_without_indices_members(pool, indices, i);
        let k = choose|k: int| 0 <= k < pool.len() && pool[k] == left[i];
        assert(pool[k].wf());
    }
}

/// Nothing is lost and nothing is copied when entries are taken out of a pool: it
/// is made up of what is taken and what is left.
pub proof fn lemma_take_conserves(pool: Seq<PassiveVpView>, indices: Seq<usize>)
    requires
        ascending_below(indices, pool.len() as int),
    ensures
        pool.to_multiset() == without_indices(pool, indices).to_multiset().add(
            select(pool, indices).to_multiset(),
        ),
    decreases indices.len(),
{
    broadcast use vstd::seq_lib::group_to_multiset_ensures;

    let chosen = select(pool, indices);
    if indices.len() == 0 {
        assert(chosen =~= Seq::<PassiveVpView>::empty());
        assert(pool.to_multiset() =~= pool.to_multiset().add(chosen.to_multiset()));
    } else {
        let last = indices.last() as int;
        let rest = indices.drop_last();
        let smaller = pool.remove(last);
        assert forall|k: int| 0 <= k < rest.len() implies (#[trigger] rest[k])
            < smaller.len() by {
            assert(rest[k] == indices[k]);
            assert(indices[k] < indices[indices.len() - 1]);
        }
        lemma_take_conserves(smaller, rest);
        assert(select(smaller, rest) =~= chosen.drop_last()) by {
            assert forall|k: int| 0 <= k < rest.len() implies select(smaller, rest)[k]
                == chosen.drop_last()[k] by {
                assert(rest[k] == indices[k]);
                assert(indices[k] < indices[indices.len() - 1]);
            }
        }
        assert(chosen =~= chosen.drop_last().push(pool[last]));
        assert(pool =~= smaller.insert(last, pool[last]));
        assert(pool.to_multiset() =~= without_indices(pool, indices).to_multiset().add(
            chosen.to_multiset(),
        ));
    }
}

/// Takes the entries at `indices` out of a pool and returns them in that order.
pub fn take_indices(pool: &mut Vec<PassiveVp>, indices: &[usize]) -> (taken: Vec<PassiveVp>)
    requires
        ascending_below(indices@, old(pool)@.len() as int),
    ensures
        vps_view(final(pool)@) == without_indices(vps_view(old(pool)@), indices@),
        vps_view(taken@) == select(vps_view(old(pool)@), indices@),
{
    let ghost before = pool@;
    let mut taken: Vec<PassiveVp> = Vec::new();
    let mut j: usize = indices.len();
    assert(indices@.take(j as int) =~= indices@);
    while j > 0
        invariant
            j <= indices@.len(),
            before == old(pool)@,
            ascending_below(indices@, before.len() as int),
            without_indices(vps_view(pool@), indices@.take(j as int)) == without_indices(
                vps_view(before),
                indices@,
            ),
            taken@.len() == indices@.len() - j,
            forall|k: int|
                j <= k < indices@.len() ==> #[trigger] taken@[k - j]
                    == before[indices@[k] as int],
            pool@.len() == before.len() - taken@.len(),
            forall|p: int|
                0 <= p < pool@.len() && (j < indices@.len() ==> p < indices@[j as int])
                    ==> #[trigger] pool@[p] == before[p],
            j < indices@.len() ==> indices@[j as int] <= pool@.len(),
            j == indices@.len() ==> pool@ == before,
        decreases j,
    {
        j = j - 1;
        let ghost earlier = pool@;
        let ghost taken_before = taken@;
        let index: usize = indices[j];
        proof {
            if j + 1 < indices@.len() {
                assert(indices@[j as int] < indices@[j + 1]);
            }
            lemma_remove_view(pool@, index as int);
            assert(indices@.take(j + 1).drop_last() =~= indices@.take(j as int));
        }
        let vp = pool.remove(index);
        taken.insert(0, vp);
        proof {
            assert forall|k: int| j <= k < indices@.len() implies #[trigger] taken@[k - j]
                == before[indices@[k] as int] by {
                if k > j {
                    assert(taken@[k - j] == taken_before[k - (j + 1)]);
                }
            }
        }
    }
    proof {
        assert(indices@.take(0) =~= Seq::<usize>::empty());
        assert forall|k: int| 0 <= k < indices@.len() implies vps_view(taken@)[k] == select(
            vps_view(before),
            indices@,
        )[k] by {
            assert(taken@[k - 0] == before[indices@[k] as int]);
        }
        assert(vps_view(taken@) =~= select(vps_view(before), indices@));
    }
    taken
}

} // verus!
