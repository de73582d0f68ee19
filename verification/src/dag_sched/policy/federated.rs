//! Federated scheduling admission.
//!
//! A DAG is classified by its density: its volume over the shorter of its relative
//! deadline and its period. A heavy DAG (density above one) gets an exclusive cluster
//! of cores. A light DAG shares the remaining cores, as long as the densities of all
//! light DAGs together fit the pool.

use vstd::prelude::*;
use vstd::std_specs::convert::FromSpecImpl;
use vstd::string::*;

use crate::cpu::{cpu_set_view, NUM_MAX_CPU};
use crate::dag_sched::metrics::{
    lemma_core_count_is_the_fewest, meets_deadline_on, DagMetrics, MetricsSource,
};
use crate::dag_sched::provision::Provision;
use crate::dag_sched::resource::{
    allocate_cluster, is_free_worker, lemma_cluster_is_fresh, lemma_free_workers,
    lemma_scaled_ratio_at_most_one, lemma_scaled_ratio_is_rounded_down, reservation,
    reserve_light_utilization, scaled_ratio, PoolLedger, ResourceError,
};
use crate::scheduler::pool::dag_pool_core;
use crate::scheduler::scheduler_type::SchedulerType;
use crate::text::{append_decimal, decimal};

verus! {

/// Result of [`classify_dag`].
#[derive(Debug, Clone, Copy, PartialEq, Eq, Structural)]
pub enum TaskClass {
    Light,
    Heavy { required_cores: u16 },
}

/// What [`admit_dag`] decided for a DAG.
#[derive(Debug, Clone, Copy, PartialEq, Eq)]
pub struct FederatedAssignment {
    pub class: TaskClass,
    /// The resource shape this DAG was admitted with.
    pub provision: Provision,
    pub scheduler_type: SchedulerType,
    /// Where the DAG's metrics came from.
    pub source: MetricsSource,
}

/// Why a DAG is not admitted.
#[derive(Debug, Clone, Copy, PartialEq, Eq, Structural)]
pub enum FederatedError {
    /// The critical path alone exceeds the deadline, or it takes all of the deadline
    /// while there is parallel work left, or no core count suffices.
    Infeasible { critical_path: u64, relative_deadline: u64 },
    /// The shared ledger could not satisfy the request.
    Resource(ResourceError),
}

impl From<ResourceError> for FederatedError {
    fn from(error: ResourceError) -> (converted: Self) {
        FederatedError::Resource(error)
    }
}

impl FromSpecImpl<ResourceError> for FederatedError {
    open spec fn obeys_from_spec() -> bool {
        true
    }

    open spec fn from_spec(error: ResourceError) -> Self {
        FederatedError::Resource(error)
    }
}

impl FederatedError {
    /// The text of [`FederatedError::message`].
    pub open spec fn text(self) -> Seq<char> {
        match self {
            FederatedError::Infeasible { critical_path, relative_deadline } => {
                "relative_deadline("@ + decimal(relative_deadline as nat) + ") <= critical_path("@
                    + decimal(critical_path as nat)
                    + "); no core count can meet this deadline"@
            },
            FederatedError::Resource(error) => error.text(),
        }
    }

    /// The error in words.
    pub fn message(&self) -> (text: String)
        ensures
            text@ == self.text(),
    {
        match self {
            FederatedError::Infeasible { critical_path, relative_deadline } => {
                let mut text = String::from_str("relative_deadline(");
                append_decimal(&mut text, *relative_deadline);
                text.append(") <= critical_path(");
                append_decimal(&mut text, *critical_path);
                text.append("); no core count can meet this deadline");
                text
            },
            FederatedError::Resource(error) => error.message(),
        }
    }
}

/// A DAG is heavy if its volume exceeds the window it has to be spread over.
pub fn is_heavy(volume: u64, window: u64) -> (heavy: bool)
    ensures
        heavy == (volume > window),
{
    volume > window
}

/// The shorter of a DAG's relative deadline and its period.
pub open spec fn window_of(config: DagMetrics) -> u64 {
    if config.relative_deadline < config.period {
        config.relative_deadline
    } else {
        config.period
    }
}

/// The interval a DAG's volume has to be spread over.
pub fn density_window(config: &DagMetrics) -> (window: u64)
    ensures
        window == window_of(*config),
{
    if config.relative_deadline < config.period {
        config.relative_deadline
    } else {
        config.period
    }
}

/// [`classify_dag`] as a function.
pub open spec fn class_of(config: DagMetrics) -> Result<TaskClass, FederatedError> {
    let infeasible = FederatedError::Infeasible {
        critical_path: config.critical_path,
        relative_deadline: config.relative_deadline,
    };
    if config.relative_deadline < config.critical_path {
        Err(infeasible)
    } else if config.volume <= window_of(config) {
        Ok(TaskClass::Light)
    } else {
        match config.spec_min_dedicated_cores() {
            None => Err(infeasible),
            Some(required_cores) => Ok(TaskClass::Heavy { required_cores }),
        }
    }
}

/// Classifies a DAG and, if it is heavy, computes its core count. Claims nothing.
pub fn classify_dag(config: &DagMetrics) -> (class: Result<TaskClass, FederatedError>)
    ensures
        class == class_of(*config),
{
    if config.relative_deadline < config.critical_path {
        return Err(
            FederatedError::Infeasible {
                critical_path: config.critical_path,
                relative_deadline: config.relative_deadline,
            },
        );
    }
    if !is_heavy(config.volume, density_window(config)) {
        return Ok(TaskClass::Light);
    }
    match config.min_dedicated_cores() {
        None => Err(
            FederatedError::Infeasible {
                critical_path: config.critical_path,
                relative_deadline: config.relative_deadline,
            },
        ),
        Some(required_cores) => Ok(TaskClass::Heavy { required_cores }),
    }
}

/// What admitting a DAG does. A light DAG commits its density against the shared pool,
/// a heavy DAG claims its cluster; where the ledger refuses, or the DAG cannot be
/// classified, nothing changes and the error says why.
pub open spec fn admits(
    before: PoolLedger,
    after: PoolLedger,
    num_cpu: usize,
    config: DagMetrics,
    result: Result<FederatedAssignment, FederatedError>,
) -> bool {
    match class_of(config) {
        Err(error) => {
            &&& result == Err::<FederatedAssignment, FederatedError>(error)
            &&& after == before
        },
        Ok(TaskClass::Light) => {
            let amount = scaled_ratio(config.volume as int, window_of(config) as int) as u64;
            match result {
                Ok(assignment) => {
                    &&& reservation(before, after, num_cpu, amount, Ok(amount))
                    &&& assignment == assignment_of(
                        config,
                        TaskClass::Light,
                        Provision::Shared { utilization_scaled: amount },
                    )
                },
                Err(error) => {
                    &&& error is Resource
                    &&& reservation(before, after, num_cpu, amount, Err(error->0))
                },
            }
        },
        Ok(TaskClass::Heavy { required_cores }) => {
            let free = before.free(num_cpu);
            if required_cores <= free.len() {
                &&& result matches Ok(assignment)
                &&& assignment.provision matches Provision::Dedicated { cores }
                &&& assignment == assignment_of(
                    config,
                    TaskClass::Heavy { required_cores },
                    assignment.provision,
                )
                &&& cpu_set_view(cores) == free.take(required_cores as int).to_set()
                &&& cpu_set_view(after.claimed_cores) == cpu_set_view(before.claimed_cores).union(
                    cpu_set_view(cores),
                )
                &&& after.light_utilization_scaled == before.light_utilization_scaled
            } else {
                &&& result == Err::<FederatedAssignment, FederatedError>(
                    FederatedError::Resource(
                        ResourceError::InsufficientCores {
                            required: required_cores,
                            available: free.len() as u16,
                        },
                    ),
                )
                &&& after == before
            }
        },
    }
}

/// The assignment of a DAG of the given class with the given provision.
pub open spec fn assignment_of(config: DagMetrics, class: TaskClass, provision: Provision) -> FederatedAssignment {
    FederatedAssignment {
        class,
        provision,
        scheduler_type: provision.scheduler_type(config.relative_deadline),
        source: config.source,
    }
}

/// Admits a DAG: classifies it, draws on the ledger, and decides the scheduler class
/// of all of its nodes.
pub fn admit_dag(pool: &mut PoolLedger, num_cpu: usize, config: DagMetrics) -> (result: Result<
    FederatedAssignment,
    FederatedError,
>)
    requires
        num_cpu <= NUM_MAX_CPU,
    ensures
        admits(*old(pool), *final(pool), num_cpu, config, result),
{
    match classify_dag(&config) {
        Err(error) => Err(error),
        Ok(class) => match class {
            TaskClass::Light => {
                let window: u64 = density_window(&config);
                match reserve_light_utilization(pool, num_cpu, config.volume, window) {
                    Err(error) => Err(FederatedError::from(error)),
                    Ok(utilization_scaled) => {
                        let provision = Provision::Shared { utilization_scaled };
                        Ok(
                            FederatedAssignment {
                                class: TaskClass::Light,
                                scheduler_type: provision.into_scheduler_type(
                                    config.relative_deadline,
                                ),
                                provision,
                                source: config.source,
                            },
                        )
                    },
                }
            },
            TaskClass::Heavy { required_cores } => {
                match allocate_cluster(pool, num_cpu, required_cores) {
                    Err(error) => Err(FederatedError::from(error)),
                    Ok(cores) => {
                        let provision = Provision::Dedicated { cores };
                        Ok(
                            FederatedAssignment {
                                class: TaskClass::Heavy { required_cores },
                                scheduler_type: provision.into_scheduler_type(
                                    config.relative_deadline,
                                ),
                                provision,
                                source: config.source,
                            },
                        )
                    },
                }
            },
        },
    }
}

/// Where the metrics came from never changes whether and how a DAG is classified.
pub proof fn lemma_source_never_affects_classification(a: DagMetrics, b: DagMetrics)
    requires
        a == (DagMetrics { source: a.source, ..b }),
    ensures
        class_of(a) == class_of(b),
{
}

/// With a deadline that is not shorter than the period, the density is the plain
/// utilization: volume over period.
pub proof fn lemma_window_is_period_for_lenient_deadlines(config: DagMetrics)
    requires
        config.relative_deadline >= config.period,
    ensures
        window_of(config) == config.period,
{
}

/// What admitting one light DAG commits. A DAG whose volume fits into both its deadline and
/// its period is light, and commits its volume over the shorter of the two, in parts per
/// million rounded down, within what the free cores leave; the amount is the one that its
/// assignment names. Where that does not fit, nothing is committed.
pub proof fn lemma_light_dag_commits_its_density(
    before: PoolLedger,
    after: PoolLedger,
    num_cpu: usize,
    config: DagMetrics,
    result: Result<FederatedAssignment, FederatedError>,
)
    requires
        num_cpu <= NUM_MAX_CPU,
        admits(before, after, num_cpu, config, result),
        config.critical_path <= config.relative_deadline,
        0 < config.volume <= config.relative_deadline,
        config.volume <= config.period,
        config.volume * 1_000_000 <= u64::MAX,
    ensures
        after.claimed_cores == before.claimed_cores,
        result matches Ok(assignment) ==> {
            let amount = after.light_utilization_scaled - before.light_utilization_scaled;
            &&& assignment.class == TaskClass::Light
            &&& assignment.provision matches Provision::Shared { utilization_scaled }
                && utilization_scaled == amount
            &&& is_density(amount, config)
            &&& after.light_utilization_scaled <= before.free(num_cpu).len() * 1_000_000
        },
        result matches Err(error) ==> {
            &&& after == before
            &&& error matches FederatedError::Resource(
                ResourceError::LightPoolOversubscribed { additional_utilization_scaled, .. },
            )
            &&& is_density(additional_utilization_scaled as int, config)
            &&& before.light_utilization_scaled + additional_utilization_scaled > before.free(
                num_cpu,
            ).len() * 1_000_000
        },
{
    let window = window_of(config) as int;
    lemma_scaled_ratio_is_rounded_down(config.volume as int, window);
    lemma_scaled_ratio_at_most_one(config.volume as int, window);
    lemma_free_workers(cpu_set_view(before.claimed_cores), num_cpu, num_cpu as int);
}

/// Whether `amount` is the volume over the shorter of the deadline and the period, in parts
/// per million rounded down.
pub open spec fn is_density(amount: int, config: DagMetrics) -> bool {
    let (volume, deadline, period) = (
        config.volume as int,
        config.relative_deadline as int,
        config.period as int,
    );
    &&& deadline <= period ==> amount * deadline <= volume * 1_000_000 < (amount + 1) * deadline
    &&& period <= deadline ==> amount * period <= volume * 1_000_000 < (amount + 1) * period
}

/// A sequence of admissions, each from the ledger that the one before it left.
pub open spec fn admissions(
    ledgers: Seq<PoolLedger>,
    num_cpu: usize,
    configs: Seq<DagMetrics>,
    results: Seq<Result<FederatedAssignment, FederatedError>>,
) -> bool {
    &&& ledgers.len() == configs.len() + 1
    &&& results.len() == configs.len()
    &&& forall|i: int|
        0 <= i < configs.len() ==> #[trigger] admits(
            ledgers[i],
            ledgers[i + 1],
            num_cpu,
            configs[i],
            results[i],
        )
}

/// Whether the `i`-th DAG was admitted and shares the pool: its volume fits into its deadline
/// and its period.
pub open spec fn shares_pool(
    configs: Seq<DagMetrics>,
    results: Seq<Result<FederatedAssignment, FederatedError>>,
    i: int,
) -> bool {
    &&& results[i] is Ok
    &&& configs[i].volume <= configs[i].relative_deadline
    &&& configs[i].volume <= configs[i].period
}

/// The sum, over the first `n` DAGs that share the pool, of the volume over the shorter of the
/// deadline and the period, each in parts per million rounded down.
pub open spec fn shared_density(
    configs: Seq<DagMetrics>,
    results: Seq<Result<FederatedAssignment, FederatedError>>,
    n: int,
) -> int
    decreases n,
{
    if n <= 0 {
        0
    } else if shares_pool(configs, results, n - 1) {
        let config = configs[n - 1];
        let by_deadline = config.volume * 1_000_000 / config.relative_deadline as int;
        let by_period = config.volume * 1_000_000 / config.period as int;
        shared_density(configs, results, n - 1) + if by_deadline > by_period {
            by_deadline
        } else {
            by_period
        }
    } else {
        shared_density(configs, results, n - 1)
    }
}

/// The sum of the volumes of the first `n` DAGs that share the pool.
pub open spec fn shared_work(
    configs: Seq<DagMetrics>,
    results: Seq<Result<FederatedAssignment, FederatedError>>,
    n: int,
) -> int
    decreases n,
{
    if n <= 0 {
        0
    } else if shares_pool(configs, results, n - 1) {
        shared_work(configs, results, n - 1) + configs[n - 1].volume
    } else {
        shared_work(configs, results, n - 1)
    }
}

/// DAGs with a volume, and with times that parts per million of can be computed in the range
/// of times.
pub open spec fn countable(configs: Seq<DagMetrics>) -> bool {
    forall|i: int|
        0 <= i < configs.len() ==> 0 < (#[trigger] configs[i]).volume && configs[i].volume
            * 1_000_000 <= u64::MAX
}

proof fn lemma_larger_quotient(volume: int, short: int, long: int)
    requires
        0 <= volume,
        0 < short <= long,
    ensures
        volume / long <= volume / short,
{
    vstd::arithmetic::div_mod::lemma_div_is_ordered_by_denominator(volume, short, long);
}

/// Over any sequence of admissions from a ledger with nothing committed, the ledger holds
/// exactly the sum of the densities of the DAGs that share the pool; and whenever another one
/// is admitted, that sum is at most the number of cores that are free.
pub proof fn lemma_shared_densities_add_up(
    ledgers: Seq<PoolLedger>,
    num_cpu: usize,
    configs: Seq<DagMetrics>,
    results: Seq<Result<FederatedAssignment, FederatedError>>,
    n: int,
)
    requires
        num_cpu <= NUM_MAX_CPU,
        admissions(ledgers, num_cpu, configs, results),
        ledgers[0].light_utilization_scaled == 0,
        countable(configs),
        0 <= n <= configs.len(),
    ensures
        ledgers[n].light_utilization_scaled == shared_density(configs, results, n),
        forall|i: int|
            0 <= i < n && #[trigger] shares_pool(configs, results, i) ==> shared_density(
                configs,
                results,
                i + 1,
            ) <= ledgers[i].free(num_cpu).len() * 1_000_000,
    decreases n,
{
    if n > 0 {
        lemma_shared_densities_add_up(ledgers, num_cpu, configs, results, n - 1);
        let config = configs[n - 1];
        let (before, after) = (ledgers[n - 1], ledgers[n - 1 + 1]);
        assert(admits(before, after, num_cpu, config, results[n - 1]));
        assert(0 < config.volume);
        if shares_pool(configs, results, n - 1) {
            lemma_light_dag_commits_its_density(before, after, num_cpu, config, results[n - 1]);
            let amount = after.light_utilization_scaled - before.light_utilization_scaled;
            let product = config.volume * 1_000_000;
            let (d, t) = (config.relative_deadline as int, config.period as int);
            if d <= t {
                lemma_larger_quotient(product, d, t);
                lemma_quotient_is(product, d, amount);
            } else {
                lemma_larger_quotient(product, t, d);
                lemma_quotient_is(product, t, amount);
            }
        } else {
            match results[n - 1] {
                Ok(_) => {},
                Err(_) => {},
            }
        }
    }
}

proof fn lemma_quotient_is(a: int, b: int, q: int)
    requires
        0 < b,
        q * b <= a < (q + 1) * b,
    ensures
        a / b == q,
{
    assert((q + 1) * b == q * b + b) by (nonlinear_arith);
    vstd::arithmetic::div_mod::lemma_fundamental_div_mod_converse(a, b, q, a - q * b);
}

/// The DAGs that share one core have no more work to do within a common window than the
/// window holds, but for the parts per million that rounding drops for each of them; with
/// several free cores, than so many windows hold.
pub proof fn lemma_shared_work_fits_the_cores(
    ledgers: Seq<PoolLedger>,
    num_cpu: usize,
    configs: Seq<DagMetrics>,
    results: Seq<Result<FederatedAssignment, FederatedError>>,
    window: int,
    cores: int,
    n: int,
)
    requires
        num_cpu <= NUM_MAX_CPU,
        admissions(ledgers, num_cpu, configs, results),
        ledgers[0].light_utilization_scaled == 0,
        countable(configs),
        0 <= n <= configs.len(),
        0 < window,
        forall|i: int|
            0 <= i < configs.len() ==> (#[trigger] configs[i]).relative_deadline <= window
                || configs[i].period <= window,
        0 <= cores,
        forall|i: int|
            0 <= i < configs.len() ==> (#[trigger] ledgers[i]).free(num_cpu).len() <= cores,
    ensures
        shared_work(configs, results, n) * 1_000_000 <= (cores * 1_000_000 + n) * window,
{
    lemma_work_within_densities(configs, results, window, n);
    lemma_shared_densities_stay_within(ledgers, num_cpu, configs, results, cores, n);
    let density = shared_density(configs, results, n);
    assert((density + n) * window <= (cores * 1_000_000 + n) * window) by (nonlinear_arith)
        requires
            density <= cores * 1_000_000,
            0 < window,
    ;
}

proof fn lemma_shared_densities_stay_within(
    ledgers: Seq<PoolLedger>,
    num_cpu: usize,
    configs: Seq<DagMetrics>,
    results: Seq<Result<FederatedAssignment, FederatedError>>,
    cores: int,
    n: int,
)
    requires
        num_cpu <= NUM_MAX_CPU,
        admissions(ledgers, num_cpu, configs, results),
        ledgers[0].light_utilization_scaled == 0,
        countable(configs),
        0 <= n <= configs.len(),
        0 <= cores,
        forall|i: int|
            0 <= i < configs.len() ==> (#[trigger] ledgers[i]).free(num_cpu).len() <= cores,
    ensures
        shared_density(configs, results, n) <= cores * 1_000_000,
    decreases n,
{
    if n > 0 {
        lemma_shared_densities_stay_within(ledgers, num_cpu, configs, results, cores, n - 1);
        lemma_shared_densities_add_up(ledgers, num_cpu, configs, results, n);
        if shares_pool(configs, results, n - 1) {
            let free = ledgers[n - 1].free(num_cpu).len();
            assert(free * 1_000_000 <= cores * 1_000_000) by (nonlinear_arith)
                requires
                    free <= cores,
            ;
        }
    }
}

proof fn lemma_work_within_densities(
    configs: Seq<DagMetrics>,
    results: Seq<Result<FederatedAssignment, FederatedError>>,
    window: int,
    n: int,
)
    requires
        0 <= n <= configs.len(),
        countable(configs),
        0 < window,
        forall|i: int|
            0 <= i < configs.len() ==> (#[trigger] configs[i]).relative_deadline <= window
                || configs[i].period <= window,
    ensures
        shared_work(configs, results, n) * 1_000_000 <= (shared_density(configs, results, n) + n)
            * window,
    decreases n,
{
    if n > 0 {
        lemma_work_within_densities(configs, results, window, n - 1);
        let config = configs[n - 1];
        assert(0 < config.volume);
        let rest = shared_density(configs, results, n - 1);
        assert((rest + n - 1) * window <= (rest + n) * window) by (nonlinear_arith)
            requires
                0 < window,
        ;
        if shares_pool(configs, results, n - 1) {
            let product = config.volume * 1_000_000;
            let (d, t) = (config.relative_deadline as int, config.period as int);
            let short = if d <= window {
                d
            } else {
                t
            };
            let q = product / short;
            assert(product < (q + 1) * short) by (nonlinear_arith)
                requires
                    q == product / short,
                    0 < short,
            ;
            let amount = shared_density(configs, results, n) - rest;
            assert(q <= amount);
            assert(0 <= product / short) by (nonlinear_arith)
                requires
                    0 <= product,
                    0 < short,
            ;
            assert((q + 1) * short <= (amount + 1) * window) by (nonlinear_arith)
                requires
                    0 <= q <= amount,
                    0 < short <= window,
            ;
            assert((rest + amount + n) * window == (rest + n - 1) * window + (amount + 1) * window)
                by (nonlinear_arith);
        }
    }
}

/// A DAG is light exactly if its volume fits into its deadline and into its period, and heavy
/// otherwise; a heavy DAG gets the fewest cores on which it meets its deadline. None is
/// feasible whose critical path exceeds its deadline, nor a heavy one for which no core count
/// suffices.
pub proof fn lemma_class_follows_the_density(config: DagMetrics)
    ensures
        ({
            let (c, l, d) = (config.volume, config.critical_path, config.relative_deadline);
            let fits = c <= d && c <= config.period;
            match class_of(config) {
                Ok(TaskClass::Light) => l <= d && fits,
                Ok(TaskClass::Heavy { required_cores }) => {
                    &&& l < d && !fits
                    &&& meets_deadline_on(config, required_cores as int)
                    &&& required_cores == 1 || !meets_deadline_on(config, required_cores - 1)
                },
                Err(error) => {
                    &&& l > d || (!fits && (l == d || !meets_deadline_on(config, u16::MAX as int)))
                    &&& error == (FederatedError::Infeasible {
                        critical_path: l,
                        relative_deadline: d,
                    })
                },
            }
        }),
{
    lemma_core_count_is_the_fewest(config);
}

/// A heavy DAG that is admitted gets a cluster of as many cores as it needs, none of which was
/// claimed before: the lowest free ones. They are claimed for it and nothing else changes. It
/// is refused only if fewer cores are free.
pub proof fn lemma_heavy_dag_gets_cores_of_its_own(
    before: PoolLedger,
    after: PoolLedger,
    num_cpu: usize,
    config: DagMetrics,
    result: Result<FederatedAssignment, FederatedError>,
    required_cores: u16,
)
    requires
        num_cpu <= NUM_MAX_CPU,
        admits(before, after, num_cpu, config, result),
        class_of(config) == Ok::<TaskClass, FederatedError>(TaskClass::Heavy { required_cores }),
    ensures
        result is Ok <==> required_cores <= before.free(num_cpu).len(),
        result is Err ==> after == before,
        result matches Ok(assignment) ==> {
            let taken = cpu_set_view(before.claimed_cores);
            let now = cpu_set_view(after.claimed_cores);
            &&& assignment.class == (TaskClass::Heavy { required_cores })
            &&& assignment.provision matches Provision::Dedicated { cores } && {
                let own = cpu_set_view(cores);
                &&& own.finite() && own.len() == required_cores
                &&& now == taken.union(own)
                &&& forall|cpu: usize|
                    #[trigger] own.contains(cpu) ==> !taken.contains(cpu) && 0 < cpu < num_cpu
                        && dag_pool_core(cpu as int, num_cpu as int)
                &&& forall|cpu: usize, other: usize|
                    #[trigger] own.contains(cpu) && !own.contains(other) && !taken.contains(other)
                        && 0 < other < num_cpu && #[trigger] dag_pool_core(
                        other as int,
                        num_cpu as int,
                    ) ==> cpu < other
                &&& assignment.scheduler_type == SchedulerType::ClusteredEDF(
                    config.relative_deadline,
                    cores,
                )
            }
            &&& after.light_utilization_scaled == before.light_utilization_scaled
        },
{
    let claimed = cpu_set_view(before.claimed_cores);
    let free = before.free(num_cpu);
    lemma_free_workers(claimed, num_cpu, num_cpu as int);
    if required_cores <= free.len() {
        let count = required_cores as int;
        let cluster = free.take(count);
        let own = cluster.to_set();
        assert(cluster.no_duplicates()) by {
            assert forall|i: int, j: int| 0 <= i < j < cluster.len() implies cluster[i]
                != cluster[j] by {
                assert(free[i] < free[j]);
            }
        }
        cluster.unique_seq_to_set();
        assert forall|cpu: usize| #[trigger] own.contains(cpu) implies !claimed.contains(cpu) && 0
            < cpu < num_cpu && dag_pool_core(cpu as int, num_cpu as int) by {
            lemma_cluster_is_fresh(claimed, num_cpu, count, cpu);
        }
        assert forall|cpu: usize, other: usize| #[trigger]
            own.contains(cpu) && !own.contains(other) && !claimed.contains(other) && 0 < other
                < num_cpu && #[trigger] dag_pool_core(other as int, num_cpu as int) implies cpu
            < other by {
            assert(is_free_worker(claimed, num_cpu, num_cpu as int, other));
            let j = choose|j: int| 0 <= j < free.len() && free[j] == other;
            let i = choose|i: int| 0 <= i < cluster.len() && cluster[i] == cpu;
            if j < count {
                assert(cluster[j] == other);
            }
            assert(free[i] < free[j]);
        }
    }
}

} // verus!
