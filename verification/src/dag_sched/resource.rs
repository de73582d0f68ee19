//! The DAG scheduling core and utilization ledger.
//!
//! One ledger holds both what has been claimed as exclusive clusters and how much
//! utilization the rest of the pool has committed, so that a claim that shrinks
//! the shared pool and a check against it never disagree. It knows nothing of the
//! policy that draws on it: it sees core counts and scaled utilization only.

use vstd::prelude::*;
use vstd::string::*;

use crate::cpu::{
    cpu_set_contains, cpu_set_empty, cpu_set_to_vec, cpu_set_union, cpu_set_view, cpu_set_with,
    cpu_set_without, CpuSet, NUM_MAX_CPU,
};
use crate::scheduler::pool::{dag_pool_core, is_dag_pool_core};
use crate::text::{append_decimal, append_two_digits, decimal, two_digits};

verus! {

/// A resource request could not be satisfied by the shared ledger.
#[derive(Debug, Clone, Copy, PartialEq, Eq, Structural)]
pub enum ResourceError {
    /// Fewer than `required` DAG-pool cores are currently free.
    InsufficientCores { required: u16, available: u16 },
    /// Committing this much utilization would push the shared pool's total over
    /// its capacity. Both fields are scaled by [`UTILIZATION_SCALE`].
    LightPoolOversubscribed {
        additional_utilization_scaled: u64,
        available_capacity_scaled: u64,
    },
}

/// The text of a percentage with two decimals, of a ratio in parts per million.
pub open spec fn percent_text(scaled: nat) -> Seq<char> {
    decimal(scaled / 10_000) + "."@ + two_digits(scaled % 10_000 / 100)
}

fn append_percent(text: &mut String, scaled: u64)
    ensures
        final(text)@ == old(text)@ + percent_text(scaled as nat),
{
    append_decimal(text, scaled / 10_000);
    text.append(".");
    append_two_digits(text, (scaled % 10_000) / 100);
    assert(text@ =~= old(text)@ + percent_text(scaled as nat));
}

impl ResourceError {
    /// The text of [`ResourceError::message`].
    pub open spec fn text(self) -> Seq<char> {
        match self {
            ResourceError::InsufficientCores { required, available } => "needs "@ + decimal(
                required as nat,
            ) + " dedicated core(s) but only "@ + decimal(available as nat) + " are free"@,
            ResourceError::LightPoolOversubscribed {
                additional_utilization_scaled,
                available_capacity_scaled,
            } => "light pool oversubscribed: this DAG needs "@ + percent_text(
                additional_utilization_scaled as nat,
            ) + "% more utilization but only "@ + percent_text(available_capacity_scaled as nat)
                + "% is free"@,
        }
    }

    /// The error in words.
    pub fn message(&self) -> (text: String)
        ensures
            text@ == self.text(),
    {
        match self {
            ResourceError::InsufficientCores { required, available } => {
                let mut text = String::from_str("needs ");
                append_decimal(&mut text, *required as u64);
                text.append(" dedicated core(s) but only ");
                append_decimal(&mut text, *available as u64);
                text.append(" are free");
                text
            },
            ResourceError::LightPoolOversubscribed {
                additional_utilization_scaled,
                available_capacity_scaled,
            } => {
                let mut text = String::from_str("light pool oversubscribed: this DAG needs ");
                append_percent(&mut text, *additional_utilization_scaled);
                text.append("% more utilization but only ");
                append_percent(&mut text, *available_capacity_scaled);
                text.append("% is free");
                text
            },
        }
    }
}

impl ResourceError {
    /// The text of [`ResourceError::debug_message`].
    pub open spec fn debug_text(self) -> Seq<char> {
        match self {
            ResourceError::InsufficientCores { required, available } => {
                "InsufficientCores { required: "@ + decimal(required as nat) + ", available: "@
                    + decimal(available as nat) + " }"@
            },
            ResourceError::LightPoolOversubscribed {
                additional_utilization_scaled,
                available_capacity_scaled,
            } => "LightPoolOversubscribed { additional_utilization_scaled: "@ + decimal(
                additional_utilization_scaled as nat,
            ) + ", available_capacity_scaled: "@ + decimal(available_capacity_scaled as nat)
                + " }"@,
        }
    }

    /// The error as it is written in code.
    pub fn debug_message(&self) -> (text: String)
        ensures
            text@ == self.debug_text(),
    {
        match self {
            ResourceError::InsufficientCores { required, available } => {
                let mut text = String::from_str("InsufficientCores { required: ");
                append_decimal(&mut text, *required as u64);
                text.append(", available: ");
                append_decimal(&mut text, *available as u64);
                text.append(" }");
                text
            },
            ResourceError::LightPoolOversubscribed {
                additional_utilization_scaled,
                available_capacity_scaled,
            } => {
                let mut text = String::from_str(
                    "LightPoolOversubscribed { additional_utilization_scaled: ",
                );
                append_decimal(&mut text, *additional_utilization_scaled);
                text.append(", available_capacity_scaled: ");
                append_decimal(&mut text, *available_capacity_scaled);
                text.append(" }");
                text
            },
        }
    }
}

/// Utilization is an integer in parts per million, so that every check on it is
/// exact: a utilization of one is `1_000_000`.
pub const UTILIZATION_SCALE: u64 = 1_000_000;

/// `volume / window` in parts per million, rounded down. A product that leaves
/// the machine's range counts as the largest value in it, and an empty window as
/// a window of one.
pub open spec fn scaled_ratio(volume: int, window: int) -> int {
    let product = volume * UTILIZATION_SCALE;
    let bounded = if product > u64::MAX {
        u64::MAX as int
    } else {
        product
    };
    bounded / (if window < 1 {
        1
    } else {
        window
    })
}

/// [`scaled_ratio`] of a demand and the interval it is spread over.
pub fn utilization_scaled(volume: u64, window: u64) -> (scaled: u64)
    ensures
        scaled == scaled_ratio(volume as int, window as int),
{
    let product: u64 = match volume.checked_mul(UTILIZATION_SCALE) {
        Some(product) => product,
        None => u64::MAX,
    };
    if window < 1 {
        product
    } else {
        product / window
    }
}

/// A demand that fits into its window has a scaled ratio of at most one.
pub proof fn lemma_scaled_ratio_at_most_one(volume: int, window: int)
    requires
        0 <= volume <= window,
    ensures
        0 <= scaled_ratio(volume, window) <= UTILIZATION_SCALE,
{
    let divisor = if window < 1 {
        1
    } else {
        window
    };
    let product = volume * UTILIZATION_SCALE;
    let bounded = if product > u64::MAX {
        u64::MAX as int
    } else {
        product
    };
    assert(0 <= bounded <= UTILIZATION_SCALE * divisor) by (nonlinear_arith)
        requires
            0 <= volume <= divisor,
            bounded <= volume * UTILIZATION_SCALE,
            volume * UTILIZATION_SCALE >= 0 ==> bounded >= 0,
    ;
    assert(0 <= bounded / divisor <= UTILIZATION_SCALE) by (nonlinear_arith)
        requires
            0 <= bounded <= UTILIZATION_SCALE * divisor,
            divisor >= 1,
    ;
}

/// Where the product stays within the machine's range, the scaled ratio is the exact one in
/// parts per million, rounded down: times the window it is at most the demand in parts per
/// million, and one part more would be too much.
pub proof fn lemma_scaled_ratio_is_rounded_down(volume: int, window: int)
    requires
        0 <= volume,
        0 < window,
        volume * 1_000_000 <= u64::MAX,
    ensures
        0 <= scaled_ratio(volume, window),
        scaled_ratio(volume, window) * window <= volume * 1_000_000 < (scaled_ratio(volume, window)
            + 1) * window,
{
    let product = volume * 1_000_000;
    let q = product / window;
    assert(0 <= q && q * window <= product < (q + 1) * window) by (nonlinear_arith)
        requires
            q == product / window,
            0 <= product,
            0 < window,
    ;
}

/// The shared state of the ledger.
#[derive(Clone, Copy)]
pub struct PoolLedger {
    /// The cores claimed by some DAG's exclusive cluster, so that two clusters
    /// never get the same core.
    pub claimed_cores: CpuSet,
    /// The committed capacity of every admitted DAG that shares the pool, in
    /// parts per million of a core.
    pub light_utilization_scaled: u64,
}

/// The worker CPUs below `bound` that may run DAG work and that no cluster has
/// claimed, in ascending order.
pub open spec fn free_workers_below(claimed: Set<usize>, num_cpu: usize, bound: int) -> Seq<usize>
    decreases bound,
{
    if bound <= 1 {
        Seq::empty()
    } else {
        let rest = free_workers_below(claimed, num_cpu, bound - 1);
        if dag_pool_core(bound - 1, num_cpu as int) && !claimed.contains((bound - 1) as usize) {
            rest.push((bound - 1) as usize)
        } else {
            rest
        }
    }
}

/// The DAG-pool worker CPUs that no cluster has claimed, in ascending order.
pub open spec fn free_workers(claimed: Set<usize>, num_cpu: usize) -> Seq<usize> {
    free_workers_below(claimed, num_cpu, num_cpu as int)
}

/// Whether `cpu` is a free DAG-pool worker below `bound`.
pub open spec fn is_free_worker(claimed: Set<usize>, num_cpu: usize, bound: int, cpu: usize) -> bool {
    1 <= cpu < bound && dag_pool_core(cpu as int, num_cpu as int) && !claimed.contains(cpu)
}

/// [`free_workers_below`] lists exactly the free workers, each once, ascending.
pub proof fn lemma_free_workers(claimed: Set<usize>, num_cpu: usize, bound: int)
    requires
        bound <= usize::MAX,
    ensures
        free_workers_below(claimed, num_cpu, bound).len() <= if bound <= 1 {
            0
        } else {
            bound - 1
        },
        forall|i: int|
            0 <= i < free_workers_below(claimed, num_cpu, bound).len() ==> is_free_worker(
                claimed,
                num_cpu,
                bound,
                #[trigger] free_workers_below(claimed, num_cpu, bound)[i],
            ),
        forall|i: int, j: int|
            0 <= i < j < free_workers_below(claimed, num_cpu, bound).len()
                ==> #[trigger] free_workers_below(claimed, num_cpu, bound)[i]
                < #[trigger] free_workers_below(claimed, num_cpu, bound)[j],
        forall|cpu: usize| #[trigger]
            is_free_worker(claimed, num_cpu, bound, cpu) ==> free_workers_below(
                claimed,
                num_cpu,
                bound,
            ).contains(cpu),
    decreases bound,
{
    if bound > 1 {
        lemma_free_workers(claimed, num_cpu, bound - 1);
        let rest = free_workers_below(claimed, num_cpu, bound - 1);
        let all = free_workers_below(claimed, num_cpu, bound);
        assert forall|cpu: usize| #[trigger]
            is_free_worker(claimed, num_cpu, bound, cpu) implies all.contains(cpu) by {
            if cpu == bound - 1 {
                assert(all.last() == cpu);
            } else {
                assert(is_free_worker(claimed, num_cpu, bound - 1, cpu));
                let i = choose|i: int| 0 <= i < rest.len() && rest[i] == cpu;
                assert(all[i] == cpu);
            }
        }
    }
}

impl PoolLedger {
    /// A ledger of which nothing has been claimed.
    pub fn new() -> (ledger: Self)
        ensures
            cpu_set_view(ledger.claimed_cores) == Set::<usize>::empty(),
            ledger.light_utilization_scaled == 0,
    {
        PoolLedger { claimed_cores: cpu_set_empty(), light_utilization_scaled: 0 }
    }

    /// The free worker CPUs of this ledger on a machine of `num_cpu` CPUs.
    pub open spec fn free(self, num_cpu: usize) -> Seq<usize> {
        free_workers(cpu_set_view(self.claimed_cores), num_cpu)
    }

    /// The shared pool's capacity in parts per million of a core.
    pub open spec fn capacity(self, num_cpu: usize) -> int {
        self.free(num_cpu).len() * UTILIZATION_SCALE
    }

    fn free_list(&self, num_cpu: usize) -> (free: Vec<usize>)
        requires
            num_cpu <= NUM_MAX_CPU,
        ensures
            free@ == self.free(num_cpu),
            free@.len() < NUM_MAX_CPU,
            forall|i: int| 0 <= i < free@.len() ==> 1 <= #[trigger] free@[i] < num_cpu,
            forall|i: int, j: int| 0 <= i < j < free@.len() ==> free@[i] < free@[j],
    {
        let mut free: Vec<usize> = Vec::new();
        let mut cpu: usize = 1;
        while cpu < num_cpu
            invariant
                1 <= cpu,
                cpu <= num_cpu || num_cpu < 1,
                num_cpu < 1 ==> cpu == 1,
                num_cpu <= NUM_MAX_CPU,
                free@ == free_workers_below(cpu_set_view(self.claimed_cores), num_cpu, cpu as int),
            decreases num_cpu - cpu,
        {
            if is_dag_pool_core(cpu, num_cpu) && !cpu_set_contains(self.claimed_cores, cpu) {
                free.push(cpu);
            }
            cpu = cpu + 1;
        }
        proof {
            lemma_free_workers(cpu_set_view(self.claimed_cores), num_cpu, num_cpu as int);
        }
        free
    }
}

/// How many cores the shared pool has: the DAG-pool workers that no cluster has
/// claimed.
fn light_pool_size(pool: &PoolLedger, num_cpu: usize) -> (size: usize)
    requires
        num_cpu <= NUM_MAX_CPU,
    ensures
        size == pool.free(num_cpu).len(),
        size < NUM_MAX_CPU,
{
    pool.free_list(num_cpu).len()
}

/// The most cores that [`allocate_cluster`] could hand out right now.
pub fn free_core_count(pool: &PoolLedger, num_cpu: usize) -> (count: u16)
    requires
        num_cpu <= NUM_MAX_CPU,
    ensures
        count == pool.free(num_cpu).len(),
        count < NUM_MAX_CPU,
{
    light_pool_size(pool, num_cpu) as u16
}

/// Claims the first `required_cores` free DAG-pool workers.
///
/// The caller also reserves the returned cores against other dispatch at once, and
/// frees them when it calls [`release_cluster`].
pub fn allocate_cluster(pool: &mut PoolLedger, num_cpu: usize, required_cores: u16) -> (result:
    Result<CpuSet, ResourceError>)
    requires
        num_cpu <= NUM_MAX_CPU,
    ensures
        match result {
            Ok(cluster) => {
                &&& required_cores <= old(pool).free(num_cpu).len()
                &&& cpu_set_view(cluster) == old(pool).free(num_cpu).take(
                    required_cores as int,
                ).to_set()
                &&& cpu_set_view(final(pool).claimed_cores) == cpu_set_view(
                    old(pool).claimed_cores,
                ).union(cpu_set_view(cluster))
                &&& final(pool).light_utilization_scaled == old(pool).light_utilization_scaled
            },
            Err(error) => {
                &&& old(pool).free(num_cpu).len() < required_cores
                &&& error == (ResourceError::InsufficientCores {
                    required: required_cores,
                    available: old(pool).free(num_cpu).len() as u16,
                })
                &&& *final(pool) == *old(pool)
            },
        },
{
    let free = pool.free_list(num_cpu);
    if free.len() < required_cores as usize {
        return Err(
            ResourceError::InsufficientCores {
                required: required_cores,
                available: free.len() as u16,
            },
        );
    }
    let mut cluster = cpu_set_empty();
    let mut i: usize = 0;
    assert(free@.take(0).to_set() =~= Set::<usize>::empty());
    while i < required_cores as usize
        invariant
            i <= required_cores <= free@.len(),
            num_cpu <= NUM_MAX_CPU,
            forall|k: int| 0 <= k < free@.len() ==> 1 <= #[trigger] free@[k] < num_cpu,
            cpu_set_view(cluster) == free@.take(i as int).to_set(),
        decreases required_cores - i,
    {
        cluster = cpu_set_with(cluster, free[i]);
        proof {
            lemma_take_one_more(free@, i as int);
        }
        i = i + 1;
    }
    pool.claimed_cores = cpu_set_union(pool.claimed_cores, cluster);
    Ok(cluster)
}

/// Taking one element more adds that element to the set.
pub proof fn lemma_take_one_more<T>(s: Seq<T>, i: int)
    requires
        0 <= i < s.len(),
    ensures
        s.take(i + 1).to_set() == s.take(i).to_set().insert(s[i]),
{
    let longer = s.take(i + 1);
    let shorter = s.take(i);
    assert(longer =~= shorter.push(s[i]));
    assert forall|x: T| #[trigger]
        longer.to_set().contains(x) == shorter.to_set().insert(s[i]).contains(x) by {
        if shorter.contains(x) {
            let k = choose|k: int| 0 <= k < shorter.len() && shorter[k] == x;
            assert(longer[k] == x);
        }
        if longer.contains(x) {
            let k = choose|k: int| 0 <= k < longer.len() && longer[k] == x;
            if k < i {
                assert(shorter[k] == x);
            }
        }
        assert(longer[i] == s[i]);
    }
    assert(longer.to_set() =~= shorter.to_set().insert(s[i]));
}

/// Gives back the cores of a cluster that [`allocate_cluster`] returned.
pub fn release_cluster(pool: &mut PoolLedger, cluster: CpuSet)
    ensures
        cpu_set_view(final(pool).claimed_cores) == cpu_set_view(
            old(pool).claimed_cores,
        ).difference(cpu_set_view(cluster)),
        final(pool).light_utilization_scaled == old(pool).light_utilization_scaled,
{
    let cpus = cpu_set_to_vec(cluster);
    let mut i: usize = 0;
    assert(cpus@.take(0).to_set() =~= Set::<usize>::empty());
    assert(cpu_set_view(pool.claimed_cores) =~= cpu_set_view(pool.claimed_cores).difference(
        cpus@.take(0).to_set(),
    ));
    while i < cpus.len()
        invariant
            i <= cpus@.len(),
            forall|k: int| 0 <= k < cpus@.len() ==> cpus@[k] < NUM_MAX_CPU,
            cpu_set_view(pool.claimed_cores) == cpu_set_view(old(pool).claimed_cores).difference(
                cpus@.take(i as int).to_set(),
            ),
            pool.light_utilization_scaled == old(pool).light_utilization_scaled,
        decreases cpus@.len() - i,
    {
        pool.claimed_cores = cpu_set_without(pool.claimed_cores, cpus[i]);
        proof {
            lemma_take_one_more(cpus@, i as int);
            assert(cpu_set_view(pool.claimed_cores) =~= cpu_set_view(
                old(pool).claimed_cores,
            ).difference(cpus@.take(i + 1).to_set()));
        }
        i = i + 1;
    }
    proof {
        assert(cpus@.take(i as int) =~= cpus@);
        assert(cpus@.to_set() =~= cpu_set_view(cluster));
    }
}

/// Commits `additional` parts per million against the shared pool, if they fit.
fn reserve_scaled(pool: &mut PoolLedger, num_cpu: usize, additional: u64) -> (result: Result<
    u64,
    ResourceError,
>)
    requires
        num_cpu <= NUM_MAX_CPU,
    ensures
        reservation(*old(pool), *final(pool), num_cpu, additional, result),
{
    let capacity: u64 = light_pool_size(pool, num_cpu) as u64 * UTILIZATION_SCALE;
    let committed: u64 = pool.light_utilization_scaled;
    if committed.saturating_add(additional) > capacity {
        return Err(
            ResourceError::LightPoolOversubscribed {
                additional_utilization_scaled: additional,
                available_capacity_scaled: capacity.saturating_sub(committed),
            },
        );
    }
    pool.light_utilization_scaled = committed + additional;
    Ok(additional)
}

/// What a reservation of `additional` parts per million does: it succeeds exactly
/// if the committed total stays within the shared pool's capacity, and is then
/// added to the total; otherwise nothing changes.
pub open spec fn reservation(
    before: PoolLedger,
    after: PoolLedger,
    num_cpu: usize,
    additional: u64,
    result: Result<u64, ResourceError>,
) -> bool {
    let capacity = before.capacity(num_cpu);
    let committed = before.light_utilization_scaled;
    if committed + additional <= capacity {
        &&& result == Ok::<u64, ResourceError>(additional)
        &&& after == (PoolLedger {
            light_utilization_scaled: (committed + additional) as u64,
            ..before
        })
    } else {
        &&& result == Err::<u64, ResourceError>(
            ResourceError::LightPoolOversubscribed {
                additional_utilization_scaled: additional,
                available_capacity_scaled: if capacity > committed {
                    (capacity - committed) as u64
                } else {
                    0
                },
            },
        )
        &&& after == before
    }
}

/// What giving back `released` parts per million does.
pub open spec fn released(before: PoolLedger, released: u64) -> PoolLedger {
    PoolLedger {
        light_utilization_scaled: if before.light_utilization_scaled > released {
            (before.light_utilization_scaled - released) as u64
        } else {
            0
        },
        ..before
    }
}

/// Commits the utilization `volume / window` against the shared pool and returns
/// the scaled amount. This is the condition that every scheduling algorithm needs:
/// the sum of the utilizations stays within the number of cores.
pub fn reserve_light_utilization(
    pool: &mut PoolLedger,
    num_cpu: usize,
    volume: u64,
    window: u64,
) -> (result: Result<u64, ResourceError>)
    requires
        num_cpu <= NUM_MAX_CPU,
    ensures
        reservation(
            *old(pool),
            *final(pool),
            num_cpu,
            scaled_ratio(volume as int, window as int) as u64,
            result,
        ),
{
    let additional: u64 = utilization_scaled(volume, window);
    reserve_scaled(pool, num_cpu, additional)
}

/// Gives back what [`reserve_light_utilization`] committed for the same demand.
pub fn release_light_utilization(pool: &mut PoolLedger, volume: u64, window: u64)
    ensures
        *final(pool) == released(*old(pool), scaled_ratio(volume as int, window as int) as u64),
{
    let amount: u64 = utilization_scaled(volume, window);
    pool.light_utilization_scaled = pool.light_utilization_scaled.saturating_sub(amount);
}

/// Commits a DAG-Fluid task's capacity, in parts per million of a core, against
/// the same shared pool.
pub fn reserve_dagfluid_capacity(pool: &mut PoolLedger, num_cpu: usize, required_scaled: u64) -> (
result: Result<u64, ResourceError>)
    requires
        num_cpu <= NUM_MAX_CPU,
    ensures
        reservation(*old(pool), *final(pool), num_cpu, required_scaled, result),
{
    reserve_scaled(pool, num_cpu, required_scaled)
}

/// Gives back what [`reserve_dagfluid_capacity`] committed.
pub fn release_dagfluid_capacity(pool: &mut PoolLedger, required_scaled: u64)
    ensures
        *final(pool) == released(*old(pool), required_scaled),
{
    pool.light_utilization_scaled = pool.light_utilization_scaled.saturating_sub(required_scaled);
}

/// The shared pool's worker CPUs, which every DAG-Fluid task dispatches on.
pub fn dagfluid_pool_cpu_set(pool: &PoolLedger, num_cpu: usize) -> (set: CpuSet)
    requires
        num_cpu <= NUM_MAX_CPU,
    ensures
        cpu_set_view(set) == pool.free(num_cpu).to_set(),
{
    let free = pool.free_list(num_cpu);
    let mut set = cpu_set_empty();
    let mut i: usize = 0;
    assert(free@.take(0).to_set() =~= Set::<usize>::empty());
    while i < free.len()
        invariant
            i <= free@.len(),
            num_cpu <= NUM_MAX_CPU,
            forall|k: int| 0 <= k < free@.len() ==> 1 <= #[trigger] free@[k] < num_cpu,
            cpu_set_view(set) == free@.take(i as int).to_set(),
        decreases free@.len() - i,
    {
        set = cpu_set_with(set, free[i]);
        proof {
            lemma_take_one_more(free@, i as int);
        }
        i = i + 1;
    }
    assert(free@.take(i as int) =~= free@);
    set
}

/// The free workers below a lower bound are the first of those below a higher one.
proof fn lemma_free_workers_prefix(claimed: Set<usize>, num_cpu: usize, low: int, high: int)
    requires
        low <= high <= usize::MAX,
    ensures
        free_workers_below(claimed, num_cpu, low).len() <= free_workers_below(
            claimed,
            num_cpu,
            high,
        ).len(),
        free_workers_below(claimed, num_cpu, low) == free_workers_below(
            claimed,
            num_cpu,
            high,
        ).take(free_workers_below(claimed, num_cpu, low).len() as int),
    decreases high - low,
{
    if low == high {
        assert(free_workers_below(claimed, num_cpu, low) =~= free_workers_below(
            claimed,
            num_cpu,
            high,
        ).take(free_workers_below(claimed, num_cpu, low).len() as int));
    } else {
        lemma_free_workers_prefix(claimed, num_cpu, low, high - 1);
        assert(free_workers_below(claimed, num_cpu, low) =~= free_workers_below(
            claimed,
            num_cpu,
            high,
        ).take(free_workers_below(claimed, num_cpu, low).len() as int));
    }
}

proof fn lemma_free_after_claim_below(
    claimed: Set<usize>,
    num_cpu: usize,
    count: int,
    bound: int,
)
    requires
        0 <= count <= free_workers(claimed, num_cpu).len(),
        bound <= num_cpu,
    ensures
        ({
            let before = free_workers_below(claimed, num_cpu, bound);
            let after = free_workers_below(
                claimed.union(free_workers(claimed, num_cpu).take(count).to_set()),
                num_cpu,
                bound,
            );
            after == if before.len() <= count {
                Seq::empty()
            } else {
                before.skip(count)
            }
        }),
    decreases bound,
{
    if bound > 1 {
        lemma_free_after_claim_below(claimed, num_cpu, count, bound - 1);
        lemma_free_workers(claimed, num_cpu, num_cpu as int);
        lemma_free_workers_prefix(claimed, num_cpu, bound, num_cpu as int);
        lemma_free_workers_prefix(claimed, num_cpu, bound - 1, num_cpu as int);
        let all = free_workers(claimed, num_cpu);
        let taken = all.take(count);
        let shorter = free_workers_below(claimed, num_cpu, bound - 1);
        let before = free_workers_below(claimed, num_cpu, bound);
        let cpu = (bound - 1) as usize;
        let claimed_after = claimed.union(taken.to_set());
        if is_free_worker(claimed, num_cpu, bound, cpu) {
            assert(before == shorter.push(cpu));
            assert(before[shorter.len() as int] == cpu);
            assert(all[shorter.len() as int] == cpu);
            if shorter.len() < count {
                assert(taken[shorter.len() as int] == cpu);
                assert(taken.contains(cpu));
                assert(claimed_after.contains(cpu));
            } else {
                assert(!taken.contains(cpu)) by {
                    if taken.contains(cpu) {
                        let k = choose|k: int| 0 <= k < taken.len() && taken[k] == cpu;
                        assert(all[k] == cpu);
                    }
                }
                assert(!claimed_after.contains(cpu));
                assert(before.skip(count) =~= shorter.skip(count).push(cpu));
                if shorter.len() == count {
                    assert(shorter.skip(count) =~= Seq::<usize>::empty());
                }
            }
        } else {
            if taken.contains(cpu) {
                let k = choose|k: int| 0 <= k < taken.len() && taken[k] == cpu;
                assert(all[k] == cpu);
            }
        }
    }
}

/// After the first `count` free workers have been claimed, the rest are free, in
/// the same order: no core is handed out twice and none is lost.
pub proof fn lemma_free_after_claim(claimed: Set<usize>, num_cpu: usize, count: int)
    requires
        0 <= count <= free_workers(claimed, num_cpu).len(),
    ensures
        free_workers(
            claimed.union(free_workers(claimed, num_cpu).take(count).to_set()),
            num_cpu,
        ) == free_workers(claimed, num_cpu).skip(count),
{
    lemma_free_after_claim_below(claimed, num_cpu, count, num_cpu as int);
    if free_workers(claimed, num_cpu).len() == count {
        assert(free_workers(claimed, num_cpu).skip(count) =~= Seq::<usize>::empty());
    }
}

/// Cores that are handed out were not claimed before, are never CPU 0 and are
/// never the core of the regular pool.
pub proof fn lemma_cluster_is_fresh(claimed: Set<usize>, num_cpu: usize, count: int, cpu: usize)
    requires
        0 <= count <= free_workers(claimed, num_cpu).len(),
        free_workers(claimed, num_cpu).take(count).to_set().contains(cpu),
    ensures
        !claimed.contains(cpu),
        0 < cpu < num_cpu,
        dag_pool_core(cpu as int, num_cpu as int),
{
    let all = free_workers(claimed, num_cpu);
    lemma_free_workers(claimed, num_cpu, num_cpu as int);
    let k = choose|k: int| 0 <= k < all.take(count).len() && all.take(count)[k] == cpu;
    assert(all[k] == cpu);
}

/// Releasing a cluster right after it was claimed restores the claimed cores.
pub proof fn lemma_release_undoes_claim(claimed: Set<usize>, num_cpu: usize, count: int)
    requires
        0 <= count <= free_workers(claimed, num_cpu).len(),
    ensures
        ({
            let cluster = free_workers(claimed, num_cpu).take(count).to_set();
            claimed.union(cluster).difference(cluster) == claimed
        }),
{
    let cluster = free_workers(claimed, num_cpu).take(count).to_set();
    assert forall|cpu: usize| claimed.contains(cpu) implies !cluster.contains(cpu) by {
        if cluster.contains(cpu) {
            lemma_cluster_is_fresh(claimed, num_cpu, count, cpu);
        }
    }
    assert(claimed.union(cluster).difference(cluster) =~= claimed);
}

/// A reservation that succeeded is undone by releasing the same amount, and until
/// then the committed total is within the shared pool's capacity.
pub proof fn lemma_release_undoes_reservation(
    before: PoolLedger,
    after: PoolLedger,
    num_cpu: usize,
    additional: u64,
    result: Result<u64, ResourceError>,
)
    requires
        reservation(before, after, num_cpu, additional, result),
        num_cpu <= NUM_MAX_CPU,
        result is Ok,
    ensures
        released(after, additional) == before,
        after.light_utilization_scaled <= after.capacity(num_cpu),
{
    lemma_free_workers(cpu_set_view(before.claimed_cores), num_cpu, num_cpu as int);
}

/// A share of the pool is granted exactly if, with what has been granted before, it is at most
/// one million for each core that no cluster has claimed. A refusal says how much could have
/// been granted: that much would be, and no more.
pub proof fn lemma_pool_is_shared_to_the_full(
    before: PoolLedger,
    after: PoolLedger,
    num_cpu: usize,
    additional: u64,
    result: Result<u64, ResourceError>,
    other: u64,
)
    requires
        reservation(before, after, num_cpu, additional, result),
        num_cpu <= NUM_MAX_CPU,
    ensures
        result is Ok <==> before.light_utilization_scaled + additional <= before.free(num_cpu).len()
            * 1_000_000,
        result is Ok ==> result->Ok_0 == additional && after.claimed_cores == before.claimed_cores
            && after.light_utilization_scaled == before.light_utilization_scaled + additional,
        result is Err ==> after == before,
        result matches Err(error) ==> {
            &&& error matches ResourceError::LightPoolOversubscribed {
                additional_utilization_scaled,
                available_capacity_scaled,
            }
            &&& additional_utilization_scaled == additional
            &&& before.light_utilization_scaled <= before.free(num_cpu).len() * 1_000_000 ==> (
            other <= available_capacity_scaled <==> before.light_utilization_scaled + other
                <= before.free(num_cpu).len() * 1_000_000)
            &&& before.light_utilization_scaled > before.free(num_cpu).len() * 1_000_000
                ==> available_capacity_scaled == 0
        },
{
    lemma_free_workers(cpu_set_view(before.claimed_cores), num_cpu, num_cpu as int);
}

/// Parts per million are told in percent, rounded down to hundredths: the number before the
/// point and the two digits behind it.
pub proof fn lemma_percent_is_rounded_down(scaled: nat)
    ensures
        exists|whole: nat, hundredths: nat|
            {
                &&& #[trigger] told_as(scaled, whole, hundredths)
                &&& hundredths < 100
                &&& (whole * 100 + hundredths) * 100 <= scaled < (whole * 100 + hundredths + 1)
                    * 100
            },
{
    assert(told_as(scaled, scaled / 10_000, scaled % 10_000 / 100));
}

/// Parts per million are told as this many percent and hundredths of a percent.
pub open spec fn told_as(scaled: nat, whole: nat, hundredths: nat) -> bool {
    percent_text(scaled) == decimal(whole) + "."@ + two_digits(hundredths)
}

/// Cores are handed out from the lowest on: a DAG worker that is free and not among the cores
/// handed out is above all of them.
pub proof fn lemma_lowest_free_cores_are_taken(
    claimed: Set<usize>,
    num_cpu: usize,
    count: int,
    cpu: usize,
    other: usize,
)
    requires
        0 <= count <= free_workers(claimed, num_cpu).len(),
        free_workers(claimed, num_cpu).take(count).contains(cpu),
        !free_workers(claimed, num_cpu).take(count).contains(other),
        0 < other < num_cpu,
        dag_pool_core(other as int, num_cpu as int),
        !claimed.contains(other),
    ensures
        cpu < other,
{
    let free = free_workers(claimed, num_cpu);
    let taken = free.take(count);
    lemma_free_workers(claimed, num_cpu, num_cpu as int);
    assert(is_free_worker(claimed, num_cpu, num_cpu as int, other));
    let i = choose|i: int| 0 <= i < taken.len() && taken[i] == cpu;
    let j = choose|j: int| 0 <= j < free.len() && free[j] == other;
    if j < count {
        assert(taken[j] == other);
    }
    assert(free[i] < free[j]);
}

} // verus!
