//! DAG-level metrics shared by every admission policy.

use vstd::prelude::*;

verus! {

/// Where a [`DagMetrics`]'s `volume` and `critical_path` came from.
///
/// It never affects any policy's admission math: it only records provenance.
#[derive(Debug, Clone, Copy, PartialEq, Eq, Structural)]
pub enum MetricsSource {
    /// Computed ahead of time from a fully known DAG structure.
    Static,
    /// A human's own estimate, or a live measurement.
    Measured,
}

/// The parallelism bound of a DAG whose maximum parallelism is not known.
pub const UNKNOWN_PARALLELISM: u16 = 0xFFFF;

/// Everything an admission policy reads of a DAG.
#[derive(Debug, Clone, Copy, PartialEq, Eq, Structural)]
pub struct DagMetrics {
    /// `C`: total WCET volume, the sum of every node's WCET.
    pub volume: u64,
    /// `L`: critical-path length, the WCET sum along the longest path.
    pub critical_path: u64,
    /// `T`: period.
    pub period: u64,
    /// `D`: relative deadline, in the same time unit as the others.
    pub relative_deadline: u64,
    /// The most nodes that can ever run at once, or [`UNKNOWN_PARALLELISM`].
    pub max_parallelism: u16,
    pub source: MetricsSource,
}

/// `a / b` rounded up.
pub open spec fn ceil_div(a: int, b: int) -> int {
    if a % b == 0 {
        a / b
    } else {
        a / b + 1
    }
}

impl DagMetrics {
    /// `ceil((C - L) / (D - L))`, at least one: the cores that a DAG with
    /// `L < D` needs for itself alone.
    pub open spec fn dedicated_cores(self) -> int
        recommends
            self.critical_path < self.relative_deadline,
    {
        let work = if self.volume > self.critical_path {
            self.volume - self.critical_path
        } else {
            0
        };
        let cores = ceil_div(work, self.relative_deadline - self.critical_path);
        if cores < 1 {
            1
        } else {
            cores
        }
    }

    /// [`DagMetrics::min_dedicated_cores`] as a function.
    pub open spec fn spec_min_dedicated_cores(self) -> Option<u16> {
        if self.relative_deadline <= self.critical_path || self.dedicated_cores() > u16::MAX {
            None
        } else {
            Some(self.dedicated_cores() as u16)
        }
    }

    /// Builds a config from a priori known values.
    pub fn from_static(
        volume: u64,
        critical_path: u64,
        period: u64,
        relative_deadline: u64,
    ) -> (metrics: Self)
        ensures
            metrics == (DagMetrics {
                volume,
                critical_path,
                period,
                relative_deadline,
                max_parallelism: UNKNOWN_PARALLELISM,
                source: MetricsSource::Static,
            }),
    {
        DagMetrics {
            volume,
            critical_path,
            period,
            relative_deadline,
            max_parallelism: UNKNOWN_PARALLELISM,
            source: MetricsSource::Static,
        }
    }

    /// Builds a config from an estimate, for a DAG whose full structure is not
    /// known ahead of admission.
    pub fn from_measured(
        volume: u64,
        critical_path: u64,
        period: u64,
        relative_deadline: u64,
    ) -> (metrics: Self)
        ensures
            metrics == (DagMetrics {
                volume,
                critical_path,
                period,
                relative_deadline,
                max_parallelism: UNKNOWN_PARALLELISM,
                source: MetricsSource::Measured,
            }),
    {
        DagMetrics {
            volume,
            critical_path,
            period,
            relative_deadline,
            max_parallelism: UNKNOWN_PARALLELISM,
            source: MetricsSource::Measured,
        }
    }

    pub fn is_measured(&self) -> (measured: bool)
        ensures
            measured == (self.source == MetricsSource::Measured),
    {
        match self.source {
            MetricsSource::Static => false,
            MetricsSource::Measured => true,
        }
    }

    /// The fewest dedicated cores on which the DAG meets its deadline:
    /// `ceil((C - L) / (D - L))`, at least one. `None` if the critical path alone
    /// leaves no slack (`D <= L`), or if the count exceeds every core count.
    pub fn min_dedicated_cores(&self) -> (cores: Option<u16>)
        ensures
            cores == self.spec_min_dedicated_cores(),
    {
        if self.relative_deadline <= self.critical_path {
            return None;
        }
        let slack: u64 = self.relative_deadline - self.critical_path;
        let work: u64 = self.volume.saturating_sub(self.critical_path);
        let whole: u64 = work / slack;
        let up: u64 = if work % slack == 0 {
            0
        } else {
            1
        };
        if whole > 0xFFFF - up {
            return None;
        }
        let cores: u64 = whole + up;
        if cores == 0 {
            Some(1)
        } else {
            Some(cores as u16)
        }
    }
}

/// The two constructors differ only in the provenance that they record.
pub proof fn lemma_source_never_affects_the_core_count(a: DagMetrics, b: DagMetrics)
    requires
        a == (DagMetrics { source: a.source, ..b }),
    ensures
        a.spec_min_dedicated_cores() == b.spec_min_dedicated_cores(),
{
}

/// Whether a DAG meets its deadline on `m` cores of its own, however its nodes are ordered: the
/// critical path and an equal part of the other work take no longer than the deadline.
pub open spec fn meets_deadline_on(config: DagMetrics, m: int) -> bool {
    m >= 1 && m * config.critical_path + (config.volume - config.critical_path) <= m
        * config.relative_deadline
}

/// The core count of a DAG is the smallest on which it meets its deadline. There is none exactly
/// if the critical path takes all of the deadline, or no count in range suffices.
pub proof fn lemma_core_count_is_the_fewest(config: DagMetrics)
    ensures
        match config.spec_min_dedicated_cores() {
            Some(m) => {
                &&& config.critical_path < config.relative_deadline
                &&& meets_deadline_on(config, m as int)
                &&& m == 1 || !meets_deadline_on(config, m - 1)
            },
            None => config.relative_deadline <= config.critical_path || !meets_deadline_on(
                config,
                u16::MAX as int,
            ),
        },
{
    if config.critical_path < config.relative_deadline {
        let (c, l, d) = (
            config.volume as int,
            config.critical_path as int,
            config.relative_deadline as int,
        );
        let slack = d - l;
        let work = if c > l {
            c - l
        } else {
            0
        };
        let q = work / slack;
        let r = work % slack;
        assert(work == q * slack + r && 0 <= r < slack && 0 <= q) by (nonlinear_arith)
            requires
                q == work / slack,
                r == work % slack,
                0 < slack,
                0 <= work,
        ;
        let up = ceil_div(work, slack);
        let m = config.dedicated_cores();
        assert(work <= up * slack && (up - 1) * slack < work || work == 0) by (nonlinear_arith)
            requires
                work == q * slack + r,
                0 <= r < slack,
                up == if r == 0 {
                    q
                } else {
                    q + 1
                },
                0 <= q,
        ;
        assert(work == 0 ==> up == 0) by (nonlinear_arith)
            requires
                work == q * slack + r,
                0 <= r < slack,
                0 <= q,
                up == if r == 0 {
                    q
                } else {
                    q + 1
                },
        ;
        assert(up * slack <= m * slack) by (nonlinear_arith)
            requires
                up <= m,
                0 < slack,
        ;
        assert(forall|n: int|
            n >= 1 ==> (#[trigger] meets_deadline_on(config, n) <==> c - l <= n * slack)) by {
            assert forall|n: int| n >= 1 implies (#[trigger] meets_deadline_on(config, n) <==> c - l
                <= n * slack) by {
                assert(n * slack == n * d - n * l) by (nonlinear_arith)
                    requires
                        slack == d - l,
                ;
            }
        }
        assert(meets_deadline_on(config, m)) by {
            if work == 0 {
                assert(0 <= m * slack) by (nonlinear_arith)
                    requires
                        0 < slack,
                        m >= 1,
                ;
            }
        }
        if m > 1 {
            assert(!meets_deadline_on(config, m - 1));
        }
        if m > u16::MAX {
            assert(u16::MAX * slack <= (m - 1) * slack) by (nonlinear_arith)
                requires
                    u16::MAX <= m - 1,
                    0 < slack,
            ;
            assert(!meets_deadline_on(config, u16::MAX as int));
        }
    }
}

} // verus!
