//! Partitioned EDF: the fallback for a light DAG that no passive VP can serve.

use vstd::prelude::*;

use crate::dag_sched::resource::UTILIZATION_SCALE;

verus! {

/// Which of the open partitions with room a light DAG joins.
#[derive(Debug, Clone, Copy, PartialEq, Eq, Structural)]
pub enum PackingStrategy {
    /// The one that was opened first.
    FirstFit,
    /// The one with the least remaining room.
    BestFit,
    /// The one with the most remaining room.
    WorstFit,
}

/// One core that hosts light DAGs under single-core EDF, as long as their
/// densities together stay within the core's capacity.
#[derive(Debug, Clone, Copy, PartialEq, Eq, Structural)]
pub struct Partition {
    pub committed_density_scaled: u64,
}

impl Partition {
    /// The room that is left, in parts per million.
    pub open spec fn room(self) -> int {
        if UTILIZATION_SCALE > self.committed_density_scaled {
            UTILIZATION_SCALE - self.committed_density_scaled
        } else {
            0
        }
    }

    pub fn remaining_scaled(&self) -> (room: u64)
        ensures
            room == self.room(),
    {
        UTILIZATION_SCALE.saturating_sub(self.committed_density_scaled)
    }
}

/// Whether a light DAG of the given density would join `candidate` rather than
/// `best`, which was opened earlier; both have room.
pub open spec fn preferred(
    strategy: PackingStrategy,
    candidate: Partition,
    best: Partition,
) -> bool {
    match strategy {
        PackingStrategy::FirstFit => false,
        PackingStrategy::BestFit => candidate.room() < best.room(),
        PackingStrategy::WorstFit => candidate.room() >= best.room(),
    }
}

/// The choice among the first `n` partitions.
pub open spec fn choice_below(
    strategy: PackingStrategy,
    partitions: Seq<Partition>,
    density_scaled: u64,
    n: int,
) -> Option<usize>
    decreases n,
{
    if n <= 0 {
        None
    } else {
        let best = choice_below(strategy, partitions, density_scaled, n - 1);
        let candidate = partitions[n - 1];
        if candidate.room() < density_scaled {
            best
        } else {
            match best {
                None => Some((n - 1) as usize),
                Some(b) => if preferred(strategy, candidate, partitions[b as int]) {
                    Some((n - 1) as usize)
                } else {
                    best
                },
            }
        }
    }
}

/// [`choose_partition`] as a function.
pub open spec fn chosen_partition(
    strategy: PackingStrategy,
    partitions: Seq<Partition>,
    density_scaled: u64,
) -> Option<usize> {
    choice_below(strategy, partitions, density_scaled, partitions.len() as int)
}

proof fn lemma_choice_below(
    strategy: PackingStrategy,
    partitions: Seq<Partition>,
    density_scaled: u64,
    n: int,
)
    requires
        0 <= n <= partitions.len() <= usize::MAX,
    ensures
        match choice_below(strategy, partitions, density_scaled, n) {
            None => forall|j: int| 0 <= j < n ==> (#[trigger] partitions[j]).room() < density_scaled,
            Some(i) => {
                &&& i < n
                &&& partitions[i as int].room() >= density_scaled
                &&& forall|j: int|
                    0 <= j < n && (#[trigger] partitions[j]).room() >= density_scaled
                        ==> match strategy {
                        PackingStrategy::FirstFit => i <= j,
                        PackingStrategy::BestFit => partitions[i as int].room()
                            <= partitions[j].room() && (partitions[j].room()
                            == partitions[i as int].room() ==> i <= j),
                        PackingStrategy::WorstFit => partitions[i as int].room()
                            >= partitions[j].room() && (partitions[j].room()
                            == partitions[i as int].room() ==> j <= i),
                    }
            },
        },
    decreases n,
{
    if n > 0 {
        lemma_choice_below(strategy, partitions, density_scaled, n - 1);
    }
}

/// What the choice guarantees. None is chosen exactly if none has room. First fit
/// takes the earliest with room; best fit one with the least room, the earliest of
/// several; worst fit one with the most room, the latest of several.
pub proof fn lemma_chosen_partition(
    strategy: PackingStrategy,
    partitions: Seq<Partition>,
    density_scaled: u64,
)
    requires
        partitions.len() <= usize::MAX,
    ensures
        match chosen_partition(strategy, partitions, density_scaled) {
            None => forall|j: int|
                0 <= j < partitions.len() ==> (#[trigger] partitions[j]).room() < density_scaled,
            Some(i) => {
                &&& i < partitions.len()
                &&& partitions[i as int].room() >= density_scaled
                &&& forall|j: int|
                    0 <= j < partitions.len() && (#[trigger] partitions[j]).room()
                        >= density_scaled ==> match strategy {
                        PackingStrategy::FirstFit => i <= j,
                        PackingStrategy::BestFit => partitions[i as int].room()
                            <= partitions[j].room() && (partitions[j].room()
                            == partitions[i as int].room() ==> i <= j),
                        PackingStrategy::WorstFit => partitions[i as int].room()
                            >= partitions[j].room() && (partitions[j].room()
                            == partitions[i as int].room() ==> j <= i),
                    }
            },
        },
{
    lemma_choice_below(strategy, partitions, density_scaled, partitions.len() as int);
}

/// Picks the partition that a DAG of density `density_scaled` joins, or none if a
/// new one has to be opened.
pub fn choose_partition(
    strategy: PackingStrategy,
    partitions: &[Partition],
    density_scaled: u64,
) -> (choice: Option<usize>)
    ensures
        choice == chosen_partition(strategy, partitions@, density_scaled),
{
    let mut best: Option<usize> = None;
    let mut i: usize = 0;
    while i < partitions.len()
        invariant
            i <= partitions@.len(),
            best == choice_below(strategy, partitions@, density_scaled, i as int),
            best matches Some(b) ==> b < partitions@.len(),
        decreases partitions@.len() - i,
    {
        let room: u64 = partitions[i].remaining_scaled();
        if room >= density_scaled {
            best =
            match best {
                None => Some(i),
                Some(b) => {
                    let best_room: u64 = partitions[b].remaining_scaled();
                    let better: bool = match strategy {
                        PackingStrategy::FirstFit => false,
                        PackingStrategy::BestFit => room < best_room,
                        PackingStrategy::WorstFit => room >= best_room,
                    };
                    if better {
                        Some(i)
                    } else {
                        Some(b)
                    }
                },
            };
        }
        i = i + 1;
    }
    best
}

} // verus!
