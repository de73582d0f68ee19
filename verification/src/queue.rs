//! The run queue of the clustered schedulers.
//!
//! It is the `AffinityBTreeQueue` of the `affinity_btree_queue` crate, with the key
//! that every clustered scheduler uses and a task's slot in the task table as the
//! value. The queue is opaque to the verifier: [`queue_view`] names its entries in the
//! order of their keys, and [`queue_cpus`] and [`queue_pushes`] name the CPU count it
//! was made for and the number of entries that it ever accepted.

use affinity_btree_queue::{AffinityBTreeQueue, PushError};
use vstd::prelude::*;

use crate::cpu::{cpu_set_view, CpuSet, NUM_MAX_CPU};

verus! {

/// Declares the outside type `affinity_btree_queue::AffinityBTreeQueue`.
#[verifier::external_type_specification]
#[verifier::external_body]
#[verifier::reject_recursive_types(P)]
#[verifier::reject_recursive_types(V)]
pub struct ExAffinityBTreeQueue<P, V, const T: usize, const N: usize>(
    AffinityBTreeQueue<P, V, T, N>,
);

/// The order of an entry: earlier deadline first, then higher node priority (stored
/// complemented), then earlier wake time.
pub type QueueKey = (u64, u64, u64);

/// An entry of a queue: its key, the CPUs it may run on, and its task's slot.
pub type QueueEntry = (QueueKey, Set<usize>, usize);

/// The run queue, for up to [`NUM_MAX_CPU`] CPUs.
pub type RunQueue = AffinityBTreeQueue<(u64, u64, u64), usize, 16, 8>;

/// The entries of a queue by ascending key; of equal keys the one that was pushed
/// first comes first.
pub uninterp spec fn queue_view(
    queue: AffinityBTreeQueue<(u64, u64, u64), usize, 16, 8>,
) -> Seq<((u64, u64, u64), Set<usize>, usize)>;

/// The number of CPUs that a queue was made for.
pub uninterp spec fn queue_cpus(
    queue: AffinityBTreeQueue<(u64, u64, u64), usize, 16, 8>,
) -> nat;

/// How many entries a queue ever accepted.
pub uninterp spec fn queue_pushes(
    queue: AffinityBTreeQueue<(u64, u64, u64), usize, 16, 8>,
) -> nat;

/// Why a queue refuses an entry.
#[derive(Debug, Clone, Copy, PartialEq, Eq, Structural)]
pub enum PushRefusal {
    /// The entry may run on no CPU.
    EmptyAffinity,
    /// The entry may run on a CPU that the queue was not made for.
    InvalidCpu,
    /// The queue has accepted as many entries as it can number.
    SequenceOverflow,
}

/// Whether key `a` comes no later than key `b`: keys are ordered lexicographically.
pub open spec fn key_no_later(a: QueueKey, b: QueueKey) -> bool {
    a.0 < b.0 || (a.0 == b.0 && (a.1 < b.1 || (a.1 == b.1 && a.2 <= b.2)))
}

/// An entry put behind all entries whose keys come no later than its own.
pub open spec fn with_entry(entries: Seq<QueueEntry>, entry: QueueEntry) -> Seq<QueueEntry>
    decreases entries.len(),
{
    if entries.len() == 0 || key_no_later(entries.last().0, entry.0) {
        entries.push(entry)
    } else {
        with_entry(entries.drop_last(), entry).push(entries.last())
    }
}

/// The place of the first entry, from `i` on, that may run on `cpu`; the number of
/// entries if there is none.
pub open spec fn first_for_cpu(entries: Seq<QueueEntry>, cpu: usize, i: int) -> int
    decreases entries.len() - i,
{
    if i >= entries.len() || entries[i].1.contains(cpu) {
        i
    } else {
        first_for_cpu(entries, cpu, i + 1)
    }
}

/// Why a queue would refuse an entry, if it would.
pub open spec fn refusal(cpus: nat, pushes: nat, affinity: Set<usize>) -> Option<PushRefusal> {
    if affinity == Set::<usize>::empty() {
        Some(PushRefusal::EmptyAffinity)
    } else if exists|cpu: usize| affinity.contains(cpu) && cpu >= cpus {
        Some(PushRefusal::InvalidCpu)
    } else if pushes >= u64::MAX {
        Some(PushRefusal::SequenceOverflow)
    } else {
        None
    }
}

/// Trusted: `AffinityBTreeQueue::new` makes an empty queue for `num_cpu` CPUs. It
/// panics if the CPUs do not fit into the affinity masks, which `requires` leaves out.
#[verifier::external_body]
pub(crate) fn queue_new(num_cpu: usize) -> (queue: RunQueue)
    requires
        num_cpu <= NUM_MAX_CPU,
    ensures
        queue_view(queue) == Seq::<((u64, u64, u64), Set<usize>, usize)>::empty(),
        queue_cpus(queue) == num_cpu,
        queue_pushes(queue) == 0,
{
    AffinityBTreeQueue::new(num_cpu)
}

/// Trusted: `AffinityBTreeQueue::push` refuses an entry with an empty affinity, with a
/// CPU beyond the queue's CPUs, or once its 64-bit sequence number is used up, tested in
/// this order, and then changes nothing. Otherwise it adds the entry behind all entries
/// whose keys come no later than the new one's: entries are ordered by key and then by
/// sequence number.
#[verifier::external_body]
pub(crate) fn queue_push(
    queue: &mut RunQueue,
    key: (u64, u64, u64),
    affinity: CpuSet,
    slot: usize,
) -> (result: Result<(), PushRefusal>)
    ensures
        queue_cpus(*final(queue)) == queue_cpus(*old(queue)),
        match refusal(queue_cpus(*old(queue)), queue_pushes(*old(queue)), cpu_set_view(affinity)) {
            Some(reason) => result == Err::<(), PushRefusal>(reason) && queue_view(*final(queue))
                == queue_view(*old(queue)) && queue_pushes(*final(queue)) == queue_pushes(
                *old(queue),
            ),
            None => result is Ok && queue_view(*final(queue)) == with_entry(
                queue_view(*old(queue)),
                (key, cpu_set_view(affinity), slot),
            ) && queue_pushes(*final(queue)) == queue_pushes(*old(queue)) + 1,
        },
{
    match queue.push(key, affinity, slot) {
        Ok(_) => Ok(()),
        Err(PushError::EmptyAffinity) => Err(PushRefusal::EmptyAffinity),
        Err(PushError::InvalidCpu) => Err(PushRefusal::InvalidCpu),
        Err(PushError::SequenceOverflow) => Err(PushRefusal::SequenceOverflow),
    }
}

/// Trusted: `AffinityBTreeQueue::pop_for_cpu` removes and returns the first entry, by
/// key, that may run on `cpu`; it returns none, and changes nothing, if there is no such
/// entry or `cpu` is beyond the queue's CPUs.
#[verifier::external_body]
pub(crate) fn queue_pop_for_cpu(queue: &mut RunQueue, cpu: usize) -> (popped: Option<
    ((u64, u64, u64), CpuSet, usize),
>)
    ensures
        queue_cpus(*final(queue)) == queue_cpus(*old(queue)),
        queue_pushes(*final(queue)) == queue_pushes(*old(queue)),
        ({
            let entries = queue_view(*old(queue));
            let at = first_for_cpu(entries, cpu, 0);
            match popped {
                Some((key, affinity, slot)) => {
                    &&& cpu < queue_cpus(*old(queue))
                    &&& at < entries.len()
                    &&& (key, cpu_set_view(affinity), slot) == entries[at]
                    &&& queue_view(*final(queue)) == entries.remove(at)
                },
                None => {
                    &&& cpu >= queue_cpus(*old(queue)) || at == entries.len()
                    &&& queue_view(*final(queue)) == entries
                },
            }
        }),
{
    match queue.pop_for_cpu(cpu) {
        Some((key, affinity, slot)) => Some((key.priority, affinity, slot)),
        None => None,
    }
}

/// Whether some entry may run on `cpu`.
pub open spec fn queued_for_cpu(entries: Seq<QueueEntry>, cpu: usize) -> bool {
    exists|i: int| 0 <= i < entries.len() && (#[trigger] entries[i]).1.contains(cpu)
}

/// Trusted: `AffinityBTreeQueue::affinity_mask` returns the CPUs that at least one entry
/// may run on.
#[verifier::external_body]
pub(crate) fn queue_affinity_mask(queue: &RunQueue) -> (mask: CpuSet)
    ensures
        forall|cpu: usize|
            cpu_set_view(mask).contains(cpu) == queued_for_cpu(queue_view(*queue), cpu),
{
    queue.affinity_mask()
}

/// Entries by ascending key.
pub open spec fn keys_ascend(entries: Seq<QueueEntry>) -> bool {
    forall|i: int, j: int|
        #![trigger entries[i], entries[j]]
        0 <= i < j < entries.len() ==> key_no_later(entries[i].0, entries[j].0)
}

proof fn lemma_key_order(a: QueueKey, b: QueueKey, c: QueueKey)
    ensures
        key_no_later(a, b) || key_no_later(b, a),
        key_no_later(a, b) && key_no_later(b, c) ==> key_no_later(a, c),
{
}

/// Adding an entry adds nothing else and drops nothing.
pub proof fn lemma_with_entry_members(entries: Seq<QueueEntry>, entry: QueueEntry)
    ensures
        with_entry(entries, entry).len() == entries.len() + 1,
        forall|e: QueueEntry| #[trigger]
            with_entry(entries, entry).contains(e) <==> e == entry || entries.contains(e),
    decreases entries.len(),
{
    let result = with_entry(entries, entry);
    let appended = entries.len() == 0 || key_no_later(entries.last().0, entry.0);
    if !appended {
        lemma_with_entry_members(entries.drop_last(), entry);
    }
    let rest = entries.drop_last();
    let front = with_entry(rest, entry);
    assert forall|e: QueueEntry| #[trigger] result.contains(e) <==> e == entry
        || entries.contains(e) by {
        if result.contains(e) {
            let i = choose|i: int| 0 <= i < result.len() && result[i] == e;
            if appended {
                if i < entries.len() {
                    assert(entries[i] == e);
                }
            } else if i < front.len() {
                assert(front[i] == e);
                assert(front.contains(e));
                if e != entry {
                    let k = choose|k: int| 0 <= k < rest.len() && rest[k] == e;
                    assert(entries[k] == e);
                }
            } else {
                assert(entries[entries.len() - 1] == e);
            }
        }
        if e == entry || entries.contains(e) {
            if appended {
                if e == entry {
                    assert(result[entries.len() as int] == e);
                } else {
                    let k = choose|k: int| 0 <= k < entries.len() && entries[k] == e;
                    assert(result[k] == e);
                }
            } else if e == entries.last() && e != entry {
                assert(result[front.len() as int] == e);
            } else {
                if e != entry {
                    let k = choose|k: int| 0 <= k < entries.len() && entries[k] == e;
                    assert(rest[k] == e);
                }
                assert(front.contains(e));
                let i = choose|i: int| 0 <= i < front.len() && front[i] == e;
                assert(result[i] == e);
            }
        }
    }
}

/// Adding an entry keeps the keys ascending.
pub proof fn lemma_with_entry(entries: Seq<QueueEntry>, entry: QueueEntry)
    requires
        keys_ascend(entries),
    ensures
        keys_ascend(with_entry(entries, entry)),
        with_entry(entries, entry).len() == entries.len() + 1,
        forall|i: int|
            0 <= i < with_entry(entries, entry).len() ==> (#[trigger] with_entry(
                entries,
                entry,
            )[i]) == entry || entries.contains(with_entry(entries, entry)[i]),
    decreases entries.len(),
{
    let result = with_entry(entries, entry);
    if entries.len() == 0 || key_no_later(entries.last().0, entry.0) {
        assert forall|i: int, j: int|
            #![trigger result[i], result[j]]
            0 <= i < j < result.len() implies key_no_later(result[i].0, result[j].0) by {
            assert(entries[i] == result[i]);
            if j < entries.len() {
                assert(entries[j] == result[j]);
            } else if i < entries.len() - 1 {
                assert(key_no_later(entries[i].0, entries[entries.len() - 1].0));
                lemma_key_order(entries[i].0, entries.last().0, entry.0);
            }
        }
        assert forall|i: int| 0 <= i < result.len() implies (#[trigger] result[i]) == entry
            || entries.contains(result[i]) by {
            if i < entries.len() {
                assert(entries[i] == result[i]);
            }
        }
    } else {
        let rest = entries.drop_last();
        let last = entries.last();
        assert(last == entries[entries.len() - 1]);
        assert forall|i: int, j: int|
            #![trigger rest[i], rest[j]]
            0 <= i < j < rest.len() implies key_no_later(rest[i].0, rest[j].0) by {
            assert(entries[i] == rest[i] && entries[j] == rest[j]);
        }
        lemma_with_entry(rest, entry);
        let front = with_entry(rest, entry);
        assert forall|i: int| 0 <= i < result.len() implies (#[trigger] result[i]) == entry
            || entries.contains(result[i]) by {
            if i < front.len() {
                assert(front[i] == result[i]);
                if front[i] != entry {
                    let k = choose|k: int| 0 <= k < rest.len() && rest[k] == front[i];
                    assert(entries[k] == front[i]);
                }
            }
        }
        assert forall|i: int, j: int|
            #![trigger result[i], result[j]]
            0 <= i < j < result.len() implies key_no_later(result[i].0, result[j].0) by {
            assert(front[i] == result[i]);
            if j < front.len() {
                assert(front[j] == result[j]);
            } else if front[i] == entry {
                lemma_key_order(entry.0, last.0, last.0);
            } else {
                let k = choose|k: int| 0 <= k < rest.len() && rest[k] == front[i];
                assert(entries[k] == front[i]);
                assert(key_no_later(entries[k].0, entries[entries.len() - 1].0));
            }
        }
    }
}

/// Taking an entry out keeps the keys ascending.
pub proof fn lemma_without_entry(entries: Seq<QueueEntry>, at: int)
    requires
        keys_ascend(entries),
        0 <= at < entries.len(),
    ensures
        keys_ascend(entries.remove(at)),
{
    let result = entries.remove(at);
    assert forall|i: int, j: int|
        #![trigger result[i], result[j]]
        0 <= i < j < result.len() implies key_no_later(result[i].0, result[j].0) by {
        let a = if i < at {
            i
        } else {
            i + 1
        };
        let b = if j < at {
            j
        } else {
            j + 1
        };
        assert(entries[a] == result[i] && entries[b] == result[j]);
    }
}

/// What the first entry for a CPU is: one that may run there, with none before it that
/// may.
pub proof fn lemma_first_for_cpu(entries: Seq<QueueEntry>, cpu: usize, i: int)
    requires
        0 <= i <= entries.len(),
    ensures
        i <= first_for_cpu(entries, cpu, i) <= entries.len(),
        first_for_cpu(entries, cpu, i) < entries.len() ==> entries[first_for_cpu(
            entries,
            cpu,
            i,
        )].1.contains(cpu),
        forall|k: int|
            i <= k < first_for_cpu(entries, cpu, i) ==> !(#[trigger] entries[k]).1.contains(cpu),
    decreases entries.len() - i,
{
    if i < entries.len() && !entries[i].1.contains(cpu) {
        lemma_first_for_cpu(entries, cpu, i + 1);
    }
}

/// Adding an entry adds it once.
pub proof fn lemma_with_entry_multiset(entries: Seq<QueueEntry>, entry: QueueEntry)
    ensures
        with_entry(entries, entry).to_multiset() == entries.to_multiset().insert(entry),
    decreases entries.len(),
{
    broadcast use vstd::seq_lib::group_to_multiset_ensures;

    if !(entries.len() == 0 || key_no_later(entries.last().0, entry.0)) {
        let rest = entries.drop_last();
        let last = entries.last();
        lemma_with_entry_multiset(rest, entry);
        assert(entries =~= rest.push(last));
        assert(with_entry(entries, entry).to_multiset() =~= entries.to_multiset().insert(entry));
    }
}

} // verus!
