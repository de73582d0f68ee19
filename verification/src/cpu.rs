//! CPU identifiers and sets of CPUs.
//!
//! A set of CPUs is the affinity mask of the `affinity_btree_queue` crate. The
//! mask is opaque to the verifier: [`cpu_set_view`] names the CPUs it holds, and
//! each operation on it is one trusted function below.

use affinity_btree_queue::CpuMask;
use vstd::prelude::*;

verus! {

/// The most CPUs that the kernel supports.
pub const NUM_MAX_CPU: usize = 512;

/// Declares the outside type `affinity_btree_queue::CpuMask`.
#[verifier::external_type_specification]
#[verifier::external_body]
pub struct ExCpuMask<const N: usize>(CpuMask<N>);

/// A set of CPU identifiers below [`NUM_MAX_CPU`].
pub type CpuSet = CpuMask<8>;

/// The CPUs that an affinity mask holds.
pub uninterp spec fn cpu_set_view(set: CpuMask<8>) -> Set<usize>;

/// Trusted: `CpuMask::empty` returns the mask that holds no CPU.
#[verifier::external_body]
pub(crate) fn cpu_set_empty() -> (set: CpuSet)
    ensures
        cpu_set_view(set) == Set::<usize>::empty(),
{
    CpuMask::empty()
}

/// Trusted: `CpuMask::contains` tells whether the mask holds `cpu`. It is false
/// for every `cpu` beyond the mask's words.
#[verifier::external_body]
pub(crate) fn cpu_set_contains(set: CpuSet, cpu: usize) -> (member: bool)
    ensures
        member == cpu_set_view(set).contains(cpu),
        member ==> cpu < NUM_MAX_CPU,
{
    set.contains(cpu)
}

/// Trusted: `CpuMask::with` returns the mask with `cpu` added. It panics on a
/// `cpu` beyond the mask's words, which `requires` leaves out.
#[verifier::external_body]
pub(crate) fn cpu_set_with(set: CpuSet, cpu: usize) -> (wider: CpuSet)
    requires
        cpu < NUM_MAX_CPU,
    ensures
        cpu_set_view(wider) == cpu_set_view(set).insert(cpu),
{
    set.with(cpu)
}

/// Trusted: `CpuMask::without` returns the mask with `cpu` taken out. It panics
/// on a `cpu` beyond the mask's words, which `requires` leaves out.
#[verifier::external_body]
pub(crate) fn cpu_set_without(set: CpuSet, cpu: usize) -> (narrower: CpuSet)
    requires
        cpu < NUM_MAX_CPU,
    ensures
        cpu_set_view(narrower) == cpu_set_view(set).remove(cpu),
{
    set.without(cpu)
}

/// Trusted: `CpuMask::union` returns the mask of the CPUs that either mask holds.
#[verifier::external_body]
pub(crate) fn cpu_set_union(a: CpuSet, b: CpuSet) -> (both: CpuSet)
    ensures
        cpu_set_view(both) == cpu_set_view(a).union(cpu_set_view(b)),
{
    a.union(b)
}

/// Trusted: `CpuMask::iter` visits exactly the CPUs that the mask holds, each
/// once, in ascending order; here they are collected into a vector.
#[verifier::external_body]
pub(crate) fn cpu_set_to_vec(set: CpuSet) -> (cpus: Vec<usize>)
    ensures
        forall|cpu: usize| cpus@.contains(cpu) == cpu_set_view(set).contains(cpu),
        forall|i: int, j: int| 0 <= i < j < cpus@.len() ==> cpus@[i] < cpus@[j],
        forall|i: int| 0 <= i < cpus@.len() ==> cpus@[i] < NUM_MAX_CPU,
{
    set.iter().collect()
}

/// Two strictly ascending lists with the same members are the same.
pub proof fn lemma_ascending_unique(a: Seq<usize>, b: Seq<usize>)
    requires
        forall|i: int, j: int| 0 <= i < j < a.len() ==> a[i] < a[j],
        forall|i: int, j: int| 0 <= i < j < b.len() ==> b[i] < b[j],
        forall|x: usize| a.contains(x) == b.contains(x),
    ensures
        a == b,
    decreases a.len(),
{
    if a.len() == 0 {
        if b.len() > 0 {
            assert(b.contains(b[0]));
            assert(a.contains(b[0]));
        }
        assert(a =~= b);
    } else {
        assert(a.contains(a[0]));
        assert(b.contains(a[0]));
        let la = a.last();
        let lb = b.last();
        assert(a.contains(la) && b.contains(lb));
        let i = choose|i: int| 0 <= i < b.len() && b[i] == la;
        let j = choose|j: int| 0 <= j < a.len() && a[j] == lb;
        assert(la == lb) by {
            if i < b.len() - 1 {
                assert(b[i] < b[b.len() - 1]);
            }
            if j < a.len() - 1 {
                assert(a[j] < a[a.len() - 1]);
            }
        }
        let da = a.drop_last();
        let db = b.drop_last();
        assert forall|x: usize| da.contains(x) == db.contains(x) by {
            if da.contains(x) {
                let k = choose|k: int| 0 <= k < da.len() && da[k] == x;
                assert(a[k] == x && a[k] < a[a.len() - 1]);
                assert(b.contains(x));
                let m = choose|m: int| 0 <= m < b.len() && b[m] == x;
                assert(db[m] == x);
            }
            if db.contains(x) {
                let k = choose|k: int| 0 <= k < db.len() && db[k] == x;
                assert(b[k] == x && b[k] < b[b.len() - 1]);
                assert(a.contains(x));
                let m = choose|m: int| 0 <= m < a.len() && a[m] == x;
                assert(da[m] == x);
            }
        }
        lemma_ascending_unique(da, db);
        assert(a =~= da.push(la));
        assert(b =~= db.push(lb));
    }
}

/// The members of a set below `n`, ascending.
pub open spec fn members_below(set: Set<usize>, n: int) -> Seq<usize>
    decreases n,
{
    if n <= 0 {
        Seq::empty()
    } else {
        let rest = members_below(set, n - 1);
        if set.contains((n - 1) as usize) {
            rest.push((n - 1) as usize)
        } else {
            rest
        }
    }
}

/// The CPUs of a set, ascending.
pub open spec fn members(set: Set<usize>) -> Seq<usize> {
    members_below(set, NUM_MAX_CPU as int)
}

/// The list of the members below `n` ascends and holds exactly them.
pub proof fn lemma_members_below(set: Set<usize>, n: int)
    requires
        0 <= n <= usize::MAX,
    ensures
        forall|i: int, j: int|
            0 <= i < j < members_below(set, n).len() ==> members_below(set, n)[i] < members_below(
                set,
                n,
            )[j],
        forall|x: usize|
            #[trigger] members_below(set, n).contains(x) <==> set.contains(x) && x < n,
    decreases n,
{
    if n > 0 {
        lemma_members_below(set, n - 1);
        let rest = members_below(set, n - 1);
        let all = members_below(set, n);
        let last = (n - 1) as usize;
        assert forall|x: usize| #[trigger] all.contains(x) <==> set.contains(x) && x < n by {
            if rest.contains(x) {
                let i = choose|i: int| 0 <= i < rest.len() && rest[i] == x;
                assert(all[i] == x);
            }
            if set.contains(last) {
                assert(all[rest.len() as int] == last);
            }
            if all.contains(x) {
                let i = choose|i: int| 0 <= i < all.len() && all[i] == x;
                if i < rest.len() {
                    assert(rest[i] == x);
                }
            }
        }
        assert forall|i: int, j: int| 0 <= i < j < all.len() implies all[i] < all[j] by {
            assert(rest[i] == all[i]);
            assert(rest.contains(rest[i]));
            if j < rest.len() {
                assert(rest[i] < rest[j]);
            }
        }
    }
}

/// The CPUs of a set as an ascending list.
pub fn cpu_list(set: CpuSet) -> (cpus: Vec<usize>)
    ensures
        cpus@ == members(cpu_set_view(set)),
        forall|i: int| 0 <= i < cpus@.len() ==> cpus@[i] < NUM_MAX_CPU,
{
    let cpus = cpu_set_to_vec(set);
    proof {
        let view = cpu_set_view(set);
        lemma_members_below(view, NUM_MAX_CPU as int);
        assert forall|x: usize| cpus@.contains(x) == members(view).contains(x) by {
            if cpus@.contains(x) {
                let i = choose|i: int| 0 <= i < cpus@.len() && cpus@[i] == x;
                assert(cpus@[i] < NUM_MAX_CPU);
            }
            assert(cpus@.contains(x) == view.contains(x));
        }
        lemma_ascending_unique(cpus@, members(view));
    }
    cpus
}

} // verus!
