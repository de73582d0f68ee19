//! What the fluid dispatch gives every DAG: its time on the CPUs of the pool, and its most
//! urgent ready node first.

use vstd::prelude::*;

use super::dp_wrap::{
    apportioned, apportioned_below, best_below, best_ready, blocks_of, entitled, entitled_next,
    longest_below, node_woken, picked_ready, plan_ticked, share_of, switch_points, switch_time, threads, threads_below,
    DpWrapView, EntitlementAction, ReadyTask, SwitchPoint, NO_DAG, RATE_UNIT,
};
use super::task::{running_on, slot_of, CpuStatus, Preemption, Task, Wake};
use super::wrap::{
    block_end, block_start, lemma_blocks_get_their_length, lemma_pieces_are_back_to_back,
    lemma_pieces_do_not_overlap, piece_length, pieces_on, position, total_length,
};

verus! {

/// The instant of a change is the exact one, `start` parts into the partition, to within half
/// a nanosecond.
proof fn lemma_switch_time_is_near(dp_start: int, length: int, start: int)
    requires
        0 <= start,
        0 <= length,
    ensures
        ({
            let shift = switch_time(dp_start, length, start) - dp_start;
            &&& 0 <= shift
            &&& 2 * (length * start) - RATE_UNIT < 2 * (shift * RATE_UNIT) <= 2 * (length * start)
                + RATE_UNIT
        }),
{
    let u = RATE_UNIT as int;
    let x = 2 * (length * start) + u;
    assert(0 <= length * start) by (nonlinear_arith)
        requires
            0 <= length,
            0 <= start,
    ;
    let shift = x / (2 * u);
    assert(2 * u * shift <= x < 2 * u * shift + 2 * u && 0 <= shift) by (nonlinear_arith)
        requires
            shift == x / (2 * u),
            0 <= x,
            0 < u,
    ;
    assert(2 * (shift * u) == 2 * u * shift) by (nonlinear_arith);
}

/// A change comes after `start` parts of the partition have gone by: one with no part before
/// it at the beginning, and a later one never earlier. Between two changes lies the share of
/// the partition between them, to within one nanosecond.
pub proof fn lemma_changes_divide_the_partition(dp_start: int, length: int, start: int, end: int)
    requires
        0 <= start <= end,
        0 <= length,
    ensures
        switch_time(dp_start, length, 0) == dp_start,
        switch_time(dp_start, length, RATE_UNIT as int) == dp_start + length,
        switch_time(dp_start, length, start) <= switch_time(dp_start, length, end),
        ({
            let held = switch_time(dp_start, length, end) - switch_time(dp_start, length, start);
            (end - start) * length - RATE_UNIT < held * RATE_UNIT < (end - start) * length
                + RATE_UNIT
        }),
{
    let u = RATE_UNIT as int;
    lemma_switch_time_is_near(dp_start, length, start);
    lemma_switch_time_is_near(dp_start, length, end);
    lemma_switch_time_is_near(dp_start, length, 0);
    lemma_switch_time_is_near(dp_start, length, u);
    let a = switch_time(dp_start, length, start) - dp_start;
    let b = switch_time(dp_start, length, end) - dp_start;
    assert((end - start) * length == length * end - length * start) by (nonlinear_arith);
    assert((b - a) * u == b * u - a * u) by (nonlinear_arith);
    assert(0 <= (end - start) * length) by (nonlinear_arith)
        requires
            start <= end,
            0 <= length,
    ;
    assert(b - a >= 0) by (nonlinear_arith)
        requires
            (b - a) * u > -u,
            u > 0,
    ;
    let z = switch_time(dp_start, length, 0) - dp_start;
    assert(length * 0 == 0);
    assert(z == 0) by (nonlinear_arith)
        requires
            0 <= z,
            2 * (z * u) <= u,
            u > 0,
    ;
    let f = switch_time(dp_start, length, u) - dp_start;
    assert(f == length) by (nonlinear_arith)
        requires
            2 * (length * u) - u < 2 * (f * u) <= 2 * (length * u) + u,
            u > 0,
    ;
}

/// Changing the entitlement of a CPU touches no other CPU and no plan.
proof fn lemma_entitled_frame(
    view: DpWrapView,
    tasks: Seq<Task>,
    cpus: Seq<CpuStatus>,
    cpu: usize,
    new_dag: Option<u32>,
)
    requires
        cpu < view.entitlement.len(),
    ensures
        ({
            let after = entitled(view, tasks, cpus, cpu, new_dag).0;
            &&& after.switch_plan == view.switch_plan
            &&& after.entitlement.len() == view.entitlement.len()
            &&& after.entitlement[cpu as int] == (match new_dag {
                Some(dag) => dag,
                None => NO_DAG,
            })
            &&& forall|c: int|
                0 <= c < view.entitlement.len() && c != cpu ==> (#[trigger] after.entitlement[c])
                    == view.entitlement[c]
        }),
{
}

/// Whether `cpu` holds, for a deadline partition of the given length that begins at
/// `dp_start`, the pieces of `share` one after the other: it is entitled to the DAG of the
/// first at once, and changes to the DAG of each further one when its time has come.
pub open spec fn holds_share(
    after: DpWrapView,
    threads: Seq<(u32, u64)>,
    share: Seq<(usize, u64, u64)>,
    dp_start: u64,
    length: u64,
    cpu: int,
) -> bool {
    let plan = after.switch_plan[cpu];
    if share.len() == 0 {
        after.entitlement[cpu] == NO_DAG && plan.len() == 0
    } else {
        &&& after.entitlement[cpu] == threads[share[0].0 as int].0
        &&& plan.len() == share.len() - 1
        &&& forall|k: int|
            0 <= k < plan.len() ==> (#[trigger] plan[k]).dag_id == threads[share[k + 1].0 as int].0
        &&& forall|k: int|
            0 <= k < plan.len() ==> dp_start <= (#[trigger] plan[k]).at <= dp_start + length
        &&& forall|j: int, k: int| 0 <= j < k < plan.len() ==> plan[j].at <= plan[k].at
        &&& forall|k: int|
            0 <= k < share.len() ==> lasts(
                begins(plan, dp_start, k),
                begins_next(plan, dp_start, length, k),
                #[trigger] share[k],
                length,
                k == share.len() - 1,
            )
    }
}

/// When the `k`-th piece of a plan begins; the first does with the partition.
pub open spec fn begins(plan: Seq<SwitchPoint>, dp_start: u64, k: int) -> int {
    if k == 0 {
        dp_start as int
    } else {
        plan[k - 1].at as int
    }
}

/// When the `k`-th piece of a plan ends; the last does with the partition.
pub open spec fn begins_next(plan: Seq<SwitchPoint>, dp_start: u64, length: u64, k: int) -> int {
    if k < plan.len() {
        plan[k].at as int
    } else {
        dp_start + length
    }
}

/// Whether a piece holds its CPU, from `from` until `to`, for its own share of the
/// partition's length, to within one nanosecond; the last piece at least for it.
pub open spec fn lasts(
    from: int,
    to: int,
    piece: (usize, u64, u64),
    length: u64,
    last: bool,
) -> bool {
    let own = (piece.2 - piece.1) * length;
    &&& own - RATE_UNIT < (to - from) * RATE_UNIT
    &&& !last ==> (to - from) * RATE_UNIT < own + RATE_UNIT
}

proof fn lemma_apportioned_holds(
    view: DpWrapView,
    tasks: Seq<Task>,
    cpus: Seq<CpuStatus>,
    threads: Seq<(u32, u64)>,
    dp_start: u64,
    length: u64,
    p: int,
    cpu: usize,
)
    requires
        cpu < view.entitlement.len() == view.switch_plan.len(),
        dp_start + length <= u64::MAX,
        threads.len() <= usize::MAX,
        0 <= p,
    ensures
        ({
            let after = apportioned(view, tasks, cpus, threads, dp_start, Some(length), p, cpu).0;
            holds_share(after, threads, share_of(threads, p), dp_start, length, cpu as int)
        }),
{
    let share = share_of(threads, p);
    let points = switch_points(share, threads, dp_start, length);
    let n = threads.len() as int;
    lemma_pieces_do_not_overlap(blocks_of(threads), RATE_UNIT, p, n);
    lemma_pieces_are_back_to_back(blocks_of(threads), RATE_UNIT, p, n);
    let after = apportioned(view, tasks, cpus, threads, dp_start, Some(length), p, cpu).0;
    let plan = after.switch_plan[cpu as int];
    let (l, s) = (length as int, dp_start as int);
    if points.len() == 0 {
        let planned = DpWrapView {
            switch_plan: view.switch_plan.update(cpu as int, points),
            ..view
        };
        lemma_entitled_frame(planned, tasks, cpus, cpu, None);
    } else {
        let planned = DpWrapView {
            switch_plan: view.switch_plan.update(cpu as int, points.skip(1)),
            ..view
        };
        lemma_entitled_frame(planned, tasks, cpus, cpu, Some(points[0].dag_id));
        assert(plan == points.skip(1));
        assert forall|k: int| 0 <= k < share.len() implies #[trigger] points[k].at == switch_time(
            s,
            l,
            share[k].1 as int,
        ) && dp_start <= points[k].at <= dp_start + length by {
            assert(share[k].1 < share[k].2 <= RATE_UNIT);
            lemma_changes_divide_the_partition(s, l, 0, share[k].1 as int);
            lemma_changes_divide_the_partition(s, l, share[k].1 as int, RATE_UNIT as int);
        }
        assert forall|k: int| 0 <= k < plan.len() implies #[trigger] plan[k] == points[k + 1] by {}
        assert forall|j: int, k: int| 0 <= j < k < plan.len() implies plan[j].at <= plan[k].at by {
            assert(plan[j] == points[j + 1] && plan[k] == points[k + 1]);
            assert(share[j + 1].2 <= share[k + 1].1);
            lemma_changes_divide_the_partition(s, l, share[j + 1].1 as int, share[k + 1].1 as int);
        }
        lemma_changes_divide_the_partition(s, l, 0, 0);
        assert forall|k: int| 0 <= k < share.len() implies lasts(
            begins(plan, dp_start, k),
            begins_next(plan, dp_start, length, k),
            #[trigger] share[k],
            length,
            k == share.len() - 1,
        ) by {
            let piece = share[k];
            assert(points[k].at == switch_time(s, l, piece.1 as int));
            assert(begins(plan, dp_start, k) == points[k].at) by {
                if k > 0 {
                    assert(plan[k - 1] == points[k]);
                } else {
                    assert(share[0].1 == 0);
                }
            }
            if k < plan.len() {
                assert(plan[k] == points[k + 1]);
                assert(share[k + 1].1 == share[k].2);
                lemma_changes_divide_the_partition(s, l, piece.1 as int, piece.2 as int);
            } else {
                lemma_changes_divide_the_partition(s, l, piece.1 as int, RATE_UNIT as int);
                assert((piece.2 - piece.1) * l <= (RATE_UNIT - piece.1) * l) by (nonlinear_arith)
                    requires
                        piece.2 <= RATE_UNIT,
                        0 <= l,
                ;
            }
        }
    }
}

/// Every CPU but those in `done` has the entitlement and the plan that it had.
spec fn others_untouched(after: DpWrapView, view: DpWrapView, done: Seq<usize>) -> bool {
    forall|c: int|
        0 <= c < view.entitlement.len() && !done.contains(c as usize) ==> (
        #[trigger] after.entitlement[c]) == view.entitlement[c] && after.switch_plan[c]
            == view.switch_plan[c]
}

/// What the CPUs that come later are given changes nothing for the ones before them.
proof fn lemma_apportioned_below_frame(
    view: DpWrapView,
    tasks: Seq<Task>,
    cpus: Seq<CpuStatus>,
    pool: Seq<usize>,
    threads: Seq<(u32, u64)>,
    dp_start: u64,
    length: Option<u64>,
    n: int,
)
    requires
        0 <= n <= pool.len(),
        view.entitlement.len() == view.switch_plan.len(),
        forall|i: int| 0 <= i < pool.len() ==> (#[trigger] pool[i]) < view.entitlement.len(),
    ensures
        ({
            let after = apportioned_below(
                view,
                tasks,
                cpus,
                pool,
                threads,
                dp_start,
                length,
                n,
            ).0;
            &&& after.entitlement.len() == view.entitlement.len()
            &&& after.switch_plan.len() == view.switch_plan.len()
            &&& others_untouched(after, view, pool.take(n))
        }),
    decreases n,
{
    if n > 0 {
        lemma_apportioned_below_frame(view, tasks, cpus, pool, threads, dp_start, length, n - 1);
        let before = apportioned_below(
            view,
            tasks,
            cpus,
            pool,
            threads,
            dp_start,
            length,
            n - 1,
        ).0;
        let after = apportioned_below(view, tasks, cpus, pool, threads, dp_start, length, n).0;
        lemma_one_apportioned(before, tasks, cpus, threads, dp_start, length, n - 1, pool[n - 1]);
        assert forall|c: int|
            0 <= c < view.entitlement.len() && !pool.take(n).contains(c as usize) implies (
        #[trigger] after.entitlement[c]) == view.entitlement[c] && after.switch_plan[c]
            == view.switch_plan[c] by {
            assert(pool.take(n)[n - 1] == pool[n - 1]);
            if pool.take(n - 1).contains(c as usize) {
                let fewer = pool.take(n - 1);
                let k = choose|k: int| 0 <= k < fewer.len() && fewer[k] == c as usize;
                assert(pool.take(n)[k] == c as usize);
            }
            assert(before.entitlement[c] == view.entitlement[c]);
            assert(after.entitlement[c] == before.entitlement[c]);
        }
        assert(others_untouched(after, view, pool.take(n)));
    } else {
        assert(others_untouched(view, view, pool.take(0)));
    }
}

proof fn lemma_one_apportioned(
    view: DpWrapView,
    tasks: Seq<Task>,
    cpus: Seq<CpuStatus>,
    threads: Seq<(u32, u64)>,
    dp_start: u64,
    length: Option<u64>,
    p: int,
    cpu: usize,
)
    requires
        cpu < view.entitlement.len() == view.switch_plan.len(),
    ensures
        ({
            let after = apportioned(view, tasks, cpus, threads, dp_start, length, p, cpu).0;
            &&& after.entitlement.len() == view.entitlement.len()
            &&& after.switch_plan.len() == view.switch_plan.len()
            &&& forall|c: int|
                0 <= c < view.entitlement.len() && c != cpu ==> (#[trigger] after.entitlement[c])
                    == view.entitlement[c] && after.switch_plan[c] == view.switch_plan[c]
        }),
{
}

/// For a deadline partition of known length, the `p`-th CPU of the pool holds the pieces that
/// fall on the `p`-th processor, each for its own share of the partition: in their order,
/// from the beginning of the partition on, at ascending times, and each piece for the product
/// of its width and the partition's length to within one nanosecond. No other CPU's
/// entitlement or plan changes.
pub proof fn lemma_pieces_hold_their_cpu(
    view: DpWrapView,
    tasks: Seq<Task>,
    cpus: Seq<CpuStatus>,
    pool: Seq<usize>,
    threads: Seq<(u32, u64)>,
    dp_start: u64,
    length: u64,
    n: int,
)
    requires
        0 <= n <= pool.len(),
        view.entitlement.len() == view.switch_plan.len(),
        forall|i: int| 0 <= i < pool.len() ==> (#[trigger] pool[i]) < view.entitlement.len(),
        forall|i: int, j: int| 0 <= i < j < pool.len() ==> pool[i] != pool[j],
        dp_start + length <= u64::MAX,
        threads.len() <= usize::MAX,
    ensures
        ({
            let after = apportioned_below(
                view,
                tasks,
                cpus,
                pool,
                threads,
                dp_start,
                Some(length),
                n,
            ).0;
            &&& forall|p: int|
                0 <= p < n ==> holds_share(
                    after,
                    threads,
                    share_of(threads, p),
                    dp_start,
                    length,
                    #[trigger] pool[p] as int,
                )
            &&& forall|c: int|
                0 <= c < view.entitlement.len() && !pool.take(n).contains(c as usize) ==> (
                #[trigger] after.entitlement[c]) == view.entitlement[c] && after.switch_plan[c]
                    == view.switch_plan[c]
        }),
    decreases n,
{
    lemma_apportioned_below_frame(view, tasks, cpus, pool, threads, dp_start, Some(length), n);
    if n > 0 {
        lemma_pieces_hold_their_cpu(
            view,
            tasks,
            cpus,
            pool,
            threads,
            dp_start,
            length,
            n - 1,
        );
        lemma_apportioned_below_frame(
            view,
            tasks,
            cpus,
            pool,
            threads,
            dp_start,
            Some(length),
            n - 1,
        );
        let before = apportioned_below(
            view,
            tasks,
            cpus,
            pool,
            threads,
            dp_start,
            Some(length),
            n - 1,
        ).0;
        let cpu = pool[n - 1];
        let after = apportioned_below(
            view,
            tasks,
            cpus,
            pool,
            threads,
            dp_start,
            Some(length),
            n,
        ).0;
        lemma_apportioned_holds(before, tasks, cpus, threads, dp_start, length, n - 1, cpu);
        lemma_one_apportioned(
            before,
            tasks,
            cpus,
            threads,
            dp_start,
            Some(length),
            n - 1,
            cpu,
        );
        assert forall|p: int| 0 <= p < n implies holds_share(
            after,
            threads,
            share_of(threads, p),
            dp_start,
            length,
            #[trigger] pool[p] as int,
        ) by {
            if p < n - 1 {
                assert(pool[p] != pool[n - 1]);
                let c = pool[p] as int;
                assert(after.entitlement[c] == before.entitlement[c]);
                assert(holds_share(
                    before,
                    threads,
                    share_of(threads, p),
                    dp_start,
                    length,
                    pool[p] as int,
                ));
            }
        }
    }
}

/// Of several pieces, the longest is taken where the partition's length is not known: none of
/// the others is longer, none behind it is as long, and there is one unless there is no piece.
pub proof fn lemma_longest_piece(share: Seq<(usize, u64, u64)>, n: int)
    requires
        0 <= n <= share.len(),
    ensures
        match longest_below(share, n) {
            None => n == 0,
            Some(k) => {
                &&& 0 <= k < n
                &&& forall|i: int|
                    0 <= i < n ==> (#[trigger] share[i]).2 - share[i].1 <= share[k].2 - share[k].1
                &&& forall|i: int|
                    k < i < n ==> (#[trigger] share[i]).2 - share[i].1 < share[k].2 - share[k].1
            },
        },
    decreases n,
{
    if n > 0 {
        lemma_longest_piece(share, n - 1);
    }
}

/// Whether a ready node goes first among those of its DAG at the places where `among` holds:
/// no other has an earlier absolute deadline, none of the same deadline a higher node
/// priority, and none of the same deadline and priority was woken earlier.
pub open spec fn goes_first(
    ready: Seq<ReadyTask>,
    among: spec_fn(int) -> bool,
    node: ReadyTask,
) -> bool {
    forall|j: int|
        0 <= j < ready.len() && #[trigger] among(j) && ready[j].dag_id == node.dag_id ==> {
            &&& node.absolute_deadline <= ready[j].absolute_deadline
            &&& node.absolute_deadline == ready[j].absolute_deadline ==> node.node_priority
                >= ready[j].node_priority
            &&& node.absolute_deadline == ready[j].absolute_deadline && node.node_priority
                == ready[j].node_priority ==> node.wake_time <= ready[j].wake_time
        }
}

proof fn lemma_best_goes_first(ready: Seq<ReadyTask>, dag: u32, n: int)
    requires
        0 <= n <= ready.len() <= usize::MAX,
    ensures
        match best_below(ready, dag, n) {
            None => forall|i: int| 0 <= i < n ==> (#[trigger] ready[i]).dag_id != dag,
            Some(b) => {
                &&& b < n
                &&& ready[b as int].dag_id == dag
                &&& goes_first(ready, |j: int| j < n, ready[b as int])
            },
        },
    decreases n,
{
    if n > 0 {
        lemma_best_goes_first(ready, dag, n - 1);
        match best_below(ready, dag, n) {
            None => {},
            Some(b) => {
                let among = |j: int| j < n;
                let node = ready[b as int];
                assert forall|j: int|
                    0 <= j < ready.len() && #[trigger] among(j) && ready[j].dag_id
                        == node.dag_id implies {
                    &&& node.absolute_deadline <= ready[j].absolute_deadline
                    &&& node.absolute_deadline == ready[j].absolute_deadline ==> node.node_priority
                        >= ready[j].node_priority
                    &&& node.absolute_deadline == ready[j].absolute_deadline && node.node_priority
                        == ready[j].node_priority ==> node.wake_time <= ready[j].wake_time
                } by {
                    let fewer = |i: int| i < n - 1;
                    if j < n - 1 {
                        assert(fewer(j));
                        assert(ready[j].dag_id == dag);
                    }
                }
            },
        }
    }
}

/// The ready node that is chosen for a DAG is one of the DAG, and has the earliest absolute
/// deadline of all the DAG's ready nodes; of those the highest node priority; of those the
/// earliest wake. None is chosen exactly if the DAG has no ready node.
pub proof fn lemma_chosen_node_is_most_urgent(ready: Seq<ReadyTask>, dag: u32)
    requires
        ready.len() <= usize::MAX,
    ensures
        match best_ready(ready, dag) {
            None => forall|i: int| 0 <= i < ready.len() ==> (#[trigger] ready[i]).dag_id != dag,
            Some(b) => {
                &&& b < ready.len()
                &&& ready[b as int].dag_id == dag
                &&& goes_first(ready, |j: int| true, ready[b as int])
            },
        },
{
    let n = ready.len() as int;
    lemma_best_goes_first(ready, dag, n);
    if let Some(b) = best_ready(ready, dag) {
        let among = |j: int| j < n;
        let all = |j: int| true;
        let node = ready[b as int];
        assert forall|j: int|
            0 <= j < ready.len() && #[trigger] all(j) && ready[j].dag_id == node.dag_id implies {
            &&& node.absolute_deadline <= ready[j].absolute_deadline
            &&& node.absolute_deadline == ready[j].absolute_deadline ==> node.node_priority
                >= ready[j].node_priority
            &&& node.absolute_deadline == ready[j].absolute_deadline && node.node_priority
                == ready[j].node_priority ==> node.wake_time <= ready[j].wake_time
        } by {
            assert(among(j));
        }
    }
}

/// An entitled CPU runs the nodes of its DAG in the order of their deadlines: the node that is
/// picked is alive, is one of the DAG, and goes first among all of the DAG's ready nodes that
/// are alive. What stays is everything but the picked node and dead ones of the DAG. Nothing
/// is picked exactly if none of the DAG's ready nodes is alive.
pub proof fn lemma_entitled_cpu_runs_by_deadline(
    ready: Seq<ReadyTask>,
    tasks: Seq<Task>,
    dag: u32,
)
    requires
        ready.len() <= usize::MAX,
    ensures
        ({
            let (picked, left) = picked_ready(ready, tasks, dag);
            let alive = |j: int| !tasks[ready[j].slot as int].dead();
            match picked {
                None => forall|j: int|
                    0 <= j < ready.len() && (#[trigger] ready[j]).dag_id == dag
                        ==> tasks[ready[j].slot as int].dead(),
                Some(slot) => exists|i: int|
                    {
                        &&& 0 <= i < ready.len()
                        &&& (#[trigger] ready[i]).slot == slot
                        &&& ready[i].dag_id == dag
                        &&& !tasks[slot as int].dead()
                        &&& goes_first(ready, alive, ready[i])
                    },
            }
        }),
        forall|node: ReadyTask|
            node.dag_id != dag ==> #[trigger] picked_ready(ready, tasks, dag).1.to_multiset().count(
                node,
            ) == ready.to_multiset().count(node),
        forall|node: ReadyTask|
            node.dag_id == dag && !tasks[node.slot as int].dead()
                ==> #[trigger] picked_ready(ready, tasks, dag).1.to_multiset().count(node)
                >= ready.to_multiset().count(node) - 1,
        picked_ready(ready, tasks, dag).0 is None ==> forall|node: ReadyTask|
            !tasks[node.slot as int].dead() ==> #[trigger] picked_ready(
                ready,
                tasks,
                dag,
            ).1.to_multiset().count(node) == ready.to_multiset().count(node),
    decreases ready.len(),
{
    broadcast use vstd::seq_lib::group_to_multiset_ensures;

    lemma_chosen_node_is_most_urgent(ready, dag);
    if let Some(b) = best_ready(ready, dag) {
        let node = ready[b as int];
        let rest = ready.remove(b as int);
        let all = |j: int| true;
        let alive = |j: int| !tasks[ready[j].slot as int].dead();
        if tasks[node.slot as int].dead() {
            lemma_entitled_cpu_runs_by_deadline(rest, tasks, dag);
            let alive_rest = |j: int| !tasks[rest[j].slot as int].dead();
            match picked_ready(rest, tasks, dag).0 {
                None => {
                    assert forall|j: int|
                        0 <= j < ready.len() && (#[trigger] ready[j]).dag_id
                            == dag implies tasks[ready[j].slot as int].dead() by {
                        if j < b {
                            assert(rest[j] == ready[j]);
                        } else if j > b {
                            assert(rest[j - 1] == ready[j]);
                        }
                    }
                },
                Some(slot) => {
                    let i = choose|i: int|
                        {
                            &&& 0 <= i < rest.len()
                            &&& (#[trigger] rest[i]).slot == slot
                            &&& rest[i].dag_id == dag
                            &&& !tasks[slot as int].dead()
                            &&& goes_first(rest, alive_rest, rest[i])
                        };
                    let place = if i < b {
                        i
                    } else {
                        i + 1
                    };
                    assert(ready[place] == rest[i]);
                    assert forall|j: int|
                        0 <= j < ready.len() && #[trigger] alive(j) && ready[j].dag_id
                            == ready[place].dag_id implies {
                        &&& ready[place].absolute_deadline <= ready[j].absolute_deadline
                        &&& ready[place].absolute_deadline == ready[j].absolute_deadline
                            ==> ready[place].node_priority >= ready[j].node_priority
                        &&& ready[place].absolute_deadline == ready[j].absolute_deadline
                            && ready[place].node_priority == ready[j].node_priority
                            ==> ready[place].wake_time <= ready[j].wake_time
                    } by {
                        let other = if j < b {
                            j
                        } else {
                            j - 1
                        };
                        assert(j != b);
                        assert(rest[other] == ready[j]);
                        assert(alive_rest(other));
                    }
                },
            }
        } else {
            assert forall|j: int|
                0 <= j < ready.len() && #[trigger] alive(j) && ready[j].dag_id
                    == node.dag_id implies {
                &&& node.absolute_deadline <= ready[j].absolute_deadline
                &&& node.absolute_deadline == ready[j].absolute_deadline ==> node.node_priority
                    >= ready[j].node_priority
                &&& node.absolute_deadline == ready[j].absolute_deadline && node.node_priority
                    == ready[j].node_priority ==> node.wake_time <= ready[j].wake_time
            } by {
                assert(all(j));
            }
            assert(goes_first(ready, alive, ready[b as int]));
        }
    }
}

/// A CPU whose entitlement changes to another DAG is told to run that DAG's most urgent ready
/// node in place of the running task, which is not one of the DAG; it is told nothing if the
/// DAG has no ready node. An idle CPU is woken, and one that runs the DAG already goes on.
pub proof fn lemma_changed_entitlement_takes_effect(
    view: DpWrapView,
    tasks: Seq<Task>,
    cpus: Seq<CpuStatus>,
    cpu: usize,
    dag: u32,
)
    requires
        cpu < view.entitlement.len(),
        view.ready.len() <= usize::MAX,
        view.entitlement[cpu as int] != dag,
        dag != NO_DAG,
    ensures
        ({
            let (after, action) = entitled(view, tasks, cpus, cpu, Some(dag));
            let running = running_on(cpus, cpu);
            let runs_dag = slot_of(tasks, running) matches Some(slot) && tasks[slot as int].dag_id
                == Some(dag);
            &&& after.entitlement == view.entitlement.update(cpu as int, dag)
            &&& action == EntitlementAction::WakeCpu <==> running == 0
            &&& running != 0 && runs_dag ==> action == EntitlementAction::Nothing
            &&& running != 0 && !runs_dag ==> match action {
                EntitlementAction::Preempt { successor, target } => {
                    &&& target == running
                    &&& exists|i: int|
                        {
                            &&& 0 <= i < view.ready.len()
                            &&& (#[trigger] view.ready[i]).slot == successor
                            &&& view.ready[i].dag_id == dag
                            &&& goes_first(view.ready, |j: int| true, view.ready[i])
                            &&& after.ready == view.ready.remove(i)
                        }
                },
                EntitlementAction::Nothing => {
                    &&& after.ready == view.ready
                    &&& forall|i: int|
                        0 <= i < view.ready.len() ==> (#[trigger] view.ready[i]).dag_id != dag
                },
                EntitlementAction::WakeCpu => false,
            }
        }),
{
    lemma_chosen_node_is_most_urgent(view.ready, dag);
    if let Some(b) = best_ready(view.ready, dag) {
        assert(goes_first(view.ready, |j: int| true, view.ready[b as int]));
    }
}

/// How much of a processor the first `n` pieces of a share give to `dag`.
pub open spec fn width_on(
    threads: Seq<(u32, u64)>,
    share: Seq<(usize, u64, u64)>,
    dag: u32,
    n: int,
) -> int
    decreases n,
{
    if n <= 0 {
        0
    } else {
        width_on(threads, share, dag, n - 1) + if threads[share[n - 1].0 as int].0 == dag {
            share[n - 1].2 - share[n - 1].1
        } else {
            0
        }
    }
}

/// How much of the first `m` processors of the pool `dag` is given.
pub open spec fn pool_width(threads: Seq<(u32, u64)>, dag: u32, m: int) -> int
    decreases m,
{
    if m <= 0 {
        0
    } else {
        let share = share_of(threads, m - 1);
        pool_width(threads, dag, m - 1) + width_on(threads, share, dag, share.len() as int)
    }
}

/// What the first `n` active segments ask for: the rate of each of their threads. With a DAG
/// given, only its own segments count.
pub open spec fn asked_for(active: Seq<(u32, u32, u64)>, dag: Option<u32>, n: int) -> int
    decreases n,
{
    if n <= 0 {
        0
    } else {
        asked_for(active, dag, n - 1) + if dag is None || dag == Some(active[n - 1].0) {
            active[n - 1].1 * active[n - 1].2
        } else {
            0
        }
    }
}

/// The rates of those of the first `n` threads that are of `dag`.
spec fn rate_sum(threads: Seq<(u32, u64)>, dag: Option<u32>, n: int) -> int
    decreases n,
{
    if n <= 0 {
        0
    } else {
        rate_sum(threads, dag, n - 1) + if dag is None || dag == Some(threads[n - 1].0) {
            threads[n - 1].1 as int
        } else {
            0
        }
    }
}

/// The lengths, on the processor `p`, of those of the first `n` blocks that are of `dag`.
spec fn own_pieces(threads: Seq<(u32, u64)>, dag: u32, p: int, n: int) -> int
    decreases n,
{
    if n <= 0 {
        0
    } else {
        own_pieces(threads, dag, p, n - 1) + if threads[n - 1].0 == dag {
            piece_length(blocks_of(threads), RATE_UNIT as int, p, n - 1)
        } else {
            0
        }
    }
}

/// The lengths, on the first `m` processors, of those of the first `n` blocks that are of
/// `dag`.
spec fn own_lengths(threads: Seq<(u32, u64)>, dag: u32, m: int, n: int) -> int
    decreases n,
{
    if n <= 0 {
        0
    } else {
        own_lengths(threads, dag, m, n - 1) + if threads[n - 1].0 == dag {
            total_length(blocks_of(threads), RATE_UNIT as int, m, n - 1)
        } else {
            0
        }
    }
}

proof fn lemma_width_of_pieces(threads: Seq<(u32, u64)>, dag: u32, p: int, n: int)
    requires
        0 <= n <= threads.len() <= usize::MAX,
        0 <= p,
    ensures
        ({
            let share = pieces_on(blocks_of(threads), RATE_UNIT as int, p, n);
            width_on(threads, share, dag, share.len() as int) == own_pieces(threads, dag, p, n)
        }),
    decreases n,
{
    if n > 0 {
        lemma_width_of_pieces(threads, dag, p, n - 1);
        let blocks = blocks_of(threads);
        let rest = pieces_on(blocks, RATE_UNIT as int, p, n - 1);
        let share = pieces_on(blocks, RATE_UNIT as int, p, n);
        let start = block_start(blocks, RATE_UNIT as int, p, n - 1);
        let end = block_end(blocks, RATE_UNIT as int, p, n - 1);
        if start < end {
            assert(0 <= start && end <= RATE_UNIT);
            lemma_width_prefix(threads, share, rest, dag, rest.len() as int);
            assert(share.last() == (blocks[n - 1].0, start as u64, end as u64));
        }
    }
}

proof fn lemma_width_prefix(
    threads: Seq<(u32, u64)>,
    a: Seq<(usize, u64, u64)>,
    b: Seq<(usize, u64, u64)>,
    dag: u32,
    n: int,
)
    requires
        0 <= n <= a.len(),
        n <= b.len(),
        forall|i: int| 0 <= i < n ==> a[i] == b[i],
    ensures
        width_on(threads, a, dag, n) == width_on(threads, b, dag, n),
    decreases n,
{
    if n > 0 {
        lemma_width_prefix(threads, a, b, dag, n - 1);
    }
}

proof fn lemma_lengths_add_up(threads: Seq<(u32, u64)>, dag: u32, m: int, n: int)
    requires
        0 <= n <= threads.len(),
        0 < m,
    ensures
        own_lengths(threads, dag, m, n) == own_lengths(threads, dag, m - 1, n) + own_pieces(
            threads,
            dag,
            m - 1,
            n,
        ),
    decreases n,
{
    if n > 0 {
        lemma_lengths_add_up(threads, dag, m, n - 1);
    }
}

proof fn lemma_no_lengths(threads: Seq<(u32, u64)>, dag: u32, n: int)
    ensures
        own_lengths(threads, dag, 0, n) == 0,
    decreases n,
{
    if n > 0 {
        lemma_no_lengths(threads, dag, n - 1);
    }
}

proof fn lemma_pool_width(threads: Seq<(u32, u64)>, dag: u32, m: int)
    requires
        threads.len() <= usize::MAX,
        0 <= m,
    ensures
        pool_width(threads, dag, m) == own_lengths(threads, dag, m, threads.len() as int),
    decreases m,
{
    let n = threads.len() as int;
    if m > 0 {
        lemma_pool_width(threads, dag, m - 1);
        lemma_width_of_pieces(threads, dag, m - 1, n);
        lemma_lengths_add_up(threads, dag, m, n);
    } else {
        lemma_no_lengths(threads, dag, n);
    }
}

proof fn lemma_position_is_rate_sum(threads: Seq<(u32, u64)>, n: int)
    requires
        0 <= n <= threads.len(),
    ensures
        position(blocks_of(threads), n) == rate_sum(threads, None, n),
    decreases n,
{
    if n > 0 {
        lemma_position_is_rate_sum(threads, n - 1);
    }
}

proof fn lemma_lengths_are_rates(threads: Seq<(u32, u64)>, dag: u32, m: int, n: int)
    requires
        0 <= n <= threads.len(),
        0 <= m,
        position(blocks_of(threads), threads.len() as int) <= m * RATE_UNIT,
    ensures
        own_lengths(threads, dag, m, n) == rate_sum(threads, Some(dag), n),
    decreases n,
{
    if n > 0 {
        lemma_lengths_are_rates(threads, dag, m, n - 1);
        lemma_blocks_get_their_length(blocks_of(threads), RATE_UNIT as int, m, n - 1);
    }
}

proof fn lemma_rate_sum_prefix(a: Seq<(u32, u64)>, b: Seq<(u32, u64)>, dag: Option<u32>, n: int)
    requires
        0 <= n <= a.len(),
        n <= b.len(),
        forall|i: int| 0 <= i < n ==> a[i] == b[i],
    ensures
        rate_sum(a, dag, n) == rate_sum(b, dag, n),
    decreases n,
{
    if n > 0 {
        lemma_rate_sum_prefix(a, b, dag, n - 1);
    }
}

proof fn lemma_rate_sum_of_copies(
    threads: Seq<(u32, u64)>,
    dag: Option<u32>,
    from: int,
    count: int,
    own: u32,
    rate: u64,
)
    requires
        0 <= from,
        0 <= count,
        from + count <= threads.len(),
        forall|i: int| from <= i < from + count ==> threads[i] == (own, rate),
    ensures
        rate_sum(threads, dag, from + count) == rate_sum(threads, dag, from) + if dag is None
            || dag == Some(own) {
            count * rate
        } else {
            0
        },
    decreases count,
{
    if count > 0 {
        lemma_rate_sum_of_copies(threads, dag, from, count - 1, own, rate);
        assert(count * rate == (count - 1) * rate + rate) by (nonlinear_arith);
    } else {
        assert(0 * rate == 0);
    }
}

proof fn lemma_threads_ask(active: Seq<(u32, u32, u64)>, dag: Option<u32>, n: int)
    requires
        0 <= n <= active.len(),
    ensures
        rate_sum(threads_below(active, n), dag, threads_below(active, n).len() as int)
            == asked_for(active, dag, n),
    decreases n,
{
    if n > 0 {
        lemma_threads_ask(active, dag, n - 1);
        let rest = threads_below(active, n - 1);
        let all = threads_below(active, n);
        let (own, concurrency, rate) = active[n - 1];
        lemma_rate_sum_prefix(all, rest, dag, rest.len() as int);
        lemma_rate_sum_of_copies(
            all,
            dag,
            rest.len() as int,
            concurrency as int,
            own,
            rate,
        );
    }
}

/// Every DAG gets what its active segment asks for: if all the segments together ask for no
/// more than the processors of the pool have, the pieces of a DAG's threads on all of them
/// together are as wide as its segment's concurrency times its rate.
pub proof fn lemma_every_dag_gets_what_it_asks_for(
    active: Seq<(u32, u32, u64)>,
    dag: u32,
    m: int,
)
    requires
        0 <= m,
        threads(active).len() <= usize::MAX,
        asked_for(active, None, active.len() as int) <= m * RATE_UNIT,
    ensures
        pool_width(threads(active), dag, m) == asked_for(active, Some(dag), active.len() as int),
{
    let all = threads(active);
    let n = active.len() as int;
    lemma_threads_ask(active, None, n);
    lemma_threads_ask(active, Some(dag), n);
    lemma_position_is_rate_sum(all, all.len() as int);
    lemma_pool_width(all, dag, m);
    lemma_lengths_are_rates(all, dag, m, all.len() as int);
}

/// A change of a CPU's plan is made once its time has come and not before, one at a time and
/// in their order: then the CPU is entitled to the DAG that it names, and the rest of the plan
/// stays.
pub proof fn lemma_plan_is_carried_out_in_time(
    view: DpWrapView,
    tasks: Seq<Task>,
    cpus: Seq<CpuStatus>,
    cpu: usize,
    now: u64,
)
    requires
        cpu < view.switch_plan.len() == view.entitlement.len(),
    ensures
        ({
            let plan = view.switch_plan[cpu as int];
            let (after, action) = plan_ticked(view, tasks, cpus, cpu, now);
            &&& plan.len() == 0 || now < plan[0].at ==> after == view && action
                == EntitlementAction::Nothing
            &&& plan.len() > 0 && now >= plan[0].at ==> {
                &&& after.entitlement[cpu as int] == plan[0].dag_id
                &&& after.switch_plan[cpu as int].len() == plan.len() - 1
                &&& forall|k: int|
                    0 <= k < plan.len() - 1 ==> after.switch_plan[cpu as int][k] == #[trigger] plan[k
                        + 1]
            }
            &&& forall|other: int|
                0 <= other < view.entitlement.len() && other != cpu ==> (
                #[trigger] after.entitlement[other]) == view.entitlement[other]
                    && after.switch_plan[other] == view.switch_plan[other]
        }),
{
}

/// A CPU that is entitled to the same DAG again is told nothing, and neither is one that is
/// entitled to none from now on; the ready nodes stay as they are.
pub proof fn lemma_entitlement_that_needs_no_word(
    view: DpWrapView,
    tasks: Seq<Task>,
    cpus: Seq<CpuStatus>,
    cpu: usize,
    dag: u32,
)
    requires
        cpu < view.entitlement.len(),
        dag != NO_DAG,
    ensures
        view.entitlement[cpu as int] == dag ==> ({
            let (after, action) = entitled(view, tasks, cpus, cpu, Some(dag));
            &&& action == EntitlementAction::Nothing
            &&& after.entitlement =~= view.entitlement
            &&& after.ready == view.ready
        }),
        ({
            let (after, action) = entitled(view, tasks, cpus, cpu, None);
            &&& action == EntitlementAction::Nothing
            &&& after.entitlement == view.entitlement.update(cpu as int, NO_DAG)
            &&& after.ready == view.ready
        }),
{
}

/// A CPU picks a node only of the DAG that it is entitled to, and none while it is entitled to
/// none. Picking changes nothing but what is ready.
pub proof fn lemma_cpu_picks_from_its_dag(view: DpWrapView, tasks: Seq<Task>, cpu: usize)
    requires
        cpu < view.entitlement.len(),
        view.ready.len() <= usize::MAX,
    ensures
        ({
            let dag = view.entitlement[cpu as int];
            let (next, after) = entitled_next(view, tasks, cpu);
            &&& after.entitlement == view.entitlement
            &&& after.switch_plan == view.switch_plan
            &&& after.priority == view.priority
            &&& dag == NO_DAG ==> next is None && after.ready == view.ready
            &&& dag != NO_DAG ==> match next {
                None => forall|j: int|
                    0 <= j < view.ready.len() && (#[trigger] view.ready[j]).dag_id == dag
                        ==> tasks[view.ready[j].slot as int].dead(),
                Some(slot) => exists|i: int|
                    {
                        &&& 0 <= i < view.ready.len()
                        &&& (#[trigger] view.ready[i]).slot == slot
                        &&& view.ready[i].dag_id == dag
                        &&& !tasks[slot as int].dead()
                        &&& goes_first(
                            view.ready,
                            |j: int| !tasks[view.ready[j].slot as int].dead(),
                            view.ready[i],
                        )
                    },
            }
        }),
{
    let dag = view.entitlement[cpu as int];
    lemma_entitled_cpu_runs_by_deadline(view.ready, tasks, dag);
}

/// A node that is woken is not lost: unless it takes a CPU over at once it waits with the
/// others, with the deadline, the priority and the time that it was woken with.
pub proof fn lemma_woken_node_waits(
    view: DpWrapView,
    dag: u32,
    slot: usize,
    wake: Wake,
    decision: Option<Preemption>,
)
    ensures
        ({
            let after = node_woken(view, dag, slot, wake, decision);
            &&& after.entitlement == view.entitlement
            &&& after.switch_plan == view.switch_plan
            &&& after.priority == view.priority
            &&& decision is Some ==> after.ready == view.ready
            &&& decision is None ==> {
                let node = after.ready.last();
                &&& after.ready.len() == view.ready.len() + 1
                &&& after.ready.drop_last() == view.ready
                &&& node.dag_id == dag
                &&& node.slot == slot
                &&& node.wake_time == wake.time
                &&& match wake.dag {
                    Some(of) => node.absolute_deadline == of.absolute_deadline
                        && node.node_priority == of.node_priority,
                    None => node.absolute_deadline == wake.time && node.node_priority == 0,
                }
            }
        }),
{
    let after = node_woken(view, dag, slot, wake, decision);
    if decision is None {
        assert(after.ready.drop_last() =~= view.ready);
    }
}

} // verus!
