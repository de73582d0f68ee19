//! Topological order.

use vstd::prelude::*;

use super::data::links_within;

verus! {

/// `order` lists nodes each once, each behind all of its predecessors, and leaves
/// out only nodes that have a predecessor which is left out too: those on a cycle
/// or behind one.
pub open spec fn is_topological(order: Seq<usize>, links: Seq<(usize, usize)>, n: int) -> bool {
    &&& forall|i: int| 0 <= i < order.len() ==> (#[trigger] order[i]) < n
    &&& order.no_duplicates()
    &&& forall|i: int, l: int|
        0 <= i < order.len() && 0 <= l < links.len() && (#[trigger] links[l]).1 == (
        #[trigger] order[i]) ==> order.take(i).contains(links[l].0)
    &&& forall|v: usize|
        v < n && !(#[trigger] order.contains(v)) ==> exists|l: int|
            0 <= l < links.len() && (#[trigger] links[l]).1 == v && !order.contains(links[l].0)
}

/// How many of the first `m` links end at `v` and are not counted yet.
spec fn uncounted(links: Seq<(usize, usize)>, counted: Seq<bool>, v: usize, m: int) -> int
    decreases m,
{
    if m <= 0 {
        0
    } else if links[m - 1].1 == v && !counted[m - 1] {
        uncounted(links, counted, v, m - 1) + 1
    } else {
        uncounted(links, counted, v, m - 1)
    }
}

proof fn lemma_uncounted_range(links: Seq<(usize, usize)>, counted: Seq<bool>, v: usize, m: int)
    requires
        0 <= m <= links.len(),
    ensures
        0 <= uncounted(links, counted, v, m) <= m,
    decreases m,
{
    if m > 0 {
        lemma_uncounted_range(links, counted, v, m - 1);
    }
}

proof fn lemma_uncounted_zero(links: Seq<(usize, usize)>, counted: Seq<bool>, v: usize, m: int)
    requires
        0 <= m <= links.len(),
    ensures
        uncounted(links, counted, v, m) == 0 <==> forall|l: int|
            0 <= l < m && (#[trigger] links[l]).1 == v ==> counted[l],
    decreases m,
{
    if m > 0 {
        lemma_uncounted_zero(links, counted, v, m - 1);
        lemma_uncounted_range(links, counted, v, m - 1);
        if forall|l: int| 0 <= l < m && (#[trigger] links[l]).1 == v ==> counted[l] {
            assert(links[m - 1].1 == v ==> counted[m - 1]);
        } else {
            let l = choose|l: int| 0 <= l < m && (#[trigger] links[l]).1 == v && !counted[l];
            if l < m - 1 {
                assert(links[l].1 == v && !counted[l]);
            }
        }
    }
}

proof fn lemma_uncounted_update(
    links: Seq<(usize, usize)>,
    counted: Seq<bool>,
    v: usize,
    m: int,
    j: int,
)
    requires
        0 <= m <= links.len(),
        counted.len() == links.len(),
        0 <= j < links.len(),
        !counted[j],
    ensures
        uncounted(links, counted.update(j, true), v, m) == uncounted(links, counted, v, m) - if j
            < m && links[j].1 == v {
            1int
        } else {
            0
        },
    decreases m,
{
    if m > 0 {
        lemma_uncounted_update(links, counted, v, m - 1, j);
    }
}

pub proof fn lemma_push_contains_one(order: Seq<usize>, x: usize, y: usize)
    ensures
        order.push(x).contains(y) == (order.contains(y) || y == x),
{
    let longer = order.push(x);
    if order.contains(y) {
        let i = choose|i: int| 0 <= i < order.len() && order[i] == y;
        assert(longer[i] == y);
    }
    if y == x {
        assert(longer[order.len() as int] == y);
    }
    if longer.contains(y) {
        let i = choose|i: int| 0 <= i < longer.len() && longer[i] == y;
        if i < order.len() {
            assert(order[i] == y);
        }
    }
}

proof fn lemma_push_contains(order: Seq<usize>, x: usize)
    ensures
        forall|y: usize| order.push(x).contains(y) == (order.contains(y) || y == x),
{
    assert forall|y: usize| order.push(x).contains(y) == (order.contains(y) || y == x) by {
        lemma_push_contains_one(order, x, y);
    }
}

/// What is listed is exactly what has no open predecessor.
spec fn listed_iff_free(order: Seq<usize>, degree: Seq<usize>, n: int) -> bool {
    forall|v: usize| v < n ==> (#[trigger] order.contains(v) <==> degree[v as int] == 0)
}

/// Each listed node stands behind all of its predecessors.
spec fn preds_first(order: Seq<usize>, links: Seq<(usize, usize)>) -> bool {
    forall|i: int, l: int|
        0 <= i < order.len() && 0 <= l < links.len() && (#[trigger] links[l]).1 == (
        #[trigger] order[i]) ==> order.take(i).contains(links[l].0)
}

proof fn lemma_push_keeps_preds_first(
    order: Seq<usize>,
    links: Seq<(usize, usize)>,
    v: usize,
    done: int,
)
    requires
        preds_first(order, links),
        0 <= done <= order.len(),
        forall|l: int|
            0 <= l < links.len() && (#[trigger] links[l]).1 == v ==> order.take(done).contains(
                links[l].0,
            ),
    ensures
        preds_first(order.push(v), links),
{
    let longer = order.push(v);
    assert forall|i: int, l: int|
        0 <= i < longer.len() && 0 <= l < links.len() && (#[trigger] links[l]).1 == (
        #[trigger] longer[i]) implies longer.take(i).contains(links[l].0) by {
        if i < order.len() {
            assert(longer.take(i) =~= order.take(i));
            assert(order[i] == links[l].1);
        } else {
            let p = order.take(done);
            let k = choose|k: int| 0 <= k < p.len() && p[k] == links[l].0;
            assert(longer.take(i)[k] == links[l].0);
        }
    }
}

/// Lists the nodes in topological order, by repeatedly taking a node that has no
/// predecessor left. Of several such nodes the one that became free first is taken.
pub fn topological_order(n: usize, links: &Vec<(usize, usize)>) -> (order: Vec<usize>)
    requires
        links_within(links@, n as int),
    ensures
        is_topological(order@, links@, n as int),
{
    let ghost edges = links@;
    let ghost mut counted: Seq<bool> = Seq::new(edges.len(), |l: int| false);
    let mut degree: Vec<usize> = Vec::new();
    let mut i: usize = 0;
    while i < n
        invariant
            i <= n,
            degree@.len() == i,
            forall|v: int| 0 <= v < i ==> #[trigger] degree@[v] == 0,
        decreases n - i,
    {
        degree.push(0);
        i = i + 1;
    }
    let mut j: usize = 0;
    while j < links.len()
        invariant
            j <= links@.len(),
            edges == links@,
            links_within(edges, n as int),
            degree@.len() == n,
            counted == Seq::new(edges.len(), |l: int| false),
            forall|v: usize|
                v < n ==> #[trigger] degree@[v as int] == uncounted(edges, counted, v, j as int),
        decreases links@.len() - j,
    {
        let target: usize = links[j].1;
        proof {
            lemma_uncounted_range(edges, counted, target, j as int);
        }
        degree.set(target, degree[target] + 1);
        j = j + 1;
    }
    let mut order: Vec<usize> = Vec::new();
    let mut v: usize = 0;
    while v < n
        invariant
            v <= n,
            edges == links@,
            degree@.len() == n,
            counted == Seq::new(edges.len(), |l: int| false),
            forall|w: usize|
                w < n ==> #[trigger] degree@[w as int] == uncounted(
                    edges,
                    counted,
                    w,
                    edges.len() as int,
                ),
            listed_iff_free(order@, degree@, v as int),
            forall|k: int| 0 <= k < order@.len() ==> (#[trigger] order@[k]) < v,
            order@.no_duplicates(),
            preds_first(order@, edges),
        decreases n - v,
    {
        let ghost before = order@;
        if degree[v] == 0 {
            proof {
                lemma_uncounted_zero(edges, counted, v, edges.len() as int);
                lemma_push_keeps_preds_first(before, edges, v, 0);
            }
            order.push(v);
        } else {
            assert(!order@.contains(v)) by {
                if order@.contains(v) {
                    let k = choose|k: int| 0 <= k < order@.len() && order@[k] == v;
                    assert(order@[k] < v);
                }
            }
        }
        proof {
            assert forall|w: usize| w < v + 1 implies (#[trigger] order@.contains(w)
                <==> degree@[w as int] == 0) by {
                if w < v {
                    assert(before.contains(w) <==> degree@[w as int] == 0);
                }
                if degree@[v as int] == 0 {
                    lemma_push_contains_one(before, v, w);
                } else {
                    assert(w == v ==> !before.contains(w));
                }
            }
        }
        v = v + 1;
    }
    let mut head: usize = 0;
    assert(order@.take(0) =~= Seq::<usize>::empty());
    proof {
        lemma_listed_at_most(order@, n as int);
    }
    while head < order.len()
        invariant
            head <= order@.len() <= n,
            edges == links@,
            links_within(edges, n as int),
            degree@.len() == n,
            counted.len() == edges.len(),
            forall|l: int|
                0 <= l < edges.len() ==> (#[trigger] counted[l] <==> order@.take(
                    head as int,
                ).contains(edges[l].0)),
            forall|w: usize|
                w < n ==> #[trigger] degree@[w as int] == uncounted(
                    edges,
                    counted,
                    w,
                    edges.len() as int,
                ),
            listed_iff_free(order@, degree@, n as int),
            forall|k: int| 0 <= k < order@.len() ==> (#[trigger] order@[k]) < n,
            order@.no_duplicates(),
            preds_first(order@, edges),
        decreases n - head,
    {
        let u: usize = order[head];
        let ghost done = order@.take(head as int);
        let ghost done_now = order@.take(head + 1);
        proof {
            assert(done_now =~= done.push(u));
            lemma_push_contains(done, u);
            assert(!done.contains(u)) by {
                if done.contains(u) {
                    let k = choose|k: int| 0 <= k < done.len() && done[k] == u;
                    assert(order@[k] == order@[head as int]);
                }
            }
        }
        let mut j: usize = 0;
        while j < links.len()
            invariant
                head < order@.len() <= n,
                j <= links@.len(),
                edges == links@,
                links_within(edges, n as int),
                degree@.len() == n,
                counted.len() == edges.len(),
                order@.take(head + 1) == done_now,
                forall|x: usize| done_now.contains(x) == (done.contains(x) || x == u),
                !done.contains(u),
                forall|l: int|
                    0 <= l < j ==> (#[trigger] counted[l] <==> done_now.contains(edges[l].0)),
                forall|l: int|
                    j <= l < edges.len() ==> (#[trigger] counted[l] <==> done.contains(
                        edges[l].0,
                    )),
                forall|w: usize|
                    w < n ==> #[trigger] degree@[w as int] == uncounted(
                        edges,
                        counted,
                        w,
                        edges.len() as int,
                    ),
                listed_iff_free(order@, degree@, n as int),
                forall|k: int| 0 <= k < order@.len() ==> (#[trigger] order@[k]) < n,
                order@.no_duplicates(),
                preds_first(order@, edges),
            decreases links@.len() - j,
        {
            let (source, target) = links[j];
            if source == u {
                let ghost before = counted;
                let ghost degree_before = degree@;
                let ghost order_before = order@;
                proof {
                    counted = counted.update(j as int, true);
                    lemma_uncounted_update(edges, before, target, edges.len() as int, j as int);
                    lemma_uncounted_range(edges, counted, target, edges.len() as int);
                    assert forall|w: usize| w < n implies uncounted(
                        edges,
                        counted,
                        w,
                        edges.len() as int,
                    ) == degree@[w as int] - if edges[j as int].1 == w {
                        1int
                    } else {
                        0
                    } by {
                        lemma_uncounted_update(edges, before, w, edges.len() as int, j as int);
                        assert(degree@[w as int] == uncounted(
                            edges,
                            before,
                            w,
                            edges.len() as int,
                        ));
                    }
                }
                let left: usize = degree[target] - 1;
                degree.set(target, left);
                if left == 0 {
                    proof {
                        lemma_uncounted_zero(edges, counted, target, edges.len() as int);
                        assert forall|l: int|
                            0 <= l < edges.len() && (#[trigger] edges[l]).1
                                == target implies order@.take(head + 1).contains(edges[l].0) by {
                            assert(counted[l]);
                        }
                        assert(!order_before.contains(target));
                        lemma_push_keeps_preds_first(order_before, edges, target, head + 1);
                        lemma_push_contains(order_before, target);
                    }
                    order.push(target);
                    proof {
                        assert(order@.take(head + 1) =~= order_before.take(head + 1));
                        lemma_listed_at_most(order@, n as int);
                        assert forall|w: usize| w < n implies (#[trigger] order@.contains(w)
                            <==> degree@[w as int] == 0) by {
                            assert(order_before.contains(w) <==> degree_before[w as int] == 0);
                        }
                    }
                } else {
                    assert(listed_iff_free(order@, degree@, n as int)) by {
                        assert forall|w: usize| w < n implies (#[trigger] order@.contains(w)
                            <==> degree@[w as int] == 0) by {
                            assert(order_before.contains(w) <==> degree_before[w as int] == 0);
                        }
                    }
                }
            } else {
                assert(counted[j as int] <==> done_now.contains(edges[j as int].0));
            }
            j = j + 1;
        }
        head = head + 1;
    }
    proof {
        assert(order@.take(head as int) =~= order@);
        assert forall|v: usize| v < n && !(#[trigger] order@.contains(v)) implies exists|l: int|
            0 <= l < edges.len() && (#[trigger] edges[l]).1 == v && !order@.contains(
                edges[l].0,
            ) by {
            lemma_uncounted_zero(edges, counted, v, edges.len() as int);
            assert(degree@[v as int] != 0);
            let l = choose|l: int|
                0 <= l < edges.len() && (#[trigger] edges[l]).1 == v && !counted[l];
            assert(!order@.contains(edges[l].0));
        }
    }
    order
}

/// Distinct numbers below `n` are at most `n` many.
pub proof fn lemma_listed_at_most(order: Seq<usize>, n: int)
    requires
        order.no_duplicates(),
        0 <= n,
        forall|k: int| 0 <= k < order.len() ==> (#[trigger] order[k]) < n,
    ensures
        order.len() <= n,
{
    let ints = order.map_values(|x: usize| x as int);
    assert(ints.no_duplicates()) by {
        assert forall|i: int, j: int|
            0 <= i < ints.len() && 0 <= j < ints.len() && i != j implies ints[i] != ints[j] by {
            assert(order[i] != order[j]);
        }
    }
    ints.unique_seq_to_set();
    let range = vstd::set_lib::set_int_range(0, n);
    vstd::set_lib::lemma_int_range(0, n);
    assert(ints.to_set().subset_of(range)) by {
        assert forall|x: int| ints.to_set().contains(x) implies range.contains(x) by {
            let k = choose|k: int| 0 <= k < ints.len() && ints[k] == x;
            assert(order[k] < n);
        }
    }
    vstd::set_lib::lemma_len_subset(ints.to_set(), range);
}

/// Along a topological order every link leads forward: where its target is listed, its source
/// is listed before it. A node is left out only behind another that is left out.
pub proof fn lemma_links_lead_forward(
    order: Seq<usize>,
    links: Seq<(usize, usize)>,
    n: int,
    l: int,
)
    requires
        is_topological(order, links, n),
        0 <= l < links.len(),
    ensures
        order.contains(links[l].1) ==> order.contains(links[l].0) && order.index_of(links[l].0)
            < order.index_of(links[l].1),
{
    let (source, target) = links[l];
    if order.contains(target) {
        let i = order.index_of(target);
        assert(order[i] == target);
        assert(order.take(i).contains(source));
        let j = choose|j: int| 0 <= j < order.take(i).len() && order.take(i)[j] == source;
        assert(order[j] == source);
        let k = order.index_of(source);
        assert(order[k] == source);
        assert(j == k);
    }
}

} // verus!
