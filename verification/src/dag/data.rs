//! The nodes and links of a DAG.

use vstd::prelude::*;

use super::timing::time_sum;

verus! {

/// One node of a DAG.
#[derive(Debug, Clone, Copy, PartialEq, Eq)]
pub struct NodeData {
    pub id: u32,
    /// The worst-case execution time.
    pub execution_time: u64,
    /// How often the DAG is released; given on its source.
    pub period: Option<u64>,
    /// The relative deadline of the DAG; given on its sink.
    pub end_to_end_deadline: Option<u64>,
}

/// A DAG: its nodes, and its links as pairs of places in `nodes`, from source to
/// target.
#[derive(Debug, Clone, PartialEq, Eq)]
pub struct DagData {
    pub dag_id: u32,
    pub nodes: Vec<NodeData>,
    pub links: Vec<(usize, usize)>,
}

/// No identifier occurs twice.
pub open spec fn distinct_ids(nodes: Seq<NodeData>) -> bool {
    forall|i: int, j: int|
        0 <= i < j < nodes.len() ==> (#[trigger] nodes[i]).id != (#[trigger] nodes[j]).id
}

/// Every link joins two of the `n` nodes.
pub open spec fn links_within(links: Seq<(usize, usize)>, n: int) -> bool {
    forall|i: int| 0 <= i < links.len() ==> (#[trigger] links[i]).0 < n && links[i].1 < n
}

impl DagData {
    pub open spec fn wf(&self) -> bool {
        &&& self.nodes@.len() <= u32::MAX
        &&& distinct_ids(self.nodes@)
        &&& links_within(self.links@, self.nodes@.len() as int)
    }

    /// Tells whether no identifier occurs twice and every link joins two of the nodes.
    pub fn is_well_formed(&self) -> (well_formed: bool)
        ensures
            well_formed == self.wf(),
    {
        if self.nodes.len() > u32::MAX as usize {
            return false;
        }
        let mut j: usize = 0;
        while j < self.nodes.len()
            invariant
                j <= self.nodes@.len(),
                forall|a: int, b: int|
                    0 <= a < b < j ==> (#[trigger] self.nodes@[a]).id != (
                    #[trigger] self.nodes@[b]).id,
            decreases self.nodes@.len() - j,
        {
            let mut i: usize = 0;
            while i < j
                invariant
                    i <= j < self.nodes@.len(),
                    forall|a: int|
                        0 <= a < i ==> (#[trigger] self.nodes@[a]).id != self.nodes@[j as int].id,
                decreases j - i,
            {
                if self.nodes[i].id == self.nodes[j].id {
                    return false;
                }
                i = i + 1;
            }
            j = j + 1;
        }
        let mut k: usize = 0;
        while k < self.links.len()
            invariant
                k <= self.links@.len(),
                forall|a: int|
                    0 <= a < k ==> (#[trigger] self.links@[a]).0 < self.nodes@.len()
                        && self.links@[a].1 < self.nodes@.len(),
            decreases self.links@.len() - k,
        {
            let (source, target) = self.links[k];
            if source >= self.nodes.len() || target >= self.nodes.len() {
                assert(!links_within(self.links@, self.nodes@.len() as int));
                return false;
            }
            k = k + 1;
        }
        true
    }

    /// The execution times of the nodes.
    pub open spec fn times(&self) -> Seq<u64> {
        Seq::new(self.nodes@.len(), |i: int| self.nodes@[i].execution_time)
    }

    /// The sum of all execution times.
    pub open spec fn total_work(&self) -> int {
        time_sum(self.times(), self.nodes@.len() as int)
    }

    /// The execution times of the nodes, in their order.
    pub fn execution_times(&self) -> (times: Vec<u64>)
        ensures
            times@ == self.times(),
    {
        let mut times: Vec<u64> = Vec::new();
        let mut i: usize = 0;
        while i < self.nodes.len()
            invariant
                i <= self.nodes@.len(),
                times@ == self.times().take(i as int),
            decreases self.nodes@.len() - i,
        {
            times.push(self.nodes[i].execution_time);
            i = i + 1;
            assert(times@ =~= self.times().take(i as int));
        }
        assert(times@ =~= self.times());
        times
    }
}

/// The place of the node with the identifier `id`, from place `i` on.
pub open spec fn place_from(nodes: Seq<NodeData>, id: u32, i: int) -> Option<usize>
    decreases nodes.len() - i,
{
    if i >= nodes.len() {
        None
    } else if nodes[i].id == id {
        Some(i as usize)
    } else {
        place_from(nodes, id, i + 1)
    }
}

/// The place of the first node with the identifier `id`.
pub open spec fn place_of(nodes: Seq<NodeData>, id: u32) -> Option<usize> {
    place_from(nodes, id, 0)
}

proof fn lemma_place_from(nodes: Seq<NodeData>, id: u32, i: int)
    requires
        0 <= i,
        nodes.len() <= usize::MAX,
    ensures
        match place_from(nodes, id, i) {
            Some(p) => i <= p < nodes.len() && nodes[p as int].id == id,
            None => forall|k: int| i <= k < nodes.len() ==> (#[trigger] nodes[k]).id != id,
        },
    decreases nodes.len() - i,
{
    if i < nodes.len() && nodes[i].id != id {
        lemma_place_from(nodes, id, i + 1);
    }
}

/// Finds the place of the first node with the identifier `id`.
pub fn find_node(nodes: &Vec<NodeData>, id: u32) -> (place: Option<usize>)
    ensures
        place == place_of(nodes@, id),
        match place {
            Some(p) => p < nodes@.len() && nodes@[p as int].id == id,
            None => forall|k: int| 0 <= k < nodes@.len() ==> (#[trigger] nodes@[k]).id != id,
        },
{
    let mut i: usize = 0;
    while i < nodes.len()
        invariant
            i <= nodes@.len(),
            place_of(nodes@, id) == place_from(nodes@, id, i as int),
            forall|k: int| 0 <= k < i ==> (#[trigger] nodes@[k]).id != id,
        decreases nodes@.len() - i,
    {
        if nodes[i].id == id {
            return Some(i);
        }
        i = i + 1;
    }
    None
}

/// Why nodes and links do not make up a DAG's data.
#[derive(Debug, Clone, Copy, PartialEq, Eq, Structural)]
pub enum DagDataError {
    /// More nodes than there are identifiers.
    TooManyNodes,
    /// Two nodes have this identifier.
    DuplicateNode(u32),
    /// A link names a node that does not exist.
    UnknownNode(u32),
}

/// The first identifier, from place `i` on, that an earlier node has too.
pub open spec fn first_duplicate(nodes: Seq<NodeData>, i: int) -> Option<u32>
    decreases nodes.len() - i,
{
    if i >= nodes.len() {
        None
    } else if place_of(nodes.take(i), nodes[i].id) is Some {
        Some(nodes[i].id)
    } else {
        first_duplicate(nodes, i + 1)
    }
}

/// The links, given by identifiers, as places; or the first identifier that no node
/// has.
pub open spec fn resolved(nodes: Seq<NodeData>, links: Seq<(u32, u32)>) -> Result<
    Seq<(usize, usize)>,
    u32,
>
    decreases links.len(),
{
    if links.len() == 0 {
        Ok(Seq::empty())
    } else {
        match resolved(nodes, links.drop_last()) {
            Err(id) => Err(id),
            Ok(rest) => {
                let (source, target) = links.last();
                match (place_of(nodes, source), place_of(nodes, target)) {
                    (None, _) => Err(source),
                    (_, None) => Err(target),
                    (Some(s), Some(t)) => Ok(rest.push((s, t))),
                }
            },
        }
    }
}

proof fn lemma_resolved_prefix(nodes: Seq<NodeData>, links: Seq<(u32, u32)>, n: int, id: u32)
    requires
        0 <= n <= links.len(),
        resolved(nodes, links.take(n)) == Err::<Seq<(usize, usize)>, u32>(id),
    ensures
        resolved(nodes, links) == Err::<Seq<(usize, usize)>, u32>(id),
    decreases links.len() - n,
{
    if n == links.len() {
        assert(links.take(n) =~= links);
    } else {
        assert(links.take(n + 1).drop_last() =~= links.take(n));
        lemma_resolved_prefix(nodes, links, n + 1, id);
    }
}

impl DagData {
    /// Builds a DAG's data from its nodes and from its links by identifier. Fails if
    /// two nodes share an identifier or a link names no node.
    pub fn new(dag_id: u32, nodes: Vec<NodeData>, links: &[(u32, u32)]) -> (result: Result<
        Self,
        DagDataError,
    >)
        ensures
            if nodes@.len() > u32::MAX {
                result == Err::<DagData, DagDataError>(DagDataError::TooManyNodes)
            } else {
                match first_duplicate(nodes@, 0) {
                    Some(id) => result == Err::<DagData, DagDataError>(
                        DagDataError::DuplicateNode(id),
                    ),
                    None => match resolved(nodes@, links@) {
                        Err(id) => result == Err::<DagData, DagDataError>(
                            DagDataError::UnknownNode(id),
                        ),
                        Ok(places) => {
                            &&& result matches Ok(dag)
                            &&& dag.wf()
                            &&& dag.dag_id == dag_id
                            &&& dag.nodes@ == nodes@
                            &&& dag.links@ == places
                        },
                    },
                }
            },
    {
        if nodes.len() > u32::MAX as usize {
            return Err(DagDataError::TooManyNodes);
        }
        let mut seen: Vec<NodeData> = Vec::new();
        let mut i: usize = 0;
        while i < nodes.len()
            invariant
                i <= nodes@.len() <= u32::MAX,
                seen@ == nodes@.take(i as int),
                distinct_ids(seen@),
                first_duplicate(nodes@, 0) == first_duplicate(nodes@, i as int),
            decreases nodes@.len() - i,
        {
            let node = nodes[i];
            if find_node(&seen, node.id).is_some() {
                return Err(DagDataError::DuplicateNode(node.id));
            }
            seen.push(node);
            i = i + 1;
            assert(seen@ =~= nodes@.take(i as int));
        }
        assert(seen@ =~= nodes@);
        assert(first_duplicate(nodes@, i as int) is None);
        let mut places: Vec<(usize, usize)> = Vec::new();
        let mut j: usize = 0;
        assert(links@.take(0) =~= Seq::<(u32, u32)>::empty());
        while j < links.len()
            invariant
                j <= links@.len(),
                nodes@.len() <= u32::MAX,
                first_duplicate(nodes@, 0) is None,
                resolved(nodes@, links@.take(j as int)) == Ok::<Seq<(usize, usize)>, u32>(places@),
                links_within(places@, nodes@.len() as int),
            decreases links@.len() - j,
        {
            let (source, target) = links[j];
            assert(links@.take(j + 1).drop_last() =~= links@.take(j as int));
            match (find_node(&nodes, source), find_node(&nodes, target)) {
                (None, _) => {
                    proof {
                        lemma_resolved_prefix(nodes@, links@, j + 1, source);
                    }
                    return Err(DagDataError::UnknownNode(source));
                },
                (_, None) => {
                    proof {
                        lemma_resolved_prefix(nodes@, links@, j + 1, target);
                    }
                    return Err(DagDataError::UnknownNode(target));
                },
                (Some(s), Some(t)) => {
                    places.push((s, t));
                },
            }
            j = j + 1;
        }
        assert(links@.take(j as int) =~= links@);
        Ok(DagData { dag_id, nodes, links: places })
    }
}

/// Some node has the identifier `id`.
pub open spec fn known(nodes: Seq<NodeData>, id: u32) -> bool {
    exists|v: int| 0 <= v < nodes.len() && (#[trigger] nodes[v]).id == id
}

/// The link at place `l` is the first that names a node that does not exist, and `id` is what
/// it names: its source, if that does not exist, else its target.
pub open spec fn first_unknown(
    nodes: Seq<NodeData>,
    links: Seq<(u32, u32)>,
    l: int,
    id: u32,
) -> bool {
    &&& 0 <= l < links.len()
    &&& forall|j: int|
        0 <= j < l ==> known(nodes, (#[trigger] links[j]).0) && known(nodes, links[j].1)
    &&& !known(nodes, id)
    &&& links[l].0 == id || (known(nodes, links[l].0) && links[l].1 == id)
}

/// `id` is the first identifier that the links name and no node has.
pub open spec fn names_unknown(nodes: Seq<NodeData>, links: Seq<(u32, u32)>, id: u32) -> bool {
    exists|l: int| first_unknown(nodes, links, l, id)
}

/// Each of the `places` is that of the two nodes that the link there names.
pub open spec fn leads(
    nodes: Seq<NodeData>,
    links: Seq<(u32, u32)>,
    places: Seq<(usize, usize)>,
) -> bool {
    &&& places.len() == links.len()
    &&& forall|l: int|
        0 <= l < links.len() ==> (#[trigger] places[l]).0 < nodes.len() && places[l].1
            < nodes.len() && nodes[places[l].0 as int].id == links[l].0
            && nodes[places[l].1 as int].id == links[l].1
}

/// Every link leads between the two nodes that it names, in its direction. Links are refused
/// by the first identifier that no node has.
pub proof fn lemma_links_lead_where_they_say(nodes: Seq<NodeData>, links: Seq<(u32, u32)>)
    requires
        nodes.len() <= usize::MAX,
    ensures
        match resolved(nodes, links) {
            Ok(places) => leads(nodes, links, places),
            Err(id) => names_unknown(nodes, links, id),
        },
    decreases links.len(),
{
    if links.len() > 0 {
        let fewer = links.drop_last();
        lemma_links_lead_where_they_say(nodes, fewer);
        let (source, target) = links.last();
        lemma_place_from(nodes, source, 0);
        lemma_place_from(nodes, target, 0);
        assert forall|l: int| 0 <= l < fewer.len() implies #[trigger] links[l] == fewer[l] by {}
        match resolved(nodes, fewer) {
            Err(id) => {
                let l = choose|l: int| first_unknown(nodes, fewer, l, id);
                assert(first_unknown(nodes, links, l, id));
                assert(names_unknown(nodes, links, id));
            },
            Ok(rest) => {
                let last = links.len() - 1;
                assert(links[last] == (source, target));
                assert forall|j: int| 0 <= j < last implies known(nodes, (#[trigger] links[j]).0)
                    && known(nodes, links[j].1) by {
                    assert(nodes[rest[j].0 as int].id == links[j].0);
                    assert(nodes[rest[j].1 as int].id == links[j].1);
                }
                if place_of(nodes, source) is None {
                    assert(first_unknown(nodes, links, last, source));
                    assert(names_unknown(nodes, links, source));
                } else if place_of(nodes, target) is None {
                    assert(nodes[place_of(nodes, source)->0 as int].id == source);
                    assert(first_unknown(nodes, links, last, target));
                    assert(names_unknown(nodes, links, target));
                } else {
                    let s = place_of(nodes, source)->0;
                    let t = place_of(nodes, target)->0;
                    let places = rest.push((s, t));
                    assert forall|l: int| 0 <= l < links.len() implies (#[trigger] places[l]).0
                        < nodes.len() && places[l].1 < nodes.len()
                        && nodes[places[l].0 as int].id == links[l].0
                        && nodes[places[l].1 as int].id == links[l].1 by {
                        if l < last {
                            assert(places[l] == rest[l]);
                        }
                    }
                    assert(leads(nodes, links, places));
                }
            },
        }
    }
}

/// Nodes are refused exactly if two of them share an identifier, and by one that two share.
pub proof fn lemma_shared_identifier_is_found(nodes: Seq<NodeData>, i: int)
    requires
        nodes.len() <= usize::MAX,
        0 <= i,
    ensures
        match first_duplicate(nodes, i) {
            Some(id) => exists|a: int, b: int|
                0 <= a < b < nodes.len() && i <= b && (#[trigger] nodes[a]).id == id && (
                #[trigger] nodes[b]).id == id,
            None => forall|a: int, b: int|
                0 <= a < b < nodes.len() && i <= b ==> (#[trigger] nodes[a]).id != (
                #[trigger] nodes[b]).id,
        },
    decreases nodes.len() - i,
{
    if i < nodes.len() {
        let before = nodes.take(i);
        let id = nodes[i].id;
        lemma_place_from(before, id, 0);
        if place_of(before, id) is Some {
            let p = place_of(before, id)->0 as int;
            assert(before[p] == nodes[p]);
        } else {
            lemma_shared_identifier_is_found(nodes, i + 1);
            assert forall|a: int| 0 <= a < i implies (#[trigger] nodes[a]).id != id by {
                assert(before[a] == nodes[a]);
            }
        }
    }
}

} // verus!
