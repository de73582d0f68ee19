//! How a DAG's nodes are registered as reactors.

use std::collections::BTreeMap;

use vstd::prelude::*;
use vstd::string::*;

use super::data::{DagData, NodeData};
use super::names::{
    create_pub_topics, create_reactor_name, create_sub_topics, lemma_link_ends_meet, pub_topics,
    reactor_name, sub_topics, texts,
};
use super::time_unit::{convert_duration, TimeUnit};
use crate::scheduler::scheduler_type::SchedulerType;
use crate::text::{append_decimal, decimal};
use crate::time::Duration;

verus! {

/// The most inputs, and the most outputs, that a reactor can have.
pub const MAX_LINKS: usize = 16;

/// A node that cannot be registered for the number of its links, given by its DAG and its
/// own identifier.
#[derive(Debug, Clone, Copy, PartialEq, Eq, Structural)]
pub enum LinkNumError {
    Input(u32, u32),
    Output(u32, u32),
    InOut(u32, u32),
}

impl LinkNumError {
    /// The text of [`LinkNumError::message`].
    pub open spec fn text(self) -> Seq<char> {
        match self {
            LinkNumError::Input(dag_id, node_id) => "DAG#"@ + decimal(dag_id as nat) + " Node#"@
                + decimal(node_id as nat) + " has no input links"@,
            LinkNumError::Output(dag_id, node_id) => "DAG#"@ + decimal(dag_id as nat) + " Node#"@
                + decimal(node_id as nat) + " has no output links"@,
            LinkNumError::InOut(dag_id, node_id) => "DAG#"@ + decimal(dag_id as nat) + " Node#"@
                + decimal(node_id as nat) + " has no links"@,
        }
    }

    /// The error in words.
    pub fn message(&self) -> (text: String)
        ensures
            text@ == self.text(),
    {
        let mut text = String::from_str("DAG#");
        let (dag_id, node_id): (u32, u32) = match self {
            LinkNumError::Input(dag_id, node_id) => (*dag_id, *node_id),
            LinkNumError::Output(dag_id, node_id) => (*dag_id, *node_id),
            LinkNumError::InOut(dag_id, node_id) => (*dag_id, *node_id),
        };
        append_decimal(&mut text, dag_id as u64);
        text.append(" Node#");
        append_decimal(&mut text, node_id as u64);
        match self {
            LinkNumError::Input(_, _) => text.append(" has no input links"),
            LinkNumError::Output(_, _) => text.append(" has no output links"),
            LinkNumError::InOut(_, _) => text.append(" has no links"),
        }
        text
    }
}

/// What every kind of reactor is registered with.
pub struct NodeRegistrationInfo {
    pub execution_time: u64,
    pub reactor_name: String,
    pub pub_topics: Vec<String>,
    pub sub_topics: Vec<String>,
}

/// A [`NodeRegistrationInfo`] with its texts as sequences.
#[verifier::ext_equal]
pub struct NodeRegistrationInfoView {
    pub execution_time: u64,
    pub reactor_name: Seq<char>,
    pub pub_topics: Seq<Seq<char>>,
    pub sub_topics: Seq<Seq<char>>,
}

impl View for NodeRegistrationInfo {
    type V = NodeRegistrationInfoView;

    open spec fn view(&self) -> NodeRegistrationInfoView {
        NodeRegistrationInfoView {
            execution_time: self.execution_time,
            reactor_name: self.reactor_name@,
            pub_topics: texts(self.pub_topics@),
            sub_topics: texts(self.sub_topics@),
        }
    }
}

/// The registration of a node with the given neighbours.
pub open spec fn registration_info(
    dag_id: u32,
    node: NodeData,
    in_links: Seq<u32>,
    out_links: Seq<u32>,
) -> NodeRegistrationInfoView {
    NodeRegistrationInfoView {
        execution_time: node.execution_time,
        reactor_name: reactor_name(dag_id, node.id),
        pub_topics: pub_topics(dag_id, node.id, out_links),
        sub_topics: sub_topics(dag_id, node.id, in_links),
    }
}

/// Prepares the registration of a node.
pub fn setup_node_registration(
    dag_id: u32,
    node: &NodeData,
    in_links: &[u32],
    out_links: &[u32],
) -> (info: NodeRegistrationInfo)
    ensures
        info@ == registration_info(dag_id, *node, in_links@, out_links@),
{
    NodeRegistrationInfo {
        execution_time: node.execution_time,
        reactor_name: create_reactor_name(dag_id, node.id),
        pub_topics: create_pub_topics(dag_id, node.id, out_links),
        sub_topics: create_sub_topics(dag_id, node.id, in_links),
    }
}

/// The kinds of reactors.
#[derive(Debug, Clone, Copy, PartialEq, Eq, Structural)]
pub enum ReactorKind {
    /// Releases the DAG, once per period.
    Periodic { period: Duration },
    /// Ends the DAG, within its relative deadline.
    Sink { relative_deadline: Duration },
    /// Runs when all of its inputs are there.
    Intermediate,
}

/// What a node is registered with.
pub struct NodeRegistration {
    pub info: NodeRegistrationInfo,
    pub kind: ReactorKind,
    pub scheduler_type: SchedulerType,
    /// Which of the DAG's nodes goes first among those that are ready at once: the one
    /// with the largest priority.
    pub node_priority: Option<u64>,
}

/// What registering a node comes to: the common part, the kind and the scheduler class.
#[verifier::ext_equal]
pub struct NodeRegistrationView {
    pub info: NodeRegistrationInfoView,
    pub kind: ReactorKind,
    pub scheduler_type: SchedulerType,
    pub node_priority: Option<u64>,
}

impl View for NodeRegistration {
    type V = NodeRegistrationView;

    open spec fn view(&self) -> NodeRegistrationView {
        NodeRegistrationView {
            info: self.info@,
            kind: self.kind,
            scheduler_type: self.scheduler_type,
            node_priority: self.node_priority,
        }
    }
}

/// A length of time that is `amount` units long.
pub open spec fn is_duration(d: Duration, unit: TimeUnit, amount: u64) -> bool {
    d.wf() && d.total_nanos() == amount * unit.nanos()
}

/// Why a source with so many successors cannot be registered.
pub open spec fn source_error(dag_id: u32, node_id: u32, outs: int) -> Option<LinkNumError> {
    if 1 <= outs <= MAX_LINKS {
        None
    } else {
        Some(LinkNumError::Output(dag_id, node_id))
    }
}

/// Why a sink with so many predecessors cannot be registered.
pub open spec fn sink_error(dag_id: u32, node_id: u32, ins: int) -> Option<LinkNumError> {
    if 1 <= ins <= MAX_LINKS {
        None
    } else {
        Some(LinkNumError::Input(dag_id, node_id))
    }
}

/// Why a node with so many predecessors and successors cannot be registered.
pub open spec fn intermediate_error(dag_id: u32, node_id: u32, ins: int, outs: int) -> Option<
    LinkNumError,
> {
    if 1 <= ins <= MAX_LINKS && 1 <= outs <= MAX_LINKS {
        None
    } else if ins > MAX_LINKS && outs <= MAX_LINKS {
        Some(LinkNumError::Input(dag_id, node_id))
    } else if ins <= MAX_LINKS && outs > MAX_LINKS {
        Some(LinkNumError::Output(dag_id, node_id))
    } else {
        Some(LinkNumError::InOut(dag_id, node_id))
    }
}

/// Prepares the registration of a source: a periodic reactor that publishes to between one
/// and [`MAX_LINKS`] successors.
pub fn register_source_node(
    dag_id: u32,
    node: &NodeData,
    in_links: &[u32],
    out_links: &[u32],
    unit: TimeUnit,
    scheduler_type: SchedulerType,
) -> (result: Result<NodeRegistration, LinkNumError>)
    requires
        source_error(dag_id, node.id, out_links@.len() as int) is None ==> node.period is Some,
    ensures
        match source_error(dag_id, node.id, out_links@.len() as int) {
            Some(error) => result == Err::<NodeRegistration, LinkNumError>(error),
            None => {
                &&& result matches Ok(registration)
                &&& registration.info@ == registration_info(dag_id, *node, in_links@, out_links@)
                &&& registration.kind matches ReactorKind::Periodic { period }
                &&& is_duration(period, unit, node.period->0)
                &&& registration.scheduler_type == scheduler_type
                &&& registration.node_priority is None
            },
        },
{
    if out_links.len() < 1 || out_links.len() > MAX_LINKS {
        return Err(LinkNumError::Output(dag_id, node.id));
    }
    let info = setup_node_registration(dag_id, node, in_links, out_links);
    let period = convert_duration(unit, node.period.unwrap());
    Ok(
        NodeRegistration {
            info,
            kind: ReactorKind::Periodic { period },
            scheduler_type,
            node_priority: None,
        },
    )
}

/// Prepares the registration of a sink: a reactor that subscribes to between one and
/// [`MAX_LINKS`] predecessors and ends the DAG.
pub fn register_sink_node(
    dag_id: u32,
    node: &NodeData,
    in_links: &[u32],
    out_links: &[u32],
    unit: TimeUnit,
    scheduler_type: SchedulerType,
) -> (result: Result<NodeRegistration, LinkNumError>)
    requires
        sink_error(dag_id, node.id, in_links@.len() as int) is None
            ==> node.end_to_end_deadline is Some,
    ensures
        match sink_error(dag_id, node.id, in_links@.len() as int) {
            Some(error) => result == Err::<NodeRegistration, LinkNumError>(error),
            None => {
                &&& result matches Ok(registration)
                &&& registration.info@ == registration_info(dag_id, *node, in_links@, out_links@)
                &&& registration.kind matches ReactorKind::Sink { relative_deadline }
                &&& is_duration(relative_deadline, unit, node.end_to_end_deadline->0)
                &&& registration.scheduler_type == scheduler_type
                &&& registration.node_priority is None
            },
        },
{
    if in_links.len() < 1 || in_links.len() > MAX_LINKS {
        return Err(LinkNumError::Input(dag_id, node.id));
    }
    let info = setup_node_registration(dag_id, node, in_links, out_links);
    let relative_deadline = convert_duration(unit, node.end_to_end_deadline.unwrap());
    Ok(
        NodeRegistration {
            info,
            kind: ReactorKind::Sink { relative_deadline },
            scheduler_type,
            node_priority: None,
        },
    )
}

/// Prepares the registration of a node between others: a reactor with between one and
/// [`MAX_LINKS`] inputs, and as many outputs.
pub fn register_intermediate_node(
    dag_id: u32,
    node: &NodeData,
    in_links: &[u32],
    out_links: &[u32],
    scheduler_type: SchedulerType,
) -> (result: Result<NodeRegistration, LinkNumError>)
    ensures
        match intermediate_error(
            dag_id,
            node.id,
            in_links@.len() as int,
            out_links@.len() as int,
        ) {
            Some(error) => result == Err::<NodeRegistration, LinkNumError>(error),
            None => {
                &&& result matches Ok(registration)
                &&& registration.info@ == registration_info(dag_id, *node, in_links@, out_links@)
                &&& registration.kind == ReactorKind::Intermediate
                &&& registration.scheduler_type == scheduler_type
                &&& registration.node_priority is None
            },
        },
{
    let ins: usize = in_links.len();
    let outs: usize = out_links.len();
    if ins > MAX_LINKS && outs > MAX_LINKS {
        return Err(LinkNumError::InOut(dag_id, node.id));
    }
    if ins > MAX_LINKS {
        return Err(LinkNumError::Input(dag_id, node.id));
    }
    if outs > MAX_LINKS {
        return Err(LinkNumError::Output(dag_id, node.id));
    }
    if ins < 1 || outs < 1 {
        return Err(LinkNumError::InOut(dag_id, node.id));
    }
    let info = setup_node_registration(dag_id, node, in_links, out_links);
    Ok(
        NodeRegistration {
            info,
            kind: ReactorKind::Intermediate,
            scheduler_type,
            node_priority: None,
        },
    )
}

/// The identifiers of the predecessors of the node at place `v`, in the order of the first
/// `n` links.
pub open spec fn in_ids(
    nodes: Seq<NodeData>,
    links: Seq<(usize, usize)>,
    v: int,
    n: int,
) -> Seq<u32>
    decreases n,
{
    if n <= 0 {
        Seq::empty()
    } else if links[n - 1].1 == v {
        in_ids(nodes, links, v, n - 1).push(nodes[links[n - 1].0 as int].id)
    } else {
        in_ids(nodes, links, v, n - 1)
    }
}

/// The identifiers of the successors of the node at place `v`, in the order of the first
/// `n` links.
pub open spec fn out_ids(
    nodes: Seq<NodeData>,
    links: Seq<(usize, usize)>,
    v: int,
    n: int,
) -> Seq<u32>
    decreases n,
{
    if n <= 0 {
        Seq::empty()
    } else if links[n - 1].0 == v {
        out_ids(nodes, links, v, n - 1).push(nodes[links[n - 1].1 as int].id)
    } else {
        out_ids(nodes, links, v, n - 1)
    }
}

impl DagData {
    /// The predecessors of the node at place `v`.
    pub open spec fn ins(&self, v: int) -> Seq<u32> {
        in_ids(self.nodes@, self.links@, v, self.links@.len() as int)
    }

    /// The successors of the node at place `v`.
    pub open spec fn outs(&self, v: int) -> Seq<u32> {
        out_ids(self.nodes@, self.links@, v, self.links@.len() as int)
    }

    /// Whether the node at place `v` has no predecessor.
    pub open spec fn source(&self, v: int) -> bool {
        self.ins(v).len() == 0
    }

    /// Whether the node at place `v` has no successor.
    pub open spec fn sink(&self, v: int) -> bool {
        self.outs(v).len() == 0
    }

    /// Lists the predecessors of the node at place `v`.
    pub fn in_links(&self, v: usize) -> (ids: Vec<u32>)
        requires
            self.wf(),
        ensures
            ids@ == self.ins(v as int),
    {
        let mut ids: Vec<u32> = Vec::new();
        let mut l: usize = 0;
        while l < self.links.len()
            invariant
                self.wf(),
                l <= self.links@.len(),
                ids@ == in_ids(self.nodes@, self.links@, v as int, l as int),
            decreases self.links@.len() - l,
        {
            let (source, target) = self.links[l];
            assert(self.links@[l as int].0 < self.nodes@.len());
            if target == v {
                ids.push(self.nodes[source].id);
            }
            l = l + 1;
        }
        ids
    }

    /// Lists the successors of the node at place `v`.
    pub fn out_links(&self, v: usize) -> (ids: Vec<u32>)
        requires
            self.wf(),
        ensures
            ids@ == self.outs(v as int),
    {
        let mut ids: Vec<u32> = Vec::new();
        let mut l: usize = 0;
        while l < self.links.len()
            invariant
                self.wf(),
                l <= self.links@.len(),
                ids@ == out_ids(self.nodes@, self.links@, v as int, l as int),
            decreases self.links@.len() - l,
        {
            let (source, target) = self.links[l];
            assert(self.links@[l as int].1 < self.nodes@.len());
            if source == v {
                ids.push(self.nodes[target].id);
            }
            l = l + 1;
        }
        ids
    }
}

/// Why the node at place `v` cannot be registered. A node without predecessors is a source,
/// even if it has no successor either.
pub open spec fn link_error(dag_id: u32, dag: &DagData, v: int) -> Option<LinkNumError> {
    let id = dag.nodes@[v].id;
    let ins = dag.ins(v).len() as int;
    let outs = dag.outs(v).len() as int;
    if ins == 0 {
        source_error(dag_id, id, outs)
    } else if outs == 0 {
        sink_error(dag_id, id, ins)
    } else {
        intermediate_error(dag_id, id, ins, outs)
    }
}

/// The priority of a node among those of its DAG: the more urgent, the less laxity it has.
pub open spec fn priority_of(laxity: Option<Map<u32, u64>>, id: u32) -> Option<u64> {
    match laxity {
        Some(map) => if map.dom().contains(id) {
            Some((u64::MAX - map[id]) as u64)
        } else {
            None
        },
        None => None,
    }
}

/// Whether the node at place `v` is registered as it should be.
pub open spec fn registers(
    dag_id: u32,
    dag: &DagData,
    unit: TimeUnit,
    scheduler_type: SchedulerType,
    laxity: Option<Map<u32, u64>>,
    v: int,
    registration: NodeRegistrationView,
) -> bool {
    let node = dag.nodes@[v];
    &&& registration.info == registration_info(dag_id, node, dag.ins(v), dag.outs(v))
    &&& registration.scheduler_type == scheduler_type
    &&& registration.node_priority == priority_of(laxity, node.id)
    &&& if dag.source(v) {
        &&& registration.kind matches ReactorKind::Periodic { period }
        &&& is_duration(period, unit, node.period->0)
    } else if dag.sink(v) {
        &&& registration.kind matches ReactorKind::Sink { relative_deadline }
        &&& is_duration(relative_deadline, unit, node.end_to_end_deadline->0)
    } else {
        registration.kind == ReactorKind::Intermediate
    }
}

/// Whether the node at place `v` and all before it can be registered.
pub open spec fn registrable(dag_id: u32, dag: &DagData, v: int) -> bool {
    forall|u: int| 0 <= u <= v ==> (#[trigger] link_error(dag_id, dag, u)) is None
}

/// Every node that gets registered has what its kind needs: a source its period, a sink its
/// end-to-end deadline.
pub open spec fn timings_given(dag_id: u32, dag: &DagData) -> bool {
    forall|v: int|
        0 <= v < dag.nodes@.len() && #[trigger] registrable(dag_id, dag, v) ==> {
            &&& dag.source(v) ==> dag.nodes@[v].period is Some
            &&& !dag.source(v) && dag.sink(v) ==> dag.nodes@[v].end_to_end_deadline is Some
        }
}

/// Tells whether every node that gets registered has what its kind needs.
pub fn are_timings_given(dag_id: u32, dag: &DagData) -> (given: bool)
    requires
        dag.wf(),
    ensures
        given == timings_given(dag_id, dag),
{
    let mut v: usize = 0;
    while v < dag.nodes.len()
        invariant
            dag.wf(),
            v <= dag.nodes@.len(),
            forall|u: int| 0 <= u < v ==> (#[trigger] link_error(dag_id, dag, u)) is None,
            forall|u: int|
                0 <= u < v ==> {
                    &&& (#[trigger] dag.source(u)) ==> dag.nodes@[u].period is Some
                    &&& !dag.source(u) && dag.sink(u) ==> dag.nodes@[u].end_to_end_deadline is Some
                },
        decreases dag.nodes@.len() - v,
    {
        let ins: usize = dag.in_links(v).len();
        let outs: usize = dag.out_links(v).len();
        let supported = ins <= MAX_LINKS && outs <= MAX_LINKS && (ins > 0 || outs > 0);
        assert(supported == (link_error(dag_id, dag, v as int) is None));
        if !supported {
            assert forall|u: int|
                0 <= u < dag.nodes@.len() && #[trigger] registrable(dag_id, dag, u) implies {
                &&& dag.source(u) ==> dag.nodes@[u].period is Some
                &&& !dag.source(u) && dag.sink(u) ==> dag.nodes@[u].end_to_end_deadline is Some
            } by {
                assert(u < v);
            }
            return true;
        }
        let timed = if ins == 0 {
            dag.nodes[v].period.is_some()
        } else {
            outs > 0 || dag.nodes[v].end_to_end_deadline.is_some()
        };
        if !timed {
            assert(registrable(dag_id, dag, v as int));
            return false;
        }
        v = v + 1;
    }
    true
}

/// Whether `registrations` are what registering the DAG's nodes one after another comes to,
/// and `error` what it ends with: all nodes up to the first that cannot be registered.
pub open spec fn registers_nodes(
    dag_id: u32,
    dag: &DagData,
    unit: TimeUnit,
    scheduler_type: SchedulerType,
    laxity: Option<Map<u32, u64>>,
    registrations: Seq<NodeRegistration>,
    error: Option<LinkNumError>,
) -> bool {
    let n = registrations.len() as int;
    &&& n <= dag.nodes@.len()
    &&& forall|v: int| 0 <= v < n ==> (#[trigger] link_error(dag_id, dag, v)) is None
    &&& forall|v: int|
        0 <= v < n ==> registers(
            dag_id,
            dag,
            unit,
            scheduler_type,
            laxity,
            v,
            (#[trigger] registrations[v])@,
        )
    &&& match error {
        None => n == dag.nodes@.len(),
        Some(error) => n < dag.nodes@.len() && link_error(dag_id, dag, n) == Some(error),
    }
}

/// Prepares the registration of a DAG's nodes, one after another, all with the same
/// scheduler class. Stops at the first node whose number of links is not supported, and
/// says why; the nodes before it are still registered.
pub fn register_dag_nodes(
    dag_id: u32,
    dag: &DagData,
    unit: TimeUnit,
    scheduler_type: SchedulerType,
    laxity: Option<&BTreeMap<u32, u64>>,
) -> (result: (Vec<NodeRegistration>, Option<LinkNumError>))
    requires
        dag.wf(),
        timings_given(dag_id, dag),
    ensures
        registers_nodes(
            dag_id,
            dag,
            unit,
            scheduler_type,
            match laxity {
                Some(map) => Some(map@),
                None => None,
            },
            result.0@,
            result.1,
        ),
{
    let ghost laxities = match laxity {
        Some(map) => Some(map@),
        None => None,
    };
    let mut registrations: Vec<NodeRegistration> = Vec::new();
    let mut v: usize = 0;
    while v < dag.nodes.len()
        invariant
            dag.wf(),
            timings_given(dag_id, dag),
            v <= dag.nodes@.len(),
            registrations@.len() == v,
            laxities == (match laxity {
                Some(map) => Some(map@),
                None => None,
            }),
            forall|u: int| 0 <= u < v ==> (#[trigger] link_error(dag_id, dag, u)) is None,
            forall|u: int|
                0 <= u < v ==> registers(
                    dag_id,
                    dag,
                    unit,
                    scheduler_type,
                    laxities,
                    u,
                    (#[trigger] registrations@[u])@,
                ),
        decreases dag.nodes@.len() - v,
    {
        let node = &dag.nodes[v];
        let ins = dag.in_links(v);
        let outs = dag.out_links(v);
        assert(link_error(dag_id, dag, v as int) is None ==> registrable(dag_id, dag, v as int));
        let prepared = if ins.len() == 0 {
            register_source_node(
                dag_id,
                node,
                ins.as_slice(),
                outs.as_slice(),
                unit,
                scheduler_type,
            )
        } else if outs.len() == 0 {
            register_sink_node(
                dag_id,
                node,
                ins.as_slice(),
                outs.as_slice(),
                unit,
                scheduler_type,
            )
        } else {
            register_intermediate_node(
                dag_id,
                node,
                ins.as_slice(),
                outs.as_slice(),
                scheduler_type,
            )
        };
        let mut registration = match prepared {
            Err(error) => {
                return (registrations, Some(error));
            },
            Ok(registration) => registration,
        };
        if let Some(map) = laxity {
            if let Some(slack) = map.get(&node.id) {
                registration.node_priority = Some(u64::MAX - *slack);
            }
        }
        registrations.push(registration);
        v = v + 1;
    }
    (registrations, None)
}

/// The less laxity a node has, the higher its priority among the nodes of its DAG.
pub proof fn lemma_less_laxity_goes_first(laxity: Map<u32, u64>, a: u32, b: u32)
    requires
        laxity.dom().contains(a),
        laxity.dom().contains(b),
        laxity[a] < laxity[b],
    ensures
        priority_of(Some(laxity), a)->0 > priority_of(Some(laxity), b)->0,
{
}

/// Whether a link ends at `v`.
pub open spec fn ends_at(v: int) -> spec_fn((usize, usize)) -> bool {
    |link: (usize, usize)| link.1 == v
}

/// Whether a link begins at `v`.
pub open spec fn begins_at(v: int) -> spec_fn((usize, usize)) -> bool {
    |link: (usize, usize)| link.0 == v
}

/// The identifier of the node that a link begins at.
pub open spec fn id_of_source(nodes: Seq<NodeData>) -> spec_fn((usize, usize)) -> u32 {
    |link: (usize, usize)| nodes[link.0 as int].id
}

/// The identifier of the node that a link ends at.
pub open spec fn id_of_target(nodes: Seq<NodeData>) -> spec_fn((usize, usize)) -> u32 {
    |link: (usize, usize)| nodes[link.1 as int].id
}

proof fn lemma_neighbours_below(
    nodes: Seq<NodeData>,
    links: Seq<(usize, usize)>,
    v: int,
    n: int,
)
    requires
        0 <= n <= links.len(),
    ensures
        in_ids(nodes, links, v, n) == links.take(n).filter(ends_at(v)).map_values(
            id_of_source(nodes),
        ),
        out_ids(nodes, links, v, n) == links.take(n).filter(begins_at(v)).map_values(
            id_of_target(nodes),
        ),
        in_ids(nodes, links, v, n).len() == 0 <==> forall|l: int|
            0 <= l < n ==> (#[trigger] links[l]).1 != v,
        out_ids(nodes, links, v, n).len() == 0 <==> forall|l: int|
            0 <= l < n ==> (#[trigger] links[l]).0 != v,
    decreases n,
{
    reveal(Seq::filter);
    let some = links.take(n);
    if n > 0 {
        lemma_neighbours_below(nodes, links, v, n - 1);
        assert(some.drop_last() =~= links.take(n - 1));
        let link = some.last();
        assert(link == links[n - 1]);
        let ins = links.take(n - 1).filter(ends_at(v));
        let outs = links.take(n - 1).filter(begins_at(v));
        if ends_at(v)(link) {
            assert(ins.push(link).map_values(id_of_source(nodes)) =~= ins.map_values(
                id_of_source(nodes),
            ).push(id_of_source(nodes)(link)));
        }
        if begins_at(v)(link) {
            assert(outs.push(link).map_values(id_of_target(nodes)) =~= outs.map_values(
                id_of_target(nodes),
            ).push(id_of_target(nodes)(link)));
        }
    } else {
        assert(in_ids(nodes, links, v, 0) =~= some.filter(ends_at(v)).map_values(
            id_of_source(nodes),
        ));
        assert(out_ids(nodes, links, v, 0) =~= some.filter(begins_at(v)).map_values(
            id_of_target(nodes),
        ));
    }
}

/// A node's inputs are the sources of the links that end at it, and its outputs are the
/// targets of the links that begin at it, one for each link and in the order of the links.
pub proof fn lemma_neighbours_are_those_linked(dag: &DagData, v: int)
    ensures
        dag.ins(v) == dag.links@.filter(ends_at(v)).map_values(id_of_source(dag.nodes@)),
        dag.outs(v) == dag.links@.filter(begins_at(v)).map_values(id_of_target(dag.nodes@)),
        dag.source(v) <==> forall|l: int|
            0 <= l < dag.links@.len() ==> (#[trigger] dag.links@[l]).1 != v,
        dag.sink(v) <==> forall|l: int|
            0 <= l < dag.links@.len() ==> (#[trigger] dag.links@[l]).0 != v,
{
    let links = dag.links@;
    let m = links.len() as int;
    lemma_neighbours_below(dag.nodes@, links, v, m);
    assert(links.take(m) =~= links);
}

/// A node can be registered exactly if it has a link and neither too many inputs nor too many
/// outputs. It is refused for its inputs if there are too many of them alone, for its outputs
/// if there are too many of them alone or no link at all, and for both if both are too many.
pub proof fn lemma_links_decide_registration(dag_id: u32, dag: &DagData, v: int)
    ensures
        ({
            let ins = dag.ins(v).len();
            let outs = dag.outs(v).len();
            let id = dag.nodes@[v].id;
            let error = link_error(dag_id, dag, v);
            &&& error is None <==> ins <= 16 && outs <= 16 && ins + outs > 0
            &&& error == Some(LinkNumError::Input(dag_id, id)) <==> ins > 16 && outs <= 16
            &&& error == Some(LinkNumError::Output(dag_id, id)) <==> (ins <= 16 && outs > 16)
                || ins + outs == 0
            &&& error == Some(LinkNumError::InOut(dag_id, id)) <==> ins > 16 && outs > 16
        }),
{
}

/// A node's registration says when it runs: a node that no link ends at is released with its
/// period, one that no link begins at ends the DAG within its deadline, and any other waits
/// for its inputs. Both times are in the DAG's unit. The less laxity a node has, the higher
/// its priority; it has one exactly if it has a laxity.
pub proof fn lemma_registration_says_when_a_node_runs(
    dag_id: u32,
    dag: &DagData,
    unit: TimeUnit,
    scheduler_type: SchedulerType,
    laxity: Option<Map<u32, u64>>,
    v: int,
    registration: NodeRegistrationView,
)
    requires
        registers(dag_id, dag, unit, scheduler_type, laxity, v, registration),
    ensures
        ({
            let node = dag.nodes@[v];
            let first = forall|l: int|
                0 <= l < dag.links@.len() ==> (#[trigger] dag.links@[l]).1 != v;
            let last = forall|l: int|
                0 <= l < dag.links@.len() ==> (#[trigger] dag.links@[l]).0 != v;
            let unit_nanos: int = match unit {
                TimeUnit::Seconds => 1_000_000_000,
                TimeUnit::Milliseconds => 1_000_000,
                TimeUnit::Microseconds => 1_000,
                TimeUnit::Nanoseconds => 1,
            };
            &&& registration.info.execution_time == node.execution_time
            &&& registration.info.reactor_name == "dag"@ + decimal(dag_id as nat) + "_node"@
                + decimal(node.id as nat)
            &&& registration.scheduler_type == scheduler_type
            &&& match registration.kind {
                ReactorKind::Periodic { period } => first && period.secs * 1_000_000_000
                    + period.subsec_nanos == node.period->0 * unit_nanos,
                ReactorKind::Sink { relative_deadline } => !first && last
                    && relative_deadline.secs * 1_000_000_000 + relative_deadline.subsec_nanos
                    == node.end_to_end_deadline->0 * unit_nanos,
                ReactorKind::Intermediate => !first && !last,
            }
            &&& match laxity {
                Some(map) if map.contains_key(node.id) => {
                    &&& registration.node_priority is Some
                    &&& registration.node_priority->0 + map[node.id] == u64::MAX
                },
                _ => registration.node_priority is None,
            }
        }),
{
    lemma_neighbours_are_those_linked(dag, v);
}

/// The two ends of every link meet: the node that it begins at publishes to a topic that the
/// node that it ends at subscribes to.
pub proof fn lemma_registrations_meet(
    dag_id: u32,
    dag: &DagData,
    unit: TimeUnit,
    scheduler_type: SchedulerType,
    laxity: Option<Map<u32, u64>>,
    l: int,
    source: NodeRegistrationView,
    target: NodeRegistrationView,
)
    requires
        0 <= l < dag.links@.len(),
        registers(dag_id, dag, unit, scheduler_type, laxity, dag.links@[l].0 as int, source),
        registers(dag_id, dag, unit, scheduler_type, laxity, dag.links@[l].1 as int, target),
    ensures
        exists|topic: Seq<char>| #[trigger]
            source.info.pub_topics.contains(topic) && target.info.sub_topics.contains(topic),
{
    let links = dag.links@;
    let link = links[l];
    let (u, v) = (link.0 as int, link.1 as int);
    lemma_neighbours_are_those_linked(dag, u);
    lemma_neighbours_are_those_linked(dag, v);
    links.lemma_filter_contains(begins_at(u), l);
    links.lemma_filter_contains(ends_at(v), l);
    let outs = links.filter(begins_at(u));
    let ins = links.filter(ends_at(v));
    assert(outs.contains(link));
    assert(ins.contains(link));
    let i = choose|i: int| 0 <= i < outs.len() && outs[i] == link;
    let j = choose|j: int| 0 <= j < ins.len() && ins[j] == link;
    let from = dag.nodes@[u].id;
    let to = dag.nodes@[v].id;
    assert(dag.outs(u)[i] == to);
    assert(dag.ins(v)[j] == from);
    lemma_link_ends_meet(dag_id, from, dag.outs(u), i, to, dag.ins(v), j);
    let topic = source.info.pub_topics[i];
    assert(target.info.sub_topics[j] == topic);
    assert(source.info.pub_topics.contains(topic));
}

} // verus!
