//! The names under which a DAG's nodes and the links between them are registered.

use vstd::prelude::*;
use vstd::string::*;

use crate::text::{append_decimal, decimal};

verus! {

/// The texts of a list of strings.
pub open spec fn texts(strings: Seq<String>) -> Seq<Seq<char>> {
    Seq::new(strings.len(), |i: int| strings[i]@)
}

/// The name of a node's reactor.
pub open spec fn reactor_name(dag_id: u32, node_id: u32) -> Seq<char> {
    "dag"@ + decimal(dag_id as nat) + "_node"@ + decimal(node_id as nat)
}

/// The name of the topic on which the node `source` sends to the node `target`.
pub open spec fn path_topic(dag_id: u32, source: u32, target: u32) -> Seq<char> {
    "dag"@ + decimal(dag_id as nat) + "_path"@ + decimal(source as nat) + "-"@ + decimal(
        target as nat,
    )
}

/// Where a node with the predecessors `in_links` gets its input from.
pub open spec fn sub_topics(dag_id: u32, node_id: u32, in_links: Seq<u32>) -> Seq<Seq<char>> {
    Seq::new(in_links.len(), |i: int| path_topic(dag_id, in_links[i], node_id))
}

/// Where a node with the successors `out_links` sends its output to.
pub open spec fn pub_topics(dag_id: u32, node_id: u32, out_links: Seq<u32>) -> Seq<Seq<char>> {
    Seq::new(out_links.len(), |i: int| path_topic(dag_id, node_id, out_links[i]))
}

/// The name of a node's reactor.
pub fn create_reactor_name(dag_id: u32, node_id: u32) -> (name: String)
    ensures
        name@ == reactor_name(dag_id, node_id),
{
    let mut name = String::from_str("dag");
    append_decimal(&mut name, dag_id as u64);
    name.append("_node");
    append_decimal(&mut name, node_id as u64);
    name
}

fn create_path_topic(dag_id: u32, source: u32, target: u32) -> (name: String)
    ensures
        name@ == path_topic(dag_id, source, target),
{
    let mut name = String::from_str("dag");
    append_decimal(&mut name, dag_id as u64);
    name.append("_path");
    append_decimal(&mut name, source as u64);
    name.append("-");
    append_decimal(&mut name, target as u64);
    name
}

/// The topics that a node with the predecessors `in_links` subscribes to.
pub fn create_sub_topics(dag_id: u32, node_id: u32, in_links: &[u32]) -> (topics: Vec<String>)
    ensures
        texts(topics@) == sub_topics(dag_id, node_id, in_links@),
{
    let mut topics: Vec<String> = Vec::new();
    let mut i: usize = 0;
    while i < in_links.len()
        invariant
            i <= in_links@.len(),
            texts(topics@) == sub_topics(dag_id, node_id, in_links@.take(i as int)),
        decreases in_links@.len() - i,
    {
        let ghost before = topics@;
        topics.push(create_path_topic(dag_id, in_links[i], node_id));
        proof {
            assert(texts(topics@) =~= texts(before).push(
                path_topic(dag_id, in_links@[i as int], node_id),
            ));
            assert(texts(topics@) =~= sub_topics(dag_id, node_id, in_links@.take(i + 1)));
        }
        i = i + 1;
    }
    assert(in_links@.take(i as int) =~= in_links@);
    topics
}

/// The topics that a node with the successors `out_links` publishes to.
pub fn create_pub_topics(dag_id: u32, node_id: u32, out_links: &[u32]) -> (topics: Vec<String>)
    ensures
        texts(topics@) == pub_topics(dag_id, node_id, out_links@),
{
    let mut topics: Vec<String> = Vec::new();
    let mut i: usize = 0;
    while i < out_links.len()
        invariant
            i <= out_links@.len(),
            texts(topics@) == pub_topics(dag_id, node_id, out_links@.take(i as int)),
        decreases out_links@.len() - i,
    {
        let ghost before = topics@;
        topics.push(create_path_topic(dag_id, node_id, out_links[i]));
        proof {
            assert(texts(topics@) =~= texts(before).push(
                path_topic(dag_id, node_id, out_links@[i as int]),
            ));
            assert(texts(topics@) =~= pub_topics(dag_id, node_id, out_links@.take(i + 1)));
        }
        i = i + 1;
    }
    assert(out_links@.take(i as int) =~= out_links@);
    topics
}

/// Both ends of a link name the same topic: what a node publishes to its successor is what
/// that successor subscribes to.
pub proof fn lemma_link_ends_meet(
    dag_id: u32,
    source: u32,
    out_links: Seq<u32>,
    i: int,
    target: u32,
    in_links: Seq<u32>,
    j: int,
)
    requires
        0 <= i < out_links.len(),
        out_links[i] == target,
        0 <= j < in_links.len(),
        in_links[j] == source,
    ensures
        pub_topics(dag_id, source, out_links)[i] == sub_topics(dag_id, target, in_links)[j],
{
}

} // verus!
