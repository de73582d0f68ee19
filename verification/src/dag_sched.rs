//! DAG scheduling policy: which scheduler and which cores a DAG's nodes use.

pub mod dp_partition;
pub mod metrics;
pub mod policy;
pub mod provision;
pub mod resource;
