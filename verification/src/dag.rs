//! DAGs of nodes with worst-case execution times, and what follows from their
//! shape.

pub mod bignat;
pub mod build_dag;
pub mod data;
pub mod fluid;
pub mod names;
pub mod outcome;
pub mod register;
pub mod segments;
pub mod stats;
pub mod time_unit;
pub mod timing;
pub mod topology;
