//! Admission control and dispatch decisions for DAG tasks on a multicore
//! real-time kernel.

pub mod cpu;
pub mod dag;
pub mod dag_sched;
pub mod queue;
pub mod scheduler;
pub mod text;
pub mod time;
pub mod timer;
