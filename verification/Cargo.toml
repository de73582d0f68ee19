[package]
name = "dag_sched"
version = "0.1.0"
edition = "2021"
publish = false

[dependencies]
affinity_btree_queue = "=0.1.1"
log = "=0.4.35"
