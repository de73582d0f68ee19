# dag_sched

Admission control and dispatch decisions for DAG tasks on a multicore real-time kernel, as
a Verus library. Every function carries a contract. The contracts are proved, except those
of ten small wrappers around the `affinity_btree_queue` crate, which are trusted.

## Layout

- `src/dag/`: DAGs of nodes with worst-case execution times. Critical path, laxity,
  segments, the fluid model, names, registration and the build of a DAG.
- `src/dag_sched/`: DAG metrics, the core and utilization ledger, federated and V-Fed
  admission, and deadline partitions.
- `src/scheduler/`: the scheduler classes of active, passive, mixed and fluid tasks, on a
  task table that holds what they read.
- `src/timer.rs`, `src/time.rs`: timer requests of one CPU, and times.
- `src/cpu.rs`, `src/queue.rs`: CPU sets and the run queue of the `affinity_btree_queue`
  crate. These are the only files with trusted items: the wrappers, the declarations of the
  two outside types, and names for what their values hold.
- `tests/`: the library's tests, with the real outside crates.
- `app/`: the kernel's side: clock, interrupts, locks, logs and floating point.

State that the CPUs of a kernel share is explicit here: the functions take the ledger, the
task table, the budgets or the timer state, and the caller holds the locks.

## Numbers

Times are integers in the unit of the DAG's data; the scheduler classes use nanoseconds.
Utilization is in parts per million. Rates of fluid tasks are integers of which `RATE_UNIT`
make up one processor; the deadlines and rates of fluid segments are exact fractions, and a
rate is rounded to that grid once.
