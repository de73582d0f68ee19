//! V-Fed ("virtually federated") admission for constrained-deadline DAG tasks.
//!
//! Classical federated scheduling gives a heavy DAG whole cores. V-Fed makes, on
//! each core, an *active* virtual processor (VP), which the owning DAG uses with
//! the highest priority within a budget, and a complementary *passive* VP: what is
//! left of the core, offered to another task at low priority. Where too few cores
//! are free for a full group of active VPs, other DAGs' passive VPs make up the
//! difference, and light DAGs can be served from passive VPs alone.

pub mod batch;
pub mod batch_guarantee;
pub mod commit;
pub mod commit_batch;
pub mod guarantee;
pub mod idle;
pub mod order;
pub mod packing;
pub mod plan;
pub mod sequence;
pub mod supply;

pub use self::batch::is_batch_feasible;
pub use self::commit::{admit_one, ActiveVp, VFedAssignment, VFedState};
pub use self::commit_batch::admit_batch;
pub use self::packing::PackingStrategy;
pub use self::plan::{classify, plan_heavy, plan_light, HeavyPlan, TaskClass, VFedError};
pub use self::supply::PassiveVp;
