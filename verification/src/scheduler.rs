//! Dispatch: the scheduler classes and what each decides.

pub mod active_vp;
pub mod dispatch;
pub mod dp_wrap;
pub mod entitlement;
pub mod mixed_vp;
pub mod passive_vp;
pub mod pool;
pub mod scheduler_type;
pub mod task;
pub mod urgency;
pub mod wrap;
