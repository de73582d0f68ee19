//! Admission policies.

pub mod federated;
pub mod vfed;
