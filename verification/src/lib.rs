//! Mutual-exclusion locks and an epoch-based garbage collector built on
//! loom's model-checked atomics.  Beside the code, each module models the
//! protocol its code performs as a state machine of atomic steps and proves
//! the model exclusive (the locks) or safe (the collector); the proofs are
//! about those models, not about the code's runs.

pub mod clh_lock;
pub mod ebr;
mod primitives;
pub mod spin_lock;
pub mod ticket_lock;
