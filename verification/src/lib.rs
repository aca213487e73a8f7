//! A stable-identity reconciliation engine for grouped items.
//!
//! A host delivers snapshots of groups (tabs) and of the items (panes) inside
//! them, with ephemeral identifiers that the host may reassign at any time.
//! The engine maintains its own persistent `StableIdentity` per group, infers
//! continuity across host churn, and re-renders user-registered label
//! templates whenever a group's display position moves.

pub mod engine;
pub mod laws;
pub mod numbers;
pub mod snapshot;
pub mod template;
pub mod vecmap;
