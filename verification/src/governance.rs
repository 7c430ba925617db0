//! Governance component.

pub mod state_key;
