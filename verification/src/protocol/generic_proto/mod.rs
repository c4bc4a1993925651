//! Behaviours over the generic notification protocol.

pub mod group;
