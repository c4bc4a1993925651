//! Protocols built on notification substreams: the group behaviour and the
//! group-membership transport.

pub mod generic_proto;
pub mod transpp;
