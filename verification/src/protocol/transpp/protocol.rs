//! The upgrade of the group-membership transport.
use vstd::prelude::*;

verus! {

/// The group upgrade: its substream is used as it is.
#[derive(Debug, Clone, Copy, Default)]
pub struct Group;

impl Group {
    /// The protocol name the upgrade offers: `/xjrw/group/1.0.1`.
    pub fn protocol_info(&self) -> (r: Vec<u8>)
        ensures
            r@ == seq![47u8, 120, 106, 114, 119, 47, 103, 114, 111, 117, 112, 47, 49, 46, 48, 46, 49],
    {
        vec![47u8, 120, 106, 114, 119, 47, 103, 114, 111, 117, 112, 47, 49, 46, 48, 46, 49]
    }
}

} // verus!
