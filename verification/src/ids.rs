//! Identifiers of windows, tabs, inner tabs, layout nodes and terminals.
//! Each holds the 128-bit value of a UUID.
use vstd::prelude::*;

verus! {

#[derive(Clone, Copy, Debug, PartialEq, Eq, Hash, Structural)]
pub struct WindowId(pub u128);

#[derive(Clone, Copy, Debug, PartialEq, Eq, Hash, Structural)]
pub struct TabId(pub u128);

#[derive(Clone, Copy, Debug, PartialEq, Eq, Hash, Structural)]
pub struct InnerTabId(pub u128);

#[derive(Clone, Copy, Debug, PartialEq, Eq, Hash, Structural)]
pub struct NodeId(pub u128);

#[derive(Clone, Copy, Debug, PartialEq, Eq, Hash, Structural)]
pub struct TerminalId(pub u128);

/// Calls `uuid::Uuid::new_v4` and hands out the 128-bit value of the new id
/// (`Uuid::as_u128`). The id is drawn at random: only the version nibble (4)
/// and the variant bits (binary 10) that `new_v4` sets are stated. The
/// crate panics where the system gives it no random bytes, which no
/// argument of this function can rule out.
#[verifier::external_body]
pub(crate) fn fresh_uuid() -> (r: u128)
    ensures
        (r >> 76u128) & 0xfu128 == 4u128,
        (r >> 62u128) & 0x3u128 == 2u128,
{
    uuid::Uuid::new_v4().as_u128()
}

} // verus!
