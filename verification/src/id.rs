//! Peer identities: the raw 32 bytes and the readable form.

use vstd::prelude::*;

verus! {

/// A peer's identity as 32 raw bytes.
#[derive(Clone, PartialEq, Eq)]
pub struct RawId(pub [u8; 32]);

/// A peer's identity in readable form.
#[derive(Clone, PartialEq, Eq)]
pub struct FriendlyId(pub String);

} // verus!
