//! The base shape every protocol message shares.

use vstd::prelude::*;

verus! {

/// The base message: only the protocol version tag.
#[derive(Debug)]
pub struct Message {
    pub jsonrpc: String,
}

} // verus!
