//! A verified JWT authentication and authorization layer: token issuance
//! and verification over HMAC-SHA-512, a request guard that turns an
//! `authorization` header into a verified identity or a structured
//! rejection, and claims-based permission checks.

use vstd::prelude::*;

pub mod b64;
pub mod claims;
pub mod codec;
pub mod guard;
pub mod responses;
pub mod trusted;
pub mod users;
pub mod wire;

verus! {

/// Whether a permission sequence contains the given permission, compared
/// character for character.
pub open spec fn spec_has_permission(perms: Seq<Seq<char>>, required: Seq<char>) -> bool {
    exists|i: int| 0 <= i < perms.len() && perms[i] == required
}

} // verus!
