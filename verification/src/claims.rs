use vstd::prelude::*;
use crate::spec_has_permission;

verus! {

/// The payload carried inside a signed token.
#[derive(Debug, Clone)]
pub struct Claims {
    pub subject_id: String,
    pub permissions: Vec<String>,
    pub expires_at: u64,
}

/// A verified identity: the claims recovered from a token that passed
/// signature and expiry checks.
#[derive(Debug, Clone)]
pub struct JWT {
    pub claims: Claims,
}

/// True exactly when the required permission is present, character for
/// character: no case folding, no prefix or wildcard matching.
pub fn check_permission(token: JWT, permission_to_check: String) -> (r: bool)
    ensures
        r == spec_has_permission(token.claims.permissions.deep_view(), permission_to_check@),
{
    let claims = token.claims;
    let permissions = claims.permissions;
    let ghost pv = permissions.deep_view();
    proof {
        assert(pv.len() == permissions@.len());
        assert(forall|j: int| 0 <= j < pv.len() ==> pv[j] == #[trigger] permissions@[j]@);
    }
    let mut i: usize = 0;
    while i < permissions.len()
        invariant
            i <= permissions.len(),
            permissions == token.claims.permissions,
            pv == permissions.deep_view(),
            pv.len() == permissions@.len(),
            forall|j: int| 0 <= j < pv.len() ==> pv[j] == #[trigger] permissions@[j]@,
            forall|j: int| 0 <= j < i ==> pv[j] != permission_to_check@,
        decreases permissions.len() - i,
    {
        if permissions[i].eq(&permission_to_check) {
            assert(pv[i as int] == permission_to_check@);
            return true;
        }
        i = i + 1;
    }
    assert(!spec_has_permission(pv, permission_to_check@));
    false
}

} // verus!
