use vstd::prelude::*;
use vstd::utf8::encode_utf8;
use crate::claims::JWT;
use crate::codec::{decode_jwt, spec_decode, DecodeOutcome, VerificationError};
use crate::responses::NetworkResponse;
use crate::spec_has_permission;

verus! {

/// The machine-checkable reason a request was rejected. `Other` is the
/// catch-all category for failures outside the defined kinds; this guard
/// never produces it.
#[derive(Debug, Clone, Copy, PartialEq, Eq)]
pub enum RejectionKind {
    NoToken,
    Expired,
    Invalid,
    Other,
}

/// A rejected request: a kind plus a message fit for the caller.
#[derive(Debug, Clone)]
pub struct Rejection {
    pub kind: RejectionKind,
    pub message: String,
}

/// Whether a guard result agrees with the decode specification for a
/// present header.
pub open spec fn guard_agrees(r: Result<JWT, Rejection>, o: DecodeOutcome) -> bool {
    match o {
        DecodeOutcome::Accept { subject_id, permissions, expires_at } => r matches Ok(j)
            && j.claims.subject_id@ == subject_id && j.claims.permissions.deep_view()
            == permissions && j.claims.expires_at == expires_at,
        DecodeOutcome::Expired => r matches Err(rej) && rej.kind is Expired && rej.message@
            == "Error validating JWT token - Expired Token"@,
        DecodeOutcome::Invalid => r matches Err(rej) && rej.kind is Invalid && rej.message@
            == "Error validating JWT token - Invalid Token"@,
        DecodeOutcome::Malformed => r matches Err(rej) && rej.kind is Invalid && rej.message@
            == "Error validating JWT token - Invalid Token"@,
    }
}

/// The request guard: an absent `authorization` header is always rejected
/// as `NoToken`; a present one is decoded, and the result follows the
/// decode specification on every input.
pub fn authenticate(header: Option<&String>, now: u64, secret: &String) -> (r: Result<
    JWT,
    Rejection,
>)
    ensures
        (header is None ==> (r matches Err(rej) && rej.kind is NoToken && rej.message@
            == "Error validating JWT token - No token provided"@)),
        (header matches Some(h) ==> guard_agrees(
            r,
            spec_decode(encode_utf8(h@), now, encode_utf8(secret@)),
        )),
{
    match header {
        None => Err(
            Rejection {
                kind: RejectionKind::NoToken,
                message: String::from_str("Error validating JWT token - No token provided"),
            },
        ),
        Some(h) => match decode_jwt(h, now, secret) {
            Ok(claims) => Ok(JWT { claims }),
            Err(VerificationError::Expired) => Err(
                Rejection {
                    kind: RejectionKind::Expired,
                    message: String::from_str("Error validating JWT token - Expired Token"),
                },
            ),
            Err(VerificationError::Invalid) => Err(
                Rejection {
                    kind: RejectionKind::Invalid,
                    message: String::from_str("Error validating JWT token - Invalid Token"),
                },
            ),
            Err(VerificationError::Malformed) => Err(
                Rejection {
                    kind: RejectionKind::Invalid,
                    message: String::from_str("Error validating JWT token - Invalid Token"),
                },
            ),
            Err(VerificationError::Other(m)) => {
                proof {
                    assert(false);
                }
                Err(Rejection { kind: RejectionKind::Other, message: m })
            },
        },
    }
}

/// The permission gate a handler runs after the guard: a guard rejection
/// passes through unchanged; a verified identity without the required
/// permission is refused as unauthorized, never as an invalid token; one
/// with it passes.
pub fn require_permission(key: Result<JWT, NetworkResponse>, permission: String) -> (r: Result<
    JWT,
    NetworkResponse,
>)
    ensures
        (match key {
            Err(e) => r matches Err(e2) && e2 == e,
            Ok(j) => if spec_has_permission(j.claims.permissions.deep_view(), permission@) {
                r matches Ok(j2) && j2 == j
            } else {
                r matches Err(e) && e matches NetworkResponse::Unauthorized(m) && m@
                    == "You are unauthorized to access this resource."@
            },
        }),
{
    match key {
        Err(e) => Err(e),
        Ok(j) => {
            let claims_copy = crate::claims::JWT {
                claims: crate::claims::Claims {
                    subject_id: j.claims.subject_id.clone(),
                    permissions: clone_strings(&j.claims.permissions),
                    expires_at: j.claims.expires_at,
                },
            };
            if crate::claims::check_permission(claims_copy, permission) {
                Ok(j)
            } else {
                Err(
                    NetworkResponse::Unauthorized(
                        String::from_str("You are unauthorized to access this resource."),
                    ),
                )
            }
        },
    }
}

/// Clone a permission list, keeping every string's characters.
fn clone_strings(v: &Vec<String>) -> (r: Vec<String>)
    ensures
        r.deep_view() == v.deep_view(),
        r@.len() == v@.len(),
{
    let mut out: Vec<String> = Vec::new();
    let mut i: usize = 0;
    while i < v.len()
        invariant
            i <= v.len(),
            out@.len() == i,
            forall|j: int| 0 <= j < i ==> #[trigger] out@[j]@ == v@[j]@,
        decreases v.len() - i,
    {
        out.push(v[i].clone());
        i = i + 1;
    }
    proof {
        assert(out.deep_view() =~~= v.deep_view()) by {
            assert(out.deep_view().len() == v.deep_view().len());
            assert forall|j: int| 0 <= j < v@.len() implies out.deep_view()[j] == v.deep_view()[j]
                by {
                assert(out.deep_view()[j] == out@[j]@);
                assert(v.deep_view()[j] == v@[j]@);
            }
        }
    }
    out
}

} // verus!
