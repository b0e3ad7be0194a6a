use vstd::prelude::*;
use crate::claims::JWT;
use crate::codec::{AuthConfig, TokenResponse, create_jwt, issued_tokens_ok, MAX_TS};
use crate::responses::NetworkResponse;
use crate::spec_has_permission;

verus! {

/// A stored user record.
#[derive(Debug, Clone)]
pub struct User {
    pub id: Option<String>,
    pub first_name: String,
    pub last_name: String,
    pub email: String,
    pub password: String,
    pub permissions: Vec<String>,
}

/// A registered permission value.
#[derive(Debug, Clone)]
pub struct Permission {
    pub id: Option<String>,
    pub value: String,
}

/// What the identity endpoint reports about the authenticated user.
#[derive(Debug, Clone)]
pub struct WhoAmIResponse {
    pub first_name: String,
    pub last_name: String,
    pub email: String,
    pub permissions: Vec<String>,
}

/// Why a login failed: unknown credentials, or an internal failure.
#[derive(Debug, Clone, Copy, PartialEq, Eq)]
pub enum LoginError {
    Unauthorized,
    InternalError,
}

/// Keep exactly the permissions that are registered, in their given order.
pub fn validate_permissions(permissions: Vec<String>, registry: &Vec<String>) -> (r: Vec<String>)
    ensures
        r.deep_view() == permissions.deep_view().filter(
            |p: Seq<char>| spec_has_permission(registry.deep_view(), p),
        ),
{
    let ghost pred = |p: Seq<char>| spec_has_permission(registry.deep_view(), p);
    let ghost pv = permissions.deep_view();
    proof {
        assert(pv.len() == permissions@.len());
        assert(forall|j: int| 0 <= j < pv.len() ==> pv[j] == #[trigger] permissions@[j]@);
        reveal_with_fuel(Seq::filter, 2);
        assert(pv.take(0) =~= Seq::<Seq<char>>::empty());
        assert(pv.take(0).filter(pred) =~= Seq::<Seq<char>>::empty());
    }
    let mut out: Vec<String> = Vec::new();
    let mut i: usize = 0;
    while i < permissions.len()
        invariant
            i <= permissions.len(),
            pv == permissions.deep_view(),
            pv.len() == permissions@.len(),
            forall|j: int| 0 <= j < pv.len() ==> pv[j] == #[trigger] permissions@[j]@,
            pred == (|p: Seq<char>| spec_has_permission(registry.deep_view(), p)),
            out.deep_view() == pv.take(i as int).filter(pred),
        decreases permissions.len() - i,
    {
        let ghost before = out.deep_view();
        let keep = contains_string(registry, &permissions[i]);
        if keep {
            out.push(permissions[i].clone());
        }
        proof {
            reveal_with_fuel(Seq::filter, 2);
            let step = pv.take(i + 1);
            assert(step.drop_last() =~= pv.take(i as int));
            assert(step.last() == pv[i as int]);
            assert(step.filter(pred) == if pred(pv[i as int]) {
                pv.take(i as int).filter(pred).push(pv[i as int])
            } else {
                pv.take(i as int).filter(pred)
            });
            if keep {
                assert(out.deep_view() =~~= before.push(pv[i as int])) by {
                    assert(out.deep_view().len() == before.len() + 1);
                    assert forall|j: int| 0 <= j < out.deep_view().len() implies out.deep_view()[j]
                        == before.push(pv[i as int])[j] by {
                        if j < before.len() {
                            assert(out@[j] == out@.subrange(0, out@.len() - 1)[j]);
                        } else {
                            assert(out@[j]@ == permissions@[i as int]@);
                        }
                    }
                }
            }
        }
        i = i + 1;
    }
    proof {
        assert(pv.take(pv.len() as int) =~= pv);
    }
    out
}

/// Whether the list holds the exact string.
fn contains_string(v: &Vec<String>, s: &String) -> (r: bool)
    ensures
        r == spec_has_permission(v.deep_view(), s@),
{
    let ghost dv = v.deep_view();
    proof {
        assert(dv.len() == v@.len());
        assert(forall|j: int| 0 <= j < dv.len() ==> dv[j] == #[trigger] v@[j]@);
    }
    let mut i: usize = 0;
    while i < v.len()
        invariant
            i <= v.len(),
            dv == v.deep_view(),
            dv.len() == v@.len(),
            forall|j: int| 0 <= j < dv.len() ==> dv[j] == #[trigger] v@[j]@,
            forall|j: int| 0 <= j < i ==> dv[j] != s@,
        decreases v.len() - i,
    {
        if v[i].eq(s) {
            assert(dv[i as int] == s@);
            return true;
        }
        i = i + 1;
    }
    false
}

/// Build the record that is stored for a new user: a fresh 36-character
/// identifier, the given profile fields, and only the registered
/// permissions.
pub fn create_user(new_user: User, registry: &Vec<String>) -> (r: User)
    ensures
        (r.id matches Some(s) && s@.len() == 36),
        r.first_name == new_user.first_name,
        r.last_name == new_user.last_name,
        r.email == new_user.email,
        r.password == new_user.password,
        r.permissions.deep_view() == new_user.permissions.deep_view().filter(
            |p: Seq<char>| spec_has_permission(registry.deep_view(), p),
        ),
{
    let id = crate::trusted::new_uuid_string();
    User {
        id: Some(id),
        first_name: new_user.first_name,
        last_name: new_user.last_name,
        email: new_user.email,
        password: new_user.password,
        permissions: validate_permissions(new_user.permissions, registry),
    }
}

/// The login flow after the credential lookup: no matching user is refused
/// as unauthorized; a matched user without a stored id is an internal
/// error; otherwise a pair is issued and keeps every promise of issuance.
pub fn login(user: Option<User>, now: u64, cfg: &AuthConfig) -> (r: Result<
    TokenResponse,
    LoginError,
>)
    requires
        now + cfg.access_ttl <= MAX_TS,
        now + cfg.refresh_ttl <= MAX_TS,
    ensures
        (match user {
            None => r matches Err(e) && e is Unauthorized,
            Some(u) => match u.id {
                None => r matches Err(e) && e is InternalError,
                Some(id) => r matches Ok(t) && issued_tokens_ok(
                    id@,
                    u.permissions.deep_view(),
                    now,
                    cfg.secret@,
                    cfg.access_ttl,
                    cfg.refresh_ttl,
                    t,
                ),
            },
        }),
{
    match user {
        None => Err(LoginError::Unauthorized),
        Some(u) => match u.id {
            None => Err(LoginError::InternalError),
            Some(id) => match create_jwt(id, u.permissions, now, cfg) {
                Ok(t) => Ok(t),
                Err(_) => {
                    proof {
                        assert(false);
                    }
                    Err(LoginError::InternalError)
                },
            },
        },
    }
}

/// The identity endpoint after the guard and the user lookup: a guard
/// rejection passes through; a missing user is unauthorized; otherwise the
/// stored profile is reported verbatim.
pub fn who_am_i(key: Result<JWT, NetworkResponse>, user: Option<User>) -> (r: Result<
    WhoAmIResponse,
    NetworkResponse,
>)
    ensures
        (match key {
            Err(e) => r matches Err(e2) && e2 == e,
            Ok(_) => match user {
                None => r matches Err(e) && e matches NetworkResponse::Unauthorized(m) && m@
                    == "User is unauthorized."@,
                Some(u) => r matches Ok(w) && w.first_name == u.first_name && w.last_name
                    == u.last_name && w.email == u.email && w.permissions == u.permissions,
            },
        }),
{
    match key {
        Err(e) => Err(e),
        Ok(_) => match user {
            None => Err(
                NetworkResponse::Unauthorized(String::from_str("User is unauthorized.")),
            ),
            Some(u) => Ok(
                WhoAmIResponse {
                    first_name: u.first_name,
                    last_name: u.last_name,
                    email: u.email,
                    permissions: u.permissions,
                },
            ),
        },
    }
}

} // verus!
