use jwt_auth::claims::{Claims, JWT};
use jwt_auth::claims::check_permission;
use jwt_auth::codec::{AuthConfig, create_jwt, decode_jwt, VerificationError};
use jwt_auth::guard::{authenticate, require_permission, RejectionKind};
use jwt_auth::responses::NetworkResponse;
use jwt_auth::users::{create_user, login, validate_permissions, who_am_i, LoginError, User};

fn test_config() -> AuthConfig {
    AuthConfig {
        secret: "a-signing-secret".to_string(),
        access_ttl: 3600,
        refresh_ttl: 86400,
    }
}

fn seeded_user() -> User {
    User {
        id: Some("11111111-2222-3333-4444-555555555555".to_string()),
        first_name: "Ada".to_string(),
        last_name: "Lovelace".to_string(),
        email: "ada@example.com".to_string(),
        password: "pw".to_string(),
        permissions: vec!["users.create".to_string()],
    }
}

#[test]
fn round_trip_access_token() {
    let cfg = test_config();
    let now: u64 = 1_700_000_000;
    let perms = vec!["users.create".to_string(), "users.read".to_string()];
    let t = create_jwt("subject-1".to_string(), perms.clone(), now, &cfg).unwrap();
    assert_eq!(t.expiration, (now + cfg.access_ttl) as i64);
    let claims = decode_jwt(&t.access_token, now, &cfg.secret).unwrap();
    assert_eq!(claims.subject_id, "subject-1");
    assert_eq!(claims.permissions, perms);
    assert_eq!(claims.expires_at, now + cfg.access_ttl);
}

#[test]
fn refresh_token_carries_sentinel_only() {
    let cfg = test_config();
    let now: u64 = 1_700_000_000;
    let t = create_jwt("s".to_string(), vec!["users.create".to_string()], now, &cfg).unwrap();
    let claims = decode_jwt(&t.refresh_token, now, &cfg.secret).unwrap();
    assert_eq!(claims.permissions, vec!["N/A".to_string()]);
    assert_eq!(claims.expires_at, now + cfg.refresh_ttl);
}

#[test]
fn round_trip_with_special_characters() {
    let cfg = test_config();
    let now: u64 = 10;
    let perms = vec![
        "with \"quotes\"".to_string(),
        "back\\slash".to_string(),
        "tab\tand\nnewline".to_string(),
        "unicode: \u{00e9}\u{6f22}\u{1f600}".to_string(),
        String::new(),
    ];
    let t = create_jwt("sub \"x\"\\\u{0001}".to_string(), perms.clone(), now, &cfg).unwrap();
    let claims = decode_jwt(&t.access_token, now, &cfg.secret).unwrap();
    assert_eq!(claims.subject_id, "sub \"x\"\\\u{0001}");
    assert_eq!(claims.permissions, perms);
}

#[test]
fn empty_permission_list_round_trips() {
    let cfg = test_config();
    let t = create_jwt("s".to_string(), Vec::new(), 5, &cfg).unwrap();
    let claims = decode_jwt(&t.access_token, 5, &cfg.secret).unwrap();
    assert!(claims.permissions.is_empty());
}

#[test]
fn expired_token_is_rejected() {
    let cfg = test_config();
    let now: u64 = 1_700_000_000;
    let t = create_jwt("s".to_string(), vec!["p".to_string()], now, &cfg).unwrap();
    let exp = now + cfg.access_ttl;
    let r = decode_jwt(&t.access_token, exp + 1, &cfg.secret);
    assert_eq!(r.unwrap_err(), VerificationError::Expired);
    // far past expiry as well
    let r2 = decode_jwt(&t.access_token, u64::MAX, &cfg.secret);
    assert_eq!(r2.unwrap_err(), VerificationError::Expired);
}

#[test]
fn token_at_exact_expiry_is_still_accepted() {
    // expiry check is strict: rejected only when expires_at < now
    let cfg = test_config();
    let now: u64 = 1_700_000_000;
    let t = create_jwt("s".to_string(), vec![], now, &cfg).unwrap();
    let exp = now + cfg.access_ttl;
    assert!(decode_jwt(&t.access_token, exp, &cfg.secret).is_ok());
}

#[test]
fn wrong_secret_is_invalid_never_success() {
    let cfg = test_config();
    let now: u64 = 42;
    let t = create_jwt("s".to_string(), vec!["p".to_string()], now, &cfg).unwrap();
    let other = "a-different-secret".to_string();
    let r = decode_jwt(&t.access_token, now, &other);
    assert_eq!(r.unwrap_err(), VerificationError::Invalid);
}

#[test]
fn tampered_payload_is_rejected() {
    let cfg = test_config();
    let now: u64 = 42;
    let t = create_jwt("s".to_string(), vec!["p".to_string()], now, &cfg).unwrap();
    // flip a character inside the payload segment
    let mut chars: Vec<char> = t.access_token.chars().collect();
    let first_dot = t.access_token.find('.').unwrap();
    let pos = first_dot + 2;
    chars[pos] = if chars[pos] == 'A' { 'B' } else { 'A' };
    let tampered: String = chars.into_iter().collect();
    assert!(decode_jwt(&tampered, now, &cfg.secret).is_err());
}

#[test]
fn malformed_tokens_are_rejected() {
    let cfg = test_config();
    assert_eq!(
        decode_jwt(&"no dots here".to_string(), 0, &cfg.secret).unwrap_err(),
        VerificationError::Malformed
    );
    assert_eq!(
        decode_jwt(&"one.dot".to_string(), 0, &cfg.secret).unwrap_err(),
        VerificationError::Malformed
    );
    assert_eq!(
        decode_jwt(&"a.b.c.d".to_string(), 0, &cfg.secret).unwrap_err(),
        VerificationError::Malformed
    );
    assert_eq!(
        decode_jwt(&String::new(), 0, &cfg.secret).unwrap_err(),
        VerificationError::Malformed
    );
}

#[test]
fn bearer_prefix_and_whitespace_are_stripped() {
    let cfg = test_config();
    let now: u64 = 7;
    let t = create_jwt("s".to_string(), vec![], now, &cfg).unwrap();
    let with_prefix = format!("Bearer {}", t.access_token);
    assert!(decode_jwt(&with_prefix, now, &cfg.secret).is_ok());
    let padded = format!("Bearer  \t{}  \n", t.access_token);
    assert!(decode_jwt(&padded, now, &cfg.secret).is_ok());
    let bare_padded = format!("  {}  ", t.access_token);
    assert!(decode_jwt(&bare_padded, now, &cfg.secret).is_ok());
}

#[test]
fn absent_header_is_always_no_token() {
    let secret = "s3cr3t".to_string();
    let r = authenticate(None, 0, &secret);
    let rej = r.err().unwrap();
    assert!(matches!(rej.kind, RejectionKind::NoToken));
    assert_eq!(rej.message, "Error validating JWT token - No token provided");
    let r2 = authenticate(None, u64::MAX, &"other".to_string());
    assert!(matches!(r2.err().unwrap().kind, RejectionKind::NoToken));
}

#[test]
fn guard_accepts_valid_header_and_reports_kinds() {
    let cfg = test_config();
    let now: u64 = 1_000;
    let t = create_jwt("subject-9".to_string(), vec!["a".to_string()], now, &cfg).unwrap();
    let header = format!("Bearer {}", t.access_token);
    let jwt = authenticate(Some(&header), now, &cfg.secret).unwrap();
    assert_eq!(jwt.claims.subject_id, "subject-9");

    let late = authenticate(Some(&header), now + cfg.access_ttl + 1, &cfg.secret);
    let rej = late.err().unwrap();
    assert!(matches!(rej.kind, RejectionKind::Expired));
    assert_eq!(rej.message, "Error validating JWT token - Expired Token");

    let bad = authenticate(Some(&"junk".to_string()), now, &cfg.secret);
    let rej2 = bad.err().unwrap();
    assert!(matches!(rej2.kind, RejectionKind::Invalid));
    assert_eq!(rej2.message, "Error validating JWT token - Invalid Token");

    let wrong = authenticate(Some(&header), now, &"other-secret".to_string());
    assert!(matches!(wrong.err().unwrap().kind, RejectionKind::Invalid));
}

#[test]
fn has_permission_is_exact_and_case_sensitive() {
    let token = JWT {
        claims: Claims {
            subject_id: "s".to_string(),
            permissions: vec!["users.create".to_string()],
            expires_at: 10,
        },
    };
    assert!(check_permission(token, "users.create".to_string()));
    let token2 = JWT {
        claims: Claims {
            subject_id: "s".to_string(),
            permissions: vec!["users.create".to_string()],
            expires_at: 10,
        },
    };
    assert!(!check_permission(token2, "users.Create".to_string()));
    let token3 = JWT {
        claims: Claims {
            subject_id: "s".to_string(),
            permissions: vec!["users.create".to_string()],
            expires_at: 10,
        },
    };
    assert!(!check_permission(token3, "users".to_string()));
    let token4 = JWT {
        claims: Claims {
            subject_id: "s".to_string(),
            permissions: Vec::new(),
            expires_at: 10,
        },
    };
    assert!(!check_permission(token4, "users.create".to_string()));
}

#[test]
fn end_to_end_login_issues_expected_tokens() {
    let cfg = test_config();
    let now: u64 = 1_700_000_000;
    let pair = login(Some(seeded_user()), now, &cfg).unwrap();
    let access = decode_jwt(&pair.access_token, now, &cfg.secret).unwrap();
    assert_eq!(access.subject_id, "11111111-2222-3333-4444-555555555555");
    assert_eq!(access.permissions, vec!["users.create".to_string()]);
    let refresh = decode_jwt(&pair.refresh_token, now, &cfg.secret).unwrap();
    assert_eq!(refresh.permissions, vec!["N/A".to_string()]);
}

#[test]
fn login_failures_map_to_errors() {
    let cfg = test_config();
    assert_eq!(login(None, 0, &cfg).unwrap_err(), LoginError::Unauthorized);
    let mut u = seeded_user();
    u.id = None;
    assert_eq!(login(Some(u), 0, &cfg).unwrap_err(), LoginError::InternalError);
}

#[test]
fn permission_gate_gives_unauthorized_not_invalid() {
    let cfg = test_config();
    let now: u64 = 500;
    let pair = login(Some(seeded_user()), now, &cfg).unwrap();
    let header = format!("Bearer {}", pair.access_token);
    // the guard accepts the token
    let jwt = authenticate(Some(&header), now, &cfg.secret).unwrap();
    // but the gated operation wants a permission the user lacks
    let r = require_permission(Ok(jwt), "users.delete".to_string());
    match r {
        Err(NetworkResponse::Unauthorized(m)) => {
            assert_eq!(m, "You are unauthorized to access this resource.");
        }
        other => panic!("expected an authorization failure, got {:?}", other),
    }
    // with the right permission it passes
    let jwt2 = authenticate(Some(&header), now, &cfg.secret).unwrap();
    assert!(require_permission(Ok(jwt2), "users.create".to_string()).is_ok());
    // a guard rejection passes through unchanged
    let passed = require_permission(
        Err(NetworkResponse::BadRequest("nope".to_string())),
        "users.create".to_string(),
    );
    assert_eq!(passed.unwrap_err(), NetworkResponse::BadRequest("nope".to_string()));
}

#[test]
fn validate_permissions_keeps_only_registered() {
    let registry = vec!["users.create".to_string(), "users.read".to_string()];
    let given = vec![
        "users.read".to_string(),
        "users.delete".to_string(),
        "users.create".to_string(),
        "users.Read".to_string(),
    ];
    let kept = validate_permissions(given, &registry);
    assert_eq!(kept, vec!["users.read".to_string(), "users.create".to_string()]);
    assert!(validate_permissions(vec!["x".to_string()], &Vec::new()).is_empty());
}

#[test]
fn create_user_assigns_id_and_filters() {
    let registry = vec!["users.create".to_string()];
    let stored = create_user(seeded_user(), &registry);
    let id = stored.id.unwrap();
    assert_eq!(id.len(), 36);
    assert_eq!(stored.first_name, "Ada");
    assert_eq!(stored.email, "ada@example.com");
    assert_eq!(stored.permissions, vec!["users.create".to_string()]);
    let none_registered = create_user(seeded_user(), &Vec::new());
    assert!(none_registered.permissions.is_empty());
}

#[test]
fn who_am_i_reports_profile_or_rejection() {
    let cfg = test_config();
    let now: u64 = 99;
    let pair = login(Some(seeded_user()), now, &cfg).unwrap();
    let jwt = authenticate(Some(&pair.access_token), now, &cfg.secret).unwrap();
    let w = who_am_i(Ok(jwt), Some(seeded_user())).unwrap();
    assert_eq!(w.first_name, "Ada");
    assert_eq!(w.last_name, "Lovelace");
    assert_eq!(w.email, "ada@example.com");
    assert_eq!(w.permissions, vec!["users.create".to_string()]);

    let jwt2 = authenticate(Some(&pair.access_token), now, &cfg.secret).unwrap();
    let missing = who_am_i(Ok(jwt2), None);
    assert_eq!(
        missing.unwrap_err(),
        NetworkResponse::Unauthorized("User is unauthorized.".to_string())
    );

    let rejected = who_am_i(Err(NetworkResponse::BadRequest("bad".to_string())), Some(seeded_user()));
    assert_eq!(rejected.unwrap_err(), NetworkResponse::BadRequest("bad".to_string()));
}

#[test]
fn issued_tokens_are_standard_jwts() {
    // the jsonwebtoken crate accepts what this library issues, under the
    // same secret and algorithm
    let cfg = test_config();
    let now = chrono::Utc::now().timestamp() as u64;
    let t = create_jwt(
        "interop-subject".to_string(),
        vec!["users.create".to_string()],
        now,
        &cfg,
    )
    .unwrap();
    let key = jsonwebtoken::DecodingKey::from_secret(cfg.secret.as_bytes());
    let validation = jsonwebtoken::Validation::new(jsonwebtoken::Algorithm::HS512);
    let data = jsonwebtoken::decode::<serde_json::Value>(&t.access_token, &key, &validation)
        .expect("jsonwebtoken should accept the token");
    assert_eq!(
        data.claims.get("subject_id").and_then(|v| v.as_str()),
        Some("interop-subject")
    );
    assert_eq!(
        data.claims.get("exp").and_then(|v| v.as_u64()),
        Some(now + cfg.access_ttl)
    );
    let perms: Vec<String> = data
        .claims
        .get("permissions")
        .and_then(|v| v.as_array())
        .unwrap()
        .iter()
        .map(|v| v.as_str().unwrap().to_string())
        .collect();
    assert_eq!(perms, vec!["users.create".to_string()]);

    // and it rejects the same token under another secret
    let bad_key = jsonwebtoken::DecodingKey::from_secret(b"another-secret");
    assert!(jsonwebtoken::decode::<serde_json::Value>(&t.access_token, &bad_key, &validation)
        .is_err());
}
