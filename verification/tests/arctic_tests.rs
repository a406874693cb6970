use austral_cranelift_bridge::arctic::{group_pk_from_bytes, ArcticAuthEngine, ArcticAuthError, AuthzResult, DelegationCertificate};
use curve25519_dalek::constants::RISTRETTO_BASEPOINT_POINT;
use std::time::{SystemTime, UNIX_EPOCH};

fn far_future() -> u64 {
    SystemTime::now().duration_since(UNIX_EPOCH).unwrap().as_secs() + 3600
}

fn cert(expires_at: u64, caps: &[&str]) -> DelegationCertificate {
    DelegationCertificate {
        issuer_did: "did:web:authority.example".to_string(),
        delegatee_pk: "z6MkHotKey".to_string(),
        expires_at,
        capabilities: caps.iter().map(|c| c.to_string()).collect(),
    }
}

fn engine_with(c: DelegationCertificate) -> ArcticAuthEngine {
    let mut engine = ArcticAuthEngine::new(RISTRETTO_BASEPOINT_POINT);
    engine.register_certificate(c, true).expect("valid signature registers");
    engine
}

#[test]
fn valid_certificate_authorizes_granted_capability() {
    let engine = engine_with(cert(far_future(), &["uk_observe"]));
    assert_eq!(engine.check("z6MkHotKey", "Call", "uk_observe"), AuthzResult::Allow);
}

#[test]
fn ungranted_capability_is_denied() {
    let engine = engine_with(cert(far_future(), &["uk_observe"]));
    assert_eq!(engine.check("z6MkHotKey", "Call", "uk_set_hamiltonian"), AuthzResult::Deny);
}

#[test]
fn wildcard_capability_authorizes_anything() {
    let engine = engine_with(cert(far_future(), &["*"]));
    assert_eq!(engine.check("z6MkHotKey", "Call", "uk_bayesian_update"), AuthzResult::Allow);
}

#[test]
fn expired_certificate_is_denied() {
    let engine = engine_with(cert(1, &["*"]));
    assert_eq!(engine.check("z6MkHotKey", "Call", "uk_bayesian_update"), AuthzResult::Deny);
}

#[test]
fn tampered_certificate_fails_signature_verification() {
    let mut tampered = cert(far_future(), &["uk_observe"]);
    tampered.capabilities = vec!["*".to_string()];
    let mut engine = ArcticAuthEngine::new(RISTRETTO_BASEPOINT_POINT);
    let result = engine.register_certificate(tampered, false);
    assert!(matches!(result, Err(ArcticAuthError::BadSignature)));
    assert_eq!(engine.check("z6MkHotKey", "Call", "uk_observe"), AuthzResult::Deny);
}

#[test]
fn unregistered_principal_is_denied() {
    let engine = engine_with(cert(far_future(), &["*"]));
    assert_eq!(engine.check("someone_else", "Call", "uk_observe"), AuthzResult::Deny);
}

#[test]
fn non_call_action_is_denied() {
    let engine = engine_with(cert(far_future(), &["*"]));
    assert_eq!(engine.check("z6MkHotKey", "Write", "uk_observe"), AuthzResult::Deny);
}

#[test]
fn revoke_removes_authorization() {
    let mut engine = engine_with(cert(far_future(), &["*"]));
    assert_eq!(engine.check("z6MkHotKey", "Call", "uk_observe"), AuthzResult::Allow);
    engine.revoke("z6MkHotKey");
    assert_eq!(engine.check("z6MkHotKey", "Call", "uk_observe"), AuthzResult::Deny);
}

#[test]
fn group_pk_from_bytes_round_trips_a_valid_point() {
    let bytes = RISTRETTO_BASEPOINT_POINT.compress().to_bytes();
    let recovered = group_pk_from_bytes(&bytes).expect("valid compressed Ristretto point");
    assert_eq!(recovered.compress().to_bytes(), bytes);
}

#[test]
fn group_pk_from_bytes_refuses_a_non_point() {
    let bytes = [0xffu8; 32];
    assert!(matches!(group_pk_from_bytes(&bytes), Err(ArcticAuthError::BadGroupKey)));
    assert_eq!(
        ArcticAuthError::BadGroupKey.message(),
        "group public key bytes are not a valid Ristretto point"
    );
}

#[test]
fn check_at_uses_the_given_time() {
    let engine = engine_with(cert(100, &["uk_observe"]));
    assert_eq!(engine.check_at("z6MkHotKey", "Call", "uk_observe", 99), AuthzResult::Allow);
    assert_eq!(engine.check_at("z6MkHotKey", "Call", "uk_observe", 100), AuthzResult::Deny);
}

#[test]
fn re_registration_replaces_the_certificate() {
    let mut engine = engine_with(cert(far_future(), &["uk_observe"]));
    engine.register_certificate(cert(far_future(), &["uk_evolve"]), true).unwrap();
    assert_eq!(engine.check("z6MkHotKey", "Call", "uk_observe"), AuthzResult::Deny);
    assert_eq!(engine.check("z6MkHotKey", "Call", "uk_evolve"), AuthzResult::Allow);
}
