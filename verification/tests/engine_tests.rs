use austral_cranelift_bridge::arctic::{ArcticAuthEngine, ArcticVmEngine, DelegationCertificate};
use austral_cranelift_bridge::auth::{check_at, deployment_principal, AuthRegistry, AuthorizationEngine, Decision, ManifestAuthEngine};
use austral_cranelift_bridge::engines::{load_auth_manifest, HostEngine};
use austral_cranelift_bridge::policy::CedarVmEngine;
use curve25519_dalek::constants::RISTRETTO_BASEPOINT_POINT;

fn arctic_engine(expires_at: u64) -> ArcticVmEngine {
    let mut engine = ArcticAuthEngine::new(RISTRETTO_BASEPOINT_POINT);
    let cert = DelegationCertificate {
        issuer_did: "did:web:authority.example".to_string(),
        delegatee_pk: "z6MkHotKey".to_string(),
        expires_at,
        capabilities: vec!["uk_observe".to_string()],
    };
    engine.register_certificate(cert, true).unwrap();
    ArcticVmEngine::new(engine)
}

#[test]
fn arctic_engine_decides_by_the_given_time() {
    let engine = arctic_engine(1_000);
    assert_eq!(engine.authorize_at("z6MkHotKey", "Call", "uk_observe", 999), Ok(Decision::Allow));
    assert_eq!(engine.authorize_at("z6MkHotKey", "Call", "uk_observe", 1_000), Ok(Decision::Deny));
    assert_eq!(engine.authorize_at("z6MkHotKey", "Call", "uk_evolve", 10), Ok(Decision::Deny));
}

#[test]
fn arctic_engine_through_the_registry_at_a_time() {
    let mut reg: AuthRegistry<HostEngine> = AuthRegistry::new();
    austral_cranelift_bridge::auth::set_auth_engine(&mut reg, HostEngine::Arctic(arctic_engine(1_000)));
    assert!(check_at(&mut reg, "z6MkHotKey", "Call", "uk_observe", 500).is_ok());
    assert_eq!(
        check_at(&mut reg, "z6MkHotKey", "Call", "uk_observe", 2_000).unwrap_err(),
        "UK-4001: Authorization denied \u{2014} 'z6MkHotKey' is not granted 'uk_observe'"
    );
}

#[test]
fn cedar_engine_decides_and_passes_errors_on() {
    let mut cedar = CedarVmEngine::new();
    cedar
        .load_policy(r#"permit(principal == Module::"a", action == Action::"Call", resource == Module::"b");"#)
        .unwrap();
    assert_eq!(cedar.authorize_at("a", "Call", "b", 0), Ok(Decision::Allow));
    assert_eq!(cedar.authorize_at("c", "Call", "b", 0), Ok(Decision::Deny));
    let mut reg: AuthRegistry<HostEngine> = AuthRegistry::new();
    austral_cranelift_bridge::auth::set_auth_engine(&mut reg, HostEngine::Cedar(cedar));
    let direct = CedarVmEngine::new().authorize_at("a\"", "Call", "b", 0).unwrap_err();
    assert_eq!(check_at(&mut reg, "a\"", "Call", "b", 0).unwrap_err(), direct);
}

const FIRST: &str = "[module]\nname = \"first\"\n\n[grants]\nkernel = [\"uk_version\"]\n";
const SECOND: &str = "[module]\nname = \"second\"\n\n[grants]\nkernel = [\"uk_evolve\"]\neffects = [\"Console\"]\n";

#[test]
fn manifests_accumulate_and_name_the_deployment() {
    let mut reg: AuthRegistry<HostEngine> = AuthRegistry::new();
    let mut merged = ManifestAuthEngine::new();
    assert!(load_auth_manifest(&mut reg, &mut merged, FIRST));
    assert_eq!(deployment_principal(&reg), Some("first".to_string()));
    assert!(load_auth_manifest(&mut reg, &mut merged, SECOND));
    assert_eq!(deployment_principal(&reg), Some("second".to_string()));
    assert!(check_at(&mut reg, "first", "Call", "uk_version", 0).is_ok());
    assert!(check_at(&mut reg, "second", "Call", "uk_evolve", 0).is_ok());
    assert!(check_at(&mut reg, "second", "Effect", "Console", 0).is_ok());
    assert!(check_at(&mut reg, "first", "Call", "uk_evolve", 0).is_err());
    assert!(merged.is_granted("first", "uk_version"));
    assert!(merged.is_effect_granted("second", "Console"));
}

#[test]
fn a_text_that_is_not_a_manifest_changes_nothing() {
    let mut reg: AuthRegistry<HostEngine> = AuthRegistry::new();
    let mut merged = ManifestAuthEngine::new();
    assert!(load_auth_manifest(&mut reg, &mut merged, FIRST));
    assert!(!load_auth_manifest(&mut reg, &mut merged, "this is = = not toml"));
    assert!(!load_auth_manifest(&mut reg, &mut merged, "[grants]\nkernel = [\"uk_evolve\"]\n"));
    assert_eq!(deployment_principal(&reg), Some("first".to_string()));
    assert!(!merged.is_granted("first", "uk_evolve"));
    assert!(check_at(&mut reg, "first", "Call", "uk_version", 0).is_ok());
}

#[test]
fn certificates_registered_through_the_wrapper_decide() {
    let mut engine = ArcticVmEngine::new(ArcticAuthEngine::new(RISTRETTO_BASEPOINT_POINT));
    assert_eq!(engine.authorize_at("z6MkHotKey", "Call", "uk_observe", 5), Ok(Decision::Deny));
    let cert = DelegationCertificate {
        issuer_did: "did:web:authority.example".to_string(),
        delegatee_pk: "z6MkHotKey".to_string(),
        expires_at: 10,
        capabilities: vec!["uk_observe".to_string()],
    };
    engine.inner_mut().register_certificate(cert, true).unwrap();
    assert_eq!(engine.authorize_at("z6MkHotKey", "Call", "uk_observe", 5), Ok(Decision::Allow));
}
