use austral_cranelift_bridge::auth::{
    check, deployment_principal, manifest_principal, set_allow_all, set_auth_engine, set_deny_all, set_deployment_principal, AllowAll,
    AuthRegistry, AuthorizationEngine, Decision, DenyAll, ManifestAuthEngine,
};

const VALID_MANIFEST: &str = r#"
[module]
name = "demo_module"
version = "0.1.0"

[grants]
kernel = ["uk_version", "uk_model_create", "uk_evolve"]
"#;

#[test]
fn manifest_grant_deny() {
    let engine = ManifestAuthEngine::from_toml_str(VALID_MANIFEST).unwrap();
    assert_eq!(engine.authorize("demo_module", "Call", "uk_version").unwrap(), Decision::Allow);
    assert_eq!(engine.authorize("demo_module", "Call", "uk_evolve").unwrap(), Decision::Allow);
    assert_eq!(engine.authorize("demo_module", "Call", "uk_model_free").unwrap(), Decision::Deny);
    assert_eq!(engine.authorize("evil_module", "Call", "uk_version").unwrap(), Decision::Deny);
    assert_eq!(engine.authorize("demo_module", "Write", "uk_version").unwrap(), Decision::Deny);
}

#[test]
fn manifest_merge() {
    let mut engine = ManifestAuthEngine::from_toml_str(VALID_MANIFEST).unwrap();
    let other = ManifestAuthEngine::from_toml_str(
        r#"
[module]
name = "other_module"

[grants]
kernel = ["uk_version"]
"#,
    )
    .unwrap();
    engine.merge(other);
    assert_eq!(engine.authorize("demo_module", "Call", "uk_version").unwrap(), Decision::Allow);
    assert_eq!(engine.authorize("other_module", "Call", "uk_version").unwrap(), Decision::Allow);
}

#[test]
fn manifest_missing_grants() {
    let engine = ManifestAuthEngine::from_toml_str(
        r#"
[module]
name = "no_grants_module"
"#,
    )
    .unwrap();
    assert_eq!(engine.authorize("no_grants_module", "Call", "uk_version").unwrap(), Decision::Deny);
}

#[test]
fn allow_all_permits_everything() {
    let engine = AllowAll;
    assert_eq!(engine.authorize("anyone", "Call", "anything").unwrap(), Decision::Allow);
}

#[test]
fn manifest_bad_toml() {
    assert!(ManifestAuthEngine::from_toml_str("not valid toml = = }").is_err());
}

#[test]
fn manifest_missing_module_section() {
    assert!(ManifestAuthEngine::from_toml_str(
        r#"
[grants]
kernel = ["uk_version"]
"#,
    )
    .is_err());
}

#[test]
fn manifest_grant_method() {
    let mut engine = ManifestAuthEngine::new();
    engine.grant("my_module", "uk_version");
    assert!(engine.is_granted("my_module", "uk_version"));
    assert!(!engine.is_granted("my_module", "uk_evolve"));
    assert!(!engine.is_granted("other", "uk_version"));
}

#[test]
fn manifest_effect_grant_namespace() {
    let engine = ManifestAuthEngine::from_toml_str(
        r#"
[module]
name = "client_module"

[grants]
effects = ["send_notification", "run_experiment"]
"#,
    )
    .unwrap();
    assert_eq!(engine.authorize("client_module", "Effect", "send_notification").unwrap(), Decision::Allow);
    assert_eq!(engine.authorize("client_module", "Effect", "run_experiment").unwrap(), Decision::Allow);
    assert_eq!(engine.authorize("client_module", "Effect", "unlisted_effect").unwrap(), Decision::Deny);
    assert_eq!(engine.authorize("client_module", "Call", "send_notification").unwrap(), Decision::Deny);
    assert_eq!(engine.authorize("client_module", "Effect", "uk_version").unwrap(), Decision::Deny);
    let denied = ManifestAuthEngine::from_toml_str(
        r#"
[module]
name = "other_module"
"#,
    )
    .unwrap();
    assert_eq!(denied.authorize("other_module", "Effect", "send_notification").unwrap(), Decision::Deny);
}

#[test]
fn manifest_effect_merge() {
    let mut engine = ManifestAuthEngine::from_toml_str(
        r#"
[module]
name = "a"

[grants]
effects = ["x"]
"#,
    )
    .unwrap();
    engine.merge(
        ManifestAuthEngine::from_toml_str(
            r#"
[module]
name = "b"

[grants]
effects = ["y"]
"#,
        )
        .unwrap(),
    );
    assert!(engine.is_effect_granted("a", "x"));
    assert!(engine.is_effect_granted("b", "y"));
    assert!(!engine.is_effect_granted("a", "y"));
}

#[test]
fn manifest_effect_grant_method() {
    let mut engine = ManifestAuthEngine::new();
    engine.grant_effect("my_module", "send_notification");
    assert!(engine.is_effect_granted("my_module", "send_notification"));
    assert!(!engine.is_effect_granted("my_module", "run_experiment"));
    assert!(!engine.is_effect_granted("other", "send_notification"));
}

#[test]
fn effect_gating_rejects_ungranted_effect() {
    let engine = ManifestAuthEngine::from_toml_str("[module]\nname = \"gated\"\n\n[grants]\nkernel = [\"uk_version\"]\n").unwrap();
    let mut registry = AuthRegistry::new();
    set_auth_engine(&mut registry, engine);
    let result = check(&mut registry, "gated", "Call", "effect:Kernel");
    assert!(result.is_err());
    assert!(result.unwrap_err().contains("UK-4001"));
}

#[test]
fn effect_gating_allows_granted_effect() {
    let mut engine = ManifestAuthEngine::new();
    engine.grant("gated_ok", "effect:Kernel");
    let mut registry = AuthRegistry::new();
    set_auth_engine(&mut registry, engine);
    let result = check(&mut registry, "gated_ok", "Call", "effect:Kernel");
    assert!(result.is_ok());
}

#[test]
fn registry_without_engine_denies_with_named_message() {
    let mut registry: AuthRegistry<ManifestAuthEngine> = AuthRegistry::new();
    let result = check(&mut registry, "mod_a", "Call", "uk_version");
    assert_eq!(result.unwrap_err(), "UK-4001: Authorization denied \u{2014} 'mod_a' is not granted 'uk_version'");
    set_allow_all(&mut registry);
    assert!(check(&mut registry, "mod_a", "Call", "uk_version").is_ok());
    set_deny_all(&mut registry);
    assert!(check(&mut registry, "mod_a", "Call", "uk_version").is_err());
}

#[test]
fn deployment_principal_is_recorded() {
    let mut registry: AuthRegistry<ManifestAuthEngine> = AuthRegistry::new();
    assert_eq!(deployment_principal(&registry), None);
    set_deployment_principal(&mut registry, "deploy".to_string());
    assert_eq!(deployment_principal(&registry), Some("deploy".to_string()));
}

#[test]
fn zenodo_grants_are_kernel_grants() {
    let engine = ManifestAuthEngine::from_toml_str(
        "[module]\nname = \"store\"\n\n[grants]\nzenodo = [\"uz_init\"]\neffects = [\"e\"]\n",
    )
    .unwrap();
    assert!(engine.is_granted("store", "uz_init"));
    assert!(engine.is_effect_granted("store", "e"));
    assert!(!engine.is_granted("store", "e"));
}

#[test]
fn manifest_with_wrong_list_type_is_refused() {
    let err = ManifestAuthEngine::from_toml_str("[module]\nname = \"m\"\n\n[grants]\nkernel = [1]\n").unwrap_err();
    assert_eq!(err, "TOML parse error: invalid type for `kernel`");
    let err = ManifestAuthEngine::from_toml_str("[module]\nversion = \"1\"\n").unwrap_err();
    assert_eq!(err, "TOML parse error: missing field `name`");
}

#[test]
fn deny_all_denies_everything() {
    assert_eq!(DenyAll.authorize("anyone", "Call", "anything").unwrap(), Decision::Deny);
}

#[test]
fn manifest_principal_is_the_module_name() {
    assert_eq!(manifest_principal(VALID_MANIFEST), "demo_module");
    assert_eq!(manifest_principal("[module]\nversion = \"1\"\n"), "");
    assert_eq!(manifest_principal("module = 3\n"), "");
    assert_eq!(manifest_principal("not toml ["), "");
}
