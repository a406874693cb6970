use austral_cranelift_bridge::module::{
    blueprint_entry_path, int_args_json, kernel_error_text, kernel_return, no_numeric_result, require_ecmascript_archetype,
    swap_check, CallTarget, GatekeeperMode, IrRuntime, ModuleHandle, ModuleHost, ModuleInstance, ModuleManifest,
};

fn handle(name: &str, functions: &[(&str, usize)]) -> ModuleHandle<String> {
    let mut m = ModuleManifest::from_toml_str(&format!("[module]\nname = \"{name}\"\n")).unwrap();
    m.entry = "run".to_string();
    ModuleHandle {
        manifest: m,
        runtime: IrRuntime::Jit {
            functions: functions.iter().map(|(n, p)| (n.to_string(), *p)).collect(),
            cps_data: vec![],
        },
        call_count: 0,
    }
}

fn ecma_handle(name: &str, sidecar: &str) -> ModuleHandle<String> {
    let mut m = ModuleManifest::from_toml_str(&format!("[module]\nname = \"{name}\"\narchetype = \"ecmascript\"\n")).unwrap();
    m.entry = "src/main.js".to_string();
    ModuleHandle { manifest: m, runtime: IrRuntime::Ecma(sidecar.to_string()), call_count: 0 }
}

#[test]
fn manifest_parses_correctly() {
    let toml = r#"
[module]
name = "test_mod"
version = "1.2.3"
archetypes = ["actor", "data_source"]
entry = "run"

[grants]
kernel = ["uk_version", "uk_evolve"]
"#;
    let m = ModuleManifest::from_toml_str(toml).unwrap();
    assert_eq!(m.name, "test_mod");
    assert_eq!(m.version, "1.2.3");
    assert_eq!(m.archetypes, vec!["actor", "data_source"]);
    assert_eq!(m.entry, "run");
    assert_eq!(m.grants, vec!["uk_version", "uk_evolve"]);
}

#[test]
fn manifest_defaults() {
    let toml = "[module]\nname = \"minimal\"\n";
    let m = ModuleManifest::from_toml_str(toml).unwrap();
    assert_eq!(m.name, "minimal");
    assert_eq!(m.version, "0.0.0");
    assert!(m.archetypes.is_empty());
    assert_eq!(m.entry, "run");
    assert!(m.grants.is_empty());
}

#[test]
fn call_nonexistent_module_fails() {
    let host: ModuleHost<String> = ModuleHost::new();
    let err = host.resolve_call("ghost", "run").unwrap_err();
    assert!(err.contains("not loaded"));
}

#[test]
fn parses_limits_table() {
    let toml = r#"
[module]
name = "m"
[grants]
kernel = ["uk_audit"]
[limits]
max_ms = 2500
memory_bytes = 134217728
"#;
    let m = ModuleManifest::from_toml_str(toml).expect("parse");
    assert_eq!(m.max_ms, Some(2500));
    assert_eq!(m.memory_max_bytes, Some(134217728));
}

#[test]
fn limits_default_absent() {
    let toml = r#"
[module]
name = "m"
[grants]
kernel = ["uk_audit"]
"#;
    let m = ModuleManifest::from_toml_str(toml).expect("parse");
    assert_eq!(m.max_ms, None);
    assert_eq!(m.memory_max_bytes, None);
}

#[test]
fn manifest_parses_rust_capstd_archetype() {
    let toml = r#"
[module]
name = "rust_kv"
version = "0.1.0"
archetype = "rust_capstd"
entry = "run"

[grants]
kernel = ["uk_version"]
fs = ["data/", "config/"]
net = ["api.example.com:443"]

[limits]
max_ms = 5000
"#;
    let m = ModuleManifest::from_toml_str(toml).unwrap();
    assert_eq!(m.name, "rust_kv");
    assert_eq!(m.archetype, "rust_capstd");
    assert_eq!(m.fs_grants, vec!["data/", "config/"]);
    assert_eq!(m.net_grants, vec!["api.example.com:443"]);
    assert_eq!(m.max_ms, Some(5000));
}

#[test]
fn manifest_defaults_fs_net_grants_empty() {
    let toml = "[module]\nname = \"plain\"\n";
    let m = ModuleManifest::from_toml_str(toml).unwrap();
    assert!(m.fs_grants.is_empty());
    assert!(m.net_grants.is_empty());
}

#[test]
fn manifest_parses_haskell_effect_archetype() {
    let toml = r#"
[module]
name = "hello_kernel"
version = "0.1.0"
archetype = "haskell_effect"
entry = "main"

[grants]
kernel = ["uk_version", "uk_evolve"]
effects = ["Kernel", "Console"]

[limits]
max_ms = 5000
"#;
    let m = ModuleManifest::from_toml_str(toml).unwrap();
    assert_eq!(m.name, "hello_kernel");
    assert_eq!(m.archetype, "haskell_effect");
    assert_eq!(m.entry, "main");
    assert_eq!(m.grants, vec!["uk_version", "uk_evolve"]);
    assert_eq!(m.effects, vec!["Kernel", "Console"]);
    assert_eq!(m.max_ms, Some(5000));
}

#[test]
fn manifest_defaults_archetype_to_austral_cps() {
    let toml = "[module]\nname = \"plain\"\n";
    let m = ModuleManifest::from_toml_str(toml).unwrap();
    assert_eq!(m.archetype, "austral_cps");
    assert!(m.effects.is_empty());
    assert_eq!(m.max_ms, None);
}

#[test]
fn manifest_parses_limits() {
    let toml = "[module]\nname = \"limited\"\n\n[limits]\nmax_ms = 3000\n";
    let m = ModuleManifest::from_toml_str(toml).unwrap();
    assert_eq!(m.max_ms, Some(3000));
}

#[test]
fn manifest_parses_gatekeeper_mode() {
    let module_toml = r#"
[module]
name = "gated"
version = "1.0.0"
entry = "module.js"

[gatekeeper]
mode = "disabled"
"#;
    let m = ModuleManifest::from_toml_str(module_toml).expect("parse");
    assert_eq!(m.gatekeeper_mode, GatekeeperMode::Disabled);
    let m2 = ModuleManifest::from_toml_str("[module]\nname=\"x\"\nversion=\"1\"\n[limits]\nmemory_bytes=1\n")
        .expect("parse");
    assert_eq!(m2.gatekeeper_mode, GatekeeperMode::Enabled, "absent `[gatekeeper]` defaults to enabled");
}

#[test]
fn manifest_without_module_section_is_refused() {
    assert!(ModuleManifest::from_toml_str("[grants]\nkernel = []\n").is_err());
}

#[test]
fn manifest_bad_toml_is_refused() {
    assert!(ModuleManifest::from_toml_str("not valid toml {{{").is_err());
}

#[test]
fn manifest_optional_gatekeeper_and_observers() {
    let m = ModuleManifest::from_toml_str(
        "[module]\nname = \"o\"\n[gatekeeper]\nmode = \"optional\"\n[grants]\nobservers = [\"peer\"]\nresources = [\"r1\"]\n",
    )
    .unwrap();
    assert_eq!(m.gatekeeper_mode, GatekeeperMode::Optional);
    assert_eq!(m.observers, vec!["peer"]);
    assert_eq!(m.resources, vec!["r1"]);
    assert!(m.effect_kinds.is_empty());
}

#[test]
fn swap_rejects_kernel_escalation() {
    let old = ModuleManifest::from_toml_str("[module]\nname = \"swap_mod\"\n[grants]\nkernel = [\"uk_version\"]\n").unwrap();
    let new = ModuleManifest::from_toml_str(
        "[module]\nname = \"swap_mod\"\n[grants]\nkernel = [\"uk_version\", \"uk_evolve\"]\n",
    )
    .unwrap();
    let err = swap_check(&old, &new).unwrap_err();
    assert!(err.contains("escalates grant"));
    assert_eq!(err, "UK-4001 swap rejected: new module escalates grant 'uk_evolve'");
}

#[test]
fn swap_same_grants_succeeds() {
    let old = ModuleManifest::from_toml_str("[module]\nname = \"swap_ok\"\n[grants]\nkernel = [\"uk_version\"]\n").unwrap();
    let new = old.clone();
    assert!(swap_check(&old, &new).is_ok());
}

#[test]
fn swap_dropping_grants_succeeds() {
    let old = ModuleManifest::from_toml_str(
        "[module]\nname = \"m\"\n[grants]\nkernel = [\"uk_version\", \"uk_evolve\"]\nfs = [\"data/\"]\n",
    )
    .unwrap();
    let new = ModuleManifest::from_toml_str("[module]\nname = \"m\"\n[grants]\nkernel = [\"uk_version\"]\n").unwrap();
    assert!(swap_check(&old, &new).is_ok());
}

#[test]
fn swap_name_mismatch_rejected() {
    let old = ModuleManifest::from_toml_str("[module]\nname = \"mod_a\"\n").unwrap();
    let new = ModuleManifest::from_toml_str("[module]\nname = \"mod_b\"\n").unwrap();
    let err = swap_check(&old, &new).unwrap_err();
    assert!(err.contains("name mismatch"));
    assert_eq!(err, "swap rejected: module name mismatch ('mod_a' vs 'mod_b')");
}

#[test]
fn swap_rejects_fs_grant_escalation() {
    let old = ModuleManifest::from_toml_str(
        "[module]\nname = \"cap_mod\"\narchetype = \"rust_capstd\"\n\n[grants]\nfs = [\"data/\"]\n",
    )
    .unwrap();
    let new = ModuleManifest::from_toml_str(
        "[module]\nname = \"cap_mod\"\narchetype = \"rust_capstd\"\n\n[grants]\nfs = [\"data/\", \"/etc/\"]\n",
    )
    .unwrap();
    let err = swap_check(&old, &new).unwrap_err();
    assert!(err.contains("escalates"), "expected escalation rejection, got: {err}");
    assert_eq!(err, "UK-4001 swap rejected: new module escalates fs grant '/etc/'");
}

#[test]
fn swap_rejects_effect_and_net_escalation() {
    let old = ModuleManifest::from_toml_str("[module]\nname = \"m\"\n").unwrap();
    let eff = ModuleManifest::from_toml_str("[module]\nname = \"m\"\n[grants]\neffects = [\"Console\"]\n").unwrap();
    let net = ModuleManifest::from_toml_str("[module]\nname = \"m\"\n[grants]\nnet = [\"a.example\"]\n").unwrap();
    assert_eq!(swap_check(&old, &eff).unwrap_err(), "UK-4001 swap rejected: new module escalates effect grant 'Console'");
    assert_eq!(swap_check(&old, &net).unwrap_err(), "UK-4001 swap rejected: new module escalates net grant 'a.example'");
}

#[test]
fn host_lists_resolves_and_counts() {
    let mut host: ModuleHost<String> = ModuleHost::new();
    host.insert_module(handle("mod_alpha", &[("run", 100), ("helper", 200)]));
    host.insert_module(handle("mod_beta", &[("main", 300)]));
    let mut names = host.loaded_modules();
    names.sort();
    assert_eq!(names, vec!["mod_alpha", "mod_beta"]);

    assert_eq!(host.resolve_call("mod_alpha", "helper").unwrap(), CallTarget::Native(200));
    let err = host.resolve_call("mod_alpha", "nonexistent").unwrap_err();
    assert!(err.contains("not found"));
    assert_eq!(err, "entrypoint 'nonexistent' not found in module 'mod_alpha'");

    for _ in 0..5 {
        host.record_call("mod_alpha");
    }
    assert_eq!(host.get("mod_alpha").unwrap().call_count, 5);
    assert_eq!(host.get("mod_beta").unwrap().call_count, 0);
    assert_eq!(host.get("mod_alpha").unwrap().function_count(), 2);
}

#[test]
fn host_replaces_module_of_same_name() {
    let mut host: ModuleHost<String> = ModuleHost::new();
    host.insert_module(handle("swap_ok", &[("run", 10)]));
    host.insert_module(handle("swap_ok", &[("run", 99)]));
    assert_eq!(host.loaded_modules(), vec!["swap_ok"]);
    assert_eq!(host.resolve_call("swap_ok", "run").unwrap(), CallTarget::Native(99));
}

#[test]
fn host_check_swap_goes_through_the_loaded_manifest() {
    let mut host: ModuleHost<String> = ModuleHost::new();
    let err = host.check_swap("ghost", &handle("ghost", &[]).manifest).unwrap_err();
    assert_eq!(err, "module 'ghost' not loaded");
    host.insert_module(handle("mod_a", &[("run", 1)]));
    let b = handle("mod_b", &[]).manifest;
    assert!(host.check_swap("mod_a", &b).unwrap_err().contains("name mismatch"));
    let a = handle("mod_a", &[]).manifest;
    assert!(host.check_swap("mod_a", &a).is_ok());
}

#[test]
fn entrypoint_falls_back_to_run_then_main_then_first() {
    let h = handle("m", &[("other", 7), ("main", 8)]);
    assert_eq!(h.runtime.entrypoint_ptr("missing"), Some(8));
    assert_eq!(h.runtime.entrypoint_ptr("other"), Some(7));
    let h = handle("m", &[("other", 7), ("run", 9)]);
    assert_eq!(h.runtime.entrypoint_ptr("missing"), Some(9));
    let h = handle("m", &[("x", 3), ("y", 4)]);
    assert_eq!(h.runtime.entrypoint_ptr("missing"), Some(3));
    let h = handle("m", &[]);
    assert_eq!(h.runtime.entrypoint_ptr("missing"), None);
}

#[test]
fn call_json_reaches_only_ecmascript_modules() {
    let mut host: ModuleHost<String> = ModuleHost::new();
    host.insert_module(ecma_handle("js", "sidecar-1"));
    host.insert_module(handle("native", &[("run", 1)]));
    let rpc = |s: &String, e: &str, a: &str| -> Result<String, String> { Ok(format!("{s}:{e}:{a}")) };
    assert_eq!(host.call_json("js", "run", "[1]", rpc).unwrap(), "sidecar-1:run:[1]");
    assert_eq!(host.get("js").unwrap().call_count, 1);
    assert_eq!(
        host.call_json("native", "run", "[]", rpc).unwrap_err(),
        "module 'native' is not an ECMAScript module"
    );
    assert_eq!(host.call_json("ghost", "run", "[]", rpc).unwrap_err(), "module 'ghost' not loaded");
    let failing = |_: &String, _: &str, _: &str| -> Result<String, String> { Err("boom".to_string()) };
    assert_eq!(host.call_json("js", "run", "[]", failing).unwrap_err(), "boom");
    assert_eq!(host.get("js").unwrap().call_count, 1);
    assert_eq!(host.resolve_call("js", "anything").unwrap(), CallTarget::Sidecar);
}

#[test]
fn instances_are_isolated_by_key() {
    let mut host: ModuleHost<String> = ModuleHost::new();
    let key_a = ModuleHost::<String>::instance_key("counter", "a");
    let key_b = ModuleHost::<String>::instance_key("counter", "b");
    assert_eq!(key_a, "counter@a");
    let m = ecma_handle("counter", "x").manifest;
    host.insert_instance(ModuleInstance {
        key: key_a.clone(),
        manifest: m.clone(),
        sidecar: "sa".to_string(),
        dir: "/tmp/a".to_string(),
        session: None,
        call_count: 0,
    });
    host.insert_instance(ModuleInstance {
        key: key_b.clone(),
        manifest: m,
        sidecar: "sb".to_string(),
        dir: "/tmp/b".to_string(),
        session: Some(7),
        call_count: 0,
    });
    let rpc = |s: &String, _: &str, _: &str| -> Result<String, String> { Ok(s.clone()) };
    assert_eq!(host.call_json_instance(&key_a, "run", "[]", rpc).unwrap(), "sa");
    assert_eq!(host.call_json_instance(&key_b, "run", "[]", rpc).unwrap(), "sb");
    assert_eq!(host.instance(&key_a).unwrap().call_count, 1);
    assert_eq!(host.session_handle(&key_a), None);
    assert_eq!(host.session_handle(&key_b), Some(7));
    assert_eq!(host.bind_session(&key_a, 42).unwrap(), 42);
    assert_eq!(host.session_handle(&key_a), Some(42));
    assert_eq!(host.bind_session("counter@z", 1).unwrap_err(), "instance 'counter@z' not found");
    let removed = host.remove_instance(&key_a).unwrap();
    assert_eq!(removed.dir, "/tmp/a");
    assert!(host.instance(&key_a).is_none());
    assert!(host.instance(&key_b).is_some());
    assert_eq!(host.remove_instance(&key_a).err().unwrap(), "instance 'counter@a' not found");
}

#[test]
fn instances_need_the_ecmascript_archetype() {
    let plain = handle("plain", &[]).manifest;
    assert_eq!(
        require_ecmascript_archetype(&plain).unwrap_err(),
        "instance isolation requires the 'ecmascript' archetype, got 'austral_cps'"
    );
    assert!(require_ecmascript_archetype(&ecma_handle("js", "s").manifest).is_ok());
}

#[test]
fn blueprint_rejects_path_traversal() {
    assert_eq!(blueprint_entry_path("src\\main.js").unwrap(), "src/main.js");
    assert_eq!(blueprint_entry_path("module.toml").unwrap(), "module.toml");
    assert_eq!(blueprint_entry_path("a/..b/c").unwrap(), "a/..b/c");
    let err = blueprint_entry_path("../../etc/passwd").unwrap_err();
    assert!(err.contains("UK-4001"));
    assert!(err.contains("path traversal"));
    assert!(blueprint_entry_path("a\\..\\b").is_err());
    assert!(blueprint_entry_path("a/..").is_err());
}

#[test]
fn int_args_render_as_json_array() {
    assert_eq!(int_args_json(&[]), "[]");
    assert_eq!(int_args_json(&[42]), "[42]");
    assert_eq!(int_args_json(&[1, -2, 30]), "[1,-2,30]");
    assert_eq!(int_args_json(&[i64::MIN]), "[-9223372036854775808]");
}

#[test]
fn kernel_errors_carry_code_and_message() {
    assert_eq!(kernel_error_text(-4001, Some("denied")), "UK-4001: denied");
    assert_eq!(kernel_error_text(-7, None), "UK-7");
    assert_eq!(no_numeric_result("{}"), "kernel response has no numeric result: {}");
}

#[test]
fn kernel_returns_map_to_values_or_coded_errors() {
    assert_eq!(kernel_return(42, None), Ok(42));
    assert_eq!(kernel_return(0, Some("ignored")), Ok(0));
    assert_eq!(kernel_return(-1001, Some("arg 0: missing")), Err((1001, "arg 0: missing".to_string())));
    assert_eq!(kernel_return(-4004, None), Err((4004, "UK-4004".to_string())));
}

fn jit(functions: &[(&str, usize)]) -> IrRuntime<String> {
    IrRuntime::Jit { functions: functions.iter().map(|(n, p)| (n.to_string(), *p)).collect(), cps_data: vec![] }
}

fn granting(name: &str, kernel: &str) -> ModuleManifest {
    ModuleManifest::from_toml_str(&format!("[module]\nname = \"{name}\"\n[grants]\nkernel = [{kernel}]\n")).unwrap()
}

#[test]
fn swap_module_replaces_code_and_resets_the_count() {
    let mut host: ModuleHost<String> = ModuleHost::new();
    let mut h = handle("hot", &[("run", 10)]);
    h.manifest = granting("hot", "\"uk_version\"");
    host.insert_module(h);
    host.record_call("hot");
    host.record_call("hot");
    assert_eq!(host.get("hot").unwrap().call_count, 2);
    host.swap_module("hot", granting("hot", "\"uk_version\""), jit(&[("run", 77)])).unwrap();
    assert_eq!(host.get("hot").unwrap().call_count, 0);
    assert_eq!(host.resolve_call("hot", "run").unwrap(), CallTarget::Native(77));
}

#[test]
fn refused_swaps_leave_the_module_in_place() {
    let mut host: ModuleHost<String> = ModuleHost::new();
    let mut h = handle("hot", &[("run", 10)]);
    h.manifest = granting("hot", "\"uk_version\"");
    host.insert_module(h);
    host.record_call("hot");
    let err = host.swap_module("hot", granting("cold", "\"uk_version\""), jit(&[("run", 77)])).unwrap_err();
    assert!(err.contains("name mismatch"));
    let err = host.swap_module("hot", granting("hot", "\"uk_version\", \"uk_evolve\""), jit(&[("run", 77)])).unwrap_err();
    assert!(err.contains("UK-4001") && err.contains("escalates"));
    let err = host.swap_module("absent", granting("absent", ""), jit(&[])).unwrap_err();
    assert_eq!(err, "module 'absent' not loaded");
    assert_eq!(host.get("hot").unwrap().call_count, 1);
    assert_eq!(host.resolve_call("hot", "run").unwrap(), CallTarget::Native(10));
}

#[test]
fn compiled_calls_are_counted_once_each() {
    let mut host: ModuleHost<String> = ModuleHost::new();
    host.insert_module(handle("counted", &[("run", 42)]));
    for _ in 0..5 {
        assert_eq!(host.call_compiled("counted", "run", |p| p as i64).unwrap(), Some(42));
    }
    assert_eq!(host.get("counted").unwrap().call_count, 5);
    let err = host.call_compiled("counted", "missing", |p| p as i64).unwrap_err();
    assert_eq!(err, "entrypoint 'missing' not found in module 'counted'");
    let err = host.call_compiled("absent", "run", |p| p as i64).unwrap_err();
    assert_eq!(err, "module 'absent' not loaded");
    assert_eq!(host.get("counted").unwrap().call_count, 5);
}

#[test]
fn sidecar_modules_are_not_called_natively() {
    let mut host: ModuleHost<String> = ModuleHost::new();
    host.insert_module(ecma_handle("js", "sidecar-1"));
    assert_eq!(host.call_compiled("js", "run", |_| 7).unwrap(), None);
    assert_eq!(host.get("js").unwrap().call_count, 0);
}

fn reply_rpc(reply: &'static str) -> impl Fn(&String, &str, &str) -> Result<String, String> {
    move |_s: &String, _e: &str, _a: &str| Ok(reply.to_string())
}

#[test]
fn host_call_runs_compiled_modules_and_counts_them() {
    let mut host: ModuleHost<String> = ModuleHost::new();
    host.insert_module(handle("counted", &[("run", 42)]));
    for _ in 0..5 {
        assert_eq!(host.call("counted", "run", &[], |p| p as i64, reply_rpc("{}")), Ok(42));
    }
    assert_eq!(host.get("counted").unwrap().call_count, 5);
    assert_eq!(
        host.call("counted", "nope", &[], |p| p as i64, reply_rpc("{}")),
        Err("entrypoint 'nope' not found in module 'counted'".to_string())
    );
    assert_eq!(host.call("ghost", "run", &[], |p| p as i64, reply_rpc("{}")), Err("module 'ghost' not loaded".to_string()));
    assert_eq!(host.get("counted").unwrap().call_count, 5);
}

#[test]
fn host_call_reads_the_sidecar_reply() {
    let mut host: ModuleHost<String> = ModuleHost::new();
    host.insert_module(ecma_handle("js", "sidecar-1"));
    let seen = |_s: &String, e: &str, a: &str| Ok(format!("{{\"result\": {}}}", if e == "add" && a == "[2,-3]" { 7 } else { 0 }));
    assert_eq!(host.call("js", "add", &[2, -3], |_| 0, seen), Ok(7));
    assert_eq!(host.get("js").unwrap().call_count, 2);
    let err = host.call("js", "add", &[], |_| 0, reply_rpc("not json")).unwrap_err();
    assert!(err.starts_with("bad kernel response: "));
    assert_eq!(host.get("js").unwrap().call_count, 3);
    let err = host.call("js", "add", &[], |_| 0, reply_rpc("{\"result\": \"x\"}")).unwrap_err();
    assert_eq!(err, "kernel response has no numeric result: {\"result\": \"x\"}");
    assert_eq!(host.get("js").unwrap().call_count, 5);
    let failing = |_s: &String, _e: &str, _a: &str| Err::<String, String>("sidecar down".to_string());
    assert_eq!(host.call("js", "add", &[], |_| 0, failing), Err("sidecar down".to_string()));
    assert_eq!(host.get("js").unwrap().call_count, 5);
}

#[test]
fn loaded_modules_names_each_module_once() {
    let mut host: ModuleHost<String> = ModuleHost::new();
    assert!(host.loaded_modules().is_empty());
    host.insert_module(handle("mod_alpha", &[]));
    host.insert_module(handle("mod_beta", &[]));
    host.insert_module(handle("mod_alpha", &[("run", 3)]));
    let mut names = host.loaded_modules();
    names.sort();
    assert_eq!(names, vec!["mod_alpha", "mod_beta"]);
}
