use austral_cranelift_bridge::ecma::{
    bad_args_error, config_source, content_length, egress_allowed, fetch_host, fetch_target, find_header_end,
    gatekeeper_mode_allows_side_effect, gatekeeper_refusal, harness_source, is_loopback_host, kernel_error,
    loopback_body, loopback_step, loopback_symbol, served_detail, split_host_port, unknown_agent, ErrorCode,
    LoopbackCall, LoopbackError, LoopbackEvent, LoopbackStep, WorkerdPaths,
};
use austral_cranelift_bridge::module::{GatekeeperMode, ModuleManifest};

fn strings(v: &[&str]) -> Vec<String> {
    v.iter().map(|s| s.to_string()).collect()
}

fn module_call(principal: &str, kernel: &[&str], effects: &[&str], net: &[&str], symbol: &str, effect: &str, url: &str) -> LoopbackCall {
    LoopbackCall {
        principal: principal.to_string(),
        symbol: symbol.to_string(),
        effect: effect.to_string(),
        url: url.to_string(),
        kernel: strings(kernel),
        effects: strings(effects),
        net: strings(net),
    }
}

fn refusal(step: LoopbackStep) -> LoopbackError {
    match step {
        LoopbackStep::Refuse(e) => e,
        _ => panic!("expected a refusal"),
    }
}

fn manifest(grants: &[&str], net: &[&str]) -> ModuleManifest {
    ModuleManifest {
        name: "t".into(),
        version: "0.1.0".into(),
        archetypes: vec![],
        archetype: "ecmascript".into(),
        entry: "src/main.js".into(),
        grants: strings(grants),
        effects: vec![],
        effect_kinds: vec![],
        observers: vec![],
        resources: vec![],
        fs_grants: vec![],
        net_grants: strings(net),
        max_ms: None,
        memory_max_bytes: None,
        gatekeeper_mode: GatekeeperMode::Enabled,
    }
}

#[test]
fn gatekeeper_modes_gate_action_submit() {
    assert!(!gatekeeper_mode_allows_side_effect(GatekeeperMode::Disabled, "uk_action_submit"));
    assert!(gatekeeper_mode_allows_side_effect(GatekeeperMode::Optional, "uk_action_submit"));
    assert!(gatekeeper_mode_allows_side_effect(GatekeeperMode::Enabled, "uk_action_submit"));
    assert!(gatekeeper_mode_allows_side_effect(GatekeeperMode::Disabled, "uk_gate_approve"));
    assert!(gatekeeper_mode_allows_side_effect(GatekeeperMode::Disabled, "uk_audit_list"));
}

#[test]
fn harness_exposes_only_granted_symbols() {
    let src = harness_source();
    assert!(src.contains("Object.keys(env)"), "harness must enumerate env, not a static table");
    assert!(src.contains("env[name].fetch"));
    assert!(src.contains("data.error"));
    assert!(!src.contains("CALL_DENIED"), "harness must not stub un-granted symbols (UK-4001 is loopback-only)");
}

#[test]
fn config_embeds_only_granted_bindings() {
    let manifest = manifest(&["uk_version", "uk_model_create", "uk_nonexistent"], &[]);
    let cfg = config_source(&manifest, "/tmp/loop.sock", "/tmp/main.sock");
    assert!(cfg.contains("(name = \"uk_version\", service = \"kernel-loopback\")"));
    assert!(cfg.contains("(name = \"uk_model_create\", service = \"kernel-loopback\")"));
    assert!(!cfg.contains("uk_nonexistent"), "un-granted symbols must be absent");
    assert!(cfg.contains("unix:/tmp/loop.sock"));
    assert!(cfg.contains("unix:/tmp/main.sock"));
}

#[test]
fn loopback_effect_grant_denies_unlisted_effect() {
    // The module holds `send_notification`, NOT `delete_all` (body `[{"effect":"delete_all","params":{}}]`).
    let call = module_call("client_module", &["uk_action_submit"], &["send_notification"], &[], "uk_action_submit", "delete_all", "");
    let e = refusal(loopback_step(&call, LoopbackEvent::Begin));
    assert_eq!(e.code, ErrorCode::Number(4001), "expected UK-4001");
    assert!(e.message.contains("delete_all"), "denial must name the effect, got {}", e.message);
}

#[test]
fn loopback_effect_grant_denies_without_effects_namespace() {
    // No `effects` grant at all: even a listed effect is denied.
    let call = module_call("client_module", &["uk_action_submit"], &[], &[], "uk_action_submit", "send_notification", "");
    let e = refusal(loopback_step(&call, LoopbackEvent::Begin));
    assert_eq!(e.code, ErrorCode::Number(4001));
}

#[test]
fn loopback_kernel_gate_still_applies_to_other_action_symbols() {
    // `uk_action_apply` is not in the kernel grants (body `[1]`).
    let call = module_call("client_module", &["uk_action_submit"], &["send_notification"], &[], "uk_action_apply", "", "");
    let e = refusal(loopback_step(&call, LoopbackEvent::Begin));
    assert_eq!(e.code, ErrorCode::Number(4001));
    assert_eq!(e.name.as_deref(), Some("CallDenied"));
}

#[test]
fn loopback_gatekeeper_denied_without_grant() {
    let call = module_call("scan-module", &["uk_action_submit"], &["notify_admins"], &[], "uk_gate_list_pending", "", "");
    let e = refusal(loopback_step(&call, LoopbackEvent::Begin));
    assert_eq!(e.code, ErrorCode::Number(4001));
}

#[test]
fn loopback_agent_unknown_handle_denies() {
    let (e, principal) = unknown_agent(99999);
    assert_eq!(e.code, ErrorCode::Number(4001));
    assert_eq!(e.message, "agent handle 99999 is unknown or stopped");
    assert_eq!(principal, "agent-99999");
    let (e, principal) = unknown_agent(-7);
    assert_eq!(e.message, "agent handle -7 is unknown or stopped");
    assert_eq!(principal, "agent--7");
}

#[test]
fn egress_allowed_is_exact_host_match() {
    let net = strings(&["api.example.com", "127.0.0.1:8787"]);
    assert!(egress_allowed("api.example.com", &net));
    assert!(egress_allowed("api.example.com:443", &net));
    assert!(egress_allowed("127.0.0.1:8787", &net));
    assert!(!egress_allowed("127.0.0.1:8788", &net));
    assert!(!egress_allowed("api.example.org", &net));
    assert!(!egress_allowed("xapi.example.com", &net));
}

#[test]
fn ported_grant_needs_the_exact_port() {
    let net = strings(&["127.0.0.1:8787"]);
    assert!(!egress_allowed("127.0.0.1", &net));
    assert!(egress_allowed("127.0.0.1:8787", &net));
}

#[test]
fn egress_allowed_default_deny() {
    let empty: Vec<String> = Vec::new();
    assert!(!egress_allowed("api.example.com", &empty));
    assert!(!egress_allowed("", &empty));
    let net = strings(&["trusted.host"]);
    assert!(!egress_allowed("", &net));
    assert!(!egress_allowed("trusted.host:99999", &net));
}

#[test]
fn fetch_host_parses_authority() {
    assert_eq!(fetch_host("http://api.example.com/foo"), "api.example.com");
    assert_eq!(fetch_host("https://127.0.0.1:8787/x"), "127.0.0.1:8787");
    assert_eq!(fetch_host("mailto:user@ex.com"), "");
    assert_eq!(fetch_host("not a url"), "");
    assert_eq!(fetch_host("http://example.com"), "example.com");
}

#[test]
fn config_embeds_net_grants_as_external_services() {
    let manifest = manifest(&["uk_version"], &["127.0.0.1:8787", "api.example.com"]);
    let cfg = config_source(&manifest, "/tmp/loop.sock", "/tmp/main.sock");
    assert!(cfg.contains("net-egress-0"), "first egress service missing: {cfg}");
    assert!(cfg.contains("http://127.0.0.1:8787"), "loopback grant must be embedded: {cfg}");
    assert!(cfg.contains("http://api.example.com"), "host grant must be embedded: {cfg}");
}

#[test]
fn config_without_net_grants_has_no_egress_services() {
    let manifest = manifest(&["uk_version"], &[]);
    let cfg = config_source(&manifest, "/tmp/loop.sock", "/tmp/main.sock");
    assert!(!cfg.contains("net-egress"), "empty net must produce no egress: {cfg}");
}

#[test]
fn uk_fetch_denied_without_net_grant() {
    let call = module_call("fetch_probe", &["uk_fetch"], &[], &[], "uk_fetch", "", "http://api.example.com/data");
    let e = refusal(loopback_step(&call, LoopbackEvent::Begin));
    assert_eq!(e.code, ErrorCode::Number(4001));
    assert!(e.message.contains("api.example.com"), "denial names the host, got {}", e.message);
}

#[test]
fn fetch_denied_off_allowlist() {
    let call = module_call("fetch_probe", &["uk_fetch"], &[], &["allowed.host"], "uk_fetch", "", "http://127.0.0.1:9/x");
    let e = refusal(loopback_step(&call, LoopbackEvent::Begin));
    assert_eq!(e.code, ErrorCode::Number(4001));
}

#[test]
fn fetch_granted_non_loopback_stays_offline() {
    let call = module_call("fetch_probe", &["uk_fetch"], &[], &["api.example.com"], "uk_fetch", "", "http://api.example.com/x");
    assert!(matches!(loopback_step(&call, LoopbackEvent::Begin), LoopbackStep::QueryLatch));
    assert!(matches!(loopback_step(&call, LoopbackEvent::Latched(false)), LoopbackStep::Dispatch));
    let (code, message) = fetch_target(&call.url).unwrap_err();
    assert_eq!(code, 4004);
    assert!(message.contains("loopback fixture"), "refusal must cite the loopback-fixture restriction, got {message}");
}

#[test]
fn latched_caller_is_refused_forward_ops() {
    let call = module_call("m", &["uk_agent_spawn"], &[], &[], "uk_agent_spawn", "", "");
    assert!(matches!(loopback_step(&call, LoopbackEvent::Begin), LoopbackStep::QueryLatch));
    let e = refusal(loopback_step(&call, LoopbackEvent::Latched(true)));
    assert_eq!(e.code, ErrorCode::Text("UK-4701".to_string()));
    assert_eq!(e.message, "UK-4701: 'm' is sensitive-latched and cannot uk_agent_spawn");
}

#[test]
fn metered_symbols_consume_the_budget() {
    let call = module_call("m", &["uk_evolve"], &[], &[], "uk_evolve", "", "");
    assert!(matches!(loopback_step(&call, LoopbackEvent::Begin), LoopbackStep::ConsumeMeter));
    assert!(matches!(loopback_step(&call, LoopbackEvent::Metered(0)), LoopbackStep::Dispatch));
    let e = refusal(loopback_step(&call, LoopbackEvent::Metered(1)));
    assert_eq!(e.code, ErrorCode::Text("UK-4601".to_string()));
    assert_eq!(e.message, "'m' exceeded its windowed call-rate limit");
    let e = refusal(loopback_step(&call, LoopbackEvent::Metered(2)));
    assert_eq!(e.name.as_deref(), Some("BudgetExceeded"));
    assert_eq!(e.message, "'m' exhausted its windowed budget");
}

/// Drives a call through every gate the way the host does, with the kernel
/// answering `latched` and `decision`; true when the call is dispatched.
fn run_call(call: &LoopbackCall, latched: bool, decision: i64) -> bool {
    let mut event = LoopbackEvent::Begin;
    loop {
        match loopback_step(call, event) {
            LoopbackStep::Refuse(_) => return false,
            LoopbackStep::QueryLatch => event = LoopbackEvent::Latched(latched),
            LoopbackStep::ConsumeMeter => event = LoopbackEvent::Metered(decision),
            LoopbackStep::Dispatch => return true,
        }
    }
}

#[test]
fn call_is_dispatched_only_when_every_gate_passes() {
    let metered = module_call("m", &["uk_evolve"], &[], &[], "uk_evolve", "", "");
    assert!(run_call(&metered, true, 0));
    assert!(!run_call(&metered, false, 1));
    let ungranted = module_call("m", &[], &[], &[], "uk_evolve", "", "");
    assert!(!run_call(&ungranted, false, 0));
    let sensitive = module_call("m", &["uk_cert_mint"], &[], &[], "uk_cert_mint", "", "");
    assert!(run_call(&sensitive, false, 2));
    assert!(!run_call(&sensitive, true, 0));
}

#[test]
fn granted_plain_symbol_is_dispatched() {
    let call = module_call("m", &["uk_version"], &[], &[], "uk_version", "", "");
    assert!(matches!(loopback_step(&call, LoopbackEvent::Begin), LoopbackStep::Dispatch));
    assert_eq!(served_detail(&call), None);
}

#[test]
fn fetch_audit_records_allowed_host() {
    let call = module_call("m", &["uk_fetch"], &[], &["127.0.0.1:8787"], "uk_fetch", "", "http://127.0.0.1:8787/x");
    assert_eq!(served_detail(&call).as_deref(), Some("action=allow host='127.0.0.1:8787'"));
    assert_eq!(fetch_target("http://127.0.0.1:8787/x").unwrap(), "127.0.0.1:8787");
    assert_eq!(fetch_target("not a url").unwrap_err(), (1001, "uk_fetch: missing url".to_string()));
}

#[test]
fn split_host_port_parses_numeric_ports_only() {
    assert_eq!(split_host_port("host:80"), ("host".to_string(), Some(80)));
    assert_eq!(split_host_port("host:http"), ("host:http".to_string(), None));
    assert_eq!(split_host_port("host:70000"), ("host:70000".to_string(), None));
    assert_eq!(split_host_port("host"), ("host".to_string(), None));
    assert_eq!(split_host_port("host:"), ("host:".to_string(), None));
    assert!(is_loopback_host("127.0.0.1:9"));
    assert!(is_loopback_host("localhost"));
    assert!(!is_loopback_host("api.example.com"));
}

#[test]
fn request_head_is_parsed() {
    let req = b"POST /kernel/uk_version HTTP/1.1\r\nHost: x\r\nContent-Length: 5\r\n\r\n[1,2]";
    let end = find_header_end(req).unwrap();
    assert_eq!(end, req.len() - 9);
    let head = &req[..end];
    assert_eq!(content_length(head), 5);
    assert_eq!(loopback_symbol(head).as_deref(), Some("uk_version"));
    assert_eq!(loopback_body(&req[end + 4..], 5), "[1,2]");
    assert_eq!(loopback_body(&req[end + 4..], 100), "[1,2]");
    assert_eq!(loopback_symbol(b"POST //kernel/uk_x HTTP/1.1").as_deref(), Some("uk_x"));
    assert_eq!(loopback_symbol(b"POST /other HTTP/1.1"), None);
    assert_eq!(content_length(b"GET / HTTP/1.1\r\ncontent-length: +7 \r\nCONTENT-LENGTH: 9"), 9);
    assert_eq!(content_length(b"GET / HTTP/1.1\r\nContent-Length: x"), 0);
    assert_eq!(find_header_end(b"no end"), None);
}

#[test]
fn fixed_refusals_have_their_codes() {
    let (e, detail) = gatekeeper_refusal("gated", "uk_action_submit");
    assert_eq!(e.code, ErrorCode::Number(4004));
    assert_eq!(e.name, None);
    assert_eq!(e.message, "side effects disabled by gatekeeper mode for module 'gated'");
    assert_eq!(detail, "GATEKEEPER_DISABLED module='gated' symbol='uk_action_submit'");
    assert_eq!(bad_args_error().message, "args must be a JSON array");
    let (e, detail) = kernel_error(1001, "arg 0: missing");
    assert_eq!(e.code, ErrorCode::Number(1001));
    assert_eq!(detail, "UK-1001: arg 0: missing");
}

#[test]
fn workerd_paths_names_its_binary() {
    let p = WorkerdPaths { bin: "/opt/workerd/bin/workerd".to_string(), import_dir: "/opt/workerd".to_string() };
    assert_eq!(p.binary(), "/opt/workerd/bin/workerd");
}
