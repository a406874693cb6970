//! The kernel symbols the JIT registers for compiled modules.

use vstd::prelude::*;

verus! {

/// The names of the `uz_*` storage symbols.
pub open spec fn zenodo_symbol_names() -> Seq<Seq<char>> {
    seq!["uz_init"@, "uz_push"@, "uz_pull"@, "uz_manifest_json"@, "uz_last_error"@]
}

/// The views of a list of string slices.
pub open spec fn strs(v: Seq<&str>) -> Seq<Seq<char>> {
    v.map_values(|s: &str| s@)
}

/// The `uz_*` storage symbols registered in the bridge, in registration order.
pub fn registered_zenodo_symbols() -> (r: Vec<&'static str>)
    ensures
        strs(r@) == zenodo_symbol_names(),
{
    let r = vec!["uz_init", "uz_push", "uz_pull", "uz_manifest_json", "uz_last_error"];
    assert(strs(r@) =~= zenodo_symbol_names());
    r
}

/// The names of the `uk_*` kernel symbols, in registration order.
pub open spec fn unfer_symbol_names() -> Seq<Seq<char>> {
    seq![
        "uk_version"@,
        "uk_init"@,
        "uk_model_create"@,
        "uk_model_free"@,
        "uk_set_prior"@,
        "uk_set_hamiltonian"@,
        "uk_evolve"@,
        "uk_condition"@,
        "uk_event_probability"@,
        "uk_observe"@,
        "uk_get_result"@,
        "uk_last_error"@,
        "uk_logos_compile"@,
        "uk_austral_unf"@,
        "uk_snapshot"@,
        "uk_restore"@,
        "uk_subscribe"@,
        "uk_poll"@,
        "uk_posture_get"@,
        "uk_posture_set"@,
        "uk_proof_verify"@,
        "uk_symbolic_simplify"@,
        "uk_whyml_emit"@,
        "uk_bayesian_update"@,
        "uk_belief_propagation"@,
        "uk_buf_free"@,
        "uk_ode_analyze"@,
        "uk_ode_measure_original"@,
        "uk_action_submit"@,
        "uk_action_apply"@,
        "uk_action_reject"@,
        "uk_action_revert"@,
        "uk_action_get"@,
        "uk_action_list"@,
        "uk_blueprint_export"@,
        "uk_blueprint_instantiate"@,
        "uk_audit_list"@,
        "uk_audit_clear"@,
        "uk_agent_spawn"@,
        "uk_agent_list"@,
        "uk_agent_kill"@,
        "uk_agent_grants"@,
        "uk_blueprint_cell"@,
        "uk_blueprint_export_gadget"@,
        "uk_blueprint_get_by_id"@,
        "uk_blueprint_import"@,
        "uk_blueprint_list"@,
        "uk_observability"@,
        "uk_report_issue"@,
        "uk_owner_clear"@,
        "uk_owner_list"@,
        "uk_owner_log"@,
        "uk_registry_vetted"@,
        "uk_meter_status"@,
        "uk_secret_put"@,
        "uk_secret_get"@,
        "uk_secret_revoke"@,
        "uk_request_resource"@,
        "uk_resource_introduce"@,
        "uk_resource_pending"@,
        "uk_resource_use"@,
        "uk_resource_forfeit"@,
        "uk_cert_set_authority"@,
        "uk_cert_mint"@,
        "uk_cert_mint_request"@,
        "uk_cert_transfer"@,
        "uk_cert_burn"@,
        "uk_cert_status"@,
        "uk_cert_root"@,
        "uk_auction_open"@,
        "uk_auction_bid"@,
        "uk_auction_close"@,
        "uk_auction_report"@,
        "uk_gate_list_pending"@,
        "uk_gate_approve"@,
        "uk_gate_reject"@,
        "uk_session_fork"@,
        "uk_session_compact"@,
        "uk_skill_get"@,
        "uk_skill_list"@,
        "uk_skill_pack_import"@,
        "uk_skill_register"@,
        "uk_durable_status"@,
        "uk_durable_snapshot_error"@,
        "uk_certificate_issued"@
    ]
}

/// The `uk_*` kernel symbols registered in the bridge, in registration order.
pub fn registered_unfer_symbols() -> (r: Vec<&'static str>)
    ensures
        strs(r@) == unfer_symbol_names(),
{
    let r = vec![
        "uk_version",
        "uk_init",
        "uk_model_create",
        "uk_model_free",
        "uk_set_prior",
        "uk_set_hamiltonian",
        "uk_evolve",
        "uk_condition",
        "uk_event_probability",
        "uk_observe",
        "uk_get_result",
        "uk_last_error",
        "uk_logos_compile",
        "uk_austral_unf",
        "uk_snapshot",
        "uk_restore",
        "uk_subscribe",
        "uk_poll",
        "uk_posture_get",
        "uk_posture_set",
        "uk_proof_verify",
        "uk_symbolic_simplify",
        "uk_whyml_emit",
        "uk_bayesian_update",
        "uk_belief_propagation",
        "uk_buf_free",
        "uk_ode_analyze",
        "uk_ode_measure_original",
        "uk_action_submit",
        "uk_action_apply",
        "uk_action_reject",
        "uk_action_revert",
        "uk_action_get",
        "uk_action_list",
        "uk_blueprint_export",
        "uk_blueprint_instantiate",
        "uk_audit_list",
        "uk_audit_clear",
        "uk_agent_spawn",
        "uk_agent_list",
        "uk_agent_kill",
        "uk_agent_grants",
        "uk_blueprint_cell",
        "uk_blueprint_export_gadget",
        "uk_blueprint_get_by_id",
        "uk_blueprint_import",
        "uk_blueprint_list",
        "uk_observability",
        "uk_report_issue",
        "uk_owner_clear",
        "uk_owner_list",
        "uk_owner_log",
        "uk_registry_vetted",
        "uk_meter_status",
        "uk_secret_put",
        "uk_secret_get",
        "uk_secret_revoke",
        "uk_request_resource",
        "uk_resource_introduce",
        "uk_resource_pending",
        "uk_resource_use",
        "uk_resource_forfeit",
        "uk_cert_set_authority",
        "uk_cert_mint",
        "uk_cert_mint_request",
        "uk_cert_transfer",
        "uk_cert_burn",
        "uk_cert_status",
        "uk_cert_root",
        "uk_auction_open",
        "uk_auction_bid",
        "uk_auction_close",
        "uk_auction_report",
        "uk_gate_list_pending",
        "uk_gate_approve",
        "uk_gate_reject",
        "uk_session_fork",
        "uk_session_compact",
        "uk_skill_get",
        "uk_skill_list",
        "uk_skill_pack_import",
        "uk_skill_register",
        "uk_durable_status",
        "uk_durable_snapshot_error",
        "uk_certificate_issued"
    ];
    assert(strs(r@) =~= unfer_symbol_names());
    r
}

/// Whether `sym` is one of the registered `uk_*` kernel symbols.
pub fn is_kernel_symbol(sym: &str) -> (r: bool)
    ensures
        r == unfer_symbol_names().contains(sym@),
{
    let names = registered_unfer_symbols();
    let target = crate::text::chars_of(sym);
    let mut i: usize = 0;
    while i < names.len()
        invariant
            i <= names.len(),
            strs(names@) == unfer_symbol_names(),
            target@ == sym@,
            forall|k: int| 0 <= k < i ==> names@[k]@ != sym@,
        decreases names.len() - i,
    {
        let c = crate::text::chars_of(names[i]);
        if crate::text::chars_eq(&c, &target) {
            assert(strs(names@)[i as int] == sym@);
            return true;
        }
        i = i + 1;
    }
    assert forall|k: int| 0 <= k < unfer_symbol_names().len() implies unfer_symbol_names()[k] != sym@ by {
        assert(strs(names@)[k] == names@[k]@);
    }
    false
}

/// Whether `sym` is one of the registered `uz_*` storage symbols.
pub fn is_zenodo_symbol(sym: &str) -> (r: bool)
    ensures
        r == zenodo_symbol_names().contains(sym@),
{
    let names = registered_zenodo_symbols();
    let target = crate::text::chars_of(sym);
    let mut i: usize = 0;
    while i < names.len()
        invariant
            i <= names.len(),
            strs(names@) == zenodo_symbol_names(),
            target@ == sym@,
            forall|k: int| 0 <= k < i ==> names@[k]@ != sym@,
        decreases names.len() - i,
    {
        let c = crate::text::chars_of(names[i]);
        if crate::text::chars_eq(&c, &target) {
            assert(strs(names@)[i as int] == sym@);
            return true;
        }
        i = i + 1;
    }
    assert forall|k: int| 0 <= k < zenodo_symbol_names().len() implies zenodo_symbol_names()[k] != sym@ by {
        assert(strs(names@)[k] == names@[k]@);
    }
    false
}

/// A symbol of the kernel that compiled code may import: a registered `uk_*`
/// kernel symbol or `uz_*` storage symbol. Calls of these are gated.
pub open spec fn kernel_import(n: Seq<char>) -> bool {
    unfer_symbol_names().contains(n) || zenodo_symbol_names().contains(n)
}

/// Whether `sym` is a kernel import; see [`kernel_import`].
pub fn is_kernel_import(sym: &str) -> (r: bool)
    ensures
        r == kernel_import(sym@),
{
    is_kernel_symbol(sym) || is_zenodo_symbol(sym)
}

} // verus!
