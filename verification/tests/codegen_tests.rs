use austral_cranelift_bridge::auth::{set_allow_all, set_auth_engine, set_deny_all, set_deployment_principal, AuthRegistry, ManifestAuthEngine};
use austral_cranelift_bridge::codegen::{authorize_kernel_calls, lower_function, plan_function, Arith, Callee, Clif, CodegenError, Cond};
use austral_cranelift_bridge::cps_decode::{decode_headers, function_names, BinOp, Op};

fn s(v: &str) -> String {
    v.to_string()
}

fn strings(v: &[&str]) -> Vec<String> {
    v.iter().map(|x| x.to_string()).collect()
}

fn entry() -> Vec<Clif<String>> {
    vec![Clif::CreateBlock, Clif::SwitchTo(0), Clif::EntryParams(0)]
}

#[test]
fn return_constant_plan() {
    let plan = lower_function(&vec![Op::Const(42), Op::Return], &vec![], &strings(&["run"])).unwrap();
    let mut want = entry();
    want.extend([Clif::IConst(42), Clif::Return(0)]);
    assert_eq!(plan, want);
}

#[test]
fn parameters_become_variables_and_body_falls_through_to_zero() {
    let ops = vec![Op::Var(s("y")), Op::Var(s("x")), Op::Binary(BinOp::Sub), Op::Drop];
    let plan = lower_function(&ops, &strings(&["x", "y"]), &vec![]).unwrap();
    let mut want = entry();
    want.extend([
        Clif::Param(0, 0),
        Clif::DeclareVar,
        Clif::DefVar(0, 0),
        Clif::Param(0, 1),
        Clif::DeclareVar,
        Clif::DefVar(1, 1),
        Clif::UseVar(1),
        Clif::UseVar(0),
        Clif::Arith(Arith::Sub, 2, 3),
        Clif::IConst(0),
        Clif::Return(5),
    ]);
    assert_eq!(plan, want);
}

#[test]
fn comparison_is_widened_and_let_declares_once() {
    let ops = vec![
        Op::Const(1),
        Op::Let(s("t")),
        Op::Const(2),
        Op::Let(s("t")),
        Op::Var(s("t")),
        Op::Const(3),
        Op::Binary(BinOp::Lt),
        Op::Return,
    ];
    let plan = lower_function(&ops, &vec![], &vec![]).unwrap();
    let mut want = entry();
    want.extend([
        Clif::IConst(1),
        Clif::DeclareVar,
        Clif::DefVar(0, 0),
        Clif::IConst(2),
        Clif::DefVar(0, 1),
        Clif::UseVar(0),
        Clif::IConst(3),
        Clif::Compare(Cond::Lt, 2, 3),
        Clif::Uextend(4),
        Clif::Return(5),
    ]);
    assert_eq!(plan, want);
}

#[test]
fn if_else_blocks_and_merge() {
    let ops = vec![
        Op::Const(1),
        Op::IfThen,
        Op::Const(10),
        Op::Return,
        Op::IfElse,
        Op::Const(20),
        Op::Drop,
        Op::IfEnd,
    ];
    let plan = lower_function(&ops, &vec![], &vec![]).unwrap();
    let mut want = entry();
    want.extend([
        Clif::IConst(1),
        Clif::IConst(0),
        Clif::Compare(Cond::Ne, 0, 1),
        Clif::CreateBlock,
        Clif::CreateBlock,
        Clif::CreateBlock,
        Clif::Brif(2, 1, 2),
        Clif::SwitchTo(1),
        Clif::IConst(10),
        Clif::Return(3),
        Clif::SwitchTo(2),
        Clif::IConst(20),
        Clif::Jump(3),
        Clif::SwitchTo(3),
        Clif::IConst(0),
        Clif::Return(5),
    ]);
    assert_eq!(plan, want);
}

#[test]
fn while_loop_jumps_back_to_its_header() {
    let ops = vec![Op::WhileHead, Op::Const(0), Op::WhileBody, Op::WhileEnd, Op::Const(7), Op::Return];
    let plan = lower_function(&ops, &vec![], &vec![]).unwrap();
    let mut want = entry();
    want.extend([
        Clif::CreateBlock,
        Clif::CreateBlock,
        Clif::CreateBlock,
        Clif::Jump(1),
        Clif::SwitchTo(1),
        Clif::IConst(0),
        Clif::IConst(0),
        Clif::Compare(Cond::Ne, 0, 1),
        Clif::Brif(2, 2, 3),
        Clif::SwitchTo(2),
        Clif::Jump(1),
        Clif::SwitchTo(3),
        Clif::IConst(7),
        Clif::Return(3),
    ]);
    assert_eq!(plan, want);
}

#[test]
fn case_arms_test_the_scrutinee() {
    let ops = vec![
        Op::Const(5),
        Op::CaseBegin,
        Op::CaseArm(5),
        Op::Const(1),
        Op::Return,
        Op::CaseArmEnd,
        Op::Const(2),
        Op::Return,
        Op::CaseEnd,
    ];
    let plan = lower_function(&ops, &vec![], &vec![]).unwrap();
    let mut want = entry();
    want.extend([
        Clif::IConst(5),
        Clif::CreateBlock,
        Clif::IConst(5),
        Clif::Compare(Cond::Eq, 0, 1),
        Clif::CreateBlock,
        Clif::CreateBlock,
        Clif::Brif(2, 2, 3),
        Clif::SwitchTo(2),
        Clif::IConst(1),
        Clif::Return(3),
        Clif::SwitchTo(3),
        Clif::IConst(2),
        Clif::Return(4),
        Clif::SwitchTo(1),
        Clif::IConst(0),
        Clif::Return(5),
    ]);
    assert_eq!(plan, want);
}

#[test]
fn record_constructor_allocates_and_stores_fields() {
    let ops = vec![Op::Const(16), Op::Const(7), Op::Const(8), Op::Call(s("__record_new"), 3), Op::Return];
    let plan = lower_function(&ops, &vec![], &vec![]).unwrap();
    let mut want = entry();
    want.extend([
        Clif::IConst(16),
        Clif::IConst(7),
        Clif::IConst(8),
        Clif::Arg(0),
        Clif::Call(Callee::Alloc),
        Clif::Store(1, 3, 0),
        Clif::Store(2, 3, 8),
        Clif::Return(3),
    ]);
    assert_eq!(plan, want);
}

#[test]
fn slot_get_adds_then_loads() {
    let ops = vec![Op::Const(100), Op::Const(8), Op::TailCall(s("__slot_get"), 2)];
    let plan = lower_function(&ops, &vec![], &vec![]).unwrap();
    let mut want = entry();
    want.extend([
        Clif::IConst(100),
        Clif::IConst(8),
        Clif::Arith(Arith::Add, 0, 1),
        Clif::Load(2),
        Clif::Return(3),
    ]);
    assert_eq!(plan, want);
}

#[test]
fn intrinsics_with_too_few_arguments_report_their_arity() {
    let err = lower_function(&vec![Op::Call(s("__slot_get"), 0), Op::Drop], &vec![], &vec![]).unwrap_err();
    assert_eq!(err, CodegenError::Arity(s("intrinsic `__slot_get` takes 2 arguments, got 0")));
    let err = lower_function(&vec![Op::Const(1), Op::Call(s("__union_new"), 1), Op::Drop], &vec![], &vec![]).unwrap_err();
    assert_eq!(err, CodegenError::Arity(s("intrinsic `__union_new` takes 2 arguments, got 1")));
    let err = lower_function(&vec![Op::TailCall(s("__record_new"), 0)], &vec![], &vec![]).unwrap_err();
    assert_eq!(err, CodegenError::Arity(s("intrinsic `__record_new` takes 1 arguments, got 0")));
    assert!(lower_function(&vec![Op::Const(1), Op::Call(s("__record_new"), 1), Op::Drop], &vec![], &vec![]).is_ok());
}

#[test]
fn calls_resolve_to_program_functions_or_builtins() {
    let ops = vec![Op::Const(1), Op::Call(s("helper"), 1), Op::Call(s("au_print_int"), 1), Op::TailCall(s("run"), 0)];
    let plan = lower_function(&ops, &vec![], &strings(&["run", "helper"])).unwrap();
    let mut want = entry();
    want.extend([
        Clif::IConst(1),
        Clif::Arg(0),
        Clif::Call(Callee::Local(1)),
        Clif::Arg(1),
        Clif::Call(Callee::Builtin(s("au_print_int"))),
        Clif::ReturnCall(Callee::Local(0)),
    ]);
    assert_eq!(plan, want);
    let plan = lower_function(&vec![Op::Call(s("uk_version"), 0), Op::Drop], &vec![], &vec![]).unwrap();
    assert_eq!(plan[3], Clif::Call(Callee::Kernel(s("uk_version"))));
    let plan = lower_function(&vec![Op::TailCall(s("uz_push"), 0)], &vec![], &vec![]).unwrap();
    assert_eq!(plan[3], Clif::ReturnCall(Callee::Kernel(s("uz_push"))));
    let err = lower_function(&vec![Op::Call(s("uk_mystery"), 0), Op::Drop], &vec![], &vec![]).unwrap_err();
    assert_eq!(err, CodegenError::Message(s("Call to unknown function: uk_mystery")));
}

#[test]
fn malformed_streams_are_refused() {
    assert!(lower_function(&vec![Op::Drop], &vec![], &vec![]).is_err());
    assert!(lower_function(&vec![Op::IfElse], &vec![], &vec![]).is_err());
    assert!(lower_function(&vec![Op::Const(1), Op::IfThen], &vec![], &vec![]).is_err());
    assert!(lower_function(&vec![Op::Const(1), Op::Return, Op::Const(2)], &vec![], &vec![]).is_err());
}

#[test]
fn plans_come_from_program_bytes() {
    let mut cps = Vec::new();
    cps.extend_from_slice(&0x43505331u32.to_le_bytes());
    cps.extend_from_slice(&1u32.to_le_bytes());
    cps.extend_from_slice(&3u32.to_le_bytes());
    cps.extend_from_slice(b"run");
    cps.extend_from_slice(&0u32.to_le_bytes());
    cps.push(0);
    let body = [0x07u8, 0x01, 42, 0, 0, 0, 0, 0, 0, 0];
    cps.extend_from_slice(&(body.len() as u32).to_le_bytes());
    cps.extend_from_slice(&body);
    let headers = decode_headers(&cps).unwrap();
    let names = function_names(&headers);
    let plan = plan_function(&headers[0], &names).unwrap();
    let mut want = entry();
    want.extend([Clif::IConst(42), Clif::Return(0)]);
    assert_eq!(plan, want);
}

fn program_calling(fname: &str, callee: &str) -> Vec<u8> {
    let mut body = vec![0x07, 0x04];
    body.extend_from_slice(&(callee.len() as u32).to_le_bytes());
    body.extend_from_slice(callee.as_bytes());
    body.extend_from_slice(&0u32.to_le_bytes());
    let mut cps = Vec::new();
    cps.extend_from_slice(&0x43505331u32.to_le_bytes());
    cps.extend_from_slice(&1u32.to_le_bytes());
    cps.extend_from_slice(&(fname.len() as u32).to_le_bytes());
    cps.extend_from_slice(fname.as_bytes());
    cps.extend_from_slice(&0u32.to_le_bytes());
    cps.push(0);
    cps.extend_from_slice(&(body.len() as u32).to_le_bytes());
    cps.extend_from_slice(&body);
    cps
}

/// Lowers the one function of `cps` and runs the permission gate on it.
fn gate(reg: &mut AuthRegistry<ManifestAuthEngine>, cps: &[u8]) -> Result<(), String> {
    let headers = decode_headers(cps).unwrap();
    let names = function_names(&headers);
    let plan = plan_function(&headers[0], &names).unwrap();
    authorize_kernel_calls(reg, &headers[0].name, &plan, 0)
}

fn deny_all() -> AuthRegistry<ManifestAuthEngine> {
    let mut reg = AuthRegistry::new();
    set_deny_all(&mut reg);
    reg
}

fn granting(toml: &str) -> AuthRegistry<ManifestAuthEngine> {
    let mut reg = AuthRegistry::new();
    set_auth_engine(&mut reg, ManifestAuthEngine::from_toml_str(toml).unwrap());
    reg
}

const RUN_MAY_CALL_UK_VERSION: &str = "\n[module]\nname = \"run\"\n\n[grants]\nkernel = [\"uk_version\"]\n";

#[test]
fn self_call_allowed_under_deny_all() {
    assert!(gate(&mut deny_all(), &program_calling("run", "run")).is_ok());
}

#[test]
fn au_call_allowed_under_deny_all() {
    assert!(gate(&mut deny_all(), &program_calling("run", "au_alloc")).is_ok());
}

#[test]
fn au_print_int_allowed_under_deny_all() {
    assert!(gate(&mut deny_all(), &program_calling("run", "au_print_int")).is_ok());
}

#[test]
fn uk_call_denied_under_deny_all() {
    assert_eq!(
        gate(&mut deny_all(), &program_calling("run", "uk_version")),
        Err("UK-4001: Authorization denied \u{2014} 'run' is not granted 'uk_version'".to_string())
    );
}

#[test]
fn uk_call_allowed_under_grant() {
    assert!(gate(&mut granting(RUN_MAY_CALL_UK_VERSION), &program_calling("run", "uk_version")).is_ok());
}

#[test]
fn uk_call_denied_when_grant_missing() {
    assert!(gate(&mut granting(RUN_MAY_CALL_UK_VERSION), &program_calling("run", "uk_evolve")).is_err());
}

#[test]
fn kernel_calls_are_attributed_to_the_deployment_principal() {
    let mut reg = granting(RUN_MAY_CALL_UK_VERSION);
    assert!(gate(&mut reg, &program_calling("other", "uk_version")).is_err());
    set_deployment_principal(&mut reg, "run".to_string());
    assert!(gate(&mut reg, &program_calling("other", "uk_version")).is_ok());
    let mut open = AuthRegistry::<ManifestAuthEngine>::new();
    set_allow_all(&mut open);
    assert!(gate(&mut open, &program_calling("run", "uz_pull")).is_ok());
    assert!(gate(&mut AuthRegistry::new(), &program_calling("run", "uz_pull")).is_err());
}
