use austral_cranelift_bridge::arith::{
    trapping_add_checked, trapping_divide_checked, trapping_multiply_checked, trapping_subtract_checked,
};
use austral_cranelift_bridge::federation::{artifact_cid, cid_of_hash, ModuleIdentity};
use austral_cranelift_bridge::jit::{function_name_arg, function_names_json, select_entry, swap_entry, EntryChoice};
use austral_cranelift_bridge::policy::{cedar_check, cedar_verdict, CedarVmEngine};
use austral_cranelift_bridge::sandbox::{
    build_deny_filter, LANDLOCK_ACCESS_FS_ALL_READ, LANDLOCK_ACCESS_FS_ALL_WRITE, LANDLOCK_ACCESS_FS_HANDLED,
};
use austral_cranelift_bridge::symbols::{is_kernel_symbol, registered_unfer_symbols, registered_zenodo_symbols};
use austral_cranelift_bridge::tidepool_mod::compile_and_run_haskell;

const DENY_LIST: &[i64] = &[
    libc::SYS_ptrace,
    libc::SYS_mount,
    libc::SYS_umount2,
    libc::SYS_pivot_root,
    libc::SYS_reboot,
    libc::SYS_kexec_load,
    libc::SYS_init_module,
    libc::SYS_finit_module,
    libc::SYS_delete_module,
    libc::SYS_open_by_handle_at,
    libc::SYS_setns,
    libc::SYS_perf_event_open,
    libc::SYS_bpf,
    libc::SYS_userfaultfd,
    libc::SYS_quotactl,
    libc::SYS_swapon,
    libc::SYS_swapoff,
    libc::SYS_ioperm,
    libc::SYS_iopl,
    libc::SYS_kcmp,
];

fn strings(v: &[&str]) -> Vec<String> {
    v.iter().map(|s| s.to_string()).collect()
}

#[test]
fn landlock_bits_are_sane() {
    let handled = LANDLOCK_ACCESS_FS_ALL_READ | LANDLOCK_ACCESS_FS_ALL_WRITE;
    assert_eq!(LANDLOCK_ACCESS_FS_ALL_WRITE & !handled, 0);
    assert_eq!(handled, LANDLOCK_ACCESS_FS_HANDLED);
    assert_eq!(LANDLOCK_ACCESS_FS_ALL_WRITE & LANDLOCK_ACCESS_FS_ALL_READ, 0);
}

#[test]
fn seccomp_deny_jumps_land_on_errno_tail() {
    let f = build_deny_filter(DENY_LIST);
    assert_eq!(f[0].0, 0x20);
    let n = DENY_LIST.len();
    assert_eq!(f.len(), n + 3);
    for (i, instr) in f[1..1 + n].iter().enumerate() {
        assert_eq!(instr.0, 0x15, "instruction {i} must be a JEQ");
        let expected = (n - i) as u8;
        assert_eq!(
            instr.1, expected,
            "JEQ #{i} jump distance wrong: match would not land on the ERRNO tail"
        );
        assert_eq!(instr.3, DENY_LIST[i] as u32);
        assert_eq!(1 + i + 1 + instr.1 as usize, n + 2);
    }
    assert_eq!(f[n + 1].0, 0x06);
    assert_eq!(f[n + 1].3, 0x7fff_0000, "penultimate instruction must be SECCOMP_RET_ALLOW");
    assert_eq!(f[n + 2].0, 0x06);
    assert_eq!(f[n + 2].3, 0x0005_0000 | 1, "last instruction must be ERRNO|EPERM");
}

#[test]
fn empty_deny_list_only_allows() {
    let f = build_deny_filter(&[]);
    assert_eq!(f, vec![(0x20, 0, 0, 0), (0x06, 0, 0, 0x7fff_0000), (0x06, 0, 0, 0x0005_0001)]);
}

#[test]
fn trapping_divide_fails_closed_on_zero_and_overflow() {
    assert_eq!(trapping_divide_checked(10, 2), Some(5));
    assert_eq!(trapping_divide_checked(1, 0), None, "divide by zero must abort per the trapping contract");
    assert_eq!(trapping_divide_checked(i64::MIN, -1), None, "i64::MIN / -1 overflow must abort, not silently wrap");
    assert_eq!(trapping_divide_checked(i64::MIN, 1), Some(i64::MIN));
    assert_eq!(trapping_divide_checked(i64::MAX, -1), Some(i64::MAX.wrapping_neg()));
}

#[test]
fn trapping_divide_rounds_toward_zero() {
    assert_eq!(trapping_divide_checked(-7, 2), Some(-3));
    assert_eq!(trapping_divide_checked(7, -2), Some(-3));
    assert_eq!(trapping_divide_checked(-7, -2), Some(3));
    assert_eq!(trapping_divide_checked(0, -5), Some(0));
}

#[test]
fn trapping_add_sub_mul() {
    assert_eq!(trapping_add_checked(40, 2), Some(42));
    assert_eq!(trapping_add_checked(i64::MAX, 1), None);
    assert_eq!(trapping_subtract_checked(44, 2), Some(42));
    assert_eq!(trapping_subtract_checked(i64::MIN, 1), None);
    assert_eq!(trapping_multiply_checked(21, 2), Some(42));
    assert_eq!(trapping_multiply_checked(400, 65536), Some(400 * 65536));
    assert_eq!(trapping_multiply_checked(i64::MAX, 2), None);
    assert_eq!(trapping_add_checked(400 * 65536, 3), Some(400 * 65536 + 3));
}

#[test]
fn artifact_cid_deterministic() {
    let data = b"test module artifact bytes";
    let cid1 = artifact_cid(data);
    let cid2 = artifact_cid(data);
    assert_eq!(cid1, cid2);
    assert!(!cid1.is_empty());
}

#[test]
fn artifact_cid_different_for_different_data() {
    let cid1 = artifact_cid(b"module A");
    let cid2 = artifact_cid(b"module B");
    assert_ne!(cid1, cid2);
}

#[test]
fn artifact_cid_is_sixteen_hex_digits() {
    let cid = artifact_cid(b"hello");
    assert_eq!(cid.len(), 16);
    assert!(cid.chars().all(|c| c.is_ascii_hexdigit() && !c.is_ascii_uppercase()));
}

#[test]
fn module_identity_stub() {
    let id = ModuleIdentity::stub("test_mod");
    assert!(id.did.contains("test_mod"));
    assert!(id.did.starts_with("did:unfer:stub:"));
    assert_eq!(id.did, "did:unfer:stub:test_mod");
}

#[test]
fn compile_and_run_haskell_stub_returns_error() {
    let result = compile_and_run_haskell("main = pure 42", "main", "test_mod", &["Kernel".to_string()], Some(1000));
    assert!(result.is_err());
    assert!(result.unwrap_err().contains("tidepool feature not enabled"));
}

#[test]
fn entry_selection_prefers_run_then_main() {
    assert_eq!(select_entry(&strings(&["helper", "main", "run"]), ""), EntryChoice::Function(2));
    assert_eq!(select_entry(&strings(&["helper", "main"]), ""), EntryChoice::Function(1));
    assert_eq!(select_entry(&strings(&["helper"]), ""), EntryChoice::NoEntry);
    assert_eq!(select_entry(&[], ""), EntryChoice::NoEntry);
    assert_eq!(select_entry(&strings(&["a", "b"]), "b"), EntryChoice::Function(1));
    assert_eq!(
        select_entry(&strings(&["a", "b"]), "zzz"),
        EntryChoice::Missing("Function 'zzz' not found. Available: [a, b]".to_string())
    );
}

#[test]
fn function_names_render_as_json() {
    assert_eq!(function_names_json(&[]), "[]");
    assert_eq!(function_names_json(&strings(&["run", "main"])), "[\"run\",\"main\"]");
}

#[test]
fn function_name_arg_strips_trailing_nuls() {
    assert_eq!(function_name_arg(b"run\0\0").unwrap(), "run");
    assert_eq!(function_name_arg(b"r\0n").unwrap(), "r\0n");
    assert_eq!(function_name_arg(&[0xff, 0xfe]).unwrap_err(), "Invalid UTF-8 in function name");
}

#[test]
fn registered_symbols() {
    let uk = registered_unfer_symbols();
    assert_eq!(uk[0], "uk_version");
    assert!(is_kernel_symbol("uk_version"));
    assert!(is_kernel_symbol("uk_evolve"));
    assert!(!is_kernel_symbol("au_alloc"));
    assert!(!is_kernel_symbol("uk_not_a_symbol"));
    assert_eq!(
        registered_zenodo_symbols(),
        vec!["uz_init", "uz_push", "uz_pull", "uz_manifest_json", "uz_last_error"]
    );
}

#[test]
fn cedar_policies_decide_module_calls() {
    let mut engine = CedarVmEngine::new();
    assert!(engine.is_authorized("a", "Call", "b").unwrap() == false);
    engine
        .load_policy(r#"permit(principal == Module::"a", action == Action::"Call", resource == Module::"b");"#)
        .unwrap();
    assert!(engine.is_authorized("a", "Call", "b").unwrap());
    assert!(!engine.is_authorized("c", "Call", "b").unwrap());
    assert!(cedar_check(&engine, "a", "Call", "b").is_ok());
    assert_eq!(cedar_check(&engine, "c", "Call", "b").unwrap_err(), "Cedar Policy Denied: c cannot Call b");
    let err = engine.load_policy("this is not cedar").unwrap_err();
    assert!(err.starts_with("Policy parse error: "));
}

#[test]
fn cedar_verdict_maps_outcomes() {
    assert!(cedar_verdict(Ok(true), "p", "Call", "r").is_ok());
    assert_eq!(cedar_verdict(Ok(false), "p", "Call", "r").unwrap_err(), "Cedar Policy Denied: p cannot Call r");
    assert_eq!(cedar_verdict(Err("x".to_string()), "p", "Call", "r").unwrap_err(), "Cedar Error: x");
}

#[test]
fn swap_entry_falls_back_to_the_first_function() {
    assert_eq!(swap_entry(&strings(&["helper", "main", "run"])), Some(2));
    assert_eq!(swap_entry(&strings(&["helper", "main"])), Some(1));
    assert_eq!(swap_entry(&strings(&["f0"])), Some(0));
    assert_eq!(swap_entry(&[]), None);
}

#[test]
fn content_address_is_the_hash_in_sixteen_hex_digits() {
    assert_eq!(cid_of_hash(0x1234), "0000000000001234");
    assert_eq!(cid_of_hash(u64::MAX), "ffffffffffffffff");
    assert_eq!(cid_of_hash(0xabcdef0123456789), "abcdef0123456789");
}
