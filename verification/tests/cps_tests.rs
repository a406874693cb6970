use austral_cranelift_bridge::cps::{BlockTracker, CpsReader, Fallthrough};
use austral_cranelift_bridge::cps_decode::{decode_body, decode_headers, function_names, BinOp, Op, CPS_MAGIC};

fn write_u32(buf: &mut Vec<u8>, v: u32) {
    buf.extend_from_slice(&v.to_le_bytes());
}
fn write_i64(buf: &mut Vec<u8>, v: i64) {
    buf.extend_from_slice(&v.to_le_bytes());
}
fn write_str(buf: &mut Vec<u8>, s: &str) {
    write_u32(buf, s.len() as u32);
    buf.extend_from_slice(s.as_bytes());
}

fn cps_v1_named(func_name: &str, params: &[&str], body: &[u8]) -> Vec<u8> {
    let mut buf = Vec::new();
    write_u32(&mut buf, 0x43505331);
    write_u32(&mut buf, 1);
    write_str(&mut buf, func_name);
    write_u32(&mut buf, params.len() as u32);
    for p in params {
        write_str(&mut buf, p);
    }
    buf.push(0);
    write_u32(&mut buf, body.len() as u32);
    buf.extend_from_slice(body);
    buf
}

fn body_return_const(val: i64) -> Vec<u8> {
    let mut body = Vec::new();
    body.push(0x07);
    body.push(0x01);
    write_i64(&mut body, val);
    body
}

fn const_expr(buf: &mut Vec<u8>, v: i64) {
    buf.push(0x01);
    write_i64(buf, v);
}

fn var_expr(buf: &mut Vec<u8>, n: &str) {
    buf.push(0x02);
    write_str(buf, n);
}

fn strings(v: &[&str]) -> Vec<String> {
    v.iter().map(|s| s.to_string()).collect()
}

#[test]
fn reader_reads_little_endian_fields() {
    let mut data = Vec::new();
    write_u32(&mut data, 0x01020304);
    write_i64(&mut data, -2);
    write_str(&mut data, "hi");
    data.push(9);
    let mut r = CpsReader::new(&data);
    assert_eq!(r.remaining(), data.len());
    assert_eq!(r.read_u32().unwrap(), 0x01020304);
    assert_eq!(r.read_i64().unwrap(), -2);
    assert_eq!(r.read_string().unwrap(), "hi");
    assert_eq!(r.peek_u8(), Some(9));
    assert_eq!(r.read_u8().unwrap(), 9);
    assert_eq!(r.peek_u8(), None);
    assert_eq!(r.read_u8().unwrap_err(), "EOF");
    assert_eq!(r.read_u32().unwrap_err(), "EOF");
}

#[test]
fn reader_refuses_string_past_the_end() {
    let mut data = Vec::new();
    write_u32(&mut data, 10);
    data.extend_from_slice(b"abc");
    let mut r = CpsReader::new(&data);
    assert_eq!(r.read_string().unwrap_err(), "EOF");
    let mut r = CpsReader::new(&data);
    assert_eq!(r.read_bytes(3).unwrap(), &data[0..3]);
    assert!(r.read_bytes(10).is_err());
}

#[test]
fn headers_of_a_single_function_program() {
    let cps = cps_v1_named("run", &["x", "y"], &body_return_const(42));
    let hs = decode_headers(&cps).unwrap();
    assert_eq!(hs.len(), 1);
    assert_eq!(hs[0].name, "run");
    assert_eq!(hs[0].params, vec!["x", "y"]);
    assert_eq!(hs[0].ret_type, 0);
    assert_eq!(hs[0].body, &body_return_const(42)[..]);
    assert_eq!(function_names(&hs), vec!["run"]);
}

#[test]
fn empty_input_is_eof() {
    assert_eq!(decode_headers(&[]).err().unwrap(), "EOF");
}

#[test]
fn bad_magic_is_refused() {
    let mut cps = cps_v1_named("run", &[], &body_return_const(1));
    cps[0] = 0x00;
    assert_eq!(decode_headers(&cps).err().unwrap(), "Invalid magic: 0x43505300");
    assert_eq!(CPS_MAGIC, 0x43505331);
}

#[test]
fn truncated_input_is_eof() {
    let cps = cps_v1_named("run", &[], &body_return_const(1));
    assert_eq!(decode_headers(&cps[..cps.len() - 3]).err().unwrap(), "EOF");
    let mut short = Vec::new();
    write_u32(&mut short, 0x43505331);
    write_u32(&mut short, 2);
    assert_eq!(decode_headers(&short).err().unwrap(), "EOF");
}

#[test]
fn return_constant_body() {
    let ops = decode_body(&body_return_const(42), &vec![], &strings(&["run"])).unwrap();
    assert_eq!(ops, vec![Op::Const(42), Op::Return]);
}

#[test]
fn let_binary_and_return() {
    let mut body = Vec::new();
    body.push(0x03);
    write_str(&mut body, "t");
    body.push(0x05);
    var_expr(&mut body, "x");
    const_expr(&mut body, 1);
    body.push(0x07);
    body.push(0x18);
    var_expr(&mut body, "t");
    var_expr(&mut body, "t");
    let ops = decode_body(&body, &strings(&["x"]), &strings(&["f"])).unwrap();
    assert_eq!(
        ops,
        vec![
            Op::Var("x".to_string()),
            Op::Const(1),
            Op::Binary(BinOp::Add),
            Op::Let("t".to_string()),
            Op::Var("t".to_string()),
            Op::Var("t".to_string()),
            Op::Binary(BinOp::Mul),
            Op::Return,
        ]
    );
}

#[test]
fn undefined_variable_is_refused() {
    let mut body = Vec::new();
    body.push(0x07);
    var_expr(&mut body, "nope");
    assert_eq!(decode_body(&body, &vec![], &vec![]).unwrap_err(), "Undefined variable: nope");
}

#[test]
fn bad_opcode_is_refused() {
    let body = vec![0x07, 0xEE];
    assert_eq!(decode_body(&body, &vec![], &vec![]).unwrap_err(), "Unknown opcode: 0xee");
}

#[test]
fn calls_resolve_program_functions_and_builtins() {
    let mut body = Vec::new();
    body.push(0x04);
    write_str(&mut body, "au_print_int");
    write_u32(&mut body, 1);
    const_expr(&mut body, 5);
    body.push(0x07);
    body.push(0x04);
    write_str(&mut body, "helper");
    write_u32(&mut body, 0);
    let ops = decode_body(&body, &vec![], &strings(&["run", "helper"])).unwrap();
    assert_eq!(
        ops,
        vec![Op::Const(5), Op::Call("au_print_int".to_string(), 1), Op::Drop, Op::TailCall("helper".to_string(), 0)]
    );

    let mut bad = Vec::new();
    bad.push(0x04);
    write_str(&mut bad, "uk_mystery");
    write_u32(&mut bad, 0);
    assert_eq!(decode_body(&bad, &vec![], &strings(&["run"])).unwrap_err(), "Call to unknown function: uk_mystery");

    let mut bad_tail = vec![0x07, 0x04];
    write_str(&mut bad_tail, "missing");
    write_u32(&mut bad_tail, 0);
    assert_eq!(
        decode_body(&bad_tail, &vec![], &strings(&["run"])).unwrap_err(),
        "Tail call to unknown function: missing"
    );
}

#[test]
fn if_else_blocks_are_bracketed() {
    let mut then_b = Vec::new();
    then_b.push(0x07);
    const_expr(&mut then_b, 1);
    let mut else_b = Vec::new();
    else_b.push(0x07);
    const_expr(&mut else_b, 2);
    let mut body = vec![0x08];
    body.push(0x10);
    var_expr(&mut body, "x");
    const_expr(&mut body, 0);
    write_u32(&mut body, then_b.len() as u32);
    body.extend_from_slice(&then_b);
    write_u32(&mut body, else_b.len() as u32);
    body.extend_from_slice(&else_b);
    let ops = decode_body(&body, &strings(&["x"]), &vec![]).unwrap();
    assert_eq!(
        ops,
        vec![
            Op::Var("x".to_string()),
            Op::Const(0),
            Op::Binary(BinOp::Lt),
            Op::IfThen,
            Op::Const(1),
            Op::Return,
            Op::IfElse,
            Op::Const(2),
            Op::Return,
            Op::IfEnd,
        ]
    );
}

#[test]
fn while_and_case_statements() {
    let mut loop_b = Vec::new();
    loop_b.push(0x03);
    write_str(&mut loop_b, "x");
    loop_b.push(0x06);
    var_expr(&mut loop_b, "x");
    const_expr(&mut loop_b, 1);
    let mut body = vec![0x09];
    var_expr(&mut body, "x");
    write_u32(&mut body, loop_b.len() as u32);
    body.extend_from_slice(&loop_b);

    body.push(0x0A);
    var_expr(&mut body, "x");
    write_u32(&mut body, 1);
    write_i64(&mut body, 3);
    let mut arm = vec![0x07];
    const_expr(&mut arm, 30);
    write_u32(&mut body, arm.len() as u32);
    body.extend_from_slice(&arm);
    let mut dflt = vec![0x07];
    const_expr(&mut dflt, 0);
    write_u32(&mut body, dflt.len() as u32);
    body.extend_from_slice(&dflt);

    let ops = decode_body(&body, &strings(&["x"]), &vec![]).unwrap();
    let x = || Op::Var("x".to_string());
    assert_eq!(
        ops,
        vec![
            Op::WhileHead,
            x(),
            Op::WhileBody,
            x(),
            Op::Const(1),
            Op::Binary(BinOp::Sub),
            Op::Let("x".to_string()),
            Op::WhileEnd,
            x(),
            Op::CaseBegin,
            Op::CaseArm(3),
            Op::Const(30),
            Op::Return,
            Op::CaseArmEnd,
            Op::Const(0),
            Op::Return,
            Op::CaseEnd,
        ]
    );
}

#[test]
fn statements_after_return_are_not_decoded() {
    let mut body = body_return_const(7);
    body.extend_from_slice(&[0xEE, 0xEE]);
    assert_eq!(decode_body(&body, &vec![], &vec![]).unwrap(), vec![Op::Const(7), Op::Return]);
}

#[test]
fn store_load_and_not() {
    let mut body = vec![0x30];
    var_expr(&mut body, "p");
    body.push(0x19);
    body.push(0x20);
    var_expr(&mut body, "p");
    let ops = decode_body(&body, &strings(&["p"]), &vec![]).unwrap();
    assert_eq!(
        ops,
        vec![Op::Var("p".to_string()), Op::Var("p".to_string()), Op::Load, Op::Not, Op::Store]
    );
}

#[test]
fn truncated_body_is_eof() {
    let body = body_return_const(7);
    assert_eq!(decode_body(&body[..5], &vec![], &vec![]).unwrap_err(), "EOF");
}

#[test]
fn block_tracker_emits_one_terminator_per_block() {
    let mut t = BlockTracker::new();
    assert!(!t.is_terminated());
    assert!(t.claim_terminator());
    assert!(!t.claim_terminator());
    assert_eq!(t.ensure_terminated(true), Fallthrough::Nothing);
    t.switch_to_block();
    assert_eq!(t.ensure_terminated(true), Fallthrough::JumpToMerge);
    t.switch_to_block();
    assert_eq!(t.ensure_terminated(false), Fallthrough::ReturnZero);
    assert!(t.is_terminated());
}

/// A version-2 module: magic, module name, then the function table.
fn healthy_module_ir() -> Vec<u8> {
    let mut buf = Vec::new();
    write_u32(&mut buf, 0x43505332);
    write_str(&mut buf, "m0");
    write_u32(&mut buf, 1);
    write_str(&mut buf, "f0");
    write_u32(&mut buf, 0);
    buf.push(0);
    let mut body = vec![0x07, 0x01];
    write_i64(&mut body, 42);
    write_u32(&mut buf, body.len() as u32);
    buf.extend_from_slice(&body);
    buf
}

#[test]
fn version_two_modules_skip_their_name() {
    let ir = healthy_module_ir();
    let headers = decode_headers(&ir).unwrap();
    assert_eq!(function_names(&headers), vec!["f0".to_string()]);
    assert_eq!(decode_body(headers[0].body, &headers[0].params, &function_names(&headers)).unwrap(), vec![Op::Const(42), Op::Return]);
    let mut truncated = Vec::new();
    write_u32(&mut truncated, 0x43505332);
    write_u32(&mut truncated, 9);
    assert!(matches!(decode_headers(&truncated), Err(e) if e == "EOF"));
}

#[test]
fn strings_read_back_as_written() {
    let data = [3, 0, 0, 0, b'r', b'u', b'n', 9];
    let mut r = CpsReader::new(&data);
    assert_eq!(r.read_string(), Ok("run".to_string()));
    assert_eq!(r.remaining(), 1);
    let short = [5, 0, 0, 0, b'a'];
    assert_eq!(CpsReader::new(&short).read_string(), Err("EOF".to_string()));
}
