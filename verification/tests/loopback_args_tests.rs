use austral_cranelift_bridge::ecma::{
    grant_gate, loopback_args, unmarshaled_symbol, ErrorCode, LoopbackCall,
};

fn strs(v: &[&str]) -> Vec<String> {
    v.iter().map(|s| s.to_string()).collect()
}

#[test]
fn loopback_args_read_the_first_arguments_fields() {
    let a = loopback_args(r#"[{"effect": "send_notification", "url": "https://a.example/x"}, 5]"#).unwrap();
    assert_eq!(a.effect, "send_notification");
    assert_eq!(a.url, "https://a.example/x");
    let a = loopback_args(r#"[{"effect": 3}]"#).unwrap();
    assert_eq!(a.effect, "");
    assert_eq!(a.url, "");
    let a = loopback_args("[]").unwrap();
    assert_eq!((a.effect.as_str(), a.url.as_str()), ("", ""));
    let a = loopback_args(r#"["effect"]"#).unwrap();
    assert_eq!(a.effect, "");
}

#[test]
fn a_body_that_is_not_an_array_is_refused() {
    for body in ["{\"effect\": \"x\"}", "not json", "42"] {
        let e = loopback_args(body).err().unwrap();
        assert_eq!(e.code, ErrorCode::Number(4000));
        assert_eq!(e.name, None);
        assert_eq!(e.message, "args must be a JSON array");
    }
}

#[test]
fn the_gate_sees_the_body_the_caller_sent() {
    let args = loopback_args(r#"[{"effect": "run_experiment"}]"#).unwrap();
    let call = LoopbackCall::new(
        "client".to_string(),
        "uk_action_submit".to_string(),
        args,
        strs(&["uk_action_submit"]),
        strs(&["send_notification"]),
        vec![],
    );
    assert_eq!(call.effect, "run_experiment");
    assert!(grant_gate(&call).is_some());
    let args = loopback_args(r#"[{"effect": "send_notification"}]"#).unwrap();
    let call = LoopbackCall::new(
        "client".to_string(),
        "uk_action_submit".to_string(),
        args,
        strs(&["uk_action_submit"]),
        strs(&["send_notification"]),
        vec![],
    );
    assert!(grant_gate(&call).is_none());
}

#[test]
fn unmarshaled_symbols_answer_4004() {
    assert_eq!(unmarshaled_symbol("uk_mystery"), (4004, "kernel symbol 'uk_mystery' has no loopback marshaling".to_string()));
}
