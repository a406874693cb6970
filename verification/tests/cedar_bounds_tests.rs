use austral_cranelift_bridge::policy::{cedar_check, CedarVmEngine, MAX_POLICY_LEN, MAX_POLICY_NESTING};

const HEAD: &str = "permit(principal, action, resource) when { ";
const TAIL: &str = " };";
const TOO_DEEP_OR_LONG: &str =
    "Policy parse error: policy text is longer than 4096 characters or nests brackets deeper than 16";

/// `(`×k `inner` `)`×k inside the condition: `k` more levels below the
/// `when` braces.
fn nested(k: usize, open: &str, inner: &str, close: &str) -> String {
    format!("{HEAD}{}{inner}{}{TAIL}", open.repeat(k), close.repeat(k))
}

/// A condition made of `first`, then `unit` repeated while the policy stays
/// within `len` characters, then `last`; wrapped in `k` parentheses.
fn chain(k: usize, unit: &str, first: &str, last: &str, len: usize) -> String {
    let mut body = first.to_string();
    while HEAD.len() + 2 * k + body.len() + unit.len() + last.len() + TAIL.len() <= len {
        body.push_str(unit);
    }
    nested(k, "(", &format!("{body}{last}"), ")")
}

/// Loading `text` returns (a stack overflow would abort the test instead),
/// and the engine still answers.
fn loads(text: &str) -> Result<(), String> {
    let mut engine = CedarVmEngine::new();
    let r = engine.load_policy(text);
    let _ = engine.is_authorized("a", "Call", "b");
    r
}

#[test]
fn deepest_nesting_the_engine_admits_parses() {
    let k = MAX_POLICY_NESTING - 1;
    let mut engine = CedarVmEngine::new();
    assert_eq!(engine.load_policy(&nested(k, "(", "true", ")")), Ok(()));
    assert_eq!(engine.is_authorized("a", "Call", "b"), Ok(true));
    assert_eq!(loads(&nested(k, "[", "1", "]")), Ok(()));
    assert_eq!(loads(&nested(k, "{a: ", "1", "}")), Ok(()));
}

#[test]
fn longest_chains_the_engine_admits_parse() {
    let k = MAX_POLICY_NESTING - 1;
    assert_eq!(loads(&chain(k, "||true", "true", "", MAX_POLICY_LEN)), Ok(()));
    assert_eq!(loads(&chain(k, "+1", "1", "==1", MAX_POLICY_LEN)), Ok(()));
    assert!(loads(&chain(k, ".a", "context", "==1", MAX_POLICY_LEN)).is_ok());
    assert_eq!(loads(&chain(k, "if true then true else ", "", "true", MAX_POLICY_LEN)), Ok(()));
}

#[test]
fn brackets_in_strings_and_comments_do_not_count() {
    let text = format!("// {}\n{HEAD}\"{}\" == \"x\"{TAIL}", "(".repeat(40), "[".repeat(40));
    assert_eq!(loads(&text), Ok(()));
}

#[test]
fn texts_beyond_the_bounds_are_refused_unparsed() {
    let mut engine = CedarVmEngine::new();
    let deep = nested(MAX_POLICY_NESTING, "(", "true", ")");
    assert_eq!(engine.load_policy(&deep), Err(TOO_DEEP_OR_LONG.to_string()));
    let long = format!("{HEAD}{}true{TAIL}", " ".repeat(MAX_POLICY_LEN));
    assert_eq!(engine.load_policy(&long), Err(TOO_DEEP_OR_LONG.to_string()));
    assert_eq!(engine.is_authorized("a", "Call", "b"), Ok(false));
}

#[test]
fn no_policies_deny_every_call() {
    let engine = CedarVmEngine::new();
    assert_eq!(cedar_check(&engine, "a", "Call", "b"), Err("Cedar Policy Denied: a cannot Call b".to_string()));
}
