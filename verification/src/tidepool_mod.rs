//! Haskell effect-stack modules, hosted through the tidepool runtime when it is
//! built in.

use vstd::prelude::*;
use vstd::string::*;

verus! {

/// The refusal given while the tidepool runtime is not built in.
pub open spec fn tidepool_disabled_message() -> Seq<char> {
    "tidepool feature not enabled \u{2014} rebuild with --features tidepool (uncomment tidepool git deps in Cargo.toml first)"@
}

/// Compiles and runs a Haskell module's entry point under its principal, with
/// the effects it may perform and an optional time budget. This build carries
/// no Haskell runtime, so every request is refused.
pub fn compile_and_run_haskell(
    _source: &str,
    _entry: &str,
    _module_principal: &str,
    _allowed_effects: &[String],
    _max_ms: Option<u64>,
) -> (r: Result<i64, String>)
    ensures
        r matches Err(e) && e@ == tidepool_disabled_message(),
{
    Err(String::from_str(
        "tidepool feature not enabled \u{2014} rebuild with --features tidepool (uncomment tidepool git deps in Cargo.toml first)",
    ))
}

} // verus!
