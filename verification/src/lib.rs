//! Verified core of the Austral module host: authorization engines, the CPS
//! binary reader, module manifests and hosting rules, the ECMAScript sidecar's
//! capability gates, and the seccomp deny-list builder.

use vstd::prelude::*;

pub mod arctic;
pub mod arith;
pub mod auth;
pub mod cps;
pub mod codegen;
pub mod cps_decode;
pub mod ecma;
pub mod engines;
pub mod federation;
pub mod jit;
pub mod module;
pub mod policy;
pub mod sandbox;
pub mod symbols;
pub mod text;
pub mod tidepool_mod;

verus! {

} // verus!
