//! Module identities and content addresses of module artifacts.

use std::collections::hash_map::DefaultHasher;
use std::hash::{BuildHasher, BuildHasherDefault};
use vstd::prelude::*;
use vstd::string::*;
use crate::text::{hex_char, hex_fixed, hex_fixed_chars, string_from_chars};

verus! {

/// `BuildHasher::hash_one` of a `BuildHasherDefault<DefaultHasher>`: a hasher
/// made by `DefaultHasher::new`, fed the slice through `Hash::hash`, then
/// finished. Nothing is claimed of the hash: the algorithm is unspecified, may
/// change between Rust releases, and hashes the slice's length as a `usize`,
/// so it also differs between 32- and 64-bit targets.
#[verifier::external_body]
fn hash_bytes(data: &[u8]) -> u64 {
    BuildHasherDefault::<DefaultHasher>::default().hash_one(data)
}

/// Whether `c` is a lower-case hexadecimal digit.
pub open spec fn is_lower_hex(c: char) -> bool {
    ('0' <= c && c <= '9') || ('a' <= c && c <= 'f')
}

proof fn lemma_hex_fixed_shape(n: nat, width: nat)
    ensures
        hex_fixed(n, width).len() == width,
        forall|i: int| 0 <= i < width ==> is_lower_hex(#[trigger] hex_fixed(n, width)[i]),
    decreases width,
{
    if width > 0 {
        lemma_hex_fixed_shape(n / 16, (width - 1) as nat);
        let d = n % 16;
        assert(is_lower_hex(hex_char(d)));
        assert forall|i: int| 0 <= i < width implies is_lower_hex(#[trigger] hex_fixed(n, width)[i]) by {
            if i < width - 1 {
                assert(hex_fixed(n, width)[i] == hex_fixed(n / 16, (width - 1) as nat)[i]);
            }
        }
    }
}

/// The content address of the artifact hash `h`: sixteen lower-case
/// hexadecimal digits.
pub fn cid_of_hash(h: u64) -> (cid: String)
    ensures
        cid@ == hex_fixed(h as nat, 16),
        cid@.len() == 16,
        forall|i: int| 0 <= i < 16 ==> is_lower_hex(#[trigger] cid@[i]),
{
    proof { lemma_hex_fixed_shape(h as nat, 16); }
    string_from_chars(hex_fixed_chars(h, 16).as_slice())
}

/// The content address of a module artifact: the artifact's 64-bit hash (by
/// the standard library's default hasher) as sixteen lower-case hexadecimal
/// digits; see [`cid_of_hash`].
pub fn artifact_cid(cps_data: &[u8]) -> (cid: String)
    ensures
        cid@.len() == 16,
        forall|i: int| 0 <= i < 16 ==> is_lower_hex(#[trigger] cid@[i]),
{
    let h = hash_bytes(cps_data);
    cid_of_hash(h)
}

/// The identity of a module in the federation.
pub struct ModuleIdentity {
    pub did: String,
}

impl ModuleIdentity {
    /// The local stand-in identity `did:unfer:stub:<module_name>`.
    pub fn stub(module_name: &str) -> (r: Self)
        ensures
            r.did@ == "did:unfer:stub:"@ + module_name@,
    {
        let mut did = String::from_str("did:unfer:stub:");
        did.append(module_name);
        ModuleIdentity { did }
    }
}

} // verus!
