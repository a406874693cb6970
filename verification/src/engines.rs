//! The engines a host installs in its authorization registry, and the loading
//! of authorization manifests into it.

use vstd::prelude::*;

use crate::arctic::ArcticVmEngine;
use crate::auth::{
    AuthRegistry, AuthorizationEngine, Decision, ManifestAuthEngine, ManifestGrants, ManifestToml,
    manifest_principal, manifest_toml_reads, names_of, principal_named, set_auth_engine, set_deployment_principal,
};
use crate::module::toml_document;
use crate::policy::CedarVmEngine;

verus! {

/// An engine a host installs: merged manifest grants, Cedar policies, or
/// threshold-signed delegation certificates.
pub enum HostEngine {
    Manifest(ManifestAuthEngine),
    Cedar(CedarVmEngine),
    Arctic(ArcticVmEngine),
}

impl AuthorizationEngine for HostEngine {
    open spec fn decision(&self, principal: Seq<char>, action: Seq<char>, resource: Seq<char>, now: u64) -> Option<Decision> {
        match self {
            HostEngine::Manifest(e) => e.decision(principal, action, resource, now),
            HostEngine::Cedar(e) => e.decision(principal, action, resource, now),
            HostEngine::Arctic(e) => e.decision(principal, action, resource, now),
        }
    }

    open spec fn failure(&self, principal: Seq<char>, action: Seq<char>, resource: Seq<char>, now: u64) -> Seq<char> {
        match self {
            HostEngine::Manifest(e) => e.failure(principal, action, resource, now),
            HostEngine::Cedar(e) => e.failure(principal, action, resource, now),
            HostEngine::Arctic(e) => e.failure(principal, action, resource, now),
        }
    }

    fn authorize_at(&self, principal: &str, action: &str, resource: &str, now: u64) -> (r: Result<Decision, String>) {
        match self {
            HostEngine::Manifest(e) => e.authorize_at(principal, action, resource, now),
            HostEngine::Cedar(e) => e.authorize_at(principal, action, resource, now),
            HostEngine::Arctic(e) => e.authorize_at(principal, action, resource, now),
        }
    }
}

/// The grants the manifest `mt` gives: its module may `Call` the symbols of
/// its `kernel` and `zenodo` lists and submit the effects of its `effects` list.
pub open spec fn manifest_grants(mt: ManifestToml) -> ManifestGrants {
    ManifestGrants {
        calls: names_of(mt.module.name@, mt.grants.kernel@) + names_of(mt.module.name@, mt.grants.zenodo@),
        effects: names_of(mt.module.name@, mt.grants.effects@),
    }
}

/// What loading a manifest did: `loaded` when `read` is a manifest, and then
/// `merged_after` holds the earlier grants and the manifest's, the registry
/// decides by them (never failing) and the deployment principal is the
/// manifest's module name; otherwise nothing changed.
pub open spec fn manifest_loaded(
    read: Result<ManifestToml, String>,
    text: Seq<char>,
    merged_before: ManifestAuthEngine,
    merged_after: ManifestAuthEngine,
    registry_before: AuthRegistry<HostEngine>,
    registry_after: AuthRegistry<HostEngine>,
    loaded: bool,
) -> bool {
    match read {
        Err(_) => !loaded && merged_after == merged_before && registry_after == registry_before,
        Ok(mt) => {
            &&& loaded
            &&& merged_after@ == merged_before@.merge(manifest_grants(mt))
            &&& registry_after.has_engine()
            &&& forall|p: Seq<char>, a: Seq<char>, q: Seq<char>, t: u64| #[trigger] registry_after.decision(p, a, q, t)
                == Some(merged_after@.decide(p, a, q))
            &&& forall|p: Seq<char>, a: Seq<char>, q: Seq<char>, t: u64| #[trigger] registry_after.failure(p, a, q, t)
                == Seq::<char>::empty()
            &&& registry_after.deployment() == Some(principal_named(text))
        },
    }
}

/// Loads the authorization manifest `text`: its grants join those of the
/// manifests loaded before (`merged`), the merged grants become the engine of
/// `registry`, and the manifest's `[module] name` becomes the deployment
/// principal. Gives `false`, changing nothing, when `text` is not TOML or not
/// a manifest (see [`manifest_toml_reads`]).
pub fn load_auth_manifest(registry: &mut AuthRegistry<HostEngine>, merged: &mut ManifestAuthEngine, text: &str) -> (r: bool)
    requires
        old(merged).wf(),
    ensures
        final(merged).wf(),
        match toml_document(text@) {
            Err(_) => !r && *final(merged) == *old(merged) && *final(registry) == *old(registry),
            Ok(v) => exists|read: Result<ManifestToml, String>| #[trigger] manifest_toml_reads(v, read)
                && manifest_loaded(read, text@, *old(merged), *final(merged), *old(registry), *final(registry), r),
        },
{
    let ghost merged_before = *merged;
    let ghost registry_before = *registry;
    let new_engine = match ManifestAuthEngine::from_toml_str(text) {
        Ok(e) => e,
        Err(_) => {
            return false;
        },
    };
    let ghost added = new_engine@;
    merged.merge(new_engine);
    let installed = merged.duplicate();
    set_auth_engine(registry, HostEngine::Manifest(installed));
    set_deployment_principal(registry, manifest_principal(text));
    proof {
        let v = toml_document(text@)->Ok_0;
        let read = choose|read: Result<ManifestToml, String>| #[trigger] manifest_toml_reads(v, read)
            && (read matches Ok(mt) && added.calls == manifest_grants(mt).calls && added.effects == manifest_grants(mt).effects);
        let mt = read->Ok_0;
        assert(added == manifest_grants(mt));
        assert(manifest_loaded(read, text@, merged_before, *merged, registry_before, *registry, true));
    }
    true
}

} // verus!
