//! Authorization engines: the allow-all and deny-all engines, the manifest
//! grant engine (kernel-call grants and effect grants), and the registry that
//! decides every gated call.

use vstd::prelude::*;
use vstd::string::*;

use crate::text::{chars_eq, chars_of, strings};
use crate::arctic::clock_secs;
use crate::module::{
    TomlValue, toml_get, toml_get_opt, toml_string_list, toml_document, opt, get, as_string_list, parse_toml,
};

verus! {

/// The outcome of an authorization query.
#[derive(Debug, Clone, Copy, PartialEq, Eq, Structural)]
pub enum Decision {
    Allow,
    Deny,
}

/// An engine that decides whether `principal` may perform `action` on `resource`.
/// A decision may depend on the time it is taken at (`now`, in seconds since
/// the Unix epoch), as a certificate's does; most engines ignore it.
pub trait AuthorizationEngine: Send + Sync {
    /// The decision the engine takes for the query at time `now`, or `None`
    /// when it reports an error instead of deciding.
    spec fn decision(&self, principal: Seq<char>, action: Seq<char>, resource: Seq<char>, now: u64) -> Option<Decision>;

    /// The error the engine reports for the query when it does not decide it.
    spec fn failure(&self, principal: Seq<char>, action: Seq<char>, resource: Seq<char>, now: u64) -> Seq<char>;

    /// Decides the query at time `now`.
    fn authorize_at(&self, principal: &str, action: &str, resource: &str, now: u64) -> (r: Result<Decision, String>)
        ensures
            decided(self.decision(principal@, action@, resource@, now), self.failure(principal@, action@, resource@, now), r),
    ;

    /// Decides the query now, by the system clock (a clock before the Unix
    /// epoch reads as the latest time).
    fn authorize(&self, principal: &str, action: &str, resource: &str) -> (r: Result<Decision, String>)
        ensures
            exists|now: u64| decided(#[trigger] self.decision(principal@, action@, resource@, now),
                self.failure(principal@, action@, resource@, now), r),
    {
        let now = clock_secs();
        let r = self.authorize_at(principal, action, resource, now);
        assert(decided(self.decision(principal@, action@, resource@, now), self.failure(principal@, action@, resource@, now), r));
        r
    }
}

/// `r` is the outcome `decision` and `failure` describe: the decision, or the
/// error when there is none.
pub open spec fn decided(decision: Option<Decision>, failure: Seq<char>, r: Result<Decision, String>) -> bool {
    match decision {
        Some(d) => r == Ok::<Decision, String>(d),
        None => r matches Err(e) && e@ == failure,
    }
}

/// Grants every request.
#[derive(Debug, Clone, Default)]
pub struct AllowAll;

impl AuthorizationEngine for AllowAll {
    open spec fn decision(&self, principal: Seq<char>, action: Seq<char>, resource: Seq<char>, now: u64) -> Option<Decision> {
        Some(Decision::Allow)
    }

    open spec fn failure(&self, principal: Seq<char>, action: Seq<char>, resource: Seq<char>, now: u64) -> Seq<char> {
        Seq::empty()
    }

    fn authorize_at(&self, principal: &str, action: &str, resource: &str, now: u64) -> (r: Result<Decision, String>) {
        Ok(Decision::Allow)
    }
}

/// Denies every request; the engine in force when nothing else was installed.
#[derive(Debug, Clone, Default)]
pub struct DenyAll;

impl AuthorizationEngine for DenyAll {
    open spec fn decision(&self, principal: Seq<char>, action: Seq<char>, resource: Seq<char>, now: u64) -> Option<Decision> {
        Some(Decision::Deny)
    }

    open spec fn failure(&self, principal: Seq<char>, action: Seq<char>, resource: Seq<char>, now: u64) -> Seq<char> {
        Seq::empty()
    }

    fn authorize_at(&self, principal: &str, action: &str, resource: &str, now: u64) -> (r: Result<Decision, String>) {
        Ok(Decision::Deny)
    }
}

/// The grants a manifest engine holds, as two relations between module names and
/// the callables (kernel symbols) or effects granted to them.
pub struct ManifestGrants {
    pub calls: Set<(Seq<char>, Seq<char>)>,
    pub effects: Set<(Seq<char>, Seq<char>)>,
}

impl ManifestGrants {
    pub open spec fn empty() -> Self {
        ManifestGrants { calls: Set::empty(), effects: Set::empty() }
    }

    pub open spec fn grant(self, module: Seq<char>, callable: Seq<char>) -> Self {
        ManifestGrants { calls: self.calls.insert((module, callable)), effects: self.effects }
    }

    pub open spec fn grant_effect(self, module: Seq<char>, effect: Seq<char>) -> Self {
        ManifestGrants { calls: self.calls, effects: self.effects.insert((module, effect)) }
    }

    pub open spec fn merge(self, other: Self) -> Self {
        ManifestGrants { calls: self.calls + other.calls, effects: self.effects + other.effects }
    }

    pub open spec fn permits_call(self, module: Seq<char>, callable: Seq<char>) -> bool {
        self.calls.contains((module, callable))
    }

    pub open spec fn permits_effect(self, module: Seq<char>, effect: Seq<char>) -> bool {
        self.effects.contains((module, effect))
    }

    /// The decision of the manifest engine: `Call` is decided by the kernel grants,
    /// `Effect` by the effect grants, and every other action is denied.
    pub open spec fn decide(self, principal: Seq<char>, action: Seq<char>, resource: Seq<char>) -> Decision {
        if action == "Call"@ {
            if self.permits_call(principal, resource) { Decision::Allow } else { Decision::Deny }
        } else if action == "Effect"@ {
            if self.permits_effect(principal, resource) { Decision::Allow } else { Decision::Deny }
        } else {
            Decision::Deny
        }
    }
}

/// The relation held by a list of (module, name) pairs.
pub open spec fn pairs_relation(pairs: Seq<(String, String)>) -> Set<(Seq<char>, Seq<char>)> {
    Set::new(|p: (Seq<char>, Seq<char>)| exists|i: int| 0 <= i < pairs.len() && #[trigger] pairs[i].0@ == p.0 && pairs[i].1@ == p.1)
}

/// No (module, name) pair occurs twice.
pub open spec fn pairs_distinct(pairs: Seq<(String, String)>) -> bool {
    forall|i: int, j: int| 0 <= i < j < pairs.len() ==> !(#[trigger] pairs[i].0@ == #[trigger] pairs[j].0@ && pairs[i].1@ == pairs[j].1@)
}

/// Grants read from module manifests: which kernel symbols (and Zenodo store
/// symbols) and which effects each module may use.
#[derive(Debug, Clone)]
pub struct ManifestAuthEngine {
    grants: Vec<(String, String)>,
    effects: Vec<(String, String)>,
}

impl View for ManifestAuthEngine {
    type V = ManifestGrants;

    closed spec fn view(&self) -> ManifestGrants {
        ManifestGrants { calls: pairs_relation(self.grants@), effects: pairs_relation(self.effects@) }
    }
}

/// The `[module]` table of an authorization manifest.
#[derive(Debug, Clone)]
pub struct ModuleToml {
    pub name: String,
}

/// The `[grants]` table of an authorization manifest; absent keys are empty.
#[derive(Debug, Clone, Default)]
pub struct GrantsToml {
    pub kernel: Vec<String>,
    pub effects: Vec<String>,
    pub zenodo: Vec<String>,
}

/// An authorization manifest, as parsed from its TOML text.
#[derive(Debug, Clone)]
pub struct ManifestToml {
    pub module: ModuleToml,
    pub grants: GrantsToml,
}

impl AuthorizationEngine for ManifestAuthEngine {
    open spec fn decision(&self, principal: Seq<char>, action: Seq<char>, resource: Seq<char>, now: u64) -> Option<Decision> {
        Some(self@.decide(principal, action, resource))
    }

    open spec fn failure(&self, principal: Seq<char>, action: Seq<char>, resource: Seq<char>, now: u64) -> Seq<char> {
        Seq::empty()
    }

    /// `Call` is decided by the kernel grants (`[grants] kernel`), `Effect` by the
    /// effect grants (`[grants] effects`); every other action is denied.
    fn authorize_at(&self, principal: &str, action: &str, resource: &str, now: u64) -> (r: Result<Decision, String>) {
        let a = chars_of(action);
        let call = chars_of("Call");
        let effect = chars_of("Effect");
        if chars_eq(&a, &call) {
            Ok(if self.is_granted(principal, resource) { Decision::Allow } else { Decision::Deny })
        } else if chars_eq(&a, &effect) {
            Ok(if self.is_effect_granted(principal, resource) { Decision::Allow } else { Decision::Deny })
        } else {
            Ok(Decision::Deny)
        }
    }
}

impl Default for ManifestAuthEngine {
    fn default() -> (r: Self)
        ensures
            r.wf(),
            r@ == ManifestGrants::empty(),
    {
        ManifestAuthEngine::new()
    }
}

/// Whether `pairs` holds the pair (`module`, `name`).
fn pairs_contains(pairs: &Vec<(String, String)>, module: &str, name: &str) -> (r: bool)
    ensures
        r == pairs_relation(pairs@).contains((module@, name@)),
{
    let m = chars_of(module);
    let n = chars_of(name);
    let mut i: usize = 0;
    while i < pairs.len()
        invariant
            i <= pairs.len(),
            m@ == module@,
            n@ == name@,
            forall|k: int| 0 <= k < i ==> !(#[trigger] pairs@[k].0@ == module@ && pairs@[k].1@ == name@),
        decreases pairs.len() - i,
    {
        let pm = chars_of(pairs[i].0.as_str());
        let pn = chars_of(pairs[i].1.as_str());
        if chars_eq(&pm, &m) && chars_eq(&pn, &n) {
            return true;
        }
        i = i + 1;
    }
    false
}

/// A copy of `pairs`, pair by pair.
fn copy_pairs(pairs: &Vec<(String, String)>) -> (r: Vec<(String, String)>)
    ensures
        r@.len() == pairs@.len(),
        forall|i: int| 0 <= i < pairs@.len() ==> (#[trigger] r@[i]).0@ == pairs@[i].0@ && r@[i].1@ == pairs@[i].1@,
{
    let mut r: Vec<(String, String)> = Vec::new();
    let mut i: usize = 0;
    while i < pairs.len()
        invariant
            i <= pairs.len(),
            r@.len() == i,
            forall|k: int| 0 <= k < i ==> (#[trigger] r@[k]).0@ == pairs@[k].0@ && r@[k].1@ == pairs@[k].1@,
        decreases pairs.len() - i,
    {
        let m = String::from_str(pairs[i].0.as_str());
        let n = String::from_str(pairs[i].1.as_str());
        r.push((m, n));
        i = i + 1;
    }
    r
}

/// Two pair lists that agree pair by pair hold the same relation, and one
/// repeats no pair when the other does not.
proof fn lemma_same_pairs(a: Seq<(String, String)>, b: Seq<(String, String)>)
    requires
        a.len() == b.len(),
        forall|i: int| 0 <= i < a.len() ==> (#[trigger] b[i]).0@ == a[i].0@ && b[i].1@ == a[i].1@,
    ensures
        pairs_relation(a) == pairs_relation(b),
        pairs_distinct(a) ==> pairs_distinct(b),
{
    assert forall|p: (Seq<char>, Seq<char>)| #[trigger] pairs_relation(a).contains(p) <==> pairs_relation(b).contains(p) by {
        if pairs_relation(a).contains(p) {
            let i = choose|i: int| 0 <= i < a.len() && #[trigger] a[i].0@ == p.0 && a[i].1@ == p.1;
            assert(b[i].0@ == p.0);
        }
        if pairs_relation(b).contains(p) {
            let i = choose|i: int| 0 <= i < b.len() && #[trigger] b[i].0@ == p.0 && b[i].1@ == p.1;
            assert(b[i].0@ == a[i].0@);
        }
    }
    assert(pairs_relation(a) =~= pairs_relation(b));
    if pairs_distinct(a) {
        assert forall|i: int, j: int| 0 <= i < j < b.len() implies !(#[trigger] b[i].0@ == #[trigger] b[j].0@ && b[i].1@ == b[j].1@) by {
            assert(b[i].0@ == a[i].0@);
            assert(b[j].0@ == a[j].0@);
            assert(!(a[i].0@ == a[j].0@ && a[i].1@ == a[j].1@));
        }
    }
}

/// Adds the pair (`module`, `name`) unless it is already there.
fn pairs_insert(pairs: &mut Vec<(String, String)>, module: &str, name: &str)
    requires
        pairs_distinct(old(pairs)@),
    ensures
        pairs_distinct(final(pairs)@),
        pairs_relation(final(pairs)@) == pairs_relation(old(pairs)@).insert((module@, name@)),
{
    if pairs_contains(pairs, module, name) {
        assert(pairs_relation(pairs@) =~= pairs_relation(pairs@).insert((module@, name@)));
        return;
    }
    let ghost before = pairs@;
    let m = String::from_str(module);
    let n = String::from_str(name);
    pairs.push((m, n));
    assert forall|p: (Seq<char>, Seq<char>)| #[trigger] pairs_relation(pairs@).contains(p)
        <==> pairs_relation(before).insert((module@, name@)).contains(p) by {
        if pairs_relation(before).contains(p) {
            let i = choose|i: int| 0 <= i < before.len() && #[trigger] before[i].0@ == p.0 && before[i].1@ == p.1;
            assert(pairs@[i] == before[i]);
        }
        if p == (module@, name@) {
            assert(pairs@[before.len() as int].0@ == p.0);
        }
        if pairs_relation(pairs@).contains(p) {
            let i = choose|i: int| 0 <= i < pairs@.len() && #[trigger] pairs@[i].0@ == p.0 && pairs@[i].1@ == p.1;
            if i < before.len() {
                assert(before[i] == pairs@[i]);
            }
        }
    }
    assert(pairs_relation(pairs@) =~= pairs_relation(before).insert((module@, name@)));
}

impl ManifestAuthEngine {
    pub closed spec fn wf(&self) -> bool {
        pairs_distinct(self.grants@) && pairs_distinct(self.effects@)
    }

    /// An engine that grants nothing.
    pub fn new() -> (r: Self)
        ensures
            r.wf(),
            r@ == ManifestGrants::empty(),
    {
        let r = ManifestAuthEngine { grants: Vec::new(), effects: Vec::new() };
        assert(r@.calls =~= Set::empty());
        assert(r@.effects =~= Set::empty());
        r
    }

    /// Grants `callable` (a kernel symbol) to `module`.
    pub fn grant(&mut self, module: &str, callable: &str)
        requires
            old(self).wf(),
        ensures
            final(self).wf(),
            final(self)@ == old(self)@.grant(module@, callable@),
    {
        pairs_insert(&mut self.grants, module, callable);
    }

    /// Grants `effect` (the effects namespace) to `module`.
    pub fn grant_effect(&mut self, module: &str, effect: &str)
        requires
            old(self).wf(),
        ensures
            final(self).wf(),
            final(self)@ == old(self)@.grant_effect(module@, effect@),
    {
        pairs_insert(&mut self.effects, module, effect);
    }

    /// Whether `module` holds the kernel grant `callable`.
    pub fn is_granted(&self, module: &str, callable: &str) -> (r: bool)
        ensures
            r == self@.permits_call(module@, callable@),
    {
        pairs_contains(&self.grants, module, callable)
    }

    /// Whether `module` holds the effect grant `effect`.
    pub fn is_effect_granted(&self, module: &str, effect: &str) -> (r: bool)
        ensures
            r == self@.permits_effect(module@, effect@),
    {
        pairs_contains(&self.effects, module, effect)
    }

    /// Grants every name of `names` to `module`, as kernel grants when `effects` is
    /// false and as effect grants otherwise.
    fn grant_all(&mut self, module: &str, names: &Vec<String>, effects: bool)
        requires
            old(self).wf(),
        ensures
            final(self).wf(),
            !effects ==> final(self)@ == (ManifestGrants { calls: old(self)@.calls + names_of(module@, names@), effects: old(self)@.effects }),
            effects ==> final(self)@ == (ManifestGrants { calls: old(self)@.calls, effects: old(self)@.effects + names_of(module@, names@) }),
    {
        let ghost start = self@;
        proof {
            assert(names_of(module@, names@.take(0)) =~= Set::empty());
            assert(start.calls + Set::empty() =~= start.calls);
            assert(start.effects + Set::empty() =~= start.effects);
        }
        let mut i: usize = 0;
        while i < names.len()
            invariant
                i <= names.len(),
                self.wf(),
                !effects ==> self@ == (ManifestGrants { calls: start.calls + names_of(module@, names@.take(i as int)), effects: start.effects }),
                effects ==> self@ == (ManifestGrants { calls: start.calls, effects: start.effects + names_of(module@, names@.take(i as int)) }),
            decreases names.len() - i,
        {
            if effects {
                self.grant_effect(module, names[i].as_str());
            } else {
                self.grant(module, names[i].as_str());
            }
            proof {
                lemma_names_of_take_step(module@, names@, i as int);
                if effects {
                    assert(self@.effects =~= start.effects + names_of(module@, names@.take(i + 1)));
                } else {
                    assert(self@.calls =~= start.calls + names_of(module@, names@.take(i + 1)));
                }
            }
            i = i + 1;
        }
        assert(names@.take(names@.len() as int) =~= names@);
    }

    /// The engine holding the grants of one parsed manifest: its `[grants] kernel`
    /// and `[grants] zenodo` symbols become kernel grants of the `[module] name`,
    /// and its `[grants] effects` become effect grants of that name.
    pub fn from_manifest(manifest: &ManifestToml) -> (r: Self)
        ensures
            r.wf(),
            r@.calls == names_of(manifest.module.name@, manifest.grants.kernel@) + names_of(manifest.module.name@, manifest.grants.zenodo@),
            r@.effects == names_of(manifest.module.name@, manifest.grants.effects@),
    {
        let mut r = ManifestAuthEngine::new();
        let name = manifest.module.name.as_str();
        r.grant_all(name, &manifest.grants.kernel, false);
        r.grant_all(name, &manifest.grants.zenodo, false);
        r.grant_all(name, &manifest.grants.effects, true);
        assert(r@.calls =~= names_of(manifest.module.name@, manifest.grants.kernel@) + names_of(manifest.module.name@, manifest.grants.zenodo@));
        assert(r@.effects =~= names_of(manifest.module.name@, manifest.grants.effects@));
        r
    }

    /// A second engine holding the same grants.
    pub fn duplicate(&self) -> (r: Self)
        requires
            self.wf(),
        ensures
            r.wf(),
            r@ == self@,
    {
        let grants = copy_pairs(&self.grants);
        let effects = copy_pairs(&self.effects);
        proof {
            lemma_same_pairs(self.grants@, grants@);
            lemma_same_pairs(self.effects@, effects@);
        }
        ManifestAuthEngine { grants, effects }
    }

    /// Adds every grant of `other` to this engine.
    pub fn merge(&mut self, other: Self)
        requires
            old(self).wf(),
            other.wf(),
        ensures
            final(self).wf(),
            final(self)@ == old(self)@.merge(other@),
    {
        let ghost start = self@;
        proof {
            assert(pairs_relation(other.grants@.take(0)) =~= Set::empty());
            assert(start.calls + Set::empty() =~= start.calls);
        }
        let mut i: usize = 0;
        while i < other.grants.len()
            invariant
                i <= other.grants.len(),
                self.wf(),
                self@.effects == start.effects,
                self@.calls == start.calls + pairs_relation(other.grants@.take(i as int)),
            decreases other.grants.len() - i,
        {
            let ghost prev = self@;
            self.grant(other.grants[i].0.as_str(), other.grants[i].1.as_str());
            proof {
                lemma_pairs_relation_take_step(other.grants@, i as int);
                assert(self@.calls =~= start.calls + pairs_relation(other.grants@.take(i + 1)));
            }
            i = i + 1;
        }
        assert(other.grants@.take(other.grants@.len() as int) =~= other.grants@);
        proof {
            assert(pairs_relation(other.effects@.take(0)) =~= Set::empty());
            assert(start.effects + Set::empty() =~= start.effects);
        }
        let mut j: usize = 0;
        while j < other.effects.len()
            invariant
                j <= other.effects.len(),
                self.wf(),
                self@.calls == start.calls + pairs_relation(other.grants@),
                self@.effects == start.effects + pairs_relation(other.effects@.take(j as int)),
            decreases other.effects.len() - j,
        {
            self.grant_effect(other.effects[j].0.as_str(), other.effects[j].1.as_str());
            proof {
                lemma_pairs_relation_take_step(other.effects@, j as int);
                assert(self@.effects =~= start.effects + pairs_relation(other.effects@.take(j + 1)));
            }
            j = j + 1;
        }
        assert(other.effects@.take(other.effects@.len() as int) =~= other.effects@);
        assert(self@.calls =~= start.merge(other@).calls);
        assert(self@.effects =~= start.merge(other@).effects);
    }
}

/// The engine installed in an [`AuthRegistry`].
pub enum InstalledEngine<E> {
    AllowAll(AllowAll),
    DenyAll(DenyAll),
    Engine(E),
}

impl<E: AuthorizationEngine> InstalledEngine<E> {
    pub open spec fn decision(&self, principal: Seq<char>, action: Seq<char>, resource: Seq<char>, now: u64) -> Option<Decision> {
        match self {
            InstalledEngine::AllowAll(e) => e.decision(principal, action, resource, now),
            InstalledEngine::DenyAll(e) => e.decision(principal, action, resource, now),
            InstalledEngine::Engine(e) => e.decision(principal, action, resource, now),
        }
    }

    pub open spec fn failure(&self, principal: Seq<char>, action: Seq<char>, resource: Seq<char>, now: u64) -> Seq<char> {
        match self {
            InstalledEngine::AllowAll(e) => e.failure(principal, action, resource, now),
            InstalledEngine::DenyAll(e) => e.failure(principal, action, resource, now),
            InstalledEngine::Engine(e) => e.failure(principal, action, resource, now),
        }
    }

    fn authorize_at(&self, principal: &str, action: &str, resource: &str, now: u64) -> (r: Result<Decision, String>)
        ensures
            decided(self.decision(principal@, action@, resource@, now), self.failure(principal@, action@, resource@, now), r),
    {
        match self {
            InstalledEngine::AllowAll(e) => e.authorize_at(principal, action, resource, now),
            InstalledEngine::DenyAll(e) => e.authorize_at(principal, action, resource, now),
            InstalledEngine::Engine(e) => e.authorize_at(principal, action, resource, now),
        }
    }
}

/// The process-wide authorization state: the engine deciding gated calls (none
/// until one is installed, which counts as deny-all) and the deployment
/// principal, the `[module] name` of the most recently loaded manifest.
pub struct AuthRegistry<E> {
    engine: Option<InstalledEngine<E>>,
    deployment: Option<String>,
}

impl<E: AuthorizationEngine> AuthRegistry<E> {
    /// A registry with no engine and no deployment principal.
    pub fn new() -> (r: Self)
        ensures
            !r.has_engine(),
            r.deployment() is None,
    {
        AuthRegistry { engine: None, deployment: None }
    }

    pub closed spec fn has_engine(self) -> bool {
        self.engine is Some
    }

    pub closed spec fn deployment(self) -> Option<Seq<char>> {
        match self.deployment {
            Some(d) => Some(d@),
            None => None,
        }
    }

    /// The error `check` passes on when the installed engine does not decide.
    pub closed spec fn failure(self, principal: Seq<char>, action: Seq<char>, resource: Seq<char>, now: u64) -> Seq<char> {
        match self.engine {
            Some(e) => e.failure(principal, action, resource, now),
            None => Seq::empty(),
        }
    }

    /// The decision `check` acts on; with no engine installed it is deny.
    pub closed spec fn decision(self, principal: Seq<char>, action: Seq<char>, resource: Seq<char>, now: u64) -> Option<Decision> {
        match self.engine {
            Some(e) => e.decision(principal, action, resource, now),
            None => Some(Decision::Deny),
        }
    }
}

/// The denial reported by [`check`].
pub open spec fn denied_message(principal: Seq<char>, resource: Seq<char>) -> Seq<char> {
    "UK-4001: Authorization denied \u{2014} '"@ + principal + "' is not granted '"@ + resource + "'"@
}

/// Records `name` as the deployment principal.
pub fn set_deployment_principal<E: AuthorizationEngine>(registry: &mut AuthRegistry<E>, name: String)
    ensures
        final(registry).deployment() == Some(name@),
        forall|p: Seq<char>, a: Seq<char>, r: Seq<char>, t: u64| #[trigger] final(registry).decision(p, a, r, t) == old(registry).decision(p, a, r, t),
        forall|p: Seq<char>, a: Seq<char>, r: Seq<char>, t: u64| #[trigger] final(registry).failure(p, a, r, t) == old(registry).failure(p, a, r, t),
        final(registry).has_engine() == old(registry).has_engine(),
{
    registry.deployment = Some(name);
}

/// The deployment principal, if one was recorded.
pub fn deployment_principal<E: AuthorizationEngine>(registry: &AuthRegistry<E>) -> (r: Option<String>)
    ensures
        r is Some <==> registry.deployment() is Some,
        r matches Some(s) ==> registry.deployment() == Some(s@),
{
    match &registry.deployment {
        Some(d) => Some(d.clone()),
        None => None,
    }
}

/// Installs `engine` as the engine deciding every later check.
pub fn set_auth_engine<E: AuthorizationEngine>(registry: &mut AuthRegistry<E>, engine: E)
    ensures
        final(registry).has_engine(),
        forall|p: Seq<char>, a: Seq<char>, r: Seq<char>, t: u64| #[trigger] final(registry).decision(p, a, r, t) == engine.decision(p, a, r, t),
        forall|p: Seq<char>, a: Seq<char>, r: Seq<char>, t: u64| #[trigger] final(registry).failure(p, a, r, t) == engine.failure(p, a, r, t),
        final(registry).deployment() == old(registry).deployment(),
{
    registry.engine = Some(InstalledEngine::Engine(engine));
}

/// Installs the deny-all engine.
pub fn set_deny_all<E: AuthorizationEngine>(registry: &mut AuthRegistry<E>)
    ensures
        final(registry).has_engine(),
        forall|p: Seq<char>, a: Seq<char>, r: Seq<char>, t: u64| #[trigger] final(registry).decision(p, a, r, t) == Some(Decision::Deny),
        final(registry).deployment() == old(registry).deployment(),
{
    registry.engine = Some(InstalledEngine::DenyAll(DenyAll));
}

/// Installs the allow-all engine (authorization checks disabled).
pub fn set_allow_all<E: AuthorizationEngine>(registry: &mut AuthRegistry<E>)
    ensures
        final(registry).has_engine(),
        forall|p: Seq<char>, a: Seq<char>, r: Seq<char>, t: u64| #[trigger] final(registry).decision(p, a, r, t) == Some(Decision::Allow),
        final(registry).deployment() == old(registry).deployment(),
{
    registry.engine = Some(InstalledEngine::AllowAll(AllowAll));
}

/// The outcome `check` gives for a query the registry decides as `decision`,
/// or fails with `failure`: allowed is `Ok`, denied is the UK-4001 denial
/// naming the principal and the resource, an engine error is passed on.
pub open spec fn checked(decision: Option<Decision>, failure: Seq<char>, principal: Seq<char>, resource: Seq<char>, r: Result<(), String>) -> bool {
    match decision {
        Some(Decision::Allow) => r is Ok,
        Some(Decision::Deny) => r matches Err(m) && m@ == denied_message(principal, resource),
        None => r matches Err(m) && m@ == failure,
    }
}

/// Checks at time `now` whether `principal` may perform `action` on
/// `resource`; see [`checked`]. With no engine installed the deny-all engine
/// is installed first, so the request is denied.
pub fn check_at<E: AuthorizationEngine>(registry: &mut AuthRegistry<E>, principal: &str, action: &str, resource: &str, now: u64) -> (r: Result<(), String>)
    ensures
        checked(old(registry).decision(principal@, action@, resource@, now), old(registry).failure(principal@, action@, resource@, now),
            principal@, resource@, r),
        final(registry).has_engine(),
        old(registry).has_engine() ==> forall|p: Seq<char>, a: Seq<char>, q: Seq<char>, t: u64| #[trigger] final(registry).decision(p, a, q, t) == old(registry).decision(p, a, q, t),
        !old(registry).has_engine() ==> forall|p: Seq<char>, a: Seq<char>, q: Seq<char>, t: u64| #[trigger] final(registry).decision(p, a, q, t) == Some(Decision::Deny),
        forall|p: Seq<char>, a: Seq<char>, q: Seq<char>, t: u64| #[trigger] final(registry).failure(p, a, q, t) == old(registry).failure(p, a, q, t),
        final(registry).deployment() == old(registry).deployment(),
{
    if registry.engine.is_none() {
        registry.engine = Some(InstalledEngine::DenyAll(DenyAll));
    }
    let outcome = match &registry.engine {
        Some(e) => e.authorize_at(principal, action, resource, now),
        None => Ok(Decision::Deny),
    };
    match outcome {
        Ok(Decision::Allow) => Ok(()),
        Ok(Decision::Deny) => {
            let mut m = String::from_str("UK-4001: Authorization denied \u{2014} '");
            m.append(principal);
            m.append("' is not granted '");
            m.append(resource);
            m.append("'");
            assert(m@ =~= denied_message(principal@, resource@));
            Err(m)
        },
        Err(e) => Err(e),
    }
}

/// Checks now, by the system clock, whether `principal` may perform `action`
/// on `resource`: [`check_at`] at the clock's reading.
pub fn check<E: AuthorizationEngine>(registry: &mut AuthRegistry<E>, principal: &str, action: &str, resource: &str) -> (r: Result<(), String>)
    ensures
        exists|now: u64| checked(#[trigger] old(registry).decision(principal@, action@, resource@, now),
            old(registry).failure(principal@, action@, resource@, now), principal@, resource@, r),
        final(registry).has_engine(),
        old(registry).has_engine() ==> forall|p: Seq<char>, a: Seq<char>, q: Seq<char>, t: u64| #[trigger] final(registry).decision(p, a, q, t) == old(registry).decision(p, a, q, t),
        !old(registry).has_engine() ==> forall|p: Seq<char>, a: Seq<char>, q: Seq<char>, t: u64| #[trigger] final(registry).decision(p, a, q, t) == Some(Decision::Deny),
        forall|p: Seq<char>, a: Seq<char>, q: Seq<char>, t: u64| #[trigger] final(registry).failure(p, a, q, t) == old(registry).failure(p, a, q, t),
        final(registry).deployment() == old(registry).deployment(),
{
    let now = clock_secs();
    let ghost before = *registry;
    let r = check_at(registry, principal, action, resource, now);
    assert(checked(before.decision(principal@, action@, resource@, now), before.failure(principal@, action@, resource@, now), principal@, resource@, r));
    r
}

/// The pairs (`module`, n) for every name n in `names`.
pub open spec fn names_of(module: Seq<char>, names: Seq<String>) -> Set<(Seq<char>, Seq<char>)> {
    Set::new(|p: (Seq<char>, Seq<char>)| p.0 == module && exists|i: int| 0 <= i < names.len() && #[trigger] names[i]@ == p.1)
}

proof fn lemma_names_of_take_step(module: Seq<char>, names: Seq<String>, i: int)
    requires
        0 <= i < names.len(),
    ensures
        names_of(module, names.take(i + 1)) == names_of(module, names.take(i)).insert((module, names[i]@)),
{
    let a = names.take(i + 1);
    let b = names.take(i);
    assert forall|p: (Seq<char>, Seq<char>)| #[trigger] names_of(module, a).contains(p)
        <==> names_of(module, b).insert((module, names[i]@)).contains(p) by {
        if names_of(module, a).contains(p) {
            let k = choose|k: int| 0 <= k < a.len() && #[trigger] a[k]@ == p.1;
            if k < i {
                assert(b[k] == a[k]);
            }
        }
        if names_of(module, b).contains(p) {
            let k = choose|k: int| 0 <= k < b.len() && #[trigger] b[k]@ == p.1;
            assert(a[k] == b[k]);
        }
        if p == (module, names[i]@) {
            assert(a[i] == names[i]);
        }
    }
    assert(names_of(module, a) =~= names_of(module, b).insert((module, names[i]@)));
}

/// Taking one more pair adds exactly that pair to the relation.
proof fn lemma_pairs_relation_take_step(pairs: Seq<(String, String)>, i: int)
    requires
        0 <= i < pairs.len(),
    ensures
        pairs_relation(pairs.take(i + 1)) == pairs_relation(pairs.take(i)).insert((pairs[i].0@, pairs[i].1@)),
{
    let a = pairs.take(i + 1);
    let b = pairs.take(i);
    assert forall|p: (Seq<char>, Seq<char>)| #[trigger] pairs_relation(a).contains(p)
        <==> pairs_relation(b).insert((pairs[i].0@, pairs[i].1@)).contains(p) by {
        if pairs_relation(a).contains(p) {
            let k = choose|k: int| 0 <= k < a.len() && #[trigger] a[k].0@ == p.0 && a[k].1@ == p.1;
            if k < i {
                assert(b[k] == a[k]);
            }
        }
        if pairs_relation(b).contains(p) {
            let k = choose|k: int| 0 <= k < b.len() && #[trigger] b[k].0@ == p.0 && b[k].1@ == p.1;
            assert(a[k] == b[k]);
        }
        if p == (pairs[i].0@, pairs[i].1@) {
            assert(a[i] == pairs[i]);
        }
    }
    assert(pairs_relation(a) =~= pairs_relation(b).insert((pairs[i].0@, pairs[i].1@)));
}

} // verus!

verus! {

/// A granted kernel symbol is permitted: after `grant(m, c)` the module `m` may
/// `Call` `c`.
pub proof fn law_grant_permits_call(g: ManifestGrants, module: Seq<char>, callable: Seq<char>)
    ensures
        g.grant(module, callable).permits_call(module, callable),
        g.grant(module, callable).decide(module, "Call"@, callable) == Decision::Allow,
{
}

/// Grants only add: whatever was permitted stays permitted after another grant
/// of either kind, and after a merge.
pub proof fn law_grants_only_add(g: ManifestGrants, h: ManifestGrants, m: Seq<char>, n: Seq<char>, p: Seq<char>, r: Seq<char>)
    ensures
        g.permits_call(p, r) ==> g.grant(m, n).permits_call(p, r) && g.grant_effect(m, n).permits_call(p, r)
            && g.merge(h).permits_call(p, r),
        g.permits_effect(p, r) ==> g.grant(m, n).permits_effect(p, r) && g.grant_effect(m, n).permits_effect(p, r)
            && g.merge(h).permits_effect(p, r),
{
}

/// The two grant namespaces are separate: an effect grant never permits a
/// kernel call, and a kernel grant never permits an effect.
pub proof fn law_grant_namespaces_are_separate(g: ManifestGrants, m: Seq<char>, n: Seq<char>, p: Seq<char>, r: Seq<char>)
    ensures
        g.grant_effect(m, n).permits_call(p, r) == g.permits_call(p, r),
        g.grant(m, n).permits_effect(p, r) == g.permits_effect(p, r),
{
}

/// Merging two engines' grants permits exactly what either permitted.
pub proof fn law_merge_is_union(a: ManifestGrants, b: ManifestGrants, p: Seq<char>, r: Seq<char>)
    ensures
        a.merge(b).permits_call(p, r) == (a.permits_call(p, r) || b.permits_call(p, r)),
        a.merge(b).permits_effect(p, r) == (a.permits_effect(p, r) || b.permits_effect(p, r)),
{
}

/// The manifest engine allows only `Call` and `Effect` requests, each by its own
/// namespace, and nothing for a module without grants.
pub proof fn law_manifest_decision(g: ManifestGrants, p: Seq<char>, a: Seq<char>, r: Seq<char>)
    ensures
        g.decide(p, a, r) == Decision::Allow ==> (a == "Call"@ && g.permits_call(p, r))
            || (a == "Effect"@ && g.permits_effect(p, r)),
        ManifestGrants::empty().decide(p, a, r) == Decision::Deny,
{
}

/// With no engine installed every request is denied.
pub proof fn law_no_engine_denies<E: AuthorizationEngine>(reg: AuthRegistry<E>, p: Seq<char>, a: Seq<char>, r: Seq<char>, now: u64)
    requires
        !reg.has_engine(),
    ensures
        reg.decision(p, a, r, now) == Some(Decision::Deny),
{
}

} // verus!

verus! {

/// What reading an authorization manifest from the TOML document `v` gives:
/// `[module]` must be a table with a string `name`; `[grants]`, when present,
/// a table whose `kernel`, `effects` and `zenodo` lists, when present, hold
/// strings only. Other keys are ignored.
pub open spec fn manifest_toml_reads(v: TomlValue, r: Result<ManifestToml, String>) -> bool {
    let module = toml_get(v, "module"@);
    let grants = toml_get(v, "grants"@);
    match module {
        None => r matches Err(e) && e@ == "missing field `module`"@,
        Some(m) => if !(m is Table) {
            r matches Err(e) && e@ == "invalid type for `module`"@
        } else {
            match toml_get(m, "name"@) {
                None => r matches Err(e) && e@ == "missing field `name`"@,
                Some(TomlValue::String(name)) => if grants is Some && !(grants->0 is Table) {
                    r matches Err(e) && e@ == "invalid type for `grants`"@
                } else {
                    match (
                        toml_string_list(toml_get_opt(grants, "kernel"@)),
                        toml_string_list(toml_get_opt(grants, "effects"@)),
                        toml_string_list(toml_get_opt(grants, "zenodo"@)),
                    ) {
                        (None, _, _) => r matches Err(e) && e@ == "invalid type for `kernel`"@,
                        (Some(_), None, _) => r matches Err(e) && e@ == "invalid type for `effects`"@,
                        (Some(_), Some(_), None) => r matches Err(e) && e@ == "invalid type for `zenodo`"@,
                        (Some(k), Some(ef), Some(z)) => r matches Ok(mt) && mt.module.name@ == name@
                            && strings(mt.grants.kernel@) == k && strings(mt.grants.effects@) == ef
                            && strings(mt.grants.zenodo@) == z,
                    }
                },
                Some(_) => r matches Err(e) && e@ == "invalid type for `name`"@,
            }
        },
    }
}

impl ManifestToml {
    /// Reads an authorization manifest from its parsed TOML document; see
    /// [`manifest_toml_reads`].
    pub fn from_toml_value(v: &TomlValue) -> (r: Result<Self, String>)
        ensures
            manifest_toml_reads(*v, r),
    {
        let root = Some(v);
        let module = get(root, "module");
        let m = match module {
            None => return Err(String::from_str("missing field `module`")),
            Some(m) => m,
        };
        match m {
            TomlValue::Table(_) => {},
            _ => return Err(String::from_str("invalid type for `module`")),
        }
        let name = match get(module, "name") {
            None => return Err(String::from_str("missing field `name`")),
            Some(TomlValue::String(n)) => n.clone(),
            Some(_) => return Err(String::from_str("invalid type for `name`")),
        };
        let grants = get(root, "grants");
        match grants {
            Some(TomlValue::Table(_)) => {},
            None => {},
            Some(_) => return Err(String::from_str("invalid type for `grants`")),
        }
        let kernel = match as_string_list(get(grants, "kernel")) {
            Some(l) => l,
            None => return Err(String::from_str("invalid type for `kernel`")),
        };
        let effects = match as_string_list(get(grants, "effects")) {
            Some(l) => l,
            None => return Err(String::from_str("invalid type for `effects`")),
        };
        let zenodo = match as_string_list(get(grants, "zenodo")) {
            Some(l) => l,
            None => return Err(String::from_str("invalid type for `zenodo`")),
        };
        Ok(ManifestToml { module: ModuleToml { name }, grants: GrantsToml { kernel, effects, zenodo } })
    }
}

/// The deployment principal a manifest names: the string `name` of its
/// `[module]` table, or the empty string when the text is not TOML or names no
/// module that way.
pub open spec fn principal_named(text: Seq<char>) -> Seq<char> {
    match toml_document(text) {
        Ok(v) => match toml_get(v, "module"@) {
            Some(m) => match toml_get(m, "name"@) {
                Some(TomlValue::String(n)) => n@,
                _ => Seq::empty(),
            },
            None => Seq::empty(),
        },
        Err(_) => Seq::empty(),
    }
}

/// The deployment principal of the manifest `s`; see [`principal_named`].
pub fn manifest_principal(s: &str) -> (r: String)
    ensures
        r@ == principal_named(s@),
{
    let v = match parse_toml(s) {
        Ok(v) => v,
        Err(_) => return String::new(),
    };
    let root = Some(&v);
    let module = get(root, "module");
    match get(module, "name") {
        Some(TomlValue::String(n)) => n.clone(),
        _ => String::new(),
    }
}

/// `TOML parse error: ` followed by `e`.
fn toml_error(e: &str) -> (r: String)
    ensures
        r@ == "TOML parse error: "@ + e@,
{
    let mut m = String::from_str("TOML parse error: ");
    m.append(e);
    m
}

impl ManifestAuthEngine {
    /// Parses an authorization manifest and returns the engine holding its
    /// grants (see [`ManifestAuthEngine::from_manifest`]); a syntax error or a
    /// manifest that does not read (see [`manifest_toml_reads`]) is reported as
    /// `TOML parse error: …`.
    pub fn from_toml_str(s: &str) -> (r: Result<Self, String>)
        ensures
            match toml_document(s@) {
                Err(m) => r matches Err(e) && e@ == "TOML parse error: "@ + m,
                Ok(v) => exists|read: Result<ManifestToml, String>| #[trigger] manifest_toml_reads(v, read) && match read {
                    Err(m) => r matches Err(e) && e@ == "TOML parse error: "@ + m@,
                    Ok(mt) => r matches Ok(engine) && engine.wf()
                        && engine@.calls == names_of(mt.module.name@, mt.grants.kernel@) + names_of(mt.module.name@, mt.grants.zenodo@)
                        && engine@.effects == names_of(mt.module.name@, mt.grants.effects@),
                },
            },
    {
        let v = match parse_toml(s) {
            Ok(v) => v,
            Err(e) => return Err(toml_error(e.as_str())),
        };
        let read = ManifestToml::from_toml_value(&v);
        match read {
            Ok(mt) => Ok(Self::from_manifest(&mt)),
            Err(e) => Err(toml_error(e.as_str())),
        }
    }
}

} // verus!

verus! {

/// A manifest's grants are exactly its lists: the module it names may `Call`
/// the symbols of its `kernel` and `zenodo` lists and submit the effects of
/// its `effects` list, and no other module holds any grant from it.
pub proof fn law_manifest_grants_are_its_lists(
    name: Seq<char>,
    kernel: Seq<String>,
    zenodo: Seq<String>,
    effects: Seq<String>,
    m: Seq<char>,
    x: Seq<char>,
)
    ensures
        (names_of(name, kernel) + names_of(name, zenodo)).contains((m, x))
            <==> (m == name && (strings(kernel).contains(x) || strings(zenodo).contains(x))),
        names_of(name, effects).contains((m, x)) <==> (m == name && strings(effects).contains(x)),
{
    lemma_names_of_contains(name, kernel, m, x);
    lemma_names_of_contains(name, zenodo, m, x);
    lemma_names_of_contains(name, effects, m, x);
}

proof fn lemma_names_of_contains(name: Seq<char>, v: Seq<String>, m: Seq<char>, x: Seq<char>)
    ensures
        names_of(name, v).contains((m, x)) <==> (m == name && strings(v).contains(x)),
{
    if names_of(name, v).contains((m, x)) {
        let i = choose|i: int| 0 <= i < v.len() && #[trigger] v[i]@ == x;
        assert(strings(v)[i] == x);
    }
    if m == name && strings(v).contains(x) {
        let i = choose|i: int| 0 <= i < strings(v).len() && strings(v)[i] == x;
        assert(v[i]@ == x);
    }
}

} // verus!
