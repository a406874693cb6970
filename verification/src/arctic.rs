//! Authorization by threshold-signed delegation certificates: a registry of
//! certificates whose signatures were checked against the authority's group
//! key when they were registered, and the per-call check of a certificate's
//! expiry and capabilities.

use vstd::prelude::*;
use vstd::string::*;
use crate::text::{chars_of, chars_eq, contains_str, strings};
use crate::auth::{AuthorizationEngine, Decision};

verus! {

/// The outcome of a certificate check.
#[derive(Debug, Clone, Copy, PartialEq, Eq, Structural)]
pub enum AuthzResult {
    Allow,
    Deny,
}

/// Why a group key or a certificate was refused.
#[derive(Debug, Clone, Copy, PartialEq, Eq, Structural)]
pub enum ArcticAuthError {
    BadSignature,
    BadGroupKey,
}

impl ArcticAuthError {
    pub open spec fn spec_message(self) -> Seq<char> {
        match self {
            ArcticAuthError::BadSignature => "delegation certificate failed threshold-signature verification"@,
            ArcticAuthError::BadGroupKey => "group public key bytes are not a valid Ristretto point"@,
        }
    }

    /// The error's description.
    pub fn message(&self) -> (r: String)
        ensures
            r@ == self.spec_message(),
    {
        match self {
            ArcticAuthError::BadSignature => String::from_str("delegation certificate failed threshold-signature verification"),
            ArcticAuthError::BadGroupKey => String::from_str("group public key bytes are not a valid Ristretto point"),
        }
    }
}

#[verifier::external_type_specification]
#[verifier::external_body]
pub struct ExRistrettoPoint(curve25519_dalek::ristretto::RistrettoPoint);

/// Whether `CompressedRistretto::decompress` accepts the 32 bytes `b` as the
/// encoding of a Ristretto point.
pub uninterp spec fn ristretto_decompresses(b: Seq<u8>) -> bool;

/// The 32 bytes of the canonical encoding of the Ristretto point `p` (what
/// `RistrettoPoint::compress` gives for it).
pub uninterp spec fn ristretto_encoding(p: curve25519_dalek::ristretto::RistrettoPoint) -> Seq<u8>;

/// `CompressedRistretto::decompress`: the point encoded by `bytes`. Claimed: it
/// is found exactly when the named `ristretto_decompresses` holds of the bytes,
/// and, as `decompress` accepts only canonical encodings, the point found is
/// encoded by exactly these bytes.
#[verifier::external_body]
fn decompress_ristretto(bytes: [u8; 32]) -> (r: Option<curve25519_dalek::ristretto::RistrettoPoint>)
    ensures
        r is Some <==> ristretto_decompresses(bytes@),
        r matches Some(p) ==> ristretto_encoding(p) == bytes@,
{
    curve25519_dalek::ristretto::CompressedRistretto(bytes).decompress()
}

/// Decompresses a 32-byte Ristretto point (a group's published public key).
pub fn group_pk_from_bytes(bytes: &[u8; 32]) -> (r: Result<curve25519_dalek::ristretto::RistrettoPoint, ArcticAuthError>)
    ensures
        r is Ok <==> ristretto_decompresses(bytes@),
        r matches Ok(p) ==> ristretto_encoding(p) == bytes@,
        r is Err ==> r == Err::<curve25519_dalek::ristretto::RistrettoPoint, ArcticAuthError>(ArcticAuthError::BadGroupKey),
{
    match decompress_ristretto(*bytes) {
        Some(p) => Ok(p),
        None => Err(ArcticAuthError::BadGroupKey),
    }
}

#[verifier::external_type_specification]
#[verifier::external_body]
pub struct ExSystemTime(std::time::SystemTime);

/// `SystemTime::now`: the system clock's reading. Nothing is claimed of it.
#[verifier::external_body]
fn system_now() -> std::time::SystemTime {
    std::time::SystemTime::now()
}

/// `SystemTime::duration_since(UNIX_EPOCH)` in whole seconds, `None` for a time
/// before the epoch. Nothing is claimed of the value: it is the clock's.
#[verifier::external_body]
fn secs_since_epoch(t: std::time::SystemTime) -> Option<u64> {
    t.duration_since(std::time::UNIX_EPOCH).ok().map(|d| d.as_secs())
}

/// The system clock in seconds since the Unix epoch; a clock set before the
/// epoch reads as `u64::MAX`, the latest time. Nothing is claimed of the
/// reading: it is the clock's.
pub fn clock_secs() -> u64 {
    match secs_since_epoch(system_now()) {
        Some(now) => now,
        None => u64::MAX,
    }
}

/// A delegation certificate: the authority `issuer_did` grants the holder of
/// `delegatee_pk` the `capabilities` until `expires_at` (Unix seconds).
#[derive(Debug, Clone)]
pub struct DelegationCertificate {
    pub issuer_did: String,
    pub delegatee_pk: String,
    pub expires_at: u64,
    pub capabilities: Vec<String>,
}

/// Whether `cert`, checked at time `now`, authorizes `action` on `resource`:
/// only `Call` is authorized, by an unexpired certificate that lists the
/// resource or the wildcard `*`.
pub open spec fn cert_authorizes(cert: DelegationCertificate, action: Seq<char>, resource: Seq<char>, now: u64) -> bool {
    &&& action == "Call"@
    &&& now < cert.expires_at
    &&& (strings(cert.capabilities@).contains(resource) || strings(cert.capabilities@).contains("*"@))
}

/// The certificate registered for `pk` in `certs`, the first with that key.
pub open spec fn cert_for(certs: Seq<DelegationCertificate>, pk: Seq<char>) -> Option<DelegationCertificate>
    decreases certs.len(),
{
    if certs.len() == 0 {
        None
    } else if certs[0].delegatee_pk@ == pk {
        Some(certs[0])
    } else {
        cert_for(certs.drop_first(), pk)
    }
}

/// A registry of verified delegation certificates, one per delegatee.
pub struct ArcticAuthEngine {
    group_pk: curve25519_dalek::ristretto::RistrettoPoint,
    certs: Vec<DelegationCertificate>,
}

impl ArcticAuthEngine {
    /// No delegatee has two certificates.
    pub closed spec fn wf(self) -> bool {
        forall|i: int, j: int| 0 <= i < j < self.certs@.len() ==> (#[trigger] self.certs@[i]).delegatee_pk@ != (#[trigger] self.certs@[j]).delegatee_pk@
    }

    /// The certificate registered for the delegatee `pk`.
    pub closed spec fn certificate(self, pk: Seq<char>) -> Option<DelegationCertificate> {
        cert_for(self.certs@, pk)
    }

    /// The check's verdict at time `now`.
    pub open spec fn verdict(self, principal: Seq<char>, action: Seq<char>, resource: Seq<char>, now: u64) -> AuthzResult {
        match self.certificate(principal) {
            Some(c) => if cert_authorizes(c, action, resource, now) { AuthzResult::Allow } else { AuthzResult::Deny },
            None => AuthzResult::Deny,
        }
    }

    /// The authority's group public key, against which certificates are verified.
    pub closed spec fn group_key(self) -> curve25519_dalek::ristretto::RistrettoPoint {
        self.group_pk
    }

    /// An engine for the group key `group_pk` with no certificates.
    pub fn new(group_pk: curve25519_dalek::ristretto::RistrettoPoint) -> (r: Self)
        ensures
            r.wf(),
            r.group_key() == group_pk,
            forall|pk: Seq<char>| #[trigger] r.certificate(pk) is None,
    {
        ArcticAuthEngine { group_pk, certs: Vec::new() }
    }

    /// The authority's group public key.
    pub fn group_pk(&self) -> (r: &curve25519_dalek::ristretto::RistrettoPoint)
        ensures
            *r == self.group_key(),
    {
        &self.group_pk
    }

    fn position(&self, pk: &str) -> (r: Option<usize>)
        ensures
            match r {
                Some(i) => i < self.certs@.len() && self.certs@[i as int].delegatee_pk@ == pk@
                    && self.certificate(pk@) == Some(self.certs@[i as int])
                    && forall|j: int| 0 <= j < i ==> (#[trigger] self.certs@[j]).delegatee_pk@ != pk@,
                None => self.certificate(pk@) is None
                    && forall|j: int| 0 <= j < self.certs@.len() ==> (#[trigger] self.certs@[j]).delegatee_pk@ != pk@,
            },
    {
        let target = chars_of(pk);
        let mut i: usize = 0;
        assert(self.certs@.subrange(0, self.certs@.len() as int) =~= self.certs@);
        while i < self.certs.len()
            invariant
                i <= self.certs.len(),
                target@ == pk@,
                forall|j: int| 0 <= j < i ==> (#[trigger] self.certs@[j]).delegatee_pk@ != pk@,
                cert_for(self.certs@, pk@) == cert_for(self.certs@.subrange(i as int, self.certs@.len() as int), pk@),
            decreases self.certs.len() - i,
        {
            let ghost tail = self.certs@.subrange(i as int, self.certs@.len() as int);
            assert(tail.drop_first() =~= self.certs@.subrange(i + 1, self.certs@.len() as int));
            assert(tail[0] == self.certs@[i as int]);
            let c = chars_of(self.certs[i].delegatee_pk.as_str());
            if chars_eq(&c, &target) {
                return Some(i);
            }
            i = i + 1;
        }
        None
    }

    /// Registers `cert` for its delegatee, replacing the delegatee's earlier
    /// certificate, provided the threshold signature over it verified against
    /// the group key (`signature_valid`); otherwise refuses it with
    /// `BadSignature` and changes nothing.
    pub fn register_certificate(&mut self, cert: DelegationCertificate, signature_valid: bool) -> (r: Result<(), ArcticAuthError>)
        requires
            old(self).wf(),
        ensures
            final(self).wf(),
            !signature_valid ==> r == Err::<(), ArcticAuthError>(ArcticAuthError::BadSignature)
                && forall|pk: Seq<char>| #[trigger] final(self).certificate(pk) == old(self).certificate(pk),
            signature_valid ==> r is Ok && final(self).certificate(cert.delegatee_pk@) == Some(cert)
                && forall|pk: Seq<char>| pk != cert.delegatee_pk@ ==> #[trigger] final(self).certificate(pk) == old(self).certificate(pk),
    {
        if !signature_valid {
            return Err(ArcticAuthError::BadSignature);
        }
        let ghost c = cert;
        let ghost before = self.certs@;
        match self.position(cert.delegatee_pk.as_str()) {
            Some(i) => {
                self.certs.set(i, cert);
                proof {
                    assert forall|pk: Seq<char>| #[trigger] cert_for(self.certs@, pk) == (if pk == c.delegatee_pk@ { Some(c) } else { cert_for(before, pk) }) by {
                        lemma_cert_for_update(before, i as int, c, pk);
                    }
                    assert forall|a: int, b: int| 0 <= a < b < self.certs@.len()
                        implies (#[trigger] self.certs@[a]).delegatee_pk@ != (#[trigger] self.certs@[b]).delegatee_pk@ by {
                        assert(self.certs@[a].delegatee_pk@ == before[a].delegatee_pk@);
                        assert(self.certs@[b].delegatee_pk@ == before[b].delegatee_pk@);
                    }
                }
            },
            None => {
                self.certs.push(cert);
                proof {
                    assert forall|pk: Seq<char>| #[trigger] cert_for(self.certs@, pk) == (match cert_for(before, pk) {
                        Some(x) => Some(x),
                        None => if pk == c.delegatee_pk@ { Some(c) } else { None },
                    }) by {
                        lemma_cert_for_push(before, c, pk);
                    }
                    assert forall|a: int, b: int| 0 <= a < b < self.certs@.len()
                        implies (#[trigger] self.certs@[a]).delegatee_pk@ != (#[trigger] self.certs@[b]).delegatee_pk@ by {
                        assert(self.certs@[a] == before[a]);
                        if b < before.len() {
                            assert(self.certs@[b] == before[b]);
                        }
                    }
                }
            },
        }
        Ok(())
    }

    /// Removes the delegatee's certificate, if any.
    pub fn revoke(&mut self, delegatee_pk: &str)
        requires
            old(self).wf(),
        ensures
            final(self).wf(),
            final(self).certificate(delegatee_pk@) is None,
            forall|pk: Seq<char>| pk != delegatee_pk@ ==> #[trigger] final(self).certificate(pk) == old(self).certificate(pk),
    {
        let ghost before = self.certs@;
        match self.position(delegatee_pk) {
            Some(i) => {
                self.certs.remove(i);
                proof {
                    assert forall|pk: Seq<char>| pk != delegatee_pk@ implies #[trigger] cert_for(self.certs@, pk) == cert_for(before, pk) by {
                        lemma_cert_for_remove(before, i as int, pk);
                    }
                    lemma_cert_for_remove_only(before, i as int, delegatee_pk@);
                    let tail = before.subrange(i + 1, before.len() as int);
                    assert forall|j: int| 0 <= j < tail.len() implies (#[trigger] tail[j]).delegatee_pk@ != delegatee_pk@ by {
                        assert(tail[j] == before[i + 1 + j]);
                    }
                    lemma_cert_for_absent(tail, delegatee_pk@);
                    assert forall|a: int, b: int| 0 <= a < b < self.certs@.len()
                        implies (#[trigger] self.certs@[a]).delegatee_pk@ != (#[trigger] self.certs@[b]).delegatee_pk@ by {
                        let a0 = if a < i { a } else { a + 1 };
                        let b0 = if b < i { b } else { b + 1 };
                        assert(self.certs@[a] == before[a0]);
                        assert(self.certs@[b] == before[b0]);
                    }
                }
            },
            None => {},
        }
    }

    /// The check at time `now`; see [`ArcticAuthEngine::verdict`].
    pub fn check_at(&self, principal: &str, action: &str, resource: &str, now: u64) -> (r: AuthzResult)
        ensures
            r == self.verdict(principal@, action@, resource@, now),
    {
        let a = chars_of(action);
        let call = chars_of("Call");
        if !chars_eq(&a, &call) {
            return AuthzResult::Deny;
        }
        let i = match self.position(principal) {
            Some(i) => i,
            None => return AuthzResult::Deny,
        };
        let cert = &self.certs[i];
        if now >= cert.expires_at {
            return AuthzResult::Deny;
        }
        if contains_str(&cert.capabilities, resource) || contains_str(&cert.capabilities, "*") {
            AuthzResult::Allow
        } else {
            AuthzResult::Deny
        }
    }

    /// Whether `principal` (a delegatee's public key) may perform `action` on
    /// `resource` now, by the system clock; see [`ArcticAuthEngine::verdict`].
    /// A clock that reads before the Unix epoch reads as the latest time, when
    /// every certificate has expired.
    pub fn check(&self, principal: &str, action: &str, resource: &str) -> (r: AuthzResult)
        ensures
            exists|now: u64| r == self.verdict(principal@, action@, resource@, now),
    {
        self.check_at(principal, action, resource, clock_secs())
    }
}

proof fn lemma_cert_for_update(s: Seq<DelegationCertificate>, i: int, c: DelegationCertificate, pk: Seq<char>)
    requires
        0 <= i < s.len(),
        s[i].delegatee_pk@ == c.delegatee_pk@,
        forall|j: int| 0 <= j < i ==> (#[trigger] s[j]).delegatee_pk@ != c.delegatee_pk@,
    ensures
        cert_for(s.update(i, c), pk) == (if pk == c.delegatee_pk@ { Some(c) } else { cert_for(s, pk) }),
    decreases i,
{
    let t = s.update(i, c);
    if i == 0 {
        assert(t.drop_first() =~= s.drop_first());
    } else {
        assert(t.drop_first() =~= s.drop_first().update(i - 1, c));
        assert forall|j: int| 0 <= j < i - 1 implies (#[trigger] s.drop_first()[j]).delegatee_pk@ != c.delegatee_pk@ by {
            assert(s.drop_first()[j] == s[j + 1]);
        }
        lemma_cert_for_update(s.drop_first(), i - 1, c, pk);
    }
}

proof fn lemma_cert_for_push(s: Seq<DelegationCertificate>, c: DelegationCertificate, pk: Seq<char>)
    ensures
        cert_for(s.push(c), pk) == (match cert_for(s, pk) {
            Some(x) => Some(x),
            None => if pk == c.delegatee_pk@ { Some(c) } else { None },
        }),
    decreases s.len(),
{
    if s.len() > 0 {
        assert(s.push(c).drop_first() =~= s.drop_first().push(c));
        assert(s.push(c)[0] == s[0]);
        lemma_cert_for_push(s.drop_first(), c, pk);
    } else {
        assert(s.push(c)[0] == c);
        assert(s.push(c).drop_first() =~= Seq::<DelegationCertificate>::empty());
        assert(cert_for(Seq::<DelegationCertificate>::empty(), pk) is None);
        assert(cert_for(s, pk) is None);
    }
}

proof fn lemma_cert_for_remove(s: Seq<DelegationCertificate>, i: int, pk: Seq<char>)
    requires
        0 <= i < s.len(),
        s[i].delegatee_pk@ != pk,
    ensures
        cert_for(s.remove(i), pk) == cert_for(s, pk),
    decreases i,
{
    if i == 0 {
        assert(s.remove(0) =~= s.drop_first());
    } else {
        assert(s.remove(i).drop_first() =~= s.drop_first().remove(i - 1));
        assert(s.remove(i)[0] == s[0]);
        lemma_cert_for_remove(s.drop_first(), i - 1, pk);
    }
}

proof fn lemma_cert_for_absent(s: Seq<DelegationCertificate>, pk: Seq<char>)
    requires
        forall|j: int| 0 <= j < s.len() ==> (#[trigger] s[j]).delegatee_pk@ != pk,
    ensures
        cert_for(s, pk) is None,
    decreases s.len(),
{
    if s.len() > 0 {
        assert(s[0].delegatee_pk@ != pk);
        assert forall|j: int| 0 <= j < s.drop_first().len() implies (#[trigger] s.drop_first()[j]).delegatee_pk@ != pk by {
            assert(s.drop_first()[j] == s[j + 1]);
        }
        lemma_cert_for_absent(s.drop_first(), pk);
    }
}

proof fn lemma_cert_for_remove_only(s: Seq<DelegationCertificate>, i: int, pk: Seq<char>)
    requires
        0 <= i < s.len(),
        s[i].delegatee_pk@ == pk,
        forall|j: int| 0 <= j < i ==> (#[trigger] s[j]).delegatee_pk@ != pk,
    ensures
        cert_for(s.remove(i), pk) == cert_for(s.subrange(i + 1, s.len() as int), pk),
    decreases i,
{
    if i == 0 {
        assert(s.remove(0) =~= s.subrange(1, s.len() as int));
    } else {
        assert(s.remove(i).drop_first() =~= s.drop_first().remove(i - 1));
        assert(s.remove(i)[0] == s[0]);
        assert forall|j: int| 0 <= j < i - 1 implies (#[trigger] s.drop_first()[j]).delegatee_pk@ != pk by {
            assert(s.drop_first()[j] == s[j + 1]);
        }
        assert(s.drop_first().subrange(i, s.drop_first().len() as int) =~= s.subrange(i + 1, s.len() as int));
        lemma_cert_for_remove_only(s.drop_first(), i - 1, pk);
    }
}

} // verus!

verus! {

/// A principal without a certificate (never registered, or revoked) is denied.
pub proof fn law_uncertified_principal_denied(e: ArcticAuthEngine, principal: Seq<char>, action: Seq<char>, resource: Seq<char>, now: u64)
    requires
        e.certificate(principal) is None,
    ensures
        e.verdict(principal, action, resource, now) == AuthzResult::Deny,
{
}

/// An allowed check is a `Call` by a principal whose certificate has not
/// expired and lists the resource or the wildcard.
pub proof fn law_allow_needs_live_certificate(e: ArcticAuthEngine, principal: Seq<char>, action: Seq<char>, resource: Seq<char>, now: u64)
    requires
        e.verdict(principal, action, resource, now) == AuthzResult::Allow,
    ensures
        action == "Call"@,
        e.certificate(principal) matches Some(c) && now < c.expires_at
            && (strings(c.capabilities@).contains(resource) || strings(c.capabilities@).contains("*"@)),
{
}

/// A live certificate with the wildcard `*` authorizes every resource.
pub proof fn law_wildcard_authorizes_every_resource(e: ArcticAuthEngine, principal: Seq<char>, resource: Seq<char>, now: u64)
    requires
        e.certificate(principal) matches Some(c) && now < c.expires_at && strings(c.capabilities@).contains("*"@),
    ensures
        e.verdict(principal, "Call"@, resource, now) == AuthzResult::Allow,
{
}

} // verus!

verus! {

/// A certificate registry as the authorization engine of the host.
pub struct ArcticVmEngine(pub ArcticAuthEngine);

pub open spec fn decision_of(v: AuthzResult) -> Decision {
    match v {
        AuthzResult::Allow => Decision::Allow,
        AuthzResult::Deny => Decision::Deny,
    }
}

impl ArcticVmEngine {
    pub fn new(engine: ArcticAuthEngine) -> (r: Self)
        ensures
            r.0 == engine,
    {
        ArcticVmEngine(engine)
    }

    /// The certificate registry, to register or revoke certificates in.
    pub fn inner_mut(&mut self) -> (r: &mut ArcticAuthEngine)
        ensures
            *r == old(self).0,
            final(self).0 == *final(r),
    {
        &mut self.0
    }
}

impl AuthorizationEngine for ArcticVmEngine {
    /// The registry's verdict on the query at time `now`; it never fails.
    open spec fn decision(&self, principal: Seq<char>, action: Seq<char>, resource: Seq<char>, now: u64) -> Option<Decision> {
        Some(decision_of(self.0.verdict(principal, action, resource, now)))
    }

    open spec fn failure(&self, principal: Seq<char>, action: Seq<char>, resource: Seq<char>, now: u64) -> Seq<char> {
        Seq::empty()
    }

    fn authorize_at(&self, principal: &str, action: &str, resource: &str, now: u64) -> (r: Result<Decision, String>) {
        match self.0.check_at(principal, action, resource, now) {
            AuthzResult::Allow => Ok(Decision::Allow),
            AuthzResult::Deny => Ok(Decision::Deny),
        }
    }
}


/// A live certificate authorizes a `Call` of every resource it lists,
/// wherever in its capability list the resource stands.
pub proof fn law_listed_capability_authorizes(e: ArcticAuthEngine, principal: Seq<char>, resource: Seq<char>, now: u64, k: int)
    requires
        e.certificate(principal) matches Some(c) && now < c.expires_at
            && 0 <= k < c.capabilities@.len() && c.capabilities@[k]@ == resource,
    ensures
        e.verdict(principal, "Call"@, resource, now) == AuthzResult::Allow,
{
    let c = e.certificate(principal)->Some_0;
    assert(strings(c.capabilities@)[k] == resource);
}

} // verus!
