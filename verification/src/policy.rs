//! Cedar policy checks of module calls: a policy set loaded from Cedar text is
//! asked whether `Module::"<principal>"` may perform `Action::"<action>"` on
//! `Module::"<resource>"`.

use vstd::prelude::*;
use vstd::string::*;
use crate::text::chars_of;
use crate::auth::{AuthorizationEngine, Decision};

verus! {

#[verifier::external_type_specification]
#[verifier::external_body]
pub struct ExAuthorizer(cedar_policy::Authorizer);

#[verifier::external_type_specification]
#[verifier::external_body]
pub struct ExPolicySet(cedar_policy::PolicySet);

#[verifier::external_type_specification]
#[verifier::external_body]
pub struct ExEntities(cedar_policy::Entities);

#[verifier::external_type_specification]
#[verifier::external_body]
pub struct ExEntityUid(cedar_policy::EntityUid);

#[verifier::external_type_specification]
#[verifier::external_body]
pub struct ExRequest(cedar_policy::Request);

/// The error text `PolicySet::from_str` gives for `src`, or `None` when `src`
/// parses.
pub uninterp spec fn cedar_policy_parse_error(src: Seq<char>) -> Option<Seq<char>>;

/// The error text `EntityUid::from_str` gives for `text`, or `None` when `text`
/// parses.
pub uninterp spec fn cedar_uid_parse_error(text: Seq<char>) -> Option<Seq<char>>;

/// Whether Cedar's authorizer decides `Allow` for the request of `principal`
/// doing `action` on `resource` (the texts of three entity uids), with an empty
/// context, no entities and no schema, under the policies parsed from the text
/// `policies`.
pub uninterp spec fn cedar_allows(policies: Seq<char>, principal: Seq<char>, action: Seq<char>, resource: Seq<char>) -> bool;

/// The longest policy text the engine parses.
pub const MAX_POLICY_LEN: usize = 4096;

/// The deepest nesting of brackets (`(`, `[`, `{`) outside string literals and
/// comments that a policy text the engine parses may hold. Cedar turns a
/// parsed policy into its syntax tree by recursion with no stack guard; with
/// these bounds that recursion fits in a default thread stack (2 MiB).
pub const MAX_POLICY_NESTING: usize = 16;

pub open spec fn is_open_bracket(c: char) -> bool {
    c == '(' || c == '[' || c == '{'
}

pub open spec fn is_close_bracket(c: char) -> bool {
    c == ')' || c == ']' || c == '}'
}

/// Where a scan of a policy text stands: in code, in code right after a `/`,
/// in a string literal, right after a `\` in one, or in a `//` comment.
#[derive(Clone, Copy, Debug, PartialEq, Eq, Structural)]
pub enum Lexeme {
    Code,
    Slash,
    Str,
    Escape,
    Comment,
}

/// A scan's state: where it stands, the brackets open, the most ever open.
pub struct Scan {
    pub at: Lexeme,
    pub depth: nat,
    pub deepest: nat,
}

/// The scan in code after `c`.
pub open spec fn code_step(s: Scan, c: char) -> Scan {
    if c == '"' {
        Scan { at: Lexeme::Str, ..s }
    } else if c == '/' {
        Scan { at: Lexeme::Slash, ..s }
    } else if is_open_bracket(c) {
        Scan { at: Lexeme::Code, depth: s.depth + 1, deepest: if s.depth + 1 > s.deepest { s.depth + 1 } else { s.deepest } }
    } else if is_close_bracket(c) {
        Scan { at: Lexeme::Code, depth: if s.depth > 0 { (s.depth - 1) as nat } else { 0 }, ..s }
    } else {
        Scan { at: Lexeme::Code, ..s }
    }
}

/// The scan after one more character.
pub open spec fn scan_step(s: Scan, c: char) -> Scan {
    match s.at {
        Lexeme::Code => code_step(s, c),
        Lexeme::Slash => if c == '/' { Scan { at: Lexeme::Comment, ..s } } else { code_step(s, c) },
        Lexeme::Str => if c == '\\' {
            Scan { at: Lexeme::Escape, ..s }
        } else if c == '"' {
            Scan { at: Lexeme::Code, ..s }
        } else {
            s
        },
        Lexeme::Escape => Scan { at: Lexeme::Str, ..s },
        Lexeme::Comment => if c == '\n' { Scan { at: Lexeme::Code, ..s } } else { s },
    }
}

/// The scan of the whole text `t`.
pub open spec fn scan(t: Seq<char>) -> Scan
    decreases t.len(),
{
    if t.len() == 0 {
        Scan { at: Lexeme::Code, depth: 0, deepest: 0 }
    } else {
        scan_step(scan(t.drop_last()), t.last())
    }
}

/// Whether the engine parses `s`: short enough, and with brackets nested
/// shallowly enough, for the parser's recursion to fit in a default thread
/// stack (2 MiB).
pub open spec fn policy_within_bounds(s: Seq<char>) -> bool {
    s.len() <= MAX_POLICY_LEN && scan(s).deepest <= MAX_POLICY_NESTING
}

/// Cedar policies together with the text they were parsed from. Only the
/// wrappers below make values of this type.
pub struct CedarPolicies {
    set: cedar_policy::PolicySet,
    text: String,
}

impl CedarPolicies {
    /// The text the policies were parsed from (empty for no policies).
    pub closed spec fn text(self) -> Seq<char> {
        self.text@
    }
}

/// An entity uid together with the text it was parsed from.
pub struct CedarUid {
    uid: cedar_policy::EntityUid,
    text: String,
}

impl CedarUid {
    pub closed spec fn text(self) -> Seq<char> {
        self.text@
    }
}

/// A request together with the texts of its principal, action and resource.
pub struct CedarRequest {
    request: cedar_policy::Request,
    principal: String,
    action: String,
    resource: String,
}

impl CedarRequest {
    pub closed spec fn principal(self) -> Seq<char> {
        self.principal@
    }

    pub closed spec fn action(self) -> Seq<char> {
        self.action@
    }

    pub closed spec fn resource(self) -> Seq<char> {
        self.resource@
    }
}

/// `Authorizer::new`. Nothing is claimed of the authorizer (it holds no state
/// that a decision depends on).
#[verifier::external_body]
fn new_authorizer() -> cedar_policy::Authorizer {
    cedar_policy::Authorizer::new()
}

/// `PolicySet::new`: the empty policy set, paired with the empty text.
#[verifier::external_body]
fn empty_policy_set() -> (r: CedarPolicies)
    ensures
        r.text().len() == 0,
{
    CedarPolicies { set: cedar_policy::PolicySet::new(), text: String::new() }
}

/// `PolicySet::from_str`: parses Cedar policies, within the bounds that keep
/// its recursion on the stack. Claimed: it fails exactly when the named
/// `cedar_policy_parse_error` of the text is an error, with that error's text,
/// and the policies it gives are those of the text.
#[verifier::external_body]
fn parse_policy_set(src: &str) -> (r: Result<CedarPolicies, String>)
    requires
        policy_within_bounds(src@),
    ensures
        match cedar_policy_parse_error(src@) {
            None => r matches Ok(p) && p.text() == src@,
            Some(m) => r matches Err(e) && e@ == m,
        },
{
    src.parse::<cedar_policy::PolicySet>()
        .map(|set| CedarPolicies { set, text: src.to_string() })
        .map_err(|e| e.to_string())
}

/// `EntityUid::from_str`: parses an entity uid. Claimed as for policy sets,
/// over `cedar_uid_parse_error`, the uid paired with its text.
#[verifier::external_body]
fn parse_entity_uid(text: &str) -> (r: Result<CedarUid, String>)
    ensures
        match cedar_uid_parse_error(text@) {
            None => r matches Ok(u) && u.text() == text@,
            Some(m) => r matches Err(e) && e@ == m,
        },
{
    text.parse::<cedar_policy::EntityUid>()
        .map(|uid| CedarUid { uid, text: text.to_string() })
        .map_err(|e| e.to_string())
}

/// `Request::new` with an empty context and no schema. The source validates a
/// request only against a schema, so without one the request is always made;
/// it is paired with the texts of its uids.
#[verifier::external_body]
fn new_request(principal: CedarUid, action: CedarUid, resource: CedarUid) -> (r: Result<CedarRequest, String>)
    ensures
        r is Ok,
        r matches Ok(q) ==> q.principal() == principal.text(),
        r matches Ok(q) ==> q.action() == action.text(),
        r matches Ok(q) ==> q.resource() == resource.text(),
{
    let (p, a, x) = (principal.text, action.text, resource.text);
    cedar_policy::Request::new(principal.uid, action.uid, resource.uid, cedar_policy::Context::empty(), None)
        .map(|request| CedarRequest { request, principal: p, action: a, resource: x })
        .map_err(|e| e.to_string())
}

/// `Authorizer::is_authorized` with no entities: whether the decision on
/// `request` under `policies` is `Allow`. Claimed: it is the named
/// `cedar_allows` of the policies' text and the request's uids, and Cedar
/// denies every request under no policies (it allows only where a `permit`
/// policy is satisfied).
#[verifier::external_body]
fn authorizer_allows(
    authorizer: &cedar_policy::Authorizer,
    request: &CedarRequest,
    policies: &CedarPolicies,
) -> (b: bool)
    ensures
        b == cedar_allows(policies.text(), request.principal(), request.action(), request.resource()),
        policies.text().len() == 0 ==> !b,
{
    let decision = authorizer.is_authorized(&request.request, &policies.set, &cedar_policy::Entities::empty()).decision();
    matches!(decision, cedar_policy::Decision::Allow)
}

/// The Cedar uid of a module.
pub open spec fn module_uid(name: Seq<char>) -> Seq<char> {
    "Module::\""@ + name + "\""@
}

/// The Cedar uid of an action.
pub open spec fn action_uid(name: Seq<char>) -> Seq<char> {
    "Action::\""@ + name + "\""@
}

fn quoted_uid(kind: &str, name: &str) -> (r: String)
    ensures
        r@ == kind@ + name@ + "\""@,
{
    let mut s = String::from_str(kind);
    s.append(name);
    s.append("\"");
    s
}

fn prefixed(prefix: &str, text: &str) -> (r: String)
    ensures
        r@ == prefix@ + text@,
{
    let mut s = String::from_str(prefix);
    s.append(text);
    s
}

/// A Cedar policy engine over an empty entity store.
pub struct CedarVmEngine {
    authorizer: cedar_policy::Authorizer,
    policies: CedarPolicies,
}

pub open spec fn policy_bounds_message() -> Seq<char> {
    "policy text is longer than 4096 characters or nests brackets deeper than 16"@
}

fn within_bounds(src: &str) -> (r: bool)
    ensures
        r == policy_within_bounds(src@),
{
    let cs = chars_of(src);
    if cs.len() > MAX_POLICY_LEN {
        return false;
    }
    let mut at = Lexeme::Code;
    let mut depth: usize = 0;
    let mut deepest: usize = 0;
    let mut i: usize = 0;
    while i < cs.len()
        invariant
            i <= cs.len(),
            cs.len() <= MAX_POLICY_LEN,
            scan(cs@.take(i as int)) == (Scan { at, depth: depth as nat, deepest: deepest as nat }),
            depth <= i,
            deepest <= i,
        decreases cs.len() - i,
    {
        proof { assert(cs@.take(i + 1).drop_last() =~= cs@.take(i as int)); }
        let c = cs[i];
        let code = match at {
            Lexeme::Code => true,
            Lexeme::Slash => c != '/',
            _ => false,
        };
        if code {
            if c == '"' {
                at = Lexeme::Str;
            } else if c == '/' {
                at = Lexeme::Slash;
            } else if c == '(' || c == '[' || c == '{' {
                at = Lexeme::Code;
                depth = depth + 1;
                if depth > deepest {
                    deepest = depth;
                }
            } else if c == ')' || c == ']' || c == '}' {
                at = Lexeme::Code;
                if depth > 0 {
                    depth = depth - 1;
                }
            } else {
                at = Lexeme::Code;
            }
        } else {
            at = match at {
                Lexeme::Slash => Lexeme::Comment,
                Lexeme::Str => if c == '\\' { Lexeme::Escape } else if c == '"' { Lexeme::Code } else { Lexeme::Str },
                Lexeme::Escape => Lexeme::Str,
                _ => if c == '\n' { Lexeme::Code } else { Lexeme::Comment },
            };
        }
        i = i + 1;
    }
    proof { assert(cs@.take(cs@.len() as int) =~= cs@); }
    deepest <= MAX_POLICY_NESTING
}

impl CedarVmEngine {
    /// The text of the policies in force (empty for a new engine).
    pub closed spec fn policy_text(self) -> Seq<char> {
        self.policies.text()
    }

    /// An engine with no policies (which denies every request).
    pub fn new() -> (r: Self)
        ensures
            r.policy_text().len() == 0,
    {
        CedarVmEngine { authorizer: new_authorizer(), policies: empty_policy_set() }
    }

    /// Replaces the policies by those of `policy_src`. A text beyond the
    /// parser's bounds, or one that does not parse, is refused as
    /// `Policy parse error: …`, and the policies stay as they were.
    pub fn load_policy(&mut self, policy_src: &str) -> (r: Result<(), String>)
        ensures
            !policy_within_bounds(policy_src@) ==> (r matches Err(e) && e@ == "Policy parse error: "@ + policy_bounds_message()),
            policy_within_bounds(policy_src@) ==> match cedar_policy_parse_error(policy_src@) {
                None => r is Ok,
                Some(m) => r matches Err(e) && e@ == "Policy parse error: "@ + m,
            },
            r is Ok ==> final(self).policy_text() == policy_src@,
            r is Err ==> final(self).policy_text() == old(self).policy_text(),
    {
        if !within_bounds(policy_src) {
            return Err(prefixed("Policy parse error: ",
                "policy text is longer than 4096 characters or nests brackets deeper than 16"));
        }
        match parse_policy_set(policy_src) {
            Ok(p) => {
                self.policies = p;
                Ok(())
            },
            Err(e) => Err(prefixed("Policy parse error: ", e.as_str())),
        }
    }

    /// Asks the policies whether module `principal_mod` may perform `action`
    /// on module `resource_mod`. The uids are checked in that order and the
    /// first that does not parse is reported; the decision is Cedar's over the
    /// policy text in force (deny under no policies).
    pub fn is_authorized(&self, principal_mod: &str, action: &str, resource_mod: &str) -> (r: Result<bool, String>)
        ensures
            match cedar_uid_parse_error(module_uid(principal_mod@)) {
                Some(m) => r matches Err(e) && e@ == "Invalid principal: "@ + m,
                None => match cedar_uid_parse_error(action_uid(action@)) {
                    Some(m) => r matches Err(e) && e@ == "Invalid action: "@ + m,
                    None => match cedar_uid_parse_error(module_uid(resource_mod@)) {
                        Some(m) => r matches Err(e) && e@ == "Invalid resource: "@ + m,
                        None => r == Ok::<bool, String>(cedar_allows(self.policy_text(), module_uid(principal_mod@),
                            action_uid(action@), module_uid(resource_mod@)))
                            && (self.policy_text().len() == 0 ==> r == Ok::<bool, String>(false)),
                    },
                },
            },
    {
        let principal = match parse_entity_uid(quoted_uid("Module::\"", principal_mod).as_str()) {
            Ok(u) => u,
            Err(e) => return Err(prefixed("Invalid principal: ", e.as_str())),
        };
        let act = match parse_entity_uid(quoted_uid("Action::\"", action).as_str()) {
            Ok(u) => u,
            Err(e) => return Err(prefixed("Invalid action: ", e.as_str())),
        };
        let resource = match parse_entity_uid(quoted_uid("Module::\"", resource_mod).as_str()) {
            Ok(u) => u,
            Err(e) => return Err(prefixed("Invalid resource: ", e.as_str())),
        };
        let request = match new_request(principal, act, resource) {
            Ok(q) => q,
            Err(e) => return Err(prefixed("Request creation failed: ", e.as_str())),
        };
        Ok(authorizer_allows(&self.authorizer, &request, &self.policies))
    }
}

/// The error a Cedar query fails with: the first of the three uids that
/// does not parse.
pub open spec fn cedar_query_failure(principal: Seq<char>, action: Seq<char>, resource: Seq<char>) -> Seq<char> {
    match cedar_uid_parse_error(module_uid(principal)) {
        Some(m) => "Invalid principal: "@ + m,
        None => match cedar_uid_parse_error(action_uid(action)) {
            Some(m) => "Invalid action: "@ + m,
            None => match cedar_uid_parse_error(module_uid(resource)) {
                Some(m) => "Invalid resource: "@ + m,
                None => Seq::empty(),
            },
        },
    }
}

/// Whether the three uids of a Cedar query parse.
pub open spec fn cedar_query_parses(principal: Seq<char>, action: Seq<char>, resource: Seq<char>) -> bool {
    cedar_uid_parse_error(module_uid(principal)) is None && cedar_uid_parse_error(action_uid(action)) is None
        && cedar_uid_parse_error(module_uid(resource)) is None
}

impl AuthorizationEngine for CedarVmEngine {
    /// Cedar's decision over the policies in force; a uid that does not parse
    /// fails the query. The time is not used.
    open spec fn decision(&self, principal: Seq<char>, action: Seq<char>, resource: Seq<char>, now: u64) -> Option<Decision> {
        if cedar_query_parses(principal, action, resource) {
            Some(if cedar_allows(self.policy_text(), module_uid(principal), action_uid(action), module_uid(resource)) {
                Decision::Allow
            } else {
                Decision::Deny
            })
        } else {
            None
        }
    }

    open spec fn failure(&self, principal: Seq<char>, action: Seq<char>, resource: Seq<char>, now: u64) -> Seq<char> {
        cedar_query_failure(principal, action, resource)
    }

    fn authorize_at(&self, principal: &str, action: &str, resource: &str, now: u64) -> (r: Result<Decision, String>) {
        match self.is_authorized(principal, action, resource) {
            Ok(allowed) => Ok(if allowed { Decision::Allow } else { Decision::Deny }),
            Err(e) => Err(e),
        }
    }
}

pub open spec fn cedar_denied_message(principal: Seq<char>, action: Seq<char>, resource: Seq<char>) -> Seq<char> {
    "Cedar Policy Denied: "@ + principal + " cannot "@ + action + " "@ + resource
}

/// What a Cedar query's outcome means for the call it gates: allowed, denied
/// with `Cedar Policy Denied: <principal> cannot <action> <resource>`, or an
/// engine error reported as `Cedar Error: …`.
pub fn cedar_verdict(outcome: Result<bool, String>, principal: &str, action: &str, resource: &str) -> (r: Result<(), String>)
    ensures
        match outcome {
            Ok(true) => r is Ok,
            Ok(false) => r matches Err(e) && e@ == cedar_denied_message(principal@, action@, resource@),
            Err(m) => r matches Err(e) && e@ == "Cedar Error: "@ + m@,
        },
{
    match outcome {
        Ok(true) => Ok(()),
        Ok(false) => {
            let mut m = String::from_str("Cedar Policy Denied: ");
            m.append(principal);
            m.append(" cannot ");
            m.append(action);
            m.append(" ");
            m.append(resource);
            Err(m)
        },
        Err(e) => Err(prefixed("Cedar Error: ", e.as_str())),
    }
}

/// Checks a call against `engine`'s policies; see [`CedarVmEngine::is_authorized`]
/// and [`cedar_verdict`].
pub fn cedar_check(engine: &CedarVmEngine, principal: &str, action: &str, resource: &str) -> (r: Result<(), String>)
    ensures
        match cedar_uid_parse_error(module_uid(principal@)) {
            Some(m) => r matches Err(e) && e@ == "Cedar Error: "@ + ("Invalid principal: "@ + m),
            None => match cedar_uid_parse_error(action_uid(action@)) {
                Some(m) => r matches Err(e) && e@ == "Cedar Error: "@ + ("Invalid action: "@ + m),
                None => match cedar_uid_parse_error(module_uid(resource@)) {
                    Some(m) => r matches Err(e) && e@ == "Cedar Error: "@ + ("Invalid resource: "@ + m),
                    None => (r is Ok <==> cedar_allows(engine.policy_text(), module_uid(principal@), action_uid(action@),
                            module_uid(resource@)))
                        && (r is Err ==> (r matches Err(e) && e@ == cedar_denied_message(principal@, action@, resource@)))
                        && (engine.policy_text().len() == 0 ==> r is Err),
                },
            },
        },
{
    let outcome = engine.is_authorized(principal, action, resource);
    cedar_verdict(outcome, principal, action, resource)
}

} // verus!
