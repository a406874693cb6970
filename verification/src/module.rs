//! Module manifests and the module host: which modules are loaded, how their
//! entry points resolve, which instances exist, and the hot-swap rule that a
//! replacement may never gain a grant its predecessor lacked.

use vstd::prelude::*;
use vstd::string::*;

use crate::text::{
    append_chars, chars_eq, chars_of, contains_str, decimal, decimal_chars, signed_decimal, signed_decimal_chars,
    string_from_chars, strings,
};

verus! {

/// A TOML value, holding as plain data what the manifest readers look at.
/// Values of other kinds (floats, booleans, dates) are `Other`.
#[derive(Debug)]
pub enum TomlValue {
    String(String),
    Integer(i64),
    Array(Vec<TomlValue>),
    Table(Vec<(String, TomlValue)>),
    Other,
}

/// The value stored under `key` in a table (the first entry with that key);
/// `None` for a missing key and for a value that is not a table.
pub open spec fn toml_get(v: TomlValue, key: Seq<char>) -> Option<TomlValue> {
    match v {
        TomlValue::Table(entries) => table_get(entries@, key),
        _ => None,
    }
}

pub open spec fn table_get(entries: Seq<(String, TomlValue)>, key: Seq<char>) -> Option<TomlValue>
    decreases entries.len(),
{
    if entries.len() == 0 {
        None
    } else if entries[0].0@ == key {
        Some(entries[0].1)
    } else {
        table_get(entries.drop_first(), key)
    }
}

/// `toml_get` of an optional value.
pub open spec fn toml_get_opt(v: Option<TomlValue>, key: Seq<char>) -> Option<TomlValue> {
    match v {
        Some(t) => toml_get(t, key),
        None => None,
    }
}

/// The text of a string value.
pub open spec fn toml_str(v: Option<TomlValue>) -> Option<Seq<char>> {
    match v {
        Some(TomlValue::String(s)) => Some(s@),
        _ => None,
    }
}

/// The strings among the items of an array value, in order; empty when the value
/// is missing or not an array.
pub open spec fn toml_strings(v: Option<TomlValue>) -> Seq<Seq<char>> {
    match v {
        Some(TomlValue::Array(items)) => string_items(items@),
        _ => Seq::empty(),
    }
}

pub open spec fn string_items(items: Seq<TomlValue>) -> Seq<Seq<char>>
    decreases items.len(),
{
    if items.len() == 0 {
        Seq::empty()
    } else {
        let rest = string_items(items.drop_last());
        match items.last() {
            TomlValue::String(s) => rest.push(s@),
            _ => rest,
        }
    }
}

/// The value of an integer, reinterpreted as `u64` (negative values wrap).
pub open spec fn toml_u64(v: Option<TomlValue>) -> Option<u64> {
    match v {
        Some(TomlValue::Integer(i)) => Some(i as u64),
        _ => None,
    }
}


/// The value under `key` in the table `entries`.
fn table_lookup<'a>(entries: &'a Vec<(String, TomlValue)>, key: &str) -> (r: Option<&'a TomlValue>)
    ensures
        match table_get(entries@, key@) {
            Some(v) => r == Some(&v),
            None => r is None,
        },
{
    let k = chars_of(key);
    let mut i: usize = 0;
    assert(entries@.subrange(0, entries@.len() as int) =~= entries@);
    while i < entries.len()
        invariant
            i <= entries.len(),
            k@ == key@,
            table_get(entries@, key@) == table_get(entries@.subrange(i as int, entries@.len() as int), key@),
        decreases entries.len() - i,
    {
        let ghost tail = entries@.subrange(i as int, entries@.len() as int);
        assert(tail.drop_first() =~= entries@.subrange(i + 1, entries@.len() as int));
        let name = chars_of(entries[i].0.as_str());
        if chars_eq(&name, &k) {
            return Some(&entries[i].1);
        }
        i = i + 1;
    }
    None
}

/// `toml_get` on an optional value.
pub(crate) fn get<'a>(v: Option<&'a TomlValue>, key: &str) -> (r: Option<&'a TomlValue>)
    ensures
        match toml_get_opt(match v { Some(t) => Some(*t), None => None }, key@) {
            Some(x) => r == Some(&x),
            None => r is None,
        },
{
    match v {
        Some(TomlValue::Table(entries)) => table_lookup(entries, key),
        _ => None,
    }
}

pub open spec fn opt(v: Option<&TomlValue>) -> Option<TomlValue> {
    match v {
        Some(t) => Some(*t),
        None => None,
    }
}

/// The text of a string value.
pub(crate) fn as_str<'a>(v: Option<&'a TomlValue>) -> (r: Option<&'a String>)
    ensures
        match toml_str(opt(v)) {
            Some(s) => r matches Some(x) && x@ == s,
            None => r is None,
        },
{
    match v {
        Some(TomlValue::String(s)) => Some(s),
        _ => None,
    }
}

/// The strings of an array value.
fn as_strings(v: Option<&TomlValue>) -> (r: Vec<String>)
    ensures
        strings(r@) == toml_strings(opt(v)),
{
    match v {
        Some(TomlValue::Array(items)) => {
            let mut r: Vec<String> = Vec::new();
            let mut i: usize = 0;
            while i < items.len()
                invariant
                    i <= items.len(),
                    strings(r@) == string_items(items@.take(i as int)),
                decreases items.len() - i,
            {
                assert(items@.take(i + 1).drop_last() =~= items@.take(i as int));
                match &items[i] {
                    TomlValue::String(s) => {
                        r.push(s.clone());
                        assert(strings(r@) =~= string_items(items@.take(i as int)).push(s@));
                    },
                    _ => {},
                }
                i = i + 1;
            }
            assert(items@.take(items@.len() as int) =~= items@);
            r
        },
        _ => {
            let r: Vec<String> = Vec::new();
            assert(strings(r@) =~= Seq::empty());
            r
        },
    }
}

/// Whether every item is a string.
pub open spec fn all_strings(items: Seq<TomlValue>) -> bool {
    forall|i: int| 0 <= i < items.len() ==> #[trigger] items[i] is String
}

/// A list of strings read strictly: a missing value is the empty list, an
/// array of strings is its strings, and anything else is a type error (`None`).
pub open spec fn toml_string_list(v: Option<TomlValue>) -> Option<Seq<Seq<char>>> {
    match v {
        None => Some(Seq::empty()),
        Some(TomlValue::Array(items)) => if all_strings(items@) { Some(string_items(items@)) } else { None },
        _ => None,
    }
}

/// Reads a list of strings strictly; see [`toml_string_list`].
pub(crate) fn as_string_list(v: Option<&TomlValue>) -> (r: Option<Vec<String>>)
    ensures
        match toml_string_list(opt(v)) {
            Some(l) => r matches Some(x) && strings(x@) == l,
            None => r is None,
        },
{
    match v {
        None => {
            let r: Vec<String> = Vec::new();
            assert(strings(r@) =~= Seq::empty());
            Some(r)
        },
        Some(TomlValue::Array(items)) => {
            let mut r: Vec<String> = Vec::new();
            let mut i: usize = 0;
            assert(opt(v) == Some(TomlValue::Array(*items)));
            while i < items.len()
                invariant
                    i <= items.len(),
                    strings(r@) == string_items(items@.take(i as int)),
                    all_strings(items@.take(i as int)),
                    opt(v) == Some(TomlValue::Array(*items)),
                decreases items.len() - i,
            {
                assert(items@.take(i + 1).drop_last() =~= items@.take(i as int));
                match &items[i] {
                    TomlValue::String(s) => {
                        r.push(s.clone());
                        assert(strings(r@) =~= string_items(items@.take(i as int)).push(s@));
                        assert forall|j: int| 0 <= j < i + 1 implies #[trigger] items@.take(i + 1)[j] is String by {
                            if j < i {
                                assert(items@.take(i + 1)[j] == items@.take(i as int)[j]);
                            }
                        }
                    },
                    _ => {
                        assert(!all_strings(items@)) by {
                            assert(!(items@[i as int] is String));
                        }
                        return None;
                    },
                }
                i = i + 1;
            }
            assert(items@.take(items@.len() as int) =~= items@);
            Some(r)
        },
        _ => None,
    }
}

/// The integer of a value, reinterpreted as `u64`.
fn as_u64(v: Option<&TomlValue>) -> (r: Option<u64>)
    ensures
        r == toml_u64(opt(v)),
{
    match v {
        Some(TomlValue::Integer(i)) => Some(*i as u64),
        _ => None,
    }
}

} // verus!

verus! {

/// How the gatekeeper provisions side effects (`[gatekeeper] mode`).
#[derive(Debug, Clone, Copy, PartialEq, Eq, Structural)]
pub enum GatekeeperMode {
    /// Side-effect submissions are refused outright.
    Disabled,
    /// Submissions are mediated when a console is attached.
    Optional,
    /// Submissions are mediated by the gatekeeper (the default).
    Enabled,
}

/// The mode named by `[gatekeeper] mode`: `"disabled"` and `"optional"` name
/// their modes; anything else, or no value, is `Enabled`.
pub open spec fn gatekeeper_mode_of(mode: Option<Seq<char>>) -> GatekeeperMode {
    match mode {
        Some(m) => if m == "disabled"@ {
            GatekeeperMode::Disabled
        } else if m == "optional"@ {
            GatekeeperMode::Optional
        } else {
            GatekeeperMode::Enabled
        },
        None => GatekeeperMode::Enabled,
    }
}

/// A module's `module.toml`.
#[derive(Debug, Clone)]
pub struct ModuleManifest {
    pub name: String,
    pub version: String,
    pub archetypes: Vec<String>,
    pub archetype: String,
    pub entry: String,
    /// `[grants] kernel`: the kernel symbols the module may call.
    pub grants: Vec<String>,
    /// `[grants] effects`: the effects the module may submit.
    pub effects: Vec<String>,
    /// Trust annotations `(effect, "observe" | "mutate")` for granted effects.
    pub effect_kinds: Vec<(String, String)>,
    /// `[grants] observers`: other principals this module may read.
    pub observers: Vec<String>,
    /// `[grants] resources`: resource ids introduced to this module.
    pub resources: Vec<String>,
    /// `[grants] fs`: paths (relative to the module) the module may write.
    pub fs_grants: Vec<String>,
    /// `[grants] net`: the egress allowlist (`host` or `host:port`).
    pub net_grants: Vec<String>,
    /// `[limits] max_ms`: the per-call deadline of the sidecar RPC.
    pub max_ms: Option<u64>,
    /// `[limits] memory_bytes`: the memory cap of the sidecar.
    pub memory_max_bytes: Option<u64>,
    /// `[gatekeeper] mode`.
    pub gatekeeper_mode: GatekeeperMode,
}

/// `o`, or `d` when `o` is `None`.
pub open spec fn str_or(o: Option<Seq<char>>, d: Seq<char>) -> Seq<char> {
    match o {
        Some(s) => s,
        None => d,
    }
}

fn str_or_default(o: Option<&String>, d: &str) -> (r: String)
    ensures
        r@ == str_or(match o { Some(s) => Some(s@), None => None }, d@),
{
    match o {
        Some(s) => s.clone(),
        None => String::from_str(d),
    }
}

fn mode_from(o: Option<&String>) -> (r: GatekeeperMode)
    ensures
        r == gatekeeper_mode_of(match o { Some(s) => Some(s@), None => None }),
{
    match o {
        Some(s) => {
            let m = chars_of(s.as_str());
            if chars_eq(&m, &chars_of("disabled")) {
                GatekeeperMode::Disabled
            } else if chars_eq(&m, &chars_of("optional")) {
                GatekeeperMode::Optional
            } else {
                GatekeeperMode::Enabled
            }
        },
        None => GatekeeperMode::Enabled,
    }
}

/// What reading a manifest from the TOML document `v` gives: `[module] name`
/// is required; `version` defaults to `"0.0.0"`, `entry` to `"run"`,
/// `archetype` to `"austral_cps"`; every `[grants]` list keeps its string items
/// and defaults to empty; the `[limits]` integers are optional; the
/// `[gatekeeper] mode` is read as described at `gatekeeper_mode_of`.
pub open spec fn manifest_reads(v: TomlValue, r: Result<ModuleManifest, String>) -> bool {
    &&& (toml_get(v, "module"@) is None ==> (r matches Err(e) && e@ == "missing [module] section"@))
    &&& (toml_get(v, "module"@) is Some && toml_str(toml_get_opt(toml_get(v, "module"@), "name"@)) is None
        ==> (r matches Err(e) && e@ == "missing module.name"@))
    &&& (r is Ok <==> toml_str(toml_get_opt(toml_get(v, "module"@), "name"@)) is Some)
    &&& (r matches Ok(m) ==> {
        let module = toml_get(v, "module"@);
        let grants = toml_get(v, "grants"@);
        let limits = toml_get(v, "limits"@);
        &&& Some(m.name@) == toml_str(toml_get_opt(module, "name"@))
        &&& m.version@ == str_or(toml_str(toml_get_opt(module, "version"@)), "0.0.0"@)
        &&& strings(m.archetypes@) == toml_strings(toml_get_opt(module, "archetypes"@))
        &&& m.entry@ == str_or(toml_str(toml_get_opt(module, "entry"@)), "run"@)
        &&& m.archetype@ == str_or(toml_str(toml_get_opt(module, "archetype"@)), "austral_cps"@)
        &&& strings(m.grants@) == toml_strings(toml_get_opt(grants, "kernel"@))
        &&& strings(m.effects@) == toml_strings(toml_get_opt(grants, "effects"@))
        &&& m.effect_kinds@.len() == 0
        &&& strings(m.observers@) == toml_strings(toml_get_opt(grants, "observers"@))
        &&& strings(m.resources@) == toml_strings(toml_get_opt(grants, "resources"@))
        &&& strings(m.fs_grants@) == toml_strings(toml_get_opt(grants, "fs"@))
        &&& strings(m.net_grants@) == toml_strings(toml_get_opt(grants, "net"@))
        &&& m.max_ms == toml_u64(toml_get_opt(limits, "max_ms"@))
        &&& m.memory_max_bytes == toml_u64(toml_get_opt(limits, "memory_bytes"@))
        &&& m.gatekeeper_mode == gatekeeper_mode_of(toml_str(toml_get_opt(toml_get(v, "gatekeeper"@), "mode"@)))
    })
}

/// The document `toml::from_str` parses from `text`, as a value tree, or the
/// text of its error.
pub uninterp spec fn toml_document(text: Seq<char>) -> Result<TomlValue, Seq<char>>;

/// `toml::Value`, carried opaquely from the parser to its conversion.
#[verifier::external_type_specification]
#[verifier::external_body]
pub struct ExTomlValue(toml::Value);

/// The value tree of a parsed TOML value. Strings, integers, arrays and tables
/// are kept; floats, booleans and dates become `Other`.
#[verifier::external_body]
fn toml_value_of(v: &toml::Value) -> TomlValue {
    match v {
        toml::Value::String(s) => TomlValue::String(s.clone()),
        toml::Value::Integer(i) => TomlValue::Integer(*i),
        toml::Value::Array(a) => TomlValue::Array(a.iter().map(toml_value_of).collect()),
        toml::Value::Table(t) => TomlValue::Table(t.iter().map(|(k, x)| (k.clone(), toml_value_of(x))).collect()),
        toml::Value::Float(_) => TomlValue::Other,
        toml::Value::Boolean(_) => TomlValue::Other,
        toml::Value::Datetime(_) => TomlValue::Other,
    }
}

/// `toml::from_str::<toml::Value>`: parses a TOML document. Claimed: the result
/// is the named `toml_document` of the text, the parser's error shown as text.
#[verifier::external_body]
pub(crate) fn parse_toml(text: &str) -> (r: Result<TomlValue, String>)
    ensures
        match (r, toml_document(text@)) {
            (Ok(v), Ok(w)) => v == w,
            (Err(e), Err(m)) => e@ == m,
            _ => false,
        },
{
    match toml::from_str::<toml::Value>(text) {
        Ok(v) => Ok(toml_value_of(&v)),
        Err(e) => Err(e.to_string()),
    }
}

impl ModuleManifest {
    /// Parses a `module.toml`: a TOML syntax error is `TOML parse error: …`;
    /// a parsed document is read as [`manifest_reads`] says.
    pub fn from_toml_str(s: &str) -> (r: Result<Self, String>)
        ensures
            match toml_document(s@) {
                Err(m) => r matches Err(e) && e@ == "TOML parse error: "@ + m,
                Ok(v) => manifest_reads(v, r),
            },
    {
        match parse_toml(s) {
            Ok(v) => Self::from_toml_value(&v),
            Err(e) => {
                let mut m = String::from_str("TOML parse error: ");
                m.append(e.as_str());
                Err(m)
            },
        }
    }

    /// Reads a manifest from its parsed TOML document; see [`manifest_reads`].
    pub fn from_toml_value(v: &TomlValue) -> (r: Result<Self, String>)
        ensures
            manifest_reads(*v, r),
    {
        let root = Some(v);
        let module = get(root, "module");
        if module.is_none() {
            return Err(String::from_str("missing [module] section"));
        }
        let name = match as_str(get(module, "name")) {
            Some(n) => n.clone(),
            None => return Err(String::from_str("missing module.name")),
        };
        let version = str_or_default(as_str(get(module, "version")), "0.0.0");
        let archetypes = as_strings(get(module, "archetypes"));
        let entry = str_or_default(as_str(get(module, "entry")), "run");
        let archetype = str_or_default(as_str(get(module, "archetype")), "austral_cps");
        let grants_table = get(root, "grants");
        let grants = as_strings(get(grants_table, "kernel"));
        let effects = as_strings(get(grants_table, "effects"));
        let observers = as_strings(get(grants_table, "observers"));
        let resources = as_strings(get(grants_table, "resources"));
        let fs_grants = as_strings(get(grants_table, "fs"));
        let net_grants = as_strings(get(grants_table, "net"));
        let limits = get(root, "limits");
        let max_ms = as_u64(get(limits, "max_ms"));
        let memory_max_bytes = as_u64(get(limits, "memory_bytes"));
        let gatekeeper_mode = mode_from(as_str(get(get(root, "gatekeeper"), "mode")));
        Ok(ModuleManifest {
            name,
            version,
            archetypes,
            archetype,
            entry,
            grants,
            effects,
            effect_kinds: Vec::new(),
            observers,
            resources,
            fs_grants,
            net_grants,
            max_ms,
            memory_max_bytes,
            gatekeeper_mode,
        })
    }
}

} // verus!

verus! {

/// The first name of `new` that `old` does not hold.
pub open spec fn first_missing(new: Seq<Seq<char>>, old: Seq<Seq<char>>) -> Option<Seq<char>>
    decreases new.len(),
{
    if new.len() == 0 {
        None
    } else if !old.contains(new[0]) {
        Some(new[0])
    } else {
        first_missing(new.drop_first(), old)
    }
}

pub proof fn lemma_first_missing_none(new: Seq<Seq<char>>, old: Seq<Seq<char>>)
    ensures
        first_missing(new, old) is None <==> (forall|i: int| 0 <= i < new.len() ==> old.contains(#[trigger] new[i])),
    decreases new.len(),
{
    if new.len() > 0 {
        lemma_first_missing_none(new.drop_first(), old);
        if first_missing(new, old) is None {
            assert forall|i: int| 0 <= i < new.len() implies old.contains(#[trigger] new[i]) by {
                if i > 0 {
                    assert(new[i] == new.drop_first()[i - 1]);
                }
            }
        } else if forall|i: int| 0 <= i < new.len() ==> old.contains(#[trigger] new[i]) {
            assert(old.contains(new[0]));
            assert forall|i: int| 0 <= i < new.drop_first().len() implies old.contains(#[trigger] new.drop_first()[i]) by {
                assert(new.drop_first()[i] == new[i + 1]);
            }
        }
    }
}

/// The swap refusal for a grant `g` of the namespace `kind` (`""`, `"fs "`,
/// `"effect "` or `"net "`).
pub open spec fn escalation_message(kind: Seq<char>, g: Seq<char>) -> Seq<char> {
    "UK-4001 swap rejected: new module escalates "@ + kind + "grant '"@ + g + "'"@
}

/// The swap refusal for a replacement under another module name.
pub open spec fn name_mismatch_message(old: Seq<char>, new: Seq<char>) -> Seq<char> {
    "swap rejected: module name mismatch ('"@ + old + "' vs '"@ + new + "')"@
}

/// The outcome of the hot-swap rule: the replacement must carry the same module
/// name, and none of its kernel, fs, effect or net grants may be missing from the
/// module it replaces (checked in that order).
pub open spec fn swap_verdict(old: ModuleManifest, new: ModuleManifest) -> Result<(), Seq<char>> {
    if new.name@ != old.name@ {
        Err(name_mismatch_message(old.name@, new.name@))
    } else if let Some(g) = first_missing(strings(new.grants@), strings(old.grants@)) {
        Err(escalation_message(""@, g))
    } else if let Some(g) = first_missing(strings(new.fs_grants@), strings(old.fs_grants@)) {
        Err(escalation_message("fs "@, g))
    } else if let Some(g) = first_missing(strings(new.effects@), strings(old.effects@)) {
        Err(escalation_message("effect "@, g))
    } else if let Some(g) = first_missing(strings(new.net_grants@), strings(old.net_grants@)) {
        Err(escalation_message("net "@, g))
    } else {
        Ok(())
    }
}

/// The first name of `new` missing from `old`.
fn find_missing(new: &Vec<String>, old: &Vec<String>) -> (r: Option<String>)
    ensures
        match first_missing(strings(new@), strings(old@)) {
            Some(g) => r matches Some(s) && s@ == g,
            None => r is None,
        },
{
    let mut i: usize = 0;
    assert(strings(new@).subrange(0, new@.len() as int) =~= strings(new@));
    while i < new.len()
        invariant
            i <= new.len(),
            first_missing(strings(new@), strings(old@)) == first_missing(strings(new@).subrange(i as int, new@.len() as int), strings(old@)),
        decreases new.len() - i,
    {
        let ghost tail = strings(new@).subrange(i as int, new@.len() as int);
        assert(tail.drop_first() =~= strings(new@).subrange(i + 1, new@.len() as int));
        assert(tail[0] == new@[i as int]@);
        if !contains_str(old, new[i].as_str()) {
            return Some(new[i].clone());
        }
        i = i + 1;
    }
    None
}

fn escalation(kind: &str, g: &String) -> (r: String)
    ensures
        r@ == escalation_message(kind@, g@),
{
    let mut m = String::from_str("UK-4001 swap rejected: new module escalates ");
    m.append(kind);
    m.append("grant '");
    m.append(g.as_str());
    m.append("'");
    assert(m@ =~= escalation_message(kind@, g@));
    m
}

/// Applies the hot-swap rule to a replacement manifest.
pub fn swap_check(old: &ModuleManifest, new: &ModuleManifest) -> (r: Result<(), String>)
    ensures
        match swap_verdict(*old, *new) {
            Ok(()) => r is Ok,
            Err(m) => r matches Err(e) && e@ == m,
        },
{
    let on = chars_of(old.name.as_str());
    let nn = chars_of(new.name.as_str());
    if !chars_eq(&on, &nn) {
        let mut m = String::from_str("swap rejected: module name mismatch ('");
        m.append(old.name.as_str());
        m.append("' vs '");
        m.append(new.name.as_str());
        m.append("')");
        assert(m@ =~= name_mismatch_message(old.name@, new.name@));
        return Err(m);
    }
    if let Some(g) = find_missing(&new.grants, &old.grants) {
        return Err(escalation("", &g));
    }
    if let Some(g) = find_missing(&new.fs_grants, &old.fs_grants) {
        return Err(escalation("fs ", &g));
    }
    if let Some(g) = find_missing(&new.effects, &old.effects) {
        return Err(escalation("effect ", &g));
    }
    if let Some(g) = find_missing(&new.net_grants, &old.net_grants) {
        return Err(escalation("net ", &g));
    }
    Ok(())
}

/// Hot-swapping never escalates: when the swap rule accepts a replacement, every
/// kernel, fs, effect and net grant of the replacement was already held by the
/// module it replaces, and the module name is unchanged.
pub proof fn law_swap_never_escalates(old: ModuleManifest, new: ModuleManifest)
    requires
        swap_verdict(old, new) is Ok,
    ensures
        new.name@ == old.name@,
        forall|i: int| 0 <= i < new.grants@.len() ==> strings(old.grants@).contains(#[trigger] new.grants@[i]@),
        forall|i: int| 0 <= i < new.fs_grants@.len() ==> strings(old.fs_grants@).contains(#[trigger] new.fs_grants@[i]@),
        forall|i: int| 0 <= i < new.effects@.len() ==> strings(old.effects@).contains(#[trigger] new.effects@[i]@),
        forall|i: int| 0 <= i < new.net_grants@.len() ==> strings(old.net_grants@).contains(#[trigger] new.net_grants@[i]@),
{
    lemma_first_missing_none(strings(new.grants@), strings(old.grants@));
    lemma_first_missing_none(strings(new.fs_grants@), strings(old.fs_grants@));
    lemma_first_missing_none(strings(new.effects@), strings(old.effects@));
    lemma_first_missing_none(strings(new.net_grants@), strings(old.net_grants@));
    assert forall|i: int| 0 <= i < new.grants@.len() implies strings(old.grants@).contains(#[trigger] new.grants@[i]@) by {
        assert(strings(new.grants@)[i] == new.grants@[i]@);
    }
    assert forall|i: int| 0 <= i < new.fs_grants@.len() implies strings(old.fs_grants@).contains(#[trigger] new.fs_grants@[i]@) by {
        assert(strings(new.fs_grants@)[i] == new.fs_grants@[i]@);
    }
    assert forall|i: int| 0 <= i < new.effects@.len() implies strings(old.effects@).contains(#[trigger] new.effects@[i]@) by {
        assert(strings(new.effects@)[i] == new.effects@[i]@);
    }
    assert forall|i: int| 0 <= i < new.net_grants@.len() implies strings(old.net_grants@).contains(#[trigger] new.net_grants@[i]@) by {
        assert(strings(new.net_grants@)[i] == new.net_grants@[i]@);
    }
}

} // verus!

verus! {

/// The function table of a compiled module: the first entry named `name`.
pub open spec fn fn_lookup(functions: Seq<(String, usize)>, name: Seq<char>) -> Option<usize>
    decreases functions.len(),
{
    if functions.len() == 0 {
        None
    } else if functions[0].0@ == name {
        Some(functions[0].1)
    } else {
        fn_lookup(functions.drop_first(), name)
    }
}

/// The execution backend of a loaded module.
pub enum IrRuntime<S> {
    /// CPS compiled to native code: each exported function's name and entry
    /// address, and the CPS bytes it was compiled from.
    Jit { functions: Vec<(String, usize)>, cps_data: Vec<u8> },
    /// An ECMAScript module served by a workerd sidecar.
    Ecma(S),
}

impl<S> IrRuntime<S> {
    pub open spec fn spec_function_ptr(&self, name: Seq<char>) -> Option<usize> {
        match self {
            IrRuntime::Jit { functions, .. } => fn_lookup(functions@, name),
            IrRuntime::Ecma(_) => None,
        }
    }

    /// The entry point: `entry` if defined, else `run`, else `main`, else the
    /// first function of the table; `None` for a sidecar or an empty table.
    pub open spec fn spec_entrypoint_ptr(&self, entry: Seq<char>) -> Option<usize> {
        if let Some(p) = self.spec_function_ptr(entry) {
            Some(p)
        } else if let Some(p) = self.spec_function_ptr("run"@) {
            Some(p)
        } else if let Some(p) = self.spec_function_ptr("main"@) {
            Some(p)
        } else {
            match self {
                IrRuntime::Jit { functions, .. } => if functions@.len() > 0 { Some(functions@[0].1) } else { None },
                IrRuntime::Ecma(_) => None,
            }
        }
    }

    /// Whether the module runs in an ECMAScript sidecar.
    pub fn is_ecmascript(&self) -> (r: bool)
        ensures
            r == (self is Ecma),
    {
        match self {
            IrRuntime::Ecma(_) => true,
            IrRuntime::Jit { .. } => false,
        }
    }

    /// The address of the compiled function `name`.
    pub fn function_ptr(&self, name: &str) -> (r: Option<usize>)
        ensures
            r == self.spec_function_ptr(name@),
    {
        match self {
            IrRuntime::Jit { functions, .. } => {
                let target = chars_of(name);
                let mut i: usize = 0;
                assert(functions@.subrange(0, functions@.len() as int) =~= functions@);
                while i < functions.len()
                    invariant
                        i <= functions.len(),
                        target@ == name@,
                        self.spec_function_ptr(name@) == fn_lookup(functions@, name@),
                        fn_lookup(functions@, name@) == fn_lookup(functions@.subrange(i as int, functions@.len() as int), name@),
                    decreases functions.len() - i,
                {
                    let ghost tail = functions@.subrange(i as int, functions@.len() as int);
                    assert(tail.drop_first() =~= functions@.subrange(i + 1, functions@.len() as int));
                    assert(tail[0] == functions@[i as int]);
                    let n = chars_of(functions[i].0.as_str());
                    if chars_eq(&n, &target) {
                        return Some(functions[i].1);
                    }
                    i = i + 1;
                }
                None
            },
            IrRuntime::Ecma(_) => None,
        }
    }

    /// The address to run for `entry` (see `spec_entrypoint_ptr`).
    pub fn entrypoint_ptr(&self, entry: &str) -> (r: Option<usize>)
        ensures
            r == self.spec_entrypoint_ptr(entry@),
    {
        if let Some(p) = self.function_ptr(entry) {
            return Some(p);
        }
        if let Some(p) = self.function_ptr("run") {
            return Some(p);
        }
        if let Some(p) = self.function_ptr("main") {
            return Some(p);
        }
        match self {
            IrRuntime::Jit { functions, .. } => if functions.len() > 0 { Some(functions[0].1) } else { None },
            IrRuntime::Ecma(_) => None,
        }
    }
}

/// A loaded module: its manifest, its backend, and how many calls it served.
pub struct ModuleHandle<S> {
    pub manifest: ModuleManifest,
    pub runtime: IrRuntime<S>,
    pub call_count: u64,
}

impl<S> ModuleHandle<S> {
    /// The sidecar serving this module, if it is an ECMAScript module.
    pub fn ecma(&self) -> (r: Option<&S>)
        ensures
            match self.runtime {
                IrRuntime::Ecma(s) => r == Some(&s),
                IrRuntime::Jit { .. } => r is None,
            },
    {
        match &self.runtime {
            IrRuntime::Ecma(sidecar) => Some(sidecar),
            IrRuntime::Jit { .. } => None,
        }
    }

    /// Whether this module is served by the ECMAScript backend.
    pub fn is_ecmascript(&self) -> (r: bool)
        ensures
            r == (self.runtime is Ecma),
    {
        self.runtime.is_ecmascript()
    }

    /// The number of compiled functions (0 for an ECMAScript module).
    pub fn function_count(&self) -> (r: usize)
        ensures
            match self.runtime {
                IrRuntime::Jit { functions, .. } => r == functions@.len(),
                IrRuntime::Ecma(_) => r == 0,
            },
    {
        match &self.runtime {
            IrRuntime::Jit { functions, .. } => functions.len(),
            IrRuntime::Ecma(_) => 0,
        }
    }
}

/// One isolated instance of a module: its own sidecar and, optionally, a kernel
/// session handle.
pub struct ModuleInstance<S> {
    pub key: String,
    pub manifest: ModuleManifest,
    pub sidecar: S,
    pub dir: String,
    pub session: Option<i64>,
    pub call_count: u64,
}

impl<S> ModuleInstance<S> {
    /// The kernel session bound to this instance.
    pub fn session_handle(&self) -> (r: Option<i64>)
        ensures
            r == self.session,
    {
        self.session
    }
}

} // verus!

verus! {

/// The index of the first element of `s` whose key is `key`, searching from `k`.
pub open spec fn find_key_from<T>(s: Seq<T>, key_of: spec_fn(T) -> Seq<char>, key: Seq<char>, k: int) -> Option<int>
    decreases s.len() - k,
{
    if k < 0 || k >= s.len() {
        None
    } else if key_of(s[k]) == key {
        Some(k)
    } else {
        find_key_from(s, key_of, key, k + 1)
    }
}

pub open spec fn module_name_of<S>() -> spec_fn(ModuleHandle<S>) -> Seq<char> {
    |h: ModuleHandle<S>| h.manifest.name@
}

pub open spec fn instance_key_of<S>() -> spec_fn(ModuleInstance<S>) -> Seq<char> {
    |i: ModuleInstance<S>| i.key@
}

proof fn lemma_find_key<T>(s: Seq<T>, key_of: spec_fn(T) -> Seq<char>, key: Seq<char>, k: int)
    requires
        0 <= k,
    ensures
        find_key_from(s, key_of, key, k) matches Some(i) ==> k <= i < s.len() && key_of(s[i]) == key
            && forall|j: int| k <= j < i ==> key_of(#[trigger] s[j]) != key,
        find_key_from(s, key_of, key, k) is None ==> forall|j: int| k <= j < s.len() ==> key_of(#[trigger] s[j]) != key,
    decreases s.len() - k,
{
    if k < s.len() && key_of(s[k]) != key {
        lemma_find_key(s, key_of, key, k + 1);
    }
}

/// Two sequences that agree on which positions carry `key` find it at the same place.
proof fn lemma_find_key_agree<T>(a: Seq<T>, b: Seq<T>, key_of: spec_fn(T) -> Seq<char>, key: Seq<char>, k: int)
    requires
        0 <= k,
        a.len() == b.len(),
        forall|j: int| k <= j < a.len() ==> (key_of(#[trigger] a[j]) == key <==> key_of(b[j]) == key),
    ensures
        find_key_from(a, key_of, key, k) == find_key_from(b, key_of, key, k),
    decreases a.len() - k,
{
    if k < a.len() && key_of(a[k]) != key {
        lemma_find_key_agree(a, b, key_of, key, k + 1);
    }
}

/// Appending an element keeps every earlier hit and adds one for its own key.
proof fn lemma_find_key_push<T>(a: Seq<T>, x: T, key_of: spec_fn(T) -> Seq<char>, key: Seq<char>, k: int)
    requires
        0 <= k <= a.len(),
    ensures
        find_key_from(a.push(x), key_of, key, k) == (match find_key_from(a, key_of, key, k) {
            Some(j) => Some(j),
            None => if key_of(x) == key { Some(a.len() as int) } else { None },
        }),
    decreases a.len() - k,
{
    if k < a.len() {
        assert(a.push(x)[k] == a[k]);
        if key_of(a[k]) != key {
            lemma_find_key_push(a, x, key_of, key, k + 1);
        }
    } else {
        assert(a.push(x)[k] == x);
        assert(find_key_from(a.push(x), key_of, key, k + 1) is None);
    }
}

/// Replacing the element at `i` by one with the same key keeps every lookup's
/// position.
proof fn lemma_find_key_set<T>(a: Seq<T>, i: int, x: T, key_of: spec_fn(T) -> Seq<char>, key: Seq<char>)
    requires
        0 <= i < a.len(),
        key_of(x) == key_of(a[i]),
    ensures
        find_key_from(a.update(i, x), key_of, key, 0) == find_key_from(a, key_of, key, 0),
{
    assert forall|j: int| 0 <= j < a.len() implies (key_of(#[trigger] a.update(i, x)[j]) == key <==> key_of(a[j]) == key) by {
        if j != i {
            assert(a.update(i, x)[j] == a[j]);
        }
    }
    lemma_find_key_agree(a.update(i, x), a, key_of, key, 0);
}

/// A position that carries `key`, with no earlier one, is where `key` is found.
proof fn lemma_find_key_at<T>(s: Seq<T>, key_of: spec_fn(T) -> Seq<char>, key: Seq<char>, j: int, k: int)
    requires
        0 <= k <= j < s.len(),
        key_of(s[j]) == key,
        forall|t: int| k <= t < j ==> key_of(#[trigger] s[t]) != key,
    ensures
        find_key_from(s, key_of, key, k) == Some(j),
    decreases j - k,
{
    if k < j {
        lemma_find_key_at(s, key_of, key, j, k + 1);
    }
}

/// A sequence where no position carries `key` does not find it.
proof fn lemma_find_key_absent<T>(s: Seq<T>, key_of: spec_fn(T) -> Seq<char>, key: Seq<char>)
    requires
        forall|t: int| 0 <= t < s.len() ==> key_of(#[trigger] s[t]) != key,
    ensures
        find_key_from(s, key_of, key, 0) is None,
{
    lemma_find_key(s, key_of, key, 0);
}

/// The element found under `key`.
pub open spec fn lookup<T>(s: Seq<T>, key_of: spec_fn(T) -> Seq<char>, key: Seq<char>) -> Option<T> {
    match find_key_from(s, key_of, key, 0) {
        Some(i) => Some(s[i]),
        None => None,
    }
}

/// Removing an element whose key is not `key` finds the same element under `key`.
proof fn lemma_lookup_remove<T>(a: Seq<T>, i: int, key_of: spec_fn(T) -> Seq<char>, key: Seq<char>)
    requires
        0 <= i < a.len(),
        key_of(a[i]) != key,
    ensures
        lookup(a.remove(i), key_of, key) == lookup(a, key_of, key),
{
    let b = a.remove(i);
    lemma_find_key(a, key_of, key, 0);
    match find_key_from(a, key_of, key, 0) {
        Some(j0) => {
            if j0 < i {
                assert(b[j0] == a[j0]);
                assert forall|t: int| 0 <= t < j0 implies key_of(#[trigger] b[t]) != key by {
                    assert(b[t] == a[t]);
                }
                lemma_find_key_at(b, key_of, key, j0, 0);
            } else {
                assert(b[j0 - 1] == a[j0]);
                assert forall|t: int| 0 <= t < j0 - 1 implies key_of(#[trigger] b[t]) != key by {
                    if t < i {
                        assert(b[t] == a[t]);
                    } else {
                        assert(b[t] == a[t + 1]);
                    }
                }
                lemma_find_key_at(b, key_of, key, j0 - 1, 0);
            }
        },
        None => {
            assert forall|t: int| 0 <= t < b.len() implies key_of(#[trigger] b[t]) != key by {
                if t < i {
                    assert(b[t] == a[t]);
                } else {
                    assert(b[t] == a[t + 1]);
                }
            }
            lemma_find_key_absent(b, key_of, key);
        },
    }
}

/// Removing the only element that carries `key` leaves nothing under `key`.
proof fn lemma_lookup_remove_only<T>(a: Seq<T>, i: int, key_of: spec_fn(T) -> Seq<char>, key: Seq<char>)
    requires
        0 <= i < a.len(),
        forall|t: int| 0 <= t < a.len() && t != i ==> key_of(#[trigger] a[t]) != key,
    ensures
        find_key_from(a.remove(i), key_of, key, 0) is None,
{
    let b = a.remove(i);
    assert forall|t: int| 0 <= t < b.len() implies key_of(#[trigger] b[t]) != key by {
        if t < i {
            assert(b[t] == a[t]);
        } else {
            assert(b[t] == a[t + 1]);
        }
    }
    lemma_find_key_absent(b, key_of, key);
}

/// No two elements of `s` carry the same key.
pub open spec fn keys_distinct<T>(s: Seq<T>, key_of: spec_fn(T) -> Seq<char>) -> bool {
    forall|a: int, b: int| 0 <= a < s.len() && 0 <= b < s.len() && a != b ==> key_of(#[trigger] s[a]) != key_of(#[trigger] s[b])
}

/// A handle whose call counter advanced by one (saturating at `u64::MAX`).
pub open spec fn counted<S>(h: ModuleHandle<S>) -> ModuleHandle<S> {
    ModuleHandle { call_count: if h.call_count < u64::MAX { (h.call_count + 1) as u64 } else { h.call_count }, ..h }
}

/// An instance whose call counter advanced by one (saturating at `u64::MAX`).
pub open spec fn counted_instance<S>(i: ModuleInstance<S>) -> ModuleInstance<S> {
    ModuleInstance { call_count: if i.call_count < u64::MAX { (i.call_count + 1) as u64 } else { i.call_count }, ..i }
}

pub open spec fn not_loaded_message(name: Seq<char>) -> Seq<char> {
    "module '"@ + name + "' not loaded"@
}

pub open spec fn not_ecmascript_message(name: Seq<char>) -> Seq<char> {
    "module '"@ + name + "' is not an ECMAScript module"@
}

pub open spec fn entry_not_found_message(entry: Seq<char>, name: Seq<char>) -> Seq<char> {
    "entrypoint '"@ + entry + "' not found in module '"@ + name + "'"@
}

pub open spec fn instance_not_found_message(key: Seq<char>) -> Seq<char> {
    "instance '"@ + key + "' not found"@
}

fn quoted_message(prefix: &str, name: &str, suffix: &str) -> (r: String)
    ensures
        r@ == prefix@ + name@ + suffix@,
{
    let mut m = String::from_str(prefix);
    m.append(name);
    m.append(suffix);
    m
}

/// Replacing an instance by one with the same key keeps the keys distinct and
/// every other key's instance.
proof fn lemma_instances_update<S>(before: Seq<ModuleInstance<S>>, i: int, x: ModuleInstance<S>)
    requires
        0 <= i < before.len(),
        x.key@ == before[i].key@,
        keys_distinct(before, instance_key_of()),
    ensures
        keys_distinct(before.update(i, x), instance_key_of()),
        lookup(before.update(i, x), instance_key_of(), x.key@) == Some(x),
        forall|k: Seq<char>| k != x.key@ ==> #[trigger] lookup(before.update(i, x), instance_key_of(), k)
            == lookup(before, instance_key_of(), k),
{
    let after = before.update(i, x);
    assert forall|k: Seq<char>| #[trigger] find_key_from(after, instance_key_of(), k, 0) == find_key_from(before, instance_key_of(), k, 0) by {
        lemma_find_key_set(before, i, x, instance_key_of(), k);
    }
    assert forall|t: int| 0 <= t < i implies instance_key_of()(#[trigger] before[t]) != x.key@ by {
        assert(instance_key_of()(before[t]) != instance_key_of()(before[i]));
    }
    lemma_find_key_at(before, instance_key_of(), x.key@, i, 0);
    assert forall|k: Seq<char>| k != x.key@ implies #[trigger] lookup(after, instance_key_of(), k) == lookup(before, instance_key_of(), k) by {
        lemma_find_key(before, instance_key_of(), k, 0);
    }
    assert forall|a: int, b: int| 0 <= a < after.len() && 0 <= b < after.len() && a != b
        implies instance_key_of()(#[trigger] after[a]) != instance_key_of()(#[trigger] after[b]) by {
        assert(instance_key_of()(after[a]) == instance_key_of()(before[a]));
        assert(instance_key_of()(after[b]) == instance_key_of()(before[b]));
    }
}

/// Where a call goes.
#[derive(Clone, Copy, Debug, PartialEq, Eq, Structural)]
pub enum CallTarget {
    /// The module's ECMAScript sidecar (JSON-RPC).
    Sidecar,
    /// The compiled function at this address.
    Native(usize),
}

/// The loaded modules and the running instances of the host.
pub struct ModuleHost<S> {
    modules: Vec<ModuleHandle<S>>,
    instances: Vec<ModuleInstance<S>>,
}

impl<S> ModuleHost<S> {
    pub closed spec fn modules(self) -> Seq<ModuleHandle<S>> {
        self.modules@
    }

    pub closed spec fn instances(self) -> Seq<ModuleInstance<S>> {
        self.instances@
    }

    /// No two modules share a name and no two instances share a key.
    pub closed spec fn wf(self) -> bool {
        &&& keys_distinct(self.modules@, module_name_of())
        &&& keys_distinct(self.instances@, instance_key_of())
    }

    /// The module loaded under `name`.
    pub open spec fn module(self, name: Seq<char>) -> Option<ModuleHandle<S>> {
        match find_key_from(self.modules(), module_name_of(), name, 0) {
            Some(i) => Some(self.modules()[i]),
            None => None,
        }
    }

    /// The instance registered under `key`.
    pub open spec fn spec_instance(self, key: Seq<char>) -> Option<ModuleInstance<S>> {
        match find_key_from(self.instances(), instance_key_of(), key, 0) {
            Some(i) => Some(self.instances()[i]),
            None => None,
        }
    }

    /// A host with no modules and no instances.
    pub fn new() -> (r: Self)
        ensures
            r.wf(),
            r.modules().len() == 0,
            r.instances().len() == 0,
    {
        ModuleHost { modules: Vec::new(), instances: Vec::new() }
    }

    /// The registry key of an instance: `"{module_name}@{instance_id}"`.
    pub fn instance_key(module_name: &str, instance_id: &str) -> (r: String)
        ensures
            r@ == module_name@ + "@"@ + instance_id@,
    {
        quoted_message(module_name, "@", instance_id)
    }

    fn index_of(&self, name: &str) -> (r: Option<usize>)
        ensures
            r matches Some(j) ==> find_key_from(self.modules(), module_name_of(), name@, 0) == Some(j as int)
                && j < self.modules().len() && self.modules()[j as int].manifest.name@ == name@,
            r is None ==> find_key_from(self.modules(), module_name_of(), name@, 0) is None,
    {
        proof { lemma_find_key(self.modules@, module_name_of(), name@, 0); }
        let target = chars_of(name);
        let mut i: usize = 0;
        while i < self.modules.len()
            invariant
                i <= self.modules.len(),
                target@ == name@,
                find_key_from(self.modules@, module_name_of(), name@, 0) == find_key_from(self.modules@, module_name_of(), name@, i as int),
            decreases self.modules.len() - i,
        {
            let n = chars_of(self.modules[i].manifest.name.as_str());
            if chars_eq(&n, &target) {
                return Some(i);
            }
            i = i + 1;
        }
        None
    }

    fn instance_index(&self, key: &str) -> (r: Option<usize>)
        ensures
            r matches Some(j) ==> find_key_from(self.instances(), instance_key_of(), key@, 0) == Some(j as int)
                && j < self.instances().len() && self.instances()[j as int].key@ == key@,
            r is None ==> find_key_from(self.instances(), instance_key_of(), key@, 0) is None,
    {
        proof { lemma_find_key(self.instances@, instance_key_of(), key@, 0); }
        let target = chars_of(key);
        let mut i: usize = 0;
        while i < self.instances.len()
            invariant
                i <= self.instances.len(),
                target@ == key@,
                find_key_from(self.instances@, instance_key_of(), key@, 0) == find_key_from(self.instances@, instance_key_of(), key@, i as int),
            decreases self.instances.len() - i,
        {
            let n = chars_of(self.instances[i].key.as_str());
            if chars_eq(&n, &target) {
                return Some(i);
            }
            i = i + 1;
        }
        None
    }

    /// The module loaded under `name`.
    pub fn get(&self, name: &str) -> (r: Option<&ModuleHandle<S>>)
        ensures
            match self.module(name@) {
                Some(h) => r == Some(&h),
                None => r is None,
            },
    {
        match self.index_of(name) {
            Some(i) => Some(&self.modules[i]),
            None => None,
        }
    }

    /// The names of the loaded modules, each exactly once.
    pub fn loaded_modules(&self) -> (r: Vec<&str>)
        requires
            self.wf(),
        ensures
            r@.len() == self.modules().len(),
            forall|i: int| 0 <= i < r@.len() ==> (#[trigger] r@[i])@ == self.modules()[i].manifest.name@,
            forall|i: int, j: int| 0 <= i < r@.len() && 0 <= j < r@.len() && i != j ==> (#[trigger] r@[i])@ != (#[trigger] r@[j])@,
            forall|n: Seq<char>| #[trigger] self.module(n) is Some <==> exists|i: int| 0 <= i < r@.len() && (#[trigger] r@[i])@ == n,
    {
        let mut r: Vec<&str> = Vec::new();
        let mut i: usize = 0;
        while i < self.modules.len()
            invariant
                i <= self.modules.len(),
                r@.len() == i,
                forall|k: int| 0 <= k < i ==> (#[trigger] r@[k])@ == self.modules@[k].manifest.name@,
            decreases self.modules.len() - i,
        {
            r.push(self.modules[i].manifest.name.as_str());
            i = i + 1;
        }
        proof {
            assert forall|i: int, j: int| 0 <= i < r@.len() && 0 <= j < r@.len() && i != j implies (#[trigger] r@[i])@ != (#[trigger] r@[j])@ by {
                assert(module_name_of::<S>()(self.modules@[i]) != module_name_of::<S>()(self.modules@[j]));
            }
            assert forall|n: Seq<char>| #[trigger] self.module(n) is Some <==> exists|i: int| 0 <= i < r@.len() && (#[trigger] r@[i])@ == n by {
                lemma_find_key(self.modules@, module_name_of::<S>(), n, 0);
                if self.module(n) is Some {
                    let i = find_key_from(self.modules@, module_name_of::<S>(), n, 0)->Some_0;
                    assert(r@[i]@ == n);
                }
                if exists|i: int| 0 <= i < r@.len() && (#[trigger] r@[i])@ == n {
                    let i = choose|i: int| 0 <= i < r@.len() && (#[trigger] r@[i])@ == n;
                    assert(module_name_of::<S>()(self.modules@[i]) == n);
                }
            }
        }
        r
    }

    /// Registers `handle` under its manifest name, replacing the module loaded
    /// under that name, if any.
    pub fn insert_module(&mut self, handle: ModuleHandle<S>)
        requires
            old(self).wf(),
        ensures
            final(self).wf(),
            final(self).module(handle.manifest.name@) == Some(handle),
            forall|n: Seq<char>| n != handle.manifest.name@ ==> #[trigger] final(self).module(n) == old(self).module(n),
            final(self).instances() == old(self).instances(),
    {
        let ghost h = handle;
        let ghost before = self.modules@;
        match self.index_of(handle.manifest.name.as_str()) {
            Some(i) => {
                self.modules.set(i, handle);
                proof {
                    assert forall|n: Seq<char>| #[trigger] find_key_from(self.modules@, module_name_of(), n, 0) == find_key_from(before, module_name_of(), n, 0) by {
                        lemma_find_key_set(before, i as int, h, module_name_of(), n);
                    }
                    lemma_find_key(before, module_name_of(), h.manifest.name@, 0);
                    assert forall|n: Seq<char>| n != h.manifest.name@ implies #[trigger] self.module(n) == old(self).module(n) by {
                        lemma_find_key(before, module_name_of(), n, 0);
                    }
                    assert forall|a: int, b: int| 0 <= a < self.modules@.len() && 0 <= b < self.modules@.len() && a != b
                        implies module_name_of()(#[trigger] self.modules@[a]) != module_name_of()(#[trigger] self.modules@[b]) by {
                        assert(module_name_of()(self.modules@[a]) == module_name_of()(before[a]));
                        assert(module_name_of()(self.modules@[b]) == module_name_of()(before[b]));
                    }
                }
            },
            None => {
                self.modules.push(handle);
                proof {
                    assert forall|n: Seq<char>| #[trigger] find_key_from(self.modules@, module_name_of(), n, 0) == (match find_key_from(before, module_name_of(), n, 0) {
                        Some(j) => Some(j),
                        None => if h.manifest.name@ == n { Some(before.len() as int) } else { None },
                    }) by {
                        lemma_find_key_push(before, h, module_name_of(), n, 0);
                    }
                    assert forall|n: Seq<char>| n != h.manifest.name@ implies #[trigger] self.module(n) == old(self).module(n) by {
                        lemma_find_key(before, module_name_of(), n, 0);
                    }
                    lemma_find_key(before, module_name_of(), h.manifest.name@, 0);
                    assert forall|a: int, b: int| 0 <= a < self.modules@.len() && 0 <= b < self.modules@.len() && a != b
                        implies module_name_of()(#[trigger] self.modules@[a]) != module_name_of()(#[trigger] self.modules@[b]) by {
                        if a < before.len() && b < before.len() {
                            assert(self.modules@[a] == before[a]);
                            assert(self.modules@[b] == before[b]);
                        } else if a < before.len() {
                            assert(self.modules@[a] == before[a]);
                        } else {
                            assert(self.modules@[b] == before[b]);
                        }
                    }
                }
            },
        }
    }

    /// Registers `instance` under its key, replacing the instance registered under
    /// that key, if any.
    pub fn insert_instance(&mut self, instance: ModuleInstance<S>)
        requires
            old(self).wf(),
        ensures
            final(self).wf(),
            final(self).spec_instance(instance.key@) == Some(instance),
            forall|k: Seq<char>| k != instance.key@ ==> #[trigger] final(self).spec_instance(k) == old(self).spec_instance(k),
            final(self).modules() == old(self).modules(),
    {
        let ghost x = instance;
        let ghost before = self.instances@;
        match self.instance_index(instance.key.as_str()) {
            Some(i) => {
                self.instances.set(i, instance);
                proof {
                    assert forall|k: Seq<char>| #[trigger] find_key_from(self.instances@, instance_key_of(), k, 0) == find_key_from(before, instance_key_of(), k, 0) by {
                        lemma_find_key_set(before, i as int, x, instance_key_of(), k);
                    }
                    lemma_find_key(before, instance_key_of(), x.key@, 0);
                    assert forall|k: Seq<char>| k != x.key@ implies #[trigger] self.spec_instance(k) == old(self).spec_instance(k) by {
                        lemma_find_key(before, instance_key_of(), k, 0);
                    }
                    assert forall|a: int, b: int| 0 <= a < self.instances@.len() && 0 <= b < self.instances@.len() && a != b
                        implies instance_key_of()(#[trigger] self.instances@[a]) != instance_key_of()(#[trigger] self.instances@[b]) by {
                        assert(instance_key_of()(self.instances@[a]) == instance_key_of()(before[a]));
                        assert(instance_key_of()(self.instances@[b]) == instance_key_of()(before[b]));
                    }
                }
            },
            None => {
                self.instances.push(instance);
                proof {
                    assert forall|k: Seq<char>| #[trigger] find_key_from(self.instances@, instance_key_of(), k, 0) == (match find_key_from(before, instance_key_of(), k, 0) {
                        Some(j) => Some(j),
                        None => if x.key@ == k { Some(before.len() as int) } else { None },
                    }) by {
                        lemma_find_key_push(before, x, instance_key_of(), k, 0);
                    }
                    assert forall|k: Seq<char>| k != x.key@ implies #[trigger] self.spec_instance(k) == old(self).spec_instance(k) by {
                        lemma_find_key(before, instance_key_of(), k, 0);
                    }
                    lemma_find_key(before, instance_key_of(), x.key@, 0);
                    assert forall|a: int, b: int| 0 <= a < self.instances@.len() && 0 <= b < self.instances@.len() && a != b
                        implies instance_key_of()(#[trigger] self.instances@[a]) != instance_key_of()(#[trigger] self.instances@[b]) by {
                        if a < before.len() && b < before.len() {
                            assert(self.instances@[a] == before[a]);
                            assert(self.instances@[b] == before[b]);
                        } else if a < before.len() {
                            assert(self.instances@[a] == before[a]);
                        } else {
                            assert(self.instances@[b] == before[b]);
                        }
                    }
                }
            },
        }
    }

    /// The module loaded under `name`, or `module '<name>' not loaded`.
    pub fn require_module(&self, name: &str) -> (r: Result<&ModuleHandle<S>, String>)
        ensures
            match self.module(name@) {
                Some(h) => r matches Ok(x) && *x == h,
                None => r matches Err(e) && e@ == not_loaded_message(name@),
            },
    {
        match self.index_of(name) {
            Some(i) => Ok(&self.modules[i]),
            None => Err(quoted_message("module '", name, "' not loaded")),
        }
    }

    /// Whether `new` may replace the module loaded as `module_name`: it must be
    /// loaded, and the replacement must pass [`swap_check`].
    pub fn check_swap(&self, module_name: &str, new: &ModuleManifest) -> (r: Result<(), String>)
        ensures
            match self.module(module_name@) {
                None => r matches Err(e) && e@ == not_loaded_message(module_name@),
                Some(h) => match swap_verdict(h.manifest, *new) {
                    Ok(()) => r is Ok,
                    Err(m) => r matches Err(e) && e@ == m,
                },
            },
    {
        let old = match self.require_module(module_name) {
            Ok(h) => h,
            Err(e) => return Err(e),
        };
        swap_check(&old.manifest, new)
    }

    /// Calls `entrypoint` of `module_name` with the integer arguments `args`:
    /// a compiled module natively through `invoke` (counted once), an
    /// ECMAScript module through `rpc` on its sidecar with `args` as a JSON
    /// array. A sidecar's reply is counted by [`ModuleHost::call_json`], and once
    /// more when it is JSON; its integer `result` is the answer (see
    /// [`ecma_reply_result`]). A module that is not loaded, or a compiled one
    /// without the function, is refused with the host unchanged.
    pub fn call<F: Fn(usize) -> i64, G: Fn(&S, &str, &str) -> Result<String, String>>(
        &mut self,
        module_name: &str,
        entrypoint: &str,
        args: &[i64],
        invoke: F,
        rpc: G,
    ) -> (r: Result<i64, String>)
        requires
            old(self).wf(),
            forall|p: usize| invoke.requires((p,)),
            forall|s: &S, e: &str, a: &str| rpc.requires((s, e, a)),
        ensures
            final(self).wf(),
            final(self).instances() == old(self).instances(),
            forall|n: Seq<char>| n != module_name@ ==> #[trigger] final(self).module(n) == old(self).module(n),
            match old(self).module(module_name@) {
                None => (r matches Err(e) && e@ == not_loaded_message(module_name@)) && *final(self) == *old(self),
                Some(h) => match h.runtime {
                    IrRuntime::Jit { .. } => match h.runtime.spec_function_ptr(entrypoint@) {
                        None => (r matches Err(e) && e@ == entry_not_found_message(entrypoint@, module_name@))
                            && *final(self) == *old(self),
                        Some(p) => (r matches Ok(v) && invoke.ensures((p,), v))
                            && final(self).module(module_name@) == Some(counted(h)),
                    },
                    IrRuntime::Ecma(sidecar) => exists|a: &str, reply: Result<String, String>|
                        a@ == json_int_array(args@) && #[trigger] rpc.ensures((&sidecar, entrypoint, a), reply)
                        && match reply {
                            Err(e) => r == Err::<i64, String>(e) && final(self).module(module_name@) == Some(h),
                            Ok(body) => ecma_reply_result(body@, r) && final(self).module(module_name@) == Some(
                                if reply_result_of(body@) is Err { counted(h) } else { counted(counted(h)) }),
                        },
                },
            },
    {
        let compiled = self.call_compiled(module_name, entrypoint, invoke);
        match compiled {
            Err(e) => {
                return Err(e);
            },
            Ok(Some(v)) => {
                return Ok(v);
            },
            Ok(None) => {},
        }
        let json = int_args_json(args);
        let a: &str = json.as_str();
        let reply = self.call_json(module_name, entrypoint, a, rpc);
        let body = match reply {
            Err(e) => {
                return Err(e);
            },
            Ok(body) => body,
        };
        match parse_reply_result(body.as_str()) {
            Err(m) => {
                let mut e = String::from_str("bad kernel response: ");
                e.append(m.as_str());
                Err(e)
            },
            Ok(v) => {
                self.record_call(module_name);
                match v {
                    Some(x) => Ok(x),
                    None => Err(no_numeric_result(body.as_str())),
                }
            },
        }
    }

    /// Calls `entrypoint` of the compiled module `module_name` through
    /// `invoke`, which runs the function at the address it is given, and counts
    /// the call. An ECMAScript module is served by its sidecar instead: nothing
    /// is called and `Ok(None)` comes back. A module that is not loaded, or has
    /// no such function, is refused with the host unchanged.
    pub fn call_compiled<F: Fn(usize) -> i64>(&mut self, module_name: &str, entrypoint: &str, invoke: F) -> (r: Result<Option<i64>, String>)
        requires
            old(self).wf(),
            forall|p: usize| invoke.requires((p,)),
        ensures
            final(self).wf(),
            match old(self).module(module_name@) {
                None => (r matches Err(e) && e@ == not_loaded_message(module_name@)) && *final(self) == *old(self),
                Some(h) => match h.runtime {
                    IrRuntime::Ecma(_) => r == Ok::<Option<i64>, String>(None) && *final(self) == *old(self),
                    IrRuntime::Jit { .. } => match h.runtime.spec_function_ptr(entrypoint@) {
                        None => (r matches Err(e) && e@ == entry_not_found_message(entrypoint@, module_name@))
                            && *final(self) == *old(self),
                        Some(p) => (r matches Ok(Some(v)) && invoke.ensures((p,), v))
                            && final(self).module(module_name@) == Some(counted(h))
                            && (forall|n: Seq<char>| n != module_name@ ==> #[trigger] final(self).module(n) == old(self).module(n))
                            && final(self).instances() == old(self).instances(),
                    },
                },
            },
    {
        let target = match self.resolve_call(module_name, entrypoint) {
            Ok(t) => t,
            Err(e) => {
                return Err(e);
            },
        };
        match target {
            CallTarget::Sidecar => Ok(None),
            CallTarget::Native(p) => {
                let v = invoke(p);
                self.record_call(module_name);
                Ok(Some(v))
            },
        }
    }

    /// Hot swap: replaces the module loaded as `module_name` by one with the
    /// manifest `new` and the runtime `runtime`, with no calls counted yet. It is
    /// refused, leaving the host as it was, when `module_name` is not loaded or
    /// the replacement fails [`swap_check`] (another name, or a grant the loaded
    /// module does not hold).
    pub fn swap_module(&mut self, module_name: &str, new: ModuleManifest, runtime: IrRuntime<S>) -> (r: Result<(), String>)
        requires
            old(self).wf(),
        ensures
            final(self).wf(),
            match old(self).module(module_name@) {
                None => (r matches Err(e) && e@ == not_loaded_message(module_name@)) && *final(self) == *old(self),
                Some(h) => match swap_verdict(h.manifest, new) {
                    Err(m) => (r matches Err(e) && e@ == m) && *final(self) == *old(self),
                    Ok(()) => r is Ok
                        && final(self).module(module_name@) == Some(ModuleHandle { manifest: new, runtime, call_count: 0 })
                        && (forall|n: Seq<char>| n != module_name@ ==> #[trigger] final(self).module(n) == old(self).module(n))
                        && final(self).instances() == old(self).instances(),
                },
            },
    {
        if let Err(e) = self.check_swap(module_name, &new) {
            return Err(e);
        }
        proof {
            let i = find_key_from(self.modules(), module_name_of(), module_name@, 0)->Some_0;
            lemma_find_key(self.modules(), module_name_of::<S>(), module_name@, 0);
            assert(self.modules()[i].manifest.name@ == module_name@);
        }
        self.insert_module(ModuleHandle { manifest: new, runtime, call_count: 0 });
        Ok(())
    }

    /// Where a call of `entrypoint` in `module_name` goes: the module's sidecar,
    /// or the address of the compiled function.
    pub fn resolve_call(&self, module_name: &str, entrypoint: &str) -> (r: Result<CallTarget, String>)
        ensures
            match self.module(module_name@) {
                None => r matches Err(e) && e@ == not_loaded_message(module_name@),
                Some(h) => match h.runtime {
                    IrRuntime::Ecma(_) => r == Ok::<CallTarget, String>(CallTarget::Sidecar),
                    IrRuntime::Jit { .. } => match h.runtime.spec_function_ptr(entrypoint@) {
                        Some(p) => r == Ok::<CallTarget, String>(CallTarget::Native(p)),
                        None => r matches Err(e) && e@ == entry_not_found_message(entrypoint@, module_name@),
                    },
                },
            },
    {
        let h = match self.require_module(module_name) {
            Ok(h) => h,
            Err(e) => return Err(e),
        };
        if h.is_ecmascript() {
            return Ok(CallTarget::Sidecar);
        }
        match h.runtime.function_ptr(entrypoint) {
            Some(p) => Ok(CallTarget::Native(p)),
            None => {
                let mut m = quoted_message("entrypoint '", entrypoint, "' not found in module '");
                m.append(module_name);
                m.append("'");
                Err(m)
            },
        }
    }

    /// Counts one more call served by `module_name`, if it is loaded.
    pub fn record_call(&mut self, module_name: &str)
        requires
            old(self).wf(),
        ensures
            final(self).wf(),
            match old(self).module(module_name@) {
                Some(h) => final(self).module(module_name@) == Some(counted(h)),
                None => final(self).module(module_name@) is None,
            },
            forall|n: Seq<char>| n != module_name@ ==> #[trigger] final(self).module(n) == old(self).module(n),
            final(self).instances() == old(self).instances(),
    {
        match self.index_of(module_name) {
            Some(i) => {
                let ghost before = self.modules@;
                let mut h = self.modules.remove(i);
                h.call_count = if h.call_count < u64::MAX { h.call_count + 1 } else { h.call_count };
                let ghost hv = h;
                self.modules.insert(i, h);
                proof {
                    assert(self.modules@ =~= before.update(i as int, hv));
                    assert forall|n: Seq<char>| #[trigger] find_key_from(self.modules@, module_name_of(), n, 0) == find_key_from(before, module_name_of(), n, 0) by {
                        lemma_find_key_set(before, i as int, hv, module_name_of(), n);
                    }
                    assert forall|n: Seq<char>| n != module_name@ implies #[trigger] self.module(n) == old(self).module(n) by {
                        lemma_find_key(before, module_name_of(), n, 0);
                    }
                    assert forall|a: int, b: int| 0 <= a < self.modules@.len() && 0 <= b < self.modules@.len() && a != b
                        implies module_name_of()(#[trigger] self.modules@[a]) != module_name_of()(#[trigger] self.modules@[b]) by {
                        assert(module_name_of()(self.modules@[a]) == module_name_of()(before[a]));
                        assert(module_name_of()(self.modules@[b]) == module_name_of()(before[b]));
                    }
                }
            },
            None => {},
        }
    }

    /// Calls `entrypoint` of the ECMAScript module `module_name` through `rpc`
    /// on its sidecar (a JSON-RPC exchange: entry point and JSON arguments in,
    /// the raw JSON response body out). A served call is counted.
    pub fn call_json<F: Fn(&S, &str, &str) -> Result<String, String>>(
        &mut self,
        module_name: &str,
        entrypoint: &str,
        args_json: &str,
        rpc: F,
    ) -> (r: Result<String, String>)
        requires
            old(self).wf(),
            forall|s: &S, e: &str, a: &str| rpc.requires((s, e, a)),
        ensures
            final(self).wf(),
            final(self).instances() == old(self).instances(),
            forall|n: Seq<char>| n != module_name@ ==> #[trigger] final(self).module(n) == old(self).module(n),
            match old(self).module(module_name@) {
                None => (r matches Err(e) && e@ == not_loaded_message(module_name@))
                    && final(self).module(module_name@) is None,
                Some(h) => match h.runtime {
                    IrRuntime::Jit { .. } => (r matches Err(e) && e@ == not_ecmascript_message(module_name@))
                        && final(self).module(module_name@) == Some(h),
                    IrRuntime::Ecma(sidecar) => rpc.ensures((&sidecar, entrypoint, args_json), r)
                        && (r is Ok ==> final(self).module(module_name@) == Some(counted(h)))
                        && (r is Err ==> final(self).module(module_name@) == Some(h)),
                },
            },
    {
        let result = {
            let h = match self.require_module(module_name) {
                Ok(h) => h,
                Err(e) => return Err(e),
            };
            let sidecar = match h.ecma() {
                Some(s) => s,
                None => return Err(quoted_message("module '", module_name, "' is not an ECMAScript module")),
            };
            rpc(sidecar, entrypoint, args_json)
        };
        match result {
            Ok(body) => {
                self.record_call(module_name);
                Ok(body)
            },
            Err(e) => Err(e),
        }
    }

    /// The instance registered under `key`.
    pub fn instance(&self, key: &str) -> (r: Option<&ModuleInstance<S>>)
        ensures
            match self.spec_instance(key@) {
                Some(i) => r matches Some(x) && *x == i,
                None => r is None,
            },
    {
        match self.instance_index(key) {
            Some(i) => Some(&self.instances[i]),
            None => None,
        }
    }

    /// The kernel session bound to the instance `key`, if any.
    pub fn session_handle(&self, key: &str) -> (r: Option<i64>)
        ensures
            match self.spec_instance(key@) {
                Some(i) => r == i.session,
                None => r is None,
            },
    {
        match self.instance(key) {
            Some(i) => i.session,
            None => None,
        }
    }

    /// Calls `entrypoint` of the instance `key` through `rpc` on its own sidecar;
    /// a served call is counted.
    pub fn call_json_instance<F: Fn(&S, &str, &str) -> Result<String, String>>(
        &mut self,
        key: &str,
        entrypoint: &str,
        args_json: &str,
        rpc: F,
    ) -> (r: Result<String, String>)
        requires
            old(self).wf(),
            forall|s: &S, e: &str, a: &str| rpc.requires((s, e, a)),
        ensures
            final(self).wf(),
            final(self).modules() == old(self).modules(),
            forall|k: Seq<char>| k != key@ ==> #[trigger] final(self).spec_instance(k) == old(self).spec_instance(k),
            match old(self).spec_instance(key@) {
                None => (r matches Err(e) && e@ == instance_not_found_message(key@))
                    && final(self).spec_instance(key@) is None,
                Some(inst) => rpc.ensures((&inst.sidecar, entrypoint, args_json), r)
                    && (r is Ok ==> final(self).spec_instance(key@) == Some(counted_instance(inst)))
                    && (r is Err ==> final(self).spec_instance(key@) == Some(inst)),
            },
    {
        let i = match self.instance_index(key) {
            Some(i) => i,
            None => return Err(quoted_message("instance '", key, "' not found")),
        };
        let result = rpc(&self.instances[i].sidecar, entrypoint, args_json);
        match result {
            Ok(body) => {
                let ghost before = self.instances@;
                let mut x = self.instances.remove(i);
                x.call_count = if x.call_count < u64::MAX { x.call_count + 1 } else { x.call_count };
                let ghost xv = x;
                self.instances.insert(i, x);
                proof {
                    assert(self.instances@ =~= before.update(i as int, xv));
                    lemma_instances_update(before, i as int, xv);
                    assert forall|k: Seq<char>| k != key@ implies #[trigger] self.spec_instance(k) == old(self).spec_instance(k) by {
                        assert(lookup(self.instances@, instance_key_of(), k) == lookup(before, instance_key_of(), k));
                    }
                    assert(lookup(self.instances@, instance_key_of(), key@) == Some(xv));
                }
                Ok(body)
            },
            Err(e) => Err(e),
        }
    }

    /// Binds the kernel session `handle` to the instance `key`.
    pub fn bind_session(&mut self, key: &str, handle: i64) -> (r: Result<i64, String>)
        requires
            old(self).wf(),
        ensures
            final(self).wf(),
            final(self).modules() == old(self).modules(),
            forall|k: Seq<char>| k != key@ ==> #[trigger] final(self).spec_instance(k) == old(self).spec_instance(k),
            match old(self).spec_instance(key@) {
                None => (r matches Err(e) && e@ == instance_not_found_message(key@))
                    && final(self).spec_instance(key@) is None,
                Some(inst) => r == Ok::<i64, String>(handle)
                    && final(self).spec_instance(key@) == Some(ModuleInstance { session: Some(handle), ..inst }),
            },
    {
        let i = match self.instance_index(key) {
            Some(i) => i,
            None => return Err(quoted_message("instance '", key, "' not found")),
        };
        let ghost before = self.instances@;
        let mut x = self.instances.remove(i);
        x.session = Some(handle);
        let ghost xv = x;
        self.instances.insert(i, x);
        proof {
            assert(self.instances@ =~= before.update(i as int, xv));
            lemma_instances_update(before, i as int, xv);
            assert forall|k: Seq<char>| k != key@ implies #[trigger] self.spec_instance(k) == old(self).spec_instance(k) by {
                assert(lookup(self.instances@, instance_key_of(), k) == lookup(before, instance_key_of(), k));
            }
            assert(lookup(self.instances@, instance_key_of(), key@) == Some(xv));
        }
        Ok(handle)
    }

    /// Removes the instance `key` from the registry and hands it back.
    pub fn remove_instance(&mut self, key: &str) -> (r: Result<ModuleInstance<S>, String>)
        requires
            old(self).wf(),
        ensures
            final(self).wf(),
            final(self).modules() == old(self).modules(),
            final(self).spec_instance(key@) is None,
            forall|k: Seq<char>| k != key@ ==> #[trigger] final(self).spec_instance(k) == old(self).spec_instance(k),
            match old(self).spec_instance(key@) {
                None => r matches Err(e) && e@ == instance_not_found_message(key@),
                Some(inst) => r == Ok::<ModuleInstance<S>, String>(inst),
            },
    {
        let i = match self.instance_index(key) {
            Some(i) => i,
            None => return Err(quoted_message("instance '", key, "' not found")),
        };
        let ghost before = self.instances@;
        let x = self.instances.remove(i);
        proof {
            assert forall|t: int| 0 <= t < before.len() && t != i implies instance_key_of()(#[trigger] before[t]) != key@ by {
                assert(instance_key_of()(before[i as int]) == key@);
            }
            lemma_lookup_remove_only(before, i as int, instance_key_of(), key@);
            assert forall|k: Seq<char>| k != key@ implies #[trigger] self.spec_instance(k) == old(self).spec_instance(k) by {
                lemma_lookup_remove(before, i as int, instance_key_of(), k);
            }
            assert forall|a: int, b: int| 0 <= a < self.instances@.len() && 0 <= b < self.instances@.len() && a != b
                implies instance_key_of()(#[trigger] self.instances@[a]) != instance_key_of()(#[trigger] self.instances@[b]) by {
                let a0 = if a < i { a } else { a + 1 };
                let b0 = if b < i { b } else { b + 1 };
                assert(self.instances@[a] == before[a0]);
                assert(self.instances@[b] == before[b0]);
            }
        }
        Ok(x)
    }
}

} // verus!

verus! {

pub open spec fn archetype_message(archetype: Seq<char>) -> Seq<char> {
    "instance isolation requires the 'ecmascript' archetype, got '"@ + archetype + "'"@
}

/// Instances can only be made of ECMAScript modules.
pub fn require_ecmascript_archetype(manifest: &ModuleManifest) -> (r: Result<(), String>)
    ensures
        manifest.archetype@ == "ecmascript"@ ==> r is Ok,
        manifest.archetype@ != "ecmascript"@ ==> (r matches Err(e) && e@ == archetype_message(manifest.archetype@)),
{
    let a = chars_of(manifest.archetype.as_str());
    let want = chars_of("ecmascript");
    if chars_eq(&a, &want) {
        Ok(())
    } else {
        Err(quoted_message("instance isolation requires the 'ecmascript' archetype, got '", manifest.archetype.as_str(), "'"))
    }
}

/// An archive path with every `\` turned into `/`.
pub open spec fn slash_path(p: Seq<char>) -> Seq<char> {
    p.map_values(|c: char| if c == '\\' { '/' } else { c })
}

/// Whether one of the `/`-separated components of `p` is `..`.
pub open spec fn has_parent_component(p: Seq<char>) -> bool {
    exists|i: int| 0 <= i && i + 2 <= p.len() && #[trigger] p[i] == '.' && p[i + 1] == '.'
        && (i == 0 || p[i - 1] == '/') && (i + 2 == p.len() || p[i + 2] == '/')
}

pub open spec fn traversal_message(p: Seq<char>) -> Seq<char> {
    "UK-4001 blueprint rejected: path traversal in archive entry '"@ + p + "'"@
}

/// The path a blueprint archive entry is materialized at, relative to the
/// instance directory: the entry with `/` separators, refused when one of its
/// components is `..`.
pub fn blueprint_entry_path(entry: &str) -> (r: Result<String, String>)
    ensures
        !has_parent_component(slash_path(entry@)) ==> (r matches Ok(p) && p@ == slash_path(entry@)),
        has_parent_component(slash_path(entry@)) ==> (r matches Err(e) && e@ == traversal_message(slash_path(entry@))),
{
    let e = chars_of(entry);
    let mut p: Vec<char> = Vec::new();
    let mut i: usize = 0;
    while i < e.len()
        invariant
            i <= e.len(),
            p@ == slash_path(e@.subrange(0, i as int)),
        decreases e.len() - i,
    {
        let c = if e[i] == '\\' { '/' } else { e[i] };
        p.push(c);
        proof {
            assert(e@.subrange(0, i + 1) =~= e@.subrange(0, i as int).push(e@[i as int]));
            assert(slash_path(e@.subrange(0, i + 1)) =~= slash_path(e@.subrange(0, i as int)).push(c));
        }
        i = i + 1;
    }
    proof { assert(e@.subrange(0, e.len() as int) =~= e@); }
    let mut k: usize = 0;
    while k < p.len() && k + 1 < p.len()
        invariant
            k <= p.len(),
            p@ == slash_path(entry@),
            forall|j: int| 0 <= j < k && j + 2 <= p@.len() ==> !(#[trigger] p@[j] == '.' && p@[j + 1] == '.'
                && (j == 0 || p@[j - 1] == '/') && (j + 2 == p@.len() || p@[j + 2] == '/')),
        decreases p.len() - k,
    {
        if p[k] == '.' && p[k + 1] == '.' && (k == 0 || p[k - 1] == '/') && (k + 2 == p.len() || p[k + 2] == '/') {
            let text = string_from_chars(p.as_slice());
            return Err(quoted_message("UK-4001 blueprint rejected: path traversal in archive entry '", text.as_str(), "'"));
        }
        k = k + 1;
    }
    Ok(string_from_chars(p.as_slice()))
}

/// The JSON array of `args`, as the sidecar's RPC takes integer arguments.
pub open spec fn json_int_array(args: Seq<i64>) -> Seq<char> {
    "["@ + joined_decimals(args) + "]"@
}

/// The decimal texts of `args`, separated by commas.
pub open spec fn joined_decimals(args: Seq<i64>) -> Seq<char>
    decreases args.len(),
{
    if args.len() == 0 {
        seq![]
    } else if args.len() == 1 {
        signed_decimal(args[0] as int)
    } else {
        joined_decimals(args.drop_last()) + ","@ + signed_decimal(args.last() as int)
    }
}

/// Renders integer arguments as a JSON array; see [`json_int_array`].
pub fn int_args_json(args: &[i64]) -> (r: String)
    ensures
        r@ == json_int_array(args@),
{
    let mut out: Vec<char> = Vec::new();
    let mut i: usize = 0;
    while i < args.len()
        invariant
            i <= args.len(),
            out@ == joined_decimals(args@.subrange(0, i as int)),
        decreases args.len() - i,
    {
        let d = signed_decimal_chars(args[i]);
        proof {
            assert(args@.subrange(0, i + 1).drop_last() =~= args@.subrange(0, i as int));
            reveal_strlit(",");
        }
        if i > 0 {
            out.push(',');
        }
        append_chars(&mut out, &d);
        proof {
            if i == 0 {
                assert(out@ =~= joined_decimals(args@.subrange(0, 1)));
            } else {
                assert(out@ =~= joined_decimals(args@.subrange(0, i + 1)));
            }
        }
        i = i + 1;
    }
    proof { assert(args@.subrange(0, args@.len() as int) =~= args@); }
    let body = string_from_chars(out.as_slice());
    quoted_message("[", body.as_str(), "]")
}

/// What `serde_json` reads of a sidecar's reply: the parser's error text when
/// the reply is not JSON, else its `result` field when that is an integer that
/// fits an `i64` (`None` otherwise).
pub uninterp spec fn reply_result_of(reply: Seq<char>) -> Result<Option<i64>, Seq<char>>;

/// The view of a parsed reply.
pub open spec fn reply_view(r: Result<Option<i64>, String>) -> Result<Option<i64>, Seq<char>> {
    match r {
        Ok(v) => Ok(v),
        Err(e) => Err(e@),
    }
}

/// `serde_json::from_str::<serde_json::Value>` on the reply, then its `result`
/// field as an `i64`. Claimed: the result is the named `reply_result_of` of the
/// reply.
#[verifier::external_body]
fn parse_reply_result(reply: &str) -> (r: Result<Option<i64>, String>)
    ensures
        reply_view(r) == reply_result_of(reply@),
{
    match serde_json::from_str::<serde_json::Value>(reply) {
        Err(e) => Err(e.to_string()),
        Ok(v) => Ok(v.get("result").and_then(|x| x.as_i64())),
    }
}

/// `r` is the integer result of a sidecar's `reply`: `bad kernel response: …`
/// when the reply is not JSON, `kernel response has no numeric result: …` when
/// it carries no integer `result`.
pub open spec fn ecma_reply_result(reply: Seq<char>, r: Result<i64, String>) -> bool {
    match reply_result_of(reply) {
        Err(m) => r matches Err(e) && e@ == "bad kernel response: "@ + m,
        Ok(Some(v)) => r == Ok::<i64, String>(v),
        Ok(None) => r matches Err(e) && e@ == "kernel response has no numeric result: "@ + reply,
    }
}

/// The error of a sidecar reply that carries no integer `result`.
pub fn no_numeric_result(reply: &str) -> (r: String)
    ensures
        r@ == "kernel response has no numeric result: "@ + reply@,
{
    let mut m = String::from_str("kernel response has no numeric result: ");
    m.append(reply);
    m
}

/// What a kernel call that returned `ret` gives a loopback caller: the value
/// when it is not negative, else the error code `-ret` (as `u32`) with the
/// kernel's last error, or `UK-<code>` when it has none.
pub fn kernel_return(ret: i64, last_error: Option<&str>) -> (r: Result<i64, (u32, String)>)
    ensures
        ret >= 0 ==> r == Ok::<i64, (u32, String)>(ret),
        ret < 0 ==> (r matches Err((c, m)) && c == ((-(ret as int)) as u32) && match last_error {
            Some(e) => m@ == e@,
            None => m@ == "UK-"@ + decimal(c as nat),
        }),
{
    if ret >= 0 {
        return Ok(ret);
    }
    let wide: i128 = -(ret as i128);
    let code: u32 = wide as u32;
    assert(code == ((-(ret as int)) as u32));
    let message = match last_error {
        Some(e) => e.to_owned(),
        None => {
            let c = string_from_chars(decimal_chars(code as u64).as_slice());
            let mut t = String::from_str("UK-");
            t.append(c.as_str());
            t
        },
    };
    Err((code, message))
}

/// The text of a failed kernel call that returned `ret < 0`: `UK-<code>`, with
/// the kernel's last error after a colon when it has one.
pub fn kernel_error_text(ret: i64, last_error: Option<&str>) -> (r: String)
    ensures
        match last_error {
            Some(m) => r@ == "UK-"@ + decimal(((-(ret as int)) as u32) as nat) + ": "@ + m@,
            None => r@ == "UK-"@ + decimal(((-(ret as int)) as u32) as nat),
        },
{
    let wide: i128 = -(ret as i128);
    let code: u32 = wide as u32;
    assert(code == ((-(ret as int)) as u32));
    let c = string_from_chars(decimal_chars(code as u64).as_slice());
    match last_error {
        Some(m) => {
            let mut t = quoted_message("UK-", c.as_str(), ": ");
            t.append(m);
            t
        },
        None => {
            let mut t = String::from_str("UK-");
            t.append(c.as_str());
            t
        },
    }
}


/// Hot-swapping accepts every replacement that keeps the module's name and
/// holds no grant the loaded module lacks: dropping grants is never an
/// escalation.
pub proof fn law_swap_accepts_what_does_not_escalate(old: ModuleManifest, new: ModuleManifest)
    requires
        new.name@ == old.name@,
        forall|i: int| 0 <= i < new.grants@.len() ==> exists|j: int| 0 <= j < old.grants@.len() && #[trigger] old.grants@[j]@ == #[trigger] new.grants@[i]@,
        forall|i: int| 0 <= i < new.fs_grants@.len() ==> exists|j: int| 0 <= j < old.fs_grants@.len() && #[trigger] old.fs_grants@[j]@ == #[trigger] new.fs_grants@[i]@,
        forall|i: int| 0 <= i < new.effects@.len() ==> exists|j: int| 0 <= j < old.effects@.len() && #[trigger] old.effects@[j]@ == #[trigger] new.effects@[i]@,
        forall|i: int| 0 <= i < new.net_grants@.len() ==> exists|j: int| 0 <= j < old.net_grants@.len() && #[trigger] old.net_grants@[j]@ == #[trigger] new.net_grants@[i]@,
    ensures
        swap_verdict(old, new) is Ok,
{
    lemma_held_grants_none_missing(new.grants@, old.grants@);
    lemma_held_grants_none_missing(new.fs_grants@, old.fs_grants@);
    lemma_held_grants_none_missing(new.effects@, old.effects@);
    lemma_held_grants_none_missing(new.net_grants@, old.net_grants@);
}

proof fn lemma_held_grants_none_missing(new: Seq<String>, old: Seq<String>)
    requires
        forall|i: int| 0 <= i < new.len() ==> exists|j: int| 0 <= j < old.len() && #[trigger] old[j]@ == #[trigger] new[i]@,
    ensures
        first_missing(strings(new), strings(old)) is None,
{
    lemma_first_missing_none(strings(new), strings(old));
    assert forall|i: int| 0 <= i < strings(new).len() implies strings(old).contains(#[trigger] strings(new)[i]) by {
        assert(strings(new)[i] == new[i]@);
        let j = choose|j: int| 0 <= j < old.len() && #[trigger] old[j]@ == new[i]@;
        assert(strings(old)[j] == old[j]@);
    }
}

} // verus!
