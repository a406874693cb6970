//! The JIT bridge's bookkeeping: the entry point it runs, the function names it
//! reports, and the names it is asked for.

use vstd::prelude::*;
use vstd::string::*;
use vstd::utf8::{decode_utf8, valid_utf8};
use crate::text::{chars_of, chars_eq, last_keep, lemma_last_keep_at, string_from_chars, strings, sub_chars};

verus! {

/// `std::str::from_utf8`: decodes `bytes` when they are valid UTF-8. Its
/// documentation promises an error exactly for invalid input; claimed here in
/// terms of vstd's UTF-8 specification.
#[verifier::external_body]
fn str_from_utf8(bytes: &[u8]) -> (r: Option<String>)
    ensures
        r is Some <==> valid_utf8(bytes@),
        r matches Some(s) ==> s@ == decode_utf8(bytes@),
{
    std::str::from_utf8(bytes).ok().map(|s| s.to_string())
}

pub open spec fn not_nul() -> spec_fn(char) -> bool {
    |c: char| c != '\0'
}

/// `s` without its trailing NUL characters.
pub open spec fn without_trailing_nuls(s: Seq<char>) -> Seq<char> {
    s.subrange(0, last_keep(s, not_nul()))
}

/// A function name handed over as bytes: UTF-8 without its trailing NULs;
/// refused when the bytes are not UTF-8.
pub fn function_name_arg(bytes: &[u8]) -> (r: Result<String, String>)
    ensures
        valid_utf8(bytes@) ==> (r matches Ok(s) && s@ == without_trailing_nuls(decode_utf8(bytes@))),
        !valid_utf8(bytes@) ==> (r matches Err(e) && e@ == "Invalid UTF-8 in function name"@),
{
    let s = match str_from_utf8(bytes) {
        Some(s) => s,
        None => return Err(String::from_str("Invalid UTF-8 in function name")),
    };
    let c = chars_of(s.as_str());
    let mut b: usize = c.len();
    while b > 0 && c[b - 1] == '\0'
        invariant
            b <= c.len(),
            forall|j: int| b <= j < c.len() ==> !not_nul()(#[trigger] c@[j]),
        decreases b,
    {
        b = b - 1;
    }
    proof { lemma_last_keep_at(c@, not_nul(), b as int); }
    Ok(string_from_chars(sub_chars(&c, 0, b).as_slice()))
}

/// The first position of `name` in `names`.
pub open spec fn position(names: Seq<Seq<char>>, name: Seq<char>) -> Option<int>
    decreases names.len(),
{
    if names.len() == 0 {
        None
    } else if names.last() == name {
        match position(names.drop_last(), name) {
            Some(i) => Some(i),
            None => Some(names.len() - 1),
        }
    } else {
        position(names.drop_last(), name)
    }
}

fn position_of(names: &[String], name: &str) -> (r: Option<usize>)
    ensures
        match position(strings(names@), name@) {
            Some(i) => r == Some(i as usize),
            None => r is None,
        },
{
    let target = chars_of(name);
    let mut i: usize = 0;
    while i < names.len()
        invariant
            i <= names.len(),
            target@ == name@,
            position(strings(names@).subrange(0, i as int), name@) is None,
        decreases names.len() - i,
    {
        let c = chars_of(names[i].as_str());
        proof {
            assert(strings(names@).subrange(0, i + 1).drop_last() =~= strings(names@).subrange(0, i as int));
        }
        if chars_eq(&c, &target) {
            proof { lemma_position_prefix(strings(names@), name@, i + 1); }
            return Some(i);
        }
        i = i + 1;
    }
    proof { assert(strings(names@).subrange(0, names@.len() as int) =~= strings(names@)); }
    None
}

/// A position found in a prefix is the position in the whole sequence.
proof fn lemma_position_prefix(names: Seq<Seq<char>>, name: Seq<char>, k: int)
    requires
        0 <= k <= names.len(),
        position(names.subrange(0, k), name) is Some,
    ensures
        position(names, name) == position(names.subrange(0, k), name),
    decreases names.len() - k,
{
    if k < names.len() {
        let next = names.subrange(0, k + 1);
        assert(next.drop_last() =~= names.subrange(0, k));
        lemma_position_prefix(names, name, k + 1);
    } else {
        assert(names.subrange(0, k) =~= names);
    }
}

/// Which compiled function the bridge runs.
#[derive(Clone, Debug, PartialEq, Eq)]
pub enum EntryChoice {
    /// The function at this position of the module's function list.
    Function(usize),
    /// The module has no function to run (a library module): nothing is run.
    NoEntry,
    /// The requested function does not exist; the message lists those that do.
    Missing(String),
}

/// The names, separated by `, `.
pub open spec fn comma_list(names: Seq<Seq<char>>) -> Seq<char>
    decreases names.len(),
{
    if names.len() == 0 {
        seq![]
    } else if names.len() == 1 {
        names[0]
    } else {
        comma_list(names.drop_last()) + ", "@ + names.last()
    }
}

pub open spec fn missing_function_message(name: Seq<char>, names: Seq<Seq<char>>) -> Seq<char> {
    "Function '"@ + name + "' not found. Available: ["@ + comma_list(names) + "]"@
}

fn comma_join(names: &[String]) -> (r: Vec<char>)
    ensures
        r@ == comma_list(strings(names@)),
{
    let mut out: Vec<char> = Vec::new();
    let mut i: usize = 0;
    proof { reveal_strlit(", "); }
    while i < names.len()
        invariant
            i <= names.len(),
            out@ == comma_list(strings(names@).subrange(0, i as int)),
            ", "@ == seq![',', ' '],
        decreases names.len() - i,
    {
        let c = chars_of(names[i].as_str());
        proof {
            assert(strings(names@).subrange(0, i + 1).drop_last() =~= strings(names@).subrange(0, i as int));
        }
        if i > 0 {
            out.push(',');
            out.push(' ');
        }
        crate::text::append_chars(&mut out, &c);
        proof {
            assert(out@ =~= comma_list(strings(names@).subrange(0, i + 1)));
        }
        i = i + 1;
    }
    proof { assert(strings(names@).subrange(0, names@.len() as int) =~= strings(names@)); }
    out
}

/// The entry point among a module's functions `names`: with no name requested,
/// `run`, else `main`, else none (a library module: no other function of it is
/// ever run); with a name, that function, else the `Missing` error listing the
/// functions.
pub fn select_entry(names: &[String], requested: &str) -> (r: EntryChoice)
    ensures
        requested@.len() == 0 ==> match position(strings(names@), "run"@) {
            Some(i) => r == EntryChoice::Function(i as usize),
            None => match position(strings(names@), "main"@) {
                Some(i) => r == EntryChoice::Function(i as usize),
                None => r == EntryChoice::NoEntry,
            },
        },
        requested@.len() > 0 ==> match position(strings(names@), requested@) {
            Some(i) => r == EntryChoice::Function(i as usize),
            None => r matches EntryChoice::Missing(m) && m@ == missing_function_message(requested@, strings(names@)),
        },
{
    if requested.unicode_len() == 0 {
        if let Some(i) = position_of(names, "run") {
            return EntryChoice::Function(i);
        }
        if let Some(i) = position_of(names, "main") {
            return EntryChoice::Function(i);
        }
        EntryChoice::NoEntry
    } else {
        match position_of(names, requested) {
            Some(i) => EntryChoice::Function(i),
            None => {
                let list = string_from_chars(comma_join(names).as_slice());
                let mut m = String::from_str("Function '");
                m.append(requested);
                m.append("' not found. Available: [");
                m.append(list.as_str());
                m.append("]");
                EntryChoice::Missing(m)
            },
        }
    }
}

/// The function a hot swap hands back as the new module's entry: `run`, else
/// `main`, else the module's first function; `None` for a module without
/// functions.
pub fn swap_entry(names: &[String]) -> (r: Option<usize>)
    ensures
        match position(strings(names@), "run"@) {
            Some(i) => r == Some(i as usize),
            None => match position(strings(names@), "main"@) {
                Some(i) => r == Some(i as usize),
                None => if names@.len() > 0 { r == Some(0usize) } else { r is None },
            },
        },
{
    if let Some(i) = position_of(names, "run") {
        return Some(i);
    }
    if let Some(i) = position_of(names, "main") {
        return Some(i);
    }
    if names.len() > 0 { Some(0) } else { None }
}

/// The names, each in double quotes, separated by commas.
pub open spec fn quoted_list(names: Seq<Seq<char>>) -> Seq<char>
    decreases names.len(),
{
    if names.len() == 0 {
        seq![]
    } else if names.len() == 1 {
        seq!['"'] + names[0] + seq!['"']
    } else {
        quoted_list(names.drop_last()) + seq![',', '"'] + names.last() + seq!['"']
    }
}

/// The compiled function names as a JSON array of strings (`["run","main"]`);
/// the names are written as they are, without escaping.
pub fn function_names_json(names: &[String]) -> (r: String)
    ensures
        r@ == seq!['['] + quoted_list(strings(names@)) + seq![']'],
{
    let mut out: Vec<char> = Vec::new();
    out.push('[');
    let mut i: usize = 0;
    while i < names.len()
        invariant
            i <= names.len(),
            out@ == seq!['['] + quoted_list(strings(names@).subrange(0, i as int)),
        decreases names.len() - i,
    {
        let c = chars_of(names[i].as_str());
        proof {
            assert(strings(names@).subrange(0, i + 1).drop_last() =~= strings(names@).subrange(0, i as int));
        }
        if i > 0 {
            out.push(',');
        }
        out.push('"');
        crate::text::append_chars(&mut out, &c);
        out.push('"');
        proof {
            assert(out@ =~= seq!['['] + quoted_list(strings(names@).subrange(0, i + 1)));
        }
        i = i + 1;
    }
    out.push(']');
    proof { assert(strings(names@).subrange(0, names@.len() as int) =~= strings(names@)); }
    string_from_chars(out.as_slice())
}

} // verus!
