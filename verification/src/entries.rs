use vstd::prelude::*;
use vstd::string::*;

use crate::strings::copy_str;

verus! {

/// A user entry as the resolver found it: the name the user gave it, its resolved id, and
/// whether that id is an external module.
#[derive(Debug)]
pub struct ResolvedEntry {
    pub name: Option<String>,
    pub id: String,
    pub is_external: bool,
}

/// The text that `format!("{:?}", s)` gives for a string `s`.
pub uninterp spec fn debug_quoted(s: Seq<char>) -> Seq<char>;

/// Formats `s` with std's `Debug` for `str` (quoted, with special characters escaped).
/// The contract only names the result: it is a function of `s` alone.
#[verifier::external_body]
fn debug_quote(s: &str) -> (r: String)
    ensures
        r@ == debug_quoted(s@),
{
    format!("{:?}", s)
}

/// The error for an entry that resolved to an external module, given its id as
/// `debug_quoted` shows it.
pub open spec fn external_entry_text(quoted_id: Seq<char>) -> Seq<char> {
    "Failed to resolve "@ + quoted_id + " - entry can't be external"@
}

/// The error for an entry that resolved to an external module whose quoted id is
/// `quoted_id`.
pub fn external_entry_error(quoted_id: &str) -> (r: String)
    ensures
        r@ == external_entry_text(quoted_id@),
{
    proof {
        reveal_strlit("Failed to resolve ");
        reveal_strlit(" - entry can't be external");
    }
    let mut r = "Failed to resolve ".to_string();
    r.append(quoted_id);
    r.append(" - entry can't be external");
    r
}

/// A resolved entry is usable: it resolved, and not to an external module.
pub open spec fn entry_ok(r: Result<ResolvedEntry, String>) -> bool {
    r matches Ok(e) && !e.is_external
}

/// The error an unusable resolved entry gives: the resolver's error, or the external-entry
/// error for its id.
pub open spec fn entry_error(r: Result<ResolvedEntry, String>) -> Seq<char> {
    match r {
        Ok(e) => external_entry_text(debug_quoted(e.id@)),
        Err(msg) => msg@,
    }
}

/// The same entry, field by field.
pub open spec fn same_entry(a: ResolvedEntry, b: ResolvedEntry) -> bool {
    &&& a.id@ == b.id@
    &&& a.is_external == b.is_external
    &&& match (a.name, b.name) {
        (Some(x), Some(y)) => x@ == y@,
        (None, None) => true,
        _ => false,
    }
}

/// Checks the user entries in order, as the resolver left them: every one must have
/// resolved, and none to an external module. Gives the entries when all are usable, else
/// the error of the first that is not.
pub fn check_user_entries(resolved: &Vec<Result<ResolvedEntry, String>>) -> (r: Result<Vec<ResolvedEntry>, String>)
    ensures
        r is Ok <==> forall|i: int| 0 <= i < resolved.len() ==> entry_ok(#[trigger] resolved@[i]),
        r matches Ok(v) ==> v.len() == resolved.len() && forall|i: int|
            0 <= i < v.len() ==> same_entry(#[trigger] v@[i], resolved@[i]->Ok_0),
        r matches Err(e) ==> exists|k: int|
            0 <= k < resolved.len() && !entry_ok(#[trigger] resolved@[k]) && (forall|j: int|
                0 <= j < k ==> entry_ok(#[trigger] resolved@[j])) && e@ == entry_error(resolved@[k]),
{
    let mut out: Vec<ResolvedEntry> = Vec::new();
    let mut i: usize = 0;
    while i < resolved.len()
        invariant
            i <= resolved.len(),
            out.len() == i,
            forall|j: int| 0 <= j < i ==> entry_ok(#[trigger] resolved@[j]),
            forall|j: int| 0 <= j < i ==> same_entry(#[trigger] out@[j], resolved@[j]->Ok_0),
        decreases resolved.len() - i,
    {
        match &resolved[i] {
            Err(msg) => {
                let e = copy_str(msg);
                return Err(e);
            },
            Ok(entry) => {
                if entry.is_external {
                    let quoted = debug_quote(entry.id.as_str());
                    return Err(external_entry_error(quoted.as_str()));
                }
                let name = match &entry.name {
                    Some(n) => Some(copy_str(n)),
                    None => None,
                };
                out.push(ResolvedEntry { name, id: copy_str(&entry.id), is_external: false });
            },
        }
        i += 1;
    }
    Ok(out)
}

} // verus!
