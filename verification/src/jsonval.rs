//! The trusted boundary to `serde_json`: one wrapper parses the catalog
//! text and hands the members out as plain values, and one name pins its
//! result as a function of the text alone.  The verified catalog code does
//! everything else.

use vstd::prelude::*;

verus! {

/// One raw catalog member as plain values: the key text, the
/// `localized_name` field where it is a string, and the `roles` field
/// where it is an array, each element kept only where it is a string.
pub type RawEntry = (String, Option<String>, Option<Vec<Option<String>>>);

/// The contract-level reading of one raw member.
pub type RawEntryView = (Seq<char>, Option<Seq<char>>, Option<Seq<Option<Seq<char>>>>);

pub open spec fn raw_str_view(o: Option<String>) -> Option<Seq<char>> {
    match o {
        Some(s) => Some(s@),
        None => None,
    }
}

pub open spec fn raw_roles_view(o: Option<Vec<Option<String>>>) -> Option<
    Seq<Option<Seq<char>>>,
> {
    match o {
        Some(v) => Some(v@.map_values(|x: Option<String>| raw_str_view(x))),
        None => None,
    }
}

pub open spec fn raw_entry_view(e: RawEntry) -> RawEntryView {
    (e.0@, raw_str_view(e.1), raw_roles_view(e.2))
}

/// The contract-level reading of a whole parse: the outer level says
/// whether the text was JSON at all, the inner whether its top level was
/// an object.
pub open spec fn raw_entries_view(r: Option<Option<Vec<RawEntry>>>) -> Option<
    Option<Seq<RawEntryView>>,
> {
    match r {
        None => None,
        Some(None) => Some(None),
        Some(Some(v)) => Some(Some(v@.map_values(|e: RawEntry| raw_entry_view(e)))),
    }
}

/// What the catalog text parses to, as a function of its characters alone:
/// nothing when the text is not JSON; an empty inner option when the top
/// level is not an object; else every member in the object's own order,
/// with its name and roles fields read as plain values.
pub uninterp spec fn catalog_entries_of(s: Seq<char>) -> Option<Option<Seq<RawEntryView>>>;

/// Relies on serde_json::from_str and the Value accessors as_object, get,
/// as_str and as_array: parses the catalog text and converts the member
/// fields to plain values, nothing else.  The result depends on the text
/// alone, which is what the name in the contract claims.
#[verifier::external_body]
pub fn parse_catalog(s: &str) -> (r: Option<Option<Vec<RawEntry>>>)
    ensures
        raw_entries_view(r) == catalog_entries_of(s@),
{
    let v: serde_json::Value = match serde_json::from_str(s) {
        Ok(v) => v,
        Err(_) => return None,
    };
    Some(v.as_object().map(|obj| {
        obj.iter().map(|(k, h)| (
            k.clone(),
            h.get("localized_name").and_then(|x| x.as_str()).map(|x| x.to_string()),
            h.get("roles").and_then(|x| x.as_array()).map(|a| {
                a.iter().map(|x| x.as_str().map(|y| y.to_string())).collect()
            }),
        )).collect()
    }))
}

} // verus!
