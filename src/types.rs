//! Mapping of a declared range to type names in the three target languages.
use vstd::prelude::*;
use crate::text::{contains, derive_trimmed_name, str_contains, trimmed_name};

verus! {

/// Type names in Rust, Python and TypeScript, in that order.
pub open spec fn triple(a: &str, b: &str, c: &str) -> (Seq<char>, Seq<char>, Seq<char>) {
    (a@, b@, c@)
}

/// The mapping used for string-typed values.
pub open spec fn string_types() -> (Seq<char>, Seq<char>, Seq<char>) {
    triple("String", "str", "string")
}

/// The mapping of a range identifier, by the first rule that applies.
pub open spec fn mapped_types(range: Seq<char>) -> (Seq<char>, Seq<char>, Seq<char>) {
    if contains(range, "string"@) {
        string_types()
    } else if contains(range, "integer"@) || contains(range, "int"@) {
        triple("i64", "int", "number")
    } else if contains(range, "boolean"@) {
        triple("bool", "bool", "boolean")
    } else if contains(range, "dateTime"@) {
        triple("DateTime<Utc>", "datetime", "Date")
    } else if contains(range, "decimal"@) || contains(range, "float"@) {
        triple("f64", "float", "number")
    } else {
        let n = trimmed_name(range, "String"@);
        (n, n, n)
    }
}

fn names(a: &str, b: &str, c: &str) -> (r: (String, String, String))
    ensures
        (r.0@, r.1@, r.2@) == triple(a, b, c),
{
    (a.to_string(), b.to_string(), c.to_string())
}

/// Maps a declared range identifier to its Rust, Python and TypeScript type
/// names. Primitive datatypes are recognised by substring, in a fixed order;
/// anything else names another generated type by its short name.
pub fn map_xsd_type(xsd_type: &str) -> (r: (String, String, String))
    ensures
        (r.0@, r.1@, r.2@) == mapped_types(xsd_type@),
{
    if str_contains(xsd_type, "string") {
        names("String", "str", "string")
    } else if str_contains(xsd_type, "integer") || str_contains(xsd_type, "int") {
        names("i64", "int", "number")
    } else if str_contains(xsd_type, "boolean") {
        names("bool", "bool", "boolean")
    } else if str_contains(xsd_type, "dateTime") {
        names("DateTime<Utc>", "datetime", "Date")
    } else if str_contains(xsd_type, "decimal") || str_contains(xsd_type, "float") {
        names("f64", "float", "number")
    } else {
        let n = derive_trimmed_name(xsd_type, "String");
        (n.clone(), n.clone(), n)
    }
}

/// Any range that contains `string` maps to the string types in every target
/// language, whatever else it holds and in whatever case.
pub proof fn lemma_string_range(r1: Seq<char>, r2: Seq<char>)
    requires
        contains(r1, "string"@),
        contains(r2, "string"@),
    ensures
        mapped_types(r1) == string_types(),
        mapped_types(r1) == mapped_types(r2),
{
}

} // verus!
