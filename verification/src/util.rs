//! The built-in fixture query, for debug and offline configurations.
use vstd::prelude::*;

use crate::group::Query;
use crate::group::QueryModel;
use crate::group::ScopeContent;
use vstd::string::StrSliceExecFns;
use vstd::string::StringSliceAdditionalSpecFns;

verus! {

/// The fixture query's serialized definition, as the scan engine reads
/// it.
pub open spec fn fixture_query_text() -> Seq<u8> {
    (
    "Query ( response: ( kind: Full, include: [ Url, Excerpt ], ), scope: ( pattern: ( content: \".+\", kind: RegEx, ), content: Text, ), threshold: ( considers: [ Trigger(\"0\"), Trigger(\"1\"), ], requires: 1, inverse: false, ), triggers: [ ( pattern: ( content: \"[Ii]cy[Bb]ounce\", kind: RegEx, ), id: \"0\", ), ( pattern: ( content: \"Icy Bounce\", kind: Raw, ), id: \"1\", ) ], id: Some(\"Igor\"),)"
    ).spec_bytes()
}

/// The fixture query's identifier.
pub open spec fn fixture_query_id() -> Seq<u8> {
    ("Igor").spec_bytes()
}

/// The whole fixture query.
pub open spec fn fixture_query_model() -> QueryModel {
    QueryModel {
        id: Some(fixture_query_id()),
        content: ScopeContent::Text,
        source: fixture_query_text(),
    }
}

/// The fixture query served in debug and offline configurations.
pub fn get_query() -> (q: Query)
    ensures
        q@ == fixture_query_model(),
{
    Query {
        id: Some(("Igor").as_bytes_vec()),
        content: ScopeContent::Text,
        source: (
        "Query ( response: ( kind: Full, include: [ Url, Excerpt ], ), scope: ( pattern: ( content: \".+\", kind: RegEx, ), content: Text, ), threshold: ( considers: [ Trigger(\"0\"), Trigger(\"1\"), ], requires: 1, inverse: false, ), triggers: [ ( pattern: ( content: \"[Ii]cy[Bb]ounce\", kind: RegEx, ), id: \"0\", ), ( pattern: ( content: \"Icy Bounce\", kind: Raw, ), id: \"1\", ) ], id: Some(\"Igor\"),)"
        ).as_bytes_vec(),
    }
}

} // verus!
