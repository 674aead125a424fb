//! The binding to the chart schema of the `vega_lite_3` crate, which
//! `serde_json` reads a chart description into.

use vstd::prelude::*;

verus! {

/// `vega_lite_3::Vegalite`, a chart: carried about, never looked into.
#[verifier::external_type_specification]
#[verifier::external_body]
pub struct ExVegalite(vega_lite_3::Vegalite);

/// `serde_json::Error`, the reason why a text was refused: never looked
/// into.
#[verifier::external_type_specification]
#[verifier::external_body]
pub struct ExJsonError(serde_json::Error);

/// Whether `serde_json::from_str` reads `document` into a
/// `vega_lite_3::Vegalite`: whether the text is JSON that conforms to the
/// chart schema.
pub uninterp spec fn schema_accepts(document: Seq<char>) -> bool;

/// Calls `serde_json::from_str` for a `vega_lite_3::Vegalite`. Whether it
/// succeeds is a function of the text alone, named by [`schema_accepts`];
/// nothing is claimed about which texts succeed, nor about the chart read.
///
/// The schema is large and its marks and encodings are read by deep
/// recursion: a description with layers has been seen to need more stack
/// than the 2 MiB that a spawned thread gets by default.
#[verifier::external_body]
pub(crate) fn deserialize(document: &str) -> (read: Result<
    vega_lite_3::Vegalite,
    serde_json::Error,
>)
    ensures
        read is Ok == schema_accepts(document@),
{
    serde_json::from_str(document)
}

} // verus!
