//! Verified core of a screenshot/OCR desktop utility backend: region
//! clamping and cropping of captured frames, the text codec for the
//! settings record and the append-only OCR result ledger, and the
//! derivation of the managed paths and screenshot filenames.
use vstd::prelude::*;

pub mod jsontext;
pub mod ledger;
pub mod paths;
pub mod region;
pub mod settings;

verus! {

/// A store file was present but not in the canonical written form.
#[derive(Clone, Copy, Debug, PartialEq, Eq, Structural)]
pub enum StoreError {
    Parse,
}

/// The greeting shown to a newly connected frontend.
pub fn greet(name: &str) -> (r: String)
    ensures
        r@ == "Hello, "@ + name@ + "! Welcome to InstantText OCR!"@,
{
    let mut out = <String as vstd::string::StringExecFns>::from_str("Hello, ");
    <String as vstd::string::StringExecFns>::append(&mut out, name);
    <String as vstd::string::StringExecFns>::append(&mut out, "! Welcome to InstantText OCR!");
    out
}

} // verus!
