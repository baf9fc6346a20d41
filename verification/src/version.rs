//! Version text, parsed and compared through the `pep440_rs` crate.
//!
//! The crate never inspects a parsed version itself: it only needs to know
//! whether a string parses, what its normalized rendering is, and whether two
//! version strings denote equal versions. Those three facts come from
//! `pep440_rs` through the trusted items below.

use std::str::FromStr;
use vstd::prelude::*;

verus! {

/// What `pep440_rs::Version::from_str`, followed by the normalizing
/// `Display`, yields on a given string: the normalized version text, or the
/// parse error's message.
pub uninterp spec fn pep440_parse(s: Seq<char>) -> Result<Seq<char>, Seq<char>>;

/// Whether two strings both parse as PEP 440 versions and the versions
/// compare equal.
pub uninterp spec fn pep440_equal(a: Seq<char>, b: Seq<char>) -> bool;

/// Relies on `pep440_rs::Version::from_str` and its `Display`: parsing is a
/// function of the input text alone, and `Display` renders the normalized
/// form.
#[verifier::external_body]
pub fn parse_version(s: &str) -> (r: Result<String, String>)
    ensures
        match r {
            Ok(v) => pep440_parse(s@) == Ok::<Seq<char>, Seq<char>>(v@),
            Err(e) => pep440_parse(s@) == Err::<Seq<char>, Seq<char>>(e@),
        },
{
    match pep440_rs::Version::from_str(s) {
        Ok(v) => Ok(v.to_string()),
        Err(e) => Err(e.to_string()),
    }
}

/// Relies on `pep440_rs::Version::from_str` and `PartialEq` on its `Version`:
/// whether both strings parse and the versions compare equal. PEP 440
/// equality pads release segments with zeros, so `1.0` equals `1.0.0`.
#[verifier::external_body]
pub fn versions_equal(a: &str, b: &str) -> (r: bool)
    ensures
        r == pep440_equal(a@, b@),
{
    match (pep440_rs::Version::from_str(a), pep440_rs::Version::from_str(b)) {
        (Ok(va), Ok(vb)) => va == vb,
        _ => false,
    }
}

} // verus!
