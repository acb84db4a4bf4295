//! Domain core of a desktop editor for a coding assistant's configuration
//! directory: front-matter documents, directory scanning rules and the
//! staging engine.

pub mod boundary;
pub mod frontmatter;
pub mod json;
pub mod model;
pub mod order;
pub mod outside;
pub mod path;
pub mod scan;
pub mod staging;
pub mod text;

use vstd::prelude::*;

verus! {

/// The crate's release version.
pub fn version() -> (v: &'static str)
    ensures
        v@ == "0.1.0"@,
{
    "0.1.0"
}

} // verus!
