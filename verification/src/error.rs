//! What can go wrong while templates are extracted.

use vstd::prelude::*;

verus! {

/// The failures of an extraction.
#[derive(Debug, PartialEq, Eq)]
pub enum ExtractError {
    /// A glob pattern does not parse, or the patterns do not compile into one set.
    Globset(globset::Error),
    /// A source holds a body line before its first marker line. Carries the path of the source.
    TemplateMissingStartDef(String),
    /// Components are defined more than once and the policy forbids it.
    /// Carries the report: every such identifier with the sources that define it.
    ComponentRedefinition(String),
}

} // verus!
