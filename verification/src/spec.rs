//! An institution's formatting requirements: its document structure and
//! the checks to run, each with the checker that runs it and its
//! parameters.
use vstd::prelude::*;
use crate::params::ParamValue;

verus! {

/// A section of the document structure.
pub struct SectionDef {
    pub id: String,
    pub required: bool,
}

/// The sections expected in each part of the document.
pub struct DocumentStructure {
    pub front_matter: Vec<SectionDef>,
    pub body: Vec<SectionDef>,
    pub end_matter: Vec<SectionDef>,
}

/// What part of the document a check concerns.
pub struct CheckTarget {
    pub scope: Option<String>,
    pub page: Option<String>,
    pub element: Option<String>,
}

/// One check: its id, the checker (category and name) that runs it, and
/// the parameters handed to that checker, a mapping.
pub struct CheckDef {
    pub id: String,
    pub category: String,
    pub checker: String,
    pub target: CheckTarget,
    pub params: ParamValue,
    /// Whether a checker runs the check; `false` leaves it to manual review.
    pub automatable: bool,
    /// What the person reviewing is asked to look at.
    pub review_hint: Option<String>,
}

/// The requirements of one institution.
pub struct InstitutionSpec {
    pub institution: String,
    pub source_revision: String,
    pub document_structure: DocumentStructure,
    pub checks: Vec<CheckDef>,
    /// Named values, keys distinct.
    pub constants: Vec<(String, String)>,
}

/// The value `automatable` takes where a check does not give it.
pub fn default_true() -> (b: bool)
    ensures
        b,
{
    true
}

} // verus!
