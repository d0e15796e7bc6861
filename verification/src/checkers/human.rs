//! Checks left to a person: the report carries the prompt to look at.
use vstd::prelude::*;
use crate::document::Document;
use crate::params::{ParamValue, get_str, str_at};
use crate::checkers::{
    Checker, CheckResult, CheckResultView, Detail, DetailView, EvidenceView, Status, evidence_view,
};

verus! {

/// What a review check reports: manual review, with the string under
/// `prompt` where one is configured.
pub open spec fn review_outcome(params: ParamValue) -> CheckResultView {
    CheckResultView {
        check_id: Seq::empty(),
        status: Status::Manual,
        evidence: Seq::empty(),
        detail: DetailView::ManualReview(str_at(params, "prompt"@)),
    }
}

/// A check that a person carries out, following the configured `prompt`.
pub struct HumanReviewChecker;

impl Checker for HumanReviewChecker {
    open spec fn runs_on(&self, doc: Document) -> bool {
        true
    }

    open spec fn outcome(&self, doc: Document, params: ParamValue) -> CheckResultView {
        review_outcome(params)
    }

    fn category(&self) -> (r: &'static str)
        ensures
            r@ == "human"@,
    {
        "human"
    }

    fn name(&self) -> (r: &'static str)
        ensures
            r@ == "review"@,
    {
        "review"
    }

    fn check(&self, doc: &Document, params: &ParamValue) -> (r: CheckResult) {
        let prompt = match get_str(params, "prompt") {
            Some(p) => Some(String::from_str(p)),
            None => None,
        };
        let r = CheckResult {
            check_id: String::new(),
            status: Status::Manual,
            evidence: Vec::new(),
            detail: Detail::ManualReview(prompt),
        };
        assert(evidence_view(r.evidence@) =~= Seq::<EvidenceView>::empty());
        r
    }
}

} // verus!
