//! Running the checks of a specification over a document.
use vstd::prelude::*;
use crate::document::Document;
use crate::spec::{CheckDef, InstitutionSpec};
use crate::checkers::{
    Checker, CheckerKind, CheckResult, CheckResultView, Detail, DetailView, EvidenceView, Status,
    evidence_view, get_checker, registered,
};
use crate::checkers::structure::find_all_sections;
use crate::text::same_text;

verus! {

pub open spec fn hint_view(h: Option<String>) -> Option<Seq<char>> {
    match h {
        Some(s) => Some(s@),
        None => None,
    }
}

/// The result of one check on `doc`: left to manual review where it is not
/// automatable; an error where no checker is registered for it; else what
/// its checker reports, under the check's id.
pub open spec fn check_outcome(def: CheckDef, doc: Document) -> CheckResultView {
    if !def.automatable {
        CheckResultView {
            check_id: def.id@,
            status: Status::Manual,
            evidence: Seq::empty(),
            detail: DetailView::ManualReview(hint_view(def.review_hint)),
        }
    } else {
        match registered(def.category@, def.checker@) {
            Some(k) => CheckResultView { check_id: def.id@, ..k.outcome(doc, def.params) },
            None => CheckResultView {
                check_id: def.id@,
                status: Status::Error,
                evidence: Seq::empty(),
                detail: DetailView::NoChecker { category: def.category@, checker: def.checker@ },
            },
        }
    }
}

/// The checker of `def`, where one runs it, can run on `doc`.
pub open spec fn check_runs(def: CheckDef, doc: Document) -> bool {
    def.automatable ==> match registered(def.category@, def.checker@) {
        Some(k) => k.runs_on(doc),
        None => true,
    }
}

/// Every check of the specification can run on `doc`.
pub open spec fn all_run(spec: InstitutionSpec, doc: Document) -> bool {
    forall|i: int| 0 <= i < spec.checks@.len() ==> check_runs(#[trigger] spec.checks@[i], doc)
}

fn hint_of(h: &Option<String>) -> (r: Option<String>)
    ensures
        hint_view(r) == hint_view(*h),
{
    match h {
        Some(s) => Some(s.clone()),
        None => None,
    }
}

fn run_one(def: &CheckDef, doc: &Document) -> (r: CheckResult)
    requires
        check_runs(*def, *doc),
    ensures
        r@ == check_outcome(*def, *doc),
{
    if !def.automatable {
        let r = CheckResult {
            check_id: def.id.clone(),
            status: Status::Manual,
            evidence: Vec::new(),
            detail: Detail::ManualReview(hint_of(&def.review_hint)),
        };
        assert(evidence_view(r.evidence@) =~= Seq::<EvidenceView>::empty());
        return r;
    }
    match get_checker(def.category.as_str(), def.checker.as_str()) {
        Some(k) => {
            let mut r = k.check(doc, &def.params);
            r.check_id = def.id.clone();
            r
        },
        None => {
            let r = CheckResult {
                check_id: def.id.clone(),
                status: Status::Error,
                evidence: Vec::new(),
                detail: Detail::NoChecker {
                    category: def.category.clone(),
                    checker: def.checker.clone(),
                },
            };
            assert(evidence_view(r.evidence@) =~= Seq::<EvidenceView>::empty());
            r
        },
    }
}

/// Runs every check of the specification on `doc`: one result per check,
/// in the order of the specification, each under the check's id (see
/// `check_outcome`).
pub fn run_checks(spec: &InstitutionSpec, doc: &Document) -> (r: Vec<CheckResult>)
    requires
        all_run(*spec, *doc),
    ensures
        r@.len() == spec.checks@.len(),
        forall|i: int| 0 <= i < r@.len() ==> #[trigger] r@[i]@ == check_outcome(spec.checks@[i], *doc),
{
    let mut results: Vec<CheckResult> = Vec::new();
    let mut i: usize = 0;
    while i < spec.checks.len()
        invariant
            i <= spec.checks@.len(),
            all_run(*spec, *doc),
            results@.len() == i,
            forall|k: int| 0 <= k < i ==> #[trigger] results@[k]@ == check_outcome(spec.checks@[k], *doc),
        decreases spec.checks@.len() - i,
    {
        let r = run_one(&spec.checks[i], doc);
        results.push(r);
        i = i + 1;
    }
    results
}

/// Runs every check of the specification on `doc` where each can run (see
/// `all_run`), and gives nothing where a section check would meet a page
/// whose text its section search cannot cut.
pub fn try_run_checks(spec: &InstitutionSpec, doc: &Document) -> (r: Option<Vec<CheckResult>>)
    ensures
        r is Some <==> all_run(*spec, *doc),
        r matches Some(v) ==> v@.len() == spec.checks@.len() && forall|i: int|
            0 <= i < v@.len() ==> #[trigger] v@[i]@ == check_outcome(spec.checks@[i], *doc),
{
    let mut needs_sections = false;
    let mut i: usize = 0;
    while i < spec.checks.len()
        invariant
            i <= spec.checks@.len(),
            needs_sections <==> exists|k: int|
                0 <= k < i && (#[trigger] spec.checks@[k]).automatable && match registered(
                    spec.checks@[k].category@,
                    spec.checks@[k].checker@,
                ) {
                    Some(c) => c.needs_sections(),
                    None => false,
                },
        decreases spec.checks@.len() - i,
    {
        let def = &spec.checks[i];
        if def.automatable {
            match get_checker(def.category.as_str(), def.checker.as_str()) {
                Some(c) => {
                    if c == CheckerKind::SectionPresence || c == CheckerKind::SectionOrder {
                        needs_sections = true;
                    }
                },
                None => {},
            }
        }
        i = i + 1;
    }
    if needs_sections && find_all_sections(doc).is_none() {
        proof {
            let k = choose|k: int|
                0 <= k < spec.checks@.len() && (#[trigger] spec.checks@[k]).automatable && match registered(
                    spec.checks@[k].category@,
                    spec.checks@[k].checker@,
                ) {
                    Some(c) => c.needs_sections(),
                    None => false,
                };
            assert(!check_runs(spec.checks@[k], *doc));
        }
        return None;
    }
    assert(all_run(*spec, *doc));
    Some(run_checks(spec, doc))
}

/// A result that counts against the document: FAIL or ERROR.
pub open spec fn counts_against(s: Status) -> bool {
    s is Fail || s is Error
}

/// The exit status of a run: 1 where some result is FAIL or ERROR, else 0.
pub fn exit_code(results: &Vec<CheckResult>) -> (c: i32)
    ensures
        c == (if exists|i: int| 0 <= i < results@.len() && counts_against(#[trigger] results@[i].status) {
            1i32
        } else {
            0i32
        }),
{
    let mut i: usize = 0;
    while i < results.len()
        invariant
            i <= results@.len(),
            forall|k: int| 0 <= k < i ==> !counts_against(#[trigger] results@[k].status),
        decreases results@.len() - i,
    {
        match results[i].status {
            Status::Fail | Status::Error => {
                return 1;
            },
            _ => {},
        }
        i = i + 1;
    }
    0
}

/// Which checks of a specification to run: the one with a given id, those
/// of a given category, or, where neither is given, all.
pub struct CheckOptions {
    pub check_id: Option<String>,
    pub category: Option<String>,
}

impl Default for CheckOptions {
    /// No id and no category: every check is selected.
    fn default() -> (r: Self)
        ensures
            r.check_id is None,
            r.category is None,
    {
        CheckOptions { check_id: None, category: None }
    }
}

/// `def` is among the checks that `options` select.
pub open spec fn selects(options: CheckOptions, def: CheckDef) -> bool {
    &&& match options.check_id {
        Some(id) => id@ == def.id@,
        None => true,
    }
    &&& match options.category {
        Some(c) => c@ == def.category@,
        None => true,
    }
}

/// Whether `options` select `def` (see `selects`).
pub fn is_selected(options: &CheckOptions, def: &CheckDef) -> (b: bool)
    ensures
        b == selects(*options, *def),
{
    let by_id = match &options.check_id {
        Some(id) => same_text(id.as_str(), def.id.as_str()),
        None => true,
    };
    let by_category = match &options.category {
        Some(c) => same_text(c.as_str(), def.category.as_str()),
        None => true,
    };
    by_id && by_category
}

/// The checks of `spec` that `options` select, in the order of the
/// specification.
pub open spec fn selected_checks(spec: InstitutionSpec, options: CheckOptions) -> Seq<CheckDef> {
    spec.checks@.filter(|d: CheckDef| selects(options, d))
}

/// Every check that `options` select can run on `doc`.
pub open spec fn selected_run(spec: InstitutionSpec, doc: Document, options: CheckOptions) -> bool {
    forall|i: int|
        0 <= i < spec.checks@.len() && selects(options, #[trigger] spec.checks@[i]) ==> check_runs(
            spec.checks@[i],
            doc,
        )
}

/// Runs the checks of the specification that `options` select: one
/// result per selected check, in the order of the specification, each
/// under the check's id (see `check_outcome`).
pub fn run_selected_checks(spec: &InstitutionSpec, doc: &Document, options: &CheckOptions) -> (r: Vec<
    CheckResult,
>)
    requires
        selected_run(*spec, *doc, *options),
    ensures
        r@.len() == selected_checks(*spec, *options).len(),
        forall|i: int|
            0 <= i < r@.len() ==> #[trigger] r@[i]@ == check_outcome(
                selected_checks(*spec, *options)[i],
                *doc,
            ),
{
    let ghost pred = |d: CheckDef| selects(*options, d);
    let mut results: Vec<CheckResult> = Vec::new();
    let mut i: usize = 0;
    while i < spec.checks.len()
        invariant
            i <= spec.checks@.len(),
            selected_run(*spec, *doc, *options),
            pred == (|d: CheckDef| selects(*options, d)),
            results@.len() == spec.checks@.take(i as int).filter(pred).len(),
            forall|k: int|
                0 <= k < results@.len() ==> #[trigger] results@[k]@ == check_outcome(
                    spec.checks@.take(i as int).filter(pred)[k],
                    *doc,
                ),
        decreases spec.checks@.len() - i,
    {
        let def = &spec.checks[i];
        proof {
            assert(spec.checks@.take(i + 1) =~= spec.checks@.take(i as int).push(*def));
            spec.checks@.take(i as int).lemma_filter_push(*def, pred);
        }
        if is_selected(options, def) {
            let r = run_one(def, doc);
            results.push(r);
        }
        i = i + 1;
    }
    assert(spec.checks@.take(spec.checks@.len() as int) =~= spec.checks@);
    results
}

proof fn lemma_filter_all<A>(s: Seq<A>, pred: spec_fn(A) -> bool)
    requires
        forall|x: A| #[trigger] pred(x),
    ensures
        s.filter(pred) == s,
    decreases s.len(),
{
    if s.len() > 0 {
        lemma_filter_all(s.drop_last(), pred);
        assert(s.drop_last().push(s.last()) =~= s);
        s.drop_last().lemma_filter_push(s.last(), pred);
    } else {
        reveal_with_fuel(Seq::filter, 1);
        assert(s.filter(pred) =~= s);
    }
}

/// Without a check id or a category given, every check is selected.
pub proof fn lemma_no_options_select_all(spec: InstitutionSpec)
    ensures
        selected_checks(spec, CheckOptions { check_id: None, category: None }) == spec.checks@,
{
    let options = CheckOptions { check_id: None, category: None };
    lemma_filter_all(spec.checks@, |d: CheckDef| selects(options, d));
}

/// The selected check `def` is run by a checker that reads the detected
/// sections.
pub open spec fn needs_sections_check(options: CheckOptions, def: CheckDef) -> bool {
    selects(options, def) && def.automatable && match registered(def.category@, def.checker@) {
        Some(c) => c.needs_sections(),
        None => false,
    }
}

/// Runs the checks that `options` select (see `run_selected_checks`)
/// where each can run on `doc`, and gives nothing where a selected section
/// check would meet a page whose text its section search cannot cut.
pub fn try_run_selected_checks(
    spec: &InstitutionSpec,
    doc: &Document,
    options: &CheckOptions,
) -> (r: Option<Vec<CheckResult>>)
    ensures
        r is Some <==> selected_run(*spec, *doc, *options),
        r matches Some(v) ==> v@.len() == selected_checks(*spec, *options).len() && forall|i: int|
            0 <= i < v@.len() ==> #[trigger] v@[i]@ == check_outcome(
                selected_checks(*spec, *options)[i],
                *doc,
            ),
{
    let mut needs_sections = false;
    let mut i: usize = 0;
    while i < spec.checks.len()
        invariant
            i <= spec.checks@.len(),
            needs_sections <==> exists|k: int|
                0 <= k < i && needs_sections_check(*options, #[trigger] spec.checks@[k]),
        decreases spec.checks@.len() - i,
    {
        let def = &spec.checks[i];
        if is_selected(options, def) && def.automatable {
            match get_checker(def.category.as_str(), def.checker.as_str()) {
                Some(c) => {
                    if c == CheckerKind::SectionPresence || c == CheckerKind::SectionOrder {
                        needs_sections = true;
                    }
                },
                None => {},
            }
        }
        i = i + 1;
    }
    if needs_sections && find_all_sections(doc).is_none() {
        proof {
            let k = choose|k: int|
                0 <= k < spec.checks@.len() && needs_sections_check(*options, #[trigger] spec.checks@[k]);
            assert(!check_runs(spec.checks@[k], *doc));
        }
        return None;
    }
    assert(selected_run(*spec, *doc, *options));
    Some(run_selected_checks(spec, doc, options))
}

/// How many results there are of each status.
#[derive(Debug, Clone, Copy)]
pub struct Summary {
    pub total: usize,
    pub pass: usize,
    pub fail: usize,
    pub manual: usize,
    pub error: usize,
}

/// The number of results with status `s`.
pub open spec fn count_status(results: Seq<CheckResult>, s: Status) -> nat {
    results.filter(|r: CheckResult| r.status == s).len()
}

/// Counts the results of each status; the four counts add up to the total.
pub fn summarize(results: &Vec<CheckResult>) -> (s: Summary)
    ensures
        s.total == results@.len(),
        s.pass == count_status(results@, Status::Pass),
        s.fail == count_status(results@, Status::Fail),
        s.manual == count_status(results@, Status::Manual),
        s.error == count_status(results@, Status::Error),
        s.pass + s.fail + s.manual + s.error == s.total,
{
    let ghost pp = |r: CheckResult| r.status == Status::Pass;
    let ghost pf = |r: CheckResult| r.status == Status::Fail;
    let ghost pm = |r: CheckResult| r.status == Status::Manual;
    let ghost pe = |r: CheckResult| r.status == Status::Error;
    let mut sum = Summary { total: 0, pass: 0, fail: 0, manual: 0, error: 0 };
    let mut i: usize = 0;
    while i < results.len()
        invariant
            i <= results@.len(),
            pp == (|r: CheckResult| r.status == Status::Pass),
            pf == (|r: CheckResult| r.status == Status::Fail),
            pm == (|r: CheckResult| r.status == Status::Manual),
            pe == (|r: CheckResult| r.status == Status::Error),
            sum.total == i,
            sum.pass == results@.take(i as int).filter(pp).len(),
            sum.fail == results@.take(i as int).filter(pf).len(),
            sum.manual == results@.take(i as int).filter(pm).len(),
            sum.error == results@.take(i as int).filter(pe).len(),
            sum.pass + sum.fail + sum.manual + sum.error == i,
        decreases results@.len() - i,
    {
        let ghost t = results@.take(i as int);
        let r = &results[i];
        proof {
            assert(results@.take(i + 1) =~= t.push(*r));
            t.lemma_filter_push(*r, pp);
            t.lemma_filter_push(*r, pf);
            t.lemma_filter_push(*r, pm);
            t.lemma_filter_push(*r, pe);
        }
        match r.status {
            Status::Pass => {
                sum.pass = sum.pass + 1;
            },
            Status::Fail => {
                sum.fail = sum.fail + 1;
            },
            Status::Manual => {
                sum.manual = sum.manual + 1;
            },
            Status::Error => {
                sum.error = sum.error + 1;
            },
        }
        sum.total = sum.total + 1;
        i = i + 1;
    }
    assert(results@.take(results@.len() as int) =~= results@);
    sum
}

} // verus!
