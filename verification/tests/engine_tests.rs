use diss_check::checkers::{get_checker, CheckResult, Checker, CheckerKind, Detail, Status};
use diss_check::document::{Document, Page, TextSpan};
use diss_check::engine::{
    exit_code, is_selected, run_checks, run_selected_checks, summarize, try_run_checks, try_run_selected_checks,
    CheckOptions,
};
use diss_check::params::ParamValue;
use diss_check::spec::{default_true, CheckDef, CheckTarget, DocumentStructure, InstitutionSpec};

fn pt(x: f32) -> i32 {
    (x * 1000.0).round() as i32
}

fn check(id: &str, category: &str, checker: &str, automatable: bool, hint: Option<&str>) -> CheckDef {
    CheckDef {
        id: id.to_string(),
        category: category.to_string(),
        checker: checker.to_string(),
        target: CheckTarget { scope: Some("all_pages".to_string()), page: None, element: None },
        params: ParamValue::Mapping(vec![]),
        automatable,
        review_hint: hint.map(|h| h.to_string()),
    }
}

fn spec_of(checks: Vec<CheckDef>) -> InstitutionSpec {
    InstitutionSpec {
        institution: "Indiana University".to_string(),
        source_revision: "September 2025".to_string(),
        document_structure: DocumentStructure { front_matter: vec![], body: vec![], end_matter: vec![] },
        checks,
        constants: vec![],
    }
}

fn simple_doc() -> Document {
    Document {
        pages: vec![Page {
            page_number: 1,
            width: pt(612.0),
            height: pt(792.0),
            spans: vec![TextSpan {
                text: "Title".to_string(),
                font_name: "Times".to_string(),
                font_size: pt(12.0),
                bbox: (pt(100.0), pt(112.0), pt(100.0), pt(200.0)),
                is_bold: false,
                is_italic: false,
            }],
            images: vec![],
        }],
    }
}

#[test]
fn checkers_are_found_by_category_and_name() {
    assert_eq!(get_checker("layout", "margins"), Some(CheckerKind::Margins));
    assert_eq!(get_checker("layout", "margin_symmetry"), Some(CheckerKind::MarginSymmetry));
    assert_eq!(get_checker("typography", "font_size"), Some(CheckerKind::FontSize));
    assert_eq!(get_checker("typography", "font_weight"), Some(CheckerKind::FontWeight));
    assert_eq!(get_checker("typography", "font_family"), Some(CheckerKind::FontFamily));
    assert_eq!(get_checker("structure", "section_presence"), Some(CheckerKind::SectionPresence));
    assert_eq!(get_checker("structure", "section_order"), Some(CheckerKind::SectionOrder));
    assert_eq!(get_checker("layout", "font_size"), None);
    assert_eq!(get_checker("human", "review"), Some(CheckerKind::HumanReview));
    assert_eq!(get_checker("typography", "justification"), None);
    assert_eq!(get_checker("Layout", "margins"), None);
    let k = CheckerKind::FontWeight;
    assert_eq!(get_checker(k.category(), k.name()), Some(k));
}

#[test]
fn run_checks_gives_one_result_per_check_in_order() {
    let spec = spec_of(vec![
        check("title_centered", "human", "review", false, Some("Verify the title is centered")),
        check("no_hint", "human", "review", false, None),
        check("unknown", "content", "boilerplate_match", true, None),
        check("weights", "typography", "font_weight", true, None),
    ]);
    let results = run_checks(&spec, &simple_doc());
    assert_eq!(results.len(), 4);
    assert_eq!(results[0].check_id, "title_centered");
    assert_eq!(results[0].status, Status::Manual);
    match &results[0].detail {
        Detail::ManualReview(Some(h)) => assert_eq!(h, "Verify the title is centered"),
        other => panic!("unexpected detail {:?}", other),
    }
    assert!(matches!(results[1].detail, Detail::ManualReview(None)));
    assert_eq!(results[2].status, Status::Error);
    match &results[2].detail {
        Detail::NoChecker { category, checker } => {
            assert_eq!(category, "content");
            assert_eq!(checker, "boilerplate_match");
        }
        other => panic!("unexpected detail {:?}", other),
    }
    assert_eq!(results[3].check_id, "weights");
    assert_eq!(results[3].status, Status::Pass);
    assert_eq!(exit_code(&results), 1);
}

#[test]
fn try_run_checks_runs_section_checks() {
    let spec = spec_of(vec![check("sections", "structure", "section_presence", true, None)]);
    let results = try_run_checks(&spec, &simple_doc()).expect("sections can be searched");
    assert_eq!(results.len(), 1);
    assert_eq!(results[0].status, Status::Pass);
    assert_eq!(exit_code(&results), 0);
}

#[test]
fn exit_code_counts_fail_and_error() {
    let mk = |s: Status| CheckResult { check_id: String::new(), status: s, evidence: vec![], detail: Detail::Symmetric };
    assert_eq!(exit_code(&vec![]), 0);
    assert_eq!(exit_code(&vec![mk(Status::Pass), mk(Status::Manual)]), 0);
    assert_eq!(exit_code(&vec![mk(Status::Pass), mk(Status::Fail)]), 1);
    assert_eq!(exit_code(&vec![mk(Status::Error)]), 1);
}

#[test]
fn status_labels() {
    assert_eq!(Status::Pass.as_str(), "PASS");
    assert_eq!(Status::Fail.as_str(), "FAIL");
    assert_eq!(Status::Manual.as_str(), "MANUAL");
    assert_eq!(Status::Error.as_str(), "ERROR");
}

#[test]
fn automatable_by_default() {
    assert!(default_true());
}

#[test]
fn summary_counts_each_status() {
    let mk = |s: Status| CheckResult { check_id: String::new(), status: s, evidence: vec![], detail: Detail::Symmetric };
    let rs = vec![mk(Status::Pass), mk(Status::Fail), mk(Status::Pass), mk(Status::Manual), mk(Status::Error)];
    let s = summarize(&rs);
    assert_eq!(s.total, 5);
    assert_eq!(s.pass, 2);
    assert_eq!(s.fail, 1);
    assert_eq!(s.manual, 1);
    assert_eq!(s.error, 1);
}

#[test]
fn options_select_checks() {
    let def = check("global_margins", "layout", "margins", true, None);
    let all = CheckOptions::default();
    assert!(all.check_id.is_none() && all.category.is_none());
    assert!(is_selected(&all, &def));
    let by_id = CheckOptions { check_id: Some("global_margins".to_string()), category: None };
    assert!(is_selected(&by_id, &def));
    let other_id = CheckOptions { check_id: Some("font_size_consistent".to_string()), category: None };
    assert!(!is_selected(&other_id, &def));
    let by_cat = CheckOptions { check_id: None, category: Some("typography".to_string()) };
    assert!(!is_selected(&by_cat, &def));
    let both = CheckOptions { check_id: Some("global_margins".to_string()), category: Some("layout".to_string()) };
    assert!(is_selected(&both, &def));
}

#[test]
fn review_checks_report_their_prompt() {
    let mut def = check("title_centered", "human", "review", true, None);
    def.params = ParamValue::Mapping(vec![(
        ParamValue::Str("prompt".to_string()),
        ParamValue::Str("Verify title is centered and in all caps".to_string()),
    )]);
    let spec = spec_of(vec![def, check("bare", "human", "review", true, None)]);
    let results = run_checks(&spec, &simple_doc());
    assert_eq!(results[0].status, Status::Manual);
    assert!(results[0].evidence.is_empty());
    match &results[0].detail {
        Detail::ManualReview(Some(p)) => assert_eq!(p, "Verify title is centered and in all caps"),
        other => panic!("unexpected detail {:?}", other),
    }
    assert!(matches!(results[1].detail, Detail::ManualReview(None)));
    assert_eq!(exit_code(&results), 0);
}

#[test]
fn only_selected_checks_run() {
    let spec = spec_of(vec![
        check("weights", "typography", "font_weight", true, None),
        check("global_margins", "layout", "margins", true, None),
        check("sizes", "typography", "font_size", true, None),
    ]);
    let doc = simple_doc();
    let by_cat = CheckOptions { check_id: None, category: Some("typography".to_string()) };
    let r = run_selected_checks(&spec, &doc, &by_cat);
    assert_eq!(r.len(), 2);
    assert_eq!(r[0].check_id, "weights");
    assert_eq!(r[1].check_id, "sizes");
    let by_id = CheckOptions { check_id: Some("global_margins".to_string()), category: None };
    let r = try_run_selected_checks(&spec, &doc, &by_id).expect("runs");
    assert_eq!(r.len(), 1);
    assert_eq!(r[0].check_id, "global_margins");
    assert_eq!(r[0].status, Status::Error);
    let all = CheckOptions { check_id: None, category: None };
    assert_eq!(run_selected_checks(&spec, &doc, &all).len(), 3);
    let none = CheckOptions { check_id: Some("missing".to_string()), category: None };
    assert!(run_selected_checks(&spec, &doc, &none).is_empty());
}
