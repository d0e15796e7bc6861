use diss_check::checkers::sections::{find_excluded_pages, find_section_pages};
use diss_check::checkers::structure::{
    contains_keyword, find_all_sections, page_text, page_text_no_citations, SectionOrderChecker,
    SectionPresenceChecker,
};
use diss_check::checkers::{Checker, Detail, Excerpt, Status};
use diss_check::document::{Document, Page, TextSpan};
use diss_check::params::ParamValue;

fn pt(x: f32) -> i32 {
    (x * 1000.0).round() as i32
}

fn span(text: &str, top: f32, x: f32) -> TextSpan {
    TextSpan {
        text: text.to_string(),
        font_name: "Times".to_string(),
        font_size: pt(12.0),
        bbox: (pt(top), pt(top + 12.0), pt(x), pt(x + 50.0)),
        is_bold: false,
        is_italic: false,
    }
}

fn page(n: usize, texts: &[&str]) -> Page {
    Page {
        page_number: n,
        width: pt(612.0),
        height: pt(792.0),
        spans: texts.iter().enumerate().map(|(i, t)| span(t, 100.0 + 20.0 * i as f32, 100.0)).collect(),
        images: vec![],
    }
}

fn chars(s: &str) -> Vec<char> {
    s.chars().collect()
}

fn text(v: &[char]) -> String {
    v.iter().collect()
}

fn ids(key: &str, list: &[&str]) -> ParamValue {
    ParamValue::Mapping(vec![(
        ParamValue::Str(key.to_string()),
        ParamValue::Sequence(
            list.iter()
                .map(|id| ParamValue::Mapping(vec![(ParamValue::Str("id".to_string()), ParamValue::Str(id.to_string()))]))
                .collect(),
        ),
    )])
}

#[test]
fn page_text_joins_and_lowercases() {
    let p = page(1, &["Table Of", "CONTENTS"]);
    assert_eq!(text(&page_text(&p)), "table of contents");
}

#[test]
fn page_text_without_citations_drops_reference_lines() {
    let p = Page {
        page_number: 3,
        width: pt(612.0),
        height: pt(792.0),
        spans: vec![
            span("Chapter", 100.0, 100.0),
            span("One", 100.0, 200.0),
            span("see doi:10.1000/xyz", 120.0, 100.0),
            span("12", 140.0, 100.0),
            span("The end", 160.0, 100.0),
        ],
        images: vec![],
    };
    assert_eq!(text(&page_text_no_citations(&p)), "chapter one the end");
}

#[test]
fn keywords_of_sections() {
    assert!(contains_keyword(&chars("see the bibliography"), "references"));
    assert!(contains_keyword(&chars("table of contents"), "toc"));
    assert!(!contains_keyword(&chars("nothing here"), "abstract"));
    assert!(contains_keyword(&chars("my dedication page"), "dedication"));
    assert!(!contains_keyword(&chars("Chapter"), "chapters"));
}

#[test]
fn sections_are_found_on_their_first_pages() {
    let doc = Document {
        pages: vec![
            page(1, &["A Dissertation Title"]),
            page(2, &["Accepted by the Graduate Faculty"]),
            page(3, &["Table of Contents"]),
            page(4, &["Chapter 1 Introduction"]),
            page(5, &["Chapter 2 Methods"]),
            page(6, &["References"]),
            page(7, &["Curriculum Vitae"]),
        ],
    };
    let sp = find_all_sections(&doc).expect("no cut falls inside a character");
    assert_eq!(sp.title_page, Some(1));
    assert_eq!(sp.acceptance_page, Some(2));
    assert_eq!(sp.toc, Some(3));
    assert_eq!(sp.chapters, Some(4));
    assert_eq!(sp.references, Some(6));
    assert_eq!(sp.curriculum_vitae, Some(7));
    assert_eq!(sp.abstract_page, None);
}

#[test]
fn section_presence_reports_missing_sections() {
    let doc = Document { pages: vec![page(1, &["Title"]), page(2, &["Chapter one"])] };
    let p = ids("required_sections", &["title_page", "chapters", "references"]);
    let r = SectionPresenceChecker.check(&doc, &p);
    assert_eq!(r.status, Status::Fail);
    assert_eq!(r.evidence.len(), 1);
    match &r.evidence[0].excerpt {
        Excerpt::SectionMissing(id) => assert_eq!(id, "references"),
        other => panic!("unexpected excerpt {:?}", other),
    }
    let p2 = ids("required_sections", &["title_page", "chapters"]);
    let r2 = SectionPresenceChecker.check(&doc, &p2);
    assert_eq!(r2.status, Status::Pass);
    match r2.detail {
        Detail::SectionsDetected(found) => assert_eq!(found, vec!["chapters".to_string(), "title_page".to_string()]),
        other => panic!("unexpected detail {:?}", other),
    }
}

#[test]
fn section_order_reports_sections_out_of_order() {
    let doc = Document {
        pages: vec![
            page(1, &["Title"]),
            page(2, &["References"]),
            page(3, &["Chapter one"]),
        ],
    };
    let p = ids("expected_order", &["title_page", "chapters", "references"]);
    let r = SectionOrderChecker.check(&doc, &p);
    assert_eq!(r.status, Status::Fail);
    assert_eq!(r.evidence.len(), 1);
    match &r.evidence[0].excerpt {
        Excerpt::SectionBefore { section, page, previous, previous_page } => {
            assert_eq!(section, "references");
            assert_eq!(*page, 2);
            assert_eq!(previous, "chapters");
            assert_eq!(*previous_page, 3);
        }
        other => panic!("unexpected excerpt {:?}", other),
    }
    let good = Document { pages: vec![page(1, &["Title"]), page(2, &["Chapter one"]), page(3, &["References"])] };
    let r2 = SectionOrderChecker.check(&good, &p);
    assert_eq!(r2.status, Status::Pass);
    match r2.detail {
        Detail::SectionsInOrder(pairs) => assert_eq!(
            pairs,
            vec![("title_page".to_string(), 1), ("chapters".to_string(), 2), ("references".to_string(), 3)]
        ),
        other => panic!("unexpected detail {:?}", other),
    }
}

#[test]
fn sections_sharing_a_page_are_out_of_order() {
    let doc = Document { pages: vec![page(1, &["Title"]), page(2, &["Chapter one", "References"])] };
    let p = ids("expected_order", &["chapters", "references"]);
    let r = SectionOrderChecker.check(&doc, &p);
    assert_eq!(r.status, Status::Fail);
    assert!(matches!(&r.evidence[0].excerpt, Excerpt::SectionsSharePage { page: 2, .. }));
}

#[test]
fn excluded_and_section_pages() {
    let doc = Document {
        pages: vec![
            page(1, &["Title"]),
            page(2, &["Accepted by the faculty"]),
            page(3, &["Copyright 2025"]),
            page(4, &["Dedication"]),
            page(5, &["Body"]),
        ],
    };
    let ex = find_excluded_pages(&doc);
    assert!(ex.contains(&1));
    assert!(ex.contains(&2));
    assert!(ex.contains(&3));
    assert!(ex.contains(&4));
    assert!(!ex.contains(&5));
    assert_eq!(ex.len(), 4);
    let body = find_section_pages(&doc, &vec![chars("body")]);
    assert_eq!(body, vec![5]);
}
