use diss_check::checkers::render::{detail_text, excerpt_text};
use diss_check::checkers::{Detail, Edge, EdgeReport, Excerpt, Weight};

fn detail(d: Detail) -> Option<String> {
    detail_text(&d)
}

fn excerpt(e: Excerpt) -> Option<String> {
    excerpt_text(&e)
}

#[test]
fn counts_are_written_in_decimal() {
    assert_eq!(detail(Detail::FontSizeViolations(0)).unwrap(), "0 span(s) violate font size requirements");
    assert_eq!(detail(Detail::FontSizeViolations(7)).unwrap(), "7 span(s) violate font size requirements");
    assert_eq!(detail(Detail::FontWeightViolations(10)).unwrap(), "10 span(s) violate font weight requirements");
    assert_eq!(detail(Detail::FontFamilyViolations(305)).unwrap(), "305 span(s) violate font family requirements");
    assert_eq!(detail(Detail::OrderViolations(2)).unwrap(), "2 ordering violation(s) found");
    assert_eq!(detail(Detail::ImagesBeyond(1)).unwrap(), "1 image(s) extend beyond margins");
    assert_eq!(detail(Detail::OrderViolations(usize::MAX)).unwrap(), format!("{} ordering violation(s) found", usize::MAX));
}

#[test]
fn fixed_sentences() {
    assert_eq!(detail(Detail::InsufficientBodyText).unwrap(), "Insufficient body text to measure margins");
    assert_eq!(detail(Detail::Symmetric).unwrap(), "Left and right margins are symmetric");
    assert_eq!(detail(Detail::FontSizeConforms).unwrap(), "All text conforms to font size requirements");
    assert_eq!(detail(Detail::FontWeightConforms).unwrap(), "All text conforms to font weight requirements");
    assert_eq!(detail(Detail::FontFamilyConforms).unwrap(), "All text conforms to font family requirements");
    assert_eq!(detail(Detail::ImagesWithin).unwrap(), "All images within margins");
}

#[test]
fn review_and_registry_sentences() {
    assert_eq!(detail(Detail::ManualReview(None)).unwrap(), "Manual review required");
    assert_eq!(
        detail(Detail::ManualReview(Some("Verify title is centered".to_string()))).unwrap(),
        "Verify title is centered"
    );
    assert_eq!(
        detail(Detail::NoChecker { category: "content".to_string(), checker: "boilerplate_match".to_string() })
            .unwrap(),
        "No checker registered for content/boilerplate_match"
    );
}

#[test]
fn section_lists_are_joined() {
    assert_eq!(
        detail(Detail::SectionsDetected(vec!["abstract".to_string(), "title_page".to_string()])).unwrap(),
        "All required sections detected: abstract, title_page"
    );
    assert_eq!(detail(Detail::SectionsDetected(vec![])).unwrap(), "All required sections detected: ");
    assert_eq!(
        detail(Detail::SectionsMissing(vec!["vita".to_string()])).unwrap(),
        "Missing section(s): vita"
    );
    assert_eq!(
        detail(Detail::SectionsInOrder(vec![
            ("title_page".to_string(), 1),
            ("abstract".to_string(), 3),
            ("references".to_string(), 120),
        ]))
        .unwrap(),
        "Sections in correct order: title_page (p1), abstract (p3), references (p120)"
    );
}

#[test]
fn lengths_are_left_to_the_report() {
    let r = EdgeReport { edge: Edge::Left, average: 72000, lower: 70000, upper: 74000, pass: true };
    assert!(detail(Detail::Margins(vec![r])).is_none());
    assert!(detail(Detail::Asymmetric { pages: 2, threshold: 9000 }).is_none());
    assert!(excerpt(Excerpt::MarginOutside(r)).is_none());
    assert!(excerpt(Excerpt::Asymmetry { left: 90000, right: 72000 }).is_none());
    assert!(excerpt(Excerpt::SizeNotAllowed { text: "x".to_string(), size: 9000 }).is_none());
    assert!(excerpt(Excerpt::ImageLeft { x0: 50000 }).is_none());
}

#[test]
fn evidence_sentences() {
    assert_eq!(
        excerpt(Excerpt::WeightMismatch {
            text: "Heading".to_string(),
            detected: Weight::Bold,
            expected: "normal".to_string()
        })
        .unwrap(),
        "Heading (bold, expected normal)"
    );
    assert_eq!(
        excerpt(Excerpt::WeightForbidden {
            text: "Body".to_string(),
            detected: Weight::BoldItalic,
            expected: "bold-italic".to_string()
        })
        .unwrap(),
        "Body (bold-italic, should not be bold-italic)"
    );
    assert_eq!(
        excerpt(Excerpt::FamilyNotAllowed { text: "Hello".to_string(), family: "Arial".to_string() }).unwrap(),
        "Hello (Arial)"
    );
    assert_eq!(
        excerpt(Excerpt::FamilyOffBody {
            text: "Hello".to_string(),
            family: "Arial".to_string(),
            body_family: "TimesNewRoman".to_string()
        })
        .unwrap(),
        "Hello (Arial, expected TimesNewRoman)"
    );
    assert_eq!(excerpt(Excerpt::SectionMissing("abstract".to_string())).unwrap(), "Section 'abstract' not detected");
    assert_eq!(
        excerpt(Excerpt::SectionBefore {
            section: "abstract".to_string(),
            page: 2,
            previous: "acknowledgments".to_string(),
            previous_page: 14
        })
        .unwrap(),
        "'abstract' (p2) appears before 'acknowledgments' (p14)"
    );
    assert_eq!(
        excerpt(Excerpt::SectionsSharePage {
            section: "toc".to_string(),
            previous: "abstract".to_string(),
            page: 3
        })
        .unwrap(),
        "'toc' and 'abstract' detected on same page 3"
    );
}
