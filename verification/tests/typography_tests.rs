use diss_check::checkers::typography::{
    is_internal_font_name, normalize_family, FontFamilyChecker, FontSizeChecker, FontWeightChecker,
};
use diss_check::checkers::human::HumanReviewChecker;
use diss_check::checkers::{Checker, Detail, Excerpt, Status, Weight};
use diss_check::document::{Document, Page, TextSpan};
use diss_check::params::ParamValue;

fn pt(x: f32) -> i32 {
    (x * 1000.0).round() as i32
}

fn styled(text: &str, font: &str, size: f32, top: f32, bold: bool, italic: bool) -> TextSpan {
    TextSpan {
        text: text.to_string(),
        font_name: font.to_string(),
        font_size: pt(size),
        bbox: (pt(top), pt(top + 12.0), pt(100.0), pt(300.0)),
        is_bold: bold,
        is_italic: italic,
    }
}

fn doc_of(pages: Vec<Vec<TextSpan>>) -> Document {
    Document {
        pages: pages
            .into_iter()
            .enumerate()
            .map(|(i, spans)| Page { page_number: i + 1, width: pt(612.0), height: pt(792.0), spans, images: vec![] })
            .collect(),
    }
}

fn s(x: &str) -> ParamValue {
    ParamValue::Str(x.to_string())
}

fn params(entries: Vec<(&str, ParamValue)>) -> ParamValue {
    ParamValue::Mapping(entries.into_iter().map(|(k, v)| (s(k), v)).collect())
}

#[test]
fn family_names_are_normalized() {
    assert_eq!(normalize_family("ABCDEF+TimesNewRomanPSMT"), "TimesNewRoman");
    assert_eq!(normalize_family("Arial-BoldMT"), "Arial");
    assert_eq!(normalize_family("Garamond-BoldItalic"), "Garamond");
    assert_eq!(normalize_family("Helvetica-Oblique"), "Helvetica");
    assert_eq!(normalize_family("-Calibri-"), "Calibri");
    assert_eq!(normalize_family("Georgia"), "Georgia");
    // Each suffix is removed wherever it stands, once, in its turn.
    assert_eq!(normalize_family("PPSS"), "PS");
}

#[test]
fn internal_font_names() {
    assert!(is_internal_font_name("F1"));
    assert!(is_internal_font_name("ABC"));
    assert!(is_internal_font_name("T1R2"));
    assert!(is_internal_font_name("ABCDEF"));
    assert!(!is_internal_font_name("ABCDEFG"));
    assert!(!is_internal_font_name("Times"));
    // Byte length counts: two 2-byte characters make 4 bytes.
    assert!(!is_internal_font_name("éé"));
}

#[test]
fn font_size_allowed_sizes() {
    let doc = doc_of(vec![vec![
        styled("body text", "Times", 12.0, 100.0, false, false),
        styled("caption text", "Times", 9.0, 130.0, false, false),
        styled("tiny", "Times", 8.0, 160.0, false, false),
        styled("ab", "Times", 20.0, 190.0, false, false),
    ]]);
    let p = params(vec![("allowed", ParamValue::Sequence(vec![s("10pt"), s("11pt"), s("12pt"), s("bogus")]))]);
    let r = FontSizeChecker.check(&doc, &p);
    assert_eq!(r.status, Status::Fail);
    assert_eq!(r.evidence.len(), 1);
    match &r.evidence[0].excerpt {
        Excerpt::SizeNotAllowed { text, size } => {
            assert_eq!(text, "caption text");
            assert_eq!(*size, 9000);
        }
        other => panic!("unexpected excerpt {:?}", other),
    }
    assert!(matches!(r.detail, Detail::FontSizeViolations(1)));
}

#[test]
fn font_size_within_tolerance_passes() {
    let doc = doc_of(vec![vec![styled("body text", "Times", 12.4, 100.0, false, false)]]);
    let p = params(vec![("allowed", ParamValue::Sequence(vec![s("12pt")]))]);
    let r = FontSizeChecker.check(&doc, &p);
    assert_eq!(r.status, Status::Pass);
    assert!(matches!(r.detail, Detail::FontSizeConforms));
}

#[test]
fn font_size_consistent_body() {
    let mut spans = Vec::new();
    for i in 0..5 {
        spans.push(styled("body text", "Times", 12.0, 100.0 + 20.0 * i as f32, false, false));
    }
    spans.push(styled("heading", "Times", 16.0, 300.0, false, false));
    let doc = doc_of(vec![spans]);
    let p = params(vec![("consistent", ParamValue::Bool(true))]);
    let r = FontSizeChecker.check(&doc, &p);
    assert_eq!(r.status, Status::Fail);
    assert_eq!(r.evidence.len(), 1);
    match &r.evidence[0].excerpt {
        Excerpt::SizeOffBody { text, size, body_size } => {
            assert_eq!(text, "heading");
            assert_eq!(*size, 16000);
            assert_eq!(*body_size, 12000);
        }
        other => panic!("unexpected excerpt {:?}", other),
    }
}

#[test]
fn font_size_consistent_single_size_passes() {
    let doc = doc_of(vec![vec![
        styled("body text", "Times", 12.0, 100.0, false, false),
        styled("more body", "Times", 12.0, 120.0, false, false),
    ]]);
    let p = params(vec![("consistent", ParamValue::Bool(true))]);
    let r = FontSizeChecker.check(&doc, &p);
    assert_eq!(r.status, Status::Pass);
}

#[test]
fn font_size_ties_pick_the_smaller_body_size() {
    let doc = doc_of(vec![vec![
        styled("body text", "Times", 12.0, 100.0, false, false),
        styled("other size", "Times", 10.0, 120.0, false, false),
    ]]);
    let p = params(vec![("consistent", ParamValue::Bool(true))]);
    let r = FontSizeChecker.check(&doc, &p);
    assert_eq!(r.status, Status::Fail);
    assert_eq!(r.evidence.len(), 1);
    match &r.evidence[0].excerpt {
        Excerpt::SizeOffBody { size, body_size, .. } => {
            assert_eq!(*size, 12000);
            assert_eq!(*body_size, 10000);
        }
        other => panic!("unexpected excerpt {:?}", other),
    }
}

#[test]
fn font_weight_expected_normal() {
    let doc = doc_of(vec![vec![
        styled("plain", "Times", 12.0, 100.0, false, false),
        styled("strong", "Times", 12.0, 120.0, true, false),
        styled("both", "Times", 12.0, 140.0, true, true),
        styled("footer", "Times", 12.0, 760.0, true, false),
        styled("   ", "Times", 12.0, 160.0, true, false),
    ]]);
    let r = FontWeightChecker.check(&doc, &ParamValue::Null);
    assert_eq!(r.status, Status::Fail);
    assert_eq!(r.evidence.len(), 2);
    match &r.evidence[0].excerpt {
        Excerpt::WeightMismatch { text, detected, expected } => {
            assert_eq!(text, "strong");
            assert_eq!(*detected, Weight::Bold);
            assert_eq!(expected, "normal");
        }
        other => panic!("unexpected excerpt {:?}", other),
    }
    match &r.evidence[1].excerpt {
        Excerpt::WeightMismatch { detected, .. } => assert_eq!(*detected, Weight::BoldItalic),
        other => panic!("unexpected excerpt {:?}", other),
    }
}

#[test]
fn font_weight_invert_reports_the_complement() {
    let doc = doc_of(vec![
        vec![
            styled("plain", "Times", 12.0, 100.0, false, false),
            styled("strong", "Times", 12.0, 120.0, true, false),
        ],
        vec![styled("strong too", "Times", 12.0, 120.0, true, false)],
    ]);
    let p = params(vec![("weight", s("bold")), ("invert", ParamValue::Bool(true)), ("page", ParamValue::PosInt(1))]);
    let r = FontWeightChecker.check(&doc, &p);
    assert_eq!(r.status, Status::Fail);
    assert_eq!(r.evidence.len(), 1);
    assert_eq!(r.evidence[0].page, 1);
    match &r.evidence[0].excerpt {
        Excerpt::WeightForbidden { text, detected, expected } => {
            assert_eq!(text, "strong");
            assert_eq!(*detected, Weight::Bold);
            assert_eq!(expected, "bold");
        }
        other => panic!("unexpected excerpt {:?}", other),
    }
    let p2 = params(vec![("weight", s("bold")), ("page", ParamValue::PosInt(1))]);
    let r2 = FontWeightChecker.check(&doc, &p2);
    assert_eq!(r2.evidence.len(), 1);
    match &r2.evidence[0].excerpt {
        Excerpt::WeightMismatch { text, .. } => assert_eq!(text, "plain"),
        other => panic!("unexpected excerpt {:?}", other),
    }
}

#[test]
fn weight_labels() {
    assert_eq!(Weight::Normal.as_str(), "normal");
    assert_eq!(Weight::Bold.as_str(), "bold");
    assert_eq!(Weight::Italic.as_str(), "italic");
    assert_eq!(Weight::BoldItalic.as_str(), "bold-italic");
}

#[test]
fn font_family_allowed() {
    let doc = doc_of(vec![vec![
        styled("body text", "ABCDEF+TimesNewRomanPSMT", 12.0, 100.0, false, false),
        styled("code text", "Courier", 12.0, 120.0, false, false),
        styled("math", "CambriaMath", 12.0, 140.0, false, false),
        styled("subset", "F12", 12.0, 160.0, false, false),
    ]]);
    let p = params(vec![("allowed", ParamValue::Sequence(vec![s("TimesNewRoman")]))]);
    let r = FontFamilyChecker.check(&doc, &p);
    assert_eq!(r.status, Status::Fail);
    assert_eq!(r.evidence.len(), 1);
    match &r.evidence[0].excerpt {
        Excerpt::FamilyNotAllowed { text, family } => {
            assert_eq!(text, "code text");
            assert_eq!(family, "Courier");
        }
        other => panic!("unexpected excerpt {:?}", other),
    }
}

#[test]
fn font_family_consistent() {
    let doc = doc_of(vec![vec![
        styled("body one", "Times-Roman", 12.0, 100.0, false, false),
        styled("body two", "Times-Roman", 12.0, 120.0, false, false),
        styled("odd one", "Arial-BoldMT", 12.0, 140.0, true, false),
    ]]);
    let p = params(vec![("consistent", ParamValue::Bool(true))]);
    let r = FontFamilyChecker.check(&doc, &p);
    assert_eq!(r.status, Status::Fail);
    assert_eq!(r.evidence.len(), 1);
    match &r.evidence[0].excerpt {
        Excerpt::FamilyOffBody { text, family, body_family } => {
            assert_eq!(text, "odd one");
            assert_eq!(family, "Arial");
            assert_eq!(body_family, "Times-Roman");
        }
        other => panic!("unexpected excerpt {:?}", other),
    }
    assert!(matches!(r.detail, Detail::FontFamilyViolations(1)));
}

#[test]
fn font_family_without_settings_passes() {
    let doc = doc_of(vec![vec![styled("body one", "Times-Roman", 12.0, 100.0, false, false)]]);
    let r = FontFamilyChecker.check(&doc, &ParamValue::Null);
    assert_eq!(r.status, Status::Pass);
    assert!(matches!(r.detail, Detail::FontFamilyConforms));
}

#[test]
fn computer_modern_fonts_are_one_family() {
    assert_eq!(normalize_family("CMR10"), "ComputerModern");
    assert_eq!(normalize_family("ABCDEF+CMBX12"), "ComputerModern");
    assert_eq!(normalize_family("TeX-matha10"), "ComputerModern");
    assert_eq!(normalize_family("Cambria"), "Cambria");
}

#[test]
fn non_body_text_is_left_out_of_font_checks() {
    let doc = doc_of(vec![vec![
        styled("body text", "Times-Roman", 12.0, 100.0, false, false),
        styled("let x = 1", "DejaVuSansMono", 12.0, 120.0, false, false),
        styled("f(x) = y", "TeX-MathItalic", 12.0, 140.0, false, false),
        styled("+ =", "Arial", 14.0, 160.0, false, false),
        styled("chart label", "Aptos", 12.0, 180.0, false, false),
    ]]);
    let fam = params(vec![("allowed", ParamValue::Sequence(vec![s("Times-Roman")]))]);
    let r = FontFamilyChecker.check(&doc, &fam);
    assert_eq!(r.status, Status::Pass, "{:?}", r.evidence);
    let size = params(vec![("allowed", ParamValue::Sequence(vec![s("12pt")]))]);
    let r2 = FontSizeChecker.check(&doc, &size);
    assert_eq!(r2.status, Status::Pass, "{:?}", r2.evidence);
}

#[test]
fn short_text_with_a_letter_is_body_text() {
    let doc = doc_of(vec![vec![
        styled("é1", "Times-Roman", 14.0, 100.0, false, false),
        styled("1+2", "Times-Roman", 14.0, 120.0, false, false),
    ]]);
    let size = params(vec![("allowed", ParamValue::Sequence(vec![s("12pt")]))]);
    let r = FontSizeChecker.check(&doc, &size);
    assert_eq!(r.status, Status::Fail);
    assert_eq!(r.evidence.len(), 1);
    match &r.evidence[0].excerpt {
        Excerpt::SizeNotAllowed { text, .. } => assert_eq!(text, "é1"),
        other => panic!("unexpected excerpt {:?}", other),
    }
}

#[test]
fn spans_below_eight_and_a_half_points_do_not_count() {
    let base = vec![
        styled("body text", "Times", 12.0, 100.0, false, false),
        styled("more body", "Times", 12.0, 120.0, false, false),
        styled("heading", "Times", 16.0, 140.0, false, false),
    ];
    let mut with_small = vec![
        styled("footnote one", "Times", 8.0, 160.0, false, false),
        styled("footnote two", "Times", 8.0, 180.0, false, false),
        styled("footnote three", "Times", 8.0, 200.0, false, false),
    ];
    with_small.extend(vec![
        styled("body text", "Times", 12.0, 100.0, false, false),
        styled("more body", "Times", 12.0, 120.0, false, false),
        styled("heading", "Times", 16.0, 140.0, false, false),
    ]);
    let p = params(vec![("consistent", ParamValue::Bool(true)), ("allowed", ParamValue::Sequence(vec![s("12pt")]))]);
    let r1 = FontSizeChecker.check(&doc_of(vec![base]), &p);
    let r2 = FontSizeChecker.check(&doc_of(vec![with_small]), &p);
    assert_eq!(r1.status, r2.status);
    assert_eq!(r1.evidence.len(), r2.evidence.len());
    assert_eq!(r1.evidence.len(), 2);
}

#[test]
fn weight_counts_with_and_without_invert_add_up() {
    let doc = doc_of(vec![vec![
        styled("plain", "Times", 12.0, 100.0, false, false),
        styled("strong", "Times", 12.0, 120.0, true, false),
        styled("slanted", "Times", 12.0, 140.0, false, true),
        styled("footer", "Times", 12.0, 760.0, true, false),
    ]]);
    let without = params(vec![("weight", s("bold"))]);
    let with = params(vec![("weight", s("bold")), ("invert", ParamValue::Bool(true))]);
    let a = FontWeightChecker.check(&doc, &without);
    let b = FontWeightChecker.check(&doc, &with);
    assert_eq!(a.evidence.len(), 2);
    assert_eq!(b.evidence.len(), 1);
    assert_eq!(a.evidence.len() + b.evidence.len(), 3);
}

#[test]
fn review_checker_carries_its_prompt() {
    let doc = doc_of(vec![vec![]]);
    let r = HumanReviewChecker.check(&doc, &params(vec![("prompt", s("Check the title page"))]));
    assert_eq!(r.status, Status::Manual);
    match r.detail {
        Detail::ManualReview(Some(p)) => assert_eq!(p, "Check the title page"),
        other => panic!("unexpected detail {:?}", other),
    }
    assert_eq!(HumanReviewChecker.category(), "human");
    assert_eq!(HumanReviewChecker.name(), "review");
}
