use diss_check::checkers::tables_figures::TablesFiguresMarginsChecker;
use diss_check::checkers::{Checker, Detail, Excerpt, Status};
use diss_check::document::{Document, Page, TextSpan};
use diss_check::params::ParamValue;

fn pt(x: f32) -> i32 {
    (x * 1000.0).round() as i32
}

fn span(text: &str, top: f32) -> TextSpan {
    TextSpan {
        text: text.to_string(),
        font_name: "Times".to_string(),
        font_size: pt(12.0),
        bbox: (pt(top), pt(top + 12.0), pt(100.0), pt(200.0)),
        is_bold: false,
        is_italic: false,
    }
}

fn image(b: (f32, f32, f32, f32)) -> (i32, i32, i32, i32) {
    (pt(b.0), pt(b.1), pt(b.2), pt(b.3))
}

fn one_page(spans: Vec<TextSpan>, images: Vec<(i32, i32, i32, i32)>) -> Document {
    Document {
        pages: vec![Page { page_number: 1, width: pt(612.0), height: pt(792.0), spans, images }],
    }
}

#[test]
fn test_no_images_pass() {
    let doc = one_page(vec![span("text", 100.0)], vec![]);
    let r = TablesFiguresMarginsChecker.check(&doc, &ParamValue::Null);
    assert_eq!(r.status, Status::Pass);
}

#[test]
fn test_image_within_margins_pass() {
    let doc = one_page(vec![], vec![image((100.0, 500.0, 100.0, 512.0))]);
    let r = TablesFiguresMarginsChecker.check(&doc, &ParamValue::Null);
    assert_eq!(r.status, Status::Pass);
}

#[test]
fn test_image_beyond_left_margin_fail() {
    let doc = one_page(vec![], vec![image((100.0, 500.0, 70.0, 512.0))]);
    let r = TablesFiguresMarginsChecker.check(&doc, &ParamValue::Null);
    assert_eq!(r.status, Status::Fail);
}

#[test]
fn image_past_every_edge_is_reported_per_edge() {
    let doc = one_page(vec![], vec![image((60.0, 740.0, 70.0, 540.0))]);
    let r = TablesFiguresMarginsChecker.check(&doc, &ParamValue::Null);
    assert_eq!(r.status, Status::Fail);
    assert_eq!(r.evidence.len(), 4);
    assert!(matches!(r.evidence[0].excerpt, Excerpt::ImageLeft { x0: 70000 }));
    assert!(matches!(r.evidence[1].excerpt, Excerpt::ImageRight { gap: 72000 }));
    assert!(matches!(r.evidence[2].excerpt, Excerpt::ImageTop { top: 60000 }));
    assert!(matches!(r.evidence[3].excerpt, Excerpt::ImageBottom { bottom: 740000, limit: 720000 }));
    assert!(matches!(r.detail, Detail::ImagesBeyond(4)));
    assert_eq!(r.evidence[0].page, 1);
    assert_eq!(r.evidence[0].bbox, Some((60000, 740000, 70000, 540000)));
}

#[test]
fn image_at_the_tolerance_passes() {
    // 86pt from the left and right, 68pt from top and bottom: on the limit.
    let doc = one_page(vec![], vec![image((68.0, 724.0, 86.0, 526.0))]);
    let r = TablesFiguresMarginsChecker.check(&doc, &ParamValue::Null);
    assert_eq!(r.status, Status::Pass);
    assert!(matches!(r.detail, Detail::ImagesWithin));
}
