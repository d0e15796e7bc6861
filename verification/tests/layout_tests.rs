use diss_check::checkers::layout::{dominant_cluster, mean, MarginSymmetryChecker, MarginsChecker};
use diss_check::checkers::{Checker, Detail, Edge, Excerpt, Status};
use diss_check::document::{Document, Page, TextSpan};
use diss_check::params::ParamValue;

fn pt(x: f32) -> i32 {
    (x * 1000.0).round() as i32
}

fn make_span(text: &str, bbox: (f32, f32, f32, f32)) -> TextSpan {
    TextSpan {
        text: text.to_string(),
        font_name: "TimesNewRoman".to_string(),
        font_size: pt(12.0),
        bbox: (pt(bbox.0), pt(bbox.1), pt(bbox.2), pt(bbox.3)),
        is_bold: false,
        is_italic: false,
    }
}

fn multi_page_doc(pages_data: Vec<Vec<(f32, f32, f32, f32)>>) -> Document {
    Document {
        pages: pages_data
            .iter()
            .enumerate()
            .map(|(i, spans)| Page {
                page_number: i + 1,
                width: pt(612.0),
                height: pt(792.0),
                spans: spans.iter().map(|&b| make_span("body text line here", b)).collect(),
                images: vec![],
            })
            .collect(),
    }
}

fn mapping(entries: &[(&str, &str)]) -> ParamValue {
    ParamValue::Mapping(
        entries
            .iter()
            .map(|(k, v)| (ParamValue::Str(k.to_string()), ParamValue::Str(v.to_string())))
            .collect(),
    )
}

fn default_params() -> ParamValue {
    mapping(&[("top", "1in"), ("bottom", "1in"), ("left", "1.25in"), ("right", "1.25in")])
}

fn body_spans(count: usize, left_x: f32, right_x: f32, top_start: f32, gap: f32) -> Vec<(f32, f32, f32, f32)> {
    (0..count)
        .map(|i| {
            let top = top_start + i as f32 * gap;
            (top, top + 12.0, left_x, right_x)
        })
        .collect()
}

fn build_page_with_mixed_spans(
    body_left: f32,
    body_right: f32,
    body_count: usize,
    centered_lefts: &[f32],
    centered_rights: &[f32],
) -> Document {
    let height = 792.0;
    let mut all_spans: Vec<(f32, f32, f32, f32)> = Vec::new();
    for i in 0..body_count {
        let top = 80.0 + i as f32 * 24.0;
        all_spans.push((top, top + 12.0, body_left, body_right));
    }
    for (i, &cl) in centered_lefts.iter().enumerate() {
        let top = 80.0 + (body_count + i) as f32 * 24.0;
        let cr = centered_rights.get(i).copied().unwrap_or(cl + 300.0);
        all_spans.push((top, top + 12.0, cl, cr));
    }
    Document {
        pages: vec![Page {
            page_number: 2,
            width: pt(612.0),
            height: pt(height),
            spans: all_spans.iter().map(|&b| make_span("some text here", b)).collect(),
            images: vec![],
        }],
    }
}

fn values_of(list: &[f32]) -> Vec<i64> {
    list.iter().map(|&v| pt(v) as i64).collect()
}

#[test]
fn test_cluster_basic() {
    let mut values: Vec<f32> = vec![];
    for _ in 0..20 {
        values.push(90.0);
    }
    for _ in 0..10 {
        values.push(180.0);
    }
    let result = dominant_cluster(&values_of(&values), pt(4.0) as i64, 5);
    assert_eq!(result, Some(pt(90.0) as i64));
}

#[test]
fn test_cluster_mixed_indent() {
    let mut values: Vec<f32> = vec![];
    for _ in 0..15 {
        values.push(90.0);
    }
    for _ in 0..5 {
        values.push(120.0);
    }
    for _ in 0..5 {
        values.push(200.0);
    }
    let result = dominant_cluster(&values_of(&values), pt(4.0) as i64, 5);
    assert_eq!(result, Some(pt(90.0) as i64));
}

#[test]
fn test_cluster_all_centered() {
    let values: Vec<f32> = (0..15).map(|_| 180.0).collect();
    let result = dominant_cluster(&values_of(&values), pt(4.0) as i64, 5);
    assert_eq!(result, Some(pt(180.0) as i64));
}

#[test]
fn test_cluster_too_small() {
    let values: Vec<f32> = vec![90.0, 91.0, 92.0, 93.0];
    let result = dominant_cluster(&values_of(&values), pt(4.0) as i64, 5);
    assert_eq!(result, None);
}

#[test]
fn test_cluster_exact_min() {
    let values: Vec<f32> = vec![90.0, 90.5, 91.0, 91.5, 92.0];
    let result = dominant_cluster(&values_of(&values), pt(4.0) as i64, 5);
    assert!(result.is_some());
}

#[test]
fn test_cluster_empty() {
    let result = dominant_cluster(&vec![], pt(4.0) as i64, 5);
    assert_eq!(result, None);
}

#[test]
fn test_margins_clustered_pass() {
    let doc = build_page_with_mixed_spans(94.0, 518.0, 27, &[180.0, 200.0, 220.0, 250.0, 270.0], &[432.0, 412.0, 392.0, 362.0, 342.0]);
    let r = MarginsChecker.check(&doc, &default_params());
    assert_eq!(r.status, Status::Pass, "{:?}", r.detail);
}

#[test]
fn test_margins_clustered_fail_left() {
    let doc = build_page_with_mixed_spans(72.0, 518.0, 27, &[180.0, 200.0], &[432.0, 412.0]);
    let r = MarginsChecker.check(&doc, &default_params());
    assert_eq!(r.status, Status::Fail, "{:?}", r.detail);
}

#[test]
fn test_margins_clustered_fail_right() {
    let doc = build_page_with_mixed_spans(94.0, 542.0, 27, &[180.0, 200.0], &[432.0, 412.0]);
    let r = MarginsChecker.check(&doc, &default_params());
    assert_eq!(r.status, Status::Fail, "{:?}", r.detail);
}

#[test]
fn test_margins_page_exclusions() {
    let pages = vec![
        body_spans(5, 72.0, 518.0, 40.0, 24.0),
        body_spans(20, 94.0, 518.0, 80.0, 24.0),
        body_spans(27, 94.0, 518.0, 80.0, 24.0),
    ];
    let mut doc = multi_page_doc(pages);
    doc.pages[1].spans[5].text = "accepted by the faculty".to_string();
    let r = MarginsChecker.check(&doc, &default_params());
    assert_eq!(r.status, Status::Pass, "page 1 (title) and page 2 (acceptance) should be excluded; only page 3's body margin (94pt) matters. got: {:?}", r.detail);
}

#[test]
fn test_margins_error_empty() {
    let doc = Document { pages: vec![] };
    let r = MarginsChecker.check(&doc, &default_params());
    assert_eq!(r.status, Status::Error);
}

#[test]
fn test_symmetry_clustered_pass() {
    let doc = build_page_with_mixed_spans(90.0, 522.0, 30, &[180.0, 200.0], &[432.0, 412.0]);
    let r = MarginSymmetryChecker.check(&doc, &default_params());
    assert_eq!(r.status, Status::Pass, "{:?}", r.detail);
}

#[test]
fn test_symmetry_clustered_fail() {
    let doc = build_page_with_mixed_spans(90.0, 502.0, 30, &[180.0], &[432.0]);
    let r = MarginSymmetryChecker.check(&doc, &default_params());
    assert_eq!(r.status, Status::Fail, "{:?}", r.detail);
}

#[test]
fn test_symmetry_page_exclusions() {
    let pages = vec![
        body_spans(20, 82.0, 502.0, 80.0, 24.0),
        body_spans(20, 90.0, 522.0, 80.0, 24.0),
        body_spans(20, 90.0, 522.0, 80.0, 24.0),
    ];
    let mut doc = multi_page_doc(pages);
    doc.pages[1].spans[5].text = "accepted by the faculty".to_string();
    let r = MarginSymmetryChecker.check(&doc, &default_params());
    assert_eq!(r.status, Status::Pass,
        "page 1 (title) and page 2 (acceptance) should be excluded; page 3 is symmetric. got: {:?}",
        r.detail);
}

#[test]
fn test_cluster_body_minority() {
    let mut values: Vec<f32> = vec![];
    for _ in 0..20 {
        values.push(180.0);
    }
    for _ in 0..5 {
        values.push(90.0);
    }
    let result = dominant_cluster(&values_of(&values), pt(4.0) as i64, 5);
    assert_eq!(result, Some(pt(180.0) as i64),
        "centered cluster (20) outnumbers body (5); returns centered position");
}

#[test]
fn cluster_center_ignores_order() {
    let a = values_of(&[90.0, 180.0, 90.5, 91.0, 180.0, 91.5, 92.0]);
    let mut b = a.clone();
    b.reverse();
    assert_eq!(dominant_cluster(&a, 4000, 5), dominant_cluster(&b, 4000, 5));
    assert_eq!(dominant_cluster(&a, 4000, 5), Some(91000));
}

#[test]
fn cluster_center_is_rounded_down_mean() {
    // 90, 91, 91 pt: mean 90.666.. pt, rounded down to a thousandth.
    let v = vec![90000, 91000, 91000];
    assert_eq!(dominant_cluster(&v, 4000, 3), Some(90666));
    // Negative positions round toward minus infinity.
    let w = vec![-1, -2];
    assert_eq!(dominant_cluster(&w, 4000, 1), Some(-2));
}

#[test]
fn mean_of_values() {
    assert_eq!(mean(&vec![]), 0);
    assert_eq!(mean(&vec![1, 2]), 1);
    assert_eq!(mean(&vec![-1, -2]), -2);
    assert_eq!(mean(&vec![72000, 72000, 75000]), 73000);
}

#[test]
fn margins_report_each_edge() {
    let doc = build_page_with_mixed_spans(94.0, 518.0, 27, &[], &[]);
    let r = MarginsChecker.check(&doc, &default_params());
    match r.detail {
        Detail::Margins(reports) => {
            assert_eq!(reports.len(), 4);
            assert_eq!(reports[0].edge, Edge::Left);
            assert_eq!(reports[0].average, 94000);
            assert_eq!(reports[0].lower, 81000);
            assert_eq!(reports[0].upper, 99000);
            assert!(reports[0].pass);
            assert_eq!(reports[1].edge, Edge::Right);
            assert_eq!(reports[1].average, 94000);
            assert_eq!(reports[2].edge, Edge::Top);
            assert_eq!(reports[2].average, 80000);
            assert_eq!(reports[3].edge, Edge::Bottom);
            // last line: top 80 + 26*24 = 704, bottom 716; 792 - 716 = 76pt.
            assert_eq!(reports[3].average, 76000);
        }
        other => panic!("unexpected detail {:?}", other),
    }
}

#[test]
fn margins_fail_reports_the_edge() {
    let doc = build_page_with_mixed_spans(72.0, 518.0, 27, &[], &[]);
    let r = MarginsChecker.check(&doc, &default_params());
    assert_eq!(r.status, Status::Fail);
    assert_eq!(r.evidence.len(), 1);
    assert_eq!(r.evidence[0].page, 0);
}

#[test]
fn symmetry_evidence_names_the_page() {
    let doc = build_page_with_mixed_spans(90.0, 502.0, 30, &[], &[]);
    let r = MarginSymmetryChecker.check(&doc, &default_params());
    assert_eq!(r.status, Status::Fail);
    assert_eq!(r.evidence.len(), 1);
    assert_eq!(r.evidence[0].page, 2);
    match r.detail {
        Detail::Asymmetric { pages, threshold } => {
            assert_eq!(pages, 1);
            assert_eq!(threshold, 18000);
        }
        other => panic!("unexpected detail {:?}", other),
    }
}

#[test]
fn mirrored_page_swaps_left_and_right() {
    let doc = build_page_with_mixed_spans(90.0, 502.0, 30, &[], &[]);
    let mut mirror = build_page_with_mixed_spans(90.0, 502.0, 30, &[], &[]);
    let width = mirror.pages[0].width;
    for s in mirror.pages[0].spans.iter_mut() {
        let (t, b, x0, x1) = s.bbox;
        s.bbox = (t, b, width - x1, width - x0);
    }
    let r = MarginSymmetryChecker.check(&doc, &default_params());
    let m = MarginSymmetryChecker.check(&mirror, &default_params());
    assert_eq!(r.status, Status::Fail);
    assert_eq!(m.status, Status::Fail);
    assert_eq!(r.evidence.len(), m.evidence.len());
    assert_eq!(r.evidence[0].page, m.evidence[0].page);
    match (&r.evidence[0].excerpt, &m.evidence[0].excerpt) {
        (Excerpt::Asymmetry { left: l1, right: r1 }, Excerpt::Asymmetry { left: l2, right: r2 }) => {
            assert_eq!(l1, r2);
            assert_eq!(r1, l2);
            assert_eq!(*l1, 90000);
            assert_eq!(*r1, 110000);
        }
        other => panic!("unexpected excerpts {:?}", other),
    }
}
