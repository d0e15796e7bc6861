use diss_check::extract::{build_page, RawSpan};

fn raw(text: &str, x: i32, y: i32, width: i32, height: i32) -> RawSpan {
    RawSpan {
        text: text.to_string(),
        font_name: "Times".to_string(),
        font_size: 12000,
        x,
        y,
        width,
        height,
        is_bold: true,
        is_italic: false,
    }
}

#[test]
fn runs_are_cut_into_words() {
    let p = build_page(0, (0, 0, 612000, 792000), &vec![raw("  ab cd ", 100000, 700000, 80000, 12000)]);
    assert_eq!(p.page_number, 1);
    assert_eq!(p.width, 612000);
    assert_eq!(p.height, 792000);
    assert_eq!(p.spans.len(), 2);
    assert_eq!(p.spans[0].text, "ab");
    assert_eq!(p.spans[1].text, "cd");
    // 8 characters over 80pt: 10pt each; "ab" covers characters 2..4.
    assert_eq!(p.spans[0].bbox, (80000, 92000, 120000, 140000));
    assert_eq!(p.spans[1].bbox, (80000, 92000, 150000, 170000));
    assert!(p.spans[0].is_bold);
    assert_eq!(p.spans[0].font_size, 12000);
    assert!(p.images.is_empty());
}

#[test]
fn runs_without_words_stay_whole() {
    let p = build_page(4, (0, 0, 612000, 792000), &vec![raw("   ", 100000, 790000, 30000, 12000)]);
    assert_eq!(p.page_number, 5);
    assert_eq!(p.spans.len(), 1);
    assert_eq!(p.spans[0].text, "   ");
    // The top lies above the page's edge (-10pt) and is kept at 0.
    assert_eq!(p.spans[0].bbox, (0, 2000, 100000, 130000));
}

#[test]
fn media_box_gives_the_page_size() {
    let p = build_page(0, (10000, 20000, 622000, 812000), &vec![]);
    assert_eq!(p.width, 612000);
    assert_eq!(p.height, 792000);
    assert!(p.spans.is_empty());
}

#[test]
fn unicode_whitespace_separates_words() {
    let p = build_page(0, (0, 0, 612000, 792000), &vec![raw("a\u{00A0}b", 0, 0, 3000, 1000)]);
    assert_eq!(p.spans.len(), 2);
    assert_eq!(p.spans[1].text, "b");
    assert_eq!(p.spans[1].bbox.2, 2000);
    assert_eq!(p.spans[1].bbox.3, 3000);
}
