//! The extracted form of a PDF: pages of positioned text spans and images.
//! Positions are in thousandths of a point, measured from the top-left
//! corner of the page; a box is (top, bottom, left, right).
use vstd::prelude::*;
use crate::text::{trim, utf8_len};

verus! {

/// A run of text with one font.
#[derive(Debug)]
pub struct TextSpan {
    pub text: String,
    pub font_name: String,
    /// Font size in thousandths of a point.
    pub font_size: i32,
    /// (top, bottom, x0, x1) in thousandths of a point.
    pub bbox: (i32, i32, i32, i32),
    pub is_bold: bool,
    pub is_italic: bool,
}

/// A span as plain values.
pub struct SpanView {
    pub text: Seq<char>,
    pub font_name: Seq<char>,
    pub font_size: i32,
    pub bbox: (i32, i32, i32, i32),
    pub is_bold: bool,
    pub is_italic: bool,
}

impl View for TextSpan {
    type V = SpanView;

    open spec fn view(&self) -> SpanView {
        SpanView {
            text: self.text@,
            font_name: self.font_name@,
            font_size: self.font_size,
            bbox: self.bbox,
            is_bold: self.is_bold,
            is_italic: self.is_italic,
        }
    }
}

/// One page of the document.
#[derive(Debug)]
pub struct Page {
    /// 1-based page number.
    pub page_number: usize,
    pub width: i32,
    pub height: i32,
    pub spans: Vec<TextSpan>,
    /// Boxes of the images placed on the page, (top, bottom, x0, x1).
    pub images: Vec<(i32, i32, i32, i32)>,
}

/// A whole document, its pages in order.
#[derive(Debug)]
pub struct Document {
    pub pages: Vec<Page>,
}

/// Band at the top of a page, 0.5in, that holds running heads.
pub open spec fn header_band() -> int {
    36000
}

/// Band at the bottom of a page, about 0.74in, that holds page numbers.
pub open spec fn footer_band() -> int {
    53000
}

/// Byte length of a span's text once trimmed.
pub open spec fn trimmed_len(s: TextSpan) -> nat {
    utf8_len(trim(s.text@))
}

/// The trimmed text is not empty.
pub open spec fn has_text(s: TextSpan) -> bool {
    trim(s.text@).len() > 0
}

/// A span reaching into the footer band of a page of height `h`.
pub open spec fn in_footer(s: TextSpan, h: i32) -> bool {
    s.bbox.1 >= h - footer_band()
}

/// A span starting inside the header band.
pub open spec fn in_header(s: TextSpan) -> bool {
    s.bbox.0 < header_band()
}

} // verus!
