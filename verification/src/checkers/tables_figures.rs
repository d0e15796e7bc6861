//! Placement of images: every image must lie within the page margins.
use vstd::prelude::*;
use crate::document::{Document, Page};
use crate::params::ParamValue;
use crate::checkers::{
    Checker, CheckResult, CheckResultView, Detail, DetailView, EvidenceItem, EvidenceView, Excerpt,
    ExcerptView, Status, evidence_view,
};

verus! {

/// The limit an image edge may reach: a margin of 1.25in at the sides or
/// 1in at top and bottom, less a tolerance of 4pt.
pub open spec fn side_limit() -> int {
    86000
}

pub open spec fn end_limit() -> int {
    68000
}

pub open spec fn image_item(p: Page, b: (i32, i32, i32, i32), excerpt: ExcerptView) -> EvidenceView {
    EvidenceView { page: p.page_number, bbox: Some(b), excerpt }
}

/// What one image on a page is reported for, edge by edge: left, right,
/// top, bottom.
pub open spec fn image_evidence(p: Page, b: (i32, i32, i32, i32)) -> Seq<EvidenceView> {
    (if b.2 < side_limit() {
        seq![image_item(p, b, ExcerptView::ImageLeft { x0: b.2 })]
    } else {
        Seq::empty()
    }) + (if p.width - b.3 < side_limit() {
        seq![image_item(p, b, ExcerptView::ImageRight { gap: (p.width - b.3) as i64 })]
    } else {
        Seq::empty()
    }) + (if b.0 < end_limit() {
        seq![image_item(p, b, ExcerptView::ImageTop { top: b.0 })]
    } else {
        Seq::empty()
    }) + (if b.1 > p.height - end_limit() {
        seq![
            image_item(
                p,
                b,
                ExcerptView::ImageBottom { bottom: b.1, limit: (p.height - 72000) as i64 },
            ),
        ]
    } else {
        Seq::empty()
    })
}

/// The image evidence against one page, in the order of its images.
pub open spec fn page_image_evidence(p: Page) -> Seq<EvidenceView> {
    p.images@.map_values(|b: (i32, i32, i32, i32)| image_evidence(p, b)).flatten()
}

/// The image evidence against the document, page by page.
pub open spec fn images_evidence(doc: Document) -> Seq<EvidenceView> {
    doc.pages@.map_values(|p: Page| page_image_evidence(p)).flatten()
}

pub open spec fn images_outcome(doc: Document) -> CheckResultView {
    let ev = images_evidence(doc);
    if ev.len() == 0 {
        CheckResultView {
            check_id: Seq::empty(),
            status: Status::Pass,
            evidence: ev,
            detail: DetailView::ImagesWithin,
        }
    } else {
        CheckResultView {
            check_id: Seq::empty(),
            status: Status::Fail,
            evidence: ev,
            detail: DetailView::ImagesBeyond(ev.len() as usize),
        }
    }
}

fn push_image_item(out: &mut Vec<EvidenceItem>, page: &Page, b: (i32, i32, i32, i32), excerpt: Excerpt)
    ensures
        evidence_view(final(out)@) == evidence_view(old(out)@).push(
            image_item(*page, b, excerpt@),
        ),
{
    let item = EvidenceItem { page: page.page_number, bbox: Some(b), excerpt };
    let ghost before = out@;
    out.push(item);
    assert(evidence_view(out@) =~= evidence_view(before).push(item@));
}

fn image_items(out: &mut Vec<EvidenceItem>, page: &Page, b: (i32, i32, i32, i32))
    ensures
        evidence_view(final(out)@) == evidence_view(old(out)@) + image_evidence(*page, b),
{
    let ghost e0 = evidence_view(out@);
    let ghost left = if b.2 < side_limit() {
        seq![image_item(*page, b, ExcerptView::ImageLeft { x0: b.2 })]
    } else {
        Seq::<EvidenceView>::empty()
    };
    let ghost right = if page.width - b.3 < side_limit() {
        seq![image_item(*page, b, ExcerptView::ImageRight { gap: (page.width - b.3) as i64 })]
    } else {
        Seq::<EvidenceView>::empty()
    };
    let ghost top = if b.0 < end_limit() {
        seq![image_item(*page, b, ExcerptView::ImageTop { top: b.0 })]
    } else {
        Seq::<EvidenceView>::empty()
    };
    if b.2 < 86000 {
        push_image_item(out, page, b, Excerpt::ImageLeft { x0: b.2 });
    }
    assert(evidence_view(out@) =~= e0 + left);
    let gap = (page.width as i64) - (b.3 as i64);
    if gap < 86000 {
        push_image_item(out, page, b, Excerpt::ImageRight { gap });
    }
    assert(evidence_view(out@) =~= e0 + left + right);
    if b.0 < 68000 {
        push_image_item(out, page, b, Excerpt::ImageTop { top: b.0 });
    }
    assert(evidence_view(out@) =~= e0 + left + right + top);
    if (b.1 as i64) > (page.height as i64) - 68000 {
        push_image_item(
            out,
            page,
            b,
            Excerpt::ImageBottom { bottom: b.1, limit: (page.height as i64) - 72000 },
        );
    }
    assert(evidence_view(out@) =~= e0 + image_evidence(*page, b));
}

/// Appends the image evidence against one page.
fn push_page_images(out: &mut Vec<EvidenceItem>, page: &Page)
    ensures
        evidence_view(final(out)@) == evidence_view(old(out)@) + page_image_evidence(*page),
{
    let ghost start = evidence_view(out@);
    let ghost h = |b: (i32, i32, i32, i32)| image_evidence(*page, b);
    let mut j: usize = 0;
    while j < page.images.len()
        invariant
            j <= page.images@.len(),
            h == (|b: (i32, i32, i32, i32)| image_evidence(*page, b)),
            evidence_view(out@) == start + page.images@.take(j as int).map_values(h).flatten(),
        decreases page.images@.len() - j,
    {
        let b = page.images[j];
        proof {
            assert(page.images@.take(j + 1).map_values(h) =~= page.images@.take(j as int).map_values(
                h,
            ).push(h(b)));
            page.images@.take(j as int).map_values(h).lemma_flatten_push(h(b));
        }
        image_items(out, page, b);
        proof {
            assert(start + page.images@.take(j as int).map_values(h).flatten() + h(b) =~= start + (
            page.images@.take(j as int).map_values(h).flatten() + h(b)));
        }
        j = j + 1;
    }
    assert(page.images@.take(page.images@.len() as int) =~= page.images@);
}

/// Checks that every image lies within the page margins (1.25in at the
/// sides, 1in at top and bottom) with a tolerance of 4pt; each edge that
/// reaches past its margin is reported. The parameters are not read.
pub struct TablesFiguresMarginsChecker;

impl Checker for TablesFiguresMarginsChecker {
    open spec fn runs_on(&self, doc: Document) -> bool {
        true
    }

    open spec fn outcome(&self, doc: Document, params: ParamValue) -> CheckResultView {
        images_outcome(doc)
    }

    fn category(&self) -> (r: &'static str)
        ensures
            r@ == "layout"@,
    {
        "layout"
    }

    fn name(&self) -> (r: &'static str)
        ensures
            r@ == "tables_figures_within_margins"@,
    {
        "tables_figures_within_margins"
    }

    fn check(&self, doc: &Document, params: &ParamValue) -> (r: CheckResult) {
        let ghost g = |p: Page| page_image_evidence(p);
        let mut evidence: Vec<EvidenceItem> = Vec::new();
        let mut i: usize = 0;
        while i < doc.pages.len()
            invariant
                i <= doc.pages@.len(),
                g == (|p: Page| page_image_evidence(p)),
                evidence_view(evidence@) == doc.pages@.take(i as int).map_values(g).flatten(),
            decreases doc.pages@.len() - i,
        {
            let page = &doc.pages[i];
            proof {
                assert(doc.pages@.take(i + 1).map_values(g) =~= doc.pages@.take(
                    i as int,
                ).map_values(g).push(g(*page)));
                doc.pages@.take(i as int).map_values(g).lemma_flatten_push(g(*page));
            }
            push_page_images(&mut evidence, page);
            i = i + 1;
        }
        proof {
            assert(doc.pages@.take(doc.pages@.len() as int) =~= doc.pages@);
        }
        let n = evidence.len();
        if n == 0 {
            CheckResult {
                check_id: String::new(),
                status: Status::Pass,
                evidence,
                detail: Detail::ImagesWithin,
            }
        } else {
            CheckResult {
                check_id: String::new(),
                status: Status::Fail,
                evidence,
                detail: Detail::ImagesBeyond(n),
            }
        }
    }
}

} // verus!
