use vstd::prelude::*;
use crate::document::Document;
use crate::params::ParamValue;
use crate::text::same_text;
use crate::checkers::layout::{MarginsChecker, MarginSymmetryChecker};
use crate::checkers::typography::{FontSizeChecker, FontWeightChecker, FontFamilyChecker};
use crate::checkers::structure::{SectionPresenceChecker, SectionOrderChecker, sections_of};
use crate::checkers::human::HumanReviewChecker;

pub mod human;
pub mod layout;
pub mod measure;
pub mod render;
pub mod structure;
pub mod tables_figures;
pub mod sections;
pub mod typography;

verus! {

/// Outcome of one check.
#[derive(Debug, Clone, Copy, PartialEq, Eq, Structural)]
pub enum Status {
    Pass,
    Fail,
    Manual,
    Error,
}

/// The label under which a status is reported.
pub open spec fn status_label(s: Status) -> Seq<char> {
    match s {
        Status::Pass => "PASS"@,
        Status::Fail => "FAIL"@,
        Status::Manual => "MANUAL"@,
        Status::Error => "ERROR"@,
    }
}

impl Status {
    pub fn as_str(&self) -> (r: &'static str)
        ensures
            r@ == status_label(*self),
    {
        match self {
            Status::Pass => "PASS",
            Status::Fail => "FAIL",
            Status::Manual => "MANUAL",
            Status::Error => "ERROR",
        }
    }
}

/// The four measured page edges.
#[derive(Debug, Clone, Copy, PartialEq, Eq, Structural)]
pub enum Edge {
    Left,
    Right,
    Top,
    Bottom,
}

/// The measurement of one edge against its required setting, all in
/// thousandths of a point.
#[derive(Debug, Clone, Copy, PartialEq, Eq, Structural)]
pub struct EdgeReport {
    pub edge: Edge,
    /// Mean of the per-page measurements, rounded down.
    pub average: i64,
    /// Required setting less the tolerance.
    pub lower: i64,
    /// Required setting plus the tolerance.
    pub upper: i64,
    pub pass: bool,
}

/// The weight and slant found on a span.
#[derive(Debug, Clone, Copy, PartialEq, Eq, Structural)]
pub enum Weight {
    Normal,
    Bold,
    Italic,
    BoldItalic,
}

/// The name under which a weight is reported and configured.
pub open spec fn weight_label(w: Weight) -> Seq<char> {
    match w {
        Weight::Normal => "normal"@,
        Weight::Bold => "bold"@,
        Weight::Italic => "italic"@,
        Weight::BoldItalic => "bold-italic"@,
    }
}

impl Weight {
    pub fn as_str(&self) -> (r: &'static str)
        ensures
            r@ == weight_label(*self),
    {
        match self {
            Weight::Normal => "normal",
            Weight::Bold => "bold",
            Weight::Italic => "italic",
            Weight::BoldItalic => "bold-italic",
        }
    }
}

/// What one piece of evidence says.
#[derive(Debug)]
pub enum Excerpt {
    /// An edge whose mean lies outside its band.
    MarginOutside(EdgeReport),
    /// Dominant left and right margins of a page that differ by more than
    /// the threshold.
    Asymmetry { left: i64, right: i64 },
    /// A span whose size is none of the allowed sizes.
    SizeNotAllowed { text: String, size: i32 },
    /// A span whose size differs from the body size.
    SizeOffBody { text: String, size: i32, body_size: i64 },
    /// A span whose style is not the expected one.
    WeightMismatch { text: String, detected: Weight, expected: String },
    /// A span whose style is the forbidden one.
    WeightForbidden { text: String, detected: Weight, expected: String },
    /// A span whose family is not allowed.
    FamilyNotAllowed { text: String, family: String },
    /// A span whose family differs from the body family.
    FamilyOffBody { text: String, family: String, body_family: String },
    /// A required section that was not found.
    SectionMissing(String),
    /// A section found on an earlier page than the one listed before it.
    SectionBefore { section: String, page: usize, previous: String, previous_page: usize },
    /// Two different sections found on the same page.
    SectionsSharePage { section: String, previous: String, page: usize },
    /// An image whose left edge lies left of the limit.
    ImageLeft { x0: i32 },
    /// An image whose right gap is narrower than the limit.
    ImageRight { gap: i64 },
    /// An image whose top lies above the limit.
    ImageTop { top: i32 },
    /// An image whose bottom lies below the limit.
    ImageBottom { bottom: i32, limit: i64 },
}

/// One piece of evidence: a page (0 where it concerns no single page), a
/// box where it concerns one, and what it says.
#[derive(Debug)]
pub struct EvidenceItem {
    pub page: usize,
    pub bbox: Option<(i32, i32, i32, i32)>,
    pub excerpt: Excerpt,
}

/// The explanation attached to a result.
#[derive(Debug)]
pub enum Detail {
    /// The check is left to manual review, with the hint given for it.
    ManualReview(Option<String>),
    /// No checker is known under this category and name.
    NoChecker { category: String, checker: String },
    InsufficientBodyText,
    Margins(Vec<EdgeReport>),
    Symmetric,
    Asymmetric { pages: usize, threshold: i32 },
    FontSizeConforms,
    FontSizeViolations(usize),
    FontWeightConforms,
    FontWeightViolations(usize),
    FontFamilyConforms,
    FontFamilyViolations(usize),
    /// All required sections, sorted.
    SectionsDetected(Vec<String>),
    SectionsMissing(Vec<String>),
    /// The sections found, in the expected order, with their pages.
    SectionsInOrder(Vec<(String, usize)>),
    OrderViolations(usize),
    ImagesWithin,
    ImagesBeyond(usize),
}

/// The result of one check.
#[derive(Debug)]
pub struct CheckResult {
    pub check_id: String,
    pub status: Status,
    pub evidence: Vec<EvidenceItem>,
    pub detail: Detail,
}

/// `Excerpt` with its texts as character sequences.
pub enum ExcerptView {
    MarginOutside(EdgeReport),
    Asymmetry { left: i64, right: i64 },
    SizeNotAllowed { text: Seq<char>, size: i32 },
    SizeOffBody { text: Seq<char>, size: i32, body_size: i64 },
    WeightMismatch { text: Seq<char>, detected: Weight, expected: Seq<char> },
    WeightForbidden { text: Seq<char>, detected: Weight, expected: Seq<char> },
    FamilyNotAllowed { text: Seq<char>, family: Seq<char> },
    FamilyOffBody { text: Seq<char>, family: Seq<char>, body_family: Seq<char> },
    SectionMissing(Seq<char>),
    SectionBefore { section: Seq<char>, page: usize, previous: Seq<char>, previous_page: usize },
    SectionsSharePage { section: Seq<char>, previous: Seq<char>, page: usize },
    ImageLeft { x0: i32 },
    ImageRight { gap: i64 },
    ImageTop { top: i32 },
    ImageBottom { bottom: i32, limit: i64 },
}

impl View for Excerpt {
    type V = ExcerptView;

    open spec fn view(&self) -> ExcerptView {
        match self {
            Excerpt::MarginOutside(r) => ExcerptView::MarginOutside(*r),
            Excerpt::Asymmetry { left, right } => ExcerptView::Asymmetry {
                left: *left,
                right: *right,
            },
            Excerpt::SizeNotAllowed { text, size } => ExcerptView::SizeNotAllowed {
                text: text@,
                size: *size,
            },
            Excerpt::SizeOffBody { text, size, body_size } => ExcerptView::SizeOffBody {
                text: text@,
                size: *size,
                body_size: *body_size,
            },
            Excerpt::WeightMismatch { text, detected, expected } => ExcerptView::WeightMismatch {
                text: text@,
                detected: *detected,
                expected: expected@,
            },
            Excerpt::WeightForbidden { text, detected, expected } => ExcerptView::WeightForbidden {
                text: text@,
                detected: *detected,
                expected: expected@,
            },
            Excerpt::FamilyNotAllowed { text, family } => ExcerptView::FamilyNotAllowed {
                text: text@,
                family: family@,
            },
            Excerpt::FamilyOffBody { text, family, body_family } => ExcerptView::FamilyOffBody {
                text: text@,
                family: family@,
                body_family: body_family@,
            },
            Excerpt::SectionMissing(s) => ExcerptView::SectionMissing(s@),
            Excerpt::SectionBefore { section, page, previous, previous_page } =>
                ExcerptView::SectionBefore {
                section: section@,
                page: *page,
                previous: previous@,
                previous_page: *previous_page,
            },
            Excerpt::SectionsSharePage { section, previous, page } =>
                ExcerptView::SectionsSharePage {
                section: section@,
                previous: previous@,
                page: *page,
            },
            Excerpt::ImageLeft { x0 } => ExcerptView::ImageLeft { x0: *x0 },
            Excerpt::ImageRight { gap } => ExcerptView::ImageRight { gap: *gap },
            Excerpt::ImageTop { top } => ExcerptView::ImageTop { top: *top },
            Excerpt::ImageBottom { bottom, limit } => ExcerptView::ImageBottom {
                bottom: *bottom,
                limit: *limit,
            },
        }
    }
}

pub struct EvidenceView {
    pub page: usize,
    pub bbox: Option<(i32, i32, i32, i32)>,
    pub excerpt: ExcerptView,
}

impl View for EvidenceItem {
    type V = EvidenceView;

    open spec fn view(&self) -> EvidenceView {
        EvidenceView { page: self.page, bbox: self.bbox, excerpt: self.excerpt@ }
    }
}

pub open spec fn strings_view(v: Seq<String>) -> Seq<Seq<char>> {
    v.map_values(|s: String| s@)
}

pub open spec fn pairs_view(v: Seq<(String, usize)>) -> Seq<(Seq<char>, usize)> {
    v.map_values(|p: (String, usize)| (p.0@, p.1))
}

pub enum DetailView {
    ManualReview(Option<Seq<char>>),
    NoChecker { category: Seq<char>, checker: Seq<char> },
    InsufficientBodyText,
    Margins(Seq<EdgeReport>),
    Symmetric,
    Asymmetric { pages: usize, threshold: i32 },
    FontSizeConforms,
    FontSizeViolations(usize),
    FontWeightConforms,
    FontWeightViolations(usize),
    FontFamilyConforms,
    FontFamilyViolations(usize),
    SectionsDetected(Seq<Seq<char>>),
    SectionsMissing(Seq<Seq<char>>),
    SectionsInOrder(Seq<(Seq<char>, usize)>),
    OrderViolations(usize),
    ImagesWithin,
    ImagesBeyond(usize),
}

impl View for Detail {
    type V = DetailView;

    open spec fn view(&self) -> DetailView {
        match self {
            Detail::ManualReview(h) => DetailView::ManualReview(
                match h {
                    Some(s) => Some(s@),
                    None => None,
                },
            ),
            Detail::NoChecker { category, checker } => DetailView::NoChecker {
                category: category@,
                checker: checker@,
            },
            Detail::InsufficientBodyText => DetailView::InsufficientBodyText,
            Detail::Margins(v) => DetailView::Margins(v@),
            Detail::Symmetric => DetailView::Symmetric,
            Detail::Asymmetric { pages, threshold } => DetailView::Asymmetric {
                pages: *pages,
                threshold: *threshold,
            },
            Detail::FontSizeConforms => DetailView::FontSizeConforms,
            Detail::FontSizeViolations(n) => DetailView::FontSizeViolations(*n),
            Detail::FontWeightConforms => DetailView::FontWeightConforms,
            Detail::FontWeightViolations(n) => DetailView::FontWeightViolations(*n),
            Detail::FontFamilyConforms => DetailView::FontFamilyConforms,
            Detail::FontFamilyViolations(n) => DetailView::FontFamilyViolations(*n),
            Detail::SectionsDetected(v) => DetailView::SectionsDetected(strings_view(v@)),
            Detail::SectionsMissing(v) => DetailView::SectionsMissing(strings_view(v@)),
            Detail::SectionsInOrder(v) => DetailView::SectionsInOrder(pairs_view(v@)),
            Detail::OrderViolations(n) => DetailView::OrderViolations(*n),
            Detail::ImagesWithin => DetailView::ImagesWithin,
            Detail::ImagesBeyond(n) => DetailView::ImagesBeyond(*n),
        }
    }
}

pub open spec fn evidence_view(v: Seq<EvidenceItem>) -> Seq<EvidenceView> {
    v.map_values(|e: EvidenceItem| e@)
}

pub struct CheckResultView {
    pub check_id: Seq<char>,
    pub status: Status,
    pub evidence: Seq<EvidenceView>,
    pub detail: DetailView,
}

impl View for CheckResult {
    type V = CheckResultView;

    open spec fn view(&self) -> CheckResultView {
        CheckResultView {
            check_id: self.check_id@,
            status: self.status,
            evidence: evidence_view(self.evidence@),
            detail: self.detail@,
        }
    }
}

/// A check of one formatting rule.
pub trait Checker {
    /// The documents on which the check runs to its end.
    spec fn runs_on(&self, doc: Document) -> bool;

    /// What the check reports on `doc` configured with `params`.
    spec fn outcome(&self, doc: Document, params: ParamValue) -> CheckResultView;

    fn category(&self) -> &'static str;

    fn name(&self) -> &'static str;

    fn check(&self, doc: &Document, params: &ParamValue) -> (r: CheckResult)
        requires
            self.runs_on(*doc),
        ensures
            r@ == self.outcome(*doc, *params),
    ;
}

/// The checkers known by category and name.
#[derive(Debug, Clone, Copy, PartialEq, Eq, Structural)]
pub enum CheckerKind {
    Margins,
    MarginSymmetry,
    FontSize,
    FontWeight,
    FontFamily,
    SectionPresence,
    SectionOrder,
    HumanReview,
}

/// The checker registered under `category` and `name`.
pub open spec fn registered(category: Seq<char>, name: Seq<char>) -> Option<CheckerKind> {
    if category == "layout"@ && name == "margins"@ {
        Some(CheckerKind::Margins)
    } else if category == "layout"@ && name == "margin_symmetry"@ {
        Some(CheckerKind::MarginSymmetry)
    } else if category == "typography"@ && name == "font_size"@ {
        Some(CheckerKind::FontSize)
    } else if category == "typography"@ && name == "font_weight"@ {
        Some(CheckerKind::FontWeight)
    } else if category == "typography"@ && name == "font_family"@ {
        Some(CheckerKind::FontFamily)
    } else if category == "structure"@ && name == "section_presence"@ {
        Some(CheckerKind::SectionPresence)
    } else if category == "structure"@ && name == "section_order"@ {
        Some(CheckerKind::SectionOrder)
    } else if category == "human"@ && name == "review"@ {
        Some(CheckerKind::HumanReview)
    } else {
        None
    }
}

/// The checker registered under `category` and `name`, if any.
pub fn get_checker(category: &str, name: &str) -> (r: Option<CheckerKind>)
    ensures
        r == registered(category@, name@),
{
    if same_text(category, "layout") && same_text(name, "margins") {
        Some(CheckerKind::Margins)
    } else if same_text(category, "layout") && same_text(name, "margin_symmetry") {
        Some(CheckerKind::MarginSymmetry)
    } else if same_text(category, "typography") && same_text(name, "font_size") {
        Some(CheckerKind::FontSize)
    } else if same_text(category, "typography") && same_text(name, "font_weight") {
        Some(CheckerKind::FontWeight)
    } else if same_text(category, "typography") && same_text(name, "font_family") {
        Some(CheckerKind::FontFamily)
    } else if same_text(category, "structure") && same_text(name, "section_presence") {
        Some(CheckerKind::SectionPresence)
    } else if same_text(category, "structure") && same_text(name, "section_order") {
        Some(CheckerKind::SectionOrder)
    } else if same_text(category, "human") && same_text(name, "review") {
        Some(CheckerKind::HumanReview)
    } else {
        None
    }
}

/// The category a checker reports under.
pub open spec fn kind_category(k: CheckerKind) -> Seq<char> {
    match k {
        CheckerKind::Margins | CheckerKind::MarginSymmetry => "layout"@,
        CheckerKind::FontSize | CheckerKind::FontWeight | CheckerKind::FontFamily => "typography"@,
        CheckerKind::SectionPresence | CheckerKind::SectionOrder => "structure"@,
        CheckerKind::HumanReview => "human"@,
    }
}

/// The name a checker reports under.
pub open spec fn kind_name(k: CheckerKind) -> Seq<char> {
    match k {
        CheckerKind::Margins => "margins"@,
        CheckerKind::MarginSymmetry => "margin_symmetry"@,
        CheckerKind::FontSize => "font_size"@,
        CheckerKind::FontWeight => "font_weight"@,
        CheckerKind::FontFamily => "font_family"@,
        CheckerKind::SectionPresence => "section_presence"@,
        CheckerKind::SectionOrder => "section_order"@,
        CheckerKind::HumanReview => "review"@,
    }
}

/// Each checker is found again under the category and name it reports.
pub proof fn lemma_registry_finds_own_name(k: CheckerKind)
    ensures
        registered(kind_category(k), kind_name(k)) == Some(k),
{
    reveal_strlit("layout");
    reveal_strlit("typography");
    reveal_strlit("structure");
    reveal_strlit("margins");
    reveal_strlit("margin_symmetry");
    reveal_strlit("font_size");
    reveal_strlit("font_weight");
    reveal_strlit("font_family");
    reveal_strlit("section_presence");
    reveal_strlit("section_order");
    reveal_strlit("human");
    reveal_strlit("review");
    assert("layout"@.len() == 6 && "typography"@.len() == 10 && "structure"@.len() == 9);
    assert("margins"@.len() == 7 && "margin_symmetry"@.len() == 15);
    assert("font_size"@.len() == 9 && "font_weight"@.len() == 11 && "font_family"@.len() == 11);
    assert("font_weight"@[5] != "font_family"@[5]);
    assert("section_presence"@.len() == 16 && "section_order"@.len() == 13);
    assert("human"@.len() == 5 && "review"@.len() == 6);
}

impl CheckerKind {
    /// The checker reads the sections detected in the document.
    pub open spec fn needs_sections(self) -> bool {
        self is SectionPresence || self is SectionOrder
    }
}

impl Checker for CheckerKind {
    open spec fn runs_on(&self, doc: Document) -> bool {
        self.needs_sections() ==> sections_of(doc) is Some
    }

    open spec fn outcome(&self, doc: Document, params: ParamValue) -> CheckResultView {
        match self {
            CheckerKind::Margins => MarginsChecker.outcome(doc, params),
            CheckerKind::MarginSymmetry => MarginSymmetryChecker.outcome(doc, params),
            CheckerKind::FontSize => FontSizeChecker.outcome(doc, params),
            CheckerKind::FontWeight => FontWeightChecker.outcome(doc, params),
            CheckerKind::FontFamily => FontFamilyChecker.outcome(doc, params),
            CheckerKind::SectionPresence => SectionPresenceChecker.outcome(doc, params),
            CheckerKind::SectionOrder => SectionOrderChecker.outcome(doc, params),
            CheckerKind::HumanReview => HumanReviewChecker.outcome(doc, params),
        }
    }

    fn category(&self) -> (r: &'static str)
        ensures
            r@ == kind_category(*self),
    {
        match self {
            CheckerKind::Margins => MarginsChecker.category(),
            CheckerKind::MarginSymmetry => MarginSymmetryChecker.category(),
            CheckerKind::FontSize => FontSizeChecker.category(),
            CheckerKind::FontWeight => FontWeightChecker.category(),
            CheckerKind::FontFamily => FontFamilyChecker.category(),
            CheckerKind::SectionPresence => SectionPresenceChecker.category(),
            CheckerKind::SectionOrder => SectionOrderChecker.category(),
            CheckerKind::HumanReview => HumanReviewChecker.category(),
        }
    }

    fn name(&self) -> (r: &'static str)
        ensures
            r@ == kind_name(*self),
    {
        match self {
            CheckerKind::Margins => MarginsChecker.name(),
            CheckerKind::MarginSymmetry => MarginSymmetryChecker.name(),
            CheckerKind::FontSize => FontSizeChecker.name(),
            CheckerKind::FontWeight => FontWeightChecker.name(),
            CheckerKind::FontFamily => FontFamilyChecker.name(),
            CheckerKind::SectionPresence => SectionPresenceChecker.name(),
            CheckerKind::SectionOrder => SectionOrderChecker.name(),
            CheckerKind::HumanReview => HumanReviewChecker.name(),
        }
    }

    fn check(&self, doc: &Document, params: &ParamValue) -> (r: CheckResult) {
        match self {
            CheckerKind::Margins => MarginsChecker.check(doc, params),
            CheckerKind::MarginSymmetry => MarginSymmetryChecker.check(doc, params),
            CheckerKind::FontSize => FontSizeChecker.check(doc, params),
            CheckerKind::FontWeight => FontWeightChecker.check(doc, params),
            CheckerKind::FontFamily => FontFamilyChecker.check(doc, params),
            CheckerKind::SectionPresence => SectionPresenceChecker.check(doc, params),
            CheckerKind::SectionOrder => SectionOrderChecker.check(doc, params),
            CheckerKind::HumanReview => HumanReviewChecker.check(doc, params),
        }
    }
}

/// A checker's report fails exactly when it carries evidence; only the
/// review checker leaves the check to manual review (always), and only the
/// margins check reports an error (where it finds no body text to measure).
pub proof fn lemma_fail_iff_evidence(k: CheckerKind, doc: Document, params: ParamValue)
    ensures
        k.outcome(doc, params).status == Status::Fail <==> k.outcome(doc, params).evidence.len() > 0,
        k.outcome(doc, params).status == Status::Manual <==> k == CheckerKind::HumanReview,
        k.outcome(doc, params).status == Status::Error ==> k == CheckerKind::Margins,
{
}

/// The four statuses are reported under four different labels.
pub proof fn lemma_status_labels_distinct(a: Status, b: Status)
    ensures
        status_label(a) == status_label(b) ==> a == b,
{
    reveal_strlit("PASS");
    reveal_strlit("FAIL");
    reveal_strlit("MANUAL");
    reveal_strlit("ERROR");
    assert("PASS"@[0] != "FAIL"@[0]);
    assert("MANUAL"@.len() != "PASS"@.len() && "MANUAL"@.len() != "ERROR"@.len());
    assert("ERROR"@.len() != "PASS"@.len());
}

} // verus!
