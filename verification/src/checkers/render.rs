//! The sentences with which results and evidence are reported, for the
//! explanations made of text and whole numbers alone. Those that carry a
//! length in points are written where the report is printed.
use vstd::prelude::*;
use crate::checkers::{
    Detail, DetailView, Excerpt, ExcerptView, weight_label, strings_view, pairs_view,
};
use crate::text::{join, push_char};
use crate::checkers::structure::lemma_join_step;

verus! {

/// The character of a decimal digit.
pub open spec fn digit_char(d: nat) -> char {
    if d == 0 {
        '0'
    } else if d == 1 {
        '1'
    } else if d == 2 {
        '2'
    } else if d == 3 {
        '3'
    } else if d == 4 {
        '4'
    } else if d == 5 {
        '5'
    } else if d == 6 {
        '6'
    } else if d == 7 {
        '7'
    } else if d == 8 {
        '8'
    } else {
        '9'
    }
}

/// `n` written in decimal, without leading zeros, as `{}` prints it.
pub open spec fn decimal(n: nat) -> Seq<char>
    decreases n,
{
    if n < 10 {
        seq![digit_char(n)]
    } else {
        decimal(n / 10).push(digit_char(n % 10))
    }
}

/// A section with its page, as `name (pN)`.
pub open spec fn located(p: (Seq<char>, usize)) -> Seq<char> {
    p.0 + " (p"@ + decimal(p.1 as nat) + ")"@
}

/// The sentence that explains a result, where it is made of text and
/// whole numbers alone; `None` for the explanations that carry lengths.
pub open spec fn detail_sentence(d: DetailView) -> Option<Seq<char>> {
    match d {
        DetailView::ManualReview(hint) => Some(
            match hint {
                Some(h) => h,
                None => "Manual review required"@,
            },
        ),
        DetailView::NoChecker { category, checker } => Some(
            "No checker registered for "@ + category + "/"@ + checker,
        ),
        DetailView::InsufficientBodyText => Some("Insufficient body text to measure margins"@),
        DetailView::Margins(_) => None,
        DetailView::Symmetric => Some("Left and right margins are symmetric"@),
        DetailView::Asymmetric { .. } => None,
        DetailView::FontSizeConforms => Some("All text conforms to font size requirements"@),
        DetailView::FontSizeViolations(n) => Some(
            decimal(n as nat) + " span(s) violate font size requirements"@,
        ),
        DetailView::FontWeightConforms => Some("All text conforms to font weight requirements"@),
        DetailView::FontWeightViolations(n) => Some(
            decimal(n as nat) + " span(s) violate font weight requirements"@,
        ),
        DetailView::FontFamilyConforms => Some("All text conforms to font family requirements"@),
        DetailView::FontFamilyViolations(n) => Some(
            decimal(n as nat) + " span(s) violate font family requirements"@,
        ),
        DetailView::SectionsDetected(found) => Some(
            "All required sections detected: "@ + join(found, ", "@),
        ),
        DetailView::SectionsMissing(missing) => Some(
            "Missing section(s): "@ + join(missing, ", "@),
        ),
        DetailView::SectionsInOrder(pairs) => Some(
            "Sections in correct order: "@ + join(pairs.map_values(|p| located(p)), ", "@),
        ),
        DetailView::OrderViolations(n) => Some(decimal(n as nat) + " ordering violation(s) found"@),
        DetailView::ImagesWithin => Some("All images within margins"@),
        DetailView::ImagesBeyond(n) => Some(decimal(n as nat) + " image(s) extend beyond margins"@),
    }
}

/// What a piece of evidence says, where it is made of text and whole
/// numbers alone; `None` for the evidence that carries lengths.
pub open spec fn excerpt_sentence(e: ExcerptView) -> Option<Seq<char>> {
    match e {
        ExcerptView::WeightMismatch { text, detected, expected } => Some(
            text + " ("@ + weight_label(detected) + ", expected "@ + expected + ")"@,
        ),
        ExcerptView::WeightForbidden { text, detected, expected } => Some(
            text + " ("@ + weight_label(detected) + ", should not be "@ + expected + ")"@,
        ),
        ExcerptView::FamilyNotAllowed { text, family } => Some(text + " ("@ + family + ")"@),
        ExcerptView::FamilyOffBody { text, family, body_family } => Some(
            text + " ("@ + family + ", expected "@ + body_family + ")"@,
        ),
        ExcerptView::SectionMissing(id) => Some("Section '"@ + id + "' not detected"@),
        ExcerptView::SectionBefore { section, page, previous, previous_page } => Some(
            "'"@ + section + "' (p"@ + decimal(page as nat) + ") appears before '"@ + previous
                + "' (p"@ + decimal(previous_page as nat) + ")"@,
        ),
        ExcerptView::SectionsSharePage { section, previous, page } => Some(
            "'"@ + section + "' and '"@ + previous + "' detected on same page "@ + decimal(
                page as nat,
            ),
        ),
        _ => None,
    }
}

/// Appends the characters of `s`.
fn push_str(out: &mut String, s: &str)
    ensures
        final(out)@ == old(out)@ + s@,
{
    broadcast use vstd::string::group_string_axioms;

    let ghost start = out@;
    for c in it: s.chars()
        invariant
            out@ =~= start + it.seq().take(it.index() as int),
            it.seq() == s@,
    {
        push_char(out, c);
    }
}

/// The character of the digit `d`.
fn digit(d: usize) -> (c: char)
    requires
        d < 10,
    ensures
        c == digit_char(d as nat),
{
    match d {
        0 => '0',
        1 => '1',
        2 => '2',
        3 => '3',
        4 => '4',
        5 => '5',
        6 => '6',
        7 => '7',
        8 => '8',
        _ => '9',
    }
}

/// Appends `n` written in decimal.
fn push_decimal(out: &mut String, n: usize)
    ensures
        final(out)@ == old(out)@ + decimal(n as nat),
    decreases n,
{
    if n >= 10 {
        push_decimal(out, n / 10);
    }
    push_char(out, digit(n % 10));
    proof {
        if n >= 10 {
            assert(decimal(n as nat) == decimal((n / 10) as nat).push(digit_char((n % 10) as nat)));
        }
    }
}

/// Appends the strings of `parts`, joined by `", "`.
fn push_joined(out: &mut String, parts: &Vec<String>)
    ensures
        final(out)@ == old(out)@ + join(strings_view(parts@), ", "@),
{
    let ghost start = out@;
    let ghost pv = strings_view(parts@);
    let mut i: usize = 0;
    while i < parts.len()
        invariant
            i <= parts@.len(),
            pv == strings_view(parts@),
            out@ =~= start + join(pv.take(i as int), ", "@),
        decreases parts@.len() - i,
    {
        proof {
            lemma_join_step(pv, ", "@, i as int);
        }
        if i > 0 {
            push_str(out, ", ");
        }
        push_str(out, parts[i].as_str());
        i = i + 1;
    }
    proof {
        assert(pv.take(parts@.len() as int) =~= pv);
        if parts@.len() == 0 {
            assert(join(pv, ", "@) =~= Seq::<char>::empty());
        }
    }
}

/// Appends the sections with their pages, each as `name (pN)`, joined by `", "`.
fn push_located(out: &mut String, pairs: &Vec<(String, usize)>)
    ensures
        final(out)@ == old(out)@ + join(pairs_view(pairs@).map_values(|p| located(p)), ", "@),
{
    let ghost start = out@;
    let ghost pv = pairs_view(pairs@).map_values(|p| located(p));
    let mut i: usize = 0;
    while i < pairs.len()
        invariant
            i <= pairs@.len(),
            pv == pairs_view(pairs@).map_values(|p| located(p)),
            out@ =~= start + join(pv.take(i as int), ", "@),
        decreases pairs@.len() - i,
    {
        proof {
            lemma_join_step(pv, ", "@, i as int);
        }
        if i > 0 {
            push_str(out, ", ");
        }
        push_str(out, pairs[i].0.as_str());
        push_str(out, " (p");
        push_decimal(out, pairs[i].1);
        push_str(out, ")");
        i = i + 1;
    }
    proof {
        assert(pv.take(pairs@.len() as int) =~= pv);
        if pairs@.len() == 0 {
            assert(join(pv, ", "@) =~= Seq::<char>::empty());
        }
    }
}

/// A sentence held in a `String`, as characters.
pub open spec fn text_view(r: Option<String>) -> Option<Seq<char>> {
    match r {
        Some(s) => Some(s@),
        None => None,
    }
}

/// The sentence that explains a result (see `detail_sentence`); `None`
/// where the explanation carries lengths.
pub fn detail_text(d: &Detail) -> (r: Option<String>)
    ensures
        text_view(r) == detail_sentence(d@),
{
    let mut out = String::new();
    match d {
        Detail::ManualReview(hint) => match hint {
            Some(h) => push_str(&mut out, h.as_str()),
            None => push_str(&mut out, "Manual review required"),
        },
        Detail::NoChecker { category, checker } => {
            push_str(&mut out, "No checker registered for ");
            push_str(&mut out, category.as_str());
            push_str(&mut out, "/");
            push_str(&mut out, checker.as_str());
        },
        Detail::InsufficientBodyText => push_str(&mut out, "Insufficient body text to measure margins"),
        Detail::Margins(_) => {
            return None;
        },
        Detail::Symmetric => push_str(&mut out, "Left and right margins are symmetric"),
        Detail::Asymmetric { .. } => {
            return None;
        },
        Detail::FontSizeConforms => push_str(&mut out, "All text conforms to font size requirements"),
        Detail::FontSizeViolations(n) => {
            push_decimal(&mut out, *n);
            push_str(&mut out, " span(s) violate font size requirements");
        },
        Detail::FontWeightConforms => push_str(&mut out, "All text conforms to font weight requirements"),
        Detail::FontWeightViolations(n) => {
            push_decimal(&mut out, *n);
            push_str(&mut out, " span(s) violate font weight requirements");
        },
        Detail::FontFamilyConforms => push_str(&mut out, "All text conforms to font family requirements"),
        Detail::FontFamilyViolations(n) => {
            push_decimal(&mut out, *n);
            push_str(&mut out, " span(s) violate font family requirements");
        },
        Detail::SectionsDetected(found) => {
            push_str(&mut out, "All required sections detected: ");
            push_joined(&mut out, found);
        },
        Detail::SectionsMissing(missing) => {
            push_str(&mut out, "Missing section(s): ");
            push_joined(&mut out, missing);
        },
        Detail::SectionsInOrder(pairs) => {
            push_str(&mut out, "Sections in correct order: ");
            push_located(&mut out, pairs);
        },
        Detail::OrderViolations(n) => {
            push_decimal(&mut out, *n);
            push_str(&mut out, " ordering violation(s) found");
        },
        Detail::ImagesWithin => push_str(&mut out, "All images within margins"),
        Detail::ImagesBeyond(n) => {
            push_decimal(&mut out, *n);
            push_str(&mut out, " image(s) extend beyond margins");
        },
    }
    Some(out)
}

/// What a piece of evidence says (see `excerpt_sentence`); `None` where
/// it carries lengths.
pub fn excerpt_text(e: &Excerpt) -> (r: Option<String>)
    ensures
        text_view(r) == excerpt_sentence(e@),
{
    let mut out = String::new();
    match e {
        Excerpt::WeightMismatch { text, detected, expected } => {
            push_str(&mut out, text.as_str());
            push_str(&mut out, " (");
            push_str(&mut out, detected.as_str());
            push_str(&mut out, ", expected ");
            push_str(&mut out, expected.as_str());
            push_str(&mut out, ")");
        },
        Excerpt::WeightForbidden { text, detected, expected } => {
            push_str(&mut out, text.as_str());
            push_str(&mut out, " (");
            push_str(&mut out, detected.as_str());
            push_str(&mut out, ", should not be ");
            push_str(&mut out, expected.as_str());
            push_str(&mut out, ")");
        },
        Excerpt::FamilyNotAllowed { text, family } => {
            push_str(&mut out, text.as_str());
            push_str(&mut out, " (");
            push_str(&mut out, family.as_str());
            push_str(&mut out, ")");
        },
        Excerpt::FamilyOffBody { text, family, body_family } => {
            push_str(&mut out, text.as_str());
            push_str(&mut out, " (");
            push_str(&mut out, family.as_str());
            push_str(&mut out, ", expected ");
            push_str(&mut out, body_family.as_str());
            push_str(&mut out, ")");
        },
        Excerpt::SectionMissing(id) => {
            push_str(&mut out, "Section '");
            push_str(&mut out, id.as_str());
            push_str(&mut out, "' not detected");
        },
        Excerpt::SectionBefore { section, page, previous, previous_page } => {
            push_str(&mut out, "'");
            push_str(&mut out, section.as_str());
            push_str(&mut out, "' (p");
            push_decimal(&mut out, *page);
            push_str(&mut out, ") appears before '");
            push_str(&mut out, previous.as_str());
            push_str(&mut out, "' (p");
            push_decimal(&mut out, *previous_page);
            push_str(&mut out, ")");
        },
        Excerpt::SectionsSharePage { section, previous, page } => {
            push_str(&mut out, "'");
            push_str(&mut out, section.as_str());
            push_str(&mut out, "' and '");
            push_str(&mut out, previous.as_str());
            push_str(&mut out, "' detected on same page ");
            push_decimal(&mut out, *page);
        },
        _ => {
            return None;
        },
    }
    Some(out)
}

} // verus!
