//! Margin measurement: dominant clusters of edge positions, margin
//! settings against required values, and left/right symmetry.
use vstd::prelude::*;
use vstd::relations::{sorted_by, total_ordering};
use vstd::seq_lib::lemma_sorted_unique;
use crate::document::{Document, Page, TextSpan, header_band, footer_band, trimmed_len};
use crate::params::{ParamValue, str_at, get_str};
use crate::text::{chars_of, trim_chars, utf8_len_capped};
use crate::checkers::{
    Checker, CheckResult, CheckResultView, Detail, DetailView, Edge, EdgeReport, EvidenceItem,
    EvidenceView, Excerpt, ExcerptView, Status, evidence_view,
};
use crate::checkers::measure::{measurement, parse_measurement};
use crate::checkers::sections::{excluded_pages, find_excluded_pages, pages_with};
use crate::checkers::structure::{page_text_of, span_texts, contains_one_of};

verus! {

/// The order in which measured positions are sorted.
pub open spec fn value_le() -> spec_fn(i64, i64) -> bool {
    |a: i64, b: i64| a <= b
}

/// `values` in ascending order.
pub open spec fn ascending(values: Seq<i64>) -> Seq<i64> {
    values.sort_by(value_le())
}

proof fn lemma_value_le_total()
    ensures
        total_ordering(value_le()),
{
}

/// Sorts `values` ascending by insertion.
fn sort_values(values: &Vec<i64>) -> (r: Vec<i64>)
    ensures
        r@ == ascending(values@),
{
    broadcast use vstd::seq_lib::group_to_multiset_ensures;

    let n = values.len();
    let mut r: Vec<i64> = Vec::new();
    let mut i: usize = 0;
    while i < n
        invariant
            n == values@.len(),
            i <= n,
            sorted_by(r@, value_le()),
            r@.to_multiset() == values@.take(i as int).to_multiset(),
        decreases n - i,
    {
        let x = values[i];
        let mut p: usize = 0;
        while p < r.len() && r[p] <= x
            invariant
                p <= r@.len(),
                forall|k: int| 0 <= k < p ==> #[trigger] r@[k] <= x,
            decreases r@.len() - p,
        {
            p = p + 1;
        }
        let ghost old_r = r@;
        r.insert(p, x);
        proof {
            assert forall|a: int, b: int| 0 <= a < b < r@.len() implies #[trigger] value_le()(
                r@[a],
                r@[b],
            ) by {
                if b < p {
                    assert(value_le()(old_r[a], old_r[b]));
                } else if b == p {
                    assert(r@[a] == old_r[a]);
                } else if a < p {
                    assert(r@[a] == old_r[a]);
                    assert(r@[b] == old_r[b - 1]);
                    if p < old_r.len() {
                        assert(value_le()(old_r[p as int], old_r[b - 1]));
                    }
                } else if a == p {
                    assert(r@[b] == old_r[b - 1]);
                    assert(!(old_r[p as int] <= x));
                    if p < b - 1 {
                        assert(value_le()(old_r[p as int], old_r[b - 1]));
                    }
                } else {
                    assert(value_le()(old_r[a - 1], old_r[b - 1]));
                }
            }
            assert(values@.take(i + 1) =~= values@.take(i as int).push(x));
            vstd::seq_lib::to_multiset_insert(old_r, p as int, x);
            vstd::seq_lib::to_multiset_build(values@.take(i as int), x);
            assert(r@.to_multiset() == old_r.to_multiset().insert(x));
            assert(values@.take(i as int).push(x).to_multiset() == values@.take(
                i as int,
            ).to_multiset().insert(x));
        }
        i = i + 1;
    }
    proof {
        assert(values@.take(n as int) =~= values@);
        values@.lemma_sort_by_ensures(value_le());
        lemma_value_le_total();
        lemma_sorted_unique(r@, ascending(values@), value_le());
    }
    r
}

/// Number of leading elements of `s` that are at most `limit`.
pub open spec fn run_len(s: Seq<i64>, limit: int) -> nat
    decreases s.len(),
{
    if s.len() > 0 && s[0] <= limit {
        1 + run_len(s.drop_first(), limit)
    } else {
        0
    }
}

pub proof fn lemma_run_len_bound(s: Seq<i64>, limit: int)
    ensures
        run_len(s, limit) <= s.len(),
    decreases s.len(),
{
    if s.len() > 0 && s[0] <= limit {
        lemma_run_len_bound(s.drop_first(), limit);
    }
}

/// Size of the cluster that starts at the front of the sorted sequence `s`:
/// the front value and the values after it that lie no more than
/// `proximity` above it; a single value where none does.
pub open spec fn first_cluster_len(s: Seq<i64>, proximity: int) -> nat {
    let k = run_len(s, s[0] + proximity);
    if k == 0 {
        1
    } else {
        k
    }
}

/// The clusters of the sorted sequence `s`, left to right: each one
/// anchored at its first value.
pub open spec fn clusters(s: Seq<i64>, proximity: int) -> Seq<Seq<i64>>
    decreases s.len(),
{
    if s.len() == 0 {
        Seq::empty()
    } else {
        let n = first_cluster_len(s, proximity);
        proof {
            lemma_run_len_bound(s, s[0] + proximity);
        }
        seq![s.take(n as int)] + clusters(s.skip(n as int), proximity)
    }
}

/// The first of the largest sequences in `cs`.
pub open spec fn first_largest(cs: Seq<Seq<i64>>) -> Seq<i64>
    decreases cs.len(),
{
    if cs.len() == 0 {
        Seq::empty()
    } else if cs.len() == 1 {
        cs[0]
    } else {
        let b = first_largest(cs.drop_last());
        if cs.last().len() > b.len() {
            cs.last()
        } else {
            b
        }
    }
}

/// Sum of the values.
pub open spec fn sum(s: Seq<i64>) -> int
    decreases s.len(),
{
    if s.len() == 0 {
        0
    } else {
        sum(s.drop_last()) + s.last()
    }
}

/// Mean of the values, rounded down; 0 for no values.
pub open spec fn mean_floor(s: Seq<i64>) -> int {
    if s.len() == 0 {
        0
    } else {
        sum(s) / (s.len() as int)
    }
}

/// The center of the dominant cluster of `values`: the values are sorted,
/// split into clusters anchored at their first value, and the mean of the
/// first largest cluster is returned when it holds at least `min_count`
/// values.
pub open spec fn cluster_center(values: Seq<i64>, proximity: int, min_count: int) -> Option<int> {
    if values.len() == 0 {
        None
    } else {
        let best = first_largest(clusters(ascending(values), proximity));
        if best.len() >= min_count {
            Some(mean_floor(best))
        } else {
            None
        }
    }
}

/// `None` as `None`, a value as the same number.
pub open spec fn as_int_option(o: Option<i64>) -> Option<int> {
    match o {
        Some(v) => Some(v as int),
        None => None,
    }
}

proof fn lemma_run_len_exact(t: Seq<i64>, limit: int, k: int)
    requires
        0 <= k <= t.len(),
        forall|m: int| 0 <= m < k ==> #[trigger] t[m] <= limit,
        k == t.len() || t[k] > limit,
    ensures
        run_len(t, limit) == k,
    decreases k,
{
    if k > 0 {
        let u = t.drop_first();
        assert forall|m: int| 0 <= m < k - 1 implies #[trigger] u[m] <= limit by {
            assert(u[m] == t[m + 1]);
        }
        if k < t.len() {
            assert(u[k - 1] == t[k]);
        }
        lemma_run_len_exact(u, limit, k - 1);
    }
}

proof fn lemma_sum_push(s: Seq<i64>, v: i64)
    ensures
        sum(s.push(v)) == sum(s) + v,
{
    assert(s.push(v).drop_last() =~= s);
}

/// `a` divided by `b`, rounded down.
pub fn floor_div(a: i128, b: i128) -> (q: i128)
    requires
        b > 0,
    ensures
        q == a / b,
{
    if a >= 0 {
        a / b
    } else {
        let na: i128 = -(a + 1);
        let c: i128 = na / b;
        proof {
            lemma_floor_neg(a as int, b as int, c as int);
        }
        -c - 1
    }
}

proof fn lemma_floor_neg(a: int, b: int, c: int)
    requires
        b > 0,
        a < 0,
        c == (-(a + 1)) / b,
    ensures
        -c - 1 == a / b,
{
    let q = a / b;
    let r = a % b;
    vstd::arithmetic::div_mod::lemma_fundamental_div_mod(a, b);
    let na = -(a + 1);
    assert(na == b * (-q - 1) + (b - 1 - r)) by (nonlinear_arith)
        requires
            a == b * q + r,
            na == -(a + 1),
    ;
    vstd::arithmetic::div_mod::lemma_fundamental_div_mod_converse(na, b, -q - 1, b - 1 - r);
}

/// The center of the dominant cluster of `values` (see `cluster_center`):
/// `None` when there are no values or when the dominant cluster holds
/// fewer than `min_count` of them.
pub fn dominant_cluster(values: &Vec<i64>, proximity: i64, min_count: usize) -> (r: Option<i64>)
    ensures
        as_int_option(r) == cluster_center(values@, proximity as int, min_count as int),
{
    let n = values.len();
    if n == 0 {
        return None;
    }
    let s = sort_values(values);
    proof {
        values@.lemma_sort_by_ensures(value_le());
        vstd::seq_lib::to_multiset_len(values@);
        vstd::seq_lib::to_multiset_len(s@);
    }
    let ghost sv = s@;
    let mut i: usize = 0;
    let mut best_len: usize = 0;
    let mut best_sum: i128 = 0;
    let ghost mut done: Seq<Seq<i64>> = Seq::empty();
    assert(sv.skip(0) =~= sv);
    assert(done + clusters(sv, proximity as int) =~= clusters(sv, proximity as int));
    while i < n
        invariant
            sv == s@,
            n == sv.len(),
            i <= n,
            clusters(sv, proximity as int) == done + clusters(sv.skip(i as int), proximity as int),
            i == 0 <==> done.len() == 0,
            done.len() > 0 ==> best_len == first_largest(done).len() && best_sum == sum(
                first_largest(done),
            ),
            best_len <= n,
            i > 0 ==> best_len >= 1,
            i == 0 ==> best_len == 0,
            -(best_len as int) * 0x8000_0000_0000_0000 <= best_sum <= (best_len as int) * 0x7fff_ffff_ffff_ffff,
        decreases n - i,
    {
        let start = s[i];
        let limit: i128 = start as i128 + proximity as i128;
        let mut j: usize = i;
        let mut csum: i128 = 0;
        while j < n && (s[j] as i128) <= limit
            invariant
                sv == s@,
                n == sv.len(),
                i <= j <= n,
                forall|m: int| i <= m < j ==> #[trigger] sv[m] <= limit,
                csum == sum(sv.subrange(i as int, j as int)),
                -((j - i) as int) * 0x8000_0000_0000_0000 <= csum <= ((j - i) as int) * 0x7fff_ffff_ffff_ffff,
            decreases n - j,
        {
            proof {
                lemma_sum_push(sv.subrange(i as int, j as int), sv[j as int]);
                assert(sv.subrange(i as int, j + 1) =~= sv.subrange(i as int, j as int).push(
                    sv[j as int],
                ));
            }
            assert(j - i + 1 <= n <= 0xffff_ffff_ffff_ffff);
            assert(((j - i + 1) as int) * 0x7fff_ffff_ffff_ffff == ((j - i) as int) * 0x7fff_ffff_ffff_ffff + 0x7fff_ffff_ffff_ffff);
            assert(((j - i + 1) as int) * 0x8000_0000_0000_0000 == ((j - i) as int) * 0x8000_0000_0000_0000 + 0x8000_0000_0000_0000);
            assert(((j - i + 1) as int) * 0x8000_0000_0000_0000 <= 0xffff_ffff_ffff_ffff * 0x8000_0000_0000_0000);
            csum = csum + s[j] as i128;
            j = j + 1;
        }
        let ghost t = sv.skip(i as int);
        proof {
            assert forall|m: int| 0 <= m < j - i implies #[trigger] t[m] <= limit by {
                assert(t[m] == sv[m + i]);
            }
            if j < n {
                assert(t[j - i] == sv[j as int]);
            }
            lemma_run_len_exact(t, limit as int, (j - i) as int);
        }
        if j == i {
            proof {
                lemma_sum_push(sv.subrange(i as int, i as int), sv[i as int]);
                assert(sv.subrange(i as int, i + 1) =~= sv.subrange(i as int, i as int).push(
                    sv[i as int],
                ));
            }
            csum = s[i] as i128;
            j = i + 1;
        }
        let ghost cluster = sv.subrange(i as int, j as int);
        proof {
            assert(first_cluster_len(t, proximity as int) == j - i);
            assert(t.take((j - i) as int) =~= cluster);
            assert(t.skip((j - i) as int) =~= sv.skip(j as int));
            assert(clusters(t, proximity as int) == seq![cluster] + clusters(
                sv.skip(j as int),
                proximity as int,
            ));
            assert(done + clusters(t, proximity as int) =~= done.push(cluster) + clusters(
                sv.skip(j as int),
                proximity as int,
            ));
            let d2 = done.push(cluster);
            assert(d2.drop_last() =~= done);
        }
        assert(csum == sum(cluster));
        let ghost d2 = done.push(cluster);
        if j - i > best_len {
            best_len = j - i;
            best_sum = csum;
        }
        proof {
            assert(d2.last() == cluster);
            assert(d2.drop_last() =~= done);
            if done.len() == 0 {
                assert(first_largest(d2) == cluster);
            } else {
                assert(first_largest(d2) == (if cluster.len() > first_largest(done).len() {
                    cluster
                } else {
                    first_largest(done)
                }));
            }
            assert(cluster.len() == j - i);
            assert(best_len == first_largest(d2).len());
            assert(best_sum == sum(first_largest(d2)));
            done = d2;
        }
        i = j;
    }
    proof {
        assert(sv.skip(n as int) =~= Seq::<i64>::empty());
        assert(clusters(sv.skip(n as int), proximity as int) =~= Seq::<Seq<i64>>::empty());
        assert(done + Seq::<Seq<i64>>::empty() =~= done);
        assert(clusters(sv, proximity as int) == done);
        assert(sv == ascending(values@));
    }
    if best_len >= min_count {
        proof {
            lemma_mean_bounds(best_sum as int, best_len as int);
        }
        let q = floor_div(best_sum, best_len as i128);
        Some(q as i64)
    } else {
        None
    }
}

proof fn lemma_mean_bounds(total: int, count: int)
    requires
        count > 0,
        -count * 0x8000_0000_0000_0000 <= total <= count * 0x7fff_ffff_ffff_ffff,
    ensures
        -0x8000_0000_0000_0000 <= total / count <= 0x7fff_ffff_ffff_ffff,
{
    vstd::arithmetic::div_mod::lemma_fundamental_div_mod(total, count);
    let q = total / count;
    let r = total % count;
    assert(-0x8000_0000_0000_0000 <= q <= 0x7fff_ffff_ffff_ffff) by (nonlinear_arith)
        requires
            total == count * q + r,
            0 <= r < count,
            count > 0,
            -count * 0x8000_0000_0000_0000 <= total <= count * 0x7fff_ffff_ffff_ffff,
    ;
}

/// A length setting: the measurement written under `key`, or `default`
/// where no string is given; `fallback` where it cannot be read.
pub open spec fn setting(params: ParamValue, key: Seq<char>, default: Seq<char>, fallback: int) -> int {
    let text = match str_at(params, key) {
        Some(t) => t,
        None => default,
    };
    match measurement(text) {
        Ok(x) => x,
        Err(_) => fallback,
    }
}

/// Reads a length setting (see `setting`).
pub fn read_setting(params: &ParamValue, key: &str, default: &str, fallback: i32) -> (r: i32)
    ensures
        r as int == setting(*params, key@, default@, fallback as int),
{
    let text = match get_str(params, key) {
        Some(t) => t,
        None => default,
    };
    match parse_measurement(text) {
        Ok(x) => x,
        Err(_) => fallback,
    }
}

/// Mean of the values, rounded down; 0 for none.
pub fn mean(values: &Vec<i64>) -> (m: i64)
    ensures
        m as int == mean_floor(values@),
{
    let n = values.len();
    if n == 0 {
        return 0;
    }
    let mut total: i128 = 0;
    let mut i: usize = 0;
    while i < n
        invariant
            n == values@.len(),
            i <= n,
            total == sum(values@.take(i as int)),
            -(i as int) * 0x8000_0000_0000_0000 <= total <= (i as int) * 0x7fff_ffff_ffff_ffff,
        decreases n - i,
    {
        proof {
            assert(values@.take(i + 1) =~= values@.take(i as int).push(values@[i as int]));
            lemma_sum_push(values@.take(i as int), values@[i as int]);
            assert(i + 1 <= n <= 0xffff_ffff_ffff_ffff);
            assert(((i + 1) as int) * 0x7fff_ffff_ffff_ffff == (i as int) * 0x7fff_ffff_ffff_ffff
                + 0x7fff_ffff_ffff_ffff);
            assert(((i + 1) as int) * 0x8000_0000_0000_0000 == (i as int) * 0x8000_0000_0000_0000
                + 0x8000_0000_0000_0000);
        }
        total = total + values[i] as i128;
        i = i + 1;
    }
    assert(values@.take(n as int) =~= values@);
    proof {
        lemma_mean_bounds(total as int, n as int);
    }
    floor_div(total, n as i128) as i64
}

/// A span that counts as body text for margin measurement: below the
/// header band, above the footer band, with at least 3 bytes of text.
pub open spec fn is_margin_body(s: TextSpan, height: i32) -> bool {
    s.bbox.0 >= header_band() && s.bbox.1 <= height - footer_band() && trimmed_len(s) >= 3
}

pub open spec fn margin_body(p: Page) -> Seq<TextSpan> {
    p.spans@.filter(|s: TextSpan| is_margin_body(s, p.height))
}

pub open spec fn left_positions(spans: Seq<TextSpan>) -> Seq<i64> {
    spans.map_values(|s: TextSpan| s.bbox.2 as i64)
}

/// The room between a span's right end and the page's right edge, at least 0.
pub open spec fn right_gap(s: TextSpan, width: i32) -> i64 {
    if width - s.bbox.3 > 0 {
        (width - s.bbox.3) as i64
    } else {
        0
    }
}

pub open spec fn right_gaps(spans: Seq<TextSpan>, width: i32) -> Seq<i64> {
    spans.map_values(|s: TextSpan| right_gap(s, width))
}

/// The highest top among the spans.
pub open spec fn min_top(spans: Seq<TextSpan>) -> int
    decreases spans.len(),
{
    if spans.len() == 0 {
        0
    } else if spans.len() == 1 {
        spans[0].bbox.0 as int
    } else {
        let m = min_top(spans.drop_last());
        if (spans.last().bbox.0 as int) < m {
            spans.last().bbox.0 as int
        } else {
            m
        }
    }
}

/// The lowest bottom among the spans.
pub open spec fn max_bottom(spans: Seq<TextSpan>) -> int
    decreases spans.len(),
{
    if spans.len() == 0 {
        0
    } else if spans.len() == 1 {
        spans[0].bbox.1 as int
    } else {
        let m = max_bottom(spans.drop_last());
        if (spans.last().bbox.1 as int) > m {
            spans.last().bbox.1 as int
        } else {
            m
        }
    }
}

pub open spec fn as_i64_option(o: Option<int>) -> Option<i64> {
    match o {
        Some(v) => Some(v as i64),
        None => None,
    }
}

/// A page that takes part in margin measurement: not excluded, with body
/// text.
pub open spec fn measured(doc: Document, p: Page) -> bool {
    !excluded_pages(doc).contains(p.page_number) && margin_body(p).len() > 0
}

/// Per measured page, the dominant left edge of its body text, where it
/// has one (at least 5 spans within 4pt).
pub open spec fn left_edges(doc: Document) -> Seq<i64> {
    doc.pages@.filter_map(
        |p: Page|
            if measured(doc, p) {
                as_i64_option(cluster_center(left_positions(margin_body(p)), 4000, 5))
            } else {
                None
            },
    )
}

/// Per measured page, the dominant right margin of its body text, where
/// it has one.
pub open spec fn right_margins(doc: Document) -> Seq<i64> {
    doc.pages@.filter_map(
        |p: Page|
            if measured(doc, p) {
                as_i64_option(cluster_center(right_gaps(margin_body(p), p.width), 4000, 5))
            } else {
                None
            },
    )
}

/// Per measured page, the top of its highest body span.
pub open spec fn first_tops(doc: Document) -> Seq<i64> {
    doc.pages@.filter_map(
        |p: Page|
            if measured(doc, p) {
                Some(min_top(margin_body(p)) as i64)
            } else {
                None
            },
    )
}

/// Per measured page, the room below its lowest body span.
pub open spec fn last_bottoms(doc: Document) -> Seq<i64> {
    doc.pages@.filter_map(
        |p: Page|
            if measured(doc, p) {
                Some((p.height - max_bottom(margin_body(p))) as i64)
            } else {
                None
            },
    )
}

/// The mean of `values` against the band `required` ± `tolerance`.
pub open spec fn edge_report(edge: Edge, values: Seq<i64>, required: int, tolerance: int) -> EdgeReport {
    let avg = mean_floor(values);
    EdgeReport {
        edge,
        average: avg as i64,
        lower: (required - tolerance) as i64,
        upper: (required + tolerance) as i64,
        pass: required - tolerance <= avg && avg <= required + tolerance,
    }
}

/// The report on an edge, where it was measured on some page.
pub open spec fn edge_line(edge: Edge, values: Seq<i64>, required: int, tolerance: int) -> Seq<
    EdgeReport,
> {
    if values.len() > 0 {
        seq![edge_report(edge, values, required, tolerance)]
    } else {
        Seq::empty()
    }
}

/// Required settings: left, right, top, bottom, and the tolerance.
pub open spec fn margin_settings(params: ParamValue) -> (int, int, int, int, int) {
    (
        setting(params, "left"@, "1.25in"@, 90000),
        setting(params, "right"@, "1.25in"@, 90000),
        setting(params, "top"@, "1in"@, 72000),
        setting(params, "bottom"@, "1in"@, 72000),
        setting(params, "tolerance"@, "0.125in"@, 9000),
    )
}

/// The reports on the left, right, top and bottom edges, in that order.
pub open spec fn margin_reports(doc: Document, params: ParamValue) -> Seq<EdgeReport> {
    let (l, r, t, b, tol) = margin_settings(params);
    edge_line(Edge::Left, left_edges(doc), l, tol) + edge_line(Edge::Right, right_margins(doc), r, tol)
        + edge_line(Edge::Top, first_tops(doc), t, tol) + edge_line(
        Edge::Bottom,
        last_bottoms(doc),
        b,
        tol,
    )
}

/// Evidence for each edge whose mean is outside its band.
pub open spec fn margin_evidence(reports: Seq<EdgeReport>) -> Seq<EvidenceView> {
    reports.filter_map(
        |r: EdgeReport|
            if r.pass {
                None
            } else {
                Some(EvidenceView { page: 0, bbox: None, excerpt: ExcerptView::MarginOutside(r) })
            },
    )
}

/// What the margins check reports: an error where no page has a dominant
/// left edge; else, for each measured edge, its mean against the band
/// required ± tolerance, failing where any mean lies outside.
pub open spec fn margins_outcome(doc: Document, params: ParamValue) -> CheckResultView {
    if left_edges(doc).len() == 0 {
        CheckResultView {
            check_id: Seq::empty(),
            status: Status::Error,
            evidence: Seq::empty(),
            detail: DetailView::InsufficientBodyText,
        }
    } else {
        let reports = margin_reports(doc, params);
        let evidence = margin_evidence(reports);
        CheckResultView {
            check_id: Seq::empty(),
            status: if evidence.len() == 0 {
                Status::Pass
            } else {
                Status::Fail
            },
            evidence,
            detail: DetailView::Margins(reports),
        }
    }
}

/// The dominant cluster does not depend on the order of the values: two
/// lists holding the same values, each as often, have the same center.
pub proof fn lemma_cluster_center_order_free(
    a: Seq<i64>,
    b: Seq<i64>,
    proximity: int,
    min_count: int,
)
    requires
        a.to_multiset() == b.to_multiset(),
    ensures
        cluster_center(a, proximity, min_count) == cluster_center(b, proximity, min_count),
{
    broadcast use vstd::seq_lib::group_to_multiset_ensures;

    lemma_value_le_total();
    a.lemma_sort_by_ensures(value_le());
    b.lemma_sort_by_ensures(value_le());
    lemma_sorted_unique(ascending(a), ascending(b), value_le());
    assert(a.len() == a.to_multiset().len());
    assert(b.len() == b.to_multiset().len());
}

proof fn lemma_margin_evidence_empty(reports: Seq<EdgeReport>)
    ensures
        margin_evidence(reports).len() == 0 <==> forall|i: int|
            0 <= i < reports.len() ==> (#[trigger] reports[i]).pass,
    decreases reports.len(),
{
    if reports.len() > 0 {
        let rest = reports.drop_last();
        lemma_margin_evidence_empty(rest);
        if forall|i: int| 0 <= i < rest.len() ==> (#[trigger] rest[i]).pass {
            assert forall|i: int| 0 <= i < reports.len() - 1 implies (#[trigger] reports[i]).pass by {
                assert(reports[i] == rest[i]);
            }
        } else {
            let i = choose|i: int| 0 <= i < rest.len() && !(#[trigger] rest[i]).pass;
            assert(reports[i] == rest[i]);
        }
    }
}

/// The margins check passes exactly when some page yields a dominant left
/// edge and every measured edge passes (its mean lies within the required
/// setting plus or minus the tolerance); it reports an error exactly when
/// no page yields a dominant left edge.
pub proof fn lemma_margins_pass_iff_edges_within(doc: Document, params: ParamValue)
    ensures
        margins_outcome(doc, params).status == Status::Pass <==> left_edges(doc).len() > 0
            && forall|i: int|
            0 <= i < margin_reports(doc, params).len() ==> (#[trigger] margin_reports(
                doc,
                params,
            )[i]).pass,
        margins_outcome(doc, params).status == Status::Error <==> left_edges(doc).len() == 0,
{
    lemma_margin_evidence_empty(margin_reports(doc, params));
}

proof fn lemma_sum_range(s: Seq<i64>)
    ensures
        -(s.len() as int) * 0x8000_0000_0000_0000 <= sum(s) <= (s.len() as int)
            * 0x7fff_ffff_ffff_ffff,
    decreases s.len(),
{
    if s.len() > 0 {
        lemma_sum_range(s.drop_last());
        let n = s.len() as int;
        assert(n * 0x7fff_ffff_ffff_ffff == (n - 1) * 0x7fff_ffff_ffff_ffff + 0x7fff_ffff_ffff_ffff);
        assert(n * 0x8000_0000_0000_0000 == (n - 1) * 0x8000_0000_0000_0000 + 0x8000_0000_0000_0000);
    }
}

/// The rounded-down mean of 64-bit values is itself a 64-bit value.
proof fn lemma_mean_floor_range(s: Seq<i64>)
    ensures
        i64::MIN <= mean_floor(s) <= i64::MAX,
{
    if s.len() > 0 {
        lemma_sum_range(s);
        lemma_mean_bounds(sum(s), s.len() as int);
    }
}

/// A length setting is a 32-bit value when its fallback is one.
proof fn lemma_setting_range(params: ParamValue, key: Seq<char>, default: Seq<char>, fallback: int)
    requires
        i32::MIN <= fallback <= i32::MAX,
    ensures
        i32::MIN <= setting(params, key, default, fallback) <= i32::MAX,
{
}

/// The band of each edge report, and whether the report passes: the band runs from the
/// edge's required setting less the tolerance to the setting plus the
/// tolerance (left, right, top, bottom settings default to 1.25in, 1.25in,
/// 1in, 1in and the tolerance to 0.125in), and a report passes exactly
/// when its average lies within its band, so an average above the upper
/// end or below the lower end fails. The margins check passes exactly
/// when some page yields a dominant left edge and every reported average
/// lies within its band.
pub proof fn lemma_edge_reports_within_band(doc: Document, params: ParamValue)
    ensures
        forall|i: int|
            0 <= i < margin_reports(doc, params).len() ==> {
                let r = #[trigger] margin_reports(doc, params)[i];
                let tol = setting(params, "tolerance"@, "0.125in"@, 9000);
                let req = match r.edge {
                    Edge::Left => setting(params, "left"@, "1.25in"@, 90000),
                    Edge::Right => setting(params, "right"@, "1.25in"@, 90000),
                    Edge::Top => setting(params, "top"@, "1in"@, 72000),
                    Edge::Bottom => setting(params, "bottom"@, "1in"@, 72000),
                };
                &&& r.lower == req - tol
                &&& r.upper == req + tol
                &&& (r.pass <==> r.lower <= r.average && r.average <= r.upper)
            },
        margins_outcome(doc, params).status == Status::Pass <==> left_edges(doc).len() > 0
            && forall|i: int|
            0 <= i < margin_reports(doc, params).len() ==> (#[trigger] margin_reports(
                doc,
                params,
            )[i]).lower <= margin_reports(doc, params)[i].average && margin_reports(
                doc,
                params,
            )[i].average <= margin_reports(doc, params)[i].upper,
{
    let (sl, sr, st, sb, tol) = margin_settings(params);
    lemma_setting_range(params, "left"@, "1.25in"@, 90000);
    lemma_setting_range(params, "right"@, "1.25in"@, 90000);
    lemma_setting_range(params, "top"@, "1in"@, 72000);
    lemma_setting_range(params, "bottom"@, "1in"@, 72000);
    lemma_setting_range(params, "tolerance"@, "0.125in"@, 9000);
    lemma_mean_floor_range(left_edges(doc));
    lemma_mean_floor_range(right_margins(doc));
    lemma_mean_floor_range(first_tops(doc));
    lemma_mean_floor_range(last_bottoms(doc));
    let a = edge_line(Edge::Left, left_edges(doc), sl, tol);
    let bb = edge_line(Edge::Right, right_margins(doc), sr, tol);
    let c = edge_line(Edge::Top, first_tops(doc), st, tol);
    let d = edge_line(Edge::Bottom, last_bottoms(doc), sb, tol);
    let reports = margin_reports(doc, params);
    assert(reports == a + bb + c + d);
    assert forall|i: int| 0 <= i < reports.len() implies {
        let r = #[trigger] reports[i];
        let req = match r.edge {
            Edge::Left => sl,
            Edge::Right => sr,
            Edge::Top => st,
            Edge::Bottom => sb,
        };
        &&& r.lower == req - tol
        &&& r.upper == req + tol
        &&& (r.pass <==> r.lower <= r.average && r.average <= r.upper)
    } by {
        if i < a.len() {
            assert(reports[i] == a[i]);
        } else if i < a.len() + bb.len() {
            assert(reports[i] == bb[i - a.len()]);
        } else if i < a.len() + bb.len() + c.len() {
            assert(reports[i] == c[i - a.len() - bb.len()]);
        } else {
            assert(reports[i] == d[i - a.len() - bb.len() - c.len()]);
        }
    }
    lemma_margins_pass_iff_edges_within(doc, params);
}

fn is_margin_body_exec(s: &TextSpan, height: i32) -> (b: bool)
    ensures
        b == is_margin_body(*s, height),
{
    if (s.bbox.0 as i64) < 36000 || (s.bbox.1 as i64) > (height as i64) - 53000 {
        return false;
    }
    let t = trim_chars(&chars_of(s.text.as_str()));
    utf8_len_capped(&t, 3) >= 3
}

/// The body measurements of a page: left positions, right gaps, highest
/// top and lowest bottom.
fn page_body(page: &Page) -> (r: (Vec<i64>, Vec<i64>, i64, i64))
    ensures
        r.0@ == left_positions(margin_body(*page)),
        r.1@ == right_gaps(margin_body(*page), page.width),
        r.2 == min_top(margin_body(*page)),
        r.3 == max_bottom(margin_body(*page)),
        i32::MIN <= r.3 <= i32::MAX,
        i32::MIN <= r.2 <= i32::MAX,
{
    let ghost pred = |s: TextSpan| is_margin_body(s, page.height);
    let mut xs: Vec<i64> = Vec::new();
    let mut gaps: Vec<i64> = Vec::new();
    let mut top: i64 = 0;
    let mut bottom: i64 = 0;
    let mut i: usize = 0;
    while i < page.spans.len()
        invariant
            i <= page.spans@.len(),
            pred == (|s: TextSpan| is_margin_body(s, page.height)),
            xs@ == left_positions(page.spans@.take(i as int).filter(pred)),
            gaps@ == right_gaps(page.spans@.take(i as int).filter(pred), page.width),
            top == min_top(page.spans@.take(i as int).filter(pred)),
            bottom == max_bottom(page.spans@.take(i as int).filter(pred)),
            i32::MIN <= bottom <= i32::MAX,
            i32::MIN <= top <= i32::MAX,
        decreases page.spans@.len() - i,
    {
        let ghost b0 = page.spans@.take(i as int).filter(pred);
        proof {
            reveal_with_fuel(Seq::filter, 1);
            assert(page.spans@.take(i + 1).drop_last() =~= page.spans@.take(i as int));
            assert(page.spans@.take(i + 1).last() == page.spans@[i as int]);
        }
        let s = &page.spans[i];
        if is_margin_body_exec(s, page.height) {
            let ghost b1 = b0.push(*s);
            assert(b1.drop_last() =~= b0);
            let g: i64 = if (page.width as i64) - (s.bbox.3 as i64) > 0 {
                (page.width as i64) - (s.bbox.3 as i64)
            } else {
                0
            };
            let first = xs.len() == 0;
            xs.push(s.bbox.2 as i64);
            gaps.push(g);
            if first {
                top = s.bbox.0 as i64;
                bottom = s.bbox.1 as i64;
            } else {
                if (s.bbox.0 as i64) < top {
                    top = s.bbox.0 as i64;
                }
                if (s.bbox.1 as i64) > bottom {
                    bottom = s.bbox.1 as i64;
                }
            }
            proof {
                assert(left_positions(b1) =~= left_positions(b0).push(s.bbox.2 as i64));
                assert(right_gaps(b1, page.width) =~= right_gaps(b0, page.width).push(g));
            }
        }
        i = i + 1;
    }
    assert(page.spans@.take(page.spans@.len() as int) =~= page.spans@);
    (xs, gaps, top, bottom)
}

/// Checks that the margins the author set match the required settings.
/// Per page (leaving out page 1 and the acceptance, copyright and
/// dedication pages), the dominant left edge and right margin of the body
/// text, the top of its first line and the room below its last line are
/// measured; the mean of each over the pages must lie within the
/// tolerance of its setting.
pub struct MarginsChecker;

impl Checker for MarginsChecker {
    open spec fn runs_on(&self, doc: Document) -> bool {
        true
    }

    open spec fn outcome(&self, doc: Document, params: ParamValue) -> CheckResultView {
        margins_outcome(doc, params)
    }

    fn category(&self) -> (r: &'static str)
        ensures
            r@ == "layout"@,
    {
        "layout"
    }

    fn name(&self) -> (r: &'static str)
        ensures
            r@ == "margins"@,
    {
        "margins"
    }

    #[verifier::rlimit(30)]
    fn check(&self, doc: &Document, params: &ParamValue) -> (r: CheckResult) {
        let top_req = read_setting(params, "top", "1in", 72000);
        let bottom_req = read_setting(params, "bottom", "1in", 72000);
        let left_req = read_setting(params, "left", "1.25in", 90000);
        let right_req = read_setting(params, "right", "1.25in", 90000);
        let tolerance = read_setting(params, "tolerance", "0.125in", 9000);
        let excluded = find_excluded_pages(doc);
        let ghost d = *doc;
        let mut lefts: Vec<i64> = Vec::new();
        let mut rights: Vec<i64> = Vec::new();
        let mut tops: Vec<i64> = Vec::new();
        let mut bottoms: Vec<i64> = Vec::new();
        let mut i: usize = 0;
        while i < doc.pages.len()
            invariant
                i <= doc.pages@.len(),
                d == *doc,
                excluded@ == excluded_pages(d).to_set(),
                lefts@ == doc.pages@.take(i as int).filter_map(
                    |p: Page|
                        if measured(d, p) {
                            as_i64_option(cluster_center(left_positions(margin_body(p)), 4000, 5))
                        } else {
                            None
                        },
                ),
                rights@ == doc.pages@.take(i as int).filter_map(
                    |p: Page|
                        if measured(d, p) {
                            as_i64_option(
                                cluster_center(right_gaps(margin_body(p), p.width), 4000, 5),
                            )
                        } else {
                            None
                        },
                ),
                tops@ == doc.pages@.take(i as int).filter_map(
                    |p: Page|
                        if measured(d, p) {
                            Some(min_top(margin_body(p)) as i64)
                        } else {
                            None
                        },
                ),
                bottoms@ == doc.pages@.take(i as int).filter_map(
                    |p: Page|
                        if measured(d, p) {
                            Some((p.height - max_bottom(margin_body(p))) as i64)
                        } else {
                            None
                        },
                ),
            decreases doc.pages@.len() - i,
        {
            proof {
                assert(doc.pages@.take(i + 1).drop_last() =~= doc.pages@.take(i as int));
                assert(doc.pages@.take(i + 1).last() == doc.pages@[i as int]);
            }
            let page = &doc.pages[i];
            if !excluded.contains(&page.page_number) {
                let (xs, gaps, top, bottom) = page_body(page);
                if xs.len() > 0 {
                    let l = dominant_cluster(&xs, 4000, 5);
                    let r = dominant_cluster(&gaps, 4000, 5);
                    match l {
                        Some(e) => lefts.push(e),
                        None => {},
                    }
                    match r {
                        Some(e) => rights.push(e),
                        None => {},
                    }
                    tops.push(top);
                    bottoms.push((page.height as i64) - bottom);
                    proof {
                        assert(lefts@ =~= lefts@);
                    }
                }
            }
            i = i + 1;
        }
        proof {
            assert(doc.pages@.take(doc.pages@.len() as int) =~= doc.pages@);
        }
        if lefts.len() == 0 {
            let r = CheckResult {
                check_id: String::new(),
                status: Status::Error,
                evidence: Vec::new(),
                detail: Detail::InsufficientBodyText,
            };
            proof {
                assert(evidence_view(r.evidence@) =~= Seq::<EvidenceView>::empty());
            }
            return r;
        }
        let mut reports: Vec<EdgeReport> = Vec::new();
        push_edge(&mut reports, Edge::Left, &lefts, left_req, tolerance);
        push_edge(&mut reports, Edge::Right, &rights, right_req, tolerance);
        push_edge(&mut reports, Edge::Top, &tops, top_req, tolerance);
        push_edge(&mut reports, Edge::Bottom, &bottoms, bottom_req, tolerance);
        let ghost rv = reports@;
        assert(rv =~= margin_reports(*doc, *params));
        let mut evidence: Vec<EvidenceItem> = Vec::new();
        let mut k: usize = 0;
        while k < reports.len()
            invariant
                k <= reports@.len(),
                rv == reports@,
                evidence_view(evidence@) == margin_evidence(rv.take(k as int)),
            decreases reports@.len() - k,
        {
            proof {
                assert(rv.take(k + 1).drop_last() =~= rv.take(k as int));
                assert(rv.take(k + 1).last() == rv[k as int]);
            }
            let rep = reports[k];
            if !rep.pass {
                let ghost e0 = evidence@;
                evidence.push(EvidenceItem { page: 0, bbox: None, excerpt: Excerpt::MarginOutside(rep) });
                proof {
                    assert(evidence_view(evidence@) =~= evidence_view(e0) + seq![
                        EvidenceView { page: 0, bbox: None, excerpt: ExcerptView::MarginOutside(rep) },
                    ]);
                }
            }
            k = k + 1;
        }
        proof {
            assert(rv.take(rv.len() as int) =~= rv);
        }
        let status = if evidence.len() == 0 {
            Status::Pass
        } else {
            Status::Fail
        };
        CheckResult { check_id: String::new(), status, evidence, detail: Detail::Margins(reports) }
    }
}

/// A span that counts for the symmetry measurement: starting below the
/// header band, ending above the footer band, with at least 3 bytes of
/// text.
pub open spec fn is_symmetry_body(s: TextSpan, height: i32) -> bool {
    !(s.bbox.1 >= height - footer_band() || s.bbox.0 < header_band()) && trimmed_len(s) >= 3
}

pub open spec fn symmetry_body(p: Page) -> Seq<TextSpan> {
    p.spans@.filter(|s: TextSpan| is_symmetry_body(s, p.height))
}

/// The evidence against a page whose dominant left and right margins
/// (each at least 10 spans within 4pt) differ by more than `threshold`.
pub open spec fn asymmetry(doc: Document, p: Page, threshold: int) -> Option<EvidenceView> {
    if excluded_pages(doc).contains(p.page_number) {
        None
    } else {
        let body = symmetry_body(p);
        match (
            cluster_center(left_positions(body), 4000, 10),
            cluster_center(right_gaps(body, p.width), 4000, 10),
        ) {
            (Some(lc), Some(rc)) => if lc - rc > threshold || rc - lc > threshold {
                Some(
                    EvidenceView {
                        page: p.page_number,
                        bbox: None,
                        excerpt: ExcerptView::Asymmetry { left: lc as i64, right: rc as i64 },
                    },
                )
            } else {
                None
            },
            _ => None,
        }
    }
}

/// What the symmetry check reports: failure with each asymmetric page
/// (excluded pages left out); else success.
pub open spec fn symmetry_outcome(doc: Document, params: ParamValue) -> CheckResultView {
    let threshold = setting(params, "threshold"@, "0.25in"@, 18000);
    let evidence = doc.pages@.filter_map(|p: Page| asymmetry(doc, p, threshold));
    if evidence.len() == 0 {
        CheckResultView {
            check_id: Seq::empty(),
            status: Status::Pass,
            evidence,
            detail: DetailView::Symmetric,
        }
    } else {
        CheckResultView {
            check_id: Seq::empty(),
            status: Status::Fail,
            evidence,
            detail: DetailView::Asymmetric {
                pages: evidence.len() as usize,
                threshold: threshold as i32,
            },
        }
    }
}

/// A span reflected about the middle of a page `width` wide: its left and
/// right edges exchanged.
pub open spec fn mirror_span(s: TextSpan, width: i32) -> TextSpan {
    TextSpan {
        text: s.text,
        font_name: s.font_name,
        font_size: s.font_size,
        bbox: (s.bbox.0, s.bbox.1, (width - s.bbox.3) as i32, (width - s.bbox.2) as i32),
        is_bold: s.is_bold,
        is_italic: s.is_italic,
    }
}

/// A span's box lies within the page, `0 <= x0` and `x1 <= width`, and its
/// reflected edges `width - x1` and `width - x0` are coordinates (within
/// the range of `i32`).
pub open spec fn box_within(s: TextSpan, width: i32) -> bool {
    &&& 0 <= s.bbox.2
    &&& s.bbox.3 <= width
    &&& width - s.bbox.3 <= i32::MAX
    &&& i32::MIN <= width - s.bbox.2
}

/// `b` is `a` with every page reflected about its middle; every span box
/// of `a` lies within its page (see `box_within`).
pub open spec fn mirrored(a: Document, b: Document) -> bool {
    &&& a.pages@.len() == b.pages@.len()
    &&& forall|i: int|
        0 <= i < a.pages@.len() ==> {
            let p = #[trigger] a.pages@[i];
            let q = b.pages@[i];
            &&& q.page_number == p.page_number
            &&& q.width == p.width
            &&& q.height == p.height
            &&& forall|j: int| 0 <= j < p.spans@.len() ==> box_within(#[trigger] p.spans@[j], p.width)
            &&& q.spans@ == p.spans@.map_values(|s: TextSpan| mirror_span(s, p.width))
        }
}

/// Evidence with the left and right margins exchanged.
pub open spec fn swap_sides(e: EvidenceView) -> EvidenceView {
    match e.excerpt {
        ExcerptView::Asymmetry { left, right } => EvidenceView {
            page: e.page,
            bbox: e.bbox,
            excerpt: ExcerptView::Asymmetry { left: right, right: left },
        },
        _ => e,
    }
}

proof fn lemma_filter_map_along<A, B>(
    x: Seq<A>,
    y: Seq<A>,
    f: spec_fn(A) -> Option<B>,
    g: spec_fn(A) -> Option<B>,
    h: spec_fn(B) -> B,
)
    requires
        x.len() == y.len(),
        forall|i: int|
            0 <= i < x.len() ==> f(#[trigger] y[i]) == match g(x[i]) {
                Some(v) => Some(h(v)),
                None => None,
            },
    ensures
        y.filter_map(f) == x.filter_map(g).map_values(h),
    decreases x.len(),
{
    if x.len() > 0 {
        let n = x.len() - 1;
        assert forall|i: int| 0 <= i < n implies f(#[trigger] y.drop_last()[i]) == match g(
            x.drop_last()[i],
        ) {
            Some(v) => Some(h(v)),
            None => None,
        } by {
            assert(y.drop_last()[i] == y[i]);
            assert(x.drop_last()[i] == x[i]);
        }
        lemma_filter_map_along(x.drop_last(), y.drop_last(), f, g, h);
        assert(f(y[n]) == match g(x[n]) {
            Some(v) => Some(h(v)),
            None => None,
        });
        match g(x.last()) {
            Some(v) => {
                assert(x.filter_map(g) == x.drop_last().filter_map(g) + seq![v]);
                assert((x.drop_last().filter_map(g) + seq![v]).map_values(h) =~= x.drop_last().filter_map(
                    g,
                ).map_values(h) + seq![h(v)]);
            },
            None => {},
        }
    } else {
        assert(x.filter_map(g).map_values(h) =~= Seq::<B>::empty());
    }
}

proof fn lemma_filter_of_map<A>(x: Seq<A>, m: spec_fn(A) -> A, pred: spec_fn(A) -> bool)
    requires
        forall|s: A| #[trigger] pred(m(s)) == pred(s),
    ensures
        x.map_values(m).filter(pred) == x.filter(pred).map_values(m),
    decreases x.len(),
{
    if x.len() > 0 {
        let t = x.drop_last();
        lemma_filter_of_map(t, m, pred);
        assert(t.push(x.last()) =~= x);
        assert(x.map_values(m) =~= t.map_values(m).push(m(x.last())));
        t.lemma_filter_push(x.last(), pred);
        t.map_values(m).lemma_filter_push(m(x.last()), pred);
        assert(t.filter(pred).push(x.last()).map_values(m) =~= t.filter(pred).map_values(m).push(
            m(x.last()),
        ));
    } else {
        reveal_with_fuel(Seq::filter, 1);
        assert(x.map_values(m) =~= x);
    }
}

proof fn lemma_mirror_page(doc_a: Document, doc_b: Document, p: Page, q: Page, threshold: int)
    requires
        excluded_pages(doc_a) == excluded_pages(doc_b),
        q.page_number == p.page_number,
        q.width == p.width,
        q.height == p.height,
        forall|j: int| 0 <= j < p.spans@.len() ==> box_within(#[trigger] p.spans@[j], p.width),
        q.spans@ == p.spans@.map_values(|s: TextSpan| mirror_span(s, p.width)),
    ensures
        asymmetry(doc_b, q, threshold) == match asymmetry(doc_a, p, threshold) {
            Some(v) => Some(swap_sides(v)),
            None => None,
        },
{
    let m = |s: TextSpan| mirror_span(s, p.width);
    let pred = |s: TextSpan| is_symmetry_body(s, p.height);
    lemma_filter_of_map(p.spans@, m, pred);
    let body = symmetry_body(p);
    assert(symmetry_body(q) == body.map_values(m));
    assert forall|k: int| 0 <= k < body.len() implies box_within(#[trigger] body[k], p.width) by {
        p.spans@.lemma_filter_contains_rev(pred, body[k]);
        let j = choose|j: int| 0 <= j < p.spans@.len() && p.spans@[j] == body[k];
        assert(box_within(p.spans@[j], p.width));
    }
    assert(left_positions(symmetry_body(q)) =~= right_gaps(body, p.width)) by {
        assert forall|k: int| 0 <= k < body.len() implies left_positions(symmetry_body(q))[k]
            == #[trigger] right_gaps(body, p.width)[k] by {
            assert(box_within(body[k], p.width));
        }
    }
    assert(right_gaps(symmetry_body(q), q.width) =~= left_positions(body)) by {
        assert forall|k: int| 0 <= k < body.len() implies right_gaps(symmetry_body(q), q.width)[k]
            == #[trigger] left_positions(body)[k] by {
            assert(box_within(body[k], p.width));
        }
    }
}

/// Reflecting every page about its middle exchanges the left and right
/// margins and changes nothing else in the symmetry check: the same
/// status and detail, and the same evidence with left and right exchanged.
pub proof fn lemma_symmetry_mirror(a: Document, b: Document, params: ParamValue)
    requires
        mirrored(a, b),
    ensures
        symmetry_outcome(b, params).status == symmetry_outcome(a, params).status,
        symmetry_outcome(b, params).detail == symmetry_outcome(a, params).detail,
        symmetry_outcome(b, params).evidence == symmetry_outcome(a, params).evidence.map_values(
            |e: EvidenceView| swap_sides(e),
        ),
{
    let threshold = setting(params, "threshold"@, "0.25in"@, 18000);
    assert forall|i: int| 0 <= i < a.pages@.len() implies page_text_of(#[trigger] b.pages@[i])
        == page_text_of(a.pages@[i]) by {
        let p = a.pages@[i];
        let q = b.pages@[i];
        assert(span_texts(q.spans@) =~= span_texts(p.spans@));
    }
    assert forall|kw: Seq<Seq<char>>| #[trigger] pages_with(b.pages@, kw) == pages_with(a.pages@, kw) by {
        let f = |p: Page|
            if contains_one_of(page_text_of(p), kw) {
                Some(p.page_number)
            } else {
                None
            };
        lemma_filter_map_along(a.pages@, b.pages@, f, f, |v: usize| v);
        assert(a.pages@.filter_map(f).map_values(|v: usize| v) =~= a.pages@.filter_map(f));
    }
    assert(excluded_pages(b) == excluded_pages(a));
    let fa = |p: Page| asymmetry(a, p, threshold);
    let fb = |p: Page| asymmetry(b, p, threshold);
    assert forall|i: int| 0 <= i < a.pages@.len() implies fb(#[trigger] b.pages@[i]) == match fa(
        a.pages@[i],
    ) {
        Some(v) => Some(swap_sides(v)),
        None => None,
    } by {
        lemma_mirror_page(a, b, a.pages@[i], b.pages@[i], threshold);
    }
    lemma_filter_map_along(a.pages@, b.pages@, fb, fa, |e: EvidenceView| swap_sides(e));
}

fn is_symmetry_body_exec(s: &TextSpan, height: i32) -> (b: bool)
    ensures
        b == is_symmetry_body(*s, height),
{
    if (s.bbox.1 as i64) >= (height as i64) - 53000 || (s.bbox.0 as i64) < 36000 {
        return false;
    }
    let t = trim_chars(&chars_of(s.text.as_str()));
    utf8_len_capped(&t, 3) >= 3
}

fn symmetry_positions(page: &Page) -> (r: (Vec<i64>, Vec<i64>))
    ensures
        r.0@ == left_positions(symmetry_body(*page)),
        r.1@ == right_gaps(symmetry_body(*page), page.width),
{
    let ghost pred = |s: TextSpan| is_symmetry_body(s, page.height);
    let mut xs: Vec<i64> = Vec::new();
    let mut gaps: Vec<i64> = Vec::new();
    let mut i: usize = 0;
    while i < page.spans.len()
        invariant
            i <= page.spans@.len(),
            pred == (|s: TextSpan| is_symmetry_body(s, page.height)),
            xs@ == left_positions(page.spans@.take(i as int).filter(pred)),
            gaps@ == right_gaps(page.spans@.take(i as int).filter(pred), page.width),
        decreases page.spans@.len() - i,
    {
        let ghost b0 = page.spans@.take(i as int).filter(pred);
        proof {
            reveal_with_fuel(Seq::filter, 1);
            assert(page.spans@.take(i + 1).drop_last() =~= page.spans@.take(i as int));
            assert(page.spans@.take(i + 1).last() == page.spans@[i as int]);
        }
        let s = &page.spans[i];
        if is_symmetry_body_exec(s, page.height) {
            let ghost b1 = b0.push(*s);
            let g: i64 = if (page.width as i64) - (s.bbox.3 as i64) > 0 {
                (page.width as i64) - (s.bbox.3 as i64)
            } else {
                0
            };
            xs.push(s.bbox.2 as i64);
            gaps.push(g);
            proof {
                assert(left_positions(b1) =~= left_positions(b0).push(s.bbox.2 as i64));
                assert(right_gaps(b1, page.width) =~= right_gaps(b0, page.width).push(g));
            }
        }
        i = i + 1;
    }
    assert(page.spans@.take(page.spans@.len() as int) =~= page.spans@);
    (xs, gaps)
}

/// Checks, page by page, that the dominant left and right margins of the
/// body text are equal within a threshold (0.25in by default).
pub struct MarginSymmetryChecker;

impl Checker for MarginSymmetryChecker {
    open spec fn runs_on(&self, doc: Document) -> bool {
        true
    }

    open spec fn outcome(&self, doc: Document, params: ParamValue) -> CheckResultView {
        symmetry_outcome(doc, params)
    }

    fn category(&self) -> (r: &'static str)
        ensures
            r@ == "layout"@,
    {
        "layout"
    }

    fn name(&self) -> (r: &'static str)
        ensures
            r@ == "margin_symmetry"@,
    {
        "margin_symmetry"
    }

    #[verifier::rlimit(30)]
    fn check(&self, doc: &Document, params: &ParamValue) -> (r: CheckResult) {
        let threshold = read_setting(params, "threshold", "0.25in", 18000);
        let excluded = find_excluded_pages(doc);
        let ghost d = *doc;
        let mut evidence: Vec<EvidenceItem> = Vec::new();
        let mut i: usize = 0;
        while i < doc.pages.len()
            invariant
                i <= doc.pages@.len(),
                d == *doc,
                excluded@ == excluded_pages(d).to_set(),
                evidence_view(evidence@) == doc.pages@.take(i as int).filter_map(
                    |p: Page| asymmetry(d, p, threshold as int),
                ),
            decreases doc.pages@.len() - i,
        {
            proof {
                assert(doc.pages@.take(i + 1).drop_last() =~= doc.pages@.take(i as int));
                assert(doc.pages@.take(i + 1).last() == doc.pages@[i as int]);
            }
            let page = &doc.pages[i];
            if !excluded.contains(&page.page_number) {
                let (lefts, rights) = symmetry_positions(page);
                let lc = dominant_cluster(&lefts, 4000, 10);
                let rc = dominant_cluster(&rights, 4000, 10);
                match (lc, rc) {
                    (Some(l), Some(r)) => {
                        let diff: i128 = l as i128 - r as i128;
                        if diff > threshold as i128 || -diff > threshold as i128 {
                            let ghost e0 = evidence@;
                            let item = EvidenceItem {
                                page: page.page_number,
                                bbox: None,
                                excerpt: Excerpt::Asymmetry { left: l, right: r },
                            };
                            evidence.push(item);
                            proof {
                                assert(evidence_view(evidence@) =~= evidence_view(e0) + seq![
                                    item@,
                                ]);
                            }
                        }
                    },
                    _ => {},
                }
            }
            i = i + 1;
        }
        proof {
            assert(doc.pages@.take(doc.pages@.len() as int) =~= doc.pages@);
        }
        if evidence.len() == 0 {
            CheckResult {
                check_id: String::new(),
                status: Status::Pass,
                evidence,
                detail: Detail::Symmetric,
            }
        } else {
            let n = evidence.len();
            CheckResult {
                check_id: String::new(),
                status: Status::Fail,
                evidence,
                detail: Detail::Asymmetric { pages: n, threshold },
            }
        }
    }
}

/// Adds the report on an edge measured on some page.
fn push_edge(reports: &mut Vec<EdgeReport>, edge: Edge, values: &Vec<i64>, required: i32, tolerance: i32)
    ensures
        final(reports)@ == old(reports)@ + edge_line(edge, values@, required as int, tolerance as int),
{
    if values.len() > 0 {
        let avg = mean(values);
        let lower = required as i64 - tolerance as i64;
        let upper = required as i64 + tolerance as i64;
        reports.push(EdgeReport { edge, average: avg, lower, upper, pass: lower <= avg && avg <= upper });
    } else {
        assert(old(reports)@ + Seq::<EdgeReport>::empty() =~= old(reports)@);
    }
}

} // verus!
