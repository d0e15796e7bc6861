//! Section detection from page text, and the section presence and section
//! order checks.
use vstd::prelude::*;
use crate::document::{Document, Page, TextSpan, has_text, in_footer};
use crate::params::{ParamValue, list_at, str_at, get_str};
use crate::checkers::{
    Checker, CheckResult, CheckResultView, Detail, DetailView, EvidenceItem, EvidenceView, Excerpt,
    ExcerptView, Status, evidence_view, strings_view, pairs_view,
};
use vstd::relations::sorted_by;
use crate::text::{same_text, chars_of, contains, contains_any, contains_seq, join, lower_chars, lowercase, trim, trim_chars, utf8_len, utf8_len_capped, char_width, text_le, text_order, text_le_exec, lemma_text_order_total, lemma_text_le_total, string_of};

verus! {

/// The texts of the spans of a page.
pub open spec fn span_texts(spans: Seq<TextSpan>) -> Seq<Seq<char>> {
    spans.map_values(|s: TextSpan| s.text@)
}

/// The page's span texts joined by spaces, in lowercase.
pub open spec fn page_text_of(page: Page) -> Seq<char> {
    lowercase(join(span_texts(page.spans@), " "@))
}

/// `join` over the first `i + 1` parts, from that over the first `i`.
pub(crate) proof fn lemma_join_step(parts: Seq<Seq<char>>, sep: Seq<char>, i: int)
    requires
        0 <= i < parts.len(),
    ensures
        join(parts.take(i + 1), sep) == if i == 0 {
            parts[0]
        } else {
            join(parts.take(i), sep) + sep + parts[i]
        },
{
    let t = parts.take(i + 1);
    assert(t.drop_last() =~= parts.take(i));
    assert(t.last() == parts[i]);
    if i == 0 {
        assert(t.len() == 1);
    }
}

/// Appends the characters of `b` to `a`.
fn append_chars(a: &mut Vec<char>, b: &Vec<char>)
    ensures
        final(a)@ == old(a)@ + b@,
{
    let mut i: usize = 0;
    let ghost a0 = a@;
    while i < b.len()
        invariant
            i <= b@.len(),
            a@ =~= a0 + b@.take(i as int),
        decreases b@.len() - i,
    {
        a.push(b[i]);
        i = i + 1;
    }
    assert(b@.take(b@.len() as int) =~= b@);
}

/// The text of a page: its span texts joined by spaces, in lowercase.
pub fn page_text(page: &Page) -> (r: Vec<char>)
    ensures
        r@ == page_text_of(*page),
{
    let n = page.spans.len();
    let ghost parts = span_texts(page.spans@);
    let mut acc: Vec<char> = Vec::new();
    let mut i: usize = 0;
    while i < n
        invariant
            n == page.spans@.len(),
            parts == span_texts(page.spans@),
            i <= n,
            acc@ == join(parts.take(i as int), " "@),
        decreases n - i,
    {
        proof {
            lemma_join_step(parts, " "@, i as int);
        }
        if i > 0 {
            let sp = chars_of(" ");
            append_chars(&mut acc, &sp);
        }
        let t = chars_of(page.spans[i].text.as_str());
        append_chars(&mut acc, &t);
        i = i + 1;
    }
    proof {
        assert(parts.take(n as int) =~= parts);
        if n == 0 {
            assert(acc@ =~= join(parts, " "@));
        }
    }
    lower_chars(&acc)
}

/// Joins `parts` with `sep` between neighbours.
pub fn join_parts(parts: &Vec<Vec<char>>, sep: &Vec<char>) -> (r: Vec<char>)
    ensures
        r@ == join(parts@.map_values(|p: Vec<char>| p@), sep@),
{
    let ghost pv = parts@.map_values(|p: Vec<char>| p@);
    let mut acc: Vec<char> = Vec::new();
    let mut i: usize = 0;
    while i < parts.len()
        invariant
            i <= parts@.len(),
            pv == parts@.map_values(|p: Vec<char>| p@),
            acc@ == join(pv.take(i as int), sep@),
        decreases parts@.len() - i,
    {
        proof {
            lemma_join_step(pv, sep@, i as int);
        }
        if i > 0 {
            append_chars(&mut acc, sep);
        }
        append_chars(&mut acc, &parts[i]);
        i = i + 1;
    }
    proof {
        assert(pv.take(parts@.len() as int) =~= pv);
        if parts@.len() == 0 {
            assert(acc@ =~= join(pv, sep@));
        }
    }
    acc
}

/// The line a span belongs to: its top in points, rounded half away from
/// zero.
pub open spec fn line_key(s: TextSpan) -> int {
    let t = s.bbox.0 as int;
    if t >= 0 {
        (t + 500) / 1000
    } else {
        -((-t + 500) / 1000)
    }
}

fn line_key_of(s: &TextSpan) -> (k: i64)
    ensures
        k == line_key(*s),
{
    let t = s.bbox.0 as i64;
    if t >= 0 {
        (t + 500) / 1000
    } else {
        -((-t + 500) / 1000)
    }
}

pub open spec fn above(k: int, lb: Option<int>) -> bool {
    match lb {
        Some(b) => k > b,
        None => true,
    }
}

/// The smallest line of `spans` above `lb`.
pub open spec fn min_line_above(spans: Seq<TextSpan>, lb: Option<int>) -> Option<int>
    decreases spans.len(),
{
    if spans.len() == 0 {
        None
    } else {
        let rest = min_line_above(spans.drop_last(), lb);
        let k = line_key(spans.last());
        if above(k, lb) {
            match rest {
                Some(r) => Some(
                    if k < r {
                        k
                    } else {
                        r
                    },
                ),
                None => Some(k),
            }
        } else {
            rest
        }
    }
}

/// Number of spans on lines above `lb`.
pub open spec fn count_above(spans: Seq<TextSpan>, lb: Option<int>) -> nat
    decreases spans.len(),
{
    if spans.len() == 0 {
        0
    } else {
        count_above(spans.drop_last(), lb) + if above(line_key(spans.last()), lb) {
            1nat
        } else {
            0nat
        }
    }
}

proof fn lemma_count_above_mono(spans: Seq<TextSpan>, lb: Option<int>, m: int)
    requires
        above(m, lb),
    ensures
        count_above(spans, Some(m)) <= count_above(spans, lb),
        (exists|i: int|
            0 <= i < spans.len() && line_key(#[trigger] spans[i]) <= m && above(
                line_key(spans[i]),
                lb,
            )) ==> count_above(spans, Some(m)) < count_above(spans, lb),
    decreases spans.len(),
{
    if spans.len() > 0 {
        let t = spans.drop_last();
        lemma_count_above_mono(t, lb, m);
        if exists|i: int|
            0 <= i < spans.len() && line_key(#[trigger] spans[i]) <= m && above(
                line_key(spans[i]),
                lb,
            ) {
            let i = choose|i: int|
                0 <= i < spans.len() && line_key(#[trigger] spans[i]) <= m && above(
                    line_key(spans[i]),
                    lb,
                );
            if i < spans.len() - 1 {
                assert(t[i] == spans[i]);
            }
        }
    }
}

proof fn lemma_min_line_found(spans: Seq<TextSpan>, lb: Option<int>)
    ensures
        min_line_above(spans, lb) matches Some(k) ==> above(k, lb) && exists|i: int|
            0 <= i < spans.len() && line_key(#[trigger] spans[i]) == k,
    decreases spans.len(),
{
    if spans.len() > 0 {
        let t = spans.drop_last();
        lemma_min_line_found(t, lb);
        if min_line_above(t, lb) is Some {
            let i = choose|i: int| 0 <= i < t.len() && line_key(#[trigger] t[i]) == min_line_above(
                t,
                lb,
            )->0;
            assert(spans[i] == t[i]);
        }
        assert(spans[spans.len() - 1] == spans.last());
    }
}

pub proof fn lemma_min_line_above(spans: Seq<TextSpan>, lb: Option<int>)
    ensures
        min_line_above(spans, lb) matches Some(k) ==> above(k, lb) && count_above(spans, Some(k))
            < count_above(spans, lb),
{
    lemma_min_line_found(spans, lb);
    if let Some(k) = min_line_above(spans, lb) {
        let i = choose|i: int| 0 <= i < spans.len() && line_key(#[trigger] spans[i]) == k;
        lemma_count_above_mono(spans, lb, k);
    }
}

/// The lines of `spans` above `lb`, in ascending order.
pub open spec fn lines_above(spans: Seq<TextSpan>, lb: Option<int>) -> Seq<int>
    decreases count_above(spans, lb),
{
    match min_line_above(spans, lb) {
        Some(k) => {
            proof {
                lemma_min_line_above(spans, lb);
            }
            seq![k] + lines_above(spans, Some(k))
        },
        None => Seq::empty(),
    }
}

/// The texts of the spans on line `k`, in span order.
pub open spec fn line_words(spans: Seq<TextSpan>, k: int) -> Seq<Seq<char>> {
    spans.filter_map(
        |s: TextSpan|
            if line_key(s) == k {
                Some(s.text@)
            } else {
                None
            },
    )
}

/// Line `k` of the page: its words joined by spaces, in lowercase.
pub open spec fn line_text(spans: Seq<TextSpan>, k: int) -> Seq<char> {
    lowercase(join(line_words(spans, k), " "@))
}

/// A line that reads as a citation: it holds a DOI or a link, or it is a
/// short run starting with a digit (at most five bytes once trimmed).
pub open spec fn is_citation_line(low: Seq<char>) -> bool {
    ||| contains_seq(low, "doi:"@)
    ||| contains_seq(low, "http"@)
    ||| contains_seq(low, "https"@)
    ||| {
        let st = trim(low);
        st.len() > 0 && '0' <= st[0] && st[0] <= '9' && utf8_len(st) <= 5
    }
}

/// The lines among `keys` that are not citation lines, as text.
pub open spec fn kept_lines(spans: Seq<TextSpan>, keys: Seq<int>) -> Seq<Seq<char>> {
    keys.filter_map(
        |k: int|
            if is_citation_line(line_text(spans, k)) {
                None
            } else {
                Some(line_text(spans, k))
            },
    )
}

/// The text of a page line by line, top to bottom, without citation lines.
pub open spec fn page_text_no_citations_of(page: Page) -> Seq<char> {
    join(kept_lines(page.spans@, lines_above(page.spans@, None)), " "@)
}

fn min_line(spans: &Vec<TextSpan>, lb: Option<i64>) -> (r: Option<i64>)
    ensures
        match r {
            Some(k) => min_line_above(spans@, match lb {
                Some(b) => Some(b as int),
                None => None,
            }) == Some(k as int),
            None => min_line_above(spans@, match lb {
                Some(b) => Some(b as int),
                None => None,
            }) is None,
        },
{
    let ghost lbi: Option<int> = match lb {
        Some(b) => Some(b as int),
        None => None,
    };
    let mut best: Option<i64> = None;
    let mut i: usize = 0;
    while i < spans.len()
        invariant
            i <= spans@.len(),
            lbi == match lb {
                Some(b) => Some(b as int),
                None => None::<int>,
            },
            min_line_above(spans@.take(i as int), lbi) == match best {
                Some(b) => Some(b as int),
                None => None::<int>,
            },
        decreases spans@.len() - i,
    {
        let k = line_key_of(&spans[i]);
        proof {
            assert(spans@.take(i + 1).drop_last() =~= spans@.take(i as int));
            assert(spans@.take(i + 1).last() == spans@[i as int]);
        }
        let is_above = match lb {
            Some(b) => k > b,
            None => true,
        };
        if is_above {
            best = match best {
                Some(b) => Some(
                    if k < b {
                        k
                    } else {
                        b
                    },
                ),
                None => Some(k),
            };
        }
        i = i + 1;
    }
    assert(spans@.take(spans@.len() as int) =~= spans@);
    best
}

fn is_citation(low: &Vec<char>) -> (b: bool)
    ensures
        b == is_citation_line(low@),
{
    let doi = chars_of("doi:");
    let http = chars_of("http");
    let https = chars_of("https");
    if contains(low, &doi) || contains(low, &http) || contains(low, &https) {
        return true;
    }
    let st = trim_chars(low);
    st.len() > 0 && '0' <= st[0] && st[0] <= '9' && utf8_len_capped(&st, 6) <= 5
}

/// The words of line `k`, joined by spaces, in lowercase.
fn line_text_of(spans: &Vec<TextSpan>, k: i64) -> (r: Vec<char>)
    ensures
        r@ == line_text(spans@, k as int),
{
    let mut words: Vec<Vec<char>> = Vec::new();
    let mut i: usize = 0;
    while i < spans.len()
        invariant
            i <= spans@.len(),
            words@.map_values(|p: Vec<char>| p@) == line_words(spans@.take(i as int), k as int),
        decreases spans@.len() - i,
    {
        let ghost before = words@;
        proof {
            assert(spans@.take(i + 1).drop_last() =~= spans@.take(i as int));
            assert(spans@.take(i + 1).last() == spans@[i as int]);
        }
        if line_key_of(&spans[i]) == k {
            let w = chars_of(spans[i].text.as_str());
            words.push(w);
            proof {
                assert(words@.map_values(|p: Vec<char>| p@) =~= before.map_values(
                    |p: Vec<char>| p@,
                ) + seq![spans@[i as int].text@]);
            }
        }
        i = i + 1;
    }
    assert(spans@.take(spans@.len() as int) =~= spans@);
    let sp = chars_of(" ");
    let joined = join_parts(&words, &sp);
    lower_chars(&joined)
}

/// The text of a page line by line (spans grouped by their rounded top,
/// lines top to bottom), each line lowercased, leaving out lines that read
/// as citations.
pub fn page_text_no_citations(page: &Page) -> (r: Vec<char>)
    ensures
        r@ == page_text_no_citations_of(*page),
{
    let spans = &page.spans;
    let ghost all = lines_above(spans@, None);
    let ghost mut done: Seq<int> = Seq::empty();
    let mut kept: Vec<Vec<char>> = Vec::new();
    let mut lb: Option<i64> = None;
    loop
        invariant
            all == lines_above(spans@, None),
            all == done + lines_above(spans@, match lb {
                Some(b) => Some(b as int),
                None => None,
            }),
            kept@.map_values(|p: Vec<char>| p@) == kept_lines(spans@, done),
        ensures
            all == done,
            kept@.map_values(|p: Vec<char>| p@) == kept_lines(spans@, done),
        decreases count_above(spans@, match lb {
            Some(b) => Some(b as int),
            None => None,
        }),
    {
        let ghost lbi: Option<int> = match lb {
            Some(b) => Some(b as int),
            None => None,
        };
        match min_line(spans, lb) {
            None => {
                assert(lines_above(spans@, lbi) =~= Seq::<int>::empty());
                assert(done + Seq::<int>::empty() =~= done);
                break;
            },
            Some(k) => {
                proof {
                    lemma_min_line_above(spans@, lbi);
                    assert(lines_above(spans@, lbi) == seq![k as int] + lines_above(
                        spans@,
                        Some(k as int),
                    ));
                }
                let t = line_text_of(spans, k);
                let ghost before = kept@;
                let ghost d2 = done.push(k as int);
                proof {
                    assert(d2.drop_last() =~= done);
                    assert(d2.last() == k as int);
                }
                if !is_citation(&t) {
                    kept.push(t);
                    proof {
                        assert(kept@.map_values(|p: Vec<char>| p@) =~= before.map_values(
                            |p: Vec<char>| p@,
                        ) + seq![t@]);
                    }
                }
                proof {
                    assert(done + (seq![k as int] + lines_above(spans@, Some(k as int))) =~= d2
                        + lines_above(spans@, Some(k as int)));
                    done = d2;
                }
                lb = Some(k);
            },
        }
    }
    let sp = chars_of(" ");
    join_parts(&kept, &sp)
}

/// The phrases that mark a section, for the sections that have them.
pub open spec fn keyword_patterns(id: Seq<char>) -> Option<Seq<Seq<char>>> {
    if id == "title_page"@ {
        Some(seq!["title page"@, "title_page"@])
    } else if id == "acceptance_page"@ {
        Some(seq!["accepted by"@, "acceptance"@])
    } else if id == "abstract"@ {
        Some(seq!["abstract"@])
    } else if id == "toc"@ {
        Some(seq!["table of contents"@, "contents"@])
    } else if id == "chapters"@ {
        Some(seq!["chapter"@])
    } else if id == "references"@ {
        Some(seq!["references"@, "bibliography"@, "works cited"@])
    } else if id == "curriculum_vitae"@ {
        Some(seq!["curriculum vitae"@])
    } else {
        None
    }
}

/// `text` holds one of the phrases of section `id`, or, for a section
/// without phrases, the id itself.
pub open spec fn has_keyword(text: Seq<char>, id: Seq<char>) -> bool {
    match keyword_patterns(id) {
        Some(ps) => contains_one_of(text, ps),
        None => contains_seq(text, id),
    }
}

/// `text` holds one of the phrases `ps`.
pub open spec fn contains_one_of(text: Seq<char>, ps: Seq<Seq<char>>) -> bool {
    exists|k: int| 0 <= k < ps.len() && contains_seq(text, #[trigger] ps[k])
}

/// The phrases by which each section is recognised: a text holds the
/// title page when it holds "title page" or "title_page"; the acceptance
/// page, "accepted by" or "acceptance"; the abstract, "abstract"; the
/// table of contents, "table of contents" or "contents"; the chapters,
/// "chapter"; the references, "references", "bibliography" or "works
/// cited"; the curriculum vitae, "curriculum vitae"; and any other
/// section, its own id.
pub proof fn lemma_section_phrases(t: Seq<char>, id: Seq<char>)
    ensures
        has_keyword(t, "title_page"@) <==> contains_seq(t, "title page"@) || contains_seq(
            t,
            "title_page"@,
        ),
        has_keyword(t, "acceptance_page"@) <==> contains_seq(t, "accepted by"@) || contains_seq(
            t,
            "acceptance"@,
        ),
        has_keyword(t, "abstract"@) <==> contains_seq(t, "abstract"@),
        has_keyword(t, "toc"@) <==> contains_seq(t, "table of contents"@) || contains_seq(
            t,
            "contents"@,
        ),
        has_keyword(t, "chapters"@) <==> contains_seq(t, "chapter"@),
        has_keyword(t, "references"@) <==> contains_seq(t, "references"@) || contains_seq(
            t,
            "bibliography"@,
        ) || contains_seq(t, "works cited"@),
        has_keyword(t, "curriculum_vitae"@) <==> contains_seq(t, "curriculum vitae"@),
        id != "title_page"@ && id != "acceptance_page"@ && id != "abstract"@ && id != "toc"@ && id
            != "chapters"@ && id != "references"@ && id != "curriculum_vitae"@ ==> (has_keyword(
            t,
            id,
        ) <==> contains_seq(t, id)),
{
    reveal_strlit("title_page");
    reveal_strlit("acceptance_page");
    reveal_strlit("abstract");
    reveal_strlit("toc");
    reveal_strlit("chapters");
    reveal_strlit("references");
    reveal_strlit("curriculum_vitae");
    let ids = seq![
        "title_page"@,
        "acceptance_page"@,
        "abstract"@,
        "toc"@,
        "chapters"@,
        "references"@,
        "curriculum_vitae"@,
    ];
    assert forall|a: int, b: int| 0 <= a < b < 7 implies ids[a] != ids[b] by {
        assert(ids[a][0] != ids[b][0] || ids[a].len() != ids[b].len() || ids[a][1] != ids[b][1]);
    }
    assert(ids[0] != ids[2] && ids[2] != ids[4] && ids[4] != ids[5]);
    let p1 = seq!["title page"@, "title_page"@];
    assert(contains_one_of(t, p1) <==> contains_seq(t, p1[0]) || contains_seq(t, p1[1]));
    let p2 = seq!["accepted by"@, "acceptance"@];
    assert(contains_one_of(t, p2) <==> contains_seq(t, p2[0]) || contains_seq(t, p2[1]));
    let p3 = seq!["abstract"@];
    assert(contains_one_of(t, p3) <==> contains_seq(t, p3[0]));
    let p4 = seq!["table of contents"@, "contents"@];
    assert(contains_one_of(t, p4) <==> contains_seq(t, p4[0]) || contains_seq(t, p4[1]));
    let p5 = seq!["chapter"@];
    assert(contains_one_of(t, p5) <==> contains_seq(t, p5[0]));
    let p6 = seq!["references"@, "bibliography"@, "works cited"@];
    assert(contains_one_of(t, p6) <==> contains_seq(t, p6[0]) || contains_seq(t, p6[1])
        || contains_seq(t, p6[2]));
    let p7 = seq!["curriculum vitae"@];
    assert(contains_one_of(t, p7) <==> contains_seq(t, p7[0]));
}

fn chars_list2(a: &str, b: &str) -> (r: Vec<Vec<char>>)
    ensures
        r@.map_values(|p: Vec<char>| p@) == seq![a@, b@],
{
    let mut r: Vec<Vec<char>> = Vec::new();
    r.push(chars_of(a));
    r.push(chars_of(b));
    assert(r@.map_values(|p: Vec<char>| p@) =~= seq![a@, b@]);
    r
}

fn chars_list3(a: &str, b: &str, c: &str) -> (r: Vec<Vec<char>>)
    ensures
        r@.map_values(|p: Vec<char>| p@) == seq![a@, b@, c@],
{
    let mut r: Vec<Vec<char>> = Vec::new();
    r.push(chars_of(a));
    r.push(chars_of(b));
    r.push(chars_of(c));
    assert(r@.map_values(|p: Vec<char>| p@) =~= seq![a@, b@, c@]);
    r
}

fn chars_list4(a: &str, b: &str, c: &str, d: &str) -> (r: Vec<Vec<char>>)
    ensures
        r@.map_values(|p: Vec<char>| p@) == seq![a@, b@, c@, d@],
{
    let mut r: Vec<Vec<char>> = Vec::new();
    r.push(chars_of(a));
    r.push(chars_of(b));
    r.push(chars_of(c));
    r.push(chars_of(d));
    assert(r@.map_values(|p: Vec<char>| p@) =~= seq![a@, b@, c@, d@]);
    r
}

fn chars_list1(a: &str) -> (r: Vec<Vec<char>>)
    ensures
        r@.map_values(|p: Vec<char>| p@) == seq![a@],
{
    let mut r: Vec<Vec<char>> = Vec::new();
    r.push(chars_of(a));
    assert(r@.map_values(|p: Vec<char>| p@) =~= seq![a@]);
    r
}

fn keyword_list(id: &str) -> (r: Option<Vec<Vec<char>>>)
    ensures
        match r {
            Some(v) => keyword_patterns(id@) == Some(v@.map_values(|p: Vec<char>| p@)),
            None => keyword_patterns(id@) is None,
        },
{
    if same_text(id, "title_page") {
        Some(chars_list2("title page", "title_page"))
    } else if same_text(id, "acceptance_page") {
        Some(chars_list2("accepted by", "acceptance"))
    } else if same_text(id, "abstract") {
        Some(chars_list1("abstract"))
    } else if same_text(id, "toc") {
        Some(chars_list2("table of contents", "contents"))
    } else if same_text(id, "chapters") {
        Some(chars_list1("chapter"))
    } else if same_text(id, "references") {
        Some(chars_list3("references", "bibliography", "works cited"))
    } else if same_text(id, "curriculum_vitae") {
        Some(chars_list1("curriculum vitae"))
    } else {
        None
    }
}

/// Whether `text` holds a phrase that marks section `section_id`.
pub fn contains_keyword(text: &Vec<char>, section_id: &str) -> (b: bool)
    ensures
        b == has_keyword(text@, section_id@),
{
    match keyword_list(section_id) {
        Some(ps) => {
            let b = contains_any(text, &ps);
            proof {
                let pv = ps@.map_values(|p: Vec<char>| p@);
                assert(keyword_patterns(section_id@) == Some(pv));
                if b {
                    let k = choose|k: int| 0 <= k < ps@.len() && contains_seq(text@, #[trigger] ps@[k]@);
                    assert(pv[k] == ps@[k]@);
                    assert(contains_seq(text@, pv[k]));
                    assert(contains_one_of(text@, pv));
                } else {
                    assert forall|k: int| 0 <= k < pv.len() implies !contains_seq(text@, #[trigger] pv[k]) by {
                        assert(pv[k] == ps@[k]@);
                    }
                }
            }
            b
        },
        None => {
            let id = chars_of(section_id);
            contains(text, &id)
        },
    }
}

/// The first page found for each detected section.
#[derive(Debug, Clone, Copy)]
pub struct SectionPages {
    pub title_page: Option<usize>,
    pub acceptance_page: Option<usize>,
    pub abstract_page: Option<usize>,
    pub toc: Option<usize>,
    pub chapters: Option<usize>,
    pub references: Option<usize>,
    pub curriculum_vitae: Option<usize>,
}

/// The page recorded for section `id`.
pub open spec fn section_lookup(sp: SectionPages, id: Seq<char>) -> Option<usize> {
    if id == "title_page"@ {
        sp.title_page
    } else if id == "acceptance_page"@ {
        sp.acceptance_page
    } else if id == "abstract"@ {
        sp.abstract_page
    } else if id == "toc"@ {
        sp.toc
    } else if id == "chapters"@ {
        sp.chapters
    } else if id == "references"@ {
        sp.references
    } else if id == "curriculum_vitae"@ {
        sp.curriculum_vitae
    } else {
        None
    }
}

/// The page recorded for section `id`.
pub fn section_page(sp: &SectionPages, id: &str) -> (r: Option<usize>)
    ensures
        r == section_lookup(*sp, id@),
{
    if same_text(id, "title_page") {
        sp.title_page
    } else if same_text(id, "acceptance_page") {
        sp.acceptance_page
    } else if same_text(id, "abstract") {
        sp.abstract_page
    } else if same_text(id, "toc") {
        sp.toc
    } else if same_text(id, "chapters") {
        sp.chapters
    } else if same_text(id, "references") {
        sp.references
    } else if same_text(id, "curriculum_vitae") {
        sp.curriculum_vitae
    } else {
        None
    }
}

/// Number of spans with text once trimmed.
pub open spec fn count_text_spans(spans: Seq<TextSpan>) -> nat
    decreases spans.len(),
{
    if spans.len() == 0 {
        0
    } else {
        count_text_spans(spans.drop_last()) + if has_text(spans.last()) {
            1nat
        } else {
            0nat
        }
    }
}

/// Page 1 shows no page number (no text in the footer band) and carries
/// text: it is the title page.
pub open spec fn title_page_of(pages: Seq<Page>) -> Option<usize> {
    if pages.len() == 0 {
        None
    } else {
        let p = pages[0];
        let numbered = exists|i: int|
            0 <= i < p.spans@.len() && in_footer(#[trigger] p.spans@[i], p.height) && has_text(
                p.spans@[i],
            );
        if !numbered && trim(page_text_of(p)).len() > 0 {
            Some(1usize)
        } else {
            None
        }
    }
}

/// The number of the first page whose text, citations left out, holds a
/// phrase of section `id`.
pub open spec fn first_page_with(pages: Seq<Page>, id: Seq<char>) -> Option<usize>
    decreases pages.len(),
{
    if pages.len() == 0 {
        None
    } else {
        match first_page_with(pages.drop_last(), id) {
            Some(n) => Some(n),
            None => if has_keyword(page_text_no_citations_of(pages.last()), id) {
                Some(pages.last().page_number)
            } else {
                None
            },
        }
    }
}

/// The first `budget` bytes of `s`, as `&s[..budget]` gives them; the
/// whole of `s` where it is shorter; nothing where the cut falls inside a
/// character.
pub open spec fn byte_prefix(s: Seq<char>, budget: nat) -> Option<Seq<char>>
    decreases s.len(),
{
    if s.len() == 0 || budget == 0 {
        Some(Seq::empty())
    } else if char_width(s[0]) <= budget {
        match byte_prefix(s.drop_first(), (budget - char_width(s[0])) as nat) {
            Some(p) => Some(seq![s[0]] + p),
            None => None,
        }
    } else {
        None
    }
}

/// Headings of front-matter pages that are not the abstract.
pub open spec fn non_abstract_headings() -> Seq<Seq<char>> {
    seq!["dedication"@, "acknowledgement"@, "acknowledgments"@, "preface"@]
}

/// Whether the first 200 bytes of the page's text name another
/// front-matter page; nothing where the 200th byte falls inside a
/// character.
pub open spec fn names_other_page(p: Page) -> Option<bool> {
    match byte_prefix(page_text_of(p), 200) {
        Some(pre) => Some(
            exists|k: int|
                0 <= k < non_abstract_headings().len() && contains_seq(
                    pre,
                    #[trigger] non_abstract_headings()[k],
                ),
        ),
        None => None,
    }
}

/// How the search for an unheaded abstract ends.
#[derive(Debug, Clone, Copy)]
pub enum AbstractScan {
    Found(usize),
    NotFound,
    /// The 200-byte cut of a page's text fell inside a character.
    CutInsideChar,
}

/// Search, from the last page backwards, for a page numbered between the
/// acceptance page and the table of contents that holds more than 100
/// spans with text and does not name another front-matter page.
pub open spec fn abstract_scan(pages: Seq<Page>, acc: usize, toc: usize) -> AbstractScan
    decreases pages.len(),
{
    if pages.len() == 0 {
        AbstractScan::NotFound
    } else {
        let p = pages.last();
        if acc < p.page_number && p.page_number < toc {
            match names_other_page(p) {
                None => AbstractScan::CutInsideChar,
                Some(other) => if count_text_spans(p.spans@) > 100 && !other {
                    AbstractScan::Found(p.page_number)
                } else {
                    abstract_scan(pages.drop_last(), acc, toc)
                },
            }
        } else {
            abstract_scan(pages.drop_last(), acc, toc)
        }
    }
}

/// The sections detected in `doc`; nothing where the abstract search cuts
/// a page's text inside a character.
pub open spec fn sections_of(doc: Document) -> Option<SectionPages> {
    let pages = doc.pages@;
    let acc = first_page_with(pages, "acceptance_page"@);
    let toc = first_page_with(pages, "toc"@);
    let found = SectionPages {
        title_page: title_page_of(pages),
        acceptance_page: acc,
        abstract_page: None,
        toc: toc,
        chapters: first_page_with(pages, "chapters"@),
        references: first_page_with(pages, "references"@),
        curriculum_vitae: first_page_with(pages, "curriculum_vitae"@),
    };
    match (acc, toc) {
        (Some(a), Some(t)) => match abstract_scan(pages, a, t) {
            AbstractScan::Found(n) => Some(SectionPages { abstract_page: Some(n), ..found }),
            AbstractScan::NotFound => Some(found),
            AbstractScan::CutInsideChar => None,
        },
        _ => Some(found),
    }
}

fn count_spans_with_text(spans: &Vec<TextSpan>) -> (n: usize)
    ensures
        n == count_text_spans(spans@),
{
    let mut n: usize = 0;
    let mut i: usize = 0;
    while i < spans.len()
        invariant
            i <= spans@.len(),
            n == count_text_spans(spans@.take(i as int)),
            n <= i,
        decreases spans@.len() - i,
    {
        proof {
            assert(spans@.take(i + 1).drop_last() =~= spans@.take(i as int));
            assert(spans@.take(i + 1).last() == spans@[i as int]);
        }
        let t = trim_chars(&chars_of(spans[i].text.as_str()));
        if t.len() > 0 {
            n = n + 1;
        }
        i = i + 1;
    }
    assert(spans@.take(spans@.len() as int) =~= spans@);
    n
}

fn prefix_bytes(s: &Vec<char>, budget: usize) -> (r: Option<Vec<char>>)
    ensures
        match r {
            Some(p) => byte_prefix(s@, budget as nat) == Some(p@),
            None => byte_prefix(s@, budget as nat) is None,
        },
{
    let n = s.len();
    let mut used: usize = 0;
    let mut i: usize = 0;
    proof {
        assert(s@.skip(0) =~= s@);
        if let Some(p) = byte_prefix(s@, budget as nat) {
            assert(s@.take(0) + p =~= p);
        }
    }
    while i < n && used < budget
        invariant
            i <= n == s@.len(),
            used <= budget,
            byte_prefix(s@, budget as nat) == match byte_prefix(
                s@.skip(i as int),
                (budget - used) as nat,
            ) {
                Some(p) => Some(s@.take(i as int) + p),
                None => None,
            },
        decreases n - i,
    {
        let x = s[i] as u32;
        let w: usize = if x < 0x80 {
            1
        } else if x < 0x800 {
            2
        } else if x < 0x10000 {
            3
        } else {
            4
        };
        let ghost rest = s@.skip(i as int);
        proof {
            assert(rest[0] == s@[i as int]);
            assert(rest.drop_first() =~= s@.skip(i + 1));
        }
        if w > budget - used {
            return None;
        }
        proof {
            assert(s@.take(i + 1) =~= s@.take(i as int) + seq![s@[i as int]]);
            let q = byte_prefix(s@.skip(i + 1), (budget - used - w) as nat);
            if let Some(p) = q {
                assert(s@.take(i as int) + (seq![s@[i as int]] + p) =~= s@.take(i + 1) + p);
            }
        }
        used = used + w;
        i = i + 1;
    }
    let mut p: Vec<char> = Vec::new();
    let mut k: usize = 0;
    while k < i
        invariant
            k <= i <= n == s@.len(),
            p@ =~= s@.take(k as int),
        decreases i - k,
    {
        p.push(s[k]);
        k = k + 1;
    }
    proof {
        assert(byte_prefix(s@.skip(i as int), (budget - used) as nat) == Some(Seq::<char>::empty()));
        assert(s@.take(i as int) + Seq::<char>::empty() =~= s@.take(i as int));
    }
    Some(p)
}

fn title_page_exec(pages: &Vec<Page>) -> (r: Option<usize>)
    ensures
        r == title_page_of(pages@),
{
    if pages.len() == 0 {
        return None;
    }
    let p = &pages[0];
    let mut numbered = false;
    let mut i: usize = 0;
    while i < p.spans.len()
        invariant
            i <= p.spans@.len(),
            numbered == exists|k: int|
                0 <= k < i && in_footer(#[trigger] p.spans@[k], p.height) && has_text(p.spans@[k]),
        decreases p.spans@.len() - i,
    {
        let s = &p.spans[i];
        if s.bbox.1 as i64 >= p.height as i64 - 53000 {
            let t = trim_chars(&chars_of(s.text.as_str()));
            if t.len() > 0 {
                numbered = true;
            }
        }
        i = i + 1;
    }
    if numbered {
        return None;
    }
    let text = page_text(p);
    let t = trim_chars(&text);
    if t.len() > 0 {
        Some(1)
    } else {
        None
    }
}

/// The first pages that carry the phrases of the table of contents, the
/// acceptance page, the CV, the references and the chapters.
fn heading_pages(pages: &Vec<Page>) -> (r: (
    Option<usize>,
    Option<usize>,
    Option<usize>,
    Option<usize>,
    Option<usize>,
))
    ensures
        r.0 == first_page_with(pages@, "toc"@),
        r.1 == first_page_with(pages@, "acceptance_page"@),
        r.2 == first_page_with(pages@, "curriculum_vitae"@),
        r.3 == first_page_with(pages@, "references"@),
        r.4 == first_page_with(pages@, "chapters"@),
{
    let mut toc: Option<usize> = None;
    let mut acc: Option<usize> = None;
    let mut cv: Option<usize> = None;
    let mut refs: Option<usize> = None;
    let mut chap: Option<usize> = None;
    let mut i: usize = 0;
    while i < pages.len()
        invariant
            i <= pages@.len(),
            toc == first_page_with(pages@.take(i as int), "toc"@),
            acc == first_page_with(pages@.take(i as int), "acceptance_page"@),
            cv == first_page_with(pages@.take(i as int), "curriculum_vitae"@),
            refs == first_page_with(pages@.take(i as int), "references"@),
            chap == first_page_with(pages@.take(i as int), "chapters"@),
        decreases pages@.len() - i,
    {
        proof {
            assert(pages@.take(i + 1).drop_last() =~= pages@.take(i as int));
            assert(pages@.take(i + 1).last() == pages@[i as int]);
        }
        let page = &pages[i];
        let text = page_text_no_citations(page);
        if toc.is_none() && contains_keyword(&text, "toc") {
            toc = Some(page.page_number);
        }
        if acc.is_none() && contains_keyword(&text, "acceptance_page") {
            acc = Some(page.page_number);
        }
        if cv.is_none() && contains_keyword(&text, "curriculum_vitae") {
            cv = Some(page.page_number);
        }
        if refs.is_none() && contains_keyword(&text, "references") {
            refs = Some(page.page_number);
        }
        if chap.is_none() && contains_keyword(&text, "chapters") {
            chap = Some(page.page_number);
        }
        i = i + 1;
    }
    assert(pages@.take(pages@.len() as int) =~= pages@);
    (toc, acc, cv, refs, chap)
}

fn abstract_search(pages: &Vec<Page>, acc: usize, toc: usize) -> (r: AbstractScan)
    ensures
        r == abstract_scan(pages@, acc, toc),
{
    let headings = chars_list4("dedication", "acknowledgement", "acknowledgments", "preface");
    let mut i: usize = pages.len();
    assert(pages@.take(i as int) =~= pages@);
    while i > 0
        invariant
            i <= pages@.len(),
            abstract_scan(pages@, acc, toc) == abstract_scan(pages@.take(i as int), acc, toc),
            headings@.map_values(|p: Vec<char>| p@) == non_abstract_headings(),
        decreases i,
    {
        proof {
            assert(pages@.take(i as int).drop_last() =~= pages@.take(i - 1));
            assert(pages@.take(i as int).last() == pages@[i - 1]);
        }
        let p = &pages[i - 1];
        if acc < p.page_number && p.page_number < toc {
            let text = page_text(p);
            match prefix_bytes(&text, 200) {
                None => {
                    return AbstractScan::CutInsideChar;
                },
                Some(pre) => {
                    let other = contains_any(&pre, &headings);
                    proof {
                        let hv2 = headings@.map_values(|p: Vec<char>| p@);
                        if other {
                            let k = choose|k: int|
                                0 <= k < headings@.len() && contains_seq(pre@, #[trigger] headings@[k]@);
                            assert(hv2[k] == headings@[k]@);
                            assert(contains_seq(pre@, non_abstract_headings()[k]));
                        } else {
                            assert forall|k: int| 0 <= k < non_abstract_headings().len() implies !contains_seq(
                                pre@,
                                #[trigger] non_abstract_headings()[k],
                            ) by {
                                assert(hv2[k] == headings@[k]@);
                            }
                        }
                    }
                    let n = count_spans_with_text(&p.spans);
                    if n > 100 && !other {
                        return AbstractScan::Found(p.page_number);
                    }
                },
            }
        }
        i = i - 1;
    }
    AbstractScan::NotFound
}

/// The sections detected in `doc` (see `sections_of`): the title page,
/// the first page holding the phrases of each heading section, and an
/// unheaded abstract between the acceptance page and the table of
/// contents. `None` where the 200-byte cut of a page's text falls
/// inside a character.
pub fn find_all_sections(doc: &Document) -> (r: Option<SectionPages>)
    ensures
        r == sections_of(*doc),
{
    let title = title_page_exec(&doc.pages);
    let (toc, acc, cv, refs, chap) = heading_pages(&doc.pages);
    let found = SectionPages {
        title_page: title,
        acceptance_page: acc,
        abstract_page: None,
        toc: toc,
        chapters: chap,
        references: refs,
        curriculum_vitae: cv,
    };
    match (acc, toc) {
        (Some(a), Some(t)) => match abstract_search(&doc.pages, a, t) {
            AbstractScan::Found(n) => Some(SectionPages { abstract_page: Some(n), ..found }),
            AbstractScan::NotFound => Some(found),
            AbstractScan::CutInsideChar => None,
        },
        _ => Some(found),
    }
}

/// The `id` strings of the entries listed under `key`.
pub open spec fn section_ids(params: ParamValue, key: Seq<char>) -> Seq<Seq<char>> {
    list_at(params, key).filter_map(|item: ParamValue| str_at(item, "id"@))
}

/// The `id` strings of the entries listed under `key`.
fn collect_section_ids(params: &ParamValue, key: &str) -> (r: Vec<String>)
    ensures
        strings_view(r@) == section_ids(*params, key@),
{
    let mut r: Vec<String> = Vec::new();
    let items: &Vec<ParamValue> = match params.get(key) {
        Some(v) => match v.as_sequence() {
            Some(items) => items,
            None => {
                assert(strings_view(r@) =~= section_ids(*params, key@));
                return r;
            },
        },
        None => {
            assert(strings_view(r@) =~= section_ids(*params, key@));
            return r;
        },
    };
    let mut i: usize = 0;
    while i < items.len()
        invariant
            i <= items@.len(),
            list_at(*params, key@) == items@,
            strings_view(r@) == items@.take(i as int).filter_map(
                |item: ParamValue| str_at(item, "id"@),
            ),
        decreases items@.len() - i,
    {
        let ghost before = r@;
        proof {
            assert(items@.take(i + 1).drop_last() =~= items@.take(i as int));
            assert(items@.take(i + 1).last() == items@[i as int]);
        }
        match get_str(&items[i], "id") {
            Some(s) => {
                r.push(s.to_owned());
                proof {
                    assert(strings_view(r@) =~= strings_view(before) + seq![s@]);
                }
            },
            None => {},
        }
        i = i + 1;
    }
    assert(items@.take(items@.len() as int) =~= items@);
    r
}

/// Sorts texts in lexicographic order.
fn sort_texts(v: &Vec<Vec<char>>) -> (r: Vec<Vec<char>>)
    ensures
        r@.map_values(|p: Vec<char>| p@) == v@.map_values(|p: Vec<char>| p@).sort_by(text_order()),
{
    broadcast use vstd::seq_lib::group_to_multiset_ensures;

    let ghost vv = v@.map_values(|p: Vec<char>| p@);
    let n = v.len();
    let mut r: Vec<Vec<char>> = Vec::new();
    let mut i: usize = 0;
    while i < n
        invariant
            n == v@.len(),
            vv == v@.map_values(|p: Vec<char>| p@),
            i <= n,
            sorted_by(r@.map_values(|p: Vec<char>| p@), text_order()),
            r@.map_values(|p: Vec<char>| p@).to_multiset() == vv.take(i as int).to_multiset(),
        decreases n - i,
    {
        let ghost rv = r@.map_values(|p: Vec<char>| p@);
        let x = v[i].clone();
        let mut p: usize = 0;
        while p < r.len() && text_le_exec(&r[p], &x)
            invariant
                p <= r@.len(),
                rv == r@.map_values(|p: Vec<char>| p@),
                forall|k: int| 0 <= k < p ==> text_le(#[trigger] rv[k], x@),
            decreases r@.len() - p,
        {
            p = p + 1;
        }
        r.insert(p, x);
        let ghost nv = r@.map_values(|p: Vec<char>| p@);
        proof {
            lemma_text_order_total();
            assert(nv =~= rv.insert(p as int, x@));
            assert(x@ == vv[i as int]);
            assert forall|a: int, b: int| 0 <= a < b < nv.len() implies #[trigger] text_order()(
                nv[a],
                nv[b],
            ) by {
                if b < p {
                    assert(text_order()(rv[a], rv[b]));
                } else if b == p {
                    assert(nv[a] == rv[a]);
                } else if a < p {
                    assert(nv[a] == rv[a]);
                    assert(nv[b] == rv[b - 1]);
                    if p < rv.len() {
                        assert(text_order()(rv[p as int], rv[b - 1]));
                        assert(text_order()(rv[a], rv[p as int]) || a == p);
                    }
                } else if a == p {
                    assert(nv[b] == rv[b - 1]);
                    assert(!text_le(rv[p as int], x@));
                    lemma_text_le_total(rv[p as int], x@);
                    assert(text_order()(x@, rv[p as int]));
                    if p < b - 1 {
                        assert(text_order()(rv[p as int], rv[b - 1]));
                    }
                } else {
                    assert(text_order()(rv[a - 1], rv[b - 1]));
                }
            }
            assert(vv.take(i + 1) =~= vv.take(i as int).push(x@));
            vstd::seq_lib::to_multiset_insert(rv, p as int, x@);
            vstd::seq_lib::to_multiset_build(vv.take(i as int), x@);
        }
        i = i + 1;
    }
    proof {
        assert(vv.take(n as int) =~= vv);
        lemma_text_order_total();
        vv.lemma_sort_by_ensures(text_order());
        vstd::seq_lib::lemma_sorted_unique(
            r@.map_values(|p: Vec<char>| p@),
            vv.sort_by(text_order()),
            text_order(),
        );
    }
    r
}

/// Evidence for a required section that was not found.
pub open spec fn missing_evidence(m: Seq<char>) -> EvidenceView {
    EvidenceView { page: 0, bbox: None, excerpt: ExcerptView::SectionMissing(m) }
}

/// What the section presence check reports: failure with the required
/// sections that were not found, in the listed order; else success with
/// all required sections, sorted.
pub open spec fn presence_outcome(sp: SectionPages, params: ParamValue) -> CheckResultView {
    let required = section_ids(params, "required_sections"@);
    let missing = required.filter(|id: Seq<char>| section_lookup(sp, id) is None);
    let found = required.filter(|id: Seq<char>| section_lookup(sp, id) is Some);
    if missing.len() > 0 {
        CheckResultView {
            check_id: Seq::empty(),
            status: Status::Fail,
            evidence: missing.map_values(|m: Seq<char>| missing_evidence(m)),
            detail: DetailView::SectionsMissing(missing),
        }
    } else {
        CheckResultView {
            check_id: Seq::empty(),
            status: Status::Pass,
            evidence: Seq::empty(),
            detail: DetailView::SectionsDetected(found.sort_by(text_order())),
        }
    }
}

fn the_sections(doc: &Document) -> (sp: SectionPages)
    requires
        sections_of(*doc) is Some,
    ensures
        sections_of(*doc) == Some(sp),
{
    match find_all_sections(doc) {
        Some(sp) => sp,
        None => {
            proof {
                assert(false);
            }
            SectionPages {
                title_page: None,
                acceptance_page: None,
                abstract_page: None,
                toc: None,
                chapters: None,
                references: None,
                curriculum_vitae: None,
            }
        },
    }
}

/// Checks that every section listed under `required_sections` is found.
pub struct SectionPresenceChecker;

impl Checker for SectionPresenceChecker {
    open spec fn runs_on(&self, doc: Document) -> bool {
        sections_of(doc) is Some
    }

    open spec fn outcome(&self, doc: Document, params: ParamValue) -> CheckResultView {
        match sections_of(doc) {
            Some(sp) => presence_outcome(sp, params),
            None => presence_outcome(
                SectionPages {
                    title_page: None,
                    acceptance_page: None,
                    abstract_page: None,
                    toc: None,
                    chapters: None,
                    references: None,
                    curriculum_vitae: None,
                },
                params,
            ),
        }
    }

    fn category(&self) -> (r: &'static str)
        ensures
            r@ == "structure"@,
    {
        "structure"
    }

    fn name(&self) -> (r: &'static str)
        ensures
            r@ == "section_presence"@,
    {
        "section_presence"
    }

    #[verifier::rlimit(30)]
    fn check(&self, doc: &Document, params: &ParamValue) -> (r: CheckResult) {
        let required = collect_section_ids(params, "required_sections");
        let sp = the_sections(doc);
        let ghost req = strings_view(required@);
        let mut found: Vec<Vec<char>> = Vec::new();
        let mut missing: Vec<String> = Vec::new();
        let mut i: usize = 0;
        while i < required.len()
            invariant
                i <= required@.len(),
                req == strings_view(required@),
                strings_view(missing@) == req.take(i as int).filter(
                    |id: Seq<char>| section_lookup(sp, id) is None,
                ),
                found@.map_values(|p: Vec<char>| p@) == req.take(i as int).filter(
                    |id: Seq<char>| section_lookup(sp, id) is Some,
                ),
            decreases required@.len() - i,
        {
            let ghost m0 = missing@;
            let ghost f0 = found@;
            proof {
                reveal_with_fuel(Seq::filter, 1);
                assert(req.take(i + 1).drop_last() =~= req.take(i as int));
                assert(req.take(i + 1).last() == required@[i as int]@);
            }
            let id = &required[i];
            match section_page(&sp, id.as_str()) {
                Some(_) => {
                    found.push(chars_of(id.as_str()));
                    proof {
                        assert(found@.map_values(|p: Vec<char>| p@) =~= f0.map_values(
                            |p: Vec<char>| p@,
                        ).push(id@));
                    }
                },
                None => {
                    missing.push(id.clone());
                    proof {
                        assert(strings_view(missing@) =~= strings_view(m0).push(id@));
                    }
                },
            }
            i = i + 1;
        }
        proof {
            assert(req.take(required@.len() as int) =~= req);
        }
        if missing.len() > 0 {
            let mut evidence: Vec<EvidenceItem> = Vec::new();
            let mut k: usize = 0;
            while k < missing.len()
                invariant
                    k <= missing@.len(),
                    evidence_view(evidence@) == strings_view(missing@).take(k as int).map_values(
                        |m: Seq<char>| missing_evidence(m),
                    ),
                decreases missing@.len() - k,
            {
                let ghost e0 = evidence@;
                evidence.push(
                    EvidenceItem {
                        page: 0,
                        bbox: None,
                        excerpt: Excerpt::SectionMissing(missing[k].clone()),
                    },
                );
                proof {
                    assert(evidence_view(evidence@) =~= evidence_view(e0).push(
                        missing_evidence(missing@[k as int]@),
                    ));
                    assert(strings_view(missing@).take(k + 1) =~= strings_view(missing@).take(
                        k as int,
                    ).push(missing@[k as int]@));
                }
                k = k + 1;
            }
            proof {
                assert(strings_view(missing@).take(missing@.len() as int) =~= strings_view(
                    missing@,
                ));
            }
            CheckResult {
                check_id: String::new(),
                status: Status::Fail,
                evidence,
                detail: Detail::SectionsMissing(missing),
            }
        } else {
            let sorted = sort_texts(&found);
            let mut names: Vec<String> = Vec::new();
            let mut k: usize = 0;
            while k < sorted.len()
                invariant
                    k <= sorted@.len(),
                    strings_view(names@) == sorted@.map_values(|p: Vec<char>| p@).take(k as int),
                decreases sorted@.len() - k,
            {
                let ghost n0 = names@;
                names.push(string_of(&sorted[k]));
                proof {
                    assert(strings_view(names@) =~= strings_view(n0).push(sorted@[k as int]@));
                    assert(sorted@.map_values(|p: Vec<char>| p@).take(k + 1) =~= sorted@.map_values(
                        |p: Vec<char>| p@,
                    ).take(k as int).push(sorted@[k as int]@));
                }
                k = k + 1;
            }
            proof {
                assert(sorted@.map_values(|p: Vec<char>| p@).take(sorted@.len() as int)
                    =~= sorted@.map_values(|p: Vec<char>| p@));
            }
            let r = CheckResult {
                check_id: String::new(),
                status: Status::Pass,
                evidence: Vec::new(),
                detail: Detail::SectionsDetected(names),
            };
            proof {
                assert(evidence_view(r.evidence@) =~= Seq::<EvidenceView>::empty());
            }
            r
        }
    }
}

/// The listed sections that were found, in the listed order, with their
/// pages.
pub open spec fn found_in_order(sp: SectionPages, ids: Seq<Seq<char>>) -> Seq<(Seq<char>, usize)> {
    ids.filter_map(
        |id: Seq<char>|
            match section_lookup(sp, id) {
                Some(pg) => Some((id, pg)),
                None => None,
            },
    )
}

/// The evidence, if any, against `curr` following `prev`: it lies on an
/// earlier page, or it is a different section on the same page.
pub open spec fn order_violation(prev: (Seq<char>, usize), curr: (Seq<char>, usize)) -> Option<
    EvidenceView,
> {
    if curr.1 < prev.1 {
        Some(
            EvidenceView {
                page: curr.1,
                bbox: None,
                excerpt: ExcerptView::SectionBefore {
                    section: curr.0,
                    page: curr.1,
                    previous: prev.0,
                    previous_page: prev.1,
                },
            },
        )
    } else if curr.1 == prev.1 && prev.0 != curr.0 {
        Some(
            EvidenceView {
                page: curr.1,
                bbox: None,
                excerpt: ExcerptView::SectionsSharePage {
                    section: curr.0,
                    previous: prev.0,
                    page: curr.1,
                },
            },
        )
    } else {
        None
    }
}

pub open spec fn option_seq<T>(o: Option<T>) -> Seq<T> {
    match o {
        Some(x) => seq![x],
        None => Seq::empty(),
    }
}

/// The violations between neighbouring entries, in order.
pub open spec fn order_violations(pairs: Seq<(Seq<char>, usize)>) -> Seq<EvidenceView>
    decreases pairs.len(),
{
    if pairs.len() < 2 {
        Seq::empty()
    } else {
        order_violations(pairs.drop_last()) + option_seq(
            order_violation(pairs[pairs.len() - 2], pairs.last()),
        )
    }
}

/// What the section order check reports: failure with each pair of
/// neighbouring found sections out of order; else success with the found
/// sections and their pages.
pub open spec fn order_outcome(sp: SectionPages, params: ParamValue) -> CheckResultView {
    let pairs = found_in_order(sp, section_ids(params, "expected_order"@));
    let violations = order_violations(pairs);
    if violations.len() > 0 {
        CheckResultView {
            check_id: Seq::empty(),
            status: Status::Fail,
            evidence: violations,
            detail: DetailView::OrderViolations(violations.len() as usize),
        }
    } else {
        CheckResultView {
            check_id: Seq::empty(),
            status: Status::Pass,
            evidence: Seq::empty(),
            detail: DetailView::SectionsInOrder(pairs),
        }
    }
}

/// The section presence check passes exactly when every required section
/// was found.
pub proof fn lemma_presence_pass_iff_all_found(sp: SectionPages, params: ParamValue)
    ensures
        presence_outcome(sp, params).status == Status::Pass <==> forall|i: int|
            0 <= i < section_ids(params, "required_sections"@).len() ==> section_lookup(
                sp,
                #[trigger] section_ids(params, "required_sections"@)[i],
            ) is Some,
{
    broadcast use vstd::seq_lib::group_filter_ensures;

    let required = section_ids(params, "required_sections"@);
    let pred = |id: Seq<char>| section_lookup(sp, id) is None;
    let missing = required.filter(pred);
    if missing.len() > 0 {
        assert(pred(missing[0]));
        assert(missing.contains(missing[0]));
        required.lemma_filter_contains_rev(pred, missing[0]);
        let i = choose|i: int| 0 <= i < required.len() && required[i] == missing[0];
        assert(section_lookup(sp, required[i]) is None);
    } else {
        assert forall|i: int| 0 <= i < required.len() implies section_lookup(
            sp,
            #[trigger] required[i],
        ) is Some by {
            if section_lookup(sp, required[i]) is None {
                assert(missing.contains(required[i]));
            }
        }
    }
}

/// Neighbouring found sections `prev` and `curr` are in order: `curr` lies
/// on a later page, or they are the same section on the same page.
pub open spec fn in_order(prev: (Seq<char>, usize), curr: (Seq<char>, usize)) -> bool {
    prev.1 < curr.1 || (prev.1 == curr.1 && prev.0 == curr.0)
}

proof fn lemma_order_violations_empty(pairs: Seq<(Seq<char>, usize)>)
    ensures
        order_violations(pairs).len() == 0 <==> forall|k: int|
            1 <= k < pairs.len() ==> in_order(pairs[k - 1], #[trigger] pairs[k]),
    decreases pairs.len(),
{
    if pairs.len() >= 2 {
        let rest = pairs.drop_last();
        lemma_order_violations_empty(rest);
        if forall|k: int| 1 <= k < rest.len() ==> in_order(rest[k - 1], #[trigger] rest[k]) {
            assert forall|k: int| 1 <= k < pairs.len() - 1 implies in_order(
                pairs[k - 1],
                #[trigger] pairs[k],
            ) by {
                assert(pairs[k] == rest[k]);
                assert(pairs[k - 1] == rest[k - 1]);
            }
        } else {
            let k = choose|k: int| 1 <= k < rest.len() && !in_order(rest[k - 1], #[trigger] rest[k]);
            assert(pairs[k] == rest[k]);
            assert(pairs[k - 1] == rest[k - 1]);
        }
        let n = pairs.len() - 1;
        assert(pairs[n] == pairs.last());
    }
}

/// The section order check passes exactly when, through the found
/// sections in the expected order, each lies on a later page than the one
/// before it (or is the same section on the same page).
pub proof fn lemma_order_pass_iff_ascending(sp: SectionPages, params: ParamValue)
    ensures
        ({
            let pairs = found_in_order(sp, section_ids(params, "expected_order"@));
            order_outcome(sp, params).status == Status::Pass <==> forall|k: int|
                1 <= k < pairs.len() ==> in_order(pairs[k - 1], #[trigger] pairs[k])
        }),
{
    lemma_order_violations_empty(found_in_order(sp, section_ids(params, "expected_order"@)));
}

fn order_violation_exec(prev: &(String, usize), curr: &(String, usize)) -> (r: Option<
    EvidenceItem,
>)
    ensures
        match r {
            Some(e) => order_violation((prev.0@, prev.1), (curr.0@, curr.1)) == Some(e@),
            None => order_violation((prev.0@, prev.1), (curr.0@, curr.1)) is None,
        },
{
    if curr.1 < prev.1 {
        Some(
            EvidenceItem {
                page: curr.1,
                bbox: None,
                excerpt: Excerpt::SectionBefore {
                    section: curr.0.clone(),
                    page: curr.1,
                    previous: prev.0.clone(),
                    previous_page: prev.1,
                },
            },
        )
    } else if curr.1 == prev.1 && !(prev.0 == curr.0) {
        Some(
            EvidenceItem {
                page: curr.1,
                bbox: None,
                excerpt: Excerpt::SectionsSharePage {
                    section: curr.0.clone(),
                    previous: prev.0.clone(),
                    page: curr.1,
                },
            },
        )
    } else {
        None
    }
}

/// Checks that the sections listed under `expected_order` are found in
/// that order, each on a later page than the one before.
pub struct SectionOrderChecker;

impl Checker for SectionOrderChecker {
    open spec fn runs_on(&self, doc: Document) -> bool {
        sections_of(doc) is Some
    }

    open spec fn outcome(&self, doc: Document, params: ParamValue) -> CheckResultView {
        match sections_of(doc) {
            Some(sp) => order_outcome(sp, params),
            None => order_outcome(
                SectionPages {
                    title_page: None,
                    acceptance_page: None,
                    abstract_page: None,
                    toc: None,
                    chapters: None,
                    references: None,
                    curriculum_vitae: None,
                },
                params,
            ),
        }
    }

    fn category(&self) -> (r: &'static str)
        ensures
            r@ == "structure"@,
    {
        "structure"
    }

    fn name(&self) -> (r: &'static str)
        ensures
            r@ == "section_order"@,
    {
        "section_order"
    }

    #[verifier::rlimit(30)]
    fn check(&self, doc: &Document, params: &ParamValue) -> (r: CheckResult) {
        let expected = collect_section_ids(params, "expected_order");
        let sp = the_sections(doc);
        let ghost ids = strings_view(expected@);
        let mut pairs: Vec<(String, usize)> = Vec::new();
        let mut i: usize = 0;
        while i < expected.len()
            invariant
                i <= expected@.len(),
                ids == strings_view(expected@),
                pairs_view(pairs@) == found_in_order(sp, ids.take(i as int)),
            decreases expected@.len() - i,
        {
            let ghost p0 = pairs@;
            proof {
                assert(ids.take(i + 1).drop_last() =~= ids.take(i as int));
                assert(ids.take(i + 1).last() == expected@[i as int]@);
            }
            match section_page(&sp, expected[i].as_str()) {
                Some(pg) => {
                    pairs.push((expected[i].clone(), pg));
                    proof {
                        assert(pairs_view(pairs@) =~= pairs_view(p0) + seq![
                            (expected@[i as int]@, pg),
                        ]);
                    }
                },
                None => {},
            }
            i = i + 1;
        }
        proof {
            assert(ids.take(expected@.len() as int) =~= ids);
        }
        let ghost pv = pairs_view(pairs@);
        let mut evidence: Vec<EvidenceItem> = Vec::new();
        let mut k: usize = 1;
        proof {
            if pv.len() >= 1 {
                assert(order_violations(pv.take(1)) =~= Seq::<EvidenceView>::empty());
            } else {
                assert(order_violations(pv.take(0)) =~= Seq::<EvidenceView>::empty());
            }
        }
        while k < pairs.len()
            invariant
                1 <= k,
                k <= pairs@.len() || pairs@.len() == 0,
                pv == pairs_view(pairs@),
                evidence_view(evidence@) == order_violations(
                    pv.take(if pairs@.len() == 0 {
                        0
                    } else {
                        k as int
                    }),
                ),
            decreases pairs@.len() - k,
        {
            let ghost e0 = evidence@;
            proof {
                let t = pv.take(k + 1);
                assert(t.drop_last() =~= pv.take(k as int));
                assert(t[t.len() - 2] == pv[k - 1]);
                assert(t.last() == pv[k as int]);
                assert(pv[k - 1] == (pairs@[k - 1].0@, pairs@[k - 1].1));
                assert(pv[k as int] == (pairs@[k as int].0@, pairs@[k as int].1));
            }
            match order_violation_exec(&pairs[k - 1], &pairs[k]) {
                Some(e) => {
                    evidence.push(e);
                    proof {
                        assert(evidence_view(evidence@) =~= evidence_view(e0) + seq![e@]);
                    }
                },
                None => {
                    proof {
                        assert(evidence_view(e0) + Seq::<EvidenceView>::empty() =~= evidence_view(
                            e0,
                        ));
                    }
                },
            }
            k = k + 1;
        }
        proof {
            assert(pv.take(pv.len() as int) =~= pv);
        }
        if evidence.len() > 0 {
            let n = evidence.len();
            CheckResult {
                check_id: String::new(),
                status: Status::Fail,
                evidence,
                detail: Detail::OrderViolations(n),
            }
        } else {
            let r = CheckResult {
                check_id: String::new(),
                status: Status::Pass,
                evidence: Vec::new(),
                detail: Detail::SectionsInOrder(pairs),
            };
            proof {
                assert(evidence_view(r.evidence@) =~= Seq::<EvidenceView>::empty());
            }
            r
        }
    }
}

} // verus!
