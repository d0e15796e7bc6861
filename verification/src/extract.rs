//! Building the page model from what a PDF reader reports: runs of text
//! placed by their lower-left corner, which are cut into one span per
//! word and placed from the top of the page.
use vstd::prelude::*;
use crate::document::{Page, SpanView, TextSpan};
use crate::text::{chars_of, is_whitespace, is_ws, string_of};
use crate::checkers::measure::clamp_i32;
use crate::checkers::layout::floor_div;

verus! {

/// A run of text as a PDF reader reports it: its box given by the lower
/// left corner (`x`, `y`, measured from the bottom of the page), width and
/// height, all in thousandths of a point.
pub struct RawSpan {
    pub text: String,
    pub font_name: String,
    pub font_size: i32,
    pub x: i32,
    pub y: i32,
    pub width: i32,
    pub height: i32,
    pub is_bold: bool,
    pub is_italic: bool,
}

/// The words of `s`, maximal runs of characters other than whitespace, as
/// (index of the first character, number of characters).
pub open spec fn word_runs(s: Seq<char>) -> Seq<(int, int)>
    decreases s.len(),
{
    if s.len() == 0 {
        Seq::empty()
    } else {
        let rest = word_runs(s.drop_last());
        let n = s.len() - 1;
        if is_ws(s[n]) {
            rest
        } else if n > 0 && !is_ws(s[n - 1]) {
            rest.update(rest.len() - 1, (rest.last().0, rest.last().1 + 1))
        } else {
            rest.push((n, 1))
        }
    }
}

/// The top of a run on a page `page_height` high.
pub open spec fn run_top(r: RawSpan, page_height: int) -> int {
    clamp_i32(page_height - (r.y + r.height))
}

/// The bottom of a run on a page `page_height` high.
pub open spec fn run_bottom(r: RawSpan, page_height: int) -> int {
    clamp_i32(page_height - r.y)
}

/// The position `offset` characters into a run of `total` characters,
/// the run's width shared evenly among its characters, rounded down.
pub open spec fn position_in(r: RawSpan, offset: int, total: int) -> int {
    clamp_i32(r.x + (r.width * offset) / total)
}

pub open spec fn min_int(a: int, b: int) -> int {
    if a <= b {
        a
    } else {
        b
    }
}

pub open spec fn max_int(a: int, b: int) -> int {
    if a >= b {
        a
    } else {
        b
    }
}

/// The span of one word of a run.
pub open spec fn word_piece(r: RawSpan, page_height: int, w: (int, int)) -> SpanView {
    let total = r.text@.len() as int;
    SpanView {
        text: r.text@.subrange(w.0, w.0 + w.1),
        font_name: r.font_name@,
        font_size: r.font_size,
        bbox: (
            run_top(r, page_height) as i32,
            run_bottom(r, page_height) as i32,
            position_in(r, w.0, total) as i32,
            position_in(r, w.0 + w.1, total) as i32,
        ),
        is_bold: r.is_bold,
        is_italic: r.is_italic,
    }
}

/// The spans a run becomes: one per word; a run without words stays whole,
/// its top and bottom put in order and its top kept off the page's edge.
pub open spec fn run_pieces(r: RawSpan, page_height: int) -> Seq<SpanView> {
    let words = word_runs(r.text@);
    let top = run_top(r, page_height);
    let bottom = run_bottom(r, page_height);
    if words.len() == 0 {
        seq![
            SpanView {
                text: r.text@,
                font_name: r.font_name@,
                font_size: r.font_size,
                bbox: (
                    max_int(min_int(top, bottom), 0) as i32,
                    max_int(top, bottom) as i32,
                    r.x,
                    clamp_i32(r.x + r.width) as i32,
                ),
                is_bold: r.is_bold,
                is_italic: r.is_italic,
            },
        ]
    } else {
        words.map_values(|w: (int, int)| word_piece(r, page_height, w))
    }
}

pub open spec fn span_views(spans: Seq<TextSpan>) -> Seq<SpanView> {
    spans.map_values(|s: TextSpan| s@)
}

proof fn lemma_word_runs_shape(s: Seq<char>)
    ensures
        forall|k: int|
            0 <= k < word_runs(s).len() ==> 0 <= (#[trigger] word_runs(s)[k]).0 && 1
                <= word_runs(s)[k].1 && word_runs(s)[k].0 + word_runs(s)[k].1 <= s.len(),
        s.len() > 0 && !is_ws(s.last()) ==> word_runs(s).len() > 0 && word_runs(s).last().0
            + word_runs(s).last().1 == s.len(),
    decreases s.len(),
{
    if s.len() > 0 {
        let t = s.drop_last();
        lemma_word_runs_shape(t);
        let rest = word_runs(t);
        let n = s.len() - 1;
        if !is_ws(s[n]) && n > 0 && !is_ws(s[n - 1]) {
            assert(t.last() == s[n - 1]);
            assert forall|k: int| 0 <= k < word_runs(s).len() implies 0 <= (#[trigger] word_runs(
                s,
            )[k]).0 && 1 <= word_runs(s)[k].1 && word_runs(s)[k].0 + word_runs(s)[k].1 <= s.len() by {
                if k < rest.len() - 1 {
                    assert(word_runs(s)[k] == rest[k]);
                }
            }
        }
    }
}

proof fn lemma_product_bounds(w: int, a: int)
    requires
        0 <= a <= 0xffff_ffff_ffff_ffff,
        -0x8000_0000 <= w <= 0x7fff_ffff,
    ensures
        -0x8000_0000 * 0x1_0000_0000_0000_0000 <= w * a <= 0x8000_0000 * 0x1_0000_0000_0000_0000,
{
    assert(-0x8000_0000 * a <= w * a <= 0x8000_0000 * a) by (nonlinear_arith)
        requires
            0 <= a,
            -0x8000_0000 <= w <= 0x7fff_ffff,
    ;
}

proof fn lemma_share_bounds(w: int, a: int, t: int)
    requires
        0 <= a <= t,
        t >= 1,
        -0x8000_0000 <= w <= 0x7fff_ffff,
    ensures
        -0x8000_0000 <= (w * a) / t <= 0x7fff_ffff,
{
    if w >= 0 {
        assert(0 <= w * a <= w * t) by (nonlinear_arith)
            requires
                0 <= a <= t,
                w >= 0,
        ;
        assert((w * a) / t <= (w * t) / t) by (nonlinear_arith)
            requires
                0 <= w * a <= w * t,
                t >= 1,
        ;
        assert((w * t) / t == w) by (nonlinear_arith)
            requires
                t >= 1,
        ;
        assert(0 <= (w * a) / t) by (nonlinear_arith)
            requires
                0 <= w * a,
                t >= 1,
        ;
    } else {
        assert(w * t <= w * a <= 0) by (nonlinear_arith)
            requires
                0 <= a <= t,
                w < 0,
        ;
        assert((w * t) / t <= (w * a) / t) by (nonlinear_arith)
            requires
                w * t <= w * a,
                t >= 1,
        ;
        assert((w * t) / t == w) by (nonlinear_arith)
            requires
                t >= 1,
        ;
        assert((w * a) / t <= 0) by (nonlinear_arith)
            requires
                w * a <= 0,
                t >= 1,
        ;
    }
}

/// `r` (first index, length) is a word of `s`: a run of characters other
/// than whitespace with whitespace or an end of `s` on either side.
pub open spec fn run_is_word(s: Seq<char>, r: (int, int)) -> bool {
    &&& 0 <= r.0
    &&& 1 <= r.1
    &&& r.0 + r.1 <= s.len()
    &&& forall|c: int| r.0 <= c < r.0 + r.1 ==> !is_ws(#[trigger] s[c])
    &&& r.0 == 0 || is_ws(s[r.0 - 1])
    &&& r.0 + r.1 == s.len() || is_ws(s[r.0 + r.1])
}

/// Index `c` lies in the run `r`.
pub open spec fn in_run(r: (int, int), c: int) -> bool {
    r.0 <= c < r.0 + r.1
}

/// The words of a text are its maximal runs of characters other than
/// whitespace, as `str::split_whitespace` gives them: each is such a run
/// bounded by whitespace or the ends of the text, they come in order and
/// apart, and every other character lies in one.
#[verifier::rlimit(30)]
pub proof fn lemma_words_are_maximal_runs(s: Seq<char>)
    ensures
        forall|k: int| 0 <= k < word_runs(s).len() ==> run_is_word(s, #[trigger] word_runs(s)[k]),
        forall|k: int|
            0 <= k < word_runs(s).len() - 1 ==> (#[trigger] word_runs(s)[k]).0 + word_runs(s)[k].1
                < word_runs(s)[k + 1].0,
        forall|c: int|
            0 <= c < s.len() && !is_ws(#[trigger] s[c]) ==> exists|k: int|
                0 <= k < word_runs(s).len() && in_run(#[trigger] word_runs(s)[k], c),
    decreases s.len(),
{
    if s.len() > 0 {
        let t = s.drop_last();
        let n = s.len() - 1;
        let rest = word_runs(t);
        let w = word_runs(s);
        lemma_words_are_maximal_runs(t);
        lemma_word_runs_shape(t);
        assert forall|c: int| 0 <= c < n implies #[trigger] s[c] == t[c] by {}
        if is_ws(s[n]) {
            assert(w == rest);
            assert forall|k: int| 0 <= k < w.len() implies run_is_word(s, #[trigger] w[k]) by {
                let r = w[k];
                assert(run_is_word(t, rest[k]));
                assert forall|c: int| r.0 <= c < r.0 + r.1 implies !is_ws(#[trigger] s[c]) by {
                    assert(!is_ws(t[c]));
                }
                if r.0 > 0 {
                    assert(is_ws(t[r.0 - 1]));
                }
                if r.0 + r.1 < n {
                    assert(is_ws(t[r.0 + r.1]));
                }
            }
            assert forall|c: int| 0 <= c < s.len() && !is_ws(#[trigger] s[c]) implies exists|k: int|
                0 <= k < w.len() && in_run(#[trigger] w[k], c) by {
                assert(!is_ws(t[c]));
            }
        } else if n > 0 && !is_ws(s[n - 1]) {
            assert(t.last() == s[n - 1]);
            let m = rest.len() - 1;
            let last = rest[m];
            assert(last.0 + last.1 == n);
            assert(w == rest.update(m, (last.0, last.1 + 1)));
            assert forall|k: int| 0 <= k < w.len() implies run_is_word(s, #[trigger] w[k]) by {
                let r = w[k];
                assert(run_is_word(t, rest[k]));
                if k == m {
                    assert forall|c: int| r.0 <= c < r.0 + r.1 implies !is_ws(#[trigger] s[c]) by {
                        if c < n {
                            assert(!is_ws(t[c]));
                        }
                    }
                    if r.0 > 0 {
                        assert(is_ws(t[r.0 - 1]));
                    }
                } else {
                    assert(r == rest[k]);
                    assert(rest[k].0 + rest[k].1 < rest[k + 1].0);
                    assert forall|c: int| r.0 <= c < r.0 + r.1 implies !is_ws(#[trigger] s[c]) by {
                        assert(!is_ws(t[c]));
                    }
                    if r.0 > 0 {
                        assert(is_ws(t[r.0 - 1]));
                    }
                    assert(is_ws(t[r.0 + r.1]));
                }
            }
            assert forall|k: int| 0 <= k < w.len() - 1 implies (#[trigger] w[k]).0 + w[k].1 < w[k
                + 1].0 by {
                assert(rest[k].0 + rest[k].1 < rest[k + 1].0);
            }
            assert forall|c: int| 0 <= c < s.len() && !is_ws(#[trigger] s[c]) implies exists|k: int|
                0 <= k < w.len() && in_run(#[trigger] w[k], c) by {
                if c == n {
                    assert(in_run(w[m], c));
                } else {
                    assert(!is_ws(t[c]));
                    let k = choose|k: int| 0 <= k < rest.len() && in_run(#[trigger] rest[k], c);
                    assert(in_run(w[k], c));
                }
            }
        } else {
            assert(w == rest.push((n, 1int)));
            assert forall|k: int| 0 <= k < w.len() implies run_is_word(s, #[trigger] w[k]) by {
                let r = w[k];
                if k < rest.len() {
                    assert(r == rest[k]);
                    assert(run_is_word(t, rest[k]));
                    assert forall|c: int| r.0 <= c < r.0 + r.1 implies !is_ws(#[trigger] s[c]) by {
                        assert(!is_ws(t[c]));
                    }
                    if r.0 > 0 {
                        assert(is_ws(t[r.0 - 1]));
                    }
                    if r.0 + r.1 == n {
                        assert(!is_ws(t[n - 1]));
                        assert(t[n - 1] == s[n - 1]);
                    } else {
                        assert(is_ws(t[r.0 + r.1]));
                    }
                } else {
                    assert(r == (n, 1int));
                    if n > 0 {
                        assert(is_ws(s[n - 1]));
                    }
                }
            }
            assert forall|k: int| 0 <= k < w.len() - 1 implies (#[trigger] w[k]).0 + w[k].1 < w[k
                + 1].0 by {
                if k < rest.len() - 1 {
                    assert(rest[k].0 + rest[k].1 < rest[k + 1].0);
                } else {
                    let r = rest[k];
                    assert(run_is_word(t, r));
                    if r.0 + r.1 == n {
                        assert(!is_ws(t[n - 1]));
                        assert(t[n - 1] == s[n - 1]);
                    }
                }
            }
            assert forall|c: int| 0 <= c < s.len() && !is_ws(#[trigger] s[c]) implies exists|k: int|
                0 <= k < w.len() && in_run(#[trigger] w[k], c) by {
                if c == n {
                    assert(in_run(w[rest.len() as int], c));
                } else {
                    assert(!is_ws(t[c]));
                    let k = choose|k: int| 0 <= k < rest.len() && in_run(#[trigger] rest[k], c);
                    assert(in_run(w[k], c));
                }
            }
        }
    }
}

/// The words of `v` (see `word_runs`).
fn words_of(v: &Vec<char>) -> (r: Vec<(usize, usize)>)
    ensures
        r@.len() == word_runs(v@).len(),
        forall|k: int|
            0 <= k < r@.len() ==> (#[trigger] r@[k].0 as int, r@[k].1 as int) == word_runs(v@)[k],
{
    let n = v.len();
    let mut runs: Vec<(usize, usize)> = Vec::new();
    let mut i: usize = 0;
    while i < n
        invariant
            n == v@.len(),
            i <= n,
            runs@.len() == word_runs(v@.take(i as int)).len(),
            forall|k: int|
                0 <= k < runs@.len() ==> (#[trigger] runs@[k].0 as int, runs@[k].1 as int)
                    == word_runs(v@.take(i as int))[k],
        decreases n - i,
    {
        proof {
            assert(v@.take(i + 1).drop_last() =~= v@.take(i as int));
            assert(v@.take(i + 1)[i as int] == v@[i as int]);
            lemma_word_runs_shape(v@.take(i as int));
            if i > 0 {
                assert(v@.take(i + 1)[i - 1] == v@[i - 1]);
                assert(v@.take(i as int).last() == v@[i - 1]);
            }
        }
        let c = v[i];
        if is_whitespace(c) {
        } else if i > 0 && !is_whitespace(v[i - 1]) {
            let last = runs.len() - 1;
            let (a, b) = runs[last];
            runs.set(last, (a, b + 1));
        } else {
            runs.push((i, 1));
        }
        i = i + 1;
    }
    assert(v@.take(n as int) =~= v@);
    runs
}

fn clamp_to_i32(v: i128) -> (r: i32)
    ensures
        r as int == clamp_i32(v as int),
{
    if v > 0x7fff_ffff {
        0x7fff_ffff
    } else if v < -0x8000_0000 {
        -0x8000_0000
    } else {
        v as i32
    }
}

fn chars_between(v: &Vec<char>, a: usize, b: usize) -> (r: String)
    requires
        a <= b <= v@.len(),
    ensures
        r@ == v@.subrange(a as int, b as int),
{
    let mut part: Vec<char> = Vec::new();
    let mut k: usize = a;
    while k < b
        invariant
            a <= k <= b <= v@.len(),
            part@ =~= v@.subrange(a as int, k as int),
        decreases b - k,
    {
        part.push(v[k]);
        k = k + 1;
    }
    string_of(&part)
}

/// Appends the spans a run becomes (see `run_pieces`).
#[verifier::rlimit(30)]
fn push_pieces(out: &mut Vec<TextSpan>, r: &RawSpan, page_height: i32)
    ensures
        span_views(final(out)@) == span_views(old(out)@) + run_pieces(*r, page_height as int),
{
    let v = chars_of(r.text.as_str());
    let words = words_of(&v);
    let top = clamp_to_i32((page_height as i128) - ((r.y as i128) + (r.height as i128)));
    let bottom = clamp_to_i32((page_height as i128) - (r.y as i128));
    let ghost start = span_views(out@);
    if words.len() == 0 {
        let lo = if top <= bottom { top } else { bottom };
        let span = TextSpan {
            text: r.text.clone(),
            font_name: r.font_name.clone(),
            font_size: r.font_size,
            bbox: (
                if lo >= 0 { lo } else { 0 },
                if top >= bottom { top } else { bottom },
                r.x,
                clamp_to_i32((r.x as i128) + (r.width as i128)),
            ),
            is_bold: r.is_bold,
            is_italic: r.is_italic,
        };
        out.push(span);
        assert(span_views(out@) =~= start + run_pieces(*r, page_height as int));
        return;
    }
    proof {
        lemma_word_runs_shape(v@);
    }
    let total = v.len() as i128;
    let ghost f = |w: (int, int)| word_piece(*r, page_height as int, w);
    let mut k: usize = 0;
    while k < words.len()
        invariant
            k <= words@.len(),
            v@ == r.text@,
            v.len() == v@.len(),
            total == v@.len() as i128,
            total >= 1,
            words@.len() == word_runs(v@).len(),
            forall|j: int|
                0 <= j < words@.len() ==> (#[trigger] words@[j].0 as int, words@[j].1 as int)
                    == word_runs(v@)[j],
            forall|j: int|
                0 <= j < word_runs(v@).len() ==> 0 <= (#[trigger] word_runs(v@)[j]).0 && 1
                    <= word_runs(v@)[j].1 && word_runs(v@)[j].0 + word_runs(v@)[j].1 <= v@.len(),
            top as int == run_top(*r, page_height as int),
            bottom as int == run_bottom(*r, page_height as int),
            f == (|w: (int, int)| word_piece(*r, page_height as int, w)),
            span_views(out@) == start + word_runs(v@).take(k as int).map_values(f),
        decreases words@.len() - k,
    {
        let (a, len) = words[k];
        assert((a as int, len as int) == word_runs(v@)[k as int]);
        assert(a + len <= v@.len());
        let b = a + len;
        proof {
            lemma_share_bounds(r.width as int, a as int, total as int);
            lemma_share_bounds(r.width as int, b as int, total as int);
            lemma_product_bounds(r.width as int, a as int);
            lemma_product_bounds(r.width as int, b as int);
        }
        let x0 = clamp_to_i32((r.x as i128) + floor_div((r.width as i128) * (a as i128), total));
        let x1 = clamp_to_i32((r.x as i128) + floor_div((r.width as i128) * (b as i128), total));
        let span = TextSpan {
            text: chars_between(&v, a, b),
            font_name: r.font_name.clone(),
            font_size: r.font_size,
            bbox: (top, bottom, x0, x1),
            is_bold: r.is_bold,
            is_italic: r.is_italic,
        };
        let ghost before = out@;
        out.push(span);
        proof {
            assert(span@ == f(word_runs(v@)[k as int]));
            assert(span_views(out@) =~= span_views(before).push(span@));
            assert(word_runs(v@).take(k + 1).map_values(f) =~= word_runs(v@).take(
                k as int,
            ).map_values(f).push(f(word_runs(v@)[k as int])));
        }
        k = k + 1;
    }
    assert(word_runs(v@).take(words@.len() as int) =~= word_runs(v@));
}

/// The page at `index` (counted from 0) of a document, from its media box
/// (lower-left x and y, upper-right x and y) and the runs of text read
/// from it. No images are read.
pub fn build_page(index: usize, media_box: (i32, i32, i32, i32), runs: &Vec<RawSpan>) -> (p: Page)
    requires
        index < usize::MAX,
    ensures
        p.page_number == index + 1,
        p.width as int == clamp_i32(media_box.2 - media_box.0),
        p.height as int == clamp_i32(media_box.3 - media_box.1),
        span_views(p.spans@) == runs@.map_values(|r: RawSpan| run_pieces(r, p.height as int)).flatten(),
        p.images@.len() == 0,
{
    let width = clamp_to_i32((media_box.2 as i128) - (media_box.0 as i128));
    let height = clamp_to_i32((media_box.3 as i128) - (media_box.1 as i128));
    let ghost g = |r: RawSpan| run_pieces(r, height as int);
    let mut spans: Vec<TextSpan> = Vec::new();
    let mut i: usize = 0;
    while i < runs.len()
        invariant
            i <= runs@.len(),
            g == (|r: RawSpan| run_pieces(r, height as int)),
            span_views(spans@) == runs@.take(i as int).map_values(g).flatten(),
        decreases runs@.len() - i,
    {
        proof {
            assert(runs@.take(i + 1).map_values(g) =~= runs@.take(i as int).map_values(g).push(
                g(runs@[i as int]),
            ));
            runs@.take(i as int).map_values(g).lemma_flatten_push(g(runs@[i as int]));
        }
        push_pieces(&mut spans, &runs[i], height);
        i = i + 1;
    }
    assert(runs@.take(runs@.len() as int) =~= runs@);
    Page { page_number: index + 1, width, height, spans, images: Vec::new() }
}

} // verus!
