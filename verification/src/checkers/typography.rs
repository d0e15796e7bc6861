//! Font checks: sizes, weights and families of the body text.
use vstd::prelude::*;
use std::collections::HashMap;
use crate::document::{Document, Page, TextSpan, has_text, in_footer, in_header, trimmed_len};
use crate::params::{ParamValue, str_at, flag_at, list_at, value_get, value_u64, value_str, get_str, get_flag};
use crate::text::{lower_chars, lowercase, alphabetic, is_alphabetic, contains, contains_seq, trim, min_nat, text_le, text_le_exec, lemma_text_le_reflexive, lemma_text_le_antisymmetric, lemma_text_le_transitive, lemma_text_le_total, chars_of, same_chars, same_text, matches_at, occurs_at, trim_chars, utf8_len, utf8_len_capped, string_of};
use crate::checkers::{
    Checker, CheckResult, CheckResultView, Detail, DetailView, EvidenceItem, EvidenceView, Excerpt,
    ExcerptView, Status, Weight, evidence_view, weight_label,
};
use crate::checkers::measure::{measurement, parse_measurement};

verus! {

/// `s` with every occurrence of `p` removed, scanning left to right, as
/// `str::replace(p, "")` gives it.
pub open spec fn remove_all(s: Seq<char>, p: Seq<char>) -> Seq<char>
    decreases s.len(),
{
    if p.len() == 0 || s.len() == 0 {
        s
    } else if s.len() >= p.len() && s.take(p.len() as int) == p {
        remove_all(s.skip(p.len() as int), p)
    } else {
        seq![s[0]] + remove_all(s.drop_first(), p)
    }
}

/// Position of the first `+` in `s`, if any.
pub open spec fn plus_pos(s: Seq<char>) -> Option<int>
    decreases s.len(),
{
    if s.len() == 0 {
        None
    } else if s[0] == '+' {
        Some(0)
    } else {
        match plus_pos(s.drop_first()) {
            Some(i) => Some(i + 1),
            None => None,
        }
    }
}

/// `s` without leading and trailing `-`.
pub open spec fn strip_dashes(s: Seq<char>) -> Seq<char>
    decreases s.len(),
{
    if s.len() > 0 && s[0] == '-' {
        strip_dashes(s.drop_first())
    } else if s.len() > 0 && s.last() == '-' {
        strip_dashes(s.drop_last())
    } else {
        s
    }
}

/// `s` with the style and vendor suffixes removed, each everywhere and in
/// this order: `PS`, `MT`, `-Regular`, `-BoldItalic`, `-Bold`, `-Italic`,
/// `-Oblique`.
pub open spec fn without_suffixes(s: Seq<char>) -> Seq<char> {
    remove_all(
        remove_all(
            remove_all(
                remove_all(remove_all(remove_all(remove_all(s, "PS"@), "MT"@), "-Regular"@), "-BoldItalic"@),
                "-Bold"@,
            ),
            "-Italic"@,
        ),
        "-Oblique"@,
    )
}

/// Name prefixes, in lowercase, of the Computer Modern fonts of TeX.
pub open spec fn computer_modern_prefixes() -> Seq<Seq<char>> {
    seq!["cmr"@, "cmbx"@, "cmmi"@, "cmsy"@, "cmex"@, "cmti"@, "cmsl"@, "tex-math"@]
}

/// A font name, in lowercase, starts with one of the Computer Modern
/// prefixes.
pub open spec fn is_computer_modern(name: Seq<char>) -> bool {
    exists|k: int|
        0 <= k < computer_modern_prefixes().len() && occurs_at(
            lowercase(name),
            #[trigger] computer_modern_prefixes()[k],
            0,
        )
}

/// The part of a font name after the first `+` (a subset tag).
pub open spec fn untagged(font_name: Seq<char>) -> Seq<char> {
    match plus_pos(font_name) {
        Some(i) => font_name.skip(i + 1),
        None => font_name,
    }
}

/// The family of a font name: `ComputerModern` for the fonts of TeX;
/// else the name after its subset tag, with style and vendor suffixes
/// removed and dashes trimmed.
pub open spec fn family_of(font_name: Seq<char>) -> Seq<char> {
    let name = untagged(font_name);
    if is_computer_modern(name) {
        "ComputerModern"@
    } else {
        strip_dashes(without_suffixes(name))
    }
}

/// An ASCII capital letter or digit.
pub open spec fn upper_or_digit(c: char) -> bool {
    ('A' <= c && c <= 'Z') || ('0' <= c && c <= '9')
}

/// A name that stands for an embedded font subset rather than a family:
/// shorter than 4 bytes, or at most 6 bytes of capitals and digits.
pub open spec fn internal_font_name(name: Seq<char>) -> bool {
    utf8_len(name) < 4 || (utf8_len(name) <= 6 && forall|i: int|
        0 <= i < name.len() ==> upper_or_digit(#[trigger] name[i]))
}

proof fn lemma_plus_pos(s: Seq<char>, i: int)
    requires
        0 <= i <= s.len(),
        forall|k: int| 0 <= k < i ==> s[k] != '+',
        i < s.len() ==> s[i] == '+',
    ensures
        plus_pos(s) == (if i < s.len() {
            Some(i)
        } else {
            None::<int>
        }),
    decreases i,
{
    if i > 0 {
        let t = s.drop_first();
        assert forall|k: int| 0 <= k < i - 1 implies t[k] != '+' by {
            assert(t[k] == s[k + 1]);
        }
        if i < s.len() {
            assert(t[i - 1] == s[i]);
        }
        lemma_plus_pos(t, i - 1);
        assert(s[0] != '+');
    }
}

/// A family name as fonts carry it before any style suffix: no `-`, no
/// `+` (no subset tag), and neither `PS` nor `MT`.
pub open spec fn plain_name(t: Seq<char>) -> bool {
    &&& forall|i: int| 0 <= i < t.len() ==> #[trigger] t[i] != '-' && t[i] != '+'
    &&& !contains_seq(t, "PS"@)
    &&& !contains_seq(t, "MT"@)
}

proof fn lemma_occurs_drop_first(s: Seq<char>, p: Seq<char>, i: int)
    requires
        s.len() > 0,
        occurs_at(s.drop_first(), p, i),
    ensures
        occurs_at(s, p, i + 1),
{
    assert(s.subrange(i + 1, i + 1 + p.len()) =~= s.drop_first().subrange(i, i + p.len()));
}

/// Removing a pattern that does not occur leaves the text as it is.
proof fn lemma_remove_absent(s: Seq<char>, p: Seq<char>)
    requires
        !contains_seq(s, p),
    ensures
        remove_all(s, p) == s,
    decreases s.len(),
{
    if p.len() > 0 && s.len() > 0 {
        if s.len() >= p.len() && s.take(p.len() as int) == p {
            assert(s.subrange(0, p.len() as int) =~= s.take(p.len() as int));
            assert(occurs_at(s, p, 0));
        } else {
            let t = s.drop_first();
            if contains_seq(t, p) {
                let i = choose|i: int| occurs_at(t, p, i);
                lemma_occurs_drop_first(s, p, i);
            }
            lemma_remove_absent(t, p);
            assert(seq![s[0]] + t =~= s);
        }
    }
}

/// Removing a pattern that starts with `-` from a dashless text followed
/// by that pattern leaves the text.
proof fn lemma_remove_trailing(t: Seq<char>, p: Seq<char>)
    requires
        p.len() > 0,
        p[0] == '-',
        forall|i: int| 0 <= i < t.len() ==> #[trigger] t[i] != '-',
    ensures
        remove_all(t + p, p) == t,
    decreases t.len(),
{
    let s = t + p;
    if t.len() == 0 {
        assert(s =~= p);
        assert(s.take(p.len() as int) =~= p);
        assert(s.skip(p.len() as int) =~= Seq::<char>::empty());
        assert(remove_all(Seq::<char>::empty(), p) == Seq::<char>::empty());
        assert(remove_all(s, p) == remove_all(s.skip(p.len() as int), p));
    } else {
        assert(s.take(p.len() as int)[0] == t[0]);
        assert(s.take(p.len() as int) != p);
        assert(remove_all(s, p) == seq![s[0]] + remove_all(s.drop_first(), p));
        assert(s.drop_first() =~= t.drop_first() + p);
        assert forall|i: int| 0 <= i < t.drop_first().len() implies #[trigger] t.drop_first()[i]
            != '-' by {
            assert(t.drop_first()[i] == t[i + 1]);
        }
        lemma_remove_trailing(t.drop_first(), p);
        assert(seq![s[0]] + t.drop_first() =~= t);
    }
}

/// A pattern with no `-` past its first character, and no occurrence in
/// a dashless text, does not occur in the text followed by a suffix that
/// starts with `-`, has no other `-`, has no other character equal to the
/// pattern's first, and does not begin with the pattern.
proof fn lemma_absent_before_suffix(t: Seq<char>, suf: Seq<char>, q: Seq<char>)
    requires
        q.len() > 0,
        !contains_seq(t, q),
        forall|i: int| 0 <= i < t.len() ==> #[trigger] t[i] != '-',
        suf.len() > 0,
        suf[0] == '-',
        forall|j: int| 1 <= j < suf.len() ==> #[trigger] suf[j] != '-' && suf[j] != q[0],
        forall|j: int| 1 <= j < q.len() ==> #[trigger] q[j] != '-',
        !(q.len() <= suf.len() && suf.take(q.len() as int) == q),
    ensures
        !contains_seq(t + suf, q),
{
    let s = t + suf;
    if contains_seq(s, q) {
        let i = choose|i: int| occurs_at(s, q, i);
        let w = s.subrange(i, i + q.len());
        if i + q.len() <= t.len() {
            assert(t.subrange(i, i + q.len()) =~= w);
            assert(occurs_at(t, q, i));
        } else if i < t.len() {
            let j = t.len() - i;
            assert(w[j] == s[t.len() as int]);
            assert(q[j] == w[j]);
        } else if i == t.len() {
            assert(suf.take(q.len() as int) =~= w);
        } else {
            assert(w[0] == suf[i - t.len()]);
            assert(q[0] == w[0]);
        }
    }
}

/// A dashless text holds no pattern that starts with `-`.
proof fn lemma_dashless_absent(t: Seq<char>, q: Seq<char>)
    requires
        q.len() > 0,
        q[0] == '-',
        forall|i: int| 0 <= i < t.len() ==> #[trigger] t[i] != '-',
    ensures
        !contains_seq(t, q),
{
    if contains_seq(t, q) {
        let i = choose|i: int| occurs_at(t, q, i);
        assert(t.subrange(i, i + q.len())[0] == t[i]);
    }
}

/// `t` followed by `-Regular` loses the suffix and nothing else.
proof fn lemma_drop_regular(t: Seq<char>)
    requires
        plain_name(t),
    ensures
        without_suffixes(t + "-Regular"@) == t,
{
    reveal_strlit("-Bold");
    reveal_strlit("-Italic");
    reveal_strlit("-Oblique");
    reveal_strlit("MT");
    reveal_strlit("PS");
    reveal_strlit("-Regular");
    reveal_strlit("-BoldItalic");
    let suf = "-Regular"@;
    assert forall|j: int| 1 <= j < suf.len() implies #[trigger] suf[j] != '-' && suf[j] != 'P' && suf[j] != 'M' by {
        assert(j == 1 || j == 2 || j == 3 || j == 4 || j == 5 || j == 6 || j == 7);
    }
    assert forall|i: int| 0 <= i < t.len() implies #[trigger] t[i] != '-' by {}
    let s = t + suf;
    let q0 = "PS"@;
    assert forall|j: int| 1 <= j < q0.len() implies #[trigger] q0[j] != '-' by {
        assert(j == 1);
    }
    assert(suf.take(q0.len() as int)[0] != q0[0]);
    assert(!contains_seq(t, q0));
    lemma_absent_before_suffix(t, suf, q0);
    lemma_remove_absent(s, q0);
    let q1 = "MT"@;
    assert forall|j: int| 1 <= j < q1.len() implies #[trigger] q1[j] != '-' by {
        assert(j == 1);
    }
    assert(suf.take(q1.len() as int)[0] != q1[0]);
    assert(!contains_seq(t, q1));
    lemma_absent_before_suffix(t, suf, q1);
    lemma_remove_absent(s, q1);
    lemma_remove_trailing(t, suf);
    lemma_dashless_absent(t, "-BoldItalic"@);
    lemma_remove_absent(t, "-BoldItalic"@);
    lemma_dashless_absent(t, "-Bold"@);
    lemma_remove_absent(t, "-Bold"@);
    lemma_dashless_absent(t, "-Italic"@);
    lemma_remove_absent(t, "-Italic"@);
    lemma_dashless_absent(t, "-Oblique"@);
    lemma_remove_absent(t, "-Oblique"@);
}

/// `t` followed by `-BoldItalic` loses the suffix and nothing else.
proof fn lemma_drop_bolditalic(t: Seq<char>)
    requires
        plain_name(t),
    ensures
        without_suffixes(t + "-BoldItalic"@) == t,
{
    reveal_strlit("-Bold");
    reveal_strlit("-Italic");
    reveal_strlit("-Oblique");
    reveal_strlit("MT");
    reveal_strlit("PS");
    reveal_strlit("-Regular");
    reveal_strlit("-BoldItalic");
    let suf = "-BoldItalic"@;
    assert forall|j: int| 1 <= j < suf.len() implies #[trigger] suf[j] != '-' && suf[j] != 'P' && suf[j] != 'M' by {
        assert(j == 1 || j == 2 || j == 3 || j == 4 || j == 5 || j == 6 || j == 7 || j == 8 || j == 9 || j == 10);
    }
    assert forall|i: int| 0 <= i < t.len() implies #[trigger] t[i] != '-' by {}
    let s = t + suf;
    let q0 = "PS"@;
    assert forall|j: int| 1 <= j < q0.len() implies #[trigger] q0[j] != '-' by {
        assert(j == 1);
    }
    assert(suf.take(q0.len() as int)[0] != q0[0]);
    assert(!contains_seq(t, q0));
    lemma_absent_before_suffix(t, suf, q0);
    lemma_remove_absent(s, q0);
    let q1 = "MT"@;
    assert forall|j: int| 1 <= j < q1.len() implies #[trigger] q1[j] != '-' by {
        assert(j == 1);
    }
    assert(suf.take(q1.len() as int)[0] != q1[0]);
    assert(!contains_seq(t, q1));
    lemma_absent_before_suffix(t, suf, q1);
    lemma_remove_absent(s, q1);
    let q2 = "-Regular"@;
    assert forall|j: int| 1 <= j < q2.len() implies #[trigger] q2[j] != '-' by {
        assert(j == 1 || j == 2 || j == 3 || j == 4 || j == 5 || j == 6 || j == 7);
    }
    assert(suf.take(q2.len() as int)[1] != q2[1]);
    lemma_dashless_absent(t, q2);
    lemma_absent_before_suffix(t, suf, q2);
    lemma_remove_absent(s, q2);
    lemma_remove_trailing(t, suf);
    lemma_dashless_absent(t, "-Bold"@);
    lemma_remove_absent(t, "-Bold"@);
    lemma_dashless_absent(t, "-Italic"@);
    lemma_remove_absent(t, "-Italic"@);
    lemma_dashless_absent(t, "-Oblique"@);
    lemma_remove_absent(t, "-Oblique"@);
}

/// `t` followed by `-Bold` loses the suffix and nothing else.
proof fn lemma_drop_bold(t: Seq<char>)
    requires
        plain_name(t),
    ensures
        without_suffixes(t + "-Bold"@) == t,
{
    reveal_strlit("-Bold");
    reveal_strlit("-Italic");
    reveal_strlit("-Oblique");
    reveal_strlit("MT");
    reveal_strlit("PS");
    reveal_strlit("-Regular");
    reveal_strlit("-BoldItalic");
    let suf = "-Bold"@;
    assert forall|j: int| 1 <= j < suf.len() implies #[trigger] suf[j] != '-' && suf[j] != 'P' && suf[j] != 'M' by {
        assert(j == 1 || j == 2 || j == 3 || j == 4);
    }
    assert forall|i: int| 0 <= i < t.len() implies #[trigger] t[i] != '-' by {}
    let s = t + suf;
    let q0 = "PS"@;
    assert forall|j: int| 1 <= j < q0.len() implies #[trigger] q0[j] != '-' by {
        assert(j == 1);
    }
    assert(suf.take(q0.len() as int)[0] != q0[0]);
    assert(!contains_seq(t, q0));
    lemma_absent_before_suffix(t, suf, q0);
    lemma_remove_absent(s, q0);
    let q1 = "MT"@;
    assert forall|j: int| 1 <= j < q1.len() implies #[trigger] q1[j] != '-' by {
        assert(j == 1);
    }
    assert(suf.take(q1.len() as int)[0] != q1[0]);
    assert(!contains_seq(t, q1));
    lemma_absent_before_suffix(t, suf, q1);
    lemma_remove_absent(s, q1);
    let q2 = "-Regular"@;
    assert forall|j: int| 1 <= j < q2.len() implies #[trigger] q2[j] != '-' by {
        assert(j == 1 || j == 2 || j == 3 || j == 4 || j == 5 || j == 6 || j == 7);
    }
    lemma_dashless_absent(t, q2);
    lemma_absent_before_suffix(t, suf, q2);
    lemma_remove_absent(s, q2);
    let q3 = "-BoldItalic"@;
    assert forall|j: int| 1 <= j < q3.len() implies #[trigger] q3[j] != '-' by {
        assert(j == 1 || j == 2 || j == 3 || j == 4 || j == 5 || j == 6 || j == 7 || j == 8 || j == 9 || j == 10);
    }
    lemma_dashless_absent(t, q3);
    lemma_absent_before_suffix(t, suf, q3);
    lemma_remove_absent(s, q3);
    lemma_remove_trailing(t, suf);
    lemma_dashless_absent(t, "-Italic"@);
    lemma_remove_absent(t, "-Italic"@);
    lemma_dashless_absent(t, "-Oblique"@);
    lemma_remove_absent(t, "-Oblique"@);
}

/// `t` followed by `-Italic` loses the suffix and nothing else.
proof fn lemma_drop_italic(t: Seq<char>)
    requires
        plain_name(t),
    ensures
        without_suffixes(t + "-Italic"@) == t,
{
    reveal_strlit("-Bold");
    reveal_strlit("-Italic");
    reveal_strlit("-Oblique");
    reveal_strlit("MT");
    reveal_strlit("PS");
    reveal_strlit("-Regular");
    reveal_strlit("-BoldItalic");
    let suf = "-Italic"@;
    assert forall|j: int| 1 <= j < suf.len() implies #[trigger] suf[j] != '-' && suf[j] != 'P' && suf[j] != 'M' by {
        assert(j == 1 || j == 2 || j == 3 || j == 4 || j == 5 || j == 6);
    }
    assert forall|i: int| 0 <= i < t.len() implies #[trigger] t[i] != '-' by {}
    let s = t + suf;
    let q0 = "PS"@;
    assert forall|j: int| 1 <= j < q0.len() implies #[trigger] q0[j] != '-' by {
        assert(j == 1);
    }
    assert(suf.take(q0.len() as int)[0] != q0[0]);
    assert(!contains_seq(t, q0));
    lemma_absent_before_suffix(t, suf, q0);
    lemma_remove_absent(s, q0);
    let q1 = "MT"@;
    assert forall|j: int| 1 <= j < q1.len() implies #[trigger] q1[j] != '-' by {
        assert(j == 1);
    }
    assert(suf.take(q1.len() as int)[0] != q1[0]);
    assert(!contains_seq(t, q1));
    lemma_absent_before_suffix(t, suf, q1);
    lemma_remove_absent(s, q1);
    let q2 = "-Regular"@;
    assert forall|j: int| 1 <= j < q2.len() implies #[trigger] q2[j] != '-' by {
        assert(j == 1 || j == 2 || j == 3 || j == 4 || j == 5 || j == 6 || j == 7);
    }
    lemma_dashless_absent(t, q2);
    lemma_absent_before_suffix(t, suf, q2);
    lemma_remove_absent(s, q2);
    let q3 = "-BoldItalic"@;
    assert forall|j: int| 1 <= j < q3.len() implies #[trigger] q3[j] != '-' by {
        assert(j == 1 || j == 2 || j == 3 || j == 4 || j == 5 || j == 6 || j == 7 || j == 8 || j == 9 || j == 10);
    }
    lemma_dashless_absent(t, q3);
    lemma_absent_before_suffix(t, suf, q3);
    lemma_remove_absent(s, q3);
    let q4 = "-Bold"@;
    assert forall|j: int| 1 <= j < q4.len() implies #[trigger] q4[j] != '-' by {
        assert(j == 1 || j == 2 || j == 3 || j == 4);
    }
    assert(suf.take(q4.len() as int)[1] != q4[1]);
    lemma_dashless_absent(t, q4);
    lemma_absent_before_suffix(t, suf, q4);
    lemma_remove_absent(s, q4);
    lemma_remove_trailing(t, suf);
    lemma_dashless_absent(t, "-Oblique"@);
    lemma_remove_absent(t, "-Oblique"@);
}

/// `t` followed by `-Oblique` loses the suffix and nothing else.
proof fn lemma_drop_oblique(t: Seq<char>)
    requires
        plain_name(t),
    ensures
        without_suffixes(t + "-Oblique"@) == t,
{
    reveal_strlit("-Bold");
    reveal_strlit("-Italic");
    reveal_strlit("-Oblique");
    reveal_strlit("MT");
    reveal_strlit("PS");
    reveal_strlit("-Regular");
    reveal_strlit("-BoldItalic");
    let suf = "-Oblique"@;
    assert forall|j: int| 1 <= j < suf.len() implies #[trigger] suf[j] != '-' && suf[j] != 'P' && suf[j] != 'M' by {
        assert(j == 1 || j == 2 || j == 3 || j == 4 || j == 5 || j == 6 || j == 7);
    }
    assert forall|i: int| 0 <= i < t.len() implies #[trigger] t[i] != '-' by {}
    let s = t + suf;
    let q0 = "PS"@;
    assert forall|j: int| 1 <= j < q0.len() implies #[trigger] q0[j] != '-' by {
        assert(j == 1);
    }
    assert(suf.take(q0.len() as int)[0] != q0[0]);
    assert(!contains_seq(t, q0));
    lemma_absent_before_suffix(t, suf, q0);
    lemma_remove_absent(s, q0);
    let q1 = "MT"@;
    assert forall|j: int| 1 <= j < q1.len() implies #[trigger] q1[j] != '-' by {
        assert(j == 1);
    }
    assert(suf.take(q1.len() as int)[0] != q1[0]);
    assert(!contains_seq(t, q1));
    lemma_absent_before_suffix(t, suf, q1);
    lemma_remove_absent(s, q1);
    let q2 = "-Regular"@;
    assert forall|j: int| 1 <= j < q2.len() implies #[trigger] q2[j] != '-' by {
        assert(j == 1 || j == 2 || j == 3 || j == 4 || j == 5 || j == 6 || j == 7);
    }
    assert(suf.take(q2.len() as int)[1] != q2[1]);
    lemma_dashless_absent(t, q2);
    lemma_absent_before_suffix(t, suf, q2);
    lemma_remove_absent(s, q2);
    let q3 = "-BoldItalic"@;
    assert forall|j: int| 1 <= j < q3.len() implies #[trigger] q3[j] != '-' by {
        assert(j == 1 || j == 2 || j == 3 || j == 4 || j == 5 || j == 6 || j == 7 || j == 8 || j == 9 || j == 10);
    }
    lemma_dashless_absent(t, q3);
    lemma_absent_before_suffix(t, suf, q3);
    lemma_remove_absent(s, q3);
    let q4 = "-Bold"@;
    assert forall|j: int| 1 <= j < q4.len() implies #[trigger] q4[j] != '-' by {
        assert(j == 1 || j == 2 || j == 3 || j == 4);
    }
    assert(suf.take(q4.len() as int)[1] != q4[1]);
    lemma_dashless_absent(t, q4);
    lemma_absent_before_suffix(t, suf, q4);
    lemma_remove_absent(s, q4);
    let q5 = "-Italic"@;
    assert forall|j: int| 1 <= j < q5.len() implies #[trigger] q5[j] != '-' by {
        assert(j == 1 || j == 2 || j == 3 || j == 4 || j == 5 || j == 6);
    }
    assert(suf.take(q5.len() as int)[1] != q5[1]);
    lemma_dashless_absent(t, q5);
    lemma_absent_before_suffix(t, suf, q5);
    lemma_remove_absent(s, q5);
    lemma_remove_trailing(t, suf);
}

/// A plain name has no subset tag and no dashes to trim, and holds none
/// of the patterns removed from a family name.
proof fn lemma_plain_unchanged(t: Seq<char>)
    requires
        plain_name(t),
    ensures
        without_suffixes(t) == t,
        strip_dashes(t) == t,
        untagged(t) == t,
{
    reveal_strlit("PS");
    reveal_strlit("MT");
    reveal_strlit("-Regular");
    reveal_strlit("-BoldItalic");
    reveal_strlit("-Bold");
    reveal_strlit("-Italic");
    reveal_strlit("-Oblique");
    assert forall|i: int| 0 <= i < t.len() implies #[trigger] t[i] != '-' by {}
    lemma_remove_absent(t, "PS"@);
    lemma_remove_absent(t, "MT"@);
    lemma_dashless_absent(t, "-Regular"@);
    lemma_remove_absent(t, "-Regular"@);
    lemma_dashless_absent(t, "-BoldItalic"@);
    lemma_remove_absent(t, "-BoldItalic"@);
    lemma_dashless_absent(t, "-Bold"@);
    lemma_remove_absent(t, "-Bold"@);
    lemma_dashless_absent(t, "-Italic"@);
    lemma_remove_absent(t, "-Italic"@);
    lemma_dashless_absent(t, "-Oblique"@);
    lemma_remove_absent(t, "-Oblique"@);
    if t.len() > 0 {
        assert(t[t.len() - 1] != '-');
    }
    assert forall|k: int| 0 <= k < t.len() implies t[k] != '+' by {}
    lemma_plus_pos(t, t.len() as int);
}

/// A plain name followed by a suffix without `+` has no subset tag.
proof fn lemma_untagged_plain(t: Seq<char>, suf: Seq<char>)
    requires
        plain_name(t),
        forall|j: int| 0 <= j < suf.len() ==> #[trigger] suf[j] != '+',
    ensures
        untagged(t + suf) == t + suf,
{
    let s = t + suf;
    assert forall|k: int| 0 <= k < s.len() implies s[k] != '+' by {
        if k < t.len() {
            assert(s[k] == t[k]);
        } else {
            assert(s[k] == suf[k - t.len()]);
        }
    }
    lemma_plus_pos(s, s.len() as int);
}

/// A family name keeps itself under each style suffix: a name with no
/// `-`, no subset tag and neither `PS` nor `MT` (see `plain_name`), on
/// its own or followed by `-Regular`, `-BoldItalic`, `-Bold`, `-Italic`
/// or `-Oblique`, has that name as its family (`Times-Italic` is of the
/// family `Times`); only the fonts of TeX are all `ComputerModern`.
pub proof fn lemma_style_suffixes_dropped(t: Seq<char>)
    requires
        plain_name(t),
    ensures
        family_of(t) == if is_computer_modern(t) {
            "ComputerModern"@
        } else {
            t
        },
        family_of(t + "-Regular"@) == if is_computer_modern(t + "-Regular"@) {
            "ComputerModern"@
        } else {
            t
        },
        family_of(t + "-BoldItalic"@) == if is_computer_modern(t + "-BoldItalic"@) {
            "ComputerModern"@
        } else {
            t
        },
        family_of(t + "-Bold"@) == if is_computer_modern(t + "-Bold"@) {
            "ComputerModern"@
        } else {
            t
        },
        family_of(t + "-Italic"@) == if is_computer_modern(t + "-Italic"@) {
            "ComputerModern"@
        } else {
            t
        },
        family_of(t + "-Oblique"@) == if is_computer_modern(t + "-Oblique"@) {
            "ComputerModern"@
        } else {
            t
        },
{
    reveal_strlit("PS");
    reveal_strlit("MT");
    reveal_strlit("-Regular");
    reveal_strlit("-BoldItalic");
    reveal_strlit("-Bold");
    reveal_strlit("-Italic");
    reveal_strlit("-Oblique");
    lemma_plain_unchanged(t);
    assert forall|j: int| 0 <= j < "-Regular"@.len() implies #[trigger] "-Regular"@[j] != '+' by {
        assert(j == 0 || j == 1 || j == 2 || j == 3 || j == 4 || j == 5 || j == 6 || j == 7);
    }
    lemma_untagged_plain(t, "-Regular"@);
    lemma_drop_regular(t);
    assert forall|j: int| 0 <= j < "-BoldItalic"@.len() implies #[trigger] "-BoldItalic"@[j] != '+' by {
        assert(j == 0 || j == 1 || j == 2 || j == 3 || j == 4 || j == 5 || j == 6 || j == 7 || j == 8 || j == 9 || j == 10);
    }
    lemma_untagged_plain(t, "-BoldItalic"@);
    lemma_drop_bolditalic(t);
    assert forall|j: int| 0 <= j < "-Bold"@.len() implies #[trigger] "-Bold"@[j] != '+' by {
        assert(j == 0 || j == 1 || j == 2 || j == 3 || j == 4);
    }
    lemma_untagged_plain(t, "-Bold"@);
    lemma_drop_bold(t);
    assert forall|j: int| 0 <= j < "-Italic"@.len() implies #[trigger] "-Italic"@[j] != '+' by {
        assert(j == 0 || j == 1 || j == 2 || j == 3 || j == 4 || j == 5 || j == 6);
    }
    lemma_untagged_plain(t, "-Italic"@);
    lemma_drop_italic(t);
    assert forall|j: int| 0 <= j < "-Oblique"@.len() implies #[trigger] "-Oblique"@[j] != '+' by {
        assert(j == 0 || j == 1 || j == 2 || j == 3 || j == 4 || j == 5 || j == 6 || j == 7);
    }
    lemma_untagged_plain(t, "-Oblique"@);
    lemma_drop_oblique(t);
}

/// The part of `v` after its first `+`, or all of `v` where it has none.
fn after_plus(v: &Vec<char>) -> (r: Vec<char>)
    ensures
        r@ == (match plus_pos(v@) {
            Some(i) => v@.skip(i + 1),
            None => v@,
        }),
{
    let n = v.len();
    let mut i: usize = 0;
    while i < n && v[i] != '+'
        invariant
            i <= n == v@.len(),
            forall|k: int| 0 <= k < i ==> v@[k] != '+',
        decreases n - i,
    {
        i = i + 1;
    }
    proof {
        lemma_plus_pos(v@, i as int);
    }
    if i == n {
        return v.clone();
    }
    let mut r: Vec<char> = Vec::new();
    let mut k: usize = i + 1;
    while k < n
        invariant
            i < k <= n == v@.len(),
            r@ =~= v@.subrange(i + 1, k as int),
        decreases n - k,
    {
        r.push(v[k]);
        k = k + 1;
    }
    assert(v@.skip(i + 1) =~= v@.subrange(i + 1, n as int));
    r
}

fn computer_modern_name(name: &Vec<char>) -> (b: bool)
    ensures
        b == is_computer_modern(name@),
{
    let low = lower_chars(name);
    let prefixes: Vec<Vec<char>> = vec![
        chars_of("cmr"),
        chars_of("cmbx"),
        chars_of("cmmi"),
        chars_of("cmsy"),
        chars_of("cmex"),
        chars_of("cmti"),
        chars_of("cmsl"),
        chars_of("tex-math"),
    ];
    let ghost pv = prefixes@.map_values(|p: Vec<char>| p@);
    assert(pv =~= computer_modern_prefixes());
    let mut k: usize = 0;
    while k < prefixes.len()
        invariant
            k <= prefixes@.len(),
            pv == prefixes@.map_values(|p: Vec<char>| p@),
            pv == computer_modern_prefixes(),
            low@ == lowercase(name@),
            forall|j: int| 0 <= j < k ==> !occurs_at(low@, #[trigger] pv[j], 0),
        decreases prefixes@.len() - k,
    {
        if matches_at(&low, &prefixes[k], 0) {
            assert(pv[k as int] == prefixes@[k as int]@);
            return true;
        }
        assert(pv[k as int] == prefixes@[k as int]@);
        k = k + 1;
    }
    false
}

/// The font family a font name stands for: `ComputerModern` for the
/// fonts of TeX (see `computer_modern_prefixes`); else the part after a
/// subset tag (`ABCDEF+`), without the suffixes `PS`, `MT`, `-Regular`,
/// `-BoldItalic`, `-Bold`, `-Italic`, `-Oblique` and without leading or
/// trailing dashes.
pub fn normalize_family(font_name: &str) -> (r: String)
    ensures
        r@ == family_of(font_name@),
{
    let v = chars_of(font_name);
    let name = after_plus(&v);
    if computer_modern_name(&name) {
        return String::from_str("ComputerModern");
    }
    let a = remove_all_exec(&name, &chars_of("PS"));
    let b = remove_all_exec(&a, &chars_of("MT"));
    let c = remove_all_exec(&b, &chars_of("-Regular"));
    let d = remove_all_exec(&c, &chars_of("-BoldItalic"));
    let e = remove_all_exec(&d, &chars_of("-Bold"));
    let f = remove_all_exec(&e, &chars_of("-Italic"));
    let g = remove_all_exec(&f, &chars_of("-Oblique"));
    string_of(&strip_dashes_exec(&g))
}

/// Whether a family name stands for an embedded subset rather than a real
/// family (see `internal_font_name`).
pub fn is_internal_font_name(name: &str) -> (b: bool)
    ensures
        b == internal_font_name(name@),
{
    let v = chars_of(name);
    let len = utf8_len_capped(&v, 7);
    if len < 4 {
        return true;
    }
    let mut i: usize = 0;
    while i < v.len()
        invariant
            i <= v@.len(),
            v@ == name@,
            len == min_nat(utf8_len(v@), 7),
            len >= 4,
            forall|k: int| 0 <= k < i ==> upper_or_digit(#[trigger] v@[k]),
        decreases v@.len() - i,
    {
        let c = v[i];
        if !(('A' <= c && c <= 'Z') || ('0' <= c && c <= '9')) {
            assert(!upper_or_digit(name@[i as int]));
            assert(utf8_len(name@) >= 4);
            return false;
        }
        i = i + 1;
    }
    len <= 6
}

fn remove_all_exec(s: &Vec<char>, p: &Vec<char>) -> (r: Vec<char>)
    ensures
        r@ == remove_all(s@, p@),
{
    let n = s.len();
    let pn = p.len();
    if pn == 0 {
        return s.clone();
    }
    let mut r: Vec<char> = Vec::new();
    let mut i: usize = 0;
    assert(s@.skip(0) =~= s@);
    while i < n
        invariant
            n == s@.len(),
            pn == p@.len(),
            pn > 0,
            i <= n,
            remove_all(s@, p@) == r@ + remove_all(s@.skip(i as int), p@),
        decreases n - i,
    {
        let ghost t = s@.skip(i as int);
        if matches_at(s, p, i) {
            proof {
                assert(t.take(pn as int) =~= s@.subrange(i as int, i + pn));
                assert(t.skip(pn as int) =~= s@.skip(i + pn));
            }
            i = i + pn;
        } else {
            proof {
                assert(t.take(pn as int) =~= s@.subrange(i as int, i + pn) || t.len() < pn);
                assert(t[0] == s@[i as int]);
                assert(t.drop_first() =~= s@.skip(i + 1));
                assert(r@ + (seq![s@[i as int]] + remove_all(t.drop_first(), p@)) =~= r@.push(
                    s@[i as int],
                ) + remove_all(t.drop_first(), p@));
            }
            r.push(s[i]);
            i = i + 1;
        }
    }
    proof {
        assert(s@.skip(n as int) =~= Seq::<char>::empty());
        assert(r@ + Seq::<char>::empty() =~= r@);
    }
    r
}

fn strip_dashes_exec(s: &Vec<char>) -> (r: Vec<char>)
    ensures
        r@ == strip_dashes(s@),
{
    let n = s.len();
    let mut a: usize = 0;
    assert(s@.skip(0) =~= s@);
    while a < n && s[a] == '-'
        invariant
            a <= n == s@.len(),
            strip_dashes(s@) == strip_dashes(s@.skip(a as int)),
        decreases n - a,
    {
        proof {
            let t = s@.skip(a as int);
            assert(t[0] == s@[a as int]);
            assert(t.drop_first() =~= s@.skip(a + 1));
        }
        a = a + 1;
    }
    assert(s@.skip(a as int) =~= s@.subrange(a as int, n as int));
    let mut b: usize = n;
    while b > a && s[b - 1] == '-'
        invariant
            a <= b <= n == s@.len(),
            a < b ==> s@[a as int] != '-',
            strip_dashes(s@) == strip_dashes(s@.subrange(a as int, b as int)),
        decreases b,
    {
        proof {
            let t = s@.subrange(a as int, b as int);
            assert(t[0] == s@[a as int]);
            assert(t.last() == s@[b - 1]);
            assert(t.drop_last() =~= s@.subrange(a as int, b - 1));
        }
        b = b - 1;
    }
    proof {
        let t = s@.subrange(a as int, b as int);
        if a < b {
            assert(t[0] == s@[a as int]);
            assert(t.last() == s@[b - 1]);
        }
    }
    let mut r: Vec<char> = Vec::new();
    let mut k: usize = a;
    while k < b
        invariant
            a <= k <= b <= n == s@.len(),
            r@ =~= s@.subrange(a as int, k as int),
        decreases b - k,
    {
        r.push(s[k]);
        k = k + 1;
    }
    r
}


/// The weight and slant a span is set in.
pub open spec fn weight_of(s: TextSpan) -> Weight {
    if s.is_bold && s.is_italic {
        Weight::BoldItalic
    } else if s.is_bold {
        Weight::Bold
    } else if s.is_italic {
        Weight::Italic
    } else {
        Weight::Normal
    }
}

/// A span neither reaching into the footer band nor starting in the
/// header band of its page.
pub open spec fn in_body_band(s: TextSpan, p: Page) -> bool {
    !in_footer(s, p.height) && !in_header(s)
}

/// A span the weight check reports: body text whose weight is not the
/// expected one, or, when `invert` is set, is the forbidden one.
pub open spec fn weight_flagged(s: TextSpan, p: Page, expected: Seq<char>, invert: bool) -> bool {
    has_text(s) && in_body_band(s, p) && ((weight_label(weight_of(s)) == expected) == invert)
}

pub open spec fn weight_item(p: Page, s: TextSpan, expected: Seq<char>, invert: bool) -> EvidenceView {
    EvidenceView {
        page: p.page_number,
        bbox: Some(s.bbox),
        excerpt: if invert {
            ExcerptView::WeightForbidden { text: s.text@, detected: weight_of(s), expected }
        } else {
            ExcerptView::WeightMismatch { text: s.text@, detected: weight_of(s), expected }
        },
    }
}

/// The weight evidence against one page, in the order of its spans.
pub open spec fn weight_page_evidence(p: Page, expected: Seq<char>, invert: bool) -> Seq<
    EvidenceView,
> {
    p.spans@.filter(|s: TextSpan| weight_flagged(s, p, expected, invert)).map_values(
        |s: TextSpan| weight_item(p, s, expected, invert),
    )
}

/// With `invert`, the weight check reports exactly the body spans that it
/// accepts without `invert`, and the other way round.
pub proof fn lemma_weight_invert_complement(s: TextSpan, p: Page, expected: Seq<char>)
    requires
        has_text(s),
        in_body_band(s, p),
    ensures
        weight_flagged(s, p, expected, true) != weight_flagged(s, p, expected, false),
{
}

/// The weight a span is reported with follows its two flags alone: a span
/// set in italic and not in bold is "italic", in bold and not in italic
/// "bold", in both "bold-italic", in neither "normal". So with the
/// expected weight "normal", and without `invert`, the check reports
/// exactly the body spans with text that are set in bold or in italic.
pub proof fn lemma_weight_follows_flags(s: TextSpan, p: Page)
    ensures
        weight_label(weight_of(s)) == "italic"@ <==> s.is_italic && !s.is_bold,
        weight_label(weight_of(s)) == "bold"@ <==> s.is_bold && !s.is_italic,
        weight_label(weight_of(s)) == "bold-italic"@ <==> s.is_bold && s.is_italic,
        weight_label(weight_of(s)) == "normal"@ <==> !s.is_bold && !s.is_italic,
        weight_flagged(s, p, "normal"@, false) <==> has_text(s) && in_body_band(s, p) && (s.is_bold
            || s.is_italic),
{
    reveal_strlit("italic");
    reveal_strlit("bold");
    reveal_strlit("bold-italic");
    reveal_strlit("normal");
    let labels = seq!["normal"@, "bold"@, "italic"@, "bold-italic"@];
    assert forall|a: int, b: int| 0 <= a < b < 4 implies labels[a] != labels[b] by {
        assert(labels[a].len() != labels[b].len() || labels[a][0] != labels[b][0]);
    }
    assert(labels[0] != labels[2] && labels[1] != labels[2] && labels[0] != labels[1]);
}

/// A page the check looks at: every page, or the one numbered `target`.
pub open spec fn page_selected(p: Page, target: Option<u64>) -> bool {
    match target {
        Some(t) => p.page_number == t as usize,
        None => true,
    }
}

/// The weight expected, `normal` unless configured.
pub open spec fn expected_weight(params: ParamValue) -> Seq<char> {
    match str_at(params, "weight"@) {
        Some(w) => w,
        None => "normal"@,
    }
}

/// The page the check is restricted to, if one is configured.
pub open spec fn page_param(params: ParamValue) -> Option<u64> {
    match value_get(params, "page"@) {
        Some(v) => value_u64(v),
        None => None,
    }
}

/// The weight evidence against the selected pages among `pages`, page by
/// page.
pub open spec fn weight_pages_evidence(
    pages: Seq<Page>,
    target: Option<u64>,
    expected: Seq<char>,
    invert: bool,
) -> Seq<EvidenceView> {
    pages.map_values(
        |p: Page|
            if page_selected(p, target) {
                weight_page_evidence(p, expected, invert)
            } else {
                Seq::empty()
            },
    ).flatten()
}

/// All the weight evidence, page by page.
pub open spec fn weight_evidence(doc: Document, params: ParamValue) -> Seq<EvidenceView> {
    weight_pages_evidence(doc.pages@, page_param(params), expected_weight(params), flag_at(params, "invert"@))
}

proof fn lemma_weight_pages_evidence(pages: Seq<Page>, target: u64, expected: Seq<char>, invert: bool)
    ensures
        forall|i: int|
            0 <= i < weight_pages_evidence(pages, Some(target), expected, invert).len() ==> (
            #[trigger] weight_pages_evidence(pages, Some(target), expected, invert)[i]).page
                == target as usize,
    decreases pages.len(),
{
    let g = |p: Page|
        if page_selected(p, Some(target)) {
            weight_page_evidence(p, expected, invert)
        } else {
            Seq::<EvidenceView>::empty()
        };
    if pages.len() > 0 {
        let rest = pages.drop_last();
        lemma_weight_pages_evidence(rest, target, expected, invert);
        let p = pages.last();
        assert(pages.map_values(g) =~= rest.map_values(g).push(g(p)));
        rest.map_values(g).lemma_flatten_push(g(p));
        let front = weight_pages_evidence(rest, Some(target), expected, invert);
        let all = weight_pages_evidence(pages, Some(target), expected, invert);
        assert(all == front + g(p));
        assert forall|j: int| 0 <= j < g(p).len() implies (#[trigger] g(p)[j]).page == target as usize by {
            assert(page_selected(p, Some(target)));
            let f = p.spans@.filter(|s: TextSpan| weight_flagged(s, p, expected, invert));
            assert(g(p)[j] == weight_item(p, f[j], expected, invert));
        }
        assert forall|i: int| 0 <= i < all.len() implies (#[trigger] all[i]).page == target as usize by {
            if i < front.len() {
                assert(all[i] == front[i]);
            } else {
                assert(all[i] == g(p)[i - front.len()]);
            }
        }
    }
}

/// A span the weight check looks at: one with text, in the body band.
pub open spec fn weight_candidate(s: TextSpan, p: Page) -> bool {
    has_text(s) && in_body_band(s, p)
}

/// The spans the weight check looks at on the selected pages among
/// `pages`, page by page.
pub open spec fn weight_candidates(pages: Seq<Page>, target: Option<u64>) -> Seq<TextSpan> {
    pages.map_values(
        |p: Page|
            if page_selected(p, target) {
                p.spans@.filter(|s: TextSpan| weight_candidate(s, p))
            } else {
                Seq::empty()
            },
    ).flatten()
}

/// Two predicates that split a third: the elements of each add up to
/// those of the third.
proof fn lemma_filter_split<A>(
    s: Seq<A>,
    c: spec_fn(A) -> bool,
    a: spec_fn(A) -> bool,
    b: spec_fn(A) -> bool,
)
    requires
        forall|x: A| (#[trigger] a(x) || b(x)) == c(x),
        forall|x: A| !(#[trigger] a(x) && b(x)),
    ensures
        s.filter(a).len() + s.filter(b).len() == s.filter(c).len(),
    decreases s.len(),
{
    if s.len() > 0 {
        let t = s.drop_last();
        lemma_filter_split(t, c, a, b);
        assert(t.push(s.last()) =~= s);
        t.lemma_filter_push(s.last(), a);
        t.lemma_filter_push(s.last(), b);
        t.lemma_filter_push(s.last(), c);
    } else {
        reveal_with_fuel(Seq::filter, 1);
    }
}

proof fn lemma_weight_counts(pages: Seq<Page>, target: Option<u64>, expected: Seq<char>)
    ensures
        weight_pages_evidence(pages, target, expected, false).len() + weight_pages_evidence(
            pages,
            target,
            expected,
            true,
        ).len() == weight_candidates(pages, target).len(),
    decreases pages.len(),
{
    let g0 = |p: Page|
        if page_selected(p, target) {
            weight_page_evidence(p, expected, false)
        } else {
            Seq::<EvidenceView>::empty()
        };
    let g1 = |p: Page|
        if page_selected(p, target) {
            weight_page_evidence(p, expected, true)
        } else {
            Seq::<EvidenceView>::empty()
        };
    let gc = |p: Page|
        if page_selected(p, target) {
            p.spans@.filter(|s: TextSpan| weight_candidate(s, p))
        } else {
            Seq::<TextSpan>::empty()
        };
    if pages.len() > 0 {
        let rest = pages.drop_last();
        let p = pages.last();
        lemma_weight_counts(rest, target, expected);
        assert(pages.map_values(g0) =~= rest.map_values(g0).push(g0(p)));
        assert(pages.map_values(g1) =~= rest.map_values(g1).push(g1(p)));
        assert(pages.map_values(gc) =~= rest.map_values(gc).push(gc(p)));
        rest.map_values(g0).lemma_flatten_push(g0(p));
        rest.map_values(g1).lemma_flatten_push(g1(p));
        rest.map_values(gc).lemma_flatten_push(gc(p));
        if page_selected(p, target) {
            let a = |s: TextSpan| weight_flagged(s, p, expected, false);
            let b = |s: TextSpan| weight_flagged(s, p, expected, true);
            let c = |s: TextSpan| weight_candidate(s, p);
            lemma_filter_split(p.spans@, c, a, b);
            assert(g0(p).len() == p.spans@.filter(a).len());
            assert(g1(p).len() == p.spans@.filter(b).len());
        }
    } else {
        assert(pages.map_values(g0) =~= Seq::<Seq<EvidenceView>>::empty());
        assert(pages.map_values(g1) =~= Seq::<Seq<EvidenceView>>::empty());
        assert(pages.map_values(gc) =~= Seq::<Seq<TextSpan>>::empty());
    }
}

/// The weight check run with and without `invert` (the other settings
/// alike) reports complementary parts of the spans it looks at: the two
/// counts of evidence add up to the number of those spans, and no span is
/// reported by both (see `lemma_weight_invert_complement`).
pub proof fn lemma_weight_invert_counts(doc: Document, without: ParamValue, with: ParamValue)
    requires
        page_param(without) == page_param(with),
        expected_weight(without) == expected_weight(with),
        !flag_at(without, "invert"@),
        flag_at(with, "invert"@),
    ensures
        weight_evidence(doc, without).len() + weight_evidence(doc, with).len() == weight_candidates(
            doc.pages@,
            page_param(without),
        ).len(),
{
    lemma_weight_counts(doc.pages@, page_param(without), expected_weight(without));
}

/// With `page` set, the weight check reports spans of that page only.
pub proof fn lemma_weight_page_filter(doc: Document, params: ParamValue)
    requires
        page_param(params) is Some,
    ensures
        forall|i: int|
            0 <= i < weight_evidence(doc, params).len() ==> (#[trigger] weight_evidence(
                doc,
                params,
            )[i]).page == page_param(params).unwrap() as usize,
{
    lemma_weight_pages_evidence(
        doc.pages@,
        page_param(params).unwrap(),
        expected_weight(params),
        flag_at(params, "invert"@),
    );
}

pub open spec fn weight_outcome(doc: Document, params: ParamValue) -> CheckResultView {
    let ev = weight_evidence(doc, params);
    if ev.len() == 0 {
        CheckResultView {
            check_id: Seq::empty(),
            status: Status::Pass,
            evidence: ev,
            detail: DetailView::FontWeightConforms,
        }
    } else {
        CheckResultView {
            check_id: Seq::empty(),
            status: Status::Fail,
            evidence: ev,
            detail: DetailView::FontWeightViolations(ev.len() as usize),
        }
    }
}

fn weight_of_span(s: &TextSpan) -> (w: Weight)
    ensures
        w == weight_of(*s),
{
    if s.is_bold && s.is_italic {
        Weight::BoldItalic
    } else if s.is_bold {
        Weight::Bold
    } else if s.is_italic {
        Weight::Italic
    } else {
        Weight::Normal
    }
}

fn in_body_band_exec(s: &TextSpan, p: &Page) -> (b: bool)
    ensures
        b == in_body_band(*s, *p),
{
    !((s.bbox.1 as i64) >= (p.height as i64) - 53000 || (s.bbox.0 as i64) < 36000)
}

fn has_text_exec(s: &TextSpan) -> (b: bool)
    ensures
        b == has_text(*s),
{
    trim_chars(&chars_of(s.text.as_str())).len() > 0
}

proof fn lemma_evidence_view_push(v: Seq<EvidenceItem>, e: EvidenceItem)
    ensures
        evidence_view(v.push(e)) == evidence_view(v).push(e@),
{
    assert(evidence_view(v.push(e)) =~= evidence_view(v).push(e@));
}

proof fn lemma_evidence_view_add(a: Seq<EvidenceItem>, b: Seq<EvidenceItem>)
    ensures
        evidence_view(a + b) == evidence_view(a) + evidence_view(b),
{
    assert(evidence_view(a + b) =~= evidence_view(a) + evidence_view(b));
}

fn weight_page_items(page: &Page, expected: &str, invert: bool) -> (r: Vec<EvidenceItem>)
    ensures
        evidence_view(r@) == weight_page_evidence(*page, expected@, invert),
{
    let ghost pred = |s: TextSpan| weight_flagged(s, *page, expected@, invert);
    let ghost f = |s: TextSpan| weight_item(*page, s, expected@, invert);
    let mut out: Vec<EvidenceItem> = Vec::new();
    let mut j: usize = 0;
    while j < page.spans.len()
        invariant
            j <= page.spans@.len(),
            pred == (|s: TextSpan| weight_flagged(s, *page, expected@, invert)),
            f == (|s: TextSpan| weight_item(*page, s, expected@, invert)),
            evidence_view(out@) == page.spans@.take(j as int).filter(pred).map_values(f),
        decreases page.spans@.len() - j,
    {
        let s = &page.spans[j];
        proof {
            assert(page.spans@.take(j + 1) =~= page.spans@.take(j as int).push(*s));
            page.spans@.take(j as int).lemma_filter_push(*s, pred);
        }
        if has_text_exec(s) && in_body_band_exec(s, page) {
            let w = weight_of_span(s);
            let same = same_text(w.as_str(), expected);
            if same == invert {
                let excerpt = if invert {
                    Excerpt::WeightForbidden {
                        text: s.text.clone(),
                        detected: w,
                        expected: String::from_str(expected),
                    }
                } else {
                    Excerpt::WeightMismatch {
                        text: s.text.clone(),
                        detected: w,
                        expected: String::from_str(expected),
                    }
                };
                let item = EvidenceItem { page: page.page_number, bbox: Some(s.bbox), excerpt };
                let ghost before = out@;
                out.push(item);
                proof {
                    lemma_evidence_view_push(before, item);
                    assert(page.spans@.take(j as int).filter(pred).push(*s).map_values(f)
                        =~= page.spans@.take(j as int).filter(pred).map_values(f).push(f(*s)));
                }
            }
        }
        j = j + 1;
    }
    assert(page.spans@.take(page.spans@.len() as int) =~= page.spans@);
    out
}

/// Checks that body text is set in the expected weight (`weight`, default
/// `normal`), or, with `invert`, that none of it is set in that weight;
/// with `page`, only that page is looked at. Spans without text and spans
/// in the header or footer bands are left out.
pub struct FontWeightChecker;

impl Checker for FontWeightChecker {
    open spec fn runs_on(&self, doc: Document) -> bool {
        true
    }

    open spec fn outcome(&self, doc: Document, params: ParamValue) -> CheckResultView {
        weight_outcome(doc, params)
    }

    fn category(&self) -> (r: &'static str)
        ensures
            r@ == "typography"@,
    {
        "typography"
    }

    fn name(&self) -> (r: &'static str)
        ensures
            r@ == "font_weight"@,
    {
        "font_weight"
    }

    #[verifier::rlimit(30)]
    fn check(&self, doc: &Document, params: &ParamValue) -> (r: CheckResult) {
        let expected = match get_str(params, "weight") {
            Some(w) => w,
            None => "normal",
        };
        let target = match params.get("page") {
            Some(v) => v.as_u64(),
            None => None,
        };
        let invert = get_flag(params, "invert");
        let ghost ex = expected_weight(*params);
        let ghost g = |p: Page|
            if page_selected(p, target) {
                weight_page_evidence(p, ex, invert)
            } else {
                Seq::<EvidenceView>::empty()
            };
        assert(expected@ == ex);
        let mut evidence: Vec<EvidenceItem> = Vec::new();
        let mut i: usize = 0;
        while i < doc.pages.len()
            invariant
                i <= doc.pages@.len(),
                expected@ == ex,
                g == (|p: Page|
                    if page_selected(p, target) {
                        weight_page_evidence(p, ex, invert)
                    } else {
                        Seq::<EvidenceView>::empty()
                    }),
                evidence_view(evidence@) == doc.pages@.take(i as int).map_values(g).flatten(),
            decreases doc.pages@.len() - i,
        {
            let page = &doc.pages[i];
            proof {
                assert(doc.pages@.take(i + 1).map_values(g) =~= doc.pages@.take(i as int).map_values(
                    g,
                ).push(g(*page)));
                doc.pages@.take(i as int).map_values(g).lemma_flatten_push(g(*page));
            }
            let selected = match target {
                Some(t) => page.page_number == t as usize,
                None => true,
            };
            if selected {
                let mut items = weight_page_items(page, expected, invert);
                let ghost before = evidence@;
                let ghost added = items@;
                evidence.append(&mut items);
                proof {
                    lemma_evidence_view_add(before, added);
                }
            } else {
                assert(g(*page) =~= Seq::<EvidenceView>::empty());
                assert(evidence_view(evidence@) + Seq::<EvidenceView>::empty() =~= evidence_view(evidence@));
            }
            i = i + 1;
        }
        proof {
            assert(doc.pages@.take(doc.pages@.len() as int) =~= doc.pages@);
        }
        let n = evidence.len();
        if n == 0 {
            CheckResult {
                check_id: String::new(),
                status: Status::Pass,
                evidence,
                detail: Detail::FontWeightConforms,
            }
        } else {
            CheckResult {
                check_id: String::new(),
                status: Status::Fail,
                evidence,
                detail: Detail::FontWeightViolations(n),
            }
        }
    }
}

/// `k` occurs in `keys` and no value occurs more often.
pub open spec fn is_mode<T>(keys: Seq<T>, k: T) -> bool {
    keys.to_multiset().count(k) > 0 && forall|x: T|
        #[trigger] keys.to_multiset().count(x) <= keys.to_multiset().count(k)
}

/// The most frequent key; the smallest of them where several are.
pub open spec fn modal_key(keys: Seq<i64>) -> i64 {
    choose|k: i64| is_mode(keys, k) && forall|x: i64| is_mode(keys, x) ==> k <= x
}

proof fn lemma_best_key_index(keys: Seq<i64>, n: int) -> (j: int)
    requires
        1 <= n <= keys.len(),
    ensures
        0 <= j < n,
        forall|i: int|
            0 <= i < n ==> keys.to_multiset().count(#[trigger] keys[i]) < keys.to_multiset().count(
                keys[j],
            ) || (keys.to_multiset().count(keys[i]) == keys.to_multiset().count(keys[j])
                && keys[j] <= keys[i]),
    decreases n,
{
    let m = keys.to_multiset();
    if n == 1 {
        0
    } else {
        let b = lemma_best_key_index(keys, n - 1);
        let c = n - 1;
        if m.count(keys[c]) > m.count(keys[b]) || (m.count(keys[c]) == m.count(keys[b]) && keys[c]
            < keys[b]) {
            c
        } else {
            b
        }
    }
}

/// The body size is well chosen: a non-empty list of keys has a most
/// frequent key, `modal_key` is one, and it is the smallest of them.
pub proof fn lemma_modal_key_is_mode(keys: Seq<i64>)
    requires
        keys.len() > 0,
    ensures
        is_mode(keys, modal_key(keys)),
        forall|x: i64| is_mode(keys, x) ==> modal_key(keys) <= x,
{
    broadcast use vstd::seq_lib::group_to_multiset_ensures;

    let m = keys.to_multiset();
    let j = lemma_best_key_index(keys, keys.len() as int);
    let k = keys[j];
    assert(m.count(k) > 0);
    assert forall|x: i64| #[trigger] m.count(x) <= m.count(k) by {
        if m.count(x) > 0 {
            let i = choose|i: int| 0 <= i < keys.len() && keys[i] == x;
        }
    }
    assert forall|x: i64| is_mode(keys, x) implies k <= x by {
        let i = choose|i: int| 0 <= i < keys.len() && keys[i] == x;
    }
    assert(is_mode(keys, k) && forall|x: i64| is_mode(keys, x) ==> k <= x);
}

/// The most frequent key of a non-empty list, the smallest of them where
/// several are. The keys are counted in a hash map; the pick then walks
/// the list, so that ties do not depend on the order of the map.
#[verifier::rlimit(30)]
fn most_frequent_key(keys: &Vec<i64>) -> (r: i64)
    requires
        keys@.len() > 0,
    ensures
        r == modal_key(keys@),
        is_mode(keys@, r),
{
    broadcast use vstd::seq_lib::group_to_multiset_ensures;
    broadcast use vstd::std_specs::hash::group_hash_axioms;

    let n = keys.len();
    let mut counts: HashMap<i64, usize> = HashMap::new();
    let mut i: usize = 0;
    while i < n
        invariant
            n == keys@.len(),
            i <= n,
            forall|x: i64| #[trigger] counts@.contains_key(x)
                <==> keys@.take(i as int).to_multiset().count(x) > 0,
            forall|x: i64|
                counts@.contains_key(x) ==> #[trigger] counts@[x] == keys@.take(
                    i as int,
                ).to_multiset().count(x),
            forall|x: i64| counts@.contains_key(x) ==> #[trigger] counts@[x] <= i,
        decreases n - i,
    {
        let x = keys[i];
        assert(keys@.take(i + 1) =~= keys@.take(i as int).push(x));
        proof {
            vstd::seq_lib::to_multiset_build(keys@.take(i as int), x);
        }
        let c: usize = match counts.get(&x) {
            Some(c) => *c,
            None => 0,
        };
        counts.insert(x, c + 1);
        i = i + 1;
    }
    assert(keys@.take(n as int) =~= keys@);
    let ghost m = keys@.to_multiset();
    let mut b: usize = 0;
    let mut best: usize = match counts.get(&keys[0]) {
        Some(c) => *c,
        None => 0,
    };
    let mut e: usize = 1;
    while e < n
        invariant
            n == keys@.len(),
            1 <= e <= n,
            b < e,
            m == keys@.to_multiset(),
            forall|x: i64| #[trigger] counts@.contains_key(x) <==> m.count(x) > 0,
            forall|x: i64| counts@.contains_key(x) ==> #[trigger] counts@[x] == m.count(x),
            best == m.count(keys@[b as int]),
            forall|f: int|
                0 <= f < e ==> m.count(#[trigger] keys@[f]) < best || (m.count(keys@[f]) == best
                    && keys@[b as int] <= keys@[f]),
        decreases n - e,
    {
        let c: usize = match counts.get(&keys[e]) {
            Some(c) => *c,
            None => 0,
        };
        if c > best || (c == best && keys[e] < keys[b]) {
            b = e;
            best = c;
        }
        e = e + 1;
    }
    let r = keys[b];
    proof {
        assert forall|x: i64| #[trigger] m.count(x) <= m.count(r) by {
            if m.count(x) > 0 {
                let f = choose|f: int| 0 <= f < keys@.len() && keys@[f] == x;
                assert(m.count(keys@[f]) <= best);
            }
        }
        assert forall|x: i64| is_mode(keys@, x) implies r <= x by {
            let f = choose|f: int| 0 <= f < keys@.len() && keys@[f] == x;
            assert(m.count(keys@[f]) == m.count(r));
        }
        assert(is_mode(keys@, r));
        let k = modal_key(keys@);
        assert(is_mode(keys@, k) && forall|x: i64| is_mode(keys@, x) ==> k <= x);
        assert(m.count(k) == m.count(r));
        assert(k == r);
    }
    r
}

/// Text that is not running body text: set in a monospace, code or math
/// font (by its name, in lowercase), or shorter than 4 characters once
/// trimmed and without a letter.
pub open spec fn non_body_text(s: TextSpan) -> bool {
    let font = lowercase(s.font_name@);
    let t = trim(s.text@);
    contains_seq(font, "mono"@) || contains_seq(font, "code"@) || contains_seq(font, "math"@) || (
    t.len() < 4 && forall|i: int| 0 <= i < t.len() ==> !alphabetic(#[trigger] t[i]))
}

fn non_body_text_exec(s: &TextSpan) -> (b: bool)
    ensures
        b == non_body_text(*s),
{
    let font = lower_chars(&chars_of(s.font_name.as_str()));
    if contains(&font, &chars_of("mono")) || contains(&font, &chars_of("code")) || contains(
        &font,
        &chars_of("math"),
    ) {
        return true;
    }
    let t = trim_chars(&chars_of(s.text.as_str()));
    if t.len() >= 4 {
        return false;
    }
    let mut i: usize = 0;
    while i < t.len()
        invariant
            i <= t@.len(),
            t@ == trim(s.text@),
            !non_body_text(*s) <== (exists|k: int| 0 <= k < t@.len() && alphabetic(#[trigger] t@[k])),
            forall|k: int| 0 <= k < i ==> !alphabetic(#[trigger] t@[k]),
        decreases t@.len() - i,
    {
        if is_alphabetic(t[i]) {
            assert(alphabetic(t@[i as int]));
            return false;
        }
        i = i + 1;
    }
    true
}

/// A span the size check looks at: running body text (see
/// `non_body_text`) of at least 3 bytes, set at 8.5pt or more.
pub open spec fn size_considered(s: TextSpan, p: Page) -> bool {
    in_body_band(s, p) && trimmed_len(s) >= 3 && s.font_size >= 8500 && !non_body_text(s)
}

/// A configured size that reads as a measurement.
pub open spec fn allowed_size(v: ParamValue) -> Option<i32> {
    match value_str(v) {
        Some(t) => match measurement(t) {
            Ok(x) => Some(x as i32),
            Err(_) => None,
        },
        None => None,
    }
}

/// The allowed sizes: the entries under `allowed` that read as
/// measurements, in their order.
pub open spec fn allowed_sizes(params: ParamValue) -> Seq<i32> {
    list_at(params, "allowed"@).filter_map(|v: ParamValue| allowed_size(v))
}

/// `size` lies within 0.5pt of one of the allowed sizes.
pub open spec fn size_allowed(size: i32, allowed: Seq<i32>) -> bool {
    exists|i: int| 0 <= i < allowed.len() && -500 <= size - #[trigger] allowed[i] <= 500
}

/// A size in tenths of a point, rounded half up, as sizes are counted.
pub open spec fn size_key(size: i32) -> i64 {
    ((size + 50) / 100) as i64
}

/// The size keys of the spans of a page that the check looks at.
pub open spec fn page_size_keys(p: Page) -> Seq<i64> {
    p.spans@.filter(|s: TextSpan| size_considered(s, p)).map_values(
        |s: TextSpan| size_key(s.font_size),
    )
}

/// The size keys of all spans the check looks at, page by page.
pub open spec fn size_keys(doc: Document) -> Seq<i64> {
    doc.pages@.map_values(|p: Page| page_size_keys(p)).flatten()
}

/// More than one size occurs.
pub open spec fn varied<T>(keys: Seq<T>) -> bool {
    exists|i: int| 0 <= i < keys.len() && #[trigger] keys[i] != keys[0]
}

/// The body size: the most frequent size, in thousandths of a point.
pub open spec fn body_size(doc: Document) -> i64 {
    (modal_key(size_keys(doc)) * 100) as i64
}

/// A span set in none of the allowed sizes (where sizes are configured).
pub open spec fn size_not_allowed(s: TextSpan, p: Page, allowed: Seq<i32>) -> bool {
    size_considered(s, p) && allowed.len() > 0 && !size_allowed(s.font_size, allowed)
}

pub open spec fn not_allowed_item(p: Page, s: TextSpan) -> EvidenceView {
    EvidenceView {
        page: p.page_number,
        bbox: Some(s.bbox),
        excerpt: ExcerptView::SizeNotAllowed { text: s.text@, size: s.font_size },
    }
}

pub open spec fn page_not_allowed(p: Page, allowed: Seq<i32>) -> Seq<EvidenceView> {
    p.spans@.filter(|s: TextSpan| size_not_allowed(s, p, allowed)).map_values(
        |s: TextSpan| not_allowed_item(p, s),
    )
}

/// A span in none of the allowed sizes and more than 0.5pt off the body
/// size.
pub open spec fn size_off_body(s: TextSpan, p: Page, allowed: Seq<i32>, body: i64) -> bool {
    size_considered(s, p) && !size_allowed(s.font_size, allowed) && (s.font_size - body > 500
        || body - s.font_size > 500)
}

pub open spec fn off_body_item(p: Page, s: TextSpan, body: i64) -> EvidenceView {
    EvidenceView {
        page: p.page_number,
        bbox: Some(s.bbox),
        excerpt: ExcerptView::SizeOffBody { text: s.text@, size: s.font_size, body_size: body },
    }
}

pub open spec fn page_off_body(p: Page, allowed: Seq<i32>, body: i64) -> Seq<EvidenceView> {
    p.spans@.filter(|s: TextSpan| size_off_body(s, p, allowed, body)).map_values(
        |s: TextSpan| off_body_item(p, s, body),
    )
}

/// The size evidence: spans in no allowed size, then, where `consistent`
/// is set and more than one size occurs, spans off the body size.
pub open spec fn size_evidence(doc: Document, params: ParamValue) -> Seq<EvidenceView> {
    let allowed = allowed_sizes(params);
    let first = doc.pages@.map_values(|p: Page| page_not_allowed(p, allowed)).flatten();
    if flag_at(params, "consistent"@) && varied(size_keys(doc)) {
        first + doc.pages@.map_values(|p: Page| page_off_body(p, allowed, body_size(doc))).flatten()
    } else {
        first
    }
}

pub open spec fn size_outcome(doc: Document, params: ParamValue) -> CheckResultView {
    let ev = size_evidence(doc, params);
    if ev.len() == 0 {
        CheckResultView {
            check_id: Seq::empty(),
            status: Status::Pass,
            evidence: ev,
            detail: DetailView::FontSizeConforms,
        }
    } else {
        CheckResultView {
            check_id: Seq::empty(),
            status: Status::Fail,
            evidence: ev,
            detail: DetailView::FontSizeViolations(ev.len() as usize),
        }
    }
}

/// Every element of the flattened sequence satisfies `pred` when every
/// element of every part does.
proof fn lemma_flatten_all<A>(ss: Seq<Seq<A>>, pred: spec_fn(A) -> bool)
    requires
        forall|i: int, j: int| 0 <= i < ss.len() && 0 <= j < ss[i].len() ==> pred(#[trigger] ss[i][j]),
    ensures
        forall|k: int| 0 <= k < ss.flatten().len() ==> pred(#[trigger] ss.flatten()[k]),
    decreases ss.len(),
{
    if ss.len() == 0 {
        assert(ss.flatten() =~= Seq::<A>::empty());
    } else {
        let rest = ss.drop_last();
        assert forall|i: int, j: int| 0 <= i < rest.len() && 0 <= j < rest[i].len() implies pred(
            #[trigger] rest[i][j],
        ) by {
            assert(rest[i] == ss[i]);
        }
        lemma_flatten_all(rest, pred);
        assert(rest.push(ss.last()) =~= ss);
        rest.lemma_flatten_push(ss.last());
        let f = ss.flatten();
        assert forall|k: int| 0 <= k < f.len() implies pred(#[trigger] f[k]) by {
            if k < rest.flatten().len() {
                assert(f[k] == rest.flatten()[k]);
            } else {
                let j = k - rest.flatten().len();
                assert(f[k] == ss.last()[j]);
                assert(ss[ss.len() - 1][j] == ss.last()[j]);
            }
        }
    }
}

/// A reported size lies more than 0.5pt away from each allowed size.
pub open spec fn far_from_allowed(e: EvidenceView, allowed: Seq<i32>) -> bool {
    match e.excerpt {
        ExcerptView::SizeNotAllowed { size, .. } => forall|i: int|
            0 <= i < allowed.len() ==> size - #[trigger] allowed[i] > 500 || allowed[i] - size > 500,
        ExcerptView::SizeOffBody { size, .. } => forall|i: int|
            0 <= i < allowed.len() ==> size - #[trigger] allowed[i] > 500 || allowed[i] - size > 500,
        _ => false,
    }
}

/// The size check reports no span set within 0.5pt of an allowed size:
/// every piece of its evidence names a size (a span in no allowed size,
/// or one off the body size) more than 0.5pt away from each configured
/// allowed size, whether `consistent` is set or not.
pub proof fn lemma_allowed_sizes_never_reported(doc: Document, params: ParamValue)
    ensures
        forall|k: int|
            0 <= k < size_evidence(doc, params).len() ==> far_from_allowed(
                #[trigger] size_evidence(doc, params)[k],
                allowed_sizes(params),
            ),
{
    let allowed = allowed_sizes(params);
    let pred = |e: EvidenceView| far_from_allowed(e, allowed);
    let na = doc.pages@.map_values(|p: Page| page_not_allowed(p, allowed));
    assert forall|i: int, j: int| 0 <= i < na.len() && 0 <= j < na[i].len() implies pred(
        #[trigger] na[i][j],
    ) by {
        let p = doc.pages@[i];
        let f = p.spans@.filter(|s: TextSpan| size_not_allowed(s, p, allowed));
        p.spans@.filter_lemma(|s: TextSpan| size_not_allowed(s, p, allowed));
        assert(na[i][j] == not_allowed_item(p, f[j]));
        assert(size_not_allowed(f[j], p, allowed));
    }
    lemma_flatten_all(na, pred);
    let body = body_size(doc);
    let ob = doc.pages@.map_values(|p: Page| page_off_body(p, allowed, body));
    assert forall|i: int, j: int| 0 <= i < ob.len() && 0 <= j < ob[i].len() implies pred(
        #[trigger] ob[i][j],
    ) by {
        let p = doc.pages@[i];
        let f = p.spans@.filter(|s: TextSpan| size_off_body(s, p, allowed, body));
        p.spans@.filter_lemma(|s: TextSpan| size_off_body(s, p, allowed, body));
        assert(ob[i][j] == off_body_item(p, f[j], body));
        assert(size_off_body(f[j], p, allowed, body));
    }
    lemma_flatten_all(ob, pred);
    let ev = size_evidence(doc, params);
    assert forall|k: int| 0 <= k < ev.len() implies far_from_allowed(#[trigger] ev[k], allowed) by {
        let first = na.flatten();
        if flag_at(params, "consistent"@) && varied(size_keys(doc)) {
            if k < first.len() {
                assert(ev[k] == first[k]);
                assert(pred(first[k]));
            } else {
                assert(ev[k] == ob.flatten()[k - first.len()]);
                assert(pred(ob.flatten()[k - first.len()]));
            }
        } else {
            assert(pred(first[k]));
        }
    }
}

/// A span set at 8.5pt or more.
pub open spec fn not_small(s: TextSpan) -> bool {
    s.font_size >= 8500
}

/// Two documents alike but for spans set below 8.5pt: the same pages, in
/// the same order, with the same spans of 8.5pt or more, in the same order.
pub open spec fn alike_but_small_spans(a: Document, b: Document) -> bool {
    &&& a.pages@.len() == b.pages@.len()
    &&& forall|i: int|
        0 <= i < a.pages@.len() ==> {
            let p = #[trigger] a.pages@[i];
            let q = b.pages@[i];
            &&& p.page_number == q.page_number
            &&& p.width == q.width
            &&& p.height == q.height
            &&& p.spans@.filter(|s: TextSpan| not_small(s)) == q.spans@.filter(
                |s: TextSpan| not_small(s),
            )
        }
}

proof fn lemma_filter_within<A>(s: Seq<A>, big: spec_fn(A) -> bool, q: spec_fn(A) -> bool)
    requires
        forall|x: A| #[trigger] q(x) ==> big(x),
    ensures
        s.filter(big).filter(q) == s.filter(q),
    decreases s.len(),
{
    if s.len() > 0 {
        let t = s.drop_last();
        lemma_filter_within(t, big, q);
        assert(t.push(s.last()) =~= s);
        t.lemma_filter_push(s.last(), big);
        t.lemma_filter_push(s.last(), q);
        t.filter(big).lemma_filter_push(s.last(), q);
    } else {
        reveal_with_fuel(Seq::filter, 1);
        assert(s.filter(big) =~= s);
    }
}

proof fn lemma_page_sizes_alike(p: Page, q: Page, allowed: Seq<i32>, body: i64)
    requires
        p.page_number == q.page_number,
        p.height == q.height,
        p.spans@.filter(|s: TextSpan| not_small(s)) == q.spans@.filter(|s: TextSpan| not_small(s)),
    ensures
        page_size_keys(p) == page_size_keys(q),
        page_not_allowed(p, allowed) == page_not_allowed(q, allowed),
        page_off_body(p, allowed, body) == page_off_body(q, allowed, body),
{
    let big = |s: TextSpan| not_small(s);
    let kp = |s: TextSpan| size_considered(s, p);
    let kq = |s: TextSpan| size_considered(s, q);
    assert(kp =~= kq);
    lemma_filter_within(p.spans@, big, kp);
    lemma_filter_within(q.spans@, big, kp);
    let ep = |s: TextSpan| size_not_allowed(s, p, allowed);
    let eq = |s: TextSpan| size_not_allowed(s, q, allowed);
    assert(ep =~= eq);
    lemma_filter_within(p.spans@, big, ep);
    lemma_filter_within(q.spans@, big, ep);
    let op = |s: TextSpan| size_off_body(s, p, allowed, body);
    let oq = |s: TextSpan| size_off_body(s, q, allowed, body);
    assert(op =~= oq);
    lemma_filter_within(p.spans@, big, op);
    lemma_filter_within(q.spans@, big, op);
    let fp = |s: TextSpan| not_allowed_item(p, s);
    let fq = |s: TextSpan| not_allowed_item(q, s);
    assert(fp =~= fq);
    let gp = |s: TextSpan| off_body_item(p, s, body);
    let gq = |s: TextSpan| off_body_item(q, s, body);
    assert(gp =~= gq);
}

/// Spans set below 8.5pt do not change the size check: documents alike
/// but for such spans get the same result.
pub proof fn lemma_small_spans_ignored(a: Document, b: Document, params: ParamValue)
    requires
        alike_but_small_spans(a, b),
    ensures
        size_outcome(a, params) == size_outcome(b, params),
{
    let al = allowed_sizes(params);
    assert forall|i: int| 0 <= i < a.pages@.len() implies page_size_keys(#[trigger] a.pages@[i])
        == page_size_keys(b.pages@[i]) && page_not_allowed(a.pages@[i], al) == page_not_allowed(
        b.pages@[i],
        al,
    ) by {
        lemma_page_sizes_alike(a.pages@[i], b.pages@[i], al, 0);
    }
    assert(a.pages@.map_values(|p: Page| page_size_keys(p)) =~= b.pages@.map_values(
        |p: Page| page_size_keys(p),
    ));
    assert(a.pages@.map_values(|p: Page| page_not_allowed(p, al)) =~= b.pages@.map_values(
        |p: Page| page_not_allowed(p, al),
    ));
    assert(size_keys(a) == size_keys(b));
    let body = body_size(a);
    assert forall|i: int| 0 <= i < a.pages@.len() implies page_off_body(
        #[trigger] a.pages@[i],
        al,
        body,
    ) == page_off_body(b.pages@[i], al, body) by {
        lemma_page_sizes_alike(a.pages@[i], b.pages@[i], al, body);
    }
    assert(a.pages@.map_values(|p: Page| page_off_body(p, al, body)) =~= b.pages@.map_values(
        |p: Page| page_off_body(p, al, body),
    ));
    assert(size_evidence(a, params) == size_evidence(b, params));
}

fn allowed_list(params: &ParamValue) -> (r: Vec<i32>)
    ensures
        r@ == allowed_sizes(*params),
{
    let mut r: Vec<i32> = Vec::new();
    let items: &Vec<ParamValue> = match params.get("allowed") {
        Some(v) => match v.as_sequence() {
            Some(items) => items,
            None => {
                assert(r@ =~= allowed_sizes(*params));
                return r;
            },
        },
        None => {
            assert(r@ =~= allowed_sizes(*params));
            return r;
        },
    };
    let ghost f = |v: ParamValue| allowed_size(v);
    let mut i: usize = 0;
    while i < items.len()
        invariant
            i <= items@.len(),
            list_at(*params, "allowed"@) == items@,
            f == (|v: ParamValue| allowed_size(v)),
            r@ == items@.take(i as int).filter_map(f),
        decreases items@.len() - i,
    {
        proof {
            items@.lemma_filter_map_take_succ(f, i as int);
        }
        match items[i].as_str() {
            Some(t) => match parse_measurement(t) {
                Ok(x) => {
                    r.push(x);
                },
                Err(_) => {},
            },
            None => {},
        }
        i = i + 1;
    }
    assert(items@.take(items@.len() as int) =~= items@);
    r
}

fn is_allowed(size: i32, allowed: &Vec<i32>) -> (b: bool)
    ensures
        b == size_allowed(size, allowed@),
{
    let mut i: usize = 0;
    while i < allowed.len()
        invariant
            i <= allowed@.len(),
            forall|k: int| 0 <= k < i ==> !(-500 <= size - #[trigger] allowed@[k] <= 500),
        decreases allowed@.len() - i,
    {
        let d = (size as i64) - (allowed[i] as i64);
        if -500 <= d && d <= 500 {
            return true;
        }
        i = i + 1;
    }
    false
}

fn size_considered_exec(s: &TextSpan, p: &Page) -> (b: bool)
    ensures
        b == size_considered(*s, *p),
{
    if !in_body_band_exec(s, p) {
        return false;
    }
    let t = trim_chars(&chars_of(s.text.as_str()));
    utf8_len_capped(&t, 3) >= 3 && s.font_size >= 8500 && !non_body_text_exec(s)
}

/// The largest size key a span can have.
pub open spec fn max_key() -> i64 {
    21474837
}

fn size_page_scan(page: &Page, allowed: &Vec<i32>) -> (r: (Vec<EvidenceItem>, Vec<i64>))
    ensures
        evidence_view(r.0@) == page_not_allowed(*page, allowed@),
        r.1@ == page_size_keys(*page),
        forall|k: int| 0 <= k < r.1@.len() ==> 0 <= #[trigger] r.1@[k] <= max_key(),
{
    let ghost pk = |s: TextSpan| size_considered(s, *page);
    let ghost fk = |s: TextSpan| size_key(s.font_size);
    let ghost pe = |s: TextSpan| size_not_allowed(s, *page, allowed@);
    let ghost fe = |s: TextSpan| not_allowed_item(*page, s);
    let mut out: Vec<EvidenceItem> = Vec::new();
    let mut keys: Vec<i64> = Vec::new();
    let mut j: usize = 0;
    while j < page.spans.len()
        invariant
            j <= page.spans@.len(),
            pk == (|s: TextSpan| size_considered(s, *page)),
            fk == (|s: TextSpan| size_key(s.font_size)),
            pe == (|s: TextSpan| size_not_allowed(s, *page, allowed@)),
            fe == (|s: TextSpan| not_allowed_item(*page, s)),
            evidence_view(out@) == page.spans@.take(j as int).filter(pe).map_values(fe),
            keys@ == page.spans@.take(j as int).filter(pk).map_values(fk),
            forall|k: int| 0 <= k < keys@.len() ==> 0 <= #[trigger] keys@[k] <= max_key(),
        decreases page.spans@.len() - j,
    {
        let s = &page.spans[j];
        proof {
            assert(page.spans@.take(j + 1) =~= page.spans@.take(j as int).push(*s));
            page.spans@.take(j as int).lemma_filter_push(*s, pk);
            page.spans@.take(j as int).lemma_filter_push(*s, pe);
        }
        if size_considered_exec(s, page) {
            let key: i64 = ((s.font_size as i64) + 50) / 100;
            let ghost kb = keys@;
            keys.push(key);
            proof {
                assert(page.spans@.take(j as int).filter(pk).push(*s).map_values(fk)
                    =~= kb.push(key));
            }
            if allowed.len() > 0 && !is_allowed(s.font_size, allowed) {
                let item = EvidenceItem {
                    page: page.page_number,
                    bbox: Some(s.bbox),
                    excerpt: Excerpt::SizeNotAllowed { text: s.text.clone(), size: s.font_size },
                };
                let ghost before = out@;
                out.push(item);
                proof {
                    lemma_evidence_view_push(before, item);
                    assert(page.spans@.take(j as int).filter(pe).push(*s).map_values(fe)
                        =~= page.spans@.take(j as int).filter(pe).map_values(fe).push(fe(*s)));
                }
            }
        }
        j = j + 1;
    }
    assert(page.spans@.take(page.spans@.len() as int) =~= page.spans@);
    (out, keys)
}

fn size_page_off_body(page: &Page, allowed: &Vec<i32>, body: i64) -> (r: Vec<EvidenceItem>)
    ensures
        evidence_view(r@) == page_off_body(*page, allowed@, body),
{
    let ghost pe = |s: TextSpan| size_off_body(s, *page, allowed@, body);
    let ghost fe = |s: TextSpan| off_body_item(*page, s, body);
    let mut out: Vec<EvidenceItem> = Vec::new();
    let mut j: usize = 0;
    while j < page.spans.len()
        invariant
            j <= page.spans@.len(),
            pe == (|s: TextSpan| size_off_body(s, *page, allowed@, body)),
            fe == (|s: TextSpan| off_body_item(*page, s, body)),
            evidence_view(out@) == page.spans@.take(j as int).filter(pe).map_values(fe),
        decreases page.spans@.len() - j,
    {
        let s = &page.spans[j];
        proof {
            assert(page.spans@.take(j + 1) =~= page.spans@.take(j as int).push(*s));
            page.spans@.take(j as int).lemma_filter_push(*s, pe);
        }
        if size_considered_exec(s, page) && !is_allowed(s.font_size, allowed) {
            let size = s.font_size as i128;
            let b = body as i128;
            if size - b > 500 || b - size > 500 {
                let item = EvidenceItem {
                    page: page.page_number,
                    bbox: Some(s.bbox),
                    excerpt: Excerpt::SizeOffBody {
                        text: s.text.clone(),
                        size: s.font_size,
                        body_size: body,
                    },
                };
                let ghost before = out@;
                out.push(item);
                proof {
                    lemma_evidence_view_push(before, item);
                    assert(page.spans@.take(j as int).filter(pe).push(*s).map_values(fe)
                        =~= page.spans@.take(j as int).filter(pe).map_values(fe).push(fe(*s)));
                }
            }
        }
        j = j + 1;
    }
    assert(page.spans@.take(page.spans@.len() as int) =~= page.spans@);
    out
}

fn is_varied(keys: &Vec<i64>) -> (b: bool)
    ensures
        b == varied(keys@),
{
    let mut i: usize = 1;
    if keys.len() == 0 {
        return false;
    }
    while i < keys.len()
        invariant
            1 <= i <= keys@.len(),
            forall|k: int| 0 <= k < i ==> #[trigger] keys@[k] == keys@[0],
        decreases keys@.len() - i,
    {
        if keys[i] != keys[0] {
            return true;
        }
        i = i + 1;
    }
    false
}

/// Checks font sizes: each body span (running text of at least 3 bytes,
/// 8.5pt or more, outside the header and footer bands) must lie within
/// 0.5pt of one of the `allowed` sizes, where any are given; with
/// `consistent`, spans in no allowed size must also lie within 0.5pt of
/// the most frequent size.
pub struct FontSizeChecker;

impl Checker for FontSizeChecker {
    open spec fn runs_on(&self, doc: Document) -> bool {
        true
    }

    open spec fn outcome(&self, doc: Document, params: ParamValue) -> CheckResultView {
        size_outcome(doc, params)
    }

    fn category(&self) -> (r: &'static str)
        ensures
            r@ == "typography"@,
    {
        "typography"
    }

    fn name(&self) -> (r: &'static str)
        ensures
            r@ == "font_size"@,
    {
        "font_size"
    }

    #[verifier::rlimit(30)]
    fn check(&self, doc: &Document, params: &ParamValue) -> (r: CheckResult) {
        let allowed = allowed_list(params);
        let consistent = get_flag(params, "consistent");
        let ghost al = allowed@;
        let ghost g1 = |p: Page| page_not_allowed(p, al);
        let ghost gk = |p: Page| page_size_keys(p);
        let mut evidence: Vec<EvidenceItem> = Vec::new();
        let mut keys: Vec<i64> = Vec::new();
        let mut i: usize = 0;
        while i < doc.pages.len()
            invariant
                i <= doc.pages@.len(),
                al == allowed@,
                g1 == (|p: Page| page_not_allowed(p, al)),
                gk == (|p: Page| page_size_keys(p)),
                evidence_view(evidence@) == doc.pages@.take(i as int).map_values(g1).flatten(),
                keys@ == doc.pages@.take(i as int).map_values(gk).flatten(),
                forall|k: int| 0 <= k < keys@.len() ==> 0 <= #[trigger] keys@[k] <= max_key(),
            decreases doc.pages@.len() - i,
        {
            let page = &doc.pages[i];
            proof {
                assert(doc.pages@.take(i + 1).map_values(g1) =~= doc.pages@.take(
                    i as int,
                ).map_values(g1).push(g1(*page)));
                assert(doc.pages@.take(i + 1).map_values(gk) =~= doc.pages@.take(
                    i as int,
                ).map_values(gk).push(gk(*page)));
                doc.pages@.take(i as int).map_values(g1).lemma_flatten_push(g1(*page));
                doc.pages@.take(i as int).map_values(gk).lemma_flatten_push(gk(*page));
            }
            let (mut items, mut ks) = size_page_scan(page, &allowed);
            let ghost eb = evidence@;
            let ghost ea = items@;
            let ghost kb = keys@;
            let ghost ka = ks@;
            evidence.append(&mut items);
            keys.append(&mut ks);
            proof {
                lemma_evidence_view_add(eb, ea);
                assert forall|k: int| 0 <= k < keys@.len() implies 0 <= #[trigger] keys@[k]
                    <= max_key() by {
                    if k >= kb.len() {
                        assert(keys@[k] == ka[k - kb.len()]);
                    } else {
                        assert(keys@[k] == kb[k]);
                    }
                }
            }
            i = i + 1;
        }
        proof {
            assert(doc.pages@.take(doc.pages@.len() as int) =~= doc.pages@);
        }
        assert(keys@ == size_keys(*doc));
        if consistent && is_varied(&keys) {
            let key = most_frequent_key(&keys);
            assert(keys@.contains(key)) by {
                broadcast use vstd::seq_lib::group_to_multiset_ensures;
            }
            assert(0 <= key <= max_key()) by {
                let k = choose|k: int| 0 <= k < keys@.len() && keys@[k] == key;
                assert(0 <= keys@[k] <= max_key());
            }
            let body = key * 100;
            assert(body == body_size(*doc));
            let ghost first = evidence_view(evidence@);
            let ghost g2 = |p: Page| page_off_body(p, al, body);
            let mut i: usize = 0;
            while i < doc.pages.len()
                invariant
                    i <= doc.pages@.len(),
                    al == allowed@,
                    g2 == (|p: Page| page_off_body(p, al, body)),
                    evidence_view(evidence@) == first + doc.pages@.take(i as int).map_values(
                        g2,
                    ).flatten(),
                decreases doc.pages@.len() - i,
            {
                let page = &doc.pages[i];
                proof {
                    assert(doc.pages@.take(i + 1).map_values(g2) =~= doc.pages@.take(
                        i as int,
                    ).map_values(g2).push(g2(*page)));
                    doc.pages@.take(i as int).map_values(g2).lemma_flatten_push(g2(*page));
                }
                let mut items = size_page_off_body(page, &allowed, body);
                let ghost eb = evidence@;
                let ghost ea = items@;
                evidence.append(&mut items);
                proof {
                    lemma_evidence_view_add(eb, ea);
                    assert(first + doc.pages@.take(i as int).map_values(g2).flatten() + g2(*page)
                        =~= first + (doc.pages@.take(i as int).map_values(g2).flatten() + g2(
                        *page,
                    )));
                }
                i = i + 1;
            }
            proof {
                assert(doc.pages@.take(doc.pages@.len() as int) =~= doc.pages@);
            }
        }
        let n = evidence.len();
        if n == 0 {
            CheckResult {
                check_id: String::new(),
                status: Status::Pass,
                evidence,
                detail: Detail::FontSizeConforms,
            }
        } else {
            CheckResult {
                check_id: String::new(),
                status: Status::Fail,
                evidence,
                detail: Detail::FontSizeViolations(n),
            }
        }
    }
}

/// The most frequent family; the first in lexicographic order of them
/// where several are.
pub open spec fn modal_family(fams: Seq<Seq<char>>) -> Seq<char> {
    choose|k: Seq<char>| is_mode(fams, k) && forall|x: Seq<char>| is_mode(fams, x) ==> text_le(k, x)
}

pub open spec fn views(v: Seq<Vec<char>>) -> Seq<Seq<char>> {
    v.map_values(|c: Vec<char>| c@)
}

proof fn lemma_best_family_index(fams: Seq<Seq<char>>, n: int) -> (j: int)
    requires
        1 <= n <= fams.len(),
    ensures
        0 <= j < n,
        forall|i: int|
            0 <= i < n ==> fams.to_multiset().count(#[trigger] fams[i]) < fams.to_multiset().count(
                fams[j],
            ) || (fams.to_multiset().count(fams[i]) == fams.to_multiset().count(fams[j])
                && text_le(fams[j], fams[i])),
    decreases n,
{
    let m = fams.to_multiset();
    if n == 1 {
        lemma_text_le_reflexive(fams[0]);
        0
    } else {
        let b = lemma_best_family_index(fams, n - 1);
        let c = n - 1;
        lemma_text_le_reflexive(fams[c]);
        lemma_text_le_total(fams[c], fams[b]);
        if m.count(fams[c]) > m.count(fams[b]) || (m.count(fams[c]) == m.count(fams[b]) && text_le(
            fams[c],
            fams[b],
        )) {
            assert forall|i: int| 0 <= i < n - 1 && m.count(fams[i]) == m.count(fams[c]) implies text_le(
                fams[c],
                #[trigger] fams[i],
            ) by {
                lemma_text_le_transitive(fams[c], fams[b], fams[i]);
            }
            c
        } else {
            b
        }
    }
}

/// The body family is well chosen: a non-empty list of families has a
/// most frequent family, `modal_family` is one, and it comes first in
/// lexicographic order among them.
pub proof fn lemma_modal_family_is_mode(fams: Seq<Seq<char>>)
    requires
        fams.len() > 0,
    ensures
        is_mode(fams, modal_family(fams)),
        forall|x: Seq<char>| is_mode(fams, x) ==> text_le(modal_family(fams), x),
{
    broadcast use vstd::seq_lib::group_to_multiset_ensures;

    let m = fams.to_multiset();
    let j = lemma_best_family_index(fams, fams.len() as int);
    let k = fams[j];
    assert(m.count(k) > 0);
    assert forall|x: Seq<char>| #[trigger] m.count(x) <= m.count(k) by {
        if m.count(x) > 0 {
            let i = choose|i: int| 0 <= i < fams.len() && fams[i] == x;
        }
    }
    assert forall|x: Seq<char>| is_mode(fams, x) implies text_le(k, x) by {
        let i = choose|i: int| 0 <= i < fams.len() && fams[i] == x;
    }
    assert(is_mode(fams, k) && forall|x: Seq<char>| is_mode(fams, x) ==> text_le(k, x));
}

/// The most frequent family of a non-empty list, the first of them in
/// lexicographic order where several are.
#[verifier::rlimit(30)]
fn most_frequent_family(fams: &Vec<Vec<char>>) -> (r: Vec<char>)
    requires
        fams@.len() > 0,
    ensures
        r@ == modal_family(views(fams@)),
        is_mode(views(fams@), r@),
{
    broadcast use vstd::seq_lib::group_to_multiset_ensures;

    let ghost fv = views(fams@);
    let n = fams.len();
    let mut distinct: Vec<Vec<char>> = Vec::new();
    let mut counts: Vec<usize> = Vec::new();
    let mut i: usize = 0;
    while i < n
        invariant
            n == fams@.len(),
            fv == views(fams@),
            i <= n,
            views(distinct@).no_duplicates(),
            counts@.len() == distinct@.len(),
            forall|x: Seq<char>| #[trigger] fv.take(i as int).to_multiset().count(x) > 0
                <==> views(distinct@).contains(x),
            forall|d: int|
                0 <= d < distinct@.len() ==> #[trigger] counts@[d] == fv.take(
                    i as int,
                ).to_multiset().count(distinct@[d]@),
            forall|d: int| 0 <= d < counts@.len() ==> #[trigger] counts@[d] <= i,
        decreases n - i,
    {
        let x = &fams[i];
        let ghost before = fv.take(i as int).to_multiset();
        assert(fv.take(i + 1) =~= fv.take(i as int).push(x@));
        proof {
            vstd::seq_lib::to_multiset_build(fv.take(i as int), x@);
        }
        let ghost old_distinct = views(distinct@);
        let mut d: usize = 0;
        while d < distinct.len() && !same_chars(&distinct[d], x)
            invariant
                d <= distinct@.len(),
                forall|e: int| 0 <= e < d ==> distinct@[e]@ != x@,
            decreases distinct@.len() - d,
        {
            d = d + 1;
        }
        if d < distinct.len() {
            let c = counts[d];
            counts.set(d, c + 1);
            assert(views(distinct@)[d as int] == x@);
        } else {
            assert(!views(distinct@).contains(x@)) by {
                if views(distinct@).contains(x@) {
                    let e = choose|e: int| 0 <= e < views(distinct@).len() && views(distinct@)[e] == x@;
                    assert(distinct@[e]@ == x@);
                }
            }
            distinct.push(x.clone());
            counts.push(1);
            assert(views(distinct@) =~= old_distinct.push(x@));
        }
        assert(views(distinct@) == old_distinct || views(distinct@) == old_distinct.push(x@));
        proof {
            let after = fv.take(i + 1).to_multiset();
            assert(views(distinct@).contains(x@)) by {
                assert(views(distinct@)[d as int] == x@);
            }
            assert forall|y: Seq<char>| views(distinct@).contains(y) implies #[trigger] after.count(y)
                > 0 by {
                if y != x@ {
                    let f = choose|f: int| 0 <= f < views(distinct@).len() && views(distinct@)[f] == y;
                    assert(f < old_distinct.len());
                    assert(old_distinct[f] == y);
                }
            }
            assert forall|y: Seq<char>| #[trigger] after.count(y) > 0 implies views(
                distinct@,
            ).contains(y) by {
                if y != x@ {
                    assert(before.count(y) > 0);
                    let f = old_distinct.index_of(y);
                    assert(views(distinct@)[f] == y);
                }
            }
            assert forall|e: int| 0 <= e < distinct@.len() implies #[trigger] counts@[e]
                == after.count(distinct@[e]@) by {
                assert(views(distinct@)[e] == distinct@[e]@);
            }
        }
        i = i + 1;
    }
    assert(fv.take(n as int) =~= fv);
    let ghost m = fv.to_multiset();
    assert(fv[0] == fams@[0]@);
    assert(m.count(fv[0]) > 0);
    assert(distinct@.len() > 0);
    proof {
        lemma_text_le_reflexive(distinct@[0]@);
    }
    let mut b: usize = 0;
    let mut e: usize = 1;
    while e < distinct.len()
        invariant
            1 <= e <= distinct@.len(),
            b < e,
            counts@.len() == distinct@.len(),
            forall|f: int|
                0 <= f < e ==> #[trigger] counts@[f] < counts@[b as int] || (counts@[f]
                    == counts@[b as int] && text_le(distinct@[b as int]@, distinct@[f]@)),
        decreases distinct@.len() - e,
    {
        let smaller = text_le_exec(&distinct[e], &distinct[b]);
        if counts[e] > counts[b] || (counts[e] == counts[b] && smaller) {
            proof {
                if counts@[e as int] == counts@[b as int] {
                    assert forall|f: int| 0 <= f < e && counts@[f] == counts@[b as int] implies text_le(
                        distinct@[e as int]@,
                        distinct@[f]@,
                    ) by {
                        lemma_text_le_transitive(distinct@[e as int]@, distinct@[b as int]@, distinct@[f]@);
                    }
                }
                lemma_text_le_reflexive(distinct@[e as int]@);
            }
            b = e;
        } else {
            proof {
                lemma_text_le_total(distinct@[e as int]@, distinct@[b as int]@);
            }
        }
        e = e + 1;
    }
    let r = distinct[b].clone();
    proof {
        assert(views(distinct@)[b as int] == r@);
        assert forall|x: Seq<char>| #[trigger] m.count(x) <= m.count(r@) by {
            if m.count(x) > 0 {
                let f = views(distinct@).index_of(x);
                assert(distinct@[f]@ == x);
                assert(counts@[f] == m.count(x));
            }
        }
        assert forall|x: Seq<char>| is_mode(fv, x) implies text_le(r@, x) by {
            let f = views(distinct@).index_of(x);
            assert(distinct@[f]@ == x);
            assert(counts@[f] == m.count(x));
            assert(m.count(x) == m.count(r@));
        }
        assert(is_mode(fv, r@));
        let k = modal_family(fv);
        assert(is_mode(fv, k) && forall|x: Seq<char>| is_mode(fv, x) ==> text_le(k, x));
        assert(m.count(k) == m.count(r@));
        lemma_text_le_antisymmetric(k, r@);
    }
    r
}

/// Families of symbol, code and chart fonts, left out of the family check.
pub open spec fn special_fonts() -> Seq<Seq<char>> {
    seq!["Symbol"@, "Wingdings"@, "CambriaMath"@, "LucidaConsole"@, "ZapfDingbats"@, "Aptos"@]
}

/// The family a span is set in.
pub open spec fn span_family(s: TextSpan) -> Seq<char> {
    family_of(s.font_name@)
}

/// A span the family check looks at: running body text (see
/// `non_body_text`) in a real family that is not a symbol, code or chart
/// font.
pub open spec fn family_considered(s: TextSpan, p: Page) -> bool {
    has_text(s) && in_body_band(s, p) && !non_body_text(s) && !internal_font_name(span_family(s))
        && !special_fonts().contains(span_family(s))
}

/// The allowed families: the strings listed under `allowed`.
pub open spec fn allowed_families(params: ParamValue) -> Seq<Seq<char>> {
    list_at(params, "allowed"@).filter_map(|v: ParamValue| value_str(v))
}

pub open spec fn page_families(p: Page) -> Seq<Seq<char>> {
    p.spans@.filter(|s: TextSpan| family_considered(s, p)).map_values(|s: TextSpan| span_family(s))
}

/// The families of all spans the check looks at, page by page.
pub open spec fn families(doc: Document) -> Seq<Seq<char>> {
    doc.pages@.map_values(|p: Page| page_families(p)).flatten()
}

pub open spec fn family_not_allowed(s: TextSpan, p: Page, allowed: Seq<Seq<char>>) -> bool {
    family_considered(s, p) && allowed.len() > 0 && !allowed.contains(span_family(s))
}

pub open spec fn family_item(p: Page, s: TextSpan) -> EvidenceView {
    EvidenceView {
        page: p.page_number,
        bbox: Some(s.bbox),
        excerpt: ExcerptView::FamilyNotAllowed { text: s.text@, family: span_family(s) },
    }
}

pub open spec fn page_family_not_allowed(p: Page, allowed: Seq<Seq<char>>) -> Seq<EvidenceView> {
    p.spans@.filter(|s: TextSpan| family_not_allowed(s, p, allowed)).map_values(
        |s: TextSpan| family_item(p, s),
    )
}

/// A span in another family than the body family and not in an allowed one.
pub open spec fn family_off_body(
    s: TextSpan,
    p: Page,
    allowed: Seq<Seq<char>>,
    body: Seq<char>,
) -> bool {
    family_considered(s, p) && span_family(s) != body && (allowed.len() == 0 || !allowed.contains(
        span_family(s),
    ))
}

pub open spec fn family_off_item(p: Page, s: TextSpan, body: Seq<char>) -> EvidenceView {
    EvidenceView {
        page: p.page_number,
        bbox: Some(s.bbox),
        excerpt: ExcerptView::FamilyOffBody { text: s.text@, family: span_family(s), body_family: body },
    }
}

pub open spec fn page_family_off_body(p: Page, allowed: Seq<Seq<char>>, body: Seq<char>) -> Seq<
    EvidenceView,
> {
    p.spans@.filter(|s: TextSpan| family_off_body(s, p, allowed, body)).map_values(
        |s: TextSpan| family_off_item(p, s, body),
    )
}

/// The family evidence: spans in no allowed family, then, where
/// `consistent` is set and more than one family occurs, spans off the
/// body family.
pub open spec fn family_evidence(doc: Document, params: ParamValue) -> Seq<EvidenceView> {
    let allowed = allowed_families(params);
    let first = doc.pages@.map_values(|p: Page| page_family_not_allowed(p, allowed)).flatten();
    if flag_at(params, "consistent"@) && varied(families(doc)) {
        first + doc.pages@.map_values(
            |p: Page| page_family_off_body(p, allowed, modal_family(families(doc))),
        ).flatten()
    } else {
        first
    }
}

pub open spec fn family_outcome(doc: Document, params: ParamValue) -> CheckResultView {
    let ev = family_evidence(doc, params);
    if ev.len() == 0 {
        CheckResultView {
            check_id: Seq::empty(),
            status: Status::Pass,
            evidence: ev,
            detail: DetailView::FontFamilyConforms,
        }
    } else {
        CheckResultView {
            check_id: Seq::empty(),
            status: Status::Fail,
            evidence: ev,
            detail: DetailView::FontFamilyViolations(ev.len() as usize),
        }
    }
}

fn allowed_family_list(params: &ParamValue) -> (r: Vec<Vec<char>>)
    ensures
        views(r@) == allowed_families(*params),
{
    let mut r: Vec<Vec<char>> = Vec::new();
    let items: &Vec<ParamValue> = match params.get("allowed") {
        Some(v) => match v.as_sequence() {
            Some(items) => items,
            None => {
                assert(views(r@) =~= allowed_families(*params));
                return r;
            },
        },
        None => {
            assert(views(r@) =~= allowed_families(*params));
            return r;
        },
    };
    let ghost f = |v: ParamValue| value_str(v);
    let mut i: usize = 0;
    while i < items.len()
        invariant
            i <= items@.len(),
            list_at(*params, "allowed"@) == items@,
            f == (|v: ParamValue| value_str(v)),
            views(r@) == items@.take(i as int).filter_map(f),
        decreases items@.len() - i,
    {
        proof {
            items@.lemma_filter_map_take_succ(f, i as int);
        }
        match items[i].as_str() {
            Some(t) => {
                let ghost before = r@;
                r.push(chars_of(t));
                assert(views(r@) =~= views(before) + seq![t@]);
            },
            None => {},
        }
        i = i + 1;
    }
    assert(items@.take(items@.len() as int) =~= items@);
    r
}

fn contains_text(list: &Vec<Vec<char>>, t: &Vec<char>) -> (b: bool)
    ensures
        b == views(list@).contains(t@),
{
    let mut i: usize = 0;
    while i < list.len()
        invariant
            i <= list@.len(),
            forall|k: int| 0 <= k < i ==> #[trigger] list@[k]@ != t@,
        decreases list@.len() - i,
    {
        if same_chars(&list[i], t) {
            assert(views(list@)[i as int] == t@);
            return true;
        }
        i = i + 1;
    }
    proof {
        if views(list@).contains(t@) {
            let k = choose|k: int| 0 <= k < views(list@).len() && views(list@)[k] == t@;
            assert(list@[k]@ == t@);
        }
    }
    false
}

fn is_special_font(f: &Vec<char>) -> (b: bool)
    ensures
        b == special_fonts().contains(f@),
{
    let names: Vec<Vec<char>> = vec![
        chars_of("Symbol"),
        chars_of("Wingdings"),
        chars_of("CambriaMath"),
        chars_of("LucidaConsole"),
        chars_of("ZapfDingbats"),
        chars_of("Aptos"),
    ];
    assert(views(names@) =~= special_fonts());
    contains_text(&names, f)
}

/// The family of a span when the family check looks at it.
fn considered_family(s: &TextSpan, p: &Page) -> (r: Option<Vec<char>>)
    ensures
        match r {
            Some(f) => family_considered(*s, *p) && f@ == span_family(*s),
            None => !family_considered(*s, *p),
        },
{
    if !has_text_exec(s) || !in_body_band_exec(s, p) || non_body_text_exec(s) {
        return None;
    }
    let fam = normalize_family(s.font_name.as_str());
    if is_internal_font_name(fam.as_str()) {
        return None;
    }
    let f = chars_of(fam.as_str());
    if is_special_font(&f) {
        return None;
    }
    Some(f)
}

fn family_page_scan(page: &Page, allowed: &Vec<Vec<char>>) -> (r: (Vec<EvidenceItem>, Vec<Vec<char>>))
    ensures
        evidence_view(r.0@) == page_family_not_allowed(*page, views(allowed@)),
        views(r.1@) == page_families(*page),
{
    let ghost al = views(allowed@);
    let ghost pk = |s: TextSpan| family_considered(s, *page);
    let ghost fk = |s: TextSpan| span_family(s);
    let ghost pe = |s: TextSpan| family_not_allowed(s, *page, al);
    let ghost fe = |s: TextSpan| family_item(*page, s);
    let mut out: Vec<EvidenceItem> = Vec::new();
    let mut fams: Vec<Vec<char>> = Vec::new();
    let mut j: usize = 0;
    while j < page.spans.len()
        invariant
            j <= page.spans@.len(),
            al == views(allowed@),
            pk == (|s: TextSpan| family_considered(s, *page)),
            fk == (|s: TextSpan| span_family(s)),
            pe == (|s: TextSpan| family_not_allowed(s, *page, al)),
            fe == (|s: TextSpan| family_item(*page, s)),
            evidence_view(out@) == page.spans@.take(j as int).filter(pe).map_values(fe),
            views(fams@) == page.spans@.take(j as int).filter(pk).map_values(fk),
        decreases page.spans@.len() - j,
    {
        let s = &page.spans[j];
        proof {
            assert(page.spans@.take(j + 1) =~= page.spans@.take(j as int).push(*s));
            page.spans@.take(j as int).lemma_filter_push(*s, pk);
            page.spans@.take(j as int).lemma_filter_push(*s, pe);
        }
        match considered_family(s, page) {
            Some(f) => {
                let flagged = allowed.len() > 0 && !contains_text(allowed, &f);
                if flagged {
                    let item = EvidenceItem {
                        page: page.page_number,
                        bbox: Some(s.bbox),
                        excerpt: Excerpt::FamilyNotAllowed {
                            text: s.text.clone(),
                            family: string_of(&f),
                        },
                    };
                    let ghost before = out@;
                    out.push(item);
                    proof {
                        lemma_evidence_view_push(before, item);
                        assert(page.spans@.take(j as int).filter(pe).push(*s).map_values(fe)
                            =~= page.spans@.take(j as int).filter(pe).map_values(fe).push(fe(*s)));
                    }
                }
                let ghost fb = fams@;
                fams.push(f);
                proof {
                    assert(views(fams@) =~= views(fb).push(fk(*s)));
                    assert(page.spans@.take(j as int).filter(pk).push(*s).map_values(fk)
                        =~= page.spans@.take(j as int).filter(pk).map_values(fk).push(fk(*s)));
                }
            },
            None => {},
        }
        j = j + 1;
    }
    assert(page.spans@.take(page.spans@.len() as int) =~= page.spans@);
    (out, fams)
}

fn family_page_off_body(page: &Page, allowed: &Vec<Vec<char>>, body: &Vec<char>) -> (r: Vec<
    EvidenceItem,
>)
    ensures
        evidence_view(r@) == page_family_off_body(*page, views(allowed@), body@),
{
    let ghost al = views(allowed@);
    let ghost pe = |s: TextSpan| family_off_body(s, *page, al, body@);
    let ghost fe = |s: TextSpan| family_off_item(*page, s, body@);
    let mut out: Vec<EvidenceItem> = Vec::new();
    let mut j: usize = 0;
    while j < page.spans.len()
        invariant
            j <= page.spans@.len(),
            al == views(allowed@),
            pe == (|s: TextSpan| family_off_body(s, *page, al, body@)),
            fe == (|s: TextSpan| family_off_item(*page, s, body@)),
            evidence_view(out@) == page.spans@.take(j as int).filter(pe).map_values(fe),
        decreases page.spans@.len() - j,
    {
        let s = &page.spans[j];
        proof {
            assert(page.spans@.take(j + 1) =~= page.spans@.take(j as int).push(*s));
            page.spans@.take(j as int).lemma_filter_push(*s, pe);
        }
        match considered_family(s, page) {
            Some(f) => {
                if !same_chars(&f, body) && (allowed.len() == 0 || !contains_text(allowed, &f)) {
                    let item = EvidenceItem {
                        page: page.page_number,
                        bbox: Some(s.bbox),
                        excerpt: Excerpt::FamilyOffBody {
                            text: s.text.clone(),
                            family: string_of(&f),
                            body_family: string_of(body),
                        },
                    };
                    let ghost before = out@;
                    out.push(item);
                    proof {
                        lemma_evidence_view_push(before, item);
                        assert(page.spans@.take(j as int).filter(pe).push(*s).map_values(fe)
                            =~= page.spans@.take(j as int).filter(pe).map_values(fe).push(fe(*s)));
                    }
                }
            },
            None => {},
        }
        j = j + 1;
    }
    assert(page.spans@.take(page.spans@.len() as int) =~= page.spans@);
    out
}

fn families_varied(fams: &Vec<Vec<char>>) -> (b: bool)
    ensures
        b == varied(views(fams@)),
{
    if fams.len() == 0 {
        return false;
    }
    let mut i: usize = 1;
    while i < fams.len()
        invariant
            1 <= i <= fams@.len(),
            forall|k: int| 0 <= k < i ==> #[trigger] fams@[k]@ == fams@[0]@,
        decreases fams@.len() - i,
    {
        if !same_chars(&fams[i], &fams[0]) {
            assert(views(fams@)[i as int] != views(fams@)[0]);
            return true;
        }
        i = i + 1;
    }
    proof {
        assert forall|k: int| 0 <= k < views(fams@).len() implies #[trigger] views(fams@)[k] == views(
            fams@,
        )[0] by {
            assert(fams@[k]@ == fams@[0]@);
        }
    }
    false
}

/// Checks font families: each span of running body text in a real family
/// (not a subset name, not a symbol, code or chart font) must be in one
/// of the `allowed` families, where any are given; with `consistent`,
/// spans in another family than the most frequent one must be in an
/// allowed family.
pub struct FontFamilyChecker;

impl Checker for FontFamilyChecker {
    open spec fn runs_on(&self, doc: Document) -> bool {
        true
    }

    open spec fn outcome(&self, doc: Document, params: ParamValue) -> CheckResultView {
        family_outcome(doc, params)
    }

    fn category(&self) -> (r: &'static str)
        ensures
            r@ == "typography"@,
    {
        "typography"
    }

    fn name(&self) -> (r: &'static str)
        ensures
            r@ == "font_family"@,
    {
        "font_family"
    }

    #[verifier::rlimit(30)]
    fn check(&self, doc: &Document, params: &ParamValue) -> (r: CheckResult) {
        let allowed = allowed_family_list(params);
        let consistent = get_flag(params, "consistent");
        let ghost al = views(allowed@);
        let ghost g1 = |p: Page| page_family_not_allowed(p, al);
        let ghost gk = |p: Page| page_families(p);
        let mut evidence: Vec<EvidenceItem> = Vec::new();
        let mut fams: Vec<Vec<char>> = Vec::new();
        let mut i: usize = 0;
        while i < doc.pages.len()
            invariant
                i <= doc.pages@.len(),
                al == views(allowed@),
                g1 == (|p: Page| page_family_not_allowed(p, al)),
                gk == (|p: Page| page_families(p)),
                evidence_view(evidence@) == doc.pages@.take(i as int).map_values(g1).flatten(),
                views(fams@) == doc.pages@.take(i as int).map_values(gk).flatten(),
            decreases doc.pages@.len() - i,
        {
            let page = &doc.pages[i];
            proof {
                assert(doc.pages@.take(i + 1).map_values(g1) =~= doc.pages@.take(
                    i as int,
                ).map_values(g1).push(g1(*page)));
                assert(doc.pages@.take(i + 1).map_values(gk) =~= doc.pages@.take(
                    i as int,
                ).map_values(gk).push(gk(*page)));
                doc.pages@.take(i as int).map_values(g1).lemma_flatten_push(g1(*page));
                doc.pages@.take(i as int).map_values(gk).lemma_flatten_push(gk(*page));
            }
            let (mut items, mut fs) = family_page_scan(page, &allowed);
            let ghost eb = evidence@;
            let ghost ea = items@;
            let ghost kb = fams@;
            let ghost ka = fs@;
            evidence.append(&mut items);
            fams.append(&mut fs);
            proof {
                lemma_evidence_view_add(eb, ea);
                assert(views(fams@) =~= views(kb) + views(ka));
            }
            i = i + 1;
        }
        proof {
            assert(doc.pages@.take(doc.pages@.len() as int) =~= doc.pages@);
        }
        assert(views(fams@) == families(*doc));
        if consistent && families_varied(&fams) {
            let body = most_frequent_family(&fams);
            let ghost first = evidence_view(evidence@);
            let ghost g2 = |p: Page| page_family_off_body(p, al, body@);
            let mut i: usize = 0;
            while i < doc.pages.len()
                invariant
                    i <= doc.pages@.len(),
                    al == views(allowed@),
                    g2 == (|p: Page| page_family_off_body(p, al, body@)),
                    evidence_view(evidence@) == first + doc.pages@.take(i as int).map_values(
                        g2,
                    ).flatten(),
                decreases doc.pages@.len() - i,
            {
                let page = &doc.pages[i];
                proof {
                    assert(doc.pages@.take(i + 1).map_values(g2) =~= doc.pages@.take(
                        i as int,
                    ).map_values(g2).push(g2(*page)));
                    doc.pages@.take(i as int).map_values(g2).lemma_flatten_push(g2(*page));
                }
                let mut items = family_page_off_body(page, &allowed, &body);
                let ghost eb = evidence@;
                let ghost ea = items@;
                evidence.append(&mut items);
                proof {
                    lemma_evidence_view_add(eb, ea);
                    assert(first + doc.pages@.take(i as int).map_values(g2).flatten() + g2(*page)
                        =~= first + (doc.pages@.take(i as int).map_values(g2).flatten() + g2(
                        *page,
                    )));
                }
                i = i + 1;
            }
            proof {
                assert(doc.pages@.take(doc.pages@.len() as int) =~= doc.pages@);
            }
        }
        let n = evidence.len();
        if n == 0 {
            CheckResult {
                check_id: String::new(),
                status: Status::Pass,
                evidence,
                detail: Detail::FontFamilyConforms,
            }
        } else {
            CheckResult {
                check_id: String::new(),
                status: Status::Fail,
                evidence,
                detail: Detail::FontFamilyViolations(n),
            }
        }
    }
}

} // verus!
