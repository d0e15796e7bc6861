//! Parsing of length settings such as `1.25in` or `12pt`.
use vstd::prelude::*;
use crate::text::{trim, chars_of, trim_chars, min_nat};

verus! {

/// Why a length setting could not be read.
#[derive(Debug, Clone, Copy, PartialEq, Eq, Structural)]
pub enum MeasurementError {
    /// The text before `in` is not a number.
    InvalidInches,
    /// The text before `pt` is not a number.
    InvalidPoints,
    /// The setting ends neither in `in` nor in `pt`.
    Unsupported,
}

/// Thousandths of a point per inch.
pub open spec fn inch_units() -> nat {
    72000
}

/// Thousandths of a point per point.
pub open spec fn point_units() -> nat {
    1000
}

pub open spec fn is_digit(c: char) -> bool {
    '0' <= c && c <= '9'
}

pub open spec fn digit_value(c: char) -> nat {
    (c as u32 - '0' as u32) as nat
}

pub open spec fn all_digits(s: Seq<char>) -> bool {
    forall|i: int| 0 <= i < s.len() ==> is_digit(#[trigger] s[i])
}

pub open spec fn pow10(n: nat) -> nat
    decreases n,
{
    if n == 0 {
        1
    } else {
        10 * pow10((n - 1) as nat)
    }
}

/// The number written by the decimal digits `s`.
pub open spec fn digits_value(s: Seq<char>) -> nat
    decreases s.len(),
{
    if s.len() == 0 {
        0
    } else {
        digit_value(s[0]) * pow10((s.len() - 1) as nat) + digits_value(s.drop_first())
    }
}

/// Position of the first `.` in `s`, or its length where there is none.
pub open spec fn dot_pos(s: Seq<char>) -> nat
    decreases s.len(),
{
    if s.len() == 0 {
        0
    } else if s[0] == '.' {
        0
    } else {
        1 + dot_pos(s.drop_first())
    }
}

/// Position of the first `e` or `E` in `s`, or its length where there is
/// none.
pub open spec fn exp_pos(s: Seq<char>) -> nat
    decreases s.len(),
{
    if s.len() == 0 {
        0
    } else if s[0] == 'e' || s[0] == 'E' {
        0
    } else {
        1 + exp_pos(s.drop_first())
    }
}

/// The digits before and after the point of a decimal `m` written with
/// digits and at most one point, at least one digit in all.
pub open spec fn decimal_digits(m: Seq<char>) -> Option<(Seq<char>, Seq<char>)> {
    let d = dot_pos(m);
    let whole = m.take(d as int);
    let frac = if d < m.len() {
        m.skip(d as int + 1)
    } else {
        Seq::empty()
    };
    if all_digits(whole) && all_digits(frac) && whole.len() + frac.len() > 0 {
        Some((whole, frac))
    } else {
        None
    }
}

/// An exponent: an optional sign followed by at least one digit.
pub open spec fn exponent_value(t: Seq<char>) -> Option<int> {
    let signed = t.len() > 0 && (t[0] == '+' || t[0] == '-');
    let ds = if signed {
        t.drop_first()
    } else {
        t
    };
    if ds.len() > 0 && all_digits(ds) {
        Some(
            if t[0] == '-' {
                -(digits_value(ds) as int)
            } else {
                digits_value(ds) as int
            },
        )
    } else {
        None
    }
}

/// `c` is the letter `w`, in lowercase or capital.
pub open spec fn same_letter(c: char, w: char) -> bool {
    c == w || ('a' <= w && w <= 'z' && c as u32 == (w as u32) - 32)
}

/// `s` spells `word` (in lowercase) in any mix of cases.
pub open spec fn spelled_as(s: Seq<char>, word: Seq<char>) -> bool {
    s.len() == word.len() && forall|i: int| 0 <= i < s.len() ==> same_letter(#[trigger] s[i], word[i])
}

/// A number as `f32::from_str` reads it.
pub enum NumberText {
    /// A decimal: its sign, the digits before and after the point, and
    /// the exponent.
    Finite { neg: bool, whole: Seq<char>, frac: Seq<char>, exp: int },
    /// `inf` or `infinity`, with its sign.
    Infinite { neg: bool },
}

/// How `s` reads as a number: an optional sign, then `inf` or `infinity`
/// in any case, or a decimal with at least one digit followed by an
/// optional exponent (`e` or `E`, an optional sign and digits). `NaN` is
/// not a length.
pub open spec fn number_text(s: Seq<char>) -> Option<NumberText> {
    let neg = s.len() > 0 && s[0] == '-';
    let body = if s.len() > 0 && (s[0] == '+' || s[0] == '-') {
        s.drop_first()
    } else {
        s
    };
    if spelled_as(body, "inf"@) || spelled_as(body, "infinity"@) {
        Some(NumberText::Infinite { neg })
    } else {
        let q = exp_pos(body);
        let exp = if q < body.len() {
            exponent_value(body.skip(q as int + 1))
        } else {
            Some(0int)
        };
        match (decimal_digits(body.take(q as int)), exp) {
            (Some((whole, frac)), Some(e)) => Some(NumberText::Finite { neg, whole, frac, exp: e }),
            _ => None,
        }
    }
}

pub open spec fn clamp_i32(v: int) -> int {
    if v > i32::MAX {
        i32::MAX as int
    } else if v < i32::MIN {
        i32::MIN as int
    } else {
        v
    }
}

/// The length, in thousandths of a point, written by the number `num`
/// in a unit of `unit` thousandths: rounded toward zero to a whole
/// thousandth and held within the range of `i32`; an infinity is held at
/// the end of that range.
pub open spec fn scaled_length(num: Seq<char>, unit: nat) -> Option<int> {
    match number_text(num) {
        Some(NumberText::Finite { neg, whole, frac, exp }) => {
            let mag = shifted(digits_value(whole + frac), unit, exp - frac.len());
            Some(clamp_i32(if neg { -(mag as int) } else { mag as int }))
        },
        Some(NumberText::Infinite { neg }) => Some(
            if neg {
                i32::MIN as int
            } else {
                i32::MAX as int
            },
        ),
        None => None,
    }
}

/// `n` times `unit`, shifted `d` decimal places: multiplied by `10^d`, or,
/// for negative `d`, divided by `10^-d` and rounded down.
pub open spec fn shifted(n: nat, unit: nat, d: int) -> nat {
    if d >= 0 {
        n * unit * pow10(d as nat)
    } else {
        (n * unit) / pow10((-d) as nat)
    }
}

pub open spec fn ends_with(s: Seq<char>, suffix: Seq<char>) -> bool {
    s.len() >= suffix.len() && s.skip(s.len() - suffix.len()) == suffix
}

/// What a length setting reads as, in thousandths of a point: the trimmed
/// text ends in `in` or `pt`, and the trimmed text before that unit reads
/// as a number (see `number_text`).
pub open spec fn measurement(s: Seq<char>) -> Result<int, MeasurementError> {
    let v = trim(s);
    if ends_with(v, "in"@) {
        match scaled_length(trim(v.take(v.len() - 2)), inch_units()) {
            Some(x) => Ok(x),
            None => Err(MeasurementError::InvalidInches),
        }
    } else if ends_with(v, "pt"@) {
        match scaled_length(trim(v.take(v.len() - 2)), point_units()) {
            Some(x) => Ok(x),
            None => Err(MeasurementError::InvalidPoints),
        }
    } else {
        Err(MeasurementError::Unsupported)
    }
}

proof fn lemma_digits_push(s: Seq<char>, c: char)
    requires
        is_digit(c),
    ensures
        digits_value(s.push(c)) == digits_value(s) * 10 + digit_value(c),
    decreases s.len(),
{
    if s.len() == 0 {
        assert(s.push(c).drop_first() =~= Seq::<char>::empty());
        assert(pow10(0) == 1);
        assert(s.push(c)[0] == c);
        assert(digits_value(Seq::<char>::empty()) == 0);
        assert(digits_value(s.push(c)) == digit_value(c) * pow10(0) + digits_value(
            Seq::<char>::empty(),
        ));
    } else {
        let t = s.drop_first();
        lemma_digits_push(t, c);
        assert(s.push(c).drop_first() =~= t.push(c));
        assert(s.push(c)[0] == s[0]);
        let a = digit_value(s[0]);
        let p = pow10((s.len() - 1) as nat);
        assert(pow10(s.len() as nat) == 10 * p);
        assert(digits_value(s.push(c)) == a * pow10(s.len() as nat) + digits_value(t.push(c)));
        assert(digits_value(s) == a * p + digits_value(t));
        assert(a * (10 * p) + (digits_value(t) * 10 + digit_value(c)) == (a * p + digits_value(t))
            * 10 + digit_value(c)) by (nonlinear_arith);
    }
}

proof fn lemma_digits_bound(s: Seq<char>)
    requires
        all_digits(s),
    ensures
        digits_value(s) < pow10(s.len() as nat),
    decreases s.len(),
{
    if s.len() > 0 {
        let t = s.drop_first();
        assert forall|i: int| 0 <= i < t.len() implies is_digit(#[trigger] t[i]) by {
            assert(t[i] == s[i + 1]);
        }
        lemma_digits_bound(t);
        let a = digit_value(s[0]);
        let p = pow10((s.len() - 1) as nat);
        assert(a <= 9);
        assert(a * p + digits_value(t) < 10 * p) by (nonlinear_arith)
            requires
                a <= 9,
                digits_value(t) < p,
        ;
    }
}

proof fn lemma_pow10_pos(n: nat)
    ensures
        pow10(n) > 0,
    decreases n,
{
    if n > 0 {
        lemma_pow10_pos((n - 1) as nat);
    }
}

/// One step of reading fraction digits from the right: with `t` the digits
/// after `d`, the scaled value of `d` followed by `t` is derived from that
/// of `t`.
proof fn lemma_fraction_step(s: Seq<char>, unit: nat)
    requires
        s.len() > 0,
        all_digits(s),
    ensures
        (digits_value(s) * unit) / pow10(s.len() as nat) == (digit_value(s[0]) * unit + (
        digits_value(s.drop_first()) * unit) / pow10((s.len() - 1) as nat)) / 10,
{
    let t = s.drop_first();
    let m = pow10(t.len() as nat);
    lemma_pow10_pos(t.len() as nat);
    let d = digit_value(s[0]);
    let x = digits_value(t) * unit;
    assert(pow10(s.len() as nat) == 10 * m);
    assert(digits_value(s) * unit == (d * unit) * m + x) by (nonlinear_arith)
        requires
            digits_value(s) == d * m + digits_value(t),
            x == digits_value(t) * unit,
    ;
    vstd::arithmetic::div_mod::lemma_div_denominator(((d * unit) * m + x) as int, m as int, 10);
    assert(m * 10 == 10 * m);
    vstd::arithmetic::div_mod::lemma_hoist_over_denominator(x as int, (d * unit) as int, m);
    assert(x as int / m as int + (d * unit) as int == (x + (d * unit) * m) as int / m as int);
    assert(((d * unit) * m + x) == (x + (d * unit) * m));
}

fn digit_of(c: char) -> (d: u64)
    requires
        is_digit(c),
    ensures
        d == digit_value(c),
        d <= 9,
{
    ((c as u32) - ('0' as u32)) as u64
}

fn is_digit_char(c: char) -> (b: bool)
    ensures
        b == is_digit(c),
{
    '0' <= c && c <= '9'
}

/// Cap on the whole part of a number: any whole part this large gives a
/// length beyond the range of `i32` in either unit.
pub open spec fn whole_cap() -> nat {
    3_000_000
}

/// Reads the fraction digits `s[a..b]` scaled by `unit`, rounded down.
fn fraction_value(s: &Vec<char>, a: usize, b: usize, unit: u64) -> (r: Option<u64>)
    requires
        a <= b <= s@.len(),
        unit == inch_units() || unit == point_units(),
    ensures
        match r {
            Some(z) => all_digits(s@.subrange(a as int, b as int)) && z == (digits_value(
                s@.subrange(a as int, b as int),
            ) * (unit as nat)) / pow10((b - a) as nat) && z < unit,
            None => !all_digits(s@.subrange(a as int, b as int)),
        },
{
    let mut q: usize = b;
    let mut z: u64 = 0;
    assert(s@.subrange(b as int, b as int) =~= Seq::<char>::empty());
    while q > a
        invariant
            a <= q <= b <= s@.len(),
            forall|m: int| q <= m < b ==> is_digit(#[trigger] s@[m]),
            z == (digits_value(s@.subrange(q as int, b as int)) * (unit as nat)) / pow10(
                (b - q) as nat,
            ),
            z < unit,
            unit == inch_units() || unit == point_units(),
        decreases q,
    {
        let c = s[q - 1];
        if !is_digit_char(c) {
            assert(s@.subrange(a as int, b as int)[q - 1 - a] == s@[q - 1]);
            return None;
        }
        let d = digit_of(c);
        let ghost t = s@.subrange(q - 1, b as int);
        proof {
            assert forall|m: int| 0 <= m < t.len() implies is_digit(#[trigger] t[m]) by {
                assert(t[m] == s@[q - 1 + m]);
            }
            lemma_fraction_step(t, unit as nat);
            assert(t.drop_first() =~= s@.subrange(q as int, b as int));
            assert(t[0] == c);
        }
        assert(d * unit <= 9 * 72000) by (nonlinear_arith)
            requires
                d <= 9,
                unit <= 72000,
        ;
        z = (d * unit + z) / 10;
        q = q - 1;
    }
    assert forall|m: int| 0 <= m < b - a implies is_digit(
        #[trigger] s@.subrange(a as int, b as int)[m],
    ) by {
        assert(s@.subrange(a as int, b as int)[m] == s@[a + m]);
    }
    Some(z)
}

proof fn lemma_capped_length(w: nat, z: nat, unit: nat, neg: bool)
    requires
        z < unit,
        unit == inch_units() || unit == point_units(),
    ensures
        clamp_i32(
            if neg {
                -((min_nat(w, whole_cap()) * unit + z) as int)
            } else {
                (min_nat(w, whole_cap()) * unit + z) as int
            },
        ) == clamp_i32(
            if neg {
                -((w * unit + z) as int)
            } else {
                (w * unit + z) as int
            },
        ),
{
    if w >= whole_cap() {
        assert(w * unit >= whole_cap() * unit) by (nonlinear_arith)
            requires
                w >= whole_cap(),
        ;
    }
}

proof fn lemma_exp_pos(s: Seq<char>, k: int)
    requires
        0 <= k <= s.len(),
        forall|m: int| 0 <= m < k ==> s[m] != 'e' && s[m] != 'E',
        k == s.len() || s[k] == 'e' || s[k] == 'E',
    ensures
        exp_pos(s) == k,
    decreases k,
{
    if k > 0 {
        let t = s.drop_first();
        assert forall|m: int| 0 <= m < k - 1 implies t[m] != 'e' && t[m] != 'E' by {
            assert(t[m] == s[m + 1]);
        }
        if k < s.len() {
            assert(t[k - 1] == s[k]);
        }
        lemma_exp_pos(t, k - 1);
    }
}

/// The parts of a decimal number with an exponent, found by scanning:
/// the sign takes `k` characters, the exponent mark is at `q` (or `q` is
/// the end), the point at `i` (or `i` is `q`), and the fraction starts at
/// `start`.
proof fn lemma_number_text(s: Seq<char>, k: int, q: int, i: int, start: int)
    requires
        k == (if s.len() > 0 && (s[0] == '+' || s[0] == '-') {
            1int
        } else {
            0int
        }),
        k <= q <= s.len(),
        forall|m: int| k <= m < q ==> s[m] != 'e' && s[m] != 'E',
        q == s.len() || s[q] == 'e' || s[q] == 'E',
        k <= i <= q,
        forall|m: int| k <= m < i ==> s[m] != '.',
        i == q || s[i] == '.',
        start == (if i < q {
            i + 1
        } else {
            q
        }),
        !spelled_as(s.skip(k), "inf"@),
        !spelled_as(s.skip(k), "infinity"@),
    ensures
        number_text(s) == (match (
            if all_digits(s.subrange(k, i)) && all_digits(s.subrange(start, q)) && (i - k) + (q
                - start) > 0 {
                Some((s.subrange(k, i), s.subrange(start, q)))
            } else {
                None
            },
            if q < s.len() {
                exponent_value(s.subrange(q + 1, s.len() as int))
            } else {
                Some(0int)
            },
        ) {
            (Some((w, f)), Some(e)) => Some(
                NumberText::Finite { neg: s.len() > 0 && s[0] == '-', whole: w, frac: f, exp: e },
            ),
            _ => None,
        }),
{
    let body = s.skip(k);
    assert(body =~= if k == 1 {
        s.drop_first()
    } else {
        s
    });
    assert forall|m: int| 0 <= m < q - k implies body[m] != 'e' && body[m] != 'E' by {
        assert(body[m] == s[k + m]);
    }
    if q < s.len() {
        assert(body[q - k] == s[q]);
    }
    lemma_exp_pos(body, q - k);
    let mant = body.take(q - k);
    assert(mant =~= s.subrange(k, q));
    assert forall|m: int| 0 <= m < i - k implies mant[m] != '.' by {
        assert(mant[m] == s[k + m]);
    }
    if i < q {
        assert(mant[i - k] == s[i]);
    }
    lemma_dot_pos(mant, i - k);
    assert(mant.take(i - k) =~= s.subrange(k, i));
    assert((if i - k < mant.len() {
        mant.skip(i - k + 1)
    } else {
        Seq::<char>::empty()
    }) =~= s.subrange(start, q));
    if q < s.len() {
        assert(body.skip(q - k + 1) =~= s.subrange(q + 1, s.len() as int));
    }
}

/// `a` zeros, `d` and `b` zeros, with the point `pp` digits from the
/// left, where `a`, `b` and `pp` put the point `p` digits from the left
/// of `d`: the number read off is `d`'s number shifted `p - len(d)`
/// places.
proof fn lemma_shift_layout(d: Seq<char>, p: int, u: nat, a: nat, b: nat, pp: int)
    requires
        a == (if p < 0 {
            -p
        } else {
            0
        }),
        b == (if p > d.len() {
            p - d.len()
        } else {
            0
        }),
        pp == (if p < 0 {
            0
        } else {
            p
        }),
    ensures
        (digits_value(zeros(a) + d + zeros(b)) * u) / pow10(((zeros(a) + d + zeros(b)).len() - pp) as nat)
            == shifted(digits_value(d), u, p - d.len()),
{
    let n = digits_value(d);
    let l = d.len();
    let v = zeros(a) + d + zeros(b);
    lemma_zeros_value(a);
    lemma_zeros_value(b);
    if p < 0 {
        assert(b == 0);
        assert(v =~= zeros(a) + d);
        lemma_digits_concat(zeros(a), d);
        assert(digits_value(zeros(a)) * pow10(l) == 0);
        assert(digits_value(v) == n);
        assert(v.len() - pp == l - p);
    } else if p <= l {
        assert(v =~= d);
        assert(v.len() - pp == l - p);
        if p == l {
            assert(pow10(0) == 1);
            assert((n * u) / 1 == n * u);
            assert(n * u * 1 == n * u);
        }
    } else {
        assert(a == 0);
        assert(v =~= d + zeros(b));
        lemma_digits_concat(d, zeros(b));
        assert(digits_value(v) == n * pow10(b));
        assert(v.len() - pp == 0);
        assert(pow10(0) == 1);
        assert((n * pow10(b) * u) / 1 == n * pow10(b) * u);
        assert(n * pow10(b) * u == n * u * pow10(b)) by (nonlinear_arith);
    }
}

/// Nothing shifted is nothing.
proof fn lemma_shift_zero(u: nat, d: int)
    ensures
        shifted(0, u, d) == 0,
{
    assert(0 * u == 0);
    if d < 0 {
        lemma_pow10_pos((-d) as nat);
        vstd::arithmetic::div_mod::lemma_div_of0(pow10((-d) as nat) as int);
    } else {
        assert(0 * u * pow10(d as nat) == 0);
    }
}

/// A string of digits is zero exactly when every digit is `0`.
proof fn lemma_digits_zero(x: Seq<char>)
    requires
        all_digits(x),
    ensures
        (forall|m: int| 0 <= m < x.len() ==> x[m] == '0') ==> digits_value(x) == 0,
        (exists|m: int| 0 <= m < x.len() && x[m] != '0') ==> digits_value(x) >= 1,
    decreases x.len(),
{
    if x.len() > 0 {
        let t = x.drop_first();
        assert forall|m: int| 0 <= m < t.len() implies is_digit(#[trigger] t[m]) by {
            assert(t[m] == x[m + 1]);
        }
        lemma_digits_zero(t);
        lemma_pow10_pos((x.len() - 1) as nat);
        if forall|m: int| 0 <= m < x.len() ==> x[m] == '0' {
            assert(x[0] == '0');
            assert(digit_value('0') == 0);
            assert forall|m: int| 0 <= m < t.len() implies t[m] == '0' by {
                assert(t[m] == x[m + 1]);
            }
            assert(digit_value(x[0]) == 0);
            assert(digit_value(x[0]) * pow10((x.len() - 1) as nat) == 0) by (nonlinear_arith)
                requires
                    digit_value(x[0]) == 0,
            ;
        }
        if exists|m: int| 0 <= m < x.len() && x[m] != '0' {
            let m = choose|m: int| 0 <= m < x.len() && x[m] != '0';
            if m == 0 {
                assert(digit_value(x[0]) >= 1);
                assert(digit_value(x[0]) * pow10((x.len() - 1) as nat) >= 1) by (nonlinear_arith)
                    requires
                        digit_value(x[0]) >= 1,
                        pow10((x.len() - 1) as nat) >= 1,
                ;
            } else {
                assert(t[m - 1] == x[m]);
            }
        }
    }
}

/// Whether `s` from index `k` on spells `word` in any mix of cases.
fn spelled_from(s: &Vec<char>, k: usize, word: &str) -> (b: bool)
    requires
        k <= s@.len(),
    ensures
        b == spelled_as(s@.skip(k as int), word@),
{
    let w = chars_of(word);
    let n = s.len();
    if n - k != w.len() {
        return false;
    }
    let mut j: usize = 0;
    while j < w.len()
        invariant
            k <= n == s@.len(),
            n - k == w@.len(),
            w@ == word@,
            j <= w@.len(),
            forall|m: int| 0 <= m < j ==> same_letter(#[trigger] s@.skip(k as int)[m], w@[m]),
        decreases w@.len() - j,
    {
        let c = s[k + j];
        let x = w[j];
        assert(s@.skip(k as int)[j as int] == c);
        if !(c == x || ('a' <= x && x <= 'z' && (c as u32) == (x as u32) - 32)) {
            return false;
        }
        j = j + 1;
    }
    true
}

/// Reads the digits `s[a..b]`, the number held at `cap`.
fn capped_digits(s: &Vec<char>, a: usize, b: usize, cap: u128) -> (r: Option<u128>)
    requires
        a <= b <= s@.len(),
        cap <= 0x1_0000_0000_0000_0000_0000_0000,
    ensures
        match r {
            Some(m) => all_digits(s@.subrange(a as int, b as int)) && m == min_nat(
                digits_value(s@.subrange(a as int, b as int)),
                cap as nat,
            ),
            None => !all_digits(s@.subrange(a as int, b as int)),
        },
{
    let mut m: u128 = 0;
    let mut j: usize = a;
    while j < b
        invariant
            a <= j <= b <= s@.len(),
            cap <= 0x1_0000_0000_0000_0000_0000_0000,
            forall|x: int| a <= x < j ==> is_digit(#[trigger] s@[x]),
            m == min_nat(digits_value(s@.subrange(a as int, j as int)), cap as nat),
        decreases b - j,
    {
        if !is_digit_char(s[j]) {
            assert(s@.subrange(a as int, b as int)[j - a] == s@[j as int]);
            return None;
        }
        let d = digit_of(s[j]);
        proof {
            lemma_digits_push(s@.subrange(a as int, j as int), s@[j as int]);
            assert(s@.subrange(a as int, j + 1) =~= s@.subrange(a as int, j as int).push(
                s@[j as int],
            ));
        }
        if m < cap {
            let m2 = m * 10 + d as u128;
            m = if m2 > cap {
                cap
            } else {
                m2
            };
        }
        j = j + 1;
    }
    assert forall|x: int| 0 <= x < b - a implies is_digit(
        #[trigger] s@.subrange(a as int, b as int)[x],
    ) by {
        assert(s@.subrange(a as int, b as int)[x] == s@[a + x]);
    }
    Some(m)
}

pub open spec fn abs_int(x: int) -> nat {
    if x < 0 {
        (-x) as nat
    } else {
        x as nat
    }
}

/// Reads the exponent `s[a..b]`: whether it is negative and its size, held
/// at `cap`.
fn exponent_of(s: &Vec<char>, a: usize, b: usize, cap: u128) -> (r: Option<(bool, u128)>)
    requires
        a <= b <= s@.len(),
        cap <= 0x1_0000_0000_0000_0000_0000_0000,
    ensures
        match r {
            Some((neg, m)) => match exponent_value(s@.subrange(a as int, b as int)) {
                Some(e) => (if neg {
                    e <= 0
                } else {
                    e >= 0
                }) && m == min_nat(abs_int(e), cap as nat),
                None => false,
            },
            None => exponent_value(s@.subrange(a as int, b as int)) is None,
        },
{
    let ghost t = s@.subrange(a as int, b as int);
    let mut c = a;
    let mut neg = false;
    if a < b && (s[a] == '+' || s[a] == '-') {
        neg = s[a] == '-';
        c = a + 1;
    }
    assert(s@.subrange(c as int, b as int) =~= if c == a + 1 {
        t.drop_first()
    } else {
        t
    });
    if c == b {
        return None;
    }
    match capped_digits(s, c, b, cap) {
        Some(m) => {
            assert(t[0] == s@[a as int]);
            Some((neg, m))
        },
        None => None,
    }
}

/// The digits `s[k..i]` followed by the digits `s[start..q]`.
fn digits_of(s: &Vec<char>, k: usize, i: usize, start: usize, q: usize) -> (r: Vec<char>)
    requires
        k <= i <= s@.len(),
        start <= q <= s@.len(),
    ensures
        r@ == s@.subrange(k as int, i as int) + s@.subrange(start as int, q as int),
{
    let mut r: Vec<char> = Vec::new();
    let mut j: usize = k;
    while j < i
        invariant
            k <= j <= i <= s@.len(),
            r@ =~= s@.subrange(k as int, j as int),
        decreases i - j,
    {
        r.push(s[j]);
        j = j + 1;
    }
    let ghost w = r@;
    let mut j: usize = start;
    while j < q
        invariant
            start <= j <= q <= s@.len(),
            r@ =~= w + s@.subrange(start as int, j as int),
        decreases q - j,
    {
        r.push(s[j]);
        j = j + 1;
    }
    r
}

/// Whether some character of `v` is not `0`.
fn has_nonzero(v: &Vec<char>) -> (b: bool)
    ensures
        b == exists|m: int| 0 <= m < v@.len() && v@[m] != '0',
{
    let mut j: usize = 0;
    while j < v.len()
        invariant
            j <= v@.len(),
            forall|m: int| 0 <= m < j ==> v@[m] == '0',
        decreases v@.len() - j,
    {
        if v[j] != '0' {
            return true;
        }
        j = j + 1;
    }
    false
}

/// `a` zeros, then `d`, then `b` zeros.
fn padded(d: &Vec<char>, a: usize, b: usize) -> (r: Vec<char>)
    ensures
        r@ == zeros(a as nat) + d@ + zeros(b as nat),
{
    let mut r: Vec<char> = Vec::new();
    let mut j: usize = 0;
    while j < a
        invariant
            j <= a,
            r@ =~= zeros(j as nat),
        decreases a - j,
    {
        r.push('0');
        j = j + 1;
    }
    let mut j: usize = 0;
    while j < d.len()
        invariant
            j <= d@.len(),
            r@ =~= zeros(a as nat) + d@.take(j as int),
        decreases d@.len() - j,
    {
        r.push(d[j]);
        j = j + 1;
    }
    assert(d@.take(d@.len() as int) =~= d@);
    let mut j: usize = 0;
    while j < b
        invariant
            j <= b,
            r@ =~= zeros(a as nat) + d@ + zeros(j as nat),
        decreases b - j,
    {
        r.push('0');
        j = j + 1;
    }
    r
}

/// The number of all the digits of `v` with the point after the first
/// `pp`: the whole part, held at `whole_cap()`, in `unit`s, plus the
/// fraction in `unit`s rounded down.
fn point_value(v: &Vec<char>, pp: usize, unit: u64) -> (r: u64)
    requires
        all_digits(v@),
        pp <= v@.len(),
        unit == inch_units() || unit == point_units(),
    ensures
        r == min_nat(digits_value(v@.take(pp as int)), whole_cap()) * (unit as nat) + (digits_value(
            v@.skip(pp as int),
        ) * (unit as nat)) / pow10((v@.len() - pp) as nat),
        r < 3_000_001 * 72000,
{
    assert forall|m: int| 0 <= m < pp implies is_digit(#[trigger] v@.subrange(0, pp as int)[m]) by {
        assert(v@.subrange(0, pp as int)[m] == v@[m]);
    }
    assert forall|m: int| 0 <= m < v@.len() - pp implies is_digit(
        #[trigger] v@.subrange(pp as int, v@.len() as int)[m],
    ) by {
        assert(v@.subrange(pp as int, v@.len() as int)[m] == v@[m + pp]);
    }
    assert(v@.take(pp as int) =~= v@.subrange(0, pp as int));
    assert(v@.skip(pp as int) =~= v@.subrange(pp as int, v@.len() as int));
    let w = match capped_digits(v, 0, pp, 3_000_000) {
        Some(w) => w,
        None => {
            assert(false);
            0
        },
    };
    let z = match fraction_value(v, pp, v.len(), unit) {
        Some(z) => z,
        None => {
            assert(false);
            0
        },
    };
    assert(w * (unit as u128) <= 3_000_000 * 72000) by (nonlinear_arith)
        requires
            w <= 3_000_000,
            unit <= 72000,
    ;
    (w as u64) * unit + z
}

/// A fraction of digits in `unit`s, rounded down, is less than one `unit`.
proof fn lemma_fraction_below_unit(v: Seq<char>, pp: int, unit: nat)
    requires
        all_digits(v),
        0 <= pp <= v.len(),
        unit > 0,
    ensures
        (digits_value(v.skip(pp)) * unit) / pow10((v.len() - pp) as nat) < unit,
{
    let f = v.skip(pp);
    assert(all_digits(f)) by {
        assert forall|m: int| 0 <= m < f.len() implies is_digit(#[trigger] f[m]) by {
            assert(f[m] == v[m + pp]);
        }
    }
    lemma_digits_bound(f);
    assert(f.len() == v.len() - pp);
    let den = pow10((v.len() - pp) as nat);
    lemma_pow10_pos((v.len() - pp) as nat);
    let num = digits_value(f);
    assert(num * unit < den * unit) by (nonlinear_arith)
        requires
            num < den,
            unit > 0,
    ;
    assert((num * unit) / den < unit) by (nonlinear_arith)
        requires
            num * unit < den * unit,
            den > 0,
            unit > 0,
    ;
}

/// The digits `dd`, `wl` of them before the point, read with the exponent
/// `e` (given by its sign and its size held at `len(dd) + 25`), in a unit
/// of `unit`, with the sign `neg`, held within the range of `i32`.
#[verifier::rlimit(40)]
fn scale_digits(
    dd: &Vec<char>,
    wl: usize,
    fl: usize,
    eneg: bool,
    emag: u128,
    Ghost(e): Ghost<int>,
    unit: u64,
    neg: bool,
) -> (r: i32)
    requires
        all_digits(dd@),
        dd@.len() == wl + fl,
        eneg ==> e <= 0,
        !eneg ==> e >= 0,
        emag == min_nat(abs_int(e), (wl + fl + 25) as nat),
        unit == inch_units() || unit == point_units(),
    ensures
        r as int == clamp_i32(
            if neg {
                -(shifted(digits_value(dd@), unit as nat, e - fl) as int)
            } else {
                shifted(digits_value(dd@), unit as nat, e - fl) as int
            },
        ),
{
    let ghost num = digits_value(dd@);
    proof {
        lemma_digits_zero(dd@);
    }
    if !has_nonzero(dd) {
        assert(num == 0);
        proof {
            lemma_shift_zero(unit as nat, e - fl);
        }
        return 0;
    }
    assert(num >= 1);
    if !eneg && emag >= (fl as u128) + 20 {
        proof {
            lemma_shift_saturates(num, unit as nat, e - fl);
        }
        return if neg {
            i32::MIN
        } else {
            i32::MAX
        };
    }
    if eneg && emag >= (wl as u128) + 5 {
        proof {
            lemma_digits_bound(dd@);
            lemma_shift_vanishes(num, unit as nat, dd@.len(), e - fl);
        }
        return 0;
    }
    let ex: i128 = if eneg {
        -(emag as i128)
    } else {
        emag as i128
    };
    assert(ex == e);
    let p: i128 = (wl as i128) + ex;
    let total: i128 = (wl as i128) + (fl as i128);
    let a: usize = if p < 0 {
        (-p) as usize
    } else {
        0
    };
    let b: usize = if p > total {
        (p - total) as usize
    } else {
        0
    };
    let v = padded(dd, a, b);
    assert(v@.len() == v.len());
    assert(p >= 0 ==> p <= v@.len());
    let pp: usize = if p < 0 {
        0
    } else {
        p as usize
    };
    proof {
        lemma_zeros_value(a as nat);
        lemma_zeros_value(b as nat);
        assert forall|m: int| 0 <= m < v@.len() implies is_digit(#[trigger] v@[m]) by {
            if m < a {
                assert(v@[m] == zeros(a as nat)[m]);
            } else if m < a + dd@.len() {
                assert(v@[m] == dd@[m - a]);
            } else {
                assert(v@[m] == zeros(b as nat)[m - a - dd@.len()]);
            }
        }
    }
    let mag = point_value(&v, pp, unit);
    proof {
        lemma_split_point(v@, pp as int, unit as nat);
        lemma_shift_layout(dd@, p as int, unit as nat, a as nat, b as nat, pp as int);
        let frac_part: nat = (digits_value(v@.skip(pp as int)) * (unit as nat)) / pow10(
            (v@.len() - pp) as nat,
        );
        lemma_fraction_below_unit(v@, pp as int, unit as nat);
        lemma_capped_length(digits_value(v@.take(pp as int)), frac_part, unit as nat, neg);
    }
    let val: i64 = if neg {
        -(mag as i64)
    } else {
        mag as i64
    };
    if val > i32::MAX as i64 {
        i32::MAX
    } else if val < i32::MIN as i64 {
        i32::MIN
    } else {
        val as i32
    }
}

/// Where the parts of a number begin: past the sign (`k`), the exponent
/// mark (`q`, or the end), the point (`i`, or `q`) and the fraction.
fn number_marks(s: &Vec<char>, k: usize) -> (r: (usize, usize, usize))
    requires
        k <= s@.len(),
    ensures
        k <= r.0 <= s@.len(),
        forall|m: int| k <= m < r.0 ==> s@[m] != 'e' && s@[m] != 'E',
        r.0 == s@.len() || s@[r.0 as int] == 'e' || s@[r.0 as int] == 'E',
        k <= r.1 <= r.0,
        forall|m: int| k <= m < r.1 ==> s@[m] != '.',
        r.1 == r.0 || s@[r.1 as int] == '.',
        r.2 == (if r.1 < r.0 {
            r.1 + 1
        } else {
            r.0 as int
        }),
{
    let n = s.len();
    let mut q: usize = k;
    while q < n && s[q] != 'e' && s[q] != 'E'
        invariant
            k <= q <= n,
            n == s@.len(),
            forall|m: int| k <= m < q ==> s@[m] != 'e' && s@[m] != 'E',
        decreases n - q,
    {
        q = q + 1;
    }
    let mut i: usize = k;
    while i < q && s[i] != '.'
        invariant
            k <= i <= q <= n,
            n == s@.len(),
            forall|m: int| k <= m < i ==> s@[m] != '.',
        decreases q - i,
    {
        i = i + 1;
    }
    let start = if i < q {
        i + 1
    } else {
        q
    };
    (q, i, start)
}

/// Reads the number `s` in a unit of `unit` thousandths of a point.
fn scale_number(s: &Vec<char>, unit: u64) -> (r: Option<i32>)
    requires
        unit == inch_units() || unit == point_units(),
    ensures
        match r {
            Some(x) => scaled_length(s@, unit as nat) == Some(x as int),
            None => scaled_length(s@, unit as nat) is None,
        },
{
    let n = s.len();
    let mut k: usize = 0;
    let mut neg = false;
    if n > 0 && (s[0] == '+' || s[0] == '-') {
        neg = s[0] == '-';
        k = 1;
    }
    assert(s@.skip(k as int) =~= if k == 1 {
        s@.drop_first()
    } else {
        s@
    });
    if spelled_from(s, k, "inf") || spelled_from(s, k, "infinity") {
        return Some(
            if neg {
                i32::MIN
            } else {
                i32::MAX
            },
        );
    }
    let (q, i, start) = number_marks(s, k);
    proof {
        lemma_number_text(s@, k as int, q as int, i as int, start as int);
    }
    let whole_ok = capped_digits(s, k, i, 1).is_some();
    let frac_ok = capped_digits(s, start, q, 1).is_some();
    if !whole_ok || !frac_ok || (i - k) + (q - start) == 0 {
        return None;
    }
    let wl = i - k;
    let fl = q - start;
    let cap: u128 = (wl as u128) + (fl as u128) + 25;
    let (eneg, emag): (bool, u128) = if q < n {
        match exponent_of(s, q + 1, n, cap) {
            Some(x) => x,
            None => {
                return None;
            },
        }
    } else {
        (false, 0)
    };
    let ghost e: int = if q < n {
        exponent_value(s@.subrange(q + 1, n as int)).unwrap()
    } else {
        0
    };
    let dd = digits_of(s, k, i, start, q);
    let ghost whole = s@.subrange(k as int, i as int);
    let ghost frac = s@.subrange(start as int, q as int);
    assert(all_digits(dd@)) by {
        assert forall|m: int| 0 <= m < dd@.len() implies is_digit(#[trigger] dd@[m]) by {
            if m < whole.len() {
                assert(dd@[m] == whole[m]);
            } else {
                assert(dd@[m] == frac[m - whole.len()]);
            }
        }
    }
    Some(scale_digits(&dd, wl, fl, eneg, emag, Ghost(e), unit, neg))
}

fn ends_with_pair(v: &Vec<char>, a: char, b: char) -> (r: bool)
    ensures
        r == ends_with(v@, seq![a, b]),
{
    let n = v.len();
    if n < 2 {
        return false;
    }
    let r = v[n - 2] == a && v[n - 1] == b;
    assert(r == (v@.skip(n - 2) =~= seq![a, b]));
    r
}

fn drop_last_two(v: &Vec<char>) -> (r: Vec<char>)
    requires
        v@.len() >= 2,
    ensures
        r@ == v@.take(v@.len() - 2),
{
    let mut r: Vec<char> = Vec::new();
    let mut i: usize = 0;
    while i < v.len() - 2
        invariant
            v@.len() >= 2,
            i <= v@.len() - 2,
            r@ =~= v@.take(i as int),
        decreases v@.len() - 2 - i,
    {
        r.push(v[i]);
        i = i + 1;
    }
    r
}

/// Reads a length setting such as `1.25in` or `12pt` as thousandths of a
/// point (see `measurement`). Numbers read as `f32::from_str` reads them
/// (see `number_text`), but for `NaN`, which is no length.
pub fn parse_measurement(value: &str) -> (r: Result<i32, MeasurementError>)
    ensures
        match r {
            Ok(x) => measurement(value@) == Ok::<int, MeasurementError>(x as int),
            Err(e) => measurement(value@) == Err::<int, MeasurementError>(e),
        },
{
    proof {
        reveal_strlit("in");
        reveal_strlit("pt");
    }
    let chars = chars_of(value);
    let v = trim_chars(&chars);
    assert("in"@ =~= seq!['i', 'n']);
    assert("pt"@ =~= seq!['p', 't']);
    if ends_with_pair(&v, 'i', 'n') {
        let num = trim_chars(&drop_last_two(&v));
        match scale_number(&num, 72000) {
            Some(x) => Ok(x),
            None => Err(MeasurementError::InvalidInches),
        }
    } else if ends_with_pair(&v, 'p', 't') {
        let num = trim_chars(&drop_last_two(&v));
        match scale_number(&num, 1000) {
            Some(x) => Ok(x),
            None => Err(MeasurementError::InvalidPoints),
        }
    } else {
        Err(MeasurementError::Unsupported)
    }
}

proof fn lemma_pow10_add(a: nat, b: nat)
    ensures
        pow10(a + b) == pow10(a) * pow10(b),
    decreases a,
{
    if a > 0 {
        let a1 = (a - 1) as nat;
        lemma_pow10_add(a1, b);
        assert(pow10(a) == 10 * pow10(a1));
        assert(pow10(a + b) == 10 * pow10(a1 + b));
        assert(10 * (pow10(a1) * pow10(b)) == (10 * pow10(a1)) * pow10(b)) by (nonlinear_arith);
    } else {
        assert(pow10(0) == 1);
    }
}

proof fn lemma_pow10_mono(a: nat, b: nat)
    requires
        a <= b,
    ensures
        pow10(a) <= pow10(b),
    decreases b,
{
    if a < b {
        lemma_pow10_mono(a, (b - 1) as nat);
        lemma_pow10_pos((b - 1) as nat);
    }
}

/// The digits of `x` followed by those of `y` make `x`'s number shifted
/// left by the length of `y`, plus `y`'s number.
proof fn lemma_digits_concat(x: Seq<char>, y: Seq<char>)
    ensures
        digits_value(x + y) == digits_value(x) * pow10(y.len()) + digits_value(y),
    decreases x.len(),
{
    if x.len() > 0 {
        let t = x.drop_first();
        lemma_digits_concat(t, y);
        let xy = x + y;
        assert(xy.drop_first() =~= t + y);
        assert(xy[0] == x[0]);
        let a = digit_value(x[0]);
        let pt = pow10(t.len());
        let py = pow10(y.len());
        lemma_pow10_add(t.len(), y.len());
        assert(((xy.len() - 1) as nat) == t.len() + y.len());
        assert(digits_value(xy) == a * pow10(((xy.len() - 1) as nat)) + digits_value(xy.drop_first()));
        assert(digits_value(xy) == a * (pt * py) + (digits_value(t) * py + digits_value(y)));
        assert(((x.len() - 1) as nat) == t.len());
        assert(digits_value(x) == a * pt + digits_value(t));
        assert(a * (pt * py) + (digits_value(t) * py + digits_value(y)) == (a * pt + digits_value(t))
            * py + digits_value(y)) by (nonlinear_arith);
    } else {
        assert(x + y =~= y);
        assert(digits_value(x) == 0);
    }
}

/// `a` zero digits.
pub open spec fn zeros(a: nat) -> Seq<char> {
    Seq::new(a, |i: int| '0')
}

proof fn lemma_zeros_value(a: nat)
    ensures
        digits_value(zeros(a)) == 0,
        all_digits(zeros(a)),
    decreases a,
{
    if a > 0 {
        lemma_zeros_value((a - 1) as nat);
        assert(zeros(a).drop_first() =~= zeros((a - 1) as nat));
        assert(zeros(a)[0] == '0');
        assert(digit_value('0') == 0);
    }
    assert forall|i: int| 0 <= i < zeros(a).len() implies is_digit(#[trigger] zeros(a)[i]) by {
        assert(zeros(a)[i] == '0');
    }
}

/// Reading `v` with the point after its first `p` digits: the whole part
/// scaled plus the fraction scaled and rounded down is the number of all
/// the digits scaled and divided by the weight of the fraction.
proof fn lemma_split_point(v: Seq<char>, p: int, u: nat)
    requires
        0 <= p <= v.len(),
    ensures
        digits_value(v.take(p)) * u + (digits_value(v.skip(p)) * u) / pow10((v.len() - p) as nat)
            == (digits_value(v) * u) / pow10((v.len() - p) as nat),
{
    let x = v.take(p);
    let y = v.skip(p);
    assert(x + y =~= v);
    lemma_digits_concat(x, y);
    let m = pow10(y.len());
    lemma_pow10_pos(y.len());
    assert(y.len() == v.len() - p);
    assert(digits_value(v) * u == digits_value(y) * u + (digits_value(x) * u) * m) by (nonlinear_arith)
        requires
            digits_value(v) == digits_value(x) * m + digits_value(y),
    ;
    vstd::arithmetic::div_mod::lemma_hoist_over_denominator(
        (digits_value(y) * u) as int,
        (digits_value(x) * u) as int,
        m,
    );
}

/// A non-zero number scaled by a unit and shifted 20 or more places is
/// beyond the range of `i32`.
proof fn lemma_shift_saturates(n: nat, u: nat, d: int)
    requires
        n >= 1,
        u >= 1,
        d >= 20,
    ensures
        shifted(n, u, d) > 0x8000_0000,
{
    lemma_pow10_mono(20, d as nat);
    assert(pow10(20) == 100_000_000_000_000_000_000nat) by {
        reveal_with_fuel(pow10, 21);
    }
    assert(n * u * pow10(d as nat) >= pow10(d as nat)) by (nonlinear_arith)
        requires
            n >= 1,
            u >= 1,
    ;
}

/// A number of `l` digits scaled by a unit below `10^5` and shifted right
/// `l + 5` places or more is below one.
proof fn lemma_shift_vanishes(n: nat, u: nat, l: nat, d: int)
    requires
        n < pow10(l),
        u < 100_000,
        d <= -((l + 5) as int),
    ensures
        shifted(n, u, d) == 0,
{
    let e = (-d) as nat;
    lemma_pow10_mono(l + 5, e);
    lemma_pow10_add(l, 5);
    assert(pow10(5) == 100_000) by {
        reveal_with_fuel(pow10, 6);
    }
    assert(n * u < pow10(l) * 100_000) by (nonlinear_arith)
        requires
            n < pow10(l),
            u < 100_000,
    ;
    lemma_pow10_pos(e);
    vstd::arithmetic::div_mod::lemma_basic_div((n * u) as int, pow10(e) as int);
}

proof fn lemma_dot_pos(s: Seq<char>, k: int)
    requires
        0 <= k <= s.len(),
        forall|m: int| 0 <= m < k ==> s[m] != '.',
        k == s.len() || s[k] == '.',
    ensures
        dot_pos(s) == k,
    decreases k,
{
    if k > 0 {
        let t = s.drop_first();
        assert forall|m: int| 0 <= m < k - 1 implies t[m] != '.' by {
            assert(t[m] == s[m + 1]);
        }
        if k < s.len() {
            assert(t[k - 1] == s[k]);
        }
        lemma_dot_pos(t, k - 1);
    }
}

} // verus!
