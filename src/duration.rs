use vstd::prelude::*;
use vstd::arithmetic::div_mod::{lemma_div_denominator, lemma_hoist_over_denominator};

verus! {

/// Why a duration string was not accepted.
#[derive(Debug, Clone, Copy, PartialEq, Eq, Structural)]
pub enum DurationError {
    /// Nothing is left once surrounding whitespace is removed.
    EmptyInput,
    /// No known unit suffix; a number that is not a decimal (digits with at
    /// most one point and an optional exponent such as `e3` or `E-2`; `inf`
    /// and `nan` are not decimals); a negative amount; or an amount of seconds
    /// that does not fit in `u32`, which is refused rather than clamped.
    InvalidFormat,
}

/// Seconds in one unit: hours, minutes, and days of a fixed eight-hour workday.
pub open spec fn unit_seconds(c: char) -> Option<nat> {
    if c == 'h' {
        Some(3600)
    } else if c == 'm' {
        Some(60)
    } else if c == 'd' {
        Some(8 * 3600)
    } else {
        None
    }
}

pub open spec fn is_digit(c: char) -> bool {
    '0' <= c && c <= '9'
}

pub open spec fn digit_value(c: char) -> nat {
    ((c as u32) as int - ('0' as u32) as int) as nat
}

pub open spec fn all_digits(s: Seq<char>) -> bool {
    forall|i: int| 0 <= i < s.len() ==> is_digit(#[trigger] s[i])
}

/// The value of a string of decimal digits, most significant first.
pub open spec fn digits_value(s: Seq<char>) -> nat
    decreases s.len(),
{
    if s.len() == 0 {
        0
    } else {
        digits_value(s.drop_last()) * 10 + digit_value(s.last())
    }
}

pub open spec fn pow10(n: nat) -> nat
    decreases n,
{
    if n == 0 {
        1
    } else {
        10 * pow10((n - 1) as nat)
    }
}

/// `floor(factor * 0.d1 d2 ... dk)` for the fraction digits `s`, by Horner's
/// rule from the last digit; `lemma_fraction_scaled_exact` shows that each
/// truncating step gives the same floor as one exact division.
spec fn fraction_scaled(s: Seq<char>, factor: nat) -> nat
    decreases s.len(),
{
    if s.len() == 0 {
        0
    } else {
        (factor * digit_value(s[0]) + fraction_scaled(s.skip(1), factor)) / 10
    }
}

pub open spec fn has_sign(n: Seq<char>) -> bool {
    n.len() > 0 && (n[0] == '+' || n[0] == '-')
}

/// The number without its sign.
pub open spec fn unsigned_part(n: Seq<char>) -> Seq<char> {
    if has_sign(n) {
        n.skip(1)
    } else {
        n
    }
}

/// Where a scan of an unsigned decimal number stands.
#[derive(Debug, Clone, Copy, PartialEq, Eq, Structural)]
pub enum NumberPart {
    Whole,
    Fraction,
    ExponentMark,
    ExponentSign,
    ExponentDigits,
    Rejected,
}

/// What a scan has read of an unsigned decimal number: its digits without the
/// point, how many of them follow the point, and the exponent.
pub struct NumberScan {
    pub part: NumberPart,
    pub digits: Seq<char>,
    pub frac_len: nat,
    pub exp_negative: bool,
    pub exp_digits: Seq<char>,
}

pub open spec fn is_exponent_mark(c: char) -> bool {
    c == 'e' || c == 'E'
}

pub open spec fn scan_with_part(st: NumberScan, part: NumberPart) -> NumberScan {
    NumberScan {
        part,
        digits: st.digits,
        frac_len: st.frac_len,
        exp_negative: st.exp_negative,
        exp_digits: st.exp_digits,
    }
}

pub open spec fn scan_exp_digit(st: NumberScan, c: char) -> NumberScan {
    NumberScan {
        part: NumberPart::ExponentDigits,
        digits: st.digits,
        frac_len: st.frac_len,
        exp_negative: st.exp_negative,
        exp_digits: st.exp_digits.push(c),
    }
}

/// One character of the grammar `digits [. digits] [(e|E) [+|-] digits]`,
/// with at least one digit before the exponent and one in it.
pub open spec fn scan_step(st: NumberScan, c: char) -> NumberScan {
    match st.part {
        NumberPart::Whole => if is_digit(c) {
            NumberScan {
                part: NumberPart::Whole,
                digits: st.digits.push(c),
                frac_len: st.frac_len,
                exp_negative: st.exp_negative,
                exp_digits: st.exp_digits,
            }
        } else if c == '.' {
            scan_with_part(st, NumberPart::Fraction)
        } else if is_exponent_mark(c) && st.digits.len() > 0 {
            scan_with_part(st, NumberPart::ExponentMark)
        } else {
            scan_with_part(st, NumberPart::Rejected)
        },
        NumberPart::Fraction => if is_digit(c) {
            NumberScan {
                part: NumberPart::Fraction,
                digits: st.digits.push(c),
                frac_len: st.frac_len + 1,
                exp_negative: st.exp_negative,
                exp_digits: st.exp_digits,
            }
        } else if is_exponent_mark(c) && st.digits.len() > 0 {
            scan_with_part(st, NumberPart::ExponentMark)
        } else {
            scan_with_part(st, NumberPart::Rejected)
        },
        NumberPart::ExponentMark => if c == '+' {
            scan_with_part(st, NumberPart::ExponentSign)
        } else if c == '-' {
            NumberScan {
                part: NumberPart::ExponentSign,
                digits: st.digits,
                frac_len: st.frac_len,
                exp_negative: true,
                exp_digits: st.exp_digits,
            }
        } else if is_digit(c) {
            scan_exp_digit(st, c)
        } else {
            scan_with_part(st, NumberPart::Rejected)
        },
        NumberPart::ExponentSign | NumberPart::ExponentDigits => if is_digit(c) {
            scan_exp_digit(st, c)
        } else {
            scan_with_part(st, NumberPart::Rejected)
        },
        NumberPart::Rejected => st,
    }
}

pub open spec fn scan_start() -> NumberScan {
    NumberScan {
        part: NumberPart::Whole,
        digits: seq![],
        frac_len: 0,
        exp_negative: false,
        exp_digits: seq![],
    }
}

/// The scan of the whole of `s`, left to right.
pub open spec fn scan(s: Seq<char>) -> NumberScan
    decreases s.len(),
{
    if s.len() == 0 {
        scan_start()
    } else {
        scan_step(scan(s.drop_last()), s.last())
    }
}

/// The scan ended on a complete number.
pub open spec fn scan_accepts(st: NumberScan) -> bool {
    ((st.part == NumberPart::Whole || st.part == NumberPart::Fraction) && st.digits.len() > 0)
        || st.part == NumberPart::ExponentDigits
}

pub open spec fn scan_exponent(st: NumberScan) -> int {
    if st.exp_negative {
        -(digits_value(st.exp_digits) as int)
    } else {
        digits_value(st.exp_digits) as int
    }
}

/// `floor(v * 10^e)`.
pub open spec fn scaled_by_power(v: nat, e: int) -> nat {
    if e >= 0 {
        v * pow10(e as nat)
    } else {
        v / pow10((-e) as nat)
    }
}

/// `factor` times the unsigned decimal `body`, truncated: with `D` its digits
/// read as an integer, `k` of them after the point and exponent `E`, this is
/// `floor(factor * D * 10^(E - k))`. `None` when `body` is not a number.
pub open spec fn magnitude_scaled(body: Seq<char>, factor: nat) -> Option<nat> {
    let st = scan(body);
    if scan_accepts(st) {
        Some(scaled_by_power(factor * digits_value(st.digits), scan_exponent(st) - st.frac_len))
    } else {
        None
    }
}

/// Seconds for the number `n` in a unit of `factor` seconds, truncated toward
/// zero; `None` when `n` is no decimal number or stands for a negative amount.
pub open spec fn number_seconds(n: Seq<char>, factor: nat) -> Option<nat> {
    match magnitude_scaled(unsigned_part(n), factor) {
        Some(m) => if n.len() > 0 && n[0] == '-' && m > 0 {
            None
        } else {
            Some(m)
        },
        None => None,
    }
}

/// What a duration string, already trimmed, stands for in seconds.
pub open spec fn duration_seconds(t: Seq<char>) -> Result<u32, DurationError> {
    if t.len() == 0 {
        Err(DurationError::EmptyInput)
    } else {
        match unit_seconds(t.last()) {
            None => Err(DurationError::InvalidFormat),
            Some(f) => match number_seconds(t.drop_last(), f) {
                Some(v) => if v <= u32::MAX {
                    Ok(v as u32)
                } else {
                    Err(DurationError::InvalidFormat)
                },
                None => Err(DurationError::InvalidFormat),
            },
        }
    }
}

/// The Unicode `White_Space` characters: tab through carriage return, space,
/// next line, no-break space, ogham space mark, en quad through hair space,
/// line and paragraph separators, narrow no-break space, medium mathematical
/// space and ideographic space.
pub open spec fn is_white_space(c: char) -> bool {
    ('\u{9}' <= c && c <= '\u{d}') || c == ' ' || c == '\u{85}' || c == '\u{a0}' || c == '\u{1680}'
        || ('\u{2000}' <= c && c <= '\u{200a}') || c == '\u{2028}' || c == '\u{2029}' || c
        == '\u{202f}' || c == '\u{205f}' || c == '\u{3000}'
}

pub open spec fn trim_start(s: Seq<char>) -> Seq<char>
    decreases s.len(),
{
    if s.len() > 0 && is_white_space(s[0]) {
        trim_start(s.skip(1))
    } else {
        s
    }
}

pub open spec fn trim_end(s: Seq<char>) -> Seq<char>
    decreases s.len(),
{
    if s.len() > 0 && is_white_space(s.last()) {
        trim_end(s.drop_last())
    } else {
        s
    }
}

/// `s` without its leading and trailing white space.
pub open spec fn trimmed(s: Seq<char>) -> Seq<char> {
    trim_end(trim_start(s))
}

/// Relies on `str::trim`: leading and trailing characters with the Unicode
/// `White_Space` property removed.
#[verifier::external_body]
pub(crate) fn trim_whitespace(s: &str) -> (r: &str)
    ensures
        r@ == trimmed(s@),
{
    s.trim()
}

proof fn lemma_digits_front(s: Seq<char>)
    requires
        s.len() >= 1,
    ensures
        digits_value(s) == digit_value(s[0]) * pow10((s.len() - 1) as nat) + digits_value(
            s.skip(1),
        ),
    decreases s.len(),
{
    if s.len() == 1 {
        assert(s.drop_last() =~= Seq::<char>::empty());
        assert(s.skip(1) =~= Seq::<char>::empty());
        assert(digits_value(Seq::<char>::empty()) == 0);
        assert(s.last() == s[0]);
        assert(pow10(0) == 1);
        assert(digits_value(s) == digit_value(s[0]));
        assert(digits_value(s.skip(1)) == 0);
        assert((s.len() - 1) as nat == 0);
        assert(digit_value(s[0]) * pow10(0) == digit_value(s[0]));
    } else {
        let u = s.drop_last();
        lemma_digits_front(u);
        assert(u[0] == s[0]);
        assert(u.skip(1) =~= s.skip(1).drop_last());
        assert(s.skip(1).last() == s.last());
        let d = digit_value(s[0]);
        let p = pow10((s.len() - 2) as nat);
        assert(pow10((s.len() - 1) as nat) == 10 * p);
        let v = digits_value(u.skip(1));
        let l = digit_value(s.last());
        assert(digits_value(s) == digits_value(u) * 10 + l);
        assert(digits_value(s.skip(1)) == v * 10 + l);
        assert(digits_value(u) == d * p + v);
        assert((d * p + v) * 10 + l == d * (10 * p) + (v * 10 + l)) by (nonlinear_arith);
        assert(digits_value(s) == d * pow10((s.len() - 1) as nat) + digits_value(s.skip(1)));
    }
}

/// Truncating at each step of Horner's rule truncates the exact quotient once.
proof fn lemma_fraction_scaled_exact(s: Seq<char>, factor: nat)
    ensures
        fraction_scaled(s, factor) == (factor * digits_value(s)) / pow10(s.len()),
    decreases s.len(),
{
    if s.len() == 0 {
        assert(factor * digits_value(s) == 0) by (nonlinear_arith)
            requires
                digits_value(s) == 0,
        ;
    } else {
        let t = s.skip(1);
        lemma_fraction_scaled_exact(t, factor);
        lemma_digits_front(s);
        lemma_pow10_positive(t.len());
        let d = digit_value(s[0]);
        let p = pow10(t.len());
        let v = digits_value(t);
        assert(pow10(s.len()) == 10 * p);
        let x = factor * d * p + factor * v;
        let dv = digits_value(s);
        assert(dv == d * p + v);
        assert(factor * dv == x) by (nonlinear_arith)
            requires
                dv == d * p + v,
                x == factor * d * p + factor * v,
        ;
        lemma_div_denominator(x as int, p as int, 10);
        lemma_hoist_over_denominator((factor * v) as int, (factor * d) as int, p);
        assert(factor * v + (factor * d) * p == x) by (nonlinear_arith)
            requires
                x == factor * d * p + factor * v,
        ;
        assert(p * 10 == 10 * p);
        assert(x / p == factor * d + (factor * v) / p);
        assert(fraction_scaled(s, factor) == (factor * d + fraction_scaled(t, factor)) / 10);
        assert(fraction_scaled(s, factor) == (x / p) / 10);
        assert(x / (p * 10) == x / pow10(s.len()));
        assert(fraction_scaled(s, factor) == (factor * dv) / pow10(s.len()));
    }
}

proof fn lemma_pow10_positive(n: nat)
    ensures
        pow10(n) >= 1,
    decreases n,
{
    if n > 0 {
        lemma_pow10_positive((n - 1) as nat);
    }
}

proof fn lemma_digits_prefix_le(s: Seq<char>, i: int)
    requires
        0 <= i <= s.len(),
    ensures
        digits_value(s.take(i)) <= digits_value(s),
    decreases s.len(),
{
    if i < s.len() {
        assert(s.drop_last().take(i) =~= s.take(i));
        lemma_digits_prefix_le(s.drop_last(), i);
    } else {
        assert(s.take(i) =~= s);
    }
}

proof fn lemma_fraction_below(s: Seq<char>, factor: nat)
    requires
        all_digits(s),
        factor > 0,
    ensures
        fraction_scaled(s, factor) < factor,
    decreases s.len(),
{
    if s.len() > 0 {
        assert(all_digits(s.skip(1))) by {
            assert forall|i: int| 0 <= i < s.skip(1).len() implies is_digit(
                #[trigger] s.skip(1)[i],
            ) by {
                assert(is_digit(s[i + 1]));
            }
        }
        lemma_fraction_below(s.skip(1), factor);
        assert(is_digit(s[0]));
        let d = digit_value(s[0]);
        assert(d <= 9);
        assert(factor * d <= factor * 9) by (nonlinear_arith)
            requires
                d <= 9,
        ;
    }
}

/// Seconds for a trimmed duration string: a decimal number, optionally signed,
/// followed by one unit character `h`, `m` or `d` (a day is eight hours).
/// The number is digits with at most one point (`1`, `1.5`, `.5`, `2.`),
/// optionally followed by an exponent (`1e2`, `15E-1`, `2.5e+3`); `inf` and
/// `nan` are not decimals. The amount is computed exactly and truncated
/// toward zero. Negative amounts, and amounts whose
/// seconds exceed `u32::MAX`, are refused as `InvalidFormat`.
pub fn parse_trimmed_duration(t: &str) -> (r: Result<u32, DurationError>)
    ensures
        r == duration_seconds(t@),
{
    let n = t.unicode_len();
    if n == 0 {
        return Err(DurationError::EmptyInput);
    }
    let unit = t.get_char(n - 1);
    let factor: u64 = if unit == 'h' {
        3600
    } else if unit == 'm' {
        60
    } else if unit == 'd' {
        8 * 3600
    } else {
        return Err(DurationError::InvalidFormat);
    };
    let num = t.substring_char(0, n - 1);
    assert(num@ =~= t@.drop_last());
    match scaled_number(num, factor) {
        Some(v) => Ok(v),
        None => Err(DurationError::InvalidFormat),
    }
}

pub open spec fn within_u32(o: Option<nat>) -> Option<u32> {
    match o {
        Some(v) => if v <= u32::MAX {
            Some(v as u32)
        } else {
            None
        },
        None => None,
    }
}

/// Whether the amount `m`, read with the given sign, is a duration in `u32` seconds.
pub open spec fn signed_outcome(m: nat, negative: bool) -> Option<u32> {
    if negative && m > 0 {
        None
    } else if m <= u32::MAX {
        Some(m as u32)
    } else {
        None
    }
}

proof fn lemma_push_digit(s: Seq<char>, c: char)
    requires
        all_digits(s),
        is_digit(c),
    ensures
        all_digits(s.push(c)),
{
    assert forall|i: int| 0 <= i < s.push(c).len() implies is_digit(#[trigger] s.push(c)[i]) by {
        if i < s.len() {
            assert(s.push(c)[i] == s[i]);
        }
    }
}

proof fn lemma_pow10_add(a: nat, b: nat)
    ensures
        pow10(a + b) == pow10(a) * pow10(b),
    decreases b,
{
    if b > 0 {
        lemma_pow10_add(a, (b - 1) as nat);
        assert((a + b - 1) as nat == a + (b - 1) as nat);
        assert(pow10(a + b) == 10 * pow10((a + b - 1) as nat));
        let x = pow10(a);
        let y = pow10((b - 1) as nat);
        assert(pow10(b) == 10 * y);
        assert(pow10(a + (b - 1) as nat) == x * y);
        assert(10 * (x * y) == x * (10 * y)) by (nonlinear_arith);
    } else {
        assert(pow10(0) == 1);
        assert(a + b == a);
        assert(pow10(a) * 1 == pow10(a));
    }
}

proof fn lemma_pow10_mono(a: nat, b: nat)
    requires
        a <= b,
    ensures
        pow10(a) <= pow10(b),
{
    lemma_pow10_add(a, (b - a) as nat);
    lemma_pow10_positive((b - a) as nat);
    let x = pow10(a);
    let y = pow10((b - a) as nat);
    assert(x <= x * y) by (nonlinear_arith)
        requires
            y >= 1,
    ;
}

proof fn lemma_digits_concat(a: Seq<char>, b: Seq<char>)
    ensures
        digits_value(a + b) == digits_value(a) * pow10(b.len()) + digits_value(b),
    decreases b.len(),
{
    if b.len() == 0 {
        assert(a + b =~= a);
        assert(pow10(0) == 1);
        assert(digits_value(b) == 0);
        assert(digits_value(a) * 1 == digits_value(a));
    } else {
        lemma_digits_concat(a, b.drop_last());
        assert((a + b).drop_last() =~= a + b.drop_last());
        assert((a + b).last() == b.last());
        let x = digits_value(a);
        let p = pow10((b.len() - 1) as nat);
        let y = digits_value(b.drop_last());
        assert(pow10(b.len()) == 10 * p);
        assert((x * p + y) * 10 == x * (10 * p) + y * 10) by (nonlinear_arith);
    }
}

proof fn lemma_digits_below(s: Seq<char>)
    requires
        all_digits(s),
    ensures
        digits_value(s) < pow10(s.len()),
    decreases s.len(),
{
    if s.len() > 0 {
        assert(all_digits(s.drop_last())) by {
            assert forall|i: int| 0 <= i < s.drop_last().len() implies is_digit(
                #[trigger] s.drop_last()[i],
            ) by {
                assert(s.drop_last()[i] == s[i]);
            }
        }
        lemma_digits_below(s.drop_last());
        assert(is_digit(s[s.len() - 1]));
        let x = digits_value(s.drop_last());
        let p = pow10((s.len() - 1) as nat);
        assert(x * 10 + 9 < 10 * p) by (nonlinear_arith)
            requires
                x < p,
        ;
    }
}

/// With `j + s` digits in all, dividing by `10^s` leaves the first `j` as the
/// whole part.
proof fn lemma_split_quotient(ds: Seq<char>, j: nat, f: nat, s: nat)
    requires
        j + s == ds.len(),
    ensures
        (f * digits_value(ds)) / pow10(s) == f * digits_value(ds.take(j as int)) + (f
            * digits_value(ds.skip(j as int))) / pow10(s),
{
    assert(ds.take(j as int) + ds.skip(j as int) =~= ds);
    lemma_digits_concat(ds.take(j as int), ds.skip(j as int));
    lemma_pow10_positive(s);
    let a = digits_value(ds.take(j as int));
    let b = digits_value(ds.skip(j as int));
    let p = pow10(s);
    assert(f * digits_value(ds) == f * b + (f * a) * p) by (nonlinear_arith)
        requires
            digits_value(ds) == a * p + b,
    ;
    lemma_hoist_over_denominator((f * b) as int, (f * a) as int, p);
}

/// Exponents beyond `len + 20` either way give the same outcome as that bound.
proof fn lemma_far_exponent(v: nat, len: nat, d: nat, f: nat, e1: int, e2: int, negative: bool)
    requires
        v == f * d,
        d < pow10(len),
        f <= 28800,
        (e1 >= 10 && e2 >= 10) || (e1 <= -(len + 5) && e2 <= -(len + 5)),
    ensures
        signed_outcome(scaled_by_power(v, e1), negative) == signed_outcome(
            scaled_by_power(v, e2),
            negative,
        ),
{
    reveal_with_fuel(pow10, 11);
    assert(pow10(10) == 10000000000);
    if e1 >= 10 {
        lemma_pow10_mono(10, e1 as nat);
        lemma_pow10_mono(10, e2 as nat);
        let p1 = pow10(e1 as nat);
        let p2 = pow10(e2 as nat);
        if v > 0 {
            assert(v * p1 >= p1 && v * p2 >= p2) by (nonlinear_arith)
                requires
                    v >= 1,
            ;
        } else {
            assert(v * p1 == 0 && v * p2 == 0) by (nonlinear_arith)
                requires
                    v == 0,
            ;
        }
    } else {
        lemma_pow10_add(len, 5);
        assert(pow10(5) == 100000);
        let p = pow10(len);
        assert(v < p * 100000) by (nonlinear_arith)
            requires
                v == f * d,
                d < p,
                f <= 28800,
        ;
        lemma_pow10_mono(len + 5, (-e1) as nat);
        lemma_pow10_mono(len + 5, (-e2) as nat);
        let q1 = pow10((-e1) as nat);
        let q2 = pow10((-e2) as nat);
        assert(v / q1 == 0) by (nonlinear_arith)
            requires
                v < q1,
        ;
        assert(v / q2 == 0) by (nonlinear_arith)
            requires
                v < q2,
        ;
    }
}

/// `floor(factor * D * 10^net)` for the digits `ds`, as a signed duration.
fn scaled_digits(ds: &Vec<char>, factor: u64, net: i128, negative: bool) -> (r: Option<u32>)
    requires
        all_digits(ds@),
        60 <= factor <= 28800,
        -(2 * ds.len() + 40) <= net <= 2 * ds.len() + 40,
    ensures
        r == signed_outcome(
            scaled_by_power(factor as nat * digits_value(ds@), net as int),
            negative,
        ),
{
    let ghost f = factor as nat;
    let ghost d = digits_value(ds@);
    let len = ds.len();
    if net >= 0 {
        let ghost m = scaled_by_power(f * d, net as int);
        proof {
            lemma_pow10_positive(net as nat);
            assert(m >= d) by (nonlinear_arith)
                requires
                    m == f * d * pow10(net as nat),
                    f >= 1,
                    pow10(net as nat) >= 1,
            ;
        }
        let mut v: u64 = 0;
        let mut i: usize = 0;
        while i < len
            invariant
                len == ds.len(),
                all_digits(ds@),
                i <= len,
                v as nat == digits_value(ds@.take(i as int)),
                v <= u32::MAX,
                m >= d,
                f == factor as nat,
                d == digits_value(ds@),
                m == scaled_by_power(f * d, net as int),
            decreases len - i,
        {
            let c = ds[i];
            assert(ds@.take(i + 1).drop_last() =~= ds@.take(i as int));
            assert(ds@.take(i + 1).last() == c);
            assert(is_digit(ds@[i as int]));
            v = v * 10 + (c as u32 - '0' as u32) as u64;
            i = i + 1;
            if v > u32::MAX as u64 {
                proof {
                    lemma_digits_prefix_le(ds@, i as int);
                    assert(v as nat == digits_value(ds@.take(i as int)));
                    assert(m > u32::MAX);
                    assert(m == scaled_by_power(factor as nat * digits_value(ds@), net as int));
                }
                return None;
            }
        }
        assert(ds@.take(len as int) =~= ds@);
        assert(v * factor <= 4294967295u64 * 28800) by (nonlinear_arith)
            requires
                v <= 4294967295u64,
                factor <= 28800,
        ;
        assert(f * d * pow10(0) == f * d) by {
            assert(pow10(0) == 1);
        }
        assert(v * factor == f * d) by (nonlinear_arith)
            requires
                v == d,
                f == factor,
        ;
        let mut val: u64 = v * factor;
        let mut t: u128 = 0;
        loop
            invariant
                0 <= net,
                t <= net,
                val as nat == f * d * pow10(t as nat),
                val <= 4294967295u64 * 28800,
                m == f * d * pow10(net as nat),
                m == scaled_by_power(f * d, net as int),
                f == factor as nat,
                d == digits_value(ds@),
            ensures
                val <= u32::MAX,
                t == net,
            decreases net - t,
        {
            if val > u32::MAX as u64 {
                proof {
                    let n1 = t as nat;
                    let n2 = (net - t) as nat;
                    assert(n1 + n2 == net as nat);
                    lemma_pow10_add(n1, n2);
                    lemma_pow10_positive(n2);
                    let x = pow10(n1);
                    let y = pow10(n2);
                    assert(pow10(net as nat) == x * y);
                    assert(m >= val) by (nonlinear_arith)
                        requires
                            y >= 1,
                            m == f * d * (x * y),
                            val == f * d * x,
                    ;
                    assert(m > u32::MAX);
                }
                return None;
            }
            if t == net as u128 {
                break;
            }
            proof {
                assert(f * d * (10 * pow10(t as nat)) == (f * d * pow10(t as nat)) * 10)
                    by (nonlinear_arith);
                assert(pow10((t + 1) as nat) == 10 * pow10(t as nat));
            }
            val = val * 10;
            t = t + 1;
        }
        assert(val <= u32::MAX);
        assert(val == m);
        if negative && val > 0 {
            None
        } else {
            Some(val as u32)
        }
    } else {
        let s: u128 = (-net) as u128;
        let j: usize = if s < len as u128 {
            len - s as usize
        } else {
            0
        };
        let ghost sn = s as nat;
        let ghost m = scaled_by_power(f * d, net as int);
        assert(m == (f * d) / pow10(sn));
        proof {
            lemma_pow10_positive(sn);
            if j > 0 {
                lemma_split_quotient(ds@, j as nat, f, sn);
            }
        }
        // digits before the point
        let mut a: u64 = 0;
        let mut i: usize = 0;
        while i < j
            invariant
                len == ds.len(),
                j <= len,
                all_digits(ds@),
                i <= j,
                a as nat == digits_value(ds@.take(i as int)),
                a <= u32::MAX,
                f == factor as nat,
                60 <= factor <= 28800,
                m == scaled_by_power(f * d, net as int),
                m == (f * d) / pow10(sn),
                d == digits_value(ds@),
                j > 0 ==> m == f * digits_value(ds@.take(j as int)) + (f * digits_value(
                    ds@.skip(j as int),
                )) / pow10(sn),
            decreases j - i,
        {
            let c = ds[i];
            assert(ds@.take(i + 1).drop_last() =~= ds@.take(i as int));
            assert(ds@.take(i + 1).last() == c);
            assert(is_digit(ds@[i as int]));
            a = a * 10 + (c as u32 - '0' as u32) as u64;
            i = i + 1;
            if a > u32::MAX as u64 {
                proof {
                    assert(ds@.take(j as int).take(i as int) =~= ds@.take(i as int));
                    lemma_digits_prefix_le(ds@.take(j as int), i as int);
                    let w = digits_value(ds@.take(j as int));
                    assert(f * w >= w) by (nonlinear_arith)
                        requires
                            f >= 1,
                    ;
                    assert(a as nat == digits_value(ds@.take(i as int)));
                    assert(j > 0);
                    lemma_pow10_positive(sn);
                    let y = f * digits_value(ds@.skip(j as int));
                    let p = pow10(sn);
                    assert(y / p >= 0) by (nonlinear_arith)
                        requires
                            y >= 0,
                            p >= 1,
                    ;
                    assert(m >= f * w);
                    assert(m > u32::MAX);
                }
                return None;
            }
        }
        // digits after the point, from the last one back
        let mut q: u64 = 0;
        let mut idx: usize = len;
        while idx > j
            invariant
                len == ds.len(),
                j <= idx <= len,
                all_digits(ds@),
                all_digits(ds@.subrange(idx as int, len as int)),
                q as nat == fraction_scaled(ds@.subrange(idx as int, len as int), f),
                q < factor,
                60 <= factor <= 28800,
                f == factor as nat,
            decreases idx,
        {
            let c = ds[idx - 1];
            let ghost tail = ds@.subrange(idx as int, len as int);
            let ghost ext = ds@.subrange(idx - 1, len as int);
            assert(ext.skip(1) =~= tail);
            assert(ext[0] == c);
            assert(is_digit(ds@[idx - 1]));
            assert(all_digits(ext)) by {
                assert forall|k: int| 0 <= k < ext.len() implies is_digit(#[trigger] ext[k]) by {
                    assert(ext[k] == ds@[idx - 1 + k]);
                }
            }
            proof {
                lemma_fraction_below(ext, f);
            }
            q = (factor * (c as u32 - '0' as u32) as u64 + q) / 10;
            idx = idx - 1;
        }
        assert(ds@.subrange(j as int, len as int) =~= ds@.skip(j as int));
        proof {
            lemma_fraction_scaled_exact(ds@.skip(j as int), f);
        }
        // the remaining powers of ten
        let ghost x = f * digits_value(ds@.skip(j as int));
        let extra: u128 = s - (len - j) as u128;
        let mut u: u128 = 0;
        while u < extra
            invariant
                u <= extra,
                j <= len,
                len == ds.len(),
                q as nat == x / pow10(((len - j) + u) as nat),
                q < factor,
            decreases extra - u,
        {
            proof {
                let n = ((len - j) + u) as nat;
                lemma_pow10_positive(n);
                lemma_div_denominator(x as int, pow10(n) as int, 10);
                assert(pow10(n + 1) == 10 * pow10(n));
                assert(pow10(n) * 10 == 10 * pow10(n));
                assert(x / (pow10(n) * 10) == x / pow10(n + 1));
                assert(((len - j) + (u + 1)) as nat == n + 1);
            }
            q = q / 10;
            u = u + 1;
        }
        assert(((len - j) + extra) as nat == sn);
        proof {
            if j == 0 {
                assert(ds@.take(0) =~= Seq::<char>::empty());
                assert(ds@.skip(0) =~= ds@);
                assert(a == 0);
            }
        }
        assert(a * factor <= 4294967295u64 * 28800) by (nonlinear_arith)
            requires
                a <= 4294967295u64,
                factor <= 28800,
        ;
        let total = a * factor + q;
        assert(q as nat == x / pow10(sn));
        assert(a * factor == f * digits_value(ds@.take(j as int))) by (nonlinear_arith)
            requires
                a == digits_value(ds@.take(j as int)),
                f == factor,
        ;
        assert(total as nat == m) by {
            if j == 0 {
                assert(ds@.skip(0) =~= ds@);
                assert(x == f * d);
            }
        }
        if negative && total > 0 {
            None
        } else if total > u32::MAX as u64 {
            None
        } else {
            Some(total as u32)
        }
    }
}

/// Seconds for the number `num` in a unit of `factor` seconds, where they fit
/// in `u32` and the amount is not negative.
fn scaled_number(num: &str, factor: u64) -> (r: Option<u32>)
    requires
        60 <= factor <= 28800,
    ensures
        r == within_u32(number_seconds(num@, factor as nat)),
{
    let len = num.unicode_len();
    let mut start: usize = 0;
    let mut negative = false;
    if len > 0 {
        let c0 = num.get_char(0);
        if c0 == '+' || c0 == '-' {
            start = 1;
            negative = c0 == '-';
        }
    }
    let body = num.substring_char(start, len);
    assert(body@ =~= unsigned_part(num@));
    assert(negative == (num@.len() > 0 && num@[0] == '-'));
    let blen = body.unicode_len();
    let ghost b = body@;

    let mut part = NumberPart::Whole;
    let mut ds: Vec<char> = Vec::new();
    let mut k: usize = 0;
    let mut exp_negative = false;
    let mut es: Vec<char> = Vec::new();
    let mut i: usize = 0;
    while i < blen
        invariant
            b == body@,
            blen == b.len(),
            i <= blen,
            k <= ds.len(),
            ds.len() <= i,
            all_digits(ds@),
            all_digits(es@),
            scan(b.take(i as int)) == (NumberScan {
                part,
                digits: ds@,
                frac_len: k as nat,
                exp_negative,
                exp_digits: es@,
            }),
        decreases blen - i,
    {
        let c = body.get_char(i);
        assert(b.take(i + 1).drop_last() =~= b.take(i as int));
        assert(b.take(i + 1).last() == c);
        let digit = '0' <= c && c <= '9';
        let mark = c == 'e' || c == 'E';
        proof {
            if digit {
                lemma_push_digit(ds@, c);
                lemma_push_digit(es@, c);
            }
        }
        match part {
            NumberPart::Whole => {
                if digit {
                    ds.push(c);
                } else if c == '.' {
                    part = NumberPart::Fraction;
                } else if mark && ds.len() > 0 {
                    part = NumberPart::ExponentMark;
                } else {
                    part = NumberPart::Rejected;
                }
            },
            NumberPart::Fraction => {
                if digit {
                    ds.push(c);
                    k = k + 1;
                } else if mark && ds.len() > 0 {
                    part = NumberPart::ExponentMark;
                } else {
                    part = NumberPart::Rejected;
                }
            },
            NumberPart::ExponentMark => {
                if c == '+' {
                    part = NumberPart::ExponentSign;
                } else if c == '-' {
                    exp_negative = true;
                    part = NumberPart::ExponentSign;
                } else if digit {
                    es.push(c);
                    part = NumberPart::ExponentDigits;
                } else {
                    part = NumberPart::Rejected;
                }
            },
            NumberPart::ExponentSign | NumberPart::ExponentDigits => {
                if digit {
                    es.push(c);
                    part = NumberPart::ExponentDigits;
                } else {
                    part = NumberPart::Rejected;
                }
            },
            NumberPart::Rejected => {},
        }
        i = i + 1;
    }
    assert(b.take(blen as int) =~= b);
    let accepted = match part {
        NumberPart::Whole | NumberPart::Fraction => ds.len() > 0,
        NumberPart::ExponentDigits => true,
        _ => false,
    };
    if !accepted {
        return None;
    }
    let ghost st = scan(b);
    let ghost f = factor as nat;
    let ghost d = digits_value(ds@);
    let dlen = ds.len();

    // the exponent, held at `dlen + 20` at most
    let cap: u128 = dlen as u128 + 20;
    let mut e_mag: u128 = 0;
    let mut t: usize = 0;
    while t < es.len()
        invariant
            t <= es.len(),
            cap == dlen + 20,
            all_digits(es@),
            e_mag <= cap,
            e_mag < cap ==> e_mag == digits_value(es@.take(t as int)),
            e_mag == cap ==> digits_value(es@.take(t as int)) >= cap,
        decreases es.len() - t,
    {
        let c = es[t];
        assert(es@.take(t + 1).drop_last() =~= es@.take(t as int));
        assert(is_digit(es@[t as int]));
        let next = e_mag * 10 + (c as u32 - '0' as u32) as u128;
        e_mag = if next < cap {
            next
        } else {
            cap
        };
        t = t + 1;
    }
    assert(es@.take(es.len() as int) =~= es@);
    let e_held: i128 = if exp_negative {
        -(e_mag as i128)
    } else {
        e_mag as i128
    };
    let net: i128 = e_held - k as i128;
    proof {
        lemma_digits_below(ds@);
        let e_true = scan_exponent(st);
        if e_mag == cap {
            lemma_far_exponent(
                f * d,
                dlen as nat,
                d,
                f,
                e_true - k,
                net as int,
                negative,
            );
        }
    }
    scaled_digits(&ds, factor, net, negative)
}

} // verus!
