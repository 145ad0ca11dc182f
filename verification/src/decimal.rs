//! Numbers as threshold options write them, such as `abs/0.05` or `rel/1e-3`.
//!
//! A threshold is any text that reads as a floating-point number:
//! `[+|-]` followed by `inf`, `infinity` or `nan` in any letter case, or by
//! digits with an optional decimal point and an optional exponent
//! `e[+|-]digits` (also `E`). The number is kept in decimal form: its first
//! [`SIGNIFICANT_DIGITS`] significant digits and a power of ten.
use vstd::prelude::*;
use vstd::string::*;
use crate::text::{
    all_digits, digit_value, digits_value, digits_value_from, find_char, find_char_exec,
    is_digit, lemma_find_char_props,
};

verus! {

/// A number read from a threshold option.
#[derive(Debug, Clone, Copy, PartialEq, Eq, Structural)]
pub enum Decimal {
    /// `(-1)^negative * mantissa * 10^exponent`.
    Finite { negative: bool, mantissa: u64, exponent: i64 },
    /// `inf` or `infinity`, with its sign.
    Infinite { negative: bool },
    /// `nan`.
    NotANumber,
}

/// How many significant digits of a written number are kept; later digits
/// are dropped (the number is truncated towards zero).
pub const SIGNIFICANT_DIGITS: usize = 18;

/// Bound on the magnitude of a kept exponent. A written exponent beyond it is
/// held at the bound: with any mantissa, `10^±LIMIT` lies far outside what a
/// distance between pixels can reach, so no threshold test tells them apart.
pub const EXPONENT_LIMIT: i64 = 1_000_000_000_000_000_000;

/// Saturation point for reading the digits of an exponent.
pub const EXPONENT_DIGITS_CAP: u128 = 1_000_000_000_000_000_000_000_000_000_000;

/// `10^n`.
pub open spec fn pow10(n: nat) -> nat
    decreases n,
{
    if n == 0 {
        1
    } else {
        10 * pow10((n - 1) as nat)
    }
}

impl Decimal {
    /// Numerator of the absolute value: `mantissa * 10^exponent` for a
    /// non-negative exponent, the mantissa otherwise.
    pub open spec fn num(self) -> nat {
        match self {
            Decimal::Finite { mantissa, exponent, .. } => (mantissa as nat) * pow10(
                if exponent >= 0 {
                    exponent as nat
                } else {
                    0
                },
            ),
            _ => 0,
        }
    }

    /// Denominator of the absolute value: `10^-exponent` for a negative
    /// exponent, 1 otherwise.
    pub open spec fn den(self) -> nat {
        match self {
            Decimal::Finite { exponent, .. } => pow10(
                if exponent < 0 {
                    (-exponent) as nat
                } else {
                    0
                },
            ),
            _ => 1,
        }
    }

    /// `|a| <= |b|` for two finite numbers.
    pub open spec fn abs_le(a: Decimal, b: Decimal) -> bool {
        &&& a is Finite
        &&& b is Finite
        &&& a.num() * b.den() <= b.num() * a.den()
    }
}

/// Whether the square `s / a` of a distance reaches the square of the
/// threshold `t`: `t^2 <= s / a`. Infinite and not-a-number thresholds are
/// never reached.
pub open spec fn reaches_square(t: Decimal, s: int, a: int) -> bool {
    &&& t is Finite
    &&& a * (t.num() * t.num()) <= s * (t.den() * t.den())
}

/// `10^n` grows with `n`.
pub proof fn lemma_pow10_mono(a: nat, b: nat)
    requires
        a <= b,
    ensures
        1 <= pow10(a) <= pow10(b),
    decreases b,
{
    if a < b {
        lemma_pow10_mono(a, (b - 1) as nat);
    } else if b > 0 {
        lemma_pow10_mono(0, (b - 1) as nat);
    }
}

/// The denominator of a number is at least 1.
pub proof fn lemma_den_positive(t: Decimal)
    ensures
        t.den() >= 1,
{
    match t {
        Decimal::Finite { exponent, .. } => {
            lemma_pow10_mono(0, if exponent < 0 { (-exponent) as nat } else { 0 });
        },
        _ => {},
    }
}

/// `10^(a+b) = 10^a * 10^b`.
pub proof fn lemma_pow10_add(a: nat, b: nat)
    ensures
        pow10(a + b) == pow10(a) * pow10(b),
    decreases b,
{
    if b > 0 {
        let b1 = (b - 1) as nat;
        lemma_pow10_add(a, b1);
        assert(pow10(a + b) == 10 * pow10(a + b1));
        assert(pow10(b) == 10 * pow10(b1));
        assert(pow10(a) * (10 * pow10(b1)) == 10 * (pow10(a) * pow10(b1))) by (nonlinear_arith);
    } else {
        assert(pow10(a) * 1 == pow10(a));
    }
}

/// Quotient and remainder of a division by a positive number.
proof fn lemma_div_parts(x: int, d: int)
    requires
        x >= 0,
        d > 0,
    ensures
        x == (x / d) * d + x % d,
        0 <= x % d < d,
        x / d >= 0,
{
    vstd::arithmetic::div_mod::lemma_fundamental_div_mod(x, d);
    vstd::arithmetic::div_mod::lemma_mod_pos_bound(x, d);
    let q = x / d;
    assert(d * q == q * d) by (nonlinear_arith);
    assert(q >= 0) by (nonlinear_arith)
        requires x == q * d + x % d, x % d < d, x >= 0, d > 0;
}

/// For `p > 0`: `x * p <= s` exactly when `x <= s / p`.
proof fn lemma_mul_le_iff_div(x: int, p: int, s: int)
    requires
        p > 0,
        x >= 0,
        s >= 0,
    ensures
        (x * p <= s) == (x <= s / p),
{
    lemma_div_parts(s, p);
    let q = s / p;
    let r = s % p;
    if x <= q {
        assert(x * p <= q * p) by (nonlinear_arith)
            requires x <= q, p > 0;
    } else {
        assert(x * p >= q * p + p) by (nonlinear_arith)
            requires x >= q + 1, p > 0;
    }
}

/// Whether two characters are equal once `c` is lower-cased (ASCII letters).
pub open spec fn lower_matches(c: char, l: char) -> bool {
    c == l || (65 <= c as int <= 90 && c as int + 32 == l as int)
}

/// Whether `s` spells the lower-case word `w`, in any letter case.
pub open spec fn matches_word(s: Seq<char>, w: Seq<char>) -> bool {
    s.len() == w.len() && forall|i: int| 0 <= i < s.len() ==> #[trigger] lower_matches(s[i], w[i])
}

/// Whether the text starts with a sign.
pub open spec fn has_sign(s: Seq<char>) -> bool {
    s.len() > 0 && (s[0] == '-' || s[0] == '+')
}

/// The text after an optional sign.
pub open spec fn unsigned_part(s: Seq<char>) -> Seq<char> {
    if has_sign(s) {
        s.drop_first()
    } else {
        s
    }
}

/// Position of the exponent marker `e` or `E`, or the length of the text.
pub open spec fn exp_pos(u: Seq<char>) -> int {
    let a = find_char(u, 'e');
    let b = find_char(u, 'E');
    if a <= b {
        a
    } else {
        b
    }
}

/// The text before the exponent marker.
pub open spec fn mantissa_text(u: Seq<char>) -> Seq<char> {
    u.take(exp_pos(u))
}

/// The text after the exponent marker (empty without one).
pub open spec fn exponent_text(u: Seq<char>) -> Seq<char> {
    if exp_pos(u) < u.len() {
        u.skip(exp_pos(u) + 1)
    } else {
        Seq::empty()
    }
}

/// The digits before the decimal point.
pub open spec fn int_digits(u: Seq<char>) -> Seq<char> {
    let m = mantissa_text(u);
    m.take(find_char(m, '.'))
}

/// The digits after the decimal point (none without a point).
pub open spec fn frac_digits(u: Seq<char>) -> Seq<char> {
    let m = mantissa_text(u);
    let p = find_char(m, '.');
    if p < m.len() {
        m.skip(p + 1)
    } else {
        Seq::empty()
    }
}

/// Digits, an optional point, at least one digit in all, and an optional
/// exponent marker followed by an optional sign and at least one digit.
pub open spec fn number_well_formed(u: Seq<char>) -> bool {
    &&& all_digits(int_digits(u))
    &&& all_digits(frac_digits(u))
    &&& int_digits(u).len() + frac_digits(u).len() >= 1
    &&& exp_pos(u) < u.len() ==> unsigned_part(exponent_text(u)).len() >= 1 && all_digits(
        unsigned_part(exponent_text(u)),
    )
}

/// The value of an exponent written `[+|-]digits`.
pub open spec fn signed_exponent(x: Seq<char>) -> int {
    let v = digits_value(unsigned_part(x));
    if x.len() > 0 && x[0] == '-' {
        -v
    } else {
        v
    }
}

/// The value of an exponent written `[+|-]digits`, with the digits read up to
/// `EXPONENT_DIGITS_CAP`.
pub open spec fn capped_exponent(x: Seq<char>) -> int {
    let v = digits_value(unsigned_part(x));
    let c = if v < EXPONENT_DIGITS_CAP {
        v
    } else {
        EXPONENT_DIGITS_CAP as int
    };
    if x.len() > 0 && x[0] == '-' {
        -c
    } else {
        c
    }
}

/// Position of the first character that is not `0`, or the length.
pub open spec fn first_nonzero(s: Seq<char>) -> int
    decreases s.len(),
{
    if s.len() == 0 {
        0
    } else if s[0] != '0' {
        0
    } else {
        1 + first_nonzero(s.drop_first())
    }
}

/// The digits from the first non-zero one on.
pub open spec fn significant(d: Seq<char>) -> Seq<char> {
    d.skip(first_nonzero(d))
}

/// How many significant digits are kept.
pub open spec fn kept_len(d: Seq<char>) -> int {
    let n = significant(d).len() as int;
    if n <= SIGNIFICANT_DIGITS {
        n
    } else {
        SIGNIFICANT_DIGITS as int
    }
}

/// The kept significant digits, read as one integer.
pub open spec fn kept_value(d: Seq<char>) -> int {
    digits_value(significant(d).take(kept_len(d)))
}

/// How many significant digits are dropped.
pub open spec fn dropped_len(d: Seq<char>) -> int {
    significant(d).len() - kept_len(d)
}

/// An exponent held within `±EXPONENT_LIMIT`.
pub open spec fn clamp_exponent(e: int) -> int {
    if e > EXPONENT_LIMIT {
        EXPONENT_LIMIT as int
    } else if e < -EXPONENT_LIMIT {
        -EXPONENT_LIMIT
    } else {
        e
    }
}

/// The finite number that a well-formed text `u` (without its sign) denotes.
pub open spec fn finite_value(u: Seq<char>, negative: bool) -> Decimal {
    let d = int_digits(u) + frac_digits(u);
    Decimal::Finite {
        negative,
        mantissa: kept_value(d) as u64,
        exponent: clamp_exponent(
            dropped_len(d) - frac_digits(u).len() + signed_exponent(exponent_text(u)),
        ) as i64,
    }
}

/// The number that a text denotes, if it reads as one.
pub open spec fn spec_parse_decimal(s: Seq<char>) -> Option<Decimal> {
    let u = unsigned_part(s);
    let negative = s.len() > 0 && s[0] == '-';
    if matches_word(u, seq!['i', 'n', 'f']) || matches_word(
        u,
        seq!['i', 'n', 'f', 'i', 'n', 'i', 't', 'y'],
    ) {
        Some(Decimal::Infinite { negative })
    } else if matches_word(u, seq!['n', 'a', 'n']) {
        Some(Decimal::NotANumber)
    } else if number_well_formed(u) {
        Some(finite_value(u, negative))
    } else {
        None
    }
}

/// Reading `acc` followed by the digits `b` gives `acc * 10^|b| + value(b)`.
proof fn lemma_digits_value_shift(acc: int, b: Seq<char>)
    ensures
        digits_value_from(acc, b) == acc * pow10(b.len()) + digits_value(b),
    decreases b.len(),
{
    if b.len() > 0 {
        let b1 = b.drop_last();
        lemma_digits_value_shift(acc, b1);
        let p1 = pow10(b1.len());
        assert(pow10(b.len()) == 10 * p1);
        let x = digit_value(b.last());
        let v1 = digits_value(b1);
        assert(digits_value_from(acc, b) == digits_value_from(acc, b1) * 10 + x);
        assert(digits_value(b) == v1 * 10 + x);
        assert((acc * p1 + v1) * 10 + x == acc * (10 * p1) + (v1 * 10 + x)) by (nonlinear_arith);
    } else {
        assert(pow10(0) == 1);
        assert(digits_value(b) == 0);
        assert(acc * 1 == acc);
    }
}

/// A sequence of digits reads below `10^len`.
proof fn lemma_digits_value_bound(b: Seq<char>)
    requires
        all_digits(b),
    ensures
        0 <= digits_value(b) < pow10(b.len()),
    decreases b.len(),
{
    if b.len() > 0 {
        let b1 = b.drop_last();
        assert(all_digits(b1));
        lemma_digits_value_bound(b1);
        assert(is_digit(b[b.len() - 1]));
        assert(pow10(b.len()) == 10 * pow10(b1.len()));
    }
}

/// Leading zeros do not change the value of digits.
proof fn lemma_significant_value(d: Seq<char>)
    ensures
        digits_value(significant(d)) == digits_value(d),
    decreases d.len(),
{
    if d.len() > 0 && d[0] == '0' {
        let rest = d.drop_first();
        lemma_significant_value(rest);
        lemma_first_nonzero_le(rest);
        assert(first_nonzero(d) == 1 + first_nonzero(rest));
        assert(significant(d) =~= significant(rest));
        let z = seq!['0'];
        crate::text::lemma_digits_value_concat(0, z, rest);
        assert(z + rest =~= d);
        assert(z.drop_last() =~= Seq::<char>::empty());
        assert(z.last() == '0');
        assert(digits_value_from(0, z.drop_last()) == 0);
        assert(digits_value_from(0, z) == 0);
    } else {
        assert(significant(d) =~= d);
    }
}

/// A finite threshold keeps the written digits truncated to
/// [`SIGNIFICANT_DIGITS`] significant ones: with `w` the digits before and
/// after the point read as one integer and `k` the number of dropped digits,
/// `mantissa * 10^k <= w < (mantissa + 1) * 10^k`. With at most
/// [`SIGNIFICANT_DIGITS`] significant digits none is dropped and the mantissa
/// is `w`.
pub proof fn lemma_parse_truncates(s: Seq<char>)
    requires
        number_well_formed(unsigned_part(s)),
    ensures
        ({
            let u = unsigned_part(s);
            let d = int_digits(u) + frac_digits(u);
            let k = dropped_len(d);
            &&& kept_value(d) * pow10(k as nat) <= digits_value(d) < (kept_value(d) + 1) * pow10(
                k as nat,
            )
            &&& significant(d).len() <= SIGNIFICANT_DIGITS ==> k == 0 && kept_value(d) == digits_value(d)
            &&& spec_parse_decimal(s) matches Some(Decimal::Finite { mantissa, .. }) ==> mantissa
                == kept_value(d)
        }),
{
    let u = unsigned_part(s);
    let d = int_digits(u) + frac_digits(u);
    let sig = significant(d);
    let kk = kept_len(d);
    let k = dropped_len(d);
    lemma_first_nonzero_le(d);
    assert(all_digits(d));
    assert(all_digits(sig));
    let head = sig.take(kk);
    let tail = sig.skip(kk);
    assert(head + tail =~= sig);
    assert(all_digits(head));
    assert(all_digits(tail));
    assert(tail.len() == k);
    crate::text::lemma_digits_value_concat(0, head, tail);
    lemma_digits_value_shift(digits_value(head), tail);
    lemma_digits_value_bound(tail);
    lemma_digits_value_bound(head);
    lemma_significant_value(d);
    let m = digits_value(head);
    let t = digits_value(tail);
    let p = pow10(k as nat);
    assert(digits_value(d) == m * p + t);
    assert((m + 1) * p == m * p + p) by (nonlinear_arith);
    if sig.len() <= SIGNIFICANT_DIGITS {
        assert(tail.len() == 0);
        assert(p == 1);
        assert(t == 0);
    }
    reveal_with_fuel(pow10, 19);
    assert(m < pow10(18));
}

/// `first_nonzero` lies within the text.
proof fn lemma_first_nonzero_le(d: Seq<char>)
    ensures
        0 <= first_nonzero(d) <= d.len(),
    decreases d.len(),
{
    if d.len() > 0 && d[0] == '0' {
        lemma_first_nonzero_le(d.drop_first());
    }
}

/// Bound on the squared distances handed to [`Decimal::reaches`].
pub const SQUARE_BOUND: u128 = 100_000_000_000_000_000_000_000;

/// `x * 10^(2e)` written with `10^e` twice.
proof fn lemma_square_pow(x: int, e: nat)
    ensures
        x * pow10(2 * e) == x * (pow10(e) * pow10(e)),
{
    lemma_pow10_add(e, e);
    assert(e + e == 2 * e);
}

/// A threshold with a non-negative exponent `e` is reached exactly when
/// `m2 * (a * 10^(2e)) <= s`.
proof fn lemma_reach_nonneg(t: Decimal, mm: int, m2: int, s: int, a: int, e: nat)
    requires
        t matches Decimal::Finite { mantissa, exponent, .. } && mantissa == mm && exponent == e,
        m2 == mm * mm,
    ensures
        reaches_square(t, s, a) == (m2 * (a * pow10(2 * e)) <= s),
{
    let pe = pow10(e);
    assert(t.num() == mm * pe);
    let d = t.den();
    assert(d == 1);
    assert(d * d == 1);
    assert(s * (d * d) == s);
    lemma_square_pow(a, e);
    assert(a * ((mm * pe) * (mm * pe)) == (mm * mm) * (a * (pe * pe))) by (nonlinear_arith);
}

/// A threshold with a negative exponent `-e` is reached exactly when
/// `a * m2 <= s * 10^(2e)`.
proof fn lemma_reach_neg(t: Decimal, mm: int, m2: int, s: int, a: int, e: nat)
    requires
        t matches Decimal::Finite { mantissa, exponent, .. } && mantissa == mm && exponent == -e,
        m2 == mm * mm,
        e > 0,
    ensures
        reaches_square(t, s, a) == (a * m2 <= s * pow10(2 * e)),
{
    assert(t.den() == pow10(e));
    assert(pow10(0) == 1);
    assert(t.num() == mm * pow10(0));
    assert(t.num() == mm);
    lemma_square_pow(s, e);
}

impl Decimal {
    /// Whether the square `s / a` of a distance reaches the square of this
    /// threshold, decided exactly in integers.
    pub fn reaches(&self, s: u128, a: u128) -> (r: bool)
        requires
            s <= SQUARE_BOUND,
            a <= SQUARE_BOUND,
        ensures
            r == reaches_square(*self, s as int, a as int),
    {
        match *self {
            Decimal::Finite { mantissa, exponent, .. } => {
                let mm: u128 = mantissa as u128;
                assert(mm * mm <= 0xffff_ffff_ffff_ffff * 0xffff_ffff_ffff_ffffu128) by (nonlinear_arith)
                    requires mm <= 0xffff_ffff_ffff_ffffu128;
                let m2: u128 = mm * mm;
                if exponent >= 0 {
                    let ghost e = exponent as nat;
                    proof {
                        lemma_reach_nonneg(*self, mm as int, m2 as int, s as int, a as int, e);
                    }
                    if a == 0 || m2 == 0 {
                        proof {
                            assert(m2 * (a * pow10(2 * e)) == 0) by (nonlinear_arith)
                                requires a == 0 || m2 == 0;
                        }
                        return true;
                    }
                    let k2: u128 = 2 * (exponent as u128);
                    assert(pow10(k2 as nat) == pow10(2 * e));
                    let mut p: u128 = a;
                    let mut j: u128 = 0;
                    while j < k2
                        invariant
                            0 <= j <= k2,
                            k2 == 2 * e,
                            1 <= a <= SQUARE_BOUND,
                            s <= SQUARE_BOUND,
                            m2 >= 1,
                            reaches_square(*self, s as int, a as int) == (m2 * (a * pow10(2 * e)) <= s),
                            pow10(k2 as nat) == pow10(2 * e),
                            p == a * pow10(j as nat),
                            p <= 10 * SQUARE_BOUND,
                        decreases k2 - j,
                    {
                        if p > s {
                            proof {
                                lemma_pow10_mono(j as nat, k2 as nat);
                                assert(m2 * (a * pow10(k2 as nat)) >= p) by (nonlinear_arith)
                                    requires p == a * pow10(j as nat), pow10(j as nat) <= pow10(k2 as nat),
                                        a >= 1, m2 >= 1;
                            }
                            return false;
                        }
                        proof {
                            assert(pow10((j + 1) as nat) == 10 * pow10(j as nat));
                            assert(a * pow10((j + 1) as nat) == 10 * (a * pow10(j as nat))) by (nonlinear_arith)
                                requires pow10((j + 1) as nat) == 10 * pow10(j as nat);
                        }
                        p = p * 10;
                        j = j + 1;
                    }
                    proof {
                        lemma_pow10_mono(0, k2 as nat);
                        assert(p >= 1) by (nonlinear_arith)
                            requires p == a * pow10(k2 as nat), a >= 1, pow10(k2 as nat) >= 1;
                        lemma_mul_le_iff_div(m2 as int, p as int, s as int);
                    }
                    m2 <= s / p
                } else {
                    let ghost e = (-exponent) as nat;
                    proof {
                        lemma_reach_neg(*self, mm as int, m2 as int, s as int, a as int, e);
                    }
                    if a == 0 || m2 == 0 {
                        proof {
                            lemma_pow10_mono(0, 2 * e);
                            assert(a * m2 == 0) by (nonlinear_arith)
                                requires a == 0 || m2 == 0;
                            assert(s * pow10(2 * e) >= 0) by (nonlinear_arith)
                                requires s >= 0, pow10(2 * e) >= 1;
                        }
                        return true;
                    }
                    if s == 0 {
                        proof {
                            assert(a * m2 >= 1) by (nonlinear_arith)
                                requires m2 >= 1, a >= 1;
                        }
                        return false;
                    }
                    let k2: u128 = 2 * ((-(exponent as i128)) as u128);
                    assert(pow10(k2 as nat) == pow10(2 * e));
                    let mut q: u128 = s / a;
                    let mut rem: u128 = s % a;
                    let mut j: u128 = 0;
                    proof {
                        lemma_div_parts(s as int, a as int);
                    }
                    while j < k2
                        invariant
                            0 <= j <= k2,
                            k2 == 2 * e,
                            1 <= a <= SQUARE_BOUND,
                            1 <= s <= SQUARE_BOUND,
                            m2 <= 0xffff_ffff_ffff_ffff * 0xffff_ffff_ffff_ffffu128,
                            m2 >= 1,
                            reaches_square(*self, s as int, a as int) == (a * m2 <= s * pow10(2 * e)),
                            pow10(k2 as nat) == pow10(2 * e),
                            s * pow10(j as nat) == q * a + rem,
                            rem < a,
                        decreases k2 - j,
                    {
                        proof {
                            assert(pow10((j + 1) as nat) == 10 * pow10(j as nat));
                            assert(s * pow10((j + 1) as nat) == 10 * (s * pow10(j as nat))) by (nonlinear_arith)
                                requires pow10((j + 1) as nat) == 10 * pow10(j as nat);
                        }
                        if q > m2 / 10 {
                            proof {
                                lemma_pow10_mono((j + 1) as nat, k2 as nat);
                                assert(10 * q > m2) by (nonlinear_arith)
                                    requires q > m2 / 10;
                                assert(s * pow10(k2 as nat) >= s * pow10((j + 1) as nat)) by (nonlinear_arith)
                                    requires pow10((j + 1) as nat) <= pow10(k2 as nat), s >= 1;
                                assert(a * m2 <= s * pow10(k2 as nat)) by (nonlinear_arith)
                                    requires s * pow10((j + 1) as nat) == 10 * (q * a + rem), 10 * q > m2,
                                        rem >= 0, a >= 1, s * pow10(k2 as nat) >= s * pow10((j + 1) as nat);
                            }
                            return true;
                        }
                        assert(10 * rem < 10 * SQUARE_BOUND);
                        let t = 10 * rem;
                        let tq = t / a;
                        proof {
                            lemma_div_parts(t as int, a as int);
                            assert(tq <= 9) by (nonlinear_arith)
                                requires t == tq * a + t % a, t % a >= 0, t < 10 * a, a >= 1;
                            assert(10 * q <= m2) by (nonlinear_arith)
                                requires q <= m2 / 10;
                        }
                        let nq = 10 * q + tq;
                        let nr = t % a;
                        proof {
                            assert(s * pow10((j + 1) as nat) == nq * a + nr) by (nonlinear_arith)
                                requires s * pow10((j + 1) as nat) == 10 * (s * pow10(j as nat)),
                                    s * pow10(j as nat) == q * a + rem, t == 10 * rem,
                                    t == tq * a + t % a, nq == 10 * q + tq, nr == t % a;
                        }
                        q = nq;
                        rem = nr;
                        j = j + 1;
                    }
                    proof {
                        if m2 <= q {
                            assert(a * m2 <= q * a) by (nonlinear_arith)
                                requires m2 <= q, a >= 1;
                        } else {
                            assert(a * m2 >= q * a + a) by (nonlinear_arith)
                                requires m2 >= q + 1, a >= 1;
                        }
                    }
                    m2 <= q
                }
            },
            _ => false,
        }
    }
}

/// `first_nonzero` is the first position not holding `0`.
proof fn lemma_first_nonzero(s: Seq<char>, i: int)
    requires
        0 <= i <= s.len(),
        forall|k: int| 0 <= k < i ==> s[k] == '0',
        i < s.len() ==> s[i] != '0',
    ensures
        first_nonzero(s) == i,
    decreases i,
{
    if i > 0 {
        assert forall|k: int| 0 <= k < i - 1 implies s.drop_first()[k] == '0' by {
            assert(s[k + 1] == '0');
        }
        lemma_first_nonzero(s.drop_first(), i - 1);
    }
}

/// Whether `s` spells the lower-case word `w`, in any letter case.
fn matches_word_exec(s: &str, w: &str) -> (r: bool)
    ensures
        r == matches_word(s@, w@),
{
    let n = s.unicode_len();
    if n != w.unicode_len() {
        return false;
    }
    let mut i: usize = 0;
    while i < n
        invariant
            n == s@.len(),
            n == w@.len(),
            0 <= i <= n,
            forall|k: int| 0 <= k < i ==> #[trigger] lower_matches(s@[k], w@[k]),
        decreases n - i,
    {
        let c = s.get_char(i);
        let l = w.get_char(i);
        let cv = c as u32;
        let lv = l as u32;
        let ok = c == l || (65 <= cv && cv <= 90 && cv + 32 == lv);
        if !ok {
            assert(!lower_matches(s@[i as int], w@[i as int]));
            return false;
        }
        i = i + 1;
    }
    true
}

/// Whether all characters of `s` are decimal digits.
fn all_digits_exec(s: &str) -> (r: bool)
    ensures
        r == all_digits(s@),
{
    let n = s.unicode_len();
    let mut i: usize = 0;
    while i < n
        invariant
            n == s@.len(),
            0 <= i <= n,
            forall|k: int| 0 <= k < i ==> is_digit(#[trigger] s@[k]),
        decreases n - i,
    {
        let c = s.get_char(i);
        if c < '0' || c > '9' {
            assert(!is_digit(s@[i as int]));
            return false;
        }
        i = i + 1;
    }
    true
}

/// The characters of `a` followed by those of `b`.
fn concat_chars(a: &str, b: &str) -> (v: Vec<char>)
    ensures
        v@ == a@ + b@,
{
    let mut v: Vec<char> = Vec::new();
    let n1 = a.unicode_len();
    let mut i: usize = 0;
    while i < n1
        invariant
            n1 == a@.len(),
            0 <= i <= n1,
            v@ == a@.take(i as int),
        decreases n1 - i,
    {
        v.push(a.get_char(i));
        proof {
            assert(a@.take(i + 1) =~= a@.take(i as int).push(a@[i as int]));
        }
        i = i + 1;
    }
    proof {
        assert(a@.take(n1 as int) =~= a@);
    }
    let n2 = b.unicode_len();
    let mut k: usize = 0;
    while k < n2
        invariant
            n1 == a@.len(),
            n2 == b@.len(),
            0 <= k <= n2,
            v@ == a@ + b@.take(k as int),
        decreases n2 - k,
    {
        v.push(b.get_char(k));
        proof {
            assert(a@ + b@.take(k + 1) =~= (a@ + b@.take(k as int)).push(b@[k as int]));
        }
        k = k + 1;
    }
    proof {
        assert(b@.take(n2 as int) =~= b@);
    }
    v
}

/// The kept significant digits of `d`, read as one integer, and how many
/// significant digits are dropped.
fn read_significand(d: &Vec<char>) -> (r: (u64, usize))
    requires
        all_digits(d@),
    ensures
        r.0 as int == kept_value(d@),
        r.1 as int == dropped_len(d@),
{
    let len = d.len();
    let mut z: usize = 0;
    while z < len && d[z] == '0'
        invariant
            len == d@.len(),
            0 <= z <= len,
            forall|k: int| 0 <= k < z ==> d@[k] == '0',
        decreases len - z,
    {
        z = z + 1;
    }
    proof {
        lemma_first_nonzero(d@, z as int);
        reveal_with_fuel(pow10, 18);
        assert(pow10(17) == 100_000_000_000_000_000);
    }
    let ghost sig = significant(d@);
    let mut m: u64 = 0;
    let mut kept: usize = 0;
    let mut dropped: usize = 0;
    let mut i: usize = z;
    while i < len
        invariant
            len == d@.len(),
            z <= i <= len,
            sig == d@.skip(z as int),
            all_digits(d@),
            kept + dropped == i - z,
            kept == (if i - z <= SIGNIFICANT_DIGITS { (i - z) as usize } else { SIGNIFICANT_DIGITS }),
            m as int == digits_value(sig.take(kept as int)),
            m < pow10(kept as nat),
            pow10(17) == 100_000_000_000_000_000,
        decreases len - i,
    {
        let c = d[i];
        if kept < SIGNIFICANT_DIGITS {
            proof {
                assert(sig.take(kept + 1).drop_last() =~= sig.take(kept as int));
                assert(sig[kept as int] == c);
                assert(is_digit(d@[i as int]));
                lemma_pow10_mono(kept as nat, 17);
                assert(pow10((kept + 1) as nat) == 10 * pow10(kept as nat));
            }
            let dv: u64 = ((c as u32) - ('0' as u32)) as u64;
            m = m * 10 + dv;
            kept = kept + 1;
        } else {
            dropped = dropped + 1;
        }
        i = i + 1;
    }
    (m, dropped)
}

/// The digits of `x` read as one integer, held at `EXPONENT_DIGITS_CAP`.
fn read_exponent_digits(x: &str) -> (r: u128)
    requires
        all_digits(x@),
    ensures
        r == (if digits_value(x@) < EXPONENT_DIGITS_CAP { digits_value(x@) } else { EXPONENT_DIGITS_CAP as int }),
{
    let len = x.unicode_len();
    let mut v: u128 = 0;
    let mut i: usize = 0;
    while i < len
        invariant
            len == x@.len(),
            0 <= i <= len,
            all_digits(x@),
            digits_value(x@.take(i as int)) >= 0,
            v == (if digits_value(x@.take(i as int)) < EXPONENT_DIGITS_CAP {
                digits_value(x@.take(i as int))
            } else {
                EXPONENT_DIGITS_CAP as int
            }),
        decreases len - i,
    {
        let c = x.get_char(i);
        proof {
            assert(x@.take(i + 1).drop_last() =~= x@.take(i as int));
            assert(x@.take(i + 1).last() == c);
            assert(is_digit(x@[i as int]));
        }
        let dv: u128 = ((c as u32) - ('0' as u32)) as u128;
        if v < EXPONENT_DIGITS_CAP {
            let n = v * 10 + dv;
            v = if n < EXPONENT_DIGITS_CAP {
                n
            } else {
                EXPONENT_DIGITS_CAP
            };
        }
        i = i + 1;
    }
    proof {
        assert(x@.take(len as int) =~= x@);
    }
    v
}

/// The text before position `p`, and the text after it.
fn split_at_char<'a>(s: &'a str, p: usize) -> (r: (&'a str, &'a str))
    requires
        p <= s@.len(),
    ensures
        r.0@ == s@.take(p as int),
        r.1@ == (if p < s@.len() { s@.skip(p + 1) } else { Seq::<char>::empty() }),
{
    let len = s.unicode_len();
    let head = s.substring_char(0, p);
    let tail = if p < len {
        s.substring_char(p + 1, len)
    } else {
        s.substring_char(len, len)
    };
    proof {
        assert(head@ =~= s@.take(p as int));
        if p < len {
            assert(tail@ =~= s@.skip(p + 1));
        } else {
            assert(tail@ =~= Seq::<char>::empty());
        }
    }
    (head, tail)
}

/// Reads an exponent written `[+|-]digits`, if it is one.
fn read_exponent(x: &str) -> (r: Option<i128>)
    ensures
        r is Some == (unsigned_part(x@).len() >= 1 && all_digits(unsigned_part(x@))),
        r matches Some(v) ==> v == capped_exponent(x@) && -EXPONENT_DIGITS_CAP <= v
            <= EXPONENT_DIGITS_CAP,
{
    let elen = x.unicode_len();
    let mut es: usize = 0;
    let mut neg = false;
    if elen > 0 {
        let c = x.get_char(0);
        if c == '-' || c == '+' {
            es = 1;
            neg = c == '-';
        }
    }
    let ed = x.substring_char(es, elen);
    proof {
        assert(ed@ =~= unsigned_part(x@));
    }
    if ed.unicode_len() == 0 || !all_digits_exec(ed) {
        return None;
    }
    let v = read_exponent_digits(ed);
    proof {
        crate::text::lemma_digits_value_grows(0, ed@, 0);
    }
    Some(
        if neg {
            -(v as i128)
        } else {
            v as i128
        },
    )
}

/// Reads digits with an optional point and an optional exponent.
fn parse_finite(body: &str, negative: bool) -> (r: Option<Decimal>)
    ensures
        r == (if number_well_formed(body@) { Some(finite_value(body@, negative)) } else { None::<Decimal> }),
{
    let blen = body.unicode_len();
    let pe = find_char_exec(body, 'e');
    let pu = find_char_exec(body, 'E');
    proof {
        lemma_find_char_props(body@, 'e');
        lemma_find_char_props(body@, 'E');
    }
    let x = if pe <= pu {
        pe
    } else {
        pu
    };
    let (mant, expo) = split_at_char(body, x);
    let p = find_char_exec(mant, '.');
    proof {
        lemma_find_char_props(mant@, '.');
    }
    let (ip, fp) = split_at_char(mant, p);
    proof {
        assert(mant@ == mantissa_text(body@));
        assert(expo@ == exponent_text(body@));
        assert(ip@ == int_digits(body@));
        assert(fp@ == frac_digits(body@));
    }
    if !all_digits_exec(ip) || !all_digits_exec(fp) || (ip.unicode_len() == 0 && fp.unicode_len()
        == 0) {
        return None;
    }
    let xs: i128 = if x < blen {
        match read_exponent(expo) {
            Some(v) => v,
            None => {
                return None;
            },
        }
    } else {
        proof {
            assert(expo@ =~= Seq::<char>::empty());
            assert(unsigned_part(expo@) =~= Seq::<char>::empty());
            assert(capped_exponent(expo@) == 0);
            assert(signed_exponent(expo@) == 0);
        }
        0
    };
    let digits = concat_chars(ip, fp);
    let (m, dropped) = read_significand(&digits);
    let flen = fp.unicode_len();
    let raw: i128 = dropped as i128 - flen as i128 + xs;
    let e: i64 = if raw > EXPONENT_LIMIT as i128 {
        EXPONENT_LIMIT
    } else if raw < -(EXPONENT_LIMIT as i128) {
        -EXPONENT_LIMIT
    } else {
        raw as i64
    };
    proof {
        let d = int_digits(body@) + frac_digits(body@);
        assert(digits@ == d);
        crate::text::lemma_digits_value_grows(0, unsigned_part(expo@), 0);
        let base = dropped_len(d) - frac_digits(body@).len();
        assert(raw == base + capped_exponent(expo@));
        assert(e == clamp_exponent(base + signed_exponent(expo@)));
    }
    Some(Decimal::Finite { negative, mantissa: m, exponent: e })
}

/// Reads a threshold such as `0.05`, `-1`, `.5`, `2.`, `1e-3`, `2.5E+4`,
/// `inf` or `NaN`.
pub fn parse_decimal(s: &str) -> (r: Option<Decimal>)
    ensures
        r == spec_parse_decimal(s@),
{
    let len = s.unicode_len();
    let mut negative = false;
    let mut start: usize = 0;
    if len > 0 {
        let c0 = s.get_char(0);
        if c0 == '-' || c0 == '+' {
            start = 1;
            negative = c0 == '-';
        }
    }
    let body = s.substring_char(start, len);
    proof {
        assert(body@ =~= unsigned_part(s@));
        reveal_strlit("inf");
        reveal_strlit("infinity");
        reveal_strlit("nan");
        assert("inf"@ =~= seq!['i', 'n', 'f']);
        assert("infinity"@ =~= seq!['i', 'n', 'f', 'i', 'n', 'i', 't', 'y']);
        assert("nan"@ =~= seq!['n', 'a', 'n']);
    }
    if matches_word_exec(body, "inf") || matches_word_exec(body, "infinity") {
        return Some(Decimal::Infinite { negative });
    }
    if matches_word_exec(body, "nan") {
        return Some(Decimal::NotANumber);
    }
    parse_finite(body, negative)
}

} // verus!
