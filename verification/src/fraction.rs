use vstd::prelude::*;
use crate::text::{CharClass, span, span_back, span_from, span_back_from, digits_value, spec_parse_digits, parse_digits, chars_of, lemma_span_bound, lemma_span_back_bound, lemma_span_back_concat, lemma_span_of_run, all_digits, in_class};
use crate::number_theory::{abs, divides, spec_gcd, lemma_gcd_divides, lemma_gcd_quotients_coprime, lemma_lowest_terms_unique};

verus! {

/// An exact rational quantity `num / den`.
///
/// Every constructor and arithmetic operation returns the fraction in lowest
/// terms with a positive denominator, so two fractions of equal value are
/// equal field by field.
#[derive(Debug, Clone, Copy, PartialEq, Eq, Structural)]
pub struct Fraction {
    pub num: i64,
    pub den: i64,
}

pub open spec fn fits_i64(x: int) -> bool {
    i64::MIN <= x <= i64::MAX
}

/// The inputs on which `Fraction::new` neither divides by zero nor overflows
/// while moving the sign onto the numerator.
pub open spec fn new_defined(num: int, den: int) -> bool {
    &&& fits_i64(num)
    &&& fits_i64(den)
    &&& den != 0
    &&& den < 0 ==> num != i64::MIN && den != i64::MIN
}

pub open spec fn sign_of(den: int) -> int {
    if den < 0 {
        -1
    } else {
        1
    }
}

/// `num / den` with the sign moved onto the numerator and both parts divided
/// by their greatest common divisor.
pub open spec fn spec_new(num: int, den: int) -> Fraction {
    let n = num * sign_of(den);
    let d = den * sign_of(den);
    let g = spec_gcd(abs(n), abs(d)) as int;
    Fraction { num: (n / g) as i64, den: (d / g) as i64 }
}

/// A fraction in lowest terms with a positive denominator.
pub open spec fn lowest_terms(f: Fraction) -> bool {
    f.den > 0 && spec_gcd(abs(f.num as int), f.den as nat) == 1
}

/// `num1 / den1 == num2 / den2` as rational numbers (denominators nonzero).
pub open spec fn same_ratio(num1: int, den1: int, num2: int, den2: int) -> bool {
    num1 * den2 == num2 * den1
}

pub open spec fn add_defined(a: Fraction, b: Fraction) -> bool {
    let x = a.num * b.den;
    let y = b.num * a.den;
    &&& fits_i64(x)
    &&& fits_i64(y)
    &&& fits_i64(a.den * b.den)
    &&& new_defined(x + y, a.den * b.den)
}

pub open spec fn spec_add(a: Fraction, b: Fraction) -> Fraction {
    spec_new(a.num * b.den + b.num * a.den, a.den * b.den)
}

pub open spec fn mul_defined(a: Fraction, b: Fraction) -> bool {
    &&& fits_i64(a.num * b.num)
    &&& fits_i64(a.den * b.den)
    &&& new_defined(a.num * b.num, a.den * b.den)
}

pub open spec fn spec_mul(a: Fraction, b: Fraction) -> Fraction {
    spec_new(a.num * b.num, a.den * b.den)
}

pub open spec fn div_defined(a: Fraction, b: Fraction) -> bool {
    &&& fits_i64(a.num * b.den)
    &&& fits_i64(a.den * b.num)
    &&& new_defined(a.num * b.den, a.den * b.num)
}

pub open spec fn spec_div(a: Fraction, b: Fraction) -> Fraction {
    spec_new(a.num * b.den, a.den * b.num)
}

pub open spec fn spec_whole(n: int) -> Fraction {
    spec_new(n, 1)
}

/// What `spec_new` yields: lowest terms, a positive denominator, the same value,
/// and parts no larger in magnitude than the sign-normalised inputs.
pub proof fn lemma_spec_new(num: int, den: int)
    requires
        new_defined(num, den),
    ensures
        lowest_terms(spec_new(num, den)),
        same_ratio(spec_new(num, den).num as int, spec_new(num, den).den as int, num, den),
        abs(spec_new(num, den).num as int) <= abs(num),
        spec_new(num, den).den <= abs(den),
        spec_new(num, den).num == (num * sign_of(den)) / (spec_gcd(abs(num * sign_of(den)), abs(den * sign_of(den))) as int),
        spec_new(num, den).den == (den * sign_of(den)) / (spec_gcd(abs(num * sign_of(den)), abs(den * sign_of(den))) as int),
{
    let s = sign_of(den);
    let n = num * s;
    let d = den * s;
    assert(d > 0 && abs(d) == d && abs(n) == abs(num) && abs(d) == abs(den) && fits_i64(n)) by {
        if den < 0 {
            assert(n == -num);
            assert(d == -den);
        } else {
            assert(n == num);
            assert(d == den);
        }
    }
    let an = abs(n);
    let ad = abs(d);
    lemma_gcd_quotients_coprime(an, ad);
    let g = spec_gcd(an, ad) as int;
    lemma_gcd_divides(an, ad);
    let kn = choose|k: int| #[trigger] (g * k) == an as int;
    let kd = choose|k: int| #[trigger] (g * k) == ad as int;
    // exact quotients
    let qn = if n < 0 { -kn } else { kn };
    assert(g * qn == n) by (nonlinear_arith)
        requires
            g * kn == an as int,
            an == (if n < 0 { -n } else { n }),
            qn == (if n < 0 { -kn } else { kn }),
    ;
    assert(n / g == qn && d / g == kd) by {
        vstd::arithmetic::div_mod::lemma_div_multiples_vanish(qn, g);
        vstd::arithmetic::div_mod::lemma_div_multiples_vanish(kd, g);
        vstd::arithmetic::mul::lemma_mul_is_commutative(g, qn);
        vstd::arithmetic::mul::lemma_mul_is_commutative(g, kd);
    }
    assert(an as int / g == kn) by {
        vstd::arithmetic::div_mod::lemma_div_multiples_vanish(kn, g);
        vstd::arithmetic::mul::lemma_mul_is_commutative(g, kn);
    }
    assert(kn >= 0 && kd > 0 && kn <= an && kd <= ad) by (nonlinear_arith)
        requires
            g > 0,
            g * kn == an as int,
            g * kd == ad as int,
            ad > 0,
    ;
    assert(abs(qn) == kn);
    assert(fits_i64(qn)) by {
        assert(abs(qn) <= abs(n));
        if n < 0 {
            assert(qn >= n);
        }
    }
    assert(qn * den == num * kd) by (nonlinear_arith)
        requires
            g * qn == n,
            g * kd == d,
            g > 0,
            n == num * s,
            d == den * s,
            s == 1 || s == -1,
    ;
}

/// Lowest terms make the representation unique: two fractions in lowest terms
/// with the same value are the same fraction.
pub proof fn lemma_lowest_terms_same_ratio(a: Fraction, b: Fraction)
    requires
        lowest_terms(a),
        lowest_terms(b),
        same_ratio(a.num as int, a.den as int, b.num as int, b.den as int),
    ensures
        a == b,
{
    lemma_lowest_terms_unique(a.num as int, a.den as int, b.num as int, b.den as int);
}

/// A fraction already in lowest terms is its own normal form.
pub proof fn law_new_of_lowest_terms(f: Fraction)
    requires
        lowest_terms(f),
    ensures
        new_defined(f.num as int, f.den as int),
        spec_new(f.num as int, f.den as int) == f,
{
    lemma_spec_new(f.num as int, f.den as int);
    lemma_lowest_terms_same_ratio(spec_new(f.num as int, f.den as int), f);
}

/// `new(a, b)` and `new(c, d)` are the same fraction exactly when `a / b == c / d`.
pub proof fn law_new_equal_iff_same_value(a: int, b: int, c: int, d: int)
    requires
        new_defined(a, b),
        new_defined(c, d),
    ensures
        spec_new(a, b) == spec_new(c, d) <==> same_ratio(a, b, c, d),
{
    lemma_spec_new(a, b);
    lemma_spec_new(c, d);
    let f = spec_new(a, b);
    let h = spec_new(c, d);
    let (p, q, r, s) = (f.num as int, f.den as int, h.num as int, h.den as int);
    if same_ratio(a, b, c, d) {
        assert(p * s == r * q) by (nonlinear_arith)
            requires
                p * b == a * q,
                r * d == c * s,
                a * d == c * b,
                b != 0,
                d != 0,
                q > 0,
                s > 0,
        ;
        lemma_lowest_terms_same_ratio(f, h);
    }
    if f == h {
        assert(a * d == c * b) by (nonlinear_arith)
            requires
                p * b == a * q,
                p * d == c * q,
                q > 0,
        ;
    }
}

proof fn lemma_times_sign(x: int, den: int)
    ensures
        x * sign_of(den) == (if den < 0 { -x } else { x }),
{
}

fn magnitude(x: i64) -> (r: u64)
    ensures
        r == abs(x as int),
{
    if x < 0 {
        ((-(x + 1)) as u64) + 1
    } else {
        x as u64
    }
}

fn gcd(a: u64, b: u64) -> (g: u64)
    ensures
        g == spec_gcd(a as nat, b as nat),
    decreases b,
{
    if b == 0 {
        a
    } else {
        gcd(b, a % b)
    }
}

impl Fraction {
    /// `num / den` in lowest terms with a positive denominator.
    pub fn new(num: i64, den: i64) -> (r: Fraction)
        requires
            new_defined(num as int, den as int),
        ensures
            r == spec_new(num as int, den as int),
            lowest_terms(r),
            same_ratio(r.num as int, r.den as int, num as int, den as int),
    {
        proof {
            lemma_spec_new(num as int, den as int);
        }
        let ghost num0 = num as int;
        let ghost den0 = den as int;
        let (num, den) = if den < 0 {
            (-num, -den)
        } else {
            (num, den)
        };
        let g = gcd(magnitude(num), magnitude(den));
        proof {
            lemma_gcd_divides(abs(num as int), abs(den as int));
            crate::number_theory::lemma_divisor_le(g as int, den as int);
            let kn = choose|k: int| #[trigger] ((g as int) * k) == abs(num as int) as int;
            let kd = choose|k: int| #[trigger] ((g as int) * k) == abs(den as int) as int;
            assert((num as int) % (g as int) == 0 && (den as int) % (g as int) == 0) by {
                let qn = if num < 0 { -kn } else { kn };
                assert((g as int) * qn == num as int) by (nonlinear_arith)
                    requires
                        (g as int) * kn == abs(num as int) as int,
                        abs(num as int) == (if num < 0 { -(num as int) } else { num as int }),
                        qn == (if num < 0 { -kn } else { kn }),
                ;
                vstd::arithmetic::div_mod::lemma_mod_multiples_basic(qn, g as int);
                vstd::arithmetic::div_mod::lemma_mod_multiples_basic(kd, g as int);
                vstd::arithmetic::mul::lemma_mul_is_commutative(g as int, qn);
                vstd::arithmetic::mul::lemma_mul_is_commutative(g as int, kd);
            }
        }
        let divisor: i64 = if g < 1 {
            1
        } else {
            g as i64
        };
        proof {
            lemma_times_sign(num0, den0);
            lemma_times_sign(den0, den0);
        }
        let r = Fraction { num: num / divisor, den: den / divisor };
        proof {
            let gi = g as int;
            let kn = choose|k: int| #[trigger] (gi * k) == abs(num as int) as int;
            vstd::arithmetic::mul::lemma_mul_is_commutative(gi, kn);
            vstd::arithmetic::div_mod::lemma_div_multiples_vanish(kn, gi);
            if num < 0 {
                assert(r.num == -((-(num as int)) / gi));
                assert((-kn) * gi == num as int) by (nonlinear_arith)
                    requires
                        gi * kn == -(num as int),
                ;
                vstd::arithmetic::div_mod::lemma_div_multiples_vanish(-kn, gi);
            }
        }
        r
    }
}


impl Fraction {
    /// The whole number `n` as a fraction.
    pub fn whole(n: i64) -> (r: Fraction)
        ensures
            r == spec_whole(n as int),
            r == (Fraction { num: n, den: 1 }),
    {
        proof {
            crate::number_theory::lemma_gcd_with_one(abs(n as int));
            law_new_of_lowest_terms(Fraction { num: n, den: 1 });
        }
        Fraction::new(n, 1)
    }

    /// The exact sum `self + other`.
    pub fn add(self, other: Fraction) -> (r: Fraction)
        requires
            add_defined(self, other),
        ensures
            r == spec_add(self, other),
            lowest_terms(r),
            same_ratio(
                r.num as int,
                r.den as int,
                self.num * other.den + other.num * self.den,
                self.den * other.den,
            ),
    {
        Fraction::new(self.num * other.den + other.num * self.den, self.den * other.den)
    }

    /// The exact product `self * other`.
    pub fn mul(self, other: Fraction) -> (r: Fraction)
        requires
            mul_defined(self, other),
        ensures
            r == spec_mul(self, other),
            lowest_terms(r),
            same_ratio(r.num as int, r.den as int, self.num * other.num, self.den * other.den),
    {
        Fraction::new(self.num * other.num, self.den * other.den)
    }

    /// The exact quotient `self / other`.
    pub fn div(self, other: Fraction) -> (r: Fraction)
        requires
            div_defined(self, other),
        ensures
            r == spec_div(self, other),
            lowest_terms(r),
            same_ratio(r.num as int, r.den as int, self.num * other.den, self.den * other.num),
    {
        Fraction::new(self.num * other.den, self.den * other.num)
    }

    pub fn is_positive(self) -> (b: bool)
        ensures
            b == (self.num > 0),
    {
        self.num > 0
    }

    pub fn is_zero(self) -> (b: bool)
        ensures
            b == (self.num == 0),
    {
        self.num == 0
    }

    /// `self + other`, or `None` where `add` would overflow or divide by zero.
    pub fn checked_add(self, other: Fraction) -> (r: Option<Fraction>)
        ensures
            r == (if add_defined(self, other) { Some(spec_add(self, other)) } else { None::<Fraction> }),
    {
        let x = match self.num.checked_mul(other.den) {
            Some(x) => x,
            None => return None,
        };
        let y = match other.num.checked_mul(self.den) {
            Some(y) => y,
            None => return None,
        };
        let d = match self.den.checked_mul(other.den) {
            Some(d) => d,
            None => return None,
        };
        let n = match x.checked_add(y) {
            Some(n) => n,
            None => return None,
        };
        if !new_is_defined(n, d) {
            return None;
        }
        Some(self.add(other))
    }

    /// `self * other`, or `None` where `mul` would overflow or divide by zero.
    pub fn checked_mul(self, other: Fraction) -> (r: Option<Fraction>)
        ensures
            r == (if mul_defined(self, other) { Some(spec_mul(self, other)) } else { None::<Fraction> }),
    {
        let n = match self.num.checked_mul(other.num) {
            Some(n) => n,
            None => return None,
        };
        let d = match self.den.checked_mul(other.den) {
            Some(d) => d,
            None => return None,
        };
        if !new_is_defined(n, d) {
            return None;
        }
        Some(self.mul(other))
    }

    /// `self / other`, or `None` where `div` would overflow or divide by zero.
    pub fn checked_div(self, other: Fraction) -> (r: Option<Fraction>)
        ensures
            r == (if div_defined(self, other) { Some(spec_div(self, other)) } else { None::<Fraction> }),
    {
        let n = match self.num.checked_mul(other.den) {
            Some(n) => n,
            None => return None,
        };
        let d = match self.den.checked_mul(other.num) {
            Some(d) => d,
            None => return None,
        };
        if !new_is_defined(n, d) {
            return None;
        }
        Some(self.div(other))
    }
}

fn new_is_defined(num: i64, den: i64) -> (b: bool)
    ensures
        b == new_defined(num as int, den as int),
{
    den != 0 && (den > 0 || (num != i64::MIN && den != i64::MIN))
}

/// Addition does not depend on the order of its operands.
pub proof fn law_add_commutative(a: Fraction, b: Fraction)
    requires
        add_defined(a, b),
    ensures
        add_defined(b, a),
        spec_add(a, b) == spec_add(b, a),
{
    vstd::arithmetic::mul::lemma_mul_is_commutative(a.den as int, b.den as int);
}

/// Multiplication does not depend on the order of its operands.
pub proof fn law_mul_commutative(a: Fraction, b: Fraction)
    requires
        mul_defined(a, b),
    ensures
        mul_defined(b, a),
        spec_mul(a, b) == spec_mul(b, a),
{
    vstd::arithmetic::mul::lemma_mul_is_commutative(a.den as int, b.den as int);
    vstd::arithmetic::mul::lemma_mul_is_commutative(a.num as int, b.num as int);
}

/// Scaling by one leaves a fraction in lowest terms unchanged.
pub proof fn law_mul_by_one(a: Fraction)
    requires
        lowest_terms(a),
    ensures
        mul_defined(a, spec_whole(1)),
        spec_mul(a, spec_whole(1)) == a,
{
    crate::number_theory::lemma_gcd_with_one(1);
    law_new_of_lowest_terms(Fraction { num: 1, den: 1 });
    law_new_of_lowest_terms(a);
}

proof fn lemma_cross_cancel(mn: int, td: int, tn: int, md: int, x: int, b: int)
    requires
        mn * x == b * md,
        b * td == tn * x,
        x > 0,
    ensures
        mn * td == tn * md,
{
    assert(mn * td * x == tn * md * x) by (nonlinear_arith)
        requires
            mn * x == b * md,
            b * td == tn * x,
    ;
    assert(mn * td == tn * md) by (nonlinear_arith)
        requires
            mn * td * x == tn * md * x,
            x > 0,
    ;
}

/// Scaling a serving count by `target / servings` gives exactly `target`.
pub proof fn law_scale_to_target(servings: Fraction, target: Fraction)
    requires
        lowest_terms(servings),
        lowest_terms(target),
        servings.num > 0,
        div_defined(target, servings),
        mul_defined(servings, spec_div(target, servings)),
    ensures
        spec_mul(servings, spec_div(target, servings)) == target,
{
    let f = spec_div(target, servings);
    lemma_spec_new(target.num * servings.den, target.den * servings.num);
    let m = spec_mul(servings, f);
    lemma_spec_new(servings.num * f.num, servings.den * f.den);
    let (sn, sd, tn, td) = (servings.num as int, servings.den as int, target.num as int, target.den as int);
    let (fn_, fd, mn, md) = (f.num as int, f.den as int, m.num as int, m.den as int);
    assert(mn * (sd * fd) == (sn * fn_) * md);
    assert(fn_ * (td * sn) == (tn * sd) * fd);
    let x = sd * fd;
    let b = sn * fn_;
    assert(x > 0) by (nonlinear_arith)
        requires
            sd > 0,
            fd > 0,
            x == sd * fd,
    ;
    assert(b * td == tn * x) by (nonlinear_arith)
        requires
            fn_ * (td * sn) == (tn * sd) * fd,
            b == sn * fn_,
            x == sd * fd,
    ;
    lemma_cross_cancel(mn, td, tn, md, x, b);
    lemma_lowest_terms_same_ratio(m, target);
}

/// Multiplying by a nonzero fraction and then dividing by it gives back the
/// fraction, where neither step overflows.
pub proof fn law_div_undoes_mul(a: Fraction, b: Fraction)
    requires
        lowest_terms(a),
        b.num != 0,
        b.den != 0,
        mul_defined(a, b),
        div_defined(spec_mul(a, b), b),
    ensures
        spec_div(spec_mul(a, b), b) == a,
{
    let m = spec_mul(a, b);
    lemma_spec_new(a.num * b.num, a.den * b.den);
    let r = spec_div(m, b);
    lemma_spec_new(m.num * b.den, m.den * b.num);
    let (an, ad, bn, bd) = (a.num as int, a.den as int, b.num as int, b.den as int);
    let (mn, md, rn, rd) = (m.num as int, m.den as int, r.num as int, r.den as int);
    assert(mn * (ad * bd) == (an * bn) * md);
    assert(rn * (md * bn) == (mn * bd) * rd);
    let k = md * bn * bd;
    assert(k != 0) by (nonlinear_arith)
        requires
            md > 0,
            bn != 0,
            bd != 0,
            k == md * bn * bd,
    ;
    let x = rn * (md * bn);
    let y = ad * bd;
    assert((rn * ad) * k == x * y) by (nonlinear_arith)
        requires
            k == md * bn * bd,
            x == rn * (md * bn),
            y == ad * bd,
    ;
    assert(x * y == (mn * bd * rd) * y);
    assert((mn * bd * rd) * y == (mn * y) * (bd * rd)) by (nonlinear_arith);
    assert((mn * y) * (bd * rd) == ((an * bn) * md) * (bd * rd));
    assert(((an * bn) * md) * (bd * rd) == (an * rd) * k) by (nonlinear_arith)
        requires
            k == md * bn * bd,
    ;
    assert(rn * ad == an * rd) by (nonlinear_arith)
        requires
            (rn * ad) * k == (an * rd) * k,
            k != 0,
    ;
    lemma_lowest_terms_same_ratio(r, a);
}

pub open spec fn pow10(k: nat) -> nat
    decreases k,
{
    if k == 0 {
        1
    } else {
        10 * pow10((k - 1) as nat)
    }
}

/// The exact value of an unsigned decimal `body` as a numerator over a power of
/// ten: digits, optionally one '.' followed by at least one digit (the digits
/// before the '.' may be missing), where the numerator and denominator fit in `i64`.
pub open spec fn spec_unsigned_decimal(body: Seq<char>) -> Option<(int, int)> {
    if body.len() == 0 || span(body, CharClass::DigitOrDot) < body.len() {
        None
    } else {
        let p = span(body, CharClass::Digit);
        if p == body.len() {
            match spec_parse_digits(body) {
                Some(v) => Some((v, 1)),
                None => None,
            }
        } else {
            let int_part = body.take(p as int);
            let frac_part = body.skip(p as int + 1);
            let k = frac_part.len();
            let num = digits_value(int_part) * pow10(k) + digits_value(frac_part);
            if k == 0 || span(frac_part, CharClass::Digit) < k || pow10(k) > i64::MAX || num
                > i64::MAX {
                None
            } else {
                Some((num as int, pow10(k) as int))
            }
        }
    }
}

/// What `parse_decimal` accepts and returns: an optional '-' before an unsigned
/// decimal, read exactly.
pub open spec fn spec_parse_decimal(text: Seq<char>) -> Option<Fraction> {
    let negative = text.len() > 0 && text[0] == '-';
    let body = if negative {
        text.drop_first()
    } else {
        text
    };
    match spec_unsigned_decimal(body) {
        Some((n, d)) => Some(
            spec_new(
                if negative {
                    -n
                } else {
                    n
                },
                d,
            ),
        ),
        None => None,
    }
}

proof fn lemma_pow10_positive(k: nat)
    ensures
        pow10(k) >= 1,
    decreases k,
{
    if k > 0 {
        lemma_pow10_positive((k - 1) as nat);
    }
}

/// `10^k`, or `None` where it does not fit in `i64`.
fn checked_pow10(k: usize) -> (r: Option<i64>)
    ensures
        r == (if pow10(k as nat) <= i64::MAX { Some(pow10(k as nat) as i64) } else { None::<i64> }),
{
    let mut den: i64 = 1;
    let mut i: usize = 0;
    while i < k
        invariant
            i <= k,
            den as int == pow10(i as nat),
        decreases k - i,
    {
        match den.checked_mul(10) {
            Some(d) => {
                den = d;
            },
            None => {
                proof {
                    lemma_pow10_monotone((i + 1) as nat, k as nat);
                }
                return None;
            },
        }
        i = i + 1;
    }
    Some(den)
}

proof fn lemma_pow10_monotone(i: nat, k: nat)
    requires
        i <= k,
    ensures
        pow10(i) <= pow10(k),
    decreases k,
{
    if i < k {
        lemma_pow10_monotone(i, (k - 1) as nat);
        lemma_pow10_positive((k - 1) as nat);
    }
}

proof fn lemma_unsigned_decimal_bounds(body: Seq<char>)
    ensures
        spec_unsigned_decimal(body) matches Some((n, d)) ==> 0 <= n <= i64::MAX && 1 <= d
            <= i64::MAX,
{
    let p = span(body, CharClass::Digit);
    lemma_span_bound(body, CharClass::Digit);
    if p < body.len() {
        lemma_pow10_positive(body.skip(p as int + 1).len());
    }
}

/// The value of the unsigned decimal `chars[start..]`, in lowest terms.
fn parse_magnitude(chars: &Vec<char>, start: usize) -> (r: Option<Fraction>)
    requires
        start <= chars.len(),
    ensures
        r == (match spec_unsigned_decimal(chars@.subrange(start as int, chars.len() as int)) {
            Some((n, d)) => Some(spec_new(n, d)),
            None => None::<Fraction>,
        }),
        r is Some ==> r->0.num >= 0 && r->0.den > 0,
{
    let n = chars.len();
    let ghost body = chars@.subrange(start as int, n as int);
    if start == n || span_from(chars, start, n, CharClass::DigitOrDot) != n {
        return None;
    }
    let p = span_from(chars, start, n, CharClass::Digit);
    proof {
        lemma_span_bound(body, CharClass::Digit);
        lemma_span_bound(body, CharClass::DigitOrDot);
    }
    if p == n {
        match parse_digits(chars, start, n) {
            Some(v) => {
                proof {
                    crate::number_theory::lemma_gcd_with_one(abs(v as int));
                    law_new_of_lowest_terms(Fraction { num: v, den: 1 });
                }
                Some(Fraction::whole(v))
            },
            None => None,
        }
    } else {
        let frac_start = p + 1;
        let ghost int_part = body.take(p - start);
        let ghost frac_part = body.skip(p - start + 1);
        assert(chars@[p as int] == '.');
        assert(int_part =~= chars@.subrange(start as int, p as int));
        assert(frac_part =~= chars@.subrange(frac_start as int, n as int));
        if frac_start == n || span_from(chars, frac_start, n, CharClass::Digit) != n {
            return None;
        }
        proof {
            lemma_span_bound(frac_part, CharClass::Digit);
            assert forall|i: int| 0 <= i < int_part.len() implies crate::text::is_digit(
                #[trigger] int_part[i],
            ) by {
                assert(int_part[i] == body[i]);
            }
            lemma_pow10_positive(frac_part.len());
            assert(digits_value(int_part) * pow10(frac_part.len()) >= digits_value(int_part))
                by (nonlinear_arith)
                requires
                    pow10(frac_part.len()) >= 1,
            ;
        }
        let int_val: i64 = if p == start {
            0
        } else {
            match parse_digits(chars, start, p) {
                Some(v) => v,
                None => return None,
            }
        };
        let frac_val: i64 = match parse_digits(chars, frac_start, n) {
            Some(v) => v,
            None => return None,
        };
        let den = match checked_pow10(n - frac_start) {
            Some(d) => d,
            None => return None,
        };
        let num = match int_val.checked_mul(den) {
            Some(x) => match x.checked_add(frac_val) {
                Some(y) => y,
                None => return None,
            },
            None => return None,
        };
        proof {
            lemma_spec_new(num as int, den as int);
            let m = spec_new(num as int, den as int);
            assert(m.num >= 0) by (nonlinear_arith)
                requires
                    m.num * den == num * m.den,
                    num >= 0,
                    den > 0,
                    m.den > 0,
            ;
        }
        Some(Fraction::new(num, den))
    }
}

/// Parses a plain decimal ("12", "1.5", "-0.25", ".5") into an exact fraction.
pub fn parse_decimal(text: &str) -> (r: Option<Fraction>)
    ensures
        r == spec_parse_decimal(text@),
{
    let chars = chars_of(text);
    let negative = chars.len() > 0 && chars[0] == '-';
    let start: usize = if negative {
        1
    } else {
        0
    };
    assert(chars@.subrange(start as int, chars.len() as int) =~= (if negative {
        text@.drop_first()
    } else {
        text@
    }));
    let magnitude = match parse_magnitude(&chars, start) {
        Some(m) => m,
        None => return None,
    };
    if negative {
        let ghost nd = spec_unsigned_decimal(text@.drop_first()).unwrap();
        proof {
            lemma_unsigned_decimal_bounds(text@.drop_first());
            lemma_spec_new(nd.0, nd.1);
            assert((-magnitude.num) * nd.1 == (-nd.0) * magnitude.den) by (nonlinear_arith)
                requires
                    magnitude.num * nd.1 == nd.0 * magnitude.den,
            ;
            law_new_equal_iff_same_value(-magnitude.num, magnitude.den as int, -nd.0, nd.1);
        }
        Some(Fraction::new(-magnitude.num, magnitude.den))
    } else {
        Some(magnitude)
    }
}

/// `parse_decimal` gives fractions in lowest terms with a positive denominator.
pub proof fn law_parse_decimal_lowest_terms(text: Seq<char>)
    ensures
        spec_parse_decimal(text) matches Some(f) ==> lowest_terms(f),
{
    let negative = text.len() > 0 && text[0] == '-';
    let body = if negative {
        text.drop_first()
    } else {
        text
    };
    lemma_unsigned_decimal_bounds(body);
    match spec_unsigned_decimal(body) {
        Some((n, d)) => {
            lemma_spec_new(
                if negative {
                    -n
                } else {
                    n
                },
                d,
            );
        },
        None => {},
    }
}

/// `spec_mul(spec_mul(a, b), c)` has the value `a * b * c`, written as a
/// single ratio of products.
proof fn lemma_mul_twice_value(a: Fraction, b: Fraction, c: Fraction)
    requires
        mul_defined(a, b),
        mul_defined(spec_mul(a, b), c),
    ensures
        spec_mul(spec_mul(a, b), c).num * (a.den * b.den * c.den) == (a.num * b.num * c.num)
            * spec_mul(spec_mul(a, b), c).den,
        a.den * b.den * c.den != 0,
{
    let x = spec_mul(a, b);
    lemma_spec_new(a.num * b.num, a.den * b.den);
    let y = spec_mul(x, c);
    lemma_spec_new(x.num * c.num, x.den * c.den);
    let (xn, xd, yn, yd) = (x.num as int, x.den as int, y.num as int, y.den as int);
    let (an, ad, bn, bd, cn, cd) = (a.num as int, a.den as int, b.num as int, b.den as int, c.num as int, c.den as int);
    let big_a = an * bn * cn;
    let big_d = ad * bd * cd;
    assert(cd != 0) by (nonlinear_arith)
        requires
            xd * cd != 0,
    ;
    assert(big_d != 0) by (nonlinear_arith)
        requires
            ad * bd != 0,
            cd != 0,
            big_d == ad * bd * cd,
    ;
    assert((xn * cn) * big_d == big_a * (xd * cd)) by (nonlinear_arith)
        requires
            xn * (ad * bd) == (an * bn) * xd,
            big_a == an * bn * cn,
            big_d == ad * bd * cd,
    ;
    crate::number_theory::lemma_ratio_chain(yn, yd, xn * cn, xd * cd, big_a, big_d);
}

/// Scaling is exact, so scaling twice is the same as scaling once by the
/// product of the factors: multiplication is associative.
pub proof fn law_mul_associative(a: Fraction, b: Fraction, c: Fraction)
    requires
        mul_defined(a, b),
        mul_defined(spec_mul(a, b), c),
        mul_defined(b, c),
        mul_defined(a, spec_mul(b, c)),
    ensures
        spec_mul(spec_mul(a, b), c) == spec_mul(a, spec_mul(b, c)),
{
    let y = spec_mul(spec_mul(a, b), c);
    lemma_mul_twice_value(a, b, c);
    // the other grouping, rewritten as (b * c) * a
    let bc = spec_mul(b, c);
    law_mul_commutative(a, bc);
    let z = spec_mul(bc, a);
    lemma_mul_twice_value(b, c, a);
    lemma_spec_new(bc.num * a.num, bc.den * a.den);
    lemma_spec_new(spec_mul(a, b).num * c.num, spec_mul(a, b).den * c.den);
    let (an, ad, bn, bd, cn, cd) = (a.num as int, a.den as int, b.num as int, b.den as int, c.num as int, c.den as int);
    let big_a = an * bn * cn;
    let big_d = ad * bd * cd;
    assert(bn * cn * an == big_a && bd * cd * ad == big_d) by (nonlinear_arith)
        requires
            big_a == an * bn * cn,
            big_d == ad * bd * cd,
    ;
    crate::number_theory::lemma_ratio_chain(y.num as int, y.den as int, big_a, big_d, z.num as int, z.den as int);
    lemma_lowest_terms_same_ratio(y, z);
}

/// `sig * 10^t` as a numerator and denominator that both fit in `i64`: a
/// whole number when `t >= 0`, else `sig` over `10^-t`. Zero is zero whatever `t`.
pub open spec fn scaled_value(sig: nat, t: int) -> Option<(int, int)> {
    if sig == 0 {
        Some((0, 1))
    } else if t >= 0 {
        if sig * pow10(t as nat) <= i64::MAX {
            Some(((sig * pow10(t as nat)) as int, 1))
        } else {
            None
        }
    } else if sig <= i64::MAX && pow10((-t) as nat) <= i64::MAX {
        Some((sig as int, pow10((-t) as nat) as int))
    } else {
        None
    }
}

/// The number of digits before the point of the mantissa at the front of `body`.
pub open spec fn int_digits(body: Seq<char>) -> nat {
    span(body, CharClass::Digit)
}

/// Whether a '.' follows those digits.
pub open spec fn has_point(body: Seq<char>) -> bool {
    int_digits(body) < body.len() && body[int_digits(body) as int] == '.'
}

/// Where the digits after the point start.
pub open spec fn frac_start(body: Seq<char>) -> int {
    if has_point(body) {
        int_digits(body) + 1int
    } else {
        int_digits(body) as int
    }
}

/// The number of digits after the point.
pub open spec fn frac_digits(body: Seq<char>) -> nat {
    if has_point(body) {
        span(body.skip(frac_start(body)), CharClass::Digit)
    } else {
        0
    }
}

/// Where the mantissa ends.
pub open spec fn mantissa_end(body: Seq<char>) -> int {
    frac_start(body) + frac_digits(body)
}

/// The mantissa's digits, without the point.
pub open spec fn mantissa_digit_seq(body: Seq<char>) -> Seq<char> {
    body.take(int_digits(body) as int) + body.subrange(frac_start(body), mantissa_end(body))
}

/// The number of zeros that end the mantissa's digits.
pub open spec fn trailing_zeros(body: Seq<char>) -> nat {
    span_back(mantissa_digit_seq(body), CharClass::Zero)
}

/// The mantissa's digits without those zeros, read as one integer.
pub open spec fn significand(body: Seq<char>) -> nat {
    let ds = mantissa_digit_seq(body);
    digits_value(ds.take(ds.len() - trailing_zeros(body)))
}

/// The power of ten that the significand stands at in the mantissa: the
/// mantissa is `significand * 10^mantissa_power`.
pub open spec fn mantissa_power(body: Seq<char>) -> int {
    trailing_zeros(body) - frac_digits(body)
}

/// An exponent suffix: 'e' or 'E', an optional '+' or '-', then one or more
/// digits up to the end. Gives whether it is negative, and its value.
pub open spec fn spec_exponent(tail: Seq<char>) -> Option<(bool, nat)> {
    if tail.len() == 0 || !(tail[0] == 'e' || tail[0] == 'E') {
        None
    } else {
        let signed = tail.len() > 1 && (tail[1] == '+' || tail[1] == '-');
        let digits = tail.skip(
            if signed {
                2
            } else {
                1
            },
        );
        if digits.len() == 0 || span(digits, CharClass::Digit) < digits.len() {
            None
        } else {
            Some((signed && tail[1] == '-', digits_value(digits)))
        }
    }
}

/// The exact value of an unsigned number written as a float literal: digits,
/// optionally a '.' with more digits (at least one digit in all), optionally an
/// exponent. The value is the significand times a power of ten; it is given as
/// a whole number, or as the significand over a power of ten, when the parts
/// fit in `i64`.
pub open spec fn spec_exact_magnitude(body: Seq<char>) -> Option<(int, int)> {
    let m_end = mantissa_end(body);
    if int_digits(body) + frac_digits(body) == 0 {
        None
    } else if m_end == body.len() {
        scaled_value(significand(body), mantissa_power(body))
    } else {
        match spec_exponent(body.skip(m_end)) {
            Some((negative, e)) => scaled_value(
                significand(body),
                mantissa_power(body) + if negative {
                    -e
                } else {
                    e as int
                },
            ),
            None => None,
        }
    }
}

/// What `parse_number_exact` accepts and returns: an optional '+' or '-' before
/// an unsigned float literal, read exactly. ("inf" and "nan" have no exact value
/// and are not accepted.)
pub open spec fn spec_parse_number_exact(text: Seq<char>) -> Option<Fraction> {
    let signed = text.len() > 0 && (text[0] == '+' || text[0] == '-');
    let negative = text.len() > 0 && text[0] == '-';
    let body = if signed {
        text.drop_first()
    } else {
        text
    };
    match spec_exact_magnitude(body) {
        Some((n, d)) => Some(
            spec_new(
                if negative {
                    -n
                } else {
                    n
                },
                d,
            ),
        ),
        None => None,
    }
}

proof fn lemma_pow10_small(e: nat)
    requires
        e <= 18,
    ensures
        pow10(e) <= i64::MAX,
{
    reveal_with_fuel(pow10, 19);
    assert(pow10(18) == 1000000000000000000nat);
    lemma_pow10_monotone(e, 18);
}

proof fn lemma_pow10_beyond_i64(e: nat)
    requires
        e >= 19,
    ensures
        pow10(e) > i64::MAX,
{
    reveal_with_fuel(pow10, 20);
    assert(pow10(19) == 10000000000000000000nat);
    lemma_pow10_monotone(19, e);
}

proof fn lemma_scaled_large(sig: nat)
    requires
        sig > i64::MAX,
    ensures
        forall|t: int| #[trigger] scaled_value(sig, t) is None,
{
    assert forall|t: int| #[trigger] scaled_value(sig, t) is None by {
        if t >= 0 {
            lemma_pow10_positive(t as nat);
            assert(sig * pow10(t as nat) >= sig) by (nonlinear_arith)
                requires
                    pow10(t as nat) >= 1,
            ;
        }
    }
}

proof fn lemma_scaled_far(sig: nat, t: int)
    requires
        sig >= 1,
        t >= 19 || t <= -19,
    ensures
        scaled_value(sig, t) is None,
{
    if t >= 19 {
        lemma_pow10_beyond_i64(t as nat);
        assert(sig * pow10(t as nat) >= pow10(t as nat)) by (nonlinear_arith)
            requires
                sig >= 1,
        ;
    } else {
        lemma_pow10_beyond_i64((-t) as nat);
    }
}

proof fn lemma_scaled_bounds(sig: nat, t: int)
    ensures
        scaled_value(sig, t) matches Some((n, d)) ==> 0 <= n <= i64::MAX && 1 <= d <= i64::MAX,
{
    if t < 0 {
        lemma_pow10_positive((-t) as nat);
    }
}

proof fn lemma_exact_magnitude_bounds(body: Seq<char>)
    ensures
        spec_exact_magnitude(body) matches Some((n, d)) ==> 0 <= n <= i64::MAX && 1 <= d
            <= i64::MAX,
{
    lemma_scaled_bounds(significand(body), mantissa_power(body));
    if let Some((negative, e)) = spec_exponent(body.skip(mantissa_end(body))) {
        lemma_scaled_bounds(
            significand(body),
            mantissa_power(body) + if negative {
                -e
            } else {
                e as int
            },
        );
    }
}

proof fn lemma_digits_value_concat(a: Seq<char>, b: Seq<char>)
    ensures
        digits_value(a + b) == digits_value(a) * pow10(b.len()) + digits_value(b),
    decreases b.len(),
{
    if b.len() == 0 {
        assert(a + b =~= a);
        assert(pow10(0) == 1);
        assert(digits_value(b) == 0);
    } else {
        assert((a + b).drop_last() =~= a + b.drop_last());
        assert((a + b).last() == b.last());
        lemma_digits_value_concat(a, b.drop_last());
        let x = digits_value(a);
        let p = pow10((b.len() - 1) as nat);
        let y = digits_value(b.drop_last());
        let d = ((b.last() as int - '0' as int) as nat);
        assert(digits_value(a + b) == 10 * digits_value(a + b.drop_last()) + d);
        assert(digits_value(b) == 10 * y + d);
        assert(pow10(b.len()) == 10 * p);
        assert(digits_value(a + b) == x * pow10(b.len()) + digits_value(b)) by (nonlinear_arith)
            requires
                digits_value(a + b) == 10 * digits_value(a + b.drop_last()) + d,
                digits_value(a + b.drop_last()) == x * p + y,
                digits_value(b) == 10 * y + d,
                pow10(b.len()) == 10 * p,
        ;
    }
}

/// Reads the mantissa at the front of `chars[start..]`: its significand, the
/// power of ten it stands at, and where the mantissa ends. `None` where it has
/// no digit, or where the significand does not fit in `i64`.
#[verifier::spinoff_prover]
#[verifier::rlimit(40)]
fn read_mantissa(chars: &Vec<char>, start: usize) -> (r: Option<(i64, i128, usize)>)
    requires
        start <= chars.len(),
    ensures
        ({
            let body = chars@.subrange(start as int, chars.len() as int);
            match r {
                Some((sig, t0, end)) => int_digits(body) + frac_digits(body) > 0 && sig as int
                    == significand(body) && t0 as int == mantissa_power(body) && end as int
                    == start + mantissa_end(body) && end <= chars.len() && -(chars.len() as int)
                    <= t0 <= chars.len(),
                None => int_digits(body) + frac_digits(body) == 0 || significand(body)
                    > i64::MAX,
            }
        }),
{
    let n = chars.len();
    let ghost body = chars@.subrange(start as int, n as int);
    let p = span_from(chars, start, n, CharClass::Digit);
    proof {
        lemma_span_bound(body, CharClass::Digit);
    }
    let has_dot = p < n && chars[p] == '.';
    let frac_start = if has_dot {
        p + 1
    } else {
        p
    };
    let m_end = if has_dot {
        span_from(chars, frac_start, n, CharClass::Digit)
    } else {
        p
    };
    let ghost pr = p - start;
    let ghost fr = frac_start - start;
    proof {
        if p < n {
            assert(chars@[p as int] == body[pr]);
        }
        assert(has_dot == has_point(body));
        if has_dot {
            assert(body.skip(fr) =~= chars@.subrange(frac_start as int, n as int));
            lemma_span_bound(body.skip(fr), CharClass::Digit);
        }
    }
    if p == start && m_end == frac_start {
        return None;
    }
    let ghost int_part = chars@.subrange(start as int, p as int);
    let ghost frac_part = chars@.subrange(frac_start as int, m_end as int);
    proof {
        assert(body.take(pr) =~= int_part);
        assert(body.subrange(fr, m_end - start) =~= frac_part);
        assert(mantissa_digit_seq(body) == int_part + frac_part);
        assert forall|i: int| 0 <= i < int_part.len() implies crate::text::is_digit(
            #[trigger] int_part[i],
        ) by {
            assert(int_part[i] == body[i]);
        }
        if has_dot {
            assert forall|i: int| 0 <= i < frac_part.len() implies crate::text::is_digit(
                #[trigger] frac_part[i],
            ) by {
                assert(frac_part[i] == body.skip(fr)[i]);
            }
        }
        lemma_span_back_concat(int_part, frac_part, CharClass::Zero);
        lemma_span_back_bound(frac_part, CharClass::Zero);
        lemma_span_back_bound(int_part, CharClass::Zero);
    }
    let fe = span_back_from(chars, frac_start, m_end, CharClass::Zero);
    if fe > frac_start {
        let k = fe - frac_start;
        let ghost frac_sig = chars@.subrange(frac_start as int, fe as int);
        proof {
            assert((int_part + frac_part).take(int_part.len() + k) =~= int_part + frac_sig);
            lemma_digits_value_concat(int_part, frac_sig);
            lemma_pow10_positive(k as nat);
            assert forall|i: int| 0 <= i < frac_sig.len() implies crate::text::is_digit(
                #[trigger] frac_sig[i],
            ) by {
                assert(frac_sig[i] == frac_part[i]);
            }
            assert(digits_value(int_part) * pow10(k as nat) >= digits_value(int_part))
                by (nonlinear_arith)
                requires
                    pow10(k as nat) >= 1,
            ;
        }
        let frac_val = match parse_digits(chars, frac_start, fe) {
            Some(v) => v,
            None => {
                proof {
                    assert(digits_value(int_part) * pow10(k as nat) >= 0) by (nonlinear_arith);
                }
                return None;
            },
        };
        let int_val: i64 = if p == start {
            0
        } else {
            match parse_digits(chars, start, p) {
                Some(v) => v,
                None => return None,
            }
        };
        proof {
            if p == start {
                assert(int_part.len() == 0);
                assert(digits_value(int_part) == 0);
            }
            assert(int_val == digits_value(int_part));
            assert(frac_val == digits_value(frac_sig));
            if int_val == 0 {
                assert(digits_value(int_part) * pow10(k as nat) == 0) by (nonlinear_arith)
                    requires
                        digits_value(int_part) == 0,
                ;
            }
        }
        let sig = if int_val == 0 {
            frac_val
        } else {
            let pk = match checked_pow10(k) {
                Some(x) => x,
                None => {
                    proof {
                        assert(digits_value(int_part) * pow10(k as nat) >= pow10(k as nat))
                            by (nonlinear_arith)
                            requires
                                digits_value(int_part) >= 1,
                        ;
                    }
                    return None;
                },
            };
            match int_val.checked_mul(pk) {
                Some(x) => match x.checked_add(frac_val) {
                    Some(y) => y,
                    None => return None,
                },
                None => return None,
            }
        };
        proof {
            let ds = mantissa_digit_seq(body);
            assert(frac_digits(body) == frac_part.len());
            assert(trailing_zeros(body) == m_end - fe);
            assert(ds.take(ds.len() - trailing_zeros(body)) =~= int_part + frac_sig);
            assert(sig == significand(body));
            assert(-(k as int) == mantissa_power(body));
        }
        Some((sig, -(k as i128), m_end))
    } else {
        let ie = span_back_from(chars, start, p, CharClass::Zero);
        let ghost int_sig = chars@.subrange(start as int, ie as int);
        proof {
            assert((int_part + frac_part).take(ie - start) =~= int_sig);
            assert forall|i: int| 0 <= i < int_sig.len() implies crate::text::is_digit(
                #[trigger] int_sig[i],
            ) by {
                assert(int_sig[i] == int_part[i]);
            }
        }
        let sig: i64 = if ie == start {
            0
        } else {
            match parse_digits(chars, start, ie) {
                Some(v) => v,
                None => return None,
            }
        };
        proof {
            let ds = mantissa_digit_seq(body);
            assert(frac_digits(body) == frac_part.len());
            assert(span_back(frac_part, CharClass::Zero) == frac_part.len());
            assert(trailing_zeros(body) == frac_part.len() + (p - ie));
            assert(ds.take(ds.len() - trailing_zeros(body)) =~= int_sig);
            if ie == start {
                assert(int_sig.len() == 0);
                assert(digits_value(int_sig) == 0);
                assert(sig == digits_value(int_sig));
            } else {
                assert(spec_parse_digits(int_sig) == Some(sig as int));
                assert(sig == digits_value(int_sig));
            }
            assert(significand(body) == digits_value(int_sig));
            assert(sig == significand(body));
            assert((p - ie) == mantissa_power(body));
        }
        Some((sig, (p - ie) as i128, m_end))
    }
}

/// The largest exponent value that is kept exactly; beyond it every nonzero
/// significand is out of range whatever its own power of ten.
const EXPONENT_CAP: u128 = 1180591620717411303424u128;

/// Reads the exponent suffix `chars[from..]`: whether it is negative, and its
/// value capped at `EXPONENT_CAP`.
fn read_exponent(chars: &Vec<char>, from: usize) -> (r: Option<(bool, u128)>)
    requires
        from <= chars.len(),
    ensures
        match r {
            Some((negative, e)) => spec_exponent(chars@.subrange(from as int, chars.len() as int))
                matches Some((neg, v)) && neg == negative && e == (if v <= EXPONENT_CAP {
                v
            } else {
                EXPONENT_CAP as nat
            }),
            None => spec_exponent(chars@.subrange(from as int, chars.len() as int)) is None,
        },
{
    let n = chars.len();
    let ghost tail = chars@.subrange(from as int, n as int);
    if from == n || (chars[from] != 'e' && chars[from] != 'E') {
        return None;
    }
    let signed = from + 1 < n && (chars[from + 1] == '+' || chars[from + 1] == '-');
    let negative = signed && chars[from + 1] == '-';
    let ds = if signed {
        from + 2
    } else {
        from + 1
    };
    let de = span_from(chars, ds, n, CharClass::Digit);
    let ghost digits = tail.skip(ds - from);
    proof {
        assert(digits =~= chars@.subrange(ds as int, n as int));
        lemma_span_bound(digits, CharClass::Digit);
    }
    if de == ds || de != n {
        return None;
    }
    proof {
        assert forall|j: int| ds <= j < n implies crate::text::is_digit(#[trigger] chars@[j]) by {
            assert(chars@[j] == digits[j - ds]);
        }
    }
    let mut v: u128 = 0;
    let mut i = ds;
    while i < n
        invariant
            ds <= i <= n,
            n == chars.len(),
            forall|j: int| ds <= j < n ==> crate::text::is_digit(#[trigger] chars@[j]),
            v as int == (if digits_value(chars@.subrange(ds as int, i as int)) <= EXPONENT_CAP {
                digits_value(chars@.subrange(ds as int, i as int)) as int
            } else {
                EXPONENT_CAP as int
            }),
        decreases n - i,
    {
        assert(chars@.subrange(ds as int, i + 1).drop_last() =~= chars@.subrange(ds as int, i as int));
        assert(chars@.subrange(ds as int, i + 1).last() == chars@[i as int]);
        assert(crate::text::is_digit(chars@[i as int]));
        let d = (chars[i] as u32 - '0' as u32) as u128;
        let w = v * 10 + d;
        v = if w > EXPONENT_CAP {
            EXPONENT_CAP
        } else {
            w
        };
        i = i + 1;
    }
    Some((negative, v))
}

/// `sig * 10^t` as a numerator and denominator that fit in `i64`.
fn apply_power(sig: i64, t: i128) -> (r: Option<(i64, i64)>)
    requires
        sig >= 0,
    ensures
        match r {
            Some((a, b)) => scaled_value(sig as nat, t as int) == Some((a as int, b as int)),
            None => scaled_value(sig as nat, t as int) is None,
        },
{
    if sig == 0 {
        return Some((0, 1));
    }
    if t >= 19 || t <= -19 {
        proof {
            lemma_scaled_far(sig as nat, t as int);
        }
        return None;
    }
    if t >= 0 {
        let k = t as usize;
        proof {
            lemma_pow10_small(k as nat);
        }
        let pk = match checked_pow10(k) {
            Some(x) => x,
            None => return None,
        };
        match sig.checked_mul(pk) {
            Some(x) => Some((x, 1)),
            None => None,
        }
    } else {
        let k = (-t) as usize;
        proof {
            lemma_pow10_small(k as nat);
        }
        let pk = match checked_pow10(k) {
            Some(x) => x,
            None => return None,
        };
        Some((sig, pk))
    }
}

/// Capping the exponent at `EXPONENT_CAP` does not change the value: beyond
/// the cap, a nonzero significand is out of range either way.
proof fn lemma_capped_exponent(sig: nat, t0: int, negative: bool, ev: nat)
    requires
        -0x1_0000_0000_0000_0000 <= t0 <= 0x1_0000_0000_0000_0000,
    ensures
        ({
            let e = if ev <= EXPONENT_CAP {
                ev as int
            } else {
                EXPONENT_CAP as int
            };
            scaled_value(sig, t0 + if negative {
                -e
            } else {
                e
            }) == scaled_value(sig, t0 + if negative {
                -ev
            } else {
                ev as int
            })
        }),
{
    if ev > EXPONENT_CAP && sig >= 1 {
        if negative {
            lemma_scaled_far(sig, t0 - EXPONENT_CAP);
            lemma_scaled_far(sig, t0 - ev);
        } else {
            lemma_scaled_far(sig, t0 + EXPONENT_CAP);
            lemma_scaled_far(sig, t0 + ev);
        }
    }
}

/// The numerator and denominator of the unsigned float literal `chars[start..]`.
fn exact_magnitude(chars: &Vec<char>, start: usize) -> (r: Option<(i64, i64)>)
    requires
        start <= chars.len(),
    ensures
        match r {
            Some((n, d)) => spec_exact_magnitude(chars@.subrange(start as int, chars.len() as int))
                == Some((n as int, d as int)),
            None => spec_exact_magnitude(chars@.subrange(start as int, chars.len() as int)) is None,
        },
{
    let n = chars.len();
    let ghost body = chars@.subrange(start as int, n as int);
    let (sig, t0, m_end) = match read_mantissa(chars, start) {
        Some(x) => x,
        None => {
            proof {
                if int_digits(body) + frac_digits(body) > 0 {
                    lemma_scaled_large(significand(body));
                }
            }
            return None;
        },
    };
    if m_end == n {
        return apply_power(sig, t0);
    }
    proof {
        assert(body.skip(m_end - start) =~= chars@.subrange(m_end as int, n as int));
    }
    match read_exponent(chars, m_end) {
        None => None,
        Some((negative, e)) => {
            let ghost ev = spec_exponent(body.skip(m_end - start)).unwrap().1;
            proof {
                lemma_capped_exponent(sig as nat, t0 as int, negative, ev);
            }
            let t: i128 = if negative {
                t0 - e as i128
            } else {
                t0 + e as i128
            };
            apply_power(sig, t)
        },
    }
}

proof fn lemma_strip_trailing_zeros(ds: Seq<char>)
    ensures
        digits_value(ds) == digits_value(ds.take(ds.len() - span_back(ds, CharClass::Zero))) * pow10(
            span_back(ds, CharClass::Zero),
        ),
    decreases ds.len(),
{
    lemma_span_back_bound(ds, CharClass::Zero);
    let z = span_back(ds, CharClass::Zero);
    if ds.len() > 0 && ds.last() == '0' {
        let dl = ds.drop_last();
        lemma_strip_trailing_zeros(dl);
        lemma_span_back_bound(dl, CharClass::Zero);
        let zl = span_back(dl, CharClass::Zero);
        assert(ds.take(ds.len() - z) =~= dl.take(dl.len() - zl));
        let x = digits_value(dl.take(dl.len() - zl));
        assert(digits_value(ds) == 10 * digits_value(dl));
        assert(pow10(z) == 10 * pow10(zl));
        assert(digits_value(ds) == x * pow10(z)) by (nonlinear_arith)
            requires
                digits_value(ds) == 10 * digits_value(dl),
                digits_value(dl) == x * pow10(zl),
                pow10(z) == 10 * pow10(zl),
        ;
    } else {
        assert(ds.take(ds.len() as int) =~= ds);
        assert(pow10(0) == 1);
        assert(digits_value(ds) == digits_value(ds) * 1) by (nonlinear_arith);
    }
}

/// A plain run of digits reads as the whole number it writes, exactly.
pub proof fn law_parse_number_exact_whole(w: Seq<char>)
    requires
        w.len() > 0,
        all_digits(w),
        digits_value(w) <= i64::MAX,
    ensures
        spec_parse_number_exact(w) == Some(Fraction { num: digits_value(w) as i64, den: 1 }),
{
    assert forall|i: int| 0 <= i < w.len() implies in_class(#[trigger] w[i], CharClass::Digit) by {
        assert(crate::text::is_digit(w[i]));
    }
    lemma_span_of_run(w, seq![], CharClass::Digit);
    assert(w + Seq::<char>::empty() =~= w);
    assert(crate::text::is_digit(w[0]));
    assert(int_digits(w) == w.len());
    assert(mantissa_digit_seq(w) =~= w);
    lemma_strip_trailing_zeros(w);
    let z = span_back(w, CharClass::Zero);
    let sig = significand(w);
    assert(digits_value(w) == sig * pow10(z));
    if sig == 0 {
        assert(sig * pow10(z) == 0) by (nonlinear_arith)
            requires
                sig == 0,
        ;
    }
    assert(spec_exact_magnitude(w) == Some((digits_value(w) as int, 1int)));
    crate::number_theory::lemma_gcd_with_one(digits_value(w));
    law_new_of_lowest_terms(Fraction { num: digits_value(w) as i64, den: 1 });
}

/// Reads a number the way a float literal is written ("4", "4.", ".5", "+2",
/// "-0.25", "1e3", "2.5E-1"), exactly, as a fraction in lowest terms.
pub fn parse_number_exact(text: &str) -> (r: Option<Fraction>)
    ensures
        r == spec_parse_number_exact(text@),
{
    let chars = chars_of(text);
    let signed = chars.len() > 0 && (chars[0] == '+' || chars[0] == '-');
    let negative = chars.len() > 0 && chars[0] == '-';
    let start: usize = if signed {
        1
    } else {
        0
    };
    assert(chars@.subrange(start as int, chars.len() as int) =~= (if signed {
        text@.drop_first()
    } else {
        text@
    }));
    let (m, d) = match exact_magnitude(&chars, start) {
        Some(md) => md,
        None => return None,
    };
    proof {
        lemma_exact_magnitude_bounds(chars@.subrange(start as int, chars.len() as int));
    }
    let num = if negative {
        -m
    } else {
        m
    };
    Some(Fraction::new(num, d))
}

/// `parse_number_exact` gives fractions in lowest terms with a positive denominator.
pub proof fn law_parse_number_exact_lowest_terms(text: Seq<char>)
    ensures
        spec_parse_number_exact(text) matches Some(f) ==> lowest_terms(f),
{
    let signed = text.len() > 0 && (text[0] == '+' || text[0] == '-');
    let negative = text.len() > 0 && text[0] == '-';
    let body = if signed {
        text.drop_first()
    } else {
        text
    };
    lemma_exact_magnitude_bounds(body);
    if let Some((n, d)) = spec_exact_magnitude(body) {
        lemma_spec_new(
            if negative {
                -n
            } else {
                n
            },
            d,
        );
    }
}

} // verus!
