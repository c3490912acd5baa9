use vstd::prelude::*;

verus! {

/// Euclid's greatest common divisor on natural numbers.
pub open spec fn spec_gcd(a: nat, b: nat) -> nat
    decreases b,
{
    if b == 0 {
        a
    } else {
        spec_gcd(b, a % b)
    }
}

/// `d` divides `n`: some integer multiple of `d` is `n`.
pub open spec fn divides(d: int, n: int) -> bool {
    exists|k: int| #[trigger] (d * k) == n
}

pub open spec fn abs(x: int) -> nat {
    if x < 0 {
        (-x) as nat
    } else {
        x as nat
    }
}

/// The gcd is a common divisor of both arguments, and it is zero only for (0, 0).
pub proof fn lemma_gcd_divides(a: nat, b: nat)
    ensures
        spec_gcd(a, b) == 0 <==> (a == 0 && b == 0),
        divides(spec_gcd(a, b) as int, a as int),
        divides(spec_gcd(a, b) as int, b as int),
    decreases b,
{
    let g = spec_gcd(a, b);
    if b == 0 {
        assert(g * 1 == a);
        assert(g * 0 == 0);
    } else {
        lemma_gcd_divides(b, a % b);
        let k1 = choose|k: int| #[trigger] (g * k) == b as int;
        let k2 = choose|k: int| #[trigger] (g * k) == (a % b) as int;
        let q = (a / b) as int;
        assert(a as int == b * q + (a % b) as int) by {
            vstd::arithmetic::div_mod::lemma_fundamental_div_mod(a as int, b as int);
        }
        assert(g * (k1 * q + k2) == a) by (nonlinear_arith)
            requires
                g * k1 == b as int,
                g * k2 == (a % b) as int,
                a as int == b * q + (a % b) as int,
        ;
        if g == 0 {
            assert(b == 0) by (nonlinear_arith)
                requires
                    g * k1 == b as int,
                    g == 0,
            ;
        }
    }
}

/// Bezout's identity: the gcd is an integer combination of its arguments.
pub proof fn lemma_bezout(a: nat, b: nat) -> (xy: (int, int))
    ensures
        a * xy.0 + b * xy.1 == spec_gcd(a, b),
    decreases b,
{
    if b == 0 {
        (1, 0)
    } else {
        let (x, y) = lemma_bezout(b, a % b);
        let q = (a / b) as int;
        let r = (a % b) as int;
        assert(a as int == b * q + r) by {
            vstd::arithmetic::div_mod::lemma_fundamental_div_mod(a as int, b as int);
        }
        assert(a * y + b * (x - q * y) == b * x + r * y) by (nonlinear_arith)
            requires
                a as int == b * q + r,
        ;
        (y, x - q * y)
    }
}

/// A positive divisor of a positive number is no larger than it.
pub proof fn lemma_divisor_le(d: int, n: int)
    requires
        d > 0,
        n > 0,
        divides(d, n),
    ensures
        d <= n,
{
    let k = choose|k: int| #[trigger] (d * k) == n;
    assert(d <= n) by (nonlinear_arith)
        requires
            d > 0,
            n > 0,
            d * k == n,
    ;
}

/// A common divisor of `a` and `b` divides every integer combination of them.
pub proof fn lemma_divides_combination(d: int, a: int, b: int, x: int, y: int)
    requires
        divides(d, a),
        divides(d, b),
    ensures
        divides(d, a * x + b * y),
{
    let ka = choose|k: int| #[trigger] (d * k) == a;
    let kb = choose|k: int| #[trigger] (d * k) == b;
    assert(d * (ka * x + kb * y) == a * x + b * y) by (nonlinear_arith)
        requires
            d * ka == a,
            d * kb == b,
    ;
}

/// Dividing two numbers by their gcd leaves coprime numbers.
pub proof fn lemma_gcd_quotients_coprime(a: nat, b: nat)
    requires
        a > 0 || b > 0,
    ensures
        spec_gcd(a, b) > 0,
        a % spec_gcd(a, b) == 0,
        b % spec_gcd(a, b) == 0,
        spec_gcd(a / spec_gcd(a, b), b / spec_gcd(a, b)) == 1,
{
    let g = spec_gcd(a, b);
    lemma_gcd_divides(a, b);
    let ka = choose|k: int| #[trigger] (g * k) == a as int;
    let kb = choose|k: int| #[trigger] (g * k) == b as int;
    assert(ka >= 0 && kb >= 0 && a / g == ka && b / g == kb && a % g == 0 && b % g == 0) by {
        assert(ka >= 0) by (nonlinear_arith)
            requires
                g > 0,
                g * ka == a as int,
                a >= 0,
        ;
        assert(kb >= 0) by (nonlinear_arith)
            requires
                g > 0,
                g * kb == b as int,
                b >= 0,
        ;
        vstd::arithmetic::div_mod::lemma_div_multiples_vanish(ka, g as int);
        vstd::arithmetic::div_mod::lemma_div_multiples_vanish(kb, g as int);
        vstd::arithmetic::div_mod::lemma_mod_multiples_basic(ka, g as int);
        vstd::arithmetic::div_mod::lemma_mod_multiples_basic(kb, g as int);
        vstd::arithmetic::mul::lemma_mul_is_commutative(g as int, ka);
        vstd::arithmetic::mul::lemma_mul_is_commutative(g as int, kb);
    }
    let (x, y) = lemma_bezout(a, b);
    assert(ka * x + kb * y == 1) by (nonlinear_arith)
        requires
            g > 0,
            g * ka == a as int,
            g * kb == b as int,
            a * x + b * y == g,
    ;
    let an = ka as nat;
    let bn = kb as nat;
    let h = spec_gcd(an, bn);
    assert(an > 0 || bn > 0) by (nonlinear_arith)
        requires
            g * ka == a as int,
            g * kb == b as int,
            a > 0 || b > 0,
            an == ka,
            bn == kb,
    ;
    lemma_gcd_divides(an, bn);
    lemma_divides_combination(h as int, an as int, bn as int, x, y);
    lemma_divisor_le(h as int, 1);
}

/// Euclid's lemma, in the form used for fractions: if `q` is coprime to `p` and
/// `q` divides `p * s`, then `q` divides `s`.
pub proof fn lemma_coprime_divides_product(p: nat, q: nat, s: int)
    requires
        spec_gcd(p, q) == 1,
        divides(q as int, p * s),
    ensures
        divides(q as int, s),
{
    let (x, y) = lemma_bezout(p, q);
    let k = choose|k: int| #[trigger] (q * k) == p * s;
    assert(q * (k * x + s * y) == s) by (nonlinear_arith)
        requires
            p * x + q * y == 1,
            q * k == p * s,
    ;
}

/// Two fractions in lowest terms with positive denominators and equal value are identical.
pub proof fn lemma_lowest_terms_unique(p: int, q: int, r: int, s: int)
    requires
        q > 0,
        s > 0,
        spec_gcd(abs(p), q as nat) == 1,
        spec_gcd(abs(r), s as nat) == 1,
        p * s == r * q,
    ensures
        p == r,
        q == s,
{
    // |p| * s == |r| * q
    assert(abs(p) * s == abs(r) * q) by (nonlinear_arith)
        requires
            q > 0,
            s > 0,
            p * s == r * q,
            abs(p) == (if p < 0 { -p } else { p }),
            abs(r) == (if r < 0 { -r } else { r }),
    ;
    assert(divides(q, abs(p) * s)) by {
        assert(q * abs(r) == abs(p) * s) by (nonlinear_arith)
            requires
                abs(p) * s == abs(r) * q,
        ;
    }
    lemma_coprime_divides_product(abs(p), q as nat, s);
    assert(divides(s, abs(r) * q)) by {
        assert(s * abs(p) == abs(r) * q) by (nonlinear_arith)
            requires
                abs(p) * s == abs(r) * q,
        ;
    }
    lemma_coprime_divides_product(abs(r), s as nat, q);
    lemma_divisor_le(q, s);
    lemma_divisor_le(s, q);
    assert(p == r) by (nonlinear_arith)
        requires
            q == s,
            q > 0,
            p * s == r * q,
    ;
}

/// Every number is coprime to one.
pub proof fn lemma_gcd_with_one(a: nat)
    ensures
        spec_gcd(a, 1) == 1,
{
    assert(a % 1 == 0);
    assert(spec_gcd(1, 0) == 1);
}

/// Division rounding toward zero, as Rust's `/` on signed integers.
pub open spec fn tdiv(a: int, b: int) -> int {
    if (a < 0) == (b < 0) {
        (abs(a) / abs(b)) as int
    } else {
        -((abs(a) / abs(b)) as int)
    }
}

/// The remainder that goes with `tdiv`, as Rust's `%` on signed integers.
pub open spec fn trem(a: int, b: int) -> int {
    a - b * tdiv(a, b)
}

/// The truncating remainder is smaller in magnitude than the divisor, and
/// has the sign of the dividend.
pub proof fn lemma_trem_bound(a: int, b: int)
    requires
        b != 0,
    ensures
        abs(trem(a, b)) < abs(b),
        a >= 0 ==> trem(a, b) >= 0,
        a <= 0 ==> trem(a, b) <= 0,
        abs(tdiv(a, b)) <= abs(a),
{
    let aa = abs(a) as int;
    let ab = abs(b) as int;
    let q = aa / ab;
    let r = aa % ab;
    vstd::arithmetic::div_mod::lemma_fundamental_div_mod(aa, ab);
    vstd::arithmetic::div_mod::lemma_mod_bound(aa, ab);
    vstd::arithmetic::div_mod::lemma_div_pos_is_pos(aa, ab);
    vstd::arithmetic::div_mod::lemma_div_is_ordered_by_denominator(aa, 1, ab);
    assert(aa / 1 == aa);
    assert(trem(a, b) == (if a < 0 { -r } else { r })) by (nonlinear_arith)
        requires
            aa == ab * q + r,
            aa == (if a < 0 { -a } else { a }),
            ab == (if b < 0 { -b } else { b }),
            tdiv(a, b) == (if (a < 0) == (b < 0) { q } else { -q }),
            trem(a, b) == a - b * tdiv(a, b),
    ;
}

/// Chaining two equal ratios: `x / vd == mn / md` and `mn / md == p / qd` give `x / vd == p / qd`.
pub proof fn lemma_ratio_chain(x: int, vd: int, mn: int, md: int, p: int, qd: int)
    requires
        x * md == mn * vd,
        mn * qd == p * md,
        md != 0,
    ensures
        x * qd == p * vd,
{
    assert(x * md * qd == mn * vd * qd) by (nonlinear_arith)
        requires
            x * md == mn * vd,
    ;
    assert(mn * vd * qd == p * md * vd) by (nonlinear_arith)
        requires
            mn * qd == p * md,
    ;
    assert((x * qd) * md == (p * vd) * md) by (nonlinear_arith)
        requires
            x * md * qd == p * md * vd,
    ;
    assert(x * qd == p * vd) by (nonlinear_arith)
        requires
            (x * qd) * md == (p * vd) * md,
            md != 0,
    ;
}

} // verus!
