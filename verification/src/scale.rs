use vstd::prelude::*;
use crate::fraction::{Fraction, fits_i64, spec_new, lemma_spec_new, lowest_terms, law_new_of_lowest_terms, spec_parse_decimal, pow10};
use crate::number_theory::{abs, spec_gcd, tdiv, trem, lemma_trem_bound};
use crate::text::{decimal, signed_decimal, push_signed_decimal, string_from, chars_of, digits_value, all_digits, is_digit, in_class, span, CharClass, digit_char, lemma_decimal_digits, lemma_digit_char, lemma_span_of_run};

verus! {

/// The kitchen fractions that measuring cups and spoons are marked with.
pub open spec fn kitchen_label(f: Fraction) -> Option<Seq<char>> {
    if f.num == 1 && f.den == 8 {
        Some("1/8"@)
    } else if f.num == 1 && f.den == 4 {
        Some("1/4"@)
    } else if f.num == 1 && f.den == 3 {
        Some("1/3"@)
    } else if f.num == 1 && f.den == 2 {
        Some("1/2"@)
    } else if f.num == 2 && f.den == 3 {
        Some("2/3"@)
    } else if f.num == 3 && f.den == 4 {
        Some("3/4"@)
    } else if f.num == 7 && f.den == 8 {
        Some("7/8"@)
    } else {
        None
    }
}

/// The whole part of `v`, rounded toward zero.
pub open spec fn whole_part(v: Fraction) -> int {
    tdiv(v.num as int, v.den as int)
}

/// What is left of `v` after its whole part, in lowest terms.
pub open spec fn remainder_part(v: Fraction) -> Fraction {
    spec_new(v.num - whole_part(v) * v.den, v.den as int)
}

/// `v` prints as a rounded decimal: its remainder is neither zero nor a kitchen fraction.
pub open spec fn needs_decimal(v: Fraction) -> bool {
    kitchen_label(remainder_part(v)) is None && remainder_part(v).num != 0
}

/// `format!("{:02}", x)`: at least two characters, zero-padded.
pub open spec fn pad2(x: int) -> Seq<char> {
    if 0 <= x < 10 {
        seq!['0'] + signed_decimal(x)
    } else {
        signed_decimal(x)
    }
}

/// `s` without its trailing run of `c`, as `str::trim_end_matches` returns it.
pub open spec fn strip_end(s: Seq<char>, c: char) -> Seq<char>
    decreases s.len(),
{
    if s.len() > 0 && s.last() == c {
        strip_end(s.drop_last(), c)
    } else {
        s
    }
}

/// The value in hundredths: `num * 100` plus half the denominator (rounded toward
/// zero), divided by the denominator with the quotient rounded toward zero. For a
/// positive value over a positive denominator this rounds half up; for a negative
/// one it does not round away from zero (-1/8 gives -12).
pub open spec fn hundredths(v: Fraction) -> int {
    tdiv(v.num * 100 + tdiv(v.den as int, 2), v.den as int)
}

/// The inputs on which `format_quantity` neither divides by zero nor overflows.
pub open spec fn format_defined(v: Fraction) -> bool {
    &&& v.den != 0
    &&& v.den != i64::MIN
    &&& !(v.num == i64::MIN && v.den == -1)
    &&& needs_decimal(v) ==> fits_i64(v.num * 100) && fits_i64(v.num * 100 + tdiv(v.den as int, 2))
}

/// The text of a quantity: a whole number, a whole number and a kitchen
/// fraction ("2 1/2"), or else a decimal rounded to hundredths with trailing
/// zeros dropped.
pub open spec fn spec_format_quantity(v: Fraction) -> Seq<char> {
    let whole = whole_part(v);
    let rem = remainder_part(v);
    match kitchen_label(rem) {
        Some(label) => if whole == 0 {
            label
        } else {
            signed_decimal(whole) + seq![' '] + label
        },
        None => if rem.num == 0 {
            signed_decimal(whole)
        } else {
            let h = hundredths(v);
            strip_end(
                strip_end(signed_decimal(tdiv(h, 100)) + seq!['.'] + pad2(trem(h, 100)), '0'),
                '.',
            )
        },
    }
}

/// `a / b` rounded toward zero.
fn trunc_div(a: i64, b: i64) -> (r: i64)
    requires
        b != 0,
        !(a == i64::MIN && b == -1),
    ensures
        r == tdiv(a as int, b as int),
{
    let ma: u64 = if a < 0 {
        ((-(a + 1)) as u64) + 1
    } else {
        a as u64
    };
    let mb: u64 = if b < 0 {
        ((-(b + 1)) as u64) + 1
    } else {
        b as u64
    };
    let q = ma / mb;
    proof {
        vstd::arithmetic::div_mod::lemma_div_is_ordered_by_denominator(ma as int, 1, mb as int);
        assert(ma as int / 1 == ma);
        assert(ma == abs(a as int) && mb == abs(b as int));
        if mb >= 2 {
            vstd::arithmetic::div_mod::lemma_div_is_ordered_by_denominator(ma as int, 2, mb as int);
        }
    }
    if (a < 0) == (b < 0) {
        q as i64
    } else if q == 9223372036854775808u64 {
        i64::MIN
    } else {
        -(q as i64)
    }
}

/// The remainder of `a / b` rounded toward zero.
fn trunc_rem(a: i64, b: i64) -> (r: i64)
    requires
        b != 0,
        !(a == i64::MIN && b == -1),
    ensures
        r == trem(a as int, b as int),
{
    let q = trunc_div(a, b);
    proof {
        lemma_trem_bound(a as int, b as int);
    }
    a - b * q
}

/// The label of a kitchen fraction, if `f` is one.
fn kitchen_fraction(f: Fraction) -> (r: Option<&'static str>)
    ensures
        match r {
            Some(s) => kitchen_label(f) == Some(s@),
            None => kitchen_label(f) is None,
        },
{
    if f.num == 1 && f.den == 8 {
        Some("1/8")
    } else if f.num == 1 && f.den == 4 {
        Some("1/4")
    } else if f.num == 1 && f.den == 3 {
        Some("1/3")
    } else if f.num == 1 && f.den == 2 {
        Some("1/2")
    } else if f.num == 2 && f.den == 3 {
        Some("2/3")
    } else if f.num == 3 && f.den == 4 {
        Some("3/4")
    } else if f.num == 7 && f.den == 8 {
        Some("7/8")
    } else {
        None
    }
}

/// Drops the trailing run of `c` from `v`.
fn pop_trailing(v: &mut Vec<char>, c: char)
    ensures
        final(v)@ == strip_end(old(v)@, c),
{
    while v.len() > 0 && v[v.len() - 1] == c
        invariant
            strip_end(v@, c) == strip_end(old(v)@, c),
        decreases v.len(),
    {
        v.pop();
    }
}

/// Formats a scaled quantity the way a cook would write it: a mixed number
/// with a kitchen fraction where there is one, else a short decimal.
pub fn format_quantity(value: Fraction) -> (s: String)
    requires
        format_defined(value),
    ensures
        s@ == spec_format_quantity(value),
{
    let whole = trunc_div(value.num, value.den);
    proof {
        lemma_trem_bound(value.num as int, value.den as int);
        vstd::arithmetic::mul::lemma_mul_is_commutative(whole as int, value.den as int);
        assert(trem(value.num as int, value.den as int) == value.num - whole * value.den);
        lemma_spec_new(value.num - whole * value.den, value.den as int);
    }
    let remainder = Fraction::new(value.num - whole * value.den, value.den);
    let mut out: Vec<char> = Vec::new();
    match kitchen_fraction(remainder) {
        Some(label) => {
            if whole != 0 {
                push_signed_decimal(&mut out, whole);
                out.push(' ');
            }
            let label_chars = chars_of(label);
            let mut i: usize = 0;
            let ghost before = out@;
            while i < label_chars.len()
                invariant
                    i <= label_chars.len(),
                    out@ == before + label_chars@.take(i as int),
                decreases label_chars.len() - i,
            {
                out.push(label_chars[i]);
                assert(out@ =~= before + label_chars@.take(i + 1));
                i = i + 1;
            }
            assert(label_chars@.take(label_chars.len() as int) =~= label_chars@);
            assert(out@ =~= spec_format_quantity(value));
            return string_from(&out);
        },
        None => {},
    }
    if remainder.is_zero() {
        push_signed_decimal(&mut out, whole);
        return string_from(&out);
    }
    assert(value.num * 100 != i64::MIN);
    let h = trunc_div(value.num * 100 + trunc_div(value.den, 2), value.den);
    push_signed_decimal(&mut out, trunc_div(h, 100));
    out.push('.');
    let r = trunc_rem(h, 100);
    if 0 <= r && r < 10 {
        out.push('0');
    }
    push_signed_decimal(&mut out, r);
    assert(out@ =~= signed_decimal(tdiv(h as int, 100)) + seq!['.'] + pad2(trem(h as int, 100)));
    pop_trailing(&mut out, '0');
    pop_trailing(&mut out, '.');
    string_from(&out)
}

/// Whether `format_quantity` may be called on `value` without overflow.
pub fn format_is_defined(value: Fraction) -> (b: bool)
    ensures
        b == format_defined(value),
{
    if value.den == 0 || value.den == i64::MIN || (value.num == i64::MIN && value.den == -1) {
        return false;
    }
    let whole = trunc_div(value.num, value.den);
    proof {
        lemma_trem_bound(value.num as int, value.den as int);
        vstd::arithmetic::mul::lemma_mul_is_commutative(whole as int, value.den as int);
        assert(trem(value.num as int, value.den as int) == value.num - whole * value.den);
        lemma_spec_new(value.num - whole * value.den, value.den as int);
    }
    let remainder = Fraction::new(value.num - whole * value.den, value.den);
    if kitchen_fraction(remainder).is_some() || remainder.is_zero() {
        return true;
    }
    match value.num.checked_mul(100) {
        Some(x) => x.checked_add(trunc_div(value.den, 2)).is_some(),
        None => false,
    }
}

/// A whole number prints as its plain decimal digits.
pub proof fn law_format_whole_number(n: i64)
    ensures
        format_defined(Fraction { num: n, den: 1 }),
        spec_format_quantity(Fraction { num: n, den: 1 }) == signed_decimal(n as int),
{
    let v = Fraction { num: n, den: 1 };
    vstd::arithmetic::div_mod::lemma_div_basics(crate::number_theory::abs(n as int) as int);
    vstd::arithmetic::div_mod::lemma_div_basics(0);
    vstd::arithmetic::div_mod::lemma_div_basics(1);
    assert(whole_part(v) == n);
    assert(spec_gcd(0, 1) == spec_gcd(1, 0));
    assert(remainder_part(v) == (Fraction { num: 0, den: 1 }));
}

/// The kitchen fractions are in lowest terms.
proof fn lemma_kitchen_fraction_lowest(k: Fraction)
    requires
        kitchen_label(k) is Some,
    ensures
        lowest_terms(k),
{
    assert(spec_gcd(1, 0) == 1);
    assert(spec_gcd(1, 8) == spec_gcd(8, 1));
    assert(spec_gcd(8, 1) == spec_gcd(1, 0));
    assert(spec_gcd(1, 4) == spec_gcd(4, 1));
    assert(spec_gcd(4, 1) == spec_gcd(1, 0));
    assert(spec_gcd(1, 3) == spec_gcd(3, 1));
    assert(spec_gcd(3, 1) == spec_gcd(1, 0));
    assert(spec_gcd(1, 2) == spec_gcd(2, 1));
    assert(spec_gcd(2, 1) == spec_gcd(1, 0));
    assert(spec_gcd(2, 3) == spec_gcd(3, 2));
    assert(spec_gcd(3, 2) == spec_gcd(2, 1));
    assert(spec_gcd(3, 4) == spec_gcd(4, 3));
    assert(spec_gcd(4, 3) == spec_gcd(3, 1));
    assert(spec_gcd(7, 8) == spec_gcd(8, 7));
    assert(spec_gcd(8, 7) == spec_gcd(7, 1));
    assert(spec_gcd(7, 1) == spec_gcd(1, 0));
}

/// A whole number plus a kitchen fraction prints as a mixed number such as
/// "2 1/2", or as the bare fraction when the whole part is zero.
pub proof fn law_format_mixed_number(w: i64, k: Fraction)
    requires
        0 <= w,
        kitchen_label(k) is Some,
        w * k.den + k.num <= i64::MAX,
    ensures
        format_defined(Fraction { num: (w * k.den + k.num) as i64, den: k.den }),
        spec_format_quantity(Fraction { num: (w * k.den + k.num) as i64, den: k.den }) == if w
            == 0 {
            kitchen_label(k)->0
        } else {
            decimal(w as nat) + seq![' '] + kitchen_label(k)->0
        },
{
    let v = Fraction { num: (w * k.den + k.num) as i64, den: k.den };
    assert(0 < k.num < k.den);
    assert(w * k.den >= 0) by (nonlinear_arith)
        requires
            w >= 0,
            k.den > 0,
    ;
    vstd::arithmetic::div_mod::lemma_fundamental_div_mod_converse(
        v.num as int,
        k.den as int,
        w as int,
        k.num as int,
    );
    assert(whole_part(v) == w);
    lemma_kitchen_fraction_lowest(k);
    law_new_of_lowest_terms(k);
    assert(v.num - whole_part(v) * v.den == k.num);
    assert(remainder_part(v) == k);
}

/// The decimal digits of a whole number read back as that number.
proof fn lemma_parse_decimal_whole(a: nat)
    requires
        a <= i64::MAX,
    ensures
        spec_parse_decimal(decimal(a)) == Some(Fraction { num: a as i64, den: 1 }),
{
    let t = decimal(a);
    lemma_decimal_digits(a);
    assert(is_digit(t[0]));
    assert forall|i: int| 0 <= i < t.len() implies in_class(#[trigger] t[i], CharClass::DigitOrDot)
        && in_class(t[i], CharClass::Digit) by {
        assert(is_digit(t[i]));
    }
    lemma_span_of_run(t, seq![], CharClass::DigitOrDot);
    lemma_span_of_run(t, seq![], CharClass::Digit);
    assert(t + Seq::<char>::empty() =~= t);
    crate::number_theory::lemma_gcd_with_one(a);
    law_new_of_lowest_terms(Fraction { num: a as i64, den: 1 });
}

/// Digits, a point, and one or two more digits read back as their value.
proof fn lemma_parse_decimal_point(a: nat, f: Seq<char>)
    requires
        1 <= f.len() <= 2,
        all_digits(f),
        a * pow10(f.len()) + digits_value(f) <= i64::MAX,
    ensures
        spec_parse_decimal(decimal(a) + seq!['.'] + f) matches Some(p) && p.den > 0 && p.num
            * pow10(f.len()) == (a * pow10(f.len()) + digits_value(f)) * p.den,
{
    let dd = decimal(a);
    let t = dd + seq!['.'] + f;
    lemma_decimal_digits(a);
    assert(t[0] == dd[0]);
    assert(is_digit(t[0]));
    assert forall|i: int| 0 <= i < t.len() implies in_class(#[trigger] t[i], CharClass::DigitOrDot) by {
        if i < dd.len() {
            assert(is_digit(dd[i]));
        } else if i > dd.len() {
            assert(t[i] == f[i - dd.len() - 1]);
            assert(is_digit(f[i - dd.len() - 1]));
        }
    }
    lemma_span_of_run(t, seq![], CharClass::DigitOrDot);
    assert(t + Seq::<char>::empty() =~= t);
    assert forall|i: int| 0 <= i < dd.len() implies in_class(#[trigger] dd[i], CharClass::Digit) by {
        assert(is_digit(dd[i]));
    }
    assert forall|i: int| 0 <= i < f.len() implies in_class(#[trigger] f[i], CharClass::Digit) by {
        assert(is_digit(f[i]));
    }
    assert(t =~= dd + (seq!['.'] + f));
    lemma_span_of_run(dd, seq!['.'] + f, CharClass::Digit);
    lemma_span_of_run(f, seq![], CharClass::Digit);
    assert(f + Seq::<char>::empty() =~= f);
    let p = dd.len() as int;
    assert(t.take(p) =~= dd);
    assert(t.skip(p + 1) =~= f);
    reveal_with_fuel(pow10, 3);
    assert(pow10(f.len()) <= 100);
    let num = a * pow10(f.len()) + digits_value(f);
    lemma_spec_new(num as int, pow10(f.len()) as int);
}

/// The text `format_quantity` prints for `h` hundredths (`h >= 0`): the whole
/// part, a point and two digits, trailing zeros and a bare point dropped.
/// It reads back as exactly `h / 100`.
#[verifier::spinoff_prover]
#[verifier::rlimit(80)]
proof fn lemma_hundredths_text(h: nat)
    requires
        h <= i64::MAX,
    ensures
        spec_parse_decimal(
            strip_end(strip_end(decimal(h / 100) + seq!['.'] + pad2((h % 100) as int), '0'), '.'),
        ) matches Some(p) && p.den > 0 && p.num * 100 == h * p.den,
{
    let a = h / 100;
    let r = h % 100;
    let d1 = r / 10;
    let d2 = r % 10;
    let c1 = digit_char(d1);
    let c2 = digit_char(d2);
    lemma_digit_char(d1);
    lemma_digit_char(d2);
    lemma_digit_char(0);
    lemma_decimal_digits(a);
    let dd = decimal(a);
    assert(pad2(r as int) =~= seq![c1, c2]) by {
        if r >= 10 {
            assert(decimal(r) == decimal(r / 10).push(digit_char(r % 10)));
        }
    }
    let s0 = dd + seq!['.'] + pad2(r as int);
    assert(s0 =~= dd + seq!['.', c1, c2]);
    assert(h == 100 * a + r);
    assert(r == 10 * d1 + d2);
    reveal_with_fuel(pow10, 3);
    assert(pow10(2) == 100 && pow10(1) == 10);
    assert(seq![c1].drop_last() =~= Seq::<char>::empty());
    assert(digits_value(Seq::<char>::empty()) == 0);
    assert(digits_value(seq![c1]) == 10 * digits_value(Seq::<char>::empty()) + d1);
    if d2 != 0 {
        assert(strip_end(s0, '0') == s0);
        assert(strip_end(s0, '.') == s0);
        let f = seq![c1, c2];
        assert(f.drop_last() =~= seq![c1]);
        assert(f.last() == c2);
        assert(digits_value(f) == 10 * digits_value(seq![c1]) + d2);
        assert(digits_value(f) == r);
        assert(s0 =~= dd + seq!['.'] + f);
        lemma_parse_decimal_point(a, f);
    } else if d1 != 0 {
        let s1 = dd + seq!['.', c1];
        assert(s0.drop_last() =~= s1);
        assert(strip_end(s1, '0') == s1);
        assert(strip_end(s0, '0') == s1);
        assert(strip_end(s1, '.') == s1);
        let f = seq![c1];
        assert(f.drop_last() =~= Seq::<char>::empty());
        assert(digits_value(f) == d1);
        assert(s1 =~= dd + seq!['.'] + f);
        lemma_parse_decimal_point(a, f);
        let p = spec_parse_decimal(s1)->Some_0;
        assert(p.num * 100 == h * p.den) by (nonlinear_arith)
            requires
                p.num * 10 == (a * 10 + d1) * p.den,
                h == 100 * a + 10 * d1,
        ;
    } else {
        let s1 = dd + seq!['.', c1];
        let s2 = dd + seq!['.'];
        assert(s0.drop_last() =~= s1);
        assert(s1.drop_last() =~= s2);
        assert(strip_end(s2, '0') == s2);
        assert(s0.last() == '0' && s1.last() == '0');
        assert(strip_end(s1, '0') == strip_end(s2, '0'));
        assert(strip_end(s0, '0') == strip_end(s1, '0'));
        assert(strip_end(s0, '0') == s2);
        assert(s2.drop_last() =~= dd);
        assert(is_digit(dd.last()));
        assert(strip_end(dd, '.') == dd);
        assert(strip_end(s2, '.') == dd);
        lemma_parse_decimal_whole(a);
    }
}

/// A quantity printed as a decimal is within half a hundredth of its value:
/// for a nonnegative quantity whose remainder is not a kitchen fraction, the
/// printed text reads back, as a plain decimal, as a number `p` with
/// `|p - v| <= 1/200` (a whole number prints exactly).
pub proof fn law_printed_decimal_is_close(v: Fraction)
    requires
        v.num >= 0,
        v.den > 0,
        format_defined(v),
        kitchen_label(remainder_part(v)) is None,
    ensures
        spec_parse_decimal(spec_format_quantity(v)) matches Some(p) && p.den > 0 && 200 * abs(
            p.num * v.den - v.num * p.den,
        ) <= p.den * v.den,
{
    let num = v.num as int;
    let den = v.den as int;
    let whole = whole_part(v);
    assert(whole == num / den);
    vstd::arithmetic::div_mod::lemma_fundamental_div_mod(num, den);
    vstd::arithmetic::div_mod::lemma_mod_bound(num, den);
    vstd::arithmetic::div_mod::lemma_div_pos_is_pos(num, den);
    assert(num - whole * den == num % den) by (nonlinear_arith)
        requires
            num == den * whole + num % den,
    ;
    lemma_spec_new(num - whole * den, den);
    let rem = remainder_part(v);
    if rem.num == 0 {
        assert(num - whole * den == 0) by (nonlinear_arith)
            requires
                rem.num * den == (num - whole * den) * rem.den,
                rem.num == 0,
                rem.den > 0,
        ;
        assert(whole <= num) by (nonlinear_arith)
            requires
                whole * den == num,
                den >= 1,
                whole >= 0,
        ;
        assert(spec_format_quantity(v) == decimal(whole as nat));
        lemma_parse_decimal_whole(whole as nat);
        assert(whole * den - num * 1 == 0);
    } else {
        let half = tdiv(den, 2);
        assert(half == den / 2);
        let x = num * 100 + half;
        let h = hundredths(v);
        assert(x >= 0);
        assert(h == x / den);
        vstd::arithmetic::div_mod::lemma_fundamental_div_mod(x, den);
        vstd::arithmetic::div_mod::lemma_mod_bound(x, den);
        vstd::arithmetic::div_mod::lemma_div_pos_is_pos(x, den);
        assert(h <= x) by (nonlinear_arith)
            requires
                x == den * h + x % den,
                x % den >= 0,
                den >= 1,
                h >= 0,
        ;
        assert(fits_i64(x));
        vstd::arithmetic::div_mod::lemma_fundamental_div_mod(h, 100);
        assert(tdiv(h, 100) == h / 100);
        assert(trem(h, 100) == h % 100);
        assert(spec_format_quantity(v) == strip_end(
            strip_end(decimal((h / 100) as nat) + seq!['.'] + pad2((h % 100) as int), '0'),
            '.',
        ));
        assert((h as nat) / 100 == h / 100 && (h as nat) % 100 == h % 100);
        lemma_hundredths_text(h as nat);
        let p = spec_parse_decimal(spec_format_quantity(v))->Some_0;
        let (pn, pd) = (p.num as int, p.den as int);
        let e = h * den - 100 * num;
        assert(e == half - x % den) by (nonlinear_arith)
            requires
                x == den * h + x % den,
                x == num * 100 + half,
                e == h * den - 100 * num,
        ;
        assert(den == 2 * half + den % 2);
        assert(2 * e <= den && -2 * e <= den);
        let delta = pn * den - num * pd;
        assert(100 * delta == pd * e) by (nonlinear_arith)
            requires
                pn * 100 == h * pd,
                delta == pn * den - num * pd,
                e == h * den - 100 * num,
        ;
        if delta >= 0 {
            assert(200 * delta <= pd * den) by (nonlinear_arith)
                requires
                    100 * delta == pd * e,
                    2 * e <= den,
                    pd > 0,
            ;
        } else {
            assert(-200 * delta <= pd * den) by (nonlinear_arith)
                requires
                    100 * delta == pd * e,
                    -2 * e <= den,
                    pd > 0,
            ;
        }
    }
}

/// The label of a kitchen fraction writes that fraction: its numerator, a
/// '/', and its denominator, both positive, so a printed mixed number such as
/// "2 3/4" reads back as the quantity.
pub proof fn law_kitchen_labels_write_the_fraction(f: Fraction)
    ensures
        kitchen_label(f) matches Some(l) ==> 0 < f.num < f.den && l == decimal(f.num as nat)
            + seq!['/'] + decimal(f.den as nat),
{
    reveal_strlit("1/8");
    reveal_strlit("1/4");
    reveal_strlit("1/3");
    reveal_strlit("1/2");
    reveal_strlit("2/3");
    reveal_strlit("3/4");
    reveal_strlit("7/8");
    if kitchen_label(f) is Some {
        let l = kitchen_label(f)->Some_0;
        assert(l =~= decimal(f.num as nat) + seq!['/'] + decimal(f.den as nat));
    }
}

} // verus!
