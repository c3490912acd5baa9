use recipe_scale::fraction::{parse_decimal, parse_number_exact, Fraction};

fn f(num: i64, den: i64) -> Fraction {
    Fraction { num, den }
}

#[test]
fn new_reduces_to_lowest_terms() {
    assert_eq!(Fraction::new(6, 8), f(3, 4));
    assert_eq!(Fraction::new(10, 5), f(2, 1));
    assert_eq!(Fraction::new(0, 7), f(0, 1));
}

#[test]
fn new_moves_sign_to_numerator() {
    assert_eq!(Fraction::new(3, -6), f(-1, 2));
    assert_eq!(Fraction::new(-3, -6), f(1, 2));
    assert_eq!(Fraction::new(i64::MIN, 2), f(i64::MIN / 2, 1));
}

#[test]
fn equal_values_give_equal_fractions() {
    assert_eq!(Fraction::new(2, 4), Fraction::new(-3, -6));
    assert_eq!(Fraction::new(10, -4), Fraction::new(-5, 2));
    assert_ne!(Fraction::new(1, 3), Fraction::new(1, 2));
}

#[test]
fn whole_numbers() {
    assert_eq!(Fraction::whole(5), f(5, 1));
    assert_eq!(Fraction::whole(-3), f(-3, 1));
}

#[test]
fn arithmetic_is_exact() {
    // 1/3 cup scaled by 2/3 comes out to exactly 2/9
    assert_eq!(f(1, 3).mul(f(2, 3)), f(2, 9));
    assert_eq!(f(1, 2).add(f(1, 3)), f(5, 6));
    assert_eq!(f(3, 4).div(f(3, 8)), f(2, 1));
    assert_eq!(f(1, 2).div(f(-1, 4)), f(-2, 1));
}

#[test]
fn scaling_to_target_servings() {
    let servings = f(4, 1);
    let factor = f(8, 1).div(servings);
    assert_eq!(factor, f(2, 1));
    assert_eq!(servings.mul(factor), f(8, 1));
    let factor = f(11, 1).div(servings);
    assert_eq!(servings.mul(factor), f(11, 1));
}

#[test]
fn multiplication_commutes_and_associates() {
    let (a, b, c) = (f(2, 3), f(9, 4), f(5, 7));
    assert_eq!(a.mul(b), b.mul(a));
    assert_eq!(a.mul(b).mul(c), a.mul(b.mul(c)));
    assert_eq!(a.add(b), b.add(a));
    assert_eq!(a.mul(Fraction::whole(1)), a);
}

#[test]
fn sign_tests() {
    assert!(f(1, 2).is_positive());
    assert!(!f(0, 1).is_positive());
    assert!(!f(-1, 2).is_positive());
    assert!(f(0, 1).is_zero());
    assert!(!f(1, 3).is_zero());
}

#[test]
fn checked_operations() {
    assert_eq!(f(1, 2).checked_add(f(1, 4)), Some(f(3, 4)));
    assert_eq!(f(1, 2).checked_mul(f(2, 3)), Some(f(1, 3)));
    assert_eq!(f(1, 2).checked_div(f(1, 4)), Some(f(2, 1)));
    assert_eq!(f(i64::MAX, 1).checked_mul(f(2, 1)), None);
    assert_eq!(f(1, i64::MAX).checked_add(f(1, 2)), None);
    assert_eq!(f(1, 2).checked_div(f(0, 1)), None);
}

#[test]
fn parse_decimal_whole_numbers() {
    assert_eq!(parse_decimal("12"), Some(f(12, 1)));
    assert_eq!(parse_decimal("007"), Some(f(7, 1)));
    assert_eq!(parse_decimal("-3"), Some(f(-3, 1)));
    assert_eq!(parse_decimal("0"), Some(f(0, 1)));
    assert_eq!(parse_decimal("-0"), Some(f(0, 1)));
}

#[test]
fn parse_decimal_fractions_are_exact() {
    assert_eq!(parse_decimal("1.5"), Some(f(3, 2)));
    assert_eq!(parse_decimal("1.1"), Some(f(11, 10)));
    assert_eq!(parse_decimal("-0.25"), Some(f(-1, 4)));
    assert_eq!(parse_decimal(".5"), Some(f(1, 2)));
    assert_eq!(parse_decimal("2.50"), Some(f(5, 2)));
    assert_eq!(parse_decimal("0.000000000000000001"), Some(f(1, 1_000_000_000_000_000_000)));
}

#[test]
fn parse_decimal_rejects_malformed_text() {
    assert_eq!(parse_decimal(""), None);
    assert_eq!(parse_decimal("-"), None);
    assert_eq!(parse_decimal("1."), None);
    assert_eq!(parse_decimal("."), None);
    assert_eq!(parse_decimal("1.2.3"), None);
    assert_eq!(parse_decimal("abc"), None);
    assert_eq!(parse_decimal("+1"), None);
    assert_eq!(parse_decimal("--1"), None);
    assert_eq!(parse_decimal("1e3"), None);
    assert_eq!(parse_decimal(" 1"), None);
}

#[test]
fn parse_decimal_rejects_out_of_range() {
    assert_eq!(parse_decimal("9223372036854775807"), Some(f(i64::MAX, 1)));
    assert_eq!(parse_decimal("9223372036854775808"), None);
    assert_eq!(parse_decimal("0.0000000000000000001"), None);
    assert_eq!(parse_decimal("922337203685477580.8"), None);
    assert_eq!(parse_decimal("92233720368547758.07"), Some(Fraction::new(i64::MAX, 100)));
}

#[test]
fn parse_number_exact_reads_float_literals_exactly() {
    assert_eq!(parse_number_exact("4"), Some(f(4, 1)));
    assert_eq!(parse_number_exact("4."), Some(f(4, 1)));
    assert_eq!(parse_number_exact(".5"), Some(f(1, 2)));
    assert_eq!(parse_number_exact("+4"), Some(f(4, 1)));
    assert_eq!(parse_number_exact("-0.25"), Some(f(-1, 4)));
    assert_eq!(parse_number_exact("1e1"), Some(f(10, 1)));
    assert_eq!(parse_number_exact("2.5E-1"), Some(f(1, 4)));
    assert_eq!(parse_number_exact("1.e+2"), Some(f(100, 1)));
    assert_eq!(parse_number_exact("1.1"), Some(f(11, 10)));
    assert_eq!(parse_number_exact("0e99999999999999999999"), Some(f(0, 1)));
    assert_eq!(parse_number_exact("0e-30"), Some(f(0, 1)));
    assert_eq!(parse_number_exact("3e18"), Some(f(3000000000000000000, 1)));
    assert_eq!(parse_number_exact("0.5e19"), Some(f(5000000000000000000, 1)));
    assert_eq!(parse_number_exact("10.000000000000000000000"), Some(f(10, 1)));
    assert_eq!(parse_number_exact("100000000000000000000e-5"), Some(f(1000000000000000, 1)));
    assert_eq!(parse_number_exact("0.00000000000000000000000000000"), Some(f(0, 1)));
    assert_eq!(parse_number_exact("-2.50e-3"), Some(f(-1, 400)));
    assert_eq!(parse_number_exact("1e99999999999999999999999999999"), None);
    assert_eq!(parse_number_exact("0e99999999999999999999999999999"), Some(f(0, 1)));
}

#[test]
fn parse_number_exact_rejects_what_has_no_exact_i64_value() {
    assert_eq!(parse_number_exact(""), None);
    assert_eq!(parse_number_exact("."), None);
    assert_eq!(parse_number_exact("+"), None);
    assert_eq!(parse_number_exact("1e"), None);
    assert_eq!(parse_number_exact("1e+"), None);
    assert_eq!(parse_number_exact("e5"), None);
    assert_eq!(parse_number_exact("1.2.3"), None);
    assert_eq!(parse_number_exact("inf"), None);
    assert_eq!(parse_number_exact("NaN"), None);
    assert_eq!(parse_number_exact("--1"), None);
    assert_eq!(parse_number_exact("1 "), None);
    assert_eq!(parse_number_exact("1e19"), None);
    assert_eq!(parse_number_exact("1e-19"), None);
    assert_eq!(parse_number_exact("99999999999999999999"), None);
    assert_eq!(parse_number_exact("0.0000000000000000000000005"), None);
    assert_eq!(parse_number_exact("1e-99999999999999999999999999999"), None);
}

#[test]
fn dividing_undoes_multiplying() {
    let a = f(3, 4);
    let b = f(-2, 3);
    assert_eq!(a.mul(b), f(-1, 2));
    assert_eq!(a.mul(b).div(b), a);
    assert_eq!(f(5, 1).mul(f(7, 9)).div(f(7, 9)), f(5, 1));
}
