use recipe_scale::fraction::Fraction;
use recipe_scale::scale::{format_is_defined, format_quantity};

fn f(num: i64, den: i64) -> Fraction {
    Fraction { num, den }
}

#[test]
fn whole_quantities_print_plainly() {
    assert_eq!(format_quantity(f(3, 1)), "3");
    assert_eq!(format_quantity(f(0, 1)), "0");
    assert_eq!(format_quantity(f(12, 1)), "12");
    assert_eq!(format_quantity(f(-4, 1)), "-4");
}

#[test]
fn kitchen_fractions_print_as_mixed_numbers() {
    assert_eq!(format_quantity(f(5, 2)), "2 1/2");
    assert_eq!(format_quantity(f(1, 2)), "1/2");
    assert_eq!(format_quantity(f(7, 3)), "2 1/3");
    assert_eq!(format_quantity(f(7, 4)), "1 3/4");
    assert_eq!(format_quantity(f(1, 8)), "1/8");
    assert_eq!(format_quantity(f(15, 8)), "1 7/8");
    assert_eq!(format_quantity(f(2, 3)), "2/3");
    assert_eq!(format_quantity(f(5, 4)), "1 1/4");
}

#[test]
fn other_fractions_print_as_rounded_decimals() {
    assert_eq!(format_quantity(f(2, 9)), "0.22");
    assert_eq!(format_quantity(f(13, 10)), "1.3");
    assert_eq!(format_quantity(f(101, 100)), "1.01");
    assert_eq!(format_quantity(f(1, 1000)), "0");
    assert_eq!(format_quantity(f(5, 6)), "0.83");
    assert_eq!(format_quantity(f(199, 200)), "1");
    assert_eq!(format_quantity(f(21, 2000)), "0.01");
}

#[test]
fn unreduced_input_is_reduced_first() {
    assert_eq!(format_quantity(f(10, 4)), "2 1/2");
    assert_eq!(format_quantity(f(6, 3)), "2");
}

#[test]
fn negative_quantities_follow_truncating_division() {
    assert_eq!(format_quantity(f(-5, 2)), "-2.-49");
    assert_eq!(format_quantity(f(5, -2)), "-2.-49");
    assert_eq!(format_quantity(f(-1, 3)), "0.-33");
}

#[test]
fn format_defined_check() {
    assert!(format_is_defined(f(5, 2)));
    assert!(format_is_defined(f(i64::MAX, 1)));
    assert!(!format_is_defined(f(1, 0)));
    assert!(!format_is_defined(f(i64::MAX, 10)));
    assert!(!format_is_defined(f(i64::MIN, -1)));
}
