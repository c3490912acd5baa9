use recipe_scale::fraction::Fraction;
use recipe_scale::units::{best_display, display_name, recognize, Family};

fn f(num: i64, den: i64) -> Fraction {
    Fraction { num, den }
}

#[test]
fn recognizes_aliases_in_any_case() {
    let cup = recognize("Cups").unwrap();
    assert_eq!(cup.family, Family::Volume);
    assert_eq!(cup.base_per_unit, 48);
    assert_eq!(cup.singular, "cup");
    assert_eq!(cup.plural, "cups");
    assert_eq!(recognize("TABLESPOONS").unwrap().base_per_unit, 3);
    assert_eq!(recognize("tsp").unwrap().singular, "tsp");
    assert_eq!(recognize("kilograms").unwrap().base_per_unit, 1000);
    assert_eq!(recognize("g").unwrap().family, Family::Mass);
    assert_eq!(recognize("gram"), recognize("grams"));
}

#[test]
fn unknown_words_are_not_units() {
    assert!(recognize("pinch").is_none());
    assert!(recognize("").is_none());
    assert!(recognize("cupss").is_none());
}

#[test]
fn teaspoons_become_tablespoons_or_cups_when_whole() {
    let tsp = recognize("tsp").unwrap();
    let tbsp = recognize("tbsp").unwrap();
    let cup = recognize("cup").unwrap();
    assert_eq!(best_display(tsp, f(12, 1)), (f(4, 1), tbsp));
    assert_eq!(best_display(tsp, f(48, 1)), (f(1, 1), cup));
    assert_eq!(best_display(tsp, f(7, 1)), (f(7, 1), tsp));
    assert_eq!(best_display(tsp, f(3, 2)), (f(3, 2), tsp));
}

#[test]
fn never_downgrades_to_a_smaller_unit() {
    let cup = recognize("cup").unwrap();
    assert_eq!(best_display(cup, f(5, 2)), (f(5, 2), cup));
    let tbsp = recognize("tbsp").unwrap();
    assert_eq!(best_display(tbsp, f(32, 1)), (f(2, 1), cup));
    assert_eq!(best_display(tbsp, f(5, 1)), (f(5, 1), tbsp));
}

#[test]
fn grams_become_kilograms_when_whole() {
    let g = recognize("g").unwrap();
    let kg = recognize("kg").unwrap();
    assert_eq!(best_display(g, f(2000, 1)), (f(2, 1), kg));
    assert_eq!(best_display(g, f(1500, 1)), (f(1500, 1), g));
    assert_eq!(best_display(kg, f(1, 2)), (f(1, 2), kg));
}

#[test]
fn singular_only_for_exactly_one() {
    let cup = recognize("cup").unwrap();
    assert_eq!(display_name(cup, f(1, 1)), "cup");
    assert_eq!(display_name(cup, f(2, 1)), "cups");
    assert_eq!(display_name(cup, f(1, 2)), "cups");
}

#[test]
fn choosing_the_display_unit_again_changes_nothing() {
    let tsp = recognize("tsp").unwrap();
    let g = recognize("g").unwrap();
    for (unit, q) in [(tsp, f(12, 1)), (tsp, f(48, 1)), (tsp, f(3, 2)), (g, f(2000, 1)), (g, f(1500, 1))] {
        let (v, u) = best_display(unit, q);
        assert_eq!(best_display(u, v), (v, u));
    }
}

#[test]
fn printed_names_are_recognised_back() {
    for word in ["tsp", "tbsp", "cup", "g", "kg"] {
        let u = recognize(word).unwrap();
        for q in [f(1, 1), f(2, 1), f(1, 2)] {
            assert_eq!(recognize(display_name(u, q)), Some(u));
        }
        assert_eq!(recognize(&word.to_ascii_uppercase()), Some(u));
    }
    assert_eq!(display_name(recognize("cups").unwrap(), f(2, 1)), "cups");
    assert_eq!(recognize("TeaSpoons"), recognize("teaspoons"));
    assert_eq!(recognize("PINCH"), None);
}
