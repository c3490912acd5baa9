use recipe_scale::cli::{parse_args, render_is_defined, render_scaled, scale_factor, usage_text, Invocation};
use recipe_scale::fraction::Fraction;
use recipe_scale::parser::parse;

fn f(num: i64, den: i64) -> Fraction {
    Fraction { num, den }
}

fn args(list: &[&str]) -> Vec<String> {
    list.iter().map(|s| s.to_string()).collect()
}

const PANCAKES: &str = "title: Buttermilk Pancakes
servings: 4

1 1/2 cups flour
3 1/2 tsp baking powder
1 tsp salt
1 tbsp sugar
1 1/4 cups milk
1 egg
3 tbsp butter, melted
";

#[test]
fn usage_when_file_missing_or_help_asked() {
    assert!(matches!(parse_args(&args(&["rs"])), Ok(Invocation::Usage { failed: true })));
    assert!(matches!(parse_args(&args(&["rs", "-h"])), Ok(Invocation::Usage { failed: false })));
    assert!(matches!(
        parse_args(&args(&["rs", "a.recipe", "--factor", "--help"])),
        Ok(Invocation::Usage { failed: false })
    ));
}

#[test]
fn reads_servings_and_factor_options() {
    match parse_args(&args(&["rs", "a.recipe", "--servings", "8"])) {
        Ok(Invocation::Run { path, target_servings, factor }) => {
            assert_eq!(path, "a.recipe");
            assert_eq!(target_servings, Some(f(8, 1)));
            assert_eq!(factor, None);
        },
        _ => panic!("expected a run"),
    }
    match parse_args(&args(&["rs", "a.recipe", "--factor", "1.5", "--factor", "2"])) {
        Ok(Invocation::Run { path, target_servings, factor }) => {
            assert_eq!(path, "a.recipe");
            assert_eq!(target_servings, None);
            assert_eq!(factor, Some(f(2, 1)));
        },
        _ => panic!("expected a run"),
    }
    assert!(matches!(
        parse_args(&args(&["rs", "a.recipe"])),
        Ok(Invocation::Run { target_servings: None, factor: None, .. })
    ));
}

#[test]
fn option_errors() {
    assert_eq!(
        parse_args(&args(&["rs", "a", "--servings"])).err().unwrap(),
        "error: --servings requires a value"
    );
    assert_eq!(
        parse_args(&args(&["rs", "a", "--factor", "x"])).err().unwrap(),
        "error: --factor value \"x\" is not a number"
    );
    assert_eq!(
        parse_args(&args(&["rs", "a", "--servings", "1/2"])).err().unwrap(),
        "error: --servings value \"1/2\" is not a number"
    );
    assert_eq!(
        parse_args(&args(&["rs", "a", "--verbose"])).err().unwrap(),
        "error: unrecognized argument \"--verbose\""
    );
    assert_eq!(
        parse_args(&args(&["rs", "a", "--servings", "2", "--factor", "2"])).err().unwrap(),
        "error: pass either --servings or --factor, not both"
    );
}

#[test]
fn scale_factor_choices() {
    assert_eq!(scale_factor(Some(f(8, 1)), None, f(4, 1)), Ok(f(2, 1)));
    assert_eq!(scale_factor(None, Some(f(3, 2)), f(4, 1)), Ok(f(3, 2)));
    assert_eq!(
        scale_factor(None, None, f(4, 1)).err().unwrap(),
        "error: specify --servings <n> or --factor <n>"
    );
    assert_eq!(
        scale_factor(None, Some(f(0, 1)), f(4, 1)).err().unwrap(),
        "error: scale factor must be greater than zero"
    );
    assert_eq!(
        scale_factor(Some(f(-8, 1)), None, f(4, 1)).err().unwrap(),
        "error: scale factor must be greater than zero"
    );
}

#[test]
fn doubling_the_pancakes() {
    let recipe = parse(PANCAKES, "pancakes.recipe").ok().unwrap();
    let factor = scale_factor(Some(f(8, 1)), None, recipe.servings).unwrap();
    assert!(render_is_defined(&recipe, factor));
    assert_eq!(
        render_scaled(&recipe, factor),
        "Buttermilk Pancakes\nservings: 8\n\n3 cups flour\n7 tsp baking powder\n2 tsp salt\n2 tbsp sugar\n2 1/2 cups milk\n2 egg\n6 tbsp butter, melted\n"
    );
}

#[test]
fn scaling_by_one_and_a_half() {
    let recipe = parse(PANCAKES, "pancakes.recipe").ok().unwrap();
    let factor = scale_factor(None, Some(f(3, 2)), recipe.servings).unwrap();
    assert_eq!(
        render_scaled(&recipe, factor),
        "Buttermilk Pancakes\nservings: 6\n\n2 1/4 cups flour\n5 1/4 tsp baking powder\n1 1/2 tsp salt\n1 1/2 tbsp sugar\n1 7/8 cups milk\n1 1/2 egg\n4 1/2 tbsp butter, melted\n"
    );
}

#[test]
fn scaling_to_eleven_without_a_title() {
    let recipe = parse("servings: 4\n1 cup rice\n", "r").ok().unwrap();
    let factor = scale_factor(Some(f(11, 1)), None, recipe.servings).unwrap();
    assert_eq!(render_scaled(&recipe, factor), "servings: 11\n\n2 3/4 cup rice\n");
}

#[test]
fn render_range_check() {
    let recipe = parse("servings: 4\n1 cup rice\n", "r").ok().unwrap();
    assert!(!render_is_defined(&recipe, f(i64::MAX, 1)));
}

#[test]
fn usage_lists_both_forms() {
    assert_eq!(
        usage_text("recipe-scale"),
        "usage: recipe-scale <recipe-file> (--servings <n> | --factor <n>)\n\nexamples:\n  recipe-scale examples/pancakes.recipe --servings 12\n  recipe-scale examples/pancakes.recipe --factor 1.5\n"
    );
}
