use recipe_scale::fraction::Fraction;
use recipe_scale::parser::{parse, parse_ingredient_line};

fn f(num: i64, den: i64) -> Fraction {
    Fraction { num, den }
}

const PANCAKES: &str = "title: Buttermilk Pancakes
servings: 4

1 1/2 cups flour
3 1/2 tsp baking powder
1 tsp salt
1 tbsp sugar
1 1/4 cups milk
1 egg
3 tbsp butter, melted
";

#[test]
fn parses_the_pancake_recipe() {
    let r = parse(PANCAKES, "pancakes.recipe").ok().unwrap();
    assert_eq!(r.title.as_deref(), Some("Buttermilk Pancakes"));
    assert_eq!(r.servings, f(4, 1));
    let got: Vec<(Fraction, &str)> =
        r.ingredients.iter().map(|i| (i.quantity, i.description.as_str())).collect();
    assert_eq!(
        got,
        vec![
            (f(3, 2), "cups flour"),
            (f(7, 2), "tsp baking powder"),
            (f(1, 1), "tsp salt"),
            (f(1, 1), "tbsp sugar"),
            (f(5, 4), "cups milk"),
            (f(1, 1), "egg"),
            (f(3, 1), "tbsp butter, melted"),
        ]
    );
}

#[test]
fn title_is_optional_and_comments_and_blank_lines_are_skipped() {
    let src = "# a comment\n\n  servings: 2.5  \n# another\n\n1/3 cup sugar\n0.75 l water\r\n2 3 eggs";
    let r = parse(src, "x").ok().unwrap();
    assert!(r.title.is_none());
    assert_eq!(r.servings, f(5, 2));
    assert_eq!(r.ingredients.len(), 3);
    assert_eq!(r.ingredients[0].quantity, f(1, 3));
    assert_eq!(r.ingredients[0].description, "cup sugar");
    assert_eq!(r.ingredients[1].quantity, f(3, 4));
    assert_eq!(r.ingredients[1].description, "l water");
    assert_eq!(r.ingredients[2].quantity, f(2, 1));
    assert_eq!(r.ingredients[2].description, "3 eggs");
}

#[test]
fn error_points_at_a_missing_quantity() {
    let src = "servings: 4\n\n1 cup water\n2 carrots\na pinch of salt\n";
    let e = parse(src, "soup.recipe").err().unwrap();
    assert_eq!(e.file, "soup.recipe");
    assert_eq!(e.line, 5);
    assert_eq!(e.col, 1);
    assert_eq!(
        e.message,
        "expected a quantity (a number like \"2\", a fraction like \"1/2\", or a mixed number like \"1 1/2\"), found \"a\""
    );
    assert_eq!(e.source_line, "a pinch of salt");
    assert_eq!(e.span, 1);
    assert_eq!(
        e.render(),
        "error: expected a quantity (a number like \"2\", a fraction like \"1/2\", or a mixed number like \"1 1/2\"), found \"a\"\n  --> soup.recipe:5:1\n |\n5 | a pinch of salt\n | ^"
    );
}

#[test]
fn servings_line_is_required_first() {
    let e = parse("title: Soup\n1 cup water\n", "s").err().unwrap();
    assert_eq!(e.line, 2);
    assert_eq!(e.col, 1);
    assert_eq!(e.message, "expected a 'servings: <number>' line, found \"1 cup water\"");
    assert_eq!(e.span, 11);

    let e = parse("title: Soup\n", "s").err().unwrap();
    assert_eq!(e.line, 2);
    assert_eq!(e.col, 1);
    assert_eq!(e.message, "recipe is missing a 'servings: <number>' line");
    assert_eq!(e.source_line, "");

    let e = parse("", "s").err().unwrap();
    assert_eq!(e.line, 1);
    assert_eq!(e.message, "recipe is missing a 'servings: <number>' line");
}

#[test]
fn recipe_needs_an_ingredient() {
    let e = parse("servings: 3\n\n# nothing yet\n", "s").err().unwrap();
    assert_eq!(e.line, 4);
    assert_eq!(e.message, "recipe has no ingredient lines");
}

#[test]
fn servings_value_errors() {
    let e = parse("servings:   \n", "s").err().unwrap();
    assert_eq!((e.line, e.col, e.span), (1, 10, 1));
    assert_eq!(e.message, "expected a number after 'servings:'");

    let e = parse("  servings:  0\n", "s").err().unwrap();
    assert_eq!((e.line, e.col, e.span), (1, 14, 1));
    assert_eq!(e.message, "servings must be greater than zero, found \"0\"");

    let e = parse("servings: -2\n", "s").err().unwrap();
    assert_eq!(e.message, "servings must be greater than zero, found \"-2\"");
    assert_eq!(e.span, 2);

    let e = parse("servings: four\n", "s").err().unwrap();
    assert_eq!((e.col, e.span), (11, 4));
    assert_eq!(e.message, "\"four\" is not a valid number");
}

#[test]
fn fraction_errors() {
    let e = parse("servings: 1\n1/ cup\n", "s").err().unwrap();
    assert_eq!((e.line, e.col, e.span), (2, 3, 1));
    assert_eq!(e.message, "expected a number after '/'");

    let e = parse("servings: 1\n  3/00 cup\n", "s").err().unwrap();
    assert_eq!((e.line, e.col, e.span), (2, 5, 2));
    assert_eq!(e.message, "fraction denominator cannot be zero");

    let e = parse("servings: 1\n1 1/0 cup\n", "s").err().unwrap();
    assert_eq!((e.col, e.span), (5, 1));
    assert_eq!(e.message, "fraction denominator cannot be zero");

    let e = parse("servings: 1\n1 2/ cup\n", "s").err().unwrap();
    assert_eq!((e.col, e.span), (5, 1));
    assert_eq!(e.message, "expected a number after '/'");

    let e = parse("servings: 1\n1.2.3 cups\n", "s").err().unwrap();
    assert_eq!((e.col, e.span), (1, 5));
    assert_eq!(e.message, "\"1.2.3\" is not a valid number");
}

#[test]
fn missing_ingredient_name() {
    let e = parse("servings: 1\n1 1/2\n", "s").err().unwrap();
    assert_eq!((e.line, e.col, e.span), (2, 6, 1));
    assert_eq!(e.message, "missing ingredient name after quantity");
}

#[test]
fn quantity_out_of_range() {
    let e = parse("servings: 1\n0.5/5000000000000000000 cup\n", "s").err().unwrap();
    assert_eq!((e.line, e.col), (2, 1));
    assert_eq!(
        e.message,
        "quantity \"0.5/5000000000000000000\" is too large to represent exactly"
    );
    assert_eq!(e.span, 23);
}

#[test]
fn error_render_for_wide_line_numbers() {
    let mut src = String::from("servings: 1\n");
    for _ in 0..10 {
        src.push_str("1 egg\n");
    }
    src.push_str("x\n");
    let e = parse(&src, "big.recipe").err().unwrap();
    assert_eq!(e.line, 12);
    assert_eq!(e.render(), format!("error: {}\n   --> big.recipe:12:1\n  |\n12 | x\n  | ^", e.message));
}

#[test]
fn indenting_an_ingredient_line_moves_only_the_column() {
    let plain = parse("servings: 1\na pinch of salt\n", "s").err().unwrap();
    let indented = parse("servings: 1\n    a pinch of salt\n", "s").err().unwrap();
    assert_eq!(plain.message, indented.message);
    assert_eq!(plain.span, indented.span);
    assert_eq!(plain.line, indented.line);
    assert_eq!(indented.col, plain.col + 4);

    let plain = parse("servings: 1\n1 1/0 cup\n", "s").err().unwrap();
    let indented = parse("servings: 1\n  1 1/0 cup\n", "s").err().unwrap();
    assert_eq!(plain.message, indented.message);
    assert_eq!(indented.col, plain.col + 2);

    let a = parse("servings: 1\n2 eggs\n", "s").ok().unwrap();
    let b = parse("servings: 1\n   2 eggs\n", "s").ok().unwrap();
    assert_eq!(a.ingredients[0].quantity, b.ingredients[0].quantity);
    assert_eq!(a.ingredients[0].description, b.ingredients[0].description);
}

#[test]
fn inserted_comment_and_blank_lines_change_nothing() {
    let a = "title: Rice\nservings: 2\n";
    let b = "1 cup rice\n2 cups water\n";
    let block = "# soak first\n\n   \n  # or not\n";
    let r1 = parse(&format!("{}{}", a, b), "r").ok().unwrap();
    let r2 = parse(&format!("{}{}{}", a, block, b), "r").ok().unwrap();
    assert_eq!(r1.title, r2.title);
    assert_eq!(r1.servings, r2.servings);
    let pairs = |r: &recipe_scale::parser::Recipe| -> Vec<(Fraction, String)> {
        r.ingredients.iter().map(|i| (i.quantity, i.description.clone())).collect()
    };
    assert_eq!(pairs(&r1), pairs(&r2));
}

#[test]
fn ingredient_lines_after_servings_are_read_in_order() {
    let r = parse("servings: 3\n1 a\n# x\n2 b\n\n3 c\n", "s").ok().unwrap();
    let got: Vec<(Fraction, &str)> =
        r.ingredients.iter().map(|i| (i.quantity, i.description.as_str())).collect();
    assert_eq!(got, vec![(f(1, 1), "a"), (f(2, 1), "b"), (f(3, 1), "c")]);
    let e = parse("servings: 3\n1 a\nb\n2/0 c\n", "s").err().unwrap();
    assert_eq!(e.line, 3);
}

#[test]
fn numbers_are_read_as_float_literals_are_written() {
    let r = parse("servings: 4.\n2. eggs\n.5 cup milk\n", "s").ok().unwrap();
    assert_eq!(r.servings, f(4, 1));
    let got: Vec<(Fraction, &str)> =
        r.ingredients.iter().map(|i| (i.quantity, i.description.as_str())).collect();
    assert_eq!(got, vec![(f(2, 1), "eggs"), (f(1, 2), "cup milk")]);
    assert_eq!(parse("servings: +4\n1 egg\n", "s").ok().unwrap().servings, f(4, 1));
    assert_eq!(parse("servings: 1e1\n1 egg\n", "s").ok().unwrap().servings, f(10, 1));
    assert_eq!(parse("servings: 2.5E-1\n1 egg\n", "s").ok().unwrap().servings, f(1, 4));
    let e = parse("servings: inf\n1 egg\n", "s").err().unwrap();
    assert_eq!(e.message, "\"inf\" is not a valid number");
    let e = parse("servings: 1e\n1 egg\n", "s").err().unwrap();
    assert_eq!((e.col, e.span), (11, 2));
    assert_eq!(e.message, "\"1e\" is not a valid number");
    let r = parse("servings: 2\n1e egg\n", "s").ok().unwrap();
    assert_eq!(r.ingredients[0].description, "e egg");
}

#[test]
fn ingredient_line_reader_on_its_own() {
    let g = parse_ingredient_line("1 1/2 cups flour", 3, "p").ok().unwrap();
    assert_eq!((g.quantity, g.description.as_str()), (f(3, 2), "cups flour"));
    let h = parse_ingredient_line("   1 1/2 cups flour", 3, "p").ok().unwrap();
    assert_eq!((h.quantity, h.description.as_str()), (f(3, 2), "cups flour"));
    let e1 = parse_ingredient_line("3/0 eggs", 7, "p").err().unwrap();
    let e2 = parse_ingredient_line("  3/0 eggs", 7, "p").err().unwrap();
    assert_eq!((e1.line, e1.col, e1.span), (7, 3, 1));
    assert_eq!(e1.message, "fraction denominator cannot be zero");
    assert_eq!((e2.message, e2.span, e2.col), (e1.message, e1.span, e1.col + 2));
}
