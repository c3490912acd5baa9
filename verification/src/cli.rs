use vstd::prelude::*;
use crate::fraction::{Fraction, spec_parse_decimal, parse_decimal, spec_div, spec_mul, div_defined, mul_defined, lowest_terms, lemma_spec_new, law_scale_to_target};
use crate::parser::{Recipe, RecipeView, IngredientView, quoted};
use crate::scale::{format_quantity, spec_format_quantity, format_defined};
use crate::text::{push_str, push_string, chars_of, string_from, str_eq, append_range};

verus! {

/// What the command line asks for.
pub enum Invocation {
    /// Print the usage text; `failed` when it is printed because the recipe
    /// file is missing (the program then exits with failure).
    Usage { failed: bool },
    /// Scale the recipe in `path`, to `target_servings` or by `factor`.
    Run { path: String, target_servings: Option<Fraction>, factor: Option<Fraction> },
}

pub enum InvocationView {
    Usage { failed: bool },
    Run { path: Seq<char>, target_servings: Option<Fraction>, factor: Option<Fraction> },
}

impl View for Invocation {
    type V = InvocationView;

    open spec fn view(&self) -> InvocationView {
        match self {
            Invocation::Usage { failed } => InvocationView::Usage { failed: *failed },
            Invocation::Run { path, target_servings, factor } => InvocationView::Run {
                path: path@,
                target_servings: *target_servings,
                factor: *factor,
            },
        }
    }
}

pub open spec fn args_view(args: Seq<String>) -> Seq<Seq<char>> {
    args.map_values(|a: String| a@)
}

pub open spec fn is_help_flag(a: Seq<char>) -> bool {
    a == "-h"@ || a == "--help"@
}

/// The options after the recipe path, from position `i` on: "--servings <n>"
/// and "--factor <n>", a later one replacing an earlier one of the same kind.
pub open spec fn scan_options(
    args: Seq<Seq<char>>,
    i: nat,
    target: Option<Fraction>,
    factor: Option<Fraction>,
) -> Result<(Option<Fraction>, Option<Fraction>), Seq<char>>
    decreases args.len() - i,
{
    if i >= args.len() {
        Ok((target, factor))
    } else if args[i as int] == "--servings"@ {
        if i + 1 >= args.len() {
            Err(missing_value_message(true))
        } else {
            match spec_parse_decimal(args[i as int + 1]) {
                None => Err(bad_value_message(true, args[i as int + 1])),
                Some(v) => scan_options(args, i + 2, Some(v), factor),
            }
        }
    } else if args[i as int] == "--factor"@ {
        if i + 1 >= args.len() {
            Err(missing_value_message(false))
        } else {
            match spec_parse_decimal(args[i as int + 1]) {
                None => Err(bad_value_message(false, args[i as int + 1])),
                Some(v) => scan_options(args, i + 2, target, Some(v)),
            }
        }
    } else {
        Err("error: unrecognized argument "@ + quoted(args[i as int]))
    }
}

/// How the program reads its arguments (the program name first): usage when
/// the recipe file is missing or help is asked for anywhere, else the path
/// and at most one of the two scaling options.
pub open spec fn spec_parse_args(args: Seq<Seq<char>>) -> Result<InvocationView, Seq<char>> {
    if args.len() < 2 || exists|i: int| 0 <= i < args.len() && is_help_flag(#[trigger] args[i]) {
        Ok(InvocationView::Usage { failed: args.len() < 2 })
    } else {
        match scan_options(args, 2, None, None) {
            Err(e) => Err(e),
            Ok((target, factor)) => if target is Some && factor is Some {
                Err("error: pass either --servings or --factor, not both"@)
            } else {
                Ok(InvocationView::Run { path: args[1], target_servings: target, factor })
            },
        }
    }
}

pub open spec fn invocation_view(r: Result<Invocation, String>) -> Result<InvocationView, Seq<char>> {
    match r {
        Ok(inv) => Ok(inv@),
        Err(e) => Err(e@),
    }
}

fn message(parts: &Vec<char>) -> (s: String)
    ensures
        s@ == parts@,
{
    string_from(parts)
}

fn push_quoted_str(out: &mut Vec<char>, s: &str)
    ensures
        final(out)@ == old(out)@ + quoted(s@),
{
    out.push('"');
    push_str(out, s);
    out.push('"');
    assert(final(out)@ =~= old(out)@ + quoted(s@));
}

pub open spec fn missing_value_message(servings: bool) -> Seq<char> {
    if servings {
        "error: --servings requires a value"@
    } else {
        "error: --factor requires a value"@
    }
}

pub open spec fn bad_value_message(servings: bool, value: Seq<char>) -> Seq<char> {
    if servings {
        "error: --servings value "@ + quoted(value) + " is not a number"@
    } else {
        "error: --factor value "@ + quoted(value) + " is not a number"@
    }
}

/// The value after the option at `i`, or the error for a missing or malformed one.
fn option_value(args: &Vec<String>, i: usize, servings: bool) -> (r: Result<Fraction, String>)
    requires
        i < args.len(),
    ensures
        ({
            let a = args_view(args@);
            if i + 1 >= a.len() {
                r matches Err(e) && e@ == missing_value_message(servings)
            } else {
                match spec_parse_decimal(a[i + 1]) {
                    None => r matches Err(e) && e@ == bad_value_message(servings, a[i + 1]),
                    Some(v) => r == Ok::<Fraction, String>(v),
                }
            }
        }),
{
    if i + 1 >= args.len() {
        let m = if servings {
            chars_of("error: --servings requires a value")
        } else {
            chars_of("error: --factor requires a value")
        };
        return Err(message(&m));
    }
    let value = args[i + 1].as_str();
    match parse_decimal(value) {
        Some(v) => Ok(v),
        None => {
            let mut m: Vec<char> = Vec::new();
            if servings {
                push_str(&mut m, "error: --servings value ");
            } else {
                push_str(&mut m, "error: --factor value ");
            }
            push_quoted_str(&mut m, value);
            push_str(&mut m, " is not a number");
            Err(message(&m))
        },
    }
}

/// Whether any argument asks for help.
fn asks_for_help(args: &Vec<String>) -> (r: bool)
    ensures
        r == exists|i: int| 0 <= i < args.len() && is_help_flag(#[trigger] args_view(args@)[i]),
{
    let mut i: usize = 0;
    while i < args.len()
        invariant
            i <= args.len(),
            forall|j: int| 0 <= j < i ==> !is_help_flag(#[trigger] args_view(args@)[j]),
        decreases args.len() - i,
    {
        let a = args[i].as_str();
        if str_eq(a, "-h") || str_eq(a, "--help") {
            assert(is_help_flag(args_view(args@)[i as int]));
            return true;
        }
        i = i + 1;
    }
    false
}

/// Reads the command line (program name first): usage when the recipe file is
/// missing or help is asked for, else the recipe path and the scaling option.
pub fn parse_args(args: &Vec<String>) -> (r: Result<Invocation, String>)
    ensures
        invocation_view(r) == spec_parse_args(args_view(args@)),
{
    let ghost a = args_view(args@);
    if args.len() < 2 || asks_for_help(args) {
        return Ok(Invocation::Usage { failed: args.len() < 2 });
    }
    let mut target_servings: Option<Fraction> = None;
    let mut factor: Option<Fraction> = None;
    let mut i: usize = 2;
    while i < args.len()
        invariant
            2 <= i,
            2 <= args.len(),
            a == args_view(args@),
            !(exists|j: int| 0 <= j < args.len() && is_help_flag(#[trigger] a[j])),
            scan_options(a, 2, None, None) == scan_options(a, i as nat, target_servings, factor),
        decreases args.len() - i,
    {
        let arg = args[i].as_str();
        assert(arg@ == a[i as int]);
        if str_eq(arg, "--servings") {
            match option_value(args, i, true) {
                Ok(v) => {
                    target_servings = Some(v);
                },
                Err(e) => return Err(e),
            }
            i = i + 2;
        } else if str_eq(arg, "--factor") {
            match option_value(args, i, false) {
                Ok(v) => {
                    factor = Some(v);
                },
                Err(e) => return Err(e),
            }
            i = i + 2;
        } else {
            let mut m: Vec<char> = Vec::new();
            push_str(&mut m, "error: unrecognized argument ");
            push_quoted_str(&mut m, arg);
            return Err(message(&m));
        }
    }
    if target_servings.is_some() && factor.is_some() {
        return Err(message(&chars_of("error: pass either --servings or --factor, not both")));
    }
    Ok(Invocation::Run { path: args[1].clone(), target_servings, factor })
}

/// The factor to scale by: `target / servings` for a target serving count, or
/// the factor given; it must be positive.
pub open spec fn spec_scale_factor(
    target_servings: Option<Fraction>,
    factor: Option<Fraction>,
    servings: Fraction,
) -> Result<Fraction, Seq<char>> {
    let chosen = match target_servings {
        Some(t) => Some(spec_div(t, servings)),
        None => factor,
    };
    match chosen {
        None => Err("error: specify --servings <n> or --factor <n>"@),
        Some(f) => if f.num > 0 {
            Ok(f)
        } else {
            Err("error: scale factor must be greater than zero"@)
        },
    }
}

/// Chooses the scale factor for a recipe with `servings` servings.
pub fn scale_factor(target_servings: Option<Fraction>, factor: Option<Fraction>, servings: Fraction) -> (r: Result<Fraction, String>)
    requires
        !(target_servings is Some && factor is Some),
        target_servings matches Some(t) ==> div_defined(t, servings),
    ensures
        match r {
            Ok(f) => spec_scale_factor(target_servings, factor, servings) == Ok::<Fraction, Seq<char>>(f),
            Err(e) => spec_scale_factor(target_servings, factor, servings) == Err::<Fraction, Seq<char>>(e@),
        },
{
    let chosen = match (target_servings, factor) {
        (Some(target), None) => target.div(servings),
        (None, Some(f)) => f,
        _ => return Err(message(&chars_of("error: specify --servings <n> or --factor <n>"))),
    };
    if !chosen.is_positive() {
        return Err(message(&chars_of("error: scale factor must be greater than zero")));
    }
    Ok(chosen)
}

/// The usage text, one '\n'-ended line each.
pub open spec fn spec_usage_text(program: Seq<char>) -> Seq<char> {
    "usage: "@ + program + " <recipe-file> (--servings <n> | --factor <n>)"@ + seq!['\n'] + seq![
        '\n',
    ] + "examples:"@ + seq!['\n'] + "  "@ + program + " examples/pancakes.recipe --servings 12"@
        + seq!['\n'] + "  "@ + program + " examples/pancakes.recipe --factor 1.5"@ + seq!['\n']
}

pub fn usage_text(program: &str) -> (s: String)
    ensures
        s@ == spec_usage_text(program@),
{
    let mut m: Vec<char> = Vec::new();
    push_str(&mut m, "usage: ");
    push_str(&mut m, program);
    push_str(&mut m, " <recipe-file> (--servings <n> | --factor <n>)");
    m.push('\n');
    m.push('\n');
    push_str(&mut m, "examples:");
    m.push('\n');
    push_str(&mut m, "  ");
    push_str(&mut m, program);
    push_str(&mut m, " examples/pancakes.recipe --servings 12");
    m.push('\n');
    push_str(&mut m, "  ");
    push_str(&mut m, program);
    push_str(&mut m, " examples/pancakes.recipe --factor 1.5");
    m.push('\n');
    assert(m@ =~= spec_usage_text(program@));
    message(&m)
}

/// The scaled recipe as printed, line by line: the title if there is one, the
/// new serving count, a blank line, then each ingredient with its scaled quantity.
pub open spec fn scaled_lines(recipe: RecipeView, factor: Fraction) -> Seq<Seq<char>> {
    let head: Seq<Seq<char>> = match recipe.title {
        Some(t) => seq![t],
        None => seq![],
    };
    head + seq![
        "servings: "@ + spec_format_quantity(spec_mul(recipe.servings, factor)),
        Seq::<char>::empty(),
    ] + recipe.ingredients.map_values(
        |i: IngredientView|
            spec_format_quantity(spec_mul(i.quantity, factor)) + seq![' '] + i.description,
    )
}

/// Lines joined, each ended by '\n'.
pub open spec fn join_lines(lines: Seq<Seq<char>>) -> Seq<char>
    decreases lines.len(),
{
    if lines.len() == 0 {
        Seq::empty()
    } else {
        join_lines(lines.drop_last()) + lines.last() + seq!['\n']
    }
}

/// Scaling by `factor` and formatting every quantity of the recipe stays in range.
pub open spec fn render_defined(recipe: RecipeView, factor: Fraction) -> bool {
    &&& mul_defined(recipe.servings, factor)
    &&& format_defined(spec_mul(recipe.servings, factor))
    &&& forall|i: int|
        0 <= i < recipe.ingredients.len() ==> mul_defined(
            (#[trigger] recipe.ingredients[i]).quantity,
            factor,
        ) && format_defined(spec_mul(recipe.ingredients[i].quantity, factor))
}

fn scaled_defined(q: Fraction, factor: Fraction) -> (b: bool)
    ensures
        b == (mul_defined(q, factor) && format_defined(spec_mul(q, factor))),
{
    match q.checked_mul(factor) {
        Some(s) => crate::scale::format_is_defined(s),
        None => false,
    }
}

/// Whether `render_scaled` may be called on `recipe` and `factor` without overflow.
pub fn render_is_defined(recipe: &Recipe, factor: Fraction) -> (b: bool)
    ensures
        b == render_defined(recipe@, factor),
{
    if !scaled_defined(recipe.servings, factor) {
        return false;
    }
    let mut i: usize = 0;
    while i < recipe.ingredients.len()
        invariant
            i <= recipe.ingredients.len(),
            forall|j: int|
                0 <= j < i ==> mul_defined((#[trigger] recipe@.ingredients[j]).quantity, factor)
                    && format_defined(spec_mul(recipe@.ingredients[j].quantity, factor)),
        decreases recipe.ingredients.len() - i,
    {
        if !scaled_defined(recipe.ingredients[i].quantity, factor) {
            assert(recipe@.ingredients[i as int] == recipe.ingredients@[i as int]@);
            return false;
        }
        assert(recipe@.ingredients[i as int] == recipe.ingredients@[i as int]@);
        i = i + 1;
    }
    true
}

proof fn lemma_join_push(lines: Seq<Seq<char>>, line: Seq<char>)
    ensures
        join_lines(lines.push(line)) == join_lines(lines) + line + seq!['\n'],
{
    assert(lines.push(line).drop_last() =~= lines);
}

fn push_line(out: &mut Vec<char>, line: &Vec<char>, Ghost(lines): Ghost<Seq<Seq<char>>>)
    requires
        old(out)@ == join_lines(lines),
    ensures
        final(out)@ == join_lines(lines.push(line@)),
{
    append_range(out, line, 0, line.len());
    out.push('\n');
    proof {
        lemma_join_push(lines, line@);
        assert(line@.subrange(0, line.len() as int) =~= line@);
    }
    assert(out@ =~= join_lines(lines.push(line@)));
}

/// The scaled recipe text as the program prints it.
pub fn render_scaled(recipe: &Recipe, factor: Fraction) -> (s: String)
    requires
        render_defined(recipe@, factor),
    ensures
        s@ == join_lines(scaled_lines(recipe@, factor)),
{
    let ghost r = recipe@;
    let mut out: Vec<char> = Vec::new();
    let ghost mut done: Seq<Seq<char>> = seq![];
    assert(out@ =~= join_lines(done));
    match &recipe.title {
        Some(title) => {
            let t = chars_of(title.as_str());
            push_line(&mut out, &t, Ghost(done));
            proof {
                done = done.push(t@);
            }
        },
        None => {},
    }
    let new_servings = recipe.servings.mul(factor);
    let mut line: Vec<char> = Vec::new();
    push_str(&mut line, "servings: ");
    push_string(&mut line, &format_quantity(new_servings));
    push_line(&mut out, &line, Ghost(done));
    proof {
        done = done.push(line@);
    }
    let blank: Vec<char> = Vec::new();
    push_line(&mut out, &blank, Ghost(done));
    proof {
        done = done.push(blank@);
    }
    let ghost head = done;
    assert(head =~= scaled_lines(r, factor).take(head.len() as int));
    let mut i: usize = 0;
    while i < recipe.ingredients.len()
        invariant
            i <= recipe.ingredients.len(),
            r == recipe@,
            render_defined(r, factor),
            out@ == join_lines(done),
            done == head + r.ingredients.take(i as int).map_values(
                |ing: IngredientView|
                    spec_format_quantity(spec_mul(ing.quantity, factor)) + seq![' ']
                        + ing.description,
            ),
            head == scaled_lines(r, factor).take(head.len() as int),
            head.len() + r.ingredients.len() == scaled_lines(r, factor).len(),
        decreases recipe.ingredients.len() - i,
    {
        let ingredient = &recipe.ingredients[i];
        assert(r.ingredients[i as int] == ingredient@);
        let scaled = ingredient.quantity.mul(factor);
        let mut line: Vec<char> = Vec::new();
        push_string(&mut line, &format_quantity(scaled));
        line.push(' ');
        push_string(&mut line, &ingredient.description);
        push_line(&mut out, &line, Ghost(done));
        proof {
            let f = |ing: IngredientView|
                spec_format_quantity(spec_mul(ing.quantity, factor)) + seq![' '] + ing.description;
            assert(line@ == f(r.ingredients[i as int]));
            assert(r.ingredients.take(i + 1).map_values(f) =~= r.ingredients.take(i as int).map_values(f).push(line@));
            done = done.push(line@);
        }
        i = i + 1;
    }
    proof {
        assert(r.ingredients.take(r.ingredients.len() as int) =~= r.ingredients);
        assert(done =~= scaled_lines(r, factor));
    }
    string_from(&out)
}

/// Asking for a target number of servings prints exactly that number on the
/// servings line: the factor `target / servings` is accepted, and scaling the
/// recipe's serving count by it gives the target back.
pub proof fn law_output_shows_target_servings(recipe: RecipeView, target: Fraction)
    requires
        lowest_terms(recipe.servings),
        recipe.servings.num > 0,
        lowest_terms(target),
        target.num > 0,
        div_defined(target, recipe.servings),
        mul_defined(recipe.servings, spec_div(target, recipe.servings)),
    ensures
        spec_scale_factor(Some(target), None, recipe.servings) == Ok::<Fraction, Seq<char>>(
            spec_div(target, recipe.servings),
        ),
        scaled_lines(recipe, spec_div(target, recipe.servings))[if recipe.title is Some {
            1int
        } else {
            0int
        }] == "servings: "@ + spec_format_quantity(target),
{
    let s = recipe.servings;
    let f = spec_div(target, s);
    lemma_spec_new(target.num * s.den, target.den * s.num);
    assert(f.num > 0) by (nonlinear_arith)
        requires
            f.num * (target.den * s.num) == (target.num * s.den) * f.den,
            target.num > 0,
            target.den > 0,
            s.num > 0,
            s.den > 0,
            f.den > 0,
    ;
    law_scale_to_target(s, target);
}

/// With a factor and no target serving count, the factor is used exactly as
/// given whenever it is positive, whatever the recipe's serving count, and is
/// refused when it is zero or negative: halving a recipe with a factor of 1/2
/// is as valid as doubling it.
pub proof fn law_factor_used_as_given(f: Fraction, servings: Fraction)
    requires
        f.den > 0,
    ensures
        f.num > 0 ==> spec_scale_factor(None, Some(f), servings) == Ok::<Fraction, Seq<char>>(f),
        f.num <= 0 ==> spec_scale_factor(None, Some(f), servings) is Err,
{
}

} // verus!
