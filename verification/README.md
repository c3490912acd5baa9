# recipe_scale

Rescales the quantities of a plain-text recipe, either to a target number of
servings or by a factor, with exact fraction arithmetic. The library is written
in Verus and every function in `src/` is verified against its contract. The one
thing taken on trust is std's `String::push` (that it appends its character),
stated in `src/text.rs`, since vstd gives it no specification.

## Layout

- `src/number_theory.rs` — greatest common divisor, Bezout's identity, lowest
  terms are unique, truncating division.
- `src/fraction.rs` — `Fraction` (always returned in lowest terms), its
  arithmetic, exact decimal parsing (`parse_decimal` for the command-line
  options, `parse_number_exact` for numbers in a recipe, which follows the
  float-literal grammar: "4.", "+2", "1e3", "2.5E-1"), and the algebraic laws
  the scaling relies on.
- `src/text.rs` — character scanning, trimming, decimal digits.
- `src/scale.rs` — `format_quantity`: whole numbers, kitchen fractions
  ("2 1/2"), or short decimals.
- `src/units.rs` — kitchen units and the choice of a display unit.
- `src/parser.rs` — the recipe file format, with errors that point at the line
  and column at fault.
- `src/cli.rs` — command-line options, the scale factor, and the printed output.
- `app/main.rs` — the program: reads the arguments and the file, prints.
- `tests/` — tests on concrete recipes and values.

## Recipe file format

```
title: Buttermilk Pancakes
servings: 4

1 1/2 cups flour
3 1/2 tsp baking powder
```

`title:` is optional, `servings:` is required before the ingredient lines, and
blank lines and lines starting with `#` are ignored.

Numbers are read exactly, in the grammar of a float literal ("4", "4.", ".5",
"+2", "1e3", "2.5E-1"). A number is a significand (its digits without trailing
zeros) times a power of ten; it is accepted when it can be held as a fraction of
`i64`s in that form: a whole number that fits, or a significand that fits over
at most `10^18`. "inf" and "NaN" have no exact value and are rejected, as are
numbers beyond those limits.
