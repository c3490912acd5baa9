use vstd::prelude::*;
use crate::text::{in_class, is_white_space, push_str, push_string, CharClass, span, span_from, lemma_span_bound, lemma_trim_len, trim, is_digit, trim_bounds, copy_range, append_range, chars_of, string_from, decimal, push_decimal, digits_value, all_digits, lemma_span_of_run, lemma_trim_nonempty};
use crate::fraction::{Fraction, lowest_terms, lemma_spec_new, law_parse_number_exact_lowest_terms, spec_parse_number_exact, spec_div, spec_add, div_defined, add_defined, parse_number_exact, law_parse_number_exact_whole, same_ratio};

verus! {

/// A line without the '\r' of a "\r\n" ending.
pub open spec fn drop_cr(line: Seq<char>) -> Seq<char> {
    if line.len() > 0 && line.last() == '\r' {
        line.drop_last()
    } else {
        line
    }
}

/// The lines of `s` as `str::lines` yields them: split at '\n', a '\r' just
/// before a '\n' dropped, and no empty last line after a final '\n'.
pub open spec fn spec_lines(s: Seq<char>) -> Seq<Seq<char>>
    decreases s.len(),
{
    if s.len() == 0 {
        seq![]
    } else {
        let e = span(s, CharClass::NotNewline);
        if e >= s.len() {
            seq![s]
        } else {
            seq![drop_cr(s.take(e as int))] + spec_lines(s.skip(e as int + 1))
        }
    }
}

proof fn lemma_lines_count(s: Seq<char>)
    ensures
        spec_lines(s).len() <= s.len(),
    decreases s.len(),
{
    if s.len() > 0 {
        let e = span(s, CharClass::NotNewline);
        lemma_span_bound(s, CharClass::NotNewline);
        if e < s.len() {
            lemma_lines_count(s.skip(e as int + 1));
        }
    }
}

/// The bounds `[start, end)` of each line of `chars`, in order.
fn line_bounds(chars: &Vec<char>) -> (r: Vec<(usize, usize)>)
    ensures
        r.len() == spec_lines(chars@).len(),
        r.len() <= chars.len(),
        forall|i: int| 0 <= i < r.len() ==> (#[trigger] r[i]).0 <= r[i].1 <= chars.len(),
        forall|i: int|
            0 <= i < r.len() ==> chars@.subrange(r[i].0 as int, r[i].1 as int) == #[trigger] spec_lines(chars@)[i],
{
    let n = chars.len();
    let mut r: Vec<(usize, usize)> = Vec::new();
    let mut pos: usize = 0;
    let ghost done: Seq<Seq<char>> = seq![];
    assert(chars@.skip(0) =~= chars@);
    while pos < n
        invariant
            pos <= n == chars.len(),
            r.len() == done.len(),
            spec_lines(chars@) == done + spec_lines(chars@.skip(pos as int)),
            forall|i: int| 0 <= i < r.len() ==> (#[trigger] r[i]).0 <= r[i].1 <= chars.len(),
            forall|i: int|
                0 <= i < r.len() ==> chars@.subrange(r[i].0 as int, r[i].1 as int) == #[trigger] done[i],
        decreases n - pos,
    {
        let ghost rest = chars@.skip(pos as int);
        let ghost old_r = r@;
        let ghost old_done = done;
        let e = span_from(chars, pos, n, CharClass::NotNewline);
        assert(chars@.subrange(pos as int, n as int) =~= rest);
        proof {
            lemma_span_bound(rest, CharClass::NotNewline);
        }
        if e == n {
            r.push((pos, n));
            proof {
                assert(spec_lines(rest) == seq![rest]);
                done = done.push(rest);
                assert(chars@.skip(n as int).len() == 0);
                assert(spec_lines(chars@.skip(n as int)) =~= Seq::<Seq<char>>::empty());
            }
            pos = n;
        } else {
            let end = if e > pos && chars[e - 1] == '\r' {
                e - 1
            } else {
                e
            };
            r.push((pos, end));
            proof {
                let line = drop_cr(rest.take(e - pos));
                assert(chars@.subrange(pos as int, end as int) =~= line);
                assert(rest.skip(e - pos + 1) =~= chars@.skip(e + 1));
                assert(spec_lines(rest) == seq![line] + spec_lines(chars@.skip(e + 1)));
                done = done.push(line);
            }
            pos = e + 1;
        }
        proof {
            assert forall|i: int| 0 <= i < r.len() implies (#[trigger] r[i]).0 <= r[i].1 <= chars.len() by {
                if i < old_r.len() {
                    assert(r@[i] == old_r[i]);
                }
            }
            assert forall|i: int| 0 <= i < r.len() implies chars@.subrange(r[i].0 as int, r[i].1 as int) == #[trigger] done[i] by {
                if i < old_r.len() {
                    assert(r@[i] == old_r[i]);
                    assert(done[i] == old_done[i]);
                }
            }
        }
    }
    assert(done + spec_lines(chars@.skip(pos as int)) =~= done) by {
        assert(chars@.skip(pos as int).len() == 0);
    }
    assert(spec_lines(chars@) == done);
    proof {
        lemma_lines_count(chars@);
    }
    r
}

/// A parsed recipe: optional title, serving count, and ingredient lines in order.
#[derive(Debug)]
pub struct Recipe {
    pub title: Option<String>,
    pub servings: Fraction,
    pub ingredients: Vec<Ingredient>,
}

/// One ingredient line: its quantity and the free text after it.
#[derive(Debug)]
pub struct Ingredient {
    pub quantity: Fraction,
    pub description: String,
}

/// Where and why a recipe file was rejected: file name, line and column
/// (both from 1), message, the offending line's text, and how many
/// characters to underline.
#[derive(Debug)]
pub struct ParseError {
    pub file: String,
    pub line: usize,
    pub col: usize,
    pub message: String,
    pub source_line: String,
    pub span: usize,
}

pub struct IngredientView {
    pub quantity: Fraction,
    pub description: Seq<char>,
}

pub struct RecipeView {
    pub title: Option<Seq<char>>,
    pub servings: Fraction,
    pub ingredients: Seq<IngredientView>,
}

pub struct ErrorView {
    pub file: Seq<char>,
    pub line: int,
    pub col: int,
    pub message: Seq<char>,
    pub source_line: Seq<char>,
    pub span: int,
}

impl View for Ingredient {
    type V = IngredientView;

    open spec fn view(&self) -> IngredientView {
        IngredientView { quantity: self.quantity, description: self.description@ }
    }
}

impl View for Recipe {
    type V = RecipeView;

    open spec fn view(&self) -> RecipeView {
        RecipeView {
            title: match self.title {
                Some(t) => Some(t@),
                None => None,
            },
            servings: self.servings,
            ingredients: self.ingredients@.map_values(|i: Ingredient| i@),
        }
    }
}

impl View for ParseError {
    type V = ErrorView;

    open spec fn view(&self) -> ErrorView {
        ErrorView {
            file: self.file@,
            line: self.line as int,
            col: self.col as int,
            message: self.message@,
            source_line: self.source_line@,
            span: self.span as int,
        }
    }
}

pub open spec fn result_view(r: Result<Recipe, ParseError>) -> Result<RecipeView, ErrorView> {
    match r {
        Ok(recipe) => Ok(recipe@),
        Err(e) => Err(e@),
    }
}

pub open spec fn error_at(
    file: Seq<char>,
    line: int,
    col: int,
    message: Seq<char>,
    source_line: Seq<char>,
    span: int,
) -> ErrorView {
    ErrorView { file, line, col, message, source_line, span }
}

/// `n.max(1)`.
pub open spec fn at_least_one(n: int) -> int {
    if n >= 1 {
        n
    } else {
        1
    }
}

pub open spec fn quoted(s: Seq<char>) -> Seq<char> {
    seq!['"'] + s + seq!['"']
}

pub open spec fn starts_with(s: Seq<char>, prefix: Seq<char>) -> bool {
    prefix.len() <= s.len() && s.take(prefix.len() as int) == prefix
}

/// The column (from 1) of the first character of `line` that is not white space.
pub open spec fn first_col(line: Seq<char>) -> int {
    span(line, CharClass::WhiteSpace) as int + 1
}

/// A number in a recipe line, read exactly, or the error that points at it.
pub open spec fn spec_parse_number(
    text: Seq<char>,
    line: int,
    col: int,
    raw: Seq<char>,
    file: Seq<char>,
) -> Result<Fraction, ErrorView> {
    match spec_parse_number_exact(text) {
        Some(f) => Ok(f),
        None => Err(
            error_at(
                file,
                line,
                col,
                quoted(text) + " is not a valid number"@,
                raw,
                at_least_one(text.len() as int),
            ),
        ),
    }
}

/// The rest of an ingredient quantity after its first number `first`, which
/// ends at `i` in the trimmed line `c`: nothing, "/d" (a simple fraction), or
/// spaces then "n/d" (a mixed number). Gives the quantity and where it ends.
pub open spec fn spec_quantity_rest(
    c: Seq<char>,
    i: int,
    first: Fraction,
    start_col: int,
    line: int,
    raw: Seq<char>,
    file: Seq<char>,
) -> Result<(Fraction, int), ErrorView> {
    if i < c.len() && c[i] == '/' {
        let ds = i + 1;
        let j = ds + span(c.skip(ds), CharClass::Digit);
        if j == ds {
            Err(error_at(file, line, start_col + ds, "expected a number after '/'"@, raw, 1))
        } else {
            let dt = c.subrange(ds, j);
            match spec_parse_number(dt, line, start_col + ds, raw, file) {
                Err(e) => Err(e),
                Ok(d) => if d.num == 0 {
                    Err(
                        error_at(
                            file,
                            line,
                            start_col + ds,
                            "fraction denominator cannot be zero"@,
                            raw,
                            at_least_one(dt.len() as int),
                        ),
                    )
                } else if !div_defined(first, d) {
                    Err(out_of_range(c.take(j), start_col, line, raw, file))
                } else {
                    Ok((spec_div(first, d), j))
                },
            }
        }
    } else {
        let j = i + span(c.skip(i), CharClass::Space);
        if j > i && j < c.len() && is_digit(c[j]) {
            let k = j + span(c.skip(j), CharClass::Digit);
            if k < c.len() && c[k] == '/' {
                let ds = k + 1;
                let m = ds + span(c.skip(ds), CharClass::Digit);
                if m == ds {
                    Err(error_at(file, line, start_col + ds, "expected a number after '/'"@, raw, 1))
                } else {
                    let nt = c.subrange(j, k);
                    let dt = c.subrange(ds, m);
                    match spec_parse_number(nt, line, start_col + j, raw, file) {
                        Err(e) => Err(e),
                        Ok(n) => match spec_parse_number(dt, line, start_col + ds, raw, file) {
                            Err(e) => Err(e),
                            Ok(d) => if d.num == 0 {
                                Err(
                                    error_at(
                                        file,
                                        line,
                                        start_col + ds,
                                        "fraction denominator cannot be zero"@,
                                        raw,
                                        at_least_one(dt.len() as int),
                                    ),
                                )
                            } else if !div_defined(n, d) || !add_defined(first, spec_div(n, d)) {
                                Err(out_of_range(c.take(m), start_col, line, raw, file))
                            } else {
                                Ok((spec_add(first, spec_div(n, d)), m))
                            },
                        },
                    }
                }
            } else {
                Ok((first, i))
            }
        } else {
            Ok((first, i))
        }
    }
}

/// The error for a quantity whose exact value does not fit in `i64` parts.
pub open spec fn out_of_range(
    text: Seq<char>,
    start_col: int,
    line: int,
    raw: Seq<char>,
    file: Seq<char>,
) -> ErrorView {
    error_at(
        file,
        line,
        start_col,
        "quantity "@ + quoted(text) + " is too large to represent exactly"@,
        raw,
        at_least_one(text.len() as int),
    )
}

/// An ingredient line: a quantity (whole number, decimal, simple fraction or
/// mixed number) followed by a non-empty description.
pub open spec fn spec_ingredient(raw: Seq<char>, line: int, file: Seq<char>) -> Result<
    IngredientView,
    ErrorView,
> {
    let start_col = first_col(raw);
    let c = trim(raw);
    if c.len() == 0 {
        Err(error_at(file, line, start_col, "expected an ingredient line, found nothing"@, raw, 1))
    } else {
        let i = span(c, CharClass::DigitOrDot) as int;
        if i == 0 {
            Err(
                error_at(
                    file,
                    line,
                    start_col,
                    "expected a quantity (a number like \"2\", a fraction like \"1/2\", or a mixed number like \"1 1/2\"), found "@
                        + quoted(seq![c[0]]),
                    raw,
                    1,
                ),
            )
        } else {
            match spec_parse_number(c.take(i), line, start_col, raw, file) {
                Err(e) => Err(e),
                Ok(first) => match spec_quantity_rest(c, i, first, start_col, line, raw, file) {
                    Err(e) => Err(e),
                    Ok((quantity, consumed)) => {
                        let description = trim(c.skip(consumed));
                        if description.len() == 0 {
                            Err(
                                error_at(
                                    file,
                                    line,
                                    start_col + consumed,
                                    "missing ingredient name after quantity"@,
                                    raw,
                                    1,
                                ),
                            )
                        } else {
                            Ok(IngredientView { quantity, description })
                        }
                    },
                },
            }
        }
    }
}

fn make_error(
    file: &str,
    line: usize,
    col: usize,
    message: &Vec<char>,
    raw: &Vec<char>,
    span: usize,
) -> (e: ParseError)
    ensures
        e@ == error_at(file@, line as int, col as int, message@, raw@, span as int),
{
    ParseError {
        file: string_from(&chars_of(file)),
        line,
        col,
        message: string_from(message),
        source_line: string_from(raw),
        span,
    }
}

/// Appends `text` in double quotes.
fn push_quoted(out: &mut Vec<char>, text: &Vec<char>)
    ensures
        final(out)@ == old(out)@ + quoted(text@),
{
    out.push('"');
    append_range(out, text, 0, text.len());
    out.push('"');
    assert(text@.subrange(0, text.len() as int) =~= text@);
    assert(final(out)@ =~= old(out)@ + quoted(text@));
}

/// A number in a recipe line, read exactly, or an error pointing at `col`.
fn parse_number(text: &Vec<char>, line: usize, col: usize, raw: &Vec<char>, file: &str) -> (r:
    Result<Fraction, ParseError>)
    ensures
        match r {
            Ok(f) => spec_parse_number(text@, line as int, col as int, raw@, file@) == Ok::<
                Fraction,
                ErrorView,
            >(f),
            Err(e) => spec_parse_number(text@, line as int, col as int, raw@, file@) == Err::<
                Fraction,
                ErrorView,
            >(e@),
        },
{
    let s = string_from(text);
    match parse_number_exact(s.as_str()) {
        Some(f) => Ok(f),
        None => {
            let mut message: Vec<char> = Vec::new();
            push_quoted(&mut message, text);
            let tail = chars_of(" is not a valid number");
            append_range(&mut message, &tail, 0, tail.len());
            assert(tail@.subrange(0, tail.len() as int) =~= tail@);
            let span = if text.len() >= 1 {
                text.len()
            } else {
                1
            };
            Err(make_error(file, line, col, &message, raw, span))
        },
    }
}

pub open spec fn rest_view(r: Result<(Fraction, usize), ParseError>) -> Result<(Fraction, int), ErrorView> {
    match r {
        Ok((q, k)) => Ok((q, k as int)),
        Err(e) => Err(e@),
    }
}

fn literal_error(file: &str, line: usize, col: usize, message: &str, raw: &Vec<char>, span: usize) -> (e: ParseError)
    ensures
        e@ == error_at(file@, line as int, col as int, message@, raw@, span as int),
{
    let m = chars_of(message);
    make_error(file, line, col, &m, raw, span)
}

fn out_of_range_error(c: &Vec<char>, end: usize, start_col: usize, line: usize, raw: &Vec<char>, file: &str) -> (e: ParseError)
    requires
        end <= c.len(),
    ensures
        e@ == out_of_range(c@.take(end as int), start_col as int, line as int, raw@, file@),
{
    let text = copy_range(c, 0, end);
    assert(text@ =~= c@.take(end as int));
    let mut message: Vec<char> = Vec::new();
    push_str(&mut message, "quantity ");
    push_quoted(&mut message, &text);
    push_str(&mut message, " is too large to represent exactly");
    let span = if end >= 1 {
        end
    } else {
        1
    };
    make_error(file, line, start_col, &message, raw, span)
}

fn zero_denominator_error(dt: &Vec<char>, col: usize, line: usize, raw: &Vec<char>, file: &str) -> (e: ParseError)
    ensures
        e@ == error_at(file@, line as int, col as int, "fraction denominator cannot be zero"@, raw@, at_least_one(dt@.len() as int)),
{
    let span = if dt.len() >= 1 {
        dt.len()
    } else {
        1
    };
    literal_error(file, line, col, "fraction denominator cannot be zero", raw, span)
}

/// Reads what follows the first number of a quantity: "/d", or spaces then
/// "n/d", or nothing. Returns the whole quantity and where it ends in `c`.
fn parse_quantity_rest(
    c: &Vec<char>,
    i: usize,
    first: Fraction,
    start_col: usize,
    line: usize,
    raw: &Vec<char>,
    file: &str,
) -> (r: Result<(Fraction, usize), ParseError>)
    requires
        i <= c.len(),
        start_col + c.len() <= usize::MAX,
    ensures
        rest_view(r) == spec_quantity_rest(c@, i as int, first, start_col as int, line as int, raw@, file@),
        r matches Ok((_, k)) ==> i <= k <= c.len(),
{
    let n = c.len();
    if i < n && c[i] == '/' {
        let ds = i + 1;
        let j = span_from(c, ds, n, CharClass::Digit);
        assert(c@.subrange(ds as int, n as int) =~= c@.skip(ds as int));
        if j == ds {
            return Err(literal_error(file, line, start_col + ds, "expected a number after '/'", raw, 1));
        }
        let dt = copy_range(c, ds, j);
        let d = match parse_number(&dt, line, start_col + ds, raw, file) {
            Ok(d) => d,
            Err(e) => return Err(e),
        };
        if d.is_zero() {
            return Err(zero_denominator_error(&dt, start_col + ds, line, raw, file));
        }
        match first.checked_div(d) {
            Some(q) => Ok((q, j)),
            None => Err(out_of_range_error(c, j, start_col, line, raw, file)),
        }
    } else {
        let j = span_from(c, i, n, CharClass::Space);
        assert(c@.subrange(i as int, n as int) =~= c@.skip(i as int));
        if j > i && j < n && '0' <= c[j] && c[j] <= '9' {
            let k = span_from(c, j, n, CharClass::Digit);
            assert(c@.subrange(j as int, n as int) =~= c@.skip(j as int));
            if k < n && c[k] == '/' {
                let ds = k + 1;
                let m = span_from(c, ds, n, CharClass::Digit);
                assert(c@.subrange(ds as int, n as int) =~= c@.skip(ds as int));
                if m == ds {
                    return Err(literal_error(file, line, start_col + ds, "expected a number after '/'", raw, 1));
                }
                let nt = copy_range(c, j, k);
                let dt = copy_range(c, ds, m);
                let numerator = match parse_number(&nt, line, start_col + j, raw, file) {
                    Ok(x) => x,
                    Err(e) => return Err(e),
                };
                let denominator = match parse_number(&dt, line, start_col + ds, raw, file) {
                    Ok(x) => x,
                    Err(e) => return Err(e),
                };
                if denominator.is_zero() {
                    return Err(zero_denominator_error(&dt, start_col + ds, line, raw, file));
                }
                let part = match numerator.checked_div(denominator) {
                    Some(p) => p,
                    None => return Err(out_of_range_error(c, m, start_col, line, raw, file)),
                };
                match first.checked_add(part) {
                    Some(q) => Ok((q, m)),
                    None => Err(out_of_range_error(c, m, start_col, line, raw, file)),
                }
            } else {
                Ok((first, i))
            }
        } else {
            Ok((first, i))
        }
    }
}

pub open spec fn ingredient_view(r: Result<Ingredient, ParseError>) -> Result<IngredientView, ErrorView> {
    match r {
        Ok(i) => Ok(i@),
        Err(e) => Err(e@),
    }
}

/// The column (from 1) of the first character of `line` that is not white space.
fn first_non_ws_col(line: &Vec<char>) -> (col: usize)
    requires
        line.len() < usize::MAX,
    ensures
        col == first_col(line@),
        col <= line.len() + 1,
{
    let k = span_from(line, 0, line.len(), CharClass::WhiteSpace);
    assert(line@.subrange(0, line.len() as int) =~= line@);
    k + 1
}

/// `parse_ingredient_line` on the characters of the line.
fn read_ingredient_line(raw: &Vec<char>, line_no: usize, file: &str) -> (r: Result<Ingredient, ParseError>)
    requires
        raw.len() < usize::MAX,
    ensures
        ingredient_view(r) == spec_ingredient(raw@, line_no as int, file@),
{
    let start_col = first_non_ws_col(raw);
    let (a, b) = trim_bounds(raw, 0, raw.len());
    assert(raw@.subrange(0, raw.len() as int) =~= raw@);
    let chars = copy_range(raw, a, b);
    let n = chars.len();
    if n == 0 {
        return Err(literal_error(file, line_no, start_col, "expected an ingredient line, found nothing", raw, 1));
    }
    let i = span_from(&chars, 0, n, CharClass::DigitOrDot);
    assert(chars@.subrange(0, n as int) =~= chars@);
    if i == 0 {
        let mut message: Vec<char> = Vec::new();
        push_str(&mut message, "expected a quantity (a number like \"2\", a fraction like \"1/2\", or a mixed number like \"1 1/2\"), found ");
        let first_char = copy_range(&chars, 0, 1);
        assert(first_char@ =~= seq![chars@[0]]);
        push_quoted(&mut message, &first_char);
        return Err(make_error(file, line_no, start_col, &message, raw, 1));
    }
    let first_token = copy_range(&chars, 0, i);
    assert(first_token@ =~= chars@.take(i as int));
    let first = match parse_number(&first_token, line_no, start_col, raw, file) {
        Ok(x) => x,
        Err(e) => return Err(e),
    };
    let (quantity, consumed) = match parse_quantity_rest(&chars, i, first, start_col, line_no, raw, file) {
        Ok(qc) => qc,
        Err(e) => return Err(e),
    };
    let (da, db) = trim_bounds(&chars, consumed, n);
    assert(chars@.subrange(consumed as int, n as int) =~= chars@.skip(consumed as int));
    if da == db {
        return Err(literal_error(file, line_no, start_col + consumed, "missing ingredient name after quantity", raw, 1));
    }
    let description = copy_range(&chars, da, db);
    Ok(Ingredient { quantity, description: string_from(&description) })
}

/// Parses the ingredient line `raw_line`, number `line_no` of `file`: a
/// quantity (whole number, decimal, simple fraction or mixed number) followed
/// by the rest of the line as the description.
pub fn parse_ingredient_line(raw_line: &str, line_no: usize, file: &str) -> (r: Result<
    Ingredient,
    ParseError,
>)
    requires
        raw_line@.len() < usize::MAX,
    ensures
        ingredient_view(r) == spec_ingredient(raw_line@, line_no as int, file@),
{
    let raw = chars_of(raw_line);
    read_ingredient_line(&raw, line_no, file)
}

/// What has been read so far: the title, the serving count once its line is
/// seen, and the ingredient lines after it.
pub struct ParseState {
    pub title: Option<Seq<char>>,
    pub servings: Option<Fraction>,
    pub ingredients: Seq<IngredientView>,
}

/// The serving count on a "servings:" line whose text after the label is `rest`.
pub open spec fn spec_servings_value(
    rest: Seq<char>,
    start_col: int,
    line: int,
    raw: Seq<char>,
    file: Seq<char>,
) -> Result<Fraction, ErrorView> {
    let value = trim(rest);
    let value_col = start_col + "servings:"@.len() + span(rest, CharClass::WhiteSpace);
    if value.len() == 0 {
        Err(error_at(file, line, value_col, "expected a number after 'servings:'"@, raw, 1))
    } else {
        match spec_parse_number(value, line, value_col, raw, file) {
            Err(e) => Err(e),
            Ok(n) => if n.num <= 0 {
                Err(
                    error_at(
                        file,
                        line,
                        value_col,
                        "servings must be greater than zero, found "@ + quoted(value),
                        raw,
                        at_least_one(value.len() as int),
                    ),
                )
            } else {
                Ok(n)
            },
        }
    }
}

/// Reads one line of a recipe file. Blank lines and '#' comments are skipped;
/// before the "servings:" line only "title:" lines may appear; after it every
/// line is an ingredient.
pub open spec fn spec_step(st: ParseState, line: int, raw: Seq<char>, file: Seq<char>) -> Result<
    ParseState,
    ErrorView,
> {
    let content = trim(raw);
    if content.len() == 0 || content[0] == '#' {
        Ok(st)
    } else if st.servings is None {
        let start_col = first_col(raw);
        if starts_with(content, "title:"@) {
            Ok(
                ParseState {
                    title: Some(trim(content.skip("title:"@.len() as int))),
                    servings: st.servings,
                    ingredients: st.ingredients,
                },
            )
        } else if starts_with(content, "servings:"@) {
            match spec_servings_value(
                content.skip("servings:"@.len() as int),
                start_col,
                line,
                raw,
                file,
            ) {
                Err(e) => Err(e),
                Ok(n) => Ok(
                    ParseState { title: st.title, servings: Some(n), ingredients: st.ingredients },
                ),
            }
        } else {
            Err(
                error_at(
                    file,
                    line,
                    start_col,
                    "expected a 'servings: <number>' line, found "@ + quoted(content),
                    raw,
                    at_least_one(content.len() as int),
                ),
            )
        }
    } else {
        match spec_ingredient(raw, line, file) {
            Err(e) => Err(e),
            Ok(i) => Ok(
                ParseState {
                    title: st.title,
                    servings: st.servings,
                    ingredients: st.ingredients.push(i),
                },
            ),
        }
    }
}

pub open spec fn initial_state() -> ParseState {
    ParseState { title: None, servings: None, ingredients: seq![] }
}

/// The state after the first `n` lines, or the first error among them.
pub open spec fn run_lines(lines: Seq<Seq<char>>, n: nat, file: Seq<char>) -> Result<
    ParseState,
    ErrorView,
>
    decreases n,
{
    if n == 0 {
        Ok(initial_state())
    } else {
        match run_lines(lines, (n - 1) as nat, file) {
            Err(e) => Err(e),
            Ok(st) => spec_step(st, n as int, lines[n - 1], file),
        }
    }
}

/// A recipe read from its lines: every line read without error, a serving
/// count, and at least one ingredient. Errors found after the last line point
/// just past it.
pub open spec fn recipe_of_lines(lines: Seq<Seq<char>>, file: Seq<char>) -> Result<
    RecipeView,
    ErrorView,
> {
    match run_lines(lines, lines.len(), file) {
        Err(e) => Err(e),
        Ok(st) => match st.servings {
            None => Err(
                error_at(
                    file,
                    lines.len() as int + 1,
                    1,
                    "recipe is missing a 'servings: <number>' line"@,
                    seq![],
                    1,
                ),
            ),
            Some(servings) => if st.ingredients.len() == 0 {
                Err(error_at(file, lines.len() as int + 1, 1, "recipe has no ingredient lines"@, seq![], 1))
            } else {
                Ok(RecipeView { title: st.title, servings, ingredients: st.ingredients })
            },
        },
    }
}

/// What `parse` gives for the text of a recipe file.
pub open spec fn spec_parse(source: Seq<char>, file: Seq<char>) -> Result<RecipeView, ErrorView> {
    recipe_of_lines(spec_lines(source), file)
}

pub open spec fn state_view(
    title: Option<String>,
    servings: Option<Fraction>,
    ingredients: Vec<Ingredient>,
) -> ParseState {
    ParseState {
        title: match title {
            Some(t) => Some(t@),
            None => None,
        },
        servings,
        ingredients: ingredients@.map_values(|i: Ingredient| i@),
    }
}

/// Whether `v[start..end]` begins with `prefix`; if so, its length.
fn match_prefix(v: &Vec<char>, start: usize, end: usize, prefix: &str) -> (r: Option<usize>)
    requires
        start <= end <= v.len(),
    ensures
        match r {
            Some(k) => starts_with(v@.subrange(start as int, end as int), prefix@) && k
                == prefix@.len(),
            None => !starts_with(v@.subrange(start as int, end as int), prefix@),
        },
{
    let p = chars_of(prefix);
    if p.len() > end - start {
        return None;
    }
    let mut i: usize = 0;
    while i < p.len()
        invariant
            i <= p.len() <= end - start,
            start <= end <= v.len(),
            p@ == prefix@,
            forall|j: int| 0 <= j < i ==> v@[start + j] == p@[j],
        decreases p.len() - i,
    {
        if v[start + i] != p[i] {
            assert(v@.subrange(start as int, end as int).take(p.len() as int)[i as int] != p@[i as int]);
            return None;
        }
        i = i + 1;
    }
    assert(v@.subrange(start as int, end as int).take(p.len() as int) =~= p@);
    Some(p.len())
}

/// The serving count on a "servings:" line; `rest` is `raw[rs..re]`, the
/// trimmed line after its label.
fn parse_servings_value(
    raw: &Vec<char>,
    rs: usize,
    re: usize,
    start_col: usize,
    line_no: usize,
    file: &str,
) -> (r: Result<Fraction, ParseError>)
    requires
        rs <= re <= raw.len(),
        start_col + "servings:"@.len() + (re - rs) <= raw.len() + 1,
        raw.len() < usize::MAX,
    ensures
        match r {
            Ok(f) => spec_servings_value(raw@.subrange(rs as int, re as int), start_col as int, line_no as int, raw@, file@) == Ok::<Fraction, ErrorView>(f),
            Err(e) => spec_servings_value(raw@.subrange(rs as int, re as int), start_col as int, line_no as int, raw@, file@) == Err::<Fraction, ErrorView>(e@),
        },
{
    let label = chars_of("servings:");
    let (va, vb) = trim_bounds(raw, rs, re);
    let value_col = start_col + label.len() + (va - rs);
    if va == vb {
        return Err(literal_error(file, line_no, value_col, "expected a number after 'servings:'", raw, 1));
    }
    let value = copy_range(raw, va, vb);
    let n = match parse_number(&value, line_no, value_col, raw, file) {
        Ok(n) => n,
        Err(e) => return Err(e),
    };
    if !n.is_positive() {
        let mut message: Vec<char> = Vec::new();
        push_str(&mut message, "servings must be greater than zero, found ");
        push_quoted(&mut message, &value);
        return Err(make_error(file, line_no, value_col, &message, raw, value.len()));
    }
    Ok(n)
}

/// Reads one line into the state held in `title`, `servings` and `ingredients`.
fn read_line(
    raw: &Vec<char>,
    line_no: usize,
    file: &str,
    title: &mut Option<String>,
    servings: &mut Option<Fraction>,
    ingredients: &mut Vec<Ingredient>,
) -> (r: Result<(), ParseError>)
    requires
        raw.len() < usize::MAX,
    ensures
        match spec_step(state_view(*old(title), *old(servings), *old(ingredients)), line_no as int, raw@, file@) {
            Ok(st) => r is Ok && state_view(*final(title), *final(servings), *final(ingredients)) == st,
            Err(e) => r matches Err(re) && re@ == e,
        },
{
    let ghost st = state_view(*title, *servings, *ingredients);
    let (ca, cb) = trim_bounds(raw, 0, raw.len());
    assert(raw@.subrange(0, raw.len() as int) =~= raw@);
    if ca == cb || raw[ca] == '#' {
        return Ok(());
    }
    if servings.is_none() {
        let start_col = first_non_ws_col(raw);
        match match_prefix(raw, ca, cb, "title:") {
            Some(k) => {
                let (ta, tb) = trim_bounds(raw, ca + k, cb);
                assert(raw@.subrange(ca as int, cb as int).skip(k as int) =~= raw@.subrange(ca + k, cb as int));
                *title = Some(string_from(&copy_range(raw, ta, tb)));
                return Ok(());
            },
            None => {},
        }
        match match_prefix(raw, ca, cb, "servings:") {
            Some(k) => {
                assert(raw@.subrange(ca as int, cb as int).skip(k as int) =~= raw@.subrange(ca + k, cb as int));
                match parse_servings_value(raw, ca + k, cb, start_col, line_no, file) {
                    Ok(n) => {
                        *servings = Some(n);
                        return Ok(());
                    },
                    Err(e) => return Err(e),
                }
            },
            None => {},
        }
        let content = copy_range(raw, ca, cb);
        let mut message: Vec<char> = Vec::new();
        push_str(&mut message, "expected a 'servings: <number>' line, found ");
        push_quoted(&mut message, &content);
        return Err(make_error(file, line_no, start_col, &message, raw, content.len()));
    }
    match read_ingredient_line(raw, line_no, file) {
        Ok(ingredient) => {
            ingredients.push(ingredient);
            assert(ingredients@.map_values(|i: Ingredient| i@) =~= st.ingredients.push(ingredient@));
            Ok(())
        },
        Err(e) => Err(e),
    }
}

/// Once a line fails, reading further lines keeps that first error.
proof fn lemma_error_sticks(lines: Seq<Seq<char>>, k: nat, n: nat, file: Seq<char>)
    requires
        k <= n,
        run_lines(lines, k, file) is Err,
    ensures
        run_lines(lines, n, file) == run_lines(lines, k, file),
    decreases n - k,
{
    if k < n {
        lemma_error_sticks(lines, k, (n - 1) as nat, file);
    }
}

/// Parses the text of a recipe file: optional "title:" lines, a required
/// "servings:" line, then ingredient lines; blank lines and '#' comments are
/// skipped. Errors name the file, line and column of the problem.
pub fn parse(source: &str, file: &str) -> (r: Result<Recipe, ParseError>)
    requires
        source@.len() < usize::MAX,
    ensures
        result_view(r) == spec_parse(source@, file@),
{
    let chars = chars_of(source);
    let bounds = line_bounds(&chars);
    let ghost lines = spec_lines(chars@);
    let mut title: Option<String> = None;
    let mut servings: Option<Fraction> = None;
    let mut ingredients: Vec<Ingredient> = Vec::new();
    let mut idx: usize = 0;
    assert(state_view(title, servings, ingredients) =~= initial_state()) by {
        assert(ingredients@.map_values(|i: Ingredient| i@) =~= Seq::<IngredientView>::empty());
    }
    while idx < bounds.len()
        invariant
            idx <= bounds.len() == lines.len(),
            bounds.len() <= chars.len() < usize::MAX,
            lines == spec_lines(source@),
            forall|i: int| 0 <= i < bounds.len() ==> (#[trigger] bounds[i]).0 <= bounds[i].1 <= chars.len(),
            forall|i: int|
                0 <= i < bounds.len() ==> chars@.subrange(bounds[i].0 as int, bounds[i].1 as int) == #[trigger] lines[i],
            run_lines(lines, idx as nat, file@) == Ok::<ParseState, ErrorView>(state_view(title, servings, ingredients)),
        decreases bounds.len() - idx,
    {
        let (a, b) = bounds[idx];
        let raw = copy_range(&chars, a, b);
        assert(raw@ == lines[idx as int]);
        match read_line(&raw, idx + 1, file, &mut title, &mut servings, &mut ingredients) {
            Ok(()) => {},
            Err(e) => {
                proof {
                    lemma_error_sticks(lines, (idx + 1) as nat, lines.len(), file@);
                }
                return Err(e);
            },
        }
        idx = idx + 1;
    }
    let last_line = bounds.len();
    let servings = match servings {
        Some(s) => s,
        None => return Err(literal_error(file, last_line + 1, 1, "recipe is missing a 'servings: <number>' line", &Vec::new(), 1)),
    };
    if ingredients.len() == 0 {
        return Err(literal_error(file, last_line + 1, 1, "recipe has no ingredient lines", &Vec::new(), 1));
    }
    Ok(Recipe { title, servings, ingredients })
}

pub open spec fn repeated(c: char, n: nat) -> Seq<char> {
    Seq::new(n, |i: int| c)
}

/// The diagnostic for an error, in the documented layout: the message, then the
/// file, line and column, then the offending line between two gutter lines,
/// the last of which carries the carets for the span that caused it.
pub open spec fn spec_render(e: ErrorView) -> Seq<char> {
    let number = decimal(e.line as nat);
    let width = number.len();
    "error: "@ + e.message + seq!['\n'] + repeated(' ', width + 1) + "--> "@ + e.file + seq![':']
        + number + seq![':'] + decimal(e.col as nat) + seq!['\n'] + repeated(' ', width) + "|"@
        + seq!['\n'] + number + " | "@ + e.source_line + seq!['\n'] + repeated(' ', width)
        + "| "@ + repeated(' ', (if e.col >= 1 { e.col - 1 } else { 0 }) as nat) + repeated(
        '^',
        at_least_one(e.span) as nat,
    )
}

fn push_repeated(out: &mut Vec<char>, c: char, n: usize)
    ensures
        final(out)@ == old(out)@ + repeated(c, n as nat),
{
    let mut i: usize = 0;
    while i < n
        invariant
            i <= n,
            out@ == old(out)@ + repeated(c, i as nat),
        decreases n - i,
    {
        out.push(c);
        assert(out@ =~= old(out)@ + repeated(c, (i + 1) as nat));
        i = i + 1;
    }
}

impl ParseError {
    /// The diagnostic text, as the program prints it.
    pub fn render(&self) -> (s: String)
        ensures
            s@ == spec_render(self@),
    {
        let mut number: Vec<char> = Vec::new();
        push_decimal(&mut number, self.line as u64);
        let width = number.len();
        proof {
            crate::text::lemma_decimal_len(self.line as nat);
        }
        let mut out: Vec<char> = Vec::new();
        push_str(&mut out, "error: ");
        push_string(&mut out, &self.message);
        out.push('\n');
        push_repeated(&mut out, ' ', width + 1);
        push_str(&mut out, "--> ");
        push_string(&mut out, &self.file);
        out.push(':');
        append_range(&mut out, &number, 0, width);
        out.push(':');
        push_decimal(&mut out, self.col as u64);
        out.push('\n');
        push_repeated(&mut out, ' ', width);
        push_str(&mut out, "|");
        out.push('\n');
        append_range(&mut out, &number, 0, width);
        push_str(&mut out, " | ");
        push_string(&mut out, &self.source_line);
        out.push('\n');
        push_repeated(&mut out, ' ', width);
        push_str(&mut out, "| ");
        let padding = if self.col >= 1 {
            self.col - 1
        } else {
            0
        };
        push_repeated(&mut out, ' ', padding);
        let carets = if self.span >= 1 {
            self.span
        } else {
            1
        };
        push_repeated(&mut out, '^', carets);
        assert(number@.subrange(0, width as int) =~= number@);
        assert(out@ =~= spec_render(self@));
        string_from(&out)
    }
}

/// An error located on a given line: it names the file and the line, quotes
/// the line's text, and its column and underline lie within or just past it.
pub open spec fn located_on(e: ErrorView, file: Seq<char>, line: int, raw: Seq<char>) -> bool {
    &&& e.file == file
    &&& e.line == line
    &&& e.source_line == raw
    &&& 1 <= e.col <= raw.len() + 1
    &&& e.span >= 1
}

proof fn lemma_quantity_rest_located(
    c: Seq<char>,
    i: int,
    first: Fraction,
    start_col: int,
    line: int,
    raw: Seq<char>,
    file: Seq<char>,
)
    requires
        0 < i <= c.len(),
        1 <= start_col,
        start_col + c.len() <= raw.len() + 1,
    ensures
        spec_quantity_rest(c, i, first, start_col, line, raw, file) matches Err(e) ==> located_on(
            e,
            file,
            line,
            raw,
        ),
        spec_quantity_rest(c, i, first, start_col, line, raw, file) matches Ok((q, k)) ==> i <= k
            <= c.len(),
{
    if i < c.len() && c[i] == '/' {
        lemma_span_bound(c.skip(i + 1), CharClass::Digit);
    } else {
        lemma_span_bound(c.skip(i), CharClass::Space);
        let j = i + span(c.skip(i), CharClass::Space);
        if j < c.len() {
            lemma_span_bound(c.skip(j), CharClass::Digit);
            let k = j + span(c.skip(j), CharClass::Digit);
            if k < c.len() {
                lemma_span_bound(c.skip(k + 1), CharClass::Digit);
            }
        }
    }
}

proof fn lemma_ingredient_located(raw: Seq<char>, line: int, file: Seq<char>)
    ensures
        spec_ingredient(raw, line, file) matches Err(e) ==> located_on(e, file, line, raw),
        spec_ingredient(raw, line, file) matches Ok(ing) ==> ing.description.len() > 0,
{
    lemma_trim_len(raw);
    let c = trim(raw);
    let start_col = first_col(raw);
    if c.len() > 0 {
        lemma_span_bound(c, CharClass::DigitOrDot);
        let i = span(c, CharClass::DigitOrDot) as int;
        if i > 0 {
            match spec_parse_number(c.take(i), line, start_col, raw, file) {
                Ok(first) => {
                    lemma_quantity_rest_located(c, i, first, start_col, line, raw, file);
                },
                Err(_) => {},
            }
        }
    }
}

proof fn lemma_step_located(st: ParseState, line: int, raw: Seq<char>, file: Seq<char>)
    ensures
        spec_step(st, line, raw, file) matches Err(e) ==> located_on(e, file, line, raw),
{
    lemma_trim_len(raw);
    let content = trim(raw);
    if content.len() > 0 && content[0] != '#' {
        if st.servings is None {
            if !starts_with(content, "title:"@) && starts_with(content, "servings:"@) {
                let rest = content.skip("servings:"@.len() as int);
                lemma_trim_len(rest);
            }
        } else {
            lemma_ingredient_located(raw, line, file);
        }
    }
}

proof fn lemma_run_lines_located(lines: Seq<Seq<char>>, n: nat, file: Seq<char>)
    requires
        n <= lines.len(),
    ensures
        run_lines(lines, n, file) matches Err(e) ==> 1 <= e.line <= n && located_on(
            e,
            file,
            e.line,
            lines[e.line - 1],
        ),
    decreases n,
{
    if n > 0 {
        lemma_run_lines_located(lines, (n - 1) as nat, file);
        match run_lines(lines, (n - 1) as nat, file) {
            Ok(st) => lemma_step_located(st, n as int, lines[n - 1], file),
            Err(_) => {},
        }
    }
}

/// Every error points at the line that caused it: its line number is that
/// line's (from 1), it quotes that line, and its column lies within it or just
/// past its end; an error about the file as a whole points just past the last
/// line, at column 1, with no text.
pub proof fn law_errors_point_at_their_line(source: Seq<char>, file: Seq<char>)
    ensures
        spec_parse(source, file) matches Err(e) ==> {
            let lines = spec_lines(source);
            ||| 1 <= e.line <= lines.len() && located_on(e, file, e.line, lines[e.line - 1])
            ||| e.line == lines.len() + 1 && located_on(e, file, e.line, Seq::empty())
        },
{
    let lines = spec_lines(source);
    lemma_run_lines_located(lines, lines.len(), file);
}

/// A state whose serving count, if read, is positive and in lowest terms, and
/// whose ingredients have quantities in lowest terms and non-empty descriptions.
pub open spec fn well_read(st: ParseState) -> bool {
    &&& st.servings matches Some(s) ==> s.num > 0 && lowest_terms(s)
    &&& forall|i: int|
        0 <= i < st.ingredients.len() ==> lowest_terms((#[trigger] st.ingredients[i]).quantity)
            && st.ingredients[i].description.len() > 0
}

proof fn lemma_ingredient_well_read(raw: Seq<char>, line: int, file: Seq<char>)
    ensures
        spec_ingredient(raw, line, file) matches Ok(ing) ==> lowest_terms(ing.quantity)
            && ing.description.len() > 0,
{
    lemma_ingredient_located(raw, line, file);
    let c = trim(raw);
    let start_col = first_col(raw);
    if c.len() > 0 {
        let i = span(c, CharClass::DigitOrDot) as int;
        if i > 0 {
            law_parse_number_exact_lowest_terms(c.take(i));
            match spec_parse_number(c.take(i), line, start_col, raw, file) {
                Ok(first) => {
                    if i < c.len() && c[i] == '/' {
                        let ds = i + 1;
                        let j = ds + span(c.skip(ds), CharClass::Digit);
                        match spec_parse_number(c.subrange(ds, j), line, start_col + ds, raw, file) {
                            Ok(d) => if div_defined(first, d) {
                                lemma_spec_new(first.num * d.den, first.den * d.num);
                            },
                            Err(_) => {},
                        }
                    } else {
                        let j = i + span(c.skip(i), CharClass::Space);
                        let k = j + span(c.skip(j), CharClass::Digit);
                        let ds = k + 1;
                        let m = ds + span(c.skip(ds), CharClass::Digit);
                        match spec_parse_number(c.subrange(j, k), line, start_col + j, raw, file) {
                            Ok(n) => match spec_parse_number(c.subrange(ds, m), line, start_col + ds, raw, file) {
                                Ok(d) => if div_defined(n, d) && add_defined(first, spec_div(n, d)) {
                                    let p = spec_div(n, d);
                                    lemma_spec_new(first.num * p.den + p.num * first.den, first.den * p.den);
                                },
                                Err(_) => {},
                            },
                            Err(_) => {},
                        }
                    }
                },
                Err(_) => {},
            }
        }
    }
}

proof fn lemma_step_well_read(st: ParseState, line: int, raw: Seq<char>, file: Seq<char>)
    requires
        well_read(st),
    ensures
        spec_step(st, line, raw, file) matches Ok(next) ==> well_read(next),
{
    let content = trim(raw);
    if content.len() > 0 && content[0] != '#' {
        if st.servings is None {
            if !starts_with(content, "title:"@) && starts_with(content, "servings:"@) {
                let rest = content.skip("servings:"@.len() as int);
                law_parse_number_exact_lowest_terms(trim(rest));
            }
        } else {
            lemma_ingredient_well_read(raw, line, file);
            match spec_ingredient(raw, line, file) {
                Ok(ing) => {
                    let next = st.ingredients.push(ing);
                    assert forall|i: int| 0 <= i < next.len() implies lowest_terms(
                        (#[trigger] next[i]).quantity,
                    ) && next[i].description.len() > 0 by {
                        if i < st.ingredients.len() {
                            assert(next[i] == st.ingredients[i]);
                        }
                    }
                },
                Err(_) => {},
            }
        }
    }
}

proof fn lemma_run_lines_well_read(lines: Seq<Seq<char>>, n: nat, file: Seq<char>)
    requires
        n <= lines.len(),
    ensures
        run_lines(lines, n, file) matches Ok(st) ==> well_read(st),
    decreases n,
{
    if n > 0 {
        lemma_run_lines_well_read(lines, (n - 1) as nat, file);
        match run_lines(lines, (n - 1) as nat, file) {
            Ok(st) => lemma_step_well_read(st, n as int, lines[n - 1], file),
            Err(_) => {},
        }
    }
}

/// A recipe that reads without error has a positive serving count in lowest
/// terms and at least one ingredient; every ingredient has a quantity in
/// lowest terms and a non-empty description.
pub proof fn law_parsed_recipe_shape(source: Seq<char>, file: Seq<char>)
    ensures
        spec_parse(source, file) matches Ok(r) ==> {
            &&& r.servings.num > 0
            &&& lowest_terms(r.servings)
            &&& r.ingredients.len() > 0
            &&& forall|i: int|
                0 <= i < r.ingredients.len() ==> lowest_terms((#[trigger] r.ingredients[i]).quantity)
                    && r.ingredients[i].description.len() > 0
        },
{
    let lines = spec_lines(source);
    lemma_run_lines_well_read(lines, lines.len(), file);
}

proof fn lemma_ingredient_line_number_free(raw: Seq<char>, l1: int, l2: int, file: Seq<char>)
    ensures
        (spec_ingredient(raw, l1, file) is Ok) == (spec_ingredient(raw, l2, file) is Ok),
        spec_ingredient(raw, l1, file) is Ok ==> spec_ingredient(raw, l1, file) == spec_ingredient(
            raw,
            l2,
            file,
        ),
{
}

proof fn lemma_step_line_number_free(st: ParseState, l1: int, l2: int, raw: Seq<char>, file: Seq<char>)
    ensures
        (spec_step(st, l1, raw, file) is Ok) == (spec_step(st, l2, raw, file) is Ok),
        spec_step(st, l1, raw, file) is Ok ==> spec_step(st, l1, raw, file) == spec_step(st, l2, raw, file),
{
    lemma_ingredient_line_number_free(raw, l1, l2, file);
}

/// A blank line, or a comment line starting with '#'.
pub open spec fn is_skipped_line(line: Seq<char>) -> bool {
    trim(line).len() == 0 || trim(line)[0] == '#'
}

proof fn lemma_insert_prefix(lines: Seq<Seq<char>>, k: int, extra: Seq<char>, n: nat, file: Seq<char>)
    requires
        0 <= k <= lines.len(),
        n <= k,
    ensures
        run_lines(lines.insert(k, extra), n, file) == run_lines(lines, n, file),
    decreases n,
{
    if n > 0 {
        lemma_insert_prefix(lines, k, extra, (n - 1) as nat, file);
        assert(lines.insert(k, extra)[n - 1] == lines[n - 1]);
    }
}

proof fn lemma_insert_suffix(lines: Seq<Seq<char>>, k: int, extra: Seq<char>, n: nat, file: Seq<char>)
    requires
        0 <= k <= n <= lines.len(),
        is_skipped_line(extra),
    ensures
        (run_lines(lines.insert(k, extra), n + 1, file) is Ok) == (run_lines(lines, n, file) is Ok),
        run_lines(lines, n, file) is Ok ==> run_lines(lines.insert(k, extra), n + 1, file)
            == run_lines(lines, n, file),
    decreases n,
{
    let l2 = lines.insert(k, extra);
    if n == k {
        lemma_insert_prefix(lines, k, extra, n, file);
        assert(l2[k] == extra);
    } else {
        lemma_insert_suffix(lines, k, extra, (n - 1) as nat, file);
        assert(l2[n as int] == lines[n - 1]);
        match run_lines(lines, (n - 1) as nat, file) {
            Ok(st) => {
                lemma_step_line_number_free(st, n as int, n as int + 1, lines[n - 1], file);
            },
            Err(_) => {},
        }
    }
}

/// Blank lines and '#' comment lines are ignored: inserting one anywhere among
/// a recipe's lines leaves a recipe that reads without error exactly as it
/// was, and one that is rejected still rejected.
pub proof fn law_skipped_lines_ignored(lines: Seq<Seq<char>>, k: int, extra: Seq<char>, file: Seq<char>)
    requires
        0 <= k <= lines.len(),
        is_skipped_line(extra),
    ensures
        (recipe_of_lines(lines.insert(k, extra), file) is Ok) == (recipe_of_lines(lines, file) is Ok),
        recipe_of_lines(lines, file) is Ok ==> recipe_of_lines(lines.insert(k, extra), file)
            == recipe_of_lines(lines, file),
{
    lemma_insert_suffix(lines, k, extra, lines.len(), file);
    assert(lines.insert(k, extra).len() == lines.len() + 1);
}

/// Two errors that differ only in where they point: same file, line, message
/// and span, with the second column `shift` further right.
pub open spec fn same_error_shifted(e1: ErrorView, e2: ErrorView, shift: int) -> bool {
    &&& e1.file == e2.file
    &&& e1.line == e2.line
    &&& e1.message == e2.message
    &&& e1.span == e2.span
    &&& e2.col == e1.col + shift
}

proof fn lemma_quantity_rest_shift(
    c: Seq<char>,
    i: int,
    first: Fraction,
    col1: int,
    col2: int,
    line: int,
    raw1: Seq<char>,
    raw2: Seq<char>,
    file: Seq<char>,
)
    ensures
        ({
            let q1 = spec_quantity_rest(c, i, first, col1, line, raw1, file);
            let q2 = spec_quantity_rest(c, i, first, col2, line, raw2, file);
            &&& (q1 is Ok) == (q2 is Ok)
            &&& q1 is Ok ==> q1 == q2
            &&& (q1 matches Err(e1) ==> q2 matches Err(e2) && same_error_shifted(e1, e2, col2 - col1))
        }),
{
}

proof fn lemma_ingredient_shift(r1: Seq<char>, r2: Seq<char>, line: int, file: Seq<char>)
    requires
        trim(r1) == trim(r2),
    ensures
        ({
            let g1 = spec_ingredient(r1, line, file);
            let g2 = spec_ingredient(r2, line, file);
            &&& (g1 is Ok) == (g2 is Ok)
            &&& g1 is Ok ==> g1 == g2
            &&& (g1 matches Err(e1) ==> g2 matches Err(e2) && same_error_shifted(
                e1,
                e2,
                first_col(r2) - first_col(r1),
            ))
        }),
{
    let c = trim(r1);
    if c.len() > 0 {
        let i = span(c, CharClass::DigitOrDot) as int;
        if i > 0 {
            if let Ok(first) = spec_parse_number(c.take(i), line, first_col(r1), r1, file) {
                lemma_quantity_rest_shift(c, i, first, first_col(r1), first_col(r2), line, r1, r2, file);
            }
        }
    }
}

proof fn lemma_span_after_spaces(k: nat, s: Seq<char>)
    ensures
        span(repeated(' ', k) + s, CharClass::WhiteSpace) == k + span(s, CharClass::WhiteSpace),
    decreases k,
{
    if k > 0 {
        assert((repeated(' ', k) + s).drop_first() =~= repeated(' ', (k - 1) as nat) + s);
        assert((repeated(' ', k) + s)[0] == ' ');
        lemma_span_after_spaces((k - 1) as nat, s);
    } else {
        assert(repeated(' ', 0) + s =~= s);
    }
}

/// Indenting an ingredient line by spaces changes only where its errors point:
/// the indented line reads to the same ingredient, or fails with the same
/// message and span, its column moved right by the indent. (`spec_ingredient`
/// is what `parse_ingredient_line` returns.)
pub proof fn law_indent_shifts_only_columns(s: Seq<char>, k: nat, line: int, file: Seq<char>)
    requires
        s.len() == 0 || !is_white_space(s[0]),
    ensures
        ({
            let g1 = spec_ingredient(s, line, file);
            let g2 = spec_ingredient(repeated(' ', k) + s, line, file);
            &&& (g1 is Ok) == (g2 is Ok)
            &&& g1 is Ok ==> g1 == g2
            &&& (g1 matches Err(e1) ==> g2 matches Err(e2) && same_error_shifted(e1, e2, k as int))
        }),
{
    let s2 = repeated(' ', k) + s;
    lemma_span_after_spaces(k, s);
    assert(span(s, CharClass::WhiteSpace) == 0);
    assert(s2.skip(k as int) =~= s);
    assert(s.skip(0) =~= s);
    assert(trim(s2) == trim(s));
    lemma_ingredient_shift(s, s2, line, file);
}

/// The ingredients read from lines `from + 1 ..= to` (numbered from 1): blank
/// and comment lines skipped, every other line read by the ingredient parser,
/// stopping at the first line that fails.
pub open spec fn read_ingredients(lines: Seq<Seq<char>>, from: nat, to: nat, file: Seq<char>) -> Result<
    Seq<IngredientView>,
    ErrorView,
>
    decreases to,
{
    if to <= from {
        Ok(seq![])
    } else {
        match read_ingredients(lines, from, (to - 1) as nat, file) {
            Err(e) => Err(e),
            Ok(gs) => if is_skipped_line(lines[to - 1]) {
                Ok(gs)
            } else {
                match spec_ingredient(lines[to - 1], to as int, file) {
                    Err(e) => Err(e),
                    Ok(g) => Ok(gs.push(g)),
                }
            },
        }
    }
}

proof fn lemma_no_ingredients_before_servings(lines: Seq<Seq<char>>, n: nat, file: Seq<char>)
    requires
        n <= lines.len(),
    ensures
        run_lines(lines, n, file) matches Ok(st) ==> (st.servings is None ==> st.ingredients.len()
            == 0),
    decreases n,
{
    if n > 0 {
        lemma_no_ingredients_before_servings(lines, (n - 1) as nat, file);
    }
}

proof fn lemma_run_after_servings(
    lines: Seq<Seq<char>>,
    p: nat,
    n: nat,
    st: ParseState,
    file: Seq<char>,
)
    requires
        p <= n <= lines.len(),
        run_lines(lines, p, file) == Ok::<ParseState, ErrorView>(st),
        st.servings is Some,
    ensures
        run_lines(lines, n, file) == match read_ingredients(lines, p, n, file) {
            Err(e) => Err(e),
            Ok(gs) => Ok(
                ParseState {
                    title: st.title,
                    servings: st.servings,
                    ingredients: st.ingredients + gs,
                },
            ),
        },
    decreases n,
{
    if n == p {
        assert(st.ingredients + Seq::<IngredientView>::empty() =~= st.ingredients);
    } else {
        lemma_run_after_servings(lines, p, (n - 1) as nat, st, file);
        match read_ingredients(lines, p, (n - 1) as nat, file) {
            Ok(gs) => {
                if !is_skipped_line(lines[n - 1]) {
                    if let Ok(g) = spec_ingredient(lines[n - 1], n as int, file) {
                        assert(st.ingredients + gs.push(g) =~= (st.ingredients + gs).push(g));
                    }
                }
            },
            Err(_) => {},
        }
    }
}

/// Once the serving count is read, the recipe is the ingredient parser folded
/// over the remaining lines: if line `p` is the "servings:" line, the result is
/// the title and serving count read so far with the ingredients of lines after
/// `p` in order, or the error of the first ingredient line that fails (or the
/// missing-ingredients error when there is none).
pub proof fn law_parse_folds_ingredient_lines(source: Seq<char>, file: Seq<char>, p: nat)
    requires
        1 <= p <= spec_lines(source).len(),
        run_lines(spec_lines(source), (p - 1) as nat, file) matches Ok(before) && before.servings is None,
        run_lines(spec_lines(source), p, file) matches Ok(st) && st.servings is Some,
    ensures
        ({
            let lines = spec_lines(source);
            let st = run_lines(lines, p, file)->Ok_0;
            spec_parse(source, file) == match read_ingredients(lines, p, lines.len(), file) {
                Err(e) => Err(e),
                Ok(gs) => if gs.len() == 0 {
                    Err(
                        error_at(
                            file,
                            lines.len() as int + 1,
                            1,
                            "recipe has no ingredient lines"@,
                            seq![],
                            1,
                        ),
                    )
                } else {
                    Ok(RecipeView { title: st.title, servings: st.servings->0, ingredients: gs })
                },
            }
        }),
{
    let lines = spec_lines(source);
    let st = run_lines(lines, p, file)->Ok_0;
    lemma_no_ingredients_before_servings(lines, (p - 1) as nat, file);
    assert(st.ingredients.len() == 0);
    lemma_run_after_servings(lines, p, lines.len(), st, file);
    if let Ok(gs) = read_ingredients(lines, p, lines.len(), file) {
        assert(st.ingredients + gs =~= gs);
    }
}

proof fn lemma_span_prefix(a: Seq<char>, t: Seq<char>, class: CharClass)
    requires
        span(a, class) < a.len(),
    ensures
        span(a + t, class) == span(a, class),
    decreases a.len(),
{
    assert((a + t)[0] == a[0]);
    if in_class(a[0], class) {
        assert((a + t).drop_first() =~= a.drop_first() + t);
        lemma_span_prefix(a.drop_first(), t, class);
    }
}

/// Text that is empty or ends at a line break.
pub open spec fn ends_line(a: Seq<char>) -> bool {
    a.len() == 0 || a.last() == '\n'
}

proof fn lemma_lines_concat(a: Seq<char>, t: Seq<char>)
    requires
        ends_line(a),
    ensures
        spec_lines(a + t) == spec_lines(a) + spec_lines(t),
    decreases a.len(),
{
    if a.len() == 0 {
        assert(a + t =~= t);
        assert(spec_lines(a) =~= Seq::<Seq<char>>::empty());
        assert(spec_lines(a) + spec_lines(t) =~= spec_lines(t));
    } else {
        lemma_span_bound(a, CharClass::NotNewline);
        let e = span(a, CharClass::NotNewline);
        assert(e < a.len()) by {
            if e == a.len() {
                assert(in_class(a[a.len() - 1], CharClass::NotNewline));
            }
        }
        lemma_span_prefix(a, t, CharClass::NotNewline);
        assert((a + t).take(e as int) =~= a.take(e as int));
        assert((a + t).skip(e as int + 1) =~= a.skip(e as int + 1) + t);
        let rest = a.skip(e as int + 1);
        assert(ends_line(rest)) by {
            if rest.len() > 0 {
                assert(rest.last() == a.last());
            }
        }
        lemma_lines_concat(rest, t);
        assert(spec_lines(a + t) =~= spec_lines(a) + spec_lines(t));
    }
}

#[verifier::spinoff_prover]
#[verifier::rlimit(40)]
proof fn lemma_insert_many(x: Seq<Seq<char>>, m: Seq<Seq<char>>, y: Seq<Seq<char>>, file: Seq<char>)
    requires
        forall|i: int| 0 <= i < m.len() ==> is_skipped_line(#[trigger] m[i]),
    ensures
        (recipe_of_lines(x + m + y, file) is Ok) == (recipe_of_lines(x + y, file) is Ok),
        recipe_of_lines(x + y, file) is Ok ==> recipe_of_lines(x + m + y, file) == recipe_of_lines(
            x + y,
            file,
        ),
    decreases m.len(),
{
    if m.len() == 0 {
        assert(x + m + y =~= x + y);
    } else {
        let m0 = m.drop_last();
        lemma_insert_many(x, m0, y, file);
        assert(is_skipped_line(m[m.len() - 1]));
        let k = (x.len() + m0.len()) as int;
        assert((x + m0 + y).insert(k, m.last()) =~= x + m + y);
        law_skipped_lines_ignored(x + m0 + y, k, m.last(), file);
    }
}

/// Blank and '#' comment lines are ignored in the text of a recipe: inserting
/// a block of such lines at the start of any line leaves a recipe that reads
/// without error exactly as it was, and one that is rejected still rejected.
pub proof fn law_skipped_lines_ignored_in_text(
    a: Seq<char>,
    block: Seq<char>,
    b: Seq<char>,
    file: Seq<char>,
)
    requires
        ends_line(a),
        ends_line(block),
        forall|i: int|
            0 <= i < spec_lines(block).len() ==> is_skipped_line(#[trigger] spec_lines(block)[i]),
    ensures
        (spec_parse(a + block + b, file) is Ok) == (spec_parse(a + b, file) is Ok),
        spec_parse(a + b, file) is Ok ==> spec_parse(a + block + b, file) == spec_parse(a + b, file),
{
    lemma_lines_concat(a, b);
    lemma_lines_concat(block, b);
    lemma_lines_concat(a, block + b);
    assert(a + block + b =~= a + (block + b));
    assert(spec_lines(a) + (spec_lines(block) + spec_lines(b)) =~= spec_lines(a) + spec_lines(block)
        + spec_lines(b));
    lemma_insert_many(spec_lines(a), spec_lines(block), spec_lines(b), file);
}

/// The lines of a recipe that are neither blank nor '#' comments, in order.
pub open spec fn kept_lines(lines: Seq<Seq<char>>) -> Seq<Seq<char>>
    decreases lines.len(),
{
    if lines.len() == 0 {
        seq![]
    } else if is_skipped_line(lines.last()) {
        kept_lines(lines.drop_last())
    } else {
        kept_lines(lines.drop_last()).push(lines.last())
    }
}

proof fn lemma_kept_remove(lines: Seq<Seq<char>>, k: int)
    requires
        0 <= k < lines.len(),
        is_skipped_line(lines[k]),
    ensures
        kept_lines(lines.remove(k)) == kept_lines(lines),
    decreases lines.len(),
{
    if k == lines.len() - 1 {
        assert(lines.remove(k) =~= lines.drop_last());
    } else {
        lemma_kept_remove(lines.drop_last(), k);
        assert(lines.remove(k).drop_last() =~= lines.drop_last().remove(k));
        assert(lines.remove(k).last() == lines.last());
    }
}

proof fn lemma_kept_all(lines: Seq<Seq<char>>)
    requires
        forall|k: int| 0 <= k < lines.len() ==> !is_skipped_line(#[trigger] lines[k]),
    ensures
        kept_lines(lines) == lines,
    decreases lines.len(),
{
    if lines.len() > 0 {
        assert(!is_skipped_line(lines[lines.len() - 1]));
        assert forall|k: int| 0 <= k < lines.drop_last().len() implies !is_skipped_line(
            #[trigger] lines.drop_last()[k],
        ) by {
            assert(lines.drop_last()[k] == lines[k]);
        }
        lemma_kept_all(lines.drop_last());
        assert(lines.drop_last().push(lines.last()) =~= lines);
    }
}

#[verifier::spinoff_prover]
proof fn lemma_read_as_kept(lines: Seq<Seq<char>>, file: Seq<char>)
    ensures
        (recipe_of_lines(lines, file) is Ok) == (recipe_of_lines(kept_lines(lines), file) is Ok),
        recipe_of_lines(lines, file) is Ok ==> recipe_of_lines(lines, file) == recipe_of_lines(
            kept_lines(lines),
            file,
        ),
    decreases lines.len(),
{
    if exists|k: int| 0 <= k < lines.len() && is_skipped_line(#[trigger] lines[k]) {
        let k = choose|k: int| 0 <= k < lines.len() && is_skipped_line(#[trigger] lines[k]);
        let rest = lines.remove(k);
        lemma_read_as_kept(rest, file);
        lemma_kept_remove(lines, k);
        assert(rest.insert(k, lines[k]) =~= lines);
        law_skipped_lines_ignored(rest, k, lines[k], file);
    } else {
        lemma_kept_all(lines);
    }
}

/// Blank and '#' comment lines are ignored wherever they stand: two recipe
/// texts whose other lines are the same, in the same order, either both read
/// without error to the same recipe, or are both rejected.
pub proof fn law_only_kept_lines_matter(s1: Seq<char>, s2: Seq<char>, file: Seq<char>)
    requires
        kept_lines(spec_lines(s1)) == kept_lines(spec_lines(s2)),
    ensures
        (spec_parse(s1, file) is Ok) == (spec_parse(s2, file) is Ok),
        spec_parse(s1, file) is Ok ==> spec_parse(s1, file) == spec_parse(s2, file),
{
    lemma_read_as_kept(spec_lines(s1), file);
    lemma_read_as_kept(spec_lines(s2), file);
}

/// A title line read before the serving count sets the title to the text
/// after "title:", trimmed, and changes nothing else.
pub proof fn law_title_line_sets_title(
    st: ParseState,
    line: int,
    raw: Seq<char>,
    t: Seq<char>,
    file: Seq<char>,
)
    requires
        st.servings is None,
        trim(raw) == "title:"@ + t,
    ensures
        spec_step(st, line, raw, file) == Ok::<ParseState, ErrorView>(
            ParseState { title: Some(trim(t)), servings: None, ingredients: st.ingredients },
        ),
{
    reveal_strlit("title:");
    let content = trim(raw);
    assert(content[0] == 't');
    assert(content.take(6) =~= "title:"@);
    assert(content.skip(6) =~= t);
}

/// `line`, once trimmed, reads "title:" followed by text whose trimmed form is `x`.
pub open spec fn title_line_gives(line: Seq<char>, x: Seq<char>) -> bool {
    exists|t: Seq<char>| #![trigger trim(t)] trim(line) == "title:"@ + t && x == trim(t)
}

proof fn lemma_run_lines_title(lines: Seq<Seq<char>>, n: nat, file: Seq<char>)
    requires
        n <= lines.len(),
    ensures
        run_lines(lines, n, file) matches Ok(st) ==> (st.title matches Some(x) ==> exists|i: int|
            0 <= i < n && title_line_gives(#[trigger] lines[i], x)),
    decreases n,
{
    if n > 0 {
        lemma_run_lines_title(lines, (n - 1) as nat, file);
        if let Ok(prev) = run_lines(lines, (n - 1) as nat, file) {
            let raw = lines[n - 1];
            let content = trim(raw);
            if !(content.len() == 0 || content[0] == '#') && prev.servings is None && starts_with(
                content,
                "title:"@,
            ) {
                reveal_strlit("title:");
                let t = content.skip(6);
                assert(content =~= "title:"@ + t);
                assert(title_line_gives(lines[n - 1], trim(t)));
            }
        }
    }
}

/// The title of a parsed recipe is always the trimmed text after "title:" on
/// one of the source's lines, not a part of it or anything else.
pub proof fn law_parsed_title_comes_from_a_title_line(source: Seq<char>, file: Seq<char>)
    ensures
        spec_parse(source, file) matches Ok(r) ==> (r.title matches Some(x) ==> exists|i: int|
            0 <= i < spec_lines(source).len() && title_line_gives(#[trigger] spec_lines(source)[i], x)),
{
    lemma_run_lines_title(spec_lines(source), spec_lines(source).len(), file);
}

proof fn lemma_digits_in_classes(w: Seq<char>)
    requires
        all_digits(w),
    ensures
        forall|i: int| 0 <= i < w.len() ==> in_class(#[trigger] w[i], CharClass::Digit),
        forall|i: int| 0 <= i < w.len() ==> in_class(#[trigger] w[i], CharClass::DigitOrDot),
{
    assert forall|i: int| 0 <= i < w.len() implies in_class(#[trigger] w[i], CharClass::Digit)
        && in_class(w[i], CharClass::DigitOrDot) by {
        assert(is_digit(w[i]));
    }
}

proof fn lemma_mixed_shape(c: Seq<char>, w: Seq<char>, k: nat, n: Seq<char>, d: Seq<char>, tail: Seq<char>)
    requires
        w.len() > 0 && all_digits(w),
        n.len() > 0 && all_digits(n),
        d.len() > 0 && all_digits(d),
        k >= 1,
        tail.len() == 0 || !is_digit(tail[0]),
        c == w + repeated(' ', k) + n + seq!['/'] + d + tail,
    ensures
        ({
            let i = w.len() as int;
            let j = i + k;
            let kk = j + n.len();
            let ds = kk + 1;
            let m = ds + d.len();
            &&& span(c, CharClass::DigitOrDot) == i
            &&& c.take(i) == w
            &&& c[i] == ' '
            &&& i + span(c.skip(i), CharClass::Space) == j
            &&& j < c.len() && is_digit(c[j])
            &&& j + span(c.skip(j), CharClass::Digit) == kk
            &&& kk < c.len() && c[kk] == '/'
            &&& ds + span(c.skip(ds), CharClass::Digit) == m
            &&& c.subrange(j, kk) == n
            &&& c.subrange(ds, m) == d
        }),
{
    let sp = repeated(' ', k);
    let i = w.len() as int;
    let j = i + k;
    let kk = j + n.len();
    let ds = kk + 1;
    let m = ds + d.len();
    lemma_digits_in_classes(w);
    lemma_digits_in_classes(n);
    lemma_digits_in_classes(d);
    let after_w = sp + n + seq!['/'] + d + tail;
    assert(c =~= w + after_w);
    assert(after_w[0] == ' ');
    lemma_span_of_run(w, after_w, CharClass::DigitOrDot);
    assert(c.take(i) =~= w);
    let after_sp = n + seq!['/'] + d + tail;
    assert(c.skip(i) =~= sp + after_sp);
    assert(is_digit(n[0]));
    lemma_span_of_run(sp, after_sp, CharClass::Space);
    assert(c[j] == n[0]);
    let after_n = seq!['/'] + d + tail;
    assert(c.skip(j) =~= n + after_n);
    lemma_span_of_run(n, after_n, CharClass::Digit);
    assert(c[kk] == '/');
    assert(c.skip(ds) =~= d + tail);
    lemma_span_of_run(d, tail, CharClass::Digit);
    assert(c.subrange(j, kk) =~= n);
    assert(c.subrange(ds, m) =~= d);
}

proof fn lemma_mixed_value(first: Fraction, nf: Fraction, df: Fraction)
    requires
        first.den == 1,
        nf.den == 1,
        df.den == 1,
        df.num > 0,
        div_defined(nf, df),
        add_defined(first, spec_div(nf, df)),
    ensures
        same_ratio(
            spec_add(first, spec_div(nf, df)).num as int,
            spec_add(first, spec_div(nf, df)).den as int,
            first.num * df.num + nf.num,
            df.num as int,
        ),
{
    let p = spec_div(nf, df);
    lemma_spec_new(nf.num * df.den, nf.den * df.num);
    let q = spec_add(first, p);
    lemma_spec_new(first.num * p.den + p.num * first.den, first.den * p.den);
    let (ww, nn, dd) = (first.num as int, nf.num as int, df.num as int);
    let (pn, pd, qn, qd) = (p.num as int, p.den as int, q.num as int, q.den as int);
    assert(pn * dd == nn * pd);
    assert(qn * pd == (ww * pd + pn) * qd);
    let a = qn * pd;
    let b = ww * pd + pn;
    assert((qn * dd) * pd == a * dd) by (nonlinear_arith)
        requires
            a == qn * pd,
    ;
    assert(a * dd == (b * qd) * dd);
    assert((b * qd) * dd == ww * pd * qd * dd + (pn * dd) * qd) by (nonlinear_arith)
        requires
            b == ww * pd + pn,
    ;
    assert((pn * dd) * qd == (nn * pd) * qd);
    assert(ww * pd * qd * dd + (nn * pd) * qd == ((ww * dd + nn) * qd) * pd) by (nonlinear_arith);
    assert(qn * dd * pd == (ww * dd + nn) * qd * pd);
    assert(qn * dd == (ww * dd + nn) * qd) by (nonlinear_arith)
        requires
            qn * dd * pd == (ww * dd + nn) * qd * pd,
            pd > 0,
    ;
}

/// A mixed number "w n/d" at the start of an ingredient line (the whole part,
/// one or more spaces, then a fraction) reads as the value w + n/d: whatever
/// quantity the line gives has the ratio (w*d + n) / d.
#[verifier::spinoff_prover]
#[verifier::rlimit(50)]
pub proof fn law_mixed_number_value(
    raw: Seq<char>,
    w: Seq<char>,
    k: nat,
    n: Seq<char>,
    d: Seq<char>,
    tail: Seq<char>,
    line: int,
    file: Seq<char>,
)
    requires
        w.len() > 0 && all_digits(w) && digits_value(w) <= i64::MAX,
        n.len() > 0 && all_digits(n) && digits_value(n) <= i64::MAX,
        d.len() > 0 && all_digits(d) && digits_value(d) <= i64::MAX,
        digits_value(d) > 0,
        k >= 1,
        tail.len() == 0 || !is_digit(tail[0]),
        trim(raw) == w + repeated(' ', k) + n + seq!['/'] + d + tail,
    ensures
        spec_ingredient(raw, line, file) matches Ok(g) ==> same_ratio(
            g.quantity.num as int,
            g.quantity.den as int,
            (digits_value(w) * digits_value(d) + digits_value(n)) as int,
            digits_value(d) as int,
        ),
{
    let c = trim(raw);
    let i = w.len() as int;
    let m = i + k + n.len() + 1 + d.len();
    let start_col = first_col(raw);
    lemma_mixed_shape(c, w, k, n, d, tail);
    law_parse_number_exact_whole(w);
    law_parse_number_exact_whole(n);
    law_parse_number_exact_whole(d);
    let first = Fraction { num: digits_value(w) as i64, den: 1 };
    let nf = Fraction { num: digits_value(n) as i64, den: 1 };
    let df = Fraction { num: digits_value(d) as i64, den: 1 };
    if div_defined(nf, df) && add_defined(first, spec_div(nf, df)) {
        assert(spec_quantity_rest(c, i, first, start_col, line, raw, file) == Ok::<
            (Fraction, int),
            ErrorView,
        >((spec_add(first, spec_div(nf, df)), m)));
        lemma_mixed_value(first, nf, df);
    } else {
        assert(spec_quantity_rest(c, i, first, start_col, line, raw, file) is Err);
    }
}

/// A simple fraction "n/d" at the start of an ingredient line reads as the
/// value n/d: whatever quantity the line gives has the ratio n / d.
#[verifier::spinoff_prover]
#[verifier::rlimit(50)]
pub proof fn law_simple_fraction_value(
    raw: Seq<char>,
    n: Seq<char>,
    d: Seq<char>,
    tail: Seq<char>,
    line: int,
    file: Seq<char>,
)
    requires
        n.len() > 0 && all_digits(n) && digits_value(n) <= i64::MAX,
        d.len() > 0 && all_digits(d) && digits_value(d) <= i64::MAX,
        digits_value(d) > 0,
        tail.len() == 0 || !is_digit(tail[0]),
        trim(raw) == n + seq!['/'] + d + tail,
    ensures
        spec_ingredient(raw, line, file) matches Ok(g) ==> same_ratio(
            g.quantity.num as int,
            g.quantity.den as int,
            digits_value(n) as int,
            digits_value(d) as int,
        ),
{
    let c = trim(raw);
    let i = n.len() as int;
    let ds = i + 1;
    let m = ds + d.len();
    let start_col = first_col(raw);
    lemma_digits_in_classes(n);
    lemma_digits_in_classes(d);
    let after_n = seq!['/'] + d + tail;
    assert(c =~= n + after_n);
    lemma_span_of_run(n, after_n, CharClass::DigitOrDot);
    assert(c.take(i) =~= n);
    assert(c[i] == '/');
    assert(c.skip(ds) =~= d + tail);
    lemma_span_of_run(d, tail, CharClass::Digit);
    assert(c.subrange(ds, m) =~= d);
    law_parse_number_exact_whole(n);
    law_parse_number_exact_whole(d);
    let nf = Fraction { num: digits_value(n) as i64, den: 1 };
    let df = Fraction { num: digits_value(d) as i64, den: 1 };
    if div_defined(nf, df) {
        assert(spec_quantity_rest(c, i, nf, start_col, line, raw, file) == Ok::<
            (Fraction, int),
            ErrorView,
        >((spec_div(nf, df), m)));
        lemma_spec_new(nf.num * df.den, nf.den * df.num);
    } else {
        assert(spec_quantity_rest(c, i, nf, start_col, line, raw, file) is Err);
    }
}

/// A whole number at the start of an ingredient line, followed by a
/// description that does not start with a digit (so no fraction follows),
/// reads as exactly that number.
#[verifier::spinoff_prover]
#[verifier::rlimit(50)]
pub proof fn law_whole_number_quantity(
    raw: Seq<char>,
    w: Seq<char>,
    k: nat,
    desc: Seq<char>,
    line: int,
    file: Seq<char>,
)
    requires
        w.len() > 0 && all_digits(w) && digits_value(w) <= i64::MAX,
        desc.len() > 0,
        !is_digit(desc[0]) && desc[0] != ' ' && desc[0] != '.' && desc[0] != '/',
        trim(raw) == w + repeated(' ', k) + desc,
    ensures
        spec_ingredient(raw, line, file) matches Ok(g) ==> g.quantity == (Fraction {
            num: digits_value(w) as i64,
            den: 1,
        }),
{
    let c = trim(raw);
    let sp = repeated(' ', k);
    let i = w.len() as int;
    let start_col = first_col(raw);
    lemma_digits_in_classes(w);
    let after_w = sp + desc;
    assert(c =~= w + after_w);
    assert(after_w[0] == if k > 0 { ' ' } else { desc[0] });
    lemma_span_of_run(w, after_w, CharClass::DigitOrDot);
    assert(c.take(i) =~= w);
    assert(c.skip(i) =~= sp + desc);
    lemma_span_of_run(sp, desc, CharClass::Space);
    assert(c[i + k] == desc[0]);
    law_parse_number_exact_whole(w);
    let first = Fraction { num: digits_value(w) as i64, den: 1 };
    assert(spec_quantity_rest(c, i, first, start_col, line, raw, file) == Ok::<
        (Fraction, int),
        ErrorView,
    >((first, i)));
}

/// An ingredient line that starts with a mixed number "w n/d" of moderate
/// size (each part below 2^31, d nonzero) and goes on to a description is
/// accepted; by `law_mixed_number_value` its quantity is then w + n/d.
#[verifier::spinoff_prover]
#[verifier::rlimit(60)]
pub proof fn law_mixed_number_accepted(
    raw: Seq<char>,
    w: Seq<char>,
    k: nat,
    n: Seq<char>,
    d: Seq<char>,
    tail: Seq<char>,
    line: int,
    file: Seq<char>,
)
    requires
        w.len() > 0 && all_digits(w) && digits_value(w) < 0x8000_0000,
        n.len() > 0 && all_digits(n) && digits_value(n) < 0x8000_0000,
        d.len() > 0 && all_digits(d) && digits_value(d) < 0x8000_0000,
        digits_value(d) > 0,
        k >= 1,
        tail.len() > 0 && !is_digit(tail[0]) && !is_white_space(tail.last()),
        trim(raw) == w + repeated(' ', k) + n + seq!['/'] + d + tail,
    ensures
        spec_ingredient(raw, line, file) is Ok,
{
    let c = trim(raw);
    let i = w.len() as int;
    let m = i + k + n.len() + 1 + d.len();
    let start_col = first_col(raw);
    lemma_mixed_shape(c, w, k, n, d, tail);
    law_parse_number_exact_whole(w);
    law_parse_number_exact_whole(n);
    law_parse_number_exact_whole(d);
    let first = Fraction { num: digits_value(w) as i64, den: 1 };
    let nf = Fraction { num: digits_value(n) as i64, den: 1 };
    let df = Fraction { num: digits_value(d) as i64, den: 1 };
    assert(nf.num == digits_value(n) && df.num == digits_value(d));
    assert(nf.num * df.den == nf.num && nf.den * df.num == df.num);
    assert(div_defined(nf, df));
    let p = spec_div(nf, df);
    lemma_spec_new(nf.num * df.den, nf.den * df.num);
    assert(first.num * p.den <= 0x8000_0000 * 0x8000_0000) by (nonlinear_arith)
        requires
            0 <= first.num < 0x8000_0000,
            0 < p.den <= 0x8000_0000,
    ;
    assert(first.num * p.den >= 0) by (nonlinear_arith)
        requires
            0 <= first.num,
            0 < p.den,
    ;
    assert(0 < p.den <= df.num);
    assert(-0x8000_0000 < p.num < 0x8000_0000);
    assert(p.num * first.den == p.num && first.den * p.den == p.den);
    assert(add_defined(first, p));
    assert(spec_quantity_rest(c, i, first, start_col, line, raw, file) == Ok::<
        (Fraction, int),
        ErrorView,
    >((spec_add(first, p), m)));
    assert(c.skip(m) =~= tail);
    lemma_trim_nonempty(tail, tail.len() - 1);
}

} // verus!
