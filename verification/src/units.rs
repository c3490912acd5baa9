use vstd::prelude::*;
use crate::fraction::{Fraction, lowest_terms, lemma_lowest_terms_same_ratio, fits_i64, mul_defined, div_defined, spec_mul, spec_div, spec_whole, same_ratio, lemma_spec_new, law_new_of_lowest_terms};
use crate::text::chars_of;

verus! {

/// Which kind of measure a unit belongs to; units convert only within a family.
#[derive(Debug, Clone, Copy, PartialEq, Eq, Structural)]
pub enum Family {
    Volume,
    Mass,
}

/// The kitchen units that are recognised and converted between.
#[derive(Debug, Clone, Copy, PartialEq, Eq, Structural)]
pub enum UnitKind {
    Teaspoon,
    Tablespoon,
    Cup,
    Gram,
    Kilogram,
}

/// A kitchen unit: its family, its size in the family's base unit (teaspoons
/// or grams), and the names it prints with.
#[derive(Debug, Clone, Copy, PartialEq, Eq)]
pub struct Unit {
    pub family: Family,
    pub base_per_unit: i64,
    pub singular: &'static str,
    pub plural: &'static str,
}

/// The words (lower case) that name a unit.
pub open spec fn aliases(kind: UnitKind) -> Seq<Seq<char>> {
    match kind {
        UnitKind::Teaspoon => seq!["tsp"@, "tsps"@, "teaspoon"@, "teaspoons"@],
        UnitKind::Tablespoon => seq!["tbsp"@, "tbsps"@, "tablespoon"@, "tablespoons"@],
        UnitKind::Cup => seq!["cup"@, "cups"@],
        UnitKind::Gram => seq!["g"@, "gram"@, "grams"@],
        UnitKind::Kilogram => seq!["kg"@, "kilogram"@, "kilograms"@],
    }
}

/// Each unit's family, size in base units, and names.
pub open spec fn spec_unit(kind: UnitKind) -> Unit {
    match kind {
        UnitKind::Teaspoon => Unit {
            family: Family::Volume,
            base_per_unit: 1,
            singular: "tsp",
            plural: "tsp",
        },
        UnitKind::Tablespoon => Unit {
            family: Family::Volume,
            base_per_unit: 3,
            singular: "tbsp",
            plural: "tbsp",
        },
        UnitKind::Cup => Unit {
            family: Family::Volume,
            base_per_unit: 48,
            singular: "cup",
            plural: "cups",
        },
        UnitKind::Gram => Unit { family: Family::Mass, base_per_unit: 1, singular: "g", plural: "g" },
        UnitKind::Kilogram => Unit {
            family: Family::Mass,
            base_per_unit: 1000,
            singular: "kg",
            plural: "kg",
        },
    }
}

fn unit_of(kind: UnitKind) -> (u: Unit)
    ensures
        u == spec_unit(kind),
{
    match kind {
        UnitKind::Teaspoon => Unit {
            family: Family::Volume,
            base_per_unit: 1,
            singular: "tsp",
            plural: "tsp",
        },
        UnitKind::Tablespoon => Unit {
            family: Family::Volume,
            base_per_unit: 3,
            singular: "tbsp",
            plural: "tbsp",
        },
        UnitKind::Cup => Unit {
            family: Family::Volume,
            base_per_unit: 48,
            singular: "cup",
            plural: "cups",
        },
        UnitKind::Gram => Unit {
            family: Family::Mass,
            base_per_unit: 1,
            singular: "g",
            plural: "g",
        },
        UnitKind::Kilogram => Unit {
            family: Family::Mass,
            base_per_unit: 1000,
            singular: "kg",
            plural: "kg",
        },
    }
}

pub open spec fn lower_char(c: char) -> char {
    if 'A' <= c <= 'Z' {
        (c as int + 32) as char
    } else {
        c
    }
}

/// `s` with ASCII capitals made lower case, as `str::to_ascii_lowercase` does.
pub open spec fn ascii_lower(s: Seq<char>) -> Seq<char> {
    Seq::new(s.len(), |i: int| lower_char(s[i]))
}

/// The unit that `word` names, ignoring ASCII case.
pub open spec fn spec_recognize(word: Seq<char>) -> Option<UnitKind> {
    let w = ascii_lower(word);
    if aliases(UnitKind::Teaspoon).contains(w) {
        Some(UnitKind::Teaspoon)
    } else if aliases(UnitKind::Tablespoon).contains(w) {
        Some(UnitKind::Tablespoon)
    } else if aliases(UnitKind::Cup).contains(w) {
        Some(UnitKind::Cup)
    } else if aliases(UnitKind::Gram).contains(w) {
        Some(UnitKind::Gram)
    } else if aliases(UnitKind::Kilogram).contains(w) {
        Some(UnitKind::Kilogram)
    } else {
        None
    }
}

pub open spec fn upper_char(c: char) -> char {
    if 'a' <= c <= 'z' {
        (c as int - 32) as char
    } else {
        c
    }
}

/// `s` with ASCII small letters made capitals, as `str::to_ascii_uppercase` does.
pub open spec fn ascii_upper(s: Seq<char>) -> Seq<char> {
    Seq::new(s.len(), |i: int| upper_char(s[i]))
}

/// Recognising a word ignores ASCII case: two words that differ only there
/// name the same unit, or both none; in particular a word in capitals names
/// what it names in small letters.
pub proof fn law_recognize_ignores_ascii_case(w1: Seq<char>, w2: Seq<char>)
    requires
        ascii_lower(w1) == ascii_lower(w2),
    ensures
        spec_recognize(w1) == spec_recognize(w2),
        spec_recognize(ascii_upper(w1)) == spec_recognize(w1),
{
    assert forall|i: int| 0 <= i < w1.len() implies #[trigger] lower_char(upper_char(w1[i]))
        == lower_char(w1[i]) by {
        let c = w1[i];
        if 'a' <= c <= 'z' {
            assert(upper_char(c) as int == c as int - 32);
        }
    }
    assert(ascii_lower(ascii_upper(w1)) =~= ascii_lower(w1));
}

/// Every documented name of a unit is recognised as that unit: "tsp",
/// "tsps", "teaspoon", "teaspoons" as teaspoons; "tbsp", "tbsps",
/// "tablespoon", "tablespoons" as tablespoons; "cup", "cups" as cups; "g",
/// "gram", "grams" as grams; "kg", "kilogram", "kilograms" as kilograms.
pub proof fn law_recognize_documented_names()
    ensures
        spec_recognize("tsp"@) == Some(UnitKind::Teaspoon),
        spec_recognize("tsps"@) == Some(UnitKind::Teaspoon),
        spec_recognize("teaspoon"@) == Some(UnitKind::Teaspoon),
        spec_recognize("teaspoons"@) == Some(UnitKind::Teaspoon),
        spec_recognize("tbsp"@) == Some(UnitKind::Tablespoon),
        spec_recognize("tbsps"@) == Some(UnitKind::Tablespoon),
        spec_recognize("tablespoon"@) == Some(UnitKind::Tablespoon),
        spec_recognize("tablespoons"@) == Some(UnitKind::Tablespoon),
        spec_recognize("cup"@) == Some(UnitKind::Cup),
        spec_recognize("cups"@) == Some(UnitKind::Cup),
        spec_recognize("g"@) == Some(UnitKind::Gram),
        spec_recognize("gram"@) == Some(UnitKind::Gram),
        spec_recognize("grams"@) == Some(UnitKind::Gram),
        spec_recognize("kg"@) == Some(UnitKind::Kilogram),
        spec_recognize("kilogram"@) == Some(UnitKind::Kilogram),
        spec_recognize("kilograms"@) == Some(UnitKind::Kilogram),
{
    broadcast use vstd::seq_lib::lemma_seq_contains_after_push;
    broadcast use vstd::seq_lib::lemma_seq_empty_contains_nothing;

    reveal_strlit("tsp");
    reveal_strlit("tsps");
    reveal_strlit("teaspoon");
    reveal_strlit("teaspoons");
    reveal_strlit("tbsp");
    reveal_strlit("tbsps");
    reveal_strlit("tablespoon");
    reveal_strlit("tablespoons");
    reveal_strlit("cup");
    reveal_strlit("cups");
    reveal_strlit("g");
    reveal_strlit("gram");
    reveal_strlit("grams");
    reveal_strlit("kg");
    reveal_strlit("kilogram");
    reveal_strlit("kilograms");
    assert("tsps"@[1] != "tbsp"@[1]);
    assert("tsp"@[0] != "cup"@[0]);
    assert("tsps"@[0] != "cups"@[0]);
    assert("tbsp"@[0] != "cups"@[0]);
    assert("tsps"@[0] != "gram"@[0]);
    assert("tbsp"@[0] != "gram"@[0]);
    assert("cups"@[0] != "gram"@[0]);
    assert("tbsps"@[0] != "grams"@[0]);
    assert("teaspoon"@[0] != "kilogram"@[0]);
    assert("teaspoons"@[0] != "kilograms"@[0]);
    assert(ascii_lower("tsp"@) =~= "tsp"@);
    assert(ascii_lower("tsps"@) =~= "tsps"@);
    assert(ascii_lower("teaspoon"@) =~= "teaspoon"@);
    assert(ascii_lower("teaspoons"@) =~= "teaspoons"@);
    assert(ascii_lower("tbsp"@) =~= "tbsp"@);
    assert(ascii_lower("tbsps"@) =~= "tbsps"@);
    assert(ascii_lower("tablespoon"@) =~= "tablespoon"@);
    assert(ascii_lower("tablespoons"@) =~= "tablespoons"@);
    assert(ascii_lower("cup"@) =~= "cup"@);
    assert(ascii_lower("cups"@) =~= "cups"@);
    assert(ascii_lower("g"@) =~= "g"@);
    assert(ascii_lower("gram"@) =~= "gram"@);
    assert(ascii_lower("grams"@) =~= "grams"@);
    assert(ascii_lower("kg"@) =~= "kg"@);
    assert(ascii_lower("kilogram"@) =~= "kilogram"@);
    assert(ascii_lower("kilograms"@) =~= "kilograms"@);
}

/// Every name a unit prints with, singular or plural (so whatever
/// `display_name` gives for any quantity), is recognised as that unit.
pub proof fn law_recognize_reads_display_names(kind: UnitKind)
    ensures
        spec_recognize(spec_unit(kind).singular@) == Some(kind),
        spec_recognize(spec_unit(kind).plural@) == Some(kind),
{
    law_recognize_documented_names();
}

fn lowercase(v: &Vec<char>) -> (r: Vec<char>)
    ensures
        r@ == ascii_lower(v@),
{
    let mut r: Vec<char> = Vec::new();
    let mut i: usize = 0;
    while i < v.len()
        invariant
            i <= v.len(),
            r@ == ascii_lower(v@).take(i as int),
        decreases v.len() - i,
    {
        let c = v[i];
        let l = if 'A' <= c && c <= 'Z' {
            ((c as u8) + 32) as char
        } else {
            c
        };
        r.push(l);
        assert(r@ =~= ascii_lower(v@).take(i + 1));
        i = i + 1;
    }
    assert(ascii_lower(v@).take(v.len() as int) =~= ascii_lower(v@));
    r
}

fn same_chars(a: &Vec<char>, b: &Vec<char>) -> (r: bool)
    ensures
        r == (a@ == b@),
{
    if a.len() != b.len() {
        return false;
    }
    let mut i: usize = 0;
    while i < a.len()
        invariant
            i <= a.len() == b.len(),
            forall|j: int| 0 <= j < i ==> a@[j] == b@[j],
        decreases a.len() - i,
    {
        if a[i] != b[i] {
            return false;
        }
        i = i + 1;
    }
    assert(a@ =~= b@);
    true
}

fn alias_list(kind: UnitKind) -> (v: Vec<&'static str>)
    ensures
        v.len() == aliases(kind).len(),
        forall|i: int| 0 <= i < v.len() ==> (#[trigger] v[i])@ == aliases(kind)[i],
{
    match kind {
        UnitKind::Teaspoon => vec!["tsp", "tsps", "teaspoon", "teaspoons"],
        UnitKind::Tablespoon => vec!["tbsp", "tbsps", "tablespoon", "tablespoons"],
        UnitKind::Cup => vec!["cup", "cups"],
        UnitKind::Gram => vec!["g", "gram", "grams"],
        UnitKind::Kilogram => vec!["kg", "kilogram", "kilograms"],
    }
}

fn named_by(kind: UnitKind, word: &Vec<char>) -> (r: bool)
    ensures
        r == aliases(kind).contains(word@),
{
    let names = alias_list(kind);
    let mut i: usize = 0;
    while i < names.len()
        invariant
            i <= names.len() == aliases(kind).len(),
            forall|j: int| 0 <= j < names.len() ==> (#[trigger] names[j])@ == aliases(kind)[j],
            forall|j: int| 0 <= j < i ==> aliases(kind)[j] != word@,
        decreases names.len() - i,
    {
        let name = chars_of(names[i]);
        if same_chars(&name, word) {
            assert(aliases(kind)[i as int] == word@);
            return true;
        }
        i = i + 1;
    }
    false
}

/// The unit named by `word` ("tsp", "Cups", "kilograms", ...), if any.
pub fn recognize(word: &str) -> (r: Option<Unit>)
    ensures
        match spec_recognize(word@) {
            Some(k) => r == Some(spec_unit(k)),
            None => r is None,
        },
{
    let lower = lowercase(&chars_of(word));
    if named_by(UnitKind::Teaspoon, &lower) {
        Some(unit_of(UnitKind::Teaspoon))
    } else if named_by(UnitKind::Tablespoon, &lower) {
        Some(unit_of(UnitKind::Tablespoon))
    } else if named_by(UnitKind::Cup, &lower) {
        Some(unit_of(UnitKind::Cup))
    } else if named_by(UnitKind::Gram, &lower) {
        Some(unit_of(UnitKind::Gram))
    } else if named_by(UnitKind::Kilogram, &lower) {
        Some(unit_of(UnitKind::Kilogram))
    } else {
        None
    }
}

/// Size of each unit in its family's base unit (teaspoons or grams).
pub open spec fn base_of(kind: UnitKind) -> int {
    match kind {
        UnitKind::Teaspoon => 1,
        UnitKind::Tablespoon => 3,
        UnitKind::Cup => 48,
        UnitKind::Gram => 1,
        UnitKind::Kilogram => 1000,
    }
}

/// The units of a family, largest first.
pub open spec fn family_kinds(family: Family) -> Seq<UnitKind> {
    match family {
        Family::Volume => seq![UnitKind::Cup, UnitKind::Tablespoon, UnitKind::Teaspoon],
        Family::Mass => seq![UnitKind::Kilogram, UnitKind::Gram],
    }
}

/// The first of `kinds` at least `min_base` large in which `amount` (counted in
/// base units) is a whole number, with that whole number.
pub open spec fn first_whole(kinds: Seq<UnitKind>, amount: Fraction, min_base: int) -> Option<
    (Fraction, UnitKind),
>
    decreases kinds.len(),
{
    if kinds.len() == 0 {
        None
    } else {
        let k = kinds[0];
        let value = spec_div(amount, spec_whole(base_of(k)));
        if base_of(k) >= min_base && value.den == 1 {
            Some((value, k))
        } else {
            first_whole(kinds.drop_first(), amount, min_base)
        }
    }
}

/// The inputs on which `best_display` does not overflow: the quantity in base
/// units, and its value in each candidate unit, fit in `i64`.
pub open spec fn best_display_defined(unit: Unit, quantity: Fraction) -> bool {
    let amount = spec_mul(quantity, spec_whole(unit.base_per_unit as int));
    &&& mul_defined(quantity, spec_whole(unit.base_per_unit as int))
    &&& forall|i: int|
        0 <= i < family_kinds(unit.family).len() && base_of(#[trigger] family_kinds(unit.family)[i])
            >= unit.base_per_unit ==> div_defined(
            amount,
            spec_whole(base_of(family_kinds(unit.family)[i])),
        )
}

/// What `best_display` returns: the largest unit of the same family, no smaller
/// than `unit`, in which the quantity is whole; else the quantity unchanged.
pub open spec fn best_display_result(unit: Unit, quantity: Fraction, r: (Fraction, Unit)) -> bool {
    let amount = spec_mul(quantity, spec_whole(unit.base_per_unit as int));
    match first_whole(family_kinds(unit.family), amount, unit.base_per_unit as int) {
        Some((v, k)) => r.0 == v && r.1 == spec_unit(k),
        None => r.0 == quantity && r.1 == unit,
    }
}

proof fn lemma_first_whole(kinds: Seq<UnitKind>, amount: Fraction, min_base: int, family: Family)
    requires
        forall|i: int| 0 <= i < kinds.len() ==> family_kinds(family).contains(#[trigger] kinds[i]),
    ensures
        first_whole(kinds, amount, min_base) matches Some((v, k)) ==> {
            &&& base_of(k) >= min_base
            &&& v.den == 1
            &&& v == spec_div(amount, spec_whole(base_of(k)))
            &&& family_kinds(family).contains(k)
        },
    decreases kinds.len(),
{
    if kinds.len() > 0 {
        assert(family_kinds(family).contains(kinds[0]));
        lemma_first_whole(kinds.drop_first(), amount, min_base, family);
    }
}

/// Converts to the largest unit of the same family, no smaller than `unit`, in
/// which the quantity comes out whole; otherwise leaves it as it is.
pub fn best_display(unit: Unit, quantity: Fraction) -> (r: (Fraction, Unit))
    requires
        best_display_defined(unit, quantity),
    ensures
        best_display_result(unit, quantity, r),
{
    let base_amount = quantity.mul(Fraction::whole(unit.base_per_unit));
    let family_units: Vec<UnitKind> = match unit.family {
        Family::Volume => vec![UnitKind::Cup, UnitKind::Tablespoon, UnitKind::Teaspoon],
        Family::Mass => vec![UnitKind::Kilogram, UnitKind::Gram],
    };
    assert(family_units@ =~= family_kinds(unit.family));
    assert(family_units@.skip(0) =~= family_units@);
    let mut i: usize = 0;
    while i < family_units.len()
        invariant
            i <= family_units.len(),
            family_units@ == family_kinds(unit.family),
            base_amount == spec_mul(quantity, spec_whole(unit.base_per_unit as int)),
            best_display_defined(unit, quantity),
            first_whole(family_kinds(unit.family), base_amount, unit.base_per_unit as int)
                == first_whole(family_units@.skip(i as int), base_amount, unit.base_per_unit as int),
        decreases family_units.len() - i,
    {
        let candidate = unit_of(family_units[i]);
        assert(family_units@.skip(i as int).drop_first() =~= family_units@.skip(i + 1));
        assert(family_units@.skip(i as int)[0] == family_units[i as int]);
        if candidate.base_per_unit >= unit.base_per_unit {
            let value = base_amount.div(Fraction::whole(candidate.base_per_unit));
            if value.den == 1 {
                return (value, candidate);
            }
        }
        i = i + 1;
    }
    (quantity, unit)
}

/// The name to print after a quantity: singular for exactly one, plural otherwise.
pub fn display_name(unit: Unit, quantity: Fraction) -> (r: &'static str)
    ensures
        r == (if quantity.num == quantity.den {
            unit.singular
        } else {
            unit.plural
        }),
{
    if quantity.num == quantity.den {
        unit.singular
    } else {
        unit.plural
    }
}

proof fn lemma_whole_is_integer(n: int)
    requires
        fits_i64(n),
    ensures
        spec_whole(n) == (Fraction { num: n as i64, den: 1 }),
{
    crate::number_theory::lemma_gcd_with_one(crate::number_theory::abs(n));
    law_new_of_lowest_terms(Fraction { num: n as i64, den: 1 });
}

/// Choosing a display unit never moves to another family or to a smaller unit,
/// keeps the amount (quantity times unit size), and either comes out as a whole
/// number or leaves the quantity and unit as they were.
pub proof fn law_best_display(unit: Unit, quantity: Fraction, r: (Fraction, Unit))
    requires
        best_display_defined(unit, quantity),
        best_display_result(unit, quantity, r),
    ensures
        r.1.family == unit.family,
        r.1.base_per_unit >= unit.base_per_unit,
        r.0.den == 1 || (r.0 == quantity && r.1 == unit),
        same_ratio(
            r.0.num * r.1.base_per_unit,
            r.0.den as int,
            quantity.num * unit.base_per_unit,
            quantity.den as int,
        ),
{
    let b = unit.base_per_unit as int;
    let amount = spec_mul(quantity, spec_whole(b));
    lemma_first_whole(family_kinds(unit.family), amount, b, unit.family);
    match first_whole(family_kinds(unit.family), amount, b) {
        Some((v, k)) => {
            let c = base_of(k);
            assert(spec_unit(k).family == unit.family) by {
                assert(family_kinds(unit.family).contains(k));
                let j = choose|j: int|
                    0 <= j < family_kinds(unit.family).len() && family_kinds(unit.family)[j] == k;
                assert(0 <= j < family_kinds(unit.family).len());
            }
            assert(spec_unit(k).base_per_unit == c);
            lemma_whole_is_integer(b);
            lemma_whole_is_integer(c);
            lemma_spec_new(quantity.num * b, quantity.den * 1);
            let m = amount;
            let idx = choose|j: int|
                0 <= j < family_kinds(unit.family).len() && family_kinds(unit.family)[j] == k;
            assert(div_defined(m, spec_whole(base_of(family_kinds(unit.family)[idx]))));
            lemma_spec_new(m.num * 1, m.den * c);
            let (vn, vd, mn, md, qn, qd) = (
                v.num as int,
                v.den as int,
                m.num as int,
                m.den as int,
                quantity.num as int,
                quantity.den as int,
            );
            assert(vn * (md * c) == (mn * 1) * vd);
            assert(mn * (qd * 1) == (qn * b) * md);
            assert((vn * c) * md == mn * vd) by (nonlinear_arith)
                requires
                    vn * (md * c) == (mn * 1) * vd,
            ;
            assert(mn * qd == (qn * b) * md) by (nonlinear_arith)
                requires
                    mn * (qd * 1) == (qn * b) * md,
            ;
            crate::number_theory::lemma_ratio_chain(vn * c, vd, mn, md, qn * b, qd);
        },
        None => {
            assert((quantity.num * b) * quantity.den == (quantity.num * b) * quantity.den);
        },
    }
}

proof fn lemma_first_whole_from_found(kinds: Seq<UnitKind>, amount: Fraction, b: int, v: Fraction, k: UnitKind)
    requires
        first_whole(kinds, amount, b) == Some((v, k)),
        base_of(k) >= b,
    ensures
        first_whole(kinds, amount, base_of(k)) == Some((v, k)),
    decreases kinds.len(),
{
    if kinds.len() > 0 {
        let k0 = kinds[0];
        let value = spec_div(amount, spec_whole(base_of(k0)));
        if !(base_of(k0) >= b && value.den == 1) {
            lemma_first_whole_from_found(kinds.drop_first(), amount, b, v, k);
        }
    }
}

/// Choosing the display unit again changes nothing: the quantity and unit that
/// `best_display` returns are already their own best display.
pub proof fn law_best_display_idempotent(unit: Unit, quantity: Fraction, r: (Fraction, Unit))
    requires
        best_display_defined(unit, quantity),
        best_display_result(unit, quantity, r),
    ensures
        best_display_defined(r.1, r.0),
        best_display_result(r.1, r.0, r),
{
    law_best_display(unit, quantity, r);
    let b = unit.base_per_unit as int;
    let amount = spec_mul(quantity, spec_whole(b));
    if let Some((v, k)) = first_whole(family_kinds(unit.family), amount, b) {
        let c = base_of(k);
        assert(r.1 == spec_unit(k) && r.1.base_per_unit == c && r.0 == v);
        lemma_whole_is_integer(b);
        lemma_whole_is_integer(c);
        lemma_spec_new(quantity.num * b, quantity.den * 1);
        assert(lowest_terms(amount));
        lemma_first_whole(family_kinds(unit.family), amount, b, unit.family);
        let idx = choose|j: int|
            0 <= j < family_kinds(unit.family).len() && family_kinds(unit.family)[j] == k;
        assert(div_defined(amount, spec_whole(base_of(family_kinds(unit.family)[idx]))));
        lemma_spec_new(amount.num * 1, amount.den * c);
        let (vn, an, ad) = (v.num as int, amount.num as int, amount.den as int);
        assert(vn * (ad * c) == an * 1);
        assert(vn * c * ad == an) by (nonlinear_arith)
            requires
                vn * (ad * c) == an * 1,
        ;
        assert(fits_i64(vn * c)) by {
            assert(crate::number_theory::abs(vn * c) <= crate::number_theory::abs(an))
                by (nonlinear_arith)
                requires
                    vn * c * ad == an,
                    ad >= 1,
            ;
        }
        let m2 = spec_mul(v, spec_whole(c));
        lemma_spec_new(vn * c, 1int);
        assert(m2.num * ad == an * m2.den) by (nonlinear_arith)
            requires
                m2.num * 1 == (vn * c) * m2.den,
                vn * c * ad == an,
        ;
        lemma_lowest_terms_same_ratio(m2, amount);
        assert(r.1.family == unit.family);
        lemma_first_whole_from_found(family_kinds(unit.family), amount, b, v, k);
    }
}

} // verus!
