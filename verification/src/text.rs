use vstd::prelude::*;

verus! {

/// `String::push` appends one character to the end of the string, as std documents.
pub assume_specification[ String::push ](s: &mut String, ch: char)
    ensures
        final(s)@ == old(s)@.push(ch),
;

/// Unicode `White_Space`, the property that `char::is_whitespace` and `str::trim` test.
pub open spec fn is_white_space(c: char) -> bool {
    ||| '\t' <= c <= '\r'
    ||| c == ' '
    ||| c == '\u{85}'
    ||| c == '\u{a0}'
    ||| c == '\u{1680}'
    ||| '\u{2000}' <= c <= '\u{200a}'
    ||| c == '\u{2028}'
    ||| c == '\u{2029}'
    ||| c == '\u{202f}'
    ||| c == '\u{205f}'
    ||| c == '\u{3000}'
}

pub open spec fn is_digit(c: char) -> bool {
    '0' <= c <= '9'
}

/// The sets of characters that the scanners below skip over.
#[derive(Clone, Copy)]
pub enum CharClass {
    WhiteSpace,
    Digit,
    DigitOrDot,
    Space,
    NotNewline,
    Zero,
}

pub open spec fn in_class(c: char, class: CharClass) -> bool {
    match class {
        CharClass::WhiteSpace => is_white_space(c),
        CharClass::Digit => is_digit(c),
        CharClass::DigitOrDot => is_digit(c) || c == '.',
        CharClass::Space => c == ' ',
        CharClass::NotNewline => c != '\n',
        CharClass::Zero => c == '0',
    }
}

pub fn is_whitespace(c: char) -> (b: bool)
    ensures
        b == is_white_space(c),
{
    ('\t' <= c && c <= '\r') || c == ' ' || c == '\u{85}' || c == '\u{a0}' || c == '\u{1680}'
        || ('\u{2000}' <= c && c <= '\u{200a}') || c == '\u{2028}' || c == '\u{2029}' || c
        == '\u{202f}' || c == '\u{205f}' || c == '\u{3000}'
}

fn is_in_class(c: char, class: CharClass) -> (b: bool)
    ensures
        b == in_class(c, class),
{
    match class {
        CharClass::WhiteSpace => is_whitespace(c),
        CharClass::Digit => '0' <= c && c <= '9',
        CharClass::DigitOrDot => ('0' <= c && c <= '9') || c == '.',
        CharClass::Space => c == ' ',
        CharClass::NotNewline => c != '\n',
        CharClass::Zero => c == '0',
    }
}

/// Length of the longest prefix of `s` made of characters of `class`.
pub open spec fn span(s: Seq<char>, class: CharClass) -> nat
    decreases s.len(),
{
    if s.len() > 0 && in_class(s[0], class) {
        1 + span(s.drop_first(), class)
    } else {
        0
    }
}

/// Length of the longest suffix of `s` made of characters of `class`.
pub open spec fn span_back(s: Seq<char>, class: CharClass) -> nat
    decreases s.len(),
{
    if s.len() > 0 && in_class(s.last(), class) {
        1 + span_back(s.drop_last(), class)
    } else {
        0
    }
}

/// `s` without leading and trailing white space, as `str::trim` returns it.
pub open spec fn trim(s: Seq<char>) -> Seq<char> {
    let t = s.skip(span(s, CharClass::WhiteSpace) as int);
    t.take(t.len() - span_back(t, CharClass::WhiteSpace))
}

pub proof fn lemma_span_bound(s: Seq<char>, class: CharClass)
    ensures
        span(s, class) <= s.len(),
        forall|i: int| 0 <= i < span(s, class) ==> in_class(#[trigger] s[i], class),
        span(s, class) < s.len() ==> !in_class(s[span(s, class) as int], class),
    decreases s.len(),
{
    if s.len() > 0 && in_class(s[0], class) {
        lemma_span_bound(s.drop_first(), class);
        assert forall|i: int| 0 <= i < span(s, class) implies in_class(#[trigger] s[i], class) by {
            if i > 0 {
                assert(s[i] == s.drop_first()[i - 1]);
            }
        }
    }
}

pub proof fn lemma_span_back_bound(s: Seq<char>, class: CharClass)
    ensures
        span_back(s, class) <= s.len(),
    decreases s.len(),
{
    if s.len() > 0 && in_class(s.last(), class) {
        lemma_span_back_bound(s.drop_last(), class);
    }
}

/// A run of `class` characters followed by text that does not start with one
/// spans exactly the run.
pub proof fn lemma_span_of_run(a: Seq<char>, t: Seq<char>, class: CharClass)
    requires
        forall|i: int| 0 <= i < a.len() ==> in_class(#[trigger] a[i], class),
        t.len() == 0 || !in_class(t[0], class),
    ensures
        span(a + t, class) == a.len(),
    decreases a.len(),
{
    if a.len() == 0 {
        assert(a + t =~= t);
    } else {
        assert((a + t)[0] == a[0]);
        assert((a + t).drop_first() =~= a.drop_first() + t);
        assert forall|i: int| 0 <= i < a.drop_first().len() implies in_class(
            #[trigger] a.drop_first()[i],
            class,
        ) by {
            assert(a.drop_first()[i] == a[i + 1]);
        }
        lemma_span_of_run(a.drop_first(), t, class);
    }
}

/// The run of `class` characters that ends `a + b` ends `b`, and reaches into
/// `a` only when it covers all of `b`.
pub proof fn lemma_span_back_concat(a: Seq<char>, b: Seq<char>, class: CharClass)
    ensures
        span_back(a + b, class) == (if span_back(b, class) < b.len() {
            span_back(b, class)
        } else {
            b.len() + span_back(a, class)
        }),
    decreases b.len(),
{
    lemma_span_back_bound(b, class);
    if b.len() == 0 {
        assert(a + b =~= a);
    } else {
        assert((a + b).drop_last() =~= a + b.drop_last());
        assert((a + b).last() == b.last());
        if in_class(b.last(), class) {
            lemma_span_back_concat(a, b.drop_last(), class);
        }
    }
}

/// `start` plus the length of the longest run of `class` characters in `v[start..end]`.
pub fn span_from(v: &Vec<char>, start: usize, end: usize, class: CharClass) -> (r: usize)
    requires
        start <= end <= v.len(),
    ensures
        r == start + span(v@.subrange(start as int, end as int), class),
        start <= r <= end,
{
    let mut i = start;
    while i < end && is_in_class(v[i], class)
        invariant
            start <= i <= end <= v.len(),
            span(v@.subrange(start as int, end as int), class) == (i - start) + span(
                v@.subrange(i as int, end as int),
                class,
            ),
        decreases end - i,
    {
        assert(v@.subrange(i as int, end as int).drop_first() =~= v@.subrange(i + 1, end as int));
        i = i + 1;
    }
    proof {
        lemma_span_bound(v@.subrange(i as int, end as int), class);
    }
    i
}

/// `end` minus the length of the longest run of `class` characters ending `v[start..end]`.
pub fn span_back_from(v: &Vec<char>, start: usize, end: usize, class: CharClass) -> (r: usize)
    requires
        start <= end <= v.len(),
    ensures
        r == end - span_back(v@.subrange(start as int, end as int), class),
        start <= r <= end,
{
    let mut i = end;
    while i > start && is_in_class(v[i - 1], class)
        invariant
            start <= i <= end <= v.len(),
            span_back(v@.subrange(start as int, end as int), class) == (end - i) + span_back(
                v@.subrange(start as int, i as int),
                class,
            ),
        decreases i - start,
    {
        assert(v@.subrange(start as int, i as int).drop_last() =~= v@.subrange(
            start as int,
            i - 1,
        ));
        i = i - 1;
    }
    proof {
        lemma_span_back_bound(v@.subrange(start as int, i as int), class);
    }
    i
}

/// The bounds `(a, b)` with `v[a..b] == trim(v[start..end])`.
pub fn trim_bounds(v: &Vec<char>, start: usize, end: usize) -> (r: (usize, usize))
    requires
        start <= end <= v.len(),
    ensures
        start <= r.0 <= r.1 <= end,
        r.0 == start + span(v@.subrange(start as int, end as int), CharClass::WhiteSpace),
        v@.subrange(r.0 as int, r.1 as int) == trim(v@.subrange(start as int, end as int)),
{
    let a = span_from(v, start, end, CharClass::WhiteSpace);
    let b = span_back_from(v, a, end, CharClass::WhiteSpace);
    proof {
        let s = v@.subrange(start as int, end as int);
        let t = s.skip(span(s, CharClass::WhiteSpace) as int);
        assert(t =~= v@.subrange(a as int, end as int));
        assert(t.take(t.len() - span_back(t, CharClass::WhiteSpace)) =~= v@.subrange(
            a as int,
            b as int,
        ));
    }
    (a, b)
}

/// A copy of `v[start..end]`.
pub fn copy_range(v: &Vec<char>, start: usize, end: usize) -> (r: Vec<char>)
    requires
        start <= end <= v.len(),
    ensures
        r@ == v@.subrange(start as int, end as int),
{
    let mut r: Vec<char> = Vec::new();
    let mut i = start;
    while i < end
        invariant
            start <= i <= end <= v.len(),
            r@ == v@.subrange(start as int, i as int),
        decreases end - i,
    {
        r.push(v[i]);
        assert(r@ =~= v@.subrange(start as int, i + 1));
        i = i + 1;
    }
    r
}

/// Appends `v[start..end]` to `out`.
pub fn append_range(out: &mut Vec<char>, v: &Vec<char>, start: usize, end: usize)
    requires
        start <= end <= v.len(),
    ensures
        final(out)@ == old(out)@ + v@.subrange(start as int, end as int),
{
    let mut i = start;
    while i < end
        invariant
            start <= i <= end <= v.len(),
            out@ == old(out)@ + v@.subrange(start as int, i as int),
        decreases end - i,
    {
        out.push(v[i]);
        assert(out@ =~= old(out)@ + v@.subrange(start as int, i + 1));
        i = i + 1;
    }
    assert(out@ =~= old(out)@ + v@.subrange(start as int, end as int));
}

/// The characters of `s`, in order.
pub fn chars_of(s: &str) -> (v: Vec<char>)
    ensures
        v@ == s@,
{
    let mut v: Vec<char> = Vec::new();
    for c in it: s.chars()
        invariant
            v@ == it.seq().take(it.index() as int),
            it.seq() == s@,
    {
        v.push(c);
    }
    v
}

/// A `String` holding exactly the characters of `v`.
pub fn string_from(v: &Vec<char>) -> (s: String)
    ensures
        s@ == v@,
{
    let mut s = String::new();
    let mut i: usize = 0;
    while i < v.len()
        invariant
            i <= v.len(),
            s@ == v@.take(i as int),
        decreases v.len() - i,
    {
        s.push(v[i]);
        assert(s@ =~= v@.take(i + 1));
        i = i + 1;
    }
    assert(v@.take(v.len() as int) =~= v@);
    s
}

/// The number written by the decimal digits `s` (0 for no digits).
pub open spec fn digits_value(s: Seq<char>) -> nat
    decreases s.len(),
{
    if s.len() == 0 {
        0
    } else {
        10 * digits_value(s.drop_last()) + ((s.last() as int - '0' as int) as nat)
    }
}

pub open spec fn all_digits(s: Seq<char>) -> bool {
    forall|i: int| 0 <= i < s.len() ==> is_digit(#[trigger] s[i])
}

/// What `str::parse::<i64>` gives for a run of decimal digits: its value when
/// there is at least one digit and the value fits, else nothing.
pub open spec fn spec_parse_digits(s: Seq<char>) -> Option<int> {
    if s.len() > 0 && all_digits(s) && digits_value(s) <= i64::MAX {
        Some(digits_value(s) as int)
    } else {
        None
    }
}

proof fn lemma_digits_value_monotone(s: Seq<char>, i: int)
    requires
        0 <= i <= s.len(),
        all_digits(s),
    ensures
        digits_value(s.take(i)) <= digits_value(s),
    decreases s.len() - i,
{
    if i < s.len() {
        lemma_digits_value_monotone(s, i + 1);
        assert(s.take(i + 1).drop_last() =~= s.take(i));
        assert(is_digit(s[i]));
    } else {
        assert(s.take(i) =~= s);
    }
}

/// The value of the digits `v[start..end]`, as `str::parse::<i64>` reads them.
pub fn parse_digits(v: &Vec<char>, start: usize, end: usize) -> (r: Option<i64>)
    requires
        start <= end <= v.len(),
    ensures
        r == (match spec_parse_digits(v@.subrange(start as int, end as int)) {
            Some(x) => Some(x as i64),
            None => None::<i64>,
        }),
{
    let ghost s = v@.subrange(start as int, end as int);
    if start == end {
        return None;
    }
    let mut value: i64 = 0;
    let mut i = start;
    while i < end
        invariant
            start <= i <= end <= v.len(),
            s == v@.subrange(start as int, end as int),
            all_digits(s.take(i - start)),
            value as int == digits_value(s.take(i - start)),
        decreases end - i,
    {
        let c = v[i];
        assert(s.take(i + 1 - start).drop_last() =~= s.take(i - start));
        if !('0' <= c && c <= '9') {
            assert(!all_digits(s)) by {
                assert(s[i - start] == c);
            }
            return None;
        }
        let d = (c as u32 - '0' as u32) as i64;
        let next = match value.checked_mul(10) {
            Some(x) => x.checked_add(d),
            None => None,
        };
        match next {
            Some(x) => {
                value = x;
            },
            None => {
                proof {
                    assert(all_digits(s.take(i + 1 - start)));
                    if all_digits(s) {
                        lemma_digits_value_monotone(s, i + 1 - start);
                    }
                }
                return None;
            },
        }
        i = i + 1;
    }
    assert(s.take(end - start) =~= s);
    Some(value)
}

pub open spec fn digit_char(d: nat) -> char {
    (d + '0' as nat) as char
}

/// The decimal digits of `n`, most significant first, without leading zeros.
pub open spec fn decimal(n: nat) -> Seq<char>
    decreases n,
{
    if n < 10 {
        seq![digit_char(n)]
    } else {
        decimal(n / 10).push(digit_char(n % 10))
    }
}

/// The decimal text of the integer `n`, with a leading '-' when negative.
pub open spec fn signed_decimal(n: int) -> Seq<char> {
    if n < 0 {
        seq!['-'] + decimal((-n) as nat)
    } else {
        decimal(n as nat)
    }
}

/// Appends the decimal digits of `n`.
pub fn push_decimal(out: &mut Vec<char>, n: u64)
    ensures
        final(out)@ == old(out)@ + decimal(n as nat),
    decreases n,
{
    if n >= 10 {
        push_decimal(out, n / 10);
    }
    let d = (n % 10) as u8;
    let c = (48u8 + d) as char;
    out.push(c);
    assert(out@ =~= old(out)@ + decimal(n as nat));
}

/// Appends the decimal text of `n`, with a leading '-' when negative.
pub fn push_signed_decimal(out: &mut Vec<char>, n: i64)
    ensures
        final(out)@ == old(out)@ + signed_decimal(n as int),
{
    if n < 0 {
        out.push('-');
        let m: u64 = ((-(n + 1)) as u64) + 1;
        push_decimal(out, m);
        assert(out@ =~= old(out)@ + signed_decimal(n as int));
    } else {
        push_decimal(out, n as u64);
    }
}

/// A number has at most about half as many decimal digits as its value.
/// A digit character stands for its digit.
pub proof fn lemma_digit_char(x: nat)
    requires
        x < 10,
    ensures
        is_digit(digit_char(x)),
        digit_char(x) as int - '0' as int == x,
        (digit_char(x) == '0') == (x == 0),
{
}

/// `decimal(n)` is a non-empty run of digits that reads back as `n`.
pub proof fn lemma_decimal_digits(n: nat)
    ensures
        decimal(n).len() > 0,
        all_digits(decimal(n)),
        digits_value(decimal(n)) == n,
    decreases n,
{
    if n < 10 {
        lemma_digit_char(n);
        assert(seq![digit_char(n)].drop_last() =~= Seq::<char>::empty());
        assert(digits_value(Seq::<char>::empty()) == 0);
        assert(digits_value(decimal(n)) == 10 * digits_value(Seq::<char>::empty()) + n);
    } else {
        lemma_decimal_digits(n / 10);
        lemma_digit_char(n % 10);
        let d = decimal(n);
        assert(d.drop_last() =~= decimal(n / 10));
        assert forall|i: int| 0 <= i < d.len() implies is_digit(#[trigger] d[i]) by {
            if i < d.len() - 1 {
                assert(d[i] == decimal(n / 10)[i]);
            }
        }
        assert(digits_value(d) == 10 * digits_value(decimal(n / 10)) + n % 10);
        assert(n == 10 * (n / 10) + n % 10);
    }
}

pub proof fn lemma_decimal_len(n: nat)
    ensures
        decimal(n).len() <= n / 2 + 1,
    decreases n,
{
    if n >= 10 {
        lemma_decimal_len(n / 10);
        assert(n / 10 / 2 + 1 + 1 <= n / 2 + 1) by (nonlinear_arith)
            requires
                n >= 10,
        ;
    }
}

/// Whether two strings hold the same characters.
pub fn str_eq(a: &str, b: &str) -> (r: bool)
    ensures
        r == (a@ == b@),
{
    let x = chars_of(a);
    let y = chars_of(b);
    if x.len() != y.len() {
        return false;
    }
    let mut i: usize = 0;
    while i < x.len()
        invariant
            i <= x.len() == y.len(),
            x@ == a@,
            y@ == b@,
            forall|j: int| 0 <= j < i ==> x@[j] == y@[j],
        decreases x.len() - i,
    {
        if x[i] != y[i] {
            assert(a@[i as int] != b@[i as int]);
            return false;
        }
        i = i + 1;
    }
    assert(x@ =~= y@);
    true
}

/// Trimming keeps what follows the leading white space, so the trimmed text
/// and the white space before it fit inside the untrimmed text.
/// The characters of the trailing run that `span_back` measures are all of the class.
pub proof fn lemma_span_back_all(s: Seq<char>, class: CharClass)
    ensures
        span_back(s, class) <= s.len(),
        forall|i: int| s.len() - span_back(s, class) <= i < s.len() ==> in_class(#[trigger] s[i], class),
    decreases s.len(),
{
    if s.len() > 0 && in_class(s.last(), class) {
        lemma_span_back_all(s.drop_last(), class);
        assert forall|i: int| s.len() - span_back(s, class) <= i < s.len() implies in_class(
            #[trigger] s[i],
            class,
        ) by {
            if i < s.len() - 1 {
                assert(s[i] == s.drop_last()[i]);
            }
        }
    }
}

/// Text with a character that is not white space trims to something non-empty.
pub proof fn lemma_trim_nonempty(s: Seq<char>, i: int)
    requires
        0 <= i < s.len(),
        !is_white_space(s[i]),
    ensures
        trim(s).len() > 0,
{
    lemma_span_bound(s, CharClass::WhiteSpace);
    let a = span(s, CharClass::WhiteSpace) as int;
    assert(a <= i) by {
        if a > i {
            assert(in_class(s[i], CharClass::WhiteSpace));
        }
    }
    let t = s.skip(a);
    assert(t[i - a] == s[i]);
    lemma_span_back_all(t, CharClass::WhiteSpace);
    assert(span_back(t, CharClass::WhiteSpace) < t.len()) by {
        if span_back(t, CharClass::WhiteSpace) == t.len() {
            assert(in_class(t[i - a], CharClass::WhiteSpace));
        }
    }
}

pub proof fn lemma_trim_len(s: Seq<char>)
    ensures
        span(s, CharClass::WhiteSpace) + trim(s).len() <= s.len(),
{
    lemma_span_bound(s, CharClass::WhiteSpace);
    let t = s.skip(span(s, CharClass::WhiteSpace) as int);
    lemma_span_back_bound(t, CharClass::WhiteSpace);
}

/// Appends the characters of `s`.
pub fn push_str(out: &mut Vec<char>, s: &str)
    ensures
        final(out)@ == old(out)@ + s@,
{
    let v = chars_of(s);
    append_range(out, &v, 0, v.len());
    assert(v@.subrange(0, v.len() as int) =~= v@);
}

/// Appends the characters of `s`.
pub fn push_string(out: &mut Vec<char>, s: &String)
    ensures
        final(out)@ == old(out)@ + s@,
{
    push_str(out, s.as_str());
}

} // verus!
