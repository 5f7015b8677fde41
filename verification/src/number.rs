//! Numbers as exact decimals in scientific normal form.
//!
//! A number is held as a sign, the digits of its significand without leading or
//! trailing zeros, and the place of the decimal point relative to the first
//! digit: `0.d1 d2 ... dn` times ten to the power `point`. Two numbers are equal
//! exactly when their normal forms are, and their order is read off the normal
//! forms without arithmetic.
use crate::text::{chars_of, string_of};
use vstd::prelude::*;

verus! {

/// The largest place of the decimal point that a [`Number`] holds. It keeps
/// every number below ten to the power 308 in magnitude.
pub const MAX_POINT: i64 = 308;

/// The smallest place of the decimal point that a [`Number`] holds.
pub const MIN_POINT: i64 = -1_000_000;

/// The mathematical value of a [`Number`]: `0.d1 d2 ... dn` times ten to the
/// power `point`, negated where `negative` holds. Zero has no digits.
pub struct Decimal {
    pub negative: bool,
    pub digits: Seq<u8>,
    pub point: int,
}

/// Whether a decimal is in normal form and within the range that a [`Number`]
/// holds.
pub open spec fn normal(d: Decimal) -> bool {
    &&& forall|i: int| 0 <= i < d.digits.len() ==> d.digits[i] <= 9
    &&& d.digits.len() > 0 ==> d.digits[0] != 0 && d.digits.last() != 0
    &&& d.digits.len() == 0 ==> !d.negative && d.point == 0
    &&& MIN_POINT <= d.point <= MAX_POINT
}

/// The decimal zero.
pub open spec fn zero() -> Decimal {
    Decimal { negative: false, digits: Seq::empty(), point: 0 }
}

/// Whether a character is one of the digits `0` to `9`.
pub open spec fn is_digit(c: char) -> bool {
    48 <= c as u32 <= 57
}

/// The value of a digit character.
pub open spec fn digit_of(c: char) -> u8 {
    (c as u32 - 48) as u8
}

/// The character of a digit.
pub open spec fn char_of_digit(d: u8) -> char {
    (d + 48) as char
}

/// The end of the run of digits that starts at `from`.
pub open spec fn digits_end(s: Seq<char>, from: int) -> int
    decreases s.len() - from,
{
    if 0 <= from < s.len() && is_digit(s[from]) {
        digits_end(s, from + 1)
    } else {
        from
    }
}

/// The values of a run of digit characters.
pub open spec fn digit_values(s: Seq<char>) -> Seq<u8> {
    Seq::new(s.len(), |i: int| digit_of(s[i]))
}

/// The characters of a run of digits.
pub open spec fn digit_chars(ds: Seq<u8>) -> Seq<char> {
    Seq::new(ds.len(), |i: int| char_of_digit(ds[i]))
}

/// The number that a run of digit characters denotes in base ten.
pub open spec fn numeral_value(s: Seq<char>) -> int
    decreases s.len(),
{
    if s.len() == 0 {
        0
    } else {
        numeral_value(s.drop_last()) * 10 + digit_of(s.last())
    }
}

/// The first position at or after `from` that holds no zero.
pub open spec fn skip_zeros(ds: Seq<u8>, from: int) -> int
    decreases ds.len() - from,
{
    if 0 <= from < ds.len() && ds[from] == 0 {
        skip_zeros(ds, from + 1)
    } else {
        from
    }
}

/// The end of `ds` once the zeros before position `to` are cut off.
pub open spec fn cut_zeros(ds: Seq<u8>, to: int) -> int
    decreases to,
{
    if 0 < to <= ds.len() && ds[to - 1] == 0 {
        cut_zeros(ds, to - 1)
    } else {
        to
    }
}

/// The normal form of `0.ds` times ten to the power `point`, or `None` where the
/// decimal point of the normal form lies outside the range held.
pub open spec fn normalize(negative: bool, ds: Seq<u8>, point: int) -> Option<Decimal> {
    let first = skip_zeros(ds, 0);
    if first >= ds.len() {
        Some(zero())
    } else {
        let end = cut_zeros(ds, ds.len() as int);
        let p = point - first;
        if MIN_POINT <= p <= MAX_POINT {
            Some(Decimal { negative, digits: ds.subrange(first, end), point: p })
        } else {
            None
        }
    }
}

/// The parts of a numeral: sign, digits before and after the point, and the
/// exponent with its sign. `None` where the text is no numeral.
///
/// A numeral is an optional sign, then digits with an optional point among them
/// (at least one digit in all), then optionally `e` or `E`, an optional sign and
/// at least one digit.
pub struct Numeral {
    pub negative: bool,
    pub whole: Seq<char>,
    pub fraction: Seq<char>,
    pub exponent_negative: bool,
    pub exponent: Seq<char>,
}

/// Whether a character is a plus or a minus.
pub open spec fn is_sign(c: char) -> bool {
    c == '+' || c == '-'
}

/// The parts of the numeral that a text is, or `None` where it is none.
pub open spec fn numeral_of(s: Seq<char>) -> Option<Numeral> {
    let start: int = if s.len() > 0 && is_sign(s[0]) { 1 } else { 0 };
    let negative = s.len() > 0 && s[0] == '-';
    let whole_end = digits_end(s, start);
    let has_point = whole_end < s.len() && s[whole_end] == '.';
    let fraction_start = if has_point { whole_end + 1 } else { whole_end };
    let fraction_end = digits_end(s, fraction_start);
    let whole = s.subrange(start, whole_end);
    let fraction = s.subrange(fraction_start, fraction_end);
    if whole.len() + fraction.len() == 0 {
        None
    } else if fraction_end == s.len() {
        Some(Numeral { negative, whole, fraction, exponent_negative: false, exponent: Seq::empty() })
    } else if s[fraction_end] == 'e' || s[fraction_end] == 'E' {
        let signed = fraction_end + 1 < s.len() && is_sign(s[fraction_end + 1]);
        let exponent_start = if signed { fraction_end + 2 } else { fraction_end + 1 };
        let exponent_end = digits_end(s, exponent_start);
        if exponent_end == s.len() && exponent_start < exponent_end {
            Some(
                Numeral {
                    negative,
                    whole,
                    fraction,
                    exponent_negative: signed && s[fraction_end + 1] == '-',
                    exponent: s.subrange(exponent_start, exponent_end),
                },
            )
        } else {
            None
        }
    } else {
        None
    }
}

/// The decimal that a numeral denotes, in normal form.
pub open spec fn numeral_decimal(n: Numeral) -> Option<Decimal> {
    let e = numeral_value(n.exponent);
    let exponent = if n.exponent_negative { -e } else { e };
    normalize(n.negative, digit_values(n.whole + n.fraction), n.whole.len() + exponent)
}

/// The number that a text denotes: `None` where the text is no numeral, or where
/// its normal form is out of range.
pub open spec fn decimal_of(s: Seq<char>) -> Option<Decimal> {
    match numeral_of(s) {
        Some(n) => numeral_decimal(n),
        None => None,
    }
}

/// Whether a text is a whole numeral: an optional sign and at least one digit.
pub open spec fn is_whole_numeral(s: Seq<char>) -> bool {
    let start: int = if s.len() > 0 && is_sign(s[0]) { 1 } else { 0 };
    start < s.len() && digits_end(s, start) == s.len()
}

/// A finite decimal number in normal form.
#[derive(Debug)]
pub struct Number {
    negative: bool,
    digits: Vec<u8>,
    point: i64,
}

impl View for Number {
    type V = Decimal;

    closed spec fn view(&self) -> Decimal {
        Decimal { negative: self.negative, digits: self.digits@, point: self.point as int }
    }
}

fn is_digit_char(c: char) -> (r: bool)
    ensures
        r == is_digit(c),
{
    let code: u32 = c as u32;
    48 <= code && code <= 57
}

fn is_sign_char(c: char) -> (r: bool)
    ensures
        r == is_sign(c),
{
    c == '+' || c == '-'
}

/// Finds the end of the run of digits that starts at `from`.
fn scan_digits(s: &Vec<char>, from: usize) -> (r: usize)
    requires
        from <= s.len(),
    ensures
        r == digits_end(s@, from as int),
        from <= r <= s.len(),
        forall|i: int| from <= i < r ==> is_digit(s[i]),
{
    let mut i: usize = from;
    while i < s.len() && is_digit_char(s[i])
        invariant
            from <= i <= s.len(),
            digits_end(s@, from as int) == digits_end(s@, i as int),
            forall|j: int| from <= j < i ==> is_digit(s[j]),
        decreases s.len() - i,
    {
        i += 1;
    }
    i
}

/// The bound at which the value of an exponent is capped while it is read: far
/// beyond any exponent that leaves the decimal point in range.
spec fn exponent_cap() -> int {
    100_000_000_000_000_000_000
}

spec fn capped(v: int) -> int {
    if v < exponent_cap() {
        v
    } else {
        exponent_cap()
    }
}

proof fn lemma_numeral_value_nonnegative(s: Seq<char>)
    ensures
        numeral_value(s) >= 0,
    decreases s.len(),
{
    if s.len() > 0 {
        lemma_numeral_value_nonnegative(s.drop_last());
    }
}

/// Reads the digits of `s` between `from` and `to` as a number in base ten,
/// capped at [`exponent_cap`].
fn read_capped(s: &Vec<char>, from: usize, to: usize) -> (r: i128)
    requires
        from <= to <= s.len(),
        forall|i: int| from <= i < to ==> is_digit(s[i]),
    ensures
        r == capped(numeral_value(s@.subrange(from as int, to as int))),
        0 <= r <= exponent_cap(),
{
    let mut acc: i128 = 0;
    let mut i: usize = from;
    while i < to
        invariant
            from <= i <= to <= s.len(),
            forall|j: int| from <= j < to ==> is_digit(s[j]),
            acc == capped(numeral_value(s@.subrange(from as int, i as int))),
            0 <= acc <= exponent_cap(),
        decreases to - i,
    {
        let c: char = s[i];
        let d: i128 = (c as u32 - 48) as i128;
        proof {
            let before = s@.subrange(from as int, i as int);
            let after = s@.subrange(from as int, i + 1);
            assert(after.drop_last() =~= before);
            assert(after.last() == c);
            lemma_numeral_value_nonnegative(before);
        }
        let next: i128 = acc * 10 + d;
        acc = if next < 100_000_000_000_000_000_000 { next } else { 100_000_000_000_000_000_000 };
        i += 1;
    }
    proof {
        assert(s@.subrange(from as int, from as int) =~= Seq::<char>::empty());
    }
    acc
}

/// Appends the values of the digits of `s` between `from` and `to` to `out`.
fn push_digits(out: &mut Vec<u8>, s: &Vec<char>, from: usize, to: usize)
    requires
        from <= to <= s.len(),
        forall|i: int| from <= i < to ==> is_digit(s[i]),
    ensures
        final(out)@ == old(out)@ + digit_values(s@.subrange(from as int, to as int)),
{
    let mut i: usize = from;
    while i < to
        invariant
            from <= i <= to <= s.len(),
            forall|j: int| from <= j < to ==> is_digit(s[j]),
            out@ == old(out)@ + digit_values(s@.subrange(from as int, i as int)),
        decreases to - i,
    {
        let c: char = s[i];
        out.push((c as u32 - 48) as u8);
        i += 1;
    }
}

/// Where the parts of a numeral lie in its text.
struct Spans {
    negative: bool,
    start: usize,
    whole_end: usize,
    fraction_start: usize,
    fraction_end: usize,
    exponent_negative: bool,
    exponent_start: usize,
    exponent_end: usize,
}

impl Spans {
    /// The parts that the spans cut out of `s`.
    spec fn numeral(self, s: Seq<char>) -> Numeral {
        Numeral {
            negative: self.negative,
            whole: s.subrange(self.start as int, self.whole_end as int),
            fraction: s.subrange(self.fraction_start as int, self.fraction_end as int),
            exponent_negative: self.exponent_negative,
            exponent: s.subrange(self.exponent_start as int, self.exponent_end as int),
        }
    }

    /// The spans lie in `s` in order, and hold digits only.
    spec fn fits(self, s: Seq<char>) -> bool {
        &&& self.start <= self.whole_end <= self.fraction_start <= self.fraction_end
            <= self.exponent_start <= self.exponent_end <= s.len()
        &&& forall|i: int| self.start <= i < self.whole_end ==> is_digit(s[i])
        &&& forall|i: int| self.fraction_start <= i < self.fraction_end ==> is_digit(s[i])
        &&& forall|i: int| self.exponent_start <= i < self.exponent_end ==> is_digit(s[i])
    }
}

/// Splits a text into the parts of a numeral.
fn find_spans(s: &Vec<char>) -> (r: Option<Spans>)
    ensures
        r is Some <==> numeral_of(s@) is Some,
        r matches Some(spans) ==> spans.fits(s@) && numeral_of(s@) == Some(spans.numeral(s@)),
{
    let n = s.len();
    let signed = n > 0 && is_sign_char(s[0]);
    let start: usize = if signed { 1 } else { 0 };
    let negative = n > 0 && s[0] == '-';
    let whole_end = scan_digits(s, start);
    let has_point = whole_end < n && s[whole_end] == '.';
    let fraction_start: usize = if has_point { whole_end + 1 } else { whole_end };
    let fraction_end = scan_digits(s, fraction_start);
    if whole_end - start == 0 && fraction_end - fraction_start == 0 {
        return None;
    }
    if fraction_end == n {
        proof {
            assert(s@.subrange(n as int, n as int) =~= Seq::<char>::empty());
        }
        return Some(
            Spans {
                negative,
                start,
                whole_end,
                fraction_start,
                fraction_end,
                exponent_negative: false,
                exponent_start: n,
                exponent_end: n,
            },
        );
    }
    if !(s[fraction_end] == 'e' || s[fraction_end] == 'E') {
        return None;
    }
    let exponent_signed = fraction_end + 1 < n && is_sign_char(s[fraction_end + 1]);
    let exponent_start: usize = if exponent_signed { fraction_end + 2 } else { fraction_end + 1 };
    let exponent_end = scan_digits(s, exponent_start);
    if !(exponent_end == n && exponent_start < exponent_end) {
        return None;
    }
    Some(
        Spans {
            negative,
            start,
            whole_end,
            fraction_start,
            fraction_end,
            exponent_negative: exponent_signed && s[fraction_end + 1] == '-',
            exponent_start,
            exponent_end,
        },
    )
}

impl Number {
    #[verifier::type_invariant]
    spec fn well_formed(self) -> bool {
        normal(self@)
    }

    /// The number zero.
    pub fn zero() -> (r: Number)
        ensures
            r@ == zero(),
            normal(r@),
    {
        Number { negative: false, digits: Vec::new(), point: 0 }
    }

    /// The normal form of `0.ds` times ten to the power `point`, negated where
    /// `negative` holds.
    fn build(negative: bool, ds: &Vec<u8>, point: i128) -> (r: Option<Number>)
        requires
            forall|i: int| 0 <= i < ds.len() ==> ds[i] <= 9,
            -exponent_cap() * 2 <= point <= exponent_cap() * 2,
        ensures
            r is Some <==> normalize(negative, ds@, point as int) is Some,
            r matches Some(n) ==> Some(n@) == normalize(negative, ds@, point as int) && normal(n@),
    {
        let mut first: usize = 0;
        while first < ds.len() && ds[first] == 0
            invariant
                first <= ds.len(),
                skip_zeros(ds@, 0) == skip_zeros(ds@, first as int),
            decreases ds.len() - first,
        {
            first += 1;
        }
        if first >= ds.len() {
            return Some(Number::zero());
        }
        let mut end: usize = ds.len();
        while end > 0 && ds[end - 1] == 0
            invariant
                first < end <= ds.len(),
                ds[first as int] != 0,
                cut_zeros(ds@, ds.len() as int) == cut_zeros(ds@, end as int),
            decreases end,
        {
            end -= 1;
        }
        let p: i128 = point - first as i128;
        if p < MIN_POINT as i128 || p > MAX_POINT as i128 {
            return None;
        }
        let mut digits: Vec<u8> = Vec::new();
        let mut i: usize = first;
        while i < end
            invariant
                first <= i <= end <= ds.len(),
                digits@ == ds@.subrange(first as int, i as int),
            decreases end - i,
        {
            digits.push(ds[i]);
            i += 1;
        }
        Some(Number { negative, digits, point: p as i64 })
    }

    /// Reads a numeral from its characters.
    pub fn parse_chars(s: &Vec<char>) -> (r: Option<Number>)
        ensures
            r is Some <==> decimal_of(s@) is Some,
            r matches Some(n) ==> Some(n@) == decimal_of(s@) && normal(n@),
    {
        let spans = match find_spans(s) {
            Some(spans) => spans,
            None => {
                return None;
            },
        };
        let magnitude = read_capped(s, spans.exponent_start, spans.exponent_end);
        let exponent: i128 = if spans.exponent_negative { -magnitude } else { magnitude };
        let mut ds: Vec<u8> = Vec::new();
        push_digits(&mut ds, s, spans.start, spans.whole_end);
        push_digits(&mut ds, s, spans.fraction_start, spans.fraction_end);
        proof {
            let n = spans.numeral(s@);
            assert(ds@ =~= digit_values(n.whole + n.fraction));
            lemma_numeral_value_nonnegative(n.exponent);
            lemma_capped_exponent(
                n.negative,
                ds@,
                n.whole.len() as int,
                numeral_value(n.exponent),
                n.exponent_negative,
            );
        }
        Number::build(spans.negative, &ds, (spans.whole_end - spans.start) as i128 + exponent)
    }

    /// Reads a numeral: an optional sign, digits with an optional point among
    /// them, and an optional exponent.
    pub fn parse(text: &str) -> (r: Option<Number>)
        ensures
            r is Some <==> decimal_of(text@) is Some,
            r matches Some(n) ==> Some(n@) == decimal_of(text@) && normal(n@),
    {
        let s = chars_of(text);
        Number::parse_chars(&s)
    }
}

/// Capping the exponent does not change the normal form: an exponent at or
/// beyond the cap leaves the decimal point out of range either way.
proof fn lemma_capped_exponent(negative: bool, ds: Seq<u8>, whole: int, e: int, minus: bool)
    requires
        0 <= whole <= ds.len() <= usize::MAX,
        0 <= e,
    ensures
        normalize(negative, ds, whole + (if minus { -e } else { e })) == normalize(
            negative,
            ds,
            whole + (if minus { -capped(e) } else { capped(e) }),
        ),
{
    lemma_skip_zeros_bounds(ds, 0);
}

proof fn lemma_skip_zeros_bounds(ds: Seq<u8>, from: int)
    requires
        0 <= from <= ds.len(),
    ensures
        from <= skip_zeros(ds, from) <= ds.len(),
    decreases ds.len() - from,
{
    if from < ds.len() && ds[from] == 0 {
        lemma_skip_zeros_bounds(ds, from + 1);
    }
}

/// Whether the digits of `a` from `from` on come before those of `b` in
/// dictionary order, a proper prefix coming first.
pub open spec fn digits_less(a: Seq<u8>, b: Seq<u8>, from: int) -> bool
    decreases a.len() - from,
{
    if from < 0 || from >= b.len() {
        false
    } else if from >= a.len() {
        true
    } else if a[from] != b[from] {
        a[from] < b[from]
    } else {
        digits_less(a, b, from + 1)
    }
}

/// Whether `a` is smaller than `b` in magnitude. Among numbers in normal form
/// zero is the smallest, then the place of the decimal point decides, then the
/// digits.
pub open spec fn magnitude_less(a: Decimal, b: Decimal) -> bool {
    if b.digits.len() == 0 {
        false
    } else if a.digits.len() == 0 {
        true
    } else if a.point != b.point {
        a.point < b.point
    } else {
        digits_less(a.digits, b.digits, 0)
    }
}

/// Whether `a` is smaller than `b`.
pub open spec fn less(a: Decimal, b: Decimal) -> bool {
    if a.negative != b.negative {
        a.negative
    } else if a.negative {
        magnitude_less(b, a)
    } else {
        magnitude_less(a, b)
    }
}

/// Whether `a` is smaller than `b` or equal to it.
pub open spec fn at_most(a: Decimal, b: Decimal) -> bool {
    less(a, b) || a == b
}

proof fn lemma_digits_irreflexive(a: Seq<u8>, from: int)
    ensures
        !digits_less(a, a, from),
    decreases a.len() - from,
{
    if 0 <= from < a.len() {
        lemma_digits_irreflexive(a, from + 1);
    }
}

proof fn lemma_digits_transitive(a: Seq<u8>, b: Seq<u8>, c: Seq<u8>, from: int)
    requires
        digits_less(a, b, from),
        digits_less(b, c, from),
    ensures
        digits_less(a, c, from),
    decreases a.len() - from,
{
    if 0 <= from < a.len() && a[from] == b[from] && b[from] == c[from] {
        lemma_digits_transitive(a, b, c, from + 1);
    }
}

proof fn lemma_digits_connected(a: Seq<u8>, b: Seq<u8>, from: int)
    requires
        0 <= from <= a.len(),
        from <= b.len(),
    ensures
        digits_less(a, b, from) || digits_less(b, a, from) || (a.len() == b.len() && forall|i: int|
            from <= i < a.len() ==> a[i] == b[i]),
    decreases a.len() - from,
{
    if from < a.len() && from < b.len() && a[from] == b[from] {
        lemma_digits_connected(a, b, from + 1);
    }
}

/// No number is smaller than itself.
pub proof fn lemma_less_irreflexive(a: Decimal)
    ensures
        !less(a, a),
{
    lemma_digits_irreflexive(a.digits, 0);
}

/// Where `a` is smaller than `b` and `b` is smaller than `c`, `a` is smaller
/// than `c`.
pub proof fn lemma_less_transitive(a: Decimal, b: Decimal, c: Decimal)
    requires
        normal(a),
        normal(b),
        normal(c),
        less(a, b),
        less(b, c),
    ensures
        less(a, c),
{
    if !a.negative && !b.negative && !c.negative {
        if a.digits.len() > 0 && a.point == b.point && b.point == c.point {
            lemma_digits_transitive(a.digits, b.digits, c.digits, 0);
        }
    }
    if a.negative && b.negative && c.negative {
        if c.digits.len() > 0 && a.point == b.point && b.point == c.point {
            lemma_digits_transitive(c.digits, b.digits, a.digits, 0);
        }
    }
}

/// Of two numbers, one is smaller than the other, or they are the same.
pub proof fn lemma_less_connected(a: Decimal, b: Decimal)
    requires
        normal(a),
        normal(b),
    ensures
        less(a, b) || less(b, a) || a == b,
{
    if a.negative == b.negative {
        if a.digits.len() == 0 && b.digits.len() == 0 {
            assert(a.digits =~= b.digits);
        } else if a.digits.len() > 0 && b.digits.len() > 0 && a.point == b.point {
            lemma_digits_connected(a.digits, b.digits, 0);
            if !digits_less(a.digits, b.digits, 0) && !digits_less(b.digits, a.digits, 0) {
                assert(a.digits =~= b.digits);
            }
        }
    }
}

/// The digits of a natural number in base ten, the first digit first; none for
/// zero.
pub open spec fn base_ten(n: nat) -> Seq<u8>
    decreases n,
{
    if n == 0 {
        Seq::empty()
    } else {
        base_ten(n / 10).push((n % 10) as u8)
    }
}

/// The decimal of a natural number.
pub open spec fn natural(n: nat) -> Decimal {
    match normalize(false, base_ten(n), base_ten(n).len() as int) {
        Some(d) => d,
        None => zero(),
    }
}

/// A run of `n` zero characters.
pub open spec fn zeros(n: int) -> Seq<char> {
    Seq::new(
        if n > 0 {
            n as nat
        } else {
            0
        },
        |i: int| '0',
    )
}

/// The plain decimal text of a number: its digits with the point among them,
/// zeros filled in where the point lies outside the digits, no exponent.
pub open spec fn decimal_text(d: Decimal) -> Seq<char> {
    let sign = if d.negative { seq!['-'] } else { Seq::<char>::empty() };
    if d.digits.len() == 0 {
        seq!['0']
    } else if d.point <= 0 {
        sign + seq!['0', '.'] + zeros(-d.point) + digit_chars(d.digits)
    } else if d.point >= d.digits.len() {
        sign + digit_chars(d.digits) + zeros(d.point - d.digits.len())
    } else {
        sign + digit_chars(d.digits.subrange(0, d.point)) + seq!['.'] + digit_chars(
            d.digits.subrange(d.point, d.digits.len() as int),
        )
    }
}

fn digits_come_before(a: &Vec<u8>, b: &Vec<u8>) -> (r: bool)
    ensures
        r == digits_less(a@, b@, 0),
{
    let mut i: usize = 0;
    while i < a.len() && i < b.len() && a[i] == b[i]
        invariant
            i <= a.len(),
            i <= b.len(),
            digits_less(a@, b@, 0) == digits_less(a@, b@, i as int),
        decreases a.len() - i,
    {
        i += 1;
    }
    if i >= b.len() {
        false
    } else if i >= a.len() {
        true
    } else {
        a[i] < b[i]
    }
}

fn same_digits(a: &Vec<u8>, b: &Vec<u8>) -> (r: bool)
    ensures
        r == (a@ == b@),
{
    if a.len() != b.len() {
        return false;
    }
    let mut i: usize = 0;
    while i < a.len()
        invariant
            i <= a.len(),
            a.len() == b.len(),
            forall|j: int| 0 <= j < i ==> a[j] == b[j],
        decreases a.len() - i,
    {
        if a[i] != b[i] {
            return false;
        }
        i += 1;
    }
    proof {
        assert(a@ =~= b@);
    }
    true
}

fn push_zeros(out: &mut Vec<char>, count: usize)
    ensures
        final(out)@ == old(out)@ + zeros(count as int),
{
    let mut i: usize = 0;
    while i < count
        invariant
            i <= count,
            out@ == old(out)@ + zeros(i as int),
        decreases count - i,
    {
        out.push('0');
        proof {
            assert(old(out)@ + zeros(i as int + 1) =~= (old(out)@ + zeros(i as int)).push('0'));
        }
        i += 1;
    }
    proof {
        assert(old(out)@ + zeros(0) =~= old(out)@);
    }
}

fn push_digit_chars(out: &mut Vec<char>, ds: &Vec<u8>, from: usize, to: usize)
    requires
        from <= to <= ds.len(),
        forall|i: int| 0 <= i < ds.len() ==> ds[i] <= 9,
    ensures
        final(out)@ == old(out)@ + digit_chars(ds@.subrange(from as int, to as int)),
{
    let mut i: usize = from;
    while i < to
        invariant
            from <= i <= to <= ds.len(),
            forall|j: int| 0 <= j < ds.len() ==> ds[j] <= 9,
            out@ == old(out)@ + digit_chars(ds@.subrange(from as int, i as int)),
        decreases to - i,
    {
        let d: u8 = ds[i];
        out.push((d + 48) as char);
        proof {
            assert(old(out)@ + digit_chars(ds@.subrange(from as int, i as int + 1)) =~= (old(out)@
                + digit_chars(ds@.subrange(from as int, i as int))).push(char_of_digit(d)));
        }
        i += 1;
    }
    proof {
        assert(old(out)@ + digit_chars(ds@.subrange(from as int, from as int)) =~= old(out)@);
    }
}

impl Number {
    /// Whether this number is smaller than the other.
    pub fn less_than(&self, other: &Number) -> (r: bool)
        ensures
            r == less(self@, other@),
    {
        if self.negative != other.negative {
            self.negative
        } else if self.negative {
            Number::smaller_magnitude(other, self)
        } else {
            Number::smaller_magnitude(self, other)
        }
    }

    /// Whether this number is smaller than the other or equal to it.
    pub fn at_most(&self, other: &Number) -> (r: bool)
        ensures
            r == at_most(self@, other@),
    {
        self.less_than(other) || self.same(other)
    }

    fn smaller_magnitude(a: &Number, b: &Number) -> (r: bool)
        ensures
            r == magnitude_less(a@, b@),
    {
        if b.digits.len() == 0 {
            false
        } else if a.digits.len() == 0 {
            true
        } else if a.point != b.point {
            a.point < b.point
        } else {
            digits_come_before(&a.digits, &b.digits)
        }
    }

    /// Whether the two numbers are equal.
    pub fn same(&self, other: &Number) -> (r: bool)
        ensures
            r == (self@ == other@),
    {
        self.negative == other.negative && self.point == other.point && same_digits(
            &self.digits,
            &other.digits,
        )
    }

    /// Whether the number is zero.
    pub fn is_zero(&self) -> (r: bool)
        ensures
            r == (self@ == zero()),
    {
        proof {
            use_type_invariant(self);
            if self.digits.len() == 0 {
                assert(self@.digits =~= zero().digits);
            }
        }
        self.digits.len() == 0
    }

    /// The number of a natural number.
    pub fn from_u64(n: u64) -> (r: Number)
        ensures
            r@ == natural(n as nat),
            normal(r@),
    {
        let mut reversed: Vec<u8> = Vec::new();
        let mut m: u64 = n;
        while m > 0
            invariant
                base_ten(n as nat) == base_ten(m as nat) + reversed@.reverse(),
                forall|i: int| 0 <= i < reversed.len() ==> reversed[i] <= 9,
            decreases m,
        {
            let d: u8 = (m % 10) as u8;
            proof {
                let next = reversed@.push(d);
                assert(next.reverse() =~= seq![d] + reversed@.reverse());
                assert(base_ten(m as nat) == base_ten((m / 10) as nat).push(d));
                assert(base_ten((m / 10) as nat).push(d) + reversed@.reverse() =~= base_ten(
                    (m / 10) as nat,
                ) + next.reverse());
            }
            reversed.push(d);
            m = m / 10;
        }
        let mut ds: Vec<u8> = Vec::new();
        let mut i: usize = reversed.len();
        while i > 0
            invariant
                i <= reversed.len(),
                ds@ == reversed@.reverse().subrange(0, reversed.len() - i),
            decreases i,
        {
            i -= 1;
            ds.push(reversed[i]);
            proof {
                assert(reversed@.reverse().subrange(0, reversed.len() - i) =~= reversed@.reverse().subrange(
                    0,
                    reversed.len() - i - 1,
                ).push(reversed[i as int]));
            }
        }
        proof {
            assert(ds@ =~= reversed@.reverse());
            assert(base_ten(0) + reversed@.reverse() =~= reversed@.reverse());
        }
        match Number::build(false, &ds, ds.len() as i128) {
            Some(number) => number,
            None => Number::zero(),
        }
    }

    /// The plain decimal text of the number.
    pub fn to_text(&self) -> (r: String)
        ensures
            r@ == decimal_text(self@),
    {
        proof {
            use_type_invariant(self);
        }
        let mut out: Vec<char> = Vec::new();
        let len = self.digits.len();
        if len == 0 {
            out.push('0');
            proof {
                assert(out@ =~= seq!['0']);
            }
            return string_of(&out);
        }
        if self.negative {
            out.push('-');
        }
        let ghost sign = out@;
        if self.point <= 0 {
            out.push('0');
            out.push('.');
            push_zeros(&mut out, (-self.point) as usize);
            push_digit_chars(&mut out, &self.digits, 0, len);
            proof {
                assert(self.digits@.subrange(0, len as int) =~= self.digits@);
                assert(out@ =~= sign + seq!['0', '.'] + zeros(-self.point) + digit_chars(
                    self.digits@,
                ));
            }
        } else if self.point as u64 >= len as u64 {
            push_digit_chars(&mut out, &self.digits, 0, len);
            push_zeros(&mut out, self.point as usize - len);
            proof {
                assert(self.digits@.subrange(0, len as int) =~= self.digits@);
            }
        } else {
            let point: usize = self.point as usize;
            push_digit_chars(&mut out, &self.digits, 0, point);
            out.push('.');
            push_digit_chars(&mut out, &self.digits, point, len);
            proof {
                assert(out@ =~= sign + digit_chars(self.digits@.subrange(0, point as int)) + seq![
                    '.',
                ] + digit_chars(self.digits@.subrange(point as int, len as int)));
            }
        }
        string_of(&out)
    }

    /// Reads a whole numeral: an optional sign and at least one digit.
    pub fn parse_whole(text: &str) -> (r: Option<Number>)
        ensures
            r is Some <==> is_whole_numeral(text@) && decimal_of(text@) is Some,
            r matches Some(n) ==> Some(n@) == decimal_of(text@) && normal(n@),
    {
        let s = chars_of(text);
        let start: usize = if s.len() > 0 && is_sign_char(s[0]) { 1 } else { 0 };
        if start < s.len() && scan_digits(&s, start) == s.len() {
            Number::parse_chars(&s)
        } else {
            None
        }
    }
}

impl Clone for Number {
    fn clone(&self) -> (r: Number)
        ensures
            r@ == self@,
            normal(r@),
    {
        proof {
            use_type_invariant(self);
        }
        let mut digits: Vec<u8> = Vec::new();
        let mut i: usize = 0;
        while i < self.digits.len()
            invariant
                i <= self.digits.len(),
                digits@ == self.digits@.subrange(0, i as int),
            decreases self.digits.len() - i,
        {
            digits.push(self.digits[i]);
            i += 1;
        }
        proof {
            assert(digits@ =~= self.digits@);
        }
        Number { negative: self.negative, digits, point: self.point }
    }
}

impl PartialEq for Number {
    fn eq(&self, other: &Number) -> (r: bool) {
        self.same(other)
    }
}

impl vstd::std_specs::cmp::PartialEqSpecImpl for Number {
    open spec fn obeys_eq_spec() -> bool {
        true
    }

    open spec fn eq_spec(&self, other: &Number) -> bool {
        self@ == other@
    }
}

} // verus!
