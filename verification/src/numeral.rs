//! Writing a number and reading it again gives the same number.
use crate::number::{
    char_of_digit, cut_zeros, decimal_of, decimal_text, digit_chars, digit_of, digit_values,
    digits_end, is_digit, is_sign, normal, normalize, numeral_decimal, numeral_of, numeral_value,
    skip_zeros, zero, zeros, Decimal, Numeral,
};
use vstd::prelude::*;

verus! {

proof fn lemma_digit_char(d: u8)
    requires
        d <= 9,
    ensures
        is_digit(char_of_digit(d)),
        digit_of(char_of_digit(d)) == d,
        !is_sign(char_of_digit(d)),
        char_of_digit(d) != '.',
        char_of_digit(0) == '0',
{
}

/// A run of digits ends where the digits end.
proof fn lemma_digits_run(s: Seq<char>, from: int, to: int)
    requires
        0 <= from <= to <= s.len(),
        forall|i: int| from <= i < to ==> is_digit(s[i]),
        to == s.len() || !is_digit(s[to]),
    ensures
        digits_end(s, from) == to,
    decreases to - from,
{
    if from < to {
        lemma_digits_run(s, from + 1, to);
    }
}

/// A run of zeros ends where the zeros end.
proof fn lemma_zeros_run(ds: Seq<u8>, from: int, to: int)
    requires
        0 <= from <= to <= ds.len(),
        forall|i: int| from <= i < to ==> ds[i] == 0,
        to == ds.len() || ds[to] != 0,
    ensures
        skip_zeros(ds, from) == to,
    decreases to - from,
{
    if from < to {
        lemma_zeros_run(ds, from + 1, to);
    }
}

/// The zeros before a position are cut back to where they start.
proof fn lemma_zeros_cut(ds: Seq<u8>, from: int, to: int)
    requires
        0 <= from <= to <= ds.len(),
        forall|i: int| from <= i < to ==> ds[i] == 0,
        from == 0 || ds[from - 1] != 0,
    ensures
        cut_zeros(ds, to) == from,
    decreases to - from,
{
    if from < to {
        lemma_zeros_cut(ds, from, to - 1);
    }
}

/// A run of `n` zeros.
spec fn nulls(n: int) -> Seq<u8> {
    Seq::new(
        if n > 0 {
            n as nat
        } else {
            0
        },
        |i: int| 0u8,
    )
}

/// Zeros before and after the digits of a number in normal form fall away
/// when the normal form is taken.
proof fn lemma_normalize_padded(d: Decimal, lead: int, trail: int)
    requires
        normal(d),
        d.digits.len() > 0,
        lead >= 0,
        trail >= 0,
    ensures
        normalize(d.negative, nulls(lead) + d.digits + nulls(trail), d.point + lead) == Some(d),
{
    let n = d.digits.len() as int;
    let ds = nulls(lead) + d.digits + nulls(trail);
    assert(ds.len() == lead + n + trail);
    assert forall|i: int| 0 <= i < lead implies ds[i] == 0 by {
        assert(ds[i] == nulls(lead)[i]);
    }
    assert forall|i: int| lead + n <= i < ds.len() implies ds[i] == 0 by {
        assert(ds[i] == nulls(trail)[i - lead - n]);
    }
    assert(ds[lead] == d.digits[0]);
    assert(ds[lead + n - 1] == d.digits[n - 1]);
    lemma_zeros_run(ds, 0, lead);
    lemma_zeros_cut(ds, lead + n, ds.len() as int);
    assert(ds.subrange(lead, lead + n) =~= d.digits);
}

/// The values of zeros, digits and zeros written out are those zeros, digits
/// and zeros.
proof fn lemma_values_of_padded(ds: Seq<u8>, lead: int, trail: int)
    requires
        forall|i: int| 0 <= i < ds.len() ==> ds[i] <= 9,
        lead >= 0,
        trail >= 0,
    ensures
        digit_values(zeros(lead) + digit_chars(ds) + zeros(trail)) == nulls(lead) + ds + nulls(
            trail,
        ),
{
    let text = zeros(lead) + digit_chars(ds) + zeros(trail);
    let values = nulls(lead) + ds + nulls(trail);
    lemma_digit_char(0);
    assert(text.len() == values.len());
    assert forall|i: int| 0 <= i < text.len() implies digit_values(text)[i] == values[i] by {
        if i < lead {
            assert(text[i] == zeros(lead)[i]);
            assert(values[i] == nulls(lead)[i]);
        } else if i < lead + ds.len() {
            assert(text[i] == digit_chars(ds)[i - lead]);
            assert(values[i] == ds[i - lead]);
            lemma_digit_char(ds[i - lead]);
        } else {
            assert(text[i] == zeros(trail)[i - lead - ds.len()]);
            assert(values[i] == nulls(trail)[i - lead - ds.len()]);
        }
    }
    assert(digit_values(text) =~= values);
}

/// The characters of the text of a number, and what they are.
proof fn lemma_digit_chars(ds: Seq<u8>)
    requires
        forall|i: int| 0 <= i < ds.len() ==> ds[i] <= 9,
    ensures
        forall|i: int|
            0 <= i < ds.len() ==> is_digit(#[trigger] digit_chars(ds)[i]) && !is_sign(
                digit_chars(ds)[i],
            ) && digit_chars(ds)[i] != '.',
{
    assert forall|i: int| 0 <= i < ds.len() implies is_digit(#[trigger] digit_chars(ds)[i])
        && !is_sign(digit_chars(ds)[i]) && digit_chars(ds)[i] != '.' by {
        lemma_digit_char(ds[i]);
    }
}

/// The numeral without exponent that has the given parts.
spec fn plain_numeral(negative: bool, whole: Seq<char>, fraction: Seq<char>) -> Numeral {
    Numeral { negative, whole, fraction, exponent_negative: false, exponent: Seq::empty() }
}

/// The sign of the text of a number.
spec fn sign_of(d: Decimal) -> Seq<char> {
    if d.negative {
        seq!['-']
    } else {
        Seq::empty()
    }
}

/// The text of a number below one is read as a zero, a point, and the zeros
/// and digits after it.
proof fn lemma_read_small(d: Decimal)
    requires
        normal(d),
        d.digits.len() > 0,
        d.point <= 0,
    ensures
        numeral_of(decimal_text(d)) == Some(
            plain_numeral(d.negative, zeros(1), zeros(-d.point) + digit_chars(d.digits)),
        ),
{
    let s = decimal_text(d);
    let dc = digit_chars(d.digits);
    let n = d.digits.len() as int;
    let k = -d.point;
    let filler = zeros(k);
    let start = sign_of(d).len() as int;
    lemma_digit_chars(d.digits);
    lemma_digit_char(0);
    assert(s =~= sign_of(d) + seq!['0', '.'] + filler + dc);
    assert(s.len() == start + 2 + k + n);
    assert(s[start] == '0');
    assert(s[start + 1] == '.');
    assert forall|i: int| start + 2 <= i < s.len() implies is_digit(s[i]) by {
        if i < start + 2 + k {
            assert(s[i] == filler[i - start - 2]);
        } else {
            assert(s[i] == dc[i - start - 2 - k]);
        }
    }
    lemma_digits_run(s, start, start + 1);
    lemma_digits_run(s, start + 2, s.len() as int);
    assert(s.subrange(start, start + 1) =~= zeros(1));
    assert(s.subrange(start + 2, s.len() as int) =~= filler + dc);
}

/// The text of a whole number is read as its digits and the zeros after
/// them.
proof fn lemma_read_large(d: Decimal)
    requires
        normal(d),
        d.digits.len() > 0,
        d.point >= d.digits.len(),
    ensures
        numeral_of(decimal_text(d)) == Some(
            plain_numeral(
                d.negative,
                digit_chars(d.digits) + zeros(d.point - d.digits.len()),
                Seq::empty(),
            ),
        ),
{
    let s = decimal_text(d);
    let dc = digit_chars(d.digits);
    let n = d.digits.len() as int;
    let m = d.point - n;
    let filler = zeros(m);
    let start = sign_of(d).len() as int;
    lemma_digit_chars(d.digits);
    lemma_digit_char(0);
    assert(s =~= sign_of(d) + dc + filler);
    assert(s.len() == start + n + m);
    assert forall|i: int| start <= i < s.len() implies is_digit(s[i]) by {
        if i < start + n {
            assert(s[i] == dc[i - start]);
        } else {
            assert(s[i] == filler[i - start - n]);
        }
    }
    assert(s[start] == dc[0]);
    lemma_digits_run(s, start, s.len() as int);
    lemma_digits_run(s, s.len() as int, s.len() as int);
    assert(s.subrange(start, s.len() as int) =~= dc + filler);
    assert(s.subrange(s.len() as int, s.len() as int) =~= Seq::<char>::empty());
}

/// The text of a number with digits on both sides of the point is read as
/// those digits.
proof fn lemma_read_middle(d: Decimal)
    requires
        normal(d),
        0 < d.point < d.digits.len(),
    ensures
        numeral_of(decimal_text(d)) == Some(
            plain_numeral(
                d.negative,
                digit_chars(d.digits.subrange(0, d.point)),
                digit_chars(d.digits.subrange(d.point, d.digits.len() as int)),
            ),
        ),
{
    let s = decimal_text(d);
    let dc = digit_chars(d.digits);
    let n = d.digits.len() as int;
    let front = digit_chars(d.digits.subrange(0, d.point));
    let back = digit_chars(d.digits.subrange(d.point, n));
    let start = sign_of(d).len() as int;
    lemma_digit_chars(d.digits);
    assert(s =~= sign_of(d) + front + seq!['.'] + back);
    assert(s.len() == start + n + 1);
    assert forall|i: int| start <= i < start + d.point implies is_digit(s[i]) by {
        assert(s[i] == dc[i - start]);
    }
    assert forall|i: int| start + d.point + 1 <= i < s.len() implies is_digit(s[i]) by {
        assert(s[i] == dc[i - start - 1]);
    }
    assert(s[start + d.point] == '.');
    assert(s[start] == dc[0]);
    lemma_digits_run(s, start, start + d.point);
    lemma_digits_run(s, start + d.point + 1, s.len() as int);
    assert(s.subrange(start, start + d.point) =~= front);
    assert(s.subrange(start + d.point + 1, s.len() as int) =~= back);
}

/// The text of zero is read as zero.
proof fn lemma_read_zero()
    ensures
        decimal_of(decimal_text(zero())) == Some(zero()),
{
    let s = decimal_text(zero());
    lemma_digit_char(0);
    assert(s =~= seq!['0']);
    lemma_digits_run(s, 0, 1);
    lemma_digits_run(s, 1, 1);
    let read = numeral_of(s)->0;
    assert(read.whole =~= seq!['0']);
    assert(read.fraction =~= Seq::<char>::empty());
    let ds = digit_values(read.whole + read.fraction);
    assert(ds =~= seq![0u8]);
    lemma_zeros_run(ds, 0, 1);
    assert(numeral_value(Seq::<char>::empty()) == 0);
}

/// A numeral without exponent whose digits are zeros, the digits of a
/// number, and zeros denotes that number.
proof fn lemma_denotes(d: Decimal, whole: Seq<char>, fraction: Seq<char>, lead: int, trail: int)
    requires
        normal(d),
        d.digits.len() > 0,
        lead >= 0,
        trail >= 0,
        whole + fraction == zeros(lead) + digit_chars(d.digits) + zeros(trail),
        whole.len() == d.point + lead,
    ensures
        numeral_decimal(plain_numeral(d.negative, whole, fraction)) == Some(d),
{
    assert(numeral_value(Seq::<char>::empty()) == 0);
    lemma_values_of_padded(d.digits, lead, trail);
    lemma_normalize_padded(d, lead, trail);
}

/// The text of a number is a numeral, and the numeral denotes the number.
pub proof fn lemma_text_is_read_back(d: Decimal)
    requires
        normal(d),
    ensures
        decimal_of(decimal_text(d)) == Some(d),
{
    let n = d.digits.len() as int;
    let dc = digit_chars(d.digits);
    if n == 0 {
        assert(d.digits =~= zero().digits);
        lemma_read_zero();
    } else if d.point <= 0 {
        lemma_read_small(d);
        let whole = zeros(1);
        let fraction = zeros(-d.point) + dc;
        assert(whole + fraction =~= zeros(1 - d.point) + dc + zeros(0));
        lemma_denotes(d, whole, fraction, 1 - d.point, 0);
    } else if d.point >= n {
        lemma_read_large(d);
        let whole = dc + zeros(d.point - n);
        let fraction = Seq::<char>::empty();
        assert(whole + fraction =~= zeros(0) + dc + zeros(d.point - n));
        lemma_denotes(d, whole, fraction, 0, d.point - n);
    } else {
        lemma_read_middle(d);
        let whole = digit_chars(d.digits.subrange(0, d.point));
        let fraction = digit_chars(d.digits.subrange(d.point, n));
        assert(whole + fraction =~= zeros(0) + dc + zeros(0));
        lemma_denotes(d, whole, fraction, 0, 0);
    }
}

} // verus!
