//! The numbers that decimals stand for.
//!
//! A decimal with the digits `d1 ... dn` and the decimal point at `point`
//! stands for the number `d1 ... dn` times ten to the power `point - n`. To
//! stay within the integers, the magnitude of a decimal is taken at a number
//! of places: its magnitude times ten to the power of the places, where the
//! places are enough for the result to be whole. The laws of this module show
//! that the order and the equality of decimals in normal form are those of the
//! numbers they stand for, and that reading a numeral gives the number that
//! its digits and its exponent denote.
use crate::number::{
    base_ten, cut_zeros, digit_values, digits_less, is_digit, lemma_less_connected,
    lemma_less_irreflexive, less, magnitude_less, natural, normal,
    normalize, numeral_decimal, numeral_value, skip_zeros, Decimal, Numeral,
};
use vstd::arithmetic::power::{
    lemma_pow0, lemma_pow1, lemma_pow_adds, lemma_pow_increases, lemma_pow_positive, pow,
};
use vstd::prelude::*;

verus! {

/// Ten to the power `e`, and one where `e` is negative.
pub open spec fn ten_to(e: int) -> int {
    pow(
        10,
        if e >= 0 {
            e as nat
        } else {
            0
        },
    )
}

/// The number that a run of digits denotes in base ten.
pub open spec fn digits_value(ds: Seq<u8>) -> int
    decreases ds.len(),
{
    if ds.len() == 0 {
        0
    } else {
        digits_value(ds.drop_last()) * 10 + ds.last()
    }
}

/// The number of digits of a decimal that stand after its decimal point.
pub open spec fn places(d: Decimal) -> int {
    d.digits.len() - d.point
}

/// The magnitude of a decimal times ten to the power `p`, where `p` is at
/// least the [`places`] of the decimal.
pub open spec fn magnitude_at(d: Decimal, p: int) -> int {
    digits_value(d.digits) * ten_to(p - places(d))
}

/// The number that a decimal stands for times ten to the power `p`, where `p`
/// is at least the [`places`] of the decimal.
pub open spec fn value_at(d: Decimal, p: int) -> int {
    if d.negative {
        -magnitude_at(d, p)
    } else {
        magnitude_at(d, p)
    }
}

/// Whether every digit is at most nine.
pub open spec fn all_digits(ds: Seq<u8>) -> bool {
    forall|i: int| 0 <= i < ds.len() ==> ds[i] <= 9
}

proof fn lemma_ten_to_positive(e: int)
    ensures
        ten_to(e) >= 1,
{
    lemma_pow_positive(10, if e >= 0 { e as nat } else { 0 });
}

proof fn lemma_ten_to_add(a: int, b: int)
    requires
        a >= 0,
        b >= 0,
    ensures
        ten_to(a + b) == ten_to(a) * ten_to(b),
{
    lemma_pow_adds(10, a as nat, b as nat);
}

proof fn lemma_ten_to_step(e: int)
    requires
        e >= 0,
    ensures
        ten_to(e + 1) == 10 * ten_to(e),
        ten_to(0) == 1,
{
    lemma_pow_adds(10, 1, e as nat);
    lemma_pow1(10);
    lemma_pow0(10);
}

proof fn lemma_ten_to_increases(a: int, b: int)
    requires
        0 <= a <= b,
    ensures
        ten_to(a) <= ten_to(b),
{
    lemma_pow_increases(10, a as nat, b as nat);
}

proof fn lemma_value_bound(ds: Seq<u8>)
    requires
        all_digits(ds),
    ensures
        0 <= digits_value(ds) < ten_to(ds.len() as int),
    decreases ds.len(),
{
    if ds.len() == 0 {
        lemma_ten_to_step(0);
    } else {
        lemma_value_bound(ds.drop_last());
        lemma_ten_to_step(ds.len() - 1);
    }
}

proof fn lemma_value_lower(ds: Seq<u8>)
    requires
        all_digits(ds),
        ds.len() > 0,
        ds[0] != 0,
    ensures
        digits_value(ds) >= ten_to(ds.len() - 1),
    decreases ds.len(),
{
    if ds.len() == 1 {
        assert(ds.drop_last().len() == 0);
        assert(digits_value(ds.drop_last()) == 0);
        lemma_ten_to_step(0);
    } else {
        lemma_value_lower(ds.drop_last());
        lemma_ten_to_step(ds.len() - 2);
    }
}

proof fn lemma_value_last(ds: Seq<u8>)
    requires
        all_digits(ds),
        ds.len() > 0,
        ds.last() != 0,
    ensures
        digits_value(ds) >= 1,
{
    lemma_value_bound(ds.drop_last());
}

/// The value of a run of digits is that of its first `k` digits, shifted by
/// the rest, and that of the rest.
proof fn lemma_value_split(ds: Seq<u8>, k: int)
    requires
        0 <= k <= ds.len(),
    ensures
        digits_value(ds) == digits_value(ds.take(k)) * ten_to(ds.len() - k) + digits_value(
            ds.skip(k),
        ),
    decreases ds.len(),
{
    if k == ds.len() {
        assert(ds.take(k) =~= ds);
        assert(ds.skip(k).len() == 0);
        lemma_ten_to_step(0);
    } else {
        let front = ds.drop_last();
        lemma_value_split(front, k);
        assert(front.take(k) =~= ds.take(k));
        assert(ds.skip(k).drop_last() =~= front.skip(k));
        assert(ds.skip(k).last() == ds.last());
        lemma_ten_to_step(ds.len() - 1 - k);
        let head = digits_value(ds.take(k));
        let unit = ten_to(ds.len() - 1 - k);
        let tail = digits_value(front.skip(k));
        assert((head * unit + tail) * 10 == head * (10 * unit) + tail * 10) by (nonlinear_arith);
    }
}

/// Of two runs of digits that agree before position `from`, the one that
/// comes first in dictionary order from there on is the smaller once both are
/// filled up with zeros to `width` digits. The second run must not end in
/// zero.
proof fn lemma_padded_less(a: Seq<u8>, b: Seq<u8>, from: int, width: int)
    requires
        all_digits(a),
        all_digits(b),
        0 <= from <= a.len(),
        from <= b.len(),
        a.take(from) == b.take(from),
        digits_less(a, b, from),
        b.len() > 0 ==> b.last() != 0,
        width >= a.len(),
        width >= b.len(),
    ensures
        digits_value(a) * ten_to(width - a.len()) < digits_value(b) * ten_to(width - b.len()),
    decreases a.len() - from,
{
    let la = a.len() as int;
    let lb = b.len() as int;
    if from >= la {
        assert(a =~= b.take(la)) by {
            assert(a.take(la) =~= a);
        }
        lemma_value_split(b, la);
        let rest = b.skip(la);
        assert(rest.last() == b.last());
        lemma_value_last(rest);
        lemma_value_bound(a);
        lemma_ten_to_add(lb - la, width - lb);
        lemma_ten_to_positive(width - lb);
        let va = digits_value(a);
        let shift = ten_to(lb - la);
        let pad = ten_to(width - lb);
        let r = digits_value(rest);
        assert(va * (shift * pad) < (va * shift + r) * pad) by (nonlinear_arith)
            requires
                r >= 1,
                pad >= 1,
        ;
    } else if a[from] != b[from] {
        lemma_value_split(a, from + 1);
        lemma_value_split(b, from + 1);
        lemma_value_bound(a.skip(from + 1));
        lemma_value_bound(b.skip(from + 1));
        lemma_value_bound(a.take(from + 1));
        lemma_value_bound(b.take(from + 1));
        assert(a.take(from + 1).drop_last() =~= a.take(from));
        assert(b.take(from + 1).drop_last() =~= b.take(from));
        let ha = digits_value(a.take(from + 1));
        let hb = digits_value(b.take(from + 1));
        assert(ha + 1 <= hb);
        lemma_ten_to_add(la - from - 1, width - la);
        lemma_ten_to_add(lb - from - 1, width - lb);
        lemma_ten_to_positive(width - la);
        lemma_ten_to_positive(width - lb);
        let ua = ten_to(la - from - 1);
        let pa = ten_to(width - la);
        let ub = ten_to(lb - from - 1);
        let pb = ten_to(width - lb);
        let ra = digits_value(a.skip(from + 1));
        let rb = digits_value(b.skip(from + 1));
        let unit = ten_to(width - from - 1);
        assert(unit == ua * pa);
        assert(unit == ub * pb);
        assert((ha * ua + ra) * pa < (ha + 1) * (ua * pa)) by (nonlinear_arith)
            requires
                ra < ua,
                pa >= 1,
        ;
        lemma_ten_to_positive(width - from - 1);
        assert((ha + 1) * unit <= hb * unit) by (nonlinear_arith)
            requires
                ha + 1 <= hb,
                unit >= 0,
        ;
        assert(hb * (ub * pb) <= (hb * ub + rb) * pb) by (nonlinear_arith)
            requires
                rb >= 0,
                pb >= 1,
        ;
    } else {
        assert(a.take(from + 1) =~= b.take(from + 1)) by {
            assert forall|i: int| 0 <= i < from + 1 implies #[trigger] a.take(from + 1)[i]
                == b.take(from + 1)[i] by {
                if i < from {
                    assert(a.take(from)[i] == b.take(from)[i]);
                }
            }
        }
        lemma_padded_less(a, b, from + 1, width);
    }
}

/// A decimal in normal form that is smaller in magnitude stands for the
/// smaller magnitude.
proof fn lemma_magnitude_less(a: Decimal, b: Decimal, p: int)
    requires
        normal(a),
        normal(b),
        p >= places(a),
        p >= places(b),
        magnitude_less(a, b),
    ensures
        magnitude_at(a, p) < magnitude_at(b, p),
{
    let la = a.digits.len() as int;
    let lb = b.digits.len() as int;
    lemma_value_bound(a.digits);
    lemma_value_bound(b.digits);
    lemma_ten_to_positive(p - places(a));
    lemma_ten_to_positive(p - places(b));
    let va = digits_value(a.digits);
    let vb = digits_value(b.digits);
    let ta = ten_to(p - places(a));
    let tb = ten_to(p - places(b));
    lemma_value_lower(b.digits);
    lemma_ten_to_positive(lb - 1);
    if la == 0 {
        assert(va * ta < vb * tb) by (nonlinear_arith)
            requires
                va == 0,
                vb >= 1,
                tb >= 1,
        ;
    } else if a.point != b.point {
        // a is below ten to the power of its point, b is at least ten to the
        // power of its point less one
        lemma_ten_to_add(la, p - places(a));
        lemma_ten_to_add(lb - 1, p - places(b));
        lemma_ten_to_increases(p + a.point, p + b.point - 1);
        let top = ten_to(la);
        let bottom = ten_to(lb - 1);
        assert(va * ta < top * ta) by (nonlinear_arith)
            requires
                va < top,
                ta >= 1,
        ;
        assert(bottom * tb <= vb * tb) by (nonlinear_arith)
            requires
                bottom <= vb,
                tb >= 1,
        ;
    } else {
        let width = p + a.point;
        assert(a.digits.take(0) =~= b.digits.take(0));
        lemma_padded_less(a.digits, b.digits, 0, width);
    }
}

/// Numbers in normal form are in the order of the numbers that they stand
/// for.
pub proof fn lemma_less_is_numeric(a: Decimal, b: Decimal, p: int)
    requires
        normal(a),
        normal(b),
        p >= places(a),
        p >= places(b),
    ensures
        less(a, b) <==> value_at(a, p) < value_at(b, p),
        a == b <==> value_at(a, p) == value_at(b, p),
{
    lemma_value_bound(a.digits);
    lemma_value_bound(b.digits);
    lemma_ten_to_positive(p - places(a));
    lemma_ten_to_positive(p - places(b));
    let va = digits_value(a.digits);
    let vb = digits_value(b.digits);
    let ta = ten_to(p - places(a));
    let tb = ten_to(p - places(b));
    assert(0 <= va * ta) by (nonlinear_arith)
        requires
            va >= 0,
            ta >= 1,
    ;
    assert(0 <= vb * tb) by (nonlinear_arith)
        requires
            vb >= 0,
            tb >= 1,
    ;
    if a.digits.len() > 0 {
        lemma_value_lower(a.digits);
        lemma_ten_to_positive(a.digits.len() - 1);
        assert(0 < va * ta) by (nonlinear_arith)
            requires
                va >= 1,
                ta >= 1,
        ;
    }
    if b.digits.len() > 0 {
        lemma_value_lower(b.digits);
        lemma_ten_to_positive(b.digits.len() - 1);
        assert(0 < vb * tb) by (nonlinear_arith)
            requires
                vb >= 1,
                tb >= 1,
        ;
    }
    lemma_less_connected(a, b);
    lemma_less_irreflexive(a);
    if less(a, b) {
        if a.negative == b.negative {
            if a.negative {
                lemma_magnitude_less(b, a, p);
            } else {
                lemma_magnitude_less(a, b, p);
            }
        }
    } else if less(b, a) {
        if a.negative == b.negative {
            if a.negative {
                lemma_magnitude_less(a, b, p);
            } else {
                lemma_magnitude_less(b, a, p);
            }
        }
    }
}

proof fn lemma_zeros_value(ds: Seq<u8>)
    requires
        forall|i: int| 0 <= i < ds.len() ==> ds[i] == 0,
    ensures
        digits_value(ds) == 0,
    decreases ds.len(),
{
    if ds.len() > 0 {
        lemma_zeros_value(ds.drop_last());
    }
}

proof fn lemma_skip_zeros(ds: Seq<u8>, from: int)
    requires
        0 <= from <= ds.len(),
    ensures
        from <= skip_zeros(ds, from) <= ds.len(),
        forall|i: int| from <= i < skip_zeros(ds, from) ==> ds[i] == 0,
        skip_zeros(ds, from) < ds.len() ==> ds[skip_zeros(ds, from)] != 0,
    decreases ds.len() - from,
{
    if from < ds.len() && ds[from] == 0 {
        lemma_skip_zeros(ds, from + 1);
    }
}

proof fn lemma_cut_zeros(ds: Seq<u8>, to: int)
    requires
        0 <= to <= ds.len(),
    ensures
        0 <= cut_zeros(ds, to) <= to,
        forall|i: int| cut_zeros(ds, to) <= i < to ==> ds[i] == 0,
        cut_zeros(ds, to) > 0 ==> ds[cut_zeros(ds, to) - 1] != 0,
    decreases to,
{
    if 0 < to && ds[to - 1] == 0 {
        lemma_cut_zeros(ds, to - 1);
    }
}

/// Bringing `0.ds` times ten to the power `point` into normal form keeps the
/// number that it stands for.
pub proof fn lemma_normalize_is_numeric(negative: bool, ds: Seq<u8>, point: int, p: int)
    requires
        all_digits(ds),
        normalize(negative, ds, point) is Some,
        p >= ds.len() - point,
    ensures
        normal(normalize(negative, ds, point)->0),
        magnitude_at(normalize(negative, ds, point)->0, p) == digits_value(ds) * ten_to(
            p - (ds.len() - point),
        ),
        digits_value(ds) > 0 ==> p >= places(normalize(negative, ds, point)->0) && normalize(
            negative,
            ds,
            point,
        )->0.negative == negative,
{
    let d = normalize(negative, ds, point)->0;
    let len = ds.len() as int;
    let first = skip_zeros(ds, 0);
    lemma_skip_zeros(ds, 0);
    if first >= len {
        lemma_zeros_value(ds);
        assert(d.digits.len() == 0);
        assert(digits_value(d.digits) == 0);
        assert(0 * ten_to(p - places(d)) == 0) by (nonlinear_arith);
        assert(0 * ten_to(p - (len - point)) == 0) by (nonlinear_arith);
    } else {
        let end = cut_zeros(ds, len);
        lemma_cut_zeros(ds, len);
        assert(end > first) by {
            if end <= first {
                assert(ds[first] == 0);
            }
        }
        let core = ds.subrange(first, end);
        assert(d.digits == core);
        assert(core[0] == ds[first]);
        assert(core.last() == ds[end - 1]);
        // the zeros on both sides add nothing
        lemma_value_split(ds, end);
        lemma_zeros_value(ds.skip(end));
        let front = ds.take(end);
        lemma_value_split(front, first);
        assert(front.take(first) =~= ds.take(first));
        lemma_zeros_value(ds.take(first));
        assert(front.skip(first) =~= core);
        let v = digits_value(core);
        assert(0 * ten_to(end - first) + v == v) by (nonlinear_arith);
        assert(digits_value(front) == v);
        assert(digits_value(ds) == v * ten_to(len - end));
        lemma_ten_to_add(len - end, p - (len - point));
        let shift = ten_to(len - end);
        let unit = ten_to(p - (len - point));
        assert(places(d) == end - point);
        assert(ten_to(p - places(d)) == shift * unit);
        assert(v * (shift * unit) == (v * shift) * unit) by (nonlinear_arith);
    }
}

proof fn lemma_numeral_digits(s: Seq<char>)
    requires
        forall|i: int| 0 <= i < s.len() ==> is_digit(s[i]),
    ensures
        numeral_value(s) == digits_value(digit_values(s)),
        all_digits(digit_values(s)),
    decreases s.len(),
{
    if s.len() > 0 {
        lemma_numeral_digits(s.drop_last());
        assert(digit_values(s).drop_last() =~= digit_values(s.drop_last()));
    }
}

/// The number that the digits and the exponent of a numeral denote, times ten
/// to the power `p`.
pub open spec fn numeral_at(n: Numeral, p: int) -> int {
    let exponent = if n.exponent_negative {
        -numeral_value(n.exponent)
    } else {
        numeral_value(n.exponent)
    };
    let magnitude = numeral_value(n.whole + n.fraction) * ten_to(p - (n.fraction.len() - exponent));
    if n.negative {
        -magnitude
    } else {
        magnitude
    }
}

/// The decimal of a numeral stands for the number that the digits and the
/// exponent of the numeral denote.
pub proof fn lemma_numeral_is_numeric(n: Numeral, p: int)
    requires
        forall|i: int| 0 <= i < n.whole.len() ==> is_digit(n.whole[i]),
        forall|i: int| 0 <= i < n.fraction.len() ==> is_digit(n.fraction[i]),
        numeral_decimal(n) is Some,
        p >= n.fraction.len() - (if n.exponent_negative {
            -numeral_value(n.exponent)
        } else {
            numeral_value(n.exponent)
        }),
    ensures
        normal(numeral_decimal(n)->0),
        value_at(numeral_decimal(n)->0, p) == numeral_at(n, p),
{
    let text = n.whole + n.fraction;
    lemma_numeral_digits(text);
    let e = numeral_value(n.exponent);
    let exponent = if n.exponent_negative { -e } else { e };
    let ds = digit_values(text);
    lemma_normalize_is_numeric(n.negative, ds, n.whole.len() + exponent, p);
    let d = numeral_decimal(n)->0;
    lemma_value_bound(ds);
    if digits_value(ds) == 0 {
        lemma_value_bound(d.digits);
        assert(0 * ten_to(p - (n.fraction.len() - exponent)) == 0) by (nonlinear_arith);
        assert(magnitude_at(d, p) == 0);
    }
}

proof fn lemma_base_ten(n: nat)
    ensures
        digits_value(base_ten(n)) == n,
        all_digits(base_ten(n)),
        n > 0 ==> base_ten(n).len() > 0 && base_ten(n)[0] != 0,
    decreases n,
{
    if n > 0 {
        lemma_base_ten(n / 10);
        let front = base_ten(n / 10);
        assert(base_ten(n).drop_last() =~= front);
        if n / 10 > 0 {
            assert(base_ten(n)[0] == front[0]);
        }
    }
}

/// The decimal of a natural number below ten to the power twenty stands for
/// that number.
pub proof fn lemma_natural_is_numeric(n: nat)
    requires
        n <= u64::MAX,
    ensures
        normal(natural(n)),
        !natural(n).negative,
        places(natural(n)) <= 0,
        value_at(natural(n), 0) == n,
{
    lemma_base_ten(n);
    let ds = base_ten(n);
    let len = ds.len() as int;
    if n == 0 {
        lemma_ten_to_step(0);
    } else {
        lemma_value_lower(ds);
        assert(ten_to(20) == 100_000_000_000_000_000_000) by {
            reveal_with_fuel(pow, 21);
        }
        if len - 1 >= 20 {
            lemma_ten_to_increases(20, len - 1);
        }
        lemma_skip_zeros(ds, 0);
        lemma_normalize_is_numeric(false, ds, len, 0);
        lemma_ten_to_step(0);
    }
}

} // verus!
