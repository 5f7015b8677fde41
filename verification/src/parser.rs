//! Filter expressions: the text form of a filter, read into the tree that
//! [`filter_record`](crate::filter::filter_record) evaluates.
//!
//! ```text
//! expression  := disjunction
//! disjunction := conjunction ( OR conjunction )*
//! conjunction := condition ( AND condition )*
//! condition   := operand operator operand | "(" disjunction ")"
//! operand     := item | "(" operand ( "," operand )* ")"
//! item        := number | quoted string | true | false | none | name
//! ```
//!
//! Blanks may stand between the parts. `AND`, `OR`, `true`, `false` and `none`
//! are read in any letter case. Where several kinds of item or several
//! operators match, the longest match is taken, and the first in the order of
//! the grammar among matches of the same length. Chains of `AND` and of `OR`
//! group to the left.
use crate::error::VcfParserError;
use crate::filter::{
    and_spellings, compared, every_outcome, filter_outcome, first_present, lookup, operator_of,
    or_spellings, some_outcome,
};
use crate::number::{decimal_of, Number};
use crate::text::text_of_utf8;
use crate::value::{lemma_values_view, lemma_values_view_push, values_view, Json, Object, Value};
use vstd::prelude::*;
use vstd::slice::slice_subrange;
use vstd::string::StrSliceExecFns;
use vstd::utf8::{decode_utf8, encode_utf8, valid_utf8};

verus! {

/// Whether a byte is a blank: a space, a tab, a carriage return or a line
/// feed.
pub open spec fn is_blank(b: u8) -> bool {
    b == 32 || b == 9 || b == 13 || b == 10
}

/// The number of blanks that stand at `from`.
pub open spec fn blank_run(s: Seq<u8>, from: int) -> nat
    decreases s.len() - from,
{
    if 0 <= from < s.len() && is_blank(s[from]) {
        1 + blank_run(s, from + 1)
    } else {
        0
    }
}

/// The position after the blanks that stand at `from`.
pub open spec fn after_blanks(s: Seq<u8>, from: int) -> int {
    from + blank_run(s, from)
}

/// Whether a byte may stand in a name: a letter, a digit, a dot or an
/// underscore.
pub open spec fn is_name_byte(b: u8) -> bool {
    ||| 97 <= b <= 122
    ||| 65 <= b <= 90
    ||| 48 <= b <= 57
    ||| b == 46
    ||| b == 95
}

/// The number of name bytes that stand at `from`.
pub open spec fn name_run(s: Seq<u8>, from: int) -> nat
    decreases s.len() - from,
{
    if 0 <= from < s.len() && is_name_byte(s[from]) {
        1 + name_run(s, from + 1)
    } else {
        0
    }
}

/// Whether a byte is one of the digits `0` to `9`.
pub open spec fn is_digit_byte(b: u8) -> bool {
    48 <= b <= 57
}

/// The number of digits that stand at `from`.
pub open spec fn digit_run(s: Seq<u8>, from: int) -> nat
    decreases s.len() - from,
{
    if 0 <= from < s.len() && is_digit_byte(s[from]) {
        1 + digit_run(s, from + 1)
    } else {
        0
    }
}

/// The number of bytes up to the next `b` at or after `from`, or up to the end
/// of `s` where there is none.
pub open spec fn run_to(s: Seq<u8>, b: u8, from: int) -> nat
    decreases s.len() - from,
{
    if 0 <= from < s.len() && s[from] != b {
        1 + run_to(s, b, from + 1)
    } else {
        0
    }
}

/// The length of the fraction that stands at `point`: a point and at least one
/// digit, or nothing.
pub open spec fn fraction_length(s: Seq<u8>, point: int) -> nat {
    if 0 <= point < s.len() && s[point] == 46 && digit_run(s, point + 1) > 0 {
        1 + digit_run(s, point + 1)
    } else {
        0
    }
}

/// The length of the exponent that stands at `mark`: `e` or `E`, an optional
/// sign and at least one digit, or nothing.
pub open spec fn exponent_length(s: Seq<u8>, mark: int) -> nat {
    let signed: nat = if 0 <= mark && mark + 1 < s.len() && (s[mark + 1] == 43 || s[mark + 1]
        == 45) {
        1
    } else {
        0
    };
    if 0 <= mark < s.len() && (s[mark] == 101 || s[mark] == 69) && digit_run(s, mark + 1 + signed)
        > 0 {
        1 + signed + digit_run(s, mark + 1 + signed)
    } else {
        0
    }
}

/// The length of the numeral that stands at `from`, if one does: an optional
/// minus, then a zero or a run of digits that starts with none, then
/// optionally a fraction, then optionally an exponent.
pub open spec fn numeral_length(s: Seq<u8>, from: int) -> Option<nat> {
    let minus: nat = if 0 <= from < s.len() && s[from] == 45 { 1 } else { 0 };
    let first = from + minus;
    if !(0 <= first < s.len() && is_digit_byte(s[first])) {
        None
    } else {
        let whole: nat = if s[first] == 48 { 1 } else { digit_run(s, first) };
        let fraction = fraction_length(s, first + whole);
        let exponent = exponent_length(s, first + whole + fraction);
        Some(minus + whole + fraction + exponent)
    }
}

/// The byte in lower case, where it is an upper-case letter.
pub open spec fn lowered(b: u8) -> u8 {
    if 65 <= b <= 90 {
        (b + 32) as u8
    } else {
        b
    }
}

/// Whether `word`, given in lower case, stands at `from` in any letter case.
pub open spec fn word_at(s: Seq<u8>, from: int, word: Seq<u8>) -> bool {
    &&& 0 <= from
    &&& from + word.len() <= s.len()
    &&& forall|i: int| 0 <= i < word.len() ==> lowered(#[trigger] s[from + i]) == word[i]
}

/// The bytes of the word `true`.
pub open spec fn word_true() -> Seq<u8> {
    seq![116u8, 114u8, 117u8, 101u8]
}

/// The bytes of the word `false`.
pub open spec fn word_false() -> Seq<u8> {
    seq![102u8, 97u8, 108u8, 115u8, 101u8]
}

/// The bytes of the word `none`.
pub open spec fn word_none() -> Seq<u8> {
    seq![110u8, 111u8, 110u8, 101u8]
}

/// The bytes of the word `and`.
pub open spec fn word_and() -> Seq<u8> {
    seq![97u8, 110u8, 100u8]
}

/// The bytes of the word `or`.
pub open spec fn word_or() -> Seq<u8> {
    seq![111u8, 114u8]
}

/// The text of the bytes of `s` from `from`, `length` bytes long, where they
/// are well-formed UTF-8.
pub open spec fn text_at(s: Seq<u8>, from: int, length: nat) -> Option<Seq<char>> {
    let bytes = s.subrange(from, from + length);
    if valid_utf8(bytes) {
        Some(decode_utf8(bytes))
    } else {
        None
    }
}

/// A reading of an item: its value and its length.
pub type Reading = Option<(Json, nat)>;

/// The numeral at `from` as a reading, where it denotes a number.
pub open spec fn number_reading(s: Seq<u8>, from: int) -> Reading {
    match numeral_length(s, from) {
        Some(length) => match text_at(s, from, length) {
            Some(text) => match decimal_of(text) {
                Some(d) => Some((Json::Number(d), length)),
                None => None,
            },
            None => None,
        },
        None => None,
    }
}

/// The truth value at `from` as a reading.
pub open spec fn boolean_reading(s: Seq<u8>, from: int) -> Reading {
    if word_at(s, from, word_true()) {
        Some((Json::Bool(true), 4))
    } else if word_at(s, from, word_false()) {
        Some((Json::Bool(false), 5))
    } else {
        None
    }
}

/// The word `none` at `from` as a reading.
pub open spec fn null_reading(s: Seq<u8>, from: int) -> Reading {
    if word_at(s, from, word_none()) {
        Some((Json::Null, 4))
    } else {
        None
    }
}

/// The name at `from` as a reading: a name is a string.
pub open spec fn name_reading(s: Seq<u8>, from: int) -> Reading {
    let length = name_run(s, from);
    if length > 0 {
        match text_at(s, from, length) {
            Some(text) => Some((Json::String(text), length)),
            None => None,
        }
    } else {
        None
    }
}

/// The longer of two readings, and the first where they are as long.
pub open spec fn longer(first: Reading, second: Reading) -> Reading {
    match (first, second) {
        (Some(a), Some(b)) => if b.1 > a.1 {
            second
        } else {
            first
        },
        (None, _) => second,
        (_, None) => first,
    }
}

/// The quoted string at `from` as a reading: the text between the quote at
/// `from` and the next quote.
pub open spec fn quoted_reading(s: Seq<u8>, from: int) -> Reading {
    let inner = run_to(s, 34, from + 1);
    if 0 <= from < s.len() && s[from] == 34 && from + 1 + inner < s.len() {
        match text_at(s, from + 1, inner) {
            Some(text) => Some((Json::String(text), inner + 2)),
            None => None,
        }
    } else {
        None
    }
}

/// The item at `from` as a reading.
pub open spec fn item_reading(s: Seq<u8>, from: int) -> Reading {
    if 0 <= from < s.len() && s[from] == 34 {
        quoted_reading(s, from)
    } else {
        longer(
            longer(longer(number_reading(s, from), boolean_reading(s, from)), null_reading(s, from)),
            name_reading(s, from),
        )
    }
}

/// What a reading that holds a [`Value`] stands for.
pub open spec fn reading_view(r: Option<(Value, usize)>) -> Reading {
    match r {
        Some((v, length)) => Some((v@, length as nat)),
        None => None,
    }
}

fn is_blank_byte(b: u8) -> (r: bool)
    ensures
        r == is_blank(b),
{
    b == 32 || b == 9 || b == 13 || b == 10
}

fn is_name(b: u8) -> (r: bool)
    ensures
        r == is_name_byte(b),
{
    (97 <= b && b <= 122) || (65 <= b && b <= 90) || (48 <= b && b <= 57) || b == 46 || b == 95
}

/// The position after the blanks that stand at `from`.
fn skip_blanks(s: &Vec<u8>, from: usize) -> (r: usize)
    requires
        from <= s.len(),
    ensures
        r == after_blanks(s@, from as int),
        from <= r <= s.len(),
{
    let mut i: usize = from;
    while i < s.len() && is_blank_byte(s[i])
        invariant
            from <= i <= s.len(),
            blank_run(s@, from as int) == (i - from) + blank_run(s@, i as int),
        decreases s.len() - i,
    {
        i += 1;
    }
    i
}

/// The number of name bytes that stand at `from`.
fn count_name(s: &Vec<u8>, from: usize) -> (r: usize)
    requires
        from <= s.len(),
    ensures
        r == name_run(s@, from as int),
        from + r <= s.len(),
{
    let mut i: usize = from;
    while i < s.len() && is_name(s[i])
        invariant
            from <= i <= s.len(),
            name_run(s@, from as int) == (i - from) + name_run(s@, i as int),
        decreases s.len() - i,
    {
        i += 1;
    }
    i - from
}

/// The number of digits that stand at `from`.
fn count_digits(s: &Vec<u8>, from: usize) -> (r: usize)
    requires
        from <= s.len(),
    ensures
        r == digit_run(s@, from as int),
        from + r <= s.len(),
{
    let mut i: usize = from;
    while i < s.len() && 48 <= s[i] && s[i] <= 57
        invariant
            from <= i <= s.len(),
            digit_run(s@, from as int) == (i - from) + digit_run(s@, i as int),
        decreases s.len() - i,
    {
        i += 1;
    }
    i - from
}

/// The number of bytes up to the next `b` at or after `from`.
fn count_to(s: &Vec<u8>, b: u8, from: usize) -> (r: usize)
    requires
        from <= s.len(),
    ensures
        r == run_to(s@, b, from as int),
        from + r <= s.len(),
{
    let mut i: usize = from;
    while i < s.len() && s[i] != b
        invariant
            from <= i <= s.len(),
            run_to(s@, b, from as int) == (i - from) + run_to(s@, b, i as int),
        decreases s.len() - i,
    {
        i += 1;
    }
    i - from
}

fn measure_fraction(s: &Vec<u8>, point: usize) -> (r: usize)
    requires
        point <= s.len(),
    ensures
        r == fraction_length(s@, point as int),
        point + r <= s.len(),
{
    if point < s.len() && s[point] == 46 {
        let digits = count_digits(s, point + 1);
        if digits > 0 {
            return 1 + digits;
        }
    }
    0
}

fn measure_exponent(s: &Vec<u8>, mark: usize) -> (r: usize)
    requires
        mark <= s.len(),
    ensures
        r == exponent_length(s@, mark as int),
        mark + r <= s.len(),
{
    let n = s.len();
    if mark < n && (s[mark] == 101 || s[mark] == 69) {
        let signed: usize = if mark + 1 < n && (s[mark + 1] == 43 || s[mark + 1] == 45) {
            1
        } else {
            0
        };
        let digits = count_digits(s, mark + 1 + signed);
        if digits > 0 {
            return 1 + signed + digits;
        }
    }
    0
}

/// The length of the numeral that stands at `from`, if one does.
fn measure_numeral(s: &Vec<u8>, from: usize) -> (r: Option<usize>)
    requires
        from <= s.len(),
    ensures
        match r {
            Some(length) => numeral_length(s@, from as int) == Some(length as nat) && from + length
                <= s.len() && length > 0,
            None => numeral_length(s@, from as int) is None,
        },
{
    let n = s.len();
    let minus: usize = if from < n && s[from] == 45 { 1 } else { 0 };
    let first = from + minus;
    if !(first < n && 48 <= s[first] && s[first] <= 57) {
        return None;
    }
    let whole: usize = if s[first] == 48 { 1 } else { count_digits(s, first) };
    let fraction = measure_fraction(s, first + whole);
    let exponent = measure_exponent(s, first + whole + fraction);
    Some(minus + whole + fraction + exponent)
}

fn lower(b: u8) -> (r: u8)
    ensures
        r == lowered(b),
{
    if 65 <= b && b <= 90 {
        b + 32
    } else {
        b
    }
}

/// Whether `word`, given in lower case, stands at `from` in any letter case.
fn is_word_at(s: &Vec<u8>, from: usize, word: &Vec<u8>) -> (r: bool)
    requires
        from <= s.len(),
    ensures
        r == word_at(s@, from as int, word@),
{
    if word.len() > s.len() - from {
        return false;
    }
    let mut i: usize = 0;
    while i < word.len()
        invariant
            i <= word.len(),
            from + word.len() <= s.len(),
            forall|j: int| 0 <= j < i ==> lowered(#[trigger] s[from + j]) == word[j],
        decreases word.len() - i,
    {
        if lower(s[from + i]) != word[i] {
            return false;
        }
        i += 1;
    }
    true
}

/// The text of the bytes of `s` from `from`, `length` bytes long.
fn read_text(s: &Vec<u8>, from: usize, length: usize) -> (r: Option<String>)
    requires
        from + length <= s.len(),
    ensures
        match r {
            Some(text) => text_at(s@, from as int, length as nat) == Some(text@),
            None => text_at(s@, from as int, length as nat) is None,
        },
{
    let bytes = slice_subrange(s.as_slice(), from, from + length);
    match text_of_utf8(bytes) {
        Some(text) => Some(text.to_owned()),
        None => None,
    }
}

fn read_number(s: &Vec<u8>, from: usize) -> (r: Option<(Value, usize)>)
    requires
        from <= s.len(),
    ensures
        reading_view(r) == number_reading(s@, from as int),
        r matches Some((_, length)) ==> length > 0 && from + length <= s.len(),
{
    let length = match measure_numeral(s, from) {
        Some(length) => length,
        None => {
            return None;
        },
    };
    let text = match read_text(s, from, length) {
        Some(text) => text,
        None => {
            return None;
        },
    };
    match Number::parse(text.as_str()) {
        Some(n) => Some((Value::Number(n), length)),
        None => None,
    }
}

fn read_boolean(s: &Vec<u8>, from: usize) -> (r: Option<(Value, usize)>)
    requires
        from <= s.len(),
    ensures
        reading_view(r) == boolean_reading(s@, from as int),
        r matches Some((_, length)) ==> length > 0 && from + length <= s.len(),
{
    let yes: Vec<u8> = vec![116u8, 114u8, 117u8, 101u8];
    let no: Vec<u8> = vec![102u8, 97u8, 108u8, 115u8, 101u8];
    proof {
        assert(yes@ =~= word_true());
        assert(no@ =~= word_false());
    }
    if is_word_at(s, from, &yes) {
        Some((Value::Bool(true), 4))
    } else if is_word_at(s, from, &no) {
        Some((Value::Bool(false), 5))
    } else {
        None
    }
}

fn read_null(s: &Vec<u8>, from: usize) -> (r: Option<(Value, usize)>)
    requires
        from <= s.len(),
    ensures
        reading_view(r) == null_reading(s@, from as int),
        r matches Some((_, length)) ==> length > 0 && from + length <= s.len(),
{
    let word: Vec<u8> = vec![110u8, 111u8, 110u8, 101u8];
    proof {
        assert(word@ =~= word_none());
    }
    if is_word_at(s, from, &word) {
        Some((Value::Null, 4))
    } else {
        None
    }
}

fn read_name(s: &Vec<u8>, from: usize) -> (r: Option<(Value, usize)>)
    requires
        from <= s.len(),
    ensures
        reading_view(r) == name_reading(s@, from as int),
        r matches Some((_, length)) ==> length > 0 && from + length <= s.len(),
{
    let length = count_name(s, from);
    if length == 0 {
        return None;
    }
    match read_text(s, from, length) {
        Some(text) => Some((Value::String(text), length)),
        None => None,
    }
}

fn read_quoted(s: &Vec<u8>, from: usize) -> (r: Option<(Value, usize)>)
    requires
        from < s.len(),
        s[from as int] == 34,
    ensures
        reading_view(r) == quoted_reading(s@, from as int),
        r matches Some((_, length)) ==> length > 0 && from + length <= s.len(),
{
    let inner = count_to(s, 34, from + 1);
    if from + 1 + inner >= s.len() {
        return None;
    }
    match read_text(s, from + 1, inner) {
        Some(text) => Some((Value::String(text), inner + 2)),
        None => None,
    }
}

fn pick_longer(first: Option<(Value, usize)>, second: Option<(Value, usize)>) -> (r: Option<
    (Value, usize),
>)
    ensures
        reading_view(r) == longer(reading_view(first), reading_view(second)),
        r == first || r == second,
{
    match (&first, &second) {
        (Some(a), Some(b)) => if b.1 > a.1 {
            second
        } else {
            first
        },
        (None, _) => second,
        (_, None) => first,
    }
}

/// Reads the item at `from`.
fn read_item(s: &Vec<u8>, from: usize) -> (r: Option<(Value, usize)>)
    requires
        from <= s.len(),
    ensures
        reading_view(r) == item_reading(s@, from as int),
        r matches Some((_, length)) ==> length > 0 && from + length <= s.len(),
{
    if from < s.len() && s[from] == 34 {
        return read_quoted(s, from);
    }
    let number = read_number(s, from);
    let boolean = read_boolean(s, from);
    let null = read_null(s, from);
    let name = read_name(s, from);
    pick_longer(pick_longer(pick_longer(number, boolean), null), name)
}

/// What is left of `s` from `from` on.
pub open spec fn remaining(s: Seq<u8>, from: int) -> nat {
    if 0 <= from <= s.len() {
        (s.len() - from) as nat
    } else {
        0
    }
}

/// The outcome of reading a part of an expression at a position: its value
/// and its length, or the position at which reading stopped.
pub type Outcome = Result<(Json, nat), int>;

/// The operand at `from`: blanks, then an item or a list of operands in
/// parentheses, then blanks. A list is an array.
#[verifier::opaque]
pub open spec fn operand(s: Seq<u8>, from: int) -> Outcome
    decreases remaining(s, from), 0nat,
{
    let start = after_blanks(s, from);
    if 0 <= start < s.len() && s[start] == 40 {
        match list_rest(s, start + 1, Seq::empty()) {
            Ok((v, length)) => Ok((v, (start + 1 - from + length) as nat)),
            Err(at) => Err(at),
        }
    } else {
        match item_reading(s, start) {
            Some((v, length)) => Ok(
                (v, (start - from + length + blank_run(s, start + length)) as nat),
            ),
            None => Err(start),
        }
    }
}

/// The rest of a list from `from` on, after the operands in `before`: an
/// operand, then either a comma and the rest of the list, or the closing
/// parenthesis and blanks.
#[verifier::opaque]
pub open spec fn list_rest(s: Seq<u8>, from: int, before: Seq<Json>) -> Outcome
    decreases remaining(s, from), 1nat,
{
    if !(0 <= from <= s.len()) {
        Err(from)
    } else {
        match operand(s, from) {
            Err(at) => Err(at),
            Ok((v, length)) => {
                let end = from + length;
                if end < s.len() && s[end] == 44 {
                    match list_rest(s, end + 1, before.push(v)) {
                        Ok((list, more)) => Ok((list, (length + 1 + more) as nat)),
                        Err(at) => Err(at),
                    }
                } else if end < s.len() && s[end] == 41 {
                    Ok((Json::Array(before.push(v)), (length + 1 + blank_run(s, end + 1)) as nat))
                } else {
                    Err(end)
                }
            },
        }
    }
}

/// The symbols of the operators, in the order of the grammar.
pub open spec fn operator_symbols() -> Seq<Seq<char>> {
    seq![
        "=="@,
        "is"@,
        "="@,
        "<="@,
        ">="@,
        "!="@,
        "<"@,
        ">"@,
        "eq"@,
        "ne"@,
        "gt"@,
        "ge"@,
        "lt"@,
        "le"@,
        "in"@,
        "≥"@,
        "≤"@,
    ]
}

/// Whether the bytes of `pattern` stand at `from`.
pub open spec fn bytes_at(s: Seq<u8>, from: int, pattern: Seq<u8>) -> bool {
    0 <= from && from + pattern.len() <= s.len() && s.subrange(from, from + pattern.len())
        == pattern
}

/// The longest of the first `n` symbols that stands at `from`, and the first
/// among those of the same length.
pub open spec fn longest_symbol(s: Seq<u8>, from: int, symbols: Seq<Seq<char>>, n: nat) -> Option<
    Seq<char>,
>
    decreases n,
{
    if n == 0 {
        None
    } else {
        let before = longest_symbol(s, from, symbols, (n - 1) as nat);
        let symbol = symbols[n - 1];
        if bytes_at(s, from, encode_utf8(symbol)) && (before is None || encode_utf8(symbol).len()
            > encode_utf8(before->0).len()) {
            Some(symbol)
        } else {
            before
        }
    }
}

/// The operator at `from`.
pub open spec fn operator_at(s: Seq<u8>, from: int) -> Option<Seq<char>> {
    longest_symbol(s, from, operator_symbols(), operator_symbols().len())
}

/// The tree of a comparison.
pub open spec fn comparison_node(left: Json, symbol: Seq<char>, right: Json) -> Json {
    Json::Object(
        Map::<Seq<char>, Json>::empty().insert("name"@, left).insert(
            "op"@,
            Json::String(symbol),
        ).insert("value"@, right),
    )
}

/// The tree of a conjunction of two filters.
pub open spec fn and_node(left: Json, right: Json) -> Json {
    Json::Object(Map::<Seq<char>, Json>::empty().insert("AND"@, Json::Array(seq![left, right])))
}

/// The tree of a disjunction of two filters.
pub open spec fn or_node(left: Json, right: Json) -> Json {
    Json::Object(Map::<Seq<char>, Json>::empty().insert("OR"@, Json::Array(seq![left, right])))
}

/// The comparison at `from`: an operand, an operator and an operand.
pub open spec fn comparison(s: Seq<u8>, from: int) -> Outcome {
    match operand(s, from) {
        Err(at) => Err(at),
        Ok((left, first)) => match operator_at(s, from + first) {
            None => Err(from + first),
            Some(symbol) => {
                let second = encode_utf8(symbol).len();
                match operand(s, from + first + second) {
                    Err(at) => Err(at),
                    Ok((right, third)) => Ok(
                        (comparison_node(left, symbol, right), first + second + third),
                    ),
                }
            },
        },
    }
}

/// The farther of two positions.
pub open spec fn farther(a: int, b: int) -> int {
    if a >= b {
        a
    } else {
        b
    }
}

/// The condition that starts at `from` with a parenthesis at `start`, given
/// the outcome `inner` of the disjunction after the parenthesis: the
/// disjunction must be followed by the closing parenthesis, and blanks may
/// follow. `at` is where the comparison failed.
pub open spec fn closed_group(s: Seq<u8>, from: int, start: int, at: int, inner: Outcome) -> Outcome {
    match inner {
        Err(stopped) => Err(farther(at, stopped)),
        Ok((v, length)) => {
            let end = start + 1 + length;
            if end < s.len() && s[end] == 41 {
                Ok((v, (end + 1 - from + blank_run(s, end + 1)) as nat))
            } else {
                Err(farther(at, end))
            }
        },
    }
}

/// The condition at `from`: blanks, then a comparison or a disjunction in
/// parentheses, then blanks. Where neither can be read, reading stopped at the
/// farther of the two positions at which they failed.
#[verifier::opaque]
pub open spec fn condition(s: Seq<u8>, from: int) -> Outcome
    decreases remaining(s, from), 0nat,
{
    let start = after_blanks(s, from);
    match comparison(s, start) {
        Ok((v, length)) => Ok((v, (start - from + length + blank_run(s, start + length)) as nat)),
        Err(at) => if 0 <= start < s.len() && s[start] == 40 {
            closed_group(s, from, start, at, disjunction(s, start + 1))
        } else {
            Err(at)
        },
    }
}

/// The conditions that follow `left` at `from`, each after the word `and`,
/// taken into a conjunction one by one.
#[verifier::opaque]
pub open spec fn more_conjuncts(s: Seq<u8>, from: int, left: Json) -> Outcome
    decreases remaining(s, from), 1nat,
{
    if word_at(s, from, word_and()) {
        match condition(s, from + 3) {
            Err(at) => Err(at),
            Ok((right, length)) => match more_conjuncts(
                s,
                from + 3 + length,
                and_node(left, right),
            ) {
                Ok((v, more)) => Ok((v, 3 + length + more)),
                Err(at) => Err(at),
            },
        }
    } else {
        Ok((left, 0))
    }
}

/// The conjunction at `from`: conditions with the word `and` between them.
#[verifier::opaque]
pub open spec fn conjunction(s: Seq<u8>, from: int) -> Outcome
    decreases remaining(s, from), 2nat,
{
    if !(0 <= from <= s.len()) {
        Err(from)
    } else {
        match condition(s, from) {
            Err(at) => Err(at),
            Ok((left, length)) => match more_conjuncts(s, from + length, left) {
                Ok((v, more)) => Ok((v, length + more)),
                Err(at) => Err(at),
            },
        }
    }
}

/// The conjunctions that follow `left` at `from`, each after the word `or`,
/// taken into a disjunction one by one.
#[verifier::opaque]
pub open spec fn more_disjuncts(s: Seq<u8>, from: int, left: Json) -> Outcome
    decreases remaining(s, from), 3nat,
{
    if word_at(s, from, word_or()) {
        match conjunction(s, from + 2) {
            Err(at) => Err(at),
            Ok((right, length)) => match more_disjuncts(s, from + 2 + length, or_node(left, right)) {
                Ok((v, more)) => Ok((v, 2 + length + more)),
                Err(at) => Err(at),
            },
        }
    } else {
        Ok((left, 0))
    }
}

/// The disjunction at `from`: conjunctions with the word `or` between them.
#[verifier::opaque]
pub open spec fn disjunction(s: Seq<u8>, from: int) -> Outcome
    decreases remaining(s, from), 4nat,
{
    if !(0 <= from <= s.len()) {
        Err(from)
    } else {
        match conjunction(s, from) {
            Err(at) => Err(at),
            Ok((left, length)) => match more_disjuncts(s, from + length, left) {
                Ok((v, more)) => Ok((v, length + more)),
                Err(at) => Err(at),
            },
        }
    }
}

/// The filter that an expression denotes: the disjunction that makes up all
/// of the text. Where the text is no expression, the failure names the
/// position at which reading stopped.
pub open spec fn expression(s: Seq<u8>) -> Result<Json, VcfParserError> {
    match disjunction(s, 0) {
        Err(at) => Err(VcfParserError::MalformedExpression(at as usize)),
        Ok((v, length)) => if length == s.len() {
            Ok(v)
        } else {
            Err(VcfParserError::MalformedExpression(length as usize))
        },
    }
}

/// An operand of a comparison: a single value, or a list of values in
/// parentheses.
#[derive(Debug)]
pub enum PropertyVal {
    SimpleValue(Value),
    Group(Vec<Value>),
}

impl View for PropertyVal {
    type V = Json;

    open spec fn view(&self) -> Json {
        match self {
            PropertyVal::SimpleValue(v) => v@,
            PropertyVal::Group(items) => Json::Array(values_view(items@)),
        }
    }
}

impl PropertyVal {
    /// The operand as a value: a list is an array.
    pub fn into_value(self) -> (r: Value)
        ensures
            r@ == self@,
    {
        match self {
            PropertyVal::SimpleValue(v) => v,
            PropertyVal::Group(items) => Value::Array(items),
        }
    }
}

/// What the outcome of reading a filter at `from` stands for.
pub open spec fn outcome_of(r: Result<(Value, usize), usize>, from: int) -> Outcome {
    match r {
        Ok((v, end)) => Ok((v@, (end - from) as nat)),
        Err(at) => Err(at as int),
    }
}

/// What the outcome of reading an operand at `from` stands for.
pub open spec fn operand_outcome_of(r: Result<(PropertyVal, usize), usize>, from: int) -> Outcome {
    match r {
        Ok((v, end)) => Ok((v@, (end - from) as nat)),
        Err(at) => Err(at as int),
    }
}

/// Whether an outcome lies within a text of length `len` and after `from`.
pub open spec fn within<T>(r: Result<(T, usize), usize>, from: int, len: int) -> bool {
    match r {
        Ok((_, end)) => from <= end <= len,
        Err(at) => at <= len,
    }
}

/// Reads the operand at `from`.
#[verifier::rlimit(50)]
fn parse_operand(s: &Vec<u8>, from: usize) -> (r: Result<(PropertyVal, usize), usize>)
    requires
        from <= s.len(),
    ensures
        operand_outcome_of(r, from as int) == operand(s@, from as int),
        within(r, from as int, s.len() as int),
    decreases remaining(s@, from as int), 0nat,
{
    reveal_with_fuel(operand, 1);
    reveal_with_fuel(list_rest, 1);
    let start = skip_blanks(s, from);
    if start < s.len() && s[start] == 40 {
        let before: Vec<Value> = Vec::new();
        proof {
            assert(values_view(before@) =~= Seq::<Json>::empty());
        }
        match parse_list_rest(s, start + 1, before) {
            Ok((items, end)) => Ok((PropertyVal::Group(items), end)),
            Err(at) => Err(at),
        }
    } else {
        match read_item(s, start) {
            Some((v, length)) => {
                let end = skip_blanks(s, start + length);
                Ok((PropertyVal::SimpleValue(v), end))
            },
            None => Err(start),
        }
    }
}

/// Reads the rest of a list from `from` on, after the operands in `before`.
#[verifier::rlimit(50)]
fn parse_list_rest(s: &Vec<u8>, from: usize, before: Vec<Value>) -> (r: Result<
    (Vec<Value>, usize),
    usize,
>)
    requires
        from <= s.len(),
    ensures
        match r {
            Ok((items, end)) => list_rest(s@, from as int, values_view(before@)) == Ok::<
                (Json, nat),
                int,
            >((Json::Array(values_view(items@)), (end - from) as nat)),
            Err(at) => list_rest(s@, from as int, values_view(before@)) == Err::<(Json, nat), int>(
                at as int,
            ),
        },
        within(r, from as int, s.len() as int),
    decreases remaining(s@, from as int), 1nat,
{
    reveal_with_fuel(operand, 1);
    reveal_with_fuel(list_rest, 1);
    let mut items = before;
    match parse_operand(s, from) {
        Err(at) => Err(at),
        Ok((v, end)) => {
            let value = v.into_value();
            proof {
                lemma_values_view_push(items@, value);
            }
            if end < s.len() && s[end] == 44 {
                items.push(value);
                parse_list_rest(s, end + 1, items)
            } else if end < s.len() && s[end] == 41 {
                items.push(value);
                Ok((items, skip_blanks(s, end + 1)))
            } else {
                Err(end)
            }
        },
    }
}

/// Whether the bytes of `pattern` stand at `from`.
fn starts_at(s: &Vec<u8>, from: usize, pattern: &[u8]) -> (r: bool)
    requires
        from <= s.len(),
    ensures
        r == bytes_at(s@, from as int, pattern@),
{
    if pattern.len() > s.len() - from {
        return false;
    }
    let mut i: usize = 0;
    while i < pattern.len()
        invariant
            i <= pattern.len(),
            from + pattern.len() <= s.len(),
            forall|j: int| 0 <= j < i ==> s[from + j] == pattern[j],
        decreases pattern.len() - i,
    {
        if s[from + i] != pattern[i] {
            proof {
                assert(s@.subrange(from as int, from + pattern.len())[i as int] != pattern@[i as int]);
            }
            return false;
        }
        i += 1;
    }
    proof {
        assert(s@.subrange(from as int, from + pattern.len()) =~= pattern@);
    }
    true
}

/// The texts of a sequence of string slices.
pub open spec fn symbol_texts(symbols: Seq<&'static str>) -> Seq<Seq<char>> {
    Seq::new(symbols.len(), |i: int| symbols[i]@)
}

/// Reads the operator at `from`: its symbol and its length.
fn parse_operator(s: &Vec<u8>, from: usize) -> (r: Option<(String, usize)>)
    requires
        from <= s.len(),
    ensures
        match r {
            Some((symbol, length)) => operator_at(s@, from as int) == Some(symbol@) && length
                == encode_utf8(symbol@).len() && from + length <= s.len(),
            None => operator_at(s@, from as int) is None,
        },
{
    let symbols: Vec<&'static str> = vec![
        "==",
        "is",
        "=",
        "<=",
        ">=",
        "!=",
        "<",
        ">",
        "eq",
        "ne",
        "gt",
        "ge",
        "lt",
        "le",
        "in",
        "≥",
        "≤",
    ];
    let ghost all = operator_symbols();
    proof {
        assert(symbol_texts(symbols@) =~= all);
    }
    let mut best: Option<usize> = None;
    let mut best_length: usize = 0;
    let mut i: usize = 0;
    while i < symbols.len()
        invariant
            i <= symbols.len(),
            from <= s.len(),
            all == symbol_texts(symbols@),
            match best {
                Some(at) => at < i && longest_symbol(s@, from as int, all, i as nat) == Some(all[at as int])
                    && best_length == encode_utf8(all[at as int]).len() && from + best_length
                    <= s.len(),
                None => longest_symbol(s@, from as int, all, i as nat) is None,
            },
        decreases symbols.len() - i,
    {
        let bytes = symbols[i].as_bytes();
        if starts_at(s, from, bytes) && (best.is_none() || bytes.len() > best_length) {
            best = Some(i);
            best_length = bytes.len();
        }
        i += 1;
    }
    match best {
        Some(at) => Some((symbols[at].to_owned(), best_length)),
        None => None,
    }
}

/// Reads the comparison at `from`.
fn parse_comparison(s: &Vec<u8>, from: usize) -> (r: Result<(Value, usize), usize>)
    requires
        from <= s.len(),
    ensures
        outcome_of(r, from as int) == comparison(s@, from as int),
        within(r, from as int, s.len() as int),
{
    let (left, first) = match parse_operand(s, from) {
        Ok(read) => read,
        Err(at) => {
            return Err(at);
        },
    };
    let (symbol, length) = match parse_operator(s, first) {
        Some(read) => read,
        None => {
            return Err(first);
        },
    };
    let (right, end) = match parse_operand(s, first + length) {
        Ok(read) => read,
        Err(at) => {
            return Err(at);
        },
    };
    let mut node = Object::new();
    node.insert("name".to_owned(), left.into_value());
    node.insert("op".to_owned(), Value::String(symbol));
    node.insert("value".to_owned(), right.into_value());
    Ok((Value::Object(node), end))
}

/// The tree of a connective with two operands.
fn pair_node(key: &str, left: Value, right: Value) -> (r: Value)
    ensures
        r@ == Json::Object(
            Map::<Seq<char>, Json>::empty().insert(key@, Json::Array(seq![left@, right@])),
        ),
{
    let mut operands: Vec<Value> = Vec::new();
    operands.push(left);
    operands.push(right);
    proof {
        lemma_values_view(operands@);
        assert(values_view(operands@) =~= seq![left@, right@]);
    }
    let mut node = Object::new();
    node.insert(key.to_owned(), Value::Array(operands));
    Value::Object(node)
}

/// Closes a condition in parentheses after its disjunction was read.
fn close_group(
    s: &Vec<u8>,
    from: usize,
    start: usize,
    at: usize,
    inner: Result<(Value, usize), usize>,
) -> (r: Result<(Value, usize), usize>)
    requires
        from <= start < s.len(),
        at <= s.len(),
        within(inner, start + 1, s.len() as int),
    ensures
        outcome_of(r, from as int) == closed_group(
            s@,
            from as int,
            start as int,
            at as int,
            outcome_of(inner, start + 1),
        ),
        within(r, from as int, s.len() as int),
{
    match inner {
        Err(stopped) => Err(if at >= stopped { at } else { stopped }),
        Ok((v, end)) => {
            if end < s.len() && s[end] == 41 {
                Ok((v, skip_blanks(s, end + 1)))
            } else {
                Err(if at >= end { at } else { end })
            }
        },
    }
}

/// Reads the condition at `from`.
#[verifier::rlimit(50)]
fn parse_condition(s: &Vec<u8>, from: usize) -> (r: Result<(Value, usize), usize>)
    requires
        from <= s.len(),
    ensures
        outcome_of(r, from as int) == condition(s@, from as int),
        within(r, from as int, s.len() as int),
    decreases remaining(s@, from as int), 0nat,
{
    reveal_with_fuel(condition, 1);
    reveal_with_fuel(more_conjuncts, 1);
    reveal_with_fuel(conjunction, 1);
    reveal_with_fuel(more_disjuncts, 1);
    reveal_with_fuel(disjunction, 1);
    let start = skip_blanks(s, from);
    match parse_comparison(s, start) {
        Ok((v, end)) => Ok((v, skip_blanks(s, end))),
        Err(at) => {
            if start < s.len() && s[start] == 40 {
                let inner = parse_disjunction(s, start + 1);
                close_group(s, from, start, at, inner)
            } else {
                Err(at)
            }
        },
    }
}

/// Reads the conditions that follow `left` at `from`.
#[verifier::rlimit(50)]
fn parse_more_conjuncts(s: &Vec<u8>, from: usize, left: Value) -> (r: Result<(Value, usize), usize>)
    requires
        from <= s.len(),
    ensures
        outcome_of(r, from as int) == more_conjuncts(s@, from as int, left@),
        within(r, from as int, s.len() as int),
    decreases remaining(s@, from as int), 1nat,
{
    reveal_with_fuel(condition, 1);
    reveal_with_fuel(more_conjuncts, 1);
    reveal_with_fuel(conjunction, 1);
    reveal_with_fuel(more_disjuncts, 1);
    reveal_with_fuel(disjunction, 1);
    let word: Vec<u8> = vec![97u8, 110u8, 100u8];
    proof {
        assert(word@ =~= word_and());
    }
    if is_word_at(s, from, &word) {
        match parse_condition(s, from + 3) {
            Err(at) => Err(at),
            Ok((right, end)) => parse_more_conjuncts(s, end, pair_node("AND", left, right)),
        }
    } else {
        Ok((left, from))
    }
}

/// Reads the conjunction at `from`.
#[verifier::rlimit(50)]
fn parse_conjunction(s: &Vec<u8>, from: usize) -> (r: Result<(Value, usize), usize>)
    requires
        from <= s.len(),
    ensures
        outcome_of(r, from as int) == conjunction(s@, from as int),
        within(r, from as int, s.len() as int),
    decreases remaining(s@, from as int), 2nat,
{
    reveal_with_fuel(condition, 1);
    reveal_with_fuel(more_conjuncts, 1);
    reveal_with_fuel(conjunction, 1);
    reveal_with_fuel(more_disjuncts, 1);
    reveal_with_fuel(disjunction, 1);
    match parse_condition(s, from) {
        Err(at) => Err(at),
        Ok((left, end)) => parse_more_conjuncts(s, end, left),
    }
}

/// Reads the conjunctions that follow `left` at `from`.
#[verifier::rlimit(50)]
fn parse_more_disjuncts(s: &Vec<u8>, from: usize, left: Value) -> (r: Result<(Value, usize), usize>)
    requires
        from <= s.len(),
    ensures
        outcome_of(r, from as int) == more_disjuncts(s@, from as int, left@),
        within(r, from as int, s.len() as int),
    decreases remaining(s@, from as int), 3nat,
{
    reveal_with_fuel(condition, 1);
    reveal_with_fuel(more_conjuncts, 1);
    reveal_with_fuel(conjunction, 1);
    reveal_with_fuel(more_disjuncts, 1);
    reveal_with_fuel(disjunction, 1);
    let word: Vec<u8> = vec![111u8, 114u8];
    proof {
        assert(word@ =~= word_or());
    }
    if is_word_at(s, from, &word) {
        match parse_conjunction(s, from + 2) {
            Err(at) => Err(at),
            Ok((right, end)) => parse_more_disjuncts(s, end, pair_node("OR", left, right)),
        }
    } else {
        Ok((left, from))
    }
}

/// Reads the disjunction at `from`.
#[verifier::rlimit(50)]
fn parse_disjunction(s: &Vec<u8>, from: usize) -> (r: Result<(Value, usize), usize>)
    requires
        from <= s.len(),
    ensures
        outcome_of(r, from as int) == disjunction(s@, from as int),
        within(r, from as int, s.len() as int),
    decreases remaining(s@, from as int), 4nat,
{
    reveal_with_fuel(condition, 1);
    reveal_with_fuel(more_conjuncts, 1);
    reveal_with_fuel(conjunction, 1);
    reveal_with_fuel(more_disjuncts, 1);
    reveal_with_fuel(disjunction, 1);
    match parse_conjunction(s, from) {
        Err(at) => Err(at),
        Ok((left, end)) => parse_more_disjuncts(s, end, left),
    }
}

/// Reads a filter expression.
///
/// The outcome is the filter that all of the text denotes, or a failure with
/// the offset of the byte at which reading stopped.
pub fn parse_logic_expr(input: &str) -> (r: Result<Value, VcfParserError>)
    ensures
        match r {
            Ok(v) => expression(encode_utf8(input@)) == Ok::<Json, VcfParserError>(v@),
            Err(e) => expression(encode_utf8(input@)) == Err::<Json, VcfParserError>(e),
        },
{
    let s = input.as_bytes_vec();
    match parse_disjunction(&s, 0) {
        Err(at) => Err(VcfParserError::MalformedExpression(at)),
        Ok((v, end)) => {
            if end == s.len() {
                Ok(v)
            } else {
                Err(VcfParserError::MalformedExpression(end))
            }
        },
    }
}

/// The bytes of an expression that were not read when reading stopped at
/// `offset`: those from `offset` on, and none where `offset` lies beyond the
/// text.
pub open spec fn unread(s: Seq<u8>, offset: int) -> Seq<u8> {
    if 0 <= offset <= s.len() {
        s.skip(offset)
    } else {
        Seq::empty()
    }
}

/// The part of an expression that was not read when reading stopped at
/// `offset`.
pub fn unconsumed_input(input: &str, offset: usize) -> (r: Vec<u8>)
    ensures
        r@ == unread(encode_utf8(input@), offset as int),
{
    let s = input.as_bytes_vec();
    let mut out: Vec<u8> = Vec::new();
    if offset > s.len() {
        return out;
    }
    let mut i: usize = offset;
    while i < s.len()
        invariant
            offset <= i <= s.len(),
            out@ == s@.subrange(offset as int, i as int),
        decreases s.len() - i,
    {
        out.push(s[i]);
        i += 1;
    }
    proof {
        assert(s@.subrange(offset as int, s.len() as int) =~= s@.skip(offset as int));
    }
    out
}

/// The outcome of two filters taken together by `and`: the first that does
/// not accept the row decides.
pub open spec fn both(first: Result<bool, VcfParserError>, second: Result<bool, VcfParserError>) -> Result<
    bool,
    VcfParserError,
> {
    match first {
        Ok(true) => second,
        other => other,
    }
}

/// The outcome of two filters taken together by `or`: the first that does not
/// refuse the row decides.
pub open spec fn either(first: Result<bool, VcfParserError>, second: Result<bool, VcfParserError>) -> Result<
    bool,
    VcfParserError,
> {
    match first {
        Ok(false) => second,
        other => other,
    }
}

/// The tree of a conjunction is evaluated as the conjunction of its two
/// filters.
pub proof fn lemma_and_node(row: Map<Seq<char>, Json>, left: Json, right: Json)
    ensures
        filter_outcome(row, and_node(left, right)) == both(
            filter_outcome(row, left),
            filter_outcome(row, right),
        ),
{
    let operands = seq![left, right];
    let node = Map::<Seq<char>, Json>::empty().insert("AND"@, Json::Array(operands));
    assert(node.contains_key("AND"@));
    assert(node.dom() =~= set!["AND"@]);
    assert(and_spellings()[0] == "AND"@);
    assert(first_present(node, and_spellings(), 0) == Some("AND"@));
    assert(node.dom().finite());
    assert(node != Map::<Seq<char>, Json>::empty());
    assert(every_outcome(row, operands, 2) == Ok::<bool, VcfParserError>(true));
    assert(every_outcome(row, operands, 1) == both(filter_outcome(row, right), Ok(true)));
    assert(every_outcome(row, operands, 0) == both(
        filter_outcome(row, left),
        every_outcome(row, operands, 1),
    ));
}

/// The tree of a disjunction is evaluated as the disjunction of its two
/// filters.
pub proof fn lemma_or_node(row: Map<Seq<char>, Json>, left: Json, right: Json)
    ensures
        filter_outcome(row, or_node(left, right)) == either(
            filter_outcome(row, left),
            filter_outcome(row, right),
        ),
{
    let operands = seq![left, right];
    let node = Map::<Seq<char>, Json>::empty().insert("OR"@, Json::Array(operands));
    assert(node.contains_key("OR"@));
    assert(node.dom() =~= set!["OR"@]);
    reveal_strlit("OR");
    reveal_strlit("AND");
    reveal_strlit("ANd");
    reveal_strlit("AnD");
    reveal_strlit("And");
    reveal_strlit("aND");
    reveal_strlit("aNd");
    reveal_strlit("anD");
    reveal_strlit("and");
    assert forall|i: int| 0 <= i < and_spellings().len() implies !node.contains_key(
        #[trigger] and_spellings()[i],
    ) by {
        assert(and_spellings()[i].len() == 3);
        assert("OR"@.len() == 2);
    }
    reveal_with_fuel(first_present, 9);
    assert(first_present(node, and_spellings(), 0) is None);
    assert(or_spellings()[0] == "OR"@);
    assert(first_present(node, or_spellings(), 0) == Some("OR"@));
    assert(node.dom().finite());
    assert(node != Map::<Seq<char>, Json>::empty());
    assert(some_outcome(row, operands, 2) == Ok::<bool, VcfParserError>(false));
    assert(some_outcome(row, operands, 1) == either(filter_outcome(row, right), Ok(false)));
    assert(some_outcome(row, operands, 0) == either(
        filter_outcome(row, left),
        some_outcome(row, operands, 1),
    ));
}

/// The tree of a comparison whose left operand is a name is evaluated as the
/// comparison of the column of that name with the right operand.
pub proof fn lemma_comparison_node(
    row: Map<Seq<char>, Json>,
    name: Seq<char>,
    symbol: Seq<char>,
    wanted: Json,
)
    ensures
        filter_outcome(row, comparison_node(Json::String(name), symbol, wanted)) == match operator_of(
            symbol,
        ) {
            Some(op) => compared(op, lookup(row, name), wanted),
            None => Err(VcfParserError::UnknownOperator),
        },
{
    let node = Map::<Seq<char>, Json>::empty().insert("name"@, Json::String(name)).insert(
        "op"@,
        Json::String(symbol),
    ).insert("value"@, wanted);
    reveal_strlit("name");
    reveal_strlit("op");
    reveal_strlit("value");
    reveal_strlit("AND");
    reveal_strlit("ANd");
    reveal_strlit("AnD");
    reveal_strlit("And");
    reveal_strlit("aND");
    reveal_strlit("aNd");
    reveal_strlit("anD");
    reveal_strlit("and");
    reveal_strlit("OR");
    reveal_strlit("Or");
    reveal_strlit("oR");
    reveal_strlit("or");
    assert("name"@ != "op"@) by {
        assert("name"@.len() != "op"@.len());
    }
    assert("name"@ != "value"@) by {
        assert("name"@.len() != "value"@.len());
    }
    assert("op"@ != "value"@) by {
        assert("op"@.len() != "value"@.len());
    }
    assert(node.dom() =~= set!["name"@, "op"@, "value"@]);
    assert(node.dom().finite());
    assert(node.contains_key("name"@));
    assert forall|i: int| 0 <= i < and_spellings().len() implies !node.contains_key(
        #[trigger] and_spellings()[i],
    ) by {
        assert(and_spellings()[i].len() == 3);
    }
    assert forall|i: int| 0 <= i < or_spellings().len() implies !node.contains_key(
        #[trigger] or_spellings()[i],
    ) by {
        assert(or_spellings()[i].len() == 2);
        assert(or_spellings()[i][1] != "op"@[1]);
    }
    reveal_with_fuel(first_present, 9);
    assert(first_present(node, and_spellings(), 0) is None);
    assert(first_present(node, or_spellings(), 0) is None);
}

} // verus!
