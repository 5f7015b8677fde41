//! Decoding one raw record into a variant: typed values for its INFO fields and
//! for the fields of each sample.
use crate::error::VcfParserError;
use crate::number::{decimal_of, is_whole_numeral, natural, Decimal, Number};
use crate::text::{
    chars_of, chars_views, pieces, same_bytes, same_text, split_chars, string_of, text_of_utf8,
    texts,
};
use crate::utils::{
    all_valid, coerced, composites_view, declared_subfields, explode_one, exploded_row,
    find_subfields, try_parse_number, Composites,
};
use crate::value::{lemma_values_view, values_view, Json, Object, Value};
use vstd::prelude::*;
use vstd::utf8::{decode_utf8, valid_utf8};

verus! {

/// A row: a map from names to values.
pub type Row = Map<Seq<char>, Json>;

/// The kind of value that a field declares.
#[derive(Debug, Clone, Copy, PartialEq, Eq, Structural)]
pub enum ValueKind {
    Flag,
    Integer,
    Float,
    String,
    Character,
}

/// How many values a field declares.
#[derive(Debug, Clone, Copy, PartialEq, Eq, Structural)]
pub enum Cardinality {
    Fixed(u32),
    PerAllele,
    Unbounded,
}

/// What the header declares of one INFO or FORMAT field.
#[derive(Debug, Clone)]
pub struct FieldSchema {
    pub name: Vec<u8>,
    pub kind: ValueKind,
    pub cardinality: Cardinality,
}

/// What the header declares: the INFO fields and the FORMAT fields.
#[derive(Debug, Clone)]
pub struct Header {
    pub info: Vec<FieldSchema>,
    pub format: Vec<FieldSchema>,
}

/// One record as it was read: its positional fields, and the raw tokens of its
/// INFO fields and of the FORMAT fields of each sample.
#[derive(Debug)]
pub struct RawRecord {
    pub header: Header,
    pub chromosome: Vec<u8>,
    pub position: u64,
    pub id: Vec<Vec<u8>>,
    pub reference: Vec<u8>,
    pub alternative: Vec<Vec<u8>>,
    pub qual: Option<Number>,
    pub filter: Vec<Vec<u8>>,
    pub info: Vec<(Vec<u8>, Vec<Vec<u8>>)>,
    pub format: Vec<Vec<u8>>,
    pub genotype: Vec<Vec<Vec<Vec<u8>>>>,
}

/// A decoded record.
#[derive(Debug)]
pub struct Variant {
    pub chromosome: String,
    pub position: u64,
    pub id: String,
    pub reference: String,
    pub alternative: String,
    pub qual: Option<Number>,
    pub filter: String,
    pub info: Object,
    pub genotype: Object,
}

/// What a [`Variant`] stands for.
pub struct VariantView {
    pub chromosome: Seq<char>,
    pub position: nat,
    pub id: Seq<char>,
    pub reference: Seq<char>,
    pub alternative: Seq<char>,
    pub qual: Option<Decimal>,
    pub filter: Seq<char>,
    pub info: Row,
    pub genotype: Row,
}

impl View for Variant {
    type V = VariantView;

    open spec fn view(&self) -> VariantView {
        VariantView {
            chromosome: self.chromosome@,
            position: self.position as nat,
            id: self.id@,
            reference: self.reference@,
            alternative: self.alternative@,
            qual: match self.qual {
                Some(n) => Some(n@),
                None => None,
            },
            filter: self.filter@,
            info: self.info@,
            genotype: self.genotype@,
        }
    }
}

/// The value of an outcome that holds a [`Value`].
pub open spec fn outcome_view(r: Result<Value, VcfParserError>) -> Result<Json, VcfParserError> {
    match r {
        Ok(v) => Ok(v@),
        Err(e) => Err(e),
    }
}

/// The value of an outcome that holds an [`Object`].
pub open spec fn row_outcome_view(r: Result<Object, VcfParserError>) -> Result<Row, VcfParserError> {
    match r {
        Ok(v) => Ok(v@),
        Err(e) => Err(e),
    }
}

/// The marker of a missing value.
pub open spec fn missing_marker() -> Seq<char> {
    "."@
}

/// What a token of a numeric field stands for: null for the marker of a
/// missing value, and the number that it denotes otherwise. An integer field
/// takes whole numerals only.
pub open spec fn numeric_token(kind: ValueKind, token: Seq<u8>) -> Result<Json, VcfParserError> {
    if !valid_utf8(token) {
        Err(VcfParserError::InvalidEncoding)
    } else {
        let text = decode_utf8(token);
        if text == missing_marker() {
            Ok(Json::Null)
        } else if kind == ValueKind::Integer && !is_whole_numeral(text) {
            Err(VcfParserError::TypeCoercionFailure)
        } else {
            match decimal_of(text) {
                Some(d) => Ok(Json::Number(d)),
                None => Err(VcfParserError::TypeCoercionFailure),
            }
        }
    }
}

/// The failure of the first token, from position `from` on, that is no number
/// of its kind.
pub open spec fn first_failure(kind: ValueKind, tokens: Seq<Vec<u8>>, from: int) -> Option<
    VcfParserError,
>
    decreases tokens.len() - from,
{
    if from < 0 || from >= tokens.len() {
        None
    } else {
        match numeric_token(kind, tokens[from]@) {
            Err(e) => Some(e),
            Ok(_) => first_failure(kind, tokens, from + 1),
        }
    }
}

/// What the tokens of a numeric INFO field stand for: what the first token
/// stands for, and null where there is none. A field with one value for each
/// allele has all its tokens read, and fails where one of them fails.
pub open spec fn numeric_field(kind: ValueKind, cardinality: Cardinality, tokens: Seq<Vec<u8>>) -> Result<
    Json,
    VcfParserError,
> {
    if tokens.len() == 0 {
        Ok(Json::Null)
    } else if cardinality == Cardinality::PerAllele {
        match first_failure(kind, tokens, 0) {
            Some(e) => Err(e),
            None => numeric_token(kind, tokens[0]@),
        }
    } else {
        numeric_token(kind, tokens[0]@)
    }
}

/// What the tokens of a plain INFO field stand for: the text of the first
/// token, and null where there is none. A field with one value for each allele
/// must have well-formed text in all its tokens.
pub open spec fn text_field(cardinality: Cardinality, tokens: Seq<Vec<u8>>) -> Result<
    Json,
    VcfParserError,
> {
    if tokens.len() == 0 {
        Ok(Json::Null)
    } else if cardinality == Cardinality::PerAllele && !all_valid(tokens) {
        Err(VcfParserError::InvalidEncoding)
    } else if !valid_utf8(tokens[0]@) {
        Err(VcfParserError::InvalidEncoding)
    } else {
        Ok(Json::String(decode_utf8(tokens[0]@)))
    }
}

/// The object that the first `n` subfields and pieces make: each subfield
/// with what its piece stands for.
pub open spec fn zipped(names: Seq<Seq<char>>, parts: Seq<Seq<char>>, n: nat) -> Row
    decreases n,
{
    if n == 0 {
        Map::empty()
    } else {
        zipped(names, parts, (n - 1) as nat).insert(names[n - 1], coerced(parts[n - 1]))
    }
}

/// The smaller of two numbers.
pub open spec fn smaller(a: nat, b: nat) -> nat {
    if a <= b {
        a
    } else {
        b
    }
}

/// The object that one token of a composite field stands for: the token is cut
/// at each bar, and the pieces go under the subfields in order, as far as both
/// reach.
pub open spec fn composite_element(names: Seq<Seq<char>>, token: Seq<u8>) -> Row {
    let parts = pieces(decode_utf8(token), '|');
    zipped(names, parts, smaller(names.len(), parts.len()))
}

/// What the tokens of a composite field stand for: an array with one object
/// for each token.
pub open spec fn composite_field(names: Seq<Seq<char>>, tokens: Seq<Vec<u8>>) -> Result<
    Json,
    VcfParserError,
> {
    if !all_valid(tokens) {
        Err(VcfParserError::InvalidEncoding)
    } else {
        Ok(
            Json::Array(
                Seq::new(tokens.len(), |i: int| Json::Object(composite_element(names, tokens[i]@))),
            ),
        )
    }
}

/// The object with null under each of the names.
pub open spec fn all_null(names: Seq<Seq<char>>) -> Row {
    Map::new(|name: Seq<char>| names.contains(name), |name: Seq<char>| Json::Null)
}

/// The tokens of the last entry of `info` under `name`, if there is one among
/// the first `n`.
pub open spec fn tokens_of(info: Seq<(Vec<u8>, Vec<Vec<u8>>)>, name: Seq<u8>, n: nat) -> Option<
    Seq<Vec<u8>>,
>
    decreases n,
{
    if n == 0 {
        None
    } else if info[n - 1].0@ == name {
        Some(info[n - 1].1@)
    } else {
        tokens_of(info, name, (n - 1) as nat)
    }
}

/// What an INFO field stands for in a record, or `None` where the record gets
/// no entry for it.
///
/// A flag is true where the record has the field and false where it has not.
/// An integer or a float is read from its tokens, and is null where the record
/// lacks the field. A field with declared subfields is composite: where the
/// record lacks it, it is a single object with null under each subfield. Any
/// other field is the text of its first token, and has no entry where the
/// record lacks it.
pub open spec fn info_value(
    field: FieldSchema,
    composites: Composites,
    present: Option<Seq<Vec<u8>>>,
) -> Result<Option<Json>, VcfParserError> {
    let subfields = declared_subfields(composites, decode_utf8(field.name@), 0);
    match present {
        Some(tokens) => {
            let value = if field.kind == ValueKind::Flag {
                Ok(Json::Bool(true))
            } else if field.kind == ValueKind::Integer || field.kind == ValueKind::Float {
                numeric_field(field.kind, field.cardinality, tokens)
            } else if subfields is Some {
                composite_field(subfields->0, tokens)
            } else {
                text_field(field.cardinality, tokens)
            };
            match value {
                Ok(v) => Ok(Some(v)),
                Err(e) => Err(e),
            }
        },
        None => {
            if field.kind == ValueKind::Flag {
                Ok(Some(Json::Bool(false)))
            } else if field.kind == ValueKind::Integer || field.kind == ValueKind::Float {
                Ok(Some(Json::Null))
            } else if subfields is Some {
                Ok(Some(Json::Array(seq![Json::Object(all_null(subfields->0))])))
            } else {
                Ok(None)
            }
        },
    }
}

/// The INFO object that the first `n` declared fields give. The name of a
/// field must be well-formed UTF-8.
pub open spec fn decoded_info(record: RawRecord, composites: Composites, n: nat) -> Result<
    Row,
    VcfParserError,
>
    decreases n,
{
    if n == 0 {
        Ok(Map::empty())
    } else {
        match decoded_info(record, composites, (n - 1) as nat) {
            Err(e) => Err(e),
            Ok(so_far) => {
                let field = record.header.info[n - 1];
                if !valid_utf8(field.name@) {
                    Err(VcfParserError::InvalidEncoding)
                } else {
                    match info_value(
                        field,
                        composites,
                        tokens_of(record.info@, field.name@, record.info.len() as nat),
                    ) {
                        Err(e) => Err(e),
                        Ok(Some(v)) => Ok(so_far.insert(decode_utf8(field.name@), v)),
                        Ok(None) => Ok(so_far),
                    }
                }
            },
        }
    }
}

/// The position of the last of the first `n` keys that is `key`.
pub open spec fn last_position(keys: Seq<Vec<u8>>, key: Seq<u8>, n: nat) -> Option<int>
    decreases n,
{
    if n == 0 {
        None
    } else if keys[n - 1]@ == key {
        Some(n - 1)
    } else {
        last_position(keys, key, (n - 1) as nat)
    }
}

/// The declaration of the first field named `name`, from position `from` on.
pub open spec fn declaration_of(fields: Seq<FieldSchema>, name: Seq<u8>, from: int) -> Option<
    FieldSchema,
>
    decreases fields.len() - from,
{
    if from < 0 || from >= fields.len() {
        None
    } else if fields[from].name@ == name {
        Some(fields[from])
    } else {
        declaration_of(fields, name, from + 1)
    }
}

/// The tokens that the record holds for a sample under a FORMAT key.
pub open spec fn genotype_tokens(record: RawRecord, sample: int, key: Seq<u8>) -> Option<
    Seq<Vec<u8>>,
> {
    match last_position(record.format@, key, record.format.len() as nat) {
        Some(at) => if 0 <= sample < record.genotype.len() && at < record.genotype[sample].len() {
            Some(record.genotype[sample][at]@)
        } else {
            None
        },
        None => None,
    }
}

/// What the FORMAT key at position `k` stands for in a sample.
///
/// The key must be well-formed UTF-8, the record must hold tokens for it, the
/// first token must be well-formed UTF-8, and the header must declare the key.
/// An integer or a float is read from the first token, any other field is its
/// text, and a field without tokens is null.
pub open spec fn sample_field(record: RawRecord, sample: int, k: int) -> Result<Json, VcfParserError> {
    let key = record.format[k]@;
    if !valid_utf8(key) {
        Err(VcfParserError::InvalidEncoding)
    } else {
        match genotype_tokens(record, sample, key) {
            None => Err(VcfParserError::ShapeViolation),
            Some(tokens) => if tokens.len() > 0 && !valid_utf8(tokens[0]@) {
                Err(VcfParserError::InvalidEncoding)
            } else {
                match declaration_of(record.header.format@, key, 0) {
                    None => Err(VcfParserError::SchemaLookupFailure),
                    Some(field) => if tokens.len() == 0 {
                        Ok(Json::Null)
                    } else if field.kind == ValueKind::Integer || field.kind == ValueKind::Float {
                        numeric_token(field.kind, tokens[0]@)
                    } else {
                        Ok(Json::String(decode_utf8(tokens[0]@)))
                    },
                }
            },
        }
    }
}

/// The object of a sample that its first `n` FORMAT keys give.
pub open spec fn sample_fields(record: RawRecord, sample: int, n: nat) -> Result<Row, VcfParserError>
    decreases n,
{
    if n == 0 {
        Ok(Map::empty())
    } else {
        match sample_fields(record, sample, (n - 1) as nat) {
            Err(e) => Err(e),
            Ok(so_far) => match sample_field(record, sample, n - 1) {
                Err(e) => Err(e),
                Ok(v) => Ok(so_far.insert(decode_utf8(record.format[n - 1]@), v)),
            },
        }
    }
}

/// The genotype object that the first `n` samples give: each sample's name
/// with the object of its fields. The name of a sample must be well-formed
/// UTF-8.
pub open spec fn decoded_genotype(record: RawRecord, samples: Seq<Vec<u8>>, n: nat) -> Result<
    Row,
    VcfParserError,
>
    decreases n,
{
    if n == 0 {
        Ok(Map::empty())
    } else {
        match decoded_genotype(record, samples, (n - 1) as nat) {
            Err(e) => Err(e),
            Ok(so_far) => match sample_fields(record, n - 1, record.format.len() as nat) {
                Err(e) => Err(e),
                Ok(fields) => if !valid_utf8(samples[n - 1]@) {
                    Err(VcfParserError::InvalidEncoding)
                } else {
                    Ok(so_far.insert(decode_utf8(samples[n - 1]@), Json::Object(fields)))
                },
            },
        }
    }
}

/// The texts of the first `n` items with `separator` between them.
pub open spec fn joined_text(items: Seq<Vec<u8>>, separator: char, n: nat) -> Seq<char>
    decreases n,
{
    if n == 0 {
        Seq::empty()
    } else if n == 1 {
        decode_utf8(items[0]@)
    } else {
        joined_text(items, separator, (n - 1) as nat) + seq![separator] + decode_utf8(items[n - 1]@)
    }
}

/// Whether the positional fields of a record are well-formed UTF-8.
pub open spec fn positional_valid(record: RawRecord) -> bool {
    &&& valid_utf8(record.chromosome@)
    &&& all_valid(record.id@)
    &&& all_valid(record.alternative@)
    &&& all_valid(record.filter@)
    &&& valid_utf8(record.reference@)
}

/// The variant that a record decodes to.
///
/// The genotype is decoded first, then the INFO fields, then the positional
/// fields; the first failure is the outcome. Identifiers are joined with
/// semicolons, alternates and filters with commas.
pub open spec fn decoded_variant(
    record: RawRecord,
    samples: Seq<Vec<u8>>,
    composites: Composites,
) -> Result<VariantView, VcfParserError> {
    match decoded_genotype(record, samples, samples.len()) {
        Err(e) => Err(e),
        Ok(genotype) => match decoded_info(record, composites, record.header.info.len() as nat) {
            Err(e) => Err(e),
            Ok(info) => if !positional_valid(record) {
                Err(VcfParserError::InvalidEncoding)
            } else {
                Ok(
                    VariantView {
                        chromosome: decode_utf8(record.chromosome@),
                        position: record.position as nat,
                        id: joined_text(record.id@, ';', record.id.len() as nat),
                        reference: decode_utf8(record.reference@),
                        alternative: joined_text(
                            record.alternative@,
                            ',',
                            record.alternative.len() as nat,
                        ),
                        qual: match record.qual {
                            Some(n) => Some(n@),
                            None => None,
                        },
                        filter: joined_text(record.filter@, ',', record.filter.len() as nat),
                        info,
                        genotype,
                    },
                )
            },
        },
    }
}

/// The names of an object that subfields and pieces make are among the
/// subfields.
pub proof fn lemma_zipped_names(names: Seq<Seq<char>>, parts: Seq<Seq<char>>, n: nat)
    requires
        n <= names.len(),
    ensures
        forall|name: Seq<char>| #[trigger]
            zipped(names, parts, n).contains_key(name) ==> names.contains(name),
    decreases n,
{
    if n > 0 {
        lemma_zipped_names(names, parts, (n - 1) as nat);
        assert(names.contains(names[n - 1]));
        assert forall|name: Seq<char>| #[trigger]
            zipped(names, parts, n).contains_key(name) implies names.contains(name) by {
            if name != names[n - 1] {
                assert(zipped(names, parts, (n - 1) as nat).contains_key(name));
            }
        }
    }
}

/// Whether a value is an object whose names are among `names`.
pub open spec fn is_element(item: Json, names: Seq<Seq<char>>) -> bool {
    item is Object && forall|name: Seq<char>| #[trigger]
        item->Object_0.contains_key(name) ==> names.contains(name)
}

/// What a composite field stands for is an array of objects, whether the
/// record has the field or lacks it, and the names in the objects are among
/// the subfields of the field.
pub proof fn lemma_composite_shape(
    field: FieldSchema,
    composites: Composites,
    present: Option<Seq<Vec<u8>>>,
)
    requires
        field.kind == ValueKind::String || field.kind == ValueKind::Character,
        declared_subfields(composites, decode_utf8(field.name@), 0) is Some,
        info_value(field, composites, present) is Ok,
    ensures
        info_value(field, composites, present)->Ok_0 matches Some(Json::Array(items)) && forall|
            i: int,
        |
            0 <= i < items.len() ==> is_element(
                #[trigger] items[i],
                declared_subfields(composites, decode_utf8(field.name@), 0)->0,
            ),
{
    let names = declared_subfields(composites, decode_utf8(field.name@), 0)->0;
    match present {
        Some(tokens) => {
            let items = info_value(field, composites, present)->Ok_0->0->Array_0;
            assert forall|i: int| 0 <= i < items.len() implies is_element(
                #[trigger] items[i],
                names,
            ) by {
                let parts = pieces(decode_utf8(tokens[i]@), '|');
                lemma_zipped_names(names, parts, smaller(names.len(), parts.len()));
            }
        },
        None => {},
    }
}

/// Once the INFO fields fail, they fail in the same way however many more are
/// taken.
pub proof fn lemma_info_failure(record: RawRecord, composites: Composites, k: nat, n: nat)
    requires
        k <= n,
        decoded_info(record, composites, k) is Err,
    ensures
        decoded_info(record, composites, n) == decoded_info(record, composites, k),
    decreases n,
{
    if k < n {
        lemma_info_failure(record, composites, k, (n - 1) as nat);
    }
}

/// Once the fields of a sample fail, they fail in the same way however many
/// more are taken.
pub proof fn lemma_sample_failure(record: RawRecord, sample: int, k: nat, n: nat)
    requires
        k <= n,
        sample_fields(record, sample, k) is Err,
    ensures
        sample_fields(record, sample, n) == sample_fields(record, sample, k),
    decreases n,
{
    if k < n {
        lemma_sample_failure(record, sample, k, (n - 1) as nat);
    }
}

/// Once the samples fail, they fail in the same way however many more are
/// taken.
pub proof fn lemma_genotype_failure(record: RawRecord, samples: Seq<Vec<u8>>, k: nat, n: nat)
    requires
        k <= n,
        decoded_genotype(record, samples, k) is Err,
    ensures
        decoded_genotype(record, samples, n) == decoded_genotype(record, samples, k),
    decreases n,
{
    if k < n {
        lemma_genotype_failure(record, samples, k, (n - 1) as nat);
    }
}

/// Reads a token as text.
fn decode_token(token: &Vec<u8>) -> (r: Result<String, VcfParserError>)
    ensures
        r is Ok <==> valid_utf8(token@),
        r matches Ok(text) ==> text@ == decode_utf8(token@),
        r matches Err(e) ==> e == VcfParserError::InvalidEncoding,
{
    match text_of_utf8(token.as_slice()) {
        Some(text) => Ok(text.to_owned()),
        None => Err(VcfParserError::InvalidEncoding),
    }
}

/// Whether every token is well-formed UTF-8.
fn check_all_valid(tokens: &Vec<Vec<u8>>) -> (r: bool)
    ensures
        r == all_valid(tokens@),
{
    let mut i: usize = 0;
    while i < tokens.len()
        invariant
            i <= tokens.len(),
            forall|j: int| 0 <= j < i ==> valid_utf8(#[trigger] tokens[j]@),
        decreases tokens.len() - i,
    {
        if text_of_utf8(tokens[i].as_slice()).is_none() {
            return false;
        }
        i += 1;
    }
    true
}

/// Reads a token of a numeric field.
fn read_numeric_token(kind: ValueKind, token: &Vec<u8>) -> (r: Result<Value, VcfParserError>)
    ensures
        outcome_view(r) == numeric_token(kind, token@),
{
    let text = match text_of_utf8(token.as_slice()) {
        Some(text) => text,
        None => {
            return Err(VcfParserError::InvalidEncoding);
        },
    };
    if same_text(text, ".") {
        return Ok(Value::Null);
    }
    let reading = match kind {
        ValueKind::Integer => Number::parse_whole(text),
        _ => Number::parse(text),
    };
    match reading {
        Some(n) => Ok(Value::Number(n)),
        None => Err(VcfParserError::TypeCoercionFailure),
    }
}

/// Reads the tokens of a numeric INFO field.
fn read_numeric_field(kind: ValueKind, cardinality: Cardinality, tokens: &Vec<Vec<u8>>) -> (r: Result<
    Value,
    VcfParserError,
>)
    ensures
        outcome_view(r) == numeric_field(kind, cardinality, tokens@),
{
    if tokens.len() == 0 {
        return Ok(Value::Null);
    }
    match cardinality {
        Cardinality::PerAllele => {
            let mut first = Value::Null;
            let mut i: usize = 0;
            while i < tokens.len()
                invariant
                    i <= tokens.len(),
                    tokens.len() > 0,
                    cardinality == Cardinality::PerAllele,
                    first_failure(kind, tokens@, 0) == first_failure(kind, tokens@, i as int),
                    i > 0 ==> numeric_token(kind, tokens[0]@) == Ok::<Json, VcfParserError>(first@),
                decreases tokens.len() - i,
            {
                match read_numeric_token(kind, &tokens[i]) {
                    Ok(v) => {
                        if i == 0 {
                            first = v;
                        }
                    },
                    Err(e) => {
                        proof {
                            assert(first_failure(kind, tokens@, i as int) == Some(e));
                        }
                        return Err(e);
                    },
                }
                i += 1;
            }
            Ok(first)
        },
        _ => read_numeric_token(kind, &tokens[0]),
    }
}

/// Reads the tokens of a plain INFO field.
fn read_text_field(cardinality: Cardinality, tokens: &Vec<Vec<u8>>) -> (r: Result<
    Value,
    VcfParserError,
>)
    ensures
        outcome_view(r) == text_field(cardinality, tokens@),
{
    if tokens.len() == 0 {
        return Ok(Value::Null);
    }
    let whole = match cardinality {
        Cardinality::PerAllele => check_all_valid(tokens),
        _ => true,
    };
    if !whole {
        return Err(VcfParserError::InvalidEncoding);
    }
    match decode_token(&tokens[0]) {
        Ok(text) => Ok(Value::String(text)),
        Err(e) => Err(e),
    }
}

/// Reads one token of a composite field. The token is well-formed UTF-8.
fn read_composite_element(names: &Vec<String>, text: &str) -> (r: Object)
    ensures
        r@ == zipped(
            texts(names@),
            pieces(text@, '|'),
            smaller(names.len() as nat, pieces(text@, '|').len()),
        ),
{
    let chars = chars_of(text);
    let parts = split_chars(&chars, '|');
    let ghost part_texts = chars_views(parts@);
    let count = if names.len() <= parts.len() { names.len() } else { parts.len() };
    let mut element = Object::new();
    let mut i: usize = 0;
    while i < count
        invariant
            i <= count,
            count <= names.len(),
            count <= parts.len(),
            part_texts == chars_views(parts@),
            element@ == zipped(texts(names@), part_texts, i as nat),
        decreases count - i,
    {
        let piece = string_of(&parts[i]);
        let value = try_parse_number(piece.as_str());
        element.insert(names[i].clone(), value);
        i += 1;
    }
    element
}

/// Reads the tokens of a composite field.
fn read_composite_field(names: &Vec<String>, tokens: &Vec<Vec<u8>>) -> (r: Result<
    Value,
    VcfParserError,
>)
    ensures
        outcome_view(r) == composite_field(texts(names@), tokens@),
{
    let mut items: Vec<Value> = Vec::new();
    let mut i: usize = 0;
    while i < tokens.len()
        invariant
            i <= tokens.len(),
            items.len() == i,
            forall|j: int| 0 <= j < i ==> valid_utf8(#[trigger] tokens[j]@),
            forall|j: int|
                0 <= j < i ==> (#[trigger] items[j])@ == Json::Object(
                    composite_element(texts(names@), tokens[j]@),
                ),
        decreases tokens.len() - i,
    {
        match text_of_utf8(tokens[i].as_slice()) {
            Some(text) => {
                let element = read_composite_element(names, text);
                items.push(Value::Object(element));
            },
            None => {
                return Err(VcfParserError::InvalidEncoding);
            },
        }
        i += 1;
    }
    proof {
        lemma_values_view(items@);
        assert(values_view(items@) =~= Seq::new(
            tokens.len() as nat,
            |j: int| Json::Object(composite_element(texts(names@), tokens[j]@)),
        ));
    }
    Ok(Value::Array(items))
}

/// The object with null under each of the names.
fn null_element(names: &Vec<String>) -> (r: Object)
    ensures
        r@ == all_null(texts(names@)),
{
    let ghost all = texts(names@);
    let mut element = Object::new();
    let mut i: usize = 0;
    proof {
        assert(element@ =~= all_null(all.take(0)));
    }
    while i < names.len()
        invariant
            i <= names.len(),
            all == texts(names@),
            element@ == all_null(all.take(i as int)),
        decreases names.len() - i,
    {
        element.insert(names[i].clone(), Value::Null);
        proof {
            let before = all.take(i as int);
            let after = all.take(i + 1);
            assert(after =~= before.push(all[i as int]));
            assert forall|x: Seq<char>| after.contains(x) <==> (before.contains(x) || x
                == all[i as int]) by {
                if before.contains(x) {
                    let at = choose|at: int| 0 <= at < before.len() && before[at] == x;
                    assert(after[at] == x);
                }
                if x == all[i as int] {
                    assert(after[i as int] == x);
                }
            }
            assert(element@ =~= all_null(after));
        }
        i += 1;
    }
    proof {
        assert(all.take(names.len() as int) =~= all);
    }
    element
}

/// Finds the tokens of the last entry of `info` under `name`.
fn find_tokens<'a>(info: &'a Vec<(Vec<u8>, Vec<Vec<u8>>)>, name: &Vec<u8>) -> (r: Option<
    &'a Vec<Vec<u8>>,
>)
    ensures
        r is Some <==> tokens_of(info@, name@, info.len() as nat) is Some,
        r matches Some(tokens) ==> Some(tokens@) == tokens_of(info@, name@, info.len() as nat),
{
    let mut n: usize = info.len();
    while n > 0
        invariant
            n <= info.len(),
            tokens_of(info@, name@, info.len() as nat) == tokens_of(info@, name@, n as nat),
        decreases n,
    {
        if same_bytes(&info[n - 1].0, name) {
            return Some(&info[n - 1].1);
        }
        n -= 1;
    }
    None
}

/// Reads what an INFO field stands for in a record.
fn read_info_value(
    field: &FieldSchema,
    name: &str,
    composites: &Vec<(String, Vec<String>)>,
    present: Option<&Vec<Vec<u8>>>,
) -> (r: Result<Option<Value>, VcfParserError>)
    requires
        name@ == decode_utf8(field.name@),
    ensures
        match r {
            Ok(Some(v)) => info_value(
                *field,
                composites_view(composites@),
                match present {
                    Some(tokens) => Some(tokens@),
                    None => None,
                },
            ) == Ok::<Option<Json>, VcfParserError>(Some(v@)),
            Ok(None) => info_value(
                *field,
                composites_view(composites@),
                match present {
                    Some(tokens) => Some(tokens@),
                    None => None,
                },
            ) == Ok::<Option<Json>, VcfParserError>(None),
            Err(e) => info_value(
                *field,
                composites_view(composites@),
                match present {
                    Some(tokens) => Some(tokens@),
                    None => None,
                },
            ) == Err::<Option<Json>, VcfParserError>(e),
        },
{
    let numeric = match field.kind {
        ValueKind::Integer => true,
        ValueKind::Float => true,
        _ => false,
    };
    let flag = match field.kind {
        ValueKind::Flag => true,
        _ => false,
    };
    match present {
        Some(tokens) => {
            let value = if flag {
                Ok(Value::Bool(true))
            } else if numeric {
                read_numeric_field(field.kind, field.cardinality, tokens)
            } else {
                match find_subfields(composites, name) {
                    Some(subfields) => read_composite_field(subfields, tokens),
                    None => read_text_field(field.cardinality, tokens),
                }
            };
            match value {
                Ok(v) => Ok(Some(v)),
                Err(e) => Err(e),
            }
        },
        None => {
            if flag {
                Ok(Some(Value::Bool(false)))
            } else if numeric {
                Ok(Some(Value::Null))
            } else {
                match find_subfields(composites, name) {
                    Some(subfields) => {
                        let element = null_element(subfields);
                        let mut items: Vec<Value> = Vec::new();
                        items.push(Value::Object(element));
                        proof {
                            lemma_values_view(items@);
                            assert(values_view(items@) =~= seq![Json::Object(element@)]);
                        }
                        Ok(Some(Value::Array(items)))
                    },
                    None => Ok(None),
                }
            }
        },
    }
}

/// Decodes the INFO fields of a record.
fn decode_info(record: &RawRecord, composites: &Vec<(String, Vec<String>)>) -> (r: Result<
    Object,
    VcfParserError,
>)
    ensures
        row_outcome_view(r) == decoded_info(
            *record,
            composites_view(composites@),
            record.header.info.len() as nat,
        ),
{
    let mut info = Object::new();
    let mut i: usize = 0;
    while i < record.header.info.len()
        invariant
            i <= record.header.info.len(),
            decoded_info(*record, composites_view(composites@), i as nat) == Ok::<Row, VcfParserError>(info@),
        decreases record.header.info.len() - i,
    {
        let field = &record.header.info[i];
        let name = match decode_token(&field.name) {
            Ok(name) => name,
            Err(e) => {
                proof {
                    lemma_info_failure(
                        *record,
                        composites_view(composites@),
                        (i + 1) as nat,
                        record.header.info.len() as nat,
                    );
                }
                return Err(e);
            },
        };
        let present = find_tokens(&record.info, &field.name);
        match read_info_value(field, name.as_str(), composites, present) {
            Ok(Some(v)) => {
                info.insert(name, v);
            },
            Ok(None) => {},
            Err(e) => {
                proof {
                    lemma_info_failure(
                        *record,
                        composites_view(composites@),
                        (i + 1) as nat,
                        record.header.info.len() as nat,
                    );
                }
                return Err(e);
            },
        }
        i += 1;
    }
    Ok(info)
}

/// Finds the position of the last key that is `key`.
fn find_last(keys: &Vec<Vec<u8>>, key: &Vec<u8>) -> (r: Option<usize>)
    ensures
        r is Some <==> last_position(keys@, key@, keys.len() as nat) is Some,
        r matches Some(at) ==> Some(at as int) == last_position(keys@, key@, keys.len() as nat)
            && at < keys.len(),
{
    let mut n: usize = keys.len();
    while n > 0
        invariant
            n <= keys.len(),
            last_position(keys@, key@, keys.len() as nat) == last_position(keys@, key@, n as nat),
        decreases n,
    {
        if same_bytes(&keys[n - 1], key) {
            return Some(n - 1);
        }
        n -= 1;
    }
    None
}

/// Finds the declaration of the first field named `name`.
fn find_declaration<'a>(fields: &'a Vec<FieldSchema>, name: &Vec<u8>) -> (r: Option<
    &'a FieldSchema,
>)
    ensures
        r is Some <==> declaration_of(fields@, name@, 0) is Some,
        r matches Some(field) ==> Some(*field) == declaration_of(fields@, name@, 0),
{
    let mut i: usize = 0;
    while i < fields.len()
        invariant
            i <= fields.len(),
            declaration_of(fields@, name@, 0) == declaration_of(fields@, name@, i as int),
        decreases fields.len() - i,
    {
        if same_bytes(&fields[i].name, name) {
            return Some(&fields[i]);
        }
        i += 1;
    }
    None
}

/// Reads what the FORMAT key at position `k` stands for in a sample.
fn read_sample_field(record: &RawRecord, sample: usize, k: usize) -> (r: Result<
    Value,
    VcfParserError,
>)
    requires
        k < record.format.len(),
    ensures
        outcome_view(r) == sample_field(*record, sample as int, k as int),
{
    let key = &record.format[k];
    if text_of_utf8(key.as_slice()).is_none() {
        return Err(VcfParserError::InvalidEncoding);
    }
    let at = match find_last(&record.format, key) {
        Some(at) => at,
        None => {
            return Err(VcfParserError::ShapeViolation);
        },
    };
    if sample >= record.genotype.len() || at >= record.genotype[sample].len() {
        return Err(VcfParserError::ShapeViolation);
    }
    let tokens = &record.genotype[sample][at];
    if tokens.len() > 0 && text_of_utf8(tokens[0].as_slice()).is_none() {
        return Err(VcfParserError::InvalidEncoding);
    }
    let field = match find_declaration(&record.header.format, key) {
        Some(field) => field,
        None => {
            return Err(VcfParserError::SchemaLookupFailure);
        },
    };
    if tokens.len() == 0 {
        return Ok(Value::Null);
    }
    match field.kind {
        ValueKind::Integer => read_numeric_token(field.kind, &tokens[0]),
        ValueKind::Float => read_numeric_token(field.kind, &tokens[0]),
        _ => match decode_token(&tokens[0]) {
            Ok(text) => Ok(Value::String(text)),
            Err(e) => Err(e),
        },
    }
}

/// Decodes the fields of one sample.
fn decode_sample(record: &RawRecord, sample: usize) -> (r: Result<Object, VcfParserError>)
    ensures
        row_outcome_view(r) == sample_fields(*record, sample as int, record.format.len() as nat),
{
    let mut fields = Object::new();
    let mut k: usize = 0;
    while k < record.format.len()
        invariant
            k <= record.format.len(),
            sample_fields(*record, sample as int, k as nat) == Ok::<Row, VcfParserError>(fields@),
        decreases record.format.len() - k,
    {
        match read_sample_field(record, sample, k) {
            Ok(v) => {
                match decode_token(&record.format[k]) {
                    Ok(name) => {
                        fields.insert(name, v);
                    },
                    Err(e) => {
                        return Err(e);
                    },
                }
            },
            Err(e) => {
                proof {
                    lemma_sample_failure(
                        *record,
                        sample as int,
                        (k + 1) as nat,
                        record.format.len() as nat,
                    );
                }
                return Err(e);
            },
        }
        k += 1;
    }
    Ok(fields)
}

/// Decodes the genotype of a record: the fields of each sample.
fn decode_genotype(record: &RawRecord, samples: &Vec<Vec<u8>>) -> (r: Result<
    Object,
    VcfParserError,
>)
    ensures
        row_outcome_view(r) == decoded_genotype(*record, samples@, samples.len() as nat),
{
    let mut genotype = Object::new();
    let mut s: usize = 0;
    while s < samples.len()
        invariant
            s <= samples.len(),
            decoded_genotype(*record, samples@, s as nat) == Ok::<Row, VcfParserError>(genotype@),
        decreases samples.len() - s,
    {
        let fields = match decode_sample(record, s) {
            Ok(fields) => fields,
            Err(e) => {
                proof {
                    lemma_genotype_failure(*record, samples@, (s + 1) as nat, samples.len() as nat);
                }
                return Err(e);
            },
        };
        match decode_token(&samples[s]) {
            Ok(name) => {
                genotype.insert(name, Value::Object(fields));
            },
            Err(e) => {
                proof {
                    lemma_genotype_failure(*record, samples@, (s + 1) as nat, samples.len() as nat);
                }
                return Err(e);
            },
        }
        s += 1;
    }
    Ok(genotype)
}

/// Joins the texts of the items with `separator` between them.
fn join_tokens(items: &Vec<Vec<u8>>, separator: char) -> (r: Result<String, VcfParserError>)
    ensures
        r is Ok <==> all_valid(items@),
        r matches Ok(text) ==> text@ == joined_text(items@, separator, items.len() as nat),
        r matches Err(e) ==> e == VcfParserError::InvalidEncoding,
{
    let mut out: Vec<char> = Vec::new();
    let mut i: usize = 0;
    while i < items.len()
        invariant
            i <= items.len(),
            forall|j: int| 0 <= j < i ==> valid_utf8(#[trigger] items[j]@),
            out@ == joined_text(items@, separator, i as nat),
        decreases items.len() - i,
    {
        let text = match text_of_utf8(items[i].as_slice()) {
            Some(text) => text,
            None => {
                return Err(VcfParserError::InvalidEncoding);
            },
        };
        if i > 0 {
            out.push(separator);
        }
        let chars = chars_of(text);
        let ghost before = out@;
        let mut j: usize = 0;
        while j < chars.len()
            invariant
                j <= chars.len(),
                out@ == before + chars@.subrange(0, j as int),
            decreases chars.len() - j,
        {
            out.push(chars[j]);
            j += 1;
        }
        proof {
            assert(chars@.subrange(0, chars.len() as int) =~= chars@);
            if i == 0 {
                assert(out@ =~= decode_utf8(items[0]@));
            }
        }
        i += 1;
    }
    Ok(string_of(&out))
}

/// The positional fields of a variant, and its genotype, as a row.
pub open spec fn positional_row(v: VariantView) -> Row {
    Map::<Seq<char>, Json>::empty().insert("chromosome"@, Json::String(v.chromosome)).insert(
        "position"@,
        Json::Number(natural(v.position)),
    ).insert("id"@, Json::String(v.id)).insert("reference"@, Json::String(v.reference)).insert(
        "alternative"@,
        Json::String(v.alternative),
    ).insert(
        "qual"@,
        match v.qual {
            Some(d) => Json::Number(d),
            None => Json::Null,
        },
    ).insert("filter"@, Json::String(v.filter)).insert("genotype"@, Json::Object(v.genotype))
}

/// A variant as a row: its positional fields and its genotype under their
/// names, and each INFO field under `info.` and its name.
pub open spec fn variant_row(v: VariantView) -> Row {
    exploded_row(positional_row(v), Seq::empty(), "info"@, v.info)
}

impl Variant {
    /// The variant as a value: an object with the positional fields, the
    /// genotype, and the INFO fields under `info.` and their names.
    pub fn to_value(&self) -> (r: Value)
        ensures
            r@ == Json::Object(variant_row(self@)),
    {
        let mut root = Object::new();
        root.insert("chromosome".to_owned(), Value::String(self.chromosome.clone()));
        root.insert("position".to_owned(), Value::Number(Number::from_u64(self.position)));
        root.insert("id".to_owned(), Value::String(self.id.clone()));
        root.insert("reference".to_owned(), Value::String(self.reference.clone()));
        root.insert("alternative".to_owned(), Value::String(self.alternative.clone()));
        let qual = match &self.qual {
            Some(n) => Value::Number(n.clone()),
            None => Value::Null,
        };
        root.insert("qual".to_owned(), qual);
        root.insert("filter".to_owned(), Value::String(self.filter.clone()));
        root.insert("genotype".to_owned(), Value::Object(self.genotype.clone()));
        let drops: Vec<String> = Vec::new();
        proof {
            assert(texts(drops@) =~= Seq::<Seq<char>>::empty());
        }
        Value::Object(explode_one(&root, &drops, "info", &self.info))
    }

    /// Decodes a record.
    ///
    /// `samples` names the sample columns of the record in order, and
    /// `csq_headers` gives the subfields of each composite field.
    pub fn new(
        vcf_record: &RawRecord,
        samples: &Vec<Vec<u8>>,
        csq_headers: &Vec<(String, Vec<String>)>,
    ) -> (r: Result<Variant, VcfParserError>)
        ensures
            match r {
                Ok(variant) => decoded_variant(
                    *vcf_record,
                    samples@,
                    composites_view(csq_headers@),
                ) == Ok::<
                    VariantView,
                    VcfParserError,
                >(variant@),
                Err(e) => decoded_variant(
                    *vcf_record,
                    samples@,
                    composites_view(csq_headers@),
                ) == Err::<
                    VariantView,
                    VcfParserError,
                >(e),
            },
    {
        let genotype = match decode_genotype(vcf_record, samples) {
            Ok(genotype) => genotype,
            Err(e) => {
                return Err(e);
            },
        };
        let info = match decode_info(vcf_record, csq_headers) {
            Ok(info) => info,
            Err(e) => {
                return Err(e);
            },
        };
        let chromosome = match decode_token(&vcf_record.chromosome) {
            Ok(text) => text,
            Err(e) => {
                return Err(e);
            },
        };
        let id = match join_tokens(&vcf_record.id, ';') {
            Ok(text) => text,
            Err(e) => {
                return Err(e);
            },
        };
        let alternative = match join_tokens(&vcf_record.alternative, ',') {
            Ok(text) => text,
            Err(e) => {
                return Err(e);
            },
        };
        let filter = match join_tokens(&vcf_record.filter, ',') {
            Ok(text) => text,
            Err(e) => {
                return Err(e);
            },
        };
        let reference = match decode_token(&vcf_record.reference) {
            Ok(text) => text,
            Err(e) => {
                return Err(e);
            },
        };
        let qual = match &vcf_record.qual {
            Some(n) => Some(n.clone()),
            None => None,
        };
        Ok(
            Variant {
                chromosome,
                position: vcf_record.position,
                id,
                reference,
                alternative,
                qual,
                filter,
                info,
                genotype,
            },
        )
    }
}

} // verus!
