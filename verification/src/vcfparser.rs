//! The configuration of a run: what the arguments and the header of the input
//! settle before the first record is read.
use crate::error::VcfParserError;
use crate::filter::{filter_outcome, filter_record};
use crate::join::{join_outcome, outer_join, tables_view};
use crate::text::{
    chars_of, dotted, dotted_name, same_text, slice_chars, string_of, text_of_utf8, texts,
};
use crate::utils::{
    composites_view, explode_data, exploded, get_output_header, output_header, parse_csq_header,
    subfield_names, Composites,
};
use crate::value::{rows_view, Json, Object, Value};
use crate::variant::{decoded_variant, variant_row, RawRecord, Variant, VariantView};
use crate::OutputFormat;
use vstd::prelude::*;
use vstd::utf8::{decode_utf8, valid_utf8};

verus! {

/// The configuration of a run.
#[derive(Debug)]
pub struct VcfParser {
    /// The filter that rows must pass.
    pub filters: Value,
    /// The fields to explode, each with the prefix `info.`.
    pub info_fields: Vec<String>,
    /// The column on which the rows of each exploded field are joined.
    pub fields_join: Vec<String>,
    /// The format of the output.
    pub output_format: OutputFormat,
    /// The subfields of each composite field.
    pub csq_headers: Vec<(String, Vec<String>)>,
    /// The columns of the output.
    pub tsv_headers: Vec<String>,
}

/// Whether the fields to explode and the columns to join them on fit
/// together: there is at most one join column for each field, and where more
/// than one field is exploded there is exactly one for each.
pub open spec fn arguments_fit(fields: nat, joins: nat) -> bool {
    joins <= fields && (fields > 1 ==> fields == joins)
}

/// The names with `info.` before each.
pub open spec fn info_paths(fields: Seq<Seq<char>>) -> Seq<Seq<char>> {
    Seq::new(fields.len(), |i: int| dotted("info"@, fields[i]))
}

/// The join columns: each under the path of its field.
pub open spec fn join_paths(fields: Seq<Seq<char>>, joins: Seq<Seq<char>>) -> Seq<Seq<char>> {
    Seq::new(joins.len(), |i: int| dotted(dotted("info"@, fields[i]), joins[i]))
}

/// Whether the names and descriptions of all declared fields are well-formed
/// UTF-8.
pub open spec fn declarations_valid(declared: Seq<(Vec<u8>, Vec<u8>)>) -> bool {
    forall|i: int|
        0 <= i < declared.len() ==> valid_utf8((#[trigger] declared[i]).0@) && valid_utf8(
            declared[i].1@,
        )
}

/// The names of the declared fields.
pub open spec fn declared_names(declared: Seq<(Vec<u8>, Vec<u8>)>) -> Seq<Seq<char>> {
    Seq::new(declared.len(), |i: int| decode_utf8(declared[i].0@))
}

/// The composite fields among the first `n` declared fields, each with the
/// subfields that its description names: those whose name is among `fields`.
pub open spec fn composite_fields(declared: Seq<(Vec<u8>, Vec<u8>)>, fields: Seq<Seq<char>>, n: nat) -> Composites
    decreases n,
{
    if n == 0 {
        Seq::empty()
    } else {
        let so_far = composite_fields(declared, fields, (n - 1) as nat);
        let name = decode_utf8(declared[n - 1].0@);
        if fields.contains(name) {
            so_far.push((name, subfield_names(decode_utf8(declared[n - 1].1@))))
        } else {
            so_far
        }
    }
}

fn is_listed(items: &Vec<String>, name: &str) -> (r: bool)
    ensures
        r == texts(items@).contains(name@),
{
    let mut i: usize = 0;
    while i < items.len()
        invariant
            i <= items.len(),
            forall|j: int| 0 <= j < i ==> texts(items@)[j] != name@,
        decreases items.len() - i,
    {
        if same_text(items[i].as_str(), name) {
            proof {
                assert(texts(items@)[i as int] == name@);
            }
            return true;
        }
        i += 1;
    }
    false
}

impl VcfParser {
    /// Settles the configuration of a run from the arguments and from what the
    /// header declares: the name and the description of each INFO field, and
    /// the names of the samples.
    ///
    /// The arguments are invalid where the fields and the join columns do not
    /// fit together, or where a chosen column does not exist. A name or a
    /// description that is not well-formed UTF-8 is an invalid encoding.
    pub fn new(
        filters: Value,
        fields: Vec<String>,
        fields_join: Vec<String>,
        columns: Option<Vec<String>>,
        output_format: OutputFormat,
        declared: &Vec<(Vec<u8>, Vec<u8>)>,
        samples: &Vec<Vec<u8>>,
    ) -> (r: Result<VcfParser, VcfParserError>)
        ensures
            !arguments_fit(fields.len() as nat, fields_join.len() as nat) ==> (r matches Err(e)
                && e == VcfParserError::InvalidArgument),
            arguments_fit(fields.len() as nat, fields_join.len() as nat) && !declarations_valid(
                declared@,
            ) ==> (r matches Err(e) && e == VcfParserError::InvalidEncoding),
            arguments_fit(fields.len() as nat, fields_join.len() as nat) && declarations_valid(
                declared@,
            ) ==> match r {
                Ok(parser) => {
                    &&& parser.filters@ == filters@
                    &&& parser.output_format == output_format
                    &&& texts(parser.info_fields@) == info_paths(texts(fields@))
                    &&& texts(parser.fields_join@) == join_paths(texts(fields@), texts(fields_join@))
                    &&& composites_view(parser.csq_headers@) == composite_fields(
                        declared@,
                        texts(fields@),
                        declared.len() as nat,
                    )
                    &&& output_header(
                        declared_names(declared@),
                        composite_fields(declared@, texts(fields@), declared.len() as nat),
                        samples@,
                        columns,
                    ) == Ok::<Seq<Seq<char>>, VcfParserError>(texts(parser.tsv_headers@))
                },
                Err(e) => output_header(
                    declared_names(declared@),
                    composite_fields(declared@, texts(fields@), declared.len() as nat),
                    samples@,
                    columns,
                ) == Err::<Seq<Seq<char>>, VcfParserError>(e),
            },
    {
        if fields_join.len() > fields.len() || (fields.len() > 1 && fields.len()
            != fields_join.len()) {
            return Err(VcfParserError::InvalidArgument);
        }
        let mut info_fields: Vec<String> = Vec::new();
        let mut i: usize = 0;
        while i < fields.len()
            invariant
                i <= fields.len(),
                info_fields.len() == i,
                forall|j: int|
                    0 <= j < i ==> (#[trigger] info_fields[j])@ == dotted("info"@, fields[j]@),
            decreases fields.len() - i,
        {
            info_fields.push(dotted_name("info", fields[i].as_str()));
            i += 1;
        }
        let mut joins: Vec<String> = Vec::new();
        let mut k: usize = 0;
        while k < fields_join.len()
            invariant
                k <= fields_join.len(),
                fields_join.len() <= fields.len(),
                info_fields.len() == fields.len(),
                joins.len() == k,
                forall|j: int|
                    0 <= j < fields.len() ==> (#[trigger] info_fields[j])@ == dotted(
                        "info"@,
                        fields[j]@,
                    ),
                forall|j: int|
                    0 <= j < k ==> (#[trigger] joins[j])@ == dotted(
                        dotted("info"@, fields[j]@),
                        fields_join[j]@,
                    ),
            decreases fields_join.len() - k,
        {
            joins.push(dotted_name(info_fields[k].as_str(), fields_join[k].as_str()));
            k += 1;
        }
        let mut info_headers: Vec<String> = Vec::new();
        let mut csq_headers: Vec<(String, Vec<String>)> = Vec::new();
        let mut d: usize = 0;
        proof {
            assert(composites_view(csq_headers@) =~= composite_fields(declared@, texts(fields@), 0));
        }
        while d < declared.len()
            invariant
                d <= declared.len(),
                arguments_fit(fields.len() as nat, fields_join.len() as nat),
                info_headers.len() == d,
                forall|j: int|
                    0 <= j < d ==> valid_utf8((#[trigger] declared[j]).0@) && valid_utf8(
                        declared[j].1@,
                    ),
                forall|j: int|
                    0 <= j < d ==> (#[trigger] info_headers[j])@ == decode_utf8(declared[j].0@),
                composites_view(csq_headers@) == composite_fields(
                    declared@,
                    texts(fields@),
                    d as nat,
                ),
            decreases declared.len() - d,
        {
            let name = match text_of_utf8(declared[d].0.as_slice()) {
                Some(name) => name,
                None => {
                    return Err(VcfParserError::InvalidEncoding);
                },
            };
            let description = match text_of_utf8(declared[d].1.as_slice()) {
                Some(description) => description,
                None => {
                    return Err(VcfParserError::InvalidEncoding);
                },
            };
            info_headers.push(name.to_owned());
            if is_listed(&fields, name) {
                let subfields = parse_csq_header(description);
                let ghost before = composites_view(csq_headers@);
                csq_headers.push((name.to_owned(), subfields));
                proof {
                    assert(composites_view(csq_headers@) =~= before.push(
                        (name@, subfield_names(description@)),
                    ));
                }
            }
            d += 1;
        }
        proof {
            assert(texts(info_headers@) =~= declared_names(declared@));
            assert(texts(info_fields@) =~= info_paths(texts(fields@)));
            assert(texts(joins@) =~= join_paths(texts(fields@), texts(fields_join@)));
        }
        let tsv_headers = match get_output_header(&info_headers, &csq_headers, samples, &columns) {
            Ok(header) => header,
            Err(e) => {
                return Err(e);
            },
        };
        Ok(
            VcfParser {
                filters,
                info_fields,
                fields_join: joins,
                output_format,
                csq_headers,
                tsv_headers,
            },
        )
    }
}

/// A row: a map from column paths to values.
pub type Row = Map<Seq<char>, Json>;

/// The tables that exploding `data` on each of the first `n` fields gives,
/// each without the columns of all the fields. The first failure is the
/// outcome.
pub open spec fn exploded_tables(data: Json, fields: Seq<Seq<char>>, n: nat) -> Result<
    Seq<Seq<Row>>,
    VcfParserError,
>
    decreases n,
{
    if n == 0 {
        Ok(Seq::empty())
    } else {
        match exploded_tables(data, fields, (n - 1) as nat) {
            Err(e) => Err(e),
            Ok(tables) => match exploded(data, fields[n - 1], fields) {
                Err(e) => Err(e),
                Ok(table) => Ok(tables.push(table)),
            },
        }
    }
}

/// Those of the first `n` rows that pass the filter, in order. The first
/// failure of the filter is the outcome.
pub open spec fn surviving(rows: Seq<Row>, filter: Json, n: nat) -> Result<Seq<Row>, VcfParserError>
    decreases n,
{
    if n == 0 {
        Ok(Seq::empty())
    } else {
        match surviving(rows, filter, (n - 1) as nat) {
            Err(e) => Err(e),
            Ok(kept) => match filter_outcome(rows[n - 1], filter) {
                Err(e) => Err(e),
                Ok(true) => Ok(kept.push(rows[n - 1])),
                Ok(false) => Ok(kept),
            },
        }
    }
}

/// The rows that a record gives: the record is decoded, the variant is
/// exploded on each field, the tables are joined, and the rows that pass the
/// filter are kept.
pub open spec fn record_rows(
    record: RawRecord,
    samples: Seq<Vec<u8>>,
    composites: Composites,
    fields: Seq<Seq<char>>,
    joins: Seq<Seq<char>>,
    filter: Json,
) -> Result<Seq<Row>, VcfParserError> {
    match decoded_variant(record, samples, composites) {
        Err(e) => Err(e),
        Ok(variant) => match exploded_tables(
            Json::Object(variant_row(variant)),
            fields,
            fields.len(),
        ) {
            Err(e) => Err(e),
            Ok(tables) => match join_outcome(tables, joins) {
                Err(e) => Err(e),
                Ok(rows) => surviving(rows, filter, rows.len()),
            },
        },
    }
}

/// Once exploding fails, it fails in the same way however many more fields
/// are taken.
proof fn lemma_exploding_failure(data: Json, fields: Seq<Seq<char>>, k: nat, n: nat)
    requires
        k <= n,
        exploded_tables(data, fields, k) is Err,
    ensures
        exploded_tables(data, fields, n) == exploded_tables(data, fields, k),
    decreases n,
{
    if k < n {
        lemma_exploding_failure(data, fields, k, (n - 1) as nat);
    }
}

/// Once the filter fails, it fails in the same way however many more rows are
/// taken.
proof fn lemma_filtering_failure(rows: Seq<Row>, filter: Json, k: nat, n: nat)
    requires
        k <= n,
        surviving(rows, filter, k) is Err,
    ensures
        surviving(rows, filter, n) == surviving(rows, filter, k),
    decreases n,
{
    if k < n {
        lemma_filtering_failure(rows, filter, k, (n - 1) as nat);
    }
}

/// What an outcome that holds rows stands for.
pub open spec fn rows_outcome_view(r: Result<Vec<Object>, VcfParserError>) -> Result<
    Seq<Row>,
    VcfParserError,
> {
    match r {
        Ok(rows) => Ok(rows_view(rows@)),
        Err(e) => Err(e),
    }
}

impl VcfParser {
    /// Takes one record through the run: decodes it, explodes the variant on
    /// each field, joins the tables, and keeps the rows that pass the filter.
    pub fn rows(&self, record: &RawRecord, samples: &Vec<Vec<u8>>) -> (r: Result<
        Vec<Object>,
        VcfParserError,
    >)
        ensures
            rows_outcome_view(r) == record_rows(
                *record,
                samples@,
                composites_view(self.csq_headers@),
                texts(self.info_fields@),
                texts(self.fields_join@),
                self.filters@,
            ),
    {
        let variant = match Variant::new(record, samples, &self.csq_headers) {
            Ok(variant) => variant,
            Err(e) => {
                return Err(e);
            },
        };
        let data = variant.to_value();
        let ghost fields = texts(self.info_fields@);
        let mut tables: Vec<Vec<Object>> = Vec::new();
        let mut i: usize = 0;
        proof {
            assert(tables_view(tables@) =~= Seq::<Seq<Row>>::empty());
        }
        while i < self.info_fields.len()
            invariant
                i <= self.info_fields.len(),
                fields == texts(self.info_fields@),
                decoded_variant(*record, samples@, composites_view(self.csq_headers@)) == Ok::<
                    VariantView,
                    VcfParserError,
                >(variant@),
                data@ == Json::Object(variant_row(variant@)),
                exploded_tables(data@, fields, i as nat) == Ok::<Seq<Seq<Row>>, VcfParserError>(
                    tables_view(tables@),
                ),
            decreases self.info_fields.len() - i,
        {
            let ghost before = tables_view(tables@);
            match explode_data(data.clone(), self.info_fields[i].as_str(), &self.info_fields) {
                Ok(table) => {
                    tables.push(table);
                    proof {
                        assert(tables_view(tables@) =~= before.push(rows_view(table@)));
                    }
                },
                Err(e) => {
                    proof {
                        lemma_exploding_failure(data@, fields, (i + 1) as nat, fields.len());
                    }
                    return Err(e);
                },
            }
            i += 1;
        }
        let ghost exploded_all = tables_view(tables@);
        let joined = match outer_join(tables, &self.fields_join) {
            Ok(joined) => joined,
            Err(e) => {
                return Err(e);
            },
        };
        let ghost all = rows_view(joined@);
        let mut kept: Vec<Object> = Vec::new();
        let mut j: usize = 0;
        proof {
            assert(rows_view(kept@) =~= Seq::<Row>::empty());
        }
        while j < joined.len()
            invariant
                j <= joined.len(),
                all == rows_view(joined@),
                fields == texts(self.info_fields@),
                decoded_variant(*record, samples@, composites_view(self.csq_headers@)) == Ok::<
                    VariantView,
                    VcfParserError,
                >(variant@),
                data@ == Json::Object(variant_row(variant@)),
                exploded_tables(data@, fields, fields.len()) == Ok::<
                    Seq<Seq<Row>>,
                    VcfParserError,
                >(exploded_all),
                join_outcome(exploded_all, texts(self.fields_join@)) == Ok::<
                    Seq<Row>,
                    VcfParserError,
                >(all),
                surviving(all, self.filters@, j as nat) == Ok::<Seq<Row>, VcfParserError>(
                    rows_view(kept@),
                ),
            decreases joined.len() - j,
        {
            let ghost before = rows_view(kept@);
            match filter_record(&joined[j], &self.filters) {
                Ok(true) => {
                    let row = joined[j].clone();
                    kept.push(row);
                    proof {
                        assert(rows_view(kept@) =~= before.push(all[j as int]));
                    }
                },
                Ok(false) => {},
                Err(e) => {
                    proof {
                        lemma_filtering_failure(all, self.filters@, (j + 1) as nat, all.len());
                    }
                    return Err(e);
                },
            }
            j += 1;
        }
        Ok(kept)
    }
}

/// Whether a filter argument is a filter expression rather than the name of a
/// file: it is one where it holds a space.
pub fn is_expression(filter: &str) -> (r: bool)
    ensures
        r == filter@.contains(' '),
{
    let chars = chars_of(filter);
    let mut i: usize = 0;
    while i < chars.len()
        invariant
            i <= chars.len(),
            chars@ == filter@,
            forall|j: int| 0 <= j < i ==> chars[j] != ' ',
        decreases chars.len() - i,
    {
        if chars[i] == ' ' {
            return true;
        }
        i += 1;
    }
    false
}

/// Whether `s` ends with `suffix`.
pub open spec fn ends_with(s: Seq<char>, suffix: Seq<char>) -> bool {
    suffix.len() <= s.len() && s.subrange(s.len() - suffix.len(), s.len() as int) == suffix
}

/// Whether an input is compressed: it is where its name ends with `.vcf.gz`.
pub fn is_compressed(input: &str) -> (r: bool)
    ensures
        r == ends_with(input@, ".vcf.gz"@),
{
    let name = chars_of(input);
    let suffix = chars_of(".vcf.gz");
    if suffix.len() > name.len() {
        return false;
    }
    let offset = name.len() - suffix.len();
    let mut i: usize = 0;
    while i < suffix.len()
        invariant
            i <= suffix.len(),
            offset + suffix.len() == name.len(),
            name@ == input@,
            suffix@ == ".vcf.gz"@,
            forall|j: int| 0 <= j < i ==> name[offset + j] == suffix[j],
        decreases suffix.len() - i,
    {
        if name[offset + i] != suffix[i] {
            proof {
                assert(name@.subrange(offset as int, name.len() as int)[i as int] != suffix@[i as int]);
            }
            return false;
        }
        i += 1;
    }
    proof {
        assert(name@.subrange(offset as int, name.len() as int) =~= suffix@);
    }
    true
}

/// The position after the last dot of `s` before position `to`, or zero where
/// there is none.
pub open spec fn after_last_dot(s: Seq<char>, to: int) -> int
    decreases to,
{
    if to <= 0 || to > s.len() {
        0
    } else if s[to - 1] == '.' {
        to
    } else {
        after_last_dot(s, to - 1)
    }
}

/// Whether a name is accepted for the input: `-`, which stands for the
/// standard input, or a name whose text after its last dot is `vcf` or `gz`.
pub open spec fn is_input_name(name: Seq<char>) -> bool {
    let start = after_last_dot(name, name.len() as int);
    name == "-"@ || (start > 0 && (name.subrange(start, name.len() as int) == "vcf"@
        || name.subrange(start, name.len() as int) == "gz"@))
}

/// Whether a name is accepted for the input.
pub fn accepts_input_name(name: &str) -> (r: bool)
    ensures
        r == is_input_name(name@),
{
    if same_text(name, "-") {
        return true;
    }
    let chars = chars_of(name);
    let mut to: usize = chars.len();
    while to > 0 && chars[to - 1] != '.'
        invariant
            to <= chars.len(),
            after_last_dot(chars@, chars.len() as int) == after_last_dot(chars@, to as int),
        decreases to,
    {
        to -= 1;
    }
    if to == 0 {
        return false;
    }
    let extension = string_of(&slice_chars(&chars, to, chars.len()));
    same_text(extension.as_str(), "vcf") || same_text(extension.as_str(), "gz")
}

} // verus!
