//! The operations on decoded records: exploding a nested field into rows,
//! joining the rows of several fields, filtering rows, and laying rows out in
//! columns.
use crate::error::VcfParserError;
pub use crate::filter::filter_record;
use crate::filter::lookup;
pub use crate::join::outer_join;
use crate::number::{decimal_of, decimal_text, Number};
use crate::render::json_text;
use crate::text::{
    chars_of, chars_views, dotted, dotted_name, pieces, same_text, slice_chars, sort_strings,
    sorted, split_chars, starts_with, string_of, text_of_utf8, texts, trim_chars, trimmed,
};
use crate::value::{
    distinct, lemma_values_view, map_of, rows_view, values_view, Json, Object, Value,
};
use vstd::prelude::*;
use vstd::utf8::{decode_utf8, valid_utf8};

verus! {

/// A row: a map from column paths to values.
pub type Row = Map<Seq<char>, Json>;

/// What a text of a composite field stands for: nothing where it is empty, a
/// number where it is a numeral, and itself otherwise.
pub open spec fn coerced(input: Seq<char>) -> Json {
    if input.len() == 0 {
        Json::Null
    } else {
        match decimal_of(input) {
            Some(d) => Json::Number(d),
            None => Json::String(input),
        }
    }
}

/// Reads a text as a number where it is a numeral, as null where it is empty,
/// and keeps it as a string otherwise.
pub fn try_parse_number(input: &str) -> (r: Value)
    ensures
        r@ == coerced(input@),
{
    if input.is_empty() {
        return Value::Null;
    }
    match Number::parse(input) {
        Some(n) => Value::Number(n),
        None => Value::String(input.to_owned()),
    }
}

/// Whether a column of an exploded row comes from the element: its path is
/// `path`, a dot, and a name of the element.
pub open spec fn promoted(path: Seq<char>, element: Row, column: Seq<char>) -> bool {
    starts_with(column, path + seq!['.']) && element.contains_key(
        column.skip((path.len() + 1) as int),
    )
}

/// The row that one element of an exploded field gives: the root without the
/// dropped columns, and each entry of the element under `path`, a dot, and its
/// name. Where both give a column, the element's entry stands.
pub open spec fn exploded_row(root: Row, drops: Seq<Seq<char>>, path: Seq<char>, element: Row) -> Row {
    Map::new(
        |column: Seq<char>|
            promoted(path, element, column) || (root.contains_key(column) && !drops.contains(
                column,
            )),
        |column: Seq<char>|
            if promoted(path, element, column) {
                element[column.skip((path.len() + 1) as int)]
            } else {
                root[column]
            },
    )
}

/// Whether every item is an object.
pub open spec fn all_objects(items: Seq<Json>) -> bool {
    forall|i: int| 0 <= i < items.len() ==> #[trigger] items[i] is Object
}

/// What exploding `data` on the field `path` gives: one row for each element of
/// the array under `path`, in order. It is a shape violation where `data` is no
/// object, holds no array under `path`, or the array holds anything but
/// objects.
pub open spec fn exploded(data: Json, path: Seq<char>, drops: Seq<Seq<char>>) -> Result<
    Seq<Row>,
    VcfParserError,
> {
    if data is Object && data->Object_0.contains_key(path) && data->Object_0[path] is Array
        && all_objects(data->Object_0[path]->Array_0) {
        let root = data->Object_0;
        let items = root[path]->Array_0;
        Ok(Seq::new(items.len(), |i: int| exploded_row(root, drops, path, items[i]->Object_0)))
    } else {
        Err(VcfParserError::ShapeViolation)
    }
}

/// A column is `path`, a dot and `name` exactly when it starts with `path` and
/// a dot and `name` is what follows.
pub proof fn lemma_dotted(path: Seq<char>, name: Seq<char>, column: Seq<char>)
    ensures
        (column == dotted(path, name)) <==> (starts_with(column, path + seq!['.']) && column.skip(
            (path.len() + 1) as int,
        ) == name),
{
    let head = path + seq!['.'];
    if column == dotted(path, name) {
        assert(column.subrange(0, head.len() as int) =~= head);
        assert(column.skip((path.len() + 1) as int) =~= name);
    }
    if starts_with(column, head) && column.skip((path.len() + 1) as int) == name {
        assert(column =~= column.subrange(0, head.len() as int) + column.skip(
            (path.len() + 1) as int,
        ));
    }
}

/// Taking one more name into the part of a map that is kept adds that name's
/// entry.
pub proof fn lemma_restrict_step(m: Row, names: Seq<Seq<char>>, k: int)
    requires
        0 <= k < names.len(),
        m.contains_key(names[k]),
    ensures
        m.restrict(names.take(k + 1).to_set()) == m.restrict(names.take(k).to_set()).insert(
            names[k],
            m[names[k]],
        ),
{
    let before = names.take(k);
    let after = names.take(k + 1);
    assert(after =~= before.push(names[k]));
    assert forall|x: Seq<char>| after.contains(x) <==> (before.contains(x) || x == names[k]) by {
        if before.contains(x) {
            let at = choose|at: int| 0 <= at < before.len() && before[at] == x;
            assert(after[at] == x);
        }
        if x == names[k] {
            assert(after[k] == x);
        }
    }
    assert(m.restrict(after.to_set()) =~= m.restrict(before.to_set()).insert(names[k], m[names[k]]));
}

/// The rows of the root without the columns to drop.
pub open spec fn without(root: Row, drops: Seq<Seq<char>>) -> Row {
    Map::new(
        |column: Seq<char>| root.contains_key(column) && !drops.contains(column),
        |column: Seq<char>| root[column],
    )
}

/// Makes the row of one element of an exploded field.
pub(crate) fn explode_one(root: &Object, drops: &Vec<String>, key: &str, element: &Object) -> (row: Object)
    ensures
        row@ == exploded_row(root@, texts(drops@), key@, element@),
{
    let mut row = root.clone();
    let ghost dropped = texts(drops@);
    let mut j: usize = 0;
    while j < drops.len()
        invariant
            j <= drops.len(),
            dropped == texts(drops@),
            row@ == without(root@, dropped.take(j as int)),
        decreases drops.len() - j,
    {
        row.remove(drops[j].as_str());
        proof {
            let before = dropped.take(j as int);
            let after = dropped.take(j + 1);
            assert(after =~= before.push(drops[j as int]@));
            assert forall|column: Seq<char>| after.contains(column) <==> (before.contains(column)
                || column == drops[j as int]@) by {
                if before.contains(column) {
                    let at = choose|at: int| 0 <= at < before.len() && before[at] == column;
                    assert(after[at] == column);
                }
                if column == drops[j as int]@ {
                    assert(after[j as int] == column);
                }
            }
            assert(row@ =~= without(root@, after));
        }
        j += 1;
    }
    proof {
        assert(dropped.take(drops.len() as int) =~= dropped);
    }
    let n = element.len();
    let ghost names = element.names();
    let mut k: usize = 0;
    proof {
        assert(row@ =~= exploded_row(
            root@,
            dropped,
            key@,
            element@.restrict(names.take(0).to_set()),
        ));
    }
    while k < n
        invariant
            k <= n,
            n == element.names().len(),
            n == element.items().len(),
            names == element.names(),
            distinct(names),
            element@ == map_of(names, element.items()),
            row@ == exploded_row(root@, dropped, key@, element@.restrict(names.take(k as int).to_set())),
        decreases n - k,
    {
        let name = dotted_name(key, element.key_at(k).as_str());
        let value = element.value_at(k).clone();
        proof {
            let before = element@.restrict(names.take(k as int).to_set());
            let after = element@.restrict(names.take(k + 1).to_set());
            assert(names.take(k + 1) =~= names.take(k as int).push(names[k as int]));
            lemma_restrict_step(element@, names, k as int);
            assert forall|column: Seq<char>|
                promoted(key@, after, column) <==> (promoted(key@, before, column) || column
                    == name@) by {
                lemma_dotted(key@, names[k as int], column);
            }
            assert forall|column: Seq<char>| promoted(key@, after, column) implies (
            #[trigger] exploded_row(root@, dropped, key@, after)[column]) == exploded_row(
                root@,
                dropped,
                key@,
                before,
            ).insert(name@, value@)[column] by {
                lemma_dotted(key@, names[k as int], column);
            }
            assert(exploded_row(root@, dropped, key@, after) =~= exploded_row(
                root@,
                dropped,
                key@,
                before,
            ).insert(name@, value@));
        }
        row.insert(name, value);
        k += 1;
    }
    proof {
        assert(names.take(n as int) =~= names);
        assert(element@.restrict(names.to_set()) =~= element@);
    }
    row
}

/// Explodes `data` on the field `key`: one row for each element of the array
/// under `key`, made of the root without the columns in `drops` and of the
/// element's entries under `key`, a dot, and their names.
pub fn explode_data(data: Value, key: &str, drops: &Vec<String>) -> (r: Result<
    Vec<Object>,
    VcfParserError,
>)
    ensures
        r is Ok <==> exploded(data@, key@, texts(drops@)) is Ok,
        r matches Ok(rows) ==> Ok::<Seq<Row>, VcfParserError>(rows_view(rows@)) == exploded(
            data@,
            key@,
            texts(drops@),
        ),
        r matches Err(e) ==> e == VcfParserError::ShapeViolation,
{
    let root = match &data {
        Value::Object(root) => root,
        _ => {
            return Err(VcfParserError::ShapeViolation);
        },
    };
    let items = match root.get(key) {
        Some(Value::Array(items)) => items,
        _ => {
            return Err(VcfParserError::ShapeViolation);
        },
    };
    proof {
        lemma_values_view(items@);
    }
    let mut rows: Vec<Object> = Vec::new();
    let mut i: usize = 0;
    while i < items.len()
        invariant
            i <= items.len(),
            rows.len() == i,
            data@ is Object,
            data@->Object_0 == root@,
            root@.contains_key(key@),
            root@[key@] == Json::Array(values_view(items@)),
            values_view(items@).len() == items.len(),
            forall|j: int| 0 <= j < items.len() ==> #[trigger] values_view(items@)[j] == items[j]@,
            forall|j: int| 0 <= j < i ==> #[trigger] values_view(items@)[j] is Object,
            forall|j: int|
                0 <= j < i ==> (#[trigger] rows[j])@ == exploded_row(
                    root@,
                    texts(drops@),
                    key@,
                    values_view(items@)[j]->Object_0,
                ),
        decreases items.len() - i,
    {
        match &items[i] {
            Value::Object(element) => {
                let row = explode_one(root, drops, key, element);
                rows.push(row);
                proof {
                    assert(items[i as int]@ == Json::Object(element@));
                    assert(rows[i as int]@ == exploded_row(
                        root@,
                        texts(drops@),
                        key@,
                        items[i as int]@->Object_0,
                    ));
                }
            },
            _ => {
                proof {
                    assert(!(values_view(items@)[i as int] is Object));
                }
                return Err(VcfParserError::ShapeViolation);
            },
        }
        i += 1;
    }
    proof {
        let expected = Seq::new(
            items.len() as nat,
            |j: int| exploded_row(root@, texts(drops@), key@, values_view(items@)[j]->Object_0),
        );
        assert(rows_view(rows@) =~= expected);
        assert(all_objects(values_view(items@)));
    }
    Ok(rows)
}

/// The position of the first colon followed by a space at or after `from`, or
/// the length of `s` where there is none.
pub open spec fn find_colon(s: Seq<char>, from: int) -> int
    decreases s.len() - from,
{
    if from < 0 || from + 1 >= s.len() {
        s.len() as int
    } else if s[from] == ':' && s[from + 1] == ' ' {
        from
    } else {
        find_colon(s, from + 1)
    }
}

/// The texts without the white space at their ends, one for one.
pub open spec fn all_trimmed(items: Seq<Seq<char>>) -> Seq<Seq<char>> {
    Seq::new(items.len(), |i: int| trimmed(items[i]))
}

/// The names of the subfields that the description of a composite field
/// gives: the text between the first colon-and-space and the next is cut at
/// each bar, and the pieces are trimmed. A description without a colon followed
/// by a space gives no names.
pub open spec fn subfield_names(description: Seq<char>) -> Seq<Seq<char>> {
    let colon = find_colon(description, 0);
    if colon >= description.len() {
        Seq::empty()
    } else {
        let start = colon + 2;
        let end = find_colon(description, start);
        all_trimmed(pieces(description.subrange(start, end), '|'))
    }
}

fn search_colon(s: &Vec<char>, from: usize) -> (r: usize)
    requires
        from <= s.len(),
    ensures
        r == find_colon(s@, from as int),
        from <= r <= s.len(),
        r < s.len() ==> r + 2 <= s.len(),
{
    let mut i: usize = from;
    while i < s.len() && i + 1 < s.len() && !(s[i] == ':' && s[i + 1] == ' ')
        invariant
            from <= i <= s.len(),
            find_colon(s@, from as int) == find_colon(s@, i as int),
        decreases s.len() - i,
    {
        i += 1;
    }
    if i < s.len() && i + 1 < s.len() {
        i
    } else {
        s.len()
    }
}

/// Reads the names of the subfields of a composite field from its
/// description.
pub fn parse_csq_header(header: &str) -> (r: Vec<String>)
    ensures
        texts(r@) == subfield_names(header@),
{
    let chars = chars_of(header);
    let mut out: Vec<String> = Vec::new();
    let colon = search_colon(&chars, 0);
    if colon >= chars.len() {
        proof {
            assert(texts(out@) =~= Seq::<Seq<char>>::empty());
        }
        return out;
    }
    let start = colon + 2;
    let end = search_colon(&chars, start);
    let segment = slice_chars(&chars, start, end);
    let parts = split_chars(&segment, '|');
    let mut i: usize = 0;
    while i < parts.len()
        invariant
            i <= parts.len(),
            out.len() == i,
            forall|j: int| 0 <= j < i ==> (#[trigger] out[j])@ == trimmed(parts[j]@),
        decreases parts.len() - i,
    {
        let name = trim_chars(&parts[i]);
        out.push(string_of(&name));
        i += 1;
    }
    proof {
        assert(texts(out@) =~= all_trimmed(chars_views(parts@)));
    }
    out
}

/// The declarations of the composite fields: the name of each with the names
/// of its subfields, in order.
pub type Composites = Seq<(Seq<char>, Seq<Seq<char>>)>;

/// What a list of declarations of composite fields stands for.
pub open spec fn composites_view(items: Seq<(String, Vec<String>)>) -> Composites {
    Seq::new(items.len(), |i: int| (items[i].0@, texts(items[i].1@)))
}

/// The subfields declared for the composite field `name`: those of the first
/// entry under that name, from position `from` on.
pub open spec fn declared_subfields(composites: Composites, name: Seq<char>, from: int) -> Option<
    Seq<Seq<char>>,
>
    decreases composites.len() - from,
{
    if from < 0 || from >= composites.len() {
        None
    } else if composites[from].0 == name {
        Some(composites[from].1)
    } else {
        declared_subfields(composites, name, from + 1)
    }
}

/// The columns that an INFO field gives: one for each declared subfield of a
/// composite field, `info.`, the field and the subfield joined by dots, and
/// the single column `info.` and the field otherwise.
pub open spec fn field_columns(composites: Composites, field: Seq<char>) -> Seq<
    Seq<char>,
> {
    match declared_subfields(composites, field, 0) {
        Some(subfields) => Seq::new(
            subfields.len(),
            |i: int| dotted(dotted("info"@, field), subfields[i]),
        ),
        None => seq![dotted("info"@, field)],
    }
}

/// The columns of the first `n` INFO fields, in the order of the fields.
pub open spec fn info_columns(
    fields: Seq<Seq<char>>,
    composites: Composites,
    n: nat,
) -> Seq<Seq<char>>
    decreases n,
{
    if n == 0 {
        Seq::empty()
    } else {
        info_columns(fields, composites, (n - 1) as nat) + field_columns(composites, fields[n - 1])
    }
}

/// The columns that every output has, in order.
pub open spec fn fixed_columns() -> Seq<Seq<char>> {
    seq![
        "chromosome"@,
        "position"@,
        "id"@,
        "reference"@,
        "alternative"@,
        "qual"@,
        "filter"@,
    ]
}

/// The texts that the byte strings encode, one for one.
pub open spec fn decoded(items: Seq<Vec<u8>>) -> Seq<Seq<char>> {
    Seq::new(items.len(), |i: int| decode_utf8(items[i]@))
}

/// Whether every byte string is well-formed UTF-8.
pub open spec fn all_valid(items: Seq<Vec<u8>>) -> bool {
    forall|i: int| 0 <= i < items.len() ==> valid_utf8(#[trigger] items[i]@)
}

/// The full header: the fixed columns, then the columns of the INFO fields
/// in ascending order, then the samples in their own order.
pub open spec fn full_header(columns: Seq<Seq<char>>, samples: Seq<Seq<char>>) -> Seq<Seq<char>> {
    fixed_columns() + sorted(columns) + samples
}

/// Whether every one of `chosen` is among `header`.
pub open spec fn all_among(chosen: Seq<Seq<char>>, header: Seq<Seq<char>>) -> bool {
    forall|i: int| 0 <= i < chosen.len() ==> header.contains(#[trigger] chosen[i])
}

/// The outcome of laying out the output columns.
///
/// A sample name that is not well-formed UTF-8 is an invalid encoding. Without
/// chosen columns the outcome is the full header. With chosen columns the
/// outcome is those columns where all of them are in the full header, and an
/// invalid argument otherwise.
pub open spec fn output_header(
    fields: Seq<Seq<char>>,
    composites: Composites,
    samples: Seq<Vec<u8>>,
    chosen: Option<Vec<String>>,
) -> Result<Seq<Seq<char>>, VcfParserError> {
    let full = full_header(info_columns(fields, composites, fields.len()), decoded(samples));
    if !all_valid(samples) {
        Err(VcfParserError::InvalidEncoding)
    } else {
        match chosen {
            None => Ok(full),
            Some(wanted) => if all_among(texts(wanted@), full) {
                Ok(texts(wanted@))
            } else {
                Err(VcfParserError::InvalidArgument)
            },
        }
    }
}

/// What an outcome that holds a list of strings stands for.
pub open spec fn header_view(r: Result<Vec<String>, VcfParserError>) -> Result<
    Seq<Seq<char>>,
    VcfParserError,
> {
    match r {
        Ok(header) => Ok(texts(header@)),
        Err(e) => Err(e),
    }
}

pub(crate) fn find_subfields<'a>(composites: &'a Vec<(String, Vec<String>)>, name: &str) -> (r: Option<
    &'a Vec<String>,
>)
    ensures
        r is Some <==> declared_subfields(composites_view(composites@), name@, 0) is Some,
        r matches Some(subfields) ==> Some(texts(subfields@)) == declared_subfields(
            composites_view(composites@),
            name@,
            0,
        ),
{
    let ghost declared = composites_view(composites@);
    let mut i: usize = 0;
    while i < composites.len()
        invariant
            i <= composites.len(),
            declared == composites_view(composites@),
            declared_subfields(declared, name@, 0) == declared_subfields(declared, name@, i as int),
        decreases composites.len() - i,
    {
        if same_text(composites[i].0.as_str(), name) {
            return Some(&composites[i].1);
        }
        i += 1;
    }
    None
}

fn is_among(header: &Vec<String>, column: &str) -> (r: bool)
    ensures
        r == texts(header@).contains(column@),
{
    let mut i: usize = 0;
    while i < header.len()
        invariant
            i <= header.len(),
            forall|j: int| 0 <= j < i ==> texts(header@)[j] != column@,
        decreases header.len() - i,
    {
        if same_text(header[i].as_str(), column) {
            proof {
                assert(texts(header@)[i as int] == column@);
            }
            return true;
        }
        i += 1;
    }
    false
}

/// Lays out the columns of the output.
///
/// The full header holds the fixed columns, the columns of the INFO fields in
/// ascending order, and the samples. Where the user chose columns, every one
/// of them must be in the full header, and the chosen columns are the output;
/// a column that is not in the full header is an invalid argument. A sample
/// name that is not well-formed UTF-8 is an invalid encoding.
pub fn get_output_header(
    info_header: &Vec<String>,
    csq_header: &Vec<(String, Vec<String>)>,
    samples: &Vec<Vec<u8>>,
    user_columns: &Option<Vec<String>>,
) -> (r: Result<Vec<String>, VcfParserError>)
    ensures
        header_view(r) == output_header(
            texts(info_header@),
            composites_view(csq_header@),
            samples@,
            *user_columns,
        ),
{
    let ghost fields = texts(info_header@);
    let ghost composites = composites_view(csq_header@);
    let mut columns: Vec<String> = Vec::new();
    let mut i: usize = 0;
    proof {
        assert(texts(columns@) =~= info_columns(fields, composites, 0));
    }
    while i < info_header.len()
        invariant
            i <= info_header.len(),
            fields == texts(info_header@),
            composites == composites_view(csq_header@),
            texts(columns@) == info_columns(fields, composites, i as nat),
        decreases info_header.len() - i,
    {
        let field = info_header[i].as_str();
        let prefix = dotted_name("info", field);
        let ghost before = texts(columns@);
        match find_subfields(csq_header, field) {
            Some(subfields) => {
                let mut j: usize = 0;
                proof {
                    assert(texts(columns@) =~= before + field_columns(composites, field@).take(0));
                }
                while j < subfields.len()
                    invariant
                        j <= subfields.len(),
                        prefix@ == dotted("info"@, field@),
                        composites == composites_view(csq_header@),
                        declared_subfields(composites, field@, 0) == Some(texts(subfields@)),
                        texts(columns@) == before + field_columns(composites, field@).take(
                            j as int,
                        ),
                    decreases subfields.len() - j,
                {
                    let ghost so_far = texts(columns@);
                    let column = dotted_name(prefix.as_str(), subfields[j].as_str());
                    columns.push(column);
                    proof {
                        assert(texts(columns@) =~= so_far.push(column@));
                        assert(field_columns(composites, field@).take(j + 1) =~= field_columns(
                            composites,
                            field@,
                        ).take(j as int).push(column@));
                        assert(texts(columns@) =~= before + field_columns(composites, field@).take(
                            j + 1,
                        ));
                    }
                    j += 1;
                }
                proof {
                    assert(field_columns(composites, field@).take(subfields.len() as int)
                        =~= field_columns(composites, field@));
                }
            },
            None => {
                columns.push(prefix);
                proof {
                    assert(texts(columns@) =~= before + field_columns(composites, field@));
                }
            },
        }
        i += 1;
    }
    let ghost unsorted = texts(columns@);
    sort_strings(&mut columns);
    let mut names: Vec<String> = Vec::new();
    let mut s: usize = 0;
    while s < samples.len()
        invariant
            s <= samples.len(),
            names.len() == s,
            forall|j: int| 0 <= j < s ==> valid_utf8(#[trigger] samples[j]@),
            forall|j: int| 0 <= j < s ==> (#[trigger] names[j])@ == decode_utf8(samples[j]@),
        decreases samples.len() - s,
    {
        match text_of_utf8(samples[s].as_slice()) {
            Some(name) => {
                names.push(name.to_owned());
            },
            None => {
                return Err(VcfParserError::InvalidEncoding);
            },
        }
        s += 1;
    }
    let mut header: Vec<String> = vec![
        "chromosome".to_owned(),
        "position".to_owned(),
        "id".to_owned(),
        "reference".to_owned(),
        "alternative".to_owned(),
        "qual".to_owned(),
        "filter".to_owned(),
    ];
    let ghost ordered = texts(columns@);
    let ghost sample_names = texts(names@);
    proof {
        assert(texts(header@) =~= fixed_columns());
        assert(sample_names =~= decoded(samples@));
        assert(texts(info_header@).len() == info_header.len());
    }
    header.append(&mut columns);
    proof {
        assert(texts(header@) =~= fixed_columns() + ordered);
    }
    header.append(&mut names);
    proof {
        assert(texts(header@) =~= full_header(unsorted, sample_names));
        assert(all_valid(samples@));
    }
    match user_columns {
        Some(chosen) => {
            let mut c: usize = 0;
            while c < chosen.len()
                invariant
                    c <= chosen.len(),
                    all_valid(samples@),
                    user_columns == Some(*chosen),
                    composites == composites_view(csq_header@),
                    texts(header@) == full_header(unsorted, sample_names),
                    unsorted == info_columns(
                        texts(info_header@),
                        composites,
                        texts(info_header@).len(),
                    ),
                    sample_names == decoded(samples@),
                    forall|j: int| 0 <= j < c ==> texts(header@).contains(#[trigger] texts(chosen@)[j]),
                decreases chosen.len() - c,
            {
                if !is_among(&header, chosen[c].as_str()) {
                    proof {
                        assert(!texts(header@).contains(texts(chosen@)[c as int]));
                        assert(!all_among(texts(chosen@), texts(header@)));
                    }
                    return Err(VcfParserError::InvalidArgument);
                }
                c += 1;
            }
            Ok(copy_strings(chosen))
        },
        None => Ok(header),
    }
}

/// Copies a sequence of strings.
pub fn copy_strings(items: &Vec<String>) -> (r: Vec<String>)
    ensures
        texts(r@) == texts(items@),
{
    let mut out: Vec<String> = Vec::new();
    let mut i: usize = 0;
    while i < items.len()
        invariant
            i <= items.len(),
            out.len() == i,
            forall|j: int| 0 <= j < i ==> out[j]@ == items[j]@,
        decreases items.len() - i,
    {
        out.push(items[i].clone());
        i += 1;
    }
    proof {
        assert(texts(out@) =~= texts(items@));
    }
    out
}

/// The text of a cell: nothing for null, the plain decimal for a number, the
/// text itself for a string, and the text form for any other value.
pub open spec fn cell_text(v: Json) -> Seq<char> {
    match v {
        Json::Null => Seq::empty(),
        Json::Number(d) => decimal_text(d),
        Json::String(s) => s,
        _ => json_text(v),
    }
}

/// The cells of a row under the columns of a header, in order. A column that
/// the row lacks is null.
pub open spec fn row_cells(row: Row, header: Seq<Seq<char>>) -> Seq<Seq<char>> {
    Seq::new(header.len(), |i: int| cell_text(lookup(row, header[i])))
}

fn render_cell(v: &Value) -> (r: String)
    ensures
        r@ == cell_text(v@),
{
    match v {
        Value::Null => String::new(),
        Value::Number(n) => n.to_text(),
        Value::String(s) => s.clone(),
        _ => v.to_text(),
    }
}

/// Lays a row out under the columns of a header.
pub fn get_row(data: &Object, header: &Vec<String>) -> (r: Vec<String>)
    ensures
        texts(r@) == row_cells(data@, texts(header@)),
{
    let mut out: Vec<String> = Vec::new();
    let mut i: usize = 0;
    while i < header.len()
        invariant
            i <= header.len(),
            out.len() == i,
            forall|j: int|
                0 <= j < i ==> (#[trigger] out[j])@ == cell_text(lookup(data@, header[j]@)),
        decreases header.len() - i,
    {
        let cell = match data.get(header[i].as_str()) {
            Some(v) => render_cell(v),
            None => String::new(),
        };
        out.push(cell);
        i += 1;
    }
    proof {
        assert(texts(out@) =~= row_cells(data@, texts(header@)));
    }
    out
}

} // verus!
