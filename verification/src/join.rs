//! The outer join of the tables that exploding several fields of one record
//! gives.
//!
//! The last table is the accumulator. The tables before it are merged into it
//! one by one, from the last but one to the first. A row of the accumulator
//! takes the first row of the other table that has the same match token, and
//! that row is used up; rows that find none, on either side, are kept and get
//! null in the columns of the other side.
use crate::error::VcfParserError;
use crate::text::{chars_of, find_char, index_of_char, same_chars, slice_chars, texts};
use crate::utils::lemma_restrict_step;
use crate::value::{distinct, map_of, rows_view, Json, Object, Value};
use vstd::prelude::*;

verus! {

/// A row: a map from column paths to values.
pub type Row = Map<Seq<char>, Json>;

/// The token that stands for a row without a join key.
pub open spec fn missing() -> Seq<char> {
    "__MISSING__"@
}

/// The token by which a row is matched: the text of its join key up to the
/// first dot. A row whose join key is absent, null or no string has the token
/// [`missing`], so that two such rows match each other.
pub open spec fn match_token(row: Row, key: Seq<char>) -> Seq<char> {
    if row.contains_key(key) && row[key] is String {
        let text = row[key]->String_0;
        text.subrange(0, find_char(text, '.', 0))
    } else {
        missing()
    }
}

/// The position of the first row of `table`, from `from` on, whose match token
/// is `token`, or the length of `table` where there is none.
pub open spec fn first_match(table: Seq<Row>, key: Seq<char>, token: Seq<char>, from: int) -> int
    decreases table.len() - from,
{
    if from < 0 || from >= table.len() {
        table.len() as int
    } else if match_token(table[from], key) == token {
        from
    } else {
        first_match(table, key, token, from + 1)
    }
}

/// The first match lies at or after `from` and within the table, or at its end.
pub proof fn lemma_first_match(table: Seq<Row>, key: Seq<char>, token: Seq<char>, from: int)
    requires
        0 <= from <= table.len(),
    ensures
        from <= first_match(table, key, token, from) <= table.len(),
    decreases table.len() - from,
{
    if from < table.len() && match_token(table[from], key) != token {
        lemma_first_match(table, key, token, from + 1);
    }
}

/// The row `into` with the entries of `from` copied into it. An entry of `into`
/// that is not null stays as it is.
pub open spec fn absorb(into: Row, from: Row) -> Row {
    Map::new(
        |column: Seq<char>| into.contains_key(column) || from.contains_key(column),
        |column: Seq<char>|
            if from.contains_key(column) && (!into.contains_key(column) || into[column]
                == Json::Null) {
                from[column]
            } else {
                into[column]
            },
    )
}

/// The row with null in each of `columns` that it lacks.
pub open spec fn fill(row: Row, columns: Set<Seq<char>>) -> Row {
    Map::new(
        |column: Seq<char>| row.contains_key(column) || columns.contains(column),
        |column: Seq<char>|
            if row.contains_key(column) {
                row[column]
            } else {
                Json::Null
            },
    )
}

/// The columns of a table, as its first row shows them; none for a table
/// without rows.
pub open spec fn columns_of(table: Seq<Row>) -> Set<Seq<char>> {
    if table.len() > 0 {
        table[0].dom()
    } else {
        Set::empty()
    }
}

/// The state of a merge after the first `n` rows of the accumulator: the rows
/// made so far, and the rows of the other table that are not used up.
pub open spec fn merged_prefix(
    acc: Seq<Row>,
    acc_key: Seq<char>,
    other: Seq<Row>,
    other_key: Seq<char>,
    n: nat,
) -> (Seq<Row>, Seq<Row>)
    decreases n,
{
    if n == 0 {
        (Seq::empty(), other)
    } else {
        let (done, rest) = merged_prefix(acc, acc_key, other, other_key, (n - 1) as nat);
        let row = acc[n - 1];
        let at = first_match(rest, other_key, match_token(row, acc_key), 0);
        if at < rest.len() {
            (done.push(absorb(row, rest[at])), rest.remove(at))
        } else {
            (done.push(fill(row, columns_of(other))), rest)
        }
    }
}

/// Each of `rows` with null in the `columns` that it lacks.
pub open spec fn fill_all(rows: Seq<Row>, columns: Set<Seq<char>>) -> Seq<Row> {
    Seq::new(rows.len(), |i: int| fill(rows[i], columns))
}

/// The accumulator after `other` is merged into it: its rows in order, each
/// with the row that it matched or with null in the columns of `other`, and
/// then the rows of `other` that no row matched, with null in the columns of
/// the accumulator.
pub open spec fn merged(acc: Seq<Row>, acc_key: Seq<char>, other: Seq<Row>, other_key: Seq<char>) -> Seq<
    Row,
> {
    let (done, rest) = merged_prefix(acc, acc_key, other, other_key, acc.len());
    done + fill_all(rest, columns_of(acc))
}

/// The join of the tables from position `from` on.
pub open spec fn joined_from(tables: Seq<Seq<Row>>, keys: Seq<Seq<char>>, from: int) -> Seq<Row>
    decreases tables.len() - from,
{
    if from < 0 || from >= tables.len() - 1 {
        tables.last()
    } else {
        merged(joined_from(tables, keys, from + 1), keys.last(), tables[from], keys[from])
    }
}

/// The outcome of joining `tables` on `keys`: no rows for no tables, a shape
/// violation where tables and keys differ in number, and the join of all
/// tables otherwise.
pub open spec fn join_outcome(tables: Seq<Seq<Row>>, keys: Seq<Seq<char>>) -> Result<
    Seq<Row>,
    VcfParserError,
> {
    if tables.len() == 0 {
        Ok(Seq::empty())
    } else if tables.len() != keys.len() {
        Err(VcfParserError::ShapeViolation)
    } else {
        Ok(joined_from(tables, keys, 0))
    }
}

/// The views of tables, one for one.
pub open spec fn tables_view(tables: Seq<Vec<Object>>) -> Seq<Seq<Row>> {
    Seq::new(tables.len(), |i: int| rows_view(tables[i]@))
}

/// A single table joins to itself, whatever its key.
pub proof fn lemma_join_single(table: Seq<Row>, key: Seq<char>)
    ensures
        join_outcome(seq![table], seq![key]) == Ok::<Seq<Row>, VcfParserError>(table),
{
}

/// A merge keeps every row of the accumulator and every row of the other
/// table that was not used up, so it has at least as many rows as either.
pub proof fn lemma_merged_len(acc: Seq<Row>, acc_key: Seq<char>, other: Seq<Row>, other_key: Seq<char>)
    ensures
        merged(acc, acc_key, other, other_key).len() >= acc.len(),
        merged(acc, acc_key, other, other_key).len() >= other.len(),
        merged(acc, acc_key, other, other_key).len() <= acc.len() + other.len(),
{
    lemma_merged_prefix_len(acc, acc_key, other, other_key, acc.len());
}

/// After `n` rows of the accumulator, `n` rows are made, and at most `n` rows
/// of the other table are used up.
pub proof fn lemma_merged_prefix_len(
    acc: Seq<Row>,
    acc_key: Seq<char>,
    other: Seq<Row>,
    other_key: Seq<char>,
    n: nat,
)
    ensures
        merged_prefix(acc, acc_key, other, other_key, n).0.len() == n,
        merged_prefix(acc, acc_key, other, other_key, n).1.len() <= other.len(),
        merged_prefix(acc, acc_key, other, other_key, n).1.len() + n >= other.len(),
    decreases n,
{
    if n > 0 {
        lemma_merged_prefix_len(acc, acc_key, other, other_key, (n - 1) as nat);
        let (done, rest) = merged_prefix(acc, acc_key, other, other_key, (n - 1) as nat);
        lemma_first_match(rest, other_key, match_token(acc[n - 1], acc_key), 0);
    }
}

/// The join of the tables from position `from` on has at least as many rows
/// as each of them.
pub proof fn lemma_joined_len(tables: Seq<Seq<Row>>, keys: Seq<Seq<char>>, from: int, which: int)
    requires
        0 <= from <= which < tables.len(),
    ensures
        joined_from(tables, keys, from).len() >= tables[which].len(),
    decreases tables.len() - from,
{
    if from < tables.len() - 1 {
        let acc = joined_from(tables, keys, from + 1);
        lemma_merged_len(acc, keys.last(), tables[from], keys[from]);
        if which > from {
            lemma_joined_len(tables, keys, from + 1, which);
        }
    }
}

/// Computes the match token of a row.
fn token_of(row: &Object, key: &str) -> (r: Vec<char>)
    ensures
        r@ == match_token(row@, key@),
{
    match row.get(key) {
        Some(Value::String(text)) => {
            let chars = chars_of(text.as_str());
            let end = index_of_char(&chars, '.', 0);
            slice_chars(&chars, 0, end)
        },
        _ => chars_of("__MISSING__"),
    }
}

/// Finds the first row of `table` whose match token is `token`.
fn find_match(table: &Vec<Object>, key: &str, token: &Vec<char>) -> (r: usize)
    ensures
        r == first_match(rows_view(table@), key@, token@, 0),
        r <= table.len(),
{
    let ghost rows = rows_view(table@);
    let mut i: usize = 0;
    while i < table.len()
        invariant
            i <= table.len(),
            rows == rows_view(table@),
            first_match(rows, key@, token@, 0) == first_match(rows, key@, token@, i as int),
        decreases table.len() - i,
    {
        let candidate = token_of(&table[i], key);
        if same_chars(&candidate, token) {
            return i;
        }
        i += 1;
    }
    i
}

/// Copies the entries of `other` into `row`, leaving alone what is not null.
fn absorb_row(row: &mut Object, other: &Object)
    ensures
        final(row)@ == absorb(old(row)@, other@),
{
    let n = other.len();
    let ghost names = other.names();
    let ghost start = row@;
    proof {
        assert(row@ =~= absorb(start, other@.restrict(names.take(0).to_set())));
    }
    let mut i: usize = 0;
    while i < n
        invariant
            i <= n,
            n == other.names().len(),
            n == other.items().len(),
            names == other.names(),
            distinct(names),
            other@ == map_of(names, other.items()),
            row@ == absorb(start, other@.restrict(names.take(i as int).to_set())),
        decreases n - i,
    {
        let key = other.key_at(i);
        let value = other.value_at(i);
        let wanted = match row.get(key.as_str()) {
            None => true,
            Some(Value::Null) => true,
            Some(_) => false,
        };
        proof {
            lemma_restrict_step(other@, names, i as int);
            let before = other@.restrict(names.take(i as int).to_set());
            let after = other@.restrict(names.take(i + 1).to_set());
            assert(!before.contains_key(names[i as int])) by {
                if names.take(i as int).contains(names[i as int]) {
                    let at = choose|at: int|
                        0 <= at < names.take(i as int).len() && names.take(i as int)[at]
                            == names[i as int];
                    assert(names[at] == names[i as int]);
                }
            }
            if wanted {
                assert(absorb(start, after) =~= absorb(start, before).insert(key@, value@));
            } else {
                assert(absorb(start, after) =~= absorb(start, before));
            }
        }
        if wanted {
            row.insert(key.clone(), value.clone());
        }
        i += 1;
    }
    proof {
        assert(names.take(n as int) =~= names);
        assert(other@.restrict(names.to_set()) =~= other@);
    }
}

/// Puts null into each of `columns` that `row` lacks.
fn fill_row(row: &mut Object, columns: &Vec<String>)
    ensures
        final(row)@ == fill(old(row)@, texts(columns@).to_set()),
{
    let ghost names = texts(columns@);
    let ghost start = row@;
    proof {
        assert(row@ =~= fill(start, names.take(0).to_set()));
    }
    let mut i: usize = 0;
    while i < columns.len()
        invariant
            i <= columns.len(),
            names == texts(columns@),
            row@ == fill(start, names.take(i as int).to_set()),
        decreases columns.len() - i,
    {
        proof {
            let before = names.take(i as int);
            let after = names.take(i + 1);
            assert(after =~= before.push(names[i as int]));
            assert forall|x: Seq<char>| after.contains(x) <==> (before.contains(x) || x
                == names[i as int]) by {
                if before.contains(x) {
                    let at = choose|at: int| 0 <= at < before.len() && before[at] == x;
                    assert(after[at] == x);
                }
                if x == names[i as int] {
                    assert(after[i as int] == x);
                }
            }
            if row@.contains_key(names[i as int]) {
                assert(fill(start, after.to_set()) =~= fill(start, before.to_set()));
            } else {
                assert(fill(start, after.to_set()) =~= fill(start, before.to_set()).insert(
                    names[i as int],
                    Json::Null,
                ));
            }
        }
        if !row.contains_key(columns[i].as_str()) {
            row.insert(columns[i].clone(), Value::Null);
        }
        i += 1;
    }
    proof {
        assert(names.take(columns.len() as int) =~= names);
    }
}

/// The names of the columns of a table, as its first row shows them.
fn column_names(table: &Vec<Object>) -> (r: Vec<String>)
    ensures
        texts(r@).to_set() == columns_of(rows_view(table@)),
{
    let mut out: Vec<String> = Vec::new();
    if table.len() == 0 {
        proof {
            assert(texts(out@).to_set() =~= Set::<Seq<char>>::empty());
        }
        return out;
    }
    let first = &table[0];
    let n = first.len();
    let mut i: usize = 0;
    while i < n
        invariant
            i <= n,
            n == first.names().len(),
            out.len() == i,
            texts(out@) == first.names().take(i as int),
        decreases n - i,
    {
        let ghost before = out@;
        let name = first.key_at(i).clone();
        out.push(name);
        proof {
            assert(out@ == before.push(name));
            assert(texts(before) == first.names().take(i as int));
            assert forall|j: int| 0 <= j < i + 1 implies texts(out@)[j] == first.names().take(
                i + 1,
            )[j] by {
                if j < i {
                    assert(texts(out@)[j] == texts(before)[j]);
                }
            }
            assert(texts(out@) =~= first.names().take(i + 1));
        }
        i += 1;
    }
    proof {
        assert(first.names().take(n as int) =~= first.names());
        assert(first.names().to_set() =~= first@.dom());
    }
    out
}

/// Merges `other` into the accumulator.
fn merge_table(acc: Vec<Object>, acc_key: &str, other: Vec<Object>, other_key: &str) -> (r: Vec<
    Object,
>)
    ensures
        rows_view(r@) == merged(rows_view(acc@), acc_key@, rows_view(other@), other_key@),
{
    let other_columns = column_names(&other);
    let acc_columns = column_names(&acc);
    let ghost acc_rows = rows_view(acc@);
    let ghost other_rows = rows_view(other@);
    let mut rest = other;
    let mut done: Vec<Object> = Vec::new();
    let mut i: usize = 0;
    proof {
        assert(rows_view(done@) =~= Seq::<Row>::empty());
    }
    while i < acc.len()
        invariant
            i <= acc.len(),
            acc_rows == rows_view(acc@),
            texts(other_columns@).to_set() == columns_of(other_rows),
            (rows_view(done@), rows_view(rest@)) == merged_prefix(
                acc_rows,
                acc_key@,
                other_rows,
                other_key@,
                i as nat,
            ),
        decreases acc.len() - i,
    {
        let mut row = acc[i].clone();
        let token = token_of(&row, acc_key);
        let at = find_match(&rest, other_key, &token);
        let ghost done_before = rows_view(done@);
        let ghost rest_before = rows_view(rest@);
        if at < rest.len() {
            let matched = rest.remove(at);
            absorb_row(&mut row, &matched);
            proof {
                assert(rows_view(rest@) =~= rest_before.remove(at as int));
            }
        } else {
            fill_row(&mut row, &other_columns);
        }
        done.push(row);
        proof {
            assert(rows_view(done@) =~= done_before.push(row@));
        }
        i += 1;
    }
    let ghost done_rows = rows_view(done@);
    let ghost rest_rows = rows_view(rest@);
    let mut j: usize = 0;
    proof {
        assert(rows_view(done@) =~= done_rows + fill_all(rest_rows, columns_of(acc_rows)).take(0));
    }
    while j < rest.len()
        invariant
            j <= rest.len(),
            rest_rows == rows_view(rest@),
            texts(acc_columns@).to_set() == columns_of(acc_rows),
            rows_view(done@) == done_rows + fill_all(rest_rows, columns_of(acc_rows)).take(j as int),
        decreases rest.len() - j,
    {
        let mut row = rest[j].clone();
        fill_row(&mut row, &acc_columns);
        let ghost before = rows_view(done@);
        done.push(row);
        proof {
            assert(rows_view(done@) =~= before.push(row@));
            assert(fill_all(rest_rows, columns_of(acc_rows)).take(j + 1) =~= fill_all(
                rest_rows,
                columns_of(acc_rows),
            ).take(j as int).push(row@));
        }
        j += 1;
    }
    proof {
        let all = fill_all(rest_rows, columns_of(acc_rows));
        assert(all.take(rest.len() as int) =~= all);
    }
    done
}

/// Joins the tables on their keys, one key for each table.
///
/// No tables give no rows. A single table is handed back as it is.
pub fn outer_join(tables: Vec<Vec<Object>>, keys: &Vec<String>) -> (r: Result<
    Vec<Object>,
    VcfParserError,
>)
    ensures
        r is Ok <==> join_outcome(tables_view(tables@), texts(keys@)) is Ok,
        r matches Ok(rows) ==> Ok::<Seq<Row>, VcfParserError>(rows_view(rows@)) == join_outcome(
            tables_view(tables@),
            texts(keys@),
        ),
        r matches Err(e) ==> e == VcfParserError::ShapeViolation,
        tables.len() == 1 && keys.len() == 1 ==> (r matches Ok(rows) && rows_view(rows@) == rows_view(
            tables[0]@,
        )),
{
    let ghost all = tables_view(tables@);
    let ghost names = texts(keys@);
    let mut tables = tables;
    if tables.len() == 0 {
        let rows: Vec<Object> = Vec::new();
        proof {
            assert(rows_view(rows@) =~= Seq::<Row>::empty());
        }
        return Ok(rows);
    }
    if tables.len() != keys.len() {
        return Err(VcfParserError::ShapeViolation);
    }
    let n = tables.len();
    let acc_key = keys[n - 1].as_str();
    let mut acc = tables.pop().unwrap();
    let mut t: usize = n - 1;
    proof {
        assert(tables_view(tables@) =~= all.take(t as int));
    }
    while t > 0
        invariant
            t < n,
            n == keys.len(),
            n == all.len(),
            names == texts(keys@),
            acc_key@ == names.last(),
            tables.len() == t,
            tables_view(tables@) == all.take(t as int),
            rows_view(acc@) == joined_from(all, names, t as int),
        decreases t,
    {
        t -= 1;
        let ghost before = tables_view(tables@);
        let other = tables.pop().unwrap();
        proof {
            assert(tables_view(tables@) =~= all.take(t as int));
            assert(rows_view(other@) == before[t as int]);
        }
        acc = merge_table(acc, acc_key, other, keys[t].as_str());
    }
    Ok(acc)
}

} // verus!
