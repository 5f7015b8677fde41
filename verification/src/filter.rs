//! Filters: trees of conjunctions, disjunctions and comparisons, evaluated
//! against a row.
//!
//! A filter is written as a [`Value`]. Null accepts every row. An object is a
//! conjunction where it has a key that reads `AND` in any letter case, a
//! disjunction where it has one that reads `OR`, and a comparison with the
//! entries `name`, `op` and `value` otherwise.
use crate::error::VcfParserError;
use crate::number::{at_most, less, Decimal};
use crate::text::same_text;
use crate::value::{lemma_values_view, same_value, values_view, Json, Object, Value};
use vstd::prelude::*;

verus! {

/// The operators of a comparison.
#[derive(Debug, Clone, Copy, PartialEq, Eq, Structural)]
pub enum Operator {
    Equal,
    NotEqual,
    Greater,
    GreaterOrEqual,
    Less,
    LessOrEqual,
    In,
}

/// The operator that a symbol names. Symbols are matched exactly.
pub open spec fn operator_of(symbol: Seq<char>) -> Option<Operator> {
    if symbol == "eq"@ || symbol == "="@ || symbol == "=="@ {
        Some(Operator::Equal)
    } else if symbol == "ne"@ || symbol == "!="@ || symbol == "≠"@ {
        Some(Operator::NotEqual)
    } else if symbol == "gt"@ || symbol == ">"@ {
        Some(Operator::Greater)
    } else if symbol == "ge"@ || symbol == ">="@ || symbol == "≥"@ {
        Some(Operator::GreaterOrEqual)
    } else if symbol == "lt"@ || symbol == "<"@ {
        Some(Operator::Less)
    } else if symbol == "le"@ || symbol == "<="@ || symbol == "≤"@ {
        Some(Operator::LessOrEqual)
    } else if symbol == "in"@ || symbol == "∈"@ {
        Some(Operator::In)
    } else {
        None
    }
}

/// Reads the symbol of an operator.
pub fn read_operator(symbol: &str) -> (r: Option<Operator>)
    ensures
        r == operator_of(symbol@),
{
    if same_text(symbol, "eq") || same_text(symbol, "=") || same_text(symbol, "==") {
        Some(Operator::Equal)
    } else if same_text(symbol, "ne") || same_text(symbol, "!=") || same_text(symbol, "≠") {
        Some(Operator::NotEqual)
    } else if same_text(symbol, "gt") || same_text(symbol, ">") {
        Some(Operator::Greater)
    } else if same_text(symbol, "ge") || same_text(symbol, ">=") || same_text(symbol, "≥") {
        Some(Operator::GreaterOrEqual)
    } else if same_text(symbol, "lt") || same_text(symbol, "<") {
        Some(Operator::Less)
    } else if same_text(symbol, "le") || same_text(symbol, "<=") || same_text(symbol, "≤") {
        Some(Operator::LessOrEqual)
    } else if same_text(symbol, "in") || same_text(symbol, "∈") {
        Some(Operator::In)
    } else {
        None
    }
}

/// Whether the numbers `a` and `b` stand in the order that `op` asks for.
pub open spec fn in_order(op: Operator, a: Decimal, b: Decimal) -> bool {
    match op {
        Operator::Greater => less(b, a),
        Operator::GreaterOrEqual => at_most(b, a),
        Operator::Less => less(a, b),
        Operator::LessOrEqual => at_most(a, b),
        _ => false,
    }
}

/// The outcome of comparing the value found in a row with the value that the
/// filter names.
///
/// Equality and inequality compare the values as they are. `In` asks whether an
/// array holds the value found, and falls back on equality where the filter
/// names no array. The order operators compare numbers: null is in no order
/// with anything, a value found that is neither null nor a number is a
/// coercion failure, and a filter value that is no number is an invalid
/// filter.
pub open spec fn compared(op: Operator, found: Json, wanted: Json) -> Result<bool, VcfParserError> {
    match op {
        Operator::Equal => Ok(found == wanted),
        Operator::NotEqual => Ok(found != wanted),
        Operator::In => match wanted {
            Json::Array(items) => Ok(items.contains(found)),
            _ => Ok(found == wanted),
        },
        _ => match found {
            Json::Null => Ok(false),
            Json::Number(a) => match wanted {
                Json::Number(b) => Ok(in_order(op, a, b)),
                _ => Err(VcfParserError::InvalidFilter),
            },
            _ => Err(VcfParserError::TypeCoercionFailure),
        },
    }
}

/// The value of a column in a row: null where the row has no such column.
pub open spec fn lookup(row: Map<Seq<char>, Json>, column: Seq<char>) -> Json {
    if row.contains_key(column) {
        row[column]
    } else {
        Json::Null
    }
}

/// The outcome of a comparison node against a row.
pub open spec fn comparison_outcome(row: Map<Seq<char>, Json>, node: Map<Seq<char>, Json>) -> Result<
    bool,
    VcfParserError,
> {
    if node.contains_key("name"@) && node["name"@] is String && node.contains_key("op"@)
        && node["op"@] is String && node.contains_key("value"@) {
        match operator_of(node["op"@]->String_0) {
            Some(op) => compared(op, lookup(row, node["name"@]->String_0), node["value"@]),
            None => Err(VcfParserError::UnknownOperator),
        }
    } else {
        Err(VcfParserError::InvalidFilter)
    }
}

/// The spellings of the key of a conjunction, in the order in which they are
/// looked for.
pub open spec fn and_spellings() -> Seq<Seq<char>> {
    seq!["AND"@, "ANd"@, "AnD"@, "And"@, "aND"@, "aNd"@, "anD"@, "and"@]
}

/// The spellings of the key of a disjunction, in the order in which they are
/// looked for.
pub open spec fn or_spellings() -> Seq<Seq<char>> {
    seq!["OR"@, "Or"@, "oR"@, "or"@]
}

/// The first of `names`, from position `from` on, that is a key of `node`.
pub open spec fn first_present(node: Map<Seq<char>, Json>, names: Seq<Seq<char>>, from: int) -> Option<
    Seq<char>,
>
    decreases names.len() - from,
{
    if from < 0 || from >= names.len() {
        None
    } else if node.contains_key(names[from]) {
        Some(names[from])
    } else {
        first_present(node, names, from + 1)
    }
}

/// The first name that is present is a key of the node.
pub proof fn lemma_first_present(node: Map<Seq<char>, Json>, names: Seq<Seq<char>>, from: int)
    ensures
        first_present(node, names, from) matches Some(k) ==> node.contains_key(k),
    decreases names.len() - from,
{
    if 0 <= from < names.len() && !node.contains_key(names[from]) {
        lemma_first_present(node, names, from + 1);
    }
}

/// The outcome of a filter against a row: whether the row is accepted, or why
/// the filter cannot be evaluated.
///
/// Null accepts every row. A value that is neither null nor an object, and an
/// object without entries, accept no row. The operands of a conjunction and of
/// a disjunction must be an array.
pub open spec fn filter_outcome(row: Map<Seq<char>, Json>, filter: Json) -> Result<
    bool,
    VcfParserError,
>
    decreases filter, 0nat,
{
    match filter {
        Json::Null => Ok(true),
        Json::Object(node) => {
            if !node.dom().finite() || node == Map::<Seq<char>, Json>::empty() {
                Ok(false)
            } else {
                proof {
                    lemma_first_present(node, and_spellings(), 0);
                    lemma_first_present(node, or_spellings(), 0);
                }
                match first_present(node, and_spellings(), 0) {
                    Some(key) => match node[key] {
                        Json::Array(operands) => every_outcome(row, operands, 0),
                        _ => Err(VcfParserError::InvalidFilter),
                    },
                    None => match first_present(node, or_spellings(), 0) {
                        Some(key) => match node[key] {
                            Json::Array(operands) => some_outcome(row, operands, 0),
                            _ => Err(VcfParserError::InvalidFilter),
                        },
                        None => comparison_outcome(row, node),
                    },
                }
            }
        },
        _ => Ok(false),
    }
}

/// The outcome of a conjunction from its operand `from` on: the operands are
/// taken in order, and the first that does not accept the row decides.
pub open spec fn every_outcome(row: Map<Seq<char>, Json>, operands: Seq<Json>, from: int) -> Result<
    bool,
    VcfParserError,
>
    decreases operands, operands.len() - from,
{
    if from < 0 || from >= operands.len() {
        Ok(true)
    } else {
        match filter_outcome(row, operands[from]) {
            Ok(true) => every_outcome(row, operands, from + 1),
            other => other,
        }
    }
}

/// The outcome of a disjunction from its operand `from` on: the operands are
/// taken in order, and the first that does not refuse the row decides.
pub open spec fn some_outcome(row: Map<Seq<char>, Json>, operands: Seq<Json>, from: int) -> Result<
    bool,
    VcfParserError,
>
    decreases operands, operands.len() - from,
{
    if from < 0 || from >= operands.len() {
        Ok(false)
    } else {
        match filter_outcome(row, operands[from]) {
            Ok(false) => some_outcome(row, operands, from + 1),
            other => other,
        }
    }
}

/// The null filter accepts every row.
pub proof fn lemma_null_filter_accepts(row: Map<Seq<char>, Json>)
    ensures
        filter_outcome(row, Json::Null) == Ok::<bool, VcfParserError>(true),
{
}

/// The texts of a sequence of string slices.
pub open spec fn slice_texts(names: Seq<&'static str>) -> Seq<Seq<char>> {
    Seq::new(names.len(), |i: int| names[i]@)
}

/// Looks the names up in order and hands back the value under the first that
/// is a key of `node`.
fn first_entry<'a>(node: &'a Object, names: &Vec<&'static str>) -> (r: Option<&'a Value>)
    ensures
        r is Some <==> first_present(node@, slice_texts(names@), 0) is Some,
        r matches Some(v) ==> v@ == node@[first_present(node@, slice_texts(names@), 0)->0],
{
    let ghost texts = slice_texts(names@);
    let mut i: usize = 0;
    while i < names.len()
        invariant
            i <= names.len(),
            texts == slice_texts(names@),
            first_present(node@, texts, 0) == first_present(node@, texts, i as int),
        decreases names.len() - i,
    {
        match node.get(names[i]) {
            Some(v) => {
                return Some(v);
            },
            None => {},
        }
        i += 1;
    }
    None
}

/// Whether `items` holds a value equal to `wanted`.
fn holds(items: &Vec<Value>, wanted: &Value) -> (r: bool)
    ensures
        r == values_view(items@).contains(wanted@),
{
    proof {
        lemma_values_view(items@);
    }
    let mut i: usize = 0;
    while i < items.len()
        invariant
            i <= items.len(),
            values_view(items@).len() == items.len(),
            forall|j: int| 0 <= j < items.len() ==> #[trigger] values_view(items@)[j] == items[j]@,
            forall|j: int| 0 <= j < i ==> values_view(items@)[j] != wanted@,
        decreases items.len() - i,
    {
        if same_value(&items[i], wanted) {
            proof {
                assert(values_view(items@)[i as int] == wanted@);
            }
            return true;
        }
        i += 1;
    }
    false
}

/// Compares the value found in a row with the value that the filter names.
pub fn compare_values(op: Operator, found: &Value, wanted: &Value) -> (r: Result<
    bool,
    VcfParserError,
>)
    ensures
        r == compared(op, found@, wanted@),
{
    match op {
        Operator::Equal => Ok(same_value(found, wanted)),
        Operator::NotEqual => Ok(!same_value(found, wanted)),
        Operator::In => match wanted {
            Value::Array(items) => Ok(holds(items, found)),
            _ => Ok(same_value(found, wanted)),
        },
        _ => match found {
            Value::Null => Ok(false),
            Value::Number(a) => match wanted {
                Value::Number(b) => {
                    let outcome = match op {
                        Operator::Greater => b.less_than(a),
                        Operator::GreaterOrEqual => b.at_most(a),
                        Operator::Less => a.less_than(b),
                        Operator::LessOrEqual => a.at_most(b),
                        _ => false,
                    };
                    Ok(outcome)
                },
                _ => Err(VcfParserError::InvalidFilter),
            },
            _ => Err(VcfParserError::TypeCoercionFailure),
        },
    }
}

/// Evaluates a comparison node against a row.
fn compare_record(record: &Object, node: &Object) -> (r: Result<bool, VcfParserError>)
    ensures
        r == comparison_outcome(record@, node@),
{
    let name = match node.get("name") {
        Some(Value::String(name)) => name,
        _ => {
            return Err(VcfParserError::InvalidFilter);
        },
    };
    let symbol = match node.get("op") {
        Some(Value::String(symbol)) => symbol,
        _ => {
            return Err(VcfParserError::InvalidFilter);
        },
    };
    let wanted = match node.get("value") {
        Some(wanted) => wanted,
        None => {
            return Err(VcfParserError::InvalidFilter);
        },
    };
    let op = match read_operator(symbol.as_str()) {
        Some(op) => op,
        None => {
            return Err(VcfParserError::UnknownOperator);
        },
    };
    match record.get(name.as_str()) {
        Some(found) => compare_values(op, found, wanted),
        None => compare_values(op, &Value::Null, wanted),
    }
}

/// Decides whether a row passes a filter.
///
/// The null filter accepts every row; see [`filter_outcome`] for the rest.
pub fn filter_record(record: &Object, filters: &Value) -> (r: Result<bool, VcfParserError>)
    ensures
        r == filter_outcome(record@, filters@),
        filters@ is Null ==> r == Ok::<bool, VcfParserError>(true),
    decreases filters@,
{
    let node = match filters {
        Value::Null => {
            return Ok(true);
        },
        Value::Object(node) => node,
        _ => {
            return Ok(false);
        },
    };
    if node.len() == 0 {
        proof {
            assert(node@ =~= Map::<Seq<char>, Json>::empty());
        }
        return Ok(false);
    }
    proof {
        assert(node@.contains_key(node.names()[0]));
        lemma_first_present(node@, and_spellings(), 0);
        lemma_first_present(node@, or_spellings(), 0);
    }
    let ands: Vec<&'static str> = vec!["AND", "ANd", "AnD", "And", "aND", "aNd", "anD", "and"];
    let ors: Vec<&'static str> = vec!["OR", "Or", "oR", "or"];
    proof {
        assert(slice_texts(ands@) =~= and_spellings());
        assert(slice_texts(ors@) =~= or_spellings());
    }
    match first_entry(node, &ands) {
        Some(Value::Array(operands)) => {
            proof {
                lemma_values_view(operands@);
            }
            let ghost children = values_view(operands@);
            let mut i: usize = 0;
            while i < operands.len()
                invariant
                    i <= operands.len(),
                    children == values_view(operands@),
                    children.len() == operands.len(),
                    forall|j: int| 0 <= j < operands.len() ==> #[trigger] children[j] == operands[j]@,
                    every_outcome(record@, children, 0) == every_outcome(record@, children, i as int),
                    filters@ == Json::Object(node@),
                    node@.dom().finite(),
                    first_present(node@, and_spellings(), 0) is Some,
                    node@.contains_key(first_present(node@, and_spellings(), 0)->0),
                    node@[first_present(node@, and_spellings(), 0)->0] == Json::Array(children),
                decreases operands.len() - i,
            {
                let outcome = filter_record(record, &operands[i]);
                match outcome {
                    Ok(true) => {},
                    _ => {
                        return outcome;
                    },
                }
                i += 1;
            }
            Ok(true)
        },
        Some(_) => Err(VcfParserError::InvalidFilter),
        None => match first_entry(node, &ors) {
            Some(Value::Array(operands)) => {
                proof {
                    lemma_values_view(operands@);
                }
                let ghost children = values_view(operands@);
                let mut i: usize = 0;
                while i < operands.len()
                    invariant
                        i <= operands.len(),
                        children == values_view(operands@),
                        children.len() == operands.len(),
                        forall|j: int|
                            0 <= j < operands.len() ==> #[trigger] children[j] == operands[j]@,
                        some_outcome(record@, children, 0) == some_outcome(
                            record@,
                            children,
                            i as int,
                        ),
                        filters@ == Json::Object(node@),
                        node@.dom().finite(),
                        first_present(node@, and_spellings(), 0) is None,
                        first_present(node@, or_spellings(), 0) is Some,
                        node@.contains_key(first_present(node@, or_spellings(), 0)->0),
                        node@[first_present(node@, or_spellings(), 0)->0] == Json::Array(children),
                    decreases operands.len() - i,
                {
                    let outcome = filter_record(record, &operands[i]);
                    match outcome {
                        Ok(false) => {},
                        _ => {
                            return outcome;
                        },
                    }
                    i += 1;
                }
                Ok(false)
            },
            Some(_) => Err(VcfParserError::InvalidFilter),
            None => compare_record(record, node),
        },
    }
}

/// What is wrong with a comparison node, if anything: it must have a string
/// under `name`, the symbol of a known operator under `op`, and a value under
/// `value`, which must be a number where the operator compares numbers.
pub open spec fn comparison_fault(node: Map<Seq<char>, Json>) -> Option<VcfParserError> {
    if node.contains_key("name"@) && node["name"@] is String && node.contains_key("op"@)
        && node["op"@] is String && node.contains_key("value"@) {
        match operator_of(node["op"@]->String_0) {
            None => Some(VcfParserError::UnknownOperator),
            Some(op) => if (op == Operator::Greater || op == Operator::GreaterOrEqual || op
                == Operator::Less || op == Operator::LessOrEqual) && !(node["value"@] is Number) {
                Some(VcfParserError::InvalidFilter)
            } else {
                None
            },
        }
    } else {
        Some(VcfParserError::InvalidFilter)
    }
}

/// What is wrong with a filter, if anything: the first fault that is met when
/// the tree is gone through in order.
pub open spec fn filter_fault(filter: Json) -> Option<VcfParserError>
    decreases filter, 0nat,
{
    match filter {
        Json::Object(node) => {
            if !node.dom().finite() || node == Map::<Seq<char>, Json>::empty() {
                None
            } else {
                proof {
                    lemma_first_present(node, and_spellings(), 0);
                    lemma_first_present(node, or_spellings(), 0);
                }
                match first_present(node, and_spellings(), 0) {
                    Some(key) => match node[key] {
                        Json::Array(operands) => operands_fault(operands, 0),
                        _ => Some(VcfParserError::InvalidFilter),
                    },
                    None => match first_present(node, or_spellings(), 0) {
                        Some(key) => match node[key] {
                            Json::Array(operands) => operands_fault(operands, 0),
                            _ => Some(VcfParserError::InvalidFilter),
                        },
                        None => comparison_fault(node),
                    },
                }
            }
        },
        _ => None,
    }
}

/// The first fault among the operands from `from` on.
pub open spec fn operands_fault(operands: Seq<Json>, from: int) -> Option<VcfParserError>
    decreases operands, operands.len() - from,
{
    if from < 0 || from >= operands.len() {
        None
    } else {
        match filter_fault(operands[from]) {
            Some(e) => Some(e),
            None => operands_fault(operands, from + 1),
        }
    }
}

/// A filter without fault can be evaluated against every row, but for a value
/// in the row that had to be a number and is none.
pub proof fn lemma_checked_filter(row: Map<Seq<char>, Json>, filter: Json)
    requires
        filter_fault(filter) is None,
    ensures
        filter_outcome(row, filter) is Ok || filter_outcome(row, filter) == Err::<
            bool,
            VcfParserError,
        >(VcfParserError::TypeCoercionFailure),
    decreases filter, 0nat,
{
    match filter {
        Json::Object(node) => {
            if node.dom().finite() && node != Map::<Seq<char>, Json>::empty() {
                lemma_first_present(node, and_spellings(), 0);
                lemma_first_present(node, or_spellings(), 0);
                match first_present(node, and_spellings(), 0) {
                    Some(key) => match node[key] {
                        Json::Array(operands) => lemma_checked_operands(row, operands, 0),
                        _ => {},
                    },
                    None => match first_present(node, or_spellings(), 0) {
                        Some(key) => match node[key] {
                            Json::Array(operands) => lemma_checked_operands(row, operands, 0),
                            _ => {},
                        },
                        None => {},
                    },
                }
            }
        },
        _ => {},
    }
}

/// Operands without fault can be evaluated in a conjunction and in a
/// disjunction, but for a value in the row that had to be a number and is
/// none.
pub proof fn lemma_checked_operands(row: Map<Seq<char>, Json>, operands: Seq<Json>, from: int)
    requires
        operands_fault(operands, from) is None,
    ensures
        every_outcome(row, operands, from) is Ok || every_outcome(row, operands, from) == Err::<
            bool,
            VcfParserError,
        >(VcfParserError::TypeCoercionFailure),
        some_outcome(row, operands, from) is Ok || some_outcome(row, operands, from) == Err::<
            bool,
            VcfParserError,
        >(VcfParserError::TypeCoercionFailure),
    decreases operands, operands.len() - from,
{
    if 0 <= from < operands.len() {
        lemma_checked_filter(row, operands[from]);
        lemma_checked_operands(row, operands, from + 1);
    }
}

/// Checks a comparison node.
fn check_comparison(node: &Object) -> (r: Result<(), VcfParserError>)
    ensures
        match r {
            Ok(_) => comparison_fault(node@) is None,
            Err(e) => comparison_fault(node@) == Some(e),
        },
{
    match node.get("name") {
        Some(Value::String(_)) => {},
        _ => {
            return Err(VcfParserError::InvalidFilter);
        },
    }
    let symbol = match node.get("op") {
        Some(Value::String(symbol)) => symbol,
        _ => {
            return Err(VcfParserError::InvalidFilter);
        },
    };
    let wanted = match node.get("value") {
        Some(wanted) => wanted,
        None => {
            return Err(VcfParserError::InvalidFilter);
        },
    };
    let op = match read_operator(symbol.as_str()) {
        Some(op) => op,
        None => {
            return Err(VcfParserError::UnknownOperator);
        },
    };
    let ordering = match op {
        Operator::Greater => true,
        Operator::GreaterOrEqual => true,
        Operator::Less => true,
        Operator::LessOrEqual => true,
        _ => false,
    };
    let numeric = match wanted {
        Value::Number(_) => true,
        _ => false,
    };
    if ordering && !numeric {
        Err(VcfParserError::InvalidFilter)
    } else {
        Ok(())
    }
}

/// Checks the operands of a conjunction or of a disjunction.
fn check_operands(filters: &Value, operands: &Vec<Value>) -> (r: Result<(), VcfParserError>)
    requires
        decreases_to!(filters@ => values_view(operands@)),
    ensures
        match r {
            Ok(_) => operands_fault(values_view(operands@), 0) is None,
            Err(e) => operands_fault(values_view(operands@), 0) == Some(e),
        },
    decreases filters@, 0nat,
{
    proof {
        lemma_values_view(operands@);
    }
    let ghost children = values_view(operands@);
    let mut i: usize = 0;
    while i < operands.len()
        invariant
            i <= operands.len(),
            children == values_view(operands@),
            children.len() == operands.len(),
            decreases_to!(filters@ => children),
            forall|j: int| 0 <= j < operands.len() ==> #[trigger] children[j] == operands[j]@,
            operands_fault(children, 0) == operands_fault(children, i as int),
        decreases operands.len() - i,
    {
        proof {
            assert(children[i as int] == operands[i as int]@);
        }
        match check_filter(&operands[i]) {
            Ok(_) => {},
            Err(e) => {
                return Err(e);
            },
        }
        i += 1;
    }
    Ok(())
}

/// Checks a filter once, before it is used: the outcome is the first fault of
/// the filter, if it has one.
///
/// A filter that passes fails on no row but for a value in the row that had to
/// be a number and is none; see [`lemma_checked_filter`].
pub fn check_filter(filters: &Value) -> (r: Result<(), VcfParserError>)
    ensures
        match r {
            Ok(_) => filter_fault(filters@) is None,
            Err(e) => filter_fault(filters@) == Some(e),
        },
    decreases filters@, 1nat,
{
    let node = match filters {
        Value::Object(node) => node,
        _ => {
            return Ok(());
        },
    };
    if node.len() == 0 {
        proof {
            assert(node@ =~= Map::<Seq<char>, Json>::empty());
        }
        return Ok(());
    }
    proof {
        assert(node@.contains_key(node.names()[0]));
        lemma_first_present(node@, and_spellings(), 0);
        lemma_first_present(node@, or_spellings(), 0);
    }
    let ands: Vec<&'static str> = vec!["AND", "ANd", "AnD", "And", "aND", "aNd", "anD", "and"];
    let ors: Vec<&'static str> = vec!["OR", "Or", "oR", "or"];
    proof {
        assert(slice_texts(ands@) =~= and_spellings());
        assert(slice_texts(ors@) =~= or_spellings());
    }
    match first_entry(node, &ands) {
        Some(Value::Array(operands)) => {
            proof {
                let key = first_present(node@, and_spellings(), 0)->0;
                assert(filters@->Object_0[key]->Array_0 == values_view(operands@));
            }
            check_operands(filters, operands)
        },
        Some(_) => Err(VcfParserError::InvalidFilter),
        None => match first_entry(node, &ors) {
            Some(Value::Array(operands)) => {
                proof {
                    let key = first_present(node@, or_spellings(), 0)->0;
                    assert(filters@->Object_0[key]->Array_0 == values_view(operands@));
                }
                check_operands(filters, operands)
            },
            Some(_) => Err(VcfParserError::InvalidFilter),
            None => check_comparison(node),
        },
    }
}

} // verus!
