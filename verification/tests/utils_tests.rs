use vcf_parser::error::VcfParserError;
use vcf_parser::filter::check_filter;
use vcf_parser::number::Number;
use vcf_parser::utils;
use vcf_parser::value::{Object, Value};

fn lib_value(v: &serde_json::Value) -> Value {
    match v {
        serde_json::Value::Null => Value::Null,
        serde_json::Value::Bool(b) => Value::Bool(*b),
        serde_json::Value::Number(n) => Value::Number(Number::parse(&n.to_string()).unwrap()),
        serde_json::Value::String(s) => Value::String(s.clone()),
        serde_json::Value::Array(items) => Value::Array(items.iter().map(lib_value).collect()),
        serde_json::Value::Object(map) => {
            let mut object = Object::new();
            for (k, v) in map {
                object.insert(k.clone(), lib_value(v));
            }
            Value::Object(object)
        }
    }
}

fn value(text: &str) -> Value {
    lib_value(&serde_json::from_str::<serde_json::Value>(text).unwrap())
}

fn row(text: &str) -> Object {
    match value(text) {
        Value::Object(object) => object,
        _ => panic!("not an object"),
    }
}

#[test]
fn test_explode_data() {
    let data = value(r#"{"a":1, "b":2, "c":[{"foo":"A","bar":"B"},{"foo":"a", "bar":"b"}]}"#);
    let exploded = utils::explode_data(data, "c", &vec!["b".to_string(), "c".to_string()]).unwrap();
    let expected: Vec<Object> = vec![
        row(r#"{"a":1, "c.foo":"A", "c.bar":"B"}"#),
        row(r#"{"a":1, "c.foo":"a", "c.bar":"b"}"#),
    ];
    assert_eq!(exploded, expected);
}

#[test]
fn test_outer_join1() {
    let table1: Vec<Object> = vec![
        row(r#"{"key1": "value1", "key2": "value2"}"#),
        row(r#"{"key1": "value3", "key2": "value4"}"#),
    ];
    let table2: Vec<Object> = vec![
        row(r#"{"key1": "value1", "key3": "value6"}"#),
        row(r#"{"key1": "value7", "key3": "value8"}"#),
    ];
    let joined_table =
        utils::outer_join(vec![table1, table2], &vec!["key1".to_string(), "key1".to_string()]).unwrap();
    let expected: Vec<Object> = vec![
        row(r#"{"key1": "value1", "key2": "value2", "key3": "value6"}"#),
        row(r#"{"key1": "value7", "key2": null, "key3": "value8"}"#),
        row(r#"{"key1": "value3", "key2": "value4", "key3": null}"#),
    ];
    assert_eq!(joined_table, expected);
}

#[test]
fn test_outer_join2() {
    let table1: Vec<Object> = vec![
        row(r#"{"key1": "value1", "key2": "value2"}"#),
        row(r#"{"key1": "value3", "key2": "value4"}"#),
    ];
    let table2: Vec<Object> = vec![
        row(r#"{"key1": "value1", "key3": null}"#),
        row(r#"{"key1": "value7", "key3": "value8"}"#),
    ];
    let joined_table =
        utils::outer_join(vec![table1, table2], &vec!["key1".to_string(), "key1".to_string()]).unwrap();
    let expected: Vec<Object> = vec![
        row(r#"{"key1": "value1", "key2": "value2", "key3": null}"#),
        row(r#"{"key1": "value7", "key2": null, "key3": "value8"}"#),
        row(r#"{"key1": "value3", "key2": "value4", "key3": null}"#),
    ];
    assert_eq!(joined_table, expected);
}

#[test]
fn test_outer_join3() {
    let table1: Vec<Object> = vec![
        row(r#"{"key1": "value1", "key2": null}"#),
        row(r#"{"key1": "value3", "key2": "value4"}"#),
    ];
    let table2: Vec<Object> = vec![
        row(r#"{"key11": "value1.8", "key2": "value2"}"#),
        row(r#"{"key11": "value7", "key2": "value8"}"#),
    ];
    let joined_table =
        utils::outer_join(vec![table1, table2], &vec!["key1".to_string(), "key11".to_string()]).unwrap();
    let expected: Vec<Object> = vec![
        row(r#"{"key1": "value1", "key11": "value1.8", "key2": "value2"}"#),
        row(r#"{"key1": null, "key11": "value7", "key2": "value8"}"#),
        row(r#"{"key1": "value3", "key11": null, "key2": "value4"}"#),
    ];
    assert_eq!(joined_table, expected);
}

#[test]
fn filter_le_against_present_and_absent() {
    let filter = value(r#"{"name":"baz","op":"le","value":5}"#);
    assert_eq!(utils::filter_record(&row(r#"{"baz":3}"#), &filter), Ok(true));
    assert_eq!(utils::filter_record(&row(r#"{"foo":3}"#), &filter), Ok(false));
    assert_eq!(utils::filter_record(&row(r#"{"baz":null}"#), &filter), Ok(false));
    assert_eq!(utils::filter_record(&row(r#"{"baz":5.0}"#), &filter), Ok(true));
    assert_eq!(utils::filter_record(&row(r#"{"baz":5.01}"#), &filter), Ok(false));
    assert_eq!(
        utils::filter_record(&row(r#"{"baz":"three"}"#), &filter),
        Err(VcfParserError::TypeCoercionFailure)
    );
}

#[test]
fn explode_refuses_other_shapes() {
    let drops: Vec<String> = vec![];
    assert_eq!(
        utils::explode_data(value(r#"{"a":1}"#), "c", &drops),
        Err(VcfParserError::ShapeViolation)
    );
    assert_eq!(
        utils::explode_data(value(r#"{"c":{"foo":1}}"#), "c", &drops),
        Err(VcfParserError::ShapeViolation)
    );
    assert_eq!(
        utils::explode_data(value(r#"{"c":[{"foo":1}, 2]}"#), "c", &drops),
        Err(VcfParserError::ShapeViolation)
    );
    assert_eq!(utils::explode_data(value(r#"[1,2]"#), "c", &drops), Err(VcfParserError::ShapeViolation));
    assert_eq!(utils::explode_data(value(r#"{"c":[]}"#), "c", &drops), Ok(vec![]));
}

#[test]
fn explode_lets_the_element_win() {
    let drops: Vec<String> = vec![];
    let exploded = utils::explode_data(value(r#"{"c.x":1,"c":[{"x":2}]}"#), "c", &drops).unwrap();
    assert_eq!(exploded, vec![row(r#"{"c.x":2,"c":[{"x":2}]}"#)]);
}

#[test]
fn join_of_no_tables_and_of_one() {
    let none: Vec<Vec<Object>> = vec![];
    assert_eq!(utils::outer_join(none, &vec!["key".to_string()]), Ok(vec![]));
    let table = vec![row(r#"{"key1": "value1", "key2": null}"#), row(r#"{"key3": 4}"#)];
    let same = vec![row(r#"{"key1": "value1", "key2": null}"#), row(r#"{"key3": 4}"#)];
    assert_eq!(utils::outer_join(vec![table], &vec!["key1".to_string()]), Ok(same));
    let empty: Vec<Object> = vec![];
    assert_eq!(utils::outer_join(vec![empty], &vec!["key1".to_string()]), Ok(vec![]));
}

#[test]
fn join_refuses_keys_that_do_not_fit() {
    let table1 = vec![row(r#"{"key1": "value1"}"#)];
    let table2 = vec![row(r#"{"key1": "value1"}"#)];
    assert_eq!(
        utils::outer_join(vec![table1, table2], &vec!["key1".to_string()]),
        Err(VcfParserError::ShapeViolation)
    );
    let table = vec![row(r#"{"key1": "value1"}"#)];
    assert_eq!(utils::outer_join(vec![table], &vec![]), Err(VcfParserError::ShapeViolation));
}

#[test]
fn join_matches_rows_without_a_key() {
    let table1 = vec![row(r#"{"a": 1}"#), row(r#"{"key": "t.1", "a": 2}"#)];
    let table2 = vec![row(r#"{"key": "t.2", "b": 3}"#), row(r#"{"key": null, "b": 4}"#)];
    let joined =
        utils::outer_join(vec![table1, table2], &vec!["key".to_string(), "key".to_string()]).unwrap();
    let expected = vec![
        row(r#"{"key": "t.2", "a": 2, "b": 3}"#),
        row(r#"{"key": null, "a": 1, "b": 4}"#),
    ];
    assert_eq!(joined, expected);
}

#[test]
fn join_of_three_tables() {
    let table1 = vec![row(r#"{"k": "x", "a": 1}"#)];
    let table2 = vec![row(r#"{"k": "y", "b": 2}"#), row(r#"{"k": "x", "b": 3}"#)];
    let table3 = vec![row(r#"{"k": "x.7", "c": 4}"#), row(r#"{"k": "z", "c": 5}"#)];
    let keys = vec!["k".to_string(), "k".to_string(), "k".to_string()];
    let joined = utils::outer_join(vec![table1, table2, table3], &keys).unwrap();
    let expected = vec![
        row(r#"{"k": "x.7", "a": 1, "b": 3, "c": 4}"#),
        row(r#"{"k": "z", "a": null, "b": null, "c": 5}"#),
        row(r#"{"k": "y", "a": null, "b": 2, "c": null}"#),
    ];
    assert_eq!(joined, expected);
}

#[test]
fn join_with_an_empty_table() {
    let table1: Vec<Object> = vec![];
    let table2 = vec![row(r#"{"k": "x", "b": 3}"#)];
    let keys = vec!["k".to_string(), "k".to_string()];
    assert_eq!(utils::outer_join(vec![table1, table2], &keys), Ok(vec![row(r#"{"k": "x", "b": 3}"#)]));
    let table1 = vec![row(r#"{"k": "x", "a": 1}"#)];
    let table2: Vec<Object> = vec![];
    assert_eq!(utils::outer_join(vec![table1, table2], &keys), Ok(vec![row(r#"{"k": "x", "a": 1}"#)]));
}

#[test]
fn the_null_filter_accepts_every_row() {
    assert_eq!(utils::filter_record(&row(r#"{}"#), &Value::Null), Ok(true));
    assert_eq!(utils::filter_record(&row(r#"{"baz":3}"#), &Value::Null), Ok(true));
}

#[test]
fn filters_of_other_shapes_accept_no_row() {
    let record = row(r#"{"baz":3}"#);
    assert_eq!(utils::filter_record(&record, &value("true")), Ok(false));
    assert_eq!(utils::filter_record(&record, &value("3")), Ok(false));
    assert_eq!(utils::filter_record(&record, &value(r#""baz""#)), Ok(false));
    assert_eq!(utils::filter_record(&record, &value("[]")), Ok(false));
    assert_eq!(utils::filter_record(&record, &value("{}")), Ok(false));
}

#[test]
fn every_operator() {
    let record = row(r#"{"n":3,"s":"abc","z":null,"l":[1,2]}"#);
    let cases = [
        (r#"{"name":"n","op":"eq","value":3}"#, true),
        (r#"{"name":"n","op":"=","value":3.0}"#, true),
        (r#"{"name":"n","op":"==","value":4}"#, false),
        (r#"{"name":"s","op":"eq","value":"abc"}"#, true),
        (r#"{"name":"s","op":"eq","value":"abd"}"#, false),
        (r#"{"name":"z","op":"eq","value":null}"#, true),
        (r#"{"name":"missing","op":"eq","value":null}"#, true),
        (r#"{"name":"l","op":"eq","value":[1,2]}"#, true),
        (r#"{"name":"l","op":"eq","value":[2,1]}"#, false),
        (r#"{"name":"n","op":"ne","value":3}"#, false),
        (r#"{"name":"n","op":"!=","value":"3"}"#, true),
        (r#"{"name":"z","op":"≠","value":null}"#, false),
        (r#"{"name":"n","op":"gt","value":2}"#, true),
        (r#"{"name":"n","op":">","value":3}"#, false),
        (r#"{"name":"n","op":"ge","value":3}"#, true),
        (r#"{"name":"n","op":">=","value":3.5}"#, false),
        (r#"{"name":"n","op":"≥","value":-3}"#, true),
        (r#"{"name":"n","op":"lt","value":3}"#, false),
        (r#"{"name":"n","op":"<","value":3.000001}"#, true),
        (r#"{"name":"n","op":"le","value":3}"#, true),
        (r#"{"name":"n","op":"<=","value":2}"#, false),
        (r#"{"name":"n","op":"≤","value":30}"#, true),
        (r#"{"name":"z","op":"gt","value":0}"#, false),
        (r#"{"name":"z","op":"lt","value":0}"#, false),
        (r#"{"name":"missing","op":"ge","value":0}"#, false),
        (r#"{"name":"z","op":"le","value":"zero"}"#, false),
        (r#"{"name":"n","op":"in","value":[1,2,3]}"#, true),
        (r#"{"name":"n","op":"∈","value":[1,2]}"#, false),
        (r#"{"name":"s","op":"in","value":["abc"]}"#, true),
        (r#"{"name":"n","op":"in","value":3}"#, true),
        (r#"{"name":"n","op":"in","value":4}"#, false),
        (r#"{"name":"z","op":"in","value":[null]}"#, true),
    ];
    for (filter, expected) in cases.iter() {
        assert_eq!(utils::filter_record(&record, &value(filter)), Ok(*expected), "{}", filter);
    }
}

#[test]
fn filters_that_cannot_be_evaluated() {
    let record = row(r#"{"n":3,"s":"abc"}"#);
    let cases = [
        (r#"{"name":"n","op":"is","value":3}"#, VcfParserError::UnknownOperator),
        (r#"{"name":"n","op":"EQ","value":3}"#, VcfParserError::UnknownOperator),
        (r#"{"name":"n","op":"","value":3}"#, VcfParserError::UnknownOperator),
        (r#"{"name":"s","op":"gt","value":3}"#, VcfParserError::TypeCoercionFailure),
        (r#"{"name":"n","op":"gt","value":"3"}"#, VcfParserError::InvalidFilter),
        (r#"{"name":"n","op":"gt"}"#, VcfParserError::InvalidFilter),
        (r#"{"name":"n","value":3}"#, VcfParserError::InvalidFilter),
        (r#"{"op":"gt","value":3}"#, VcfParserError::InvalidFilter),
        (r#"{"name":3,"op":"gt","value":3}"#, VcfParserError::InvalidFilter),
        (r#"{"name":"n","op":3,"value":3}"#, VcfParserError::InvalidFilter),
        (r#"{"AND":3}"#, VcfParserError::InvalidFilter),
        (r#"{"or":{"name":"n","op":"gt","value":3}}"#, VcfParserError::InvalidFilter),
        (r#"{"AND":[{"name":"n","op":"eq","value":3},{"name":"n","op":"is","value":3}]}"#, VcfParserError::UnknownOperator),
    ];
    for (filter, expected) in cases.iter() {
        assert_eq!(utils::filter_record(&record, &value(filter)), Err(*expected), "{}", filter);
    }
}

#[test]
fn conjunctions_and_disjunctions() {
    let record = row(r#"{"n":3,"s":"abc"}"#);
    let yes = r#"{"name":"n","op":"eq","value":3}"#;
    let no = r#"{"name":"n","op":"eq","value":4}"#;
    let bad = r#"{"name":"n","op":"is","value":4}"#;
    let cases = [
        (format!(r#"{{"AND":[]}}"#), Ok(true)),
        (format!(r#"{{"OR":[]}}"#), Ok(false)),
        (format!(r#"{{"AND":[{yes},{yes}]}}"#), Ok(true)),
        (format!(r#"{{"and":[{yes},{no}]}}"#), Ok(false)),
        (format!(r#"{{"And":[{no},{bad}]}}"#), Ok(false)),
        (format!(r#"{{"aNd":[{yes},{bad}]}}"#), Err(VcfParserError::UnknownOperator)),
        (format!(r#"{{"OR":[{no},{no}]}}"#), Ok(false)),
        (format!(r#"{{"or":[{no},{yes}]}}"#), Ok(true)),
        (format!(r#"{{"Or":[{yes},{bad}]}}"#), Ok(true)),
        (format!(r#"{{"oR":[{no},{bad}]}}"#), Err(VcfParserError::UnknownOperator)),
        (format!(r#"{{"AND":[{{"OR":[{no},{yes}]}},{{"AND":[{yes}]}}]}}"#), Ok(true)),
        (format!(r#"{{"AND":[{yes}],"OR":[{no}]}}"#), Ok(true)),
        (format!(r#"{{"AND":[{yes},null]}}"#), Ok(true)),
        (format!(r#"{{"AND":[{yes},7]}}"#), Ok(false)),
    ];
    for (filter, expected) in cases.iter() {
        assert_eq!(utils::filter_record(&record, &value(filter)), *expected, "{}", filter);
    }
}

#[test]
fn texts_are_coerced() {
    assert_eq!(utils::try_parse_number(""), Value::Null);
    assert_eq!(utils::try_parse_number("12"), value("12"));
    assert_eq!(utils::try_parse_number("-12"), value("-12"));
    assert_eq!(utils::try_parse_number("1.5"), value("1.5"));
    assert_eq!(utils::try_parse_number("1e-3"), value("0.001"));
    assert_eq!(
        utils::try_parse_number("99999999999999999999"),
        Value::Number(Number::parse("99999999999999999999").unwrap())
    );
    assert_eq!(utils::try_parse_number("."), Value::String(".".to_string()));
    assert_eq!(utils::try_parse_number("e"), Value::String("e".to_string()));
    assert_eq!(utils::try_parse_number("ENST00000367770.8"), Value::String("ENST00000367770.8".to_string()));
    assert_eq!(utils::try_parse_number("missense_variant"), Value::String("missense_variant".to_string()));
    assert_eq!(utils::try_parse_number("0.5&0.7"), Value::String("0.5&0.7".to_string()));
    assert_eq!(utils::try_parse_number("1e999"), Value::String("1e999".to_string()));
}

#[test]
fn subfields_are_read_from_the_description() {
    assert_eq!(
        utils::parse_csq_header(
            "Consequence annotations from Ensembl VEP. Format: Allele|Consequence|IMPACT|SYMBOL"
        ),
        vec!["Allele", "Consequence", "IMPACT", "SYMBOL"]
    );
    assert_eq!(utils::parse_csq_header("Format: a | b |c "), vec!["a", "b", "c"]);
    assert_eq!(utils::parse_csq_header("x: a|b: c|d"), vec!["a", "b"]);
    assert_eq!(utils::parse_csq_header("x: "), vec![""]);
    assert_eq!(utils::parse_csq_header("x: a||b"), vec!["a", "", "b"]);
    assert_eq!(utils::parse_csq_header("no colon here"), Vec::<String>::new());
    assert_eq!(utils::parse_csq_header("colon:without space"), Vec::<String>::new());
    assert_eq!(utils::parse_csq_header(""), Vec::<String>::new());
}

fn strings(items: &[&str]) -> Vec<String> {
    items.iter().map(|x| x.to_string()).collect()
}

fn test_headers() -> (Vec<String>, Vec<(String, Vec<String>)>) {
    let info_headers = strings(&["AC", "AF", "CADD_PHRED", "CADD_RAW", "what", "who", "tag", "CSQ", "Pangolin"]);
    let csq_headers = vec![
        (
            "CSQ".to_string(),
            strings(&[
                "Allele", "Consequence", "IMPACT", "SYMBOL", "Gene", "Feature_type", "Feature", "CANONICAL",
            ]),
        ),
        (
            "Pangolin".to_string(),
            strings(&["pangolin_gene", "pangolin_transcript", "pangolin_max_score"]),
        ),
    ];
    (info_headers, csq_headers)
}

#[test]
fn test_get_output_header() {
    let (info_headers, csq_headers) = test_headers();
    let header = utils::get_output_header(&info_headers, &csq_headers, &vec![], &None).unwrap();
    let expected = vec!["chromosome", "position", "id", "reference", "alternative", "qual", "filter", "info.AC", "info.AF", "info.CADD_PHRED", "info.CADD_RAW", "info.CSQ.Allele", "info.CSQ.CANONICAL", "info.CSQ.Consequence", "info.CSQ.Feature", "info.CSQ.Feature_type", "info.CSQ.Gene", "info.CSQ.IMPACT", "info.CSQ.SYMBOL", "info.Pangolin.pangolin_gene", "info.Pangolin.pangolin_max_score", "info.Pangolin.pangolin_transcript", "info.tag", "info.what", "info.who"];
    assert_eq!(header, expected);

    let header = utils::get_output_header(&info_headers, &csq_headers, &vec![], &Some(vec!["info.CSQ.Consequence".to_string(), "reference".to_string()])).unwrap();
    let expected = vec!["info.CSQ.Consequence", "reference"];
    assert_eq!(header, expected);
}

#[test]
fn test_get_output_header_with_samples() {
    let (info_headers, csq_headers) = test_headers();
    let samples = vec![b"S1".to_vec(), b"S2".to_vec()];
    let header = utils::get_output_header(&info_headers, &csq_headers, &samples, &None).unwrap();
    let expected = vec!["chromosome", "position", "id", "reference", "alternative", "qual", "filter", "info.AC", "info.AF", "info.CADD_PHRED", "info.CADD_RAW", "info.CSQ.Allele", "info.CSQ.CANONICAL", "info.CSQ.Consequence", "info.CSQ.Feature", "info.CSQ.Feature_type", "info.CSQ.Gene", "info.CSQ.IMPACT", "info.CSQ.SYMBOL", "info.Pangolin.pangolin_gene", "info.Pangolin.pangolin_max_score", "info.Pangolin.pangolin_transcript", "info.tag", "info.what", "info.who", "S1", "S2"];
    assert_eq!(header, expected);

    let header = utils::get_output_header(&info_headers, &csq_headers, &samples, &Some(vec!["info.CSQ.Consequence".to_string(), "reference".to_string()])).unwrap();
    let expected = vec!["info.CSQ.Consequence", "reference"];
    assert_eq!(header, expected);
}

#[test]
#[should_panic]
fn test_get_output_header_panic() {
    let (info_headers, csq_headers) = test_headers();
    utils::get_output_header(&info_headers, &csq_headers, &vec![], &Some(vec!["info.CSQ.Consequence".to_string(), "doesnotexist".to_string()])).unwrap();
}

#[test]
fn output_header_failures() {
    let (info_headers, csq_headers) = test_headers();
    assert_eq!(
        utils::get_output_header(&info_headers, &csq_headers, &vec![], &Some(strings(&["doesnotexist"]))),
        Err(VcfParserError::InvalidArgument)
    );
    assert_eq!(
        utils::get_output_header(&info_headers, &csq_headers, &vec![vec![0xff, 0xfe]], &None),
        Err(VcfParserError::InvalidEncoding)
    );
    assert_eq!(
        utils::get_output_header(&info_headers, &csq_headers, &vec![b"S1".to_vec()], &Some(strings(&["S1", "S1"]))),
        Ok(strings(&["S1", "S1"]))
    );
}

#[test]
fn output_header_is_sorted_by_bytes() {
    let info = strings(&["b", "a", "B", "é", "a.b", "a-b", "aa", "1"]);
    let header = utils::get_output_header(&info, &vec![], &vec![], &None).unwrap();
    assert_eq!(
        header[7..],
        strings(&["info.1", "info.B", "info.a", "info.a-b", "info.a.b", "info.aa", "info.b", "info.é"])
    );
}

#[test]
fn rows_are_laid_out() {
    let data = row(
        r#"{"a":1,"b":"two","c":null,"d":true,"e":0.00012,"f":[1,"x",null],"g":{"z":false,"y":"q\"r\\\n\u0001"},"h":-12.50}"#,
    );
    let header = strings(&["h", "g", "f", "e", "d", "c", "b", "a", "missing"]);
    assert_eq!(
        utils::get_row(&data, &header),
        vec![
            "-12.5",
            r#"{"y":"q\"r\\\n\u0001","z":false}"#,
            r#"[1,"x",null]"#,
            "0.00012",
            "true",
            "",
            "two",
            "1",
            "",
        ]
    );
    assert_eq!(utils::get_row(&data, &vec![]), Vec::<String>::new());
}

#[test]
fn values_have_a_text_form() {
    for text in [
        "null",
        "true",
        "false",
        "0",
        "-1.5",
        r#""""#,
        r#""a b""#,
        r#""tab\there""#,
        r#""\b\f\n\r\t\"\\\u001f""#,
        r#""é ≥ 😀""#,
        "[]",
        "[[],{}]",
        "{}",
        r#"{"B":1,"a":{"c":[1,2,{"d":null}]},"b":"x"}"#,
    ] {
        assert_eq!(value(text).to_text(), text);
    }
    assert_eq!(value(r#"{"b":1,"a":2,"B":3}"#).to_text(), r#"{"B":3,"a":2,"b":1}"#);
    assert_eq!(value("10.0").to_text(), "10");
}

#[test]
fn filters_are_checked_once() {
    let good = [
        "null",
        "true",
        "{}",
        r#"{"name":"n","op":"eq","value":"x"}"#,
        r#"{"name":"n","op":"le","value":5}"#,
        r#"{"name":"n","op":"in","value":[1,"x"]}"#,
        r#"{"AND":[]}"#,
        r#"{"AND":[{"name":"n","op":"ne","value":null},{"or":[{"name":"n","op":">","value":1.5},null]}]}"#,
    ];
    for filter in good.iter() {
        assert_eq!(check_filter(&value(filter)), Ok(()), "{}", filter);
    }
    let bad = [
        (r#"{"name":"n","op":"is","value":3}"#, VcfParserError::UnknownOperator),
        (r#"{"name":"n","op":"gt","value":"3"}"#, VcfParserError::InvalidFilter),
        (r#"{"name":"n","op":"gt","value":null}"#, VcfParserError::InvalidFilter),
        (r#"{"name":"n","value":3}"#, VcfParserError::InvalidFilter),
        (r#"{"name":3,"op":"eq","value":3}"#, VcfParserError::InvalidFilter),
        (r#"{"AND":{"name":"n","op":"eq","value":3}}"#, VcfParserError::InvalidFilter),
        (r#"{"OR":[{"name":"n","op":"eq","value":4},{"AND":[{"name":"n","op":"~","value":3}]}]}"#, VcfParserError::UnknownOperator),
        (r#"{"OR":[{"name":"n","op":"eq","value":3},{"name":"n","op":"is","value":3}]}"#, VcfParserError::UnknownOperator),
    ];
    for (filter, expected) in bad.iter() {
        assert_eq!(check_filter(&value(filter)), Err(*expected), "{}", filter);
    }
    let record = row(r#"{"n":3}"#);
    let hidden = value(r#"{"OR":[{"name":"n","op":"eq","value":3},{"name":"n","op":"is","value":3}]}"#);
    assert_eq!(utils::filter_record(&record, &hidden), Ok(true));
}
