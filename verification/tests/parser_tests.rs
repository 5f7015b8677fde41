use vcf_parser::error::VcfParserError;
use vcf_parser::number::Number;
use vcf_parser::parser;
use vcf_parser::utils;
use vcf_parser::value::{Object, Value};

fn lib_value(v: &serde_json::Value) -> Value {
    match v {
        serde_json::Value::Null => Value::Null,
        serde_json::Value::Bool(b) => Value::Bool(*b),
        serde_json::Value::Number(n) => Value::Number(Number::parse(&n.to_string()).unwrap()),
        serde_json::Value::String(s) => Value::String(s.clone()),
        serde_json::Value::Array(items) => Value::Array(items.iter().map(lib_value).collect()),
        serde_json::Value::Object(map) => {
            let mut object = Object::new();
            for (k, v) in map {
                object.insert(k.clone(), lib_value(v));
            }
            Value::Object(object)
        }
    }
}

fn value(text: &str) -> Value {
    lib_value(&serde_json::from_str::<serde_json::Value>(text).unwrap())
}

fn row(text: &str) -> Object {
    match value(text) {
        Value::Object(object) => object,
        _ => panic!("not an object"),
    }
}

#[test]
fn lib_test_logic() {
    let exprs = [
        (r#"foo = bar AND baz > 10"#, r#"{"AND":[{"name":"foo","op":"=","value":"bar"},{"name":"baz","op":">","value":10.0}]}"#),
        (r#"(foo == bar or baz > 10) AND baz <= 5"#, r#"{"AND":[{"OR":[{"name":"foo","op":"==","value":"bar"},{"name":"baz","op":">","value":10.0}]},{"name":"baz","op":"<=","value":5.0}]}"#),
    ];
    for (expr, expected) in exprs.iter() {
        let result = parser::parse_logic_expr(expr).unwrap();
        assert_eq!(result, value(expected));
    }
}

#[test]
fn parser_test_logic() {
    let exprs = [
        (r#"foo = bar"#, r#"{"name":"foo","op":"=","value":"bar"}"#),
        (r#"foo = bar AND baz > 10"#, r#"{"AND":[{"name":"foo","op":"=","value":"bar"},{"name":"baz","op":">","value":10.0}]}"#),
        (r#"(foo == bar or baz > 10) AND baz <= 5"#, r#"{"AND":[{"OR":[{"name":"foo","op":"==","value":"bar"},{"name":"baz","op":">","value":10.0}]},{"name":"baz","op":"<=","value":5.0}]}"#),
        (r#"baz <= 5 AND (foo == bar or baz > 10)"#, r#"{"AND":[{"name":"baz","op":"<=","value":5.0},{"OR":[{"name":"foo","op":"==","value":"bar"},{"name":"baz","op":">","value":10.0}]}]}"#),
        (r#"foo == bar AND baz > 10 Or baz <= 5"#, r#"{"OR":[{"AND":[{"name":"foo","op":"==","value":"bar"},{"name":"baz","op":">","value":10.0}]},{"name":"baz","op":"<=","value":5.0}]}"#),
        (r#"baz <= 5 or foo == bar AND baz > 10  "#, r#"{"OR":[{"name":"baz","op":"<=","value":5.0},{"AND":[{"name":"foo","op":"==","value":"bar"},{"name":"baz","op":">","value":10.0}]}]}"#),
    ];
    for (expr, expected) in exprs.iter() {
        let result = parser::parse_logic_expr(expr).unwrap();
        assert_eq!(result, value(expected));
    }
}

#[test]
fn chains_group_to_the_left() {
    let result = parser::parse_logic_expr("a = 1 AND b = 2 AND c = 3").unwrap();
    let expected = value(
        r#"{"AND":[{"AND":[{"name":"a","op":"=","value":1},{"name":"b","op":"=","value":2}]},{"name":"c","op":"=","value":3}]}"#,
    );
    assert_eq!(result, expected);
    let result = parser::parse_logic_expr("a = 1 or b = 2 or c = 3").unwrap();
    let expected = value(
        r#"{"OR":[{"OR":[{"name":"a","op":"=","value":1},{"name":"b","op":"=","value":2}]},{"name":"c","op":"=","value":3}]}"#,
    );
    assert_eq!(result, expected);
}

#[test]
fn items_of_every_kind() {
    assert_eq!(
        parser::parse_logic_expr(r#"x = "two words""#).unwrap(),
        value(r#"{"name":"x","op":"=","value":"two words"}"#)
    );
    assert_eq!(
        parser::parse_logic_expr("x = TRUE").unwrap(),
        value(r#"{"name":"x","op":"=","value":true}"#)
    );
    assert_eq!(
        parser::parse_logic_expr("x = False").unwrap(),
        value(r#"{"name":"x","op":"=","value":false}"#)
    );
    assert_eq!(
        parser::parse_logic_expr("x != none").unwrap(),
        value(r#"{"name":"x","op":"!=","value":null}"#)
    );
    assert_eq!(
        parser::parse_logic_expr("x >= -1.5e-3").unwrap(),
        value(r#"{"name":"x","op":">=","value":-0.0015}"#)
    );
    assert_eq!(
        parser::parse_logic_expr("info.CSQ.IMPACT in (HIGH, MODERATE)").unwrap(),
        value(r#"{"name":"info.CSQ.IMPACT","op":"in","value":["HIGH","MODERATE"]}"#)
    );
    assert_eq!(
        parser::parse_logic_expr("x in (1, (2, 3))").unwrap(),
        value(r#"{"name":"x","op":"in","value":[1,[2,3]]}"#)
    );
    assert_eq!(
        parser::parse_logic_expr("x ≥ 2").unwrap(),
        value(r#"{"name":"x","op":"≥","value":2}"#)
    );
    assert_eq!(
        parser::parse_logic_expr("x is y").unwrap(),
        value(r#"{"name":"x","op":"is","value":"y"}"#)
    );
}

#[test]
fn the_longest_item_is_taken() {
    assert_eq!(
        parser::parse_logic_expr("1000G_AF < 0.01").unwrap(),
        value(r#"{"name":"1000G_AF","op":"<","value":0.01}"#)
    );
    assert_eq!(
        parser::parse_logic_expr("truth = nonexistent").unwrap(),
        value(r#"{"name":"truth","op":"=","value":"nonexistent"}"#)
    );
    assert_eq!(
        parser::parse_logic_expr("x = 010").unwrap(),
        value(r#"{"name":"x","op":"=","value":"010"}"#)
    );
    assert_eq!(
        parser::parse_logic_expr("x = 1e999").unwrap(),
        value(r#"{"name":"x","op":"=","value":"1e999"}"#)
    );
    assert_eq!(
        parser::parse_logic_expr("x==1").unwrap(),
        value(r#"{"name":"x","op":"==","value":1}"#)
    );
}

#[test]
fn failures_name_the_offset() {
    assert_eq!(parser::parse_logic_expr(""), Err(VcfParserError::MalformedExpression(0)));
    assert_eq!(parser::parse_logic_expr("foo"), Err(VcfParserError::MalformedExpression(3)));
    assert_eq!(parser::parse_logic_expr("foo = "), Err(VcfParserError::MalformedExpression(6)));
    assert_eq!(
        parser::parse_logic_expr("foo = bar baz"),
        Err(VcfParserError::MalformedExpression(10))
    );
    assert_eq!(
        parser::parse_logic_expr("foo = bar AND"),
        Err(VcfParserError::MalformedExpression(13))
    );
    assert_eq!(
        parser::parse_logic_expr("(foo = bar"),
        Err(VcfParserError::MalformedExpression(10))
    );
    assert_eq!(
        parser::parse_logic_expr(r#"foo = "bar"#),
        Err(VcfParserError::MalformedExpression(6))
    );
    assert_eq!(
        parser::parse_logic_expr("x in (1, 2"),
        Err(VcfParserError::MalformedExpression(10))
    );
}

#[test]
fn a_parsed_filter_filters() {
    let filter = parser::parse_logic_expr("(foo == bar or baz > 10) AND baz <= 5").unwrap();
    assert_eq!(utils::filter_record(&row(r#"{"foo":"bar","baz":3}"#), &filter), Ok(true));
    assert_eq!(utils::filter_record(&row(r#"{"foo":"bar","baz":7}"#), &filter), Ok(false));
    assert_eq!(utils::filter_record(&row(r#"{"foo":"qux","baz":3}"#), &filter), Ok(false));
    let filter = parser::parse_logic_expr("x is y").unwrap();
    assert_eq!(
        utils::filter_record(&row(r#"{"x":"y"}"#), &filter),
        Err(VcfParserError::UnknownOperator)
    );
}

#[test]
fn what_was_not_read() {
    let text = "foo = bar baz";
    assert_eq!(parser::parse_logic_expr(text), Err(VcfParserError::MalformedExpression(10)));
    assert_eq!(parser::unconsumed_input(text, 10), b"baz".to_vec());
    assert_eq!(parser::unconsumed_input(text, 0), text.as_bytes().to_vec());
    assert_eq!(parser::unconsumed_input(text, 13), Vec::<u8>::new());
    assert_eq!(parser::unconsumed_input(text, 14), Vec::<u8>::new());
    assert_eq!(parser::unconsumed_input("x ≥", 2), "≥".as_bytes().to_vec());
}
