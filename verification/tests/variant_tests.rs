use vcf_parser::error::VcfParserError;
use vcf_parser::number::Number;
use vcf_parser::utils;
use vcf_parser::value::{Object, Value};
use vcf_parser::variant::{Cardinality, FieldSchema, Header, RawRecord, ValueKind, Variant};
use vcf_parser::vcfparser::VcfParser;
use vcf_parser::OutputFormat;

fn lib_value(v: &serde_json::Value) -> Value {
    match v {
        serde_json::Value::Null => Value::Null,
        serde_json::Value::Bool(b) => Value::Bool(*b),
        serde_json::Value::Number(n) => Value::Number(Number::parse(&n.to_string()).unwrap()),
        serde_json::Value::String(s) => Value::String(s.clone()),
        serde_json::Value::Array(items) => Value::Array(items.iter().map(lib_value).collect()),
        serde_json::Value::Object(map) => {
            let mut object = Object::new();
            for (k, v) in map {
                object.insert(k.clone(), lib_value(v));
            }
            Value::Object(object)
        }
    }
}

fn value(text: &str) -> Value {
    lib_value(&serde_json::from_str::<serde_json::Value>(text).unwrap())
}

fn row(text: &str) -> Object {
    match value(text) {
        Value::Object(object) => object,
        _ => panic!("not an object"),
    }
}

fn field(name: &str, kind: ValueKind, cardinality: Cardinality) -> FieldSchema {
    FieldSchema { name: name.as_bytes().to_vec(), kind, cardinality }
}

fn tokens(items: &[&str]) -> Vec<Vec<u8>> {
    items.iter().map(|x| x.as_bytes().to_vec()).collect()
}

fn header() -> Header {
    Header {
        info: vec![
            field("AC", ValueKind::Integer, Cardinality::PerAllele),
            field("AF", ValueKind::Float, Cardinality::PerAllele),
            field("DP", ValueKind::Integer, Cardinality::Fixed(1)),
            field("SCORE", ValueKind::Float, Cardinality::Fixed(1)),
            field("DB", ValueKind::Flag, Cardinality::Fixed(0)),
            field("H2", ValueKind::Flag, Cardinality::Fixed(0)),
            field("CSQ", ValueKind::String, Cardinality::Unbounded),
            field("Pangolin", ValueKind::String, Cardinality::Unbounded),
            field("what", ValueKind::String, Cardinality::Fixed(1)),
            field("who", ValueKind::String, Cardinality::PerAllele),
            field("tag", ValueKind::String, Cardinality::Unbounded),
        ],
        format: vec![
            field("GT", ValueKind::String, Cardinality::Fixed(1)),
            field("DP", ValueKind::Integer, Cardinality::Fixed(1)),
            field("GQ", ValueKind::Float, Cardinality::Fixed(1)),
        ],
    }
}

fn composites() -> Vec<(String, Vec<String>)> {
    vec![
        ("CSQ".to_string(), vec!["Allele".to_string(), "Feature".to_string(), "AF".to_string()]),
        ("Pangolin".to_string(), vec!["gene".to_string(), "score".to_string()]),
    ]
}

fn record() -> RawRecord {
    RawRecord {
        header: header(),
        chromosome: b"chr1".to_vec(),
        position: 69511,
        id: tokens(&["rs1", "rs2"]),
        reference: b"A".to_vec(),
        alternative: tokens(&["G", "T"]),
        qual: Some(Number::parse("495.23").unwrap()),
        filter: tokens(&["PASS"]),
        info: vec![
            (b"AC".to_vec(), tokens(&["3", "5"])),
            (b"AF".to_vec(), tokens(&["1.5e-3"])),
            (b"DP".to_vec(), tokens(&["."])),
            (b"DB".to_vec(), tokens(&[])),
            (b"CSQ".to_vec(), tokens(&["G|ENST1.4|0.25", "G|ENST2|", "T|ENST3"])),
            (b"what".to_vec(), tokens(&["12", "second"])),
            (b"who".to_vec(), tokens(&["me", "you"])),
        ],
        format: tokens(&["GT", "DP", "GQ"]),
        genotype: vec![
            vec![tokens(&["0/1"]), tokens(&["12"]), tokens(&["99.5"])],
            vec![tokens(&["./."]), tokens(&["."]), tokens(&["."])],
        ],
    }
}

fn samples() -> Vec<Vec<u8>> {
    tokens(&["S1", "S2"])
}

#[test]
fn a_record_is_decoded() {
    let variant = Variant::new(&record(), &samples(), &composites()).unwrap();
    assert_eq!(variant.chromosome, "chr1");
    assert_eq!(variant.position, 69511);
    assert_eq!(variant.id, "rs1;rs2");
    assert_eq!(variant.reference, "A");
    assert_eq!(variant.alternative, "G,T");
    assert_eq!(variant.qual, Some(Number::parse("495.23").unwrap()));
    assert_eq!(variant.filter, "PASS");
    let info = row(
        r#"{
            "AC": 3,
            "AF": 0.0015,
            "DP": null,
            "SCORE": null,
            "DB": true,
            "H2": false,
            "CSQ": [
                {"Allele": "G", "Feature": "ENST1.4", "AF": 0.25},
                {"Allele": "G", "Feature": "ENST2", "AF": null},
                {"Allele": "T", "Feature": "ENST3"}
            ],
            "Pangolin": [{"gene": null, "score": null}],
            "what": "12",
            "who": "me"
        }"#,
    );
    assert_eq!(variant.info, info);
    let genotype = row(
        r#"{
            "S1": {"GT": "0/1", "DP": 12, "GQ": 99.5},
            "S2": {"GT": "./.", "DP": null, "GQ": null}
        }"#,
    );
    assert_eq!(variant.genotype, genotype);
}

#[test]
fn a_variant_is_a_value() {
    let variant = Variant::new(&record(), &samples(), &composites()).unwrap();
    let expected = value(
        r#"{
            "chromosome": "chr1",
            "position": 69511,
            "id": "rs1;rs2",
            "reference": "A",
            "alternative": "G,T",
            "qual": 495.23,
            "filter": "PASS",
            "info.AC": 3,
            "info.AF": 0.0015,
            "info.DP": null,
            "info.SCORE": null,
            "info.DB": true,
            "info.H2": false,
            "info.CSQ": [
                {"Allele": "G", "Feature": "ENST1.4", "AF": 0.25},
                {"Allele": "G", "Feature": "ENST2", "AF": null},
                {"Allele": "T", "Feature": "ENST3"}
            ],
            "info.Pangolin": [{"gene": null, "score": null}],
            "info.what": "12",
            "info.who": "me",
            "genotype": {
                "S1": {"GT": "0/1", "DP": 12, "GQ": 99.5},
                "S2": {"GT": "./.", "DP": null, "GQ": null}
            }
        }"#,
    );
    assert_eq!(variant.to_value(), expected);
}

#[test]
fn a_record_without_quality_or_lists() {
    let mut raw = record();
    raw.qual = None;
    raw.id = vec![];
    raw.filter = vec![];
    raw.alternative = tokens(&["G"]);
    let variant = Variant::new(&raw, &samples(), &composites()).unwrap();
    assert_eq!(variant.id, "");
    assert_eq!(variant.filter, "");
    assert_eq!(variant.alternative, "G");
    assert_eq!(variant.qual, None);
    assert_eq!(variant.to_value(), {
        let mut expected = match Variant::new(&record(), &samples(), &composites()).unwrap().to_value() {
            Value::Object(object) => object,
            _ => panic!("not an object"),
        };
        expected.insert("qual".to_string(), Value::Null);
        expected.insert("id".to_string(), Value::String("".to_string()));
        expected.insert("filter".to_string(), Value::String("".to_string()));
        expected.insert("alternative".to_string(), Value::String("G".to_string()));
        Value::Object(expected)
    });
}

#[test]
fn the_last_entry_of_a_field_counts() {
    let mut raw = record();
    raw.info.push((b"what".to_vec(), tokens(&["later"])));
    let variant = Variant::new(&raw, &samples(), &composites()).unwrap();
    assert_eq!(variant.info.get("what"), Some(&Value::String("later".to_string())));
}

#[test]
fn tokens_that_are_no_numbers_fail() {
    let mut raw = record();
    raw.info[0] = (b"AC".to_vec(), tokens(&["3", "x"]));
    assert_eq!(
        Variant::new(&raw, &samples(), &composites()).err(),
        Some(VcfParserError::TypeCoercionFailure)
    );
    let mut raw = record();
    raw.info[0] = (b"AC".to_vec(), tokens(&["3.5"]));
    assert_eq!(
        Variant::new(&raw, &samples(), &composites()).err(),
        Some(VcfParserError::TypeCoercionFailure)
    );
    let mut raw = record();
    raw.info[2] = (b"DP".to_vec(), tokens(&["3", "x"]));
    assert_eq!(Variant::new(&raw, &samples(), &composites()).unwrap().info.get("DP"), Some(&value("3")));
    let mut raw = record();
    raw.info[1] = (b"AF".to_vec(), tokens(&["nan"]));
    assert_eq!(
        Variant::new(&raw, &samples(), &composites()).err(),
        Some(VcfParserError::TypeCoercionFailure)
    );
    let mut raw = record();
    raw.genotype[0][1] = tokens(&["twelve"]);
    assert_eq!(
        Variant::new(&raw, &samples(), &composites()).err(),
        Some(VcfParserError::TypeCoercionFailure)
    );
}

#[test]
fn text_that_is_not_utf8_fails() {
    let bad = vec![0xffu8, 0xfe];
    let mut raw = record();
    raw.chromosome = bad.clone();
    assert_eq!(Variant::new(&raw, &samples(), &composites()).err(), Some(VcfParserError::InvalidEncoding));
    let mut raw = record();
    raw.id = vec![b"rs1".to_vec(), bad.clone()];
    assert_eq!(Variant::new(&raw, &samples(), &composites()).err(), Some(VcfParserError::InvalidEncoding));
    let mut raw = record();
    raw.info[4] = (b"CSQ".to_vec(), vec![b"G|x".to_vec(), bad.clone()]);
    assert_eq!(Variant::new(&raw, &samples(), &composites()).err(), Some(VcfParserError::InvalidEncoding));
    let mut raw = record();
    raw.info[6] = (b"who".to_vec(), vec![b"me".to_vec(), bad.clone()]);
    assert_eq!(Variant::new(&raw, &samples(), &composites()).err(), Some(VcfParserError::InvalidEncoding));
    let mut raw = record();
    raw.info[5] = (b"what".to_vec(), vec![b"me".to_vec(), bad.clone()]);
    assert!(Variant::new(&raw, &samples(), &composites()).is_ok());
    let raw = record();
    assert_eq!(
        Variant::new(&raw, &vec![b"S1".to_vec(), bad.clone()], &composites()).err(),
        Some(VcfParserError::InvalidEncoding)
    );
}

#[test]
fn fields_that_the_header_lacks_fail() {
    let mut raw = record();
    raw.format = tokens(&["GT", "DP", "XX"]);
    assert_eq!(
        Variant::new(&raw, &samples(), &composites()).err(),
        Some(VcfParserError::SchemaLookupFailure)
    );
}

#[test]
fn samples_without_data_fail() {
    let mut raw = record();
    raw.genotype.pop();
    assert_eq!(Variant::new(&raw, &samples(), &composites()).err(), Some(VcfParserError::ShapeViolation));
    let mut raw = record();
    raw.genotype[1].pop();
    assert_eq!(Variant::new(&raw, &samples(), &composites()).err(), Some(VcfParserError::ShapeViolation));
}

#[test]
fn a_record_runs_through_the_pipeline() {
    let variant = Variant::new(&record(), &samples(), &composites()).unwrap();
    let fields = vec!["info.CSQ".to_string(), "info.Pangolin".to_string()];
    let joins = vec!["info.CSQ.Feature".to_string(), "info.Pangolin.gene".to_string()];
    let tables: Vec<Vec<Object>> = fields
        .iter()
        .map(|x| utils::explode_data(variant.to_value(), x, &fields).unwrap())
        .collect();
    assert_eq!(tables[0].len(), 3);
    assert_eq!(tables[1].len(), 1);
    let joined = utils::outer_join(tables, &joins).unwrap();
    assert_eq!(joined.len(), 4);
    assert_eq!(joined[0].get("info.Pangolin.gene"), Some(&Value::Null));
    assert_eq!(joined[0].get("info.CSQ.Feature"), Some(&Value::Null));
    assert_eq!(joined[1].get("info.CSQ.Feature"), Some(&Value::String("ENST1.4".to_string())));
    assert_eq!(joined[1].get("info.CSQ"), None);
    assert_eq!(joined[1].get("info.AC"), Some(&value("3")));
    let filter = value(r#"{"name":"info.CSQ.AF","op":"gt","value":0.1}"#);
    let passed: Vec<&Object> =
        joined.iter().filter(|x| utils::filter_record(x, &filter) == Ok(true)).collect();
    assert_eq!(passed.len(), 1);
}

#[test]
fn a_run_takes_a_record_to_its_rows() {
    let declared = vec![
        (b"AC".to_vec(), b"Allele count".to_vec()),
        (b"CSQ".to_vec(), b"Consequences. Format: Allele|Feature|AF".to_vec()),
        (b"Pangolin".to_vec(), b"Scores. Format: gene|score".to_vec()),
    ];
    let run = |filter: Value| {
        VcfParser::new(
            filter,
            vec!["CSQ".to_string(), "Pangolin".to_string()],
            vec!["Feature".to_string(), "gene".to_string()],
            None,
            OutputFormat::T,
            &declared,
            &samples(),
        )
        .unwrap()
    };
    let rows = run(Value::Null).rows(&record(), &samples()).unwrap();
    assert_eq!(rows.len(), 4);
    let rows = run(value(r#"{"name":"info.CSQ.AF","op":"gt","value":0.1}"#))
        .rows(&record(), &samples())
        .unwrap();
    assert_eq!(rows.len(), 1);
    assert_eq!(rows[0].get("info.CSQ.Feature"), Some(&Value::String("ENST1.4".to_string())));
    assert_eq!(rows[0].get("info.Pangolin.score"), Some(&Value::Null));
    assert_eq!(rows[0].get("position"), Some(&value("69511")));
    let failing = run(value(r#"{"name":"info.CSQ.Allele","op":"gt","value":0.1}"#));
    assert_eq!(failing.rows(&record(), &samples()), Err(VcfParserError::TypeCoercionFailure));
    let mut bad = record();
    bad.info[0] = (b"AC".to_vec(), tokens(&["x"]));
    assert_eq!(run(Value::Null).rows(&bad, &samples()), Err(VcfParserError::TypeCoercionFailure));
    let unknown = VcfParser::new(
        Value::Null,
        vec!["what".to_string()],
        vec![],
        None,
        OutputFormat::T,
        &declared,
        &samples(),
    )
    .unwrap();
    assert_eq!(unknown.rows(&record(), &samples()), Err(VcfParserError::ShapeViolation));
}
