use vcf_parser::error::VcfParserError;
use vcf_parser::value::Value;
use vcf_parser::vcfparser::{accepts_input_name, is_compressed, is_expression, VcfParser};
use vcf_parser::OutputFormat;

fn strings(items: &[&str]) -> Vec<String> {
    items.iter().map(|x| x.to_string()).collect()
}

fn declared() -> Vec<(Vec<u8>, Vec<u8>)> {
    vec![
        (b"AC".to_vec(), b"Allele count".to_vec()),
        (b"CSQ".to_vec(), b"Consequence annotations. Format: Allele|Feature".to_vec()),
        (b"Pangolin".to_vec(), b"Pangolin scores. Format: gene| score".to_vec()),
    ]
}

#[test]
fn a_run_is_configured() {
    let parser = VcfParser::new(
        Value::Null,
        strings(&["CSQ", "Pangolin"]),
        strings(&["Feature", "gene"]),
        None,
        OutputFormat::J,
        &declared(),
        &vec![b"S1".to_vec()],
    )
    .unwrap();
    assert_eq!(parser.filters, Value::Null);
    assert_eq!(parser.output_format, OutputFormat::J);
    assert_eq!(parser.info_fields, strings(&["info.CSQ", "info.Pangolin"]));
    assert_eq!(parser.fields_join, strings(&["info.CSQ.Feature", "info.Pangolin.gene"]));
    assert_eq!(
        parser.csq_headers,
        vec![
            ("CSQ".to_string(), strings(&["Allele", "Feature"])),
            ("Pangolin".to_string(), strings(&["gene", "score"])),
        ]
    );
    assert_eq!(
        parser.tsv_headers,
        strings(&[
            "chromosome",
            "position",
            "id",
            "reference",
            "alternative",
            "qual",
            "filter",
            "info.AC",
            "info.CSQ.Allele",
            "info.CSQ.Feature",
            "info.Pangolin.gene",
            "info.Pangolin.score",
            "S1",
        ])
    );
}

#[test]
fn a_single_field_needs_no_join_column() {
    let parser = VcfParser::new(
        Value::Null,
        strings(&["CSQ"]),
        vec![],
        Some(strings(&["position", "info.CSQ.Feature"])),
        OutputFormat::default(),
        &declared(),
        &vec![],
    )
    .unwrap();
    assert_eq!(parser.output_format, OutputFormat::T);
    assert_eq!(parser.info_fields, strings(&["info.CSQ"]));
    assert!(parser.fields_join.is_empty());
    assert_eq!(parser.csq_headers, vec![("CSQ".to_string(), strings(&["Allele", "Feature"]))]);
    assert_eq!(parser.tsv_headers, strings(&["position", "info.CSQ.Feature"]));
}

#[test]
fn arguments_that_do_not_fit_are_refused() {
    let attempt = |fields: &[&str], joins: &[&str], columns: Option<Vec<String>>| {
        VcfParser::new(Value::Null, strings(fields), strings(joins), columns, OutputFormat::T, &declared(), &vec![])
            .err()
    };
    assert_eq!(attempt(&["CSQ", "Pangolin"], &["Feature"], None), Some(VcfParserError::InvalidArgument));
    assert_eq!(attempt(&["CSQ"], &["Feature", "gene"], None), Some(VcfParserError::InvalidArgument));
    assert_eq!(attempt(&[], &["Feature"], None), Some(VcfParserError::InvalidArgument));
    assert_eq!(attempt(&[], &[], None), None);
    assert_eq!(
        attempt(&["CSQ"], &["Feature"], Some(strings(&["info.CSQ"]))),
        Some(VcfParserError::InvalidArgument)
    );
    assert_eq!(attempt(&["CSQ"], &["Feature"], Some(strings(&["info.Pangolin"]))), None);
}

#[test]
fn declarations_that_are_not_utf8_are_refused() {
    let mut bad = declared();
    bad[0].1 = vec![0xff];
    assert_eq!(
        VcfParser::new(Value::Null, strings(&["CSQ"]), strings(&["Feature"]), None, OutputFormat::T, &bad, &vec![])
            .err(),
        Some(VcfParserError::InvalidEncoding)
    );
}

#[test]
fn filter_arguments_and_input_names() {
    assert!(is_expression("foo = bar"));
    assert!(is_expression(" "));
    assert!(!is_expression("filter.yml"));
    assert!(!is_expression(""));
    assert!(is_compressed("a.vcf.gz"));
    assert!(is_compressed(".vcf.gz"));
    assert!(!is_compressed("a.vcf"));
    assert!(!is_compressed("a.gz"));
    assert!(!is_compressed("vcf.gz"));
    assert!(!is_compressed(""));
    assert!(!is_compressed("a.vcf.gz "));
}

#[test]
fn names_of_inputs() {
    for name in ["-", "a.vcf", "a.gz", "a.vcf.gz", "dir/a.b.vcf", ".vcf", "a..gz"] {
        assert!(accepts_input_name(name), "{}", name);
    }
    for name in ["", "a", "vcf", "a.txt", "a.vcf.", "a.VCF", "a.vcf/b", "--", "a.vcf ", "."] {
        assert!(!accepts_input_name(name), "{}", name);
    }
}
