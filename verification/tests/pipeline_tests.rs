use std::io::{BufReader, Cursor};
use vcf::VCFReader;
use vcf_parser::number::Number;
use vcf_parser::parser::parse_logic_expr;
use vcf_parser::utils;
use vcf_parser::value::{Object, Value};
use vcf_parser::variant::{Cardinality, FieldSchema, Header, RawRecord, ValueKind, Variant};
use vcf_parser::vcfparser::VcfParser;
use vcf_parser::OutputFormat;

const FILE: &str = "##fileformat=VCFv4.2
##INFO=<ID=AC,Number=A,Type=Integer,Description=\"Allele count\">
##INFO=<ID=AF,Number=A,Type=Float,Description=\"Allele frequency\">
##INFO=<ID=DB,Number=0,Type=Flag,Description=\"In the database\">
##INFO=<ID=CSQ,Number=.,Type=String,Description=\"Consequence annotations from Ensembl VEP. Format: Allele|Consequence|Feature|AF\">
##INFO=<ID=Pangolin,Number=.,Type=String,Description=\"Pangolin scores. Format: pangolin_gene|pangolin_transcript|pangolin_max_score\">
##FORMAT=<ID=GT,Number=1,Type=String,Description=\"Genotype\">
##FORMAT=<ID=DP,Number=1,Type=Integer,Description=\"Depth\">
#CHROM\tPOS\tID\tREF\tALT\tQUAL\tFILTER\tINFO\tFORMAT\tS1\tS2
1\t100\trs1\tA\tG\t50.5\tPASS\tAC=2;AF=0.5;DB;CSQ=G|missense_variant|ENST1.3|0.01,G|synonymous_variant|ENST2.1|;Pangolin=GENE1|ENST1|0.9\tGT:DP\t0/1:12\t1/1:.
1\t200\t.\tC\tT\t.\t.\tAC=1;AF=1e-3;CSQ=T|stop_gained|ENST3.1|0.2\tGT:DP\t0/0:7\t0/1:9
2\t300\trs3;rs4\tG\tA\t10\tq10\tAC=3;AF=0.25\tGT:DP\t0/1:1\t0/1:2
";

fn kind(value_type: &vcf::ValueType) -> ValueKind {
    match value_type {
        vcf::ValueType::Flag => ValueKind::Flag,
        vcf::ValueType::Integer => ValueKind::Integer,
        vcf::ValueType::Float => ValueKind::Float,
        vcf::ValueType::Character => ValueKind::Character,
        _ => ValueKind::String,
    }
}

fn cardinality(number: &vcf::Number) -> Cardinality {
    match number {
        vcf::Number::Allele => Cardinality::PerAllele,
        vcf::Number::Zero => Cardinality::Fixed(0),
        vcf::Number::Number(n) if *n >= 0 => Cardinality::Fixed(*n as u32),
        _ => Cardinality::Unbounded,
    }
}

fn schema(field: vcf::VCFHeaderInfoFormat) -> FieldSchema {
    FieldSchema {
        name: field.id.to_vec(),
        kind: kind(field.value_type),
        cardinality: cardinality(field.number),
    }
}

fn header(header: &vcf::VCFHeader) -> Header {
    Header {
        info: header.info_list().filter_map(|id| header.info(id)).map(schema).collect(),
        format: header.format_list().filter_map(|id| header.format(id)).map(schema).collect(),
    }
}

fn raw(record: &vcf::VCFRecord, header: &Header) -> RawRecord {
    RawRecord {
        header: header.clone(),
        chromosome: record.chromosome.clone(),
        position: record.position,
        id: record.id.clone(),
        reference: record.reference.clone(),
        alternative: record.alternative.clone(),
        qual: record.qual.and_then(|q| Number::parse(&format!("{q}"))),
        filter: record.filter.clone(),
        info: record.info.clone(),
        format: record.format.clone(),
        genotype: record.genotype.clone(),
    }
}

fn read(filter: Value) -> (VcfParser, Vec<RawRecord>, Vec<Vec<u8>>) {
    let mut reader = VCFReader::new(BufReader::new(Cursor::new(FILE.as_bytes()))).unwrap();
    let declared: Vec<(Vec<u8>, Vec<u8>)> = reader
        .header()
        .info_list()
        .map(|id| (id.clone(), reader.header().info(id).unwrap().description.to_vec()))
        .collect();
    let samples = reader.header().samples().to_vec();
    let parser = VcfParser::new(
        filter,
        vec!["CSQ".to_string(), "Pangolin".to_string()],
        vec!["Feature".to_string(), "pangolin_transcript".to_string()],
        None,
        OutputFormat::T,
        &declared,
        &samples,
    )
    .unwrap();
    let schema = header(reader.header());
    let mut records = Vec::new();
    let mut record = reader.empty_record();
    while reader.next_record(&mut record).unwrap() {
        records.push(raw(&record, &schema));
    }
    (parser, records, samples)
}

#[test]
fn a_file_is_decoded() {
    let (parser, records, samples) = read(Value::Null);
    assert_eq!(records.len(), 3);
    let variants: Vec<Variant> =
        records.iter().map(|x| Variant::new(x, &samples, &parser.csq_headers).unwrap()).collect();
    assert_eq!(variants[0].chromosome, "1");
    assert_eq!(variants[0].position, 100);
    assert_eq!(variants[0].id, "rs1");
    assert_eq!(variants[0].qual, Number::parse("50.5"));
    assert_eq!(variants[0].filter, "PASS");
    assert_eq!(variants[0].info.get("AC"), Some(&Value::Number(Number::from_u64(2))));
    assert_eq!(variants[0].info.get("DB"), Some(&Value::Bool(true)));
    assert_eq!(variants[1].info.get("DB"), Some(&Value::Bool(false)));
    assert_eq!(variants[1].qual, None);
    assert_eq!(variants[1].info.get("AF"), Some(&Value::Number(Number::parse("0.001").unwrap())));
    assert_eq!(variants[2].id, "rs3;rs4");
    assert_eq!(variants[2].filter, "q10");
    let s2 = match variants[0].genotype.get("S2") {
        Some(Value::Object(fields)) => fields,
        _ => panic!("no sample"),
    };
    assert_eq!(s2.get("GT"), Some(&Value::String("1/1".to_string())));
    assert_eq!(s2.get("DP"), Some(&Value::Null));
    match variants[2].info.get("CSQ") {
        Some(Value::Array(items)) => assert_eq!(items.len(), 1),
        _ => panic!("no annotation"),
    }
}

#[test]
fn a_file_gives_its_rows() {
    let (parser, records, samples) = read(Value::Null);
    let rows: Vec<Vec<Object>> = records.iter().map(|x| parser.rows(x, &samples).unwrap()).collect();
    assert_eq!(rows.iter().map(|x| x.len()).collect::<Vec<usize>>(), vec![2, 2, 1]);
    assert_eq!(
        utils::get_row(&rows[0][0], &parser.tsv_headers),
        vec![
            "1", "100", "rs1", "A", "G", "50.5", "PASS", "2", "0.5", "0.01", "G", "missense_variant",
            "ENST1.3", "true", "GENE1", "0.9", "ENST1", "", "",
        ]
    );
    assert_eq!(
        utils::get_row(&rows[2][0], &parser.tsv_headers),
        vec![
            "2", "300", "rs3;rs4", "G", "A", "10", "q10", "3", "0.25", "", "", "", "", "false", "", "",
            "", "", "",
        ]
    );
    assert_eq!(
        parser.tsv_headers,
        vec![
            "chromosome",
            "position",
            "id",
            "reference",
            "alternative",
            "qual",
            "filter",
            "info.AC",
            "info.AF",
            "info.CSQ.AF",
            "info.CSQ.Allele",
            "info.CSQ.Consequence",
            "info.CSQ.Feature",
            "info.DB",
            "info.Pangolin.pangolin_gene",
            "info.Pangolin.pangolin_max_score",
            "info.Pangolin.pangolin_transcript",
            "S1",
            "S2",
        ]
    );
}

#[test]
fn a_file_is_filtered() {
    let filter = parse_logic_expr("(info.CSQ.AF <= 0.05 or info.CSQ.AF == none) and info.AC >= 2").unwrap();
    let (parser, records, samples) = read(filter);
    let rows: Vec<Object> =
        records.iter().flat_map(|x| parser.rows(x, &samples).unwrap()).collect();
    assert_eq!(rows.len(), 3);
    assert_eq!(rows[0].get("info.CSQ.Feature"), Some(&Value::String("ENST1.3".to_string())));
    assert_eq!(rows[1].get("info.CSQ.Feature"), Some(&Value::String("ENST2.1".to_string())));
    assert_eq!(rows[2].get("info.CSQ.Feature"), Some(&Value::Null));
}
