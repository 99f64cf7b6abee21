use mbf_gtf::attributes::parse_attributes;
use mbf_gtf::categorical::Categorical;
use mbf_gtf::error::ParseError;
use mbf_gtf::parser::{parse_lines, GtfParser, ParseResult};
use mbf_gtf::table::GTFEntrys;

fn lines(xs: &[&str]) -> Vec<String> {
    xs.iter().map(|x| x.to_string()).collect()
}

fn no_filter() -> Vec<String> {
    Vec::new()
}

fn only(xs: &[&str]) -> Vec<String> {
    xs.iter().map(|x| x.to_string()).collect()
}

fn table<'a>(r: &'a ParseResult, feature: &str) -> &'a GTFEntrys {
    r.get(feature).expect("table present")
}

const GENE_LINE: &str = "chr1\tsrc\tgene\t100\t200\t.\t+\t.\tgene_id \"G1\"; gene_name \"Foo\";";

#[test]
fn gene_line_one_based() {
    let r = parse_lines(&lines(&[GENE_LINE]), &only(&["gene"]), false).unwrap();
    assert_eq!(r.len(), 1);
    let t = table(&r, "gene");
    assert_eq!(t.len(), 1);
    assert_eq!(t.start, vec![100]);
    assert_eq!(t.end, vec![200]);
    assert_eq!(t.strand, vec![1]);
    assert_eq!(t.vec_attribute("gene_id").unwrap(), &vec!["G1".to_string()]);
    let name = t.cat_attribute("gene_name").unwrap();
    assert_eq!(name.values, vec![0]);
    assert_eq!(name.dictionary(), vec!["Foo".to_string()]);
    assert_eq!(t.seqname.values, vec![0]);
    assert_eq!(t.seqname.dictionary(), vec!["chr1".to_string()]);
}

#[test]
fn gene_line_zero_based() {
    let r = parse_lines(&lines(&[GENE_LINE]), &no_filter(), true).unwrap();
    let t = table(&r, "gene");
    assert_eq!(t.start, vec![99]);
    assert_eq!(t.end, vec![200]);
}

#[test]
fn zero_start_stays_zero_when_made_zero_based() {
    let line = "chr1\tsrc\tgene\t0\t200\t.\t+\t.\tgene_id \"G1\";";
    let r = parse_lines(&lines(&[line]), &no_filter(), true).unwrap();
    assert_eq!(table(&r, "gene").start, vec![0]);
    let r = parse_lines(&lines(&[line]), &no_filter(), false).unwrap();
    assert_eq!(table(&r, "gene").start, vec![0]);
}

#[test]
fn filtered_parse_equals_parse_without_other_records() {
    let exon = "chr1\tsrc\texon\t1\t2\t.\t+\t.\tgene_id \"G1\"; exon_number \"1\";";
    let g2 = "chr2\tsrc\tgene\t5\t9\t.\t-\t.\tgene_id \"G2\"; gene_biotype \"pc\";";
    let with = parse_lines(&lines(&[exon, GENE_LINE, exon, g2]), &only(&["gene"]), false).unwrap();
    let without = parse_lines(&lines(&[GENE_LINE, g2]), &only(&["gene"]), false).unwrap();
    let a = table(&with, "gene");
    let b = table(&without, "gene");
    assert_eq!(with.len(), 1);
    assert_eq!(a.start, b.start);
    assert_eq!(a.end, b.end);
    assert_eq!(a.strand, b.strand);
    assert_eq!(a.seqname.values, b.seqname.values);
    assert_eq!(a.seqname.dictionary(), b.seqname.dictionary());
    assert_eq!(a.vec_attribute("gene_id"), b.vec_attribute("gene_id"));
    let (ca, cb) = (a.cat_attribute("gene_biotype").unwrap(), b.cat_attribute("gene_biotype").unwrap());
    assert_eq!(ca.values, cb.values);
    assert_eq!(ca.dictionary(), vec!["".to_string(), "pc".to_string()]);
    assert_eq!(cb.dictionary(), vec!["".to_string(), "pc".to_string()]);
}

#[test]
fn tag_on_exon_is_dropped() {
    let line = "chr1\tsrc\texon\t1\t2\t.\t-\t.\tgene_id \"G1\"; tag \"basic\";";
    let r = parse_lines(&lines(&[line]), &no_filter(), false).unwrap();
    let t = table(&r, "exon");
    assert!(t.cat_attribute("tag0").is_none());
    assert!(t.cat_attribute("tag").is_none());
    assert_eq!(t.cat_attributes.len(), 0);
    assert_eq!(t.strand, vec![-1]);
}

#[test]
fn seventh_tag_is_dropped() {
    let line = "chr1\tsrc\ttranscript\t1\t2\t.\t.\t.\ttranscript_id \"T1\"; tag \"a\"; tag \"b\"; tag \"c\"; tag \"d\"; tag \"e\"; tag \"f\"; tag \"g\";";
    let r = parse_lines(&lines(&[line]), &no_filter(), false).unwrap();
    let t = table(&r, "transcript");
    let expected = ["a", "b", "c", "d", "e", "f"];
    for (i, v) in expected.iter().enumerate() {
        let c = t.cat_attribute(&format!("tag{}", i)).unwrap();
        assert_eq!(c.dictionary(), vec![v.to_string()]);
    }
    assert!(t.cat_attribute("tag6").is_none());
    assert_eq!(t.cat_attributes.len(), 6);
    assert_eq!(t.strand, vec![0]);
}

#[test]
fn five_fields_fail_the_whole_parse() {
    let r = parse_lines(
        &lines(&[GENE_LINE, "chr1\tsrc\tgene\t100\t200"]),
        &no_filter(),
        false,
    );
    assert!(matches!(r, Err(ParseError::MalformedRecord)));
}

#[test]
fn error_is_final_even_with_good_lines_after() {
    let r = parse_lines(&lines(&[GENE_LINE, "chr1\tsrc", GENE_LINE]), &no_filter(), false);
    assert!(matches!(r, Err(ParseError::MalformedRecord)));
}

#[test]
fn filter_keeps_only_accepted_features() {
    let exon = "chr1\tsrc\texon\t1\t2\t.\t+\t.\tgene_id \"G1\"; exon_number \"1\";";
    let r = parse_lines(
        &lines(&[exon, GENE_LINE, exon, GENE_LINE, exon]),
        &only(&["gene"]),
        false,
    )
    .unwrap();
    assert_eq!(r.len(), 1);
    assert!(r.get("exon").is_none());
    assert_eq!(table(&r, "gene").len(), 2);
}

#[test]
fn filtered_record_is_not_checked() {
    let bad_exon = "chr1\tsrc\texon\tnot-a-number\t2";
    let r = parse_lines(&lines(&[bad_exon, GENE_LINE]), &only(&["gene"]), false).unwrap();
    assert_eq!(r.len(), 1);
}

#[test]
fn empty_filter_accepts_everything() {
    let exon = "chr1\tsrc\texon\t1\t2\t.\t+\t.\tgene_id \"G1\";";
    let r = parse_lines(&lines(&[exon, GENE_LINE]), &no_filter(), false).unwrap();
    assert_eq!(r.len(), 2);
    assert_eq!(r.features[0].0, "exon");
    assert_eq!(r.features[1].0, "gene");
}

#[test]
fn comments_and_empty_lines_are_skipped() {
    let r = parse_lines(&lines(&["#!genome-build x", "", GENE_LINE]), &no_filter(), false).unwrap();
    assert_eq!(table(&r, "gene").len(), 1);
}

#[test]
fn bad_start_is_numeric_error() {
    let line = "chr1\tsrc\tgene\tx100\t200\t.\t+\t.\tgene_id \"G1\";";
    let r = parse_lines(&lines(&[line]), &no_filter(), false);
    assert!(matches!(r, Err(ParseError::NumericParseError)));
}

#[test]
fn bad_end_is_numeric_error() {
    let line = "chr1\tsrc\tgene\t1\t18446744073709551616\t.\t+\t.\tgene_id \"G1\";";
    let r = parse_lines(&lines(&[line]), &no_filter(), false);
    assert!(matches!(r, Err(ParseError::NumericParseError)));
}

#[test]
fn largest_coordinate_and_plus_sign() {
    let line = "chr1\tsrc\tgene\t+7\t18446744073709551615\t.\t+\t.\tgene_id \"G1\";";
    let r = parse_lines(&lines(&[line]), &no_filter(), false).unwrap();
    let t = table(&r, "gene");
    assert_eq!(t.start, vec![7]);
    assert_eq!(t.end, vec![18446744073709551615]);
}

#[test]
fn attribute_without_value_is_malformed() {
    let line = "chr1\tsrc\tgene\t1\t2\t.\t+\t.\tgene_id \"G1\"; broken;";
    let r = parse_lines(&lines(&[line]), &no_filter(), false);
    assert!(matches!(r, Err(ParseError::MalformedRecord)));
}

#[test]
fn missing_attributes_field_is_malformed() {
    let line = "chr1\tsrc\tgene\t1\t2\t.\t+\t.";
    let r = parse_lines(&lines(&[line]), &no_filter(), false);
    assert!(matches!(r, Err(ParseError::MalformedRecord)));
}

#[test]
fn late_column_is_back_filled_and_rows_aligned() {
    let a = "chr1\tsrc\tgene\t1\t2\t.\t+\t.\tgene_id \"G1\";";
    let b = "chr2\tsrc\tgene\t3\t4\t.\t-\t.\tgene_id \"G2\"; gene_biotype \"coding\"; havana_id \"H2\";";
    let c = "chr1\tsrc\tgene\t5\t6\t.\t.\t.\tgene_id \"G3\";";
    let r = parse_lines(&lines(&[a, b, c]), &no_filter(), false).unwrap();
    let t = table(&r, "gene");
    assert_eq!(t.len(), 3);
    let bio = t.cat_attribute("gene_biotype").unwrap();
    assert_eq!(bio.values, vec![0, 1, 0]);
    assert_eq!(bio.dictionary(), vec!["".to_string(), "coding".to_string()]);
    let hv = t.vec_attribute("havana_id").unwrap();
    assert_eq!(hv, &vec!["".to_string(), "H2".to_string(), "".to_string()]);
    assert_eq!(t.vec_attribute("gene_id").unwrap().len(), 3);
    assert_eq!(t.seqname.values, vec![0, 1, 0]);
    assert_eq!(t.strand, vec![1, -1, 0]);
    for (_, c) in t.cat_attributes.iter() {
        assert_eq!(c.len(), 3);
    }
    for (_, c) in t.vec_attributes.iter() {
        assert_eq!(c.len(), 3);
    }
}

#[test]
fn gene_keys_dropped_outside_gene_records() {
    let line = "chr1\tsrc\texon\t1\t2\t.\t+\t.\tgene_id \"G1\"; gene_name \"X\"; transcript_id \"T1\"; transcript_name \"Y\"; exon_id \"E1\";";
    let r = parse_lines(&lines(&[line]), &no_filter(), false).unwrap();
    let t = table(&r, "exon");
    assert!(t.vec_attribute("gene_id").is_some());
    assert!(t.vec_attribute("transcript_id").is_some());
    assert!(t.vec_attribute("exon_id").is_some());
    assert!(t.cat_attribute("gene_name").is_none());
    assert!(t.cat_attribute("transcript_name").is_none());
}

#[test]
fn attributes_split_and_unquoted() {
    let p = parse_attributes("gene_id \"G1\";  gene_name \"Foo\";;x y", "gene").unwrap();
    assert_eq!(
        p,
        vec![
            ("gene_id".to_string(), "G1".to_string()),
            ("gene_name".to_string(), "Foo".to_string()),
            ("x".to_string(), "y".to_string()),
        ]
    );
}

#[test]
fn attributes_strip_one_quote_pair_only() {
    let p = parse_attributes("k \"\"v\"\";", "gene").unwrap();
    assert_eq!(p, vec![("k".to_string(), "\"v\"".to_string())]);
}

#[test]
fn attributes_value_keeps_later_spaces() {
    let p = parse_attributes("note \"a b c\";", "gene").unwrap();
    assert_eq!(p, vec![("note".to_string(), "a b c".to_string())]);
}

#[test]
fn attributes_dropped_key_needs_no_value() {
    let p = parse_attributes("tag; gene_id \"G\";", "exon").unwrap();
    assert_eq!(p, vec![("gene_id".to_string(), "G".to_string())]);
    assert!(matches!(parse_attributes("tag;", "transcript"), Err(ParseError::MalformedRecord)));
}

#[test]
fn categorical_codes_in_first_seen_order() {
    let mut c = Categorical::new();
    for s in ["b", "a", "b", "c", "a"] {
        c.push(s);
    }
    assert_eq!(c.values, vec![0, 1, 0, 2, 1]);
    assert_eq!(c.dictionary(), vec!["b".to_string(), "a".to_string(), "c".to_string()]);
    assert_eq!(c.len(), 5);
}

#[test]
fn categorical_round_trip() {
    let input = ["x", "", "y", "x", "x", "", "z"];
    let mut c = Categorical::new();
    for s in input {
        c.push(s);
    }
    let dict = c.dictionary();
    let decoded: Vec<&str> = c.values.iter().map(|&v| dict[v as usize].as_str()).collect();
    assert_eq!(decoded, input.to_vec());
}

#[test]
fn categorical_push_twice_same_code() {
    let mut c = Categorical::new();
    c.push("q");
    c.push("r");
    let before = c.dictionary().len();
    c.push("r");
    assert_eq!(c.dictionary().len(), before);
    assert_eq!(c.values[1], c.values[2]);
}

#[test]
fn categorical_presized() {
    let c = Categorical::new_empty(3);
    assert_eq!(c.values, vec![0, 0, 0]);
    assert_eq!(c.dictionary(), vec!["".to_string()]);
    let c = Categorical::new_empty(0);
    assert_eq!(c.len(), 0);
    assert_eq!(c.dictionary().len(), 0);
    let c = Categorical::new_empty_push(2, "v");
    assert_eq!(c.values, vec![0, 0, 1]);
    assert_eq!(c.dictionary(), vec!["".to_string(), "v".to_string()]);
    let c = Categorical::new_empty_push(0, "v");
    assert_eq!(c.values, vec![0]);
    assert_eq!(c.dictionary(), vec!["v".to_string()]);
}

#[test]
fn streaming_parser_matches_batch() {
    let mut p = GtfParser::new(&no_filter(), false);
    p.feed_line(GENE_LINE).unwrap();
    p.feed_line("# comment").unwrap();
    p.feed_line(GENE_LINE).unwrap();
    let r = p.finish();
    assert_eq!(table(&r, "gene").len(), 2);
    assert_eq!(table(&r, "gene").vec_attribute("gene_id").unwrap().len(), 2);
}

#[test]
fn empty_table_has_no_rows() {
    let t = GTFEntrys::new();
    assert_eq!(t.len(), 0);
    assert!(t.cat_attribute("x").is_none());
    assert!(t.vec_attribute("x_id").is_none());
}

#[test]
fn error_messages_are_distinct() {
    let all = [
        ParseError::IoError,
        ParseError::MalformedRecord,
        ParseError::NumericParseError,
        ParseError::TooManyValues,
    ];
    for (i, a) in all.iter().enumerate() {
        for (j, b) in all.iter().enumerate() {
            assert_eq!(i == j, a.message() == b.message());
        }
    }
}

#[test]
fn repeated_key_in_one_record_adds_two_entries() {
    let line = "chr1\tsrc\tgene\t1\t2\t.\t+\t.\tgene_id \"A\"; gene_id \"B\";";
    let r = parse_lines(&lines(&[line]), &no_filter(), false).unwrap();
    let t = table(&r, "gene");
    assert_eq!(t.len(), 1);
    assert_eq!(
        t.vec_attribute("gene_id").unwrap(),
        &vec!["A".to_string(), "B".to_string()]
    );
}

#[test]
fn unicode_white_space_is_trimmed_before_a_key() {
    let p = parse_attributes("a \"1\";\u{3000}b \"2\";", "gene").unwrap();
    assert_eq!(
        p,
        vec![("a".to_string(), "1".to_string()), ("b".to_string(), "2".to_string())]
    );
}

#[test]
fn feature_table_order_follows_first_appearance() {
    let cds = "chr1\tsrc\tCDS\t1\t2\t.\t+\t0\tgene_id \"G1\";";
    let r = parse_lines(&lines(&[cds, GENE_LINE, cds]), &only(&["CDS", "gene"]), false).unwrap();
    assert_eq!(r.features[0].0, "CDS");
    assert_eq!(r.features[1].0, "gene");
    assert_eq!(table(&r, "CDS").len(), 2);
}
