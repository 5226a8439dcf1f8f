use tfg_ml::encoder::CategoryEncoder;
use tfg_ml::table::{
    count_fields, encode_categorical, encode_mixed, has_blank_field, is_complete_record,
    labelled_rows, parse_record, read_records, yes_no_label,
};

fn chars(s: &str) -> Vec<char> {
    s.chars().collect()
}

fn lines(text: &[&str]) -> Vec<Vec<char>> {
    text.iter().map(|l| chars(l)).collect()
}

#[test]
fn encoder_gives_codes_in_order_of_first_appearance() {
    let mut e = CategoryEncoder::new();
    assert_eq!(e.encode(&chars("married")), 0);
    assert_eq!(e.encode(&chars("single")), 1);
    assert_eq!(e.encode(&chars("married")), 0);
    assert_eq!(e.encode(&chars("divorced")), 2);
    assert_eq!(e.len(), 3);
    assert_eq!(e.code(&chars("single")), Some(1));
    assert_eq!(e.code(&chars("widowed")), None);
}

#[test]
fn encoding_twice_changes_nothing() {
    let mut e = CategoryEncoder::new();
    let a = e.encode(&chars("x"));
    let n = e.len();
    let b = e.encode(&chars("x"));
    assert_eq!(a, b);
    assert_eq!(e.len(), n);
}

#[test]
fn parse_record_unquotes_fields() {
    let f = parse_record(&chars("\"a\";\"b c\";3"), 3, false).unwrap();
    let t: Vec<String> = f.iter().map(|x| x.iter().collect()).collect();
    assert_eq!(t, vec!["a", "b c", "3"]);
}

#[test]
fn parse_record_rejects_wrong_field_count() {
    assert!(parse_record(&chars("a;b"), 3, false).is_none());
    assert!(parse_record(&chars("a;b;c;d"), 3, false).is_none());
}

#[test]
fn parse_record_trims_the_line_first_when_asked() {
    let f = parse_record(&chars("  a;b  "), 2, true).unwrap();
    assert_eq!(f[1], chars("b"));
    let g = parse_record(&chars("  a;b  "), 2, false).unwrap();
    assert_eq!(g[1], chars("b  "));
}

#[test]
fn count_fields_counts_separators_plus_one() {
    assert_eq!(count_fields(&chars("age;job;marital")), 3);
    assert_eq!(count_fields(&chars("")), 1);
}

#[test]
fn read_records_skips_header_and_bad_lines() {
    let ls = lines(&["h1;h2", "a;b", "bad", "c;\"d\""]);
    let recs = read_records(&ls, 2, false);
    assert_eq!(recs.len(), 2);
    assert_eq!(recs[1][1], chars("d"));
}

#[test]
fn encode_categorical_encodes_each_column() {
    let ls = lines(&[
        "\"age\";\"job\";\"y\"",
        "30;\"admin.\";\"no\"",
        "41;\"technician\";\"yes\"",
        "too;short",
        "30;\"technician\";\"no\"",
    ]);
    let t = encode_categorical(&ls, 3);
    assert_eq!(t.features, vec![vec![0, 0], vec![1, 1], vec![0, 1]]);
    assert_eq!(t.targets, vec![0, 1, 0]);
    assert_eq!(t.encoders.len(), 3);
    assert_eq!(t.encoders[1].len(), 2);
    assert_eq!(t.encoders[2].code(&chars("yes")), Some(1));
}

#[test]
fn encode_categorical_of_header_only_is_empty() {
    let t = encode_categorical(&lines(&["a;b"]), 2);
    assert!(t.features.is_empty());
    assert!(t.targets.is_empty());
}

#[test]
fn encode_mixed_keeps_numeric_fields() {
    let recs = vec![
        vec![chars("1.5"), chars("blue")],
        vec![chars("red"), chars("blue")],
        vec![chars("2"), chars("green")],
    ];
    let numeric = vec![vec![true, false], vec![false, false], vec![true, false]];
    let t = encode_mixed(&recs, &numeric, 2);
    assert_eq!(t.features[0], vec![None, Some(0)]);
    assert_eq!(t.features[1], vec![Some(0), Some(0)]);
    assert_eq!(t.features[2], vec![None, Some(1)]);
    assert_eq!(t.encoders[0].len(), 1);
}

#[test]
fn yes_no_label_maps_answers() {
    assert_eq!(yes_no_label(&chars("yes")), Some(1));
    assert_eq!(yes_no_label(&chars("no")), Some(0));
    assert_eq!(yes_no_label(&chars("maybe")), None);
    assert_eq!(yes_no_label(&chars("Yes")), None);
}

#[test]
fn labelled_rows_leaves_out_unlabelled() {
    let (rows, ys) = labelled_rows(&vec![Some(1), None, Some(0), None]);
    assert_eq!(rows, vec![0, 2]);
    assert_eq!(ys, vec![1, 0]);
}

#[test]
fn complete_records_have_the_count_and_no_blank() {
    let good = vec![chars("1"), chars(" 2 ")];
    let blank = vec![chars("1"), chars("  ")];
    assert!(is_complete_record(&good, 2));
    assert!(!is_complete_record(&good, 3));
    assert!(!is_complete_record(&blank, 2));
    assert!(has_blank_field(&blank));
    assert!(!has_blank_field(&good));
}

#[test]
fn text_of_decodes_codes() {
    let mut e = CategoryEncoder::new();
    let c = e.encode(&chars("blue-collar"));
    assert_eq!(e.text_of(c), Some(chars("blue-collar")));
    assert_eq!(e.text_of(c + 1), None);
}

#[test]
fn different_texts_get_different_codes() {
    let mut e = CategoryEncoder::new();
    let a = e.encode(&chars("a"));
    let b = e.encode(&chars("b"));
    assert_ne!(a, b);
    assert_eq!(e.text_of(a), Some(chars("a")));
}

