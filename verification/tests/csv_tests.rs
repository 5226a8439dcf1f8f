use tfg_ml::csv_table::{
    complete_record_positions, read_complete_records, read_regression_records, regression_rows,
    CsvReadError,
};

fn record(fields: &[&str]) -> Vec<Vec<char>> {
    fields.iter().map(|f| f.chars().collect()).collect()
}

#[test]
fn read_complete_records_skips_header_and_finds_complete_rows() {
    let text = "a,b,c\n1,2,3\n4, ,6\n7,\"8\",9\n".to_string();
    let (recs, pos) = match read_complete_records(&text, 3) {
        Ok(r) => r,
        Err(_) => panic!("readable text"),
    };
    assert_eq!(recs.len(), 3);
    assert_eq!(recs[2], record(&["7", "8", "9"]));
    assert_eq!(pos, vec![0, 2]);
}

#[test]
fn read_complete_records_reports_malformed_text() {
    let text = "a,b\n1,2\n3,4,5\n".to_string();
    assert!(matches!(read_complete_records(&text, 2), Err(CsvReadError::Malformed(_))));
}

#[test]
fn complete_record_positions_checks_count_and_blanks() {
    let recs = vec![record(&["1", "2"]), record(&["1"]), record(&["", "2"]), record(&["3", "4"])];
    assert_eq!(complete_record_positions(&recs, 2), vec![0, 3]);
}

#[test]
fn regression_rows_takes_feature_count_from_first_record() {
    let recs = vec![record(&["1", "2", "3", "x"]), record(&["4", " ", "6", "y"]), record(&["7", "8", "9", "z"])];
    assert_eq!(regression_rows(&recs), (2, vec![0, 2]));
}

#[test]
fn regression_rows_with_blank_first_record_counts_no_features() {
    let recs = vec![record(&["1", "", "3"]), record(&["4", "5", "6"])];
    assert_eq!(regression_rows(&recs), (0, vec![1]));
}

#[test]
fn read_regression_records_reads_the_file() {
    let text = "f1,f2,t,o\n1,2,3,a\n4,5,6,b\n".to_string();
    let (recs, features, pos) = match read_regression_records(&text) {
        Ok(r) => r,
        Err(_) => panic!("readable text"),
    };
    assert_eq!(recs.len(), 2);
    assert_eq!(features, 2);
    assert_eq!(pos, vec![0, 1]);
}

#[test]
fn read_regression_records_rejects_a_too_short_first_record() {
    let text = "h\n1\n2\n".to_string();
    assert!(matches!(read_regression_records(&text), Err(CsvReadError::TooFewFields)));
}
