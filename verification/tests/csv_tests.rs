use wall_e1::csv_table::{column_texts, load_csv_texts, CsvLoadError};

#[test]
fn test_load_csv() {
    let data = "testo,label\n\"Esempio 1\",positivo\n\"Esempio 2\",negativo\n";

    let items = load_csv_texts(data.as_bytes(), true, "testo").unwrap();
    assert_eq!(items.len(), 2);
    assert_eq!(items[0], "Esempio 1");
    assert_eq!(items[1], "Esempio 2");
}

#[test]
fn csv_missing_column() {
    let data = "a,b\n1,2\n";
    assert!(matches!(load_csv_texts(data.as_bytes(), true, "c"), Err(CsvLoadError::ColumnNotFound)));
}

#[test]
fn csv_without_headers_reads_the_first_row_too() {
    let data = "x,y\n1,2\n3,4\n";
    let texts = load_csv_texts(data.as_bytes(), false, "y").unwrap();
    assert_eq!(texts, vec!["y", "2", "4"]);
}

#[test]
fn csv_unequal_records_do_not_parse() {
    let data = "a,b\n1,2\n3\n";
    assert!(matches!(load_csv_texts(data.as_bytes(), true, "a"), Err(CsvLoadError::Parse(_))));
    // the header is looked up before the records are read
    assert!(matches!(load_csv_texts(data.as_bytes(), true, "z"), Err(CsvLoadError::ColumnNotFound)));
}

#[test]
fn csv_bad_utf8_header() {
    let data: &[u8] = b"\xff,b\n1,2\n";
    assert!(matches!(load_csv_texts(data, true, "b"), Err(CsvLoadError::Parse(_))));
}

#[test]
fn csv_column_texts_first_match_and_short_rows() {
    let headers = vec!["k".to_string(), "t".to_string(), "t".to_string()];
    let rows = vec![vec!["1".to_string(), "a".to_string(), "b".to_string()], vec!["2".to_string()]];
    assert_eq!(column_texts(&headers, &rows, "t"), Some(vec!["a".to_string()]));
    assert_eq!(column_texts(&headers, &rows, "none"), None);
}
