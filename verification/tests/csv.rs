use xberg::config::{CsvConfig, ExtractionConfig};
use xberg::csv::{
    build_markdown_table, classify_cell, column_type_by_classes, decode_csv_bytes, detect_delimiter, detect_header, infer_column_types, is_csv_number, parse_csv, render_plain_text, strip_comment_lines, CellClass, CsvExtractor,
};
use xberg::document::{ElementKind, FormatMetadata, InternalDocument};

#[test]
fn test_parse_csv_simple() {
    let rows = parse_csv("a,b,c\n1,2,3\n", ',');
    assert_eq!(rows, vec![vec!["a", "b", "c"], vec!["1", "2", "3"]]);
}

#[test]
fn test_parse_csv_quoted() {
    let rows = parse_csv("\"hello, world\",b,c\n", ',');
    assert_eq!(rows, vec![vec!["hello, world", "b", "c"]]);
}

#[test]
fn test_parse_csv_escaped_quotes() {
    let rows = parse_csv("\"say \"\"hello\"\"\",b\n", ',');
    assert_eq!(rows, vec![vec!["say \"hello\"", "b"]]);
}

#[test]
fn test_parse_tsv() {
    let rows = parse_csv("a\tb\tc\n1\t2\t3\n", '\t');
    assert_eq!(rows, vec![vec!["a", "b", "c"], vec!["1", "2", "3"]]);
}

#[test]
fn test_parse_csv_crlf() {
    let rows = parse_csv("a,b\r\n1,2\r\n", ',');
    assert_eq!(rows, vec![vec!["a", "b"], vec!["1", "2"]]);
}

#[test]
fn test_parse_csv_empty_fields() {
    let rows = parse_csv("a,,c\n", ',');
    assert_eq!(rows, vec![vec!["a", "", "c"]]);
}

#[test]
fn test_build_markdown_table() {
    let rows = vec![
        vec!["Name".to_string(), "Age".to_string()],
        vec!["Alice".to_string(), "30".to_string()],
    ];
    let md = build_markdown_table(&rows, true);
    assert!(md.contains("| Name | Age |"));
    assert!(md.contains("| --- | --- |"));
    assert!(md.contains("| Alice | 30 |"));
}

#[test]
fn should_build_markdown_with_empty_header_for_headerless_rows() {
    let rows = vec![
        vec!["Alice".to_string(), "NYC".to_string()],
        vec!["Bob".to_string(), "LA".to_string()],
    ];

    let markdown = build_markdown_table(&rows, false);

    assert!(markdown.starts_with("|  |  |\n| --- | --- |\n"));
    assert!(markdown.contains("| Alice | NYC |"));
    assert!(markdown.contains("| Bob | LA |"));
}

#[test]
fn test_csv_extractor_quoted_fields() {
    let extractor = CsvExtractor::new();
    let config = ExtractionConfig::default();
    let csv_data = b"Name,Description\n\"Smith, John\",\"Has a comma, inside\"\n";

    let result = extractor
        .extract_content(csv_data, "text/csv", &config)
        .expect("CSV extraction with quoted fields should succeed");

    assert!(!result.tables.is_empty());
}

#[test]
fn test_detect_delimiter_comma() {
    assert_eq!(detect_delimiter("a,b,c\n1,2,3\n4,5,6"), ',');
}

#[test]
fn test_detect_delimiter_semicolon() {
    assert_eq!(detect_delimiter("a;b;c\n1;2;3\n4;5;6"), ';');
}

#[test]
fn test_detect_delimiter_pipe() {
    assert_eq!(detect_delimiter("a|b|c\n1|2|3\n4|5|6"), '|');
}

#[test]
fn test_detect_delimiter_tab() {
    assert_eq!(detect_delimiter("a\tb\tc\n1\t2\t3\n4\t5\t6"), '\t');
}

#[test]
fn test_detect_delimiter_semicolons_with_commas_in_values() {
    assert_eq!(
        detect_delimiter("\"last, first\";age;city\n\"doe, john\";30;NYC\n\"smith, jane\";25;LA"),
        ';'
    );
}

#[test]
fn test_decode_csv_bytes_shift_jis() {
    let shift_jis_data = vec![
        0x96u8, 0xbc, 0x91, 0x4f, 0x2c, 0x94, 0x4e, 0x97, 0xee, 0x2c, 0x8f, 0x5a, 0x8f, 0x8a,
    ];

    let decoded = decode_csv_bytes(&shift_jis_data);

    assert!(decoded.contains("名前"), "Should contain '名前' (Name)");
    assert!(decoded.contains("年齢"), "Should contain '年齢' (Age)");
    assert!(decoded.contains("住所"), "Should contain '住所' (Address)");

    assert!(
        !decoded.contains("□"),
        "Should not contain mojibake replacement characters"
    );
    assert!(
        !decoded.contains("\u{FFFD}"),
        "Should not contain Unicode replacement characters"
    );
}

#[test]
fn test_decode_csv_bytes_utf8() {
    let utf8_data = "名前,年齢,住所".as_bytes();
    let decoded = decode_csv_bytes(utf8_data);
    assert_eq!(decoded, "名前,年齢,住所");
}

#[test]
fn test_detect_header_with_numeric_data() {
    let rows = vec![
        vec!["Name".to_string(), "Age".to_string(), "Score".to_string()],
        vec!["Alice".to_string(), "30".to_string(), "95.5".to_string()],
        vec!["Bob".to_string(), "25".to_string(), "88.0".to_string()],
    ];
    assert!(detect_header(&rows), "Should detect header when data rows have numbers");
}

#[test]
fn test_detect_header_all_text() {
    let rows = vec![
        vec!["Name".to_string(), "City".to_string()],
        vec!["Alice".to_string(), "NYC".to_string()],
        vec!["Bob".to_string(), "LA".to_string()],
    ];
    assert!(
        detect_header(&rows),
        "an all-text first row is the header by CSV convention, not a blank synthetic header (#1369)"
    );
}

#[test]
fn all_text_csv_renders_first_row_as_header_not_blank() {
    let rows = vec![
        vec!["Name".to_string(), "City".to_string()],
        vec!["Alice".to_string(), "NYC".to_string()],
        vec!["Bob".to_string(), "LA".to_string()],
    ];
    let has_header = detect_header(&rows);
    let markdown = build_markdown_table(&rows, has_header);

    assert!(has_header);
    assert!(
        !markdown.contains("|  |  |"),
        "must not emit a blank synthetic header row"
    );
    assert!(markdown.starts_with("| Name | City |\n| --- | --- |\n"));
    assert!(markdown.contains("| Alice | NYC |"));
}

#[test]
fn test_detect_header_numeric_first_row() {
    let rows = vec![
        vec!["1".to_string(), "2".to_string(), "3".to_string()],
        vec!["4".to_string(), "5".to_string(), "6".to_string()],
    ];
    assert!(
        !detect_header(&rows),
        "Should not detect header when first row has numbers"
    );
}

#[test]
fn nan_inf_are_not_numeric() {
    assert!(!is_csv_number("NaN"));
    assert!(!is_csv_number("inf"));
    assert!(!is_csv_number("-Infinity"));
    assert!(!is_csv_number("nan"));
    assert!(is_csv_number("42"));
    assert!(is_csv_number("-3.14"));
    assert!(is_csv_number("1e6"));
}

#[test]
fn header_row_of_nan_inf_labels_still_detected_as_header() {
    let rows = vec![
        vec!["NaN".to_string(), "inf".to_string(), "label".to_string()],
        vec!["1".to_string(), "2".to_string(), "x".to_string()],
    ];
    assert!(
        detect_header(&rows),
        "header of NaN/inf/label words must be treated as a header, not numeric data"
    );
}

#[test]
fn test_infer_column_types_basic() {
    let rows = vec![
        vec!["Name".to_string(), "Age".to_string(), "Date".to_string()],
        vec!["Alice".to_string(), "30".to_string(), "2024-01-15".to_string()],
        vec!["Bob".to_string(), "25".to_string(), "2024-02-20".to_string()],
    ];
    let types = infer_column_types(&rows, true);
    assert_eq!(types.len(), 3);
    assert_eq!(types[0], "text");
    assert_eq!(types[1], "numeric");
    assert_eq!(types[2], "date");
}

#[test]
fn test_csv_extractor_header_detection_metadata() {
    let extractor = CsvExtractor::new();
    let config = ExtractionConfig::default();
    let csv_data = b"Name,Age,City\nAlice,30,NYC\nBob,25,LA\n";

    let result = extractor.extract_content(csv_data, "text/csv", &config).unwrap();

    if let Some(FormatMetadata::Csv(csv_meta)) = &result.metadata.format {
        assert!(csv_meta.has_header);
        assert!(csv_meta.column_types.is_some(), "Should have column_types metadata");
    } else {
        panic!("Expected FormatMetadata::Csv");
    }
}

#[test]
fn configured_semicolon_delimiter_is_used_instead_of_auto_detection() {
    let extractor = CsvExtractor::new();
    let config = ExtractionConfig {
        csv: Some(CsvConfig {
            delimiter: Some(";".to_string()),
            comment_prefixes: vec![],
        }),
        ..Default::default()
    };
    let csv_data = b"Name;Age;City\nAlice;30;NYC\n";

    let result = extractor
        .extract_content(csv_data, "text/csv", &config)
        .expect("CSV extraction with configured delimiter should succeed");

    assert_eq!(
        result.tables[0].cells,
        vec![
            vec!["Name".to_string(), "Age".to_string(), "City".to_string()],
            vec!["Alice".to_string(), "30".to_string(), "NYC".to_string()],
        ]
    );

    if let Some(FormatMetadata::Csv(csv_meta)) = &result.metadata.format {
        assert_eq!(csv_meta.delimiter.as_deref(), Some(";"));
    } else {
        panic!("Expected FormatMetadata::Csv");
    }
}

#[test]
fn strip_comment_lines_is_a_no_op_when_no_prefixes_are_configured() {
    let text = "a,b\n#c,d\n";
    assert_eq!(strip_comment_lines(text, &[]), text);
}

#[test]
fn strip_comment_lines_drops_lines_whose_trimmed_start_matches_a_prefix() {
    let text = "# header comment\na,b,c\n  # indented comment\n1,2,3\n";
    let filtered = strip_comment_lines(text, &["#".to_string()]);
    assert_eq!(filtered, "a,b,c\n1,2,3\n");
}

fn csv_warnings(doc: &InternalDocument) -> Vec<String> {
    doc.processing_warnings
        .iter()
        .filter(|w| w.source == "csv")
        .map(|w| w.message.to_string())
        .collect()
}

#[test]
fn should_warn_when_a_cell_contains_an_unescaped_pipe() {
    let extractor = CsvExtractor::new();
    let config = ExtractionConfig::default();
    let csv_data = b"Name,Note\nAlice,\"a | b\"\n";

    let result = extractor
        .extract_content(csv_data, "text/csv", &config)
        .expect("CSV extraction should succeed");

    let warnings = csv_warnings(&result);
    assert_eq!(warnings.len(), 1, "expected exactly one csv warning, got {warnings:?}");
    assert!(
        warnings[0].contains("'|'") && warnings[0].contains("misaligned"),
        "warning must describe the unescaped pipe corruption, got {warnings:?}"
    );
    assert_eq!(
        result.tables[0].cells,
        vec![
            vec!["Name".to_string(), "Note".to_string()],
            vec!["Alice".to_string(), "a | b".to_string()],
        ]
    );
}

#[test]
fn should_warn_when_a_cell_contains_an_embedded_newline() {
    let extractor = CsvExtractor::new();
    let config = ExtractionConfig::default();
    let csv_data = b"Name,Note\nAlice,\"line one\nline two\"\n";

    let result = extractor
        .extract_content(csv_data, "text/csv", &config)
        .expect("CSV extraction should succeed");

    let warnings = csv_warnings(&result);
    assert_eq!(warnings.len(), 1, "expected exactly one csv warning, got {warnings:?}");
}

#[test]
fn plain_csv_with_no_pipes_or_newlines_produces_zero_warnings() {
    let extractor = CsvExtractor::new();
    let config = ExtractionConfig::default();
    let csv_data = b"Name,Age,City\nAlice,30,NYC\nBob,25,LA\n";

    let result = extractor
        .extract_content(csv_data, "text/csv", &config)
        .expect("CSV extraction should succeed");

    assert!(
        csv_warnings(&result).is_empty(),
        "an ordinary CSV file must not warn, got {:?}",
        csv_warnings(&result)
    );
}

fn extract(data: &[u8], config: &ExtractionConfig) -> InternalDocument {
    CsvExtractor::new()
        .extract_content(data, "text/csv", config)
        .expect("CSV extraction should succeed")
}

#[test]
fn test_csv_extractor_plugin_interface() {
    let extractor = CsvExtractor::new();
    assert_eq!(extractor.name(), "csv-extractor");
    assert_eq!(extractor.version(), "1.0.0");
    assert_eq!(extractor.priority(), 60);
    assert_eq!(
        extractor.supported_mime_types(),
        vec!["text/csv", "text/tab-separated-values"]
    );
    assert!(extractor.initialize().is_ok());
    assert!(extractor.shutdown().is_ok());
}

#[test]
fn test_csv_extractor_output() {
    let result = extract(b"Name,Age,City\nAlice,30,NYC\nBob,25,LA\n", &ExtractionConfig::default());
    assert_eq!(result.elements.len(), 1);
    assert!(matches!(result.elements[0].kind, ElementKind::Table { table_index: 0 }));
    let table = &result.tables[0];
    assert!(table.markdown.contains("| Name | Age | City |"));
    assert!(table.markdown.contains("| Alice | 30 | NYC |"));
    assert!(!table.markdown.contains("Row 1:"));
    assert_eq!(render_plain_text(&table.cells), "Name Age City\nAlice 30 NYC\nBob 25 LA\n");
    match &result.metadata.format {
        Some(FormatMetadata::Csv(csv)) => assert!(csv.has_header),
        _ => panic!("expected the metadata of delimited text"),
    }
}

#[test]
fn should_render_headerless_csv_without_promoting_first_data_row() {
    let result = extract(b"1,2,3\n4,5,6\n", &ExtractionConfig::default());
    let markdown = &result.tables[0].markdown;
    assert!(markdown.starts_with("|  |  |  |\n| --- | --- | --- |\n"));
    assert!(markdown.contains("| 1 | 2 | 3 |"));
    assert!(markdown.contains("| 4 | 5 | 6 |"));
    assert_eq!(render_plain_text(&result.tables[0].cells), "1 2 3\n4 5 6\n");
}

#[test]
fn configured_comment_prefix_skips_matching_lines() {
    let config = ExtractionConfig {
        csv: Some(CsvConfig { delimiter: None, comment_prefixes: vec!["#".to_string()] }),
        ..Default::default()
    };
    let result = extract(
        b"# this is a comment\nName,Age,City\n# another comment\nAlice,30,NYC\nBob,25,LA\n",
        &config,
    );
    assert_eq!(
        result.tables[0].cells,
        vec![
            vec!["Name".to_string(), "Age".to_string(), "City".to_string()],
            vec!["Alice".to_string(), "30".to_string(), "NYC".to_string()],
            vec!["Bob".to_string(), "25".to_string(), "LA".to_string()],
        ]
    );
    assert_eq!(
        render_plain_text(&result.tables[0].cells),
        "Name Age City\nAlice 30 NYC\nBob 25 LA\n"
    );
}

#[test]
fn too_many_cells_are_rejected() {
    let config = ExtractionConfig {
        security_limits: Some(xberg::security::SecurityLimits {
            max_table_cells: 3,
            ..xberg::security::SecurityLimits::default()
        }),
        ..Default::default()
    };
    let error = CsvExtractor::new()
        .extract_content(b"a,b\n1,2\n", "text/csv", &config)
        .expect_err("four cells exceed a ceiling of three");
    assert!(matches!(error, xberg::error::XbergError::Security { .. }));
}

#[test]
fn plain_comma_csv_parses_identically_with_no_csv_config_set() {
    let config = ExtractionConfig::default();
    assert!(config.csv.is_none());
    let result = extract(b"Name,Age,City\nAlice,30,NYC\nBob,25,LA\n", &config);
    assert_eq!(
        result.tables[0].cells,
        vec![
            vec!["Name".to_string(), "Age".to_string(), "City".to_string()],
            vec!["Alice".to_string(), "30".to_string(), "NYC".to_string()],
            vec!["Bob".to_string(), "25".to_string(), "LA".to_string()],
        ]
    );
}

#[test]
fn fields_are_classified_given_whether_they_start_like_dates() {
    assert_eq!(classify_cell("", true), CellClass::Blank);
    assert_eq!(classify_cell("12.5", true), CellClass::Number);
    assert_eq!(classify_cell("2024-01-02", true), CellClass::Date);
    assert_eq!(classify_cell("2024-01-02", false), CellClass::Word);
}

#[test]
fn half_of_the_filled_fields_decide_a_column() {
    let (blank, date, number, word) = (CellClass::Blank, CellClass::Date, CellClass::Number, CellClass::Word);
    assert_eq!(column_type_by_classes(&[]), "text");
    assert_eq!(column_type_by_classes(&[blank, blank]), "text");
    assert_eq!(column_type_by_classes(&[number, word, blank]), "numeric");
    assert_eq!(column_type_by_classes(&[number, word, word, date]), "text");
    assert_eq!(column_type_by_classes(&[date, date, number]), "date");
}
