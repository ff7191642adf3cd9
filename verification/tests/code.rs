use xberg::code::{
    convert_data_node, CodeChunk, CodeExtractor, DataAttribute, DataNode, ProcessedCode, Span,
};
use xberg::config::{CodeContentMode, ExtractionConfig, TreeSitterConfig, TreeSitterProcessConfig};
use xberg::document::{CodeDataNodeKind, CodeMetadata, ElementKind, FormatMetadata};
use xberg::error::XbergError;
use xberg::myst::parse_text_notebook;
use xberg::security::{SecurityBudget, SecurityLimits};

#[test]
fn should_claim_common_text_notebook_mime_aliases() {
    let extractor = CodeExtractor::new();
    let supported = extractor.supported_mime_types();
    assert_eq!(
        supported,
        vec![
            "text/x-source-code",
            "text/x-python",
            "text/x-julia",
            "text/x-r-source"
        ]
    );
}

#[test]
fn test_grammar_cache_pack_config_none_when_no_tree_sitter_config() {
    assert!(CodeExtractor::grammar_cache_pack_config(None).is_none());
}

#[test]
fn test_grammar_cache_pack_config_none_when_cache_dir_unset() {
    let config = TreeSitterConfig::default();
    assert!(CodeExtractor::grammar_cache_pack_config(Some(&config)).is_none());
}

#[test]
fn test_grammar_cache_pack_config_carries_configured_cache_dir() {
    let config = TreeSitterConfig {
        cache_dir: Some("/tmp/my-grammars".to_string()),
        languages: Some(vec!["python".to_string()]),
        groups: Some(vec!["web".to_string()]),
        ..Default::default()
    };

    let pack_config =
        CodeExtractor::grammar_cache_pack_config(Some(&config)).expect("cache_dir set must produce a PackConfig");

    assert_eq!(pack_config.cache_dir, Some("/tmp/my-grammars".to_string()));
    assert!(pack_config.languages.is_none());
    assert!(pack_config.groups.is_none());
}

#[test]
fn test_disabled_tree_sitter_emits_raw_source() {
    let config = ExtractionConfig {
        tree_sitter: Some(TreeSitterConfig {
            enabled: false,
            ..Default::default()
        }),
        ..Default::default()
    };

    let source = "fn main() {\n    println!(\"hi\");\n}\n";
    let doc = CodeExtractor::extract_with_language(source, "rust", &config, Err("not parsed".to_string())).expect("raw extraction must succeed");

    assert_eq!(doc.elements.len(), 1, "exactly one raw code element expected");
    assert_eq!(doc.mime_type, "text/x-source-code");

    let Some(FormatMetadata::Code(CodeMetadata { chunks, data })) = doc.metadata.format.as_ref() else {
        panic!("expected Code format metadata");
    };
    assert!(chunks.is_empty(), "raw path must not populate chunks");
    assert!(data.is_none(), "raw path must not populate data");
}

#[test]
fn test_convert_data_node_maps_tree() {
    let child_span = Span {
        start_byte: 2,
        end_byte: 10,
        start_line: 0,
        start_column: 2,
        end_line: 0,
        end_column: 10,
    };
    let attr_span = Span {
        start_byte: 3,
        end_byte: 9,
        start_line: 0,
        start_column: 3,
        end_line: 0,
        end_column: 9,
    };
    let root_span = Span {
        start_byte: 0,
        end_byte: 12,
        start_line: 0,
        start_column: 0,
        end_line: 0,
        end_column: 12,
    };

    let child = DataNode {
        kind: CodeDataNodeKind::Element,
        key: Some("host".to_string()),
        value: Some("localhost".to_string()),
        attributes: vec![DataAttribute {
            name: "class".to_string(),
            value: "primary".to_string(),
            span: attr_span,
        }],
        children: Vec::new(),
        span: child_span,
    };

    let root = DataNode {
        kind: CodeDataNodeKind::KeyValue,
        key: None,
        value: None,
        attributes: Vec::new(),
        children: vec![child],
        span: root_span,
    };

    let converted = convert_data_node(&root);

    assert_eq!(converted.kind, CodeDataNodeKind::KeyValue);
    assert_eq!(converted.key, None);
    assert_eq!(converted.value, None);
    assert!(converted.attributes.is_empty());
    assert_eq!(converted.byte_start, 0);
    assert_eq!(converted.byte_end, 12);

    assert_eq!(converted.children.len(), 1);
    let converted_child = &converted.children[0];
    assert_eq!(converted_child.kind, CodeDataNodeKind::Element);
    assert_eq!(converted_child.key.as_deref(), Some("host"));
    assert_eq!(converted_child.value.as_deref(), Some("localhost"));
    assert_eq!(converted_child.byte_start, 2);
    assert_eq!(converted_child.byte_end, 10);

    assert_eq!(converted_child.attributes.len(), 1);
    let converted_attr = &converted_child.attributes[0];
    assert_eq!(converted_attr.name, "class");
    assert_eq!(converted_attr.value, "primary");
    assert_eq!(converted_attr.byte_start, 3);
    assert_eq!(converted_attr.byte_end, 9);
}

fn chunk(content: &str, path: &[&str], types: &[&str]) -> CodeChunk {
    CodeChunk {
        content: content.to_string(),
        context_path: path.iter().map(|p| p.to_string()).collect(),
        node_types: types.iter().map(|t| t.to_string()).collect(),
        start_byte: 0,
        end_byte: content.len(),
    }
}

#[test]
fn should_warn_when_source_file_is_not_valid_utf8() {
    let mut budget = SecurityBudget::with_defaults();
    let (source, lossy) = CodeExtractor::decode_source(b"print(\xFF\xFE'hi')", &mut budget).expect("decodes");
    assert!(lossy);
    assert_eq!(source, "print(\u{FFFD}\u{FFFD}'hi')");
    let mut doc = CodeExtractor::build_raw_document(&source, "python");
    CodeExtractor::note_lossy_source(&mut doc, lossy);
    let warnings: Vec<&str> = doc
        .processing_warnings
        .iter()
        .filter(|w| w.source == "code")
        .map(|w| w.message.as_str())
        .collect();
    assert_eq!(warnings.len(), 1);
    assert!(warnings[0].contains("not valid UTF-8") && warnings[0].contains("replacement character"));
}

#[test]
fn valid_utf8_source_file_produces_zero_warnings() {
    let mut budget = SecurityBudget::with_defaults();
    let (source, lossy) = CodeExtractor::decode_source(b"print('hi')", &mut budget).expect("decodes");
    assert!(!lossy);
    assert_eq!(source, "print('hi')");
    let mut doc = CodeExtractor::build_raw_document(&source, "python");
    CodeExtractor::note_lossy_source(&mut doc, lossy);
    assert!(doc.processing_warnings.is_empty());
}

#[test]
fn sources_past_the_content_ceiling_are_rejected() {
    let limits = SecurityLimits { max_content_size: 16, ..SecurityLimits::default() };
    let mut budget = SecurityBudget::from_limits(&limits);
    let error = CodeExtractor::decode_source(&[b'x'; 128], &mut budget).expect_err("too large");
    match error {
        XbergError::Security { message, .. } => assert!(message.contains("Content too large"), "{message}"),
        other => panic!("expected a security error, got {other:?}"),
    }
}

#[test]
fn pieces_of_a_source_stand_under_headings() {
    let processed = ProcessedCode {
        chunks: vec![chunk("fn a() {}", &["module", "a"], &["function_item"])],
        data: None,
        whole: None,
    };
    let doc = CodeExtractor::extract_with_language("fn a() {}", "rust", &ExtractionConfig::default(), Ok(processed))
        .expect("extracts");
    assert!(doc.elements.iter().any(|e| matches!(e.kind, ElementKind::Heading { .. })));
    assert!(doc.elements.iter().any(|e| e.kind == ElementKind::Code && e.text == "fn a() {}"));
    match &doc.metadata.format {
        Some(FormatMetadata::Code(meta)) => assert_eq!(meta.chunks.len(), 1),
        _ => panic!("expected the metadata of source code"),
    }
}

#[test]
fn raw_mode_keeps_the_whole_source() {
    let config = ExtractionConfig {
        tree_sitter: Some(TreeSitterConfig {
            process: TreeSitterProcessConfig { content_mode: CodeContentMode::Raw, data_extraction: false },
            ..Default::default()
        }),
        ..Default::default()
    };
    let processed = ProcessedCode { chunks: vec![], data: None, whole: None };
    let doc = CodeExtractor::extract_with_language("x = 1\n", "python", &config, Ok(processed)).expect("extracts");
    assert_eq!(doc.elements.len(), 1);
    assert_eq!(doc.elements[0].text, "x = 1\n");
}

#[test]
fn failed_parsers_are_reported() {
    let error = CodeExtractor::extract_with_language(
        "x",
        "rust",
        &ExtractionConfig::default(),
        Err("no grammar".to_string()),
    )
    .expect_err("the parser failed");
    match error {
        XbergError::Parsing { message, .. } => {
            assert_eq!(message, "tree-sitter processing failed for language 'rust': no grammar")
        }
        other => panic!("expected a parsing error, got {other:?}"),
    }
}

#[test]
fn languages_come_from_content_then_name_then_media_type() {
    let choose = CodeExtractor::choose_language;
    let named = |s: &str| Some(s.to_string());
    assert_eq!(choose(named("ruby"), named("python"), "text/x-julia").expect("found"), "ruby");
    assert_eq!(choose(None, named("python"), "text/x-julia").expect("found"), "python");
    assert_eq!(choose(None, None, "text/x-julia").expect("found"), "julia");
    assert!(matches!(choose(None, None, "text/plain"), Err(XbergError::UnsupportedFormat(_))));
}

#[test]
fn text_notebook_should_share_code_extraction_security_budget() {
    let source = "# %% [markdown]\n# first\n# %%\nx = 1\n";
    let limits = SecurityLimits {
        max_content_size: source.len() * 4,
        max_iterations: 1,
        ..SecurityLimits::default()
    };
    let mut budget = SecurityBudget::from_limits(&limits);
    let (decoded, _) = CodeExtractor::decode_source(source.as_bytes(), &mut budget).expect("within the ceilings");
    match parse_text_notebook(&decoded, &mut budget) {
        Err(XbergError::Security { message, .. }) => assert!(message.contains("Too many iterations"), "{message}"),
        Err(other) => panic!("expected a security error, got {other:?}"),
        Ok(_) => panic!("reading the notebook must use the same budget"),
    }
}
